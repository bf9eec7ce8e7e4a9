use vstd::prelude::*;
use crate::rank::top_n;
use crate::table::{WordCount, copy_table, count_in, table_ok, words_distinct};
use crate::tokenize::{count_words, freq, tokens};

verus! {

/// Why a store operation failed.
#[derive(Debug, PartialEq, Eq, Structural)]
pub enum StoreError {
    /// The backend could not be reached.
    ConnectionFailed,
    /// A stored count is not a non-negative integer.
    DecodeFailed,
}

/// A document title with its frequency table.
pub struct Book {
    pub title: String,
    pub counts: Vec<WordCount>,
}

/// An in-memory store of frequency tables keyed by title.
pub struct MemStore {
    books: Vec<Book>,
    model: Ghost<Map<Seq<char>, Seq<WordCount>>>,
}

/// The table that `m` holds under `title`, or an empty table for an unknown title.
pub open spec fn loaded(m: Map<Seq<char>, Seq<WordCount>>, title: Seq<char>) -> Seq<WordCount> {
    if m.contains_key(title) {
        m[title]
    } else {
        Seq::empty()
    }
}

impl View for MemStore {
    type V = Map<Seq<char>, Seq<WordCount>>;

    closed spec fn view(&self) -> Map<Seq<char>, Seq<WordCount>> {
        self.model@
    }
}

impl MemStore {
    /// The books have distinct titles and distinct words, and agree with the model.
    pub closed spec fn wf(&self) -> bool {
        let b = self.books@;
        let m = self.model@;
        &&& forall|j: int, k: int| 0 <= j < k < b.len() ==> b[j].title@ != b[k].title@
        &&& forall|k: int|
            0 <= k < b.len() ==> m.contains_key(#[trigger] b[k].title@) && m[b[k].title@]
                == b[k].counts@ && words_distinct(b[k].counts@)
        &&& forall|t: Seq<char>|
            m.contains_key(t) ==> exists|k: int| 0 <= k < b.len() && #[trigger] b[k].title@ == t
    }

    /// An empty store.
    pub fn new() -> (r: MemStore)
        ensures
            r.wf(),
            r@ == Map::<Seq<char>, Seq<WordCount>>::empty(),
    {
        MemStore { books: Vec::new(), model: Ghost(Map::empty()) }
    }

    fn find(&self, title: &str) -> (r: Option<usize>)
        requires
            self.wf(),
        ensures
            match r {
                Some(k) => k < self.books.len() && self.books@[k as int].title@ == title@,
                None => !self@.contains_key(title@),
            },
    {
        let key = title.to_owned();
        let mut k: usize = 0;
        while k < self.books.len()
            invariant
                key@ == title@,
                k <= self.books.len(),
                forall|j: int| 0 <= j < k ==> self.books@[j].title@ != title@,
            decreases self.books.len() - k,
        {
            if self.books[k].title == key {
                return Some(k);
            }
            k += 1;
        }
        None
    }

    /// Stores `counts` under `title`, replacing whatever table it held.
    pub fn save(&mut self, title: &str, counts: Vec<WordCount>)
        requires
            old(self).wf(),
            words_distinct(counts@),
        ensures
            final(self).wf(),
            final(self)@ == old(self)@.insert(title@, counts@),
    {
        let ghost m = self.model@.insert(title@, counts@);
        match self.find(title) {
            Some(k) => {
                let ghost b = self.books@;
                let name = self.books[k].title.clone();
                self.books.set(k, Book { title: name, counts });
                self.model = Ghost(m);
                assert forall|t: Seq<char>| m.contains_key(t) implies exists|k: int|
                    0 <= k < self.books@.len() && #[trigger] self.books@[k].title@ == t by {
                    if t != title@ {
                        let j = choose|j: int| 0 <= j < b.len() && #[trigger] b[j].title@ == t;
                        assert(self.books@[j].title@ == t);
                    } else {
                        assert(self.books@[k as int].title@ == t);
                    }
                }
            },
            None => {
                let ghost b = self.books@;
                self.books.push(Book { title: title.to_owned(), counts });
                self.model = Ghost(m);
                assert forall|t: Seq<char>| m.contains_key(t) implies exists|k: int|
                    0 <= k < self.books@.len() && #[trigger] self.books@[k].title@ == t by {
                    if t != title@ {
                        let j = choose|j: int| 0 <= j < b.len() && #[trigger] b[j].title@ == t;
                        assert(self.books@[j].title@ == t);
                    } else {
                        assert(self.books@[b.len() as int].title@ == t);
                    }
                }
            },
        }
    }

    /// The table stored under `title`; an empty table for an unknown title.
    pub fn load(&self, title: &str) -> (r: Vec<WordCount>)
        requires
            self.wf(),
        ensures
            r@ == loaded(self@, title@),
            words_distinct(r@),
    {
        match self.find(title) {
            Some(k) => copy_table(&self.books[k].counts),
            None => Vec::new(),
        }
    }

    /// Every title that the store holds, each once.
    pub fn list_titles(&self) -> (r: Vec<String>)
        requires
            self.wf(),
        ensures
            forall|t: Seq<char>| self@.contains_key(t) <==> exists|i: int| 0 <= i < r.len() && #[trigger] r@[i]@ == t,
            forall|i: int, j: int| 0 <= i < j < r.len() ==> r@[i]@ != r@[j]@,
    {
        let mut r: Vec<String> = Vec::new();
        let mut k: usize = 0;
        while k < self.books.len()
            invariant
                self.wf(),
                k <= self.books.len(),
                r.len() == k,
                forall|i: int| 0 <= i < k ==> #[trigger] r@[i]@ == self.books@[i].title@,
            decreases self.books.len() - k,
        {
            r.push(self.books[k].title.clone());
            k += 1;
        }
        assert forall|t: Seq<char>| self@.contains_key(t) implies exists|i: int| 0 <= i < r.len() && #[trigger] r@[i]@ == t by {
            let j = choose|j: int| 0 <= j < self.books@.len() && #[trigger] self.books@[j].title@ == t;
            assert(r@[j]@ == t);
        }
        r
    }
}

/// Tokenizes `text` and stores its table under `title`, replacing any earlier one.
pub fn save_book(store: &mut MemStore, title: &str, text: &str)
    requires
        old(store).wf(),
        text@.len() <= u32::MAX,
    ensures
        final(store).wf(),
        final(store)@.dom() == old(store)@.dom().insert(title@),
        table_ok(final(store)@[title@]),
        forall|w: Seq<char>|
            w.len() > 0 ==> #[trigger] count_in(final(store)@[title@], w) == freq(tokens(text@), w),
        forall|t: Seq<char>| t != title@ ==> #[trigger] final(store)@.get(t) == old(store)@.get(t),
{
    let counts = count_words(text);
    store.save(title, counts);
}

/// The `n` highest-ranked entries of the table stored under `title`.
pub fn get_top_words(store: &MemStore, title: &str, n: usize) -> (r: Vec<WordCount>)
    requires
        store.wf(),
    ensures
        r.len() == if n < loaded(store@, title@).len() { n as int } else { loaded(store@, title@).len() as int },
        forall|p: int, q: int| 0 <= p < q < r.len() ==> crate::rank::ranks_before(r@[p], r@[q]),
        forall|p: int| 0 <= p < r.len() ==> loaded(store@, title@).contains(#[trigger] r@[p]),
        forall|i: int|
            0 <= i < loaded(store@, title@).len() && !r@.contains(#[trigger] loaded(store@, title@)[i])
                ==> forall|p: int| 0 <= p < r.len() ==> crate::rank::ranks_before(#[trigger] r@[p], loaded(store@, title@)[i]),
{
    let counts = store.load(title);
    top_n(&counts, n)
}

/// The titles of every stored book, each once.
pub fn list_books(store: &MemStore) -> (r: Vec<String>)
    requires
        store.wf(),
    ensures
        forall|t: Seq<char>| store@.contains_key(t) <==> exists|i: int| 0 <= i < r.len() && #[trigger] r@[i]@ == t,
        forall|i: int, j: int| 0 <= i < j < r.len() ==> r@[i]@ != r@[j]@,
{
    store.list_titles()
}

/// Loading a title right after saving a table under it gives back that table.
pub proof fn lemma_round_trip(m: Map<Seq<char>, Seq<WordCount>>, title: Seq<char>, c: Seq<WordCount>)
    ensures
        loaded(m.insert(title, c), title) == c,
{
}

/// A second save under the same title replaces the first one whole.
pub proof fn lemma_overwrite(
    m: Map<Seq<char>, Seq<WordCount>>,
    title: Seq<char>,
    c1: Seq<WordCount>,
    c2: Seq<WordCount>,
)
    ensures
        loaded(m.insert(title, c1).insert(title, c2), title) == c2,
{
}

/// After saving under two titles, in either order, the store holds both.
pub proof fn lemma_catalog(
    m: Map<Seq<char>, Seq<WordCount>>,
    a: Seq<char>,
    b: Seq<char>,
    ca: Seq<WordCount>,
    cb: Seq<WordCount>,
)
    ensures
        m.insert(a, ca).insert(b, cb).contains_key(a),
        m.insert(a, ca).insert(b, cb).contains_key(b),
        m.insert(b, cb).insert(a, ca).contains_key(a),
        m.insert(b, cb).insert(a, ca).contains_key(b),
{
}

/// A title that was never saved loads as an empty table.
pub proof fn lemma_unknown_title(m: Map<Seq<char>, Seq<WordCount>>, title: Seq<char>)
    requires
        !m.contains_key(title),
    ensures
        loaded(m, title).len() == 0,
{
}

} // verus!
