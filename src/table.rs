use vstd::prelude::*;

verus! {

/// One entry of a frequency table: a normalized word and how often it occurs.
pub struct WordCount {
    pub word: String,
    pub count: u32,
}

/// No two entries of `v` share a word.
pub open spec fn words_distinct(v: Seq<WordCount>) -> bool {
    forall|j: int, k: int| 0 <= j < k < v.len() ==> v[j].word@ != v[k].word@
}

/// A well-formed frequency table: distinct, non-empty words with positive counts.
pub open spec fn table_ok(v: Seq<WordCount>) -> bool {
    &&& words_distinct(v)
    &&& forall|k: int| 0 <= k < v.len() ==> v[k].word@.len() > 0 && v[k].count > 0
}

/// The count that table `v` gives to word `w` (zero where `w` is absent).
pub open spec fn count_in(v: Seq<WordCount>, w: Seq<char>) -> nat
    decreases v.len(),
{
    if v.len() == 0 {
        0
    } else {
        count_in(v.drop_last(), w) + if v.last().word@ == w {
            v.last().count as nat
        } else {
            0
        }
    }
}

pub proof fn lemma_count_in_absent(v: Seq<WordCount>, w: Seq<char>)
    requires
        forall|k: int| 0 <= k < v.len() ==> v[k].word@ != w,
    ensures
        count_in(v, w) == 0,
    decreases v.len(),
{
    if v.len() > 0 {
        lemma_count_in_absent(v.drop_last(), w);
    }
}

pub proof fn lemma_count_in_entry(v: Seq<WordCount>, k: int)
    requires
        words_distinct(v),
        0 <= k < v.len(),
    ensures
        count_in(v, v[k].word@) == v[k].count,
    decreases v.len(),
{
    if k == v.len() - 1 {
        lemma_count_in_absent(v.drop_last(), v[k].word@);
    } else {
        lemma_count_in_entry(v.drop_last(), k);
    }
}

/// A copy of an entry.
pub fn copy_entry(e: &WordCount) -> (r: WordCount)
    ensures
        r == *e,
{
    WordCount { word: e.word.clone(), count: e.count }
}

/// A copy of a whole table.
pub fn copy_table(v: &Vec<WordCount>) -> (r: Vec<WordCount>)
    ensures
        r@ == v@,
{
    let mut r: Vec<WordCount> = Vec::new();
    let mut i: usize = 0;
    while i < v.len()
        invariant
            i <= v.len(),
            r@ == v@.subrange(0, i as int),
        decreases v.len() - i,
    {
        r.push(copy_entry(&v[i]));
        i += 1;
        assert(r@ =~= v@.subrange(0, i as int));
    }
    assert(r@ =~= v@);
    r
}

} // verus!
