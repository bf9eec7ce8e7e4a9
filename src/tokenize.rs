use vstd::prelude::*;
use crate::table::{WordCount, count_in, table_ok, words_distinct, lemma_count_in_absent, lemma_count_in_entry};

verus! {

/// Whether std classes `c` as whitespace.
pub uninterp spec fn space_of(c: char) -> bool;

/// Whether std classes `c` as alphabetic or numeric.
pub uninterp spec fn alnum_of(c: char) -> bool;

/// The lower-case form that std gives a string.
pub uninterp spec fn lower_of(s: Seq<char>) -> Seq<char>;

/// Relies on char::is_whitespace: a fixed property of the character.
#[verifier::external_body]
fn is_space(c: char) -> (r: bool)
    ensures
        r == space_of(c),
{
    c.is_whitespace()
}

/// Relies on char::is_alphanumeric: a fixed property of the character.
#[verifier::external_body]
fn is_alnum(c: char) -> (r: bool)
    ensures
        r == alnum_of(c),
{
    c.is_alphanumeric()
}

/// Relies on str::to_lowercase: the result depends on the characters alone.
#[verifier::external_body]
fn lowercase(s: &str) -> (r: String)
    ensures
        r@ == lower_of(s@),
{
    s.to_lowercase()
}

/// Relies on str::chars: the characters of the string, in order.
#[verifier::external_body]
pub(crate) fn chars_of(s: &str) -> (r: Vec<char>)
    ensures
        r@ == s@,
{
    s.chars().collect()
}

/// Relies on String's FromIterator<char>: the string of these characters.
#[verifier::external_body]
pub(crate) fn string_of(v: &Vec<char>) -> (r: String)
    ensures
        r@ == v@,
{
    v.iter().collect()
}

/// The alphanumeric characters of `s`, in order.
pub open spec fn keep_alnum(s: Seq<char>) -> Seq<char>
    decreases s.len(),
{
    if s.len() == 0 {
        s
    } else if alnum_of(s.last()) {
        keep_alnum(s.drop_last()).push(s.last())
    } else {
        keep_alnum(s.drop_last())
    }
}

/// The normalized form of a token: lower-cased, then only its alphanumeric characters.
pub open spec fn normalize(tok: Seq<char>) -> Seq<char> {
    keep_alnum(lower_of(tok))
}

/// The whitespace-delimited tokens of `s`, where `cur` is a token already begun.
pub open spec fn tokens_from(s: Seq<char>, cur: Seq<char>) -> Seq<Seq<char>>
    decreases s.len(),
{
    if s.len() == 0 {
        if cur.len() > 0 { seq![cur] } else { seq![] }
    } else if space_of(s[0]) {
        (if cur.len() > 0 { seq![cur] } else { seq![] }) + tokens_from(s.drop_first(), seq![])
    } else {
        tokens_from(s.drop_first(), cur.push(s[0]))
    }
}

/// The whitespace-delimited tokens of `s`: maximal runs of non-whitespace characters.
pub open spec fn tokens(s: Seq<char>) -> Seq<Seq<char>> {
    tokens_from(s, seq![])
}

/// How many tokens of `toks` normalize to `w`.
pub open spec fn freq(toks: Seq<Seq<char>>, w: Seq<char>) -> nat
    decreases toks.len(),
{
    if toks.len() == 0 {
        0
    } else {
        freq(toks.drop_last(), w) + if normalize(toks.last()) == w {
            1nat
        } else {
            0nat
        }
    }
}

proof fn lemma_freq_le_len(toks: Seq<Seq<char>>, w: Seq<char>)
    ensures
        freq(toks, w) <= toks.len(),
    decreases toks.len(),
{
    if toks.len() > 0 {
        lemma_freq_le_len(toks.drop_last(), w);
    }
}

/// The normalized form of a token, as a string.
pub fn normalize_token(tok: &Vec<char>) -> (r: String)
    ensures
        r@ == normalize(tok@),
{
    let raw = string_of(tok);
    let lower = chars_of(lowercase(raw.as_str()).as_str());
    let mut kept: Vec<char> = Vec::new();
    let mut i: usize = 0;
    while i < lower.len()
        invariant
            i <= lower.len(),
            lower@ == lower_of(tok@),
            kept@ == keep_alnum(lower@.subrange(0, i as int)),
        decreases lower.len() - i,
    {
        let c = lower[i];
        let ghost pre = lower@.subrange(0, i as int);
        let ghost next = lower@.subrange(0, i + 1);
        assert(next.drop_last() =~= pre);
        if is_alnum(c) {
            kept.push(c);
        }
        i += 1;
    }
    assert(lower@.subrange(0, lower.len() as int) =~= lower@);
    string_of(&kept)
}

/// Counts one more occurrence of the token's normalized form; a token that
/// normalizes to nothing leaves the table as it is.
fn add_token(table: &mut Vec<WordCount>, tok: &Vec<char>)
    requires
        table_ok(old(table)@),
        count_in(old(table)@, normalize(tok@)) < u32::MAX,
    ensures
        table_ok(final(table)@),
        forall|w: Seq<char>|
            w.len() > 0 ==> #[trigger] count_in(final(table)@, w) == count_in(old(table)@, w) + if normalize(tok@) == w {
                1nat
            } else {
                0nat
            },
{
    let word = normalize_token(tok);
    if word.as_str().is_empty() {
        return;
    }
    let mut k: usize = 0;
    while k < table.len()
        invariant
            k <= table.len(),
            forall|j: int| 0 <= j < k ==> table@[j].word@ != word@,
        ensures
            k <= table.len(),
            forall|j: int| 0 <= j < k ==> table@[j].word@ != word@,
            k < table.len() ==> table@[k as int].word@ == word@,
        decreases table.len() - k,
    {
        if table[k].word == word {
            break;
        }
        k += 1;
    }
    let ghost before = table@;
    if k < table.len() {
        proof {
            lemma_count_in_entry(before, k as int);
        }
        let n = table[k].count + 1;
        table.set(k, WordCount { word, count: n });
        proof {
            let after = table@;
            assert(words_distinct(after));
            assert forall|w: Seq<char>| w.len() > 0 implies #[trigger] count_in(after, w)
                == count_in(before, w) + if normalize(tok@) == w { 1nat } else { 0nat } by {
                if w == after[k as int].word@ {
                    lemma_count_in_entry(after, k as int);
                } else {
                    if exists|j: int| 0 <= j < before.len() && before[j].word@ == w {
                        let j = choose|j: int| 0 <= j < before.len() && before[j].word@ == w;
                        lemma_count_in_entry(before, j);
                        lemma_count_in_entry(after, j);
                    } else {
                        lemma_count_in_absent(before, w);
                        lemma_count_in_absent(after, w);
                    }
                }
            }
        }
    } else {
        proof {
            lemma_count_in_absent(before, word@);
        }
        table.push(WordCount { word, count: 1 });
        proof {
            let after = table@;
            assert(after.drop_last() =~= before);
        }
    }
}

/// Counts, for each normalized word, the whitespace-delimited tokens of
/// `content` that normalize to it.
pub fn count_words(content: &str) -> (r: Vec<WordCount>)
    requires
        content@.len() <= u32::MAX,
    ensures
        table_ok(r@),
        forall|w: Seq<char>| w.len() > 0 ==> #[trigger] count_in(r@, w) == freq(tokens(content@), w),
{
    let chars = chars_of(content);
    let ghost s = chars@;
    let ghost mut done: Seq<Seq<char>> = seq![];
    let mut table: Vec<WordCount> = Vec::new();
    let mut cur: Vec<char> = Vec::new();
    let mut i: usize = 0;
    assert(s.subrange(0, s.len() as int) =~= s);
    while i < chars.len()
        invariant
            s == chars@,
            s == content@,
            chars.len() <= u32::MAX,
            i <= chars.len(),
            tokens(s) == done + tokens_from(s.subrange(i as int, s.len() as int), cur@),
            done.len() + (if cur@.len() > 0 { 1int } else { 0int }) <= i,
            table_ok(table@),
            forall|w: Seq<char>| w.len() > 0 ==> #[trigger] count_in(table@, w) == freq(done, w),
        decreases chars.len() - i,
    {
        let c = chars[i];
        let ghost rest = s.subrange(i as int, s.len() as int);
        assert(rest.drop_first() =~= s.subrange(i + 1, s.len() as int));
        assert(rest[0] == c);
        if is_space(c) {
            if cur.len() > 0 {
                proof {
                    lemma_freq_le_len(done, normalize(cur@));
                    if normalize(cur@).len() == 0 {
                        lemma_count_in_absent(table@, normalize(cur@));
                    }
                }
                add_token(&mut table, &cur);
                proof {
                    let nd = done.push(cur@);
                    assert(nd.drop_last() =~= done);
                    assert(tokens(s) =~= nd + tokens_from(s.subrange(i + 1, s.len() as int), seq![]));
                    done = nd;
                }
                cur = Vec::new();
            } else {
                assert(cur@ =~= Seq::<char>::empty());
                assert(tokens_from(rest, cur@) =~= tokens_from(s.subrange(i + 1, s.len() as int), cur@));
                assert(tokens(s) =~= done + tokens_from(s.subrange(i + 1, s.len() as int), cur@));
            }
        } else {
            cur.push(c);
        }
        i += 1;
    }
    let ghost rest = s.subrange(i as int, s.len() as int);
    assert(rest.len() == 0);
    if cur.len() > 0 {
        proof {
            lemma_freq_le_len(done, normalize(cur@));
            if normalize(cur@).len() == 0 {
                lemma_count_in_absent(table@, normalize(cur@));
            }
        }
        add_token(&mut table, &cur);
        proof {
            let nd = done.push(cur@);
            assert(nd.drop_last() =~= done);
            assert(tokens(s) =~= nd);
            done = nd;
        }
    } else {
        assert(tokens(s) =~= done);
    }
    table
}

/// Two tables that both meet the contract of `count_words` for one text give
/// every word the same count: tokenizing a text is deterministic.
pub proof fn lemma_tokenize_deterministic(text: Seq<char>, r1: Seq<WordCount>, r2: Seq<WordCount>)
    requires
        table_ok(r1),
        table_ok(r2),
        forall|w: Seq<char>| w.len() > 0 ==> #[trigger] count_in(r1, w) == freq(tokens(text), w),
        forall|w: Seq<char>| w.len() > 0 ==> #[trigger] count_in(r2, w) == freq(tokens(text), w),
    ensures
        forall|w: Seq<char>| #[trigger] count_in(r1, w) == count_in(r2, w),
{
    assert forall|w: Seq<char>| #[trigger] count_in(r1, w) == count_in(r2, w) by {
        if w.len() == 0 {
            lemma_count_in_absent(r1, w);
            lemma_count_in_absent(r2, w);
        }
    }
}

} // verus!
