use vstd::prelude::*;
use crate::table::{WordCount, words_distinct};
use crate::tokenize::chars_of;

verus! {

/// `a` comes strictly before `b` in lexicographic order of code points.
pub open spec fn word_lt(a: Seq<char>, b: Seq<char>) -> bool
    decreases a.len(),
{
    if a.len() == 0 {
        b.len() > 0
    } else if b.len() == 0 {
        false
    } else if a[0] != b[0] {
        a[0] < b[0]
    } else {
        word_lt(a.drop_first(), b.drop_first())
    }
}

/// Entry `a` is ranked before entry `b`: a higher count, or an equal count and
/// a lexicographically smaller word.
pub open spec fn ranks_before(a: WordCount, b: WordCount) -> bool {
    a.count > b.count || (a.count == b.count && word_lt(a.word@, b.word@))
}

pub proof fn lemma_word_lt_trans(a: Seq<char>, b: Seq<char>, c: Seq<char>)
    requires
        word_lt(a, b),
        word_lt(b, c),
    ensures
        word_lt(a, c),
    decreases a.len(),
{
    if a.len() > 0 && a[0] == b[0] && b[0] == c[0] {
        lemma_word_lt_trans(a.drop_first(), b.drop_first(), c.drop_first());
    }
}

pub proof fn lemma_word_lt_total(a: Seq<char>, b: Seq<char>)
    requires
        a != b,
    ensures
        word_lt(a, b) || word_lt(b, a),
    decreases a.len(),
{
    if a.len() > 0 && b.len() > 0 && a[0] == b[0] {
        if a.drop_first() == b.drop_first() {
            assert(a =~= seq![a[0]] + a.drop_first());
            assert(b =~= seq![b[0]] + b.drop_first());
        }
        lemma_word_lt_total(a.drop_first(), b.drop_first());
    } else if a.len() == 0 && b.len() == 0 {
        assert(a =~= b);
    }
}

pub proof fn lemma_ranks_before_trans(a: WordCount, b: WordCount, c: WordCount)
    requires
        ranks_before(a, b),
        ranks_before(b, c),
    ensures
        ranks_before(a, c),
{
    if a.count == b.count && b.count == c.count {
        lemma_word_lt_trans(a.word@, b.word@, c.word@);
    }
}

/// Whether `a` comes strictly before `b` in lexicographic order.
pub fn word_less(a: &String, b: &String) -> (r: bool)
    ensures
        r == word_lt(a@, b@),
{
    let x = chars_of(a.as_str());
    let y = chars_of(b.as_str());
    let mut i: usize = 0;
    assert(x@.subrange(0, x@.len() as int) =~= x@);
    assert(y@.subrange(0, y@.len() as int) =~= y@);
    while i < x.len() && i < y.len()
        invariant
            x@ == a@,
            y@ == b@,
            i <= x.len(),
            i <= y.len(),
            word_lt(a@, b@) == word_lt(
                x@.subrange(i as int, x@.len() as int),
                y@.subrange(i as int, y@.len() as int),
            ),
        decreases x.len() - i,
    {
        let ghost xs = x@.subrange(i as int, x@.len() as int);
        let ghost ys = y@.subrange(i as int, y@.len() as int);
        assert(xs[0] == x@[i as int]);
        assert(ys[0] == y@[i as int]);
        if x[i] != y[i] {
            return x[i] < y[i];
        }
        assert(xs.drop_first() =~= x@.subrange(i + 1, x@.len() as int));
        assert(ys.drop_first() =~= y@.subrange(i + 1, y@.len() as int));
        i += 1;
    }
    i == x.len() && i < y.len()
}

/// Whether entry `a` is ranked before entry `b`.
pub fn ranked_before(a: &WordCount, b: &WordCount) -> (r: bool)
    ensures
        r == ranks_before(*a, *b),
{
    a.count > b.count || (a.count == b.count && word_less(&a.word, &b.word))
}

/// The index of the entry of `v` that ranks before all its others.
fn best_index(v: &Vec<WordCount>) -> (r: usize)
    requires
        v.len() > 0,
        words_distinct(v@),
    ensures
        r < v.len(),
        forall|m: int| 0 <= m < v.len() && m != r ==> ranks_before(v@[r as int], #[trigger] v@[m]),
{
    let mut best: usize = 0;
    let mut j: usize = 1;
    while j < v.len()
        invariant
            1 <= j <= v.len(),
            best < j,
            words_distinct(v@),
            forall|m: int| 0 <= m < j && m != best ==> ranks_before(v@[best as int], #[trigger] v@[m]),
        decreases v.len() - j,
    {
        if ranked_before(&v[j], &v[best]) {
            proof {
                assert forall|m: int| 0 <= m < j + 1 && m != j implies ranks_before(v@[j as int], #[trigger] v@[m]) by {
                    if m != best {
                        lemma_ranks_before_trans(v@[j as int], v@[best as int], v@[m]);
                    }
                }
            }
            best = j;
        } else {
            proof {
                lemma_word_lt_total(v@[j as int].word@, v@[best as int].word@);
            }
        }
        j += 1;
    }
    best
}

/// The first `n` entries of `counts` in rank order: count descending, then word ascending.
pub fn top_n(counts: &Vec<WordCount>, n: usize) -> (r: Vec<WordCount>)
    requires
        words_distinct(counts@),
    ensures
        r.len() == if n < counts.len() { n } else { counts.len() },
        forall|p: int, q: int| 0 <= p < q < r.len() ==> ranks_before(r@[p], r@[q]),
        forall|p: int| 0 <= p < r.len() ==> counts@.contains(#[trigger] r@[p]),
        forall|i: int|
            0 <= i < counts.len() && !r@.contains(#[trigger] counts@[i]) ==> forall|p: int|
                0 <= p < r.len() ==> ranks_before(#[trigger] r@[p], counts@[i]),
{
    let limit: usize = if n < counts.len() { n } else { counts.len() };
    let mut rest = crate::table::copy_table(counts);
    let mut out: Vec<WordCount> = Vec::new();
    while out.len() < limit
        invariant
            limit <= counts.len(),
            limit == if n < counts.len() { n } else { counts.len() },
            out.len() <= limit,
            out.len() + rest.len() == counts.len(),
            words_distinct(rest@),
            forall|i: int| 0 <= i < counts.len() ==> out@.contains(#[trigger] counts@[i]) || rest@.contains(counts@[i]),
            forall|p: int| 0 <= p < out.len() ==> counts@.contains(#[trigger] out@[p]),
            forall|j: int| 0 <= j < rest.len() ==> counts@.contains(#[trigger] rest@[j]),
            forall|p: int, j: int| 0 <= p < out.len() && 0 <= j < rest.len() ==> ranks_before(#[trigger] out@[p], #[trigger] rest@[j]),
            forall|p: int, q: int| 0 <= p < q < out.len() ==> ranks_before(out@[p], out@[q]),
        decreases limit - out.len(),
    {
        let b = best_index(&rest);
        let ghost old_rest = rest@;
        let ghost old_out = out@;
        let e = rest.remove(b);
        out.push(e);
        proof {
            assert forall|j: int| 0 <= j < rest.len() implies #[trigger] rest@[j] == old_rest[if j < b { j } else { j + 1 }] by {}
            assert forall|j: int, k: int| 0 <= j < k < rest.len() implies rest@[j].word@ != rest@[k].word@ by {
                assert(rest@[j] == old_rest[if j < b { j } else { j + 1 }]);
                assert(rest@[k] == old_rest[if k < b { k } else { k + 1 }]);
            }
            assert forall|i: int| 0 <= i < counts.len() implies out@.contains(#[trigger] counts@[i]) || rest@.contains(counts@[i]) by {
                if old_out.contains(counts@[i]) {
                    let p = choose|p: int| 0 <= p < old_out.len() && old_out[p] == counts@[i];
                    assert(out@[p] == counts@[i]);
                } else {
                    let j = choose|j: int| 0 <= j < old_rest.len() && old_rest[j] == counts@[i];
                    if j == b {
                        assert(out@[old_out.len() as int] == counts@[i]);
                    } else if j < b {
                        assert(rest@[j] == counts@[i]);
                    } else {
                        assert(rest@[j - 1] == counts@[i]);
                    }
                }
            }
            assert forall|p: int| 0 <= p < out.len() implies counts@.contains(#[trigger] out@[p]) by {
                if p < old_out.len() {
                    assert(out@[p] == old_out[p]);
                } else {
                    assert(out@[p] == old_rest[b as int]);
                }
            }
            assert forall|j: int| 0 <= j < rest.len() implies counts@.contains(#[trigger] rest@[j]) by {
                assert(rest@[j] == old_rest[if j < b { j } else { j + 1 }]);
            }
            assert forall|p: int, j: int| 0 <= p < out.len() && 0 <= j < rest.len() implies ranks_before(#[trigger] out@[p], #[trigger] rest@[j]) by {
                let jj = if j < b { j } else { j + 1 };
                assert(rest@[j] == old_rest[jj]);
                if p < old_out.len() {
                    assert(out@[p] == old_out[p]);
                    assert(ranks_before(old_out[p], old_rest[jj]));
                } else {
                    assert(out@[p] == old_rest[b as int]);
                    assert(ranks_before(old_rest[b as int], old_rest[jj]));
                }
            }
            assert forall|p: int, q: int| 0 <= p < q < out.len() implies ranks_before(out@[p], out@[q]) by {
                assert(out@[p] == old_out[p]);
                if q < old_out.len() {
                    assert(out@[q] == old_out[q]);
                } else {
                    assert(out@[q] == old_rest[b as int]);
                    assert(ranks_before(old_out[p], old_rest[b as int]));
                }
            }
        }
    }
    proof {
        assert forall|i: int| 0 <= i < counts.len() && !out@.contains(#[trigger] counts@[i]) implies forall|p: int|
            0 <= p < out.len() ==> ranks_before(#[trigger] out@[p], counts@[i]) by {
            let j = choose|j: int| 0 <= j < rest.len() && rest@[j] == counts@[i];
            assert forall|p: int| 0 <= p < out.len() implies ranks_before(#[trigger] out@[p], counts@[i]) by {
                assert(ranks_before(out@[p], rest@[j]));
            }
        }
    }
    out
}

} // verus!
