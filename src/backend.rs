use vstd::prelude::*;
use crate::rank::{ranks_before, top_n};
use crate::store::StoreError;
use crate::table::{WordCount, words_distinct};
use crate::tokenize::chars_of;

verus! {

/// The prefix that the backend's key for a document title starts with.
pub open spec fn key_prefix() -> Seq<char> {
    seq!['b', 'o', 'o', 'k', ':']
}

/// The backend key under which a title's table is kept.
pub fn book_key(title: &str) -> (r: String)
    ensures
        r@ == key_prefix() + title@,
{
    proof {
        reveal_strlit("book:");
    }
    let prefix = "book:".to_owned();
    let r = prefix.concat(title);
    assert(r@ =~= key_prefix() + title@);
    r
}

/// The title that a backend key stands for, if it has the document prefix.
pub fn title_of_key(key: &str) -> (r: Option<String>)
    ensures
        r is Some <==> (key@.len() >= 5 && key@.subrange(0, 5) == key_prefix()),
        r matches Some(t) ==> key@ == key_prefix() + t@,
{
    let c = chars_of(key);
    if c.len() < 5 || c[0] != 'b' || c[1] != 'o' || c[2] != 'o' || c[3] != 'k' || c[4] != ':' {
        proof {
            if c@.len() >= 5 && c@.subrange(0, 5) == key_prefix() {
                assert(c@.subrange(0, 5)[0] == 'b');
                assert(c@.subrange(0, 5)[1] == 'o');
                assert(c@.subrange(0, 5)[2] == 'o');
                assert(c@.subrange(0, 5)[3] == 'k');
                assert(c@.subrange(0, 5)[4] == ':');
            }
        }
        return None;
    }
    let mut rest: Vec<char> = Vec::new();
    let mut i: usize = 5;
    while i < c.len()
        invariant
            5 <= i <= c.len(),
            rest@ == c@.subrange(5, i as int),
        decreases c.len() - i,
    {
        rest.push(c[i]);
        i += 1;
        assert(rest@ =~= c@.subrange(5, i as int));
    }
    assert(c@.subrange(0, 5) =~= key_prefix());
    assert(c@ =~= key_prefix() + rest@);
    Some(crate::tokenize::string_of(&rest))
}

/// The titles of the keys that have the document prefix, in order.
pub open spec fn titles_of(keys: Seq<Seq<char>>) -> Seq<Seq<char>>
    decreases keys.len(),
{
    if keys.len() == 0 {
        seq![]
    } else {
        let k = keys.last();
        let before = titles_of(keys.drop_last());
        if k.len() >= 5 && k.subrange(0, 5) == key_prefix() {
            before.push(k.subrange(5, k.len() as int))
        } else {
            before
        }
    }
}

/// The titles named by those backend keys that have the document prefix.
pub fn titles_from_keys(keys: &Vec<String>) -> (r: Vec<String>)
    ensures
        r@.map_values(|s: String| s@) == titles_of(keys@.map_values(|s: String| s@)),
{
    let ghost ks = keys@.map_values(|s: String| s@);
    let mut r: Vec<String> = Vec::new();
    let mut i: usize = 0;
    while i < keys.len()
        invariant
            i <= keys.len(),
            ks == keys@.map_values(|s: String| s@),
            r@.map_values(|s: String| s@) == titles_of(ks.subrange(0, i as int)),
        decreases keys.len() - i,
    {
        let ghost pre = ks.subrange(0, i as int);
        let ghost next = ks.subrange(0, i + 1);
        assert(next.drop_last() =~= pre);
        let ghost before = r@;
        match title_of_key(keys[i].as_str()) {
            Some(t) => {
                let ghost key = keys@[i as int]@;
                assert(key.subrange(5, key.len() as int) =~= t@);
                r.push(t);
                assert(r@.map_values(|s: String| s@) =~= before.map_values(|s: String| s@).push(t@));
            },
            None => {},
        }
        i += 1;
    }
    assert(ks.subrange(0, keys.len() as int) =~= ks);
    r
}

/// The value of a decimal digit character.
pub open spec fn digit_value(c: char) -> int {
    if c == '1' { 1 }
    else if c == '2' { 2 }
    else if c == '3' { 3 }
    else if c == '4' { 4 }
    else if c == '5' { 5 }
    else if c == '6' { 6 }
    else if c == '7' { 7 }
    else if c == '8' { 8 }
    else if c == '9' { 9 }
    else { 0 }
}

/// A decimal digit character.
pub open spec fn is_digit(c: char) -> bool {
    '0' <= c && c <= '9'
}

/// The number that a string of decimal digits denotes.
pub open spec fn decimal_value(s: Seq<char>) -> int
    decreases s.len(),
{
    if s.len() == 0 { 0 } else { decimal_value(s.drop_last()) * 10 + digit_value(s.last()) }
}

/// `s` is a decimal count that fits in 32 bits.
pub open spec fn valid_count(s: Seq<char>) -> bool {
    &&& s.len() > 0
    &&& forall|i: int| 0 <= i < s.len() ==> is_digit(#[trigger] s[i])
    &&& decimal_value(s) <= u32::MAX
}

proof fn lemma_decimal_grows(s: Seq<char>, i: int)
    requires
        0 <= i <= s.len(),
    ensures
        decimal_value(s) >= decimal_value(s.subrange(0, i)),
    decreases s.len(),
{
    assert(decimal_value(s) >= 0) by { lemma_decimal_nonneg(s); }
    if i < s.len() {
        assert(s.drop_last().subrange(0, i) =~= s.subrange(0, i));
        lemma_decimal_grows(s.drop_last(), i);
        lemma_decimal_nonneg(s.drop_last());
    } else {
        assert(s.subrange(0, i) =~= s);
    }
}

proof fn lemma_decimal_nonneg(s: Seq<char>)
    ensures
        decimal_value(s) >= 0,
    decreases s.len(),
{
    if s.len() > 0 {
        lemma_decimal_nonneg(s.drop_last());
    }
}

fn digit_of(c: char) -> (r: Option<u64>)
    ensures
        r is Some <==> is_digit(c),
        r matches Some(d) ==> d == digit_value(c),
{
    match c {
        '0' => Some(0),
        '1' => Some(1),
        '2' => Some(2),
        '3' => Some(3),
        '4' => Some(4),
        '5' => Some(5),
        '6' => Some(6),
        '7' => Some(7),
        '8' => Some(8),
        '9' => Some(9),
        _ => None,
    }
}

/// Reads a stored count: decimal digits only, at most `u32::MAX`.
pub fn parse_count(s: &str) -> (r: Option<u32>)
    ensures
        r is Some <==> valid_count(s@),
        r matches Some(v) ==> v == decimal_value(s@),
{
    let c = chars_of(s);
    if c.len() == 0 {
        return None;
    }
    let mut acc: u64 = 0;
    let mut i: usize = 0;
    while i < c.len()
        invariant
            c@ == s@,
            i <= c.len(),
            acc == decimal_value(c@.subrange(0, i as int)),
            acc <= u32::MAX,
            forall|j: int| 0 <= j < i ==> is_digit(#[trigger] c@[j]),
        decreases c.len() - i,
    {
        assert(c@.subrange(0, i + 1).drop_last() =~= c@.subrange(0, i as int));
        match digit_of(c[i]) {
            Some(d) => {
                let next = acc * 10 + d;
                if next > 0xffff_ffff {
                    proof {
                        lemma_decimal_grows(c@, i + 1);
                    }
                    return None;
                }
                acc = next;
            },
            None => {
                return None;
            },
        }
        i += 1;
    }
    assert(c@.subrange(0, i as int) =~= c@);
    Some(acc as u32)
}

/// A table read back from the backend's field and value strings.
pub open spec fn decoded(fields: Seq<(String, String)>) -> Seq<WordCount> {
    fields.map_values(|f: (String, String)| WordCount { word: f.0, count: decimal_value(f.1@) as u32 })
}

/// Decodes the backend's fields of a document: each field is a word, each
/// value its count. Fails whole if any count is not a valid count, or if a
/// word occurs twice.
pub fn decode_counts(fields: Vec<(String, String)>) -> (r: Result<Vec<WordCount>, StoreError>)
    ensures
        r is Ok <==> (
            (forall|i: int| 0 <= i < fields.len() ==> valid_count(#[trigger] fields@[i].1@))
            && (forall|j: int, k: int| 0 <= j < k < fields.len() ==> fields@[j].0@ != fields@[k].0@)
        ),
        r matches Err(e) ==> e == StoreError::DecodeFailed,
        r matches Ok(t) ==> t@ == decoded(fields@) && words_distinct(t@),
{
    let mut out: Vec<WordCount> = Vec::new();
    let mut i: usize = 0;
    while i < fields.len()
        invariant
            i <= fields.len(),
            out@ == decoded(fields@).subrange(0, i as int),
            forall|j: int| 0 <= j < i ==> valid_count(#[trigger] fields@[j].1@),
            forall|j: int, k: int| 0 <= j < k < i ==> fields@[j].0@ != fields@[k].0@,
        decreases fields.len() - i,
    {
        let count = match parse_count(fields[i].1.as_str()) {
            Some(v) => v,
            None => {
                return Err(StoreError::DecodeFailed);
            },
        };
        let mut j: usize = 0;
        while j < i
            invariant
                j <= i < fields.len(),
                forall|m: int| 0 <= m < j ==> fields@[m].0@ != fields@[i as int].0@,
            decreases i - j,
        {
            if fields[j].0 == fields[i].0 {
                return Err(StoreError::DecodeFailed);
            }
            j += 1;
        }
        out.push(WordCount { word: fields[i].0.clone(), count });
        i += 1;
        assert(out@ =~= decoded(fields@).subrange(0, i as int));
    }
    assert(decoded(fields@).subrange(0, i as int) =~= decoded(fields@));
    Ok(out)
}

/// Decodes a document's backend fields and ranks them: the `n` highest-ranked
/// entries, or `DecodeFailed` where the fields do not decode.
pub fn rank_fields(fields: Vec<(String, String)>, n: usize) -> (r: Result<Vec<WordCount>, StoreError>)
    ensures
        r is Ok <==> (
            (forall|i: int| 0 <= i < fields.len() ==> valid_count(#[trigger] fields@[i].1@))
            && (forall|j: int, k: int| 0 <= j < k < fields.len() ==> fields@[j].0@ != fields@[k].0@)
        ),
        r matches Err(e) ==> e == StoreError::DecodeFailed,
        r matches Ok(t) ==> {
            &&& t.len() == if n < fields.len() { n as int } else { fields.len() as int }
            &&& forall|p: int, q: int| 0 <= p < q < t.len() ==> ranks_before(t@[p], t@[q])
            &&& forall|p: int| 0 <= p < t.len() ==> decoded(fields@).contains(#[trigger] t@[p])
            &&& forall|i: int|
                0 <= i < fields.len() && !t@.contains(#[trigger] decoded(fields@)[i])
                    ==> forall|p: int| 0 <= p < t.len() ==> ranks_before(#[trigger] t@[p], decoded(fields@)[i])
        },
{
    let counts = decode_counts(fields)?;
    Ok(top_n(&counts, n))
}

} // verus!
