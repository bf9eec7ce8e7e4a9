use book_words::backend::{book_key, decode_counts, parse_count, rank_fields, title_of_key, titles_from_keys};
use book_words::rank::{top_n, word_less};
use book_words::store::{get_top_words, list_books, save_book, MemStore, StoreError};
use book_words::table::WordCount;
use book_words::tokenize::{count_words, normalize_token};

fn entry(word: &str, count: u32) -> WordCount {
    WordCount { word: word.to_string(), count }
}

fn pairs(v: &[WordCount]) -> Vec<(String, u32)> {
    v.iter().map(|e| (e.word.clone(), e.count)).collect()
}

fn sorted_pairs(v: &[WordCount]) -> Vec<(String, u32)> {
    let mut p = pairs(v);
    p.sort();
    p
}

fn scenario_table() -> Vec<WordCount> {
    count_words("The quick, quick fox! FOX.")
}

#[test]
fn scenario_tokenizes() {
    let t = scenario_table();
    assert_eq!(
        sorted_pairs(&t),
        vec![("fox".to_string(), 2), ("quick".to_string(), 2), ("the".to_string(), 1)]
    );
}

#[test]
fn scenario_top_two() {
    let t = scenario_table();
    assert_eq!(pairs(&top_n(&t, 2)), vec![("fox".to_string(), 2), ("quick".to_string(), 2)]);
}

#[test]
fn scenario_top_zero() {
    let t = scenario_table();
    assert!(top_n(&t, 0).is_empty());
}

#[test]
fn scenario_top_ten() {
    let t = scenario_table();
    assert_eq!(
        pairs(&top_n(&t, 10)),
        vec![("fox".to_string(), 2), ("quick".to_string(), 2), ("the".to_string(), 1)]
    );
}

#[test]
fn tokenize_twice_same() {
    let text = "a b  A\tc\n b-b ...";
    assert_eq!(sorted_pairs(&count_words(text)), sorted_pairs(&count_words(text)));
}

#[test]
fn tokenize_counts_normalized_tokens() {
    let t = count_words("Hello, hello HELLO! he-llo ... 42 4,2");
    assert_eq!(
        sorted_pairs(&t),
        vec![("42".to_string(), 2), ("hello".to_string(), 4)]
    );
}

#[test]
fn tokenize_empty_and_blank() {
    assert!(count_words("").is_empty());
    assert!(count_words("   \t\n ").is_empty());
    assert!(count_words("!!! ... ,,,").is_empty());
}

#[test]
fn tokenize_unicode() {
    let t = count_words("Émile\u{00A0}ÉMILE naïve");
    assert_eq!(
        sorted_pairs(&t),
        vec![("naïve".to_string(), 1), ("émile".to_string(), 2)]
    );
}

#[test]
fn normalize_lowers_and_filters() {
    let tok: Vec<char> = "FoX!?".chars().collect();
    assert_eq!(normalize_token(&tok), "fox");
}

#[test]
fn ranking_size_law() {
    let t = vec![entry("a", 3), entry("b", 1), entry("c", 2)];
    for n in 0..6usize {
        assert_eq!(top_n(&t, n).len(), n.min(3));
    }
}

#[test]
fn ranking_order_law() {
    let t = vec![entry("pear", 2), entry("apple", 5), entry("fig", 2), entry("kiwi", 9), entry("date", 2)];
    assert_eq!(
        pairs(&top_n(&t, 5)),
        vec![
            ("kiwi".to_string(), 9),
            ("apple".to_string(), 5),
            ("date".to_string(), 2),
            ("fig".to_string(), 2),
            ("pear".to_string(), 2),
        ]
    );
}

#[test]
fn ranking_empty_table() {
    assert!(top_n(&Vec::new(), 10).is_empty());
}

#[test]
fn word_order_is_lexicographic() {
    assert!(word_less(&"ab".to_string(), &"abc".to_string()));
    assert!(word_less(&"abc".to_string(), &"abd".to_string()));
    assert!(!word_less(&"b".to_string(), &"abc".to_string()));
    assert!(!word_less(&"same".to_string(), &"same".to_string()));
}

#[test]
fn store_round_trip() {
    let mut s = MemStore::new();
    let c = vec![entry("x", 1), entry("y", 7)];
    s.save("T", c);
    assert_eq!(pairs(&s.load("T")), vec![("x".to_string(), 1), ("y".to_string(), 7)]);
}

#[test]
fn store_overwrite() {
    let mut s = MemStore::new();
    s.save("T", vec![entry("old", 4), entry("both", 1)]);
    s.save("T", vec![entry("both", 2), entry("new", 3)]);
    assert_eq!(pairs(&s.load("T")), vec![("both".to_string(), 2), ("new".to_string(), 3)]);
}

#[test]
fn store_catalog() {
    let mut s = MemStore::new();
    s.save("B", vec![entry("b", 1)]);
    s.save("A", vec![entry("a", 1)]);
    s.save("A", vec![entry("a", 2)]);
    let mut titles = s.list_titles();
    titles.sort();
    assert_eq!(titles, vec!["A".to_string(), "B".to_string()]);
}

#[test]
fn store_unknown_title() {
    let mut s = MemStore::new();
    s.save("known", vec![entry("k", 1)]);
    assert!(s.load("nonexistent").is_empty());
    for n in [0usize, 1, 10] {
        assert!(get_top_words(&s, "nonexistent", n).is_empty());
    }
}

#[test]
fn book_operations() {
    let mut s = MemStore::new();
    save_book(&mut s, "fable", "The quick, quick fox! FOX.");
    save_book(&mut s, "other", "one two two");
    assert_eq!(
        pairs(&get_top_words(&s, "fable", 2)),
        vec![("fox".to_string(), 2), ("quick".to_string(), 2)]
    );
    let mut books = list_books(&s);
    books.sort();
    assert_eq!(books, vec!["fable".to_string(), "other".to_string()]);
    save_book(&mut s, "fable", "only words");
    assert_eq!(
        pairs(&get_top_words(&s, "fable", 10)),
        vec![("only".to_string(), 1), ("words".to_string(), 1)]
    );
}

#[test]
fn key_scheme() {
    assert_eq!(book_key("Pride"), "book:Pride");
    assert_eq!(title_of_key("book:Pride"), Some("Pride".to_string()));
    assert_eq!(title_of_key("book:"), Some(String::new()));
    assert_eq!(title_of_key("books"), None);
    assert_eq!(title_of_key("other:x"), None);
}

#[test]
fn titles_from_backend_keys() {
    let keys = vec!["book:A".to_string(), "misc".to_string(), "book:B c".to_string()];
    assert_eq!(titles_from_keys(&keys), vec!["A".to_string(), "B c".to_string()]);
}

#[test]
fn parse_counts() {
    assert_eq!(parse_count("0"), Some(0));
    assert_eq!(parse_count("12"), Some(12));
    assert_eq!(parse_count("4294967295"), Some(u32::MAX));
    assert_eq!(parse_count("4294967296"), None);
    assert_eq!(parse_count(""), None);
    assert_eq!(parse_count("-1"), None);
    assert_eq!(parse_count("1x"), None);
}

#[test]
fn decode_fields() {
    let ok = decode_counts(vec![("a".to_string(), "3".to_string()), ("b".to_string(), "10".to_string())]);
    assert_eq!(pairs(&ok.unwrap()), vec![("a".to_string(), 3), ("b".to_string(), 10)]);
    let bad = decode_counts(vec![("a".to_string(), "three".to_string())]);
    assert_eq!(bad.err(), Some(StoreError::DecodeFailed));
    let dup = decode_counts(vec![("a".to_string(), "1".to_string()), ("a".to_string(), "2".to_string())]);
    assert_eq!(dup.err(), Some(StoreError::DecodeFailed));
}

#[test]
fn rank_backend_fields() {
    let f = vec![
        ("the".to_string(), "1".to_string()),
        ("quick".to_string(), "2".to_string()),
        ("fox".to_string(), "2".to_string()),
    ];
    assert_eq!(
        pairs(&rank_fields(f, 2).unwrap()),
        vec![("fox".to_string(), 2), ("quick".to_string(), 2)]
    );
    let bad = vec![("the".to_string(), "x".to_string())];
    assert_eq!(rank_fields(bad, 2).err(), Some(StoreError::DecodeFailed));
}
