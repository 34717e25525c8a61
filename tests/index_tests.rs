use std::collections::HashMap;
use std::collections::HashSet;

use inverted_index::{
    distinct_words, is_valid_name, tokenize, Append, PersistentMultiMap,
    PostingError, WordPosting,
};

/// A store directory held in memory: record path to its lines.
type Dir = HashMap<String, Vec<String>>;

/// Appends the value and a line feed to the record, which is read back
/// split at line feeds.
fn apply(dir: &mut Dir, append: Append) {
    let lines = dir.entry(append.path).or_default();
    lines.extend(append.value.split('\n').map(|l| l.to_string()));
}

fn apply_all(dir: &mut Dir, postings: Vec<WordPosting>) {
    for (_, result) in postings {
        apply(dir, result.expect("posting is accepted"));
    }
}

fn add(map: &PersistentMultiMap, dir: &mut Dir, key: &str, value: &str) {
    apply(dir, map.add(key, value).expect("posting is accepted"));
}

fn get(map: &PersistentMultiMap, dir: &Dir, key: &str) -> HashSet<String> {
    let record = dir.get(&map.get_path(key)).cloned();
    map.get(key, &record).into_iter().collect()
}

fn search(map: &PersistentMultiMap, dir: &Dir, terms: &[&str]) -> HashSet<String> {
    let queries: Vec<(String, Option<Vec<String>>)> = terms
        .iter()
        .map(|t| (t.to_string(), dir.get(&map.get_path(t)).cloned()))
        .collect();
    map.search(&queries).into_iter().collect()
}

fn set(items: &[&str]) -> HashSet<String> {
    items.iter().map(|s| s.to_string()).collect()
}

fn store() -> PersistentMultiMap {
    PersistentMultiMap::new("idx".to_string())
}

#[test]
fn tokenize_splits_on_non_word_runs() {
    let words: HashSet<String> = tokenize("The quick Fox").into_iter().collect();
    assert_eq!(words, set(&["The", "quick", "Fox"]));
}

#[test]
fn tokenize_drops_empty_pieces_and_repeats() {
    let words = tokenize("  a, b;; a -- b!");
    assert_eq!(words.len(), 2);
    let as_set: HashSet<String> = words.into_iter().collect();
    assert_eq!(as_set, set(&["a", "b"]));
}

#[test]
fn tokenize_keeps_digits_and_underscores() {
    let words: HashSet<String> = tokenize("foo_bar=42").into_iter().collect();
    assert_eq!(words, set(&["foo_bar", "42"]));
}

#[test]
fn tokenize_of_empty_text_is_empty() {
    assert!(tokenize("").is_empty());
    assert!(tokenize(" ,;! ").is_empty());
}

#[test]
fn tokenize_output_has_no_empty_or_repeated_words() {
    let words = tokenize("x x  y\n\ny\tz... x");
    let as_set: HashSet<&String> = words.iter().collect();
    assert_eq!(as_set.len(), words.len());
    assert!(words.iter().all(|w| !w.is_empty()));
}

#[test]
fn get_path_lowercases_the_key() {
    assert_eq!(store().get_path("Cat"), "idx/cat");
    assert_eq!(PersistentMultiMap::new("idx/".to_string()).get_path("DOG"), "idx/dog");
    assert_eq!(PersistentMultiMap::new(String::new()).get_path("Eel"), "eel");
}

#[test]
fn add_gives_the_line_to_append() {
    let a = store().add("Fox", "f1.txt").unwrap();
    assert_eq!(a.path, "idx/fox");
    assert_eq!(a.value, "f1.txt");
}

#[test]
fn add_refuses_keys_that_are_not_plain_names() {
    let map = store();
    assert_eq!(map.add("a/b", "x").err(), Some(PostingError::InvalidKey));
    assert_eq!(map.add("..", "x").err(), Some(PostingError::InvalidKey));
    assert_eq!(map.add(".", "x").err(), Some(PostingError::InvalidKey));
    assert_eq!(map.add("", "x").err(), Some(PostingError::InvalidKey));
}

#[test]
fn add_accepts_any_value() {
    let map = store();
    let a = map.add("ok", "a\nb").unwrap();
    assert_eq!(a.path, "idx/ok");
    assert_eq!(a.value, "a\nb");
    assert_eq!(map.add("ok", "a\r").unwrap().value, "a\r");
}

#[test]
fn a_value_with_a_line_feed_reads_back_as_its_lines() {
    let map = store();
    let mut dir = Dir::new();
    add(&map, &mut dir, "two", "a\nb");
    assert_eq!(get(&map, &dir, "two"), set(&["a", "b"]));
}

#[test]
fn trailing_carriage_return_is_kept_in_a_value() {
    let map = store();
    let mut dir = Dir::new();
    add(&map, &mut dir, "cr", "ab\r");
    assert_eq!(get(&map, &dir, "cr"), set(&["ab\r"]));
}

#[test]
fn get_collapses_repeated_lines() {
    let record = Some(vec!["a.txt".to_string(), "b.txt".to_string(), "a.txt".to_string()]);
    let values = store().get("dog", &record);
    assert_eq!(values.len(), 2);
    let as_set: HashSet<String> = values.into_iter().collect();
    assert_eq!(as_set, set(&["a.txt", "b.txt"]));
}

#[test]
fn get_of_a_key_that_names_no_record_is_empty() {
    let record = Some(vec!["a.txt".to_string()]);
    assert!(store().get("a/b", &record).is_empty());
}

#[test]
fn case_variants_share_one_record() {
    let map = store();
    let mut dir = Dir::new();
    add(&map, &mut dir, "Cat", "a.txt");
    add(&map, &mut dir, "cat", "b.txt");
    assert_eq!(get(&map, &dir, "CAT"), set(&["a.txt", "b.txt"]));
    assert_eq!(dir.len(), 1);
}

#[test]
fn reads_repeat() {
    let map = store();
    let mut dir = Dir::new();
    add(&map, &mut dir, "owl", "a.txt");
    add(&map, &mut dir, "owl", "b.txt");
    let first = get(&map, &dir, "owl");
    let second = get(&map, &dir, "owl");
    assert_eq!(first, second);
}

#[test]
fn add_then_get_holds_the_value() {
    let map = store();
    let mut dir = Dir::new();
    add(&map, &mut dir, "bee", "x.txt");
    assert!(get(&map, &dir, "bee").contains("x.txt"));
    add(&map, &mut dir, "Bee", "y.txt");
    assert_eq!(get(&map, &dir, "bee"), set(&["x.txt", "y.txt"]));
}

#[test]
fn first_add_creates_the_record() {
    let map = store();
    let mut dir = Dir::new();
    add(&map, &mut dir, "New", "x.txt");
    assert_eq!(dir.len(), 1);
    assert_eq!(dir["idx/new"], vec!["x.txt".to_string()]);
}

#[test]
fn fresh_store_has_no_postings() {
    let map = store();
    let dir = Dir::new();
    assert!(get(&map, &dir, "nonexistent").is_empty());
    assert!(map.get("nonexistent", &None).is_empty());
}

#[test]
fn search_intersects_postings() {
    let map = store();
    let mut dir = Dir::new();
    add(&map, &mut dir, "dog", "a.txt");
    add(&map, &mut dir, "dog", "b.txt");
    add(&map, &mut dir, "cat", "b.txt");
    add(&map, &mut dir, "cat", "c.txt");
    assert_eq!(search(&map, &dir, &["dog", "cat"]), set(&["b.txt"]));
}

#[test]
fn search_without_terms_is_empty() {
    let map = store();
    let mut dir = Dir::new();
    add(&map, &mut dir, "dog", "a.txt");
    assert!(search(&map, &dir, &[]).is_empty());
}

#[test]
fn search_with_an_unseen_term_is_empty() {
    let map = store();
    let mut dir = Dir::new();
    add(&map, &mut dir, "dog", "a.txt");
    assert!(search(&map, &dir, &["dog", "yak"]).is_empty());
    assert_eq!(search(&map, &dir, &["DOG"]), set(&["a.txt"]));
}

#[test]
fn index_two_files_then_search() {
    let map = store();
    let mut dir = Dir::new();
    apply_all(&mut dir, map.visit("f1.txt", "The quick Fox"));
    apply_all(&mut dir, map.visit("f2.txt", "fox jumps"));
    assert_eq!(search(&map, &dir, &["fox"]), set(&["f1.txt", "f2.txt"]));
    assert_eq!(search(&map, &dir, &["fox", "jumps"]), set(&["f2.txt"]));
}

#[test]
fn visit_refuses_only_words_that_cannot_name_a_record() {
    let postings = store().visit("odd\rname", "some words");
    assert_eq!(postings.len(), 2);
    for (_, result) in postings {
        assert_eq!(result.unwrap().value, "odd\rname");
    }
}

#[test]
fn visit_adds_once_per_distinct_word() {
    let map = store();
    let mut dir = Dir::new();
    let postings = map.visit("a.txt", ",,Hello  hello,world,,");
    let words: HashSet<String> = postings.iter().map(|(w, _)| w.clone()).collect();
    assert_eq!(words, set(&["Hello", "hello", "world"]));
    assert_eq!(postings.len(), 3);
    apply_all(&mut dir, postings);
    assert_eq!(dir.len(), 2);
    assert_eq!(dir["idx/hello"], vec!["a.txt".to_string(), "a.txt".to_string()]);
    assert_eq!(dir["idx/world"], vec!["a.txt".to_string()]);
}

#[test]
fn record_path_only_for_keys_that_name_a_record() {
    let map = store();
    assert_eq!(map.record_path("Fox"), Some("idx/fox".to_string()));
    assert_eq!(map.record_path(""), None);
    assert_eq!(map.record_path(".."), None);
    assert_eq!(map.record_path("a/b"), None);
}

#[test]
fn inner_carriage_return_is_kept_in_a_value() {
    let map = store();
    let mut dir = Dir::new();
    add(&map, &mut dir, "cr", "a\rb");
    assert_eq!(get(&map, &dir, "cr"), set(&["a\rb"]));
}

#[test]
fn record_count_is_distinct_lowercase_words() {
    let map = store();
    let mut dir = Dir::new();
    let documents = vec![
        ("d1.txt".to_string(), "Apple apple APPLE pear".to_string()),
        ("d2.txt".to_string(), "pear Plum; apple".to_string()),
        ("d3.txt".to_string(), "plum plum".to_string()),
    ];
    for postings in map.create_index(&documents) {
        apply_all(&mut dir, postings);
    }
    assert_eq!(dir.len(), 3);
    assert_eq!(search(&map, &dir, &["apple"]), set(&["d1.txt", "d2.txt"]));
    assert_eq!(search(&map, &dir, &["PLUM"]), set(&["d2.txt", "d3.txt"]));
}

#[test]
fn create_index_of_no_documents_adds_nothing() {
    assert!(store().create_index(&Vec::new()).is_empty());
}

#[test]
fn distinct_words_drops_empty_and_repeated_pieces() {
    let pieces: Vec<String> = ["", "b", "a", "", "b", "c"].iter().map(|s| s.to_string()).collect();
    assert_eq!(distinct_words(&pieces), vec!["b".to_string(), "a".to_string(), "c".to_string()]);
    assert!(distinct_words(&vec![String::new()]).is_empty());
}

#[test]
fn record_names_are_plain_path_components() {
    assert!(is_valid_name("cat"));
    assert!(is_valid_name(".hidden"));
    assert!(!is_valid_name(""));
    assert!(!is_valid_name("."));
    assert!(!is_valid_name(".."));
    assert!(!is_valid_name("a/b"));
    assert!(!is_valid_name("a\0b"));
}

#[test]
fn path_of_name_joins_without_lowercasing() {
    assert_eq!(store().path_of_name("Cat"), "idx/Cat");
    assert_eq!(PersistentMultiMap::new("/".to_string()).path_of_name("x"), "/x");
}
