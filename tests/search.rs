use std::cmp::Ordering;

use text_search::binary_search::{compare, match_range};
use text_search::fuzzy_search::{accepts_candidate, same_text, within_length_limit};
use text_search::text_store::TextStore;
use text_search::TextSearch;

fn simple_store() -> Vec<&'static str> {
    vec!["a", "abc", "add", "b", "bbc"]
}

fn simple_store2() -> Vec<&'static str> {
    vec!["b", "bbc"]
}

fn bigger_store() -> Vec<&'static str> {
    vec!["a", "b", "go", "golang", "rust"]
}

fn simple_dataset() -> Vec<Vec<&'static str>> {
    vec![simple_store(), simple_store2()]
}

#[test]
fn first_matches() {
    for data in simple_dataset() {
        let search = TextSearch::new(&data);
        let e = search.find_all_bin("b");
        assert_eq!(e, vec![&"b", &"bbc"]);
    }
}

#[test]
fn one_element_store() {
    let data = vec!["b"];
    let search = TextSearch::new(&data);
    let e = search.find_all_bin("b");
    assert_eq!(e, vec![&"b"]);
}

#[test]
fn empty_query() {
    for data in simple_dataset() {
        let search = TextSearch::new(&data);
        let e = search.find_all_bin("");
        let empty: Vec<&&str> = Vec::new();
        assert_eq!(e, empty);
    }
}

#[test]
fn not_found() {
    for data in simple_dataset() {
        let search = TextSearch::new(&data);
        let e = search.find_all_bin("0");
        let empty: Vec<&&str> = Vec::new();
        assert_eq!(e, empty);
    }
}

#[test]
fn test_2st_matches() {
    for data in simple_dataset() {
        let search = TextSearch::new(&data);
        let e = search.find_all_bin("bb");
        assert_eq!(e, vec![&"bbc"]);
    }
}

#[test]
fn one_element_store_not_found() {
    let data = vec!["b"];
    let search = TextSearch::new(&data);
    let e = search.find_all_bin("0");
    let empty: Vec<&&str> = Vec::new();
    assert_eq!(e, empty);
}

#[test]
fn test_matches_complex() {
    let data = bigger_store();
    let search = TextSearch::new(&data);
    let e = search.find_all_bin("go");
    assert_eq!(e, vec![&"go", &"golang"]);
}

#[test]
fn test_matches_complex2() {
    let data = bigger_store();
    let search = TextSearch::new(&data);
    let e = search.find_all_bin("ga");
    let empty: Vec<&&str> = Vec::new();
    assert_eq!(e, empty);
}

#[test]
fn query_past_the_last_record() {
    let data = simple_store();
    let search = TextSearch::new(&data);
    let empty: Vec<&&str> = Vec::new();
    assert_eq!(search.find_all_bin("z"), empty);
}

#[test]
fn query_longer_than_every_text() {
    let data = simple_store();
    let search = TextSearch::new(&data);
    let empty: Vec<&&str> = Vec::new();
    assert_eq!(search.find_all_bin("bbcd"), empty);
    assert_eq!(search.find_all_bin("abcdef"), empty);
}

#[test]
fn empty_store_matches_nothing() {
    let data: Vec<&str> = Vec::new();
    let search = TextSearch::new(&data);
    let empty: Vec<&&str> = Vec::new();
    assert_eq!(search.find_all_bin("a"), empty);
    assert_eq!(search.find_all_lev("a", 3), empty);
}

#[test]
fn first_and_last_records_match() {
    let data = vec!["aa", "ab", "b", "ca", "cb"];
    let search = TextSearch::new(&data);
    assert_eq!(search.find_all_bin("a"), vec![&"aa", &"ab"]);
    assert_eq!(search.find_all_bin("c"), vec![&"ca", &"cb"]);
    assert_eq!(search.find_all_bin("cb"), vec![&"cb"]);
}

#[test]
fn repeated_texts_all_match() {
    let data = vec!["a", "go", "go", "go", "gopher", "h"];
    let search = TextSearch::new(&data);
    assert_eq!(search.find_all_bin("go"), vec![&"go", &"go", &"go", &"gopher"]);
}

#[test]
fn every_record_matches() {
    let data = vec!["x", "xa", "xb", "xc", "xd", "xe", "xf"];
    let search = TextSearch::new(&data);
    assert_eq!(search.find_all_bin("x").len(), 7);
}

#[test]
fn search_is_repeatable() {
    let data = bigger_store();
    let search = TextSearch::new(&data);
    let first = search.find_all_bin("go");
    let second = search.find_all_bin("go");
    assert_eq!(first, second);
}

#[test]
fn store_of_strings() {
    let data: Vec<String> = vec!["alpha".to_string(), "beta".to_string(), "betamax".to_string()];
    let search = TextSearch::new(&data);
    let e: Vec<&str> = search.find_all_bin("beta").iter().map(|s| s.as_str()).collect();
    assert_eq!(e, vec!["beta", "betamax"]);
}

#[test]
fn multibyte_texts() {
    let data = vec!["straße", "strom", "ärger", "äste"];
    let search = TextSearch::new(&data);
    assert_eq!(search.find_all_bin("ä"), vec![&"ärger", &"äste"]);
    assert_eq!(search.find_all_bin("stra"), vec![&"straße"]);
}

#[test]
fn lazy_prefix_search_yields_in_order() {
    let data = simple_store();
    let search = TextSearch::new(&data);
    let mut it = search.find_binary("a");
    assert_eq!(it.next(), Some(&"a"));
    assert_eq!(it.next(), Some(&"abc"));
    assert_eq!(it.next(), Some(&"add"));
    assert_eq!(it.next(), None);
    assert_eq!(it.next(), None);
}

#[test]
fn lazy_prefix_search_with_empty_query() {
    let data = simple_store();
    let search = TextSearch::new(&data);
    let mut it = search.find_binary("");
    assert_eq!(it.next(), None);
}

#[test]
fn range_is_the_run_of_matches() {
    let data = simple_store();
    let r = match_range(&data, "a");
    assert_eq!((r.start, r.end), (0, 3));
    let r = match_range(&data, "b");
    assert_eq!((r.start, r.end), (3, 5));
    let r = match_range(&data, "ab");
    assert_eq!((r.start, r.end), (1, 2));
    let r = match_range(&data, "c");
    assert_eq!(r.start, r.end);
    let r = match_range(&data, "");
    assert_eq!(r.start, r.end);
}

#[test]
fn comparator_orders_against_query() {
    assert_eq!(compare("golang", "go"), Ordering::Equal);
    assert_eq!(compare("go", "go"), Ordering::Equal);
    assert_eq!(compare("g", "go"), Ordering::Less);
    assert_eq!(compare("ga", "go"), Ordering::Less);
    assert_eq!(compare("gz", "go"), Ordering::Greater);
    assert_eq!(compare("rust", "go"), Ordering::Greater);
    assert_eq!(compare("", "go"), Ordering::Less);
}

#[test]
fn unsorted_store_does_not_panic() {
    let data = vec!["z", "a", "m", "b", "a"];
    let search = TextSearch::new(&data);
    let _ = search.find_all_bin("a");
    let _ = search.find_all_bin("q");
}

#[test]
fn store_accessors() {
    let data = simple_store();
    assert_eq!(TextStore::len(&data), 5);
    assert_eq!(data.get_at(3), Some(&"b"));
    assert_eq!(data.get_at(5), None);
}

#[test]
fn fuzzy_finds_the_exact_text() {
    let data = vec!["banjo", "guitar", "music", "zither"];
    let search = TextSearch::new(&data);
    for limit in [0usize, 1, 5, 100] {
        let e = search.find_all_lev("music", limit);
        assert!(e.contains(&&"music"));
    }
}

#[test]
fn fuzzy_filters_by_distance_and_length() {
    let data = vec!["magic", "music", "musical", "musik", "zzzzz"];
    let search = TextSearch::new(&data);
    assert_eq!(search.find_all_lev("music", 1), vec![&"magic", &"music", &"musik"]);
    assert_eq!(
        search.find_all_lev("music", 2),
        vec![&"magic", &"music", &"musical", &"musik"]
    );
    assert_eq!(search.find_all_lev("music", 0), vec![&"magic", &"music", &"musik"]);
}

#[test]
fn fuzzy_empty_query() {
    let data = vec!["", "a"];
    let search = TextSearch::new(&data);
    let empty: Vec<&&str> = Vec::new();
    assert_eq!(search.find_all_lev("", 10), empty);
    let mut it = search.find_jaro("", 10);
    assert_eq!(it.next(), None);
}

#[test]
fn lazy_fuzzy_search_yields_in_store_order() {
    let data = vec!["zzzz", "cmon", "xxxxxxxx", "c'mon", "comon"];
    let search = TextSearch::new(&data);
    let mut it = search.find_jaro("cmon", 5);
    assert_eq!(it.next(), Some(&"cmon"));
    assert_eq!(it.next(), Some(&"c'mon"));
    assert_eq!(it.next(), Some(&"comon"));
    assert_eq!(it.next(), None);
}

#[test]
fn candidate_acceptance() {
    assert!(within_length_limit(5, 3, 2));
    assert!(!within_length_limit(5, 2, 2));
    assert!(within_length_limit(2, 5, 3));
    assert!(accepts_candidate(5, 5, 0, 2));
    assert!(!accepts_candidate(5, 5, 0, 3));
    assert!(!accepts_candidate(7, 5, 1, 0));
    assert!(accepts_candidate(10, 8, 2, 4));
    assert!(!accepts_candidate(10, 8, 2, 5));
    assert!(accepts_candidate(0, 0, 0, 0));
}

#[test]
fn text_equality() {
    assert!(same_text("music", "music"));
    assert!(!same_text("music", "musik"));
    assert!(!same_text("music", "musi"));
    assert!(same_text("", ""));
}
