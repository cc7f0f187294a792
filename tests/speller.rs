use speller_rs::builder::SpellerBuilder;
use speller_rs::error::BuildError;
use speller_rs::source::{CsvWordLoader, JsonWordLoader, TextWordLoader};
use speller_rs::speller::Speller;

fn words(entries: &[(&str, i32)]) -> Vec<(String, i32)> {
    entries.iter().map(|(w, c)| (w.to_string(), *c)).collect()
}

fn speller_with(entries: &[(&str, i32)], distance: i32, case_sensitive: bool) -> Speller {
    let mut builder = SpellerBuilder::new();
    builder
        .distance(distance)
        .case_sensitive(case_sensitive)
        .dict_source(vec![words(entries)]);
    builder.build_loaded(Vec::new()).unwrap()
}

fn english() -> Speller {
    speller_with(
        &[("hello", 50), ("world", 40), ("speller", 5), ("spelling", 3), ("spell", 1), ("the", 100)],
        2,
        false,
    )
}

fn strings(v: &[&str]) -> Vec<String> {
    v.iter().map(|s| s.to_string()).collect()
}

const QUERIES: [&str; 5] = ["Yessss", "conticorrantue", "obrigada", "oi_biagomes", "haa"];

fn exercise(speller: &Speller) {
    for word in QUERIES.iter() {
        let _correct = speller.correction(word);
        let _candidates = speller.candidates(word, 2);
    }
}

#[test]
fn test_speller_json() {
    let loaded = JsonWordLoader::new()
        .load_words(br#"{"yes": 30, "obrigado": 4, "ha": 12, "continue": 7}"#)
        .unwrap();
    let mut builder = Speller::builder();
    builder.dict_file(vec!["./tests/files/en.json".to_string()]);
    let speller = builder.build_loaded(vec![loaded]).unwrap();
    exercise(&speller);
    assert_eq!(speller.correction("obrigada"), Some("obrigado".to_string()));
}

#[test]
fn test_speller_csv() {
    let loaded = CsvWordLoader::new()
        .load_words(b"yes,30\nobrigado,4\nha,12\ncontinue,7\n")
        .unwrap();
    let mut builder = Speller::builder();
    builder.dict_file(vec!["./tests/files/en.csv".to_string()]);
    let speller = builder.build_loaded(vec![loaded]).unwrap();
    exercise(&speller);
    assert_eq!(speller.correction("haa"), Some("ha".to_string()));
}

#[test]
fn test_speller_tsv() {
    let loaded = CsvWordLoader::new()
        .with_delimiter(b'\t')
        .load_words(b"yes\t30\nobrigado\t4\nha\t12\ncontinue\t7\n")
        .unwrap();
    let mut builder = Speller::builder();
    builder.dict_file(vec!["./tests/files/en.tsv".to_string()]);
    let speller = builder.build_loaded(vec![loaded]).unwrap();
    exercise(&speller);
    assert_eq!(speller.correction("Yessss"), None);
}

#[test]
fn test_speller_txt() {
    let loaded = TextWordLoader::new()
        .load_words(&strings(&["yes 30", "obrigado 4", "ha 12", "continue 7"]))
        .unwrap();
    let mut builder = Speller::builder();
    builder.dict_file(vec!["./tests/files/en.txt".to_string()]);
    let speller = builder.build_loaded(vec![loaded]).unwrap();
    exercise(&speller);
    assert_eq!(speller.correction("conticorrantue"), None);
}

#[test]
fn known_word_is_returned_normalized() {
    let s = english();
    assert_eq!(s.correction("hello"), Some("hello".to_string()));
    assert_eq!(s.correction("HeLLo"), Some("hello".to_string()));
}

#[test]
fn case_sensitive_keeps_case() {
    let s = speller_with(&[("Rust", 3), ("rust", 1)], 2, true);
    assert_eq!(s.correction("Rust"), Some("Rust".to_string()));
    assert_eq!(s.correction("Rusty"), Some("Rust".to_string()));
    assert_eq!(s.correction("RUST"), None);
}

#[test]
fn spellr_scenario() {
    let s = speller_with(&[("speller", 5), ("spelling", 3), ("spell", 1)], 2, false);
    // Distances from "spellr": spell 1, speller 1, spelling 3. The scan runs in
    // ascending count order, so "spell" is met first at distance one.
    assert_eq!(s.edit_distance("spellr", "spell"), Some(1));
    assert_eq!(s.edit_distance("spellr", "speller"), Some(1));
    assert_eq!(s.edit_distance("spellr", "spelling"), None);
    assert_eq!(s.correction("spellr"), Some("spell".to_string()));
    assert_eq!(
        s.candidates("spellr", 2),
        Some(vec![vec![], strings(&["spell", "speller"]), vec![]])
    );
}

#[test]
fn long_unknown_word_finds_nothing() {
    let s = english();
    assert_eq!(s.correction("zzzzzzzzzz"), None);
    assert_eq!(s.candidates("zzzzzzzzzz", 2), None);
    // Within the length filter but still out of reach.
    assert_eq!(s.correction("zzzzz"), None);
    assert_eq!(s.candidates("zzzzz", 2), None);
}

#[test]
fn nan_is_considered_other_numbers_are_not() {
    let s = speller_with(&[("man", 2), ("3.14", 9)], 2, false);
    assert_eq!(s.correction("NaN"), Some("man".to_string()));
    assert_eq!(s.correction("nan"), Some("man".to_string()));
    assert_eq!(s.correction("3.14"), None);
    assert_eq!(s.candidates("3.14", 2), None);
    assert!(s.should_check("nAn"));
    for number in ["1", "-2", "+3.5", "1e5", "2.E-3", ".5", "5.", "inf", "-Infinity", "+nan"].iter() {
        assert!(!s.should_check(number), "{}", number);
    }
    for word in ["e5", "1.2.3", "1e", "--1", "infi", "1_000"].iter() {
        assert!(s.should_check(word), "{}", word);
    }
}

#[test]
fn punctuation_and_length_filters() {
    let s = speller_with(&[("ab", 1)], 1, false);
    assert!(!s.should_check("!"));
    assert!(!s.should_check("#"));
    assert!(s.should_check("a"));
    assert!(s.should_check("abc"));
    assert!(!s.should_check("abcd"));
    assert_eq!(s.correction("?"), None);
}

#[test]
fn ties_go_to_the_least_frequent() {
    let s = speller_with(&[("cat", 10), ("bat", 1)], 2, false);
    assert_eq!(s.correction("hat"), Some("bat".to_string()));
}

#[test]
fn best_distance_two() {
    let s = speller_with(&[("abcd", 1), ("abxyz", 7)], 2, false);
    assert_eq!(s.correction("ab"), Some("abcd".to_string()));
}

#[test]
fn known_word_candidates() {
    let s = speller_with(&[("spell", 1), ("spells", 2)], 2, false);
    assert_eq!(s.candidates("Spell", 2), Some(vec![strings(&["spell"]), vec![], vec![]]));
}

#[test]
fn candidates_are_bucketed_by_distance() {
    let s = speller_with(&[("cart", 4), ("cat", 3), ("cut", 2), ("dog", 1), ("at", 5)], 2, false);
    let buckets = s.candidates("cas", 2).unwrap();
    assert_eq!(buckets.len(), 3);
    assert_eq!(buckets[0], Vec::<String>::new());
    assert_eq!(buckets[1], strings(&["cat"]));
    assert_eq!(buckets[2], strings(&["cut", "cart", "at"]));
    for (k, bucket) in buckets.iter().enumerate() {
        for w in bucket {
            assert_eq!(speller_rs::distance::edit_distance("cas", w, 10), Some(k));
        }
    }
}

#[test]
fn candidates_beyond_the_bound_stay_empty() {
    let s = speller_with(&[("abcd", 1), ("abc", 2)], 1, false);
    assert_eq!(s.candidates("ab", 3), Some(vec![vec![], strings(&["abc"]), vec![], vec![]]));
    assert_eq!(s.candidates("ab", 0), None);
}

#[test]
fn engine_edit_distance_normalizes_and_is_bounded() {
    let s = english();
    assert_eq!(s.edit_distance("HeLLo", "hello"), Some(0));
    assert_eq!(s.edit_distance("hello", "help"), Some(2));
    assert_eq!(s.edit_distance("hello", "world"), None);
    let cs = speller_with(&[("a", 1)], 2, true);
    assert_eq!(cs.edit_distance("ABC", "abc"), None);
}

#[test]
fn builder_without_sources_fails() {
    let builder = SpellerBuilder::new();
    assert!(matches!(builder.build_loaded(Vec::new()), Err(BuildError::EmptySourceConfiguration)));
}

#[test]
fn builder_with_an_empty_file_fails() {
    let mut builder = Speller::builder();
    builder.dict_file(vec!["empty.txt".to_string()]);
    assert!(matches!(builder.build_loaded(vec![Vec::new()]), Err(BuildError::DictNotFound)));
    let mut memory = SpellerBuilder::new();
    memory.dict_source(vec![Vec::new(), Vec::new()]);
    assert!(matches!(memory.build_loaded(Vec::new()), Err(BuildError::DictNotFound)));
}

#[test]
fn sources_accumulate_across_files_and_memory() {
    let mut builder = SpellerBuilder::new();
    builder
        .dict_file(vec!["a.txt".to_string()])
        .dict_source(vec![words(&[("Bee", 2), ("cee", 1)])]);
    let s = builder.build_loaded(vec![words(&[("bee", 1), ("dee", 9)])]).unwrap();
    assert_eq!(s.correction("bee"), Some("bee".to_string()));
    // bee: 1 + 2 = 3, so among "cee" (1), "bee" (3), "dee" (9) the scan meets "cee" first.
    assert_eq!(s.correction("xee"), Some("cee".to_string()));
}
