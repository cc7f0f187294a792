use speller_rs::distance::edit_distance;

#[test]
fn classic_pairs() {
    assert_eq!(edit_distance("kitten", "sitting", 10), Some(3));
    assert_eq!(edit_distance("flaw", "lawn", 10), Some(2));
    assert_eq!(edit_distance("abc", "abc", 0), Some(0));
}

#[test]
fn adjacent_transposition_costs_one() {
    assert_eq!(edit_distance("ab", "ba", 5), Some(1));
    assert_eq!(edit_distance("speller", "spelelr", 5), Some(1));
}

#[test]
fn no_substring_is_edited_twice() {
    // Optimal string alignment: "ca" -> "abc" takes three edits, not two.
    assert_eq!(edit_distance("ca", "abc", 5), Some(3));
}

#[test]
fn empty_strings() {
    assert_eq!(edit_distance("", "", 0), Some(0));
    assert_eq!(edit_distance("", "abc", 3), Some(3));
    assert_eq!(edit_distance("abc", "", 3), Some(3));
    assert_eq!(edit_distance("", "abc", 2), None);
}

#[test]
fn limit_is_inclusive() {
    assert_eq!(edit_distance("kitten", "sitting", 3), Some(3));
    assert_eq!(edit_distance("kitten", "sitting", 2), None);
    assert_eq!(edit_distance("abcdef", "a", 4), None);
}

#[test]
fn common_prefix_and_suffix() {
    assert_eq!(edit_distance("prefix-abc-suffix", "prefix-axc-suffix", 1), Some(1));
    assert_eq!(edit_distance("aaaa", "aaaaaa", 2), Some(2));
    assert_eq!(edit_distance("xabcx", "xcbax", 5), Some(2));
}

#[test]
fn counts_characters_not_bytes() {
    assert_eq!(edit_distance("café", "cafe", 1), Some(1));
    assert_eq!(edit_distance("日本語", "日本", 1), Some(1));
}

#[test]
fn symmetric_on_examples() {
    let pairs = [("kitten", "sitting"), ("ca", "abc"), ("", "xyz"), ("spellr", "spelling"), ("ab", "ba")];
    for (a, b) in pairs.iter() {
        for limit in 0..5 {
            assert_eq!(edit_distance(a, b, limit), edit_distance(b, a, limit));
        }
    }
}

#[test]
fn identical_strings_are_at_zero() {
    for a in ["", "a", "speller", "naïve"].iter() {
        for limit in 0..3 {
            assert_eq!(edit_distance(a, a, limit), Some(0));
        }
    }
}

#[test]
fn bounded_agrees_with_unbounded() {
    let pairs = [("kitten", "sitting"), ("spellr", "spelling"), ("abcd", "dcba"), ("ca", "abc")];
    for (a, b) in pairs.iter() {
        let full = edit_distance(a, b, 100).unwrap();
        for limit in 0..8 {
            let r = edit_distance(a, b, limit);
            if full <= limit {
                assert_eq!(r, Some(full));
            } else {
                assert_eq!(r, None);
            }
        }
    }
}
