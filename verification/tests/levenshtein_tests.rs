use fuzzy_match::levenshtein::levenshtein_distance;

#[test]
fn test_levenshtein_distance() {
    assert_eq!(levenshtein_distance("kitten", "sitting"), 3);
    assert_eq!(levenshtein_distance("book", "back"), 2);
    assert_eq!(levenshtein_distance("rust", "rust"), 0);
    assert_eq!(levenshtein_distance("rust", ""), 4);
    assert_eq!(levenshtein_distance("", "rust"), 4);
}

#[test]
fn test_distance_symmetric_examples() {
    let pairs = [
        ("kitten", "sitting"),
        ("", "abc"),
        ("blau", "baube"),
        ("asdf", ":assd"),
    ];
    for (a, b) in pairs {
        assert_eq!(levenshtein_distance(a, b), levenshtein_distance(b, a));
    }
}

#[test]
fn test_distance_zero_on_equal() {
    assert_eq!(levenshtein_distance("", ""), 0);
    assert_eq!(levenshtein_distance("a", "a"), 0);
    assert_eq!(levenshtein_distance("blau", "blau"), 0);
    assert_ne!(levenshtein_distance("blau", "blah"), 0);
}

#[test]
fn test_distance_empty_is_length() {
    assert_eq!(levenshtein_distance("", "sitting"), 7);
    assert_eq!(levenshtein_distance("sitting", ""), 7);
    assert_eq!(levenshtein_distance("", ""), 0);
}

#[test]
fn test_triangle_inequality_examples() {
    let triples = [
        ("kitten", "sitting", "mitten"),
        ("", "abc", "abcd"),
        ("bla", "blub", "baube"),
        ("ast", ":assd", "asdf"),
    ];
    for (a, b, c) in triples {
        let ac = levenshtein_distance(a, c);
        let ab = levenshtein_distance(a, b);
        let bc = levenshtein_distance(b, c);
        assert!(ac <= ab + bc);
    }
}

#[test]
fn test_distance_unicode() {
    assert_eq!(levenshtein_distance("gr\u{fc}n", "gran"), 1);
    assert_eq!(levenshtein_distance("\u{e9}t\u{e9}", "ete"), 2);
}
