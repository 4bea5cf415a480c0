use treemap::levenshtein::levenshtein_distance;

fn chars_of(s: &str) -> Vec<char> {
    s.chars().collect()
}

fn dist(a: &str, b: &str) -> usize {
    levenshtein_distance(&chars_of(a), &chars_of(b))
}

#[test]
fn distance_of_equal_strings_is_zero() {
    assert_eq!(dist("", ""), 0);
    assert_eq!(dist("a", "a"), 0);
    assert_eq!(dist("kitten", "kitten"), 0);
}

#[test]
fn distance_from_empty_is_length() {
    assert_eq!(dist("", "abc"), 3);
    assert_eq!(dist("abc", ""), 3);
}

#[test]
fn classic_examples() {
    assert_eq!(dist("kitten", "sitting"), 3);
    assert_eq!(dist("flaw", "lawn"), 2);
    assert_eq!(dist("cat", "car"), 1);
    assert_eq!(dist("cat", "bat"), 1);
    assert_eq!(dist("cat", "dog"), 3);
    assert_eq!(dist("abc", "acb"), 2);
}

#[test]
fn distance_is_symmetric_on_samples() {
    let pairs = [("kitten", "sitting"), ("", "xyz"), ("abcdef", "azced"), ("cat", "dog")];
    for (a, b) in pairs {
        assert_eq!(dist(a, b), dist(b, a));
    }
}

#[test]
fn multibyte_characters_count_as_one_edit() {
    assert_eq!(dist("h\u{e9}llo", "hello"), 1);
    assert_eq!(dist("\u{1f600}", ""), 1);
    assert_eq!(dist("\u{1f600}a", "a"), 1);
}
