use moonshine::text::{
    append_decimal, byte_prefix, eq_ignore_ascii_case, part_at, starts_with, trim,
    trim_end_char,
};

#[test]
fn a_prefix_ends_between_characters() {
    assert_eq!(byte_prefix("abcdef", 4), "abcd");
    assert_eq!(byte_prefix("abc", 8), "abc");
    assert_eq!(byte_prefix("aé", 2), "a");
    assert_eq!(byte_prefix("日本", 5), "日");
    assert_eq!(byte_prefix("日本", 6), "日本");
    assert_eq!(byte_prefix("日", 2), "");
}

#[test]
fn trimming_is_that_of_the_standard_library() {
    for s in ["", " a b ", "\u{3000}x\u{85}", "\u{200b}x", "\t\n", "é "] {
        assert_eq!(trim(s), s.trim());
    }
    for s in ["a//", "//", "a/b", ""] {
        assert_eq!(trim_end_char(s, '/'), s.trim_end_matches('/'));
    }
}

#[test]
fn searching_is_that_of_the_standard_library() {
    for (s, p) in [("abcabd", "abd"), ("abc", ""), ("ab", "abc"), ("aab", "ab"), ("é1", "1")] {
        assert_eq!(starts_with(s, p), s.starts_with(p));
    }
    let text: Vec<char> = "ab://".chars().collect();
    let part: Vec<char> = "://".chars().collect();
    assert!(part_at(&text, &part, 2));
    assert!(!part_at(&text, &part, 1));
    assert!(eq_ignore_ascii_case("DrK", "dRk"));
    assert!(!eq_ignore_ascii_case("É", "é"));
    assert!(!eq_ignore_ascii_case("a", "ab"));
}

#[test]
fn numerals_are_decimal() {
    let mut s = "n=".to_string();
    append_decimal(&mut s, 0);
    append_decimal(&mut s, u64::MAX);
    assert_eq!(s, "n=018446744073709551615");
}
