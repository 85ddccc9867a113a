use factsheet::number::{parse_integer, push_number, push_padded};
use factsheet::order::comes_before;
use factsheet::search::{split, split_once, strip_prefix};
use factsheet::text::{
    char_count, join, lines, one_line, same, split_at_chars, split_words, trim, Separator,
};

#[test]
fn white_space_is_that_of_the_standard_library() {
    let white = Separator::White;
    for c in '\0'..=char::MAX {
        assert_eq!(white.matches(c), c.is_whitespace());
    }
}

#[test]
fn word_characters_are_those_of_the_standard_library() {
    let gap = Separator::NotWordChar;
    for c in '\0'..=char::MAX {
        assert_eq!(gap.matches(c), !c.is_alphanumeric());
    }
}

#[test]
fn pieces_between_characters() {
    let dash = Separator::Is('-');
    assert_eq!(split_at_chars("a-b", &dash), ["a", "b"]);
    assert_eq!(split_at_chars("", &dash), [""]);
    assert_eq!(split_at_chars("-", &dash), ["", ""]);
    assert_eq!(split_at_chars("a--b-", &dash), ["a", "", "b", ""]);
    assert_eq!(split_words("  one\ttwo\u{a0}three \n"), ["one", "two", "three"]);
    assert!(split_words(" \t ").is_empty());
}

#[test]
fn one_line_keeps_the_words() {
    assert_eq!(one_line("  deploy\n\tlog   at /var "), "deploy log at /var");
    assert_eq!(one_line(""), "");
    assert_eq!(one_line(" \u{2003} "), "");
    assert_eq!(one_line("\u{e9}t\u{e9}  chaud"), "\u{e9}t\u{e9} chaud");
    for s in ["a  b", " x ", "one", "\r\n", "a\u{3000}b  c"] {
        let line = one_line(s);
        assert_eq!(one_line(&line), line);
        assert_eq!(split_words(&line), split_words(s));
        assert!(char_count(&line) <= char_count(&trim(s)));
        let expected: Vec<&str> = s.split_whitespace().collect();
        assert_eq!(line, expected.join(" "));
    }
}

#[test]
fn trimming() {
    for s in ["", "  ", " a ", "a", "\u{85}b c\u{2029}", "\ta\u{200b}\n"] {
        assert_eq!(trim(s), s.trim());
        assert_eq!(trim(&trim(s)), s.trim());
    }
}

#[test]
fn lines_of_texts() {
    for s in ["", "\n", "a", "a\n", "a\nb", "a\r\nb\r\n", "a\r", "\r\n\n", "x\r\r\ny\r"] {
        let expected: Vec<&str> = s.lines().collect();
        assert_eq!(lines(s), expected);
    }
}

#[test]
fn looking_for_strings() {
    assert_eq!(strip_prefix("[ab", "["), Some("ab".to_owned()));
    assert_eq!(strip_prefix("ab", "["), None);
    assert_eq!(strip_prefix("", ""), Some(String::new()));
    let halves = split_once("a | check: b | check: c", " | check: ");
    assert_eq!(halves, Some(("a".to_owned(), "b | check: c".to_owned())));
    assert_eq!(split_once("abc", "x"), None);
    assert_eq!(split("a  b   c", "  "), ["a", "b", " c"]);
    assert_eq!(split("", "  "), [""]);
    assert_eq!(split("    ", "  "), ["", "", ""]);
    assert_eq!(split("a #b # c", " #"), ["a", "b", " c"]);
}

#[test]
fn equality_order_and_length() {
    assert!(same("gr\u{fc}n", "gr\u{fc}n"));
    assert!(!same("a", "ab") && !same("ab", "aB"));
    let list = ["", "a", "ab", "b", "\u{e9}", "\u{1f600}"];
    for a in list {
        for b in list {
            assert_eq!(comes_before(a, b), a < b);
        }
    }
    assert_eq!(char_count("\u{1f600}\u{e9}x"), 3);
}

#[test]
fn joining() {
    let parts = vec!["a".to_owned(), "b".to_owned(), "c".to_owned()];
    assert_eq!(join(&parts, " #"), "a #b #c");
    assert_eq!(join(&parts[..1], " #"), "a");
    assert_eq!(join(&[], " #"), "");
}

#[test]
fn numbers_written_and_read() {
    for n in [0u128, 7, 10, 4096, u128::MAX] {
        let mut s = String::from("n=");
        push_number(&mut s, n);
        assert_eq!(s, format!("n={n}"));
    }
    let mut s = String::new();
    push_padded(&mut s, 7, 4);
    push_padded(&mut s, 12345, 4);
    assert_eq!(s, "000712345");
    for s in ["0", "+7", "-12", "007", "9223372036854775807", "-9223372036854775808"] {
        assert_eq!(parse_integer(s), s.parse::<i64>().ok());
        assert!(parse_integer(s).is_some());
    }
    for s in ["", "+", "-", "1a", " 1", "9223372036854775808", "-9223372036854775809", "--1"] {
        assert_eq!(parse_integer(s), None);
    }
}
