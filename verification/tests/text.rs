use gitcore::text::{
    char_is_space, copy_strings, find_text, first_line_of, has_suffix, holds, matches_at,
    render_decimal, text_is_blank, to_chars, trim_text,
};

fn s(text: &str) -> String {
    text.to_string()
}

fn c(text: &str) -> Vec<char> {
    text.chars().collect()
}

#[test]
fn white_space_is_what_std_calls_white_space() {
    for u in 0..=0x3100u32 {
        if let Some(ch) = char::from_u32(u) {
            assert_eq!(char_is_space(ch), ch.is_whitespace(), "{:x}", u);
        }
    }
    assert!(!char_is_space('\u{200b}'));
    assert!(!char_is_space('\u{10ffff}'));
}

#[test]
fn blank_texts() {
    assert!(text_is_blank(""));
    assert!(text_is_blank(" "));
    assert!(text_is_blank(" \t\r\n\u{a0}\u{3000}"));
    assert!(!text_is_blank("a"));
    assert!(!text_is_blank("  a  "));
    assert!(!text_is_blank("\n\n."));
}

#[test]
fn trimmed_texts() {
    for text in ["", " ", "a", " a", "a ", "  a b  ", "\n\tadd a\r\n", "\u{2003}ä ö\u{2003}", " \n ", "x\n\ny"] {
        assert_eq!(trim_text(text), text.trim(), "{:?}", text);
    }
    assert_eq!(trim_text("  a b  "), "a b");
}

#[test]
fn first_lines() {
    assert_eq!(first_line_of("one\ntwo\nthree"), "one");
    assert_eq!(first_line_of("one"), "one");
    assert_eq!(first_line_of("one\n"), "one");
    assert_eq!(first_line_of("\none"), "");
    assert_eq!(first_line_of(""), "");
    assert_eq!(first_line_of("one\r\ntwo"), "one\r");
}

#[test]
fn decimal_numerals() {
    assert_eq!(render_decimal(0), "0");
    assert_eq!(render_decimal(7), "7");
    assert_eq!(render_decimal(10), "10");
    assert_eq!(render_decimal(1234567890), "1234567890");
    assert_eq!(render_decimal(u64::MAX), "18446744073709551615");
    for n in [9u64, 99, 100, 101, 4096, 999_999] {
        assert_eq!(render_decimal(n), n.to_string());
    }
}

#[test]
fn characters_of_a_string() {
    assert_eq!(to_chars("aä€😀"), vec!['a', 'ä', '€', '😀']);
    assert!(to_chars("").is_empty());
}

#[test]
fn matching_at_a_place() {
    assert!(matches_at(&c("hello world"), &c("world"), 6));
    assert!(!matches_at(&c("hello world"), &c("world"), 5));
    assert!(!matches_at(&c("hello world"), &c("world"), 7));
    assert!(matches_at(&c("hello"), &c(""), 5));
    assert!(!matches_at(&c("hello"), &c(""), 6));
    assert!(!matches_at(&c("hello"), &c("hello!"), 0));
    assert!(!matches_at(&c("hello"), &c("x"), usize::MAX));
}

#[test]
fn finding_a_text() {
    assert!(find_text(&c("hello world"), &c("o w")));
    assert!(find_text(&c("hello world"), &c("hello world")));
    assert!(find_text(&c("hello world"), &c("d")));
    assert!(find_text(&c("hello world"), &c("")));
    assert!(find_text(&c(""), &c("")));
    assert!(!find_text(&c("hello world"), &c("worlds")));
    assert!(!find_text(&c(""), &c("a")));
    assert!(!find_text(&c("aab"), &c("abb")));
    assert!(find_text(&c("aaab"), &c("aab")));
}

#[test]
fn suffixes() {
    assert!(has_suffix(&c("repo.git"), &c(".git")));
    assert!(has_suffix(&c(".git"), &c(".git")));
    assert!(has_suffix(&c("x"), &c("")));
    assert!(!has_suffix(&c("git"), &c(".git")));
    assert!(!has_suffix(&c("repo.git/"), &c(".git")));
}

#[test]
fn lists_of_strings() {
    let v = vec![s("a"), s("b"), s("")];
    assert_eq!(copy_strings(&v), v);
    assert!(copy_strings(&Vec::new()).is_empty());
    assert!(holds(&v, &s("b")));
    assert!(holds(&v, &s("")));
    assert!(!holds(&v, &s("c")));
    assert!(!holds(&Vec::new(), &s("a")));
}
