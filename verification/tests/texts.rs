use localhost::number::{decimal_text, parse_number, push_number};
use localhost::text::{
    before_slice, find_text, join_slices, join_strings, lines_slice, lower_slice,
    matches_ignoring_case, show_bytes, split_by_slice, split_once_slice, split_slice, to_chars, to_text,
    trim_both_slice, trim_slice, upper_slice, words_slice, CharSet,
};

fn chars(text: &str) -> Vec<char> {
    text.chars().collect()
}

fn strings(parts: Vec<&[char]>) -> Vec<String> {
    parts.into_iter().map(|p| p.iter().collect()).collect()
}

#[test]
fn strings_become_characters_and_back() {
    assert_eq!(to_chars("aé日"), vec!['a', 'é', '日']);
    assert_eq!(to_text(&chars("aé日")), "aé日");
}

#[test]
fn lines_end_in_line_feeds() {
    let text = chars("a\r\nb\n\nc\rd\n");
    assert_eq!(strings(lines_slice(&text)), vec!["a", "b", "", "c\rd"]);
    assert_eq!(strings(lines_slice(&chars("x\r"))), vec!["x\r"]);
    assert!(lines_slice(&chars("")).is_empty());
}

#[test]
fn texts_are_split() {
    let text = chars(" a\u{a0}b  c ");
    assert_eq!(strings(words_slice(&text, CharSet::Space)), vec!["a", "b", "c"]);
    let text = chars("/a//b/");
    assert_eq!(strings(split_slice(&text, CharSet::Only('/'))), vec!["", "a", "", "b", ""]);
    let text = chars("a\r\nb\r\n");
    assert_eq!(strings(split_by_slice(&text, &chars("\r\n"))), vec!["a", "b", ""]);
    let text = chars("k=v=w");
    let (key, value) = split_once_slice(&text, '=').unwrap();
    assert_eq!(strings(vec![key, value]), vec!["k", "v=w"]);
    assert!(split_once_slice(&text, ':').is_none());
    assert_eq!(strings(vec![before_slice(&text, '='), before_slice(&text, '#')]), vec!["k", "k=v=w"]);
    assert_eq!(find_text(&text, &chars("v=")), Some(2));
}

#[test]
fn texts_are_trimmed() {
    let text = chars("\t\u{3000} x y\n");
    assert_eq!(strings(vec![trim_slice(&text)]), vec!["x y"]);
    let text = chars("\"\"a\"b\"");
    assert_eq!(strings(vec![trim_both_slice(&text, CharSet::Only('"'))]), vec!["a\"b"]);
}

#[test]
fn texts_are_joined() {
    let (a, b) = (chars("a"), chars("b"));
    assert_eq!(join_slices(&[&a, &b, &a], ", "), chars("a, b, a"));
    assert_eq!(join_strings(&["x".to_string(), "".to_string()], "; "), "x; ");
    assert_eq!(join_strings(&[], "; "), "");
}

#[test]
fn only_ascii_letters_have_case() {
    assert_eq!(lower_slice(&chars("AbZÉ")), chars("abzÉ"));
    assert_eq!(upper_slice(&chars("aBzé")), chars("ABZé"));
    assert!(matches_ignoring_case(&chars("KeeP"), "kEEp"));
    assert!(!matches_ignoring_case(&chars("keep"), "kee"));
}

#[test]
fn numbers_are_read_back() {
    for n in [0u128, 7, 10, 255, 65536, 18446744073709551615] {
        let text = decimal_text(n);
        assert_eq!(text, n.to_string());
        assert_eq!(parse_number(&chars(&text), 10, usize::MAX), Some(n as usize));
        let mut hex = String::new();
        push_number(&mut hex, n, 16);
        assert_eq!(hex, format!("{n:x}"));
        assert_eq!(parse_number(&chars(&hex), 16, usize::MAX), Some(n as usize));
    }
    assert_eq!(parse_number(&chars("+12"), 10, 99), Some(12));
    assert_eq!(parse_number(&chars("100"), 10, 99), None);
    assert_eq!(parse_number(&chars("18446744073709551616"), 10, usize::MAX), None);
    for text in ["", "+", "-1", "1 ", "x"] {
        assert_eq!(parse_number(&chars(text), 10, 99), None);
    }
}

#[test]
fn bytes_are_shown_as_text() {
    for text in ["", "plain", "aé日\u{10ffff}"] {
        assert_eq!(show_bytes(text.as_bytes()), text);
    }
    assert_eq!(show_bytes(b"a\xffb\xc3"), "a\u{fffd}b\u{fffd}");
}
