use treegen::text::{dedent, is_whitespace};
use treegen::structured::normalize_literals;

#[test]
fn dedent_removes_common_indentation() {
    let s = "\n    fn main() {\n        body();\n    }\n";
    assert_eq!(dedent(s), "fn main() {\n    body();\n}");
}

#[test]
fn dedent_keeps_relative_alignment() {
    let s = "   a\n     b\n    c";
    assert_eq!(dedent(s), "a\n  b\n c");
}

#[test]
fn dedent_is_idempotent_on_example() {
    let s = "\n\n  x\n\n    y\n  \n";
    let once = dedent(s);
    assert_eq!(once, "x\n\n  y");
    assert_eq!(dedent(&once), once);
}

#[test]
fn dedent_of_blank_text_is_empty() {
    assert_eq!(dedent(""), "");
    assert_eq!(dedent("   \n\t\n  "), "");
}

#[test]
fn dedent_short_blank_line_inside_block() {
    let s = "    a\n \n    b";
    assert_eq!(dedent(s), "a\n\nb");
}

#[test]
fn dedent_drops_carriage_return_before_line_feed() {
    assert_eq!(dedent("  a\r\n  b\r\n"), "a\nb");
}

#[test]
fn dedent_keeps_non_ascii_text() {
    assert_eq!(dedent("  é\n   ü"), "é\n ü");
}

#[test]
fn whitespace_follows_unicode() {
    assert!(is_whitespace(' '));
    assert!(is_whitespace('\t'));
    assert!(is_whitespace('\u{3000}'));
    assert!(!is_whitespace('a'));
    assert!(!is_whitespace('│'));
}

#[test]
fn literals_are_dedented_in_place() {
    let raw = "{ a: `\n      x\n        y\n    `, b: \"q\" }";
    assert_eq!(normalize_literals(raw), "{ a: `x\n  y`, b: \"q\" }");
}

#[test]
fn open_literal_is_closed() {
    assert_eq!(normalize_literals("k: `  z"), "k: `z`");
}

#[test]
fn text_without_literals_is_unchanged() {
    let raw = "{ \"a\": { \"b\": \"hello\" } }";
    assert_eq!(normalize_literals(raw), raw);
}

#[test]
fn dedent_blank_line_of_wide_whitespace() {
    assert_eq!(dedent("  a\n\u{3000}\n  b"), "a\n\nb");
    assert_eq!(dedent("  a\n\u{3000}\u{3000}\n  b"), "a\n\nb");
}
