use biir::unicodes::string_to_unicode_string;
use biir::utils::Output;

#[test]
fn output_keeps_what_was_written() {
    let mut output = Output::Vector(Vec::new());
    output.write("Hello, ".to_string());
    output.write("world!".to_string());
    assert_eq!(output.read(), "Hello, world!");
}

#[test]
fn graphemes_split_text() {
    assert_eq!(string_to_unicode_string("a\r\nb"), vec!["a", "\r\n", "b"]);
    assert_eq!(
        string_to_unicode_string("a\u{310}e\u{301}"),
        vec!["a\u{310}", "e\u{301}"]
    );
    assert!(string_to_unicode_string("").is_empty());
}

use biir::parser::utils::{BracketCountMismatch, Position};
use biir::traceback::source_line;
use std::cmp::Ordering;

#[test]
fn source_lines_follow_compiler_line_endings() {
    let src = "TEST 1\r\nTEST 2\rTEST 3\n\nlast";
    assert_eq!(source_line(src, 0), Some("TEST 1".to_string()));
    assert_eq!(source_line(src, 1), Some("TEST 2".to_string()));
    assert_eq!(source_line(src, 2), Some("TEST 3".to_string()));
    assert_eq!(source_line(src, 3), Some(String::new()));
    assert_eq!(source_line(src, 4), Some("last".to_string()));
    assert_eq!(source_line(src, 5), None);
    assert_eq!(source_line("", 0), Some(String::new()));
}

#[test]
fn positions_read_from_one() {
    let pos = Position { line_number: 0, char_number: 9 };
    assert_eq!(pos.to_string(), "line 1, char 10");
    assert_eq!(
        BracketCountMismatch::MoreClosing(pos).to_string(),
        "Bracket count mismatch! Extra closing bracket found at line 1, char 10"
    );
    assert_eq!(
        BracketCountMismatch::MoreOpening(Position { line_number: 11, char_number: 0 }).to_string(),
        "Bracket count mismatch! Extra opening bracket found at line 12, char 1"
    );
}

#[test]
fn positions_order_by_line_then_char() {
    let a = Position { line_number: 1, char_number: 5 };
    let b = Position { line_number: 2, char_number: 0 };
    let c = Position { line_number: 2, char_number: 3 };
    assert_eq!(a.partial_cmp(&b), Some(Ordering::Less));
    assert_eq!(c.partial_cmp(&b), Some(Ordering::Greater));
    assert_eq!(b.partial_cmp(&b), Some(Ordering::Equal));
    assert!(a < c);
}
