use editor_core::buffer::{normalize_line_endings, Buffer, Encoding, LineEnding};
use editor_core::error::EditorError;

fn is_position_error(e: &EditorError, line: usize, column: usize) -> bool {
    matches!(e, EditorError::InvalidPosition { line: l, column: c } if *l == line && *c == column)
}

#[test]
fn new_buffer_is_empty() {
    let b = Buffer::new();
    assert_eq!(b.content(), "");
    assert_eq!(b.line_count(), 1);
    assert_eq!(b.len_chars(), 0);
    assert!(!b.is_modified());
    assert!(b.file_path().is_none());
    assert_eq!(b.line_ending(), LineEnding::Lf);
    assert_eq!(b.encoding(), Encoding::Utf8);
    assert_eq!(Buffer::default().content(), "");
}

#[test]
fn from_string_normalizes_crlf_and_remembers_it() {
    let b = Buffer::from_string("a\r\nb\r\n");
    assert_eq!(b.content(), "a\nb\n");
    assert_eq!(b.line_ending(), LineEnding::Crlf);
    assert_eq!(b.line_count(), 3);
    assert!(!b.is_modified());
}

#[test]
fn from_string_without_crlf_is_lf() {
    let b = Buffer::from_string("a\nb");
    assert_eq!(b.content(), "a\nb");
    assert_eq!(b.line_ending(), LineEnding::Lf);
}

#[test]
fn line_ending_strings() {
    assert_eq!(LineEnding::Lf.as_str(), "\n");
    assert_eq!(LineEnding::Crlf.as_str(), "\r\n");
    assert_eq!(LineEnding::detect("x\r\ny"), LineEnding::Crlf);
    assert_eq!(LineEnding::detect("x\ry\n"), LineEnding::Lf);
}

#[test]
fn normalize_keeps_lone_carriage_returns() {
    assert_eq!(normalize_line_endings("x\r\ny\r\r\n"), "x\ny\r\n");
    assert_eq!(normalize_line_endings(""), "");
}

#[test]
fn crlf_file_is_written_back_unchanged() {
    let crlf_text = "first\r\nsecond\r\n";
    let b = Buffer::from_string(crlf_text);
    assert_eq!(b.content_with_line_endings(), crlf_text);
    let plain = "first\nsecond";
    assert_eq!(Buffer::from_string(plain).content_with_line_endings(), plain);
}

#[test]
fn large_file_detects_line_ending_from_sample() {
    let mut content = "a".repeat(9000);
    content.push_str("\r\n");
    let large = Buffer::from_file_content("big.txt".to_string(), &content, 20_000_000);
    assert_eq!(large.line_ending(), LineEnding::Lf);
    assert_eq!(large.file_path().map(|p| p.as_str()), Some("big.txt"));
    let small = Buffer::from_file_content("small.txt".to_string(), &content, 9002);
    assert_eq!(small.line_ending(), LineEnding::Crlf);
    assert_eq!(small.content().len(), 9001);
}

#[test]
fn insert_char_at_valid_and_invalid_places() {
    let mut b = Buffer::from_string("ab\ncd");
    b.insert_char(1, 1, 'X').unwrap();
    assert_eq!(b.content(), "ab\ncXd");
    assert!(b.is_modified());
    let e = b.insert_char(1, 9, 'Y').unwrap_err();
    assert!(is_position_error(&e, 1, 9));
    let e = b.insert_char(5, 0, 'Y').unwrap_err();
    assert!(is_position_error(&e, 5, 0));
    assert_eq!(b.content(), "ab\ncXd");
}

#[test]
fn delete_char_needs_a_character() {
    let mut b = Buffer::from_string("ab\ncd");
    b.delete_char(0, 2).unwrap();
    assert_eq!(b.content(), "abcd");
    let e = b.delete_char(0, 4).unwrap_err();
    assert!(is_position_error(&e, 0, 4));
}

#[test]
fn insert_str_and_delete_range() {
    let mut b = Buffer::from_string("hello\nworld");
    b.insert_str(0, 5, ", there").unwrap();
    assert_eq!(b.content(), "hello, there\nworld");
    b.delete_range(0, 5, 1, 0).unwrap();
    assert_eq!(b.content(), "helloworld");
    let e = b.delete_range(0, 3, 0, 1).unwrap_err();
    assert!(is_position_error(&e, 0, 1));
    let e = b.delete_range(7, 0, 0, 1).unwrap_err();
    assert!(is_position_error(&e, 7, 0));
}

#[test]
fn lines_and_their_lengths() {
    let b = Buffer::from_string("one\ntwo\n");
    assert_eq!(b.line(0).unwrap(), "one\n");
    assert_eq!(b.line(2).unwrap(), "");
    assert_eq!(b.line_len(0).unwrap(), 3);
    assert_eq!(b.line_len(2).unwrap(), 0);
    assert!(is_position_error(&b.line(3).unwrap_err(), 3, 0));
    assert!(is_position_error(&b.line_len(3).unwrap_err(), 3, 0));
}

#[test]
fn character_indices_and_positions() {
    let b = Buffer::from_string("ab\ncde");
    assert_eq!(b.char_index(1, 2).unwrap(), 5);
    assert_eq!(b.char_to_line_col(5).unwrap(), (1, 2));
    assert_eq!(b.char_to_line_col(6).unwrap(), (1, 3));
    assert_eq!(b.char_to_line_col(2).unwrap(), (0, 2));
    assert!(is_position_error(&b.char_to_line_col(7).unwrap_err(), 1, 0));
    assert!(is_position_error(&b.char_index(0, 3).unwrap_err(), 0, 3));
    assert_eq!(b.char_at(3), Some('c'));
    assert_eq!(b.char_at(6), None);
}

#[test]
fn set_content_is_taken_as_it_is() {
    let mut b = Buffer::new();
    b.set_content("x\r\ny".to_string());
    assert_eq!(b.content(), "x\r\ny");
    assert!(b.is_modified());
    b.set_line_ending(LineEnding::Crlf);
    assert_eq!(b.line_ending(), LineEnding::Crlf);
    b.mark_saved();
    assert!(!b.is_modified());
    b.mark_saved_as("out.txt".to_string());
    assert_eq!(b.file_path().map(|p| p.as_str()), Some("out.txt"));
}

#[test]
fn clone_keeps_everything() {
    let mut b = Buffer::from_string("a\r\nb");
    b.insert_char(0, 0, 'z').unwrap();
    let c = b.clone();
    assert_eq!(c.content(), b.content());
    assert_eq!(c.line_ending(), LineEnding::Crlf);
    assert!(c.is_modified());
}
