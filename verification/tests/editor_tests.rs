use editor_core::buffer::Buffer;
use editor_core::command::{CaseMode, Command};
use editor_core::cursor::CursorPosition;
use editor_core::editor::{EditorMode, EditorState, FileRequest, SearchOptions};
use editor_core::error::EditorError;

fn editor_with(text: &str) -> EditorState {
    EditorState::with_buffer(Buffer::from_string(text))
}

fn pos(line: usize, column: usize) -> CursorPosition {
    CursorPosition::new(line, column)
}

fn invalid_operation_message(e: &EditorError) -> Option<&str> {
    match e {
        EditorError::InvalidOperation(m) => Some(m.as_str()),
        _ => None,
    }
}

#[test]
fn typing_moves_the_cursor() {
    let mut e = EditorState::new();
    assert_eq!(*e.cursor(), pos(0, 0));
    e.execute_command(Command::InsertChar('a')).unwrap();
    e.execute_command(Command::InsertChar('b')).unwrap();
    assert_eq!(e.buffer().content(), "ab");
    assert_eq!(*e.cursor(), pos(0, 2));
    assert!(e.buffer().is_modified());
}

#[test]
fn new_line_carries_indentation() {
    let mut e = editor_with("    foo");
    e.execute_command(Command::MoveToEndOfLine).unwrap();
    e.execute_command(Command::NewLine).unwrap();
    assert_eq!(e.buffer().content(), "    foo\n    ");
    assert_eq!(*e.cursor(), pos(1, 4));
    e.execute_command(Command::InsertChar('\n')).unwrap();
    assert_eq!(e.buffer().content(), "    foo\n    \n    ");
}

#[test]
fn backspace_joins_lines_at_line_start() {
    let mut e = editor_with("ab\ncd");
    e.execute_command(Command::MoveCursorDown).unwrap();
    e.execute_command(Command::Backspace).unwrap();
    assert_eq!(e.buffer().content(), "abcd");
    assert_eq!(*e.cursor(), pos(0, 2));
    e.execute_command(Command::Backspace).unwrap();
    assert_eq!(e.buffer().content(), "acd");
    assert_eq!(*e.cursor(), pos(0, 1));
}

#[test]
fn delete_char_at_end_of_text_fails() {
    let mut e = editor_with("a");
    e.execute_command(Command::DeleteChar).unwrap();
    assert_eq!(e.buffer().content(), "");
    let err = e.execute_command(Command::DeleteChar).unwrap_err();
    assert!(matches!(err, EditorError::InvalidPosition { line: 0, column: 0 }));
}

#[test]
fn overwrite_mode_replaces() {
    let mut e = editor_with("abc");
    e.execute_command(Command::ToggleOverwriteMode).unwrap();
    assert!(e.overwrite_mode());
    e.execute_command(Command::InsertChar('X')).unwrap();
    assert_eq!(e.buffer().content(), "Xbc");
    assert_eq!(*e.cursor(), pos(0, 1));
}

#[test]
fn delete_line_removes_the_cursor_line() {
    let mut e = editor_with("a\nb\nc");
    e.execute_command(Command::MoveCursorDown).unwrap();
    e.execute_command(Command::DeleteLine).unwrap();
    assert_eq!(e.buffer().content(), "a\nc");
    assert_eq!(*e.cursor(), pos(1, 0));
    e.execute_command(Command::MoveCursorDown).unwrap();
    e.execute_command(Command::DeleteLine).unwrap();
    assert_eq!(e.buffer().content(), "a\n");
}

#[test]
fn indent_and_dedent() {
    let mut e = editor_with("ab");
    e.execute_command(Command::MoveCursorRight).unwrap();
    e.execute_command(Command::Indent).unwrap();
    assert_eq!(e.buffer().content(), "    ab");
    assert_eq!(*e.cursor(), pos(0, 5));
    e.execute_command(Command::Dedent).unwrap();
    assert_eq!(e.buffer().content(), "ab");
    assert_eq!(*e.cursor(), pos(0, 1));
    let mut t = editor_with("\tx");
    t.execute_command(Command::Dedent).unwrap();
    assert_eq!(t.buffer().content(), "x");
}

#[test]
fn cursor_moves_wrap_between_lines() {
    let mut e = editor_with("abc\nde");
    e.execute_command(Command::MoveToEndOfLine).unwrap();
    assert_eq!(*e.cursor(), pos(0, 3));
    e.execute_command(Command::MoveCursorRight).unwrap();
    assert_eq!(*e.cursor(), pos(1, 0));
    e.execute_command(Command::MoveCursorLeft).unwrap();
    assert_eq!(*e.cursor(), pos(0, 3));
    e.execute_command(Command::MoveCursorDown).unwrap();
    assert_eq!(*e.cursor(), pos(1, 2));
    e.execute_command(Command::MoveCursorUp).unwrap();
    assert_eq!(*e.cursor(), pos(0, 2));
    e.execute_command(Command::MoveToStartOfLine).unwrap();
    assert_eq!(*e.cursor(), pos(0, 0));
    e.execute_command(Command::MoveToEndOfFile).unwrap();
    assert_eq!(*e.cursor(), pos(1, 2));
    e.execute_command(Command::MoveToStartOfFile).unwrap();
    assert_eq!(*e.cursor(), pos(0, 0));
}

#[test]
fn word_moves() {
    let mut e = editor_with("foo bar_baz, qux");
    e.execute_command(Command::MoveCursorWordRight).unwrap();
    assert_eq!(*e.cursor(), pos(0, 4));
    e.execute_command(Command::MoveCursorWordRight).unwrap();
    assert_eq!(*e.cursor(), pos(0, 13));
    e.execute_command(Command::MoveCursorWordLeft).unwrap();
    assert_eq!(*e.cursor(), pos(0, 4));
    e.execute_command(Command::MoveCursorWordLeft).unwrap();
    assert_eq!(*e.cursor(), pos(0, 0));
}

#[test]
fn paging_stops_at_the_ends() {
    let text = (0..30).map(|i| i.to_string()).collect::<Vec<_>>().join("\n");
    let mut e = editor_with(&text);
    e.execute_command(Command::PageDown).unwrap();
    assert_eq!(*e.cursor(), pos(20, 0));
    e.execute_command(Command::PageDown).unwrap();
    assert_eq!(*e.cursor(), pos(29, 0));
    e.execute_command(Command::PageUp).unwrap();
    assert_eq!(*e.cursor(), pos(9, 0));
    e.execute_command(Command::PageUp).unwrap();
    assert_eq!(*e.cursor(), pos(0, 0));
}

#[test]
fn goto_line_and_cursor_management() {
    let mut e = editor_with("a\nb\nc");
    e.execute_command(Command::GotoLine(2)).unwrap();
    assert_eq!(*e.cursor(), pos(2, 0));
    let err = e.execute_command(Command::GotoLine(3)).unwrap_err();
    assert!(matches!(err, EditorError::InvalidPosition { line: 3, column: 0 }));
    e.execute_command(Command::AddCursor(pos(0, 1))).unwrap();
    assert_eq!(e.cursor_count(), 2);
    assert_eq!(e.cursors(), &[pos(0, 1), pos(2, 0)]);
    let err = e.execute_command(Command::AddCursor(pos(0, 5))).unwrap_err();
    assert!(matches!(err, EditorError::InvalidPosition { line: 0, column: 5 }));
    e.execute_command(Command::InsertChar('!')).unwrap();
    assert_eq!(e.buffer().content(), "a!\nb\n!c");
    assert_eq!(e.cursors(), &[pos(0, 2), pos(2, 1)]);
    e.execute_command(Command::RemoveCursor(0)).unwrap();
    assert_eq!(e.cursors(), &[pos(2, 1)]);
    e.execute_command(Command::AddCursor(pos(1, 0))).unwrap();
    e.execute_command(Command::ClearSecondaryCursors).unwrap();
    assert_eq!(e.cursors(), &[pos(1, 0)]);
}

#[test]
fn hard_wrap_cuts_lines() {
    let mut e = editor_with("abcdefg\nhi");
    let err = e.execute_command(Command::HardWrap(0)).unwrap_err();
    assert_eq!(invalid_operation_message(&err), Some("Wrap width must be greater than zero"));
    e.execute_command(Command::HardWrap(3)).unwrap();
    assert_eq!(e.buffer().content(), "abc\ndef\ng\nhi");
}

#[test]
fn hard_wrap_twice_is_hard_wrap_once() {
    let mut e = editor_with("abcdefgh\nij klmno");
    e.execute_command(Command::HardWrap(3)).unwrap();
    assert_eq!(e.buffer().content(), "abc\ndef\ngh\nij \nklm\nno");
    e.execute_command(Command::HardWrap(3)).unwrap();
    assert_eq!(e.buffer().content(), "abc\ndef\ngh\nij \nklm\nno");
    let mut f = editor_with("a\n");
    f.execute_command(Command::HardWrap(3)).unwrap();
    assert_eq!(f.buffer().content(), "a\n\n");
}

#[test]
fn trailing_whitespace_is_trimmed() {
    let mut e = editor_with("a  \nb\t\n");
    e.execute_command(Command::TrimTrailingWhitespace).unwrap();
    assert_eq!(e.buffer().content(), "a\nb\n");
}

#[test]
fn soft_wrapping_only_changes_the_display() {
    let mut e = editor_with("abcd\ne");
    assert_eq!(e.soft_wrapped_lines(), vec!["abcd".to_string(), "e".to_string()]);
    e.execute_command(Command::SetSoftWrap(2)).unwrap();
    assert_eq!(e.soft_wrap_width(), Some(2));
    assert_eq!(e.soft_wrapped_lines(), vec!["ab".to_string(), "cd".to_string(), "e".to_string()]);
    e.execute_command(Command::SetSoftWrap(0)).unwrap();
    assert_eq!(e.soft_wrap_width(), None);
    assert_eq!(e.buffer().content(), "abcd\ne");
    assert_eq!(e.wrap_line_to_width("", 3), vec!["".to_string()]);
    assert_eq!(e.wrap_line_to_width("abcdef", 3), vec!["abc".to_string(), "def".to_string()]);
    assert_eq!(e.wrap_line_to_width("abc", 0), vec!["abc".to_string()]);
}

#[test]
fn file_commands_are_requests() {
    let mut e = editor_with("x\ny");
    assert!(e.execute_command(Command::Save).unwrap().is_none());
    assert_eq!(e.status_message(), "No modified files to save");
    match e.execute_command(Command::SaveAs("out.txt".to_string())).unwrap() {
        Some(FileRequest::SaveAs { path, content, auto_commit }) => {
            assert_eq!(path, "out.txt");
            assert_eq!(content, "x\ny");
            assert!(auto_commit);
        }
        other => panic!("unexpected {:?}", other),
    }
    e.saved_as("out.txt".to_string(), "out.txt", None);
    assert_eq!(e.status_message(), "File saved");
    assert!(!e.buffer().is_modified());
    assert!(e.execute_command(Command::Save).unwrap().is_none());
    assert_eq!(e.status_message(), "No modified files to save");
    e.execute_command(Command::InsertChar('!')).unwrap();
    e.set_auto_commit_enabled(false);
    match e.execute_command(Command::Save).unwrap() {
        Some(FileRequest::Save { path, content, auto_commit }) => {
            assert_eq!(path, "out.txt");
            assert_eq!(content, "!x\ny");
            assert!(!auto_commit);
        }
        other => panic!("unexpected {:?}", other),
    }
    e.saved_files(1, None);
    assert_eq!(e.status_message(), "File saved");
    assert!(!e.buffer().is_modified());
    match e.execute_command(Command::Open("in.txt".to_string())).unwrap() {
        Some(FileRequest::Open(path)) => assert_eq!(path, "in.txt"),
        other => panic!("unexpected {:?}", other),
    }
    e.opened(Buffer::from_string("new"));
    assert_eq!(e.buffer().content(), "new");
    assert!(e.execute_command(Command::Close).unwrap().is_none());
    e.execute_command(Command::New).unwrap();
    assert_eq!(e.buffer().content(), "");
}

#[test]
fn save_status_reports_the_history_commit() {
    let mut e = editor_with("x");
    e.saved_files(0, None);
    assert_eq!(e.status_message(), "No modified files to save");
    e.saved_files(1, Some(Ok(0)));
    assert_eq!(e.status_message(), "File saved");
    e.saved_files(3, Some(Ok(0)));
    assert_eq!(e.status_message(), "3 files saved");
    e.saved_files(1, Some(Ok(1)));
    assert_eq!(e.status_message(), "File saved (large file skipped from history)");
    e.saved_files(2, Some(Ok(2)));
    assert_eq!(e.status_message(), "2 files saved (all skipped from history: too large)");
    e.saved_files(3, Some(Ok(1)));
    assert_eq!(e.status_message(), "3 files saved (1 large files skipped from history)");
    e.saved_files(1, Some(Err("no repo".to_string())));
    assert_eq!(e.status_message(), "File saved (git history error: no repo)");
    e.saved_files(2, Some(Err("no repo".to_string())));
    assert_eq!(e.status_message(), "2 files saved (git history error: no repo)");
    e.saved_files(2, None);
    assert_eq!(e.status_message(), "2 files saved");
    e.saved_as("dir/big.bin".to_string(), "big.bin", Some(Ok(1)));
    assert_eq!(e.status_message(), "File saved (large file big.bin skipped from history)");
    assert_eq!(e.buffer().file_path().map(|p| p.as_str()), Some("dir/big.bin"));
    e.saved_as("a.txt".to_string(), "a.txt", Some(Err("locked".to_string())));
    assert_eq!(e.status_message(), "File saved (git history error: locked)");
    e.saved_as("a.txt".to_string(), "a.txt", Some(Ok(0)));
    assert_eq!(e.status_message(), "File saved");
}

#[test]
fn crlf_file_saved_with_crlf() {
    let mut e = editor_with("a\r\nb");
    match e.execute_command(Command::SaveAs("f".to_string())).unwrap() {
        Some(FileRequest::SaveAs { content, .. }) => assert_eq!(content, "a\r\nb"),
        other => panic!("unexpected {:?}", other),
    }
}

#[test]
fn unimplemented_commands_are_refused() {
    let mut e = EditorState::default();
    let err = e.execute_command(Command::Search("x".to_string())).unwrap_err();
    assert_eq!(invalid_operation_message(&err), Some("Command not yet implemented"));
    assert_eq!(e.buffer().content(), "");
}

#[test]
fn typing_is_undone_and_redone() {
    let mut e = EditorState::default();
    let err = e.execute_command(Command::Undo).unwrap_err();
    assert_eq!(invalid_operation_message(&err), Some("Nothing to undo"));
    let err = e.execute_command(Command::Redo).unwrap_err();
    assert_eq!(invalid_operation_message(&err), Some("Nothing to redo"));
    e.execute_command(Command::InsertChar('a')).unwrap();
    e.execute_command(Command::InsertChar('b')).unwrap();
    assert_eq!(e.buffer().content(), "ab");
    assert!(e.can_undo());
    e.execute_command(Command::Undo).unwrap();
    assert_eq!(e.status_message(), "Undo");
    assert!(e.can_redo());
    let after_undo = e.buffer().content();
    assert!(after_undo == "" || after_undo == "a");
    e.execute_command(Command::Redo).unwrap();
    assert_eq!(e.status_message(), "Redo");
    assert_eq!(e.buffer().content(), "ab");
    assert_eq!(*e.cursor(), pos(0, 2));
    let mut m = editor_with("x\ny");
    m.execute_command(Command::GotoLine(1)).unwrap();
    m.execute_command(Command::InsertChar('z')).unwrap();
    assert_eq!(m.buffer().content(), "x\nzy");
    m.undo().unwrap();
    assert_eq!(m.buffer().content(), "x\ny");
    assert_eq!(*m.cursor(), pos(1, 0));
    assert_eq!(m.undo_stack_len(), 0);
    assert_eq!(m.redo_stack_len(), 1);
    m.clear_history();
    assert!(!m.can_redo());
}

#[test]
fn viewport_follows_the_cursor() {
    let text = (0..12).map(|i| i.to_string()).collect::<Vec<_>>().join("\n");
    let mut e = editor_with(&text);
    e.execute_command(Command::GotoLine(10)).unwrap();
    e.adjust_viewport(5);
    assert_eq!(e.viewport_top(), 6);
    e.execute_command(Command::GotoLine(2)).unwrap();
    e.adjust_viewport(5);
    assert_eq!(e.viewport_top(), 2);
    e.adjust_viewport(0);
    assert_eq!(e.viewport_top(), 2);
    let v = e.get_virtual_viewport(3);
    assert_eq!(v.start_line, 2);
    assert_eq!(v.end_line, 5);
    assert_eq!(v.visible_lines, vec!["2\n".to_string(), "3\n".to_string(), "4\n".to_string()]);
    let tail = e.get_virtual_viewport(100);
    assert_eq!(tail.end_line, 12);
    assert_eq!(tail.visible_lines.len(), 10);
}

#[test]
fn status_modes_and_options() {
    let mut e = EditorState::new();
    e.set_status_message("hello".to_string());
    assert_eq!(e.status_message(), "hello");
    assert_eq!(EditorMode::default(), EditorMode::Normal);
    let o = SearchOptions::default();
    assert!(o.case_sensitive && !o.use_regex && !o.whole_word);
    assert_eq!(e.indentation_for_line(0).unwrap(), "");
    assert!(matches!(
        e.indentation_for_line(1).unwrap_err(),
        EditorError::InvalidPosition { line: 1, column: 0 }
    ));
    assert!(e.validate_position(pos(0, 0)).is_ok());
    assert!(e.validate_position(pos(0, 1)).is_err());
}

#[test]
fn duplicate_and_join_lines() {
    let mut e = editor_with("ab\ncd");
    e.execute_command(Command::MoveCursorRight).unwrap();
    e.execute_command(Command::DuplicateLine).unwrap();
    assert_eq!(e.buffer().content(), "ab\nab\ncd");
    assert_eq!(*e.cursor(), pos(1, 1));
    let mut last = editor_with("x");
    last.execute_command(Command::DuplicateLine).unwrap();
    assert_eq!(last.buffer().content(), "x\nx");
    assert_eq!(*last.cursor(), pos(1, 0));
    let mut j = editor_with("foo\n   bar\nbaz");
    j.execute_command(Command::JoinLines).unwrap();
    assert_eq!(j.buffer().content(), "foo bar\nbaz");
    assert_eq!(*j.cursor(), pos(0, 0));
    let mut blank = editor_with("foo\n   ");
    blank.execute_command(Command::JoinLines).unwrap();
    assert_eq!(blank.buffer().content(), "foo");
    blank.execute_command(Command::JoinLines).unwrap();
    assert_eq!(blank.buffer().content(), "foo");
}

#[test]
fn lines_move_up_and_down() {
    let mut e = editor_with("a\nb\nc");
    e.execute_command(Command::MoveLinesUp).unwrap();
    assert_eq!(e.buffer().content(), "a\nb\nc");
    e.execute_command(Command::MoveLinesDown).unwrap();
    assert_eq!(e.buffer().content(), "b\na\nc");
    assert_eq!(*e.cursor(), pos(1, 0));
    e.execute_command(Command::MoveLinesDown).unwrap();
    assert_eq!(e.buffer().content(), "b\nc\na");
    assert_eq!(*e.cursor(), pos(2, 0));
    e.execute_command(Command::MoveLinesDown).unwrap();
    assert_eq!(e.buffer().content(), "b\nc\na");
    e.execute_command(Command::MoveLinesUp).unwrap();
    assert_eq!(e.buffer().content(), "b\na\nc");
    assert_eq!(*e.cursor(), pos(1, 0));
}

#[test]
fn transpose_and_change_case() {
    let mut e = editor_with("abc");
    e.execute_command(Command::MoveToEndOfLine).unwrap();
    e.execute_command(Command::TransposeCharacters).unwrap();
    assert_eq!(e.buffer().content(), "acb");
    assert_eq!(*e.cursor(), pos(0, 3));
    e.execute_command(Command::MoveToStartOfLine).unwrap();
    e.execute_command(Command::TransposeCharacters).unwrap();
    assert_eq!(e.buffer().content(), "cab");
    assert_eq!(*e.cursor(), pos(0, 1));
    let mut c = editor_with("hELLO wORLD\nx");
    c.execute_command(Command::ChangeCase { mode: CaseMode::Title }).unwrap();
    assert_eq!(c.buffer().content(), "Hello World\nx");
    c.execute_command(Command::ChangeCase { mode: CaseMode::Upper }).unwrap();
    assert_eq!(c.buffer().content(), "HELLO WORLD\nx");
    c.execute_command(Command::ChangeCase { mode: CaseMode::Lower }).unwrap();
    assert_eq!(c.buffer().content(), "hello world\nx");
}

#[test]
fn line_comments_toggle() {
    let mut e = editor_with("let x;");
    e.toggle_line_comment().unwrap();
    assert_eq!(e.buffer().content(), "// let x;");
    e.toggle_line_comment().unwrap();
    assert_eq!(e.buffer().content(), "let x;");
    let mut m = editor_with("a\n\nb");
    m.execute_command(Command::SelectionStart).unwrap();
    m.execute_command(Command::GotoLine(2)).unwrap();
    m.execute_command(Command::MoveCursorRight).unwrap();
    m.execute_command(Command::SelectionEnd).unwrap();
    assert!(m.has_selection());
    assert_eq!(m.selection().map(|s| (s.start(), s.end())), Some((pos(0, 0), pos(2, 1))));
    m.toggle_line_comment().unwrap();
    assert_eq!(m.buffer().content(), "// a\n\n// b");
    m.toggle_line_comment().unwrap();
    assert_eq!(m.buffer().content(), "a\n\nb");
}

#[test]
fn line_comment_toggled_twice_restores_the_line() {
    let mut e = editor_with("  indented\nnext");
    e.toggle_line_comment().unwrap();
    assert_eq!(e.buffer().content(), "//   indented\nnext");
    e.toggle_line_comment().unwrap();
    assert_eq!(e.buffer().content(), "  indented\nnext");
    let mut blank = editor_with("");
    blank.toggle_line_comment().unwrap();
    assert_eq!(blank.buffer().content(), "// ");
    blank.toggle_line_comment().unwrap();
    assert_eq!(blank.buffer().content(), "");
    let mut tight = editor_with("//x");
    tight.toggle_line_comment().unwrap();
    assert_eq!(tight.buffer().content(), "x");
    tight.toggle_line_comment().unwrap();
    assert_eq!(tight.buffer().content(), "// x");
}

#[test]
fn jumping_between_brackets_twice_comes_back() {
    let mut e = editor_with("{\n  (x)\n  [y]\n}");
    e.jump_to_matching_bracket().unwrap();
    assert_eq!(*e.cursor(), pos(3, 0));
    e.jump_to_matching_bracket().unwrap();
    assert_eq!(*e.cursor(), pos(0, 0));
    e.execute_command(Command::GotoLine(2)).unwrap();
    e.execute_command(Command::MoveToEndOfLine).unwrap();
    e.execute_command(Command::MoveCursorLeft).unwrap();
    let start = *e.cursor();
    assert_eq!(start, pos(2, 4));
    e.jump_to_matching_bracket().unwrap();
    assert_eq!(*e.cursor(), pos(2, 2));
    e.jump_to_matching_bracket().unwrap();
    assert_eq!(*e.cursor(), start);
}

#[test]
fn deleting_a_duplicated_line_restores_the_text() {
    let mut e = editor_with("one\ntwo\nthree");
    e.execute_command(Command::GotoLine(1)).unwrap();
    e.execute_command(Command::DuplicateLine).unwrap();
    assert_eq!(e.buffer().content(), "one\ntwo\ntwo\nthree");
    assert_eq!(e.cursor().line, 2);
    e.execute_command(Command::DeleteLine).unwrap();
    assert_eq!(e.buffer().content(), "one\ntwo\nthree");
    let mut last = editor_with("a");
    last.execute_command(Command::DuplicateLine).unwrap();
    assert_eq!(last.buffer().content(), "a\na");
    last.execute_command(Command::DeleteLine).unwrap();
    assert_eq!(last.buffer().content(), "a\n");
}

#[test]
fn brackets_are_matched() {
    let mut e = editor_with("f(a[b])");
    e.execute_command(Command::MoveCursorRight).unwrap();
    e.jump_to_matching_bracket().unwrap();
    assert_eq!(*e.cursor(), pos(0, 6));
    e.jump_to_matching_bracket().unwrap();
    assert_eq!(*e.cursor(), pos(0, 1));
    e.execute_command(Command::MoveCursorRight).unwrap();
    e.jump_to_matching_bracket().unwrap();
    assert_eq!(*e.cursor(), pos(0, 2));
    let mut open = editor_with("((x)");
    open.jump_to_matching_bracket().unwrap();
    assert_eq!(*open.cursor(), pos(0, 0));
}

#[test]
fn clicks_and_drags_place_the_cursor_and_select() {
    let mut e = editor_with("hello world\nsecond");
    e.mouse_click(pos(1, 3)).unwrap();
    assert_eq!(*e.cursor(), pos(1, 3));
    assert!(!e.has_selection());
    e.mouse_drag_start(pos(0, 2)).unwrap();
    e.mouse_drag(pos(0, 7)).unwrap();
    e.mouse_drag_end(pos(0, 8)).unwrap();
    let sel = *e.selection().unwrap();
    assert_eq!(sel.anchor, pos(0, 2));
    assert_eq!(sel.cursor, pos(0, 8));
    assert!(!sel.is_block());
    assert_eq!(*e.cursor(), pos(0, 8));
    assert_eq!(e.get_selected_text().unwrap(), "llo wo");
    let err = e.mouse_click(pos(0, 12)).unwrap_err();
    assert!(matches!(err, EditorError::InvalidPosition { line: 0, column: 12 }));
    assert_eq!(*e.cursor(), pos(0, 8));
}

#[test]
fn double_and_triple_clicks_select_words_and_lines() {
    let mut e = editor_with("let foo_bar = 1;\nnext");
    e.mouse_double_click(pos(0, 6)).unwrap();
    let sel = *e.selection().unwrap();
    assert_eq!(sel.anchor, pos(0, 4));
    assert_eq!(sel.cursor, pos(0, 11));
    assert_eq!(e.get_selected_text().unwrap(), "foo_bar");
    e.mouse_click(pos(1, 0)).unwrap();
    e.mouse_double_click(pos(0, 11)).unwrap();
    assert!(!e.has_selection());
    e.mouse_triple_click(pos(0, 3)).unwrap();
    assert_eq!(e.get_selected_text().unwrap(), "let foo_bar = 1;");
    assert_eq!(*e.cursor(), pos(0, 16));
}

#[test]
fn block_selection_reads_columns() {
    let mut e = editor_with("abcdef\nxy\n123456");
    assert!(!e.block_selection_mode());
    e.toggle_block_selection().unwrap();
    assert!(e.block_selection_mode());
    e.mouse_drag_start(pos(0, 1)).unwrap();
    e.mouse_drag(pos(2, 4)).unwrap();
    assert!(e.selection().unwrap().is_block());
    assert_eq!(e.get_selected_text().unwrap(), "bcd\ny\n234");
    e.toggle_block_selection().unwrap();
    assert!(!e.selection().unwrap().is_block());
    assert_eq!(e.get_selected_text().unwrap(), "bcdef\nxy\n1234");
}

#[test]
fn block_selection_skips_breaks_before_empty_pieces() {
    let mut e = editor_with("ab\nxyz");
    e.toggle_block_selection().unwrap();
    e.mouse_drag_start(pos(0, 2)).unwrap();
    e.mouse_drag(pos(1, 3)).unwrap();
    assert_eq!(e.get_selected_text().unwrap(), "z");
}

#[test]
fn auto_close_pairs_brackets_and_quotes() {
    let mut e = editor_with("");
    e.insert_char_with_auto_close('(').unwrap();
    assert_eq!(e.buffer().content(), "()");
    assert_eq!(*e.cursor(), pos(0, 1));
    e.insert_char_with_auto_close('"').unwrap();
    assert_eq!(e.buffer().content(), "(\"\")");
    e.insert_char_with_auto_close('x').unwrap();
    assert_eq!(e.buffer().content(), "(\"x\")");
    let mut f = editor_with("word");
    f.insert_char_with_auto_close('[').unwrap();
    assert_eq!(f.buffer().content(), "[word");
    assert_eq!(*f.cursor(), pos(0, 1));
    f.insert_char_with_auto_close('\n').unwrap();
    assert_eq!(f.buffer().content(), "[\nword");
}

#[test]
fn block_comments_wrap_the_selection() {
    let mut e = editor_with("a = b + c;");
    e.toggle_block_comment().unwrap();
    assert_eq!(e.buffer().content(), "a = b + c;");
    e.mouse_drag_start(pos(0, 4)).unwrap();
    e.mouse_drag(pos(0, 9)).unwrap();
    e.toggle_block_comment().unwrap();
    assert_eq!(e.buffer().content(), "a = /*b + c*/;");
}

#[test]
fn ranges_are_read_deleted_and_inserted() {
    let mut e = editor_with("one\ntwo\nthree");
    assert_eq!(e.get_text_range(pos(0, 1), pos(1, 2)).unwrap(), "ne\ntw");
    assert_eq!(e.get_text_range(pos(1, 2), pos(0, 1)).unwrap(), "");
    assert!(e.get_text_range(pos(5, 0), pos(0, 0)).is_err());
    e.delete_range(pos(0, 1), pos(1, 2)).unwrap();
    assert_eq!(e.buffer().content(), "oo\nthree");
    assert_eq!(*e.cursor(), pos(0, 1));
    e.insert_text_at(pos(1, 2), "XY\nZ").unwrap();
    assert_eq!(e.buffer().content(), "oo\nthXY\nZree");
    assert_eq!(*e.cursor(), pos(2, 1));
}

#[test]
fn deleting_the_selection() {
    let mut e = editor_with("hello world");
    e.mouse_drag_start(pos(0, 5)).unwrap();
    e.mouse_drag(pos(0, 11)).unwrap();
    e.delete_selection().unwrap();
    assert_eq!(e.buffer().content(), "hello");
    assert!(!e.has_selection());
    assert_eq!(*e.cursor(), pos(0, 5));
    let mut b = editor_with("abcd\nefgh\nij");
    b.toggle_block_selection().unwrap();
    b.mouse_drag_start(pos(0, 1)).unwrap();
    b.mouse_drag(pos(1, 3)).unwrap();
    b.delete_selection().unwrap();
    assert_eq!(b.buffer().content(), "ad\neh\nij");
    assert!(!b.has_selection());
}

#[test]
fn bookmarks_are_toggled_named_and_jumped_to() {
    let mut e = editor_with("first\nsecond\nthird");
    e.toggle_bookmark().unwrap();
    assert_eq!(e.status_message(), "Bookmark added at line 1:0");
    assert_eq!(e.bookmarks().len(), 1);
    e.goto_line(2).unwrap();
    e.add_named_bookmark("end".to_string()).unwrap();
    assert_eq!(e.status_message(), "Named bookmark 'end' added at line 3:0");
    e.move_to_start_of_file().unwrap();
    e.next_bookmark().unwrap();
    assert_eq!(*e.cursor(), pos(2, 0));
    assert_eq!(e.status_message(), "Next bookmark 'end' at line 3:0");
    e.previous_bookmark().unwrap();
    assert_eq!(*e.cursor(), pos(0, 0));
    assert_eq!(e.status_message(), "Previous bookmark at line 1:0");
    let err = e.previous_bookmark().unwrap_err();
    assert_eq!(invalid_operation_message(&err), Some("No bookmarks before current position"));
    e.jump_to_named_bookmark("end".to_string()).unwrap();
    assert_eq!(*e.cursor(), pos(2, 0));
    assert_eq!(e.status_message(), "Jumped to bookmark 'end' at line 3:0");
    let err = e.next_bookmark().unwrap_err();
    assert_eq!(invalid_operation_message(&err), Some("No bookmarks after current position"));
    let err = e.jump_to_named_bookmark("nope".to_string()).unwrap_err();
    assert_eq!(invalid_operation_message(&err), Some("No bookmark named 'nope'"));
    e.jump_to_bookmark(0).unwrap();
    assert_eq!(e.status_message(), "Jumped to bookmark at line 1:0");
    let err = e.jump_to_bookmark(5).unwrap_err();
    assert_eq!(invalid_operation_message(&err), Some("No bookmark at index 5"));
}

#[test]
fn bookmarks_are_removed_and_cleared() {
    let mut e = editor_with("a\nb\nc");
    e.toggle_bookmark().unwrap();
    e.toggle_bookmark().unwrap();
    assert_eq!(e.status_message(), "Bookmark removed from line 1:0");
    assert!(e.bookmarks().is_empty());
    e.add_named_bookmark("top".to_string()).unwrap();
    e.add_named_bookmark("again".to_string()).unwrap();
    assert_eq!(e.bookmarks().len(), 1);
    assert_eq!(e.bookmarks()[0].name.as_deref(), Some("again"));
    e.goto_line(1).unwrap();
    e.toggle_bookmark().unwrap();
    e.remove_bookmark(0).unwrap();
    assert_eq!(e.status_message(), "Removed bookmark 'again'");
    e.remove_bookmark(0).unwrap();
    assert_eq!(e.status_message(), "Removed bookmark at line 2:0");
    let err = e.remove_bookmark(0).unwrap_err();
    assert_eq!(invalid_operation_message(&err), Some("No bookmark at index 0"));
    e.toggle_bookmark().unwrap();
    e.goto_line(2).unwrap();
    e.toggle_bookmark().unwrap();
    e.clear_all_bookmarks().unwrap();
    assert_eq!(e.status_message(), "Cleared 2 bookmarks");
    assert!(e.bookmarks().is_empty());
}

#[test]
fn the_session_remembers_where_the_file_was_left() {
    let mut e = EditorState::with_buffer(Buffer::from_file_content(
        "/work/notes.txt".to_string(),
        "alpha\nbeta\ngamma\n",
        17,
    ));
    e.goto_line(1).unwrap();
    e.move_to_end_of_line().unwrap();
    let state = e.capture_file_state().unwrap();
    assert_eq!(state.path, "/work/notes.txt");
    assert_eq!((state.cursor_line, state.cursor_column), (1, 4));
    assert!(state.active);
    let mut session = editor_core::session::Session::new();
    e.save_session_state(&mut session);
    assert_eq!(session.get_open_files().len(), 1);
    assert_eq!(session.get_active_file().unwrap().path, "/work/notes.txt");
    assert_eq!(session.get_recent_files(), vec!["/work/notes.txt".to_string()]);
    assert!(EditorState::new().capture_file_state().is_none());

    let mut f = EditorState::new();
    let mut far = state.clone();
    far.cursor_line = 9;
    far.viewport_top = 7;
    f.restore_from_file_state(Buffer::from_file_content("/work/notes.txt".to_string(), "alpha\nbeta\ngamma\n", 17), &far)
        .unwrap();
    assert_eq!(f.buffer().content(), "alpha\nbeta\ngamma\n");
    assert_eq!(*f.cursor(), pos(3, 0));
    assert_eq!(f.viewport_top(), 3);
}

fn commit_info(id: &str, message: &str) -> editor_core::git_history::types::CommitInfo {
    editor_core::git_history::types::CommitInfo {
        id: id.to_string(),
        author_name: "me".to_string(),
        author_email: "me@example.com".to_string(),
        timestamp: 0,
        message: message.to_string(),
        annotation: None,
    }
}

#[test]
fn the_history_browser_is_driven_from_the_editor() {
    let mut unsaved = EditorState::new();
    let err = unsaved.open_history_browser(Vec::new()).unwrap_err();
    assert_eq!(
        invalid_operation_message(&err),
        Some("Cannot open history browser for unsaved buffer")
    );
    let err = unsaved.history_navigate_next().unwrap_err();
    assert_eq!(invalid_operation_message(&err), Some("History browser is not open"));

    let mut e = EditorState::with_buffer(Buffer::from_file_content("/p/a.rs".to_string(), "x", 1));
    let commits = vec![commit_info("c3", "fix a.rs"), commit_info("c2", "docs"), commit_info("c1", "add a.rs")];
    e.open_history_browser(commits).unwrap();
    assert!(e.is_history_browser_open());
    e.history_navigate_next().unwrap();
    assert_eq!(e.history_browser().unwrap().selected_index(), 1);
    e.history_navigate_last().unwrap();
    assert_eq!(e.history_browser().unwrap().selected_index(), 2);
    e.history_navigate_next().unwrap();
    assert_eq!(e.history_browser().unwrap().selected_index(), 2);
    e.history_navigate_first().unwrap();
    e.history_page_down().unwrap();
    assert_eq!(e.history_browser().unwrap().selected_index(), 2);
    e.history_page_up().unwrap();
    assert_eq!(e.history_browser().unwrap().selected_index(), 0);
    e.history_select_commit(1).unwrap();
    assert_eq!(e.history_browser().unwrap().selected_index(), 1);
    let err = e.history_select_commit(7).unwrap_err();
    assert_eq!(invalid_operation_message(&err), Some("Invalid commit index: 7"));
    e.history_set_base_commit(2).unwrap();
    assert_eq!(e.status_message(), "Set base commit to index 2");
    assert_eq!(e.history_browser().unwrap().base_commit_index(), Some(2));
    e.history_clear_base_commit().unwrap();
    assert_eq!(e.status_message(), "Cleared base commit");
    assert_eq!(e.history_browser().unwrap().base_commit_index(), None);
    e.history_toggle_side_by_side().unwrap();
    assert!(e.history_browser().unwrap().is_side_by_side());
    e.history_search("A.RS").unwrap();
    assert_eq!(e.history_browser().unwrap().match_count(), 2);
    e.history_clear_search().unwrap();
    e.history_filter_by_file("docs").unwrap();
    assert_eq!(e.history_browser().unwrap().match_count(), 1);
    assert_eq!(e.history_browser().unwrap().selected_index(), 1);
    e.history_clear_file_filter().unwrap();
    e.history_toggle_file_list().unwrap();
    e.history_view_diff().unwrap();
    e.close_history_browser().unwrap();
    assert!(!e.is_history_browser_open());
}

#[test]
fn the_view_keeps_a_margin_around_the_cursor() {
    let text = (0..100).map(|i| format!("line {}", i)).collect::<Vec<_>>().join("\n");
    let mut e = editor_with(&text);
    assert_eq!(e.scroll_offset(), 5);
    e.goto_line(50).unwrap();
    e.adjust_viewport_to_cursor(20);
    assert_eq!(e.viewport_top(), 36);
    e.goto_line(38).unwrap();
    e.adjust_viewport_to_cursor(20);
    assert_eq!(e.viewport_top(), 33);
    e.goto_line(40).unwrap();
    e.adjust_viewport_to_cursor(20);
    assert_eq!(e.viewport_top(), 33);
    e.set_scroll_offset(0);
    e.goto_line(2).unwrap();
    e.adjust_viewport_to_cursor(20);
    assert_eq!(e.viewport_top(), 2);
}

#[test]
fn editor_settings_are_kept() {
    let mut e = EditorState::new();
    assert_eq!(e.mode(), EditorMode::Normal);
    e.set_mode(EditorMode::Visual);
    assert_eq!(e.mode(), EditorMode::Visual);
    assert_eq!(e.search_options(), SearchOptions::default());
    let opts = SearchOptions { case_sensitive: false, use_regex: false, whole_word: true };
    e.set_search_options(opts);
    assert_eq!(e.search_options(), opts);
    assert!(e.auto_commit_enabled());
    e.set_auto_commit_enabled(false);
    assert!(!e.auto_commit_enabled());
    assert_eq!(e.large_file_config().threshold_mb, 50);
    let mut config = e.large_file_config();
    config.threshold_mb = 5;
    e.set_large_file_config(config);
    assert_eq!(e.large_file_config().threshold_mb, 5);
}

#[test]
fn lines_are_sorted_between_the_cursors() {
    let mut e = editor_with("pear\napple\nBanana\nfig\nkeep");
    e.add_cursor(pos(3, 0)).unwrap();
    e.execute_command(Command::SortLines { numerical: false }).unwrap();
    assert_eq!(e.buffer().content(), "Banana\napple\nfig\npear\nkeep");
    let mut single = editor_with("b\na");
    single.sort_lines().unwrap();
    assert_eq!(single.buffer().content(), "b\na");
    let err = single
        .execute_command(Command::SortLines { numerical: true })
        .unwrap_err();
    assert_eq!(invalid_operation_message(&err), Some("Command not yet implemented"));
}

#[test]
fn sort_ranges_are_read_and_lines_replaced() {
    let mut e = editor_with("10\n9\nx\n100\n");
    assert!(e.sort_range_bodies().unwrap().is_none());
    e.add_cursor(pos(3, 1)).unwrap();
    let (first, lines) = e.sort_range_bodies().unwrap().unwrap();
    assert_eq!(first, 0);
    assert_eq!(lines, vec!["10", "9", "x", "100"]);
    let reordered: Vec<String> = vec!["9".into(), "10".into(), "100".into(), "x".into()];
    e.replace_lines(first, &reordered).unwrap();
    assert_eq!(e.buffer().content(), "9\n10\n100\nx\n");
    let mut f = editor_with("a");
    let err = f.replace_lines(1, &reordered).unwrap_err();
    assert!(matches!(err, EditorError::InvalidPosition { line: 1, column: 0 }));
}

#[test]
fn dedent_after_indent_gives_the_text_back() {
    let mut e = editor_with("  alpha\nbeta");
    e.execute_command(Command::Indent).unwrap();
    assert_eq!(e.buffer().content(), "      alpha\nbeta");
    e.execute_command(Command::Dedent).unwrap();
    assert_eq!(e.buffer().content(), "  alpha\nbeta");
    let mut tab = editor_with("\tgamma");
    tab.execute_command(Command::Indent).unwrap();
    tab.execute_command(Command::Dedent).unwrap();
    assert_eq!(tab.buffer().content(), "   \tgamma");
}

#[test]
fn backspace_after_typing_gives_the_text_back() {
    let mut e = editor_with("ab\ncd");
    e.execute_command(Command::MoveCursorRight).unwrap();
    e.execute_command(Command::InsertChar('x')).unwrap();
    assert_eq!(e.buffer().content(), "axb\ncd");
    e.execute_command(Command::Backspace).unwrap();
    assert_eq!(e.buffer().content(), "ab\ncd");
}

#[test]
fn moving_a_line_down_after_moving_it_up_gives_the_text_back() {
    let mut e = editor_with("one\ntwo\nthree\n");
    e.goto_line(2).unwrap();
    e.execute_command(Command::MoveLinesUp).unwrap();
    assert_eq!(e.buffer().content(), "one\nthree\ntwo\n");
    assert_eq!(e.cursor().line, 1);
    e.execute_command(Command::MoveLinesDown).unwrap();
    assert_eq!(e.buffer().content(), "one\ntwo\nthree\n");
}

#[test]
fn trimming_twice_is_trimming_once() {
    let mut e = editor_with("a  \n\tb\t\n  \nc ");
    e.execute_command(Command::TrimTrailingWhitespace).unwrap();
    let once = e.buffer().content();
    assert_eq!(once, "a\n\tb\n\nc");
    e.execute_command(Command::TrimTrailingWhitespace).unwrap();
    assert_eq!(e.buffer().content(), once);
}
