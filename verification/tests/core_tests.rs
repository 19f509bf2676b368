use editor_core::bookmark::{Bookmark, BookmarkManager, FileBookmarks};
use editor_core::command::{CaseMode, Command};
use editor_core::cursor::{CursorPosition, MultiCursor};
use editor_core::diff_parser::{parse_hunk_header, DiffLineType, SideBySideDiff};
use editor_core::error::EditorError;
use editor_core::git_history::graph::{format_graph_line, generate_commit_graph};
use editor_core::git_history::types::CommitInfo;
use editor_core::history::{Edit, History, HistoryEntry};
use editor_core::history_browser::HistoryBrowser;
use editor_core::selection::Selection;
use editor_core::session::{Session, SessionManager};

fn pos(line: usize, column: usize) -> CursorPosition {
    CursorPosition::new(line, column)
}

fn commit(id: &str, message: &str) -> CommitInfo {
    CommitInfo {
        id: id.to_string(),
        author_name: "me".to_string(),
        author_email: "me@localhost".to_string(),
        timestamp: 0,
        message: message.to_string(),
        annotation: None,
    }
}

#[test]
fn cursor_position_moves_and_limits() {
    let mut p = pos(0, 0);
    assert!(matches!(p.move_left(), Err(EditorError::InvalidOperation(_))));
    assert!(p.move_right(1).is_ok());
    assert_eq!(p, pos(0, 1));
    assert!(p.move_right(1).is_err());
    assert!(p.move_down(1).is_ok());
    assert!(p.move_down(1).is_err());
    assert!(p.move_up().is_ok());
    assert!(p.move_up().is_err());
    p.move_to_end_of_file(4, 7);
    assert_eq!(p, pos(4, 7));
    p.move_to_start_of_line();
    assert_eq!(p, pos(4, 0));
    p.move_to_start_of_file();
    assert_eq!(p, CursorPosition::zero());
}

#[test]
fn multi_cursor_keeps_cursors_sorted_and_distinct() {
    let mut m = MultiCursor::new();
    m.add_cursor(pos(2, 1));
    m.add_cursor(pos(0, 3));
    m.add_cursor(pos(2, 1));
    assert_eq!(m.positions(), &[pos(0, 0), pos(0, 3), pos(2, 1)]);
    assert_eq!(*m.primary(), pos(0, 0));
    m.remove_cursor(0);
    assert_eq!(m.positions(), &[pos(0, 3), pos(2, 1)]);
    m.set_positions(vec![pos(5, 5), pos(1, 1), pos(5, 5)]);
    assert_eq!(m.positions(), &[pos(1, 1), pos(5, 5)]);
    m.set_positions(Vec::new());
    assert_eq!(m.positions(), &[pos(0, 0)]);
    m.reset_to(pos(3, 3));
    assert_eq!(m.positions(), &[pos(3, 3)]);
}

#[test]
fn selections_order_their_ends() {
    let s = Selection::new(pos(3, 4), pos(1, 2));
    assert_eq!(s.start(), pos(1, 2));
    assert_eq!(s.end(), pos(3, 4));
    assert!(s.contains(pos(2, 0)));
    assert!(s.contains(pos(3, 4)));
    assert!(!s.contains(pos(3, 5)));
    assert!(!s.is_empty());
    assert!(!s.is_block());
    assert!(Selection::new_block(pos(1, 1), pos(1, 1)).is_block());
    assert!(Selection::new(pos(1, 1), pos(1, 1)).is_empty());
}

#[test]
fn bookmarks_toggle_and_navigate() {
    let mut m = BookmarkManager::new();
    assert!(m.toggle_bookmark(pos(5, 0)));
    m.add_bookmark(Bookmark::with_name(pos(1, 0), "start".to_string()));
    assert_eq!(m.bookmarks().len(), 2);
    assert_eq!(m.get_bookmark_by_name("start").map(|b| b.position), Some(pos(1, 0)));
    assert_eq!(m.next_bookmark(pos(2, 0)).map(|b| b.position), Some(pos(5, 0)));
    assert_eq!(m.previous_bookmark(pos(2, 0)).map(|b| b.position), Some(pos(1, 0)));
    assert!(!m.toggle_bookmark(pos(5, 0)));
    assert_eq!(m.bookmarks().len(), 1);
    let saved = FileBookmarks::from_manager("a.rs".to_string(), &m);
    let restored = saved.to_manager();
    assert_eq!(restored.get_bookmark_by_name("start").map(|b| b.position), Some(pos(1, 0)));
    m.clear_all();
    assert!(m.bookmarks().is_empty());
    assert!(m.get_bookmark_by_name("start").is_none());
}

#[test]
fn bookmark_names_keep_pointing_at_their_bookmarks() {
    let mut m = BookmarkManager::new();
    m.add_bookmark(Bookmark::with_name(pos(1, 0), "a".to_string()));
    m.add_bookmark(Bookmark::with_name(pos(2, 0), "b".to_string()));
    m.add_bookmark(Bookmark::with_name(pos(3, 0), "c".to_string()));
    assert_eq!(m.get_bookmark_by_name("a").map(|b| b.position), Some(pos(1, 0)));
    let removed = m.remove_bookmark(1).unwrap();
    assert_eq!(removed.position, pos(2, 0));
    assert!(m.get_bookmark_by_name("b").is_none());
    assert_eq!(m.get_bookmark_by_name("a").map(|b| b.position), Some(pos(1, 0)));
    assert_eq!(m.get_bookmark_by_name("c").map(|b| b.position), Some(pos(3, 0)));
    assert!(m.remove_bookmark(5).is_none());
    let restored = FileBookmarks::from_manager("f".to_string(), &m).to_manager();
    assert_eq!(
        restored.bookmarks().iter().map(|b| (b.position, b.name.clone())).collect::<Vec<_>>(),
        m.bookmarks().iter().map(|b| (b.position, b.name.clone())).collect::<Vec<_>>()
    );
    for name in ["a", "b", "c"] {
        assert_eq!(
            restored.get_bookmark_by_name(name).map(|b| b.position),
            m.get_bookmark_by_name(name).map(|b| b.position)
        );
    }
    let mut dup = BookmarkManager::new();
    dup.add_bookmark(Bookmark::with_name(pos(1, 0), "x".to_string()));
    dup.add_bookmark(Bookmark::with_name(pos(2, 0), "x".to_string()));
    dup.remove_bookmark(1);
    assert!(dup.get_bookmark_by_name("x").is_none());
    let back = FileBookmarks::from_manager("f".to_string(), &dup).to_manager();
    assert_eq!(back.get_bookmark_by_name("x").map(|b| b.position), Some(pos(1, 0)));
}

#[test]
fn undo_then_redo_gives_the_entry_back() {
    let mut h = History::new();
    assert!(!h.can_undo());
    let entry = HistoryEntry::new(
        vec![Edit::Insert { position: pos(0, 0), text: "abc".to_string() }],
        vec![pos(0, 0)],
        vec![pos(0, 3)],
        None,
        None,
    );
    h.push(entry);
    assert_eq!(h.undo_stack_len(), 1);
    assert!(h.memory_usage() > 0);
    let undone = h.undo().unwrap();
    assert_eq!(undone.cursor_after, vec![pos(0, 3)]);
    assert!(h.can_redo());
    let redone = h.redo().unwrap();
    assert_eq!(redone.cursor_before, vec![pos(0, 0)]);
    assert_eq!(h.redo_stack_len(), 0);
    h.clear();
    assert!(matches!(h.undo(), Err(EditorError::InvalidOperation(_))));
    match (Edit::Replace { position: pos(1, 1), old_text: "a".to_string(), new_text: "b".to_string() })
        .invert()
    {
        Edit::Replace { old_text, new_text, .. } => {
            assert_eq!(old_text, "b");
            assert_eq!(new_text, "a");
        }
        _ => panic!("inverse of a replacement is a replacement"),
    }
}

#[test]
fn commands_fall_into_kinds() {
    assert!(Command::InsertChar('a').is_editing_command());
    assert!(Command::ChangeCase { mode: CaseMode::Upper }.is_editing_command());
    assert!(Command::MoveCursorUp.is_navigation_command());
    assert!(Command::Save.is_file_command());
    assert!(!Command::Save.is_editing_command());
    assert!(!Command::Undo.is_navigation_command());
}

#[test]
fn hunk_headers_are_parsed() {
    assert_eq!(parse_hunk_header("@@ -3,4 +5,6 @@"), Some((2, 4)));
    assert_eq!(parse_hunk_header("@@ -0,0 +1 @@ fn x()"), Some((0, 0)));
    assert_eq!(parse_hunk_header("@@ -x +1 @@"), None);
    assert_eq!(parse_hunk_header("@@"), None);
}

#[test]
fn unified_diff_side_by_side() {
    let diff = "diff --git a/f b/f\n--- a/f\n+++ b/f\n@@ -1,2 +1,2 @@\n a\n-b\n+c\n";
    let d = SideBySideDiff::from_unified_diff(diff);
    assert_eq!(d.left_lines.len(), 7);
    assert_eq!(d.right_lines.len(), 7);
    assert_eq!(d.max_lines(), 7);
    assert_eq!(d.left_lines[1].line_type, DiffLineType::FileHeader);
    assert_eq!(d.left_lines[3].line_type, DiffLineType::Hunk);
    assert_eq!(d.left_lines[4].content, "a");
    assert_eq!(d.left_lines[4].old_line_num, Some(0));
    assert_eq!(d.left_lines[5].content, "b");
    assert_eq!(d.left_lines[5].old_line_num, Some(1));
    assert_eq!(d.right_lines[5].content, "");
    assert_eq!(d.right_lines[6].content, "c");
    assert_eq!(d.right_lines[6].new_line_num, Some(1));
}

#[test]
fn history_browser_navigation() {
    let commits = vec![commit("1111111aaaa", "one"), commit("2222222bbbb", "two"), commit("3333333", "fix")];
    let mut b = HistoryBrowser::with_commits(commits);
    assert_eq!(b.len(), 3);
    assert_eq!(b.selected_index(), 0);
    assert!(b.select_next());
    assert_eq!(b.selected_commit().map(|c| c.message.as_str()), Some("two"));
    assert!(b.select_last());
    assert!(!b.select_next());
    assert!(b.select_first());
    b.set_search_query(Some("fix".to_string()));
    assert!(b.is_searching());
    assert_eq!(b.match_count(), 1);
    b.clear_search();
    assert!(!b.is_searching());
    assert!(b.set_base_commit(Some(2)));
    assert!(!b.set_base_commit(Some(9)));
    b.clear();
    assert!(b.is_empty());
}

#[test]
fn commit_graph_lines() {
    let commits = vec![commit("abcdef0123", "latest"), commit("0123456789", "first")];
    let graph = generate_commit_graph(&commits);
    assert_eq!(graph.len(), 2);
    let lines = format_graph_line(&graph[0], false);
    assert!(!lines.is_empty());
    assert!(lines[0].contains("abcdef0"));
}

#[test]
fn sessions_remember_files() {
    let mut s = Session::new();
    s.add_open_file("a.rs".to_string(), pos(3, 1), 2);
    s.add_open_file("b.rs".to_string(), pos(0, 0), 0);
    s.set_active_file("b.rs");
    assert_eq!(s.get_active_file().map(|f| f.path.as_str()), Some("b.rs"));
    s.remove_open_file("a.rs");
    assert_eq!(s.get_open_files().len(), 1);
    s.add_to_recent_files("x".to_string());
    s.add_to_recent_files("y".to_string());
    s.add_to_recent_files("x".to_string());
    assert_eq!(s.get_recent_files(), vec!["x".to_string(), "y".to_string()]);
    s.set_recent_files_limit(1);
    assert_eq!(s.get_recent_files(), vec!["x".to_string()]);
    let m = SessionManager::for_home("/home/u", 42);
    assert_eq!(m.session_path(), "/home/u/.config/editor-rs/session-42.toml");
    assert_eq!(SessionManager::with_custom_path("/s.toml".to_string()).session_path(), "/s.toml");
}

#[test]
fn error_messages_name_the_failure() {
    let e = EditorError::InvalidPosition { line: 3, column: 12 };
    assert_eq!(e.message(), "Invalid position: line 3, column 12");
    let e = EditorError::InvalidOperation("Nothing to undo".to_string());
    assert_eq!(e.message(), "Invalid operation: Nothing to undo");
    let e = EditorError::ReadOnlyFile("/tmp/a.txt".to_string());
    assert_eq!(e.message(), "Cannot modify read-only file: /tmp/a.txt");
    let e = EditorError::FileTooLarge { path: "big.bin".to_string(), size: 20, limit: 10 };
    assert_eq!(e.message(), "File too large: big.bin (20 bytes, limit 10 bytes)");
    let e = EditorError::Io(std::io::Error::new(std::io::ErrorKind::Other, "disk full"));
    assert_eq!(e.message(), "I/O error: disk full");
}

#[test]
fn saved_bookmarks_load_back() {
    let mut session = Session::new();
    let mut marks = FileBookmarks::new("/p/a.rs".to_string());
    marks.bookmarks.push(Bookmark::new(pos(2, 1)));
    session.save_bookmarks("/p/a.rs".to_string(), marks.clone());
    let loaded = session.load_bookmarks("/p/a.rs").unwrap();
    assert_eq!(loaded.file_path, "/p/a.rs");
    assert_eq!(loaded.bookmarks.len(), 1);
    assert_eq!(loaded.bookmarks[0].position, pos(2, 1));
    assert!(session.load_bookmarks("/p/b.rs").is_none());
    session.save_bookmarks("/p/a.rs".to_string(), FileBookmarks::new("/p/a.rs".to_string()));
    assert!(session.load_bookmarks("/p/a.rs").is_none());
}
