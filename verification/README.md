# editor_core

The core of a text editor, written in Verus: every function in `src/` carries a
contract that Verus proves.

## Layout

- `src/` — the verified library.
  - `buffer.rs` — a text buffer over a `ropey` rope: lines, positions, edits, line
    endings (detected on reading, restored on writing).
  - `lines.rs` — how a text is cut into lines, the model every buffer contract uses.
  - `rope.rs` — the calls into `ropey`, stated over the text a rope holds.
  - `editor.rs` — the editor: multi-cursor editing, motions, line operations,
    selections (normal and block), mouse gestures, bookmarks, the history browser,
    wrapping, sorting, undo and redo of typing, the status after a save (with the
    automatic history commit), and the command dispatcher. File work is returned as
    a request for the caller to carry out.
  - `cursor.rs`, `selection.rs`, `bookmark.rs`, `history.rs`, `command.rs`,
    `session.rs`, `history_browser.rs`, `diff_parser.rs` — the pieces the editor is
    made of.
  - `git_history/` — the decisions of the per-project edit history: what to keep,
    when to compact, how large files are treated, commit messages, annotations,
    the commit graph.
  - `text.rs`, `order.rs` — character-level helpers and the order of strings.
- `app/` — the parts that touch the outside world: files, the system clipboard,
  the git repositories, serialized forms, and comparing lines as floating-point
  numbers.
- `tests/` — tests of the library, run against the compiled crate.

## Laws

Besides the contracts of each function, `src/` proves properties that span
several calls, among them: line endings are preserved from reading to writing;
cursors are always sorted and distinct; undo and redo undo each other; dedenting
right after indenting, backspace or undo right after typing, and deleting a line
right after duplicating it give the text back; matching brackets match each other;
sorting lines is determined; what is saved (bookmarks, annotations) is what is
read back.
