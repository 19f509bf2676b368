//! The editor: a buffer, its cursors, and the commands that act on them.
//!
//! Commands that edit at the cursors visit the cursors from the last to the first, so that
//! an edit never moves a cursor still to be visited. A command that fails part way keeps
//! the edits made so far and leaves the cursors where they were.

use vstd::prelude::*;
use crate::bookmark::{names_after_removal, Bookmark, BookmarkManager};
use crate::git_history::types::{CommitInfo, LargeFileConfig, LargeFileStrategy};
use crate::order::{sort_char_lines, sorted_lines};
use crate::history_browser::{DiffViewMode, HistoryBrowser, HistoryBrowserView};
use crate::history::{
    inverse_edit, stack_after_record, trim_stack, Edit, History, HistoryEntry, HistoryEntryView, HistoryView,
};
use crate::session::{
    decimal_chars, decimal_digits, files_activated, files_after_open, one_based_chars,
    recent_after_open, OpenFileState, Session,
};
use crate::buffer::{position_error, Buffer, BufferView, Encoding, LineEnding};
use crate::command::{CaseMode, Command};
use crate::selection::{Selection, SelectionMode};
use crate::cursor::{
    pos_lt, same_positions, strictly_sorted, zero_position, CursorPosition, MultiCursor,
};
use crate::error::{invalid_operation, EditorError, Result};
use crate::lines::{
    index_of, is_line_break, lf_only, no_breaks, lemma_line_starts, line_length, line_of, line_start, line_text, num_lines, valid_position,
};
use crate::text::{
    char_width, has_prefix, utf8_len, lemma_utf8_len_push, char_lowercase, char_to_lower, char_to_upper, char_uppercase, chars_of, is_white_space,
    is_word_char, lowercase, push_all, push_range, str_eq, split_chars, split_on, string_from_chars, to_lower, to_upper,
    owned, uppercase, views_of, white_space, word_char,
};

verus! {

/// What the editor holds.
pub struct EditorView {
    pub buffer: BufferView,
    pub cursors: Seq<CursorPosition>,
    pub viewport_top: usize,
    pub status_message: Seq<char>,
    pub overwrite_mode: bool,
    pub soft_wrap_width: Option<usize>,
    pub selection: Option<Selection>,
    pub block_selection_mode: bool,
    pub bookmarks: Seq<Bookmark>,
    pub bookmark_names: Map<Seq<char>, usize>,
    pub history_browser: Option<HistoryBrowserView>,
    pub scroll_offset: usize,
    pub mode: EditorMode,
    pub search_options: SearchOptions,
    pub auto_commit_enabled: bool,
    pub large_file_config: LargeFileConfig,
    pub history: HistoryView,
}

/// A buffer being edited, with its cursors and display settings.
pub struct EditorState {
    buffer: Buffer,
    cursors: MultiCursor,
    viewport_top: usize,
    status_message: String,
    overwrite_mode: bool,
    soft_wrap_width: Option<usize>,
    selection: Option<Selection>,
    block_selection_mode: bool,
    bookmarks: EditorBookmarks,
    browser: EditorBrowser,
    scroll_offset: usize,
    mode: EditorMode,
    search_options: SearchOptions,
    auto_commit_enabled: bool,
    large_file_config: LargeFileConfig,
    history: History,
}

impl View for EditorState {
    type V = EditorView;

    closed spec fn view(&self) -> EditorView {
        EditorView {
            buffer: self.buffer@,
            cursors: self.cursors@,
            viewport_top: self.viewport_top,
            status_message: self.status_message@,
            overwrite_mode: self.overwrite_mode,
            soft_wrap_width: self.soft_wrap_width,
            selection: self.selection,
            block_selection_mode: self.block_selection_mode,
            bookmarks: self.bookmarks.m.spec_bookmarks(),
            bookmark_names: self.bookmarks.m.spec_names(),
            history_browser: match self.browser.b {
                Some(x) => Some(x@),
                None => None,
            },
            scroll_offset: self.scroll_offset,
            mode: self.mode,
            search_options: self.search_options,
            auto_commit_enabled: self.auto_commit_enabled,
            large_file_config: self.large_file_config,
            history: self.history@,
        }
    }
}

/// The history browser, when it is open, kept consistent at all times.
struct EditorBrowser {
    b: Option<HistoryBrowser>,
}

impl EditorBrowser {
    /// An open browser keeps its standing facts.
    #[verifier::type_invariant]
    spec fn consistent(self) -> bool {
        self.b matches Some(x) ==> x.wf()
    }

    /// Takes the browser out, leaving it closed.
    fn take(&mut self) -> (r: Option<HistoryBrowser>)
        ensures
            r == old(self).b,
            r matches Some(x) ==> x.wf(),
            final(self).b is None,
    {
        proof {
            use_type_invariant(&*self);
        }
        let mut b: Option<HistoryBrowser> = None;
        std::mem::swap(&mut b, &mut self.b);
        b
    }

    /// Puts a consistent browser (or none) back.
    fn put(&mut self, b: Option<HistoryBrowser>)
        requires
            b matches Some(x) ==> x.wf(),
        ensures
            final(self).b == b,
    {
        let mut b = b;
        std::mem::swap(&mut b, &mut self.b);
    }
}

/// The bookmarks of the edited buffer, kept consistent at all times.
struct EditorBookmarks {
    m: BookmarkManager,
}

impl EditorBookmarks {
    /// The bookmark list keeps its name index consistent.
    #[verifier::type_invariant]
    spec fn consistent(self) -> bool {
        self.m.wf()
    }

    fn new() -> (b: Self)
        ensures
            b.m.spec_bookmarks() == Seq::<Bookmark>::empty(),
            b.m.spec_names() == Map::<Seq<char>, usize>::empty(),
    {
        EditorBookmarks { m: BookmarkManager::new() }
    }

    /// Takes the manager out, leaving an empty one in its place.
    fn take(&mut self) -> (m: BookmarkManager)
        ensures
            m == old(self).m,
            m.wf(),
            final(self).m.spec_bookmarks() == Seq::<Bookmark>::empty(),
    {
        proof {
            use_type_invariant(&*self);
        }
        let mut m = BookmarkManager::new();
        std::mem::swap(&mut m, &mut self.m);
        m
    }

    /// Puts a consistent manager back.
    fn put(&mut self, m: BookmarkManager)
        requires
            m.wf(),
        ensures
            final(self).m == m,
    {
        let mut m = m;
        std::mem::swap(&mut m, &mut self.m);
    }
}

/// The smaller of two counts.
pub open spec fn min_usize(a: usize, b: usize) -> usize {
    if a < b { a } else { b }
}

/// `r` reports `expected`: the same success, or the same error.
pub open spec fn reports<T>(r: Result<()>, expected: core::result::Result<T, EditorError>) -> bool {
    match expected {
        Ok(_) => r is Ok,
        Err(e) => r == Err::<(), EditorError>(e),
    }
}

/// The cursors after a command that succeeded with the positions `ps`: sorted, each once.
pub open spec fn cursors_set_to(cursors: Seq<CursorPosition>, ps: Seq<CursorPosition>) -> bool {
    &&& strictly_sorted(cursors)
    &&& if ps.len() == 0 {
        cursors == seq![zero_position()]
    } else {
        same_positions(cursors, ps)
    }
}

/// `(line, column)` is a place in the text of `b`.
pub open spec fn position_in(b: BufferView, p: CursorPosition) -> bool {
    valid_position(b.text, p.line as int, p.column as int)
}

/// The error `validate_position` reports.
pub open spec fn validation_result(b: BufferView, p: CursorPosition) -> core::result::Result<(), EditorError> {
    if position_in(b, p) {
        Ok(())
    } else {
        Err(position_error(p.line, p.column))
    }
}

impl EditorState {
    /// An editor on an empty buffer, with one cursor at the origin.
    pub fn new() -> (s: EditorState)
        ensures
            s@.buffer.text == Seq::<char>::empty(),
            s@.buffer.file_path is None,
            !s@.buffer.modified,
            s@.buffer.line_ending == LineEnding::Lf,
            s@.buffer.encoding == Encoding::Utf8,
            s@.cursors == seq![zero_position()],
            s@.viewport_top == 0,
            s@.status_message == Seq::<char>::empty(),
            !s@.overwrite_mode,
            s@.soft_wrap_width is None,
            s@.selection is None,
            !s@.block_selection_mode,
            s@.bookmarks == Seq::<Bookmark>::empty(),
            s@.bookmark_names == Map::<Seq<char>, usize>::empty(),
            s@.history_browser is None,
            s@.scroll_offset == 5,
            s@.mode == EditorMode::Normal,
            s@.search_options == (SearchOptions { case_sensitive: true, use_regex: false, whole_word: false }),
            s@.auto_commit_enabled,
            s@.large_file_config == (LargeFileConfig { threshold_mb: 50, strategy: LargeFileStrategy::Warn }),
            s@.history.undo.len() == 0,
            s@.history.redo.len() == 0,
            s@.history.max_entries == 1000,
            s@.history.group_timeout_ms == 500,
    {
        EditorState {
            buffer: Buffer::new(),
            cursors: MultiCursor::new(),
            viewport_top: 0,
            status_message: String::new(),
            overwrite_mode: false,
            soft_wrap_width: None,
            selection: None,
            block_selection_mode: false,
            bookmarks: EditorBookmarks::new(),
            browser: EditorBrowser { b: None },
            scroll_offset: 5,
            mode: EditorMode::Normal,
            search_options: SearchOptions { case_sensitive: true, use_regex: false, whole_word: false },
            auto_commit_enabled: true,
            large_file_config: LargeFileConfig { threshold_mb: 50, strategy: LargeFileStrategy::Warn },
            history: History::new(),
        }
    }

    /// An editor on `buffer` (a file that was just read), with one cursor at the origin.
    pub fn with_buffer(buffer: Buffer) -> (s: EditorState)
        ensures
            s@.buffer == buffer@,
            s@.cursors == seq![zero_position()],
            s@.viewport_top == 0,
            s@.status_message == Seq::<char>::empty(),
            !s@.overwrite_mode,
            s@.soft_wrap_width is None,
            s@.selection is None,
            !s@.block_selection_mode,
            s@.bookmarks == Seq::<Bookmark>::empty(),
            s@.bookmark_names == Map::<Seq<char>, usize>::empty(),
            s@.history_browser is None,
            s@.scroll_offset == 5,
            s@.mode == EditorMode::Normal,
            s@.search_options == (SearchOptions { case_sensitive: true, use_regex: false, whole_word: false }),
            s@.auto_commit_enabled,
            s@.large_file_config == (LargeFileConfig { threshold_mb: 50, strategy: LargeFileStrategy::Warn }),
            s@.history.undo.len() == 0,
            s@.history.redo.len() == 0,
            s@.history.max_entries == 1000,
            s@.history.group_timeout_ms == 500,
    {
        EditorState {
            buffer,
            cursors: MultiCursor::new(),
            viewport_top: 0,
            status_message: String::new(),
            overwrite_mode: false,
            soft_wrap_width: None,
            selection: None,
            block_selection_mode: false,
            bookmarks: EditorBookmarks::new(),
            browser: EditorBrowser { b: None },
            scroll_offset: 5,
            mode: EditorMode::Normal,
            search_options: SearchOptions { case_sensitive: true, use_regex: false, whole_word: false },
            auto_commit_enabled: true,
            large_file_config: LargeFileConfig { threshold_mb: 50, strategy: LargeFileStrategy::Warn },
            history: History::new(),
        }
    }

    /// The buffer.
    pub fn buffer(&self) -> (b: &Buffer)
        ensures
            b@ == self@.buffer,
    {
        &self.buffer
    }

    /// The primary cursor.
    pub fn cursor(&self) -> (c: &CursorPosition)
        ensures
            self@.cursors.len() > 0,
            *c == self@.cursors[0],
    {
        self.cursors.primary()
    }

    /// All cursors, in reading order.
    pub fn cursors(&self) -> (c: &[CursorPosition])
        ensures
            c@ == self@.cursors,
            c@.len() > 0,
            strictly_sorted(c@),
    {
        self.cursors.positions()
    }

    /// How many cursors there are.
    pub fn cursor_count(&self) -> (n: usize)
        ensures
            n == self@.cursors.len(),
    {
        self.cursors.positions().len()
    }

    /// The first line shown.
    pub fn viewport_top(&self) -> (t: usize)
        ensures
            t == self@.viewport_top,
    {
        self.viewport_top
    }

    /// The status line.
    pub fn status_message(&self) -> (m: &str)
        ensures
            m@ == self@.status_message,
    {
        self.status_message.as_str()
    }

    /// Replaces the status line.
    pub fn set_status_message(&mut self, message: String)
        ensures
            final(self)@ == (EditorView { status_message: message@, ..old(self)@ }),
    {
        self.status_message = message;
    }

    /// Whether typing replaces the character under the cursor.
    pub fn overwrite_mode(&self) -> (b: bool)
        ensures
            b == self@.overwrite_mode,
    {
        self.overwrite_mode
    }

    /// The soft wrap width, if lines are soft wrapped.
    pub fn soft_wrap_width(&self) -> (w: Option<usize>)
        ensures
            w == self@.soft_wrap_width,
    {
        self.soft_wrap_width
    }

    /// Scrolls so that the primary cursor is among the `viewport_height` lines shown; a
    /// height of zero changes nothing.
    pub fn adjust_viewport(&mut self, viewport_height: usize)
        ensures
            final(self)@ == (EditorView {
                viewport_top: viewport_top_after(
                    old(self)@.viewport_top,
                    old(self)@.cursors[0].line,
                    viewport_height,
                ),
                ..old(self)@
            }),
    {
        if viewport_height == 0 {
            return;
        }
        let line = self.cursors.primary().line;
        if line < self.viewport_top {
            self.viewport_top = line;
        } else if line - self.viewport_top >= viewport_height {
            self.viewport_top = line.saturating_sub(viewport_height - 1);
        }
    }

    /// `Ok` when `position` is a place in the text.
    pub fn validate_position(&self, position: CursorPosition) -> (r: Result<()>)
        ensures
            r == validation_result(self@.buffer, position),
    {
        if position.line >= self.buffer.line_count() {
            return Err(EditorError::InvalidPosition { line: position.line, column: position.column });
        }
        let line_len = match self.buffer.line_len(position.line) {
            Ok(n) => n,
            Err(e) => return Err(e),
        };
        if position.column > line_len {
            return Err(EditorError::InvalidPosition { line: position.line, column: position.column });
        }
        Ok(())
    }
}

/// The first line shown after scrolling the primary cursor at `line` into a view of
/// `height` lines whose first line was `top`.
pub open spec fn viewport_top_after(top: usize, line: usize, height: usize) -> usize {
    if height == 0 {
        top
    } else if line < top {
        line
    } else if line >= top + height {
        if line >= height - 1 { (line - (height - 1)) as usize } else { 0 }
    } else {
        top
    }
}

/// Where a cursor ends up when the text changed under it: on the last line at most, and
/// within its line.
pub open spec fn clamped(b: BufferView, p: CursorPosition) -> CursorPosition {
    let line = min_usize(p.line, (num_lines(b.text) - 1) as usize);
    CursorPosition {
        line,
        column: min_usize(p.column, line_length(b.text, line as int) as usize),
    }
}

/// The editor with its cursors replaced.
pub open spec fn with_cursors(v: EditorView, cursors: Seq<CursorPosition>) -> EditorView {
    EditorView { cursors, ..v }
}

impl EditorState {
    /// Pulls every cursor back into the text.
    fn clamp_cursors_after_edit(&mut self) -> (r: Result<()>)
        ensures
            r is Ok,
            final(self)@ == with_cursors(old(self)@, final(self)@.cursors),
            cursors_set_to(
                final(self)@.cursors,
                old(self)@.cursors.map_values(|p: CursorPosition| clamped(old(self)@.buffer, p)),
            ),
    {
        let line_count = self.buffer.line_count();
        proof {
            lemma_line_starts(self@.buffer.text);
        }
        let n = self.cursors.positions().len();
        let ghost before = self@;
        let mut positions: Vec<CursorPosition> = Vec::new();
        let mut i: usize = 0;
        while i < n
            invariant
                self@ == before,
                n == before.cursors.len(),
                line_count == num_lines(before.buffer.text),
                line_count >= 1,
                i <= n,
                positions@ == before.cursors.take(i as int).map_values(
                    |p: CursorPosition| clamped(before.buffer, p),
                ),
            decreases n - i,
        {
            let mut pos = self.cursors.positions()[i];
            let last_line = line_count - 1;
            if pos.line > last_line {
                pos.line = last_line;
            }
            let line_len = match self.buffer.line_len(pos.line) {
                Ok(len) => len,
                Err(e) => return Err(e),
            };
            if pos.column > line_len {
                pos.column = line_len;
            }
            proof {
                assert(before.cursors.take(i + 1) == before.cursors.take(i as int).push(
                    before.cursors[i as int],
                ));
            }
            positions.push(pos);
            i += 1;
        }
        proof {
            assert(before.cursors.take(n as int) == before.cursors);
        }
        self.cursors.set_positions(positions);
        Ok(())
    }

    /// Adds a cursor at `position`, which must be a place in the text.
    pub fn add_cursor(&mut self, position: CursorPosition) -> (r: Result<()>)
        ensures
            add_cursor_outcome(old(self)@, final(self)@, r, position),

    {
        match self.validate_position(position) {
            Ok(()) => {},
            Err(e) => return Err(e),
        }
        self.cursors.add_cursor(position);
        Ok(())
    }

    /// Removes the cursor at `index` (if there is one) and pulls the rest into the text.
    pub fn remove_cursor(&mut self, index: usize) -> (r: Result<()>)
        ensures
            remove_cursor_outcome(old(self)@, final(self)@, r, index),

    {
        self.cursors.remove_cursor(index);
        self.clamp_cursors_after_edit()
    }

    /// Keeps only the primary cursor.
    pub fn clear_secondary_cursors(&mut self) -> (r: Result<()>)
        ensures
            clear_secondary_outcome(old(self)@, final(self)@, r),

    {
        let primary = *self.cursors.primary();
        self.cursors.reset_to(primary);
        Ok(())
    }

    /// Moves to the start of line `line`, leaving a single cursor; the line must exist.
    pub fn goto_line(&mut self, line: usize) -> (r: Result<()>)
        ensures
            goto_line_outcome(old(self)@, final(self)@, r, line),

    {
        if line < self.buffer.line_count() {
            let target = CursorPosition::new(line, 0);
            let v = vec![target];
            assert(v@ == seq![target]);
            self.cursors.set_positions(v);
            proof {
                crate::cursor::lemma_sorted_positions_unique(self@.cursors, seq![target]);
            }
            return Ok(());
        }
        Err(EditorError::InvalidPosition { line, column: 0 })
    }

    /// Switches between inserting and overwriting.
    pub fn toggle_overwrite_mode(&mut self) -> (r: Result<()>)
        ensures
            toggle_overwrite_outcome(old(self)@, final(self)@, r),

    {
        self.overwrite_mode = !self.overwrite_mode;
        Ok(())
    }

    /// Soft wraps lines at `width` columns; a width of zero turns soft wrapping off.
    pub fn set_soft_wrap(&mut self, width: usize) -> (r: Result<()>)
        ensures
            soft_wrap_outcome(old(self)@, final(self)@, r, width),

    {
        if width == 0 {
            self.soft_wrap_width = None;
        } else {
            self.soft_wrap_width = Some(width);
        }
        Ok(())
    }

    /// A single cursor at the origin, scrolled to the top.
    pub fn move_to_start_of_file(&mut self) -> (r: Result<()>)
        ensures
            start_of_file_outcome(old(self)@, final(self)@, r),

    {
        self.cursors.reset_to(CursorPosition::zero());
        self.viewport_top = 0;
        Ok(())
    }

    /// A single cursor at the end of the last line.
    pub fn move_to_end_of_file(&mut self) -> (r: Result<()>)
        ensures
            end_of_file_outcome(old(self)@, final(self)@, r),

    {
        proof {
            lemma_line_starts(self@.buffer.text);
        }
        if self.buffer.line_count() > 0 {
            let last_line = self.buffer.line_count() - 1;
            let last_len = match self.buffer.line_len(last_line) {
                Ok(n) => n,
                Err(e) => return Err(e),
            };
            self.cursors.reset_to(CursorPosition::new(last_line, last_len));
        }
        Ok(())
    }

    /// Starts over on an empty buffer.
    pub fn new_buffer(&mut self) -> (r: Result<()>)
        ensures
            new_buffer_outcome(old(self)@, final(self)@, r),

    {
        self.buffer = Buffer::new();
        self.cursors.reset_to(CursorPosition::zero());
        self.viewport_top = 0;
        Ok(())
    }

    /// Takes over `buffer`, a file that was just opened, with a single cursor at the origin.
    pub fn opened(&mut self, buffer: Buffer)
        ensures
            final(self)@ == (EditorView {
                buffer: buffer@,
                cursors: seq![zero_position()],
                viewport_top: 0,
                ..old(self)@
            }),
    {
        self.buffer = buffer;
        self.cursors.reset_to(CursorPosition::zero());
        self.viewport_top = 0;
    }

    /// Records that `file_count` files were just written (the buffer's among them when it is
    /// not zero), and what committing them to the project history gave: `None` when no
    /// commit was made, the number of files left out of the commit as too large, or the
    /// history's error.
    pub fn saved_files(&mut self, file_count: usize, history: Option<core::result::Result<usize, String>>)
        ensures
            final(self)@ == (EditorView {
                status_message: save_status(file_count as nat, history_view(history)),
                buffer: if file_count > 0 {
                    BufferView { modified: false, ..old(self)@.buffer }
                } else {
                    old(self)@.buffer
                },
                ..old(self)@
            }),
    {
        if file_count > 0 {
            self.buffer.mark_saved();
        }
        self.status_message = save_status_text(file_count, &history);
    }

    /// Records that the buffer was just written to `path`, which becomes its file, and what
    /// committing it to the project history gave (see `saved_files`); `file_name` is the last
    /// part of `path`, named in the status when the file was too large for the history.
    pub fn saved_as(
        &mut self,
        path: String,
        file_name: &str,
        history: Option<core::result::Result<usize, String>>,
    )
        ensures
            final(self)@ == (EditorView {
                status_message: save_as_status(file_name@, history_view(history)),
                buffer: BufferView { file_path: Some(path@), modified: false, ..old(self)@.buffer },
                ..old(self)@
            }),
    {
        self.buffer.mark_saved_as(path);
        self.status_message = save_as_status_text(file_name, &history);
    }
}

/// The result of a history commit as plain values: the number of files left out, or the
/// error's text.
pub open spec fn history_view(h: Option<core::result::Result<usize, String>>) -> Option<
    core::result::Result<nat, Seq<char>>,
> {
    match h {
        None => None,
        Some(Ok(k)) => Some(Ok(k as nat)),
        Some(Err(e)) => Some(Err(e@)),
    }
}

/// "File saved", or how many files were.
pub open spec fn files_saved_text(n: nat) -> Seq<char> {
    if n == 1 {
        "File saved"@
    } else {
        decimal_digits(n) + " files saved"@
    }
}

/// The status after saving `n` files, given what the history commit gave (`None`: no
/// commit was made; `Ok(k)`: `k` files were too large for the history; `Err(e)`: it failed).
pub open spec fn save_status(n: nat, h: Option<core::result::Result<nat, Seq<char>>>) -> Seq<char> {
    if n == 0 {
        "No modified files to save"@
    } else {
        match h {
            Some(Ok(k)) => if k == 0 {
                files_saved_text(n)
            } else if n == 1 {
                "File saved (large file skipped from history)"@
            } else if k == n {
                decimal_digits(n) + " files saved (all skipped from history: too large)"@
            } else {
                decimal_digits(n) + " files saved ("@ + decimal_digits(k)
                    + " large files skipped from history)"@
            },
            Some(Err(e)) => files_saved_text(n) + " (git history error: "@ + e + ")"@,
            None => files_saved_text(n),
        }
    }
}

/// The status after saving the buffer as the file `name`, given what the history commit
/// gave.
pub open spec fn save_as_status(name: Seq<char>, h: Option<core::result::Result<nat, Seq<char>>>) -> Seq<char> {
    match h {
        Some(Ok(k)) => if k == 0 {
            "File saved"@
        } else {
            "File saved (large file "@ + name + " skipped from history)"@
        },
        Some(Err(e)) => "File saved (git history error: "@ + e + ")"@,
        None => "File saved"@,
    }
}

/// The characters of `files_saved_text(n)`.
fn files_saved_chars(n: usize) -> (v: Vec<char>)
    ensures
        v@ == files_saved_text(n as nat),
{
    if n == 1 {
        chars_of("File saved")
    } else {
        let d = decimal_chars(n as u64);
        then_text(d, " files saved")
    }
}

/// The text of `save_status`.
fn save_status_text(n: usize, h: &Option<core::result::Result<usize, String>>) -> (s: String)
    ensures
        s@ == save_status(n as nat, history_view(*h)),
{
    if n == 0 {
        return string_from_chars(chars_of("No modified files to save").as_slice());
    }
    let v = match h {
        Some(Ok(k)) => if *k == 0 {
            files_saved_chars(n)
        } else if n == 1 {
            chars_of("File saved (large file skipped from history)")
        } else if *k == n {
            then_text(decimal_chars(n as u64), " files saved (all skipped from history: too large)")
        } else {
            let mut v = then_text(decimal_chars(n as u64), " files saved (");
            let d = decimal_chars(*k as u64);
            push_all(&mut v, d.as_slice());
            then_text(v, " large files skipped from history)")
        },
        Some(Err(e)) => {
            let v = then_text(files_saved_chars(n), " (git history error: ");
            let v = then_text(v, e.as_str());
            then_text(v, ")")
        },
        None => files_saved_chars(n),
    };
    string_from_chars(v.as_slice())
}

/// The text of `save_as_status`.
fn save_as_status_text(name: &str, h: &Option<core::result::Result<usize, String>>) -> (s: String)
    ensures
        s@ == save_as_status(name@, history_view(*h)),
{
    let v = match h {
        Some(Ok(k)) => if *k == 0 {
            chars_of("File saved")
        } else {
            let v = then_text(chars_of("File saved (large file "), name);
            then_text(v, " skipped from history)")
        },
        Some(Err(e)) => {
            let v = then_text(chars_of("File saved (git history error: "), e.as_str());
            then_text(v, ")")
        },
        None => chars_of("File saved"),
    };
    string_from_chars(v.as_slice())
}

/// The cursors left by `MultiCursor::remove_cursor`.
pub open spec fn cursors_after_removal(c: Seq<CursorPosition>, index: usize) -> Seq<CursorPosition> {
    if index < c.len() {
        if c.len() > 1 {
            c.remove(index as int)
        } else {
            seq![zero_position()]
        }
    } else {
        c
    }
}

/// A way of moving every cursor.
#[derive(Clone, Copy)]
pub enum Motion {
    Up,
    Down,
    Left,
    Right,
    WordLeft,
    WordRight,
    LineStart,
    LineEnd,
    PageUp(usize),
    PageDown(usize),
    MatchingBracket,
}

/// The last non-word character at or before `i`, or `-1` when there is none.
pub open spec fn skip_left_nonword(t: Seq<char>, i: int) -> int
    decreases i,
{
    if i < 0 {
        -1
    } else if is_word_char(t[i]) {
        i
    } else if i == 0 {
        -1
    } else {
        skip_left_nonword(t, i - 1)
    }
}

/// Where the word that holds `i - 1` starts (`i` itself when `t[i - 1]` is not in a word).
pub open spec fn word_start(t: Seq<char>, i: int) -> int
    decreases i,
{
    if i > 0 && is_word_char(t[i - 1]) {
        word_start(t, i - 1)
    } else {
        i
    }
}

/// The first position at or after `i` whose character is (for `word`) not in a word, or
/// (for `!word`) in a word; the end of the text if there is none.
pub open spec fn skip_right(t: Seq<char>, i: int, word: bool) -> int
    decreases t.len() - i,
{
    if 0 <= i < t.len() && is_word_char(t[i]) == word {
        skip_right(t, i + 1, word)
    } else {
        i
    }
}

/// Where a move one word left from index `idx > 0` lands: the start of the previous word.
pub open spec fn word_left_target(t: Seq<char>, idx: int) -> int {
    let j = skip_left_nonword(t, idx - 1);
    if j < 0 { 0 } else { word_start(t, j) }
}

/// Where a move one word right from index `idx` lands: past the rest of the current word
/// and the gap after it.
pub open spec fn word_right_target(t: Seq<char>, idx: int) -> int {
    skip_right(t, skip_right(t, idx, true), false)
}

/// The `(line, column)` of character index `i`.
pub open spec fn position_of_index(t: Seq<char>, i: int) -> CursorPosition {
    CursorPosition {
        line: line_of(t, i) as usize,
        column: (i - line_start(t, line_of(t, i))) as usize,
    }
}

/// `p` on line `line`, its column pulled back to the line's length, or the error for a
/// line that does not exist.
pub open spec fn onto_line(b: BufferView, p: CursorPosition, line: usize) -> core::result::Result<
    CursorPosition,
    EditorError,
> {
    match b.line_len_result(line) {
        Ok(len) => Ok(CursorPosition { line, column: min_usize(p.column, len) }),
        Err(e) => Err(e),
    }
}

/// Where motion `m` takes the cursor at `p`, or why it cannot.
pub open spec fn motion_result(b: BufferView, m: Motion, p: CursorPosition) -> core::result::Result<
    CursorPosition,
    EditorError,
> {
    let t = b.text;
    match m {
        Motion::Up => if p.line > 0 {
            onto_line(b, p, (p.line - 1) as usize)
        } else {
            Ok(p)
        },
        Motion::Down => if p.line + 1 < num_lines(t) {
            onto_line(b, p, (p.line + 1) as usize)
        } else {
            Ok(p)
        },
        Motion::Left => if p.column > 0 {
            Ok(CursorPosition { line: p.line, column: (p.column - 1) as usize })
        } else if p.line > 0 {
            match b.line_len_result((p.line - 1) as usize) {
                Ok(len) => Ok(CursorPosition { line: (p.line - 1) as usize, column: len }),
                Err(e) => Err(e),
            }
        } else {
            Ok(p)
        },
        Motion::Right => match b.line_len_result(p.line) {
            Ok(len) => if p.column < len {
                Ok(CursorPosition { line: p.line, column: (p.column + 1) as usize })
            } else if p.line + 1 < num_lines(t) {
                Ok(CursorPosition { line: (p.line + 1) as usize, column: 0 })
            } else {
                Ok(p)
            },
            Err(e) => Err(e),
        },
        Motion::LineStart => Ok(CursorPosition { line: p.line, column: 0 }),
        Motion::LineEnd => match b.line_len_result(p.line) {
            Ok(len) => Ok(CursorPosition { line: p.line, column: len }),
            Err(e) => Err(e),
        },
        Motion::PageUp(n) => onto_line(b, p, if p.line >= n { (p.line - n) as usize } else { 0 }),
        Motion::PageDown(n) => {
            let max_line = (num_lines(t) - 1) as usize;
            onto_line(b, p, if p.line + n <= max_line { (p.line + n) as usize } else { max_line })
        },
        Motion::WordLeft => if t.len() == 0 {
            Ok(p)
        } else if !position_in(b, p) {
            Err(position_error(p.line, p.column))
        } else if b.index(p.line, p.column) == 0 {
            Ok(zero_position())
        } else {
            Ok(position_of_index(t, word_left_target(t, b.index(p.line, p.column))))
        },
        Motion::MatchingBracket => if !position_in(b, p) {
            Err(position_error(p.line, p.column))
        } else if b.index(p.line, p.column) >= t.len() {
            Ok(p)
        } else {
            let i = b.index(p.line, p.column);
            match bracket_pair(t[i]) {
                None => Ok(p),
                Some((open, close, forward)) => {
                    let j = if forward {
                        scan_forward(t, i + 1, 1, open, close)
                    } else {
                        scan_backward(t, i - 1, 1, open, close)
                    };
                    if j < 0 { Ok(p) } else { Ok(position_of_index(t, j)) }
                },
            }
        },
        Motion::WordRight => if t.len() == 0 {
            Ok(p)
        } else if !position_in(b, p) {
            Err(position_error(p.line, p.column))
        } else if b.index(p.line, p.column) >= t.len() {
            Ok(p)
        } else {
            Ok(position_of_index(t, word_right_target(t, b.index(p.line, p.column))))
        },
    }
}

/// Motion `m` applied to each of `ps` in turn: the new positions, or the first error.
pub open spec fn motion_all(b: BufferView, m: Motion, ps: Seq<CursorPosition>) -> core::result::Result<
    Seq<CursorPosition>,
    EditorError,
>
    decreases ps.len(),
{
    if ps.len() == 0 {
        Ok(Seq::empty())
    } else {
        match motion_all(b, m, ps.drop_last()) {
            Ok(done) => match motion_result(b, m, ps.last()) {
                Ok(q) => Ok(done.push(q)),
                Err(e) => Err(e),
            },
            Err(e) => Err(e),
        }
    }
}

/// What a motion command does to the editor: on success only the cursors move, to the
/// moved positions; on failure nothing changes.
pub open spec fn motion_outcome(before: EditorView, after: EditorView, r: Result<()>, m: Motion) -> bool {
    match motion_all(before.buffer, m, before.cursors) {
        Ok(ps) => r is Ok && after == with_cursors(before, after.cursors) && cursors_set_to(
            after.cursors,
            ps,
        ),
        Err(e) => r == Err::<(), EditorError>(e) && after == before,
    }
}

impl EditorState {
    /// Where `m` takes the cursor at `pos`.
    fn motion_step(&self, m: Motion, pos: CursorPosition) -> (r: Result<CursorPosition>)
        ensures
            r == motion_result(self@.buffer, m, pos),
    {
        proof {
            lemma_line_starts(self@.buffer.text);
        }
        let line_count = self.buffer.line_count();
        match m {
            Motion::Up => {
                if pos.line > 0 {
                    self.onto_line(pos, pos.line - 1)
                } else {
                    Ok(pos)
                }
            },
            Motion::Down => {
                if pos.line < line_count && pos.line + 1 < line_count {
                    self.onto_line(pos, pos.line + 1)
                } else {
                    Ok(pos)
                }
            },
            Motion::Left => {
                if pos.column > 0 {
                    Ok(CursorPosition::new(pos.line, pos.column - 1))
                } else if pos.line > 0 {
                    match self.buffer.line_len(pos.line - 1) {
                        Ok(len) => Ok(CursorPosition::new(pos.line - 1, len)),
                        Err(e) => Err(e),
                    }
                } else {
                    Ok(pos)
                }
            },
            Motion::Right => {
                let len = match self.buffer.line_len(pos.line) {
                    Ok(n) => n,
                    Err(e) => return Err(e),
                };
                if pos.column < len {
                    Ok(CursorPosition::new(pos.line, pos.column + 1))
                } else if pos.line + 1 < line_count {
                    Ok(CursorPosition::new(pos.line + 1, 0))
                } else {
                    Ok(pos)
                }
            },
            Motion::LineStart => Ok(CursorPosition::new(pos.line, 0)),
            Motion::LineEnd => match self.buffer.line_len(pos.line) {
                Ok(len) => Ok(CursorPosition::new(pos.line, len)),
                Err(e) => Err(e),
            },
            Motion::PageUp(n) => {
                let line = if pos.line >= n {
                    pos.line - n
                } else {
                    0
                };
                self.onto_line(pos, line)
            },
            Motion::PageDown(n) => {
                let max_line = line_count - 1;
                let line = if n <= max_line && pos.line <= max_line - n {
                    pos.line + n
                } else {
                    max_line
                };
                self.onto_line(pos, line)
            },
            Motion::WordLeft => self.word_left(pos),
            Motion::WordRight => self.word_right(pos),
            Motion::MatchingBracket => self.matching_bracket(pos),
        }
    }

    /// `pos` moved onto `line`, its column pulled back to the line's length.
    fn onto_line(&self, pos: CursorPosition, line: usize) -> (r: Result<CursorPosition>)
        ensures
            r == onto_line(self@.buffer, pos, line),
    {
        let len = match self.buffer.line_len(line) {
            Ok(n) => n,
            Err(e) => return Err(e),
        };
        if pos.column > len {
            Ok(CursorPosition::new(line, len))
        } else {
            Ok(CursorPosition::new(line, pos.column))
        }
    }

    /// The start of the word before `pos`.
    fn word_left(&self, pos: CursorPosition) -> (r: Result<CursorPosition>)
        ensures
            r == motion_result(self@.buffer, Motion::WordLeft, pos),
    {
        let total = self.buffer.len_chars();
        if total == 0 {
            return Ok(pos);
        }
        let start = match self.buffer.char_index(pos.line, pos.column) {
            Ok(i) => i,
            Err(e) => return Err(e),
        };
        proof {
            crate::lines::lemma_index_of_valid(self@.buffer.text, pos.line as int, pos.column as int);
        }
        if start == 0 {
            return Ok(CursorPosition::zero());
        }
        let ghost t = self@.buffer.text;
        let mut idx = start - 1;
        loop
            invariant
                t == self@.buffer.text,
                total == t.len(),
                0 <= idx < start <= total,
                position_in(self@.buffer, pos),
                self@.buffer.index(pos.line, pos.column) == start,
                skip_left_nonword(t, idx as int) == skip_left_nonword(t, start - 1),
            ensures
                0 <= idx < total,
                skip_left_nonword(t, start - 1) == idx,
            decreases idx,
        {
            let c = self.buffer.char_at(idx).unwrap();
            if word_char(c) {
                break;
            }
            if idx == 0 {
                proof {
                    assert(skip_left_nonword(t, 0) == -1);
                    assert(word_left_target(t, start as int) == 0);
                }
                return match self.buffer.char_to_line_col(0) {
                    Ok((line, column)) => Ok(CursorPosition::new(line, column)),
                    Err(e) => Err(e),
                };
            }
            idx -= 1;
        }
        let ghost j = idx;
        while idx > 0 && word_char(self.buffer.char_at(idx - 1).unwrap())
            invariant
                t == self@.buffer.text,
                total == t.len(),
                0 <= idx <= j < total,
                word_start(t, idx as int) == word_start(t, j as int),
            decreases idx,
        {
            idx -= 1;
        }
        match self.buffer.char_to_line_col(idx) {
            Ok((line, column)) => Ok(CursorPosition::new(line, column)),
            Err(e) => Err(e),
        }
    }

    /// Past the rest of the word at `pos` and the gap after it.
    fn word_right(&self, pos: CursorPosition) -> (r: Result<CursorPosition>)
        ensures
            r == motion_result(self@.buffer, Motion::WordRight, pos),
    {
        let total = self.buffer.len_chars();
        if total == 0 {
            return Ok(pos);
        }
        let mut idx = match self.buffer.char_index(pos.line, pos.column) {
            Ok(i) => i,
            Err(e) => return Err(e),
        };
        if idx >= total {
            return Ok(pos);
        }
        let ghost t = self@.buffer.text;
        let ghost start = idx;
        if word_char(self.buffer.char_at(idx).unwrap()) {
            while idx < total && word_char(self.buffer.char_at(idx).unwrap())
                invariant
                    t == self@.buffer.text,
                    total == t.len(),
                    start <= idx <= total,
                    skip_right(t, idx as int, true) == skip_right(t, start as int, true),
                decreases total - idx,
            {
                idx += 1;
            }
        }
        let ghost mid = idx;
        assert(mid == skip_right(t, start as int, true));
        while idx < total && !word_char(self.buffer.char_at(idx).unwrap())
            invariant
                t == self@.buffer.text,
                total == t.len(),
                mid <= idx <= total,
                skip_right(t, idx as int, false) == skip_right(t, mid as int, false),
            decreases total - idx,
        {
            idx += 1;
        }
        match self.buffer.char_to_line_col(idx) {
            Ok((line, column)) => Ok(CursorPosition::new(line, column)),
            Err(e) => Err(e),
        }
    }

    /// Moves every cursor by `m`; if any cursor cannot move, none does.
    pub fn move_cursors(&mut self, m: Motion) -> (r: Result<()>)
        ensures
            motion_outcome(old(self)@, final(self)@, r, m),
    {
        let n = self.cursors.positions().len();
        let ghost before = self@;
        let mut updated: Vec<CursorPosition> = Vec::new();
        let mut i: usize = 0;
        while i < n
            invariant
                self@ == before,
                n == before.cursors.len(),
                i <= n,
                motion_all(before.buffer, m, before.cursors.take(i as int)) == Ok::<
                    Seq<CursorPosition>,
                    EditorError,
                >(updated@),
            decreases n - i,
        {
            let pos = self.cursors.positions()[i];
            proof {
                assert(before.cursors.take(i + 1).drop_last() == before.cursors.take(i as int));
            }
            let q = match self.motion_step(m, pos) {
                Ok(q) => q,
                Err(e) => {
                    proof {
                        lemma_motion_all_stops(before.buffer, m, before.cursors, (i + 1) as nat);
                    }
                    return Err(e);
                },
            };
            updated.push(q);
            i += 1;
        }
        proof {
            assert(before.cursors.take(n as int) == before.cursors);
        }
        self.cursors.set_positions(updated);
        Ok(())
    }
}

/// Once a prefix of the cursors fails to move, so do all of them, with the same error.
pub proof fn lemma_motion_all_stops(b: BufferView, m: Motion, ps: Seq<CursorPosition>, k: nat)
    requires
        k <= ps.len(),
        motion_all(b, m, ps.take(k as int)) is Err,
    ensures
        motion_all(b, m, ps) == motion_all(b, m, ps.take(k as int)),
    decreases ps.len() - k,
{
    if k < ps.len() {
        assert(ps.take((k + 1) as int).drop_last() == ps.take(k as int));
        lemma_motion_all_stops(b, m, ps, k + 1);
    } else {
        assert(ps.take(k as int) == ps);
    }
}

/// The run of spaces and tabs `t` starts with.
pub open spec fn leading_indent(t: Seq<char>) -> Seq<char>
    decreases t.len(),
{
    if t.len() > 0 && (t[0] == ' ' || t[0] == '\t') {
        seq![t[0]] + leading_indent(t.skip(1))
    } else {
        Seq::empty()
    }
}

/// An edit made at each cursor.
#[derive(Clone, Copy)]
pub enum EditAt {
    InsertChar(char),
    DeleteChar,
    Backspace,
    NewLine,
    Transpose,
    ChangeCase(CaseMode),
    /// Types the first character and, where the text after the cursor leaves room, the
    /// second one after it, leaving the cursor between them.
    AutoClose(char, char),
}

/// The character that closes `ch` when typed with auto-closing: brackets and quotes.
pub open spec fn closing_for(ch: char) -> Option<char> {
    if ch == '(' {
        Some(')')
    } else if ch == '[' {
        Some(']')
    } else if ch == '{' {
        Some('}')
    } else if ch == '"' {
        Some('"')
    } else if ch == '\'' {
        Some('\'')
    } else {
        None
    }
}

/// A character before which a closing character is added: white space or a closing
/// bracket.
pub open spec fn leaves_room(c: char) -> bool {
    is_white_space(c) || c == ')' || c == ']' || c == '}'
}

/// What an edit at one cursor leaves: the buffer and the cursor's new place, or the buffer
/// as far as the edit got and the error that stopped it.
pub type StepResult = core::result::Result<(BufferView, CursorPosition), (BufferView, EditorError)>;

/// The buffer `r` leaves (whether or not it failed) and, on success, the cursor `q`.
pub open spec fn then_cursor(
    r: core::result::Result<BufferView, EditorError>,
    before: BufferView,
    q: CursorPosition,
) -> StepResult {
    match r {
        Ok(b) => Ok((b, q)),
        Err(e) => Err((before, e)),
    }
}

/// Edit `e` at the cursor `p` of buffer `b` (`overwrite` tells whether typing replaces).
pub open spec fn edit_result(b: BufferView, overwrite: bool, e: EditAt, p: CursorPosition) -> StepResult {
    match e {
        EditAt::InsertChar(ch) => match b.line_len_result(p.line) {
            Err(er) => Err((b, er)),
            Ok(len) => {
                let cleared = if overwrite && p.column < len {
                    b.delete_char_result(p.line, p.column)
                } else {
                    Ok(b)
                };
                match cleared {
                    Err(er) => Err((b, er)),
                    Ok(b1) => then_cursor(
                        b1.insert_char_result(p.line, p.column, ch),
                        b1,
                        CursorPosition { line: p.line, column: (p.column + 1) as usize },
                    ),
                }
            },
        },
        EditAt::DeleteChar => then_cursor(b.delete_char_result(p.line, p.column), b, p),
        EditAt::Backspace => if p.column > 0 {
            then_cursor(
                b.delete_char_result(p.line, (p.column - 1) as usize),
                b,
                CursorPosition { line: p.line, column: (p.column - 1) as usize },
            )
        } else if p.line > 0 {
            match b.line_len_result((p.line - 1) as usize) {
                Err(er) => Err((b, er)),
                Ok(len) => then_cursor(
                    b.delete_char_result((p.line - 1) as usize, len),
                    b,
                    CursorPosition { line: (p.line - 1) as usize, column: len },
                ),
            }
        } else {
            Ok((b, p))
        },
        EditAt::Transpose => match b.line_result(p.line) {
            Err(er) => Err((b, er)),
            Ok(line) => {
                let t = trim_newlines(line);
                let n = t.len() as int;
                if n < 2 {
                    Ok((b, p))
                } else {
                    let (i, j, column) = if p.column == 0 || p.column == 1 {
                        (0int, 1int, 1usize)
                    } else if p.column >= n {
                        (n - 2, n - 1, p.column)
                    } else {
                        (p.column - 2, p.column - 1, p.column)
                    };
                    match replace_line_result(b, p.line, swapped(t, i, j)) {
                        Ok(b2) => Ok((b2, CursorPosition { line: p.line, column })),
                        Err(x) => Err(x),
                    }
                }
            },
        },
        EditAt::AutoClose(ch, close) => match b.line_len_result(p.line) {
            Err(er) => Err((b, er)),
            Ok(len) => {
                let room = p.column >= len || leaves_room(b.text[b.index(p.line, p.column)]);
                let q = CursorPosition { line: p.line, column: (p.column + 1) as usize };
                match b.insert_char_result(p.line, p.column, ch) {
                    Err(er) => Err((b, er)),
                    Ok(b1) => if room {
                        then_cursor(b1.insert_char_result(p.line, q.column, close), b1, q)
                    } else {
                        Ok((b1, q))
                    },
                }
            },
        },
        EditAt::ChangeCase(mode) => match b.line_result(p.line) {
            Err(er) => Err((b, er)),
            Ok(line) => match replace_line_result(b, p.line, case_changed(trim_newlines(line), mode)) {
                Ok(b2) => Ok((b2, p)),
                Err(x) => Err(x),
            },
        },
        EditAt::NewLine => match b.line_result(p.line) {
            Err(er) => Err((b, er)),
            Ok(line) => {
                let indent = leading_indent(line);
                match b.insert_char_result(p.line, p.column, '\n') {
                    Err(er) => Err((b, er)),
                    Ok(b1) => if indent.len() == 0 {
                        Ok((b1, CursorPosition { line: (p.line + 1) as usize, column: 0 }))
                    } else {
                        then_cursor(
                            b1.insert_str_result((p.line + 1) as usize, 0, indent),
                            b1,
                            CursorPosition {
                                line: (p.line + 1) as usize,
                                column: indent.len() as usize,
                            },
                        )
                    },
                }
            },
        },
    }
}

/// Edit `e` at each of `ps` in turn: the final buffer and the cursors' new places, or the
/// buffer as far as the edits got and the first error.
pub open spec fn edit_all(b: BufferView, overwrite: bool, e: EditAt, ps: Seq<CursorPosition>) -> core::result::Result<
    (BufferView, Seq<CursorPosition>),
    (BufferView, EditorError),
>
    decreases ps.len(),
{
    if ps.len() == 0 {
        Ok((b, Seq::empty()))
    } else {
        match edit_all(b, overwrite, e, ps.drop_last()) {
            Ok((b1, done)) => match edit_result(b1, overwrite, e, ps.last()) {
                Ok((b2, q)) => Ok((b2, done.push(q))),
                Err((b2, er)) => Err((b2, er)),
            },
            Err(x) => Err(x),
        }
    }
}

/// What an edit command does: the edit is made at every cursor, from the last to the
/// first; on success the cursors move to their new places, on failure they stay and the
/// edits made so far remain.
/// The history entry typing records: one replacement, at the origin, of the whole text
/// before by the whole text after, with the cursors and selection before and after; it asks
/// to be grouped with the typing before it.
pub open spec fn typing_entry(e: HistoryEntryView, before: EditorView, after: EditorView) -> bool {
    &&& e.edits.len() == 1
    &&& e.edits[0] matches Edit::Replace { position, old_text, new_text } && position
        == zero_position() && old_text@ == before.buffer.text && new_text@ == after.buffer.text
    &&& e.cursor_before == before.cursors
    &&& e.cursor_after == after.cursors
    &&& e.selection_before == before.selection
    &&& e.selection_after == after.selection
    &&& e.grouped
}

/// The history after recording `e`, folded into the newest entry when `group` holds; the
/// redo stack is emptied.
pub open spec fn typed_history(h: HistoryView, e: HistoryEntryView, group: bool) -> HistoryView {
    HistoryView {
        undo: trim_stack(stack_after_record(h.undo, e, group), h.max_entries),
        redo: Seq::empty(),
        ..h
    }
}

/// What typing `ch` (no line feed) does: the edit at every cursor (see `edit_outcome`); when
/// it succeeds and changes the text, the change is recorded in the history, folded into the
/// previous typing or not (that depends on the time since the previous edit); otherwise the
/// history stays.
pub open spec fn typing_outcome(before: EditorView, after: EditorView, r: Result<()>, ch: char) -> bool {
    &&& edit_outcome(
        before,
        EditorView { history: before.history, ..after },
        r,
        EditAt::InsertChar(ch),
    )
    &&& if r is Ok && after.buffer.text != before.buffer.text {
        exists|e: HistoryEntryView, group: bool|
            typing_entry(e, before, after) && after.history == #[trigger] typed_history(
                before.history,
                e,
                group,
            )
    } else {
        after.history == before.history
    }
}

pub open spec fn edit_outcome(before: EditorView, after: EditorView, r: Result<()>, e: EditAt) -> bool {
    match edit_all(before.buffer, before.overwrite_mode, e, before.cursors.reverse()) {
        Ok((b, ps)) => r is Ok && after == (EditorView {
            buffer: b,
            cursors: after.cursors,
            ..before
        }) && cursors_set_to(after.cursors, ps),
        Err((b, er)) => r == Err::<(), EditorError>(er) && after == (EditorView {
            buffer: b,
            ..before
        }),
    }
}

/// Once a prefix of the cursors fails, the whole command fails the same way.
pub proof fn lemma_edit_all_stops(b: BufferView, ov: bool, e: EditAt, ps: Seq<CursorPosition>, k: nat)
    requires
        k <= ps.len(),
        edit_all(b, ov, e, ps.take(k as int)) is Err,
    ensures
        edit_all(b, ov, e, ps) == edit_all(b, ov, e, ps.take(k as int)),
    decreases ps.len() - k,
{
    if k < ps.len() {
        assert(ps.take((k + 1) as int).drop_last() == ps.take(k as int));
        lemma_edit_all_stops(b, ov, e, ps, k + 1);
    } else {
        assert(ps.take(k as int) == ps);
    }
}

impl EditorState {
    /// The spaces and tabs line `line_idx` starts with.
    pub fn indentation_for_line(&self, line_idx: usize) -> (r: Result<String>)
        ensures
            match self@.buffer.line_result(line_idx) {
                Ok(line) => r matches Ok(s) && s@ == leading_indent(line) && blank_run(
                    line,
                    s@.len() as int,
                ) && s@ == line.take(s@.len() as int),
                Err(e) => r == Err::<String, EditorError>(e),
            },
    {
        let line = match self.buffer.line(line_idx) {
            Ok(l) => l,
            Err(e) => return Err(e),
        };
        let chars = chars_of(line.as_str());
        proof {
            lemma_leading_indent_run(chars@);
        }
        let n = chars.len();
        let mut indent: Vec<char> = Vec::new();
        let mut i: usize = 0;
        assert(chars@.skip(0) == chars@);
        assert(indent@ + leading_indent(chars@) == leading_indent(chars@));
        while i < n && (chars[i] == ' ' || chars[i] == '\t')
            invariant
                n == chars@.len(),
                i <= n,
                indent@ + leading_indent(chars@.skip(i as int)) == leading_indent(chars@),
            decreases n - i,
        {
            let c = chars[i];
            proof {
                let rest = chars@.skip(i as int);
                assert(rest[0] == c);
                assert(rest.skip(1) == chars@.skip(i + 1));
                assert(indent@.push(c) + leading_indent(chars@.skip(i + 1)) == indent@ + (seq![c]
                    + leading_indent(rest.skip(1))));
            }
            indent.push(c);
            i += 1;
        }
        proof {
            assert(leading_indent(chars@.skip(i as int)) == Seq::<char>::empty());
            assert(indent@ + Seq::<char>::empty() == indent@);
        }
        Ok(string_from_chars(indent.as_slice()))
    }

    /// Types `ch` at `pos`, and `close` after it where the text leaves room (see
    /// `EditAt::AutoClose`).
    fn auto_close_at(&mut self, pos: CursorPosition, ch: char, close: char) -> (r: Result<CursorPosition>)
        ensures
            match edit_result(old(self)@.buffer, old(self)@.overwrite_mode, EditAt::AutoClose(ch, close), pos) {
                Ok((b, q)) => r == Ok::<CursorPosition, EditorError>(q) && final(self)@ == (
                EditorView { buffer: b, ..old(self)@ }),
                Err((b, er)) => r == Err::<CursorPosition, EditorError>(er) && final(self)@ == (
                EditorView { buffer: b, ..old(self)@ }),
            },
    {
        let len = match self.buffer.line_len(pos.line) {
            Ok(n) => n,
            Err(er) => return Err(er),
        };
        let room = if pos.column < len {
            let idx = match self.buffer.char_index(pos.line, pos.column) {
                Ok(i) => i,
                Err(er) => return Err(er),
            };
            match self.buffer.char_at(idx) {
                Some(c) => white_space(c) || c == ')' || c == ']' || c == '}',
                None => true,
            }
        } else {
            true
        };
        let ghost b1 = self@.buffer;
        match self.buffer.insert_char(pos.line, pos.column, ch) {
            Ok(()) => {},
            Err(er) => return Err(er),
        }
        proof {
            crate::lines::lemma_index_of_valid(b1.text, pos.line as int, pos.column as int);
            lemma_line_starts(b1.text);
        }
        let total = self.buffer.len_chars();
        let q = CursorPosition::new(pos.line, pos.column + 1);
        if room {
            match self.buffer.insert_char(pos.line, pos.column + 1, close) {
                Ok(()) => Ok(q),
                Err(er) => Err(er),
            }
        } else {
            Ok(q)
        }
    }

    /// Edit `e` at the cursor `pos`.
    #[verifier::rlimit(40)]
    fn edit_step(&mut self, e: EditAt, pos: CursorPosition) -> (r: Result<CursorPosition>)
        ensures
            match edit_result(old(self)@.buffer, old(self)@.overwrite_mode, e, pos) {
                Ok((b, q)) => r == Ok::<CursorPosition, EditorError>(q) && final(self)@ == (
                EditorView { buffer: b, ..old(self)@ }),
                Err((b, er)) => r == Err::<CursorPosition, EditorError>(er) && final(self)@ == (
                EditorView { buffer: b, ..old(self)@ }),
            },
    {
        let line_count = self.buffer.line_count();
        match e {
            EditAt::InsertChar(ch) => {
                let len = match self.buffer.line_len(pos.line) {
                    Ok(n) => n,
                    Err(er) => return Err(er),
                };
                if self.overwrite_mode && pos.column < len {
                    match self.buffer.delete_char(pos.line, pos.column) {
                        Ok(()) => {},
                        Err(er) => return Err(er),
                    }
                }
                let ghost b1 = self@.buffer;
                match self.buffer.insert_char(pos.line, pos.column, ch) {
                    Ok(()) => {},
                    Err(er) => return Err(er),
                }
                proof {
                    crate::lines::lemma_index_of_valid(b1.text, pos.line as int, pos.column as int);
                    lemma_line_starts(b1.text);
                }
                let total = self.buffer.len_chars();
                Ok(CursorPosition::new(pos.line, pos.column + 1))
            },
            EditAt::DeleteChar => {
                match self.buffer.delete_char(pos.line, pos.column) {
                    Ok(()) => Ok(pos),
                    Err(er) => Err(er),
                }
            },
            EditAt::Backspace => {
                if pos.column > 0 {
                    match self.buffer.delete_char(pos.line, pos.column - 1) {
                        Ok(()) => Ok(CursorPosition::new(pos.line, pos.column - 1)),
                        Err(er) => Err(er),
                    }
                } else if pos.line > 0 {
                    let len = match self.buffer.line_len(pos.line - 1) {
                        Ok(n) => n,
                        Err(er) => return Err(er),
                    };
                    match self.buffer.delete_char(pos.line - 1, len) {
                        Ok(()) => Ok(CursorPosition::new(pos.line - 1, len)),
                        Err(er) => Err(er),
                    }
                } else {
                    Ok(pos)
                }
            },
            EditAt::Transpose => self.transpose_at(pos),
            EditAt::ChangeCase(mode) => self.change_case_at(pos, mode),
            EditAt::AutoClose(ch, close) => self.auto_close_at(pos, ch, close),
            EditAt::NewLine => {
                let indent = match self.indentation_for_line(pos.line) {
                    Ok(s) => s,
                    Err(er) => return Err(er),
                };
                match self.buffer.insert_char(pos.line, pos.column, '\n') {
                    Ok(()) => {},
                    Err(er) => return Err(er),
                }
                let next = pos.line + 1;
                let indent_chars = chars_of(indent.as_str());
                if indent_chars.len() == 0 {
                    Ok(CursorPosition::new(next, 0))
                } else {
                    match self.buffer.insert_str(next, 0, indent.as_str()) {
                        Ok(()) => Ok(CursorPosition::new(next, indent_chars.len())),
                        Err(er) => Err(er),
                    }
                }
            },
        }
    }

    /// Makes edit `e` at every cursor, from the last to the first.
    pub fn edit_at_cursors(&mut self, e: EditAt) -> (r: Result<()>)
        ensures
            edit_outcome(old(self)@, final(self)@, r, e),
    {
        let n = self.cursors.positions().len();
        let ghost before = self@;
        let ghost rs = before.cursors.reverse();
        let mut updated: Vec<CursorPosition> = Vec::new();
        let mut i: usize = 0;
        while i < n
            invariant
                n == before.cursors.len(),
                before == old(self)@,
                rs == before.cursors.reverse(),
                i <= n,
                self@.cursors == before.cursors,
                self@.overwrite_mode == before.overwrite_mode,
                edit_all(before.buffer, before.overwrite_mode, e, rs.take(i as int)) == Ok::<
                    (BufferView, Seq<CursorPosition>),
                    (BufferView, EditorError),
                >((self@.buffer, updated@)),
                self@ == (EditorView { buffer: self@.buffer, ..before }),
            decreases n - i,
        {
            let pos = self.cursors.positions()[n - 1 - i];
            proof {
                assert(rs[i as int] == pos);
                assert(rs.take(i + 1).drop_last() == rs.take(i as int));
                assert(rs.take(i + 1).last() == pos);
            }
            let ghost b_prev = self@.buffer;
            let q = match self.edit_step(e, pos) {
                Ok(q) => q,
                Err(er) => {
                    proof {
                        assert(edit_result(b_prev, before.overwrite_mode, e, pos) == Err::<
                            (BufferView, CursorPosition),
                            (BufferView, EditorError),
                        >((self@.buffer, er)));
                        assert(edit_all(before.buffer, before.overwrite_mode, e, rs.take(i + 1))
                            == Err::<(BufferView, Seq<CursorPosition>), (BufferView, EditorError)>(
                            (self@.buffer, er),
                        ));
                        lemma_edit_all_stops(before.buffer, before.overwrite_mode, e, rs, (i + 1) as nat);
                    }
                    return Err(er);
                },
            };
            updated.push(q);
            i += 1;
        }
        proof {
            assert(rs.take(n as int) == rs);
        }
        self.cursors.set_positions(updated);
        Ok(())
    }
}

impl EditorState {
    /// Types `ch` at every cursor (overwriting the character under it in overwrite mode);
    /// a `'\n'` starts a new line instead.
    pub fn insert_char(&mut self, ch: char) -> (r: Result<()>)
        ensures
            ch == '\n' ==> edit_outcome(old(self)@, final(self)@, r, EditAt::NewLine),
            ch != '\n' ==> typing_outcome(old(self)@, final(self)@, r, ch),
    {
        if ch == '\n' {
            return self.new_line();
        }
        let content_before = self.buffer.content();
        let cursor_before = copy_positions(self.cursors.positions());
        let selection_before = self.selection;
        let ghost before = self@;
        match self.edit_at_cursors(EditAt::InsertChar(ch)) {
            Ok(()) => {},
            Err(e) => return Err(e),
        }
        let content_after = self.buffer.content();
        if !str_eq(content_before.as_str(), content_after.as_str()) {
            let cursor_after = copy_positions(self.cursors.positions());
            let selection_after = self.selection;
            let edit = Edit::Replace {
                position: CursorPosition::new(0, 0),
                old_text: content_before,
                new_text: content_after,
            };
            let edits = vec![edit];
            let entry = HistoryEntry::new(
                edits,
                cursor_before,
                cursor_after,
                selection_before,
                selection_after,
            ).with_grouped(true);
            let ghost ev = entry@;
            let ghost mid = self@;
            self.history.push(entry);
            proof {
                assert(typing_entry(ev, before, mid));
                let group = choose|group: bool|
                    (group ==> true) && self@.history.undo == trim_stack(
                        #[trigger] stack_after_record(before.history.undo, ev, group),
                        before.history.max_entries,
                    );
                assert(self@.history.redo =~= Seq::<HistoryEntryView>::empty());
                assert(self@.history == typed_history(before.history, ev, group));
                assert(self@ == (EditorView { history: self@.history, ..mid }));
            }
        }
        Ok(())
    }

    /// Types `ch` at every cursor; an opening bracket or quote also gets its closing
    /// partner after the cursor, unless a character other than white space or a closing
    /// bracket follows.
    pub fn insert_char_with_auto_close(&mut self, ch: char) -> (r: Result<()>)
        ensures
            ch == '\n' ==> edit_outcome(old(self)@, final(self)@, r, EditAt::NewLine),
            ch != '\n' && closing_for(ch) is Some ==> edit_outcome(
                old(self)@,
                final(self)@,
                r,
                EditAt::AutoClose(ch, closing_for(ch)->0),
            ),
            ch != '\n' && closing_for(ch) is None ==> typing_outcome(old(self)@, final(self)@, r, ch),
    {
        if ch == '\n' {
            return self.new_line();
        }
        let close = if ch == '(' {
            Some(')')
        } else if ch == '[' {
            Some(']')
        } else if ch == '{' {
            Some('}')
        } else if ch == '"' {
            Some('"')
        } else if ch == '\'' {
            Some('\'')
        } else {
            None
        };
        match close {
            Some(c) => self.edit_at_cursors(EditAt::AutoClose(ch, c)),
            None => self.insert_char(ch),
        }
    }

    /// Deletes the character under every cursor.
    pub fn delete_char(&mut self) -> (r: Result<()>)
        ensures
            edit_outcome(old(self)@, final(self)@, r, EditAt::DeleteChar),
    {
        self.edit_at_cursors(EditAt::DeleteChar)
    }

    /// Deletes the character before every cursor, joining lines at a line start.
    pub fn backspace(&mut self) -> (r: Result<()>)
        ensures
            edit_outcome(old(self)@, final(self)@, r, EditAt::Backspace),
    {
        self.edit_at_cursors(EditAt::Backspace)
    }

    /// Breaks the line at every cursor, carrying the line's indentation to the new line.
    pub fn new_line(&mut self) -> (r: Result<()>)
        ensures
            edit_outcome(old(self)@, final(self)@, r, EditAt::NewLine),
    {
        self.edit_at_cursors(EditAt::NewLine)
    }

    /// Moves every cursor up a line.
    pub fn move_cursor_up(&mut self) -> (r: Result<()>)
        ensures
            motion_outcome(old(self)@, final(self)@, r, Motion::Up),
    {
        self.move_cursors(Motion::Up)
    }

    /// Moves every cursor down a line.
    pub fn move_cursor_down(&mut self) -> (r: Result<()>)
        ensures
            motion_outcome(old(self)@, final(self)@, r, Motion::Down),
    {
        self.move_cursors(Motion::Down)
    }

    /// Moves every cursor a character left, to the end of the previous line at a line start.
    pub fn move_cursor_left(&mut self) -> (r: Result<()>)
        ensures
            motion_outcome(old(self)@, final(self)@, r, Motion::Left),
    {
        self.move_cursors(Motion::Left)
    }

    /// Moves every cursor a character right, to the start of the next line at a line end.
    pub fn move_cursor_right(&mut self) -> (r: Result<()>)
        ensures
            motion_outcome(old(self)@, final(self)@, r, Motion::Right),
    {
        self.move_cursors(Motion::Right)
    }

    /// Moves every cursor to the start of the previous word.
    pub fn move_cursor_word_left(&mut self) -> (r: Result<()>)
        ensures
            motion_outcome(old(self)@, final(self)@, r, Motion::WordLeft),
    {
        self.move_cursors(Motion::WordLeft)
    }

    /// Moves every cursor to the start of the next word.
    pub fn move_cursor_word_right(&mut self) -> (r: Result<()>)
        ensures
            motion_outcome(old(self)@, final(self)@, r, Motion::WordRight),
    {
        self.move_cursors(Motion::WordRight)
    }

    /// Moves every cursor to the start of its line.
    pub fn move_to_start_of_line(&mut self) -> (r: Result<()>)
        ensures
            motion_outcome(old(self)@, final(self)@, r, Motion::LineStart),
    {
        self.move_cursors(Motion::LineStart)
    }

    /// Moves every cursor to the end of its line.
    pub fn move_to_end_of_line(&mut self) -> (r: Result<()>)
        ensures
            motion_outcome(old(self)@, final(self)@, r, Motion::LineEnd),
    {
        self.move_cursors(Motion::LineEnd)
    }

    /// Moves every cursor `lines` lines up, stopping at the first line.
    pub fn page_up(&mut self, lines: usize) -> (r: Result<()>)
        ensures
            motion_outcome(old(self)@, final(self)@, r, Motion::PageUp(lines)),
    {
        self.move_cursors(Motion::PageUp(lines))
    }

    /// Moves every cursor `lines` lines down, stopping at the last line.
    pub fn page_down(&mut self, lines: usize) -> (r: Result<()>)
        ensures
            motion_outcome(old(self)@, final(self)@, r, Motion::PageDown(lines)),
    {
        self.move_cursors(Motion::PageDown(lines))
    }
}

/// What deleting line `line` leaves: the line and its line break go; the last line, which
/// has no break, is emptied.
pub open spec fn delete_line_result(b: BufferView, line: usize) -> core::result::Result<BufferView, EditorError> {
    if line == (num_lines(b.text) - 1) as usize {
        match b.line_len_result(line) {
            Ok(len) => b.delete_range_result(line, 0, line, len),
            Err(e) => Err(e),
        }
    } else {
        b.delete_range_result(line, 0, (line + 1) as usize, 0)
    }
}

/// The lines of the cursors `rs` (taken last to first) deleted in turn, each line once.
pub open spec fn delete_lines_all(b: BufferView, rs: Seq<CursorPosition>) -> core::result::Result<
    BufferView,
    (BufferView, EditorError),
>
    decreases rs.len(),
{
    if rs.len() == 0 {
        Ok(b)
    } else {
        match delete_lines_all(b, rs.drop_last()) {
            Ok(b1) => if rs.len() >= 2 && rs[rs.len() - 2].line == rs.last().line {
                Ok(b1)
            } else {
                match delete_line_result(b1, rs.last().line) {
                    Ok(b2) => Ok(b2),
                    Err(e) => Err((b1, e)),
                }
            },
            Err(x) => Err(x),
        }
    }
}

/// Where a cursor goes when its line was deleted: the start of the line now at its place
/// (or of the last line).
pub open spec fn after_line_deletion(b: BufferView, p: CursorPosition) -> CursorPosition {
    CursorPosition { line: min_usize(p.line, (num_lines(b.text) - 1) as usize), column: 0 }
}

/// What `delete_line` does: the lines holding cursors are deleted from the last to the
/// first; on success each cursor goes to the start of the line now at its place.
pub open spec fn delete_line_outcome(before: EditorView, after: EditorView, r: Result<()>) -> bool {
    match delete_lines_all(before.buffer, before.cursors.reverse()) {
        Ok(b) => r is Ok && after == (EditorView {
            buffer: b,
            cursors: after.cursors,
            ..before
        }) && cursors_set_to(
            after.cursors,
            before.cursors.map_values(|p: CursorPosition| after_line_deletion(b, p)),
        ),
        Err((b, e)) => r == Err::<(), EditorError>(e) && after == (EditorView {
            buffer: b,
            ..before
        }),
    }
}

/// Once a prefix of the cursors' lines fails to go, the whole deletion fails the same way.
pub proof fn lemma_delete_lines_stops(b: BufferView, rs: Seq<CursorPosition>, k: nat)
    requires
        k <= rs.len(),
        delete_lines_all(b, rs.take(k as int)) is Err,
    ensures
        delete_lines_all(b, rs) == delete_lines_all(b, rs.take(k as int)),
    decreases rs.len() - k,
{
    if k < rs.len() {
        assert(rs.take((k + 1) as int).drop_last() == rs.take(k as int));
        lemma_delete_lines_stops(b, rs, k + 1);
    } else {
        assert(rs.take(k as int) == rs);
    }
}

impl EditorState {
    /// Deletes line `line`.
    fn delete_one_line(&mut self, line: usize) -> (r: Result<()>)
        ensures
            match delete_line_result(old(self)@.buffer, line) {
                Ok(b) => r is Ok && final(self)@ == (EditorView { buffer: b, ..old(self)@ }),
                Err(e) => r == Err::<(), EditorError>(e) && final(self)@ == old(self)@,
            },
    {
        let count = self.buffer.line_count();
        proof {
            lemma_line_starts(self@.buffer.text);
        }
        if line == count - 1 {
            let len = match self.buffer.line_len(line) {
                Ok(n) => n,
                Err(e) => return Err(e),
            };
            self.buffer.delete_range(line, 0, line, len)
        } else if line < count {
            self.buffer.delete_range(line, 0, line + 1, 0)
        } else {
            Err(EditorError::InvalidPosition { line, column: 0 })
        }
    }

    /// Deletes every line that holds a cursor.
    pub fn delete_line(&mut self) -> (r: Result<()>)
        ensures
            delete_line_outcome(old(self)@, final(self)@, r),
    {
        if self.buffer.line_count() == 0 {
            proof {
                lemma_line_starts(self@.buffer.text);
            }
            return Ok(());
        }
        let n = self.cursors.positions().len();
        let ghost before = self@;
        let ghost rs = before.cursors.reverse();
        let mut i: usize = 0;
        while i < n
            invariant
                n == before.cursors.len(),
                before == old(self)@,
                rs == before.cursors.reverse(),
                i <= n,
                self@.cursors == before.cursors,
                delete_lines_all(before.buffer, rs.take(i as int)) == Ok::<
                    BufferView,
                    (BufferView, EditorError),
                >(self@.buffer),
                self@ == (EditorView { buffer: self@.buffer, ..before }),
            decreases n - i,
        {
            let pos = self.cursors.positions()[n - 1 - i];
            proof {
                assert(rs[i as int] == pos);
                assert(rs.take(i + 1).drop_last() == rs.take(i as int));
                assert(rs.take(i + 1).last() == pos);
            }
            let repeated = i > 0 && self.cursors.positions()[n - i].line == pos.line;
            proof {
                if i > 0 {
                    assert(rs[i - 1] == before.cursors[n - i]);
                    assert(rs.take(i + 1)[i - 1] == rs[i - 1]);
                }
            }
            if !repeated {
                let ghost b_prev = self@.buffer;
                match self.delete_one_line(pos.line) {
                    Ok(()) => {},
                    Err(e) => {
                        proof {
                            assert(delete_lines_all(before.buffer, rs.take(i + 1)) == Err::<
                                BufferView,
                                (BufferView, EditorError),
                            >((b_prev, e)));
                            lemma_delete_lines_stops(before.buffer, rs, (i + 1) as nat);
                        }
                        return Err(e);
                    },
                }
            }
            i += 1;
        }
        proof {
            assert(rs.take(n as int) == rs);
        }
        self.cursors_to_line_starts()
    }

    /// Puts every cursor at the start of its line (or of the last line) after lines were
    /// deleted.
    fn cursors_to_line_starts(&mut self) -> (r: Result<()>)
        ensures
            r is Ok,
            final(self)@ == with_cursors(old(self)@, final(self)@.cursors),
            cursors_set_to(
                final(self)@.cursors,
                old(self)@.cursors.map_values(
                    |p: CursorPosition| after_line_deletion(old(self)@.buffer, p),
                ),
            ),
    {
        proof {
            lemma_line_starts(self@.buffer.text);
        }
        let n = self.cursors.positions().len();
        let ghost before = self@;
        let count = self.buffer.line_count();
        let ghost b = self@.buffer;
        let mut moved: Vec<CursorPosition> = Vec::new();
        let mut j: usize = 0;
        while j < n
            invariant
                n == before.cursors.len(),
                self@.cursors == before.cursors,
                self@.buffer == b,
                count == num_lines(b.text),
                count >= 1,
                j <= n,
                moved@ == before.cursors.take(j as int).map_values(
                    |p: CursorPosition| after_line_deletion(b, p),
                ),
            decreases n - j,
        {
            let pos = self.cursors.positions()[j];
            let line = if pos.line < count - 1 {
                pos.line
            } else {
                count - 1
            };
            proof {
                assert(before.cursors.take(j + 1) == before.cursors.take(j as int).push(
                    before.cursors[j as int],
                ));
            }
            moved.push(CursorPosition::new(line, 0));
            j += 1;
        }
        proof {
            assert(before.cursors.take(n as int) == before.cursors);
        }
        let ghost target = moved@;
        self.cursors.set_positions(moved);
        let ghost mid = self@.cursors;
        let r = self.clamp_cursors_after_edit();
        proof {
            assert forall|k: int| 0 <= k < mid.len() implies clamped(b, #[trigger] mid[k]) == mid[k] by {
                assert(target.contains(mid[k]));
                let m = choose|m: int| 0 <= m < target.len() && target[m] == mid[k];
                assert(target[m] == after_line_deletion(b, before.cursors[m]));
            }
            assert(mid.map_values(|p: CursorPosition| clamped(b, p)) == mid);
            assert(target.len() > 0);
            assert(target.contains(target[0]));
            assert(mid.contains(target[0]));
            assert forall|p: CursorPosition| self@.cursors.contains(p) <==> target.contains(p) by {
                assert(self@.cursors.contains(p) <==> mid.contains(p));
                assert(mid.contains(p) <==> target.contains(p));
            }
        }
        r
    }
}

/// `f` applied to each of `ps` in turn (with its index): the results, or the first error.
pub open spec fn map_results(
    ps: Seq<CursorPosition>,
    f: spec_fn(int, CursorPosition) -> core::result::Result<CursorPosition, EditorError>,
) -> core::result::Result<Seq<CursorPosition>, EditorError>
    decreases ps.len(),
{
    if ps.len() == 0 {
        Ok(Seq::empty())
    } else {
        match map_results(ps.drop_last(), f) {
            Ok(done) => match f(ps.len() - 1, ps.last()) {
                Ok(q) => Ok(done.push(q)),
                Err(e) => Err(e),
            },
            Err(e) => Err(e),
        }
    }
}

/// Once a prefix fails, the whole map fails the same way.
pub proof fn lemma_map_results_stops(
    ps: Seq<CursorPosition>,
    f: spec_fn(int, CursorPosition) -> core::result::Result<CursorPosition, EditorError>,
    k: nat,
)
    requires
        k <= ps.len(),
        map_results(ps.take(k as int), f) is Err,
    ensures
        map_results(ps, f) == map_results(ps.take(k as int), f),
    decreases ps.len() - k,
{
    if k < ps.len() {
        assert(ps.take((k + 1) as int).drop_last() == ps.take(k as int));
        lemma_map_results_stops(ps, f, k + 1);
    } else {
        assert(ps.take(k as int) == ps);
    }
}

/// The indentation `indent_line` adds.
pub open spec fn indent_unit() -> Seq<char> {
    seq![' ', ' ', ' ', ' ']
}

/// The lines of the cursors `ps` (first to last) indented in turn, each line once.
pub open spec fn indent_lines_all(b: BufferView, ps: Seq<CursorPosition>) -> core::result::Result<
    BufferView,
    (BufferView, EditorError),
>
    decreases ps.len(),
{
    if ps.len() == 0 {
        Ok(b)
    } else {
        match indent_lines_all(b, ps.drop_last()) {
            Ok(b1) => if ps.len() >= 2 && ps[ps.len() - 2].line == ps.last().line {
                Ok(b1)
            } else {
                match b1.insert_str_result(ps.last().line, 0, indent_unit()) {
                    Ok(b2) => Ok(b2),
                    Err(e) => Err((b1, e)),
                }
            },
            Err(x) => Err(x),
        }
    }
}

/// Where a cursor goes once its line was indented: four columns right, within the line.
pub open spec fn indented_cursor(b: BufferView, p: CursorPosition) -> core::result::Result<
    CursorPosition,
    EditorError,
> {
    match b.line_len_result(p.line) {
        Ok(len) => Ok(
            CursorPosition {
                line: p.line,
                column: if p.column + 4 > len { len } else { (p.column + 4) as usize },
            },
        ),
        Err(e) => Err(e),
    }
}

/// What `indent_line` does: every line holding a cursor gets four spaces in front, then
/// the cursors move right with their text.
pub open spec fn indent_outcome(before: EditorView, after: EditorView, r: Result<()>) -> bool {
    match indent_lines_all(before.buffer, before.cursors) {
        Err((b, e)) => r == Err::<(), EditorError>(e) && after == (EditorView {
            buffer: b,
            ..before
        }),
        Ok(b) => match map_results(
            before.cursors,
            |i: int, p: CursorPosition| indented_cursor(b, p),
        ) {
            Ok(ps) => r is Ok && after == (EditorView {
                buffer: b,
                cursors: after.cursors,
                ..before
            }) && cursors_set_to(after.cursors, ps),
            Err(e) => r == Err::<(), EditorError>(e) && after == (EditorView {
                buffer: b,
                ..before
            }),
        },
    }
}

/// Once a prefix of the lines fails to indent, the whole command fails the same way.
pub proof fn lemma_indent_lines_stops(b: BufferView, ps: Seq<CursorPosition>, k: nat)
    requires
        k <= ps.len(),
        indent_lines_all(b, ps.take(k as int)) is Err,
    ensures
        indent_lines_all(b, ps) == indent_lines_all(b, ps.take(k as int)),
    decreases ps.len() - k,
{
    if k < ps.len() {
        assert(ps.take((k + 1) as int).drop_last() == ps.take(k as int));
        lemma_indent_lines_stops(b, ps, k + 1);
    } else {
        assert(ps.take(k as int) == ps);
    }
}

impl EditorState {
    /// Indents every line that holds a cursor by four spaces.
    pub fn indent_line(&mut self) -> (r: Result<()>)
        ensures
            indent_outcome(old(self)@, final(self)@, r),
    {
        let indent = "    ";
        proof {
            reveal_strlit("    ");
        }
        let n = self.cursors.positions().len();
        let ghost before = self@;
        let ghost ps = before.cursors;
        let mut i: usize = 0;
        while i < n
            invariant
                n == ps.len(),
                ps == before.cursors,
                before == old(self)@,
                indent@ == indent_unit(),
                i <= n,
                self@.cursors == before.cursors,
                indent_lines_all(before.buffer, ps.take(i as int)) == Ok::<
                    BufferView,
                    (BufferView, EditorError),
                >(self@.buffer),
                self@ == (EditorView { buffer: self@.buffer, ..before }),
            decreases n - i,
        {
            let pos = self.cursors.positions()[i];
            proof {
                assert(ps.take(i + 1).drop_last() == ps.take(i as int));
                assert(ps.take(i + 1).last() == pos);
            }
            let repeated = i > 0 && self.cursors.positions()[i - 1].line == pos.line;
            proof {
                if i > 0 {
                    assert(ps.take(i + 1)[i - 1] == ps[i - 1]);
                }
            }
            if !repeated {
                let ghost b_prev = self@.buffer;
                match self.buffer.insert_str(pos.line, 0, indent) {
                    Ok(()) => {},
                    Err(e) => {
                        proof {
                            assert(indent_lines_all(before.buffer, ps.take(i + 1)) == Err::<
                                BufferView,
                                (BufferView, EditorError),
                            >((b_prev, e)));
                            lemma_indent_lines_stops(before.buffer, ps, (i + 1) as nat);
                        }
                        return Err(e);
                    },
                }
            }
            i += 1;
        }
        proof {
            assert(ps.take(n as int) == ps);
        }
        let ghost b = self@.buffer;
        let ghost f = |i: int, p: CursorPosition| indented_cursor(b, p);
        let mut moved: Vec<CursorPosition> = Vec::new();
        let mut j: usize = 0;
        while j < n
            invariant
                n == ps.len(),
                ps == before.cursors,
                before == old(self)@,
                self@ == (EditorView { buffer: b, ..before }),
                indent_lines_all(before.buffer, ps) == Ok::<BufferView, (BufferView, EditorError)>(
                    b,
                ),
                f == (|i: int, p: CursorPosition| indented_cursor(b, p)),
                j <= n,
                map_results(ps.take(j as int), f) == Ok::<Seq<CursorPosition>, EditorError>(
                    moved@,
                ),
            decreases n - j,
        {
            let mut pos = self.cursors.positions()[j];
            proof {
                assert(ps.take(j + 1).drop_last() == ps.take(j as int));
                assert(ps.take(j + 1).last() == pos);
            }
            pos.column = pos.column.saturating_add(4);
            let len = match self.buffer.line_len(pos.line) {
                Ok(n) => n,
                Err(e) => {
                    proof {
                        assert(f(j as int, ps[j as int]) == Err::<CursorPosition, EditorError>(e));
                        assert(map_results(ps.take(j + 1), f) == Err::<
                            Seq<CursorPosition>,
                            EditorError,
                        >(e));
                        lemma_map_results_stops(ps, f, (j + 1) as nat);
                    }
                    return Err(e);
                },
            };
            if pos.column > len {
                pos.column = len;
            }
            moved.push(pos);
            j += 1;
        }
        proof {
            assert(ps.take(n as int) == ps);
        }
        self.cursors.set_positions(moved);
        Ok(())
    }
}

/// How many characters dedenting removes from a line that reads `t` from position `i` on,
/// `count` spaces having been counted so far: up to four spaces, or a single tab.
pub open spec fn dedent_count_from(t: Seq<char>, i: int, count: nat) -> nat
    decreases t.len() - i,
{
    if 0 <= i < t.len() {
        if t[i] == ' ' && count < 4 {
            dedent_count_from(t, i + 1, count + 1)
        } else if t[i] == '\t' {
            1
        } else {
            count
        }
    } else {
        count
    }
}

/// How many characters dedenting removes from the start of line `t`.
pub open spec fn dedent_count(t: Seq<char>) -> nat {
    dedent_count_from(t, 0, 0)
}

/// The lines of the cursors `ps` (first to last) dedented in turn, each line once, with
/// how much was removed from each cursor's line.
pub open spec fn dedent_lines_all(b: BufferView, ps: Seq<CursorPosition>) -> core::result::Result<
    (BufferView, Seq<nat>),
    (BufferView, EditorError),
>
    decreases ps.len(),
{
    if ps.len() == 0 {
        Ok((b, Seq::empty()))
    } else {
        match dedent_lines_all(b, ps.drop_last()) {
            Ok((b1, amounts)) => if ps.len() >= 2 && ps[ps.len() - 2].line == ps.last().line {
                Ok((b1, amounts.push(amounts.last())))
            } else {
                match b1.line_result(ps.last().line) {
                    Err(e) => Err((b1, e)),
                    Ok(t) => if dedent_count(t) > 0 {
                        match b1.delete_range_result(
                            ps.last().line,
                            0,
                            ps.last().line,
                            dedent_count(t) as usize,
                        ) {
                            Ok(b2) => Ok((b2, amounts.push(dedent_count(t)))),
                            Err(e) => Err((b1, e)),
                        }
                    } else {
                        Ok((b1, amounts.push(0)))
                    },
                }
            },
            Err(x) => Err(x),
        }
    }
}

/// Where a cursor goes once `amount` characters were removed from the start of its line.
pub open spec fn dedented_cursor(b: BufferView, p: CursorPosition, amount: nat) -> core::result::Result<
    CursorPosition,
    EditorError,
> {
    match b.line_len_result(p.line) {
        Ok(len) => {
            let column = if p.column < amount { 0 } else { p.column - amount };
            Ok(CursorPosition { line: p.line, column: if column > len { len } else { column as usize } })
        },
        Err(e) => Err(e),
    }
}

/// What `dedent_line` does: up to four leading spaces, or one leading tab, go from every
/// line holding a cursor, and the cursors move left with their text.
pub open spec fn dedent_outcome(before: EditorView, after: EditorView, r: Result<()>) -> bool {
    match dedent_lines_all(before.buffer, before.cursors) {
        Err((b, e)) => r == Err::<(), EditorError>(e) && after == (EditorView {
            buffer: b,
            ..before
        }),
        Ok((b, amounts)) => match map_results(
            before.cursors,
            |i: int, p: CursorPosition| dedented_cursor(b, p, amounts[i]),
        ) {
            Ok(ps) => r is Ok && after == (EditorView {
                buffer: b,
                cursors: after.cursors,
                ..before
            }) && cursors_set_to(after.cursors, ps),
            Err(e) => r == Err::<(), EditorError>(e) && after == (EditorView {
                buffer: b,
                ..before
            }),
        },
    }
}

/// Once a prefix of the lines fails to dedent, the whole command fails the same way.
pub proof fn lemma_dedent_lines_stops(b: BufferView, ps: Seq<CursorPosition>, k: nat)
    requires
        k <= ps.len(),
        dedent_lines_all(b, ps.take(k as int)) is Err,
    ensures
        dedent_lines_all(b, ps) == dedent_lines_all(b, ps.take(k as int)),
    decreases ps.len() - k,
{
    if k < ps.len() {
        assert(ps.take((k + 1) as int).drop_last() == ps.take(k as int));
        lemma_dedent_lines_stops(b, ps, k + 1);
    } else {
        assert(ps.take(k as int) == ps);
    }
}

/// How many characters dedenting removes from the start of `chars`.
fn dedent_amount(chars: &[char]) -> (r: usize)
    ensures
        r == dedent_count(chars@),
        r <= 4,
{
    let mut count: usize = 0;
    let mut i: usize = 0;
    while i < chars.len()
        invariant
            i <= chars@.len(),
            count <= 4,
            dedent_count_from(chars@, i as int, count as nat) == dedent_count(chars@),
        decreases chars@.len() - i,
    {
        let c = chars[i];
        if c == ' ' && count < 4 {
            count += 1;
        } else if c == '\t' {
            return 1;
        } else {
            return count;
        }
        i += 1;
    }
    count
}

impl EditorState {
    /// Removes up to four leading spaces, or one leading tab, from every line that holds a
    /// cursor.
    pub fn dedent_line(&mut self) -> (r: Result<()>)
        ensures
            dedent_outcome(old(self)@, final(self)@, r),
    {
        let n = self.cursors.positions().len();
        let ghost before = self@;
        let ghost ps = before.cursors;
        let mut amounts: Vec<usize> = Vec::new();
        let mut i: usize = 0;
        assert(amounts@.map_values(|a: usize| a as nat) == Seq::<nat>::empty());
        assert(ps.take(0) == Seq::<CursorPosition>::empty());
        while i < n
            invariant
                n == ps.len(),
                ps == before.cursors,
                before == old(self)@,
                i <= n,
                amounts@.len() == i,
                forall|k: int| 0 <= k < i ==> #[trigger] amounts@[k] <= 4,
                self@.cursors == before.cursors,
                dedent_lines_all(before.buffer, ps.take(i as int)) == Ok::<
                    (BufferView, Seq<nat>),
                    (BufferView, EditorError),
                >((self@.buffer, amounts@.map_values(|a: usize| a as nat))),
                self@ == (EditorView { buffer: self@.buffer, ..before }),
            decreases n - i,
        {
            let pos = self.cursors.positions()[i];
            proof {
                assert(ps.take(i + 1).drop_last() == ps.take(i as int));
                assert(ps.take(i + 1).last() == pos);
            }
            let repeated = i > 0 && self.cursors.positions()[i - 1].line == pos.line;
            proof {
                if i > 0 {
                    assert(ps.take(i + 1)[i - 1] == ps[i - 1]);
                }
            }
            let ghost b_prev = self@.buffer;
            let ghost am_prev = amounts@;
            if repeated {
                let last = amounts[i - 1];
                amounts.push(last);
                proof {
                    assert(amounts@.map_values(|a: usize| a as nat) == am_prev.map_values(
                        |a: usize| a as nat,
                    ).push(last as nat));
                }
            } else {
                let line = match self.buffer.line(pos.line) {
                    Ok(l) => l,
                    Err(e) => {
                        proof {
                            lemma_dedent_lines_stops(before.buffer, ps, (i + 1) as nat);
                        }
                        return Err(e);
                    },
                };
                let chars = chars_of(line.as_str());
                let count = dedent_amount(chars.as_slice());
                if count > 0 {
                    match self.buffer.delete_range(pos.line, 0, pos.line, count) {
                        Ok(()) => {},
                        Err(e) => {
                            proof {
                                assert(dedent_lines_all(before.buffer, ps.take(i + 1)) == Err::<
                                    (BufferView, Seq<nat>),
                                    (BufferView, EditorError),
                                >((b_prev, e)));
                                lemma_dedent_lines_stops(before.buffer, ps, (i + 1) as nat);
                            }
                            return Err(e);
                        },
                    }
                }
                amounts.push(count);
                proof {
                    assert(amounts@.map_values(|a: usize| a as nat) == am_prev.map_values(
                        |a: usize| a as nat,
                    ).push(count as nat));
                }
            }
            i += 1;
        }
        proof {
            assert(ps.take(n as int) == ps);
        }
        let ghost b = self@.buffer;
        let ghost am = amounts@.map_values(|a: usize| a as nat);
        let ghost f = |i: int, p: CursorPosition| dedented_cursor(b, p, am[i]);
        let mut moved: Vec<CursorPosition> = Vec::new();
        let mut j: usize = 0;
        while j < n
            invariant
                n == ps.len(),
                ps == before.cursors,
                before == old(self)@,
                self@ == (EditorView { buffer: b, ..before }),
                amounts@.len() == n,
                am == amounts@.map_values(|a: usize| a as nat),
                dedent_lines_all(before.buffer, ps) == Ok::<
                    (BufferView, Seq<nat>),
                    (BufferView, EditorError),
                >((b, am)),
                f == (|i: int, p: CursorPosition| dedented_cursor(b, p, am[i])),
                j <= n,
                map_results(ps.take(j as int), f) == Ok::<Seq<CursorPosition>, EditorError>(
                    moved@,
                ),
            decreases n - j,
        {
            let mut pos = self.cursors.positions()[j];
            proof {
                assert(ps.take(j + 1).drop_last() == ps.take(j as int));
                assert(ps.take(j + 1).last() == pos);
            }
            let len = match self.buffer.line_len(pos.line) {
                Ok(n) => n,
                Err(e) => {
                    proof {
                        assert(f(j as int, ps[j as int]) == Err::<CursorPosition, EditorError>(e));
                        assert(map_results(ps.take(j + 1), f) == Err::<
                            Seq<CursorPosition>,
                            EditorError,
                        >(e));
                        lemma_map_results_stops(ps, f, (j + 1) as nat);
                    }
                    return Err(e);
                },
            };
            let amount = amounts[j];
            if pos.column < amount {
                pos.column = 0;
            } else {
                pos.column = pos.column - amount;
            }
            if pos.column > len {
                pos.column = len;
            }
            moved.push(pos);
            j += 1;
        }
        proof {
            assert(ps.take(n as int) == ps);
        }
        self.cursors.set_positions(moved);
        Ok(())
    }
}

/// `t` cut into pieces of `width` characters (the last one shorter); a line of at most
/// `width` characters, the empty line among them, stays whole; so does any line for a
/// width of zero.
pub open spec fn wrap_chunks(t: Seq<char>, width: nat) -> Seq<Seq<char>>
    decreases t.len(),
{
    if width == 0 || t.len() <= width {
        seq![t]
    } else {
        seq![t.take(width as int)] + wrap_chunks(t.skip(width as int), width)
    }
}

/// The lines `ls` joined with `sep` between them.
pub open spec fn joined(ls: Seq<Seq<char>>, sep: char) -> Seq<char>
    decreases ls.len(),
{
    if ls.len() == 0 {
        Seq::empty()
    } else if ls.len() == 1 {
        ls[0]
    } else {
        joined(ls.drop_last(), sep) + seq![sep] + ls.last()
    }
}

/// Every piece of `pieces` cut at `width`, the results one after another.
pub open spec fn wrap_all(pieces: Seq<Seq<char>>, width: nat) -> Seq<Seq<char>>
    decreases pieces.len(),
{
    if pieces.len() == 0 {
        Seq::empty()
    } else {
        wrap_all(pieces.drop_last(), width) + wrap_chunks(pieces.last(), width)
    }
}

/// The lines shown for `text` under soft wrap width `width`.
pub open spec fn soft_lines(text: Seq<char>, width: Option<usize>) -> Seq<Seq<char>> {
    match width {
        Some(w) => wrap_all(split_on(text, '\n'), w as nat),
        None => split_on(text, '\n'),
    }
}

/// `t` without the spaces and tabs it ends with.
pub open spec fn trim_trailing_blanks(t: Seq<char>) -> Seq<char>
    decreases t.len(),
{
    if t.len() > 0 && (t.last() == ' ' || t.last() == '\t') {
        trim_trailing_blanks(t.drop_last())
    } else {
        t
    }
}

/// `t` followed by a `'\n'` when `add` holds.
pub open spec fn with_final_newline(t: Seq<char>, add: bool) -> Seq<char> {
    if add { t.push('\n') } else { t }
}

/// `t` ends with a `'\n'`.
pub open spec fn ends_with_newline(t: Seq<char>) -> bool {
    t.len() > 0 && t.last() == '\n'
}

/// The text `hard_wrap` makes of `t`: every line cut at `width`, and a `'\n'` added when
/// `t` ended with one.
pub open spec fn hard_wrapped(t: Seq<char>, width: nat) -> Seq<char> {
    with_final_newline(joined(wrap_all(split_on(t, '\n'), width), '\n'), ends_with_newline(t))
}

/// The text `trim_trailing_whitespace` makes of `t`.
pub open spec fn trimmed_text(t: Seq<char>) -> Seq<char> {
    let body = joined(split_on(t, '\n').map_values(|l: Seq<char>| trim_trailing_blanks(l)), '\n');
    with_final_newline(body, ends_with_newline(t) && !ends_with_newline(body))
}

/// What a command that rewrites the whole text does: the buffer holds `text`, marked
/// modified, and the cursors are pulled back into it.
pub open spec fn rewrite_outcome(before: EditorView, after: EditorView, text: Seq<char>) -> bool {
    &&& after == (EditorView {
        buffer: before.buffer.edited(text),
        cursors: after.cursors,
        ..before
    })
    &&& cursors_set_to(
        after.cursors,
        before.cursors.map_values(|p: CursorPosition| clamped(before.buffer.edited(text), p)),
    )
}

/// `t` cut into pieces of `width` characters.
fn wrap_chars(t: &[char], width: usize) -> (r: Vec<Vec<char>>)
    ensures
        views_of(r@) == wrap_chunks(t@, width as nat),
{
    let mut out: Vec<Vec<char>> = Vec::new();
    if width == 0 {
        let mut whole: Vec<char> = Vec::new();
        push_all(&mut whole, t);
        out.push(whole);
        proof {
            assert(views_of(out@) == seq![t@]);
        }
        return out;
    }
    let n = t.len();
    let mut i: usize = 0;
    assert(t@.skip(0) == t@);
    assert(views_of(out@) + wrap_chunks(t@, width as nat) == wrap_chunks(t@, width as nat));
    while n - i > width
        invariant
            n == t@.len(),
            width > 0,
            i <= n,
            views_of(out@) + wrap_chunks(t@.skip(i as int), width as nat) == wrap_chunks(
                t@,
                width as nat,
            ),
        decreases n - i,
    {
        let mut chunk: Vec<char> = Vec::new();
        push_all(&mut chunk, &t[i..i + width]);
        proof {
            let rest = t@.skip(i as int);
            assert(chunk@ == rest.take(width as int));
            assert(rest.skip(width as int) == t@.skip(i + width));
            assert(views_of(out@.push(chunk)) == views_of(out@).push(chunk@));
            assert(views_of(out@).push(chunk@) + wrap_chunks(t@.skip(i + width), width as nat)
                == views_of(out@) + (seq![rest.take(width as int)] + wrap_chunks(
                rest.skip(width as int),
                width as nat,
            )));
        }
        out.push(chunk);
        i += width;
    }
    let mut last: Vec<char> = Vec::new();
    push_all(&mut last, &t[i..n]);
    proof {
        assert(last@ == t@.skip(i as int));
        assert(views_of(out@.push(last)) == views_of(out@).push(last@));
        assert(views_of(out@) + seq![last@] == views_of(out@).push(last@));
    }
    out.push(last);
    out
}

/// The lines `ls` joined with `sep` between them.
fn join_chars(ls: &Vec<Vec<char>>, sep: char) -> (r: Vec<char>)
    ensures
        r@ == joined(views_of(ls@), sep),
{
    let mut out: Vec<char> = Vec::new();
    let mut k: usize = 0;
    while k < ls.len()
        invariant
            k <= ls@.len(),
            out@ == joined(views_of(ls@).take(k as int), sep),
        decreases ls@.len() - k,
    {
        proof {
            let v = views_of(ls@);
            assert(v.take(k + 1).drop_last() == v.take(k as int));
            assert(v.take(k + 1).last() == ls@[k as int]@);
            if k == 0 {
                assert(v.take(1)[0] == ls@[0]@);
            }
        }
        if k > 0 {
            out.push(sep);
        }
        push_all(&mut out, ls[k].as_slice());
        k += 1;
    }
    proof {
        assert(views_of(ls@).take(ls@.len() as int) == views_of(ls@));
    }
    out
}

/// Every piece of `pieces` cut at `width`, the results one after another.
fn wrap_pieces(pieces: &Vec<Vec<char>>, width: usize) -> (r: Vec<Vec<char>>)
    ensures
        views_of(r@) == wrap_all(views_of(pieces@), width as nat),
{
    let mut out: Vec<Vec<char>> = Vec::new();
    let mut k: usize = 0;
    while k < pieces.len()
        invariant
            k <= pieces@.len(),
            views_of(out@) == wrap_all(views_of(pieces@).take(k as int), width as nat),
        decreases pieces@.len() - k,
    {
        let chunks = wrap_chars(pieces[k].as_slice(), width);
        let ghost before = out@;
        let mut c: usize = 0;
        while c < chunks.len()
            invariant
                c <= chunks@.len(),
                views_of(chunks@) == wrap_chunks(pieces@[k as int]@, width as nat),
                views_of(out@) == views_of(before) + views_of(chunks@).take(c as int),
            decreases chunks@.len() - c,
        {
            let piece = chunks[c].clone();
            proof {
                assert(views_of(out@.push(piece)) == views_of(out@).push(piece@));
                assert(views_of(chunks@).take(c + 1) == views_of(chunks@).take(c as int).push(
                    chunks@[c as int]@,
                ));
            }
            out.push(piece);
            c += 1;
        }
        proof {
            let v = views_of(pieces@);
            assert(views_of(chunks@).take(chunks@.len() as int) == views_of(chunks@));
            assert(v.take(k + 1).drop_last() == v.take(k as int));
            assert(v.take(k + 1).last() == pieces@[k as int]@);
        }
        k += 1;
    }
    proof {
        assert(views_of(pieces@).take(pieces@.len() as int) == views_of(pieces@));
    }
    out
}

/// The views of some strings.
pub open spec fn string_views(v: Seq<String>) -> Seq<Seq<char>> {
    v.map_values(|s: String| s@)
}

/// The character vectors `v` as strings.
fn to_strings(v: &Vec<Vec<char>>) -> (r: Vec<String>)
    ensures
        string_views(r@) == views_of(v@),
{
    let mut out: Vec<String> = Vec::new();
    let mut k: usize = 0;
    while k < v.len()
        invariant
            k <= v@.len(),
            string_views(out@) == views_of(v@).take(k as int),
        decreases v@.len() - k,
    {
        let s = string_from_chars(v[k].as_slice());
        proof {
            assert(string_views(out@.push(s)) == string_views(out@).push(s@));
            assert(views_of(v@).take(k + 1) == views_of(v@).take(k as int).push(v@[k as int]@));
        }
        out.push(s);
        k += 1;
    }
    proof {
        assert(views_of(v@).take(v@.len() as int) == views_of(v@));
    }
    out
}

/// `t` trimmed of the spaces and tabs it ends with.
fn trim_trailing_chars(t: &[char]) -> (r: Vec<char>)
    ensures
        r@ == trim_trailing_blanks(t@),
{
    let mut end = t.len();
    assert(t@.take(end as int) == t@);
    while end > 0 && (t[end - 1] == ' ' || t[end - 1] == '\t')
        invariant
            end <= t@.len(),
            trim_trailing_blanks(t@.take(end as int)) == trim_trailing_blanks(t@),
        decreases end,
    {
        proof {
            assert(t@.take(end as int).drop_last() == t@.take(end - 1));
        }
        end -= 1;
    }
    let mut out: Vec<char> = Vec::new();
    push_all(&mut out, &t[0..end]);
    proof {
        assert(t@.take(t@.len() as int) == t@);
        assert(out@ == t@.take(end as int));
    }
    out
}

impl EditorState {
    /// `line` cut into pieces of `width` characters.
    pub fn wrap_line_to_width(&self, line: &str, width: usize) -> (r: Vec<String>)
        ensures
            string_views(r@) == wrap_chunks(line@, width as nat),
    {
        let chars = chars_of(line);
        let chunks = wrap_chars(chars.as_slice(), width);
        to_strings(&chunks)
    }

    /// The lines as shown: each line of the text, cut at the soft wrap width if there is
    /// one.
    pub fn soft_wrapped_lines(&self) -> (r: Vec<String>)
        ensures
            string_views(r@) == soft_lines(self@.buffer.text, self@.soft_wrap_width),
    {
        let content = self.buffer.content();
        let chars = chars_of(content.as_str());
        let pieces = split_chars(chars.as_slice(), '\n');
        match self.soft_wrap_width {
            Some(w) => {
                let wrapped = wrap_pieces(&pieces, w);
                to_strings(&wrapped)
            },
            None => to_strings(&pieces),
        }
    }

    /// Cuts every line of the text at `width` characters; the width must not be zero.
    pub fn hard_wrap(&mut self, width: usize) -> (r: Result<()>)
        ensures
            hard_wrap_outcome(old(self)@, final(self)@, r, width),

    {
        if width == 0 {
            return Err(invalid_operation("Wrap width must be greater than zero"));
        }
        let content = self.buffer.content();
        let chars = chars_of(content.as_str());
        let ends_with_newline = chars.len() > 0 && chars[chars.len() - 1] == '\n';
        let pieces = split_chars(chars.as_slice(), '\n');
        let wrapped = wrap_pieces(&pieces, width);
        let mut text = join_chars(&wrapped, '\n');
        if ends_with_newline {
            text.push('\n');
        }
        self.buffer.set_content(string_from_chars(text.as_slice()));
        self.clamp_cursors_after_edit()
    }

    /// Removes the spaces and tabs at the end of every line.
    pub fn trim_trailing_whitespace(&mut self) -> (r: Result<()>)
        ensures
            trim_outcome(old(self)@, final(self)@, r),

    {
        let content = self.buffer.content();
        let chars = chars_of(content.as_str());
        let ends_with_newline = chars.len() > 0 && chars[chars.len() - 1] == '\n';
        let pieces = split_chars(chars.as_slice(), '\n');
        let mut trimmed: Vec<Vec<char>> = Vec::new();
        let mut k: usize = 0;
        while k < pieces.len()
            invariant
                k <= pieces@.len(),
                views_of(trimmed@) == views_of(pieces@).take(k as int).map_values(
                    |l: Seq<char>| trim_trailing_blanks(l),
                ),
            decreases pieces@.len() - k,
        {
            let line = trim_trailing_chars(pieces[k].as_slice());
            proof {
                assert(views_of(trimmed@.push(line)) == views_of(trimmed@).push(line@));
                assert(views_of(pieces@).take(k + 1) == views_of(pieces@).take(k as int).push(
                    pieces@[k as int]@,
                ));
            }
            trimmed.push(line);
            k += 1;
        }
        proof {
            assert(views_of(pieces@).take(pieces@.len() as int) == views_of(pieces@));
        }
        let mut text = join_chars(&trimmed, '\n');
        let body_ends = text.len() > 0 && text[text.len() - 1] == '\n';
        if ends_with_newline && !body_ends {
            text.push('\n');
        }
        self.buffer.set_content(string_from_chars(text.as_slice()));
        self.clamp_cursors_after_edit()
    }
}

/// What `add_cursor` does.
pub open spec fn add_cursor_outcome(
    before: EditorView,
    after: EditorView,
    r: Result<()>,
    position: CursorPosition,
) -> bool {
    &&& r == validation_result(before.buffer, position)
    &&& r is Ok ==> after == with_cursors(before, after.cursors) && cursors_set_to(
        after.cursors,
        before.cursors.push(position),
    )
    &&& r is Err ==> after == before
}

/// What `remove_cursor` does.
pub open spec fn remove_cursor_outcome(before: EditorView, after: EditorView, r: Result<()>, index: usize) -> bool {
    &&& r is Ok
    &&& after == with_cursors(before, after.cursors)
    &&& cursors_set_to(
        after.cursors,
        cursors_after_removal(before.cursors, index).map_values(
            |p: CursorPosition| clamped(before.buffer, p),
        ),
    )
}

/// What `clear_secondary_cursors` does.
pub open spec fn clear_secondary_outcome(before: EditorView, after: EditorView, r: Result<()>) -> bool {
    &&& r is Ok
    &&& after == with_cursors(before, seq![before.cursors[0]])
}

/// What `goto_line` does.
pub open spec fn goto_line_outcome(before: EditorView, after: EditorView, r: Result<()>, line: usize) -> bool {
    if line < num_lines(before.buffer.text) {
        r is Ok && after == with_cursors(before, seq![CursorPosition { line, column: 0 }])
    } else {
        r == Err::<(), EditorError>(position_error(line, 0)) && after == before
    }
}

/// What `toggle_overwrite_mode` does.
pub open spec fn toggle_overwrite_outcome(before: EditorView, after: EditorView, r: Result<()>) -> bool {
    &&& r is Ok
    &&& after == (EditorView { overwrite_mode: !before.overwrite_mode, ..before })
}

/// What `set_soft_wrap` does.
pub open spec fn soft_wrap_outcome(before: EditorView, after: EditorView, r: Result<()>, width: usize) -> bool {
    &&& r is Ok
    &&& after == (EditorView {
        soft_wrap_width: if width == 0 { None } else { Some(width) },
        ..before
    })
}

/// What `move_to_start_of_file` does.
pub open spec fn start_of_file_outcome(before: EditorView, after: EditorView, r: Result<()>) -> bool {
    &&& r is Ok
    &&& after == (EditorView { cursors: seq![zero_position()], viewport_top: 0, ..before })
}

/// What `move_to_end_of_file` does.
pub open spec fn end_of_file_outcome(before: EditorView, after: EditorView, r: Result<()>) -> bool {
    let last = num_lines(before.buffer.text) - 1;
    &&& r is Ok
    &&& after == with_cursors(
        before,
        seq![
            CursorPosition {
                line: last as usize,
                column: line_length(before.buffer.text, last) as usize,
            },
        ],
    )
}

/// What `new_buffer` does.
pub open spec fn new_buffer_outcome(before: EditorView, after: EditorView, r: Result<()>) -> bool {
    &&& r is Ok
    &&& after.buffer.text == Seq::<char>::empty()
    &&& after.buffer.file_path is None
    &&& !after.buffer.modified
    &&& after.buffer.line_ending == LineEnding::Lf
    &&& after.buffer.encoding == Encoding::Utf8
    &&& after.cursors == seq![zero_position()]
    &&& after.viewport_top == 0
    &&& after.status_message == before.status_message
    &&& after.overwrite_mode == before.overwrite_mode
    &&& after.soft_wrap_width == before.soft_wrap_width
    &&& after.selection == before.selection
    &&& after.block_selection_mode == before.block_selection_mode
    &&& after.bookmarks == before.bookmarks
    &&& after.bookmark_names == before.bookmark_names
    &&& after.history_browser == before.history_browser
    &&& after.scroll_offset == before.scroll_offset
    &&& after.mode == before.mode
    &&& after.search_options == before.search_options
    &&& after.auto_commit_enabled == before.auto_commit_enabled
    &&& after.large_file_config == before.large_file_config
}

/// What `hard_wrap` does.
pub open spec fn hard_wrap_outcome(before: EditorView, after: EditorView, r: Result<()>, width: usize) -> bool {
    if width == 0 {
        &&& r matches Err(EditorError::InvalidOperation(m))
        &&& m@ == "Wrap width must be greater than zero"@
        &&& after == before
    } else {
        r is Ok && rewrite_outcome(before, after, hard_wrapped(before.buffer.text, width as nat))
    }
}

/// What `trim_trailing_whitespace` does.
pub open spec fn trim_outcome(before: EditorView, after: EditorView, r: Result<()>) -> bool {
    &&& r is Ok
    &&& rewrite_outcome(before, after, trimmed_text(before.buffer.text))
}

/// A file operation that a command leaves to the application.
#[derive(Debug)]
pub enum FileRequest {
    /// Read the file at this path and hand the buffer to `EditorState::opened`.
    Open(String),
    /// Write `content` to `path`, the buffer's file; when `auto_commit` holds, commit it to
    /// the project history; report back with `saved_files`.
    Save { path: String, content: String, auto_commit: bool },
    /// Write `content` to `path`; when `auto_commit` holds, commit it to the project
    /// history; report back with `saved_as`.
    SaveAs { path: String, content: String, auto_commit: bool },
}

/// How many lines `PageUp` and `PageDown` move.
pub const PAGE_LINES: usize = 20;

/// The bare success or error of `r`.
pub open spec fn unit_of(r: Result<Option<FileRequest>>) -> Result<()> {
    match r {
        Ok(_) => Ok(()),
        Err(e) => Err(e),
    }
}

/// The characters of the buffer as they are written to its file.
pub open spec fn file_content(b: BufferView) -> Seq<char> {
    crate::buffer::with_line_ending(b.text, b.line_ending)
}

/// A command the editor does not carry out: refused, with nothing changed.
pub open spec fn not_implemented(before: EditorView, after: EditorView, u: Result<()>) -> bool {
    &&& u matches Err(EditorError::InvalidOperation(m)) && m@ == "Command not yet implemented"@
    &&& after == before
}

/// What `execute_command` does with `c`.
pub open spec fn command_effect(
    before: EditorView,
    after: EditorView,
    r: Result<Option<FileRequest>>,
    c: Command,
) -> bool {
    let u = unit_of(r);
    match c {
        Command::Open(path) => r == Ok::<Option<FileRequest>, EditorError>(
            Some(FileRequest::Open(path)),
        ) && after == before,
        Command::Save => match before.buffer.file_path {
            Some(path) if before.buffer.modified => after == before && (r matches Ok(
                Some(FileRequest::Save { path: p, content, auto_commit }),
            ) && p@ == path && content@ == file_content(before.buffer) && auto_commit
                == before.auto_commit_enabled),
            _ => r == Ok::<Option<FileRequest>, EditorError>(None) && after == (EditorView {
                status_message: save_status(0, None),
                ..before
            }),
        },
        Command::SaveAs(path) => after == before && (r matches Ok(
            Some(FileRequest::SaveAs { path: p, content, auto_commit }),
        ) && p == path && content@ == file_content(before.buffer) && auto_commit
            == before.auto_commit_enabled),
        _ => match c {
            Command::InsertChar(ch) => if ch == '\n' {
                edit_outcome(before, after, u, EditAt::NewLine)
            } else {
                typing_outcome(before, after, u, ch)
            },
            Command::DeleteChar => edit_outcome(before, after, u, EditAt::DeleteChar),
            Command::Backspace => edit_outcome(before, after, u, EditAt::Backspace),
            Command::NewLine => edit_outcome(before, after, u, EditAt::NewLine),
            Command::DeleteLine => delete_line_outcome(before, after, u),
            Command::DuplicateLine => duplicate_outcome(before, after, u),
            Command::MoveLinesUp => move_up_outcome(before, after, u),
            Command::MoveLinesDown => move_down_outcome(before, after, u),
            Command::JoinLines => join_outcome(before, after, u),
            Command::ChangeCase { mode } => in_order_outcome(before, after, u, EditAt::ChangeCase(mode)),
            Command::TransposeCharacters => in_order_outcome(before, after, u, EditAt::Transpose),
            Command::Indent => indent_outcome(before, after, u),
            Command::Dedent => dedent_outcome(before, after, u),
            Command::MoveCursorUp => motion_outcome(before, after, u, Motion::Up),
            Command::MoveCursorDown => motion_outcome(before, after, u, Motion::Down),
            Command::MoveCursorLeft => motion_outcome(before, after, u, Motion::Left),
            Command::MoveCursorRight => motion_outcome(before, after, u, Motion::Right),
            Command::MoveToStartOfLine => motion_outcome(before, after, u, Motion::LineStart),
            Command::MoveToEndOfLine => motion_outcome(before, after, u, Motion::LineEnd),
            Command::MoveToStartOfFile => start_of_file_outcome(before, after, u),
            Command::MoveToEndOfFile => end_of_file_outcome(before, after, u),
            Command::MoveCursorWordLeft => motion_outcome(before, after, u, Motion::WordLeft),
            Command::MoveCursorWordRight => motion_outcome(before, after, u, Motion::WordRight),
            Command::PageUp => motion_outcome(before, after, u, Motion::PageUp(PAGE_LINES)),
            Command::PageDown => motion_outcome(before, after, u, Motion::PageDown(PAGE_LINES)),
            Command::ToggleOverwriteMode => toggle_overwrite_outcome(before, after, u),
            Command::HardWrap(w) => hard_wrap_outcome(before, after, u, w),
            Command::SetSoftWrap(w) => soft_wrap_outcome(before, after, u, w),
            Command::TrimTrailingWhitespace => trim_outcome(before, after, u),
            Command::New => new_buffer_outcome(before, after, u),
            Command::Close => u is Ok && after == before,
            Command::GotoLine(l) => goto_line_outcome(before, after, u, l),
            Command::AddCursor(p) => add_cursor_outcome(before, after, u, p),
            Command::RemoveCursor(i) => remove_cursor_outcome(before, after, u, i),
            Command::ClearSecondaryCursors => clear_secondary_outcome(before, after, u),
            Command::SelectionStart => selection_start_outcome(before, after, u),
            Command::SelectionEnd => selection_end_outcome(before, after, u),
            Command::Undo => undo_outcome(before, after, u),
            Command::Redo => redo_outcome(before, after, u),
            Command::SortLines { numerical } => if numerical {
                not_implemented(before, after, u)
            } else {
                sort_outcome(before, after, u)
            },
            _ => not_implemented(before, after, u),
        },
    }
}

impl EditorState {
    /// Carries out `command`. Opening and saving files is left to the application: for
    /// those the state stays as it is and the request says what to read or write.
    pub fn execute_command(&mut self, command: Command) -> (r: Result<Option<FileRequest>>)
        ensures
            command_effect(old(self)@, final(self)@, r, command),
            !(command is Open || command is Save || command is SaveAs) ==> (r matches Ok(None)
                || r is Err),
    {
        let done = match command {
            Command::Open(path) => return Ok(Some(FileRequest::Open(path))),
            Command::Save => {
                if self.buffer.is_modified() {
                    match self.buffer.file_path() {
                        Some(path) => {
                            let path = path.clone();
                            let content = self.buffer.content_with_line_endings();
                            let auto_commit = self.auto_commit_enabled;
                            return Ok(Some(FileRequest::Save { path, content, auto_commit }));
                        },
                        None => {},
                    }
                }
                self.status_message = save_status_text(0, &None);
                return Ok(None);
            },
            Command::SaveAs(path) => {
                let content = self.buffer.content_with_line_endings();
                let auto_commit = self.auto_commit_enabled;
                return Ok(Some(FileRequest::SaveAs { path, content, auto_commit }));
            },
            Command::InsertChar(ch) => self.insert_char(ch),
            Command::DeleteChar => self.delete_char(),
            Command::Backspace => self.backspace(),
            Command::NewLine => self.new_line(),
            Command::DeleteLine => self.delete_line(),
            Command::DuplicateLine => self.duplicate_line(),
            Command::MoveLinesUp => self.move_lines_up(),
            Command::MoveLinesDown => self.move_lines_down(),
            Command::JoinLines => self.join_lines(),
            Command::ChangeCase { mode } => self.change_case(mode),
            Command::TransposeCharacters => self.transpose_characters(),
            Command::Indent => self.indent_line(),
            Command::Dedent => self.dedent_line(),
            Command::MoveCursorUp => self.move_cursor_up(),
            Command::MoveCursorDown => self.move_cursor_down(),
            Command::MoveCursorLeft => self.move_cursor_left(),
            Command::MoveCursorRight => self.move_cursor_right(),
            Command::MoveToStartOfLine => self.move_to_start_of_line(),
            Command::MoveToEndOfLine => self.move_to_end_of_line(),
            Command::MoveToStartOfFile => self.move_to_start_of_file(),
            Command::MoveToEndOfFile => self.move_to_end_of_file(),
            Command::MoveCursorWordLeft => self.move_cursor_word_left(),
            Command::MoveCursorWordRight => self.move_cursor_word_right(),
            Command::PageUp => self.page_up(PAGE_LINES),
            Command::PageDown => self.page_down(PAGE_LINES),
            Command::ToggleOverwriteMode => self.toggle_overwrite_mode(),
            Command::HardWrap(width) => self.hard_wrap(width),
            Command::SetSoftWrap(width) => self.set_soft_wrap(width),
            Command::TrimTrailingWhitespace => self.trim_trailing_whitespace(),
            Command::New => self.new_buffer(),
            Command::Close => Ok(()),
            Command::GotoLine(line) => self.goto_line(line),
            Command::AddCursor(position) => self.add_cursor(position),
            Command::RemoveCursor(index) => self.remove_cursor(index),
            Command::ClearSecondaryCursors => self.clear_secondary_cursors(),
            Command::SelectionStart => self.selection_start(),
            Command::SelectionEnd => self.selection_end(),
            Command::Undo => self.undo(),
            Command::Redo => self.redo(),
            Command::SortLines { numerical } => if numerical {
                Err(invalid_operation("Command not yet implemented"))
            } else {
                self.sort_lines()
            },
            _ => Err(invalid_operation("Command not yet implemented")),
        };
        match done {
            Ok(()) => Ok(None),
            Err(e) => Err(e),
        }
    }
}

impl Default for EditorState {
    fn default() -> (s: Self)
        ensures
            s@.buffer.text == Seq::<char>::empty(),
            s@.buffer.file_path is None,
            !s@.buffer.modified,
            s@.cursors == seq![zero_position()],
            s@.viewport_top == 0,
            s@.status_message == Seq::<char>::empty(),
            !s@.overwrite_mode,
            s@.soft_wrap_width is None,
            s@.selection is None,
            !s@.block_selection_mode,
            s@.bookmarks == Seq::<Bookmark>::empty(),
            s@.bookmark_names == Map::<Seq<char>, usize>::empty(),
            s@.history_browser is None,
            s@.scroll_offset == 5,
            s@.mode == EditorMode::Normal,
            s@.search_options == (SearchOptions { case_sensitive: true, use_regex: false, whole_word: false }),
            s@.auto_commit_enabled,
            s@.large_file_config == (LargeFileConfig { threshold_mb: 50, strategy: LargeFileStrategy::Warn }),
            s@.history.undo.len() == 0,
            s@.history.redo.len() == 0,
            s@.history.max_entries == 1000,
            s@.history.group_timeout_ms == 500,
    {
        EditorState::new()
    }
}

/// Hard wrapping loses no character and leaves no piece longer than the width: the pieces
/// of a line, put back together, are the line, and each holds at most `width` characters.
pub proof fn lemma_wrap_chunks(t: Seq<char>, width: nat)
    requires
        width > 0,
    ensures
        wrap_chunks(t, width).flatten() == t,
        forall|i: int|
            0 <= i < wrap_chunks(t, width).len() ==> #[trigger] wrap_chunks(t, width)[i].len()
                <= width,
        wrap_chunks(t, width).len() >= 1,
    decreases t.len(),
{
    let c = wrap_chunks(t, width);
    if t.len() <= width {
        assert(c == seq![t]);
        assert(c.drop_first() == Seq::<Seq<char>>::empty());
        assert(Seq::<Seq<char>>::empty().flatten() == Seq::<char>::empty());
        assert(c.first() + Seq::<char>::empty() == t);
        assert(c.flatten() == c.first() + c.drop_first().flatten());
    } else {
        let rest = wrap_chunks(t.skip(width as int), width);
        lemma_wrap_chunks(t.skip(width as int), width);
        assert(c == seq![t.take(width as int)] + rest);
        assert(c.drop_first() == rest);
        assert(c.first() == t.take(width as int));
        assert(t.take(width as int) + t.skip(width as int) == t);
        assert(c.flatten() == c.first() + c.drop_first().flatten());
        assert forall|i: int| 0 <= i < c.len() implies #[trigger] c[i].len() <= width by {
            if i > 0 {
                assert(c[i] == rest[i - 1]);
            }
        }
    }
}

/// Editing modes.
#[derive(Debug, Clone, Copy, PartialEq, Eq, Structural)]
pub enum EditorMode {
    /// Ordinary modeless editing.
    Normal,
    /// Typing inserts text.
    Insert,
    /// Moving selects text.
    Visual,
}

impl Default for EditorMode {
    fn default() -> (m: Self)
        ensures
            m == EditorMode::Normal,
    {
        EditorMode::Normal
    }
}

/// How a search matches.
#[derive(Debug, Clone, Copy, PartialEq, Eq, Structural)]
pub struct SearchOptions {
    pub case_sensitive: bool,
    pub use_regex: bool,
    pub whole_word: bool,
}

impl Default for SearchOptions {
    fn default() -> (o: Self)
        ensures
            o == (SearchOptions { case_sensitive: true, use_regex: false, whole_word: false }),
    {
        SearchOptions { case_sensitive: true, use_regex: false, whole_word: false }
    }
}

/// The lines shown in a window onto the buffer.
#[derive(Debug)]
pub struct VirtualViewport {
    pub start_line: usize,
    pub end_line: usize,
    pub visible_lines: Vec<String>,
}

/// The lines of `t` from `start` up to (not including) `end`, each with its line break.
pub open spec fn lines_between(t: Seq<char>, start: int, end: int) -> Seq<Seq<char>> {
    Seq::new(if end > start { (end - start) as nat } else { 0 }, |i: int| line_text(t, start + i))
}

impl EditorState {
    /// The window of `viewport_height` lines starting at the first line shown.
    pub fn get_virtual_viewport(&self, viewport_height: usize) -> (v: VirtualViewport)
        ensures
            v.start_line == self@.viewport_top,
            v.end_line == (if self@.viewport_top + viewport_height < num_lines(self@.buffer.text) {
                self@.viewport_top + viewport_height
            } else {
                num_lines(self@.buffer.text) as int
            }),
            string_views(v.visible_lines@) == lines_between(
                self@.buffer.text,
                v.start_line as int,
                v.end_line as int,
            ),
    {
        let total_lines = self.buffer.line_count();
        let start_line = self.viewport_top;
        let end_line = if viewport_height < total_lines && start_line < total_lines - viewport_height {
            start_line + viewport_height
        } else {
            total_lines
        };
        let mut visible_lines: Vec<String> = Vec::new();
        let mut idx = start_line;
        while idx < end_line
            invariant
                start_line <= idx <= end_line || (idx == start_line && end_line < start_line),
                end_line <= total_lines,
                total_lines == num_lines(self@.buffer.text),
                string_views(visible_lines@) == lines_between(
                    self@.buffer.text,
                    start_line as int,
                    idx as int,
                ),
            decreases end_line - idx,
        {
            match self.buffer.line(idx) {
                Ok(line) => {
                    proof {
                        assert(string_views(visible_lines@.push(line)) =~= string_views(
                            visible_lines@,
                        ).push(line@));
                        assert(lines_between(self@.buffer.text, start_line as int, idx + 1)
                            =~= lines_between(self@.buffer.text, start_line as int, idx as int).push(
                            line_text(self@.buffer.text, idx as int),
                        ));
                        assert(string_views(visible_lines@.push(line)) =~= lines_between(
                            self@.buffer.text,
                            start_line as int,
                            idx + 1,
                        ));
                    }
                    visible_lines.push(line);
                },
                Err(_) => {},
            }
            idx += 1;
        }
        proof {
            if end_line < start_line {
                assert(lines_between(self@.buffer.text, start_line as int, end_line as int)
                    =~= Seq::<Seq<char>>::empty());
                assert(lines_between(self@.buffer.text, start_line as int, start_line as int)
                    =~= Seq::<Seq<char>>::empty());
            }
        }
        VirtualViewport { start_line, end_line, visible_lines }
    }
}

/// The bracket pair `c` belongs to, and whether `c` opens it (the match lies ahead).
pub open spec fn bracket_pair(c: char) -> Option<(char, char, bool)> {
    if c == '(' {
        Some(('(', ')', true))
    } else if c == ')' {
        Some(('(', ')', false))
    } else if c == '[' {
        Some(('[', ']', true))
    } else if c == ']' {
        Some(('[', ']', false))
    } else if c == '{' {
        Some(('{', '}', true))
    } else if c == '}' {
        Some(('{', '}', false))
    } else if c == '<' {
        Some(('<', '>', true))
    } else if c == '>' {
        Some(('<', '>', false))
    } else {
        None
    }
}

/// Scanning forward from `i` at nesting `depth`: the index where the nesting comes back
/// to zero, or `-1` when the text ends first.
pub open spec fn scan_forward(t: Seq<char>, i: int, depth: int, open: char, close: char) -> int
    decreases t.len() - i,
{
    if i < 0 || i >= t.len() {
        -1
    } else {
        let d = if t[i] == open { depth + 1 } else if t[i] == close { depth - 1 } else { depth };
        if d == 0 { i } else { scan_forward(t, i + 1, d, open, close) }
    }
}

/// Scanning backward from `i` at nesting `depth`: the index where the nesting comes back
/// to zero, or `-1` when the text starts first.
pub open spec fn scan_backward(t: Seq<char>, i: int, depth: int, open: char, close: char) -> int
    decreases i + 1,
{
    if i < 0 || i >= t.len() {
        -1
    } else {
        let d = if t[i] == close { depth + 1 } else if t[i] == open { depth - 1 } else { depth };
        if d == 0 { i } else { scan_backward(t, i - 1, d, open, close) }
    }
}

impl EditorState {
    /// The bracket matching the one at `pos`, if `pos` is on a bracket that has a match.
    fn matching_bracket(&self, pos: CursorPosition) -> (r: Result<CursorPosition>)
        ensures
            r == motion_result(self@.buffer, Motion::MatchingBracket, pos),
    {
        let idx = match self.buffer.char_index(pos.line, pos.column) {
            Ok(i) => i,
            Err(e) => return Err(e),
        };
        let len = self.buffer.len_chars();
        if idx >= len {
            return Ok(pos);
        }
        let ghost t = self@.buffer.text;
        let c = self.buffer.char_at(idx).unwrap();
        let (open, close, forward) = if c == '(' {
            ('(', ')', true)
        } else if c == ')' {
            ('(', ')', false)
        } else if c == '[' {
            ('[', ']', true)
        } else if c == ']' {
            ('[', ']', false)
        } else if c == '{' {
            ('{', '}', true)
        } else if c == '}' {
            ('{', '}', false)
        } else if c == '<' {
            ('<', '>', true)
        } else if c == '>' {
            ('<', '>', false)
        } else {
            return Ok(pos);
        };
        assert(bracket_pair(t[idx as int]) == Some((open, close, forward)));
        if forward {
            let mut depth: usize = 1;
            let mut i = idx + 1;
            while i < len
                invariant
                    t == self@.buffer.text,
                    len == t.len(),
                    idx < i <= len,
                    1 <= depth <= i - idx,
                    forward,
                    position_in(self@.buffer, pos),
                    self@.buffer.index(pos.line, pos.column) == idx,
                    bracket_pair(t[idx as int]) == Some((open, close, forward)),
                    scan_forward(t, i as int, depth as int, open, close) == scan_forward(
                        t,
                        idx + 1,
                        1,
                        open,
                        close,
                    ),
                decreases len - i,
            {
                let ch = self.buffer.char_at(i).unwrap();
                if ch == open {
                    depth += 1;
                } else if ch == close {
                    depth -= 1;
                    if depth == 0 {
                        return match self.buffer.char_to_line_col(i) {
                            Ok((line, column)) => Ok(CursorPosition::new(line, column)),
                            Err(e) => Err(e),
                        };
                    }
                }
                i += 1;
            }
            Ok(pos)
        } else {
            let mut depth: usize = 1;
            let mut k = idx;
            while k > 0
                invariant
                    t == self@.buffer.text,
                    len == t.len(),
                    idx < len,
                    k <= idx,
                    1 <= depth <= idx - k + 1,
                    !forward,
                    position_in(self@.buffer, pos),
                    self@.buffer.index(pos.line, pos.column) == idx,
                    bracket_pair(t[idx as int]) == Some((open, close, forward)),
                    scan_backward(t, k - 1, depth as int, open, close) == scan_backward(
                        t,
                        idx - 1,
                        1,
                        open,
                        close,
                    ),
                decreases k,
            {
                let i = k - 1;
                let ch = self.buffer.char_at(i).unwrap();
                if ch == close {
                    depth += 1;
                } else if ch == open {
                    depth -= 1;
                    if depth == 0 {
                        return match self.buffer.char_to_line_col(i) {
                            Ok((line, column)) => Ok(CursorPosition::new(line, column)),
                            Err(e) => Err(e),
                        };
                    }
                }
                k -= 1;
            }
            Ok(pos)
        }
    }

    /// Moves every cursor that sits on a bracket to its matching bracket.
    pub fn jump_to_matching_bracket(&mut self) -> (r: Result<()>)
        ensures
            motion_outcome(old(self)@, final(self)@, r, Motion::MatchingBracket),
    {
        self.move_cursors(Motion::MatchingBracket)
    }
}

/// `t` without the `'\n'`s it ends with.
pub open spec fn trim_newlines(t: Seq<char>) -> Seq<char>
    decreases t.len(),
{
    if t.len() > 0 && t.last() == '\n' {
        trim_newlines(t.drop_last())
    } else {
        t
    }
}

/// `t` with the characters at `i` and `j` exchanged.
pub open spec fn swapped(t: Seq<char>, i: int, j: int) -> Seq<char> {
    t.update(i, t[j]).update(j, t[i])
}

/// `t` in title case: the first character of every white-space separated word upper case
/// (when `cap` holds for the first), the others lower case.
pub open spec fn title_case_from(t: Seq<char>, cap: bool) -> Seq<char>
    decreases t.len(),
{
    if t.len() == 0 {
        Seq::empty()
    } else if is_white_space(t[0]) {
        seq![t[0]] + title_case_from(t.skip(1), true)
    } else if cap {
        char_uppercase(t[0]) + title_case_from(t.skip(1), false)
    } else {
        char_lowercase(t[0]) + title_case_from(t.skip(1), false)
    }
}

/// `t` with its case changed by `mode`.
pub open spec fn case_changed(t: Seq<char>, mode: CaseMode) -> Seq<char> {
    match mode {
        CaseMode::Upper => uppercase(t),
        CaseMode::Lower => lowercase(t),
        CaseMode::Title => title_case_from(t, true),
    }
}

/// Line `line` replaced by `new` (its line break kept): the buffer, or the buffer as far
/// as the replacement got and the error that stopped it.
pub open spec fn replace_line_result(b: BufferView, line: usize, new: Seq<char>) -> core::result::Result<
    BufferView,
    (BufferView, EditorError),
> {
    match b.line_len_result(line) {
        Err(e) => Err((b, e)),
        Ok(len) => match b.delete_range_result(line, 0, line, len) {
            Err(e) => Err((b, e)),
            Ok(b1) => match b1.insert_str_result(line, 0, new) {
                Ok(b2) => Ok(b2),
                Err(e) => Err((b1, e)),
            },
        },
    }
}

/// `chars` without the `'\n'`s it ends with.
fn trim_newline_chars(chars: &Vec<char>) -> (r: Vec<char>)
    ensures
        r@ == trim_newlines(chars@),
{
    let mut end = chars.len();
    assert(chars@.take(end as int) == chars@);
    while end > 0 && chars[end - 1] == '\n'
        invariant
            end <= chars@.len(),
            trim_newlines(chars@.take(end as int)) == trim_newlines(chars@),
        decreases end,
    {
        proof {
            assert(chars@.take(end as int).drop_last() == chars@.take(end - 1));
        }
        end -= 1;
    }
    let mut out: Vec<char> = Vec::new();
    push_all(&mut out, &chars.as_slice()[0..end]);
    assert(out@ == chars@.take(end as int));
    out
}

/// `t` in title case.
fn title_case(t: &Vec<char>) -> (r: Vec<char>)
    ensures
        r@ == title_case_from(t@, true),
{
    let mut out: Vec<char> = Vec::new();
    let mut cap = true;
    let mut i: usize = 0;
    assert(t@.skip(0) == t@);
    assert(out@ + title_case_from(t@, true) == title_case_from(t@, true));
    while i < t.len()
        invariant
            i <= t@.len(),
            out@ + title_case_from(t@.skip(i as int), cap) == title_case_from(t@, true),
        decreases t@.len() - i,
    {
        let c = t[i];
        let ghost before = out@;
        let ghost rest = t@.skip(i as int);
        proof {
            assert(rest[0] == c);
            assert(rest.skip(1) == t@.skip(i + 1));
        }
        if white_space(c) {
            out.push(c);
            proof {
                assert(out@ + title_case_from(t@.skip(i + 1), true) == before + (seq![c]
                    + title_case_from(rest.skip(1), true)));
            }
            cap = true;
        } else {
            let mapped = if cap {
                char_to_upper(c)
            } else {
                char_to_lower(c)
            };
            let mc = chars_of(mapped.as_str());
            push_all(&mut out, mc.as_slice());
            proof {
                assert(out@ + title_case_from(t@.skip(i + 1), false) == before + (mapped@
                    + title_case_from(rest.skip(1), false)));
            }
            cap = false;
        }
        i += 1;
    }
    proof {
        assert(title_case_from(t@.skip(i as int), cap) == Seq::<char>::empty());
        assert(out@ + Seq::<char>::empty() == out@);
    }
    out
}

/// What an in-order edit command does: the edit is made at every cursor, from the first
/// to the last; on success the cursors move to their new places, on failure they stay and
/// the edits made so far remain.
pub open spec fn in_order_outcome(before: EditorView, after: EditorView, r: Result<()>, e: EditAt) -> bool {
    match edit_all(before.buffer, before.overwrite_mode, e, before.cursors) {
        Ok((b, ps)) => r is Ok && after == (EditorView {
            buffer: b,
            cursors: after.cursors,
            ..before
        }) && cursors_set_to(after.cursors, ps),
        Err((b, er)) => r == Err::<(), EditorError>(er) && after == (EditorView {
            buffer: b,
            ..before
        }),
    }
}

impl EditorState {
    /// Replaces line `line` by `new`, keeping its line break.
    fn replace_line(&mut self, line: usize, new: &str) -> (r: Result<()>)
        ensures
            match replace_line_result(old(self)@.buffer, line, new@) {
                Ok(b) => r is Ok && final(self)@ == (EditorView { buffer: b, ..old(self)@ }),
                Err((b, e)) => r == Err::<(), EditorError>(e) && final(self)@ == (EditorView {
                    buffer: b,
                    ..old(self)@
                }),
            },
    {
        let len = match self.buffer.line_len(line) {
            Ok(n) => n,
            Err(e) => return Err(e),
        };
        match self.buffer.delete_range(line, 0, line, len) {
            Ok(()) => {},
            Err(e) => return Err(e),
        }
        self.buffer.insert_str(line, 0, new)
    }

    /// The characters of line `line` without its final line feeds.
    fn trimmed_line(&self, line: usize) -> (r: Result<Vec<char>>)
        ensures
            match self@.buffer.line_result(line) {
                Ok(l) => r matches Ok(v) && v@ == trim_newlines(l),
                Err(e) => r == Err::<Vec<char>, EditorError>(e),
            },
    {
        let text = match self.buffer.line(line) {
            Ok(t) => t,
            Err(e) => return Err(e),
        };
        let chars = chars_of(text.as_str());
        Ok(trim_newline_chars(&chars))
    }

    /// Exchanges the two characters before the cursor `pos` (the first two at the start of
    /// a line, the last two past its end).
    fn transpose_at(&mut self, pos: CursorPosition) -> (r: Result<CursorPosition>)
        ensures
            match edit_result(old(self)@.buffer, old(self)@.overwrite_mode, EditAt::Transpose, pos) {
                Ok((b, q)) => r == Ok::<CursorPosition, EditorError>(q) && final(self)@ == (
                EditorView { buffer: b, ..old(self)@ }),
                Err((b, er)) => r == Err::<CursorPosition, EditorError>(er) && final(self)@ == (
                EditorView { buffer: b, ..old(self)@ }),
            },
    {
        let mut chars = match self.trimmed_line(pos.line) {
            Ok(v) => v,
            Err(e) => return Err(e),
        };
        let n = chars.len();
        if n < 2 {
            return Ok(pos);
        }
        let (i, j, column) = if pos.column == 0 || pos.column == 1 {
            (0, 1, 1)
        } else if pos.column >= n {
            (n - 2, n - 1, pos.column)
        } else {
            (pos.column - 2, pos.column - 1, pos.column)
        };
        let ghost t = chars@;
        let a = chars[i];
        let c = chars[j];
        chars.set(i, c);
        chars.set(j, a);
        assert(chars@ == swapped(t, i as int, j as int));
        let new_line = string_from_chars(chars.as_slice());
        match self.replace_line(pos.line, new_line.as_str()) {
            Ok(()) => Ok(CursorPosition::new(pos.line, column)),
            Err(e) => Err(e),
        }
    }

    /// Changes the case of the line of the cursor `pos`.
    fn change_case_at(&mut self, pos: CursorPosition, mode: CaseMode) -> (r: Result<CursorPosition>)
        ensures
            match edit_result(
                old(self)@.buffer,
                old(self)@.overwrite_mode,
                EditAt::ChangeCase(mode),
                pos,
            ) {
                Ok((b, q)) => r == Ok::<CursorPosition, EditorError>(q) && final(self)@ == (
                EditorView { buffer: b, ..old(self)@ }),
                Err((b, er)) => r == Err::<CursorPosition, EditorError>(er) && final(self)@ == (
                EditorView { buffer: b, ..old(self)@ }),
            },
    {
        let chars = match self.trimmed_line(pos.line) {
            Ok(v) => v,
            Err(e) => return Err(e),
        };
        let content = string_from_chars(chars.as_slice());
        let transformed = match mode {
            CaseMode::Upper => to_upper(content.as_str()),
            CaseMode::Lower => to_lower(content.as_str()),
            CaseMode::Title => {
                let t = title_case(&chars);
                string_from_chars(t.as_slice())
            },
        };
        match self.replace_line(pos.line, transformed.as_str()) {
            Ok(()) => Ok(pos),
            Err(e) => Err(e),
        }
    }

    /// Makes edit `e` at every cursor, from the first to the last.
    pub fn edit_in_order(&mut self, e: EditAt) -> (r: Result<()>)
        ensures
            in_order_outcome(old(self)@, final(self)@, r, e),
    {
        let n = self.cursors.positions().len();
        let ghost before = self@;
        let ghost ps = before.cursors;
        let mut updated: Vec<CursorPosition> = Vec::new();
        let mut i: usize = 0;
        while i < n
            invariant
                n == ps.len(),
                before == old(self)@,
                ps == before.cursors,
                i <= n,
                self@.cursors == before.cursors,
                self@.overwrite_mode == before.overwrite_mode,
                edit_all(before.buffer, before.overwrite_mode, e, ps.take(i as int)) == Ok::<
                    (BufferView, Seq<CursorPosition>),
                    (BufferView, EditorError),
                >((self@.buffer, updated@)),
                self@ == (EditorView { buffer: self@.buffer, ..before }),
            decreases n - i,
        {
            let pos = self.cursors.positions()[i];
            proof {
                assert(ps.take(i + 1).drop_last() == ps.take(i as int));
                assert(ps.take(i + 1).last() == pos);
            }
            let ghost b_prev = self@.buffer;
            let q = match self.edit_step(e, pos) {
                Ok(q) => q,
                Err(er) => {
                    proof {
                        assert(edit_result(b_prev, before.overwrite_mode, e, pos) == Err::<
                            (BufferView, CursorPosition),
                            (BufferView, EditorError),
                        >((self@.buffer, er)));
                        assert(edit_all(before.buffer, before.overwrite_mode, e, ps.take(i + 1))
                            == Err::<(BufferView, Seq<CursorPosition>), (BufferView, EditorError)>(
                            (self@.buffer, er),
                        ));
                        lemma_edit_all_stops(before.buffer, before.overwrite_mode, e, ps, (i + 1) as nat);
                    }
                    return Err(er);
                },
            };
            updated.push(q);
            i += 1;
        }
        proof {
            assert(ps.take(n as int) == ps);
        }
        self.cursors.set_positions(updated);
        Ok(())
    }

    /// Exchanges the two characters before every cursor.
    pub fn transpose_characters(&mut self) -> (r: Result<()>)
        ensures
            in_order_outcome(old(self)@, final(self)@, r, EditAt::Transpose),
    {
        self.edit_in_order(EditAt::Transpose)
    }

    /// Changes the case of every line that holds a cursor.
    pub fn change_case(&mut self, mode: CaseMode) -> (r: Result<()>)
        ensures
            in_order_outcome(old(self)@, final(self)@, r, EditAt::ChangeCase(mode)),
    {
        self.edit_in_order(EditAt::ChangeCase(mode))
    }
}

/// An edit made to each line that holds a cursor, once per line.
#[derive(Clone, Copy)]
pub enum LineOp {
    Duplicate,
    Join,
}

/// `t` without the white space it starts with.
pub open spec fn trim_start_ws(t: Seq<char>) -> Seq<char>
    decreases t.len(),
{
    if t.len() > 0 && is_white_space(t[0]) {
        trim_start_ws(t.skip(1))
    } else {
        t
    }
}

/// The line that joining `current` with `next` gives: `next` without its leading white
/// space, after a single space (nothing is added when that leaves nothing of `next`).
pub open spec fn joined_line(current: Seq<char>, next: Seq<char>) -> Seq<char> {
    let rest = trim_start_ws(next);
    if rest.len() == 0 { current } else { current + seq![' '] + rest }
}

/// `r`, whose failure leaves `b`: the buffer, or `b` and the error.
pub open spec fn or_left(
    r: core::result::Result<BufferView, EditorError>,
    b: BufferView,
) -> core::result::Result<BufferView, (BufferView, EditorError)> {
    match r {
        Ok(b1) => Ok(b1),
        Err(e) => Err((b, e)),
    }
}

/// What duplicating line `line` of `b` leaves: a copy of the line (without its break) is
/// inserted as the next line.
pub open spec fn duplicate_line_result(b: BufferView, line: usize) -> core::result::Result<
    BufferView,
    (BufferView, EditorError),
> {
    match b.line_result(line) {
        Err(e) => Err((b, e)),
        Ok(l) => {
            let content = trim_newlines(l);
            let next = (line + 1) as usize;
            if line + 1 >= num_lines(b.text) {
                match b.line_len_result(line) {
                    Err(e) => Err((b, e)),
                    Ok(len) => match b.insert_char_result(line, len, '\n') {
                        Err(e) => Err((b, e)),
                        Ok(b1) => or_left(b1.insert_str_result(next, 0, content), b1),
                    },
                }
            } else {
                match b.insert_str_result(next, 0, content) {
                    Err(e) => Err((b, e)),
                    Ok(b1) => or_left(
                        b1.insert_char_result(next, content.len() as usize, '\n'),
                        b1,
                    ),
                }
            }
        },
    }
}

/// What joining line `line` of `b` with the next one leaves (the last line stays as it is).
pub open spec fn join_line_result(b: BufferView, line: usize) -> core::result::Result<
    BufferView,
    (BufferView, EditorError),
> {
    if line >= num_lines(b.text) - 1 {
        Ok(b)
    } else {
        let next = (line + 1) as usize;
        match (b.line_result(line), b.line_result(next)) {
            (Ok(cur), Ok(nxt)) => {
                let joined = joined_line(trim_newlines(cur), trim_newlines(nxt));
                match (b.line_len_result(line), b.line_len_result(next)) {
                    (Ok(cur_len), Ok(next_len)) => match b.delete_range_result(line, 0, line, cur_len) {
                        Err(e) => Err((b, e)),
                        Ok(b1) => match b1.delete_char_result(line, 0) {
                            Err(e) => Err((b1, e)),
                            Ok(b2) => match b2.delete_range_result(line, 0, line, next_len) {
                                Err(e) => Err((b2, e)),
                                Ok(b3) => or_left(b3.insert_str_result(line, 0, joined), b3),
                            },
                        },
                    },
                    (Err(e), _) => Err((b, e)),
                    (_, Err(e)) => Err((b, e)),
                }
            },
            (Err(e), _) => Err((b, e)),
            (_, Err(e)) => Err((b, e)),
        }
    }
}

/// Line edit `op` at line `line` of `b`.
pub open spec fn line_op_result(b: BufferView, op: LineOp, line: usize) -> core::result::Result<
    BufferView,
    (BufferView, EditorError),
> {
    match op {
        LineOp::Duplicate => duplicate_line_result(b, line),
        LineOp::Join => join_line_result(b, line),
    }
}

/// Line edit `op` made at the lines of the cursors `rs` in turn, each line once.
pub open spec fn line_ops_all(b: BufferView, op: LineOp, rs: Seq<CursorPosition>) -> core::result::Result<
    BufferView,
    (BufferView, EditorError),
>
    decreases rs.len(),
{
    if rs.len() == 0 {
        Ok(b)
    } else {
        match line_ops_all(b, op, rs.drop_last()) {
            Ok(b1) => if rs.len() >= 2 && rs[rs.len() - 2].line == rs.last().line {
                Ok(b1)
            } else {
                line_op_result(b1, op, rs.last().line)
            },
            Err(x) => Err(x),
        }
    }
}

/// Once a prefix of the lines fails, the whole command fails the same way.
pub proof fn lemma_line_ops_stops(b: BufferView, op: LineOp, rs: Seq<CursorPosition>, k: nat)
    requires
        k <= rs.len(),
        line_ops_all(b, op, rs.take(k as int)) is Err,
    ensures
        line_ops_all(b, op, rs) == line_ops_all(b, op, rs.take(k as int)),
    decreases rs.len() - k,
{
    if k < rs.len() {
        assert(rs.take((k + 1) as int).drop_last() == rs.take(k as int));
        lemma_line_ops_stops(b, op, rs, k + 1);
    } else {
        assert(rs.take(k as int) == rs);
    }
}

/// `t` without the white space it starts with.
fn trim_start_chars(t: &Vec<char>) -> (r: Vec<char>)
    ensures
        r@ == trim_start_ws(t@),
{
    let mut start: usize = 0;
    assert(t@.skip(0) == t@);
    while start < t.len() && white_space(t[start])
        invariant
            start <= t@.len(),
            trim_start_ws(t@.skip(start as int)) == trim_start_ws(t@),
        decreases t@.len() - start,
    {
        proof {
            assert(t@.skip(start as int).skip(1) == t@.skip(start + 1));
        }
        start += 1;
    }
    let mut out: Vec<char> = Vec::new();
    push_all(&mut out, &t.as_slice()[start..t.len()]);
    assert(out@ == t@.skip(start as int));
    out
}

impl EditorState {
    /// Line edit `op` at line `line`.
    fn line_op(&mut self, op: LineOp, line: usize) -> (r: Result<()>)
        ensures
            match line_op_result(old(self)@.buffer, op, line) {
                Ok(b) => r is Ok && final(self)@ == (EditorView { buffer: b, ..old(self)@ }),
                Err((b, e)) => r == Err::<(), EditorError>(e) && final(self)@ == (EditorView {
                    buffer: b,
                    ..old(self)@
                }),
            },
    {
        let count = self.buffer.line_count();
        proof {
            lemma_line_starts(self@.buffer.text);
        }
        match op {
            LineOp::Duplicate => {
                let content = match self.trimmed_line(line) {
                    Ok(v) => v,
                    Err(e) => return Err(e),
                };
                let text = string_from_chars(content.as_slice());
                let next = line + 1;
                if next >= count {
                    let len = match self.buffer.line_len(line) {
                        Ok(n) => n,
                        Err(e) => return Err(e),
                    };
                    match self.buffer.insert_char(line, len, '\n') {
                        Ok(()) => {},
                        Err(e) => return Err(e),
                    }
                    self.buffer.insert_str(next, 0, text.as_str())
                } else {
                    match self.buffer.insert_str(next, 0, text.as_str()) {
                        Ok(()) => {},
                        Err(e) => return Err(e),
                    }
                    self.buffer.insert_char(next, content.len(), '\n')
                }
            },
            LineOp::Join => {
                if line >= count - 1 {
                    return Ok(());
                }
                let next = line + 1;
                let current = match self.trimmed_line(line) {
                    Ok(v) => v,
                    Err(e) => return Err(e),
                };
                let following = match self.trimmed_line(next) {
                    Ok(v) => v,
                    Err(e) => return Err(e),
                };
                let rest = trim_start_chars(&following);
                let ghost cur = current@;
                let mut joined = current;
                if rest.len() > 0 {
                    joined.push(' ');
                    push_all(&mut joined, rest.as_slice());
                }
                assert(joined@ =~= joined_line(cur, following@));
                let cur_len = match self.buffer.line_len(line) {
                    Ok(n) => n,
                    Err(e) => return Err(e),
                };
                let next_len = match self.buffer.line_len(next) {
                    Ok(n) => n,
                    Err(e) => return Err(e),
                };
                match self.buffer.delete_range(line, 0, line, cur_len) {
                    Ok(()) => {},
                    Err(e) => return Err(e),
                }
                match self.buffer.delete_char(line, 0) {
                    Ok(()) => {},
                    Err(e) => return Err(e),
                }
                match self.buffer.delete_range(line, 0, line, next_len) {
                    Ok(()) => {},
                    Err(e) => return Err(e),
                }
                let text = string_from_chars(joined.as_slice());
                self.buffer.insert_str(line, 0, text.as_str())
            },
        }
    }

    /// Line edit `op` at every line that holds a cursor, from the last line to the first.
    fn line_op_at_cursors(&mut self, op: LineOp) -> (r: Result<()>)
        ensures
            match line_ops_all(old(self)@.buffer, op, old(self)@.cursors.reverse()) {
                Ok(b) => r is Ok && final(self)@ == (EditorView { buffer: b, ..old(self)@ }),
                Err((b, e)) => r == Err::<(), EditorError>(e) && final(self)@ == (EditorView {
                    buffer: b,
                    ..old(self)@
                }),
            },
    {
        let n = self.cursors.positions().len();
        let ghost before = self@;
        let ghost rs = before.cursors.reverse();
        let mut i: usize = 0;
        while i < n
            invariant
                n == before.cursors.len(),
                before == old(self)@,
                rs == before.cursors.reverse(),
                i <= n,
                self@.cursors == before.cursors,
                line_ops_all(before.buffer, op, rs.take(i as int)) == Ok::<
                    BufferView,
                    (BufferView, EditorError),
                >(self@.buffer),
                self@ == (EditorView { buffer: self@.buffer, ..before }),
            decreases n - i,
        {
            let pos = self.cursors.positions()[n - 1 - i];
            proof {
                assert(rs[i as int] == pos);
                assert(rs.take(i + 1).drop_last() == rs.take(i as int));
                assert(rs.take(i + 1).last() == pos);
            }
            let repeated = i > 0 && self.cursors.positions()[n - i].line == pos.line;
            proof {
                if i > 0 {
                    assert(rs[i - 1] == before.cursors[n - i]);
                    assert(rs.take(i + 1)[i - 1] == rs[i - 1]);
                }
            }
            if !repeated {
                let ghost b_prev = self@.buffer;
                match self.line_op(op, pos.line) {
                    Ok(()) => {},
                    Err(e) => {
                        proof {
                            assert(line_ops_all(before.buffer, op, rs.take(i + 1)) == Err::<
                                BufferView,
                                (BufferView, EditorError),
                            >((self@.buffer, e)));
                            lemma_line_ops_stops(before.buffer, op, rs, (i + 1) as nat);
                        }
                        return Err(e);
                    },
                }
            }
            i += 1;
        }
        proof {
            assert(rs.take(n as int) == rs);
        }
        Ok(())
    }

    /// Joins every line that holds a cursor with the line after it; the cursors stay.
    pub fn join_lines(&mut self) -> (r: Result<()>)
        ensures
            join_outcome(old(self)@, final(self)@, r),
    {
        self.line_op_at_cursors(LineOp::Join)
    }
}

/// Mapping two lists that hold the same positions gives lists that hold the same positions.
pub proof fn lemma_same_positions_map(
    a: Seq<CursorPosition>,
    b: Seq<CursorPosition>,
    f: spec_fn(CursorPosition) -> CursorPosition,
)
    requires
        same_positions(a, b),
    ensures
        same_positions(a.map_values(f), b.map_values(f)),
{
    assert forall|p: CursorPosition| a.map_values(f).contains(p) implies b.map_values(f).contains(p) by {
        let i = choose|i: int| 0 <= i < a.map_values(f).len() && a.map_values(f)[i] == p;
        assert(a.contains(a[i]));
        let j = choose|j: int| 0 <= j < b.len() && b[j] == a[i];
        assert(b.map_values(f)[j] == p);
    }
    assert forall|p: CursorPosition| b.map_values(f).contains(p) implies a.map_values(f).contains(p) by {
        let i = choose|i: int| 0 <= i < b.map_values(f).len() && b.map_values(f)[i] == p;
        assert(b.contains(b[i]));
        let j = choose|j: int| 0 <= j < a.len() && a[j] == b[i];
        assert(a.map_values(f)[j] == p);
    }
}

/// A cursor moved one line down (the line number cannot pass the largest one).
pub open spec fn one_line_down(p: CursorPosition) -> CursorPosition {
    CursorPosition {
        line: if p.line < usize::MAX { (p.line + 1) as usize } else { usize::MAX },
        column: p.column,
    }
}

impl EditorState {
    /// Puts the cursors at `target` (at least one), pulled into the text.
    fn set_and_clamp(&mut self, target: Vec<CursorPosition>)
        requires
            target@.len() > 0,
        ensures
            final(self)@ == with_cursors(old(self)@, final(self)@.cursors),
            cursors_set_to(
                final(self)@.cursors,
                target@.map_values(|p: CursorPosition| clamped(old(self)@.buffer, p)),
            ),
    {
        let ghost t = target@;
        let ghost b = self@.buffer;
        self.cursors.set_positions(target);
        let ghost mid = self@.cursors;
        let r = self.clamp_cursors_after_edit();
        proof {
            let f = |p: CursorPosition| clamped(b, p);
            lemma_same_positions_map(mid, t, f);
            assert(t.contains(t[0]));
            assert(t.map_values(f).contains(t.map_values(f)[0]));
            assert(mid.contains(t[0]));
            assert(mid.map_values(f).len() > 0);
            assert forall|p: CursorPosition| self@.cursors.contains(p) <==> t.map_values(f).contains(
                p,
            ) by {
                assert(self@.cursors.contains(p) <==> mid.map_values(f).contains(p));
            }
        }
    }

    /// Duplicates every line that holds a cursor; the cursors move to the copies.
    pub fn duplicate_line(&mut self) -> (r: Result<()>)
        ensures
            duplicate_outcome(old(self)@, final(self)@, r),
    {
        match self.line_op_at_cursors(LineOp::Duplicate) {
            Ok(()) => {},
            Err(e) => return Err(e),
        }
        let n = self.cursors.positions().len();
        let ghost before = self@;
        let mut moved: Vec<CursorPosition> = Vec::new();
        let mut j: usize = 0;
        while j < n
            invariant
                n == before.cursors.len(),
                self@ == before,
                j <= n,
                moved@ == before.cursors.take(j as int).map_values(
                    |p: CursorPosition| one_line_down(p),
                ),
            decreases n - j,
        {
            let pos = self.cursors.positions()[j];
            proof {
                assert(before.cursors.take(j + 1) == before.cursors.take(j as int).push(pos));
            }
            moved.push(CursorPosition::new(pos.line.saturating_add(1), pos.column));
            j += 1;
        }
        proof {
            assert(before.cursors.take(n as int) == before.cursors);
            assert(moved@.map_values(|p: CursorPosition| clamped(before.buffer, p))
                =~= before.cursors.map_values(
                |p: CursorPosition| clamped(before.buffer, one_line_down(p)),
            ));
        }
        self.set_and_clamp(moved);
        Ok(())
    }
}

/// The lines of `t`, each without its final line feed.
pub open spec fn trimmed_lines(t: Seq<char>) -> Seq<Seq<char>> {
    Seq::new(num_lines(t), |i: int| trim_newlines(line_text(t, i)))
}

/// `ls` with the lines at `i` and `j` exchanged.
pub open spec fn swap_lines(ls: Seq<Seq<char>>, i: int, j: int) -> Seq<Seq<char>> {
    ls.update(i, ls[j]).update(j, ls[i])
}

/// The lines `ls` after each line holding one of the cursors `ps` (taken first to last,
/// each line once) changed places with the line above it.
pub open spec fn lines_moved_up(ls: Seq<Seq<char>>, ps: Seq<CursorPosition>) -> Seq<Seq<char>>
    decreases ps.len(),
{
    if ps.len() == 0 {
        ls
    } else {
        let r = lines_moved_up(ls, ps.drop_last());
        let l = ps.last().line;
        if ps.len() >= 2 && ps[ps.len() - 2].line == l {
            r
        } else if 0 < l < r.len() {
            swap_lines(r, l - 1, l as int)
        } else {
            r
        }
    }
}

/// The lines `ls` after each line holding one of the cursors `rs` (taken last to first,
/// each line once) changed places with the line below it.
pub open spec fn lines_moved_down(ls: Seq<Seq<char>>, rs: Seq<CursorPosition>) -> Seq<Seq<char>>
    decreases rs.len(),
{
    if rs.len() == 0 {
        ls
    } else {
        let r = lines_moved_down(ls, rs.drop_last());
        let l = rs.last().line;
        if rs.len() >= 2 && rs[rs.len() - 2].line == l {
            r
        } else if l < r.len() - 1 {
            swap_lines(r, l as int, l + 1)
        } else {
            r
        }
    }
}

/// A cursor moved one line up (unless it is on the first line).
pub open spec fn one_line_up(p: CursorPosition) -> CursorPosition {
    if p.line > 0 { CursorPosition { line: (p.line - 1) as usize, column: p.column } } else { p }
}

/// A cursor moved one line down, but not past line `last`.
pub open spec fn one_line_down_to(p: CursorPosition, last: int) -> CursorPosition {
    CursorPosition { line: if p.line + 1 <= last { (p.line + 1) as usize } else { last as usize }, column: p.column }
}

/// What `move_lines_up` does: nothing when a cursor is on the first line; otherwise each
/// line holding a cursor changes places with the one above, the text is rebuilt from the
/// lines, and the cursors move up with their lines.
pub open spec fn move_up_outcome(before: EditorView, after: EditorView, r: Result<()>) -> bool {
    let t = before.buffer.text;
    &&& r is Ok
    &&& if before.cursors[0].line == 0 {
        after == before
    } else {
        let b2 = before.buffer.edited(joined(lines_moved_up(trimmed_lines(t), before.cursors), '\n'));
        &&& after == (EditorView { buffer: b2, cursors: after.cursors, ..before })
        &&& cursors_set_to(
            after.cursors,
            before.cursors.map_values(|p: CursorPosition| clamped(b2, one_line_up(p))),
        )
    }
}

/// What `move_lines_down` does: nothing when a cursor is on the last line; otherwise each
/// line holding a cursor changes places with the one below, the text is rebuilt from the
/// lines, and the cursors move down with their lines.
pub open spec fn move_down_outcome(before: EditorView, after: EditorView, r: Result<()>) -> bool {
    let t = before.buffer.text;
    let last = num_lines(t) - 1;
    &&& r is Ok
    &&& if before.cursors.last().line == last {
        after == before
    } else {
        let b2 = before.buffer.edited(
            joined(lines_moved_down(trimmed_lines(t), before.cursors.reverse()), '\n'),
        );
        &&& after == (EditorView { buffer: b2, cursors: after.cursors, ..before })
        &&& cursors_set_to(
            after.cursors,
            before.cursors.map_values(|p: CursorPosition| clamped(b2, one_line_down_to(p, last))),
        )
    }
}

/// `ls` with the lines at `i` and `j` exchanged.
fn swap_line_vecs(ls: &mut Vec<Vec<char>>, i: usize, j: usize)
    requires
        i < old(ls)@.len(),
        j < old(ls)@.len(),
    ensures
        views_of(final(ls)@) == swap_lines(views_of(old(ls)@), i as int, j as int),
        final(ls)@.len() == old(ls)@.len(),
{
    let a = ls[i].clone();
    let b = ls[j].clone();
    ls.set(i, b);
    ls.set(j, a);
    assert(views_of(ls@) =~= swap_lines(views_of(old(ls)@), i as int, j as int));
}

impl EditorState {
    /// The lines of the text, each without its final line feed.
    fn all_trimmed_lines(&self) -> (r: Vec<Vec<char>>)
        ensures
            views_of(r@) == trimmed_lines(self@.buffer.text),
    {
        let total = self.buffer.line_count();
        let ghost t = self@.buffer.text;
        let mut all: Vec<Vec<char>> = Vec::new();
        let mut i: usize = 0;
        while i < total
            invariant
                t == self@.buffer.text,
                total == num_lines(t),
                i <= total,
                views_of(all@) == trimmed_lines(t).take(i as int),
            decreases total - i,
        {
            let line = match self.trimmed_line(i) {
                Ok(v) => v,
                Err(_) => Vec::new(),
            };
            proof {
                assert(views_of(all@.push(line)) == views_of(all@).push(line@));
                assert(trimmed_lines(t).take(i + 1) == trimmed_lines(t).take(i as int).push(
                    trimmed_lines(t)[i as int],
                ));
            }
            all.push(line);
            i += 1;
        }
        assert(trimmed_lines(t).take(total as int) == trimmed_lines(t));
        all
    }

    /// Moves every line that holds a cursor up by one line, unless a cursor is on the first
    /// line.
    pub fn move_lines_up(&mut self) -> (r: Result<()>)
        ensures
            move_up_outcome(old(self)@, final(self)@, r),
    {
        let first = self.cursors.positions()[0].line;
        if first == 0 {
            return Ok(());
        }
        let mut all = self.all_trimmed_lines();
        let n = self.cursors.positions().len();
        let ghost before = self@;
        let ghost ls = trimmed_lines(before.buffer.text);
        let ghost ps = before.cursors;
        let mut k: usize = 0;
        while k < n
            invariant
                n == ps.len(),
                ps == before.cursors,
                self@ == before,
                k <= n,
                views_of(all@) == lines_moved_up(ls, ps.take(k as int)),
                all@.len() == ls.len(),
            decreases n - k,
        {
            let pos = self.cursors.positions()[k];
            proof {
                assert(ps.take(k + 1).drop_last() == ps.take(k as int));
                assert(ps.take(k + 1).last() == pos);
                if k > 0 {
                    assert(ps.take(k + 1)[k - 1] == ps[k - 1]);
                }
                lemma_lines_moved_up_len(ls, ps.take(k as int));
            }
            let repeated = k > 0 && self.cursors.positions()[k - 1].line == pos.line;
            let l = pos.line;
            if !repeated && l > 0 && l < all.len() {
                swap_line_vecs(&mut all, l - 1, l);
            }
            k += 1;
        }
        proof {
            assert(ps.take(n as int) == ps);
        }
        let text = join_chars(&all, '\n');
        self.buffer.set_content(string_from_chars(text.as_slice()));
        let ghost b2 = self@.buffer;
        let mut moved: Vec<CursorPosition> = Vec::new();
        let mut j: usize = 0;
        while j < n
            invariant
                n == ps.len(),
                ps == before.cursors,
                self@.cursors == before.cursors,
                j <= n,
                moved@ == ps.take(j as int).map_values(|p: CursorPosition| one_line_up(p)),
            decreases n - j,
        {
            let pos = self.cursors.positions()[j];
            proof {
                assert(ps.take(j + 1) == ps.take(j as int).push(pos));
            }
            if pos.line > 0 {
                moved.push(CursorPosition::new(pos.line - 1, pos.column));
            } else {
                moved.push(pos);
            }
            j += 1;
        }
        proof {
            assert(ps.take(n as int) == ps);
            assert(moved@.map_values(|p: CursorPosition| clamped(b2, p)) =~= ps.map_values(
                |p: CursorPosition| clamped(b2, one_line_up(p)),
            ));
        }
        self.set_and_clamp(moved);
        Ok(())
    }

    /// Moves every line that holds a cursor down by one line, unless a cursor is on the
    /// last line.
    pub fn move_lines_down(&mut self) -> (r: Result<()>)
        ensures
            move_down_outcome(old(self)@, final(self)@, r),
    {
        proof {
            lemma_line_starts(self@.buffer.text);
        }
        let total = self.buffer.line_count();
        let last_line = total - 1;
        let n = self.cursors.positions().len();
        let top = self.cursors.positions()[n - 1].line;
        if top == last_line {
            return Ok(());
        }
        let mut all = self.all_trimmed_lines();
        let ghost before = self@;
        let ghost ls = trimmed_lines(before.buffer.text);
        let ghost rs = before.cursors.reverse();
        let mut k: usize = 0;
        while k < n
            invariant
                n == before.cursors.len(),
                rs == before.cursors.reverse(),
                self@ == before,
                k <= n,
                views_of(all@) == lines_moved_down(ls, rs.take(k as int)),
                all@.len() == ls.len(),
                ls.len() >= 1,
            decreases n - k,
        {
            let pos = self.cursors.positions()[n - 1 - k];
            proof {
                assert(rs[k as int] == pos);
                assert(rs.take(k + 1).drop_last() == rs.take(k as int));
                assert(rs.take(k + 1).last() == pos);
                if k > 0 {
                    assert(rs[k - 1] == before.cursors[n - k]);
                    assert(rs.take(k + 1)[k - 1] == rs[k - 1]);
                }
                lemma_lines_moved_down_len(ls, rs.take(k as int));
            }
            let repeated = k > 0 && self.cursors.positions()[n - k].line == pos.line;
            let l = pos.line;
            if !repeated && l < all.len() - 1 {
                swap_line_vecs(&mut all, l, l + 1);
            }
            k += 1;
        }
        proof {
            assert(rs.take(n as int) == rs);
        }
        let text = join_chars(&all, '\n');
        self.buffer.set_content(string_from_chars(text.as_slice()));
        let ghost b2 = self@.buffer;
        let ghost ps = before.cursors;
        let mut moved: Vec<CursorPosition> = Vec::new();
        let mut j: usize = 0;
        while j < n
            invariant
                n == ps.len(),
                ps == before.cursors,
                self@.cursors == before.cursors,
                last_line == num_lines(before.buffer.text) - 1,
                j <= n,
                moved@ == ps.take(j as int).map_values(
                    |p: CursorPosition| one_line_down_to(p, last_line as int),
                ),
            decreases n - j,
        {
            let pos = self.cursors.positions()[j];
            proof {
                assert(ps.take(j + 1) == ps.take(j as int).push(pos));
            }
            let line = if pos.line < last_line {
                pos.line + 1
            } else {
                last_line
            };
            moved.push(CursorPosition::new(line, pos.column));
            j += 1;
        }
        proof {
            assert(ps.take(n as int) == ps);
            assert(moved@.map_values(|p: CursorPosition| clamped(b2, p)) =~= ps.map_values(
                |p: CursorPosition| clamped(b2, one_line_down_to(p, last_line as int)),
            ));
        }
        self.set_and_clamp(moved);
        Ok(())
    }
}

/// Moving lines up keeps their number.
pub proof fn lemma_lines_moved_up_len(ls: Seq<Seq<char>>, ps: Seq<CursorPosition>)
    ensures
        lines_moved_up(ls, ps).len() == ls.len(),
    decreases ps.len(),
{
    if ps.len() > 0 {
        lemma_lines_moved_up_len(ls, ps.drop_last());
    }
}

/// Moving lines down keeps their number.
pub proof fn lemma_lines_moved_down_len(ls: Seq<Seq<char>>, rs: Seq<CursorPosition>)
    ensures
        lines_moved_down(ls, rs).len() == ls.len(),
    decreases rs.len(),
{
    if rs.len() > 0 {
        lemma_lines_moved_down_len(ls, rs.drop_last());
    }
}

/// What `duplicate_line` does: every line holding a cursor is duplicated, from the last to
/// the first; on success the cursors move down to the copies.
pub open spec fn duplicate_outcome(before: EditorView, after: EditorView, r: Result<()>) -> bool {
    match line_ops_all(before.buffer, LineOp::Duplicate, before.cursors.reverse()) {
        Ok(b) => r is Ok && after == (EditorView { buffer: b, cursors: after.cursors, ..before })
            && cursors_set_to(
            after.cursors,
            before.cursors.map_values(|p: CursorPosition| clamped(b, one_line_down(p))),
        ),
        Err((b, e)) => r == Err::<(), EditorError>(e) && after == (EditorView {
            buffer: b,
            ..before
        }),
    }
}

/// What `join_lines` does: every line holding a cursor is joined with the next, from the
/// last to the first; the cursors stay where they were.
pub open spec fn join_outcome(before: EditorView, after: EditorView, r: Result<()>) -> bool {
    match line_ops_all(before.buffer, LineOp::Join, before.cursors.reverse()) {
        Ok(b) => r is Ok && after == (EditorView { buffer: b, ..before }),
        Err((b, e)) => r == Err::<(), EditorError>(e) && after == (EditorView {
            buffer: b,
            ..before
        }),
    }
}

/// The lines a line comment toggle works on: those of the selection (without a last line
/// that the selection only reaches at its start), or the primary cursor's line.
pub open spec fn comment_range(v: EditorView) -> (usize, usize) {
    match v.selection {
        Some(sel) => {
            let start = sel.spec_start().line;
            let end = sel.spec_end().line;
            if sel.spec_end().column == 0 && start != end {
                (start, (end - 1) as usize)
            } else {
                (start, end)
            }
        },
        None => (v.cursors[0].line, v.cursors[0].line),
    }
}

/// Every character of `t` is white space.
pub open spec fn is_blank(t: Seq<char>) -> bool {
    forall|i: int| 0 <= i < t.len() ==> is_white_space(#[trigger] t[i])
}

/// The comment marker.
pub open spec fn comment_marker() -> Seq<char> {
    seq!['/', '/']
}

/// Whether the lines `idx..=end` of `b` should be uncommented: every non-blank line among
/// them starts (after white space) with `//`, and one of them is non-blank (`seen` tells
/// whether one was already found); or the error of the first line that does not exist.
pub open spec fn should_uncomment(b: BufferView, idx: int, end: int, seen: bool) -> core::result::Result<
    bool,
    EditorError,
>
    decreases end + 1 - idx,
{
    if idx > end {
        Ok(seen)
    } else {
        match b.line_result(idx as usize) {
            Err(e) => Err(e),
            Ok(l) => {
                let rest = trim_start_ws(l);
                if rest.len() == 0 {
                    should_uncomment(b, idx + 1, end, seen)
                } else if !has_prefix(rest, comment_marker()) {
                    Ok(false)
                } else {
                    should_uncomment(b, idx + 1, end, true)
                }
            },
        }
    }
}

/// The index of the first `//` in `t`, if any.
pub open spec fn first_marker(t: Seq<char>, from: int) -> Option<int>
    decreases t.len() - from,
{
    if from < 0 || from + 1 >= t.len() {
        None
    } else if t[from] == '/' && t[from + 1] == '/' {
        Some(from)
    } else {
        first_marker(t, from + 1)
    }
}

/// `x`, or the largest `usize` if `x` is larger.
pub open spec fn capped(x: int) -> usize {
    if x <= usize::MAX { x as usize } else { usize::MAX }
}

/// What uncommenting line `idx` of `b` leaves: a `//` with only white space before it goes,
/// with one space after it. The column is found from the marker's byte offset, as the
/// line is read as UTF-8.
pub open spec fn uncomment_line_result(b: BufferView, idx: usize) -> core::result::Result<
    BufferView,
    (BufferView, EditorError),
> {
    match b.line_result(idx) {
        Err(e) => Err((b, e)),
        Ok(l) => match first_marker(l, 0) {
            None => Ok(b),
            Some(k) => if !is_blank(l.take(k)) {
                Ok(b)
            } else {
                let col = capped(utf8_len(l.take(k)) as int);
                let remove: int = if k + 2 < l.len() && l[k + 2] == ' ' { 3 } else { 2 };
                if !b.valid(idx, col) {
                    Err((b, position_error(idx, col)))
                } else {
                    let p = position_of_index(b.text, b.index(idx, col));
                    or_left(
                        b.delete_range_result(p.line, p.column, p.line, capped(p.column + remove)),
                        b,
                    )
                }
            },
        },
    }
}

/// What commenting line `idx` of `b` leaves (blank lines are skipped when several lines
/// are commented).
pub open spec fn comment_line_result(b: BufferView, idx: usize, several: bool) -> core::result::Result<
    BufferView,
    (BufferView, EditorError),
> {
    match b.line_result(idx) {
        Err(e) => Err((b, e)),
        Ok(l) => if is_blank(l) && several {
            Ok(b)
        } else {
            or_left(b.insert_str_result(idx, 0, "// "@), b)
        },
    }
}

/// Lines `start..idx` uncommented (when `uncomment`) or commented, in turn.
pub open spec fn toggle_lines_upto(
    b: BufferView,
    start: int,
    idx: int,
    uncomment: bool,
    several: bool,
) -> core::result::Result<BufferView, (BufferView, EditorError)>
    decreases idx - start,
{
    if idx <= start {
        Ok(b)
    } else {
        match toggle_lines_upto(b, start, idx - 1, uncomment, several) {
            Err(x) => Err(x),
            Ok(b1) => if uncomment {
                uncomment_line_result(b1, (idx - 1) as usize)
            } else {
                comment_line_result(b1, (idx - 1) as usize, several)
            },
        }
    }
}

/// What `toggle_line_comment` does: when every non-blank line of the range is commented
/// (and one is non-blank) the comment markers go, otherwise `// ` is put at the start of
/// each line; the cursors and selection stay.
pub open spec fn toggle_comment_outcome(before: EditorView, after: EditorView, r: Result<()>) -> bool {
    let (start, end) = comment_range(before);
    match should_uncomment(before.buffer, start as int, end as int, false) {
        Err(e) => r == Err::<(), EditorError>(e) && after == before,
        Ok(uncomment) => match toggle_lines_upto(
            before.buffer,
            start as int,
            end + 1,
            uncomment,
            start != end,
        ) {
            Ok(b) => r is Ok && after == (EditorView { buffer: b, ..before }),
            Err((b, e)) => r == Err::<(), EditorError>(e) && after == (EditorView {
                buffer: b,
                ..before
            }),
        },
    }
}

/// Once lines fail, the whole toggle fails the same way.
pub proof fn lemma_toggle_lines_stops(
    b: BufferView,
    start: int,
    k: int,
    end: int,
    uncomment: bool,
    several: bool,
)
    requires
        start <= k <= end,
        toggle_lines_upto(b, start, k, uncomment, several) is Err,
    ensures
        toggle_lines_upto(b, start, end, uncomment, several) == toggle_lines_upto(
            b,
            start,
            k,
            uncomment,
            several,
        ),
    decreases end - k,
{
    if k < end {
        lemma_toggle_lines_stops(b, start, k, end - 1, uncomment, several);
    }
}

impl EditorState {
    /// The selection, if there is one.
    pub fn selection(&self) -> (s: Option<&Selection>)
        ensures
            match s {
                Some(x) => self@.selection == Some(*x),
                None => self@.selection is None,
            },
    {
        match &self.selection {
            Some(x) => Some(x),
            None => None,
        }
    }

    /// Whether there is a selection.
    pub fn has_selection(&self) -> (b: bool)
        ensures
            b == (self@.selection is Some),
    {
        self.selection.is_some()
    }

    /// Starts a selection at the primary cursor.
    pub fn selection_start(&mut self) -> (r: Result<()>)
        ensures
            selection_start_outcome(old(self)@, final(self)@, r),
    {
        let p = *self.cursors.primary();
        self.selection = Some(
            if self.block_selection_mode {
                Selection::new_block(p, p)
            } else {
                Selection::new(p, p)
            },
        );
        Ok(())
    }

    /// Stretches the selection (if any) from its anchor to the primary cursor.
    pub fn selection_end(&mut self) -> (r: Result<()>)
        ensures
            selection_end_outcome(old(self)@, final(self)@, r),
    {
        match self.selection {
            Some(sel) => {
                let p = *self.cursors.primary();
                let next = if sel.is_block() {
                    Selection::new_block(sel.anchor, p)
                } else {
                    Selection::new(sel.anchor, p)
                };
                self.selection = Some(next);
            },
            None => {},
        }
        Ok(())
    }

    /// Whether lines `start..=end` should be uncommented.
    #[verifier::spinoff_prover]
    fn comment_scan(&self, start: usize, end: usize) -> (r: Result<bool>)
        requires
            start <= end,
        ensures
            r == should_uncomment(self@.buffer, start as int, end as int, false),
    {
        let mut idx = start;
        let mut seen = false;
        loop
            invariant
                start <= idx <= end + 1,
                should_uncomment(self@.buffer, idx as int, end as int, seen) == should_uncomment(
                    self@.buffer,
                    start as int,
                    end as int,
                    false,
                ),
            decreases end + 1 - idx,
        {
            if idx > end {
                return Ok(seen);
            }
            let line = match self.buffer.line(idx) {
                Ok(l) => l,
                Err(e) => return Err(e),
            };
            let chars = chars_of(line.as_str());
            let rest = trim_start_chars(&chars);
            if rest.len() > 0 {
                let marker: Vec<char> = vec!['/', '/'];
                assert(marker@ == comment_marker());
                if !crate::text::starts_with(rest.as_slice(), marker.as_slice()) {
                    return Ok(false);
                }
                seen = true;
            }
            if idx == end {
                proof {
                    assert(should_uncomment(self@.buffer, idx + 1, end as int, seen) == Ok::<
                        bool,
                        EditorError,
                    >(seen));
                }
                return Ok(seen);
            }
            idx += 1;
        }
    }

    /// Uncomments line `idx`.
    fn uncomment_line(&mut self, idx: usize) -> (r: Result<()>)
        ensures
            match uncomment_line_result(old(self)@.buffer, idx) {
                Ok(b) => r is Ok && final(self)@ == (EditorView { buffer: b, ..old(self)@ }),
                Err((b, e)) => r == Err::<(), EditorError>(e) && final(self)@ == (EditorView {
                    buffer: b,
                    ..old(self)@
                }),
            },
    {
        let line = match self.buffer.line(idx) {
            Ok(l) => l,
            Err(e) => return Err(e),
        };
        let chars = chars_of(line.as_str());
        let ghost l = chars@;
        let n = chars.len();
        let mut k: usize = 0;
        let mut found: Option<usize> = None;
        loop
            invariant_except_break
                found is None,
            invariant
                l == chars@,
                n == l.len(),
                k <= n,
                first_marker(l, k as int) == first_marker(l, 0),
            ensures
                match found {
                    Some(m) => first_marker(l, 0) == Some(m as int) && m + 1 < n,
                    None => first_marker(l, 0) is None,
                },
            decreases n - k,
        {
            if n < 2 || k >= n - 1 {
                break;
            }
            if chars[k] == '/' && chars[k + 1] == '/' {
                found = Some(k);
                break;
            }
            k += 1;
        }
        let k = match found {
            Some(m) => m,
            None => return Ok(()),
        };
        let mut blank = true;
        let mut bytes: usize = 0;
        let mut i: usize = 0;
        while i < k
            invariant
                l == chars@,
                k < n == l.len(),
                i <= k,
                blank == is_blank(l.take(i as int)),
                bytes == capped(utf8_len(l.take(i as int)) as int),
            decreases k - i,
        {
            proof {
                assert(l.take(i + 1) == l.take(i as int).push(l[i as int]));
                lemma_utf8_len_push(l.take(i as int), l[i as int]);
                if !is_white_space(l[i as int]) {
                    assert(!is_blank(l.take(i + 1)) ) by {
                        assert(l.take(i + 1)[i as int] == l[i as int]);
                    }
                }
                if blank && is_white_space(l[i as int]) {
                    assert forall|j: int| 0 <= j < l.take(i + 1).len() implies is_white_space(
                        #[trigger] l.take(i + 1)[j],
                    ) by {
                        if j < i {
                            assert(l.take(i + 1)[j] == l.take(i as int)[j]);
                        }
                    }
                }
                if !blank {
                    let w = choose|j: int| 0 <= j < l.take(i as int).len() && !is_white_space(
                        #[trigger] l.take(i as int)[j],
                    );
                    assert(l.take(i + 1)[w] == l.take(i as int)[w]);
                }
            }
            blank = blank && white_space(chars[i]);
            bytes = bytes.saturating_add(char_width(chars[i]));
            i += 1;
        }
        if !blank {
            return Ok(());
        }
        let remove: usize = if k + 2 < n && chars[k + 2] == ' ' {
            3
        } else {
            2
        };
        let index = match self.buffer.char_index(idx, bytes) {
            Ok(x) => x,
            Err(e) => return Err(e),
        };
        proof {
            crate::lines::lemma_index_of_valid(self@.buffer.text, idx as int, bytes as int);
        }
        let (pl, pc) = match self.buffer.char_to_line_col(index) {
            Ok(p) => p,
            Err(e) => return Err(e),
        };
        self.buffer.delete_range(pl, pc, pl, pc.saturating_add(remove))
    }

    /// Comments line `idx` (skipping a blank line when `several` lines are commented).
    fn comment_line(&mut self, idx: usize, several: bool) -> (r: Result<()>)
        ensures
            match comment_line_result(old(self)@.buffer, idx, several) {
                Ok(b) => r is Ok && final(self)@ == (EditorView { buffer: b, ..old(self)@ }),
                Err((b, e)) => r == Err::<(), EditorError>(e) && final(self)@ == (EditorView {
                    buffer: b,
                    ..old(self)@
                }),
            },
    {
        let line = match self.buffer.line(idx) {
            Ok(l) => l,
            Err(e) => return Err(e),
        };
        let chars = chars_of(line.as_str());
        let mut blank = true;
        let mut i: usize = 0;
        while i < chars.len()
            invariant
                i <= chars@.len(),
                blank == is_blank(chars@.take(i as int)),
            decreases chars@.len() - i,
        {
            proof {
                let t = chars@;
                if !is_white_space(t[i as int]) {
                    assert(t.take(i + 1)[i as int] == t[i as int]);
                }
                if blank && is_white_space(t[i as int]) {
                    assert forall|j: int| 0 <= j < t.take(i + 1).len() implies is_white_space(
                        #[trigger] t.take(i + 1)[j],
                    ) by {
                        if j < i {
                            assert(t.take(i + 1)[j] == t.take(i as int)[j]);
                        }
                    }
                }
                if !blank {
                    let w = choose|j: int| 0 <= j < t.take(i as int).len() && !is_white_space(
                        #[trigger] t.take(i as int)[j],
                    );
                    assert(t.take(i + 1)[w] == t.take(i as int)[w]);
                }
            }
            blank = blank && white_space(chars[i]);
            i += 1;
        }
        assert(chars@.take(chars@.len() as int) == chars@);
        if blank && several {
            return Ok(());
        }
        self.buffer.insert_str(idx, 0, "// ")
    }

    /// Comments out the lines of the selection (or the primary cursor's line), or removes
    /// their comment markers when they all have one.
    pub fn toggle_line_comment(&mut self) -> (r: Result<()>)
        ensures
            toggle_comment_outcome(old(self)@, final(self)@, r),
    {
        let (start, end) = match self.selection {
            Some(sel) => {
                let st = sel.start().line;
                let en = sel.end().line;
                if sel.end().column == 0 && st != en {
                    (st, en - 1)
                } else {
                    (st, en)
                }
            },
            None => {
                let line = self.cursors.primary().line;
                (line, line)
            },
        };
        proof {
            if let Some(sel) = self@.selection {
                crate::selection::lemma_selection_bounds_ordered(sel);
            }
        }
        let uncomment = match self.comment_scan(start, end) {
            Ok(u) => u,
            Err(e) => return Err(e),
        };
        let several = start != end;
        let ghost before = self@;
        let mut idx = start;
        loop
            invariant
                before == old(self)@,
                (start, end) == comment_range(before),
                should_uncomment(before.buffer, start as int, end as int, false) == Ok::<
                    bool,
                    EditorError,
                >(uncomment),
                several == (start != end),
                start <= idx <= end + 1,
                toggle_lines_upto(before.buffer, start as int, idx as int, uncomment, several)
                    == Ok::<BufferView, (BufferView, EditorError)>(self@.buffer),
                self@ == (EditorView { buffer: self@.buffer, ..before }),
            decreases end + 1 - idx,
        {
            if idx > end {
                return Ok(());
            }
            let ghost b_prev = self@.buffer;
            let done = if uncomment {
                self.uncomment_line(idx)
            } else {
                self.comment_line(idx, several)
            };
            match done {
                Ok(()) => {},
                Err(e) => {
                    proof {
                        assert(toggle_lines_upto(
                            before.buffer,
                            start as int,
                            idx + 1,
                            uncomment,
                            several,
                        ) == Err::<BufferView, (BufferView, EditorError)>((self@.buffer, e)));
                        lemma_toggle_lines_stops(
                            before.buffer,
                            start as int,
                            idx + 1,
                            end + 1,
                            uncomment,
                            several,
                        );
                    }
                    return Err(e);
                },
            }
            if idx == end {
                return Ok(());
            }
            idx += 1;
        }
    }
}

/// What `selection_start` does: a selection starts and ends at the primary cursor.
pub open spec fn selection_start_outcome(before: EditorView, after: EditorView, r: Result<()>) -> bool {
    &&& r is Ok
    &&& after == (EditorView {
        selection: Some(
            Selection {
                anchor: before.cursors[0],
                cursor: before.cursors[0],
                mode: selection_mode_for(before.block_selection_mode),
            },
        ),
        ..before
    })
}

/// The mode of a selection started while block selection is `block`.
pub open spec fn selection_mode_for(block: bool) -> SelectionMode {
    if block { SelectionMode::Block } else { SelectionMode::Normal }
}

/// What `selection_end` does: the selection, if any, now reaches the primary cursor.
pub open spec fn selection_end_outcome(before: EditorView, after: EditorView, r: Result<()>) -> bool {
    &&& r is Ok
    &&& after == (EditorView {
        selection: match before.selection {
            Some(sel) => Some(
                Selection { anchor: sel.anchor, cursor: before.cursors[0], mode: sel.mode },
            ),
            None => None,
        },
        ..before
    })
}


/// What `toggle_block_selection` does: block selection flips, and a selection that exists
/// takes the new mode.
pub open spec fn toggle_block_outcome(before: EditorView, after: EditorView, r: Result<()>) -> bool {
    &&& r is Ok
    &&& after == (EditorView {
        block_selection_mode: !before.block_selection_mode,
        selection: match before.selection {
            Some(sel) => Some(
                Selection {
                    anchor: sel.anchor,
                    cursor: sel.cursor,
                    mode: selection_mode_for(!before.block_selection_mode),
                },
            ),
            None => None,
        },
        ..before
    })
}

/// A mouse gesture at `p` that is not a place in the text fails with the position error and
/// changes nothing.
pub open spec fn refused_at(before: EditorView, after: EditorView, r: Result<()>, p: CursorPosition) -> bool {
    &&& r == Err::<(), EditorError>(position_error(p.line, p.column))
    &&& after == before
}

/// What a click at `p` does: a single cursor at `p`, and no selection.
pub open spec fn mouse_click_outcome(before: EditorView, after: EditorView, r: Result<()>, p: CursorPosition) -> bool {
    if position_in(before.buffer, p) {
        r is Ok && after == (EditorView { cursors: seq![p], selection: None, ..before })
    } else {
        refused_at(before, after, r, p)
    }
}

/// The editor once a drag starts at `p`: a single cursor at `p` and an empty selection there,
/// in block mode when block selection is on.
pub open spec fn drag_started(before: EditorView, p: CursorPosition) -> EditorView {
    EditorView {
        cursors: seq![p],
        selection: Some(
            Selection { anchor: p, cursor: p, mode: selection_mode_for(before.block_selection_mode) },
        ),
        ..before
    }
}

/// What starting a drag at `p` does.
pub open spec fn drag_start_outcome(before: EditorView, after: EditorView, r: Result<()>, p: CursorPosition) -> bool {
    if position_in(before.buffer, p) {
        r is Ok && after == drag_started(before, p)
    } else {
        refused_at(before, after, r, p)
    }
}

/// What dragging to `p` does: the selection stretches from its anchor to `p`, keeping its
/// mode, and the single cursor follows; without a selection the drag starts at `p`.
pub open spec fn drag_outcome(before: EditorView, after: EditorView, r: Result<()>, p: CursorPosition) -> bool {
    if position_in(before.buffer, p) {
        &&& r is Ok
        &&& after == match before.selection {
            Some(sel) => EditorView {
                cursors: seq![p],
                selection: Some(Selection { anchor: sel.anchor, cursor: p, mode: sel.mode }),
                ..before
            },
            None => drag_started(before, p),
        }
    } else {
        refused_at(before, after, r, p)
    }
}

/// What a double click at `p` does: on a word character, the whole word around it is
/// selected with the cursor at its end; elsewhere nothing changes.
pub open spec fn double_click_outcome(before: EditorView, after: EditorView, r: Result<()>, p: CursorPosition) -> bool {
    let t = before.buffer.text;
    let i = before.buffer.index(p.line, p.column);
    if !position_in(before.buffer, p) {
        refused_at(before, after, r, p)
    } else if i >= t.len() || !is_word_char(t[i]) {
        r is Ok && after == before
    } else {
        let start = position_of_index(t, word_start(t, i));
        let end = position_of_index(t, skip_right(t, i, true));
        &&& r is Ok
        &&& after == (EditorView {
            cursors: seq![end],
            selection: Some(Selection { anchor: start, cursor: end, mode: SelectionMode::Normal }),
            ..before
        })
    }
}

/// What a triple click at `p` does: its whole line is selected, with the cursor at the
/// line's end.
pub open spec fn triple_click_outcome(before: EditorView, after: EditorView, r: Result<()>, p: CursorPosition) -> bool {
    if position_in(before.buffer, p) {
        let end = CursorPosition {
            line: p.line,
            column: line_length(before.buffer.text, p.line as int) as usize,
        };
        &&& r is Ok
        &&& after == (EditorView {
            cursors: seq![end],
            selection: Some(
                Selection {
                    anchor: CursorPosition { line: p.line, column: 0 },
                    cursor: end,
                    mode: SelectionMode::Normal,
                },
            ),
            ..before
        })
    } else {
        refused_at(before, after, r, p)
    }
}

impl EditorState {
    /// Turns block selection on or off; a selection that exists takes the new mode.
    pub fn toggle_block_selection(&mut self) -> (r: Result<()>)
        ensures
            toggle_block_outcome(old(self)@, final(self)@, r),
    {
        self.block_selection_mode = !self.block_selection_mode;
        match self.selection {
            Some(sel) => {
                let next = if self.block_selection_mode {
                    Selection::new_block(sel.anchor, sel.cursor)
                } else {
                    Selection::new(sel.anchor, sel.cursor)
                };
                self.selection = Some(next);
            },
            None => {},
        }
        Ok(())
    }

    /// Whether block selection is on.
    pub fn block_selection_mode(&self) -> (b: bool)
        ensures
            b == self@.block_selection_mode,
    {
        self.block_selection_mode
    }

    /// A click at `position`: the cursors collapse there and the selection goes.
    pub fn mouse_click(&mut self, position: CursorPosition) -> (r: Result<()>)
        ensures
            mouse_click_outcome(old(self)@, final(self)@, r, position),
    {
        match self.validate_position(position) {
            Ok(()) => {},
            Err(e) => return Err(e),
        }
        self.cursors.reset_to(position);
        self.selection = None;
        Ok(())
    }

    /// Starts a drag at `position`: the cursors collapse there and an empty selection
    /// begins.
    pub fn mouse_drag_start(&mut self, position: CursorPosition) -> (r: Result<()>)
        ensures
            drag_start_outcome(old(self)@, final(self)@, r, position),
    {
        match self.validate_position(position) {
            Ok(()) => {},
            Err(e) => return Err(e),
        }
        self.cursors.reset_to(position);
        self.selection = Some(
            if self.block_selection_mode {
                Selection::new_block(position, position)
            } else {
                Selection::new(position, position)
            },
        );
        Ok(())
    }

    /// Drags to `position`, stretching the selection from its anchor.
    pub fn mouse_drag(&mut self, position: CursorPosition) -> (r: Result<()>)
        ensures
            drag_outcome(old(self)@, final(self)@, r, position),
    {
        match self.validate_position(position) {
            Ok(()) => {},
            Err(e) => return Err(e),
        }
        match self.selection {
            Some(sel) => {
                self.cursors.reset_to(position);
                self.selection = Some(
                    if sel.is_block() {
                        Selection::new_block(sel.anchor, position)
                    } else {
                        Selection::new(sel.anchor, position)
                    },
                );
                Ok(())
            },
            None => self.mouse_drag_start(position),
        }
    }

    /// Ends a drag at `position`, which stretches the selection as a drag does.
    pub fn mouse_drag_end(&mut self, position: CursorPosition) -> (r: Result<()>)
        ensures
            drag_outcome(old(self)@, final(self)@, r, position),
    {
        self.mouse_drag(position)
    }

    /// A double click at `position`: selects the word under it.
    pub fn mouse_double_click(&mut self, position: CursorPosition) -> (r: Result<()>)
        ensures
            double_click_outcome(old(self)@, final(self)@, r, position),
    {
        match self.validate_position(position) {
            Ok(()) => {},
            Err(e) => return Err(e),
        }
        let idx = match self.buffer.char_index(position.line, position.column) {
            Ok(i) => i,
            Err(e) => return Err(e),
        };
        let total = self.buffer.len_chars();
        let ghost t = self@.buffer.text;
        if total == 0 {
            return Ok(());
        }
        match self.buffer.char_at(idx) {
            Some(c) => {
                if !word_char(c) {
                    return Ok(());
                }
            },
            None => return Ok(()),
        }
        let mut start = idx;
        while start > 0
            invariant
                start <= idx < t.len(),
                t == self@.buffer.text,
                word_start(t, start as int) == word_start(t, idx as int),
            ensures
                start == word_start(t, idx as int),
            decreases start,
        {
            let c = match self.buffer.char_at(start - 1) {
                Some(c) => c,
                None => break,
            };
            if !word_char(c) {
                break;
            }
            start -= 1;
        }
        let mut end = idx;
        while end < total
            invariant
                idx <= end <= t.len(),
                total == t.len(),
                t == self@.buffer.text,
                skip_right(t, end as int, true) == skip_right(t, idx as int, true),
            ensures
                end == skip_right(t, idx as int, true),
            decreases total - end,
        {
            let c = match self.buffer.char_at(end) {
                Some(c) => c,
                None => break,
            };
            if !word_char(c) {
                break;
            }
            end += 1;
        }
        let (sl, sc) = match self.buffer.char_to_line_col(start) {
            Ok(x) => x,
            Err(e) => return Err(e),
        };
        let (el, ec) = match self.buffer.char_to_line_col(end) {
            Ok(x) => x,
            Err(e) => return Err(e),
        };
        let start_pos = CursorPosition::new(sl, sc);
        let end_pos = CursorPosition::new(el, ec);
        self.cursors.reset_to(end_pos);
        self.selection = Some(Selection::new(start_pos, end_pos));
        Ok(())
    }

    /// A triple click at `position`: selects its whole line.
    pub fn mouse_triple_click(&mut self, position: CursorPosition) -> (r: Result<()>)
        ensures
            triple_click_outcome(old(self)@, final(self)@, r, position),
    {
        match self.validate_position(position) {
            Ok(()) => {},
            Err(e) => return Err(e),
        }
        let len = match self.buffer.line_len(position.line) {
            Ok(n) => n,
            Err(e) => return Err(e),
        };
        let start_pos = CursorPosition::new(position.line, 0);
        let end_pos = CursorPosition::new(position.line, len);
        self.cursors.reset_to(end_pos);
        self.selection = Some(Selection::new(start_pos, end_pos));
        Ok(())
    }
}


/// The text between two places, as `get_text_range` reads it: empty when `end` does not come
/// after `start`; the error for the first place that is not in the text.
pub open spec fn text_range_result(b: BufferView, start: CursorPosition, end: CursorPosition) -> core::result::Result<
    Seq<char>,
    EditorError,
> {
    if !b.valid(start.line, start.column) {
        Err(position_error(start.line, start.column))
    } else if !b.valid(end.line, end.column) {
        Err(position_error(end.line, end.column))
    } else {
        let i = b.index(start.line, start.column);
        let j = b.index(end.line, end.column);
        Ok(if i < j { b.text.subrange(i, j) } else { Seq::empty() })
    }
}

/// The part of line `line` between columns `lo` and `hi`, each pulled back to the line's
/// length.
pub open spec fn block_piece(b: BufferView, line: int, lo: usize, hi: usize) -> Seq<char> {
    let len = line_length(b.text, line) as usize;
    b.text.subrange(
        index_of(b.text, line, min_usize(lo, len) as int),
        index_of(b.text, line, min_usize(hi, len) as int),
    )
}

/// The column block of lines `line..=last` between columns `lo` and `hi`, appended to `acc`:
/// the pieces of the lines joined by line breaks, where a break follows only a non-empty
/// text so far; the error for the first line that does not exist.
pub open spec fn block_text_from(
    b: BufferView,
    line: int,
    last: int,
    lo: usize,
    hi: usize,
    acc: Seq<char>,
) -> core::result::Result<Seq<char>, EditorError>
    decreases last + 1 - line,
{
    if line > last {
        Ok(acc)
    } else if line >= num_lines(b.text) {
        Err(position_error(line as usize, 0))
    } else {
        let p = block_piece(b, line, lo, hi);
        block_text_from(
            b,
            line + 1,
            last,
            lo,
            hi,
            if acc.len() > 0 { acc.push('\n') + p } else { acc + p },
        )
    }
}

/// The text of the selection of `v`: nothing without a selection or for an empty one, the
/// text between its ends in normal mode, the column block it spans in block mode.
pub open spec fn selected_text(v: EditorView) -> core::result::Result<Seq<char>, EditorError> {
    match v.selection {
        None => Ok(Seq::empty()),
        Some(sel) => if sel.anchor == sel.cursor {
            Ok(Seq::empty())
        } else if sel.mode == SelectionMode::Normal {
            text_range_result(v.buffer, sel.spec_start(), sel.spec_end())
        } else {
            block_text_from(
                v.buffer,
                sel.spec_start().line as int,
                sel.spec_end().line as int,
                min_usize(sel.anchor.column, sel.cursor.column),
                if sel.anchor.column < sel.cursor.column {
                    sel.cursor.column
                } else {
                    sel.anchor.column
                },
                Seq::empty(),
            )
        },
    }
}

/// The marker that opens a block comment.
pub open spec fn block_open() -> Seq<char> {
    seq!['/', '*']
}

/// The marker that closes a block comment.
pub open spec fn block_close() -> Seq<char> {
    seq!['*', '/']
}

/// What `toggle_block_comment` does: a non-empty selection whose text can be read is
/// wrapped in block comment markers, the closing one first; the cursors and the selection
/// stay.
pub open spec fn block_comment_outcome(before: EditorView, after: EditorView, r: Result<()>) -> bool {
    match before.selection {
        None => r is Ok && after == before,
        Some(sel) => if sel.anchor == sel.cursor {
            r is Ok && after == before
        } else {
            match selected_text(before) {
                Err(e) => r == Err::<(), EditorError>(e) && after == before,
                Ok(_) => {
                    let s = sel.spec_start();
                    let e = sel.spec_end();
                    match before.buffer.insert_str_result(e.line, e.column, block_close()) {
                        Err(er) => r == Err::<(), EditorError>(er) && after == before,
                        Ok(b1) => match b1.insert_str_result(s.line, s.column, block_open()) {
                            Err(er) => r == Err::<(), EditorError>(er) && after == (EditorView {
                                buffer: b1,
                                ..before
                            }),
                            Ok(b2) => r is Ok && after == (EditorView { buffer: b2, ..before }),
                        },
                    }
                },
            }
        },
    }
}

impl EditorState {
    /// The text between `start` and `end`.
    pub fn get_text_range(&self, start: CursorPosition, end: CursorPosition) -> (r: Result<String>)
        ensures
            match text_range_result(self@.buffer, start, end) {
                Ok(t) => r matches Ok(x) && x@ == t,
                Err(e) => r == Err::<String, EditorError>(e),
            },
    {
        let i = match self.buffer.char_index(start.line, start.column) {
            Ok(i) => i,
            Err(e) => return Err(e),
        };
        let j = match self.buffer.char_index(end.line, end.column) {
            Ok(j) => j,
            Err(e) => return Err(e),
        };
        proof {
            crate::lines::lemma_index_of_valid(self@.buffer.text, start.line as int, start.column as int);
            crate::lines::lemma_index_of_valid(self@.buffer.text, end.line as int, end.column as int);
        }
        if i >= j {
            return Ok(String::new());
        }
        let ghost t = self@.buffer.text;
        let mut out: Vec<char> = Vec::new();
        let mut k = i;
        while k < j
            invariant
                i <= k <= j,
                j <= t.len(),
                t == self@.buffer.text,
                out@ == t.subrange(i as int, k as int),
            decreases j - k,
        {
            match self.buffer.char_at(k) {
                Some(c) => out.push(c),
                None => {},
            }
            proof {
                assert(t.subrange(i as int, k + 1) == t.subrange(i as int, k as int).push(t[k as int]));
            }
            k += 1;
        }
        Ok(string_from_chars(&out))
    }

    /// The selected text (see `selected_text`).
    pub fn get_selected_text(&self) -> (r: Result<String>)
        ensures
            match selected_text(self@) {
                Ok(t) => r matches Ok(x) && x@ == t,
                Err(e) => r == Err::<String, EditorError>(e),
            },
    {
        let sel = match self.selection {
            Some(sel) => sel,
            None => return Ok(String::new()),
        };
        if sel.is_empty() {
            return Ok(String::new());
        }
        let start = sel.start();
        let end = sel.end();
        if !sel.is_block() {
            return self.get_text_range(start, end);
        }
        proof {
            crate::selection::lemma_selection_bounds_ordered(sel);
        }
        let lo = if sel.anchor.column < sel.cursor.column { sel.anchor.column } else { sel.cursor.column };
        let hi = if sel.anchor.column < sel.cursor.column { sel.cursor.column } else { sel.anchor.column };
        let first = start.line;
        let last = end.line;
        let ghost b = self@.buffer;
        let mut out: Vec<char> = Vec::new();
        let mut line = first;
        assert(selected_text(self@) == block_text_from(b, first as int, last as int, lo, hi, Seq::empty()));
        loop
            invariant
                first <= line <= last,
                lo <= hi,
                b == self@.buffer,
                selected_text(self@) == block_text_from(b, first as int, last as int, lo, hi, Seq::empty()),
                block_text_from(b, first as int, last as int, lo, hi, Seq::empty())
                    == block_text_from(b, line as int, last as int, lo, hi, out@),
            decreases last - line,
        {
            let len = match self.buffer.line_len(line) {
                Ok(n) => n,
                Err(e) => {
                    assert(block_text_from(b, line as int, last as int, lo, hi, out@) == Err::<
                        Seq<char>,
                        EditorError,
                    >(e));
                    return Err(e);
                },
            };
            let s = if lo < len { lo } else { len };
            let e = if hi < len { hi } else { len };
            proof {
                crate::lines::lemma_index_of_valid(b.text, line as int, e as int);
                crate::lines::lemma_index_of_valid(b.text, line as int, s as int);
                lemma_line_starts(b.text);
                let i0 = index_of(b.text, line as int, s as int);
                let j0 = index_of(b.text, line as int, e as int);
                if i0 == j0 {
                    assert(b.text.subrange(i0, j0) =~= Seq::<char>::empty());
                }
            }
            let piece = match self.get_text_range(CursorPosition::new(line, s), CursorPosition::new(line, e)) {
                Ok(p) => p,
                Err(er) => return Err(er),
            };
            assert(piece@ == block_piece(b, line as int, lo, hi));
            let ghost before_out = out@;
            if out.len() > 0 {
                out.push('\n');
            }
            let pc = chars_of(piece.as_str());
            push_all(&mut out, &pc);
            assert(out@ == (if before_out.len() > 0 {
                before_out.push('\n') + piece@
            } else {
                before_out + piece@
            }));
            if line == last {
                assert(block_text_from(b, line + 1, last as int, lo, hi, out@) == Ok::<
                    Seq<char>,
                    EditorError,
                >(out@));
                return Ok(string_from_chars(&out));
            }
            line += 1;
        }
    }

    /// Wraps a non-empty selection in block comment markers (see `block_comment_outcome`).
    pub fn toggle_block_comment(&mut self) -> (r: Result<()>)
        ensures
            block_comment_outcome(old(self)@, final(self)@, r),
    {
        let sel = match self.selection {
            Some(sel) => sel,
            None => return Ok(()),
        };
        if sel.is_empty() {
            return Ok(());
        }
        match self.get_selected_text() {
            Ok(_) => {},
            Err(e) => return Err(e),
        }
        let start = sel.start();
        let end = sel.end();
        let close: Vec<char> = vec!['*', '/'];
        let open: Vec<char> = vec!['/', '*'];
        let close_s = string_from_chars(&close);
        let open_s = string_from_chars(&open);
        match self.buffer.insert_str(end.line, end.column, close_s.as_str()) {
            Ok(()) => {},
            Err(e) => return Err(e),
        }
        match self.buffer.insert_str(start.line, start.column, open_s.as_str()) {
            Ok(()) => Ok(()),
            Err(e) => Err(e),
        }
    }
}


/// The buffer left by deleting the text between two places: unchanged when `end` does not
/// come after `start`; the error for the first place that is not in the text.
pub open spec fn range_deleted(b: BufferView, start: CursorPosition, end: CursorPosition) -> core::result::Result<
    BufferView,
    EditorError,
> {
    if !b.valid(start.line, start.column) {
        Err(position_error(start.line, start.column))
    } else if !b.valid(end.line, end.column) {
        Err(position_error(end.line, end.column))
    } else {
        let i = b.index(start.line, start.column);
        let j = b.index(end.line, end.column);
        Ok(if i < j { b.edited(b.text.take(i) + b.text.skip(j)) } else { b })
    }
}

/// What `delete_range` does: the text between the two places goes and a single cursor is
/// left at `start`.
pub open spec fn delete_range_outcome(
    before: EditorView,
    after: EditorView,
    r: Result<()>,
    start: CursorPosition,
    end: CursorPosition,
) -> bool {
    match range_deleted(before.buffer, start, end) {
        Err(e) => r == Err::<(), EditorError>(e) && after == before,
        Ok(b) => r is Ok && after == (EditorView { buffer: b, cursors: seq![start], ..before }),
    }
}

/// What `insert_text_at` does: `text` goes in at `position`, and a single cursor is left as
/// many characters after the character index that `position` names in the new text as
/// `text` holds.
pub open spec fn insert_text_outcome(
    before: EditorView,
    after: EditorView,
    r: Result<()>,
    position: CursorPosition,
    text: Seq<char>,
) -> bool {
    match before.buffer.insert_str_result(position.line, position.column, text) {
        Err(e) => r == Err::<(), EditorError>(e) && after == before,
        Ok(b) => if !b.valid(position.line, position.column) {
            &&& r == Err::<(), EditorError>(position_error(position.line, position.column))
            &&& after == (EditorView { buffer: b, ..before })
        } else {
            let end = b.index(position.line, position.column) + text.len();
            if end <= b.text.len() {
                &&& r is Ok
                &&& after == (EditorView {
                    buffer: b,
                    cursors: seq![position_of_index(b.text, end)],
                    ..before
                })
            } else {
                &&& r == Err::<(), EditorError>(
                    position_error((num_lines(b.text) - 1) as usize, 0),
                )
                &&& after == (EditorView { buffer: b, ..before })
            }
        },
    }
}

/// The buffer and cursors left by deleting, from the last line up to line `first`, the
/// pieces between columns `lo` and `hi` of lines `first..=line`; or the error for the first
/// line that does not exist, with the buffer as far as the deletions got.
pub open spec fn block_deleted(
    v: EditorView,
    first: int,
    line: int,
    lo: usize,
    hi: usize,
) -> core::result::Result<EditorView, (EditorView, EditorError)>
    decreases line - first + 1,
{
    if line < first {
        Ok(v)
    } else if line >= num_lines(v.buffer.text) {
        Err((v, position_error(line as usize, 0)))
    } else {
        let len = line_length(v.buffer.text, line) as usize;
        let s = CursorPosition { line: line as usize, column: min_usize(lo, len) };
        let e = CursorPosition { line: line as usize, column: min_usize(hi, len) };
        let next = if s.column < e.column {
            match range_deleted(v.buffer, s, e) {
                Ok(b) => EditorView { buffer: b, cursors: seq![s], ..v },
                Err(_) => v,
            }
        } else {
            v
        };
        block_deleted(next, first, line - 1, lo, hi)
    }
}

/// What `delete_selection` does: a non-empty selection's text goes (in block mode, the
/// piece of each of its lines, last line first) and the selection is dropped; on a failure
/// the deletions made so far stay.
pub open spec fn delete_selection_outcome(before: EditorView, after: EditorView, r: Result<()>) -> bool {
    match before.selection {
        None => r is Ok && after == before,
        Some(sel) => if sel.anchor == sel.cursor {
            r is Ok && after == before
        } else if sel.mode == SelectionMode::Normal {
            match range_deleted(before.buffer, sel.spec_start(), sel.spec_end()) {
                Err(e) => r == Err::<(), EditorError>(e) && after == before,
                Ok(b) => r is Ok && after == (EditorView {
                    buffer: b,
                    cursors: seq![sel.spec_start()],
                    selection: None,
                    ..before
                }),
            }
        } else {
            match block_deleted(
                before,
                sel.spec_start().line as int,
                sel.spec_end().line as int,
                min_usize(sel.anchor.column, sel.cursor.column),
                if sel.anchor.column < sel.cursor.column {
                    sel.cursor.column
                } else {
                    sel.anchor.column
                },
            ) {
                Ok(v) => r is Ok && after == (EditorView { selection: None, ..v }),
                Err((v, e)) => r == Err::<(), EditorError>(e) && after == v,
            }
        },
    }
}

impl EditorState {
    /// Deletes the text between `start` and `end`, leaving a single cursor at `start`.
    pub fn delete_range(&mut self, start: CursorPosition, end: CursorPosition) -> (r: Result<()>)
        ensures
            delete_range_outcome(old(self)@, final(self)@, r, start, end),
    {
        let i = match self.buffer.char_index(start.line, start.column) {
            Ok(i) => i,
            Err(e) => return Err(e),
        };
        let j = match self.buffer.char_index(end.line, end.column) {
            Ok(j) => j,
            Err(e) => return Err(e),
        };
        proof {
            crate::lines::lemma_index_of_valid(self@.buffer.text, start.line as int, start.column as int);
            crate::lines::lemma_index_of_valid(self@.buffer.text, end.line as int, end.column as int);
            lemma_line_starts(self@.buffer.text);
        }
        let ghost b0 = self@.buffer;
        let n: usize = if i < j { j - i } else { 0 };
        let mut k: usize = 0;
        while k < n
            invariant
                i + n <= b0.text.len(),
                k <= n,
                n == (if i < j { j - i } else { 0 }),
                self@ == (EditorView { buffer: self@.buffer, ..old(self)@ }),
                b0 == old(self)@.buffer,
                k == 0 ==> self@.buffer == b0,
                k > 0 ==> self@.buffer == b0.edited(b0.text.take(i as int) + b0.text.skip(i + k)),
            decreases n - k,
        {
            let ghost t = self@.buffer.text;
            proof {
                if k == 0 {
                    assert(t == b0.text.take(i as int) + b0.text.skip(i + k));
                }
                assert(t.len() == b0.text.len() - k);
                crate::lines::lemma_line_of(t, i as int);
                crate::lines::lemma_column_within_line(t, i as int);
            }
            let (l, c) = match self.buffer.char_to_line_col(i) {
                Ok(x) => x,
                Err(e) => return Err(e),
            };
            match self.buffer.delete_char(l, c) {
                Ok(()) => {},
                Err(e) => return Err(e),
            }
            proof {
                assert(t.remove(i as int) =~= b0.text.take(i as int) + b0.text.skip(i + k + 1));
            }
            k += 1;
        }
        self.cursors.reset_to(start);
        Ok(())
    }

    /// Inserts `text` at `position`, leaving a single cursor just after it.
    pub fn insert_text_at(&mut self, position: CursorPosition, text: &str) -> (r: Result<()>)
        ensures
            insert_text_outcome(old(self)@, final(self)@, r, position, text@),
    {
        match self.buffer.insert_str(position.line, position.column, text) {
            Ok(()) => {},
            Err(e) => return Err(e),
        }
        let idx = match self.buffer.char_index(position.line, position.column) {
            Ok(i) => i,
            Err(e) => return Err(e),
        };
        proof {
            crate::lines::lemma_index_of_valid(self@.buffer.text, position.line as int, position.column as int);
        }
        let total = self.buffer.len_chars();
        let n = chars_of(text).len();
        if n > total || idx > total - n {
            proof {
                lemma_line_starts(self@.buffer.text);
            }
            return Err(EditorError::InvalidPosition { line: self.buffer.line_count() - 1, column: 0 });
        }
        let (line, col) = match self.buffer.char_to_line_col(idx + n) {
            Ok(x) => x,
            Err(e) => return Err(e),
        };
        self.cursors.reset_to(CursorPosition::new(line, col));
        Ok(())
    }
}


impl EditorState {
    /// Deletes the selected text and drops the selection (see `delete_selection_outcome`).
    pub fn delete_selection(&mut self) -> (r: Result<()>)
        ensures
            delete_selection_outcome(old(self)@, final(self)@, r),
    {
        let sel = match self.selection {
            Some(sel) => sel,
            None => return Ok(()),
        };
        if sel.is_empty() {
            return Ok(());
        }
        let start = sel.start();
        let end = sel.end();
        if !sel.is_block() {
            match self.delete_range(start, end) {
                Ok(()) => {},
                Err(e) => return Err(e),
            }
            self.selection = None;
            return Ok(());
        }
        proof {
            crate::selection::lemma_selection_bounds_ordered(sel);
        }
        let lo = if sel.anchor.column < sel.cursor.column { sel.anchor.column } else { sel.cursor.column };
        let hi = if sel.anchor.column < sel.cursor.column { sel.cursor.column } else { sel.anchor.column };
        let first = start.line;
        let last = end.line;
        let mut line = last;
        loop
            invariant
                first <= line <= last,
                lo <= hi,
                self@.selection == old(self)@.selection,
                old(self)@.selection == Some(sel),
                sel.anchor != sel.cursor,
                sel.mode == SelectionMode::Block,
                first == sel.spec_start().line,
                last == sel.spec_end().line,
                lo == min_usize(sel.anchor.column, sel.cursor.column),
                hi == (if sel.anchor.column < sel.cursor.column {
                    sel.cursor.column
                } else {
                    sel.anchor.column
                }),
                block_deleted(old(self)@, first as int, last as int, lo, hi) == block_deleted(
                    self@,
                    first as int,
                    line as int,
                    lo,
                    hi,
                ),
            decreases line,
        {
            let len = match self.buffer.line_len(line) {
                Ok(n) => n,
                Err(e) => return Err(e),
            };
            let s = if lo < len { lo } else { len };
            let e = if hi < len { hi } else { len };
            let ghost v = self@;
            if s < e {
                match self.delete_range(CursorPosition::new(line, s), CursorPosition::new(line, e)) {
                    Ok(()) => {},
                    Err(er) => return Err(er),
                }
            }
            if line == first {
                proof {
                    assert(block_deleted(self@, first as int, first - 1, lo, hi) == Ok::<
                        EditorView,
                        (EditorView, EditorError),
                    >(self@));
                }
                self.selection = None;
                return Ok(());
            }
            line -= 1;
        }
    }
}


/// `line:column` of `p`, with lines counted from one.
pub open spec fn place_text(p: CursorPosition) -> Seq<char> {
    decimal_digits((p.line + 1) as nat) + seq![':'] + decimal_digits(p.column as nat)
}

/// The name of a bookmark, as text.
pub open spec fn name_text(b: Bookmark) -> Option<Seq<char>> {
    match b.name {
        Some(n) => Some(n@),
        None => None,
    }
}

/// Bookmark `i` is the first one at `p`.
pub open spec fn is_first_at(bms: Seq<Bookmark>, p: CursorPosition, i: int) -> bool {
    &&& 0 <= i < bms.len()
    &&& bms[i].position == p
    &&& forall|j: int| 0 <= j < i ==> bms[j].position != p
}

/// No bookmark is at `p`.
pub open spec fn none_at(bms: Seq<Bookmark>, p: CursorPosition) -> bool {
    forall|j: int| 0 <= j < bms.len() ==> bms[j].position != p
}

/// A command refused with an `InvalidOperation` carrying `msg`, changing nothing.
pub open spec fn refused_with(before: EditorView, after: EditorView, r: Result<()>, msg: Seq<char>) -> bool {
    &&& r matches Err(EditorError::InvalidOperation(m)) && m@ == msg
    &&& after == before
}

/// What a jump to bookmark `b` does: to a place in the text, a single cursor there, no
/// selection, and a status message that starts with `what`, names the bookmark if it has a
/// name, and gives the place; elsewhere the jump is refused with the position error.
pub open spec fn jump_outcome(before: EditorView, after: EditorView, r: Result<()>, b: Bookmark, what: Seq<char>) -> bool {
    if position_in(before.buffer, b.position) {
        &&& r is Ok
        &&& after == (EditorView {
            cursors: seq![b.position],
            selection: None,
            status_message: match b.name {
                Some(n) => what + " '"@ + n@ + "' at line "@ + place_text(b.position),
                None => what + " at line "@ + place_text(b.position),
            },
            ..before
        })
    } else {
        refused_at(before, after, r, b.position)
    }
}

/// What `toggle_bookmark` does at the primary cursor: removes the first bookmark there, or
/// adds an unnamed one when there is none, and says which.
pub open spec fn toggle_bookmark_outcome(before: EditorView, after: EditorView, r: Result<()>) -> bool {
    let p = before.cursors[0];
    let bms = before.bookmarks;
    if !position_in(before.buffer, p) {
        refused_at(before, after, r, p)
    } else {
        &&& r is Ok
        &&& after == (EditorView {
            bookmarks: after.bookmarks,
            bookmark_names: after.bookmark_names,
            status_message: if none_at(bms, p) {
                "Bookmark added at line "@ + place_text(p)
            } else {
                "Bookmark removed from line "@ + place_text(p)
            },
            ..before
        })
        &&& none_at(bms, p) ==> after.bookmarks == bms.push(Bookmark { position: p, name: None })
            && after.bookmark_names == before.bookmark_names
        &&& forall|i: int|
            is_first_at(bms, p, i) ==> after.bookmarks == bms.remove(i) && after.bookmark_names
                == names_after_removal(before.bookmark_names, name_text(bms[i]), i as usize)
    }
}

/// What `add_named_bookmark` does at the primary cursor: the first bookmark there goes, and
/// a bookmark named `name` is added at the end, taking over the name.
pub open spec fn add_named_outcome(before: EditorView, after: EditorView, r: Result<()>, name: String) -> bool {
    let p = before.cursors[0];
    let bms = before.bookmarks;
    let nb = Bookmark { position: p, name: Some(name) };
    if !position_in(before.buffer, p) {
        refused_at(before, after, r, p)
    } else {
        &&& r is Ok
        &&& after == (EditorView {
            bookmarks: after.bookmarks,
            bookmark_names: after.bookmark_names,
            status_message: "Named bookmark '"@ + name@ + "' added at line "@ + place_text(p),
            ..before
        })
        &&& none_at(bms, p) ==> after.bookmarks == bms.push(nb) && after.bookmark_names
            == before.bookmark_names.insert(name@, bms.len() as usize)
        &&& forall|i: int|
            is_first_at(bms, p, i) ==> after.bookmarks == bms.remove(i).push(nb)
                && after.bookmark_names == names_after_removal(
                before.bookmark_names,
                name_text(bms[i]),
                i as usize,
            ).insert(name@, (bms.len() - 1) as usize)
    }
}

/// What `remove_bookmark` does: the bookmark at `index` goes, with a message naming it.
pub open spec fn remove_bookmark_outcome(before: EditorView, after: EditorView, r: Result<()>, index: usize) -> bool {
    let bms = before.bookmarks;
    if index < bms.len() {
        let b = bms[index as int];
        &&& r is Ok
        &&& after == (EditorView {
            bookmarks: bms.remove(index as int),
            bookmark_names: names_after_removal(before.bookmark_names, name_text(b), index),
            status_message: match b.name {
                Some(n) => "Removed bookmark '"@ + n@ + "'"@,
                None => "Removed bookmark at line "@ + place_text(b.position),
            },
            ..before
        })
    } else {
        refused_with(before, after, r, "No bookmark at index "@ + decimal_digits(index as nat))
    }
}

/// What `jump_to_bookmark` does.
pub open spec fn jump_to_bookmark_outcome(before: EditorView, after: EditorView, r: Result<()>, index: usize) -> bool {
    if index < before.bookmarks.len() {
        jump_outcome(before, after, r, before.bookmarks[index as int], "Jumped to bookmark"@)
    } else {
        refused_with(before, after, r, "No bookmark at index "@ + decimal_digits(index as nat))
    }
}

/// What `jump_to_named_bookmark` does: jumps to the bookmark the name was last given to.
pub open spec fn jump_to_named_outcome(before: EditorView, after: EditorView, r: Result<()>, name: Seq<char>) -> bool {
    if before.bookmark_names.contains_key(name) {
        let b = before.bookmarks[before.bookmark_names[name] as int];
        if position_in(before.buffer, b.position) {
            &&& r is Ok
            &&& after == (EditorView {
                cursors: seq![b.position],
                selection: None,
                status_message: "Jumped to bookmark '"@ + name + "' at line "@ + place_text(b.position),
                ..before
            })
        } else {
            refused_at(before, after, r, b.position)
        }
    } else {
        refused_with(before, after, r, "No bookmark named '"@ + name + "'"@)
    }
}

/// What `next_bookmark` does: jumps to the first bookmark, in list order, after the primary
/// cursor.
pub open spec fn next_bookmark_outcome(before: EditorView, after: EditorView, r: Result<()>) -> bool {
    let from = before.cursors[0];
    let bms = before.bookmarks;
    if forall|j: int| 0 <= j < bms.len() ==> !pos_lt(from, #[trigger] bms[j].position) {
        refused_with(before, after, r, "No bookmarks after current position"@)
    } else {
        exists|i: int|
            0 <= i < bms.len() && pos_lt(from, bms[i].position) && (forall|j: int|
                0 <= j < i ==> !pos_lt(from, #[trigger] bms[j].position)) && jump_outcome(
                before,
                after,
                r,
                bms[i],
                "Next bookmark"@,
            )
    }
}

/// What `previous_bookmark` does: jumps to the last bookmark, in list order, before the
/// primary cursor.
pub open spec fn previous_bookmark_outcome(before: EditorView, after: EditorView, r: Result<()>) -> bool {
    let from = before.cursors[0];
    let bms = before.bookmarks;
    if forall|j: int| 0 <= j < bms.len() ==> !pos_lt(#[trigger] bms[j].position, from) {
        refused_with(before, after, r, "No bookmarks before current position"@)
    } else {
        exists|i: int|
            0 <= i < bms.len() && pos_lt(bms[i].position, from) && (forall|j: int|
                i < j < bms.len() ==> !pos_lt(#[trigger] bms[j].position, from)) && jump_outcome(
                before,
                after,
                r,
                bms[i],
                "Previous bookmark"@,
            )
    }
}

/// What `clear_all_bookmarks` does: every bookmark goes, and the message counts them.
pub open spec fn clear_bookmarks_outcome(before: EditorView, after: EditorView, r: Result<()>) -> bool {
    &&& r is Ok
    &&& after == (EditorView {
        bookmarks: Seq::empty(),
        bookmark_names: Map::empty(),
        status_message: "Cleared "@ + decimal_digits(before.bookmarks.len()) + " bookmarks"@,
        ..before
    })
}

/// The characters of `place_text(p)`.
fn place_chars(p: CursorPosition) -> (r: Vec<char>)
    ensures
        r@ == place_text(p),
{
    let mut v = one_based_chars(p.line);
    v.push(':');
    let c = decimal_chars(p.column as u64);
    push_all(&mut v, &c);
    v
}

/// `v` followed by the characters of `s`.
fn then_text(v: Vec<char>, s: &str) -> (r: Vec<char>)
    ensures
        r@ == v@ + s@,
{
    let mut v = v;
    let c = chars_of(s);
    push_all(&mut v, &c);
    v
}

/// The message of a jump to `b` (see `jump_outcome`).
fn jump_message(what: &str, b: &Bookmark) -> (r: String)
    ensures
        r@ == match b.name {
            Some(n) => what@ + " '"@ + n@ + "' at line "@ + place_text(b.position),
            None => what@ + " at line "@ + place_text(b.position),
        },
{
    let mut v = chars_of(what);
    match &b.name {
        Some(n) => {
            v = then_text(v, " '");
            v = then_text(v, n.as_str());
            v = then_text(v, "' at line ");
        },
        None => {
            v = then_text(v, " at line ");
        },
    }
    let pc = place_chars(b.position);
    push_all(&mut v, &pc);
    string_from_chars(&v)
}

impl EditorState {
    /// The bookmarks, in the order they were added.
    pub fn bookmarks(&self) -> (r: &[Bookmark])
        ensures
            r@ == self@.bookmarks,
    {
        self.bookmarks.m.bookmarks()
    }

    /// Moves to bookmark `b` after checking that it names a place in the text.
    fn jump_to(&mut self, b: &Bookmark, what: &str) -> (r: Result<()>)
        ensures
            jump_outcome(old(self)@, final(self)@, r, *b, what@),
    {
        let position = b.position;
        match self.validate_position(position) {
            Ok(()) => {},
            Err(e) => return Err(e),
        }
        self.cursors.reset_to(position);
        self.selection = None;
        self.status_message = jump_message(what, b);
        Ok(())
    }

    /// Toggles a bookmark at the primary cursor (see `toggle_bookmark_outcome`).
    pub fn toggle_bookmark(&mut self) -> (r: Result<()>)
        ensures
            toggle_bookmark_outcome(old(self)@, final(self)@, r),
    {
        let position = *self.cursors.primary();
        match self.validate_position(position) {
            Ok(()) => {},
            Err(e) => return Err(e),
        }
        let mut m = self.bookmarks.take();
        let added = m.toggle_bookmark(position);
        self.bookmarks.put(m);
        let v = if added {
            chars_of("Bookmark added at line ")
        } else {
            chars_of("Bookmark removed from line ")
        };
        let mut v = v;
        let pc = place_chars(position);
        push_all(&mut v, &pc);
        self.status_message = string_from_chars(&v);
        Ok(())
    }

    /// Adds a bookmark named `name` at the primary cursor (see `add_named_outcome`).
    pub fn add_named_bookmark(&mut self, name: String) -> (r: Result<()>)
        ensures
            add_named_outcome(old(self)@, final(self)@, r, name),
    {
        let position = *self.cursors.primary();
        match self.validate_position(position) {
            Ok(()) => {},
            Err(e) => return Err(e),
        }
        let mut m = self.bookmarks.take();
        match m.find_bookmark_at_position(position) {
            Some(existing) => {
                m.remove_bookmark(existing);
            },
            None => {},
        }
        m.add_bookmark(Bookmark::with_name(position, name.clone()));
        self.bookmarks.put(m);
        let mut v = chars_of("Named bookmark '");
        v = then_text(v, name.as_str());
        v = then_text(v, "' added at line ");
        let pc = place_chars(position);
        push_all(&mut v, &pc);
        self.status_message = string_from_chars(&v);
        Ok(())
    }

    /// Removes the bookmark at `index` (see `remove_bookmark_outcome`).
    pub fn remove_bookmark(&mut self, index: usize) -> (r: Result<()>)
        ensures
            remove_bookmark_outcome(old(self)@, final(self)@, r, index),
    {
        let mut m = self.bookmarks.take();
        let removed = m.remove_bookmark(index);
        self.bookmarks.put(m);
        match removed {
            Some(b) => {
                let mut v;
                match &b.name {
                    Some(n) => {
                        v = chars_of("Removed bookmark '");
                        v = then_text(v, n.as_str());
                        v = then_text(v, "'");
                    },
                    None => {
                        v = chars_of("Removed bookmark at line ");
                        let pc = place_chars(b.position);
                        push_all(&mut v, &pc);
                    },
                }
                self.status_message = string_from_chars(&v);
                Ok(())
            },
            None => {
                let mut v = chars_of("No bookmark at index ");
                let d = decimal_chars(index as u64);
                push_all(&mut v, &d);
                Err(EditorError::InvalidOperation(string_from_chars(&v)))
            },
        }
    }

    /// Jumps to the bookmark at `index` (see `jump_to_bookmark_outcome`).
    pub fn jump_to_bookmark(&mut self, index: usize) -> (r: Result<()>)
        ensures
            jump_to_bookmark_outcome(old(self)@, final(self)@, r, index),
    {
        match self.bookmarks.m.get_bookmark(index) {
            Some(b) => {
                let b = b.clone();
                self.jump_to(&b, "Jumped to bookmark")
            },
            None => {
                let mut v = chars_of("No bookmark at index ");
                let d = decimal_chars(index as u64);
                push_all(&mut v, &d);
                Err(EditorError::InvalidOperation(string_from_chars(&v)))
            },
        }
    }

    /// Jumps to the bookmark named `name` (see `jump_to_named_outcome`).
    pub fn jump_to_named_bookmark(&mut self, name: String) -> (r: Result<()>)
        ensures
            jump_to_named_outcome(old(self)@, final(self)@, r, name@),
    {
        proof {
            use_type_invariant(&self.bookmarks);
        }
        match self.bookmarks.m.get_bookmark_by_name(name.as_str()) {
            Some(b) => {
                let position = b.position;
                match self.validate_position(position) {
                    Ok(()) => {},
                    Err(e) => return Err(e),
                }
                self.cursors.reset_to(position);
                self.selection = None;
                let mut v = chars_of("Jumped to bookmark '");
                v = then_text(v, name.as_str());
                v = then_text(v, "' at line ");
                let pc = place_chars(position);
                push_all(&mut v, &pc);
                self.status_message = string_from_chars(&v);
                Ok(())
            },
            None => {
                let mut v = chars_of("No bookmark named '");
                v = then_text(v, name.as_str());
                v = then_text(v, "'");
                Err(EditorError::InvalidOperation(string_from_chars(&v)))
            },
        }
    }

    /// Jumps to the next bookmark after the primary cursor (see `next_bookmark_outcome`).
    pub fn next_bookmark(&mut self) -> (r: Result<()>)
        ensures
            next_bookmark_outcome(old(self)@, final(self)@, r),
    {
        let from = *self.cursors.primary();
        match self.bookmarks.m.next_bookmark(from) {
            Some(b) => {
                let b = b.clone();
                self.jump_to(&b, "Next bookmark")
            },
            None => Err(invalid_operation("No bookmarks after current position")),
        }
    }

    /// Jumps to the previous bookmark before the primary cursor (see
    /// `previous_bookmark_outcome`).
    pub fn previous_bookmark(&mut self) -> (r: Result<()>)
        ensures
            previous_bookmark_outcome(old(self)@, final(self)@, r),
    {
        let from = *self.cursors.primary();
        match self.bookmarks.m.previous_bookmark(from) {
            Some(b) => {
                let b = b.clone();
                self.jump_to(&b, "Previous bookmark")
            },
            None => Err(invalid_operation("No bookmarks before current position")),
        }
    }

    /// Removes every bookmark (see `clear_bookmarks_outcome`).
    pub fn clear_all_bookmarks(&mut self) -> (r: Result<()>)
        ensures
            clear_bookmarks_outcome(old(self)@, final(self)@, r),
    {
        let count = self.bookmarks.m.bookmarks().len();
        let mut m = self.bookmarks.take();
        m.clear_all();
        self.bookmarks.put(m);
        let mut v = chars_of("Cleared ");
        let d = decimal_chars(count as u64);
        push_all(&mut v, &d);
        v = then_text(v, " bookmarks");
        self.status_message = string_from_chars(&v);
        Ok(())
    }
}


/// What `restore_from_file_state` does: `buffer` is taken over with a single cursor where
/// the file was left, pulled back into the text, and the first visible line where it was,
/// pulled back to the last line.
pub open spec fn restore_outcome(
    before: EditorView,
    after: EditorView,
    r: Result<()>,
    b: BufferView,
    state: OpenFileState,
) -> bool {
    let n = num_lines(b.text);
    let c = CursorPosition { line: state.cursor_line, column: state.cursor_column };
    &&& r is Ok
    &&& after == (EditorView {
        buffer: b,
        cursors: after.cursors,
        viewport_top: if state.viewport_top >= n { (n - 1) as usize } else { state.viewport_top },
        ..before
    })
    &&& cursors_set_to(after.cursors, seq![clamped(b, c)])
}

impl EditorState {
    /// Where the edited file was left (see `OpenFileState`); nothing for a buffer without a
    /// file.
    pub fn capture_file_state(&self) -> (r: Option<OpenFileState>)
        ensures
            match r {
                Some(fs) => {
                    &&& self@.buffer.file_path == Some(fs.path@)
                    &&& fs.cursor_line == self@.cursors[0].line
                    &&& fs.cursor_column == self@.cursors[0].column
                    &&& fs.viewport_top == self@.viewport_top
                    &&& fs.active
                },
                None => self@.buffer.file_path is None,
            },
    {
        match self.buffer.file_path() {
            Some(p) => {
                let c = *self.cursors.primary();
                Some(
                    OpenFileState {
                        path: p.clone(),
                        cursor_line: c.line,
                        cursor_column: c.column,
                        viewport_top: self.viewport_top,
                        active: true,
                    },
                )
            },
            None => None,
        }
    }

    /// Records the edited file in `session`: where it was left, that it is the active one,
    /// and that it was opened recently. A buffer without a file records nothing.
    pub fn save_session_state(&self, session: &mut Session)
        ensures
            self@.buffer.file_path is None ==> *final(session) == *old(session),
            self@.buffer.file_path matches Some(p) ==> exists|s: String|
                s@ == p && final(session).open_files@ == files_activated(
                    files_after_open(
                        old(session).open_files@,
                        s,
                        self@.cursors[0],
                        self@.viewport_top,
                    ),
                    p,
                ) && final(session).recent_files@ == recent_after_open(
                    old(session).recent_files@,
                    s,
                    old(session).recent_files_limit as nat,
                ) && final(session).recent_files_limit == old(session).recent_files_limit
                    && final(session).bookmarks == old(session).bookmarks,
    {
        match self.capture_file_state() {
            Some(fs) => {
                let ghost s = fs.path;
                let ghost files0 = session.open_files@;
                session.add_open_file(
                    fs.path.clone(),
                    CursorPosition::new(fs.cursor_line, fs.cursor_column),
                    fs.viewport_top,
                );
                let ghost files1 = session.open_files@;
                assert(files1 == files_after_open(
                    files0,
                    s,
                    self@.cursors[0],
                    self@.viewport_top,
                ));
                session.set_active_file(fs.path.as_str());
                assert(session.open_files@ =~= files_activated(files1, s@));
                session.add_to_recent_files(fs.path);
            },
            None => {},
        }
    }

    /// Takes over `buffer`, the file that `state` describes (read by the caller), and puts
    /// the cursor and the view where the file was left (see `restore_outcome`).
    pub fn restore_from_file_state(&mut self, buffer: Buffer, state: &OpenFileState) -> (r: Result<()>)
        ensures
            restore_outcome(old(self)@, final(self)@, r, buffer@, *state),
    {
        self.buffer = buffer;
        let c = CursorPosition::new(state.cursor_line, state.cursor_column);
        self.cursors.reset_to(c);
        self.viewport_top = state.viewport_top;
        let ghost b = self@.buffer;
        match self.clamp_cursors_after_edit() {
            Ok(()) => {},
            Err(e) => return Err(e),
        }
        assert(seq![c].map_values(|p: CursorPosition| clamped(b, p)) =~= seq![clamped(b, c)]);
        let line_count = self.buffer.line_count();
        proof {
            lemma_line_starts(self@.buffer.text);
        }
        if self.viewport_top >= line_count {
            self.viewport_top = line_count - 1;
        }
        Ok(())
    }
}


/// What a history browser command does: with the browser open, it takes the state `f`
/// gives; with the browser closed, the command is refused.
pub open spec fn browser_outcome(
    before: EditorView,
    after: EditorView,
    r: Result<()>,
    f: spec_fn(HistoryBrowserView) -> HistoryBrowserView,
) -> bool {
    match before.history_browser {
        None => refused_with(before, after, r, "History browser is not open"@),
        Some(v) => r is Ok && after == (EditorView { history_browser: Some(f(v)), ..before }),
    }
}

/// The browser after moving the selection to the next commit, if there is one.
pub open spec fn browser_next(v: HistoryBrowserView) -> HistoryBrowserView {
    if v.selected_index + 1 < v.commits.len() { v.select((v.selected_index + 1) as usize) } else { v }
}

/// The browser after moving the selection to the previous commit, if there is one.
pub open spec fn browser_previous(v: HistoryBrowserView) -> HistoryBrowserView {
    if v.selected_index > 0 { v.select((v.selected_index - 1) as usize) } else { v }
}

/// The browser after selecting the first commit, if there is one.
pub open spec fn browser_first(v: HistoryBrowserView) -> HistoryBrowserView {
    if v.commits.len() > 0 { v.select(0) } else { v }
}

/// The browser after selecting the last commit, if there is one.
pub open spec fn browser_last(v: HistoryBrowserView) -> HistoryBrowserView {
    if v.commits.len() > 0 { v.select((v.commits.len() - 1) as usize) } else { v }
}

/// The browser after going one page up: the selection moves up by a page, stopping at the
/// first commit.
pub open spec fn browser_page_up(v: HistoryBrowserView) -> HistoryBrowserView {
    if v.selected_index >= v.page_size {
        v.select((v.selected_index - v.page_size) as usize)
    } else if v.selected_index > 0 {
        v.select(0)
    } else {
        v
    }
}

/// The browser after going one page down: the selection moves down by a page, stopping at
/// the last commit.
pub open spec fn browser_page_down(v: HistoryBrowserView) -> HistoryBrowserView {
    if v.selected_index + v.page_size < v.commits.len() {
        v.select((v.selected_index + v.page_size) as usize)
    } else if v.selected_index + 1 < v.commits.len() {
        v.select((v.commits.len() - 1) as usize)
    } else {
        v
    }
}

/// The browser after toggling the side-by-side diff.
pub open spec fn browser_side_by_side(v: HistoryBrowserView) -> HistoryBrowserView {
    HistoryBrowserView {
        diff_view_mode: match v.diff_view_mode {
            DiffViewMode::FullDiff => DiffViewMode::SideBySide,
            DiffViewMode::FileDiff(f) => DiffViewMode::SideBySideFile(f),
            DiffViewMode::SideBySide => DiffViewMode::FullDiff,
            DiffViewMode::SideBySideFile(f) => DiffViewMode::FileDiff(f),
        },
        ..v
    }
}

/// The browser after the file list is toggled: a selected file is let go, with the full diff
/// shown again.
pub open spec fn browser_file_list(v: HistoryBrowserView) -> HistoryBrowserView {
    if v.selected_file is Some {
        HistoryBrowserView { selected_file: None, diff_view_mode: DiffViewMode::FullDiff, ..v }
    } else {
        v
    }
}

/// A browser freshly opened on `commits`.
pub open spec fn browser_on(commits: Seq<CommitInfo>) -> HistoryBrowserView {
    HistoryBrowserView {
        commits,
        selected_index: 0,
        page_size: 20,
        current_page: 0,
        selected_file: None,
        diff_view_mode: DiffViewMode::FullDiff,
        base_commit_index: None,
        search_query: None,
        filtered_indices: None,
        file_filter: None,
    }
}

/// What `history_select_commit` does: selects commit `index` when it exists.
pub open spec fn select_commit_outcome(before: EditorView, after: EditorView, r: Result<()>, index: usize) -> bool {
    match before.history_browser {
        None => refused_with(before, after, r, "History browser is not open"@),
        Some(v) => if index < v.commits.len() {
            r is Ok && after == (EditorView { history_browser: Some(v.select(index)), ..before })
        } else {
            refused_with(before, after, r, "Invalid commit index: "@ + decimal_digits(index as nat))
        },
    }
}

/// What `history_set_base_commit` does: makes commit `index`, when it exists, the base of
/// the diff, and says so.
pub open spec fn set_base_outcome(before: EditorView, after: EditorView, r: Result<()>, index: usize) -> bool {
    match before.history_browser {
        None => refused_with(before, after, r, "History browser is not open"@),
        Some(v) => if index < v.commits.len() {
            &&& r is Ok
            &&& after == (EditorView {
                history_browser: Some(HistoryBrowserView { base_commit_index: Some(index), ..v }),
                status_message: "Set base commit to index "@ + decimal_digits(index as nat),
                ..before
            })
        } else {
            refused_with(before, after, r, "Invalid commit index: "@ + decimal_digits(index as nat))
        },
    }
}

/// What `history_clear_base_commit` does.
pub open spec fn clear_base_outcome(before: EditorView, after: EditorView, r: Result<()>) -> bool {
    match before.history_browser {
        None => refused_with(before, after, r, "History browser is not open"@),
        Some(v) => {
            &&& r is Ok
            &&& after == (EditorView {
                history_browser: Some(HistoryBrowserView { base_commit_index: None, ..v }),
                status_message: "Cleared base commit"@,
                ..before
            })
        },
    }
}

impl EditorState {
    /// Whether the history browser is open.
    pub fn is_history_browser_open(&self) -> (b: bool)
        ensures
            b == (self@.history_browser is Some),
    {
        self.browser.b.is_some()
    }

    /// The history browser, when it is open.
    pub fn history_browser(&self) -> (r: Option<&HistoryBrowser>)
        ensures
            match r {
                Some(x) => self@.history_browser == Some(x@),
                None => self@.history_browser is None,
            },
    {
        match &self.browser.b {
            Some(x) => Some(x),
            None => None,
        }
    }

    /// Opens the history browser on `commits`, the history of the edited file (which the
    /// caller reads); a buffer without a file has no history.
    pub fn open_history_browser(&mut self, commits: Vec<CommitInfo>) -> (r: Result<()>)
        ensures
            old(self)@.buffer.file_path is None ==> refused_with(
                old(self)@,
                final(self)@,
                r,
                "Cannot open history browser for unsaved buffer"@,
            ),
            old(self)@.buffer.file_path is Some ==> r is Ok && final(self)@ == (EditorView {
                history_browser: Some(browser_on(commits@)),
                ..old(self)@
            }),
    {
        if self.buffer.file_path().is_none() {
            return Err(invalid_operation("Cannot open history browser for unsaved buffer"));
        }
        self.browser.put(Some(HistoryBrowser::with_commits(commits)));
        Ok(())
    }

    /// Closes the history browser.
    pub fn close_history_browser(&mut self) -> (r: Result<()>)
        ensures
            r is Ok,
            final(self)@ == (EditorView { history_browser: None, ..old(self)@ }),
    {
        self.browser.put(None);
        Ok(())
    }

    /// Selects the next commit.
    pub fn history_navigate_next(&mut self) -> (r: Result<()>)
        ensures
            browser_outcome(old(self)@, final(self)@, r, |v: HistoryBrowserView| browser_next(v)),
    {
        match self.browser.take() {
            Some(mut x) => {
                x.select_next();
                self.browser.put(Some(x));
                Ok(())
            },
            None => Err(invalid_operation("History browser is not open")),
        }
    }

    /// Selects the previous commit.
    pub fn history_navigate_previous(&mut self) -> (r: Result<()>)
        ensures
            browser_outcome(old(self)@, final(self)@, r, |v: HistoryBrowserView| browser_previous(v)),
    {
        match self.browser.take() {
            Some(mut x) => {
                x.select_previous();
                self.browser.put(Some(x));
                Ok(())
            },
            None => Err(invalid_operation("History browser is not open")),
        }
    }

    /// Selects the first commit.
    pub fn history_navigate_first(&mut self) -> (r: Result<()>)
        ensures
            browser_outcome(old(self)@, final(self)@, r, |v: HistoryBrowserView| browser_first(v)),
    {
        match self.browser.take() {
            Some(mut x) => {
                x.select_first();
                self.browser.put(Some(x));
                Ok(())
            },
            None => Err(invalid_operation("History browser is not open")),
        }
    }

    /// Selects the last commit.
    pub fn history_navigate_last(&mut self) -> (r: Result<()>)
        ensures
            browser_outcome(old(self)@, final(self)@, r, |v: HistoryBrowserView| browser_last(v)),
    {
        match self.browser.take() {
            Some(mut x) => {
                x.select_last();
                self.browser.put(Some(x));
                Ok(())
            },
            None => Err(invalid_operation("History browser is not open")),
        }
    }

    /// Moves the selection one page up.
    pub fn history_page_up(&mut self) -> (r: Result<()>)
        ensures
            browser_outcome(old(self)@, final(self)@, r, |v: HistoryBrowserView| browser_page_up(v)),
    {
        match self.browser.take() {
            Some(mut x) => {
                x.page_up();
                self.browser.put(Some(x));
                Ok(())
            },
            None => Err(invalid_operation("History browser is not open")),
        }
    }

    /// Moves the selection one page down. An open browser with no commits, or one whose
    /// selection is within a page of the largest index, is left out: paging there overflows.
    pub fn history_page_down(&mut self) -> (r: Result<()>)
        requires
            old(self)@.history_browser matches Some(v) ==> v.commits.len() > 0 && v.selected_index
                + v.page_size <= usize::MAX,
        ensures
            browser_outcome(old(self)@, final(self)@, r, |v: HistoryBrowserView| browser_page_down(v)),
    {
        match self.browser.take() {
            Some(mut x) => {
                x.page_down();
                self.browser.put(Some(x));
                Ok(())
            },
            None => Err(invalid_operation("History browser is not open")),
        }
    }

    /// Selects commit `index` (see `select_commit_outcome`).
    pub fn history_select_commit(&mut self, index: usize) -> (r: Result<()>)
        ensures
            select_commit_outcome(old(self)@, final(self)@, r, index),
    {
        match self.browser.take() {
            Some(mut x) => {
                let moved = x.select_commit(index);
                self.browser.put(Some(x));
                if moved {
                    Ok(())
                } else {
                    let mut v = chars_of("Invalid commit index: ");
                    let d = decimal_chars(index as u64);
                    push_all(&mut v, &d);
                    Err(EditorError::InvalidOperation(string_from_chars(&v)))
                }
            },
            None => Err(invalid_operation("History browser is not open")),
        }
    }

    /// Lets go of the selected file, showing the full diff again.
    pub fn history_toggle_file_list(&mut self) -> (r: Result<()>)
        ensures
            browser_outcome(old(self)@, final(self)@, r, |v: HistoryBrowserView| browser_file_list(v)),
    {
        match self.browser.take() {
            Some(mut x) => {
                if x.selected_file().is_some() {
                    x.clear_selected_file();
                }
                self.browser.put(Some(x));
                Ok(())
            },
            None => Err(invalid_operation("History browser is not open")),
        }
    }

    /// Showing the diff of the selected commit needs nothing of the editor.
    pub fn history_view_diff(&mut self) -> (r: Result<()>)
        ensures
            r is Ok,
            final(self)@ == old(self)@,
    {
        Ok(())
    }

    /// Toggles the side-by-side diff.
    pub fn history_toggle_side_by_side(&mut self) -> (r: Result<()>)
        ensures
            browser_outcome(old(self)@, final(self)@, r, |v: HistoryBrowserView| browser_side_by_side(v)),
    {
        match self.browser.take() {
            Some(mut x) => {
                x.toggle_side_by_side();
                self.browser.put(Some(x));
                Ok(())
            },
            None => Err(invalid_operation("History browser is not open")),
        }
    }

    /// Searches the commits for `query`.
    pub fn history_search(&mut self, query: &str) -> (r: Result<()>)
        ensures
            exists|q: String|
                #![trigger q@]
                q@ == query@ && browser_outcome(
                    old(self)@,
                    final(self)@,
                    r,
                    |v: HistoryBrowserView|
                        (HistoryBrowserView { search_query: Some(q), ..v }).filtered(),
                ),
    {
        let q = owned(query);
        let ghost qv = q;
        assert(qv@ == query@);
        match self.browser.take() {
            Some(mut x) => {
                x.set_search_query(Some(q));
                self.browser.put(Some(x));
                Ok(())
            },
            None => Err(invalid_operation("History browser is not open")),
        }
    }

    /// Drops the commit search.
    pub fn history_clear_search(&mut self) -> (r: Result<()>)
        ensures
            browser_outcome(
                old(self)@,
                final(self)@,
                r,
                |v: HistoryBrowserView| (HistoryBrowserView { search_query: None, ..v }).filtered(),
            ),
    {
        match self.browser.take() {
            Some(mut x) => {
                x.clear_search();
                self.browser.put(Some(x));
                Ok(())
            },
            None => Err(invalid_operation("History browser is not open")),
        }
    }

    /// Shows only the commits whose message mentions `file_pattern`.
    pub fn history_filter_by_file(&mut self, file_pattern: &str) -> (r: Result<()>)
        ensures
            exists|f: String|
                #![trigger f@]
                f@ == file_pattern@ && browser_outcome(
                    old(self)@,
                    final(self)@,
                    r,
                    |v: HistoryBrowserView|
                        (HistoryBrowserView { file_filter: Some(f), ..v }).filtered(),
                ),
    {
        let f = owned(file_pattern);
        let ghost fv = f;
        assert(fv@ == file_pattern@);
        match self.browser.take() {
            Some(mut x) => {
                x.set_file_filter(Some(f));
                self.browser.put(Some(x));
                Ok(())
            },
            None => Err(invalid_operation("History browser is not open")),
        }
    }

    /// Drops the file filter.
    pub fn history_clear_file_filter(&mut self) -> (r: Result<()>)
        ensures
            browser_outcome(
                old(self)@,
                final(self)@,
                r,
                |v: HistoryBrowserView| (HistoryBrowserView { file_filter: None, ..v }).filtered(),
            ),
    {
        match self.browser.take() {
            Some(mut x) => {
                x.clear_file_filter();
                self.browser.put(Some(x));
                Ok(())
            },
            None => Err(invalid_operation("History browser is not open")),
        }
    }

    /// Makes commit `index` the base of the diff (see `set_base_outcome`).
    pub fn history_set_base_commit(&mut self, index: usize) -> (r: Result<()>)
        ensures
            set_base_outcome(old(self)@, final(self)@, r, index),
    {
        match self.browser.take() {
            Some(mut x) => {
                let ok = x.set_base_commit(Some(index));
                self.browser.put(Some(x));
                if ok {
                    let mut v = chars_of("Set base commit to index ");
                    let d = decimal_chars(index as u64);
                    push_all(&mut v, &d);
                    self.status_message = string_from_chars(&v);
                    Ok(())
                } else {
                    let mut v = chars_of("Invalid commit index: ");
                    let d = decimal_chars(index as u64);
                    push_all(&mut v, &d);
                    Err(EditorError::InvalidOperation(string_from_chars(&v)))
                }
            },
            None => Err(invalid_operation("History browser is not open")),
        }
    }

    /// Drops the base of the diff.
    pub fn history_clear_base_commit(&mut self) -> (r: Result<()>)
        ensures
            clear_base_outcome(old(self)@, final(self)@, r),
    {
        match self.browser.take() {
            Some(mut x) => {
                x.set_base_commit(None);
                self.browser.put(Some(x));
                self.status_message = owned("Cleared base commit");
                Ok(())
            },
            None => Err(invalid_operation("History browser is not open")),
        }
    }
}


/// The first visible line after scrolling so that `line` stays at least `offset` lines away
/// from the edges of a view of `height` lines whose first line was `top`.
pub open spec fn top_with_margin(top: usize, line: usize, height: usize, offset: usize) -> usize {
    let room = height.saturating_sub(offset);
    if line < top + offset {
        line.saturating_sub(offset)
    } else if line >= top + room {
        line.saturating_sub(room).saturating_add(1)
    } else {
        top
    }
}

impl EditorState {
    /// How many lines are kept between the cursor and the edges of the view.
    pub fn scroll_offset(&self) -> (r: usize)
        ensures
            r == self@.scroll_offset,
    {
        self.scroll_offset
    }

    /// Sets how many lines are kept between the cursor and the edges of the view.
    pub fn set_scroll_offset(&mut self, offset: usize)
        ensures
            final(self)@ == (EditorView { scroll_offset: offset, ..old(self)@ }),
    {
        self.scroll_offset = offset;
    }

    /// Scrolls so that the primary cursor keeps the scroll offset away from the edges of a
    /// view `viewport_height` lines high. Where the sums of the first visible line and the
    /// margins overflow, the view is left out.
    pub fn adjust_viewport_to_cursor(&mut self, viewport_height: usize)
        requires
            old(self)@.viewport_top + old(self)@.scroll_offset <= usize::MAX,
            old(self)@.cursors[0].line >= old(self)@.viewport_top + old(self)@.scroll_offset
                ==> old(self)@.viewport_top + viewport_height.saturating_sub(old(self)@.scroll_offset)
                <= usize::MAX,
        ensures
            final(self)@ == (EditorView {
                viewport_top: top_with_margin(
                    old(self)@.viewport_top,
                    old(self)@.cursors[0].line,
                    viewport_height,
                    old(self)@.scroll_offset,
                ),
                ..old(self)@
            }),
    {
        let line = self.cursors.primary().line;
        let offset = self.scroll_offset;
        if line < self.viewport_top + offset {
            self.viewport_top = line.saturating_sub(offset);
        } else if line >= self.viewport_top + viewport_height.saturating_sub(offset) {
            self.viewport_top = line.saturating_sub(viewport_height.saturating_sub(offset)).saturating_add(1);
        }
    }

    /// The editing mode.
    pub fn mode(&self) -> (m: EditorMode)
        ensures
            m == self@.mode,
    {
        self.mode
    }

    /// Sets the editing mode.
    pub fn set_mode(&mut self, mode: EditorMode)
        ensures
            final(self)@ == (EditorView { mode, ..old(self)@ }),
    {
        self.mode = mode;
    }

    /// How searches match.
    pub fn search_options(&self) -> (o: SearchOptions)
        ensures
            o == self@.search_options,
    {
        self.search_options
    }

    /// Sets how searches match.
    pub fn set_search_options(&mut self, options: SearchOptions)
        ensures
            final(self)@ == (EditorView { search_options: options, ..old(self)@ }),
    {
        self.search_options = options;
    }

    /// Whether saving records a history commit.
    pub fn auto_commit_enabled(&self) -> (b: bool)
        ensures
            b == self@.auto_commit_enabled,
    {
        self.auto_commit_enabled
    }

    /// Turns history commits on save on or off.
    pub fn set_auto_commit_enabled(&mut self, enabled: bool)
        ensures
            final(self)@ == (EditorView { auto_commit_enabled: enabled, ..old(self)@ }),
    {
        self.auto_commit_enabled = enabled;
    }

    /// How large files are treated by the history.
    pub fn large_file_config(&self) -> (c: LargeFileConfig)
        ensures
            c == self@.large_file_config,
    {
        self.large_file_config
    }

    /// Sets how large files are treated by the history.
    pub fn set_large_file_config(&mut self, config: LargeFileConfig)
        ensures
            final(self)@ == (EditorView { large_file_config: config, ..old(self)@ }),
    {
        self.large_file_config = config;
    }
}


/// The lines `first..=last` of `t` without the line feeds they end with, or the error for
/// the first of them that does not exist.
pub open spec fn line_bodies(t: Seq<char>, first: int, last: int) -> core::result::Result<
    Seq<Seq<char>>,
    EditorError,
> {
    let n = num_lines(t);
    if last >= n {
        Err(position_error((if first >= n { first } else { n as int }) as usize, 0))
    } else {
        Ok(Seq::new((last - first + 1) as nat, |k: int| trim_newlines(line_text(t, first + k))))
    }
}

/// `b` with line `first + k` replaced by `contents[k]`, for `k` below `count` in turn (see
/// `replace_line_result`); on a failure, the buffer as far as the replacements got.
pub open spec fn replace_lines_from(
    b: BufferView,
    first: int,
    contents: Seq<Seq<char>>,
    count: nat,
) -> core::result::Result<BufferView, (BufferView, EditorError)>
    decreases count,
{
    if count == 0 {
        Ok(b)
    } else {
        match replace_lines_from(b, first, contents, (count - 1) as nat) {
            Ok(b1) => replace_line_result(b1, (first + count - 1) as usize, contents[count - 1]),
            Err(x) => Err(x),
        }
    }
}

/// What `sort_lines` does: with the cursors on two lines or more, the lines from the first
/// cursor's to the last cursor's are put in the order of strings, each line replaced in
/// turn by the line that comes there.
pub open spec fn sort_outcome(before: EditorView, after: EditorView, r: Result<()>) -> bool {
    let first = before.cursors[0].line;
    let last = before.cursors.last().line;
    if first == last {
        r is Ok && after == before
    } else {
        match line_bodies(before.buffer.text, first as int, last as int) {
            Err(e) => r == Err::<(), EditorError>(e) && after == before,
            Ok(bodies) => exists|s: Seq<Seq<char>>|
                #![trigger sorted_lines(s)]
                sorted_lines(s) && s.to_multiset() == bodies.to_multiset() && match replace_lines_from(
                    before.buffer,
                    first as int,
                    s,
                    s.len(),
                ) {
                    Ok(b) => r is Ok && after == (EditorView { buffer: b, ..before }),
                    Err((b, e)) => r == Err::<(), EditorError>(e) && after == (EditorView {
                        buffer: b,
                        ..before
                    }),
                },
        }
    }
}

/// The lines a sort works on: `None` when the cursors are on a single line, else the first
/// cursor's line and the lines from it to the last cursor's, without the line feeds they
/// end with (or the error for the first that does not exist).
pub open spec fn sort_range_result(v: EditorView) -> core::result::Result<
    Option<(usize, Seq<Seq<char>>)>,
    EditorError,
> {
    let first = v.cursors[0].line;
    let last = v.cursors.last().line;
    if first == last {
        Ok(None)
    } else {
        match line_bodies(v.buffer.text, first as int, last as int) {
            Ok(bodies) => Ok(Some((first, bodies))),
            Err(e) => Err(e),
        }
    }
}

/// What `replace_lines` does: line `first + k` is replaced by `contents[k]`, in turn.
pub open spec fn replace_lines_outcome(
    before: EditorView,
    after: EditorView,
    r: Result<()>,
    first: usize,
    contents: Seq<Seq<char>>,
) -> bool {
    match replace_lines_from(before.buffer, first as int, contents, contents.len()) {
        Ok(b) => r is Ok && after == (EditorView { buffer: b, ..before }),
        Err((b, e)) => r == Err::<(), EditorError>(e) && after == (EditorView { buffer: b, ..before }),
    }
}

impl EditorState {
    /// The first and last cursor lines, the first before the last when they differ.
    fn cursor_line_span(&self) -> (r: (usize, usize))
        ensures
            r.0 == self@.cursors[0].line,
            r.1 == self@.cursors.last().line,
            r.0 <= r.1,
    {
        let positions = self.cursors.positions();
        let n = positions.len();
        proof {
            if n > 1 {
                assert(pos_lt(positions@[0], positions@[n - 1]));
            }
        }
        (positions[0].line, positions[n - 1].line)
    }

    /// Lines `first..=last` without the line feeds they end with (see `line_bodies`).
    fn line_bodies_chars(&self, first: usize, last: usize) -> (r: Result<Vec<Vec<char>>>)
        requires
            first <= last,
        ensures
            match line_bodies(self@.buffer.text, first as int, last as int) {
                Ok(bodies) => r matches Ok(v) && views_of(v@) == bodies,
                Err(e) => r == Err::<Vec<Vec<char>>, EditorError>(e),
            },
    {
        let ghost t = self@.buffer.text;
        let mut bodies: Vec<Vec<char>> = Vec::new();
        let mut line = first;
        loop
            invariant_except_break
                bodies@.len() == line - first,
            invariant
                first <= line <= last,
                t == self@.buffer.text,
                forall|k: int| 0 <= k < bodies@.len() ==> (#[trigger] bodies@[k])@ == trim_newlines(line_text(t, first + k)),
                line > first ==> line - 1 < num_lines(t),
            ensures
                bodies@.len() == last - first + 1,
                last < num_lines(t),
            decreases last - line,
        {
            let text = match self.buffer.line(line) {
                Ok(x) => x,
                Err(e) => {
                    proof {
                        lemma_line_starts(t);
                    }
                    return Err(e);
                },
            };
            let chars = chars_of(text.as_str());
            bodies.push(trim_newline_chars(&chars));
            if line == last {
                break;
            }
            line += 1;
        }
        assert(views_of(bodies@) =~= Seq::new((last - first + 1) as nat, |k: int| trim_newlines(line_text(t, first + k))));
        Ok(bodies)
    }

    /// Replaces line `first + k` by `contents[k]`, in turn (see `replace_lines_outcome`).
    pub fn replace_lines(&mut self, first: usize, contents: &[String]) -> (r: Result<()>)
        requires
            first + contents@.len() <= usize::MAX + 1,
        ensures
            replace_lines_outcome(old(self)@, final(self)@, r, first, string_views(contents@)),
    {
        let count = contents.len();
        let ghost s = string_views(contents@);
        let mut k: usize = 0;
        while k < count
            invariant
                count == contents@.len() == s.len(),
                first + count <= usize::MAX + 1,
                k <= count,
                s == string_views(contents@),
                replace_lines_from(old(self)@.buffer, first as int, s, k as nat) == Ok::<
                    BufferView,
                    (BufferView, EditorError),
                >(self@.buffer),
                self@ == (EditorView { buffer: self@.buffer, ..old(self)@ }),
            decreases count - k,
        {
            match self.replace_line(first + k, contents[k].as_str()) {
                Ok(()) => {},
                Err(e) => {
                    proof {
                        lemma_replace_lines_stops(old(self)@.buffer, first as int, s, (k + 1) as nat, count as nat);
                    }
                    return Err(e);
                },
            }
            k += 1;
        }
        Ok(())
    }

    /// The lines a sort works on (see `sort_range_result`), as strings.
    pub fn sort_range_bodies(&self) -> (r: Result<Option<(usize, Vec<String>)>>)
        ensures
            match sort_range_result(self@) {
                Ok(None) => r matches Ok(None),
                Ok(Some((first, bodies))) => r matches Ok(Some((f, v))) && f == first
                    && string_views(v@) == bodies,
                Err(e) => r == Err::<Option<(usize, Vec<String>)>, EditorError>(e),
            },
    {
        let (first, last) = self.cursor_line_span();
        if first == last {
            return Ok(None);
        }
        let bodies = match self.line_bodies_chars(first, last) {
            Ok(b) => b,
            Err(e) => return Err(e),
        };
        let mut out: Vec<String> = Vec::new();
        let mut k: usize = 0;
        while k < bodies.len()
            invariant
                k <= bodies@.len(),
                string_views(out@) == views_of(bodies@).take(k as int),
            decreases bodies@.len() - k,
        {
            out.push(string_from_chars(&bodies[k]));
            proof {
                assert(views_of(bodies@).take(k + 1) =~= views_of(bodies@).take(k as int).push(bodies@[k as int]@));
                assert(string_views(out@) =~= string_views(out@.drop_last()).push(out@.last()@));
            }
            k += 1;
        }
        assert(views_of(bodies@).take(bodies@.len() as int) =~= views_of(bodies@));
        Ok(Some((first, out)))
    }

    /// Sorts the lines from the first cursor's to the last cursor's in the order of strings
    /// (see `sort_outcome`). Sorting by numeric value compares floating-point numbers and is
    /// left to the caller, which can use `sort_range_bodies` and `replace_lines`.
    pub fn sort_lines(&mut self) -> (r: Result<()>)
        ensures
            sort_outcome(old(self)@, final(self)@, r),
    {
        let (first, last) = self.cursor_line_span();
        if first == last {
            return Ok(());
        }
        let bodies = match self.line_bodies_chars(first, last) {
            Ok(b) => b,
            Err(e) => return Err(e),
        };
        let ghost expected = views_of(bodies@);
        let sorted = sort_char_lines(bodies);
        let count = sorted.len();
        let ghost s = views_of(sorted@);
        proof {
            vstd::seq_lib::to_multiset_len(s);
            vstd::seq_lib::to_multiset_len(expected);
        }
        let mut k: usize = 0;
        while k < count
            invariant
                count == sorted@.len() == s.len(),
                k <= count,
                s == views_of(sorted@),
                first + count - 1 == last,
                first < last,
                first == old(self)@.cursors[0].line,
                last == old(self)@.cursors.last().line,
                sorted_lines(s),
                s.to_multiset() == expected.to_multiset(),
                line_bodies(old(self)@.buffer.text, first as int, last as int) == Ok::<
                    Seq<Seq<char>>,
                    EditorError,
                >(expected),
                replace_lines_from(old(self)@.buffer, first as int, s, k as nat) == Ok::<
                    BufferView,
                    (BufferView, EditorError),
                >(self@.buffer),
                self@ == (EditorView { buffer: self@.buffer, ..old(self)@ }),
            decreases count - k,
        {
            let new_text = string_from_chars(&sorted[k]);
            match self.replace_line(first + k, new_text.as_str()) {
                Ok(()) => {},
                Err(e) => {
                    proof {
                        lemma_replace_lines_stops(old(self)@.buffer, first as int, s, (k + 1) as nat, count as nat);
                    }
                    return Err(e);
                },
            }
            k += 1;
        }
        Ok(())
    }
}

/// Once a replacement fails, the later ones are not made and the failure stands.
pub proof fn lemma_replace_lines_stops(b: BufferView, first: int, s: Seq<Seq<char>>, k: nat, n: nat)
    requires
        k <= n,
        replace_lines_from(b, first, s, k) is Err,
    ensures
        replace_lines_from(b, first, s, n) == replace_lines_from(b, first, s, k),
    decreases n - k,
{
    if k < n {
        lemma_replace_lines_stops(b, first, s, k, (n - 1) as nat);
    }
}


/// Line `line` of `t` starts with a tab.
pub open spec fn line_starts_with_tab(t: Seq<char>, line: int) -> bool {
    line_start(t, line) < t.len() && t[line_start(t, line)] == '\t'
}

/// Dedenting a line right after indenting it gives the text back: the four spaces that
/// indenting puts in front are the four characters dedenting takes away. A line that
/// starts with a tab is left out: after the four spaces comes the tab, and dedenting then
/// takes away a single character.
pub proof fn lemma_dedent_after_indent(b: BufferView, line: usize)
    requires
        line < num_lines(b.text),
        !line_starts_with_tab(b.text, line as int),
    ensures
        b.insert_str_result(line, 0, indent_unit()) matches Ok(b1) && b1.line_result(line) matches Ok(t)
            && dedent_count(t) == 4 && b1.delete_range_result(line, 0, line, 4) == Ok::<
            BufferView,
            EditorError,
        >(b.edited(b.text)),
{
    let s = b.text;
    let u = indent_unit();
    crate::lines::lemma_insert_at_line_start(s, line as int, u);
    let p = line_start(s, line as int);
    let s2 = s.take(p) + u + s.skip(p);
    let b1 = b.edited(s2);
    assert(b.insert_str_result(line, 0, u) == Ok::<BufferView, EditorError>(b1)) by {
        lemma_line_starts(s);
    }
    let t = line_text(s2, line as int);
    assert(t.len() >= 4 && t[0] == ' ' && t[1] == ' ' && t[2] == ' ' && t[3] == ' ' && (t.len()
        > 4 ==> p < s.len() && t[4] == s[p])) by {
        lemma_line_starts(s);
        lemma_line_starts(s2);
    }
    assert(dedent_count(t) == 4) by {
        if t.len() > 4 {
            assert(t[4] != '\t');
        }
        reveal_with_fuel(dedent_count_from, 6);
    }
    assert(b1.valid(line, 4) && b1.index(line, 0) == p && b1.index(line, 4) == p + 4) by {
        lemma_line_starts(s2);
    }
    assert(s2.take(p) + s2.skip(p + 4) =~= s) by {
        lemma_line_starts(s);
    }
}


/// With a single cursor on a line of the text that does not start with a tab, dedenting
/// right after indenting gives the text back.
pub proof fn lemma_dedent_undoes_indent(
    v0: EditorView,
    v1: EditorView,
    v2: EditorView,
    r1: Result<()>,
    r2: Result<()>,
)
    requires
        v0.cursors.len() == 1,
        v0.cursors[0].line < num_lines(v0.buffer.text),
        !line_starts_with_tab(v0.buffer.text, v0.cursors[0].line as int),
        indent_outcome(v0, v1, r1),
        dedent_outcome(v1, v2, r2),
    ensures
        r1 is Ok,
        r2 is Ok,
        v2.buffer.text == v0.buffer.text,
{
    let p = v0.cursors[0];
    let line = p.line;
    lemma_dedent_after_indent(v0.buffer, line);
    let b1 = v0.buffer.insert_str_result(line, 0, indent_unit())->Ok_0;
    assert(v0.cursors.drop_last() =~= Seq::<CursorPosition>::empty());
    assert(indent_lines_all(v0.buffer, v0.cursors) == Ok::<BufferView, (BufferView, EditorError)>(b1)) by {
        assert(indent_lines_all(v0.buffer, v0.cursors.drop_last()) == Ok::<
            BufferView,
            (BufferView, EditorError),
        >(v0.buffer));
        assert(v0.cursors.last() == p);
    }
    assert(line < num_lines(b1.text)) by {
        assert(b1.line_result(line) is Ok);
    }
    let q = indented_cursor(b1, p)->Ok_0;
    let f = |i: int, x: CursorPosition| indented_cursor(b1, x);
    assert(map_results(v0.cursors, f) == Ok::<Seq<CursorPosition>, EditorError>(seq![q])) by {
        assert(map_results(v0.cursors.drop_last(), f) == Ok::<Seq<CursorPosition>, EditorError>(
            Seq::empty(),
        ));
        assert(Seq::<CursorPosition>::empty().push(q) =~= seq![q]);
    }
    assert(v1.cursors == seq![q]) by {
        if v1.cursors != seq![q] {
            crate::cursor::lemma_sorted_positions_unique(v1.cursors, seq![q]);
        }
    }
    assert(v1.buffer == b1);
    assert(q.line == line);
    let t = b1.line_result(line)->Ok_0;
    assert(v1.cursors.drop_last() =~= Seq::<CursorPosition>::empty());
    let b2 = v0.buffer.edited(v0.buffer.text);
    assert(dedent_lines_all(v1.buffer, v1.cursors) == Ok::<
        (BufferView, Seq<nat>),
        (BufferView, EditorError),
    >((b2, seq![4nat]))) by {
        assert(dedent_lines_all(v1.buffer, v1.cursors.drop_last()) == Ok::<
            (BufferView, Seq<nat>),
            (BufferView, EditorError),
        >((v1.buffer, Seq::empty())));
        assert(Seq::<nat>::empty().push(4) =~= seq![4nat]);
    }
    let amounts = seq![4nat];
    let g = |i: int, x: CursorPosition| dedented_cursor(b2, x, amounts[i]);
    assert(map_results(v1.cursors, g) is Ok) by {
        assert(map_results(v1.cursors.drop_last(), g) == Ok::<Seq<CursorPosition>, EditorError>(
            Seq::empty(),
        ));
        assert(b2.line_len_result(q.line) is Ok);
    }
}


/// An edit at a single cursor is the edit at that cursor.
proof fn lemma_edit_all_single(b: BufferView, ov: bool, e: EditAt, p: CursorPosition)
    ensures
        edit_all(b, ov, e, seq![p]) == match edit_result(b, ov, e, p) {
            Ok((b2, q)) => Ok::<(BufferView, Seq<CursorPosition>), (BufferView, EditorError)>(
                (b2, seq![q]),
            ),
            Err(x) => Err(x),
        },
{
    assert(seq![p].drop_last() =~= Seq::<CursorPosition>::empty());
    assert(edit_all(b, ov, e, seq![p].drop_last()) == Ok::<
        (BufferView, Seq<CursorPosition>),
        (BufferView, EditorError),
    >((b, Seq::empty())));
    assert(forall|q: CursorPosition| Seq::<CursorPosition>::empty().push(q) =~= seq![q]);
}

/// Cursors set to a single position are that position.
proof fn lemma_cursors_set_single(c: Seq<CursorPosition>, q: CursorPosition)
    requires
        cursors_set_to(c, seq![q]),
    ensures
        c == seq![q],
{
    crate::cursor::lemma_sorted_positions_unique(c, seq![q]);
}

/// Typing `ch`, no line break, at a place `p` outside overwrite mode puts `ch` at the
/// character index of `p`, which then still names that index.
proof fn lemma_typed_char(b: BufferView, p: CursorPosition, ch: char)
    requires
        b.text.len() < usize::MAX,
        position_in(b, p),
        !is_line_break(ch),
    ensures
        ({
            let i = b.index(p.line, p.column);
            let b1 = b.edited(b.text.insert(i, ch));
            &&& p.column + 1 <= usize::MAX
            &&& 0 <= i <= b.text.len()
            &&& edit_result(b, false, EditAt::InsertChar(ch), p) == Ok::<
                (BufferView, CursorPosition),
                (BufferView, EditorError),
            >((b1, CursorPosition { line: p.line, column: (p.column + 1) as usize }))
            &&& b1.valid(p.line, p.column)
            &&& b1.index(p.line, p.column) == i
            &&& i < b1.text.len()
        }),
{
    let s = b.text;
    let i = b.index(p.line, p.column);
    assert(0 <= i <= s.len() && p.column <= i) by {
        crate::lines::lemma_index_of_valid(s, p.line as int, p.column as int);
        lemma_line_starts(s);
    }
    crate::lines::lemma_insert_within_line(s, p.line as int, p.column as int, seq![ch]);
    assert(s.take(i) + seq![ch] + s.skip(i) =~= s.insert(i, ch));
}

/// The edits of typing and then backspace, whatever the history holds, give the text back.
proof fn lemma_backspace_after_insert(
    v0: EditorView,
    v1: EditorView,
    v2: EditorView,
    ch: char,
    r1: Result<()>,
    r2: Result<()>,
)
    requires
        v0.cursors.len() == 1,
        v0.buffer.text.len() < usize::MAX,
        position_in(v0.buffer, v0.cursors[0]),
        !v0.overwrite_mode,
        !is_line_break(ch),
        edit_outcome(v0, v1, r1, EditAt::InsertChar(ch)),
        edit_outcome(v1, v2, r2, EditAt::Backspace),
    ensures
        r1 is Ok,
        r2 is Ok,
        v2.buffer.text == v0.buffer.text,
{
    let p = v0.cursors[0];
    let s = v0.buffer.text;
    let i = v0.buffer.index(p.line, p.column);
    lemma_typed_char(v0.buffer, p, ch);
    let b1 = v0.buffer.edited(s.insert(i, ch));
    let q = CursorPosition { line: p.line, column: (p.column + 1) as usize };
    assert(v0.cursors.reverse() =~= seq![p]);
    lemma_edit_all_single(v0.buffer, false, EditAt::InsertChar(ch), p);
    lemma_cursors_set_single(v1.cursors, q);
    assert(v1.cursors.reverse() =~= seq![q]);
    lemma_edit_all_single(v1.buffer, false, EditAt::Backspace, q);
    assert(s.insert(i, ch).remove(i) =~= s);
}


/// Toggling a bookmark twice where there was none leaves the bookmarks as they were (the
/// name index pointing, as it always does, at bookmarks of the list).
pub proof fn lemma_toggle_bookmark_twice(
    v0: EditorView,
    v1: EditorView,
    v2: EditorView,
    r1: Result<()>,
    r2: Result<()>,
)
    requires
        v0.cursors.len() > 0,
        v0.bookmarks.len() < usize::MAX,
        none_at(v0.bookmarks, v0.cursors[0]),
        forall|k: Seq<char>| #[trigger] v0.bookmark_names.contains_key(k) ==> v0.bookmark_names[k]
            < v0.bookmarks.len(),
        toggle_bookmark_outcome(v0, v1, r1),
        toggle_bookmark_outcome(v1, v2, r2),
    ensures
        r1 is Ok <==> r2 is Ok,
        v2.bookmarks == v0.bookmarks,
        v2.bookmark_names == v0.bookmark_names,
{
    let p = v0.cursors[0];
    if position_in(v0.buffer, p) {
        let n = v0.bookmarks.len();
        let nb = Bookmark { position: p, name: None };
        assert(v1.bookmarks == v0.bookmarks.push(nb));
        assert(v1.cursors == v0.cursors && v1.buffer == v0.buffer);
        assert(is_first_at(v1.bookmarks, p, n as int));
        assert(!none_at(v1.bookmarks, p)) by {
            assert(v1.bookmarks[n as int].position == p);
        }
        assert(v2.bookmarks == v1.bookmarks.remove(n as int));
        assert(v1.bookmarks.remove(n as int) =~= v0.bookmarks);
        assert(v1.bookmark_names == v0.bookmark_names);
        assert(name_text(v1.bookmarks[n as int]) is None);
        let m = v0.bookmark_names;
        assert(v2.bookmark_names == names_after_removal(m, None, n as usize));
        assert forall|k: Seq<char>| #[trigger] m.contains_key(k) implies names_after_removal(
            m,
            None,
            n as usize,
        )[k] == m[k] by {
            assert(m[k] < n);
        }
        assert(names_after_removal(m, None, n as usize) =~= m);
    }
}


/// Joining pieces after the last one grew by `e` is joining them and then adding `e`.
proof fn lemma_joined_grow_last(ls: Seq<Seq<char>>, sep: char, e: Seq<char>)
    requires
        ls.len() >= 1,
    ensures
        joined(ls.update(ls.len() - 1, ls.last() + e), sep) == joined(ls, sep) + e,
{
    let l2 = ls.update(ls.len() - 1, ls.last() + e);
    if ls.len() >= 2 {
        assert(l2.drop_last() =~= ls.drop_last());
        assert(joined(ls, sep) == joined(ls.drop_last(), sep) + seq![sep] + ls.last());
        assert(joined(l2, sep) == joined(l2.drop_last(), sep) + seq![sep] + l2.last());
        assert(joined(l2, sep) =~= joined(ls, sep) + e);
    }
}

/// Joining one more piece adds the separator and the piece.
proof fn lemma_joined_push(ls: Seq<Seq<char>>, sep: char, e: Seq<char>)
    requires
        ls.len() >= 1,
    ensures
        joined(ls.push(e), sep) == joined(ls, sep) + seq![sep] + e,
{
    assert(ls.push(e).drop_last() =~= ls);
}

/// Joining the pieces of `t` cut at `sep` gives `t` back.
pub proof fn lemma_joined_split(t: Seq<char>, sep: char)
    ensures
        joined(split_on(t, sep), sep) == t,
    decreases t.len(),
{
    if t.len() > 0 {
        let t1 = t.drop_last();
        lemma_joined_split(t1, sep);
        crate::text::lemma_split_on_nonempty(t1, sep);
        let p = split_on(t1, sep);
        if t.last() == sep {
            lemma_joined_push(p, sep, Seq::empty());
            assert(t =~= t1 + seq![sep] + Seq::<char>::empty());
        } else {
            assert(p.last().push(t.last()) =~= p.last() + seq![t.last()]);
            lemma_joined_grow_last(p, sep, seq![t.last()]);
            assert(t =~= t1 + seq![t.last()]);
        }
    }
}

/// Cutting `x + e` at `sep`, where `e` holds no `sep`, cuts `x` and adds `e` to the last
/// piece.
proof fn lemma_split_append(x: Seq<char>, e: Seq<char>, sep: char)
    requires
        !e.contains(sep),
    ensures
        split_on(x + e, sep) == split_on(x, sep).update(
            split_on(x, sep).len() - 1,
            split_on(x, sep).last() + e,
        ),
    decreases e.len(),
{
    crate::text::lemma_split_on_nonempty(x, sep);
    let p = split_on(x, sep);
    if e.len() == 0 {
        assert(x + e =~= x);
        assert(p.update(p.len() - 1, p.last() + e) =~= p);
    } else {
        let e1 = e.drop_last();
        assert(!e1.contains(sep)) by {
            if e1.contains(sep) {
                let k = choose|k: int| 0 <= k < e1.len() && e1[k] == sep;
                assert(e[k] == sep);
            }
        }
        lemma_split_append(x, e1, sep);
        assert((x + e).drop_last() =~= x + e1);
        assert((x + e).last() == e.last());
        assert(e.last() != sep) by {
            assert(e[e.len() - 1] == e.last());
        }
        let q = split_on(x + e1, sep);
        assert(q == p.update(p.len() - 1, p.last() + e1));
        assert(q.update(q.len() - 1, q.last().push(e.last())) =~= p.update(
            p.len() - 1,
            p.last() + e,
        )) by {
            assert(p.last() + e1 + seq![e.last()] =~= p.last() + e);
            assert((p.last() + e1).push(e.last()) =~= p.last() + e1 + seq![e.last()]);
        }
    }
}

/// Cutting at `sep` the pieces joined by `sep`, none of which holds `sep`, gives the pieces
/// back.
pub proof fn lemma_split_joined(ls: Seq<Seq<char>>, sep: char)
    requires
        ls.len() >= 1,
        forall|i: int| 0 <= i < ls.len() ==> !(#[trigger] ls[i]).contains(sep),
    ensures
        split_on(joined(ls, sep), sep) == ls,
    decreases ls.len(),
{
    if ls.len() == 1 {
        lemma_split_append(Seq::empty(), ls[0], sep);
        assert(Seq::<char>::empty() + ls[0] =~= ls[0]);
        assert(split_on(Seq::<char>::empty(), sep) == seq![Seq::<char>::empty()]);
        assert(seq![Seq::<char>::empty()].update(0, Seq::<char>::empty() + ls[0]) =~= ls);
    } else {
        let l1 = ls.drop_last();
        lemma_split_joined(l1, sep);
        let a = joined(l1, sep);
        let x = a + seq![sep];
        assert(joined(ls, sep) == x + ls.last());
        assert(x.drop_last() =~= a);
        assert(split_on(x, sep) == split_on(a, sep).push(Seq::empty()));
        lemma_split_append(x, ls.last(), sep);
        assert(split_on(a, sep).push(Seq::empty()).update(l1.len() as int, Seq::<char>::empty() + ls.last())
            =~= ls);
    }
}

/// Pieces without line breaks, joined by line feeds, make a text whose only line breaks are
/// line feeds.
proof fn lemma_joined_lf_only(ls: Seq<Seq<char>>)
    requires
        forall|i: int| 0 <= i < ls.len() ==> no_breaks(#[trigger] ls[i]),
    ensures
        lf_only(joined(ls, '\n')),
    decreases ls.len(),
{
    if ls.len() >= 2 {
        lemma_joined_lf_only(ls.drop_last());
        let a = joined(ls.drop_last(), '\n');
        let j = joined(ls, '\n');
        assert(j == a + seq!['\n'] + ls.last());
        assert(no_breaks(ls[ls.len() - 1]));
        assert forall|i: int| 0 <= i < j.len() && is_line_break(#[trigger] j[i]) implies j[i] == '\n' by {
            if i < a.len() {
                assert(j[i] == a[i]);
            } else if i > a.len() {
                assert(j[i] == ls.last()[i - a.len() - 1]);
            }
        }
    } else if ls.len() == 1 {
        assert(no_breaks(ls[0]));
    }
}


/// In a text whose line breaks are line feeds, the lines without their line feeds are the
/// pieces of the text cut at line feeds.
#[verifier::spinoff_prover]
#[verifier::rlimit(40)]
pub proof fn lemma_trimmed_lines_lf(t: Seq<char>)
    requires
        lf_only(t),
    ensures
        trimmed_lines(t) == split_on(t, '\n'),
    decreases t.len(),
{
    if t.len() == 0 {
        lemma_line_starts(t);
        assert(num_lines(t) == 1) by {
            assert(crate::lines::line_starts(t) == seq![0int]);
        }
        assert(line_text(t, 0) =~= Seq::<char>::empty());
        assert(trimmed_lines(t) =~= seq![Seq::<char>::empty()]);
    } else {
        let t1 = t.drop_last();
        let c = t.last();
        assert(t1.push(c) =~= t);
        crate::lines::lemma_lf_starts_push(t1, c);
        lemma_trimmed_lines_lf(t1);
        lemma_line_starts(t1);
        lemma_line_starts(t);
        let ls1 = crate::lines::line_starts(t1);
        let n1 = ls1.len();
        let p = split_on(t1, '\n');
        assert(p.len() == n1);
        assert forall|i: int| 0 <= i < n1 - 1 implies #[trigger] line_text(t, i) == line_text(t1, i) by {
            assert(line_start(t, i) == line_start(t1, i));
            assert(line_start(t, i + 1) == line_start(t1, i + 1));
            assert(line_text(t, i) =~= line_text(t1, i));
        }
        let last = line_text(t1, n1 - 1);
        assert(line_start(t, n1 - 1) == line_start(t1, n1 - 1));
        if c == '\n' {
            assert(line_text(t, n1 - 1) =~= last.push('\n'));
            assert(trim_newlines(last.push('\n')) == trim_newlines(last)) by {
                assert(last.push('\n').drop_last() =~= last);
            }
            assert(line_text(t, n1 as int) =~= Seq::<char>::empty());
            assert(trimmed_lines(t) =~= p.push(Seq::empty()));
        } else {
            assert(line_text(t, n1 - 1) =~= last.push(c));
            assert(trim_newlines(last) == last) by {
                if last.len() > 0 && last.last() == '\n' {
                    assert(t1[t1.len() - 1] == '\n');
                    assert(crate::lines::starts_line(t1, t1.len() as int));
                    crate::lines::lemma_starts_upto_shape(t1, t1.len());
                    assert(ls1.last() == t1.len());
                    assert(false);
                }
            }
            assert(trim_newlines(last.push(c)) == last.push(c)) by {
                assert(last.push(c).last() == c);
            }
            assert(trimmed_lines(t) =~= p.update(p.len() - 1, p.last().push(c)));
        }
    }
}


/// The pieces of a text whose line breaks are line feeds, cut at line feeds, hold no line
/// break.
proof fn lemma_split_lf_pieces(t: Seq<char>)
    requires
        lf_only(t),
    ensures
        forall|i: int| 0 <= i < split_on(t, '\n').len() ==> no_breaks(#[trigger] split_on(t, '\n')[i]),
    decreases t.len(),
{
    if t.len() > 0 {
        let t1 = t.drop_last();
        assert(lf_only(t1)) by {
            assert forall|i: int| 0 <= i < t1.len() && is_line_break(#[trigger] t1[i]) implies t1[i]
                == '\n' by {
                assert(t[i] == t1[i]);
            }
        }
        lemma_split_lf_pieces(t1);
        crate::text::lemma_split_on_nonempty(t1, '\n');
        let p = split_on(t1, '\n');
        let c = t.last();
        if c != '\n' {
            assert(!is_line_break(c)) by {
                assert(t[t.len() - 1] == c);
            }
            let q = p.update(p.len() - 1, p.last().push(c));
            assert forall|i: int| 0 <= i < q.len() implies no_breaks(#[trigger] q[i]) by {
                if i == q.len() - 1 {
                    assert(no_breaks(p[i]));
                    assert forall|j: int| 0 <= j < q[i].len() implies !is_line_break(#[trigger] q[i][j]) by {
                        if j < p[i].len() {
                            assert(q[i][j] == p[i][j]);
                        }
                    }
                } else {
                    assert(q[i] == p[i]);
                }
            }
        } else {
            let q = p.push(Seq::<char>::empty());
            assert forall|i: int| 0 <= i < q.len() implies no_breaks(#[trigger] q[i]) by {
                if i < p.len() {
                    assert(q[i] == p[i]);
                }
            }
        }
    }
}

/// With a single cursor on a line other than the first, in a text whose line breaks are line
/// feeds, moving the line down right after moving it up gives the text back.
pub proof fn lemma_move_down_undoes_move_up(
    v0: EditorView,
    v1: EditorView,
    v2: EditorView,
    r1: Result<()>,
    r2: Result<()>,
)
    requires
        v0.cursors.len() == 1,
        0 < v0.cursors[0].line < num_lines(v0.buffer.text) <= usize::MAX,
        lf_only(v0.buffer.text),
        move_up_outcome(v0, v1, r1),
        move_down_outcome(v1, v2, r2),
    ensures
        v2.buffer.text == v0.buffer.text,
{
    let t = v0.buffer.text;
    let p = v0.cursors[0];
    let l = p.line as int;
    lemma_trimmed_lines_lf(t);
    lemma_split_lf_pieces(t);
    let ls = trimmed_lines(t);
    assert(ls.len() == num_lines(t));
    let up = swap_lines(ls, l - 1, l);
    assert(lines_moved_up(ls, v0.cursors) == up) by {
        assert(v0.cursors.drop_last() =~= Seq::<CursorPosition>::empty());
        assert(lines_moved_up(ls, v0.cursors.drop_last()) == ls);
    }
    let t1 = joined(up, '\n');
    assert(forall|i: int| 0 <= i < up.len() ==> no_breaks(#[trigger] up[i])) by {
        assert forall|i: int| 0 <= i < up.len() implies no_breaks(#[trigger] up[i]) by {
            if i == l - 1 {
                assert(up[i] == ls[l]);
            } else if i == l {
                assert(up[i] == ls[l - 1]);
            } else {
                assert(up[i] == ls[i]);
            }
        }
    }
    crate::editor::lemma_joined_lf_only(up);
    assert(forall|i: int| 0 <= i < up.len() ==> !(#[trigger] up[i]).contains('\n')) by {
        assert forall|i: int| 0 <= i < up.len() implies !(#[trigger] up[i]).contains('\n') by {
            assert(no_breaks(up[i]));
            if up[i].contains('\n') {
                let k = choose|k: int| 0 <= k < up[i].len() && up[i][k] == '\n';
                assert(is_line_break(up[i][k]));
            }
        }
    }
    lemma_split_joined(up, '\n');
    lemma_trimmed_lines_lf(t1);
    assert(trimmed_lines(t1) == up);
    assert(num_lines(t1) == ls.len());
    let b1 = v0.buffer.edited(t1);
    assert(v1.buffer == b1);
    let q = clamped(b1, one_line_up(p));
    assert(v0.cursors.map_values(|x: CursorPosition| clamped(b1, one_line_up(x))) =~= seq![q]);
    lemma_cursors_set_single(v1.cursors, q);
    assert(q.line == l - 1);
    assert(v1.cursors.last() == q);
    assert(v1.cursors.reverse() =~= seq![q]);
    let down = swap_lines(up, l - 1, l);
    assert(lines_moved_down(trimmed_lines(t1), v1.cursors.reverse()) == down) by {
        assert(seq![q].drop_last() =~= Seq::<CursorPosition>::empty());
        assert(lines_moved_down(up, seq![q].drop_last()) == up);
    }
    assert(down =~= ls);
    lemma_joined_split(t, '\n');
}


/// No piece of a text cut at `sep` holds `sep`.
proof fn lemma_split_pieces_no_sep(t: Seq<char>, sep: char)
    ensures
        forall|i: int| 0 <= i < split_on(t, sep).len() ==> !(#[trigger] split_on(t, sep)[i]).contains(sep),
    decreases t.len(),
{
    if t.len() > 0 {
        let t1 = t.drop_last();
        lemma_split_pieces_no_sep(t1, sep);
        crate::text::lemma_split_on_nonempty(t1, sep);
        let p = split_on(t1, sep);
        let c = t.last();
        if c != sep {
            let q = p.update(p.len() - 1, p.last().push(c));
            assert forall|i: int| 0 <= i < q.len() implies !(#[trigger] q[i]).contains(sep) by {
                if i == q.len() - 1 {
                    assert(!p[i].contains(sep));
                    if q[i].contains(sep) {
                        let k = choose|k: int| 0 <= k < q[i].len() && q[i][k] == sep;
                        if k < p[i].len() {
                            assert(q[i][k] == p[i][k]);
                        }
                    }
                } else {
                    assert(q[i] == p[i]);
                }
            }
        } else {
            let q = p.push(Seq::<char>::empty());
            assert forall|i: int| 0 <= i < q.len() implies !(#[trigger] q[i]).contains(sep) by {
                if i < p.len() {
                    assert(q[i] == p[i]);
                }
            }
        }
    }
}

/// Trimming trailing blanks keeps a prefix, and trimming again changes nothing.
proof fn lemma_trim_blanks(t: Seq<char>)
    ensures
        trim_trailing_blanks(t).len() <= t.len(),
        trim_trailing_blanks(t) == t.take(trim_trailing_blanks(t).len() as int),
        trim_trailing_blanks(trim_trailing_blanks(t)) == trim_trailing_blanks(t),
    decreases t.len(),
{
    if t.len() > 0 && (t.last() == ' ' || t.last() == '\t') {
        lemma_trim_blanks(t.drop_last());
        let r = trim_trailing_blanks(t.drop_last());
        assert(t.drop_last().take(r.len() as int) =~= t.take(r.len() as int));
    } else {
        assert(t.take(t.len() as int) =~= t);
    }
}

/// The text `trim_trailing_whitespace` makes: every piece between line feeds without the
/// blanks it ends with, joined again (a final line feed survives on its own, as the empty
/// last piece).
proof fn lemma_trimmed_text_body(t: Seq<char>)
    ensures
        trimmed_text(t) == joined(
            split_on(t, '\n').map_values(|l: Seq<char>| trim_trailing_blanks(l)),
            '\n',
        ),
{
    let ps = split_on(t, '\n').map_values(|l: Seq<char>| trim_trailing_blanks(l));
    let body = joined(ps, '\n');
    if ends_with_newline(t) {
        let t1 = t.drop_last();
        crate::text::lemma_split_on_nonempty(t1, '\n');
        let p1 = split_on(t1, '\n');
        assert(split_on(t, '\n') == p1.push(Seq::empty()));
        assert(ps.len() >= 2);
        assert(ps.last() == trim_trailing_blanks(Seq::<char>::empty()));
        assert(body == joined(ps.drop_last(), '\n') + seq!['\n'] + ps.last());
        assert(ends_with_newline(body));
    }
}

/// Trimming trailing white space twice is the same as trimming it once.
pub proof fn lemma_trim_idempotent(t: Seq<char>)
    ensures
        trimmed_text(trimmed_text(t)) == trimmed_text(t),
{
    let trim = |l: Seq<char>| trim_trailing_blanks(l);
    let ps = split_on(t, '\n').map_values(trim);
    lemma_trimmed_text_body(t);
    let body = joined(ps, '\n');
    crate::text::lemma_split_on_nonempty(t, '\n');
    lemma_split_pieces_no_sep(t, '\n');
    assert forall|i: int| 0 <= i < ps.len() implies !(#[trigger] ps[i]).contains('\n') by {
        let piece = split_on(t, '\n')[i];
        lemma_trim_blanks(piece);
        assert(!piece.contains('\n'));
        if ps[i].contains('\n') {
            let k = choose|k: int| 0 <= k < ps[i].len() && ps[i][k] == '\n';
            assert(ps[i][k] == piece[k]);
        }
    }
    lemma_split_joined(ps, '\n');
    lemma_trimmed_text_body(body);
    assert(split_on(body, '\n').map_values(trim) =~= ps) by {
        assert forall|i: int| 0 <= i < ps.len() implies #[trigger] trim(ps[i]) == ps[i] by {
            lemma_trim_blanks(split_on(t, '\n')[i]);
        }
    }
}


/// The pieces `wrap_chunks` cuts from a text without line feeds hold none, and none of the
/// pieces of a non-empty text is empty.
proof fn lemma_wrap_chunks_pieces(t: Seq<char>, width: nat)
    requires
        width > 0,
    ensures
        !t.contains('\n') ==> forall|i: int|
            0 <= i < wrap_chunks(t, width).len() ==> !(#[trigger] wrap_chunks(t, width)[i]).contains('\n'),
        t.len() > 0 ==> forall|i: int|
            0 <= i < wrap_chunks(t, width).len() ==> (#[trigger] wrap_chunks(t, width)[i]).len() > 0,
    decreases t.len(),
{
    let c = wrap_chunks(t, width);
    if t.len() > width {
        let head = t.take(width as int);
        let tail = t.skip(width as int);
        let rest = wrap_chunks(tail, width);
        lemma_wrap_chunks_pieces(tail, width);
        assert(c == seq![head] + rest);
        if !t.contains('\n') {
            assert(!head.contains('\n')) by {
                if head.contains('\n') {
                    let k = choose|k: int| 0 <= k < head.len() && head[k] == '\n';
                    assert(t[k] == '\n');
                }
            }
            assert(!tail.contains('\n')) by {
                if tail.contains('\n') {
                    let k = choose|k: int| 0 <= k < tail.len() && tail[k] == '\n';
                    assert(t[k + width] == '\n');
                }
            }
        }
        assert forall|i: int| 0 < i < c.len() implies #[trigger] c[i] == rest[i - 1] by {}
    }
}

/// Cutting lines without line feeds at `width` gives at least as many pieces, none longer
/// than `width` and none holding a line feed; the last piece is empty only when the last
/// line is.
proof fn lemma_wrap_all_pieces(ps: Seq<Seq<char>>, width: nat)
    requires
        width > 0,
        forall|i: int| 0 <= i < ps.len() ==> !(#[trigger] ps[i]).contains('\n'),
    ensures
        wrap_all(ps, width).len() >= ps.len(),
        forall|i: int|
            0 <= i < wrap_all(ps, width).len() ==> (#[trigger] wrap_all(ps, width)[i]).len() <= width
                && !wrap_all(ps, width)[i].contains('\n'),
        ps.len() > 0 && ps.last().len() > 0 ==> wrap_all(ps, width).last().len() > 0,
    decreases ps.len(),
{
    if ps.len() > 0 {
        let front = ps.drop_last();
        let w0 = wrap_all(front, width);
        let c = wrap_chunks(ps.last(), width);
        lemma_wrap_all_pieces(front, width);
        lemma_wrap_chunks(ps.last(), width);
        lemma_wrap_chunks_pieces(ps.last(), width);
        assert(!ps.last().contains('\n')) by {
            assert(ps[ps.len() - 1] == ps.last());
        }
        let w = wrap_all(ps, width);
        assert(w == w0 + c);
        assert forall|i: int| 0 <= i < w.len() implies (#[trigger] w[i]).len() <= width
            && !w[i].contains('\n') by {
            if i >= w0.len() {
                assert(w[i] == c[i - w0.len()]);
            }
        }
        if ps.last().len() > 0 {
            assert(w.last() == c[c.len() - 1]);
        }
    }
}

/// Lines no longer than `width` are left as they are by cutting them at `width`.
proof fn lemma_wrap_all_short(ps: Seq<Seq<char>>, width: nat)
    requires
        forall|i: int| 0 <= i < ps.len() ==> (#[trigger] ps[i]).len() <= width,
    ensures
        wrap_all(ps, width) == ps,
    decreases ps.len(),
{
    if ps.len() > 0 {
        lemma_wrap_all_short(ps.drop_last(), width);
        assert(ps.last().len() <= width) by {
            assert(ps[ps.len() - 1] == ps.last());
        }
        assert(wrap_chunks(ps.last(), width) == seq![ps.last()]);
        assert(ps.drop_last() + seq![ps.last()] =~= ps);
    }
}

/// Joined lines end with the last line, when it is not empty.
proof fn lemma_joined_last(ls: Seq<Seq<char>>, sep: char)
    requires
        ls.len() > 0,
        ls.last().len() > 0,
    ensures
        joined(ls, sep).len() > 0,
        joined(ls, sep).last() == ls.last().last(),
{
    if ls.len() >= 2 {
        let a = joined(ls.drop_last(), sep) + seq![sep];
        assert(joined(ls, sep) == a + ls.last());
        assert((a + ls.last())[a.len() + ls.last().len() - 1] == ls.last()[ls.last().len() - 1]);
    }
}

/// A text that does not end with a line feed, hard wrapped, does not end with one either,
/// and wrapping it again at the same width changes nothing.
proof fn lemma_hard_wrapped_stable(t: Seq<char>, width: nat)
    requires
        width > 0,
        !ends_with_newline(t),
    ensures
        !ends_with_newline(hard_wrapped(t, width)),
        hard_wrapped(hard_wrapped(t, width), width) == hard_wrapped(t, width),
{
    let ps = split_on(t, '\n');
    crate::text::lemma_split_on_nonempty(t, '\n');
    lemma_split_pieces_no_sep(t, '\n');
    lemma_wrap_all_pieces(ps, width);
    let w = wrap_all(ps, width);
    let h = joined(w, '\n');
    assert(hard_wrapped(t, width) == h);
    if t.len() > 0 {
        let p = split_on(t.drop_last(), '\n');
        crate::text::lemma_split_on_nonempty(t.drop_last(), '\n');
        assert(ps == p.update(p.len() - 1, p.last().push(t.last())));
        assert(ps.last().len() > 0);
        lemma_joined_last(w, '\n');
        assert(w.last().last() == w.last()[w.last().len() - 1]);
        assert(!w.last().contains('\n')) by {
            assert(w[w.len() - 1] == w.last());
        }
        assert(h.last() != '\n');
    } else {
        assert(ps == seq![Seq::<char>::empty()]);
        assert(wrap_chunks(Seq::<char>::empty(), width) == seq![Seq::<char>::empty()]);
        assert(wrap_all(ps.drop_last(), width) == Seq::<Seq<char>>::empty());
        assert(w =~= seq![Seq::<char>::empty()]);
        assert(h.len() == 0);
    }
    assert forall|i: int| 0 <= i < w.len() implies !(#[trigger] w[i]).contains('\n') by {}
    lemma_split_joined(w, '\n');
    assert forall|i: int| 0 <= i < w.len() implies (#[trigger] w[i]).len() <= width by {}
    lemma_wrap_all_short(w, width);
}

/// Hard wrapping at one width a second time changes nothing, on a text that does not end
/// with a line feed (on one that does, each wrap adds an empty last line).
pub proof fn lemma_hard_wrap_twice(
    v0: EditorView,
    v1: EditorView,
    v2: EditorView,
    width: usize,
    r1: Result<()>,
    r2: Result<()>,
)
    requires
        !ends_with_newline(v0.buffer.text),
        hard_wrap_outcome(v0, v1, r1, width),
        hard_wrap_outcome(v1, v2, r2, width),
    ensures
        v2.buffer.text == v1.buffer.text,
{
    if width > 0 {
        lemma_hard_wrapped_stable(v0.buffer.text, width as nat);
    }
}


/// The text with `// ` put at the start of line `l`.
pub open spec fn commented_text(s: Seq<char>, l: int) -> Seq<char> {
    s.take(line_start(s, l)) + "// "@ + s.skip(line_start(s, l))
}

/// Toggling line `l` alone, when it does not start (after white space) with `//`, puts
/// `// ` at its start.
proof fn lemma_toggle_comments_line(b0: BufferView, l: usize)
    requires
        l < num_lines(b0.text),
        !has_prefix(trim_start_ws(line_text(b0.text, l as int)), comment_marker()),
    ensures
        should_uncomment(b0, l as int, l as int, false) == Ok::<bool, EditorError>(false),
        toggle_lines_upto(b0, l as int, l + 1, false, false) == Ok::<
            BufferView,
            (BufferView, EditorError),
        >(b0.edited(commented_text(b0.text, l as int))),
{
    let li = l as int;
    let s = b0.text;
    lemma_line_starts(s);
    assert(should_uncomment(b0, li + 1, li, false) == Ok::<bool, EditorError>(false));
    assert(toggle_lines_upto(b0, li, li, false, false) == Ok::<BufferView, (BufferView, EditorError)>(b0));
    assert(b0.valid(l, 0));
    assert(b0.index(l, 0) == line_start(s, li));
}

/// Line `l` of the commented text starts where it did, with `// `, and its column 0 is
/// where it starts.
proof fn lemma_commented_line(s: Seq<char>, l: usize)
    requires
        l < num_lines(s),
    ensures
        ({
            let s2 = commented_text(s, l as int);
            let l2 = line_text(s2, l as int);
            &&& l < num_lines(s2)
            &&& line_start(s2, l as int) == line_start(s, l as int)
            &&& l2.len() >= 3
            &&& l2[0] == '/' && l2[1] == '/' && l2[2] == ' '
            &&& line_length(s2, l as int) >= 3
            &&& position_of_index(s2, line_start(s, l as int)) == (CursorPosition { line: l, column: 0 })
        }),
{
    reveal_strlit("// ");
    let li = l as int;
    let u = "// "@;
    assert(u == seq!['/', '/', ' ']);
    let p = line_start(s, li);
    let s2 = commented_text(s, li);
    lemma_line_starts(s);
    assert(forall|i: int| 0 <= i < u.len() ==> !is_line_break(#[trigger] u[i]));
    crate::lines::lemma_insert_at_line_start(s, li, u);
    lemma_line_starts(s2);
    let e2 = crate::lines::line_end(s2, li);
    let l2 = line_text(s2, li);
    assert(l2.len() == e2 - p);
    assert(l2[0] == s2[p]);
    assert(l2[1] == s2[p + 1]);
    assert(l2[2] == s2[p + 2]);
    if l2.len() == 3 {
        assert(l2.last() == ' ');
    }
    crate::lines::lemma_line_of_start(s2, li);
}

/// Toggling a line that starts with `// ` (put there by a toggle) takes the `// ` away.
proof fn lemma_toggle_uncomments_line(s: Seq<char>, b1: BufferView, l: usize)
    requires
        l < num_lines(s),
        b1.text == commented_text(s, l as int),
    ensures
        should_uncomment(b1, l as int, l as int, false) == Ok::<bool, EditorError>(true),
        toggle_lines_upto(b1, l as int, l + 1, true, false) == Ok::<
            BufferView,
            (BufferView, EditorError),
        >(b1.edited(s)),
{
    let li = l as int;
    let p = line_start(s, li);
    let s2 = b1.text;
    lemma_commented_line(s, l);
    let l2 = line_text(s2, li);
    assert(b1.line_result(l) == Ok::<Seq<char>, EditorError>(l2));
    assert(trim_start_ws(l2) == l2);
    assert(has_prefix(l2, comment_marker())) by {
        assert(l2.take(2) =~= comment_marker());
    }
    assert(should_uncomment(b1, li + 1, li, true) == Ok::<bool, EditorError>(true));
    assert(toggle_lines_upto(b1, li, li, true, false) == Ok::<BufferView, (BufferView, EditorError)>(b1));
    assert(first_marker(l2, 0) == Some(0int));
    assert(l2.take(0) =~= Seq::<char>::empty());
    assert(is_blank(l2.take(0)));
    assert(vstd::utf8::encode_utf8(Seq::<char>::empty()) =~= Seq::<u8>::empty());
    assert(capped(utf8_len(l2.take(0)) as int) == 0);
    assert(b1.index(l, 0) == p);
    assert(capped(3int) == 3);
    assert(b1.valid(l, 3));
    assert(s2.take(p) + s2.skip(p + 3) =~= s) by {
        reveal_strlit("// ");
        lemma_line_starts(s);
        assert("// "@.len() == 3);
        assert(0 <= p <= s.len());
        assert(s2.take(p) =~= s.take(p));
        assert(s2.skip(p + 3) =~= s.skip(p));
    }
    assert(uncomment_line_result(b1, l) == Ok::<BufferView, (BufferView, EditorError)>(b1.edited(s)));
}

/// With no selection, toggling the line comment twice gives the text back, when the
/// cursor's line does not already start (after white space) with `//`. (On `//x` it does
/// not: the marker goes, and `// ` comes back.)
pub proof fn lemma_toggle_comment_twice(
    v0: EditorView,
    v1: EditorView,
    v2: EditorView,
    r1: Result<()>,
    r2: Result<()>,
)
    requires
        v0.selection is None,
        v0.cursors[0].line < num_lines(v0.buffer.text),
        !has_prefix(
            trim_start_ws(line_text(v0.buffer.text, v0.cursors[0].line as int)),
            comment_marker(),
        ),
        toggle_comment_outcome(v0, v1, r1),
        toggle_comment_outcome(v1, v2, r2),
    ensures
        r1 is Ok,
        r2 is Ok,
        v2.buffer.text == v0.buffer.text,
{
    let s = v0.buffer.text;
    let l = v0.cursors[0].line;
    assert(comment_range(v0) == (l, l));
    lemma_toggle_comments_line(v0.buffer, l);
    let b1 = v0.buffer.edited(commented_text(s, l as int));
    assert(v1 == (EditorView { buffer: b1, ..v0 }));
    assert(comment_range(v1) == (l, l));
    lemma_toggle_uncomments_line(s, b1, l);
}


/// How a character moves the nesting of the pair `open`/`close` when read forward.
pub open spec fn bracket_weight(c: char, open: char, close: char) -> int {
    if c == open {
        1
    } else if c == close {
        -1
    } else {
        0
    }
}

/// The nesting that `t[a..b]` adds: its opening brackets less its closing ones.
pub open spec fn balance(t: Seq<char>, a: int, b: int, open: char, close: char) -> int
    decreases b - a,
{
    if b <= a {
        0
    } else {
        balance(t, a, b - 1, open, close) + bracket_weight(t[b - 1], open, close)
    }
}

/// The nesting of two neighbouring stretches adds up.
proof fn lemma_balance_split(t: Seq<char>, a: int, b: int, c: int, open: char, close: char)
    requires
        a <= b <= c,
    ensures
        balance(t, a, c, open, close) == balance(t, a, b, open, close) + balance(t, b, c, open, close),
    decreases c - b,
{
    if c > b {
        lemma_balance_split(t, a, b, c - 1, open, close);
    }
}

/// The nesting of a stretch is its first character's weight and the rest's nesting.
proof fn lemma_balance_first(t: Seq<char>, a: int, b: int, open: char, close: char)
    requires
        a < b,
    ensures
        balance(t, a, b, open, close) == bracket_weight(t[a], open, close) + balance(
            t,
            a + 1,
            b,
            open,
            close,
        ),
{
    lemma_balance_split(t, a, a + 1, b, open, close);
    assert(balance(t, a, a, open, close) == 0);
}

/// Where a forward scan stops: at a closing bracket that brings the nesting to zero, the
/// nesting having stayed positive before it.
proof fn lemma_scan_forward_stop(t: Seq<char>, i: int, d: int, open: char, close: char)
    requires
        open != close,
        0 <= i,
        d >= 1,
        scan_forward(t, i, d, open, close) >= 0,
    ensures
        ({
            let j = scan_forward(t, i, d, open, close);
            &&& i <= j < t.len()
            &&& t[j] == close
            &&& d + balance(t, i, j + 1, open, close) == 0
            &&& forall|k: int| i <= k < j ==> d + #[trigger] balance(t, i, k + 1, open, close) >= 1
        }),
    decreases t.len() - i,
{
    let j = scan_forward(t, i, d, open, close);
    let d1 = d + bracket_weight(t[i], open, close);
    assert(balance(t, i, i + 1, open, close) == bracket_weight(t[i], open, close)) by {
        assert(balance(t, i, i, open, close) == 0);
    }
    if d1 != 0 {
        lemma_scan_forward_stop(t, i + 1, d1, open, close);
        lemma_balance_first(t, i, j + 1, open, close);
        assert forall|k: int| i <= k < j implies d + #[trigger] balance(t, i, k + 1, open, close) >= 1 by {
            if k > i {
                lemma_balance_first(t, i, k + 1, open, close);
            }
        }
    }
}

/// Where a backward scan stops: at an opening bracket that brings the nesting to zero, the
/// nesting having stayed positive after it.
proof fn lemma_scan_backward_stop(t: Seq<char>, i: int, d: int, open: char, close: char)
    requires
        open != close,
        i < t.len(),
        d >= 1,
        scan_backward(t, i, d, open, close) >= 0,
    ensures
        ({
            let j = scan_backward(t, i, d, open, close);
            &&& 0 <= j <= i
            &&& t[j] == open
            &&& d - balance(t, j, i + 1, open, close) == 0
            &&& forall|k: int| j < k <= i ==> d - #[trigger] balance(t, k, i + 1, open, close) >= 1
        }),
    decreases i + 1,
{
    let j = scan_backward(t, i, d, open, close);
    let d1 = d - bracket_weight(t[i], open, close);
    assert(balance(t, i, i + 1, open, close) == bracket_weight(t[i], open, close)) by {
        assert(balance(t, i, i, open, close) == 0);
    }
    if d1 != 0 {
        lemma_scan_backward_stop(t, i - 1, d1, open, close);
        lemma_balance_split(t, j, i, i + 1, open, close);
        assert forall|k: int| j < k <= i implies d - #[trigger] balance(t, k, i + 1, open, close) >= 1 by {
            lemma_balance_split(t, k, i, i + 1, open, close);
        }
    }
}

/// A backward scan from `m` down to `i`, the nesting of `t[q..e]` staying at most zero for
/// every `q` between them and reaching one at `i`, stops at `i`.
proof fn lemma_scan_backward_reaches(
    t: Seq<char>,
    i: int,
    m: int,
    e: int,
    d: int,
    open: char,
    close: char,
)
    requires
        open != close,
        0 <= i <= m < e <= t.len(),
        balance(t, i, e, open, close) == 1,
        forall|q: int| i < q <= m ==> #[trigger] balance(t, q, e, open, close) <= 0,
        d == 1 - balance(t, m + 1, e, open, close),
    ensures
        scan_backward(t, m, d, open, close) == i,
    decreases m,
{
    lemma_balance_first(t, m, e, open, close);
    if m > i {
        lemma_scan_backward_reaches(t, i, m - 1, e, 1 - balance(t, m, e, open, close), open, close);
    }
}

/// A forward scan from `m` up to `e`, the nesting of `t[s..q]` staying at least zero for
/// every `q` between them and reaching minus one just after `e`, stops at `e`.
proof fn lemma_scan_forward_reaches(
    t: Seq<char>,
    s: int,
    m: int,
    e: int,
    d: int,
    open: char,
    close: char,
)
    requires
        open != close,
        0 <= s <= m <= e < t.len(),
        balance(t, s, e + 1, open, close) == -1,
        forall|q: int| s <= q <= m ==> #[trigger] balance(t, s, q, open, close) >= 0,
        forall|q: int| m < q <= e ==> #[trigger] balance(t, s, q, open, close) >= 0,
        d == 1 + balance(t, s, m, open, close),
    ensures
        scan_forward(t, m, d, open, close) == e,
    decreases e - m,
{
    lemma_balance_split(t, s, m, m + 1, open, close);
    assert(balance(t, m, m + 1, open, close) == bracket_weight(t[m], open, close)) by {
        assert(balance(t, m, m, open, close) == 0);
    }
    if m < e {
        lemma_scan_forward_reaches(t, s, m + 1, e, 1 + balance(t, s, m + 1, open, close), open, close);
    }
}

/// Matching brackets match each other: the bracket that an opening bracket at `i` is
/// matched with is matched back with `i`, and so for a closing bracket.
pub proof fn lemma_matching_bracket_symmetric(t: Seq<char>, i: int)
    requires
        0 <= i < t.len(),
        bracket_pair(t[i]) is Some,
    ensures
        ({
            let (open, close, forward) = bracket_pair(t[i])->0;
            let j = if forward {
                scan_forward(t, i + 1, 1, open, close)
            } else {
                scan_backward(t, i - 1, 1, open, close)
            };
            j >= 0 ==> {
                &&& 0 <= j < t.len()
                &&& bracket_pair(t[j]) == Some((open, close, !forward))
                &&& (if forward {
                    scan_backward(t, j - 1, 1, open, close)
                } else {
                    scan_forward(t, j + 1, 1, open, close)
                }) == i
            }
        }),
{
    let (open, close, forward) = bracket_pair(t[i])->0;
    assert(open != close);
    if forward {
        let j = scan_forward(t, i + 1, 1, open, close);
        if j >= 0 {
            assert(t[i] == open);
            lemma_scan_forward_stop(t, i + 1, 1, open, close);
            lemma_balance_first(t, i, j, open, close);
            lemma_balance_split(t, i + 1, j, j + 1, open, close);
            assert(balance(t, j, j + 1, open, close) == -1) by {
                assert(balance(t, j, j, open, close) == 0);
            }
            assert forall|q: int| i < q <= j - 1 implies #[trigger] balance(t, q, j, open, close) <= 0 by {
                lemma_balance_split(t, i + 1, q, j, open, close);
                if q > i + 1 {
                    assert(1 + balance(t, i + 1, (q - 1) + 1, open, close) >= 1);
                }
            }
            lemma_scan_backward_reaches(t, i, j - 1, j, 1, open, close);
        }
    } else {
        let j = scan_backward(t, i - 1, 1, open, close);
        if j >= 0 {
            assert(t[i] == close);
            lemma_scan_backward_stop(t, i - 1, 1, open, close);
            lemma_balance_first(t, j, i, open, close);
            lemma_balance_split(t, j + 1, i, i + 1, open, close);
            assert(balance(t, i, i + 1, open, close) == -1) by {
                assert(balance(t, i, i, open, close) == 0);
            }
            assert forall|q: int| j + 1 <= q <= i implies #[trigger] balance(t, j + 1, q, open, close) >= 0 by {
                lemma_balance_split(t, j + 1, q, i, open, close);
                if q < i {
                    assert(1 - balance(t, q, (i - 1) + 1, open, close) >= 1);
                }
            }
            assert(balance(t, j + 1, j + 1, open, close) == 0);
            lemma_scan_forward_reaches(t, j + 1, j + 1, i, 1, open, close);
        }
    }
}


/// The place of an index names that index again, and is a valid place.
proof fn lemma_position_of_index(t: Seq<char>, j: int)
    requires
        0 <= j <= t.len(),
        t.len() < usize::MAX,
    ensures
        valid_position(t, position_of_index(t, j).line as int, position_of_index(t, j).column as int),
        index_of(t, position_of_index(t, j).line as int, position_of_index(t, j).column as int) == j,
{
    crate::lines::lemma_line_of(t, j);
    crate::lines::lemma_column_within_line(t, j);
    crate::lines::lemma_num_lines_bound(t);
    lemma_line_starts(t);
    let k = line_of(t, j);
    let c = j - line_start(t, k);
    assert(0 <= k < num_lines(t) <= usize::MAX);
    assert(0 <= c <= j < usize::MAX);
    assert(position_of_index(t, j).line as int == k);
    assert(position_of_index(t, j).column as int == c);
}

/// A single motion is the motion of the single cursor.
proof fn lemma_motion_all_single(b: BufferView, m: Motion, p: CursorPosition)
    ensures
        motion_all(b, m, seq![p]) == match motion_result(b, m, p) {
            Ok(q) => Ok::<Seq<CursorPosition>, EditorError>(seq![q]),
            Err(e) => Err(e),
        },
{
    assert(seq![p].drop_last() =~= Seq::<CursorPosition>::empty());
    assert(motion_all(b, m, seq![p].drop_last()) == Ok::<Seq<CursorPosition>, EditorError>(
        Seq::empty(),
    ));
    assert(forall|q: CursorPosition| Seq::<CursorPosition>::empty().push(q) =~= seq![q]);
}

/// From the bracket a cursor was moved to, the matching bracket is where it came from.
proof fn lemma_matching_bracket_back(b: BufferView, p: CursorPosition, q: CursorPosition)
    requires
        lf_only(b.text),
        b.text.len() < usize::MAX,
        motion_result(b, Motion::MatchingBracket, p) == Ok::<CursorPosition, EditorError>(q),
    ensures
        motion_result(b, Motion::MatchingBracket, q) == Ok::<CursorPosition, EditorError>(p),
{
    let t = b.text;
    lemma_line_starts(t);
    if q != p {
        let i = b.index(p.line, p.column);
        assert(position_in(b, p));
        assert(i < t.len());
        assert(bracket_pair(t[i]) is Some);
        lemma_matching_bracket_symmetric(t, i);
        let (open, close, forward) = bracket_pair(t[i])->0;
        let j = if forward {
            scan_forward(t, i + 1, 1, open, close)
        } else {
            scan_backward(t, i - 1, 1, open, close)
        };
        assert(q == position_of_index(t, j));
        lemma_position_of_index(t, j);
        assert(position_in(b, q));
        assert(b.index(q.line, q.column) == j);
        crate::lines::lemma_line_of_index(t, p.line as int, p.column as int);
        assert(position_of_index(t, i) == p);
    }
}

/// A single cursor, in a text whose line breaks are line feeds, moved to the matching
/// bracket twice is back where it was (off a bracket, or on one without a match, it does
/// not move at all).
pub proof fn lemma_matching_bracket_twice(
    v0: EditorView,
    v1: EditorView,
    v2: EditorView,
    r1: Result<()>,
    r2: Result<()>,
)
    requires
        v0.cursors.len() == 1,
        lf_only(v0.buffer.text),
        v0.buffer.text.len() < usize::MAX,
        motion_outcome(v0, v1, r1, Motion::MatchingBracket),
        motion_outcome(v1, v2, r2, Motion::MatchingBracket),
    ensures
        v2 == v0,
{
    let b = v0.buffer;
    let p = v0.cursors[0];
    assert(v0.cursors =~= seq![p]);
    lemma_motion_all_single(b, Motion::MatchingBracket, p);
    match motion_result(b, Motion::MatchingBracket, p) {
        Ok(q) => {
            lemma_cursors_set_single(v1.cursors, q);
            lemma_matching_bracket_back(b, p, q);
            lemma_motion_all_single(b, Motion::MatchingBracket, q);
            lemma_cursors_set_single(v2.cursors, p);
            assert(v2 == with_cursors(v0, seq![p]));
        },
        Err(e) => {},
    }
}


/// The text with a copy of line `l`'s body, and a line feed, put at the start of line
/// `l + 1`.
pub open spec fn duplicated_text(s: Seq<char>, l: int) -> Seq<char> {
    let p = line_start(s, l + 1);
    s.take(p) + line_text(s, l).drop_last() + seq!['\n'] + s.skip(p)
}

/// The body `u` of line `l` (not the last), put at the start of line `l + 1`, leaves a text
/// whose line breaks are still line feeds, in which a line feed can go right after `u`.
#[verifier::spinoff_prover]
#[verifier::rlimit(40)]
proof fn lemma_body_copied(s: Seq<char>, l: int)
    requires
        lf_only(s),
        0 <= l,
        l + 1 < num_lines(s),
    ensures
        ({
            let u = line_text(s, l).drop_last();
            let p = line_start(s, l + 1);
            let s1 = s.take(p) + u + s.skip(p);
            &&& trim_newlines(line_text(s, l)) == u
            &&& u.len() + 1 == line_text(s, l).len()
            &&& 0 <= p <= s.len()
            &&& lf_only(s1)
            &&& l + 1 < num_lines(s1)
            &&& line_start(s1, l + 1) == p
            &&& u.len() <= line_length(s1, l + 1)
            &&& p + u.len() <= crate::lines::line_end(s1, l + 1)
            &&& (p + u.len() < crate::lines::line_end(s1, l + 1) || l + 1 == num_lines(s1) - 1)
        }),
{
    let t = line_text(s, l);
    crate::lines::lemma_lf_line_body(s, l);
    let u = t.drop_last();
    assert(t == u.push('\n'));
    assert(trim_newlines(u) == u) by {
        if u.len() > 0 {
            assert(!is_line_break(u[u.len() - 1]));
        }
    }
    assert(t.drop_last() == u);
    lemma_line_starts(s);
    let p = line_start(s, l + 1);
    let s1 = s.take(p) + u + s.skip(p);
    crate::lines::lemma_insert_at_line_start(s, l + 1, u);
    lemma_line_starts(s1);
    let e1 = crate::lines::line_end(s1, l + 1);
    assert(line_text(s1, l + 1).len() == e1 - p);
    if line_text(s1, l + 1).len() == u.len() && u.len() > 0 {
        assert(line_text(s1, l + 1).last() == s1[p + u.len() - 1]);
        assert(s1[p + u.len() - 1] == u[u.len() - 1]);
    }
    assert forall|j: int| 0 <= j < s1.len() && is_line_break(#[trigger] s1[j]) implies s1[j] == '\n' by {
        if j < p {
            assert(s1[j] == s[j]);
        } else if j < p + u.len() {
            assert(s1[j] == u[j - p]);
        } else {
            assert(s1[j] == s[j - u.len()]);
        }
    }
    if p + u.len() == e1 && l + 1 < num_lines(s1) - 1 {
        crate::lines::lemma_starts_upto_shape(s1, s1.len());
        assert(crate::lines::line_starts(s1)[l + 2] == e1);
        assert(crate::lines::starts_line(s1, e1));
        if u.len() > 0 {
            assert(s1[e1 - 1] == u[u.len() - 1]);
        }
    }
}

/// In a text whose line breaks are line feeds, duplicating a line other than the last puts
/// its body and a line feed at the start of the next line, which then starts with the copy.
proof fn lemma_duplicate_line_lf(b: BufferView, l: usize)
    requires
        b.text.len() < usize::MAX,
        lf_only(b.text),
        l + 1 < num_lines(b.text),
    ensures
        duplicate_line_result(b, l) == Ok::<BufferView, (BufferView, EditorError)>(
            b.edited(duplicated_text(b.text, l as int)),
        ),
        ({
            let s2 = duplicated_text(b.text, l as int);
            let p = line_start(b.text, l + 1);
            &&& l + 2 < num_lines(s2)
            &&& line_start(s2, l + 1) == p
            &&& line_start(s2, l + 2) == p + line_text(b.text, l as int).len()
        }),
{
    let s = b.text;
    let li = l as int;
    lemma_body_copied(s, li);
    let u = line_text(s, li).drop_last();
    crate::lines::lemma_num_lines_bound(s);
    let next = (l + 1) as usize;
    assert(next as int == l + 1);
    let p = line_start(s, l + 1);
    assert(b.valid(next, 0));
    assert(b.index(next, 0) == p);
    let s1 = s.take(p) + u + s.skip(p);
    let b1 = b.edited(s1);
    assert(b.insert_str_result(next, 0, u) == Ok::<BufferView, EditorError>(b1));
    assert(u.len() < usize::MAX) by {
        lemma_line_starts(s);
        assert(line_text(s, li).len() == crate::lines::line_end(s, li) - line_start(s, li));
    }
    assert((u.len() as usize) as int == u.len());
    assert(b1.valid(next, u.len() as usize));
    assert(b1.index(next, u.len() as usize) == p + u.len());
    assert(s1.insert(p + u.len(), '\n') =~= duplicated_text(s, li));
    crate::lines::lemma_insert_newline(s1, l + 1, p + u.len());
}

/// Deleting the line a duplicate put in takes the copy, and its line feed, away again.
#[verifier::rlimit(40)]
proof fn lemma_delete_copy(b: BufferView, l: usize)
    requires
        b.text.len() + line_text(b.text, l as int).len() < usize::MAX,
        lf_only(b.text),
        l + 1 < num_lines(b.text),
    ensures
        delete_line_result(b.edited(duplicated_text(b.text, l as int)), (l + 1) as usize) == Ok::<
            BufferView,
            EditorError,
        >(b.edited(duplicated_text(b.text, l as int)).edited(b.text)),
{
    let s = b.text;
    let li = l as int;
    lemma_duplicate_line_lf(b, l);
    lemma_body_copied(s, li);
    let s2 = duplicated_text(s, li);
    let b2 = b.edited(s2);
    crate::lines::lemma_num_lines_bound(s);
    let next = (l + 1) as usize;
    assert(next as int == l + 1);
    let pl = line_start(s, l + 1);
    let n = line_text(s, li).len();
    lemma_line_starts(s2);
    assert(s2.len() == s.len() + n);
    crate::lines::lemma_num_lines_bound(s2);
    assert(next != (num_lines(s2) - 1) as usize);
    assert(b2.valid(next, 0));
    assert(b2.valid((next + 1) as usize, 0));
    assert(b2.index(next, 0) == pl);
    assert(b2.index((next + 1) as usize, 0) == pl + n);
    assert(s2.take(pl) + s2.skip(pl + n) =~= s);
}

/// With a single cursor on a line other than the last, in a text whose line breaks are line
/// feeds and whose duplicate fits in memory, deleting the line right after duplicating it
/// gives the text back. (On the last line it does not: the line break that the copy brought
/// stays.)
pub proof fn lemma_delete_undoes_duplicate(
    v0: EditorView,
    v1: EditorView,
    v2: EditorView,
    r1: Result<()>,
    r2: Result<()>,
)
    requires
        v0.cursors.len() == 1,
        lf_only(v0.buffer.text),
        v0.cursors[0].line + 1 < num_lines(v0.buffer.text),
        v0.buffer.text.len() + line_text(v0.buffer.text, v0.cursors[0].line as int).len() < usize::MAX,
        duplicate_outcome(v0, v1, r1),
        delete_line_outcome(v1, v2, r2),
    ensures
        r1 is Ok,
        r2 is Ok,
        v2.buffer.text == v0.buffer.text,
{
    let b = v0.buffer;
    let s = b.text;
    let p = v0.cursors[0];
    let l = p.line;
    assert(v0.cursors =~= seq![p]);
    assert(v0.cursors.reverse() =~= seq![p]);
    assert(seq![p].drop_last() =~= Seq::<CursorPosition>::empty());
    assert(line_ops_all(b, LineOp::Duplicate, Seq::<CursorPosition>::empty()) == Ok::<
        BufferView,
        (BufferView, EditorError),
    >(b));
    lemma_duplicate_line_lf(b, l);
    let s2 = duplicated_text(s, l as int);
    let b2 = b.edited(s2);
    assert(line_ops_all(b, LineOp::Duplicate, v0.cursors.reverse()) == Ok::<
        BufferView,
        (BufferView, EditorError),
    >(b2));
    assert(s2.len() == s.len() + line_text(s, l as int).len()) by {
        lemma_body_copied(s, l as int);
    }
    crate::lines::lemma_num_lines_bound(s2);
    let q = clamped(b2, one_line_down(p));
    assert(q.line == l + 1);
    assert(v0.cursors.map_values(|x: CursorPosition| clamped(b2, one_line_down(x))) =~= seq![q]);
    lemma_cursors_set_single(v1.cursors, q);
    assert(v1.buffer == b2);
    assert(v1.cursors.reverse() =~= seq![q]);
    assert(seq![q].drop_last() =~= Seq::<CursorPosition>::empty());
    lemma_delete_copy(b, l);
    assert(delete_lines_all(b2, Seq::<CursorPosition>::empty()) == Ok::<
        BufferView,
        (BufferView, EditorError),
    >(b2));
    assert(delete_lines_all(b2, v1.cursors.reverse()) == Ok::<BufferView, (BufferView, EditorError)>(
        b2.edited(s),
    ));
}


/// What replacing the `n` characters at place `p` of `b` with `new` leaves: refused when
/// `p` is not a place in the text, or when fewer than `n` characters follow it.
pub open spec fn replaced_result(
    b: BufferView,
    p: CursorPosition,
    n: nat,
    new: Seq<char>,
) -> core::result::Result<BufferView, EditorError> {
    if !b.valid(p.line, p.column) {
        Err(position_error(p.line, p.column))
    } else if b.index(p.line, p.column) + n > b.text.len() {
        Err(position_error(p.line, capped(p.column + n)))
    } else {
        let i = b.index(p.line, p.column);
        Ok(b.edited(b.text.take(i) + new + b.text.skip(i + n)))
    }
}

/// What applying edit `e` to `b` leaves: its text put in, taken out, or put in place of its
/// old text, at the character index of its position.
pub open spec fn apply_edit_result(b: BufferView, e: Edit) -> core::result::Result<BufferView, EditorError> {
    match e {
        Edit::Insert { position, text } => replaced_result(b, position, 0, text@),
        Edit::Delete { position, text } => replaced_result(b, position, text@.len(), Seq::empty()),
        Edit::Replace { position, old_text, new_text } => replaced_result(
            b,
            position,
            old_text@.len(),
            new_text@,
        ),
    }
}

/// The first `k` edits of `es` applied in turn to `b`; on a failure, the buffer as it was
/// before the failing edit, and the error.
pub open spec fn apply_upto(b: BufferView, es: Seq<Edit>, k: int) -> core::result::Result<
    BufferView,
    (BufferView, EditorError),
>
    decreases k,
{
    if k <= 0 {
        Ok(b)
    } else {
        match apply_upto(b, es, k - 1) {
            Ok(b1) => match apply_edit_result(b1, es[k - 1]) {
                Ok(b2) => Ok(b2),
                Err(e) => Err((b1, e)),
            },
            Err(x) => Err(x),
        }
    }
}

/// Once edits fail, applying more of them fails the same way.
proof fn lemma_apply_upto_stops(b: BufferView, es: Seq<Edit>, k: int, m: int)
    requires
        0 <= k <= m,
        apply_upto(b, es, k) is Err,
    ensures
        apply_upto(b, es, m) == apply_upto(b, es, k),
    decreases m - k,
{
    if k < m {
        lemma_apply_upto_stops(b, es, k, m - 1);
    }
}

/// The edits that undo `es`: their inverses, the last one first.
pub open spec fn undo_steps(es: Seq<Edit>) -> Seq<Edit> {
    Seq::new(es.len(), |i: int| inverse_edit(es[es.len() - 1 - i]))
}

/// What `undo` does: with nothing to undo it is refused; otherwise the newest entry moves to
/// the redo stack and its edits are undone, the last first; when all succeed, the cursors
/// and selection go back to where they were before the entry and the status says so; when
/// one fails, the buffer stays as the edits before it left it.
pub open spec fn undo_outcome(before: EditorView, after: EditorView, r: Result<()>) -> bool {
    if before.history.undo.len() == 0 {
        &&& r matches Err(EditorError::InvalidOperation(m)) && m@ == "Nothing to undo"@
        &&& after == before
    } else {
        let e = before.history.undo.last();
        let steps = undo_steps(e.edits);
        match apply_upto(before.buffer, steps, steps.len() as int) {
            Ok(b) => {
                &&& r is Ok
                &&& after == (EditorView {
                    buffer: b,
                    history: before.history.undone(),
                    cursors: after.cursors,
                    selection: e.selection_before,
                    status_message: "Undo"@,
                    ..before
                })
                &&& cursors_set_to(after.cursors, e.cursor_before)
            },
            Err((b, er)) => r == Err::<(), EditorError>(er) && after == (EditorView {
                buffer: b,
                history: before.history.undone(),
                ..before
            }),
        }
    }
}

/// What `redo` does: with nothing to redo it is refused; otherwise the newest redo entry
/// moves back to the undo stack and its edits are made again, in order; when all succeed,
/// the cursors and selection go to where they were after the entry and the status says so.
pub open spec fn redo_outcome(before: EditorView, after: EditorView, r: Result<()>) -> bool {
    if before.history.redo.len() == 0 {
        &&& r matches Err(EditorError::InvalidOperation(m)) && m@ == "Nothing to redo"@
        &&& after == before
    } else {
        let e = before.history.redo.last();
        match apply_upto(before.buffer, e.edits, e.edits.len() as int) {
            Ok(b) => {
                &&& r is Ok
                &&& after == (EditorView {
                    buffer: b,
                    history: before.history.redone(),
                    cursors: after.cursors,
                    selection: e.selection_after,
                    status_message: "Redo"@,
                    ..before
                })
                &&& cursors_set_to(after.cursors, e.cursor_after)
            },
            Err((b, er)) => r == Err::<(), EditorError>(er) && after == (EditorView {
                buffer: b,
                history: before.history.redone(),
                ..before
            }),
        }
    }
}

impl EditorState {
    /// Replaces the `n` characters at `p` with `new`.
    fn replace_at(&mut self, p: CursorPosition, n: usize, new: &[char]) -> (r: Result<()>)
        ensures
            match replaced_result(old(self)@.buffer, p, n as nat, new@) {
                Ok(b) => r is Ok && final(self)@ == (EditorView { buffer: b, ..old(self)@ }),
                Err(er) => r == Err::<(), EditorError>(er) && final(self)@ == old(self)@,
            },
    {
        let i = match self.buffer.char_index(p.line, p.column) {
            Ok(i) => i,
            Err(e) => return Err(e),
        };
        proof {
            crate::lines::lemma_index_of_valid(self@.buffer.text, p.line as int, p.column as int);
        }
        let len = self.buffer.len_chars();
        if n > len - i {
            return Err(EditorError::InvalidPosition { line: p.line, column: p.column.saturating_add(n) });
        }
        let chars = chars_of(self.buffer.content().as_str());
        let mut v: Vec<char> = Vec::new();
        push_range(&mut v, chars.as_slice(), 0, i);
        push_all(&mut v, new);
        push_range(&mut v, chars.as_slice(), i + n, len);
        proof {
            let t = old(self)@.buffer.text;
            assert(t.subrange(0, i as int) == t.take(i as int));
            assert(t.subrange(i + n, len as int) == t.skip(i + n));
        }
        self.buffer.set_content(string_from_chars(v.as_slice()));
        Ok(())
    }

    /// Applies edit `e` to the buffer.
    fn apply_edit(&mut self, e: &Edit) -> (r: Result<()>)
        ensures
            match apply_edit_result(old(self)@.buffer, *e) {
                Ok(b) => r is Ok && final(self)@ == (EditorView { buffer: b, ..old(self)@ }),
                Err(er) => r == Err::<(), EditorError>(er) && final(self)@ == old(self)@,
            },
    {
        match e {
            Edit::Insert { position, text } => {
                let c = chars_of(text.as_str());
                self.replace_at(*position, 0, c.as_slice())
            },
            Edit::Delete { position, text } => {
                let n = chars_of(text.as_str()).len();
                let none: Vec<char> = Vec::new();
                proof {
                    assert(none@ == Seq::<char>::empty());
                }
                self.replace_at(*position, n, none.as_slice())
            },
            Edit::Replace { position, old_text, new_text } => {
                let n = chars_of(old_text.as_str()).len();
                let c = chars_of(new_text.as_str());
                self.replace_at(*position, n, c.as_slice())
            },
        }
    }

    /// Undoes the newest entry of the edit history.
    pub fn undo(&mut self) -> (r: Result<()>)
        ensures
            undo_outcome(old(self)@, final(self)@, r),
    {
        let ghost before = self@;
        let entry = match self.history.undo() {
            Ok(e) => e,
            Err(e) => return Err(e),
        };
        let ghost steps = undo_steps(entry@.edits);
        let n = entry.edits.len();
        let mut k: usize = 0;
        while k < n
            invariant
                n == entry@.edits.len(),
                steps == undo_steps(entry@.edits),
                before == old(self)@,
                entry@ == before.history.undo.last(),
                before.history.undo.len() > 0,
                k <= n,
                apply_upto(before.buffer, steps, k as int) == Ok::<
                    BufferView,
                    (BufferView, EditorError),
                >(self@.buffer),
                self@ == (EditorView {
                    buffer: self@.buffer,
                    history: before.history.undone(),
                    ..before
                }),
            decreases n - k,
        {
            let inv = entry.edits[n - 1 - k].invert();
            assert(inv == steps[k as int]);
            match self.apply_edit(&inv) {
                Ok(()) => {},
                Err(e) => {
                    proof {
                        assert(apply_upto(before.buffer, steps, k + 1) == Err::<
                            BufferView,
                            (BufferView, EditorError),
                        >((self@.buffer, e)));
                        lemma_apply_upto_stops(before.buffer, steps, k + 1, n as int);
                        assert(steps.len() == n);
                    }
                    return Err(e);
                },
            }
            k += 1;
        }
        self.cursors.set_positions(entry.cursor_before);
        self.selection = entry.selection_before;
        let m = "Undo";
        proof {
            reveal_strlit("Undo");
        }
        self.status_message = m.to_string();
        Ok(())
    }

    /// Makes the newest undone entry again.
    pub fn redo(&mut self) -> (r: Result<()>)
        ensures
            redo_outcome(old(self)@, final(self)@, r),
    {
        let ghost before = self@;
        let entry = match self.history.redo() {
            Ok(e) => e,
            Err(e) => return Err(e),
        };
        let ghost steps = entry@.edits;
        let n = entry.edits.len();
        let mut k: usize = 0;
        while k < n
            invariant
                n == entry@.edits.len(),
                steps == entry@.edits,
                before == old(self)@,
                entry@ == before.history.redo.last(),
                before.history.redo.len() > 0,
                k <= n,
                apply_upto(before.buffer, steps, k as int) == Ok::<
                    BufferView,
                    (BufferView, EditorError),
                >(self@.buffer),
                self@ == (EditorView {
                    buffer: self@.buffer,
                    history: before.history.redone(),
                    ..before
                }),
            decreases n - k,
        {
            match self.apply_edit(&entry.edits[k]) {
                Ok(()) => {},
                Err(e) => {
                    proof {
                        assert(apply_upto(before.buffer, steps, k + 1) == Err::<
                            BufferView,
                            (BufferView, EditorError),
                        >((self@.buffer, e)));
                        lemma_apply_upto_stops(before.buffer, steps, k + 1, n as int);
                        assert(steps.len() == n);
                    }
                    return Err(e);
                },
            }
            k += 1;
        }
        self.cursors.set_positions(entry.cursor_after);
        self.selection = entry.selection_after;
        let m = "Redo";
        proof {
            reveal_strlit("Redo");
        }
        self.status_message = m.to_string();
        Ok(())
    }

    /// Whether there is an entry to undo.
    pub fn can_undo(&self) -> (b: bool)
        ensures
            b == (self@.history.undo.len() > 0),
    {
        self.history.can_undo()
    }

    /// Whether there is an entry to redo.
    pub fn can_redo(&self) -> (b: bool)
        ensures
            b == (self@.history.redo.len() > 0),
    {
        self.history.can_redo()
    }

    /// Forgets the edit history.
    pub fn clear_history(&mut self)
        ensures
            final(self)@ == (EditorView {
                history: HistoryView { undo: Seq::empty(), redo: Seq::empty(), ..old(self)@.history },
                ..old(self)@
            }),
    {
        self.history.clear();
    }

    /// Number of entries that can be undone.
    pub fn undo_stack_len(&self) -> (n: usize)
        ensures
            n == self@.history.undo.len(),
    {
        self.history.undo_stack_len()
    }

    /// Number of entries that can be redone.
    pub fn redo_stack_len(&self) -> (n: usize)
        ensures
            n == self@.history.redo.len(),
    {
        self.history.redo_stack_len()
    }
}


/// A copy of the positions `s`.
fn copy_positions(s: &[CursorPosition]) -> (v: Vec<CursorPosition>)
    ensures
        v@ == s@,
{
    let mut v: Vec<CursorPosition> = Vec::new();
    let mut i: usize = 0;
    while i < s.len()
        invariant
            i <= s@.len(),
            v@ == s@.take(i as int),
        decreases s@.len() - i,
    {
        v.push(s[i]);
        proof {
            assert(s@.take(i + 1) == s@.take(i as int).push(s@[i as int]));
        }
        i += 1;
    }
    proof {
        assert(s@.take(s@.len() as int) == s@);
    }
    v
}


/// With a single cursor at a place in the text and overwrite mode off, backspace right
/// after typing a character that is no line break gives the text back.
pub proof fn lemma_backspace_undoes_typing(
    v0: EditorView,
    v1: EditorView,
    v2: EditorView,
    ch: char,
    r1: Result<()>,
    r2: Result<()>,
)
    requires
        v0.cursors.len() == 1,
        v0.buffer.text.len() < usize::MAX,
        position_in(v0.buffer, v0.cursors[0]),
        !v0.overwrite_mode,
        !is_line_break(ch),
        typing_outcome(v0, v1, r1, ch),
        edit_outcome(v1, v2, r2, EditAt::Backspace),
    ensures
        r1 is Ok,
        r2 is Ok,
        v2.buffer.text == v0.buffer.text,
{
    let v1h = EditorView { history: v0.history, ..v1 };
    let v2h = EditorView { history: v0.history, ..v2 };
    assert(edit_outcome(v1h, v2h, r2, EditAt::Backspace));
    lemma_backspace_after_insert(v0, v1h, v2h, ch, r1, r2);
}

/// Typing a character that is no line break, with a single cursor at a place in the text
/// and overwrite mode off, and then undoing it, gives the text back when the history had
/// nothing to undo before (and keeps at least one entry).
pub proof fn lemma_undo_undoes_typing(
    v0: EditorView,
    v1: EditorView,
    v2: EditorView,
    ch: char,
    r1: Result<()>,
    r2: Result<()>,
)
    requires
        v0.history.undo.len() == 0,
        v0.history.max_entries >= 1,
        typing_outcome(v0, v1, r1, ch),
        r1 is Ok,
        v1.buffer.text != v0.buffer.text,
        undo_outcome(v1, v2, r2),
    ensures
        r2 is Ok,
        v2.buffer.text == v0.buffer.text,
        v2.selection == v0.selection,
{
    let c0 = v0.buffer.text;
    let c1 = v1.buffer.text;
    let (e, group) = choose|e: HistoryEntryView, group: bool|
        typing_entry(e, v0, v1) && v1.history == #[trigger] typed_history(v0.history, e, group);
    assert(stack_after_record(v0.history.undo, e, group) == seq![e]);
    assert(v1.history.undo == seq![e]);
    assert(v1.history.undo.last() == e);
    let steps = undo_steps(e.edits);
    assert(steps.len() == 1);
    let inv = steps[0];
    assert(inv == inverse_edit(e.edits[0]));
    lemma_line_starts(c1);
    assert(v1.buffer.valid(0, 0));
    assert(v1.buffer.index(0, 0) == 0);
    assert(c1.take(0) + c0 + c1.skip(c1.len() as int) =~= c0);
    assert(apply_edit_result(v1.buffer, inv) == Ok::<BufferView, EditorError>(v1.buffer.edited(c0)));
    assert(apply_upto(v1.buffer, steps, 0) == Ok::<BufferView, (BufferView, EditorError)>(v1.buffer));
    assert(apply_upto(v1.buffer, steps, 1) == Ok::<BufferView, (BufferView, EditorError)>(
        v1.buffer.edited(c0),
    ));
}

/// A space or a tab.
pub open spec fn is_blank_char(c: char) -> bool {
    c == ' ' || c == '\t'
}

/// `n` is the length of the run of spaces and tabs that `t` starts with: the first `n`
/// characters are spaces or tabs, and the character after them, if any, is neither.
pub open spec fn blank_run(t: Seq<char>, n: int) -> bool {
    &&& 0 <= n <= t.len()
    &&& forall|i: int| 0 <= i < n ==> is_blank_char(#[trigger] t[i])
    &&& n < t.len() ==> !is_blank_char(t[n])
}

/// The indentation carried over by a new line is the whole run of spaces and tabs that the
/// line starts with.
proof fn lemma_leading_indent_run(t: Seq<char>)
    ensures
        blank_run(t, leading_indent(t).len() as int),
        leading_indent(t) == t.take(leading_indent(t).len() as int),
    decreases t.len(),
{
    if t.len() > 0 && (t[0] == ' ' || t[0] == '\t') {
        let r = t.skip(1);
        lemma_leading_indent_run(r);
        let n = leading_indent(r).len() as int;
        assert forall|i: int| 0 <= i < n + 1 implies is_blank_char(#[trigger] t[i]) by {
            if i > 0 {
                assert(t[i] == r[i - 1]);
            }
        }
        if n + 1 < t.len() {
            assert(t[n + 1] == r[n]);
        }
        assert(seq![t[0]] + r.take(n) =~= t.take(n + 1));
    } else {
        assert(t.take(0) =~= Seq::<char>::empty());
    }
}

/// With a single cursor, a new line puts the cursor on the next line, just after the
/// indentation it carries over: the whole run of spaces and tabs that the cursor's line
/// starts with (tabs included).
pub proof fn lemma_new_line_keeps_indentation(v0: EditorView, v1: EditorView, r: Result<()>)
    requires
        v0.cursors.len() == 1,
        v0.buffer.text.len() < usize::MAX,
        edit_outcome(v0, v1, r, EditAt::NewLine),
        r is Ok,
    ensures
        v1.cursors.len() == 1,
        v1.cursors[0].line == v0.cursors[0].line + 1,
        blank_run(
            line_text(v0.buffer.text, v0.cursors[0].line as int),
            v1.cursors[0].column as int,
        ),
{
    let p = v0.cursors[0];
    let b = v0.buffer;
    assert(v0.cursors.reverse() =~= seq![p]);
    assert(seq![p].drop_last() =~= Seq::<CursorPosition>::empty());
    assert(edit_all(b, v0.overwrite_mode, EditAt::NewLine, Seq::<CursorPosition>::empty()) == Ok::<
        (BufferView, Seq<CursorPosition>),
        (BufferView, EditorError),
    >((b, Seq::empty())));
    let line = line_text(b.text, p.line as int);
    lemma_leading_indent_run(line);
    lemma_line_starts(b.text);
    crate::lines::lemma_num_lines_bound(b.text);
    if p.line < num_lines(b.text) {
        assert(line.len() == crate::lines::line_end(b.text, p.line as int) - line_start(b.text, p.line as int));
    }
    match edit_result(b, v0.overwrite_mode, EditAt::NewLine, p) {
        Ok((b2, q)) => {
            assert(Seq::<CursorPosition>::empty().push(q) =~= seq![q]);
            lemma_cursors_set_single(v1.cursors, q);
            assert(q.column as int == leading_indent(line).len());
        },
        Err(_) => {},
    }
}

/// `l` has a first character that is not white space, and `//` does not start there.
pub open spec fn starts_uncommented(l: Seq<char>) -> bool {
    exists|j: int|
        0 <= j < l.len() && (forall|k: int| 0 <= k < j ==> is_white_space(#[trigger] l[k]))
            && !is_white_space(l[j]) && !(j + 1 < l.len() && l[j] == '/' && l[j + 1] == '/')
}

/// Skipping the white space that `l` starts with leaves `l` from its first other character.
proof fn lemma_trim_start_ws_at(l: Seq<char>, j: int)
    requires
        0 <= j <= l.len(),
        forall|k: int| 0 <= k < j ==> is_white_space(#[trigger] l[k]),
        j < l.len() ==> !is_white_space(l[j]),
    ensures
        trim_start_ws(l) == l.skip(j),
    decreases j,
{
    if j == 0 {
        assert(l.skip(0) =~= l);
    } else {
        let r = l.skip(1);
        assert forall|k: int| 0 <= k < j - 1 implies is_white_space(#[trigger] r[k]) by {
            assert(r[k] == l[k + 1]);
        }
        if j - 1 < r.len() {
            assert(r[j - 1] == l[j]);
        }
        assert(is_white_space(l[0]));
        lemma_trim_start_ws_at(r, j - 1);
        assert(r.skip(j - 1) =~= l.skip(j));
    }
}

/// A line that starts, after white space, with something other than `//` is not blank and
/// has no comment marker to remove.
proof fn lemma_starts_uncommented(l: Seq<char>)
    requires
        starts_uncommented(l),
    ensures
        trim_start_ws(l).len() > 0,
        !has_prefix(trim_start_ws(l), comment_marker()),
{
    let j = choose|j: int|
        0 <= j < l.len() && (forall|k: int| 0 <= k < j ==> is_white_space(#[trigger] l[k]))
            && !is_white_space(l[j]) && !(j + 1 < l.len() && l[j] == '/' && l[j + 1] == '/');
    lemma_trim_start_ws_at(l, j);
    let rest = l.skip(j);
    assert(rest[0] == l[j]);
    if has_prefix(rest, comment_marker()) {
        assert(rest.take(2)[0] == rest[0]);
        assert(rest.take(2)[1] == rest[1]);
        assert(rest[1] == l[j + 1]);
    }
}

/// One line of the range starting, after white space, with something other than `//` keeps
/// the toggle from uncommenting.
proof fn lemma_uncommented_line_blocks(b: BufferView, idx: int, end: int, seen: bool, l0: usize)
    requires
        idx <= l0 <= end,
        l0 < num_lines(b.text),
        starts_uncommented(line_text(b.text, l0 as int)),
    ensures
        should_uncomment(b, idx, end, seen) != Ok::<bool, EditorError>(true),
    decreases end + 1 - idx,
{
    lemma_starts_uncommented(line_text(b.text, l0 as int));
    match b.line_result(idx as usize) {
        Err(_) => {},
        Ok(l) => {
            let rest = trim_start_ws(l);
            if rest.len() == 0 {
                assert(idx != l0);
                lemma_uncommented_line_blocks(b, idx + 1, end, seen, l0);
            } else if !has_prefix(rest, comment_marker()) {
            } else {
                assert(idx != l0);
                lemma_uncommented_line_blocks(b, idx + 1, end, true, l0);
            }
        },
    }
}

/// Commenting lines only ever adds characters.
#[verifier::spinoff_prover]
proof fn lemma_commenting_grows(b: BufferView, start: int, k: int, several: bool)
    requires
        toggle_lines_upto(b, start, k, false, several) is Ok,
    ensures
        toggle_lines_upto(b, start, k, false, several)->Ok_0.text.len() >= b.text.len(),
    decreases k - start,
{
    if k > start {
        lemma_commenting_grows(b, start, k - 1, several);
        let b1 = toggle_lines_upto(b, start, k - 1, false, several)->Ok_0;
        let line = (k - 1) as usize;
        assert(toggle_lines_upto(b, start, k, false, several) == comment_line_result(b1, line, several));
        reveal_strlit("// ");
        if b1.valid(line, 0) {
            lemma_line_starts(b1.text);
            crate::lines::lemma_index_of_valid(b1.text, line as int, 0);
            let i = b1.index(line, 0);
            assert((b1.text.take(i) + "// "@ + b1.text.skip(i)).len() == b1.text.len() + 3);
        }
    }
}

/// When a line of the toggled range starts, after white space, with something other than
/// `//`, toggling line comments comments lines and removes no marker: no character of the
/// text goes.
pub proof fn lemma_toggle_comments_uncommented_range(
    v0: EditorView,
    v1: EditorView,
    r: Result<()>,
    l0: usize,
)
    requires
        comment_range(v0).0 <= l0 <= comment_range(v0).1,
        l0 < num_lines(v0.buffer.text),
        starts_uncommented(line_text(v0.buffer.text, l0 as int)),
        toggle_comment_outcome(v0, v1, r),
        r is Ok,
    ensures
        should_uncomment(v0.buffer, comment_range(v0).0 as int, comment_range(v0).1 as int, false)
            == Ok::<bool, EditorError>(false),
        v1.buffer.text.len() >= v0.buffer.text.len(),
{
    let (start, end) = comment_range(v0);
    lemma_uncommented_line_blocks(v0.buffer, start as int, end as int, false, l0);
    lemma_commenting_grows(v0.buffer, start as int, end + 1, start != end);
}

/// `open` and `close` are one of the bracket pairs `()`, `[]`, `{}` and `<>`.
pub open spec fn is_bracket_pair(open: char, close: char) -> bool {
    (open == '(' && close == ')') || (open == '[' && close == ']') || (open == '{' && close == '}')
        || (open == '<' && close == '>')
}

/// On an opening bracket at `i`, a jump to the matching bracket lands on the first `j`
/// after it where the nesting of that pair over `t[i..=j]` comes back to zero; on a
/// closing bracket, on the last `j` before it where the nesting over `t[j..=i]` does.
pub proof fn lemma_jump_to_matching_bracket(
    b: BufferView,
    p: CursorPosition,
    open: char,
    close: char,
    j: int,
)
    requires
        is_bracket_pair(open, close),
        position_in(b, p),
        b.index(p.line, p.column) < b.text.len(),
        ({
            let t = b.text;
            let i = b.index(p.line, p.column);
            ||| (t[i] == open && i < j < t.len() && balance(t, i, j + 1, open, close) == 0
                && forall|k: int| i <= k < j ==> #[trigger] balance(t, i, k + 1, open, close) > 0)
            ||| (t[i] == close && 0 <= j < i && balance(t, j, i + 1, open, close) == 0
                && forall|k: int| j < k <= i ==> #[trigger] balance(t, k, i + 1, open, close) < 0)
        }),
    ensures
        motion_result(b, Motion::MatchingBracket, p) == Ok::<CursorPosition, EditorError>(
            position_of_index(b.text, j),
        ),
{
    let t = b.text;
    let i = b.index(p.line, p.column);
    lemma_line_starts(t);
    assert(0 <= i);
    if t[i] == open {
        assert(bracket_pair(t[i]) == Some((open, close, true)));
        lemma_forward_match(t, i, j, open, close);
    } else {
        assert(bracket_pair(t[i]) == Some((open, close, false)));
        lemma_backward_match(t, i, j, open, close);
    }
}

/// The forward scan from after an opening bracket stops where the nesting first returns to
/// zero.
proof fn lemma_forward_match(t: Seq<char>, i: int, j: int, open: char, close: char)
    requires
        open != close,
        0 <= i < j < t.len(),
        t[i] == open,
        balance(t, i, j + 1, open, close) == 0,
        forall|k: int| i <= k < j ==> #[trigger] balance(t, i, k + 1, open, close) > 0,
    ensures
        scan_forward(t, i + 1, 1, open, close) == j,
{
    let s = i + 1;
    lemma_balance_first(t, i, j + 1, open, close);
    assert(balance(t, s, j + 1, open, close) == -1);
    assert forall|q: int| s <= q <= j implies #[trigger] balance(t, s, q, open, close) >= 0 by {
        if q == s {
            assert(balance(t, s, s, open, close) == 0);
        } else {
            assert(balance(t, i, (q - 1) + 1, open, close) > 0);
            lemma_balance_first(t, i, q, open, close);
        }
    }
    assert(balance(t, s, s, open, close) == 0);
    lemma_scan_forward_reaches(t, s, s, j, 1, open, close);
}

/// The backward scan from before a closing bracket stops where the nesting first returns to
/// zero.
proof fn lemma_backward_match(t: Seq<char>, i: int, j: int, open: char, close: char)
    requires
        open != close,
        0 <= j < i < t.len(),
        t[i] == close,
        balance(t, j, i + 1, open, close) == 0,
        forall|k: int| j < k <= i ==> #[trigger] balance(t, k, i + 1, open, close) < 0,
    ensures
        scan_backward(t, i - 1, 1, open, close) == j,
{
    lemma_balance_split(t, j, i, i + 1, open, close);
    assert(balance(t, i, i + 1, open, close) == -1) by {
        assert(balance(t, i, i, open, close) == 0);
    }
    assert forall|q: int| j < q <= i - 1 implies #[trigger] balance(t, q, i, open, close) <= 0 by {
        lemma_balance_split(t, q, i, i + 1, open, close);
        assert(balance(t, q, i + 1, open, close) < 0);
    }
    assert(balance(t, i, i, open, close) == 0);
    lemma_scan_backward_reaches(t, j, i - 1, i, 1, open, close);
}

/// A letter or digit (as `char::is_alphanumeric` has it), or `_`.
pub open spec fn in_identifier(c: char) -> bool {
    crate::text::is_alphanumeric(c) || c == '_'
}

/// Skipping from `i` the characters that are (or, for `word == false`, are not) letters,
/// digits or `_` stops at `k` when all of `t[i..k]` are such characters and `t[k]` is not.
proof fn lemma_skip_right_to(t: Seq<char>, i: int, k: int, word: bool)
    requires
        0 <= i <= k <= t.len(),
        forall|m: int| i <= m < k ==> in_identifier(#[trigger] t[m]) == word,
        k < t.len() ==> in_identifier(t[k]) != word,
    ensures
        skip_right(t, i, word) == k,
    decreases k - i,
{
    if i < k {
        assert(in_identifier(t[i]) == word);
        lemma_skip_right_to(t, i + 1, k, word);
    }
}

/// A move one word right from the start of an identifier made of letters, digits and `_`
/// lands past the whole identifier and the gap of other characters after it.
#[verifier::spinoff_prover]
#[verifier::rlimit(40)]
pub proof fn lemma_word_right_skips_identifier(b: BufferView, p: CursorPosition, k: int, m: int)
    requires
        position_in(b, p),
        b.index(p.line, p.column) < k <= m <= b.text.len(),
        forall|x: int| b.index(p.line, p.column) <= x < k ==> in_identifier(#[trigger] b.text[x]),
        forall|x: int| k <= x < m ==> !in_identifier(#[trigger] b.text[x]),
        m < b.text.len() ==> in_identifier(b.text[m]) && k < m,
    ensures
        motion_result(b, Motion::WordRight, p) == Ok::<CursorPosition, EditorError>(
            position_of_index(b.text, m),
        ),
{
    let t = b.text;
    let i = b.index(p.line, p.column);
    lemma_line_starts(t);
    if k < t.len() {
        assert(!in_identifier(t[k]));
    }
    lemma_skip_right_to(t, i, k, true);
    lemma_skip_right_to(t, k, m, false);
    assert(word_right_target(t, i) == m);
    assert(t.len() > 0);
}
} // verus!
