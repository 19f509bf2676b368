//! The text buffer: a rope of characters addressed by `(line, column)`, with the line
//! ending and encoding its file uses on disk.
//!
//! In memory every line break from a CR LF file is a single `'\n'`; the file's own
//! line ending comes back when the content is written out.

use vstd::prelude::*;
use crate::error::{EditorError, Result};
use crate::lines::{
    index_of, lemma_column_within_line, lemma_index_of_valid, lemma_line_of, lemma_line_starts,
    line_length, line_of, line_start, line_text, num_lines, valid_position,
};
use crate::rope::{
    rope_char_to_line, rope_clone, rope_from_str, rope_get_char, rope_insert, rope_insert_char,
    rope_len_chars, rope_len_lines, rope_line_char, rope_line_len_chars, rope_line_string,
    rope_line_to_char, rope_new, rope_remove, rope_text, rope_to_string,
};
use crate::text::{chars_of, contains_chars, contains_seq, string_from_chars};

verus! {

/// How lines end in a file.
#[derive(Debug, Clone, Copy, PartialEq, Eq, Structural)]
pub enum LineEnding {
    Lf,
    Crlf,
}

/// The character encoding of a file.
#[derive(Debug, Clone, Copy, PartialEq, Eq, Structural)]
pub enum Encoding {
    Utf8,
}

/// The characters a line ending is written with.
pub open spec fn line_ending_chars(e: LineEnding) -> Seq<char> {
    match e {
        LineEnding::Lf => seq!['\n'],
        LineEnding::Crlf => seq!['\r', '\n'],
    }
}

/// The line ending a text uses: CR LF as soon as it holds one CR LF pair.
pub open spec fn detected_line_ending(s: Seq<char>) -> LineEnding {
    if contains_seq(s, seq!['\r', '\n']) {
        LineEnding::Crlf
    } else {
        LineEnding::Lf
    }
}

/// A CR LF pair starts at position `i` of `s`.
pub open spec fn crlf_at(s: Seq<char>, i: int) -> bool {
    0 <= i && i + 1 < s.len() && s[i] == '\r' && s[i + 1] == '\n'
}

/// `s` with every CR LF pair, taken from the left, replaced by a single `'\n'`.
pub open spec fn normalized(s: Seq<char>) -> Seq<char>
    decreases s.len(),
{
    if s.len() == 0 {
        s
    } else if crlf_at(s, 0) {
        seq!['\n'] + normalized(s.skip(2))
    } else {
        seq![s[0]] + normalized(s.skip(1))
    }
}

/// How one character is written out under a CR LF ending.
pub open spec fn crlf_piece(c: char) -> Seq<char> {
    if c == '\n' {
        seq!['\r', '\n']
    } else {
        seq![c]
    }
}

/// `s` with every `'\n'` written as CR LF.
pub open spec fn with_crlf(s: Seq<char>) -> Seq<char>
    decreases s.len(),
{
    if s.len() == 0 {
        Seq::empty()
    } else {
        with_crlf(s.drop_last()) + crlf_piece(s.last())
    }
}

/// `s` written out with line ending `e`.
pub open spec fn with_line_ending(s: Seq<char>, e: LineEnding) -> Seq<char> {
    match e {
        LineEnding::Lf => s,
        LineEnding::Crlf => with_crlf(s),
    }
}

impl LineEnding {
    /// The characters this line ending is written with.
    pub fn as_str(&self) -> (r: &str)
        ensures
            r@ == line_ending_chars(*self),
    {
        match self {
            LineEnding::Lf => {
                proof {
                    reveal_strlit("\n");
                }
                "\n"
            },
            LineEnding::Crlf => {
                proof {
                    reveal_strlit("\r\n");
                }
                "\r\n"
            },
        }
    }

    /// The line ending `content` uses.
    pub fn detect(content: &str) -> (r: LineEnding)
        ensures
            r == detected_line_ending(content@),
    {
        let chars = chars_of(content);
        let pair: Vec<char> = vec!['\r', '\n'];
        assert(pair@ == seq!['\r', '\n']);
        if contains_chars(chars.as_slice(), pair.as_slice()) {
            LineEnding::Crlf
        } else {
            LineEnding::Lf
        }
    }
}

/// `content` with every CR LF pair turned into `'\n'`.
pub fn normalize_line_endings(content: &str) -> (r: String)
    ensures
        r@ == normalized(content@),
{
    let chars = chars_of(content);
    let n = chars.len();
    let mut out: Vec<char> = Vec::new();
    let mut i: usize = 0;
    assert(chars@.skip(0) == chars@);
    assert(out@ + normalized(chars@) == normalized(chars@));
    while i < n
        invariant
            n == chars@.len(),
            i <= n,
            out@ + normalized(chars@.skip(i as int)) == normalized(chars@),
        decreases n - i,
    {
        let rest = Ghost(chars@.skip(i as int));
        if chars[i] == '\r' && i + 1 < n && chars[i + 1] == '\n' {
            proof {
                assert(crlf_at(rest@, 0));
                assert(rest@.skip(2) == chars@.skip(i + 2));
                assert(out@.push('\n') + normalized(chars@.skip(i + 2)) == out@ + (seq!['\n']
                    + normalized(rest@.skip(2))));
            }
            out.push('\n');
            i += 2;
        } else {
            let c = chars[i];
            proof {
                assert(!crlf_at(rest@, 0));
                assert(rest@.skip(1) == chars@.skip(i + 1));
                assert(rest@[0] == c);
                assert(out@.push(c) + normalized(chars@.skip(i + 1)) == out@ + (seq![c]
                    + normalized(rest@.skip(1))));
            }
            out.push(c);
            i += 1;
        }
    }
    proof {
        assert(normalized(chars@.skip(n as int)) == Seq::<char>::empty());
        assert(out@ + Seq::<char>::empty() == out@);
    }
    string_from_chars(out.as_slice())
}

/// `s` with every `'\n'` written as CR LF.
pub fn crlf_chars(s: &[char]) -> (r: Vec<char>)
    ensures
        r@ == with_crlf(s@),
{
    let mut out: Vec<char> = Vec::new();
    let mut i: usize = 0;
    while i < s.len()
        invariant
            i <= s@.len(),
            out@ == with_crlf(s@.take(i as int)),
        decreases s@.len() - i,
    {
        proof {
            assert(s@.take(i + 1).drop_last() == s@.take(i as int));
            assert(s@.take(i + 1).last() == s@[i as int]);
        }
        if s[i] == '\n' {
            out.push('\r');
            out.push('\n');
        } else {
            out.push(s[i]);
        }
        i += 1;
    }
    assert(s@.take(s@.len() as int) == s@);
    out
}

/// Files larger than this many bytes have their line ending detected from a sample.
pub const LARGE_FILE_BYTES: u64 = 10_000_000;

/// How many leading characters of a large file the line ending is detected from.
pub const LINE_ENDING_SAMPLE_CHARS: usize = 8192;

/// The view of an optional string.
pub open spec fn opt_chars(o: Option<String>) -> Option<Seq<char>> {
    match o {
        Some(s) => Some(s@),
        None => None,
    }
}

/// What a buffer holds: its text and what it knows of its file.
pub struct BufferView {
    pub text: Seq<char>,
    pub file_path: Option<Seq<char>>,
    pub modified: bool,
    pub line_ending: LineEnding,
    pub encoding: Encoding,
}

impl BufferView {
    /// The same buffer holding `text`, marked modified.
    pub open spec fn edited(self, text: Seq<char>) -> BufferView {
        BufferView { text, modified: true, ..self }
    }

    /// `(line, column)` names a place in the text.
    pub open spec fn valid(self, line: usize, column: usize) -> bool {
        valid_position(self.text, line as int, column as int)
    }

    /// The character index of `(line, column)`.
    pub open spec fn index(self, line: usize, column: usize) -> int {
        index_of(self.text, line as int, column as int)
    }

    /// What `Buffer::line_len` returns.
    pub open spec fn line_len_result(self, line: usize) -> core::result::Result<usize, EditorError> {
        if line < num_lines(self.text) {
            Ok(line_length(self.text, line as int) as usize)
        } else {
            Err(position_error(line, 0))
        }
    }

    /// What `Buffer::line` returns, as characters.
    pub open spec fn line_result(self, line: usize) -> core::result::Result<Seq<char>, EditorError> {
        if line < num_lines(self.text) {
            Ok(line_text(self.text, line as int))
        } else {
            Err(position_error(line, 0))
        }
    }

    /// The buffer `Buffer::insert_char` leaves, or its error.
    pub open spec fn insert_char_result(self, line: usize, column: usize, ch: char) -> core::result::Result<
        BufferView,
        EditorError,
    > {
        if self.valid(line, column) {
            Ok(self.edited(self.text.insert(self.index(line, column), ch)))
        } else {
            Err(position_error(line, column))
        }
    }

    /// The buffer `Buffer::delete_char` leaves, or its error.
    pub open spec fn delete_char_result(self, line: usize, column: usize) -> core::result::Result<
        BufferView,
        EditorError,
    > {
        if self.valid(line, column) && self.index(line, column) < self.text.len() {
            Ok(self.edited(self.text.remove(self.index(line, column))))
        } else {
            Err(position_error(line, column))
        }
    }

    /// The buffer `Buffer::insert_str` leaves, or its error.
    pub open spec fn insert_str_result(self, line: usize, column: usize, s: Seq<char>) -> core::result::Result<
        BufferView,
        EditorError,
    > {
        if self.valid(line, column) {
            Ok(
                self.edited(
                    self.text.take(self.index(line, column)) + s + self.text.skip(
                        self.index(line, column),
                    ),
                ),
            )
        } else {
            Err(position_error(line, column))
        }
    }

    /// The buffer `Buffer::delete_range` leaves, or its error.
    pub open spec fn delete_range_result(
        self,
        start_line: usize,
        start_col: usize,
        end_line: usize,
        end_col: usize,
    ) -> core::result::Result<BufferView, EditorError> {
        if !self.valid(start_line, start_col) {
            Err(position_error(start_line, start_col))
        } else if self.valid(end_line, end_col) && self.index(start_line, start_col) <= self.index(
            end_line,
            end_col,
        ) {
            Ok(
                self.edited(
                    self.text.take(self.index(start_line, start_col)) + self.text.skip(
                        self.index(end_line, end_col),
                    ),
                ),
            )
        } else {
            Err(position_error(end_line, end_col))
        }
    }
}

/// The error for a place that is not in the text.
pub open spec fn position_error(line: usize, column: usize) -> EditorError {
    EditorError::InvalidPosition { line, column }
}

/// A text buffer backed by a rope.
#[derive(Debug)]
pub struct Buffer {
    rope: ropey::Rope,
    file_path: Option<String>,
    modified: bool,
    line_ending: LineEnding,
    encoding: Encoding,
}

impl View for Buffer {
    type V = BufferView;

    closed spec fn view(&self) -> BufferView {
        BufferView {
            text: rope_text(self.rope),
            file_path: opt_chars(self.file_path),
            modified: self.modified,
            line_ending: self.line_ending,
            encoding: self.encoding,
        }
    }
}

impl Buffer {
    /// An empty, unmodified buffer with no file.
    pub fn new() -> (b: Buffer)
        ensures
            b@.text == Seq::<char>::empty(),
            b@.file_path is None,
            !b@.modified,
            b@.line_ending == LineEnding::Lf,
            b@.encoding == Encoding::Utf8,
    {
        Buffer {
            rope: rope_new(),
            file_path: None,
            modified: false,
            line_ending: LineEnding::Lf,
            encoding: Encoding::Utf8,
        }
    }

    /// A buffer holding `content` with its CR LF pairs turned into `'\n'`; the line ending
    /// is the one `content` uses.
    pub fn from_string(content: &str) -> (b: Buffer)
        ensures
            b@.text == normalized(content@),
            b@.file_path is None,
            !b@.modified,
            b@.line_ending == detected_line_ending(content@),
            b@.encoding == Encoding::Utf8,
    {
        let line_ending = LineEnding::detect(content);
        let normal = normalize_line_endings(content);
        Buffer {
            rope: rope_from_str(normal.as_str()),
            file_path: None,
            modified: false,
            line_ending,
            encoding: Encoding::Utf8,
        }
    }

    /// The buffer for a file at `path` whose content was read as `content`, the file being
    /// `file_size` bytes long. For a file over `LARGE_FILE_BYTES` the line ending is
    /// detected from its first `LINE_ENDING_SAMPLE_CHARS` characters only.
    pub fn from_file_content(path: String, content: &str, file_size: u64) -> (b: Buffer)
        ensures
            b@.text == normalized(content@),
            b@.file_path == Some(path@),
            !b@.modified,
            b@.line_ending == (if file_size > LARGE_FILE_BYTES {
                detected_line_ending(content@.take(min_len(content@.len(), LINE_ENDING_SAMPLE_CHARS)))
            } else {
                detected_line_ending(content@)
            }),
            b@.encoding == Encoding::Utf8,
    {
        let line_ending = if file_size > LARGE_FILE_BYTES {
            let chars = chars_of(content);
            let n = if chars.len() < LINE_ENDING_SAMPLE_CHARS {
                chars.len()
            } else {
                LINE_ENDING_SAMPLE_CHARS
            };
            let pair: Vec<char> = vec!['\r', '\n'];
            assert(pair@ == seq!['\r', '\n']);
            assert(chars@.subrange(0, n as int) == content@.take(n as int));
            if contains_chars(&chars.as_slice()[0..n], pair.as_slice()) {
                LineEnding::Crlf
            } else {
                LineEnding::Lf
            }
        } else {
            LineEnding::detect(content)
        };
        let normal = normalize_line_endings(content);
        Buffer {
            rope: rope_from_str(normal.as_str()),
            file_path: Some(path),
            modified: false,
            line_ending,
            encoding: Encoding::Utf8,
        }
    }
}

/// The smaller of a length and a count.
pub open spec fn min_len(n: nat, m: usize) -> int {
    if n < m { n as int } else { m as int }
}

impl Buffer {
    /// Number of lines (line breaks plus one).
    pub fn line_count(&self) -> (n: usize)
        ensures
            n == num_lines(self@.text),
    {
        rope_len_lines(&self.rope)
    }

    /// Line `line_idx` with its line break.
    pub fn line(&self, line_idx: usize) -> (r: Result<String>)
        ensures
            match r {
                Ok(t) => line_idx < num_lines(self@.text) && t@ == line_text(
                    self@.text,
                    line_idx as int,
                ),
                Err(e) => line_idx >= num_lines(self@.text) && e == position_error(line_idx, 0),
            },
    {
        if line_idx < self.line_count() {
            Ok(rope_line_string(&self.rope, line_idx))
        } else {
            Err(EditorError::InvalidPosition { line: line_idx, column: 0 })
        }
    }

    /// Length of line `line_idx` without a final `'\n'`.
    pub fn line_len(&self, line_idx: usize) -> (r: Result<usize>)
        ensures
            match r {
                Ok(n) => line_idx < num_lines(self@.text) && n == line_length(
                    self@.text,
                    line_idx as int,
                ),
                Err(e) => line_idx >= num_lines(self@.text) && e == position_error(line_idx, 0),
            },
    {
        if line_idx < self.line_count() {
            let len = rope_line_len_chars(&self.rope, line_idx);
            if len > 0 && rope_line_char(&self.rope, line_idx, len - 1) == '\n' {
                Ok(len - 1)
            } else {
                Ok(len)
            }
        } else {
            Err(EditorError::InvalidPosition { line: line_idx, column: 0 })
        }
    }

    /// The character index of `(line, column)`: `Ok` exactly when the line exists and the
    /// column is at most its length.
    pub fn char_index(&self, line: usize, column: usize) -> (r: Result<usize>)
        ensures
            match r {
                Ok(i) => self@.valid(line, column) && i == self@.index(line, column),
                Err(e) => !self@.valid(line, column) && e == position_error(line, column),
            },
    {
        if line >= self.line_count() {
            return Err(EditorError::InvalidPosition { line, column });
        }
        let total = rope_len_chars(&self.rope);
        let start = rope_line_to_char(&self.rope, line);
        let len = match self.line_len(line) {
            Ok(n) => n,
            Err(e) => return Err(e),
        };
        if column > len {
            return Err(EditorError::InvalidPosition { line, column });
        }
        proof {
            lemma_index_of_valid(self@.text, line as int, column as int);
        }
        Ok(start + column)
    }

    /// The `(line, column)` of character index `idx`; `idx` may be the end of the text.
    pub fn char_to_line_col(&self, idx: usize) -> (r: Result<(usize, usize)>)
        ensures
            idx <= self@.text.len() ==> r == Ok::<(usize, usize), EditorError>(
                (
                    line_of(self@.text, idx as int) as usize,
                    (idx - line_start(self@.text, line_of(self@.text, idx as int))) as usize,
                ),
            ),
            idx > self@.text.len() ==> r == Err::<(usize, usize), EditorError>(
                position_error((num_lines(self@.text) - 1) as usize, 0),
            ),
            idx <= self@.text.len() ==> (r matches Ok((l, c)) && l == line_of(self@.text, idx as int)
                && c == idx - line_start(self@.text, line_of(self@.text, idx as int))),
    {
        proof {
            lemma_line_starts(self@.text);
        }
        if idx > rope_len_chars(&self.rope) {
            return Err(
                EditorError::InvalidPosition { line: self.line_count().saturating_sub(1), column: 0 },
            );
        }
        proof {
            lemma_line_of(self@.text, idx as int);
            lemma_column_within_line(self@.text, idx as int);
        }
        let line = rope_char_to_line(&self.rope, idx);
        let start = rope_line_to_char(&self.rope, line);
        let column = idx - start;
        let len = match self.line_len(line) {
            Ok(n) => n,
            Err(e) => return Err(e),
        };
        if column > len {
            Err(EditorError::InvalidPosition { line, column })
        } else {
            Ok((line, column))
        }
    }

    /// Number of characters.
    pub fn len_chars(&self) -> (n: usize)
        ensures
            n == self@.text.len(),
    {
        rope_len_chars(&self.rope)
    }

    /// The character at `idx`, if there is one.
    pub fn char_at(&self, idx: usize) -> (c: Option<char>)
        ensures
            c == (if idx < self@.text.len() {
                Some(self@.text[idx as int])
            } else {
                None
            }),
    {
        rope_get_char(&self.rope, idx)
    }

    /// The whole text.
    pub fn content(&self) -> (s: String)
        ensures
            s@ == self@.text,
    {
        rope_to_string(&self.rope)
    }

    /// The text as it is written to the file: each `'\n'` becomes the file's line ending.
    pub fn content_with_line_endings(&self) -> (s: String)
        ensures
            s@ == with_line_ending(self@.text, self@.line_ending),
    {
        match self.line_ending {
            LineEnding::Lf => rope_to_string(&self.rope),
            LineEnding::Crlf => {
                let text = rope_to_string(&self.rope);
                let chars = chars_of(text.as_str());
                let out = crlf_chars(chars.as_slice());
                string_from_chars(out.as_slice())
            },
        }
    }

    /// Whether the text changed since it was loaded or saved.
    pub fn is_modified(&self) -> (b: bool)
        ensures
            b == self@.modified,
    {
        self.modified
    }

    /// The file the buffer belongs to, if any.
    pub fn file_path(&self) -> (p: Option<&String>)
        ensures
            match p {
                Some(s) => self@.file_path == Some(s@),
                None => self@.file_path is None,
            },
    {
        match &self.file_path {
            Some(s) => Some(s),
            None => None,
        }
    }

    /// The line ending the file is written with.
    pub fn line_ending(&self) -> (e: LineEnding)
        ensures
            e == self@.line_ending,
    {
        self.line_ending
    }

    /// The encoding of the file.
    pub fn encoding(&self) -> (e: Encoding)
        ensures
            e == self@.encoding,
    {
        self.encoding
    }
}

impl Buffer {
    /// Inserts `ch` at `(line, column)`.
    pub fn insert_char(&mut self, line: usize, column: usize, ch: char) -> (r: Result<()>)
        ensures
            old(self)@.valid(line, column) ==> r is Ok && final(self)@ == old(self)@.edited(
                old(self)@.text.insert(old(self)@.index(line, column), ch),
            ),
            !old(self)@.valid(line, column) ==> r == Err::<(), EditorError>(
                position_error(line, column),
            ) && final(self)@ == old(self)@,
    {
        let idx = match self.char_index(line, column) {
            Ok(i) => i,
            Err(e) => return Err(e),
        };
        proof {
            lemma_index_of_valid(self@.text, line as int, column as int);
        }
        rope_insert_char(&mut self.rope, idx, ch);
        self.modified = true;
        Ok(())
    }

    /// Deletes the character at `(line, column)`; there must be one.
    pub fn delete_char(&mut self, line: usize, column: usize) -> (r: Result<()>)
        ensures
            old(self)@.valid(line, column) && old(self)@.index(line, column) < old(self)@.text.len()
                ==> r is Ok && final(self)@ == old(self)@.edited(
                old(self)@.text.remove(old(self)@.index(line, column)),
            ),
            !(old(self)@.valid(line, column) && old(self)@.index(line, column)
                < old(self)@.text.len()) ==> r == Err::<(), EditorError>(
                position_error(line, column),
            ) && final(self)@ == old(self)@,
    {
        let idx = match self.char_index(line, column) {
            Ok(i) => i,
            Err(e) => return Err(e),
        };
        if idx < self.len_chars() {
            proof {
                assert(self@.text.take(idx as int) + self@.text.skip(idx + 1)
                    == self@.text.remove(idx as int));
            }
            rope_remove(&mut self.rope, idx, idx + 1);
            self.modified = true;
            Ok(())
        } else {
            Err(EditorError::InvalidPosition { line, column })
        }
    }

    /// Inserts `s` at `(line, column)`.
    pub fn insert_str(&mut self, line: usize, column: usize, s: &str) -> (r: Result<()>)
        ensures
            old(self)@.valid(line, column) ==> r is Ok && final(self)@ == old(self)@.edited(
                old(self)@.text.take(old(self)@.index(line, column)) + s@ + old(self)@.text.skip(
                    old(self)@.index(line, column),
                ),
            ),
            !old(self)@.valid(line, column) ==> r == Err::<(), EditorError>(
                position_error(line, column),
            ) && final(self)@ == old(self)@,
    {
        let idx = match self.char_index(line, column) {
            Ok(i) => i,
            Err(e) => return Err(e),
        };
        proof {
            lemma_index_of_valid(self@.text, line as int, column as int);
        }
        rope_insert(&mut self.rope, idx, s);
        self.modified = true;
        Ok(())
    }

    /// Deletes the text from `(start_line, start_col)` up to `(end_line, end_col)`. Both
    /// places must be in the text, the start not after the end.
    pub fn delete_range(
        &mut self,
        start_line: usize,
        start_col: usize,
        end_line: usize,
        end_col: usize,
    ) -> (r: Result<()>)
        ensures
            !old(self)@.valid(start_line, start_col) ==> r == Err::<(), EditorError>(
                position_error(start_line, start_col),
            ) && final(self)@ == old(self)@,
            old(self)@.valid(start_line, start_col) && !(old(self)@.valid(end_line, end_col)
                && old(self)@.index(start_line, start_col) <= old(self)@.index(end_line, end_col))
                ==> r == Err::<(), EditorError>(position_error(end_line, end_col))
                && final(self)@ == old(self)@,
            old(self)@.valid(start_line, start_col) && old(self)@.valid(end_line, end_col)
                && old(self)@.index(start_line, start_col) <= old(self)@.index(end_line, end_col)
                ==> r is Ok && final(self)@ == old(self)@.edited(
                old(self)@.text.take(old(self)@.index(start_line, start_col))
                    + old(self)@.text.skip(old(self)@.index(end_line, end_col)),
            ),
    {
        let start = match self.char_index(start_line, start_col) {
            Ok(i) => i,
            Err(e) => return Err(e),
        };
        let end = match self.char_index(end_line, end_col) {
            Ok(i) => i,
            Err(e) => return Err(e),
        };
        proof {
            lemma_index_of_valid(self@.text, end_line as int, end_col as int);
        }
        if start <= end && end <= self.len_chars() {
            rope_remove(&mut self.rope, start, end);
            self.modified = true;
            Ok(())
        } else {
            Err(EditorError::InvalidPosition { line: end_line, column: end_col })
        }
    }

    /// Replaces the whole text with `content`, taken as it is.
    pub fn set_content(&mut self, content: String)
        ensures
            final(self)@ == old(self)@.edited(content@),
    {
        self.rope = rope_from_str(content.as_str());
        self.modified = true;
    }

    /// Sets the line ending the file is written with; this counts as a modification.
    pub fn set_line_ending(&mut self, line_ending: LineEnding)
        ensures
            final(self)@ == (BufferView { line_ending, modified: true, ..old(self)@ }),
    {
        self.line_ending = line_ending;
        self.modified = true;
    }

    /// Records that the text was just written to its file.
    pub fn mark_saved(&mut self)
        ensures
            final(self)@ == (BufferView { modified: false, ..old(self)@ }),
    {
        self.modified = false;
    }

    /// Records that the text was just written to `path`, which becomes its file.
    pub fn mark_saved_as(&mut self, path: String)
        ensures
            final(self)@ == (BufferView { file_path: Some(path@), modified: false, ..old(self)@ }),
    {
        self.file_path = Some(path);
        self.modified = false;
    }
}

impl Clone for Buffer {
    fn clone(&self) -> (b: Self)
        ensures
            b@ == self@,
    {
        let file_path = match &self.file_path {
            Some(p) => Some(p.clone()),
            None => None,
        };
        Buffer {
            rope: rope_clone(&self.rope),
            file_path,
            modified: self.modified,
            line_ending: self.line_ending,
            encoding: self.encoding,
        }
    }
}

impl Default for Buffer {
    fn default() -> (b: Self)
        ensures
            b@.text == Seq::<char>::empty(),
            b@.file_path is None,
            !b@.modified,
            b@.line_ending == LineEnding::Lf,
            b@.encoding == Encoding::Utf8,
    {
        Buffer::new()
    }
}

/// Every `'\n'` of `s` closes a CR LF pair.
pub open spec fn crlf_only(s: Seq<char>) -> bool {
    forall|i: int| 0 <= i < s.len() && #[trigger] s[i] == '\n' ==> i > 0 && s[i - 1] == '\r'
}

/// Writing out respects concatenation.
pub proof fn lemma_with_crlf_append(a: Seq<char>, b: Seq<char>)
    ensures
        with_crlf(a + b) == with_crlf(a) + with_crlf(b),
    decreases b.len(),
{
    if b.len() == 0 {
        assert(a + b == a);
        assert(with_crlf(a) + Seq::<char>::empty() == with_crlf(a));
    } else {
        lemma_with_crlf_append(a, b.drop_last());
        assert((a + b).drop_last() == a + b.drop_last());
        assert((a + b).last() == b.last());
    }
}

/// A text without CR LF pairs is already normalized.
pub proof fn lemma_normalized_without_crlf(s: Seq<char>)
    requires
        !contains_seq(s, seq!['\r', '\n']),
    ensures
        normalized(s) == s,
    decreases s.len(),
{
    if s.len() > 0 {
        assert(!crlf_at(s, 0)) by {
            if crlf_at(s, 0) {
                assert(s.subrange(0, 2) =~= seq!['\r', '\n']);
                assert(crate::text::occurs_at(s, seq!['\r', '\n'], 0));
            }
        }
        assert(!contains_seq(s.skip(1), seq!['\r', '\n'])) by {
            if contains_seq(s.skip(1), seq!['\r', '\n']) {
                let i = choose|i: int| crate::text::occurs_at(s.skip(1), seq!['\r', '\n'], i);
                assert(s.skip(1).subrange(i, i + 2) == s.subrange(i + 1, i + 3));
                assert(crate::text::occurs_at(s, seq!['\r', '\n'], i + 1));
            }
        }
        lemma_normalized_without_crlf(s.skip(1));
        assert(seq![s[0]] + s.skip(1) == s);
    }
}

/// Normalizing a CR LF text and writing it out with CR LF gives the text back.
pub proof fn lemma_crlf_round_trip(s: Seq<char>)
    requires
        crlf_only(s),
    ensures
        with_crlf(normalized(s)) == s,
    decreases s.len(),
{
    if s.len() > 0 {
        if crlf_at(s, 0) {
            let rest = s.skip(2);
            assert forall|i: int| 0 <= i < rest.len() && #[trigger] rest[i] == '\n' implies i > 0
                && rest[i - 1] == '\r' by {
                assert(s[i + 2] == '\n');
            }
            lemma_crlf_round_trip(rest);
            lemma_with_crlf_append(seq!['\n'], normalized(rest));
            assert(seq!['\n'].drop_last() == Seq::<char>::empty());
            assert(with_crlf(Seq::<char>::empty()) == Seq::<char>::empty());
            assert(Seq::<char>::empty() + seq!['\r', '\n'] == seq!['\r', '\n']);
            assert(with_crlf(seq!['\n']) == seq!['\r', '\n']);
            assert(seq!['\r', '\n'] + rest == s);
        } else {
            assert(s[0] != '\n');
            let rest = s.skip(1);
            assert forall|i: int| 0 <= i < rest.len() && #[trigger] rest[i] == '\n' implies i > 0
                && rest[i - 1] == '\r' by {
                assert(s[i + 1] == '\n');
            }
            lemma_crlf_round_trip(rest);
            lemma_with_crlf_append(seq![s[0]], normalized(rest));
            assert(seq![s[0]].drop_last() == Seq::<char>::empty());
            assert(with_crlf(Seq::<char>::empty()) == Seq::<char>::empty());
            assert(Seq::<char>::empty() + seq![s[0]] == seq![s[0]]);
            assert(with_crlf(seq![s[0]]) == seq![s[0]]);
            assert(seq![s[0]] + rest == s);
        }
    }
}

/// Line endings are preserved: a text that uses one line ending throughout (no CR LF at
/// all, or every `'\n'` in a CR LF pair) is written out exactly as it was read.
pub proof fn lemma_line_ending_preserved(s: Seq<char>)
    requires
        !contains_seq(s, seq!['\r', '\n']) || crlf_only(s),
    ensures
        with_line_ending(normalized(s), detected_line_ending(s)) == s,
{
    if contains_seq(s, seq!['\r', '\n']) {
        lemma_crlf_round_trip(s);
    } else {
        lemma_normalized_without_crlf(s);
    }
}

} // verus!
