use vstd::prelude::*;
use std::collections::VecDeque;
use crate::bookmark::{Bookmark, FileBookmarks};
use crate::cursor::CursorPosition;
use crate::text::{push_all, str_eq, string_from_chars};

verus! {

/// A reading of the system clock.
#[verifier::external_type_specification]
#[verifier::external_body]
pub struct ExSystemTime(std::time::SystemTime);

/// `SystemTime::now`: the system clock's current reading. Nothing is stated of it: it
/// comes from the clock.
#[verifier::external_body]
fn system_now() -> (t: std::time::SystemTime) {
    std::time::SystemTime::now()
}

/// Number of recent files a new session remembers.
pub const DEFAULT_RECENT_FILES_LIMIT: usize = 20;

/// Where a file was left: its cursor, the first visible line and whether it is the active one.
#[derive(Debug)]
pub struct OpenFileState {
    pub path: String,
    pub cursor_line: usize,
    pub cursor_column: usize,
    pub viewport_top: usize,
    pub active: bool,
}

impl Clone for OpenFileState {
    fn clone(&self) -> (r: Self)
        ensures
            r == *self,
    {
        OpenFileState {
            path: self.path.clone(),
            cursor_line: self.cursor_line,
            cursor_column: self.cursor_column,
            viewport_top: self.viewport_top,
            active: self.active,
        }
    }
}

/// The open files, recent files and saved bookmarks of an editing session.
#[derive(Debug)]
pub struct Session {
    pub open_files: Vec<OpenFileState>,
    pub recent_files: VecDeque<String>,
    pub recent_files_limit: usize,
    pub created_at: std::time::SystemTime,
    pub last_accessed: std::time::SystemTime,
    pub bookmarks: Vec<FileBookmarks>,
}

/// Index of the first open file at `path`, if any.
pub open spec fn first_open_at(files: Seq<OpenFileState>, path: Seq<char>) -> Option<int> {
    if exists|i: int| 0 <= i < files.len() && (#[trigger] files[i]).path@ == path {
        Some(
            choose|i: int|
                0 <= i < files.len() && (#[trigger] files[i]).path@ == path && forall|j: int|
                    0 <= j < i ==> files[j].path@ != path,
        )
    } else {
        None
    }
}

/// `s` with every string equal to `p` removed.
pub open spec fn without_string(s: Seq<String>, p: Seq<char>) -> Seq<String> {
    s.filter(|x: String| x@ != p)
}

/// The file paths and bookmark lists of saved bookmark sets.
pub open spec fn saved_views(s: Seq<FileBookmarks>) -> Seq<(Seq<char>, Seq<Bookmark>)> {
    s.map_values(|f: FileBookmarks| f@)
}

/// `s` cut to its first `n` elements, when longer.
pub open spec fn at_most<A>(s: Seq<A>, n: nat) -> Seq<A> {
    if s.len() > n { s.take(n as int) } else { s }
}

/// The recent-file list after `path` is opened: moved (or added) to the front, and the
/// list cut to `limit`.
pub open spec fn recent_after_open(recent: Seq<String>, path: String, limit: nat) -> Seq<String> {
    at_most(seq![path] + without_string(recent, path@), limit)
}

/// The open files after `add_open_file(path, cursor, viewport_top)`.
pub open spec fn files_after_open(
    files: Seq<OpenFileState>,
    path: String,
    cursor: CursorPosition,
    viewport_top: usize,
) -> Seq<OpenFileState> {
    match first_open_at(files, path@) {
        Some(k) => files.update(
            k,
            OpenFileState {
                cursor_line: cursor.line,
                cursor_column: cursor.column,
                viewport_top,
                ..files[k]
            },
        ),
        None => files.push(
            OpenFileState {
                path,
                cursor_line: cursor.line,
                cursor_column: cursor.column,
                viewport_top,
                active: false,
            },
        ),
    }
}

/// The open files after `set_active_file(path)`: those at `path` active, all others not.
pub open spec fn files_activated(files: Seq<OpenFileState>, path: Seq<char>) -> Seq<OpenFileState> {
    Seq::new(files.len(), |i: int| OpenFileState { active: files[i].path@ == path, ..files[i] })
}

proof fn lemma_first_open_at(files: Seq<OpenFileState>, path: Seq<char>, k: int)
    requires
        0 <= k < files.len(),
        files[k].path@ == path,
        forall|j: int| 0 <= j < k ==> files[j].path@ != path,
    ensures
        first_open_at(files, path) == Some(k),
{
    assert(exists|i: int| 0 <= i < files.len() && (#[trigger] files[i]).path@ == path);
    let c = choose|i: int|
        0 <= i < files.len() && (#[trigger] files[i]).path@ == path && forall|j: int|
            0 <= j < i ==> files[j].path@ != path;
    assert(files[k].path@ == path);
    if c < k {
        assert(files[c].path@ != path);
    }
    if c > k {
        assert(files[k].path@ != path);
    }
}

fn find_open_file(files: &Vec<OpenFileState>, path: &str) -> (r: Option<usize>)
    ensures
        r matches Some(k) ==> k < files@.len() && files@[k as int].path@ == path@
            && first_open_at(files@, path@) == Some(k as int),
        r is None ==> first_open_at(files@, path@) is None,
{
    let mut i: usize = 0;
    while i < files.len()
        invariant
            0 <= i <= files@.len(),
            forall|j: int| 0 <= j < i ==> files@[j].path@ != path@,
        decreases files@.len() - i,
    {
        if str_eq(files[i].path.as_str(), path) {
            proof {
                lemma_first_open_at(files@, path@, i as int);
            }
            return Some(i);
        }
        i += 1;
    }
    None
}

fn retain_strings_other_than(v: &VecDeque<String>, p: &str) -> (r: VecDeque<String>)
    ensures
        r@ == without_string(v@, p@),
{
    let mut out: VecDeque<String> = VecDeque::new();
    let n = v.len();
    let mut i: usize = 0;
    while i < n
        invariant
            n == v@.len(),
            0 <= i <= n,
            out@ == without_string(v@.take(i as int), p@),
        decreases n - i,
    {
        proof {
            reveal_with_fuel(Seq::filter, 1);
            assert(v@.take(i + 1).drop_last() == v@.take(i as int));
            assert(v@.take(i + 1).last() == v@[i as int]);
        }
        if !str_eq(v[i].as_str(), p) {
            out.push_back(v[i].clone());
        }
        i += 1;
    }
    proof {
        assert(v@.take(n as int) == v@);
    }
    out
}

/// The saved sets in `views` that are not for `path`, in order.
pub open spec fn views_without(views: Seq<(Seq<char>, Seq<Bookmark>)>, path: Seq<char>) -> Seq<
    (Seq<char>, Seq<Bookmark>),
> {
    views.filter(not_for(path))
}

/// Whether a saved set is for a file other than `path`.
pub open spec fn not_for(path: Seq<char>) -> spec_fn((Seq<char>, Seq<Bookmark>)) -> bool {
    |v: (Seq<char>, Seq<Bookmark>)| v.0 != path
}

/// What is saved for a file is what is then loaded for it: once `saved` (bookmarks for
/// `path`) has been saved, the first saved set for `path` is `saved`, or there is none when
/// `saved` holds no bookmark.
pub proof fn lemma_saved_bookmarks_load_back(
    before: Seq<FileBookmarks>,
    after: Seq<FileBookmarks>,
    path: Seq<char>,
    saved: FileBookmarks,
)
    requires
        saved.file_path@ == path,
        saved_views(after) == if saved.bookmarks@.len() > 0 {
            views_without(saved_views(before), path).push(saved@)
        } else {
            views_without(saved_views(before), path)
        },
    ensures
        saved.bookmarks@.len() > 0 ==> exists|i: int|
            0 <= i < after.len() && after[i]@ == saved@ && forall|j: int|
                0 <= j < i ==> (#[trigger] after[j]).file_path@ != path,
        saved.bookmarks@.len() == 0 ==> forall|j: int|
            0 <= j < after.len() ==> (#[trigger] after[j]).file_path@ != path,
{
    let kept = views_without(saved_views(before), path);
    assert(saved_views(after).len() == after.len());
    assert(after.len() >= kept.len());
    assert forall|j: int| 0 <= j < kept.len() implies (#[trigger] kept[j]).0 != path by {
        saved_views(before).lemma_filter_pred(not_for(path), j);
    }
    assert forall|j: int| 0 <= j < kept.len() implies (#[trigger] after[j]).file_path@ != path by {
        assert(saved_views(after)[j] == after[j]@);
        assert(saved_views(after)[j] == kept[j]);
    }
    if saved.bookmarks@.len() > 0 {
        let i = kept.len() as int;
        assert(saved_views(after)[i] == after[i]@);
        assert(after[i]@ == saved@);
    }
}

impl Session {
    pub fn new() -> (s: Self)
        ensures
            s.open_files@.len() == 0,
            s.recent_files@.len() == 0,
            s.recent_files_limit == DEFAULT_RECENT_FILES_LIMIT,
            s.bookmarks@.len() == 0,
    {
        let now = system_now();
        Self {
            open_files: Vec::new(),
            recent_files: VecDeque::new(),
            recent_files_limit: DEFAULT_RECENT_FILES_LIMIT,
            created_at: now,
            last_accessed: now,
            bookmarks: Vec::new(),
        }
    }

    /// Records where `path` was left: updates its entry, or appends an inactive one.
    pub fn add_open_file(&mut self, path: String, cursor: CursorPosition, viewport_top: usize)
        ensures
            match first_open_at(old(self).open_files@, path@) {
                Some(k) => final(self).open_files@ == old(self).open_files@.update(
                    k,
                    OpenFileState {
                        cursor_line: cursor.line,
                        cursor_column: cursor.column,
                        viewport_top,
                        ..old(self).open_files@[k]
                    },
                ),
                None => final(self).open_files@ == old(self).open_files@.push(
                    OpenFileState {
                        path,
                        cursor_line: cursor.line,
                        cursor_column: cursor.column,
                        viewport_top,
                        active: false,
                    },
                ),
            },
            final(self).recent_files == old(self).recent_files,
            final(self).recent_files_limit == old(self).recent_files_limit,
            final(self).bookmarks == old(self).bookmarks,
    {
        match find_open_file(&self.open_files, path.as_str()) {
            Some(k) => {
                let mut entry = self.open_files[k].clone();
                entry.cursor_line = cursor.line;
                entry.cursor_column = cursor.column;
                entry.viewport_top = viewport_top;
                self.open_files.set(k, entry);
            },
            None => {
                self.open_files.push(
                    OpenFileState {
                        path,
                        cursor_line: cursor.line,
                        cursor_column: cursor.column,
                        viewport_top,
                        active: false,
                    },
                );
            },
        }
        self.last_accessed = system_now();
    }

    /// Forgets every open file at `path`.
    pub fn remove_open_file(&mut self, path: &str)
        ensures
            final(self).open_files@ == old(self).open_files@.filter(
                |f: OpenFileState| f.path@ != path@,
            ),
            final(self).recent_files == old(self).recent_files,
            final(self).recent_files_limit == old(self).recent_files_limit,
            final(self).bookmarks == old(self).bookmarks,
    {
        let mut kept: Vec<OpenFileState> = Vec::new();
        let n = self.open_files.len();
        let mut i: usize = 0;
        while i < n
            invariant
                n == self.open_files@.len(),
                self.open_files@ == old(self).open_files@,
                0 <= i <= n,
                kept@ == self.open_files@.take(i as int).filter(|f: OpenFileState| f.path@ != path@),
            decreases n - i,
        {
            proof {
                reveal_with_fuel(Seq::filter, 1);
                assert(self.open_files@.take(i + 1).drop_last() == self.open_files@.take(i as int));
                assert(self.open_files@.take(i + 1).last() == self.open_files@[i as int]);
            }
            if !str_eq(self.open_files[i].path.as_str(), path) {
                kept.push(self.open_files[i].clone());
            }
            i += 1;
        }
        proof {
            assert(self.open_files@.take(n as int) == self.open_files@);
        }
        self.open_files = kept;
        self.last_accessed = system_now();
    }

    /// Marks the open files at `path` active and all others inactive.
    pub fn set_active_file(&mut self, path: &str)
        ensures
            final(self).open_files@.len() == old(self).open_files@.len(),
            forall|i: int|
                0 <= i < old(self).open_files@.len() ==> #[trigger] final(self).open_files@[i]
                    == (OpenFileState { active: old(self).open_files@[i].path@ == path@, ..old(self).open_files@[i] }),
            final(self).recent_files == old(self).recent_files,
            final(self).recent_files_limit == old(self).recent_files_limit,
            final(self).bookmarks == old(self).bookmarks,
    {
        let n = self.open_files.len();
        let mut i: usize = 0;
        while i < n
            invariant
                n == self.open_files@.len() == old(self).open_files@.len(),
                0 <= i <= n,
                self.recent_files == old(self).recent_files,
                self.recent_files_limit == old(self).recent_files_limit,
                self.bookmarks == old(self).bookmarks,
                forall|j: int|
                    0 <= j < i ==> #[trigger] self.open_files@[j] == (OpenFileState {
                        active: old(self).open_files@[j].path@ == path@,
                        ..old(self).open_files@[j]
                    }),
                forall|j: int| i <= j < n ==> #[trigger] self.open_files@[j] == old(self).open_files@[j],
            decreases n - i,
        {
            let mut entry = self.open_files[i].clone();
            entry.active = str_eq(entry.path.as_str(), path);
            self.open_files.set(i, entry);
            i += 1;
        }
        self.last_accessed = system_now();
    }

    /// Updates where `path` was left, if it is open.
    pub fn update_file_state(&mut self, path: &str, cursor: CursorPosition, viewport_top: usize)
        ensures
            match first_open_at(old(self).open_files@, path@) {
                Some(k) => final(self).open_files@ == old(self).open_files@.update(
                    k,
                    OpenFileState {
                        cursor_line: cursor.line,
                        cursor_column: cursor.column,
                        viewport_top,
                        ..old(self).open_files@[k]
                    },
                ),
                None => final(self).open_files@ == old(self).open_files@,
            },
            final(self).recent_files == old(self).recent_files,
            final(self).recent_files_limit == old(self).recent_files_limit,
            final(self).bookmarks == old(self).bookmarks,
    {
        match find_open_file(&self.open_files, path) {
            Some(k) => {
                let mut entry = self.open_files[k].clone();
                entry.cursor_line = cursor.line;
                entry.cursor_column = cursor.column;
                entry.viewport_top = viewport_top;
                self.open_files.set(k, entry);
                self.last_accessed = system_now();
            },
            None => {},
        }
    }

    /// Moves `path` to the front of the recent files, keeping at most the limit.
    pub fn add_to_recent_files(&mut self, path: String)
        ensures
            final(self).recent_files@ == recent_after_open(
                old(self).recent_files@,
                path,
                old(self).recent_files_limit as nat,
            ),
            final(self).open_files == old(self).open_files,
            final(self).recent_files_limit == old(self).recent_files_limit,
            final(self).bookmarks == old(self).bookmarks,
    {
        let mut recent = retain_strings_other_than(&self.recent_files, path.as_str());
        let ghost rest = recent@;
        let ghost p = path;
        recent.push_front(path);
        proof {
            assert(recent@ == (seq![p] + rest).take(recent@.len() as int));
        }
        let limit = self.recent_files_limit;
        while recent.len() > limit
            invariant
                (seq![p] + rest).len() >= recent@.len(),
                recent@ == (seq![p] + rest).take(recent@.len() as int),
                recent@.len() == (seq![p] + rest).len() || recent@.len() >= limit,
            decreases recent@.len(),
        {
            recent.pop_back();
        }
        proof {
            let full = seq![p] + rest;
            assert(recent@.len() == if full.len() > limit { limit as nat } else { full.len() });
            if full.len() <= limit {
                assert(full.take(full.len() as int) == full);
            }
        }
        self.recent_files = recent;
        self.last_accessed = system_now();
    }

    pub fn get_recent_files(&self) -> (r: Vec<String>)
        ensures
            r@ == self.recent_files@,
    {
        let mut out: Vec<String> = Vec::new();
        let n = self.recent_files.len();
        let mut i: usize = 0;
        while i < n
            invariant
                n == self.recent_files@.len(),
                0 <= i <= n,
                out@ == self.recent_files@.take(i as int),
            decreases n - i,
        {
            out.push(self.recent_files[i].clone());
            proof {
                assert(self.recent_files@.take(i + 1) == self.recent_files@.take(i as int).push(
                    self.recent_files@[i as int],
                ));
            }
            i += 1;
        }
        proof {
            assert(self.recent_files@.take(n as int) == self.recent_files@);
        }
        out
    }

    /// Sets the number of recent files kept, dropping the oldest ones beyond it.
    pub fn set_recent_files_limit(&mut self, limit: usize)
        ensures
            final(self).recent_files_limit == limit,
            final(self).recent_files@ == at_most(old(self).recent_files@, limit as nat),
            final(self).open_files == old(self).open_files,
            final(self).bookmarks == old(self).bookmarks,
    {
        self.recent_files_limit = limit;
        let mut recent = VecDeque::new();
        std::mem::swap(&mut recent, &mut self.recent_files);
        let ghost full = recent@;
        proof {
            assert(full.take(full.len() as int) == full);
        }
        while recent.len() > limit
            invariant
                full.len() >= recent@.len(),
                recent@ == full.take(recent@.len() as int),
                recent@.len() == full.len() || recent@.len() >= limit,
            decreases recent@.len(),
        {
            recent.pop_back();
        }
        proof {
            if full.len() <= limit {
                assert(full.take(full.len() as int) == full);
            }
        }
        self.recent_files = recent;
    }

    pub fn get_open_files(&self) -> (r: &[OpenFileState])
        ensures
            r@ == self.open_files@,
    {
        self.open_files.as_slice()
    }

    /// The first open file marked active.
    pub fn get_active_file(&self) -> (r: Option<&OpenFileState>)
        ensures
            r matches Some(f) ==> exists|i: int|
                0 <= i < self.open_files@.len() && *f == self.open_files@[i] && f.active && forall|j: int|
                    0 <= j < i ==> !(#[trigger] self.open_files@[j]).active,
            r is None ==> forall|j: int| 0 <= j < self.open_files@.len() ==> !(#[trigger] self.open_files@[j]).active,
    {
        let mut i: usize = 0;
        while i < self.open_files.len()
            invariant
                0 <= i <= self.open_files@.len(),
                forall|j: int| 0 <= j < i ==> !(#[trigger] self.open_files@[j]).active,
            decreases self.open_files@.len() - i,
        {
            if self.open_files[i].active {
                return Some(&self.open_files[i]);
            }
            i += 1;
        }
        None
    }

    /// Replaces the saved bookmarks of `file_path`; an empty set is not kept.
    pub fn save_bookmarks(&mut self, file_path: String, bookmarks: FileBookmarks)
        ensures
            ({
                let kept = views_without(saved_views(old(self).bookmarks@), file_path@);
                if bookmarks.bookmarks@.len() > 0 {
                    saved_views(final(self).bookmarks@) == kept.push(bookmarks@)
                } else {
                    saved_views(final(self).bookmarks@) == kept
                }
            }),
            final(self).open_files == old(self).open_files,
            final(self).recent_files == old(self).recent_files,
            final(self).recent_files_limit == old(self).recent_files_limit,
    {
        self.drop_bookmarks_of(file_path.as_str());
        if bookmarks.bookmarks.len() > 0 {
            let ghost before = self.bookmarks@;
            let ghost b = bookmarks@;
            self.bookmarks.push(bookmarks);
            proof {
                assert(saved_views(self.bookmarks@) =~= saved_views(before).push(b));
            }
        }
        self.last_accessed = system_now();
    }

    fn drop_bookmarks_of(&mut self, file_path: &str)
        ensures
            saved_views(final(self).bookmarks@) == views_without(saved_views(old(self).bookmarks@), file_path@),
            final(self).open_files == old(self).open_files,
            final(self).recent_files == old(self).recent_files,
            final(self).recent_files_limit == old(self).recent_files_limit,
    {
        let mut kept: Vec<FileBookmarks> = Vec::new();
        let n = self.bookmarks.len();
        let mut i: usize = 0;
        while i < n
            invariant
                n == self.bookmarks@.len(),
                self.bookmarks@ == old(self).bookmarks@,
                0 <= i <= n,
                saved_views(kept@) == views_without(saved_views(self.bookmarks@.take(i as int)), file_path@),
            decreases n - i,
        {
            proof {
                reveal_with_fuel(Seq::filter, 1);
                let t = self.bookmarks@.take(i + 1);
                assert(saved_views(t).drop_last() == saved_views(self.bookmarks@.take(i as int)));
                assert(saved_views(t).last() == self.bookmarks@[i as int]@);
            }
            if !str_eq(self.bookmarks[i].file_path.as_str(), file_path) {
                let ghost before = kept@;
                kept.push(self.bookmarks[i].clone());
                proof {
                    assert(saved_views(kept@) =~= saved_views(before).push(self.bookmarks@[i as int]@));
                }
            }
            i += 1;
        }
        proof {
            assert(self.bookmarks@.take(n as int) == self.bookmarks@);
        }
        self.bookmarks = kept;
    }

    /// The saved bookmarks of `file_path`.
    pub fn load_bookmarks(&self, file_path: &str) -> (r: Option<&FileBookmarks>)
        ensures
            r matches Some(fb) ==> exists|i: int|
                0 <= i < self.bookmarks@.len() && *fb == self.bookmarks@[i] && fb.file_path@ == file_path@
                    && forall|j: int| 0 <= j < i ==> (#[trigger] self.bookmarks@[j]).file_path@ != file_path@,
            r is None ==> forall|j: int|
                0 <= j < self.bookmarks@.len() ==> (#[trigger] self.bookmarks@[j]).file_path@ != file_path@,
    {
        let mut i: usize = 0;
        while i < self.bookmarks.len()
            invariant
                0 <= i <= self.bookmarks@.len(),
                forall|j: int| 0 <= j < i ==> (#[trigger] self.bookmarks@[j]).file_path@ != file_path@,
            decreases self.bookmarks@.len() - i,
        {
            if str_eq(self.bookmarks[i].file_path.as_str(), file_path) {
                return Some(&self.bookmarks[i]);
            }
            i += 1;
        }
        None
    }

    /// Forgets the saved bookmarks of `file_path`.
    pub fn remove_bookmarks(&mut self, file_path: &str)
        ensures
            saved_views(final(self).bookmarks@) == views_without(saved_views(old(self).bookmarks@), file_path@),
            final(self).open_files == old(self).open_files,
            final(self).recent_files == old(self).recent_files,
            final(self).recent_files_limit == old(self).recent_files_limit,
    {
        self.drop_bookmarks_of(file_path);
        self.last_accessed = system_now();
    }
}

/// Where sessions are kept below the home directory.
pub open spec fn session_dir() -> Seq<char> {
    seq!['.', 'c', 'o', 'n', 'f', 'i', 'g', '/', 'e', 'd', 'i', 't', 'o', 'r', '-', 'r', 's']
}

/// `base` joined with the relative path `rest`, as `Path::join` does on Unix.
pub open spec fn join_path(base: Seq<char>, rest: Seq<char>) -> Seq<char> {
    if base.len() == 0 {
        rest
    } else if base.last() == '/' {
        base + rest
    } else {
        base + seq!['/'] + rest
    }
}

/// The decimal digits of `n`.
pub open spec fn decimal_digits(n: nat) -> Seq<char>
    decreases n,
{
    if n < 10 {
        seq![(('0' as u32) + n) as char]
    } else {
        decimal_digits(n / 10) + seq![(('0' as u32) + (n % 10)) as char]
    }
}

/// The session file name for process `pid`.
pub open spec fn session_file_name(pid: u32) -> Seq<char> {
    seq!['s', 'e', 's', 's', 'i', 'o', 'n', '-'] + decimal_digits(pid as nat) + seq!['.', 't', 'o', 'm', 'l']
}

/// The decimal digits of `n`.
pub fn decimal_chars(n: u64) -> (r: Vec<char>)
    ensures
        r@ == decimal_digits(n as nat),
    decreases n,
{
    if n < 10 {
        let c = char_for_digit(n);
        let mut v: Vec<char> = Vec::new();
        v.push(c);
        v
    } else {
        let mut v = decimal_chars(n / 10);
        v.push(char_for_digit(n % 10));
        v
    }
}

/// The decimal digits of the one-based number of `n`, that is of `n + 1`.
pub fn one_based_chars(n: usize) -> (r: Vec<char>)
    ensures
        r@ == decimal_digits((n + 1) as nat),
{
    wide_decimal_chars(n as u128 + 1)
}

fn wide_decimal_chars(n: u128) -> (r: Vec<char>)
    ensures
        r@ == decimal_digits(n as nat),
    decreases n,
{
    if n < 10 {
        let c = char_for_digit(n as u64);
        let mut v: Vec<char> = Vec::new();
        v.push(c);
        v
    } else {
        let mut v = wide_decimal_chars(n / 10);
        v.push(char_for_digit((n % 10) as u64));
        v
    }
}

fn char_for_digit(d: u64) -> (c: char)
    requires
        d < 10,
    ensures
        c == (('0' as u32) + d) as char,
{
    if d == 0 {
        '0'
    } else if d == 1 {
        '1'
    } else if d == 2 {
        '2'
    } else if d == 3 {
        '3'
    } else if d == 4 {
        '4'
    } else if d == 5 {
        '5'
    } else if d == 6 {
        '6'
    } else if d == 7 {
        '7'
    } else if d == 8 {
        '8'
    } else {
        '9'
    }
}

/// `rest` joined onto the path `base`, with one `/` between them.
pub fn join_path_chars(base: &[char], rest: &[char]) -> (r: Vec<char>)
    ensures
        r@ == join_path(base@, rest@),
{
    let mut out: Vec<char> = Vec::new();
    push_all(&mut out, base);
    if base.len() > 0 && base[base.len() - 1] != '/' {
        out.push('/');
    }
    push_all(&mut out, rest);
    proof {
        if base@.len() == 0 {
            assert(out@ =~= rest@);
        } else if base@.last() == '/' {
            assert(out@ =~= base@ + rest@);
        } else {
            assert(out@ =~= base@ + seq!['/'] + rest@);
        }
    }
    out
}

impl Default for Session {
    fn default() -> (s: Self)
        ensures
            s.open_files@.len() == 0,
            s.recent_files@.len() == 0,
            s.recent_files_limit == DEFAULT_RECENT_FILES_LIMIT,
            s.bookmarks@.len() == 0,
    {
        Session::new()
    }
}

/// Keeps the path of this process's session file.
pub struct SessionManager {
    session_path: String,
}

impl SessionManager {
    /// The manager of process `pid`'s session below the home directory `home`:
    /// `<home>/.config/editor-rs/session-<pid>.toml`.
    pub fn for_home(home: &str, pid: u32) -> (m: Self)
        ensures
            m.spec_session_path() == join_path(join_path(home@, session_dir()), session_file_name(pid)),
    {
        let home_chars = crate::text::chars_of(home);
        let dir: Vec<char> = vec!['.', 'c', 'o', 'n', 'f', 'i', 'g', '/', 'e', 'd', 'i', 't', 'o', 'r', '-', 'r', 's'];
        let base = join_path_chars(&home_chars, &dir);
        let mut name: Vec<char> = vec!['s', 'e', 's', 's', 'i', 'o', 'n', '-'];
        let digits = decimal_chars(pid as u64);
        push_all(&mut name, &digits);
        let suffix: Vec<char> = vec!['.', 't', 'o', 'm', 'l'];
        push_all(&mut name, &suffix);
        let full = join_path_chars(&base, &name);
        proof {
            assert(dir@ == session_dir());
            assert(name@ =~= session_file_name(pid));
        }
        Self { session_path: string_from_chars(&full) }
    }

    pub fn with_custom_path(path: String) -> (m: Self)
        ensures
            m.spec_session_path() == path@,
    {
        Self { session_path: path }
    }

    /// The session file's path.
    pub closed spec fn spec_session_path(&self) -> Seq<char> {
        self.session_path@
    }

    pub fn session_path(&self) -> (r: &str)
        ensures
            r@ == self.spec_session_path(),
    {
        self.session_path.as_str()
    }
}

} // verus!
