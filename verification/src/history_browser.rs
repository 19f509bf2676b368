use vstd::prelude::*;
use crate::git_history::graph::{
    format_graph_line, generate_commit_graph, graph_marker, graph_rows, lemma_graph_marker_len,
    seven_bytes_on_boundary,
    string_views, CommitGraphNode,
};
use crate::git_history::types::{clone_opt_string, CommitInfo};
use crate::text::{chars_of, contains_chars, contains_seq, lowercase, to_lower};

verus! {

/// What the diff pane shows.
#[derive(Debug)]
pub enum DiffViewMode {
    FullDiff,
    FileDiff(String),
    SideBySide,
    SideBySideFile(String),
}

impl Clone for DiffViewMode {
    fn clone(&self) -> (r: Self)
        ensures
            r == *self,
    {
        match self {
            DiffViewMode::FullDiff => DiffViewMode::FullDiff,
            DiffViewMode::FileDiff(f) => DiffViewMode::FileDiff(f.clone()),
            DiffViewMode::SideBySide => DiffViewMode::SideBySide,
            DiffViewMode::SideBySideFile(f) => DiffViewMode::SideBySideFile(f.clone()),
        }
    }
}

/// The value a `HistoryBrowser` holds.
pub struct HistoryBrowserView {
    pub commits: Seq<CommitInfo>,
    pub selected_index: usize,
    pub page_size: usize,
    pub current_page: usize,
    pub selected_file: Option<String>,
    pub diff_view_mode: DiffViewMode,
    pub base_commit_index: Option<usize>,
    pub search_query: Option<String>,
    pub filtered_indices: Option<Seq<usize>>,
    pub file_filter: Option<String>,
}

/// A filter string that is present and not empty.
pub open spec fn active_filter(f: Option<String>) -> bool {
    f matches Some(s) && s@.len() > 0
}

/// Whether `c` passes the search (over message, author name, author e-mail and id) and the
/// file filter (over the message), both compared in lower case.
pub open spec fn passes_filters(c: CommitInfo, search: Option<String>, file: Option<String>) -> bool {
    let search_ok = match search {
        Some(q) => q@.len() == 0 || {
            let ql = lowercase(q@);
            contains_seq(lowercase(c.message@), ql) || contains_seq(lowercase(c.author_name@), ql)
                || contains_seq(lowercase(c.author_email@), ql) || contains_seq(
                lowercase(c.id@),
                ql,
            )
        },
        None => true,
    };
    let file_ok = match file {
        Some(f) => f@.len() == 0 || contains_seq(lowercase(c.message@), lowercase(f@)),
        None => true,
    };
    search_ok && file_ok
}

/// The indices, in order, of the first `n` commits that pass the filters.
pub open spec fn passing_indices(
    commits: Seq<CommitInfo>,
    n: nat,
    search: Option<String>,
    file: Option<String>,
) -> Seq<usize>
    decreases n,
{
    if n == 0 {
        seq![]
    } else {
        let prev = passing_indices(commits, (n - 1) as nat, search, file);
        if passes_filters(commits[n - 1], search, file) {
            prev.push((n - 1) as usize)
        } else {
            prev
        }
    }
}

/// Number of pages of `len` commits, `page_size` per page.
pub open spec fn pages_for(len: nat, page_size: nat) -> nat {
    if len == 0 || page_size == 0 {
        0
    } else {
        ((len + page_size - 1) / page_size as int) as nat
    }
}

impl HistoryBrowserView {
    /// The same browser with `index` selected and the page following it.
    pub open spec fn select(self, index: usize) -> HistoryBrowserView {
        HistoryBrowserView {
            selected_index: index,
            current_page: (index / self.page_size) as usize,
            ..self
        }
    }

    /// The browser as it is right after loading `commits`.
    pub open spec fn fresh(self, commits: Seq<CommitInfo>) -> HistoryBrowserView {
        HistoryBrowserView {
            commits,
            selected_index: 0,
            current_page: 0,
            selected_file: None,
            diff_view_mode: DiffViewMode::FullDiff,
            base_commit_index: None,
            search_query: None,
            filtered_indices: None,
            file_filter: None,
            ..self
        }
    }

    /// The browser after the search query and file filter are applied to the commit list.
    pub open spec fn filtered(self) -> HistoryBrowserView {
        if !active_filter(self.search_query) && !active_filter(self.file_filter) {
            HistoryBrowserView { filtered_indices: None, ..self }
        } else {
            let idx = passing_indices(
                self.commits,
                self.commits.len(),
                self.search_query,
                self.file_filter,
            );
            let with = HistoryBrowserView { filtered_indices: Some(idx), ..self };
            if idx.len() > 0 {
                with.select(idx[0])
            } else {
                with
            }
        }
    }
}

/// Browses the commits of a history: selection, pages, search and file filters, and which
/// two commits a diff compares.
#[derive(Debug)]
pub struct HistoryBrowser {
    commits: Vec<CommitInfo>,
    selected_index: usize,
    page_size: usize,
    current_page: usize,
    selected_file: Option<String>,
    diff_view_mode: DiffViewMode,
    base_commit_index: Option<usize>,
    search_query: Option<String>,
    filtered_indices: Option<Vec<usize>>,
    file_filter: Option<String>,
}

impl View for HistoryBrowser {
    type V = HistoryBrowserView;

    closed spec fn view(&self) -> HistoryBrowserView {
        HistoryBrowserView {
            commits: self.commits@,
            selected_index: self.selected_index,
            page_size: self.page_size,
            current_page: self.current_page,
            selected_file: self.selected_file,
            diff_view_mode: self.diff_view_mode,
            base_commit_index: self.base_commit_index,
            search_query: self.search_query,
            filtered_indices: match self.filtered_indices {
                Some(v) => Some(v@),
                None => None,
            },
            file_filter: self.file_filter,
        }
    }
}

/// The browser's standing facts: pages are never empty, the current page is the page of
/// the selected commit, and the selection is a commit (or zero when there are none).
pub open spec fn browser_ok(v: HistoryBrowserView) -> bool {
    &&& v.page_size > 0
    &&& v.current_page == v.selected_index / v.page_size
    &&& (v.selected_index < v.commits.len() || (v.commits.len() == 0 && v.selected_index == 0))
}

impl HistoryBrowser {
    /// The browser's standing facts hold (see `browser_ok`) and every kept index names a
    /// commit.
    pub closed spec fn wf(&self) -> bool {
        browser_ok(self@) && self.indices_in_range()
    }

    pub fn new() -> (b: Self)
        ensures
            b.wf(),
            b@ == (HistoryBrowserView {
                commits: Seq::empty(),
                selected_index: 0,
                page_size: 20,
                current_page: 0,
                selected_file: None,
                diff_view_mode: DiffViewMode::FullDiff,
                base_commit_index: None,
                search_query: None,
                filtered_indices: None,
                file_filter: None,
            }),
    {
        Self::with_commits(Vec::new())
    }

    pub fn with_commits(commits: Vec<CommitInfo>) -> (b: Self)
        ensures
            b.wf(),
            b@ == (HistoryBrowserView {
                commits: commits@,
                selected_index: 0,
                page_size: 20,
                current_page: 0,
                selected_file: None,
                diff_view_mode: DiffViewMode::FullDiff,
                base_commit_index: None,
                search_query: None,
                filtered_indices: None,
                file_filter: None,
            }),
    {
        Self {
            commits,
            selected_index: 0,
            page_size: 20,
            current_page: 0,
            selected_file: None,
            diff_view_mode: DiffViewMode::FullDiff,
            base_commit_index: None,
            search_query: None,
            filtered_indices: None,
            file_filter: None,
        }
    }

    /// A well-formed browser keeps its standing facts.
    pub proof fn lemma_wf_facts(&self)
        requires
            self.wf(),
        ensures
            browser_ok(self@),
            match self@.filtered_indices {
                Some(idx) => forall|i: int| 0 <= i < idx.len() ==> (#[trigger] idx[i]) < self@.commits.len(),
                None => true,
            },
    {
    }

    /// Loads `commits`, resetting selection, filters and diff settings (the page size stays).
    pub fn set_commits(&mut self, commits: Vec<CommitInfo>)
        requires
            old(self).wf(),
        ensures
            final(self).wf(),
            final(self)@ == old(self)@.fresh(commits@),
    {
        self.commits = commits;
        self.selected_index = 0;
        self.current_page = 0;
        self.selected_file = None;
        self.diff_view_mode = DiffViewMode::FullDiff;
        self.base_commit_index = None;
        self.search_query = None;
        self.filtered_indices = None;
        self.file_filter = None;
    }

    pub fn commits(&self) -> (r: &[CommitInfo])
        ensures
            r@ == self@.commits,
    {
        self.commits.as_slice()
    }

    pub fn selected_index(&self) -> (r: usize)
        ensures
            r == self@.selected_index,
    {
        self.selected_index
    }

    pub fn selected_commit(&self) -> (r: Option<&CommitInfo>)
        ensures
            self@.selected_index < self@.commits.len() ==> r == Some(
                &self@.commits[self@.selected_index as int],
            ),
            self@.selected_index >= self@.commits.len() ==> r is None,
    {
        if self.selected_index < self.commits.len() {
            Some(&self.commits[self.selected_index])
        } else {
            None
        }
    }

    /// Selects the next commit, if there is one.
    pub fn select_next(&mut self) -> (moved: bool)
        requires
            old(self).wf(),
        ensures
            final(self).wf(),
            moved == (old(self)@.selected_index + 1 < old(self)@.commits.len()),
            moved ==> final(self)@ == old(self)@.select((old(self)@.selected_index + 1) as usize),
            !moved ==> final(self)@ == old(self)@,
    {
        let len = self.commits.len();
        if self.selected_index + 1 < len {
            self.selected_index = self.selected_index + 1;
            self.current_page = self.selected_index / self.page_size;
            true
        } else {
            false
        }
    }

    /// Selects the previous commit, if there is one.
    pub fn select_previous(&mut self) -> (moved: bool)
        requires
            old(self).wf(),
        ensures
            final(self).wf(),
            moved == (old(self)@.selected_index > 0),
            moved ==> final(self)@ == old(self)@.select((old(self)@.selected_index - 1) as usize),
            !moved ==> final(self)@ == old(self)@,
    {
        if self.selected_index > 0 {
            self.selected_index = self.selected_index - 1;
            self.current_page = self.selected_index / self.page_size;
            true
        } else {
            false
        }
    }

    /// Selects commit `index`, if there is one.
    pub fn select_commit(&mut self, index: usize) -> (moved: bool)
        requires
            old(self).wf(),
        ensures
            final(self).wf(),
            moved == (index < old(self)@.commits.len()),
            moved ==> final(self)@ == old(self)@.select(index),
            !moved ==> final(self)@ == old(self)@,
    {
        if index < self.commits.len() {
            self.selected_index = index;
            self.current_page = self.selected_index / self.page_size;
            true
        } else {
            false
        }
    }

    pub fn page_size(&self) -> (r: usize)
        ensures
            r == self@.page_size,
    {
        self.page_size
    }

    /// Sets a non-zero page size (zero is ignored) and moves to the selected commit's page.
    pub fn set_page_size(&mut self, page_size: usize)
        requires
            old(self).wf(),
        ensures
            final(self).wf(),
            page_size > 0 ==> final(self)@ == (HistoryBrowserView { page_size, ..old(self)@ }).select(
                old(self)@.selected_index,
            ),
            page_size == 0 ==> final(self)@ == old(self)@,
    {
        if page_size > 0 {
            self.page_size = page_size;
            self.current_page = self.selected_index / page_size;
        }
    }

    pub fn current_page(&self) -> (r: usize)
        ensures
            r == self@.current_page,
    {
        self.current_page
    }

    pub fn total_pages(&self) -> (r: usize)
        ensures
            r == pages_for(self@.commits.len(), self@.page_size as nat),
    {
        if self.commits.len() == 0 || self.page_size == 0 {
            0
        } else {
            let len = self.commits.len();
            let ps = self.page_size;
            let q = len / ps;
            proof {
                assert(len % ps != 0 ==> q < len) by (nonlinear_arith)
                    requires
                        ps > 0,
                        q == len / ps,
                ;
            }
            let r = if len % ps != 0 { q + 1 } else { q };
            proof {
                assert(r == (len + ps - 1) / ps as int) by (nonlinear_arith)
                    requires
                        ps > 0,
                        q == len / ps,
                        r == if len % ps != 0 { q + 1 } else { q as int },
                ;
            }
            r
        }
    }

    /// The commits of the current page.
    pub fn page_commits(&self) -> (r: &[CommitInfo])
        requires
            self.wf(),
        ensures
            self@.commits.len() == 0 ==> r@.len() == 0,
            self@.commits.len() > 0 ==> r@ == self@.commits.subrange(
                (self@.current_page * self@.page_size) as int,
                if self@.current_page * self@.page_size + self@.page_size <= self@.commits.len() {
                    self@.current_page * self@.page_size + self@.page_size
                } else {
                    self@.commits.len() as int
                },
            ),
    {
        if self.commits.len() == 0 {
            return &self.commits.as_slice()[0..0];
        }
        proof {
            assert(self.current_page * self.page_size <= self.selected_index) by (nonlinear_arith)
                requires
                    self.page_size > 0,
                    self.current_page == self.selected_index / self.page_size,
            ;
        }
        let start = self.current_page * self.page_size;
        let end = if self.page_size <= self.commits.len() - start {
            start + self.page_size
        } else {
            self.commits.len()
        };
        &self.commits.as_slice()[start..end]
    }

    /// Moves to the next page and selects its first commit.
    pub fn next_page(&mut self) -> (moved: bool)
        requires
            old(self).wf(),
        ensures
            final(self).wf(),
            moved == (pages_for(old(self)@.commits.len(), old(self)@.page_size as nat) > 0
                && old(self)@.current_page + 1 < pages_for(
                old(self)@.commits.len(),
                old(self)@.page_size as nat,
            )),
            moved ==> final(self)@ == (HistoryBrowserView {
                current_page: (old(self)@.current_page + 1) as usize,
                selected_index: ((old(self)@.current_page + 1) * old(self)@.page_size) as usize,
                ..old(self)@
            }),
            !moved ==> final(self)@ == old(self)@,
    {
        let total_pages = self.total_pages();
        let len0 = self.commits.len();
        proof {
            assert(self.current_page <= self.selected_index) by (nonlinear_arith)
                requires
                    self.page_size > 0,
                    self.current_page == self.selected_index / self.page_size,
            ;
        }
        if total_pages > 0 && self.current_page + 1 < total_pages {
            let next = self.current_page + 1;
            let len = self.commits.len();
            let ps = self.page_size;
            proof {
                assert(next * ps < len) by (nonlinear_arith)
                    requires
                        ps > 0,
                        next + 1 <= (len + ps - 1) / ps as int,
                ;
                assert((next * ps) / ps as int == next) by (nonlinear_arith)
                    requires
                        ps > 0,
                ;
            }
            self.current_page = next;
            self.selected_index = next * ps;
            true
        } else {
            false
        }
    }

    /// Moves to the previous page and selects its first commit.
    pub fn previous_page(&mut self) -> (moved: bool)
        requires
            old(self).wf(),
        ensures
            final(self).wf(),
            moved == (old(self)@.current_page > 0),
            moved ==> final(self)@ == (HistoryBrowserView {
                current_page: (old(self)@.current_page - 1) as usize,
                selected_index: ((old(self)@.current_page - 1) * old(self)@.page_size) as usize,
                ..old(self)@
            }),
            !moved ==> final(self)@ == old(self)@,
    {
        if self.current_page > 0 {
            let prev = self.current_page - 1;
            let ps = self.page_size;
            proof {
                assert(prev * ps < self.current_page * ps) by (nonlinear_arith)
                    requires
                        ps > 0,
                        prev + 1 == self.current_page,
                ;
                assert(self.current_page * ps <= self.selected_index) by (nonlinear_arith)
                    requires
                        ps > 0,
                        self.current_page == self.selected_index / ps,
                ;
                assert((prev * ps) / ps as int == prev) by (nonlinear_arith)
                    requires
                        ps > 0,
                ;
            }
            self.current_page = prev;
            self.selected_index = prev * ps;
            true
        } else {
            false
        }
    }

    pub fn selected_file(&self) -> (r: Option<&str>)
        ensures
            match self@.selected_file {
                Some(f) => (r matches Some(s) && s@ == f@),
                None => r is None,
            },
    {
        match &self.selected_file {
            Some(f) => Some(f.as_str()),
            None => None,
        }
    }

    /// Chooses the file whose diff is shown (`None` for the whole commit).
    pub fn set_selected_file(&mut self, file: Option<String>)
        requires
            old(self).wf(),
        ensures
            final(self).wf(),
            final(self)@ == (HistoryBrowserView {
                selected_file: file,
                diff_view_mode: match file {
                    Some(f) => DiffViewMode::FileDiff(f),
                    None => DiffViewMode::FullDiff,
                },
                ..old(self)@
            }),
    {
        self.selected_file = clone_opt_string(&file);
        match file {
            Some(f) => {
                self.diff_view_mode = DiffViewMode::FileDiff(f);
            },
            None => {
                self.diff_view_mode = DiffViewMode::FullDiff;
            },
        }
    }

    pub fn clear_selected_file(&mut self)
        requires
            old(self).wf(),
        ensures
            final(self).wf(),
            final(self)@ == (HistoryBrowserView {
                selected_file: None,
                diff_view_mode: DiffViewMode::FullDiff,
                ..old(self)@
            }),
    {
        self.selected_file = None;
        self.diff_view_mode = DiffViewMode::FullDiff;
    }

    pub fn diff_view_mode(&self) -> (r: &DiffViewMode)
        ensures
            *r == self@.diff_view_mode,
    {
        &self.diff_view_mode
    }

    /// Sets the diff mode; a per-file mode also selects its file, a whole-commit mode clears it.
    pub fn set_diff_view_mode(&mut self, mode: DiffViewMode)
        requires
            old(self).wf(),
        ensures
            final(self).wf(),
            final(self)@ == (HistoryBrowserView {
                diff_view_mode: mode,
                selected_file: match mode {
                    DiffViewMode::FileDiff(f) => Some(f),
                    DiffViewMode::SideBySideFile(f) => Some(f),
                    _ => None,
                },
                ..old(self)@
            }),
    {
        self.diff_view_mode = mode.clone();
        match mode {
            DiffViewMode::FileDiff(file) | DiffViewMode::SideBySideFile(file) => {
                self.selected_file = Some(file);
            },
            DiffViewMode::FullDiff | DiffViewMode::SideBySide => {
                self.selected_file = None;
            },
        }
    }

    pub fn base_commit_index(&self) -> (r: Option<usize>)
        ensures
            r == self@.base_commit_index,
    {
        self.base_commit_index
    }

    pub fn base_commit(&self) -> (r: Option<&CommitInfo>)
        ensures
            match self@.base_commit_index {
                Some(i) => if i < self@.commits.len() {
                    r == Some(&self@.commits[i as int])
                } else {
                    r is None
                },
                None => r is None,
            },
    {
        match self.base_commit_index {
            Some(idx) => {
                if idx < self.commits.len() {
                    Some(&self.commits[idx])
                } else {
                    None
                }
            },
            None => None,
        }
    }

    /// Sets (or clears) the commit diffs are taken against; refuses an index past the end.
    pub fn set_base_commit(&mut self, index: Option<usize>) -> (ok: bool)
        requires
            old(self).wf(),
        ensures
            final(self).wf(),
            ok == match index {
                Some(i) => i < old(self)@.commits.len(),
                None => true,
            },
            ok ==> final(self)@ == (HistoryBrowserView { base_commit_index: index, ..old(self)@ }),
            !ok ==> final(self)@ == old(self)@,
    {
        match index {
            Some(idx) => {
                if idx < self.commits.len() {
                    self.base_commit_index = Some(idx);
                    true
                } else {
                    false
                }
            },
            None => {
                self.base_commit_index = None;
                true
            },
        }
    }

    /// The (from, to) commits of the diff to show: from the base commit, or else from the
    /// commit after the selected one, to the selected commit.
    pub fn get_diff_commits(&self) -> (r: Option<(&CommitInfo, &CommitInfo)>)
        ensures
            ({
                let v = self@;
                let from = match v.base_commit_index {
                    Some(b) => b as int,
                    None => v.selected_index + 1,
                };
                if v.selected_index < v.commits.len() && from < v.commits.len() {
                    (r matches Some((f, t)) && *f == v.commits[from] && *t == v.commits[v.selected_index as int])
                } else {
                    r is None
                }
            }),
    {
        let to_commit = match self.selected_commit() {
            Some(c) => c,
            None => return None,
        };
        match self.base_commit_index {
            Some(base_idx) => {
                if base_idx < self.commits.len() {
                    Some((&self.commits[base_idx], to_commit))
                } else {
                    None
                }
            },
            None => {
                let len = self.commits.len();
                let from_idx = self.selected_index + 1;
                if from_idx >= self.commits.len() {
                    return None;
                }
                Some((&self.commits[from_idx], to_commit))
            },
        }
    }

    pub fn is_empty(&self) -> (r: bool)
        ensures
            r == (self@.commits.len() == 0),
    {
        self.commits.len() == 0
    }

    pub fn len(&self) -> (r: usize)
        ensures
            r == self@.commits.len(),
    {
        self.commits.len()
    }

    /// Drops all commits and resets selection, filters and diff settings.
    pub fn clear(&mut self)
        requires
            old(self).wf(),
        ensures
            final(self).wf(),
            final(self)@ == old(self)@.fresh(Seq::empty()),
    {
        self.set_commits(Vec::new());
    }

    /// Switches between unified and side-by-side diffs, keeping the selected file.
    pub fn toggle_side_by_side(&mut self)
        requires
            old(self).wf(),
        ensures
            final(self).wf(),
            final(self)@ == (HistoryBrowserView {
                diff_view_mode: match old(self)@.diff_view_mode {
                    DiffViewMode::FullDiff => DiffViewMode::SideBySide,
                    DiffViewMode::FileDiff(f) => DiffViewMode::SideBySideFile(f),
                    DiffViewMode::SideBySide => DiffViewMode::FullDiff,
                    DiffViewMode::SideBySideFile(f) => DiffViewMode::FileDiff(f),
                },
                ..old(self)@
            }),
    {
        let next = match &self.diff_view_mode {
            DiffViewMode::FullDiff => DiffViewMode::SideBySide,
            DiffViewMode::FileDiff(file) => DiffViewMode::SideBySideFile(file.clone()),
            DiffViewMode::SideBySide => DiffViewMode::FullDiff,
            DiffViewMode::SideBySideFile(file) => DiffViewMode::FileDiff(file.clone()),
        };
        self.diff_view_mode = next;
    }

    pub fn is_side_by_side(&self) -> (r: bool)
        ensures
            r == (self@.diff_view_mode is SideBySide || self@.diff_view_mode is SideBySideFile),
    {
        match self.diff_view_mode {
            DiffViewMode::SideBySide | DiffViewMode::SideBySideFile(_) => true,
            _ => false,
        }
    }

    pub fn select_first(&mut self) -> (moved: bool)
        requires
            old(self).wf(),
        ensures
            final(self).wf(),
            moved == (old(self)@.commits.len() > 0),
            moved ==> final(self)@ == old(self)@.select(0),
            !moved ==> final(self)@ == old(self)@,
    {
        if self.commits.len() > 0 {
            self.selected_index = 0;
            self.current_page = 0;
            true
        } else {
            false
        }
    }

    pub fn select_last(&mut self) -> (moved: bool)
        requires
            old(self).wf(),
        ensures
            final(self).wf(),
            moved == (old(self)@.commits.len() > 0),
            moved ==> final(self)@ == old(self)@.select((old(self)@.commits.len() - 1) as usize),
            !moved ==> final(self)@ == old(self)@,
    {
        if self.commits.len() > 0 {
            self.selected_index = self.commits.len() - 1;
            self.current_page = self.selected_index / self.page_size;
            true
        } else {
            false
        }
    }

    /// Moves the selection a page up (or to the first commit).
    pub fn page_up(&mut self) -> (moved: bool)
        requires
            old(self).wf(),
        ensures
            final(self).wf(),
            moved == (old(self)@.selected_index > 0),
            old(self)@.selected_index >= old(self)@.page_size ==> final(self)@ == old(self)@.select(
                (old(self)@.selected_index - old(self)@.page_size) as usize,
            ),
            0 < old(self)@.selected_index < old(self)@.page_size ==> final(self)@ == old(self)@.select(0),
            old(self)@.selected_index == 0 ==> final(self)@ == old(self)@,
    {
        if self.selected_index >= self.page_size {
            self.selected_index = self.selected_index - self.page_size;
            self.current_page = self.selected_index / self.page_size;
            true
        } else if self.selected_index > 0 {
            self.selected_index = 0;
            self.current_page = 0;
            true
        } else {
            false
        }
    }

    /// Moves the selection a page down (or to the last commit).
    pub fn page_down(&mut self) -> (moved: bool)
        requires
            old(self).wf(),
            old(self)@.commits.len() > 0,
            old(self)@.selected_index + old(self)@.page_size <= usize::MAX,
        ensures
            final(self).wf(),
            ({
                let v = old(self)@;
                &&& moved == (v.selected_index + 1 < v.commits.len())
                &&& v.selected_index + v.page_size < v.commits.len() ==> final(self)@ == v.select(
                    (v.selected_index + v.page_size) as usize,
                )
                &&& v.selected_index + v.page_size >= v.commits.len() && moved ==> final(self)@
                    == v.select((v.commits.len() - 1) as usize)
                &&& !moved ==> final(self)@ == v
            }),
    {
        let new_index = self.selected_index + self.page_size;
        if new_index < self.commits.len() {
            self.selected_index = new_index;
            self.current_page = self.selected_index / self.page_size;
            true
        } else if self.selected_index < self.commits.len() - 1 {
            self.selected_index = self.commits.len() - 1;
            self.current_page = self.selected_index / self.page_size;
            true
        } else {
            false
        }
    }

    pub fn search_query(&self) -> (r: Option<&str>)
        ensures
            match self@.search_query {
                Some(q) => (r matches Some(s) && s@ == q@),
                None => r is None,
            },
    {
        match &self.search_query {
            Some(q) => Some(q.as_str()),
            None => None,
        }
    }

    /// Sets the search query and re-applies the filters.
    pub fn set_search_query(&mut self, query: Option<String>)
        requires
            old(self).wf(),
        ensures
            final(self).wf(),
            final(self)@ == (HistoryBrowserView { search_query: query, ..old(self)@ }).filtered(),
    {
        self.search_query = query;
        self.apply_filters();
    }

    pub fn clear_search(&mut self)
        requires
            old(self).wf(),
        ensures
            final(self).wf(),
            final(self)@ == (HistoryBrowserView { search_query: None, ..old(self)@ }).filtered(),
    {
        self.search_query = None;
        self.apply_filters();
    }

    pub fn is_searching(&self) -> (r: bool)
        ensures
            r == active_filter(self@.search_query),
    {
        match &self.search_query {
            Some(q) => !q.as_str().is_empty(),
            None => false,
        }
    }

    /// The commits that pass the filters (all commits when no filter is active).
    pub fn filtered_commits(&self) -> (r: Vec<&CommitInfo>)
        requires
            self.wf(),
        ensures
            match self@.filtered_indices {
                Some(idx) => r@.len() == idx.len() && forall|i: int|
                    0 <= i < idx.len() ==> *(#[trigger] r@[i]) == self@.commits[idx[i] as int],
                None => r@.len() == self@.commits.len() && forall|i: int|
                    0 <= i < r@.len() ==> *(#[trigger] r@[i]) == self@.commits[i],
            },
    {
        let mut out: Vec<&CommitInfo> = Vec::new();
        match &self.filtered_indices {
            Some(indices) => {
                for k in 0..indices.len()
                    invariant
                        self.filtered_indices == Some(*indices),
                        browser_ok(self@),
                        self.indices_in_range(),
                        out@.len() == k,
                        forall|i: int| 0 <= i < k ==> *(#[trigger] out@[i]) == self@.commits[indices@[i] as int],
                {
                    let idx = indices[k];
                    out.push(&self.commits[idx]);
                }
            },
            None => {
                for k in 0..self.commits.len()
                    invariant
                        out@.len() == k,
                        forall|i: int| 0 <= i < k ==> *(#[trigger] out@[i]) == self@.commits[i],
                {
                    out.push(&self.commits[k]);
                }
            },
        }
        out
    }

    /// Every kept index names a commit.
    pub closed spec fn indices_in_range(&self) -> bool {
        match self.filtered_indices {
            Some(v) => forall|i: int| 0 <= i < v@.len() ==> (#[trigger] v@[i]) < self.commits@.len(),
            None => true,
        }
    }

    pub fn is_commit_visible(&self, index: usize) -> (r: bool)
        ensures
            r == match self@.filtered_indices {
                Some(idx) => idx.contains(index),
                None => true,
            },
    {
        match &self.filtered_indices {
            Some(indices) => {
                let mut k: usize = 0;
                while k < indices.len()
                    invariant
                        0 <= k <= indices@.len(),
                        self@.filtered_indices == Some(indices@),
                        forall|i: int| 0 <= i < k ==> indices@[i] != index,
                    decreases indices@.len() - k,
                {
                    if indices[k] == index {
                        proof {
                            assert(indices@[k as int] == index);
                            assert(self@.filtered_indices == Some(indices@));
                        }
                        return true;
                    }
                    k += 1;
                }
                false
            },
            None => true,
        }
    }

    pub fn match_count(&self) -> (r: usize)
        ensures
            r == match self@.filtered_indices {
                Some(idx) => idx.len(),
                None => self@.commits.len(),
            },
    {
        match &self.filtered_indices {
            Some(indices) => indices.len(),
            None => self.commits.len(),
        }
    }

    pub fn file_filter(&self) -> (r: Option<&str>)
        ensures
            match self@.file_filter {
                Some(f) => (r matches Some(s) && s@ == f@),
                None => r is None,
            },
    {
        match &self.file_filter {
            Some(f) => Some(f.as_str()),
            None => None,
        }
    }

    /// Sets the file filter and re-applies the filters.
    pub fn set_file_filter(&mut self, filter: Option<String>)
        requires
            old(self).wf(),
        ensures
            final(self).wf(),
            final(self)@ == (HistoryBrowserView { file_filter: filter, ..old(self)@ }).filtered(),
    {
        self.file_filter = filter;
        self.apply_filters();
    }

    pub fn clear_file_filter(&mut self)
        requires
            old(self).wf(),
        ensures
            final(self).wf(),
            final(self)@ == (HistoryBrowserView { file_filter: None, ..old(self)@ }).filtered(),
    {
        self.file_filter = None;
        self.apply_filters();
    }

    pub fn is_file_filtering(&self) -> (r: bool)
        ensures
            r == active_filter(self@.file_filter),
    {
        match &self.file_filter {
            Some(f) => !f.as_str().is_empty(),
            None => false,
        }
    }

    /// Recomputes which commits pass the search and file filters; the first passing commit
    /// becomes the selection.
    fn apply_filters(&mut self)
        requires
            old(self).wf(),
        ensures
            final(self).wf(),
            final(self)@ == old(self)@.filtered(),
    {
        let has_search = match &self.search_query {
            Some(q) => !q.as_str().is_empty(),
            None => false,
        };
        let has_file_filter = match &self.file_filter {
            Some(f) => !f.as_str().is_empty(),
            None => false,
        };
        if !has_search && !has_file_filter {
            self.filtered_indices = None;
            return;
        }
        let q_lower: Vec<char> = match &self.search_query {
            Some(q) => chars_of(to_lower(q.as_str()).as_str()),
            None => Vec::new(),
        };
        let f_lower: Vec<char> = match &self.file_filter {
            Some(f) => chars_of(to_lower(f.as_str()).as_str()),
            None => Vec::new(),
        };
        let ghost search = self.search_query;
        let ghost file = self.file_filter;
        let mut indices: Vec<usize> = Vec::new();
        let n = self.commits.len();
        for idx in 0..n
            invariant
                n == self@.commits.len(),
                search == self@.search_query,
                file == self@.file_filter,
                has_search == active_filter(search),
                has_file_filter == active_filter(file),
                has_search ==> (search matches Some(q) && q_lower@ == lowercase(q@)),
                has_file_filter ==> (file matches Some(f) && f_lower@ == lowercase(f@)),
                indices@ == passing_indices(self@.commits, idx as nat, search, file),
                forall|i: int| 0 <= i < indices@.len() ==> (#[trigger] indices@[i]) < idx,
        {
            let commit = &self.commits[idx];
            let mut matches = true;
            if has_search {
                let m = chars_of(to_lower(commit.message.as_str()).as_str());
                let a = chars_of(to_lower(commit.author_name.as_str()).as_str());
                let e = chars_of(to_lower(commit.author_email.as_str()).as_str());
                let i = chars_of(to_lower(commit.id.as_str()).as_str());
                matches = contains_chars(&m, &q_lower) || contains_chars(&a, &q_lower)
                    || contains_chars(&e, &q_lower) || contains_chars(&i, &q_lower);
            }
            if matches && has_file_filter {
                let m = chars_of(to_lower(commit.message.as_str()).as_str());
                matches = contains_chars(&m, &f_lower);
            }
            proof {
                assert(matches == passes_filters(self@.commits[idx as int], search, file));
            }
            if matches {
                indices.push(idx);
            }
        }
        let ghost with = HistoryBrowserView { filtered_indices: Some(indices@), ..self@ };
        if indices.len() > 0 {
            let first = indices[0];
            self.filtered_indices = Some(indices);
            self.selected_index = first;
            self.current_page = first / self.page_size;
        } else {
            self.filtered_indices = Some(indices);
        }
    }

    /// The commit graph of all commits.
    pub fn get_commit_graph(&self) -> (r: Vec<CommitGraphNode>)
        ensures
            r@.len() == self@.commits.len(),
            forall|i: int|
                0 <= i < self@.commits.len() ==> (#[trigger] r@[i]).commit == self@.commits[i]
                    && r@[i].graph_line@ == graph_marker() && r@[i].level == 0,
    {
        generate_commit_graph(self.commits.as_slice())
    }

    /// The rows shown for commit `index`, if there is one.
    pub fn format_commit_line(&self, index: usize, show_annotation: bool) -> (r: Option<Vec<String>>)
        requires
            index < self@.commits.len() ==> seven_bytes_on_boundary(self@.commits[index as int].id@),
        ensures
            index < self@.commits.len() ==> (r matches Some(rows) && string_views(rows@) == graph_rows(
                self@.commits[index as int],
                graph_marker(),
                show_annotation,
            )),
            index >= self@.commits.len() ==> r is None,
    {
        let graph = self.get_commit_graph();
        proof {
            lemma_graph_marker_len();
        }
        if index < graph.len() {
            Some(format_graph_line(&graph[index], show_annotation))
        } else {
            None
        }
    }

    /// The rows shown for every commit, in order.
    pub fn format_all_commit_lines(&self, show_annotations: bool) -> (r: Vec<Vec<String>>)
        requires
            forall|i: int| 0 <= i < self@.commits.len() ==> seven_bytes_on_boundary(#[trigger] self@.commits[i].id@),
        ensures
            r@.len() == self@.commits.len(),
            forall|i: int|
                0 <= i < self@.commits.len() ==> string_views((#[trigger] r@[i])@) == graph_rows(
                    self@.commits[i],
                    graph_marker(),
                    show_annotations,
                ),
    {
        let graph = self.get_commit_graph();
        proof {
            lemma_graph_marker_len();
        }
        let mut out: Vec<Vec<String>> = Vec::new();
        for i in 0..graph.len()
            invariant
                graph@.len() == self@.commits.len(),
                forall|j: int|
                    0 <= j < self@.commits.len() ==> (#[trigger] graph@[j]).commit == self@.commits[j]
                        && graph@[j].graph_line@ == graph_marker(),
                forall|j: int| 0 <= j < self@.commits.len() ==> seven_bytes_on_boundary(#[trigger] self@.commits[j].id@),
                crate::text::utf8_len(graph_marker()) == 2,
                out@.len() == i,
                forall|j: int|
                    0 <= j < i ==> string_views((#[trigger] out@[j])@) == graph_rows(
                        self@.commits[j],
                        graph_marker(),
                        show_annotations,
                    ),
        {
            proof {
                assert(graph@[i as int].commit == self@.commits[i as int]);
            }
            out.push(format_graph_line(&graph[i], show_annotations));
        }
        out
    }
}

impl Default for HistoryBrowser {
    fn default() -> (b: Self)
        ensures
            b.wf(),
            b@ == (HistoryBrowserView {
                commits: Seq::empty(),
                selected_index: 0,
                page_size: 20,
                current_page: 0,
                selected_file: None,
                diff_view_mode: DiffViewMode::FullDiff,
                base_commit_index: None,
                search_query: None,
                filtered_indices: None,
                file_filter: None,
            }),
    {
        Self::new()
    }
}


/// A commit that passes the filters is among the first `n` passing ones once `n` reaches
/// past it.
proof fn lemma_passing_includes(
    commits: Seq<CommitInfo>,
    n: nat,
    search: Option<String>,
    file: Option<String>,
    i: int,
)
    requires
        0 <= i < n <= commits.len(),
        n <= usize::MAX,
        passes_filters(commits[i], search, file),
    ensures
        passing_indices(commits, n, search, file).contains(i as usize),
    decreases n,
{
    let prev = passing_indices(commits, (n - 1) as nat, search, file);
    if i == n - 1 {
        assert(passing_indices(commits, n, search, file) == prev.push((n - 1) as usize));
        assert(prev.push((n - 1) as usize)[prev.len() as int] == i as usize);
    } else {
        lemma_passing_includes(commits, (n - 1) as nat, search, file, i);
        let k = choose|k: int| 0 <= k < prev.len() && prev[k] == i as usize;
        if passes_filters(commits[n - 1], search, file) {
            assert(prev.push((n - 1) as usize)[k] == i as usize);
        }
    }
}

/// A commit whose message, author name, author e-mail or id holds the search query (both
/// in lower case) is among the commits a non-empty search leaves, unless the file filter
/// leaves it out.
pub proof fn lemma_search_finds_commit(v: HistoryBrowserView, q: String, i: int)
    requires
        v.search_query == Some(q),
        q@.len() > 0,
        0 <= i < v.commits.len(),
        v.commits.len() <= usize::MAX,
        contains_seq(lowercase(v.commits[i].message@), lowercase(q@)) || contains_seq(
            lowercase(v.commits[i].author_name@),
            lowercase(q@),
        ) || contains_seq(lowercase(v.commits[i].author_email@), lowercase(q@)) || contains_seq(
            lowercase(v.commits[i].id@),
            lowercase(q@),
        ),
        match v.file_filter {
            Some(f) => f@.len() == 0 || contains_seq(lowercase(v.commits[i].message@), lowercase(f@)),
            None => true,
        },
    ensures
        v.filtered().filtered_indices matches Some(idx) && idx.contains(i as usize),
{
    assert(active_filter(v.search_query));
    lemma_passing_includes(v.commits, v.commits.len(), v.search_query, v.file_filter, i);
}
} // verus!
