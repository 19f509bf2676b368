//! The history manager: where each project's history is stored, and the decisions taken
//! around it (large files, garbage collection, retention, commit messages, statistics).
//! Reading and writing repositories is left to the application, which hands the figures
//! it read to these functions.

use vstd::prelude::*;
use crate::git_history::types::{
    CommitInfo, FileStats, GcConfig, HistoryStats, LargeFileConfig, LargeFileStrategy,
    RetentionPolicy,
};
use crate::session::{decimal_chars, decimal_digits, join_path, join_path_chars};
use crate::text::{chars_of, push_all, str_eq, string_from_chars};
use crate::git_history::graph::string_views;
use vstd::string::StringSliceAdditionalSpecFns;

verus! {

/// What an integrity check found.
#[derive(Debug)]
pub struct IntegrityReport {
    pub is_valid: bool,
    pub errors: Vec<String>,
    pub warnings: Vec<String>,
}

impl IntegrityReport {
    /// A report with nothing found yet.
    pub fn new() -> (r: Self)
        ensures
            r.is_valid,
            r.errors@ == Seq::<String>::empty(),
            r.warnings@ == Seq::<String>::empty(),
    {
        IntegrityReport { is_valid: true, errors: Vec::new(), warnings: Vec::new() }
    }

    /// Records an error; the repository is then not valid.
    pub fn add_error(&mut self, error: String)
        ensures
            !final(self).is_valid,
            final(self).errors@ == old(self).errors@.push(error),
            final(self).warnings@ == old(self).warnings@,
    {
        self.is_valid = false;
        self.errors.push(error);
    }

    /// Records a warning; validity is unchanged.
    pub fn add_warning(&mut self, warning: String)
        ensures
            final(self).is_valid == old(self).is_valid,
            final(self).errors@ == old(self).errors@,
            final(self).warnings@ == old(self).warnings@.push(warning),
    {
        self.warnings.push(warning);
    }
}

impl Default for IntegrityReport {
    fn default() -> (r: Self)
        ensures
            r.is_valid,
            r.errors@ == Seq::<String>::empty(),
            r.warnings@ == Seq::<String>::empty(),
    {
        IntegrityReport::new()
    }
}

/// Whether a file's history is kept with its project or on its own, and where.
#[derive(Debug)]
pub enum TrackingMode {
    Project(String),
    SingleFile(String),
}

impl TrackingMode {
    /// The file belongs to a project.
    pub fn is_project(&self) -> (b: bool)
        ensures
            b == (self is Project),
    {
        match self {
            TrackingMode::Project(_) => true,
            TrackingMode::SingleFile(_) => false,
        }
    }

    /// The file is tracked on its own.
    pub fn is_single_file(&self) -> (b: bool)
        ensures
            b == (self is SingleFile),
    {
        match self {
            TrackingMode::Project(_) => false,
            TrackingMode::SingleFile(_) => true,
        }
    }

    /// The directory whose history holds the file.
    pub fn path(&self) -> (p: &str)
        ensures
            p@ == match self {
                TrackingMode::Project(q) => q@,
                TrackingMode::SingleFile(q) => q@,
            },
    {
        match self {
            TrackingMode::Project(q) => q.as_str(),
            TrackingMode::SingleFile(q) => q.as_str(),
        }
    }
}

/// Commit count and repository size before and after a cleanup.
#[derive(Debug)]
pub struct CleanupStats {
    pub commits_before: usize,
    pub commits_after: usize,
    pub size_before: u64,
    pub size_after: u64,
}

/// A file's size and whether it is above the large-file threshold.
#[derive(Debug)]
pub struct FileSizeInfo {
    pub size_bytes: u64,
    pub exceeds_threshold: bool,
}

/// The files an automatic commit left out for their size.
#[derive(Debug)]
pub struct CommitResult {
    pub skipped_files: Vec<String>,
}

/// What an automatic commit does with one file.
#[derive(Debug, Clone, Copy, PartialEq, Eq, Structural)]
pub enum FileAction {
    /// Commit it.
    Commit,
    /// Commit it, warning that it is large.
    CommitWithWarning,
    /// Leave it out and list it in the message.
    Skip,
    /// Give up the whole commit with `FileTooLarge`.
    Refuse,
}

/// Bytes in a megabyte.
pub const BYTES_PER_MB: u64 = 1048576;

/// What the history manager is set up with.
pub struct ManagerView {
    pub storage_root: Seq<char>,
    pub gc_config: GcConfig,
    pub retention_policy: RetentionPolicy,
    pub large_file_config: LargeFileConfig,
}

/// Keeps a history repository per project below a storage root.
pub struct GitHistoryManager {
    storage_root: String,
    gc_config: GcConfig,
    retention_policy: RetentionPolicy,
    large_file_config: LargeFileConfig,
}

impl View for GitHistoryManager {
    type V = ManagerView;

    closed spec fn view(&self) -> ManagerView {
        ManagerView {
            storage_root: self.storage_root@,
            gc_config: self.gc_config,
            retention_policy: self.retention_policy,
            large_file_config: self.large_file_config,
        }
    }
}

/// The default settings below storage root `root`.
pub open spec fn default_manager(root: Seq<char>) -> ManagerView {
    ManagerView {
        storage_root: root,
        gc_config: GcConfig {
            enabled: true,
            commits_threshold: 1000,
            size_threshold_mb: 100,
            aggressive: false,
        },
        retention_policy: RetentionPolicy::Forever,
        large_file_config: LargeFileConfig { threshold_mb: 50, strategy: LargeFileStrategy::Warn },
    }
}

/// Where the histories live below a home directory: `.editor-rs/history`.
pub open spec fn history_dir() -> Seq<char> {
    seq!['.', 'e', 'd', 'i', 't', 'o', 'r', '-', 'r', 's', '/', 'h', 'i', 's', 't', 'o', 'r', 'y']
}

impl GitHistoryManager {
    /// The manager that keeps its histories below the home directory `home`.
    pub fn for_home(home: &str) -> (m: Self)
        ensures
            m@ == default_manager(join_path(home@, history_dir())),
    {
        let home_chars = chars_of(home);
        let dir: Vec<char> = vec![
            '.', 'e', 'd', 'i', 't', 'o', 'r', '-', 'r', 's', '/', 'h', 'i', 's', 't', 'o', 'r', 'y',
        ];
        assert(dir@ == history_dir());
        let root = join_path_chars(home_chars.as_slice(), dir.as_slice());
        Self::with_root(string_from_chars(root.as_slice()))
    }

    /// The manager with default settings below `storage_root`.
    fn with_root(storage_root: String) -> (m: Self)
        ensures
            m@ == default_manager(storage_root@),
    {
        GitHistoryManager {
            storage_root,
            gc_config: GcConfig::default(),
            retention_policy: RetentionPolicy::default(),
            large_file_config: LargeFileConfig::default(),
        }
    }

    /// The manager with default settings below `storage_root`; never fails.
    pub fn with_storage_root(storage_root: String) -> (r: crate::error::Result<Self>)
        ensures
            r matches Ok(m) && m@ == default_manager(storage_root@),
    {
        Ok(Self::with_root(storage_root))
    }

    /// The same manager with garbage collection set up as `gc_config`.
    pub fn with_gc_config(self, gc_config: GcConfig) -> (m: Self)
        ensures
            m@ == (ManagerView { gc_config, ..self@ }),
    {
        let mut m = self;
        m.gc_config = gc_config;
        m
    }

    /// The same manager keeping commits by `retention_policy`.
    pub fn with_retention_policy(self, retention_policy: RetentionPolicy) -> (m: Self)
        ensures
            m@ == (ManagerView { retention_policy, ..self@ }),
    {
        let mut m = self;
        m.retention_policy = retention_policy;
        m
    }

    /// The same manager treating large files by `large_file_config`.
    pub fn with_large_file_config(self, large_file_config: LargeFileConfig) -> (m: Self)
        ensures
            m@ == (ManagerView { large_file_config, ..self@ }),
    {
        let mut m = self;
        m.large_file_config = large_file_config;
        m
    }

    /// When to compact repositories.
    pub fn gc_config(&self) -> (c: &GcConfig)
        ensures
            *c == self@.gc_config,
    {
        &self.gc_config
    }

    /// Which commits are kept.
    pub fn retention_policy(&self) -> (p: &RetentionPolicy)
        ensures
            *p == self@.retention_policy,
    {
        &self.retention_policy
    }

    /// How large files are treated.
    pub fn large_file_config(&self) -> (c: &LargeFileConfig)
        ensures
            *c == self@.large_file_config,
    {
        &self.large_file_config
    }

    /// The directory the histories live in.
    pub fn storage_root(&self) -> (r: &str)
        ensures
            r@ == self@.storage_root,
    {
        self.storage_root.as_str()
    }
}

/// The SHA-256 digest of `data`.
pub uninterp spec fn sha256(data: Seq<u8>) -> Seq<u8>;

/// `sha2::Sha256::digest`: the 32-byte SHA-256 digest of `data`.
#[verifier::external_body]
fn sha256_digest(data: &[u8]) -> (r: Vec<u8>)
    ensures
        r@ == sha256(data@),
        r@.len() == 32,
{
    <sha2::Sha256 as sha2::Digest>::digest(data).to_vec()
}

/// The sixteen hexadecimal digits, lower case.
pub open spec fn hex_digits() -> Seq<char> {
    seq!['0', '1', '2', '3', '4', '5', '6', '7', '8', '9', 'a', 'b', 'c', 'd', 'e', 'f']
}

/// `bytes` written as lower-case hexadecimal, two digits a byte.
pub open spec fn hex_of(bytes: Seq<u8>) -> Seq<char>
    decreases bytes.len(),
{
    if bytes.len() == 0 {
        Seq::empty()
    } else {
        hex_of(bytes.drop_last()) + seq![
            hex_digits()[(bytes.last() / 16) as int],
            hex_digits()[(bytes.last() % 16) as int],
        ]
    }
}

/// The name of the history of the project at `path`: the SHA-256 digest of the path's
/// UTF-8 bytes, in hexadecimal.
pub open spec fn project_hash_of(path: &str) -> Seq<char> {
    hex_of(sha256(path.spec_bytes()))
}

/// `bytes` written as lower-case hexadecimal.
fn hex_chars(bytes: &[u8]) -> (r: Vec<char>)
    ensures
        r@ == hex_of(bytes@),
{
    let table: Vec<char> = vec![
        '0', '1', '2', '3', '4', '5', '6', '7', '8', '9', 'a', 'b', 'c', 'd', 'e', 'f',
    ];
    assert(table@ == hex_digits());
    let mut out: Vec<char> = Vec::new();
    let mut i: usize = 0;
    while i < bytes.len()
        invariant
            i <= bytes@.len(),
            table@ == hex_digits(),
            out@ == hex_of(bytes@.take(i as int)),
        decreases bytes@.len() - i,
    {
        let b = bytes[i];
        proof {
            assert(bytes@.take(i + 1).drop_last() == bytes@.take(i as int));
            assert(bytes@.take(i + 1).last() == b);
        }
        out.push(table[(b / 16) as usize]);
        out.push(table[(b % 16) as usize]);
        i += 1;
    }
    assert(bytes@.take(bytes@.len() as int) == bytes@);
    out
}

/// Bytes a large-file threshold of `c` stands for.
pub open spec fn threshold_bytes(c: LargeFileConfig) -> int {
    c.threshold_mb * 1048576
}

/// What an automatic commit does with a file of `size` bytes under `c`.
pub open spec fn file_action_for(c: LargeFileConfig, size: u64) -> FileAction {
    if size > threshold_bytes(c) {
        match c.strategy {
            LargeFileStrategy::Warn => FileAction::CommitWithWarning,
            LargeFileStrategy::Skip => FileAction::Skip,
            LargeFileStrategy::Error => FileAction::Refuse,
            LargeFileStrategy::Allow => FileAction::Commit,
        }
    } else {
        FileAction::Commit
    }
}

/// Whether garbage collection is due under `c` for a repository with `commits` commits and
/// `size` bytes.
pub open spec fn gc_due(c: GcConfig, commits: usize, size: u64) -> bool {
    c.enabled && (commits >= c.commits_threshold || size / BYTES_PER_MB >= c.size_threshold_mb)
}

/// The age in whole days of something `diff` seconds old (rounded toward zero).
pub open spec fn age_days(diff: int) -> int {
    if diff >= 0 {
        diff / 86400
    } else {
        -((-diff) / 86400)
    }
}

/// The index of the first commit of `commits` with id `id`, or the number of commits.
pub open spec fn first_index_of(commits: Seq<CommitInfo>, id: Seq<char>) -> int
    decreases commits.len(),
{
    if commits.len() == 0 {
        0
    } else {
        let k = first_index_of(commits.drop_last(), id);
        if k < commits.len() - 1 {
            k
        } else if commits.last().id@ == id {
            commits.len() - 1
        } else {
            commits.len() as int
        }
    }
}

/// Whether `policy` keeps `commit`, at time `now`, in a history listing `commits` (newest
/// first) and taking `repo_size` bytes.
pub open spec fn retains(
    policy: RetentionPolicy,
    commit: CommitInfo,
    now: i64,
    commits: Seq<CommitInfo>,
    repo_size: u64,
) -> bool {
    match policy {
        RetentionPolicy::Forever => true,
        RetentionPolicy::Days(days) => age_days(now - commit.timestamp) <= days,
        RetentionPolicy::Commits(max) => first_index_of(commits, commit.id@) < max,
        RetentionPolicy::Size(max) => repo_size <= max,
    }
}

/// The age of every commit at `now` fits in an `i64`.
pub open spec fn ages_fit(now: i64, commits: Seq<CommitInfo>) -> bool {
    forall|i: int| 0 <= i < commits.len() ==> i64::MIN <= now - (#[trigger] commits[i]).timestamp
        <= i64::MAX
}

impl GitHistoryManager {
    /// The name of the history of the project at `project_path` (a canonical path).
    pub fn project_hash(project_path: &str) -> (h: String)
        ensures
            h@ == project_hash_of(project_path),
    {
        let digest = sha256_digest(project_path.as_bytes());
        let hex = hex_chars(digest.as_slice());
        string_from_chars(hex.as_slice())
    }

    /// Where the history of the project at `project_path` (a canonical path) is kept.
    pub fn repo_path(&self, project_path: &str) -> (p: String)
        ensures
            p@ == join_path(self@.storage_root, project_hash_of(project_path)),
    {
        let hash = Self::project_hash(project_path);
        let root = chars_of(self.storage_root.as_str());
        let name = chars_of(hash.as_str());
        let joined = join_path_chars(root.as_slice(), name.as_slice());
        string_from_chars(joined.as_slice())
    }

    /// The size of a file of `size_bytes` bytes and whether it is above the threshold.
    pub fn check_file_size(&self, size_bytes: u64) -> (info: FileSizeInfo)
        requires
            threshold_bytes(self@.large_file_config) <= u64::MAX,
        ensures
            info.size_bytes == size_bytes,
            info.exceeds_threshold == (size_bytes > threshold_bytes(self@.large_file_config)),
    {
        let threshold = self.large_file_config.threshold_mb * BYTES_PER_MB;
        FileSizeInfo { size_bytes, exceeds_threshold: size_bytes > threshold }
    }

    /// Whether a file of `size_bytes` bytes is above the threshold.
    pub fn is_large_file(&self, size_bytes: u64) -> (b: bool)
        requires
            threshold_bytes(self@.large_file_config) <= u64::MAX,
        ensures
            b == (size_bytes > threshold_bytes(self@.large_file_config)),
    {
        self.check_file_size(size_bytes).exceeds_threshold
    }

    /// What an automatic commit does with a file of `size_bytes` bytes.
    pub fn large_file_action(&self, size_bytes: u64) -> (a: FileAction)
        requires
            threshold_bytes(self@.large_file_config) <= u64::MAX,
        ensures
            a == file_action_for(self@.large_file_config, size_bytes),
    {
        if !self.is_large_file(size_bytes) {
            return FileAction::Commit;
        }
        match self.large_file_config.strategy {
            LargeFileStrategy::Warn => FileAction::CommitWithWarning,
            LargeFileStrategy::Skip => FileAction::Skip,
            LargeFileStrategy::Error => FileAction::Refuse,
            LargeFileStrategy::Allow => FileAction::Commit,
        }
    }

    /// Whether a repository with `commit_count` commits taking `repo_size` bytes is due for
    /// garbage collection.
    pub fn should_run_gc(&self, commit_count: usize, repo_size: u64) -> (b: bool)
        ensures
            b == gc_due(self@.gc_config, commit_count, repo_size),
    {
        if !self.gc_config.enabled {
            return false;
        }
        if commit_count >= self.gc_config.commits_threshold {
            return true;
        }
        let size_mb = repo_size / BYTES_PER_MB;
        size_mb >= self.gc_config.size_threshold_mb
    }

    /// Whether the retention policy keeps `commit`, at time `now` (seconds since the
    /// epoch), in a history listing `commits` newest first and taking `repo_size` bytes.
    pub fn should_retain_commit(
        &self,
        commit: &CommitInfo,
        now: i64,
        commits: &[CommitInfo],
        repo_size: u64,
    ) -> (b: bool)
        requires
            self@.retention_policy is Days ==> i64::MIN <= now - commit.timestamp <= i64::MAX,
        ensures
            b == retains(self@.retention_policy, *commit, now, commits@, repo_size),
    {
        match self.retention_policy {
            RetentionPolicy::Forever => true,
            RetentionPolicy::Days(days) => {
                let diff = now - commit.timestamp;
                let age: i64 = if diff >= 0 {
                    (diff / 86400) as i64
                } else if diff == i64::MIN {
                    -((i64::MAX / 86400) as i64)
                } else {
                    -((-diff) / 86400)
                };
                proof {
                    if diff == i64::MIN {
                        assert((-(diff as int)) / 86400 == i64::MAX / 86400) by (nonlinear_arith)
                            requires
                                diff == i64::MIN,
                        ;
                    }
                }
                age <= days as i64
            },
            RetentionPolicy::Commits(max) => {
                let index = first_commit_index(commits, commit.id.as_str());
                index < max
            },
            RetentionPolicy::Size(max) => repo_size <= max,
        }
    }

    /// The commits of `commits` the retention policy keeps, in order.
    pub fn retained_commits(&self, commits: &[CommitInfo], now: i64, repo_size: u64) -> (r: Vec<
        CommitInfo,
    >)
        requires
            self@.retention_policy is Days ==> ages_fit(now, commits@),
        ensures
            r@ == commits@.filter(
                |c: CommitInfo| retains(self@.retention_policy, c, now, commits@, repo_size),
            ),
    {
        let ghost pred = |c: CommitInfo| retains(self@.retention_policy, c, now, commits@, repo_size);
        let mut kept: Vec<CommitInfo> = Vec::new();
        let mut i: usize = 0;
        proof {
            reveal(Seq::filter);
        }
        while i < commits.len()
            invariant
                i <= commits@.len(),
                self@.retention_policy is Days ==> ages_fit(now, commits@),
                pred == (|c: CommitInfo| retains(self@.retention_policy, c, now, commits@, repo_size)),
                kept@ == commits@.take(i as int).filter(pred),
            decreases commits@.len() - i,
        {
            proof {
                assert(commits@.take(i + 1).drop_last() == commits@.take(i as int));
                assert(commits@.take(i + 1).last() == commits@[i as int]);
            }
            let keep = self.should_retain_commit(&commits[i], now, commits, repo_size);
            proof {
                reveal(Seq::filter);
                assert(pred(commits@[i as int]) == keep);
                assert(commits@.take(i + 1).filter(pred) == if keep {
                    commits@.take(i as int).filter(pred).push(commits@[i as int])
                } else {
                    commits@.take(i as int).filter(pred)
                });
            }
            if keep {
                kept.push(commits[i].clone());
            }
            i += 1;
        }
        assert(commits@.take(commits@.len() as int) == commits@);
        kept
    }
}

/// The index of the first commit of `commits` with id `id`, or the number of commits.
fn first_commit_index(commits: &[CommitInfo], id: &str) -> (r: usize)
    ensures
        r == first_index_of(commits@, id@),
{
    let mut i: usize = 0;
    while i < commits.len()
        invariant
            i <= commits@.len(),
            first_index_of(commits@.take(i as int), id@) == i,
        decreases commits@.len() - i,
    {
        proof {
            assert(commits@.take(i + 1).drop_last() == commits@.take(i as int));
            assert(commits@.take(i + 1).last() == commits@[i as int]);
        }
        if str_eq(commits[i].id.as_str(), id) {
            proof {
                lemma_first_index_prefix(commits@, id@, (i + 1) as nat);
            }
            return i;
        }
        i += 1;
    }
    assert(commits@.take(commits@.len() as int) == commits@);
    i
}

/// Once a prefix holds `id`, the first index over the whole list is the prefix's.
pub proof fn lemma_first_index_prefix(commits: Seq<CommitInfo>, id: Seq<char>, k: nat)
    requires
        k <= commits.len(),
        first_index_of(commits.take(k as int), id) < k,
    ensures
        first_index_of(commits, id) == first_index_of(commits.take(k as int), id),
    decreases commits.len() - k,
{
    if k < commits.len() {
        assert(commits.take((k + 1) as int).drop_last() == commits.take(k as int));
        lemma_first_index_prefix(commits, id, k + 1);
    } else {
        assert(commits.take(k as int) == commits);
    }
}

/// The earliest timestamp among `commits` (which must not be empty).
pub open spec fn min_timestamp(commits: Seq<CommitInfo>) -> i64
    decreases commits.len(),
{
    if commits.len() <= 1 {
        commits[0].timestamp
    } else {
        let m = min_timestamp(commits.drop_last());
        if commits.last().timestamp < m { commits.last().timestamp } else { m }
    }
}

/// The latest timestamp among `commits` (which must not be empty).
pub open spec fn max_timestamp(commits: Seq<CommitInfo>) -> i64
    decreases commits.len(),
{
    if commits.len() <= 1 {
        commits[0].timestamp
    } else {
        let m = max_timestamp(commits.drop_last());
        if commits.last().timestamp > m { commits.last().timestamp } else { m }
    }
}

/// The oldest and newest timestamps of a history, if it has commits.
pub open spec fn date_range_of(commits: Seq<CommitInfo>) -> Option<(i64, i64)> {
    if commits.len() == 0 {
        None
    } else {
        Some((min_timestamp(commits), max_timestamp(commits)))
    }
}

/// The file statistics of large files.
pub open spec fn is_large_stat(f: FileStats) -> bool {
    f.is_large
}

/// The total size of the large files among `fs`.
pub open spec fn large_size(fs: Seq<FileStats>) -> nat
    decreases fs.len(),
{
    if fs.len() == 0 {
        0
    } else {
        large_size(fs.drop_last()) + if fs.last().is_large { fs.last().total_size as nat } else { 0 }
    }
}

/// `items` each written as `  - item` on a line of its own.
pub open spec fn bullet_list(items: Seq<Seq<char>>) -> Seq<char> {
    crate::editor::joined(items.map_values(|p: Seq<char>| "  - "@ + p), '\n')
}

/// The message of an automatic commit of the files `committed` (at least one) at time
/// `timestamp`, the large files `skipped` having been left out.
pub open spec fn auto_save_message_of(
    committed: Seq<Seq<char>>,
    timestamp: Seq<char>,
    skipped: Seq<Seq<char>>,
) -> Seq<char> {
    let head = if committed.len() == 1 {
        "Auto-save: "@ + committed[0] + " at "@ + timestamp
    } else {
        "Auto-save: "@ + decimal_digits(committed.len()) + " files at "@ + timestamp + "\n\n"@
            + bullet_list(committed)
    };
    if skipped.len() == 0 {
        head
    } else {
        head + "\n\n("@ + decimal_digits(skipped.len()) + " large file"@ + (if skipped.len() == 1 {
            Seq::<char>::empty()
        } else {
            seq!['s']
        }) + " excluded)\n"@ + bullet_list(skipped)
    }
}

/// The views of some strings.
pub open spec fn string_seqs(v: Seq<String>) -> Seq<Seq<char>> {
    v.map_values(|s: String| s@)
}

/// `items` each written as `  - item` on a line of its own.
fn bullet_chars(items: &Vec<String>) -> (r: Vec<char>)
    ensures
        r@ == bullet_list(string_seqs(items@)),
{
    let ghost lines = string_seqs(items@).map_values(|p: Seq<char>| "  - "@ + p);
    let mut out: Vec<char> = Vec::new();
    let mut k: usize = 0;
    while k < items.len()
        invariant
            k <= items@.len(),
            lines == string_seqs(items@).map_values(|p: Seq<char>| "  - "@ + p),
            out@ == crate::editor::joined(lines.take(k as int), '\n'),
        decreases items@.len() - k,
    {
        proof {
            assert(lines.take(k + 1).drop_last() == lines.take(k as int));
            assert(lines.take(k + 1).last() == "  - "@ + items@[k as int]@);
            if k == 0 {
                assert(lines.take(1)[0] == lines[0]);
            }
        }
        if k > 0 {
            out.push('\n');
        }
        let ghost mid = out@;
        let b = chars_of("  - ");
        push_all(&mut out, b.as_slice());
        let item = chars_of(items[k].as_str());
        push_all(&mut out, item.as_slice());
        proof {
            assert(out@ =~= mid + ("  - "@ + items@[k as int]@));
            if k > 0 {
                assert(out@ =~= crate::editor::joined(lines.take(k as int), '\n') + seq!['\n'] + (
                "  - "@ + items@[k as int]@));
            } else {
                assert(out@ =~= "  - "@ + items@[0]@);
            }
        }
        k += 1;
    }
    assert(lines.take(items@.len() as int) == lines);
    out
}

impl GitHistoryManager {
    /// The oldest and newest commit times of `commits`, if there are any.
    pub fn date_range(commits: &[CommitInfo]) -> (r: Option<(i64, i64)>)
        ensures
            r == date_range_of(commits@),
    {
        if commits.len() == 0 {
            return None;
        }
        let mut oldest = commits[0].timestamp;
        let mut newest = commits[0].timestamp;
        let mut i: usize = 1;
        while i < commits.len()
            invariant
                1 <= i <= commits@.len(),
                oldest == min_timestamp(commits@.take(i as int)),
                newest == max_timestamp(commits@.take(i as int)),
            decreases commits@.len() - i,
        {
            proof {
                assert(commits@.take(i + 1).drop_last() == commits@.take(i as int));
                assert(commits@.take(i + 1).last() == commits@[i as int]);
            }
            if commits[i].timestamp < oldest {
                oldest = commits[i].timestamp;
            }
            if commits[i].timestamp > newest {
                newest = commits[i].timestamp;
            }
            i += 1;
        }
        assert(commits@.take(commits@.len() as int) == commits@);
        Some((oldest, newest))
    }

    /// The statistics of the large files among `file_stats`, in order.
    pub fn large_files(file_stats: &[FileStats]) -> (r: Vec<FileStats>)
        ensures
            r@ == file_stats@.filter(|f: FileStats| is_large_stat(f)),
    {
        let ghost pred = |f: FileStats| is_large_stat(f);
        let mut out: Vec<FileStats> = Vec::new();
        let mut i: usize = 0;
        proof {
            reveal(Seq::filter);
        }
        while i < file_stats.len()
            invariant
                i <= file_stats@.len(),
                pred == (|f: FileStats| is_large_stat(f)),
                out@ == file_stats@.take(i as int).filter(pred),
            decreases file_stats@.len() - i,
        {
            proof {
                reveal(Seq::filter);
                assert(file_stats@.take(i + 1).drop_last() == file_stats@.take(i as int));
                assert(file_stats@.take(i + 1).last() == file_stats@[i as int]);
            }
            if file_stats[i].is_large {
                out.push(file_stats[i].clone());
            }
            i += 1;
        }
        assert(file_stats@.take(file_stats@.len() as int) == file_stats@);
        out
    }

    /// The summary of a history with `total_commits` commits taking `repository_size`
    /// bytes, spanning `date_range`, with the per-file figures `file_stats`.
    pub fn history_stats(
        total_commits: usize,
        repository_size: u64,
        date_range: Option<(i64, i64)>,
        file_stats: Vec<FileStats>,
    ) -> (h: HistoryStats)
        requires
            large_size(file_stats@) <= u64::MAX,
        ensures
            h.total_commits == total_commits,
            h.repository_size == repository_size,
            h.date_range == date_range,
            h.file_stats@ == file_stats@,
            h.large_file_count == file_stats@.filter(|f: FileStats| is_large_stat(f)).len(),
            h.total_large_file_size == large_size(file_stats@),
    {
        let large = Self::large_files(file_stats.as_slice());
        let mut total: u64 = 0;
        let mut i: usize = 0;
        while i < file_stats.len()
            invariant
                i <= file_stats@.len(),
                large_size(file_stats@) <= u64::MAX,
                total == large_size(file_stats@.take(i as int)),
            decreases file_stats@.len() - i,
        {
            proof {
                assert(file_stats@.take(i + 1).drop_last() == file_stats@.take(i as int));
                assert(file_stats@.take(i + 1).last() == file_stats@[i as int]);
                lemma_large_size_prefix(file_stats@, (i + 1) as nat);
            }
            if file_stats[i].is_large {
                total = total + file_stats[i].total_size;
            }
            i += 1;
        }
        assert(file_stats@.take(file_stats@.len() as int) == file_stats@);
        HistoryStats {
            total_commits,
            repository_size,
            date_range,
            file_stats,
            large_file_count: large.len(),
            total_large_file_size: total,
        }
    }

    /// The message of an automatic commit of `committed` (at least one file) at
    /// `timestamp`, listing the large files `skipped` that were left out.
    pub fn auto_save_message(committed: &Vec<String>, timestamp: &str, skipped: &Vec<String>) -> (m:
        String)
        ensures
            m@ == auto_save_message_of(string_seqs(committed@), timestamp@, string_seqs(skipped@)),
    {
        let mut out: Vec<char> = Vec::new();
        push_all(&mut out, chars_of("Auto-save: ").as_slice());
        if committed.len() == 1 {
            push_all(&mut out, chars_of(committed[0].as_str()).as_slice());
            push_all(&mut out, chars_of(" at ").as_slice());
            push_all(&mut out, chars_of(timestamp).as_slice());
        } else {
            push_all(&mut out, decimal_chars(committed.len() as u64).as_slice());
            push_all(&mut out, chars_of(" files at ").as_slice());
            push_all(&mut out, chars_of(timestamp).as_slice());
            push_all(&mut out, chars_of("\n\n").as_slice());
            push_all(&mut out, bullet_chars(committed).as_slice());
        }
        if skipped.len() > 0 {
            push_all(&mut out, chars_of("\n\n(").as_slice());
            push_all(&mut out, decimal_chars(skipped.len() as u64).as_slice());
            push_all(&mut out, chars_of(" large file").as_slice());
            if skipped.len() != 1 {
                out.push('s');
            }
            push_all(&mut out, chars_of(" excluded)\n").as_slice());
            push_all(&mut out, bullet_chars(skipped).as_slice());
        }
        string_from_chars(out.as_slice())
    }
}

/// The large files of a prefix take no more room than those of the whole.
pub proof fn lemma_large_size_prefix(fs: Seq<FileStats>, k: nat)
    requires
        k <= fs.len(),
    ensures
        large_size(fs.take(k as int)) <= large_size(fs),
    decreases fs.len() - k,
{
    if k < fs.len() {
        lemma_large_size_prefix(fs, k + 1);
        assert(fs.take((k + 1) as int).drop_last() == fs.take(k as int));
    } else {
        assert(fs.take(k as int) == fs);
    }
}

/// Keeping commits forever keeps every commit, in order.
pub proof fn lemma_forever_keeps_all(commits: Seq<CommitInfo>, now: i64, repo_size: u64)
    ensures
        commits.filter(
            |c: CommitInfo| retains(RetentionPolicy::Forever, c, now, commits, repo_size),
        ) == commits,
    decreases commits.len(),
{
    reveal(Seq::filter);
    let pred = |c: CommitInfo| retains(RetentionPolicy::Forever, c, now, commits, repo_size);
    lemma_filter_all(commits, pred);
}

/// A filter that keeps everything changes nothing.
proof fn lemma_filter_all(s: Seq<CommitInfo>, pred: spec_fn(CommitInfo) -> bool)
    requires
        forall|c: CommitInfo| #[trigger] pred(c),
    ensures
        s.filter(pred) == s,
    decreases s.len(),
{
    reveal(Seq::filter);
    if s.len() > 0 {
        lemma_filter_all(s.drop_last(), pred);
        assert(s.drop_last().push(s.last()) == s);
    }
}

/// `String::from_utf8`: the text `bytes` encode when they are valid UTF-8; otherwise the
/// message of the error it reports (whose wording is left unsaid).
#[verifier::external_body]
fn string_from_utf8(bytes: Vec<u8>) -> (r: core::result::Result<String, String>)
    ensures
        r is Ok <==> vstd::utf8::valid_utf8(bytes@),
        r matches Ok(s) ==> s@ == vstd::utf8::decode_utf8(bytes@),
{
    String::from_utf8(bytes).map_err(|e| e.to_string())
}

impl GitHistoryManager {
    /// A file's content at some commit, read as `bytes`, as text: a `Parse` error when the
    /// bytes are not valid UTF-8.
    pub fn file_content_from_bytes(bytes: Vec<u8>) -> (r: crate::error::Result<String>)
        ensures
            vstd::utf8::valid_utf8(bytes@) ==> (r matches Ok(s) && s@ == vstd::utf8::decode_utf8(
                bytes@,
            )),
            !vstd::utf8::valid_utf8(bytes@) ==> r matches Err(crate::error::EditorError::Parse(_)),
    {
        match string_from_utf8(bytes) {
            Ok(s) => Ok(s),
            Err(message) => Err(crate::error::EditorError::Parse(message)),
        }
    }
}


/// How many entries of `s` name `p`.
pub open spec fn count_in(s: Seq<String>, p: Seq<char>) -> nat
    decreases s.len(),
{
    if s.len() == 0 {
        0
    } else {
        count_in(s.drop_last(), p) + if s.last()@ == p { 1nat } else { 0nat }
    }
}

/// The largest size that `s` gives for `p`, or zero when it gives none.
pub open spec fn max_size_in(s: Seq<(String, u64)>, p: Seq<char>) -> u64
    decreases s.len(),
{
    if s.len() == 0 {
        0
    } else {
        let m = max_size_in(s.drop_last(), p);
        if s.last().0@ == p && s.last().1 > m { s.last().1 } else { m }
    }
}

/// The paths of `stats`, in order.
pub open spec fn stat_paths(stats: Seq<FileStats>) -> Seq<Seq<char>> {
    stats.map_values(|f: FileStats| f.path@)
}

/// `f` holds the figures of its path: how often it was changed, its largest size, and
/// whether that size is above the threshold of `cfg`.
pub open spec fn is_file_stat(
    f: FileStats,
    changed: Seq<String>,
    sizes: Seq<(String, u64)>,
    cfg: LargeFileConfig,
) -> bool {
    &&& f.commit_count == count_in(changed, f.path@)
    &&& f.total_size == max_size_in(sizes, f.path@)
    &&& f.is_large == (f.total_size > threshold_bytes(cfg))
}

/// Names that do not occur in `s` are counted zero times.
proof fn lemma_count_absent(s: Seq<String>, p: Seq<char>)
    requires
        forall|j: int| 0 <= j < s.len() ==> (#[trigger] s[j])@ != p,
    ensures
        count_in(s, p) == 0,
    decreases s.len(),
{
    if s.len() > 0 {
        lemma_count_absent(s.drop_last(), p);
        assert(s.last() == s[s.len() - 1]);
    }
}

/// The largest size `sizes` gives for `p`.
fn max_size_of(sizes: &[(String, u64)], p: &str) -> (m: u64)
    ensures
        m == max_size_in(sizes@, p@),
{
    let mut m: u64 = 0;
    let mut i: usize = 0;
    while i < sizes.len()
        invariant
            i <= sizes@.len(),
            m == max_size_in(sizes@.take(i as int), p@),
        decreases sizes@.len() - i,
    {
        proof {
            assert(sizes@.take(i + 1).drop_last() == sizes@.take(i as int));
            assert(sizes@.take(i + 1).last() == sizes@[i as int]);
        }
        if str_eq(sizes[i].0.as_str(), p) && sizes[i].1 > m {
            m = sizes[i].1;
        }
        i += 1;
    }
    assert(sizes@.take(sizes@.len() as int) == sizes@);
    m
}

/// Where `p` stands in `paths`, if it does.
fn find_path(paths: &Vec<String>, p: &str) -> (r: Option<usize>)
    ensures
        r matches Some(k) ==> k < paths@.len() && paths@[k as int]@ == p@,
        r is None ==> forall|l: int| 0 <= l < paths@.len() ==> (#[trigger] paths@[l])@ != p@,
{
    let mut k: usize = 0;
    while k < paths.len()
        invariant
            k <= paths@.len(),
            forall|l: int| 0 <= l < k ==> (#[trigger] paths@[l])@ != p@,
        decreases paths@.len() - k,
    {
        if str_eq(paths[k].as_str(), p) {
            return Some(k);
        }
        k += 1;
    }
    None
}

/// The distinct paths of `changed` in order of first appearance, how often each appears,
/// where each entry of `changed` stands among the paths, and an entry naming each path.
#[verifier::rlimit(40)]
fn count_paths(changed: &[String]) -> (r: (Vec<String>, Vec<usize>, Ghost<Seq<int>>, Ghost<Seq<int>>))
    ensures
        r.0@.len() == r.1@.len(),
        forall|l: int| 0 <= l < r.1@.len() ==> (#[trigger] r.1@[l]) == count_in(changed@, r.0@[l]@) && r.1@[l] >= 1,
        forall|l: int, m: int| 0 <= l < m < r.0@.len() ==> (#[trigger] r.0@[l])@ != (#[trigger] r.0@[m])@,
        r.2@.len() == changed@.len(),
        forall|j: int| 0 <= j < changed@.len() ==> 0 <= #[trigger] r.2@[j] < r.0@.len() && r.0@[r.2@[j]]@ == changed@[j]@,
        r.3@.len() == r.0@.len(),
        forall|l: int| 0 <= l < r.0@.len() ==> 0 <= #[trigger] r.3@[l] < changed@.len() && changed@[r.3@[l]]@ == r.0@[l]@,
{
    let mut paths: Vec<String> = Vec::new();
    let mut counts: Vec<usize> = Vec::new();
    let ghost mut wj: Seq<int> = Seq::empty();
    let ghost mut wl: Seq<int> = Seq::empty();
    let mut i: usize = 0;
    while i < changed.len()
        invariant
            i <= changed@.len(),
            paths@.len() == counts@.len(),
            forall|l: int| 0 <= l < counts@.len() ==> (#[trigger] counts@[l]) == count_in(changed@.take(i as int), paths@[l]@)
                && 1 <= counts@[l] <= i,
            forall|l: int, m: int| 0 <= l < m < paths@.len() ==> (#[trigger] paths@[l])@ != (#[trigger] paths@[m])@,
            wj.len() == i,
            forall|j: int| 0 <= j < i ==> 0 <= #[trigger] wj[j] < paths@.len() && paths@[wj[j]]@ == changed@[j]@,
            wl.len() == paths@.len(),
            forall|l: int| 0 <= l < paths@.len() ==> 0 <= #[trigger] wl[l] < i && changed@[wl[l]]@ == paths@[l]@,
        decreases changed@.len() - i,
    {
        let ghost t = changed@.take(i as int);
        let ghost t1 = changed@.take(i + 1);
        let ghost x = changed@[i as int];
        let ghost old_paths = paths@;
        let ghost old_counts = counts@;
        proof {
            assert(t1.drop_last() == t);
            assert(t1.last() == x);
        }
        match find_path(&paths, changed[i].as_str()) {
            Some(k) => {
                let v = counts[k] + 1;
                counts.set(k, v);
                proof {
                    wj = wj.push(k as int);
                    assert forall|l: int| 0 <= l < counts@.len() implies (#[trigger] counts@[l]) == count_in(t1, paths@[l]@)
                        && 1 <= counts@[l] <= i + 1 by {
                        assert(count_in(t1, paths@[l]@) == count_in(t, paths@[l]@) + if x@ == paths@[l]@ { 1nat } else { 0nat });
                        assert(old_counts[l] == count_in(t, paths@[l]@));
                        if l != k {
                            if l < k {
                                assert(paths@[l]@ != paths@[k as int]@);
                            } else {
                                assert(paths@[k as int]@ != paths@[l]@);
                            }
                        }
                    }
                }
            },
            None => {
                proof {
                    assert forall|j: int| 0 <= j < t.len() implies (#[trigger] t[j])@ != x@ by {
                        assert(t[j] == changed@[j]);
                        assert(old_paths[wj[j]]@ == t[j]@);
                    }
                    lemma_count_absent(t, x@);
                }
                paths.push(changed[i].clone());
                counts.push(1);
                proof {
                    wj = wj.push(paths@.len() - 1);
                    wl = wl.push(i as int);
                    assert forall|l: int| 0 <= l < counts@.len() implies (#[trigger] counts@[l]) == count_in(t1, paths@[l]@)
                        && 1 <= counts@[l] <= i + 1 by {
                        assert(count_in(t1, paths@[l]@) == count_in(t, paths@[l]@) + if x@ == paths@[l]@ { 1nat } else { 0nat });
                        if l < old_paths.len() {
                            assert(paths@[l] == old_paths[l]);
                            assert(old_counts[l] == count_in(t, old_paths[l]@));
                            assert(old_paths[l]@ != x@);
                        }
                    }
                    assert forall|l: int, m: int| 0 <= l < m < paths@.len() implies (#[trigger] paths@[l])@ != (#[trigger] paths@[m])@ by {
                        assert(paths@[l] == old_paths[l]);
                        if m < old_paths.len() {
                            assert(paths@[m] == old_paths[m]);
                        }
                    }
                }
            },
        }
        proof {
            assert forall|j: int| 0 <= j < i + 1 implies 0 <= #[trigger] wj[j] < paths@.len() && paths@[wj[j]]@ == changed@[j]@ by {
                if j < i {
                    assert(paths@[wj[j]] == old_paths[wj[j]]);
                }
            }
            assert forall|l: int| 0 <= l < paths@.len() implies 0 <= #[trigger] wl[l] < i + 1 && changed@[wl[l]]@ == paths@[l]@ by {
                if l < old_paths.len() {
                    assert(paths@[l] == old_paths[l]);
                }
            }
        }
        i += 1;
    }
    assert(changed@.take(changed@.len() as int) == changed@);
    (paths, counts, Ghost(wj), Ghost(wl))
}

impl GitHistoryManager {
    /// The figures of every path in `changed` (one entry for each time a commit changed
    /// it): how many times it was changed, the largest size `sizes` records for it (zero
    /// when none), and whether that size is above the large-file threshold; one entry per
    /// path, the most changed first.
    #[verifier::rlimit(40)]
    pub fn per_file_stats(&self, changed: &[String], sizes: &[(String, u64)]) -> (r: Vec<FileStats>)
        requires
            threshold_bytes(self@.large_file_config) <= u64::MAX,
        ensures
            forall|i: int| 0 <= i < r@.len() ==> is_file_stat(#[trigger] r@[i], changed@, sizes@, self@.large_file_config),
            forall|i: int| 0 <= i < r@.len() ==> string_views(changed@).contains(#[trigger] stat_paths(r@)[i]),
            forall|j: int| 0 <= j < changed@.len() ==> stat_paths(r@).contains(#[trigger] string_views(changed@)[j]),
            forall|i: int, l: int| 0 <= i < l < r@.len() ==> (#[trigger] r@[i]).path@ != (#[trigger] r@[l]).path@,
            forall|i: int, l: int| 0 <= i < l < r@.len() ==> (#[trigger] r@[i]).commit_count >= (#[trigger] r@[l]).commit_count,
    {
        let (paths, counts, Ghost(wj), Ghost(wl)) = count_paths(changed);
        let n = paths.len();
        let mut top: usize = 0;
        let mut k: usize = 0;
        while k < n
            invariant
                n == paths@.len() == counts@.len(),
                k <= n,
                forall|l: int| 0 <= l < k ==> #[trigger] counts@[l] <= top,
                wj.len() == changed@.len(),
                forall|j: int| 0 <= j < changed@.len() ==> 0 <= #[trigger] wj[j] < n && paths@[wj[j]]@ == changed@[j]@,
                wl.len() == n,
                forall|l: int| 0 <= l < n ==> 0 <= #[trigger] wl[l] < changed@.len() && changed@[wl[l]]@ == paths@[l]@,
                forall|l: int, m: int| 0 <= l < m < n ==> (#[trigger] paths@[l])@ != (#[trigger] paths@[m])@,
                forall|l: int| 0 <= l < n ==> (#[trigger] counts@[l]) == count_in(changed@, paths@[l]@) && counts@[l] >= 1,
            decreases n - k,
        {
            if counts[k] > top {
                top = counts[k];
            }
            k += 1;
        }
        let mut out: Vec<FileStats> = Vec::new();
        let ghost mut ks: Seq<int> = Seq::empty();
        let ghost mut at: Seq<int> = Seq::new(n as nat, |l: int| -1);
        let mut c: usize = top;
        while c > 0
            invariant
                n == paths@.len() == counts@.len(),
                forall|l: int| 0 <= l < n ==> #[trigger] counts@[l] <= top,
                forall|l: int| 0 <= l < n ==> (#[trigger] counts@[l]) == count_in(changed@, paths@[l]@) && counts@[l] >= 1,
                threshold_bytes(self@.large_file_config) <= u64::MAX,
                c <= top,
                wj.len() == changed@.len(),
                forall|j: int| 0 <= j < changed@.len() ==> 0 <= #[trigger] wj[j] < n && paths@[wj[j]]@ == changed@[j]@,
                wl.len() == n,
                forall|l: int| 0 <= l < n ==> 0 <= #[trigger] wl[l] < changed@.len() && changed@[wl[l]]@ == paths@[l]@,
                forall|l: int, m: int| 0 <= l < m < n ==> (#[trigger] paths@[l])@ != (#[trigger] paths@[m])@,
                forall|l: int| 0 <= l < n ==> (#[trigger] counts@[l]) == count_in(changed@, paths@[l]@) && counts@[l] >= 1,
                out@.len() == ks.len(),
                at.len() == n,
                forall|i: int| 0 <= i < ks.len() ==> 0 <= #[trigger] ks[i] < n && counts@[ks[i]] > c && at[ks[i]] == i,
                forall|i: int| 0 <= i < ks.len() ==> (#[trigger] out@[i]).path@ == paths@[ks[i]]@
                    && is_file_stat(out@[i], changed@, sizes@, self@.large_file_config),
                forall|l: int| 0 <= l < n && #[trigger] counts@[l] > c ==> 0 <= at[l] < ks.len() && ks[at[l]] == l,
                forall|i: int, m: int| 0 <= i < m < ks.len() ==> (#[trigger] out@[i]).commit_count >= (#[trigger] out@[m]).commit_count,
            decreases c,
        {
            let ghost base = ks.len();
            let mut k: usize = 0;
            while k < n
                invariant
                    n == paths@.len() == counts@.len(),
                    forall|l: int| 0 <= l < n ==> (#[trigger] counts@[l]) == count_in(changed@, paths@[l]@) && counts@[l] >= 1,
                    threshold_bytes(self@.large_file_config) <= u64::MAX,
                    0 < c,
                    k <= n,
                    base <= ks.len(),
                    out@.len() == ks.len(),
                    at.len() == n,
                    forall|i: int| 0 <= i < base ==> 0 <= #[trigger] ks[i] < n && counts@[ks[i]] > c && at[ks[i]] == i,
                    forall|i: int| base <= i < ks.len() ==> 0 <= #[trigger] ks[i] < k && counts@[ks[i]] == c && at[ks[i]] == i,
                    forall|i: int| 0 <= i < ks.len() ==> (#[trigger] out@[i]).path@ == paths@[ks[i]]@
                        && is_file_stat(out@[i], changed@, sizes@, self@.large_file_config),
                    forall|l: int| 0 <= l < n && #[trigger] counts@[l] > c ==> 0 <= at[l] < ks.len() && ks[at[l]] == l,
                    forall|l: int| 0 <= l < k && #[trigger] counts@[l] == c ==> 0 <= at[l] < ks.len() && ks[at[l]] == l,
                    forall|i: int, m: int| 0 <= i < m < ks.len() ==> (#[trigger] out@[i]).commit_count >= (#[trigger] out@[m]).commit_count,
                    forall|i: int| 0 <= i < ks.len() ==> (#[trigger] out@[i]).commit_count >= c,
                decreases n - k,
            {
                if counts[k] == c {
                    let size = max_size_of(sizes, paths[k].as_str());
                    let large = self.is_large_file(size);
                    let f = FileStats { path: paths[k].clone(), commit_count: c, total_size: size, is_large: large };
                    let ghost old_ks = ks;
                    let ghost old_at = at;
                    let ghost old_out = out@;
                    out.push(f);
                    proof {
                        ks = ks.push(k as int);
                        at = at.update(k as int, old_ks.len() as int);
                        assert(counts@[k as int] == count_in(changed@, paths@[k as int]@));
                        assert forall|i: int| 0 <= i < old_ks.len() implies #[trigger] ks[i] == old_ks[i]
                            && out@[i] == old_out[i] && ks[i] != k by {}
                    }
                }
                k += 1;
            }
            c -= 1;
        }
        proof {
            let cp = string_views(changed@);
            let rp = stat_paths(out@);
            assert forall|j: int| 0 <= j < changed@.len() implies rp.contains(#[trigger] cp[j]) by {
                let l = wj[j];
                assert(counts@[l] > 0);
                let i = at[l];
                assert(rp[i] == cp[j]);
            }
            assert forall|i: int| 0 <= i < out@.len() implies cp.contains(#[trigger] rp[i]) by {
                let l = ks[i];
                let j = wl[l];
                assert(cp[j] == rp[i]);
            }
            assert forall|i: int, m: int| 0 <= i < m < out@.len() implies (#[trigger] out@[i]).path@ != (#[trigger] out@[m]).path@ by {
                assert(at[ks[i]] == i && at[ks[m]] == m);
                assert(ks[i] != ks[m]);
                if ks[i] < ks[m] {
                    assert(paths@[ks[i]]@ != paths@[ks[m]]@);
                } else {
                    assert(paths@[ks[m]]@ != paths@[ks[i]]@);
                }
            }
        }
        out
    }
}

/// A file that was just saved, as the automatic commit sees it: its path, its path inside
/// the project (`None` when it lies outside), and its size in bytes.
pub struct SavedFile {
    pub path: String,
    pub relative: Option<String>,
    pub size: u64,
}

/// What the automatic commit does with `files` under `c`: the project paths it commits and
/// those it leaves out as too large, in order; files outside the project are passed over;
/// the first file that the configuration refuses stops it, with its path and size.
pub open spec fn planned(c: LargeFileConfig, files: Seq<SavedFile>) -> core::result::Result<
    (Seq<Seq<char>>, Seq<Seq<char>>),
    (Seq<char>, u64),
>
    decreases files.len(),
{
    if files.len() == 0 {
        Ok((Seq::empty(), Seq::empty()))
    } else {
        match planned(c, files.drop_last()) {
            Err(x) => Err(x),
            Ok((committed, skipped)) => {
                let f = files.last();
                match f.relative {
                    None => Ok((committed, skipped)),
                    Some(r) => match file_action_for(c, f.size) {
                        FileAction::Skip => Ok((committed, skipped.push(r@))),
                        FileAction::Refuse => Err((f.path@, f.size)),
                        _ => Ok((committed.push(r@), skipped)),
                    },
                }
            },
        }
    }
}

impl GitHistoryManager {
    /// Decides, file by file, what the automatic commit after a save does with `files` (see
    /// `planned`): the project paths to commit and those left out as too large, or
    /// `FileTooLarge` for the first file the configuration refuses.
    pub fn plan_auto_commit(&self, files: &[SavedFile]) -> (r: crate::error::Result<(Vec<String>, Vec<String>)>)
        requires
            threshold_bytes(self@.large_file_config) <= u64::MAX,
        ensures
            match planned(self@.large_file_config, files@) {
                Ok((committed, skipped)) => r matches Ok((a, b)) && string_views(a@) == committed
                    && string_views(b@) == skipped,
                Err((p, size)) => r matches Err(crate::error::EditorError::FileTooLarge { path, size: s, limit })
                    && path@ == p && s == size && limit == threshold_bytes(self@.large_file_config),
            },
    {
        let mut committed: Vec<String> = Vec::new();
        let mut skipped: Vec<String> = Vec::new();
        let mut i: usize = 0;
        proof {
            assert(string_views(committed@) =~= Seq::<Seq<char>>::empty());
            assert(string_views(skipped@) =~= Seq::<Seq<char>>::empty());
            assert(files@.take(0) =~= Seq::<SavedFile>::empty());
        }
        while i < files.len()
            invariant
                i <= files@.len(),
                threshold_bytes(self@.large_file_config) <= u64::MAX,
                planned(self@.large_file_config, files@.take(i as int)) == Ok::<
                    (Seq<Seq<char>>, Seq<Seq<char>>),
                    (Seq<char>, u64),
                >((string_views(committed@), string_views(skipped@))),
            decreases files@.len() - i,
        {
            proof {
                assert(files@.take(i + 1).drop_last() == files@.take(i as int));
                assert(files@.take(i + 1).last() == files@[i as int]);
            }
            let f = &files[i];
            let ghost c0 = committed@;
            let ghost s0 = skipped@;
            match &f.relative {
                None => {},
                Some(rel) => match self.large_file_action(f.size) {
                    FileAction::Skip => {
                        skipped.push(rel.clone());
                        proof {
                            assert(string_views(skipped@) =~= string_views(s0).push(rel@));
                        }
                    },
                    FileAction::Refuse => {
                        proof {
                            lemma_planned_stops(self@.large_file_config, files@, i as int + 1);
                        }
                        return Err(crate::error::EditorError::FileTooLarge {
                            path: f.path.clone(),
                            size: f.size,
                            limit: self.large_file_config.threshold_mb * BYTES_PER_MB,
                        });
                    },
                    _ => {
                        committed.push(rel.clone());
                        proof {
                            assert(string_views(committed@) =~= string_views(c0).push(rel@));
                        }
                    },
                },
            }
            i += 1;
        }
        proof {
            assert(files@.take(files@.len() as int) == files@);
        }
        Ok((committed, skipped))
    }
}

/// Once the plan stops at a refused file, the later files do not change it.
proof fn lemma_planned_stops(c: LargeFileConfig, files: Seq<SavedFile>, k: int)
    requires
        0 <= k <= files.len(),
        planned(c, files.take(k)) is Err,
    ensures
        planned(c, files) == planned(c, files.take(k)),
    decreases files.len() - k,
{
    if k < files.len() {
        assert(files.take(k + 1).drop_last() == files.take(k));
        lemma_planned_stops(c, files, k + 1);
    } else {
        assert(files.take(k) == files);
    }
}
} // verus!
