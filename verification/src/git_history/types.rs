use vstd::prelude::*;

verus! {

/// One commit of a project's history.
#[derive(Debug)]
pub struct CommitInfo {
    pub id: String,
    pub author_name: String,
    pub author_email: String,
    pub timestamp: i64,
    pub message: String,
    pub annotation: Option<String>,
}

pub fn clone_opt_string(s: &Option<String>) -> (r: Option<String>)
    ensures
        r == *s,
{
    match s {
        Some(v) => Some(v.clone()),
        None => None,
    }
}

impl Clone for CommitInfo {
    fn clone(&self) -> (r: Self)
        ensures
            r == *self,
    {
        CommitInfo {
            id: self.id.clone(),
            author_name: self.author_name.clone(),
            author_email: self.author_email.clone(),
            timestamp: self.timestamp,
            message: self.message.clone(),
            annotation: clone_opt_string(&self.annotation),
        }
    }
}

pub fn clone_commits(v: &[CommitInfo]) -> (r: Vec<CommitInfo>)
    ensures
        r@ == v@,
{
    let mut r: Vec<CommitInfo> = Vec::new();
    for i in 0..v.len()
        invariant
            r@ == v@.take(i as int),
    {
        r.push(v[i].clone());
        proof {
            assert(v@.take(i + 1) == v@.take(i as int).push(v@[i as int]));
        }
    }
    proof {
        assert(v@.take(v@.len() as int) == v@);
    }
    r
}

/// How a file changed in a commit.
#[derive(Debug, Clone, Copy, PartialEq, Eq, Structural)]
pub enum ChangeStatus {
    Added,
    Deleted,
    Modified,
}

/// A file touched by a commit.
#[derive(Debug)]
pub struct FileChange {
    pub path: String,
    pub status: ChangeStatus,
}

/// When to compact a history repository.
#[derive(Debug, Clone, Copy, PartialEq, Eq, Structural)]
pub struct GcConfig {
    pub enabled: bool,
    pub commits_threshold: usize,
    pub size_threshold_mb: u64,
    pub aggressive: bool,
}

impl Default for GcConfig {
    fn default() -> (c: Self)
        ensures
            c == (GcConfig {
                enabled: true,
                commits_threshold: 1000,
                size_threshold_mb: 100,
                aggressive: false,
            }),
    {
        Self { enabled: true, commits_threshold: 1000, size_threshold_mb: 100, aggressive: false }
    }
}

/// Per-file figures over a history.
#[derive(Debug)]
pub struct FileStats {
    pub path: String,
    pub commit_count: usize,
    pub total_size: u64,
    pub is_large: bool,
}

impl Clone for FileStats {
    fn clone(&self) -> (r: Self)
        ensures
            r == *self,
    {
        FileStats {
            path: self.path.clone(),
            commit_count: self.commit_count,
            total_size: self.total_size,
            is_large: self.is_large,
        }
    }
}

/// What to do with a file above the large-file threshold when recording history.
#[derive(Debug, Clone, Copy, PartialEq, Eq, Structural)]
pub enum LargeFileStrategy {
    Warn,
    Skip,
    Error,
    Allow,
}

/// The large-file threshold, in megabytes, and what to do above it.
#[derive(Debug, Clone, Copy, PartialEq, Eq, Structural)]
pub struct LargeFileConfig {
    pub threshold_mb: u64,
    pub strategy: LargeFileStrategy,
}

impl Default for LargeFileConfig {
    fn default() -> (c: Self)
        ensures
            c == (LargeFileConfig { threshold_mb: 50, strategy: LargeFileStrategy::Warn }),
    {
        Self { threshold_mb: 50, strategy: LargeFileStrategy::Warn }
    }
}

/// Which commits a history keeps.
#[derive(Debug, Clone, Copy, PartialEq, Eq, Structural)]
pub enum RetentionPolicy {
    Forever,
    Days(u32),
    Commits(usize),
    Size(u64),
}

impl Default for RetentionPolicy {
    fn default() -> (p: Self)
        ensures
            p == RetentionPolicy::Forever,
    {
        RetentionPolicy::Forever
    }
}

/// Summary figures over a project's history.
#[derive(Debug)]
pub struct HistoryStats {
    pub total_commits: usize,
    pub repository_size: u64,
    pub date_range: Option<(i64, i64)>,
    pub file_stats: Vec<FileStats>,
    pub large_file_count: usize,
    pub total_large_file_size: u64,
}

} // verus!
