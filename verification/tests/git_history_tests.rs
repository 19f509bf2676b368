use editor_core::error::EditorError;
use editor_core::git_history::annotations::CommitAnnotations;
use editor_core::git_history::manager::{
    FileAction, GitHistoryManager, IntegrityReport, SavedFile, TrackingMode,
};
use editor_core::git_history::types::{
    CommitInfo, FileStats, GcConfig, LargeFileConfig, LargeFileStrategy, RetentionPolicy,
};

fn commit(id: &str, timestamp: i64) -> CommitInfo {
    CommitInfo {
        id: id.to_string(),
        author_name: "me".to_string(),
        author_email: "me@localhost".to_string(),
        timestamp,
        message: format!("commit {}", id),
        annotation: None,
    }
}

fn stat(path: &str, size: u64, large: bool) -> FileStats {
    FileStats { path: path.to_string(), commit_count: 1, total_size: size, is_large: large }
}

#[test]
fn annotations_set_get_remove() {
    let mut a = CommitAnnotations::new();
    assert_eq!(a.count(), 0);
    a.set("abc".to_string(), "first note".to_string());
    a.set("def".to_string(), "second".to_string());
    assert_eq!(a.get("abc"), Some("first note"));
    assert!(a.has_annotation("def"));
    assert_eq!(a.count(), 2);
    a.set("abc".to_string(), "changed".to_string());
    assert_eq!(a.get("abc"), Some("changed"));
    assert_eq!(a.count(), 2);
    a.set("def".to_string(), String::new());
    assert!(!a.has_annotation("def"));
    assert_eq!(a.remove("abc"), Some("changed".to_string()));
    assert_eq!(a.remove("abc"), None);
    assert_eq!(a.count(), 0);
    assert_eq!(a.iter().len(), 0);
    assert_eq!(CommitAnnotations::default().count(), 0);
}

#[test]
fn integrity_report_collects_findings() {
    let mut r = IntegrityReport::new();
    assert!(r.is_valid);
    r.add_warning("empty".to_string());
    assert!(r.is_valid);
    r.add_error("HEAD file is missing".to_string());
    assert!(!r.is_valid);
    assert_eq!(r.errors, vec!["HEAD file is missing".to_string()]);
    assert_eq!(r.warnings, vec!["empty".to_string()]);
}

#[test]
fn tracking_modes() {
    let p = TrackingMode::Project("/work/app".to_string());
    let f = TrackingMode::SingleFile("/tmp".to_string());
    assert!(p.is_project() && !p.is_single_file());
    assert!(f.is_single_file() && !f.is_project());
    assert_eq!(p.path(), "/work/app");
    assert_eq!(f.path(), "/tmp");
}

#[test]
fn manager_settings() {
    let m = GitHistoryManager::for_home("/home/u");
    assert_eq!(m.storage_root(), "/home/u/.editor-rs/history");
    assert_eq!(*m.gc_config(), GcConfig::default());
    assert_eq!(*m.retention_policy(), RetentionPolicy::Forever);
    assert_eq!(*m.large_file_config(), LargeFileConfig::default());
    let m = GitHistoryManager::with_storage_root("/data/".to_string())
        .unwrap()
        .with_retention_policy(RetentionPolicy::Commits(3))
        .with_large_file_config(LargeFileConfig { threshold_mb: 1, strategy: LargeFileStrategy::Skip });
    assert_eq!(m.storage_root(), "/data/");
    assert_eq!(*m.retention_policy(), RetentionPolicy::Commits(3));
}

#[test]
fn project_hash_is_sha256_in_hex() {
    assert_eq!(
        GitHistoryManager::project_hash("abc"),
        "ba7816bf8f01cfea414140de5dae2223b00361a396177a9cb410ff61f20015ad"
    );
    let m = GitHistoryManager::with_storage_root("/h".to_string()).unwrap();
    assert_eq!(
        m.repo_path("abc"),
        "/h/ba7816bf8f01cfea414140de5dae2223b00361a396177a9cb410ff61f20015ad"
    );
}

#[test]
fn large_file_decisions() {
    let base = GitHistoryManager::with_storage_root("/h".to_string()).unwrap();
    let info = base.check_file_size(50 * 1024 * 1024 + 1);
    assert!(info.exceeds_threshold);
    assert_eq!(info.size_bytes, 50 * 1024 * 1024 + 1);
    assert!(!base.is_large_file(50 * 1024 * 1024));
    assert_eq!(base.large_file_action(60 * 1024 * 1024), FileAction::CommitWithWarning);
    assert_eq!(base.large_file_action(10), FileAction::Commit);
    let strategies = [
        (LargeFileStrategy::Skip, FileAction::Skip),
        (LargeFileStrategy::Error, FileAction::Refuse),
        (LargeFileStrategy::Allow, FileAction::Commit),
    ];
    for (strategy, action) in strategies {
        let m = GitHistoryManager::with_storage_root("/h".to_string())
            .unwrap()
            .with_large_file_config(LargeFileConfig { threshold_mb: 1, strategy });
        assert_eq!(m.large_file_action(2 * 1024 * 1024), action);
    }
}

#[test]
fn gc_decisions() {
    let m = GitHistoryManager::with_storage_root("/h".to_string()).unwrap();
    assert!(!m.should_run_gc(999, 99 * 1024 * 1024));
    assert!(m.should_run_gc(1000, 0));
    assert!(m.should_run_gc(0, 100 * 1024 * 1024));
    let off = m.with_gc_config(GcConfig { enabled: false, ..GcConfig::default() });
    assert!(!off.should_run_gc(5000, u64::MAX));
}

#[test]
fn retention_decisions() {
    let commits = vec![commit("c", 300_000), commit("b", 200_000), commit("a", 0)];
    let days = GitHistoryManager::with_storage_root("/h".to_string())
        .unwrap()
        .with_retention_policy(RetentionPolicy::Days(1));
    assert!(days.should_retain_commit(&commits[1], 300_000, &commits, 0));
    assert!(!days.should_retain_commit(&commits[2], 300_000, &commits, 0));
    assert!(days.should_retain_commit(&commit("future", 400_000), 300_000, &commits, 0));
    let kept = days.retained_commits(&commits, 300_000, 0);
    assert_eq!(kept.iter().map(|c| c.id.as_str()).collect::<Vec<_>>(), vec!["c", "b"]);

    let count = GitHistoryManager::with_storage_root("/h".to_string())
        .unwrap()
        .with_retention_policy(RetentionPolicy::Commits(2));
    assert!(count.should_retain_commit(&commits[1], 0, &commits, 0));
    assert!(!count.should_retain_commit(&commits[2], 0, &commits, 0));
    assert!(!count.should_retain_commit(&commit("gone", 0), 0, &commits, 0));

    let size = GitHistoryManager::with_storage_root("/h".to_string())
        .unwrap()
        .with_retention_policy(RetentionPolicy::Size(100));
    assert!(size.should_retain_commit(&commits[0], 0, &commits, 100));
    assert!(!size.should_retain_commit(&commits[0], 0, &commits, 101));

    let forever = GitHistoryManager::with_storage_root("/h".to_string()).unwrap();
    assert_eq!(forever.retained_commits(&commits, 0, u64::MAX).len(), 3);
}

#[test]
fn date_ranges_and_statistics() {
    assert_eq!(GitHistoryManager::date_range(&[]), None);
    let commits = vec![commit("b", 50), commit("a", 10), commit("c", 70)];
    assert_eq!(GitHistoryManager::date_range(&commits), Some((10, 70)));
    let stats = vec![stat("big.bin", 10, true), stat("small.txt", 5, false), stat("huge", 7, true)];
    let large = GitHistoryManager::large_files(&stats);
    assert_eq!(large.iter().map(|s| s.path.as_str()).collect::<Vec<_>>(), vec!["big.bin", "huge"]);
    let h = GitHistoryManager::history_stats(3, 1234, Some((10, 70)), stats);
    assert_eq!(h.total_commits, 3);
    assert_eq!(h.repository_size, 1234);
    assert_eq!(h.date_range, Some((10, 70)));
    assert_eq!(h.large_file_count, 2);
    assert_eq!(h.total_large_file_size, 17);
    assert_eq!(h.file_stats.len(), 3);
}

#[test]
fn auto_save_messages() {
    let one = vec!["src/main.rs".to_string()];
    let two = vec!["a.rs".to_string(), "b.rs".to_string()];
    let none: Vec<String> = Vec::new();
    assert_eq!(
        GitHistoryManager::auto_save_message(&one, "2024-01-02 03:04:05", &none),
        "Auto-save: src/main.rs at 2024-01-02 03:04:05"
    );
    assert_eq!(
        GitHistoryManager::auto_save_message(&two, "T", &none),
        "Auto-save: 2 files at T\n\n  - a.rs\n  - b.rs"
    );
    assert_eq!(
        GitHistoryManager::auto_save_message(&one, "T", &vec!["big.bin".to_string()]),
        "Auto-save: src/main.rs at T\n\n(1 large file excluded)\n  - big.bin"
    );
    assert_eq!(
        GitHistoryManager::auto_save_message(&one, "T", &two),
        "Auto-save: src/main.rs at T\n\n(2 large files excluded)\n  - a.rs\n  - b.rs"
    );
}

#[test]
fn file_content_must_be_utf8() {
    assert_eq!(GitHistoryManager::file_content_from_bytes("héllo".as_bytes().to_vec()).unwrap(), "héllo");
    let err = GitHistoryManager::file_content_from_bytes(vec![0xff, 0xfe]).unwrap_err();
    assert!(matches!(err, EditorError::Parse(_)));
}

#[test]
fn per_file_stats_count_changes_and_sizes() {
    let m = GitHistoryManager::for_home("/home/u")
        .with_large_file_config(LargeFileConfig { threshold_mb: 1, strategy: LargeFileStrategy::Skip });
    let changed: Vec<String> = ["a.rs", "b.bin", "a.rs", "c.txt", "a.rs", "b.bin"]
        .iter()
        .map(|s| s.to_string())
        .collect();
    let sizes = vec![
        ("a.rs".to_string(), 10),
        ("b.bin".to_string(), 3 * 1024 * 1024),
        ("a.rs".to_string(), 40),
        ("b.bin".to_string(), 5),
    ];
    let stats = m.per_file_stats(&changed, &sizes);
    let got: Vec<(String, usize, u64, bool)> = stats
        .iter()
        .map(|f| (f.path.clone(), f.commit_count, f.total_size, f.is_large))
        .collect();
    assert_eq!(
        got,
        vec![
            ("a.rs".to_string(), 3, 40, false),
            ("b.bin".to_string(), 2, 3 * 1024 * 1024, true),
            ("c.txt".to_string(), 1, 0, false),
        ]
    );
    assert!(m.per_file_stats(&[], &sizes).is_empty());
}

fn saved(path: &str, relative: Option<&str>, size: u64) -> SavedFile {
    SavedFile { path: path.to_string(), relative: relative.map(|r| r.to_string()), size }
}

#[test]
fn auto_commit_plan_sorts_files() {
    let big = 2 * 1024 * 1024;
    let skip = GitHistoryManager::for_home("/home/u")
        .with_large_file_config(LargeFileConfig { threshold_mb: 1, strategy: LargeFileStrategy::Skip });
    let files = vec![
        saved("/p/a.rs", Some("a.rs"), 10),
        saved("/elsewhere/x", None, 0),
        saved("/p/big.bin", Some("big.bin"), big),
        saved("/p/src/b.rs", Some("src/b.rs"), 20),
    ];
    let (committed, skipped) = skip.plan_auto_commit(&files).unwrap();
    assert_eq!(committed, vec!["a.rs".to_string(), "src/b.rs".to_string()]);
    assert_eq!(skipped, vec!["big.bin".to_string()]);
    let refuse = GitHistoryManager::for_home("/home/u")
        .with_large_file_config(LargeFileConfig { threshold_mb: 1, strategy: LargeFileStrategy::Error });
    match refuse.plan_auto_commit(&files) {
        Err(EditorError::FileTooLarge { path, size, limit }) => {
            assert_eq!(path, "/p/big.bin");
            assert_eq!(size, big);
            assert_eq!(limit, 1024 * 1024);
        }
        other => panic!("unexpected {:?}", other.is_ok()),
    }
    let warn = GitHistoryManager::for_home("/home/u")
        .with_large_file_config(LargeFileConfig { threshold_mb: 1, strategy: LargeFileStrategy::Warn });
    let (committed, skipped) = warn.plan_auto_commit(&files).unwrap();
    assert_eq!(committed.len(), 3);
    assert!(skipped.is_empty());
}
