use sizelint::config::RuleDefinition;
use sizelint::filter::PathFilter;
use sizelint::git::{
    commit_chunks, expand_git_range, history_blobs, merge_base_range, parse_batch_sizes,
    parse_commit_count, parse_rev_list, BlobEntry, GitError, GitRepo, HistoryBlob,
    RangeExpansion,
};
use sizelint::rules::{merge_findings, CandidateFile, ConfigurableRule, RuleEngine};

const ZERO: &str = "0000000000000000000000000000000000000000";

fn commit(n: u32) -> String {
    format!("{:040x}", 0xabc0_0000u64 + n as u64)
}

fn blob(n: u32) -> String {
    format!("{:040x}", 0xb10b_0000u64 + n as u64)
}

/// One commit of batch tree-diff output: its line, then one raw line per change.
fn diff_commit(c: &str, changes: &[(&str, &str, &str)]) -> String {
    let mut out = format!("{c}\n");
    for (mode, hash, path) in changes {
        out.push_str(&format!(":000000 {mode} {ZERO} {hash} A\t{path}\n"));
    }
    out
}

/// Mines the records that the given tree-diff output and blob sizes describe.
fn mine(diff_tree: &str, sizes: &[(&str, u64)]) -> Vec<HistoryBlob> {
    let repo = GitRepo::new("/repo".to_string());
    let entries = repo.parse_diff_tree(diff_tree);
    let mut batch = String::new();
    for e in &entries {
        let size = sizes
            .iter()
            .find(|(h, _)| *h == e.blob_hash)
            .map(|(_, s)| *s)
            .unwrap();
        batch.push_str(&format!("{} blob {}\n", e.blob_hash, size));
    }
    let sizes = parse_batch_sizes(&batch, &entries).unwrap();
    history_blobs(&entries, &sizes)
}

fn default_engine(max: &str) -> RuleEngine {
    let mut engine = RuleEngine::new();
    let rule = ConfigurableRule::new(
        "default".to_string(),
        RuleDefinition {
            enabled: true,
            description: "test".to_string(),
            priority: 100,
            max_size: Some(max.to_string()),
            ..Default::default()
        },
    )
    .unwrap();
    engine.add_rule(rule);
    engine
}

#[test]
fn test_history_blob_large_file_added_then_deleted() {
    let b = blob(1);
    // the deleting commit lists nothing: deletions are filtered out by the diff
    let out = diff_commit(&commit(1), &[("100644", &b, "data/dump.sql")])
        + &diff_commit(&commit(2), &[]);
    let blobs = mine(&out, &[(&b, 1024)]);
    let dump_blobs: Vec<_> = blobs
        .iter()
        .filter(|b| b.path.ends_with("data/dump.sql"))
        .collect();
    assert_eq!(dump_blobs.len(), 1);
    assert_eq!(dump_blobs[0].size, 1024);
    assert!(!dump_blobs[0].commit.is_empty());
    assert_eq!(dump_blobs[0].commit, commit(1)[..12]);
    assert_eq!(dump_blobs[0].path, "/repo/data/dump.sql");
}

#[test]
fn test_history_blob_file_still_at_head() {
    let b = blob(2);
    let out = diff_commit(&commit(1), &[("100644", &b, "src/keep.rs")]);
    let blobs = mine(&out, &[(&b, 12)]);
    let keep_blobs: Vec<_> = blobs
        .iter()
        .filter(|b| b.path.ends_with("src/keep.rs"))
        .collect();
    assert_eq!(keep_blobs.len(), 1);
}

#[test]
fn test_history_blob_small_file_no_violation() {
    let b = blob(3);
    let out = diff_commit(&commit(1), &[("100644", &b, "tmp/notes.txt")])
        + &diff_commit(&commit(2), &[]);
    let blobs = mine(&out, &[(&b, 13)]);
    let notes_blobs: Vec<_> = blobs
        .iter()
        .filter(|b| b.path.ends_with("tmp/notes.txt"))
        .collect();
    assert_eq!(notes_blobs.len(), 1);
    let engine = default_engine("1MB");
    let violations = engine.check_history_blobs(&blobs);
    assert!(violations.is_empty());
}

#[test]
fn test_history_blob_config_excludes_filter() {
    let (code, big) = (blob(4), blob(5));
    let out = diff_commit(
        &commit(1),
        &[("100644", &code, "src/code.rs"), ("100644", &big, "vendor/big.dat")],
    ) + &diff_commit(&commit(2), &[]);
    let blobs = mine(&out, &[(&code, 512), (&big, 2048)]);
    let filter = PathFilter::new(&vec!["*.dat".to_string()]).unwrap();
    let blobs = filter.filter_blobs(blobs);
    let has_code = blobs.iter().any(|b| b.path.ends_with("src/code.rs"));
    let has_dat = blobs.iter().any(|b| b.path.ends_with("vendor/big.dat"));
    assert!(has_code);
    assert!(!has_dat);
}

#[test]
fn test_history_blob_add_delete_readd_delete() {
    let (v1, v2) = (blob(6), blob(7));
    let out = diff_commit(&commit(1), &[("100644", &v1, "data.csv")])
        + &diff_commit(&commit(2), &[])
        + &diff_commit(&commit(3), &[("100644", &v2, "data.csv")])
        + &diff_commit(&commit(4), &[]);
    let blobs = mine(&out, &[(&v1, 100), (&v2, 500)]);
    let csv_blobs: Vec<_> = blobs
        .iter()
        .filter(|b| b.path.ends_with("data.csv"))
        .collect();
    assert_eq!(csv_blobs.len(), 2);
}

#[test]
fn test_history_blob_temporarily_too_large_then_shrunk() {
    let (large, small) = (blob(8), blob(9));
    let out = diff_commit(&commit(1), &[("100644", &large, "data.bin")])
        + &diff_commit(&commit(2), &[("100644", &small, "data.bin")]);
    let blobs = mine(&out, &[(&large, 1024), (&small, 100)]);
    let data_blobs: Vec<_> = blobs
        .iter()
        .filter(|b| b.path.ends_with("data.bin"))
        .collect();
    assert_eq!(data_blobs.len(), 2);
    let engine = default_engine("500B");
    let violations = engine.check_history_blobs(&blobs);
    assert_eq!(violations.len(), 1);
    assert!(violations[0].path.ends_with("data.bin"));
}

#[test]
fn test_history_blob_grew_then_deleted() {
    let b = blob(10);
    let out = diff_commit(&commit(1), &[("100644", &b, "big.log")])
        + &diff_commit(&commit(2), &[]);
    let blobs = mine(&out, &[(&b, 2048)]);
    let engine = default_engine("1KB");
    let violations = engine.check_history_blobs(&blobs);
    assert_eq!(violations.len(), 1);
    assert!(violations[0].path.ends_with("big.log"));
}

#[test]
fn test_history_blob_dedup_keeps_largest() {
    let (a, b, c) = (blob(11), blob(12), blob(13));
    let out = diff_commit(&commit(1), &[("100644", &a, "grow.dat")])
        + &diff_commit(&commit(2), &[("100644", &b, "grow.dat")])
        + &diff_commit(&commit(3), &[("100644", &c, "grow.dat")]);
    let blobs = mine(&out, &[(&a, 600), (&b, 900), (&c, 1200)]);
    let grow_blobs: Vec<_> = blobs
        .iter()
        .filter(|b| b.path.ends_with("grow.dat"))
        .collect();
    assert_eq!(grow_blobs.len(), 3);
    let engine = default_engine("500B");
    let violations = engine.check_history_blobs(&blobs);
    assert_eq!(violations.len(), 1);
    assert!(violations[0].path.ends_with("grow.dat"));
    assert_eq!(violations[0].sort_key, 1200);
}

#[test]
fn test_cross_phase_dedup_keeps_larger_history_blob() {
    let (large, shrunk) = (blob(14), blob(15));
    let out = diff_commit(&commit(1), &[("100644", &large, "bloat.bin")])
        + &diff_commit(&commit(2), &[("100644", &shrunk, "bloat.bin")]);
    let engine = default_engine("500B");
    let live_files = vec![CandidateFile { path: "/repo/bloat.bin".to_string(), size: 600 }];
    let violations = engine.check_files(&live_files);
    assert_eq!(violations.len(), 1);
    let blobs = mine(&out, &[(&large, 2000), (&shrunk, 600)]);
    let blob_violations = engine.check_history_blobs(&blobs);
    assert!(violations.len() + blob_violations.len() > 1);
    let violations = merge_findings(&violations, &blob_violations);
    assert_eq!(violations.len(), 1);
    assert_eq!(violations[0].sort_key, 2000);
}

#[test]
fn test_cross_phase_dedup_no_duplicate_when_unchanged() {
    let b = blob(16);
    let out = diff_commit(&commit(1), &[("100644", &b, "big.dat")]);
    let engine = default_engine("500B");
    let live_files = vec![CandidateFile { path: "/repo/big.dat".to_string(), size: 800 }];
    let violations = engine.check_files(&live_files);
    assert_eq!(violations.len(), 1);
    let blobs = mine(&out, &[(&b, 800)]);
    let blob_violations = engine.check_history_blobs(&blobs);
    assert_eq!(violations.len() + blob_violations.len(), 2);
    let violations = merge_findings(&violations, &blob_violations);
    assert_eq!(violations.len(), 1);
    assert_eq!(violations[0].sort_key, 800);
}

#[test]
fn submodule_entries_are_never_mined() {
    let (file, module) = (blob(17), blob(18));
    let out = diff_commit(
        &commit(1),
        &[("160000", &module, "vendor/lib"), ("100644", &file, "README.md")],
    );
    let repo = GitRepo::new("/repo".to_string());
    let entries = repo.parse_diff_tree(&out);
    assert_eq!(entries.len(), 1);
    assert_eq!(entries[0].path, "/repo/README.md");
    assert_eq!(entries[0].blob_hash, file);
}

#[test]
fn diff_tree_lines_that_are_not_entries_are_skipped() {
    let b = blob(19);
    let out = format!(
        "{}\r\nnoise\n:100644 100644 {ZERO} {b} M\n:100644 100644 {ZERO} {b} M\tsrc/a b.rs\n",
        commit(1)
    );
    let repo = GitRepo::new("/repo/".to_string());
    let entries = repo.parse_diff_tree(&out);
    assert_eq!(entries.len(), 1);
    assert_eq!(entries[0].path, "/repo/src/a b.rs");
    // a carriage return before the line feed does not belong to the line
    assert_eq!(entries[0].commit, commit(1)[..12]);
}

#[test]
fn batch_sizes_fail_on_unreadable_lines() {
    let entries = vec![
        BlobEntry { blob_hash: "aa".to_string(), path: "/r/a".to_string(), commit: "c".to_string() },
        BlobEntry { blob_hash: "bb".to_string(), path: "/r/b".to_string(), commit: "c".to_string() },
    ];
    assert_eq!(
        parse_batch_sizes("aa blob 10\nbb blob 20\n", &entries).unwrap(),
        vec![10, 20]
    );
    match parse_batch_sizes("aa blob 10\nbb missing\n", &entries) {
        Err(GitError::CommandFailed { command, exit_code, stderr }) => {
            assert_eq!(command, "git cat-file --batch-check (bb)");
            assert_eq!(exit_code, -1);
            assert_eq!(stderr, "Unexpected output: bb missing");
        }
        other => panic!("unexpected: {other:?}"),
    }
    match parse_batch_sizes("aa blob ten\n", &entries) {
        Err(GitError::CommandFailed { stderr, .. }) => {
            assert_eq!(stderr, "Could not parse blob size from: aa blob ten")
        }
        other => panic!("unexpected: {other:?}"),
    }
    // output shorter than the entries: the blob without a line is named
    match parse_batch_sizes("aa blob 10\n", &entries) {
        Err(GitError::CommandFailed { command, exit_code, .. }) => {
            assert_eq!(command, "git cat-file --batch-check (bb)");
            assert_eq!(exit_code, -1);
        }
        other => panic!("unexpected: {other:?}"),
    }
    // output longer than the entries: the extra lines are not read
    assert_eq!(
        parse_batch_sizes("aa blob 10\nbb blob 20\ncc blob 30\n", &entries).unwrap(),
        vec![10, 20]
    );
}

#[test]
fn test_expand_git_range_bare_ref() {
    match expand_git_range("master") {
        RangeExpansion::NeedsMergeBase(r) => assert_eq!(r, "master"),
        other => panic!("unexpected: {other:?}"),
    }
    let expanded = merge_base_range(&format!("{}\n", commit(7)));
    assert!(expanded.contains("..HEAD"));
    assert!(!expanded.contains("..."));
    assert_eq!(expanded, format!("{}..HEAD", commit(7)));
}

#[test]
fn test_expand_git_range_two_dot() {
    match expand_git_range("HEAD~1..HEAD") {
        RangeExpansion::Ready(r) => assert_eq!(r, "HEAD~1..HEAD"),
        other => panic!("unexpected: {other:?}"),
    }
}

#[test]
fn test_expand_git_range_three_dot() {
    match expand_git_range("HEAD~1...HEAD") {
        RangeExpansion::Ready(r) => assert_eq!(r, "HEAD~1...HEAD"),
        other => panic!("unexpected: {other:?}"),
    }
}

#[test]
fn commits_are_cut_into_even_chunks() {
    let commits: Vec<String> = (0..10).map(|i| format!("c{i}")).collect();
    let chunks = commit_chunks(&commits, 4);
    let sizes: Vec<usize> = chunks.iter().map(|c| c.len()).collect();
    assert_eq!(sizes, vec![3, 3, 3, 1]);
    let flat: Vec<String> = chunks.into_iter().flatten().collect();
    assert_eq!(flat, commits);
    assert_eq!(commit_chunks(&commits, 0).len(), 1);
    assert_eq!(commit_chunks(&commits, 64).len(), 10);
    assert!(commit_chunks(&Vec::new(), 8).is_empty());
}

#[test]
fn revision_lists_and_counts_are_read() {
    assert_eq!(parse_rev_list("a\n\nb\n"), vec!["a".to_string(), "b".to_string()]);
    assert_eq!(parse_commit_count(" 42\n"), 42);
    assert_eq!(parse_commit_count("many"), 0);
    let repo = GitRepo::new("/top".to_string());
    assert_eq!(
        repo.parse_paths("a.rs\n\nsrc/b.rs\n"),
        vec!["/top/a.rs".to_string(), "/top/src/b.rs".to_string()]
    );
}

fn file_names(files: &[String]) -> Vec<String> {
    let mut names: Vec<String> = files
        .iter()
        .map(|p| p.rsplit('/').next().unwrap().to_string())
        .collect();
    names.sort();
    names
}

#[test]
fn test_git_diff_discovers_changed_files_via_merge_base() {
    // a bare branch name is resolved against its merge base with the head
    assert!(matches!(expand_git_range("main"), RangeExpansion::NeedsMergeBase(_)));
    let repo = GitRepo::new("/repo".to_string());
    let files = repo.parse_paths("feature.rs\nsrc/helper.rs\n");
    let names = file_names(&files);
    assert_eq!(names, vec!["feature.rs", "helper.rs"]);
    assert!(!names.contains(&"init.txt".to_string()));
}

#[test]
fn test_git_diff_two_dot_range() {
    let base = "0123456789abcdef0123456789abcdef01234567";
    match expand_git_range(&format!("{base}..feature")) {
        RangeExpansion::Ready(r) => assert_eq!(r, format!("{base}..feature")),
        other => panic!("unexpected: {other:?}"),
    }
    let repo = GitRepo::new("/repo".to_string());
    let files = repo.parse_paths("new.rs\n");
    assert_eq!(file_names(&files), vec!["new.rs"]);
}

#[test]
fn test_git_diff_empty_range_returns_zero_files() {
    assert!(matches!(expand_git_range("HEAD..HEAD"), RangeExpansion::Ready(_)));
    let repo = GitRepo::new("/repo".to_string());
    assert!(repo.parse_paths("").is_empty());
}

#[test]
fn test_git_diff_config_excludes_filter_results() {
    let repo = GitRepo::new("/repo".to_string());
    let files = repo.parse_paths("build/output.bin\nsrc/main.rs\n");
    let filter = PathFilter::new(&vec!["*.bin".to_string()]).unwrap();
    let names = file_names(&filter.filter_paths(files));
    assert!(names.contains(&"main.rs".to_string()));
    assert!(!names.contains(&"output.bin".to_string()));
}
