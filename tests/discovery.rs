use prompt::discovery::{
    check_roots, match_bases, merge_discovered, relativize_for_match, visit_entry, walk_settings,
    worker_count, DiscoveredFile, DiscoveryError, EntryKind, WalkStep,
};
use prompt::exclude::{compile_excludes, excluded_by, ExcludePattern};
use prompt::path::PathName;

fn path(text: &str) -> PathName {
    let mut parts = Vec::new();
    if text.starts_with('/') {
        parts.push("/".to_string());
    }
    for part in text.split('/') {
        if !part.is_empty() {
            parts.push(part.to_string());
        }
    }
    PathName::new(parts)
}

fn globs(texts: &[&str]) -> Vec<ExcludePattern> {
    let texts: Vec<String> = texts.iter().map(|t| t.to_string()).collect();
    match compile_excludes(&texts) {
        Ok(patterns) => patterns,
        Err(fault) => panic!("invalid glob {}", fault.pattern),
    }
}

fn record(kind: EntryKind, file: &str, bases: &[&str], excludes: &[&str]) -> WalkStep {
    let bases: Vec<PathName> = bases.iter().map(|b| path(b)).collect();
    visit_entry(kind, &path(file), &bases, &globs(excludes))
}

fn recorded(step: WalkStep) -> DiscoveredFile {
    match step {
        WalkStep::Record(file) => file,
        other => panic!("expected a record, got {:?}", other),
    }
}

#[test]
fn excludes_apply_to_absolute_paths() {
    let root = "/tmp/prompt-test-1";
    let excluded = recorded(record(
        EntryKind::File,
        "/tmp/prompt-test-1/target/excluded.txt",
        &[root],
        &["target/**"],
    ));
    assert!(excluded.path.to_text().ends_with("target/excluded.txt"));
    assert!(excluded.excluded, "absolute-path glob did not match");
}

#[test]
fn keep_and_target_are_both_listed() {
    let found = vec![
        recorded(record(EntryKind::File, "./target/excluded.txt", &["."], &["target/**"])),
        recorded(record(EntryKind::File, "./keep.txt", &["."], &["target/**"])),
    ];
    let merged = merge_discovered(&found);
    assert_eq!(merged.len(), 2);
    assert_eq!(merged[0].path.to_text(), "keep.txt");
    assert!(!merged[0].excluded);
    assert_eq!(merged[1].path.to_text(), "target/excluded.txt");
    assert!(merged[1].excluded);
}

#[test]
fn canonical_base_is_tried_after_the_literal_ones() {
    let bases = vec![path("src"), path("/home/me/project/src")];
    let fragment = relativize_for_match(&path("/home/me/project/src/lib.rs"), &bases);
    assert_eq!(fragment.to_text(), "lib.rs");
    let outside = relativize_for_match(&path("./other/x.rs"), &bases);
    assert_eq!(outside.to_text(), "other/x.rs");
}

#[test]
fn match_bases_lists_roots_then_canonical_forms() {
    let roots = vec![path("."), path("docs")];
    let canonical = vec![Some(path("/w")), None];
    let bases = match_bases(&roots, &canonical);
    let texts: Vec<String> = bases.iter().map(|b| b.to_text()).collect();
    assert_eq!(texts, vec![".".to_string(), "docs".to_string(), "/w".to_string()]);
}

#[test]
fn git_directories_are_pruned_and_links_skipped() {
    assert!(matches!(record(EntryKind::Directory, "./.git", &["."], &[]), WalkStep::Skip));
    assert!(matches!(record(EntryKind::Directory, "./a/.git/objects", &["."], &[]), WalkStep::Skip));
    assert!(matches!(record(EntryKind::Directory, "./a/.github", &["."], &[]), WalkStep::Descend));
    assert!(matches!(record(EntryKind::Symlink, "./link", &["."], &[]), WalkStep::Skip));
}

#[test]
fn missing_root_is_reported_before_walking() {
    let roots = vec![path("."), path("*.go"), path("missing")];
    match check_roots(&roots, &vec![true, false, false]) {
        Err(DiscoveryError::MissingPath(p)) => assert_eq!(p.to_text(), "*.go"),
        _ => panic!("expected a missing path"),
    }
    assert!(check_roots(&roots, &vec![true, true, true]).is_ok());
    let message = DiscoveryError::MissingPath(path("*.go")).message();
    assert!(message.starts_with("Path '*.go' does not exist."));
    assert!(message.contains("--exclude"));
}

#[test]
fn overlapping_roots_merge_into_one_excluded_entry() {
    let a = DiscoveredFile { path: path("src/a.rs"), excluded: false };
    let b = DiscoveredFile { path: path("src/a.rs"), excluded: true };
    let c = DiscoveredFile { path: path("README.md"), excluded: false };
    let merged = merge_discovered(&vec![a.clone(), c.clone(), b.clone(), a.clone()]);
    assert_eq!(merged.len(), 2);
    assert_eq!(merged[0].path.to_text(), "README.md");
    assert_eq!(merged[1].path.to_text(), "src/a.rs");
    assert!(merged[1].excluded);
}

#[test]
fn merging_does_not_depend_on_walk_order() {
    let files = vec![
        DiscoveredFile { path: path("b/x"), excluded: false },
        DiscoveredFile { path: path("a"), excluded: true },
        DiscoveredFile { path: path("b"), excluded: false },
        DiscoveredFile { path: path("a-b"), excluded: false },
    ];
    let mut reversed = files.clone();
    reversed.reverse();
    let first = merge_discovered(&files);
    let second = merge_discovered(&reversed);
    assert_eq!(first, second);
    let texts: Vec<String> = first.iter().map(|f| f.path.to_text()).collect();
    assert_eq!(texts, vec!["a", "a-b", "b", "b/x"]);
}

#[test]
fn vcs_ignore_rules_follow_the_flag() {
    let honored = walk_settings(false, Some(4));
    assert!(honored.git_ignore && honored.git_global && honored.git_exclude);
    assert!(honored.hidden);
    assert_eq!(honored.threads, 4);
    let included = walk_settings(true, None);
    assert!(!included.git_ignore && !included.git_global && !included.git_exclude);
    assert_eq!(included.threads, 1);
}

#[test]
fn worker_count_is_between_one_and_twelve() {
    assert_eq!(worker_count(None), 1);
    assert_eq!(worker_count(Some(0)), 1);
    assert_eq!(worker_count(Some(8)), 8);
    assert_eq!(worker_count(Some(64)), 12);
}

#[test]
fn invalid_glob_is_a_configuration_error() {
    let texts = vec!["*.rs".to_string(), "a[".to_string()];
    match compile_excludes(&texts) {
        Err(fault) => assert_eq!(fault.pattern, "a["),
        Ok(_) => panic!("expected a fault"),
    }
}

#[test]
fn glob_matching_uses_the_fragment_text() {
    let patterns = globs(&["*.log", "build/**"]);
    assert!(excluded_by(&patterns, "x.log"));
    assert!(excluded_by(&patterns, "build/out/a.o"));
    assert!(!excluded_by(&patterns, "src/main.rs"));
}

#[test]
fn walk_failure_is_its_own_error() {
    let error = DiscoveryError::Walk("permission denied".to_string());
    assert_eq!(error.message(), "Error reading file: permission denied");
    assert!(matches!(error, DiscoveryError::Walk(_)));
}
