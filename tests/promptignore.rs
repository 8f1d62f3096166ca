use prompt::discovery::DiscoveredFile;
use prompt::path::PathName;
use prompt::promptignore::{
    apply_promptignore, directory_chain_within, find_root_for_path, load_global_promptignore,
    load_promptignore_from_dir,
    prompt_home_dir, promptignore_dirs, IgnoreFault, IgnoreFile, PromptignoreDecision,
    PromptignoreMatcher,
};

fn path(text: &str) -> PathName {
    let mut parts = Vec::new();
    if text.starts_with('/') {
        parts.push("/".to_string());
    }
    for part in text.split('/') {
        if !part.is_empty() {
            parts.push(part.to_string());
        }
    }
    PathName::new(parts)
}

/// Resolves the files under `root` against the given `.promptignore`
/// texts, each keyed by its directory, as discovery does.
fn resolve(
    root: &str,
    files: &[&str],
    local: &[(&str, &str)],
    global: Option<(&str, &str)>,
) -> Vec<DiscoveredFile> {
    let roots = vec![path(root)];
    let canonical: Vec<PathName> = files.iter().map(|f| path(f)).collect();
    let mut discovered: Vec<DiscoveredFile> =
        files.iter().map(|f| DiscoveredFile { path: path(f), excluded: false }).collect();
    let (global_rules, _) = match global {
        Some((home, text)) => load_global_promptignore(Some(path(home)), Some(text)),
        None => load_global_promptignore(None, None),
    };
    let mut matcher = PromptignoreMatcher::new(global_rules);
    let dirs = promptignore_dirs(&canonical, &roots);
    let texts: Vec<Option<String>> = dirs
        .iter()
        .map(|dir| local.iter().find(|(d, _)| path(d) == *dir).map(|(_, t)| t.to_string()))
        .collect();
    assert!(matcher.cache_dirs(&dirs, &texts).is_empty());
    for dir in &dirs {
        assert!(matcher.is_cached(dir));
    }
    apply_promptignore(&mut discovered, &canonical, &roots, &matcher);
    discovered
}

fn excluded(files: &[DiscoveredFile], file: &str) -> bool {
    files.iter().find(|f| f.path == path(file)).expect("file should be discovered").excluded
}

#[test]
fn promptignore_marks_files_but_keeps_them_visible() {
    let root = "/tmp/prompt-test-2";
    let files = resolve(
        root,
        &["/tmp/prompt-test-2/skip.me", "/tmp/prompt-test-2/keep.me"],
        &[(root, "skip.me\n")],
        None,
    );
    assert_eq!(files.len(), 2);
    assert!(excluded(&files, "/tmp/prompt-test-2/skip.me"), "promptignore file should mark skip.me excluded");
    assert!(!excluded(&files, "/tmp/prompt-test-2/keep.me"));
}

#[test]
fn promptignore_whitelist_overrides_parent_rule() {
    let root = "/tmp/prompt-test-3";
    let files = resolve(
        root,
        &["/tmp/prompt-test-3/logs/ignored.log", "/tmp/prompt-test-3/logs/keep.log"],
        &[(root, "logs/\n"), ("/tmp/prompt-test-3/logs", "!keep.log\n")],
        None,
    );
    assert!(excluded(&files, "/tmp/prompt-test-3/logs/ignored.log"));
    assert!(!excluded(&files, "/tmp/prompt-test-3/logs/keep.log"), "nested whitelist should re-include keep.log");
}

#[test]
fn global_promptignore_applies_when_overridden_home_matches() {
    let home = prompt_home_dir(Some(path("/tmp/prompt-test-4")), Some(path("/home/me")))
        .expect("override wins");
    assert_eq!(home.to_text(), "/tmp/prompt-test-4");
    let files = resolve(
        "/tmp/prompt-test-4/project",
        &["/tmp/prompt-test-4/project/data.bin", "/tmp/prompt-test-4/project/notes.txt"],
        &[],
        Some(("/tmp/prompt-test-4", "*.bin\n")),
    );
    assert!(excluded(&files, "/tmp/prompt-test-4/project/data.bin"), "global promptignore should exclude *.bin");
    assert!(!excluded(&files, "/tmp/prompt-test-4/project/notes.txt"));
}

#[test]
fn global_file_outside_the_home_does_not_apply() {
    let files = resolve(
        "/srv/project",
        &["/srv/project/data.bin"],
        &[],
        Some(("/tmp/prompt-test-5", "*.bin\n")),
    );
    assert!(!excluded(&files, "/srv/project/data.bin"));
}

#[test]
fn deeper_rule_ignores_again() {
    let root = "/r";
    let files = resolve(
        root,
        &["/r/a/b/x.txt", "/r/a/y.txt"],
        &[(root, "*.txt\n"), ("/r/a", "!*.txt\n"), ("/r/a/b", "x.txt\n")],
        None,
    );
    assert!(excluded(&files, "/r/a/b/x.txt"));
    assert!(!excluded(&files, "/r/a/y.txt"));
}

#[test]
fn an_excluded_entry_stays_excluded() {
    let roots = vec![path("/r")];
    let canonical = vec![path("/r/keep.txt")];
    let mut discovered = vec![DiscoveredFile { path: path("keep.txt"), excluded: true }];
    let mut matcher = PromptignoreMatcher::new(None);
    assert!(matcher.cache_dir(&path("/r"), Some("!keep.txt\n")).is_none());
    apply_promptignore(&mut discovered, &canonical, &roots, &matcher);
    assert!(discovered[0].excluded);
}

#[test]
fn chain_runs_from_root_to_parent() {
    let chain = directory_chain_within(&path("/r/a/b/f.txt"), &path("/r"));
    let texts: Vec<String> = chain.iter().map(|d| d.to_text()).collect();
    assert_eq!(texts, vec!["/r", "/r/a", "/r/a/b"]);
    assert!(directory_chain_within(&path("/s/f.txt"), &path("/r")).is_empty());
    assert!(directory_chain_within(&path("/r"), &path("/r")).is_empty());
    assert!(directory_chain_within(&path("/"), &PathName::empty()).is_empty());
    let relative = directory_chain_within(&path("a/b"), &PathName::empty());
    let texts: Vec<String> = relative.iter().map(|d| d.to_text()).collect();
    assert_eq!(texts, vec!["", "a"]);
}

#[test]
fn deepest_root_owns_the_file() {
    let roots = vec![path("/r"), path("/r/a/b"), path("/r/a")];
    let root = find_root_for_path(&path("/r/a/b/c.txt"), &roots).expect("a root");
    assert_eq!(root.to_text(), "/r/a/b");
    assert!(find_root_for_path(&path("/elsewhere/c.txt"), &roots).is_none());
}

#[test]
fn directories_to_load_are_listed_once() {
    let roots = vec![path("/r")];
    let files = vec![path("/r/a/x"), path("/r/a/y"), path("/r/b/z"), path("relative/w")];
    let dirs = promptignore_dirs(&files, &roots);
    let texts: Vec<String> = dirs.iter().map(|d| d.to_text()).collect();
    assert_eq!(texts, vec!["/r", "/r/a", "/r/b"]);
}

#[test]
fn malformed_file_is_reported_and_not_used() {
    let dir = path("/r");
    match IgnoreFile::compile(&dir, "ok.txt\n{a\n") {
        Err(IgnoreFault::BadLine(n)) => assert_eq!(n, 2),
        other => panic!("expected a bad line, got {:?}", other.err()),
    }
    let mut matcher = PromptignoreMatcher::new(None);
    let fault = matcher.cache_dir(&dir, Some("{a\n"));
    assert!(fault.is_some());
    assert!(matcher.matcher_for_dir(&dir).is_none());
    assert!(matcher.is_cached(&dir));
}

#[test]
fn comments_blank_lines_and_byte_order_mark_are_accepted() {
    let dir = path("/r");
    let file = IgnoreFile::compile(&dir, "\u{feff}# comment\n\n*.tmp\r\n").expect("valid rules");
    assert_eq!(file.decision_for(&path("/r/x.tmp")), PromptignoreDecision::Ignore);
    assert_eq!(file.decision_for(&path("/r/x.txt")), PromptignoreDecision::NoMatch);
    assert_eq!(file.decision_for(&path("/elsewhere/x.tmp")), PromptignoreDecision::NoMatch);
}

#[test]
fn whitelist_rule_gives_a_whitelist_decision() {
    let file = IgnoreFile::compile(&path("/r"), "!keep.log\n").expect("valid rules");
    assert_eq!(file.decision_for(&path("/r/sub/keep.log")), PromptignoreDecision::Whitelist);
    assert!(!PromptignoreDecision::Whitelist.is_ignore());
    assert!(PromptignoreDecision::Ignore.is_ignore());
}

#[test]
fn home_directory_is_used_without_override() {
    let home = prompt_home_dir(None, Some(path("/home/me"))).expect("home");
    assert_eq!(home.to_text(), "/home/me");
    assert!(prompt_home_dir(None, None).is_none());
    let (rules, fault) = load_global_promptignore(Some(path("/home/me")), None);
    assert!(rules.is_none() && fault.is_none());
}

#[test]
fn faults_read_as_warnings() {
    assert_eq!(IgnoreFault::BadLine(3).message(), "invalid rule on line 3");
    assert_eq!(IgnoreFault::BuildFailed.message(), "the rules do not compile");
}

#[test]
fn a_file_without_rules_counts_as_absent() {
    let dir = path("/r");
    let (rules, fault) = load_promptignore_from_dir(&dir, Some("# only a comment\n\n   \n"));
    assert!(rules.is_none() && fault.is_none());
    let (global, fault) = load_global_promptignore(Some(path("/home/me")), Some("#\n"));
    assert!(global.is_none() && fault.is_none());
    let mut matcher = PromptignoreMatcher::new(None);
    assert!(matcher.cache_dir(&dir, Some("# nothing\n")).is_none());
    assert!(matcher.is_cached(&dir) && matcher.matcher_for_dir(&dir).is_none());
}

#[test]
fn paths_that_were_not_canonicalized_are_resolved_as_they_are() {
    let files = resolve("/r", &["/r/a/../b/x.log"], &[("/r", "*.log\n")], None);
    assert!(excluded(&files, "/r/a/../b/x.log"));
    let relative = resolve("src", &["src/gen/out.txt"], &[("src", "gen/\n")], None);
    assert!(excluded(&relative, "src/gen/out.txt"));
}
