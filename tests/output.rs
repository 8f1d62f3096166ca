use prompt::config::{config_candidates, find_config_path};
use prompt::files::{annotate_line_numbers, excluded_paths, strip_dot_prefix, FileInfo, FileMeta, ReadStatus};
use prompt::path::PathName;
use prompt::run::{
    total_token_count, write_filetree, write_files_content, write_top, Format, TokenCountOptions,
};
use prompt::text::{decimal_text, right_aligned_text};
use prompt::tokenizer::tokenize;
use prompt::tree::FiletreeNode;

fn path(text: &str) -> PathName {
    let mut parts = Vec::new();
    if text.starts_with('/') {
        parts.push("/".to_string());
    } else if text == "." || text.starts_with("./") {
        parts.push(".".to_string());
    }
    for part in text.split('/') {
        if !part.is_empty() && part != "." {
            parts.push(part.to_string());
        }
    }
    PathName::new(parts)
}

fn meta(p: &str, read_status: ReadStatus) -> FileMeta {
    FileMeta { path: path(p), read_status }
}

#[test]
fn test_tokenize_empty() {
    let text = "";
    let result = tokenize(text).expect("tokens");
    assert!(result.is_empty());
}

#[test]
fn tokenize_gives_tokens_for_text() {
    let tokens = tokenize("hello world").expect("tokens");
    assert!(!tokens.is_empty());
    assert!(tokens.len() <= 3);
}

#[test]
fn write_top_omits_excluded_files() {
    let included = FileInfo::from_text(path("/tmp/prompt-run-test/included.txt"), "hello", true);
    let excluded = FileInfo::excluded(path("/tmp/prompt-run-test/target/excluded.bin"));
    let metas = vec![included.meta, excluded.meta];
    let output = write_top(&metas, 5);
    assert!(output.contains("included.txt"));
    assert!(!output.contains("excluded.bin"));
    assert!(output.contains("Top 1 files ="));
    assert!(output.contains("All 1 files ="));
    assert!(output.contains("1 files skipped"));
}

#[test]
fn write_top_lists_largest_first_and_sums() {
    let metas = vec![
        meta("a.rs", ReadStatus::TokenCounted(5)),
        meta("b.rs", ReadStatus::TokenCounted(20)),
        meta("c.rs", ReadStatus::TokenCounted(7)),
        meta("d.bin", ReadStatus::ExcludedBinaryDetected),
    ];
    let output = write_top(&metas, 2);
    assert_eq!(
        output,
        "b.rs: 20 tokens\nc.rs: 7 tokens\n\nTop 2 files = 27 tokens\nAll 3 files = 32 tokens\n1 files skipped (excluded or binary detected)\n"
    );
}

#[test]
fn total_counts_only_counted_files() {
    let metas = vec![
        meta("a", ReadStatus::TokenCounted(3)),
        meta("b", ReadStatus::ExcludedExplicitly),
        meta("c", ReadStatus::TokenCounted(4)),
        meta("d", ReadStatus::Read),
    ];
    assert_eq!(total_token_count(&metas), 7);
    let huge = vec![meta("a", ReadStatus::TokenCounted(usize::MAX)), meta("b", ReadStatus::TokenCounted(1))];
    assert_eq!(total_token_count(&huge), usize::MAX);
}

#[test]
fn read_status_queries() {
    assert!(meta("a", ReadStatus::ExcludedExplicitly).is_excluded());
    assert!(meta("a", ReadStatus::ExcludedBinaryDetected).is_excluded());
    assert!(!meta("a", ReadStatus::Read).is_excluded());
    assert_eq!(meta("a", ReadStatus::TokenCounted(9)).token_count_or_zero(), 9);
    assert_eq!(meta("a", ReadStatus::Read).token_count_or_zero(), 0);
}

#[test]
fn lines_are_numbered_to_the_widest_number() {
    assert_eq!(annotate_line_numbers(""), "");
    assert_eq!(annotate_line_numbers("a\r\nb\n"), "1 a\n2 b\n");
    let text = "x\n".repeat(10);
    let numbered = annotate_line_numbers(&text);
    assert!(numbered.starts_with(" 1 x\n 2 x\n"));
    assert!(numbered.ends_with("10 x\n"));
}

#[test]
fn decimal_and_alignment() {
    assert_eq!(decimal_text(0), "0");
    assert_eq!(decimal_text(1234), "1234");
    assert_eq!(right_aligned_text(7, 3), "  7");
    assert_eq!(right_aligned_text(1234, 2), "1234");
}

#[test]
fn file_info_constructors() {
    let info = FileInfo::from_text(path("notes.txt"), "one\ntwo", false);
    assert_eq!(info.utf8.as_deref(), Some("1 one\n2 two\n"));
    assert_eq!(info.meta.read_status, ReadStatus::Read);
    let counted = FileInfo::from_text(path("notes.txt"), "one", true);
    match counted.meta.read_status {
        ReadStatus::TokenCounted(n) => assert!(n > 0),
        other => panic!("expected a count, got {:?}", other),
    }
    assert!(FileInfo::binary(path("x.bin")).utf8.is_none());
    assert_eq!(FileInfo::excluded(path("x")).meta.read_status, ReadStatus::ExcludedExplicitly);
}

#[test]
fn excluded_paths_in_order() {
    let metas = vec![
        meta("a", ReadStatus::ExcludedExplicitly),
        meta("b", ReadStatus::Read),
        meta("c", ReadStatus::ExcludedBinaryDetected),
    ];
    let texts: Vec<String> = excluded_paths(&metas).iter().map(|p| p.to_text()).collect();
    assert_eq!(texts, vec!["a", "c"]);
}

#[test]
fn dot_prefix_is_stripped() {
    assert_eq!(strip_dot_prefix(&path("./src/main.rs")).to_text(), "src/main.rs");
    assert_eq!(strip_dot_prefix(&path("src/main.rs")).to_text(), "src/main.rs");
    assert_eq!(strip_dot_prefix(&path(".")).component_count(), 0);
}

#[test]
fn files_content_is_sorted_and_skips_excluded() {
    let files = vec![
        FileInfo::from_text(path("b.txt"), "bee", false),
        FileInfo::excluded(path("a.bin")),
        FileInfo::from_text(path("a.txt"), "ay", false),
    ];
    assert_eq!(write_files_content(&files), "a.txt:\n\n1 ay\n\n---\nb.txt:\n\n1 bee\n\n---\n");
    assert_eq!(write_filetree("."), "Files:\n\n.\n");
}

#[test]
fn tree_holds_inserted_paths() {
    let mut root = FiletreeNode::new(".", None);
    let comps = vec!["src".to_string(), "main.rs".to_string()];
    root.insert_path(&comps, Some(meta("src/main.rs", ReadStatus::TokenCounted(12))));
    root.insert_path(&vec!["README.md".to_string()], Some(meta("README.md", ReadStatus::ExcludedExplicitly)));
    let children = root.children();
    let names: Vec<&str> = children.iter().map(|c| c.name()).collect();
    assert_eq!(names, vec!["README.md", "src"]);
    assert_eq!(children[0].label(), "README.md (excluded)");
    assert_eq!(children[1].label(), "src");
    let below = children[1].children();
    assert_eq!(below.len(), 1);
    assert_eq!(below[0].label(), "main.rs (12 tokens)");
    assert!(below[0].children().is_empty());
}

#[test]
fn tree_from_metas_strips_dot_and_keeps_first() {
    let metas = vec![
        meta("./a/b.txt", ReadStatus::Read),
        meta("a/b.txt", ReadStatus::ExcludedBinaryDetected),
    ];
    let root = FiletreeNode::from_metas(&metas);
    assert_eq!(root.name(), ".");
    let a = &root.children()[0];
    assert_eq!(a.name(), "a");
    assert_eq!(a.children()[0].label(), "b.txt");
}

#[test]
fn config_is_looked_for_upwards() {
    let candidates = config_candidates(&path("/home/me/project"));
    let texts: Vec<String> = candidates.iter().map(|c| c.to_text()).collect();
    assert_eq!(
        texts,
        vec![
            "/home/me/project/.prompt/config.toml",
            "/home/me/.prompt/config.toml",
            "/home/.prompt/config.toml",
            "/.prompt/config.toml",
        ]
    );
    let found = find_config_path(&candidates, &vec![false, true, true, false]).expect("found");
    assert_eq!(found.to_text(), "/home/me/.prompt/config.toml");
    assert!(find_config_path(&candidates, &vec![false; 4]).is_none());
}

#[test]
fn option_names_round_trip() {
    for format in [Format::Plaintext, Format::Json, Format::Yaml] {
        assert_eq!(Format::parse(format.name()), Some(format));
    }
    for option in [TokenCountOptions::Off, TokenCountOptions::Final, TokenCountOptions::All] {
        assert_eq!(TokenCountOptions::parse(option.name()), Some(option));
    }
    assert_eq!(Format::parse("xml"), None);
    assert_eq!(Format::default(), Format::Plaintext);
    assert_eq!(TokenCountOptions::default(), TokenCountOptions::Final);
    assert!(TokenCountOptions::All.counts_files());
    assert!(!TokenCountOptions::Off.counts_prompt());
}

#[test]
fn paths_order_by_component() {
    assert_eq!(path("a/b").compare(&path("a-b")), std::cmp::Ordering::Less);
    assert_eq!(path("b").compare(&path("a")), std::cmp::Ordering::Greater);
    assert_eq!(path("/x").compare(&path("a")), std::cmp::Ordering::Less);
    assert_eq!(path("a").compare(&path("a")), std::cmp::Ordering::Equal);
}
