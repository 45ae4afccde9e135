use codicat::cli::{display_path, select_paths, App, FileInput, ListingError, RunOptions};
use codicat::error::CodicatError;
use codicat::fileview::FileSource;

const ROOT: &str = "/tmp/work/repo";
const FIVE_LINES: &str = "line 1\nline 2\nline 3\nline 4\nline 5\n";

fn listed() -> Vec<String> {
    ["a.txt", "b.txt", "sub/c.txt"].iter().map(|r| format!("{}/{}", ROOT, r)).collect()
}

fn inputs(paths: &[String], content: &str) -> Vec<FileInput> {
    paths
        .iter()
        .map(|p| FileInput {
            path: display_path(p, Some(ROOT), None),
            source: FileSource::Bytes { content: content.as_bytes().to_vec() },
        })
        .collect()
}

fn opts(max_lines: usize, no_tree: bool, no_content: bool) -> RunOptions {
    RunOptions { max_lines, no_tree, no_content }
}

fn run(filter: Option<&str>, options: RunOptions) -> Result<String, CodicatError> {
    let app = App::new();
    let files = app.list_git_files(ROOT, Ok(listed()))?;
    let selected = app.filter_files(files, filter.map(|f| f.to_string()))?;
    let blocks = inputs(&selected, FIVE_LINES);
    app.execute(ROOT, &listed(), &blocks, &options)
}

#[test]
fn test_default_output() {
    let stdout = run(None, opts(500, false, false)).unwrap();
    assert!(stdout.contains("a.txt"));
    assert!(stdout.contains("b.txt"));
    assert!(stdout.contains("sub"));
    assert!(stdout.contains("c.txt"));
    assert!(stdout.contains("line 1"));
    assert!(stdout.starts_with("repo\n├── a.txt\n├── b.txt\n└── sub\n  └── c.txt\n\n\n"));
    for path in ["/a.txt\n", "/b.txt\n", "/sub/c.txt\n"] {
        assert!(stdout.contains(path));
    }
    assert_eq!(stdout.matches("   5 | line 5\n").count(), 3);
}

#[test]
fn test_max_lines_option() {
    let stdout = run(None, opts(2, false, false)).unwrap();
    assert!(stdout.contains("1 | line 1"));
    assert!(stdout.contains("2 | line 2"));
    assert!(!stdout.contains("3 | line 3"));
}

#[test]
fn test_no_tree_option() {
    let stdout = run(None, opts(500, true, false)).unwrap();
    assert!(!stdout.contains("├──"));
    assert!(!stdout.contains("└──"));
    assert!(stdout.contains("line 1"));
}

#[test]
fn test_no_content_option() {
    let stdout = run(None, opts(500, false, true)).unwrap();
    assert!(stdout.contains("├──") || stdout.contains("└──"));
    assert!(!stdout.contains("line 1"));
    assert_eq!(stdout, "repo\n├── a.txt\n├── b.txt\n└── sub\n  └── c.txt\n\n\n");
}

#[test]
fn test_filter_option() {
    let stdout = run(Some("a\\.txt"), opts(500, false, false)).unwrap();
    assert!(stdout.contains("a.txt"));
    assert!(!stdout.contains("/b.txt\n"));
    assert!(!stdout.contains("/sub/c.txt\n"));
    assert!(stdout.contains("\n\n/a.txt\n"));
}

#[test]
fn test_binary_file_handling() {
    let app = App::new();
    let mut all = listed();
    all.push(format!("{}/binary.bin", ROOT));
    let mut blocks = inputs(&listed(), FIVE_LINES);
    blocks.push(FileInput {
        path: "binary.bin".to_string(),
        source: FileSource::Bytes { content: b"\x00This is binary data".to_vec() },
    });
    let stdout = app.execute(ROOT, &all, &blocks, &opts(500, false, false)).unwrap();
    assert!(stdout.contains("binary.bin"));
    assert!(stdout.contains("[binary file omitted]"));
    assert!(!stdout.contains("This is binary data"));
}

#[test]
fn cli_test_test_non_git_directory() {
    let app = App::new();
    let err = app.list_git_files("/tmp/plain", Err(ListingError::NotARepository)).unwrap_err();
    let message = err.message();
    assert!(
        message.contains("not inside a Git repository")
            || message.contains("Not a Git repository")
            || message.contains("Failed to list Git-tracked files")
    );
}

#[test]
fn test_file_specified() {
    let app = App::new();
    let file = format!("{}/a.txt", ROOT);
    let blocks = inputs(&[file.clone()], FIVE_LINES);
    let stdout = app.execute(&file, &listed(), &blocks, &opts(500, false, false)).unwrap();
    assert!(stdout.contains("a.txt"));
    assert!(!stdout.contains("/b.txt\n"));
}

#[test]
fn test_japanese_filename_handling() {
    let app = App::new();
    let mut all = listed();
    all.push(format!("{}/日本語ファイル.txt", ROOT));
    all.push(format!("{}/日本語フォルダ/ネストされたファイル.txt", ROOT));
    let selected = app.filter_files(all.clone(), Some("日本語".to_string())).unwrap();
    assert_eq!(selected.len(), 2);
    let blocks = vec![
        FileInput {
            path: display_path(&selected[0], Some(ROOT), None),
            source: FileSource::Bytes { content: "日本語コンテンツ\n２行目の内容".as_bytes().to_vec() },
        },
        FileInput {
            path: display_path(&selected[1], Some(ROOT), None),
            source: FileSource::Bytes { content: "ネストされた日本語ファイルの内容".as_bytes().to_vec() },
        },
    ];
    let stdout = app.execute(ROOT, &all, &blocks, &opts(500, false, false)).unwrap();
    assert!(stdout.contains("日本語ファイル.txt"));
    assert!(stdout.contains("日本語コンテンツ"));
    assert!(stdout.contains("日本語フォルダ"));
    assert!(stdout.contains("ネストされたファイル.txt"));
    assert!(stdout.contains("/日本語フォルダ/ネストされたファイル.txt\n"));
}

#[test]
fn empty_listing_fails_the_run() {
    let app = App::new();
    let err = app.list_git_files(ROOT, Ok(Vec::new())).unwrap_err();
    assert!(matches!(err, CodicatError::NoTrackedFiles { .. }));
    assert_eq!(err.message(), format!("No Git-tracked files found in: {}", ROOT));
    let empty: Vec<String> = Vec::new();
    let result = app.execute(ROOT, &empty, &Vec::new(), &opts(500, false, false));
    assert!(matches!(result, Err(CodicatError::NoTrackedFilesUnderPath { .. })));
}

#[test]
fn listing_failure_is_reported() {
    let app = App::new();
    let err = app
        .list_git_files(ROOT, Err(ListingError::Failed { reason: "boom".to_string() }))
        .unwrap_err();
    assert_eq!(err.message(), "Failed to list files: boom");
}

#[test]
fn listing_passes_files_through() {
    let app = App::new();
    assert_eq!(app.list_git_files(ROOT, Ok(listed())).unwrap(), listed());
}

#[test]
fn invalid_filter_pattern_is_an_error() {
    let app = App::new();
    let result = app.filter_files(listed(), Some("foo(bar".to_string()));
    match result {
        Err(CodicatError::InvalidFilterPattern { pattern }) => assert_eq!(pattern, "foo(bar"),
        _ => panic!("expected InvalidFilterPattern"),
    }
}

#[test]
fn filter_keeps_order_and_no_filter_keeps_all() {
    let app = App::new();
    let kept = app.filter_files(listed(), Some("t$".to_string())).unwrap();
    assert_eq!(kept, listed());
    let kept = app.filter_files(listed(), Some("sub|b\\.".to_string())).unwrap();
    assert_eq!(kept, vec![format!("{}/b.txt", ROOT), format!("{}/sub/c.txt", ROOT)]);
    assert_eq!(app.filter_files(listed(), None).unwrap(), listed());
}

#[test]
fn select_paths_keeps_flagged() {
    let files = listed();
    let kept = select_paths(&files, &vec![true, false, true]);
    assert_eq!(kept, vec![files[0].clone(), files[2].clone()]);
}

#[test]
fn run_fails_on_first_bad_file_and_discards_output() {
    let app = App::new();
    let blocks = vec![
        FileInput {
            path: "ok.txt".to_string(),
            source: FileSource::Bytes { content: b"fine\n".to_vec() },
        },
        FileInput { path: "dir".to_string(), source: FileSource::Directory },
        FileInput { path: "bad.txt".to_string(), source: FileSource::Bytes { content: vec![0xff, b'\n'] } },
    ];
    let result = app.execute(ROOT, &listed(), &blocks, &opts(500, true, false));
    match result {
        Err(CodicatError::NotAFile { path }) => assert_eq!(path, "dir"),
        _ => panic!("expected NotAFile"),
    }
}

#[test]
fn run_with_tree_and_content_is_exact() {
    let app = App::new();
    let blocks = vec![FileInput {
        path: "a.txt".to_string(),
        source: FileSource::Bytes { content: b"hi\n".to_vec() },
    }];
    let out = app.execute(ROOT, &listed(), &blocks, &opts(0, false, false)).unwrap();
    let rule = "-".repeat(80);
    let expected = format!(
        "repo\n├── a.txt\n├── b.txt\n└── sub\n  └── c.txt\n\n\n\n\n/a.txt\n{}\n   1 | hi\n\n\n{}\n",
        rule, rule
    );
    assert_eq!(out, expected);
}

#[test]
fn display_path_prefers_project_root_then_cwd() {
    assert_eq!(display_path("/r/x/y.txt", Some("/r"), Some("/r/x")), "x/y.txt");
    assert_eq!(display_path("/r/x/y.txt", Some("/q"), Some("/r/x")), "y.txt");
    assert_eq!(display_path("/r/x/y.txt", None, None), "/r/x/y.txt");
    assert_eq!(display_path("/r/x/y.txt", Some("/r/xy"), None), "/r/x/y.txt");
}

#[test]
fn error_messages_name_the_subject() {
    let e = CodicatError::InvalidFilterPattern { pattern: "(".to_string() };
    assert_eq!(e.message(), "Invalid regex pattern: (");
    let e = CodicatError::SecondarySinkError { reason: "no display".to_string() };
    assert_eq!(e.message(), "Failed to copy to clipboard: no display");
    let e = CodicatError::EncodingError { path: "f".to_string() };
    assert_eq!(e.message(), "File is not valid UTF-8: f");
    let e = CodicatError::ExternalToolError { reason: "fzf returned with non-zero status".to_string() };
    assert_eq!(e.message(), "External tool failed: fzf returned with non-zero status");
    let e = CodicatError::NotUnderVersionControl { path: "/x".to_string() };
    assert_eq!(e.message(), "This directory is not inside a Git repository: /x");
    let e = CodicatError::IOError { path: "/x".to_string(), reason: "gone".to_string() };
    assert_eq!(e.message(), "Failed to read file: /x: gone");
    let app: App = Default::default();
    assert!(app.needs_listing(&opts(0, false, false), false));
}

#[test]
fn candidate_files_for_a_file_query() {
    let app = App::new();
    let file = format!("{}/a.txt", ROOT);
    let files = app.candidate_files(&file, true, listed(), Some("zzz".to_string())).unwrap();
    assert_eq!(files, vec![file]);
    let files = app.candidate_files(ROOT, false, listed(), Some("c\\.txt".to_string())).unwrap();
    assert_eq!(files, vec![format!("{}/sub/c.txt", ROOT)]);
}

#[test]
fn listing_needed_for_tree_or_directory_content() {
    let app = App::new();
    assert!(app.needs_listing(&opts(500, false, true), true));
    assert!(app.needs_listing(&opts(500, true, false), false));
    assert!(!app.needs_listing(&opts(500, true, false), true));
    assert!(!app.needs_listing(&opts(500, true, true), false));
}
