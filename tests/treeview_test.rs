use codicat::cli::{App, ListingError};
use codicat::error::CodicatError;
use codicat::treeview::{build_tree_from_git, tree_view_from_git, TreeNode};

fn repo_files(root: &str, rel: &[&str]) -> Vec<String> {
    rel.iter().map(|r| format!("{}/{}", root, r)).collect()
}

fn setup_listing() -> Vec<String> {
    repo_files("/tmp/work/repo", &["a.txt", "b.txt", "sub/c.txt", "sub/sub2/d.txt"])
}

fn render(root: &str, files: &Vec<String>) -> Result<String, CodicatError> {
    let mut out = String::new();
    tree_view_from_git(root, files, &mut out).map(|_| out)
}

#[test]
fn test_tree_view_from_git() {
    let files = setup_listing();
    let output = render("/tmp/work/repo", &files).unwrap();
    assert!(output.contains("repo"));
    assert!(output.contains("a.txt"));
    assert!(output.contains("b.txt"));
    assert!(output.contains("sub"));
    assert!(output.contains("├──") || output.contains("└──"));
}

#[test]
fn tree_view_exact_text() {
    let files = setup_listing();
    let output = render("/tmp/work/repo", &files).unwrap();
    let expected = "repo\n\
                    ├── a.txt\n\
                    ├── b.txt\n\
                    └── sub\n\
                    \x20\x20├── c.txt\n\
                    \x20\x20└── sub2\n\
                    \x20\x20\x20\x20└── d.txt\n";
    assert_eq!(output, expected);
}

#[test]
fn tree_view_continuation_bar() {
    let files = repo_files("/r", &["x/one.txt", "x/two.txt", "z.txt"]);
    let output = render("/r", &files).unwrap();
    assert_eq!(output, "r\n├── x\n│ ├── one.txt\n│ └── two.txt\n└── z.txt\n");
}

#[test]
fn treeview_test_test_non_git_directory() {
    let app = App::new();
    let result = app.list_git_files("/tmp/plain", Err(ListingError::NotARepository));
    assert!(result.is_err());
    assert!(matches!(result, Err(CodicatError::NotUnderVersionControl { .. })));
}

#[test]
fn treeview_test_test_empty_git_repo() {
    let files: Vec<String> = Vec::new();
    let result = render("/tmp/work/empty", &files);
    assert!(result.is_err());
    assert!(result.unwrap_err().message().contains("No Git-tracked files found"));
}

#[test]
fn test_subdirectory_tree() {
    let files = setup_listing();
    let output = render("/tmp/work/repo/sub", &files).unwrap();
    assert!(output.contains("sub"));
    assert!(output.contains("c.txt"));
    assert!(output.contains("sub2"));
    assert!(!output.contains("a.txt"));
    assert!(!output.contains("b.txt"));
    assert_eq!(output, "sub\n├── c.txt\n└── sub2\n  └── d.txt\n");
}

#[test]
fn no_relevant_paths_fails() {
    let files = repo_files("/elsewhere", &["a.txt"]);
    let result = build_tree_from_git("/tmp/work/repo", &files);
    match result {
        Err(CodicatError::NoTrackedFilesUnderPath { path }) => assert_eq!(path, "/tmp/work/repo"),
        _ => panic!("expected NoTrackedFilesUnderPath"),
    }
}

#[test]
fn sibling_prefix_is_not_a_parent() {
    let files = repo_files("/r", &["subway/a.txt", "sub/b.txt"]);
    let output = render("/r/sub", &files).unwrap();
    assert_eq!(output, "sub\n└── b.txt\n");
}

#[test]
fn order_of_listing_does_not_matter() {
    let a = repo_files("/r", &["b.txt", "sub/c.txt", "a.txt", "sub/a.txt", "b.txt"]);
    let b = repo_files("/r", &["sub/a.txt", "a.txt", "b.txt", "sub/c.txt"]);
    let ra = render("/r", &a).unwrap();
    let rb = render("/r", &b).unwrap();
    assert_eq!(ra, rb);
    assert_eq!(ra, "r\n├── a.txt\n├── b.txt\n└── sub\n  ├── a.txt\n  └── c.txt\n");
}

#[test]
fn leaf_depth_follows_component_count() {
    let files = repo_files("/r", &["a/b/c/d.txt"]);
    let output = render("/r", &files).unwrap();
    let line = output.lines().find(|l| l.ends_with("d.txt")).unwrap();
    let prefix: String = line.chars().take_while(|c| *c == ' ' || *c == '│').collect();
    assert_eq!(prefix.chars().count(), 2 * 3);
    assert_eq!(output, "r\n└── a\n  └── b\n    └── c\n      └── d.txt\n");
}

#[test]
fn children_sorted_by_name() {
    let files = repo_files("/r", &["b", "B", "a", "ä", "_x"]);
    let tree = build_tree_from_git("/r", &files).unwrap();
    let names: Vec<&str> = tree.children().iter().map(|c| c.name().as_str()).collect();
    assert_eq!(names, vec!["B", "_x", "a", "b", "ä"]);
    assert!(tree.children().iter().all(|c: &TreeNode| c.is_file()));
    assert!(!tree.is_file());
}

#[test]
fn redundant_separators_are_ignored() {
    let files = vec!["/r//x///y.txt".to_string()];
    let output = render("/r/", &files).unwrap();
    assert_eq!(output, "r\n└── x\n  └── y.txt\n");
}

#[test]
fn root_without_name_is_dot() {
    let files = vec!["/a.txt".to_string()];
    let output = render("/", &files).unwrap();
    assert_eq!(output, ".\n└── a.txt\n");
}

#[test]
fn file_that_is_also_a_directory_renders_as_leaf() {
    let files = repo_files("/r", &["a.txt/nested", "a.txt"]);
    let output = render("/r", &files).unwrap();
    assert_eq!(output, "r\n└── a.txt\n");
    let tree = build_tree_from_git("/r", &files).unwrap();
    assert!(tree.children()[0].is_file());
    assert_eq!(tree.children()[0].children().len(), 1);
}

#[test]
fn query_root_is_a_listed_file() {
    let files = repo_files("/r", &["a.txt", "b.txt"]);
    let output = render("/r/a.txt", &files).unwrap();
    assert_eq!(output, "a.txt\n");
}

#[test]
fn japanese_names_in_tree() {
    let files = repo_files("/r", &["日本語ファイル.txt", "日本語フォルダ/ネストされたファイル.txt"]);
    let output = render("/r", &files).unwrap();
    assert_eq!(
        output,
        "r\n├── 日本語ファイル.txt\n└── 日本語フォルダ\n  └── ネストされたファイル.txt\n"
    );
}

#[test]
fn tree_node_new_is_empty() {
    let node = TreeNode::new("x", true);
    assert_eq!(node.name(), "x");
    assert!(node.is_file());
    assert!(node.children().is_empty());
}
