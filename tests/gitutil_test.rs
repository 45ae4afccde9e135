use codicat::gitutil::list_git_tracked_files;

const ROOT: &str = "/tmp/work/repo";

fn file_name(path: &str) -> String {
    path.rsplit('/').next().unwrap().to_string()
}

#[test]
fn test_list_git_tracked_files() {
    let files = list_git_tracked_files(ROOT, &b"a.txt\0b.txt\0sub/c.txt\0".to_vec());
    assert_eq!(files.len(), 3);
    let file_paths: Vec<String> = files.iter().map(|p| file_name(p)).collect();
    assert!(file_paths.contains(&"a.txt".to_string()));
    assert!(file_paths.contains(&"b.txt".to_string()));
    assert!(file_paths.contains(&"c.txt".to_string()));
}

#[test]
fn test_list_git_tracked_files_from_subdirectory() {
    let files = list_git_tracked_files(ROOT, &b"a.txt\0b.txt\0sub/c.txt\0".to_vec());
    assert_eq!(files.len(), 3);
    assert_eq!(files[2], "/tmp/work/repo/sub/c.txt");
}

#[test]
fn gitutil_test_test_empty_git_repo() {
    let files = list_git_tracked_files(ROOT, &Vec::new());
    assert!(files.is_empty());
}

#[test]
fn listed_names_are_joined_to_the_root() {
    let files = list_git_tracked_files(ROOT, &"x\0\0日本語.txt\0".as_bytes().to_vec());
    assert_eq!(files, vec!["/tmp/work/repo/x".to_string(), "/tmp/work/repo/日本語.txt".to_string()]);
}

#[test]
fn bytes_after_the_last_zero_are_dropped() {
    let files = list_git_tracked_files(ROOT, &b"a\0partial".to_vec());
    assert_eq!(files, vec!["/tmp/work/repo/a".to_string()]);
    assert!(list_git_tracked_files(ROOT, &b"a".to_vec()).is_empty());
}

#[test]
fn non_utf8_name_is_kept_with_replacements() {
    let files = list_git_tracked_files(ROOT, &b"ok\0a\xffb\0".to_vec());
    assert_eq!(files, vec!["/tmp/work/repo/ok".to_string(), "/tmp/work/repo/a\u{FFFD}b".to_string()]);
}
