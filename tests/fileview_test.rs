use codicat::error::CodicatError;
use codicat::fileview::{file_view_with_lines, is_binary_file, print_file_footer, FileSource};

fn view(path: &str, content: &[u8], max_lines: usize) -> Result<String, CodicatError> {
    let mut out = String::new();
    let source = FileSource::Bytes { content: content.to_vec() };
    file_view_with_lines(path, &source, &mut out, max_lines).map(|_| out)
}

fn rule() -> String {
    "-".repeat(80)
}

#[test]
fn test_render_file_with_line_limit() {
    let content = "line 1\nline 2\nline 3\nline 4\nline 5\n";
    let output = view("sample-head.txt", content.as_bytes(), 3).unwrap();
    assert!(output.contains("1 | line 1"));
    assert!(output.contains("2 | line 2"));
    assert!(output.contains("3 | line 3"));
    assert!(!output.contains("4 | line 4"));
    assert!(!output.contains("5 | line 5"));
}

#[test]
fn test_render_full_file() {
    let content = "line A\nline B\nline C\n";
    let output = view("sample-full.txt", content.as_bytes(), 0).unwrap();
    assert!(output.contains("1 | line A"));
    assert!(output.contains("2 | line B"));
    assert!(output.contains("3 | line C"));
}

#[test]
fn test_directory_rejection() {
    let mut out = String::new();
    let result = file_view_with_lines("/tmp/dir", &FileSource::Directory, &mut out, 0);
    assert!(result.is_err());
    assert!(result.unwrap_err().message().contains("cannot render directory as file"));
    assert!(out.is_empty());
}

#[test]
fn test_binary_file_detection() {
    let output = view("binary.bin", b"\x00This is binary data", 0).unwrap();
    assert!(output.contains("[binary file omitted]"));
    assert!(!output.contains("This is binary data"));
}

#[test]
fn test_file_header_format() {
    let output = view("test-header.txt", b"test content", 0).unwrap();
    assert!(output.contains(&format!("/{}", "test-header.txt")));
    assert!(output.contains(&"-".repeat(80)));
}

#[test]
fn test_file_footer_format() {
    let output = view("test-footer.txt", b"test content", 0).unwrap();
    assert!(output.contains(&format!("\n\n{}", "-".repeat(80))));
}

#[test]
fn exact_text_block() {
    let output = view("dir/f.txt", b"one\ntwo\n", 0).unwrap();
    let expected = format!("\n\n/dir/f.txt\n{}\n   1 | one\n   2 | two\n\n\n{}\n", rule(), rule());
    assert_eq!(output, expected);
}

#[test]
fn exact_binary_block() {
    let output = view("b.bin", b"ab\x00cd\nef", 2).unwrap();
    let expected = format!("\n\n/b.bin\n{}\n[binary file omitted]\n\n\n{}\n", rule(), rule());
    assert_eq!(output, expected);
}

#[test]
fn binary_probe_stops_at_8000_bytes() {
    let mut late = vec![b'a'; 8000];
    late.push(0);
    assert!(!is_binary_file(&late));
    let mut edge = vec![b'a'; 7999];
    edge.push(0);
    assert!(is_binary_file(&edge));
    assert!(!is_binary_file(&Vec::new()));
}

#[test]
fn zero_byte_after_probe_is_text() {
    let mut content = b"x\n".repeat(4000);
    content.push(0);
    let output = view("t.txt", &content, 1).unwrap();
    assert!(output.contains("   1 | x\n"));
    assert!(!output.contains("[binary file omitted]"));
}

#[test]
fn max_lines_bounds_the_count() {
    let content = "l1\nl2\nl3\n";
    for (max, shown) in [(1usize, 1usize), (2, 2), (3, 3), (4, 3), (0, 3)] {
        let output = view("f", content.as_bytes(), max).unwrap();
        let numbered = output.lines().filter(|l| l.contains(" | ")).count();
        assert_eq!(numbered, shown);
        assert!(!output.contains(&format!("{} | ", shown + 1)));
    }
}

#[test]
fn crlf_and_last_line_without_newline() {
    let output = view("f", b"a\r\nb\rc\nlast", 0).unwrap();
    assert!(output.contains("   1 | a\r\n"));
    assert!(output.contains("   2 | b\rc\n"));
    assert!(output.contains("   3 | last\n"));
    assert!(!output.contains("   4 | "));
}

#[test]
fn empty_file_has_no_lines() {
    let output = view("e", b"", 0).unwrap();
    assert_eq!(output, format!("\n\n/e\n{}\n\n\n{}\n", rule(), rule()));
}

#[test]
fn blank_lines_are_numbered() {
    let output = view("f", b"\n\nx\n", 0).unwrap();
    assert!(output.contains("   1 | \n   2 | \n   3 | x\n"));
}

#[test]
fn wide_line_numbers_are_not_cut() {
    let content = "x\n".repeat(10001);
    let output = view("f", content.as_bytes(), 0).unwrap();
    assert!(output.contains("\n 999 | x\n"));
    assert!(output.contains("\n9999 | x\n"));
    assert!(output.contains("\n10000 | x\n"));
    assert!(output.contains("\n10001 | x\n"));
}

#[test]
fn invalid_utf8_is_an_encoding_error() {
    let result = view("bad.txt", b"ok\n\xff\xfe\n", 0);
    match result {
        Err(CodicatError::EncodingError { path }) => assert_eq!(path, "bad.txt"),
        _ => panic!("expected EncodingError"),
    }
}

#[test]
fn invalid_utf8_past_the_limit_is_not_read() {
    let output = view("bad.txt", b"ok\n\xff\xfe\n", 1).unwrap();
    assert!(output.contains("   1 | ok\n"));
}

#[test]
fn utf8_content_is_decoded() {
    let content = "日本語コンテンツ\n２行目の内容";
    let output = view("日本語ファイル.txt", content.as_bytes(), 0).unwrap();
    assert!(output.contains("   1 | 日本語コンテンツ\n"));
    assert!(output.contains("   2 | ２行目の内容\n"));
    assert!(output.contains("/日本語ファイル.txt\n"));
}

#[test]
fn unreadable_file_is_an_io_error() {
    let mut out = String::new();
    let source = FileSource::Unreadable { reason: "permission denied".to_string() };
    let result = file_view_with_lines("x.txt", &source, &mut out, 0);
    match result {
        Err(CodicatError::IOError { path, reason }) => {
            assert_eq!(path, "x.txt");
            assert_eq!(reason, "permission denied");
        }
        _ => panic!("expected IOError"),
    }
}

#[test]
fn backslashes_in_header_become_slashes() {
    let output = view("dir\\sub\\f.txt", b"x", 0).unwrap();
    assert!(output.starts_with("\n\n/dir/sub/f.txt\n"));
}

#[test]
fn footer_is_two_blank_lines_and_a_rule() {
    let mut out = String::from("x");
    print_file_footer(&mut out);
    assert_eq!(out, format!("x\n\n{}\n", rule()));
}
