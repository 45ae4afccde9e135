use codicat::pathset::{relative_components, sorted_insert};
use codicat::text::{path_components, path_less, str_lt};

fn segs(parts: &[&str]) -> Vec<String> {
    parts.iter().map(|s| s.to_string()).collect()
}

#[test]
fn components_drop_empty_segments() {
    assert_eq!(path_components("/a//b/c/"), segs(&["a", "b", "c"]));
    assert_eq!(path_components(""), Vec::<String>::new());
    assert_eq!(path_components("///"), Vec::<String>::new());
    assert_eq!(path_components("日本/語"), segs(&["日本", "語"]));
}

#[test]
fn string_order_is_by_code_point() {
    assert!(str_lt("a", "b"));
    assert!(str_lt("a", "ab"));
    assert!(!str_lt("ab", "a"));
    assert!(!str_lt("a", "a"));
    assert!(str_lt("Z", "a"));
    assert!(str_lt("z", "é"));
    assert!(str_lt("", "a"));
}

#[test]
fn path_order_compares_segments() {
    assert!(path_less(&segs(&["a", "z"]), &segs(&["b"])));
    assert!(path_less(&segs(&["a"]), &segs(&["a", "b"])));
    assert!(path_less(&segs(&["a-b"]), &segs(&["a", "b"])) == str_lt("a-b", "a"));
    assert!(!path_less(&segs(&["a", "b"]), &segs(&["a", "b"])));
}

#[test]
fn sorted_insert_orders_and_dedups() {
    let mut sorted: Vec<Vec<String>> = Vec::new();
    for p in [&["b"][..], &["a", "x"], &["b"], &["a"], &["c", "d"]] {
        sorted_insert(&mut sorted, segs(p));
    }
    let expected = vec![segs(&["a"]), segs(&["a", "x"]), segs(&["b"]), segs(&["c", "d"])];
    assert_eq!(sorted, expected);
}

#[test]
fn relative_components_strip_the_root() {
    let root = segs(&["r", "sub"]);
    assert_eq!(relative_components(&root, &segs(&["r", "sub", "x"])), Some(segs(&["x"])));
    assert_eq!(relative_components(&root, &segs(&["r", "sub"])), Some(Vec::new()));
    assert_eq!(relative_components(&root, &segs(&["r", "subway", "x"])), None);
    assert_eq!(relative_components(&root, &segs(&["r"])), None);
}
