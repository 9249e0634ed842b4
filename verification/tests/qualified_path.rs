use tangl::QualifiedPath;

fn segs(p: &QualifiedPath) -> Vec<String> {
    p.iter_string()
}

fn strs(v: &[&str]) -> Vec<String> {
    v.iter().map(|s| s.to_string()).collect()
}

#[test]
fn test_qualified_path_from_qualified() {
    assert_eq!(segs(&QualifiedPath::from_raw("foo/bar")), strs(&["foo", "bar"]));
    assert_eq!(segs(&QualifiedPath::from_raw("/foo/bar")), strs(&["", "foo", "bar"]));
    assert_eq!(QualifiedPath::from_raw("/foo/bar").to_string(), "/foo/bar");
    assert_eq!(segs(&QualifiedPath::from_raw("foo/")), strs(&["foo", ""]));
    assert_eq!(segs(&QualifiedPath::from_raw("/")), strs(&["", ""]));
}

#[test]
fn test_qualified_path_from_git_branch() {
    assert_eq!(segs(&QualifiedPath::from_raw("_foo/bar")), strs(&["foo", "bar"]));
    assert_eq!(
        segs(&QualifiedPath::from_raw(&"_foo/bar".to_string())),
        strs(&["foo", "bar"])
    );
    assert_eq!(
        segs(&QualifiedPath::from_raw("_foo/_bar/baz")),
        strs(&["foo", "bar", "baz"])
    );
}

#[test]
fn test_qualified_path_to_git_branch() {
    assert_eq!(QualifiedPath::from_raw("foo/bar").to_git_branch(), "_foo/bar");
    assert_eq!(QualifiedPath::from_raw("/foo/bar").to_git_branch(), "_foo/bar");
}

#[test]
fn test_qualified_path_add_empty() {
    let l = QualifiedPath::new();
    let r = QualifiedPath::from_raw("foo/bar");
    assert_eq!(l.add(r), QualifiedPath::from_raw("foo/bar"));

    let l = QualifiedPath::new();
    let r = QualifiedPath::from_raw("/foo/bar");
    assert_eq!(l.add(r), QualifiedPath::from_raw("/foo/bar"));
}

#[test]
fn test_qualified_path_add_absolute() {
    let l = QualifiedPath::from_raw("foo");
    let r = QualifiedPath::from_raw("bar/baz");
    assert_eq!(l.add(r), QualifiedPath::from_raw("foo/bar/baz"));

    let l = QualifiedPath::from_raw("");
    let r = QualifiedPath::from_raw("bar/baz");
    assert_eq!(segs(&l.add(r)), strs(&["", "bar", "baz"]));

    let l = QualifiedPath::from_raw("foo/");
    let r = QualifiedPath::from_raw("bar/baz");
    assert_eq!(l.add(r), QualifiedPath::from_raw("foo/bar/baz"));
}

#[test]
fn test_qualified_path_add_relative() {
    let l = QualifiedPath::from_raw("foo");
    let r = QualifiedPath::from_raw("..");
    assert_eq!(l.add(r), QualifiedPath::new());

    let l = QualifiedPath::from_raw("foo");
    let r = QualifiedPath::from_raw("./bar");
    assert_eq!(l.add(r), QualifiedPath::from_raw("foo/bar"));

    let l = QualifiedPath::from_raw("foo");
    let r = QualifiedPath::from_raw("./");
    assert_eq!(l.add(r), QualifiedPath::from_raw("foo/"));

    let l = QualifiedPath::from_raw("foo");
    let r = QualifiedPath::from_raw("../bar");
    assert_eq!(l.add(r), QualifiedPath::from_raw("bar"));

    let l = QualifiedPath::from_raw("foo/bar");
    let r = QualifiedPath::from_raw("../baz");
    assert_eq!(l.add(r), QualifiedPath::from_raw("foo/baz"));

    let l = QualifiedPath::from_raw("foo/bar");
    let r = QualifiedPath::from_raw("../../baz");
    assert_eq!(l.add(r), QualifiedPath::from_raw("baz"));

    let l = QualifiedPath::from_raw("foo/bar");
    let r = QualifiedPath::from_raw("../../../../../../baz");
    assert_eq!(l.add(r), QualifiedPath::from_raw("baz"));

    let l = QualifiedPath::from_raw("foo/bar");
    let r = QualifiedPath::from_raw("baz/../baz/../baz/../baz");
    assert_eq!(l.add(r), QualifiedPath::from_raw("foo/bar/baz"));

    let l = QualifiedPath::from_raw("foo/bar");
    let r = QualifiedPath::from_raw("../baz/../baz/../baz");
    assert_eq!(l.add(r), QualifiedPath::from_raw("foo/baz"));
}

#[test]
fn test_qualified_path_add_whitespaces() {
    let l = QualifiedPath::from_raw("foo");
    let r = QualifiedPath::from_raw("");
    assert_eq!(l.add(r), QualifiedPath::from_raw("foo/"));

    let l = QualifiedPath::from_raw("foo");
    let r = QualifiedPath::from_raw("/bar/baz");
    assert_eq!(l.add(r), QualifiedPath::from_raw("/bar/baz"));
}

#[test]
fn test_qualified_path_trim() {
    let path = QualifiedPath::from_raw("foo/bar");
    assert_eq!(segs(&path.strip_n(0, path.len() - 1)), strs(&["foo"]));
}

#[test]
fn test_qualified_path_as_absolute() {
    let path = QualifiedPath::from_raw("foo/bar");
    let absolute = path.as_absolute();
    assert!(absolute.is_absolute());
    assert_eq!(absolute.to_string(), "/foo/bar");
}

#[test]
fn test_branch_name_round_trip() {
    // the branch-name mapping inverts exactly, for relative and for
    // absolute paths
    let p = QualifiedPath::from_raw("main/feature/root");
    let branch = p.to_git_branch();
    assert_eq!(branch, "_main/_feature/root");
    assert_eq!(QualifiedPath::from_raw(&branch), p);

    let abs = QualifiedPath::from_raw("/main/feature/root/foo");
    let branch = abs.to_git_branch();
    assert_eq!(branch, "_main/_feature/_root/foo");
    assert_eq!(QualifiedPath::from_branch(&branch), abs);
}

#[test]
fn test_push_cleans_markers_and_whitespace() {
    let mut p = QualifiedPath::new();
    p.push("  *_main/_feature/root \n");
    assert_eq!(segs(&p), strs(&["main", "feature", "root"]));
}

#[test]
fn test_path_queries() {
    let p = QualifiedPath::from_raw("/foo/bar/");
    assert!(p.is_absolute());
    assert!(p.is_dir());
    assert!(!p.is_empty());
    assert_eq!(p.len(), 4);
    assert_eq!(p.last().unwrap(), "");
    assert!(p.starts_with(&QualifiedPath::from_raw("/foo")));
    assert!(!QualifiedPath::from_raw("/fo").starts_with(&QualifiedPath::from_raw("/foo")));
    let dir = QualifiedPath::from_raw("a/b").as_dir();
    assert_eq!(dir.to_string(), "a/b/");
    assert_eq!(QualifiedPath::from_raw("a/b").strip_n_left(1).to_string(), "b");
    assert_eq!(QualifiedPath::from_raw("a/b").strip_n_right(1).to_string(), "a");
    assert_eq!(
        QualifiedPath::from_raw("a/c").replace(1, "b").to_string(),
        "a/b/c"
    );
    assert_eq!(QualifiedPath::from_raw("a/b").get(1).unwrap().to_string(), "b");
    assert_eq!(QualifiedPath::from_raw("a/b").first().unwrap().to_string(), "a");
}

#[test]
fn test_over_popping_clamps_at_root() {
    // resolution never errors on unbalanced parent references
    let l = QualifiedPath::from_raw("foo/bar");
    let r = QualifiedPath::from_raw("../../../baz");
    assert_eq!(l.add(r), QualifiedPath::from_raw("baz"));
    let l = QualifiedPath::from_raw("foo");
    let r = QualifiedPath::from_raw("../../..");
    assert_eq!(l.add(r), QualifiedPath::new());
}
