use tangl::{QualifiedPath, RelativePathCompleter};

fn setup_qualified_paths() -> Vec<QualifiedPath> {
    vec![
        QualifiedPath::from_raw("/foo"),
        QualifiedPath::from_raw("/foo/bar/baz1"),
        QualifiedPath::from_raw("/foo/bar/baz2"),
        QualifiedPath::from_raw("/foo/abc/def"),
        QualifiedPath::from_raw("/foo/abc"),
        QualifiedPath::from_raw("/bar"),
    ]
}

#[test]
fn test_relative_path_completion_from_virtual_root() {
    let paths = setup_qualified_paths();
    let completion = RelativePathCompleter::new(QualifiedPath::from_raw(""));

    let mut direct = completion.complete(QualifiedPath::from_raw(""), &paths);
    direct.sort();
    assert_eq!(direct, vec!["bar", "foo", "foo/"]);

    let mut prefixed1 = completion.complete(QualifiedPath::from_raw("/f"), &paths);
    prefixed1.sort();
    assert_eq!(prefixed1, vec!["/foo", "/foo/"]);

    let mut prefixed2 = completion.complete(QualifiedPath::from_raw("/"), &paths);
    prefixed2.sort();
    assert_eq!(prefixed2, vec!["/bar", "/foo", "/foo/"]);
}

#[test]
fn test_relative_path_completion_relative_identifier_current_path() {
    let paths = setup_qualified_paths();
    let completion = RelativePathCompleter::new(QualifiedPath::from_raw("/foo"));

    let mut direct = completion.complete(QualifiedPath::from_raw("."), &paths);
    direct.sort();
    assert_eq!(direct, vec!["./abc", "./abc/def", "./bar/baz1", "./bar/baz2"]);

    let mut direct_with_slash = completion.complete(QualifiedPath::from_raw("./"), &paths);
    direct_with_slash.sort();
    assert_eq!(direct_with_slash, vec!["./abc", "./abc/", "./bar/"]);

    let mut prefixed = completion.complete(QualifiedPath::from_raw("./a"), &paths);
    prefixed.sort();
    assert_eq!(prefixed, vec!["./abc", "./abc/"]);

    let mut consecutive = completion.complete(QualifiedPath::from_raw("./b"), &paths);
    consecutive.sort();
    assert_eq!(consecutive, vec!["./bar/baz1", "./bar/baz2"]);
}

#[test]
fn test_relative_path_completion_relative_identifier_previous_path() {
    let paths = setup_qualified_paths();
    let completion = RelativePathCompleter::new(QualifiedPath::from_raw("/foo"));

    let mut direct = completion.complete(QualifiedPath::from_raw("../"), &paths);
    direct.sort();
    assert_eq!(direct, vec!["../bar", "../foo", "../foo/"]);

    let mut consecutive = completion.complete(QualifiedPath::from_raw("../foo/"), &paths);
    consecutive.sort();
    assert_eq!(consecutive, vec!["../foo/abc", "../foo/abc/", "../foo/bar/"]);

    let mut previous_of_previous =
        completion.complete(QualifiedPath::from_raw("abc/../../"), &paths);
    previous_of_previous.sort();
    assert_eq!(
        previous_of_previous,
        vec!["abc/../../bar", "abc/../../foo", "abc/../../foo/"]
    );
}

#[test]
fn test_relative_path_completion_current_path() {
    let paths = setup_qualified_paths();
    let completion = RelativePathCompleter::new(QualifiedPath::from_raw("/foo"));

    let mut direct = completion.complete(QualifiedPath::from_raw(""), &paths);
    direct.sort();
    assert_eq!(direct, vec!["abc", "abc/", "bar/"]);

    let mut prefixed = completion.complete(QualifiedPath::from_raw("a"), &paths);
    prefixed.sort();
    assert_eq!(prefixed, vec!["abc", "abc/"]);

    let mut consecutive = completion.complete(QualifiedPath::from_raw("b"), &paths);
    consecutive.sort();
    assert_eq!(consecutive, vec!["bar/baz1", "bar/baz2"]);
}
