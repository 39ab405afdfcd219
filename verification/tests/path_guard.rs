use md_peruse::path_guard::{
    is_valid_name, is_within, relativize_literal, validate_relative_path, PathPart, WorkspaceRoot,
};

/// The components of `\\?\C:` followed by the given names.
fn verbatim(names: &[&str]) -> Vec<PathPart> {
    let mut parts = vec![PathPart::Prefix(r"\\?\C:".to_owned()), PathPart::RootDir];
    parts.extend(names.iter().map(|name| PathPart::Normal((*name).to_owned())));
    parts
}

/// The components of `C:` followed by the given names.
fn drive(names: &[&str]) -> Vec<PathPart> {
    let mut parts = vec![PathPart::Prefix("C:".to_owned()), PathPart::RootDir];
    parts.extend(names.iter().map(|name| PathPart::Normal((*name).to_owned())));
    parts
}

#[test]
fn relative_paths_are_validated() {
    let cases = [
        ("", Some(vec![])),
        ("a.md", Some(vec!["a.md"])),
        ("docs/a.md", Some(vec!["docs", "a.md"])),
        ("docs/sub/a.md", Some(vec!["docs", "sub", "a.md"])),
        ("CON.md", Some(vec!["CON.md"])),
        ("COM1.md", Some(vec!["COM1.md"])),
        (" leading.md", Some(vec![" leading.md"])),
        ("mid dle.md", Some(vec!["mid dle.md"])),
        ("..", None),
        ("../a.md", None),
        ("docs/../a.md", None),
        ("./a.md", None),
        ("docs/./a.md", None),
        (r"docs\a.md", None),
        (r"\\server\share\a.md", None),
        ("/a.md", None),
        ("docs//a.md", None),
        ("a.md/", None),
        ("a.md:stream", None),
        ("C:/a.md", None),
        ("a*.md", None),
        ("a?.md", None),
        ("a\".md", None),
        ("a<b>.md", None),
        ("a|b.md", None),
        ("a\u{0}.md", None),
        ("a\tb.md", None),
        ("a.md.", None),
        ("a.md ", None),
        ("docs./a.md", None),
    ];
    for (input, expected) in cases {
        let expected: Option<Vec<String>> =
            expected.map(|names: Vec<&str>| names.into_iter().map(String::from).collect());
        assert_eq!(
            validate_relative_path(input).ok(),
            expected,
            "input = {input:?}"
        );
    }
}


#[test]
fn boundary_is_compared_by_component() {
    let root = verbatim(&["root"]);
    let mut lower_drive = verbatim(&["root", "a.md"]);
    lower_drive[0] = PathPart::Prefix(r"\\?\c:".to_owned());
    let cases = [
        (verbatim(&["root"]), true),
        (verbatim(&["root", "a.md"]), true),
        (verbatim(&["root", "docs", "a.md"]), true),
        (verbatim(&["rootx", "a.md"]), false),
        (verbatim(&["root2"]), false),
        (verbatim(&["other", "a.md"]), false),
        (verbatim(&[]), false),
        (verbatim(&["ROOT", "a.md"]), true),
        (lower_drive, true),
    ];
    for (path, expected) in cases {
        assert_eq!(is_within(&root, &path), expected, "path = {path:?}");
    }
}

#[test]
fn relativize_literal_handles_paths_that_no_longer_exist() {
    let root = drive(&["root"]);
    let mut parent = drive(&["root"]);
    parent.push(PathPart::ParentDir);
    parent.push(PathPart::Normal("outside".to_owned()));
    parent.push(PathPart::Normal("a.md".to_owned()));
    let cases = [
        ("ルート自身は空文字", drive(&["root"]), Some("")),
        (
            "実在しない削除済みのパスも相対化できる",
            drive(&["root", "docs", "gone.md"]),
            Some("docs/gone.md"),
        ),
        ("ルート直下", drive(&["root", "a.md"]), Some("a.md")),
        ("隣接する名前は配下ではない", drive(&["rootx", "a.md"]), None),
        ("境界外", drive(&["other", "a.md"]), None),
        ("親参照を含むパスは拒否する", parent, None),
        ("末尾のドットを持つ名前は拒否する", drive(&["root", "a.md."]), None),
        (
            "代替データストリーム表記は拒否する",
            drive(&["root", "a.md:stream"]),
            None,
        ),
    ];
    for (name, absolute, expected) in cases {
        assert_eq!(
            relativize_literal(&root, &absolute).as_deref(),
            expected,
            "{name}: {absolute:?}"
        );
    }
}

#[test]
fn relativize_literal_ignores_case_in_the_root() {
    assert_eq!(
        relativize_literal(&drive(&["Root"]), &drive(&["root", "docs", "a.md"])).as_deref(),
        Some("docs/a.md")
    );
}

#[test]
fn a_workspace_root_relativizes_what_it_contains() {
    let root = WorkspaceRoot::new(r"C:\root".to_owned(), drive(&["root"]));
    assert_eq!(root.path(), r"C:\root");
    assert_eq!(root.parts(), drive(&["root"]).as_slice());
    assert!(root.contains(&drive(&["ROOT", "a.md"])));
    assert!(!root.contains(&drive(&["rootx"])));
    assert_eq!(
        root.relative_path_of(&drive(&["root", "docs", "a.md"])).as_deref(),
        Some("docs/a.md")
    );
    assert_eq!(root.relative_path_of(&drive(&["root"])).as_deref(), Some(""));
    assert_eq!(root.relative_path_of(&drive(&["other", "a.md"])), None);
}

#[test]
fn single_names_follow_the_segment_rules() {
    assert!(is_valid_name("a.md"));
    assert!(is_valid_name("CON.md"));
    assert!(!is_valid_name(""));
    assert!(!is_valid_name("."));
    assert!(!is_valid_name(".."));
    assert!(!is_valid_name("a\tb"));
    assert!(!is_valid_name("a.md "));
    assert!(!is_valid_name("a:b"));
}
