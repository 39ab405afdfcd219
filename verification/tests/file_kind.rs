use md_peruse::file_kind::is_markdown_path;

#[test]
fn markdown_paths_are_recognized() {
    let cases = [
        ("a.md", true),
        ("a.markdown", true),
        ("docs/a.md", true),
        (r"C:\docs\a.md", true),
        ("A.MD", true),
        ("a.Markdown", true),
        ("a.md.tmp", false),
        ("a.md.bak", false),
        ("a.txt", false),
        ("a", false),
        ("md", false),
        ("", false),
        (".md", true),
        (".markdown", true),
        ("docs/.md", true),
        ("docs.md/notes.txt", false),
        (r"C:\docs.md\notes.txt", false),
    ];
    for (path, expected) in cases {
        assert_eq!(is_markdown_path(path), expected, "入力: {path}");
    }
}
