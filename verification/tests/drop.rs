use md_peruse::drop::{plan_drop, DroppedEntry, DroppedKind};

fn file(path: &str) -> DroppedEntry {
    DroppedEntry {
        path: path.to_owned(),
        kind: DroppedKind::File,
    }
}

fn directory(path: &str) -> DroppedEntry {
    DroppedEntry {
        path: path.to_owned(),
        kind: DroppedKind::Directory,
    }
}

type PlanCase = (
    &'static str,
    Vec<DroppedEntry>,
    Option<&'static str>,
    Vec<&'static str>,
);

#[test]
fn plan_drop_follows_the_rules() {
    let cases: [PlanCase; 8] = [
        (
            "単一のMarkdownファイルはタブで開く",
            vec![file(r"C:\docs\a.md")],
            None,
            vec![r"C:\docs\a.md"],
        ),
        (
            "単一のフォルダーはワークスペースとして開く",
            vec![directory(r"C:\docs")],
            Some(r"C:\docs"),
            vec![],
        ),
        (
            "対象外の拡張子は落とす",
            vec![file(r"C:\docs\note.txt"), file(r"C:\docs\a.md")],
            None,
            vec![r"C:\docs\a.md"],
        ),
        (
            "対象が1つもなければ何もしない",
            vec![file(r"C:\docs\note.txt"), file(r"C:\docs\photo.png")],
            None,
            vec![],
        ),
        (
            "複数のMarkdownファイルは渡された順ですべて開く",
            vec![file(r"C:\docs\b.md"), file(r"C:\docs\a.markdown")],
            None,
            vec![r"C:\docs\b.md", r"C:\docs\a.markdown"],
        ),
        (
            "同じファイルを重複して開かない",
            vec![file(r"C:\docs\a.md"), file(r"C:\docs\a.md")],
            None,
            vec![r"C:\docs\a.md"],
        ),
        (
            "フォルダーは最初の1つだけを採る",
            vec![directory(r"C:\docs"), directory(r"C:\other")],
            Some(r"C:\docs"),
            vec![],
        ),
        (
            "フォルダーとファイルの混在は両方を処理する",
            vec![
                file(r"C:\docs\a.md"),
                directory(r"C:\docs\sub"),
                file(r"C:\docs\b.md"),
            ],
            Some(r"C:\docs\sub"),
            vec![r"C:\docs\a.md", r"C:\docs\b.md"],
        ),
    ];

    for (name, entries, workspace, files) in cases {
        let plan = plan_drop(&entries);
        assert_eq!(
            plan.workspace.as_deref(),
            workspace,
            "{name}: ワークスペース"
        );
        assert_eq!(plan.files, files, "{name}: ファイル");
    }
}

#[test]
fn directory_named_like_a_document_is_a_workspace() {
    let plan = plan_drop(&[directory(r"C:\docs.md")]);
    assert_eq!(plan.workspace.as_deref(), Some(r"C:\docs.md"));
    assert!(plan.files.is_empty());
}

#[test]
fn is_empty_matches_having_nothing_to_do() {
    let cases = [
        (vec![file(r"C:\docs\note.txt")], true),
        (vec![], true),
        (vec![file(r"C:\docs\a.md")], false),
        (vec![directory(r"C:\docs")], false),
    ];
    for (entries, expected) in cases {
        assert_eq!(
            plan_drop(&entries).is_empty(),
            expected,
            "入力: {entries:?}"
        );
    }
}
