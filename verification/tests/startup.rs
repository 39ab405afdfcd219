use md_peruse::startup::files_to_open;

fn args(values: &[&str]) -> Vec<String> {
    values.iter().map(|value| (*value).to_owned()).collect()
}

#[test]
fn files_to_open_keeps_targets_in_order() {
    let cases: [(&str, Vec<&str>, Vec<&str>); 6] = [
        (
            "対象拡張子を渡された順で返す",
            vec![r"C:\docs\b.md", r"C:\docs\a.markdown"],
            vec![r"C:\docs\b.md", r"C:\docs\a.markdown"],
        ),
        (
            "対象外の引数は落とす",
            vec![r"C:\docs\a.md", r"C:\docs\notes.txt", "--debug"],
            vec![r"C:\docs\a.md"],
        ),
        (
            "同じ文書を重複して開かない",
            vec![r"C:\docs\a.md", r"C:\docs\b.md", r"C:\docs\a.md"],
            vec![r"C:\docs\a.md", r"C:\docs\b.md"],
        ),
        (
            "対象が1つもなければ空になる",
            vec!["--debug", r"C:\docs\notes.txt"],
            vec![],
        ),
        ("引数がなければ空になる", vec![], vec![]),
        (
            "大文字の拡張子も対象とする",
            vec![r"C:\docs\A.MD"],
            vec![r"C:\docs\A.MD"],
        ),
    ];

    for (name, input, expected) in cases {
        assert_eq!(files_to_open(&args(&input)), args(&expected), "{name}");
    }
}
