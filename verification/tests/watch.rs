use md_peruse::file_kind::is_markdown_path;
use md_peruse::ipc::types::FileChange;
use md_peruse::watch::RawEventKind::{Created, Modified, Removed, RenamedFrom, RenamedTo};
use md_peruse::path_guard::PathPart;
use md_peruse::watch::{
    coalesce, map_event, NotifiedKind, DebounceWindow, RawEvent, WindowOutcome, DEBOUNCE_MS, MAX_EVENTS_PER_WINDOW,
    MAX_WINDOW_MS,
};

fn is_markdown(path: &str) -> bool {
    is_markdown_path(path)
}

fn modified_change(path: &str) -> FileChange {
    FileChange::FileModified {
        path: path.to_owned(),
    }
}

fn removed_change(path: &str) -> FileChange {
    FileChange::FileRemoved {
        path: path.to_owned(),
    }
}

fn directory_change(path: &str) -> FileChange {
    FileChange::DirectoryChanged {
        path: path.to_owned(),
    }
}

fn take_events(window: &mut DebounceWindow, now_ms: u64) -> Option<Vec<RawEvent>> {
    match window.take_due(now_ms) {
        Some(WindowOutcome::Events(events)) => Some(events),
        Some(WindowOutcome::Overflowed) => panic!("縮退しない窓で縮退した"),
        None => None,
    }
}

#[test]
fn coalesce_follows_the_rules() {
    let cases: [(&str, Vec<RawEvent>, Vec<FileChange>); 8] = [
        (
            "atomic replaceは置換先の変更へ畳み込む",
            vec![
                RawEvent::new(Created, "a.md.tmp"),
                RawEvent::new(Modified, "a.md.tmp"),
                RawEvent::new(Removed, "a.md"),
                RawEvent::new(RenamedFrom, "a.md.tmp"),
                RawEvent::new(RenamedTo, "a.md"),
            ],
            vec![modified_change("a.md")],
        ),
        (
            "単一の書込みは1件の変更になる",
            vec![
                RawEvent::new(Created, "a.md"),
                RawEvent::new(Modified, "a.md"),
                RawEvent::new(Modified, "a.md"),
            ],
            vec![modified_change("a.md")],
        ),
        (
            "対象どうしのrenameは追跡する",
            vec![
                RawEvent::new(RenamedFrom, "a.md"),
                RawEvent::new(RenamedTo, "b.md"),
            ],
            vec![FileChange::FileRenamed {
                path: "b.md".to_owned(),
                old_path: "a.md".to_owned(),
            }],
        ),
        (
            "既存ファイルへの上書きrenameは移動元の削除と置換先の変更になる",
            vec![
                RawEvent::new(Removed, "b.md"),
                RawEvent::new(RenamedFrom, "a.md"),
                RawEvent::new(RenamedTo, "b.md"),
            ],
            vec![removed_change("a.md"), modified_change("b.md")],
        ),
        (
            "rename先が続かない削除は削除として確定する",
            vec![RawEvent::new(Removed, "a.md")],
            vec![removed_change("a.md")],
        ),
        (
            "削除のあとに作り直された場合は変更として確定する",
            vec![
                RawEvent::new(Removed, "a.md"),
                RawEvent::new(Created, "a.md"),
            ],
            vec![modified_change("a.md")],
        ),
        (
            "対象外の名前へ移されたファイルは削除として扱う",
            vec![
                RawEvent::new(RenamedFrom, "a.md"),
                RawEvent::new(RenamedTo, "a.md.bak"),
            ],
            vec![removed_change("a.md")],
        ),
        (
            "対象外のファイルだけの変更はタブ向けの通知を生まない",
            vec![
                RawEvent::new(Created, "a.md.tmp"),
                RawEvent::new(Modified, "a.md.tmp"),
            ],
            vec![],
        ),
    ];

    for (name, events, expected) in cases {
        assert_eq!(
            coalesce(&events, is_markdown),
            with_root_change(expected),
            "{name}"
        );
    }
}

fn with_root_change(mut expected: Vec<FileChange>) -> Vec<FileChange> {
    expected.push(directory_change(""));
    expected
}

#[test]
fn coalesce_handles_incomplete_and_multiple_renames() {
    let cases: [(&str, Vec<RawEvent>, Vec<FileChange>); 5] = [
        (
            "対のrename先が届かないrename元は削除として確定する",
            vec![RawEvent::new(RenamedFrom, "a.md")],
            vec![removed_change("a.md")],
        ),
        (
            "rename先が届かないrename元は同じ窓の変更も打ち消す",
            vec![
                RawEvent::new(Modified, "a.md"),
                RawEvent::new(RenamedFrom, "a.md"),
            ],
            vec![removed_change("a.md")],
        ),
        (
            "同一窓の入れ替えrenameは両方の変更として扱う",
            vec![
                RawEvent::new(RenamedFrom, "a.md"),
                RawEvent::new(RenamedFrom, "b.md"),
                RawEvent::new(RenamedTo, "b.md"),
                RawEvent::new(RenamedTo, "a.md"),
            ],
            vec![modified_change("b.md"), modified_change("a.md")],
        ),
        (
            "同一窓の複数renameは削除と作成へ倒す",
            vec![
                RawEvent::new(RenamedFrom, "a.md"),
                RawEvent::new(RenamedFrom, "b.md"),
                RawEvent::new(RenamedTo, "c.md"),
                RawEvent::new(RenamedTo, "d.md"),
            ],
            vec![
                removed_change("a.md"),
                removed_change("b.md"),
                modified_change("c.md"),
                modified_change("d.md"),
            ],
        ),
        (
            "同一窓の複数atomic replaceはそれぞれの置換先の変更になる",
            vec![
                RawEvent::new(Removed, "a.md"),
                RawEvent::new(Removed, "b.md"),
                RawEvent::new(RenamedFrom, "a.md.tmp"),
                RawEvent::new(RenamedFrom, "b.md.tmp"),
                RawEvent::new(RenamedTo, "a.md"),
                RawEvent::new(RenamedTo, "b.md"),
            ],
            vec![modified_change("a.md"), modified_change("b.md")],
        ),
    ];

    for (name, events, expected) in cases {
        assert_eq!(
            coalesce(&events, is_markdown),
            with_root_change(expected),
            "{name}"
        );
    }
}

#[test]
fn coalesce_carries_modification_to_the_new_path() {
    let cases: [(&str, Vec<RawEvent>, Vec<FileChange>); 2] = [
        (
            "変更のあとにrenameされた場合",
            vec![
                RawEvent::new(Modified, "a.md"),
                RawEvent::new(RenamedFrom, "a.md"),
                RawEvent::new(RenamedTo, "b.md"),
            ],
            vec![
                FileChange::FileRenamed {
                    path: "b.md".to_owned(),
                    old_path: "a.md".to_owned(),
                },
                modified_change("b.md"),
            ],
        ),
        (
            "変更がなければrenameだけを返す",
            vec![
                RawEvent::new(RenamedFrom, "a.md"),
                RawEvent::new(RenamedTo, "b.md"),
            ],
            vec![FileChange::FileRenamed {
                path: "b.md".to_owned(),
                old_path: "a.md".to_owned(),
            }],
        ),
    ];

    for (name, events, expected) in cases {
        assert_eq!(
            coalesce(&events, is_markdown),
            with_root_change(expected),
            "{name}"
        );
    }
}

/// The components of `C:\root` (or another folder) followed by the
/// slash-separated names of `relative`.
fn native(folder: &str, relative: &str) -> Vec<PathPart> {
    let mut parts = vec![
        PathPart::Prefix("C:".to_owned()),
        PathPart::RootDir,
        PathPart::Normal(folder.to_owned()),
    ];
    parts.extend(
        relative
            .split('/')
            .filter(|name| !name.is_empty())
            .map(|name| PathPart::Normal(name.to_owned())),
    );
    parts
}

#[test]
fn notify_events_map_to_raw_events() {
    let root = native("root", "");
    let cases: [(&str, NotifiedKind, Vec<&str>, Vec<RawEvent>); 8] = [
        (
            "作成",
            NotifiedKind::Create,
            vec!["a.md"],
            vec![RawEvent::new(Created, "a.md")],
        ),
        (
            "削除",
            NotifiedKind::Remove,
            vec!["docs/a.md"],
            vec![RawEvent::new(Removed, "docs/a.md")],
        ),
        (
            "内容の変更",
            NotifiedKind::Modify,
            vec!["a.md"],
            vec![RawEvent::new(Modified, "a.md")],
        ),
        (
            "rename元",
            NotifiedKind::RenameFrom,
            vec!["a.md"],
            vec![RawEvent::new(RenamedFrom, "a.md")],
        ),
        (
            "rename先",
            NotifiedKind::RenameTo,
            vec!["b.md"],
            vec![RawEvent::new(RenamedTo, "b.md")],
        ),
        (
            "旧新を1件で運ぶrename",
            NotifiedKind::RenameBoth,
            vec!["a.md", "b.md"],
            vec![
                RawEvent::new(RenamedFrom, "a.md"),
                RawEvent::new(RenamedTo, "b.md"),
            ],
        ),
        (
            "読み取りアクセス",
            NotifiedKind::Access,
            vec!["a.md"],
            vec![],
        ),
        (
            "分類できない変更",
            NotifiedKind::Modify,
            vec!["a.md"],
            vec![RawEvent::new(Modified, "a.md")],
        ),
    ];

    for (name, kind, names, expected) in cases {
        let paths: Vec<Vec<PathPart>> = names.iter().map(|name| native("root", name)).collect();
        assert_eq!(map_event(&root, kind, &paths), expected, "{name}");
    }
}

#[test]
fn events_outside_the_scope_are_dropped() {
    let root = native("root", "");
    let cases: [(&str, Vec<Vec<PathPart>>); 3] = [
        ("境界外", vec![native("other", "a.md")]),
        ("隣接する名前", vec![native("rootx", "a.md")]),
        ("走査が落とす名前", vec![native("root", "a.md.")]),
    ];
    for (name, paths) in cases {
        assert_eq!(map_event(&root, NotifiedKind::Modify, &paths), Vec::new(), "{name}");
    }
}

#[test]
fn an_empty_window_has_no_deadline() {
    let mut window = DebounceWindow::new();
    assert_eq!(window.deadline_ms(), None);
    assert_eq!(take_events(&mut window, u64::MAX), None);
}

#[test]
fn the_window_closes_after_a_quiet_period() {
    let mut window = DebounceWindow::new();
    window.push(1_000, RawEvent::new(Modified, "a.md"));

    assert_eq!(window.deadline_ms(), Some(1_000 + DEBOUNCE_MS));
    assert_eq!(take_events(&mut window, 1_000 + DEBOUNCE_MS - 1), None);

    let events = take_events(&mut window, 1_000 + DEBOUNCE_MS).expect("静穏で窓が閉じない");
    assert_eq!(events, vec![RawEvent::new(Modified, "a.md")]);
    assert_eq!(window.deadline_ms(), None);
}

#[test]
fn each_event_extends_the_window() {
    let mut window = DebounceWindow::new();
    window.push(0, RawEvent::new(Removed, "a.md"));
    assert_eq!(window.deadline_ms(), Some(DEBOUNCE_MS));

    window.push(100, RawEvent::new(RenamedFrom, "a.md.tmp"));
    window.push(100, RawEvent::new(RenamedTo, "a.md"));
    assert_eq!(window.deadline_ms(), Some(100 + DEBOUNCE_MS));

    assert!(take_events(&mut window, 100 + DEBOUNCE_MS - 1).is_none());
    assert_eq!(
        take_events(&mut window, 100 + DEBOUNCE_MS).map(|events| events.len()),
        Some(3)
    );
}

#[test]
fn a_busy_window_closes_at_the_upper_bound() {
    let mut window = DebounceWindow::new();
    let mut now = 0;
    while now < MAX_WINDOW_MS {
        window.push(now, RawEvent::new(Modified, "a.md"));
        assert!(
            take_events(&mut window, now).is_none(),
            "上限より前に閉じている: {now}"
        );
        now += DEBOUNCE_MS - 50;
    }
    window.push(MAX_WINDOW_MS, RawEvent::new(Modified, "a.md"));

    assert_eq!(window.deadline_ms(), Some(MAX_WINDOW_MS));
    assert!(
        take_events(&mut window, MAX_WINDOW_MS).is_some(),
        "上限で閉じない"
    );
}

#[test]
fn a_removal_near_the_upper_bound_is_carried_to_the_next_window() {
    let mut window = DebounceWindow::new();
    for now in (0..=500).step_by(100) {
        window.push(now, RawEvent::new(Modified, "busy.md"));
    }
    window.push(599, RawEvent::new(Removed, "a.md"));

    let due = take_events(&mut window, MAX_WINDOW_MS).expect("上限で閉じない");
    assert_eq!(
        coalesce(&due, is_markdown),
        vec![modified_change("busy.md")],
        "置換の起点となる削除を確定させている"
    );

    window.push(601, RawEvent::new(RenamedFrom, "a.md.tmp"));
    window.push(602, RawEvent::new(RenamedTo, "a.md"));

    let due = take_events(&mut window, 602 + DEBOUNCE_MS).expect("持ち越した窓が閉じない");
    assert_eq!(
        coalesce(&due, is_markdown),
        vec![modified_change("a.md"), directory_change("")]
    );
}

#[test]
fn an_old_pending_does_not_consume_the_grace_of_a_new_one() {
    let mut window = DebounceWindow::new();
    window.push(0, RawEvent::new(Removed, "old.md"));
    for now in (100..=500).step_by(100) {
        window.push(now, RawEvent::new(Modified, "busy.md"));
    }
    window.push(599, RawEvent::new(Removed, "a.md"));

    let due = take_events(&mut window, MAX_WINDOW_MS).expect("上限で閉じない");
    assert_eq!(
        coalesce(&due, is_markdown),
        vec![
            removed_change("old.md"),
            modified_change("busy.md"),
            directory_change("")
        ]
    );

    window.push(601, RawEvent::new(RenamedFrom, "a.md.tmp"));
    window.push(602, RawEvent::new(RenamedTo, "a.md"));

    let due = take_events(&mut window, 602 + DEBOUNCE_MS).expect("持ち越した窓が閉じない");
    assert_eq!(
        coalesce(&due, is_markdown),
        vec![modified_change("a.md"), directory_change("")]
    );
}

#[test]
fn an_unpaired_rename_does_not_hold_the_window_open() {
    let mut window = DebounceWindow::new();
    window.push(0, RawEvent::new(RenamedFrom, "moved-out.md"));
    let mut now = 100;
    while now < MAX_WINDOW_MS {
        window.push(now, RawEvent::new(Modified, "busy.md"));
        now += 100;
    }
    window.push(MAX_WINDOW_MS, RawEvent::new(Modified, "busy.md"));

    assert_eq!(window.deadline_ms(), Some(MAX_WINDOW_MS));
    let events =
        take_events(&mut window, MAX_WINDOW_MS).expect("対の届かないrenameで窓が閉じない");
    assert_eq!(
        coalesce(&events, is_markdown),
        vec![
            removed_change("moved-out.md"),
            modified_change("busy.md"),
            directory_change("")
        ]
    );
}

#[test]
fn a_pending_does_not_extend_the_deadline() {
    let mut window = DebounceWindow::new();
    window.push(0, RawEvent::new(Modified, "busy.md"));
    window.push(599, RawEvent::new(Removed, "a.md"));

    assert_eq!(window.deadline_ms(), Some(MAX_WINDOW_MS));
}

#[test]
fn carrying_an_older_event_of_the_same_path_still_advances_the_deadline() {
    let mut window = DebounceWindow::new();
    window.push(0, RawEvent::new(Modified, "a.md"));
    window.push(599, RawEvent::new(Removed, "a.md"));

    let due = take_events(&mut window, MAX_WINDOW_MS).expect("上限で閉じない");
    assert_eq!(due, Vec::new());

    let deadline = window.deadline_ms().expect("窓が空になっている");
    assert_eq!(deadline, 599 + DEBOUNCE_MS);
    assert!(deadline > MAX_WINDOW_MS, "期限が前へ進んでいない");
    assert!(
        take_events(&mut window, MAX_WINDOW_MS).is_none(),
        "同じ時刻で繰り返し閉じている"
    );

    let due = take_events(&mut window, deadline).expect("猶予が切れても閉じない");
    assert_eq!(
        coalesce(&due, is_markdown),
        vec![removed_change("a.md"), directory_change("")]
    );
    assert_eq!(window.deadline_ms(), None, "窓が空にならない");
}

#[test]
fn the_deadline_always_moves_forward_after_carrying() {
    let cases: [(&str, Vec<(u64, RawEvent)>); 4] = [
        (
            "同じパスの変更と削除",
            vec![
                (0, RawEvent::new(Modified, "a.md")),
                (599, RawEvent::new(Removed, "a.md")),
            ],
        ),
        (
            "無関係な更新と削除",
            vec![
                (0, RawEvent::new(Modified, "busy.md")),
                (599, RawEvent::new(Removed, "a.md")),
            ],
        ),
        (
            "対の届かないrenameと同じパスの変更",
            vec![
                (0, RawEvent::new(Modified, "a.md")),
                (599, RawEvent::new(RenamedFrom, "a.md")),
            ],
        ),
        (
            "複数の保留",
            vec![
                (0, RawEvent::new(Modified, "a.md")),
                (598, RawEvent::new(Removed, "a.md")),
                (599, RawEvent::new(Removed, "b.md")),
            ],
        ),
    ];

    for (name, events) in cases {
        let mut window = DebounceWindow::new();
        for (at, event) in events {
            window.push(at, event);
        }
        take_events(&mut window, MAX_WINDOW_MS).expect("上限で閉じない");
        let deadline = window.deadline_ms().expect("持ち越しが消えている");
        assert!(deadline > MAX_WINDOW_MS, "{name}: 期限が前へ進んでいない");
    }
}

#[test]
fn a_carried_pending_is_confirmed_once_its_grace_passes() {
    let mut window = DebounceWindow::new();
    for now in (0..=500).step_by(100) {
        window.push(now, RawEvent::new(Modified, "busy.md"));
    }
    window.push(599, RawEvent::new(Removed, "gone.md"));

    let due = take_events(&mut window, MAX_WINDOW_MS).expect("上限で閉じない");
    assert_eq!(
        coalesce(&due, is_markdown),
        vec![modified_change("busy.md")]
    );

    assert_eq!(window.deadline_ms(), Some(599 + DEBOUNCE_MS));
    let due = take_events(&mut window, 599 + DEBOUNCE_MS).expect("持ち越した削除が確定しない");
    assert_eq!(
        coalesce(&due, is_markdown),
        vec![removed_change("gone.md"), directory_change("")]
    );
    assert_eq!(window.deadline_ms(), None, "窓が空にならない");
}

#[test]
fn the_window_closes_at_the_upper_bound_even_with_pendings() {
    let mut window = DebounceWindow::new();
    window.push(0, RawEvent::new(Modified, "busy.md"));
    window.push(599, RawEvent::new(Removed, "a.md"));
    window.push(599, RawEvent::new(RenamedTo, "a.md"));
    window.push(599, RawEvent::new(Removed, "b.md"));

    assert_eq!(window.deadline_ms(), Some(MAX_WINDOW_MS));
    let due = take_events(&mut window, MAX_WINDOW_MS).expect("上限で閉じない");
    assert_eq!(
        coalesce(&due, is_markdown),
        vec![
            modified_change("busy.md"),
            modified_change("a.md"),
            directory_change("")
        ]
    );
}

#[test]
fn coalesce_reports_changed_directories_without_filtering() {
    let cases: [(&str, Vec<RawEvent>, Vec<FileChange>); 6] = [
        (
            "対象外のファイルの作成でも親を出す",
            vec![RawEvent::new(Created, "a.md.tmp")],
            vec![directory_change("")],
        ),
        (
            "拡張子のない名前の削除でも親を出す",
            vec![RawEvent::new(Removed, "sub")],
            vec![directory_change("")],
        ),
        (
            "入れ子のパスは自分の親を出す",
            vec![RawEvent::new(Created, "sub/deep/a.md")],
            vec![
                modified_change("sub/deep/a.md"),
                directory_change("sub/deep"),
            ],
        ),
        (
            "同じ親を指すイベントは1件にまとまる",
            vec![
                RawEvent::new(Created, "a.md.tmp"),
                RawEvent::new(Modified, "a.md.tmp"),
                RawEvent::new(Removed, "a.md"),
                RawEvent::new(RenamedFrom, "a.md.tmp"),
                RawEvent::new(RenamedTo, "a.md"),
            ],
            vec![modified_change("a.md"), directory_change("")],
        ),
        (
            "異なる親はそれぞれ出す",
            vec![
                RawEvent::new(Created, "a.md"),
                RawEvent::new(Created, "sub/b.md"),
            ],
            vec![
                modified_change("a.md"),
                modified_change("sub/b.md"),
                directory_change(""),
                directory_change("sub"),
            ],
        ),
        (
            "内容の変更だけでは親を出さない",
            vec![
                RawEvent::new(Modified, "a.md"),
                RawEvent::new(Modified, "sub"),
            ],
            vec![modified_change("a.md")],
        ),
    ];

    for (name, events, expected) in cases {
        assert_eq!(coalesce(&events, is_markdown), expected, "{name}");
    }
}

#[test]
fn a_window_over_the_event_limit_degrades() {
    let mut window = DebounceWindow::new();
    for index in 0..=MAX_EVENTS_PER_WINDOW {
        window.push(0, RawEvent::new(Created, &format!("f{index}.md")));
    }

    assert_eq!(window.deadline_ms(), Some(DEBOUNCE_MS), "窓が閉じられない");
    assert_eq!(
        window.take_due(DEBOUNCE_MS),
        Some(WindowOutcome::Overflowed)
    );
    assert_eq!(window.deadline_ms(), None, "縮退した窓が残っている");
}

#[test]
fn a_window_at_the_event_limit_still_confirms_changes() {
    let mut window = DebounceWindow::new();
    for index in 0..MAX_EVENTS_PER_WINDOW {
        window.push(0, RawEvent::new(Created, &format!("f{index}.md")));
    }

    let events = take_events(&mut window, DEBOUNCE_MS).expect("上限ちょうどで閉じない");
    assert_eq!(events.len(), MAX_EVENTS_PER_WINDOW);
}

#[test]
fn a_degraded_window_carries_nothing() {
    let mut window = DebounceWindow::new();
    window.push(0, RawEvent::new(Removed, "a.md"));
    for index in 0..=MAX_EVENTS_PER_WINDOW {
        window.push(0, RawEvent::new(Created, &format!("f{index}.md")));
    }

    assert_eq!(
        window.take_due(DEBOUNCE_MS),
        Some(WindowOutcome::Overflowed)
    );
    assert_eq!(window.deadline_ms(), None, "保留を持ち越している");
}

#[test]
fn a_degraded_window_stops_accumulating() {
    let mut window = DebounceWindow::new();
    for index in 0..=MAX_EVENTS_PER_WINDOW {
        window.push(0, RawEvent::new(Created, &format!("f{index}.md")));
    }
    window.push(300, RawEvent::new(Created, "late.md"));

    assert_eq!(window.deadline_ms(), Some(300 + DEBOUNCE_MS));
    assert_eq!(
        window.take_due(300 + DEBOUNCE_MS),
        Some(WindowOutcome::Overflowed)
    );
}

#[test]
fn a_closed_window_stays_open_only_for_pending_removals() {
    let mut window = DebounceWindow::new();
    window.push(0, RawEvent::new(Modified, "a.md"));
    window.push(MAX_WINDOW_MS - 10, RawEvent::new(Removed, "b.md"));
    let events = take_events(&mut window, MAX_WINDOW_MS).expect("the window does not close");
    assert_eq!(events, vec![RawEvent::new(Modified, "a.md")]);
    let deadline = window.deadline_ms().expect("the pending removal was dropped");
    assert!(deadline > MAX_WINDOW_MS);

    let mut quiet = DebounceWindow::new();
    quiet.push(0, RawEvent::new(Modified, "a.md"));
    quiet.push(10, RawEvent::new(Created, "c.md"));
    assert!(take_events(&mut quiet, 10 + DEBOUNCE_MS).is_some());
    assert_eq!(quiet.deadline_ms(), None);
}
