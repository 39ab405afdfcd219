use md_peruse::file_kind::is_markdown_path;
use md_peruse::i18n::Language;
use md_peruse::image::resource::ImageResources;
use md_peruse::ipc::error::ErrorCode;
use md_peruse::ipc::message::message;
use md_peruse::path_guard::PathPart;
use md_peruse::watch::{DebounceWindow, RawEvent, RawEventKind, WindowOutcome, DEBOUNCE_MS, MAX_EVENTS_PER_WINDOW};
use md_peruse::watch_runtime::{
    admit_events, admit_notification, drain_step, format_scope_id, is_excluded, stops_workspace, watcher_error_event,
    DrainAction, ParentEventKind,
};
use std::collections::hash_map::RandomState;
use std::hash::{BuildHasher, Hasher};

fn hash_of(value: u64) -> u64 {
    let mut hasher = RandomState::new().build_hasher();
    hasher.write_u64(value);
    hasher.finish()
}

fn new_scope_id(sequence: u64) -> String {
    format_scope_id(hash_of(sequence), hash_of(sequence))
}

#[test]
fn scope_ids_do_not_repeat() {
    let ids: Vec<String> = (0..64).map(new_scope_id).collect();
    let mut unique = ids.clone();
    unique.sort();
    unique.dedup();
    assert_eq!(unique.len(), ids.len(), "スコープIDが重複している");
    assert!(ids.iter().all(|id| id.len() == 32 && id.is_ascii()));
}

#[test]
fn scope_ids_are_the_two_words_in_hexadecimal() {
    assert_eq!(
        format_scope_id(0x0123_4567_89ab_cdef, 0xfedc_ba98_7654_3210),
        "0123456789abcdeffedcba9876543210"
    );
    assert_eq!(format_scope_id(0, 1), "00000000000000000000000000000001");
}

#[test]
fn excluded_directories_are_dropped() {
    let cases: [(&str, bool); 6] = [
        ("a.md", false),
        ("docs/a.md", false),
        ("node_modules/a.md", true),
        ("docs/node_modules/deep/a.md", true),
        ("NODE_MODULES/a.md", true),
        ("node_modules_extra/a.md", false),
    ];
    for (path, expected) in cases {
        assert_eq!(is_excluded(path), expected, "{path}");
    }
}

fn verbatim(names: &[&str]) -> Vec<PathPart> {
    let mut parts = vec![PathPart::Prefix(r"\\?\C:".to_owned()), PathPart::RootDir];
    parts.extend(names.iter().map(|name| PathPart::Normal((*name).to_owned())));
    parts
}

#[test]
fn parent_events_that_stop_the_workspace_are_classified() {
    let root = verbatim(&["ws"]);
    let sibling = verbatim(&["other"]);
    let renamed = verbatim(&["ws-renamed"]);
    let cases = [
        ("ルートの削除は停止", ParentEventKind::Remove, vec![root.clone()], true),
        ("ルートのrename元は停止", ParentEventKind::RenameFrom, vec![root.clone()], true),
        (
            "旧パスがルートのBothは停止",
            ParentEventKind::RenameBoth,
            vec![root.clone(), renamed.clone()],
            true,
        ),
        (
            "新パスがルートのBothは停止させない",
            ParentEventKind::RenameBoth,
            vec![sibling.clone(), root.clone()],
            false,
        ),
        (
            "ルートのタイムスタンプ更新は停止させない",
            ParentEventKind::Other,
            vec![root.clone()],
            false,
        ),
        (
            "兄弟フォルダーの削除は停止させない",
            ParentEventKind::Remove,
            vec![sibling.clone()],
            false,
        ),
    ];
    for (name, kind, paths, expected) in cases {
        assert_eq!(stops_workspace(&root, kind, &paths), expected, "{name}");
    }
}

#[test]
fn the_watcher_error_message_follows_the_language() {
    let japanese = watcher_error_event("scope", ErrorCode::WatcherOverflow, Language::Ja);
    let english = watcher_error_event("scope", ErrorCode::WatcherOverflow, Language::En);

    assert_eq!(japanese.scope_id, "scope");
    assert_eq!(japanese.error.code, ErrorCode::WatcherOverflow);
    assert_eq!(japanese.error.detail, None);
    assert_eq!(
        japanese.error.message,
        message(ErrorCode::WatcherOverflow, Language::Ja)
    );
    assert_ne!(japanese.error.message, english.error.message);
}

#[test]
fn admitted_events_skip_excluded_directories() {
    let mut window = DebounceWindow::new();
    admit_events(
        &mut window,
        10,
        vec![
            RawEvent::new(RawEventKind::Modified, "node_modules/a.md"),
            RawEvent::new(RawEventKind::Modified, "docs/a.md"),
        ],
    );
    match window.take_due(10 + DEBOUNCE_MS) {
        Some(WindowOutcome::Events(events)) => {
            assert_eq!(events, vec![RawEvent::new(RawEventKind::Modified, "docs/a.md")]);
        }
        other => panic!("窓が閉じない: {other:?}"),
    }
}

#[test]
fn a_due_window_is_reported_as_changes() {
    let mut window = DebounceWindow::new();
    admit_events(&mut window, 0, vec![RawEvent::new(RawEventKind::Modified, "a.md")]);
    assert!(drain_step(&mut window, DEBOUNCE_MS - 1, is_markdown_path).is_none());
    match drain_step(&mut window, DEBOUNCE_MS, is_markdown_path) {
        Some(DrainAction::Changes(changes)) => assert!(!changes.is_empty()),
        other => panic!("変更が報告されない: {other:?}"),
    }
    assert_eq!(window.deadline_ms(), None);
}

#[test]
fn a_degraded_window_is_reported_as_an_overflow() {
    let mut window = DebounceWindow::new();
    let events: Vec<RawEvent> = (0..=MAX_EVENTS_PER_WINDOW)
        .map(|index| RawEvent::new(RawEventKind::Modified, &format!("f{index}.md")))
        .collect();
    admit_events(&mut window, 0, events);
    assert!(matches!(drain_step(&mut window, DEBOUNCE_MS, is_markdown_path), Some(DrainAction::Overflow)));
    assert_eq!(window.deadline_ms(), None);
}

#[test]
fn rewriting_an_issued_image_advances_its_generation() {
    let mut images = ImageResources::new().unwrap();
    let before = images.issue("img/a.png");
    let hidden = images.issue("node_modules/b.png");
    let mut window = DebounceWindow::new();
    admit_notification(
        &mut window,
        &mut images,
        5,
        vec![
            RawEvent::new(RawEventKind::Modified, "img/a.png"),
            RawEvent::new(RawEventKind::Modified, "node_modules/b.png"),
        ],
    );
    assert_ne!(images.issue("img/a.png"), before);
    assert_ne!(images.issue("node_modules/b.png"), hidden);
    assert_eq!(images.lookup(&before), None);
    match window.take_due(5 + DEBOUNCE_MS) {
        Some(WindowOutcome::Events(events)) => {
            assert_eq!(events, vec![RawEvent::new(RawEventKind::Modified, "img/a.png")]);
        }
        other => panic!("窓が閉じない: {other:?}"),
    }
}
