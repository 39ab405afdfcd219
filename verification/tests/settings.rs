use md_peruse::i18n::{Language, LanguagePreference};
use md_peruse::ipc::error::ErrorCode;
use md_peruse::settings::{
    accept_loaded, apply_update, push_recent_folder, recent_folder_label, ui_settings_of, Settings,
    ThemePreference, UiSettingsUpdate, DEFAULT_FONT_SCALE_PERCENT, DEFAULT_SIDEBAR_WIDTH,
    MAX_RECENT_FOLDERS, SCHEMA_VERSION,
};
use md_peruse::settings_store::{
    notice_codes, outcome_after_backup, waits_for_quiet, writer_step, LoadOutcome, WriterEvent,
};
#[test]
fn recent_folder_label_keeps_last_two_components() {
    let cases = [
        ("C:\\Users\\dev\\src\\md-peruse", "src\\md-peruse"),
        ("C:\\projects", "C:\\projects"),
        ("C:\\", "C:\\"),
        ("C:", "C:\\"),
        ("C:\\Users\\dev\\src\\md-peruse\\", "src\\md-peruse"),
        ("C:/Users/dev/docs", "dev\\docs"),
        ("\\\\server\\share\\docs", "share\\docs"),
    ];
    for (path, expected) in cases {
        assert_eq!(recent_folder_label(path), expected, "入力: {path}");
    }
}

#[test]
fn push_recent_folder_moves_duplicates_to_front() {
    let history = vec!["C:\\a".to_owned(), "C:\\b".to_owned(), "C:\\c".to_owned()];
    let cases = [
        ("C:\\d", vec!["C:\\d", "C:\\a", "C:\\b", "C:\\c"]),
        ("C:\\b", vec!["C:\\b", "C:\\a", "C:\\c"]),
        ("C:\\a", vec!["C:\\a", "C:\\b", "C:\\c"]),
    ];
    for (path, expected) in cases {
        assert_eq!(push_recent_folder(&history, path), expected, "入力: {path}");
    }
}

#[test]
fn push_recent_folder_truncates_to_limit() {
    let history: Vec<String> = (0..MAX_RECENT_FOLDERS)
        .map(|i| format!("C:\\dir{i}"))
        .collect();
    let next = push_recent_folder(&history, "C:\\new");
    assert_eq!(next.len(), MAX_RECENT_FOLDERS);
    assert_eq!(next[0], "C:\\new");
    let dropped = format!("C:\\dir{}", MAX_RECENT_FOLDERS - 1);
    assert!(!next.contains(&dropped));
}

#[test]
fn file_contents_are_interpreted() {
    let cases = [
        (0, ThemePreference::Light, Some(ThemePreference::Light)),
        (1, ThemePreference::Dark, Some(ThemePreference::Dark)),
        (2, ThemePreference::Dark, None),
    ];
    for (schema_version, theme, expected) in cases {
        let loaded = Settings { schema_version, theme, ..Settings::default() };
        let accepted = accept_loaded(loaded);
        assert_eq!(accepted.as_ref().map(|s| s.theme), expected, "{schema_version}");
        if let Some(settings) = accepted {
            assert_eq!(settings.schema_version, SCHEMA_VERSION);
        }
    }
}

#[test]
fn defaults_are_the_documented_values() {
    let settings = Settings::default();
    assert_eq!(settings.schema_version, SCHEMA_VERSION);
    assert_eq!(settings.theme, ThemePreference::System);
    assert_eq!(settings.sidebar_width, DEFAULT_SIDEBAR_WIDTH);
    assert_eq!(settings.sidebar_width, 280);
    assert!(settings.sidebar_visible);
    assert_eq!(settings.font_scale_percent, DEFAULT_FONT_SCALE_PERCENT);
    assert_eq!(settings.font_scale_percent, 100);
    assert!(settings.window.is_none());
    assert!(settings.recent_folders.is_empty());
    assert!(settings.last_workspace.is_none());
}

#[test]
fn an_update_reports_whether_anything_changed() {
    let mut settings = Settings::default();
    assert!(!apply_update(&mut settings, &UiSettingsUpdate::default()));
    let same = UiSettingsUpdate { theme: Some(ThemePreference::System), ..UiSettingsUpdate::default() };
    assert!(!apply_update(&mut settings, &same));
    let darker = UiSettingsUpdate {
        theme: Some(ThemePreference::Dark),
        sidebar_width: Some(320),
        ..UiSettingsUpdate::default()
    };
    assert!(apply_update(&mut settings, &darker));
    assert_eq!(settings.theme, ThemePreference::Dark);
    assert_eq!(settings.sidebar_width, 320);
    assert!(settings.sidebar_visible);
    let projection = ui_settings_of(&settings, Language::En);
    assert_eq!(projection.theme, ThemePreference::Dark);
    assert_eq!(projection.language, LanguagePreference::System);
    assert_eq!(projection.effective_language, Language::En);
    assert_eq!(projection.sidebar_width, 320);
    assert!(projection.recent_folders.is_empty());
}

#[test]
fn recent_folders_stay_unique_and_bounded() {
    let mut history: Vec<String> = Vec::new();
    for i in 0..25 {
        history = push_recent_folder(&history, &format!("C:\\dir{}", i % 13));
        assert!(history.len() <= MAX_RECENT_FOLDERS);
        for (index, path) in history.iter().enumerate() {
            assert!(!history[index + 1..].contains(path));
        }
    }
    assert_eq!(history[0], format!("C:\\dir{}", 24 % 13));
}

#[test]
fn load_outcomes_decide_notice_and_saving() {
    assert!(!LoadOutcome::Loaded.needs_notice());
    assert!(LoadOutcome::Loaded.allows_saving());
    assert_eq!(outcome_after_backup(true), LoadOutcome::ResetAfterBackup);
    assert_eq!(outcome_after_backup(false), LoadOutcome::ResetWithoutSaving);
    assert!(LoadOutcome::ResetAfterBackup.needs_notice());
    assert!(LoadOutcome::ResetAfterBackup.allows_saving());
    assert!(LoadOutcome::ResetWithoutSaving.needs_notice());
    assert!(!LoadOutcome::ResetWithoutSaving.allows_saving());
}

#[test]
fn the_writer_writes_after_quiet_flush_and_close() {
    let dark = Settings { theme: ThemePreference::Dark, ..Settings::default() };
    let light = Settings { theme: ThemePreference::Light, ..Settings::default() };

    let (pending, step) = writer_step(None, WriterEvent::Save(dark.clone()));
    assert!(step.write.is_none() && !step.acknowledge && !step.stop);
    assert!(waits_for_quiet(&pending));
    let (pending, step) = writer_step(pending, WriterEvent::Save(light));
    assert!(step.write.is_none());
    let (pending, step) = writer_step(pending, WriterEvent::Quiet);
    assert_eq!(step.write.map(|s| s.theme), Some(ThemePreference::Light));
    assert!(pending.is_none() && !waits_for_quiet(&pending));

    let (pending, step) = writer_step(pending, WriterEvent::Flush);
    assert!(step.write.is_none() && step.acknowledge && !step.stop);
    let (pending, _) = writer_step(pending, WriterEvent::Save(dark));
    let (pending, step) = writer_step(pending, WriterEvent::Closed);
    assert_eq!(step.write.map(|s| s.theme), Some(ThemePreference::Dark));
    assert!(step.stop && pending.is_none());
}

#[test]
fn the_start_up_notice_follows_the_load_outcome() {
    assert!(notice_codes(LoadOutcome::Loaded).is_empty());
    assert_eq!(notice_codes(LoadOutcome::ResetAfterBackup), vec![ErrorCode::SettingsCorrupted]);
    assert_eq!(
        notice_codes(LoadOutcome::ResetWithoutSaving),
        vec![ErrorCode::SettingsCorrupted, ErrorCode::SettingsSaveFailed]
    );
}

#[test]
fn unchanged_updates_are_not_written() {
    let mut settings = Settings::default();
    let update = UiSettingsUpdate {
        theme: Some(ThemePreference::Dark),
        font_scale_percent: Some(120),
        ..UiSettingsUpdate::default()
    };
    assert!(apply_update(&mut settings, &update));
    assert!(!apply_update(&mut settings, &update));
    assert_eq!(settings.font_scale_percent, 120);
}

#[test]
fn the_projection_carries_ui_values_only() {
    let settings = Settings {
        language: LanguagePreference::Ja,
        sidebar_width: 350,
        recent_folders: vec!["C:\\secret\\docs".to_string()],
        last_workspace: Some("C:\\secret\\docs".to_string()),
        ..Settings::default()
    };
    let ui = ui_settings_of(&settings, Language::Ja);
    assert_eq!(ui.language, LanguagePreference::Ja);
    assert_eq!(ui.effective_language, Language::Ja);
    assert_eq!(ui.sidebar_width, 350);
    assert!(ui.recent_folders.is_empty());
}
