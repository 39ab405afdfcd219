use md_peruse::menu::{accelerator_of, accelerators, command_action, implemented, CommandAction, MenuCommand};

#[test]
fn accelerators_are_unique() {
    let table = accelerators();
    for (index, (command, accelerator)) in table.iter().enumerate() {
        let duplicated = table
            .iter()
            .skip(index + 1)
            .any(|(_, other)| other == accelerator);
        assert!(
            !duplicated,
            "重複したアクセラレータ: {accelerator}（{command:?}）"
        );
    }
}

#[test]
fn commands_appear_at_most_once() {
    let table = accelerators();
    for (index, (command, _)) in table.iter().enumerate() {
        let duplicated = table
            .iter()
            .skip(index + 1)
            .any(|(other, _)| other == command);
        assert!(!duplicated, "重複したコマンド: {command:?}");
    }
}

#[test]
fn accelerator_of_finds_assignments() {
    assert_eq!(accelerator_of(MenuCommand::OpenFolder), Some("Ctrl+O"));
    assert_eq!(accelerator_of(MenuCommand::CloseWorkspace), None);
}

#[test]
fn frontend_commands_are_forwarded_as_events() {
    assert_eq!(command_action(MenuCommand::CloseTab), CommandAction::Forward);
    assert_eq!(MenuCommand::CloseTab.id(), "closeTab");
}

#[test]
fn other_commands_are_not_forwarded() {
    assert_eq!(command_action(MenuCommand::CloseWorkspace), CommandAction::Ignore);
    assert_eq!(command_action(MenuCommand::OpenFolder), CommandAction::PickFolder);
    assert_eq!(command_action(MenuCommand::Exit), CommandAction::Exit);
}

#[test]
fn menu_ids_round_trip() {
    for command in [
        MenuCommand::OpenFolder,
        MenuCommand::OpenRecentFolder,
        MenuCommand::CloseWorkspace,
        MenuCommand::CloseTab,
        MenuCommand::ToggleSidebar,
        MenuCommand::ReloadDocument,
        MenuCommand::UseSystemTheme,
        MenuCommand::UseLightTheme,
        MenuCommand::UseDarkTheme,
        MenuCommand::IncreaseFontSize,
        MenuCommand::DecreaseFontSize,
        MenuCommand::ResetFontSize,
        MenuCommand::About,
        MenuCommand::Exit,
    ] {
        assert_eq!(MenuCommand::from_id(command.id()), Some(command));
    }
    assert_eq!(MenuCommand::from_id("unknown"), None);
    assert_eq!(implemented(), [MenuCommand::OpenFolder, MenuCommand::Exit]);
}
