//! The native menu's commands and their keyboard accelerators.

use vstd::prelude::*;
use crate::text::chars_of;

verus! {

/// A command of a menu item, handled on the Rust side or forwarded to the
/// front end as an event.
#[derive(Debug, Clone, Copy, PartialEq, Eq, Structural)]
pub enum MenuCommand {
    /// Opens a folder chosen in a native dialog as workspace.
    OpenFolder,
    /// Opens a recent folder.
    OpenRecentFolder,
    /// Closes the workspace and returns to the welcome state.
    CloseWorkspace,
    /// Closes the active tab.
    CloseTab,
    /// Shows or hides the sidebar.
    ToggleSidebar,
    /// Reads the shown document again; the way back after the watcher
    /// overflowed or stopped.
    ReloadDocument,
    UseSystemTheme,
    UseLightTheme,
    UseDarkTheme,
    IncreaseFontSize,
    DecreaseFontSize,
    ResetFontSize,
    /// Shows the version and the licences of the dependencies.
    About,
    Exit,
}

/// The menu identifier of each command (its camel-case name, as the front
/// end receives it).
pub open spec fn command_id(c: MenuCommand) -> Seq<char> {
    match c {
        MenuCommand::OpenFolder => "openFolder"@,
        MenuCommand::OpenRecentFolder => "openRecentFolder"@,
        MenuCommand::CloseWorkspace => "closeWorkspace"@,
        MenuCommand::CloseTab => "closeTab"@,
        MenuCommand::ToggleSidebar => "toggleSidebar"@,
        MenuCommand::ReloadDocument => "reloadDocument"@,
        MenuCommand::UseSystemTheme => "useSystemTheme"@,
        MenuCommand::UseLightTheme => "useLightTheme"@,
        MenuCommand::UseDarkTheme => "useDarkTheme"@,
        MenuCommand::IncreaseFontSize => "increaseFontSize"@,
        MenuCommand::DecreaseFontSize => "decreaseFontSize"@,
        MenuCommand::ResetFontSize => "resetFontSize"@,
        MenuCommand::About => "about"@,
        MenuCommand::Exit => "exit"@,
    }
}

/// Every command, in menu order.
pub open spec fn all_commands() -> Seq<MenuCommand> {
    seq![
        MenuCommand::OpenFolder,
        MenuCommand::OpenRecentFolder,
        MenuCommand::CloseWorkspace,
        MenuCommand::CloseTab,
        MenuCommand::ToggleSidebar,
        MenuCommand::ReloadDocument,
        MenuCommand::UseSystemTheme,
        MenuCommand::UseLightTheme,
        MenuCommand::UseDarkTheme,
        MenuCommand::IncreaseFontSize,
        MenuCommand::DecreaseFontSize,
        MenuCommand::ResetFontSize,
        MenuCommand::About,
        MenuCommand::Exit,
    ]
}

impl MenuCommand {
    /// The menu identifier of the command.
    pub fn id(self) -> (r: &'static str)
        ensures
            r@ == command_id(self),
    {
        match self {
            MenuCommand::OpenFolder => "openFolder",
            MenuCommand::OpenRecentFolder => "openRecentFolder",
            MenuCommand::CloseWorkspace => "closeWorkspace",
            MenuCommand::CloseTab => "closeTab",
            MenuCommand::ToggleSidebar => "toggleSidebar",
            MenuCommand::ReloadDocument => "reloadDocument",
            MenuCommand::UseSystemTheme => "useSystemTheme",
            MenuCommand::UseLightTheme => "useLightTheme",
            MenuCommand::UseDarkTheme => "useDarkTheme",
            MenuCommand::IncreaseFontSize => "increaseFontSize",
            MenuCommand::DecreaseFontSize => "decreaseFontSize",
            MenuCommand::ResetFontSize => "resetFontSize",
            MenuCommand::About => "about",
            MenuCommand::Exit => "exit",
        }
    }

    /// The command with a menu identifier; `None` for items the application
    /// did not create.
    pub fn from_id(id: &str) -> (r: Option<MenuCommand>)
        ensures
            match r {
                Some(c) => command_id(c) == id@,
                None => forall|c: MenuCommand| command_id(c) != id@,
            },
    {
        let wanted = chars_of(id);
        let commands = [
            MenuCommand::OpenFolder,
            MenuCommand::OpenRecentFolder,
            MenuCommand::CloseWorkspace,
            MenuCommand::CloseTab,
            MenuCommand::ToggleSidebar,
            MenuCommand::ReloadDocument,
            MenuCommand::UseSystemTheme,
            MenuCommand::UseLightTheme,
            MenuCommand::UseDarkTheme,
            MenuCommand::IncreaseFontSize,
            MenuCommand::DecreaseFontSize,
            MenuCommand::ResetFontSize,
            MenuCommand::About,
            MenuCommand::Exit,
        ];
        assert(commands@ =~= all_commands());
        let mut k: usize = 0;
        while k < commands.len()
            invariant
                k <= commands.len(),
                commands@ == all_commands(),
                wanted@ == id@,
                forall|m: int| 0 <= m < k ==> command_id(#[trigger] all_commands()[m]) != id@,
            decreases commands.len() - k,
        {
            let candidate = commands[k];
            let name = chars_of(candidate.id());
            if crate::text::same_chars(&name, &wanted) {
                return Some(candidate);
            }
            k = k + 1;
        }
        proof {
            assert forall|c: MenuCommand| command_id(c) != id@ by {
                match c {
                    MenuCommand::OpenFolder => assert(c == all_commands()[0]),
                    MenuCommand::OpenRecentFolder => assert(c == all_commands()[1]),
                    MenuCommand::CloseWorkspace => assert(c == all_commands()[2]),
                    MenuCommand::CloseTab => assert(c == all_commands()[3]),
                    MenuCommand::ToggleSidebar => assert(c == all_commands()[4]),
                    MenuCommand::ReloadDocument => assert(c == all_commands()[5]),
                    MenuCommand::UseSystemTheme => assert(c == all_commands()[6]),
                    MenuCommand::UseLightTheme => assert(c == all_commands()[7]),
                    MenuCommand::UseDarkTheme => assert(c == all_commands()[8]),
                    MenuCommand::IncreaseFontSize => assert(c == all_commands()[9]),
                    MenuCommand::DecreaseFontSize => assert(c == all_commands()[10]),
                    MenuCommand::ResetFontSize => assert(c == all_commands()[11]),
                    MenuCommand::About => assert(c == all_commands()[12]),
                    MenuCommand::Exit => assert(c == all_commands()[13]),
                }
            }
        }
        None
    }
}

/// Whether the command is on the menu and handled. Accelerators of other
/// commands are not registered natively either.
pub open spec fn is_implemented(c: MenuCommand) -> bool {
    c == MenuCommand::OpenFolder || c == MenuCommand::Exit
}

/// The commands on the menu.
pub fn implemented() -> (r: [MenuCommand; 2])
    ensures
        forall|c: MenuCommand| is_implemented(c) <==> r@.contains(c),
{
    let r = [MenuCommand::OpenFolder, MenuCommand::Exit];
    proof {
        assert forall|c: MenuCommand| is_implemented(c) <==> r@.contains(c) by {
            if is_implemented(c) {
                if c == MenuCommand::OpenFolder {
                    assert(r@[0] == c);
                } else {
                    assert(r@[1] == c);
                }
            }
        }
    }
    r
}

/// The accelerator assignments, in Tauri's notation (`Ctrl` rather than
/// `CmdOrCtrl`: the application runs on Windows only). Font enlargement is
/// `Ctrl+Equal`, the key that carries `+` on common layouts, since a shifted
/// character is no key name of its own. Tab switching and
/// tree keys have no menu item and stay with the web view.
pub open spec fn accelerator_table() -> Seq<(MenuCommand, Seq<char>)> {
    seq![
        (MenuCommand::OpenFolder, "Ctrl+O"@),
        (MenuCommand::CloseTab, "Ctrl+W"@),
        (MenuCommand::ToggleSidebar, "Ctrl+B"@),
        (MenuCommand::ReloadDocument, "F5"@),
        (MenuCommand::IncreaseFontSize, "Ctrl+Equal"@),
        (MenuCommand::DecreaseFontSize, "Ctrl+Minus"@),
        (MenuCommand::ResetFontSize, "Ctrl+0"@),
    ]
}

/// The commands with an accelerator and their assignments.
pub fn accelerators() -> (r: [(MenuCommand, &'static str); 7])
    ensures
        r@.len() == accelerator_table().len(),
        forall|k: int| 0 <= k < 7 ==> (#[trigger] r@[k]).0 == accelerator_table()[k].0 && r@[k].1@ == accelerator_table()[k].1,
{
    let r = [
        (MenuCommand::OpenFolder, "Ctrl+O"),
        (MenuCommand::CloseTab, "Ctrl+W"),
        (MenuCommand::ToggleSidebar, "Ctrl+B"),
        (MenuCommand::ReloadDocument, "F5"),
        (MenuCommand::IncreaseFontSize, "Ctrl+Equal"),
        (MenuCommand::DecreaseFontSize, "Ctrl+Minus"),
        (MenuCommand::ResetFontSize, "Ctrl+0"),
    ];
    r
}

/// The accelerator of a command, from the first assignment for it.
pub open spec fn accelerator_text(c: MenuCommand) -> Option<Seq<char>> {
    let t = accelerator_table();
    if t[0].0 == c {
        Some(t[0].1)
    } else if t[1].0 == c {
        Some(t[1].1)
    } else if t[2].0 == c {
        Some(t[2].1)
    } else if t[3].0 == c {
        Some(t[3].1)
    } else if t[4].0 == c {
        Some(t[4].1)
    } else if t[5].0 == c {
        Some(t[5].1)
    } else if t[6].0 == c {
        Some(t[6].1)
    } else {
        None
    }
}

/// The accelerator assigned to a command, or `None`.
pub fn accelerator_of(command: MenuCommand) -> (r: Option<&'static str>)
    ensures
        match r {
            Some(a) => accelerator_text(command) == Some(a@),
            None => accelerator_text(command) is None,
        },
{
    let table = accelerators();
    let mut k: usize = 0;
    while k < 7
        invariant
            k <= 7,
            forall|j: int| 0 <= j < 7 ==> (#[trigger] table@[j]).0 == accelerator_table()[j].0 && table@[j].1@
                == accelerator_table()[j].1,
            forall|j: int| 0 <= j < k ==> accelerator_table()[j].0 != command,
        decreases 7 - k,
    {
        if table[k].0 == command {
            assert(table@[k as int].0 == accelerator_table()[k as int].0);
            return Some(table[k].1);
        }
        assert(table@[k as int].0 == accelerator_table()[k as int].0);
        k = k + 1;
    }
    None
}

/// No key is assigned to two commands, and no command has two keys.
pub proof fn accelerators_are_one_to_one()
    ensures
        forall|i: int, j: int| 0 <= i < j < accelerator_table().len() ==> accelerator_table()[i].1 != accelerator_table()[j].1,
        forall|i: int, j: int| 0 <= i < j < accelerator_table().len() ==> accelerator_table()[i].0 != accelerator_table()[j].0,
{
    reveal_strlit("Ctrl+O");
    reveal_strlit("Ctrl+W");
    reveal_strlit("Ctrl+B");
    reveal_strlit("F5");
    reveal_strlit("Ctrl+Equal");
    reveal_strlit("Ctrl+Minus");
    reveal_strlit("Ctrl+0");
    let t = accelerator_table();
    assert forall|i: int, j: int| 0 <= i < j < t.len() implies t[i].1 != t[j].1 by {
        if t[i].1 == t[j].1 {
            assert(t[i].1.len() == t[j].1.len());
            assert(t[i].1[5] == t[j].1[5] || t[i].1.len() <= 5);
            assert(t[i].1[0] == t[j].1[0]);
        }
    }
}

/// Distinct commands have distinct menu identifiers.
pub proof fn command_ids_are_distinct(a: MenuCommand, b: MenuCommand)
    requires
        a != b,
    ensures
        command_id(a) != command_id(b),
{
    reveal_strlit("openFolder");
    reveal_strlit("openRecentFolder");
    reveal_strlit("closeWorkspace");
    reveal_strlit("closeTab");
    reveal_strlit("toggleSidebar");
    reveal_strlit("reloadDocument");
    reveal_strlit("useSystemTheme");
    reveal_strlit("useLightTheme");
    reveal_strlit("useDarkTheme");
    reveal_strlit("increaseFontSize");
    reveal_strlit("decreaseFontSize");
    reveal_strlit("resetFontSize");
    reveal_strlit("about");
    reveal_strlit("exit");
    if command_id(a) == command_id(b) {
        let x = command_id(a);
        let y = command_id(b);
        assert(x.len() == y.len());
        assert(x[0] == y[0]);
        assert(x.len() > 3 ==> x[3] == y[3]);
        assert(x.len() > 4 ==> x[4] == y[4]);
        assert(x.len() > 5 ==> x[5] == y[5]);
        assert(x.len() > 7 ==> x[7] == y[7]);
    }
}

/// What choosing a menu command leads to.
#[derive(Debug, Clone, Copy, PartialEq, Eq, Structural)]
pub enum CommandAction {
    /// Pick a folder in a native dialog and open it as workspace.
    PickFolder,
    /// End the application.
    Exit,
    /// Send the command to the front end as an event.
    Forward,
    /// Nothing yet.
    Ignore,
}

/// The action of each command: opening a folder and exiting are handled on
/// the Rust side, closing a tab by the front end; the others do nothing yet.
pub open spec fn action_of(c: MenuCommand) -> CommandAction {
    match c {
        MenuCommand::OpenFolder => CommandAction::PickFolder,
        MenuCommand::Exit => CommandAction::Exit,
        MenuCommand::CloseTab => CommandAction::Forward,
        _ => CommandAction::Ignore,
    }
}

/// Decides what a chosen menu command leads to.
pub fn command_action(command: MenuCommand) -> (r: CommandAction)
    ensures
        r == action_of(command),
{
    match command {
        MenuCommand::OpenFolder => CommandAction::PickFolder,
        MenuCommand::Exit => CommandAction::Exit,
        MenuCommand::CloseTab => CommandAction::Forward,
        _ => CommandAction::Ignore,
    }
}

/// A command handled on the Rust side is on the menu.
pub proof fn handled_commands_are_on_the_menu(c: MenuCommand)
    ensures
        action_of(c) == CommandAction::PickFolder || action_of(c) == CommandAction::Exit ==> is_implemented(c),
{
}

} // verus!
