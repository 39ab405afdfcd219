use md_peruse::menu::{accelerators, MenuCommand};
use md_peruse::webview_keys::{parse, route, Chord, KeyPress, KeyRoute};

fn key(virtual_key: u16) -> KeyPress {
    KeyPress {
        system: false,
        virtual_key,
        ctrl: false,
        shift: false,
        alt: false,
    }
}

#[test]
fn keys_are_routed() {
    let cases = [
        (
            "Ctrl+O",
            KeyPress {
                ctrl: true,
                ..key(0x4F)
            },
            KeyRoute::Command(MenuCommand::OpenFolder),
        ),
        (
            "Ctrl+Shift+O",
            KeyPress {
                ctrl: true,
                shift: true,
                ..key(0x4F)
            },
            KeyRoute::Page,
        ),
        ("O", key(0x4F), KeyRoute::Page),
        (
            "Ctrl+W",
            KeyPress {
                ctrl: true,
                ..key(0x57)
            },
            KeyRoute::Page,
        ),
        ("F5", key(0x74), KeyRoute::Page),
        (
            "Alt+F",
            KeyPress {
                system: true,
                alt: true,
                ..key(0x46)
            },
            KeyRoute::MenuAccessKey(u16::from(b'f')),
        ),
        (
            "Alt+1",
            KeyPress {
                system: true,
                alt: true,
                ..key(0x31)
            },
            KeyRoute::MenuAccessKey(u16::from(b'1')),
        ),
        (
            "Alt+Left",
            KeyPress {
                system: true,
                alt: true,
                ..key(0x25)
            },
            KeyRoute::Page,
        ),
        (
            "Alt+Right",
            KeyPress {
                system: true,
                alt: true,
                ..key(0x27)
            },
            KeyRoute::Page,
        ),
        (
            "Ctrl+Alt+F",
            KeyPress {
                system: true,
                ctrl: true,
                alt: true,
                ..key(0x46)
            },
            KeyRoute::Page,
        ),
        (
            "Ctrl+F",
            KeyPress {
                ctrl: true,
                ..key(0x46)
            },
            KeyRoute::Page,
        ),
    ];
    for (name, input, expected) in cases {
        assert_eq!(route(input), expected, "{name}");
    }
}

#[test]
fn accelerator_notation_is_parsed() {
    let chord = |ctrl, shift, alt, virtual_key| {
        Some(Chord {
            ctrl,
            shift,
            alt,
            virtual_key,
        })
    };
    let cases = [
        ("Ctrl+O", chord(true, false, false, 0x4F)),
        ("Ctrl+0", chord(true, false, false, 0x30)),
        ("Ctrl+Shift+Alt+B", chord(true, true, true, 0x42)),
        ("F5", chord(false, false, false, 0x74)),
        ("F24", chord(false, false, false, 0x87)),
        ("Ctrl+Equal", chord(true, false, false, 0xBB)),
        ("Ctrl+Minus", chord(true, false, false, 0xBD)),
        ("F25", None),
        ("F0", None),
        ("Ctrl+Plus", None),
        ("Meta+O", None),
        ("Ctrl+o", None),
    ];
    for (notation, expected) in cases {
        assert_eq!(parse(notation), expected, "{notation}");
    }
}

#[test]
fn every_accelerator_is_routable() {
    for (command, notation) in accelerators() {
        let chord = parse(notation)
            .unwrap_or_else(|| panic!("照合できない表記: {notation}（{command:?}）"));
        assert_eq!(chord.ctrl, notation.contains("Ctrl+"), "{notation}");
        assert_eq!(chord.shift, notation.contains("Shift+"), "{notation}");
        assert_eq!(chord.alt, notation.contains("Alt+"), "{notation}");
    }
    assert_eq!(
        route(KeyPress {
            ctrl: true,
            ..key(0xBB)
        }),
        KeyRoute::Page
    );
}
