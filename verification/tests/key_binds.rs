use nnd::key_binds::{ConfigError, KeyAction, KeyBinds, KeyMap};
use nnd::keys::{Key, KeyEx, ModKeys};

#[test]
fn unbind() {
    let mut line = 0usize;
    // Unbind removes the action's default keys.
    let k = KeyBinds::parse_config("Find: unbind", &mut line).unwrap();
    assert_eq!(k.normal.action_to_key_name(KeyAction::Find), "<unbound>");
    assert!(k.normal.actions_to_keys(&[KeyAction::Find]).is_empty());
    assert!(!k.normal.key_to_action.iter().any(|(_, a)| *a == KeyAction::Find));
    // Reassigning another action's default key, with the help of unbind.
    let k = KeyBinds::parse_config("Find: s\nStepIntoLine: unbind", &mut line).unwrap();
    assert_eq!(k.normal.key_action("s".parse::<KeyEx>().unwrap()), Some(KeyAction::Find));
    assert_eq!(k.normal.action_to_key_name(KeyAction::StepIntoLine), "<unbound>");
    // Unrelated defaults are still merged in.
    assert_eq!(k.normal.action_to_key_name(KeyAction::Quit), "C-q");
}

#[test]
fn empty_config_gives_defaults() {
    let mut line = 7usize;
    let k = KeyBinds::parse_config("", &mut line).unwrap();
    assert_eq!(line, 7);
    assert_eq!(k, KeyBinds::default());
    assert_eq!(k.vscroll_sensitivity, 4);
    assert_eq!(k.hscroll_sensitivity, 20);
}

#[test]
fn config_errors_and_line_numbers() {
    let mut line = 0usize;
    assert_eq!(KeyBinds::parse_config("# comment\n[keys\n", &mut line), Err(ConfigError::UnclosedBracket));
    assert_eq!(line, 2);
    assert_eq!(
        KeyBinds::parse_config("[colors]", &mut line),
        Err(ConfigError::UnknownSection("colors".to_string()))
    );
    assert_eq!(line, 1);
    assert_eq!(KeyBinds::parse_config("Find C-f", &mut line), Err(ConfigError::NoColon));
    assert_eq!(
        KeyBinds::parse_config("Fnd: C-f", &mut line),
        Err(ConfigError::UnknownAction("Fnd".to_string()))
    );
    assert_eq!(
        KeyBinds::parse_config("Find: C-C-f", &mut line),
        Err(ConfigError::BadKeyName("C-C-f".to_string()))
    );
    assert_eq!(KeyBinds::parse_config("Find: C-f x", &mut line), Err(ConfigError::ExtraTokens(11)));
    assert_eq!(
        KeyBinds::parse_config("[settings]\nvertical_scroll_sensitivity: x", &mut line),
        Err(ConfigError::EmptyNumber)
    );
    assert_eq!(line, 2);
    assert_eq!(
        KeyBinds::parse_config("[settings]\nvertical_scroll_sensitivity: 99999999999999999999", &mut line),
        Err(ConfigError::NumberTooLarge)
    );
    assert_eq!(
        KeyBinds::parse_config("[settings]\nscroll: 3", &mut line),
        Err(ConfigError::UnknownSetting("scroll".to_string()))
    );
    let f = Key::Char('f').ctrl();
    assert_eq!(
        KeyBinds::parse_config("Find: C-f\nOpen: C-f", &mut line),
        Err(ConfigError::KeyAssignedTwice(f, KeyAction::Find, KeyAction::Open))
    );
    // 'q' with ctrl is the default key of Quit, which keeps its defaults.
    let q = Key::Char('q').ctrl();
    assert_eq!(
        KeyBinds::parse_config("Find: C-q", &mut line),
        Err(ConfigError::ConflictsWithDefault(q, KeyAction::Find, KeyAction::Quit))
    );
}

#[test]
fn settings_and_comments() {
    let mut line = 0usize;
    let text = "  # comment\n[settings] # the settings\nvertical_scroll_sensitivity: 7 # lines\r\nhorizontal_scroll_sensitivity:12\n[text]\nPaste: C-p\n";
    let k = KeyBinds::parse_config(text, &mut line).unwrap();
    assert_eq!(line, 6);
    assert_eq!(k.vscroll_sensitivity, 7);
    assert_eq!(k.hscroll_sensitivity, 12);
    let cp = Key::Char('p').ctrl();
    assert_eq!(k.text_input.key_action(cp), Some(KeyAction::Paste));
    // Paste's default keys (C-y, C-v) are replaced in the text section.
    assert_eq!(k.text_input.key_action(Key::Char('y').ctrl()), None);
    assert_eq!(k.text_input.actions_to_keys(&[KeyAction::Paste]), vec![cp]);
    // The normal section keeps its defaults.
    assert_eq!(k.normal.key_action(Key::Char('v').ctrl()), Some(KeyAction::PageDown));
}

#[test]
fn keymap_orders_keys_as_listed() {
    let b = KeyBinds::default();
    assert_eq!(
        b.normal.actions_to_keys(&[KeyAction::Suspend, KeyAction::Help]),
        vec![
            Key::Char('p').plain(),
            Key::Char('c').ctrl(),
            Key::Char('?').plain(),
            Key::Char('h').plain()
        ]
    );
    assert_eq!(b.normal.action_to_key_name(KeyAction::NextMatch), "M-g");
    assert_eq!(b.normal.action_to_key_name(KeyAction::PreviousMatch), "M-G");
    assert_eq!(b.normal.action_to_key_name(KeyAction::Undo), "<unbound>");
    assert_eq!(b.text_input.action_to_key_name(KeyAction::Undo), "C-7");
    assert_eq!(KeyAction::Find.name(), "Find");
    assert_eq!(KeyAction::from_index(0), KeyAction::Quit);
    assert_eq!(ModKeys::ctrl().bits, 4);
}

#[test]
fn example_config_lists_defaults() {
    let mut out = String::new();
    KeyBinds::write_config_example(&mut out, "/a/keys", "/a/keys.example", "/a/keys.err", true);
    assert!(out.starts_with("# Example key bindings configuration.\n"));
    assert!(out.contains("# The real config file should be placed at: /a/keys\n"));
    assert!(out.contains("# You may `cp /a/keys.example /a/keys` and edit /a/keys\n"));
    assert!(out.contains("will be created at: /a/keys.err\n"));
    assert!(out.contains("\n[keys]\n# Quit: C-q\n# Run: r\n"));
    assert!(out.contains("# Suspend: p\n# Suspend: C-c\n"));
    assert!(out.contains("# StepOverLine: n\n"));
    assert!(!out.contains("# Undo: unbind"));
    assert!(out.contains("\n[text]\n# Undo: C-7\n# Redo: M-_\n# Copy: C-c\n# Paste: C-y\n# Paste: C-v\n"));
    assert!(out.ends_with("[settings]\n# vertical_scroll_sensitivity: 4\n# horizontal_scroll_sensitivity: 20\n"));
    // The example reads back as the defaults when uncommented.
    let mut plain = String::new();
    KeyBinds::write_config_example(&mut plain, "a", "b", "c", false);
    let mut line = 0usize;
    let text: String = plain
        .lines()
        .filter(|l| !l.starts_with('#'))
        .map(|l| format!("{}\n", l))
        .collect();
    let k = KeyBinds::parse_config(&text, &mut line).unwrap();
    assert_eq!(k.normal.actions_to_keys(&[KeyAction::Quit, KeyAction::Find]), vec![Key::Char('q').ctrl(), Key::Char('/').plain()]);
}

#[test]
fn keymap_set_and_add_keys() {
    let a = Key::Char('a').plain();
    let b = Key::Char('b').ctrl();
    let mut m = KeyMap::new(&[(a, KeyAction::Find), (b, KeyAction::Open)]);
    assert_eq!(m.key_action(a), Some(KeyAction::Find));
    m.set_key(a, KeyAction::Quit);
    assert_eq!(m.key_action(a), Some(KeyAction::Quit));
    assert_eq!(m.key_action(b), Some(KeyAction::Open));
    assert_eq!(m.key_action(Key::Up.plain()), None);
    m.add_key(KeyAction::Find, b);
    m.add_key(KeyAction::Help, a);
    assert_eq!(m.action_keys(KeyAction::Find), Some(&vec![a, b]));
    assert_eq!(m.action_keys(KeyAction::Help), Some(&vec![a]));
    assert_eq!(m.action_keys(KeyAction::Open), Some(&vec![b]));
    m.add_entry(KeyAction::Cut);
    assert_eq!(m.action_keys(KeyAction::Cut), Some(&vec![]));
    assert_eq!(m.action_to_key_name(KeyAction::Cut), "<unbound>");
    assert_eq!(m.action_keys(KeyAction::Paste), None);
    let e = KeyMap::empty();
    assert_eq!(e.key_action(a), None);
    // Maps with the same contents are equal whatever their order.
    let x = KeyMap::new(&[(a, KeyAction::Find), (b, KeyAction::Open)]);
    let y = KeyMap::new(&[(b, KeyAction::Open), (a, KeyAction::Find)]);
    assert_eq!(x, y);
    assert_ne!(x, KeyMap::new(&[(a, KeyAction::Find)]));
}

#[test]
fn section_keys_follow_the_config() {
    let mut line = 0usize;
    let k = KeyBinds::parse_config("[keys]\nFind: C-f\nFind: F5\nOpen: unbind\n[text]\nUndo: C-u", &mut line).unwrap();
    assert_eq!(line, 6);
    assert_eq!(k.normal.actions_to_keys(&[KeyAction::Find]), vec![Key::Char('f').ctrl(), Key::F(5).plain()]);
    assert_eq!(k.normal.key_action(Key::Char('/').plain()), None);
    assert!(k.normal.actions_to_keys(&[KeyAction::Open]).is_empty());
    assert_eq!(k.normal.actions_to_keys(&[KeyAction::Help]), vec![Key::Char('?').plain(), Key::Char('h').plain()]);
    assert_eq!(k.text_input.actions_to_keys(&[KeyAction::Undo]), vec![Key::Char('u').ctrl()]);
    assert_eq!(k.text_input.actions_to_keys(&[KeyAction::Redo]), vec![Key::Char('_').alt()]);
    let kf = Key::F(5).plain();
    assert_eq!(
        KeyBinds::parse_config("Find: F5\nHelp: S-F3\nOpen: F5", &mut line),
        Err(ConfigError::KeyAssignedTwice(kf, KeyAction::Find, KeyAction::Open))
    );
    assert_eq!(line, 3);
}

#[test]
fn config_error_messages() {
    let q = Key::Char('q').ctrl();
    let cases = [
        (ConfigError::UnclosedBracket, "unclosed '['"),
        (ConfigError::UnknownSection("x y".to_string()), "unknown section name: x y"),
        (ConfigError::NoColon, "no ':'"),
        (ConfigError::EmptyNumber, "bad number: cannot parse integer from empty string"),
        (ConfigError::NumberTooLarge, "bad number: number too large to fit in target type"),
        (ConfigError::UnknownSetting("s".to_string()), "unknown setting: 's'"),
        (ConfigError::UnknownAction("Fnd".to_string()), "unknown action: 'Fnd'"),
        (
            ConfigError::BadKeyName("C-C-f".to_string()),
            "bad key name: 'C-C-f' (use nnd --echo-input to find the exact key name to use)",
        ),
        (ConfigError::ExtraTokens(120), "unexpected extra tokens starting at column 120"),
        (
            ConfigError::KeyAssignedTwice(q, KeyAction::Find, KeyAction::Open),
            "key C-q is assigned to multiple actions: Find and Open",
        ),
        (
            ConfigError::ConflictsWithDefault(q, KeyAction::Find, KeyAction::Quit),
            "key C-q assigned to action Find conflicts with default key binding for Quit",
        ),
    ];
    for (e, text) in cases {
        assert_eq!(e.message(), text);
    }
}

#[test]
fn example_config_reads_back_as_defaults() {
    for comment_out in [true, false] {
        let mut out = String::new();
        KeyBinds::write_config_example(&mut out, "/home/u/.config/nnd/keys", "/home/u/.config/nnd/keys.example", "/tmp/keys.err", comment_out);
        let mut line = 0usize;
        let k = KeyBinds::parse_config(&out, &mut line).unwrap();
        assert!(k == KeyBinds::default());
        assert_eq!(line, out.lines().count());
        assert_eq!(k.vscroll_sensitivity, 4);
        assert_eq!(k.hscroll_sensitivity, 20);
    }
}

#[test]
fn parsed_maps_agree() {
    let mut line = 0usize;
    let k = KeyBinds::parse_config("Find: s\nFind: C-f\nStepIntoLine: unbind\n[text]\nPaste: C-p", &mut line).unwrap();
    for map in [&k.normal, &k.text_input] {
        for (key, action) in map.key_to_action.iter() {
            assert!(map.action_keys(*action).unwrap().contains(key));
        }
        for (action, keys) in map.action_to_keys.iter() {
            for key in keys.iter() {
                assert_eq!(map.key_action(*key), Some(*action));
            }
        }
    }
    assert_eq!(k.normal.action_keys(KeyAction::Find).unwrap(), &vec![Key::Char('s').plain(), Key::Char('f').ctrl()]);
}
