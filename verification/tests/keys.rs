use nnd::keys::{Key, KeyEx, ModKeys};

#[test]
fn key_names() {
    assert_eq!(Key::Left.name(), "left");
    assert_eq!(Key::PageDown.name(), "pagedown");
    assert_eq!(Key::Escape.name(), "esc");
    assert_eq!(Key::F(12).name(), "F12");
    assert_eq!(Key::F(0).name(), "F0");
    assert_eq!(Key::Char('\n').name(), "enter");
    assert_eq!(Key::Char('\t').name(), "tab");
    assert_eq!(Key::Char(' ').name(), "space");
    assert_eq!(Key::Char('\\').name(), "\\");
    assert_eq!(Key::Char('q').name(), "q");
    assert_eq!(Key::Char('\x1b').name(), "\\x1b");
    assert_eq!(Key::Char('é').name(), "\\xe9");
    assert_eq!(Key::Char('\u{1F600}').name(), "\\x1f600");
    assert_eq!(Key::Unknown.name(), "unknown");
}

#[test]
fn key_ex_names() {
    assert_eq!(Key::Char('q').ctrl().name(), "C-q");
    assert_eq!(Key::Left.alt().name(), "M-left");
    assert_eq!(Key::F(3).shift().name(), "S-F3");
    assert_eq!(Key::Up.mods(ModKeys { bits: 7 }).name(), "C-M-S-up");
    assert_eq!(Key::Char('x').any_mods().name(), "?-x");
    assert_eq!(Key::Home.plain().name(), "home");
}

#[test]
fn parse_keys() {
    assert_eq!("left".parse::<Key>(), Ok(Key::Left));
    assert_eq!("x".parse::<Key>(), Ok(Key::Char('x')));
    assert_eq!("é".parse::<Key>(), Ok(Key::Char('é')));
    assert_eq!("F7".parse::<Key>(), Ok(Key::F(7)));
    assert_eq!("F+7".parse::<Key>(), Ok(Key::F(7)));
    assert_eq!("F256".parse::<Key>(), Err(()));
    assert_eq!("F".parse::<Key>(), Ok(Key::Char('F')));
    assert_eq!("Fx".parse::<Key>(), Err(()));
    assert_eq!("\\x1b".parse::<Key>(), Ok(Key::Char('\x1b')));
    assert_eq!("\\xD800".parse::<Key>(), Err(()));
    assert_eq!("\\x".parse::<Key>(), Err(()));
    assert_eq!("enter".parse::<Key>(), Ok(Key::Char('\n')));
    assert_eq!("".parse::<Key>(), Err(()));
    assert_eq!("éé".parse::<Key>(), Err(()));
    assert_eq!("lefty".parse::<Key>(), Err(()));
}

#[test]
fn parse_key_ex() {
    assert_eq!("C-q".parse::<KeyEx>(), Ok(Key::Char('q').ctrl()));
    assert_eq!("C-M-S-up".parse::<KeyEx>(), Ok(Key::Up.mods(ModKeys { bits: 7 })));
    assert_eq!("S-C-up".parse::<KeyEx>(), Ok(Key::Up.mods(ModKeys { bits: 5 })));
    assert_eq!("C-C-q".parse::<KeyEx>(), Err(()));
    assert_eq!("C-".parse::<KeyEx>(), Err(()));
    assert_eq!("C--".parse::<KeyEx>(), Ok(Key::Char('-').ctrl()));
    assert_eq!(KeyEx::from_name("M-x"), Ok(Key::Char('x').alt()));
}

#[test]
fn names_parse_back() {
    let keys = [
        Key::Char('a').plain(),
        Key::Char('\n').ctrl(),
        Key::Char('\u{7f}').alt(),
        Key::F(255).shift(),
        Key::PageUp.mods(ModKeys { bits: 6 }),
        Key::Delete.plain(),
        Key::Char(' ').ctrl(),
    ];
    for k in keys {
        assert_eq!(k.name().parse::<KeyEx>(), Ok(k));
    }
}

#[test]
fn key_predicates() {
    assert!(Key::Char('a').is_ordinary_char());
    assert!(!Key::Char('\t').is_ordinary_char());
    assert!(!Key::Char('\n').is_ordinary_char());
    assert!(!Key::Char('\r').is_ordinary_char());
    assert!(!Key::Up.is_ordinary_char());
    assert!(Key::Left.is_arrow_key());
    assert!(!Key::Home.is_arrow_key());
    let mut m = ModKeys::empty();
    assert!(m.is_empty());
    m.insert(ModKeys::ctrl());
    m.insert(ModKeys::shift());
    assert!(m.contains(ModKeys::ctrl()));
    assert!(!m.contains(ModKeys::alt()));
    assert_eq!(m.bits, 5);
    assert_eq!(ModKeys::from_bits(15), Some(ModKeys { bits: 15 }));
    assert_eq!(ModKeys::from_bits(16), None);
    assert_eq!(ModKeys::default(), ModKeys::empty());
}
