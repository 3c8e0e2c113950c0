use nnd::common_ui::{Color, Modifier, Style};
use nnd::settings::{get_debuginfod_urls, Palette, SessionName};

#[test]
fn session_names() {
    assert!(SessionName::Temp.is_temp());
    assert!(!SessionName::Auto.is_temp());
    assert!(SessionName::NoFiles.is_none());
    assert!(!SessionName::Temp.is_none());
    assert!(SessionName::Name("x".to_string()).is_name());
    assert!(!SessionName::Auto.is_name());
}

#[test]
fn debuginfod_urls() {
    assert_eq!(get_debuginfod_urls(true, Some("a b")), vec!["https://debuginfod.elfutils.org/".to_string()]);
    assert_eq!(get_debuginfod_urls(false, None), Vec::<String>::new());
    assert_eq!(
        get_debuginfod_urls(false, Some("  http://a.org/\thttp://b.org/\n\n x ")),
        vec!["http://a.org/".to_string(), "http://b.org/".to_string(), "x".to_string()]
    );
    assert_eq!(get_debuginfod_urls(false, Some(" \t ")), Vec::<String>::new());
    // Only ASCII whitespace separates.
    assert_eq!(get_debuginfod_urls(false, Some("a\u{a0}b")), vec!["a\u{a0}b".to_string()]);
}

#[test]
fn default_palette() {
    let p = Palette::default();
    let d = Style::default();
    assert_eq!(p.default, Style { fg: Color::Rgb(0, 0, 0), ..d });
    assert_eq!(p.error, Style { fg: Color::Rgb(0xcc, 0, 0), ..d });
    assert_eq!(p.code_keyword, Style { fg: Color::Rgb(0xb0, 0x00, 0x80), modifier: Modifier::bold(), ..d });
    assert_eq!(p.code_comment, Style { fg: Color::Rgb(0x80, 0x80, 0x80), ..d });
    assert_eq!(p.truncation_indicator.0, "…");
    assert_eq!(p.truncation_indicator.1, "…");
    assert_eq!(p.line_wrap_indicator.0, "↳");
    assert_eq!(p.line_wrap_indicator.1, "↵");
    assert_eq!(p.line_wrap_indicator.2, Style { fg: Color::Rgb(0x60, 0x60, 0x60), ..d });
}
