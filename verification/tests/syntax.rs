use nnd::common_ui::{Color, Modifier, Style};
use nnd::settings::Palette;
use nnd::styled_text::StyledText;
use nnd::syntax::{
    apply_to_text, can_rebuild, flatten, highlight_names, highlight_style, language_for_extension,
    language_for_injection, rebuild, rebuild_highlighted, style_with_syntax, syntax_ranges, HighlightKind,
    HighlightStep, SyntaxConfigs, SyntaxLanguage,
};

#[test]
fn highlights_rust_keyword() {
    let palette = Palette::default();
    let configs = SyntaxConfigs::new();
    let mut text = StyledText::default();
    text.chars.push_str("fn main() { let x = 1; }");
    text.close_span(palette.default);
    text.close_line();

    apply_to_text(&mut text, "main.rs", &configs, &palette);

    assert!(text.spans.iter().any(|(_, style)| style.fg == palette.code_keyword.fg));
}

#[test]
fn initializes_supported_grammars() {
    let palette = Palette::default();
    let configs = SyntaxConfigs::new();
    for (path, source) in [
        ("main.c", "int main(void) { return 1; }"),
        ("main.cpp", "class Thing { public: int value; };"),
        ("main.zig", "const x: i32 = 1;"),
        ("main.odin", "package main\nmain :: proc() {}"),
    ] {
        let mut text = StyledText::default();
        text.chars.push_str(source);
        text.close_span(palette.default);
        text.close_line();

        apply_to_text(&mut text, path, &configs, &palette);

        assert!(text.spans.iter().any(|(_, style)| style.fg != palette.default.fg), "{path}");
    }
}

#[test]
fn highlighting_keeps_lines_and_text() {
    let palette = Palette::default();
    let configs = SyntaxConfigs::new();
    let mut text = StyledText::default();
    for line in ["fn f() {", "    // hi", "}"] {
        text.push_str(line);
        text.close_span(palette.default);
        text.close_line();
    }
    apply_to_text(&mut text, "src/lib.RS", &configs, &palette);
    assert_eq!(text.num_lines(), 3);
    let lines: Vec<String> = (0..3).map(|i| text.get_line_str(i).to_string()).collect();
    assert_eq!(lines, vec!["fn f() {", "    // hi", "}"]);
    assert!(text.spans.iter().any(|(_, style)| style.fg == palette.code_comment.fg));
}

#[test]
fn unsupported_files_are_left_alone() {
    let palette = Palette::default();
    let configs = SyntaxConfigs::new();
    let mut text = StyledText::default();
    text.push_str("fn main() {}");
    text.close_span(palette.default);
    text.close_line();
    let before = (text.lines.clone(), text.spans.clone(), text.chars.clone());
    for path in ["main.py", "Makefile", "rs", ".rs"] {
        apply_to_text(&mut text, path, &configs, &palette);
        assert_eq!((text.lines.clone(), text.spans.clone(), text.chars.clone()), before, "{path}");
    }
    let mut empty = StyledText::default();
    apply_to_text(&mut empty, "a.rs", &configs, &palette);
    assert_eq!(empty.num_lines(), 0);
}

#[test]
fn languages_by_name() {
    assert_eq!(language_for_extension("rs"), Some(SyntaxLanguage::Rust));
    assert_eq!(language_for_extension("BL"), Some(SyntaxLanguage::Rust));
    assert_eq!(language_for_extension("c"), Some(SyntaxLanguage::C));
    assert_eq!(language_for_extension("H++"), Some(SyntaxLanguage::Cpp));
    assert_eq!(language_for_extension("hpp"), Some(SyntaxLanguage::Cpp));
    assert_eq!(language_for_extension("Zig"), Some(SyntaxLanguage::Zig));
    assert_eq!(language_for_extension("odin"), Some(SyntaxLanguage::Odin));
    assert_eq!(language_for_extension("py"), None);
    assert_eq!(language_for_injection("rust"), Some(SyntaxLanguage::Rust));
    assert_eq!(language_for_injection("c++"), Some(SyntaxLanguage::Cpp));
    assert_eq!(language_for_injection("Rust"), None);
    assert_eq!(language_for_injection("h"), None);
}

#[test]
fn highlight_names_and_styles() {
    let names = highlight_names();
    assert_eq!(names.len(), 30);
    assert_eq!(names[0], "attribute");
    assert_eq!(names[3], "comment.documentation");
    assert_eq!(names[29], "variable.parameter");
    assert_eq!(HighlightKind::Keyword.name(), "keyword");
    assert_eq!(HighlightKind::from_index(10), HighlightKind::Keyword);
    let p = Palette::default();
    assert_eq!(highlight_style(10, &p), p.code_keyword);
    assert_eq!(highlight_style(2, &p), p.code_comment);
    assert_eq!(highlight_style(28, &p), p.code_property);
    assert_eq!(highlight_style(30, &p), p.default);
    assert_eq!(highlight_style(1000, &p), p.default);
}

#[test]
fn syntax_style_keeps_background() {
    let base = Style { fg: Color::Rgb(1, 1, 1), bg: Color::Rgb(2, 2, 2), modifier: Modifier::bold() };
    let syn = Style { fg: Color::Rgb(9, 9, 9), bg: Color::Rgb(8, 8, 8), modifier: Modifier::italic() };
    let r = style_with_syntax(base, syn);
    assert_eq!(r, Style { fg: Color::Rgb(9, 9, 9), bg: Color::Rgb(2, 2, 2), modifier: Modifier::from_bits(0x9) });
}

fn sample() -> StyledText {
    let mut t = StyledText::default();
    t.push_str("ab");
    t.close_span(Style::default());
    t.close_line();
    t.push_str("cd");
    t.close_span(Style { fg: Color::black(), bg: Color::black(), modifier: Modifier::empty() });
    t.close_line();
    t
}

#[test]
fn flatten_joins_lines() {
    let (buf, breaks) = flatten(&sample());
    assert_eq!(buf.chars, "ab\ncd");
    assert_eq!(breaks, vec![2]);
    assert_eq!(buf.num_lines(), 1);
    assert_eq!(buf.num_spans(), 2);
    assert_eq!(buf.get_span(0).0, "ab\n");
}

#[test]
fn steps_to_ranges_and_rebuild() {
    let p = Palette::default();
    let steps = [
        HighlightStep::Source(0, 1),
        HighlightStep::Start(10),
        HighlightStep::Source(1, 4),
        HighlightStep::Start(2),
        HighlightStep::Source(4, 5),
        HighlightStep::End,
        HighlightStep::End,
        HighlightStep::End,
    ];
    let ranges = syntax_ranges(&steps, &p);
    assert_eq!(ranges, vec![(1, 4, p.code_keyword), (4, 5, p.code_comment)]);
    let (buf, breaks) = flatten(&sample());
    assert!(can_rebuild(&buf, &ranges, &breaks));
    let out = rebuild(&buf, &ranges, &breaks);
    assert_eq!(out.num_lines(), 2);
    assert_eq!(out.get_line_str(0), "ab");
    assert_eq!(out.get_line_str(1), "cd");
    let spans: Vec<(String, Style)> = (0..out.num_spans()).map(|i| (out.get_span(i).0.to_string(), out.get_span(i).1)).collect();
    let black = Style { fg: Color::black(), bg: Color::black(), modifier: Modifier::empty() };
    assert_eq!(
        spans,
        vec![
            ("a".to_string(), Style::default()),
            ("b".to_string(), style_with_syntax(Style::default(), p.code_keyword)),
            ("c".to_string(), style_with_syntax(black, p.code_keyword)),
            ("d".to_string(), style_with_syntax(black, p.code_comment)),
        ]
    );
    let again = rebuild_highlighted(&buf, &breaks, &steps, &p).unwrap();
    assert_eq!(again.chars, out.chars);
    assert!(rebuild_highlighted(&buf, &breaks, &[HighlightStep::Source(0, 5)], &p).is_none());
}

#[test]
fn rebuild_refuses_bad_input() {
    let mut t = StyledText::default();
    t.push_str("é");
    t.close_span(Style::default());
    t.close_line();
    let (buf, breaks) = flatten(&t);
    let p = Palette::default();
    assert!(!can_rebuild(&buf, &[(1, 2, p.code_keyword)], &breaks));
    assert!(!can_rebuild(&buf, &[], &[0]));
    assert!(can_rebuild(&buf, &[(0, 2, p.code_keyword)], &breaks));
}
