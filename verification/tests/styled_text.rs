use nnd::common_ui::{Color, Modifier, Style, StyleAdjustment};
use nnd::styled_text::StyledText;
use nnd::text_width::{str_prefix_with_width, str_suffix_with_width, str_width};

fn st(r: u8) -> Style {
    Style { fg: Color::Rgb(r, 0, 0), bg: Color::black(), modifier: Modifier::empty() }
}

fn line_strs(t: &StyledText, lines: std::ops::Range<usize>) -> Vec<String> {
    lines.map(|i| t.get_line_str(i).to_string()).collect()
}

fn spans_of_line(t: &StyledText, i: usize) -> Vec<(String, Style)> {
    t.get_line(i).map(|s| {
        let (text, style) = t.get_span(s);
        (text.to_string(), style)
    }).collect()
}

#[test]
fn build_lines_and_spans() {
    let mut t = StyledText::default();
    assert_eq!(t.num_lines(), 0);
    assert_eq!(t.num_spans(), 0);
    t.push_str("ab");
    t.close_span(st(1));
    t.close_span(st(2)); // empty: not added
    t.push_str("cd");
    t.close_span(st(3));
    assert_eq!(t.close_line(), 0);
    t.close_line();
    assert_eq!(t.num_lines(), 2);
    assert_eq!(t.num_spans(), 2);
    assert_eq!(t.get_span(1), ("cd", st(3)));
    assert_eq!(t.get_line(0), 0..2);
    assert_eq!(t.get_line(1), 2..2);
    assert_eq!(t.get_line_str(0), "abcd");
    assert_eq!(t.get_line_str(1), "");
    assert_eq!(t.get_line_char_range(0), 0..4);
    assert_eq!(t.byte_len(), 4);
    t.push_str("xyz");
    assert_eq!(t.unclosed_line_width(), 3);
    t.clear();
    assert_eq!((t.num_lines(), t.num_spans(), t.byte_len()), (0, 0, 0));
}

#[test]
fn widest_line_and_unclose() {
    let mut t = StyledText::default();
    for s in ["a", "中文", "abc"] {
        t.push_str(s);
        t.close_span(st(0));
        t.close_line();
    }
    assert_eq!(t.widest_line(0..3), 4);
    assert_eq!(t.widest_line(2..3), 3);
    assert_eq!(t.widest_line(1..1), 0);
    t.unclose_line();
    assert_eq!(t.num_lines(), 2);
    t.ensure_padded();
    assert_eq!(t.num_lines(), 2);
    t.append_repeated("-=", 3, st(9));
    assert_eq!(t.get_span(t.num_spans() - 1), ("-=-=-=", st(9)));
}

#[test]
fn import_between_texts() {
    let mut a = StyledText::default();
    a.push_str("hello");
    a.close_span(st(1));
    a.push_str(" world");
    a.close_span(st(2));
    a.close_line();
    a.push_str("second");
    a.close_span(st(3));
    a.close_line();

    let mut b = StyledText::default();
    b.push_str(">");
    b.close_span(st(7));
    b.close_line();
    let r = b.import_lines(&a, 0..2);
    assert_eq!(r, 1..3);
    assert_eq!(line_strs(&b, 0..3), vec![">", "hello world", "second"]);
    assert_eq!(spans_of_line(&b, 1), vec![("hello".to_string(), st(1)), (" world".to_string(), st(2))]);

    let mut c = StyledText::default();
    c.import_spans(&a, 1..3);
    c.close_line();
    assert_eq!(line_strs(&c, 0..1), vec![" worldsecond"]);

    let mut d = StyledText::default();
    let r = d.import_substring(&a, 0..2, 3..8);
    assert_eq!(r, 0..2);
    d.close_line();
    assert_eq!(spans_of_line(&d, 0), vec![("lo".to_string(), st(1)), (" wo".to_string(), st(2))]);
}

#[test]
fn adjustments_split_spans() {
    let mut a = StyledText::default();
    let base = Style { fg: Color::Rgb(100, 100, 100), bg: Color::Rgb(250, 0, 0), modifier: Modifier::bold() };
    a.push_str("abcdef");
    a.close_span(base);
    a.close_line();
    let adj = StyleAdjustment {
        add_fg: (10, -200, 0),
        add_bg: (10, 0, 0),
        add_modifier: Modifier::underlined(),
        remove_modifier: Modifier::bold(),
    };
    let mut out = StyledText::default();
    let line = out.import_line_with_adjustments(&a, 0, &[(1..3, adj)]);
    assert_eq!(line, 0);
    let adjusted = Style { fg: Color::Rgb(110, 0, 100), bg: Color::Rgb(255, 0, 0), modifier: Modifier::underlined() };
    assert_eq!(adj.apply(base), adjusted);
    assert_eq!(
        spans_of_line(&out, 0),
        vec![("a".to_string(), base), ("bc".to_string(), adjusted), ("def".to_string(), base)]
    );
    // Ranges that cut a character are widened to the next character boundary.
    let mut u = StyledText::default();
    u.push_str("é!");
    u.close_span(base);
    u.close_line();
    let mut out = StyledText::default();
    out.import_line_with_adjustments(&u, 0, &[(0..1, adj)]);
    assert_eq!(spans_of_line(&out, 0), vec![("é".to_string(), adjusted), ("!".to_string(), base)]);

    let mut t = StyledText::default();
    t.push_str("x");
    t.close_span(base);
    t.adjust_spans_style(0..1, adj);
    assert_eq!(t.get_span(0), ("x", adjusted));
}

#[test]
fn overlapping_adjustments_apply_in_order() {
    let base = Style { fg: Color::Rgb(100, 100, 100), bg: Color::Rgb(0, 0, 0), modifier: Modifier::empty() };
    let mut a = StyledText::default();
    a.push_str("abc");
    a.close_span(base);
    a.push_str("def");
    a.close_span(st(7));
    a.close_line();
    let first = StyleAdjustment { add_fg: (10, 0, 0), add_bg: (0, 0, 0), add_modifier: Modifier::bold(), remove_modifier: Modifier::empty() };
    let second = StyleAdjustment { add_fg: (0, 5, 0), add_bg: (1, 1, 1), add_modifier: Modifier::empty(), remove_modifier: Modifier::bold() };
    let mut out = StyledText::default();
    out.push_str(">");
    let line = out.import_line_with_adjustments(&a, 0, &[(1..4, first), (2..5, second)]);
    assert_eq!(line, 0);
    assert_eq!(out.get_line_str(0), ">abcdef");
    assert_eq!(
        spans_of_line(&out, 0),
        vec![
            (">a".to_string(), base),
            ("b".to_string(), first.apply(base)),
            ("c".to_string(), second.apply(first.apply(base))),
            ("d".to_string(), second.apply(first.apply(st(7)))),
            ("e".to_string(), second.apply(st(7))),
            ("f".to_string(), st(7)),
        ]
    );
    assert_eq!(second.apply(first.apply(base)).modifier, Modifier::empty());
    assert_eq!(second.apply(first.apply(base)).fg, Color::Rgb(110, 105, 100));
}

#[test]
fn style_adjustment_combine() {
    let a = StyleAdjustment { add_fg: (30000, 0, -5), add_bg: (0, 0, 0), add_modifier: Modifier::bold(), remove_modifier: Modifier::empty() };
    let b = StyleAdjustment { add_fg: (30000, 1, -5), add_bg: (1, 2, 3), add_modifier: Modifier::dim(), remove_modifier: Modifier::italic() };
    let c = a.combine(b);
    assert_eq!(c.add_fg, (32767, 1, -10));
    assert_eq!(c.add_bg, (1, 2, 3));
    assert_eq!(c.add_modifier.bits, 0x5);
    assert_eq!(c.remove_modifier.bits, 0x8);
    let mut d = a;
    d.update(b);
    assert_eq!(d.add_fg, c.add_fg);
    let z = StyleAdjustment::default();
    assert_eq!(z.apply(st(5)), st(5));
    let s = Style { fg: Color::Palette8(3), bg: Color::TerminalDefault, modifier: Modifier::empty() };
    assert_eq!(a.apply(s).fg, Color::Palette8(3));
    assert_eq!(st(5).flip().flip(), st(5));
    assert_eq!(st(5).flip().fg, Color::black());
    assert_eq!(st(5).add_modifier(Modifier::italic()).modifier.bits, 0x8);
}

#[test]
fn split_by_newline() {
    let mut t = StyledText::default();
    t.push_str("ab\ncd");
    t.close_span(st(4));
    t.push_str("e\n");
    t.close_span(st(5));
    t.close_line();
    let mut out = Vec::new();
    let r = t.split_by_newline_character(0, Some(&mut out));
    assert_eq!(r, 1..4);
    assert_eq!(line_strs(&t, 1..4), vec!["ab ", "cde ", ""]);
    assert_eq!(out, vec![0..3, 3..7, 7..7]);
    assert_eq!(spans_of_line(&t, 2), vec![("cd".to_string(), st(4)), ("e ".to_string(), st(5))]);
}

#[test]
fn line_wrap_with_indicators() {
    let wrap = ("↳".to_string(), "\\".to_string(), st(8));
    let trunc = ("".to_string(), "…".to_string(), st(9));
    let mut t = StyledText::default();
    t.push_str("abc");
    t.close_span(st(1));
    t.push_str("defgh");
    t.close_span(st(2));
    t.close_line();
    t.close_line();
    let mut out = Vec::new();
    let r = t.line_wrap(0..2, 5, 10, &wrap, &trunc, Some(&mut out));
    assert_eq!(r, 2..5);
    assert_eq!(line_strs(&t, 2..5), vec!["abcd\\", "↳efgh", ""]);
    assert_eq!(out, vec![(0, 0, 0..4), (1, 0, 4..8), (0, 1, 0..0)]);
    assert_eq!(
        spans_of_line(&t, 2),
        vec![("abc".to_string(), st(1)), ("d".to_string(), st(2)), ("\\".to_string(), st(8))]
    );

    // With room for one line only, the line is cut and ends with the truncation indicator.
    let r = t.line_wrap(0..2, 5, 1, &wrap, &trunc, None);
    assert_eq!(line_strs(&t, r), vec!["abcd…"]);

    // A line too narrow for even one cluster still gets one.
    let r = t.line_wrap(0..1, 0, 10, &wrap, &trunc, None);
    assert_eq!(r.len(), 8);
    assert_eq!(t.get_line_str(r.start), "a\\");
}

#[test]
fn text_widths() {
    assert_eq!(str_width("abc"), 3);
    assert_eq!(str_width("中文"), 4);
    assert_eq!(str_width("e\u{301}"), 1);
    assert_eq!(str_width(""), 0);
    assert_eq!(str_prefix_with_width("ab中c", 3), (2, 2, 3, 2));
    assert_eq!(str_prefix_with_width("ab中c", 4), (5, 4, 1, 1));
    assert_eq!(str_prefix_with_width("abc", 10), (3, 3, 0, 0));
    assert_eq!(str_suffix_with_width("ab中c", 2), (5, 1));
    assert_eq!(str_suffix_with_width("ab中c", 3), (2, 3));
    assert_eq!(str_suffix_with_width("abc", 10), (0, 3));
}

#[test]
fn combining_adjustments_in_either_order() {
    let a = StyleAdjustment { add_fg: (-30000, 5, 0), add_bg: (1, 1, 1), add_modifier: Modifier::bold(), remove_modifier: Modifier::dim() };
    let b = StyleAdjustment { add_fg: (-30000, -5, 7), add_bg: (0, 2, 0), add_modifier: Modifier::invert(), remove_modifier: Modifier::empty() };
    let (x, y) = (a.combine(b), b.combine(a));
    assert_eq!((x.add_fg, x.add_bg, x.add_modifier, x.remove_modifier), (y.add_fg, y.add_bg, y.add_modifier, y.remove_modifier));
    assert_eq!(x.add_fg, (-32768, 0, 7));
}

#[test]
fn line_wrap_line_count_limits() {
    let wrap = ("↳".to_string(), "\\".to_string(), st(8));
    let trunc = ("".to_string(), "…".to_string(), st(9));
    let mut t = StyledText::default();
    t.push_str("abcdefghij");
    t.close_span(st(1));
    t.close_line();
    t.push_str("xyz");
    t.close_span(st(1));
    t.close_line();
    // No limit given still makes one line.
    let r = t.line_wrap(0..2, 3, 0, &wrap, &trunc, None);
    assert_eq!(r.len(), 1);
    let r = t.line_wrap(0..2, 3, 4, &wrap, &trunc, None);
    assert_eq!(r.len(), 4);
    let r = t.line_wrap(0..2, 3, 100, &wrap, &trunc, None);
    assert!(r.len() >= 2 && r.len() <= 100);
    let r = t.line_wrap(1..1, 3, 100, &wrap, &trunc, None);
    assert_eq!(r.len(), 0);
}

#[test]
fn ascii_widths_are_exact() {
    assert_eq!(str_width("hello, world"), 12);
    assert_eq!(str_prefix_with_width("hello", 3), (3, 3, 1, 1));
    assert_eq!(str_prefix_with_width("hello", 9), (5, 5, 0, 0));
    assert_eq!(str_suffix_with_width("hello", 3), (2, 3));
    assert_eq!(str_suffix_with_width("hello", 7), (0, 5));
}

#[test]
fn line_wrap_reports_one_entry_per_line() {
    let wrap = (">".to_string(), "\\".to_string(), st(8));
    let trunc = ("".to_string(), "~".to_string(), st(9));
    let mut t = StyledText::default();
    t.push_str("abcdefghij");
    t.close_span(st(1));
    t.close_line();
    t.close_line();
    t.push_str("xy");
    t.close_span(st(2));
    t.close_line();
    let mut out = vec![(7isize, 7usize, 0usize..0usize)];
    let r = t.line_wrap(0..3, 4, 10, &wrap, &trunc, Some(&mut out));
    assert_eq!(out.len(), 1 + r.len());
    assert_eq!(&out[1..], &[(0, 0, 0..3), (1, 0, 3..5), (1, 0, 5..7), (1, 0, 7..10), (0, 1, 0..0), (0, 2, 0..2)]);
}
