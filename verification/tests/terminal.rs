use nnd::common_ui::{Color, Modifier, Style};
use nnd::input::MouseMode;
use nnd::terminal::{base64_encode, terminal_restore_sequence, terminal_setup_sequence, Terminal};

const HIDE_AND_RESET: &str = "\x1b[?25l\x1b[0;38;2;255;255;255;48;2;255;255;255m";

fn text(v: Vec<u8>) -> String {
    String::from_utf8(v).unwrap()
}

#[test]
fn first_frame_redraws_everything() {
    let mut t = Terminal::new();
    let mut b = t.start_frame(Style::default(), 2, 3);
    assert_eq!((b.width, b.height), (3, 2));
    let rect = b.rect();
    b.put_text("ab", Style::default(), 0, 0, rect);
    let cmds = text(t.prepare_command_buffer(&b, None, None));
    assert_eq!(cmds, format!("{}\x1b[2J\x1b[1;1Hab \x1b[2;1H   \x1b[m", HIDE_AND_RESET));
}

#[test]
fn next_frame_writes_only_changed_cells() {
    let mut t = Terminal::new();
    let mut b = t.start_frame(Style::default(), 1, 3);
    let rect = b.rect();
    b.put_text("ab", Style::default(), 0, 0, rect);
    t.present(b);
    let mut b = t.start_frame(Style::default(), 1, 3);
    let rect = b.rect();
    b.put_text("ax", Style::default(), 0, 0, rect);
    let cmds = text(t.prepare_command_buffer(&b, None, None));
    assert_eq!(cmds, format!("{}\x1b[1;2Hx\x1b[m", HIDE_AND_RESET));
    // Nothing changed: no cell is written.
    t.present(b);
    let mut b = t.start_frame(Style::default(), 1, 3);
    let rect = b.rect();
    b.put_text("ax", Style::default(), 0, 0, rect);
    let cmds = text(t.prepare_command_buffer(&b, None, None));
    assert_eq!(cmds, format!("{}\x1b[m", HIDE_AND_RESET));
}

#[test]
fn style_changes_and_cursor_and_clipboard() {
    let mut t = Terminal::new();
    let mut b = t.start_frame(Style::default(), 1, 2);
    let red = Style { fg: Color::Rgb(1, 2, 3), bg: Color::Rgb(255, 255, 255), modifier: Modifier::bold() };
    let rect = b.rect();
    b.put_text("r", red, 0, 0, rect);
    let cmds = text(t.prepare_command_buffer(&b, Some([1, 0]), Some("hi")));
    assert_eq!(
        cmds,
        format!(
            "{}\x1b[2J\x1b[1;1H\x1b[38;2;1;2;3;22;1mr\x1b[38;2;255;255;255;22m \x1b[m\x1b[1;2H\x1b[?25h\x1b]52;c;aGk=\x07",
            HIDE_AND_RESET
        )
    );
    // A cursor outside the screen is not shown, and an empty clipboard is not set.
    let cmds = text(t.prepare_command_buffer(&b, Some([3, 0]), Some("")));
    assert!(!cmds.contains("\x1b[?25h"));
    assert!(!cmds.contains("]52;"));
}

#[test]
fn palette_colors() {
    let mut t = Terminal::new();
    let mut b = t.start_frame(Style::default(), 1, 1);
    let s = Style { fg: Color::Palette8(2), bg: Color::TerminalDefault, modifier: Modifier::empty() };
    let rect = b.rect();
    b.put_text("p", s, 0, 0, rect);
    let cmds = text(t.prepare_command_buffer(&b, None, None));
    assert_eq!(cmds, format!("{}\x1b[2J\x1b[1;1H\x1b[32;49mp\x1b[m", HIDE_AND_RESET));
}

#[test]
fn clear_forgets_the_screen() {
    let mut t = Terminal::new();
    let b = t.start_frame(Style::default(), 1, 1);
    t.present(b);
    assert_eq!(t.clear(), b"\x1b[2J".to_vec());
    let b = t.start_frame(Style::default(), 1, 1);
    let cmds = text(t.prepare_command_buffer(&b, None, None));
    assert!(cmds.contains("\x1b[2J"));
}

#[test]
fn base64() {
    let enc = |s: &[u8]| {
        let mut out = b"=>".to_vec();
        base64_encode(s, &mut out);
        text(out)
    };
    assert_eq!(enc(b""), "=>");
    assert_eq!(enc(b"h"), "=>aA==");
    assert_eq!(enc(b"hi"), "=>aGk=");
    assert_eq!(enc(b"hi!"), "=>aGkh");
    assert_eq!(enc(b"\xff\xfe\xfd\x00"), "=>//79AA==");
}

#[test]
fn setup_and_restore_sequences() {
    assert_eq!(text(terminal_setup_sequence(MouseMode::Disabled)), "\x1b[?1049h");
    assert_eq!(text(terminal_setup_sequence(MouseMode::Full)), "\x1b[?1049h\x1b[?1006h\x1b[?1004h\x1b[?1003h");
    assert_eq!(text(terminal_setup_sequence(MouseMode::NoHover)), "\x1b[?1049h\x1b[?1006h\x1b[?1004h\x1b[?1002h");
    assert_eq!(
        text(terminal_restore_sequence()),
        "\x1b[?1003l\x1b[?1002l\x1b[?1006l\x1b[?1004l\x1b[?25h\x1b[?1049l\n"
    );
}

#[test]
fn unchanged_frame_with_any_colors() {
    let mut t = Terminal::new();
    let mut b = t.start_frame(Style::default(), 1, 2);
    // A palette color whose SGR code does not fit a byte: the frame is never drawn, only kept.
    let odd = Style { fg: Color::Palette8(250), bg: Color::Rgb(0, 0, 0), modifier: Modifier::empty() };
    let rect = b.rect();
    b.put_text("z", odd, 0, 0, rect);
    let same = b.clone();
    t.present(b);
    let cmds = text(t.prepare_command_buffer(&same, None, None));
    assert_eq!(cmds, format!("{}\x1b[m", HIDE_AND_RESET));
}
