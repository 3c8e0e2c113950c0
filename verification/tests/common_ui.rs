use nnd::common_ui::{modifier_diff_write_ansi, Color, Modifier, Rect};

fn diff(a: u8, b: u8) -> String {
    let mut out = Vec::new();
    modifier_diff_write_ansi(Modifier::from_bits(a), Modifier::from_bits(b), &mut out);
    String::from_utf8(out).unwrap()
}

#[test]
fn rect_geometry() {
    let r = Rect { pos: [2, 3], size: [4, 5] };
    assert_eq!((r.x(), r.y(), r.width(), r.height()), (2, 3, 4, 5));
    assert_eq!((r.right(), r.bottom()), (6, 8));
    assert_eq!(r.end(0), 6);
    assert_eq!(r.center(), [4, 5]);
    assert_eq!(r.x_range(), 2..6);
    assert_eq!(r.y_range(), 3..8);
    assert!(r.contains([2, 3]));
    assert!(r.contains([5, 7]));
    assert!(!r.contains([6, 7]));
    assert!(!r.contains([1, 3]));
    assert!(!r.is_empty());
    assert!(Rect { pos: [0, 0], size: [0, 3] }.is_empty());
}

#[test]
fn rect_intersection() {
    let a = Rect { pos: [0, 0], size: [10, 10] };
    let b = Rect { pos: [5, -2], size: [10, 4] };
    let i = a.intersection(b);
    assert_eq!((i.pos, i.size), ([5, 0], [5, 2]));
    let c = Rect { pos: [20, 20], size: [1, 1] };
    let j = a.intersection(c);
    assert_eq!((j.pos, j.size), ([20, 20], [0, 0]));
    assert!(j.is_empty());
}

#[test]
fn rect_inflate() {
    let r = Rect { pos: [2, 3], size: [4, 5] };
    let g = r.inflate(1);
    assert_eq!((g.pos, g.size), ([1, 2], [6, 7]));
    let s = r.inflate(-2);
    assert_eq!((s.pos, s.size), ([4, 5], [0, 1]));
    let t = r.inflate(-3);
    assert_eq!((t.pos, t.size), ([4, 5], [0, 0]));
}

#[test]
fn colors() {
    assert_eq!(Color::default(), Color::Rgb(255, 255, 255));
    assert_eq!(Color::white(), Color::Rgb(255, 255, 255));
    assert_eq!(Color::black(), Color::Rgb(0, 0, 0));
    assert_eq!(Color::Rgb(255, 30, 1).darker(), Color::Rgb(170, 20, 0));
    assert_eq!(Color::Palette8(3).darker(), Color::Palette8(3));
    let w = |c: Color, k: u8| {
        let mut out = b"x".to_vec();
        c.write_ansi(&mut out, k);
        String::from_utf8(out).unwrap()
    };
    assert_eq!(w(Color::Rgb(1, 22, 255), 0), "x38;2;1;22;255;");
    assert_eq!(w(Color::Rgb(1, 22, 255), 10), "x48;2;1;22;255;");
    assert_eq!(w(Color::Palette256(200), 10), "x48;5;200;");
    assert_eq!(w(Color::Palette8(7), 0), "x37;");
    assert_eq!(w(Color::Palette8Bright(1), 10), "x101;");
    assert_eq!(w(Color::TerminalDefault, 0), "x39;");
}

#[test]
fn modifier_sets() {
    let mut m = Modifier::bold().union(Modifier::italic());
    assert_eq!(m.bits, 0x9);
    assert!(m.contains(Modifier::bold()));
    assert!(m.intersects(Modifier::from_bits(0x3)));
    assert!(!m.intersects(Modifier::underlined()));
    m.remove(Modifier::bold());
    assert_eq!(m.bits, 0x8);
    m.insert(Modifier::strikethrough());
    assert_eq!(m.bits, 0x88);
    assert_eq!(m.symmetric_difference(Modifier::from_bits(0x81)).bits, 0x09);
    assert!(Modifier::default().is_empty());
    assert_eq!(Modifier::empty().bits, 0);
    assert_eq!(
        [Modifier::dim(), Modifier::slow_blink(), Modifier::rapid_blink(), Modifier::invert()].map(|m| m.bits),
        [0x4, 0x10, 0x20, 0x40]
    );
}

#[test]
fn modifier_diffs() {
    assert_eq!(diff(0, 0), "");
    assert_eq!(diff(0, 0x1), "22;1;");
    assert_eq!(diff(0x1, 0x4), "22;2;");
    assert_eq!(diff(0x1, 0x0), "22;");
    assert_eq!(diff(0, 0x10), "25;5;");
    assert_eq!(diff(0x30, 0x20), "25;6;");
    assert_eq!(diff(0, 0x8 | 0x2 | 0x40 | 0x80), "3;4;7;9;");
    assert_eq!(diff(0xca, 0), "23;24;27;29;");
}
