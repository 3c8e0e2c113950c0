use nnd::common_ui::{Color, Modifier, Rect, Style};
use nnd::screen::ScreenBuffer;

fn screen(w: usize, h: usize) -> ScreenBuffer {
    let mut b = ScreenBuffer::default();
    b.resize_and_clear(w, h, Style::default());
    b
}

fn row(b: &ScreenBuffer, y: usize) -> Vec<String> {
    (0..b.width).map(|x| b.get_cell(x, y).0.to_string()).collect()
}

fn red() -> Style {
    Style { fg: Color::Rgb(255, 0, 0), bg: Color::black(), modifier: Modifier::empty() }
}

#[test]
fn resize_clears_to_spaces() {
    let b = screen(4, 2);
    assert_eq!(b.width, 4);
    assert_eq!(b.height, 2);
    assert_eq!(b.cells.len(), 8);
    for y in 0..2 {
        for x in 0..4 {
            assert_eq!(b.get_cell(x, y), (" ", 0, Style::default()));
        }
    }
    assert_eq!(b.rect().size, [4, 2]);
    assert_eq!(b.rect().pos, [0, 0]);
}

#[test]
fn put_text_returns_next_column() {
    let mut b = screen(6, 2);
    let r = b.put_text("abc", red(), 1, 1, b.rect());
    assert_eq!(r, 4);
    assert_eq!(row(&b, 1), vec![" ", "a", "b", "c", " ", " "]);
    assert_eq!(row(&b, 0), vec![" "; 6]);
    assert_eq!(b.get_cell(2, 1), ("b", 0, red()));
}

#[test]
fn put_text_clips() {
    let mut b = screen(6, 1);
    let clip = Rect { pos: [2, 0], size: [2, 1] };
    let r = b.put_text("abcdef", red(), 0, 0, clip);
    // Stops at the first cluster that starts at or after the clip's right edge.
    assert_eq!(r, 4);
    assert_eq!(row(&b, 0), vec![" ", " ", "c", "d", " ", " "]);
    // A row outside the clip is left alone and x comes back unchanged.
    let r = b.put_text("zz", red(), 3, 5, b.rect());
    assert_eq!(r, 3);
    // Text starting left of the screen.
    let r = b.put_text("xyz", Style::default(), -2, 0, b.rect());
    assert_eq!(r, 1);
    assert_eq!(b.get_cell(0, 0), ("z", 0, Style::default()));
}

#[test]
fn wide_and_combined_clusters() {
    let mut b = screen(5, 1);
    let r = b.put_text("中e\u{301}x", red(), 0, 0, b.rect());
    assert_eq!(r, 4);
    assert_eq!(b.get_cell(0, 0), ("中", 1, red()));
    assert_eq!(b.get_cell(1, 0), (" ", 0, red()));
    assert_eq!(b.get_cell(2, 0), ("e\u{301}", 0, red()));
    assert_eq!(b.get_cell(3, 0), ("x", 0, red()));
    // A wide cluster cut by the left edge of the clip leaves only its spaces.
    let mut b = screen(5, 1);
    let r = b.put_text("中a", red(), 0, 0, Rect { pos: [1, 0], size: [4, 1] });
    assert_eq!(r, 3);
    assert_eq!(b.get_cell(0, 0), (" ", 0, Style::default()));
    assert_eq!(b.get_cell(1, 0), (" ", 0, red()));
    assert_eq!(b.get_cell(2, 0), ("a", 0, red()));
}

#[test]
fn put_then_get_cell() {
    let mut b = screen(3, 3);
    b.put_cell("q", 1, red(), 2, 1);
    assert_eq!(b.get_cell(2, 1), ("q", 0, red()));
    assert_eq!(b.get_cell(1, 2), (" ", 0, Style::default()));
    // Long clusters are kept outside the cell.
    let long = "e\u{301}\u{302}\u{303}";
    b.put_cell(long, 1, red(), 0, 0);
    assert_eq!(b.get_cell(0, 0), (long, 0, red()));
    assert_eq!(b.long_graphemes.len(), long.len());
    // Width is kept as extra columns, at most 3.
    b.put_cell("中", 7, red(), 1, 0);
    assert_eq!(b.get_cell(1, 0), ("中", 3, red()));
    // Clusters longer than 63 bytes are cut at a character boundary.
    let huge = "é".repeat(40);
    b.put_cell(&huge, 1, red(), 2, 2);
    assert_eq!(b.get_cell(2, 2).0, "é".repeat(31));
}

#[test]
fn fill_rectangles() {
    let mut b = screen(4, 3);
    b.fill(Rect { pos: [1, 1], size: [10, 10] }, "#", red());
    assert_eq!(row(&b, 0), vec![" "; 4]);
    assert_eq!(row(&b, 1), vec![" ", "#", "#", "#"]);
    assert_eq!(row(&b, 2), vec![" ", "#", "#", "#"]);
    assert!(b.try_fill(Rect { pos: [-1, -1], size: [2, 2] }, "*", red()));
    assert_eq!(b.get_cell(0, 0), ("*", 0, red()));
    assert!(!b.try_fill(Rect { pos: [0, 0], size: [4, 3] }, "中", red()));
    assert_eq!(b.get_cell(3, 0), (" ", 0, Style::default()));
}

#[test]
fn put_text_that_fits_ends_after_its_width() {
    let mut b = screen(10, 2);
    let r = b.put_text("ab中c", red(), 2, 0, b.rect());
    assert_eq!(r, 2 + 5);
    let r = b.put_text("abcd", red(), 6, 1, b.rect());
    assert_eq!(r, 10);
}
