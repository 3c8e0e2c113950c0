//! The terminal front end: the escape sequences that set the terminal up and restore it, and
//! the commands that update the screen from one frame to the next, redrawing only the cells
//! that changed.

use vstd::prelude::*;
use vstd::string::*;
use crate::ansi::dec;
use crate::ansi::push_decimal;
use crate::ansi::push_bytes;
use crate::common_ui::Style;
use crate::common_ui::color_ansi;
use crate::common_ui::color_ansi_fits;
use crate::common_ui::modifier_diff_ansi;
use crate::common_ui::modifier_diff_write_ansi;
use crate::common_ui::default_style;
use crate::input::MouseMode;
use crate::screen::ScreenBuffer;
use crate::screen::CellView;
use crate::screen::at;

verus! {

// ---------------------------------------------------------------------------------------------
// Escape sequences.

/// `ESC [ ? 25 l`: hide the cursor.
pub open spec fn cursor_hide_seq() -> Seq<u8> {
    seq![0x1bu8, 0x5b, 0x3f, 0x32, 0x35, 0x6c]
}

/// `ESC [ ? 25 h`: show the cursor.
pub open spec fn cursor_show_seq() -> Seq<u8> {
    seq![0x1bu8, 0x5b, 0x3f, 0x32, 0x35, 0x68]
}

/// `ESC [ ? 1049 h`: switch to the alternate screen.
pub open spec fn screen_alternate_seq() -> Seq<u8> {
    seq![0x1bu8, 0x5b, 0x3f, 0x31, 0x30, 0x34, 0x39, 0x68]
}

/// `ESC [ ? 1049 l`: back to the main screen.
pub open spec fn screen_main_seq() -> Seq<u8> {
    seq![0x1bu8, 0x5b, 0x3f, 0x31, 0x30, 0x34, 0x39, 0x6c]
}

/// `ESC [ 2 J`: clear the screen.
pub open spec fn clear_screen_seq() -> Seq<u8> {
    seq![0x1bu8, 0x5b, 0x32, 0x4a]
}

/// `ESC [ m`: reset the style.
pub open spec fn style_reset_seq() -> Seq<u8> {
    seq![0x1bu8, 0x5b, 0x6d]
}

/// `ESC [ 0 ; 38 ; 2 ; 255 ; 255 ; 255 ; 48 ; 2 ; 255 ; 255 ; 255 m`: reset the style to the
/// default colors (white on white), the style that drawing starts from.
pub open spec fn style_reset_to_default_seq() -> Seq<u8> {
    seq![0x1bu8, 0x5b, 0x30, 0x3b, 0x33, 0x38, 0x3b, 0x32, 0x3b, 0x32, 0x35, 0x35, 0x3b, 0x32, 0x35, 0x35, 0x3b, 0x32, 0x35, 0x35, 0x3b, 0x34, 0x38, 0x3b, 0x32, 0x3b, 0x32, 0x35, 0x35, 0x3b, 0x32, 0x35, 0x35, 0x3b, 0x32, 0x35, 0x35, 0x6d]
}

/// `ESC [ ? 1006 h ESC [ ? 1004 h`: SGR mouse coordinates (no limit at 223) and focus events.
pub open spec fn mouse_enable_common_seq() -> Seq<u8> {
    seq![0x1bu8, 0x5b, 0x3f, 0x31, 0x30, 0x30, 0x36, 0x68, 0x1b, 0x5b, 0x3f, 0x31, 0x30, 0x30, 0x34, 0x68]
}

/// `ESC [ ? 1002 h`: report buttons, and movement while a button is held.
pub open spec fn mouse_button_event_seq() -> Seq<u8> {
    seq![0x1bu8, 0x5b, 0x3f, 0x31, 0x30, 0x30, 0x32, 0x68]
}

/// `ESC [ ? 1003 h`: report all movement.
pub open spec fn mouse_any_event_seq() -> Seq<u8> {
    seq![0x1bu8, 0x5b, 0x3f, 0x31, 0x30, 0x30, 0x33, 0x68]
}

/// `ESC [ ? 1003 l ESC [ ? 1002 l ESC [ ? 1006 l ESC [ ? 1004 l`: stop mouse reports.
pub open spec fn mouse_disable_seq() -> Seq<u8> {
    seq![0x1bu8, 0x5b, 0x3f, 0x31, 0x30, 0x30, 0x33, 0x6c, 0x1b, 0x5b, 0x3f, 0x31, 0x30, 0x30, 0x32, 0x6c, 0x1b, 0x5b, 0x3f, 0x31, 0x30, 0x30, 0x36, 0x6c, 0x1b, 0x5b, 0x3f, 0x31, 0x30, 0x30, 0x34, 0x6c]
}

/// What sets the terminal up for the debugger: the alternate screen and the mouse reports of
/// `mouse_mode`.
pub open spec fn setup_seq(mouse_mode: MouseMode) -> Seq<u8> {
    screen_alternate_seq() + match mouse_mode {
        MouseMode::Disabled => Seq::<u8>::empty(),
        MouseMode::NoHover => mouse_enable_common_seq() + mouse_button_event_seq(),
        MouseMode::Full => mouse_enable_common_seq() + mouse_any_event_seq(),
    }
}

/// The escape sequences written when the terminal is configured.
pub fn terminal_setup_sequence(mouse_mode: MouseMode) -> (r: Vec<u8>)
    ensures
        r@ == setup_seq(mouse_mode),
{
    let mut r: Vec<u8> = Vec::new();
    push_bytes(&mut r, &[0x1bu8, 0x5b, 0x3f, 0x31, 0x30, 0x34, 0x39, 0x68]);
    match mouse_mode {
        MouseMode::Disabled => {},
        MouseMode::NoHover => {
            push_bytes(&mut r, &[0x1bu8, 0x5b, 0x3f, 0x31, 0x30, 0x30, 0x36, 0x68, 0x1b, 0x5b, 0x3f, 0x31, 0x30, 0x30, 0x34, 0x68]);
            push_bytes(&mut r, &[0x1bu8, 0x5b, 0x3f, 0x31, 0x30, 0x30, 0x32, 0x68]);
        },
        MouseMode::Full => {
            push_bytes(&mut r, &[0x1bu8, 0x5b, 0x3f, 0x31, 0x30, 0x30, 0x36, 0x68, 0x1b, 0x5b, 0x3f, 0x31, 0x30, 0x30, 0x34, 0x68]);
            push_bytes(&mut r, &[0x1bu8, 0x5b, 0x3f, 0x31, 0x30, 0x30, 0x33, 0x68]);
        },
    }
    proof {
        assert(r@ =~= setup_seq(mouse_mode));
    }
    r
}

/// The escape sequences written when the terminal is restored: no mouse reports, a visible
/// cursor, the main screen, and a line break.
pub fn terminal_restore_sequence() -> (r: Vec<u8>)
    ensures
        r@ == mouse_disable_seq() + cursor_show_seq() + screen_main_seq() + seq![0x0au8],
{
    let mut r: Vec<u8> = Vec::new();
    push_bytes(&mut r, &[0x1bu8, 0x5b, 0x3f, 0x31, 0x30, 0x30, 0x33, 0x6c, 0x1b, 0x5b, 0x3f, 0x31, 0x30, 0x30, 0x32, 0x6c, 0x1b, 0x5b, 0x3f, 0x31, 0x30, 0x30, 0x36, 0x6c, 0x1b, 0x5b, 0x3f, 0x31, 0x30, 0x30, 0x34, 0x6c]);
    push_bytes(&mut r, &[0x1bu8, 0x5b, 0x3f, 0x32, 0x35, 0x68]);
    push_bytes(&mut r, &[0x1bu8, 0x5b, 0x3f, 0x31, 0x30, 0x34, 0x39, 0x6c]);
    r.push(0x0a);
    proof {
        assert(r@ =~= mouse_disable_seq() + cursor_show_seq() + screen_main_seq() + seq![0x0au8]);
    }
    r
}

// ---------------------------------------------------------------------------------------------
// Base64, for the clipboard escape sequence.

/// The base64 digit of `v` (0 to 63).
pub open spec fn b64_digit(v: int) -> u8 {
    if v < 26 {
        (65 + v) as u8
    } else if v < 52 {
        (97 + v - 26) as u8
    } else if v < 62 {
        (48 + v - 52) as u8
    } else if v == 62 {
        43
    } else {
        47
    }
}

/// Standard base64 with `=` padding.
pub open spec fn base64(b: Seq<u8>) -> Seq<u8>
    decreases b.len(),
{
    if b.len() == 0 {
        Seq::empty()
    } else if b.len() == 1 {
        let n = b[0] * 65536;
        seq![b64_digit(n / 262144), b64_digit((n / 4096) % 64), 61u8, 61u8]
    } else if b.len() == 2 {
        let n = b[0] * 65536 + b[1] * 256;
        seq![b64_digit(n / 262144), b64_digit((n / 4096) % 64), b64_digit((n / 64) % 64), 61u8]
    } else {
        let n = b[0] * 65536 + b[1] * 256 + b[2];
        seq![b64_digit(n / 262144), b64_digit((n / 4096) % 64), b64_digit((n / 64) % 64), b64_digit(n % 64)]
            + base64(b.subrange(3, b.len() as int))
    }
}

fn b64_digit_exec(v: u32) -> (r: u8)
    requires
        v < 64,
    ensures
        r == b64_digit(v as int),
{
    if v < 26 {
        (65 + v) as u8
    } else if v < 52 {
        (97 + v - 26) as u8
    } else if v < 62 {
        (48 + v - 52) as u8
    } else if v == 62 {
        43
    } else {
        47
    }
}

/// Appends the base64 encoding of `b`.
pub fn base64_encode(b: &[u8], out: &mut Vec<u8>)
    ensures
        final(out)@ == old(out)@ + base64(b@),
{
    let mut i: usize = 0;
    let n = b.len();
    proof {
        assert(b@.subrange(0, n as int) =~= b@);
    }
    while n - i >= 3
        invariant
            n == b@.len(),
            i <= n,
            old(out)@ + base64(b@) == out@ + base64(b@.subrange(i as int, n as int)),
        decreases n - i,
    {
        let v: u32 = b[i] as u32 * 65536 + b[i + 1] as u32 * 256 + b[i + 2] as u32;
        let ghost rest = b@.subrange(i as int, n as int);
        out.push(b64_digit_exec(v / 262144));
        out.push(b64_digit_exec((v / 4096) % 64));
        out.push(b64_digit_exec((v / 64) % 64));
        out.push(b64_digit_exec(v % 64));
        proof {
            assert(rest.subrange(3, rest.len() as int) =~= b@.subrange(i + 3, n as int));
            assert(v / 262144 < 64);
        }
        i = i + 3;
    }
    let ghost rest = b@.subrange(i as int, n as int);
    if n - i == 1 {
        let v: u32 = b[i] as u32 * 65536;
        out.push(b64_digit_exec(v / 262144));
        out.push(b64_digit_exec((v / 4096) % 64));
        out.push(61);
        out.push(61);
    } else if n - i == 2 {
        let v: u32 = b[i] as u32 * 65536 + b[i + 1] as u32 * 256;
        out.push(b64_digit_exec(v / 262144));
        out.push(b64_digit_exec((v / 4096) % 64));
        out.push(b64_digit_exec((v / 64) % 64));
        out.push(61);
    }
    proof {
        assert(out@ =~= old(out)@ + base64(b@));
    }
}

// ---------------------------------------------------------------------------------------------
// Frame updates.

/// `ESC [ x+1 G`: move the cursor to column `x` of its row.
pub open spec fn move_to_column(x: int) -> Seq<u8> {
    seq![0x1bu8, 0x5b] + dec((x + 1) as nat) + seq![0x47u8]
}

/// `ESC [ y+1 ; x+1 H`: move the cursor to column `x`, row `y`.
pub open spec fn move_to(y: int, x: int) -> Seq<u8> {
    seq![0x1bu8, 0x5b] + dec((y + 1) as nat) + seq![0x3bu8] + dec((x + 1) as nat) + seq![0x48u8]
}

/// The SGR sequence that switches from style `cur` to style `new`: the colors that changed
/// and the style flags, with the last `;` turned into the final `m`.
pub open spec fn style_change(cur: Style, new: Style) -> Seq<u8> {
    let p = sgr_params(cur, new);
    p.update(p.len() - 1, 0x6du8)
}

/// `ESC [` and the SGR parameters from style `cur` to style `new`, each followed by `;`.
pub open spec fn sgr_params(cur: Style, new: Style) -> Seq<u8> {
    seq![0x1bu8, 0x5b] + (if new.fg != cur.fg { color_ansi(new.fg, 0) } else { Seq::empty() }) + (
    if new.bg != cur.bg {
        color_ansi(new.bg, 10)
    } else {
        Seq::empty()
    }) + modifier_diff_ansi(cur.modifier, new.modifier)
}

/// The terminal's cursor row (which may be unknown: any value off the screen) and style, as
/// far as the commands written so far have set them.
pub struct Pen {
    pub y: int,
    pub style: Style,
}

/// The cells of row `y` from column `x` up to `x2` of a screen `w` cells wide: each cell's
/// cluster, preceded by a style change where its style differs from the pen's. A wide
/// cluster covers the cells after it, which are skipped. Also the style at the end and the
/// column after the last cell written.
pub open spec fn range_cells(v: Seq<CellView>, w: int, y: int, x: int, x2: int, st: Style) -> (Seq<u8>, Style, int)
    decreases (if x2 > x { x2 - x } else { 0 }),
{
    if x >= x2 {
        (Seq::empty(), st, x)
    } else {
        let c = at(v, w, x, y);
        let pre = if c.style != st { style_change(st, c.style) } else { Seq::empty() };
        let rest = range_cells(v, w, y, x + 1 + c.extra_width, x2, c.style);
        (pre + c.text + rest.0, rest.1, rest.2)
    }
}

/// Writing the cells of row `y` from column `x1` up to `x2`: a cursor move (within the row if
/// the cursor is on it), then the cells. The pen and the column after the last cell written.
pub open spec fn write_range_spec(v: Seq<CellView>, w: int, y: int, x1: int, x2: int, pen: Pen) -> (Seq<u8>, Pen, int) {
    let head = if pen.y == y { move_to_column(x1) } else { move_to(y, x1) };
    let r = range_cells(v, w, y, x1, x2, pen.style);
    (head + r.0, Pen { y, style: r.1 }, r.2)
}

/// Redrawing rows `y` and after completely.
pub open spec fn full_rows(v: Seq<CellView>, w: int, h: int, y: int, pen: Pen) -> (Seq<u8>, Pen)
    decreases h - y,
{
    if y >= h {
        (Seq::empty(), pen)
    } else {
        let r = write_range_spec(v, w, y, 0, w, pen);
        let rest = full_rows(v, w, h, y + 1, r.1);
        (r.0 + rest.0, rest.1)
    }
}

/// Redrawing the changed cells of row `y` from column `x` on, `x1` being where the current
/// run of changed cells started. A run is written when an unchanged cell ends it; if a wide
/// cluster of the run covers cells beyond, scanning resumes after it.
pub open spec fn row_diff(v: Seq<CellView>, p: Seq<CellView>, w: int, y: int, x: int, x1: int, pen: Pen) -> (Seq<u8>, Pen)
    decreases (if w > x { w - x } else { 0 }),
{
    if x >= w {
        if w > x1 {
            let r = write_range_spec(v, w, y, x1, w, pen);
            (r.0, r.1)
        } else {
            (Seq::empty(), pen)
        }
    } else if at(v, w, x, y) == at(p, w, x, y) {
        if x > x1 {
            let r = write_range_spec(v, w, y, x1, x, pen);
            if r.2 > x {
                let rest = row_diff(v, p, w, y, r.2, r.2, r.1);
                (r.0 + rest.0, rest.1)
            } else {
                let rest = row_diff(v, p, w, y, x + 1, x + 1, r.1);
                (r.0 + rest.0, rest.1)
            }
        } else {
            row_diff(v, p, w, y, x + 1, x + 1, pen)
        }
    } else {
        row_diff(v, p, w, y, x + 1, x1, pen)
    }
}

/// Redrawing the changed cells of rows `y` and after.
pub open spec fn diff_rows(v: Seq<CellView>, p: Seq<CellView>, w: int, h: int, y: int, pen: Pen) -> (Seq<u8>, Pen)
    decreases h - y,
{
    if y >= h {
        (Seq::empty(), pen)
    } else {
        let r = row_diff(v, p, w, y, 0, 0, pen);
        let rest = diff_rows(v, p, w, h, y + 1, r.1);
        (r.0 + rest.0, rest.1)
    }
}

/// The commands that update the terminal from the previous frame (`p`, `pw` by `ph` cells) to
/// the new one (`v`, `w` by `h` cells): hide the cursor and reset the style; redraw everything
/// after clearing the screen if the size changed, else the changed cells; reset the style;
/// show the cursor at `cursor` if it is on the screen (or just past its edge); and set the
/// system clipboard, by OSC 52, to `clipboard` if it is not empty.
pub open spec fn frame_commands(
    p: Seq<CellView>,
    pw: int,
    ph: int,
    v: Seq<CellView>,
    w: int,
    h: int,
    cursor: Option<[isize; 2]>,
    clipboard: Option<Seq<u8>>,
) -> Seq<u8> {
    let pen = Pen { y: usize::MAX as int, style: default_style() };
    let body = if pw != w || ph != h {
        clear_screen_seq() + full_rows(v, w, h, 0, pen).0
    } else {
        diff_rows(v, p, w, h, 0, pen).0
    };
    cursor_hide_seq() + style_reset_to_default_seq() + body + style_reset_seq() + cursor_seq(cursor, w, h)
        + clipboard_seq(clipboard)
}

/// Showing the cursor at `cursor` if it is on a screen of `w` by `h` cells (or just past its
/// edge).
pub open spec fn cursor_seq(cursor: Option<[isize; 2]>, w: int, h: int) -> Seq<u8> {
    match cursor {
        Some(c) => if c[0] >= 0 && c[1] >= 0 && c[0] <= w && c[1] <= h {
            move_to(c[1] as int, c[0] as int) + cursor_show_seq()
        } else {
            Seq::empty()
        },
        None => Seq::empty(),
    }
}

/// Setting the system clipboard (OSC 52) to `clipboard`, if it is given and not empty.
pub open spec fn clipboard_seq(clipboard: Option<Seq<u8>>) -> Seq<u8> {
    match clipboard {
        Some(t) => if t.len() > 0 {
            seq![0x1bu8, 0x5d, 0x35, 0x32, 0x3b, 0x63, 0x3b] + base64(t) + seq![0x07u8]
        } else {
            Seq::empty()
        },
        None => Seq::empty(),
    }
}

/// The colors of cell `c` can be written in an SGR sequence.
pub open spec fn cell_fits(c: CellView) -> bool {
    color_ansi_fits(c.style.fg, 0) && color_ansi_fits(c.style.bg, 10)
}

/// Every cell's colors can be written in an SGR sequence.
pub open spec fn colors_fit(v: Seq<CellView>) -> bool {
    forall|i: int| 0 <= i < v.len() ==> cell_fits(#[trigger] v[i])
}

/// The colors of the cells of row `y` from column `x1` up to `x2` can be written.
pub open spec fn range_fits(v: Seq<CellView>, w: int, y: int, x1: int, x2: int) -> bool {
    forall|c: int| x1 <= c < x2 ==> cell_fits(#[trigger] at(v, w, c, y))
}

/// The colors of every cell that the frame commands may write can be written: every cell of
/// the new frame `v` when its size differs from the shown one's, else every cell that differs
/// from the shown frame `p`. (An unchanged cell is never written.)
pub open spec fn redrawn_colors_fit(p: Seq<CellView>, pw: int, ph: int, v: Seq<CellView>, w: int, h: int) -> bool {
    if pw != w || ph != h {
        colors_fit(v)
    } else {
        forall|i: int| 0 <= i < v.len() && v[i] != p[i] ==> cell_fits(#[trigger] v[i])
    }
}

/// Writes the SGR sequence that switches from style `cur` to style `new`.
fn write_style_change(commands: &mut Vec<u8>, cur: Style, new: Style)
    requires
        color_ansi_fits(new.fg, 0),
        color_ansi_fits(new.bg, 10),
    ensures
        final(commands)@ == old(commands)@ + style_change(cur, new),
{
    let ghost c0 = commands@;
    commands.push(0x1b);
    commands.push(0x5b);
    let ghost c1 = commands@;
    if new.fg != cur.fg {
        new.fg.write_ansi(commands, 0);
    }
    let ghost c2 = commands@;
    if new.bg != cur.bg {
        new.bg.write_ansi(commands, 10);
    }
    let ghost c3 = commands@;
    modifier_diff_write_ansi(cur.modifier, new.modifier, commands);
    let ghost c4 = commands@;
    let ghost p = sgr_params(cur, new);
    proof {
        assert(c1 =~= c0 + seq![0x1bu8, 0x5b]);
        assert(c4 =~= c0 + p);
    }
    let last = commands.len() - 1;
    // Turn the trailing ';' into the final 'm'.
    commands.set(last, 0x6d);
    proof {
        assert(commands@ =~= c0 + p.update(p.len() - 1, 0x6du8));
    }
}

/// Writes the cells of row `y` from column `x1` up to `x2` (see `write_range_spec`).
fn write_range(
    buffer: &ScreenBuffer,
    y: usize,
    x1: usize,
    x2: usize,
    commands: &mut Vec<u8>,
    cur_y: &mut usize,
    cur_style: &mut Style,
) -> (x: u128)
    requires
        buffer.wf(),
        y < buffer.height,
        x1 <= x2 <= buffer.width,
        x1 < x2 || x1 == 0,
        range_fits(buffer.view_cells(), buffer.width as int, y as int, x1 as int, x2 as int),
    ensures
        ({
            let r = write_range_spec(
                buffer.view_cells(),
                buffer.width as int,
                y as int,
                x1 as int,
                x2 as int,
                Pen { y: *old(cur_y) as int, style: *old(cur_style) },
            );
            &&& final(commands)@ == old(commands)@ + r.0
            &&& *final(cur_y) == y
            &&& *final(cur_style) == r.1.style
            &&& x == r.2
        }),
        x1 <= x <= x2 + 3,
{
    let ghost v = buffer.view_cells();
    let ghost w = buffer.width as int;
    if *cur_y == y {
        commands.push(0x1b);
        commands.push(0x5b);
        push_decimal(commands, (x1 as u64) + 1);
        commands.push(0x47);
    } else {
        commands.push(0x1b);
        commands.push(0x5b);
        push_decimal(commands, (y as u64) + 1);
        commands.push(0x3b);
        push_decimal(commands, (x1 as u64) + 1);
        commands.push(0x48);
    }
    proof {
        if *old(cur_y) == y {
            assert(commands@ =~= old(commands)@ + move_to_column(x1 as int));
        } else {
            assert(commands@ =~= old(commands)@ + move_to(y as int, x1 as int));
        }
    }
    let ghost after_head = commands@;
    let ghost st0 = *cur_style;
    let mut x: u128 = x1 as u128;
    proof {
        lemma_cell_row(y as int, w, buffer.height as int);
    }
    while x < x2 as u128
        invariant
            buffer.wf(),
            v == buffer.view_cells(),
            w == buffer.width,
            y < buffer.height,
            x2 <= w,
            x1 <= x <= x2 + 3,
            range_fits(v, w, y as int, x1 as int, x2 as int),
            y * w + w <= v.len(),
            0 <= y * w,
            commands@ + range_cells(v, w, y as int, x as int, x2 as int, *cur_style).0 == after_head
                + range_cells(v, w, y as int, x1 as int, x2 as int, st0).0,
            range_cells(v, w, y as int, x as int, x2 as int, *cur_style).1 == range_cells(v, w, y as int, x1 as int, x2 as int, st0).1,
            range_cells(v, w, y as int, x as int, x2 as int, *cur_style).2 == range_cells(v, w, y as int, x1 as int, x2 as int, st0).2,
        decreases x2 + 4 - x,
    {
        let (s, extra, style) = buffer.get_cell(x as usize, y);
        let ghost c = at(v, w, x as int, y as int);
        let ghost before = commands@;
        let ghost st = *cur_style;
        proof {
            assert(extra == c.extra_width);
            assert(style == c.style);
            assert(s.spec_bytes() == c.text);
            assert(cell_fits(at(v, w, x as int, y as int)));
        }
        if style != *cur_style {
            write_style_change(commands, *cur_style, style);
            *cur_style = style;
        }
        push_bytes(commands, s.as_bytes());
        proof {
            assert(commands@ =~= before + (if c.style != st { style_change(st, c.style) } else { Seq::empty() }) + c.text);
        }
        x = x + 1 + extra as u128;
    }
    *cur_y = y;
    proof {
        assert(commands@ + range_cells(v, w, y as int, x as int, x2 as int, *cur_style).0 =~= commands@);
    }
    x
}

proof fn lemma_cell_row(y: int, w: int, h: int)
    requires
        0 <= y < h,
        0 <= w,
    ensures
        0 <= y * w,
        y * w + w <= w * h,
{
    assert(0 <= y * w && y * w + w <= w * h) by (nonlinear_arith)
        requires
            0 <= y < h,
            0 <= w,
    ;
}

/// Clears the screen and writes every cell (see `full_rows`).
fn write_full(buffer: &ScreenBuffer, commands: &mut Vec<u8>, cur_y: &mut usize, cur_style: &mut Style)
    requires
        buffer.wf(),
        colors_fit(buffer.view_cells()),
    ensures
        final(commands)@ == old(commands)@ + clear_screen_seq() + full_rows(
            buffer.view_cells(),
            buffer.width as int,
            buffer.height as int,
            0,
            Pen { y: *old(cur_y) as int, style: *old(cur_style) },
        ).0,
{
    let ghost v = buffer.view_cells();
    let ghost w = buffer.width as int;
    let ghost h = buffer.height as int;
    let ghost pen0 = Pen { y: *cur_y as int, style: *cur_style };
    push_bytes(commands, &[0x1bu8, 0x5b, 0x32, 0x4a]);
    let ghost c0 = commands@;
    let mut y: usize = 0;
    while y < buffer.height
        invariant
            buffer.wf(),
            v == buffer.view_cells(),
            w == buffer.width,
            h == buffer.height,
            colors_fit(v),
            y <= h,
            commands@ + full_rows(v, w, h, y as int, Pen { y: *cur_y as int, style: *cur_style }).0 == c0
                + full_rows(v, w, h, 0, pen0).0,
        decreases h - y,
    {
        let ghost pen = Pen { y: *cur_y as int, style: *cur_style };
        let ghost before = commands@;
        proof {
            lemma_cell_row(y as int, w, h);
            assert forall|c: int| 0 <= c < w implies cell_fits(#[trigger] at(v, w, c, y as int)) by {
                assert(v[y * w + c] == at(v, w, c, y as int));
            }
        }
        write_range(buffer, y, 0, buffer.width, commands, cur_y, cur_style);
        proof {
            let r = write_range_spec(v, w, y as int, 0, w, pen);
            assert(commands@ + full_rows(v, w, h, y + 1, r.1).0 =~= before + full_rows(v, w, h, y as int, pen).0);
        }
        y = y + 1;
    }
    proof {
        assert(commands@ =~= c0 + full_rows(v, w, h, 0, pen0).0);
    }
}

/// Shows the cursor at `cursor` if it is on a screen of `width` by `height` cells, or just
/// past its edge.
fn write_cursor(commands: &mut Vec<u8>, cursor: Option<[isize; 2]>, width: usize, height: usize)
    requires
    ensures
        final(commands)@ == old(commands)@ + match cursor {
            Some(c) => if c[0] >= 0 && c[1] >= 0 && c[0] <= width && c[1] <= height {
                move_to(c[1] as int, c[0] as int) + cursor_show_seq()
            } else {
                Seq::empty()
            },
            None => Seq::empty(),
        },
{
    match cursor {
        Some(c) => {
            let x = c[0];
            let y = c[1];
            if x >= 0 && y >= 0 && x as usize <= width && y as usize <= height {
                commands.push(0x1b);
                commands.push(0x5b);
                push_decimal(commands, (y as u64) + 1);
                commands.push(0x3b);
                push_decimal(commands, (x as u64) + 1);
                commands.push(0x48);
                push_bytes(commands, &[0x1bu8, 0x5b, 0x3f, 0x32, 0x35, 0x68]);
                proof {
                    assert(commands@ =~= old(commands)@ + (move_to(y as int, x as int) + cursor_show_seq()));
                }
            } else {
                proof {
                    assert(commands@ =~= old(commands)@ + Seq::<u8>::empty());
                }
            }
        },
        None => {
            proof {
                assert(commands@ =~= old(commands)@ + Seq::<u8>::empty());
            }
        },
    }
}

/// Sets the system clipboard to `clipboard` (OSC 52), if it is given and not empty.
fn write_clipboard(commands: &mut Vec<u8>, clipboard: Option<&str>)
    ensures
        final(commands)@ == old(commands)@ + match clipboard {
            Some(t) => if t.spec_bytes().len() > 0 {
                seq![0x1bu8, 0x5d, 0x35, 0x32, 0x3b, 0x63, 0x3b] + base64(t.spec_bytes()) + seq![0x07u8]
            } else {
                Seq::empty()
            },
            None => Seq::empty(),
        },
{
    match clipboard {
        Some(t) => {
            let b = t.as_bytes();
            if b.len() > 0 {
                push_bytes(commands, &[0x1bu8, 0x5d, 0x35, 0x32, 0x3b, 0x63, 0x3b]);
                base64_encode(b, commands);
                commands.push(0x07);
                proof {
                    assert(commands@ =~= old(commands)@ + (seq![0x1bu8, 0x5d, 0x35, 0x32, 0x3b, 0x63, 0x3b] + base64(t.spec_bytes()) + seq![0x07u8]));
                }
            } else {
                proof {
                    assert(commands@ =~= old(commands)@ + Seq::<u8>::empty());
                }
            }
        },
        None => {
            proof {
                assert(commands@ =~= old(commands)@ + Seq::<u8>::empty());
            }
        },
    }
}

/// The terminal's screen: the frame shown last, against which the next frame is compared,
/// and a buffer kept for drawing the next frame.
pub struct Terminal {
    prev_buffer: ScreenBuffer,
    temp_buffer: ScreenBuffer,
}

impl Terminal {
    pub closed spec fn wf(&self) -> bool {
        self.prev_buffer.wf()
    }

    /// The frame on the terminal now.
    pub closed spec fn shown(&self) -> ScreenBuffer {
        self.prev_buffer
    }

    pub fn new() -> (r: Terminal)
        ensures
            r.wf(),
            r.shown().width == 0,
            r.shown().height == 0,
    {
        Terminal { prev_buffer: ScreenBuffer::default(), temp_buffer: ScreenBuffer::default() }
    }

    /// A buffer for the next frame, `columns` by `rows` cells of spaces in `style`. (The
    /// caller reads the size from the terminal.)
    pub fn start_frame(&mut self, style: Style, rows: u16, columns: u16) -> (b: ScreenBuffer)
        requires
            old(self).wf(),
        ensures
            final(self).wf(),
            final(self).shown() == old(self).shown(),
            b.wf(),
            b.width == columns,
            b.height == rows,
            b.long_graphemes@ == Seq::<u8>::empty(),
            forall|i: int| 0 <= i < b.width * b.height ==> #[trigger] b.view_cells()[i] == (CellView { style, text: seq![32u8], extra_width: 0 }),
    {
        let mut b = ScreenBuffer::default();
        std::mem::swap(&mut b, &mut self.temp_buffer);
        proof {
            assert(columns as usize * rows as usize <= 0xffff * 0xffff) by (nonlinear_arith)
                requires
                    columns <= 0xffff,
                    rows <= 0xffff,
            ;
        }
        b.resize_and_clear(columns as usize, rows as usize, style);
        b
    }

    /// Forgets what the terminal shows, so that the next frame is drawn in full; returns the
    /// escape sequence that clears the screen, for the caller to write.
    pub fn clear(&mut self) -> (r: Vec<u8>)
        ensures
            final(self).wf(),
            final(self).shown().width == 0,
            final(self).shown().height == 0,
            r@ == clear_screen_seq(),
    {
        self.prev_buffer = ScreenBuffer::default();
        let mut r: Vec<u8> = Vec::new();
        push_bytes(&mut r, &[0x1bu8, 0x5b, 0x32, 0x4a]);
        r
    }

    /// The commands that update the terminal to show `buffer` (see `frame_commands`).
    pub fn prepare_command_buffer(&self, buffer: &ScreenBuffer, show_cursor: Option<[isize; 2]>, set_os_clipboard: Option<&str>) -> (r: Vec<u8>)
        requires
            self.wf(),
            buffer.wf(),
            redrawn_colors_fit(
                self.shown().view_cells(),
                self.shown().width as int,
                self.shown().height as int,
                buffer.view_cells(),
                buffer.width as int,
                buffer.height as int,
            ),
        ensures
            r@ == frame_commands(
                self.shown().view_cells(),
                self.shown().width as int,
                self.shown().height as int,
                buffer.view_cells(),
                buffer.width as int,
                buffer.height as int,
                show_cursor,
                match set_os_clipboard {
                    Some(t) => Some(t.spec_bytes()),
                    None => None,
                },
            ),
    {
        let ghost v = buffer.view_cells();
        let ghost p = self.prev_buffer.view_cells();
        let ghost w = buffer.width as int;
        let ghost h = buffer.height as int;
        let mut commands: Vec<u8> = Vec::new();
        let mut cur_y: usize = usize::MAX;
        let mut cur_style = Style::default();
        let ghost pen0 = Pen { y: usize::MAX as int, style: default_style() };
        push_bytes(&mut commands, &[0x1bu8, 0x5b, 0x3f, 0x32, 0x35, 0x6c]);
        push_bytes(&mut commands, &[0x1bu8, 0x5b, 0x30, 0x3b, 0x33, 0x38, 0x3b, 0x32, 0x3b, 0x32, 0x35, 0x35, 0x3b, 0x32, 0x35, 0x35, 0x3b, 0x32, 0x35, 0x35, 0x3b, 0x34, 0x38, 0x3b, 0x32, 0x3b, 0x32, 0x35, 0x35, 0x3b, 0x32, 0x35, 0x35, 0x3b, 0x32, 0x35, 0x35, 0x6d]);
        let ghost head = commands@;
        if self.prev_buffer.width != buffer.width || self.prev_buffer.height != buffer.height {
            write_full(buffer, &mut commands, &mut cur_y, &mut cur_style);
        } else {
            self.write_diff(buffer, &mut commands, &mut cur_y, &mut cur_style);
        }
        let ghost mid = commands@;
        push_bytes(&mut commands, &[0x1bu8, 0x5b, 0x6d]);
        write_cursor(&mut commands, show_cursor, buffer.width, buffer.height);
        write_clipboard(&mut commands, set_os_clipboard);
        proof {
            let body = if self.prev_buffer.width != buffer.width || self.prev_buffer.height != buffer.height {
                clear_screen_seq() + full_rows(v, w, h, 0, pen0).0
            } else {
                diff_rows(v, p, w, h, 0, pen0).0
            };
            assert(mid =~= head + body);
            assert(commands@ =~= frame_commands(
                p,
                self.prev_buffer.width as int,
                self.prev_buffer.height as int,
                v,
                w,
                h,
                show_cursor,
                match set_os_clipboard {
                    Some(t) => Some(t.spec_bytes()),
                    None => None,
                },
            ));
        }
        commands
    }

    /// Writes the changed cells of all rows (see `diff_rows`).
    fn write_diff(&self, buffer: &ScreenBuffer, commands: &mut Vec<u8>, cur_y: &mut usize, cur_style: &mut Style)
        requires
            buffer.wf(),
            self.prev_buffer.wf(),
            self.prev_buffer.width == buffer.width,
            self.prev_buffer.height == buffer.height,
            redrawn_colors_fit(
                self.prev_buffer.view_cells(),
                buffer.width as int,
                buffer.height as int,
                buffer.view_cells(),
                buffer.width as int,
                buffer.height as int,
            ),
        ensures
            ({
                let r = diff_rows(
                    buffer.view_cells(),
                    self.prev_buffer.view_cells(),
                    buffer.width as int,
                    buffer.height as int,
                    0,
                    Pen { y: *old(cur_y) as int, style: *old(cur_style) },
                );
                &&& final(commands)@ == old(commands)@ + r.0
            }),
    {
        let ghost v = buffer.view_cells();
        let ghost p = self.prev_buffer.view_cells();
        let ghost w = buffer.width as int;
        let ghost h = buffer.height as int;
        let ghost pen0 = Pen { y: *cur_y as int, style: *cur_style };
        let ghost c0 = commands@;
        let mut y: usize = 0;
        while y < buffer.height
            invariant
                buffer.wf(),
                self.prev_buffer.wf(),
                self.prev_buffer.width == buffer.width,
                self.prev_buffer.height == buffer.height,
                v == buffer.view_cells(),
                p == self.prev_buffer.view_cells(),
                w == buffer.width,
                h == buffer.height,
                redrawn_colors_fit(p, w, h, v, w, h),
                y <= h,
                commands@ + diff_rows(v, p, w, h, y as int, Pen { y: *cur_y as int, style: *cur_style }).0 == c0
                    + diff_rows(v, p, w, h, 0, pen0).0,
            decreases h - y,
        {
            let ghost pen = Pen { y: *cur_y as int, style: *cur_style };
            let ghost before = commands@;
            self.write_row_diff(buffer, y, commands, cur_y, cur_style);
            proof {
                let r = row_diff(v, p, w, y as int, 0, 0, pen);
                assert(commands@ + diff_rows(v, p, w, h, y + 1, r.1).0 =~= before + diff_rows(v, p, w, h, y as int, pen).0);
            }
            y = y + 1;
        }
        proof {
            assert(commands@ =~= c0 + diff_rows(v, p, w, h, 0, pen0).0);
        }
    }

    /// Writes the changed cells of row `y` (see `row_diff`).
    fn write_row_diff(&self, buffer: &ScreenBuffer, y: usize, commands: &mut Vec<u8>, cur_y: &mut usize, cur_style: &mut Style)
        requires
            buffer.wf(),
            self.prev_buffer.wf(),
            self.prev_buffer.width == buffer.width,
            self.prev_buffer.height == buffer.height,
            y < buffer.height,
            redrawn_colors_fit(
                self.prev_buffer.view_cells(),
                buffer.width as int,
                buffer.height as int,
                buffer.view_cells(),
                buffer.width as int,
                buffer.height as int,
            ),
        ensures
            ({
                let r = row_diff(
                    buffer.view_cells(),
                    self.prev_buffer.view_cells(),
                    buffer.width as int,
                    y as int,
                    0,
                    0,
                    Pen { y: *old(cur_y) as int, style: *old(cur_style) },
                );
                &&& final(commands)@ == old(commands)@ + r.0
                &&& (Pen { y: *final(cur_y) as int, style: *final(cur_style) }) == r.1
            }),
    {
        let ghost v = buffer.view_cells();
        let ghost p = self.prev_buffer.view_cells();
        let ghost w = buffer.width as int;
        let ghost pen0 = Pen { y: *cur_y as int, style: *cur_style };
        let ghost c0 = commands@;
        let width = buffer.width;
        proof {
            lemma_cell_row(y as int, w, buffer.height as int);
            assert(buffer.cells@.len() == buffer.cells.len());
        }
        let mut x1: u128 = 0;
        let mut x: u128 = 0;
        while x < width as u128
            invariant
                buffer.wf(),
                self.prev_buffer.wf(),
                self.prev_buffer.width == buffer.width,
                self.prev_buffer.height == buffer.height,
                v == buffer.view_cells(),
                p == self.prev_buffer.view_cells(),
                w == buffer.width,
                width == w,
                y < buffer.height,
                y * w + w <= v.len(),
                v.len() <= usize::MAX,
                0 <= y * w,
                redrawn_colors_fit(p, w, buffer.height as int, v, w, buffer.height as int),
                forall|c: int| x1 <= c < x && c < w ==> at(v, w, c, y as int) != at(p, w, c, y as int),
                x1 <= x <= w + 3,
                commands@ + row_diff(v, p, w, y as int, x as int, x1 as int, Pen { y: *cur_y as int, style: *cur_style }).0
                    == c0 + row_diff(v, p, w, y as int, 0, 0, pen0).0,
                row_diff(v, p, w, y as int, x as int, x1 as int, Pen { y: *cur_y as int, style: *cur_style }).1
                    == row_diff(v, p, w, y as int, 0, 0, pen0).1,
            decreases w + 4 - x,
        {
            let ghost pen = Pen { y: *cur_y as int, style: *cur_style };
            let ghost before = commands@;
            let idx = y * width + x as usize;
            if buffer.same_cell_as(&self.prev_buffer, idx) {
                if x > x1 {
                    let xx = write_range(buffer, y, x1 as usize, x as usize, commands, cur_y, cur_style);
                    proof {
                        let r = write_range_spec(v, w, y as int, x1 as int, x as int, pen);
                        assert(xx == r.2);
                        if xx > x {
                            assert(commands@ + row_diff(v, p, w, y as int, xx as int, xx as int, r.1).0 =~= before + row_diff(v, p, w, y as int, x as int, x1 as int, pen).0);
                        } else {
                            assert(commands@ + row_diff(v, p, w, y as int, x + 1, x + 1, r.1).0 =~= before + row_diff(v, p, w, y as int, x as int, x1 as int, pen).0);
                        }
                    }
                    if xx > x {
                        x = xx;
                        x1 = xx;
                        continue;
                    }
                }
                x1 = x + 1;
            }
            x = x + 1;
        }
        if width as u128 > x1 {
            let ghost pen = Pen { y: *cur_y as int, style: *cur_style };
            let ghost before = commands@;
            write_range(buffer, y, x1 as usize, width, commands, cur_y, cur_style);
        }
    }

    /// Records that the terminal now shows `buffer`; the frame shown before becomes the buffer
    /// for drawing the next one. (The caller has written the commands.)
    pub fn present(&mut self, buffer: ScreenBuffer)
        requires
            buffer.wf(),
        ensures
            final(self).wf(),
            final(self).shown() == buffer,
    {
        let mut b = buffer;
        std::mem::swap(&mut b, &mut self.prev_buffer);
        self.temp_buffer = b;
    }
}

proof fn lemma_row_same_no_output(v: Seq<CellView>, w: int, y: int, x: int, pen: Pen)
    ensures
        row_diff(v, v, w, y, x, x, pen) == (Seq::<u8>::empty(), pen),
    decreases (if w > x { w - x } else { 0 }),
{
    if x < w {
        lemma_row_same_no_output(v, w, y, x + 1, pen);
    }
}

proof fn lemma_rows_same_no_output(v: Seq<CellView>, w: int, h: int, y: int, pen: Pen)
    ensures
        diff_rows(v, v, w, h, y, pen) == (Seq::<u8>::empty(), pen),
    decreases h - y,
{
    if y < h {
        lemma_row_same_no_output(v, w, y, 0, pen);
        lemma_rows_same_no_output(v, w, h, y + 1, pen);
    }
}

/// A frame equal to the one shown is not redrawn: it can be prepared whatever its colors, and
/// the commands only hide the cursor, reset the style, and carry the cursor and clipboard
/// requests.
pub proof fn lemma_unchanged_frame_writes_no_cells(
    v: Seq<CellView>,
    w: int,
    h: int,
    cursor: Option<[isize; 2]>,
    clipboard: Option<Seq<u8>>,
)
    ensures
        redrawn_colors_fit(v, w, h, v, w, h),
        frame_commands(v, w, h, v, w, h, cursor, clipboard) == cursor_hide_seq() + style_reset_to_default_seq()
            + style_reset_seq() + cursor_seq(cursor, w, h) + clipboard_seq(clipboard),
{
    let pen = Pen { y: usize::MAX as int, style: default_style() };
    lemma_rows_same_no_output(v, w, h, 0, pen);
    assert(frame_commands(v, w, h, v, w, h, cursor, clipboard) =~= cursor_hide_seq() + style_reset_to_default_seq()
        + style_reset_seq() + cursor_seq(cursor, w, h) + clipboard_seq(clipboard));
}

/// Base64 turns every three bytes, and a last one or two, into four digits.
pub proof fn lemma_base64_len(b: Seq<u8>)
    ensures
        base64(b).len() == 4 * ((b.len() + 2) / 3),
    decreases b.len(),
{
    if b.len() >= 3 {
        lemma_base64_len(b.subrange(3, b.len() as int));
    }
}


/// The column after the last cell that writing row `y` from column `x` up to `x2` writes (a
/// wide cluster covers the cells after it).
pub open spec fn range_end(v: Seq<CellView>, w: int, y: int, x: int, x2: int) -> int
    decreases (if x2 > x { x2 - x } else { 0 }),
{
    if x >= x2 {
        x
    } else {
        range_end(v, w, y, x + 1 + at(v, w, x, y).extra_width, x2)
    }
}

proof fn lemma_range_cells_end(v: Seq<CellView>, w: int, y: int, x: int, x2: int, st: Style)
    ensures
        range_cells(v, w, y, x, x2, st).2 == range_end(v, w, y, x, x2),
        x < x2 ==> range_end(v, w, y, x, x2) >= x2,
    decreases (if x2 > x { x2 - x } else { 0 }),
{
    if x < x2 {
        let c = at(v, w, x, y);
        lemma_range_cells_end(v, w, y, x + 1 + c.extra_width, x2, c.style);
    }
}

/// The runs of changed cells of row `y` that redrawing writes, scanning from column `x`, the
/// current run having started at `x1`: a run ends at the first unchanged cell or at the end
/// of the row; after a run whose last cluster is wide, scanning resumes after that cluster.
pub open spec fn row_runs(v: Seq<CellView>, p: Seq<CellView>, w: int, y: int, x: int, x1: int) -> Seq<(int, int)>
    decreases (if w > x { w - x } else { 0 }),
{
    if x >= w {
        if w > x1 {
            seq![(x1, w)]
        } else {
            Seq::empty()
        }
    } else if at(v, w, x, y) == at(p, w, x, y) {
        if x > x1 {
            let e = range_end(v, w, y, x1, x);
            if e > x {
                seq![(x1, x)] + row_runs(v, p, w, y, e, e)
            } else {
                seq![(x1, x)] + row_runs(v, p, w, y, x + 1, x + 1)
            }
        } else {
            row_runs(v, p, w, y, x + 1, x + 1)
        }
    } else {
        row_runs(v, p, w, y, x + 1, x1)
    }
}

/// Writing the runs `runs` of row `y` one after the other, from pen `pen`.
pub open spec fn write_runs(v: Seq<CellView>, w: int, y: int, runs: Seq<(int, int)>, pen: Pen) -> (Seq<u8>, Pen)
    decreases runs.len(),
{
    if runs.len() == 0 {
        (Seq::empty(), pen)
    } else {
        let r = write_range_spec(v, w, y, runs[0].0, runs[0].1, pen);
        let rest = write_runs(v, w, y, runs.drop_first(), r.1);
        (r.0 + rest.0, rest.1)
    }
}

/// Column `c` lies in run `run` or under the wide cluster that ends it.
pub open spec fn run_covers(v: Seq<CellView>, w: int, y: int, run: (int, int), c: int) -> bool {
    run.0 <= c && (c < run.1 || c < range_end(v, w, y, run.0, run.1))
}

proof fn lemma_write_runs_concat(v: Seq<CellView>, w: int, y: int, run: (int, int), rest: Seq<(int, int)>, pen: Pen)
    ensures
        write_runs(v, w, y, seq![run] + rest, pen) == ({
            let r = write_range_spec(v, w, y, run.0, run.1, pen);
            let t = write_runs(v, w, y, rest, r.1);
            (r.0 + t.0, t.1)
        }),
{
    let s = seq![run] + rest;
    assert(s[0] == run);
    assert(s.drop_first() =~= rest);
}

proof fn lemma_row_diff_runs(v: Seq<CellView>, p: Seq<CellView>, w: int, y: int, x: int, x1: int, pen: Pen)
    ensures
        row_diff(v, p, w, y, x, x1, pen) == write_runs(v, w, y, row_runs(v, p, w, y, x, x1), pen),
    decreases (if w > x { w - x } else { 0 }),
{
    if x >= w {
        if w > x1 {
            let r = write_range_spec(v, w, y, x1, w, pen);
            lemma_write_runs_concat(v, w, y, (x1, w), Seq::empty(), pen);
            assert(seq![(x1, w)] + Seq::<(int, int)>::empty() =~= seq![(x1, w)]);
            assert(r.0 + Seq::<u8>::empty() =~= r.0);
        }
    } else if at(v, w, x, y) == at(p, w, x, y) {
        if x > x1 {
            let r = write_range_spec(v, w, y, x1, x, pen);
            lemma_range_cells_end(v, w, y, x1, x, pen.style);
            let e = range_end(v, w, y, x1, x);
            if e > x {
                lemma_row_diff_runs(v, p, w, y, e, e, r.1);
                lemma_write_runs_concat(v, w, y, (x1, x), row_runs(v, p, w, y, e, e), pen);
            } else {
                lemma_row_diff_runs(v, p, w, y, x + 1, x + 1, r.1);
                lemma_write_runs_concat(v, w, y, (x1, x), row_runs(v, p, w, y, x + 1, x + 1), pen);
            }
        } else {
            lemma_row_diff_runs(v, p, w, y, x + 1, x + 1, pen);
        }
    } else {
        lemma_row_diff_runs(v, p, w, y, x + 1, x1, pen);
    }
}

proof fn lemma_row_runs_cover(v: Seq<CellView>, p: Seq<CellView>, w: int, y: int, x: int, x1: int)
    requires
        x1 <= x,
        forall|c: int| x1 <= c < x ==> at(v, w, c, y) != at(p, w, c, y),
    ensures
        forall|c: int|
            x1 <= c < w && at(v, w, c, y) != at(p, w, c, y) ==> exists|i: int|
                0 <= i < row_runs(v, p, w, y, x, x1).len() && run_covers(v, w, y, #[trigger] row_runs(v, p, w, y, x, x1)[i], c),
    decreases (if w > x { w - x } else { 0 }),
{
    let runs = row_runs(v, p, w, y, x, x1);
    if x >= w {
        assert forall|c: int| x1 <= c < w && at(v, w, c, y) != at(p, w, c, y) implies exists|i: int|
            0 <= i < runs.len() && run_covers(v, w, y, #[trigger] runs[i], c) by {
            assert(runs[0] == (x1, w));
            assert(run_covers(v, w, y, runs[0], c));
        }
    } else if at(v, w, x, y) == at(p, w, x, y) {
        if x > x1 {
            let e = range_end(v, w, y, x1, x);
            lemma_range_cells_end(v, w, y, x1, x, default_style());
            let nx = if e > x { e } else { x + 1 };
            lemma_row_runs_cover(v, p, w, y, nx, nx);
            let rest = row_runs(v, p, w, y, nx, nx);
            assert(runs == seq![(x1, x)] + rest);
            assert forall|c: int| x1 <= c < w && at(v, w, c, y) != at(p, w, c, y) implies exists|i: int|
                0 <= i < runs.len() && run_covers(v, w, y, #[trigger] runs[i], c) by {
                assert(runs[0] == (x1, x));
                if c < nx {
                    assert(run_covers(v, w, y, runs[0], c));
                } else {
                    let j = choose|j: int| 0 <= j < rest.len() && run_covers(v, w, y, #[trigger] rest[j], c);
                    assert(runs[j + 1] == rest[j]);
                }
            }
        } else {
            lemma_row_runs_cover(v, p, w, y, x + 1, x + 1);
        }
    } else {
        lemma_row_runs_cover(v, p, w, y, x + 1, x1);
    }
}

/// Redrawing a row of a frame of the shown size writes every cell that changed: the commands
/// for row `y` are those that write a list of runs of the row one after the other (each
/// moves the cursor to the run's first cell and writes its cells), and every cell of the new
/// frame that differs from the shown one lies in one of the runs (or under a wide cluster
/// that ends one), a run that reaches the row's last column included.
pub proof fn lemma_changed_cells_written(v: Seq<CellView>, p: Seq<CellView>, w: int, y: int, pen: Pen)
    ensures
        row_diff(v, p, w, y, 0, 0, pen) == write_runs(v, w, y, row_runs(v, p, w, y, 0, 0), pen),
        forall|c: int|
            0 <= c < w && at(v, w, c, y) != at(p, w, c, y) ==> exists|i: int|
                0 <= i < row_runs(v, p, w, y, 0, 0).len() && run_covers(v, w, y, #[trigger] row_runs(v, p, w, y, 0, 0)[i], c),
{
    lemma_row_diff_runs(v, p, w, y, 0, 0, pen);
    lemma_row_runs_cover(v, p, w, y, 0, 0);
}

} // verus!
