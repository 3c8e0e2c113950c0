//! Screen rectangles, colors, text style flags and style adjustments, and how colors and
//! style flags are written as parameters of an ANSI "select graphic rendition" sequence.

use vstd::prelude::*;
use crate::ansi::{dec, push_decimal};

verus! {

/// An axis-aligned rectangle of terminal cells: `pos` is the top-left corner, `size` the
/// width and height. Index 0 is the x axis, index 1 the y axis.
#[derive(Clone, Copy, Debug)]
pub struct Rect {
    pub pos: [isize; 2],
    pub size: [usize; 2],
}

/// Coordinate one past the last cell of `r` along `axis`.
pub open spec fn rect_end(r: Rect, axis: int) -> int {
    r.pos[axis] + r.size[axis]
}

/// Whether every edge of `r` can be computed in `isize`.
pub open spec fn rect_fits(r: Rect) -> bool {
    &&& r.size[0] <= isize::MAX
    &&& r.size[1] <= isize::MAX
    &&& isize::MIN <= rect_end(r, 0) <= isize::MAX
    &&& isize::MIN <= rect_end(r, 1) <= isize::MAX
}

/// Largest of two integers.
pub open spec fn max_int(a: int, b: int) -> int {
    if a >= b { a } else { b }
}

/// Smallest of two integers.
pub open spec fn min_int(a: int, b: int) -> int {
    if a <= b { a } else { b }
}

/// Start of the intersection of `a` and `b` along `axis`.
pub open spec fn isect_start(a: Rect, b: Rect, axis: int) -> int {
    max_int(a.pos[axis] as int, b.pos[axis] as int)
}

/// Length of the intersection of `a` and `b` along `axis` (zero when they do not overlap).
pub open spec fn isect_len(a: Rect, b: Rect, axis: int) -> int {
    max_int(min_int(rect_end(a, axis), rect_end(b, axis)) - isect_start(a, b, axis), 0)
}

/// Position along one axis after moving both edges outwards by `delta`.
pub open spec fn inflate_pos(pos: int, size: int, delta: int) -> int {
    if size + 2 * delta < 0 { pos + size / 2 } else { pos - delta }
}

/// Size along one axis after moving both edges outwards by `delta`; a rectangle that would
/// get a negative size shrinks to a point.
pub open spec fn inflate_size(size: int, delta: int) -> int {
    if size + 2 * delta < 0 { 0 } else { size + 2 * delta }
}

/// Whether the edges of `r` moved outwards by `delta` can be computed in `isize`.
pub open spec fn inflate_fits(r: Rect, delta: int) -> bool {
    &&& r.size[0] <= isize::MAX
    &&& r.size[1] <= isize::MAX
    &&& isize::MIN <= 2 * delta <= isize::MAX
    &&& isize::MIN <= r.size[0] + 2 * delta <= isize::MAX
    &&& isize::MIN <= r.size[1] + 2 * delta <= isize::MAX
    &&& isize::MIN <= inflate_pos(r.pos[0] as int, r.size[0] as int, delta) <= isize::MAX
    &&& isize::MIN <= inflate_pos(r.pos[1] as int, r.size[1] as int, delta) <= isize::MAX
}

impl Rect {
    /// Coordinate one past the last cell along `axis`.
    pub fn end(&self, axis: usize) -> (r: isize)
        requires
            axis < 2,
            self.size[axis as int] <= isize::MAX,
            isize::MIN <= rect_end(*self, axis as int) <= isize::MAX,
        ensures
            r == rect_end(*self, axis as int),
    {
        self.pos[axis] + self.size[axis] as isize
    }

    pub fn x(&self) -> (r: isize)
        ensures
            r == self.pos[0],
    {
        self.pos[0]
    }

    pub fn y(&self) -> (r: isize)
        ensures
            r == self.pos[1],
    {
        self.pos[1]
    }

    pub fn width(&self) -> (r: usize)
        ensures
            r == self.size[0],
    {
        self.size[0]
    }

    pub fn height(&self) -> (r: usize)
        ensures
            r == self.size[1],
    {
        self.size[1]
    }

    pub fn right(&self) -> (r: isize)
        requires
            self.size[0] <= isize::MAX,
            isize::MIN <= rect_end(*self, 0) <= isize::MAX,
        ensures
            r == rect_end(*self, 0),
    {
        self.end(0)
    }

    pub fn bottom(&self) -> (r: isize)
        requires
            self.size[1] <= isize::MAX,
            isize::MIN <= rect_end(*self, 1) <= isize::MAX,
        ensures
            r == rect_end(*self, 1),
    {
        self.end(1)
    }

    /// The cell in the middle (rounding towards the top-left).
    pub fn center(&self) -> (r: [isize; 2])
        requires
            rect_fits(*self),
        ensures
            r[0] == self.pos[0] + self.size[0] as int / 2,
            r[1] == self.pos[1] + self.size[1] as int / 2,
    {
        [self.pos[0] + self.size[0] as isize / 2, self.pos[1] + self.size[1] as isize / 2]
    }

    pub fn y_range(&self) -> (r: std::ops::Range<isize>)
        requires
            self.size[1] <= isize::MAX,
            isize::MIN <= rect_end(*self, 1) <= isize::MAX,
        ensures
            r.start == self.pos[1],
            r.end == rect_end(*self, 1),
    {
        self.pos[1]..self.pos[1] + self.size[1] as isize
    }

    pub fn x_range(&self) -> (r: std::ops::Range<isize>)
        requires
            self.size[0] <= isize::MAX,
            isize::MIN <= rect_end(*self, 0) <= isize::MAX,
        ensures
            r.start == self.pos[0],
            r.end == rect_end(*self, 0),
    {
        self.pos[0]..self.pos[0] + self.size[0] as isize
    }

    /// The cells that belong to both rectangles; an empty result keeps the position where the
    /// overlap would start.
    pub fn intersection(self, r: Rect) -> (res: Rect)
        requires
            rect_fits(self),
            rect_fits(r),
        ensures
            res.pos[0] == isect_start(self, r, 0),
            res.pos[1] == isect_start(self, r, 1),
            res.size[0] == isect_len(self, r, 0),
            res.size[1] == isect_len(self, r, 1),
            rect_fits(res),
    {
        let mut s = self;
        let mut axis: usize = 0;
        while axis < 2
            invariant
                axis <= 2,
                forall|a: int| axis <= a < 2 ==> s.pos[a] == self.pos[a] && s.size[a] == self.size[a],
                forall|a: int|
                    0 <= a < axis ==> s.pos[a] == isect_start(self, r, a) && s.size[a] == isect_len(
                        self,
                        r,
                        a,
                    ),
                rect_fits(self),
                rect_fits(r),
            decreases 2 - axis,
        {
            let p = if s.pos[axis] >= r.pos[axis] { s.pos[axis] } else { r.pos[axis] };
            let e1 = s.end(axis);
            let e2 = r.end(axis);
            let e = if e1 <= e2 { e1 } else { e2 };
            let len: usize = if e >= p { (e as i128 - p as i128) as usize } else { 0 };
            s.size[axis] = len;
            s.pos[axis] = p;
            axis = axis + 1;
        }
        proof {
            assert(isect_len(self, r, 0) <= self.size[0]);
            assert(isect_len(self, r, 1) <= self.size[1]);
            assert(rect_end(s, 0) == isect_start(self, r, 0) + isect_len(self, r, 0));
            assert(rect_end(s, 1) == isect_start(self, r, 1) + isect_len(self, r, 1));
        }
        s
    }

    pub fn is_empty(&self) -> (r: bool)
        ensures
            r == (self.size[0] == 0 || self.size[1] == 0),
    {
        self.size[0] == 0 || self.size[1] == 0
    }

    pub fn contains(&self, pos: [isize; 2]) -> (r: bool)
        requires
            rect_fits(*self),
        ensures
            r == (self.pos[0] <= pos[0] < rect_end(*self, 0) && self.pos[1] <= pos[1] < rect_end(
                *self,
                1,
            )),
    {
        self.pos[0] <= pos[0] && self.end(0) > pos[0] && self.pos[1] <= pos[1] && self.end(1)
            > pos[1]
    }

    /// Moves all 4 edges outwards by `delta`; a negative `delta` moves them inwards, and a
    /// dimension that would become negative shrinks to a point in its middle.
    pub fn inflate(&self, delta: isize) -> (res: Self)
        requires
            inflate_fits(*self, delta as int),
        ensures
            res.pos[0] == inflate_pos(self.pos[0] as int, self.size[0] as int, delta as int),
            res.pos[1] == inflate_pos(self.pos[1] as int, self.size[1] as int, delta as int),
            res.size[0] == inflate_size(self.size[0] as int, delta as int),
            res.size[1] == inflate_size(self.size[1] as int, delta as int),
    {
        let mut r = *self;
        let mut i: usize = 0;
        while i < 2
            invariant
                i <= 2,
                inflate_fits(*self, delta as int),
                forall|a: int| i <= a < 2 ==> r.pos[a] == self.pos[a] && r.size[a] == self.size[a],
                forall|a: int|
                    0 <= a < i ==> r.pos[a] == inflate_pos(
                        self.pos[a] as int,
                        self.size[a] as int,
                        delta as int,
                    ) && r.size[a] == inflate_size(self.size[a] as int, delta as int),
            decreases 2 - i,
        {
            let new_size = r.size[i] as isize + delta * 2;
            if new_size < 0 {
                r.pos[i] = r.pos[i] + r.size[i] as isize / 2;
                r.size[i] = 0;
            } else {
                r.pos[i] = r.pos[i] - delta;
                r.size[i] = new_size as usize;
            }
            i = i + 1;
        }
        r
    }
}

impl PartialEq for Rect {
    fn eq(&self, other: &Self) -> (r: bool) {
        self.pos[0] == other.pos[0] && self.pos[1] == other.pos[1] && self.size[0] == other.size[0]
            && self.size[1] == other.size[1]
    }
}

impl vstd::std_specs::cmp::PartialEqSpecImpl for Rect {
    open spec fn obeys_eq_spec() -> bool {
        true
    }

    open spec fn eq_spec(&self, other: &Self) -> bool {
        self.pos[0] == other.pos[0] && self.pos[1] == other.pos[1] && self.size[0] == other.size[0]
            && self.size[1] == other.size[1]
    }
}

impl Eq for Rect {}

impl Default for Rect {
    fn default() -> (r: Self)
        ensures
            r.pos[0] == 0 && r.pos[1] == 0 && r.size[0] == 0 && r.size[1] == 0,
    {
        Rect { pos: [0, 0], size: [0, 0] }
    }
}

/// Colors that can appear in ANSI escape codes.
#[derive(Clone, Copy, PartialEq, Eq, Structural, Debug)]
pub enum Color {
    /// `ESC[(38|48);2;<r>;<g>;<b>m`
    Rgb(u8, u8, u8),
    /// `ESC[(38|48);5;<n>m`
    Palette256(u8),
    /// `ESC[(30-37|40-47)m`
    Palette8(u8),
    /// `ESC[(90-97|100-107)m`
    Palette8Bright(u8),
    /// `ESC[(39|49)m`
    TerminalDefault,
}

impl Default for Color {
    fn default() -> (r: Self)
        ensures
            r == Color::Rgb(255, 255, 255),
    {
        Color::Rgb(255, 255, 255)
    }
}

/// One channel of a darkened color: two thirds, rounded down.
pub open spec fn darker_channel(x: u8) -> u8 {
    (x as int * 2 / 3) as u8
}

/// Bytes of a `;` separator.
pub open spec fn semi() -> Seq<u8> {
    seq![59u8]
}

/// Whether `c` can be written with the given foreground/background offset without any
/// parameter exceeding 255.
pub open spec fn color_ansi_fits(c: Color, bg_or_fg: u8) -> bool {
    match c {
        Color::Rgb(_, _, _) | Color::Palette256(_) => 38 + bg_or_fg <= 255,
        Color::Palette8(n) => 30 + bg_or_fg + n <= 255,
        Color::Palette8Bright(n) => 90 + bg_or_fg + n <= 255,
        Color::TerminalDefault => 39 + bg_or_fg <= 255,
    }
}

/// The SGR parameters that select color `c`, each followed by `;`. `bg_or_fg` is 0 for the
/// foreground color and 10 for the background color.
pub open spec fn color_ansi(c: Color, bg_or_fg: u8) -> Seq<u8> {
    match c {
        Color::Rgb(r, g, b) => dec((38 + bg_or_fg) as nat) + seq![59u8, 50u8, 59u8] + dec(r as nat)
            + semi() + dec(g as nat) + semi() + dec(b as nat) + semi(),
        Color::Palette256(n) => dec((38 + bg_or_fg) as nat) + seq![59u8, 53u8, 59u8] + dec(
            n as nat,
        ) + semi(),
        Color::Palette8(n) => dec((30 + bg_or_fg + n) as nat) + semi(),
        Color::Palette8Bright(n) => dec((90 + bg_or_fg + n) as nat) + semi(),
        Color::TerminalDefault => dec((39 + bg_or_fg) as nat) + semi(),
    }
}

impl Color {
    pub fn white() -> (r: Self)
        ensures
            r == Color::Rgb(255, 255, 255),
    {
        Color::Rgb(255, 255, 255)
    }

    pub fn black() -> (r: Self)
        ensures
            r == Color::Rgb(0, 0, 0),
    {
        Color::Rgb(0, 0, 0)
    }

    /// An RGB color with each channel reduced to two thirds; other colors are unchanged.
    pub fn darker(self) -> (res: Self)
        ensures
            res == (match self {
                Color::Rgb(r, g, b) => Color::Rgb(darker_channel(r), darker_channel(g), darker_channel(b)),
                _ => self,
            }),
    {
        match self {
            Color::Rgb(r, g, b) => Color::Rgb(
                (r as usize * 2 / 3) as u8,
                (g as usize * 2 / 3) as u8,
                (b as usize * 2 / 3) as u8,
            ),
            _ => self,
        }
    }

    /// Appends the SGR parameters that select this color. `bg_or_fg` is 0 for the foreground
    /// color, 10 for the background color.
    pub fn write_ansi(self, out: &mut Vec<u8>, bg_or_fg: u8)
        requires
            color_ansi_fits(self, bg_or_fg),
        ensures
            final(out)@ == old(out)@ + color_ansi(self, bg_or_fg),
    {
        let ghost start = out@;
        match self {
            Color::Rgb(r, g, b) => {
                push_decimal(out, (38 + bg_or_fg) as u64);
                out.push(59u8);
                out.push(50u8);
                out.push(59u8);
                push_decimal(out, r as u64);
                out.push(59u8);
                push_decimal(out, g as u64);
                out.push(59u8);
                push_decimal(out, b as u64);
                out.push(59u8);
                proof {
                    assert(out@ =~= start + color_ansi(self, bg_or_fg));
                }
            },
            Color::Palette256(n) => {
                push_decimal(out, (38 + bg_or_fg) as u64);
                out.push(59u8);
                out.push(53u8);
                out.push(59u8);
                push_decimal(out, n as u64);
                out.push(59u8);
                proof {
                    assert(out@ =~= start + color_ansi(self, bg_or_fg));
                }
            },
            Color::Palette8(n) => {
                push_decimal(out, (30 + bg_or_fg + n) as u64);
                out.push(59u8);
                proof {
                    assert(out@ =~= start + color_ansi(self, bg_or_fg));
                }
            },
            Color::Palette8Bright(n) => {
                push_decimal(out, (90 + bg_or_fg + n) as u64);
                out.push(59u8);
                proof {
                    assert(out@ =~= start + color_ansi(self, bg_or_fg));
                }
            },
            Color::TerminalDefault => {
                push_decimal(out, (39 + bg_or_fg) as u64);
                out.push(59u8);
                proof {
                    assert(out@ =~= start + color_ansi(self, bg_or_fg));
                }
            },
        }
    }
}

/// Style flags that can appear in ANSI escape codes, as a set of bits.
#[derive(Clone, Copy, PartialEq, Eq, Structural, Debug, Hash)]
pub struct Modifier {
    pub bits: u8,
}

impl Modifier {
    pub fn bold() -> (r: Modifier)
        ensures
            r.bits == 0x1,
    {
        Modifier { bits: 0x1 }
    }
    pub fn underlined() -> (r: Modifier)
        ensures
            r.bits == 0x2,
    {
        Modifier { bits: 0x2 }
    }
    pub fn dim() -> (r: Modifier)
        ensures
            r.bits == 0x4,
    {
        Modifier { bits: 0x4 }
    }
    pub fn italic() -> (r: Modifier)
        ensures
            r.bits == 0x8,
    {
        Modifier { bits: 0x8 }
    }
    pub fn slow_blink() -> (r: Modifier)
        ensures
            r.bits == 0x10,
    {
        Modifier { bits: 0x10 }
    }
    pub fn rapid_blink() -> (r: Modifier)
        ensures
            r.bits == 0x20,
    {
        Modifier { bits: 0x20 }
    }
    pub fn invert() -> (r: Modifier)
        ensures
            r.bits == 0x40,
    {
        Modifier { bits: 0x40 }
    }
    pub fn strikethrough() -> (r: Modifier)
        ensures
            r.bits == 0x80,
    {
        Modifier { bits: 0x80 }
    }

    pub fn empty() -> (r: Modifier)
        ensures
            r.bits == 0,
    {
        Modifier { bits: 0 }
    }

    pub fn from_bits(bits: u8) -> (r: Modifier)
        ensures
            r.bits == bits,
    {
        Modifier { bits }
    }

    pub fn is_empty(&self) -> (r: bool)
        ensures
            r == (self.bits == 0),
    {
        self.bits == 0
    }

    /// Whether every flag of `other` is set in `self`.
    pub fn contains(&self, other: Modifier) -> (r: bool)
        ensures
            r == (self.bits & other.bits == other.bits),
    {
        self.bits & other.bits == other.bits
    }

    /// Whether some flag of `other` is set in `self`.
    pub fn intersects(&self, other: Modifier) -> (r: bool)
        ensures
            r == (self.bits & other.bits != 0),
    {
        self.bits & other.bits != 0
    }

    pub fn insert(&mut self, other: Modifier)
        ensures
            final(self).bits == old(self).bits | other.bits,
    {
        self.bits = self.bits | other.bits;
    }

    pub fn remove(&mut self, other: Modifier)
        ensures
            final(self).bits == old(self).bits & !other.bits,
    {
        self.bits = self.bits & !other.bits;
    }

    pub fn union(self, other: Modifier) -> (r: Modifier)
        ensures
            r.bits == self.bits | other.bits,
    {
        Modifier { bits: self.bits | other.bits }
    }

    /// The flags set in exactly one of the two sets.
    pub fn symmetric_difference(self, other: Modifier) -> (r: Modifier)
        ensures
            r.bits == self.bits ^ other.bits,
    {
        Modifier { bits: self.bits ^ other.bits }
    }
}

impl Default for Modifier {
    fn default() -> (r: Self)
        ensures
            r.bits == 0,
    {
        Modifier { bits: 0 }
    }
}

/// The SGR code for `bit` when it changed between `old` and `new`: `on` if `new` has it,
/// `off` otherwise; nothing when it did not change.
pub open spec fn flag_code(diff: u8, new: u8, bit: u8, on: nat, off: nat) -> Seq<u8> {
    if diff & bit == bit {
        dec(if new & bit == bit { on } else { off }) + semi()
    } else {
        seq![]
    }
}

/// Codes for two flags that can only be turned off together: when either changed, the
/// common reset code followed by the codes of those of the two that `new` has.
pub open spec fn group_code(diff: u8, new: u8, both: u8, reset: nat, a: u8, on_a: nat, b: u8, on_b: nat) -> Seq<u8> {
    if diff & both != 0 {
        dec(reset) + semi() + (if new & a == a { dec(on_a) + semi() } else { seq![] }) + (if new & b
            == b {
            dec(on_b) + semi()
        } else {
            seq![]
        })
    } else {
        seq![]
    }
}

/// The SGR parameters (each followed by `;`) that switch the style flags from `prev` to
/// `new`. Bold and dim can only be turned off together (code 22), as can the two kinds of
/// blinking (code 25).
pub open spec fn modifier_diff_ansi(prev: Modifier, new: Modifier) -> Seq<u8> {
    let diff = prev.bits ^ new.bits;
    let n = new.bits;
    if diff == 0 {
        seq![]
    } else {
        group_code(diff, n, 0x5, 22, 0x1, 1, 0x4, 2) + group_code(diff, n, 0x30, 25, 0x10, 5, 0x20, 6)
            + flag_code(diff, n, 0x8, 3, 23) + flag_code(diff, n, 0x2, 4, 24) + flag_code(
            diff,
            n,
            0x40,
            7,
            27,
        ) + flag_code(diff, n, 0x80, 9, 29)
    }
}

fn write_flag_code(out: &mut Vec<u8>, diff: Modifier, new: Modifier, bit: Modifier, on: u64, off: u64)
    ensures
        final(out)@ == old(out)@ + flag_code(diff.bits, new.bits, bit.bits, on as nat, off as nat),
{
    if diff.contains(bit) {
        push_decimal(out, if new.contains(bit) { on } else { off });
        out.push(59u8);
    }
}

fn write_group_code(
    out: &mut Vec<u8>,
    diff: Modifier,
    new: Modifier,
    both: Modifier,
    reset: u64,
    a: Modifier,
    on_a: u64,
    b: Modifier,
    on_b: u64,
)
    ensures
        final(out)@ == old(out)@ + group_code(
            diff.bits,
            new.bits,
            both.bits,
            reset as nat,
            a.bits,
            on_a as nat,
            b.bits,
            on_b as nat,
        ),
{
    let ghost start = out@;
    if diff.intersects(both) {
        push_decimal(out, reset);
        out.push(59u8);
        let ghost s1 = out@;
        if new.contains(a) {
            push_decimal(out, on_a);
            out.push(59u8);
        }
        let ghost s2 = out@;
        if new.contains(b) {
            push_decimal(out, on_b);
            out.push(59u8);
        }
        proof {
            assert(out@ =~= start + group_code(
                diff.bits,
                new.bits,
                both.bits,
                reset as nat,
                a.bits,
                on_a as nat,
                b.bits,
                on_b as nat,
            ));
        }
    }
}

/// Appends the SGR parameters that switch the style flags from `prev` to `new`.
pub fn modifier_diff_write_ansi(prev: Modifier, new: Modifier, out: &mut Vec<u8>)
    ensures
        final(out)@ == old(out)@ + modifier_diff_ansi(prev, new),
{
    let ghost start = out@;
    let diff = prev.symmetric_difference(new);
    if diff.is_empty() {
        proof {
            assert(out@ =~= start + modifier_diff_ansi(prev, new));
        }
        return;
    }
    assert(0x1u8 | 0x4u8 == 0x5u8) by (bit_vector);
    assert(0x10u8 | 0x20u8 == 0x30u8) by (bit_vector);
    write_group_code(out, diff, new, Modifier::bold().union(Modifier::dim()), 22, Modifier::bold(), 1, Modifier::dim(), 2);
    write_group_code(out, diff, new, Modifier::slow_blink().union(Modifier::rapid_blink()), 25, Modifier::slow_blink(), 5, Modifier::rapid_blink(), 6);
    write_flag_code(out, diff, new, Modifier::italic(), 3, 23);
    write_flag_code(out, diff, new, Modifier::underlined(), 4, 24);
    write_flag_code(out, diff, new, Modifier::invert(), 7, 27);
    write_flag_code(out, diff, new, Modifier::strikethrough(), 9, 29);
    proof {
        assert(out@ =~= start + modifier_diff_ansi(prev, new));
    }
}

/// Foreground color, background color and style flags of a piece of text.
#[derive(Clone, Copy, PartialEq, Eq, Structural, Debug)]
pub struct Style {
    pub fg: Color,
    pub bg: Color,
    pub modifier: Modifier,
}

/// The default style: white on white, no flags.
pub open spec fn default_style() -> Style {
    Style { fg: Color::Rgb(255, 255, 255), bg: Color::Rgb(255, 255, 255), modifier: Modifier { bits: 0 } }
}

impl Default for Style {
    fn default() -> (r: Self)
        ensures
            r == default_style(),
    {
        Style { fg: Color::Rgb(255, 255, 255), bg: Color::Rgb(255, 255, 255), modifier: Modifier { bits: 0 } }
    }
}

/// `s` with its foreground and background colors swapped.
pub open spec fn flipped(s: Style) -> Style {
    Style { fg: s.bg, bg: s.fg, modifier: s.modifier }
}

impl Style {
    /// Swaps the foreground and background colors.
    pub fn flip(self) -> (r: Self)
        ensures
            r == flipped(self),
    {
        Style { fg: self.bg, bg: self.fg, modifier: self.modifier }
    }

    pub fn add_modifier(self, m: Modifier) -> (r: Self)
        ensures
            r == (Style { modifier: Modifier { bits: self.modifier.bits | m.bits }, ..self }),
    {
        let mut s = self;
        s.modifier.insert(m);
        s
    }
}

/// A relative change of a style: amounts added to the RGB channels of the colors (colors
/// from a palette are left alone) and style flags to add and remove.
#[derive(Clone, Copy, Debug)]
pub struct StyleAdjustment {
    pub add_fg: (i16, i16, i16),
    pub add_bg: (i16, i16, i16),
    pub add_modifier: Modifier,
    pub remove_modifier: Modifier,
}

impl Default for StyleAdjustment {
    fn default() -> (r: Self)
        ensures
            r == (StyleAdjustment {
                add_fg: (0, 0, 0),
                add_bg: (0, 0, 0),
                add_modifier: Modifier { bits: 0 },
                remove_modifier: Modifier { bits: 0 },
            }),
    {
        StyleAdjustment {
            add_fg: (0, 0, 0),
            add_bg: (0, 0, 0),
            add_modifier: Modifier { bits: 0 },
            remove_modifier: Modifier { bits: 0 },
        }
    }
}

/// `x + y` clamped to the range of a color channel.
pub open spec fn adjust_channel(x: u8, y: i16) -> u8 {
    if x + y < 0 {
        0
    } else if x + y > 255 {
        255
    } else {
        (x + y) as u8
    }
}

/// A color with `add` added to its RGB channels; palette colors are unchanged.
pub open spec fn adjust_color(c: Color, add: (i16, i16, i16)) -> Color {
    match c {
        Color::Rgb(r, g, b) => Color::Rgb(
            adjust_channel(r, add.0),
            adjust_channel(g, add.1),
            adjust_channel(b, add.2),
        ),
        _ => c,
    }
}

/// `x + y` saturated to the range of `i16`.
pub open spec fn sat_i16(x: i16, y: i16) -> i16 {
    if x + y > i16::MAX {
        i16::MAX
    } else if x + y < i16::MIN {
        i16::MIN
    } else {
        (x + y) as i16
    }
}

/// The result of applying adjustment `a` to style `s`.
pub open spec fn apply_spec(a: StyleAdjustment, s: Style) -> Style {
    Style {
        fg: adjust_color(s.fg, a.add_fg),
        bg: adjust_color(s.bg, a.add_bg),
        modifier: Modifier {
            bits: (s.modifier.bits & !a.remove_modifier.bits) | a.add_modifier.bits,
        },
    }
}

/// The adjustment that adds the amounts of both adjustments (saturating) and the flags of both.
pub open spec fn combine_spec(a: StyleAdjustment, b: StyleAdjustment) -> StyleAdjustment {
    StyleAdjustment {
        add_fg: (sat_i16(a.add_fg.0, b.add_fg.0), sat_i16(a.add_fg.1, b.add_fg.1), sat_i16(
            a.add_fg.2,
            b.add_fg.2,
        )),
        add_bg: (sat_i16(a.add_bg.0, b.add_bg.0), sat_i16(a.add_bg.1, b.add_bg.1), sat_i16(
            a.add_bg.2,
            b.add_bg.2,
        )),
        add_modifier: Modifier { bits: a.add_modifier.bits | b.add_modifier.bits },
        remove_modifier: Modifier { bits: a.remove_modifier.bits | b.remove_modifier.bits },
    }
}

fn add_channel(x: u8, y: i16) -> (r: u8)
    ensures
        r == adjust_channel(x, y),
{
    let v: i32 = y as i32 + x as i32;
    if v < 0 {
        0
    } else if v > 255 {
        255
    } else {
        v as u8
    }
}

fn add_color(c: Color, y: (i16, i16, i16)) -> (r: Color)
    ensures
        r == adjust_color(c, y),
{
    match c {
        Color::Rgb(r, g, b) => Color::Rgb(add_channel(r, y.0), add_channel(g, y.1), add_channel(b, y.2)),
        _ => c,
    }
}

fn saturating_add_i16(x: i16, y: i16) -> (r: i16)
    ensures
        r == sat_i16(x, y),
{
    let v: i32 = x as i32 + y as i32;
    if v > 32767 {
        i16::MAX
    } else if v < -32768 {
        i16::MIN
    } else {
        v as i16
    }
}

fn saturating_add3(x: (i16, i16, i16), y: (i16, i16, i16)) -> (r: (i16, i16, i16))
    ensures
        r == (sat_i16(x.0, y.0), sat_i16(x.1, y.1), sat_i16(x.2, y.2)),
{
    (saturating_add_i16(x.0, y.0), saturating_add_i16(x.1, y.1), saturating_add_i16(x.2, y.2))
}

impl StyleAdjustment {
    /// Adds the color amounts to the RGB channels (clamped to 0..=255), then removes
    /// `remove_modifier` and adds `add_modifier`.
    pub fn apply(self, s: Style) -> (r: Style)
        ensures
            r == apply_spec(self, s),
    {
        Style {
            fg: add_color(s.fg, self.add_fg),
            bg: add_color(s.bg, self.add_bg),
            modifier: Modifier {
                bits: (s.modifier.bits & !self.remove_modifier.bits) | self.add_modifier.bits,
            },
        }
    }

    pub fn combine(self, other: Self) -> (r: Self)
        ensures
            r == combine_spec(self, other),
    {
        StyleAdjustment {
            add_fg: saturating_add3(self.add_fg, other.add_fg),
            add_bg: saturating_add3(self.add_bg, other.add_bg),
            add_modifier: self.add_modifier.union(other.add_modifier),
            remove_modifier: self.remove_modifier.union(other.remove_modifier),
        }
    }

    pub fn update(&mut self, other: Self)
        ensures
            *final(self) == combine_spec(*old(self), other),
    {
        *self = self.combine(other);
    }
}


/// A cell lies in the intersection of two rectangles exactly when it lies in both, along
/// each axis.
pub proof fn lemma_intersection_is_common_part(a: Rect, b: Rect, axis: int, p: int)
    requires
        0 <= axis < 2,
    ensures
        (isect_start(a, b, axis) <= p < isect_start(a, b, axis) + isect_len(a, b, axis)) <==> (
        a.pos[axis] <= p < rect_end(a, axis) && b.pos[axis] <= p < rect_end(b, axis)),
{
}

/// Flipping a style twice gives it back.
pub proof fn lemma_flip_twice(s: Style)
    ensures
        flipped(flipped(s)) == s,
{
}

/// The order in which two adjustments are combined does not matter.
pub proof fn lemma_combine_commutes(a: StyleAdjustment, b: StyleAdjustment)
    ensures
        combine_spec(a, b) == combine_spec(b, a),
{
    let (x1, y1) = (a.add_modifier.bits, b.add_modifier.bits);
    let (x2, y2) = (a.remove_modifier.bits, b.remove_modifier.bits);
    assert(x1 | y1 == y1 | x1) by (bit_vector);
    assert(x2 | y2 == y2 | x2) by (bit_vector);
}

/// The default adjustment changes no style, and combining it with another adjustment gives
/// that adjustment.
pub proof fn lemma_default_adjustment_is_neutral(a: StyleAdjustment, s: Style)
    ensures
        ({
            let z = StyleAdjustment {
                add_fg: (0, 0, 0),
                add_bg: (0, 0, 0),
                add_modifier: Modifier { bits: 0 },
                remove_modifier: Modifier { bits: 0 },
            };
            &&& apply_spec(z, s) == s
            &&& combine_spec(z, a) == a
        }),
{
    let m = s.modifier.bits;
    assert((m & !0u8) | 0u8 == m) by (bit_vector);
    let x = a.add_modifier.bits;
    let y = a.remove_modifier.bits;
    assert(0u8 | x == x) by (bit_vector);
    assert(0u8 | y == y) by (bit_vector);
}

/// After inserting flags into a set, the set contains them; after removing them, it has none
/// of them.
pub proof fn lemma_insert_then_contains(m: Modifier, other: Modifier)
    ensures
        (m.bits | other.bits) & other.bits == other.bits,
        (m.bits & !other.bits) & other.bits == 0,
{
    let x = m.bits;
    let y = other.bits;
    assert((x | y) & y == y) by (bit_vector);
    assert((x & !y) & y == 0) by (bit_vector);
}


/// A color's SGR parameters select the layer asked for: written for the foreground (0), the
/// first parameter is a foreground code (30-37 for the eight colors, 38 for a 256-color or
/// RGB color, 39 for the default, 90-97 for the bright colors), and written for the
/// background (10) it is that code plus 10, with the rest unchanged.
pub proof fn lemma_color_layers(c: Color)
    requires
        match c {
            Color::Palette8(n) | Color::Palette8Bright(n) => n < 8,
            _ => true,
        },
    ensures
        exists|f: nat, rest: Seq<u8>|
            #![trigger dec(f).add(rest)]
            {
                &&& color_ansi(c, 0) == dec(f) + rest
                &&& color_ansi(c, 10) == dec(f + 10) + rest
                &&& rest.len() > 0 && rest[0] == 59u8
                &&& (30 <= f <= 39 || 90 <= f <= 97)
                &&& (f == 38 <==> (c is Rgb || c is Palette256))
                &&& (f == 39 <==> c is TerminalDefault)
                &&& (c matches Color::Palette8(n) ==> f == 30 + n)
                &&& (c matches Color::Palette8Bright(n) ==> f == 90 + n)
            },
{
    match c {
        Color::Rgb(r, g, b) => {
            let rest = seq![59u8, 50u8, 59u8] + dec(r as nat) + semi() + dec(g as nat) + semi() + dec(b as nat) + semi();
            assert(color_ansi(c, 0) =~= dec(38) + rest);
            assert(color_ansi(c, 10) =~= dec(48) + rest);
            assert(dec(38nat + 10) == dec(48));
        },
        Color::Palette256(n) => {
            let rest = seq![59u8, 53u8, 59u8] + dec(n as nat) + semi();
            assert(color_ansi(c, 0) =~= dec(38) + rest);
            assert(color_ansi(c, 10) =~= dec(48) + rest);
            assert(dec(38nat + 10) == dec(48));
        },
        Color::Palette8(n) => {
            let f = (30 + n) as nat;
            assert(color_ansi(c, 0) =~= dec(f) + semi());
            assert(color_ansi(c, 10) =~= dec(f + 10) + semi());
        },
        Color::Palette8Bright(n) => {
            let f = (90 + n) as nat;
            assert(color_ansi(c, 0) =~= dec(f) + semi());
            assert(color_ansi(c, 10) =~= dec(f + 10) + semi());
        },
        Color::TerminalDefault => {
            assert(color_ansi(c, 0) =~= dec(39) + semi());
            assert(color_ansi(c, 10) =~= dec(39nat + 10) + semi());
        },
    }
}

} // verus!
