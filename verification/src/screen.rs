//! The screen as a grid of cells, each holding one extended grapheme cluster and its style,
//! and the terminal front end that turns a frame into the ANSI escape sequences that update
//! the terminal from the previous frame.

use vstd::prelude::*;
use vstd::utf8::*;
use vstd::string::*;
use crate::common_ui::Rect;
use crate::common_ui::Style;
use crate::common_ui::rect_end;
use crate::common_ui::rect_fits;
use crate::common_ui::isect_start;
use crate::common_ui::isect_len;
use crate::common_ui::default_style;
use crate::utf8_text::str_from_utf8;
use crate::utf8_text::substr;
use crate::utf8_text::utf8;
use crate::text_width::grapheme_starts;
use crate::text_width::is_segmentation;
use crate::text_width::gcount;
use crate::text_width::gstart;
use crate::text_width::gend;
use crate::text_width::gwidth;
use crate::text_width::wsum;
use crate::text_width::str_width_spec;
use crate::text_width::str_width;
use crate::text_width::grapheme_at;
use crate::text_width::grapheme_offsets;

verus! {

broadcast use vstd::utf8::group_utf8_lib;

/// One cell of the screen. The grapheme cluster is stored inline when it has at most 4 bytes
/// and in the buffer's `long_graphemes` otherwise (`data` is then its offset there, little
/// endian). The low 6 bits of `len_and_width` are the length in bytes, the high 2 bits the
/// width minus one. A wide cluster lives in the leftmost of its cells; the cells it covers
/// hold spaces.
#[derive(Clone, Copy)]
pub struct ScreenCell {
    pub style: Style,
    len_and_width: u8,
    data: [u8; 4],
}

impl Default for ScreenCell {
    fn default() -> (r: Self)
        ensures
            r.style_of() == default_style(),
            r.text_len() == 1,
            r.extra() == 0,
            r.inline_bytes() == seq![32u8, 0u8, 0u8, 0u8],
    {
        let r = ScreenCell { style: Style::default(), len_and_width: 1, data: [32u8, 0, 0, 0] };
        proof {
            assert(1u8 & 63 == 1 && 1u8 >> 6 == 0) by (bit_vector);
            assert(r.data@ =~= seq![32u8, 0u8, 0u8, 0u8]);
        }
        r
    }
}

/// The number coded by four bytes, least significant first.
pub open spec fn le32(d: Seq<u8>) -> int {
    d[0] + 256 * d[1] + 65536 * d[2] + 16777216 * d[3]
}

impl ScreenCell {
    /// The cell's style.
    pub closed spec fn style_of(self) -> Style {
        self.style
    }

    /// Length of the cluster in bytes.
    pub closed spec fn text_len(self) -> int {
        (self.len_and_width & 63) as int
    }

    /// Columns the cluster occupies beyond the first.
    pub closed spec fn extra(self) -> u8 {
        self.len_and_width >> 6
    }

    /// The four data bytes.
    pub closed spec fn inline_bytes(self) -> Seq<u8> {
        self.data@
    }
}

/// What a cell shows: a style, a grapheme cluster, and how many columns beyond the first the
/// cluster covers.
pub struct CellView {
    pub style: Style,
    pub text: Seq<u8>,
    pub extra_width: u8,
}

/// The largest character boundary of `b` not above `i`.
pub open spec fn last_boundary(b: Seq<u8>, i: int) -> int
    decreases i,
{
    if i <= 0 || is_char_boundary(b, i) {
        i
    } else {
        last_boundary(b, i - 1)
    }
}

/// A cluster is cut at the last character boundary within 63 bytes.
pub open spec fn clip_grapheme(b: Seq<u8>) -> Seq<u8> {
    if b.len() > 63 {
        b.subrange(0, last_boundary(b, 63))
    } else {
        b
    }
}

/// The width, beyond the first column, recorded for a cluster of width `wid`: 0 to 3.
pub open spec fn extra_for_width(wid: int) -> u8 {
    if wid <= 1 {
        0
    } else if wid >= 4 {
        3
    } else {
        (wid - 1) as u8
    }
}

/// The view of a cell packed from cluster `s` of width `wid`.
pub open spec fn packed(s: Seq<u8>, wid: int, style: Style) -> CellView {
    CellView { style, text: clip_grapheme(s), extra_width: extra_for_width(wid) }
}

proof fn lemma_last_boundary(b: Seq<u8>, i: int)
    requires
        valid_utf8(b),
        0 <= i <= b.len(),
    ensures
        0 <= last_boundary(b, i) <= i,
        is_char_boundary(b, last_boundary(b, i)),
        forall|j: int| last_boundary(b, i) < j <= i ==> !is_char_boundary(b, j),
    decreases i,
{
    if i > 0 && !is_char_boundary(b, i) {
        lemma_last_boundary(b, i - 1);
    }
}

proof fn lemma_space_valid()
    ensures
        valid_utf8(seq![32u8]),
{
    let b = seq![32u8];
    reveal_with_fuel(valid_utf8, 2);
    assert((32u8 & 0x7f) as u32 == 32u32) by (bit_vector);
    assert(valid_first_scalar(b));
    assert(pop_first_scalar(b) =~= Seq::<u8>::empty());
}

/// A grid of `width` by `height` cells, row after row.
#[derive(Clone)]
pub struct ScreenBuffer {
    pub width: usize,
    pub height: usize,
    pub cells: Vec<ScreenCell>,
    pub long_graphemes: Vec<u8>,
}

impl Default for ScreenBuffer {
    fn default() -> (r: Self)
        ensures
            r.wf(),
            r.width == 0,
            r.height == 0,
            r.cells@ == Seq::<ScreenCell>::empty(),
            r.long_graphemes@ == Seq::<u8>::empty(),
    {
        ScreenBuffer { width: 0, height: 0, cells: Vec::new(), long_graphemes: Vec::new() }
    }
}

impl ScreenBuffer {
    /// The bytes of the cluster of cell `c`.
    pub closed spec fn cell_text(&self, c: ScreenCell) -> Seq<u8> {
        if c.text_len() <= 4 {
            c.data@.subrange(0, c.text_len())
        } else {
            self.long_graphemes@.subrange(le32(c.data@), le32(c.data@) + c.text_len())
        }
    }

    /// Cell `c` holds valid UTF-8; an inline cluster is followed by zero bytes, and a long one
    /// lies inside `long_graphemes`.
    pub closed spec fn cell_ok(&self, c: ScreenCell) -> bool {
        &&& c.text_len() <= 4 ==> (forall|j: int| c.text_len() <= j < 4 ==> c.data@[j] == 0)
        &&& c.text_len() > 4 ==> le32(c.data@) + c.text_len() <= self.long_graphemes@.len()
        &&& valid_utf8(self.cell_text(c))
    }

    pub closed spec fn cell_view(&self, c: ScreenCell) -> CellView {
        CellView { style: c.style, text: self.cell_text(c), extra_width: c.extra() }
    }

    /// Every cell is in place and valid.
    pub open spec fn wf(&self) -> bool {
        &&& self.cells@.len() == self.width * self.height
        &&& forall|i: int| 0 <= i < self.cells@.len() ==> self.cell_ok(#[trigger] self.cells@[i])
    }

    /// What each cell shows, row after row.
    pub open spec fn view_cells(&self) -> Seq<CellView> {
        Seq::new(self.cells@.len(), |i: int| self.cell_view(self.cells@[i]))
    }

    /// The whole screen.
    pub open spec fn screen_rect(&self) -> Rect {
        Rect { pos: [0, 0], size: [self.width, self.height] }
    }

    proof fn lemma_extend_long(&self, other: &ScreenBuffer, c: ScreenCell)
        requires
            self.cell_ok(c),
            other.long_graphemes@.len() >= self.long_graphemes@.len(),
            other.long_graphemes@.subrange(0, self.long_graphemes@.len() as int) == self.long_graphemes@,
        ensures
            other.cell_ok(c),
            other.cell_text(c) == self.cell_text(c),
    {
        if c.text_len() > 4 {
            let a = le32(c.data@);
            let n = self.long_graphemes@.len() as int;
            assert(other.cell_text(c) =~= self.cell_text(c)) by {
                assert(other.cell_text(c) =~= other.long_graphemes@.subrange(0, n).subrange(a, a + c.text_len()));
            }
        }
    }

    /// Empties the buffer and makes it `width` by `height` cells of spaces in `style`.
    pub fn resize_and_clear(&mut self, width: usize, height: usize, style: Style)
        requires
            width * height <= usize::MAX,
        ensures
            final(self).wf(),
            final(self).width == width,
            final(self).height == height,
            final(self).long_graphemes@ == Seq::<u8>::empty(),
            forall|i: int| 0 <= i < width * height ==> #[trigger] final(self).view_cells()[i]
                == (CellView { style, text: seq![32u8], extra_width: 0 }),
    {
        self.width = width;
        self.height = height;
        self.long_graphemes.clear();
        let mut cell = ScreenCell::default();
        cell.style = style;
        // Clear the cells first, so that none refers into the old long_graphemes.
        self.cells.clear();
        self.cells.resize(width * height, cell);
        proof {
            assert(cell.data@.subrange(0, 1) =~= seq![32u8]);
            lemma_space_valid();
            assert forall|i: int| 0 <= i < self.cells@.len() implies self.cell_ok(#[trigger] self.cells@[i]) by {
                assert(self.cells@[i] == cell);
            }
            assert forall|i: int| 0 <= i < width * height implies #[trigger] self.view_cells()[i]
                == (CellView { style, text: seq![32u8], extra_width: 0 }) by {
                assert(self.cells@[i] == cell);
            }
        }
    }

    pub fn rect(&self) -> (r: Rect)
        ensures
            r == self.screen_rect(),
    {
        Rect { pos: [0, 0], size: [self.width, self.height] }
    }

    /// The long clusters of `self` are a prefix of those of `other`.
    pub open spec fn long_prefix_of(&self, other: &ScreenBuffer) -> bool {
        &&& other.long_graphemes@.len() >= self.long_graphemes@.len()
        &&& other.long_graphemes@.subrange(0, self.long_graphemes@.len() as int) == self.long_graphemes@
    }

    /// Packs cluster `s` of width `wid` into a cell, storing it in `long_graphemes` if it has
    /// more than 4 bytes. A cluster longer than 63 bytes is cut at a character boundary.
    fn pack_grapheme(&mut self, s: &str, wid: usize, style: Style) -> (c: ScreenCell)
        requires
            s.spec_bytes().len() <= usize::MAX,
            clip_grapheme(s.spec_bytes()).len() > 4 ==> old(self).long_graphemes@.len()
                + clip_grapheme(s.spec_bytes()).len() < 0xffff_ffff,
        ensures
            final(self).width == old(self).width,
            final(self).height == old(self).height,
            final(self).cells == old(self).cells,
            old(self).long_prefix_of(final(self)),
            final(self).long_graphemes@.len() <= old(self).long_graphemes@.len() + clip_grapheme(s.spec_bytes()).len(),
            clip_grapheme(s.spec_bytes()).len() <= 4 ==> final(self).long_graphemes == old(self).long_graphemes,
            final(self).cell_ok(c),
            final(self).cell_view(c) == packed(s.spec_bytes(), wid as int, style),
    {
        let ghost b = s.spec_bytes();
        let bytes = s.as_bytes();
        let mut n = s.len();
        if n > 63 {
            let mut i: usize = 63;
            proof {
                lemma_last_boundary(b, 63);
            }
            while !s.is_char_boundary(i)
                invariant
                    i <= 63 < b.len(),
                    b == s.spec_bytes(),
                    valid_utf8(b),
                    last_boundary(b, 63) == last_boundary(b, i as int),
                decreases i,
            {
                proof {
                    is_char_boundary_start_end_of_seq(b);
                    assert(i > 0);
                    assert(last_boundary(b, i as int) == last_boundary(b, i - 1));
                }
                i = i - 1;
            }
            proof {
                assert(last_boundary(b, i as int) == i);
                assert(last_boundary(b, 63) == i);
            }
            n = i;
        }
        let ghost t = clip_grapheme(b);
        proof {
            if b.len() > 63 {
                assert(n == last_boundary(b, 63));
            } else {
                assert(n == b.len());
            }
            assert(t =~= b.subrange(0, n as int));
            if b.len() > 63 {
                lemma_last_boundary(b, 63);
            } else {
                is_char_boundary_start_end_of_seq(b);
            }
            valid_utf8_split(b, n as int);
        }
        let e: u8 = if wid <= 1 {
            0
        } else if wid >= 4 {
            3
        } else {
            (wid - 1) as u8
        };
        let nb: u8 = n as u8;
        let len_and_width: u8 = nb | (e << 6);
        proof {
            assert(nb < 64 && e < 4 ==> (nb | (e << 6)) & 63 == nb && (nb | (e << 6)) >> 6 == e) by (bit_vector);
        }
        let mut data = [0u8; 4];
        if n <= 4 {
            let mut i: usize = 0;
            while i < n
                invariant
                    n <= 4,
                    i <= n,
                    n <= bytes@.len(),
                    data@.len() == 4,
                    forall|j: int| 0 <= j < i ==> data@[j] == bytes@[j],
                    forall|j: int| i <= j < 4 ==> data@[j] == 0,
                decreases n - i,
            {
                data[i] = bytes[i];
                i = i + 1;
            }
            let c = ScreenCell { style, len_and_width, data };
            proof {
                assert(self.cell_text(c) =~= t);
                assert(self.long_graphemes@.subrange(0, self.long_graphemes@.len() as int) =~= self.long_graphemes@);
            }
            c
        } else {
            let off = self.long_graphemes.len();
            let o: u32 = off as u32;
            data[0] = (o % 256) as u8;
            data[1] = ((o / 256) % 256) as u8;
            data[2] = ((o / 65536) % 256) as u8;
            data[3] = (o / 16777216) as u8;
            let mut i: usize = 0;
            let ghost long0 = self.long_graphemes@;
            while i < n
                invariant
                    i <= n <= bytes@.len(),
                    self.long_graphemes@ == long0 + bytes@.subrange(0, i as int),
                    self.width == old(self).width,
                    self.height == old(self).height,
                    self.cells == old(self).cells,
                    long0 == old(self).long_graphemes@,
                decreases n - i,
            {
                self.long_graphemes.push(bytes[i]);
                i = i + 1;
                proof {
                    assert(self.long_graphemes@ =~= long0 + bytes@.subrange(0, i as int));
                }
            }
            let c = ScreenCell { style, len_and_width, data };
            proof {
                assert(le32(data@) == off);
                assert(self.cell_text(c) =~= t);
                assert(self.long_graphemes@.subrange(0, long0.len() as int) =~= long0);
            }
            c
        }
    }

    /// The cluster of cell `c`, and the columns it covers beyond the first.
    fn unpack_grapheme<'a>(&'a self, c: &'a ScreenCell) -> (r: (&'a str, u8))
        requires
            self.cell_ok(*c),
        ensures
            r.0.spec_bytes() == self.cell_text(*c),
            r.1 == c.extra(),
            r.1 <= 3,
    {
        proof {
            let lw = c.len_and_width;
            assert(lw >> 6 <= 3) by (bit_vector);
        }
        let len = (c.len_and_width & 63) as usize;
        let slice: &[u8] = if len <= 4 {
            let all: &[u8] = c.data.as_slice();
            &all[0..len]
        } else {
            let off = c.data[0] as usize + 256 * (c.data[1] as usize) + 65536 * (c.data[2] as usize)
                + 16777216 * (c.data[3] as usize);
            proof {
                assert(off == le32(c.data@));
                assert(self.long_graphemes@.len() == self.long_graphemes.len());
            }
            let all: &[u8] = self.long_graphemes.as_slice();
            &all[off..off + len]
        };
        let text = str_from_utf8(slice).unwrap();
        (text, c.len_and_width >> 6)
    }

    /// Whether cell `c` of this buffer and cell `c2` of `other` show the same thing.
    fn cell_equals(&self, c: &ScreenCell, other: &ScreenBuffer, c2: &ScreenCell) -> (r: bool)
        requires
            self.cell_ok(*c),
            other.cell_ok(*c2),
        ensures
            r == (self.cell_view(*c) == other.cell_view(*c2)),
    {
        let a = c.len_and_width;
        let b = c2.len_and_width;
        proof {
            assert((a == b) == (a & 63 == b & 63 && a >> 6 == b >> 6)) by (bit_vector);
        }
        if c.style != c2.style || a != b {
            proof {
                if a != b && c.extra() == c2.extra() {
                    assert(self.cell_text(*c).len() != other.cell_text(*c2).len());
                }
            }
            return false;
        }
        if a & 63 <= 4 {
            let same = c.data[0] == c2.data[0] && c.data[1] == c2.data[1] && c.data[2] == c2.data[2]
                && c.data[3] == c2.data[3];
            proof {
                if same {
                    assert(self.cell_text(*c) =~= other.cell_text(*c2));
                } else {
                    let n = c.text_len();
                    if self.cell_text(*c) == other.cell_text(*c2) {
                        assert forall|j: int| 0 <= j < 4 implies c.data@[j] == c2.data@[j] by {
                            if j < n {
                                assert(self.cell_text(*c)[j] == other.cell_text(*c2)[j]);
                            }
                        }
                    }
                }
            }
            return same;
        }
        let (s1, _) = self.unpack_grapheme(c);
        let (s2, _) = other.unpack_grapheme(c2);
        bytes_eq(s1.as_bytes(), s2.as_bytes())
    }

    /// Whether cell `idx` shows the same in this buffer and in `other`.
    pub(crate) fn same_cell_as(&self, other: &ScreenBuffer, idx: usize) -> (r: bool)
        requires
            self.wf(),
            other.wf(),
            idx < self.cells@.len(),
            idx < other.cells@.len(),
        ensures
            r == (self.view_cells()[idx as int] == other.view_cells()[idx as int]),
    {
        self.cell_equals(&self.cells[idx], other, &other.cells[idx])
    }

    /// The cluster, extra width and style of the cell at column `x`, row `y`.
    pub fn get_cell(&self, x: usize, y: usize) -> (r: (&str, u8, Style))
        requires
            self.wf(),
            x < self.width,
            y < self.height,
        ensures
            r.0.spec_bytes() == self.view_cells()[y * self.width + x].text,
            r.1 == self.view_cells()[y * self.width + x].extra_width,
            r.2 == self.view_cells()[y * self.width + x].style,
            r.1 <= 3,
    {
        proof {
            lemma_cell_index(x as int, y as int, self.width as int, self.height as int);
            assert(self.cells@.len() == self.cells.len());
        }
        let c = &self.cells[y * self.width + x];
        let (s, extra) = self.unpack_grapheme(c);
        (s, extra, c.style)
    }

    /// Puts cluster `s` of width `wid` into the cell at column `x`, row `y`.
    pub fn put_cell(&mut self, s: &str, wid: usize, style: Style, x: isize, y: isize)
        requires
            old(self).wf(),
            0 <= x < old(self).width,
            0 <= y < old(self).height,
            old(self).long_graphemes@.len() + clip_grapheme(s.spec_bytes()).len() < 0xffff_ffff,
            s.spec_bytes().len() <= usize::MAX,
        ensures
            final(self).wf(),
            final(self).width == old(self).width,
            final(self).height == old(self).height,
            final(self).view_cells() == old(self).view_cells().update(
                y * old(self).width + x,
                packed(s.spec_bytes(), wid as int, style),
            ),
            final(self).long_graphemes@.len() <= old(self).long_graphemes@.len() + clip_grapheme(s.spec_bytes()).len(),
    {
        proof {
            lemma_cell_index(x as int, y as int, self.width as int, self.height as int);
            assert(self.cells@.len() == self.cells.len());
        }
        let ghost old_self = *self;
        let c = self.pack_grapheme(s, wid, style);
        let idx = y as usize * self.width + x as usize;
        proof {
            assert forall|i: int| 0 <= i < self.cells@.len() implies self.cell_ok(#[trigger] self.cells@[i])
                && self.cell_view(self.cells@[i]) == old_self.cell_view(self.cells@[i]) by {
                old_self.lemma_extend_long(self, self.cells@[i]);
            }
        }
        self.cells.set(idx, c);
        proof {
            assert(self.view_cells() =~= old_self.view_cells().update(idx as int, packed(s.spec_bytes(), wid as int, style)));
        }
    }
}

/// Reading a cell back after putting a cluster there (`ScreenBuffer::put_cell`, then
/// `ScreenBuffer::get_cell`) gives the packed cluster, and every other cell of the grid is
/// unchanged.
pub proof fn lemma_put_then_get(
    v: Seq<CellView>,
    width: int,
    height: int,
    x: int,
    y: int,
    c: CellView,
    x2: int,
    y2: int,
)
    requires
        v.len() == width * height,
        0 <= x < width,
        0 <= y < height,
        0 <= x2 < width,
        0 <= y2 < height,
    ensures
        at(v.update(y * width + x, c), width, x, y) == c,
        (x2 != x || y2 != y) ==> at(v.update(y * width + x, c), width, x2, y2) == at(v, width, x2, y2),
{
    lemma_cell_index(x, y, width, height);
    lemma_cell_index(x2, y2, width, height);
    if y2 != y {
        if y2 < y {
            assert(y2 * width + width <= y * width) by (nonlinear_arith)
                requires
                    y2 < y,
                    0 <= width,
            ;
        } else {
            assert(y * width + width <= y2 * width) by (nonlinear_arith)
                requires
                    y < y2,
                    0 <= width,
            ;
        }
    }
}

/// The cell at column `x`, row `y` of a grid `width` cells wide.
pub open spec fn at(v: Seq<CellView>, width: int, x: int, y: int) -> CellView {
    v[y * width + x]
}

/// Whether the cell at column `x`, row `y` lies in `r`.
pub open spec fn in_rect(r: Rect, x: int, y: int) -> bool {
    r.pos[0] <= x < rect_end(r, 0) && r.pos[1] <= y < rect_end(r, 1)
}

/// `v` with the cells from index `lo` up to `hi` replaced by `c`.
pub open spec fn fill_span(v: Seq<CellView>, lo: int, hi: int, c: CellView) -> Seq<CellView> {
    Seq::new(v.len(), |i: int| if lo <= i < hi { c } else { v[i] })
}

/// A space.
pub open spec fn space_cell(style: Style) -> CellView {
    CellView { style, text: seq![32u8], extra_width: 0 }
}

/// The cells after putting the clusters of `t` from cluster `k` on into row `y` (whose first
/// cell has index `row`), cluster `k` starting at column `x`, clipped to columns from `lo` up
/// to `hi`; and the column after the last cluster put. A cluster that does not start inside
/// the clip is not put, but the spaces that stand for the rest of a wide cluster are; putting
/// stops at the first cluster that starts at or after `hi`.
pub open spec fn put_text_from(
    v: Seq<CellView>,
    t: Seq<char>,
    style: Style,
    row: int,
    lo: int,
    hi: int,
    k: int,
    x: int,
) -> (Seq<CellView>, int)
    decreases gcount(t) - k,
{
    if k < 0 || k >= gcount(t) || x >= hi {
        (v, x)
    } else {
        let nx = x + gwidth(t, k);
        let g = utf8(t).subrange(gstart(t, k), gend(t, k));
        let v2 = if nx <= lo { v } else { put_step(v, g, gwidth(t, k), style, row, lo, hi, x) };
        put_text_from(v2, t, style, row, lo, hi, k + 1, nx)
    }
}

/// The cells after putting cluster `g` of width `wid` at column `x` of the row that starts at
/// index `row`, clipped to columns from `lo` up to `hi`: the cluster itself if it starts
/// inside the clip, and spaces for the other columns of a wide cluster.
pub open spec fn put_step(
    v: Seq<CellView>,
    g: Seq<u8>,
    wid: int,
    style: Style,
    row: int,
    lo: int,
    hi: int,
    x: int,
) -> Seq<CellView> {
    let nx = x + wid;
    let v1 = if x >= lo { v.update(row + x, packed(g, wid, style)) } else { v };
    if wid > 1 {
        fill_span(v1, row + if x + 1 >= lo { x + 1 } else { lo }, row + if nx <= hi { nx } else { hi }, space_cell(style))
    } else {
        v1
    }
}

proof fn lemma_index_unique(x1: int, y1: int, x2: int, y2: int, w: int)
    requires
        0 <= x1 < w,
        0 <= x2 < w,
        0 <= y1,
        0 <= y2,
        y1 * w + x1 == y2 * w + x2,
    ensures
        x1 == x2,
        y1 == y2,
{
    if y1 < y2 {
        assert(y1 * w + w <= y2 * w) by (nonlinear_arith)
            requires
                y1 < y2,
                0 <= w,
        ;
    } else if y2 < y1 {
        assert(y2 * w + w <= y1 * w) by (nonlinear_arith)
            requires
                y2 < y1,
                0 <= w,
        ;
    }
}

proof fn lemma_clip_len(b: Seq<u8>)
    requires
        valid_utf8(b),
    ensures
        clip_grapheme(b).len() <= b.len(),
        clip_grapheme(b).len() <= 63,
        valid_utf8(clip_grapheme(b)),
{
    if b.len() > 63 {
        lemma_last_boundary(b, 63);
        valid_utf8_split(b, last_boundary(b, 63));
    }
}

impl ScreenBuffer {
    /// The screen rectangle fits in `isize`.
    pub open spec fn fits(&self) -> bool {
        self.width <= isize::MAX && self.height <= isize::MAX
    }

    /// Fills the cells of `rect` that are on the screen with cluster `grapheme`, which must
    /// be one column wide.
    pub fn fill(&mut self, rect: Rect, grapheme: &str, style: Style)
        requires
            old(self).wf(),
            old(self).fits(),
            rect_fits(rect),
            str_width_spec(grapheme@) == 1,
            3 * grapheme.spec_bytes().len() <= usize::MAX,
            old(self).long_graphemes@.len() + grapheme.spec_bytes().len() < 0xffff_ffff,
        ensures
            final(self).wf(),
            final(self).width == old(self).width,
            final(self).height == old(self).height,
            forall|x: int, y: int|
                0 <= x < old(self).width && 0 <= y < old(self).height ==> #[trigger] at(
                    final(self).view_cells(),
                    old(self).width as int,
                    x,
                    y,
                ) == if in_rect(rect, x, y) {
                    packed(grapheme.spec_bytes(), 1, style)
                } else {
                    at(old(self).view_cells(), old(self).width as int, x, y)
                },
    {
        let ghost old_self = *self;
        let ghost w = self.width as int;
        proof {
            lemma_clip_len(grapheme.spec_bytes());
        }
        let cell = self.pack_grapheme(grapheme, 1, style);
        proof {
            assert forall|i: int| 0 <= i < self.cells@.len() implies self.cell_ok(#[trigger] self.cells@[i])
                && self.cell_view(self.cells@[i]) == old_self.cell_view(self.cells@[i]) by {
                old_self.lemma_extend_long(self, self.cells@[i]);
            }
            assert(self.view_cells() =~= old_self.view_cells());
        }
        let ghost v0 = self.view_cells();
        let screen = self.rect();
        let r = rect.intersection(screen);
        let right = r.right();
        let bottom = r.bottom();
        let mut y: isize = r.y();
        while y < bottom
            invariant
                self.wf(),
                self.width == old_self.width,
                self.height == old_self.height,
                self.fits(),
                w == self.width,
                self.cell_ok(cell),
                self.cell_view(cell) == packed(grapheme.spec_bytes(), 1, style),
                r.pos[0] == isect_start(rect, screen, 0),
                r.pos[1] == isect_start(rect, screen, 1),
                r.size[0] == isect_len(rect, screen, 0),
                r.size[1] == isect_len(rect, screen, 1),
                screen == self.screen_rect(),
                right == rect_end(r, 0),
                bottom == rect_end(r, 1),
                r.pos[1] <= y,
                0 <= r.pos[0],
                0 <= r.pos[1],
                right <= w || r.size[0] == 0,
                bottom <= self.height || r.size[1] == 0,
                forall|x1: int, y1: int|
                    0 <= x1 < w && 0 <= y1 < self.height ==> #[trigger] at(self.view_cells(), w, x1, y1)
                        == if in_rect(r, x1, y1) && y1 < y { packed(grapheme.spec_bytes(), 1, style) } else { at(v0, w, x1, y1) },
            decreases bottom - y,
        {
            let mut x: isize = r.x();
            while x < right
                invariant
                    self.wf(),
                    self.width == old_self.width,
                    self.height == old_self.height,
                    w == self.width,
                    self.cell_ok(cell),
                    self.cell_view(cell) == packed(grapheme.spec_bytes(), 1, style),
                    r.pos[0] <= x,
                    r.pos[1] <= y < bottom,
                    0 <= r.pos[0],
                    0 <= r.pos[1],
                    right == rect_end(r, 0),
                    bottom == rect_end(r, 1),
                    right <= w || r.size[0] == 0,
                    bottom <= self.height || r.size[1] == 0,
                    forall|x1: int, y1: int|
                        0 <= x1 < w && 0 <= y1 < self.height ==> #[trigger] at(self.view_cells(), w, x1, y1)
                            == if in_rect(r, x1, y1) && (y1 < y || (y1 == y && x1 < x)) { packed(grapheme.spec_bytes(), 1, style) } else { at(v0, w, x1, y1) },
                decreases right - x,
            {
                proof {
                    lemma_cell_index(x as int, y as int, w, self.height as int);
                    assert(self.cells@.len() == self.cells.len());
                }
                let idx = y as usize * self.width + x as usize;
                let ghost before = self.view_cells();
                let ghost cells_before = self.cells@;
                self.cells.set(idx, cell);
                proof {
                    assert forall|i: int| 0 <= i < self.cells@.len() implies self.cell_ok(#[trigger] self.cells@[i]) by {
                        if i != idx {
                            assert(self.cells@[i] == cells_before[i]);
                        }
                    }
                    assert forall|x1: int, y1: int|
                        0 <= x1 < w && 0 <= y1 < self.height implies #[trigger] at(self.view_cells(), w, x1, y1)
                            == if in_rect(r, x1, y1) && (y1 < y || (y1 == y && x1 < x + 1)) { packed(grapheme.spec_bytes(), 1, style) } else { at(v0, w, x1, y1) } by {
                        lemma_cell_index(x1, y1, w, self.height as int);
                        if y1 * w + x1 == idx {
                            lemma_index_unique(x1, y1, x as int, y as int, w);
                        } else {
                            assert(at(self.view_cells(), w, x1, y1) == at(before, w, x1, y1));
                        }
                    }
                }
                x = x + 1;
            }
            y = y + 1;
        }
        proof {
            assert forall|x1: int, y1: int|
                0 <= x1 < w && 0 <= y1 < self.height implies in_rect(r, x1, y1) == in_rect(rect, x1, y1) by {
            }
            assert forall|x1: int, y1: int|
                0 <= x1 < w && 0 <= y1 < self.height implies at(v0, w, x1, y1) == at(old_self.view_cells(), w, x1, y1) by {
            }
        }
    }

    /// Fills the cells of `rect` like `fill` if `grapheme` is one column wide; returns whether
    /// it was.
    pub fn try_fill(&mut self, rect: Rect, grapheme: &str, style: Style) -> (r: bool)
        requires
            old(self).wf(),
            old(self).fits(),
            rect_fits(rect),
            3 * grapheme.spec_bytes().len() <= usize::MAX,
            old(self).long_graphemes@.len() + grapheme.spec_bytes().len() < 0xffff_ffff,
        ensures
            final(self).wf(),
            final(self).width == old(self).width,
            final(self).height == old(self).height,
            r == (str_width_spec(grapheme@) == 1),
            !r ==> *final(self) == *old(self),
            r ==> forall|x: int, y: int|
                0 <= x < old(self).width && 0 <= y < old(self).height ==> #[trigger] at(
                    final(self).view_cells(),
                    old(self).width as int,
                    x,
                    y,
                ) == if in_rect(rect, x, y) {
                    packed(grapheme.spec_bytes(), 1, style)
                } else {
                    at(old(self).view_cells(), old(self).width as int, x, y)
                },
    {
        if str_width(grapheme) != 1 {
            return false;
        }
        self.fill(rect, grapheme, style);
        true
    }
}

/// Where the part of `a` that lies in `b` starts and ends along `axis`, as
/// `Rect::intersection` computes it.
pub open spec fn isect_lo(a: Rect, b: Rect, axis: int) -> int {
    isect_start(a, b, axis)
}

pub open spec fn isect_hi(a: Rect, b: Rect, axis: int) -> int {
    isect_start(a, b, axis) + isect_len(a, b, axis)
}

proof fn lemma_row(y: int, w: int, h: int)
    requires
        0 <= y < h,
        0 <= w,
    ensures
        0 <= y * w,
        y * w + w <= w * h,
{
    assert(0 <= y * w && y * w + w <= w * h) by (nonlinear_arith)
        requires
            0 <= y < h,
            0 <= w,
    ;
}

proof fn lemma_space_bytes(s: &str)
    requires
        s@ == seq![' '],
    ensures
        s.spec_bytes() == seq![32u8],
{
    assert(s.spec_bytes() == encode_utf8(s@));
    assert((32u32 & 0x7f) as u8 == 32u8) by (bit_vector);
    assert(s@.drop_first() =~= Seq::<char>::empty());
    assert(encode_utf8(s@) =~= seq![32u8]) by {
        reveal_with_fuel(encode_utf8, 2);
    }
}

impl ScreenBuffer {
    /// One step of `put_text` (see `put_step`), for a cluster that ends right of `lo`.
    fn put_one(&mut self, g: &str, gw: usize, style: Style, row_start: usize, x: isize, lo: isize, hi: isize)
        requires
            old(self).wf(),
            x < hi,
            x + gw > lo,
            0 <= lo <= hi,
            hi <= old(self).width || hi == lo,
            row_start + old(self).width <= old(self).cells@.len(),
            gw <= isize::MAX,
            x + gw <= isize::MAX,
            g.spec_bytes().len() <= usize::MAX,
            old(self).long_graphemes@.len() + g.spec_bytes().len() < 0xffff_ffff,
        ensures
            final(self).wf(),
            final(self).width == old(self).width,
            final(self).height == old(self).height,
            final(self).long_graphemes@.len() <= old(self).long_graphemes@.len() + g.spec_bytes().len(),
            final(self).view_cells() == put_step(
                old(self).view_cells(),
                g.spec_bytes(),
                gw as int,
                style,
                row_start as int,
                lo as int,
                hi as int,
                x as int,
            ),
    {
        let ghost v0 = self.view_cells();
        let ghost row = row_start as int;
        proof {
            assert(self.cells@.len() == self.cells.len());
        }
        let nx = x + gw as isize;
        if x >= lo {
            proof {
                lemma_clip_len(g.spec_bytes());
            }
            let ghost before = *self;
            let cell = self.pack_grapheme(g, gw, style);
            proof {
                assert forall|i: int| 0 <= i < self.cells@.len() implies self.cell_ok(#[trigger] self.cells@[i])
                    && self.cell_view(self.cells@[i]) == before.cell_view(self.cells@[i]) by {
                    before.lemma_extend_long(self, self.cells@[i]);
                }
            }
            let ghost cells_before = self.cells@;
            self.cells.set(row_start + x as usize, cell);
            proof {
                assert forall|i: int| 0 <= i < self.cells@.len() implies self.cell_ok(#[trigger] self.cells@[i]) by {
                    if i != row_start + x {
                        assert(self.cells@[i] == cells_before[i]);
                    }
                }
                assert(self.view_cells() =~= v0.update(row + x, packed(g.spec_bytes(), gw as int, style)));
            }
        } else {
            proof {
                assert(self.view_cells() =~= v0);
            }
        }
        let ghost v1 = self.view_cells();
        if gw > 1 {
            let sp_text = " ";
            proof {
                reveal_strlit(" ");
                assert(sp_text@ =~= seq![' ']);
                lemma_space_bytes(sp_text);
                lemma_space_valid();
            }
            let ghost before = *self;
            let sp = self.pack_grapheme(sp_text, 1, style);
            proof {
                assert(clip_grapheme(seq![32u8]) == seq![32u8]);
                assert(self.cells == before.cells);
                assert(self.view_cells() =~= v1);
            }
            let from = if x + 1 >= lo { x + 1 } else { lo };
            let to = if nx <= hi { nx } else { hi };
            self.fill_row(row_start, from, to, sp);
        }
    }

    /// Sets the cells from column `from` up to `to` of the row that starts at index
    /// `row_start` to `c`.
    fn fill_row(&mut self, row_start: usize, from: isize, to: isize, c: ScreenCell)
        requires
            old(self).wf(),
            old(self).cell_ok(c),
            0 <= from,
            to <= old(self).width || to <= from,
            row_start + old(self).width <= old(self).cells@.len(),
        ensures
            final(self).wf(),
            final(self).width == old(self).width,
            final(self).height == old(self).height,
            final(self).long_graphemes == old(self).long_graphemes,
            final(self).view_cells() == fill_span(
                old(self).view_cells(),
                row_start + from,
                row_start + to,
                old(self).cell_view(c),
            ),
    {
        let ghost v1 = self.view_cells();
        let ghost cv = self.cell_view(c);
        let mut i = from;
        proof {
            assert(v1 =~= fill_span(v1, row_start + from, row_start + from, cv));
            assert(self.cells@.len() == self.cells.len());
        }
        while i < to
            invariant
                self.wf(),
                self.width == old(self).width,
                self.height == old(self).height,
                self.long_graphemes == old(self).long_graphemes,
                row_start + self.width <= self.cells@.len(),
                self.cells@.len() <= usize::MAX,
                0 <= from <= i,
                i <= to || i == from,
                i < to ==> to <= self.width,
                self.cell_ok(c),
                self.cell_view(c) == cv,
                self.view_cells() == fill_span(v1, row_start + from, row_start + i, cv),
            decreases to - i,
        {
            let ghost cells_before = self.cells@;
            let ghost vb = self.view_cells();
            self.cells.set(row_start + i as usize, c);
            proof {
                assert forall|j: int| 0 <= j < self.cells@.len() implies self.cell_ok(#[trigger] self.cells@[j]) by {
                    if j != row_start + i {
                        assert(self.cells@[j] == cells_before[j]);
                    }
                }
                assert(self.view_cells() =~= vb.update(row_start + i, cv));
                assert(self.view_cells() =~= fill_span(v1, row_start + from, row_start + i + 1, cv));
            }
            i = i + 1;
        }
        proof {
            if from >= to {
                assert(fill_span(v1, row_start + from, row_start + i, cv) =~= fill_span(v1, row_start + from, row_start + to, cv));
            }
        }
    }

    /// Puts `text` into row `y`, its first cluster at column `x`, clipped to `clip` and the
    /// screen (see `put_text_from`). Returns the column after the last cluster put: putting
    /// stops at the clip's right edge.
    pub fn put_text(&mut self, text: &str, style: Style, x: isize, y: isize, clip: Rect) -> (r: isize)
        requires
            old(self).wf(),
            old(self).fits(),
            rect_fits(clip),
            3 * text.spec_bytes().len() <= isize::MAX,
            x + 3 * text.spec_bytes().len() <= isize::MAX,
            old(self).long_graphemes@.len() + text.spec_bytes().len() < 0xffff_ffff,
        ensures
            final(self).wf(),
            final(self).width == old(self).width,
            final(self).height == old(self).height,
            ({
                let screen = old(self).screen_rect();
                if y >= isect_hi(clip, screen, 1) || y < isect_lo(clip, screen, 1) {
                    final(self).view_cells() == old(self).view_cells() && r == x
                } else {
                    &&& (final(self).view_cells(), r as int) == put_text_from(
                        old(self).view_cells(),
                        text@,
                        style,
                        y * old(self).width,
                        isect_lo(clip, screen, 0),
                        isect_hi(clip, screen, 0),
                        0,
                        x as int,
                    )
                    &&& x + str_width_spec(text@) <= isect_hi(clip, screen, 0) ==> r == x + str_width_spec(text@)
                }
            }),
    {
        let ghost old_self = *self;
        let screen = self.rect();
        let c = clip.intersection(screen);
        let top = c.y();
        let bottom = c.bottom();
        if y >= bottom || y < top {
            return x;
        }
        let lo = c.x();
        let hi = c.right();
        let ghost t = text@;
        let ghost bytes = text.spec_bytes();
        let ghost w = self.width as int;
        let ghost row = y * w;
        let ghost long0 = self.long_graphemes@.len();
        proof {
            assert(bytes == utf8(t));
            assert(y < self.height);
            lemma_row(y as int, w, self.height as int);
            assert(self.cells@.len() == self.cells.len());
        }
        let row_start = y as usize * self.width;
        let starts = grapheme_offsets(text);
        let ghost v0 = self.view_cells();
        let mut x = x;
        let ghost x0 = x as int;
        let mut k: usize = 0;
        while k < starts.len() && x < hi
            invariant
                self.wf(),
                self.width == old_self.width,
                self.height == old_self.height,
                w == self.width,
                row == row_start,
                row + w <= self.cells@.len(),
                t == text@,
                bytes == text.spec_bytes(),
                bytes == utf8(t),
                starts@ == grapheme_starts(t),
                is_segmentation(starts@, bytes),
                3 * bytes.len() <= isize::MAX,
                x0 + 3 * bytes.len() <= isize::MAX,
                long0 + bytes.len() < 0xffff_ffff,
                k <= starts.len(),
                0 <= lo <= hi,
                hi <= w || hi == lo,
                x <= x0 + 3 * (if k < starts.len() { gstart(t, k as int) } else { bytes.len() as int }),
                self.long_graphemes@.len() <= long0 + (if k < starts.len() { gstart(t, k as int) } else { bytes.len() as int }),
                put_text_from(v0, t, style, row, lo as int, hi as int, 0, x0) == put_text_from(
                    self.view_cells(),
                    t,
                    style,
                    row,
                    lo as int,
                    hi as int,
                    k as int,
                    x as int,
                ),
            decreases starts.len() - k,
        {
            let (a, b, gw) = grapheme_at(text, &starts, k);
            let ghost vk = self.view_cells();
            proof {
                if k + 1 < starts.len() {
                    assert(b == gstart(t, k + 1));
                    assert(starts@[k + 1 as int] < bytes.len());
                }
                assert(b <= bytes.len());
                assert(gw <= 3 * bytes.len());
                assert(x + gw <= x0 + 3 * b);
            }
            let nx = x + gw as isize;
            if nx > lo {
                let g = substr(text, a, b);
                proof {
                    assert(g.spec_bytes() == utf8(t).subrange(a as int, b as int));
                }
                self.put_one(g, gw, style, row_start, x, lo, hi);
            }
            x = nx;
            k = k + 1;
        }
        proof {
            if x0 + str_width_spec(t) <= hi {
                lemma_put_text_fits(v0, t, style, row, lo as int, hi as int, 0, x0);
            }
        }
        x
    }
}

proof fn lemma_wsum_mono(t: Seq<char>, k: int, j: int)
    requires
        k <= j,
    ensures
        wsum(t, k) <= wsum(t, j),
    decreases j - k,
{
    if k < j {
        lemma_wsum_mono(t, k, j - 1);
        if j > 0 {
            assert(wsum(t, j) == wsum(t, j - 1) + gwidth(t, j - 1));
        }
    }
}

/// Where the text fits before the clip's right edge, putting it ends right after it: the
/// column reached is the start column plus the text's width.
pub proof fn lemma_put_text_fits(
    v: Seq<CellView>,
    t: Seq<char>,
    style: Style,
    row: int,
    lo: int,
    hi: int,
    k: int,
    x: int,
)
    requires
        0 <= k <= gcount(t),
        x + str_width_spec(t) - wsum(t, k) <= hi,
    ensures
        put_text_from(v, t, style, row, lo, hi, k, x).1 == x + str_width_spec(t) - wsum(t, k),
    decreases gcount(t) - k,
{
    if k < gcount(t) {
        if x >= hi {
            lemma_wsum_mono(t, k, gcount(t));
        } else {
            let nx = x + gwidth(t, k);
            let g = utf8(t).subrange(gstart(t, k), gend(t, k));
            let v2 = if nx <= lo { v } else { put_step(v, g, gwidth(t, k), style, row, lo, hi, x) };
            lemma_put_text_fits(v2, t, style, row, lo, hi, k + 1, nx);
        }
    }
}

/// Whether two byte slices are equal.
fn bytes_eq(a: &[u8], b: &[u8]) -> (r: bool)
    ensures
        r == (a@ == b@),
{
    if a.len() != b.len() {
        return false;
    }
    let mut i: usize = 0;
    while i < a.len()
        invariant
            a@.len() == b@.len(),
            i <= a@.len(),
            forall|j: int| 0 <= j < i ==> a@[j] == b@[j],
        decreases a@.len() - i,
    {
        if a[i] != b[i] {
            return false;
        }
        i = i + 1;
    }
    proof {
        assert(a@ =~= b@);
    }
    true
}

proof fn lemma_cell_index(x: int, y: int, w: int, h: int)
    requires
        0 <= x < w,
        0 <= y < h,
    ensures
        0 <= y * w + x < w * h,
        y * w + x + 1 <= w * h,
{
    assert(y * w + x < w * h) by (nonlinear_arith)
        requires
            0 <= x < w,
            0 <= y < h,
    ;
    assert(0 <= y * w) by (nonlinear_arith)
        requires
            0 <= y,
            0 <= w,
    ;
}

proof fn lemma_put_step_outside(
    v: Seq<CellView>,
    g: Seq<u8>,
    wid: int,
    style: Style,
    row: int,
    lo: int,
    hi: int,
    x: int,
    i: int,
)
    requires
        0 <= row,
        0 <= lo <= hi,
        row + hi <= v.len(),
        x < hi,
        0 <= i < v.len(),
        !(row + lo <= i < row + hi),
    ensures
        put_step(v, g, wid, style, row, lo, hi, x).len() == v.len(),
        put_step(v, g, wid, style, row, lo, hi, x)[i] == v[i],
{
}

proof fn lemma_put_text_from_outside(
    v: Seq<CellView>,
    t: Seq<char>,
    style: Style,
    row: int,
    lo: int,
    hi: int,
    k: int,
    x: int,
    i: int,
)
    requires
        0 <= row,
        0 <= lo <= hi,
        row + hi <= v.len(),
        0 <= i < v.len(),
        !(row + lo <= i < row + hi),
    ensures
        put_text_from(v, t, style, row, lo, hi, k, x).0.len() == v.len(),
        put_text_from(v, t, style, row, lo, hi, k, x).0[i] == v[i],
    decreases gcount(t) - k,
{
    if !(k < 0 || k >= gcount(t) || x >= hi) {
        let nx = x + gwidth(t, k);
        let g = utf8(t).subrange(gstart(t, k), gend(t, k));
        let v2 = if nx <= lo { v } else { put_step(v, g, gwidth(t, k), style, row, lo, hi, x) };
        if nx > lo {
            lemma_put_step_outside(v, g, gwidth(t, k), style, row, lo, hi, x, i);
        }
        lemma_put_text_from_outside(v2, t, style, row, lo, hi, k + 1, nx, i);
    }
}

/// Putting text into row `y` (`ScreenBuffer::put_text`, with the clipping rectangle cut to the
/// screen, which gives columns `lo .. hi`) changes no cell outside that row and those columns.
pub proof fn lemma_put_text_stays_in_clip(
    v: Seq<CellView>,
    width: int,
    height: int,
    t: Seq<char>,
    style: Style,
    y: int,
    lo: int,
    hi: int,
    x: int,
    cx: int,
    cy: int,
)
    requires
        v.len() == width * height,
        0 <= y < height,
        0 <= lo <= hi <= width,
        0 <= cx < width,
        0 <= cy < height,
        cy != y || cx < lo || cx >= hi,
    ensures
        at(put_text_from(v, t, style, y * width, lo, hi, 0, x).0, width, cx, cy) == at(v, width, cx, cy),
{
    lemma_cell_index(cx, cy, width, height);
    lemma_cell_index(0, y, width, height);
    assert(y * width + width <= width * height) by (nonlinear_arith)
        requires
            0 <= y < height,
            0 <= width,
    ;
    if cy < y {
        assert(cy * width + width <= y * width) by (nonlinear_arith)
            requires
                cy < y,
                0 <= width,
        ;
    } else if cy > y {
        assert(y * width + width <= cy * width) by (nonlinear_arith)
            requires
                y < cy,
                0 <= width,
        ;
    }
    lemma_put_text_from_outside(v, t, style, y * width, lo, hi, 0, x, cy * width + cx);
}

} // verus!
