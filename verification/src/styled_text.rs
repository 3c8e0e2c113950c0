//! Styled text: lines made of spans, each span a piece of text with one style.
//!
//! All text lives in one string; `spans[i].0` is the byte offset where span `i` starts and
//! span `i` (for `i < num_spans()`) is `chars[spans[i].0 .. spans[i + 1].0]` with style
//! `spans[i + 1].1`. Line `i` is made of spans `lines[i] .. lines[i + 1]`. There is always
//! an "unclosed" span and an "unclosed" line at the end, used as a staging area while a new
//! span or line is built.

use vstd::prelude::*;
use vstd::utf8::*;
use vstd::string::*;
use crate::common_ui::{Style, StyleAdjustment, default_style, apply_spec};
use crate::utf8_text::{
    utf8, substr, lemma_utf8_concat, lemma_boundary_append, lemma_boundary_prepend,
    lemma_boundary_in_piece, lemma_ascii_boundaries, lemma_boundary_from_piece,
};
use crate::text_width::{
    str_width, str_width_spec, str_prefix_with_width, prefix_with_width_spec, first_over,
    lemma_first_over_bound, grapheme_starts, gcount, is_segmentation,
};

verus! {

broadcast use vstd::utf8::group_utf8_lib;

/// Text made of lines, lines made of spans, spans made of bytes with one style.
pub struct StyledText {
    /// The `i`-th line holds spans `lines[i] .. lines[i + 1]`.
    pub lines: Vec<usize>,
    /// The `i`-th span holds bytes `spans[i].0 .. spans[i + 1].0` and has style `spans[i + 1].1`.
    pub spans: Vec<(usize, Style)>,
    pub chars: String,
}

/// The mathematical content of a `StyledText`: its two index arrays and the UTF-8 bytes of
/// its text.
#[verifier::ext_equal]
pub struct TextModel {
    pub lines: Seq<usize>,
    pub spans: Seq<(usize, Style)>,
    pub bytes: Seq<u8>,
}

impl View for StyledText {
    type V = TextModel;

    open spec fn view(&self) -> TextModel {
        TextModel { lines: self.lines@, spans: self.spans@, bytes: utf8(self.chars@) }
    }
}

impl TextModel {
    /// The index arrays are consistent with each other and with the text: span offsets start
    /// at 0, never decrease and fall on character boundaries; line entries start at 0, never
    /// decrease and name existing span entries.
    pub open spec fn wf(self) -> bool {
        &&& self.spans.len() >= 1
        &&& self.spans[0].0 == 0
        &&& forall|i: int, j: int|
            0 <= i <= j < self.spans.len() ==> #[trigger] self.spans[i].0 <= #[trigger] self.spans[j].0
        &&& forall|i: int|
            0 <= i < self.spans.len() ==> #[trigger] self.spans[i].0 <= self.bytes.len()
                && is_char_boundary(self.bytes, self.spans[i].0 as int)
        &&& self.lines.len() >= 1
        &&& self.lines[0] == 0
        &&& forall|i: int, j: int|
            0 <= i <= j < self.lines.len() ==> #[trigger] self.lines[i] <= #[trigger] self.lines[j]
        &&& forall|i: int| 0 <= i < self.lines.len() ==> #[trigger] self.lines[i] < self.spans.len()
        &&& self.bytes.len() <= usize::MAX
        &&& self.spans.len() <= usize::MAX
        &&& self.lines.len() <= usize::MAX
    }

    pub open spec fn num_spans(self) -> int {
        self.spans.len() - 1
    }

    pub open spec fn num_lines(self) -> int {
        self.lines.len() - 1
    }

    /// The bytes of span `i`.
    pub open spec fn span_bytes(self, i: int) -> Seq<u8> {
        self.bytes.subrange(self.spans[i].0 as int, self.spans[i + 1].0 as int)
    }

    /// The bytes of line `i`.
    pub open spec fn line_bytes(self, i: int) -> Seq<u8> {
        self.bytes.subrange(
            self.spans[self.lines[i] as int].0 as int,
            self.spans[self.lines[i + 1] as int].0 as int,
        )
    }

    /// The text with `b` appended to the unclosed span.
    pub open spec fn push_bytes(self, b: Seq<u8>) -> TextModel {
        TextModel { bytes: self.bytes + b, ..self }
    }

    /// The text with the unclosed span closed with `style`, unless it is empty.
    pub open spec fn close_span(self, style: Style) -> TextModel {
        if self.spans.last().0 != self.bytes.len() {
            TextModel { spans: self.spans.push((self.bytes.len() as usize, style)), ..self }
        } else {
            self
        }
    }

    /// The text with the unclosed line closed.
    pub open spec fn close_line(self) -> TextModel {
        TextModel { lines: self.lines.push((self.spans.len() - 1) as usize), ..self }
    }

    /// The text with spans `a .. b` of `from` appended (their text to the unclosed span, and
    /// their boundaries as new spans), as `import_spans` does.
    pub open spec fn import_spans(self, from: TextModel, a: int, b: int) -> TextModel {
        TextModel {
            lines: self.lines,
            spans: self.spans + Seq::new(
                (b - a) as nat,
                |k: int|
                    (
                        (from.spans[a + 1 + k].0 - from.spans[a].0 + self.bytes.len()) as usize,
                        from.spans[a + 1 + k].1,
                    ),
            ),
            bytes: self.bytes + from.bytes.subrange(from.spans[a].0 as int, from.spans[b].0 as int),
        }
    }

    /// The text with lines `a .. b` of `from` appended, as `import_lines` does.
    pub open spec fn import_lines(self, from: TextModel, a: int, b: int) -> TextModel {
        let imported = self.import_spans(from, from.lines[a] as int, from.lines[b] as int);
        TextModel {
            lines: self.lines + Seq::new(
                (b - a) as nat,
                |k: int| (from.lines[a + 1 + k] - from.lines[a] + self.num_spans()) as usize,
            ),
            ..imported
        }
    }

    /// The text after `import_substring` has visited spans `k .. end` of `from`, keeping of
    /// each only the bytes inside `bs .. be` and closing a span for each nonempty piece.
    pub open spec fn import_substring_from(self, from: TextModel, k: int, end: int, bs: int, be: int) -> TextModel
        decreases end - k,
    {
        if k >= end {
            self
        } else {
            let lo = if from.spans[k].0 >= bs { from.spans[k].0 as int } else { bs };
            let hi = if from.spans[k + 1].0 <= be { from.spans[k + 1].0 as int } else { be };
            let next = if hi <= lo {
                self
            } else {
                self.push_bytes(from.bytes.subrange(lo, hi)).close_span(from.spans[k + 1].1)
            };
            next.import_substring_from(from, k + 1, end, bs, be)
        }
    }

    /// The text with styles of spans `a .. b` changed by adjustment `adj`.
    pub open spec fn adjust_spans(self, a: int, b: int, adj: StyleAdjustment) -> TextModel {
        TextModel {
            spans: Seq::new(
                self.spans.len(),
                |k: int|
                    if a + 1 <= k <= b {
                        (self.spans[k].0, apply_spec(adj, self.spans[k].1))
                    } else {
                        self.spans[k]
                    },
            ),
            ..self
        }
    }
}


/// Index of the first `'\n'` byte of `b` in `i .. e`, or -1.
pub open spec fn find_newline(b: Seq<u8>, i: int, e: int) -> int
    decreases e - i,
{
    if i >= e {
        -1
    } else if b[i] == 10 {
        i
    } else {
        find_newline(b, i + 1, e)
    }
}

proof fn lemma_find_newline(b: Seq<u8>, i: int, e: int)
    requires
        0 <= i,
        e <= b.len(),
    ensures
        find_newline(b, i, e) == -1 || (i <= find_newline(b, i, e) < e && b[find_newline(b, i, e)]
            == 10),
        forall|q: int| i <= q < e && (find_newline(b, i, e) == -1 || q < find_newline(b, i, e)) ==> #[trigger] b[q] != 10,
    decreases e - i,
{
    if i < e {
        lemma_find_newline(b, i + 1, e);
    }
}

/// State while a line is split at its newline characters: the text built so far, where the
/// current output line starts (relative to the source line), and the byte ranges of the
/// output lines finished so far.
pub type SplitState = (TextModel, int, Seq<std::ops::Range<usize>>);

/// Splitting the rest `i .. e` of one source span (style `style`) at newlines: each piece
/// before a newline is appended with the newline replaced by a space, closed as a span and
/// closed as a line; the piece after the last newline is appended and closed as a span.
pub open spec fn split_span_rest(st: SplitState, src: Seq<u8>, i: int, e: int, style: Style, base: int) -> SplitState
    decreases e - i,
{
    let n = find_newline(src, i, e);
    if n < i || n >= e {
        (st.0.push_bytes(src.subrange(i, e)).close_span(style), st.1, st.2)
    } else {
        let m2 = st.0.push_bytes(src.subrange(i, n).push(32u8)).close_span(style).close_line();
        split_span_rest(
            (m2, n + 1 - base, st.2.push((st.1 as usize)..((n + 1 - base) as usize))),
            src,
            n + 1,
            e,
            style,
            base,
        )
    }
}

/// Splitting source spans `k .. kend` (offsets and styles from `spans`) at newlines.
pub open spec fn split_spans_from(st: SplitState, src: Seq<u8>, spans: Seq<(usize, Style)>, k: int, kend: int, base: int) -> SplitState
    decreases kend - k,
{
    if k >= kend {
        st
    } else {
        let st2 = split_span_rest(st, src, spans[k].0 as int, spans[k + 1].0 as int, spans[k + 1].1, base);
        split_spans_from(st2, src, spans, k + 1, kend, base)
    }
}

/// The result of `split_by_newline_character(line)`: the text with the split line appended,
/// and the byte ranges (relative to the start of the source line) of the output lines.
pub open spec fn split_by_newline_spec(m: TextModel, line: int) -> (TextModel, Seq<std::ops::Range<usize>>) {
    let base = m.spans[m.lines[line] as int].0 as int;
    let st = split_spans_from((m, 0, seq![]), m.bytes, m.spans, m.lines[line] as int, m.lines[line + 1] as int, base);
    (st.0.close_line(), st.2.push((st.1 as usize)..((m.spans[m.lines[line + 1] as int].0 - base) as usize)))
}


proof fn lemma_find_newline_same(a: Seq<u8>, b: Seq<u8>, i: int, e: int)
    requires
        0 <= i,
        e <= b.len() <= a.len(),
        forall|q: int| 0 <= q < b.len() ==> a[q] == b[q],
    ensures
        find_newline(a, i, e) == find_newline(b, i, e),
    decreases e - i,
{
    if i < e {
        lemma_find_newline_same(a, b, i + 1, e);
    }
}

proof fn lemma_space_bytes()
    ensures
        utf8(seq![' ']) == seq![32u8],
{
    reveal_with_fuel(encode_utf8, 2);
    assert(seq![' '].drop_first() =~= Seq::<char>::empty());
    assert(32u32 & 0x7F == 32u32) by (bit_vector);
    assert(encode_scalar(' ' as u32) =~= seq![32u8]);
    assert(utf8(seq![' ']) =~= seq![32u8]);
}


/// First index from `i` on whose adjustment range does not end at or before `rs`.
pub open spec fn adj_skip(adjs: Seq<(std::ops::Range<usize>, StyleAdjustment)>, i: int, rs: int) -> int
    decreases adjs.len() - i,
{
    if i < adjs.len() && adjs[i].0.end <= rs {
        adj_skip(adjs, i + 1, rs)
    } else {
        i
    }
}

/// End and style of the piece of a span that starts at `rs` (relative to the line start):
/// adjustments from `j` on that cover `rs` are applied in order and cut the piece at their
/// ends; the first adjustment that starts after `rs` cuts it at its start.
pub open spec fn adj_piece(
    adjs: Seq<(std::ops::Range<usize>, StyleAdjustment)>,
    j: int,
    rs: int,
    end: int,
    style: Style,
) -> (int, Style)
    decreases adjs.len() - j,
{
    if j >= adjs.len() || j < 0 {
        (end, style)
    } else {
        let a = adjs[j];
        if a.0.start > rs {
            (if (a.0.start as int) < end { a.0.start as int } else { end }, style)
        } else if a.0.end > rs {
            adj_piece(
                adjs,
                j + 1,
                rs,
                if (a.0.end as int) < end { a.0.end as int } else { end },
                apply_spec(a.1, style),
            )
        } else {
            adj_piece(adjs, j + 1, rs, end, style)
        }
    }
}

/// The first character boundary of `b` at or after `p`.
pub open spec fn next_boundary(b: Seq<u8>, p: int) -> int
    decreases b.len() - p,
{
    if p >= b.len() || is_char_boundary(b, p) {
        p
    } else {
        next_boundary(b, p + 1)
    }
}

/// Pieces of one source span, bytes `rs .. re` relative to the start of the line, each
/// appended as a span whose style is the span's style with the adjustments covering it
/// applied; `i` is the first adjustment still of interest and `to` the position of the line
/// in the new text.
pub open spec fn adj_span_from(
    m: TextModel,
    adjs: Seq<(std::ops::Range<usize>, StyleAdjustment)>,
    i: int,
    rs: int,
    re: int,
    style: Style,
    to: int,
) -> (TextModel, int)
    decreases re - rs,
{
    if rs >= re {
        (m, i)
    } else {
        let i2 = adj_skip(adjs, i, rs);
        let (e, st) = adj_piece(adjs, i2, rs, re, style);
        let e2 = next_boundary(m.bytes, to + e) - to;
        if e2 <= rs || e2 > re {
            (m, i)
        } else {
            adj_span_from(
                TextModel { spans: m.spans.push(((to + e2) as usize, st)), ..m },
                adjs,
                i2,
                e2,
                re,
                style,
                to,
            )
        }
    }
}

/// All source spans `k .. kend` of `from`, processed by `adj_span_from`.
pub open spec fn adj_spans_from(
    m: TextModel,
    from: TextModel,
    adjs: Seq<(std::ops::Range<usize>, StyleAdjustment)>,
    k: int,
    kend: int,
    i: int,
    fcs: int,
    to: int,
) -> TextModel
    decreases kend - k,
{
    if k >= kend {
        m
    } else {
        let r = adj_span_from(
            m,
            adjs,
            i,
            from.spans[k].0 - fcs,
            from.spans[k + 1].0 - fcs,
            from.spans[k + 1].1,
            to,
        );
        adj_spans_from(r.0, from, adjs, k + 1, kend, r.1, fcs, to)
    }
}

/// The result of `import_line_with_adjustments(from, line, adjs)`.
pub open spec fn import_line_adj_spec(
    m: TextModel,
    from: TextModel,
    line: int,
    adjs: Seq<(std::ops::Range<usize>, StyleAdjustment)>,
) -> TextModel {
    let fcs = from.spans[from.lines[line] as int].0 as int;
    adj_spans_from(
        m.push_bytes(from.line_bytes(line)),
        from,
        adjs,
        from.lines[line] as int,
        from.lines[line + 1] as int,
        0,
        fcs,
        m.bytes.len() as int,
    ).close_line()
}

proof fn lemma_adj_skip(adjs: Seq<(std::ops::Range<usize>, StyleAdjustment)>, i: int, rs: int)
    requires
        0 <= i,
    ensures
        i <= adj_skip(adjs, i, rs),
        adj_skip(adjs, i, rs) <= adjs.len() || adj_skip(adjs, i, rs) == i,
        forall|x: int| i <= x < adj_skip(adjs, i, rs) ==> #[trigger] adjs[x].0.end <= rs,
    decreases adjs.len() - i,
{
    if i < adjs.len() && adjs[i].0.end <= rs {
        lemma_adj_skip(adjs, i + 1, rs);
    }
}

proof fn lemma_adj_piece(adjs: Seq<(std::ops::Range<usize>, StyleAdjustment)>, j: int, rs: int, end: int, style: Style)
    requires
        rs < end,
    ensures
        rs < adj_piece(adjs, j, rs, end, style).0 <= end,
    decreases adjs.len() - j,
{
    if j < adjs.len() && j >= 0 {
        let a = adjs[j];
        if a.0.start > rs {
        } else if a.0.end > rs {
            lemma_adj_piece(adjs, j + 1, rs, if (a.0.end as int) < end { a.0.end as int } else { end }, apply_spec(a.1, style));
        } else {
            lemma_adj_piece(adjs, j + 1, rs, end, style);
        }
    }
}

proof fn lemma_next_boundary(b: Seq<u8>, p: int, q: int)
    requires
        0 <= p <= q <= b.len(),
        is_char_boundary(b, q),
    ensures
        p <= next_boundary(b, p) <= q,
        is_char_boundary(b, next_boundary(b, p)),
    decreases b.len() - p,
{
    if p < b.len() && !is_char_boundary(b, p) {
        lemma_next_boundary(b, p + 1, q);
    }
}

/// The adjustments are sorted by the start of their ranges.
pub open spec fn adjustments_sorted(adjs: Seq<(std::ops::Range<usize>, StyleAdjustment)>) -> bool {
    forall|a: int, b: int|
        0 <= a <= b < adjs.len() ==> #[trigger] adjs[a].0.start <= #[trigger] adjs[b].0.start
}

/// `s` with the adjustments from index `j` on whose ranges contain position `p` applied, in
/// the order in which they are listed.
pub open spec fn apply_covering(
    adjs: Seq<(std::ops::Range<usize>, StyleAdjustment)>,
    j: int,
    p: int,
    s: Style,
) -> Style
    decreases adjs.len() - j,
{
    if j < 0 || j >= adjs.len() {
        s
    } else {
        let a = adjs[j];
        apply_covering(adjs, j + 1, p, if a.0.start <= p < a.0.end { apply_spec(a.1, s) } else { s })
    }
}

proof fn lemma_covering_none(adjs: Seq<(std::ops::Range<usize>, StyleAdjustment)>, j: int, p: int, s: Style)
    requires
        forall|x: int| j <= x < adjs.len() ==> p < #[trigger] adjs[x].0.start,
    ensures
        apply_covering(adjs, j, p, s) == s,
    decreases adjs.len() - j,
{
    if 0 <= j < adjs.len() {
        lemma_covering_none(adjs, j + 1, p, s);
    }
}

proof fn lemma_covering_skip(adjs: Seq<(std::ops::Range<usize>, StyleAdjustment)>, a: int, b: int, p: int, s: Style)
    requires
        0 <= a <= b <= adjs.len(),
        forall|x: int| a <= x < b ==> #[trigger] adjs[x].0.end <= p,
    ensures
        apply_covering(adjs, a, p, s) == apply_covering(adjs, b, p, s),
    decreases b - a,
{
    if a < b {
        lemma_covering_skip(adjs, a + 1, b, p, s);
    }
}

/// Every position of a piece has the piece's style: the adjustments that `adj_piece`
/// applies are exactly those from `j` on that cover the position.
proof fn lemma_adj_piece_style(
    adjs: Seq<(std::ops::Range<usize>, StyleAdjustment)>,
    j: int,
    rs: int,
    end: int,
    style: Style,
    p: int,
)
    requires
        0 <= j,
        adjustments_sorted(adjs),
        rs < end,
        rs <= p < adj_piece(adjs, j, rs, end, style).0,
    ensures
        adj_piece(adjs, j, rs, end, style).1 == apply_covering(adjs, j, p, style),
    decreases adjs.len() - j,
{
    if j < adjs.len() {
        let a = adjs[j];
        if a.0.start > rs {
            assert forall|x: int| j <= x < adjs.len() implies p < #[trigger] adjs[x].0.start by {
                assert(adjs[j].0.start <= adjs[x].0.start);
            }
            lemma_covering_none(adjs, j, p, style);
        } else if a.0.end > rs {
            let e2 = if (a.0.end as int) < end { a.0.end as int } else { end };
            lemma_adj_piece(adjs, j + 1, rs, e2, apply_spec(a.1, style));
            lemma_adj_piece_style(adjs, j + 1, rs, e2, apply_spec(a.1, style), p);
        } else {
            lemma_adj_piece_style(adjs, j + 1, rs, end, style, p);
        }
    }
}

/// What `adj_span_from` does with the pieces of one source span, bytes `rs .. re` of the
/// line: the text is left as it is, spans are only added, each ends inside `rs .. re`, the
/// last at `re`, and each character boundary in a new span has the span's style with the
/// adjustments that cover it applied.
proof fn lemma_adj_span_styles(
    m: TextModel,
    adjs: Seq<(std::ops::Range<usize>, StyleAdjustment)>,
    i: int,
    rs: int,
    re: int,
    style: Style,
    to: int,
)
    requires
        0 <= i <= adjs.len(),
        0 <= rs <= re,
        0 <= to,
        m.spans.len() >= 1,
        forall|x: int| 0 <= x < i ==> #[trigger] adjs[x].0.end <= rs,
        m.spans.last().0 == to + rs || (rs == 0 && m.spans.last().0 <= to),
        to + re <= m.bytes.len(),
        to + re <= usize::MAX,
        is_char_boundary(m.bytes, to + re),
    ensures
        ({
            let r = adj_span_from(m, adjs, i, rs, re, style, to);
            &&& r.0.bytes == m.bytes
            &&& r.0.lines == m.lines
            &&& r.0.spans.len() >= m.spans.len()
            &&& forall|j: int| 0 <= j < m.spans.len() ==> #[trigger] r.0.spans[j] == m.spans[j]
            &&& forall|j: int|
                m.spans.len() - 1 <= j < r.0.spans.len() ==> m.spans.last().0 <= #[trigger] r.0.spans[j].0
                    <= to + re
            &&& 0 <= r.1 <= adjs.len()
            &&& forall|x: int| 0 <= x < r.1 ==> #[trigger] adjs[x].0.end <= re
            &&& rs < re ==> r.0.spans.last().0 == to + re
            &&& rs == re ==> r.0 == m
            &&& forall|j: int, p: int|
                #![trigger r.0.spans[j], apply_covering(adjs, 0, p, style)]
                adjustments_sorted(adjs) && m.spans.len() - 1 <= j < r.0.spans.len() - 1 && 0 <= p && r.0.spans[j].0 <= to + p
                    < r.0.spans[j + 1].0 && is_char_boundary(m.bytes, to + p)
                    ==> r.0.spans[j + 1].1 == apply_covering(adjs, 0, p, style)
        }),
    decreases re - rs,
{
    if rs < re {
        let i2 = adj_skip(adjs, i, rs);
        lemma_adj_skip(adjs, i, rs);
        let (e, st) = adj_piece(adjs, i2, rs, re, style);
        lemma_adj_piece(adjs, i2, rs, re, style);
        lemma_next_boundary(m.bytes, to + e, to + re);
        let e2 = next_boundary(m.bytes, to + e) - to;
        let m1 = TextModel { spans: m.spans.push(((to + e2) as usize, st)), ..m };
        assert forall|x: int| 0 <= x < i2 implies #[trigger] adjs[x].0.end <= e2 by {
            if x < i {
                assert(adjs[x].0.end <= rs);
            }
        }
        lemma_adj_span_styles(m1, adjs, i2, e2, re, style, to);
        let r = adj_span_from(m1, adjs, i2, e2, re, style, to);
        assert(r == adj_span_from(m, adjs, i, rs, re, style, to));
        assert forall|j: int| 0 <= j < m.spans.len() implies #[trigger] r.0.spans[j] == m.spans[j] by {
            assert(r.0.spans[j] == m1.spans[j]);
        }
        assert forall|j: int|
            m.spans.len() - 1 <= j < r.0.spans.len() implies m.spans.last().0 <= #[trigger] r.0.spans[j].0
                <= to + re by {
            if j == m.spans.len() - 1 {
                assert(r.0.spans[j] == m1.spans[j]);
            } else {
                assert(r.0.spans[j].0 >= m1.spans.last().0);
            }
        }
        assert forall|j: int, p: int|
            #![trigger r.0.spans[j], apply_covering(adjs, 0, p, style)]
            adjustments_sorted(adjs) && m.spans.len() - 1 <= j < r.0.spans.len() - 1 && 0 <= p && r.0.spans[j].0 <= to + p
                < r.0.spans[j + 1].0 && is_char_boundary(m.bytes, to + p)
                implies r.0.spans[j + 1].1 == apply_covering(adjs, 0, p, style) by {
            if j == m.spans.len() - 1 {
                assert(r.0.spans[j] == m1.spans[j]);
                assert(r.0.spans[j + 1] == m1.spans[j + 1]);
                assert(rs <= p);
                if p >= e {
                    lemma_next_boundary(m.bytes, to + e, to + p);
                }
                lemma_adj_piece_style(adjs, i2, rs, re, style, p);
                lemma_covering_skip(adjs, 0, i2, p, style);
            }
        }
    }
}

/// What `adj_spans_from` does with source spans `k .. kend` of `from` (the line starting at
/// byte `fcs` of `from` and at byte `to` of the text): as `lemma_adj_span_styles` for each,
/// with each character boundary getting the style of the source span it lies in.
proof fn lemma_adj_spans_styles(
    m: TextModel,
    from: TextModel,
    adjs: Seq<(std::ops::Range<usize>, StyleAdjustment)>,
    k: int,
    kend: int,
    i: int,
    fcs: int,
    to: int,
)
    requires
        from.wf(),
        0 <= k <= kend < from.spans.len(),
        fcs <= from.spans[k].0,
        0 <= i <= adjs.len(),
        0 <= to,
        m.spans.len() >= 1,
        forall|x: int| 0 <= x < i ==> #[trigger] adjs[x].0.end <= from.spans[k].0 - fcs,
        m.spans.last().0 == to + (from.spans[k].0 - fcs) || (from.spans[k].0 == fcs && m.spans.last().0 <= to),
        to + (from.spans[kend].0 - fcs) <= m.bytes.len(),
        to + (from.spans[kend].0 - fcs) <= usize::MAX,
        forall|kk: int| k <= kk <= kend ==> is_char_boundary(m.bytes, to + (#[trigger] from.spans[kk].0 - fcs)),
    ensures
        ({
            let r = adj_spans_from(m, from, adjs, k, kend, i, fcs, to);
            &&& r.bytes == m.bytes
            &&& r.lines == m.lines
            &&& r.spans.len() >= m.spans.len()
            &&& forall|j: int| 0 <= j < m.spans.len() ==> #[trigger] r.spans[j] == m.spans[j]
            &&& forall|j: int|
                m.spans.len() - 1 <= j < r.spans.len() ==> m.spans.last().0 <= #[trigger] r.spans[j].0
                    <= to + (from.spans[kend].0 - fcs)
            &&& from.spans[k].0 < from.spans[kend].0 ==> r.spans.last().0 == to + (from.spans[kend].0 - fcs)
            &&& from.spans[k].0 == from.spans[kend].0 ==> r == m
            &&& forall|j: int, kk: int, p: int|
                #![trigger r.spans[j], from.spans[kk], apply_covering(adjs, 0, p, from.spans[kk + 1].1)]
                adjustments_sorted(adjs) && m.spans.len() - 1 <= j < r.spans.len() - 1 && k <= kk < kend && 0 <= p && r.spans[j].0
                    <= to + p < r.spans[j + 1].0 && from.spans[kk].0 <= fcs + p < from.spans[kk + 1].0
                    && is_char_boundary(m.bytes, to + p)
                    ==> r.spans[j + 1].1 == apply_covering(adjs, 0, p, from.spans[kk + 1].1)
        }),
    decreases kend - k,
{
    if k < kend {
        let rs = from.spans[k].0 - fcs;
        let re = from.spans[k + 1].0 - fcs;
        let style = from.spans[k + 1].1;
        assert(from.spans[k].0 <= from.spans[k + 1].0);
        assert(from.spans[k + 1].0 <= from.spans[kend].0);
        assert(is_char_boundary(m.bytes, to + (from.spans[k + 1].0 - fcs)));
        lemma_adj_span_styles(m, adjs, i, rs, re, style, to);
        let r1 = adj_span_from(m, adjs, i, rs, re, style, to);
        lemma_adj_spans_styles(r1.0, from, adjs, k + 1, kend, r1.1, fcs, to);
        let r = adj_spans_from(r1.0, from, adjs, k + 1, kend, r1.1, fcs, to);
        assert(r == adj_spans_from(m, from, adjs, k, kend, i, fcs, to));
        assert forall|j: int| 0 <= j < m.spans.len() implies #[trigger] r.spans[j] == m.spans[j] by {
            assert(r.spans[j] == r1.0.spans[j]);
        }
        assert forall|j: int|
            m.spans.len() - 1 <= j < r.spans.len() implies m.spans.last().0 <= #[trigger] r.spans[j].0
                <= to + (from.spans[kend].0 - fcs) by {
            if j < r1.0.spans.len() {
                assert(r.spans[j] == r1.0.spans[j]);
            } else {
                assert(r.spans[j].0 >= r1.0.spans.last().0);
                assert(r1.0.spans[r1.0.spans.len() - 1].0 >= m.spans.last().0);
            }
        }
        assert forall|j: int, kk: int, p: int|
            #![trigger r.spans[j], from.spans[kk], apply_covering(adjs, 0, p, from.spans[kk + 1].1)]
            adjustments_sorted(adjs) && m.spans.len() - 1 <= j < r.spans.len() - 1 && k <= kk < kend && 0 <= p && r.spans[j].0
                <= to + p < r.spans[j + 1].0 && from.spans[kk].0 <= fcs + p < from.spans[kk + 1].0
                && is_char_boundary(m.bytes, to + p)
                implies r.spans[j + 1].1 == apply_covering(adjs, 0, p, from.spans[kk + 1].1) by {
            if j < r1.0.spans.len() - 1 {
                assert(r.spans[j] == r1.0.spans[j]);
                assert(r.spans[j + 1] == r1.0.spans[j + 1]);
                assert(r1.0.spans[j + 1].0 <= to + re);
                assert(r1.0.spans[j].0 >= m.spans.last().0);
                if kk < k {
                    assert(from.spans[kk + 1].0 <= from.spans[k].0);
                } else if kk > k {
                    assert(from.spans[k + 1].0 <= from.spans[kk].0);
                }
                assert(kk == k);
                assert(apply_covering(adjs, 0, p, style) == apply_covering(adjs, 0, p, from.spans[kk + 1].1));
            } else {
                assert(r.spans[j].0 >= r1.0.spans.last().0);
                if kk == k {
                    assert(false);
                }
            }
        }
    }
}

/// Importing a line with style adjustments keeps the text: the line's bytes are appended,
/// the spans before it are left alone, a nonempty line ends in a closed span, and one new
/// line is added. Where the adjustments are sorted by start, every character of the new
/// line has the style of its source span with the adjustments whose ranges contain the
/// character's first byte applied, in the order in which they are listed.
pub proof fn lemma_import_line_adj(
    m: TextModel,
    from: TextModel,
    line: int,
    adjs: Seq<(std::ops::Range<usize>, StyleAdjustment)>,
)
    requires
        m.wf(),
        from.wf(),
        valid_utf8(m.bytes),
        valid_utf8(from.bytes),
        0 <= line < from.num_lines(),
        m.bytes.len() + from.bytes.len() <= usize::MAX,
    ensures
        ({
            let r = import_line_adj_spec(m, from, line, adjs);
            &&& r.bytes == m.bytes + from.line_bytes(line)
            &&& r.lines == m.lines.push((r.spans.len() - 1) as usize)
            &&& r.spans.len() >= m.spans.len()
            &&& forall|j: int| 0 <= j < m.spans.len() ==> #[trigger] r.spans[j] == m.spans[j]
            &&& from.line_bytes(line).len() > 0 ==> r.spans.last().0 == r.bytes.len()
        }),
        adjustments_sorted(adjs) ==> ({
            let r = import_line_adj_spec(m, from, line, adjs);
            let to = m.bytes.len() as int;
            let fcs = from.spans[from.lines[line] as int].0 as int;
            forall|j: int, kk: int, p: int|
                #![trigger r.spans[j], from.spans[kk], apply_covering(adjs, 0, p, from.spans[kk + 1].1)]
                0 <= j < r.spans.len() - 1 && from.lines[line] <= kk < from.lines[line + 1] && 0 <= p
                    && r.spans[j].0 <= to + p < r.spans[j + 1].0 && from.spans[kk].0 <= fcs + p
                    < from.spans[kk + 1].0 && is_char_boundary(r.bytes, to + p)
                    ==> r.spans[j + 1].1 == apply_covering(adjs, 0, p, from.spans[kk + 1].1)
        }),
{
    let to = m.bytes.len() as int;
    let s0 = from.lines[line] as int;
    let s1 = from.lines[line + 1] as int;
    assert(from.lines[line] <= from.lines[line + 1]);
    let fcs = from.spans[s0].0 as int;
    let fce = from.spans[s1].0 as int;
    assert(from.spans[s0].0 <= from.spans[s1].0);
    let mid = m.push_bytes(from.line_bytes(line));
    assert(m.spans[m.spans.len() - 1].0 <= m.bytes.len());
    assert forall|kk: int| s0 <= kk <= s1 implies is_char_boundary(mid.bytes, to + (#[trigger] from.spans[kk].0 - fcs)) by {
        assert(from.spans[s0].0 <= from.spans[kk].0);
        assert(from.spans[kk].0 <= from.spans[s1].0);
        lemma_boundary_in_piece(from.bytes, fcs, from.spans[kk].0 as int, fce);
        lemma_boundary_prepend(m.bytes, from.bytes.subrange(fcs, fce), from.spans[kk].0 - fcs);
    }
    lemma_adj_spans_styles(mid, from, adjs, s0, s1, 0, fcs, to);
    let total = adj_spans_from(mid, from, adjs, s0, s1, 0, fcs, to);
    let r = import_line_adj_spec(m, from, line, adjs);
    assert(r.spans == total.spans);
    assert forall|j: int| 0 <= j < m.spans.len() implies #[trigger] r.spans[j] == m.spans[j] by {
        assert(total.spans[j] == mid.spans[j]);
    }
    if adjustments_sorted(adjs) {
        assert forall|j: int, kk: int, p: int|
            #![trigger r.spans[j], from.spans[kk], apply_covering(adjs, 0, p, from.spans[kk + 1].1)]
            0 <= j < r.spans.len() - 1 && s0 <= kk < s1 && 0 <= p
                && r.spans[j].0 <= to + p < r.spans[j + 1].0 && from.spans[kk].0 <= fcs + p
                < from.spans[kk + 1].0 && is_char_boundary(r.bytes, to + p)
                implies r.spans[j + 1].1 == apply_covering(adjs, 0, p, from.spans[kk + 1].1) by {
            if j < m.spans.len() - 1 {
                assert(r.spans[j + 1] == m.spans[j + 1]);
                assert(m.spans[j + 1].0 <= m.bytes.len());
            }
        }
    }
}


/// What `line_wrap` needs to know besides the text being built: the text before wrapping
/// (whose lines are wrapped), the requested lines, the width, the line limit, and the
/// indicators (bytes, style and width of the line-continuation marks and of the right
/// truncation mark).
pub struct WrapParams {
    pub src: TextModel,
    pub lines_start: int,
    pub lines_end: int,
    pub first_new_line: int,
    pub width: int,
    pub max_lines: int,
    pub wrap_start: Seq<u8>,
    pub wrap_start_width: int,
    pub wrap_end: Seq<u8>,
    pub wrap_end_width: int,
    pub wrap_style: Style,
    pub trunc_end: Seq<u8>,
    pub trunc_end_width: int,
    pub trunc_style: Style,
}

/// One entry of `line_wrap`'s optional output: the x position where an output line's text
/// starts, the index of its source line within the requested range, and its byte range
/// within the source line.
pub type WrapOut = (isize, usize, std::ops::Range<usize>);

/// `a - b`, or 0 if that is negative.
pub open spec fn sat_sub(a: int, b: int) -> int {
    if a >= b { a - b } else { 0 }
}

/// Copies source bytes `pos .. we` into the text, one new span per (part of a) source span,
/// starting at source span `k`; returns the text, the position reached and the span index.
pub open spec fn copy_spans(m: TextModel, src: TextModel, pos: int, we: int, k: int) -> (TextModel, int, int)
    decreases we - pos, src.spans.len() - k,
{
    if pos >= we || k < 0 || k + 1 >= src.spans.len() {
        (m, pos, k)
    } else {
        let e = src.spans[k + 1].0 as int;
        let s = src.spans[k + 1].1;
        let k2 = if e <= we { k + 1 } else { k };
        if e > pos {
            let np = if e < we { e } else { we };
            let m1 = m.push_bytes(src.bytes.subrange(pos, np));
            copy_spans(TextModel { spans: m1.spans.push((m1.bytes.len() as usize, s)), ..m1 }, src, np, we, k2)
        } else if k2 > k {
            copy_spans(m, src, pos, we, k2)
        } else {
            (m, pos, k)
        }
    }
}

/// Start byte of source line `i`.
pub open spec fn src_line_start(p: WrapParams, i: int) -> int {
    p.src.spans[p.src.lines[i] as int].0 as int
}

/// End byte of source line `i`.
pub open spec fn src_line_end(p: WrapParams, i: int) -> int {
    p.src.spans[p.src.lines[i + 1] as int].0 as int
}

/// Where the next output line of source line `li` ends and how wide it is, when it starts at
/// `pos` with `rem` columns of the source line left, `avail` columns available, and is the
/// last line allowed if `last`.
pub open spec fn wrap_cut(p: WrapParams, li: int, pos: int, rem: int, avail: int, last: bool) -> (int, int) {
    let line_end = src_line_end(p, li);
    let ind_w = if last { p.trunc_end_width } else { p.wrap_end_width };
    if rem <= avail && !(last && li + 1 < p.lines_end) {
        (line_end - pos, rem)
    } else {
        let pr = crate::text_width::prefix_with_width_spec(
            decode_utf8(p.src.bytes.subrange(pos, line_end)),
            sat_sub(avail, ind_w),
        );
        if pr.0 == 0 { (pr.2, pr.3) } else { (pr.0, pr.1) }
    }
}

/// One output line of source line `li`, starting at `pos` (`k` is the source span holding
/// `pos`, `rem` the width of the source line still to place): the text and output entries
/// after it, the position and span reached, the width left, whether the line limit ended the
/// wrapping, and whether the source line continues on another output line.
pub open spec fn wrap_step(m: TextModel, outs: Seq<WrapOut>, p: WrapParams, li: int, pos: int, k: int, rem: int) -> (TextModel, Seq<WrapOut>, int, int, int, bool, bool) {
    let line_start = src_line_start(p, li);
    let line_end = src_line_end(p, li);
    let m1 = if pos == line_start { m } else { m.push_bytes(p.wrap_start).close_span(p.wrap_style) };
    let x = if pos == line_start { 0 } else { p.wrap_start_width };
    let avail = sat_sub(p.width, x);
    let last = m1.num_lines() - p.first_new_line + 1 >= p.max_lines;
    let (n, w) = wrap_cut(p, li, pos, rem, avail, last);
    let c = copy_spans(m1, p.src, pos, pos + n, k);
    let pos2 = c.1;
    let rem2 = sat_sub(rem, w);
    let outs2 = outs.push((x as isize, (li - p.lines_start) as usize, ((pos - line_start) as usize)..((pos2 - line_start) as usize)));
    if pos2 < line_end || (last && li + 1 < p.lines_end) {
        if last {
            (c.0.push_bytes(p.trunc_end).close_span(p.trunc_style).close_line(), outs2, pos2, c.2, rem2, true, false)
        } else {
            (c.0.push_bytes(p.wrap_end).close_span(p.wrap_style).close_line(), outs2, pos2, c.2, rem2, false, true)
        }
    } else {
        (c.0.close_line(), outs2, pos2, c.2, rem2, false, true)
    }
}

/// Output lines of source line `li` from position `pos` on. The flag tells whether the line
/// limit was reached, which ends the wrapping.
pub open spec fn wrap_segments(m: TextModel, outs: Seq<WrapOut>, p: WrapParams, li: int, pos: int, k: int, rem: int) -> (TextModel, Seq<WrapOut>, bool)
    decreases src_line_end(p, li) - pos,
{
    if pos >= src_line_end(p, li) {
        (m, outs, false)
    } else {
        let st = wrap_step(m, outs, p, li, pos, k, rem);
        if st.6 && st.2 > pos && st.2 <= src_line_end(p, li) {
            wrap_segments(st.0, st.1, p, li, st.2, st.3, st.4)
        } else {
            (st.0, st.1, st.5)
        }
    }
}

/// Output lines of source line `li`.
pub open spec fn wrap_line(m: TextModel, outs: Seq<WrapOut>, p: WrapParams, li: int) -> (TextModel, Seq<WrapOut>, bool) {
    let line_start = src_line_start(p, li);
    let line_end = src_line_end(p, li);
    if line_start == line_end {
        let outs2 = outs.push((0isize, (li - p.lines_start) as usize, 0usize..0usize));
        if m.num_lines() - p.first_new_line + 1 >= p.max_lines && li + 1 < p.lines_end {
            (m.push_bytes(p.trunc_end).close_span(p.trunc_style).close_line(), outs2, true)
        } else {
            (m.close_line(), outs2, false)
        }
    } else {
        wrap_segments(
            m,
            outs,
            p,
            li,
            line_start,
            p.src.lines[li] as int,
            crate::styled_text::bytes_width(p.src.bytes.subrange(line_start, line_end)),
        )
    }
}

/// Output lines of source lines `li ..` of the requested range.
pub open spec fn wrap_lines_from(m: TextModel, outs: Seq<WrapOut>, p: WrapParams, li: int) -> (TextModel, Seq<WrapOut>)
    decreases p.lines_end - li,
{
    if li >= p.lines_end {
        (m, outs)
    } else {
        let r = wrap_line(m, outs, p, li);
        if r.2 {
            (r.0, r.1)
        } else {
            wrap_lines_from(r.0, r.1, p, li + 1)
        }
    }
}


/// The most lines that wrapping may make: `max_lines`, but at least one.
pub open spec fn wrap_line_limit(p: WrapParams) -> int {
    if p.max_lines >= 1 { p.max_lines } else { 1 }
}

proof fn lemma_copy_spans_lines(m: TextModel, src: TextModel, pos: int, we: int, k: int)
    ensures
        copy_spans(m, src, pos, we, k).0.lines == m.lines,
    decreases we - pos, src.spans.len() - k,
{
    if !(pos >= we || k < 0 || k + 1 >= src.spans.len()) {
        let e = src.spans[k + 1].0 as int;
        let s = src.spans[k + 1].1;
        let k2 = if e <= we { k + 1 } else { k };
        if e > pos {
            let np = if e < we { e } else { we };
            let m1 = m.push_bytes(src.bytes.subrange(pos, np));
            lemma_copy_spans_lines(TextModel { spans: m1.spans.push((m1.bytes.len() as usize, s)), ..m1 }, src, np, we, k2);
        } else if k2 > k {
            lemma_copy_spans_lines(m, src, pos, we, k2);
        }
    }
}

proof fn lemma_wrap_step_lines(m: TextModel, outs: Seq<WrapOut>, p: WrapParams, li: int, pos: int, k: int, rem: int)
    ensures
        ({
            let st = wrap_step(m, outs, p, li, pos, k, rem);
            let last = m.num_lines() - p.first_new_line + 1 >= p.max_lines;
            &&& st.0.num_lines() == m.num_lines() + 1
            &&& st.5 == (last && (st.2 < src_line_end(p, li) || li + 1 < p.lines_end))
            &&& st.6 == !st.5
        }),
{
    let line_start = src_line_start(p, li);
    let m1 = if pos == line_start { m } else { m.push_bytes(p.wrap_start).close_span(p.wrap_style) };
    let x = if pos == line_start { 0 } else { p.wrap_start_width };
    let avail = sat_sub(p.width, x);
    let last = m1.num_lines() - p.first_new_line + 1 >= p.max_lines;
    let (n, w) = wrap_cut(p, li, pos, rem, avail, last);
    lemma_copy_spans_lines(m1, p.src, pos, pos + n, k);
}

proof fn lemma_wrap_segments_lines(m: TextModel, outs: Seq<WrapOut>, p: WrapParams, li: int, pos: int, k: int, rem: int)
    requires
        m.num_lines() - p.first_new_line < wrap_line_limit(p),
    ensures
        ({
            let r = wrap_segments(m, outs, p, li, pos, k, rem);
            &&& r.0.num_lines() - p.first_new_line <= wrap_line_limit(p)
            &&& pos < src_line_end(p, li) ==> r.0.num_lines() >= m.num_lines() + 1
            &&& pos >= src_line_end(p, li) ==> r.0 == m && !r.2
            &&& !r.2 ==> (r.0.num_lines() - p.first_new_line < wrap_line_limit(p) || li + 1 >= p.lines_end)
        }),
    decreases src_line_end(p, li) - pos,
{
    if pos < src_line_end(p, li) {
        let st = wrap_step(m, outs, p, li, pos, k, rem);
        lemma_wrap_step_lines(m, outs, p, li, pos, k, rem);
        if st.6 && st.2 > pos && st.2 <= src_line_end(p, li) {
            if st.2 < src_line_end(p, li) {
                lemma_wrap_segments_lines(st.0, st.1, p, li, st.2, st.3, st.4);
            }
        }
    }
}

proof fn lemma_wrap_line_lines(m: TextModel, outs: Seq<WrapOut>, p: WrapParams, li: int)
    requires
        m.num_lines() - p.first_new_line < wrap_line_limit(p),
        p.src.wf(),
        0 <= li < p.src.num_lines(),
    ensures
        ({
            let r = wrap_line(m, outs, p, li);
            &&& r.0.num_lines() - p.first_new_line <= wrap_line_limit(p)
            &&& r.0.num_lines() >= m.num_lines() + 1
            &&& !r.2 ==> (r.0.num_lines() - p.first_new_line < wrap_line_limit(p) || li + 1 >= p.lines_end)
        }),
{
    assert(p.src.lines[li] <= p.src.lines[li + 1]);
    assert(src_line_start(p, li) <= src_line_end(p, li));
    if src_line_start(p, li) != src_line_end(p, li) {
        lemma_wrap_segments_lines(
            m,
            outs,
            p,
            li,
            src_line_start(p, li),
            p.src.lines[li] as int,
            crate::styled_text::bytes_width(p.src.bytes.subrange(src_line_start(p, li), src_line_end(p, li))),
        );
    }
}

proof fn lemma_wrap_lines_from_lines(m: TextModel, outs: Seq<WrapOut>, p: WrapParams, li: int)
    requires
        m.num_lines() - p.first_new_line <= wrap_line_limit(p),
        li < p.lines_end ==> m.num_lines() - p.first_new_line < wrap_line_limit(p),
        p.src.wf(),
        0 <= li,
        p.lines_end <= p.src.num_lines(),
    ensures
        ({
            let r = wrap_lines_from(m, outs, p, li);
            &&& r.0.num_lines() - p.first_new_line <= wrap_line_limit(p)
            &&& li < p.lines_end ==> r.0.num_lines() >= m.num_lines() + 1
            &&& li >= p.lines_end ==> r.0 == m
        }),
    decreases p.lines_end - li,
{
    if li < p.lines_end {
        lemma_wrap_line_lines(m, outs, p, li);
        let r = wrap_line(m, outs, p, li);
        if !r.2 {
            lemma_wrap_lines_from_lines(r.0, r.1, p, li + 1);
        }
    }
}

proof fn lemma_wrap_segments_outs_count(m: TextModel, outs: Seq<WrapOut>, p: WrapParams, li: int, pos: int, k: int, rem: int)
    ensures
        ({
            let r = wrap_segments(m, outs, p, li, pos, k, rem);
            r.1.len() - outs.len() == r.0.num_lines() - m.num_lines()
        }),
    decreases src_line_end(p, li) - pos,
{
    if pos < src_line_end(p, li) {
        let st = wrap_step(m, outs, p, li, pos, k, rem);
        lemma_wrap_step_lines(m, outs, p, li, pos, k, rem);
        assert(st.1.len() == outs.len() + 1);
        if st.6 && st.2 > pos && st.2 <= src_line_end(p, li) {
            lemma_wrap_segments_outs_count(st.0, st.1, p, li, st.2, st.3, st.4);
        }
    }
}

proof fn lemma_wrap_lines_outs_count(m: TextModel, outs: Seq<WrapOut>, p: WrapParams, li: int)
    ensures
        ({
            let r = wrap_lines_from(m, outs, p, li);
            r.1.len() - outs.len() == r.0.num_lines() - m.num_lines()
        }),
    decreases p.lines_end - li,
{
    if li < p.lines_end {
        let line_start = src_line_start(p, li);
        let line_end = src_line_end(p, li);
        if line_start != line_end {
            lemma_wrap_segments_outs_count(
                m,
                outs,
                p,
                li,
                line_start,
                p.src.lines[li] as int,
                crate::styled_text::bytes_width(p.src.bytes.subrange(line_start, line_end)),
            );
        }
        let r = wrap_line(m, outs, p, li);
        if !r.2 {
            lemma_wrap_lines_outs_count(r.0, r.1, p, li + 1);
        }
    }
}

/// The entries of each source line follow each other without a gap: an entry that continues
/// the source line of the entry before it starts where that one ended, and the first entry of
/// a source line starts at its start.
pub open spec fn outs_contiguous(outs: Seq<WrapOut>) -> bool {
    forall|i: int|
        0 <= i < outs.len() ==> if i > 0 && outs[i - 1].1 == (#[trigger] outs[i]).1 {
            outs[i].2.start == outs[i - 1].2.end
        } else {
            outs[i].2.start == 0
        }
}

proof fn lemma_outs_push(outs: Seq<WrapOut>, e: WrapOut)
    requires
        outs_contiguous(outs),
        outs.len() > 0 && outs.last().1 == e.1 ==> e.2.start == outs.last().2.end,
        !(outs.len() > 0 && outs.last().1 == e.1) ==> e.2.start == 0,
    ensures
        outs_contiguous(outs.push(e)),
{
    let o = outs.push(e);
    assert forall|i: int| 0 <= i < o.len() implies if i > 0 && o[i - 1].1 == (#[trigger] o[i]).1 {
        o[i].2.start == o[i - 1].2.end
    } else {
        o[i].2.start == 0
    } by {
        if i < outs.len() {
            assert(o[i] == outs[i]);
            if i > 0 {
                assert(o[i - 1] == outs[i - 1]);
            }
        } else if i > 0 {
            assert(o[i - 1] == outs.last());
        }
    }
}

proof fn lemma_wrap_segments_contiguous(m: TextModel, outs: Seq<WrapOut>, p: WrapParams, li: int, pos: int, k: int, rem: int)
    requires
        outs_contiguous(outs),
        src_line_start(p, li) <= pos,
        src_line_end(p, li) <= usize::MAX,
        0 <= li - p.lines_start <= usize::MAX,
        pos == src_line_start(p, li) ==> outs.len() == 0 || outs.last().1 != (li - p.lines_start) as usize,
        pos > src_line_start(p, li) ==> outs.len() > 0 && outs.last().1 == (li - p.lines_start) as usize
            && outs.last().2.end == (pos - src_line_start(p, li)) as usize,
        outs.len() > 0 ==> outs.last().1 <= li - p.lines_start,
    ensures
        ({
            let r = wrap_segments(m, outs, p, li, pos, k, rem);
            &&& outs_contiguous(r.1)
            &&& r.1.len() > 0 ==> r.1.last().1 <= li - p.lines_start
        }),
    decreases src_line_end(p, li) - pos,
{
    if pos < src_line_end(p, li) {
        let ls = src_line_start(p, li);
        let st = wrap_step(m, outs, p, li, pos, k, rem);
        let x = if pos == ls { 0 } else { p.wrap_start_width };
        let m1 = if pos == ls { m } else { m.push_bytes(p.wrap_start).close_span(p.wrap_style) };
        let avail = sat_sub(p.width, x);
        let last = m1.num_lines() - p.first_new_line + 1 >= p.max_lines;
        let (n, w) = wrap_cut(p, li, pos, rem, avail, last);
        let c = copy_spans(m1, p.src, pos, pos + n, k);
        let e = (x as isize, (li - p.lines_start) as usize, ((pos - ls) as usize)..((c.1 - ls) as usize));
        assert(st.1 == outs.push(e));
        lemma_outs_push(outs, e);
        if st.6 && st.2 > pos && st.2 <= src_line_end(p, li) {
            lemma_wrap_segments_contiguous(st.0, st.1, p, li, st.2, st.3, st.4);
        }
    }
}

proof fn lemma_wrap_lines_contiguous(m: TextModel, outs: Seq<WrapOut>, p: WrapParams, li: int)
    requires
        outs_contiguous(outs),
        p.src.wf(),
        0 <= p.lines_start <= li,
        p.lines_end <= p.src.num_lines(),
        p.lines_end - p.lines_start <= usize::MAX,
        outs.len() > 0 ==> outs.last().1 < li - p.lines_start,
    ensures
        outs_contiguous(wrap_lines_from(m, outs, p, li).1),
    decreases p.lines_end - li,
{
    if li < p.lines_end {
        let ls = src_line_start(p, li);
        let le = src_line_end(p, li);
        assert(p.src.lines[li] <= p.src.lines[li + 1]);
        assert(ls <= le);
        assert(p.src.spans[p.src.lines[li + 1] as int].0 <= p.src.bytes.len());
        if ls == le {
            lemma_outs_push(outs, (0isize, (li - p.lines_start) as usize, 0usize..0usize));
        } else {
            lemma_wrap_segments_contiguous(m, outs, p, li, ls, p.src.lines[li] as int, crate::styled_text::bytes_width(p.src.bytes.subrange(ls, le)));
        }
        let r = wrap_line(m, outs, p, li);
        if !r.2 {
            lemma_wrap_lines_contiguous(r.0, r.1, p, li + 1);
        }
    }
}

/// Wrapping lines (`line_wrap`) makes at least one line for a nonempty range of lines, and no
/// more than `max_lines` (at least one even when `max_lines` is 0); none for an empty range.
pub proof fn lemma_wrap_line_count(
    m: TextModel,
    lines: std::ops::Range<usize>,
    width: usize,
    max_lines: usize,
    wrap_indicator: (String, String, Style),
    trunc_indicator: (String, String, Style),
)
    requires
        m.wf(),
        lines.end <= m.num_lines(),
    ensures
        ({
            let p = wrap_params(m, lines, width, max_lines, wrap_indicator, trunc_indicator);
            let n = wrap_lines_from(m, seq![], p, lines.start as int).0.num_lines() - m.num_lines();
            &&& lines.start < lines.end ==> 1 <= n <= (if max_lines >= 1 { max_lines as int } else { 1 })
            &&& lines.start >= lines.end ==> n == 0
        }),
{
    let p = wrap_params(m, lines, width, max_lines, wrap_indicator, trunc_indicator);
    lemma_wrap_lines_from_lines(m, seq![], p, lines.start as int);
}

/// `m` was obtained from `src` by appending only: the text, spans and lines of `src` are
/// prefixes of those of `m`, and the end of `src`'s text is a character boundary of `m`'s.
pub open spec fn extends(m: TextModel, src: TextModel) -> bool {
    &&& m.bytes.len() >= src.bytes.len()
    &&& m.bytes.subrange(0, src.bytes.len() as int) == src.bytes
    &&& is_char_boundary(m.bytes, src.bytes.len() as int)
    &&& m.spans.len() >= src.spans.len()
    &&& forall|q: int| 0 <= q < src.spans.len() ==> m.spans[q] == src.spans[q]
    &&& m.lines.len() >= src.lines.len()
    &&& forall|q: int| 0 <= q < src.lines.len() ==> m.lines[q] == src.lines[q]
}

proof fn lemma_extends_boundary(m: Seq<u8>, src: Seq<u8>, q: int)
    requires
        valid_utf8(m),
        valid_utf8(src),
        m.len() >= src.len(),
        m.subrange(0, src.len() as int) == src,
        is_char_boundary(m, src.len() as int),
        is_char_boundary(src, q),
    ensures
        is_char_boundary(m, q),
{
    if q < src.len() {
        assert(0 <= q) by {
            if q < 0 {
                assert(!is_char_boundary(src, q));
            }
        }
        assert(m[q] == src[q]) by {
            assert(m.subrange(0, src.len() as int)[q] == m[q]);
        }
        is_char_boundary_iff_not_is_continuation_byte(src, q);
        is_char_boundary_iff_not_is_continuation_byte(m, q);
    } else {
        assert(q == src.len()) by {
            if q > src.len() {
                assert(!is_char_boundary(src, q));
            }
        }
    }
}


/// The arguments of `line_wrap` that stay fixed while it runs.
pub struct WrapCtx<'a> {
    pub lines_start: usize,
    pub lines_end: usize,
    pub start: usize,
    pub width: usize,
    pub max_lines: usize,
    pub wrap_indicator: &'a (String, String, Style),
    pub trunc_indicator: &'a (String, String, Style),
    pub wrap_start_width: usize,
    pub wrap_end_width: usize,
    pub trunc_end_width: usize,
}

/// The exec arguments `c` describe the wrapping parameters `p`.
pub open spec fn ctx_matches(c: WrapCtx, p: WrapParams) -> bool {
    &&& p.lines_start == c.lines_start
    &&& p.lines_end == c.lines_end
    &&& p.first_new_line == c.start
    &&& p.width == c.width
    &&& p.max_lines == c.max_lines
    &&& p.wrap_start == utf8(c.wrap_indicator.0@)
    &&& p.wrap_end == utf8(c.wrap_indicator.1@)
    &&& p.wrap_style == c.wrap_indicator.2
    &&& p.trunc_end == utf8(c.trunc_indicator.1@)
    &&& p.trunc_style == c.trunc_indicator.2
    &&& p.wrap_start_width == c.wrap_start_width
    &&& p.wrap_end_width == c.wrap_end_width
    &&& p.trunc_end_width == c.trunc_end_width
    &&& c.wrap_start_width <= isize::MAX
    &&& c.lines_end <= p.src.num_lines()
    &&& p.src.wf()
    &&& 3 * p.src.bytes.len() <= usize::MAX
}

/// Total length of the indicator texts.
pub open spec fn indicators_len(p: WrapParams) -> int {
    (p.wrap_start.len() + p.wrap_end.len() + p.trunc_end.len()) as int
}


proof fn lemma_extends_push(m: TextModel, src: TextModel, b: Seq<u8>)
    requires
        extends(m, src),
        m.wf(),
        valid_utf8(m.bytes),
        valid_utf8(b),
    ensures
        extends(m.push_bytes(b), src),
        forall|st: Style| m.spans.len() < usize::MAX ==> extends(#[trigger] m.push_bytes(b).close_span(st), src),
        extends(m.close_line(), src),
{
    let m2 = m.push_bytes(b);
    lemma_boundary_append(m.bytes, b, src.bytes.len() as int);
    assert(m2.bytes.subrange(0, src.bytes.len() as int) =~= src.bytes) by {
        assert forall|q: int| 0 <= q < src.bytes.len() implies m2.bytes[q] == src.bytes[q] by {
            assert(m.bytes.subrange(0, src.bytes.len() as int)[q] == m.bytes[q]);
        }
    }
}


proof fn lemma_mul_le(a: int, b: int, k: int)
    requires
        0 <= a <= b,
        0 <= k,
    ensures
        a * k <= b * k,
        0 <= a * k,
{
    assert(a * k <= b * k) by (nonlinear_arith)
        requires
            0 <= a <= b,
            0 <= k,
    ;
    assert(0 <= a * k) by (nonlinear_arith)
        requires
            0 <= a,
            0 <= k,
    ;
}


/// The wrapping parameters of a `line_wrap` call on text `m`.
pub open spec fn wrap_params(
    m: TextModel,
    lines: std::ops::Range<usize>,
    width: usize,
    max_lines: usize,
    wrap_indicator: (String, String, Style),
    trunc_indicator: (String, String, Style),
) -> WrapParams {
    WrapParams {
        src: m,
        lines_start: lines.start as int,
        lines_end: lines.end as int,
        first_new_line: m.num_lines(),
        width: width as int,
        max_lines: max_lines as int,
        wrap_start: utf8(wrap_indicator.0@),
        wrap_start_width: str_width_spec(wrap_indicator.0@),
        wrap_end: utf8(wrap_indicator.1@),
        wrap_end_width: str_width_spec(wrap_indicator.1@),
        wrap_style: wrap_indicator.2,
        trunc_end: utf8(trunc_indicator.1@),
        trunc_end_width: str_width_spec(trunc_indicator.1@),
        trunc_style: trunc_indicator.2,
    }
}

/// The output of wrapping lines `a .. b` of `m` with indicators of total length `k` fits in
/// memory: every output line takes at least one source byte or is an empty source line, and
/// adds at most `k` bytes of indicators and two spans.
pub open spec fn wrap_fits(m: TextModel, a: int, b: int, k: int) -> bool {
    &&& 2 * m.bytes.len() + (m.bytes.len() + (b - a) + 1) * k <= usize::MAX
    &&& m.spans.len() + 3 * m.bytes.len() + 2 * (b - a) + 4 <= usize::MAX
    &&& m.lines.len() + m.bytes.len() + (b - a) + 4 < usize::MAX
}

proof fn lemma_line_bounds(p: WrapParams, a: int, i: int)
    requires
        p.src.wf(),
        0 <= a <= i <= p.src.num_lines(),
    ensures
        src_line_start(p, a) <= src_line_start(p, i) <= p.src.bytes.len(),
        i < p.src.num_lines() ==> src_line_start(p, i) <= src_line_end(p, i) <= p.src.bytes.len(),
        i < p.src.num_lines() ==> src_line_end(p, i) == src_line_start(p, i + 1),
{
    assert(p.src.lines[a] <= p.src.lines[i]);
    assert(p.src.spans[p.src.lines[a] as int].0 <= p.src.spans[p.src.lines[i] as int].0);
    if i < p.src.num_lines() {
        assert(p.src.lines[i] <= p.src.lines[i + 1]);
        assert(p.src.spans[p.src.lines[i] as int].0 <= p.src.spans[p.src.lines[i + 1] as int].0);
    }
}


proof fn lemma_wrap_segments_outs(m: TextModel, outs: Seq<WrapOut>, p: WrapParams, li: int, pos: int, k: int, rem: int)
    ensures
        wrap_segments(m, outs, p, li, pos, k, rem) == ({
            let r = wrap_segments(m, seq![], p, li, pos, k, rem);
            (r.0, outs + r.1, r.2)
        }),
    decreases src_line_end(p, li) - pos,
{
    if pos < src_line_end(p, li) {
        let st = wrap_step(m, outs, p, li, pos, k, rem);
        let st0 = wrap_step(m, seq![], p, li, pos, k, rem);
        assert(st.1 =~= outs + st0.1);
        if st.6 && st.2 > pos && st.2 <= src_line_end(p, li) {
            lemma_wrap_segments_outs(st.0, st.1, p, li, st.2, st.3, st.4);
            lemma_wrap_segments_outs(st.0, st0.1, p, li, st.2, st.3, st.4);
            let r = wrap_segments(st.0, seq![], p, li, st.2, st.3, st.4);
            assert(outs + (st0.1 + r.1) =~= (outs + st0.1) + r.1);
        }
    } else {
        assert(outs + Seq::<WrapOut>::empty() =~= outs);
    }
}

proof fn lemma_wrap_outs_extend(m: TextModel, outs: Seq<WrapOut>, p: WrapParams, li: int)
    ensures
        wrap_lines_from(m, outs, p, li) == ({
            let r = wrap_lines_from(m, seq![], p, li);
            (r.0, outs + r.1)
        }),
    decreases p.lines_end - li,
{
    if li < p.lines_end {
        let line_start = src_line_start(p, li);
        let line_end = src_line_end(p, li);
        let w = wrap_line(m, outs, p, li);
        let w0 = wrap_line(m, seq![], p, li);
        if line_start == line_end {
            assert(w.1 =~= outs + w0.1);
        } else {
            lemma_wrap_segments_outs(m, outs, p, li, line_start, p.src.lines[li] as int,
                crate::styled_text::bytes_width(p.src.bytes.subrange(line_start, line_end)));
        }
        assert(w.0 == w0.0 && w.2 == w0.2 && w.1 =~= outs + w0.1);
        if !w.2 {
            lemma_wrap_outs_extend(w.0, w.1, p, li + 1);
            lemma_wrap_outs_extend(w.0, w0.1, p, li + 1);
            let r = wrap_lines_from(w.0, seq![], p, li + 1);
            assert(outs + (w0.1 + r.1) =~= (outs + w0.1) + r.1);
        }
    } else {
        assert(outs + Seq::<WrapOut>::empty() =~= outs);
    }
}

/// `b` repeated `n` times.
pub open spec fn repeat_bytes(b: Seq<u8>, n: nat) -> Seq<u8>
    decreases n,
{
    if n == 0 {
        seq![]
    } else {
        repeat_bytes(b, (n - 1) as nat) + b
    }
}

/// Display width of the given UTF-8 bytes.
pub open spec fn bytes_width(b: Seq<u8>) -> int {
    str_width_spec(decode_utf8(b))
}

/// Widest of lines `a .. b` of `m` (0 for no lines).
pub open spec fn widest_line_spec(m: TextModel, a: int, b: int) -> int
    decreases b - a,
{
    if b <= a {
        0
    } else {
        let w = bytes_width(m.line_bytes(b - 1));
        let rest = widest_line_spec(m, a, b - 1);
        if w > rest { w } else { rest }
    }
}

impl Default for StyledText {
    fn default() -> (r: Self)
        ensures
            r@.lines == seq![0usize],
            r@.spans == seq![(0usize, default_style())],
            r@.bytes == Seq::<u8>::empty(),
            r@.wf(),
    {
        let mut spans: Vec<(usize, Style)> = Vec::new();
        spans.push((0, Style::default()));
        let mut lines: Vec<usize> = Vec::new();
        lines.push(0);
        let r = StyledText { chars: String::new(), spans, lines };
        proof {
            assert(r@.spans =~= seq![(0usize, default_style())]);
            assert(r@.lines =~= seq![0usize]);
            assert(utf8(r.chars@) =~= Seq::<u8>::empty());
            is_char_boundary_start_end_of_seq(r@.bytes);
        }
        r
    }
}

impl StyledText {
    /// Length of the text in bytes.
    pub fn byte_len(&self) -> (r: usize)
        requires
            self@.bytes.len() <= usize::MAX,
        ensures
            r == self@.bytes.len(),
    {
        self.chars.as_str().len()
    }

    /// Number of closed spans.
    pub fn num_spans(&self) -> (r: usize)
        requires
            self@.wf(),
        ensures
            r == self@.num_spans(),
    {
        self.spans.len() - 1
    }

    /// Number of closed lines.
    pub fn num_lines(&self) -> (r: usize)
        requires
            self@.wf(),
        ensures
            r == self@.num_lines(),
    {
        self.lines.len() - 1
    }

    /// Appends `s` to the unclosed span.
    pub fn push_str(&mut self, s: &str)
        requires
            old(self)@.wf(),
            old(self)@.bytes.len() + s.spec_bytes().len() <= usize::MAX,
        ensures
            final(self)@ == old(self)@.push_bytes(s.spec_bytes()),
            final(self)@.wf(),
    {
        let ghost old_model = self@;
        let ghost old_chars = self.chars@;
        self.chars.append(s);
        proof {
            lemma_utf8_concat(old_chars, s@);
            assert(self@.bytes == old_model.bytes + s.spec_bytes());
            assert forall|i: int| 0 <= i < self@.spans.len() implies #[trigger] self@.spans[i].0
                <= self@.bytes.len() && is_char_boundary(self@.bytes, self@.spans[i].0 as int) by {
                lemma_boundary_append(old_model.bytes, s.spec_bytes(), self@.spans[i].0 as int);
            }
            assert(self@ =~= old_model.push_bytes(s.spec_bytes()));
        }
    }

    /// Closes the unclosed span with `style`. An empty span is not added. (Note that a
    /// nonempty span may still have rendered width 0, e.g. a zero width space.)
    pub fn close_span(&mut self, style: Style)
        requires
            old(self)@.wf(),
            old(self)@.spans.len() < usize::MAX,
        ensures
            final(self)@ == old(self)@.close_span(style),
            final(self)@.wf(),
    {
        let len = self.byte_len();
        if self.spans[self.spans.len() - 1].0 != len {
            self.spans.push((len, style));
            proof {
                is_char_boundary_start_end_of_seq(self@.bytes);
                assert(self@ =~= old(self)@.close_span(style));
            }
        }
    }

    /// Closes the unclosed line; returns its index.
    pub fn close_line(&mut self) -> (r: usize)
        requires
            old(self)@.wf(),
            old(self)@.lines.len() < usize::MAX,
        ensures
            final(self)@ == old(self)@.close_line(),
            final(self)@.wf(),
            r == old(self)@.num_lines(),
    {
        let n = self.spans.len() - 1;
        self.lines.push(n);
        proof {
            assert(self@ =~= old(self)@.close_line());
        }
        self.lines.len() - 2
    }

    /// The text and style of closed span `i`.
    pub fn get_span(&self, i: usize) -> (r: (&str, Style))
        requires
            self@.wf(),
            i < self@.num_spans(),
        ensures
            r.0.spec_bytes() == self@.span_bytes(i as int),
            r.1 == self@.spans[i + 1].1,
    {
        let s = substr(self.chars.as_str(), self.spans[i].0, self.spans[i + 1].0);
        (s, self.spans[i + 1].1)
    }

    /// Range of spans of closed line `i`.
    pub fn get_line(&self, i: usize) -> (r: std::ops::Range<usize>)
        requires
            self@.wf(),
            i < self@.num_lines(),
        ensures
            r.start == self@.lines[i as int],
            r.end == self@.lines[i + 1],
    {
        self.lines[i]..self.lines[i + 1]
    }

    /// Text of closed line `i`.
    pub fn get_line_str(&self, i: usize) -> (r: &str)
        requires
            self@.wf(),
            i < self@.num_lines(),
        ensures
            r.spec_bytes() == self@.line_bytes(i as int),
    {
        substr(self.chars.as_str(), self.spans[self.lines[i]].0, self.spans[self.lines[i + 1]].0)
    }

    /// Byte range of closed line `i`.
    pub fn get_line_char_range(&self, i: usize) -> (r: std::ops::Range<usize>)
        requires
            self@.wf(),
            i < self@.num_lines(),
        ensures
            r.start == self@.spans[self@.lines[i as int] as int].0,
            r.end == self@.spans[self@.lines[i + 1] as int].0,
    {
        self.spans[self.lines[i]].0..self.spans[self.lines[i + 1]].0
    }


    /// Appends spans `spans` of `from` to the unclosed line.
    pub fn import_spans(&mut self, from: &StyledText, spans: std::ops::Range<usize>)
        requires
            old(self)@.wf(),
            from@.wf(),
            spans.start <= spans.end <= from@.num_spans(),
            old(self)@.bytes.len() + from@.bytes.len() <= usize::MAX,
            old(self)@.spans.len() + from@.spans.len() <= usize::MAX,
        ensures
            final(self)@ == old(self)@.import_spans(from@, spans.start as int, spans.end as int),
            final(self)@.wf(),
    {
        let ghost old_model = self@;
        let f0 = from.spans[spans.start].0;
        let f1 = from.spans[spans.end].0;
        let base = self.byte_len();
        proof {
            assert(from@.spans[spans.start as int].0 <= from@.spans[spans.end as int].0);
        }
        let piece = substr(from.chars.as_str(), f0, f1);
        self.push_str(piece);
        let ghost mid = self@;
        let mut k = spans.start + 1;
        proof {
            assert(valid_utf8(old_model.bytes));
            assert(self@ =~= (TextModel {
                spans: old_model.import_spans(from@, spans.start as int, spans.start as int).spans,
                ..mid
            }));
        }
        while k <= spans.end
            invariant
                from@.wf(),
                spans.start < k <= spans.end + 1,
                spans.end <= from@.num_spans(),
                f0 == from@.spans[spans.start as int].0,
                f1 == from@.spans[spans.end as int].0,
                base == old_model.bytes.len(),
                old_model.wf(),
                mid == old_model.push_bytes(from@.bytes.subrange(f0 as int, f1 as int)),
                self@.wf(),
                valid_utf8(old_model.bytes),
                self@ == (TextModel {
                    spans: old_model.import_spans(from@, spans.start as int, (k - 1) as int).spans,
                    ..mid
                }),
                old_model.bytes.len() + from@.bytes.len() <= usize::MAX,
                old_model.spans.len() + from@.spans.len() <= usize::MAX,
            decreases spans.end + 1 - k,
        {
            let (x, st) = from.spans[k];
            proof {
                assert(from@.spans[spans.start as int].0 <= from@.spans[k as int].0);
                assert(from@.spans[k as int].0 <= from@.spans[spans.end as int].0);
            }
            let nx = x - f0 + base;
            let ghost prev = self@;
            self.spans.push((nx, st));
            proof {
                let bytes = from@.bytes;
                lemma_boundary_in_piece(bytes, f0 as int, x as int, f1 as int);
                lemma_boundary_prepend(
                    old_model.bytes,
                    bytes.subrange(f0 as int, f1 as int),
                    x - f0,
                );
                assert(self@.bytes == old_model.bytes + bytes.subrange(f0 as int, f1 as int));
                assert forall|i: int, j: int|
                    0 <= i <= j < self@.spans.len() implies #[trigger] self@.spans[i].0
                    <= #[trigger] self@.spans[j].0 by {
                    if j == self@.spans.len() - 1 && i < j {
                        if i >= old_model.spans.len() {
                            let ki = i - old_model.spans.len();
                            assert(from@.spans[spans.start + 1 + ki].0 <= from@.spans[k as int].0);
                        } else {
                            assert(old_model.spans[i].0 <= old_model.bytes.len());
                        }
                    }
                }
                assert(self@ =~= (TextModel {
                    spans: old_model.import_spans(from@, spans.start as int, k as int).spans,
                    ..mid
                }));
            }
            k = k + 1;
        }
        proof {
            assert(self@ =~= old_model.import_spans(from@, spans.start as int, spans.end as int));
        }
    }

    /// Extracts the bytes `byte_range` (counted from the start of span `spans.start`) of
    /// spans `spans` of `from`, keeping each span's style, and appends them to the unclosed
    /// line as closed spans; returns the range of the new spans.
    pub fn import_substring(
        &mut self,
        from: &StyledText,
        spans: std::ops::Range<usize>,
        byte_range: std::ops::Range<usize>,
    ) -> (r: std::ops::Range<usize>)
        requires
            old(self)@.wf(),
            from@.wf(),
            spans.start < from@.spans.len(),
            spans.start < spans.end ==> spans.end <= from@.num_spans(),
            from@.spans[spans.start as int].0 + byte_range.end <= usize::MAX,
            from@.spans[spans.start as int].0 + byte_range.start <= usize::MAX,
            from@.spans[spans.start as int].0 + byte_range.start <= from@.bytes.len()
                ==> is_char_boundary(from@.bytes, from@.spans[spans.start as int].0 + byte_range.start),
            from@.spans[spans.start as int].0 + byte_range.end <= from@.bytes.len()
                ==> is_char_boundary(from@.bytes, from@.spans[spans.start as int].0 + byte_range.end),
            old(self)@.bytes.len() + from@.bytes.len() <= usize::MAX,
            old(self)@.spans.len() + from@.spans.len() <= usize::MAX,
        ensures
            final(self)@ == old(self)@.import_substring_from(
                from@,
                spans.start as int,
                spans.end as int,
                from@.spans[spans.start as int].0 + byte_range.start,
                from@.spans[spans.start as int].0 + byte_range.end,
            ),
            final(self)@.wf(),
            r.start == old(self)@.num_spans(),
            r.end == final(self)@.num_spans(),
    {
        let ghost old_model = self@;
        let res_start = self.num_spans();
        let start = from.spans[spans.start].0;
        let bs = byte_range.start + start;
        let be = byte_range.end + start;
        let ghost total = old_model.import_substring_from(from@, spans.start as int, spans.end as int, bs as int, be as int);
        let mut k = spans.start;
        while k < spans.end
            invariant
                from@.wf(),
                old_model.wf(),
                spans.start <= k,
                spans.start < spans.end ==> k <= spans.end <= from@.num_spans(),
                spans.start >= spans.end ==> k == spans.start,
                bs == from@.spans[spans.start as int].0 + byte_range.start,
                be == from@.spans[spans.start as int].0 + byte_range.end,
                bs <= from@.bytes.len() ==> is_char_boundary(from@.bytes, bs as int),
                be <= from@.bytes.len() ==> is_char_boundary(from@.bytes, be as int),
                self@.wf(),
                self@.import_substring_from(from@, k as int, spans.end as int, bs as int, be as int) == total,
                self@.bytes.len() <= old_model.bytes.len() + from@.spans[k as int].0,
                self@.spans.len() <= old_model.spans.len() + (k - spans.start),
                old_model.bytes.len() + from@.bytes.len() <= usize::MAX,
                old_model.spans.len() + from@.spans.len() <= usize::MAX,
                res_start == old_model.num_spans(),
            decreases spans.end - k,
        {
            let a = from.spans[k].0;
            let b = from.spans[k + 1].0;
            let lo = if a >= bs { a } else { bs };
            let hi = if b <= be { b } else { be };
            proof {
                assert(from@.spans[k as int].0 <= from@.spans[k + 1].0);
            }
            if hi > lo {
                let piece = substr(from.chars.as_str(), lo, hi);
                self.push_str(piece);
                self.close_span(from.spans[k + 1].1);
            }
            k = k + 1;
        }
        let n = self.num_spans();
        res_start..n
    }

    /// Appends lines `lines` of `from`; returns the range of the new lines.
    pub fn import_lines(&mut self, from: &StyledText, lines: std::ops::Range<usize>) -> (r: std::ops::Range<usize>)
        requires
            old(self)@.wf(),
            from@.wf(),
            lines.start <= lines.end <= from@.num_lines(),
            old(self)@.bytes.len() + from@.bytes.len() <= usize::MAX,
            old(self)@.spans.len() + from@.spans.len() <= usize::MAX,
            old(self)@.lines.len() + from@.lines.len() <= usize::MAX,
        ensures
            final(self)@ == old(self)@.import_lines(from@, lines.start as int, lines.end as int),
            final(self)@.wf(),
            r.start == old(self)@.num_lines(),
            r.end == old(self)@.num_lines() + (lines.end - lines.start),
    {
        let ghost old_model = self@;
        let base = self.num_spans();
        let l0 = from.lines[lines.start];
        let l1 = from.lines[lines.end];
        proof {
            assert(from@.lines[lines.start as int] <= from@.lines[lines.end as int]);
        }
        self.import_spans(from, l0..l1);
        let ghost mid = self@;
        let mut k = lines.start + 1;
        while k <= lines.end
            invariant
                from@.wf(),
                lines.start < k <= lines.end + 1,
                lines.end <= from@.num_lines(),
                l0 == from@.lines[lines.start as int],
                l1 == from@.lines[lines.end as int],
                base == old_model.num_spans(),
                old_model.wf(),
                mid.wf(),
                mid == old_model.import_spans(from@, l0 as int, l1 as int),
                self@.spans == mid.spans,
                self@.bytes == mid.bytes,
                self@.lines == old_model.lines + Seq::new(
                    (k - 1 - lines.start) as nat,
                    |j: int| (from@.lines[lines.start + 1 + j] - from@.lines[lines.start as int] + old_model.num_spans()) as usize,
                ),
                self@.wf(),
                old_model.lines.len() + from@.lines.len() <= usize::MAX,
            decreases lines.end + 1 - k,
        {
            proof {
                assert(from@.lines[lines.start as int] <= from@.lines[k as int]);
                assert(from@.lines[k as int] <= from@.lines[lines.end as int]);
            }
            let ghost prev = self@;
            self.lines.push(from.lines[k] - l0 + base);
            proof {
                assert(self@.lines =~= old_model.lines + Seq::new(
                    (k - lines.start) as nat,
                    |j: int| (from@.lines[lines.start + 1 + j] - from@.lines[lines.start as int] + old_model.num_spans()) as usize,
                ));
                assert forall|i: int, j: int|
                    0 <= i <= j < self@.lines.len() implies #[trigger] self@.lines[i]
                    <= #[trigger] self@.lines[j] by {
                    if j == self@.lines.len() - 1 && i < j {
                        if i >= old_model.lines.len() {
                            let ki = i - old_model.lines.len();
                            assert(from@.lines[lines.start + 1 + ki] <= from@.lines[k as int]);
                        } else {
                            assert(old_model.lines[i] < old_model.spans.len());
                        }
                    }
                }
            }
            k = k + 1;
        }
        proof {
            assert(self@ =~= old_model.import_lines(from@, lines.start as int, lines.end as int));
        }
        let n = self.lines.len() - 1;
        (n - (lines.end - lines.start))..n
    }


    /// Position of the first `'\n'` in bytes `i .. e` of the text.
    fn find_newline_in(&self, i: usize, e: usize) -> (r: Option<usize>)
        requires
            i <= e <= self@.bytes.len(),
        ensures
            match r {
                Some(n) => n == find_newline(self@.bytes, i as int, e as int) && n >= 0,
                None => find_newline(self@.bytes, i as int, e as int) == -1,
            },
    {
        let bytes = self.chars.as_str().as_bytes();
        let mut p = i;
        while p < e
            invariant
                i <= p <= e <= self@.bytes.len(),
                bytes@ == self@.bytes,
                find_newline(self@.bytes, i as int, e as int) == find_newline(self@.bytes, p as int, e as int),
            decreases e - p,
        {
            if bytes[p] == 10u8 {
                return Some(p);
            }
            p = p + 1;
        }
        None
    }

    /// Splits closed line `line` at its `'\n'` characters into new lines appended at the end;
    /// each `'\n'` becomes a space at the end of its output line. Records the byte range of
    /// each output line (relative to the start of the source line) in `out_lines` if given.
    /// Returns the range of new lines.
    pub fn split_by_newline_character(
        &mut self,
        line: usize,
        out_lines: Option<&mut Vec<std::ops::Range<usize>>>,
    ) -> (r: std::ops::Range<usize>)
        requires
            old(self)@.wf(),
            line < old(self)@.num_lines(),
            2 * old(self)@.bytes.len() <= usize::MAX,
            2 * old(self)@.spans.len() + 2 * old(self)@.bytes.len() + 2 <= usize::MAX,
            old(self)@.lines.len() + old(self)@.bytes.len() + 2 <= usize::MAX,
        ensures
            final(self)@ == split_by_newline_spec(old(self)@, line as int).0,
            final(self)@.wf(),
            match out_lines {
                Some(v) => final(v)@ == v@ + split_by_newline_spec(old(self)@, line as int).1,
                None => true,
            },
            r.start == old(self)@.num_lines(),
            r.end == final(self)@.num_lines(),
    {
        match out_lines {
            Some(v) => self.split_lines_into(line, v),
            None => {
                let mut tmp: Vec<std::ops::Range<usize>> = Vec::new();
                self.split_lines_into(line, &mut tmp)
            },
        }
    }


    /// Appends bytes `i .. e` of the text itself (followed by a space if `add_space`) to the
    /// unclosed span and closes it with `style`.
    fn copy_range_close(&mut self, i: usize, e: usize, add_space: bool, style: Style)
        requires
            old(self)@.wf(),
            i <= e <= old(self)@.bytes.len(),
            is_char_boundary(old(self)@.bytes, i as int),
            is_char_boundary(old(self)@.bytes, e as int),
            old(self)@.bytes.len() + (e - i) + 1 <= usize::MAX,
            old(self)@.spans.len() < usize::MAX,
        ensures
            final(self)@ == old(self)@.push_bytes(
                old(self)@.bytes.subrange(i as int, e as int) + (if add_space { seq![32u8] } else { Seq::<u8>::empty() }),
            ).close_span(style),
            final(self)@.wf(),
    {
        let ghost m = self@;
        let piece = substr(self.chars.as_str(), i, e).to_owned();
        self.push_str(piece.as_str());
        if add_space {
            proof {
                reveal_strlit(" ");
                assert(" "@ =~= seq![' ']);
                lemma_space_bytes();
                assert(" ".spec_bytes() == seq![32u8]);
            }
            self.push_str(" ");
        }
        self.close_span(style);
        proof {
            assert(utf8(piece@) == m.bytes.subrange(i as int, e as int));
            if add_space {
                assert(m.push_bytes(m.bytes.subrange(i as int, e as int)).push_bytes(seq![32u8]) =~= m.push_bytes(
                    m.bytes.subrange(i as int, e as int) + seq![32u8]));
            } else {
                assert(m.bytes.subrange(i as int, e as int) + Seq::<u8>::empty() =~= m.bytes.subrange(i as int, e as int));
            }
        }
    }

    fn split_lines_into(&mut self, line: usize, out: &mut Vec<std::ops::Range<usize>>) -> (r: std::ops::Range<usize>)
        requires
            old(self)@.wf(),
            line < old(self)@.num_lines(),
            2 * old(self)@.bytes.len() <= usize::MAX,
            2 * old(self)@.spans.len() + 2 * old(self)@.bytes.len() + 2 <= usize::MAX,
            old(self)@.lines.len() + old(self)@.bytes.len() + 2 <= usize::MAX,
        ensures
            final(self)@ == split_by_newline_spec(old(self)@, line as int).0,
            final(self)@.wf(),
            final(out)@ == old(out)@ + split_by_newline_spec(old(self)@, line as int).1,
            r.start == old(self)@.num_lines(),
            r.end == final(self)@.num_lines(),
    {
        let ghost m0 = self@;
        let ghost src = self@.bytes;
        let ghost out0 = out@;
        let res_lines_start = self.num_lines();
        let k0 = self.lines[line];
        let k1 = self.lines[line + 1];
        let src_chars_start = self.spans[k0].0;
        let line_end = self.spans[k1].0;
        proof {
            assert(m0.lines[line as int] <= m0.lines[line + 1]);
            assert(m0.spans[k0 as int].0 <= m0.spans[k1 as int].0);
            assert(out@.subrange(out0.len() as int, out@.len() as int) =~= Seq::<std::ops::Range<usize>>::empty());
            assert(out@.subrange(0, out0.len() as int) =~= out0);
            assert(src + Seq::<u8>::empty() =~= src);
        }
        let ghost base = src_chars_start as int;
        let ghost total = split_spans_from((m0, 0, seq![]), src, m0.spans, k0 as int, k1 as int, base);
        let mut line_start_byte: usize = 0;
        let ghost mut extra: Seq<u8> = Seq::empty();
        let mut k = k0;
        while k < k1
            invariant
                m0.wf(),
                src == m0.bytes,
                k0 <= k <= k1,
                k0 == m0.lines[line as int],
                k1 == m0.lines[line + 1],
                k1 < m0.spans.len(),
                src_chars_start == m0.spans[k0 as int].0,
                base == src_chars_start,
                line_end == m0.spans[k1 as int].0,
                src_chars_start <= line_end,
                valid_utf8(src),
                self@.wf(),
                self@.spans.len() >= m0.spans.len(),
                forall|q: int| 0 <= q < m0.spans.len() ==> self@.spans[q] == m0.spans[q],
                self@.bytes == src + extra,
                valid_utf8(extra),
                extra.len() == m0.spans[k as int].0 - base,
                0 <= line_start_byte <= m0.spans[k as int].0 - base,
                self@.spans.len() <= m0.spans.len() + (k - k0) + 2 * extra.len(),
                self@.lines.len() <= m0.lines.len() + extra.len(),
                out@.len() >= out0.len(),
                out@.subrange(0, out0.len() as int) == out0,
                2 * m0.bytes.len() <= usize::MAX,
                2 * m0.spans.len() + 2 * m0.bytes.len() + 2 <= usize::MAX,
                m0.lines.len() + m0.bytes.len() + 2 <= usize::MAX,
                split_spans_from(
                    (self@, line_start_byte as int, out@.subrange(out0.len() as int, out@.len() as int)),
                    src,
                    m0.spans,
                    k as int,
                    k1 as int,
                    base,
                ) == total,
            decreases k1 - k,
        {
            proof {
                assert(m0.spans[k as int].0 <= m0.spans[k + 1].0);
                assert(m0.spans[k + 1].0 <= m0.spans[k1 as int].0);
                assert(self@.spans[k as int] == m0.spans[k as int]);
                assert(self@.spans[k + 1] == m0.spans[k + 1]);
            }
            let mut i = self.spans[k].0;
            let (span_end, style) = self.spans[k + 1];
            let ghost span_total = split_span_rest(
                (self@, line_start_byte as int, out@.subrange(out0.len() as int, out@.len() as int)),
                src,
                i as int,
                span_end as int,
                style,
                base,
            );
            loop
                invariant_except_break
                    m0.wf(),
                    src == m0.bytes,
                    k0 <= k < k1,
                    k1 < m0.spans.len(),
                    base == src_chars_start,
                    src_chars_start == m0.spans[k0 as int].0,
                    m0.spans[k as int].0 <= i <= span_end,
                    span_end == m0.spans[k + 1].0,
                    span_end <= line_end,
                    line_end == m0.spans[k1 as int].0,
                    line_end <= src.len(),
                    valid_utf8(src),
                    is_char_boundary(src, i as int),
                    is_char_boundary(src, span_end as int),
                    self@.wf(),
                    self@.spans.len() >= m0.spans.len(),
                    forall|q: int| 0 <= q < m0.spans.len() ==> self@.spans[q] == m0.spans[q],
                    self@.bytes == src + extra,
                    valid_utf8(extra),
                    extra.len() == i - base,
                    0 <= line_start_byte <= i - base,
                    self@.spans.len() <= m0.spans.len() + (k - k0) + 2 * extra.len(),
                    self@.lines.len() <= m0.lines.len() + extra.len(),
                    out@.len() >= out0.len(),
                    out@.subrange(0, out0.len() as int) == out0,
                    2 * m0.bytes.len() <= usize::MAX,
                    2 * m0.spans.len() + 2 * m0.bytes.len() + 2 <= usize::MAX,
                    m0.lines.len() + m0.bytes.len() + 2 <= usize::MAX,
                    split_span_rest(
                        (self@, line_start_byte as int, out@.subrange(out0.len() as int, out@.len() as int)),
                        src,
                        i as int,
                        span_end as int,
                        style,
                        base,
                    ) == span_total,
                ensures
                    self@.wf(),
                    self@.spans.len() >= m0.spans.len(),
                    forall|q: int| 0 <= q < m0.spans.len() ==> self@.spans[q] == m0.spans[q],
                    self@.bytes == src + extra,
                    valid_utf8(extra),
                    extra.len() == span_end - base,
                    0 <= line_start_byte <= span_end - base,
                    self@.spans.len() <= m0.spans.len() + (k + 1 - k0) + 2 * extra.len(),
                    self@.lines.len() <= m0.lines.len() + extra.len(),
                    out@.len() >= out0.len(),
                    out@.subrange(0, out0.len() as int) == out0,
                    (self@, line_start_byte as int, out@.subrange(out0.len() as int, out@.len() as int)) == span_total,
                decreases span_end - i,
            {
                proof {
                    lemma_find_newline(src, i as int, span_end as int);
                }
                let found = self.find_newline_in(i, span_end);
                proof {
                    lemma_find_newline_same(self@.bytes, src, i as int, span_end as int);
                    lemma_boundary_in_piece(src, i as int, i as int, span_end as int);
                }
                let ghost before = self@;
                let ghost outs_before = out@.subrange(out0.len() as int, out@.len() as int);
                let ghost lsb0 = line_start_byte;
                let ghost i0 = i as int;
                proof {
                    assert(forall|q: int| 0 <= q < src.len() ==> self@.bytes[q] == src[q]);
                }
                match found {
                    None => {
                        proof {
                            lemma_boundary_append(src, extra, i as int);
                            lemma_boundary_append(src, extra, span_end as int);
                            assert(self@.bytes.subrange(i as int, span_end as int) =~= src.subrange(i as int, span_end as int));
                        }
                        self.copy_range_close(i, span_end, false, style);
                        proof {
                            valid_utf8_concat(extra, src.subrange(i as int, span_end as int));
                            extra = extra + src.subrange(i as int, span_end as int);
                            assert(self@.bytes =~= src + extra);
                            assert(src.subrange(i as int, span_end as int) + Seq::<u8>::empty() =~= src.subrange(i as int, span_end as int));
                            assert(out@.subrange(out0.len() as int, out@.len() as int) == outs_before);
                        }
                        break;
                    },
                    Some(n) => {
                        proof {
                            lemma_ascii_boundaries(src, n as int);
                            lemma_boundary_append(src, extra, i as int);
                            lemma_boundary_append(src, extra, n as int);
                            assert(self@.bytes.subrange(i as int, n as int) =~= src.subrange(i as int, n as int));
                        }
                        self.copy_range_close(i, n, true, style);
                        i = n + 1;
                        self.close_line();
                        out.push(line_start_byte..(i - src_chars_start));
                        line_start_byte = i - src_chars_start;
                        proof {
                            let piece_bytes = src.subrange(i0, n as int).push(32u8);
                            assert(src.subrange(i0, n as int) + seq![32u8] =~= piece_bytes);
                            lemma_boundary_in_piece(src, i0, i0, n as int);
                            lemma_space_bytes();
                            valid_utf8_concat(src.subrange(i0, n as int), seq![32u8]);
                            valid_utf8_concat(extra, piece_bytes);
                            extra = extra + piece_bytes;
                            assert(self@.bytes =~= src + extra);
                            assert(out@.subrange(out0.len() as int, out@.len() as int) =~= outs_before.push(
                                (lsb0 as usize)..((n + 1 - base) as usize)));
                            assert(out@.subrange(0, out0.len() as int) =~= out0);
                        }
                    },
                }
            }
            k = k + 1;
        }
        self.close_line();
        let ghost outs_before = out@.subrange(out0.len() as int, out@.len() as int);
        out.push(line_start_byte..(line_end - src_chars_start));
        proof {
            assert(out@ =~= out0 + outs_before.push((line_start_byte as usize)..((line_end - src_chars_start) as usize))) by {
                assert(out@.subrange(0, out0.len() as int) == out0);
            }
        }
        res_lines_start..self.num_lines()
    }


    /// Applies the adjustments from `j` on to the piece starting at `rs` (see `adj_piece`).
    fn piece_end_and_style(
        adjustments: &[(std::ops::Range<usize>, StyleAdjustment)],
        j0: usize,
        rs: usize,
        end0: usize,
        style0: Style,
    ) -> (r: (usize, Style))
        requires
            rs < end0,
        ensures
            (r.0 as int, r.1) == adj_piece(adjustments@, j0 as int, rs as int, end0 as int, style0),
    {
        let mut j = j0;
        let mut end = end0;
        let mut style = style0;
        while j < adjustments.len()
            invariant
                adj_piece(adjustments@, j as int, rs as int, end as int, style) == adj_piece(
                    adjustments@,
                    j0 as int,
                    rs as int,
                    end0 as int,
                    style0,
                ),
            decreases adjustments.len() - j,
        {
            let a = &adjustments[j];
            proof {
                assert(adjustments@[j as int] == *a);
            }
            if a.0.start > rs {
                if a.0.start < end {
                    end = a.0.start;
                }
                return (end, style);
            }
            if a.0.end > rs {
                if a.0.end < end {
                    end = a.0.end;
                }
                style = a.1.apply(style);
            }
            j = j + 1;
        }
        (end, style)
    }

    /// Appends closed line `line_idx` of `from` as a new closed line, with the styles of the
    /// byte ranges in `adjustments` (relative to the start of the line, sorted by start, not
    /// necessarily aligned with spans or characters) changed by their adjustments; a range
    /// boundary inside a character is moved to the end of that character. Returns the index
    /// of the new line.
    pub fn import_line_with_adjustments(
        &mut self,
        from: &StyledText,
        line_idx: usize,
        adjustments: &[(std::ops::Range<usize>, StyleAdjustment)],
    ) -> (r: usize)
        requires
            old(self)@.wf(),
            from@.wf(),
            line_idx < from@.num_lines(),
            old(self)@.bytes.len() + from@.bytes.len() <= usize::MAX,
            old(self)@.spans.len() + from@.bytes.len() < usize::MAX,
            old(self)@.lines.len() < usize::MAX,
        ensures
            final(self)@ == import_line_adj_spec(old(self)@, from@, line_idx as int, adjustments@),
            final(self)@.wf(),
            r == old(self)@.num_lines(),
    {
        let ghost m0 = self@;
        let spans = from.get_line(line_idx);
        let to_chars_start = self.byte_len();
        proof {
            assert(from@.lines[line_idx as int] <= from@.lines[line_idx + 1]);
            assert(from@.spans[from@.lines[line_idx as int] as int].0 <= from@.spans[from@.lines[line_idx + 1] as int].0);
        }
        let line_str = from.get_line_str(line_idx);
        self.push_str(line_str);
        let ghost mid = self@;
        proof {
            assert(valid_utf8(m0.bytes));
        }
        let from_chars_start = from.spans[spans.start].0;
        let ghost fce = from@.spans[spans.end as int].0 as int;
        let ghost total = adj_spans_from(mid, from@, adjustments@, spans.start as int, spans.end as int, 0, from_chars_start as int, to_chars_start as int);
        let mut i: usize = 0;
        let mut k = spans.start;
        while k < spans.end
            invariant
                from@.wf(),
                m0.wf(),
                spans.start <= k <= spans.end,
                line_idx + 1 < from@.lines.len(),
                spans.start == from@.lines[line_idx as int],
                spans.end == from@.lines[line_idx + 1],
                valid_utf8(m0.bytes),
                spans.end < from@.spans.len(),
                from_chars_start == from@.spans[spans.start as int].0,
                fce == from@.spans[spans.end as int].0,
                from_chars_start <= fce <= from@.bytes.len(),
                to_chars_start == m0.bytes.len(),
                mid == m0.push_bytes(from@.bytes.subrange(from_chars_start as int, fce)),
                self@.wf(),
                self@.bytes == mid.bytes,
                self@.lines == mid.lines,
                self@.spans.last().0 <= to_chars_start + (from@.spans[k as int].0 - from_chars_start),
                self@.spans.len() <= m0.spans.len() + (from@.spans[k as int].0 - from_chars_start),
                m0.bytes.len() + from@.bytes.len() <= usize::MAX,
                m0.spans.len() + from@.bytes.len() < usize::MAX,
                adj_spans_from(self@, from@, adjustments@, k as int, spans.end as int, i as int, from_chars_start as int, to_chars_start as int) == total,
            decreases spans.end - k,
        {
            let span_style = from.spans[k + 1].1;
            proof {
                assert(from@.spans[spans.start as int].0 <= from@.spans[k as int].0);
                assert(from@.spans[k as int].0 <= from@.spans[k + 1].0);
                assert(from@.spans[k + 1].0 <= from@.spans[spans.end as int].0);
            }
            let re = from.spans[k + 1].0 - from_chars_start;
            let mut rs = from.spans[k].0 - from_chars_start;
            proof {
                let src = from@.bytes;
                lemma_boundary_in_piece(src, from_chars_start as int, from@.spans[k + 1].0 as int, fce);
                lemma_boundary_prepend(m0.bytes, src.subrange(from_chars_start as int, fce), re as int);
            }
            let ghost span_total = adj_span_from(self@, adjustments@, i as int, rs as int, re as int, span_style, to_chars_start as int);
            while rs < re
                invariant
                    from@.wf(),
                    m0.wf(),
                    self@.wf(),
                    self@.bytes == mid.bytes,
                    self@.lines == mid.lines,
                    rs <= re,
                    k < spans.end,
                    spans.end < from@.spans.len(),
                    to_chars_start == m0.bytes.len(),
                    to_chars_start + re <= self@.bytes.len(),
                    is_char_boundary(self@.bytes, to_chars_start + re),
                    self@.spans.last().0 <= to_chars_start + rs,
                    self@.spans.len() <= m0.spans.len() + (from@.spans[k as int].0 - from_chars_start) + (rs - (from@.spans[k as int].0 - from_chars_start)),
                    from@.spans[k as int].0 - from_chars_start <= rs,
                    re == from@.spans[k + 1].0 - from_chars_start,
                    m0.bytes.len() + from@.bytes.len() <= usize::MAX,
                    m0.spans.len() + from@.bytes.len() < usize::MAX,
                    from@.spans[k + 1].0 <= from@.bytes.len(),
                    from_chars_start <= from@.spans[k as int].0,
                    adj_span_from(self@, adjustments@, i as int, rs as int, re as int, span_style, to_chars_start as int) == span_total,
                decreases re - rs,
            {
                let ghost i_before = i as int;
                proof {
                    lemma_adj_skip(adjustments@, i as int, rs as int);
                }
                while i < adjustments.len() && adjustments[i].0.end <= rs
                    invariant
                        adj_skip(adjustments@, i_before, rs as int) == adj_skip(adjustments@, i as int, rs as int),
                    decreases adjustments.len() - i,
                {
                    i = i + 1;
                }
                let (end0, style) = Self::piece_end_and_style(adjustments, i, rs, re, span_style);
                proof {
                    lemma_adj_piece(adjustments@, i as int, rs as int, re as int, span_style);
                    lemma_next_boundary(self@.bytes, to_chars_start + end0, to_chars_start + re);
                }
                let mut end = end0;
                while !self.chars.as_str().is_char_boundary(to_chars_start + end)
                    invariant
                        rs < end0 <= end <= re,
                        to_chars_start + re <= self@.bytes.len(),
                        is_char_boundary(self@.bytes, to_chars_start + re),
                        next_boundary(self@.bytes, to_chars_start + end0) == next_boundary(self@.bytes, to_chars_start + end),
                        m0.bytes.len() + from@.bytes.len() <= usize::MAX,
                        to_chars_start == m0.bytes.len(),
                        self@.wf(),
                    decreases re - end,
                {
                    end = end + 1;
                }
                proof {
                    lemma_next_boundary(self@.bytes, to_chars_start + end, to_chars_start + re);
                }
                let ghost before = self@;
                self.spans.push((to_chars_start + end, style));
                rs = end;
                proof {
                    assert forall|a: int, b: int|
                        0 <= a <= b < self@.spans.len() implies #[trigger] self@.spans[a].0
                        <= #[trigger] self@.spans[b].0 by {
                        if b == self@.spans.len() - 1 && a < b {
                            assert(before.spans[a].0 <= before.spans.last().0);
                        }
                    }
                    assert(self@ =~= (TextModel { spans: before.spans.push(((to_chars_start + end) as usize, style)), ..before }));
                }
            }
            k = k + 1;
        }
        self.close_line()
    }


    /// Copies source bytes `pos .. we` (of the text `src` that this text extends) to the end
    /// of the text, one span per (part of a) source span, starting at source span `k`.
    fn copy_segment(&mut self, pos: usize, we: usize, k: usize, kmax: usize, Ghost(src): Ghost<TextModel>) -> (r: (usize, usize))
        requires
            old(self)@.wf(),
            src.wf(),
            extends(old(self)@, src),
            k < kmax < src.spans.len(),
            src.spans[k as int].0 <= pos <= we <= src.spans[kmax as int].0,
            is_char_boundary(src.bytes, pos as int),
            is_char_boundary(src.bytes, we as int),
            old(self)@.bytes.len() + (we - pos) <= usize::MAX,
            old(self)@.spans.len() + (we - pos) <= usize::MAX,
        ensures
            (final(self)@, r.0 as int, r.1 as int) == copy_spans(old(self)@, src, pos as int, we as int, k as int),
            final(self)@.wf(),
            extends(final(self)@, src),
            r.0 == we,
            k <= r.1 <= kmax,
            src.spans[r.1 as int].0 <= we,
            final(self)@.bytes.len() == old(self)@.bytes.len() + (we - pos),
            final(self)@.spans.len() <= old(self)@.spans.len() + (we - pos),
            final(self)@.lines == old(self)@.lines,
    {
        let ghost m0 = self@;
        let ghost total = copy_spans(m0, src, pos as int, we as int, k as int);
        let mut pos = pos;
        let mut k = k;
        let ghost pos0 = pos as int;
        let ghost k0 = k as int;
        while pos < we
            invariant
                src.wf(),
                self@.wf(),
                extends(self@, src),
                k0 <= k <= kmax < src.spans.len(),
                pos0 <= pos <= we <= src.spans[kmax as int].0,
                src.spans[k as int].0 <= pos,
                is_char_boundary(src.bytes, pos as int),
                is_char_boundary(src.bytes, we as int),
                self@.bytes.len() == m0.bytes.len() + (pos - pos0),
                self@.spans.len() <= m0.spans.len() + (pos - pos0),
                self@.lines == m0.lines,
                m0.bytes.len() + (we - pos0) <= usize::MAX,
                m0.spans.len() + (we - pos0) <= usize::MAX,
                copy_spans(self@, src, pos as int, we as int, k as int) == total,
            decreases we - pos, kmax - k,
        {
            proof {
                if k == kmax {
                    assert(src.spans[kmax as int].0 <= pos);
                    assert(false);
                }
                assert(src.spans[k + 1].0 <= src.spans[kmax as int].0);
                assert(self@.spans[k + 1] == src.spans[k + 1]);
            }
            let (e, st) = self.spans[k + 1];
            let k2 = if e <= we { k + 1 } else { k };
            if e > pos {
                let np = if e < we { e } else { we };
                proof {
                    assert(valid_utf8(self@.bytes));
                    lemma_extends_boundary(self@.bytes, src.bytes, pos as int);
                    lemma_extends_boundary(self@.bytes, src.bytes, np as int);
                    assert(self@.bytes.subrange(pos as int, np as int) =~= src.bytes.subrange(pos as int, np as int)) by {
                        assert forall|q: int| pos <= q < np implies self@.bytes[q] == src.bytes[q] by {
                            assert(self@.bytes.subrange(0, src.bytes.len() as int)[q] == self@.bytes[q]);
                        }
                    }
                }
                let ghost before = self@;
                let piece = substr(self.chars.as_str(), pos, np).to_owned();
                self.push_str(piece.as_str());
                let len = self.byte_len();
                self.spans.push((len, st));
                proof {
                    let b2 = self@.bytes;
                    is_char_boundary_start_end_of_seq(b2);
                    lemma_boundary_append(before.bytes, src.bytes.subrange(pos as int, np as int), src.bytes.len() as int);
                    assert(b2.subrange(0, src.bytes.len() as int) =~= src.bytes) by {
                        assert(b2.subrange(0, before.bytes.len() as int) == before.bytes);
                        assert forall|q: int| 0 <= q < src.bytes.len() implies b2[q] == src.bytes[q] by {
                            assert(before.bytes.subrange(0, src.bytes.len() as int)[q] == before.bytes[q]);
                        }
                    }
                    assert forall|a: int, b: int|
                        0 <= a <= b < self@.spans.len() implies #[trigger] self@.spans[a].0
                        <= #[trigger] self@.spans[b].0 by {
                        if b == self@.spans.len() - 1 && a < b {
                            assert(self@.spans[a].0 <= b2.len());
                        }
                    }
                    assert(utf8(piece@) == src.bytes.subrange(pos as int, np as int));
                    let m1 = before.push_bytes(src.bytes.subrange(pos as int, np as int));
                    assert(self@ =~= (TextModel { spans: m1.spans.push((m1.bytes.len() as usize, st)), ..m1 }));
                }
                pos = np;
            } else {
                proof {
                    assert(e <= we);
                }
            }
            k = k2;
            proof {
                assert(src.spans[k as int].0 <= pos);
            }
        }
        (pos, k)
    }


    /// Appends `text` to the unclosed span and closes it with `style`.
    fn push_span(&mut self, text: &String, style: Style, Ghost(src): Ghost<TextModel>)
        requires
            old(self)@.wf(),
            old(self)@.bytes.len() + utf8(text@).len() <= usize::MAX,
            old(self)@.spans.len() < usize::MAX,
            extends(old(self)@, src),
        ensures
            final(self)@ == old(self)@.push_bytes(utf8(text@)).close_span(style),
            final(self)@.wf(),
            extends(final(self)@, src),
    {
        let ghost m = self@;
        self.push_str(text.as_str());
        self.close_span(style);
        proof {
            lemma_extends_push(m, src, utf8(text@));
        }
    }

    /// Where the next output line of source line `li` ends and its width (see `wrap_cut`).
    fn cut_length(&self, c: &WrapCtx, li: usize, pos: usize, line_end: usize, rem: usize, avail: usize, last: bool, Ghost(p): Ghost<WrapParams>) -> (r: (usize, usize))
        requires
            self@.wf(),
            ctx_matches(*c, p),
            extends(self@, p.src),
            c.lines_start <= li < c.lines_end,
            line_end == src_line_end(p, li as int),
            pos < line_end,
            is_char_boundary(p.src.bytes, pos as int),
        ensures
            (r.0 as int, r.1 as int) == wrap_cut(p, li as int, pos as int, rem as int, avail as int, last),
            1 <= r.0,
            pos + r.0 <= line_end,
            is_char_boundary(p.src.bytes, pos + r.0),
    {
        let ghost src = p.src;
        proof {
            assert(src.lines[li as int] <= src.lines[li + 1]);
            is_char_boundary_start_end_of_seq(src.bytes);
            assert(line_end <= src.bytes.len());
            assert(is_char_boundary(src.bytes, line_end as int));
        }
        if rem <= avail && !(last && li + 1 < c.lines_end) {
            return (line_end - pos, rem);
        }
        let ind_w = if last { c.trunc_end_width } else { c.wrap_end_width };
        proof {
            assert(valid_utf8(self@.bytes));
            lemma_extends_boundary(self@.bytes, src.bytes, pos as int);
            lemma_extends_boundary(self@.bytes, src.bytes, line_end as int);
            assert(self@.bytes.subrange(pos as int, line_end as int) =~= src.bytes.subrange(pos as int, line_end as int)) by {
                assert forall|q: int| pos <= q < line_end implies self@.bytes[q] == src.bytes[q] by {
                    assert(self@.bytes.subrange(0, src.bytes.len() as int)[q] == self@.bytes[q]);
                }
            }
        }
        let sub = substr(self.chars.as_str(), pos, line_end);
        let (a, b, cc, d) = str_prefix_with_width(sub, avail.saturating_sub(ind_w));
        let r = if a == 0 { (cc, d) } else { (a, b) };
        proof {
            let sv = sub@;
            lemma_first_over_bound(sv, avail.saturating_sub(ind_w) as int, 0);
            let kk = first_over(sv, avail.saturating_sub(ind_w) as int, 0);
            let st = grapheme_starts(sv);
            assert(sub.spec_bytes() == src.bytes.subrange(pos as int, line_end as int));
            assert(sub.spec_bytes().len() > 0);
            is_char_boundary_start_end_of_seq(sub.spec_bytes());
            if kk < gcount(sv) {
                if kk > 0 {
                    assert(st[0] < st[kk]);
                }
                if kk + 1 < gcount(sv) {
                    assert(st[kk] < st[kk + 1]);
                }
            }
            assert(is_char_boundary(src.bytes.subrange(pos as int, line_end as int), r.0 as int));
            lemma_boundary_from_piece(src.bytes, pos as int, line_end as int, r.0 as int);
        }
        r
    }

    /// One output line of source line `li` (see `wrap_step`).
    #[verifier::rlimit(40)]
    fn wrap_segment(
        &mut self,
        c: &WrapCtx,
        li: usize,
        pos: usize,
        k: usize,
        rem: usize,
        out: &mut Vec<WrapOut>,
        Ghost(p): Ghost<WrapParams>,
    ) -> (r: (usize, usize, usize, bool, bool))
        requires
            old(self)@.wf(),
            ctx_matches(*c, p),
            extends(old(self)@, p.src),
            c.lines_start <= li < c.lines_end,
            src_line_start(p, li as int) <= pos < src_line_end(p, li as int),
            p.src.lines[li as int] <= k <= p.src.lines[li + 1],
            p.src.spans[k as int].0 <= pos,
            is_char_boundary(p.src.bytes, pos as int),
            c.start <= old(self)@.num_lines(),
            old(self)@.bytes.len() + (src_line_end(p, li as int) - pos) + indicators_len(p) <= usize::MAX,
            old(self)@.spans.len() + (src_line_end(p, li as int) - pos) + 2 <= usize::MAX,
            old(self)@.lines.len() + 1 < usize::MAX,
        ensures
            wrap_step(old(self)@, old(out)@, p, li as int, pos as int, k as int, rem as int)
                == (final(self)@, final(out)@, r.0 as int, r.1 as int, r.2 as int, r.3, r.4),
            final(self)@.wf(),
            extends(final(self)@, p.src),
            pos < r.0 <= src_line_end(p, li as int),
            is_char_boundary(p.src.bytes, r.0 as int),
            k <= r.1 <= p.src.lines[li + 1],
            p.src.spans[r.1 as int].0 <= r.0,
            final(self)@.bytes.len() <= old(self)@.bytes.len() + (r.0 - pos) + indicators_len(p),
            final(self)@.spans.len() <= old(self)@.spans.len() + (r.0 - pos) + 2,
            final(self)@.lines.len() == old(self)@.lines.len() + 1,
    {
        let ghost m0 = self@;
        let ghost src = p.src;
        proof {
            assert(src.lines[li as int] <= src.lines[li + 1]);
            assert(src.lines[li + 1] < src.spans.len());
        }
        let kmax = self.lines[li + 1];
        let line_start = self.spans[self.lines[li]].0;
        let line_end = self.spans[kmax].0;
        proof {
            assert(self@.lines[li + 1] == src.lines[li + 1]);
            assert(self@.lines[li as int] == src.lines[li as int]);
            assert(self@.spans[src.lines[li as int] as int] == src.spans[src.lines[li as int] as int]);
            assert(self@.spans[kmax as int] == src.spans[kmax as int]);
            assert(line_end <= src.bytes.len());
        }
        let out_line_start_pos = pos;
        let x: usize = if pos == line_start {
            0
        } else {
            self.push_span(&c.wrap_indicator.0, c.wrap_indicator.2, Ghost(src));
            c.wrap_start_width
        };
        let ghost m1 = self@;
        let avail = c.width.saturating_sub(x);
        let last = self.num_lines() - c.start + 1 >= c.max_lines;
        proof {
            assert(self@.num_lines() == m0.num_lines());
        }
        let (n, w) = self.cut_length(c, li, pos, line_end, rem, avail, last, Ghost(p));
        proof {
            assert(src.spans[src.lines[li as int] as int].0 <= src.spans[k as int].0);
        }
        let (pos2, k2) = self.copy_segment(pos, pos + n, k, kmax, Ghost(src));
        let rem2 = rem.saturating_sub(w);
        out.push((x as isize, li - c.lines_start, (out_line_start_pos - line_start)..(pos2 - line_start)));
        if pos2 < line_end || (last && li + 1 < c.lines_end) {
            if last {
                self.push_span(&c.trunc_indicator.1, c.trunc_indicator.2, Ghost(src));
                self.close_line();
                return (pos2, k2, rem2, true, false);
            } else {
                self.push_span(&c.wrap_indicator.1, c.wrap_indicator.2, Ghost(src));
            }
        }
        self.close_line();
        (pos2, k2, rem2, false, true)
    }


    /// All output lines of source line `li` (see `wrap_line`); returns whether the line limit
    /// ended the wrapping.
    fn wrap_one_line(&mut self, c: &WrapCtx, li: usize, out: &mut Vec<WrapOut>, Ghost(p): Ghost<WrapParams>) -> (stop: bool)
        requires
            old(self)@.wf(),
            ctx_matches(*c, p),
            extends(old(self)@, p.src),
            c.lines_start <= li < c.lines_end,
            c.start <= old(self)@.num_lines(),
            old(self)@.bytes.len() + (src_line_end(p, li as int) - src_line_start(p, li as int))
                + (src_line_end(p, li as int) - src_line_start(p, li as int) + 1) * indicators_len(p) <= usize::MAX,
            old(self)@.spans.len() + 3 * (src_line_end(p, li as int) - src_line_start(p, li as int)) + 2 <= usize::MAX,
            old(self)@.lines.len() + (src_line_end(p, li as int) - src_line_start(p, li as int)) + 2 < usize::MAX,
        ensures
            wrap_line(old(self)@, old(out)@, p, li as int) == (final(self)@, final(out)@, stop),
            final(self)@.wf(),
            extends(final(self)@, p.src),
            final(self)@.lines.len() >= old(self)@.lines.len() + 1,
            final(self)@.lines.len() - old(self)@.lines.len() <= (src_line_end(p, li as int) - src_line_start(p, li as int)) + 1,
            final(self)@.bytes.len() <= old(self)@.bytes.len() + (src_line_end(p, li as int) - src_line_start(p, li as int))
                + (final(self)@.lines.len() - old(self)@.lines.len()) * indicators_len(p),
            final(self)@.spans.len() <= old(self)@.spans.len() + (src_line_end(p, li as int) - src_line_start(p, li as int))
                + 2 * (final(self)@.lines.len() - old(self)@.lines.len()),
    {
        let ghost m0 = self@;
        let ghost src = p.src;
        let ghost kk = indicators_len(p);
        proof {
            assert(src.lines[li as int] <= src.lines[li + 1]);
            assert(src.lines[li + 1] < src.spans.len());
            assert(self@.lines[li + 1] == src.lines[li + 1]);
            assert(self@.lines[li as int] == src.lines[li as int]);
            assert(self@.spans[src.lines[li as int] as int] == src.spans[src.lines[li as int] as int]);
            assert(self@.spans[src.lines[li + 1] as int] == src.spans[src.lines[li + 1] as int]);
            assert(src.spans[src.lines[li as int] as int].0 <= src.spans[src.lines[li + 1] as int].0);
            is_char_boundary_start_end_of_seq(src.bytes);
            assert(src_line_end(p, li as int) <= src.bytes.len());
        }
        let k0 = self.lines[li];
        let line_start = self.spans[k0].0;
        let line_end = self.spans[self.lines[li + 1]].0;
        if line_start == line_end {
            out.push((0, li - c.lines_start, 0..0));
            if self.num_lines() - c.start + 1 >= c.max_lines && li + 1 < c.lines_end {
                self.push_span(&c.trunc_indicator.1, c.trunc_indicator.2, Ghost(src));
                self.close_line();
                proof {
                    lemma_extends_push(self@, src, Seq::<u8>::empty());
                    assert(kk >= utf8(c.trunc_indicator.1@).len());
                    assert(1 * kk == kk);
                }
                return true;
            }
            self.close_line();
            proof {
                lemma_extends_push(m0, src, Seq::<u8>::empty());
                assert(m0.push_bytes(Seq::<u8>::empty()) =~= m0);
                assert(1 * kk == kk);
            }
            return false;
        }
        proof {
            lemma_extends_boundary(self@.bytes, src.bytes, line_start as int);
            lemma_extends_boundary(self@.bytes, src.bytes, line_end as int);
            assert(self@.bytes.subrange(line_start as int, line_end as int) =~= src.bytes.subrange(line_start as int, line_end as int)) by {
                assert forall|q: int| line_start <= q < line_end implies self@.bytes[q] == src.bytes[q] by {
                    assert(self@.bytes.subrange(0, src.bytes.len() as int)[q] == self@.bytes[q]);
                }
            }
        }
        let whole = substr(self.chars.as_str(), line_start, line_end);
        let mut rem = str_width(whole);
        let mut pos = line_start;
        let mut k = k0;
        let ghost total = wrap_line(m0, out@, p, li as int);
        while pos < line_end
            invariant
                m0.wf(),
                ctx_matches(*c, p),
                src == p.src,
                kk == indicators_len(p),
                c.lines_start <= li < c.lines_end,
                line_start == src_line_start(p, li as int),
                line_end == src_line_end(p, li as int),
                line_start < line_end <= src.bytes.len(),
                line_start <= pos <= line_end,
                src.lines[li as int] <= k <= src.lines[li + 1],
                src.spans[k as int].0 <= pos,
                is_char_boundary(src.bytes, pos as int),
                self@.wf(),
                extends(self@, src),
                c.start <= self@.num_lines(),
                self@.lines.len() >= m0.lines.len(),
                pos > line_start ==> self@.lines.len() > m0.lines.len(),
                self@.lines.len() - m0.lines.len() <= pos - line_start,
                self@.bytes.len() <= m0.bytes.len() + (pos - line_start) + (self@.lines.len() - m0.lines.len()) * kk,
                self@.spans.len() <= m0.spans.len() + (pos - line_start) + 2 * (self@.lines.len() - m0.lines.len()),
                m0.bytes.len() + (line_end - line_start) + (line_end - line_start + 1) * kk <= usize::MAX,
                m0.spans.len() + 3 * (line_end - line_start) + 2 <= usize::MAX,
                m0.lines.len() + (line_end - line_start) + 2 < usize::MAX,
                wrap_segments(self@, out@, p, li as int, pos as int, k as int, rem as int) == total,
                m0 == old(self)@,
                total == wrap_line(old(self)@, old(out)@, p, li as int),
            decreases line_end - pos,
        {
            let ghost g = self@.lines.len() - m0.lines.len();
            proof {
                assert(g <= pos - line_start);
                lemma_mul_le(g, (pos - line_start) as int, kk);
                lemma_mul_le((pos - line_start + 1) as int, (line_end - line_start + 1) as int, kk);
                assert((pos - line_start + 1) * kk == (pos - line_start) * kk + kk) by (nonlinear_arith);
            }
            let (pos2, k2, rem2, stop, more) = self.wrap_segment(c, li, pos, k, rem, out, Ghost(p));
            proof {
                lemma_mul_le(g, (pos2 - line_start - 1) as int, kk);
                assert((g + 1) * kk == g * kk + kk) by (nonlinear_arith);
            }
            if !more {
                return stop;
            }
            pos = pos2;
            k = k2;
            rem = rem2;
        }
        false
    }


    /// Wraps each of the given closed lines to `width` columns, appending the output lines at
    /// the end. A continued line ends with `line_wrap_indicator.1` and its continuation starts
    /// with `line_wrap_indicator.0`. At most `max_lines` output lines are produced; if the
    /// text does not fit, the last one ends with `truncation_indicator.1`. A line too narrow
    /// for even one grapheme cluster gets one anyway. For each output line, `out_lines` (if
    /// given) receives its starting x, its source line (relative to `lines.start`) and its
    /// byte range within the source line. Returns the range of output lines.
    pub fn line_wrap(
        &mut self,
        lines: std::ops::Range<usize>,
        width: usize,
        max_lines: usize,
        line_wrap_indicator: &(String, String, Style),
        truncation_indicator: &(String, String, Style),
        out_lines: Option<&mut Vec<WrapOut>>,
    ) -> (r: std::ops::Range<usize>)
        requires
            old(self)@.wf(),
            lines.end <= old(self)@.num_lines(),
            3 * old(self)@.bytes.len() <= usize::MAX,
            3 * utf8(line_wrap_indicator.0@).len() <= isize::MAX,
            3 * utf8(line_wrap_indicator.1@).len() <= usize::MAX,
            3 * utf8(truncation_indicator.1@).len() <= usize::MAX,
            wrap_fits(old(self)@, lines.start as int, lines.end as int, (utf8(line_wrap_indicator.0@).len()
                + utf8(line_wrap_indicator.1@).len() + utf8(truncation_indicator.1@).len()) as int),
        ensures
            ({
                let p = wrap_params(old(self)@, lines, width, max_lines, *line_wrap_indicator, *truncation_indicator);
                &&& final(self)@ == wrap_lines_from(old(self)@, seq![], p, lines.start as int).0
                &&& match out_lines {
                    Some(v) => final(v)@ == v@ + wrap_lines_from(old(self)@, seq![], p, lines.start as int).1,
                    None => true,
                }
            }),
            match out_lines {
                Some(v) => final(v)@.len() == v@.len() + (r.end - r.start) && outs_contiguous(
                    final(v)@.subrange(v@.len() as int, final(v)@.len() as int),
                ),
                None => true,
            },
            final(self)@.wf(),
            extends(final(self)@, old(self)@),
            r.start == old(self)@.num_lines(),
            r.end == final(self)@.num_lines(),
            lines.start < lines.end ==> 1 <= r.end - r.start <= (if max_lines >= 1 { max_lines as int } else { 1 }),
            lines.start >= lines.end ==> r.end == r.start,
    {
        proof {
            lemma_wrap_line_count(self@, lines, width, max_lines, *line_wrap_indicator, *truncation_indicator);
            let p = wrap_params(self@, lines, width, max_lines, *line_wrap_indicator, *truncation_indicator);
            lemma_wrap_lines_outs_count(self@, seq![], p, lines.start as int);
            lemma_wrap_lines_contiguous(self@, seq![], p, lines.start as int);
        }
        match out_lines {
            Some(v) => self.wrap_into(lines, width, max_lines, line_wrap_indicator, truncation_indicator, v),
            None => {
                let mut tmp: Vec<WrapOut> = Vec::new();
                self.wrap_into(lines, width, max_lines, line_wrap_indicator, truncation_indicator, &mut tmp)
            },
        }
    }

    #[verifier::rlimit(40)]
    fn wrap_into(
        &mut self,
        lines: std::ops::Range<usize>,
        width: usize,
        max_lines: usize,
        line_wrap_indicator: &(String, String, Style),
        truncation_indicator: &(String, String, Style),
        out: &mut Vec<WrapOut>,
    ) -> (r: std::ops::Range<usize>)
        requires
            old(self)@.wf(),
            lines.end <= old(self)@.num_lines(),
            3 * old(self)@.bytes.len() <= usize::MAX,
            3 * utf8(line_wrap_indicator.0@).len() <= isize::MAX,
            3 * utf8(line_wrap_indicator.1@).len() <= usize::MAX,
            3 * utf8(truncation_indicator.1@).len() <= usize::MAX,
            wrap_fits(old(self)@, lines.start as int, lines.end as int, (utf8(line_wrap_indicator.0@).len()
                + utf8(line_wrap_indicator.1@).len() + utf8(truncation_indicator.1@).len()) as int),
        ensures
            ({
                let p = wrap_params(old(self)@, lines, width, max_lines, *line_wrap_indicator, *truncation_indicator);
                &&& final(self)@ == wrap_lines_from(old(self)@, seq![], p, lines.start as int).0
                &&& final(out)@ == old(out)@ + wrap_lines_from(old(self)@, seq![], p, lines.start as int).1
            }),
            final(self)@.wf(),
            extends(final(self)@, old(self)@),
            r.start == old(self)@.num_lines(),
            r.end == final(self)@.num_lines(),
    {
        let ghost src = self@;
        let ghost out0 = out@;
        let ghost p = wrap_params(src, lines, width, max_lines, *line_wrap_indicator, *truncation_indicator);
        let start = self.num_lines();
        let c = WrapCtx {
            lines_start: lines.start,
            lines_end: lines.end,
            start,
            width,
            max_lines,
            wrap_indicator: line_wrap_indicator,
            trunc_indicator: truncation_indicator,
            wrap_start_width: str_width(line_wrap_indicator.0.as_str()),
            wrap_end_width: str_width(line_wrap_indicator.1.as_str()),
            trunc_end_width: str_width(truncation_indicator.1.as_str()),
        };
        let ghost kk = indicators_len(p);
        proof {
            lemma_wrap_outs_extend(src, out0, p, lines.start as int);
            is_char_boundary_start_end_of_seq(src.bytes);
            assert(src.bytes.subrange(0, src.bytes.len() as int) =~= src.bytes);
            assert(extends(src, src));
        }
        let ghost total = wrap_lines_from(src, out0, p, lines.start as int);
        if lines.start >= lines.end {
            return start..self.num_lines();
        }
        let ghost base0 = src_line_start(p, lines.start as int);
        let mut li = lines.start;
        while li < lines.end
            invariant
                src.wf(),
                p == wrap_params(src, lines, width, max_lines, *line_wrap_indicator, *truncation_indicator),
                ctx_matches(c, p),
                c.lines_start == lines.start,
                c.lines_end == lines.end,
                c.start == src.num_lines(),
                kk == indicators_len(p),
                lines.start <= li <= lines.end <= src.num_lines(),
                base0 == src_line_start(p, lines.start as int),
                base0 <= src_line_start(p, li as int) <= src.bytes.len(),
                wrap_fits(src, lines.start as int, lines.end as int, kk),
                self@.wf(),
                extends(self@, src),
                self@.lines.len() - src.lines.len() <= (src_line_start(p, li as int) - base0) + (li - lines.start),
                self@.lines.len() >= src.lines.len(),
                self@.bytes.len() <= src.bytes.len() + (src_line_start(p, li as int) - base0) + (self@.lines.len() - src.lines.len()) * kk,
                self@.spans.len() <= src.spans.len() + (src_line_start(p, li as int) - base0) + 2 * (self@.lines.len() - src.lines.len()),
                wrap_lines_from(self@, out@, p, li as int) == total,
                total == wrap_lines_from(src, out0, p, lines.start as int),
                total == ({
                    let r = wrap_lines_from(src, seq![], p, lines.start as int);
                    (r.0, out0 + r.1)
                }),
                src == old(self)@,
                out0 == old(out)@,
                start == src.num_lines(),
            decreases lines.end - li,
        {
            let ghost g = self@.lines.len() - src.lines.len();
            let ghost consumed = src_line_start(p, li as int) - base0;
            let ghost ll = src_line_end(p, li as int) - src_line_start(p, li as int);
            proof {
                lemma_line_bounds(p, lines.start as int, li as int);
                lemma_mul_le(g, consumed + (li - lines.start), kk);
                lemma_mul_le(consumed + (li - lines.start) + ll + 1, src.bytes.len() + (lines.end - lines.start) + 1, kk);
                assert((consumed + (li - lines.start) + ll + 1) * kk == (consumed + (li - lines.start)) * kk + (ll + 1) * kk) by (nonlinear_arith);
            }
            let stop = self.wrap_one_line(&c, li, out, Ghost(p));
            proof {
                let g2 = self@.lines.len() - src.lines.len();
                assert((g2 - g) * kk + g * kk == g2 * kk) by (nonlinear_arith);
                assert(src_line_end(p, li as int) == src_line_start(p, li + 1)) by {
                    lemma_line_bounds(p, lines.start as int, li + 1);
                }
            }
            if stop {
                return start..self.num_lines();
            }
            li = li + 1;
        }
        start..self.num_lines()
    }

    /// Removes all text, spans and lines.
    pub fn clear(&mut self)
        requires
            old(self)@.wf(),
        ensures
            final(self)@ == (TextModel {
                lines: seq![old(self)@.lines[0]],
                spans: seq![old(self)@.spans[0]],
                bytes: Seq::<u8>::empty(),
            }),
            final(self)@.wf(),
    {
        self.chars = String::new();
        self.spans.truncate(1);
        self.lines.truncate(1);
        proof {
            assert(self@.lines =~= seq![old(self)@.lines[0]]);
            assert(self@.spans =~= seq![old(self)@.spans[0]]);
            assert(self@.bytes =~= Seq::<u8>::empty());
            is_char_boundary_start_end_of_seq(self@.bytes);
        }
    }

    /// Width of the unclosed line.
    pub fn unclosed_line_width(&self) -> (r: usize)
        requires
            self@.wf(),
            3 * self@.bytes.len() <= usize::MAX,
        ensures
            r == bytes_width(
                self@.bytes.subrange(
                    self@.spans[self@.lines.last() as int].0 as int,
                    self@.bytes.len() as int,
                ),
            ),
    {
        let start = self.spans[self.lines[self.lines.len() - 1]].0;
        let len = self.byte_len();
        proof {
            is_char_boundary_start_end_of_seq(self@.bytes);
        }
        let s = substr(self.chars.as_str(), start, len);
        str_width(s)
    }

    /// The widest of the given closed lines; 0 if the range is empty.
    pub fn widest_line(&self, lines: std::ops::Range<usize>) -> (r: usize)
        requires
            self@.wf(),
            lines.end <= self@.num_lines(),
            3 * self@.bytes.len() <= usize::MAX,
        ensures
            r == widest_line_spec(self@, lines.start as int, lines.end as int),
    {
        let mut best: usize = 0;
        let mut i = lines.start;
        if i > lines.end {
            return 0;
        }
        while i < lines.end
            invariant
                self@.wf(),
                lines.start <= i <= lines.end <= self@.num_lines(),
                3 * self@.bytes.len() <= usize::MAX,
                best == widest_line_spec(self@, lines.start as int, i as int),
            decreases lines.end - i,
        {
            let s = self.get_line_str(i);
            proof {
                let a = self@.spans[self@.lines[i as int] as int].0 as int;
                let b = self@.spans[self@.lines[i + 1] as int].0 as int;
                assert(self@.lines[i as int] <= self@.lines[i + 1]);
                assert(a <= b);
            }
            let w = str_width(s);
            if w > best {
                best = w;
            }
            i = i + 1;
        }
        best
    }

    /// Drops the last closed line, which must end at the last closed span.
    pub fn unclose_line(&mut self)
        requires
            old(self)@.wf(),
            old(self)@.lines.len() >= 2,
            old(self)@.lines.last() == old(self)@.spans.len() - 1,
        ensures
            final(self)@ == (TextModel { lines: old(self)@.lines.drop_last(), ..old(self)@ }),
            final(self)@.wf(),
    {
        self.lines.pop();
        proof {
            assert(self@ =~= (TextModel { lines: old(self)@.lines.drop_last(), ..old(self)@ }));
        }
    }

    /// Reserves room for 64 more bytes of text; the content does not change.
    pub fn ensure_padded(&mut self)
        requires
            old(self)@.bytes.len() + 64 <= isize::MAX,
        ensures
            final(self)@ == old(self)@,
    {
        string_reserve(&mut self.chars, 64);
    }

    /// Appends `s` repeated `count` times to the unclosed span and closes it with `style`.
    pub fn append_repeated(&mut self, s: &str, count: usize, style: Style)
        requires
            old(self)@.wf(),
            old(self)@.bytes.len() + count * s.spec_bytes().len() <= usize::MAX,
            old(self)@.spans.len() < usize::MAX,
        ensures
            final(self)@ == old(self)@.push_bytes(repeat_bytes(s.spec_bytes(), count as nat)).close_span(style),
            final(self)@.wf(),
    {
        let mut i: usize = 0;
        while i < count
            invariant
                i <= count,
                self@.wf(),
                self@ == old(self)@.push_bytes(repeat_bytes(s.spec_bytes(), i as nat)),
                old(self)@.bytes.len() + count * s.spec_bytes().len() <= usize::MAX,
                old(self)@.spans.len() < usize::MAX,
            decreases count - i,
        {
            proof {
                lemma_repeat_len(s.spec_bytes(), i as nat);
                assert(i * s.spec_bytes().len() + s.spec_bytes().len() <= count * s.spec_bytes().len()) by (nonlinear_arith)
                    requires i < count;
            }
            self.push_str(s);
            i = i + 1;
            proof {
                assert(self@ =~= old(self)@.push_bytes(repeat_bytes(s.spec_bytes(), i as nat)));
            }
        }
        self.close_span(style);
    }

    /// Applies adjustment `a` to the styles of spans in the given range.
    pub fn adjust_spans_style(&mut self, spans: std::ops::Range<usize>, a: StyleAdjustment)
        requires
            old(self)@.wf(),
            spans.start < spans.end ==> spans.end <= old(self)@.num_spans(),
        ensures
            final(self)@ == old(self)@.adjust_spans(spans.start as int, spans.end as int, a),
            final(self)@.wf(),
    {
        let mut i = spans.start;
        while i < spans.end
            invariant
                old(self)@.wf(),
                spans.start <= i <= spans.end || (i == spans.start && spans.start >= spans.end),
                spans.start < spans.end ==> spans.end <= old(self)@.num_spans(),
                self@ == old(self)@.adjust_spans(spans.start as int, i as int, a),
            decreases spans.end - i,
        {
            let (x, st) = self.spans[i + 1];
            self.spans.set(i + 1, (x, a.apply(st)));
            i = i + 1;
            proof {
                assert(self@.spans =~= old(self)@.adjust_spans(spans.start as int, i as int, a).spans);
            }
        }
        proof {
            assert(self@ =~= old(self)@.adjust_spans(spans.start as int, spans.end as int, a));
        }
    }
}

/// Calls `String::reserve`, which only grows the capacity and keeps the content.
#[verifier::external_body]
fn string_reserve(s: &mut String, additional: usize)
    requires
        utf8(old(s)@).len() + additional <= isize::MAX,
    ensures
        final(s)@ == old(s)@,
{
    s.reserve(additional)
}

/// Length of a repetition.
proof fn lemma_repeat_len(b: Seq<u8>, n: nat)
    ensures
        repeat_bytes(b, n).len() == n * b.len(),
    decreases n,
{
    if n > 0 {
        lemma_repeat_len(b, (n - 1) as nat);
        assert(n * b.len() == (n - 1) * b.len() + b.len()) by (nonlinear_arith);
    } else {
        assert(n * b.len() == 0) by (nonlinear_arith) requires n == 0;
    }
}


/// `b` with every newline byte replaced by a space.
pub open spec fn newline_to_space(b: Seq<u8>) -> Seq<u8> {
    b.map_values(|x: u8| if x == 10 { 32u8 } else { x })
}

/// The number of newline bytes in `b`.
pub open spec fn count_newlines(b: Seq<u8>) -> nat
    decreases b.len(),
{
    if b.len() == 0 {
        0
    } else {
        count_newlines(b.drop_last()) + if b.last() == 10 { 1nat } else { 0nat }
    }
}

proof fn lemma_count_newlines_concat(a: Seq<u8>, b: Seq<u8>)
    ensures
        count_newlines(a + b) == count_newlines(a) + count_newlines(b),
    decreases b.len(),
{
    if b.len() == 0 {
        assert(a + b =~= a);
    } else {
        lemma_count_newlines_concat(a, b.drop_last());
        assert((a + b).drop_last() =~= a + b.drop_last());
    }
}

proof fn lemma_no_newlines(b: Seq<u8>)
    requires
        forall|q: int| 0 <= q < b.len() ==> b[q] != 10,
    ensures
        count_newlines(b) == 0,
        newline_to_space(b) == b,
    decreases b.len(),
{
    if b.len() > 0 {
        lemma_no_newlines(b.drop_last());
    }
    assert(newline_to_space(b) =~= b);
}

proof fn lemma_split_span_rest_text(st: SplitState, src: Seq<u8>, i: int, e: int, style: Style, base: int)
    requires
        0 <= i <= e <= src.len(),
    ensures
        split_span_rest(st, src, i, e, style, base).0.bytes == st.0.bytes + newline_to_space(src.subrange(i, e)),
        split_span_rest(st, src, i, e, style, base).0.lines.len() == st.0.lines.len() + count_newlines(
            src.subrange(i, e),
        ),
        split_span_rest(st, src, i, e, style, base).2.len() == st.2.len() + count_newlines(src.subrange(i, e)),
    decreases e - i,
{
    lemma_find_newline(src, i, e);
    let n = find_newline(src, i, e);
    if n < i || n >= e {
        lemma_no_newlines(src.subrange(i, e));
    } else {
        let m2 = st.0.push_bytes(src.subrange(i, n).push(32u8)).close_span(style).close_line();
        let st2 = (m2, n + 1 - base, st.2.push((st.1 as usize)..((n + 1 - base) as usize)));
        lemma_split_span_rest_text(st2, src, n + 1, e, style, base);
        let pre = src.subrange(i, n);
        let post = src.subrange(n + 1, e);
        lemma_no_newlines(pre);
        assert(src.subrange(i, e) =~= pre + seq![10u8] + post);
        lemma_count_newlines_concat(pre + seq![10u8], post);
        lemma_count_newlines_concat(pre, seq![10u8]);
        assert(seq![10u8].drop_last() =~= Seq::<u8>::empty());
        assert(count_newlines(Seq::<u8>::empty()) == 0);
        assert(count_newlines(seq![10u8]) == 1);
        assert(count_newlines(src.subrange(i, e)) == 1 + count_newlines(post));
        assert(m2.lines.len() == st.0.lines.len() + 1);
        assert(newline_to_space(src.subrange(i, e)) =~= pre.push(32u8) + newline_to_space(post));
        assert(st.0.bytes + newline_to_space(src.subrange(i, e)) =~= st.0.bytes + pre.push(32u8)
            + newline_to_space(post));
    }
}

proof fn lemma_split_spans_text(
    st: SplitState,
    src: Seq<u8>,
    spans: Seq<(usize, Style)>,
    k: int,
    kend: int,
    base: int,
)
    requires
        0 <= k <= kend < spans.len(),
        forall|x: int, y: int| 0 <= x <= y < spans.len() ==> #[trigger] spans[x].0 <= #[trigger] spans[y].0,
        forall|x: int| 0 <= x < spans.len() ==> #[trigger] spans[x].0 <= src.len(),
    ensures
        split_spans_from(st, src, spans, k, kend, base).0.bytes == st.0.bytes + newline_to_space(
            src.subrange(spans[k].0 as int, spans[kend].0 as int),
        ),
        split_spans_from(st, src, spans, k, kend, base).0.lines.len() == st.0.lines.len() + count_newlines(
            src.subrange(spans[k].0 as int, spans[kend].0 as int),
        ),
        split_spans_from(st, src, spans, k, kend, base).2.len() == st.2.len() + count_newlines(
            src.subrange(spans[k].0 as int, spans[kend].0 as int),
        ),
    decreases kend - k,
{
    if k >= kend {
        assert(src.subrange(spans[k].0 as int, spans[kend].0 as int) =~= Seq::<u8>::empty());
        assert(newline_to_space(Seq::<u8>::empty()) =~= Seq::<u8>::empty());
        assert(st.0.bytes + Seq::<u8>::empty() =~= st.0.bytes);
    } else {
        let a = spans[k].0 as int;
        let b = spans[k + 1].0 as int;
        let c = spans[kend].0 as int;
        assert(spans[k].0 <= spans[k + 1].0);
        assert(spans[k + 1].0 <= spans[kend].0);
        lemma_split_span_rest_text(st, src, a, b, spans[k + 1].1, base);
        let st2 = split_span_rest(st, src, a, b, spans[k + 1].1, base);
        lemma_split_spans_text(st2, src, spans, k + 1, kend, base);
        assert(src.subrange(a, c) =~= src.subrange(a, b) + src.subrange(b, c));
        lemma_count_newlines_concat(src.subrange(a, b), src.subrange(b, c));
        assert(newline_to_space(src.subrange(a, c)) =~= newline_to_space(src.subrange(a, b))
            + newline_to_space(src.subrange(b, c)));
        assert(st.0.bytes + newline_to_space(src.subrange(a, c)) =~= st.0.bytes + newline_to_space(
            src.subrange(a, b),
        ) + newline_to_space(src.subrange(b, c)));
    }
}

/// Splitting a line at its newline characters (`split_by_newline_character`) appends the
/// line's text with every newline replaced by a space, as one line more than the line has
/// newlines, and reports the byte range of each of those lines.
pub proof fn lemma_split_keeps_text(m: TextModel, line: int)
    requires
        m.wf(),
        0 <= line < m.num_lines(),
    ensures
        split_by_newline_spec(m, line).0.bytes == m.bytes + newline_to_space(m.line_bytes(line)),
        split_by_newline_spec(m, line).0.num_lines() == m.num_lines() + count_newlines(m.line_bytes(line)) + 1,
        split_by_newline_spec(m, line).1.len() == count_newlines(m.line_bytes(line)) + 1,
{
    let k = m.lines[line] as int;
    let kend = m.lines[line + 1] as int;
    assert(m.lines[line] <= m.lines[line + 1]);
    let base = m.spans[k].0 as int;
    lemma_split_spans_text((m, 0, seq![]), m.bytes, m.spans, k, kend, base);
}

} // verus!
