//! How many terminal columns a string occupies: the string is split into extended grapheme
//! clusters (by `unicode-segmentation`) and the display widths of the clusters (by
//! `unicode-width`) are added up, the same way the screen buffer places text in cells.

use vstd::prelude::*;
use vstd::utf8::*;
use vstd::string::*;
use crate::utf8_text::{utf8, substr, lemma_chars_le_bytes};
use unicode_segmentation::UnicodeSegmentation;
use unicode_width::UnicodeWidthStr;

verus! {

broadcast use vstd::utf8::group_utf8_lib;

/// Byte offsets at which the extended grapheme clusters of a string start, as
/// `unicode_segmentation` finds them.
pub uninterp spec fn grapheme_starts(s: Seq<char>) -> Seq<usize>;

/// Number of terminal columns a string occupies, as `unicode_width` computes it.
pub uninterp spec fn display_width(s: Seq<char>) -> usize;

/// `starts` cuts `bytes` into nonempty pieces that begin at character boundaries: it is
/// empty exactly when `bytes` is, begins at 0, increases strictly and stays inside `bytes`.
pub open spec fn is_segmentation(starts: Seq<usize>, bytes: Seq<u8>) -> bool {
    &&& (starts.len() == 0 <==> bytes.len() == 0)
    &&& starts.len() > 0 ==> starts[0] == 0
    &&& forall|i: int, j: int| 0 <= i < j < starts.len() ==> starts[i] < starts[j]
    &&& forall|i: int|
        0 <= i < starts.len() ==> starts[i] < bytes.len() && is_char_boundary(
            bytes,
            starts[i] as int,
        )
}

/// Every byte of `b` is a printable ASCII character (a space up to `~`).
pub open spec fn printable_ascii(b: Seq<u8>) -> bool {
    forall|i: int| 0 <= i < b.len() ==> 0x20 <= #[trigger] b[i] <= 0x7e
}

/// Calls `UnicodeSegmentation::grapheme_indices(s, true)` and keeps the byte offset of each
/// extended grapheme cluster. The contract claims that the offsets depend on the characters
/// of `s` alone, and that the clusters are nonempty, in order, and cover `s`, each starting
/// at a character boundary; and, as the segmentation rules the crate follows give (no rule
/// joins two printable ASCII characters), that a text of printable ASCII characters has one
/// cluster per character.
#[verifier::external_body]
pub(crate) fn grapheme_offsets(s: &str) -> (r: Vec<usize>)
    ensures
        r@ == grapheme_starts(s@),
        is_segmentation(r@, s.spec_bytes()),
        printable_ascii(s.spec_bytes()) ==> r@ == Seq::new(s.spec_bytes().len(), |i: int| i as usize),
{
    s.grapheme_indices(true).map(|(i, _)| i).collect()
}

/// Calls `UnicodeWidthStr::width(s)`. The contract claims that the result depends on the
/// characters of `s` alone and, following the crate's documented rules (no character is
/// wider than 3 columns, and the sequences whose width differs from the sum of their
/// characters' widths are narrower), is at most 3 columns per character; and, by the same
/// rules (printable ASCII characters fall under none of the special cases), that a text of
/// printable ASCII characters is one column per character.
#[verifier::external_body]
fn unicode_str_width(s: &str) -> (r: usize)
    ensures
        r == display_width(s@),
        r <= 3 * s@.len(),
        printable_ascii(s.spec_bytes()) ==> r == s.spec_bytes().len(),
{
    s.width()
}

/// Number of grapheme clusters of `s`.
pub open spec fn gcount(s: Seq<char>) -> int {
    grapheme_starts(s).len() as int
}

/// Byte offset where cluster `k` of `s` starts.
pub open spec fn gstart(s: Seq<char>, k: int) -> int {
    grapheme_starts(s)[k] as int
}

/// Byte offset where cluster `k` of `s` ends.
pub open spec fn gend(s: Seq<char>, k: int) -> int {
    if k + 1 < gcount(s) {
        gstart(s, k + 1)
    } else {
        utf8(s).len() as int
    }
}

/// The characters of cluster `k` of `s`.
pub open spec fn grapheme(s: Seq<char>, k: int) -> Seq<char> {
    decode_utf8(utf8(s).subrange(gstart(s, k), gend(s, k)))
}

/// Display width of cluster `k` of `s`.
pub open spec fn gwidth(s: Seq<char>, k: int) -> int {
    display_width(grapheme(s, k)) as int
}

/// Total width of the first `k` clusters of `s`.
pub open spec fn wsum(s: Seq<char>, k: int) -> int
    decreases k,
{
    if k <= 0 {
        0
    } else {
        wsum(s, k - 1) + gwidth(s, k - 1)
    }
}

/// Horizontal space that `s` occupies on the screen: the sum of the widths of its clusters.
pub open spec fn str_width_spec(s: Seq<char>) -> int {
    wsum(s, gcount(s))
}

/// Index of the first cluster, from `k` on, whose end would make the prefix wider than
/// `width`; the number of clusters if there is none.
pub open spec fn first_over(s: Seq<char>, width: int, k: int) -> int
    decreases gcount(s) - k,
{
    if k >= gcount(s) {
        gcount(s)
    } else if wsum(s, k + 1) > width {
        k
    } else {
        first_over(s, width, k + 1)
    }
}

pub proof fn lemma_first_over_bound(s: Seq<char>, width: int, k: int)
    requires
        0 <= k <= gcount(s),
    ensures
        k <= first_over(s, width, k) <= gcount(s),
    decreases gcount(s) - k,
{
    if k < gcount(s) && wsum(s, k + 1) <= width {
        lemma_first_over_bound(s, width, k + 1);
    }
}

/// Result of `str_prefix_with_width`: the byte length and width of the longest prefix made of
/// whole clusters that fits in `width`, and the byte length and width of the cluster that
/// follows it (zero when the whole string fits).
pub open spec fn prefix_with_width_spec(s: Seq<char>, width: int) -> (int, int, int, int) {
    let k = first_over(s, width, 0);
    if k < gcount(s) {
        (gstart(s, k), wsum(s, k), gend(s, k) - gstart(s, k), gwidth(s, k))
    } else {
        (utf8(s).len() as int, wsum(s, gcount(s)), 0, 0)
    }
}

/// Index of the last cluster below `k` whose start would make the suffix wider than `width`;
/// -1 if there is none.
pub open spec fn last_over(s: Seq<char>, width: int, k: int) -> int
    decreases k,
{
    if k <= 0 {
        -1
    } else if str_width_spec(s) - wsum(s, k - 1) > width {
        k - 1
    } else {
        last_over(s, width, k - 1)
    }
}

/// Result of `str_suffix_with_width`: the start byte and the width of the longest suffix made
/// of whole clusters that fits in `width`.
pub open spec fn suffix_with_width_spec(s: Seq<char>, width: int) -> (int, int) {
    let k = last_over(s, width, gcount(s));
    if k >= 0 {
        (gend(s, k), str_width_spec(s) - wsum(s, k + 1))
    } else {
        (0, str_width_spec(s))
    }
}

/// Cluster `k` of `s` as a string slice, together with its width.
pub(crate) fn grapheme_at(s: &str, starts: &Vec<usize>, k: usize) -> (r: (usize, usize, usize))
    requires
        starts@ == grapheme_starts(s@),
        is_segmentation(starts@, s.spec_bytes()),
        k < starts.len(),
        s.spec_bytes().len() <= usize::MAX,
    ensures
        r.0 == gstart(s@, k as int),
        r.1 == gend(s@, k as int),
        r.2 == gwidth(s@, k as int),
        r.0 < r.1,
        r.2 <= 3 * (r.1 - r.0),
        printable_ascii(s.spec_bytes().subrange(r.0 as int, r.1 as int)) ==> r.2 == r.1 - r.0,
{
    let a = starts[k];
    let b = if k + 1 < starts.len() { starts[k + 1] } else { s.len() };
    proof {
        assert(s.spec_bytes() == utf8(s@));
        assert(valid_utf8(s.spec_bytes()));
        if k + 1 < starts.len() {
            assert(starts@[k as int] < starts@[k + 1]);
        }
        is_char_boundary_start_end_of_seq(s.spec_bytes());
        assert(b == gend(s@, k as int));
    }
    let g = substr(s, a, b);
    let w = unicode_str_width(g);
    proof {
        lemma_chars_le_bytes(g@);
        assert(utf8(g@) == g.spec_bytes());
    }
    (a, b, w)
}

/// Horizontal space that the string would occupy on the screen, counted the same way as
/// `ScreenBuffer::put_text` places it: the sum of the widths of its grapheme clusters.
pub fn str_width(s: &str) -> (r: usize)
    requires
        3 * s.spec_bytes().len() <= usize::MAX,
    ensures
        r == str_width_spec(s@),
        r <= 3 * s.spec_bytes().len(),
        printable_ascii(s.spec_bytes()) ==> r == s.spec_bytes().len(),
{
    let starts = grapheme_offsets(s);
    let mut w: usize = 0;
    let mut k: usize = 0;
    while k < starts.len()
        invariant
            starts@ == grapheme_starts(s@),
            is_segmentation(starts@, s.spec_bytes()),
            3 * s.spec_bytes().len() <= usize::MAX,
            k <= starts.len(),
            w == wsum(s@, k as int),
            k < starts.len() ==> w <= 3 * gstart(s@, k as int),
            k == starts.len() ==> w <= 3 * s.spec_bytes().len(),
            printable_ascii(s.spec_bytes()) ==> starts@ == Seq::new(s.spec_bytes().len(), |i: int| i as usize),
            printable_ascii(s.spec_bytes()) ==> w == k,
        decreases starts.len() - k,
    {
        let (a, b, gw) = grapheme_at(s, &starts, k);
        proof {
            if printable_ascii(s.spec_bytes()) {
                assert(a == k);
                assert(b == k + 1);
                let g = s.spec_bytes().subrange(a as int, b as int);
                assert forall|i: int| 0 <= i < g.len() implies 0x20 <= #[trigger] g[i] <= 0x7e by {
                    assert(g[i] == s.spec_bytes()[a + i]);
                }
            }
        }
        w = w + gw;
        k = k + 1;
    }
    w
}

/// Max `i` such that `str_width(&s[..i]) <= width`, cutting only between grapheme clusters,
/// together with that width, and the byte length and width of the cluster after it.
pub fn str_prefix_with_width(s: &str, width: usize) -> (r: (usize, usize, usize, usize))
    requires
        3 * s.spec_bytes().len() <= usize::MAX,
    ensures
        (r.0 as int, r.1 as int, r.2 as int, r.3 as int) == prefix_with_width_spec(s@, width as int),
        is_segmentation(grapheme_starts(s@), s.spec_bytes()),
        printable_ascii(s.spec_bytes()) ==> if width < s.spec_bytes().len() {
            r == (width, width, 1usize, 1usize)
        } else {
            r == (s.spec_bytes().len() as usize, s.spec_bytes().len() as usize, 0usize, 0usize)
        },
{
    let starts = grapheme_offsets(s);
    let mut w: usize = 0;
    let mut k: usize = 0;
    while k < starts.len()
        invariant
            starts@ == grapheme_starts(s@),
            is_segmentation(starts@, s.spec_bytes()),
            3 * s.spec_bytes().len() <= usize::MAX,
            k <= starts.len(),
            w == wsum(s@, k as int),
            k < starts.len() ==> w <= 3 * gstart(s@, k as int),
            first_over(s@, width as int, 0) == first_over(s@, width as int, k as int),
            printable_ascii(s.spec_bytes()) ==> starts@ == Seq::new(s.spec_bytes().len(), |i: int| i as usize),
            printable_ascii(s.spec_bytes()) ==> w == k && k <= width,
        decreases starts.len() - k,
    {
        let (a, b, gw) = grapheme_at(s, &starts, k);
        proof {
            if printable_ascii(s.spec_bytes()) {
                assert(a == k);
                assert(b == k + 1);
                let g = s.spec_bytes().subrange(a as int, b as int);
                assert forall|i: int| 0 <= i < g.len() implies 0x20 <= #[trigger] g[i] <= 0x7e by {
                    assert(g[i] == s.spec_bytes()[a + i]);
                }
            }
        }
        let next_w = w + gw;
        if next_w > width {
            return (a, w, b - a, gw);
        }
        w = next_w;
        k = k + 1;
    }
    (s.len(), w, 0, 0)
}

/// Min `i` such that `str_width(&s[i..]) <= width`, cutting only between grapheme clusters,
/// together with that width.
pub fn str_suffix_with_width(s: &str, width: usize) -> (r: (usize, usize))
    requires
        3 * s.spec_bytes().len() <= usize::MAX,
    ensures
        (r.0 as int, r.1 as int) == suffix_with_width_spec(s@, width as int),
        printable_ascii(s.spec_bytes()) ==> if width < s.spec_bytes().len() {
            r == ((s.spec_bytes().len() - width) as usize, width)
        } else {
            r == (0usize, s.spec_bytes().len() as usize)
        },
{
    let starts = grapheme_offsets(s);
    let ghost n = starts.len() as int;
    let mut w: usize = 0;
    let mut k: usize = starts.len();
    while k > 0
        invariant
            starts@ == grapheme_starts(s@),
            is_segmentation(starts@, s.spec_bytes()),
            3 * s.spec_bytes().len() <= usize::MAX,
            n == starts.len(),
            k <= n,
            w == str_width_spec(s@) - wsum(s@, k as int),
            k < n ==> w <= 3 * (s.spec_bytes().len() - gstart(s@, k as int)),
            last_over(s@, width as int, n) == last_over(s@, width as int, k as int),
            printable_ascii(s.spec_bytes()) ==> starts@ == Seq::new(s.spec_bytes().len(), |i: int| i as usize),
            printable_ascii(s.spec_bytes()) ==> w == n - k && n - k <= width,
        decreases k,
    {
        let (a, b, gw) = grapheme_at(s, &starts, k - 1);
        proof {
            if printable_ascii(s.spec_bytes()) {
                assert(a == k - 1);
                assert(b == k);
                let g = s.spec_bytes().subrange(a as int, b as int);
                assert forall|i: int| 0 <= i < g.len() implies 0x20 <= #[trigger] g[i] <= 0x7e by {
                    assert(g[i] == s.spec_bytes()[a + i]);
                }
            }
        }
        proof {
            if k < n {
                assert(b == gstart(s@, k as int));
            }
        }
        let ww = w + gw;
        if ww > width {
            return (b, w);
        }
        w = ww;
        k = k - 1;
    }
    (0, w)
}

} // verus!
