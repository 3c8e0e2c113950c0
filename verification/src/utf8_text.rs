//! Byte-level views of strings: UTF-8 encodings, character boundaries, and taking a
//! substring by byte offsets.

use vstd::prelude::*;
use vstd::utf8::*;
use vstd::string::*;

verus! {

broadcast use vstd::utf8::group_utf8_lib;

/// The UTF-8 bytes of a string given by its characters.
pub open spec fn utf8(s: Seq<char>) -> Seq<u8> {
    encode_utf8(s)
}

/// Whether `i` is a character boundary in the UTF-8 encoding of `s`.
pub open spec fn boundary(s: Seq<char>, i: int) -> bool {
    is_char_boundary(utf8(s), i)
}

/// Encoding a concatenation concatenates the encodings.
pub proof fn lemma_utf8_concat(a: Seq<char>, b: Seq<char>)
    ensures
        utf8(a + b) == utf8(a) + utf8(b),
    decreases a.len(),
{
    if a.len() == 0 {
        assert(a + b =~= b);
        assert(utf8(a) =~= Seq::<u8>::empty());
        assert(utf8(a) + utf8(b) =~= utf8(b));
    } else {
        lemma_utf8_concat(a.drop_first(), b);
        assert((a + b).drop_first() =~= a.drop_first() + b);
        assert((a + b)[0] == a[0]);
        assert(utf8(a + b) =~= utf8(a) + utf8(b));
    }
}

/// A string has at most as many characters as its encoding has bytes.
pub proof fn lemma_chars_le_bytes(s: Seq<char>)
    ensures
        s.len() <= utf8(s).len(),
    decreases s.len(),
{
    if s.len() > 0 {
        lemma_chars_le_bytes(s.drop_first());
        let c = s[0] as u32;
        assert(encode_scalar(c).len() >= 1);
    }
}

/// A character boundary of a valid encoding stays one in any prefix that ends at a later
/// boundary.
pub proof fn lemma_boundary_in_prefix(bytes: Seq<u8>, a: int, b: int)
    requires
        valid_utf8(bytes),
        0 <= a <= b <= bytes.len(),
        is_char_boundary(bytes, a),
        is_char_boundary(bytes, b),
    ensures
        valid_utf8(bytes.subrange(0, b)),
        is_char_boundary(bytes.subrange(0, b), a),
{
    valid_utf8_split(bytes, b);
    let p = bytes.subrange(0, b);
    if a == b {
        is_char_boundary_start_end_of_seq(p);
    } else {
        is_char_boundary_iff_not_is_continuation_byte(bytes, a);
        is_char_boundary_iff_not_is_continuation_byte(p, a);
    }
}

/// A character boundary of a valid encoding, shifted, stays one in any suffix that starts at
/// an earlier boundary.
pub proof fn lemma_boundary_in_suffix(bytes: Seq<u8>, a: int, b: int)
    requires
        valid_utf8(bytes),
        0 <= a <= b <= bytes.len(),
        is_char_boundary(bytes, a),
        is_char_boundary(bytes, b),
    ensures
        valid_utf8(bytes.subrange(a, bytes.len() as int)),
        is_char_boundary(bytes.subrange(a, bytes.len() as int), b - a),
{
    valid_utf8_split(bytes, a);
    let p = bytes.subrange(a, bytes.len() as int);
    if b == bytes.len() {
        is_char_boundary_start_end_of_seq(p);
    } else {
        is_char_boundary_iff_not_is_continuation_byte(bytes, b);
        is_char_boundary_iff_not_is_continuation_byte(p, b - a);
    }
}

/// A character boundary of `a` stays one when valid bytes are appended.
pub proof fn lemma_boundary_append(a: Seq<u8>, b: Seq<u8>, i: int)
    requires
        valid_utf8(a),
        valid_utf8(b),
        is_char_boundary(a, i),
    ensures
        valid_utf8(a + b),
        is_char_boundary(a + b, i),
{
    valid_utf8_concat(a, b);
    let ab = a + b;
    if i == 0 {
        is_char_boundary_start_end_of_seq(ab);
    } else if i < a.len() {
        is_char_boundary_iff_not_is_continuation_byte(a, i);
        is_char_boundary_iff_not_is_continuation_byte(ab, i);
        assert(ab[i] == a[i]);
    } else {
        assert(i == a.len()) by {
            if i > a.len() {
                assert(!is_char_boundary(a, i));
            }
        }
        if b.len() == 0 {
            assert(ab =~= a);
        } else {
            is_char_boundary_start_end_of_seq(b);
            is_char_boundary_iff_not_is_continuation_byte(b, 0);
            is_char_boundary_iff_not_is_continuation_byte(ab, i);
            assert(ab[i] == b[0]);
        }
    }
}

/// A character boundary of `b` is one of `a + b` after shifting by the length of `a`.
pub proof fn lemma_boundary_prepend(a: Seq<u8>, b: Seq<u8>, i: int)
    requires
        valid_utf8(a),
        valid_utf8(b),
        is_char_boundary(b, i),
    ensures
        valid_utf8(a + b),
        is_char_boundary(a + b, a.len() + i),
{
    valid_utf8_concat(a, b);
    let ab = a + b;
    if i == b.len() {
        is_char_boundary_start_end_of_seq(ab);
        assert(ab.len() == a.len() + i);
    } else {
        assert(0 <= i < b.len()) by {
            if i < 0 || i > b.len() {
                assert(!is_char_boundary(b, i));
            }
        }
        is_char_boundary_iff_not_is_continuation_byte(b, i);
        is_char_boundary_iff_not_is_continuation_byte(ab, a.len() + i);
        assert(ab[a.len() + i] == b[i]);
    }
}

/// A character boundary between two other boundaries is, shifted, a boundary of the piece
/// between them.
pub proof fn lemma_boundary_in_piece(bytes: Seq<u8>, a: int, x: int, b: int)
    requires
        valid_utf8(bytes),
        0 <= a <= x <= b <= bytes.len(),
        is_char_boundary(bytes, a),
        is_char_boundary(bytes, x),
        is_char_boundary(bytes, b),
    ensures
        valid_utf8(bytes.subrange(a, b)),
        is_char_boundary(bytes.subrange(a, b), x - a),
{
    lemma_boundary_in_prefix(bytes, x, b);
    lemma_boundary_in_prefix(bytes, a, b);
    let p = bytes.subrange(0, b);
    lemma_boundary_in_suffix(p, a, x);
    assert(p.subrange(a, p.len() as int) =~= bytes.subrange(a, b));
}

/// A character boundary of the piece of a valid encoding that starts at a boundary `a` is,
/// shifted, a boundary of the whole encoding.
pub proof fn lemma_boundary_from_piece(bytes: Seq<u8>, a: int, b: int, x: int)
    requires
        valid_utf8(bytes),
        0 <= a <= b <= bytes.len(),
        is_char_boundary(bytes, a),
        is_char_boundary(bytes, b),
        is_char_boundary(bytes.subrange(a, b), x),
    ensures
        is_char_boundary(bytes, a + x),
{
    lemma_boundary_in_piece(bytes, a, a, b);
    let p = bytes.subrange(a, b);
    if x == p.len() {
    } else {
        assert(0 <= x < p.len()) by {
            if x < 0 || x > p.len() {
                assert(!is_char_boundary(p, x));
            }
        }
        is_char_boundary_iff_not_is_continuation_byte(p, x);
        is_char_boundary_iff_not_is_continuation_byte(bytes, a + x);
        assert(p[x] == bytes[a + x]);
    }
}

/// An ASCII byte (below 0x80) in a valid encoding is a whole character: there are character
/// boundaries right before and right after it.
pub proof fn lemma_ascii_boundaries(bytes: Seq<u8>, p: int)
    requires
        valid_utf8(bytes),
        0 <= p < bytes.len(),
        bytes[p] < 0x80,
    ensures
        is_char_boundary(bytes, p),
        is_char_boundary(bytes, p + 1),
{
    assert(!is_continuation_byte(bytes[p])) by {
        let b = bytes[p];
        assert(b < 0x80 ==> !(b & 0xc0 == 0x80)) by (bit_vector);
    }
    is_char_boundary_iff_not_is_continuation_byte(bytes, p);
    valid_utf8_split(bytes, p);
    let pre = bytes.subrange(0, p);
    let suf = bytes.subrange(p, bytes.len() as int);
    assert(suf[0] == bytes[p]);
    assert(is_leading_byte_width_1(suf[0])) by {
        let b = suf[0];
        assert(b < 0x80 ==> b & 0x80 == 0) by (bit_vector);
    }
    assert(length_of_first_scalar(suf) == 1);
    reveal_with_fuel(is_char_boundary, 2);
    assert(is_char_boundary(suf, 1));
    lemma_boundary_prepend(pre, suf, 1);
    assert(pre + suf =~= bytes);
}

/// The characters of a valid encoding.
pub proof fn lemma_decode_of_bytes(s: &str)
    ensures
        s@ == decode_utf8(s.spec_bytes()),
        valid_utf8(s.spec_bytes()),
{
}

/// Calls `std::str::from_utf8`: the bytes as a string, if they are valid UTF-8.
#[verifier::external_body]
pub(crate) fn str_from_utf8(b: &[u8]) -> (r: Option<&str>)
    ensures
        r is Some <==> valid_utf8(b@),
        r matches Some(s) ==> s@ == decode_utf8(b@) && s.spec_bytes() == b@,
{
    std::str::from_utf8(b).ok()
}

/// The part of `s` between byte offsets `a` and `b`, which must be character boundaries.
pub fn substr(s: &str, a: usize, b: usize) -> (r: &str)
    requires
        a <= b <= s.spec_bytes().len(),
        is_char_boundary(s.spec_bytes(), a as int),
        is_char_boundary(s.spec_bytes(), b as int),
    ensures
        r.spec_bytes() == s.spec_bytes().subrange(a as int, b as int),
        r@ == decode_utf8(s.spec_bytes().subrange(a as int, b as int)),
{
    let ghost bytes = s.spec_bytes();
    proof {
        lemma_boundary_in_prefix(bytes, a as int, b as int);
    }
    let (p, _) = s.split_at(b);
    let (_, q) = p.split_at(a);
    proof {
        assert(q.spec_bytes() =~= bytes.subrange(a as int, b as int));
        lemma_decode_of_bytes(q);
    }
    q
}

} // verus!
