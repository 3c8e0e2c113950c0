//! Scanning text line by line: lines, white space, and searching for a character, as the
//! configuration file reader needs them.

use vstd::prelude::*;
use vstd::string::*;

verus! {

/// Unicode white space (the `White_Space` property, as `char::is_whitespace` has it).
pub open spec fn is_whitespace(c: char) -> bool {
    ('\t' <= c <= '\r') || c == ' ' || c == '\u{85}' || c == '\u{a0}' || c == '\u{1680}' || (
    '\u{2000}' <= c <= '\u{200a}') || c == '\u{2028}' || c == '\u{2029}' || c == '\u{202f}' || c
        == '\u{205f}' || c == '\u{3000}'
}

pub fn is_whitespace_char(c: char) -> (r: bool)
    ensures
        r == is_whitespace(c),
{
    ('\t' <= c && c <= '\r') || c == ' ' || c == '\u{85}' || c == '\u{a0}' || c == '\u{1680}' || (
    '\u{2000}' <= c && c <= '\u{200a}') || c == '\u{2028}' || c == '\u{2029}' || c == '\u{202f}'
        || c == '\u{205f}' || c == '\u{3000}'
}

/// The first position from `i` on that does not hold white space.
pub open spec fn skip_ws(s: Seq<char>, i: int) -> int
    decreases s.len() - i,
{
    if 0 <= i < s.len() && is_whitespace(s[i]) {
        skip_ws(s, i + 1)
    } else {
        i
    }
}

/// The end of `s` before position `j` without trailing white space.
pub open spec fn trim_end_at(s: Seq<char>, j: int) -> int
    decreases j,
{
    if 0 < j <= s.len() && is_whitespace(s[j - 1]) {
        trim_end_at(s, j - 1)
    } else {
        j
    }
}

/// `s` without leading white space.
pub open spec fn trim_start(s: Seq<char>) -> Seq<char> {
    s.subrange(skip_ws(s, 0), s.len() as int)
}

/// `s` without leading and trailing white space.
pub open spec fn trim(s: Seq<char>) -> Seq<char> {
    let t = trim_start(s);
    t.subrange(0, trim_end_at(t, t.len() as int))
}

/// Position of the first `c` in `s` from `i` on; -1 if there is none.
pub open spec fn find_char(s: Seq<char>, c: char, i: int) -> int
    decreases s.len() - i,
{
    if i < 0 || i >= s.len() {
        -1
    } else if s[i] == c {
        i
    } else {
        find_char(s, c, i + 1)
    }
}

/// Position of the first character from `i` on that is not an ASCII digit; the length of
/// `s` if there is none.
pub open spec fn digits_end(s: Seq<char>, i: int) -> int
    decreases s.len() - i,
{
    if 0 <= i < s.len() && '0' <= s[i] <= '9' {
        digits_end(s, i + 1)
    } else {
        i
    }
}

/// A line without its `\r` ending.
pub open spec fn strip_cr(l: Seq<char>) -> Seq<char> {
    if l.len() > 0 && l.last() == '\r' {
        l.drop_last()
    } else {
        l
    }
}

/// The lines of `s`, as `str::lines` splits them: at each `\n`, a `\r` before it dropped; a
/// final line ending adds no empty line.
pub open spec fn lines(s: Seq<char>) -> Seq<Seq<char>>
    decreases s.len(),
{
    if s.len() == 0 {
        Seq::empty()
    } else {
        let n = find_char(s, '\n', 0);
        if n < 0 {
            seq![s]
        } else {
            proof {
                lemma_find_char(s, '\n', 0);
            }
            seq![strip_cr(s.subrange(0, n))] + lines(s.subrange(n + 1, s.len() as int))
        }
    }
}

proof fn lemma_skip_ws(s: Seq<char>, i: int)
    requires
        0 <= i <= s.len(),
    ensures
        i <= skip_ws(s, i) <= s.len(),
    decreases s.len() - i,
{
    if i < s.len() && is_whitespace(s[i]) {
        lemma_skip_ws(s, i + 1);
    }
}

pub proof fn lemma_skip_ws_bound(s: Seq<char>)
    ensures
        0 <= skip_ws(s, 0) <= s.len(),
{
    lemma_skip_ws(s, 0);
}

proof fn lemma_trim_end_at(s: Seq<char>, j: int)
    requires
        0 <= j <= s.len(),
    ensures
        0 <= trim_end_at(s, j) <= j,
    decreases j,
{
    if 0 < j && is_whitespace(s[j - 1]) {
        lemma_trim_end_at(s, j - 1);
    }
}

pub proof fn lemma_find_char(s: Seq<char>, c: char, i: int)
    requires
        0 <= i,
    ensures
        find_char(s, c, i) == -1 || (i <= find_char(s, c, i) < s.len() && s[find_char(s, c, i)] == c),
    decreases s.len() - i,
{
    if 0 <= i < s.len() && s[i] != c {
        lemma_find_char(s, c, i + 1);
    }
}

pub proof fn lemma_digits_end(s: Seq<char>, i: int)
    requires
        0 <= i <= s.len(),
    ensures
        i <= digits_end(s, i) <= s.len(),
        forall|j: int| i <= j < digits_end(s, i) ==> '0' <= #[trigger] s[j] <= '9',
    decreases s.len() - i,
{
    if i < s.len() && '0' <= s[i] <= '9' {
        lemma_digits_end(s, i + 1);
    }
}

/// `s` without leading white space.
pub fn str_trim_start(s: &str) -> (r: &str)
    ensures
        r@ == trim_start(s@),
{
    let n = s.unicode_len();
    let mut i: usize = 0;
    while i < n && is_whitespace_char(s.get_char(i))
        invariant
            n == s@.len(),
            i <= n,
            skip_ws(s@, 0) == skip_ws(s@, i as int),
        decreases n - i,
    {
        i = i + 1;
    }
    s.substring_char(i, n)
}

/// `s` without leading and trailing white space.
pub fn str_trim(s: &str) -> (r: &str)
    ensures
        r@ == trim(s@),
{
    let t = str_trim_start(s);
    let mut j = t.unicode_len();
    while j > 0 && is_whitespace_char(t.get_char(j - 1))
        invariant
            j <= t@.len(),
            trim_end_at(t@, t@.len() as int) == trim_end_at(t@, j as int),
        decreases j,
    {
        j = j - 1;
    }
    t.substring_char(0, j)
}

/// Position of the first `c` in `s`, if any.
pub fn str_find(s: &str, c: char) -> (r: Option<usize>)
    ensures
        match r {
            Some(i) => i == find_char(s@, c, 0),
            None => find_char(s@, c, 0) == -1,
        },
        r matches Some(i) ==> i < s@.len() && s@[i as int] == c,
{
    let n = s.unicode_len();
    let mut i: usize = 0;
    while i < n
        invariant
            n == s@.len(),
            i <= n,
            find_char(s@, c, 0) == find_char(s@, c, i as int),
        decreases n - i,
    {
        if s.get_char(i) == c {
            return Some(i);
        }
        i = i + 1;
    }
    None
}

/// Position of the first character of `s` that is not an ASCII digit, or its length.
pub fn str_digits_end(s: &str) -> (r: usize)
    ensures
        r == digits_end(s@, 0),
{
    let n = s.unicode_len();
    let mut i: usize = 0;
    while i < n && '0' <= s.get_char(i) && s.get_char(i) <= '9'
        invariant
            n == s@.len(),
            i <= n,
            digits_end(s@, 0) == digits_end(s@, i as int),
        decreases n - i,
    {
        i = i + 1;
    }
    i
}

proof fn lemma_piece_bytes(s: Seq<char>, a: int, b: int)
    requires
        0 <= a <= b <= s.len(),
    ensures
        crate::utf8_text::utf8(s.subrange(a, b)).len() <= crate::utf8_text::utf8(s).len(),
{
    let x = s.subrange(0, a);
    let y = s.subrange(a, b);
    let z = s.subrange(b, s.len() as int);
    assert(s =~= x + (y + z));
    crate::utf8_text::lemma_utf8_concat(x, y + z);
    crate::utf8_text::lemma_utf8_concat(y, z);
}

/// The lines of `s` (see `lines`).
pub fn str_lines(s: &str) -> (r: Vec<&str>)
    ensures
        r@.map_values(|l: &str| l@) == lines(s@),
        forall|j: int| 0 <= j < r@.len() ==> (#[trigger] r@[j]).spec_bytes().len() <= s.spec_bytes().len(),
{
    let mut r: Vec<&str> = Vec::new();
    let n = s.unicode_len();
    let mut start: usize = 0;
    proof {
        assert(s@.subrange(0, n as int) =~= s@);
    }
    while start < n
        invariant
            n == s@.len(),
            start <= n,
            r@.map_values(|l: &str| l@) + lines(s@.subrange(start as int, n as int)) == lines(s@),
            forall|j: int| 0 <= j < r@.len() ==> (#[trigger] r@[j]).spec_bytes().len() <= s.spec_bytes().len(),
        decreases n - start,
    {
        let ghost rest = s@.subrange(start as int, n as int);
        let mut i = start;
        while i < n && s.get_char(i) != '\n'
            invariant
                n == s@.len(),
                start <= i <= n,
                rest == s@.subrange(start as int, n as int),
                find_char(rest, '\n', 0) == find_char(rest, '\n', i - start),
            decreases n - i,
        {
            i = i + 1;
        }
        let mut end = i;
        if end > start && s.get_char(end - 1) == '\r' && i < n {
            end = end - 1;
        }
        let line = s.substring_char(start, end);
        proof {
            lemma_piece_bytes(s@, start as int, end as int);
            assert(line.spec_bytes() == crate::utf8_text::utf8(line@));
            assert(s.spec_bytes() == crate::utf8_text::utf8(s@));
        }
        let ghost before = r@;
        r.push(line);
        proof {
            if i < n {
                assert(find_char(rest, '\n', 0) == i - start);
                assert(strip_cr(rest.subrange(0, i - start)) =~= line@);
                assert(rest.subrange(i - start + 1, rest.len() as int) =~= s@.subrange(i + 1, n as int));
            } else {
                assert(find_char(rest, '\n', 0) == -1);
                assert(rest =~= line@);
            }
            assert(r@.map_values(|l: &str| l@) =~= before.map_values(|l: &str| l@).push(line@));
        }
        start = if i < n { i + 1 } else { n };
        proof {
            if i >= n {
                assert(s@.subrange(start as int, n as int) =~= Seq::<char>::empty());
            }
            assert(r@.map_values(|l: &str| l@) + lines(s@.subrange(start as int, n as int)) =~= lines(s@));
        }
    }
    proof {
        assert(r@.map_values(|l: &str| l@) + lines(s@.subrange(start as int, n as int)) =~= r@.map_values(|l: &str| l@));
    }
    r
}

} // verus!
