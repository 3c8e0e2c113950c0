//! Keys and modifier keys, and their names as they appear in the key binding configuration
//! (e.g. `C-q`, `M-left`, `S-F3`, `\x1b`).

use vstd::prelude::*;
use vstd::string::*;

verus! {

/// Modifier keys, as a set of bits. The values match the encoding in ANSI escape codes.
#[derive(Clone, Copy, PartialEq, Eq, Structural, Debug, Hash, PartialOrd, Ord)]
pub struct ModKeys {
    pub bits: u8,
}

impl ModKeys {
    /// Shift. For `Key::Char` it is usually built into the character instead ('E' is
    /// shift+e).
    pub fn shift() -> (r: ModKeys)
        ensures
            r.bits == 0x1,
    {
        ModKeys { bits: 0x1 }
    }

    /// Alt (or Meta).
    pub fn alt() -> (r: ModKeys)
        ensures
            r.bits == 0x2,
    {
        ModKeys { bits: 0x2 }
    }

    pub fn ctrl() -> (r: ModKeys)
        ensures
            r.bits == 0x4,
    {
        ModKeys { bits: 0x4 }
    }

    /// Matches any combination of modifier keys when capturing keys.
    pub fn any() -> (r: ModKeys)
        ensures
            r.bits == 0x8,
    {
        ModKeys { bits: 0x8 }
    }

    pub fn empty() -> (r: ModKeys)
        ensures
            r.bits == 0,
    {
        ModKeys { bits: 0 }
    }

    /// The set with the given bits, if they all name modifier keys.
    pub fn from_bits(bits: u8) -> (r: Option<ModKeys>)
        ensures
            r == (if bits < 16 { Some(ModKeys { bits }) } else { None::<ModKeys> }),
    {
        if bits < 16 {
            Some(ModKeys { bits })
        } else {
            None
        }
    }

    pub fn is_empty(&self) -> (r: bool)
        ensures
            r == (self.bits == 0),
    {
        self.bits == 0
    }

    pub fn contains(&self, other: ModKeys) -> (r: bool)
        ensures
            r == (self.bits & other.bits == other.bits),
    {
        self.bits & other.bits == other.bits
    }

    pub fn insert(&mut self, other: ModKeys)
        ensures
            final(self).bits == old(self).bits | other.bits,
    {
        self.bits = self.bits | other.bits;
    }
}

impl Default for ModKeys {
    fn default() -> (r: Self)
        ensures
            r.bits == 0,
    {
        ModKeys { bits: 0 }
    }
}

/// A key of the keyboard.
#[derive(Clone, Copy, Debug, PartialEq, Eq, Structural, Hash, Ord, PartialOrd)]
pub enum Key {
    Char(char),
    F(u8),
    Backspace,
    Escape,
    Up,
    Down,
    Right,
    Left,
    PageUp,
    PageDown,
    Home,
    End,
    Insert,
    Delete,
    /// Input that could not be decoded (its bytes are in `EventInfo::bytes`).
    Unknown,
}

/// A key together with the modifier keys held.
#[derive(Clone, Copy, Debug, PartialEq, Eq, Structural, Hash, Ord, PartialOrd)]
pub struct KeyEx {
    pub key: Key,
    pub mods: ModKeys,
}

impl Key {
    pub fn mods(self, mods: ModKeys) -> (r: KeyEx)
        ensures
            r == (KeyEx { key: self, mods }),
    {
        KeyEx { key: self, mods }
    }

    pub fn plain(self) -> (r: KeyEx)
        ensures
            r == (KeyEx { key: self, mods: ModKeys { bits: 0 } }),
    {
        KeyEx { key: self, mods: ModKeys { bits: 0 } }
    }

    pub fn ctrl(self) -> (r: KeyEx)
        ensures
            r == (KeyEx { key: self, mods: ModKeys { bits: 0x4 } }),
    {
        KeyEx { key: self, mods: ModKeys { bits: 0x4 } }
    }

    pub fn shift(self) -> (r: KeyEx)
        ensures
            r == (KeyEx { key: self, mods: ModKeys { bits: 0x1 } }),
    {
        KeyEx { key: self, mods: ModKeys { bits: 0x1 } }
    }

    pub fn alt(self) -> (r: KeyEx)
        ensures
            r == (KeyEx { key: self, mods: ModKeys { bits: 0x2 } }),
    {
        KeyEx { key: self, mods: ModKeys { bits: 0x2 } }
    }

    pub fn any_mods(self) -> (r: KeyEx)
        ensures
            r == (KeyEx { key: self, mods: ModKeys { bits: 0x8 } }),
    {
        KeyEx { key: self, mods: ModKeys { bits: 0x8 } }
    }

    /// A character key other than tab, enter and carriage return.
    pub fn is_ordinary_char(self) -> (r: bool)
        ensures
            r == (match self {
                Key::Char(c) => c != '\t' && c != '\n' && c != '\r',
                _ => false,
            }),
    {
        match self {
            Key::Char(c) => c != '\t' && c != '\n' && c != '\r',
            _ => false,
        }
    }

    pub fn is_arrow_key(self) -> (r: bool)
        ensures
            r == (self is Left || self is Right || self is Up || self is Down),
    {
        match self {
            Key::Left | Key::Right | Key::Up | Key::Down => true,
            _ => false,
        }
    }
}

/// Value of a decimal or hexadecimal digit character, if it is one in the given radix.
pub open spec fn digit_value(c: char, radix: nat) -> Option<nat> {
    if '0' <= c <= '9' && (c as nat) - 48 < radix {
        Some((c as nat - 48) as nat)
    } else if radix == 16 && 'a' <= c <= 'f' {
        Some((c as nat - 87) as nat)
    } else if radix == 16 && 'A' <= c <= 'F' {
        Some((c as nat - 55) as nat)
    } else {
        None
    }
}

/// Value of a string of digits in the given radix (0 for the empty string), if every
/// character is a digit.
pub open spec fn digits_value(s: Seq<char>, radix: nat) -> Option<nat>
    decreases s.len(),
{
    if s.len() == 0 {
        Some(0)
    } else {
        match (digits_value(s.drop_last(), radix), digit_value(s.last(), radix)) {
            (Some(p), Some(d)) => Some(p * radix + d),
            _ => None,
        }
    }
}

/// How Rust parses an unsigned integer of maximum `max` from a string in the given radix: an
/// optional `+` followed by at least one digit, with a value not above `max`.
pub open spec fn parse_unsigned(s: Seq<char>, radix: nat, max: nat) -> Option<nat> {
    let d = if s.len() > 0 && s[0] == '+' { s.drop_first() } else { s };
    if d.len() == 0 {
        None
    } else {
        match digits_value(d, radix) {
            Some(v) => if v <= max { Some(v) } else { None },
            None => None,
        }
    }
}

/// Decimal digits of `n`.
pub open spec fn dec_chars(n: nat) -> Seq<char>
    decreases n,
{
    if n < 10 {
        seq![(48 + n) as char]
    } else {
        dec_chars(n / 10).push((48 + n % 10) as char)
    }
}

/// Lowercase hexadecimal digit.
pub open spec fn hex_digit(d: nat) -> char {
    if d < 10 { (48 + d) as char } else { (87 + d) as char }
}

/// Lowercase hexadecimal digits of `n`.
pub open spec fn hex_chars(n: nat) -> Seq<char>
    decreases n,
{
    if n < 16 {
        seq![hex_digit(n)]
    } else {
        hex_chars(n / 16).push(hex_digit(n % 16))
    }
}

/// Lowercase hexadecimal digits of `n`, at least two of them.
pub open spec fn hex2_chars(n: nat) -> Seq<char> {
    if n < 16 { seq![hex_digit(0), hex_digit(n)] } else { hex_chars(n) }
}

/// A printable ASCII character (not a control character).
pub open spec fn is_printable_ascii(c: char) -> bool {
    (c as u32) < 128 && (c as u32) >= 32 && (c as u32) != 127
}

/// The name of a key in the configuration file.
pub open spec fn key_name(k: Key) -> Seq<char> {
    match k {
        Key::Left => "left"@,
        Key::Right => "right"@,
        Key::Up => "up"@,
        Key::Down => "down"@,
        Key::Insert => "ins"@,
        Key::Delete => "del"@,
        Key::Home => "home"@,
        Key::End => "end"@,
        Key::PageUp => "pageup"@,
        Key::PageDown => "pagedown"@,
        Key::Backspace => "backspace"@,
        Key::Escape => "esc"@,
        Key::F(n) => seq!['F'] + dec_chars(n as nat),
        Key::Char(c) => if c == '\n' {
            "enter"@
        } else if c == '\t' {
            "tab"@
        } else if c == ' ' {
            "space"@
        } else if is_printable_ascii(c) {
            seq![c]
        } else {
            seq!['\\', 'x'] + hex2_chars(c as nat)
        },
        Key::Unknown => "unknown"@,
    }
}

/// The name of a key with modifiers: `C-` for ctrl, `M-` for alt, `S-` for shift, `?-` for
/// any modifiers, in that order, then the key's name.
pub open spec fn key_ex_name(k: KeyEx) -> Seq<char> {
    (if k.mods.bits & 0x4 == 0x4 { seq!['C', '-'] } else { seq![] }) + (if k.mods.bits & 0x2
        == 0x2 {
        seq!['M', '-']
    } else {
        seq![]
    }) + (if k.mods.bits & 0x1 == 0x1 { seq!['S', '-'] } else { seq![] }) + (if k.mods.bits & 0x8
        == 0x8 {
        seq!['?', '-']
    } else {
        seq![]
    }) + key_name(k.key)
}

/// The key named `s`, if any: a single character names itself; otherwise the names of
/// `key_name`, `F<number>`, or `\x<hex code>`.
pub open spec fn parse_key(s: Seq<char>) -> Option<Key> {
    if s.len() == 0 {
        None
    } else if s.len() == 1 {
        Some(Key::Char(s[0]))
    } else if !vstd::utf8::is_ascii_chars(s) {
        None
    } else if s == "left"@ {
        Some(Key::Left)
    } else if s == "right"@ {
        Some(Key::Right)
    } else if s == "up"@ {
        Some(Key::Up)
    } else if s == "down"@ {
        Some(Key::Down)
    } else if s == "ins"@ {
        Some(Key::Insert)
    } else if s == "del"@ {
        Some(Key::Delete)
    } else if s == "home"@ {
        Some(Key::Home)
    } else if s == "end"@ {
        Some(Key::End)
    } else if s == "pageup"@ {
        Some(Key::PageUp)
    } else if s == "pagedown"@ {
        Some(Key::PageDown)
    } else if s == "backspace"@ {
        Some(Key::Backspace)
    } else if s == "esc"@ {
        Some(Key::Escape)
    } else if s == "enter"@ {
        Some(Key::Char('\n'))
    } else if s == "tab"@ {
        Some(Key::Char('\t'))
    } else if s == "space"@ {
        Some(Key::Char(' '))
    } else if s[0] == 'F' {
        match parse_unsigned(s.drop_first(), 10, 255) {
            Some(n) => Some(Key::F(n as u8)),
            None => None,
        }
    } else if s[0] == '\\' && s[1] == 'x' {
        match parse_unsigned(s.subrange(2, s.len() as int), 16, 0xffff_ffff) {
            Some(n) => if char_code_valid(n) { Some(Key::Char((n as u32) as char)) } else { None },
            None => None,
        }
    } else {
        None
    }
}

/// Whether `n` is the code of a `char` (a Unicode scalar value).
pub open spec fn char_code_valid(n: nat) -> bool {
    n <= 0xD7FF || (0xE000 <= n <= 0x10FFFF)
}

/// Modifier prefixes (`C-`, `M-`, `S-`, each at most once) at the start of `s`, added to
/// `mods`; the rest of `s` after them. None if a prefix repeats.
pub open spec fn parse_mod_prefixes(s: Seq<char>, mods: u8) -> Option<(u8, Seq<char>)>
    decreases s.len(),
{
    if s.len() >= 2 && s[1] == '-' && (s[0] == 'C' || s[0] == 'M' || s[0] == 'S') {
        let bit: u8 = if s[0] == 'C' { 0x4 } else if s[0] == 'M' { 0x2 } else { 0x1 };
        if mods & bit == bit {
            None
        } else {
            parse_mod_prefixes(s.subrange(2, s.len() as int), mods | bit)
        }
    } else {
        Some((mods, s))
    }
}

/// The key with modifiers named `s`, if any.
pub open spec fn parse_key_ex(s: Seq<char>) -> Option<KeyEx> {
    match parse_mod_prefixes(s, 0) {
        Some((mods, rest)) => match parse_key(rest) {
            Some(k) => Some(KeyEx { key: k, mods: ModKeys { bits: mods } }),
            None => None,
        },
        None => None,
    }
}

/// Calls `String::push`: appends one character.
#[verifier::external_body]
fn string_push(s: &mut String, c: char)
    ensures
        final(s)@ == old(s)@.push(c),
{
    s.push(c)
}

/// Calls `char::from_u32`: the character with the given code, if it is a Unicode scalar value.
#[verifier::external_body]
fn char_from_code(n: u32) -> (r: Option<char>)
    ensures
        r == (if char_code_valid(n as nat) { Some(n as char) } else { None::<char> }),
{
    char::from_u32(n)
}

/// Whether the strings are equal.
pub fn str_eq(s: &str, t: &str) -> (r: bool)
    ensures
        r == (s@ == t@),
{
    let n = s.unicode_len();
    if n != t.unicode_len() {
        return false;
    }
    let mut i: usize = 0;
    while i < n
        invariant
            n == s@.len(),
            n == t@.len(),
            i <= n,
            forall|j: int| 0 <= j < i ==> s@[j] == t@[j],
        decreases n - i,
    {
        if s.get_char(i) != t.get_char(i) {
            return false;
        }
        i = i + 1;
    }
    proof {
        assert(s@ =~= t@);
    }
    true
}

proof fn lemma_digits_value_grows(s: Seq<char>, radix: nat, i: int)
    requires
        0 <= i <= s.len(),
        radix >= 1,
        digits_value(s, radix) is Some,
    ensures
        digits_value(s.subrange(0, i), radix) is Some,
        digits_value(s.subrange(0, i), radix).unwrap() <= digits_value(s, radix).unwrap(),
    decreases s.len() - i,
{
    if i == s.len() {
        assert(s.subrange(0, i) =~= s);
    } else {
        assert(s.drop_last() =~= s.subrange(0, s.len() - 1));
        lemma_digits_value_grows(s.drop_last(), radix, i);
        assert(s.drop_last().subrange(0, i) =~= s.subrange(0, i));
        let p = digits_value(s.drop_last(), radix).unwrap();
        let d = digit_value(s.last(), radix).unwrap();
        assert(p <= p * radix + d) by (nonlinear_arith)
            requires
                radix >= 1,
        ;
    }
}

/// Rust's parsing of an unsigned integer not above `max` in the given radix.
fn parse_unsigned_exec(s: &str, radix: u32, max: u32) -> (r: Option<u32>)
    requires
        radix == 10 || radix == 16,
    ensures
        r == (match parse_unsigned(s@, radix as nat, max as nat) {
            Some(v) => Some(v as u32),
            None => None::<u32>,
        }),
{
    let n = s.unicode_len();
    let mut i: usize = 0;
    if n > 0 && s.get_char(0) == '+' {
        i = 1;
    }
    let ghost d = if s@.len() > 0 && s@[0] == '+' { s@.drop_first() } else { s@ };
    if i == n {
        return None;
    }
    let i0 = i;
    let mut v: u64 = 0;
    proof {
        assert(d.subrange(0, 0) =~= Seq::<char>::empty());
        if s@.len() > 0 && s@[0] == '+' {
            assert(d =~= s@.subrange(1, n as int));
        } else {
            assert(d =~= s@.subrange(0, n as int));
        }
    }
    while i < n
        invariant
            n == s@.len(),
            i0 <= i <= n,
            i0 == s@.len() - d.len(),
            d == s@.subrange(i0 as int, n as int),
            d == (if s@.len() > 0 && s@[0] == '+' { s@.drop_first() } else { s@ }),
            d.len() > 0,
            radix == 10 || radix == 16,
            digits_value(d.subrange(0, i - i0), radix as nat) == Some(v as nat),
            v <= max,
        decreases n - i,
    {
        let c = s.get_char(i);
        let dv: u64 = if '0' <= c && c <= '9' && (c as u32) - 48 < radix {
            (c as u32 - 48) as u64
        } else if radix == 16 && 'a' <= c && c <= 'f' {
            (c as u32 - 87) as u64
        } else if radix == 16 && 'A' <= c && c <= 'F' {
            (c as u32 - 55) as u64
        } else {
            proof {
                let dd = d.subrange(0, i + 1 - i0);
                assert(dd.drop_last() =~= d.subrange(0, i - i0));
                assert(c == s@[i as int]);
                assert(dd.last() == c);
                assert(digit_value(c, radix as nat) is None);
                assert(digits_value(dd, radix as nat) is None);
                if digits_value(d, radix as nat) is Some {
                    lemma_digits_value_grows(d, radix as nat, i + 1 - i0);
                }
            }
            return None;
        };
        proof {
            assert(v * (radix as u64) + dv <= 0xffff_ffffu64 * 16 + 15) by (nonlinear_arith)
                requires
                    v <= 0xffff_ffffu64,
                    radix <= 16,
                    dv <= 15,
            ;
        }
        let nv = v * (radix as u64) + dv;
        proof {
            assert(c == s@[i as int]);
            let dd = d.subrange(0, i + 1 - i0);
            assert(dd.drop_last() =~= d.subrange(0, i - i0));
            assert(dd.last() == c);
        }
        if nv > max as u64 {
            proof {
                if digits_value(d, radix as nat) is Some {
                    lemma_digits_value_grows(d, radix as nat, i + 1 - i0);
                }
            }
            return None;
        }
        v = nv;
        i = i + 1;
    }
    proof {
        assert(d.subrange(0, n - i0) =~= d);
    }
    Some(v as u32)
}

impl Key {
    /// The key named `s` (see `parse_key`); `Err` if `s` names no key.
    pub fn from_name(s: &str) -> (r: Result<Key, ()>)
        ensures
            r == (match parse_key(s@) {
                Some(k) => Ok::<Key, ()>(k),
                None => Err(()),
            }),
    {
        let n = s.unicode_len();
        if n == 0 {
            return Err(());
        }
        if n == 1 {
            return Ok(Key::Char(s.get_char(0)));
        }
        if !s.is_ascii() {
            return Err(());
        }
        if str_eq(s, "left") { return Ok(Key::Left); }
        if str_eq(s, "right") { return Ok(Key::Right); }
        if str_eq(s, "up") { return Ok(Key::Up); }
        if str_eq(s, "down") { return Ok(Key::Down); }
        if str_eq(s, "ins") { return Ok(Key::Insert); }
        if str_eq(s, "del") { return Ok(Key::Delete); }
        if str_eq(s, "home") { return Ok(Key::Home); }
        if str_eq(s, "end") { return Ok(Key::End); }
        if str_eq(s, "pageup") { return Ok(Key::PageUp); }
        if str_eq(s, "pagedown") { return Ok(Key::PageDown); }
        if str_eq(s, "backspace") { return Ok(Key::Backspace); }
        if str_eq(s, "esc") { return Ok(Key::Escape); }
        if str_eq(s, "enter") { return Ok(Key::Char('\n')); }
        if str_eq(s, "tab") { return Ok(Key::Char('\t')); }
        if str_eq(s, "space") { return Ok(Key::Char(' ')); }
        if s.get_char(0) == 'F' {
            let rest = s.substring_char(1, n);
            proof {
                assert(rest@ =~= s@.drop_first());
            }
            return match parse_unsigned_exec(rest, 10, 255) {
                Some(v) => Ok(Key::F(v as u8)),
                None => Err(()),
            };
        }
        if s.get_char(0) == '\\' && s.get_char(1) == 'x' {
            let rest = s.substring_char(2, n);
            return match parse_unsigned_exec(rest, 16, 0xffff_ffff) {
                Some(v) => match char_from_code(v) {
                    Some(c) => Ok(Key::Char(c)),
                    None => Err(()),
                },
                None => Err(()),
            };
        }
        Err(())
    }
}

impl std::str::FromStr for Key {
    type Err = ();

    fn from_str(s: &str) -> (r: Result<Key, ()>)
        ensures
            r == (match parse_key(s@) {
                Some(k) => Ok::<Key, ()>(k),
                None => Err(()),
            }),
    {
        Key::from_name(s)
    }
}

/// Appends the decimal digits of `n`.
pub(crate) fn push_dec_chars_u64(s: &mut String, n: u64)
    ensures
        final(s)@ == old(s)@ + dec_chars(n as nat),
    decreases n,
{
    if n >= 10 {
        push_dec_chars_u64(s, n / 10);
    }
    let d: u8 = (n % 10) as u8;
    string_push(s, (48u8 + d) as char);
    proof {
        assert(old(s)@ + dec_chars(n as nat) =~= s@);
    }
}

fn push_dec_chars(s: &mut String, n: u32)
    ensures
        final(s)@ == old(s)@ + dec_chars(n as nat),
    decreases n,
{
    if n >= 10 {
        push_dec_chars(s, n / 10);
    }
    let d: u8 = (n % 10) as u8;
    string_push(s, (48u8 + d) as char);
    proof {
        assert(old(s)@ + dec_chars(n as nat) =~= s@);
    }
}

fn hex_digit_char(d: u32) -> (c: char)
    requires
        d < 16,
    ensures
        c == hex_digit(d as nat),
{
    let b: u8 = d as u8;
    if d < 10 {
        (48u8 + b) as char
    } else {
        (87u8 + b) as char
    }
}

fn push_hex_chars(s: &mut String, n: u32)
    ensures
        final(s)@ == old(s)@ + hex_chars(n as nat),
    decreases n,
{
    if n >= 16 {
        push_hex_chars(s, n / 16);
    }
    string_push(s, hex_digit_char(n % 16));
    proof {
        assert(old(s)@ + hex_chars(n as nat) =~= s@);
    }
}

impl Key {
    /// The name of the key in the configuration file (see `key_name`).
    pub fn name(&self) -> (r: String)
        ensures
            r@ == key_name(*self),
    {
        match *self {
            Key::Left => "left".to_owned(),
            Key::Right => "right".to_owned(),
            Key::Up => "up".to_owned(),
            Key::Down => "down".to_owned(),
            Key::Insert => "ins".to_owned(),
            Key::Delete => "del".to_owned(),
            Key::Home => "home".to_owned(),
            Key::End => "end".to_owned(),
            Key::PageUp => "pageup".to_owned(),
            Key::PageDown => "pagedown".to_owned(),
            Key::Backspace => "backspace".to_owned(),
            Key::Escape => "esc".to_owned(),
            Key::F(n) => {
                let mut r = "F".to_owned();
                proof {
                    reveal_strlit("F");
                    assert("F"@ =~= seq!['F']);
                }
                push_dec_chars(&mut r, n as u32);
                r
            },
            Key::Char(c) => {
                if c == '\n' {
                    "enter".to_owned()
                } else if c == '\t' {
                    "tab".to_owned()
                } else if c == ' ' {
                    "space".to_owned()
                } else if (c as u32) < 128 && (c as u32) >= 32 && (c as u32) != 127 {
                    let mut r = String::new();
                    string_push(&mut r, c);
                    proof {
                        assert(r@ =~= seq![c]);
                    }
                    r
                } else {
                    let mut r = "\\x".to_owned();
                    proof {
                        reveal_strlit("\\x");
                        assert("\\x"@ =~= seq!['\\', 'x']);
                    }
                    let code = c as u32;
                    if code < 16 {
                        string_push(&mut r, hex_digit_char(0));
                        string_push(&mut r, hex_digit_char(code));
                        proof {
                            assert(r@ =~= seq!['\\', 'x'] + hex2_chars(code as nat));
                        }
                    } else {
                        push_hex_chars(&mut r, code);
                    }
                    r
                }
            },
            Key::Unknown => "unknown".to_owned(),
        }
    }
}

impl KeyEx {
    /// The name of the key with its modifiers (see `key_ex_name`).
    pub fn name(&self) -> (r: String)
        ensures
            r@ == key_ex_name(*self),
    {
        let mut r = String::new();
        let ghost s0 = r@;
        if self.mods.contains(ModKeys::ctrl()) {
            string_push(&mut r, 'C');
            string_push(&mut r, '-');
        }
        let ghost s1 = r@;
        if self.mods.contains(ModKeys::alt()) {
            string_push(&mut r, 'M');
            string_push(&mut r, '-');
        }
        let ghost s2 = r@;
        if self.mods.contains(ModKeys::shift()) {
            string_push(&mut r, 'S');
            string_push(&mut r, '-');
        }
        let ghost s3 = r@;
        if self.mods.contains(ModKeys::any()) {
            string_push(&mut r, '?');
            string_push(&mut r, '-');
        }
        let ghost s4 = r@;
        let k = self.key.name();
        r.append(k.as_str());
        proof {
            let m = self.mods.bits;
            assert(s1 =~= (if m & 0x4 == 0x4 { seq!['C', '-'] } else { Seq::<char>::empty() }));
            assert(s2 =~= s1 + (if m & 0x2 == 0x2 { seq!['M', '-'] } else { Seq::<char>::empty() }));
            assert(s3 =~= s2 + (if m & 0x1 == 0x1 { seq!['S', '-'] } else { Seq::<char>::empty() }));
            assert(s4 =~= s3 + (if m & 0x8 == 0x8 { seq!['?', '-'] } else { Seq::<char>::empty() }));
            assert(r@ =~= key_ex_name(*self));
        }
        r
    }

    /// The key with modifiers named `s` (see `parse_key_ex`); `Err` if `s` names none.
    pub fn from_name(s: &str) -> (r: Result<KeyEx, ()>)
        ensures
            r == (match parse_key_ex(s@) {
                Some(k) => Ok::<KeyEx, ()>(k),
                None => Err(()),
            }),
    {
        let mut mods = ModKeys::empty();
        let mut rest = s;
        loop
            invariant
                parse_mod_prefixes(s@, 0) == parse_mod_prefixes(rest@, mods.bits),
            ensures
                parse_mod_prefixes(s@, 0) == Some((mods.bits, rest@)),
            decreases rest@.len(),
        {
            let n = rest.unicode_len();
            if n >= 2 && rest.get_char(1) == '-' {
                let c0 = rest.get_char(0);
                let bit = if c0 == 'C' {
                    ModKeys::ctrl()
                } else if c0 == 'M' {
                    ModKeys::alt()
                } else if c0 == 'S' {
                    ModKeys::shift()
                } else {
                    break;
                };
                if mods.contains(bit) {
                    return Err(());
                }
                mods.insert(bit);
                rest = rest.substring_char(2, n);
            } else {
                break;
            }
        }
        match Key::from_name(rest) {
            Ok(k) => Ok(KeyEx { key: k, mods }),
            Err(()) => Err(()),
        }
    }
}

impl std::str::FromStr for KeyEx {
    type Err = ();

    fn from_str(s: &str) -> (r: Result<KeyEx, ()>)
        ensures
            r == (match parse_key_ex(s@) {
                Some(k) => Ok::<KeyEx, ()>(k),
                None => Err(()),
            }),
    {
        KeyEx::from_name(s)
    }
}

proof fn lemma_dec_chars(n: nat)
    ensures
        digits_value(dec_chars(n), 10) == Some(n),
        dec_chars(n).len() >= 1,
        forall|i: int| 0 <= i < dec_chars(n).len() ==> '0' <= #[trigger] dec_chars(n)[i] <= '9',
    decreases n,
{
    let c = (48 + n % 10) as char;
    assert(c as nat == 48 + n % 10);
    assert(digit_value(c, 10) == Some(n % 10));
    if n >= 10 {
        lemma_dec_chars(n / 10);
        let s = dec_chars(n);
        assert(s.drop_last() =~= dec_chars(n / 10));
        assert(s.last() == c);
        assert((n / 10) * 10 + n % 10 == n);
        assert(digits_value(s, 10) == Some((n / 10) * 10 + n % 10));
    } else {
        let s = dec_chars(n);
        assert(s.drop_last() =~= Seq::<char>::empty());
        assert(s.last() == c);
        assert(digits_value(s.drop_last(), 10) == Some(0nat));
        assert(n % 10 == n);
    }
}

proof fn lemma_hex_chars(n: nat)
    ensures
        digits_value(hex_chars(n), 16) == Some(n),
        hex_chars(n).len() >= 1,
        forall|i: int| 0 <= i < hex_chars(n).len() ==> '0' <= #[trigger] hex_chars(n)[i] <= 'f',
    decreases n,
{
    lemma_hex_digit(n % 16);
    let s = hex_chars(n);
    if n >= 16 {
        lemma_hex_chars(n / 16);
        assert(s.drop_last() =~= hex_chars(n / 16));
        assert(s.last() == hex_digit(n % 16));
        assert((n / 16) * 16 + n % 16 == n);
        assert(digits_value(s, 16) == Some(n));
        assert forall|i: int| 0 <= i < s.len() implies '0' <= #[trigger] s[i] <= 'f' by {
            if i < s.len() - 1 {
                assert(s[i] == hex_chars(n / 16)[i]);
            }
        }
    } else {
        assert(n % 16 == n);
        assert(s.drop_last() =~= Seq::<char>::empty());
        assert(digits_value(s.drop_last(), 16) == Some(0nat));
        assert(s.last() == hex_digit(n));
        assert(digits_value(s, 16) == Some(n));
    }
}

proof fn lemma_hex2_chars(n: nat)
    ensures
        digits_value(hex2_chars(n), 16) == Some(n),
        hex2_chars(n).len() >= 2,
        forall|i: int| 0 <= i < hex2_chars(n).len() ==> '0' <= #[trigger] hex2_chars(n)[i] <= 'f',
{
    lemma_hex_digit(n % 16);
    lemma_hex_digit(0);
    if n < 16 {
        let s = hex2_chars(n);
        assert(n % 16 == n);
        let t = s.drop_last();
        assert(t =~= seq![hex_digit(0)]);
        assert(t.drop_last() =~= Seq::<char>::empty());
        assert(digits_value(t.drop_last(), 16) == Some(0nat));
        assert(t.last() == hex_digit(0));
        assert(digits_value(t, 16) == Some(0nat));
        assert(s.last() == hex_digit(n));
        assert(digits_value(s, 16) == Some(n));
    } else {
        lemma_hex_chars(n);
        lemma_hex_chars(n / 16);
        assert(hex_chars(n).drop_last() =~= hex_chars(n / 16));
    }
}

proof fn lemma_hex_digit(d: nat)
    requires
        d < 16,
    ensures
        digit_value(hex_digit(d), 16) == Some(d),
        '0' <= hex_digit(d) <= 'f',
{
    if d < 10 {
        assert(((48 + d) as char) as nat == 48 + d);
    } else {
        assert(((87 + d) as char) as nat == 87 + d);
    }
}

/// Every key except `Unknown` is read back from its name: the configuration file that
/// lists keys by name reads them back unchanged.
pub proof fn lemma_key_name_roundtrip(k: Key)
    requires
        k != Key::Unknown,
    ensures
        parse_key(key_name(k)) == Some(k),
{
    reveal_strlit("left");
    reveal_strlit("right");
    reveal_strlit("up");
    reveal_strlit("down");
    reveal_strlit("ins");
    reveal_strlit("del");
    reveal_strlit("home");
    reveal_strlit("end");
    reveal_strlit("pageup");
    reveal_strlit("pagedown");
    reveal_strlit("backspace");
    reveal_strlit("esc");
    reveal_strlit("enter");
    reveal_strlit("tab");
    reveal_strlit("space");
    let s = key_name(k);
    match k {
        Key::F(n) => {
            lemma_dec_chars(n as nat);
            let d = dec_chars(n as nat);
            assert(s.drop_first() =~= d);
            assert(s[0] == 'F');
            assert(vstd::utf8::is_ascii_chars(s)) by {
                assert forall|i: int| 0 <= i < s.len() implies '\0' <= #[trigger] s[i] <= '\u{7f}' by {
                    if i > 0 {
                        assert(s[i] == d[i - 1]);
                    }
                }
            }
            assert(s != "left"@ && s != "right"@ && s != "up"@ && s != "down"@ && s != "ins"@);
            assert(s != "del"@ && s != "home"@ && s != "end"@ && s != "pageup"@ && s != "pagedown"@);
            assert(s != "backspace"@ && s != "esc"@ && s != "enter"@ && s != "tab"@ && s != "space"@);
        },
        Key::Char(c) => {
            if c == '\n' || c == '\t' || c == ' ' || is_printable_ascii(c) {
            } else {
                let h = hex2_chars(c as nat);
                lemma_hex2_chars(c as nat);
                assert(s.subrange(2, s.len() as int) =~= h);
                assert(s[0] == '\\' && s[1] == 'x');
                assert(vstd::utf8::is_ascii_chars(s)) by {
                    assert forall|i: int| 0 <= i < s.len() implies '\0' <= #[trigger] s[i] <= '\u{7f}' by {
                        if i >= 2 {
                            assert(s[i] == h[i - 2]);
                            assert('0' <= h[i - 2] <= 'f');
                        } else {
                            assert(s[i] == '\\' || s[i] == 'x');
                        }
                    }
                }
                assert(s.subrange(2, s.len() as int)[0] != '+');
                assert(s != "left"@ && s != "right"@ && s != "up"@ && s != "down"@ && s != "ins"@);
                assert(s != "del"@ && s != "home"@ && s != "end"@ && s != "pageup"@ && s != "pagedown"@);
                assert(s != "backspace"@ && s != "esc"@ && s != "enter"@ && s != "tab"@ && s != "space"@);
                assert(c as nat <= 0xffff_ffff);
                assert(char_code_valid(c as nat)) by {
                    assert(vstd::utf8::is_scalar(c as u32));
                }
            }
        },
        _ => {},
    }
}

/// A key with ctrl, alt and shift modifiers (not the "any" wildcard), other than `Unknown`,
/// is read back from its name.
pub proof fn lemma_key_ex_name_roundtrip(k: KeyEx)
    requires
        k.key != Key::Unknown,
        k.mods.bits < 8,
    ensures
        parse_key_ex(key_ex_name(k)) == Some(k),
{
    lemma_key_name_roundtrip(k.key);
    let m = k.mods.bits;
    let kn = key_name(k.key);
    let c = if m & 0x4 == 0x4 { seq!['C', '-'] } else { Seq::<char>::empty() };
    let a = if m & 0x2 == 0x2 { seq!['M', '-'] } else { Seq::<char>::empty() };
    let sh = if m & 0x1 == 0x1 { seq!['S', '-'] } else { Seq::<char>::empty() };
    assert(m & 0x8 != 0x8) by (bit_vector)
        requires
            m < 8,
    ;
    assert(key_ex_name(k) =~= c + (a + (sh + kn)));
    lemma_key_name_no_prefix(k.key);
    let m1: u8 = if m & 0x4 == 0x4 { 0x4 } else { 0 };
    let m2: u8 = m1 | (if m & 0x2 == 0x2 { 0x2u8 } else { 0 });
    let m3: u8 = m2 | (if m & 0x1 == 0x1 { 0x1u8 } else { 0 });
    assert(m3 == m && m1 & 0x2 != 0x2 && m2 & 0x1 != 0x1 && (m1 == 0 || m1 == 4)
        && (0u8 | 0x4u8) == 0x4u8 && (m1 | 0u8) == m1 && (m2 | 0u8) == m2) by (bit_vector)
        requires
            m < 8,
            m1 == (if m & 0x4 == 0x4 { 0x4u8 } else { 0 }),
            m2 == m1 | (if m & 0x2 == 0x2 { 0x2u8 } else { 0 }),
            m3 == m2 | (if m & 0x1 == 0x1 { 0x1u8 } else { 0 }),
    ;
    assert(parse_mod_prefixes(kn, m3) == Some((m3, kn)));
    assert(parse_mod_prefixes(sh + kn, m2) == Some((m3, kn))) by {
        if m & 0x1 == 0x1 {
            assert((sh + kn).subrange(2, (sh + kn).len() as int) =~= kn);
            assert((sh + kn)[0] == 'S' && (sh + kn)[1] == '-');
        } else {
            assert(sh + kn =~= kn);
        }
    }
    assert(parse_mod_prefixes(a + (sh + kn), m1) == Some((m3, kn))) by {
        if m & 0x2 == 0x2 {
            assert((a + (sh + kn)).subrange(2, (a + (sh + kn)).len() as int) =~= sh + kn);
            assert(m1 & 0x2 != 0x2);
        } else {
            assert(a + (sh + kn) =~= sh + kn);
            if m & 0x1 == 0x1 {
            } else {
            }
        }
    }
    assert(parse_mod_prefixes(c + (a + (sh + kn)), 0) == Some((m3, kn))) by {
        if m & 0x4 == 0x4 {
            assert((c + (a + (sh + kn))).subrange(2, (c + (a + (sh + kn))).len() as int) =~= a + (sh + kn));
            assert(0u8 & 0x4u8 != 0x4u8) by (bit_vector);
        } else {
            assert(c + (a + (sh + kn)) =~= a + (sh + kn));
        }
    }
}

/// A key name never starts with a modifier prefix.
proof fn lemma_key_name_no_prefix(k: Key)
    ensures
        !(key_name(k).len() >= 2 && key_name(k)[1] == '-' && (key_name(k)[0] == 'C' || key_name(k)[0] == 'M' || key_name(k)[0] == 'S')),
{
    reveal_strlit("left");
    reveal_strlit("right");
    reveal_strlit("up");
    reveal_strlit("down");
    reveal_strlit("ins");
    reveal_strlit("del");
    reveal_strlit("home");
    reveal_strlit("end");
    reveal_strlit("pageup");
    reveal_strlit("pagedown");
    reveal_strlit("backspace");
    reveal_strlit("esc");
    reveal_strlit("enter");
    reveal_strlit("tab");
    reveal_strlit("space");
    reveal_strlit("unknown");
}


/// A key's name holds no line break.
pub proof fn lemma_key_ex_name_one_line(k: KeyEx)
    ensures
        forall|i: int| 0 <= i < key_ex_name(k).len() ==> #[trigger] key_ex_name(k)[i] != '\n',
{
    reveal_strlit("backspace");
    reveal_strlit("del");
    reveal_strlit("down");
    reveal_strlit("end");
    reveal_strlit("enter");
    reveal_strlit("esc");
    reveal_strlit("home");
    reveal_strlit("ins");
    reveal_strlit("left");
    reveal_strlit("pagedown");
    reveal_strlit("pageup");
    reveal_strlit("right");
    reveal_strlit("space");
    reveal_strlit("tab");
    reveal_strlit("unknown");
    reveal_strlit("up");
    let name = key_name(k.key);
    match k.key {
        Key::F(n) => {
            lemma_dec_chars(n as nat);
            assert forall|i: int| 0 <= i < name.len() implies name[i] != '\n' by {
                if i > 0 {
                    assert(name[i] == dec_chars(n as nat)[i - 1]);
                }
            }
        },
        Key::Char(c) => {
            if c != '\n' && c != '\t' && c != ' ' && !is_printable_ascii(c) {
                lemma_hex2_chars(c as nat);
                assert forall|i: int| 0 <= i < name.len() implies name[i] != '\n' by {
                    if i > 1 {
                        assert(name[i] == hex2_chars(c as nat)[i - 2]);
                    }
                }
            }
        },
        _ => {},
    }
    assert(forall|i: int| 0 <= i < name.len() ==> name[i] != '\n');
    let m = k.mods.bits;
    let p1: Seq<char> = if m & 0x4 == 0x4 { seq!['C', '-'] } else { seq![] };
    let p2: Seq<char> = if m & 0x2 == 0x2 { seq!['M', '-'] } else { seq![] };
    let p3: Seq<char> = if m & 0x1 == 0x1 { seq!['S', '-'] } else { seq![] };
    let p4: Seq<char> = if m & 0x8 == 0x8 { seq!['?', '-'] } else { seq![] };
    let pre = p1 + p2 + p3 + p4;
    assert forall|i: int| 0 <= i < pre.len() implies pre[i] != '\n' by {
        if i < p1.len() {
            assert(pre[i] == p1[i]);
        } else if i < p1.len() + p2.len() {
            assert(pre[i] == p2[i - p1.len()]);
        } else if i < p1.len() + p2.len() + p3.len() {
            assert(pre[i] == p3[i - p1.len() - p2.len()]);
        } else {
            assert(pre[i] == p4[i - p1.len() - p2.len() - p3.len()]);
        }
    }
    assert(key_ex_name(k) == pre + name);
    assert forall|i: int| 0 <= i < key_ex_name(k).len() implies #[trigger] key_ex_name(k)[i] != '\n' by {
        if i < pre.len() {
            assert(key_ex_name(k)[i] == pre[i]);
        } else {
            assert(key_ex_name(k)[i] == name[i - pre.len()]);
        }
    }
}


/// The names of the named keys are fixed: each key is written, and read back from, its own
/// name (`ins` is Insert, `del` is Delete, `pageup` is PageUp, and so on).
pub proof fn lemma_key_names_fixed()
    ensures
        key_name(Key::Left) == "left"@,
        key_name(Key::Right) == "right"@,
        key_name(Key::Up) == "up"@,
        key_name(Key::Down) == "down"@,
        key_name(Key::Insert) == "ins"@,
        key_name(Key::Delete) == "del"@,
        key_name(Key::Home) == "home"@,
        key_name(Key::End) == "end"@,
        key_name(Key::PageUp) == "pageup"@,
        key_name(Key::PageDown) == "pagedown"@,
        key_name(Key::Backspace) == "backspace"@,
        key_name(Key::Escape) == "esc"@,
        key_name(Key::Char('\n')) == "enter"@,
        key_name(Key::Char('\t')) == "tab"@,
        key_name(Key::Char(' ')) == "space"@,
        parse_key("left"@) == Some(Key::Left),
        parse_key("right"@) == Some(Key::Right),
        parse_key("up"@) == Some(Key::Up),
        parse_key("down"@) == Some(Key::Down),
        parse_key("ins"@) == Some(Key::Insert),
        parse_key("del"@) == Some(Key::Delete),
        parse_key("home"@) == Some(Key::Home),
        parse_key("end"@) == Some(Key::End),
        parse_key("pageup"@) == Some(Key::PageUp),
        parse_key("pagedown"@) == Some(Key::PageDown),
        parse_key("backspace"@) == Some(Key::Backspace),
        parse_key("esc"@) == Some(Key::Escape),
        parse_key("enter"@) == Some(Key::Char('\n')),
        parse_key("tab"@) == Some(Key::Char('\t')),
        parse_key("space"@) == Some(Key::Char(' ')),
{
    reveal_strlit("left");
    reveal_strlit("right");
    reveal_strlit("up");
    reveal_strlit("down");
    reveal_strlit("ins");
    reveal_strlit("del");
    reveal_strlit("home");
    reveal_strlit("end");
    reveal_strlit("pageup");
    reveal_strlit("pagedown");
    reveal_strlit("backspace");
    reveal_strlit("esc");
    reveal_strlit("enter");
    reveal_strlit("tab");
    reveal_strlit("space");
    reveal_strlit("unknown");
    lemma_key_name_roundtrip(Key::Left);
    lemma_key_name_roundtrip(Key::Right);
    lemma_key_name_roundtrip(Key::Up);
    lemma_key_name_roundtrip(Key::Down);
    lemma_key_name_roundtrip(Key::Insert);
    lemma_key_name_roundtrip(Key::Delete);
    lemma_key_name_roundtrip(Key::Home);
    lemma_key_name_roundtrip(Key::End);
    lemma_key_name_roundtrip(Key::PageUp);
    lemma_key_name_roundtrip(Key::PageDown);
    lemma_key_name_roundtrip(Key::Backspace);
    lemma_key_name_roundtrip(Key::Escape);
    lemma_key_name_roundtrip(Key::Char('\n'));
    lemma_key_name_roundtrip(Key::Char('\t'));
    lemma_key_name_roundtrip(Key::Char(' '));
}

} // verus!
