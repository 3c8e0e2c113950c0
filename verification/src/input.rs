//! Decoding of terminal input: key presses, mouse events and focus changes arrive as bytes
//! (plain characters, UTF-8 sequences and ANSI escape sequences) and are turned into events.
//!
//! The reader keeps a small buffer of bytes not decoded yet, because an escape sequence may
//! arrive split across reads. Reading the bytes from the terminal is left to the caller; see
//! `InputReader::prepare_read` and `InputReader::consume_input`.

use vstd::prelude::*;
use vstd::utf8::valid_utf8;
use vstd::utf8::decode_utf8;
use crate::keys::Key;
use crate::keys::KeyEx;
use crate::keys::ModKeys;
use crate::utf8_text::str_from_utf8;

verus! {

/// How much the terminal reports about the mouse.
#[derive(Clone, Copy, Debug, PartialEq, Eq, Structural)]
pub enum MouseMode {
    /// No mouse support.
    Disabled,
    /// Clicks and drags, but not hovers.
    NoHover,
    /// Clicks, drags and hovers. The terminal then reports every movement, even within a cell.
    Full,
}

impl Default for MouseMode {
    fn default() -> (r: Self)
        ensures
            r == MouseMode::Full,
    {
        MouseMode::Full
    }
}

#[derive(Debug, Clone, Copy, Eq, PartialEq, Structural)]
pub enum MouseEvent {
    Press,
    Release,
    Move,
    ScrollUp,
    ScrollDown,
}

#[derive(Debug, Clone, Copy, Eq, PartialEq, Structural, Hash)]
pub enum MouseButton {
    Left,
    Middle,
    Right,
    NoButton,
}

#[derive(Debug, Clone, Copy, Eq, PartialEq)]
pub struct MouseEventEx {
    /// [x, y], counted from 0.
    pub pos: [isize; 2],
    pub button: MouseButton,
    pub event: MouseEvent,
    pub mods: ModKeys,
}

#[derive(Debug, Clone, Copy, Eq, PartialEq)]
pub enum Event {
    Key(KeyEx),
    Mouse(MouseEventEx),
    /// The terminal gained focus.
    FocusIn,
    /// The terminal lost focus.
    FocusOut,
}

impl Event {
    pub fn is_key(&self) -> (r: bool)
        ensures
            r == (*self is Key),
    {
        match self {
            Event::Key(_) => true,
            _ => false,
        }
    }
}

/// A byte array stored inline when it has at most 22 bytes.
#[derive(Clone)]
pub enum SmallArray {
    Short { data: [u8; 22], len: u8 },
    Long(Vec<u8>),
}

impl SmallArray {
    pub open spec fn wf(&self) -> bool {
        match self {
            SmallArray::Short { data, len } => len <= 22,
            SmallArray::Long(_) => true,
        }
    }

    pub open spec fn bytes(&self) -> Seq<u8> {
        match self {
            SmallArray::Short { data, len } => data@.subrange(0, len as int),
            SmallArray::Long(v) => v@,
        }
    }

    pub fn new(data: &[u8]) -> (r: SmallArray)
        ensures
            r.wf(),
            r.bytes() == data@,
            (r is Short) == (data@.len() <= 22),
    {
        if data.len() <= 22 {
            let mut d = [0u8; 22];
            let mut i: usize = 0;
            while i < data.len()
                invariant
                    i <= data@.len() <= 22,
                    d@.len() == 22,
                    forall|j: int| 0 <= j < i ==> d@[j] == data@[j],
                decreases data@.len() - i,
            {
                d[i] = data[i];
                i = i + 1;
            }
            proof {
                assert(d@.subrange(0, data@.len() as int) =~= data@);
            }
            SmallArray::Short { data: d, len: data.len() as u8 }
        } else {
            let mut v: Vec<u8> = Vec::new();
            let mut i: usize = 0;
            while i < data.len()
                invariant
                    i <= data@.len(),
                    v@ == data@.subrange(0, i as int),
                decreases data@.len() - i,
            {
                v.push(data[i]);
                i = i + 1;
                proof {
                    assert(v@ =~= data@.subrange(0, i as int));
                }
            }
            proof {
                assert(data@.subrange(0, data@.len() as int) =~= data@);
            }
            SmallArray::Long(v)
        }
    }

    pub fn as_slice(&self) -> (r: &[u8])
        requires
            self.wf(),
        ensures
            r@ == self.bytes(),
    {
        match self {
            SmallArray::Short { data, len } => {
                let n = *len as usize;
                let all: &[u8] = data.as_slice();
                &all[0..n]
            },
            SmallArray::Long(b) => b.as_slice(),
        }
    }
}

impl Default for SmallArray {
    fn default() -> (r: Self)
        ensures
            r.wf(),
            r.bytes() == Seq::<u8>::empty(),
    {
        let r = SmallArray::Short { data: [0u8; 22], len: 0 };
        proof {
            assert(r.bytes() =~= Seq::<u8>::empty());
        }
        r
    }
}

/// An event together with the input bytes it was decoded from.
#[derive(Clone)]
pub struct EventInfo {
    pub ev: Event,
    pub bytes: SmallArray,
}

impl EventInfo {
    pub fn new(ev: Event, bytes: &[u8]) -> (r: EventInfo)
        ensures
            r.ev == ev,
            r.bytes.wf(),
            r.bytes.bytes() == bytes@,
    {
        EventInfo { ev, bytes: SmallArray::new(bytes) }
    }
}

/// The event and its bytes, as a pair.
pub open spec fn info_view(e: EventInfo) -> (Event, Seq<u8>) {
    (e.ev, e.bytes.bytes())
}

// ---------------------------------------------------------------------------------------------
// The input grammar.
//
// The functions below read a byte sequence `s` from position `i`. A `Scan` says whether the
// bytes there make up a complete item (and where it ends), an invalid one (and how many bytes
// were consumed before that was clear), or a prefix of one that more input may complete.

pub enum Scan<T> {
    Done(T, int),
    Bad(int),
    Short,
}

pub open spec fn esc_byte() -> u8 {
    0x1b
}

pub open spec fn scan_byte(s: Seq<u8>, i: int) -> Scan<u8> {
    if 0 <= i < s.len() {
        Scan::Done(s[i], i + 1)
    } else {
        Scan::Short
    }
}

pub open spec fn is_digit(c: u8) -> bool {
    48 <= c <= 57
}

/// The decimal number starting at `i`, continuing a number `n` of `k` digits. It ends at the
/// first byte that is not a digit. A digit is refused if the number before it is above
/// 1000000, or if it would be the third digit of a number that is still zero.
pub open spec fn scan_number_from(s: Seq<u8>, i: int, n: nat, k: nat) -> Scan<nat>
    decreases s.len() - i,
{
    if i < 0 || i >= s.len() {
        Scan::Short
    } else if is_digit(s[i]) {
        if n > 1000000 || (n == 0 && k >= 2) {
            Scan::Bad(i + 1)
        } else {
            scan_number_from(s, i + 1, n * 10 + (s[i] - 48) as nat, k + 1)
        }
    } else {
        Scan::Done(n, i)
    }
}

/// The decimal number starting at `i` (0 if no digit follows).
pub open spec fn scan_number(s: Seq<u8>, i: int) -> Scan<nat> {
    scan_number_from(s, i, 0, 0)
}

/// The modifier keys coded by `n` in an escape sequence: `n - 1` is the set of bits, where
/// meta (8) counts as alt (2).
pub open spec fn ansi_modifier_spec(n: nat) -> Option<ModKeys> {
    if n < 1 || n > 16 {
        None
    } else {
        let m = (n - 1) as u8;
        Some(ModKeys { bits: if m & 8 == 8 { (m | 2) ^ 8 } else { m } })
    }
}

/// The key of an xterm sequence ending in `c`.
pub open spec fn ansi_key_xterm_spec(c: u8) -> Option<Key> {
    if c == 0x41 {
        Some(Key::Up)
    } else if c == 0x42 {
        Some(Key::Down)
    } else if c == 0x43 {
        Some(Key::Right)
    } else if c == 0x44 {
        Some(Key::Left)
    } else if c == 0x48 {
        Some(Key::Home)
    } else if c == 0x46 {
        Some(Key::End)
    } else if 0x50 <= c <= 0x53 {
        Some(Key::F((1 + c - 0x50) as u8))
    } else {
        None
    }
}

/// The key of a vt sequence with key code `n`.
pub open spec fn ansi_key_vt_spec(n: nat) -> Option<Key> {
    if n == 1 || n == 7 {
        Some(Key::Home)
    } else if n == 2 {
        Some(Key::Insert)
    } else if n == 3 {
        Some(Key::Delete)
    } else if n == 4 || n == 8 {
        Some(Key::End)
    } else if n == 5 {
        Some(Key::PageUp)
    } else if n == 6 {
        Some(Key::PageDown)
    } else if 10 <= n <= 15 {
        Some(Key::F((n - 10) as u8))
    } else if 17 <= n <= 21 {
        Some(Key::F((n - 17 + 6) as u8))
    } else if 23 <= n <= 26 {
        Some(Key::F((n - 23 + 11) as u8))
    } else if 28 <= n <= 29 {
        Some(Key::F((n - 28 + 15) as u8))
    } else if 31 <= n <= 34 {
        Some(Key::F((n - 31 + 17) as u8))
    } else {
        None
    }
}

pub open spec fn plain(k: Key) -> KeyEx {
    KeyEx { key: k, mods: ModKeys { bits: 0 } }
}

pub open spec fn with_ctrl(k: Key) -> KeyEx {
    KeyEx { key: k, mods: ModKeys { bits: 4 } }
}

pub open spec fn with_alt(k: Key) -> KeyEx {
    KeyEx { key: k, mods: ModKeys { bits: 2 } }
}

/// The number of bytes of a UTF-8 sequence that starts with `c` (0 if `c` starts none).
pub open spec fn utf8_width(c: u8) -> int {
    if c <= 0x7f {
        1
    } else if 0xc0 <= c <= 0xdf {
        2
    } else if 0xe0 <= c <= 0xef {
        3
    } else if 0xf0 <= c <= 0xf7 {
        4
    } else {
        0
    }
}

/// The key of the character that starts with byte `c`, which was read just before position
/// `i`. Control bytes are ctrl+letter or ctrl+digit; non-ASCII bytes start a UTF-8 sequence.
pub open spec fn scan_key_char(s: Seq<u8>, i: int, c: u8) -> Scan<KeyEx> {
    if c == 0x0a || c == 0x0d {
        Scan::Done(plain(Key::Char('\n')), i)
    } else if c == 0x7f {
        Scan::Done(plain(Key::Backspace), i)
    } else if c == 0x08 {
        Scan::Done(with_ctrl(Key::Backspace), i)
    } else if c == 0 {
        Scan::Done(with_ctrl(Key::Char(' ')), i)
    } else if 0x01 <= c <= 0x1a {
        Scan::Done(with_ctrl(Key::Char(((c - 1 + 97) as u8) as char)), i)
    } else if 0x1c <= c <= 0x1f {
        Scan::Done(with_ctrl(Key::Char(((c - 0x1c + 52) as u8) as char)), i)
    } else if c <= 0x7f {
        Scan::Done(plain(Key::Char(c as char)), i)
    } else if utf8_width(c) == 0 {
        Scan::Bad(i)
    } else if i - 1 + utf8_width(c) > s.len() {
        Scan::Short
    } else {
        let chunk = s.subrange(i - 1, i - 1 + utf8_width(c));
        if valid_utf8(chunk) {
            Scan::Done(plain(Key::Char(decode_utf8(chunk)[0])), i - 1 + utf8_width(c))
        } else {
            Scan::Bad(i - 1 + utf8_width(c))
        }
    }
}

pub open spec fn key_event(r: Scan<KeyEx>) -> Scan<Event> {
    match r {
        Scan::Done(k, j) => Scan::Done(Event::Key(k), j),
        Scan::Bad(j) => Scan::Bad(j),
        Scan::Short => Scan::Short,
    }
}

/// The mouse event of an SGR mouse report with button code `n`, cell `x`, `y` (counted from
/// 1) and final byte `c` (`m` for a release).
pub open spec fn mouse_event_spec(n: nat, x: nat, y: nat, c: u8, end: int) -> Scan<Event> {
    let button = if n % 4 == 0 {
        MouseButton::Left
    } else if n % 4 == 1 {
        MouseButton::Middle
    } else if n % 4 == 2 {
        MouseButton::Right
    } else {
        MouseButton::NoButton
    };
    let mods = ModKeys { bits: ((n / 4) % 8) as u8 };
    let pos = [(x - 1) as isize, (y - 1) as isize];
    let pressed = if c == 0x6d { MouseEvent::Release } else { MouseEvent::Press };
    let event = if (n / 32) % 2 == 1 { MouseEvent::Move } else { pressed };
    if (n / 64) % 2 == 1 {
        if n % 4 == 0 {
            Scan::Done(Event::Mouse(MouseEventEx { pos, button: MouseButton::NoButton, event: MouseEvent::ScrollUp, mods }), end)
        } else if n % 4 == 1 {
            Scan::Done(Event::Mouse(MouseEventEx { pos, button: MouseButton::NoButton, event: MouseEvent::ScrollDown, mods }), end)
        } else {
            Scan::Bad(end)
        }
    } else {
        Scan::Done(Event::Mouse(MouseEventEx { pos, button, event, mods }), end)
    }
}

/// An SGR mouse report after `ESC [ <`: `n ; x ; y` and a final byte.
pub open spec fn scan_mouse(s: Seq<u8>, i: int) -> Scan<Event> {
    match scan_number(s, i) {
        Scan::Done(n, i1) => match scan_byte(s, i1) {
            Scan::Done(c1, i2) => if c1 != 0x3b {
                Scan::Bad(i2)
            } else {
                match scan_number(s, i2) {
                    Scan::Done(x, i3) => match scan_byte(s, i3) {
                        Scan::Done(c2, i4) => if c2 != 0x3b {
                            Scan::Bad(i4)
                        } else {
                            match scan_number(s, i4) {
                                Scan::Done(y, i5) => match scan_byte(s, i5) {
                                    Scan::Done(c3, i6) => mouse_event_spec(n, x, y, c3, i6),
                                    _ => Scan::Short,
                                },
                                Scan::Bad(j) => Scan::Bad(j),
                                Scan::Short => Scan::Short,
                            }
                        },
                        _ => Scan::Short,
                    },
                    Scan::Bad(j) => Scan::Bad(j),
                    Scan::Short => Scan::Short,
                }
            },
            _ => Scan::Short,
        },
        Scan::Bad(j) => Scan::Bad(j),
        Scan::Short => Scan::Short,
    }
}

/// The key of a sequence `ESC [ n ; m c`, ending at `end`: `~` ends a vt sequence, any other
/// byte an xterm sequence.
pub open spec fn csi_key_spec(n: nat, mods: ModKeys, c: u8, end: int) -> Scan<Event> {
    let k = if c == 0x7e { ansi_key_vt_spec(n) } else { ansi_key_xterm_spec(c) };
    match k {
        Some(key) => Scan::Done(Event::Key(KeyEx { key, mods }), end),
        None => Scan::Bad(end),
    }
}

/// An xterm or vt key sequence after `ESC [`: an optional number, optionally `;` and a
/// modifier number, then a final byte.
pub open spec fn scan_csi(s: Seq<u8>, i: int) -> Scan<Event> {
    match scan_number(s, i) {
        Scan::Done(n, i1) => match scan_byte(s, i1) {
            Scan::Done(c, i2) => if c == 0x3b {
                match scan_number(s, i2) {
                    Scan::Done(m, i3) => match ansi_modifier_spec(m) {
                        Some(mods) => match scan_byte(s, i3) {
                            Scan::Done(c2, i4) => csi_key_spec(n, mods, c2, i4),
                            _ => Scan::Short,
                        },
                        None => Scan::Bad(i3),
                    },
                    Scan::Bad(j) => Scan::Bad(j),
                    Scan::Short => Scan::Short,
                }
            } else {
                csi_key_spec(n, ModKeys { bits: 0 }, c, i2)
            },
            _ => Scan::Short,
        },
        Scan::Bad(j) => Scan::Bad(j),
        Scan::Short => Scan::Short,
    }
}

/// Whether the input ends at `i` and the buffer has room for more: a lone escape byte there
/// is the escape key rather than the start of a sequence.
pub open spec fn idle(s: Seq<u8>, i: int, room: bool) -> bool {
    i == s.len() && room
}

/// What follows an escape byte, `c` being the byte after it (read just before `i`).
pub open spec fn scan_escape_body(s: Seq<u8>, i: int, c: u8, room: bool) -> Scan<Event> {
    if c == esc_byte() {
        // Mashing the escape key: the first escape is a key press, the second starts anew.
        Scan::Done(Event::Key(plain(Key::Escape)), i - 1)
    } else if c == 0x4f {
        if idle(s, i, room) {
            Scan::Done(Event::Key(with_alt(Key::Char('O'))), i)
        } else {
            match scan_byte(s, i) {
                Scan::Done(d, j) => if 0x50 <= d <= 0x53 {
                    Scan::Done(Event::Key(plain(Key::F((1 + d - 0x50) as u8))), j)
                } else if d == 0x41 {
                    Scan::Done(Event::Key(plain(Key::Up)), j)
                } else if d == 0x42 {
                    Scan::Done(Event::Key(plain(Key::Down)), j)
                } else if d == 0x43 {
                    Scan::Done(Event::Key(plain(Key::Right)), j)
                } else if d == 0x44 {
                    Scan::Done(Event::Key(plain(Key::Left)), j)
                } else {
                    Scan::Bad(j)
                },
                _ => Scan::Short,
            }
        }
    } else if c == 0x5b {
        if idle(s, i, room) {
            Scan::Done(Event::Key(with_alt(Key::Char('['))), i)
        } else if i >= s.len() {
            Scan::Short
        } else if s[i] == 0x3c {
            scan_mouse(s, i + 1)
        } else if s[i] == 0x49 {
            Scan::Done(Event::FocusIn, i + 1)
        } else if s[i] == 0x4f {
            Scan::Done(Event::FocusOut, i + 1)
        } else {
            scan_csi(s, i)
        }
    } else {
        match scan_key_char(s, i, c) {
            Scan::Done(k, j) => Scan::Done(
                Event::Key(KeyEx { key: k.key, mods: ModKeys { bits: k.mods.bits | 2 } }),
                j,
            ),
            Scan::Bad(j) => Scan::Bad(j),
            Scan::Short => Scan::Short,
        }
    }
}

/// The event at position `i` of `s`, and whether it was preceded by an extra escape byte
/// (`ESC ESC ...`), which may mean alt or a separate escape key press.
#[verifier::opaque]
pub open spec fn parse_event_spec(s: Seq<u8>, i: int, room: bool) -> (Scan<Event>, bool) {
    match scan_byte(s, i) {
        Scan::Done(c0, i1) => if c0 == esc_byte() {
            if idle(s, i1, room) {
                (Scan::Done(Event::Key(plain(Key::Escape)), i1), false)
            } else {
                match scan_byte(s, i1) {
                    Scan::Done(c, i2) => if c == esc_byte() {
                        if idle(s, i2, room) {
                            // The escape key pressed twice.
                            (Scan::Done(Event::Key(plain(Key::Escape)), i2 - 1), false)
                        } else {
                            match scan_byte(s, i2) {
                                Scan::Done(c3, i3) => (scan_escape_body(s, i3, c3, room), true),
                                _ => (Scan::Short, true),
                            }
                        }
                    } else {
                        (scan_escape_body(s, i2, c, room), false)
                    },
                    _ => (Scan::Short, false),
                }
            }
        } else {
            (key_event(scan_key_char(s, i1, c0)), false)
        },
        _ => (Scan::Short, false),
    }
}

/// Keys after which terminals send an extra escape byte to mean alt.
pub open spec fn alt_by_escape(k: Key) -> bool {
    k is Left || k is Right || k is Up || k is Down || k is PageUp || k is PageDown
}

/// Where an extra escape byte preceded an unmodified key of `alt_by_escape`, the key gets
/// alt and the escape byte is part of it; the flag then says that it was used up.
pub open spec fn apply_extra_escape(r: Scan<Event>, extra: bool) -> (Scan<Event>, bool) {
    if extra {
        match r {
            Scan::Done(Event::Key(k), j) => if k.mods.bits == 0 && alt_by_escape(k.key) {
                (Scan::Done(Event::Key(with_alt(k.key)), j), false)
            } else {
                (r, true)
            },
            _ => (r, true),
        }
    } else {
        (r, false)
    }
}

/// The events decoded from `s` from position `p` on, each with its bytes, and the position of
/// the first byte not decoded (a prefix of a sequence that more input may complete). An
/// unused extra escape byte is an escape key press of its own; bytes that make up no valid
/// sequence are an `Unknown` key.
#[verifier::opaque]
pub open spec fn decode_all(s: Seq<u8>, p: int, room: bool) -> (Seq<(Event, Seq<u8>)>, int)
    decreases s.len() - p,
{
    let (r0, x0) = parse_event_spec(s, p, room);
    let (r, extra) = apply_extra_escape(r0, x0);
    let p1 = if extra { p + 1 } else { p };
    let esc: Seq<(Event, Seq<u8>)> = if extra {
        seq![(Event::Key(plain(Key::Escape)), s.subrange(p, p + 1))]
    } else {
        seq![]
    };
    match r {
        Scan::Done(e, q) => if 0 <= p < q <= s.len() && p1 <= q {
            let (rest, f) = decode_all(s, q, room);
            (esc + seq![(e, s.subrange(p1, q))] + rest, f)
        } else {
            (seq![], p)
        },
        Scan::Bad(q) => if 0 <= p < q <= s.len() && p1 <= q {
            let (rest, f) = decode_all(s, q, room);
            (esc + seq![(Event::Key(plain(Key::Unknown)), s.subrange(p1, q))] + rest, f)
        } else {
            (seq![], p)
        },
        Scan::Short => (seq![], p),
    }
}

// ---------------------------------------------------------------------------------------------
// The reader.

pub open spec fn as_nat(r: Result<usize, bool>) -> Result<nat, bool> {
    match r {
        Ok(n) => Ok(n as nat),
        Err(x) => Err(x),
    }
}

/// Whether an exec result and position agree with a scan.
pub open spec fn outcome<T>(r: Result<T, bool>, pos: int, sc: Scan<T>) -> bool {
    match sc {
        Scan::Done(v, j) => r == Ok::<T, bool>(v) && pos == j,
        Scan::Bad(j) => r == Err::<T, bool>(false) && pos == j,
        Scan::Short => r == Err::<T, bool>(true),
    }
}

/// Decodes terminal input into events. Bytes that end in the middle of an escape sequence
/// wait in the reader until the rest arrives.
pub struct InputReader {
    start: usize,
    end: usize,
    buf: [u8; 128],
    saw_extra_escape: bool,
}

impl InputReader {
    spec fn valid(&self) -> bool {
        self.start <= self.end <= 128
    }

    /// The state between calls.
    pub closed spec fn wf(&self) -> bool {
        self.valid() && !self.saw_extra_escape
    }

    /// The bytes in the buffer; those from `pos()` on are not decoded yet.
    pub closed spec fn buffered(&self) -> Seq<u8> {
        self.buf@.subrange(0, self.end as int)
    }

    /// The position of the first byte not decoded yet.
    pub closed spec fn pos(&self) -> int {
        self.start as int
    }

    spec fn room(&self) -> bool {
        self.end < 128
    }

    spec fn same_input(&self, other: &InputReader) -> bool {
        self.buf == other.buf && self.end == other.end
    }

    pub fn new() -> (r: InputReader)
        ensures
            r.wf(),
            r.buffered() == Seq::<u8>::empty(),
            r.pos() == 0,
    {
        let r = InputReader { start: 0, end: 0, buf: [0u8; 128], saw_extra_escape: false };
        proof {
            assert(r.buffered() =~= Seq::<u8>::empty());
        }
        r
    }

    fn peek(&self) -> (r: Result<u8, bool>)
        requires
            self.valid(),
        ensures
            r == (match scan_byte(self.buffered(), self.start as int) {
                Scan::Done(c, _) => Ok::<u8, bool>(c),
                _ => Err::<u8, bool>(true),
            }),
    {
        if self.start == self.end {
            Err(true)
        } else {
            Ok(self.buf[self.start])
        }
    }

    fn eat(&mut self) -> (r: Result<u8, bool>)
        requires
            old(self).valid(),
        ensures
            final(self).valid(),
            final(self).same_input(old(self)),
            final(self).saw_extra_escape == old(self).saw_extra_escape,
            outcome(r, final(self).start as int, scan_byte(old(self).buffered(), old(self).start as int)),
    {
        let c = self.peek();
        match c {
            Ok(b) => {
                self.start = self.start + 1;
                Ok(b)
            },
            Err(x) => Err(x),
        }
    }

    fn ansi_modifier(n: usize) -> (r: Result<ModKeys, bool>)
        ensures
            r == (match ansi_modifier_spec(n as nat) {
                Some(m) => Ok::<ModKeys, bool>(m),
                None => Err::<ModKeys, bool>(false),
            }),
    {
        if n < 1 || n > 16 {
            Err(false)
        } else {
            let mut m: u8 = (n - 1) as u8;
            if m & 8 == 8 {
                // Meta counts as alt.
                m = m | 2;
                m = m ^ 8;
            }
            Ok(ModKeys { bits: m })
        }
    }

    fn ansi_key_xterm(c: u8) -> (r: Result<Key, bool>)
        ensures
            r == (match ansi_key_xterm_spec(c) {
                Some(k) => Ok::<Key, bool>(k),
                None => Err::<Key, bool>(false),
            }),
    {
        if c == 0x41 {
            Ok(Key::Up)
        } else if c == 0x42 {
            Ok(Key::Down)
        } else if c == 0x43 {
            Ok(Key::Right)
        } else if c == 0x44 {
            Ok(Key::Left)
        } else if c == 0x48 {
            Ok(Key::Home)
        } else if c == 0x46 {
            Ok(Key::End)
        } else if 0x50 <= c && c <= 0x53 {
            // F1-F4
            Ok(Key::F(1 + c - 0x50))
        } else {
            Err(false)
        }
    }

    fn ansi_key_vt(n: usize) -> (r: Result<Key, bool>)
        ensures
            r == (match ansi_key_vt_spec(n as nat) {
                Some(k) => Ok::<Key, bool>(k),
                None => Err::<Key, bool>(false),
            }),
    {
        if n == 1 || n == 7 {
            Ok(Key::Home)
        } else if n == 2 {
            Ok(Key::Insert)
        } else if n == 3 {
            Ok(Key::Delete)
        } else if n == 4 || n == 8 {
            Ok(Key::End)
        } else if n == 5 {
            Ok(Key::PageUp)
        } else if n == 6 {
            Ok(Key::PageDown)
        } else if 10 <= n && n <= 15 {
            // F0-F5
            Ok(Key::F((n - 10) as u8))
        } else if 17 <= n && n <= 21 {
            // F6-F10
            Ok(Key::F((n - 17 + 6) as u8))
        } else if 23 <= n && n <= 26 {
            // F11-F14
            Ok(Key::F((n - 23 + 11) as u8))
        } else if 28 <= n && n <= 29 {
            // F15-F16
            Ok(Key::F((n - 28 + 15) as u8))
        } else if 31 <= n && n <= 34 {
            // F17-F20
            Ok(Key::F((n - 31 + 17) as u8))
        } else {
            Err(false)
        }
    }

    /// The key of the character starting with byte `c`, which was just eaten.
    fn ansi_key_char(&mut self, c: u8) -> (r: Result<KeyEx, bool>)
        requires
            old(self).valid(),
            old(self).start >= 1,
        ensures
            final(self).valid(),
            final(self).same_input(old(self)),
            final(self).saw_extra_escape == old(self).saw_extra_escape,
            outcome(r, final(self).start as int, scan_key_char(old(self).buffered(), old(self).start as int, c)),
    {
        if c == 0x0a || c == 0x0d {
            Ok(Key::Char('\n').plain())
        } else if c == 0x7f {
            Ok(Key::Backspace.plain())
        } else if c == 0x08 {
            // ctrl+backspace is indistinguishable from ctrl+h.
            Ok(Key::Backspace.ctrl())
        } else if c == 0 {
            Ok(Key::Char(' ').ctrl())
        } else if 0x01 <= c && c <= 0x1a {
            // ctrl+[a..z]; shift is ignored in this case.
            let b: u8 = c - 1 + 97;
            Ok(Key::Char(b as char).ctrl())
        } else if 0x1c <= c && c <= 0x1f {
            // ctrl+[4..7]; other digits don't work.
            let b: u8 = c - 0x1c + 52;
            Ok(Key::Char(b as char).ctrl())
        } else if c <= 0x7f {
            Ok(Key::Char(c as char).plain())
        } else {
            let width: usize = if 0xc0 <= c && c <= 0xdf {
                2
            } else if 0xe0 <= c && c <= 0xef {
                3
            } else if 0xf0 <= c && c <= 0xf7 {
                4
            } else {
                return Err(false);
            };
            let end = self.start - 1 + width;
            if end > self.end {
                return Err(true);
            }
            let first = self.start - 1;
            let all: &[u8] = self.buf.as_slice();
            let chunk: &[u8] = &all[first..end];
            self.start = end;
            match str_from_utf8(chunk) {
                Some(s) => {
                    proof {
                        assert(chunk@ =~= self.buffered().subrange(first as int, end as int));
                    }
                    let ch = s.get_char(0);
                    Ok(Key::Char(ch).plain())
                },
                None => {
                    proof {
                        assert(chunk@ =~= self.buffered().subrange(first as int, end as int));
                    }
                    Err(false)
                },
            }
        }
    }

    /// A decimal number (see `scan_number`).
    fn parse_ansi_number(&mut self) -> (r: Result<usize, bool>)
        requires
            old(self).valid(),
        ensures
            final(self).valid(),
            final(self).same_input(old(self)),
            final(self).saw_extra_escape == old(self).saw_extra_escape,
            outcome(as_nat(r), final(self).start as int, scan_number(old(self).buffered(), old(self).start as int)),
            r matches Ok(n) ==> n <= 10000009,
    {
        let mut n: usize = 0;
        let start = self.start;
        let ghost s = self.buffered();
        loop
            invariant
                self.valid(),
                self.same_input(old(self)),
                self.saw_extra_escape == old(self).saw_extra_escape,
                s == self.buffered(),
                start == old(self).start,
                start <= self.start,
                n <= 10000009,
                scan_number(s, start as int) == scan_number_from(s, self.start as int, n as nat, (self.start - start) as nat),
            decreases self.end - self.start,
        {
            let c = match self.peek() {
                Ok(c) => c,
                Err(x) => {
                    return Err(x);
                },
            };
            if 48 <= c && c <= 57 {
                self.start = self.start + 1;
                if n > 1000000 || (n == 0 && self.start > start + 2) {
                    return Err(false);
                }
                n = n * 10 + (c - 48) as usize;
            } else {
                return Ok(n);
            }
        }
    }

    /// An SGR mouse report after `ESC [ <` (see `scan_mouse`).
    fn parse_mouse(&mut self) -> (r: Result<Event, bool>)
        requires
            old(self).valid(),
        ensures
            final(self).valid(),
            final(self).same_input(old(self)),
            final(self).saw_extra_escape == old(self).saw_extra_escape,
            outcome(r, final(self).start as int, scan_mouse(old(self).buffered(), old(self).start as int)),
    {
        let ghost s = self.buffered();
        let n = match self.parse_ansi_number() {
            Ok(v) => v,
            Err(x) => {
                return Err(x);
            },
        };
        match self.eat() {
            Ok(c) => if c != 0x3b {
                return Err(false);
            },
            Err(x) => {
                return Err(x);
            },
        }
        let x = match self.parse_ansi_number() {
            Ok(v) => v,
            Err(x) => {
                return Err(x);
            },
        };
        match self.eat() {
            Ok(c) => if c != 0x3b {
                return Err(false);
            },
            Err(x) => {
                return Err(x);
            },
        }
        let y = match self.parse_ansi_number() {
            Ok(v) => v,
            Err(x) => {
                return Err(x);
            },
        };
        let c = match self.eat() {
            Ok(c) => c,
            Err(x) => {
                return Err(x);
            },
        };
        proof {
            assert(n & 3 == n % 4 && (n >> 2) & 7 == (n / 4) % 8 && ((n & 32) != 0) == ((n / 32) % 2 == 1)
                && ((n & 64) != 0) == ((n / 64) % 2 == 1)) by (bit_vector);
        }
        let low = n & 3;
        let mut button = if low == 0 {
            MouseButton::Left
        } else if low == 1 {
            MouseButton::Middle
        } else if low == 2 {
            MouseButton::Right
        } else {
            MouseButton::NoButton
        };
        let mods = ModKeys { bits: ((n >> 2) & 7) as u8 };
        let mut event = if c == 0x6d { MouseEvent::Release } else { MouseEvent::Press };
        if n & 32 != 0 {
            event = MouseEvent::Move;
        }
        if n & 64 != 0 {
            event = if low == 0 {
                MouseEvent::ScrollUp
            } else if low == 1 {
                MouseEvent::ScrollDown
            } else {
                return Err(false);
            };
            button = MouseButton::NoButton;
        }
        Ok(Event::Mouse(MouseEventEx { pos: [x as isize - 1, y as isize - 1], button, event, mods }))
    }

    /// A key sequence after `ESC [` (see `scan_csi`).
    fn parse_csi(&mut self) -> (r: Result<Event, bool>)
        requires
            old(self).valid(),
        ensures
            final(self).valid(),
            final(self).same_input(old(self)),
            final(self).saw_extra_escape == old(self).saw_extra_escape,
            outcome(r, final(self).start as int, scan_csi(old(self).buffered(), old(self).start as int)),
    {
        let n = match self.parse_ansi_number() {
            Ok(v) => v,
            Err(x) => {
                return Err(x);
            },
        };
        let mut c = match self.eat() {
            Ok(c) => c,
            Err(x) => {
                return Err(x);
            },
        };
        let mut mods = ModKeys { bits: 0 };
        if c == 0x3b {
            let m = match self.parse_ansi_number() {
                Ok(v) => v,
                Err(x) => {
                    return Err(x);
                },
            };
            mods = match Self::ansi_modifier(m) {
                Ok(k) => k,
                Err(x) => {
                    return Err(x);
                },
            };
            c = match self.eat() {
                Ok(c) => c,
                Err(x) => {
                    return Err(x);
                },
            };
        }
        if c == 0x7e {
            // vt
            match Self::ansi_key_vt(n) {
                Ok(k) => Ok(Event::Key(k.mods(mods))),
                Err(x) => Err(x),
            }
        } else {
            // xterm
            match Self::ansi_key_xterm(c) {
                Ok(k) => Ok(Event::Key(k.mods(mods))),
                Err(x) => Err(x),
            }
        }
    }

    /// What follows an escape byte; `c` is the byte after it, just eaten (see
    /// `scan_escape_body`).
    fn parse_escape_body(&mut self, c: u8) -> (r: Result<Event, bool>)
        requires
            old(self).valid(),
            old(self).start >= 1,
        ensures
            final(self).valid(),
            final(self).same_input(old(self)),
            final(self).saw_extra_escape == old(self).saw_extra_escape,
            outcome(r, final(self).start as int, scan_escape_body(old(self).buffered(), old(self).start as int, c, old(self).room())),
    {
        let idle = self.start == self.end && self.end < 128;
        if c == 0x1b {
            // Mashing the escape key.
            self.start = self.start - 1;
            Ok(Event::Key(Key::Escape.plain()))
        } else if c == 0x4f {
            if idle {
                // alt+O
                Ok(Event::Key(Key::Char('O').alt()))
            } else {
                match self.eat() {
                    Ok(d) => if 0x50 <= d && d <= 0x53 {
                        // F1-F4
                        Ok(Event::Key(Key::F(1 + d - 0x50).plain()))
                    } else if d == 0x41 {
                        Ok(Event::Key(Key::Up.plain()))
                    } else if d == 0x42 {
                        Ok(Event::Key(Key::Down.plain()))
                    } else if d == 0x43 {
                        Ok(Event::Key(Key::Right.plain()))
                    } else if d == 0x44 {
                        Ok(Event::Key(Key::Left.plain()))
                    } else {
                        Err(false)
                    },
                    Err(x) => Err(x),
                }
            }
        } else if c == 0x5b {
            if idle {
                // alt+[
                return Ok(Event::Key(Key::Char('[').alt()));
            }
            let next = match self.peek() {
                Ok(d) => d,
                Err(x) => {
                    return Err(x);
                },
            };
            if next == 0x3c {
                // Mouse events.
                self.start = self.start + 1;
                self.parse_mouse()
            } else if next == 0x49 {
                self.start = self.start + 1;
                Ok(Event::FocusIn)
            } else if next == 0x4f {
                self.start = self.start + 1;
                Ok(Event::FocusOut)
            } else {
                // xterm and vt escape sequences.
                self.parse_csi()
            }
        } else {
            // alt+char
            match self.ansi_key_char(c) {
                Ok(k) => {
                    let mut k = k;
                    k.mods.insert(ModKeys::alt());
                    Ok(Event::Key(k))
                },
                Err(x) => Err(x),
            }
        }
    }

    /// The next event (see `parse_event_spec`). `Err(true)` if the input ends before a
    /// complete one; `Err(false)` if the bytes make up no valid sequence.
    fn parse_event(&mut self) -> (r: Result<Event, bool>)
        requires
            old(self).valid(),
            !old(self).saw_extra_escape,
        ensures
            final(self).valid(),
            final(self).same_input(old(self)),
            outcome(r, final(self).start as int, parse_event_spec(old(self).buffered(), old(self).start as int, old(self).room()).0),
            final(self).saw_extra_escape == parse_event_spec(old(self).buffered(), old(self).start as int, old(self).room()).1,
    {
        proof {
            reveal(parse_event_spec);
        }
        let c0 = match self.eat() {
            Ok(c) => c,
            Err(x) => {
                return Err(x);
            },
        };
        if c0 == 0x1b {
            if self.start == self.end && self.end < 128 {
                // The escape key.
                return Ok(Event::Key(Key::Escape.plain()));
            }
            let mut c = match self.eat() {
                Ok(c) => c,
                Err(x) => {
                    return Err(x);
                },
            };
            if c == 0x1b {
                if self.start == self.end && self.end < 128 {
                    // The escape key twice.
                    self.start = self.start - 1;
                    return Ok(Event::Key(Key::Escape.plain()));
                }
                // Maybe an "ESC ESC [ key" sequence that means alt, maybe the escape key
                // followed by an escape sequence; the caller decides.
                self.saw_extra_escape = true;
                c = match self.eat() {
                    Ok(c) => c,
                    Err(x) => {
                        return Err(x);
                    },
                };
            }
            self.parse_escape_body(c)
        } else {
            // A character, some special keys, ctrl+key.
            match self.ansi_key_char(c0) {
                Ok(k) => Ok(Event::Key(k)),
                Err(x) => Err(x),
            }
        }
    }

    /// The events decoded from the buffered bytes from the current position on.
    spec fn decode_rest(&self) -> (Seq<(Event, Seq<u8>)>, int) {
        decode_all(self.buffered(), self.start as int, self.room())
    }

    /// Decodes the next event, if the input holds a complete one, and pushes it (after an
    /// escape key press of its own, where an extra escape byte was not used up).
    fn decode_step(&mut self, out: &mut Vec<EventInfo>) -> (more: bool)
        requires
            old(self).valid(),
            !old(self).saw_extra_escape,
        ensures
            final(self).valid(),
            !final(self).saw_extra_escape,
            final(self).same_input(old(self)),
            more ==> old(self).start < final(self).start,
            more ==> infos_view(final(out)@) + final(self).decode_rest().0 == infos_view(old(out)@)
                + old(self).decode_rest().0,
            more ==> final(self).decode_rest().1 == old(self).decode_rest().1,
            !more ==> final(self).start == old(self).start && final(out)@ == old(out)@
                && old(self).decode_rest().0 == Seq::<(Event, Seq<u8>)>::empty()
                && old(self).decode_rest().1 == old(self).start,
            final(out)@.len() >= old(out)@.len(),
            forall|k: int| 0 <= k < old(out)@.len() ==> final(out)@[k] == old(out)@[k],
            forall|k: int| old(out)@.len() <= k < final(out)@.len() ==> (#[trigger] final(out)@[k]).bytes.wf(),
    {
        let ghost s = self.buffered();
        let ghost room = self.room();
        let p = self.start;
        let mut e = self.parse_event();
        proof {
            lemma_decode_all_step(s, p as int, room);
        }
        if self.saw_extra_escape {
            match e {
                Ok(Event::Key(k)) => {
                    if k.mods.is_empty() && (k.key.is_arrow_key() || matches!(k.key, Key::PageUp | Key::PageDown)) {
                        // "ESC ESC [ A" and the like: the extra escape means alt.
                        let mut k2 = k;
                        k2.mods.insert(ModKeys::alt());
                        proof {
                            assert(0u8 | 2u8 == 2u8) by (bit_vector);
                        }
                        e = Ok(Event::Key(k2));
                        self.saw_extra_escape = false;
                    }
                },
                _ => {},
            }
        }
        let mut first = p;
        let extra = self.saw_extra_escape;
        self.saw_extra_escape = false;
        let incomplete = match e {
            Err(true) => true,
            _ => false,
        };
        if incomplete {
            // Roll back: the rest of the sequence has not arrived yet.
            self.start = p;
            return false;
        }
        let all: &[u8] = self.buf.as_slice();
        let ghost out0 = out@;
        if extra {
            out.push(EventInfo::new(Event::Key(Key::Escape.plain()), &all[first..first + 1]));
            proof {
                assert(all@.subrange(first as int, first + 1) =~= s.subrange(first as int, first + 1));
            }
            first = first + 1;
        }
        let ghost out1 = out@;
        match e {
            Ok(ev) => {
                out.push(EventInfo::new(ev, &all[first..self.start]));
            },
            _ => {
                out.push(EventInfo::new(Event::Key(Key::Unknown.plain()), &all[first..self.start]));
            },
        }
        proof {
            assert(all@.subrange(first as int, self.start as int) =~= s.subrange(first as int, self.start as int));
            assert(infos_view(out1) =~= infos_view(out0) + (if extra {
                seq![(Event::Key(plain(Key::Escape)), s.subrange(p as int, p + 1))]
            } else {
                Seq::<(Event, Seq<u8>)>::empty()
            }));
            assert(infos_view(out@) =~= infos_view(out1).push(info_view(out@.last())));
        }
        true
    }

    /// Makes room for input: moves the bytes not decoded yet to the front of the buffer when
    /// they start past its middle. Returns how many bytes `consume_input` can take now.
    pub fn prepare_read(&mut self) -> (free: usize)
        requires
            old(self).wf(),
        ensures
            final(self).wf(),
            free == 128 - final(self).buffered().len(),
            final(self).buffered().subrange(final(self).pos(), final(self).buffered().len() as int)
                == old(self).buffered().subrange(old(self).pos(), old(self).buffered().len() as int),
            old(self).pos() * 2 > 128 ==> final(self).pos() == 0,
            old(self).pos() * 2 <= 128 ==> final(self).pos() == old(self).pos()
                && final(self).buffered() == old(self).buffered(),
    {
        if self.start * 2 > 128 {
            let n = self.end - self.start;
            let ghost b0 = self.buf@;
            let mut i: usize = 0;
            while i < n
                invariant
                    self.valid(),
                    !self.saw_extra_escape,
                    self.start * 2 > 128,
                    self.start == old(self).start,
                    self.end == old(self).end,
                    b0 == old(self).buf@,
                    b0.len() == 128,
                    n == self.end - self.start,
                    i <= n,
                    self.buf@.len() == 128,
                    forall|j: int| 0 <= j < i ==> self.buf@[j] == b0[self.start + j],
                    forall|j: int| i <= j < 128 ==> self.buf@[j] == b0[j],
                decreases n - i,
            {
                let b = self.buf[self.start + i];
                self.buf[i] = b;
                i = i + 1;
            }
            proof {
                assert(self.buf@.subrange(0, n as int) =~= b0.subrange(self.start as int, self.end as int));
            }
            self.end = n;
            self.start = 0;
            proof {
                assert(self.buffered().subrange(0, n as int) =~= self.buffered());
                assert(b0.subrange(0, old(self).end as int).subrange(old(self).start as int, old(self).end as int)
                    =~= b0.subrange(old(self).start as int, old(self).end as int));
            }
        }
        128 - self.end
    }

    /// Appends `data` to the buffered input and decodes every event that is complete, pushing
    /// each onto `out` with its bytes (see `decode_all`). What remains is a prefix of an
    /// escape sequence that later input may complete.
    pub fn consume_input(&mut self, data: &[u8], out: &mut Vec<EventInfo>)
        requires
            old(self).wf(),
            old(self).buffered().len() + data@.len() <= 128,
        ensures
            final(self).wf(),
            final(self).buffered() == old(self).buffered() + data@,
            final(self).pos() == decode_all(
                old(self).buffered() + data@,
                old(self).pos(),
                old(self).buffered().len() + data@.len() < 128,
            ).1,
            infos_view(final(out)@) == infos_view(old(out)@) + decode_all(
                old(self).buffered() + data@,
                old(self).pos(),
                old(self).buffered().len() + data@.len() < 128,
            ).0,
            forall|k: int| 0 <= k < final(out)@.len() ==> (#[trigger] final(out)@[k]).bytes.wf()
                || (k < old(out)@.len() && !old(out)@[k].bytes.wf()),
    {
        let n = data.len();
        let mut i: usize = 0;
        let ghost b0 = self.buf@;
        while i < n
            invariant
                self.valid(),
                !self.saw_extra_escape,
                self.start == old(self).start,
                self.end == old(self).end,
                self.end + n <= 128,
                n == data@.len(),
                i <= n,
                self.buf@.len() == 128,
                forall|j: int| 0 <= j < self.end ==> self.buf@[j] == b0[j],
                forall|j: int| 0 <= j < i ==> self.buf@[self.end + j] == data@[j],
            decreases n - i,
        {
            self.buf[self.end + i] = data[i];
            i = i + 1;
        }
        self.end = self.end + n;
        let ghost s = self.buffered();
        let ghost room = self.end < 128;
        let ghost p0 = self.start as int;
        proof {
            assert(s =~= old(self).buffered() + data@);
        }
        loop
            invariant
                self.valid(),
                !self.saw_extra_escape,
                self.buffered() == s,
                self.end == s.len(),
                room == (self.end < 128),
                p0 <= self.start,
                infos_view(out@) + self.decode_rest().0 == infos_view(old(out)@) + decode_all(s, p0, room).0,
                self.decode_rest().1 == decode_all(s, p0, room).1,
                forall|k: int| 0 <= k < out@.len() ==> (#[trigger] out@[k]).bytes.wf()
                    || (k < old(out)@.len() && !old(out)@[k].bytes.wf()),
            ensures
                self.valid(),
                !self.saw_extra_escape,
                self.buffered() == s,
                infos_view(out@) == infos_view(old(out)@) + decode_all(s, p0, room).0,
                self.start == decode_all(s, p0, room).1,
                forall|k: int| 0 <= k < out@.len() ==> (#[trigger] out@[k]).bytes.wf()
                    || (k < old(out)@.len() && !old(out)@[k].bytes.wf()),
            decreases self.end - self.start,
        {
            let ghost out_before = out@;
            let more = self.decode_step(out);
            if !more {
                proof {
                    assert(infos_view(out@) + self.decode_rest().0 =~= infos_view(out@));
                }
                break;
            }
            proof {
                assert forall|k: int| 0 <= k < out@.len() implies (#[trigger] out@[k]).bytes.wf()
                    || (k < old(out)@.len() && !old(out)@[k].bytes.wf()) by {
                    if k < out_before.len() {
                        assert(out@[k] == out_before[k]);
                    }
                }
                assert(infos_view(out@) + self.decode_rest().0 =~= infos_view(out_before) + (infos_view(out@).subrange(out_before.len() as int, out@.len() as int) + self.decode_rest().0));
            }
        }
    }
}

/// The events with their bytes, as pairs.
pub open spec fn infos_view(v: Seq<EventInfo>) -> Seq<(Event, Seq<u8>)> {
    v.map_values(|e: EventInfo| info_view(e))
}

proof fn lemma_scan_number_from(s: Seq<u8>, i: int, n: nat, k: nat)
    requires
        0 <= i <= s.len(),
    ensures
        scan_number_from(s, i, n, k) matches Scan::Done(_, j) ==> i <= j <= s.len(),
        scan_number_from(s, i, n, k) matches Scan::Bad(j) ==> i < j <= s.len(),
    decreases s.len() - i,
{
    if i < s.len() && is_digit(s[i]) && !(n > 1000000 || (n == 0 && k >= 2)) {
        lemma_scan_number_from(s, i + 1, n * 10 + (s[i] - 48) as nat, k + 1);
    }
}

proof fn lemma_scan_number(s: Seq<u8>, i: int)
    requires
        0 <= i <= s.len(),
    ensures
        scan_number(s, i) matches Scan::Done(_, j) ==> i <= j <= s.len(),
        scan_number(s, i) matches Scan::Bad(j) ==> i < j <= s.len(),
{
    lemma_scan_number_from(s, i, 0, 0);
}

/// Where a scan that starts at `i` ends.
pub open spec fn ends_within<T>(r: Scan<T>, lo: int, hi: int) -> bool {
    match r {
        Scan::Done(_, j) => lo <= j <= hi,
        Scan::Bad(j) => lo <= j <= hi,
        Scan::Short => true,
    }
}

proof fn lemma_scan_mouse(s: Seq<u8>, i: int)
    requires
        0 <= i <= s.len(),
    ensures
        ends_within(scan_mouse(s, i), i, s.len() as int),
{
    lemma_scan_number(s, i);
    if let Scan::Done(n, i1) = scan_number(s, i) {
        if i1 < s.len() {
            lemma_scan_number(s, i1 + 1);
            if let Scan::Done(x, i3) = scan_number(s, i1 + 1) {
                if i3 < s.len() {
                    lemma_scan_number(s, i3 + 1);
                }
            }
        }
    }
}

proof fn lemma_scan_csi(s: Seq<u8>, i: int)
    requires
        0 <= i <= s.len(),
    ensures
        ends_within(scan_csi(s, i), i, s.len() as int),
{
    lemma_scan_number(s, i);
    if let Scan::Done(n, i1) = scan_number(s, i) {
        if i1 < s.len() {
            lemma_scan_number(s, i1 + 1);
        }
    }
}

proof fn lemma_scan_escape_body(s: Seq<u8>, i: int, c: u8, room: bool)
    requires
        1 <= i <= s.len(),
    ensures
        ends_within(scan_escape_body(s, i, c, room), i - 1, s.len() as int),
{
    if c != esc_byte() && c != 0x4f && c == 0x5b && !idle(s, i, room) && i < s.len() {
        if s[i] == 0x3c {
            lemma_scan_mouse(s, i + 1);
        } else {
            lemma_scan_csi(s, i);
        }
    }
}

/// One step of `decode_all`.
proof fn lemma_decode_all_step(s: Seq<u8>, p: int, room: bool)
    requires
        0 <= p <= s.len(),
    ensures
        ({
            let (r, extra) = apply_extra_escape(parse_event_spec(s, p, room).0, parse_event_spec(s, p, room).1);
            let p1 = if extra { p + 1 } else { p };
            let esc: Seq<(Event, Seq<u8>)> = if extra {
                seq![(Event::Key(plain(Key::Escape)), s.subrange(p, p + 1))]
            } else {
                seq![]
            };
            match r {
                Scan::Done(e, q) => p < q <= s.len() && p1 <= q && decode_all(s, p, room).0
                    == esc + seq![(e, s.subrange(p1, q))] + decode_all(s, q, room).0
                    && decode_all(s, p, room).1 == decode_all(s, q, room).1,
                Scan::Bad(q) => p < q <= s.len() && p1 <= q && decode_all(s, p, room).0
                    == esc + seq![(Event::Key(plain(Key::Unknown)), s.subrange(p1, q))] + decode_all(s, q, room).0
                    && decode_all(s, p, room).1 == decode_all(s, q, room).1,
                Scan::Short => decode_all(s, p, room).0 == Seq::<(Event, Seq<u8>)>::empty()
                    && decode_all(s, p, room).1 == p,
            }
        }),
{
    reveal(decode_all);
    lemma_parse_event_progress(s, p, room);
}

/// Every decoded event consumes at least one byte, and an extra escape byte comes with at
/// least one more.
proof fn lemma_parse_event_progress(s: Seq<u8>, p: int, room: bool)
    requires
        0 <= p,
    ensures
        ends_within(parse_event_spec(s, p, room).0, p + 1, s.len() as int),
        parse_event_spec(s, p, room).1 ==> ends_within(parse_event_spec(s, p, room).0, p + 2, s.len() as int),
{
    reveal(parse_event_spec);
    if p < s.len() {
        if s[p] == esc_byte() {
            if !idle(s, p + 1, room) && p + 1 < s.len() {
                if s[p + 1] == esc_byte() {
                    if !idle(s, p + 2, room) && p + 2 < s.len() {
                        lemma_scan_escape_body(s, p + 3, s[p + 2], room);
                    }
                } else {
                    lemma_scan_escape_body(s, p + 2, s[p + 1], room);
                }
            }
        }
    }
}

/// The bytes of the events, one after another.
pub open spec fn event_bytes(evs: Seq<(Event, Seq<u8>)>) -> Seq<u8>
    decreases evs.len(),
{
    if evs.len() == 0 {
        Seq::empty()
    } else {
        evs[0].1 + event_bytes(evs.drop_first())
    }
}

proof fn lemma_event_bytes_concat(a: Seq<(Event, Seq<u8>)>, b: Seq<(Event, Seq<u8>)>)
    ensures
        event_bytes(a + b) == event_bytes(a) + event_bytes(b),
    decreases a.len(),
{
    if a.len() == 0 {
        assert(a + b =~= b);
        assert(event_bytes(a) + event_bytes(b) =~= event_bytes(b));
    } else {
        assert((a + b).drop_first() =~= a.drop_first() + b);
        lemma_event_bytes_concat(a.drop_first(), b);
        assert(event_bytes(a + b) =~= event_bytes(a) + event_bytes(b));
    }
}

/// Decoding loses and repeats no byte: the bytes of the decoded events, one after another, are
/// exactly the input from where decoding started to where it stopped.
pub proof fn lemma_decode_covers_input(s: Seq<u8>, p: int, room: bool)
    requires
        0 <= p <= s.len(),
    ensures
        p <= decode_all(s, p, room).1 <= s.len(),
        event_bytes(decode_all(s, p, room).0) == s.subrange(p, decode_all(s, p, room).1),
    decreases s.len() - p,
{
    lemma_decode_all_step(s, p, room);
    let (r, extra) = apply_extra_escape(parse_event_spec(s, p, room).0, parse_event_spec(s, p, room).1);
    let p1 = if extra { p + 1 } else { p };
    let esc: Seq<(Event, Seq<u8>)> = if extra {
        seq![(Event::Key(plain(Key::Escape)), s.subrange(p, p + 1))]
    } else {
        seq![]
    };
    let q = match r {
        Scan::Done(_, q) => q,
        Scan::Bad(q) => q,
        Scan::Short => p,
    };
    match r {
        Scan::Short => {
            assert(s.subrange(p, p) =~= Seq::<u8>::empty());
        },
        _ => {
            let ev = match r {
                Scan::Done(e, _) => e,
                _ => Event::Key(plain(Key::Unknown)),
            };
            lemma_decode_covers_input(s, q, room);
            let (rest, f) = decode_all(s, q, room);
            let one: Seq<(Event, Seq<u8>)> = seq![(ev, s.subrange(p1, q))];
            lemma_event_bytes_concat(esc + one, rest);
            lemma_event_bytes_concat(esc, one);
            assert(event_bytes(one) =~= s.subrange(p1, q)) by {
                reveal_with_fuel(event_bytes, 2);
                assert(one.drop_first() =~= Seq::<(Event, Seq<u8>)>::empty());
            }
            assert(event_bytes(esc) =~= s.subrange(p, p1)) by {
                reveal_with_fuel(event_bytes, 2);
                if extra {
                    assert(esc.drop_first() =~= Seq::<(Event, Seq<u8>)>::empty());
                }
            }
            assert(s.subrange(p, f) =~= s.subrange(p, p1) + s.subrange(p1, q) + s.subrange(q, f));
        },
    }
}

/// Decoding stops only where the input holds no complete event: what is left is the start of
/// a sequence that more input may complete.
pub proof fn lemma_decode_stops_at_incomplete(s: Seq<u8>, p: int, room: bool)
    requires
        0 <= p <= s.len(),
    ensures
        parse_event_spec(s, decode_all(s, p, room).1, room).0 is Short,
    decreases s.len() - p,
{
    lemma_decode_all_step(s, p, room);
    let (r, extra) = apply_extra_escape(parse_event_spec(s, p, room).0, parse_event_spec(s, p, room).1);
    match r {
        Scan::Done(_, q) => {
            lemma_decode_stops_at_incomplete(s, q, room);
        },
        Scan::Bad(q) => {
            lemma_decode_stops_at_incomplete(s, q, room);
        },
        Scan::Short => {
            assert(parse_event_spec(s, p, room).0 is Short);
        },
    }
}


/// The vt key codes of the editing and function keys, as VT220 terminals send them in
/// `ESC [ n ~`: 1 and 7 Home, 2 Insert, 3 Delete, 4 and 8 End, 5 PageUp, 6 PageDown; the
/// function keys in groups 10-15, 17-21, 23-26, 28-29, 31-34, numbered on from F0 without
/// gaps; every other code is no key. The six editing codes give six different keys, and the
/// codes shared with xterm sequences (Home and End, F1 to F4) give the same keys as those.
pub proof fn lemma_vt_key_codes()
    ensures
        ansi_key_vt_spec(1) == Some(Key::Home),
        ansi_key_vt_spec(2) == Some(Key::Insert),
        ansi_key_vt_spec(3) == Some(Key::Delete),
        ansi_key_vt_spec(4) == Some(Key::End),
        ansi_key_vt_spec(5) == Some(Key::PageUp),
        ansi_key_vt_spec(6) == Some(Key::PageDown),
        ansi_key_vt_spec(7) == Some(Key::Home),
        ansi_key_vt_spec(8) == Some(Key::End),
        forall|a: nat, b: nat| 1 <= a < b <= 6 ==> ansi_key_vt_spec(a) != ansi_key_vt_spec(b),
        ansi_key_vt_spec(1) == ansi_key_xterm_spec(0x48) && ansi_key_vt_spec(4) == ansi_key_xterm_spec(0x46),
        forall|c: u8| 0x50 <= c <= 0x53 ==> ansi_key_xterm_spec(c) == ansi_key_vt_spec((c - 0x50 + 11) as nat),
        ansi_key_vt_spec(10) == Some(Key::F(0)),
        ansi_key_vt_spec(34) == Some(Key::F(20)),
        forall|a: nat, b: nat|
            #![trigger ansi_key_vt_spec(a), ansi_key_vt_spec(b)]
            10 <= a < b && ansi_key_vt_spec(a) is Some && ansi_key_vt_spec(b) is Some
                ==> ansi_key_vt_spec(b) == Some(Key::F((ansi_key_vt_spec(a)->0->F_0 + 1 + (b - a) - 1 - gaps_between(a, b)) as u8)),
        forall|n: nat| (n == 0 || n == 9 || n == 16 || n == 22 || n == 27 || n == 30 || n > 34) ==> ansi_key_vt_spec(n) is None,
{
}

/// The number of unused codes between function key codes `a` and `b` (16, 22, 27 and 30).
pub open spec fn gaps_between(a: nat, b: nat) -> int {
    (if a < 16 < b { 1int } else { 0 }) + (if a < 22 < b { 1int } else { 0 }) + (if a < 27 < b { 1int } else { 0 }) + (
    if a < 30 < b {
        1int
    } else {
        0
    })
}

} // verus!
