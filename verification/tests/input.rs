use nnd::input::{Event, EventInfo, InputReader, MouseButton, MouseEvent, MouseEventEx, SmallArray};
use nnd::keys::{Key, KeyEx, ModKeys};

fn decode(reader: &mut InputReader, data: &[u8]) -> Vec<(Event, Vec<u8>)> {
    let free = reader.prepare_read();
    assert!(data.len() <= free);
    let mut out: Vec<EventInfo> = Vec::new();
    reader.consume_input(data, &mut out);
    out.iter().map(|e| (e.ev, e.bytes.as_slice().to_vec())).collect()
}

fn key(k: Key, bits: u8) -> Event {
    Event::Key(KeyEx { key: k, mods: ModKeys { bits } })
}

#[test]
fn plain_and_control_characters() {
    let mut r = InputReader::new();
    let evs = decode(&mut r, b"a\x03\x7f\r\x08\x00");
    assert_eq!(
        evs,
        vec![
            (key(Key::Char('a'), 0), b"a".to_vec()),
            (key(Key::Char('c'), 4), b"\x03".to_vec()),
            (key(Key::Backspace, 0), b"\x7f".to_vec()),
            (key(Key::Char('\n'), 0), b"\r".to_vec()),
            (key(Key::Backspace, 4), b"\x08".to_vec()),
            (key(Key::Char(' '), 4), b"\x00".to_vec()),
        ]
    );
}

#[test]
fn utf8_character() {
    let mut r = InputReader::new();
    let evs = decode(&mut r, "é€".as_bytes());
    assert_eq!(
        evs,
        vec![
            (key(Key::Char('é'), 0), "é".as_bytes().to_vec()),
            (key(Key::Char('€'), 0), "€".as_bytes().to_vec()),
        ]
    );
}

#[test]
fn invalid_utf8_is_unknown() {
    let mut r = InputReader::new();
    let evs = decode(&mut r, b"\xc3\x28");
    assert_eq!(evs, vec![(key(Key::Unknown, 0), b"\xc3\x28".to_vec())]);
}

#[test]
fn arrow_keys_with_modifiers() {
    let mut r = InputReader::new();
    let evs = decode(&mut r, b"\x1b[A\x1b[1;5B\x1b[1;3C\x1bOD\x1b[1;10D");
    assert_eq!(
        evs,
        vec![
            (key(Key::Up, 0), b"\x1b[A".to_vec()),
            (key(Key::Down, 4), b"\x1b[1;5B".to_vec()),
            (key(Key::Right, 2), b"\x1b[1;3C".to_vec()),
            (key(Key::Left, 0), b"\x1bOD".to_vec()),
            // Meta (8) turns into Alt.
            (key(Key::Left, 3), b"\x1b[1;10D".to_vec()),
        ]
    );
}

#[test]
fn vt_keys_and_function_keys() {
    let mut r = InputReader::new();
    let evs = decode(&mut r, b"\x1b[5~\x1b[3;2~\x1b[15~\x1bOQ\x1b[24~");
    assert_eq!(
        evs,
        vec![
            (key(Key::PageUp, 0), b"\x1b[5~".to_vec()),
            (key(Key::Delete, 1), b"\x1b[3;2~".to_vec()),
            (key(Key::F(5), 0), b"\x1b[15~".to_vec()),
            (key(Key::F(2), 0), b"\x1bOQ".to_vec()),
            (key(Key::F(12), 0), b"\x1b[24~".to_vec()),
        ]
    );
}

#[test]
fn unsupported_sequence_is_unknown() {
    let mut r = InputReader::new();
    let evs = decode(&mut r, b"\x1b[Zx\x1b[99~");
    assert_eq!(
        evs,
        vec![
            (key(Key::Unknown, 0), b"\x1b[Z".to_vec()),
            (key(Key::Char('x'), 0), b"x".to_vec()),
            (key(Key::Unknown, 0), b"\x1b[99~".to_vec()),
        ]
    );
}

#[test]
fn escape_and_alt_keys() {
    let mut r = InputReader::new();
    assert_eq!(decode(&mut r, b"\x1b"), vec![(key(Key::Escape, 0), b"\x1b".to_vec())]);
    assert_eq!(decode(&mut r, b"\x1bx"), vec![(key(Key::Char('x'), 2), b"\x1bx".to_vec())]);
    assert_eq!(decode(&mut r, b"\x1b["), vec![(key(Key::Char('['), 2), b"\x1b[".to_vec())]);
    assert_eq!(decode(&mut r, b"\x1bO"), vec![(key(Key::Char('O'), 2), b"\x1bO".to_vec())]);
    assert_eq!(
        decode(&mut r, b"\x1b\x1b"),
        vec![(key(Key::Escape, 0), b"\x1b".to_vec()), (key(Key::Escape, 0), b"\x1b".to_vec())]
    );
    assert_eq!(decode(&mut r, b"\x1b\x01"), vec![(key(Key::Char('a'), 6), b"\x1b\x01".to_vec())]);
}

#[test]
fn extra_escape_means_alt_for_arrows() {
    let mut r = InputReader::new();
    assert_eq!(decode(&mut r, b"\x1b\x1b[A"), vec![(key(Key::Up, 2), b"\x1b\x1b[A".to_vec())]);
    assert_eq!(
        decode(&mut r, b"\x1b\x1b[H"),
        vec![(key(Key::Escape, 0), b"\x1b".to_vec()), (key(Key::Home, 0), b"\x1b[H".to_vec())]
    );
}

#[test]
fn mouse_events() {
    let mut r = InputReader::new();
    let evs = decode(&mut r, b"\x1b[<0;3;4M\x1b[<2;10;1m\x1b[<32;5;6M\x1b[<64;1;1M\x1b[<21;7;8M");
    let m = |pos: [isize; 2], button, event, bits| Event::Mouse(MouseEventEx { pos, button, event, mods: ModKeys { bits } });
    assert_eq!(
        evs,
        vec![
            (m([2, 3], MouseButton::Left, MouseEvent::Press, 0), b"\x1b[<0;3;4M".to_vec()),
            (m([9, 0], MouseButton::Right, MouseEvent::Release, 0), b"\x1b[<2;10;1m".to_vec()),
            (m([4, 5], MouseButton::Left, MouseEvent::Move, 0), b"\x1b[<32;5;6M".to_vec()),
            (m([0, 0], MouseButton::NoButton, MouseEvent::ScrollUp, 0), b"\x1b[<64;1;1M".to_vec()),
            (m([6, 7], MouseButton::Middle, MouseEvent::Press, 5), b"\x1b[<21;7;8M".to_vec()),
        ]
    );
}

#[test]
fn focus_events() {
    let mut r = InputReader::new();
    let evs = decode(&mut r, b"\x1b[I\x1b[O");
    assert_eq!(evs, vec![(Event::FocusIn, b"\x1b[I".to_vec()), (Event::FocusOut, b"\x1b[O".to_vec())]);
}

#[test]
fn sequence_split_across_reads() {
    let mut r = InputReader::new();
    assert_eq!(decode(&mut r, b"q\x1b[1;"), vec![(key(Key::Char('q'), 0), b"q".to_vec())]);
    assert_eq!(decode(&mut r, b"5"), vec![]);
    assert_eq!(decode(&mut r, b"A"), vec![(key(Key::Up, 4), b"\x1b[1;5A".to_vec())]);
    assert_eq!(decode(&mut r, &[0xe2, 0x82]), vec![]);
    assert_eq!(decode(&mut r, &[0xac]), vec![(key(Key::Char('€'), 0), "€".as_bytes().to_vec())]);
}

#[test]
fn many_reads_keep_room() {
    let mut r = InputReader::new();
    for _ in 0..100 {
        let evs = decode(&mut r, b"abc\x1b[1");
        assert_eq!(evs.len(), 3);
        let evs = decode(&mut r, b"B");
        assert_eq!(evs, vec![(key(Key::Down, 0), b"\x1b[1B".to_vec())]);
    }
    assert!(r.prepare_read() >= 64);
}

#[test]
fn small_array_inline_and_long() {
    let a = SmallArray::new(b"abc");
    assert!(matches!(a, SmallArray::Short { .. }));
    assert_eq!(a.as_slice(), b"abc");
    let long = [7u8; 30];
    let b = SmallArray::new(&long);
    assert!(matches!(b, SmallArray::Long(_)));
    assert_eq!(b.as_slice(), &long[..]);
    assert_eq!(SmallArray::default().as_slice(), b"");
    let e = EventInfo::new(Event::FocusIn, b"xy");
    assert_eq!(e.bytes.as_slice(), b"xy");
    assert!(!e.ev.is_key());
    assert!(Event::Key(Key::Up.plain()).is_key());
}

#[test]
fn event_bytes_cover_the_input() {
    let mut r = InputReader::new();
    let input: &[u8] = b"x\x1b[1;5A\x1b[<0;3;4M\xc3\xa9\x1b[Z\x1b\x1b[5~\x7f";
    let evs = decode(&mut r, input);
    let all: Vec<u8> = evs.iter().flat_map(|(_, b)| b.clone()).collect();
    assert_eq!(all, input.to_vec());
    assert_eq!(evs.len(), 7);
}
