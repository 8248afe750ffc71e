//! The keyboard, the mouse and the input ring.
use onyxos::input::{self, InputRing, BTN_LEFT, BTN_RIGHT, EV_KIND_KEY, EV_KIND_MOUSE, EV_SIZE, KEY_DOWN, KEY_UP};
use onyxos::keyboard::{
    self, echo_bytes, encode_utf8, key_report, line_pending, numpad_alias, queue_key, take_line, Decoded, KeyEcho,
    KeyReport, KeyRing, Keyboard, FLAG_RAW,
};
use onyxos::mouse::{self, InitAction, InitError, MouseInit, Reply};

fn record(b: &[u8], k: usize) -> (u8, u8, u16, i32, i32, u64) {
    let r = &b[k * EV_SIZE..(k + 1) * EV_SIZE];
    (
        r[0],
        r[1],
        u16::from_le_bytes([r[2], r[3]]),
        i32::from_le_bytes([r[4], r[5], r[6], r[7]]),
        i32::from_le_bytes([r[8], r[9], r[10], r[11]]),
        u64::from_le_bytes([r[16], r[17], r[18], r[19], r[20], r[21], r[22], r[23]]),
    )
}

#[test]
fn ring_keeps_order_and_layout() {
    let mut ring = InputRing::new();
    input::push_mouse(&mut ring, -123, 45, BTN_LEFT, 7);
    input::push_key(&mut ring, 0x1E, true, 8);
    input::push_key(&mut ring, 0x1E, false, 9);
    assert!(input::pending(&ring));
    let mut b = [0u8; 60];
    assert_eq!(input::drain(&mut ring, &mut b), 48);
    assert_eq!(record(&b, 0), (EV_KIND_MOUSE, BTN_LEFT, 0, -123, 45, 7));
    assert_eq!(record(&b, 1), (EV_KIND_KEY, KEY_DOWN, 0x1E, 0, 0, 8));
    assert_eq!(input::count(&ring), 1);
    assert_eq!(input::drain(&mut ring, &mut b), 24);
    assert_eq!(record(&b, 0), (EV_KIND_KEY, KEY_UP, 0x1E, 0, 0, 9));
    assert_eq!(input::drain(&mut ring, &mut b), 0);
}

#[test]
fn ring_drops_what_does_not_fit() {
    let mut ring = InputRing::new();
    for i in 0..300 {
        input::push_key(&mut ring, i, true, 1);
    }
    assert_eq!(input::count(&ring), 256);
    assert_eq!(input::total(&ring) + input::dropped(&ring), 300);
    assert_eq!(input::dropped(&ring), 44);
    let mut b = vec![0u8; 256 * EV_SIZE];
    assert_eq!(input::drain(&mut ring, &mut b), 256 * EV_SIZE);
    assert_eq!(record(&b, 255).2, 255);
    assert!(!input::pending(&ring));
}

#[test]
fn ring_self_test() {
    let mut ring = InputRing::new();
    input::push_key(&mut ring, 1, true, 1);
    let r = input::input_test(&mut ring, 99);
    assert!(r.mouse_ok && r.key_ok && r.drop_ok);
    assert_eq!((r.kept, r.dropped_delta), (256, 44));
    assert_eq!(input::clear(&mut ring), 0);
    assert_eq!(input::init(), "input: event size = 24 bytes (expect 24), ring = 256 events");
}

fn typed(codes: &[u8]) -> (Keyboard, InputRing) {
    let mut kb = keyboard::init();
    let mut ring = InputRing::new();
    for c in codes {
        keyboard::handle_irq(&mut kb, &mut ring, *c, 5);
    }
    (kb, ring)
}

#[test]
fn a_line_is_edited_and_taken() {
    // h, i, backspace, o, Enter, then x.
    let (mut kb, _) = typed(&[0x23, 0xA3, 0x17, 0x97, 0x0E, 0x8E, 0x18, 0x98, 0x1C, 0x9C, 0x2D]);
    assert!(line_pending(&kb));
    let mut out = [0u8; 128];
    let (n, echo) = take_line(&mut kb, &mut out);
    assert_eq!(&out[..n], b"ho");
    assert_eq!(
        echo,
        vec![KeyEcho::Char('h' as u32), KeyEcho::Char('i' as u32), KeyEcho::Backspace, KeyEcho::Char('o' as u32), KeyEcho::Enter]
    );
    assert!(!line_pending(&kb));
    let (m, rest) = take_line(&mut kb, &mut out);
    assert_eq!((m, rest), (0, vec![KeyEcho::Char('x' as u32)]));
}

#[test]
fn a_line_holds_at_most_128_bytes() {
    let mut codes = vec![0x1Eu8; 200];
    codes.push(0x1C);
    let (mut kb, _) = typed(&codes);
    let mut out = [0u8; 256];
    let (n, _) = take_line(&mut kb, &mut out);
    assert_eq!(n, 128);
}

#[test]
fn keys_become_input_events() {
    let (mut kb, mut ring) = typed(&[0x1E, 0x9E, 0xE0, 0x48]);
    let mut b = [0u8; 96];
    assert_eq!(input::drain(&mut ring, &mut b), 72);
    let a = pc_keyboard::KeyCode::A as u16;
    assert_eq!(record(&b, 0), (EV_KIND_KEY, KEY_DOWN, a, 0, 0, 5));
    assert_eq!(record(&b, 1), (EV_KIND_KEY, KEY_UP, a, 0, 0, 5));
    let up = pc_keyboard::KeyCode::ArrowUp as u64;
    assert_eq!(record(&b, 2).2 as u64, up);
    let keys = keyboard::run_reader(&mut kb);
    assert_eq!(keys, vec!['a' as u64, FLAG_RAW + up]);
    assert!(keyboard::run_reader(&mut kb).is_empty());
}

#[test]
fn shift_makes_capitals() {
    let (mut kb, _) = typed(&[0x2A, 0x1E, 0x9E, 0xAA, 0x1E]);
    assert_eq!(keyboard::run_reader(&mut kb).iter().filter(|v| **v < FLAG_RAW).count(), 2);
    let (mut kb, _) = typed(&[0x2A, 0x1E, 0x9E, 0xAA, 0x1E, 0x1C]);
    let mut out = [0u8; 8];
    let (n, _) = take_line(&mut kb, &mut out);
    assert_eq!(&out[..n], b"Aa");
}

#[test]
fn key_ring_is_bounded() {
    let mut r = KeyRing::new();
    for i in 0..300u64 {
        r.ring_push(i);
    }
    let mut got = Vec::new();
    while let Some(v) = r.ring_pop() {
        got.push(v);
    }
    assert_eq!(got, (0..255u64).collect::<Vec<u64>>());
    queue_key(&mut r, None);
    assert_eq!(r.ring_pop(), None);
    queue_key(&mut r, Some(Decoded::Raw(9)));
    assert_eq!(r.ring_pop(), Some(FLAG_RAW + 9));
}

#[test]
fn characters_encode_as_utf8() {
    for c in ['a', '\u{e9}', '\u{20ac}', '\u{1F600}'] {
        let mut b = [0u8; 4];
        assert_eq!(encode_utf8(c as u32), c.encode_utf8(&mut b).as_bytes());
    }
    assert_eq!(echo_bytes(KeyEcho::Enter), vec![0x0D, 0x0A]);
    assert_eq!(echo_bytes(KeyEcho::Backspace), vec![0x08]);
    assert_eq!(echo_bytes(KeyEcho::Char(0xE9)), vec![0xC3, 0xA9]);
}

#[test]
fn keys_are_reported_by_kind() {
    assert!(matches!(key_report(9), KeyReport::Named("Tab")));
    assert!(matches!(key_report(1), KeyReport::Ctrl(1)));
    assert!(matches!(key_report('q' as u64), KeyReport::Char(c) if c == 'q' as u32));
    assert!(matches!(key_report(0xD800), KeyReport::BadCodepoint(0xD800)));
    assert!(matches!(key_report(FLAG_RAW + 57), KeyReport::Key(57, Some("ArrowUp"))));
    assert!(matches!(key_report(FLAG_RAW + 1), KeyReport::Key(1, None)));
    assert!(matches!(key_report(FLAG_RAW + 200), KeyReport::UnknownKey(200)));
    assert_eq!(numpad_alias(pc_keyboard::KeyCode::Numpad8 as u64), Some("ArrowUp"));
    assert_eq!(numpad_alias(pc_keyboard::KeyCode::Numpad4 as u64), Some("ArrowLeft"));
    assert_eq!(numpad_alias(0), None);
}

#[test]
fn three_bytes_make_a_mouse_packet() {
    let mut m = mouse::new_mouse();
    let mut ring = InputRing::new();
    // A byte without the marker bit is skipped.
    assert_eq!(mouse::handle_irq(&mut m, &mut ring, 0x01, 3), None);
    // Left and right pressed, x negative.
    assert_eq!(mouse::handle_irq(&mut m, &mut ring, 0x1B, 3), None);
    assert_eq!(mouse::handle_irq(&mut m, &mut ring, 0xFB, 3), None);
    assert_eq!(mouse::handle_irq(&mut m, &mut ring, 0x07, 3), Some((-5, -7)));
    let mut b = [0u8; 24];
    input::drain(&mut ring, &mut b);
    assert_eq!(record(&b, 0), (EV_KIND_MOUSE, BTN_LEFT + BTN_RIGHT, 0, -5, -7, 3));
    assert_eq!(mouse::read_packet(&mut m), (-5, 7, true, true));
    assert_eq!(mouse::read_packet(&mut m), (0, 0, true, true));
    let line = mouse::run_reader((0, 0, false, false), (-5, 7, true, false), 100, 200);
    assert_eq!(line.unwrap(), "[mouse] pos=(100,200) dx=-5 dy=7 L=1 R=0");
    assert_eq!(mouse::run_reader((1, 1, false, false), (1, 1, false, false), 0, 0), None);
    assert_eq!(mouse::run_reader((1, 1, false, false), (0, 0, false, false), 0, 0), None);
}

/// Run bring-up with a controller that acknowledges everything.
fn bring_up(status: u8, ack: u8) -> (Vec<InitAction>, InitAction) {
    let mut st = MouseInit { step: 0, status: 0 };
    let mut seen = Vec::new();
    let mut a = mouse::init(&mut st, None);
    for _ in 0..40 {
        let reply = match a {
            InitAction::Command(_) | InitAction::Data(_) => Reply::Written,
            InitAction::Read => Reply::Byte(if seen.len() == 1 { status } else { ack }),
            _ => return (seen, a),
        };
        seen.push(a);
        a = mouse::init(&mut st, Some(reply));
    }
    (seen, a)
}

#[test]
fn mouse_bring_up() {
    let (seen, last) = bring_up(0x21, 0xFA);
    assert_eq!(last, InitAction::Done);
    assert_eq!(seen.len(), 16);
    assert_eq!(seen[0], InitAction::Command(0x20));
    assert_eq!(seen[3], InitAction::Data(0x03));
    assert_eq!(seen[5], InitAction::Data(0xF6));
    assert_eq!(seen[8], InitAction::Data(0xF3));
    assert_eq!(seen[11], InitAction::Data(200));
    assert_eq!(seen[14], InitAction::Data(0xF4));
    assert_eq!(bring_up(0x21, 0xFE).1, InitAction::Fail(InitError::NoAck));
}

#[test]
fn mouse_bring_up_times_out() {
    let mut st = MouseInit { step: 0, status: 0 };
    assert_eq!(mouse::init(&mut st, None), InitAction::Command(0x20));
    assert_eq!(mouse::init(&mut st, Some(Reply::Timeout)), InitAction::Fail(InitError::CommandTimeout));
    let mut st = MouseInit { step: 1, status: 0 };
    assert_eq!(mouse::init(&mut st, Some(Reply::Timeout)), InitAction::Fail(InitError::ReadTimeout));
    let mut st = MouseInit { step: 3, status: 0 };
    assert_eq!(mouse::init(&mut st, Some(Reply::Timeout)), InitAction::Fail(InitError::DataTimeout));
}
