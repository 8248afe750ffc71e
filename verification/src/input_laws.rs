//! What a byte from the mouse or a key from the keyboard means, from the wire to the line.
use vstd::prelude::*;

use crate::disk_laws::{law_numbers, number_at};
use crate::input::{
    event_bytes, key_event, lemma_event_fields, mouse_event, offered, wire, InputEvent, InputRing,
};
use crate::keyboard::{
    codepoint, echo_seq, entry_of, first_newline, is_newline, keys_with, line_step, utf8, Decoded,
    KeyEcho,
};
use crate::mouse::{
    action_at, buttons, config_spec, init_error, next_state, InitAction, InitError, Mouse, Packet,
    Reply,
};

verus! {

/// Three bytes make a packet: the first, told by its bit 3, holds the buttons in its bits 0 and
/// 1 and the signs of the two movements in its bits 4 and 5; the others hold the movements,
/// each in nine bits with its sign.
#[verifier::spinoff_prover]
#[verifier::rlimit(40)]
pub proof fn law_mouse_packet(m: Mouse, b0: u8, b1: u8, b2: u8)
    requires
        m.idx == 0,
        b0 as int / 8 % 2 == 1,
    ensures
        ({
            let s0 = next_state(m, b0);
            let s1 = next_state(s0.0, b1);
            let s2 = next_state(s1.0, b2);
            &&& s0.1 is None && s1.1 is None && s2.1 is Some
            &&& s2.0.idx == 0
            &&& s2.0.packet == s2.1->0
            &&& s2.1->0.dx + 256 * (b0 as int / 16 % 2) == b1
            &&& s2.1->0.dy + 256 * (b0 as int / 32 % 2) == b2
            &&& s2.1->0.left == (b0 % 2 == 1)
            &&& s2.1->0.right == (b0 as int / 2 % 2 == 1)
        }),
{
}

/// A byte without the mark of a first byte is passed over, so that the packets fall into step.
pub proof fn law_mouse_falls_into_step(m: Mouse, b: u8)
    requires
        m.idx == 0,
        b as int / 8 % 2 == 0,
    ensures
        next_state(m, b) == (m, None::<Packet>),
{
}

/// The event for a packet has the left button in bit 0 and the right one in bit 1.
pub proof fn law_mouse_buttons(p: Packet)
    ensures
        buttons(p) % 2 == if p.left { 1int } else { 0 },
        buttons(p) / 2 == if p.right { 1int } else { 0 },
{
}

/// The controller is told to pass the mouse's interrupts, bit 1, and to run its clock, bit 5
/// clear; nothing else changes.
#[verifier::spinoff_prover]
#[verifier::rlimit(40)]
pub proof fn law_controller_setup(status: u8)
    ensures
        config_spec(status) as int / 2 % 2 == 1,
        config_spec(status) as int / 32 % 2 == 0,
        config_spec(status) % 2 == status % 2,
        config_spec(status) as int / 4 % 8 == status as int / 4 % 8,
        config_spec(status) as int / 64 == status as int / 64,
{
    let v = status as int;
    let b1 = v / 2 % 2;
    let m = v / 4 % 8;
    let b5 = v / 32 % 2;
    let h = v / 64;
    lemma_parts_of(v);
    lemma_parts(v % 2, b1, m, b5, h);
    lemma_parts(v % 2, 1, m, b5, h);
    lemma_parts(v % 2, 1, m, 0, h);
}

proof fn lemma_parts_of(v: int)
    requires
        0 <= v < 256,
    ensures
        v == v % 2 + 2 * (v / 2 % 2) + 4 * (v / 4 % 8) + 32 * (v / 32 % 2) + 64 * (v / 64),
{
    assert(v / 2 == 2 * (v / 4) + v / 2 % 2) by {
        assert(v / 4 == (v / 2) / 2);
    }
    assert(v / 4 == 8 * (v / 32) + v / 4 % 8) by {
        assert(v / 32 == (v / 4) / 8);
    }
    assert(v / 32 == 2 * (v / 64) + v / 32 % 2) by {
        assert(v / 64 == (v / 32) / 2);
    }
}

proof fn lemma_parts(a: int, b1: int, m: int, b5: int, h: int)
    requires
        0 <= a < 2,
        0 <= b1 < 2,
        0 <= m < 8,
        0 <= b5 < 2,
        0 <= h < 4,
    ensures
        ({
            let v = a + 2 * b1 + 4 * m + 32 * b5 + 64 * h;
            &&& v % 2 == a
            &&& v / 2 % 2 == b1
            &&& v / 4 % 8 == m
            &&& v / 32 % 2 == b5
            &&& v / 64 == h
        }),
{
    let v = a + 2 * b1 + 4 * m + 32 * b5 + 64 * h;
    assert(v / 64 == h);
    assert(v / 32 == b5 + 2 * h);
    assert(v / 4 == m + 8 * (b5 + 2 * h));
    assert(v / 2 == b1 + 2 * (m + 8 * (b5 + 2 * h)));
}

/// After the controller's own byte is read and put back, the mouse is told to take its
/// defaults, to sample two hundred times a second and to report, and each byte of that waits
/// for its acknowledgement.
#[verifier::spinoff_prover]
#[verifier::rlimit(40)]
pub proof fn law_mouse_setup(k: int, status: u8, b: u8)
    requires
        0 <= k < 4,
    ensures
        action_at(0, status) == InitAction::Command(0x20),
        action_at(1, status) is Read,
        action_at(2, status) == InitAction::Command(0x60),
        action_at(3, status) == InitAction::Data(config_spec(status)),
        action_at(4 + 3 * k, status) == InitAction::Command(0xD4),
        action_at(5 + 3 * k, status) == InitAction::Data(seq![0xF6u8, 0xF3, 200, 0xF4][k]),
        action_at(6 + 3 * k, status) is Read,
        action_at(16, status) is Done,
        init_error(6 + 3 * k, status, Reply::Byte(b)) == if b == 0xFA {
            None
        } else {
            Some(InitError::NoAck)
        },
        init_error(1, status, Reply::Byte(b)) is None,
{
}

/// An event takes 24 bytes: its kind, its flags, its code in two bytes, the two movements in
/// four each, four bytes of nought and the time in eight, each least significant byte first.
#[verifier::spinoff_prover]
#[verifier::rlimit(40)]
pub proof fn law_event_layout(e: InputEvent)
    ensures
        event_bytes(e).len() == 24,
        event_bytes(e)[0] == e.kind,
        event_bytes(e)[1] == e.flags,
        event_bytes(e)[2] + 256 * event_bytes(e)[3] == e.code,
        number_at(event_bytes(e), 4, 4) == if e.x < 0 {
            e.x + 0x1_0000_0000
        } else {
            e.x as int
        },
        number_at(event_bytes(e), 8, 4) == if e.y < 0 {
            e.y + 0x1_0000_0000
        } else {
            e.y as int
        },
        number_at(event_bytes(e), 12, 4) == 0,
        number_at(event_bytes(e), 16, 8) == e.ts_ns,
{
    let b = event_bytes(e);
    lemma_event_fields(e);
    assert(b[12] == 0 && b[13] == 0 && b[14] == 0 && b[15] == 0) by {
        reveal(event_bytes);
    }
    law_numbers(b, 2);
    law_numbers(b, 4);
    law_numbers(b, 8);
    law_numbers(b, 12);
    law_numbers(b, 16);
    reveal_with_fuel(number_at, 5);
}

/// The events of a read follow each other without a gap.
pub proof fn law_events_follow(es: Seq<InputEvent>, k: int, j: int)
    requires
        0 <= k < es.len(),
        0 <= j < 24,
    ensures
        wire(es).len() == 24 * es.len(),
        wire(es)[24 * k + j] == event_bytes(es[k])[j],
    decreases es.len(),
{
    law_event_layout(es.last());
    if es.len() > 1 {
        law_events_follow(es.drop_last(), if k < es.len() - 1 { k } else { 0 }, j);
    } else {
        assert(es.drop_last() =~= Seq::empty());
        assert(wire(es.drop_last()) == Seq::<u8>::empty());
    }
}

/// A key event has kind 1, its key as the code, and 1 or 2 as flags for down or up; a mouse
/// event has kind 2, its movement and its buttons.
pub proof fn law_event_kinds(code: u16, down: bool, dx: i32, dy: i32, b: u8, ts: u64)
    ensures
        key_event(code, down, ts).kind == 1,
        key_event(code, down, ts).flags == if down { 1int } else { 2 },
        key_event(code, down, ts).code == code,
        key_event(code, down, ts).ts_ns == ts,
        mouse_event(dx, dy, b, ts).kind == 2,
        mouse_event(dx, dy, b, ts).flags == b,
        mouse_event(dx, dy, b, ts).x == dx,
        mouse_event(dx, dy, b, ts).y == dy,
        mouse_event(dx, dy, b, ts).ts_ns == ts,
{
}

/// Every event offered is either queued behind the others or counted as dropped, and one is
/// dropped only where 256 are waiting.
pub proof fn law_events_are_accounted_for(a: InputRing, b: InputRing, e: InputEvent)
    requires
        offered(a, b, e),
    ensures
        b.total_spec() + b.dropped_spec() == a.total_spec() + a.dropped_spec() + 1,
        b.dropped_spec() > a.dropped_spec() <==> a@.len() >= 256,
        a@.len() < 256 ==> b@.len() == a@.len() + 1 && b@.last() == e && b@.drop_last() =~= a@,
        a@.len() >= 256 ==> b@ == a@,
{
}

/// A queued key is a character, or, with bit 32 set, the number of a key that is none.
pub proof fn law_queued_keys(c: char, k: u8)
    ensures
        codepoint(entry_of(Decoded::Unicode(c as u32))) == Some(c as u32),
        codepoint(entry_of(Decoded::Raw(k))) is None,
        entry_of(Decoded::Raw(k)) == 0x1_0000_0000 + k,
{
}

/// The bits that a following byte carries.
pub open spec fn carried(b: u8) -> int {
    b as int % 64
}

/// A character takes as many bytes as its number needs. The first tells how many; the others
/// are marked as following ones and carry six bits each.
#[verifier::spinoff_prover]
#[verifier::rlimit(40)]
pub proof fn law_characters(c: u32)
    requires
        c <= 0x10FFFF,
    ensures
        1 <= utf8(c).len() <= 4,
        utf8(c).len() == 1 <==> c < 128,
        utf8(c).len() <= 2 <==> c < 2048,
        utf8(c).len() <= 3 <==> c < 65536,
        forall|i: int| 1 <= i < utf8(c).len() ==> 128 <= #[trigger] utf8(c)[i] < 192,
        utf8(c).len() == 1 ==> utf8(c)[0] == c,
        utf8(c).len() == 2 ==> 192 <= utf8(c)[0] < 224 && c == 64 * (utf8(c)[0] - 192) + carried(utf8(c)[1]),
        utf8(c).len() == 3 ==> 224 <= utf8(c)[0] < 240 && c == 64 * (64 * (utf8(c)[0] - 224) + carried(
            utf8(c)[1],
        )) + carried(utf8(c)[2]),
        utf8(c).len() == 4 ==> 240 <= utf8(c)[0] < 248 && c == 64 * (64 * (64 * (utf8(c)[0] - 240) + carried(
            utf8(c)[1],
        )) + carried(utf8(c)[2])) + carried(utf8(c)[3]),
{
}

/// A printable character is put behind the line while it fits in 128 bytes, and echoed; the
/// backspace takes the last byte off again.
pub proof fn law_typing(line: Seq<u8>, c: u32, back: u32)
    requires
        0x20 <= c < 0x7F,
        line.len() < 128,
        back == 8 || back == 127,
    ensures
        line_step(line, c as u64) == (line.push(c as u8), Some(KeyEcho::Char(c))),
        line_step(line.push(c as u8), back as u64).0 =~= line,
        line_step(line.push(c as u8), back as u64).1 == Some(KeyEcho::Backspace),
        line_step(Seq::empty(), back as u64) == (Seq::<u8>::empty(), None::<KeyEcho>),
{
    assert(utf8(c) =~= seq![c as u8]);
    assert(line + utf8(c) =~= line.push(c as u8));
    assert(line.push(c as u8).drop_last() =~= line);
}

/// Control characters and keys that are no character leave the line alone, and a full line
/// takes no more.
pub proof fn law_line_is_spared(line: Seq<u8>, v: u64, c: u32)
    requires
        0x20 <= c < 0x7F,
    ensures
        v < 32 && v != 8 ==> line_step(line, v) == (line, None::<KeyEcho>),
        0x1_0000_0000 <= v < 0x2_0000_0000 ==> line_step(line, v) == (line, None::<KeyEcho>),
        line.len() >= 128 ==> line_step(line, c as u64) == (line, None::<KeyEcho>),
{
}

/// A line ends at the first carriage return or line feed.
pub proof fn law_line_end(vs: Seq<u64>)
    ensures
        0 <= first_newline(vs) <= vs.len(),
        first_newline(vs) < vs.len() ==> vs[first_newline(vs)] == 10 || vs[first_newline(vs)] == 13
            || vs[first_newline(vs)] >= 0x2_0000_0000,
        forall|i: int|
            0 <= i < first_newline(vs) ==> (#[trigger] vs[i]) != 10 && vs[i] != 13,
    decreases vs.len(),
{
    if vs.len() > 0 && !is_newline(vs[0]) {
        let r = vs.skip(1);
        law_line_end(r);
        assert forall|i: int| 0 <= i < first_newline(vs) implies (#[trigger] vs[i]) != 10 && vs[i] != 13 by {
            if i > 0 {
                assert(r[i - 1] == vs[i]);
            }
        }
        if first_newline(r) < r.len() {
            assert(vs[first_newline(vs)] == r[first_newline(r)]);
        }
    }
}

/// What is typed is echoed: a character as it is stored, the end of the line as a carriage return
/// and a line feed, the backspace as itself.
pub proof fn law_echo(c: u32)
    ensures
        echo_seq(KeyEcho::Char(c)) == utf8(c),
        echo_seq(KeyEcho::Enter) =~= seq![13u8, 10u8],
        echo_seq(KeyEcho::Backspace) =~= seq![8u8],
{
}

/// Keys queue up in the order they come, 255 at most; further ones are lost, and what is no key
/// adds nothing.
pub proof fn law_key_queue(keys: Seq<u64>, d: Decoded)
    ensures
        keys_with(keys, None) == keys,
        keys.len() < 255 ==> keys_with(keys, Some(d)) == keys.push(entry_of(d)),
        keys.len() >= 255 ==> keys_with(keys, Some(d)) == keys,
{
}

} // verus!
