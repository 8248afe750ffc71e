//! PS/2 mouse: controller bring-up and three-byte packets.
//!
//! Byte 0 of a packet carries the buttons, an always-set bit 3 and the sign
//! bits of the two movements that follow. PS/2 counts y upward; the screen
//! counts it downward.
use crate::input::{mouse_event, offered, push_mouse, InputRing, BTN_LEFT, BTN_RIGHT};
use crate::text::{dec, push_dec, push_signed, signed};
use vstd::prelude::*;

verus! {

/// The last completed packet.
#[derive(Copy, Clone, PartialEq, Eq, Debug, Structural)]
pub struct Packet {
    pub dx: i16,
    pub dy: i16,
    pub left: bool,
    pub right: bool,
}

/// Packet assembly: which byte comes next and what the earlier ones said.
#[derive(Copy, Clone, PartialEq, Eq, Debug, Structural)]
pub struct Mouse {
    pub idx: u8,
    pub flags: u8,
    pub dx: i16,
    pub packet: Packet,
}

/// No packet seen yet.
pub fn new_mouse() -> (m: Mouse)
    ensures
        m == (Mouse {
            idx: 0,
            flags: 0,
            dx: 0,
            packet: Packet { dx: 0, dy: 0, left: false, right: false },
        }),
{
    Mouse {
        idx: 0,
        flags: 0,
        dx: 0,
        packet: Packet { dx: 0, dy: 0, left: false, right: false },
    }
}

/// Bit `n` of a byte.
pub open spec fn bit(b: u8, n: int) -> bool {
    if n == 0 {
        b % 2 == 1
    } else if n == 1 {
        b / 2 % 2 == 1
    } else if n == 3 {
        b / 8 % 2 == 1
    } else if n == 4 {
        b / 16 % 2 == 1
    } else {
        b / 32 % 2 == 1
    }
}

/// A movement: nine bits, the sign apart from the byte.
pub open spec fn movement(byte: u8, negative: bool) -> int {
    if negative {
        byte - 256
    } else {
        byte as int
    }
}

/// The packet that three bytes make.
pub open spec fn packet_of(flags: u8, b1: u8, b2: u8) -> Packet {
    Packet {
        dx: movement(b1, bit(flags, 4)) as i16,
        dy: movement(b2, bit(flags, 5)) as i16,
        left: bit(flags, 0),
        right: bit(flags, 1),
    }
}

/// The assembly state after one more byte, and the packet it completes.
pub open spec fn next_state(m: Mouse, byte: u8) -> (Mouse, Option<Packet>) {
    if m.idx == 0 {
        if bit(byte, 3) {
            (Mouse { flags: byte, idx: 1, ..m }, None)
        } else {
            (m, None)
        }
    } else if m.idx == 1 {
        (Mouse { dx: movement(byte, bit(m.flags, 4)) as i16, idx: 2, ..m }, None)
    } else if m.idx == 2 {
        let p = Packet {
            dx: m.dx,
            dy: movement(byte, bit(m.flags, 5)) as i16,
            left: bit(m.flags, 0),
            right: bit(m.flags, 1),
        };
        (Mouse { idx: 0, packet: p, ..m }, Some(p))
    } else {
        (Mouse { idx: 0, ..m }, None)
    }
}

/// The buttons of a packet as the input ring's bit mask.
pub open spec fn buttons(p: Packet) -> u8 {
    ((if p.left { 1int } else { 0 }) + (if p.right { 2int } else { 0 })) as u8
}

/// Three bytes, the first with its marker bit, make their packet and leave the
/// assembly ready for the next one.
pub proof fn law_three_bytes_make_a_packet(m: Mouse, b0: u8, b1: u8, b2: u8)
    requires
        m.idx == 0,
        bit(b0, 3),
    ensures
        ({
            let m1 = next_state(m, b0).0;
            let m2 = next_state(m1, b1).0;
            let (m3, p) = next_state(m2, b2);
            m3.idx == 0 && p == Some(packet_of(b0, b1, b2)) && m3.packet == packet_of(b0, b1, b2)
        }),
{
}

fn signed_byte(byte: u8, negative: bool) -> (r: i16)
    ensures
        r == movement(byte, negative),
{
    if negative {
        byte as i16 - 256
    } else {
        byte as i16
    }
}

/// One byte from the mouse. A completed packet goes to the input ring; the
/// result is how far the cursor moves on screen.
pub fn handle_irq(m: &mut Mouse, input: &mut InputRing, byte: u8, now_ns: u64) -> (r: Option<
    (i32, i32),
>)
    requires
        old(input).wf(),
        old(input).total_spec() < usize::MAX,
        old(input).dropped_spec() < usize::MAX,
    ensures
        final(input).wf(),
        *final(m) == next_state(*old(m), byte).0,
        match next_state(*old(m), byte).1 {
            None => r is None && *final(input) == *old(input),
            Some(p) => {
                &&& r == Some((p.dx as i32, (-p.dy) as i32))
                &&& offered(
                    *old(input),
                    *final(input),
                    mouse_event(p.dx as i32, (-p.dy) as i32, buttons(p), now_ns),
                )
            },
        },
{
    if m.idx == 0 {
        if byte / 8 % 2 == 1 {
            m.flags = byte;
            m.idx = 1;
        }
        None
    } else if m.idx == 1 {
        m.dx = signed_byte(byte, m.flags / 16 % 2 == 1);
        m.idx = 2;
        None
    } else if m.idx == 2 {
        let dy = signed_byte(byte, m.flags / 32 % 2 == 1);
        let p = Packet {
            dx: m.dx,
            dy,
            left: m.flags % 2 == 1,
            right: m.flags / 2 % 2 == 1,
        };
        m.packet = p;
        m.idx = 0;
        let left = if p.left {
            BTN_LEFT
        } else {
            0
        };
        let right = if p.right {
            BTN_RIGHT
        } else {
            0
        };
        let dx = p.dx as i32;
        let up = -(dy as i32);
        push_mouse(input, dx, up, left + right, now_ns);
        Some((dx, up))
    } else {
        m.idx = 0;
        None
    }
}

/// Take the latest packet: its movement is cleared, its buttons stay.
pub fn read_packet(m: &mut Mouse) -> (r: (i16, i16, bool, bool))
    ensures
        r == (old(m).packet.dx, old(m).packet.dy, old(m).packet.left, old(m).packet.right),
        *final(m) == (Mouse { packet: Packet { dx: 0, dy: 0, ..old(m).packet }, ..*old(m) }),
{
    let p = m.packet;
    m.packet.dx = 0;
    m.packet.dy = 0;
    (p.dx, p.dy, p.left, p.right)
}

/// The line the reader task prints for a packet at cursor position `x`, `y`.
pub open spec fn report_text(x: usize, y: usize, p: (i16, i16, bool, bool)) -> Seq<char> {
    "[mouse] pos=("@ + dec(x as nat) + ","@ + dec(y as nat) + ") dx="@ + signed(p.0 as int)
        + " dy="@ + signed(p.1 as int) + " L="@ + dec(if p.2 { 1 } else { 0 }) + " R="@ + dec(
        if p.3 { 1 } else { 0 },
    )
}

/// The reader task's step: the line for a packet that differs from the last one
/// and moves or holds a button.
pub fn run_reader(
    last: (i16, i16, bool, bool),
    cur: (i16, i16, bool, bool),
    x: usize,
    y: usize,
) -> (r: Option<String>)
    ensures
        r is Some <==> cur != last && (cur.0 != 0 || cur.1 != 0 || cur.2 || cur.3),
        r matches Some(s) ==> s@ == report_text(x, y, cur),
{
    let same = cur.0 == last.0 && cur.1 == last.1 && cur.2 == last.2 && cur.3 == last.3;
    if !same && (cur.0 != 0 || cur.1 != 0 || cur.2 || cur.3) {
        let mut s = String::from_str("[mouse] pos=(");
        push_dec(&mut s, x as u64);
        s.append(",");
        push_dec(&mut s, y as u64);
        s.append(") dx=");
        push_signed(&mut s, cur.0 as i32);
        s.append(" dy=");
        push_signed(&mut s, cur.1 as i32);
        s.append(" L=");
        push_dec(&mut s, if cur.2 { 1 } else { 0 });
        s.append(" R=");
        push_dec(&mut s, if cur.3 { 1 } else { 0 });
        Some(s)
    } else {
        None
    }
}

// ---------------------------------------------------------------------------
// Controller bring-up
// ---------------------------------------------------------------------------

/// What the last action on the controller's ports gave.
#[derive(Copy, Clone, PartialEq, Eq, Debug)]
pub enum Reply {
    /// The write went through.
    Written,
    /// The byte read.
    Byte(u8),
    /// The controller did not get ready in time.
    Timeout,
}

/// What to do next on the controller's ports.
#[derive(Copy, Clone, PartialEq, Eq, Debug)]
pub enum InitAction {
    Command(u8),
    Data(u8),
    Read,
    Done,
    Fail(InitError),
}

/// Why bring-up stopped.
#[derive(Copy, Clone, PartialEq, Eq, Debug)]
pub enum InitError {
    CommandTimeout,
    DataTimeout,
    ReadTimeout,
    /// The mouse answered a command with something else than 0xFA.
    NoAck,
}

/// The controller's configuration byte with the second port enabled and its
/// clock running.
pub open spec fn config_spec(status: u8) -> u8 {
    let with_aux = if status / 2 % 2 == 1 {
        status as int
    } else {
        status + 2
    };
    (if with_aux / 32 % 2 == 1 {
        with_aux - 32
    } else {
        with_aux
    }) as u8
}

/// The bytes sent to the mouse: defaults, sample rate 200, streaming.
pub open spec fn mouse_command(k: int) -> u8 {
    if k == 0 {
        0xF6
    } else if k == 1 {
        0xF3
    } else if k == 2 {
        200
    } else {
        0xF4
    }
}

/// Step `n` of bring-up. Steps 0 to 3 rewrite the configuration byte; after
/// that each of the four mouse bytes takes three steps: routing command, byte,
/// acknowledgement.
pub open spec fn action_at(n: int, status: u8) -> InitAction {
    if n == 0 {
        InitAction::Command(0x20)
    } else if n == 1 {
        InitAction::Read
    } else if n == 2 {
        InitAction::Command(0x60)
    } else if n == 3 {
        InitAction::Data(config_spec(status))
    } else if n >= 16 {
        InitAction::Done
    } else if (n - 4) % 3 == 0 {
        InitAction::Command(0xD4)
    } else if (n - 4) % 3 == 1 {
        InitAction::Data(mouse_command((n - 4) / 3))
    } else {
        InitAction::Read
    }
}

/// The error that `reply` to step `n` stands for, where it is one.
pub open spec fn init_error(n: int, status: u8, reply: Reply) -> Option<InitError> {
    match (action_at(n, status), reply) {
        (InitAction::Command(_), Reply::Timeout) => Some(InitError::CommandTimeout),
        (InitAction::Data(_), Reply::Timeout) => Some(InitError::DataTimeout),
        (InitAction::Read, Reply::Timeout) => Some(InitError::ReadTimeout),
        (InitAction::Read, Reply::Byte(b)) if n >= 4 && b != 0xFA => Some(InitError::NoAck),
        _ => None,
    }
}

/// How far bring-up has come.
#[derive(Copy, Clone, PartialEq, Eq, Debug)]
pub struct MouseInit {
    pub step: u8,
    /// The configuration byte that step 1 read.
    pub status: u8,
}

fn config_byte(status: u8) -> (r: u8)
    ensures
        r == config_spec(status),
{
    let with_aux = if status / 2 % 2 == 1 {
        status
    } else {
        status + 2
    };
    if with_aux / 32 % 2 == 1 {
        with_aux - 32
    } else {
        with_aux
    }
}

fn action(n: u8, status: u8) -> (a: InitAction)
    ensures
        a == action_at(n as int, status),
{
    if n == 0 {
        InitAction::Command(0x20)
    } else if n == 1 {
        InitAction::Read
    } else if n == 2 {
        InitAction::Command(0x60)
    } else if n == 3 {
        InitAction::Data(config_byte(status))
    } else if n >= 16 {
        InitAction::Done
    } else if (n - 4) % 3 == 0 {
        InitAction::Command(0xD4)
    } else if (n - 4) % 3 == 1 {
        let k = (n - 4) / 3;
        InitAction::Data(
            if k == 0 {
                0xF6
            } else if k == 1 {
                0xF3
            } else if k == 2 {
                200
            } else {
                0xF4
            },
        )
    } else {
        InitAction::Read
    }
}

/// Bring-up, one port action at a time: `reply` answers the action of the
/// current step (`None` to start), the result is the next action.
pub fn init(st: &mut MouseInit, reply: Option<Reply>) -> (a: InitAction)
    requires
        old(st).step <= 16,
    ensures
        reply is None ==> a == action_at(0, old(st).status) && *final(st) == (MouseInit {
            step: 0,
            ..*old(st)
        }),
        reply matches Some(r) ==> match init_error(old(st).step as int, old(st).status, r) {
            Some(e) => a == InitAction::Fail(e) && *final(st) == *old(st),
            None => {
                &&& final(st).step == if old(st).step < 16 { old(st).step + 1 } else { 16 }
                &&& final(st).status == match r {
                    Reply::Byte(b) if old(st).step == 1 => b,
                    _ => old(st).status,
                }
                &&& a == action_at(final(st).step as int, final(st).status)
            },
        },
        final(st).step <= 16,
{
    match reply {
        None => {
            st.step = 0;
            action(0, st.status)
        },
        Some(r) => {
            let cur = action(st.step, st.status);
            match r {
                Reply::Timeout => match cur {
                    InitAction::Command(_) => return InitAction::Fail(InitError::CommandTimeout),
                    InitAction::Data(_) => return InitAction::Fail(InitError::DataTimeout),
                    InitAction::Read => return InitAction::Fail(InitError::ReadTimeout),
                    _ => {},
                },
                Reply::Byte(b) => {
                    match cur {
                        InitAction::Read => {
                            if st.step >= 4 && b != 0xFA {
                                return InitAction::Fail(InitError::NoAck);
                            }
                        },
                        _ => {},
                    }
                    if st.step == 1 {
                        st.status = b;
                    }
                },
                Reply::Written => {},
            }
            if st.step < 16 {
                st.step = st.step + 1;
            }
            action(st.step, st.status)
        },
    }
}

/// With every write accepted and every mouse byte acknowledged, bring-up ends
/// after sixteen actions.
pub proof fn law_acknowledged_bringup_finishes(n: int, status: u8, r: Reply)
    requires
        0 <= n < 16,
        action_at(n, status) is Read ==> r is Byte && (n >= 4 ==> r == Reply::Byte(0xFA)),
        !(action_at(n, status) is Read) ==> r is Written,
    ensures
        init_error(n, status, r) is None,
        action_at(n, status) is Done <==> false,
        action_at(16, status) is Done,
{
}

} // verus!
