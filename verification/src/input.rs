//! The raw input event ring.
//!
//! Every physical key event and every completed mouse packet becomes one
//! fixed-size record with a nanosecond timestamp. Records leave in the order in
//! which they came; when the ring is full the new record is dropped and the
//! oldest ones stay.
//!
//! Record layout (little-endian, 24 bytes):
//!   +0 kind, +1 flags, +2 code (16 bits), +4 x, +8 y (32 bits, signed),
//!   +12 padding, +16 timestamp (64 bits).
use crate::bytes::{
    get_u16, get_u32, get_u64, le16, le16_bytes, le32, le32_bytes, le64, le64_bytes, put_u16,
    put_u32, put_u64, splice, zeros,
};
use crate::text::{dec, push_dec};
use vstd::prelude::*;

verus! {

/// A key event.
pub const EV_KIND_KEY: u8 = 1;
/// A mouse event; x and y are relative, y grows downward.
pub const EV_KIND_MOUSE: u8 = 2;
/// The key went down.
pub const KEY_DOWN: u8 = 1;
/// The key was released.
pub const KEY_UP: u8 = 2;
pub const BTN_LEFT: u8 = 1;
pub const BTN_RIGHT: u8 = 2;
pub const BTN_MIDDLE: u8 = 4;
/// Bytes of one record on the wire.
pub const EV_SIZE: usize = 24;
/// Records the ring can hold.
pub const RING_LEN: usize = 256;

#[derive(Copy, Clone, PartialEq, Eq, Debug, Structural)]
pub struct InputEvent {
    pub kind: u8,
    pub flags: u8,
    pub code: u16,
    pub x: i32,
    pub y: i32,
    pub ts_ns: u64,
}

/// `v` as 32 bits in two's complement.
pub open spec fn twos32(v: i32) -> int {
    if v >= 0 {
        v as int
    } else {
        v + 0x1_0000_0000
    }
}

/// The record's 24 bytes.
#[verifier::opaque]
pub open spec fn event_bytes(e: InputEvent) -> Seq<u8> {
    seq![e.kind, e.flags] + le16_bytes(e.code as int) + le32_bytes(twos32(e.x)) + le32_bytes(
        twos32(e.y),
    ) + seq![0u8, 0, 0, 0] + le64_bytes(e.ts_ns as int)
}

/// Records one after the other.
pub open spec fn wire(es: Seq<InputEvent>) -> Seq<u8>
    decreases es.len(),
{
    if es.len() == 0 {
        Seq::empty()
    } else {
        wire(es.drop_last()) + event_bytes(es.last())
    }
}

pub proof fn lemma_wire_len(es: Seq<InputEvent>)
    ensures
        wire(es).len() == 24 * es.len(),
    decreases es.len(),
{
    if es.len() > 0 {
        lemma_wire_len(es.drop_last());
        lemma_event_fields(es.last());
    }
}

/// Each field can be read back from the record's bytes.
pub proof fn lemma_event_fields(e: InputEvent)
    ensures
        event_bytes(e).len() == 24,
        event_bytes(e)[0] == e.kind,
        event_bytes(e)[1] == e.flags,
        le16(event_bytes(e), 2) == e.code,
        le32(event_bytes(e), 4) == twos32(e.x),
        le32(event_bytes(e), 8) == twos32(e.y),
        le64(event_bytes(e), 16) == e.ts_ns,
{
    let s = event_bytes(e);
    assert(s.len() == 24 && s[0] == e.kind && s[1] == e.flags) by {
        reveal(event_bytes);
    }
    assert(s.subrange(2, 4) =~= le16_bytes(e.code as int)) by {
        reveal(event_bytes);
    }
    assert(s.subrange(2, 4)[0] == s[2] && s.subrange(2, 4)[1] == s[3]);
    lemma_field(s, 4, twos32(e.x));
    lemma_field(s, 8, twos32(e.y));
    lemma_timestamp(e);
}

/// A 32-bit field that holds the bytes of `v` reads as `v`.
proof fn lemma_field(s: Seq<u8>, at: int, v: int)
    requires
        0 <= at,
        at + 4 <= s.len(),
        0 <= v < 0x1_0000_0000,
    ensures
        s.subrange(at, at + 4) == le32_bytes(v) ==> le32(s, at) == v,
{
    let t = s.subrange(at, at + 4);
    if t == le32_bytes(v) {
        assert(t[0] == s[at] && t[1] == s[at + 1] && t[2] == s[at + 2] && t[3] == s[at + 3]);
        crate::bytes::law_le32_roundtrip(t, 0, v as u32);
        assert(splice(t, 0, le32_bytes(v)) =~= t);
    }
}

/// Two records with the same bytes are the same record.
pub proof fn law_wire_is_faithful(a: InputEvent, b: InputEvent)
    requires
        event_bytes(a) == event_bytes(b),
    ensures
        a == b,
{
    lemma_event_fields(a);
    lemma_event_fields(b);
}

proof fn lemma_timestamp(e: InputEvent)
    ensures
        le64(event_bytes(e), 16) == e.ts_ns,
        event_bytes(e).subrange(4, 8) == le32_bytes(twos32(e.x)),
        event_bytes(e).subrange(8, 12) == le32_bytes(twos32(e.y)),
{
    let s = event_bytes(e);
    let lo = e.ts_ns as int % 0x1_0000_0000;
    let hi = e.ts_ns as int / 0x1_0000_0000;
    assert(s.len() == 24 && s.subrange(16, 20) =~= le32_bytes(lo) && s.subrange(20, 24)
        =~= le32_bytes(hi) && s.subrange(4, 8) =~= le32_bytes(twos32(e.x)) && s.subrange(8, 12)
        =~= le32_bytes(twos32(e.y))) by {
        reveal(event_bytes);
    }
    lemma_field(s, 16, lo);
    lemma_field(s, 20, hi);
}

/// The ring of pending records and its counters.
pub struct InputRing {
    ring: Vec<InputEvent>,
    head: usize,
    tail: usize,
    count: usize,
    total: usize,
    dropped: usize,
}

impl InputRing {
    /// The pending records, oldest first.
    pub closed spec fn view(&self) -> Seq<InputEvent> {
        Seq::new(
            self.count as nat,
            |i: int| self.ring@[(self.tail + i) % 256],
        )
    }

    /// Records ever taken in.
    pub closed spec fn total_spec(&self) -> usize {
        self.total
    }

    /// Records ever dropped.
    pub closed spec fn dropped_spec(&self) -> usize {
        self.dropped
    }

    /// The indices agree with the count.
    pub closed spec fn wf(&self) -> bool {
        &&& self.ring@.len() == 256
        &&& self.head < 256
        &&& self.tail < 256
        &&& self.count <= 256
        &&& self.head == (self.tail + self.count) % 256
    }

    /// An empty ring.
    pub fn new() -> (r: InputRing)
        ensures
            r.wf(),
            r@ == Seq::<InputEvent>::empty(),
            r.total_spec() == 0,
            r.dropped_spec() == 0,
    {
        let zero = InputEvent { kind: 0, flags: 0, code: 0, x: 0, y: 0, ts_ns: 0 };
        let mut ring: Vec<InputEvent> = Vec::new();
        let mut i: usize = 0;
        while i < RING_LEN
            invariant
                i <= 256,
                ring@.len() == i,
            decreases 256 - i,
        {
            ring.push(zero);
            i += 1;
        }
        let r = InputRing { ring, head: 0, tail: 0, count: 0, total: 0, dropped: 0 };
        assert(r@ =~= Seq::<InputEvent>::empty());
        r
    }

    /// Take in `e`, or drop it when the ring is full.
    fn push(&mut self, e: InputEvent)
        requires
            old(self).wf(),
            old(self).total_spec() < usize::MAX,
            old(self).dropped_spec() < usize::MAX,
        ensures
            final(self).wf(),
            offered(*old(self), *final(self), e),
    {
        if self.count == RING_LEN {
            self.dropped = self.dropped + 1;
            return ;
        }
        let ghost before = self@;
        let h = self.head;
        self.ring.set(h, e);
        self.head = (h + 1) % RING_LEN;
        self.count = self.count + 1;
        self.total = self.total + 1;
        assert(self@ =~= before.push(e)) by {
            assert forall|i: int| 0 <= i < before.len() implies self@[i] == before[i] by {
                assert((self.tail + i) % 256 != h);
            }
        }
    }
}

/// The record of a key event.
pub open spec fn key_event(code: u16, down: bool, ts_ns: u64) -> InputEvent {
    InputEvent {
        kind: EV_KIND_KEY,
        flags: if down {
            KEY_DOWN
        } else {
            KEY_UP
        },
        code,
        x: 0,
        y: 0,
        ts_ns,
    }
}

/// The record of a mouse packet.
pub open spec fn mouse_event(dx: i32, dy: i32, buttons: u8, ts_ns: u64) -> InputEvent {
    InputEvent { kind: EV_KIND_MOUSE, flags: buttons, code: 0, x: dx, y: dy, ts_ns }
}

/// `ring` after `e` was offered: at the end, or dropped where 256 are pending.
pub open spec fn offered(before: InputRing, after: InputRing, e: InputEvent) -> bool {
    if before@.len() < 256 {
        &&& after@ == before@.push(e)
        &&& after.total_spec() == before.total_spec() + 1
        &&& after.dropped_spec() == before.dropped_spec()
    } else {
        &&& after@ == before@
        &&& after.total_spec() == before.total_spec()
        &&& after.dropped_spec() == before.dropped_spec() + 1
    }
}

/// Raw key event: `code` names the key, `down` is its new state.
pub fn push_key(ring: &mut InputRing, code: u16, down: bool, now_ns: u64)
    requires
        old(ring).wf(),
        old(ring).total_spec() < usize::MAX,
        old(ring).dropped_spec() < usize::MAX,
    ensures
        final(ring).wf(),
        offered(*old(ring), *final(ring), key_event(code, down, now_ns)),
{
    ring.push(
        InputEvent {
            kind: EV_KIND_KEY,
            flags: if down {
                KEY_DOWN
            } else {
                KEY_UP
            },
            code,
            x: 0,
            y: 0,
            ts_ns: now_ns,
        },
    );
}

/// Raw mouse event: relative deltas and the buttons held.
pub fn push_mouse(ring: &mut InputRing, dx: i32, dy: i32, buttons: u8, now_ns: u64)
    requires
        old(ring).wf(),
        old(ring).total_spec() < usize::MAX,
        old(ring).dropped_spec() < usize::MAX,
    ensures
        final(ring).wf(),
        offered(*old(ring), *final(ring), mouse_event(dx, dy, buttons, now_ns)),
{
    ring.push(
        InputEvent { kind: EV_KIND_MOUSE, flags: buttons, code: 0, x: dx, y: dy, ts_ns: now_ns },
    );
}

fn bits32(v: i32) -> (r: u32)
    ensures
        r == twos32(v),
{
    if v >= 0 {
        v as u32
    } else {
        (v as i64 + 0x1_0000_0000) as u32
    }
}

/// Write the record's 24 bytes at `at`.
fn encode(dst: &mut [u8], at: usize, e: &InputEvent)
    requires
        at + 24 <= old(dst)@.len(),
    ensures
        final(dst)@ == splice(old(dst)@, at as int, event_bytes(*e)),
{
    let _n = dst.len();
    dst[at] = e.kind;
    dst[at + 1] = e.flags;
    put_u16(dst, at + 2, e.code);
    put_u32(dst, at + 4, bits32(e.x));
    put_u32(dst, at + 8, bits32(e.y));
    put_u32(dst, at + 12, 0);
    put_u64(dst, at + 16, e.ts_ns);
    proof {
        reveal(event_bytes);
    }
    assert(dst@ =~= splice(old(dst)@, at as int, event_bytes(*e)));
}

/// Writing record `k` after the first `k` gives the first `k + 1`.
proof fn lemma_wire_grows(b: Seq<u8>, es: Seq<InputEvent>, k: int)
    requires
        0 <= k < es.len(),
        24 * (k + 1) <= b.len(),
    ensures
        splice(splice(b, 0, wire(es.take(k))), 24 * k, event_bytes(es[k])) == splice(
            b,
            0,
            wire(es.take(k + 1)),
        ),
{
    lemma_wire_len(es.take(k));
    lemma_event_fields(es[k]);
    assert(es.take(k + 1).drop_last() =~= es.take(k));
    assert(es.take(k + 1).last() == es[k]);
    assert(splice(splice(b, 0, wire(es.take(k))), 24 * k, event_bytes(es[k])) =~= splice(
        b,
        0,
        wire(es.take(k + 1)),
    ));
}

/// Copy as many whole records as fit into `dst` and take them off the ring.
/// Returns the bytes written, a multiple of [`EV_SIZE`].
pub fn drain(ring: &mut InputRing, dst: &mut [u8]) -> (n: usize)
    requires
        old(ring).wf(),
    ensures
        final(ring).wf(),
        ({
            let fit = old(dst)@.len() as int / 24;
            let k = if fit < old(ring)@.len() { fit } else { old(ring)@.len() as int };
            &&& n == 24 * k
            &&& final(ring)@ == old(ring)@.skip(k)
            &&& final(dst)@ == splice(old(dst)@, 0, wire(old(ring)@.take(k)))
        }),
        final(ring).total_spec() == old(ring).total_spec(),
        final(ring).dropped_spec() == old(ring).dropped_spec(),
{
    let len = dst.len();
    let mut copied: usize = 0;
    let ghost mut k: int = 0;
    let ghost all = ring@;
    assert(all.take(0) =~= Seq::<InputEvent>::empty());
    assert(dst@ =~= splice(old(dst)@, 0, wire(all.take(0))));
    assert(all.skip(0) =~= all);
    while ring.count > 0 && len - copied >= EV_SIZE
        invariant
            ring.wf(),
            len == dst@.len() == old(dst)@.len(),
            copied == 24 * k,
            0 <= k <= all.len(),
            copied <= len,
            all == old(ring)@,
            ring@ == all.skip(k),
            dst@ == splice(old(dst)@, 0, wire(all.take(k))),
            ring.total == old(ring).total,
            ring.dropped == old(ring).dropped,
        decreases ring.count,
    {
        let ghost before = ring@;
        let ghost prev = dst@;
        let e = ring.ring[ring.tail];
        assert(e == before[0]);
        assert(before.len() == ring.count && before.len() == all.skip(k).len());
        assert(k < all.len() && all.skip(k)[0] == all[k]);
        encode(dst, copied, &e);
        proof {
            lemma_wire_grows(old(dst)@, all, k);
        }
        copied = copied + EV_SIZE;
        ring.tail = (ring.tail + 1) % RING_LEN;
        ring.count = ring.count - 1;
        proof {
            assert(ring@ =~= before.skip(1)) by {
                assert forall|i: int| 0 <= i < ring@.len() implies ring@[i] == before.skip(1)[i] by {
                    assert(before.skip(1)[i] == before[i + 1]);
                }
            }
            assert(before.skip(1) =~= all.skip(k + 1));
            k = k + 1;
        }
    }
    copied
}

/// Drop every pending record; returns how many there were.
pub fn clear(ring: &mut InputRing) -> (n: usize)
    requires
        old(ring).wf(),
    ensures
        final(ring).wf(),
        n == old(ring)@.len(),
        final(ring)@ == Seq::<InputEvent>::empty(),
        final(ring).total_spec() == old(ring).total_spec(),
        final(ring).dropped_spec() == old(ring).dropped_spec(),
{
    let n = ring.count;
    let h = ring.head;
    ring.count = 0;
    ring.tail = h;
    assert(ring@ =~= Seq::<InputEvent>::empty());
    n
}

/// Is a record waiting?
pub fn pending(ring: &InputRing) -> (r: bool)
    ensures
        r == (ring@.len() > 0),
{
    ring.count > 0
}

/// Records waiting.
pub fn count(ring: &InputRing) -> (n: usize)
    ensures
        n == ring@.len(),
{
    ring.count
}

/// Records ever dropped for a full ring.
pub fn dropped(ring: &InputRing) -> (n: usize)
    ensures
        n == ring.dropped_spec(),
{
    ring.dropped
}

/// Records ever taken in.
pub fn total(ring: &InputRing) -> (n: usize)
    ensures
        n == ring.total_spec(),
{
    ring.total
}

/// The boot line that reports the record size and the ring's capacity.
pub fn init() -> (line: String)
    ensures
        line@ == "input: event size = "@ + dec(24) + " bytes (expect 24), ring = "@ + dec(256)
            + " events"@,
{
    let mut s = String::from_str("input: event size = ");
    push_dec(&mut s, EV_SIZE as u64);
    s.append(" bytes (expect 24), ring = ");
    push_dec(&mut s, RING_LEN as u64);
    s.append(" events");
    s
}

/// What the ring's self-test saw.
#[derive(Clone, Copy, PartialEq, Eq, Debug)]
pub struct InputTest {
    /// The mouse record came back field by field.
    pub mouse_ok: bool,
    /// The key record came back and nothing was left.
    pub key_ok: bool,
    /// Records kept of 300 offered to an empty ring.
    pub kept: usize,
    /// Records dropped of those.
    pub dropped_delta: usize,
    pub drop_ok: bool,
}

/// Read a signed 32-bit field byte by byte.
fn signed_field(buf: &[u8], at: usize) -> (r: i32)
    requires
        at + 4 <= buf@.len(),
    ensures
        twos32(r) == le32(buf@, at as int),
{
    let v = get_u32(buf, at);
    if v < 0x8000_0000 {
        v as i32
    } else {
        (v as i64 - 0x1_0000_0000) as i32
    }
}

/// The ring's self-test: the wire layout of a mouse and a key record, and what
/// is kept and dropped when 300 records are offered. The ring is empty after.
pub fn input_test(ring: &mut InputRing, now_ns: u64) -> (r: InputTest)
    requires
        old(ring).wf(),
        old(ring).total_spec() + 302 <= usize::MAX,
        old(ring).dropped_spec() + 302 <= usize::MAX,
    ensures
        final(ring).wf(),
        final(ring)@ == Seq::<InputEvent>::empty(),
        r.mouse_ok == (now_ns != 0),
        r.key_ok,
        r.kept == 256,
        r.dropped_delta == 44,
        r.drop_ok,
        final(ring).total_spec() == old(ring).total_spec() + 258,
        final(ring).dropped_spec() == old(ring).dropped_spec() + 44,
{
    clear(ring);
    push_mouse(ring, -123, 45, 3, now_ns);
    push_key(ring, 0x1E, false, now_ns);
    let mut buf = zeros(48);
    let ghost es = ring@;
    let n = drain(ring, buf.as_mut_slice());
    proof {
        assert(es.len() == 2);
        assert(es.take(2) =~= es);
        lemma_event_fields(es[0]);
        lemma_event_fields(es[1]);
        let w1 = es.take(1);
        assert(es.drop_last() =~= w1);
        assert(w1.drop_last() =~= Seq::<InputEvent>::empty());
        assert(w1.last() == es[0]);
        assert(wire(w1.drop_last()) =~= Seq::<u8>::empty());
        assert(wire(w1) =~= event_bytes(es[0]));
        assert(wire(es) =~= event_bytes(es[0]) + event_bytes(es[1]));
        let b = buf@;
        let e0 = event_bytes(es[0]);
        let e1 = event_bytes(es[1]);
        assert forall|i: int| 0 <= i < 24 implies #[trigger] b[i] == e0[i] by {}
        assert forall|i: int| 24 <= i < 48 implies #[trigger] b[i] == e1[i - 24] by {}
        assert(le16(b, 2) == le16(e0, 2));
        assert(le32(b, 4) == le32(e0, 4));
        assert(le32(b, 8) == le32(e0, 8));
        assert(le64(b, 16) == le64(e0, 16));
        assert(le16(b, 26) == le16(e1, 2));
    }
    let size_ok = n == EV_SIZE * 2;
    let mouse_ok = size_ok && buf[0] == EV_KIND_MOUSE && buf[1] == 3 && get_u16(
        buf.as_slice(),
        2,
    ) == 0 && signed_field(buf.as_slice(), 4) == -123 && signed_field(buf.as_slice(), 8) == 45
        && get_u64(buf.as_slice(), 16) != 0;
    let key_ok = buf[24] == EV_KIND_KEY && buf[25] == KEY_UP && get_u16(buf.as_slice(), 26) == 0x1E
        && count(ring) == 0;
    let before_dropped = dropped(ring);
    let mut i: u16 = 0;
    assert(ring@.len() == 0);
    while i < 300
        invariant
            i <= 300,
            ring.wf(),
            ring@.len() == if i < 256 { i as int } else { 256 },
            ring.total_spec() == old(ring).total_spec() + 2 + ring@.len(),
            ring.dropped_spec() == before_dropped + if i < 256 { 0 } else { i - 256 },
            before_dropped == old(ring).dropped_spec(),
            old(ring).total_spec() + 302 <= usize::MAX,
            old(ring).dropped_spec() + 302 <= usize::MAX,
        decreases 300 - i,
    {
        push_key(ring, i % 256, true, now_ns);
        i += 1;
    }
    let kept = count(ring);
    let dropped_delta = dropped(ring) - before_dropped;
    let drop_ok = kept == 256 && dropped_delta == 44 && total(ring) > 0;
    clear(ring);
    InputTest { mouse_ok, key_ok, kept, dropped_delta, drop_ok }
}

} // verus!
