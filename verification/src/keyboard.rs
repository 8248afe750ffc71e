//! PS/2 keyboard: scancodes in, key events and lines of text out.
//!
//! Scancodes are decoded by `pc_keyboard` (US 104-key layout, scancode set 1).
//! Decoded keys wait in a ring until the line discipline takes them.
use crate::bytes::{put_bytes, splice};
use crate::input::{key_event, offered, push_key, InputRing};
use pc_keyboard::layouts::Us104Key;
use pc_keyboard::{DecodedKey, HandleControl, KeyEvent, KeyState, PS2Keyboard, ScancodeSet1};
use vstd::prelude::*;

verus! {

/// Ring entries with this bit hold a key code; without it, a code point.
pub const FLAG_RAW: u64 = 0x1_0000_0000;
/// Highest key code (`KeyCode::Unknown`).
pub const KEY_LAST: u64 = 124;
/// Slots of the key ring; one always stays free.
pub const KEY_RING_LEN: usize = 256;
/// Bytes of the line being typed.
pub const LINE_MAX: usize = 128;

// ---------------------------------------------------------------------------
// Scancode decoding
// ---------------------------------------------------------------------------

/// `pc_keyboard::KeyEvent`: a key and its new state.
#[verifier::external_type_specification]
#[verifier::external_body]
pub struct ExKeyEvent(KeyEvent);

/// A `pc_keyboard::PS2Keyboard` for the US 104-key layout and scancode set 1,
/// with control keys reported as keys.
#[verifier::external_body]
pub struct Decoder {
    inner: PS2Keyboard<Us104Key, ScancodeSet1>,
}

/// A decoded key: a character or the code of a key that has none.
#[derive(Clone, Copy, PartialEq, Eq, Debug)]
pub enum Decoded {
    Unicode(u32),
    Raw(u8),
}

/// The bytes a decoder has been fed since it was made.
pub uninterp spec fn fed(d: Decoder) -> Seq<u8>;

/// The key events a decoder has processed since it was made.
pub uninterp spec fn processed(d: Decoder) -> Seq<KeyEvent>;

/// The key event that the last of `bytes` completes, where it does.
pub uninterp spec fn scanned(bytes: Seq<u8>) -> Option<KeyEvent>;

/// The key that the last of `events` stands for, where it stands for one.
pub uninterp spec fn decoded(events: Seq<KeyEvent>) -> Option<Decoded>;

/// The code of the event's key and its state: 0 up, 1 down, 2 both at once.
pub uninterp spec fn event_parts(e: KeyEvent) -> (u16, u8);

/// `PS2Keyboard::new`: a decoder that has seen nothing.
#[verifier::external_body]
fn new_decoder() -> (d: Decoder)
    ensures
        fed(d) == Seq::<u8>::empty(),
        processed(d) == Seq::<KeyEvent>::empty(),
{
    Decoder { inner: PS2Keyboard::new(ScancodeSet1::new(), Us104Key, HandleControl::Ignore) }
}

/// `PS2Keyboard::add_byte`: feeds one byte. What comes out depends on the bytes
/// fed so far and on nothing else; an undecodable byte gives no event. Which
/// event a byte sequence gives is not stated: it is the scancode table.
#[verifier::external_body]
fn add_byte(d: &mut Decoder, byte: u8) -> (r: Option<KeyEvent>)
    ensures
        fed(*final(d)) == fed(*old(d)).push(byte),
        processed(*final(d)) == processed(*old(d)),
        r == scanned(fed(*old(d)).push(byte)),
{
    match d.inner.add_byte(byte) {
        Ok(event) => event,
        Err(_) => None,
    }
}

/// The fields of `KeyEvent`: the key's code as a number and its state.
#[verifier::external_body]
fn parts_of(e: &KeyEvent) -> (r: (u16, u8))
    ensures
        r == event_parts(*e),
{
    let state = match e.state {
        KeyState::Up => 0u8,
        KeyState::Down => 1u8,
        KeyState::SingleShot => 2u8,
    };
    (e.code as u16, state)
}

/// `PS2Keyboard::process_keyevent`: applies one event to the modifier state.
/// What comes out depends on the events processed so far and on nothing else.
/// Which key it is, is not stated: it is the layout table.
#[verifier::external_body]
fn process_keyevent(d: &mut Decoder, e: KeyEvent) -> (r: Option<Decoded>)
    ensures
        fed(*final(d)) == fed(*old(d)),
        processed(*final(d)) == processed(*old(d)).push(e),
        r == decoded(processed(*old(d)).push(e)),
{
    match d.inner.process_keyevent(e) {
        Some(DecodedKey::Unicode(c)) => Some(Decoded::Unicode(c as u32)),
        Some(DecodedKey::RawKey(k)) => Some(Decoded::Raw(k as u8)),
        None => None,
    }
}

// ---------------------------------------------------------------------------
// The key ring
// ---------------------------------------------------------------------------

/// The ring of decoded keys that wait for a reader.
pub struct KeyRing {
    ring: Vec<u64>,
    head: usize,
    tail: usize,
}

impl KeyRing {
    /// Entries waiting.
    pub closed spec fn pending(&self) -> int {
        (self.head - self.tail + 256) % 256
    }

    /// The waiting entries, oldest first.
    pub closed spec fn view(&self) -> Seq<u64> {
        Seq::new(self.pending() as nat, |i: int| self.ring@[(self.tail + i) % 256])
    }

    pub closed spec fn wf(&self) -> bool {
        &&& self.ring@.len() == 256
        &&& self.head < 256
        &&& self.tail < 256
    }

    /// An empty ring.
    pub fn new() -> (r: KeyRing)
        ensures
            r.wf(),
            r@ == Seq::<u64>::empty(),
    {
        let mut ring: Vec<u64> = Vec::new();
        let mut i: usize = 0;
        while i < KEY_RING_LEN
            invariant
                i <= 256,
                ring@.len() == i,
            decreases 256 - i,
        {
            ring.push(0);
            i += 1;
        }
        let r = KeyRing { ring, head: 0, tail: 0 };
        assert(r@ =~= Seq::<u64>::empty());
        r
    }

    /// Add an entry; with 255 waiting it is dropped.
    pub fn ring_push(&mut self, value: u64)
        requires
            old(self).wf(),
        ensures
            final(self).wf(),
            final(self)@ == if old(self)@.len() < 255 {
                old(self)@.push(value)
            } else {
                old(self)@
            },
    {
        let next = (self.head + 1) % KEY_RING_LEN;
        if next != self.tail {
            let ghost before = self@;
            let h = self.head;
            self.ring.set(h, value);
            self.head = next;
            assert(self@ =~= before.push(value)) by {
                assert forall|i: int| 0 <= i < before.len() implies self@[i] == before[i] by {
                    assert((self.tail + i) % 256 != h);
                }
                assert((self.tail + before.len()) % 256 == h);
            }
        }
    }

    /// Take the oldest entry.
    pub fn ring_pop(&mut self) -> (r: Option<u64>)
        requires
            old(self).wf(),
        ensures
            final(self).wf(),
            old(self)@.len() == 0 ==> r is None && final(self)@ == old(self)@,
            old(self)@.len() > 0 ==> r == Some(old(self)@[0]) && final(self)@ == old(self)@.skip(1),
    {
        if self.head == self.tail {
            None
        } else {
            let ghost before = self@;
            let v = self.ring[self.tail];
            self.tail = (self.tail + 1) % KEY_RING_LEN;
            assert(before.len() > 0 && before[0] == v);
            assert(self@ =~= before.skip(1)) by {
                assert forall|i: int| 0 <= i < self@.len() implies self@[i] == before.skip(1)[i] by {
                    assert(before.skip(1)[i] == before[i + 1]);
                }
            }
            Some(v)
        }
    }
}

// ---------------------------------------------------------------------------
// Code points
// ---------------------------------------------------------------------------

/// The entry names a key rather than a character.
pub open spec fn is_raw(v: u64) -> bool {
    v / FLAG_RAW % 2 == 1
}

/// The character of an entry, where it has one.
pub open spec fn codepoint(v: u64) -> Option<u32> {
    let c = v % FLAG_RAW;
    if !is_raw(v) && (c < 0xD800 || 0xE000 <= c <= 0x10FFFF) {
        Some(c as u32)
    } else {
        None
    }
}

/// A control character (general category Cc).
pub open spec fn is_control(c: u32) -> bool {
    c < 0x20 || 0x7F <= c < 0xA0
}

/// Ends a line.
pub open spec fn is_newline(v: u64) -> bool {
    codepoint(v) == Some(10u32) || codepoint(v) == Some(13u32)
}

/// The UTF-8 encoding of a code point.
pub open spec fn utf8(c: u32) -> Seq<u8> {
    if c < 0x80 {
        seq![c as u8]
    } else if c < 0x800 {
        seq![(0xC0 + c / 64) as u8, (0x80 + c % 64) as u8]
    } else if c < 0x1_0000 {
        seq![(0xE0 + c / 4096) as u8, (0x80 + c / 64 % 64) as u8, (0x80 + c % 64) as u8]
    } else {
        seq![
            (0xF0 + c / 0x4_0000) as u8,
            (0x80 + c / 4096 % 64) as u8,
            (0x80 + c / 64 % 64) as u8,
            (0x80 + c % 64) as u8,
        ]
    }
}

fn codepoint_of(v: u64) -> (r: Option<u32>)
    ensures
        r == codepoint(v),
{
    let c = v % FLAG_RAW;
    if v / FLAG_RAW % 2 != 1 && (c < 0xD800 || (0xE000 <= c && c <= 0x10FFFF)) {
        Some(c as u32)
    } else {
        None
    }
}

/// Encode a code point in UTF-8.
pub fn encode_utf8(c: u32) -> (r: Vec<u8>)
    requires
        c <= 0x10FFFF,
    ensures
        r@ == utf8(c),
{
    let mut r: Vec<u8> = Vec::new();
    if c < 0x80 {
        r.push(c as u8);
    } else if c < 0x800 {
        r.push((0xC0 + c / 64) as u8);
        r.push((0x80 + c % 64) as u8);
    } else if c < 0x1_0000 {
        r.push((0xE0 + c / 4096) as u8);
        r.push((0x80 + c / 64 % 64) as u8);
        r.push((0x80 + c % 64) as u8);
    } else {
        r.push((0xF0 + c / 0x4_0000) as u8);
        r.push((0x80 + c / 4096 % 64) as u8);
        r.push((0x80 + c / 64 % 64) as u8);
        r.push((0x80 + c % 64) as u8);
    }
    assert(r@ =~= utf8(c));
    r
}

// ---------------------------------------------------------------------------
// The line discipline
// ---------------------------------------------------------------------------

/// What a consumed key shows on the console.
#[derive(Clone, Copy, PartialEq, Eq, Debug)]
pub enum KeyEcho {
    Enter,
    Backspace,
    Char(u32),
}

/// The bytes an echo puts on the console.
pub open spec fn echo_seq(e: KeyEcho) -> Seq<u8> {
    match e {
        KeyEcho::Enter => seq![0x0Du8, 0x0A],
        KeyEcho::Backspace => seq![0x08u8],
        KeyEcho::Char(c) => utf8(c),
    }
}

/// The bytes an echo puts on the console.
pub fn echo_bytes(e: KeyEcho) -> (r: Vec<u8>)
    requires
        e matches KeyEcho::Char(c) ==> c <= 0x10FFFF,
    ensures
        r@ == echo_seq(e),
{
    let mut r: Vec<u8> = Vec::new();
    match e {
        KeyEcho::Enter => {
            r.push(0x0D);
            r.push(0x0A);
        },
        KeyEcho::Backspace => {
            r.push(0x08);
        },
        KeyEcho::Char(c) => {
            r = encode_utf8(c);
        },
    }
    assert(r@ =~= echo_seq(e));
    r
}

/// What an entry that does not end the line does to it, and its echo.
pub open spec fn line_step(line: Seq<u8>, v: u64) -> (Seq<u8>, Option<KeyEcho>) {
    match codepoint(v) {
        None => (line, None),
        Some(c) => if c == 0x08 || c == 0x7F {
            if line.len() > 0 {
                (line.drop_last(), Some(KeyEcho::Backspace))
            } else {
                (line, None)
            }
        } else if !is_control(c) && line.len() + utf8(c).len() <= 128 {
            (line + utf8(c), Some(KeyEcho::Char(c)))
        } else {
            (line, None)
        },
    }
}

/// The line after the entries `vs`, none of which ends it.
pub open spec fn line_after(line: Seq<u8>, vs: Seq<u64>) -> Seq<u8>
    decreases vs.len(),
{
    if vs.len() == 0 {
        line
    } else {
        line_step(line_after(line, vs.drop_last()), vs.last()).0
    }
}

/// The echoes of the entries `vs`, none of which ends the line.
pub open spec fn echoes(line: Seq<u8>, vs: Seq<u64>) -> Seq<KeyEcho>
    decreases vs.len(),
{
    if vs.len() == 0 {
        Seq::empty()
    } else {
        let before = echoes(line, vs.drop_last());
        match line_step(line_after(line, vs.drop_last()), vs.last()).1 {
            None => before,
            Some(e) => before.push(e),
        }
    }
}

/// Where the first entry that ends a line stands; `vs.len()` if none does.
pub open spec fn first_newline(vs: Seq<u64>) -> int
    decreases vs.len(),
{
    if vs.len() == 0 {
        0
    } else if is_newline(vs[0]) {
        0
    } else {
        1 + first_newline(vs.skip(1))
    }
}

proof fn lemma_first_newline(vs: Seq<u64>, k: int)
    requires
        0 <= k <= vs.len(),
        forall|i: int| 0 <= i < k ==> !is_newline(#[trigger] vs[i]),
        k == vs.len() || is_newline(vs[k]),
    ensures
        first_newline(vs) == k,
    decreases vs.len(),
{
    if vs.len() > 0 && k > 0 {
        let t = vs.skip(1);
        assert forall|i: int| 0 <= i < k - 1 implies !is_newline(#[trigger] t[i]) by {
            assert(t[i] == vs[i + 1]);
        }
        if k < vs.len() {
            assert(t[k - 1] == vs[k]);
        }
        lemma_first_newline(t, k - 1);
        assert(!is_newline(vs[0]));
    }
}

/// A line never outgrows its buffer.
pub proof fn law_line_fits(line: Seq<u8>, vs: Seq<u64>)
    requires
        line.len() <= 128,
    ensures
        line_after(line, vs).len() <= 128,
    decreases vs.len(),
{
    if vs.len() > 0 {
        law_line_fits(line, vs.drop_last());
    }
}

/// The keyboard's state: decoder, ring and the line being typed.
pub struct Keyboard {
    decoder: Decoder,
    ring: KeyRing,
    line: Vec<u8>,
}

impl Keyboard {
    /// The waiting entries.
    pub closed spec fn keys(&self) -> Seq<u64> {
        self.ring@
    }

    /// The line typed since the last Enter.
    pub closed spec fn line_view(&self) -> Seq<u8> {
        self.line@
    }

    /// The bytes fed to the decoder.
    pub closed spec fn scan_bytes(&self) -> Seq<u8> {
        fed(self.decoder)
    }

    /// The events the decoder processed.
    pub closed spec fn events(&self) -> Seq<KeyEvent> {
        processed(self.decoder)
    }

    pub closed spec fn wf(&self) -> bool {
        &&& self.ring.wf()
        &&& self.line@.len() <= 128
    }

    /// A keyboard with nothing typed.
    pub fn new() -> (k: Keyboard)
        ensures
            k.wf(),
            k.keys() == Seq::<u64>::empty(),
            k.line_view() == Seq::<u8>::empty(),
            k.scan_bytes() == Seq::<u8>::empty(),
            k.events() == Seq::<KeyEvent>::empty(),
    {
        Keyboard { decoder: new_decoder(), ring: KeyRing::new(), line: Vec::new() }
    }
}

/// No setup is needed at boot.
pub fn init() -> (k: Keyboard)
    ensures
        k.wf(),
        k.keys() == Seq::<u64>::empty(),
        k.line_view() == Seq::<u8>::empty(),
        k.scan_bytes() == Seq::<u8>::empty(),
        k.events() == Seq::<KeyEvent>::empty(),
{
    Keyboard::new()
}

/// The ring entry of a decoded key.
pub open spec fn entry_of(d: Decoded) -> u64 {
    match d {
        Decoded::Unicode(c) => c as u64,
        Decoded::Raw(k) => (FLAG_RAW + k) as u64,
    }
}

/// `keys` with `d`'s entry added where it stands for a key and there is room.
pub open spec fn keys_with(keys: Seq<u64>, d: Option<Decoded>) -> Seq<u64> {
    match d {
        Some(k) if keys.len() < 255 => keys.push(entry_of(k)),
        _ => keys,
    }
}

/// Queue a decoded key.
pub fn queue_key(ring: &mut KeyRing, d: Option<Decoded>)
    requires
        old(ring).wf(),
    ensures
        final(ring).wf(),
        final(ring)@ == keys_with(old(ring)@, d),
{
    match d {
        Some(Decoded::Unicode(c)) => ring.ring_push(c as u64),
        Some(Decoded::Raw(k)) => ring.ring_push(FLAG_RAW + k as u64),
        None => {},
    }
}

/// Decode one scancode: the physical event goes to the raw input ring, the key
/// it stands for to the key ring.
pub fn handle_irq(kb: &mut Keyboard, input: &mut InputRing, scancode: u8, now_ns: u64)
    requires
        old(kb).wf(),
        old(input).wf(),
        old(input).total_spec() < usize::MAX,
        old(input).dropped_spec() < usize::MAX,
    ensures
        final(kb).wf(),
        final(input).wf(),
        final(kb).line_view() == old(kb).line_view(),
        final(kb).scan_bytes() == old(kb).scan_bytes().push(scancode),
        ({
            match scanned(old(kb).scan_bytes().push(scancode)) {
                None => *final(input) == *old(input) && final(kb).keys() == old(kb).keys()
                    && final(kb).events() == old(kb).events(),
                Some(e) => {
                    let (code, state) = event_parts(e);
                    &&& offered(*old(input), *final(input), key_event(code, state != 0, now_ns))
                    &&& final(kb).events() == old(kb).events().push(e)
                    &&& final(kb).keys() == keys_with(
                        old(kb).keys(),
                        decoded(old(kb).events().push(e)),
                    )
                },
            }
        }),
{
    match add_byte(&mut kb.decoder, scancode) {
        None => {},
        Some(event) => {
            let (code, state) = parts_of(&event);
            push_key(input, code, state != 0, now_ns);
            let d = process_keyevent(&mut kb.decoder, event);
            queue_key(&mut kb.ring, d);
        },
    }
}

/// Take keys into the line until one ends it or none is left. A finished line
/// is copied to `out`, as much as fits, without its end; the result is the
/// number of bytes copied, 0 where no line was finished, and the echoes of the
/// keys taken.
pub fn take_line(kb: &mut Keyboard, out: &mut [u8]) -> (r: (usize, Vec<KeyEcho>))
    requires
        old(kb).wf(),
    ensures
        final(kb).wf(),
        final(kb).scan_bytes() == old(kb).scan_bytes(),
        final(kb).events() == old(kb).events(),
        ({
            let vs = old(kb).keys();
            let k = first_newline(vs);
            let line = line_after(old(kb).line_view(), vs.take(k));
            if k < vs.len() {
                let n = if line.len() < old(out)@.len() { line.len() } else { old(out)@.len() };
                &&& r.0 == n
                &&& final(out)@ == splice(old(out)@, 0, line.take(n as int))
                &&& final(kb).line_view() == Seq::<u8>::empty()
                &&& final(kb).keys() == vs.skip(k + 1)
                &&& r.1@ == echoes(old(kb).line_view(), vs.take(k)).push(KeyEcho::Enter)
            } else {
                &&& r.0 == 0
                &&& final(out)@ == old(out)@
                &&& final(kb).line_view() == line
                &&& final(kb).keys() == Seq::<u64>::empty()
                &&& r.1@ == echoes(old(kb).line_view(), vs)
            }
        }),
{
    let ghost vs = kb.keys();
    let ghost line0 = kb.line_view();
    let ghost mut k: int = 0;
    let mut echo: Vec<KeyEcho> = Vec::new();
    assert(vs.skip(0) =~= vs);
    assert(vs.take(0) =~= Seq::<u64>::empty());
    loop
        invariant
            kb.wf(),
            0 <= k <= vs.len(),
            vs == old(kb).keys(),
            line0 == old(kb).line_view(),
            kb.scan_bytes() == old(kb).scan_bytes(),
            kb.events() == old(kb).events(),
            out@ == old(out)@,
            kb.keys() == vs.skip(k),
            kb.line_view() == line_after(line0, vs.take(k)),
            echo@ == echoes(line0, vs.take(k)),
            forall|i: int| 0 <= i < k ==> !is_newline(#[trigger] vs[i]),
        decreases vs.len() - k,
    {
        let v = match kb.ring.ring_pop() {
            None => {
                proof {
                    assert(k == vs.len());
                    lemma_first_newline(vs, k);
                    assert(vs.take(k) =~= vs);
                }
                return (0, echo);
            },
            Some(v) => v,
        };
        assert(v == vs.skip(k)[0] && v == vs[k]);
        assert(vs.skip(k).skip(1) =~= vs.skip(k + 1));
        match codepoint_of(v) {
            None => {},
            Some(c) => {
                if c == 10 || c == 13 {
                    proof {
                        lemma_first_newline(vs, k);
                    }
                    let len = kb.line.len();
                    let room = out.len();
                    let n = if len < room {
                        len
                    } else {
                        room
                    };
                    let done = crate::bytes::copy_range(kb.line.as_slice(), 0, n);
                    put_bytes(out, 0, done.as_slice());
                    assert(done@ =~= kb.line@.take(n as int));
                    kb.line = Vec::new();
                    echo.push(KeyEcho::Enter);
                    return (n, echo);
                }
                if c == 0x08 || c == 0x7F {
                    if kb.line.len() > 0 {
                        kb.line.pop();
                        echo.push(KeyEcho::Backspace);
                    }
                } else if !(c < 0x20 || (0x7F <= c && c < 0xA0)) {
                    let mut s = encode_utf8(c);
                    if kb.line.len() + s.len() <= LINE_MAX {
                        kb.line.append(&mut s);
                        echo.push(KeyEcho::Char(c));
                    }
                }
            },
        }
        proof {
            assert(vs.take(k + 1).drop_last() =~= vs.take(k));
            assert(vs.take(k + 1).last() == v);
            k = k + 1;
        }
    }
}

/// Is a whole line waiting? Nothing is consumed.
pub fn line_pending(kb: &Keyboard) -> (r: bool)
    requires
        kb.wf(),
    ensures
        r == exists|i: int| 0 <= i < kb.keys().len() && is_newline(#[trigger] kb.keys()[i]),
{
    let mut i: usize = kb.ring.tail;
    let ghost mut k: int = 0;
    while i != kb.ring.head
        invariant
            kb.wf(),
            0 <= k <= kb.keys().len(),
            i < 256,
            i == (kb.ring.tail + k) % 256,
            forall|j: int| 0 <= j < k ==> !is_newline(#[trigger] kb.keys()[j]),
        decreases kb.keys().len() - k,
    {
        let v = kb.ring.ring[i];
        assert(k < kb.keys().len());
        assert(v == kb.keys()[k]);
        match codepoint_of(v) {
            Some(c) => {
                if c == 10 || c == 13 {
                    return true;
                }
            },
            None => {},
        }
        i = (i + 1) % KEY_RING_LEN;
        proof {
            k = k + 1;
        }
    }
    assert(k == kb.keys().len());
    false
}

/// A line is finished by [`take_line`] exactly when one was pending.
pub proof fn law_line_finishes_iff_pending(vs: Seq<u64>)
    ensures
        0 <= first_newline(vs) <= vs.len(),
        first_newline(vs) < vs.len() <==> exists|i: int|
            0 <= i < vs.len() && is_newline(#[trigger] vs[i]),
    decreases vs.len(),
{
    if vs.len() > 0 {
        let t = vs.skip(1);
        law_line_finishes_iff_pending(t);
        if is_newline(vs[0]) {
        } else {
            if exists|i: int| 0 <= i < vs.len() && is_newline(#[trigger] vs[i]) {
                let i = choose|i: int| 0 <= i < vs.len() && is_newline(#[trigger] vs[i]);
                assert(t[i - 1] == vs[i]);
            }
            if exists|i: int| 0 <= i < t.len() && is_newline(#[trigger] t[i]) {
                let i = choose|i: int| 0 <= i < t.len() && is_newline(#[trigger] t[i]);
                assert(vs[i + 1] == t[i]);
            }
        }
    }
}

// ---------------------------------------------------------------------------
// Naming keys
// ---------------------------------------------------------------------------

/// The navigation key that a numpad key doubles as, by key code.
pub open spec fn alias_spec(code: u64) -> Option<Seq<char>> {
    if code == 56 {
        Some("Home"@)
    } else if code == 57 {
        Some("ArrowUp"@)
    } else if code == 58 {
        Some("PageUp"@)
    } else if code == 73 {
        Some("ArrowLeft"@)
    } else if code == 75 {
        Some("ArrowRight"@)
    } else if code == 89 {
        Some("End"@)
    } else if code == 90 {
        Some("ArrowDown"@)
    } else if code == 91 {
        Some("PageDown"@)
    } else if code == 104 {
        Some("Insert"@)
    } else if code == 105 {
        Some("Delete"@)
    } else {
        None
    }
}

/// The text of an optional string.
pub open spec fn opt_text(s: Option<&str>) -> Option<Seq<char>> {
    match s {
        Some(t) => Some(t@),
        None => None,
    }
}

/// The navigation key that a numpad key doubles as: with NumLock off, numpad 8
/// is also "arrow up". The numpad codes are those of `pc_keyboard::KeyCode`.
pub fn numpad_alias(code: u64) -> (r: Option<&'static str>)
    ensures
        opt_text(r) == alias_spec(code),
{
    match code {
        56 => Some("Home"),
        57 => Some("ArrowUp"),
        58 => Some("PageUp"),
        73 => Some("ArrowLeft"),
        75 => Some("ArrowRight"),
        89 => Some("End"),
        90 => Some("ArrowDown"),
        91 => Some("PageDown"),
        104 => Some("Insert"),
        105 => Some("Delete"),
        _ => None,
    }
}

/// The friendly name of a character that does not print.
pub open spec fn friendly_spec(c: u32) -> Option<Seq<char>> {
    if c == 9 {
        Some("Tab"@)
    } else if c == 10 {
        Some("Enter"@)
    } else if c == 13 {
        Some("Return"@)
    } else if c == 8 {
        Some("Backspace"@)
    } else if c == 27 {
        Some("Escape"@)
    } else if c == 127 {
        Some("Delete"@)
    } else if c == 32 {
        Some("Space"@)
    } else {
        None
    }
}

fn friendly_name(c: u32) -> (r: Option<&'static str>)
    ensures
        opt_text(r) == friendly_spec(c),
{
    match c {
        9 => Some("Tab"),
        10 => Some("Enter"),
        13 => Some("Return"),
        8 => Some("Backspace"),
        27 => Some("Escape"),
        127 => Some("Delete"),
        32 => Some("Space"),
        _ => None,
    }
}

/// How the reader task reports a ring entry.
#[derive(Clone, Copy, Debug)]
pub enum KeyReport {
    /// A character with a name of its own.
    Named(&'static str),
    /// Another control character.
    Ctrl(u32),
    /// A character that prints.
    Char(u32),
    /// No character has this value.
    BadCodepoint(u64),
    /// A key, and what it doubles as.
    Key(u8, Option<&'static str>),
    /// No key has this code.
    UnknownKey(u64),
}

/// Classify a ring entry for the reader task.
pub fn key_report(v: u64) -> (r: KeyReport)
    requires
        v < 2 * FLAG_RAW,
    ensures
        match r {
            KeyReport::Named(n) => codepoint(v) is Some && friendly_spec(codepoint(v)->0) == Some(
                n@,
            ),
            KeyReport::Ctrl(c) => codepoint(v) == Some(c) && friendly_spec(c) is None
                && is_control(c),
            KeyReport::Char(c) => codepoint(v) == Some(c) && friendly_spec(c) is None
                && !is_control(c),
            KeyReport::BadCodepoint(x) => x == v && !is_raw(v) && codepoint(v) is None,
            KeyReport::Key(k, alias) => is_raw(v) && v - FLAG_RAW == k && k <= KEY_LAST
                && opt_text(alias) == alias_spec(k as u64),
            KeyReport::UnknownKey(k) => is_raw(v) && v - FLAG_RAW == k && k > KEY_LAST,
        },
{
    if v < FLAG_RAW {
        match codepoint_of(v) {
            None => KeyReport::BadCodepoint(v),
            Some(c) => match friendly_name(c) {
                Some(n) => KeyReport::Named(n),
                None => if c < 0x20 || (0x7F <= c && c < 0xA0) {
                    KeyReport::Ctrl(c)
                } else {
                    KeyReport::Char(c)
                },
            },
        }
    } else {
        let k = v - FLAG_RAW;
        if k <= KEY_LAST {
            KeyReport::Key(k as u8, numpad_alias(k))
        } else {
            KeyReport::UnknownKey(k)
        }
    }
}

/// Take up to 16 waiting entries for the reader task.
pub fn run_reader(kb: &mut Keyboard) -> (r: Vec<u64>)
    requires
        old(kb).wf(),
    ensures
        final(kb).wf(),
        final(kb).line_view() == old(kb).line_view(),
        final(kb).scan_bytes() == old(kb).scan_bytes(),
        final(kb).events() == old(kb).events(),
        ({
            let n = if old(kb).keys().len() < 16 { old(kb).keys().len() as int } else { 16 };
            r@ == old(kb).keys().take(n) && final(kb).keys() == old(kb).keys().skip(n)
        }),
{
    let ghost vs = kb.keys();
    let mut r: Vec<u64> = Vec::new();
    assert(vs.skip(0) =~= vs);
    while r.len() < 16
        invariant
            kb.wf(),
            vs == old(kb).keys(),
            r@.len() <= 16,
            r@.len() <= vs.len(),
            r@ == vs.take(r@.len() as int),
            kb.keys() == vs.skip(r@.len() as int),
            kb.line_view() == old(kb).line_view(),
            kb.scan_bytes() == old(kb).scan_bytes(),
            kb.events() == old(kb).events(),
        decreases 16 - r@.len(),
    {
        let ghost n = r@.len() as int;
        match kb.ring.ring_pop() {
            None => {
                assert(vs.len() == n);
                return r;
            },
            Some(v) => {
                assert(v == vs.skip(n)[0]);
                assert(vs.skip(n).skip(1) =~= vs.skip(n + 1));
                r.push(v);
                assert(r@ =~= vs.take(n + 1));
            },
        }
    }
    r
}

} // verus!
