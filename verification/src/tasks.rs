//! The decisions of the kernel's small tasks: the ticker, the header clock,
//! the heartbeat and the process-lifecycle check.
use vstd::prelude::*;

use crate::rtc::{format_hms, hms_text};
use crate::text::{dec, hex, push_dec, push_hex};

verus! {

/// Ticks between two lines of the ticker.
pub const TICKER_EVERY: u64 = 25;

/// Whether the ticker prints at tick `t`: at every multiple, and once each.
/// The result is the line, and `last` is the tick of the last one.
pub fn ticker_step(last: &mut Option<u64>, t: u64) -> (r: Option<String>)
    ensures
        t % TICKER_EVERY == 0 && *old(last) != Some(t) ==> {
            &&& r matches Some(s) && s@ == "[ticker] t="@ + dec(t as nat)
            &&& *final(last) == Some(t)
        },
        !(t % TICKER_EVERY == 0 && *old(last) != Some(t)) ==> r is None && *final(last) == *old(last),
{
    let seen = match *last {
        Some(l) => l == t,
        None => false,
    };
    if t % TICKER_EVERY == 0 && !seen {
        *last = Some(t);
        let mut s = String::from_str("[ticker] t=");
        push_dec(&mut s, t);
        return Some(s);
    }
    None
}

/// What the header clock has shown so far.
#[derive(Clone, Copy, Debug)]
pub struct Clock {
    /// The second of the day on the screen.
    pub last: Option<u32>,
    /// The ten seconds that the last heartbeat line was for.
    pub last_dec: Option<u32>,
    /// The first line has been printed.
    pub logged: bool,
}

/// What one look at the time leads to.
pub struct ClockStep {
    /// The text to draw in the header, if the second changed.
    pub draw: Option<String>,
    pub lines: Vec<String>,
}

/// The first line of the clock.
pub open spec fn clock_first(sod: u32) -> Seq<char> {
    "clock: "@ + hms_text(sod) + " \u{2014} updating every second"@
}

/// The heartbeat of the clock.
pub open spec fn clock_beat(sod: u32, shown: u64) -> Seq<char> {
    "[clock] IST "@ + hms_text(sod) + " console_bytes="@ + dec(shown as nat)
}

/// The lines that second `sod` brings.
pub open spec fn clock_lines(c: Clock, sod: u32, shown: u64) -> Seq<Seq<char>> {
    (if c.logged { Seq::<Seq<char>>::empty() } else { seq![clock_first(sod)] }) + (if c.last_dec != Some(
        (sod / 10) as u32,
    ) { seq![clock_beat(sod, shown)] } else { Seq::<Seq<char>>::empty() })
}

pub open spec fn texts(v: Seq<String>) -> Seq<Seq<char>> {
    v.map_values(|s: String| s@)
}

/// Looks at the time: a new second is drawn, the first one is announced, and
/// every ten seconds there is a heartbeat.
pub fn clock_step(c: &mut Clock, sod: u32, shown: u64) -> (r: ClockStep)
    ensures
        old(c).last == Some(sod) ==> r.draw is None && r.lines@.len() == 0 && *final(c) == *old(c),
        old(c).last != Some(sod) ==> {
            &&& r.draw matches Some(s) && s@ == hms_text(sod)
            &&& texts(r.lines@) == clock_lines(*old(c), sod, shown)
            &&& *final(c) == (Clock { last: Some(sod), last_dec: Some((sod / 10) as u32), logged: true })
        },
{
    let mut lines: Vec<String> = Vec::new();
    let seen = match c.last {
        Some(l) => l == sod,
        None => false,
    };
    if seen {
        return ClockStep { draw: None, lines };
    }
    let ghost c0 = *c;
    c.last = Some(sod);
    if !c.logged {
        c.logged = true;
        let mut s = String::from_str("clock: ");
        let t = format_hms(sod);
        s.append(t.as_str());
        s.append(" \u{2014} updating every second");
        lines.push(s);
    }
    let beaten = match c.last_dec {
        Some(d) => d == sod / 10,
        None => false,
    };
    if !beaten {
        c.last_dec = Some(sod / 10);
        let mut s = String::from_str("[clock] IST ");
        let t = format_hms(sod);
        s.append(t.as_str());
        s.append(" console_bytes=");
        push_dec(&mut s, shown);
        lines.push(s);
    }
    assert(texts(lines@) =~= clock_lines(c0, sod, shown));
    ClockStep { draw: Some(format_hms(sod)), lines }
}

/// The line of the interrupt-liveness heartbeat.
pub fn diag_line(ms: u64, pit: u64, task: u64, cpu: u64, esr: u32) -> (r: String)
    ensures
        r@ == "[diag] ms="@ + dec(ms as nat) + " pit="@ + dec(pit as nat) + " task="@ + dec(task as nat) + " cpu="@
            + dec(cpu as nat) + " esr=0x"@ + hex(esr as nat),
{
    let mut s = String::from_str("[diag] ms=");
    push_dec(&mut s, ms);
    s.append(" pit=");
    push_dec(&mut s, pit);
    s.append(" task=");
    push_dec(&mut s, task);
    s.append(" cpu=");
    push_dec(&mut s, cpu);
    s.append(" esr=0x");
    push_hex(&mut s, esr as u64);
    s
}

/// The verdicts of the process-lifecycle check: a child that exits is reaped
/// with its code, a killed one with 137, and an orphan without anyone waiting.
pub fn b3_test(
    ca: u64,
    reaped_a: Option<(u64, u64)>,
    cb: u64,
    killed: bool,
    reaped_b: Option<(u64, u64)>,
    orphan_reaped: bool,
) -> (r: (bool, bool, bool))
    ensures
        r.0 == (reaped_a == Some((ca, 42u64))),
        r.1 == (killed && reaped_b == Some((cb, 137u64))),
        r.2 == orphan_reaped,
{
    let a = match reaped_a {
        Some((pid, code)) => pid == ca && code == 42,
        None => false,
    };
    let b = match reaped_b {
        Some((pid, code)) => pid == cb && code == 137,
        None => false,
    };
    (a, killed && b, orphan_reaped)
}

/// The integer side of the register check: a checkpoint passes when the four
/// sums grew by exactly the additions made, and all of them were counted.
pub fn checkpoint_ok(start: u32, per: u32, sums: [u32; 4], iters: u64, checkpoint: u32) -> (r: bool)
    requires
        start + per + 3 <= u32::MAX,
        checkpoint < u32::MAX,
    ensures
        r == (sums[0] == start + per && sums[1] == start + per + 1 && sums[2] == start + per + 2 && sums[3] == start
            + per + 3 && iters == (checkpoint + 1) * per),
{
    let want: u32 = start + per;
    assert(0 <= (checkpoint + 1) * per <= u64::MAX) by (nonlinear_arith)
        requires
            0 <= checkpoint < u32::MAX,
            0 <= per <= u32::MAX,
    ;
    sums[0] == want && sums[1] == want + 1 && sums[2] == want + 2 && sums[3] == want + 3 && iters == (checkpoint as u64
        + 1) * per as u64
}

} // verus!
