//! A nanosecond clock on the time-stamp counter, calibrated against the timer
//! ticks, and a time of day that follows it.
use crate::pit::TICK_HZ;
use vstd::prelude::*;

verus! {

/// Nanoseconds of a day.
pub const DAY_NS: u64 = 86_400_000_000_000;

/// The clock's calibration.
pub struct Clock {
    pub calibrated: bool,
    /// The counter runs at a constant rate.
    pub invariant_tsc: bool,
    /// Counter cycles per second.
    pub tsc_hz: u64,
    /// Counter value at calibration.
    pub base_tsc: u64,
    /// Seconds since midnight at boot.
    pub boot_sod: u64,
}

impl Clock {
    /// A calibrated clock has a frequency.
    pub open spec fn wf(&self) -> bool {
        &&& self.calibrated ==> self.tsc_hz > 0
        &&& self.boot_sod < 86_400
    }
}

/// An uncalibrated clock.
pub fn new_clock() -> (c: Clock)
    ensures
        c.wf(),
        c == (Clock {
            calibrated: false,
            invariant_tsc: false,
            tsc_hz: 0,
            base_tsc: 0,
            boot_sod: 0,
        }),
{
    Clock { calibrated: false, invariant_tsc: false, tsc_hz: 0, base_tsc: 0, boot_sod: 0 }
}

/// The counter keeps a constant rate: the extended leaf exists and says so.
pub open spec fn invariant_spec(max_extended_leaf: u32, leaf_edx: u32) -> bool {
    max_extended_leaf >= 0x8000_0007 && leaf_edx / 256 % 2 == 1
}

/// What the calibration measured: ticks and counter at its start and end;
/// `None` where the timer did not tick in time.
pub struct Measured {
    pub t1: u64,
    pub t2: u64,
    pub c1: u64,
    pub c2: u64,
}

/// The measurement gives a frequency.
pub open spec fn usable(m: Measured) -> bool {
    m.t2 > m.t1 && m.c2 > m.c1
}

/// Cycles per second: cycles times ticks per second over ticks.
pub open spec fn measured_hz(m: Measured) -> int {
    (m.c2 - m.c1) * 100 / (m.t2 - m.t1)
}

/// Calibrate the clock. Without a usable measurement it stays as it was.
pub fn init(
    clock: &mut Clock,
    boot_sod: u32,
    max_extended_leaf: u32,
    leaf_edx: u32,
    m: Option<Measured>,
) -> (r: bool)
    requires
        old(clock).wf(),
        boot_sod < 86_400,
        m matches Some(x) ==> x.t1 <= x.t2 && x.c1 <= x.c2 && (x.c2 - x.c1) * 100 <= u64::MAX && (
        usable(x) ==> measured_hz(x) > 0),
    ensures
        final(clock).wf(),
        final(clock).boot_sod == boot_sod,
        final(clock).invariant_tsc == invariant_spec(max_extended_leaf, leaf_edx),
        r == (m is Some && usable(m->0)),
        final(clock).calibrated == (old(clock).calibrated || r),
        r ==> final(clock).tsc_hz == measured_hz(m->0) && final(clock).base_tsc == m->0.c1,
        !r ==> final(clock).tsc_hz == old(clock).tsc_hz && final(clock).base_tsc == old(clock).base_tsc,
{
    clock.boot_sod = boot_sod as u64;
    clock.invariant_tsc = max_extended_leaf >= 0x8000_0007 && leaf_edx / 256 % 2 == 1;
    match m {
        None => false,
        Some(x) => {
            let dt_ticks = x.t2 - x.t1;
            let dcycles = x.c2 - x.c1;
            if dt_ticks == 0 || dcycles == 0 {
                return false;
            }
            clock.tsc_hz = dcycles * (TICK_HZ as u64) / dt_ticks;
            clock.base_tsc = x.c1;
            clock.calibrated = true;
            true
        },
    }
}

/// Cycles since `base`, on a counter that wraps at 2^64.
pub open spec fn cycles_since(tsc: u64, base: u64) -> int {
    if tsc >= base {
        tsc - base
    } else {
        tsc - base + 0x1_0000_0000_0000_0000
    }
}

/// Cycles as nanoseconds, in 64 bits.
pub open spec fn ns_of(cycles: int, hz: int) -> int {
    cycles * 1_000_000_000 / hz % 0x1_0000_0000_0000_0000
}

/// Cycles as nanoseconds; 0 where the frequency is not known.
pub fn cycles_to_ns(cycles: u64, hz: u64) -> (r: u64)
    ensures
        r == if hz == 0 {
            0
        } else {
            ns_of(cycles as int, hz as int)
        },
{
    if hz == 0 {
        return 0;
    }
    let product = cycles as u128 * 1_000_000_000;
    let ns = product / (hz as u128);
    let r = ns % 0x1_0000_0000_0000_0000;
    assert(ns as int == product as int / hz as int);
    r as u64
}

/// Nanoseconds since calibration, 0 before it.
pub open spec fn now_spec(c: &Clock, tsc: u64) -> int {
    if c.calibrated {
        ns_of(cycles_since(tsc, c.base_tsc), c.tsc_hz as int)
    } else {
        0
    }
}

/// Nanoseconds since calibration, 0 before it.
pub fn now_ns(clock: &Clock, tsc: u64) -> (r: u64)
    requires
        clock.wf(),
    ensures
        r == now_spec(clock, tsc),
{
    if !clock.calibrated {
        return 0;
    }
    let cycles = tsc.wrapping_sub(clock.base_tsc);
    cycles_to_ns(cycles, clock.tsc_hz)
}

/// Nanoseconds of the day: the time of day at boot moved by the clock.
pub open spec fn wall_ns(clock: &Clock, tsc: u64) -> int {
    (clock.boot_sod * 1_000_000_000 + now_spec(clock, tsc)) % DAY_NS as int
}

/// Nanoseconds of the day: the time of day at boot moved by the clock. It wraps
/// at midnight.
pub fn realtime_ns(clock: &Clock, tsc: u64) -> (r: u64)
    requires
        clock.wf(),
    ensures
        r == wall_ns(clock, tsc),
        r < DAY_NS,
{
    let now = now_ns(clock, tsc);
    let total = clock.boot_sod as u128 * 1_000_000_000 + now as u128;
    (total % (DAY_NS as u128)) as u64
}

/// Cycles per second, 0 before calibration.
pub fn tsc_hz(clock: &Clock) -> (r: u64)
    ensures
        r == clock.tsc_hz,
{
    clock.tsc_hz
}

/// The clock does not run backwards while the counter does not pass its
/// calibration value and the result fits in 64 bits.
pub proof fn law_clock_is_monotonic(c: Clock, a: u64, b: u64)
    requires
        c.wf(),
        c.base_tsc <= a <= b,
        (b - c.base_tsc) * 1_000_000_000 / (c.tsc_hz as int) < 0x1_0000_0000_0000_0000,
        c.calibrated,
    ensures
        now_spec(&c, a) <= now_spec(&c, b),
{
    let x = (a - c.base_tsc) * 1_000_000_000;
    let y = (b - c.base_tsc) * 1_000_000_000;
    let hz = c.tsc_hz as int;
    vstd::arithmetic::div_mod::lemma_div_is_ordered(x, y, hz);
    vstd::arithmetic::div_mod::lemma_div_pos_is_pos(x, hz);
}

} // verus!
