//! The programmable interval timer: 100 Hz uptime ticks.
use vstd::prelude::*;

verus! {

/// Ticks per second.
pub const TICK_HZ: u32 = 100;
/// The timer's base clock in Hz.
pub const BASE_HZ: u32 = 1193182;

/// The tick counter.
pub struct Pit {
    pub count: u64,
}

/// The bytes to write, in order, to the command port and twice to the data
/// port: channel 0, low byte then high byte, square wave, and the divisor.
pub fn init() -> (r: (u8, u8, u8))
    ensures
        r.0 == 0x36,
        r.1 + 0x100 * r.2 == BASE_HZ / TICK_HZ,
{
    let divisor: u16 = (BASE_HZ / TICK_HZ) as u16;
    (0x36, (divisor % 0x100) as u8, (divisor / 0x100) as u8)
}

/// One timer interrupt.
pub fn tick(p: &mut Pit)
    ensures
        final(p).count == if old(p).count == u64::MAX { 0 } else { (old(p).count + 1) as u64 },
{
    p.count = p.count.wrapping_add(1);
}

/// Ticks since boot.
pub fn ticks(p: &Pit) -> (r: u64)
    ensures
        r == p.count,
{
    p.count
}

} // verus!
