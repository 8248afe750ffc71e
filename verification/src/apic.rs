//! The local APIC and I/O APIC: routing, timer calibration and the millisecond
//! counter.
use vstd::prelude::*;

verus! {

pub const IOAPIC_PHYS: u64 = 0xFEC0_0000;
/// Vector of the preemption timer.
pub const APIC_TIMER_VECTOR: u8 = 0x30;
/// Vector of the reschedule interrupt.
pub const RESCHED_VECTOR: u8 = 0x31;
/// Spurious interrupt vector.
pub const SPURIOUS_VECTOR: u8 = 0xFF;
/// Preemptions per second.
pub const TIMER_HZ: u64 = 1000;

/// The interrupt path's state.
pub struct Apic {
    /// Interrupts are acknowledged at the local APIC.
    pub live: bool,
    /// Milliseconds since the timer started.
    pub ms: u64,
    /// Where the local APIC and the I/O APIC are visible (0 = not yet).
    pub lapic_virt: u64,
    pub ioapic_virt: u64,
}

/// Is the APIC path live?
pub fn active(a: &Apic) -> (r: bool)
    ensures
        r == a.live,
{
    a.live
}

/// Milliseconds since the timer started.
pub fn ms_since_boot(a: &Apic) -> (r: u64)
    ensures
        r == a.ms,
{
    a.ms
}

/// One timer interrupt. Every 500th gives the count for a heartbeat line. The
/// count wraps at 2^64.
pub fn tick_ms(a: &mut Apic) -> (r: Option<u64>)
    ensures
        final(a).ms == (old(a).ms + 1) % 0x1_0000_0000_0000_0000,
        final(a).live == old(a).live,
        final(a).lapic_virt == old(a).lapic_virt,
        final(a).ioapic_virt == old(a).ioapic_virt,
        r == if old(a).ms % 500 == 499 {
            Some(final(a).ms)
        } else {
            None::<u64>
        },
{
    let n = a.ms;
    a.ms = n.wrapping_add(1);
    if n % 500 == 499 {
        Some(n + 1)
    } else {
        None
    }
}

/// Why bring-up stays with the legacy controller.
#[derive(Clone, Copy, PartialEq, Eq, Debug, Structural)]
pub enum ApicOff {
    GloballyDisabled,
    NoWindow,
    LapicOverflow,
    IoApicOverflow,
    /// The timer's frequency, too low to be true.
    BogusTimer(u64),
}

/// The local APIC's physical address: bits 12 to 31 of the base register.
pub open spec fn lapic_phys(base: u64) -> int {
    base as int % 0x1_0000_0000 - base as int % 0x1000
}

/// The APIC is globally enabled: bit 11.
pub open spec fn globally_enabled(base: u64) -> bool {
    base / 0x800 % 2 == 1
}

/// Where the two APICs are visible, given the base register and where physical
/// memory is mapped.
pub fn locate(base: u64, phys_offset: Option<u64>) -> (r: Result<(u64, u64), ApicOff>)
    ensures
        r == if !globally_enabled(base) {
            Err::<(u64, u64), ApicOff>(ApicOff::GloballyDisabled)
        } else if phys_offset is None {
            Err(ApicOff::NoWindow)
        } else if phys_offset->0 + lapic_phys(base) > u64::MAX {
            Err(ApicOff::LapicOverflow)
        } else if phys_offset->0 + IOAPIC_PHYS > u64::MAX {
            Err(ApicOff::IoApicOverflow)
        } else {
            Ok(
                (
                    (phys_offset->0 + lapic_phys(base)) as u64,
                    (phys_offset->0 + IOAPIC_PHYS) as u64,
                ),
            )
        },
{
    if base / 0x800 % 2 != 1 {
        return Err(ApicOff::GloballyDisabled);
    }
    let lapic = base % 0x1_0000_0000 - base % 0x1000;
    match phys_offset {
        None => Err(ApicOff::NoWindow),
        Some(off) => match off.checked_add(lapic) {
            None => Err(ApicOff::LapicOverflow),
            Some(l) => match off.checked_add(IOAPIC_PHYS) {
                None => Err(ApicOff::IoApicOverflow),
                Some(i) => Ok((l, i)),
            },
        },
    }
}

/// The two redirection registers of an interrupt line and their values: fixed
/// delivery, edge, active high, to the local APIC with id register `id_reg`.
pub fn route_gsi(gsi: u32, vector: u8, id_reg: u32) -> (r: ((u32, u32), (u32, u32)))
    requires
        0x11 + 2 * gsi <= u32::MAX,
    ensures
        r.0.0 == 0x10 + 2 * gsi,
        r.0.1 == vector,
        r.1.0 == 0x11 + 2 * gsi,
        r.1.1 == (id_reg / 0x100_0000) * 0x100_0000,
{
    ((0x10 + 2 * gsi, vector as u32), (0x11 + 2 * gsi, (id_reg / 0x100_0000) * 0x100_0000))
}

/// The lines that are routed: timer (on two lines), keyboard, mouse.
pub fn routed_lines() -> (r: [(u32, u8); 4])
    ensures
        r@ == seq![(0u32, 0x20u8), (2u32, 0x20u8), (1u32, 0x21u8), (12u32, 0x2Cu8)],
{
    let r: [(u32, u8); 4] = [(0u32, 0x20u8), (2u32, 0x20u8), (1u32, 0x21u8), (12u32, 0x2Cu8)];
    assert(r@ =~= seq![(0u32, 0x20u8), (2u32, 0x20u8), (1u32, 0x21u8), (12u32, 0x2Cu8)]);
    r
}

/// Timer cycles per second, from the count left after half a second.
pub open spec fn timer_hz(count_left: u32) -> int {
    (0xFFFF_FFFF - count_left) * 2
}

/// The interval for 1000 interrupts per second, at least 16.
pub open spec fn first_interval(hz: int) -> int {
    if hz / 1000 < 16 {
        16
    } else {
        hz / 1000
    }
}

/// The first guess of the timer's interval.
pub fn calibrate(count_left: u32) -> (r: Result<u32, ApicOff>)
    ensures
        r == if timer_hz(count_left) < 1_000_000 {
            Err::<u32, ApicOff>(ApicOff::BogusTimer(timer_hz(count_left) as u64))
        } else {
            Ok(first_interval(timer_hz(count_left)) as u32)
        },
{
    let hz = (0xFFFF_FFFFu64 - count_left as u64) * 2;
    if hz < 1_000_000 {
        return Err(ApicOff::BogusTimer(hz));
    }
    let i = hz / TIMER_HZ;
    Ok(
        if i < 16 {
            16
        } else {
            i as u32
        },
    )
}

/// Interrupts that fire in the measuring window of 50 ticks of the PIT, half a
/// second, where the interval is right.
pub const WINDOW_FIRES: u64 = 500;

/// The interval after the closed-loop measurement of `fired` interrupts.
pub open spec fn corrected_interval(first: u32, fired: u64) -> int {
    if fired > 10 && fired != WINDOW_FIRES {
        let i = first * fired / (WINDOW_FIRES as int);
        if i < 16 {
            16
        } else {
            i % 0x1_0000_0000
        }
    } else {
        first as int
    }
}

/// Rescale the interval by the interrupts that fired in the measuring window.
pub fn correct_interval(first: u32, fired: u64) -> (r: u32)
    requires
        first * fired <= u64::MAX,
    ensures
        r == corrected_interval(first, fired),
        fired == WINDOW_FIRES ==> r == first,
{
    if fired > 10 && fired != WINDOW_FIRES {
        let i = (first as u64) * fired / WINDOW_FIRES;
        if i < 16 {
            16
        } else {
            (i % 0x1_0000_0000) as u32
        }
    } else {
        first
    }
}

} // verus!
