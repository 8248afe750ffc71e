//! What the clocks mean: the calendar, the registers of the real-time clock, and the scales
//! on which cycles, ticks and seconds are counted.
use vstd::prelude::*;

use crate::apic::{corrected_interval, first_interval, timer_hz};
use crate::rtc::{
    day_of, decoded, hms_text, leap, month_days, shift_fits, shifted, uptime_secs, DateTime, Day,
};
use crate::text::{dec, digits, zero_padded};
use crate::time::{cycles_since, measured_hz, now_spec, ns_of, wall_ns, Clock, Measured};

verus! {

/// Two decimal digits, the tens in the high half of the byte.
pub open spec fn packed_digits(v: u8) -> int {
    10 * (v as int / 16) + v as int % 16
}

/// The seven registers hold second, minute, hour, day, month, year and century. The second
/// status bit says that they hold plain numbers; without it each holds two packed digits.
/// The century counts only where its register holds a plausible one.
#[verifier::spinoff_prover]
#[verifier::rlimit(60)]
pub proof fn law_registers(raw: Seq<u8>, status_b: u8)
    requires
        raw.len() == 7,
    ensures
        status_b / 4 % 2 == 1 ==> {
            let d = decoded(raw, status_b);
            &&& d.second == raw[0]
            &&& d.minute == raw[1]
            &&& d.day == raw[3]
            &&& d.month == raw[4]
            &&& status_b / 2 % 2 == 1 ==> d.hour == raw[2]
            &&& raw[6] >= 19 ==> d.year == 100 * raw[6] + raw[5]
            &&& raw[6] < 19 ==> d.year == 2000 + raw[5]
        },
        status_b / 4 % 2 == 0 ==> {
            let d = decoded(raw, status_b);
            &&& d.second == packed_digits(raw[0])
            &&& d.minute == packed_digits(raw[1])
            &&& d.day == packed_digits(raw[3])
            &&& d.month == packed_digits(raw[4])
            &&& status_b / 2 % 2 == 1 ==> d.hour == packed_digits(raw[2])
            &&& raw[6] >= 19 ==> d.year == 100 * packed_digits(raw[6]) + packed_digits(raw[5])
            &&& raw[6] < 19 ==> d.year == 2000 + packed_digits(raw[5])
        },
{
}

/// On a twelve-hour clock the top bit of the hour register tells afternoon from morning, and
/// twelve o'clock is the first hour of its half of the day.
pub proof fn law_twelve_hour_clock(raw: Seq<u8>, status_b: u8, h: int)
    requires
        raw.len() == 7,
        status_b / 2 % 2 == 0,
        1 <= h <= 12,
        h == if status_b / 4 % 2 == 1 { raw[2] as int % 128 } else { packed_digits((raw[2] % 128) as u8) },
    ensures
        raw[2] < 128 ==> decoded(raw, status_b).hour == h % 12,
        raw[2] >= 128 ==> decoded(raw, status_b).hour == 12 + h % 12,
{
}

/// Every fourth year has a day more, save three centuries out of four.
pub proof fn law_leap_years(y: int)
    ensures
        leap(y) ==> y % 4 == 0,
        y % 4 == 0 && y % 100 != 0 ==> leap(y),
        y % 100 == 0 ==> (leap(y) <==> (y / 100) % 4 == 0),
        leap(y + 400) == leap(y),
{
    assert((y + 400) % 4 == y % 4);
    assert((y + 400) % 100 == y % 100);
    assert((y + 400) % 400 == y % 400);
}

/// The days of the first `m` months of a year.
pub open spec fn days_before(y: int, m: int) -> int
    decreases m,
{
    if m <= 1 {
        0
    } else {
        days_before(y, m - 1) + month_days(y, m - 1)
    }
}

/// The months have 31 and 30 days in turn, turning again after July; February makes up the
/// difference, so that a year has 365 days and a leap year 366.
#[verifier::spinoff_prover]
#[verifier::rlimit(60)]
pub proof fn law_months(y: int)
    ensures
        forall|m: int| 1 <= m <= 7 && m != 2 ==> #[trigger] month_days(y, m) == 30 + m % 2,
        forall|m: int| 8 <= m <= 12 ==> #[trigger] month_days(y, m) == 31 - m % 2,
        month_days(y, 2) == if leap(y) { 29int } else { 28 },
        days_before(y, 13) == if leap(y) { 366int } else { 365 },
{
    reveal_with_fuel(days_before, 14);
}

/// The day of the year, counted from nought.
pub open spec fn day_of_year(d: Day) -> int {
    days_before(d.year, d.month) + d.day - 1
}

/// The next day is one further in the same year, or the first of the next.
#[verifier::spinoff_prover]
#[verifier::rlimit(60)]
pub proof fn law_next_day(d: Day)
    requires
        d.exists_on_calendar(),
    ensures
        d.next().exists_on_calendar(),
        day_of_year(d) < days_before(d.year, 13) - 1 ==> d.next().year == d.year && day_of_year(d.next())
            == day_of_year(d) + 1,
        day_of_year(d) == days_before(d.year, 13) - 1 ==> d.next().year == d.year + 1 && day_of_year(
            d.next(),
        ) == 0,
        day_of_year(d) <= days_before(d.year, 13) - 1,
{
    let y = d.year;
    reveal_with_fuel(days_before, 14);
    assert(days_before(y, d.month + 1) == days_before(y, d.month) + month_days(y, d.month));
    if d.month == 12 {
        assert(days_before(y, 13) == days_before(y, 12) + 31);
    }
}

/// A shift by some seconds moves the clock by exactly those: what the time of day lacks, the
/// days make up.
#[verifier::spinoff_prover]
#[verifier::rlimit(60)]
pub proof fn law_shift(d: DateTime, secs: int)
    requires
        d.hour < 24,
        d.minute < 60,
        d.second < 60,
    ensures
        exists|days: int|
            #![trigger day_of(d).plus(days)]
            {
                &&& shifted(d, secs).hour * 3600 + shifted(d, secs).minute * 60 + shifted(d, secs).second
                    + 86_400 * days == d.hour * 3600 + d.minute * 60 + d.second + secs
                &&& (shift_fits(d, secs) && 0 <= day_of(d).plus(days).month < 256 && 0
                    <= day_of(d).plus(days).day < 256) ==> day_of(shifted(d, secs))
                    == day_of(d).plus(days)
            },
        shifted(d, secs).hour < 24,
        shifted(d, secs).minute < 60,
        shifted(d, secs).second < 60,
{
    let total = d.sod() + secs;
    let days = total / 86_400;
    let sod = total % 86_400;
    assert(total == 86_400 * days + sod);
    assert(sod / 3600 * 3600 + sod / 60 % 60 * 60 + sod % 60 == sod);
    let x = day_of(d).plus(days);
    assert(shifted(d, secs).hour == sod / 3600);
}

/// The character of a decimal digit.
pub open spec fn numeral(d: int) -> char {
    (48 + d) as u8 as char
}

proof fn lemma_two_digits(n: nat)
    requires
        n < 100,
    ensures
        zero_padded(dec(n), 2) =~= seq![numeral(n as int / 10), numeral(n as int % 10)],
{
    reveal_with_fuel(digits, 3);
    if n < 10 {
        assert(dec(n) =~= seq![numeral(n as int)]);
    } else {
        assert(dec(n) =~= seq![numeral(n as int / 10), numeral(n as int % 10)]);
    }
}

/// The time of day is told as hours, minutes and seconds, two digits each, with colons between.
pub proof fn law_time_text(h: u32, m: u32, s: u32)
    requires
        h < 100,
        m < 60,
        s < 60,
    ensures
        hms_text((h * 3600 + m * 60 + s) as u32) =~= seq![
            numeral(h as int / 10),
            numeral(h as int % 10),
            ':',
            numeral(m as int / 10),
            numeral(m as int % 10),
            ':',
            numeral(s as int / 10),
            numeral(s as int % 10),
        ],
{
    let t = (h * 3600 + m * 60 + s) as u32;
    assert(t / 3600 == h && t % 3600 / 60 == m && t % 60 == s);
    lemma_two_digits(h as nat);
    lemma_two_digits(m as nat);
    lemma_two_digits(s as nat);
    reveal_strlit(":");
}

/// A hundred ticks are one second, and the local clock is the boot time moved by the seconds
/// since boot and the zone.
pub proof fn law_uptime(ticks: u64)
    ensures
        100 * uptime_secs(ticks) <= ticks < 100 * (uptime_secs(ticks) + 1),
{
}

/// A clock of `hz` cycles a second counts whole nanoseconds: as many of them as the cycles
/// fill.
pub proof fn law_nanoseconds(cycles: u64, hz: u64)
    requires
        hz > 0,
        cycles as int * 1_000_000_000 < hz * 0x1_0000_0000_0000_0000,
    ensures
        hz * ns_of(cycles as int, hz as int) <= cycles * 1_000_000_000 < hz * (ns_of(
            cycles as int,
            hz as int,
        ) + 1),
{
    let n = cycles as int * 1_000_000_000;
    let h = hz as int;
    vstd::arithmetic::div_mod::lemma_fundamental_div_mod(n, h);
    let q = n / h;
    assert(0 <= q < 0x1_0000_0000_0000_0000) by (nonlinear_arith)
        requires
            n == h * q + n % h,
            0 <= n % h < h,
            0 <= n < h * 0x1_0000_0000_0000_0000,
            h > 0,
    ;
    assert(h * (q + 1) == h * q + h) by (nonlinear_arith);
}

/// The counter runs on past its top: the cycles since a reading lead from it to the present
/// one.
pub proof fn law_counter_wraps(tsc: u64, base: u64)
    ensures
        (base + cycles_since(tsc, base)) % 0x1_0000_0000_0000_0000 == tsc,
        0 <= cycles_since(tsc, base) < 0x1_0000_0000_0000_0000,
{
}

/// The measured rate is the cycles of one second, at a hundred ticks each.
pub proof fn law_measured_rate(m: Measured)
    requires
        m.t2 > m.t1,
        m.c2 > m.c1,
    ensures
        measured_hz(m) * (m.t2 - m.t1) <= 100 * (m.c2 - m.c1) < (measured_hz(m) + 1) * (m.t2 - m.t1),
{
    let a = (m.c2 - m.c1) * 100;
    let b = m.t2 - m.t1;
    vstd::arithmetic::div_mod::lemma_fundamental_div_mod(a, b);
    let q = a / b;
    assert(q * b <= a < (q + 1) * b) by (nonlinear_arith)
        requires
            a == b * q + a % b,
            0 <= a % b < b,
    ;
}

/// The wall clock shows the time of day: the seconds at boot and the nanoseconds since, with
/// full days left out.
pub proof fn law_wall_clock(c: Clock, tsc: u64)
    ensures
        0 <= wall_ns(&c, tsc) < 86_400 * 1_000_000_000,
        exists|days: int|
            #![trigger days * 1]
            c.boot_sod * 1_000_000_000 + now_spec(&c, tsc) == wall_ns(&c, tsc) + days * 1 * (86_400
                * 1_000_000_000),
        !c.calibrated ==> now_spec(&c, tsc) == 0,
        c.calibrated ==> now_spec(&c, tsc) == ns_of(cycles_since(tsc, c.base_tsc), c.tsc_hz as int),
{
    let n = c.boot_sod * 1_000_000_000 + now_spec(&c, tsc);
    let k = n / 86_400_000_000_000;
    assert(n == n % 86_400_000_000_000 + (k * 1) * 86_400_000_000_000);
}

/// The local timer counts down from its top while the reference counts half a second, so it
/// runs at twice the counts taken; an interval is a thousandth of a second of them, sixteen
/// at least.
pub proof fn law_timer_interval(count_left: u32)
    ensures
        timer_hz(count_left) + 2 * count_left == 2 * (u32::MAX as int),
        first_interval(timer_hz(count_left)) >= 16,
        timer_hz(count_left) >= 16_000 ==> {
            let i = first_interval(timer_hz(count_left));
            1000 * i <= timer_hz(count_left) < 1000 * (i + 1)
        },
{
}

/// A timer that fired more often than the five hundred times it should gets a longer interval
/// in the same proportion, and one that fired less often a shorter; a window with next to no
/// interrupts corrects nothing.
pub proof fn law_corrected_interval(first: u32, fired: u64)
    requires
        first as int * fired < 500 * 0x1_0000_0000,
    ensures
        fired <= 10 || fired == 500 ==> corrected_interval(first, fired) == first,
        fired > 10 && first as int * fired >= 8000 ==> 500 * corrected_interval(first, fired) <= first as int
            * fired < 500 * (corrected_interval(first, fired) + 1),
        fired > 10 && fired != 500 ==> corrected_interval(first, fired) >= 16,
{
    let p = first as int * fired;
    assert(p >= 0) by (nonlinear_arith)
        requires
            p == first as int * fired,
    ;
}

} // verus!
