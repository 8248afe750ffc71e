//! Wall-clock time: decoding the CMOS clock, and the time of day that follows
//! from it, the uptime and the display time zone.
use crate::pit::TICK_HZ;
use crate::text::{dec, push_dec_padded, zero_padded};
use vstd::prelude::*;

verus! {

/// A date and time of day.
#[derive(Debug, Clone, Copy, PartialEq, Eq, Structural)]
pub struct DateTime {
    pub second: u8,
    pub minute: u8,
    /// 0 to 23.
    pub hour: u8,
    pub day: u8,
    pub month: u8,
    /// Full year.
    pub year: u16,
}

impl DateTime {
    /// Seconds since midnight.
    pub open spec fn sod(self) -> int {
        self.hour * 3600 + self.minute * 60 + self.second
    }

    /// Seconds since midnight.
    pub fn secs_of_day(&self) -> (r: u32)
        ensures
            r == self.sod(),
    {
        self.hour as u32 * 3600 + self.minute as u32 * 60 + self.second as u32
    }
}

// ---------------------------------------------------------------------------
// Decoding
// ---------------------------------------------------------------------------

/// A field in binary-coded decimal or plain binary.
pub open spec fn field(v: u8, bcd: bool) -> int {
    if bcd {
        v as int % 16 + (v as int / 16) * 10
    } else {
        v as int
    }
}

/// Status B says that fields are binary-coded decimal.
pub open spec fn is_bcd(status_b: u8) -> bool {
    status_b / 4 % 2 == 0
}

/// Status B says that hours count to twelve.
pub open spec fn is_12_hour(status_b: u8) -> bool {
    status_b / 2 % 2 == 0
}

/// The hour in 24-hour form. With 12-hour time the top bit means PM, and
/// twelve o'clock is the special case.
pub open spec fn hour_of(raw: u8, status_b: u8) -> int {
    if is_12_hour(status_b) {
        let h = field((raw % 128) as u8, is_bcd(status_b));
        if raw >= 128 {
            if h == 12 {
                12
            } else {
                h + 12
            }
        } else {
            if h == 12 {
                0
            } else {
                h
            }
        }
    } else {
        field(raw, is_bcd(status_b))
    }
}

/// The full year; without a century register the 2000s.
pub open spec fn year_of(year: u8, century: u8, bcd: bool) -> int {
    if century >= 19 {
        field(century, bcd) * 100 + field(year, bcd)
    } else {
        2000 + field(year, bcd)
    }
}

/// The fields second, minute, hour, day, month, year, century decoded.
pub open spec fn decoded(raw: Seq<u8>, status_b: u8) -> DateTime {
    let bcd = is_bcd(status_b);
    DateTime {
        second: field(raw[0], bcd) as u8,
        minute: field(raw[1], bcd) as u8,
        hour: hour_of(raw[2], status_b) as u8,
        day: field(raw[3], bcd) as u8,
        month: field(raw[4], bcd) as u8,
        year: year_of(raw[5], raw[6], bcd) as u16,
    }
}

fn decode_field(v: u8, bcd: bool) -> (r: u8)
    ensures
        r == field(v, bcd),
{
    if bcd {
        v % 16 + (v / 16) * 10
    } else {
        v
    }
}

/// Decode a snapshot of the clock's registers per status B.
pub fn decode(raw: [u8; 7], status_b: u8) -> (r: DateTime)
    ensures
        r == decoded(raw@, status_b),
{
    let bcd = status_b / 4 % 2 == 0;
    let hour = if status_b / 2 % 2 == 0 {
        let h12 = decode_field(raw[2] % 128, bcd);
        if raw[2] >= 128 {
            if h12 == 12 {
                12
            } else {
                h12 + 12
            }
        } else {
            if h12 == 12 {
                0
            } else {
                h12
            }
        }
    } else {
        decode_field(raw[2], bcd)
    };
    let year_raw = decode_field(raw[5], bcd) as u16;
    let year = if raw[6] >= 19 {
        decode_field(raw[6], bcd) as u16 * 100 + year_raw
    } else {
        2000 + year_raw
    };
    DateTime {
        second: decode_field(raw[0], bcd),
        minute: decode_field(raw[1], bcd),
        hour,
        day: decode_field(raw[3], bcd),
        month: decode_field(raw[4], bcd),
        year,
    }
}

/// The first pair of equal snapshots among `pairs` of consecutive reads, at
/// most ten pairs: a register may roll over while it is read.
pub fn read_datetime_stable(pairs: &Vec<([u8; 7], [u8; 7])>, status_b: u8) -> (r: Option<DateTime>)
    ensures
        match r {
            Some(d) => exists|i: int|
                {
                    &&& 0 <= i < pairs@.len() && i < 10
                    &&& (#[trigger] pairs@[i]).0@ == pairs@[i].1@
                    &&& d == decoded(pairs@[i].0@, status_b)
                    &&& forall|k: int| 0 <= k < i ==> (#[trigger] pairs@[k]).0@ != pairs@[k].1@
                },
            None => forall|k: int|
                0 <= k < pairs@.len() && k < 10 ==> (#[trigger] pairs@[k]).0@ != pairs@[k].1@,
        },
{
    let mut i: usize = 0;
    while i < pairs.len() && i < 10
        invariant
            i <= pairs@.len(),
            i <= 10,
            forall|k: int| 0 <= k < i ==> (#[trigger] pairs@[k]).0@ != pairs@[k].1@,
        decreases 10 - i,
    {
        let (a, b) = pairs[i];
        if a[0] == b[0] && a[1] == b[1] && a[2] == b[2] && a[3] == b[3] && a[4] == b[4] && a[5]
            == b[5] && a[6] == b[6] {
            assert(a@ =~= b@);
            assert(pairs@[i as int].0@ == a@);
            return Some(decode(a, status_b));
        }
        i += 1;
    }
    None
}

// ---------------------------------------------------------------------------
// The calendar
// ---------------------------------------------------------------------------

/// A leap year.
pub open spec fn leap(y: int) -> bool {
    (y % 4 == 0 && y % 100 != 0) || y % 400 == 0
}

/// Days of a month; an implausible month has 30.
pub open spec fn month_days(y: int, m: int) -> int {
    if m == 1 || m == 3 || m == 5 || m == 7 || m == 8 || m == 10 || m == 12 {
        31
    } else if m == 2 {
        if leap(y) {
            29
        } else {
            28
        }
    } else {
        30
    }
}

/// A calendar day.
pub struct Day {
    pub year: int,
    pub month: int,
    pub day: int,
}

/// The day of a date.
pub open spec fn day_of(d: DateTime) -> Day {
    Day { year: d.year as int, month: d.month as int, day: d.day as int }
}

impl Day {
    /// A month and a day that can be (the day not checked against the month).
    pub open spec fn plausible(self) -> bool {
        1 <= self.month <= 12 && 1 <= self.day <= 31
    }

    /// A day that can be counted from: a plausible one, or one of an unset clock,
    /// whose month and day are 0.
    pub open spec fn countable(self) -> bool {
        0 <= self.month <= 12 && 0 <= self.day <= 31
    }

    /// A day that exists.
    pub open spec fn exists_on_calendar(self) -> bool {
        1 <= self.month <= 12 && 1 <= self.day <= month_days(self.year, self.month)
    }

    /// The day after.
    pub open spec fn next(self) -> Day {
        if self.day >= month_days(self.year, self.month) {
            if self.month == 12 {
                Day { year: self.year + 1, month: 1, day: 1 }
            } else {
                Day { year: self.year, month: self.month + 1, day: 1 }
            }
        } else {
            Day { day: self.day + 1, ..self }
        }
    }

    /// The day before.
    pub open spec fn prev(self) -> Day {
        if self.day > 1 {
            Day { day: self.day - 1, ..self }
        } else if self.month == 1 {
            Day { year: self.year - 1, month: 12, day: month_days(self.year - 1, 12) }
        } else {
            Day { year: self.year, month: self.month - 1, day: month_days(self.year, self.month - 1) }
        }
    }

    /// `n` days later, or earlier where `n` is negative.
    pub open spec fn plus(self, n: int) -> Day
        decreases
                if n < 0 {
                    -n
                } else {
                    n
                },
    {
        if n == 0 {
            self
        } else if n > 0 {
            self.plus(n - 1).next()
        } else {
            self.plus(n + 1).prev()
        }
    }
}

/// The day after and the day before undo each other.
pub proof fn law_next_prev(d: Day)
    requires
        d.exists_on_calendar(),
    ensures
        d.next().exists_on_calendar(),
        d.prev().exists_on_calendar(),
        d.next().prev() == d,
        d.prev().next() == d,
{
}

/// Going `n` days forward and one day back is going `n - 1` days forward.
pub proof fn law_plus_steps(d: Day, n: int)
    requires
        d.exists_on_calendar(),
    ensures
        d.plus(n).exists_on_calendar(),
        d.plus(n).next() == d.plus(n + 1),
        d.plus(n).prev() == d.plus(n - 1),
    decreases
            if n < 0 {
                -n
            } else {
                n
            },
{
    if n > 0 {
        law_plus_steps(d, n - 1);
        law_next_prev(d.plus(n - 1));
        law_next_prev(d.plus(n));
    } else if n < 0 {
        law_plus_steps(d, n + 1);
        law_next_prev(d.plus(n + 1));
        law_next_prev(d.plus(n));
    } else {
        law_next_prev(d);
    }
}

proof fn lemma_plus_years(d: Day, n: int)
    requires
        d.countable(),
        n >= 0,
    ensures
        d.plus(n).countable(),
        d.year <= d.plus(n).year,
        n > 0 ==> d.plus(n - 1).year <= d.plus(n).year,
    decreases n,
{
    if n > 0 {
        lemma_plus_years(d, n - 1);
    }
}

proof fn lemma_plus_mono(d: Day, a: int, b: int)
    requires
        d.countable(),
        0 <= a <= b,
    ensures
        d.plus(a).year <= d.plus(b).year,
    decreases b,
{
    if a < b {
        lemma_plus_mono(d, a, b - 1);
        lemma_plus_years(d, b);
    }
}

proof fn lemma_minus_years(d: Day, n: int)
    requires
        d.countable(),
        n >= 0,
    ensures
        d.plus(-n).month <= 12,
        0 <= d.plus(-n).day <= 31,
        n > 0 && d.plus(-n).month >= 0 ==> d.plus(-(n - 1)).month >= 0,
        d.plus(-n).year <= d.year,
        n > 0 ==> d.plus(-n).year <= d.plus(-(n - 1)).year,
    decreases n,
{
    if n > 0 {
        lemma_minus_years(d, n - 1);
        assert(-n + 1 == -(n - 1));
    }
}

proof fn lemma_minus_mono(d: Day, a: int, b: int)
    requires
        d.countable(),
        0 <= a <= b,
    ensures
        d.plus(-b).year <= d.plus(-a).year,
        d.plus(-b).month >= 0 ==> d.plus(-a).month >= 0,
    decreases b,
{
    if a < b {
        lemma_minus_mono(d, a, b - 1);
        lemma_minus_years(d, b);
    }
}

fn is_leap(y: u16) -> (r: bool)
    ensures
        r == leap(y as int),
{
    (y % 4 == 0 && y % 100 != 0) || y % 400 == 0
}

fn days_in_month(year: u16, month: u8) -> (r: u8)
    ensures
        r == month_days(year as int, month as int),
{
    match month {
        1 => 31,
        3 => 31,
        5 => 31,
        7 => 31,
        8 => 31,
        10 => 31,
        12 => 31,
        2 => if is_leap(year) {
            29
        } else {
            28
        },
        _ => 30,
    }
}

/// `d` on day `x`, at the same time of day.
pub open spec fn on_day(d: DateTime, x: Day) -> DateTime {
    DateTime { year: x.year as u16, month: x.month as u8, day: x.day as u8, ..d }
}

/// The same time on the next day.
pub fn next_day(d: DateTime) -> (r: DateTime)
    requires
        day_of(d).countable(),
        day_of(d).next().year <= u16::MAX,
    ensures
        r == on_day(d, day_of(d).next()),
        day_of(r) == day_of(d).next(),
{
    let mut d = d;
    if d.day >= days_in_month(d.year, d.month) {
        if d.month == 12 {
            d.year = d.year + 1;
            d.month = 1;
        } else {
            d.month = d.month + 1;
        }
        d.day = 1;
    } else {
        d.day = d.day + 1;
    }
    d
}

/// The same time on the day before.
pub fn prev_day(d: DateTime) -> (r: DateTime)
    requires
        day_of(d).countable(),
        day_of(d).prev().year >= 0,
        day_of(d).prev().month >= 0,
    ensures
        r == on_day(d, day_of(d).prev()),
        day_of(r) == day_of(d).prev(),
{
    let mut d = d;
    if d.day > 1 {
        d.day = d.day - 1;
        return d;
    }
    if d.month == 1 {
        d.year = d.year - 1;
        d.month = 12;
    } else {
        d.month = d.month - 1;
    }
    d.day = days_in_month(d.year, d.month);
    d
}

/// `d` moved by `secs` seconds: day and time of day.
pub open spec fn shifted(d: DateTime, secs: int) -> DateTime {
    let total = d.sod() + secs;
    let sod = total % 86_400;
    on_day(
        DateTime {
            second: (sod % 60) as u8,
            minute: (sod / 60 % 60) as u8,
            hour: (sod / 3600) as u8,
            ..d
        },
        day_of(d).plus(total / 86_400),
    )
}

/// The shift stays within the years that can be written, and in an unset clock
/// does not go back behind its first month.
pub open spec fn shift_fits(d: DateTime, secs: int) -> bool {
    let x = day_of(d).plus((d.sod() + secs) / 86_400);
    0 <= x.year <= u16::MAX && x.month >= 0
}

/// `d` moved by `days` days and set to second `sod` of that day.
fn at_day_and_sod(d: DateTime, days: i64, sod: u32) -> (r: DateTime)
    requires
        day_of(d).countable(),
        0 <= day_of(d).plus(days as int).year <= u16::MAX,
        day_of(d).plus(days as int).month >= 0,
        sod < 86_400,
        -0x4000_0000_0000_0000 < days < 0x4000_0000_0000_0000,
    ensures
        r == on_day(
            DateTime {
                second: (sod % 60) as u8,
                minute: (sod / 60 % 60) as u8,
                hour: (sod / 3600) as u8,
                ..d
            },
            day_of(d).plus(days as int),
        ),
{
    let mut t = d;
    t.second = (sod % 60) as u8;
    t.minute = (sod / 60 % 60) as u8;
    t.hour = (sod / 3600) as u8;
    let ghost base = t;
    let ghost d0 = day_of(d);
    let mut k: i64 = 0;
    while k < days
        invariant
            0 <= k,
            days > 0 ==> k <= days,
            days <= 0 ==> k == 0,
            d0.countable(),
            d0.plus(days as int).year <= u16::MAX,
            day_of(t) == d0.plus(k as int),
            t == on_day(base, d0.plus(k as int)),
        decreases days - k,
    {
        proof {
            lemma_plus_years(d0, k as int);
            lemma_plus_mono(d0, k + 1, days as int);
            lemma_plus_mono(d0, k as int, days as int);
        }
        t = next_day(t);
        k = k + 1;
    }
    let mut j: i64 = 0;
    while j < -days
        invariant
            0 <= j,
            -0x4000_0000_0000_0000 < days,
            days < 0 ==> j <= -days,
            days >= 0 ==> j == 0,
            d0.countable(),
            days < 0 ==> 0 <= d0.plus(days as int).year && d0.plus(days as int).month >= 0,
            days < 0 ==> day_of(t) == d0.plus(-j),
            days < 0 ==> t == on_day(base, d0.plus(-j)),
            days >= 0 ==> t == on_day(base, d0.plus(days as int)),
        decreases -days - j,
    {
        proof {
            lemma_minus_years(d0, j as int);
            lemma_minus_mono(d0, j + 1, -days as int);
            lemma_minus_mono(d0, j as int, -days as int);
            assert(d0.plus(-j).prev() == d0.plus(-(j + 1))) by {
                assert(-(j + 1) + 1 == -j);
            }
        }
        t = prev_day(t);
        j = j + 1;
    }
    t
}

/// A date moved by a time-zone offset, across midnight where it must.
pub fn to_local(d: DateTime, tz_offset_secs: i32) -> (r: DateTime)
    requires
        day_of(d).countable(),
        shift_fits(d, tz_offset_secs as int),
    ensures
        r == shifted(d, tz_offset_secs as int),
{
    let total = d.secs_of_day() as i64 + tz_offset_secs as i64;
    let lifted = total + 86_400 * 25_000;
    let days = lifted / 86_400 - 25_000;
    let sod = (lifted % 86_400) as u32;
    assert(days == total as int / 86_400 && sod == total as int % 86_400);
    at_day_and_sod(d, days, sod)
}

// ---------------------------------------------------------------------------
// The clock
// ---------------------------------------------------------------------------

/// Boot time and display zone.
pub struct Rtc {
    boot: DateTime,
    ok: bool,
    tz_offset_secs: i32,
}

/// The time zone of a fresh clock: UTC+5:30.
pub const DEFAULT_TZ: i32 = 19_800;

/// No time known yet.
pub open spec fn zero_time() -> DateTime {
    DateTime { second: 0, minute: 0, hour: 0, day: 0, month: 0, year: 0 }
}

impl Rtc {
    pub closed spec fn boot_spec(&self) -> DateTime {
        self.boot
    }

    pub closed spec fn ok_spec(&self) -> bool {
        self.ok
    }

    pub closed spec fn tz(&self) -> i32 {
        self.tz_offset_secs
    }

    /// A clock that was set holds a plausible date; another holds one that can
    /// be counted from.
    pub closed spec fn wf(&self) -> bool {
        &&& day_of(self.boot).countable()
        &&& self.ok ==> day_of(self.boot).plausible()
    }

    pub fn new() -> (r: Rtc)
        ensures
            r.wf(),
            !r.ok_spec(),
            r.boot_spec() == zero_time(),
            r.tz() == DEFAULT_TZ,
    {
        Rtc {
            boot: DateTime { second: 0, minute: 0, hour: 0, day: 0, month: 0, year: 0 },
            ok: false,
            tz_offset_secs: DEFAULT_TZ,
        }
    }
}

/// A read that gives a month and a day that can be.
pub open spec fn plausible_read(read: Option<DateTime>) -> bool {
    read is Some && day_of(read->0).plausible()
}

/// Record the boot time where the clock was read and is plausible.
pub fn init(rtc: &mut Rtc, read: Option<DateTime>) -> (r: bool)
    requires
        old(rtc).wf(),
    ensures
        final(rtc).wf(),
        r == plausible_read(read),
        final(rtc).tz() == old(rtc).tz(),
        r ==> final(rtc).ok_spec() && final(rtc).boot_spec() == read->0,
        !r ==> *final(rtc) == *old(rtc),
{
    match read {
        Some(d) => if 1 <= d.month && d.month <= 12 && 1 <= d.day && d.day <= 31 {
            rtc.boot = d;
            rtc.ok = true;
            true
        } else {
            false
        },
        None => false,
    }
}

/// Change the display time zone (seconds east of UTC).
pub fn set_tz_offset_secs(rtc: &mut Rtc, secs: i32)
    requires
        old(rtc).wf(),
    ensures
        final(rtc).wf(),
        final(rtc).tz() == secs,
        final(rtc).ok_spec() == old(rtc).ok_spec(),
        final(rtc).boot_spec() == old(rtc).boot_spec(),
{
    rtc.tz_offset_secs = secs;
}

/// Did the boot read give a plausible time?
pub fn available(rtc: &Rtc) -> (r: bool)
    ensures
        r == rtc.ok_spec(),
{
    rtc.ok
}

/// The boot time in UTC.
pub fn boot_datetime_utc(rtc: &Rtc) -> (r: DateTime)
    ensures
        r == rtc.boot_spec(),
{
    rtc.boot
}

/// Seconds of uptime.
pub open spec fn uptime_secs(ticks: u64) -> int {
    ticks as int / 100
}

/// The time now in UTC: the boot time moved by the uptime. A clock that was not
/// set counts from the zero date.
pub fn now_utc(rtc: &Rtc, ticks: u64) -> (r: DateTime)
    requires
        rtc.wf(),
        shift_fits(rtc.boot_spec(), uptime_secs(ticks)),
    ensures
        r == shifted(rtc.boot_spec(), uptime_secs(ticks)),
{
    let d = boot_datetime_utc(rtc);
    let up = ticks / TICK_HZ as u64;
    let total = d.secs_of_day() as u64 + up;
    let days = (total / 86_400) as i64;
    let sod = (total % 86_400) as u32;
    at_day_and_sod(d, days, sod)
}

/// The time now in the display zone.
pub open spec fn local_now(rtc: &Rtc, ticks: u64) -> DateTime {
    shifted(shifted(rtc.boot_spec(), uptime_secs(ticks)), rtc.tz() as int)
}

/// The uptime and the zone keep the date within the years that can be written.
pub open spec fn now_fits(rtc: &Rtc, ticks: u64) -> bool {
    &&& shift_fits(rtc.boot_spec(), uptime_secs(ticks))
    &&& shift_fits(shifted(rtc.boot_spec(), uptime_secs(ticks)), rtc.tz() as int)
}

/// The time now in the display zone.
pub fn now(rtc: &Rtc, ticks: u64) -> (r: DateTime)
    requires
        rtc.wf(),
        now_fits(rtc, ticks),
    ensures
        r == local_now(rtc, ticks),
{
    let utc = now_utc(rtc, ticks);
    proof {
        let n = (rtc.boot_spec().sod() + uptime_secs(ticks)) / 86_400;
        lemma_plus_years(day_of(rtc.boot_spec()), n);
    }
    to_local(utc, rtc.tz_offset_secs)
}

/// Seconds since midnight now, in the display zone; the uptime as a clock where
/// the boot time is not known.
pub fn now_secs_of_day(rtc: &Rtc, ticks: u64) -> (r: u32)
    requires
        rtc.wf(),
        rtc.ok_spec() ==> now_fits(rtc, ticks),
    ensures
        r == if rtc.ok_spec() {
            local_now(rtc, ticks).sod()
        } else {
            uptime_secs(ticks) % 86_400
        },
{
    if rtc.ok {
        now(rtc, ticks).secs_of_day()
    } else {
        ((ticks / TICK_HZ as u64) % 86_400) as u32
    }
}

/// `HH:MM:SS`.
pub open spec fn hms_text(s: u32) -> Seq<char> {
    zero_padded(dec((s / 3600) as nat), 2) + ":"@ + zero_padded(dec((s % 3600 / 60) as nat), 2)
        + ":"@ + zero_padded(dec((s % 60) as nat), 2)
}

/// Seconds of a day as `HH:MM:SS`.
pub fn format_hms(secs_of_day: u32) -> (r: String)
    ensures
        r@ == hms_text(secs_of_day),
{
    let mut s = String::new();
    push_dec_padded(&mut s, (secs_of_day / 3600) as u64, 2);
    s.append(":");
    push_dec_padded(&mut s, (secs_of_day % 3600 / 60) as u64, 2);
    s.append(":");
    push_dec_padded(&mut s, (secs_of_day % 60) as u64, 2);
    assert(s@ =~= hms_text(secs_of_day));
    s
}

/// The time of day shown always lies within the day, whatever the offset.
pub proof fn law_shifted_time_of_day(d: DateTime, secs: int)
    ensures
        0 <= shifted(d, secs).sod() < 86_400,
        shifted(d, secs).sod() == (d.sod() + secs) % 86_400,
        shifted(d, secs).hour < 24,
        shifted(d, secs).minute < 60,
        shifted(d, secs).second < 60,
{
    let sod = (d.sod() + secs) % 86_400;
    assert(sod == sod / 3600 * 3600 + sod / 60 % 60 * 60 + sod % 60);
}

/// A change of zone moves the local clock by just that, at any moment: the
/// local time of day is that of UTC and the offset, with no offset the local
/// time is UTC, and UTC itself does not depend on the zone.
pub proof fn law_zone_moves_the_local_clock(a: Rtc, b: Rtc, ticks: u64, secs: i32)
    requires
        a.wf(),
        b.boot_spec() == a.boot_spec(),
        b.tz() == secs,
    ensures
        local_now(&b, ticks).sod() == (shifted(a.boot_spec(), uptime_secs(ticks)).sod() + secs) % 86_400,
        secs == 0 ==> local_now(&b, ticks) == shifted(a.boot_spec(), uptime_secs(ticks)),
{
    let utc = shifted(a.boot_spec(), uptime_secs(ticks));
    law_shifted_time_of_day(a.boot_spec(), uptime_secs(ticks));
    law_shifted_time_of_day(utc, secs as int);
    if secs == 0 {
        assert(day_of(utc).plus(0) == day_of(utc));
        assert(shifted(utc, 0) == utc);
    }
}

} // verus!
