//! Latency and throughput counters, and their report.
use crate::text::{dec, push_dec, push_dec_padded, zero_padded};
use crate::time::{cycles_since, cycles_to_ns, ns_of};
use vstd::prelude::*;

verus! {

/// Buckets of a histogram.
pub const HIST_BUCKETS: usize = 17;

/// Lower edge of bucket `i` in nanoseconds; the last bucket is open-ended.
pub open spec fn bucket_lo(i: int) -> int {
    if i <= 0 {
        0
    } else if i == 1 {
        100
    } else if i == 2 {
        250
    } else if i == 3 {
        500
    } else if i == 4 {
        1_000
    } else if i == 5 {
        2_000
    } else if i == 6 {
        5_000
    } else if i == 7 {
        10_000
    } else if i == 8 {
        25_000
    } else if i == 9 {
        50_000
    } else if i == 10 {
        100_000
    } else if i == 11 {
        250_000
    } else if i == 12 {
        500_000
    } else if i == 13 {
        1_000_000
    } else if i == 14 {
        2_000_000
    } else if i == 15 {
        5_000_000
    } else {
        10_000_000
    }
}

/// Upper edge of bucket `i`.
pub open spec fn bucket_hi(i: int) -> int {
    if i + 1 < 17 {
        bucket_lo(i + 1) - 1
    } else {
        u64::MAX as int
    }
}

/// `ns` falls into bucket `i`.
pub open spec fn in_bucket(ns: int, i: int) -> bool {
    0 <= i < 17 && bucket_lo(i) <= ns && (i == 16 || ns < bucket_lo(i + 1))
}

fn edge(i: usize) -> (r: u64)
    requires
        i < 17,
    ensures
        r == bucket_lo(i as int),
{
    match i {
        0 => 0,
        1 => 100,
        2 => 250,
        3 => 500,
        4 => 1_000,
        5 => 2_000,
        6 => 5_000,
        7 => 10_000,
        8 => 25_000,
        9 => 50_000,
        10 => 100_000,
        11 => 250_000,
        12 => 500_000,
        13 => 1_000_000,
        14 => 2_000_000,
        15 => 5_000_000,
        _ => 10_000_000,
    }
}

fn upper_edge(i: usize) -> (r: u64)
    requires
        i < 17,
    ensures
        r == bucket_hi(i as int),
{
    if i + 1 < HIST_BUCKETS {
        edge(i + 1) - 1
    } else {
        u64::MAX
    }
}

/// A histogram of durations: samples per bucket, their number and their sum.
pub struct Hist {
    buckets: [u64; 17],
    count: u64,
    sum_ns: u64,
}

/// Samples in the first `n` buckets.
pub open spec fn total(b: Seq<u64>, n: int) -> int
    decreases n,
{
    if n <= 0 {
        0
    } else {
        total(b, n - 1) + b[n - 1]
    }
}

proof fn lemma_total_update(b: Seq<u64>, i: int, v: u64, n: int)
    requires
        0 <= i < b.len(),
        0 <= n <= b.len(),
    ensures
        total(b.update(i, v), n) == total(b, n) + if i < n {
            v - b[i]
        } else {
            0
        },
    decreases n,
{
    if n > 0 {
        lemma_total_update(b, i, v, n - 1);
    }
}

proof fn lemma_total_mono(b: Seq<u64>, a: int, n: int)
    requires
        0 <= a <= n <= b.len(),
    ensures
        0 <= total(b, a) <= total(b, n),
    decreases n,
{
    if n > 0 {
        if a == n {
            lemma_total_mono(b, a - 1, n - 1);
        } else {
            lemma_total_mono(b, a, n - 1);
        }
    }
}

/// What a histogram says: number of samples, smallest and average, the bound
/// under which 99 of 100 lie, and the largest. All but the average are bucket
/// edges.
#[derive(Clone, Copy, PartialEq, Eq, Debug, Structural)]
pub struct Summary {
    pub count: u64,
    pub min: u64,
    pub avg: u64,
    pub p99: u64,
    pub max: u64,
}

/// The rank of the 99th percentile.
pub open spec fn rank99(count: u64) -> int {
    let r = count - count / 100;
    if r < 1 {
        1
    } else {
        r
    }
}

impl Hist {
    pub closed spec fn view(&self) -> Seq<u64> {
        self.buckets@
    }

    pub closed spec fn count_spec(&self) -> u64 {
        self.count
    }

    pub closed spec fn sum_spec(&self) -> u64 {
        self.sum_ns
    }

    /// Every sample is in a bucket.
    pub closed spec fn wf(&self) -> bool {
        self.buckets@.len() == 17 && total(self.buckets@, 17) == self.count
    }

    /// No samples.
    pub fn new() -> (h: Hist)
        ensures
            h.wf(),
            h.count_spec() == 0,
            h.sum_spec() == 0,
            h@ == Seq::new(17, |i: int| 0u64),
    {
        let h = Hist { buckets: [0u64;17], count: 0, sum_ns: 0 };
        assert(h@ =~= Seq::new(17, |i: int| 0u64));
        proof {
            lemma_total_zero(h.buckets@, 17);
        }
        h
    }

    /// Count one duration in its bucket. The sum of durations wraps at 2^64.
    pub fn record(&mut self, ns: u64)
        requires
            old(self).wf(),
            old(self).count_spec() < u64::MAX,
        ensures
            final(self).wf(),
            final(self).count_spec() == old(self).count_spec() + 1,
            final(self).sum_spec() == (old(self).sum_spec() + ns) % 0x1_0000_0000_0000_0000,
            exists|i: int| #[trigger]
                in_bucket(ns as int, i) && final(self)@ == old(self)@.update(
                    i,
                    (old(self)@[i] + 1) as u64,
                ),
    {
        let mut i: usize = 0;
        while i + 1 < HIST_BUCKETS && ns >= edge(i + 1)
            invariant
                i < 17,
                bucket_lo(i as int) <= ns,
            ensures
                in_bucket(ns as int, i as int),
            decreases 17 - i,
        {
            i += 1;
        }
        proof {
            lemma_total_mono(self.buckets@, i as int, 17);
            lemma_total_mono(self.buckets@, i + 1, 17);
            lemma_total_mono(self.buckets@, 0, i as int);
            lemma_total_update(self.buckets@, i as int, (self.buckets@[i as int] + 1) as u64, 17);
        }
        let v = self.buckets[i];
        self.buckets[i] = v + 1;
        self.count = self.count + 1;
        self.sum_ns = self.sum_ns.wrapping_add(ns);
        assert(self@ =~= old(self)@.update(i as int, (old(self)@[i as int] + 1) as u64));
    }

    /// What the histogram says.
    pub fn summary(&self) -> (r: Summary)
        requires
            self.wf(),
        ensures
            r.count == self.count_spec(),
            self.count_spec() == 0 ==> r.min == 0 && r.avg == 0 && r.p99 == 0 && r.max == 0,
            self.count_spec() > 0 ==> summary_of(self@, self.count_spec(), self.sum_spec(), r),
    {
        let count = self.count;
        if count == 0 {
            return Summary { count: 0, min: 0, avg: 0, p99: 0, max: 0 };
        }
        let mut lo: usize = 0;
        while lo < 17 && self.buckets[lo] == 0
            invariant
                lo <= 17,
                self.wf(),
                forall|k: int| 0 <= k < lo ==> self.buckets@[k] == 0,
            decreases 17 - lo,
        {
            lo += 1;
        }
        proof {
            if lo == 17 {
                lemma_total_zero(self.buckets@, 17);
            }
        }
        let mut top: usize = 17;
        while top > 0 && self.buckets[top - 1] == 0
            invariant
                top <= 17,
                self.wf(),
                forall|k: int| top <= k < 17 ==> self.buckets@[k] == 0,
            decreases top,
        {
            top -= 1;
        }
        let hi = top - 1;
        let target = if count - count / 100 < 1 {
            1
        } else {
            count - count / 100
        };
        let mut cum: u64 = 0;
        let mut i: usize = 0;
        proof {
            lemma_total_mono(self.buckets@, 0, 17);
        }
        while i < 17
            invariant
                self.wf(),
                i <= 17,
                self.count == count > 0,
                target == rank99(count),
                cum == total(self.buckets@, i as int),
                cum < target,
                cum <= count,
                count == self.count_spec(),
                lo < 17,
                self.buckets@[lo as int] != 0,
                forall|k: int| 0 <= k < lo ==> self.buckets@[k] == 0,
                hi < 17,
                self.buckets@[hi as int] != 0,
                forall|k: int| hi < k < 17 ==> self.buckets@[k] == 0,
            decreases 17 - i,
        {
            proof {
                lemma_total_mono(self.buckets@, i + 1, 17);
            }
            cum = cum + self.buckets[i];
            if cum >= target {
                let r = Summary {
                    count,
                    min: edge(lo),
                    avg: self.sum_ns / count,
                    p99: upper_edge(i),
                    max: upper_edge(hi),
                };
                assert(first_used(self@, lo as int));
                assert(last_used(self@, hi as int));
                assert(percentile_at(self@, count, i as int));
                return r;
            }
            i += 1;
        }
        assert(false);
        Summary { count, min: 0, avg: 0, p99: 0, max: 0 }
    }
}

proof fn lemma_total_zero(b: Seq<u64>, n: int)
    requires
        0 <= n <= b.len(),
        forall|k: int| 0 <= k < n ==> b[k] == 0,
    ensures
        total(b, n) == 0,
    decreases n,
{
    if n > 0 {
        lemma_total_zero(b, n - 1);
    }
}

/// `i` is the first bucket with samples.
pub open spec fn first_used(b: Seq<u64>, i: int) -> bool {
    0 <= i < 17 && b[i] != 0 && forall|k: int| 0 <= k < i ==> b[k] == 0
}

/// `i` is the last bucket with samples.
pub open spec fn last_used(b: Seq<u64>, i: int) -> bool {
    0 <= i < 17 && b[i] != 0 && forall|k: int| i < k < 17 ==> b[k] == 0
}

/// `i` is the bucket in which the 99th-percentile sample lies.
pub open spec fn percentile_at(b: Seq<u64>, count: u64, i: int) -> bool {
    0 <= i < 17 && total(b, i) < rank99(count) <= total(b, i + 1)
}

/// `r` sums up the buckets `b`.
pub open spec fn summary_of(b: Seq<u64>, count: u64, sum: u64, r: Summary) -> bool {
    &&& r.count == count
    &&& r.avg == sum / count
    &&& exists|i: int| #[trigger] first_used(b, i) && r.min == bucket_lo(i)
    &&& exists|i: int| #[trigger] last_used(b, i) && r.max == bucket_hi(i)
    &&& exists|i: int| #[trigger] percentile_at(b, count, i) && r.p99 == bucket_hi(i)
}

/// The smallest is no larger than the 99th percentile, and that no larger than
/// the largest.
pub proof fn law_summary_is_ordered(b: Seq<u64>, count: u64, sum: u64, r: Summary)
    requires
        b.len() == 17,
        total(b, 17) == count,
        count > 0,
        summary_of(b, count, sum, r),
    ensures
        r.min <= r.p99 <= r.max,
{
    let lo = choose|i: int| #[trigger] first_used(b, i) && r.min == bucket_lo(i);
    let hi = choose|i: int| #[trigger] last_used(b, i) && r.max == bucket_hi(i);
    let p = choose|i: int| #[trigger] percentile_at(b, count, i) && r.p99 == bucket_hi(i);
    if p < lo {
        lemma_total_zero(b, p + 1);
    }
    if p > hi {
        lemma_total_tail(b, hi + 1, p);
        lemma_total_tail(b, hi + 1, 17);
        lemma_total_mono(b, p, 17);
    }
}

proof fn lemma_total_tail(b: Seq<u64>, a: int, n: int)
    requires
        0 <= a <= n <= b.len(),
        forall|k: int| a <= k < n ==> b[k] == 0,
    ensures
        total(b, n) == total(b, a),
    decreases n,
{
    if n > a {
        lemma_total_tail(b, a, n - 1);
    }
}

// ---------------------------------------------------------------------------
// The counters
// ---------------------------------------------------------------------------

/// Everything that is counted.
pub struct Perf {
    pub ctx_switches: u64,
    pub syscall_total: u64,
    /// Per syscall number, below 32.
    pub syscall_by_nr: [u64; 32],
    pub last_tick_tsc: u64,
    pub timer_late: Hist,
    pub timer_dur: Hist,
    pub kbd_dur: Hist,
    pub mouse_dur: Hist,
    pub syscall_dur: Hist,
}

impl Perf {
    pub open spec fn wf(&self) -> bool {
        &&& self.timer_late.wf()
        &&& self.timer_dur.wf()
        &&& self.kbd_dur.wf()
        &&& self.mouse_dur.wf()
        &&& self.syscall_dur.wf()
    }

    /// There is room for one more sample everywhere.
    pub open spec fn has_room(&self) -> bool {
        &&& self.timer_late.count_spec() < u64::MAX
        &&& self.timer_dur.count_spec() < u64::MAX
        &&& self.kbd_dur.count_spec() < u64::MAX
        &&& self.mouse_dur.count_spec() < u64::MAX
        &&& self.syscall_dur.count_spec() < u64::MAX
    }

    /// Nothing counted.
    pub fn new() -> (p: Perf)
        ensures
            p.wf(),
            p.has_room(),
            p.ctx_switches == 0,
            p.syscall_total == 0,
            p.last_tick_tsc == 0,
            p.syscall_by_nr@ == Seq::new(32, |i: int| 0u64),
            p.timer_late.count_spec() == 0,
            p.timer_late.sum_spec() == 0,
            p.timer_dur.count_spec() == 0,
            p.timer_dur.sum_spec() == 0,
            p.kbd_dur.count_spec() == 0,
            p.kbd_dur.sum_spec() == 0,
            p.mouse_dur.count_spec() == 0,
            p.mouse_dur.sum_spec() == 0,
            p.syscall_dur.count_spec() == 0,
            p.syscall_dur.sum_spec() == 0,
    {
        let p = Perf {
            ctx_switches: 0,
            syscall_total: 0,
            syscall_by_nr: [0u64;32],
            last_tick_tsc: 0,
            timer_late: Hist::new(),
            timer_dur: Hist::new(),
            kbd_dur: Hist::new(),
            mouse_dur: Hist::new(),
            syscall_dur: Hist::new(),
        };
        assert(p.syscall_by_nr@ =~= Seq::new(32, |i: int| 0u64));
        p
    }
}

/// One more, wrapping at 2^64.
pub open spec fn bump(n: u64) -> u64 {
    if n == u64::MAX {
        0
    } else {
        (n + 1) as u64
    }
}

/// A context switch happened.
pub fn ctx_switch(p: &mut Perf)
    ensures
        *final(p) == (Perf { ctx_switches: bump(old(p).ctx_switches), ..*old(p) }),
{
    p.ctx_switches = p.ctx_switches.wrapping_add(1);
}

/// A system call starts: count it and remember when.
pub fn syscall_enter(p: &mut Perf, nr: u64, tsc: u64) -> (r: u64)
    ensures
        r == tsc,
        final(p).syscall_total == bump(old(p).syscall_total),
        final(p).syscall_by_nr@ == if nr < 32 {
            old(p).syscall_by_nr@.update(nr as int, bump(old(p).syscall_by_nr@[nr as int]))
        } else {
            old(p).syscall_by_nr@
        },
        final(p).ctx_switches == old(p).ctx_switches,
        final(p).last_tick_tsc == old(p).last_tick_tsc,
        final(p).timer_late == old(p).timer_late,
        final(p).timer_dur == old(p).timer_dur,
        final(p).kbd_dur == old(p).kbd_dur,
        final(p).mouse_dur == old(p).mouse_dur,
        final(p).syscall_dur == old(p).syscall_dur,
{
    p.syscall_total = p.syscall_total.wrapping_add(1);
    if nr < 32 {
        let i = nr as usize;
        let v = p.syscall_by_nr[i];
        p.syscall_by_nr[i] = v.wrapping_add(1);
    }
    tsc
}

/// A histogram after a duration of `ns` was offered; zero is not counted.
pub open spec fn sampled(before: Hist, after: Hist, ns: int) -> bool {
    if ns > 0 {
        &&& after.count_spec() == before.count_spec() + 1
        &&& after.sum_spec() == (before.sum_spec() + ns) % 0x1_0000_0000_0000_0000
        &&& exists|i: int| #[trigger]
            in_bucket(ns, i) && after@ == before@.update(i, (before@[i] + 1) as u64)
    } else {
        after == before
    }
}

/// Cycles between two counter values as nanoseconds, 0 without a frequency.
pub open spec fn elapsed_ns(start: u64, end: u64, hz: u64) -> int {
    if hz == 0 {
        0
    } else {
        ns_of(cycles_since(end, start), hz as int)
    }
}

fn sample(h: &mut Hist, start: u64, end: u64, hz: u64)
    requires
        old(h).wf(),
        old(h).count_spec() < u64::MAX,
    ensures
        final(h).wf(),
        sampled(*old(h), *final(h), elapsed_ns(start, end, hz)),
{
    let ns = cycles_to_ns(end.wrapping_sub(start), hz);
    if ns > 0 {
        h.record(ns);
    }
}

/// A system call ends.
pub fn syscall_exit(p: &mut Perf, start_tsc: u64, tsc: u64, hz: u64)
    requires
        old(p).wf(),
        old(p).has_room(),
    ensures
        final(p).wf(),
        sampled(old(p).syscall_dur, final(p).syscall_dur, elapsed_ns(start_tsc, tsc, hz)),
        *final(p) == (Perf { syscall_dur: final(p).syscall_dur, ..*old(p) }),
{
    sample(&mut p.syscall_dur, start_tsc, tsc, hz);
}

/// How late a tick is: cycles after the previous one plus a millisecond.
pub open spec fn lateness(last: u64, now: u64, hz: u64) -> int {
    let expected = last + hz / 1000;
    if now > expected {
        now - expected
    } else {
        0
    }
}

/// A timer interrupt starts: measure how late it is, from the second one on.
pub fn irq_timer_enter(p: &mut Perf, now: u64, hz: u64) -> (r: u64)
    requires
        old(p).wf(),
        old(p).has_room(),
        old(p).last_tick_tsc + hz / 1000 <= u64::MAX,
    ensures
        r == now,
        final(p).wf(),
        final(p).last_tick_tsc == now,
        *final(p) == (Perf { last_tick_tsc: now, timer_late: final(p).timer_late, ..*old(p) }),
        old(p).last_tick_tsc == 0 ==> final(p).timer_late == old(p).timer_late,
        old(p).last_tick_tsc != 0 ==> sampled(
            old(p).timer_late,
            final(p).timer_late,
            if hz == 0 { 0 } else {
                ns_of(lateness(old(p).last_tick_tsc, now, hz), hz as int)
            },
        ),
{
    let last = p.last_tick_tsc;
    p.last_tick_tsc = now;
    if last != 0 {
        let expected = last + hz / 1000;
        let late = if now > expected {
            now - expected
        } else {
            0
        };
        let ns = cycles_to_ns(late, hz);
        if ns > 0 {
            p.timer_late.record(ns);
        }
    }
    now
}

/// A timer interrupt was served.
pub fn irq_timer_exit(p: &mut Perf, start_tsc: u64, tsc: u64, hz: u64)
    requires
        old(p).wf(),
        old(p).has_room(),
    ensures
        final(p).wf(),
        sampled(old(p).timer_dur, final(p).timer_dur, elapsed_ns(start_tsc, tsc, hz)),
        *final(p) == (Perf { timer_dur: final(p).timer_dur, ..*old(p) }),
{
    sample(&mut p.timer_dur, start_tsc, tsc, hz);
}

/// A keyboard interrupt starts.
pub fn irq_kbd_enter(tsc: u64) -> (r: u64)
    ensures
        r == tsc,
{
    tsc
}

/// A keyboard interrupt was served.
pub fn irq_kbd_exit(p: &mut Perf, start_tsc: u64, tsc: u64, hz: u64)
    requires
        old(p).wf(),
        old(p).has_room(),
    ensures
        final(p).wf(),
        sampled(old(p).kbd_dur, final(p).kbd_dur, elapsed_ns(start_tsc, tsc, hz)),
        *final(p) == (Perf { kbd_dur: final(p).kbd_dur, ..*old(p) }),
{
    sample(&mut p.kbd_dur, start_tsc, tsc, hz);
}

/// A mouse interrupt starts.
pub fn irq_mouse_enter(tsc: u64) -> (r: u64)
    ensures
        r == tsc,
{
    tsc
}

/// A mouse interrupt was served.
pub fn irq_mouse_exit(p: &mut Perf, start_tsc: u64, tsc: u64, hz: u64)
    requires
        old(p).wf(),
        old(p).has_room(),
    ensures
        final(p).wf(),
        sampled(old(p).mouse_dur, final(p).mouse_dur, elapsed_ns(start_tsc, tsc, hz)),
        *final(p) == (Perf { mouse_dur: final(p).mouse_dur, ..*old(p) }),
{
    sample(&mut p.mouse_dur, start_tsc, tsc, hz);
}

// ---------------------------------------------------------------------------
// The report
// ---------------------------------------------------------------------------

/// A duration in a compact unit: `850ns`, `12.40us`, `3.20ms`.
pub open spec fn ns_text(ns: u64) -> Seq<char> {
    if ns >= 1_000_000 {
        dec((ns / 1_000_000) as nat) + "."@ + zero_padded(dec((ns % 1_000_000 / 10_000) as nat), 2)
            + "ms"@
    } else if ns >= 1_000 {
        dec((ns / 1_000) as nat) + "."@ + zero_padded(dec((ns % 1_000 / 10) as nat), 2) + "us"@
    } else {
        dec(ns as nat) + "ns"@
    }
}

/// An edge: the open end reads as `>10ms`.
pub open spec fn edge_text(ns: u64) -> Seq<char> {
    if ns == u64::MAX {
        ">10ms"@
    } else {
        ns_text(ns)
    }
}

/// A histogram's line.
pub open spec fn hist_text(name: Seq<char>, r: Summary) -> Seq<char> {
    if r.count == 0 {
        "[perf] "@ + name + ": n=0"@
    } else {
        "[perf] "@ + name + ": n="@ + dec(r.count as nat) + " min="@ + ns_text(r.min) + " avg="@
            + ns_text(r.avg) + " p99="@ + edge_text(r.p99) + " max="@ + edge_text(r.max)
    }
}

fn push_ns(s: &mut String, ns: u64)
    ensures
        final(s)@ == old(s)@ + ns_text(ns),
{
    if ns >= 1_000_000 {
        push_dec(s, ns / 1_000_000);
        s.append(".");
        push_dec_padded(s, ns % 1_000_000 / 10_000, 2);
        s.append("ms");
    } else if ns >= 1_000 {
        push_dec(s, ns / 1_000);
        s.append(".");
        push_dec_padded(s, ns % 1_000 / 10, 2);
        s.append("us");
    } else {
        push_dec(s, ns);
        s.append("ns");
    }
    assert(s@ =~= old(s)@ + ns_text(ns));
}

/// A duration in a compact unit.
pub fn fmt_ns(ns: u64) -> (r: String)
    ensures
        r@ == ns_text(ns),
{
    let mut s = String::new();
    push_ns(&mut s, ns);
    assert(s@ =~= ns_text(ns));
    s
}

fn push_edge(s: &mut String, ns: u64)
    ensures
        final(s)@ == old(s)@ + edge_text(ns),
{
    if ns == u64::MAX {
        s.append(">10ms");
    } else {
        push_ns(s, ns);
    }
}

/// A histogram's line from its summary.
pub fn fmt_hist(name: &str, r: Summary) -> (t: String)
    ensures
        t@ == hist_text(name@, r),
{
    let mut s = String::from_str("[perf] ");
    s.append(name);
    if r.count == 0 {
        s.append(": n=0");
        return s;
    }
    s.append(": n=");
    push_dec(&mut s, r.count);
    s.append(" min=");
    push_ns(&mut s, r.min);
    s.append(" avg=");
    push_ns(&mut s, r.avg);
    s.append(" p99=");
    push_edge(&mut s, r.p99);
    s.append(" max=");
    push_edge(&mut s, r.max);
    s
}

/// The name of a syscall in the report.
pub open spec fn nr_text(nr: int) -> Seq<char> {
    if nr == 0 {
        "write"@
    } else if nr == 1 {
        "exit"@
    } else if nr == 2 {
        "open"@
    } else if nr == 3 {
        "read"@
    } else if nr == 4 {
        "close"@
    } else if nr == 5 {
        "ls"@
    } else if nr == 6 {
        "mkdir"@
    } else if nr == 7 {
        "spawn"@
    } else if nr == 8 {
        "_gettime"@
    } else if nr == 9 {
        "getpid"@
    } else if nr == 10 {
        "sleep"@
    } else if nr == 11 {
        "yield"@
    } else if nr == 12 {
        "lspci"@
    } else if nr == 13 {
        "flush"@
    } else if nr == 14 {
        "waitpid"@
    } else if nr == 15 {
        "kill"@
    } else if nr == 16 {
        "input"@
    } else if nr == 17 {
        "perf"@
    } else {
        "?"@
    }
}

fn nr_name(nr: usize) -> (r: &'static str)
    ensures
        r@ == nr_text(nr as int),
{
    match nr {
        0 => "write",
        1 => "exit",
        2 => "open",
        3 => "read",
        4 => "close",
        5 => "ls",
        6 => "mkdir",
        7 => "spawn",
        8 => "_gettime",
        9 => "getpid",
        10 => "sleep",
        11 => "yield",
        12 => "lspci",
        13 => "flush",
        14 => "waitpid",
        15 => "kill",
        16 => "input",
        17 => "perf",
        _ => "?",
    }
}

/// Number `a` is busier than number `b`: more calls, or as many and lower.
pub open spec fn busier(c: Seq<u64>, a: int, b: int) -> bool {
    c[a] > c[b] || (c[a] == c[b] && a < b)
}

/// `t` holds the busiest of the first `n` numbers, busiest first, at most three
/// and only those that were called.
pub open spec fn busiest(c: Seq<u64>, n: int, t: Seq<usize>) -> bool {
    &&& t.len() <= 3
    &&& forall|i: int| 0 <= i < t.len() ==> 0 <= #[trigger] t[i] < n && c[t[i] as int] > 0
    &&& forall|i: int, j: int|
        0 <= i < j < t.len() ==> busier(c, #[trigger] t[i] as int, #[trigger] t[j] as int)
    &&& forall|k: int|
        0 <= k < n && #[trigger] c[k] > 0 && !t.contains(k as usize) ==> t.len() == 3 && busier(
            c,
            t[2] as int,
            k,
        )
}

/// The three busiest syscall numbers, busiest first.
pub fn top_three(c: &[u64; 32]) -> (t: Vec<usize>)
    ensures
        busiest(c@, 32, t@),
{
    let mut t: Vec<usize> = Vec::new();
    let mut n: usize = 0;
    while n < 32
        invariant
            n <= 32,
            busiest(c@, n as int, t@),
        decreases 32 - n,
    {
        let cnt = c[n];
        let ghost t0 = t@;
        if cnt > 0 {
            let mut at: usize = 0;
            while at < t.len() && c[t[at]] >= cnt
                invariant
                    n < 32,
                    at <= t@.len() <= 3,
                    cnt == c@[n as int],
                    busiest(c@, n as int, t@),
                    forall|i: int| 0 <= i < at ==> c@[#[trigger] t@[i] as int] >= cnt,
                decreases t@.len() - at,
            {
                at += 1;
            }
            if at < 3 {
                t.insert(at, n);
                let ghost t1 = t@;
                if t.len() > 3 {
                    t.pop();
                }
                proof {
                    lemma_insert_keeps(c@, n as int, t0, at as int, t1, t@);
                }
            } else {
                assert(busiest(c@, n + 1, t@)) by {
                    assert forall|k: int| 0 <= k < n + 1 && #[trigger] c@[k] > 0 && !t@.contains(k as usize)
                        implies t@.len() == 3 && busier(c@, t@[2] as int, k) by {
                        if k == n {
                            assert(c@[t@[2] as int] >= cnt);
                        }
                    }
                }
            }
        }
        n += 1;
    }
    t
}

proof fn lemma_insert_keeps(
    c: Seq<u64>,
    n: int,
    t0: Seq<usize>,
    at: int,
    t1: Seq<usize>,
    t2: Seq<usize>,
)
    requires
        c.len() == 32,
        0 <= n < 32,
        busiest(c, n, t0),
        c[n] > 0,
        0 <= at <= t0.len(),
        at < 3,
        forall|i: int| 0 <= i < at ==> c[#[trigger] t0[i] as int] >= c[n],
        at < t0.len() ==> c[t0[at] as int] < c[n],
        t1 == t0.insert(at, n as usize),
        t2 == if t1.len() > 3 {
            t1.drop_last()
        } else {
            t1
        },
    ensures
        busiest(c, n + 1, t2),
{
    assert forall|i: int| 0 <= i < t1.len() implies #[trigger] t1[i] == if i < at {
        t0[i]
    } else if i == at {
        n as usize
    } else {
        t0[i - 1]
    } by {}
    assert forall|i: int, j: int| 0 <= i < j < t1.len() implies busier(
        c,
        #[trigger] t1[i] as int,
        #[trigger] t1[j] as int,
    ) by {
        if j < at {
            assert(busier(c, t0[i] as int, t0[j] as int));
        } else if j == at {
            assert(c[t0[i] as int] >= c[n]);
        } else if i == at {
            if j - 1 > at {
                assert(busier(c, t0[at] as int, t0[j - 1] as int));
            }
        } else if i < at {
            assert(busier(c, t0[i] as int, t0[j - 1] as int));
        } else {
            assert(busier(c, t0[i - 1] as int, t0[j - 1] as int));
        }
    }
    assert forall|i: int, j: int| 0 <= i < j < t2.len() implies busier(
        c,
        #[trigger] t2[i] as int,
        #[trigger] t2[j] as int,
    ) by {
        assert(t2[i] == t1[i] && t2[j] == t1[j]);
    }
    assert forall|i: int| 0 <= i < t2.len() implies 0 <= #[trigger] t2[i] < n + 1 && c[t2[i] as int]
        > 0 by {
        assert(t2[i] == t1[i]);
    }
    assert forall|k: int| 0 <= k < n + 1 && #[trigger] c[k] > 0 && !t2.contains(k as usize) implies t2.len()
        == 3 && busier(c, t2[2] as int, k) by {
        if k == n {
            assert(t2[at] == n as usize);
        } else if t0.contains(k as usize) {
            let i = choose|i: int| 0 <= i < t0.len() && t0[i] == k as usize;
            let i1 = if i < at {
                i
            } else {
                i + 1
            };
            assert(t1[i1] == k as usize);
            if i1 < t2.len() {
                assert(t2[i1] == k as usize);
            }
            assert(i1 == 3 && t2.len() == 3);
            assert(busier(c, t1[2] as int, t1[3] as int));
            assert(t2[2] == t1[2]);
        } else {
            assert(c[k] > 0);
            assert(t0.len() == 3 && busier(c, t0[2] as int, k));
            assert(t1.len() == 4);
            assert(busier(c, t1[2] as int, t1[3] as int));
            assert(t1[3] == t0[2]);
            assert(t2[2] == t1[2]);
        }
    }
}

/// The busiest numbers with their counts, from the `k`-th on.
pub open spec fn top_text(c: Seq<u64>, t: Seq<usize>, n: int) -> Seq<char>
    decreases n,
{
    if n <= 0 {
        Seq::empty()
    } else {
        top_text(c, t, n - 1) + " "@ + nr_text(t[n - 1] as int) + "="@ + dec(
            c[t[n - 1] as int] as nat,
        )
    }
}

/// The rest of the machine's numbers that the report shows.
pub struct Machine {
    pub ms: u64,
    pub tsc_hz: u64,
    pub cache_hits: u64,
    pub cache_misses: u64,
    pub heap_used: u64,
    pub heap_free: u64,
    /// Frames used, total, freed, and failed allocations.
    pub frames: Option<(u64, u64, u64, u64)>,
}

/// The sums and products of the report fit in 64 bits.
pub open spec fn reportable(p: &Perf, m: &Machine) -> bool {
    &&& p.ctx_switches * 1000 <= u64::MAX
    &&& m.cache_hits * 100 <= u64::MAX
    &&& m.cache_hits + m.cache_misses <= u64::MAX
    &&& m.heap_used + m.heap_free <= u64::MAX
    &&& m.frames matches Some(f) ==> f.0 <= f.1
}

/// The first line: uptime, clock and context switches.
pub open spec fn uptime_text(p: &Perf, m: &Machine) -> Seq<char> {
    let up = if m.ms < 1 {
        1
    } else {
        m.ms as int
    };
    "[perf] uptime "@ + dec(up as nat) + " ms | tsc "@ + dec(m.tsc_hz as nat)
        + " Hz | ctx switches "@ + dec(p.ctx_switches as nat) + " ("@ + dec(
        (p.ctx_switches * 1000 / up) as nat,
    ) + " /s)"@
}

/// The cache line.
pub open spec fn cache_text(m: &Machine) -> Seq<char> {
    let lookups = m.cache_hits + m.cache_misses;
    "[perf] blk cache: hits="@ + dec(m.cache_hits as nat) + " misses="@ + dec(
        m.cache_misses as nat,
    ) + " ("@ + dec(
        (if lookups > 0 {
            m.cache_hits * 100 / lookups
        } else {
            0
        }) as nat,
    ) + "% hit)"@
}

/// The heap line.
pub open spec fn heap_text(m: &Machine) -> Seq<char> {
    "[perf] heap: used "@ + dec((m.heap_used / 1024) as nat) + " KiB / free "@ + dec(
        (m.heap_free / 1024) as nat,
    ) + " KiB / total "@ + dec(((m.heap_used + m.heap_free) / 1024) as nat) + " KiB"@
}

/// The frame line.
pub open spec fn frames_text(f: (u64, u64, u64, u64)) -> Seq<char> {
    "[perf] frames: used "@ + dec(f.0 as nat) + " / free "@ + dec((f.1 - f.0) as nat)
        + " / total "@ + dec(f.1 as nat) + " (4 KiB) | freed "@ + dec(f.2 as nat) + " oom "@ + dec(
        f.3 as nat,
    )
}

fn uptime_line(p: &Perf, m: &Machine) -> (r: String)
    requires
        reportable(p, m),
    ensures
        r@ == uptime_text(p, m),
{
    let up = if m.ms < 1 {
        1
    } else {
        m.ms
    };
    let mut s = String::from_str("[perf] uptime ");
    push_dec(&mut s, up);
    s.append(" ms | tsc ");
    push_dec(&mut s, m.tsc_hz);
    s.append(" Hz | ctx switches ");
    push_dec(&mut s, p.ctx_switches);
    s.append(" (");
    push_dec(&mut s, p.ctx_switches * 1000 / up);
    s.append(" /s)");
    s
}

fn cache_line(m: &Machine) -> (r: String)
    requires
        m.cache_hits * 100 <= u64::MAX,
        m.cache_hits + m.cache_misses <= u64::MAX,
    ensures
        r@ == cache_text(m),
{
    let lookups = m.cache_hits + m.cache_misses;
    let pct = if lookups > 0 {
        m.cache_hits * 100 / lookups
    } else {
        0
    };
    let mut s = String::from_str("[perf] blk cache: hits=");
    push_dec(&mut s, m.cache_hits);
    s.append(" misses=");
    push_dec(&mut s, m.cache_misses);
    s.append(" (");
    push_dec(&mut s, pct);
    s.append("% hit)");
    s
}

fn heap_line(m: &Machine) -> (r: String)
    requires
        m.heap_used + m.heap_free <= u64::MAX,
    ensures
        r@ == heap_text(m),
{
    let mut s = String::from_str("[perf] heap: used ");
    push_dec(&mut s, m.heap_used / 1024);
    s.append(" KiB / free ");
    push_dec(&mut s, m.heap_free / 1024);
    s.append(" KiB / total ");
    push_dec(&mut s, (m.heap_used + m.heap_free) / 1024);
    s.append(" KiB");
    s
}

fn frames_line(f: (u64, u64, u64, u64)) -> (r: String)
    requires
        f.0 <= f.1,
    ensures
        r@ == frames_text(f),
{
    let mut s = String::from_str("[perf] frames: used ");
    push_dec(&mut s, f.0);
    s.append(" / free ");
    push_dec(&mut s, f.1 - f.0);
    s.append(" / total ");
    push_dec(&mut s, f.1);
    s.append(" (4 KiB) | freed ");
    push_dec(&mut s, f.2);
    s.append(" oom ");
    push_dec(&mut s, f.3);
    s
}

fn syscalls_line(p: &Perf) -> (r: String)
    ensures
        exists|t: Seq<usize>| #[trigger]
            busiest(p.syscall_by_nr@, 32, t) && r@ == "[perf] syscalls: "@ + dec(
                p.syscall_total as nat,
            ) + " total | top:"@ + top_text(p.syscall_by_nr@, t, t.len() as int),
{
    let t = top_three(&p.syscall_by_nr);
    let mut s = String::from_str("[perf] syscalls: ");
    push_dec(&mut s, p.syscall_total);
    s.append(" total | top:");
    let ghost head = s@;
    let mut i: usize = 0;
    assert(s@ =~= head + top_text(p.syscall_by_nr@, t@, 0));
    while i < t.len()
        invariant
            i <= t@.len(),
            busiest(p.syscall_by_nr@, 32, t@),
            s@ == head + top_text(p.syscall_by_nr@, t@, i as int),
        decreases t@.len() - i,
    {
        s.append(" ");
        let nr = t[i];
        s.append(nr_name(nr));
        s.append("=");
        push_dec(&mut s, p.syscall_by_nr[nr]);
        i += 1;
        assert(s@ =~= head + top_text(p.syscall_by_nr@, t@, i as int));
    }
    s
}

/// `line` reports the histogram `h` under `name`.
pub open spec fn hist_line(h: Hist, name: Seq<char>, line: Seq<char>) -> bool {
    if h.count_spec() == 0 {
        line == "[perf] "@ + name + ": n=0"@
    } else {
        exists|r: Summary| #[trigger]
            summary_of(h@, h.count_spec(), h.sum_spec(), r) && line == hist_text(name, r)
    }
}

/// The whole report, one line after the other.
pub open spec fn is_report(p: &Perf, m: &Machine, v: Seq<String>) -> bool {
    &&& v.len() == if m.frames is Some {
        10int
    } else {
        9
    }
    &&& v[0]@ == uptime_text(p, m)
    &&& exists|t: Seq<usize>| #[trigger]
        busiest(p.syscall_by_nr@, 32, t) && v[1]@ == "[perf] syscalls: "@ + dec(
            p.syscall_total as nat,
        ) + " total | top:"@ + top_text(p.syscall_by_nr@, t, t.len() as int)
    &&& hist_line(p.syscall_dur, "syscall dur"@, v[2]@)
    &&& hist_line(p.timer_late, "timer late (1ms sched)"@, v[3]@)
    &&& hist_line(p.timer_dur, "timer irq cost"@, v[4]@)
    &&& hist_line(p.kbd_dur, "kbd irq cost"@, v[5]@)
    &&& hist_line(p.mouse_dur, "mouse irq cost"@, v[6]@)
    &&& v[7]@ == cache_text(m)
    &&& v[8]@ == heap_text(m)
    &&& m.frames matches Some(f) ==> v[9]@ == frames_text(f)
}

fn report_hist(name: &str, h: &Hist) -> (r: String)
    requires
        h.wf(),
    ensures
        hist_line(*h, name@, r@),
{
    let s = h.summary();
    let t = fmt_hist(name, s);
    t
}

/// Render the report.
pub fn render_lines(p: &Perf, m: &Machine) -> (v: Vec<String>)
    requires
        p.wf(),
        reportable(p, m),
    ensures
        is_report(p, m, v@),
{
    let mut v: Vec<String> = Vec::new();
    v.push(uptime_line(p, m));
    v.push(syscalls_line(p));
    v.push(report_hist("syscall dur", &p.syscall_dur));
    v.push(report_hist("timer late (1ms sched)", &p.timer_late));
    v.push(report_hist("timer irq cost", &p.timer_dur));
    v.push(report_hist("kbd irq cost", &p.kbd_dur));
    v.push(report_hist("mouse irq cost", &p.mouse_dur));
    v.push(cache_line(m));
    v.push(heap_line(m));
    match m.frames {
        Some(f) => {
            v.push(frames_line(f));
        },
        None => {},
    }
    v
}

} // verus!
