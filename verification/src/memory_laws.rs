//! What the memory map and the page tables mean, and what the page that starts a processor
//! holds.
use vstd::prelude::*;

use crate::bytes::{le16_bytes, le32_bytes, le64_bytes, splice};
use crate::disk_laws::{law_numbers, number_at};
use crate::memory::{
    entry_flags, frame_up, fresh_frame, table_index, usable_frames, walk, MemoryRegion,
};
use crate::perf::{
    bucket_hi, bucket_lo, first_used, in_bucket, lateness, percentile_at, rank99, summary_of, total,
    Summary,
};
use crate::smp::{ap_plan, bare_page, others, start_page, PerCpu};

verus! {

/// Whether the frame at `a` is a whole frame of a usable region, at or above `bump`.
pub open spec fn frame_of(r: MemoryRegion, bump: int, a: int) -> bool {
    r.usable && a % 4096 == 0 && bump <= a && r.start <= a && a + 4096 <= r.end
}

/// A fresh frame is a whole frame of a usable region. It is the lowest of its region that was
/// not given out, and no region before has one. There is none only where no region has.
#[verifier::spinoff_prover]
#[verifier::rlimit(60)]
pub proof fn law_fresh_frames(regions: Seq<MemoryRegion>, k: int, bump: int, j: int, a: int)
    requires
        0 <= k <= j < regions.len(),
        0 <= bump,
        bump % 4096 == 0,
        forall|i: int| 0 <= i < regions.len() ==> (#[trigger] regions[i]).wf(),
    ensures
        fresh_frame(regions, k, bump) matches Some(f) ==> exists|i: int|
            #![trigger regions[i]]
            k <= i < regions.len() && frame_of(regions[i], bump, f as int),
        frame_of(regions[j], bump, a) ==> {
            &&& fresh_frame(regions, k, bump) is Some
            &&& exists|i: int|
                #![trigger regions[i]]
                k <= i <= j && frame_of(regions[i], bump, fresh_frame(regions, k, bump)->0 as int) && (i == j
                    ==> fresh_frame(regions, k, bump)->0 <= a)
        },
    decreases regions.len() - k,
{
    let lo = frame_up(regions[k].start as int);
    let cand = if lo >= bump { lo } else { bump };
    assert(lo % 4096 == 0 && regions[k].start <= lo < regions[k].start + 4096);
    if regions[k].usable && cand + 4096 <= regions[k].end {
        assert(frame_of(regions[k], bump, cand));
        assert(fresh_frame(regions, k, bump) == Some(cand as u64));
        if j == k && frame_of(regions[j], bump, a) {
            assert(lo <= a);
        }
    } else {
        assert(!frame_of(regions[k], bump, a)) by {
            if frame_of(regions[k], bump, a) {
                assert(lo <= a);
            }
        }
        if j > k {
            law_fresh_frames(regions, k + 1, bump, j, a);
        } else if k + 1 < regions.len() {
            law_fresh_frames(regions, k + 1, bump, k + 1, a);
        }
    }
}

/// The frames that are counted are the whole ones that fit into each usable region.
pub proof fn law_counted_frames(regions: Seq<MemoryRegion>, k: int)
    requires
        0 <= k < regions.len(),
        regions[k].wf(),
    ensures
        usable_frames(regions, 0) == 0,
        !regions[k].usable ==> usable_frames(regions, k + 1) == usable_frames(regions, k),
        regions[k].usable ==> {
            let n = usable_frames(regions, k + 1) - usable_frames(regions, k);
            4096 * n <= regions[k].end - regions[k].start < 4096 * (n + 1)
        },
{
}

/// An address is taken apart into four numbers of nine bits, one for each level, and the place
/// in its page.
#[verifier::spinoff_prover]
#[verifier::rlimit(60)]
pub proof fn law_address_parts(vaddr: u64)
    ensures
        vaddr as int % 0x1_0000_0000_0000 == 0x80_0000_0000 * table_index(vaddr, 4) + 0x4000_0000 * table_index(
            vaddr,
            3,
        ) + 0x20_0000 * table_index(vaddr, 2) + 0x1000 * table_index(vaddr, 1) + vaddr as int % 0x1000,
        forall|l: int| 1 <= l <= 4 ==> 0 <= #[trigger] table_index(vaddr, l) < 512,
{
    let v = vaddr as int;
    let a = v / 4096;
    let b = v / 0x20_0000;
    let c = v / 0x4000_0000;
    let d = v / 0x80_0000_0000;
    assert(b == a / 512);
    assert(c == b / 512);
    assert(d == c / 512);
    assert(v / 0x1_0000_0000_0000 == d / 512);
    assert(v == 4096 * a + v % 4096);
    assert(a == 512 * b + a % 512);
    assert(b == 512 * c + b % 512);
    assert(c == 512 * d + c % 512);
    assert(d == 512 * (d / 512) + d % 512);
    assert(v == 0x1_0000_0000_0000 * (d / 512) + v % 0x1_0000_0000_0000);
}

/// The walk of an address reads one entry of eight bytes at each level. Bit 0 says that the
/// entry is there; bit 7 that it maps a large page, which the walk does not follow; bits 12 to
/// 51 are where the next table lies. What the last entry holds besides is the page's flags.
#[verifier::spinoff_prover]
#[verifier::rlimit(60)]
pub proof fn law_page_walk(mem: Seq<u64>, table: int, vaddr: u64, level: int)
    requires
        1 <= level <= 4,
        0 <= table,
        table % 8 == 0,
    ensures
        ({
            let k = (table + 8 * table_index(vaddr, level)) / 8;
            let e = mem[k] as int;
            &&& k >= mem.len() ==> walk(mem, table, vaddr, level) is None
            &&& k < mem.len() && e % 2 == 0 ==> walk(mem, table, vaddr, level) is None
            &&& k < mem.len() && e % 2 == 1 && level > 1 && e / 128 % 2 == 1 ==> walk(mem, table, vaddr, level)
                is None
            &&& k < mem.len() && e % 2 == 1 && level > 1 && e / 128 % 2 == 0 ==> walk(mem, table, vaddr, level)
                == walk(mem, 4096 * (e / 4096 % 0x100_0000_0000), vaddr, level - 1)
            &&& k < mem.len() && e % 2 == 1 && level == 1 ==> walk(mem, table, vaddr, level) is Some && walk(
                mem,
                table,
                vaddr,
                level,
            )->0 + 4096 * (e / 4096 % 0x100_0000_0000) == e
        }),
{
    let k = table / 8 + table_index(vaddr, level);
    assert((table + 8 * table_index(vaddr, level)) / 8 == k);
    reveal_with_fuel(walk, 2);
    let e = mem[k];
    assert(0 <= entry_flags(e) <= e) by {
        let q = e as int / 4096;
        assert(0 <= q % 0x100_0000_0000 <= q);
        assert(4096 * q <= e);
    }
}

/// Every duration falls into exactly one bucket; the first starts at nought, the last at ten
/// milliseconds and has no end.
pub proof fn law_buckets(ns: u64, i: int, j: int)
    ensures
        in_bucket(ns as int, i) && in_bucket(ns as int, j) ==> i == j,
        exists|k: int| #[trigger] in_bucket(ns as int, k),
        bucket_lo(0) == 0,
        in_bucket(ns as int, 16) <==> ns >= 10_000_000,
        0 <= i < 16 ==> bucket_lo(i) < bucket_lo(i + 1) && bucket_hi(i) + 1 == bucket_lo(i + 1),
        1 <= i < 16 ==> 2 * bucket_lo(i) <= bucket_lo(i + 1) && 2 * bucket_lo(i + 1) <= 5 * bucket_lo(i),
{
    let n = ns as int;
    if n < 100 {
        assert(in_bucket(n, 0));
    } else if n < 250 {
        assert(in_bucket(n, 1));
    } else if n < 500 {
        assert(in_bucket(n, 2));
    } else if n < 1_000 {
        assert(in_bucket(n, 3));
    } else if n < 2_000 {
        assert(in_bucket(n, 4));
    } else if n < 5_000 {
        assert(in_bucket(n, 5));
    } else if n < 10_000 {
        assert(in_bucket(n, 6));
    } else if n < 25_000 {
        assert(in_bucket(n, 7));
    } else if n < 50_000 {
        assert(in_bucket(n, 8));
    } else if n < 100_000 {
        assert(in_bucket(n, 9));
    } else if n < 250_000 {
        assert(in_bucket(n, 10));
    } else if n < 500_000 {
        assert(in_bucket(n, 11));
    } else if n < 1_000_000 {
        assert(in_bucket(n, 12));
    } else if n < 2_000_000 {
        assert(in_bucket(n, 13));
    } else if n < 5_000_000 {
        assert(in_bucket(n, 14));
    } else if n < 10_000_000 {
        assert(in_bucket(n, 15));
    } else {
        assert(in_bucket(n, 16));
    }
}

/// The rank that is reported is the lowest below or at which ninety-nine in a hundred samples
/// lie.
pub proof fn law_rank(count: u64)
    requires
        count > 0,
    ensures
        1 <= rank99(count) <= count,
        100 * rank99(count) >= 99 * count,
        100 * (rank99(count) - 1) < 99 * count,
{
}

/// The reported percentile is the upper edge of a bucket at or below which ninety-nine in a
/// hundred samples lie, and below which fewer do; the average is the sum over the count.
pub proof fn law_percentile(b: Seq<u64>, count: u64, sum: u64, r: Summary)
    requires
        count > 0,
        summary_of(b, count, sum, r),
    ensures
        exists|i: int|
            0 <= i < 17 && r.p99 == #[trigger] bucket_hi(i) && 100 * total(b, i + 1) >= 99 * count && 100 * total(b, i)
                < 99 * count,
        r.avg * count <= sum < (r.avg + 1) * count,
        exists|i: int|
            0 <= i < 17 && #[trigger] b[i] != 0 && r.min == bucket_lo(i) && forall|k: int|
                0 <= k < i ==> #[trigger] b[k] == 0,
{
    law_rank(count);
    let i = choose|i: int| #[trigger] percentile_at(b, count, i) && r.p99 == bucket_hi(i);
    assert(r.p99 == bucket_hi(i));
    let f = choose|f: int| #[trigger] first_used(b, f) && r.min == bucket_lo(f);
    assert(b[f] != 0);
    let q = sum as int / count as int;
    vstd::arithmetic::div_mod::lemma_fundamental_div_mod(sum as int, count as int);
    assert(q * count <= sum < (q + 1) * count) by (nonlinear_arith)
        requires
            sum == count as int * q + sum as int % count as int,
            0 <= sum as int % (count as int) < count,
    ;
}

/// A tick is late by what it came after the last one, more than a thousandth of a second.
pub proof fn law_lateness(last: u64, now: u64, hz: u64)
    ensures
        lateness(last, now, hz) >= 0,
        now >= last + hz / 1000 ==> last + hz / 1000 + lateness(last, now, hz) == now,
        now <= last + hz / 1000 ==> lateness(last, now, hz) == 0,
{
}

pub(crate) proof fn lemma_patched(p: Seq<u8>, at: int, q: Seq<u8>, to: int, n: int)
    requires
        0 <= at,
        at + n <= p.len(),
        0 <= to,
        to + q.len() <= p.len(),
        at + n <= to || to + q.len() <= at,
        0 <= n,
    ensures
        number_at(splice(p, to, q), at, n) == number_at(p, at, n),
    decreases n,
{
    if n > 0 {
        lemma_patched(p, at + 1, q, to, n - 1);
    }
}

pub(crate) proof fn lemma_put(p: Seq<u8>, at: int, v: int)
    requires
        0 <= at,
        at + 8 <= p.len(),
    ensures
        0 <= v < 0x1_0000 ==> number_at(splice(p, at, le16_bytes(v)), at, 2) == v,
        0 <= v < 0x1_0000_0000 ==> number_at(splice(p, at, le32_bytes(v)), at, 4) == v,
        0 <= v < 0x1_0000_0000_0000_0000 ==> number_at(splice(p, at, le64_bytes(v)), at, 8) == v,
{
    if 0 <= v < 0x1_0000 {
        law_numbers(splice(p, at, le16_bytes(v)), at);
        crate::bytes::law_le16_roundtrip(p, at, v as u16);
    }
    if 0 <= v < 0x1_0000_0000 {
        law_numbers(splice(p, at, le32_bytes(v)), at);
        crate::bytes::law_le32_roundtrip(p, at, v as u32);
    }
    if 0 <= v < 0x1_0000_0000_0000_0000 {
        law_numbers(splice(p, at, le64_bytes(v)), at);
        crate::bytes::law_le64_roundtrip(p, at, v as u64);
    }
}

/// The page that a further processor starts on tells it where the page tables are, its stack
/// and where to go on, in the words at 0x80, 0x88 and 0x90; its code reads them from the page's
/// own place, as it does the descriptors at 0x180, by way of the six bytes at 0x198.
pub proof fn law_start_page(base: int, cr3: int, stack: int, entry: int)
    requires
        0 <= base <= 0xE000,
        0 <= cr3 < 0x1_0000_0000_0000_0000,
        0 <= stack < 0x1_0000_0000_0000_0000,
        0 <= entry < 0x1_0000_0000_0000_0000,
    ensures
        ({
            let p = start_page(base, cr3, stack, entry);
            &&& p.len() == 4096
            &&& number_at(p, 0x80, 8) == cr3
            &&& number_at(p, 0x88, 8) == stack
            &&& number_at(p, 0x90, 8) == entry
            &&& number_at(p, 0x198, 2) == 3 * 8 - 1
            &&& number_at(p, 0x19A, 4) == base + 0x180
            &&& number_at(p, 0x0D, 2) == base + 0x198
            &&& number_at(p, 0x22, 2) == base + 0x80
            &&& number_at(p, 0x4B, 4) == base + 0x100
            &&& number_at(p, 0x10E, 4) == base + 0x88
            &&& number_at(p, 0x116, 4) == base + 0x90
        }),
{
    lemma_start_page(base, cr3, stack, entry);
    lemma_field(base, cr3, stack, entry, 1, 11);
    lemma_field(base, cr3, stack, entry, 2, 11);
    lemma_field(base, cr3, stack, entry, 3, 11);
    lemma_field(base, cr3, stack, entry, 4, 11);
    lemma_field(base, cr3, stack, entry, 5, 11);
    lemma_field(base, cr3, stack, entry, 7, 11);
    lemma_field(base, cr3, stack, entry, 8, 11);
    lemma_field(base, cr3, stack, entry, 9, 11);
    lemma_field(base, cr3, stack, entry, 10, 11);
    lemma_field(base, cr3, stack, entry, 11, 11);
}

spec fn patch_at(i: int) -> int {
    if i == 1 {
        0x198
    } else if i == 2 {
        0x19A
    } else if i == 3 {
        0x80
    } else if i == 4 {
        0x88
    } else if i == 5 {
        0x90
    } else if i == 6 {
        0x0A
    } else if i == 7 {
        0x0D
    } else if i == 8 {
        0x22
    } else if i == 9 {
        0x4B
    } else if i == 10 {
        0x10E
    } else {
        0x116
    }
}

spec fn patch_width(i: int) -> int {
    if i == 3 || i == 4 || i == 5 {
        8
    } else if i == 2 || i >= 9 {
        4
    } else {
        2
    }
}

spec fn patch_value(i: int, base: int, cr3: int, stack: int, entry: int) -> int {
    if i == 1 {
        0x17
    } else if i == 2 {
        base + 0x180
    } else if i == 3 {
        cr3
    } else if i == 4 {
        stack
    } else if i == 5 {
        entry
    } else if i == 6 {
        base + 0xF00
    } else if i == 7 {
        base + 0x198
    } else if i == 8 {
        base + 0x080
    } else if i == 9 {
        base + 0x100
    } else if i == 10 {
        base + 0x088
    } else {
        base + 0x090
    }
}

spec fn patch_bytes(i: int, base: int, cr3: int, stack: int, entry: int) -> Seq<u8> {
    let v = patch_value(i, base, cr3, stack, entry);
    if patch_width(i) == 8 {
        le64_bytes(v)
    } else if patch_width(i) == 4 {
        le32_bytes(v)
    } else {
        le16_bytes(v)
    }
}

spec fn patched(base: int, cr3: int, stack: int, entry: int, m: int) -> Seq<u8>
    decreases m,
{
    if m <= 0 {
        bare_page()
    } else {
        splice(patched(base, cr3, stack, entry, m - 1), patch_at(m), patch_bytes(m, base, cr3, stack, entry))
    }
}

#[verifier::spinoff_prover]
#[verifier::rlimit(60)]
proof fn lemma_start_page(base: int, cr3: int, stack: int, entry: int)
    ensures
        start_page(base, cr3, stack, entry) == patched(base, cr3, stack, entry, 11),
{
    reveal_with_fuel(patched, 12);
}

proof fn lemma_patched_len(base: int, cr3: int, stack: int, entry: int, m: int)
    requires
        0 <= m <= 11,
    ensures
        patched(base, cr3, stack, entry, m).len() == 4096,
    decreases m,
{
    if m > 0 {
        lemma_patched_len(base, cr3, stack, entry, m - 1);
    }
}

#[verifier::spinoff_prover]
#[verifier::rlimit(60)]
proof fn lemma_field(base: int, cr3: int, stack: int, entry: int, i: int, m: int)
    requires
        1 <= i <= m <= 11,
        0 <= base <= 0xE000,
        0 <= cr3 < 0x1_0000_0000_0000_0000,
        0 <= stack < 0x1_0000_0000_0000_0000,
        0 <= entry < 0x1_0000_0000_0000_0000,
    ensures
        patched(base, cr3, stack, entry, m).len() == 4096,
        number_at(patched(base, cr3, stack, entry, m), patch_at(i), patch_width(i)) == patch_value(
            i,
            base,
            cr3,
            stack,
            entry,
        ),
    decreases m,
{
    lemma_patched_len(base, cr3, stack, entry, m);
    lemma_patched_len(base, cr3, stack, entry, m - 1);
    let p = patched(base, cr3, stack, entry, m - 1);
    if i == m {
        lemma_put(p, patch_at(i), patch_value(i, base, cr3, stack, entry));
    } else {
        lemma_field(base, cr3, stack, entry, i, m - 1);
        lemma_patched(p, patch_at(i), patch_bytes(m, base, cr3, stack, entry), patch_at(m), patch_width(i));
    }
}

/// The processors to start are the first three that the firmware names besides the one that
/// runs.
pub proof fn law_further_processors(ids: Seq<u8>, bsp: u32)
    ensures
        ({
            let f = ids.filter(|x: u8| x != bsp);
            &&& f.len() <= 3 ==> ap_plan(ids, bsp) == f
            &&& f.len() > 3 ==> ap_plan(ids, bsp) == f.take(3)
        }),
    decreases ids.len(),
{
    reveal(Seq::filter);
    let f = ids.filter(|x: u8| x != bsp);
    if ids.len() > 0 {
        law_further_processors(ids.drop_last(), bsp);
        let g = ids.drop_last().filter(|x: u8| x != bsp);
        assert(f == if ids.last() != bsp { g.push(ids.last()) } else { g });
        if f.len() > 3 {
            assert(f.take(3) =~= if g.len() <= 3 { g } else { g.take(3) });
        }
    }
}

/// A wake-up goes to every processor that runs but the one that sends it.
pub proof fn law_other_processors(cpus: Seq<PerCpu>, me: usize, n: int, i: int)
    requires
        0 <= i < n <= cpus.len(),
        i != me,
        cpus[i].online,
    ensures
        others(cpus, me, n).contains(cpus[i].lapic_id),
    decreases n,
{
    let a = others(cpus, me, n - 1);
    let b = others(cpus, me, n);
    if i == n - 1 {
        assert(b[a.len() as int] == cpus[i].lapic_id);
    } else {
        law_other_processors(cpus, me, n - 1, i);
        let k = choose|k: int| 0 <= k < a.len() && a[k] == cpus[i].lapic_id;
        assert(b[k] == cpus[i].lapic_id);
    }
}

/// And to no other.
pub proof fn law_no_further_wake_ups(cpus: Seq<PerCpu>, me: usize, n: int, k: int)
    requires
        0 <= n <= cpus.len(),
        0 <= k < others(cpus, me, n).len(),
    ensures
        exists|i: int|
            0 <= i < n && i != me && (#[trigger] cpus[i]).online && cpus[i].lapic_id == others(cpus, me, n)[k],
    decreases n,
{
    let a = others(cpus, me, n - 1);
    if n > 0 && k < a.len() {
        law_no_further_wake_ups(cpus, me, n - 1, k);
    }
}

} // verus!
