//! The parallelism benchmark: what each worker computes and how the run is
//! judged.
use crate::text::{dec, push_dec};
use vstd::prelude::*;

verus! {

/// Workers of a run.
pub const WORKERS: usize = 4;
/// Iterations per worker.
pub const UNITS: u64 = 20_000_000;

/// A worker's checksum after `units` iterations.
pub open spec fn checksum(units: int) -> int {
    (12345 + 7 * units) % 0x1_0000_0000_0000_0000
}

/// A worker's loop: `units` dependent additions.
pub fn worker(units: u64) -> (r: u64)
    ensures
        r == checksum(units as int),
{
    let mut acc: u64 = 12345;
    let mut i: u64 = 0;
    while i < units
        invariant
            i <= units,
            acc == checksum(i as int),
        decreases units - i,
    {
        let ghost t = 12345 + 7 * i;
        acc = acc.wrapping_add(7);
        i += 1;
        proof {
            let m = 0x1_0000_0000_0000_0000int;
            assert((t % m + 7) % m == (t + 7) % m);
            assert(t + 7 == 12345 + 7 * (i as int));
        }
    }
    acc
}

/// Is `idx` one of the registered workers?
pub fn is_bench_worker(ids: &Vec<usize>, idx: usize) -> (r: bool)
    ensures
        r == ids@.contains(idx),
{
    let mut i: usize = 0;
    while i < ids.len()
        invariant
            i <= ids@.len(),
            forall|k: int| 0 <= k < i ==> ids@[k] != idx,
        decreases ids@.len() - i,
    {
        if ids[i] == idx {
            return true;
        }
        i += 1;
    }
    false
}

/// Every worker's checksum is right.
pub open spec fn all_right(results: Seq<u64>) -> bool {
    forall|i: int| 0 <= i < 4 ==> #[trigger] results[i] == checksum(UNITS as int)
}

/// The run's report line.
pub open spec fn report_text(elapsed: u64, ok: bool, cpus: Seq<usize>) -> Seq<char> {
    "[para] bench done elapsed="@ + dec(elapsed as nat) + " ms ok="@ + dec(
        if ok { 1 } else { 0 },
    ) + " cpus=["@ + dec(cpus[0] as nat) + ","@ + dec(cpus[1] as nat) + ","@ + dec(cpus[2] as nat)
        + ","@ + dec(cpus[3] as nat) + "]"@
}

/// Judge a finished run: the report line and whether every checksum is right.
pub fn task(results: &Vec<u64>, cpus: &Vec<usize>, started_ms: u64, now_ms: u64) -> (r: (
    String,
    bool,
))
    requires
        results@.len() >= 4,
        cpus@.len() >= 4,
    ensures
        r.1 == all_right(results@),
        r.0@ == report_text(
            if now_ms >= started_ms { (now_ms - started_ms) as u64 } else { 0 },
            r.1,
            cpus@,
        ),
{
    let elapsed = if now_ms >= started_ms {
        now_ms - started_ms
    } else {
        0
    };
    let expected = 12345u64 + 7 * UNITS;
    assert(expected == checksum(UNITS as int));
    let ok = results[0] == expected && results[1] == expected && results[2] == expected
        && results[3] == expected;
    let mut s = String::from_str("[para] bench done elapsed=");
    push_dec(&mut s, elapsed);
    s.append(" ms ok=");
    push_dec(&mut s, if ok { 1 } else { 0 });
    s.append(" cpus=[");
    push_dec(&mut s, cpus[0] as u64);
    s.append(",");
    push_dec(&mut s, cpus[1] as u64);
    s.append(",");
    push_dec(&mut s, cpus[2] as u64);
    s.append(",");
    push_dec(&mut s, cpus[3] as u64);
    s.append("]");
    (s, ok)
}

} // verus!
