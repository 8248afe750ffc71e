//! Which sector the cache gives up, and what it fetches ahead.
use vstd::prelude::*;

use crate::ata::{all_in, sector_bytes};
use crate::blkcache::{
    ahead_from, coherent, gap, grown, inserted_run, read_through, sectors_of, walked, Clock,
};

verus! {

/// The slot `k` places from the hand.
pub open spec fn from_hand(c: Clock, k: int) -> int {
    (c.next + k) % 2048
}

/// Whether the slot is spared for now: it holds a sector that was used since the hand passed.
pub open spec fn spared(c: Clock, i: int) -> bool {
    c.slots[i].valid && c.slots[i].dwell
}

proof fn lemma_sweep(c: Clock, j: int, k: int)
    requires
        0 <= j <= k <= 2048,
        forall|q: int| j <= q < k ==> spared(c, #[trigger] from_hand(c, q)),
        k < 2048 ==> !spared(c, from_hand(c, k)),
    ensures
        c.sweep(j) == k,
    decreases k - j,
{
    if j < k {
        assert(spared(c, from_hand(c, j)));
        lemma_sweep(c, j + 1, k);
    } else if k < 2048 {
        assert(!spared(c, from_hand(c, k)));
    }
}

/// A sector that is not cached takes the first slot from the hand on that is empty or was not
/// used since the hand passed it. The slots passed over lose their mark, so that the next turn
/// takes them; the hand goes on behind the new sector.
#[verifier::spinoff_prover]
#[verifier::rlimit(60)]
pub proof fn law_second_chance(c: Clock, lba: u32, data: Seq<u8>, k: int, q: int)
    requires
        c.wf(),
        !c.cached(lba),
        0 <= k < 2048,
        0 <= q < 2048,
        forall|j: int| 0 <= j < k ==> spared(c, #[trigger] from_hand(c, j)),
        !spared(c, from_hand(c, k)),
    ensures
        ({
            let d = c.inserted(lba, data);
            let i = from_hand(c, q);
            &&& d.slots.len() == 2048
            &&& d.next == from_hand(c, k + 1)
            &&& q == k ==> d.slots[i].lba == lba && d.slots[i].valid && d.slots[i].dwell && d.slots[i].data == data
            &&& q < k ==> d.slots[i].lba == c.slots[i].lba && d.slots[i].valid && !d.slots[i].dwell
                && d.slots[i].data == c.slots[i].data
            &&& q > k ==> d.slots[i] == c.slots[i]
        }),
{
    lemma_sweep(c, 0, k);
    let i = from_hand(c, q);
    lemma_ahead(c, q);
    lemma_ahead(c, k);
    if q < k {
        assert(spared(c, from_hand(c, q)));
    }
    if q != k {
        assert(i != c.victim());
    }
    assert((c.victim() + 1) % 2048 == from_hand(c, k + 1)) by {
        if c.next + k < 2048 {
            assert(c.victim() == c.next + k);
        } else {
            assert(c.victim() == c.next + k - 2048);
        }
    }
}

proof fn lemma_ahead(c: Clock, q: int)
    requires
        0 <= c.next < 2048,
        0 <= q < 2048,
    ensures
        c.ahead(from_hand(c, q)) == q,
        0 <= from_hand(c, q) < 2048,
{
    if c.next + q < 2048 {
        assert(from_hand(c, q) == c.next + q);
    } else {
        assert(from_hand(c, q) == c.next + q - 2048);
    }
}

/// Where every slot was used, each loses its mark and the one at the hand is taken.
pub proof fn law_full_turn(c: Clock, lba: u32, data: Seq<u8>, i: int)
    requires
        c.wf(),
        !c.cached(lba),
        0 <= i < 2048,
        forall|j: int| 0 <= j < 2048 ==> spared(c, #[trigger] from_hand(c, j)),
    ensures
        ({
            let d = c.inserted(lba, data);
            &&& d.next == from_hand(c, 1)
            &&& i == c.next ==> d.slots[i].lba == lba && d.slots[i].valid && d.slots[i].dwell && d.slots[i].data
                == data
            &&& i != c.next ==> d.slots[i].lba == c.slots[i].lba && !d.slots[i].dwell && d.slots[i].data
                == c.slots[i].data
        }),
{
    lemma_sweep(c, 0, 2048);
    assert(c.victim() == c.next);
}

/// A sector that is used is marked, and nothing else changes.
pub proof fn law_use_marks(c: Clock, lba: u32, i: int, q: int)
    requires
        c.wf(),
        c.holds(i, lba),
        0 <= q < 2048,
    ensures
        c.touched(lba).next == c.next,
        c.touched(lba).slots[i].dwell,
        c.touched(lba).slots[i].data == c.slots[i].data,
        q != i ==> c.touched(lba).slots[q] == c.slots[q],
{
    assert(c.cached(lba));
    assert(c.holds(c.slot_of(lba), lba));
}

proof fn lemma_gap_full(c: Clock, l: int, n: int)
    requires
        0 <= n,
        0 <= l,
        l + n <= 0x1_0000_0000,
        forall|q: u32| l <= q < l + n ==> !#[trigger] c.cached(q),
    ensures
        gap(c, l, n) == n,
    decreases n,
{
    if n > 0 {
        assert(!c.cached(l as u32));
        lemma_gap_full(c, l + 1, n - 1);
    }
}

/// A read that goes on where the last one ended fetches the next four sectors too, where the
/// drive has them and none is cached; any other read fetches what it asks for and no more.
pub proof fn law_read_ahead(c: Clock, m: Map<u32, Seq<u8>>, lba: u32, n: nat)
    requires
        lba + n + 4 <= 0x1000_0000,
        all_in(m, (lba + n) as u32, 4),
        forall|q: u32| lba + n <= q < lba + n + 4 ==> !#[trigger] walked(c, m, lba, n).0.cached(q),
    ensures
        read_through(c, m, lba, n, false) == walked(c, m, lba, n).0,
        read_through(c, m, lba, n, true) == inserted_run(
            walked(c, m, lba, n).0,
            (lba + n) as u32,
            4,
            sector_bytes(m, (lba + n) as u32, 4),
        ),
{
    let w = walked(c, m, lba, n).0;
    let end = lba + n;
    lemma_gap_full(w, end, 4);
    assert(!w.cached((end + 0) as u32));
    reveal_with_fuel(ahead_from, 2);
}

/// A cache that agrees with its drive does not show: a read through it gives the bytes that the
/// drive has.
pub proof fn law_reads_are_the_drives(c: Clock, m: Map<u32, Seq<u8>>, lba: u32, n: nat)
    requires
        coherent(c, m),
        all_in(m, lba, n as int),
        lba + n <= 0x1_0000_0000,
    ensures
        sectors_of(c, m, lba, n) =~= sector_bytes(m, lba, n),
{
    assert forall|k: int| 0 <= k < 512 * n implies sectors_of(c, m, lba, n)[k] == sector_bytes(m, lba, n)[k] by {
        let l = (lba + k / 512) as u32;
        assert(lba <= l < lba + n);
        assert(m.contains_key(l));
        if c.contents().contains_key(l) {
            assert(c.contents()[l] == m[l]);
        }
    }
}

/// Reading adds to the cache only what the drive has, so that it goes on agreeing with it.
pub proof fn law_reading_keeps_agreement(c: Clock, m: Map<u32, Seq<u8>>, now: Clock)
    requires
        coherent(c, m),
        grown(c, m, now),
    ensures
        coherent(now, m),
{
    assert forall|l: u32| now.contents().contains_key(l) && m.contains_key(l) implies now.contents()[l] == m[l] by {
        assert(now.contents().contains_key(l));
        if c.contents().contains_key(l) {
            assert(m.contains_key(l));
        }
    }
}

} // verus!
