//! The sector cache between the file systems and the drive.
//!
//! A fixed number of one-sector slots with second-chance eviction. Writes go to
//! the drive first and then into the cache, so the cache never holds what the
//! drive does not. A read that continues the previous one also fetches the next
//! few sectors.
use crate::ata::{
    all_in, in_range, sector_bytes, with_sectors, AtaDrive, AtaError, LBA28_MAX, SECTOR_SIZE,
};
use crate::bytes::{copy_range, put_bytes, splice, zeros};
use vstd::prelude::*;

verus! {

/// Slots of the cache.
pub const CACHE_ENTRIES: usize = 2048;
/// Sectors fetched ahead of a sequential read.
pub const READ_AHEAD: usize = 4;

/// One slot.
#[verifier::ext_equal]
pub struct Slot {
    pub lba: u32,
    pub valid: bool,
    /// Second chance: set on use, cleared when the hand passes.
    pub dwell: bool,
    pub data: Seq<u8>,
}

/// The slots and the clock hand.
#[verifier::ext_equal]
pub struct Clock {
    pub slots: Seq<Slot>,
    pub next: int,
}

impl Clock {
    pub open spec fn holds(self, i: int, lba: u32) -> bool {
        0 <= i < self.slots.len() && self.slots[i].valid && self.slots[i].lba == lba
    }

    pub open spec fn cached(self, lba: u32) -> bool {
        exists|i: int| #[trigger] self.holds(i, lba)
    }

    /// The slot that holds `lba`, where one does.
    pub open spec fn slot_of(self, lba: u32) -> int {
        choose|i: int| #[trigger] self.holds(i, lba)
    }

    /// The sectors cached.
    pub open spec fn contents(self) -> Map<u32, Seq<u8>> {
        Map::new(|l: u32| self.cached(l), |l: u32| self.slots[self.slot_of(l)].data)
    }

    /// No sector is in two slots, and every slot has room for one.
    pub open spec fn wf(self) -> bool {
        &&& self.slots.len() == CACHE_ENTRIES
        &&& 0 <= self.next < CACHE_ENTRIES
        &&& forall|i: int, j: int, l: u32| #[trigger]
            self.holds(i, l) && #[trigger] self.holds(j, l) ==> i == j
        &&& forall|i: int| 0 <= i < self.slots.len() ==> (#[trigger] self.slots[i]).data.len() == 512
        &&& self.packed()
    }

    /// Every sector cached is one that the drive can have.
    pub open spec fn in_reach(self) -> bool {
        forall|l: u32| #[trigger] self.contents().contains_key(l) ==> l <= LBA28_MAX
    }

    /// The empty slots are those next to come under the hand: behind a slot in
    /// use there is no empty one.
    #[verifier::opaque]
    pub open spec fn packed(self) -> bool {
        forall|i: int, j: int|
            #![trigger self.slots[i], self.slots[j]]
            0 <= i < CACHE_ENTRIES && 0 <= j < CACHE_ENTRIES && self.ahead(i) <= self.ahead(j)
                && self.slots[i].valid ==> self.slots[j].valid
    }

    /// Every slot is in use.
    pub open spec fn full(self) -> bool {
        forall|i: int| 0 <= i < CACHE_ENTRIES ==> (#[trigger] self.slots[i]).valid
    }

    /// The hand may take this slot.
    pub open spec fn evictable(self, i: int) -> bool {
        !self.slots[i].valid || !self.slots[i].dwell
    }

    /// Slots the hand passes, from the `k`-th on, before one it may take; all
    /// of them where there is none.
    pub open spec fn sweep(self, k: int) -> int
        decreases CACHE_ENTRIES - k,
    {
        if k >= CACHE_ENTRIES {
            CACHE_ENTRIES as int
        } else if self.evictable((self.next + k) % CACHE_ENTRIES as int) {
            k
        } else {
            self.sweep(k + 1)
        }
    }

    /// How far slot `i` is ahead of the hand.
    pub open spec fn ahead(self, i: int) -> int {
        (i - self.next + CACHE_ENTRIES) % CACHE_ENTRIES as int
    }

    /// The slot a new sector goes to.
    pub open spec fn victim(self) -> int {
        (self.next + self.sweep(0)) % CACHE_ENTRIES as int
    }

    /// The cache after `lba` was looked up.
    pub open spec fn touched(self, lba: u32) -> Clock {
        if self.cached(lba) {
            let i = self.slot_of(lba);
            Clock { slots: self.slots.update(i, Slot { dwell: true, ..self.slots[i] }), ..self }
        } else {
            self
        }
    }

    /// The cache after `data` was stored for `lba`: in place where it is
    /// cached, else in the first slot from the hand on whose second chance is
    /// used up; the slots passed on the way lose theirs.
    pub open spec fn inserted(self, lba: u32, data: Seq<u8>) -> Clock {
        if self.cached(lba) {
            let i = self.slot_of(lba);
            Clock {
                slots: self.slots.update(i, Slot { data, dwell: true, ..self.slots[i] }),
                ..self
            }
        } else {
            Clock {
                slots: Seq::new(
                    self.slots.len(),
                    |i: int|
                        if i == self.victim() {
                            Slot { lba, valid: true, dwell: true, data }
                        } else if self.ahead(i) < self.sweep(0) {
                            Slot { dwell: false, ..self.slots[i] }
                        } else {
                            self.slots[i]
                        },
                ),
                next: (self.victim() + 1) % CACHE_ENTRIES as int,
            }
        }
    }
}

proof fn lemma_sweep_bounds(c: Clock, k: int)
    requires
        0 <= k <= CACHE_ENTRIES,
    ensures
        k <= c.sweep(k) <= CACHE_ENTRIES,
    decreases CACHE_ENTRIES - k,
{
    if k < CACHE_ENTRIES {
        lemma_sweep_bounds(c, k + 1);
    }
}

/// The slot found is the one that holds the sector.
pub proof fn lemma_slot(c: Clock, i: int, lba: u32)
    requires
        c.wf(),
        c.holds(i, lba),
    ensures
        c.cached(lba),
        c.slot_of(lba) == i,
        c.contents().contains_key(lba),
        c.contents()[lba] == c.slots[i].data,
{
    assert(c.holds(c.slot_of(lba), lba));
}

/// Storing keeps the empty slots together, and one that takes a slot in use
/// finds no empty one.
proof fn lemma_packed(c: Clock, lba: u32, data: Seq<u8>)
    requires
        c.packed(),
        c.slots.len() == CACHE_ENTRIES,
        0 <= c.next < CACHE_ENTRIES,
    ensures
        c.inserted(lba, data).packed(),
        !c.cached(lba) && c.slots[c.victim()].valid ==> c.full(),
{
    reveal(Clock::packed);
    let d = c.inserted(lba, data);
    let n = CACHE_ENTRIES as int;
    lemma_sweep_bounds(c, 0);
    assert(c.ahead(c.next) == 0);
    if c.slots[c.next].valid {
        assert forall|i: int| 0 <= i < n implies (#[trigger] c.slots[i]).valid by {
            assert(c.ahead(c.next) <= c.ahead(i));
        }
    } else {
        assert(c.evictable((c.next + 0) % n));
        assert(c.sweep(0) == 0);
        assert(c.victim() == c.next);
    }
    if c.cached(lba) {
        assert(c.holds(c.slot_of(lba), lba));
    }
    assert forall|i: int, j: int|
        #![trigger d.slots[i], d.slots[j]]
        0 <= i < n && 0 <= j < n && d.ahead(i) <= d.ahead(j) && d.slots[i].valid implies
        d.slots[j].valid by {
        assert(d.slots[j].valid || !c.slots[j].valid);
        if !c.slots[c.next].valid && !c.cached(lba) && j != c.next {
            assert(d.ahead(j) == c.ahead(j) - 1);
            if i == c.next {
                assert(d.ahead(i) == n - 1);
            } else {
                assert(d.ahead(i) == c.ahead(i) - 1);
            }
        }
    }
}

/// Storing a sector makes it readable, changes no other sector's bytes, adds
/// nothing else, and loses at most the one whose slot was taken: none while a
/// slot is empty.
pub proof fn law_insert(c: Clock, lba: u32, data: Seq<u8>)
    requires
        c.wf(),
        data.len() == 512,
    ensures
        c.inserted(lba, data).wf(),
        c.inserted(lba, data).contents().contains_key(lba),
        c.inserted(lba, data).contents()[lba] == data,
        forall|l: u32|
            l != lba && #[trigger] c.inserted(lba, data).contents().contains_key(l)
                ==> c.contents().contains_key(l) && c.inserted(lba, data).contents()[l]
                == c.contents()[l],
        c.cached(lba) ==> c.inserted(lba, data).contents() == c.contents().insert(lba, data),
        forall|l: u32|
            #[trigger] c.contents().contains_key(l) && !c.inserted(
                lba,
                data,
            ).contents().contains_key(l) ==> !c.cached(lba) && c.holds(c.victim(), l) && c.full(),
{
    let d = c.inserted(lba, data);
    lemma_sweep_bounds(c, 0);
    lemma_packed(c, lba, data);
    if c.cached(lba) {
        let p = c.slot_of(lba);
        assert(c.holds(p, lba));
        assert forall|i: int, l: u32| #[trigger] d.holds(i, l) <==> c.holds(i, l) by {}
        assert(d.wf());
        assert forall|l: u32| #[trigger] d.cached(l) <==> c.cached(l) by {
            if c.cached(l) {
                let i = c.slot_of(l);
                assert(d.holds(i, l));
            }
            if d.cached(l) {
                let i = d.slot_of(l);
                assert(c.holds(i, l));
            }
        }
        assert forall|l: u32| #[trigger] c.cached(l) implies d.contents()[l] == c.contents().insert(
            lba,
            data,
        )[l] by {
            let i = c.slot_of(l);
            assert(c.holds(i, l) && d.holds(i, l));
            lemma_slot(c, i, l);
            lemma_slot(d, i, l);
        }
        assert(d.contents() =~= c.contents().insert(lba, data));
        assert(d.holds(p, lba));
        lemma_slot(d, p, lba);
    } else {
        let v = c.victim();
        assert(0 <= v < CACHE_ENTRIES);
        assert forall|i: int, l: u32| #[trigger] d.holds(i, l) implies (if i == v {
            l == lba
        } else {
            c.holds(i, l)
        }) by {}
        assert forall|i: int, l: u32| i != v && #[trigger] c.holds(i, l) implies d.holds(i, l) by {}
        assert forall|i: int, j: int, l: u32| #[trigger]
            d.holds(i, l) && #[trigger] d.holds(j, l) implies i == j by {
            if i != v && j != v {
                assert(c.holds(i, l) && c.holds(j, l));
            } else if i == v && j != v {
                assert(c.holds(j, lba));
            } else if j == v && i != v {
                assert(c.holds(i, lba));
            }
        }
        assert(d.wf());
        assert(d.holds(v, lba));
        lemma_slot(d, v, lba);
        assert forall|l: u32| l != lba && #[trigger] d.contents().contains_key(l) implies c.contents().contains_key(
            l,
        ) && d.contents()[l] == c.contents()[l] by {
            let i = d.slot_of(l);
            assert(d.holds(i, l));
            assert(c.holds(i, l));
            lemma_slot(c, i, l);
            lemma_slot(d, i, l);
        }
        assert forall|l: u32| #[trigger] c.contents().contains_key(l) && !d.contents().contains_key(
            l,
        ) implies c.holds(v, l) by {
            let i = c.slot_of(l);
            assert(c.holds(i, l));
            if i != v {
                assert(d.holds(i, l));
            }
        }
    }
}

/// Looking a sector up changes no contents.
pub proof fn law_touch(c: Clock, lba: u32)
    requires
        c.wf(),
    ensures
        c.touched(lba).wf(),
        c.touched(lba).contents() == c.contents(),
{
    if c.cached(lba) {
        let d = c.touched(lba);
        assert(c.holds(c.slot_of(lba), lba));
        assert(d.packed()) by {
            reveal(Clock::packed);
            assert forall|i: int| 0 <= i < CACHE_ENTRIES implies (#[trigger] d.slots[i]).valid
                == c.slots[i].valid && d.ahead(i) == c.ahead(i) by {}
        }
        assert forall|i: int, l: u32| #[trigger] d.holds(i, l) <==> c.holds(i, l) by {}
        assert forall|l: u32| #[trigger] d.cached(l) <==> c.cached(l) by {
            if c.cached(l) {
                assert(d.holds(c.slot_of(l), l));
            }
            if d.cached(l) {
                assert(c.holds(d.slot_of(l), l));
            }
        }
        assert forall|l: u32| #[trigger] c.cached(l) implies d.contents()[l] == c.contents()[l] by {
            let i = c.slot_of(l);
            assert(c.holds(i, l) && d.holds(i, l));
            lemma_slot(c, i, l);
            lemma_slot(d, i, l);
        }
        assert(d.contents() =~= c.contents());
    }
}

// ---------------------------------------------------------------------------
// Room
// ---------------------------------------------------------------------------

/// The `m` slots from the hand on are empty.
pub open spec fn room(c: Clock, m: int) -> bool {
    &&& m <= CACHE_ENTRIES
    &&& forall|i: int|
        0 <= i < CACHE_ENTRIES && c.ahead(i) < m ==> !(#[trigger] c.slots[i]).valid
}

/// While there is room, storing a sector loses nothing.
pub proof fn law_room(c: Clock, lba: u32, data: Seq<u8>, m: int)
    requires
        c.wf(),
        room(c, m),
        m > 0,
        data.len() == 512,
    ensures
        c.inserted(lba, data).wf(),
        room(c.inserted(lba, data), m - 1),
        c.inserted(lba, data).contents() == c.contents().insert(lba, data),
{
    law_insert(c, lba, data);
    let d = c.inserted(lba, data);
    let n = CACHE_ENTRIES as int;
    if c.cached(lba) {
        assert(c.holds(c.slot_of(lba), lba));
        assert forall|i: int| 0 <= i < n && d.ahead(i) < m - 1 implies !(
        #[trigger] d.slots[i]).valid by {
            assert(c.ahead(i) == d.ahead(i));
            assert(!c.slots[i].valid);
        }
    } else {
        assert(c.ahead(c.next) == 0);
        assert(!c.slots[c.next].valid);
        assert(c.evictable((c.next + 0) % n));
        assert(c.sweep(0) == 0);
        assert(c.victim() == c.next);
        assert forall|i: int| 0 <= i < n && d.ahead(i) < m - 1 implies !(
        #[trigger] d.slots[i]).valid by {
            if i == c.next {
                assert(d.ahead(i) == n - 1);
            } else {
                assert(d.ahead(i) == c.ahead(i) - 1);
                assert(!c.slots[i].valid);
            }
        }
        assert forall|l: u32| c.contents().contains_key(l) implies d.contents().contains_key(
            l,
        ) by {}
        assert(d.contents() =~= c.contents().insert(lba, data));
    }
}

proof fn law_room_touch(c: Clock, lba: u32, m: int)
    requires
        c.wf(),
        room(c, m),
    ensures
        room(c.touched(lba), m),
{
    let d = c.touched(lba);
    if c.cached(lba) {
        assert(c.holds(c.slot_of(lba), lba));
        assert forall|i: int| 0 <= i < CACHE_ENTRIES && d.ahead(i) < m implies !(
        #[trigger] d.slots[i]).valid by {
            assert(c.ahead(i) == d.ahead(i));
            assert(!c.slots[i].valid);
        }
    }
}

// ---------------------------------------------------------------------------
// The cache
// ---------------------------------------------------------------------------

struct Entry {
    lba: u32,
    valid: bool,
    dwell: bool,
    data: Vec<u8>,
}

impl Entry {
    spec fn slot(self) -> Slot {
        Slot { lba: self.lba, valid: self.valid, dwell: self.dwell, data: self.data@ }
    }
}

/// The cache, its counters and where the last read ended.
pub struct Cache {
    entries: Vec<Entry>,
    next: usize,
    hits: usize,
    misses: usize,
    last_seq_end: u32,
    seq_valid: bool,
}

impl Cache {
    pub closed spec fn view(&self) -> Clock {
        Clock {
            slots: Seq::new(self.entries@.len(), |i: int| self.entries@[i].slot()),
            next: self.next as int,
        }
    }

    pub closed spec fn hits_spec(&self) -> usize {
        self.hits
    }

    pub closed spec fn misses_spec(&self) -> usize {
        self.misses
    }

    /// Where the last read ended, unless a write or flush came since.
    pub closed spec fn seq_end(&self) -> Option<u32> {
        if self.seq_valid {
            Some(self.last_seq_end)
        } else {
            None
        }
    }

    /// The cache of a drive: it holds sectors that the drive can have.
    pub open spec fn wf(&self) -> bool {
        self@.wf() && self@.in_reach()
    }

    /// An empty cache.
    pub fn new() -> (c: Cache)
        ensures
            c.wf(),
            c@.contents() == Map::<u32, Seq<u8>>::empty(),
            room(c@, CACHE_ENTRIES as int),
            c.hits_spec() == 0,
            c.misses_spec() == 0,
            c.seq_end() is None,
    {
        let mut entries: Vec<Entry> = Vec::new();
        let mut i: usize = 0;
        while i < CACHE_ENTRIES
            invariant
                i <= CACHE_ENTRIES,
                entries@.len() == i,
                forall|k: int|
                    0 <= k < i ==> !(#[trigger] entries@[k]).valid && entries@[k].data@.len() == 512,
            decreases CACHE_ENTRIES - i,
        {
            entries.push(Entry { lba: 0, valid: false, dwell: false, data: zeros(SECTOR_SIZE) });
            i += 1;
        }
        let c = Cache {
            entries,
            next: 0,
            hits: 0,
            misses: 0,
            last_seq_end: 0,
            seq_valid: false,
        };
        assert forall|i: int, l: u32| !#[trigger] c@.holds(i, l) by {}
        assert(c@.packed()) by {
            reveal(Clock::packed);
        }
        assert(c@.contents() =~= Map::<u32, Seq<u8>>::empty());
        c
    }

    /// The slot that holds `lba`.
    fn position(&self, lba: u32) -> (r: Option<usize>)
        ensures
            match r {
                Some(i) => self@.holds(i as int, lba),
                None => !self@.cached(lba),
            },
    {
        let mut i: usize = 0;
        while i < self.entries.len()
            invariant
                i <= self.entries@.len(),
                forall|k: int| 0 <= k < i ==> !#[trigger] self@.holds(k, lba),
            decreases self.entries@.len() - i,
        {
            if self.entries[i].valid && self.entries[i].lba == lba {
                return Some(i);
            }
            i += 1;
        }
        None
    }

    /// Look a sector up; it gets its second chance back.
    pub fn find(&mut self, lba: u32) -> (r: Option<Vec<u8>>)
        requires
            old(self)@.wf(),
        ensures
            final(self)@.wf(),
            old(self).wf() ==> final(self).wf(),
            final(self)@ == old(self)@.touched(lba),
            final(self).same_counters(*old(self)),
            match r {
                Some(d) => old(self)@.contents().contains_key(lba) && d@ == old(self)@.contents()[lba],
                None => !old(self)@.cached(lba),
            },
    {
        match self.position(lba) {
            None => None,
            Some(i) => {
                proof {
                    lemma_slot(self@, i as int, lba);
                    law_touch(self@, lba);
                }
                let n = self.entries[i].data.len();
                let d = copy_range(self.entries[i].data.as_slice(), 0, n);
                assert(d@ =~= self.entries@[i as int].data@);
                self.entries[i].dwell = true;
                assert(self@.slots =~= old(self)@.touched(lba).slots);
                Some(d)
            },
        }
    }

    /// The counters and the sequential mark are unchanged.
    pub closed spec fn same_counters(self, other: Cache) -> bool {
        &&& self.hits == other.hits
        &&& self.misses == other.misses
        &&& self.last_seq_end == other.last_seq_end
        &&& self.seq_valid == other.seq_valid
    }

    /// Store a sector, in one slot. No other sector's bytes change, and at most
    /// one sector leaves: none while a slot is empty.
    pub fn insert(&mut self, lba: u32, data: Vec<u8>)
        requires
            old(self)@.wf(),
            data@.len() == 512,
        ensures
            final(self)@.wf(),
            old(self).wf() && lba <= LBA28_MAX ==> final(self).wf(),
            final(self)@ == old(self)@.inserted(lba, data@),
            final(self).same_counters(*old(self)),
            final(self)@.contents().contains_key(lba),
            final(self)@.contents()[lba] == data@,
            forall|l: u32|
                l != lba && #[trigger] final(self)@.contents().contains_key(l)
                    ==> old(self)@.contents().contains_key(l) && final(self)@.contents()[l]
                    == old(self)@.contents()[l],
            forall|l: u32|
                #[trigger] old(self)@.contents().contains_key(l)
                    && !final(self)@.contents().contains_key(l) ==> !old(self)@.contents().contains_key(
                    lba,
                ) && old(self)@.full() && old(self)@.holds(old(self)@.victim(), l),
    {
        proof {
            law_insert(self@, lba, data@);
            lemma_sweep_bounds(self@, 0);
        }
        match self.position(lba) {
            Some(i) => {
                proof {
                    lemma_slot(self@, i as int, lba);
                }
                self.entries[i].data = data;
                self.entries[i].dwell = true;
                assert(self@.slots =~= old(self)@.inserted(lba, data@).slots);
                return ;
            },
            None => {},
        }
        let ghost c = self@;
        let n = CACHE_ENTRIES;
        let mut k: usize = 0;
        let mut at: usize = self.next;
        while k < n && self.entries[at].valid && self.entries[at].dwell
            invariant
                n == CACHE_ENTRIES,
                c.wf(),
                k <= n,
                self.entries@.len() == n,
                self.next == c.next,
                at < n,
                at == (c.next + k) % n as int,
                c.sweep(0) == c.sweep(k as int),
                self.same_counters(*old(self)),
                forall|i: int|
                    0 <= i < n ==> #[trigger] self.entries@[i].slot() == if c.ahead(i) < k {
                        Slot { dwell: false, ..c.slots[i] }
                    } else {
                        c.slots[i]
                    },
            decreases n - k,
        {
            assert(c.ahead(at as int) == k);
            assert(self.entries@[at as int].slot() == c.slots[at as int]);
            self.entries[at].dwell = false;
            at = (at + 1) % n;
            k += 1;
        }
        assert(c.sweep(0) == k) by {
            if k < n {
                assert(c.ahead(at as int) == k);
                assert(self.entries@[at as int].slot() == c.slots[at as int]);
            }
        }
        assert(at == c.victim());
        self.entries[at].lba = lba;
        self.entries[at].data = data;
        self.entries[at].valid = true;
        self.entries[at].dwell = true;
        self.next = (at + 1) % n;
        assert(self@.slots =~= c.inserted(lba, data@).slots);
    }
}

/// Where both the cache and the drive's sectors in memory hold a sector, they
/// hold the same bytes.
pub open spec fn coherent(c: Clock, m: Map<u32, Seq<u8>>) -> bool {
    forall|l: u32|
        #![trigger c.contents().contains_key(l)]
        #![trigger m.contains_key(l)]
        c.contents().contains_key(l) && m.contains_key(l) ==> c.contents()[l] == m[l]
}

/// A sector's bytes: the cache's where it has them, else the drive's.
pub open spec fn sector_of(c: Clock, m: Map<u32, Seq<u8>>, l: u32) -> Seq<u8> {
    if c.contents().contains_key(l) {
        c.contents()[l]
    } else {
        m[l]
    }
}

/// The sector's bytes are in the cache or in memory.
pub open spec fn at_hand(c: Clock, m: Map<u32, Seq<u8>>, l: u32) -> bool {
    c.contents().contains_key(l) || m.contains_key(l)
}

/// The bytes of `n` sectors from `lba` on.
pub open spec fn sectors_of(c: Clock, m: Map<u32, Seq<u8>>, lba: u32, n: nat) -> Seq<u8> {
    Seq::new(512 * n, |k: int| sector_of(c, m, (lba + k / 512) as u32)[k % 512])
}

/// `now` holds only what `c` or the drive held, with the same bytes.
pub open spec fn grown(c: Clock, m: Map<u32, Seq<u8>>, now: Clock) -> bool {
    forall|l: u32| #[trigger]
        now.contents().contains_key(l) ==> (c.contents().contains_key(l) || m.contains_key(l))
            && now.contents()[l] == sector_of(c, m, l)
}

/// Every sector of the range is cached.
pub open spec fn all_cached(c: Clock, lba: u32, n: int) -> bool {
    forall|l: u32| lba <= l < lba + n ==> #[trigger] c.contents().contains_key(l)
}

/// No sector of the range is cached.
pub open spec fn none_cached(c: Clock, from: int, to: int) -> bool {
    forall|l: u32| from <= l < to ==> !#[trigger] c.contents().contains_key(l)
}

/// The cache after `n` sectors of `data` were stored, as `lba` on.
pub open spec fn inserted_run(c: Clock, lba: u32, n: nat, data: Seq<u8>) -> Clock
    decreases n,
{
    if n == 0 {
        c
    } else {
        inserted_run(c, lba, (n - 1) as nat, data).inserted(
            (lba + n - 1) as u32,
            data.subrange(512 * (n - 1), (512 * n) as int),
        )
    }
}

/// The cache after the `n` sectors from `lba` on were read, one after the
/// other, and how many of them it held when their turn came: a sector it holds
/// gets its second chance back, another is stored as the drive has it.
pub open spec fn walked(c: Clock, m: Map<u32, Seq<u8>>, lba: u32, n: nat) -> (Clock, nat)
    decreases n,
{
    if n == 0 {
        (c, 0)
    } else {
        let (p, hits) = walked(c, m, lba, (n - 1) as nat);
        let l = (lba + n - 1) as u32;
        if p.cached(l) {
            (p.touched(l), hits + 1)
        } else {
            (p.inserted(l, m[l]), hits)
        }
    }
}

/// Reading a run of sectors of which none is cached stores them all.
proof fn lemma_walk_run(c: Clock, m: Map<u32, Seq<u8>>, lba: u32, i: nat, run: nat)
    requires
        walked(c, m, lba, i).0.wf(),
        none_cached(walked(c, m, lba, i).0, lba + i, lba + i + run),
        lba + i + run - 1 <= u32::MAX,
        forall|l: u32| lba + i <= l < lba + i + run ==> (#[trigger] m[l]).len() == 512,
    ensures
        ({
            let p = walked(c, m, lba, i).0;
            let s = (lba + i) as u32;
            let d = inserted_run(p, s, run, sector_bytes(m, s, run));
            &&& d.wf()
            &&& walked(c, m, lba, i + run) == (d, walked(c, m, lba, i).1)
            &&& forall|l: u32|
                #[trigger] d.contents().contains_key(l) ==> p.contents().contains_key(l) || lba + i
                    <= l < lba + i + run
        }),
    decreases run,
{
    if run > 0 {
        let p = walked(c, m, lba, i).0;
        let s = (lba + i) as u32;
        let h = (run - 1) as nat;
        lemma_walk_run(c, m, lba, i, h);
        let all = sector_bytes(m, s, run);
        lemma_run_prefix(p, s, h, sector_bytes(m, s, h), all);
        let d = inserted_run(p, s, h, all);
        let l = (lba + i + run - 1) as u32;
        assert(!d.contents().contains_key(l));
        assert(!d.cached(l));
        assert(all.subrange(512 * (run - 1), (512 * run) as int) =~= m[l]) by {
            assert forall|j: int| 0 <= j < 512 implies all[512 * (run - 1) + j] == m[l][j] by {
                let x = 512 * (run - 1) + j;
                assert(x / 512 == run - 1 && x % 512 == j);
            }
        }
        law_insert(d, l, m[l]);
    }
}

/// What is stored rests on the bytes of the run alone.
proof fn lemma_run_prefix(c: Clock, lba: u32, n: nat, a: Seq<u8>, b: Seq<u8>)
    requires
        512 * n <= a.len(),
        512 * n <= b.len(),
        forall|j: int| 0 <= j < 512 * n ==> #[trigger] a[j] == b[j],
    ensures
        inserted_run(c, lba, n, a) == inserted_run(c, lba, n, b),
    decreases n,
{
    if n > 0 {
        lemma_run_prefix(c, lba, (n - 1) as nat, a, b);
        assert(a.subrange(512 * (n - 1), (512 * n) as int) =~= b.subrange(
            512 * (n - 1),
            (512 * n) as int,
        ));
    }
}

/// Sectors of the range that are cached.
pub open spec fn cached_in(c: Clock, lba: u32, n: nat) -> nat
    decreases n,
{
    if n == 0 {
        0
    } else {
        cached_in(c, lba, (n - 1) as nat) + if c.contents().contains_key((lba + n - 1) as u32) {
            1nat
        } else {
            0
        }
    }
}

/// With room for the range, a read hits as many sectors as were cached before,
/// and afterwards just those and the range are cached.
pub proof fn law_hits_with_room(c: Clock, m: Map<u32, Seq<u8>>, lba: u32, n: nat, q: int)
    requires
        c.wf(),
        room(c, q),
        n <= q,
        lba + n - 1 <= u32::MAX,
        forall|l: u32| lba <= l < lba + n ==> (#[trigger] m[l]).len() == 512,
    ensures
        walked(c, m, lba, n).0.wf(),
        room(walked(c, m, lba, n).0, q - n),
        walked(c, m, lba, n).1 == cached_in(c, lba, n),
        forall|l: u32| #[trigger]
            walked(c, m, lba, n).0.contents().contains_key(l) <==> c.contents().contains_key(l)
                || lba <= l < lba + n,
    decreases n,
{
    if n > 0 {
        law_hits_with_room(c, m, lba, (n - 1) as nat, q);
        let p = walked(c, m, lba, (n - 1) as nat).0;
        let l = (lba + n - 1) as u32;
        assert(p.contents().contains_key(l) == p.cached(l));
        law_touch(p, l);
        law_room_touch(p, l, q - n + 1);
        if !p.cached(l) {
            law_room(p, l, m[l], q - n + 1);
        }
    }
}

/// Store `n` sectors of `data`, from offset `from` on, as `lba` on. With room
/// for all of them nothing is lost.
fn store_run(c: &mut Cache, m: &AtaDrive, lba: u32, n: u32, data: &[u8], from: usize)
    requires
        old(c).wf(),
        m.wf(),
        n <= 255,
        lba + n - 1 <= LBA28_MAX,
        from + 512 * n <= data@.len(),
        all_in(m@, lba, n as int),
        data@.subrange(from as int, from + 512 * n) == sector_bytes(m@, lba, n as nat),
        coherent(old(c)@, m@),
    ensures
        final(c).wf(),
        coherent(final(c)@, m@),
        grown(old(c)@, m@, final(c)@),
        final(c).same_counters(*old(c)),
        final(c)@ == inserted_run(old(c)@, lba, n as nat, sector_bytes(m@, lba, n as nat)),
        forall|l: u32| #[trigger]
            final(c)@.contents().contains_key(l) ==> old(c)@.contents().contains_key(l) || lba <= l
                < lba + n,
        forall|r: int| #[trigger]
            room(old(c)@, r) && r >= n ==> {
                &&& room(final(c)@, r - n)
                &&& all_cached(final(c)@, lba, n as int)
                &&& forall|l: u32|
                    old(c)@.contents().contains_key(l) ==> #[trigger] final(c)@.contents().contains_key(l)
            },
{
    let _len = data.len();
    let mut k: u32 = 0;
    while k < n
        invariant
            c.wf(),
            m.wf(),
            k <= n <= 255,
            lba + n - 1 <= LBA28_MAX,
            from + 512 * n <= data@.len(),
            _len == data@.len(),
            all_in(m@, lba, n as int),
            data@.subrange(from as int, from + 512 * n) == sector_bytes(m@, lba, n as nat),
            coherent(old(c)@, m@),
            coherent(c@, m@),
            grown(old(c)@, m@, c@),
            c.same_counters(*old(c)),
            c@ == inserted_run(old(c)@, lba, k as nat, sector_bytes(m@, lba, n as nat)),
            forall|l: u32| #[trigger]
                c@.contents().contains_key(l) ==> old(c)@.contents().contains_key(l) || lba <= l
                    < lba + n,
            forall|r: int| #[trigger]
                room(old(c)@, r) && r >= n ==> {
                    &&& room(c@, r - k)
                    &&& all_cached(c@, lba, k as int)
                    &&& forall|l: u32|
                        old(c)@.contents().contains_key(l)
                            ==> #[trigger] c@.contents().contains_key(l)
                },
        decreases n - k,
    {
        let ghost before = c@;
        let off = from + 512 * (k as usize);
        let sec = copy_range(data, off, off + 512);
        let l = lba + k;
        proof {
            m.lemma_wf();
            assert(m@.contains_key(l));
            assert(sec@ =~= m@[l]) by {
                assert forall|i: int| 0 <= i < 512 implies sec@[i] == m@[l][i] by {
                    let j = 512 * k + i;
                    assert(j / 512 == k && j % 512 == i);
                    assert(data@.subrange(from as int, from + 512 * n)[j] == data@[from + j]);
                    assert(sector_bytes(m@, lba, n as nat)[j] == m@[l][i]);
                }
            }
            assert(sec@ =~= sector_bytes(m@, lba, n as nat).subrange(512 * k, 512 * k + 512));
            law_insert(before, l, sec@);
            assert forall|r: int| #[trigger] room(old(c)@, r) && r >= n implies room(
                before.inserted(l, sec@),
                r - k - 1,
            ) && before.inserted(l, sec@).contents() == before.contents().insert(l, sec@) by {
                law_room(before, l, sec@, r - k);
            }
        }
        c.insert(l, sec);
        k += 1;
        assert(grown(old(c)@, m@, c@)) by {
            assert forall|x: u32| #[trigger] c@.contents().contains_key(x) implies (old(c)@.contents().contains_key(x) || m@.contains_key(x)) && c@.contents()[x] == sector_of(
                old(c)@,
                m@,
                x,
            ) by {
                if x != l {
                    assert(before.contents().contains_key(x));
                }
            }
        }
        assert(coherent(c@, m@)) by {
            assert forall|x: u32|
                c@.contents().contains_key(x) && m@.contains_key(x) implies c@.contents()[x]
                == m@[x] by {
                if x != l {
                    assert(before.contents().contains_key(x));
                }
            }
        }
    }
}

/// How many of the `n` sectors from `l` on follow each other uncached.
pub open spec fn gap(c: Clock, l: int, n: int) -> int
    decreases n,
{
    if n <= 0 || c.cached(l as u32) {
        0
    } else {
        1 + gap(c, l + 1, n - 1)
    }
}

/// A gap is as long as the range at most, and starts with a sector not cached.
pub proof fn lemma_gap(c: Clock, l: int, n: int)
    requires
        n >= 0,
    ensures
        0 <= gap(c, l, n) <= n,
        n > 0 && !c.cached(l as u32) ==> gap(c, l, n) >= 1,
    decreases n,
{
    if n > 0 {
        lemma_gap(c, l + 1, n - 1);
    }
}

/// The cache after the read-ahead of the sectors from `end` on has come to
/// sector `k`: sectors it holds are passed over as they are, and each run of
/// others is stored, if the drive has all of it.
pub open spec fn ahead_from(c: Clock, m: Map<u32, Seq<u8>>, end: int, k: int) -> Clock
    decreases READ_AHEAD - k,
{
    if k >= READ_AHEAD {
        c
    } else if c.cached((end + k) as u32) {
        ahead_from(c, m, end, k + 1)
    } else {
        let run = gap(c, end + k, READ_AHEAD - k);
        let l = (end + k) as u32;
        let d = if in_range(l, run as u8) && all_in(m, l, run) {
            inserted_run(c, l, run as nat, sector_bytes(m, l, run as nat))
        } else {
            c
        };
        proof {
            lemma_gap(c, end + k, READ_AHEAD - k);
        }
        ahead_from(d, m, end, k + run)
    }
}

/// The cache after a read of `n` sectors from `lba` on: one that continues the
/// last read fetches the sectors behind it too.
pub open spec fn read_through(c: Clock, m: Map<u32, Seq<u8>>, lba: u32, n: nat, sequential: bool) -> Clock {
    let w = walked(c, m, lba, n).0;
    if sequential {
        ahead_from(w, m, lba + n, 0)
    } else {
        w
    }
}

/// A read that failed stopped at a sector not cached, after the ones before it.
pub open spec fn stopped(
    before: Cache,
    m: Map<u32, Seq<u8>>,
    lba: u32,
    count: nat,
    after: Cache,
) -> bool {
    exists|n: nat|
        n < count && {
            let (p, hits) = #[trigger] walked(before@, m, lba, n);
            &&& after@ == p
            &&& !p.cached((lba + n) as u32)
            &&& after.hits_spec() == before.hits_spec() + hits
            &&& after.misses_spec() == before.misses_spec() + n - hits
            &&& after.seq_end() == before.seq_end()
        }
}

/// Cached read of `count` sectors from `lba` on into the front of `buf`. Misses
/// that follow each other become one transfer. A read that starts where the
/// last one ended fetches the next [`READ_AHEAD`] sectors too, as far as they
/// are to be had.
#[verifier::rlimit(80)]
#[verifier::spinoff_prover]
pub fn read(dev: &AtaDrive, c: &mut Cache, lba: u32, count: u8, buf: &mut [u8]) -> (r: Result<
    (),
    AtaError,
>)
    requires
        dev.wf(),
        old(c).wf(),
        coherent(old(c)@, dev@),
        count > 0,
        count * 512 <= old(buf)@.len(),
        lba + count - 1 <= u32::MAX,
        old(c).hits_spec() + count <= usize::MAX,
        old(c).misses_spec() + count <= usize::MAX,
    ensures
        final(c).wf(),
        coherent(final(c)@, dev@),
        grown(old(c)@, dev@, final(c)@),
        final(buf)@.len() == old(buf)@.len(),
        match r {
            Ok(_) => {
                &&& final(buf)@ == splice(
                    old(buf)@,
                    0,
                    sectors_of(old(c)@, dev@, lba, count as nat),
                )
                &&& in_range(lba, count)
                &&& forall|l: u32| lba <= l < lba + count ==> #[trigger] at_hand(old(c)@, dev@, l)
                &&& final(c).seq_end() == Some((lba + count) as u32)
                &&& final(c).hits_spec() == old(c).hits_spec() + walked(
                    old(c)@,
                    dev@,
                    lba,
                    count as nat,
                ).1
                &&& final(c).misses_spec() == old(c).misses_spec() + count - walked(
                    old(c)@,
                    dev@,
                    lba,
                    count as nat,
                ).1
                &&& final(c).hits_spec() - old(c).hits_spec() + final(c).misses_spec() - old(c).misses_spec() == count
                &&& final(c)@ == read_through(
                    old(c)@,
                    dev@,
                    lba,
                    count as nat,
                    old(c).seq_end() == Some(lba),
                )
                &&& all_cached(old(c)@, lba, count as int) ==> final(c).hits_spec() == old(c).hits_spec() + count
                &&& none_cached(old(c)@, lba as int, lba + count) ==> final(c).misses_spec()
                    == old(c).misses_spec() + count
            },
            Err(AtaError::OutOfRange) => !in_range(lba, count),
            Err(AtaError::Pending(l)) => lba <= l < lba + count && !dev@.contains_key(l) && !(
            all_cached(old(c)@, lba, count as int)),
            Err(_) => false,
        },
        forall|l: u32| #[trigger]
            final(c)@.contents().contains_key(l) ==> old(c)@.contents().contains_key(l) || lba <= l
                < lba + count || (r is Ok && old(c).seq_end() == Some(lba) && lba + count <= l < lba
                + count + READ_AHEAD),
        r is Err ==> stopped(*old(c), dev@, lba, count as nat, *final(c)),
        in_range(lba, count) && (all_in(dev@, lba, count as int) || all_cached(
            old(c)@,
            lba,
            count as int,
        )) ==> r is Ok,
        forall|q: int| #[trigger]
            room(old(c)@, q) && q >= count + READ_AHEAD && r is Ok ==> {
                &&& room(final(c)@, q - count - READ_AHEAD)
                &&& all_cached(final(c)@, lba, count as int)
                &&& forall|l: u32|
                    old(c)@.contents().contains_key(l) ==> #[trigger] final(c)@.contents().contains_key(l)
                &&& old(c).seq_end() == Some(lba) && lba + count
                    + READ_AHEAD - 1 <= LBA28_MAX && all_in(
                    dev@,
                    (lba + count) as u32,
                    READ_AHEAD as int,
                ) ==> all_cached(final(c)@, (lba + count) as u32, READ_AHEAD as int)
            },
{
    let total = buf.len();
    let sequential = c.seq_valid && lba == c.last_seq_end;
    let cnt = count as u32;
    let ghost c0 = c@;
    let ghost want = sectors_of(c0, dev@, lba, count as nat);
    let mut i: u32 = 0;
    let ghost mut stored: int = 0;
    assert(buf@ =~= splice(old(buf)@, 0, want.take(0)));
    while i < cnt
        invariant
            dev.wf(),
            c.wf(),
            c0 == old(c)@,
            c0.wf(),
            coherent(c0, dev@),
            coherent(c@, dev@),
            grown(c0, dev@, c@),
            cnt == count,
            0 < count,
            count * 512 <= total,
            total == buf@.len() == old(buf)@.len(),
            lba + count - 1 <= u32::MAX,
            i <= cnt,
            i > 0 ==> lba + i - 1 <= LBA28_MAX,
            want == sectors_of(c0, dev@, lba, count as nat),
            forall|l: u32| lba <= l < lba + i ==> #[trigger] at_hand(c0, dev@, l),
            buf@ == splice(old(buf)@, 0, want.take(512 * i)),
            c.hits + c.misses == old(c).hits + old(c).misses + i,
            (c@, (c.hits - old(c).hits) as nat) == walked(c0, dev@, lba, i as nat),
            forall|l: u32| #[trigger]
                c@.contents().contains_key(l) ==> c0.contents().contains_key(l) || lba <= l < lba
                    + i,
            old(c).hits <= c.hits <= old(c).hits + i,
            old(c).misses <= c.misses <= old(c).misses + i,
            old(c).hits + count <= usize::MAX,
            old(c).misses + count <= usize::MAX,
            c.seq_valid == old(c).seq_valid,
            c.last_seq_end == old(c).last_seq_end,
            all_cached(c0, lba, count as int) ==> c.misses == old(c).misses && c@.contents()
                == c0.contents(),
            none_cached(c0, lba as int, lba + count) ==> c.hits == old(c).hits && none_cached(
                c@,
                lba + i,
                lba + count,
            ),
            0 <= stored <= i,
            forall|q: int| #[trigger]
                room(c0, q) && q >= count + READ_AHEAD ==> {
                    &&& room(c@, q - stored)
                    &&& all_cached(c@, lba, i as int)
                    &&& forall|l: u32|
                        c0.contents().contains_key(l) ==> #[trigger] c@.contents().contains_key(l)
                },
        decreases cnt - i,
    {
        let s = lba + i;
        let ghost before = c@;
        proof {
            law_touch(before, s);
        }
        match c.find(s) {
            Some(data) => {
                let dst = 512 * (i as usize);
                let ghost b0 = buf@;
                proof {
                    lemma_slot(before, before.slot_of(s), s);
                    assert(before.holds(before.slot_of(s), s));
                    assert(data@.len() == 512);
                    assert(data@ == sector_of(c0, dev@, s));
                    assert forall|q: int| #[trigger] room(c0, q) && q >= count
                        + READ_AHEAD implies room(c@, q - stored) by {
                        law_room_touch(before, s, q - stored);
                    }
                }
                put_bytes(buf, dst, data.as_slice());
                assert(buf@ =~= splice(old(buf)@, 0, want.take(512 * (i + 1)))) by {
                    assert forall|j: int| 512 * i <= j < 512 * (i + 1) implies want[j] == data@[j
                        - 512 * i] by {
                        assert(j / 512 == i && j % 512 == j - 512 * i);
                    }
                }
                c.hits = c.hits + 1;
                i += 1;
            },
            None => {
                let mut run: u32 = 1;
                while i + run < cnt && c.position(lba + i + run).is_none()
                    invariant
                        1 <= run,
                        i + run <= cnt,
                        s == lba + i,
                        !c@.cached(s),
                        none_cached(c@, s as int, s + run),
                        cnt == count,
                        lba + count - 1 <= u32::MAX,
                    decreases cnt - i - run,
                {
                    run += 1;
                }
                let from = 512 * (i as usize);
                let ghost b0 = buf@;
                proof {
                    assert(!c0.cached(s) || !all_cached(c0, lba, count as int)) by {
                        if all_cached(c0, lba, count as int) {
                            assert(c0.contents().contains_key(s));
                            assert(before.contents().contains_key(s));
                        }
                    }
                }
                match dev.read_sectors_raw(s, run as u8, buf, from) {
                    Ok(_) => {},
                    Err(e) => {
                        proof {
                            if all_cached(c0, lba, count as int) {
                                assert(c0.contents().contains_key(s));
                                assert(before.contents().contains_key(s));
                            }
                        }
                        assert(stopped(*old(c), dev@, lba, count as nat, *c)) by {
                            assert(walked(c0, dev@, lba, i as nat).0 == c@);
                        }
                        return Err(e);
                    },
                }
                proof {
                    dev.lemma_wf();
                    let got = sector_bytes(dev@, s, run as nat);
                    assert(buf@.subrange(from as int, from + 512 * run) =~= got);
                    assert(buf@ =~= splice(old(buf)@, 0, want.take(512 * (i + run)))) by {
                        assert forall|j: int|
                            512 * i <= j < 512 * (i + run) implies want[j] == got[j - 512 * i] by {
                            let l = (lba + j / 512) as u32;
                            assert((j - 512 * i) / 512 == j / 512 - i);
                            assert((j - 512 * i) % 512 == j % 512);
                            assert(s + (j - 512 * i) / 512 == l);
                            assert(dev@.contains_key(l));
                            assert(sector_of(c0, dev@, l) == dev@[l]);
                        }
                    }
                }
                proof {
                    assert(c@ == before);
                    assert forall|l: u32| lba + i <= l < lba + i + run implies (
                    #[trigger] dev@[l]).len() == 512 by {
                        assert(dev@.contains_key(l));
                    }
                    lemma_walk_run(c0, dev@, lba, i as nat, run as nat);
                }
                store_run(c, dev, s, run, buf, from);
                proof {
                    assert(grown(c0, dev@, c@)) by {
                        assert forall|x: u32| #[trigger] c@.contents().contains_key(x) implies (
                        c0.contents().contains_key(x) || dev@.contains_key(x)) && c@.contents()[x]
                            == sector_of(c0, dev@, x) by {
                            if before.contents().contains_key(x) {
                            } else {
                                assert(dev@.contains_key(x));
                            }
                        }
                    }
                    assert forall|q: int| #[trigger] room(c0, q) && q >= count + READ_AHEAD implies {
                        &&& room(c@, q - stored - run)
                        &&& all_cached(c@, lba, i + run)
                        &&& forall|l: u32|
                            c0.contents().contains_key(l)
                                ==> #[trigger] c@.contents().contains_key(l)
                    } by {
                        assert(room(before, q - stored));
                        assert(room(before.touched(s), q - stored));
                    }
                    stored = stored + run;
                }
                c.misses = c.misses + run as usize;
                i += run;
            },
        }
    }
    assert(want.take(512 * count) =~= want);
    c.seq_valid = true;
    c.last_seq_end = lba + cnt;
    if sequential {
        read_ahead(dev, c, lba + cnt);
        proof {
            assert forall|q: int| #[trigger] room(c0, q) && q >= count + READ_AHEAD implies {
                &&& room(c@, q - count - READ_AHEAD)
                &&& all_cached(c@, lba, count as int)
                &&& forall|l: u32|
                    c0.contents().contains_key(l) ==> #[trigger] c@.contents().contains_key(l)
            } by {
            }
        }
    }
    Ok(())
}

/// Fetch the [`READ_AHEAD`] sectors from `end` on that are not cached yet, as
/// far as they are to be had.
fn read_ahead(dev: &AtaDrive, c: &mut Cache, end: u32)
    requires
        dev.wf(),
        old(c).wf(),
        coherent(old(c)@, dev@),
        end <= LBA28_MAX + 1,
    ensures
        final(c).wf(),
        coherent(final(c)@, dev@),
        grown(old(c)@, dev@, final(c)@),
        final(c).same_counters(*old(c)),
        final(c)@ == ahead_from(old(c)@, dev@, end as int, 0),
        forall|l: u32| #[trigger]
            final(c)@.contents().contains_key(l) ==> old(c)@.contents().contains_key(l) || end <= l
                < end + READ_AHEAD,
        forall|q: int| #[trigger]
            room(old(c)@, q) && q >= READ_AHEAD ==> {
                &&& room(final(c)@, q - READ_AHEAD)
                &&& forall|l: u32|
                    old(c)@.contents().contains_key(l) ==> #[trigger] final(c)@.contents().contains_key(l)
                &&& end + READ_AHEAD - 1 <= LBA28_MAX && all_in(dev@, end, READ_AHEAD as int)
                    ==> all_cached(final(c)@, end, READ_AHEAD as int)
            },
{
    let mut scratch = zeros(READ_AHEAD * SECTOR_SIZE);
    let ghost c0 = c@;
    let ghost mut stored: int = 0;
    let mut k: u32 = 0;
    while k < READ_AHEAD as u32
        invariant
            dev.wf(),
            c.wf(),
            c0 == old(c)@,
            coherent(c0, dev@),
            coherent(c@, dev@),
            grown(c0, dev@, c@),
            c.same_counters(*old(c)),
            forall|l: u32| #[trigger]
                c@.contents().contains_key(l) ==> c0.contents().contains_key(l) || end <= l < end
                    + READ_AHEAD,
            k <= READ_AHEAD,
            end <= LBA28_MAX + 1,
            ahead_from(c@, dev@, end as int, k as int) == ahead_from(c0, dev@, end as int, 0),
            scratch@.len() == 2048,
            0 <= stored <= k,
            forall|q: int| #[trigger]
                room(c0, q) && q >= READ_AHEAD ==> {
                    &&& room(c@, q - stored)
                    &&& forall|l: u32|
                        c0.contents().contains_key(l) ==> #[trigger] c@.contents().contains_key(l)
                    &&& end + READ_AHEAD - 1 <= LBA28_MAX && all_in(dev@, end, READ_AHEAD as int)
                        ==> all_cached(c@, end, k as int)
                },
        decreases READ_AHEAD - k,
    {
        let s = end + k;
        let ghost before = c@;
        if c.position(s).is_some() {
            assert(c@.contents().contains_key(s));
            k += 1;
        } else {
            let mut run: u32 = 1;
            while run < READ_AHEAD as u32 - k && c.position(s + run).is_none()
                invariant
                    1 <= run <= READ_AHEAD - k,
                    s == end + k,
                    end <= LBA28_MAX + 1,
                    k < READ_AHEAD,
                    gap(c@, s as int, READ_AHEAD - k) == run + gap(c@, s + run, READ_AHEAD - k - run),
                decreases READ_AHEAD - k - run,
            {
                run += 1;
            }
            assert(gap(c@, s as int, READ_AHEAD - k) == run);
            let from = 512 * (k as usize);
            match dev.read_sectors_raw(s, run as u8, scratch.as_mut_slice(), from) {
                Ok(_) => {
                    assert(scratch@.subrange(from as int, from + 512 * run) =~= sector_bytes(
                        dev@,
                        s,
                        run as nat,
                    ));
                    store_run(c, dev, s, run, scratch.as_slice(), from);
                    proof {
                        assert(grown(c0, dev@, c@)) by {
                            assert forall|x: u32| #[trigger] c@.contents().contains_key(x) implies (
                            c0.contents().contains_key(x) || dev@.contains_key(x))
                                && c@.contents()[x] == sector_of(c0, dev@, x) by {
                                if before.contents().contains_key(x) {
                                } else {
                                    assert(dev@.contains_key(x));
                                }
                            }
                        }
                        assert forall|q: int| #[trigger] room(c0, q) && q >= READ_AHEAD implies {
                            &&& room(c@, q - stored - run)
                            &&& forall|l: u32|
                                c0.contents().contains_key(l)
                                    ==> #[trigger] c@.contents().contains_key(l)
                            &&& end + READ_AHEAD - 1 <= LBA28_MAX && all_in(
                                dev@,
                                end,
                                READ_AHEAD as int,
                            ) ==> all_cached(c@, end, k + run)
                        } by {
                            assert(room(before, q - stored));
                        }
                        stored = stored + run;
                    }
                },
                Err(e) => {
                    proof {
                        if end + READ_AHEAD - 1 <= LBA28_MAX && all_in(
                            dev@,
                            end,
                            READ_AHEAD as int,
                        ) {
                            match e {
                                AtaError::Pending(l) => {
                                    assert(dev@.contains_key(l));
                                },
                                _ => {},
                            }
                        }
                    }
                },
            }
            k += run;
        }
    }
    proof {
        assert forall|q: int| #[trigger] room(c0, q) && q >= READ_AHEAD implies room(
            c@,
            q - READ_AHEAD,
        ) by {
            assert(room(c@, q - stored));
        }
    }
}

/// Write `count` sectors from the front of `buf` to `lba` on: to the drive
/// first, then into the cache. A write ends a run of sequential reads.
pub fn write(dev: &mut AtaDrive, c: &mut Cache, lba: u32, count: u8, buf: &[u8]) -> (r: Result<
    (),
    AtaError,
>)
    requires
        old(dev).wf(),
        old(c).wf(),
        coherent(old(c)@, old(dev)@),
        count > 0,
        count * 512 <= buf@.len(),
    ensures
        final(dev).wf(),
        final(c).wf(),
        coherent(final(c)@, final(dev)@),
        r is Ok <==> in_range(lba, count),
        r is Err ==> r == Err::<(), AtaError>(AtaError::OutOfRange) && final(dev)@ == old(dev)@
            && final(dev).log() == old(dev).log() && *final(c) == *old(c),
        r is Ok ==> {
            &&& final(dev)@ == with_sectors(old(dev)@, lba, count as nat, buf@)
            &&& final(dev).log() == old(dev).log() + Seq::new(
                count as nat,
                |i: int| (lba + i) as u32,
            )
            &&& final(c)@ == inserted_run(old(c)@, lba, count as nat, buf@)
            &&& final(c).seq_end() is None
            &&& final(c).hits_spec() == old(c).hits_spec()
            &&& final(c).misses_spec() == old(c).misses_spec()
            &&& forall|l: u32| #[trigger]
                final(c)@.contents().contains_key(l) && !(lba <= l < lba + count) ==> old(c)@.contents().contains_key(l) && final(c)@.contents()[l] == old(c)@.contents()[l]
        },
{
    match dev.write_sectors_raw(lba, count, buf) {
        Ok(_) => {},
        Err(e) => return Err(e),
    }
    let _len = buf.len();
    let ghost m = dev@;
    let ghost c0 = c@;
    let mut k: u32 = 0;
    while k < count as u32
        invariant
            c.wf(),
            c0 == old(c)@,
            coherent(c0, old(dev)@),
            m == with_sectors(old(dev)@, lba, count as nat, buf@),
            k <= count,
            in_range(lba, count),
            count * 512 <= buf@.len(),
            _len == buf@.len(),
            c@ == inserted_run(c0, lba, k as nat, buf@),
            c.hits == old(c).hits,
            c.misses == old(c).misses,
            forall|l: u32| #[trigger]
                c@.contents().contains_key(l) && !(lba <= l < lba + k) ==> c0.contents().contains_key(
                    l,
                ) && c@.contents()[l] == c0.contents()[l],
            forall|l: u32| #[trigger]
                c@.contents().contains_key(l) && lba <= l < lba + k ==> c@.contents()[l] == m[l],
        decreases count - k,
    {
        let off = 512 * (k as usize);
        let sec = copy_range(buf, off, off + 512);
        let l = lba + k;
        proof {
            law_insert(c@, l, sec@);
            assert(m[l] =~= sec@);
            reveal_with_fuel(inserted_run, 2);
        }
        c.insert(l, sec);
        k += 1;
    }
    c.seq_valid = false;
    assert(coherent(c@, dev@)) by {
        assert forall|l: u32| c@.contents().contains_key(l) && dev@.contains_key(l) implies
            c@.contents()[l] == dev@[l] by {
            if !(lba <= l < lba + count) {
                assert(c0.contents().contains_key(l));
                assert(old(dev)@.contains_key(l));
            }
        }
    }
    Ok(())
}

/// Forget every cached sector. Nothing waits to be written.
pub fn flush(c: &mut Cache)
    requires
        old(c)@.wf(),
    ensures
        final(c).wf(),
        final(c)@.contents() == Map::<u32, Seq<u8>>::empty(),
        room(final(c)@, CACHE_ENTRIES as int),
        final(c).seq_end() is None,
        final(c).hits_spec() == old(c).hits_spec(),
        final(c).misses_spec() == old(c).misses_spec(),
{
    let n = c.entries.len();
    let mut i: usize = 0;
    assert forall|k: int| 0 <= k < n implies (#[trigger] c.entries@[k]).data@.len() == 512 by {
        assert(c@.slots[k].data.len() == 512);
    }
    while i < n
        invariant
            n == c.entries@.len() == CACHE_ENTRIES,
            i <= n,
            c.next == old(c).next,
            c.hits == old(c).hits,
            c.misses == old(c).misses,
            forall|k: int| 0 <= k < n ==> (#[trigger] c.entries@[k]).data@.len() == 512,
            forall|k: int| 0 <= k < i ==> !(#[trigger] c.entries@[k]).valid,
        decreases n - i,
    {
        c.entries[i].valid = false;
        c.entries[i].dwell = false;
        i += 1;
    }
    c.seq_valid = false;
    proof {
        assert forall|i: int, l: u32| !#[trigger] c@.holds(i, l) by {}
        assert(c@.packed()) by {
            reveal(Clock::packed);
        }
        assert(c@.contents() =~= Map::<u32, Seq<u8>>::empty());
    }
}

/// Set the hit and miss counters to zero.
pub fn reset_stats(c: &mut Cache)
    ensures
        final(c)@ == old(c)@,
        final(c).hits_spec() == 0,
        final(c).misses_spec() == 0,
        final(c).seq_end() == old(c).seq_end(),
{
    c.hits = 0;
    c.misses = 0;
    assert(c@ =~= old(c)@);
}

/// Hits and misses since the last reset.
pub fn stats(c: &Cache) -> (r: (usize, usize))
    ensures
        r == (c.hits_spec(), c.misses_spec()),
{
    (c.hits, c.misses)
}

/// Is the sector cached? Its second chance stays as it is.
pub fn is_cached(c: &Cache, lba: u32) -> (r: bool)
    ensures
        r == c@.contents().contains_key(lba),
{
    c.position(lba).is_some()
}

/// Where the last read ended, if nothing broke the run since.
pub fn last_seq_end(c: &Cache) -> (r: Option<u32>)
    ensures
        r == c.seq_end(),
{
    if c.seq_valid {
        Some(c.last_seq_end)
    } else {
        None
    }
}

impl AtaDrive {
    /// Cached read: what every file-system read goes through.
    pub fn read_sectors(&self, c: &mut Cache, lba: u32, count: u8, buf: &mut [u8]) -> (r: Result<
        (),
        AtaError,
    >)
        requires
            self.wf(),
            old(c).wf(),
            coherent(old(c)@, self@),
            count > 0,
            count * 512 <= old(buf)@.len(),
            lba + count - 1 <= u32::MAX,
            old(c).hits_spec() + count <= usize::MAX,
            old(c).misses_spec() + count <= usize::MAX,
        ensures
            final(c).wf(),
            coherent(final(c)@, self@),
            grown(old(c)@, self@, final(c)@),
            final(buf)@.len() == old(buf)@.len(),
            match r {
                Ok(_) => {
                    &&& final(buf)@ == splice(
                        old(buf)@,
                        0,
                        sectors_of(old(c)@, self@, lba, count as nat),
                    )
                    &&& in_range(lba, count)
                    &&& forall|l: u32| lba <= l < lba + count ==> #[trigger] at_hand(old(c)@, self@, l)
                    &&& final(c).seq_end() == Some((lba + count) as u32)
                    &&& final(c).hits_spec() == old(c).hits_spec() + walked(
                        old(c)@,
                        self@,
                        lba,
                        count as nat,
                    ).1
                    &&& final(c).misses_spec() == old(c).misses_spec() + count - walked(
                        old(c)@,
                        self@,
                        lba,
                        count as nat,
                    ).1
                    &&& final(c).hits_spec() - old(c).hits_spec() + final(c).misses_spec() - old(c).misses_spec() == count
                    &&& final(c)@ == read_through(
                        old(c)@,
                        self@,
                        lba,
                        count as nat,
                        old(c).seq_end() == Some(lba),
                    )
                    &&& all_cached(old(c)@, lba, count as int) ==> final(c).hits_spec() == old(c).hits_spec() + count
                    &&& none_cached(old(c)@, lba as int, lba + count) ==> final(c).misses_spec()
                        == old(c).misses_spec() + count
                },
                Err(AtaError::OutOfRange) => !in_range(lba, count),
                Err(AtaError::Pending(l)) => lba <= l < lba + count && !self@.contains_key(l) && !(
                all_cached(old(c)@, lba, count as int)),
                Err(_) => false,
            },
            forall|l: u32| #[trigger]
                final(c)@.contents().contains_key(l) ==> old(c)@.contents().contains_key(l) || lba <= l
                    < lba + count || (r is Ok && old(c).seq_end() == Some(lba) && lba + count <= l < lba
                    + count + READ_AHEAD),
            r is Err ==> stopped(*old(c), self@, lba, count as nat, *final(c)),
            in_range(lba, count) && (all_in(self@, lba, count as int) || all_cached(
                old(c)@,
                lba,
                count as int,
            )) ==> r is Ok,
            forall|q: int| #[trigger]
                room(old(c)@, q) && q >= count + READ_AHEAD && r is Ok ==> {
                    &&& room(final(c)@, q - count - READ_AHEAD)
                    &&& all_cached(final(c)@, lba, count as int)
                    &&& forall|l: u32|
                        old(c)@.contents().contains_key(l) ==> #[trigger] final(c)@.contents().contains_key(l)
                    &&& old(c).seq_end() == Some(lba) && lba + count
                        + READ_AHEAD - 1 <= LBA28_MAX && all_in(
                        self@,
                        (lba + count) as u32,
                        READ_AHEAD as int,
                    ) ==> all_cached(final(c)@, (lba + count) as u32, READ_AHEAD as int)
                },
    {
        read(self, c, lba, count, buf)
    }

    /// Cached, write-through write: what every file-system write goes through.
    pub fn write_sectors(&mut self, c: &mut Cache, lba: u32, count: u8, buf: &[u8]) -> (r: Result<
        (),
        AtaError,
    >)
        requires
            old(self).wf(),
            old(c).wf(),
            coherent(old(c)@, old(self)@),
            count > 0,
            count * 512 <= buf@.len(),
        ensures
            final(self).wf(),
            final(c).wf(),
            coherent(final(c)@, final(self)@),
            r is Ok <==> in_range(lba, count),
            r is Err ==> r == Err::<(), AtaError>(AtaError::OutOfRange) && final(self)@ == old(self)@
                && final(self).log() == old(self).log() && *final(c) == *old(c),
            r is Ok ==> {
                &&& final(self)@ == with_sectors(old(self)@, lba, count as nat, buf@)
                &&& final(self).log() == old(self).log() + Seq::new(
                    count as nat,
                    |i: int| (lba + i) as u32,
                )
                &&& final(c)@ == inserted_run(old(c)@, lba, count as nat, buf@)
                &&& final(c).seq_end() is None
                &&& final(c).hits_spec() == old(c).hits_spec()
                &&& final(c).misses_spec() == old(c).misses_spec()
                &&& forall|l: u32| #[trigger]
                    final(c)@.contents().contains_key(l) && !(lba <= l < lba + count) ==> old(c)@.contents().contains_key(l) && final(c)@.contents()[l] == old(c)@.contents()[l]
            },
    {
        write(self, c, lba, count, buf)
    }
}

/// What the cache's self-test saw.
#[derive(Clone, Copy, PartialEq, Eq, Debug)]
pub struct BlkTest {
    /// A cold and a hot read gave the same bytes.
    pub data_equal: bool,
    /// Hits and misses after the two reads.
    pub hits: usize,
    pub misses: usize,
    /// A written sector read back the same from the cache and, after a flush,
    /// from the drive.
    pub write_through: bool,
    /// Two reads in a row left the sectors after them cached.
    pub read_ahead: bool,
}

/// The cache's self-test: cold and hot read of `count` sectors at `lba`,
/// write-through of one sector at `scratch`, and the read-ahead probe at `base`.
#[verifier::rlimit(60)]
pub fn blk_test(
    dev: &mut AtaDrive,
    c: &mut Cache,
    lba: u32,
    count: u8,
    scratch: u32,
    msg: &[u8],
    base: u32,
) -> (r: BlkTest)
    requires
        old(dev).wf(),
        old(c).wf(),
        0 < count <= 128,
        in_range(lba, count),
        all_in(old(dev)@, lba, count as int),
        in_range(scratch, 1),
        msg@.len() == 512,
        base + 12 - 1 <= LBA28_MAX,
        all_in(old(dev)@, base, 12),
    ensures
        final(dev).wf(),
        final(c).wf(),
        coherent(final(c)@, final(dev)@),
        final(dev)@ == old(dev)@.insert(scratch, msg@),
        forall|l: u32| #[trigger] final(c)@.contents().contains_key(l) <==> base <= l < base + 12,
        all_cached(final(c)@, base, 12),
        final(c).hits_spec() == 0,
        final(c).misses_spec() == 8,
        final(c).seq_end() == Some((base + 8) as u32),
        r.data_equal,
        r.hits == count,
        r.misses == count,
        r.write_through,
        r.read_ahead,
{
    let n = 512 * (count as usize);
    let mut buf = zeros(n);
    let mut buf2 = zeros(n);
    flush(c);
    reset_stats(c);
    let cold = read(dev, c, lba, count, buf.as_mut_slice());
    assert(cold is Ok);
    assert(room(c@, CACHE_ENTRIES - count - READ_AHEAD));
    let ghost warm = c@;
    let hot = read(dev, c, lba, count, buf2.as_mut_slice());
    let (hits, misses) = stats(c);
    proof {
        let m = dev@;
        assert forall|k: int| 0 <= k < n implies sectors_of(warm, m, lba, count as nat)[k]
            == m[(lba + k / 512) as u32][k % 512] by {
            let l = (lba + k / 512) as u32;
            assert(m.contains_key(l));
        }
        assert(buf@ =~= buf2@);
    }
    let data_equal = cold.is_ok() && hot.is_ok() && crate::bytes::same_bytes(
        buf.as_slice(),
        buf2.as_slice(),
    );
    let ghost m0 = dev@;
    let wok = write(dev, c, scratch, 1, msg);
    let mut b1 = zeros(512);
    let mut b2 = zeros(512);
    reset_stats(c);
    let ghost m1 = dev@;
    proof {
        assert(msg@.subrange(0, 512) =~= msg@);
        assert(m1 =~= m0.insert(scratch, msg@));
        assert(all_in(m1, scratch, 1));
    }
    let ghost c1 = c@;
    let r1 = read(dev, c, scratch, 1, b1.as_mut_slice());
    proof {
        assert(sector_of(c1, m1, scratch) == msg@);
        assert(b1@ =~= msg@) by {
            assert forall|k: int| 0 <= k < 512 implies b1@[k] == msg@[k] by {
                assert(k / 512 == 0 && k % 512 == k);
            }
        }
    }
    flush(c);
    let ghost c2 = c@;
    let r2 = read(dev, c, scratch, 1, b2.as_mut_slice());
    proof {
        assert(sector_of(c2, m1, scratch) == msg@);
        assert(b2@ =~= msg@) by {
            assert forall|k: int| 0 <= k < 512 implies b2@[k] == msg@[k] by {
                assert(k / 512 == 0 && k % 512 == k);
            }
        }
    }
    let write_through = wok.is_ok() && r1.is_ok() && r2.is_ok() && crate::bytes::same_bytes(
        b1.as_slice(),
        msg,
    ) && crate::bytes::same_bytes(b2.as_slice(), msg);
    flush(c);
    reset_stats(c);
    let mut p1 = zeros(2048);
    let mut p2 = zeros(2048);
    proof {
        assert forall|l: u32| base <= l < base + 12 implies #[trigger] m1.contains_key(l) by {
            assert(old(dev)@.contains_key(l));
        }
    }
    let q1 = read(dev, c, base, 4, p1.as_mut_slice());
    assert(room(c@, CACHE_ENTRIES - 8));
    assert(none_cached(c@, base + 4, base + 8));
    let q2 = read(dev, c, base + 4, 4, p2.as_mut_slice());
    assert(all_cached(c@, (base + 8) as u32, 4));
    let read_ahead = q1.is_ok() && q2.is_ok() && is_cached(c, base + 8) && is_cached(c, base + 9)
        && is_cached(c, base + 10) && is_cached(c, base + 11);
    BlkTest { data_equal, hits, misses, write_through, read_ahead }
}

} // verus!
