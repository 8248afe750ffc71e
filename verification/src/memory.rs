//! Physical memory management: a frame allocator over the boot memory map, and
//! the page-table walk that validates user pointers.
//!
//! Physical memory is seen through a window of 64-bit words: word `k` of the
//! window is the eight bytes at physical address `8 * k`.
use vstd::prelude::*;

verus! {

/// Bytes in one frame.
pub const FRAME_SIZE: u64 = 4096;

/// One past the highest physical address (52 bits).
pub const PHYS_LIMIT: u64 = 0x10_0000_0000_0000;

/// One region of the boot memory map.
#[derive(Clone, Copy, PartialEq, Eq, Debug)]
pub struct MemoryRegion {
    pub start: u64,
    /// One past the last byte.
    pub end: u64,
    /// Free for the kernel to hand out.
    pub usable: bool,
}

impl MemoryRegion {
    /// A region of the physical address space.
    pub open spec fn wf(self) -> bool {
        self.start <= self.end <= PHYS_LIMIT
    }
}

/// `a` rounded up to a frame boundary.
pub open spec fn frame_up(a: int) -> int {
    (a + 4095) / 4096 * 4096
}

/// What the allocator holds, without its encoding in memory.
#[verifier::ext_equal]
pub struct FrameView {
    pub regions: Seq<MemoryRegion>,
    /// Frames at or above this address were never handed out.
    pub bump: int,
    /// Freed frames; the last one is handed out next.
    pub free: Seq<u64>,
    /// Frames handed out and not freed since.
    pub issued: Set<u64>,
}

/// The frame that the regions from `k` on offer at or above `bump`: the first
/// whole frame of the first usable region that has one.
pub open spec fn fresh_frame(regions: Seq<MemoryRegion>, k: int, bump: int) -> Option<u64>
    decreases regions.len() - k,
{
    if k < 0 || k >= regions.len() {
        None
    } else {
        let lo = frame_up(regions[k].start as int);
        let cand = if lo >= bump { lo } else { bump };
        if regions[k].usable && cand + 4096 <= regions[k].end {
            Some(cand as u64)
        } else {
            fresh_frame(regions, k + 1, bump)
        }
    }
}

/// Usable frames in the first `k` regions.
pub open spec fn usable_frames(regions: Seq<MemoryRegion>, k: int) -> int
    decreases k,
{
    if k <= 0 {
        0
    } else {
        usable_frames(regions, k - 1) + if regions[k - 1].usable {
            (regions[k - 1].end - regions[k - 1].start) / 4096
        } else {
            0
        }
    }
}

impl FrameView {
    /// The frame that the next allocation returns.
    pub open spec fn next(self) -> Option<u64> {
        if self.free.len() > 0 {
            Some(self.free.last())
        } else {
            fresh_frame(self.regions, 0, self.bump)
        }
    }

    /// The state after one allocation.
    pub open spec fn after_alloc(self) -> FrameView {
        match self.next() {
            None => self,
            Some(f) => if self.free.len() > 0 {
                FrameView {
                    free: self.free.drop_last(),
                    issued: self.issued.insert(f),
                    ..self
                }
            } else {
                FrameView { bump: f + 4096, issued: self.issued.insert(f), ..self }
            },
        }
    }

    /// The state after `f` is freed. Address zero ends the list in memory, so
    /// freeing frame zero drops everything that was on it.
    pub open spec fn after_free(self, f: u64) -> FrameView {
        FrameView {
            free: if f == 0 {
                Seq::empty()
            } else {
                self.free.push(f)
            },
            issued: self.issued.remove(f),
            ..self
        }
    }

    /// No frame is in two places, and none of them is still to be bumped.
    pub open spec fn wf(self) -> bool {
        &&& self.issued.finite()
        &&& 0 <= self.bump <= PHYS_LIMIT
        &&& self.bump % 4096 == 0
        &&& self.issued.len() + self.free.len() <= self.bump / 4096
        &&& forall|k: int| 0 <= k < self.regions.len() ==> (#[trigger] self.regions[k]).wf()
        &&& forall|f: u64| #[trigger]
            self.issued.contains(f) ==> f < self.bump && f % 4096 == 0
        &&& forall|i: int|
            0 <= i < self.free.len() ==> 0 < #[trigger] self.free[i] < self.bump && self.free[i]
                % 4096 == 0 && !self.issued.contains(self.free[i])
        &&& self.free.no_duplicates()
    }

    /// `n` allocations in a row.
    pub open spec fn after_allocs(self, n: nat) -> FrameView
        decreases n,
    {
        if n == 0 {
            self
        } else {
            self.after_allocs((n - 1) as nat).after_alloc()
        }
    }

    /// The frames that `n` allocations in a row hand out.
    pub open spec fn handed_out(self, n: nat) -> Seq<u64> {
        Seq::new(n, |i: int| self.after_allocs(i as nat).next()->0)
    }

    /// The next `n` allocations all succeed.
    pub open spec fn can_serve(self, n: nat) -> bool {
        forall|k: nat| k < n ==> (#[trigger] self.after_allocs(k)).next() is Some
    }
}

proof fn lemma_fresh_frame(regions: Seq<MemoryRegion>, k: int, bump: int)
    requires
        0 <= k,
        0 <= bump <= PHYS_LIMIT,
        bump % 4096 == 0,
        forall|i: int| 0 <= i < regions.len() ==> (#[trigger] regions[i]).wf(),
    ensures
        fresh_frame(regions, k, bump) matches Some(f) ==> f >= bump && f % 4096 == 0 && f + 4096
            <= PHYS_LIMIT,
    decreases regions.len() - k,
{
    if k < regions.len() {
        lemma_fresh_frame(regions, k + 1, bump);
        assert(regions[k].wf());
    }
}

/// The allocator keeps its invariant, and a frame is handed out at most once
/// until it is freed.
pub proof fn law_alloc_fresh(v: FrameView)
    requires
        v.wf(),
    ensures
        v.after_alloc().wf(),
        v.next() matches Some(f) ==> !v.issued.contains(f) && f % 4096 == 0 && f + 4096
            <= PHYS_LIMIT && v.after_alloc().issued == v.issued.insert(f),
        v.next() is None ==> v.after_alloc() == v,
{
    lemma_fresh_frame(v.regions, 0, v.bump);
    if v.free.len() > 0 {
        let f = v.free.last();
        assert(v.free[v.free.len() - 1] == f);
        let w = v.after_alloc();
        assert forall|i: int| 0 <= i < w.free.len() implies !w.issued.contains(
            #[trigger] w.free[i],
        ) by {
            assert(w.free[i] == v.free[i]);
        }
    }
}

/// Freeing a frame that was handed out keeps the invariant.
pub proof fn law_free_keeps_invariant(v: FrameView, f: u64)
    requires
        v.wf(),
        v.issued.contains(f),
    ensures
        v.after_free(f).wf(),
{
    let w = v.after_free(f);
    if f != 0 {
        assert forall|i: int| 0 <= i < w.free.len() implies 0 < #[trigger] w.free[i] < w.bump
            && w.free[i] % 4096 == 0 && !w.issued.contains(w.free[i]) by {
            if i < v.free.len() {
                assert(w.free[i] == v.free[i]);
            }
        }
    }
}

/// Reuse is last in, first out: free `a` then `b`, and the next two
/// allocations return `b` and then `a` and leave everything as it was.
pub proof fn law_lifo_reuse(v: FrameView, a: u64, b: u64)
    requires
        v.wf(),
        v.issued.contains(a),
        v.issued.contains(b),
        a != b,
        a != 0,
        b != 0,
    ensures
        v.after_free(a).after_free(b).next() == Some(b),
        v.after_free(a).after_free(b).after_alloc().next() == Some(a),
        v.after_free(a).after_free(b).after_alloc().after_alloc() == v,
{
    let w = v.after_free(a).after_free(b);
    let w1 = w.after_alloc();
    let w2 = w1.after_alloc();
    assert(w1.free =~= v.free.push(a));
    assert(w2.free =~= v.free);
    assert(w2.issued =~= v.issued);
}

/// Free frame `i`'s first word is the frame freed before it, 0 for none.
pub open spec fn linked(free: Seq<u64>, mem: Seq<u64>, i: int) -> bool {
    &&& free[i] as int / 8 < mem.len()
    &&& mem[free[i] as int / 8] == if i == 0 {
        0
    } else {
        free[i - 1]
    }
}

/// The links in memory spell out the list of free frames.
pub open spec fn chained(free: Seq<u64>, mem: Seq<u64>) -> bool {
    forall|i: int| 0 <= i < free.len() ==> #[trigger] linked(free, mem, i)
}

proof fn lemma_chain_push(v: FrameView, mem: Seq<u64>, frame: u64)
    requires
        v.wf(),
        chained(v.free, mem),
        v.issued.contains(frame),
        frame / 8 < mem.len(),
    ensures
        chained(
            v.after_free(frame).free,
            mem.update(
                frame as int / 8,
                if v.free.len() == 0 {
                    0
                } else {
                    v.free.last()
                },
            ),
        ),
{
    let free = v.after_free(frame).free;
    let m2 = mem.update(
        frame as int / 8,
        if v.free.len() == 0 {
            0
        } else {
            v.free.last()
        },
    );
    assert forall|i: int| 0 <= i < free.len() implies #[trigger] linked(free, m2, i) by {
        if i < v.free.len() {
            assert(linked(v.free, mem, i));
            assert(v.free[i] == free[i]);
            assert(v.free[i] != frame);
            assert(v.free[i] % 4096 == 0 && frame % 4096 == 0);
            assert(v.free[i] as int / 8 != frame as int / 8);
        }
    }
}

/// A frame allocator that hands out the usable frames of the boot memory map.
///
/// Freed frames go onto a list whose links live in the free frames themselves:
/// the first word of a free frame holds the address of the one freed before
/// it, 0 for none. Fresh frames come from a cursor that only moves up.
pub struct BootInfoFrameAllocator {
    memory_regions: Vec<MemoryRegion>,
    bump_next: u64,
    free_head: u64,
    total: u64,
    used: u64,
    freed: u64,
    oom: u64,
    free: Ghost<Seq<u64>>,
    issued: Ghost<Set<u64>>,
}

impl BootInfoFrameAllocator {
    pub closed spec fn view(&self) -> FrameView {
        FrameView {
            regions: self.memory_regions@,
            bump: self.bump_next as int,
            free: self.free@,
            issued: self.issued@,
        }
    }

    /// Usable frames in the memory map.
    pub closed spec fn total_spec(&self) -> u64 {
        self.total
    }

    /// Deallocations so far.
    pub closed spec fn freed_spec(&self) -> u64 {
        self.freed
    }

    /// Allocations that found no frame.
    pub closed spec fn oom_spec(&self) -> u64 {
        self.oom
    }

    /// The list in memory is the list of free frames.
    pub closed spec fn wf(&self, mem: Seq<u64>) -> bool {
        &&& self@.wf()
        &&& self.used == self.issued@.len()
        &&& self.total == usable_frames(self.memory_regions@, self.memory_regions@.len() as int)
        &&& self.free_head == if self.free@.len() == 0 {
            0
        } else {
            self.free@.last()
        }
        &&& chained(self.free@, mem)
    }

    /// An allocator for the usable regions, with nothing handed out.
    pub fn init(memory_regions: Vec<MemoryRegion>) -> (r: Self)
        requires
            forall|k: int| 0 <= k < memory_regions@.len() ==> (#[trigger] memory_regions@[k]).wf(),
            usable_frames(memory_regions@, memory_regions@.len() as int) <= u64::MAX,
        ensures
            forall|mem: Seq<u64>| r.wf(mem),
            r@ == (FrameView {
                regions: memory_regions@,
                bump: 0,
                free: Seq::empty(),
                issued: Set::empty(),
            }),
            r.total_spec() == usable_frames(memory_regions@, memory_regions@.len() as int),
            r.freed_spec() == 0,
            r.oom_spec() == 0,
    {
        let mut total: u64 = 0;
        let mut k: usize = 0;
        proof {
            lemma_usable_monotonic(memory_regions@, 0, memory_regions@.len() as int);
        }
        while k < memory_regions.len()
            invariant
                k <= memory_regions@.len(),
                forall|j: int|
                    0 <= j < memory_regions@.len() ==> (#[trigger] memory_regions@[j]).wf(),
                usable_frames(memory_regions@, memory_regions@.len() as int) <= u64::MAX,
                total == usable_frames(memory_regions@, k as int),
            decreases memory_regions@.len() - k,
        {
            let r = memory_regions[k];
            assert(memory_regions@[k as int].wf());
            proof {
                lemma_usable_monotonic(memory_regions@, k + 1, memory_regions@.len() as int);
            }
            if r.usable {
                total = total + (r.end - r.start) / FRAME_SIZE;
            }
            k += 1;
        }
        BootInfoFrameAllocator {
            memory_regions,
            bump_next: 0,
            free_head: 0,
            total,
            used: 0,
            freed: 0,
            oom: 0,
            free: Ghost(Seq::empty()),
            issued: Ghost(Set::empty()),
        }
    }

    /// `(used, total, freed, oom)`; `used` counts the frames handed out and not
    /// freed since.
    pub fn stats(&self) -> (r: (u64, u64, u64, u64))
        requires
            exists|mem: Seq<u64>| self.wf(mem),
        ensures
            r.0 == self@.issued.len(),
            r.1 == self.total_spec(),
            r.2 == self.freed_spec(),
            r.3 == self.oom_spec(),
    {
        (self.used, self.total, self.freed, self.oom)
    }

    /// Put a frame that was handed out back on the free list.
    pub fn deallocate_frame(&mut self, mem: &mut [u64], frame: u64)
        requires
            old(self).wf(old(mem)@),
            old(self)@.issued.contains(frame),
            frame / 8 < old(mem)@.len(),
            old(self).freed_spec() < u64::MAX,
        ensures
            final(self).wf(final(mem)@),
            final(self)@ == old(self)@.after_free(frame),
            final(mem)@ == old(mem)@.update(
                frame as int / 8,
                if old(self)@.free.len() == 0 { 0 } else { old(self)@.free.last() },
            ),
            final(self).total_spec() == old(self).total_spec(),
            final(self).freed_spec() == old(self).freed_spec() + 1,
            final(self).oom_spec() == old(self).oom_spec(),
    {
        proof {
            law_free_keeps_invariant(self@, frame);
            assert(self.issued@.len() > 0) by {
                if self.issued@.len() == 0 {
                    assert(self.issued@ =~= Set::empty());
                }
            }
        }
        let _n = mem.len();
        mem[(frame / 8) as usize] = self.free_head;
        self.free_head = frame;
        self.used = self.used - 1;
        self.freed = self.freed + 1;
        proof {
            let f = old(self).free@;
            if frame == 0 {
                self.free = Ghost(Seq::empty());
            } else {
                self.free = Ghost(f.push(frame));
            }
            self.issued = Ghost(self.issued@.remove(frame));
            lemma_chain_push(old(self)@, old(mem)@, frame);
        }
    }

    /// Hand out a frame: the one freed last, else the lowest fresh one.
    pub fn allocate_frame(&mut self, mem: &[u64]) -> (r: Option<u64>)
        requires
            old(self).wf(mem@),
            old(self).oom_spec() < u64::MAX,
        ensures
            final(self).wf(mem@),
            r == old(self)@.next(),
            final(self)@ == old(self)@.after_alloc(),
            r matches Some(f) ==> !old(self)@.issued.contains(f),
            final(self).total_spec() == old(self).total_spec(),
            final(self).freed_spec() == old(self).freed_spec(),
            final(self).oom_spec() == old(self).oom_spec() + if r is None { 1int } else { 0 },
    {
        proof {
            law_alloc_fresh(self@);
        }
        if self.free_head != 0 {
            let addr = self.free_head;
            assert(linked(self.free@, mem@, self.free@.len() - 1));
            self.free_head = mem[(addr / 8) as usize];
            self.used = self.used + 1;
            proof {
                let f = self.free@;
                self.free = Ghost(f.drop_last());
                self.issued = Ghost(self.issued@.insert(addr));
                if f.len() > 1 {
                    assert(f.drop_last().last() == f[f.len() - 2]);
                }
                assert forall|i: int| 0 <= i < self.free@.len() implies #[trigger] linked(
                    self.free@,
                    mem@,
                    i,
                ) by {
                    assert(linked(f, mem@, i));
                }
            }
            return Some(addr);
        }
        assert(self.free@.len() == 0) by {
            if self.free@.len() > 0 {
                assert(self.free@[self.free@.len() - 1] > 0);
            }
        }
        let mut k: usize = 0;
        while k < self.memory_regions.len()
            invariant
                k <= self.memory_regions@.len(),
                *self == *old(self),
                self.wf(mem@),
                self.free@.len() == 0,
                self.oom < u64::MAX,
                fresh_frame(self.memory_regions@, 0, self.bump_next as int) == fresh_frame(
                    self.memory_regions@,
                    k as int,
                    self.bump_next as int,
                ),
            decreases self.memory_regions@.len() - k,
        {
            let r = self.memory_regions[k];
            assert(self@.regions[k as int].wf());
            if r.usable {
                let lo = (r.start + (FRAME_SIZE - 1)) / FRAME_SIZE * FRAME_SIZE;
                let cand = if lo >= self.bump_next {
                    lo
                } else {
                    self.bump_next
                };
                if cand + FRAME_SIZE <= r.end {
                    proof {
                        law_alloc_fresh(self@);
                    }
                    self.bump_next = cand + FRAME_SIZE;
                    self.used = self.used + 1;
                    proof {
                        self.issued = Ghost(self.issued@.insert(cand));
                    }
                    return Some(cand);
                }
            }
            k += 1;
        }
        self.oom = self.oom + 1;
        None
    }
}

proof fn lemma_usable_monotonic(regions: Seq<MemoryRegion>, a: int, b: int)
    requires
        0 <= a <= b <= regions.len(),
        forall|j: int| 0 <= j < regions.len() ==> (#[trigger] regions[j]).wf(),
    ensures
        0 <= usable_frames(regions, a) <= usable_frames(regions, b),
    decreases b,
{
    if b > 0 {
        assert(regions[b - 1].wf());
        if a == b {
            lemma_usable_monotonic(regions, a - 1, b - 1);
        } else {
            lemma_usable_monotonic(regions, a, b - 1);
        }
    }
}

// ---------------------------------------------------------------------------
// The runtime snapshot
// ---------------------------------------------------------------------------

/// The memory state the running kernel keeps.
pub struct Memory {
    /// Where the bootloader mapped physical memory (0 = not initialised).
    pub phys_offset: u64,
    /// The frame allocator, once the boot path has handed it over.
    pub frames: Option<BootInfoFrameAllocator>,
}

/// Hand the boot frame allocator over to the runtime snapshot.
pub fn init_global_frames(m: &mut Memory, allocator: BootInfoFrameAllocator)
    ensures
        final(m).frames == Some(allocator),
        final(m).phys_offset == old(m).phys_offset,
{
    m.frames = Some(allocator);
}

/// The allocator's counters, `None` while the boot path still owns it.
pub fn frame_stats(m: &Memory) -> (r: Option<(u64, u64, u64, u64)>)
    requires
        m.frames matches Some(f) ==> exists|mem: Seq<u64>| f.wf(mem),
    ensures
        r is Some <==> m.frames is Some,
        r matches Some(t) ==> t.0 == m.frames->0@.issued.len() && t.1 == m.frames->0.total_spec()
            && t.2 == m.frames->0.freed_spec() && t.3 == m.frames->0.oom_spec(),
{
    match &m.frames {
        Some(f) => Some(f.stats()),
        None => None,
    }
}

/// Where physical memory is mapped: address `p` is visible at offset + `p`.
pub fn phys_offset(m: &Memory) -> (r: Option<u64>)
    ensures
        r == if m.phys_offset == 0 { None::<u64> } else { Some(m.phys_offset) },
{
    if m.phys_offset == 0 {
        None
    } else {
        Some(m.phys_offset)
    }
}

// ---------------------------------------------------------------------------
// The page-table walk
// ---------------------------------------------------------------------------

/// The entry maps something.
pub open spec fn entry_present(e: u64) -> bool {
    e % 2 == 1
}

/// The entry maps a huge page.
pub open spec fn entry_huge(e: u64) -> bool {
    e / 128 % 2 == 1
}

/// The physical address in bits 12 to 51.
pub open spec fn entry_addr(e: u64) -> int {
    e as int / 4096 % 0x100_0000_0000 * 4096
}

/// The bits outside the address.
pub open spec fn entry_flags(e: u64) -> int {
    e - entry_addr(e)
}

/// The nine-bit index of `vaddr` at `level` (1 is the last).
pub open spec fn table_index(vaddr: u64, level: int) -> int {
    if level == 4 {
        vaddr as int / 0x80_0000_0000 % 512
    } else if level == 3 {
        vaddr as int / 0x4000_0000 % 512
    } else if level == 2 {
        vaddr as int / 0x20_0000 % 512
    } else {
        vaddr as int / 0x1000 % 512
    }
}

/// The entry for `vaddr` in the table at `table`, where the window shows it
/// and it is present.
pub open spec fn present_entry(mem: Seq<u64>, table: int, vaddr: u64, level: int) -> Option<u64> {
    let k = table / 8 + table_index(vaddr, level);
    if k < mem.len() && entry_present(mem[k]) {
        Some(mem[k])
    } else {
        None
    }
}

/// The flags of the 4 KiB page that holds `vaddr`, walking down from the table
/// at `table`; `None` where an entry is absent or, above the last level, huge.
pub open spec fn walk(mem: Seq<u64>, table: int, vaddr: u64, level: int) -> Option<u64>
    decreases level,
{
    match present_entry(mem, table, vaddr, level) {
        None => None,
        Some(e) => if level <= 1 {
            Some(entry_flags(e) as u64)
        } else if entry_huge(e) {
            None
        } else {
            walk(mem, entry_addr(e), vaddr, level - 1)
        },
    }
}

fn index_at(vaddr: u64, level: u8) -> (r: u64)
    requires
        1 <= level <= 4,
    ensures
        r == table_index(vaddr, level as int),
{
    if level == 4 {
        vaddr / 0x80_0000_0000 % 512
    } else if level == 3 {
        vaddr / 0x4000_0000 % 512
    } else if level == 2 {
        vaddr / 0x20_0000 % 512
    } else {
        vaddr / 0x1000 % 512
    }
}

/// Page-table flags of the 4 KiB page that holds `vaddr`, in the address space
/// whose level-4 table is at physical address `level_4`.
pub fn page_flags(window: &[u64], level_4: u64, vaddr: u64) -> (r: Option<u64>)
    requires
        level_4 <= PHYS_LIMIT,
    ensures
        r == walk(window@, level_4 as int, vaddr, 4),
{
    let mut table: u64 = level_4;
    let mut level: u8 = 4;
    while level > 1
        invariant
            1 <= level <= 4,
            table <= PHYS_LIMIT,
            walk(window@, level_4 as int, vaddr, 4) == walk(
                window@,
                table as int,
                vaddr,
                level as int,
            ),
        decreases level,
    {
        let k = table / 8 + index_at(vaddr, level);
        if k >= window.len() as u64 {
            return None;
        }
        let e = window[k as usize];
        if e % 2 != 1 || e / 128 % 2 == 1 {
            return None;
        }
        table = e / 4096 % 0x100_0000_0000 * 4096;
        level = level - 1;
    }
    let k = table / 8 + index_at(vaddr, 1);
    if k >= window.len() as u64 {
        return None;
    }
    let e = window[k as usize];
    if e % 2 != 1 {
        return None;
    }
    Some(e - e / 4096 % 0x100_0000_0000 * 4096)
}

/// A page that the walk accepts is present.
pub proof fn law_walked_page_is_present(mem: Seq<u64>, table: int, vaddr: u64, level: int)
    requires
        level >= 1,
        walk(mem, table, vaddr, level) is Some,
    ensures
        entry_present(walk(mem, table, vaddr, level)->0),
    decreases level,
{
    if level > 1 {
        law_walked_page_is_present(
            mem,
            entry_addr(present_entry(mem, table, vaddr, level)->0),
            vaddr,
            level - 1,
        );
    }
}

// ---------------------------------------------------------------------------
// The allocator's self-test
// ---------------------------------------------------------------------------

/// How the frame-allocator self-test ended.
#[derive(Clone, Copy, PartialEq, Eq, Debug)]
pub enum MemTest {
    Passed,
    NoUsableFrames,
    /// An allocation of step 1 found no frame.
    OutOfMemory,
    DuplicateFrame,
    SetDiffers,
    NotLifo,
    BadStats,
    NotBaseline,
}

/// Frames the self-test takes.
pub const MEM_TEST_FRAMES: usize = 256;

/// `frames` freed one after the other.
pub open spec fn after_frees(v: FrameView, frames: Seq<u64>) -> FrameView
    decreases frames.len(),
{
    if frames.len() == 0 {
        v
    } else {
        after_frees(v, frames.drop_last()).after_free(frames.last())
    }
}

/// Freeing distinct frames piles them on the list in order.
pub proof fn law_frees_pile_up(v: FrameView, frames: Seq<u64>)
    requires
        v.wf(),
        frames.no_duplicates(),
        forall|i: int| 0 <= i < frames.len() ==> v.issued.contains(#[trigger] frames[i]) && frames[i]
            != 0,
    ensures
        after_frees(v, frames).wf(),
        after_frees(v, frames).free == v.free + frames,
        after_frees(v, frames).issued == v.issued.difference(frames.to_set()),
        after_frees(v, frames).bump == v.bump,
        after_frees(v, frames).regions == v.regions,
    decreases frames.len(),
{
    if frames.len() == 0 {
        assert(v.free + frames =~= v.free);
        assert(v.issued.difference(frames.to_set()) =~= v.issued);
    } else {
        let init = frames.drop_last();
        law_frees_pile_up(v, init);
        let w = after_frees(v, init);
        assert(frames[frames.len() - 1] == frames.last());
        assert(!init.contains(frames.last()));
        law_free_keeps_invariant(w, frames.last());
        assert(v.free + frames =~= (v.free + init).push(frames.last()));
        assert(frames =~= init.push(frames.last()));
        assert(v.issued.difference(frames.to_set()) =~= v.issued.difference(
            init.to_set(),
        ).remove(frames.last())) by {
            assert forall|x: u64| frames.to_set().contains(x) <==> init.to_set().contains(x) || x
                == frames.last() by {
                if frames.contains(x) {
                    let i = choose|i: int| 0 <= i < frames.len() && frames[i] == x;
                    if i < init.len() {
                        assert(init[i] == x);
                    }
                }
                if init.contains(x) {
                    let i = choose|i: int| 0 <= i < init.len() && init[i] == x;
                    assert(frames[i] == x);
                }
            }
        }
    }
}

/// Freeing frames and allocating as many again hands out the same frames, the
/// last freed first.
pub proof fn law_realloc_returns_freed(v: FrameView, frames: Seq<u64>, k: nat)
    requires
        v.wf(),
        frames.no_duplicates(),
        forall|i: int| 0 <= i < frames.len() ==> v.issued.contains(#[trigger] frames[i]) && frames[i]
            != 0,
        k <= frames.len(),
    ensures
        after_frees(v, frames).after_allocs(k) == after_frees(
            v,
            frames.take(frames.len() - k),
        ),
        k < frames.len() ==> after_frees(v, frames).after_allocs(k).next() == Some(
            frames[frames.len() - 1 - k],
        ),
    decreases k,
{
    let rest = frames.take(frames.len() - k);
    assert forall|i: int| 0 <= i < rest.len() implies v.issued.contains(#[trigger] rest[i])
        && rest[i] != 0 by {
        assert(rest[i] == frames[i]);
    }
    assert(rest.no_duplicates());
    law_frees_pile_up(v, rest);
    if k == 0 {
        assert(rest =~= frames);
    } else {
        law_realloc_returns_freed(v, frames, (k - 1) as nat);
        let more = frames.take(frames.len() - (k - 1));
        assert(more.drop_last() =~= rest);
        assert(more.last() == frames[frames.len() - k]);
        assert forall|i: int| 0 <= i < more.len() implies v.issued.contains(#[trigger] more[i])
            && more[i] != 0 by {
            assert(more[i] == frames[i]);
        }
        law_frees_pile_up(v, more);
        let w = after_frees(v, more);
        assert(w.free.last() == more.last());
        assert(w.after_alloc().free =~= v.free + rest);
        assert(!rest.contains(more.last()));
        assert(w.after_alloc().issued =~= v.issued.difference(rest.to_set())) by {
            assert forall|x: u64| more.to_set().contains(x) <==> rest.to_set().contains(x) || x
                == more.last() by {
                if more.contains(x) {
                    let i = choose|i: int| 0 <= i < more.len() && more[i] == x;
                    if i < rest.len() {
                        assert(rest[i] == x);
                    }
                }
                if rest.contains(x) {
                    let i = choose|i: int| 0 <= i < rest.len() && rest[i] == x;
                    assert(more[i] == x);
                }
                assert(more[more.len() - 1] == more.last());
            }
            assert(v.issued.contains(more[more.len() - 1]));
        }
        assert(w.after_alloc() =~= after_frees(v, rest));
    }
}

proof fn lemma_frees_count(v: FrameView, frames: Seq<u64>)
    requires
        v.wf(),
        frames.no_duplicates(),
        forall|i: int| 0 <= i < frames.len() ==> v.issued.contains(#[trigger] frames[i]) && frames[i]
            != 0,
    ensures
        after_frees(v, frames).issued.len() == v.issued.len() - frames.len(),
    decreases frames.len(),
{
    if frames.len() > 0 {
        let init = frames.drop_last();
        lemma_frees_count(v, init);
        law_frees_pile_up(v, init);
        assert(frames[frames.len() - 1] == frames.last());
        assert(!init.contains(frames.last()));
        assert(after_frees(v, init).issued.contains(frames.last()));
    }
}

/// Frames that were freed serve as many allocations again without a fresh one:
/// the cursor stays, the frames in use count up with each, and in the end all is
/// as before.
pub proof fn law_reuse_draws_no_fresh_frame(v: FrameView, frames: Seq<u64>, k: nat)
    requires
        v.wf(),
        frames.no_duplicates(),
        forall|i: int| 0 <= i < frames.len() ==> v.issued.contains(#[trigger] frames[i]) && frames[i]
            != 0,
        k <= frames.len(),
    ensures
        after_frees(v, frames).can_serve(frames.len()),
        after_frees(v, frames).after_allocs(k).bump == v.bump,
        after_frees(v, frames).after_allocs(k).issued.len() == v.issued.len() - frames.len() + k,
        after_frees(v, frames).after_allocs(frames.len()) == v,
{
    let rest = frames.take(frames.len() - k);
    law_realloc_returns_freed(v, frames, k);
    assert forall|i: int| 0 <= i < rest.len() implies v.issued.contains(#[trigger] rest[i])
        && rest[i] != 0 by {
        assert(rest[i] == frames[i]);
    }
    law_frees_pile_up(v, rest);
    lemma_frees_count(v, rest);
    assert forall|j: nat| j < frames.len() implies (#[trigger] after_frees(v, frames).after_allocs(
        j,
    )).next() is Some by {
        law_realloc_returns_freed(v, frames, j);
    }
    law_realloc_returns_freed(v, frames, frames.len());
    assert(frames.take(0) =~= Seq::<u64>::empty());
}

/// The window shows every frame of the map, and frame zero is not handed out.
pub open spec fn testable(v: FrameView, words: int) -> bool {
    &&& forall|k: int| 0 <= k < v.regions.len() ==> (#[trigger] v.regions[k]).end <= 8 * words
    &&& v.bump > 0 || forall|k: int|
        0 <= k < v.regions.len() ==> (#[trigger] v.regions[k]).start > 0
}

proof fn lemma_fresh_in_window(regions: Seq<MemoryRegion>, k: int, bump: int, words: int)
    requires
        0 <= k,
        0 <= bump <= PHYS_LIMIT,
        forall|i: int| 0 <= i < regions.len() ==> (#[trigger] regions[i]).wf(),
        forall|i: int| 0 <= i < regions.len() ==> (#[trigger] regions[i]).end <= 8 * words,
        bump > 0 || forall|i: int| 0 <= i < regions.len() ==> (#[trigger] regions[i]).start > 0,
    ensures
        fresh_frame(regions, k, bump) matches Some(f) ==> 0 < f && f + 4096 <= 8 * words,
    decreases regions.len() - k,
{
    if k < regions.len() {
        lemma_fresh_in_window(regions, k + 1, bump, words);
        assert(regions[k].wf());
        assert(regions[k].end <= 8 * words);
    }
}

proof fn lemma_exhausted(v: FrameView, k: nat, n: nat)
    requires
        k <= n,
        v.after_allocs(k).next() is None,
    ensures
        v.after_allocs(n) == v.after_allocs(k),
    decreases n,
{
    if k < n {
        lemma_exhausted(v, k, (n - 1) as nat);
    }
}

/// Take `n` frames.
fn take_frames(f: &mut BootInfoFrameAllocator, mem: &[u64], n: usize) -> (r: Option<Vec<u64>>)
    requires
        old(f).wf(mem@),
        testable(old(f)@, mem@.len() as int),
        old(f).oom_spec() < u64::MAX,
    ensures
        final(f).wf(mem@),
        r is Some <==> old(f)@.can_serve(n as nat),
        r matches Some(fs) ==> {
            &&& fs@.len() == n
            &&& final(f)@ == old(f)@.after_allocs(n as nat)
            &&& fs@.no_duplicates()
            &&& forall|i: int|
                0 <= i < n ==> (#[trigger] fs@[i]) == old(f)@.after_allocs(i as nat).next()->0
                    && 0 < fs@[i] < 8 * mem@.len() && !old(f)@.issued.contains(fs@[i])
                    && final(f)@.issued.contains(fs@[i])
            &&& final(f)@.issued == old(f)@.issued.union(fs@.to_set())
            &&& final(f)@.issued.len() == old(f)@.issued.len() + n
            &&& testable(final(f)@, mem@.len() as int)
            &&& final(f).oom_spec() == old(f).oom_spec()
        },
        r is None ==> old(f)@.issued.subset_of(final(f)@.issued) && final(f)@ == old(
            f,
        )@.after_allocs(n as nat) && final(f).oom_spec() == old(f).oom_spec() + 1,
        final(f).freed_spec() == old(f).freed_spec(),
        final(f).total_spec() == old(f).total_spec(),
{
    let mut fs: Vec<u64> = Vec::new();
    let mut i: usize = 0;
    proof {
        assert(old(f)@.issued.union(fs@.to_set()) =~= old(f)@.issued);
    }
    while i < n
        invariant
            i <= n,
            f.wf(mem@),
            f@ == old(f)@.after_allocs(i as nat),
            testable(f@, mem@.len() as int),
            f.oom_spec() == old(f).oom_spec() < u64::MAX,
            f.freed_spec() == old(f).freed_spec(),
            f.total_spec() == old(f).total_spec(),
            fs@.len() == i,
            fs@.no_duplicates(),
            forall|k: nat| k < i ==> (#[trigger] old(f)@.after_allocs(k)).next() is Some,
            forall|j: int|
                0 <= j < i ==> (#[trigger] fs@[j]) == old(f)@.after_allocs(j as nat).next()->0
                    && 0 < fs@[j] < 8 * mem@.len() && !old(f)@.issued.contains(fs@[j])
                    && f@.issued.contains(fs@[j]),
            f@.issued == old(f)@.issued.union(fs@.to_set()),
            f@.issued.len() == old(f)@.issued.len() + i,
        decreases n - i,
    {
        let ghost before = f@;
        proof {
            lemma_view_wf(*f, mem@);
            law_alloc_fresh(before);
            lemma_fresh_in_window(before.regions, 0, before.bump, mem@.len() as int);
            lemma_free_in_window(*f, mem@);
        }
        match f.allocate_frame(mem) {
            None => {
                assert(old(f)@.after_allocs(i as nat).next() is None);
                proof {
                    lemma_exhausted(old(f)@, i as nat, n as nat);
                }
                return None;
            },
            Some(x) => {
                let ghost prev = fs@;
                fs.push(x);
                proof {
                    assert(before.issued.finite());
                    assert(f@.issued =~= old(f)@.issued.union(fs@.to_set())) by {
                        assert forall|y: u64| fs@.to_set().contains(y) <==> prev.to_set().contains(
                            y,
                        ) || y == x by {
                            if prev.contains(y) {
                                let j = choose|j: int| 0 <= j < prev.len() && prev[j] == y;
                                assert(fs@[j] == y);
                            }
                            assert(fs@[fs@.len() - 1] == x);
                        }
                    }
                    assert forall|j: int| 0 <= j < fs@.len() implies f@.issued.contains(
                        #[trigger] fs@[j],
                    ) by {
                        if j < prev.len() {
                            assert(prev[j] == fs@[j]);
                        }
                    }
                }
            },
        }
        i += 1;
    }
    Some(fs)
}

proof fn lemma_free_in_window(f: BootInfoFrameAllocator, mem: Seq<u64>)
    requires
        f.wf(mem),
    ensures
        forall|i: int|
            0 <= i < f@.free.len() ==> 0 < #[trigger] f@.free[i] && f@.free[i] < 8 * mem.len(),
{
    assert forall|i: int| 0 <= i < f@.free.len() implies 0 < #[trigger] f@.free[i] && f@.free[i]
        < 8 * mem.len() by {
        assert(linked(f.free@, mem, i));
    }
}

/// Free `frames[from..to]`, from the last down.
fn give_back(
    f: &mut BootInfoFrameAllocator,
    mem: &mut [u64],
    frames: &Vec<u64>,
    from: usize,
    to: usize,
)
    requires
        from <= to <= frames@.len(),
        old(f).wf(old(mem)@),
        old(f).freed_spec() + (to - from) <= u64::MAX,
        frames@.no_duplicates(),
        forall|i: int|
            from <= i < to ==> old(f)@.issued.contains(#[trigger] frames@[i]) && 0 < frames@[i] < 8
                * old(mem)@.len(),
    ensures
        final(f).wf(final(mem)@),
        final(mem)@.len() == old(mem)@.len(),
        final(f)@ == after_frees(old(f)@, frames@.subrange(from as int, to as int).reverse()),
        final(f).freed_spec() == old(f).freed_spec() + (to - from),
        final(f).total_spec() == old(f).total_spec(),
        final(f).oom_spec() == old(f).oom_spec(),
{
    let mut k: usize = to;
    let ghost all = frames@.subrange(from as int, to as int).reverse();
    proof {
        assert(frames@.subrange(to as int, to as int).reverse() =~= Seq::<u64>::empty());
    }
    while k > from
        invariant
            from <= k <= to <= frames@.len(),
            f.wf(mem@),
            old(f).wf(old(mem)@),
            mem@.len() == old(mem)@.len(),
            frames@.no_duplicates(),
            old(f).freed_spec() + (to - from) <= u64::MAX,
            f.freed_spec() == old(f).freed_spec() + (to - k),
            f.total_spec() == old(f).total_spec(),
            f.oom_spec() == old(f).oom_spec(),
            forall|i: int|
                from <= i < to ==> old(f)@.issued.contains(#[trigger] frames@[i]) && 0 < frames@[i]
                    < 8 * mem@.len(),
            f@ == after_frees(old(f)@, frames@.subrange(k as int, to as int).reverse()),
        decreases k - from,
    {
        let ghost done = frames@.subrange(k as int, to as int).reverse();
        let ghost next = frames@.subrange(k - 1, to as int).reverse();
        let x = frames[k - 1];
        proof {
            assert(next.drop_last() =~= done);
            assert(next.last() == x);
            assert forall|i: int| 0 <= i < done.len() implies old(f)@.issued.contains(
                #[trigger] done[i],
            ) && done[i] != 0 by {
                assert(done[i] == frames@[to - 1 - i]);
            }
            assert(done.no_duplicates());
            lemma_view_wf(*old(f), old(mem)@);
            law_frees_pile_up(old(f)@, done);
            assert(!done.contains(x)) by {
                if done.contains(x) {
                    let i = choose|i: int| 0 <= i < done.len() && done[i] == x;
                    assert(done[i] == frames@[to - 1 - i]);
                }
            }
            assert(f@.issued.contains(x));
        }
        f.deallocate_frame(mem, x);
        k -= 1;
    }
}

/// An allocator that is well formed over its memory shows a well-formed view.
pub proof fn lemma_view_wf(f: BootInfoFrameAllocator, mem: Seq<u64>)
    requires
        f.wf(mem),
    ensures
        f@.wf(),
{
}

/// Whether `x` is among `v`.
fn holds(v: &Vec<u64>, x: u64) -> (r: bool)
    ensures
        r == v@.contains(x),
{
    let mut i: usize = 0;
    while i < v.len()
        invariant
            i <= v@.len(),
            forall|j: int| 0 <= j < i ==> v@[j] != x,
        decreases v@.len() - i,
    {
        if v[i] == x {
            return true;
        }
        i += 1;
    }
    false
}

/// Whether `v` holds no value twice.
fn all_distinct(v: &Vec<u64>) -> (r: bool)
    ensures
        r == v@.no_duplicates(),
{
    let mut i: usize = 0;
    while i < v.len()
        invariant
            i <= v@.len(),
            forall|a: int, b: int|
                0 <= a < i && a < b < v@.len() ==> v@[a] != v@[b],
        decreases v@.len() - i,
    {
        let mut j: usize = i + 1;
        while j < v.len()
            invariant
                i < j <= v@.len(),
                forall|b: int| i < b < j ==> v@[i as int] != v@[b],
            decreases v@.len() - j,
        {
            if v[i] == v[j] {
                return false;
            }
            j += 1;
        }
        i += 1;
    }
    true
}

/// Whether `a` and `b` hold the same values.
fn same_set(a: &Vec<u64>, b: &Vec<u64>) -> (r: bool)
    ensures
        r == (a@.to_set() == b@.to_set()),
{
    let mut i: usize = 0;
    while i < a.len()
        invariant
            i <= a@.len(),
            forall|j: int| 0 <= j < i ==> b@.contains(a@[j]),
        decreases a@.len() - i,
    {
        if !holds(b, a[i]) {
            assert(a@.to_set().contains(a@[i as int]));
            return false;
        }
        i += 1;
    }
    let mut k: usize = 0;
    while k < b.len()
        invariant
            k <= b@.len(),
            forall|j: int| 0 <= j < k ==> a@.contains(b@[j]),
        decreases b@.len() - k,
    {
        if !holds(a, b[k]) {
            assert(b@.to_set().contains(b@[k as int]));
            return false;
        }
        k += 1;
    }
    assert(a@.to_set() =~= b@.to_set());
    true
}

proof fn lemma_allocs_keep_map(v: FrameView, n: nat)
    ensures
        v.after_allocs(n).regions == v.regions,
    decreases n,
{
    if n > 0 {
        lemma_allocs_keep_map(v, (n - 1) as nat);
    }
}

proof fn lemma_list_first(v: FrameView, n: nat)
    requires
        v.can_serve(n),
    ensures
        n <= v.free.len() ==> v.after_allocs(n).free == v.free.take(v.free.len() - n),
        n > v.free.len() ==> v.after_allocs(n).free.len() == 0,
        forall|i: int|
            0 <= i < n && i < v.free.len() ==> #[trigger] v.handed_out(n)[i] == v.free[v.free.len()
                - 1 - i],
    decreases n,
{
    if n == 0 {
        assert(v.free.take(v.free.len() as int) =~= v.free);
    } else {
        let k = (n - 1) as nat;
        assert(v.can_serve(k));
        lemma_list_first(v, k);
        assert(v.after_allocs(k).next() is Some);
        if k < v.free.len() {
            assert(v.free.take(v.free.len() - k).drop_last() =~= v.free.take(v.free.len() - n));
        }
        assert forall|i: int| 0 <= i < n && i < v.free.len() implies #[trigger] v.handed_out(n)[i]
            == v.free[v.free.len() - 1 - i] by {
            if i < k {
                assert(v.handed_out(n)[i] == v.handed_out(k)[i]);
            }
        }
    }
}

/// Frames that are taken and then freed, the last taken first, end on the list
/// beside what was on it; the list is as it was where it had served them all.
pub proof fn law_taken_frames_return(v: FrameView, n: nat)
    requires
        v.can_serve(n),
    ensures
        (v.after_allocs(n).free + v.handed_out(n).reverse()).to_set() == v.free.to_set().union(
            v.handed_out(n).to_set(),
        ),
        n <= v.free.len() ==> v.after_allocs(n).free + v.handed_out(n).reverse() == v.free,
{
    let len = v.free.len() as int;
    let out = v.handed_out(n);
    let left = v.after_allocs(n).free;
    let all = left + out.reverse();
    lemma_list_first(v, n);
    if n <= len {
        assert forall|j: int| len - n <= j < len implies #[trigger] all[j] == v.free[j] by {
            assert(all[j] == out[len - 1 - j]);
        }
        assert(all =~= v.free);
    }
    assert forall|x: u64| all.contains(x) <==> v.free.contains(x) || out.contains(x) by {
        if all.contains(x) {
            let j = choose|j: int| 0 <= j < all.len() && all[j] == x;
            if j < left.len() {
                assert(v.free[j] == x);
            } else {
                assert(out[n - 1 - (j - left.len())] == x);
            }
        }
        if v.free.contains(x) {
            let j = choose|j: int| 0 <= j < len && v.free[j] == x;
            if j < left.len() {
                assert(all[j] == x);
            } else {
                let i = len - 1 - j;
                assert(out[i] == x);
                assert(all[left.len() + (n - 1 - i)] == x);
            }
        }
        if out.contains(x) {
            let i = choose|i: int| 0 <= i < out.len() && out[i] == x;
            assert(all[left.len() + (n - 1 - i)] == x);
        }
    }
    assert(all.to_set() =~= v.free.to_set().union(out.to_set()));
}

/// The allocator's self-test: fresh frames are distinct, freeing and taking
/// again returns the same set, reuse is last in first out, the counters follow,
/// and the net use returns to where it was.
#[verifier::rlimit(60)]
pub fn mem_test(f: &mut BootInfoFrameAllocator, mem: &mut [u64]) -> (r: MemTest)
    requires
        old(f).wf(old(mem)@),
        testable(old(f)@, old(mem)@.len() as int),
        old(f).oom_spec() < u64::MAX,
        old(f).freed_spec() + 2 * MEM_TEST_FRAMES + 2 <= u64::MAX,
    ensures
        final(f).wf(final(mem)@),
        r is NoUsableFrames <==> old(f).total_spec() == 0,
        old(f).total_spec() != 0 ==> (if old(f)@.can_serve(MEM_TEST_FRAMES as nat) {
            r is Passed
        } else {
            r is OutOfMemory
        }),
        final(f).total_spec() == old(f).total_spec(),
        r is Passed ==> {
            &&& final(f)@.issued == old(f)@.issued
            &&& final(f)@.free == old(f)@.after_allocs(MEM_TEST_FRAMES as nat).free + old(
                f,
            )@.handed_out(MEM_TEST_FRAMES as nat).reverse()
            &&& final(f)@.bump == old(f)@.after_allocs(MEM_TEST_FRAMES as nat).bump
            &&& final(f)@.free.to_set() == old(f)@.free.to_set().union(
                old(f)@.handed_out(MEM_TEST_FRAMES as nat).to_set(),
            )
            &&& final(f)@.regions == old(f)@.regions
            &&& final(f).freed_spec() == old(f).freed_spec() + 2 * MEM_TEST_FRAMES + 2
            &&& final(f).oom_spec() == old(f).oom_spec()
        },
        r is OutOfMemory ==> {
            &&& final(f)@ == old(f)@.after_allocs(MEM_TEST_FRAMES as nat)
            &&& old(f)@.issued.subset_of(final(f)@.issued)
            &&& final(f).freed_spec() == old(f).freed_spec()
            &&& final(f).oom_spec() == old(f).oom_spec() + 1
        },
        r is NoUsableFrames ==> final(f)@ == old(f)@ && final(mem)@ == old(mem)@,
{
    let n: usize = MEM_TEST_FRAMES;
    let (u0, total, freed0, _oom0) = f.stats();
    if total == 0 {
        return MemTest::NoUsableFrames;
    }
    let fresh = match take_frames(f, mem, n) {
        None => return MemTest::OutOfMemory,
        Some(fs) => fs,
    };
    if !all_distinct(&fresh) {
        return MemTest::DuplicateFrame;
    }
    let ghost v1 = f@;
    let ghost words = mem@.len() as int;
    proof {
        lemma_view_wf(*f, mem@);
    }
    give_back(f, mem, &fresh, 0, n);
    let ghost pile = fresh@.reverse();
    proof {
        assert(fresh@.subrange(0, n as int) =~= fresh@);
        assert forall|i: int| 0 <= i < pile.len() implies v1.issued.contains(#[trigger] pile[i])
            && pile[i] != 0 by {
            assert(pile[i] == fresh@[n - 1 - i]);
        }
        assert(pile.no_duplicates());
        law_frees_pile_up(v1, pile);
        assert forall|k: nat| k < n implies (#[trigger] f@.after_allocs(k)).next() is Some by {
            law_realloc_returns_freed(v1, pile, k);
        }
    }
    let ghost freed_view = f@;
    let again = match take_frames(f, mem, n) {
        None => return MemTest::SetDiffers,
        Some(fs) => fs,
    };
    proof {
        law_realloc_returns_freed(v1, pile, n as nat);
        assert(pile.take(0) =~= Seq::<u64>::empty());
        assert(f@ == v1);
        assert forall|i: int| 0 <= i < n implies #[trigger] again@[i] == fresh@[i] by {
            law_realloc_returns_freed(v1, pile, i as nat);
            assert(again@[i] == freed_view.after_allocs(i as nat).next()->0);
        }
        assert(again@ =~= fresh@);
    }
    if !same_set(&again, &fresh) {
        return MemTest::SetDiffers;
    }
    let a = again[0];
    let b = again[1];
    proof {
        lemma_view_wf(*f, mem@);
        law_lifo_reuse(v1, a, b);
    }
    f.deallocate_frame(mem, a);
    f.deallocate_frame(mem, b);
    let c = match f.allocate_frame(mem) {
        None => return MemTest::NotLifo,
        Some(x) => x,
    };
    let d = match f.allocate_frame(mem) {
        None => return MemTest::NotLifo,
        Some(x) => x,
    };
    if c != b || d != a {
        return MemTest::NotLifo;
    }
    assert(f@ == v1);
    let (u1, _t1, freed1, _o1) = f.stats();
    if u1 != u0 + n as u64 || freed1 != freed0 + n as u64 + 2 {
        return MemTest::BadStats;
    }
    proof {
        lemma_view_wf(*f, mem@);
    }
    let ghost rest = again@.subrange(2, n as int).reverse();
    give_back(f, mem, &again, 2, n);
    proof {
        assert forall|i: int| 0 <= i < rest.len() implies v1.issued.contains(#[trigger] rest[i])
            && rest[i] != 0 by {
            assert(rest[i] == again@[n - 1 - i]);
        }
        assert(rest.no_duplicates());
        law_frees_pile_up(v1, rest);
        assert(!rest.contains(a) && !rest.contains(b)) by {
            if rest.contains(a) {
                let i = choose|i: int| 0 <= i < rest.len() && rest[i] == a;
                assert(rest[i] == again@[n - 1 - i]);
            }
            if rest.contains(b) {
                let i = choose|i: int| 0 <= i < rest.len() && rest[i] == b;
                assert(rest[i] == again@[n - 1 - i]);
            }
        }
    }
    f.deallocate_frame(mem, c);
    f.deallocate_frame(mem, d);
    proof {
        assert(f@.issued =~= old(f)@.issued) by {
            assert forall|x: u64| fresh@.contains(x) implies rest.contains(x) || x == a || x == b by {
                let i = choose|i: int| 0 <= i < fresh@.len() && fresh@[i] == x;
                if i >= 2 {
                    assert(rest[n - 1 - i] == x);
                }
            }
            assert forall|x: u64| rest.contains(x) implies fresh@.contains(x) by {
                let i = choose|i: int| 0 <= i < rest.len() && rest[i] == x;
                assert(fresh@[n - 1 - i] == x);
            }
            assert forall|x: u64| fresh@.contains(x) implies !old(f)@.issued.contains(x) by {
                let i = choose|i: int| 0 <= i < fresh@.len() && fresh@[i] == x;
                assert(fresh@[i] == x);
            }
            assert(fresh@[0] == a && fresh@[1] == b);
        }
        assert(rest.push(c).push(d) =~= fresh@.reverse());
        assert(f@.free =~= v1.free + fresh@.reverse());
        assert(fresh@ =~= old(f)@.handed_out(n as nat));
        law_taken_frames_return(old(f)@, n as nat);
        lemma_allocs_keep_map(old(f)@, n as nat);
    }
    let (u2, _t2, _freed2, _oom2) = f.stats();
    if u2 != u0 {
        return MemTest::NotBaseline;
    }
    MemTest::Passed
}

} // verus!
