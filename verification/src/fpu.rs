//! Floating-point and vector state: which save path a CPU can use, and the
//! per-task images.
use vstd::prelude::*;

verus! {

/// Bytes of a per-task image at most.
pub const AREA_CAPACITY: usize = 2048;

/// One task's saved state.
pub struct FpuArea {
    pub bytes: Vec<u8>,
}

impl FpuArea {
    pub open spec fn wf(&self) -> bool {
        self.bytes@.len() == AREA_CAPACITY
    }

    /// An image of zeros.
    pub fn zeroed() -> (r: FpuArea)
        ensures
            r.wf(),
            r.bytes@ == Seq::new(AREA_CAPACITY as nat, |i: int| 0u8),
    {
        FpuArea { bytes: crate::bytes::zeros(AREA_CAPACITY) }
    }
}

/// A fresh image that starts as the template.
pub fn new_area(template: &FpuArea) -> (r: FpuArea)
    requires
        template.wf(),
    ensures
        r.wf(),
        r.bytes@ == template.bytes@,
{
    let bytes = crate::bytes::copy_range(template.bytes.as_slice(), 0, template.bytes.len());
    assert(bytes@ =~= template.bytes@);
    FpuArea { bytes }
}

/// Bit `n` of a register, for the bits that matter here.
pub open spec fn bit26(v: u32) -> bool {
    v / 0x400_0000 % 2 == 1
}

pub open spec fn bit27(v: u32) -> bool {
    v / 0x800_0000 % 2 == 1
}

pub open spec fn bit28(v: u32) -> bool {
    v / 0x1000_0000 % 2 == 1
}

/// What the processor's identification says of state saving.
#[derive(Clone, Copy, PartialEq, Eq, Debug)]
pub struct CpuFeatures {
    /// Leaf 1, ECX.
    pub leaf1_ecx: u32,
    /// Leaf 13, subleaf 0: supported state components, low half.
    pub supported: u32,
    /// Leaf 13, subleaf 2: size and offset of the upper vector halves.
    pub ymm_size: u32,
    pub ymm_offset: u32,
}

/// How state is saved: enabled components, image size, vector upper halves.
#[derive(Clone, Copy, PartialEq, Eq, Debug, Structural)]
pub struct XsavePlan {
    pub xcr0: u64,
    pub size: usize,
    pub avx: bool,
}

/// The upper vector halves are saved: the CPU has them, can save them and says
/// where they go.
pub open spec fn avx_usable(c: CpuFeatures) -> bool {
    bit28(c.leaf1_ecx) && c.supported / 4 % 2 == 1 && c.supported / 2 % 2 == 1 && c.ymm_size != 0
}

/// Bytes of the image: legacy region and header, up to the end of the upper
/// vector halves where they are saved.
pub open spec fn image_size(c: CpuFeatures) -> int {
    if avx_usable(c) && c.ymm_offset + c.ymm_size > 576 {
        c.ymm_offset + c.ymm_size
    } else {
        576
    }
}

/// The components to enable: x87 where supported, SSE, upper vector halves.
pub open spec fn components(c: CpuFeatures) -> int {
    (if c.supported % 2 == 1 { 1int } else { 0 }) + 2 + (if avx_usable(c) { 4int } else { 0 })
}

/// Extended saving can be used: the CPU has it, saves SSE state, and the image
/// fits.
pub open spec fn plannable(c: CpuFeatures) -> bool {
    bit26(c.leaf1_ecx) && c.supported / 2 % 2 == 1 && image_size(c) <= AREA_CAPACITY
}

/// A plan that can be used: SSE state is saved, no component beyond the three
/// is enabled, the upper vector halves are enabled exactly where the plan says
/// so, and the image holds header and legacy region and fits.
pub open spec fn plan_ok(p: XsavePlan) -> bool {
    &&& 576 <= p.size <= AREA_CAPACITY
    &&& p.xcr0 <= 7
    &&& p.xcr0 / 2 % 2 == 1
    &&& p.avx == (p.xcr0 / 4 % 2 == 1)
}

/// Decide how this CPU saves state; `None` means the legacy instructions.
pub fn plan(c: CpuFeatures) -> (r: Option<XsavePlan>)
    ensures
        r is Some <==> plannable(c),
        r is Some ==> plan_ok(r->0),
        r matches Some(p) ==> p.xcr0 == components(c) && p.size == image_size(c) && p.avx
            == avx_usable(c),
{
    if c.leaf1_ecx / 0x400_0000 % 2 != 1 {
        return None;
    }
    let has_avx = c.leaf1_ecx / 0x1000_0000 % 2 == 1;
    let x87 = c.supported % 2 == 1;
    let sse = c.supported / 2 % 2 == 1;
    if !sse {
        return None;
    }
    let avx = has_avx && c.supported / 4 % 2 == 1 && c.ymm_size != 0;
    let mut size: u64 = 576;
    if avx {
        let end = c.ymm_offset as u64 + c.ymm_size as u64;
        if end > size {
            size = end;
        }
    }
    if size > AREA_CAPACITY as u64 {
        return None;
    }
    let xcr0 = (if x87 {
        1u64
    } else {
        0
    }) + 2 + (if avx {
        4u64
    } else {
        0
    });
    Some(XsavePlan { xcr0, size: size as usize, avx })
}

/// After programming a plan: did the CPU take it? The component register reads
/// back as written and the CPU reports that the feature is on.
pub fn programmed(p: &XsavePlan, readback: u64, leaf1_ecx: u32) -> (r: bool)
    ensures
        r == (readback == p.xcr0 && bit27(leaf1_ecx)),
{
    readback == p.xcr0 && leaf1_ecx / 0x800_0000 % 2 == 1
}

/// The machine's choice, and what is counted.
pub struct Fpu {
    xsave: bool,
    avx: bool,
    size: usize,
    xcr0: u64,
    cpus: usize,
    avx_task: usize,
}

impl Fpu {
    /// Extended saving is in use with plan `p`, or not.
    pub closed spec fn choice(&self) -> Option<XsavePlan> {
        if self.xsave {
            Some(XsavePlan { xcr0: self.xcr0, size: self.size, avx: self.avx })
        } else {
            None
        }
    }

    pub closed spec fn cpu_count(&self) -> usize {
        self.cpus
    }

    pub closed spec fn avx_task_spec(&self) -> usize {
        self.avx_task
    }

    /// With extended saving the plan can be used; without it the image is the
    /// legacy one.
    pub closed spec fn wf(&self) -> bool {
        if self.xsave {
            plan_ok(XsavePlan { xcr0: self.xcr0, size: self.size, avx: self.avx })
        } else {
            !self.avx && self.size == 512 && self.xcr0 == 0
        }
    }

    pub fn new() -> (r: Fpu)
        ensures
            r.wf(),
            r.choice() is None,
            r.cpu_count() == 0,
            r.avx_task_spec() == usize::MAX,
    {
        Fpu { xsave: false, avx: false, size: 512, xcr0: 0, cpus: 0, avx_task: usize::MAX }
    }
}

/// Boot-time choice: the plan that this CPU took, or none.
pub fn init(f: &mut Fpu, taken: Option<XsavePlan>)
    requires
        old(f).wf(),
        old(f).cpu_count() < usize::MAX,
        taken is Some ==> plan_ok(taken->0),
    ensures
        final(f).wf(),
        final(f).choice() == taken,
        final(f).cpu_count() == old(f).cpu_count() + if taken is Some { 1int } else { 0 },
        final(f).avx_task_spec() == old(f).avx_task_spec(),
{
    match taken {
        Some(p) => {
            f.xsave = true;
            f.avx = p.avx;
            f.size = p.size;
            f.xcr0 = p.xcr0;
            f.cpus = f.cpus + 1;
        },
        None => {
            f.xsave = false;
            f.avx = false;
            f.size = 512;
            f.xcr0 = 0;
        },
    }
}

/// How another CPU compares with the boot CPU's choice.
#[derive(Clone, Copy, PartialEq, Eq, Debug)]
pub enum ApFpu {
    /// The boot CPU does not use extended saving.
    Legacy,
    Same,
    /// The image size differs: the cores are not equivalent.
    SizeDiffers(usize),
    /// This core could not follow.
    CannotFollow,
}

/// Bring-up of another CPU with the plan it took.
pub fn init_ap(f: &mut Fpu, taken: Option<XsavePlan>) -> (r: ApFpu)
    requires
        old(f).wf(),
        old(f).cpu_count() < usize::MAX,
    ensures
        final(f).wf(),
        final(f).choice() == old(f).choice(),
        final(f).avx_task_spec() == old(f).avx_task_spec(),
        match old(f).choice() {
            None => r is Legacy && final(f).cpu_count() == old(f).cpu_count(),
            Some(p) => match taken {
                None => r is CannotFollow && final(f).cpu_count() == old(f).cpu_count(),
                Some(q) => final(f).cpu_count() == old(f).cpu_count() + 1 && r == if q.size
                    == p.size {
                    ApFpu::Same
                } else {
                    ApFpu::SizeDiffers(q.size)
                },
            },
        },
{
    if !f.xsave {
        return ApFpu::Legacy;
    }
    match taken {
        None => ApFpu::CannotFollow,
        Some(q) => {
            f.cpus = f.cpus + 1;
            if q.size == f.size {
                ApFpu::Same
            } else {
                ApFpu::SizeDiffers(q.size)
            }
        },
    }
}

/// Extended saving is in use.
pub fn xsave_enabled(f: &Fpu) -> (r: bool)
    ensures
        r == f.choice() is Some,
{
    f.xsave
}

/// The upper vector halves are saved.
pub fn avx_enabled(f: &Fpu) -> (r: bool)
    requires
        f.wf(),
    ensures
        r == (f.choice() is Some && f.choice()->0.avx),
{
    f.avx
}

/// Bytes that one save writes.
pub fn area_size(f: &Fpu) -> (r: usize)
    requires
        f.wf(),
    ensures
        r == match f.choice() {
            Some(p) => p.size,
            None => 512,
        },
        f.choice() is Some ==> 576 <= r <= AREA_CAPACITY,
{
    f.size
}

/// CPUs that programmed the components.
pub fn xsave_cpu_count(f: &Fpu) -> (r: usize)
    ensures
        r == f.cpu_count(),
{
    f.cpus
}

/// The components enabled, 0 without extended saving.
pub fn xcr0(f: &Fpu) -> (r: u64)
    requires
        f.wf(),
    ensures
        r == match f.choice() {
            Some(p) => p.xcr0,
            None => 0,
        },
        f.choice() is Some ==> r <= 7 && r / 2 % 2 == 1 && f.choice()->0.avx == (r / 4 % 2 == 1),
{
    f.xcr0
}

/// The task that checks the vector registers, `usize::MAX` for none.
pub fn avx_task_index(f: &Fpu) -> (r: usize)
    ensures
        r == f.avx_task_spec(),
{
    f.avx_task
}

/// Register the calling task as the one that checks the vector registers.
pub fn avx_register_task(f: &mut Fpu, current: usize)
    requires
        old(f).wf(),
    ensures
        final(f).wf(),
        final(f).avx_task_spec() == current,
        final(f).choice() == old(f).choice(),
        final(f).cpu_count() == old(f).cpu_count(),
{
    f.avx_task = current;
}

/// The state-component mask in an image: the first word after the 512-byte
/// legacy region.
pub fn image_xstate_bv(area: &FpuArea) -> (r: u64)
    requires
        area.wf(),
    ensures
        r == crate::bytes::le64(area.bytes@, 512),
{
    crate::bytes::get_u64(area.bytes.as_slice(), 512)
}

// ---------------------------------------------------------------------------
// The vector-register check
// ---------------------------------------------------------------------------

/// Additions per round.
pub const AVX_CHECK_ITERS: i32 = 20_000_000;

/// How a round of the vector-register check went.
#[derive(Clone, Copy, PartialEq, Eq, Debug)]
pub enum AvxRound {
    /// Both registers hold what they should after `switches` task switches.
    Pass,
    /// No task switch happened: the round shows nothing.
    Weak,
    /// This many of the sixteen lanes are wrong.
    Failed(u8),
}

/// Lane `i` of the register seeded with `base` holds what it must after a
/// round, counted in 32 bits.
pub open spec fn lane_right(got: i32, base: int, i: int) -> bool {
    (base + i + AVX_CHECK_ITERS - got) % 0x1_0000_0000 == 0
}

/// Wrong lanes among the first `n` of a register.
pub open spec fn wrong_lanes(lanes: Seq<i32>, base: int, n: int) -> int
    decreases n,
{
    if n <= 0 {
        0
    } else {
        wrong_lanes(lanes, base, n - 1) + if lane_right(lanes[n - 1], base, n - 1) {
            0int
        } else {
            1
        }
    }
}

fn count_wrong(lanes: &[i32; 8], base: i64) -> (r: u8)
    requires
        i32::MIN <= base <= i32::MAX + 1000,
    ensures
        r == wrong_lanes(lanes@, base as int, 8),
        r <= 8,
{
    let mut n: u8 = 0;
    let mut i: usize = 0;
    while i < 8
        invariant
            i <= 8,
            n <= i,
            i32::MIN <= base <= i32::MAX + 1000,
            n == wrong_lanes(lanes@, base as int, i as int),
        decreases 8 - i,
    {
        let off: i64 = base + i as i64 + AVX_CHECK_ITERS as i64 - lanes[i] as i64
            + 0x4_0000_0000;
        if off % 0x1_0000_0000 != 0 {
            n = n + 1;
        }
        i += 1;
    }
    n
}

/// Judge one round: two registers of eight lanes, seeded with `seed` and
/// `seed + 1000`, and the task switches during the round. Lanes are counted in
/// 32 bits, past the largest value on from the smallest.
pub fn avx_test_task(lanes0: &[i32; 8], lanes1: &[i32; 8], seed: i32, switches: u64) -> (r:
    AvxRound)
    ensures
        ({
            let bad = wrong_lanes(lanes0@, seed as int, 8) + wrong_lanes(lanes1@, seed + 1000, 8);
            r == if bad > 0 {
                AvxRound::Failed(bad as u8)
            } else if switches == 0 {
                AvxRound::Weak
            } else {
                AvxRound::Pass
            }
        }),
{
    let bad = count_wrong(lanes0, seed as i64) + count_wrong(lanes1, seed as i64 + 1000);
    if bad > 0 {
        AvxRound::Failed(bad)
    } else if switches == 0 {
        AvxRound::Weak
    } else {
        AvxRound::Pass
    }
}

/// The next round's seed.
pub fn next_seed(seed: i32) -> (r: i32)
    ensures
        seed <= i32::MAX - 10_000 ==> r == seed + 10_000,
        seed > i32::MAX - 10_000 ==> r == seed + 10_000 - 0x1_0000_0000,
{
    if seed <= i32::MAX - 10_000 {
        seed + 10_000
    } else {
        (seed as i64 + 10_000 - 0x1_0000_0000) as i32
    }
}

/// A plan never enables the upper vector halves without the lower ones, and
/// its image fits.
pub proof fn law_plan_is_valid(c: CpuFeatures)
    requires
        plannable(c),
    ensures
        components(c) / 2 % 2 == 1,
        components(c) <= 7,
        576 <= image_size(c) <= AREA_CAPACITY,
{
}

} // verus!
