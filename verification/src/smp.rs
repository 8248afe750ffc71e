//! Several processors: per-CPU blocks, the start-up page for the other CPUs and
//! the interrupts between them.

use crate::bytes::{
    le16_bytes, le32_bytes, le64_bytes, put_bytes, put_u16, put_u32, put_u64, splice, zeros,
};
use vstd::prelude::*;

verus! {

/// CPUs supported.
pub const MAX_CPUS: usize = 4;
/// No task: the CPU is idle.
pub const IDLE_INDEX: usize = usize::MAX;

/// Per-CPU state.
#[derive(Clone, Copy, PartialEq, Eq, Debug, Structural)]
pub struct PerCpu {
    /// CPU index, 0 for the boot CPU.
    pub index: u64,
    pub lapic_id: u32,
    pub online: bool,
    /// The task that runs here.
    pub current: usize,
    /// The task suspended at the last switch, not yet released.
    pub pending_prev: usize,
    /// Kernel stack that system calls switch to.
    pub kstack_top: u64,
    /// Kernel stack while idle.
    pub idle_kstack_top: u64,
    /// Stack for start-up (0 on the boot CPU).
    pub ap_stack_top: u64,
    pub timer_ticks: u64,
    pub switches: u64,
    pub worker_iters: u64,
}

impl PerCpu {
    pub open spec fn fresh(index: u64) -> PerCpu {
        PerCpu {
            index,
            lapic_id: 0,
            online: false,
            current: IDLE_INDEX,
            pending_prev: IDLE_INDEX,
            kstack_top: 0,
            idle_kstack_top: 0,
            ap_stack_top: 0,
            timer_ticks: 0,
            switches: 0,
            worker_iters: 0,
        }
    }

    pub fn new(index: u64) -> (r: PerCpu)
        ensures
            r == PerCpu::fresh(index),
    {
        PerCpu {
            index,
            lapic_id: 0,
            online: false,
            current: IDLE_INDEX,
            pending_prev: IDLE_INDEX,
            kstack_top: 0,
            idle_kstack_top: 0,
            ap_stack_top: 0,
            timer_ticks: 0,
            switches: 0,
            worker_iters: 0,
        }
    }
}

/// The per-CPU blocks and the page reserved for start-up.
pub struct Smp {
    pub cpus: [PerCpu; 4],
    pub low_page: u64,
}

/// Blocks in their initial state.
pub fn new_smp() -> (r: Smp)
    ensures
        r.low_page == 0,
        forall|i: int| 0 <= i < 4 ==> #[trigger] r.cpus@[i] == PerCpu::fresh(i as u64),
{
    Smp {
        cpus: [PerCpu::new(0), PerCpu::new(1), PerCpu::new(2), PerCpu::new(3)],
        low_page: 0,
    }
}

/// CPU `cpu`'s block.
pub fn this_cpu(s: &Smp, cpu: usize) -> (r: PerCpu)
    requires
        cpu < MAX_CPUS,
    ensures
        r == s.cpus@[cpu as int],
{
    s.cpus[cpu]
}

/// Set the kernel stack that system calls on CPU `cpu` switch to.
pub fn set_kstack_top(s: &mut Smp, cpu: usize, top: u64)
    requires
        cpu < MAX_CPUS,
    ensures
        final(s).low_page == old(s).low_page,
        final(s).cpus@ == old(s).cpus@.update(
            cpu as int,
            PerCpu { kstack_top: top, ..old(s).cpus@[cpu as int] },
        ),
{
    s.cpus[cpu].kstack_top = top;
}

/// The kernel stack of CPU `cpu` while it is idle.
pub fn idle_kstack_top(s: &Smp, cpu: usize) -> (r: u64)
    requires
        cpu < MAX_CPUS,
    ensures
        r == s.cpus@[cpu as int].idle_kstack_top,
{
    s.cpus[cpu].idle_kstack_top
}

/// The task that runs on CPU `cpu`.
pub fn current_index(s: &Smp, cpu: usize) -> (r: usize)
    requires
        cpu < MAX_CPUS,
    ensures
        r == s.cpus@[cpu as int].current,
{
    s.cpus[cpu].current
}

/// Is this the boot CPU?
pub fn is_bsp(cpu: usize) -> (r: bool)
    ensures
        r == (cpu == 0),
{
    cpu == 0
}

/// Remember the page below 1 MiB that start-up code is copied to.
pub fn set_low_page(s: &mut Smp, addr: u64)
    ensures
        final(s).low_page == addr,
        final(s).cpus == old(s).cpus,
{
    s.low_page = addr;
}

/// Bring up the boot CPU's block.
pub fn init_bsp(s: &mut Smp, stack_top: u64)
    ensures
        final(s).low_page == old(s).low_page,
        final(s).cpus@ == old(s).cpus@.update(
            0,
            PerCpu {
                online: true,
                current: IDLE_INDEX,
                pending_prev: IDLE_INDEX,
                idle_kstack_top: stack_top,
                kstack_top: stack_top,
                ..old(s).cpus@[0]
            },
        ),
{
    let mut p = s.cpus[0];
    p.online = true;
    p.current = IDLE_INDEX;
    p.pending_prev = IDLE_INDEX;
    p.idle_kstack_top = stack_top;
    p.kstack_top = stack_top;
    s.cpus[0] = p;
}

/// CPUs online among the first `n`.
pub open spec fn online_among(cpus: Seq<PerCpu>, n: int) -> int
    decreases n,
{
    if n <= 0 {
        0
    } else {
        online_among(cpus, n - 1) + if cpus[n - 1].online {
            1int
        } else {
            0
        }
    }
}

/// How many CPUs are online, the boot CPU among them once it is set up.
pub fn online_cpus(s: &Smp) -> (r: usize)
    ensures
        r == online_among(s.cpus@, 4),
        r <= 4,
        s.cpus@[0].online ==> r >= 1,
{
    let mut n: usize = 0;
    let mut i: usize = 0;
    while i < MAX_CPUS
        invariant
            i <= 4,
            n <= i,
            n == online_among(s.cpus@, i as int),
            i > 0 && s.cpus@[0].online ==> n >= 1,
        decreases 4 - i,
    {
        if s.cpus[i].online {
            n += 1;
        }
        i += 1;
    }
    n
}

// ---------------------------------------------------------------------------
// The start-up page
// ---------------------------------------------------------------------------

/// Offsets in the page: slots for CR3, stack and entry, the 64-bit stub, the
/// descriptor table and its operand, the real-mode stack.
pub const OFF_CR3: usize = 0x080;
pub const OFF_RSP: usize = 0x088;
pub const OFF_ENTRY: usize = 0x090;
pub const OFF_STUB64: usize = 0x100;
pub const OFF_GDT: usize = 0x180;
pub const OFF_GDTR: usize = 0x198;
/// The 16-bit code: from real mode into long mode.
pub open spec fn low_code() -> Seq<u8> {
    seq![
        0xFAu8, 0x31, 0xC0, 0x8E, 0xD8, 0x8E, 0xC0, 0x8E, 0xD0, 0xBC, 0x00, 0x00, 0xBE, 0x00, 0x00,
        0x66, 0x0F, 0x01, 0x14, 0x66, 0x0F, 0x20, 0xE0, 0x66, 0x0D, 0xA0, 0x00, 0x00, 0x00, 0x66,
        0x0F, 0x22, 0xE0, 0xBE, 0x00, 0x00, 0x66, 0x8B, 0x04, 0x66, 0x0F, 0x22, 0xD8, 0x66, 0xB9,
        0x80, 0x00, 0x00, 0xC0, 0x0F, 0x32, 0x66, 0x0D, 0x01, 0x09, 0x00, 0x00, 0x0F, 0x30, 0x66,
        0x0F, 0x20, 0xC0, 0x66, 0x0D, 0x01, 0x00, 0x00, 0x80, 0x66, 0x0F, 0x22, 0xC0, 0x66, 0xEA,
        0x00, 0x00, 0x00, 0x00, 0x08, 0x00,
    ]
}

/// The 64-bit stub: data segments, stack, entry.
pub open spec fn stub64() -> Seq<u8> {
    seq![
        0x66u8, 0xB8, 0x10, 0x00, 0x8E, 0xD8, 0x8E, 0xC0, 0x8E, 0xD0, 0x48, 0x8B, 0x24, 0x25, 0x00,
        0x00, 0x00, 0x00, 0x48, 0x8B, 0x04, 0x25, 0x00, 0x00, 0x00, 0x00, 0xFF, 0xE0,
    ]
}

/// Descriptors: null, 64-bit code, flat data.
pub open spec fn gdt_blob() -> Seq<u8> {
    seq![
        0x00u8, 0x00, 0x00, 0x00, 0x00, 0x00, 0x00, 0x00, 0xFF, 0xFF, 0x00, 0x00, 0x00, 0x9A, 0xAF,
        0x00, 0xFF, 0xFF, 0x00, 0x00, 0x00, 0x92, 0xCF, 0x00,
    ]
}

fn low_code_bytes() -> (r: Vec<u8>)
    ensures
        r@ == low_code(),
{
    let a: [u8; 81] = [
        0xFAu8, 0x31, 0xC0, 0x8E, 0xD8, 0x8E, 0xC0, 0x8E, 0xD0, 0xBC, 0x00, 0x00, 0xBE, 0x00, 0x00,
        0x66, 0x0F, 0x01, 0x14, 0x66, 0x0F, 0x20, 0xE0, 0x66, 0x0D, 0xA0, 0x00, 0x00, 0x00, 0x66,
        0x0F, 0x22, 0xE0, 0xBE, 0x00, 0x00, 0x66, 0x8B, 0x04, 0x66, 0x0F, 0x22, 0xD8, 0x66, 0xB9,
        0x80, 0x00, 0x00, 0xC0, 0x0F, 0x32, 0x66, 0x0D, 0x01, 0x09, 0x00, 0x00, 0x0F, 0x30, 0x66,
        0x0F, 0x20, 0xC0, 0x66, 0x0D, 0x01, 0x00, 0x00, 0x80, 0x66, 0x0F, 0x22, 0xC0, 0x66, 0xEA,
        0x00, 0x00, 0x00, 0x00, 0x08, 0x00,
    ];
    let r = crate::bytes::copy_range(a.as_slice(), 0, 81);
    assert(r@ =~= low_code());
    r
}

fn stub64_bytes() -> (r: Vec<u8>)
    ensures
        r@ == stub64(),
{
    let a: [u8; 28] = [
        0x66u8, 0xB8, 0x10, 0x00, 0x8E, 0xD8, 0x8E, 0xC0, 0x8E, 0xD0, 0x48, 0x8B, 0x24, 0x25, 0x00,
        0x00, 0x00, 0x00, 0x48, 0x8B, 0x04, 0x25, 0x00, 0x00, 0x00, 0x00, 0xFF, 0xE0,
    ];
    let r = crate::bytes::copy_range(a.as_slice(), 0, 28);
    assert(r@ =~= stub64());
    r
}

fn gdt_bytes() -> (r: Vec<u8>)
    ensures
        r@ == gdt_blob(),
{
    let a: [u8; 24] = [
        0x00u8, 0x00, 0x00, 0x00, 0x00, 0x00, 0x00, 0x00, 0xFF, 0xFF, 0x00, 0x00, 0x00, 0x9A, 0xAF,
        0x00, 0xFF, 0xFF, 0x00, 0x00, 0x00, 0x92, 0xCF, 0x00,
    ];
    let r = crate::bytes::copy_range(a.as_slice(), 0, 24);
    assert(r@ =~= gdt_blob());
    r
}

/// The page with its code, stub and descriptors, not yet patched.
pub open spec fn bare_page() -> Seq<u8> {
    splice(
        splice(splice(Seq::new(4096, |i: int| 0u8), 0, low_code()), 0x100, stub64()),
        0x180,
        gdt_blob(),
    )
}

/// The page for one CPU: descriptor-table operand, the three slots, and every
/// absolute address inside the code patched for the page's own base.
pub open spec fn start_page(base: int, cr3: int, stack: int, entry: int) -> Seq<u8> {
    let p = bare_page();
    let p = splice(p, 0x198, le16_bytes(0x17));
    let p = splice(p, 0x19A, le32_bytes(base + 0x180));
    let p = splice(p, 0x080, le64_bytes(cr3));
    let p = splice(p, 0x088, le64_bytes(stack));
    let p = splice(p, 0x090, le64_bytes(entry));
    let p = splice(p, 0x00A, le16_bytes(base + 0xF00));
    let p = splice(p, 0x00D, le16_bytes(base + 0x198));
    let p = splice(p, 0x022, le16_bytes(base + 0x080));
    let p = splice(p, 0x04B, le32_bytes(base + 0x100));
    let p = splice(p, 0x10E, le32_bytes(base + 0x088));
    splice(p, 0x116, le32_bytes(base + 0x090))
}

/// The page can hold start-up code: there is one, and its addresses fit in 16
/// bits.
pub open spec fn usable_page(base: u64) -> bool {
    base != 0 && base <= 0xE000
}

/// Is the reserved page usable?
pub fn page_usable(s: &Smp) -> (r: bool)
    ensures
        r == usable_page(s.low_page),
{
    s.low_page != 0 && s.low_page <= 0xE000
}

/// Build the start-up page for one CPU.
pub fn build_page(base: u64, cr3: u64, ap_stack_top: u64, entry: u64) -> (r: Vec<u8>)
    requires
        base <= 0xE000,
    ensures
        r@ == start_page(base as int, cr3 as int, ap_stack_top as int, entry as int),
        r@.len() == 4096,
{
    let mut page = zeros(4096);
    let code = low_code_bytes();
    let stub = stub64_bytes();
    let gdt = gdt_bytes();
    put_bytes(page.as_mut_slice(), 0, code.as_slice());
    put_bytes(page.as_mut_slice(), OFF_STUB64, stub.as_slice());
    put_bytes(page.as_mut_slice(), OFF_GDT, gdt.as_slice());
    put_u16(page.as_mut_slice(), OFF_GDTR, 0x17);
    put_u32(page.as_mut_slice(), OFF_GDTR + 2, (base + 0x180) as u32);
    put_u64(page.as_mut_slice(), OFF_CR3, cr3);
    put_u64(page.as_mut_slice(), OFF_RSP, ap_stack_top);
    put_u64(page.as_mut_slice(), OFF_ENTRY, entry);
    put_u16(page.as_mut_slice(), 0x0A, (base + 0xF00) as u16);
    put_u16(page.as_mut_slice(), 0x0D, (base + 0x198) as u16);
    put_u16(page.as_mut_slice(), 0x22, (base + 0x080) as u16);
    put_u32(page.as_mut_slice(), 0x4B, (base + 0x100) as u32);
    put_u32(page.as_mut_slice(), 0x10E, (base + 0x088) as u32);
    put_u32(page.as_mut_slice(), 0x116, (base + 0x090) as u32);
    page
}

// ---------------------------------------------------------------------------
// Starting the other CPUs
// ---------------------------------------------------------------------------

/// The other CPUs to start: the listed processors but the boot one, in order,
/// on the slots 1 to 3.
pub open spec fn ap_plan(ids: Seq<u8>, bsp_id: u32) -> Seq<u8>
    decreases ids.len(),
{
    if ids.len() == 0 {
        Seq::empty()
    } else {
        let before = ap_plan(ids.drop_last(), bsp_id);
        if ids.last() != bsp_id && before.len() < 3 {
            before.push(ids.last())
        } else {
            before
        }
    }
}

/// The ids of the CPUs to start; slot `k + 1` gets the `k`-th of them.
pub fn start_aps(ids: &[u8; 8], count: usize, bsp_id: u32) -> (r: Vec<u8>)
    requires
        count <= 8,
    ensures
        r@ == ap_plan(ids@.take(count as int), bsp_id),
        r@.len() <= 3,
{
    let mut out: Vec<u8> = Vec::new();
    let mut k: usize = 0;
    assert(ids@.take(0) =~= Seq::<u8>::empty());
    while k < count
        invariant
            k <= count <= 8,
            out@ == ap_plan(ids@.take(k as int), bsp_id),
            out@.len() <= 3,
        decreases count - k,
    {
        assert(ids@.take(k + 1).drop_last() =~= ids@.take(k as int));
        let id = ids[k];
        if id as u32 != bsp_id && out.len() < MAX_CPUS - 1 {
            out.push(id);
        }
        k += 1;
    }
    out
}

/// Publish a CPU's identity and stacks before it can run. Start-up jumps into
/// its code, so the stack is 8 below its 16-byte aligned top.
pub fn publish_ap(s: &mut Smp, cpu: usize, id: u32, top16: u64)
    requires
        0 < cpu < MAX_CPUS,
        top16 >= 16,
    ensures
        final(s).low_page == old(s).low_page,
        final(s).cpus@ == old(s).cpus@.update(
            cpu as int,
            PerCpu {
                lapic_id: id,
                online: false,
                current: IDLE_INDEX,
                pending_prev: IDLE_INDEX,
                idle_kstack_top: top16,
                ap_stack_top: (top16 - 8) as u64,
                ..old(s).cpus@[cpu as int]
            },
        ),
{
    let mut p = s.cpus[cpu];
    p.lapic_id = id;
    p.online = false;
    p.current = IDLE_INDEX;
    p.pending_prev = IDLE_INDEX;
    p.idle_kstack_top = top16;
    p.ap_stack_top = top16 - 8;
    s.cpus[cpu] = p;
}

/// The slot of the CPU with this id: the first that has it.
pub fn ap_slot(s: &Smp, id: u32) -> (r: Option<usize>)
    ensures
        match r {
            Some(i) => i < 4 && s.cpus@[i as int].lapic_id == id && forall|k: int|
                0 <= k < i ==> (#[trigger] s.cpus@[k]).lapic_id != id,
            None => forall|k: int| 0 <= k < 4 ==> (#[trigger] s.cpus@[k]).lapic_id != id,
        },
{
    let mut i: usize = 0;
    while i < MAX_CPUS
        invariant
            i <= 4,
            forall|k: int| 0 <= k < i ==> (#[trigger] s.cpus@[k]).lapic_id != id,
        decreases 4 - i,
    {
        if s.cpus[i].lapic_id == id {
            return Some(i);
        }
        i += 1;
    }
    None
}

/// The command-register values that start a CPU whose code is at page `base`:
/// init, its release, and the start-up command twice.
pub fn startup_commands(base: u64) -> (r: [u32; 4])
    requires
        base <= 0xE000,
    ensures
        r@ == seq![
            0x4500u32,
            0x500u32,
            (0x4600 + base / 0x1000) as u32,
            (0x4600 + base / 0x1000) as u32,
        ],
{
    let v = 0x4600 + (base / 0x1000) as u32;
    let r: [u32; 4] = [0x4500, 0x500, v, v];
    assert(r@ =~= seq![
        0x4500u32,
        0x500u32,
        (0x4600 + base / 0x1000) as u32,
        (0x4600 + base / 0x1000) as u32,
    ]);
    r
}

/// The command-register value of a plain interrupt to another CPU.
pub fn send_ipi(vector: u8) -> (r: u32)
    ensures
        r == 0x4000 + vector,
{
    0x4000 + vector as u32
}

/// The ids of the online CPUs among the first `n` but `me`.
pub open spec fn others(cpus: Seq<PerCpu>, me: usize, n: int) -> Seq<u32>
    decreases n,
{
    if n <= 0 {
        Seq::empty()
    } else if n - 1 != me && cpus[n - 1].online {
        others(cpus, me, n - 1).push(cpus[n - 1].lapic_id)
    } else {
        others(cpus, me, n - 1)
    }
}

/// Whom to interrupt when a task becomes ready: every other online CPU, none
/// while only one is online.
pub fn kick_others(s: &Smp, me: usize) -> (r: Vec<u32>)
    ensures
        r@ == if online_among(s.cpus@, 4) <= 1 {
            Seq::<u32>::empty()
        } else {
            others(s.cpus@, me, 4)
        },
{
    let mut out: Vec<u32> = Vec::new();
    if online_cpus(s) <= 1 {
        return out;
    }
    let mut i: usize = 0;
    while i < MAX_CPUS
        invariant
            i <= 4,
            out@ == others(s.cpus@, me, i as int),
        decreases 4 - i,
    {
        if i != me && s.cpus[i].online {
            out.push(s.cpus[i].lapic_id);
        }
        i += 1;
    }
    out
}

/// The bits of EFER that another CPU may copy; the long-mode-active bit is
/// read-only.
pub const EFER_WRITABLE_MASK: u64 = 0xE_F901;

/// The EFER value for another CPU: its own with the boot CPU's writable bits.
pub fn mirrored_efer(own: u64, bsp: u64) -> (r: u64)
    ensures
        r == own | (bsp & EFER_WRITABLE_MASK),
        own & 0x400 == 0 ==> r & 0x400 == 0,
{
    proof {
        assert(own & 0x400 == 0 ==> (own | (bsp & 0xE_F901)) & 0x400 == 0) by (bit_vector);
    }
    own | (bsp & EFER_WRITABLE_MASK)
}

} // verus!
