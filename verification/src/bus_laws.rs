//! What the tables and registers of the machine mean: the configuration space of the bus, the
//! tables of the firmware, and the vectors and masks of the interrupt controllers.
use vstd::prelude::*;

use crate::acpi::{
    byte_at, byte_sum, directory_effect, directory_entry, directory_len, directory_ok, discovered,
    madt_count, madt_has_record, madt_record, madt_walk, no_records, rsdp_at, rsdp_signature,
    rsdp_xsdt, scan_place, table_kind, table_ok, tag_apic, tag_at, tag_facp, tag_hpet, word_at,
    AcpiView, MadtCounts, TableKind,
};
use crate::apic::{globally_enabled, lapic_phys};
use crate::fpu::{avx_usable, components, image_size, plannable, wrong_lanes, CpuFeatures};
use crate::gdt::selector;
use crate::interrupts::{is_exception, source, Source};
use crate::pci::{
    bar_from, config_addr_spec, decoded, device_wf, display_of, first_display, first_vga,
    function_count, is_vga, present, present_functions, sized_bar, DeviceRegs, FunctionRegs,
    PciFunction,
};
use crate::pic::masked;
use crate::screen_laws::bit_at;
use crate::time::invariant_spec;

verus! {

/// A configuration address holds the bus, the device, the function and the register, in eight,
/// five, three and eight bits from bit 16 down, and bit 31 set. It names a whole word.
#[verifier::spinoff_prover]
#[verifier::rlimit(40)]
pub proof fn law_config_address(bus: u8, device: u8, function: u8, offset: u8)
    requires
        device < 32,
        function < 8,
    ensures
        ({
            let a = config_addr_spec(bus, device, function, offset);
            &&& a / 0x8000_0000 == 1
            &&& a / 65536 % 256 == bus
            &&& a / 2048 % 32 == device
            &&& a / 256 % 8 == function
            &&& a % 4 == 0
            &&& 0 <= offset - a % 256 < 4
            &&& a / 0x100_0000 == 128
        }),
{
    let a = config_addr_spec(bus, device, function, offset);
    let q = offset as int / 4;
    let h = 0x10_0000 + 32 * bus + device;
    let k = 0x80_0000 + 256 * bus + 8 * device + function;
    assert(offset - offset % 4 == 4 * q);
    assert(a == 256 * k + 4 * q);
    assert(a / 256 == k && a % 256 == 4 * q);
    assert(a / 2048 == h) by {
        assert(a == 2048 * h + (256 * function + 4 * q));
    }
    assert(a / 65536 == 0x8000 + bus) by {
        assert(a == 65536 * (0x8000 + bus) + (2048 * device + 256 * function + 4 * q));
    }
    assert(a % 4 == 0) by {
        assert(a == 4 * (64 * k + q));
    }
}

/// The byte at a place of a function's configuration space.
pub open spec fn config_at(r: FunctionRegs, k: int) -> int {
    let w = r.words@[k / 4];
    if k % 4 == 0 {
        w as int % 256
    } else if k % 4 == 1 {
        w as int / 256 % 256
    } else if k % 4 == 2 {
        w as int / 65536 % 256
    } else {
        w as int / 16777216
    }
}

/// A function's configuration space starts with its vendor and its device, two bytes each; the
/// bytes 9, 10 and 11 are its interface, subclass and class; six words from byte 16 on are its
/// regions.
#[verifier::spinoff_prover]
#[verifier::rlimit(40)]
pub proof fn law_configuration(f: PciFunction, bus: u8, device: u8, function: u8, r: FunctionRegs)
    requires
        r.wf(),
        decoded(f, bus, device, function, r),
    ensures
        f.bus == bus,
        f.device == device,
        f.function == function,
        f.vendor_id == config_at(r, 0) + 256 * config_at(r, 1),
        f.device_id == config_at(r, 2) + 256 * config_at(r, 3),
        f.prog_if == config_at(r, 9),
        f.subclass == config_at(r, 10),
        f.class == config_at(r, 11),
        forall|i: int|
            0 <= i < 6 ==> (#[trigger] f.bars@[i]).0 == (config_at(r, 16 + 4 * i) % 2 == 1
                && r.words@[4 + i] >= 4),
{
    assert forall|i: int| 0 <= i < 6 implies (#[trigger] f.bars@[i]).0 == (config_at(r, 16 + 4 * i) % 2 == 1
        && r.words@[4 + i] >= 4) by {
        assert((16 + 4 * i) / 4 == 4 + i);
        assert((16 + 4 * i) % 4 == 0);
        let w = r.words@[4 + i] as int;
        assert(w % 256 % 2 == w % 2);
    }
}

/// A device that answers has one function, or eight where bit 7 of byte 14 says so; one whose
/// vendor reads as all ones has none.
pub proof fn law_functions(r: FunctionRegs)
    requires
        r.wf(),
    ensures
        config_at(r, 0) == 255 && config_at(r, 1) == 255 <==> function_count(r.words@[0], r.words@[3]) == 0,
        function_count(r.words@[0], r.words@[3]) != 0 ==> (config_at(r, 14) >= 128 <==> function_count(
            r.words@[0],
            r.words@[3],
        ) == 8),
        function_count(r.words@[0], r.words@[3]) != 0 ==> (config_at(r, 14) < 128 <==> function_count(
            r.words@[0],
            r.words@[3],
        ) == 1),
{
}

/// The functions found on a device are those that answer, in order.
#[verifier::spinoff_prover]
#[verifier::rlimit(40)]
pub proof fn law_present_functions(d: DeviceRegs, n: int)
    requires
        0 <= n <= d.functions@.len(),
    ensures
        forall|f: int|
            #![trigger present_functions(d, n).contains(f)]
            present_functions(d, n).contains(f) <==> 0 <= f < n && d.functions@[f].words@[0] % 65536 != 65535,
        forall|i: int, j: int|
            0 <= i < j < present_functions(d, n).len() ==> #[trigger] present_functions(d, n)[i]
                < #[trigger] present_functions(d, n)[j],
    decreases n,
{
    if n > 0 {
        law_present_functions(d, n - 1);
        let a = present_functions(d, n - 1);
        let b = present_functions(d, n);
        assert forall|i: int| 0 <= i < a.len() implies #[trigger] a[i] < n - 1 by {
            assert(a.contains(a[i]));
        }
        if b != a {
            assert(b == a.push(n - 1));
            assert forall|f: int| #![trigger b.contains(f)] b.contains(f) <==> a.contains(f) || f == n - 1 by {
                if a.contains(f) {
                    let i = choose|i: int| 0 <= i < a.len() && a[i] == f;
                    assert(b[i] == f);
                }
                if f == n - 1 {
                    assert(b[a.len() as int] == f);
                }
                if b.contains(f) && f != n - 1 {
                    let i = choose|i: int| 0 <= i < b.len() && b[i] == f;
                    assert(a[i] == f);
                }
            }
        }
    }
}

/// A region register below four tells of none. Its lowest bit tells ports from memory, and its
/// base is a whole page. Only a memory region of a display that is no pair of registers is
/// measured, by the bits that stick when all are set.
#[verifier::spinoff_prover]
#[verifier::rlimit(40)]
pub proof fn law_regions(class: u8, raw: u32, mask: u32)
    ensures
        raw < 4 ==> sized_bar(class, raw, mask) == (false, 0u32, 0u32),
        raw >= 4 ==> sized_bar(class, raw, mask).0 == (raw % 2 == 1),
        raw >= 4 ==> sized_bar(class, raw, mask).1 % 4096 == 0 && 0 <= raw - sized_bar(class, raw, mask).1 < 4096,
        raw >= 4 && (class != 3 || raw % 2 == 1 || raw % 8 / 2 == 2) ==> sized_bar(class, raw, mask).2
            == u32::MAX,
        raw >= 4 && class == 3 && raw % 2 == 0 && raw % 8 / 2 != 2 && mask >= 16 ==> {
            let s = sized_bar(class, raw, mask).2;
            &&& (s + mask - mask % 16) == 0x1_0000_0000
        },
        raw >= 4 && class == 3 && mask < 16 ==> sized_bar(class, raw, mask).2 == u32::MAX,
{
    assert(raw / 2 % 4 == raw % 8 / 2);
}

/// The display of the machine is the first function of the class of displays that can show the
/// old screen, else the first of that class.
#[verifier::spinoff_prover]
#[verifier::rlimit(40)]
pub proof fn law_display(ds: Seq<PciFunction>, k: int)
    requires
        0 <= k < ds.len(),
        ds[k].class == 3,
    ensures
        display_of(ds) is Some,
        display_of(ds)->0.class == 3,
        ds[k].subclass == 0 ==> display_of(ds)->0.subclass == 0,
        ds[k].subclass == 0 && (forall|j: int|
            0 <= j < k ==> !((#[trigger] ds[j]).class == 3 && ds[j].subclass == 0)) ==> display_of(ds)
            == Some(ds[k]),
        (forall|j: int| 0 <= j < ds.len() ==> !((#[trigger] ds[j]).class == 3 && ds[j].subclass == 0)) && (
        forall|j: int| 0 <= j < k ==> (#[trigger] ds[j]).class != 3) ==> display_of(ds) == Some(ds[k]),
{
    lemma_first_display(ds, k);
    if is_vga(ds[k]) {
        lemma_first_vga(ds, k);
    }
    if exists|i: int| first_vga(ds, i) {
        let i = choose|i: int| first_vga(ds, i);
        if ds[k].subclass == 0 && (forall|j: int|
            0 <= j < k ==> !((#[trigger] ds[j]).class == 3 && ds[j].subclass == 0)) {
            if i < k {
                assert(is_vga(ds[i]));
            }
            if k < i {
                assert(!is_vga(ds[k]));
            }
        }
    } else {
        let i = choose|i: int| first_display(ds, i);
        if i < k {
            assert(ds[i].class == 3);
        }
        if k < i {
            assert(ds[k].class != 3);
        }
    }
}

proof fn lemma_first_vga(ds: Seq<PciFunction>, k: int)
    requires
        0 <= k < ds.len(),
        is_vga(ds[k]),
    ensures
        exists|i: int| first_vga(ds, i),
    decreases k,
{
    if exists|j: int| 0 <= j < k && is_vga(#[trigger] ds[j]) {
        let j = choose|j: int| 0 <= j < k && is_vga(#[trigger] ds[j]);
        lemma_first_vga(ds, j);
    } else {
        assert(first_vga(ds, k));
    }
}

proof fn lemma_first_display(ds: Seq<PciFunction>, k: int)
    requires
        0 <= k < ds.len(),
        ds[k].class == 3,
    ensures
        exists|i: int| first_display(ds, i),
    decreases k,
{
    if exists|j: int| 0 <= j < k && (#[trigger] ds[j]).class == 3 {
        let j = choose|j: int| 0 <= j < k && (#[trigger] ds[j]).class == 3;
        lemma_first_display(ds, j);
    } else {
        assert(first_display(ds, k));
    }
}

/// The frame buffer is the first region that is memory with a base and a known size.
pub proof fn law_framebuffer_region(f: PciFunction, i: int, k: int)
    requires
        0 <= i <= k < 6,
        forall|j: int|
            i <= j < k ==> (#[trigger] f.bars@[j]).0 || f.bars@[j].1 == 0 || f.bars@[j].2 == 0 || f.bars@[j].2
                == u32::MAX,
    ensures
        !f.bars@[k].0 && f.bars@[k].1 != 0 && f.bars@[k].2 != 0 && f.bars@[k].2 != u32::MAX ==> bar_from(f, i)
            == Some((k as usize, f.bars@[k].1, f.bars@[k].2)),
        k == 5 && (f.bars@[5].0 || f.bars@[5].1 == 0 || f.bars@[5].2 == 0 || f.bars@[5].2 == u32::MAX)
            ==> bar_from(f, i) is None,
    decreases k - i,
{
    if i < k {
        let b = f.bars@[i];
        law_framebuffer_region(f, i + 1, k);
    } else {
        reveal_with_fuel(bar_from, 2);
    }
}

/// A table of the firmware is whole where its bytes, as many as it says in the four from 4 on,
/// add up to nothing. It is searched on every sixteenth byte below the first megabyte.
pub proof fn law_firmware_tables(mem: Seq<u8>, a: int)
    ensures
        table_ok(mem, a) <==> word_at(mem, a + 4) >= 36 && byte_sum(mem, a, word_at(mem, a + 4)) % 256 == 0,
        scan_place(a) <==> 0xE0000 <= a < 0x100000 && a % 16 == 0,
        rsdp_at(mem, a) ==> byte_sum(mem, a, 20) % 256 == 0,
{
}

/// The sum of the bytes of two neighbouring ranges.
pub proof fn law_byte_sum(mem: Seq<u8>, a: int, n: int, m: int)
    requires
        n >= 0,
        m >= 0,
        0 <= a,
        a + n + m <= mem.len(),
    ensures
        byte_sum(mem, a, n + m) == byte_sum(mem, a, n) + byte_sum(mem, a + n, m),
        m == 1 ==> byte_sum(mem, a + n, m) == mem[a + n],
    decreases m,
{
    reveal_with_fuel(byte_sum, 2);
    if m > 0 {
        law_byte_sum(mem, a, n, m - 1);
        assert(a + n + m - 1 == a + (n + m) - 1);
    }
}

/// The root points at the wide directory, from revision two on, in the eight bytes from 24
/// on. A directory's entries follow its header of 36 bytes, eight bytes each in the wide one
/// and four in the other, as many as its length holds.
pub proof fn law_directories(mem: Seq<u8>, a: int, i: int)
    requires
        word_at(mem, a + 4) >= 36,
        0 <= i,
    ensures
        byte_of(mem, a + 15) < 2 ==> rsdp_xsdt(mem, a) == 0,
        byte_of(mem, a + 15) >= 2 ==> rsdp_xsdt(mem, a) == word_at(mem, a + 24) + 0x1_0000_0000 * word_at(
            mem,
            a + 28,
        ),
        directory_entry(mem, a, true, i) == word_at(mem, a + 36 + 8 * i) + 0x1_0000_0000 * word_at(
            mem,
            a + 40 + 8 * i,
        ),
        directory_entry(mem, a, false, i) == word_at(mem, a + 36 + 4 * i),
        36 + 8 * directory_len(mem, a, true) <= word_at(mem, a + 4) < 36 + 8 * (directory_len(mem, a, true) + 1),
        36 + 4 * directory_len(mem, a, false) <= word_at(mem, a + 4) < 36 + 4 * (directory_len(mem, a, false)
            + 1),
{
}

/// A byte of the firmware's memory.
pub open spec fn byte_of(mem: Seq<u8>, a: int) -> int {
    if 0 <= a < mem.len() {
        mem[a] as int
    } else {
        0
    }
}

/// A record of the interrupt controllers starts with its type and its length. Type 0 is a
/// processor: its number in byte 3, and in bit 0 of byte 4 whether it can be used. Type 1 is a
/// controller: its address from byte 4 on, its first line from byte 8 on.
#[verifier::spinoff_prover]
#[verifier::rlimit(40)]
pub proof fn law_controller_records(v: AcpiView, mem: Seq<u8>, a: int)
    ensures
        byte_of(mem, a) == 0 && byte_of(mem, a + 4) % 2 == 1 && v.lapics.len() < 8 ==> {
            let w = madt_record(v, mem, a);
            &&& w.lapics.len() == v.lapics.len() + 1
            &&& w.lapics.last() == byte_of(mem, a + 3)
            &&& w.lapics.drop_last() =~= v.lapics
            &&& w.ioapic == v.ioapic && w.gsi_base == v.gsi_base
        },
        byte_of(mem, a) == 0 && (byte_of(mem, a + 4) % 2 == 0 || v.lapics.len() >= 8) ==> madt_record(
            v,
            mem,
            a,
        ) == v,
        byte_of(mem, a) == 1 ==> {
            let w = madt_record(v, mem, a);
            &&& w.lapics == v.lapics
            &&& w.ioapic == word_at(mem, a + 4)
            &&& w.gsi_base == word_at(mem, a + 8)
        },
        byte_of(mem, a) > 1 ==> madt_record(v, mem, a) == v,
        madt_record(v, mem, a).tables == v.tables,
{
    let b = byte_of(mem, a + 4);
    assert(word_at(mem, a + 4) % 2 == b % 2);
}

/// A record belongs to a table where the table has room for its head and for its length, two
/// bytes at least.
pub proof fn law_controller_walk(mem: Seq<u8>, base: int, len: int, off: int)
    ensures
        madt_has_record(mem, base, len, off) <==> off + 2 <= len && byte_of(mem, base + off + 1) >= 2 && off
            + byte_of(mem, base + off + 1) <= len,
{
}

/// Whether four bytes are these letters.
pub open spec fn spells(mem: Seq<u8>, a: int, p: char, q: char, r: char, s: char) -> bool {
    byte_of(mem, a) == p as int && byte_of(mem, a + 1) == q as int && byte_of(mem, a + 2) == r as int && byte_of(
        mem,
        a + 3,
    ) == s as int
}

proof fn lemma_tag(mem: Seq<u8>, a: int)
    ensures
        tag_at(mem, a) == tag_apic() <==> spells(mem, a, 'A', 'P', 'I', 'C'),
        tag_at(mem, a) == tag_hpet() <==> spells(mem, a, 'H', 'P', 'E', 'T'),
        tag_at(mem, a) == tag_facp() <==> spells(mem, a, 'F', 'A', 'C', 'P'),
{
}

proof fn lemma_low_48(lo: int, hi: int)
    requires
        0 <= lo < 0x1_0000_0000,
        0 <= hi < 0x1_0000_0000,
    ensures
        (lo + 0x1_0000_0000 * hi) % 0x1_0000_0000_0000 == lo + 0x1_0000_0000 * (hi % 65536),
{
    let q = hi / 65536;
    assert(hi == 65536 * q + hi % 65536);
    assert(lo + 0x1_0000_0000 * hi == 0x1_0000_0000_0000 * q + (lo + 0x1_0000_0000 * (hi % 65536)));
}

/// The tables are told apart by their four letters.
#[verifier::spinoff_prover]
#[verifier::rlimit(40)]
pub proof fn law_table_kinds(v: AcpiView, mem: Seq<u8>, a: int)
    ensures
        table_kind(v, mem, a) is Madt <==> spells(mem, a, 'A', 'P', 'I', 'C'),
        table_kind(v, mem, a) is Hpet <==> spells(mem, a, 'H', 'P', 'E', 'T'),
        table_kind(v, mem, a) is Facp <==> spells(mem, a, 'F', 'A', 'C', 'P'),
{
    lemma_tag(mem, a);
}

/// The timer's table tells where its registers are in the eight bytes from 52 on, of which 48
/// bits count.
#[verifier::spinoff_prover]
#[verifier::rlimit(40)]
pub proof fn law_timer_table(v: AcpiView, mem: Seq<u8>, a: int)
    ensures
        table_kind(v, mem, a) matches TableKind::Hpet(Some(x)) ==> x == word_at(mem, a + 52) + 0x1_0000_0000 * (
        word_at(mem, a + 56) % 65536),
        table_kind(v, mem, a) matches TableKind::Hpet(x) ==> (x is Some <==> word_at(mem, a + 4) >= 60),
{
    lemma_tag(mem, a);
    lemma_low_48(word_at(mem, a + 52), word_at(mem, a + 56));
}

/// Bit 11 of the base register enables the local controller, and its registers lie on the page
/// that bits 12 to 31 name.
pub proof fn law_local_controller(base: u64)
    ensures
        globally_enabled(base) <==> base as int / 2048 % 2 == 1,
        lapic_phys(base) % 4096 == 0,
        0 <= lapic_phys(base) < 0x1_0000_0000,
        lapic_phys(base) / 4096 == base as int / 4096 % 0x10_0000,
{
}

/// Every vector below 32 that is used is an exception, and none above is; no two vectors have
/// the same source.
pub proof fn law_vectors(a: u8, b: u8)
    ensures
        source(a) is Some && source(a) == source(b) ==> a == b,
        source(a) is Some ==> (is_exception(source(a)->0) <==> a < 32),
        source(a) == Some(Source::DoubleFault) <==> a == 8,
        source(a) == Some(Source::GeneralProtection) <==> a == 13,
        source(a) == Some(Source::PageFault) <==> a == 14,
        source(a) == Some(Source::Breakpoint) <==> a == 3,
        source(a) == Some(Source::Pit) <==> a == 32,
        source(a) == Some(Source::Keyboard) <==> a == 32 + 1,
        source(a) == Some(Source::Mouse) <==> a == 32 + 12,
        source(a) == Some(Source::LapicTimer) <==> a == 48,
        source(a) == Some(Source::Reschedule) <==> a == 49,
        source(a) == Some(Source::Spurious) <==> a == 255,
{
}

/// A selector is the number of its descriptor, with the privilege in the lowest two bits.
pub proof fn law_selectors(index: int, rpl: int)
    requires
        0 <= rpl < 4,
        0 <= index,
    ensures
        selector(index, rpl) / 8 == index,
        selector(index, rpl) % 4 == rpl,
        selector(index, rpl) / 4 % 2 == 0,
{
}

/// The registers that are saved: the older ones where the processor offers them, the middle
/// ones always, the wide ones where it has them, can save them and says where. The image has
/// room for its head and for each part.
#[verifier::spinoff_prover]
#[verifier::rlimit(40)]
pub proof fn law_saved_state(c: CpuFeatures)
    ensures
        components(c) % 2 == c.supported % 2,
        components(c) / 2 % 2 == 1,
        components(c) / 4 == if avx_usable(c) { 1int } else { 0 },
        avx_usable(c) <==> c.leaf1_ecx as int / 0x1000_0000 % 2 == 1 && c.supported as int / 2 % 4 == 3
            && c.ymm_size != 0,
        image_size(c) >= 512 + 64,
        avx_usable(c) ==> image_size(c) >= c.ymm_offset + c.ymm_size,
        image_size(c) == 512 + 64 || image_size(c) == c.ymm_offset + c.ymm_size,
        plannable(c) <==> c.leaf1_ecx as int / 0x400_0000 % 2 == 1 && c.supported as int / 2 % 2 == 1
            && image_size(c) <= 2048,
{
}

/// A line of the old controllers is masked by a bit of its own: bit `irq` of the first byte for
/// the lines below eight, bit `irq - 8` of the second for the others.
pub proof fn law_masked_lines(m: (u8, u8), irq: u8)
    requires
        irq < 16,
    ensures
        masked(m, irq) <==> bit_at(if irq < 8 { m.0 } else { m.1 }, irq as int % 8) == 1,
{
    let v = if irq < 8 { m.0 } else { m.1 };
    let q = (irq % 8) as u8;
    lemma_bit(v);
    assert(q == 0 || q == 1 || q == 2 || q == 3 || q == 4 || q == 5 || q == 6 || q == 7);
    if irq >= 8 {
        assert(irq - 8 == q);
    }
}

proof fn lemma_bit(v: u8)
    ensures
        (v & (1u8 << 0u8) != 0) == (v % 2 == 1),
        (v & (1u8 << 1u8) != 0) == (v / 2 % 2 == 1),
        (v & (1u8 << 2u8) != 0) == (v / 4 % 2 == 1),
        (v & (1u8 << 3u8) != 0) == (v / 8 % 2 == 1),
        (v & (1u8 << 4u8) != 0) == (v / 16 % 2 == 1),
        (v & (1u8 << 5u8) != 0) == (v / 32 % 2 == 1),
        (v & (1u8 << 6u8) != 0) == (v / 64 % 2 == 1),
        (v & (1u8 << 7u8) != 0) == (v / 128 % 2 == 1),
{
    assert((v & (1u8 << 0u8) != 0) == (v % 2 == 1) && (v & (1u8 << 1u8) != 0) == (v / 2 % 2 == 1) && (v & (1u8
        << 2u8) != 0) == (v / 4 % 2 == 1) && (v & (1u8 << 3u8) != 0) == (v / 8 % 2 == 1) && (v & (1u8 << 4u8)
        != 0) == (v / 16 % 2 == 1) && (v & (1u8 << 5u8) != 0) == (v / 32 % 2 == 1) && (v & (1u8 << 6u8) != 0)
        == (v / 64 % 2 == 1) && (v & (1u8 << 7u8) != 0) == (v / 128 % 2 == 1)) by (bit_vector);
}

/// The devices of the bus are told in order, and of each the functions that answer among those
/// it has.
pub proof fn law_bus_scan(ds: Seq<DeviceRegs>, n: int, i: int, f: int)
    requires
        0 <= n <= ds.len(),
        forall|k: int| 0 <= k < ds.len() ==> device_wf(#[trigger] ds[k]),
    ensures
        present(ds, n).contains((i, f)) <==> 0 <= i < n && 0 <= f < function_count(
            ds[i].functions@[0].words@[0],
            ds[i].functions@[0].words@[3],
        ) && ds[i].functions@[f].words@[0] % 65536 != 65535,
    decreases n,
{
    if n > 0 {
        law_bus_scan(ds, n - 1, i, f);
        assert(device_wf(ds[n - 1]));
        let d = ds[n - 1];
        let k = function_count(d.functions@[0].words@[0], d.functions@[0].words@[3]);
        law_present_functions(d, k);
        let a = present(ds, n - 1);
        let p = present_functions(d, k);
        let b = p.map_values(|x: int| (n - 1, x));
        let all = present(ds, n);
        assert(all == a + b);
        if a.contains((i, f)) {
            let j = choose|j: int| 0 <= j < a.len() && a[j] == (i, f);
            assert(all[j] == (i, f));
        }
        if i == n - 1 && p.contains(f) {
            let j = choose|j: int| 0 <= j < p.len() && p[j] == f;
            assert(b[j] == (i, f));
            assert(all[a.len() + j] == (i, f));
        }
        if all.contains((i, f)) {
            let j = choose|j: int| 0 <= j < all.len() && all[j] == (i, f);
            if j < a.len() {
                assert(a[j] == (i, f));
            } else {
                assert(b[j - a.len()] == (i, f));
                assert(p[j - a.len()] == f);
                assert(p.contains(f));
            }
        }
    }
}

/// The wide directory is read where the root names a whole one, else the other; without either
/// nothing is known.
pub proof fn law_directory_choice(mem: Seq<u8>, rs: int)
    ensures
        ({
            let none = AcpiView { tables: 0, ioapic: 0, gsi_base: 0, lapics: Seq::empty() };
            let x = rsdp_xsdt(mem, rs);
            let r = word_at(mem, rs + 16);
            &&& x != 0 && directory_ok(mem, x, true) ==> discovered(mem, rs) == directory_effect(
                none,
                mem,
                x,
                true,
                directory_len(mem, x, true),
            )
            &&& (x == 0 || !directory_ok(mem, x, true)) && directory_ok(mem, r, false) ==> discovered(mem, rs)
                == directory_effect(none, mem, r, false, directory_len(mem, r, false))
            &&& (x == 0 || !directory_ok(mem, x, true)) && !directory_ok(mem, r, false) ==> discovered(mem, rs)
                == none
        }),
{
}

/// How many of the first `n` entries of a directory name a whole table.
pub open spec fn whole_tables(mem: Seq<u8>, a: int, wide: bool, n: int) -> int
    decreases n,
{
    if n <= 0 {
        0
    } else {
        let t = directory_entry(mem, a, wide, n - 1);
        whole_tables(mem, a, wide, n - 1) + if t < mem.len() && word_at(mem, t + 4) >= 36 && byte_sum(
            mem,
            t,
            word_at(mem, t + 4),
        ) % 256 == 0 {
            1int
        } else {
            0
        }
    }
}

/// The tables that a directory names are counted where they are whole.
pub proof fn law_tables_are_counted(v: AcpiView, mem: Seq<u8>, a: int, wide: bool, n: int)
    requires
        0 <= n,
    ensures
        directory_effect(v, mem, a, wide, n).tables == v.tables + whole_tables(mem, a, wide, n),
    decreases n,
{
    if n > 0 {
        law_tables_are_counted(v, mem, a, wide, n - 1);
        let w = directory_effect(v, mem, a, wide, n - 1);
        let t = directory_entry(mem, a, wide, n - 1);
        let c = AcpiView { tables: w.tables + 1, ..w };
        lemma_walk_keeps_count(c, no_records(), mem, t, word_at(mem, t + 4), 44);
    }
}

proof fn lemma_walk_keeps_count(v: AcpiView, c: MadtCounts, mem: Seq<u8>, base: int, len: int, off: int)
    ensures
        madt_walk(v, c, mem, base, len, off).0.tables == v.tables,
    decreases len - off,
{
    if madt_has_record(mem, base, len, off) {
        lemma_walk_keeps_count(
            madt_record(v, mem, base + off),
            madt_count(c, byte_at(mem, base + off)),
            mem,
            base,
            len,
            off + byte_at(mem, base + off + 1),
        );
    }
}

/// A directory is one where its table is whole and its letters are right.
pub proof fn law_directory_letters(mem: Seq<u8>, a: int)
    ensures
        directory_ok(mem, a, true) ==> spells(mem, a, 'X', 'S', 'D', 'T') && table_ok(mem, a),
        directory_ok(mem, a, false) ==> spells(mem, a, 'R', 'S', 'D', 'T') && table_ok(mem, a),
{
}

/// The root is found by its eight letters.
pub proof fn law_root_letters(mem: Seq<u8>, a: int)
    ensures
        rsdp_signature(mem, a) <==> spells(mem, a, 'R', 'S', 'D', ' ') && spells(mem, a + 4, 'P', 'T', 'R', ' '),
{
}

/// The wide registers were kept where each of their eight lanes counted on from its start.
pub proof fn law_lanes(lanes: Seq<i32>, base: int, n: int)
    requires
        0 <= n <= lanes.len(),
    ensures
        0 <= wrong_lanes(lanes, base, n) <= n,
        wrong_lanes(lanes, base, n) == 0 <==> forall|i: int|
            0 <= i < n ==> (base + i + 20_000_000 - #[trigger] lanes[i]) % 0x1_0000_0000 == 0,
    decreases n,
{
    if n > 0 {
        law_lanes(lanes, base, n - 1);
    }
}

/// The counter runs at one rate where the processor says so in bit 8 of the leaf 0x80000007, if it
/// has that leaf.
pub proof fn law_steady_counter(max_leaf: u32, edx: u32)
    ensures
        invariant_spec(max_leaf, edx) <==> max_leaf >= 0x8000_0000 + 7 && (edx as int / 256) % 2 == 1,
{
}

} // verus!
