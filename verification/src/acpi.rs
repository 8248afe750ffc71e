//! ACPI discovery: RSDP, the RSDT/XSDT directory and the MADT.
//!
//! Tables lie anywhere in physical memory, at odd addresses too, and are read
//! byte by byte through a window that shows physical memory from address 0 on.
//! An address beyond the window reads as zero.
use vstd::prelude::*;

verus! {

/// Enabled processors remembered at most.
pub const LAPIC_MAX: usize = 8;

/// Where the I/O APIC is wired.
pub const IOAPIC_WIRED: u64 = 0xFEC0_0000;

// ---------------------------------------------------------------------------
// Reading
// ---------------------------------------------------------------------------

/// The byte at a physical address.
pub open spec fn byte_at(mem: Seq<u8>, a: int) -> u8 {
    if 0 <= a < mem.len() {
        mem[a]
    } else {
        0
    }
}

/// The 32-bit little-endian field at a physical address.
pub open spec fn word_at(mem: Seq<u8>, a: int) -> int {
    byte_at(mem, a) + 0x100 * byte_at(mem, a + 1) + 0x1_0000 * byte_at(mem, a + 2) + 0x100_0000
        * byte_at(mem, a + 3)
}

/// The 64-bit little-endian field at a physical address.
pub open spec fn quad_at(mem: Seq<u8>, a: int) -> int {
    word_at(mem, a) + 0x1_0000_0000 * word_at(mem, a + 4)
}

fn rd_u8(mem: &[u8], base: u64, off: u64) -> (r: u8)
    ensures
        r == byte_at(mem@, base + off),
{
    let n = mem.len() as u64;
    if base < n && off < n - base {
        mem[(base + off) as usize]
    } else {
        0
    }
}

fn rd_u32(mem: &[u8], base: u64, off: u64) -> (r: u32)
    requires
        off < 0x2_0000_0000,
    ensures
        r == word_at(mem@, base + off),
{
    rd_u8(mem, base, off) as u32 + 0x100 * (rd_u8(mem, base, off + 1) as u32) + 0x1_0000 * (rd_u8(
        mem,
        base,
        off + 2,
    ) as u32) + 0x100_0000 * (rd_u8(mem, base, off + 3) as u32)
}

fn rd_u64(mem: &[u8], base: u64, off: u64) -> (r: u64)
    requires
        off < 0x1_0000_0000,
    ensures
        r == quad_at(mem@, base + off),
{
    rd_u32(mem, base, off) as u64 + 0x1_0000_0000 * (rd_u32(mem, base, off + 4) as u64)
}

/// The sum of `n` bytes from `a` on.
pub open spec fn byte_sum(mem: Seq<u8>, a: int, n: int) -> int
    decreases n,
{
    if n <= 0 {
        0
    } else {
        byte_sum(mem, a, n - 1) + byte_at(mem, a + n - 1)
    }
}

/// The bytes of a structure add up to zero modulo 256.
pub open spec fn sums_to_zero(mem: Seq<u8>, a: int, n: int) -> bool {
    byte_sum(mem, a, n) % 256 == 0
}

/// ACPI checksum over `len` bytes.
pub fn checksum_ok(mem: &[u8], base: u64, len: u64) -> (r: bool)
    ensures
        r == sums_to_zero(mem@, base as int, len as int),
{
    let mut s: u8 = 0;
    let mut i: u64 = 0;
    while i < len
        invariant
            i <= len,
            s as int == byte_sum(mem@, base as int, i as int) % 256,
        decreases len - i,
    {
        let b = rd_u8(mem, base, i);
        let ghost before = byte_sum(mem@, base as int, i as int);
        let t = (s as u16 + b as u16) % 256;
        proof {
            assert((before % 256 + b as int) % 256 == (before + b as int) % 256);
        }
        s = t as u8;
        i += 1;
    }
    s == 0
}

/// Four letters at an address.
pub open spec fn tag_at(mem: Seq<u8>, a: int) -> (u8, u8, u8, u8) {
    (byte_at(mem, a), byte_at(mem, a + 1), byte_at(mem, a + 2), byte_at(mem, a + 3))
}

/// "XSDT", "RSDT", "APIC", "HPET", "FACP".
pub open spec fn tag_xsdt() -> (u8, u8, u8, u8) {
    (0x58, 0x53, 0x44, 0x54)
}

pub open spec fn tag_rsdt() -> (u8, u8, u8, u8) {
    (0x52, 0x53, 0x44, 0x54)
}

pub open spec fn tag_apic() -> (u8, u8, u8, u8) {
    (0x41, 0x50, 0x49, 0x43)
}

pub open spec fn tag_hpet() -> (u8, u8, u8, u8) {
    (0x48, 0x50, 0x45, 0x54)
}

pub open spec fn tag_facp() -> (u8, u8, u8, u8) {
    (0x46, 0x41, 0x43, 0x50)
}

fn tag(mem: &[u8], base: u64) -> (r: (u8, u8, u8, u8))
    ensures
        r == tag_at(mem@, base as int),
{
    (rd_u8(mem, base, 0), rd_u8(mem, base, 1), rd_u8(mem, base, 2), rd_u8(mem, base, 3))
}

fn same_tag(a: (u8, u8, u8, u8), b: (u8, u8, u8, u8)) -> (r: bool)
    ensures
        r == (a == b),
{
    a.0 == b.0 && a.1 == b.1 && a.2 == b.2 && a.3 == b.3
}

/// "RSD PTR " at an address.
pub open spec fn rsdp_signature(mem: Seq<u8>, a: int) -> bool {
    &&& byte_at(mem, a) == 0x52
    &&& byte_at(mem, a + 1) == 0x53
    &&& byte_at(mem, a + 2) == 0x44
    &&& byte_at(mem, a + 3) == 0x20
    &&& byte_at(mem, a + 4) == 0x50
    &&& byte_at(mem, a + 5) == 0x54
    &&& byte_at(mem, a + 6) == 0x52
    &&& byte_at(mem, a + 7) == 0x20
}

fn has_rsdp_signature(mem: &[u8], a: u64) -> (r: bool)
    ensures
        r == rsdp_signature(mem@, a as int),
{
    rd_u8(mem, a, 0) == 0x52 && rd_u8(mem, a, 1) == 0x53 && rd_u8(mem, a, 2) == 0x44 && rd_u8(
        mem,
        a,
        3,
    ) == 0x20 && rd_u8(mem, a, 4) == 0x50 && rd_u8(mem, a, 5) == 0x54 && rd_u8(mem, a, 6) == 0x52
        && rd_u8(mem, a, 7) == 0x20
}

/// A valid RSDP in the BIOS area: signature and checksum.
pub open spec fn rsdp_at(mem: Seq<u8>, a: int) -> bool {
    rsdp_signature(mem, a) && sums_to_zero(mem, a, 20)
}

/// A place where the BIOS area scan looks.
pub open spec fn scan_place(a: int) -> bool {
    0xE_0000 <= a < 0x10_0000 && a % 16 == 0
}

/// Locate the RSDP: the address the bootloader gave where the signature is
/// there, else the lowest valid one in the BIOS area.
pub fn find_rsdp(mem: &[u8], provided: Option<u64>) -> (r: Option<u64>)
    ensures
        ({
            let trusted = provided is Some && rsdp_signature(mem@, provided->0 as int);
            match r {
                Some(a) => {
                    ||| trusted && a == provided->0
                    ||| !trusted && scan_place(a as int) && rsdp_at(mem@, a as int) && forall|b: int|
                        scan_place(b) && b < a ==> !#[trigger] rsdp_at(mem@, b)
                },
                None => !trusted && forall|b: int| scan_place(b) ==> !#[trigger] rsdp_at(mem@, b),
            }
        }),
{
    match provided {
        Some(addr) => {
            if has_rsdp_signature(mem, addr) {
                return Some(addr);
            }
        },
        None => {},
    }
    let mut a: u64 = 0xE_0000;
    while a < 0x10_0000
        invariant
            0xE_0000 <= a <= 0x10_0000,
            a % 16 == 0,
            provided is Some ==> !rsdp_signature(mem@, provided->0 as int),
            forall|b: int| scan_place(b) && b < a ==> !#[trigger] rsdp_at(mem@, b),
        decreases 0x10_0000 - a,
    {
        if has_rsdp_signature(mem, a) && checksum_ok(mem, a, 20) {
            return Some(a);
        }
        assert forall|b: int| scan_place(b) && b < a + 16 implies !#[trigger] rsdp_at(mem@, b) by {
            if b >= a {
                assert(b == a);
            }
        }
        a = a + 16;
    }
    None
}

/// The XSDT's address in an RSDP of revision 2 or later, else 0.
pub open spec fn rsdp_xsdt(mem: Seq<u8>, a: int) -> int {
    if byte_at(mem, a + 15) >= 2 {
        quad_at(mem, a + 24)
    } else {
        0
    }
}

/// Revision and XSDT address of the RSDP.
pub fn parse_rsdp(mem: &[u8], phys: u64) -> (r: (u8, u64))
    ensures
        r.0 == byte_at(mem@, phys + 15),
        r.1 == rsdp_xsdt(mem@, phys as int),
{
    let revision = rd_u8(mem, phys, 15);
    let xsdt = if revision >= 2 {
        rd_u64(mem, phys, 24)
    } else {
        0
    };
    (revision, xsdt)
}

/// A table with a possible length and a right checksum.
pub open spec fn table_ok(mem: Seq<u8>, a: int) -> bool {
    word_at(mem, a + 4) >= 36 && sums_to_zero(mem, a, word_at(mem, a + 4))
}

/// The length of the table at `base`, where its header and checksum are valid.
pub fn table_header_ok(mem: &[u8], base: u64) -> (r: Option<u32>)
    ensures
        r is Some <==> table_ok(mem@, base as int),
        r matches Some(n) ==> n == word_at(mem@, base + 4),
{
    let len = rd_u32(mem, base, 4);
    if len < 36 {
        return None;
    }
    if !checksum_ok(mem, base, len as u64) {
        return None;
    }
    Some(len)
}

// ---------------------------------------------------------------------------
// What was found
// ---------------------------------------------------------------------------

/// What the tables say.
#[verifier::ext_equal]
pub struct AcpiView {
    /// Tables validated.
    pub tables: int,
    /// I/O APIC address of the last such record, 0 for none.
    pub ioapic: int,
    /// First interrupt of that I/O APIC.
    pub gsi_base: int,
    /// Enabled processors in table order, the first eight.
    pub lapics: Seq<u8>,
}

/// Records of a MADT, by kind.
#[derive(Clone, Copy, PartialEq, Eq, Debug, Structural)]
pub struct MadtCounts {
    pub lapics: u32,
    pub ioapics: u32,
    pub overrides: u32,
}

/// The discovery state.
pub struct Acpi {
    table_count: u64,
    ioapic_addr: u64,
    gsi_base: u64,
    lapic_ids: Vec<u8>,
    acpi_ok: bool,
}

impl Acpi {
    pub closed spec fn view(&self) -> AcpiView {
        AcpiView {
            tables: self.table_count as int,
            ioapic: self.ioapic_addr as int,
            gsi_base: self.gsi_base as int,
            lapics: self.lapic_ids@,
        }
    }

    /// The table set was parsed.
    pub closed spec fn ok_spec(&self) -> bool {
        self.acpi_ok
    }

    pub closed spec fn wf(&self) -> bool {
        self.lapic_ids@.len() <= 8 && self.gsi_base < 0x1_0000_0000
    }

    /// Nothing found yet.
    pub fn new() -> (r: Acpi)
        ensures
            r.wf(),
            !r.ok_spec(),
            r@ == (AcpiView { tables: 0, ioapic: 0, gsi_base: 0, lapics: Seq::empty() }),
    {
        Acpi { table_count: 0, ioapic_addr: 0, gsi_base: 0, lapic_ids: Vec::new(), acpi_ok: false }
    }
}

/// What one MADT record adds: an enabled processor (kind 0), the I/O APIC
/// (kind 1).
pub open spec fn madt_record(v: AcpiView, mem: Seq<u8>, a: int) -> AcpiView {
    let ty = byte_at(mem, a);
    if ty == 0 {
        if word_at(mem, a + 4) % 2 == 1 && v.lapics.len() < 8 {
            AcpiView { lapics: v.lapics.push(byte_at(mem, a + 3)), ..v }
        } else {
            v
        }
    } else if ty == 1 {
        AcpiView { ioapic: word_at(mem, a + 4), gsi_base: word_at(mem, a + 8), ..v }
    } else {
        v
    }
}

/// The counts with one record of kind `ty` more.
pub open spec fn madt_count(c: MadtCounts, ty: u8) -> MadtCounts {
    if ty == 0 {
        MadtCounts { lapics: (c.lapics + 1) as u32, ..c }
    } else if ty == 1 {
        MadtCounts { ioapics: (c.ioapics + 1) as u32, ..c }
    } else if ty == 2 {
        MadtCounts { overrides: (c.overrides + 1) as u32, ..c }
    } else {
        c
    }
}

/// A whole record lies at offset `off`.
pub open spec fn madt_has_record(mem: Seq<u8>, base: int, len: int, off: int) -> bool {
    off + 2 <= len && byte_at(mem, base + off + 1) >= 2 && off + byte_at(mem, base + off + 1) <= len
}

/// The records from offset `off` on, up to the first that does not fit.
pub open spec fn madt_walk(
    v: AcpiView,
    c: MadtCounts,
    mem: Seq<u8>,
    base: int,
    len: int,
    off: int,
) -> (AcpiView, MadtCounts)
    decreases len - off,
{
    if !madt_has_record(mem, base, len, off) {
        (v, c)
    } else {
        madt_walk(
            madt_record(v, mem, base + off),
            madt_count(c, byte_at(mem, base + off)),
            mem,
            base,
            len,
            off + byte_at(mem, base + off + 1),
        )
    }
}

/// The counts of a MADT with no records.
pub open spec fn no_records() -> MadtCounts {
    MadtCounts { lapics: 0, ioapics: 0, overrides: 0 }
}

/// Read the records of the MADT at `base`: its counts, or `None` where it is too
/// short to have any.
pub fn parse_madt(st: &mut Acpi, mem: &[u8], base: u64, len: u32) -> (r: Option<MadtCounts>)
    requires
        old(st).wf(),
    ensures
        final(st).wf(),
        final(st).ok_spec() == old(st).ok_spec(),
        len < 44 ==> r is None && final(st)@ == old(st)@,
        len >= 44 ==> r is Some && (final(st)@, r->0) == madt_walk(
            old(st)@,
            no_records(),
            mem@,
            base as int,
            len as int,
            44,
        ),
{
    if len < 44 {
        return None;
    }
    let mut c = MadtCounts { lapics: 0, ioapics: 0, overrides: 0 };
    let mut off: u64 = 44;
    let n = len as u64;
    loop
        invariant
            st.wf(),
            st.acpi_ok == old(st).acpi_ok,
            n == len >= 44,
            44 <= off <= n,
            c.lapics <= off,
            c.ioapics <= off,
            c.overrides <= off,
            madt_walk(old(st)@, no_records(), mem@, base as int, len as int, 44) == madt_walk(
                st@,
                c,
                mem@,
                base as int,
                len as int,
                off as int,
            ),
        ensures
            !madt_has_record(mem@, base as int, len as int, off as int),
        decreases n - off,
    {
        if off + 2 > n {
            break;
        }
        let ty = rd_u8(mem, base, off);
        let ell = rd_u8(mem, base, off + 1) as u64;
        if ell < 2 || off + ell > n {
            break;
        }
        let ghost v = st@;
        if ty == 0 {
            let id = rd_u8(mem, base, off + 3);
            let flags = rd_u32(mem, base, off + 4);
            if flags % 2 == 1 && st.lapic_ids.len() < LAPIC_MAX {
                st.lapic_ids.push(id);
            }
            c.lapics = c.lapics + 1;
        } else if ty == 1 {
            st.ioapic_addr = rd_u32(mem, base, off + 4) as u64;
            st.gsi_base = rd_u32(mem, base, off + 8) as u64;
            c.ioapics = c.ioapics + 1;
        } else if ty == 2 {
            c.overrides = c.overrides + 1;
        }
        assert(st@ =~= madt_record(v, mem@, base + off));
        off = off + ell;
    }
    Some(c)
}

/// What a validated table is.
#[derive(Clone, Copy, PartialEq, Eq, Debug)]
pub enum TableKind {
    /// The MADT and its record counts, `None` where it is too short.
    Madt(Option<MadtCounts>),
    /// The HPET's base address, `None` where the table ends before it.
    Hpet(Option<u64>),
    Facp,
    /// Any other table, by its tag.
    Other((u8, u8, u8, u8)),
}

/// What the table at `base` adds to the state.
pub open spec fn table_effect(v: AcpiView, mem: Seq<u8>, base: int) -> AcpiView {
    let len = word_at(mem, base + 4);
    if tag_at(mem, base) == tag_apic() && len >= 44 {
        madt_walk(v, no_records(), mem, base, len, 44).0
    } else {
        v
    }
}

/// What the table at `base` is, read in state `v`.
pub open spec fn table_kind(v: AcpiView, mem: Seq<u8>, base: int) -> TableKind {
    let len = word_at(mem, base + 4);
    let t = tag_at(mem, base);
    if t == tag_apic() {
        TableKind::Madt(
            if len >= 44 {
                Some(madt_walk(v, no_records(), mem, base, len, 44).1)
            } else {
                None
            },
        )
    } else if t == tag_hpet() {
        TableKind::Hpet(
            if len >= 60 {
                Some((quad_at(mem, base + 52) % 0x1_0000_0000_0000) as u64)
            } else {
                None
            },
        )
    } else if t == tag_facp() {
        TableKind::Facp
    } else {
        TableKind::Other(t)
    }
}

/// Decode a validated table.
pub fn decode_table(st: &mut Acpi, mem: &[u8], base: u64, len: u32) -> (r: TableKind)
    requires
        old(st).wf(),
        len == word_at(mem@, base + 4),
    ensures
        final(st).wf(),
        final(st).ok_spec() == old(st).ok_spec(),
        final(st)@ == table_effect(old(st)@, mem@, base as int),
        r == table_kind(old(st)@, mem@, base as int),
{
    let t = tag(mem, base);
    if same_tag(t, (0x41, 0x50, 0x49, 0x43)) {
        TableKind::Madt(parse_madt(st, mem, base, len))
    } else if same_tag(t, (0x48, 0x50, 0x45, 0x54)) {
        if len >= 60 {
            TableKind::Hpet(Some(rd_u64(mem, base, 52) % 0x1_0000_0000_0000))
        } else {
            TableKind::Hpet(None)
        }
    } else if same_tag(t, (0x46, 0x41, 0x43, 0x50)) {
        TableKind::Facp
    } else {
        TableKind::Other(t)
    }
}

/// The address in entry `i` of a directory.
pub open spec fn directory_entry(mem: Seq<u8>, addr: int, wide: bool, i: int) -> int {
    if wide {
        quad_at(mem, addr + 36 + 8 * i)
    } else {
        word_at(mem, addr + 36 + 4 * i)
    }
}

/// Entries of a directory.
pub open spec fn directory_len(mem: Seq<u8>, addr: int, wide: bool) -> int {
    (word_at(mem, addr + 4) - 36) / if wide {
        8
    } else {
        4
    }
}

/// A valid directory of the kind asked for.
pub open spec fn directory_ok(mem: Seq<u8>, addr: int, wide: bool) -> bool {
    &&& addr < mem.len()
    &&& table_ok(mem, addr)
    &&& tag_at(mem, addr) == if wide {
        tag_xsdt()
    } else {
        tag_rsdt()
    }
}

/// What the first `n` tables of a directory add: each one in the window that
/// validates counts and is decoded.
pub open spec fn directory_effect(v: AcpiView, mem: Seq<u8>, addr: int, wide: bool, n: int) -> AcpiView
    decreases n,
{
    if n <= 0 {
        v
    } else {
        let w = directory_effect(v, mem, addr, wide, n - 1);
        let ta = directory_entry(mem, addr, wide, n - 1);
        if ta < mem.len() && table_ok(mem, ta) {
            table_effect(AcpiView { tables: w.tables + 1, ..w }, mem, ta)
        } else {
            w
        }
    }
}

/// Walk a directory: validate and decode every table it names.
pub fn walk_directory(st: &mut Acpi, mem: &[u8], addr: u64, wide: bool) -> (r: bool)
    requires
        old(st).wf(),
        old(st)@.tables <= 0x1_0000_0000,
    ensures
        final(st).wf(),
        final(st).ok_spec() == old(st).ok_spec(),
        r == directory_ok(mem@, addr as int, wide),
        r ==> final(st)@ == directory_effect(
            old(st)@,
            mem@,
            addr as int,
            wide,
            directory_len(mem@, addr as int, wide),
        ),
        !r ==> final(st)@ == old(st)@,
{
    if addr >= mem.len() as u64 {
        return false;
    }
    let dlen = match table_header_ok(mem, addr) {
        None => return false,
        Some(n) => n,
    };
    let t = tag(mem, addr);
    let want: (u8, u8, u8, u8) = if wide {
        (0x58, 0x53, 0x44, 0x54)
    } else {
        (0x52, 0x53, 0x44, 0x54)
    };
    if !same_tag(t, want) {
        return false;
    }
    let step: u64 = if wide {
        8
    } else {
        4
    };
    let count = (dlen as u64 - 36) / step;
    let mut i: u64 = 0;
    while i < count
        invariant
            st.wf(),
            st.acpi_ok == old(st).acpi_ok,
            step == if wide { 8int } else { 4 },
            count == directory_len(mem@, addr as int, wide),
            count * step <= 0x1_0000_0000,
            i <= count < 0x1_0000_0000,
            old(st)@.tables <= 0x1_0000_0000,
            st@.tables <= old(st)@.tables + i,
            st@ == directory_effect(old(st)@, mem@, addr as int, wide, i as int),
        decreases count - i,
    {
        assert(i * step < count * step) by (nonlinear_arith)
            requires
                i < count,
                step > 0,
        ;
        let ta = if wide {
            rd_u64(mem, addr, 36 + 8 * i)
        } else {
            rd_u32(mem, addr, 36 + 4 * i) as u64
        };
        if ta < mem.len() as u64 {
            match table_header_ok(mem, ta) {
                None => {},
                Some(l) => {
                    let ghost v = st@;
                    st.table_count = st.table_count + 1;
                    let ghost w = st@;
                    assert(w =~= AcpiView { tables: v.tables + 1, ..v });
                    proof {
                        lemma_walk_tables(w, no_records(), mem@, ta as int, l as int, 44);
                    }
                    decode_table(st, mem, ta, l);
                },
            }
        }
        i += 1;
    }
    true
}

/// Reading a MADT counts no tables.
proof fn lemma_walk_tables(
    v: AcpiView,
    c: MadtCounts,
    mem: Seq<u8>,
    base: int,
    len: int,
    off: int,
)
    ensures
        madt_walk(v, c, mem, base, len, off).0.tables == v.tables,
    decreases len - off,
{
    if madt_has_record(mem, base, len, off) {
        lemma_walk_tables(
            madt_record(v, mem, base + off),
            madt_count(c, byte_at(mem, base + off)),
            mem,
            base,
            len,
            off + byte_at(mem, base + off + 1),
        );
    }
}

/// How the MADT's I/O APIC compares with the wiring.
#[derive(Clone, Copy, PartialEq, Eq, Debug)]
pub enum CrossCheck {
    NoIoApic,
    Matches,
    Differs(u64),
}

/// What discovery finds from the RSDP at `rs`: the XSDT's tables, or the RSDT's
/// where there is no valid XSDT.
pub open spec fn discovered(mem: Seq<u8>, rs: int) -> AcpiView {
    let none = AcpiView { tables: 0, ioapic: 0, gsi_base: 0, lapics: Seq::empty() };
    let x = rsdp_xsdt(mem, rs);
    let r = word_at(mem, rs + 16);
    if x != 0 && directory_ok(mem, x, true) {
        directory_effect(none, mem, x, true, directory_len(mem, x, true))
    } else if directory_ok(mem, r, false) {
        directory_effect(none, mem, r, false, directory_len(mem, r, false))
    } else {
        none
    }
}

/// Locate and parse the ACPI tables.
pub fn init(mem: &[u8], provided_rsdp: Option<u64>) -> (r: (Acpi, CrossCheck))
    ensures
        r.0.wf(),
        ({
            let trusted = provided_rsdp is Some && rsdp_signature(mem@, provided_rsdp->0 as int);
            let found = trusted || exists|b: int| scan_place(b) && #[trigger] rsdp_at(mem@, b);
            &&& !found ==> r.0@ == (AcpiView {
                tables: 0,
                ioapic: 0,
                gsi_base: 0,
                lapics: Seq::empty(),
            })
            &&& trusted ==> r.0@ == discovered(mem@, provided_rsdp->0 as int)
            &&& found && !trusted ==> exists|b: int|
                {
                    &&& scan_place(b)
                    &&& #[trigger] rsdp_at(mem@, b)
                    &&& forall|d: int| scan_place(d) && d < b ==> !#[trigger] rsdp_at(mem@, d)
                    &&& r.0@ == discovered(mem@, b)
                }
        }),
        r.0.ok_spec() == (r.0@.tables > 0),
        r.1 == if r.0@.ioapic == 0 {
            CrossCheck::NoIoApic
        } else if r.0@.ioapic == IOAPIC_WIRED {
            CrossCheck::Matches
        } else {
            CrossCheck::Differs(r.0@.ioapic as u64)
        },
{
    let mut st = Acpi::new();
    let rs = match find_rsdp(mem, provided_rsdp) {
        None => return (st, CrossCheck::NoIoApic),
        Some(a) => a,
    };
    let (_rev, xsdt) = parse_rsdp(mem, rs);
    let mut ok = false;
    if xsdt != 0 {
        ok = walk_directory(&mut st, mem, xsdt, true);
    }
    if !ok {
        let rsdt = rd_u32(mem, rs, 16) as u64;
        walk_directory(&mut st, mem, rsdt, false);
    }
    if st.table_count > 0 {
        st.acpi_ok = true;
    }
    let check = match ioapic_info(&st) {
        None => CrossCheck::NoIoApic,
        Some((a, _gsi)) => if a == IOAPIC_WIRED {
            CrossCheck::Matches
        } else {
            CrossCheck::Differs(a)
        },
    };
    (st, check)
}

/// Was the table set parsed?
pub fn available(st: &Acpi) -> (r: bool)
    ensures
        r == st.ok_spec(),
{
    st.acpi_ok
}

/// The I/O APIC that the MADT names: address and first interrupt.
pub fn ioapic_info(st: &Acpi) -> (r: Option<(u64, u32)>)
    requires
        st.wf(),
    ensures
        r == if st@.ioapic == 0 {
            None::<(u64, u32)>
        } else {
            Some((st@.ioapic as u64, st@.gsi_base as u32))
        },
{
    if st.ioapic_addr == 0 {
        None
    } else {
        Some((st.ioapic_addr, st.gsi_base as u32))
    }
}

/// The enabled processors that the MADT names, and how many there are.
pub fn lapic_ids(st: &Acpi) -> (r: ([u8; 8], usize))
    requires
        st.wf(),
    ensures
        r.1 == st@.lapics.len(),
        r.1 <= 8,
        forall|i: int| 0 <= i < r.1 ==> r.0@[i] == st@.lapics[i],
        forall|i: int| r.1 <= i < 8 ==> r.0@[i] == 0,
{
    let mut out: [u8; 8] = [0u8;8];
    let n = st.lapic_ids.len();
    let mut i: usize = 0;
    while i < n
        invariant
            i <= n <= 8,
            n == st.lapic_ids@.len(),
            forall|k: int| 0 <= k < i ==> out@[k] == st.lapic_ids@[k],
            forall|k: int| i <= k < 8 ==> out@[k] == 0,
        decreases n - i,
    {
        out[i] = st.lapic_ids[i];
        i += 1;
    }
    (out, n)
}

/// However many processors the tables name, at most eight are remembered, and
/// the ones remembered first stay.
pub proof fn law_first_eight(
    v: AcpiView,
    c: MadtCounts,
    mem: Seq<u8>,
    base: int,
    len: int,
    off: int,
)
    requires
        v.lapics.len() <= 8,
    ensures
        madt_walk(v, c, mem, base, len, off).0.lapics.len() <= 8,
        v.lapics.is_prefix_of(madt_walk(v, c, mem, base, len, off).0.lapics),
    decreases len - off,
{
    if madt_has_record(mem, base, len, off) {
        let w = madt_record(v, mem, base + off);
        law_first_eight(
            w,
            madt_count(c, byte_at(mem, base + off)),
            mem,
            base,
            len,
            off + byte_at(mem, base + off + 1),
        );
        assert(v.lapics.is_prefix_of(w.lapics));
    }
}

} // verus!
