//! The block layer: MBR and GPT partition tables on the boot drive.
use crate::ata::{AtaDrive, AtaError, DriveInfo, LBA28_MAX, SECTOR_SIZE};
use crate::blkcache::{at_hand, coherent, grown, read, sector_of, sectors_of, Cache, Clock};
use crate::bytes::{
    copy_range, get_u16, get_u32, get_u64, le16, le32, le64, put_bytes, same_bytes, splice, zeros,
};
use crate::text::{dec, hex, push_dec, push_hex_padded, zero_padded};
use vstd::prelude::*;

verus! {

/// Smallest GPT entry: the 72-byte name at offset 56 has to fit.
pub const GPT_ENTRY_MIN: usize = 128;
pub const GPT_ENTRY_MAX: usize = 4096;
pub const GPT_MAX_ENTRIES: u32 = 4096;
/// Sectors read of an entry array at most.
pub const GPT_MAX_SECTORS: usize = 4096;

#[derive(Debug, Clone, Copy, PartialEq, Eq, Structural)]
pub enum Layout {
    Mbr,
    Gpt,
}

/// One partition.
pub struct Partition {
    pub start_lba: u64,
    pub sectors: u64,
    /// MBR type byte or GPT type, in words.
    pub kind: String,
    /// GPT partition name, where it has one.
    pub name: Option<String>,
}

/// What a partition entry says.
#[verifier::ext_equal]
pub struct PartitionView {
    pub start_lba: u64,
    pub sectors: u64,
    pub kind: Seq<char>,
    pub name: Option<Seq<char>>,
}

impl Partition {
    pub open spec fn view(&self) -> PartitionView {
        PartitionView {
            start_lba: self.start_lba,
            sectors: self.sectors,
            kind: self.kind@,
            name: match self.name {
                Some(s) => Some(s@),
                None => None,
            },
        }
    }
}

/// The views of a list of partitions.
pub open spec fn views(ps: Seq<Partition>) -> Seq<PartitionView> {
    ps.map_values(|p: Partition| p@)
}

/// The boot disk.
pub struct Disk {
    pub drive: AtaDrive,
    pub info: DriveInfo,
    pub layout: Layout,
    pub partitions: Vec<Partition>,
    /// GPT disk GUID as text, empty for MBR.
    pub disk_guid: String,
}

// ---------------------------------------------------------------------------
// MBR
// ---------------------------------------------------------------------------

/// The name of an MBR partition type.
pub open spec fn mbr_type_word(t: u8) -> Seq<char> {
    if t == 0x01 {
        "FAT12"@
    } else if t == 0x04 || t == 0x06 || t == 0x0E {
        "FAT16"@
    } else if t == 0x07 {
        "NTFS/exFAT"@
    } else if t == 0x0B {
        "FAT32"@
    } else if t == 0x0C {
        "FAT32 (LBA)"@
    } else if t == 0x20 {
        "bootloader (stage-2/kernel)"@
    } else if t == 0x83 {
        "Linux"@
    } else if t == 0xEE {
        "GPT protective"@
    } else if t == 0xDA {
        "non-FS data"@
    } else {
        "unknown"@
    }
}

/// `type=0x0c (FAT32 (LBA))`.
pub open spec fn mbr_type_text(t: u8) -> Seq<char> {
    "type=0x"@ + zero_padded(hex(t as nat), 2) + " ("@ + mbr_type_word(t) + ")"@
}

/// Type byte, start and length of MBR entry `i`.
pub open spec fn mbr_view(mbr: Seq<u8>, i: int) -> PartitionView {
    PartitionView {
        start_lba: le32(mbr, 446 + 16 * i + 8) as u64,
        sectors: le32(mbr, 446 + 16 * i + 12) as u64,
        kind: mbr_type_text(mbr[446 + 16 * i + 4]),
        name: None,
    }
}

/// The entry is in use and not the protective one.
pub open spec fn mbr_used(mbr: Seq<u8>, i: int) -> bool {
    mbr[446 + 16 * i + 4] != 0 && mbr[446 + 16 * i + 4] != 0xEE
}

/// The partitions of the first `n` MBR entries.
pub open spec fn mbr_views(mbr: Seq<u8>, n: int) -> Seq<PartitionView>
    decreases n,
{
    if n <= 0 {
        Seq::empty()
    } else if mbr_used(mbr, n - 1) {
        mbr_views(mbr, n - 1).push(mbr_view(mbr, n - 1))
    } else {
        mbr_views(mbr, n - 1)
    }
}

fn mbr_type_name(t: u8) -> (r: String)
    ensures
        r@ == mbr_type_text(t),
{
    let word = match t {
        0x01 => "FAT12",
        0x04 => "FAT16",
        0x06 => "FAT16",
        0x0E => "FAT16",
        0x07 => "NTFS/exFAT",
        0x0B => "FAT32",
        0x0C => "FAT32 (LBA)",
        0x20 => "bootloader (stage-2/kernel)",
        0x83 => "Linux",
        0xEE => "GPT protective",
        0xDA => "non-FS data",
        _ => "unknown",
    };
    let mut s = String::from_str("type=0x");
    push_hex_padded(&mut s, t as u64, 2);
    s.append(" (");
    s.append(word);
    s.append(")");
    s
}

proof fn lemma_views_push(ps: Seq<Partition>, p: Partition)
    ensures
        views(ps.push(p)) == views(ps).push(p@),
{
    assert(views(ps.push(p)) =~= views(ps).push(p@));
}

/// Append the partitions of the four MBR entries to `out`.
fn push_mbr(mbr: &[u8], out: &mut Vec<Partition>)
    requires
        mbr@.len() == 512,
    ensures
        views(final(out)@) == views(old(out)@) + mbr_views(mbr@, 4),
{
    let mut i: usize = 0;
    assert(views(out@) =~= views(old(out)@) + mbr_views(mbr@, 0));
    while i < 4
        invariant
            i <= 4,
            mbr@.len() == 512,
            views(out@) == views(old(out)@) + mbr_views(mbr@, i as int),
        decreases 4 - i,
    {
        let e = 446 + 16 * i;
        let ptype = mbr[e + 4];
        if ptype != 0 && ptype != 0xEE {
            let p = Partition {
                start_lba: get_u32(mbr, e + 8) as u64,
                sectors: get_u32(mbr, e + 12) as u64,
                kind: mbr_type_name(ptype),
                name: None,
            };
            proof {
                lemma_views_push(out@, p);
                assert(p@ =~= mbr_view(mbr@, i as int));
            }
            out.push(p);
        }
        i += 1;
        assert(views(out@) =~= views(old(out)@) + mbr_views(mbr@, i as int));
    }
}

/// The partitions of the four entries in sector 0.
pub fn scan_mbr(mbr: &[u8]) -> (r: Vec<Partition>)
    requires
        mbr@.len() == 512,
    ensures
        views(r@) == mbr_views(mbr@, 4),
{
    let mut out: Vec<Partition> = Vec::new();
    assert(views(out@) =~= Seq::<PartitionView>::empty());
    push_mbr(mbr, &mut out);
    assert(views(out@) =~= mbr_views(mbr@, 4));
    out
}

// ---------------------------------------------------------------------------
// GPT
// ---------------------------------------------------------------------------

/// The entry array's geometry can describe a real table.
pub open spec fn geometry_ok(entry_size: usize, entry_count: u32) -> bool {
    GPT_ENTRY_MIN <= entry_size <= GPT_ENTRY_MAX && entry_count <= GPT_MAX_ENTRIES
}

/// Why a geometry is refused.
pub open spec fn geometry_reason(entry_size: usize, entry_count: u32) -> Seq<char> {
    if entry_size < GPT_ENTRY_MIN {
        "GPT entry size "@ + dec(entry_size as nat) + " below minimum "@ + dec(128)
    } else if entry_size > GPT_ENTRY_MAX {
        "GPT entry size "@ + dec(entry_size as nat) + " above maximum "@ + dec(4096)
    } else {
        "GPT entry count "@ + dec(entry_count as nat) + " above maximum "@ + dec(4096)
    }
}

/// Check the entry array's geometry before anything is indexed with it.
pub fn validate_gpt_geometry(entry_size: usize, entry_count: u32) -> (r: Result<(), String>)
    ensures
        r is Ok <==> geometry_ok(entry_size, entry_count),
        r matches Err(s) ==> s@ == geometry_reason(entry_size, entry_count),
{
    if entry_size < GPT_ENTRY_MIN {
        let mut s = String::from_str("GPT entry size ");
        push_dec(&mut s, entry_size as u64);
        s.append(" below minimum ");
        push_dec(&mut s, GPT_ENTRY_MIN as u64);
        return Err(s);
    }
    if entry_size > GPT_ENTRY_MAX {
        let mut s = String::from_str("GPT entry size ");
        push_dec(&mut s, entry_size as u64);
        s.append(" above maximum ");
        push_dec(&mut s, GPT_ENTRY_MAX as u64);
        return Err(s);
    }
    if entry_count > GPT_MAX_ENTRIES {
        let mut s = String::from_str("GPT entry count ");
        push_dec(&mut s, entry_count as u64);
        s.append(" above maximum ");
        push_dec(&mut s, GPT_MAX_ENTRIES as u64);
        return Err(s);
    }
    Ok(())
}

/// Feed hostile geometries through the validation: how many were rejected, and
/// whether each one was judged as it should be.
pub fn gpt_selftest() -> (r: (u32, bool))
    ensures
        r == (4u32, true),
{
    let r0 = validate_gpt_geometry(0, 128).is_err();
    let r1 = validate_gpt_geometry(32, 128).is_err();
    let r2 = validate_gpt_geometry(usize::MAX, 128).is_err();
    let r3 = validate_gpt_geometry(128, u32::MAX).is_err();
    let accepted = validate_gpt_geometry(128, 0).is_ok();
    let mut rejected: u32 = 0;
    if r0 {
        rejected += 1;
    }
    if r1 {
        rejected += 1;
    }
    if r2 {
        rejected += 1;
    }
    if r3 {
        rejected += 1;
    }
    (rejected, rejected == 4 && accepted)
}

/// What the log says of a self-test that rejected this many geometries.
pub open spec fn selftest_text(rejected: u32) -> Seq<char> {
    if rejected == 4 {
        "M5: gpt-selftest PASS ("@ + dec(rejected as nat)
            + " corrupt geometries rejected, kernel healthy)"@
    } else {
        "M5: gpt-selftest FAILED ("@ + dec(rejected as nat) + " rejected)"@
    }
}

/// The log line of a self-test that rejected this many geometries.
pub fn gpt_selftest_line(rejected: u32) -> (r: String)
    ensures
        r@ == selftest_text(rejected),
{
    if rejected == 4 {
        let mut s = String::from_str("M5: gpt-selftest PASS (");
        push_dec(&mut s, rejected as u64);
        s.append(" corrupt geometries rejected, kernel healthy)");
        s
    } else {
        let mut s = String::from_str("M5: gpt-selftest FAILED (");
        push_dec(&mut s, rejected as u64);
        s.append(" rejected)");
        s
    }
}

/// `n` shift steps of the reflected CRC-32.
pub open spec fn crc_shift(crc: u32, n: nat) -> u32
    decreases n,
{
    if n == 0 {
        crc
    } else {
        let c = crc_shift(crc, (n - 1) as nat);
        if c & 1 != 0 {
            (c >> 1) ^ 0xEDB8_8320
        } else {
            c >> 1
        }
    }
}

/// The CRC register after the bytes of `data`.
pub open spec fn crc_register(data: Seq<u8>) -> u32
    decreases data.len(),
{
    if data.len() == 0 {
        0xFFFF_FFFF
    } else {
        crc_shift(crc_register(data.drop_last()) ^ (data.last() as u32), 8)
    }
}

/// CRC-32 with polynomial 0xEDB88320, as GPT uses it.
pub fn crc32(data: &[u8]) -> (r: u32)
    ensures
        r == !crc_register(data@),
{
    let mut crc: u32 = 0xFFFF_FFFF;
    let mut k: usize = 0;
    assert(data@.take(0) =~= Seq::<u8>::empty());
    while k < data.len()
        invariant
            k <= data@.len(),
            crc == crc_register(data@.take(k as int)),
        decreases data@.len() - k,
    {
        let byte = data[k];
        let ghost before = crc;
        crc = crc ^ (byte as u32);
        let ghost mixed = crc;
        let mut i: u32 = 0;
        while i < 8
            invariant
                i <= 8,
                crc == crc_shift(mixed, i as nat),
            decreases 8 - i,
        {
            if crc & 1 != 0 {
                crc = (crc >> 1) ^ 0xEDB8_8320;
            } else {
                crc = crc >> 1;
            }
            i += 1;
        }
        assert(data@.take(k + 1).drop_last() =~= data@.take(k as int));
        k += 1;
    }
    assert(data@.take(k as int) =~= data@);
    !crc
}

/// The character of an upper-case hexadecimal digit.
pub open spec fn upper_digit(d: int) -> char {
    if d < 10 {
        (48 + d) as u8 as char
    } else {
        (55 + d) as u8 as char
    }
}

/// A byte as two upper-case hexadecimal digits.
pub open spec fn hex2(b: u8) -> Seq<char> {
    seq![upper_digit(b as int / 16), upper_digit(b as int % 16)]
}

/// The text form of a GUID: the first three groups are stored low byte first.
pub open spec fn guid_text(b: Seq<u8>) -> Seq<char> {
    hex2(b[3]) + hex2(b[2]) + hex2(b[1]) + hex2(b[0]) + "-"@ + hex2(b[5]) + hex2(b[4]) + "-"@
        + hex2(b[7]) + hex2(b[6]) + "-"@ + hex2(b[8]) + hex2(b[9]) + "-"@ + hex2(b[10]) + hex2(
        b[11],
    ) + hex2(b[12]) + hex2(b[13]) + hex2(b[14]) + hex2(b[15])
}

fn push_hex2(s: &mut String, b: u8)
    ensures
        final(s)@ == old(s)@ + hex2(b),
{
    let hi = b / 16;
    let lo = b % 16;
    s.push(
        if hi < 10 {
            (48 + hi) as char
        } else {
            (55 + hi) as char
        },
    );
    s.push(
        if lo < 10 {
            (48 + lo) as char
        } else {
            (55 + lo) as char
        },
    );
    assert(s@ =~= old(s)@ + hex2(b));
}

/// A 16-byte GUID in its standard text form.
pub fn fmt_guid(b: &[u8]) -> (r: String)
    requires
        b@.len() == 16,
    ensures
        r@ == guid_text(b@),
{
    let mut s = String::new();
    push_hex2(&mut s, b[3]);
    push_hex2(&mut s, b[2]);
    push_hex2(&mut s, b[1]);
    push_hex2(&mut s, b[0]);
    s.append("-");
    push_hex2(&mut s, b[5]);
    push_hex2(&mut s, b[4]);
    s.append("-");
    push_hex2(&mut s, b[7]);
    push_hex2(&mut s, b[6]);
    s.append("-");
    push_hex2(&mut s, b[8]);
    push_hex2(&mut s, b[9]);
    s.append("-");
    push_hex2(&mut s, b[10]);
    push_hex2(&mut s, b[11]);
    push_hex2(&mut s, b[12]);
    push_hex2(&mut s, b[13]);
    push_hex2(&mut s, b[14]);
    push_hex2(&mut s, b[15]);
    assert(s@ =~= guid_text(b@));
    s
}

/// The name of a GPT partition type.
pub open spec fn guid_kind_text(b: Seq<u8>) -> Seq<char> {
    let t = guid_text(b);
    if t == "C12A7328-F81F-11D2-BA4B-00A0C93EC93B"@ {
        "EFI System"@
    } else if t == "EBD0A0A2-B9E5-4433-87C0-68B6B72699C7"@ {
        "Microsoft basic data"@
    } else if t == "0FC63DAF-8483-4772-8E79-3D69D8477DE4"@ {
        "Linux filesystem"@
    } else if t == "0657FD6D-A4AB-43C4-84E5-0933C84B4F4F"@ {
        "Linux swap"@
    } else {
        "GUID "@ + t
    }
}

fn is_text(s: &String, t: &str) -> (r: bool)
    ensures
        r == (s@ == t@),
{
    let u = String::from_str(t);
    *s == u
}

/// The name of a GPT partition type.
pub fn guid_kind(b: &[u8]) -> (r: String)
    requires
        b@.len() == 16,
    ensures
        r@ == guid_kind_text(b@),
{
    let t = fmt_guid(b);
    if is_text(&t, "C12A7328-F81F-11D2-BA4B-00A0C93EC93B") {
        String::from_str("EFI System")
    } else if is_text(&t, "EBD0A0A2-B9E5-4433-87C0-68B6B72699C7") {
        String::from_str("Microsoft basic data")
    } else if is_text(&t, "0FC63DAF-8483-4772-8E79-3D69D8477DE4") {
        String::from_str("Linux filesystem")
    } else if is_text(&t, "0657FD6D-A4AB-43C4-84E5-0933C84B4F4F") {
        String::from_str("Linux swap")
    } else {
        let mut s = String::from_str("GUID ");
        s.append(t.as_str());
        s
    }
}

/// A UTF-16 unit as a character; half a surrogate pair becomes '?'.
pub open spec fn unit_char(u: int) -> char {
    if 0xD800 <= u < 0xE000 {
        '?'
    } else {
        u as u32 as char
    }
}

/// The name in the entry at `off`, from its unit `k` on: up to a zero or the
/// 36th unit.
pub open spec fn name_from(t: Seq<u8>, off: int, k: int) -> Seq<char>
    decreases 36 - k,
{
    if k >= 36 || le16(t, off + 56 + 2 * k) == 0 {
        Seq::empty()
    } else {
        seq![unit_char(le16(t, off + 56 + 2 * k))] + name_from(t, off, k + 1)
    }
}

/// Sectors from `first` to `last`, at least one, at most 2^64 - 1.
pub open spec fn span(first: int, last: int) -> int {
    let d = if last < first {
        0
    } else {
        last - first
    };
    if d + 1 > u64::MAX {
        u64::MAX as int
    } else {
        d + 1
    }
}

/// The entry at `off`.
pub open spec fn gpt_view(t: Seq<u8>, off: int) -> PartitionView {
    let name = name_from(t, off, 0);
    PartitionView {
        start_lba: le64(t, off + 32) as u64,
        sectors: span(le64(t, off + 32), le64(t, off + 40)) as u64,
        kind: guid_kind_text(t.subrange(off, off + 16)),
        name: if name.len() == 0 {
            None
        } else {
            Some(name)
        },
    }
}

/// The entry's type is all zeros.
pub open spec fn gpt_unused(t: Seq<u8>, off: int) -> bool {
    t.subrange(off, off + 16) == Seq::new(16, |i: int| 0u8)
}

/// The partitions of the first `n` entries of a table, as far as it reaches.
pub open spec fn gpt_views(t: Seq<u8>, size: int, n: int) -> Seq<PartitionView>
    decreases n,
{
    if n <= 0 {
        Seq::empty()
    } else {
        let off = (n - 1) * size;
        let before = gpt_views(t, size, n - 1);
        if off + size <= t.len() && !gpt_unused(t, off) {
            before.push(gpt_view(t, off))
        } else {
            before
        }
    }
}

/// Read a character of a name.
pub fn unit(u: u16) -> (c: char)
    ensures
        c == unit_char(u as int),
{
    if 0xD800 <= u && u < 0xE000 {
        '?'
    } else {
        scalar_char(u as u32)
    }
}

/// `char::from_u32`: the character of a Unicode scalar value.
#[verifier::external_body]
fn scalar_char(u: u32) -> (c: char)
    requires
        u < 0xD800 || 0xE000 <= u <= 0x10FFFF,
    ensures
        c == u as char,
{
    match char::from_u32(u) {
        Some(c) => c,
        None => '?',
    }
}

fn gpt_name(t: &[u8], off: usize) -> (r: String)
    requires
        off + 128 <= t@.len(),
    ensures
        r@ == name_from(t@, off as int, 0),
{
    let _n = t.len();
    let mut s = String::new();
    let mut k: usize = 0;
    assert(s@ + name_from(t@, off as int, 0) =~= name_from(t@, off as int, 0));
    while k < 36
        invariant
            k <= 36,
            _n == t@.len(),
            off + 128 <= t@.len(),
            s@ + name_from(t@, off as int, k as int) == name_from(t@, off as int, 0),
        decreases 36 - k,
    {
        let u = get_u16(t, off + 56 + 2 * k);
        if u == 0 {
            assert(s@ =~= s@ + name_from(t@, off as int, k as int));
            return s;
        }
        let ghost before = s@;
        s.push(unit(u));
        assert(s@ + name_from(t@, off as int, k + 1) =~= before + name_from(
            t@,
            off as int,
            k as int,
        ));
        k += 1;
    }
    assert(s@ =~= s@ + name_from(t@, off as int, 36));
    s
}

/// The partitions of an entry array.
pub fn parse_entries(t: &[u8], entry_size: usize, entry_count: u32) -> (r: Vec<Partition>)
    requires
        geometry_ok(entry_size, entry_count),
    ensures
        views(r@) == gpt_views(t@, entry_size as int, entry_count as int),
{
    let mut out: Vec<Partition> = Vec::new();
    let len = t.len();
    let zero16 = zeros(16);
    let mut i: usize = 0;
    assert(views(out@) =~= Seq::<PartitionView>::empty());
    while i < entry_count as usize
        invariant
            i <= entry_count,
            geometry_ok(entry_size, entry_count),
            len == t@.len(),
            zero16@ == Seq::new(16, |i: int| 0u8),
            views(out@) == gpt_views(t@, entry_size as int, i as int),
        decreases entry_count - i,
    {
        assert(i * entry_size <= 4096 * 4096) by (nonlinear_arith)
            requires
                i <= 4096,
                entry_size <= 4096,
        ;
        let off = i * entry_size;
        if len >= entry_size && off <= len - entry_size {
            let ty = copy_range(t, off, off + 16);
            if !same_bytes(ty.as_slice(), zero16.as_slice()) {
                let first = get_u64(t, off + 32);
                let last = get_u64(t, off + 40);
                let d = if last < first {
                    0
                } else {
                    last - first
                };
                let sectors = if d == u64::MAX {
                    u64::MAX
                } else {
                    d + 1
                };
                let name = gpt_name(t, off);
                let empty = String::new();
                let p = Partition {
                    start_lba: first,
                    sectors,
                    kind: guid_kind(ty.as_slice()),
                    name: if name == empty {
                        None
                    } else {
                        Some(name)
                    },
                };
                proof {
                    lemma_views_push(out@, p);
                    assert(name_from(t@, off as int, 0).len() == 0 <==> name_from(
                        t@,
                        off as int,
                        0,
                    ) =~= Seq::<char>::empty());
                    assert(p@ =~= gpt_view(t@, off as int));
                }
                out.push(p);
            }
        }
        i += 1;
    }
    out
}

/// The header's signature.
pub open spec fn efi_part() -> Seq<u8> {
    seq![0x45u8, 0x46, 0x49, 0x20, 0x50, 0x41, 0x52, 0x54]
}

/// The header carries the signature "EFI PART".
pub fn has_signature(hdr: &[u8]) -> (r: bool)
    requires
        hdr@.len() == 512,
    ensures
        r == (hdr@.subrange(0, 8) == efi_part()),
{
    let r = hdr[0] == 0x45 && hdr[1] == 0x46 && hdr[2] == 0x49 && hdr[3] == 0x20 && hdr[4] == 0x50
        && hdr[5] == 0x41 && hdr[6] == 0x52 && hdr[7] == 0x54;
    proof {
        let s = hdr@.subrange(0, 8);
        assert(s[0] == hdr@[0] && s[1] == hdr@[1] && s[2] == hdr@[2] && s[3] == hdr@[3] && s[4]
            == hdr@[4] && s[5] == hdr@[5] && s[6] == hdr@[6] && s[7] == hdr@[7]);
        let e = efi_part();
        assert(e[0] == 0x45 && e[1] == 0x46 && e[2] == 0x49 && e[3] == 0x20 && e[4] == 0x50 && e[5]
            == 0x41 && e[6] == 0x52 && e[7] == 0x54);
        if r {
            assert(s =~= e);
        }
    }
    r
}

/// The bytes that the header checksum covers: the header as long as it says,
/// with the checksum itself zero.
pub open spec fn checked_bytes(hdr: Seq<u8>) -> Seq<u8> {
    splice(hdr, 16, seq![0u8, 0, 0, 0]).take(
        if le32(hdr, 12) < 512 {
            le32(hdr, 12)
        } else {
            512
        },
    )
}

/// The header's checksum is right.
pub open spec fn crc_right(hdr: Seq<u8>) -> bool {
    !crc_register(checked_bytes(hdr)) == le32(hdr, 16)
}

/// Whether the header's checksum is right.
pub fn header_crc_ok(hdr: &[u8]) -> (r: bool)
    requires
        hdr@.len() == 512,
    ensures
        r == crc_right(hdr@),
{
    let size = get_u32(hdr, 12);
    let n: usize = if size < 512 {
        size as usize
    } else {
        512
    };
    let mut tmp = copy_range(hdr, 0, 512);
    assert(tmp@ =~= hdr@);
    tmp.set(16, 0);
    tmp.set(17, 0);
    tmp.set(18, 0);
    tmp.set(19, 0);
    assert(tmp@ =~= splice(hdr@, 16, seq![0u8, 0, 0, 0]));
    let covered = copy_range(tmp.as_slice(), 0, n);
    assert(covered@ =~= checked_bytes(hdr@));
    crc32(covered.as_slice()) == get_u32(hdr, 16)
}

/// Sectors of an entry array that are read.
pub open spec fn table_sectors(entry_size: int, entry_count: int) -> int {
    let n = (entry_count * entry_size + 511) / 512;
    if n < GPT_MAX_SECTORS {
        n
    } else {
        GPT_MAX_SECTORS as int
    }
}

/// Where the entry array starts, in 32 bits.
pub open spec fn table_lba(hdr: Seq<u8>) -> u32 {
    (le64(hdr, 72) % 0x1_0000_0000) as u32
}

/// Bytes of one entry, as the header says.
pub open spec fn entry_size_of(hdr: Seq<u8>) -> int {
    le32(hdr, 84)
}

/// Entries of the array, as the header says.
pub open spec fn entry_count_of(hdr: Seq<u8>) -> int {
    le32(hdr, 80)
}

/// Read `n` sectors from `lba` on, in transfers of at most 255. `Ok(None)` where
/// the drive cannot address them, `Err(l)` where sector `l` is to be fetched.
fn read_many(dev: &AtaDrive, c: &mut Cache, lba: u32, n: usize) -> (r: Result<
    Option<Vec<u8>>,
    u32,
>)
    requires
        dev.wf(),
        old(c).wf(),
        coherent(old(c)@, dev@),
        n <= 4096,
        old(c).hits_spec() + old(c).misses_spec() + n <= usize::MAX,
    ensures
        final(c).wf(),
        coherent(final(c)@, dev@),
        grown(old(c)@, dev@, final(c)@),
        match r {
            Err(l) => lba <= l < lba + n && l <= LBA28_MAX && !dev@.contains_key(l),
            Ok(None) => n > 0 && lba + n - 1 > LBA28_MAX,
            Ok(Some(t)) => t@ == sectors_of(old(c)@, dev@, lba, n as nat) && (n > 0 ==> lba + n - 1
                <= LBA28_MAX) && forall|l: u32|
                lba <= l < lba + n ==> #[trigger] at_hand(old(c)@, dev@, l),
        },
        (forall|l: u32|
            lba <= l < lba + n && l <= LBA28_MAX ==> #[trigger] dev@.contains_key(l)) ==> r is Ok,
{
    let mut table = zeros(n * SECTOR_SIZE);
    let ghost c0 = c@;
    let ghost want = sectors_of(c0, dev@, lba, n as nat);
    let mut done: usize = 0;
    let mut chunk_buf = zeros(255 * SECTOR_SIZE);
    assert(table@ =~= splice(table@, 0, want.take(0)));
    while done < n
        invariant
            dev.wf(),
            c.wf(),
            c0 == old(c)@,
            coherent(c0, dev@),
            coherent(c@, dev@),
            grown(c0, dev@, c@),
            n <= 4096,
            done <= n,
            done > 0 ==> lba + done - 1 <= LBA28_MAX,
            table@.len() == 512 * n,
            chunk_buf@.len() == 255 * 512,
            want == sectors_of(c0, dev@, lba, n as nat),
            forall|k: int| 0 <= k < 512 * done ==> table@[k] == want[k],
            forall|l: u32| lba <= l < lba + done ==> #[trigger] at_hand(c0, dev@, l),
            old(c).hits_spec() + old(c).misses_spec() + n <= usize::MAX,
            c.hits_spec() + c.misses_spec() == old(c).hits_spec() + old(c).misses_spec() + done,
        decreases n - done,
    {
        let left = n - done;
        let chunk: usize = if left < 255 {
            left
        } else {
            255
        };
        if lba as u64 + done as u64 + chunk as u64 - 1 > LBA28_MAX as u64 {
            return Ok(None);
        }
        let at = lba + done as u32;
        let ghost before = c@;
        match read(dev, c, at, chunk as u8, chunk_buf.as_mut_slice()) {
            Ok(_) => {},
            Err(e) => {
                proof {
                    assert forall|x: u32| #[trigger] c@.contents().contains_key(x) implies (
                    c0.contents().contains_key(x) || dev@.contains_key(x)) && c@.contents()[x]
                        == sector_of(c0, dev@, x) by {
                        if before.contents().contains_key(x) {
                        }
                    }
                }
                match e {
                    AtaError::Pending(l) => return Err(l),
                    _ => return Ok(None),
                }
            },
        }
        let got = copy_range(chunk_buf.as_slice(), 0, chunk * 512);
        let ghost t0 = table@;
        put_bytes(table.as_mut_slice(), done * 512, got.as_slice());
        proof {
            assert forall|l: u32| lba <= l < lba + done + chunk implies #[trigger] at_hand(
                c0,
                dev@,
                l,
            ) by {
                if l >= at {
                    assert(at_hand(before, dev@, l));
                }
            }
            assert forall|k: int| 0 <= k < 512 * (done + chunk) implies table@[k] == want[k] by {
                if k < 512 * done {
                    assert(t0[k] == want[k]);
                } else {
                    let j = k - 512 * done;
                    assert(j / 512 == k / 512 - done && j % 512 == k % 512);
                    let l = (lba + k / 512) as u32;
                    assert(at + j / 512 == l);
                    assert(got@[j] == chunk_buf@[j]);
                    assert(chunk_buf@[j] == sector_of(before, dev@, l)[j % 512]);
                    assert(at_hand(before, dev@, l));
                }
            }
            assert forall|x: u32| #[trigger] c@.contents().contains_key(x) implies (
            c0.contents().contains_key(x) || dev@.contains_key(x)) && c@.contents()[x]
                == sector_of(c0, dev@, x) by {
                if before.contents().contains_key(x) {
                }
            }
        }
        done += chunk;
    }
    assert(table@ =~= want);
    Ok(Some(table))
}

/// What a scan of a GPT met with.
pub enum GptNote {
    /// There is no header at LBA 1, or it cannot be read.
    NoHeader,
    /// The header's geometry is impossible, and why.
    Corrupt(String),
    /// The entry array cannot be read.
    NoArray { crc_ok: bool },
    /// The table was read; `hybrid` partitions are from the protective MBR.
    Table { crc_ok: bool, hybrid: usize },
}

/// A partition table behind a protective MBR.
pub struct GptScan {
    pub layout: Layout,
    pub partitions: Vec<Partition>,
    pub disk_guid: String,
    pub note: GptNote,
}

impl GptScan {
    /// No partitions.
    pub open spec fn is_bare(self) -> bool {
        self.partitions@.len() == 0 && self.disk_guid@.len() == 0
    }
}

/// The header has the signature, a possible geometry and an array that the drive
/// can address.
pub open spec fn array_named(hdr: Seq<u8>) -> bool {
    let size = entry_size_of(hdr);
    let count = entry_count_of(hdr);
    &&& hdr.subrange(0, 8) == efi_part()
    &&& geometry_ok(size as usize, count as u32)
    &&& table_sectors(size, count) > 0 ==> table_lba(hdr) + table_sectors(size, count) - 1
        <= LBA28_MAX
}

/// Sectors of the entry array that the header names.
pub open spec fn array_len(hdr: Seq<u8>) -> int {
    table_sectors(entry_size_of(hdr), entry_count_of(hdr))
}

/// What a protective MBR and the header at LBA 1 say, given the entry array.
pub open spec fn gpt_scan(hdr: Seq<u8>, table: Seq<u8>, lba0: Seq<u8>, s: GptScan) -> bool {
    let size = entry_size_of(hdr);
    let count = entry_count_of(hdr);
    if hdr.subrange(0, 8) != efi_part() {
        s.layout is Mbr && s.is_bare() && s.note is NoHeader
    } else if !geometry_ok(size as usize, count as u32) {
        s.layout is Gpt && s.is_bare() && (s.note matches GptNote::Corrupt(why) && why@
            == geometry_reason(size as usize, count as u32))
    } else if !array_named(hdr) {
        array_lost(hdr, s)
    } else {
        &&& s.layout is Gpt
        &&& views(s.partitions@) == gpt_views(table, size, count) + mbr_views(lba0, 4)
        &&& s.disk_guid@ == guid_text(hdr.subrange(56, 72))
        &&& s.note matches GptNote::Table { crc_ok, hybrid } && crc_ok == crc_right(hdr) && hybrid
            == mbr_views(lba0, 4).len()
    }
}

/// The entry array cannot be read: there are no partitions.
pub open spec fn array_lost(hdr: Seq<u8>, s: GptScan) -> bool {
    s.layout is Gpt && s.is_bare() && (s.note matches GptNote::NoArray { crc_ok } && crc_ok
        == crc_right(hdr))
}

/// A sector that the drive could not read.
pub open spec fn unreadable(dev: Map<u32, Seq<u8>>, bad: Seq<u32>, l: u32) -> bool {
    !dev.contains_key(l) && bad.contains(l)
}

/// One of the sectors could not be read.
pub open spec fn any_unreadable(dev: Map<u32, Seq<u8>>, bad: Seq<u32>, lba: u32, n: int) -> bool {
    exists|l: u32| lba <= l < lba + n && #[trigger] unreadable(dev, bad, l)
}

/// The scan's answer, given what the cache and the drive hold and which sectors
/// could not be read.
pub open spec fn scanned(
    c: Clock,
    dev: Map<u32, Seq<u8>>,
    bad: Seq<u32>,
    lba0: Seq<u8>,
    r: Result<GptScan, u32>,
) -> bool {
    let hdr = sector_of(c, dev, 1);
    let l0 = table_lba(hdr);
    let n = array_len(hdr);
    match r {
        Err(l) => {
            &&& !dev.contains_key(l)
            &&& !bad.contains(l)
            &&& l == 1 || (array_named(hdr) && l0 <= l < l0 + n)
        },
        Ok(s) => {
            ||| unreadable(dev, bad, 1) && s.layout is Mbr && s.is_bare() && s.note is NoHeader
            ||| at_hand(c, dev, 1) && array_named(hdr) && any_unreadable(dev, bad, l0, n)
                && array_lost(hdr, s)
            ||| at_hand(c, dev, 1) && (array_named(hdr) ==> forall|l: u32|
                l0 <= l < l0 + n ==> #[trigger] at_hand(c, dev, l)) && gpt_scan(
                hdr,
                sectors_of(c, dev, l0, n as nat),
                lba0,
                s,
            )
        },
    }
}

/// Every sector that the scan may ask for is at hand or could not be read.
pub open spec fn scan_settled(c: Clock, dev: Map<u32, Seq<u8>>, bad: Seq<u32>) -> bool {
    let hdr = sector_of(c, dev, 1);
    &&& dev.contains_key(1) || bad.contains(1)
    &&& array_named(hdr) ==> forall|l: u32|
        table_lba(hdr) <= l < table_lba(hdr) + array_len(hdr) ==> #[trigger] dev.contains_key(l)
            || bad.contains(l)
}

fn is_bad(bad: &Vec<u32>, l: u32) -> (r: bool)
    ensures
        r == bad@.contains(l),
{
    let mut i: usize = 0;
    while i < bad.len()
        invariant
            i <= bad@.len(),
            forall|k: int| 0 <= k < i ==> bad@[k] != l,
        decreases bad@.len() - i,
    {
        if bad[i] == l {
            assert(bad@[i as int] == l);
            return true;
        }
        i += 1;
    }
    false
}

fn bare(layout: Layout, note: GptNote) -> (r: GptScan)
    ensures
        r.layout == layout,
        r.is_bare(),
        r.note == note,
{
    GptScan { layout, partitions: Vec::new(), disk_guid: String::new(), note }
}

/// The header sector, where it is at hand.
fn read_header(dev: &AtaDrive, c: &mut Cache) -> (r: Option<Vec<u8>>)
    requires
        dev.wf(),
        old(c).wf(),
        coherent(old(c)@, dev@),
        old(c).hits_spec() + old(c).misses_spec() + 1 <= usize::MAX,
    ensures
        final(c).wf(),
        coherent(final(c)@, dev@),
        grown(old(c)@, dev@, final(c)@),
        match r {
            Some(h) => {
                &&& h@ == sector_of(old(c)@, dev@, 1)
                &&& h@.len() == 512
                &&& at_hand(old(c)@, dev@, 1)
                &&& final(c).hits_spec() + final(c).misses_spec() == old(c).hits_spec()
                    + old(c).misses_spec() + 1
            },
            None => !dev@.contains_key(1),
        },
{
    let ghost c0 = c@;
    let mut hdr = zeros(SECTOR_SIZE);
    match read(dev, c, 1, 1, hdr.as_mut_slice()) {
        Ok(_) => {},
        Err(_) => return None,
    }
    proof {
        dev.lemma_wf();
        assert(at_hand(c0, dev@, 1));
        if c0.contents().contains_key(1) {
            assert(c0.holds(c0.slot_of(1), 1));
        }
        assert(hdr@ =~= sector_of(c0, dev@, 1)) by {
            assert forall|k: int| 0 <= k < 512 implies hdr@[k] == sector_of(c0, dev@, 1)[k] by {
                assert(k / 512 == 0 && k % 512 == k);
            }
        }
    }
    Some(hdr)
}

/// The table of an array that was read.
fn table_scan(hdr: &Vec<u8>, table: &Vec<u8>, lba0: &[u8]) -> (r: GptScan)
    requires
        hdr@.len() == 512,
        lba0@.len() == 512,
        array_named(hdr@),
        table@.len() == 512 * array_len(hdr@),
    ensures
        gpt_scan(hdr@, table@, lba0@, r),
{
    let entry_count = get_u32(hdr.as_slice(), 80);
    let entry_size = get_u32(hdr.as_slice(), 84) as usize;
    let crc_ok = header_crc_ok(hdr.as_slice());
    let mut partitions = parse_entries(table.as_slice(), entry_size, entry_count);
    let own = partitions.len();
    assert(views(partitions@).len() == own);
    push_mbr(lba0, &mut partitions);
    assert(views(partitions@).len() == partitions@.len());
    let hybrid = partitions.len() - own;
    let g = copy_range(hdr.as_slice(), 56, 72);
    let disk_guid = fmt_guid(g.as_slice());
    let note = GptNote::Table { crc_ok, hybrid };
    GptScan { layout: Layout::Gpt, partitions, disk_guid, note }
}

/// Read a GPT behind the protective MBR `lba0`. The data partitions that the
/// protective MBR lists in its free slots follow those of the entry array. A
/// header without signature, with impossible geometry or with an array beyond
/// the drive gives no partitions, and so does one that is among the sectors
/// `bad` that the drive could not read, or an array that is. `Err(l)` asks for
/// sector `l`.
#[verifier::rlimit(80)]
#[verifier::spinoff_prover]
pub fn scan_gpt(dev: &AtaDrive, c: &mut Cache, lba0: &[u8], bad: &Vec<u32>) -> (r: Result<
    GptScan,
    u32,
>)
    requires
        dev.wf(),
        old(c).wf(),
        coherent(old(c)@, dev@),
        lba0@.len() == 512,
        old(c).hits_spec() + old(c).misses_spec() + 4097 <= usize::MAX,
    ensures
        final(c).wf(),
        coherent(final(c)@, dev@),
        scanned(old(c)@, dev@, bad@, lba0@, r),
        scan_settled(old(c)@, dev@, bad@) ==> r is Ok,
{
    let ghost c0 = c@;
    let hdr = match read_header(dev, c) {
        Some(h) => h,
        None => if is_bad(bad, 1) {
            return Ok(bare(Layout::Mbr, GptNote::NoHeader));
        } else {
            return Err(1);
        },
    };
    if !has_signature(hdr.as_slice()) {
        return Ok(bare(Layout::Mbr, GptNote::NoHeader));
    }
    let entry_lba = get_u64(hdr.as_slice(), 72);
    let entry_count = get_u32(hdr.as_slice(), 80);
    let entry_size = get_u32(hdr.as_slice(), 84) as usize;
    match validate_gpt_geometry(entry_size, entry_count) {
        Ok(_) => {},
        Err(why) => return Ok(bare(Layout::Gpt, GptNote::Corrupt(why))),
    }
    assert(entry_count * entry_size <= 4096 * 4096) by (nonlinear_arith)
        requires
            entry_count <= 4096,
            entry_size <= 4096,
    ;
    let bytes = entry_count as usize * entry_size;
    let sectors = (bytes + 511) / 512;
    let want: usize = if sectors < GPT_MAX_SECTORS {
        sectors
    } else {
        GPT_MAX_SECTORS
    };
    let crc_ok = header_crc_ok(hdr.as_slice());
    let l0 = (entry_lba % 0x1_0000_0000) as u32;
    let ghost c1 = c@;
    if want > 0 && l0 as u64 + want as u64 - 1 > LBA28_MAX as u64 {
        return Ok(bare(Layout::Gpt, GptNote::NoArray { crc_ok }));
    }
    match read_many(dev, c, l0, want) {
        Err(l) => {
            if is_bad(bad, l) {
                assert(unreadable(dev@, bad@, l));
                return Ok(bare(Layout::Gpt, GptNote::NoArray { crc_ok }));
            }
            Err(l)
        },
        Ok(None) => Ok(bare(Layout::Gpt, GptNote::NoArray { crc_ok })),
        Ok(Some(table)) => {
            proof {
                let t0 = sectors_of(c0, dev@, l0, want as nat);
                assert forall|l: u32| l0 <= l < l0 + want implies #[trigger] at_hand(
                    c0,
                    dev@,
                    l,
                ) by {
                    assert(at_hand(c1, dev@, l));
                }
                assert forall|k: int| 0 <= k < 512 * want implies table@[k] == t0[k] by {
                    assert(at_hand(c1, dev@, (l0 + k / 512) as u32));
                }
                assert(table@ =~= t0);
            }
            Ok(table_scan(&hdr, &table, lba0))
        },
    }
}

/// The last sector that a 28-bit command can address.
pub open spec fn last_sector(total: u64) -> u32 {
    if total - 1 < LBA28_MAX {
        (total - 1) as u32
    } else {
        LBA28_MAX
    }
}

/// The sector that exercises the write path: the drive's last. A drive without
/// sectors has none, and fails the check.
pub fn rewrite_sector(total_sectors: u64) -> (r: Option<u32>)
    ensures
        r == if total_sectors == 0 { None::<u32> } else { Some(last_sector(total_sectors)) },
{
    if total_sectors == 0 {
        None
    } else if total_sectors - 1 < LBA28_MAX as u64 {
        Some((total_sectors - 1) as u32)
    } else {
        Some(LBA28_MAX)
    }
}

/// Judge the write path by a rewrite of a sector with its own bytes: it was read
/// as `before`, written, and read again as `after`; `None` where a read failed.
pub fn write_verify(before: &Option<Vec<u8>>, wrote: bool, after: &Option<Vec<u8>>) -> (r: bool)
    ensures
        r == (before is Some && wrote && after is Some && before->0@ == after->0@),
{
    match (before, after) {
        (Some(b), Some(a)) => wrote && same_bytes(b.as_slice(), a.as_slice()),
        _ => false,
    }
}

/// How bringing up the block layer ended.
pub enum BlockInit {
    /// Two reads of sector 0 differ.
    Unstable,
    /// Sector 0 has no boot signature.
    NoPartitionTable,
    /// The sector is to be fetched, then bring-up repeated.
    Fetch(AtaDrive, DriveInfo, u32),
    /// The disk, and what the scan met with behind a protective MBR.
    Ready(Disk, Option<GptNote>),
}

/// Sector 0 ends in 0x55 0xAA.
pub open spec fn has_boot_signature(s: Seq<u8>) -> bool {
    s[510] == 0x55 && s[511] == 0xAA
}

/// Bring up the block layer from two reads of sector 0: scan the partition
/// table, protective or classic. `bad` are sectors that were asked for and could
/// not be read.
pub fn init(
    drive: AtaDrive,
    info: DriveInfo,
    c: &mut Cache,
    a: &[u8],
    b: &[u8],
    bad: &Vec<u32>,
) -> (r: BlockInit)
    requires
        drive.wf(),
        old(c).wf(),
        coherent(old(c)@, drive@),
        a@.len() == 512,
        b@.len() == 512,
        old(c).hits_spec() + old(c).misses_spec() + 4097 <= usize::MAX,
    ensures
        final(c).wf(),
        coherent(final(c)@, drive@),
        r is Unstable <==> a@ != b@,
        r is NoPartitionTable <==> a@ == b@ && !has_boot_signature(a@),
        match r {
            BlockInit::Fetch(d, i, l) => {
                &&& d == drive
                &&& i == info
                &&& a@[450] == 0xEE
                &&& scanned(old(c)@, drive@, bad@, a@, Err::<GptScan, u32>(l))
            },
            BlockInit::Ready(d, note) => {
                &&& d.drive == drive
                &&& d.info == info
                &&& if a@[450] == 0xEE {
                    note is Some && scanned(
                        old(c)@,
                        drive@,
                        bad@,
                        a@,
                        Ok::<GptScan, u32>(
                            GptScan {
                                layout: d.layout,
                                partitions: d.partitions,
                                disk_guid: d.disk_guid,
                                note: note->0,
                            },
                        ),
                    )
                } else {
                    d.layout is Mbr && views(d.partitions@) == mbr_views(a@, 4)
                        && d.disk_guid@.len() == 0 && note is None
                }
            },
            _ => *final(c) == *old(c),
        },
        a@ == b@ && has_boot_signature(a@) && (a@[450] == 0xEE ==> scan_settled(
            old(c)@,
            drive@,
            bad@,
        )) ==> r is Ready,
{
    if !same_bytes(a, b) {
        return BlockInit::Unstable;
    }
    if a[510] != 0x55 || a[511] != 0xAA {
        return BlockInit::NoPartitionTable;
    }
    if a[450] != 0xEE {
        let disk = Disk {
            drive,
            info,
            layout: Layout::Mbr,
            partitions: scan_mbr(a),
            disk_guid: String::new(),
        };
        return BlockInit::Ready(disk, None);
    }
    match scan_gpt(&drive, c, a, bad) {
        Err(l) => BlockInit::Fetch(drive, info, l),
        Ok(s) => {
            let disk = Disk {
                drive,
                info,
                layout: s.layout,
                partitions: s.partitions,
                disk_guid: s.disk_guid,
            };
            BlockInit::Ready(disk, Some(s.note))
        },
    }
}

} // verus!
