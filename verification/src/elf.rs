//! The ELF64 loader: validation, the load plan and the relocations.
//!
//! The loader reads the header by hand and hands back what to map, what to
//! copy and which pointer slots to fill. A malformed image is refused with the
//! reason; what was planned before the fault is kept, since it was loaded by
//! then.
use vstd::prelude::*;

use crate::bytes::{get_u16, get_u32, get_u64, le16, le32, le64};

verus! {

/// Lowest address of a user image.
pub const USER_TEXT_BASE: u64 = 0x40_0000;

/// End of the region for user images: 256 MiB.
pub const USER_MAX_ADDR: u64 = 0x1000_0000;

/// Where position-independent images are mapped: 32 MiB.
pub const LNX_PIE_LOAD_BASE: u64 = 0x200_0000;

/// `e_type` of a fixed-base image.
pub const ET_EXEC: u16 = 2;

/// `e_type` of a position-independent image.
pub const ET_DYN: u16 = 3;

/// `p_type` of a loadable segment.
pub const PT_LOAD: u32 = 1;

/// `sh_type` of a relocation section with addends.
pub const SHT_RELA: u32 = 4;

/// `sh_type` of the dynamic symbol table.
pub const SHT_DYNSYM: u32 = 11;

/// Relocation against a symbol's address, in a data slot.
pub const R_X86_64_GLOB_DAT: u64 = 6;

/// Relocation against a symbol's address, in a call slot.
pub const R_X86_64_JUMP_SLOT: u64 = 7;

/// Relocation against the load base.
pub const R_X86_64_RELATIVE: u64 = 8;

/// Why an image is refused.
#[derive(Clone, Copy, PartialEq, Eq, Debug)]
pub enum LoadError {
    Truncated,
    BadMagic,
    NotSixtyFourBit,
    NotLittleEndian,
    BadType,
    BadPhentsize,
    PhdrOffsetOverflow,
    PhdrOutOfRange,
    NoSegments,
    EntryOutOfRange,
    SizeOverflow,
    DataOutOfRange,
    MemszBelowFilesz,
    VaddrOverflow,
    SegmentSizeOverflow,
    OutsideRegion,
    ShdrOffsetOverflow,
    ShdrOutOfRange,
    RelaOutOfRange,
    NoDynsym,
    SymOutOfRange,
    /// The symbol is not defined; the name's extent in the file, where it can
    /// be read.
    UndefinedSymbol(Option<(u64, u64)>),
    TargetOverflow,
    TargetOutside,
}

/// The reason in words.
pub open spec fn load_message(e: LoadError) -> Seq<char> {
    match e {
        LoadError::Truncated => "truncated (no ELF header)"@,
        LoadError::BadMagic => "bad magic"@,
        LoadError::NotSixtyFourBit => "not 64-bit"@,
        LoadError::NotLittleEndian => "not little-endian"@,
        LoadError::BadType => "not ET_EXEC/ET_DYN"@,
        LoadError::BadPhentsize => "bad phentsize"@,
        LoadError::PhdrOffsetOverflow => "phdr offset overflow"@,
        LoadError::PhdrOutOfRange => "phdr out of range"@,
        LoadError::NoSegments => "no PT_LOAD segments"@,
        LoadError::EntryOutOfRange => "entry point out of range"@,
        LoadError::SizeOverflow => "size overflow"@,
        LoadError::DataOutOfRange => "segment data out of range"@,
        LoadError::MemszBelowFilesz => "memsz < filesz"@,
        LoadError::VaddrOverflow => "segment vaddr overflow"@,
        LoadError::SegmentSizeOverflow => "segment size overflow"@,
        LoadError::OutsideRegion => "segment outside reserved region"@,
        LoadError::ShdrOffsetOverflow => "shdr offset overflow"@,
        LoadError::ShdrOutOfRange => "shdr out of range"@,
        LoadError::RelaOutOfRange => "rela section out of range"@,
        LoadError::NoDynsym => "symbol reloc without .dynsym"@,
        LoadError::SymOutOfRange => "sym out of range"@,
        LoadError::UndefinedSymbol(_) => "symbol reloc for undefined symbol"@,
        LoadError::TargetOverflow => "relocation target overflow"@,
        LoadError::TargetOutside => "relocation target outside loaded segments"@,
    }
}

/// The reason in words.
pub fn message(e: LoadError) -> (r: &'static str)
    ensures
        r@ == load_message(e),
{
    match e {
        LoadError::Truncated => "truncated (no ELF header)",
        LoadError::BadMagic => "bad magic",
        LoadError::NotSixtyFourBit => "not 64-bit",
        LoadError::NotLittleEndian => "not little-endian",
        LoadError::BadType => "not ET_EXEC/ET_DYN",
        LoadError::BadPhentsize => "bad phentsize",
        LoadError::PhdrOffsetOverflow => "phdr offset overflow",
        LoadError::PhdrOutOfRange => "phdr out of range",
        LoadError::NoSegments => "no PT_LOAD segments",
        LoadError::EntryOutOfRange => "entry point out of range",
        LoadError::SizeOverflow => "size overflow",
        LoadError::DataOutOfRange => "segment data out of range",
        LoadError::MemszBelowFilesz => "memsz < filesz",
        LoadError::VaddrOverflow => "segment vaddr overflow",
        LoadError::SegmentSizeOverflow => "segment size overflow",
        LoadError::OutsideRegion => "segment outside reserved region",
        LoadError::ShdrOffsetOverflow => "shdr offset overflow",
        LoadError::ShdrOutOfRange => "shdr out of range",
        LoadError::RelaOutOfRange => "rela section out of range",
        LoadError::NoDynsym => "symbol reloc without .dynsym",
        LoadError::SymOutOfRange => "sym out of range",
        LoadError::UndefinedSymbol(_) => "symbol reloc for undefined symbol",
        LoadError::TargetOverflow => "relocation target overflow",
        LoadError::TargetOutside => "relocation target outside loaded segments",
    }
}

// ---------------------------------------------------------------------------
// Fields
// ---------------------------------------------------------------------------

/// The header fields that the loader reads.
#[derive(Clone, Copy, PartialEq, Eq, Debug, Structural)]
pub struct Header {
    pub e_type: u16,
    pub entry: u64,
    pub phoff: u64,
    pub shoff: u64,
    pub phentsize: u16,
    pub phnum: u16,
    pub shentsize: u16,
    pub shnum: u16,
}

/// The header of an image of at least 64 bytes.
pub open spec fn header(elf: Seq<u8>) -> Header {
    Header {
        e_type: le16(elf, 16) as u16,
        entry: le64(elf, 24) as u64,
        phoff: le64(elf, 32) as u64,
        shoff: le64(elf, 40) as u64,
        phentsize: le16(elf, 54) as u16,
        phnum: le16(elf, 56) as u16,
        shentsize: le16(elf, 58) as u16,
        shnum: le16(elf, 60) as u16,
    }
}

fn read_header(elf: &[u8]) -> (h: Header)
    requires
        elf@.len() >= 64,
    ensures
        h == header(elf@),
{
    Header {
        e_type: get_u16(elf, 16),
        entry: get_u64(elf, 24),
        phoff: get_u64(elf, 32),
        shoff: get_u64(elf, 40),
        phentsize: get_u16(elf, 54),
        phnum: get_u16(elf, 56),
        shentsize: get_u16(elf, 58),
        shnum: get_u16(elf, 60),
    }
}

/// `0x7F 'E' 'L' 'F'`.
pub open spec fn has_magic(elf: Seq<u8>) -> bool {
    elf[0] == 0x7F && elf[1] == 0x45 && elf[2] == 0x4C && elf[3] == 0x46
}

fn check_magic(elf: &[u8]) -> (r: bool)
    requires
        elf@.len() >= 64,
    ensures
        r == has_magic(elf@),
{
    elf[0] == 0x7F && elf[1] == 0x45 && elf[2] == 0x4C && elf[3] == 0x46
}

fn rd32(elf: &[u8], off: u64) -> (r: u32)
    requires
        off + 4 <= elf@.len(),
    ensures
        r == le32(elf@, off as int),
{
    let _n = elf.len();
    get_u32(elf, off as usize)
}

fn rd64(elf: &[u8], off: u64) -> (r: u64)
    requires
        off + 8 <= elf@.len(),
    ensures
        r == le64(elf@, off as int),
{
    let _n = elf.len();
    get_u64(elf, off as usize)
}

/// `x` rounded down to its page.
pub open spec fn page_floor(x: int) -> int {
    x - x % 0x1000
}

/// `x` rounded up to a page.
pub open spec fn page_ceil(x: int) -> int {
    page_floor(x + 0xFFF)
}

fn floor_page(x: u64) -> (r: u64)
    ensures
        r == page_floor(x as int),
{
    x - x % 0x1000
}

// ---------------------------------------------------------------------------
// The extent of an image
// ---------------------------------------------------------------------------

/// The file position of program header `i`.
pub open spec fn ph_at(h: Header, i: int) -> int {
    h.phoff + i * h.phentsize
}

/// Program header `i` loads something.
pub open spec fn is_load(elf: Seq<u8>, h: Header, i: int) -> bool {
    le32(elf, ph_at(h, i)) == PT_LOAD
}

/// The stated address of segment `i`.
pub open spec fn vaddr_of(elf: Seq<u8>, h: Header, i: int) -> int {
    le64(elf, ph_at(h, i) + 16)
}

/// The size in memory of segment `i`.
pub open spec fn memsz_of(elf: Seq<u8>, h: Header, i: int) -> int {
    le64(elf, ph_at(h, i) + 40)
}

/// Program header `i` can be read for its extent.
pub open spec fn extent_ok(elf: Seq<u8>, h: Header, i: int) -> bool {
    &&& ph_at(h, i) + 4 <= elf.len()
    &&& is_load(elf, h, i) ==> {
        &&& ph_at(h, i) + 48 <= elf.len()
        &&& vaddr_of(elf, h, i) + memsz_of(elf, h, i) + 0xFFF <= u64::MAX
    }
}

/// The lowest page of the first `n` segments, 2^64 - 1 where there is none.
pub open spec fn lowest(elf: Seq<u8>, h: Header, n: int) -> int
    decreases n,
{
    if n <= 0 {
        u64::MAX as int
    } else {
        let rest = lowest(elf, h, n - 1);
        let start = page_floor(vaddr_of(elf, h, n - 1));
        if is_load(elf, h, n - 1) && start < rest {
            start
        } else {
            rest
        }
    }
}

/// The end of the last page of the first `n` segments, 0 where there is none.
pub open spec fn highest(elf: Seq<u8>, h: Header, n: int) -> int
    decreases n,
{
    if n <= 0 {
        0
    } else {
        let rest = highest(elf, h, n - 1);
        let end = page_ceil(vaddr_of(elf, h, n - 1) + memsz_of(elf, h, n - 1));
        if is_load(elf, h, n - 1) && end > rest {
            end
        } else {
            rest
        }
    }
}

/// A 64-bit little-endian ELF image whose program headers have room.
pub open spec fn looks_like_elf(elf: Seq<u8>) -> bool {
    &&& elf.len() >= 64
    &&& has_magic(elf)
    &&& elf[4] == 2
    &&& elf[5] == 1
    &&& header(elf).phentsize >= 56
}

/// The pages that the image takes in memory.
pub open spec fn region_of(elf: Seq<u8>) -> Option<(u64, u64)> {
    let h = header(elf);
    let lo = lowest(elf, h, h.phnum as int);
    let hi = highest(elf, h, h.phnum as int);
    let base = if h.e_type == ET_DYN {
        LNX_PIE_LOAD_BASE as int
    } else {
        lo
    };
    let end = base + (hi - lo);
    if !looks_like_elf(elf) || !(forall|i: int|
        0 <= i < h.phnum ==> #[trigger] extent_ok(elf, h, i)) {
        None
    } else if lo == u64::MAX || hi <= lo || base < USER_TEXT_BASE || end > USER_MAX_ADDR {
        None
    } else {
        Some((base as u64, end as u64))
    }
}

/// The first page of the region.
pub open spec fn region_start(elf: Seq<u8>) -> u64 {
    match region_of(elf) {
        Some((lo, _)) => lo,
        None => 0,
    }
}

/// The end of the region.
pub open spec fn region_end(elf: Seq<u8>) -> u64 {
    match region_of(elf) {
        Some((_, hi)) => hi,
        None => 0,
    }
}

/// The page extent of the image as mapped, `None` on any malformation.
pub fn elf_region(elf: &[u8]) -> (r: Option<(u64, u64)>)
    ensures
        r == region_of(elf@),
{
    let len = elf.len() as u64;
    if len < 64 || !check_magic(elf) || elf[4] != 2 || elf[5] != 1 {
        return None;
    }
    let h = read_header(elf);
    if h.phentsize < 56 {
        return None;
    }
    let mut lo: u64 = u64::MAX;
    let mut hi: u64 = 0;
    let mut i: u16 = 0;
    while i < h.phnum
        invariant
            len == elf@.len(),
            looks_like_elf(elf@),
            h == header(elf@),
            i <= h.phnum,
            lo == lowest(elf@, h, i as int),
            hi == highest(elf@, h, i as int),
            forall|k: int| 0 <= k < i ==> #[trigger] extent_ok(elf@, h, k),
        decreases h.phnum - i,
    {
        assert(i * h.phentsize <= 0xFFFF * 0xFFFF) by (nonlinear_arith)
            requires
                i <= 0xFFFF,
                h.phentsize <= 0xFFFF,
        ;
        assert(i * h.phentsize >= 0) by (nonlinear_arith);
        let at = i as u64 * h.phentsize as u64;
        if h.phoff > u64::MAX - at {
            assert(!extent_ok(elf@, h, i as int));
            return None;
        }
        let ph = h.phoff + at;
        if len < 4 || ph > len - 4 {
            assert(!extent_ok(elf@, h, i as int));
            return None;
        }
        if rd32(elf, ph) == PT_LOAD {
            if len < 48 || ph > len - 48 {
                assert(!extent_ok(elf@, h, i as int));
                return None;
            }
            let vaddr = rd64(elf, ph + 16);
            let memsz = rd64(elf, ph + 40);
            if vaddr > u64::MAX - memsz || vaddr + memsz > u64::MAX - 0xFFF {
                assert(!extent_ok(elf@, h, i as int));
                return None;
            }
            let start = floor_page(vaddr);
            let end = floor_page(vaddr + memsz + 0xFFF);
            if start < lo {
                lo = start;
            }
            if end > hi {
                hi = end;
            }
        }
        assert(extent_ok(elf@, h, i as int));
        i += 1;
    }
    if lo == u64::MAX || hi <= lo {
        return None;
    }
    let size = hi - lo;
    let base = if h.e_type == ET_DYN {
        LNX_PIE_LOAD_BASE
    } else {
        lo
    };
    if base < USER_TEXT_BASE || base > USER_MAX_ADDR || size > USER_MAX_ADDR - base {
        return None;
    }
    Some((base, base + size))
}

// ---------------------------------------------------------------------------
// Segments
// ---------------------------------------------------------------------------

/// A loadable segment: the pages `start..end` to map, the file bytes to copy
/// to `map_va`, the size in memory (the rest is zero), and what the pages
/// allow once the bytes are in.
#[derive(Clone, Copy, PartialEq, Eq, Debug, Structural)]
pub struct Segment {
    pub start: u64,
    pub end: u64,
    pub map_va: u64,
    pub offset: u64,
    pub filesz: u64,
    pub memsz: u64,
    pub writable: bool,
    pub executable: bool,
}

/// What the process-start stack tells the program of its image.
#[derive(Clone, Copy, PartialEq, Eq, Debug)]
pub struct ElfLoadInfo {
    pub entry: u64,
    pub phnum: u64,
    /// Where the program headers are in memory, if a segment holds them.
    pub phdr_vaddr: Option<u64>,
    /// The load address of a position-independent image, 0 otherwise.
    pub at_base: u64,
}

/// What to map and to write for an image.
pub struct LoadPlan {
    pub segments: Vec<Segment>,
    /// Pointer slots to fill: the address and the value.
    pub writes: Vec<(u64, u64)>,
}

/// What is wrong with the place of program header `i`.
pub open spec fn ph_fault(elf: Seq<u8>, h: Header, i: int) -> Option<LoadError> {
    if ph_at(h, i) > u64::MAX {
        Some(LoadError::PhdrOffsetOverflow)
    } else if ph_at(h, i) + 56 > elf.len() {
        Some(LoadError::PhdrOutOfRange)
    } else {
        None
    }
}

/// The first program header of the first `n` whose place is wrong.
pub open spec fn ph_faults(elf: Seq<u8>, h: Header, n: int) -> Option<LoadError>
    decreases n,
{
    if n <= 0 {
        None
    } else {
        match ph_faults(elf, h, n - 1) {
            Some(e) => Some(e),
            None => ph_fault(elf, h, n - 1),
        }
    }
}

/// The place of program header `i`.
fn locate_ph(elf: &[u8], h: Header, i: u16) -> (r: Result<u64, LoadError>)
    ensures
        r matches Ok(ph) ==> ph == ph_at(h, i as int) && ph_fault(elf@, h, i as int) is None && ph
            + 56 <= u64::MAX,
        r matches Err(e) ==> ph_fault(elf@, h, i as int) == Some(e),
{
    let len = elf.len() as u64;
    assert(i * h.phentsize <= 0xFFFF * 0xFFFF) by (nonlinear_arith)
        requires
            i <= 0xFFFF,
            h.phentsize <= 0xFFFF,
    ;
    assert(i * h.phentsize >= 0) by (nonlinear_arith);
    let at = i as u64 * h.phentsize as u64;
    if h.phoff > u64::MAX - at {
        return Err(LoadError::PhdrOffsetOverflow);
    }
    let ph = h.phoff + at;
    if len < 56 || ph > len - 56 {
        return Err(LoadError::PhdrOutOfRange);
    }
    Ok(ph)
}

/// The distance from stated to mapped addresses, or why there is none.
pub open spec fn load_base_of(elf: Seq<u8>, h: Header) -> Result<u64, LoadError> {
    if h.e_type != ET_DYN {
        Ok(0)
    } else {
        match ph_faults(elf, h, h.phnum as int) {
            Some(e) => Err(e),
            None => {
                let pref = lowest(elf, h, h.phnum as int);
                if pref == u64::MAX {
                    Err(LoadError::NoSegments)
                } else if pref > LNX_PIE_LOAD_BASE {
                    Err(LoadError::VaddrOverflow)
                } else {
                    Ok((LNX_PIE_LOAD_BASE - pref) as u64)
                }
            },
        }
    }
}

proof fn lemma_ph_faults(elf: Seq<u8>, h: Header, k: int, n: int)
    requires
        0 <= k < n,
        ph_faults(elf, h, k) is None,
        ph_fault(elf, h, k) is Some,
    ensures
        ph_faults(elf, h, n) == ph_fault(elf, h, k),
    decreases n,
{
    if n > k + 1 {
        lemma_ph_faults(elf, h, k, n - 1);
    }
}

fn find_load_base(elf: &[u8], h: Header) -> (r: Result<u64, LoadError>)
    ensures
        r == load_base_of(elf@, h),
{
    if h.e_type != ET_DYN {
        return Ok(0);
    }
    let mut pref: u64 = u64::MAX;
    let mut i: u16 = 0;
    while i < h.phnum
        invariant
            i <= h.phnum,
            h.e_type == ET_DYN,
            pref == lowest(elf@, h, i as int),
            ph_faults(elf@, h, i as int) is None,
        decreases h.phnum - i,
    {
        match locate_ph(elf, h, i) {
            Err(e) => {
                proof {
                    lemma_ph_faults(elf@, h, i as int, h.phnum as int);
                }
                return Err(e);
            },
            Ok(ph) => {
                if rd32(elf, ph) == PT_LOAD {
                    let start = floor_page(rd64(elf, ph + 16));
                    if start < pref {
                        pref = start;
                    }
                }
            },
        }
        i += 1;
    }
    if pref == u64::MAX {
        return Err(LoadError::NoSegments);
    }
    if pref > LNX_PIE_LOAD_BASE {
        return Err(LoadError::VaddrOverflow);
    }
    Ok(LNX_PIE_LOAD_BASE - pref)
}

/// The segment that the program header at `ph` describes, moved by `base`.
#[verifier::opaque]
pub open spec fn segment_at(elf: Seq<u8>, ph: int, base: u64) -> Result<Segment, LoadError> {
    let offset = le64(elf, ph + 8);
    let vaddr = le64(elf, ph + 16);
    let filesz = le64(elf, ph + 32);
    let memsz = le64(elf, ph + 40);
    let flags = le32(elf, ph + 4);
    let va = base + vaddr;
    let start = page_floor(va);
    let end = page_ceil(va + memsz);
    if offset + filesz > u64::MAX {
        Err(LoadError::SizeOverflow)
    } else if offset + filesz > elf.len() {
        Err(LoadError::DataOutOfRange)
    } else if memsz < filesz {
        Err(LoadError::MemszBelowFilesz)
    } else if va > u64::MAX {
        Err(LoadError::VaddrOverflow)
    } else if va + memsz + 0xFFF > u64::MAX {
        Err(LoadError::SegmentSizeOverflow)
    } else if end <= start || start < USER_TEXT_BASE || end > USER_MAX_ADDR {
        Err(LoadError::OutsideRegion)
    } else {
        Ok(
            Segment {
                start: start as u64,
                end: end as u64,
                map_va: va as u64,
                offset: offset as u64,
                filesz: filesz as u64,
                memsz: memsz as u64,
                writable: flags / 2 % 2 == 1,
                executable: flags % 2 == 1,
            },
        )
    }
}

/// Read the segment that the program header at `ph` describes.
fn read_segment(elf: &[u8], ph: u64, base: u64) -> (r: Result<Segment, LoadError>)
    requires
        ph + 56 <= elf@.len(),
    ensures
        r == segment_at(elf@, ph as int, base),
{
    reveal(segment_at);
    let len = elf.len() as u64;
    let flags = rd32(elf, ph + 4);
    let offset = rd64(elf, ph + 8);
    let vaddr = rd64(elf, ph + 16);
    let filesz = rd64(elf, ph + 32);
    let memsz = rd64(elf, ph + 40);
    if offset > u64::MAX - filesz {
        return Err(LoadError::SizeOverflow);
    }
    if offset + filesz > len {
        return Err(LoadError::DataOutOfRange);
    }
    if memsz < filesz {
        return Err(LoadError::MemszBelowFilesz);
    }
    if base > u64::MAX - vaddr {
        return Err(LoadError::VaddrOverflow);
    }
    let va = base + vaddr;
    if memsz > u64::MAX - 0xFFF || va > u64::MAX - (memsz + 0xFFF) {
        return Err(LoadError::SegmentSizeOverflow);
    }
    let start = floor_page(va);
    let end = floor_page(va + (memsz + 0xFFF));
    if end <= start || start < USER_TEXT_BASE || end > USER_MAX_ADDR {
        return Err(LoadError::OutsideRegion);
    }
    Ok(
        Segment {
            start,
            end,
            map_va: va,
            offset,
            filesz,
            memsz,
            writable: flags / 2 % 2 == 1,
            executable: flags % 2 == 1,
        },
    )
}

/// What is loaded after some program headers, and the fault that stopped it.
pub struct Loaded {
    pub segments: Seq<Segment>,
    pub fault: Option<LoadError>,
}

/// What the first `n` program headers load.
pub open spec fn loaded(elf: Seq<u8>, h: Header, base: u64, n: int) -> Loaded
    decreases n,
{
    if n <= 0 {
        Loaded { segments: Seq::empty(), fault: None }
    } else {
        let l = loaded(elf, h, base, n - 1);
        if l.fault is Some {
            l
        } else if ph_fault(elf, h, n - 1) is Some {
            Loaded { fault: ph_fault(elf, h, n - 1), ..l }
        } else if !is_load(elf, h, n - 1) {
            l
        } else {
            match segment_at(elf, ph_at(h, n - 1), base) {
                Err(e) => Loaded { fault: Some(e), ..l },
                Ok(s) => Loaded { segments: l.segments.push(s), fault: None },
            }
        }
    }
}

proof fn lemma_fault_stays(elf: Seq<u8>, h: Header, base: u64, k: int, n: int)
    requires
        0 <= k <= n,
        loaded(elf, h, base, k).fault is Some,
    ensures
        loaded(elf, h, base, n) == loaded(elf, h, base, k),
    decreases n,
{
    if n > k {
        lemma_fault_stays(elf, h, base, k, n - 1);
    }
}

/// Plan the segments; the fault where one stops it.
fn load_segments(elf: &[u8], h: Header, base: u64, segments: &mut Vec<Segment>) -> (r: Option<
    LoadError,
>)
    requires
        old(segments)@.len() == 0,
    ensures
        final(segments)@ == loaded(elf@, h, base, h.phnum as int).segments,
        r == loaded(elf@, h, base, h.phnum as int).fault,
{
    assert(segments@ =~= Seq::empty());
    let mut i: u16 = 0;
    while i < h.phnum
        invariant
            i <= h.phnum,
            loaded(elf@, h, base, i as int) == (Loaded { segments: segments@, fault: None }),
        decreases h.phnum - i,
    {
        match locate_ph(elf, h, i) {
            Err(e) => {
                proof {
                    lemma_fault_stays(elf@, h, base, i + 1, h.phnum as int);
                }
                return Some(e);
            },
            Ok(ph) => {
                if rd32(elf, ph) == PT_LOAD {
                    match read_segment(elf, ph, base) {
                        Err(e) => {
                            proof {
                                lemma_fault_stays(elf@, h, base, i + 1, h.phnum as int);
                            }
                            return Some(e);
                        },
                        Ok(s) => {
                            segments.push(s);
                        },
                    }
                }
            },
        }
        i += 1;
    }
    None
}

/// Where a segment holds the program header table.
pub open spec fn holds_phdrs(h: Header, s: Segment) -> bool {
    s.offset <= h.phoff && h.phoff - s.offset < s.filesz
}

/// The address of the program headers by the first of the segments `k..` that
/// holds them.
pub open spec fn phdrs_in(h: Header, segs: Seq<Segment>, k: int) -> Option<u64>
    decreases segs.len() - k,
{
    if k >= segs.len() {
        None
    } else if holds_phdrs(h, segs[k]) {
        Some((segs[k].map_va + (h.phoff - segs[k].offset)) as u64)
    } else {
        phdrs_in(h, segs, k + 1)
    }
}

/// A segment's pages lie in the user region, and its bytes in its pages.
pub open spec fn placed(s: Segment) -> bool {
    &&& USER_TEXT_BASE <= s.start <= s.map_va
    &&& s.filesz <= s.memsz
    &&& s.map_va + s.memsz <= s.end <= USER_MAX_ADDR
    &&& s.start % 0x1000 == 0
    &&& s.end % 0x1000 == 0
}

proof fn lemma_segment_at(elf: Seq<u8>, ph: int, base: u64)
    ensures
        segment_at(elf, ph, base) matches Ok(s) ==> {
            &&& placed(s)
            &&& s.offset + s.filesz <= elf.len()
            &&& s.start == page_floor(base + le64(elf, ph + 16))
            &&& s.end == page_ceil(base + le64(elf, ph + 16) + le64(elf, ph + 40))
        },
{
    reveal(segment_at);
}

/// Every planned segment lies in the user region with its file bytes in the
/// file.
pub proof fn law_segments_are_placed(elf: Seq<u8>, h: Header, base: u64, n: int, k: int)
    requires
        0 <= k < loaded(elf, h, base, n).segments.len(),
    ensures
        placed(loaded(elf, h, base, n).segments[k]),
        loaded(elf, h, base, n).segments[k].offset + loaded(elf, h, base, n).segments[k].filesz
            <= elf.len(),
    decreases n,
{
    let l = loaded(elf, h, base, n - 1);
    if k < l.segments.len() {
        law_segments_are_placed(elf, h, base, n - 1, k);
    } else {
        lemma_segment_at(elf, ph_at(h, n - 1), base);
    }
}

fn find_phdrs(h: Header, segs: &Vec<Segment>) -> (r: Option<u64>)
    requires
        forall|k: int| 0 <= k < segs@.len() ==> placed(#[trigger] segs@[k]),
    ensures
        r == phdrs_in(h, segs@, 0),
{
    let mut k: usize = 0;
    while k < segs.len()
        invariant
            k <= segs@.len(),
            phdrs_in(h, segs@, 0) == phdrs_in(h, segs@, k as int),
            forall|k: int| 0 <= k < segs@.len() ==> placed(#[trigger] segs@[k]),
        decreases segs@.len() - k,
    {
        let s = segs[k];
        if s.offset <= h.phoff && h.phoff - s.offset < s.filesz {
            return Some(s.map_va + (h.phoff - s.offset));
        }
        k += 1;
    }
    None
}

// ---------------------------------------------------------------------------
// Relocations
// ---------------------------------------------------------------------------

/// The dynamic symbol table: its place in the file, and its strings.
#[derive(Clone, Copy, PartialEq, Eq, Debug)]
pub struct SymTab {
    pub off: u64,
    pub size: u64,
    /// The place and size of the string table, where its header can be read.
    pub strings: Option<(u64, u64)>,
}

/// The file position of section header `j`.
pub open spec fn sh_at(h: Header, j: int) -> int {
    h.shoff + j * h.shentsize
}

/// What is wrong with the place of section header `j`.
pub open spec fn sh_fault(elf: Seq<u8>, h: Header, j: int) -> Option<LoadError> {
    if sh_at(h, j) > u64::MAX {
        Some(LoadError::ShdrOffsetOverflow)
    } else if sh_at(h, j) + 64 > elf.len() {
        Some(LoadError::ShdrOutOfRange)
    } else {
        None
    }
}

/// The place of section header `j`.
fn locate_sh(elf: &[u8], h: Header, j: u16) -> (r: Result<u64, LoadError>)
    ensures
        r matches Ok(sh) ==> sh == sh_at(h, j as int) && sh_fault(elf@, h, j as int) is None && sh
            + 64 <= u64::MAX,
        r matches Err(e) ==> sh_fault(elf@, h, j as int) == Some(e),
{
    let len = elf.len() as u64;
    assert(j * h.shentsize <= 0xFFFF * 0xFFFF) by (nonlinear_arith)
        requires
            j <= 0xFFFF,
            h.shentsize <= 0xFFFF,
    ;
    assert(j * h.shentsize >= 0) by (nonlinear_arith);
    let at = j as u64 * h.shentsize as u64;
    if h.shoff > u64::MAX - at {
        return Err(LoadError::ShdrOffsetOverflow);
    }
    let sh = h.shoff + at;
    if len < 64 || sh > len - 64 {
        return Err(LoadError::ShdrOutOfRange);
    }
    Ok(sh)
}

/// The symbol table that section header `sh` describes.
pub open spec fn symtab_at(elf: Seq<u8>, h: Header, sh: int) -> Result<Option<SymTab>, LoadError> {
    let link = le32(elf, sh + 40);
    let strh = sh_at(h, link);
    if strh > u64::MAX {
        Err(LoadError::ShdrOffsetOverflow)
    } else {
        Ok(
            Some(
                SymTab {
                    off: le64(elf, sh + 24) as u64,
                    size: le64(elf, sh + 32) as u64,
                    strings: if strh + 64 <= elf.len() {
                        Some((le64(elf, strh + 24) as u64, le64(elf, strh + 32) as u64))
                    } else {
                        None
                    },
                },
            ),
        )
    }
}

/// The first symbol table of the section headers from `j` on.
pub open spec fn symtab_from(elf: Seq<u8>, h: Header, j: int) -> Result<Option<SymTab>, LoadError>
    decreases h.shnum - j,
{
    if j >= h.shnum {
        Ok(None)
    } else {
        match sh_fault(elf, h, j) {
            Some(e) => Err(e),
            None => if le32(elf, sh_at(h, j) + 4) == SHT_DYNSYM {
                symtab_at(elf, h, sh_at(h, j))
            } else {
                symtab_from(elf, h, j + 1)
            },
        }
    }
}

fn read_symtab(elf: &[u8], h: Header, sh: u64) -> (r: Result<Option<SymTab>, LoadError>)
    requires
        sh + 64 <= elf@.len(),
    ensures
        r == symtab_at(elf@, h, sh as int),
{
    let len = elf.len() as u64;
    let off = rd64(elf, sh + 24);
    let size = rd64(elf, sh + 32);
    let link = rd32(elf, sh + 40);
    assert(link * h.shentsize <= 0xFFFF_FFFF * 0xFFFF) by (nonlinear_arith)
        requires
            link <= 0xFFFF_FFFF,
            h.shentsize <= 0xFFFF,
    ;
    assert(link * h.shentsize >= 0) by (nonlinear_arith);
    let at = link as u64 * h.shentsize as u64;
    if h.shoff > u64::MAX - at {
        return Err(LoadError::ShdrOffsetOverflow);
    }
    let strh = h.shoff + at;
    let strings = if len >= 64 && strh <= len - 64 {
        Some((rd64(elf, strh + 24), rd64(elf, strh + 32)))
    } else {
        None
    };
    Ok(Some(SymTab { off, size, strings }))
}

fn find_symtab(elf: &[u8], h: Header) -> (r: Result<Option<SymTab>, LoadError>)
    ensures
        r == symtab_from(elf@, h, 0),
{
    let mut j: u16 = 0;
    while j < h.shnum
        invariant
            j <= h.shnum,
            symtab_from(elf@, h, 0) == symtab_from(elf@, h, j as int),
        decreases h.shnum - j,
    {
        match locate_sh(elf, h, j) {
            Err(e) => {
                return Err(e);
            },
            Ok(sh) => {
                if rd32(elf, sh + 4) == SHT_DYNSYM {
                    return read_symtab(elf, h, sh);
                }
            },
        }
        j += 1;
    }
    Ok(None)
}

/// The file position of symbol `idx`, where the table and the file hold it.
pub open spec fn sym_at(elf: Seq<u8>, t: SymTab, idx: int) -> Option<int> {
    let s = t.off + 24 * idx;
    if t.off + t.size <= u64::MAX && s + 24 <= t.off + t.size && s + 24 <= elf.len() {
        Some(s)
    } else {
        None
    }
}

/// The first zero byte in `from..to`, or `to`.
pub open spec fn nul_from(elf: Seq<u8>, from: int, to: int) -> int
    decreases to - from,
{
    if from >= to || elf[from] == 0 {
        from
    } else {
        nul_from(elf, from + 1, to)
    }
}

/// The extent in the file of the name of the symbol at `s`, at most 32 bytes
/// of it.
pub open spec fn name_of(elf: Seq<u8>, t: SymTab, s: int) -> Option<(u64, u64)> {
    match t.strings {
        None => None,
        Some((off, size)) => {
            let base = off + le32(elf, s);
            let limit = if off + size < elf.len() {
                off + size
            } else {
                elf.len() as int
            };
            if off + size > u64::MAX || base >= off + size || base >= elf.len() {
                None
            } else {
                let end = nul_from(elf, base, limit);
                if end >= limit {
                    None
                } else {
                    Some((base as u64, (if end < base + 32 {
                        end
                    } else {
                        base + 32
                    }) as u64))
                }
            }
        },
    }
}

/// The stated address of symbol `idx`.
pub open spec fn sym_value(elf: Seq<u8>, t: Option<SymTab>, idx: int) -> Result<u64, LoadError> {
    match t {
        None => Err(LoadError::NoDynsym),
        Some(t) => match sym_at(elf, t, idx) {
            None => Err(LoadError::SymOutOfRange),
            Some(s) => if le16(elf, s + 6) == 0 {
                Err(LoadError::UndefinedSymbol(name_of(elf, t, s)))
            } else {
                Ok(le64(elf, s + 8) as u64)
            },
        },
    }
}

fn read_name(elf: &[u8], t: SymTab, s: u64) -> (r: Option<(u64, u64)>)
    requires
        s + 24 <= elf@.len(),
    ensures
        r == name_of(elf@, t, s as int),
{
    let len = elf.len() as u64;
    match t.strings {
        None => None,
        Some((off, size)) => {
            if off > u64::MAX - size {
                return None;
            }
            let st_name = rd32(elf, s) as u64;
            if off > u64::MAX - st_name {
                return None;
            }
            let base = off + st_name;
            if base >= off + size || base >= len {
                return None;
            }
            let limit = if off + size < len {
                off + size
            } else {
                len
            };
            let mut end: u64 = base;
            while end < limit && elf[end as usize] != 0
                invariant
                    base <= end <= limit,
                    limit <= elf@.len(),
                    len == elf@.len(),
                    elf@.len() <= usize::MAX,
                    nul_from(elf@, base as int, limit as int) == nul_from(
                        elf@,
                        end as int,
                        limit as int,
                    ),
                decreases limit - end,
            {
                end += 1;
            }
            if end >= limit {
                return None;
            }
            let stop = if end - base < 32 {
                end
            } else {
                base + 32
            };
            Some((base, stop))
        },
    }
}

fn read_sym(elf: &[u8], t: Option<SymTab>, idx: u64) -> (r: Result<u64, LoadError>)
    requires
        idx <= 0xFFFF_FFFF,
    ensures
        r == sym_value(elf@, t, idx as int),
{
    let len = elf.len() as u64;
    match t {
        None => Err(LoadError::NoDynsym),
        Some(t) => {
            if t.off > u64::MAX - t.size || t.off > u64::MAX - 24 * idx {
                return Err(LoadError::SymOutOfRange);
            }
            let s = t.off + 24 * idx;
            if len < 24 || s > len - 24 || t.off + t.size < 24 || s > t.off + t.size - 24 {
                return Err(LoadError::SymOutOfRange);
            }
            if get_u16(elf, s as usize + 6) == 0 {
                return Err(LoadError::UndefinedSymbol(read_name(elf, t, s)));
            }
            Ok(rd64(elf, s + 8))
        },
    }
}

/// The value that a relocation of `kind` puts in its slot, `None` for a kind
/// that is passed over.
pub open spec fn reloc_value(elf: Seq<u8>, t: Option<SymTab>, base: u64, info: int, addend: int) -> Result<
    Option<u64>,
    LoadError,
> {
    let kind = info % 0x1_0000_0000;
    if kind == R_X86_64_RELATIVE {
        Ok(Some(((base + addend) % 0x1_0000_0000_0000_0000) as u64))
    } else if kind == R_X86_64_GLOB_DAT || kind == R_X86_64_JUMP_SLOT {
        match sym_value(elf, t, info / 0x1_0000_0000) {
            Err(e) => Err(e),
            Ok(v) => Ok(Some(((base + v + addend) % 0x1_0000_0000_0000_0000) as u64)),
        }
    } else {
        Ok(None)
    }
}

/// Some segment's pages hold the eight bytes at `target`.
pub open spec fn slot_loaded(segs: Seq<Segment>, target: int) -> bool {
    exists|k: int|
        0 <= k < segs.len() && (#[trigger] segs[k]).start <= target && target + 8 <= segs[k].end
}

/// The slot and value of the relocation entry at `off`.
pub open spec fn reloc_at(elf: Seq<u8>, t: Option<SymTab>, base: u64, segs: Seq<Segment>, off: int) -> Result<
    Option<(u64, u64)>,
    LoadError,
> {
    match reloc_value(elf, t, base, le64(elf, off + 8), le64(elf, off + 16)) {
        Err(e) => Err(e),
        Ok(None) => Ok(None),
        Ok(Some(v)) => {
            let target = base + le64(elf, off);
            if target > u64::MAX {
                Err(LoadError::TargetOverflow)
            } else if !slot_loaded(segs, target) {
                Err(LoadError::TargetOutside)
            } else {
                Ok(Some((target as u64, v)))
            }
        },
    }
}

fn wrap_sum(a: u64, b: u64) -> (r: u64)
    ensures
        r == (a + b) % 0x1_0000_0000_0000_0000,
{
    if a > u64::MAX - b {
        a - (u64::MAX - b) - 1
    } else {
        a + b
    }
}

fn slot_is_loaded(segs: &Vec<Segment>, target: u64) -> (r: bool)
    ensures
        r == slot_loaded(segs@, target as int),
{
    let mut k: usize = 0;
    while k < segs.len()
        invariant
            k <= segs@.len(),
            forall|j: int|
                0 <= j < k ==> !((#[trigger] segs@[j]).start <= target && target + 8
                    <= segs@[j].end),
        decreases segs@.len() - k,
    {
        let s = segs[k];
        if s.start <= target && s.end >= 8 && target <= s.end - 8 {
            assert(segs@[k as int].start <= target && target + 8 <= segs@[k as int].end);
            return true;
        }
        k += 1;
    }
    false
}

fn read_value(elf: &[u8], t: Option<SymTab>, base: u64, info: u64, addend: u64) -> (r: Result<
    Option<u64>,
    LoadError,
>)
    ensures
        r == reloc_value(elf@, t, base, info as int, addend as int),
{
    let kind = info % 0x1_0000_0000;
    if kind == R_X86_64_RELATIVE {
        Ok(Some(wrap_sum(base, addend)))
    } else if kind == R_X86_64_GLOB_DAT || kind == R_X86_64_JUMP_SLOT {
        match read_sym(elf, t, info / 0x1_0000_0000) {
            Err(e) => Err(e),
            Ok(v) => {
                let x = wrap_sum(base, v);
                let y = wrap_sum(x, addend);
                assert(y == (base + v + addend) % 0x1_0000_0000_0000_0000);
                Ok(Some(y))
            },
        }
    } else {
        Ok(None)
    }
}

fn read_reloc(elf: &[u8], t: Option<SymTab>, base: u64, segs: &Vec<Segment>, off: u64) -> (r: Result<
    Option<(u64, u64)>,
    LoadError,
>)
    requires
        off + 24 <= elf@.len(),
    ensures
        r == reloc_at(elf@, t, base, segs@, off as int),
{
    let _n = elf.len();
    let r_offset = rd64(elf, off);
    let info = rd64(elf, off + 8);
    let addend = rd64(elf, off + 16);
    match read_value(elf, t, base, info, addend) {
        Err(e) => Err(e),
        Ok(None) => Ok(None),
        Ok(Some(value)) => {
            if base > u64::MAX - r_offset {
                return Err(LoadError::TargetOverflow);
            }
            let target = base + r_offset;
            if !slot_is_loaded(segs, target) {
                return Err(LoadError::TargetOutside);
            }
            Ok(Some((target, value)))
        },
    }
}

/// The slots filled so far, and the fault that stopped the relocation.
pub struct Relocated {
    pub writes: Seq<(u64, u64)>,
    pub fault: Option<LoadError>,
}

/// One more entry.
pub open spec fn reloc_step(a: Relocated, e: Result<Option<(u64, u64)>, LoadError>) -> Relocated {
    if a.fault is Some {
        a
    } else {
        match e {
            Err(e) => Relocated { fault: Some(e), ..a },
            Ok(None) => a,
            Ok(Some(w)) => Relocated { writes: a.writes.push(w), ..a },
        }
    }
}

/// After `k` entries of the section that starts at `off`.
pub open spec fn entries(elf: Seq<u8>, t: Option<SymTab>, base: u64, segs: Seq<Segment>, off: int, k: int, a: Relocated) -> Relocated
    decreases k,
{
    if k <= 0 {
        a
    } else {
        reloc_step(
            entries(elf, t, base, segs, off, k - 1, a),
            reloc_at(elf, t, base, segs, off + 24 * (k - 1)),
        )
    }
}

/// After section `j`.
pub open spec fn section(elf: Seq<u8>, h: Header, t: Option<SymTab>, base: u64, segs: Seq<Segment>, j: int, a: Relocated) -> Relocated {
    let sh = sh_at(h, j);
    let off = le64(elf, sh + 24);
    let size = le64(elf, sh + 32);
    if a.fault is Some {
        a
    } else if sh_fault(elf, h, j) is Some {
        Relocated { fault: sh_fault(elf, h, j), ..a }
    } else if le32(elf, sh + 4) != SHT_RELA {
        a
    } else if off + size > elf.len() {
        Relocated { fault: Some(LoadError::RelaOutOfRange), ..a }
    } else {
        entries(elf, t, base, segs, off, size / 24, a)
    }
}

/// After the first `n` sections.
pub open spec fn sections(elf: Seq<u8>, h: Header, t: Option<SymTab>, base: u64, segs: Seq<Segment>, n: int) -> Relocated
    decreases n,
{
    if n <= 0 {
        Relocated { writes: Seq::empty(), fault: None }
    } else {
        section(elf, h, t, base, segs, n - 1, sections(elf, h, t, base, segs, n - 1))
    }
}

/// The relocation of an image: nothing without a section table.
pub open spec fn relocated(elf: Seq<u8>, h: Header, base: u64, segs: Seq<Segment>) -> Relocated {
    if h.shoff == 0 || h.shentsize < 64 {
        Relocated { writes: Seq::empty(), fault: None }
    } else {
        match symtab_from(elf, h, 0) {
            Err(e) => Relocated { writes: Seq::empty(), fault: Some(e) },
            Ok(t) => sections(elf, h, t, base, segs, h.shnum as int),
        }
    }
}

proof fn lemma_entries_fault(elf: Seq<u8>, t: Option<SymTab>, base: u64, segs: Seq<Segment>, off: int, k: int, n: int, a: Relocated)
    requires
        0 <= k <= n,
        entries(elf, t, base, segs, off, k, a).fault is Some,
    ensures
        entries(elf, t, base, segs, off, n, a) == entries(elf, t, base, segs, off, k, a),
    decreases n,
{
    if n > k {
        lemma_entries_fault(elf, t, base, segs, off, k, n - 1, a);
    }
}

proof fn lemma_sections_fault(elf: Seq<u8>, h: Header, t: Option<SymTab>, base: u64, segs: Seq<Segment>, k: int, n: int)
    requires
        0 <= k <= n,
        sections(elf, h, t, base, segs, k).fault is Some,
    ensures
        sections(elf, h, t, base, segs, n) == sections(elf, h, t, base, segs, k),
    decreases n,
{
    if n > k {
        lemma_sections_fault(elf, h, t, base, segs, k, n - 1);
    }
}

/// The entries of one section.
fn relocate_section(elf: &[u8], t: Option<SymTab>, base: u64, segs: &Vec<Segment>, off: u64, size: u64, writes: &mut Vec<(u64, u64)>) -> (r: Option<LoadError>)
    requires
        off + size <= elf@.len(),
    ensures
        entries(
            elf@,
            t,
            base,
            segs@,
            off as int,
            (size / 24) as int,
            Relocated { writes: old(writes)@, fault: None },
        ) == (Relocated { writes: final(writes)@, fault: r }),
{
    let _n = elf.len();
    let ghost a = Relocated { writes: writes@, fault: None };
    let count = size / 24;
    let mut k: u64 = 0;
    while k < count
        invariant
            k <= count,
            count == size / 24,
            a == (Relocated { writes: old(writes)@, fault: None }),
            off + size <= elf@.len() <= usize::MAX,
            entries(elf@, t, base, segs@, off as int, k as int, a) == (Relocated {
                writes: writes@,
                fault: None,
            }),
        decreases count - k,
    {
        match read_reloc(elf, t, base, segs, off + 24 * k) {
            Err(e) => {
                proof {
                    assert(entries(elf@, t, base, segs@, off as int, k + 1, a) == (Relocated {
                        writes: writes@,
                        fault: Some(e),
                    }));
                    lemma_entries_fault(
                        elf@,
                        t,
                        base,
                        segs@,
                        off as int,
                        k + 1,
                        count as int,
                        a,
                    );
                }
                return Some(e);
            },
            Ok(None) => {},
            Ok(Some(w)) => {
                writes.push(w);
            },
        }
        k += 1;
    }
    None
}

/// Resolve an image's data relocations: `RELATIVE` slots get the load base plus
/// the addend, `GLOB_DAT` and `JUMP_SLOT` slots the symbol's address too. Every
/// slot lies inside a loaded segment.
pub fn apply_relative_relocations(elf: &[u8], h: Header, base: u64, segs: &Vec<Segment>, writes: &mut Vec<(u64, u64)>) -> (r: Option<LoadError>)
    requires
        old(writes)@.len() == 0,
    ensures
        relocated(elf@, h, base, segs@) == (Relocated { writes: final(writes)@, fault: r }),
{
    assert(writes@ =~= Seq::empty());
    if h.shoff == 0 || h.shentsize < 64 {
        return None;
    }
    let t = match find_symtab(elf, h) {
        Err(e) => {
            return Some(e);
        },
        Ok(t) => t,
    };
    let mut j: u16 = 0;
    while j < h.shnum
        invariant
            j <= h.shnum,
            h.shoff != 0,
            h.shentsize >= 64,
            symtab_from(elf@, h, 0) == Ok::<Option<SymTab>, LoadError>(t),
            sections(elf@, h, t, base, segs@, j as int) == (Relocated {
                writes: writes@,
                fault: None,
            }),
        decreases h.shnum - j,
    {
        match locate_sh(elf, h, j) {
            Err(e) => {
                proof {
                    lemma_sections_fault(elf@, h, t, base, segs@, j + 1, h.shnum as int);
                }
                return Some(e);
            },
            Ok(sh) => {
                if rd32(elf, sh + 4) == SHT_RELA {
                    let len = elf.len() as u64;
                    let off = rd64(elf, sh + 24);
                    let size = rd64(elf, sh + 32);
                    if off > len || size > len - off {
                        proof {
                            lemma_sections_fault(elf@, h, t, base, segs@, j + 1, h.shnum as int);
                        }
                        return Some(LoadError::RelaOutOfRange);
                    }
                    let f = relocate_section(elf, t, base, segs, off, size, writes);
                    if f.is_some() {
                        proof {
                            lemma_sections_fault(elf@, h, t, base, segs@, j + 1, h.shnum as int);
                        }
                        return f;
                    }
                }
            },
        }
        j += 1;
    }
    None
}

// ---------------------------------------------------------------------------
// Loading
// ---------------------------------------------------------------------------

/// What is wrong with the header.
pub open spec fn header_fault(elf: Seq<u8>) -> Option<LoadError> {
    if elf.len() < 64 {
        Some(LoadError::Truncated)
    } else if !has_magic(elf) {
        Some(LoadError::BadMagic)
    } else if elf[4] != 2 {
        Some(LoadError::NotSixtyFourBit)
    } else if elf[5] != 1 {
        Some(LoadError::NotLittleEndian)
    } else if header(elf).e_type != ET_EXEC && header(elf).e_type != ET_DYN {
        Some(LoadError::BadType)
    } else if header(elf).phentsize < 56 {
        Some(LoadError::BadPhentsize)
    } else {
        None
    }
}

/// The distance from stated to mapped addresses, or why the image is refused
/// before anything is loaded.
pub open spec fn admitted(elf: Seq<u8>) -> Result<u64, LoadError> {
    match header_fault(elf) {
        Some(e) => Err(e),
        None => match load_base_of(elf, header(elf)) {
            Err(e) => Err(e),
            Ok(base) => if USER_TEXT_BASE <= base + header(elf).entry < USER_MAX_ADDR {
                Ok(base)
            } else {
                Err(LoadError::EntryOutOfRange)
            },
        },
    }
}

/// What loading the image does and answers.
pub open spec fn loads(elf: Seq<u8>, segs: Seq<Segment>, writes: Seq<(u64, u64)>, r: Result<
    ElfLoadInfo,
    LoadError,
>) -> bool {
    let h = header(elf);
    match admitted(elf) {
        Err(e) => segs.len() == 0 && writes.len() == 0 && r == Err::<ElfLoadInfo, LoadError>(e),
        Ok(base) => {
            let l = loaded(elf, h, base, h.phnum as int);
            &&& segs == l.segments
            &&& if l.fault is Some {
                writes.len() == 0 && r == Err::<ElfLoadInfo, LoadError>(l.fault->0)
            } else if segs.len() == 0 {
                writes.len() == 0 && r == Err::<ElfLoadInfo, LoadError>(LoadError::NoSegments)
            } else {
                let rel = if h.e_type == ET_DYN {
                    relocated(elf, h, base, segs)
                } else {
                    Relocated { writes: Seq::empty(), fault: None }
                };
                &&& writes == rel.writes
                &&& r == if rel.fault is Some {
                    Err(rel.fault->0)
                } else {
                    Ok(
                        ElfLoadInfo {
                            entry: (base + h.entry) as u64,
                            phnum: h.phnum as u64,
                            phdr_vaddr: phdrs_in(h, segs, 0),
                            at_base: if h.e_type == ET_DYN {
                                LNX_PIE_LOAD_BASE
                            } else {
                                0
                            },
                        },
                    )
                }
            }
        },
    }
}

fn check_header(elf: &[u8]) -> (r: Result<(Header, u64), LoadError>)
    ensures
        r matches Ok(hb) ==> hb.0 == header(elf@) && admitted(elf@) == Ok::<u64, LoadError>(hb.1),
        r matches Err(e) ==> admitted(elf@) == Err::<u64, LoadError>(e),
{
    if elf.len() < 64 {
        return Err(LoadError::Truncated);
    }
    if !check_magic(elf) {
        return Err(LoadError::BadMagic);
    }
    if elf[4] != 2 {
        return Err(LoadError::NotSixtyFourBit);
    }
    if elf[5] != 1 {
        return Err(LoadError::NotLittleEndian);
    }
    let h = read_header(elf);
    if h.e_type != ET_EXEC && h.e_type != ET_DYN {
        return Err(LoadError::BadType);
    }
    if h.phentsize < 56 {
        return Err(LoadError::BadPhentsize);
    }
    let base = match find_load_base(elf, h) {
        Err(e) => {
            return Err(e);
        },
        Ok(b) => b,
    };
    if base >= USER_MAX_ADDR || h.entry >= USER_MAX_ADDR - base || base + h.entry
        < USER_TEXT_BASE {
        return Err(LoadError::EntryOutOfRange);
    }
    Ok((h, base))
}

/// Plan the load of an image: validate it, place its segments and resolve its
/// relocations. A refusal names its reason; the plan holds what was loaded
/// before it.
pub fn load_elf(elf: &[u8], plan: &mut LoadPlan) -> (r: Result<ElfLoadInfo, LoadError>)
    requires
        old(plan).segments@.len() == 0,
        old(plan).writes@.len() == 0,
    ensures
        loads(elf@, final(plan).segments@, final(plan).writes@, r),
{
    let (h, base) = match check_header(elf) {
        Err(e) => {
            return Err(e);
        },
        Ok(hb) => hb,
    };
    let fault = load_segments(elf, h, base, &mut plan.segments);
    if let Some(e) = fault {
        return Err(e);
    }
    if plan.segments.len() == 0 {
        return Err(LoadError::NoSegments);
    }
    assert(plan.writes@ =~= Seq::empty());
    if h.e_type == ET_DYN {
        let fault = apply_relative_relocations(elf, h, base, &plan.segments, &mut plan.writes);
        if let Some(e) = fault {
            return Err(e);
        }
    }
    proof {
        assert forall|k: int| 0 <= k < plan.segments@.len() implies placed(
            #[trigger] plan.segments@[k],
        ) by {
            law_segments_are_placed(elf@, h, base, h.phnum as int, k);
        }
    }
    Ok(
        ElfLoadInfo {
            entry: base + h.entry,
            phnum: h.phnum as u64,
            phdr_vaddr: find_phdrs(h, &plan.segments),
            at_base: if h.e_type == ET_DYN {
                LNX_PIE_LOAD_BASE
            } else {
                0
            },
        },
    )
}

/// An empty plan.
pub fn new_plan() -> (p: LoadPlan)
    ensures
        p.segments@.len() == 0,
        p.writes@.len() == 0,
{
    LoadPlan { segments: Vec::new(), writes: Vec::new() }
}

/// Every slot that a relocation fills lies inside a loaded segment, so no
/// image can write outside its own pages.
pub proof fn law_relocations_stay_inside(elf: Seq<u8>, segs: Seq<Segment>, writes: Seq<(u64, u64)>, r: Result<
    ElfLoadInfo,
    LoadError,
>, k: int)
    requires
        loads(elf, segs, writes, r),
        0 <= k < writes.len(),
    ensures
        slot_loaded(segs, writes[k].0 as int),
{
    let h = header(elf);
    let base = admitted(elf)->Ok_0;
    if let Ok(t) = symtab_from(elf, h, 0) {
        lemma_sections_inside(elf, h, t, base, segs, h.shnum as int, k);
    }
}

proof fn lemma_entries_inside(elf: Seq<u8>, t: Option<SymTab>, base: u64, segs: Seq<Segment>, off: int, n: int, a: Relocated, k: int)
    requires
        0 <= k < entries(elf, t, base, segs, off, n, a).writes.len(),
        forall|j: int|
            0 <= j < a.writes.len() ==> slot_loaded(segs, (#[trigger] a.writes[j]).0 as int),
    ensures
        slot_loaded(segs, entries(elf, t, base, segs, off, n, a).writes[k].0 as int),
    decreases n,
{
    if n > 0 {
        let b = entries(elf, t, base, segs, off, n - 1, a);
        if k < b.writes.len() {
            lemma_entries_inside(elf, t, base, segs, off, n - 1, a, k);
        }
    } else {
        assert(slot_loaded(segs, a.writes[k].0 as int));
    }
}

proof fn lemma_sections_inside(elf: Seq<u8>, h: Header, t: Option<SymTab>, base: u64, segs: Seq<Segment>, n: int, k: int)
    requires
        0 <= k < sections(elf, h, t, base, segs, n).writes.len(),
    ensures
        slot_loaded(segs, sections(elf, h, t, base, segs, n).writes[k].0 as int),
    decreases n,
{
    if n > 0 {
        let a = sections(elf, h, t, base, segs, n - 1);
        assert forall|j: int| 0 <= j < a.writes.len() implies slot_loaded(
            segs,
            (#[trigger] a.writes[j]).0 as int,
        ) by {
            lemma_sections_inside(elf, h, t, base, segs, n - 1, j);
        }
        let sh = sh_at(h, n - 1);
        let off = le64(elf, sh + 24);
        let size = le64(elf, sh + 32);
        if a.fault is None && sh_fault(elf, h, n - 1) is None && le32(elf, sh + 4) == SHT_RELA
            && off + size <= elf.len() {
            lemma_entries_inside(elf, t, base, segs, off, size / 24, a, k);
        } else {
            assert(slot_loaded(segs, a.writes[k].0 as int));
        }
    }
}

/// The image's region holds every segment that is loaded from it, so images
/// with disjoint regions never share a page.
pub proof fn law_region_holds_segments(elf: Seq<u8>, segs: Seq<Segment>, writes: Seq<(u64, u64)>, r: Result<
    ElfLoadInfo,
    LoadError,
>, k: int)
    requires
        loads(elf, segs, writes, r),
        region_of(elf) is Some,
        0 <= k < segs.len(),
    ensures
        region_start(elf) <= segs[k].start,
        segs[k].end <= region_end(elf),
{
    let h = header(elf);
    let base = admitted(elf)->Ok_0;
    lemma_low_aligned(elf, h, h.phnum as int);
    assert(load_base_of(elf, h) == Ok::<u64, LoadError>(base));
    let low = lowest(elf, h, h.phnum as int);
    assert(h.e_type == ET_DYN ==> low != u64::MAX && base == LNX_PIE_LOAD_BASE - low);
    lemma_segment_in_region(elf, h, base, h.phnum as int, k);
}

proof fn lemma_low_aligned(elf: Seq<u8>, h: Header, n: int)
    ensures
        lowest(elf, h, n) == u64::MAX || lowest(elf, h, n) % 0x1000 == 0,
        0 <= lowest(elf, h, n),
    decreases n,
{
    if n > 0 {
        lemma_low_aligned(elf, h, n - 1);
    }
}

proof fn lemma_extremes(elf: Seq<u8>, h: Header, i: int, n: int)
    requires
        0 <= i < n,
        is_load(elf, h, i),
    ensures
        lowest(elf, h, n) <= page_floor(vaddr_of(elf, h, i)),
        highest(elf, h, n) >= page_ceil(vaddr_of(elf, h, i) + memsz_of(elf, h, i)),
    decreases n,
{
    if i < n - 1 {
        lemma_extremes(elf, h, i, n - 1);
    }
}

proof fn lemma_segment_in_region(elf: Seq<u8>, h: Header, base: u64, n: int, k: int)
    requires
        0 <= n <= h.phnum,
        0 <= k < loaded(elf, h, base, n).segments.len(),
        base % 0x1000 == 0,
    ensures
        base + lowest(elf, h, h.phnum as int) <= loaded(elf, h, base, n).segments[k].start,
        loaded(elf, h, base, n).segments[k].end <= base + highest(elf, h, h.phnum as int),
    decreases n,
{
    let l = loaded(elf, h, base, n - 1);
    if k < l.segments.len() {
        lemma_segment_in_region(elf, h, base, n - 1, k);
    } else {
        let i = n - 1;
        lemma_segment_at(elf, ph_at(h, i), base);
        lemma_extremes(elf, h, i, h.phnum as int);
        lemma_shifted_pages(base as int, vaddr_of(elf, h, i), memsz_of(elf, h, i));
    }
}

proof fn lemma_shifted_pages(base: int, va: int, size: int)
    requires
        base % 0x1000 == 0,
    ensures
        page_floor(base + va) == base + page_floor(va),
        page_ceil(base + va + size) == base + page_ceil(va + size),
{
}

} // verus!
