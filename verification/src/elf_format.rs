//! What an ELF64 image says, byte by byte, and what loading makes of it: which
//! program headers become segments and with what protection, and what each
//! relocation writes.
use vstd::prelude::*;

use crate::bytes::{le16, le32, le64};
use crate::elf::{
    admitted, entries, header, is_load, load_base_of, loaded, loads, lowest, page_ceil, page_floor,
    ph_at, reloc_at, section, sections, segment_at, sh_at, sym_value, symtab_from, ElfLoadInfo,
    Header, LoadError, Relocated, Segment, SymTab,
};

verus! {

/// The place of program header `i`.
pub open spec fn program_header(elf: Seq<u8>, i: int) -> int {
    le64(elf, 32) + i * le16(elf, 54)
}

/// The place of section header `j`.
pub open spec fn section_header(elf: Seq<u8>, j: int) -> int {
    le64(elf, 40) + j * le16(elf, 58)
}

/// The segment `s` is the one that the program header at `ph` asks for: its
/// bytes in the file and in memory, whole pages around them, writable exactly
/// where bit 1 of the flags is set and executable exactly where bit 0 is.
#[verifier::opaque]
pub open spec fn segment_stands(elf: Seq<u8>, ph: int, base: u64, s: Segment) -> bool {
    &&& s.offset == le64(elf, ph + 8)
    &&& s.map_va == base + le64(elf, ph + 16)
    &&& s.filesz == le64(elf, ph + 32)
    &&& s.memsz == le64(elf, ph + 40)
    &&& s.filesz <= s.memsz
    &&& s.offset + s.filesz <= elf.len()
    &&& s.start % 4096 == 0 && s.start <= s.map_va < s.start + 4096
    &&& s.end % 4096 == 0 && s.end - 4096 < s.map_va + s.memsz <= s.end
    &&& 0x40_0000 <= s.start < s.end <= 0x1000_0000
    &&& s.writable <==> elf[ph + 4] as int / 2 % 2 == 1
    &&& s.executable <==> elf[ph + 4] as int % 2 == 1
}

proof fn lemma_flags(elf: Seq<u8>, x: int)
    ensures
        le32(elf, x) % 2 == elf[x] as int % 2,
        le32(elf, x) / 2 % 2 == elf[x] as int / 2 % 2,
{
    let low = elf[x] as int;
    let rest = elf[x + 1] as int + 0x100 * elf[x + 2] + 0x1_0000 * elf[x + 3];
    let all = le32(elf, x);
    assert(all == low + 0x100 * rest);
    assert(all / 2 == low / 2 + 0x80 * rest);
}

proof fn lemma_pages(va: int, memsz: int)
    requires
        0 <= va,
        0 <= memsz,
    ensures
        page_floor(va) % 4096 == 0,
        page_floor(va) <= va < page_floor(va) + 4096,
        page_ceil(va + memsz) % 4096 == 0,
        page_ceil(va + memsz) - 4096 < va + memsz <= page_ceil(va + memsz),
{
}

proof fn lemma_segment(elf: Seq<u8>, ph: int, base: u64)
    requires
        segment_at(elf, ph, base) is Ok,
    ensures
        segment_stands(elf, ph, base, segment_at(elf, ph, base)->Ok_0),
{
    let s = segment_at(elf, ph, base)->Ok_0;
    lemma_flags(elf, ph + 4);
    lemma_taken(
        elf,
        ph,
        base,
        s,
        le64(elf, ph + 8),
        le64(elf, ph + 16),
        le64(elf, ph + 32),
        le64(elf, ph + 40),
        le32(elf, ph + 4),
    );
}

proof fn lemma_taken(elf: Seq<u8>, ph: int, base: u64, s: Segment, offset: int, vaddr: int, filesz: int, memsz: int, flags: int)
    requires
        segment_at(elf, ph, base) == Ok::<Segment, LoadError>(s),
        offset == le64(elf, ph + 8),
        vaddr == le64(elf, ph + 16),
        filesz == le64(elf, ph + 32),
        memsz == le64(elf, ph + 40),
        flags == le32(elf, ph + 4),
        0 <= offset,
        0 <= vaddr,
        0 <= filesz,
        0 <= memsz,
        flags % 2 == elf[ph + 4] as int % 2,
        flags / 2 % 2 == elf[ph + 4] as int / 2 % 2,
    ensures
        segment_stands(elf, ph, base, s),
{
    let va = base + vaddr;
    lemma_pages(va, memsz);
    reveal(segment_at);
    assert(offset + filesz <= elf.len() && offset + filesz <= u64::MAX && memsz >= filesz);
    assert(va + memsz + 0xFFF <= u64::MAX);
    assert(s.offset == offset && s.filesz == filesz && s.memsz == memsz && s.map_va == va);
    assert(s.start == page_floor(va) && s.end == page_ceil(va + memsz));
    assert(s.writable == (flags / 2 % 2 == 1) && s.executable == (flags % 2 == 1));
    reveal(segment_stands);
}

/// The places of the headers that become segments, in order.
spec fn picked(elf: Seq<u8>, h: Header, base: u64, segs: Seq<Segment>, at: Seq<int>, n: int) -> bool {
    &&& at.len() == segs.len()
    &&& forall|k: int|
        0 <= k < at.len() ==> 0 <= #[trigger] at[k] < n && is_load(elf, h, at[k])
            && segment_stands(elf, ph_at(h, at[k]), base, segs[k])
    &&& forall|a: int, b: int| 0 <= a < b < at.len() ==> #[trigger] at[a] < #[trigger] at[b]
    &&& forall|i: int| 0 <= i < n && #[trigger] is_load(elf, h, i) ==> at.contains(i)
}

proof fn lemma_loaded(elf: Seq<u8>, h: Header, base: u64, n: int)
    requires
        0 <= n,
        loaded(elf, h, base, n).fault is None,
    ensures
        exists|at: Seq<int>| #[trigger] picked(elf, h, base, loaded(elf, h, base, n).segments, at, n),
    decreases n,
{
    if n == 0 {
        assert(picked(elf, h, base, loaded(elf, h, base, n).segments, Seq::empty(), n));
    } else {
        let front = loaded(elf, h, base, n - 1);
        assert(front.fault is None);
        lemma_loaded(elf, h, base, n - 1);
        let w = choose|at: Seq<int>| #[trigger] picked(elf, h, base, front.segments, at, n - 1);
        let segs = loaded(elf, h, base, n).segments;
        if !is_load(elf, h, n - 1) {
            assert(picked(elf, h, base, segs, w, n));
        } else {
            lemma_segment(elf, ph_at(h, n - 1), base);
            let at = w.push(n - 1);
            assert forall|k: int| 0 <= k < at.len() implies 0 <= #[trigger] at[k] < n && is_load(
                elf,
                h,
                at[k],
            ) && segment_stands(elf, ph_at(h, at[k]), base, segs[k]) by {
                if k < w.len() {
                    assert(at[k] == w[k] && segs[k] == front.segments[k]);
                }
            }
            assert forall|i: int| 0 <= i < n && #[trigger] is_load(elf, h, i) implies at.contains(i) by {
                if i < n - 1 {
                    let k = choose|k: int| 0 <= k < w.len() && w[k] == i;
                    assert(at[k] == i);
                } else {
                    assert(at[w.len() as int] == i);
                }
            }
            assert(picked(elf, h, base, segs, at, n));
        }
    }
}

/// What is added to the addresses of the image: nothing for a program at fixed
/// addresses, type 2; for one that can lie anywhere, type 3, what takes its
/// lowest page to 32 MiB.
pub open spec fn load_bias(elf: Seq<u8>) -> u64 {
    admitted(elf)->Ok_0
}

/// An image that loads is a little-endian ELF64 one of type 2 or 3. Its segments
/// are the program headers of type 1, in order, each with the bytes, the pages
/// and the protection its header asks for; and it is entered at its entry point,
/// which lies with it between 4 and 256 MiB.
pub proof fn law_loaded_image(elf: Seq<u8>, segs: Seq<Segment>, writes: Seq<(u64, u64)>, info: ElfLoadInfo)
    requires
        loads(elf, segs, writes, Ok(info)),
    ensures
        elf.len() >= 64,
        elf[0] == 0x7F && elf[1] == 'E' as u8 && elf[2] == 'L' as u8 && elf[3] == 'F' as u8,
        elf[4] == 2 && elf[5] == 1,
        le16(elf, 16) == 2 || le16(elf, 16) == 3,
        segs.len() > 0,
        le16(elf, 16) == 2 ==> load_bias(elf) == 0 && info.at_base == 0 && writes.len() == 0,
        le16(elf, 16) == 3 ==> info.at_base == 0x200_0000,
        info.entry == load_bias(elf) + le64(elf, 24),
        0x40_0000 <= info.entry < 0x1000_0000,
        info.phnum == le16(elf, 56),
        exists|at: Seq<int>|
            {
                &&& #[trigger] at.len() == segs.len()
                &&& forall|k: int|
                    0 <= k < at.len() ==> 0 <= #[trigger] at[k] < le16(elf, 56) && le32(
                        elf,
                        program_header(elf, at[k]),
                    ) == 1 && segment_stands(
                        elf,
                        program_header(elf, at[k]),
                        load_bias(elf),
                        segs[k],
                    )
                &&& forall|a: int, b: int|
                    0 <= a < b < at.len() ==> #[trigger] at[a] < #[trigger] at[b]
                &&& forall|i: int|
                    0 <= i < le16(elf, 56) && le32(elf, #[trigger] program_header(elf, i)) == 1
                        ==> at.contains(i)
            },
{
    let h = header(elf);
    let base = load_bias(elf);
    lemma_loaded(elf, h, base, h.phnum as int);
    let at = choose|at: Seq<int>| #[trigger] picked(elf, h, base, segs, at, h.phnum as int);
    assert(at.len() == segs.len());
    assert forall|i: int| #[trigger] program_header(elf, i) == ph_at(h, i) by {}
    assert forall|k: int| 0 <= k < at.len() implies 0 <= #[trigger] at[k] < le16(elf, 56) && le32(
        elf,
        program_header(elf, at[k]),
    ) == 1 && segment_stands(elf, program_header(elf, at[k]), base, segs[k]) by {
        assert(is_load(elf, h, at[k]));
        assert(program_header(elf, at[k]) == ph_at(h, at[k]));
    }
    assert forall|i: int|
        0 <= i < le16(elf, 56) && le32(elf, #[trigger] program_header(elf, i)) == 1 implies at.contains(
        i,
    ) by {
        assert(is_load(elf, h, i));
    }
}

proof fn lemma_lowest(elf: Seq<u8>, h: Header, n: int)
    requires
        0 <= n,
    ensures
        forall|i: int|
            0 <= i < n && #[trigger] is_load(elf, h, i) ==> lowest(elf, h, n) <= page_floor(
                le64(elf, ph_at(h, i) + 16),
            ),
        lowest(elf, h, n) == u64::MAX || exists|i: int|
            0 <= i < n && #[trigger] is_load(elf, h, i) && lowest(elf, h, n) == page_floor(
                le64(elf, ph_at(h, i) + 16),
            ),
    decreases n,
{
    if n > 0 {
        lemma_lowest(elf, h, n - 1);
        assert(le64(elf, ph_at(h, n - 1) + 16) <= u64::MAX);
        if is_load(elf, h, n - 1) && page_floor(le64(elf, ph_at(h, n - 1) + 16)) < lowest(elf, h, n - 1) {
            assert(lowest(elf, h, n) == page_floor(le64(elf, ph_at(h, n - 1) + 16)));
        } else if lowest(elf, h, n - 1) != u64::MAX {
            let i = choose|i: int|
                0 <= i < n - 1 && #[trigger] is_load(elf, h, i) && lowest(elf, h, n - 1)
                    == page_floor(le64(elf, ph_at(h, i) + 16));
            assert(is_load(elf, h, i));
        }
    }
}

proof fn lemma_start(elf: Seq<u8>, ph: int, base: u64, s: Segment, low: int)
    requires
        segment_stands(elf, ph, base, s),
        low % 4096 == 0,
        base == 0x200_0000 - low,
        low <= page_floor(le64(elf, ph + 16)),
    ensures
        s.start == 0x200_0000 - low + page_floor(le64(elf, ph + 16)),
{
    let x = le64(elf, ph + 16);
    assert(s.map_va == base + x && s.start % 4096 == 0 && s.start <= s.map_va < s.start + 4096) by {
        reveal(segment_stands);
    }
    lemma_same_page(x, low, s.start as int);
}

proof fn lemma_same_page(x: int, low: int, start: int)
    requires
        0 <= x,
        low % 4096 == 0,
        start % 4096 == 0,
        start <= 0x200_0000 - low + x < start + 4096,
    ensures
        start == 0x200_0000 - low + page_floor(x),
{
}

/// A program of type 3 is moved as a whole so that its lowest page comes to lie
/// at 32 MiB: no segment lies below it, and one starts there.
#[verifier::spinoff_prover]
#[verifier::rlimit(80)]
pub proof fn law_moved_image(elf: Seq<u8>, segs: Seq<Segment>, writes: Seq<(u64, u64)>, info: ElfLoadInfo)
    requires
        loads(elf, segs, writes, Ok(info)),
        le16(elf, 16) == 3,
    ensures
        forall|k: int| 0 <= k < segs.len() ==> 0x200_0000 <= (#[trigger] segs[k]).start,
        exists|k: int| 0 <= k < segs.len() && (#[trigger] segs[k]).start == 0x200_0000,
{
    let h = header(elf);
    let base = load_bias(elf);
    let n = h.phnum as int;
    let low = lowest(elf, h, n);
    lemma_lowest(elf, h, n);
    lemma_loaded(elf, h, base, n);
    let at = choose|at: Seq<int>| #[trigger] picked(elf, h, base, segs, at, n);
    assert(load_base_of(elf, h) == Ok::<u64, LoadError>(base));
    assert(base == 0x200_0000 - low);
    assert(low % 4096 == 0) by {
        let i = choose|i: int|
            0 <= i < n && #[trigger] is_load(elf, h, i) && low == page_floor(le64(elf, ph_at(h, i) + 16));
        assert(low == page_floor(le64(elf, ph_at(h, i) + 16)));
    }
    assert forall|k: int| 0 <= k < segs.len() implies 0x200_0000 <= (#[trigger] segs[k]).start by {
        assert(is_load(elf, h, at[k]));
        lemma_start(elf, ph_at(h, at[k]), base, segs[k], low);
    }
    let i = choose|i: int|
        0 <= i < n && #[trigger] is_load(elf, h, i) && low == page_floor(le64(elf, ph_at(h, i) + 16));
    assert(at.contains(i));
    let k = choose|k: int| 0 <= k < at.len() && at[k] == i;
    lemma_start(elf, ph_at(h, at[k]), base, segs[k], low);
    assert(segs[k].start == 0x200_0000);
}

// ---------------------------------------------------------------------------
// Relocations
// ---------------------------------------------------------------------------

/// A relocation entry is 24 bytes: the place, the kind with the symbol above it,
/// and the addend. Kind 8 writes the addend, moved with the image; kinds 6 and 7
/// write the value of their symbol and the addend, moved likewise; the others
/// write nothing. What is written goes to the entry's place, moved likewise,
/// inside a segment.
pub proof fn law_relocation(elf: Seq<u8>, t: Option<SymTab>, base: u64, segs: Seq<Segment>, off: int)
    requires
        reloc_at(elf, t, base, segs, off) is Ok,
    ensures
        ({
            let kind = le32(elf, off + 8);
            let sym = le32(elf, off + 12);
            let addend = le64(elf, off + 16);
            match reloc_at(elf, t, base, segs, off)->Ok_0 {
                None => kind != 6 && kind != 7 && kind != 8,
                Some((to, v)) => {
                    &&& to == base + le64(elf, off)
                    &&& exists|k: int|
                        0 <= k < segs.len() && (#[trigger] segs[k]).start <= to && to + 8
                            <= segs[k].end
                    &&& kind == 8 ==> v == (base + addend) % 0x1_0000_0000_0000_0000
                    &&& kind != 8 ==> {
                        &&& kind == 6 || kind == 7
                        &&& sym_value(elf, t, sym) is Ok
                        &&& v == (base + sym_value(elf, t, sym)->Ok_0 + addend)
                            % 0x1_0000_0000_0000_0000
                    }
                },
            }
        }),
{
    let info = le64(elf, off + 8);
    let lo = le32(elf, off + 8);
    let hi = le32(elf, off + 12);
    assert(0 <= lo < 0x1_0000_0000 && 0 <= hi);
    assert(info == lo + 0x1_0000_0000 * hi);
    assert(info % 0x1_0000_0000 == lo);
    assert(info / 0x1_0000_0000 == hi);
}

/// A symbol is 24 bytes of the table: it has a value, at its byte 8, only where
/// the section number at its byte 6 is not 0.
pub proof fn law_symbol_value(elf: Seq<u8>, t: SymTab, idx: int)
    requires
        0 <= idx,
    ensures
        sym_value(elf, Some(t), idx) matches Ok(v) ==> {
            let s = t.off + 24 * idx;
            &&& s + 24 <= t.off + t.size
            &&& s + 24 <= elf.len()
            &&& le16(elf, s + 6) != 0
            &&& v == le64(elf, s + 8)
        },
        t.off + 24 * idx + 24 <= t.off + t.size <= u64::MAX && t.off + 24 * idx + 24 <= elf.len()
            && le16(elf, t.off + 24 * idx + 6) != 0 ==> sym_value(elf, Some(t), idx) is Ok,
{
}

/// Section `j` lists relocations: its type is 4.
pub open spec fn lists_relocations(elf: Seq<u8>, j: int) -> bool {
    le32(elf, section_header(elf, j) + 4) == 4
}

/// Entry `k` of the relocations that section `j` lists.
pub open spec fn listed_entry(elf: Seq<u8>, j: int, k: int) -> int {
    le64(elf, section_header(elf, j) + 24) + 24 * k
}

/// How many relocations section `j` lists.
pub open spec fn listed_count(elf: Seq<u8>, j: int) -> int {
    le64(elf, section_header(elf, j) + 32) / 24
}

proof fn lemma_entries(elf: Seq<u8>, t: Option<SymTab>, base: u64, segs: Seq<Segment>, off: int, n: int, a: Relocated)
    requires
        0 <= n,
        entries(elf, t, base, segs, off, n, a).fault is None,
    ensures
        a.fault is None,
        ({
            let r = entries(elf, t, base, segs, off, n, a);
            &&& r.writes.len() >= a.writes.len()
            &&& forall|i: int| 0 <= i < a.writes.len() ==> #[trigger] r.writes[i] == a.writes[i]
            &&& forall|k: int|
                0 <= k < n ==> (#[trigger] reloc_at(elf, t, base, segs, off + 24 * k)) is Ok && (
                reloc_at(elf, t, base, segs, off + 24 * k)->Ok_0 matches Some(w) ==> r.writes.contains(
                    w,
                ))
        }),
    decreases n,
{
    if n > 0 {
        let front = entries(elf, t, base, segs, off, n - 1, a);
        let r = entries(elf, t, base, segs, off, n, a);
        assert(front.fault is None);
        lemma_entries(elf, t, base, segs, off, n - 1, a);
        assert forall|i: int| 0 <= i < a.writes.len() implies #[trigger] r.writes[i] == a.writes[i] by {
            assert(front.writes[i] == a.writes[i]);
        }
        assert forall|k: int| 0 <= k < n implies (#[trigger] reloc_at(
            elf,
            t,
            base,
            segs,
            off + 24 * k,
        )) is Ok && (reloc_at(elf, t, base, segs, off + 24 * k)->Ok_0 matches Some(w)
            ==> r.writes.contains(w)) by {
            if let Some(w) = reloc_at(elf, t, base, segs, off + 24 * k)->Ok_0 {
                if k < n - 1 {
                    assert(front.writes.contains(w));
                    let i = choose|i: int| 0 <= i < front.writes.len() && front.writes[i] == w;
                    assert(r.writes[i] == w);
                } else {
                    assert(r.writes[r.writes.len() - 1] == w);
                }
            }
        }
    }
}

proof fn lemma_sections(elf: Seq<u8>, t: Option<SymTab>, base: u64, segs: Seq<Segment>, n: int)
    requires
        0 <= n,
        sections(elf, header(elf), t, base, segs, n).fault is None,
    ensures
        ({
            let r = sections(elf, header(elf), t, base, segs, n);
            forall|j: int, k: int|
                0 <= j < n && lists_relocations(elf, j) && 0 <= k < listed_count(elf, j) ==> {
                    let e = reloc_at(elf, t, base, segs, #[trigger] listed_entry(elf, j, k));
                    e is Ok && (e->Ok_0 matches Some(w) ==> r.writes.contains(w))
                }
        }),
    decreases n,
{
    let h = header(elf);
    if n > 0 {
        let front = sections(elf, h, t, base, segs, n - 1);
        let r = sections(elf, h, t, base, segs, n);
        let sh = sh_at(h, n - 1);
        assert(front.fault is None);
        lemma_sections(elf, t, base, segs, n - 1);
        assert(sh == section_header(elf, n - 1));
        if lists_relocations(elf, n - 1) {
            lemma_entries(
                elf,
                t,
                base,
                segs,
                le64(elf, sh + 24),
                le64(elf, sh + 32) / 24,
                front,
            );
        }
        assert forall|j: int, k: int|
            0 <= j < n && lists_relocations(elf, j) && 0 <= k < listed_count(elf, j) implies {
            let e = reloc_at(elf, t, base, segs, #[trigger] listed_entry(elf, j, k));
            e is Ok && (e->Ok_0 matches Some(w) ==> r.writes.contains(w))
        } by {
            if j < n - 1 {
                if let Some(w) = reloc_at(elf, t, base, segs, listed_entry(elf, j, k))->Ok_0 {
                    let i = choose|i: int| 0 <= i < front.writes.len() && front.writes[i] == w;
                    assert(r.writes[i] == w);
                }
            } else {
                assert(reloc_at(elf, t, base, segs, le64(elf, sh + 24) + 24 * k) is Ok);
            }
        }
    }
}

/// Every relocation of a moved image that loads is done: whatever an entry of a
/// section of relocations asks to be written is among the writes.
pub proof fn law_relocations_are_done(elf: Seq<u8>, segs: Seq<Segment>, writes: Seq<(u64, u64)>, info: ElfLoadInfo, j: int, k: int)
    requires
        loads(elf, segs, writes, Ok(info)),
        le16(elf, 16) == 3,
        le64(elf, 40) != 0,
        le16(elf, 58) >= 64,
        0 <= j < le16(elf, 60),
        lists_relocations(elf, j),
        0 <= k < listed_count(elf, j),
    ensures
        ({
            let t = symtab_from(elf, header(elf), 0)->Ok_0;
            let e = reloc_at(elf, t, load_bias(elf), segs, listed_entry(elf, j, k));
            &&& symtab_from(elf, header(elf), 0) is Ok
            &&& e is Ok
            &&& e->Ok_0 matches Some(w) ==> writes.contains(w)
        }),
{
    let h = header(elf);
    let t = symtab_from(elf, h, 0)->Ok_0;
    lemma_sections(elf, t, load_bias(elf), segs, h.shnum as int);
    assert(listed_entry(elf, j, k) == listed_entry(elf, j, k));
}

/// The table of symbols is the first section of type 11, where there is one: its
/// place and length stand in the section's header.
pub proof fn law_symbol_table(elf: Seq<u8>, h: Header, j: int)
    requires
        h == header(elf),
        0 <= j,
        symtab_from(elf, h, j) is Ok,
    ensures
        match symtab_from(elf, h, j)->Ok_0 {
            None => forall|i: int|
                j <= i < h.shnum ==> le32(elf, #[trigger] section_header(elf, i) + 4) != 11,
            Some(t) => exists|i: int|
                {
                    &&& j <= i < h.shnum
                    &&& le32(elf, #[trigger] section_header(elf, i) + 4) == 11
                    &&& t.off == le64(elf, section_header(elf, i) + 24)
                    &&& t.size == le64(elf, section_header(elf, i) + 32)
                    &&& forall|x: int|
                        j <= x < i ==> le32(elf, #[trigger] section_header(elf, x) + 4) != 11
                },
        },
    decreases h.shnum - j,
{
    if j < h.shnum {
        assert(sh_at(h, j) == section_header(elf, j));
        if le32(elf, sh_at(h, j) + 4) != 11 {
            law_symbol_table(elf, h, j + 1);
        }
    }
}

} // verus!
