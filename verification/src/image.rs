//! The boot image: where an appended file system goes and the partition entry
//! that announces it.
use vstd::prelude::*;

use crate::block::{mbr_type_text, mbr_used, mbr_view};
use crate::bytes::{law_le32_roundtrip, le32_bytes, put_bytes, put_u32, splice};

verus! {

/// Type byte of a FAT32 partition.
pub const KIND_FAT32: u8 = 0x0C;

/// Type byte of a Linux partition.
pub const KIND_LINUX: u8 = 0x83;

/// Where an appended partition lies in the image.
#[derive(Clone, Copy, Debug, PartialEq, Eq, Structural)]
pub struct Placement {
    /// Byte offset of its first sector.
    pub offset: u64,
    pub start_sector: u32,
    pub sectors: u32,
    /// Length of the image with it.
    pub new_len: u64,
}

/// Places a file system of `size` bytes behind an image of `len` bytes, from
/// the next sector boundary on.
pub fn place(len: u64, size: u64) -> (p: Placement)
    requires
        len + size + 1022 <= 0x200_0000_0000 - 512,
    ensures
        p.offset % 512 == 0,
        len <= p.offset < len + 512,
        p.start_sector * 512 == p.offset,
        p.sectors == (size + 511) / 512,
        p.new_len == p.offset + size,
{
    let offset: u64 = (len + 511) / 512 * 512;
    Placement {
        offset,
        start_sector: (offset / 512) as u32,
        sectors: ((size + 511) / 512) as u32,
        new_len: offset + size,
    }
}

/// The sixteen bytes of a partition entry.
pub open spec fn entry_bytes(kind: u8, start: u32, sectors: u32) -> Seq<u8> {
    seq![0u8, 0, 0, 0, kind, 0, 0, 0] + le32_bytes(start as int) + le32_bytes(sectors as int)
}

/// A sector 0 with partition entry `i` set.
pub open spec fn with_entry(mbr: Seq<u8>, i: int, kind: u8, start: u32, sectors: u32) -> Seq<u8> {
    splice(mbr, 446 + 16 * i, entry_bytes(kind, start, sectors))
}

/// Writes partition entry `i` into sector 0.
pub fn put_entry(mbr: &mut [u8], i: usize, kind: u8, start: u32, sectors: u32)
    requires
        old(mbr)@.len() == 512,
        i < 4,
    ensures
        final(mbr)@ == with_entry(old(mbr)@, i as int, kind, start, sectors),
{
    let ghost before = mbr@;
    let at: usize = 446 + 16 * i;
    let head: [u8; 8] = [0, 0, 0, 0, kind, 0, 0, 0];
    put_bytes(mbr, at, &head);
    put_u32(mbr, at + 8, start);
    put_u32(mbr, at + 12, sectors);
    assert(mbr@ =~= with_entry(before, i as int, kind, start, sectors));
}

/// The partition that was announced is the one that a scan finds, and the
/// other entries are as they were.
pub proof fn law_entry_is_found(mbr: Seq<u8>, i: int, kind: u8, start: u32, sectors: u32, j: int)
    requires
        mbr.len() == 512,
        0 <= i < 4,
        0 <= j < 4,
    ensures
        ({
            let m = with_entry(mbr, i, kind, start, sectors);
            if j == i {
                &&& mbr_used(m, j) == (kind != 0 && kind != 0xEE)
                &&& mbr_view(m, j).start_lba == start
                &&& mbr_view(m, j).sectors == sectors
                &&& mbr_view(m, j).kind == mbr_type_text(kind)
            } else {
                &&& mbr_used(m, j) == mbr_used(mbr, j)
                &&& mbr_view(m, j) == mbr_view(mbr, j)
            }
        }),
{
    let e = entry_bytes(kind, start, sectors);
    let m = with_entry(mbr, i, kind, start, sectors);
    if j == i {
        let o = 446 + 16 * i;
        law_le32_roundtrip(mbr, o + 8, start);
        law_le32_roundtrip(mbr, o + 12, sectors);
        let a = splice(mbr, o + 8, le32_bytes(start as int));
        let b = splice(mbr, o + 12, le32_bytes(sectors as int));
        assert(m[o + 8] == a[o + 8] && m[o + 9] == a[o + 9] && m[o + 10] == a[o + 10] && m[o + 11] == a[o + 11]);
        assert(m[o + 12] == b[o + 12] && m[o + 13] == b[o + 13] && m[o + 14] == b[o + 14] && m[o + 15] == b[o + 15]);
        assert(m[o + 4] == kind);
    } else {
        let o = 446 + 16 * j;
        assert(forall|k: int| o <= k < o + 16 ==> #[trigger] m[k] == mbr[k]);
    }
}

} // verus!
