//! The ext2 file system: revision 1, 1 KiB blocks, one block group.
//!
//! Files map their blocks directly and through single and double indirect
//! tables; blocks and inodes come from bitmaps whose free counts are kept in
//! the superblock and the group descriptor. Triple indirect blocks and volumes
//! of several groups are refused.
//!
//! Every operation works on the sectors at hand and answers
//! `Io(Pending(lba))` when it needs another one: fetch it and ask again with
//! the volume as it was.
use vstd::prelude::*;

use crate::ata::{AtaDrive, AtaError, LBA28_MAX};
use crate::block::Partition;
use crate::bytes::{copy_range, get_u16, get_u32, le16, le16_bytes, le32, le32_bytes, put_bytes,
    put_u16, put_u32, same_bytes, splice, zeros};
use crate::text::{dec, push_dec};
use crate::vfs::{disk, fails_as, fetch, fetched, is_dots, is_pending, lemma_traced_grew, lemma_traced_on,
    lemma_traced_same, lines_view,
    listing_view, names, only_grew, path_parts, reads, split_path, store, stored, text_of, traced, waits, DirEntry,
    Disk, FileStat, FsError, Line};

verus! {

broadcast use {lemma_traced_on, lemma_traced_same};

/// The superblock's magic number.
pub const SUPER_MAGIC: u16 = 0xEF53;

/// The root directory's inode.
pub const ROOT_INO: u32 = 2;

/// Mode of a directory.
pub const MODE_DIR: u16 = 0x4000;

/// Mode of a plain file.
pub const MODE_REG: u16 = 0x8000;

/// A mounted volume.
#[derive(Clone, Copy, PartialEq, Eq, Debug, Structural)]
pub struct Ext2 {
    pub part_start: u32,
    pub blocks_count: u32,
    pub inodes_count: u32,
    pub blocks_per_group: u32,
    pub inodes_per_group: u32,
    pub block_bitmap: u32,
    pub inode_bitmap: u32,
    pub inode_table: u32,
    /// Free blocks, kept in step with the disk.
    pub free_blocks: u32,
    /// Free inodes, kept in step with the disk.
    pub free_inodes: u32,
}

/// The fields of an inode.
#[derive(Clone, Copy, PartialEq, Eq, Debug)]
pub struct Inode {
    pub ino: u32,
    pub mode: u16,
    pub size: u32,
    /// 512-byte sectors that the file occupies, its tables included.
    pub sectors: u32,
    pub blocks: [u32; 15],
}

/// An inode in mathematical terms.
#[verifier::ext_equal]
pub struct InodeView {
    pub ino: u32,
    pub mode: u16,
    pub size: u32,
    pub sectors: u32,
    pub blocks: Seq<u32>,
}

impl Inode {
    pub open spec fn view(&self) -> InodeView {
        InodeView {
            ino: self.ino,
            mode: self.mode,
            size: self.size,
            sectors: self.sectors,
            blocks: self.blocks@,
        }
    }
}

impl InodeView {
    /// The inode is a directory.
    pub open spec fn is_dir(self) -> bool {
        self.mode / 0x1000 == 4
    }
}

/// A volume: what is known of it and its disk.
#[verifier::ext_equal]
pub struct Vol {
    pub fs: Ext2,
    pub disk: Disk,
}

/// The volume after an operation, and what the operation answered.
pub struct Res<T> {
    pub vol: Vol,
    pub r: Result<T, FsError>,
}

/// The volume that `fs` and `dev` are.
pub open spec fn vol(fs: Ext2, dev: AtaDrive) -> Vol {
    Vol { fs, disk: disk(dev) }
}

/// The operation did what `want` says, and its log tells what it changed.
pub open spec fn acts<T>(before: Vol, after: Vol, r: Result<T, FsError>, want: Res<T>) -> bool {
    after == want.vol && r == want.r && waits(before.disk, r) && traced(before.disk, after.disk)
}

/// The answer `Err`, with the volume as it is.
pub open spec fn fails<T>(v: Vol, e: FsError) -> Res<T> {
    Res { vol: v, r: Err(e) }
}

// ---------------------------------------------------------------------------
// Blocks
// ---------------------------------------------------------------------------

/// The bytes of block `b` of the partition at `start`.
pub open spec fn part_block(start: u32, d: Disk, b: int) -> Result<Seq<u8>, FsError> {
    fetched(d, start + 2 * b, 2)
}

/// The bytes of a block.
pub open spec fn block(v: Vol, b: int) -> Result<Seq<u8>, FsError> {
    part_block(v.fs.part_start, v.disk, b)
}

/// The volume with a block replaced.
pub open spec fn with_block(v: Vol, b: int, data: Seq<u8>) -> Res<()> {
    let o = stored(v.disk, v.fs.part_start + 2 * b, 2, data);
    Res { vol: Vol { fs: v.fs, disk: o.disk }, r: o.r }
}

/// The bytes as a sequence.
pub open spec fn bytes_view(r: Result<Vec<u8>, FsError>) -> Result<Seq<u8>, FsError> {
    match r {
        Ok(v) => Ok(v@),
        Err(e) => Err(e),
    }
}

fn read_part_block(dev: &AtaDrive, start: u32, b: u64) -> (r: Result<Vec<u8>, FsError>)
    requires
        dev.wf(),
        b <= 0x2_0000_0000,
    ensures
        reads(disk(*dev), bytes_view(r), part_block(start, disk(*dev), b as int)),
        r matches Ok(v) ==> v@.len() == 1024,
{
    fetch(dev, start as u64 + 2 * b, 2)
}

impl Ext2 {
    fn read_block(&self, dev: &AtaDrive, b: u64) -> (r: Result<Vec<u8>, FsError>)
        requires
            dev.wf(),
            b <= 0x2_0000_0000,
        ensures
            reads(disk(*dev), bytes_view(r), block(vol(*self, *dev), b as int)),
            r matches Ok(v) ==> v@.len() == 1024,
    {
        read_part_block(dev, self.part_start, b)
    }

    fn write_block(&self, dev: &mut AtaDrive, b: u64, data: &Vec<u8>) -> (r: Result<(), FsError>)
        requires
            old(dev).wf(),
            b <= 0x2_0000_0000,
            data@.len() == 1024,
        ensures
            final(dev).wf(),
            vol(*self, *final(dev)) == with_block(vol(*self, *old(dev)), b as int, data@).vol,
            r == with_block(vol(*self, *old(dev)), b as int, data@).r,
            !is_pending(r),
            only_grew(disk(*old(dev)), disk(*final(dev))),
            traced(disk(*old(dev)), disk(*final(dev))),
    {
        store(dev, self.part_start as u64 + 2 * b, 2, data)
    }
}

// ---------------------------------------------------------------------------
// Mounting
// ---------------------------------------------------------------------------

/// The volume that the superblock and the group descriptor describe.
pub open spec fn parsed(start: u32, sb: Seq<u8>, gd: Seq<u8>) -> Result<Ext2, FsError> {
    let bb = le32(gd, 0);
    let ib = le32(gd, 4);
    let it = le32(gd, 8);
    let blocks = le32(sb, 4);
    if bb == 0 || ib == 0 || it == 0 || bb >= blocks || ib >= blocks || it >= blocks {
        Err(FsError::BadFs)
    } else {
        Ok(
            Ext2 {
                part_start: start,
                blocks_count: blocks as u32,
                inodes_count: le32(sb, 0) as u32,
                blocks_per_group: le32(sb, 32) as u32,
                inodes_per_group: le32(sb, 40) as u32,
                block_bitmap: bb as u32,
                inode_bitmap: ib as u32,
                inode_table: it as u32,
                free_blocks: le32(sb, 12) as u32,
                free_inodes: le32(sb, 16) as u32,
            },
        )
    }
}

/// What is wrong with a superblock.
pub open spec fn super_fault(sb: Seq<u8>) -> Option<FsError> {
    let blocks = le32(sb, 4);
    let per = le32(sb, 32);
    if le16(sb, 56) != SUPER_MAGIC {
        Some(FsError::BadFs)
    } else if le32(sb, 24) != 0 {
        Some(FsError::NotSupported)
    } else if le32(sb, 20) != 1 {
        Some(FsError::BadFs)
    } else if le32(sb, 76) != 0 && le16(sb, 88) != 128 {
        Some(FsError::NotSupported)
    } else if blocks == 0 || le32(sb, 0) == 0 || per == 0 || le32(sb, 40) == 0 || per > 8192 {
        Some(FsError::BadFs)
    } else if !(1 <= blocks - 1 <= per) {
        Some(FsError::NotSupported)
    } else {
        None
    }
}

/// What mounting the partition at `start` answers.
pub open spec fn mounted(d: Disk, start: u32) -> Result<Ext2, FsError> {
    match part_block(start, d, 1) {
        Err(e) => Err(e),
        Ok(sb) => match super_fault(sb) {
            Some(e) => Err(e),
            None => match part_block(start, d, 2) {
                Err(e) => Err(e),
                Ok(gd) => parsed(start, sb, gd),
            },
        },
    }
}

impl Ext2 {
    /// Read and check the superblock and the group descriptor of the partition
    /// at `start`.
    pub fn mount(dev: &AtaDrive, start: u32) -> (r: Result<Ext2, FsError>)
        requires
            dev.wf(),
        ensures
            reads(disk(*dev), r, mounted(disk(*dev), start)),
    {
        let sbv = match read_part_block(dev, start, 1) {
            Err(e) => {
                return Err(e);
            },
            Ok(v) => v,
        };
        let sb = sbv.as_slice();
        if get_u16(sb, 56) != SUPER_MAGIC {
            return Err(FsError::BadFs);
        }
        if get_u32(sb, 24) != 0 {
            return Err(FsError::NotSupported);
        }
        if get_u32(sb, 20) != 1 {
            return Err(FsError::BadFs);
        }
        if get_u32(sb, 76) != 0 && get_u16(sb, 88) != 128 {
            return Err(FsError::NotSupported);
        }
        let blocks_count = get_u32(sb, 4);
        let inodes_count = get_u32(sb, 0);
        let blocks_per_group = get_u32(sb, 32);
        let inodes_per_group = get_u32(sb, 40);
        if blocks_count == 0 || inodes_count == 0 || blocks_per_group == 0 || inodes_per_group == 0
            || blocks_per_group > 8192 {
            return Err(FsError::BadFs);
        }
        if blocks_count == 1 || blocks_count - 1 > blocks_per_group {
            return Err(FsError::NotSupported);
        }
        let gdv = match read_part_block(dev, start, 2) {
            Err(e) => {
                return Err(e);
            },
            Ok(v) => v,
        };
        let gd = gdv.as_slice();
        let block_bitmap = get_u32(gd, 0);
        let inode_bitmap = get_u32(gd, 4);
        let inode_table = get_u32(gd, 8);
        if block_bitmap == 0 || inode_bitmap == 0 || inode_table == 0 || block_bitmap
            >= blocks_count || inode_bitmap >= blocks_count || inode_table >= blocks_count {
            return Err(FsError::BadFs);
        }
        Ok(
            Ext2 {
                part_start: start,
                blocks_count,
                inodes_count,
                blocks_per_group,
                inodes_per_group,
                block_bitmap,
                inode_bitmap,
                inode_table,
                free_blocks: get_u32(sb, 12),
                free_inodes: get_u32(sb, 16),
            },
        )
    }

    /// A line on the volume.
    pub fn summary(&self) -> (r: String)
        ensures
            r@ == "blocks="@ + dec(self.blocks_count as nat) + " (free "@ + dec(
                self.free_blocks as nat,
            ) + ") inodes="@ + dec(self.inodes_count as nat) + " (free "@ + dec(
                self.free_inodes as nat,
            ) + ")"@,
    {
        let mut s = String::from_str("blocks=");
        push_dec(&mut s, self.blocks_count as u64);
        s.append(" (free ");
        push_dec(&mut s, self.free_blocks as u64);
        s.append(") inodes=");
        push_dec(&mut s, self.inodes_count as u64);
        s.append(" (free ");
        push_dec(&mut s, self.free_inodes as u64);
        s.append(")");
        assert(s@ =~= "blocks="@ + dec(self.blocks_count as nat) + " (free "@ + dec(
            self.free_blocks as nat,
        ) + ") inodes="@ + dec(self.inodes_count as nat) + " (free "@ + dec(
            self.free_inodes as nat,
        ) + ")"@);
        s
    }
}

// ---------------------------------------------------------------------------
// Inodes
// ---------------------------------------------------------------------------

/// The block of the inode table that holds inode `ino`.
pub open spec fn table_block(fs: Ext2, ino: u32) -> int {
    fs.inode_table + (ino - 1) / 8
}

/// The place of inode `ino` in its block.
pub open spec fn table_place(ino: u32) -> int {
    (ino - 1) % 8 * 128
}

/// The inode at place `o` of a table block.
pub open spec fn inode_in(b: Seq<u8>, o: int, ino: u32) -> InodeView {
    InodeView {
        ino,
        mode: le16(b, o) as u16,
        size: le32(b, o + 4) as u32,
        sectors: le32(b, o + 28) as u32,
        blocks: Seq::new(15, |i: int| le32(b, o + 40 + 4 * i) as u32),
    }
}

/// Inode `ino`.
pub open spec fn inode(v: Vol, ino: u32) -> Result<InodeView, FsError> {
    if ino == 0 || ino > v.fs.inodes_count {
        Err(FsError::BadFs)
    } else {
        match block(v, table_block(v.fs, ino)) {
            Err(e) => Err(e),
            Ok(b) => Ok(inode_in(b, table_place(ino), ino)),
        }
    }
}

/// A table block with the first `n` block pointers of the inode at `o` set.
pub open spec fn pointers_put(b: Seq<u8>, o: int, ps: Seq<u32>, n: int) -> Seq<u8>
    decreases n,
{
    if n <= 0 {
        b
    } else {
        splice(pointers_put(b, o, ps, n - 1), o + 40 + 4 * (n - 1), le32_bytes(ps[n - 1] as int))
    }
}

/// A table block with the inode at place `o` replaced.
pub open spec fn inode_put(b: Seq<u8>, o: int, i: InodeView) -> Seq<u8> {
    let a = splice(b, o, le16_bytes(i.mode as int));
    let c = splice(a, o + 4, le32_bytes(i.size as int));
    let e = splice(c, o + 28, le32_bytes(i.sectors as int));
    pointers_put(e, o, i.blocks, 15)
}

/// The volume with an inode replaced.
#[verifier::opaque]
pub open spec fn with_inode(v: Vol, i: InodeView) -> Res<()> {
    match block(v, table_block(v.fs, i.ino)) {
        Err(e) => fails(v, e),
        Ok(b) => with_block(v, table_block(v.fs, i.ino), inode_put(b, table_place(i.ino), i)),
    }
}

/// The inode in mathematical terms.
pub open spec fn inode_view(r: Result<Inode, FsError>) -> Result<InodeView, FsError> {
    match r {
        Ok(i) => Ok(i@),
        Err(e) => Err(e),
    }
}

fn get_pointers(b: &Vec<u8>, o: usize) -> (r: [u32; 15])
    requires
        o + 100 <= b@.len(),
    ensures
        r@ == Seq::new(15, |i: int| le32(b@, o + 40 + 4 * i) as u32),
{
    let _n = b.len();
    let mut r: [u32; 15] = [0; 15];
    let mut i: usize = 0;
    while i < 15
        invariant
            i <= 15,
            o + 100 <= b@.len() <= usize::MAX,
            forall|k: int| 0 <= k < i ==> #[trigger] r@[k] == le32(b@, o + 40 + 4 * k) as u32,
        decreases 15 - i,
    {
        r[i] = get_u32(b.as_slice(), o + 40 + 4 * i);
        i += 1;
    }
    assert(r@ =~= Seq::new(15, |i: int| le32(b@, o + 40 + 4 * i) as u32));
    r
}

impl Ext2 {
    /// Fetch an inode.
    fn read_inode(&self, dev: &AtaDrive, ino: u32) -> (r: Result<Inode, FsError>)
        requires
            dev.wf(),
        ensures
            reads(disk(*dev), inode_view(r), inode(vol(*self, *dev), ino)),
    {
        if ino == 0 || ino > self.inodes_count {
            return Err(FsError::BadFs);
        }
        let idx = (ino - 1) as u64;
        let b = match self.read_block(dev, self.inode_table as u64 + idx / 8) {
            Err(e) => {
                return Err(e);
            },
            Ok(b) => b,
        };
        let o = (idx % 8 * 128) as usize;
        let i = Inode {
            ino,
            mode: get_u16(b.as_slice(), o),
            size: get_u32(b.as_slice(), o + 4),
            sectors: get_u32(b.as_slice(), o + 28),
            blocks: get_pointers(&b, o),
        };
        assert(i@ =~= inode_in(b@, o as int, ino));
        Ok(i)
    }

    /// Save an inode.
    fn write_inode(&self, dev: &mut AtaDrive, i: &Inode) -> (r: Result<(), FsError>)
        requires
            old(dev).wf(),
            i.ino >= 1,
        ensures
            final(dev).wf(),
            acts(
                vol(*self, *old(dev)),
                vol(*self, *final(dev)),
                r,
                with_inode(vol(*self, *old(dev)), i@),
            ),
            only_grew(disk(*old(dev)), disk(*final(dev))),
    {
        reveal(with_inode);
        let idx = (i.ino - 1) as u64;
        let at = self.inode_table as u64 + idx / 8;
        let mut b = match self.read_block(dev, at) {
            Err(e) => {
                return Err(e);
            },
            Ok(b) => b,
        };
        let o = (idx % 8 * 128) as usize;
        put_u16(b.as_mut_slice(), o, i.mode);
        put_u32(b.as_mut_slice(), o + 4, i.size);
        put_u32(b.as_mut_slice(), o + 28, i.sectors);
        let ghost base = b@;
        let mut k: usize = 0;
        while k < 15
            invariant
                k <= 15,
                o + 128 <= 1024,
                b@.len() == 1024,
                b@ == pointers_put(base, o as int, i.blocks@, k as int),
            decreases 15 - k,
        {
            put_u32(b.as_mut_slice(), o + 40 + 4 * k, i.blocks[k]);
            k += 1;
        }
        self.write_block(dev, at, &b)
    }
}

// ---------------------------------------------------------------------------
// Block mapping
// ---------------------------------------------------------------------------

/// Pointer `k` of the indirect block `tbl`; block 0 is a hole.
pub open spec fn pointer(v: Vol, tbl: u32, k: int) -> Result<u32, FsError> {
    if tbl == 0 {
        Ok(0)
    } else {
        match block(v, tbl as int) {
            Err(e) => Err(e),
            Ok(b) => Ok(le32(b, 4 * k) as u32),
        }
    }
}

/// The block that holds logical block `k` of a file, 0 for a hole.
pub open spec fn mapped(v: Vol, i: InodeView, k: int) -> Result<u32, FsError> {
    if k < 12 {
        Ok(i.blocks[k])
    } else if k < 12 + 256 {
        pointer(v, i.blocks[12], k - 12)
    } else if k < 12 + 256 + 65536 {
        match pointer(v, i.blocks[13], (k - 268) / 256) {
            Err(e) => Err(e),
            Ok(mid) => pointer(v, mid, (k - 268) % 256),
        }
    } else {
        Err(FsError::NotSupported)
    }
}

impl Ext2 {
    /// Pointer `k` of the indirect block `tbl`.
    fn indirect_lookup(&self, dev: &AtaDrive, tbl: u32, k: usize) -> (r: Result<u32, FsError>)
        requires
            dev.wf(),
            k < 256,
        ensures
            reads(disk(*dev), r, pointer(vol(*self, *dev), tbl, k as int)),
    {
        if tbl == 0 {
            return Ok(0);
        }
        match self.read_block(dev, tbl as u64) {
            Err(e) => Err(e),
            Ok(b) => Ok(get_u32(b.as_slice(), 4 * k)),
        }
    }

    /// The block that holds logical block `k` of a file, 0 for a hole.
    fn map_block(&self, dev: &AtaDrive, i: &Inode, k: u64) -> (r: Result<u32, FsError>)
        requires
            dev.wf(),
        ensures
            reads(disk(*dev), r, mapped(vol(*self, *dev), i@, k as int)),
    {
        if k < 12 {
            return Ok(i.blocks[k as usize]);
        }
        let a = k - 12;
        if a < 256 {
            return self.indirect_lookup(dev, i.blocks[12], a as usize);
        }
        let b = a - 256;
        if b < 65536 {
            return match self.indirect_lookup(dev, i.blocks[13], (b / 256) as usize) {
                Err(e) => Err(e),
                Ok(mid) => self.indirect_lookup(dev, mid, (b % 256) as usize),
            };
        }
        Err(FsError::NotSupported)
    }
}

// ---------------------------------------------------------------------------
// Bitmaps
// ---------------------------------------------------------------------------

/// Bit `k` of a bitmap is set.
pub open spec fn is_set(bits: Seq<u8>, k: int) -> bool {
    bits[k / 8] & (1u8 << (k % 8) as u8) != 0
}

/// The bitmap with bit `k` set.
pub open spec fn with_bit(bits: Seq<u8>, k: int) -> Seq<u8> {
    bits.update(k / 8, bits[k / 8] | (1u8 << (k % 8) as u8))
}

/// The bitmap with bit `k` cleared.
pub open spec fn without_bit(bits: Seq<u8>, k: int) -> Seq<u8> {
    bits.update(k / 8, bits[k / 8] & !(1u8 << (k % 8) as u8))
}

/// The first clear bit from `k` on.
pub open spec fn first_clear(bits: Seq<u8>, k: int) -> Option<int>
    decreases 8192 - k,
{
    if k < 0 || k >= 8192 {
        None
    } else if !is_set(bits, k) {
        Some(k)
    } else {
        first_clear(bits, k + 1)
    }
}

fn bit_is_set(bits: &Vec<u8>, k: usize) -> (r: bool)
    requires
        k < 8192,
        bits@.len() == 1024,
    ensures
        r == is_set(bits@, k as int),
{
    bits[k / 8] & (1u8 << (k % 8) as u8) != 0
}

fn set_bit(bits: &mut Vec<u8>, k: usize)
    requires
        k < 8192,
        old(bits)@.len() == 1024,
    ensures
        final(bits)@ == with_bit(old(bits)@, k as int),
{
    bits[k / 8] = bits[k / 8] | (1u8 << (k % 8) as u8);
}

fn clear_bit(bits: &mut Vec<u8>, k: usize)
    requires
        k < 8192,
        old(bits)@.len() == 1024,
    ensures
        final(bits)@ == without_bit(old(bits)@, k as int),
{
    bits[k / 8] = bits[k / 8] & !(1u8 << (k % 8) as u8);
}

fn find_clear(bits: &Vec<u8>) -> (r: Option<usize>)
    requires
        bits@.len() == 1024,
    ensures
        match r {
            None => first_clear(bits@, 0) is None,
            Some(k) => first_clear(bits@, 0) == Some(k as int) && k < 8192,
        },
{
    let mut k: usize = 0;
    while k < 8192
        invariant
            k <= 8192,
            bits@.len() == 1024,
            first_clear(bits@, 0) == first_clear(bits@, k as int),
        decreases 8192 - k,
    {
        if !bit_is_set(bits, k) {
            return Some(k);
        }
        k += 1;
    }
    None
}

/// Setting a bit sets it and leaves the others as they were.
pub proof fn law_set_bit(bits: Seq<u8>, k: int, j: int)
    requires
        bits.len() == 1024,
        0 <= k < 8192,
        0 <= j < 8192,
    ensures
        is_set(with_bit(bits, k), j) == (j == k || is_set(bits, j)),
{
    let b = bits[k / 8];
    let p = (k % 8) as u8;
    let q = (j % 8) as u8;
    assert(((b | (1u8 << p)) & (1u8 << q) != 0) == (p == q || b & (1u8 << q) != 0)) by (bit_vector)
        requires
            p < 8,
            q < 8,
    ;
}

/// Clearing a bit clears it and leaves the others as they were.
pub proof fn law_clear_bit(bits: Seq<u8>, k: int, j: int)
    requires
        bits.len() == 1024,
        0 <= k < 8192,
        0 <= j < 8192,
    ensures
        is_set(without_bit(bits, k), j) == (j != k && is_set(bits, j)),
{
    let b = bits[k / 8];
    let p = (k % 8) as u8;
    let q = (j % 8) as u8;
    assert(((b & !(1u8 << p)) & (1u8 << q) != 0) == (p != q && b & (1u8 << q) != 0)) by (bit_vector)
        requires
            p < 8,
            q < 8,
    ;
}

/// Clearing the bit that was just taken gives the bitmap back.
pub proof fn law_free_undoes_alloc(bits: Seq<u8>, k: int)
    requires
        bits.len() == 1024,
        0 <= k < 8192,
        !is_set(bits, k),
    ensures
        without_bit(with_bit(bits, k), k) == bits,
{
    let b = bits[k / 8];
    let p = (k % 8) as u8;
    assert((b | (1u8 << p)) & !(1u8 << p) == b) by (bit_vector)
        requires
            p < 8,
            b & (1u8 << p) == 0,
    ;
    assert(without_bit(with_bit(bits, k), k) =~= bits);
}

// ---------------------------------------------------------------------------
// Allocation
// ---------------------------------------------------------------------------

/// Save the free counts in the superblock and the group descriptor.
#[verifier::opaque]
pub open spec fn counts_synced(v: Vol) -> Res<()> {
    match block(v, 1) {
        Err(e) => fails(v, e),
        Ok(sb) => {
            let w = with_block(
                v,
                1,
                splice(
                    splice(sb, 12, le32_bytes(v.fs.free_blocks as int)),
                    16,
                    le32_bytes(v.fs.free_inodes as int),
                ),
            );
            if w.r is Err {
                w
            } else {
                match block(w.vol, 2) {
                    Err(e) => fails(w.vol, e),
                    Ok(gd) => with_block(
                        w.vol,
                        2,
                        splice(
                            splice(gd, 12, le16_bytes(v.fs.free_blocks as int % 0x1_0000)),
                            14,
                            le16_bytes(v.fs.free_inodes as int % 0x1_0000),
                        ),
                    ),
                }
            }
        },
    }
}

/// A block of zeros.
pub open spec fn blank() -> Seq<u8> {
    Seq::new(1024, |i: int| 0u8)
}

/// The answer of `o` as another value.
pub open spec fn answer<T>(o: Res<()>, x: T) -> Res<T> {
    match o.r {
        Err(e) => Res { vol: o.vol, r: Err(e) },
        Ok(_) => Res { vol: o.vol, r: Ok(x) },
    }
}

/// Take the first free block: mark it, sync the counts and zero it.
#[verifier::opaque]
pub open spec fn block_taken(v: Vol) -> Res<u32> {
    if v.fs.free_blocks == 0 {
        fails(v, FsError::NoSpace)
    } else {
        match block(v, v.fs.block_bitmap as int) {
            Err(e) => fails(v, e),
            Ok(bits) => match first_clear(bits, 0) {
                None => fails(v, FsError::NoSpace),
                Some(k) => {
                    let w = with_block(v, v.fs.block_bitmap as int, with_bit(bits, k));
                    if w.r is Err {
                        answer(w, 0u32)
                    } else {
                        let less = Vol {
                            fs: Ext2 { free_blocks: (v.fs.free_blocks - 1) as u32, ..v.fs },
                            disk: w.vol.disk,
                        };
                        let s = counts_synced(less);
                        if s.r is Err {
                            answer(s, 0u32)
                        } else {
                            answer(with_block(s.vol, k + 1, blank()), (k + 1) as u32)
                        }
                    }
                },
            },
        }
    }
}

/// Take the first free inode: mark it and sync the counts.
#[verifier::opaque]
pub open spec fn inode_taken(v: Vol) -> Res<u32> {
    if v.fs.free_inodes == 0 {
        fails(v, FsError::NoSpace)
    } else {
        match block(v, v.fs.inode_bitmap as int) {
            Err(e) => fails(v, e),
            Ok(bits) => match first_clear(bits, 0) {
                None => fails(v, FsError::NoSpace),
                Some(k) => {
                    let w = with_block(v, v.fs.inode_bitmap as int, with_bit(bits, k));
                    if w.r is Err {
                        answer(w, 0u32)
                    } else {
                        let less = Vol {
                            fs: Ext2 { free_inodes: (v.fs.free_inodes - 1) as u32, ..v.fs },
                            disk: w.vol.disk,
                        };
                        answer(counts_synced(less), (k + 1) as u32)
                    }
                },
            },
        }
    }
}

impl Ext2 {
    /// Save the free counts.
    pub fn sync_free_counts(&self, dev: &mut AtaDrive) -> (r: Result<(), FsError>)
        requires
            old(dev).wf(),
        ensures
            final(dev).wf(),
            acts(
                vol(*self, *old(dev)),
                vol(*self, *final(dev)),
                r,
                counts_synced(vol(*self, *old(dev))),
            ),
            only_grew(disk(*old(dev)), disk(*final(dev))),
    {
        reveal(counts_synced);
        let mut sb = match self.read_block(dev, 1) {
            Err(e) => {
                return Err(e);
            },
            Ok(b) => b,
        };
        put_u32(sb.as_mut_slice(), 12, self.free_blocks);
        put_u32(sb.as_mut_slice(), 16, self.free_inodes);
        match self.write_block(dev, 1, &sb) {
            Err(e) => {
                return Err(e);
            },
            Ok(_) => {},
        }
        let mut gd = match self.read_block(dev, 2) {
            Err(e) => {
                return Err(e);
            },
            Ok(b) => b,
        };
        put_u16(gd.as_mut_slice(), 12, (self.free_blocks % 0x1_0000) as u16);
        put_u16(gd.as_mut_slice(), 14, (self.free_inodes % 0x1_0000) as u16);
        self.write_block(dev, 2, &gd)
    }

    /// Take a free block, zeroed.
    fn alloc_block(&mut self, dev: &mut AtaDrive) -> (r: Result<u32, FsError>)
        requires
            old(dev).wf(),
        ensures
            final(dev).wf(),
            acts(
                vol(*old(self), *old(dev)),
                vol(*final(self), *final(dev)),
                r,
                block_taken(vol(*old(self), *old(dev))),
            ),
            only_grew(disk(*old(dev)), disk(*final(dev))),
    {
        reveal(block_taken);
        if self.free_blocks == 0 {
            return Err(FsError::NoSpace);
        }
        let mut bits = match self.read_block(dev, self.block_bitmap as u64) {
            Err(e) => {
                return Err(e);
            },
            Ok(b) => b,
        };
        let k = match find_clear(&bits) {
            None => {
                return Err(FsError::NoSpace);
            },
            Some(k) => k,
        };
        set_bit(&mut bits, k);
        match self.write_block(dev, self.block_bitmap as u64, &bits) {
            Err(e) => {
                return Err(e);
            },
            Ok(_) => {},
        }
        self.free_blocks = self.free_blocks - 1;
        match self.sync_free_counts(dev) {
            Err(e) => {
                return Err(e);
            },
            Ok(_) => {},
        }
        let z = zeros(1024);
        assert(z@ =~= blank());
        match self.write_block(dev, k as u64 + 1, &z) {
            Err(e) => Err(e),
            Ok(_) => Ok(k as u32 + 1),
        }
    }

    /// Take a free inode.
    fn alloc_inode(&mut self, dev: &mut AtaDrive) -> (r: Result<u32, FsError>)
        requires
            old(dev).wf(),
        ensures
            final(dev).wf(),
            acts(
                vol(*old(self), *old(dev)),
                vol(*final(self), *final(dev)),
                r,
                inode_taken(vol(*old(self), *old(dev))),
            ),
            only_grew(disk(*old(dev)), disk(*final(dev))),
            r matches Ok(n) ==> n >= 1,
    {
        reveal(inode_taken);
        if self.free_inodes == 0 {
            return Err(FsError::NoSpace);
        }
        let mut bits = match self.read_block(dev, self.inode_bitmap as u64) {
            Err(e) => {
                return Err(e);
            },
            Ok(b) => b,
        };
        let k = match find_clear(&bits) {
            None => {
                return Err(FsError::NoSpace);
            },
            Some(k) => k,
        };
        set_bit(&mut bits, k);
        match self.write_block(dev, self.inode_bitmap as u64, &bits) {
            Err(e) => {
                return Err(e);
            },
            Ok(_) => {},
        }
        self.free_inodes = self.free_inodes - 1;
        match self.sync_free_counts(dev) {
            Err(e) => Err(e),
            Ok(_) => Ok(k as u32 + 1),
        }
    }
}

/// Two more sectors.
pub open spec fn plus_block(i: InodeView) -> InodeView {
    InodeView { sectors: ((i.sectors + 2) % 0x1_0000_0000) as u32, ..i }
}

/// Pointer `slot` of an inode: the block there, or a new one.
#[verifier::opaque]
pub open spec fn slot_filled(v: Vol, i: InodeView, slot: int) -> Res<(InodeView, u32)> {
    if i.blocks[slot] != 0 {
        Res { vol: v, r: Ok((i, i.blocks[slot])) }
    } else {
        let a = block_taken(v);
        match a.r {
            Err(e) => Res { vol: a.vol, r: Err(e) },
            Ok(nb) => Res {
                vol: a.vol,
                r: Ok(
                    (
                        InodeView { blocks: i.blocks.update(slot, nb), ..plus_block(i) },
                        nb,
                    ),
                ),
            },
        }
    }
}

/// Pointer `k` of the table `tbl`: the block there, or a new one.
#[verifier::opaque]
pub open spec fn table_filled(v: Vol, i: InodeView, tbl: u32, k: int) -> Res<(InodeView, u32)> {
    match block(v, tbl as int) {
        Err(e) => fails(v, e),
        Ok(t) => if le32(t, 4 * k) != 0 {
            Res { vol: v, r: Ok((i, le32(t, 4 * k) as u32)) }
        } else {
            let a = block_taken(v);
            match a.r {
                Err(e) => Res { vol: a.vol, r: Err(e) },
                Ok(nb) => answer(
                    with_block(a.vol, tbl as int, splice(t, 4 * k, le32_bytes(nb as int))),
                    (plus_block(i), nb),
                ),
            }
        },
    }
}

/// The next step with the inode and block of the last.
pub open spec fn through(o: Res<(InodeView, u32)>, k: int) -> Res<(InodeView, u32)> {
    match o.r {
        Err(e) => Res { vol: o.vol, r: Err(e) },
        Ok((i, tbl)) => table_filled(o.vol, i, tbl, k),
    }
}

/// Logical block `k` of a file: the block there, or a new one with whatever
/// tables it needs.
#[verifier::opaque]
pub open spec fn ensured(v: Vol, i: InodeView, k: int) -> Res<(InodeView, u32)> {
    if k < 12 {
        slot_filled(v, i, k)
    } else if k < 268 {
        through(slot_filled(v, i, 12), k - 12)
    } else if k < 268 + 65536 {
        through(through(slot_filled(v, i, 13), (k - 268) / 256), (k - 268) % 256)
    } else {
        fails(v, FsError::NotSupported)
    }
}

/// Inode and block in mathematical terms.
pub open spec fn pair_view(r: Result<(Inode, u32), FsError>) -> Result<(InodeView, u32), FsError> {
    match r {
        Ok(p) => Ok((p.0@, p.1)),
        Err(e) => Err(e),
    }
}

fn add_sectors(n: u32) -> (r: u32)
    ensures
        r == (n + 2) % 0x1_0000_0000,
{
    if n >= 0xFFFF_FFFE {
        n - 0xFFFF_FFFE
    } else {
        n + 2
    }
}

impl Ext2 {
    /// Pointer `slot` of an inode: the block there, or a new one.
    fn ensure_indirect(&mut self, dev: &mut AtaDrive, i: Inode, slot: usize) -> (r: Result<
        (Inode, u32),
        FsError,
    >)
        requires
            old(dev).wf(),
            slot < 15,
        ensures
            final(dev).wf(),
            acts(
                vol(*old(self), *old(dev)),
                vol(*final(self), *final(dev)),
                pair_view(r),
                slot_filled(vol(*old(self), *old(dev)), i@, slot as int),
            ),
            only_grew(disk(*old(dev)), disk(*final(dev))),
            r matches Ok(p) ==> p.0.ino == i.ino,
    {
        reveal(slot_filled);
        if i.blocks[slot] != 0 {
            return Ok((i, i.blocks[slot]));
        }
        match self.alloc_block(dev) {
            Err(e) => Err(e),
            Ok(nb) => {
                let mut j = i;
                j.blocks[slot] = nb;
                j.sectors = add_sectors(i.sectors);
                assert(j@ =~= InodeView {
                    blocks: i.blocks@.update(slot as int, nb),
                    ..plus_block(i@)
                });
                Ok((j, nb))
            },
        }
    }

    /// Pointer `k` of the table `tbl`: the block there, or a new one.
    fn ensure_slot(&mut self, dev: &mut AtaDrive, i: Inode, tbl: u32, k: usize) -> (r: Result<
        (Inode, u32),
        FsError,
    >)
        requires
            old(dev).wf(),
            k < 256,
        ensures
            final(dev).wf(),
            acts(
                vol(*old(self), *old(dev)),
                vol(*final(self), *final(dev)),
                pair_view(r),
                table_filled(vol(*old(self), *old(dev)), i@, tbl, k as int),
            ),
            only_grew(disk(*old(dev)), disk(*final(dev))),
            r matches Ok(p) ==> p.0.ino == i.ino,
    {
        reveal(table_filled);
        let mut t = match self.read_block(dev, tbl as u64) {
            Err(e) => {
                return Err(e);
            },
            Ok(b) => b,
        };
        let here = get_u32(t.as_slice(), 4 * k);
        if here != 0 {
            return Ok((i, here));
        }
        let nb = match self.alloc_block(dev) {
            Err(e) => {
                return Err(e);
            },
            Ok(nb) => nb,
        };
        put_u32(t.as_mut_slice(), 4 * k, nb);
        match self.write_block(dev, tbl as u64, &t) {
            Err(e) => Err(e),
            Ok(_) => {
                let mut j = i;
                j.sectors = add_sectors(i.sectors);
                assert(j@ =~= plus_block(i@));
                Ok((j, nb))
            },
        }
    }

    /// Make logical block `k` of a file exist.
    fn ensure_block(&mut self, dev: &mut AtaDrive, i: Inode, k: u64) -> (r: Result<
        (Inode, u32),
        FsError,
    >)
        requires
            old(dev).wf(),
        ensures
            final(dev).wf(),
            acts(
                vol(*old(self), *old(dev)),
                vol(*final(self), *final(dev)),
                pair_view(r),
                ensured(vol(*old(self), *old(dev)), i@, k as int),
            ),
            only_grew(disk(*old(dev)), disk(*final(dev))),
            r matches Ok(p) ==> p.0.ino == i.ino,
    {
        reveal(ensured);
        if k < 12 {
            return self.ensure_indirect(dev, i, k as usize);
        }
        if k < 268 {
            return match self.ensure_indirect(dev, i, 12) {
                Err(e) => Err(e),
                Ok((j, tbl)) => self.ensure_slot(dev, j, tbl, (k - 12) as usize),
            };
        }
        if k < 268 + 65536 {
            let rest = k - 268;
            return match self.ensure_indirect(dev, i, 13) {
                Err(e) => Err(e),
                Ok((j, l1)) => match self.ensure_slot(dev, j, l1, (rest / 256) as usize) {
                    Err(e) => Err(e),
                    Ok((m, mid)) => self.ensure_slot(dev, m, mid, (rest % 256) as usize),
                },
            };
        }
        Err(FsError::NotSupported)
    }
}

// ---------------------------------------------------------------------------
// Directories
// ---------------------------------------------------------------------------

/// What `String::from_utf8_lossy` makes of some bytes.
pub uninterp spec fn lossy(b: Seq<u8>) -> Seq<char>;

/// `String::from_utf8_lossy`: the text that the bytes are, with replacement
/// characters where they are not UTF-8. Which characters those are is left to
/// the name; valid UTF-8 is decoded as it stands.
#[verifier::external_body]
fn lossy_text(b: &[u8]) -> (r: String)
    ensures
        r@ == lossy(b@),
        vstd::utf8::valid_utf8(b@) ==> r@ == vstd::utf8::decode_utf8(b@),
{
    String::from_utf8_lossy(b).into_owned()
}

/// The text of a name on disk: its characters where it is UTF-8, and what
/// `String::from_utf8_lossy` makes of it where it is not.
pub open spec fn shown(b: Seq<u8>) -> Seq<char> {
    if vstd::utf8::valid_utf8(b) {
        vstd::utf8::decode_utf8(b)
    } else {
        lossy(b)
    }
}

/// A directory record; inode 0 marks a free one.
pub struct DirEnt {
    pub ino: u32,
    pub name: String,
    pub rec_len: u16,
    /// The record's place in the directory.
    pub offset: u64,
}

/// A directory record in mathematical terms.
#[verifier::ext_equal]
pub struct Record {
    pub ino: u32,
    pub name: Seq<char>,
    pub rec_len: int,
    pub offset: int,
}

impl DirEnt {
    pub open spec fn view(&self) -> Record {
        Record {
            ino: self.ino,
            name: self.name@,
            rec_len: self.rec_len as int,
            offset: self.offset as int,
        }
    }
}

/// The records in mathematical terms.
pub open spec fn records_view(v: Seq<DirEnt>) -> Seq<Record> {
    Seq::new(v.len(), |i: int| v[i]@)
}

/// The record at place `o` of a directory block whose first byte is at `base`.
pub open spec fn record_at(b: Seq<u8>, o: int, base: int) -> Record {
    Record {
        ino: le32(b, o) as u32,
        name: if le32(b, o) == 0 {
            Seq::empty()
        } else {
            shown(b.subrange(o + 8, o + 8 + b[o + 6]))
        },
        rec_len: le16(b, o + 4),
        offset: base + o,
    }
}

/// The record at place `o` of a block makes sense.
pub open spec fn record_ok(b: Seq<u8>, o: int) -> bool {
    let rec = le16(b, o + 4);
    rec >= 8 && o + rec <= 1024 && (le32(b, o) != 0 ==> 8 + b[o + 6] <= rec)
}

/// The records of a block from place `o` on.
pub open spec fn block_records(b: Seq<u8>, o: int, base: int) -> Result<Seq<Record>, FsError>
    decreases 1024 - o,
{
    if o + 8 > 1024 {
        Ok(Seq::empty())
    } else if !record_ok(b, o) {
        Err(FsError::BadFs)
    } else {
        match block_records(b, o + le16(b, o + 4), base) {
            Err(e) => Err(e),
            Ok(rest) => Ok(seq![record_at(b, o, base)] + rest),
        }
    }
}

/// The records of the first `n` blocks of a directory; holes hold none.
pub open spec fn records(v: Vol, dir: InodeView, n: int) -> Result<Seq<Record>, FsError>
    decreases n,
{
    if n <= 0 {
        Ok(Seq::empty())
    } else {
        match records(v, dir, n - 1) {
            Err(e) => Err(e),
            Ok(front) => match mapped(v, dir, n - 1) {
                Err(e) => Err(e),
                Ok(phys) => if phys == 0 {
                    Ok(front)
                } else {
                    match block(v, phys as int) {
                        Err(e) => Err(e),
                        Ok(b) => match block_records(b, 0, 1024 * (n - 1)) {
                            Err(e) => Err(e),
                            Ok(rs) => Ok(front + rs),
                        },
                    }
                },
            },
        }
    }
}

/// The records of a directory.
pub open spec fn dir_records(v: Vol, dir: InodeView) -> Result<Seq<Record>, FsError> {
    records(v, dir, dir.size as int / 1024)
}

/// The first live record from number `k` on with that name.
pub open spec fn record_named(rs: Seq<Record>, name: Seq<char>, k: int) -> Option<Record>
    decreases rs.len() - k,
{
    if k >= rs.len() {
        None
    } else if rs[k].ino != 0 && rs[k].name == name {
        Some(rs[k])
    } else {
        record_named(rs, name, k + 1)
    }
}

/// The inode of that name in a directory.
pub open spec fn found(v: Vol, dir: InodeView, name: Seq<char>) -> Result<
    Option<InodeView>,
    FsError,
> {
    match dir_records(v, dir) {
        Err(e) => Err(e),
        Ok(rs) => match record_named(rs, name, 0) {
            None => Ok(None),
            Some(r) => match inode(v, r.ino) {
                Err(e) => Err(e),
                Ok(i) => Ok(Some(i)),
            },
        },
    }
}

/// The records as a sequence.
pub open spec fn scan_view(r: Result<Vec<DirEnt>, FsError>) -> Result<Seq<Record>, FsError> {
    match r {
        Ok(v) => Ok(records_view(v@)),
        Err(e) => Err(e),
    }
}

/// The inode in mathematical terms.
pub open spec fn found_view(r: Result<Option<Inode>, FsError>) -> Result<Option<InodeView>, FsError> {
    match r {
        Err(e) => Err(e),
        Ok(None) => Ok(None),
        Ok(Some(i)) => Ok(Some(i@)),
    }
}

/// `rest` with `front` before it.
pub open spec fn joined(front: Seq<Record>, rest: Result<Seq<Record>, FsError>) -> Result<
    Seq<Record>,
    FsError,
> {
    match rest {
        Err(e) => Err(e),
        Ok(s) => Ok(front + s),
    }
}

/// Append the records of a block.
fn push_records(out: &mut Vec<DirEnt>, b: &Vec<u8>, base: u64) -> (r: Result<(), FsError>)
    requires
        b@.len() == 1024,
        base + 1024 <= u64::MAX,
    ensures
        match r {
            Ok(_) => joined(records_view(old(out)@), block_records(b@, 0, base as int)) == Ok::<
                Seq<Record>,
                FsError,
            >(records_view(final(out)@)),
            Err(e) => block_records(b@, 0, base as int) == Err::<Seq<Record>, FsError>(e) && e
                == FsError::BadFs,
        },
{
    let s = b.as_slice();
    let ghost want = joined(records_view(out@), block_records(b@, 0, base as int));
    let ghost fault = block_records(b@, 0, base as int);
    let mut o: usize = 0;
    while o + 8 <= 1024
        invariant
            o <= 1024,
            b@.len() == 1024,
            s@ == b@,
            base + 1024 <= u64::MAX,
            joined(records_view(out@), block_records(b@, o as int, base as int)) == want,
            fault == block_records(b@, 0, base as int),
            want == joined(records_view(old(out)@), fault),
        decreases 1024 - o,
    {
        let rec = get_u16(s, o + 4) as usize;
        if rec < 8 || o + rec > 1024 {
            assert(!record_ok(b@, o as int));
            return Err(FsError::BadFs);
        }
        let ino = get_u32(s, o);
        let nlen = b[o + 6] as usize;
        let mut name = String::new();
        if ino != 0 {
            if 8 + nlen > rec {
                assert(!record_ok(b@, o as int));
                return Err(FsError::BadFs);
            }
            let bytes = copy_range(s, o + 8, o + 8 + nlen);
            name = lossy_text(bytes.as_slice());
        }
        let ghost before = records_view(out@);
        let e = DirEnt { ino, name, rec_len: rec as u16, offset: base + o as u64 };
        proof {
            assert(e.name@ =~= record_at(b@, o as int, base as int).name);
            assert(e@ =~= record_at(b@, o as int, base as int));
        }
        out.push(e);
        proof {
            assert(records_view(out@) =~= before.push(e@));
            if let Ok(rest) = block_records(b@, o + rec, base as int) {
                assert(before + (seq![e@] + rest) =~= records_view(out@) + rest);
            }
        }
        o += rec;
    }
    assert(records_view(out@) + Seq::<Record>::empty() =~= records_view(out@));
    Ok(())
}

impl Ext2 {
    /// Every record of a directory, the free ones included.
    fn dir_entries(&self, dev: &AtaDrive, dir: &Inode) -> (r: Result<Vec<DirEnt>, FsError>)
        requires
            dev.wf(),
        ensures
            reads(disk(*dev), scan_view(r), dir_records(vol(*self, *dev), dir@)),
    {
        let ghost v = vol(*self, *dev);
        let n = dir.size / 1024;
        let mut out: Vec<DirEnt> = Vec::new();
        let mut k: u32 = 0;
        assert(records_view(out@) =~= Seq::<Record>::empty());
        while k < n
            invariant
                dev.wf(),
                v == vol(*self, *dev),
                n == dir.size / 1024,
                k <= n,
                records(v, dir@, k as int) == Ok::<Seq<Record>, FsError>(records_view(out@)),
            decreases n - k,
        {
            let mut bad: Option<FsError> = None;
            match self.map_block(dev, dir, k as u64) {
                Err(e) => {
                    bad = Some(e);
                },
                Ok(phys) => {
                    if phys != 0 {
                        match self.read_block(dev, phys as u64) {
                            Err(e) => {
                                bad = Some(e);
                            },
                            Ok(b) => match push_records(&mut out, &b, 1024 * k as u64) {
                                Err(e) => {
                                    bad = Some(e);
                                },
                                Ok(_) => {},
                            },
                        }
                    }
                },
            }
            if let Some(e) = bad {
                proof {
                    lemma_records_fail(v, dir@, k + 1, n as int);
                }
                return Err(e);
            }
            k += 1;
        }
        Ok(out)
    }

    /// Look `name` up in a directory.
    fn lookup_in(&self, dev: &AtaDrive, dir: &Inode, name: &String) -> (r: Result<
        Option<Inode>,
        FsError,
    >)
        requires
            dev.wf(),
        ensures
            reads(disk(*dev), found_view(r), found(vol(*self, *dev), dir@, name@)),
    {
        let es = match self.dir_entries(dev, dir) {
            Err(e) => {
                return Err(e);
            },
            Ok(v) => v,
        };
        let ghost v = vol(*self, *dev);
        let ghost all = records_view(es@);
        let mut k: usize = 0;
        while k < es.len()
            invariant
                dev.wf(),
                v == vol(*self, *dev),
                k <= es@.len(),
                all == records_view(es@),
                dir_records(v, dir@) == Ok::<Seq<Record>, FsError>(all),
                record_named(all, name@, 0) == record_named(all, name@, k as int),
            decreases es@.len() - k,
        {
            assert(all[k as int] == es@[k as int]@);
            if es[k].ino != 0 && es[k].name == *name {
                return match self.read_inode(dev, es[k].ino) {
                    Err(e) => Err(e),
                    Ok(i) => Ok(Some(i)),
                };
            }
            k += 1;
        }
        Ok(None)
    }
}

proof fn lemma_records_fail(v: Vol, dir: InodeView, k: int, n: int)
    requires
        0 <= k <= n,
        records(v, dir, k) is Err,
    ensures
        records(v, dir, n) == records(v, dir, k),
    decreases n,
{
    if n > k {
        lemma_records_fail(v, dir, k, n - 1);
    }
}

// ---------------------------------------------------------------------------
// Paths
// ---------------------------------------------------------------------------

/// What the first `n` components name; all but the last must be directories.
pub open spec fn node_upto(v: Vol, ps: Seq<Seq<char>>, n: int) -> Result<Option<InodeView>, FsError>
    decreases n,
{
    if n <= 0 {
        match inode(v, ROOT_INO) {
            Err(e) => Err(e),
            Ok(i) => Ok(Some(i)),
        }
    } else {
        match node_upto(v, ps, n - 1) {
            Err(e) => Err(e),
            Ok(None) => Ok(None),
            Ok(Some(cur)) => match found(v, cur, ps[n - 1]) {
                Err(e) => Err(e),
                Ok(None) => Ok(None),
                Ok(Some(next)) => if n != ps.len() && !next.is_dir() {
                    Err(FsError::BadFs)
                } else {
                    Ok(Some(next))
                },
            },
        }
    }
}

/// What `path` names; `None` where a component is missing.
pub open spec fn node_at(v: Vol, path: Seq<char>) -> Result<Option<InodeView>, FsError> {
    match path_parts(path) {
        None => Err(FsError::NotSupported),
        Some(ps) => node_upto(v, ps, ps.len() as int),
    }
}

/// The directory that the first `n` components name.
pub open spec fn dir_upto(v: Vol, ps: Seq<Seq<char>>, n: int) -> Result<InodeView, FsError>
    decreases n,
{
    if n <= 0 {
        inode(v, ROOT_INO)
    } else {
        match dir_upto(v, ps, n - 1) {
            Err(e) => Err(e),
            Ok(cur) => match found(v, cur, ps[n - 1]) {
                Err(e) => Err(e),
                Ok(None) => Err(FsError::NotFound),
                Ok(Some(next)) => if !next.is_dir() {
                    Err(FsError::BadFs)
                } else {
                    Ok(next)
                },
            },
        }
    }
}

/// The directory that holds what `path` names, and the last component.
pub open spec fn parent_of(v: Vol, path: Seq<char>) -> Result<(InodeView, Seq<char>), FsError> {
    match path_parts(path) {
        None => Err(FsError::NotSupported),
        Some(ps) => if ps.len() == 0 {
            Err(FsError::NotSupported)
        } else {
            match dir_upto(v, ps, ps.len() - 1) {
                Err(e) => Err(e),
                Ok(dir) => Ok((dir, ps.last())),
            }
        },
    }
}

/// Is the mode that of a directory?
fn is_dir(mode: u16) -> (r: bool)
    ensures
        r == (mode / 0x1000 == 4),
{
    mode / 0x1000 == 4
}

impl Ext2 {
    /// Resolve `path`; a missing component gives `None`.
    fn resolve(&self, dev: &AtaDrive, path: &str) -> (r: Result<Option<Inode>, FsError>)
        requires
            dev.wf(),
        ensures
            reads(disk(*dev), found_view(r), node_at(vol(*self, *dev), path@)),
    {
        let parts = match split_path(path) {
            None => {
                return Err(FsError::NotSupported);
            },
            Some(p) => p,
        };
        let ghost v = vol(*self, *dev);
        let ghost ps = names(parts@);
        let n = parts.len();
        let mut cur = match self.read_inode(dev, ROOT_INO) {
            Err(e) => {
                proof {
                    lemma_node_stays(v, ps, 0, n as int);
                }
                return Err(e);
            },
            Ok(i) => i,
        };
        let mut k: usize = 0;
        while k < n
            invariant
                dev.wf(),
                v == vol(*self, *dev),
                ps == names(parts@),
                path_parts(path@) == Some(ps),
                n == parts@.len(),
                k <= n,
                node_upto(v, ps, k as int) == Ok::<Option<InodeView>, FsError>(Some(cur@)),
            decreases n - k,
        {
            let name = text_of(&parts[k]);
            assert(ps[k as int] == name@);
            match self.lookup_in(dev, &cur, &name) {
                Err(e) => {
                    proof {
                        lemma_node_stays(v, ps, k + 1, n as int);
                    }
                    return Err(e);
                },
                Ok(None) => {
                    proof {
                        lemma_node_stays(v, ps, k + 1, n as int);
                    }
                    return Ok(None);
                },
                Ok(Some(next)) => {
                    if k + 1 != n && !is_dir(next.mode) {
                        proof {
                            lemma_node_stays(v, ps, k + 1, n as int);
                        }
                        return Err(FsError::BadFs);
                    }
                    cur = next;
                },
            }
            k += 1;
        }
        Ok(Some(cur))
    }

    /// The directory that holds what `path` names, and the last component.
    fn resolve_parent(&self, dev: &AtaDrive, path: &str) -> (r: Result<(Inode, String), FsError>)
        requires
            dev.wf(),
        ensures
            match r {
                Ok(p) => parent_of(vol(*self, *dev), path@) == Ok::<
                    (InodeView, Seq<char>),
                    FsError,
                >((p.0@, p.1@)),
                Err(e) => fails_as(disk(*dev), r, parent_of(vol(*self, *dev), path@) == Err::<
                    (InodeView, Seq<char>),
                    FsError,
                >(e)),
            },
    {
        let parts = match split_path(path) {
            None => {
                return Err(FsError::NotSupported);
            },
            Some(p) => p,
        };
        let n = parts.len();
        if n == 0 {
            return Err(FsError::NotSupported);
        }
        let ghost v = vol(*self, *dev);
        let ghost ps = names(parts@);
        let mut cur = match self.read_inode(dev, ROOT_INO) {
            Err(e) => {
                proof {
                    lemma_dir_stays(v, ps, 0, n - 1);
                }
                return Err(e);
            },
            Ok(i) => i,
        };
        let mut k: usize = 0;
        while k < n - 1
            invariant
                dev.wf(),
                v == vol(*self, *dev),
                ps == names(parts@),
                path_parts(path@) == Some(ps),
                n == parts@.len(),
                1 <= n,
                k <= n - 1,
                dir_upto(v, ps, k as int) == Ok::<InodeView, FsError>(cur@),
            decreases n - k,
        {
            let name = text_of(&parts[k]);
            assert(ps[k as int] == name@);
            let mut bad: Option<FsError> = None;
            match self.lookup_in(dev, &cur, &name) {
                Err(e) => {
                    bad = Some(e);
                },
                Ok(None) => {
                    bad = Some(FsError::NotFound);
                },
                Ok(Some(next)) => {
                    if !is_dir(next.mode) {
                        bad = Some(FsError::BadFs);
                    } else {
                        cur = next;
                    }
                },
            }
            if let Some(e) = bad {
                proof {
                    lemma_dir_stays(v, ps, k + 1, n - 1);
                }
                return Err(e);
            }
            k += 1;
        }
        assert(ps.last() == parts@[n - 1]@);
        Ok((cur, text_of(&parts[n - 1])))
    }
}

proof fn lemma_node_stays(v: Vol, ps: Seq<Seq<char>>, k: int, n: int)
    requires
        0 <= k <= n,
        !(node_upto(v, ps, k) matches Ok(Some(_))),
    ensures
        node_upto(v, ps, n) == node_upto(v, ps, k),
    decreases n,
{
    if n > k {
        lemma_node_stays(v, ps, k, n - 1);
    }
}

proof fn lemma_dir_stays(v: Vol, ps: Seq<Seq<char>>, k: int, n: int)
    requires
        0 <= k <= n,
        dir_upto(v, ps, k) is Err,
    ensures
        dir_upto(v, ps, n) == dir_upto(v, ps, k),
    decreases n,
{
    if n > k {
        lemma_dir_stays(v, ps, k, n - 1);
    }
}

// ---------------------------------------------------------------------------
// Listing and metadata
// ---------------------------------------------------------------------------

/// The lines of the first `n` records; free ones, `.` and `..` are left out.
pub open spec fn lines(v: Vol, rs: Seq<Record>, n: int) -> Result<Seq<Line>, FsError>
    decreases n,
{
    if n <= 0 {
        Ok(Seq::empty())
    } else {
        match lines(v, rs, n - 1) {
            Err(e) => Err(e),
            Ok(front) => if rs[n - 1].ino == 0 || is_dots(rs[n - 1].name) {
                Ok(front)
            } else {
                match inode(v, rs[n - 1].ino) {
                    Err(e) => Err(e),
                    Ok(i) => Ok(
                        front.push(
                            Line { name: rs[n - 1].name, size: i.size as u64, is_dir: i.is_dir() },
                        ),
                    ),
                }
            },
        }
    }
}

/// The listing of a path.
pub open spec fn listing(v: Vol, path: Seq<char>) -> Result<Seq<Line>, FsError> {
    match node_at(v, path) {
        Err(e) => Err(e),
        Ok(None) => Err(FsError::NotFound),
        Ok(Some(dir)) => if !dir.is_dir() {
            Err(FsError::NotSupported)
        } else {
            match dir_records(v, dir) {
                Err(e) => Err(e),
                Ok(rs) => lines(v, rs, rs.len() as int),
            }
        },
    }
}

/// What `stat` answers.
pub open spec fn status(v: Vol, path: Seq<char>) -> Result<FileStat, FsError> {
    match node_at(v, path) {
        Err(e) => Err(e),
        Ok(None) => Err(FsError::NotFound),
        Ok(Some(i)) => Ok(FileStat { size: i.size as u64, is_dir: i.is_dir() }),
    }
}

/// `.` or `..`?
fn dots_name(s: &String) -> (r: bool)
    ensures
        r == is_dots(s@),
{
    crate::vfs::dots(&crate::vfs::chars_of(s.as_str()))
}

proof fn lemma_lines_fail(v: Vol, rs: Seq<Record>, k: int, n: int)
    requires
        0 <= k <= n,
        lines(v, rs, k) is Err,
    ensures
        lines(v, rs, n) == lines(v, rs, k),
    decreases n,
{
    if n > k {
        lemma_lines_fail(v, rs, k, n - 1);
    }
}

impl Ext2 {
    /// The listing of the directory at `path`.
    pub fn list_path(&self, dev: &AtaDrive, path: &str) -> (r: Result<Vec<DirEntry>, FsError>)
        requires
            dev.wf(),
        ensures
            reads(disk(*dev), listing_view(r), listing(vol(*self, *dev), path@)),
    {
        let dir = match self.resolve(dev, path) {
            Err(e) => {
                return Err(e);
            },
            Ok(None) => {
                return Err(FsError::NotFound);
            },
            Ok(Some(i)) => i,
        };
        if !is_dir(dir.mode) {
            return Err(FsError::NotSupported);
        }
        let es = match self.dir_entries(dev, &dir) {
            Err(e) => {
                return Err(e);
            },
            Ok(v) => v,
        };
        let ghost v = vol(*self, *dev);
        let ghost all = records_view(es@);
        let mut out: Vec<DirEntry> = Vec::new();
        let mut k: usize = 0;
        assert(lines_view(out@) =~= Seq::<Line>::empty());
        while k < es.len()
            invariant
                dev.wf(),
                v == vol(*self, *dev),
                k <= es@.len(),
                all == records_view(es@),
                node_at(v, path@) == Ok::<Option<InodeView>, FsError>(Some(dir@)),
                dir@.is_dir(),
                dir_records(v, dir@) == Ok::<Seq<Record>, FsError>(all),
                lines(v, all, k as int) == Ok::<Seq<Line>, FsError>(lines_view(out@)),
            decreases es@.len() - k,
        {
            let e = &es[k];
            assert(all[k as int] == es@[k as int]@);
            if e.ino != 0 && !dots_name(&e.name) {
                match self.read_inode(dev, e.ino) {
                    Err(x) => {
                        proof {
                            lemma_lines_fail(v, all, k + 1, all.len() as int);
                        }
                        return Err(x);
                    },
                    Ok(i) => {
                        let ghost before = lines_view(out@);
                        let line = DirEntry {
                            name: e.name.clone(),
                            size: i.size as u64,
                            is_dir: is_dir(i.mode),
                        };
                        out.push(line);
                        assert(lines_view(out@) =~= before.push(
                            Line { name: e.name@, size: i.size as u64, is_dir: i@.is_dir() },
                        ));
                    },
                }
            }
            k += 1;
        }
        Ok(out)
    }

    /// Does `path` name something?
    pub fn open_path(&self, dev: &AtaDrive, path: &str) -> (r: Result<(), FsError>)
        requires
            dev.wf(),
        ensures
            reads(
                disk(*dev),
                r,
                match node_at(vol(*self, *dev), path@) {
                    Err(e) => Err(e),
                    Ok(None) => Err(FsError::NotFound),
                    Ok(Some(_)) => Ok(()),
                },
            ),
    {
        match self.resolve(dev, path) {
            Err(e) => Err(e),
            Ok(None) => Err(FsError::NotFound),
            Ok(Some(_)) => Ok(()),
        }
    }

    /// Size and kind of what `path` names.
    pub fn stat(&self, dev: &AtaDrive, path: &str) -> (r: Result<FileStat, FsError>)
        requires
            dev.wf(),
        ensures
            reads(disk(*dev), r, status(vol(*self, *dev), path@)),
    {
        match self.resolve(dev, path) {
            Err(e) => Err(e),
            Ok(None) => Err(FsError::NotFound),
            Ok(Some(i)) => Ok(FileStat { size: i.size as u64, is_dir: is_dir(i.mode) }),
        }
    }
}

// ---------------------------------------------------------------------------
// Reading
// ---------------------------------------------------------------------------

/// The bytes `pos..end` of a file; holes read as zeros.
pub open spec fn gathered(v: Vol, i: InodeView, pos: int, end: int) -> Result<Seq<u8>, FsError>
    decreases end - pos,
{
    if pos >= end {
        Ok(Seq::empty())
    } else {
        let room = 1024 - pos % 1024;
        let take = if room < end - pos {
            room
        } else {
            end - pos
        };
        match mapped(v, i, pos / 1024) {
            Err(e) => Err(e),
            Ok(phys) => {
                let here = if phys == 0 {
                    Ok(Seq::new(take as nat, |k: int| 0u8))
                } else {
                    match block(v, phys as int) {
                        Err(e) => Err(e),
                        Ok(b) => Ok(b.subrange(pos % 1024, pos % 1024 + take)),
                    }
                };
                match here {
                    Err(e) => Err(e),
                    Ok(h) => match gathered(v, i, pos + take, end) {
                        Err(e) => Err(e),
                        Ok(rest) => Ok(h + rest),
                    },
                }
            },
        }
    }
}

/// At most `n` bytes of a file from `off` on.
pub open spec fn file_part(v: Vol, i: InodeView, off: int, n: int) -> Result<Seq<u8>, FsError> {
    if off >= i.size || n == 0 {
        Ok(Seq::empty())
    } else {
        gathered(
            v,
            i,
            off,
            if off + n < i.size {
                off + n
            } else {
                i.size as int
            },
        )
    }
}

/// What a read of `n` bytes of `path` from `off` on gives.
pub open spec fn contents(v: Vol, path: Seq<char>, off: int, n: int) -> Result<Seq<u8>, FsError> {
    match node_at(v, path) {
        Err(e) => Err(e),
        Ok(None) => Err(FsError::NotFound),
        Ok(Some(i)) => if i.is_dir() {
            Err(FsError::NotSupported)
        } else {
            file_part(v, i, off, n)
        },
    }
}

/// The bytes with `front` before them.
pub open spec fn with_front(front: Seq<u8>, rest: Result<Seq<u8>, FsError>) -> Result<
    Seq<u8>,
    FsError,
> {
    match rest {
        Err(e) => Err(e),
        Ok(s) => Ok(front + s),
    }
}

impl Ext2 {
    /// At most `n` bytes of a file from `off` on.
    fn read_inode_at(&self, dev: &AtaDrive, i: &Inode, off: u64, n: usize) -> (r: Result<
        Vec<u8>,
        FsError,
    >)
        requires
            dev.wf(),
        ensures
            reads(
                disk(*dev),
                bytes_view(r),
                file_part(vol(*self, *dev), i@, off as int, n as int),
            ),
            r matches Ok(v) ==> v@.len() <= n,
    {
        let ghost v = vol(*self, *dev);
        let mut out: Vec<u8> = Vec::new();
        assert(out@ =~= Seq::<u8>::empty());
        let size = i.size as u64;
        if off >= size || n == 0 {
            return Ok(out);
        }
        let end = if (n as u64) < size - off {
            off + n as u64
        } else {
            size
        };
        let ghost want = gathered(v, i@, off as int, end as int);
        proof {
            if let Ok(s) = want {
                assert(out@ + s =~= s);
            }
        }
        let mut pos = off;
        while pos < end
            invariant
                dev.wf(),
                v == vol(*self, *dev),
                off <= pos <= end,
                end <= i.size,
                end - off <= n,
                out@.len() == pos - off,
                want == gathered(v, i@, off as int, end as int),
                want == file_part(v, i@, off as int, n as int),
                with_front(out@, gathered(v, i@, pos as int, end as int)) == want,
            decreases end - pos,
        {
            let inoff = (pos % 1024) as usize;
            let room = 1024 - inoff as u64;
            let take = if room < end - pos {
                room
            } else {
                end - pos
            };
            let phys = match self.map_block(dev, i, pos / 1024) {
                Err(e) => {
                    return Err(e);
                },
                Ok(p) => p,
            };
            let mut here = if phys == 0 {
                zeros(take as usize)
            } else {
                match self.read_block(dev, phys as u64) {
                    Err(e) => {
                        return Err(e);
                    },
                    Ok(b) => copy_range(b.as_slice(), inoff, inoff + take as usize),
                }
            };
            let ghost before = out@;
            let ghost got = here@;
            out.append(&mut here);
            proof {
                assert(out@ =~= before + got);
                if let Ok(rest) = gathered(v, i@, pos + take, end as int) {
                    assert(before + (got + rest) =~= out@ + rest);
                }
            }
            pos += take;
        }
        assert(out@ + Seq::<u8>::empty() =~= out@);
        Ok(out)
    }

    /// Read from `path` at `off` into `buf`; the number of bytes read.
    pub fn read_at_path(&self, dev: &AtaDrive, path: &str, off: u64, buf: &mut [u8]) -> (r: Result<
        usize,
        FsError,
    >)
        requires
            dev.wf(),
        ensures
            final(buf)@.len() == old(buf)@.len(),
            r matches Ok(n) ==> n <= old(buf)@.len(),
            match r {
                Ok(n) => exists|x: Seq<u8>|
                    {
                        &&& contents(
                            vol(*self, *dev),
                            path@,
                            off as int,
                            old(buf)@.len() as int,
                        ) == Ok::<Seq<u8>, FsError>(x)
                        &&& x.len() == n
                        &&& final(buf)@ == #[trigger] splice(old(buf)@, 0, x)
                    },
                Err(e) => fails_as(disk(*dev), r, contents(
                    vol(*self, *dev),
                    path@,
                    off as int,
                    old(buf)@.len() as int,
                ) == Err::<Seq<u8>, FsError>(e)),
            },
    {
        let i = match self.resolve(dev, path) {
            Err(e) => {
                return Err(e);
            },
            Ok(None) => {
                return Err(FsError::NotFound);
            },
            Ok(Some(i)) => i,
        };
        if is_dir(i.mode) {
            return Err(FsError::NotSupported);
        }
        match self.read_inode_at(dev, &i, off, buf.len()) {
            Err(e) => Err(e),
            Ok(x) => {
                put_bytes(buf, 0, x.as_slice());
                Ok(x.len())
            },
        }
    }
}

// ---------------------------------------------------------------------------
// Adding names
// ---------------------------------------------------------------------------

/// The bytes that a record for a name of `n` bytes takes.
pub open spec fn span_of(n: int) -> int {
    (8 + n + 3) / 4 * 4
}

/// The bytes that a record's own name takes.
pub open spec fn own_span(r: Record) -> int {
    span_of(vstd::utf8::encode_utf8(r.name).len() as int)
}

/// A block with a record written at `o`.
pub open spec fn record_put(b: Seq<u8>, o: int, ino: u32, name: Seq<u8>, rec: int) -> Seq<u8> {
    let x = splice(splice(b, o, le32_bytes(ino as int)), o + 4, le16_bytes(rec));
    splice(x.update(o + 6, name.len() as u8).update(o + 7, 0), o + 8, name)
}

/// The first record from number `k` on with room for `need` bytes. A live
/// record shorter than its own name is damage.
pub open spec fn roomy(rs: Seq<Record>, need: int, k: int) -> Result<Option<int>, FsError>
    decreases rs.len() - k,
{
    if k >= rs.len() {
        Ok(None)
    } else if rs[k].ino != 0 && own_span(rs[k]) > rs[k].rec_len {
        Err(FsError::BadFs)
    } else if (if rs[k].ino == 0 {
        rs[k].rec_len
    } else {
        rs[k].rec_len - own_span(rs[k])
    }) < need {
        roomy(rs, need, k + 1)
    } else {
        Ok(Some(k))
    }
}

/// A directory block with a new record in the room of record `r`: a free
/// record is split where the rest can be one, a live one is cut down to its
/// own span and the new one takes all that follows.
pub open spec fn record_added(b: Seq<u8>, r: Record, name: Seq<u8>, target: u32) -> Seq<u8> {
    let o = r.offset % 1024;
    let need = span_of(name.len() as int);
    if r.ino == 0 {
        let rest = r.rec_len - need;
        if rest >= 8 {
            record_put(record_put(b, o, target, name, need), o + need, 0, Seq::empty(), rest)
        } else {
            record_put(b, o, target, name, r.rec_len)
        }
    } else {
        let own = own_span(r);
        record_put(
            splice(b, o + 4, le16_bytes(own)),
            o + own,
            target,
            name,
            r.rec_len - own,
        )
    }
}

/// Put `name` for the inode `target` into a new block of a directory.
pub open spec fn dir_extended(v: Vol, dir: InodeView, name: Seq<u8>, target: u32) -> Res<()> {
    let x = ensured(v, dir, dir.size as int / 1024);
    match x.r {
        Err(e) => Res { vol: x.vol, r: Err(e) },
        Ok((d, phys)) => {
            let longer = InodeView { size: ((d.size + 1024) % 0x1_0000_0000) as u32, ..d };
            let w = with_inode(x.vol, longer);
            if w.r is Err {
                w
            } else {
                with_block(w.vol, phys as int, record_put(blank(), 0, target, name, 1024))
            }
        },
    }
}

/// Put `name` for the inode `target` into a directory: in the room of a
/// record, or in a new block.
pub open spec fn name_added(v: Vol, dir: InodeView, name: Seq<u8>, target: u32) -> Res<()> {
    match dir_records(v, dir) {
        Err(e) => fails(v, e),
        Ok(rs) => match roomy(rs, span_of(name.len() as int), 0) {
            Err(e) => fails(v, e),
            Ok(Some(k)) => match mapped(v, dir, rs[k].offset / 1024) {
                Err(e) => fails(v, e),
                Ok(phys) => if phys == 0 {
                    fails(v, FsError::BadFs)
                } else {
                    match block(v, phys as int) {
                        Err(e) => fails(v, e),
                        Ok(b) => with_block(v, phys as int, record_added(b, rs[k], name, target)),
                    }
                },
            },
            Ok(None) => dir_extended(v, dir, name, target),
        },
    }
}

/// A new inode.
pub open spec fn fresh_inode(num: u32, mode: u16) -> InodeView {
    InodeView { ino: num, mode, size: 0, sectors: 0, blocks: Seq::new(15, |i: int| 0u32) }
}

/// Create a plain file in `parent`.
pub open spec fn file_made(v: Vol, parent: InodeView, name: Seq<char>) -> Res<InodeView> {
    let bytes = vstd::utf8::encode_utf8(name);
    if bytes.len() > 255 {
        fails(v, FsError::NotSupported)
    } else {
        let a = inode_taken(v);
        match a.r {
            Err(e) => Res { vol: a.vol, r: Err(e) },
            Ok(num) => {
                let i = fresh_inode(num, MODE_REG);
                let w = with_inode(a.vol, i);
                if w.r is Err {
                    answer(w, i)
                } else {
                    answer(name_added(w.vol, parent, bytes, num), i)
                }
            },
        }
    }
}

/// The first block of a new directory.
pub open spec fn new_dir_block(num: u32, parent: u32) -> Seq<u8> {
    record_put(record_put(blank(), 0, num, seq![0x2Eu8], 12), 12, parent, seq![0x2Eu8, 0x2Eu8], 1012)
}

/// Create a directory in `parent`.
pub open spec fn dir_made(v: Vol, parent: InodeView, name: Seq<char>) -> Res<()> {
    let bytes = vstd::utf8::encode_utf8(name);
    if bytes.len() > 255 {
        fails(v, FsError::NotSupported)
    } else {
        let a = inode_taken(v);
        match a.r {
            Err(e) => Res { vol: a.vol, r: Err(e) },
            Ok(num) => {
                let x = ensured(a.vol, fresh_inode(num, MODE_DIR), 0);
                match x.r {
                    Err(e) => Res { vol: x.vol, r: Err(e) },
                    Ok((j, phys)) => {
                        let i = InodeView { size: 1024, ..j };
                        let w = with_block(x.vol, phys as int, new_dir_block(num, parent.ino));
                        if w.r is Err {
                            w
                        } else {
                            let y = with_inode(w.vol, i);
                            if y.r is Err {
                                y
                            } else {
                                name_added(y.vol, parent, bytes, num)
                            }
                        }
                    },
                }
            },
        }
    }
}

/// Create the directory at `path`.
#[verifier::opaque]
pub open spec fn dir_made_at(v: Vol, path: Seq<char>) -> Res<()> {
    match node_at(v, path) {
        Err(e) => fails(v, e),
        Ok(Some(_)) => fails(v, FsError::Exists),
        Ok(None) => match parent_of(v, path) {
            Err(e) => fails(v, e),
            Ok((parent, name)) => if !parent.is_dir() {
                fails(v, FsError::BadFs)
            } else {
                dir_made(v, parent, name)
            },
        },
    }
}

/// The bytes of a name.
fn name_bytes(s: &String) -> (r: Vec<u8>)
    ensures
        r@ == vstd::utf8::encode_utf8(s@),
{
    let b = s.as_str().as_bytes();
    let r = copy_range(b, 0, b.len());
    assert(r@ =~= b@);
    r
}

fn name_len(s: &String) -> (r: usize)
    ensures
        r == vstd::utf8::encode_utf8(s@).len(),
{
    s.as_str().as_bytes().len()
}

fn write_entry(b: &mut Vec<u8>, o: usize, ino: u32, name: &Vec<u8>, rec: u16)
    requires
        old(b)@.len() == 1024,
        name@.len() <= 255,
        o + 8 + name@.len() <= 1024,
    ensures
        final(b)@ == record_put(old(b)@, o as int, ino, name@, rec as int),
        final(b)@.len() == 1024,
{
    put_u32(b.as_mut_slice(), o, ino);
    put_u16(b.as_mut_slice(), o + 4, rec);
    b[o + 6] = name.len() as u8;
    b[o + 7] = 0;
    put_bytes(b.as_mut_slice(), o + 8, name.as_slice());
}

/// Is there room for `need` bytes in this record?
fn has_room(e: &DirEnt, need: usize) -> (r: Result<bool, FsError>)
    ensures
        match r {
            Err(x) => e.ino != 0 && own_span(e@) > e.rec_len && x == FsError::BadFs,
            Ok(b) => (e.ino == 0 || own_span(e@) <= e.rec_len) && b == ((if e.ino == 0 {
                e.rec_len as int
            } else {
                e.rec_len - own_span(e@)
            }) >= need),
        },
{
    if e.ino == 0 {
        return Ok(e.rec_len as usize >= need);
    }
    let n = name_len(&e.name);
    if n > 65536 {
        return Err(FsError::BadFs);
    }
    let own = (8 + n + 3) / 4 * 4;
    if own > e.rec_len as usize {
        return Err(FsError::BadFs);
    }
    Ok(e.rec_len as usize - own >= need)
}

/// Put a new record into the room of record `e`.
fn place_record(b: &mut Vec<u8>, e: &DirEnt, name: &Vec<u8>, target: u32)
    requires
        old(b)@.len() == 1024,
        name@.len() <= 255,
        e.rec_len >= 8,
        e.offset % 1024 + e.rec_len <= 1024,
        e.ino != 0 ==> own_span(e@) <= e.rec_len,
        (if e.ino == 0 {
            e.rec_len as int
        } else {
            e.rec_len - own_span(e@)
        }) >= span_of(name@.len() as int),
    ensures
        final(b)@ == record_added(old(b)@, e@, name@, target),
        final(b)@.len() == 1024,
{
    let need = (8 + name.len() + 3) / 4 * 4;
    let o = (e.offset % 1024) as usize;
    let rec = e.rec_len as usize;
    if e.ino == 0 {
        let rest = rec - need;
        if rest >= 8 {
            write_entry(b, o, target, name, need as u16);
            let none: Vec<u8> = Vec::new();
            assert(none@ =~= Seq::<u8>::empty());
            write_entry(b, o + need, 0, &none, rest as u16);
        } else {
            write_entry(b, o, target, name, e.rec_len);
        }
    } else {
        let own = (8 + name_len(&e.name) + 3) / 4 * 4;
        put_u16(b.as_mut_slice(), o + 4, own as u16);
        write_entry(b, o + own, target, name, (rec - own) as u16);
    }
}

/// Every record lies within its block.
pub open spec fn records_fit(rs: Seq<Record>) -> bool {
    forall|k: int|
        0 <= k < rs.len() ==> (#[trigger] rs[k]).rec_len >= 8 && rs[k].offset % 1024
            + rs[k].rec_len <= 1024
}

proof fn lemma_block_records_fit(b: Seq<u8>, o: int, base: int)
    requires
        0 <= o,
        base % 1024 == 0,
        block_records(b, o, base) is Ok,
    ensures
        records_fit(block_records(b, o, base)->Ok_0),
    decreases 1024 - o,
{
    if o + 8 <= 1024 {
        lemma_block_records_fit(b, o + le16(b, o + 4), base);
        let rest = block_records(b, o + le16(b, o + 4), base)->Ok_0;
        let all = block_records(b, o, base)->Ok_0;
        assert forall|k: int| 0 <= k < all.len() implies (#[trigger] all[k]).rec_len >= 8
            && all[k].offset % 1024 + all[k].rec_len <= 1024 by {
            if k > 0 {
                assert(all[k] == rest[k - 1]);
            }
        }
    }
}

proof fn lemma_records_fit(v: Vol, dir: InodeView, n: int)
    requires
        records(v, dir, n) is Ok,
    ensures
        records_fit(records(v, dir, n)->Ok_0),
    decreases n,
{
    if n > 0 {
        lemma_records_fit(v, dir, n - 1);
        let phys = mapped(v, dir, n - 1)->Ok_0;
        if phys != 0 {
            let b = block(v, phys as int)->Ok_0;
            lemma_block_records_fit(b, 0, 1024 * (n - 1));
        }
    }
}

impl Ext2 {
    /// The first record with room for `need` bytes.
    fn find_room(&self, es: &Vec<DirEnt>, need: usize) -> (r: Result<Option<usize>, FsError>)
        ensures
            match r {
                Err(e) => roomy(records_view(es@), need as int, 0) == Err::<Option<int>, FsError>(e)
                    && e == FsError::BadFs,
                Ok(None) => roomy(records_view(es@), need as int, 0) == Ok::<
                    Option<int>,
                    FsError,
                >(None),
                Ok(Some(k)) => roomy(records_view(es@), need as int, 0) == Ok::<
                    Option<int>,
                    FsError,
                >(Some(k as int)) && k < es@.len() && (es@[k as int].ino == 0 || own_span(
                    es@[k as int]@,
                ) <= es@[k as int].rec_len) && (if es@[k as int].ino == 0 {
                    es@[k as int].rec_len as int
                } else {
                    es@[k as int].rec_len - own_span(es@[k as int]@)
                }) >= need,
            },
    {
        let ghost all = records_view(es@);
        let mut k: usize = 0;
        while k < es.len()
            invariant
                k <= es@.len(),
                all == records_view(es@),
                roomy(all, need as int, 0) == roomy(all, need as int, k as int),
            decreases es@.len() - k,
        {
            assert(all[k as int] == es@[k as int]@);
            match has_room(&es[k], need) {
                Err(e) => {
                    return Err(e);
                },
                Ok(b) => {
                    if b {
                        return Ok(Some(k));
                    }
                },
            }
            k += 1;
        }
        Ok(None)
    }

    /// Put `name` for the inode `target` into a directory.
    fn add_dir_entry(&mut self, dev: &mut AtaDrive, dir: &Inode, name: &Vec<u8>, target: u32) -> (r: Result<
        (),
        FsError,
    >)
        requires
            old(dev).wf(),
            name@.len() <= 255,
            dir.ino >= 1,
        ensures
            final(dev).wf(),
            acts(
                vol(*old(self), *old(dev)),
                vol(*final(self), *final(dev)),
                r,
                name_added(vol(*old(self), *old(dev)), dir@, name@, target),
            ),
            only_grew(disk(*old(dev)), disk(*final(dev))),
    {
        let es = match self.dir_entries(dev, dir) {
            Err(e) => {
                return Err(e);
            },
            Ok(v) => v,
        };
        let need = (8 + name.len() + 3) / 4 * 4;
        match self.find_room(&es, need) {
            Err(e) => Err(e),
            Ok(Some(k)) => {
                proof {
                    lemma_records_fit(vol(*self, *dev), dir@, dir.size as int / 1024);
                    let rs = records_view(es@);
                    assert(rs[k as int] == es@[k as int]@);
                }
                let phys = match self.map_block(dev, dir, es[k].offset / 1024) {
                    Err(e) => {
                        return Err(e);
                    },
                    Ok(p) => p,
                };
                if phys == 0 {
                    return Err(FsError::BadFs);
                }
                let mut b = match self.read_block(dev, phys as u64) {
                    Err(e) => {
                        return Err(e);
                    },
                    Ok(b) => b,
                };
                place_record(&mut b, &es[k], name, target);
                self.write_block(dev, phys as u64, &b)
            },
            Ok(None) => self.extend_dir(dev, dir, name, target),
        }
    }

    /// Put `name` into a new block of a directory that has no room.
    fn extend_dir(&mut self, dev: &mut AtaDrive, dir: &Inode, name: &Vec<u8>, target: u32) -> (r: Result<
        (),
        FsError,
    >)
        requires
            old(dev).wf(),
            name@.len() <= 255,
            dir.ino >= 1,
        ensures
            final(dev).wf(),
            acts(
                vol(*old(self), *old(dev)),
                vol(*final(self), *final(dev)),
                r,
                dir_extended(vol(*old(self), *old(dev)), dir@, name@, target),
            ),
            only_grew(disk(*old(dev)), disk(*final(dev))),
    {
        let (d, phys) = match self.ensure_block(dev, *dir, (dir.size / 1024) as u64) {
            Err(e) => {
                return Err(e);
            },
            Ok(p) => p,
        };
        let mut longer = d;
        longer.size = if d.size >= 0xFFFF_FC00 {
            d.size - 0xFFFF_FC00
        } else {
            d.size + 1024
        };
        assert(longer@ =~= InodeView {
            size: ((d.size + 1024) % 0x1_0000_0000) as u32,
            ..d@
        });
        match self.write_inode(dev, &longer) {
            Err(e) => {
                return Err(e);
            },
            Ok(_) => {},
        }
        let mut fresh = zeros(1024);
        assert(fresh@ =~= blank());
        write_entry(&mut fresh, 0, target, name, 1024);
        self.write_block(dev, phys as u64, &fresh)
    }

    /// Create a plain file in `parent`.
    fn create_in(&mut self, dev: &mut AtaDrive, parent: &Inode, name: &String) -> (r: Result<
        Inode,
        FsError,
    >)
        requires
            old(dev).wf(),
            parent.ino >= 1,
        ensures
            final(dev).wf(),
            acts(
                vol(*old(self), *old(dev)),
                vol(*final(self), *final(dev)),
                inode_view(r),
                file_made(vol(*old(self), *old(dev)), parent@, name@),
            ),
            only_grew(disk(*old(dev)), disk(*final(dev))),
            r matches Ok(i) ==> i.ino >= 1,
    {
        let bytes = name_bytes(name);
        if bytes.len() > 255 {
            return Err(FsError::NotSupported);
        }
        let num = match self.alloc_inode(dev) {
            Err(e) => {
                return Err(e);
            },
            Ok(n) => n,
        };
        let i = Inode { ino: num, mode: MODE_REG, size: 0, sectors: 0, blocks: [0; 15] };
        assert(i@ =~= fresh_inode(num, MODE_REG));
        match self.write_inode(dev, &i) {
            Err(e) => {
                return Err(e);
            },
            Ok(_) => {},
        }
        match self.add_dir_entry(dev, parent, &bytes, num) {
            Err(e) => Err(e),
            Ok(_) => Ok(i),
        }
    }

    /// Create a directory in `parent`.
    fn mkdir_in(&mut self, dev: &mut AtaDrive, parent: &Inode, name: &String) -> (r: Result<
        (),
        FsError,
    >)
        requires
            old(dev).wf(),
            parent.ino >= 1,
        ensures
            final(dev).wf(),
            acts(
                vol(*old(self), *old(dev)),
                vol(*final(self), *final(dev)),
                r,
                dir_made(vol(*old(self), *old(dev)), parent@, name@),
            ),
            only_grew(disk(*old(dev)), disk(*final(dev))),
    {
        let bytes = name_bytes(name);
        if bytes.len() > 255 {
            return Err(FsError::NotSupported);
        }
        let num = match self.alloc_inode(dev) {
            Err(e) => {
                return Err(e);
            },
            Ok(n) => n,
        };
        let bare = Inode { ino: num, mode: MODE_DIR, size: 0, sectors: 0, blocks: [0; 15] };
        assert(bare@ =~= fresh_inode(num, MODE_DIR));
        let (j, phys) = match self.ensure_block(dev, bare, 0) {
            Err(e) => {
                return Err(e);
            },
            Ok(p) => p,
        };
        let mut i = j;
        i.size = 1024;
        assert(i@ =~= InodeView { size: 1024, ..j@ });
        let mut b = zeros(1024);
        assert(b@ =~= blank());
        let dot: Vec<u8> = vec![0x2E];
        let dotdot: Vec<u8> = vec![0x2E, 0x2E];
        assert(dot@ =~= seq![0x2Eu8]);
        assert(dotdot@ =~= seq![0x2Eu8, 0x2Eu8]);
        write_entry(&mut b, 0, num, &dot, 12);
        write_entry(&mut b, 12, parent.ino, &dotdot, 1012);
        match self.write_block(dev, phys as u64, &b) {
            Err(e) => {
                return Err(e);
            },
            Ok(_) => {},
        }
        match self.write_inode(dev, &i) {
            Err(e) => {
                return Err(e);
            },
            Ok(_) => {},
        }
        self.add_dir_entry(dev, parent, &bytes, num)
    }

    /// Create the directory at `path`: its parent must exist and its name must
    /// be free.
    pub fn mkdir(&mut self, dev: &mut AtaDrive, path: &str) -> (r: Result<(), FsError>)
        requires
            old(dev).wf(),
        ensures
            final(dev).wf(),
            acts(
                vol(*old(self), *old(dev)),
                vol(*final(self), *final(dev)),
                r,
                dir_made_at(vol(*old(self), *old(dev)), path@),
            ),
            only_grew(disk(*old(dev)), disk(*final(dev))),
    {
        proof {
            reveal(dir_made_at);
        }
        match self.resolve(dev, path) {
            Err(e) => {
                return Err(e);
            },
            Ok(Some(_)) => {
                return Err(FsError::Exists);
            },
            Ok(None) => {},
        }
        let (parent, name) = match self.resolve_parent(dev, path) {
            Err(e) => {
                return Err(e);
            },
            Ok(p) => p,
        };
        if !is_dir(parent.mode) {
            return Err(FsError::BadFs);
        }
        proof {
            lemma_parent_ino(vol(*self, *dev), path@);
        }
        self.mkdir_in(dev, &parent, &name)
    }
}

proof fn lemma_dir_ino(v: Vol, ps: Seq<Seq<char>>, n: int)
    requires
        dir_upto(v, ps, n) is Ok,
    ensures
        dir_upto(v, ps, n)->Ok_0.ino >= 1,
    decreases n,
{
    if n > 0 {
        lemma_dir_ino(v, ps, n - 1);
    }
}

proof fn lemma_parent_ino(v: Vol, path: Seq<char>)
    requires
        parent_of(v, path) is Ok,
    ensures
        parent_of(v, path) matches Ok(p) ==> p.0.ino >= 1,
{
    let ps = path_parts(path)->0;
    lemma_dir_ino(v, ps, ps.len() - 1);
}

proof fn lemma_node_ino(v: Vol, ps: Seq<Seq<char>>, n: int)
    ensures
        node_upto(v, ps, n) matches Ok(Some(i)) ==> i.ino >= 1,
    decreases n,
{
    if n > 0 {
        lemma_node_ino(v, ps, n - 1);
    }
}

// ---------------------------------------------------------------------------
// Writing
// ---------------------------------------------------------------------------

/// Write `data` at `pos` of a file: blocks are added as needed, and those that
/// are written in part are read first.
pub open spec fn data_put(v: Vol, i: InodeView, pos: int, data: Seq<u8>) -> Res<InodeView>
    decreases data.len(),
{
    let room = 1024 - pos % 1024;
    let take = if room < data.len() {
        room
    } else {
        data.len() as int
    };
    if data.len() == 0 || take <= 0 {
        Res { vol: v, r: Ok(i) }
    } else {
        let x = ensured(v, i, pos / 1024);
        match x.r {
            Err(e) => Res { vol: x.vol, r: Err(e) },
            Ok((j, phys)) => {
                let bytes = if take < 1024 {
                    match block(x.vol, phys as int) {
                        Err(e) => Err(e),
                        Ok(b) => Ok(splice(b, pos % 1024, data.take(take))),
                    }
                } else {
                    Ok(data.take(take))
                };
                match bytes {
                    Err(e) => Res { vol: x.vol, r: Err(e) },
                    Ok(b) => {
                        let w = with_block(x.vol, phys as int, b);
                        if w.r is Err {
                            answer(w, j)
                        } else {
                            data_put(w.vol, j, pos + take, data.skip(take))
                        }
                    },
                }
            },
        }
    }
}

/// Write `data`, which is not empty, at `off` of a file.
pub open spec fn file_written(v: Vol, i: InodeView, off: int, data: Seq<u8>) -> Res<usize> {
    let p = data_put(v, i, off, data);
    match p.r {
        Err(e) => Res { vol: p.vol, r: Err(e) },
        Ok(j) => {
            let end = off + data.len();
            let k = if end > j.size {
                InodeView { size: end as u32, ..j }
            } else {
                j
            };
            answer(with_inode(p.vol, k), data.len() as usize)
        },
    }
}

/// The file that a write goes to: the one that `path` names, or a new one.
pub open spec fn write_target(v: Vol, path: Seq<char>) -> Res<InodeView> {
    match node_at(v, path) {
        Err(e) => fails(v, e),
        Ok(Some(i)) => if i.is_dir() {
            fails(v, FsError::NotSupported)
        } else {
            Res { vol: v, r: Ok(i) }
        },
        Ok(None) => match parent_of(v, path) {
            Err(e) => fails(v, e),
            Ok((parent, name)) => file_made(v, parent, name),
        },
    }
}

/// An empty write: it creates a missing file and does nothing else.
pub open spec fn touched(v: Vol, path: Seq<char>) -> Res<usize> {
    match node_at(v, path) {
        Err(e) => fails(v, e),
        Ok(Some(_)) => Res { vol: v, r: Ok(0) },
        Ok(None) => match parent_of(v, path) {
            Err(e) => fails(v, e),
            Ok((parent, name)) => {
                let m = file_made(v, parent, name);
                match m.r {
                    Err(e) => Res { vol: m.vol, r: Err(e) },
                    Ok(_) => Res { vol: m.vol, r: Ok(0) },
                }
            },
        },
    }
}

/// Write `data` at `off` of `path`, creating the file where it is missing.
#[verifier::opaque]
pub open spec fn written(v: Vol, path: Seq<char>, off: int, data: Seq<u8>) -> Res<usize> {
    if data.len() == 0 {
        touched(v, path)
    } else {
        let t = write_target(v, path);
        match t.r {
            Err(e) => Res { vol: t.vol, r: Err(e) },
            Ok(i) => file_written(t.vol, i, off, data),
        }
    }
}

/// The bytes that a file can hold.
pub const MAX_FILE: u64 = 67_383_296;

impl Ext2 {
    /// Write `data`, which is not empty, at `off` of a file.
    fn put_data(&mut self, dev: &mut AtaDrive, i: Inode, off: u64, data: &[u8]) -> (r: Result<
        Inode,
        FsError,
    >)
        requires
            old(dev).wf(),
            data@.len() > 0,
            i.ino >= 1,
        ensures
            final(dev).wf(),
            acts(
                vol(*old(self), *old(dev)),
                vol(*final(self), *final(dev)),
                inode_view(r),
                data_put(vol(*old(self), *old(dev)), i@, off as int, data@),
            ),
            only_grew(disk(*old(dev)), disk(*final(dev))),
            r matches Ok(j) ==> j.ino >= 1 && off + data@.len() <= MAX_FILE,
    {
        let total = data.len();
        let ghost v0 = vol(*self, *dev);
        if off >= MAX_FILE {
            reveal(ensured);
            return Err(FsError::NotSupported);
        }
        let mut cur = i;
        let mut done: usize = 0;
        assert(data@.skip(0) =~= data@);
        while done < total
            invariant
                dev.wf(),
                v0 == vol(*old(self), *old(dev)),
                total == data@.len(),
                done <= total,
                off + done <= MAX_FILE,
                cur.ino >= 1,
                only_grew(v0.disk, disk(*dev)),
                traced(v0.disk, disk(*dev)),
                data_put(vol(*self, *dev), cur@, off + done, data@.skip(done as int)) == data_put(
                    v0,
                    i@,
                    off as int,
                    data@,
                ),
            decreases total - done,
        {
            let pos = off + done as u64;
            let inoff = (pos % 1024) as usize;
            let room = 1024 - inoff;
            let left = total - done;
            let take = if room < left {
                room
            } else {
                left
            };
            let ghost rest = data@.skip(done as int);
            let ghost was = vol(*self, *dev);
            if pos >= MAX_FILE {
                reveal(ensured);
                return Err(FsError::NotSupported);
            }
            let (j, phys) = match self.ensure_block(dev, cur, pos / 1024) {
                Err(e) => {
                    return Err(e);
                },
                Ok(p) => p,
            };
            let part = copy_range(data, done, done + take);
            assert(part@ =~= rest.take(take as int));
            assert(data@.skip(done + take) =~= rest.skip(take as int));
            let bytes = if take < 1024 {
                match self.read_block(dev, phys as u64) {
                    Err(e) => {
                        return Err(e);
                    },
                    Ok(mut b) => {
                        put_bytes(b.as_mut_slice(), inoff, part.as_slice());
                        b
                    },
                }
            } else {
                part
            };
            match self.write_block(dev, phys as u64, &bytes) {
                Err(e) => {
                    return Err(e);
                },
                Ok(_) => {},
            }
            cur = j;
            done += take;
        }
        Ok(cur)
    }

    /// Write `data`, which is not empty, at `off` of a file.
    fn write_file(&mut self, dev: &mut AtaDrive, i: Inode, off: u64, data: &[u8]) -> (r: Result<
        usize,
        FsError,
    >)
        requires
            old(dev).wf(),
            data@.len() > 0,
            i.ino >= 1,
        ensures
            final(dev).wf(),
            acts(
                vol(*old(self), *old(dev)),
                vol(*final(self), *final(dev)),
                r,
                file_written(vol(*old(self), *old(dev)), i@, off as int, data@),
            ),
            only_grew(disk(*old(dev)), disk(*final(dev))),
    {
        let mut j = match self.put_data(dev, i, off, data) {
            Err(e) => {
                return Err(e);
            },
            Ok(j) => j,
        };
        let ghost before = j@;
        let end = off + data.len() as u64;
        if end > j.size as u64 {
            j.size = end as u32;
            assert(j@ =~= InodeView { size: end as u32, ..before });
        }
        match self.write_inode(dev, &j) {
            Err(e) => Err(e),
            Ok(_) => Ok(data.len()),
        }
    }

    /// Write `data` at `off` of `path`; a missing file is created in its
    /// existing directory.
    pub fn write_at(&mut self, dev: &mut AtaDrive, path: &str, off: u64, data: &[u8]) -> (r: Result<
        usize,
        FsError,
    >)
        requires
            old(dev).wf(),
        ensures
            final(dev).wf(),
            acts(
                vol(*old(self), *old(dev)),
                vol(*final(self), *final(dev)),
                r,
                written(vol(*old(self), *old(dev)), path@, off as int, data@),
            ),
            only_grew(disk(*old(dev)), disk(*final(dev))),
    {
        proof {
            reveal(written);
        }
        let ghost v = vol(*self, *dev);
        let here = match self.resolve(dev, path) {
            Err(e) => {
                return Err(e);
            },
            Ok(x) => x,
        };
        let i = match here {
            Some(i) => {
                if data.len() == 0 {
                    return Ok(0);
                }
                if is_dir(i.mode) {
                    return Err(FsError::NotSupported);
                }
                proof {
                    let ps = path_parts(path@)->0;
                    lemma_node_ino(v, ps, ps.len() as int);
                }
                i
            },
            None => {
                let (parent, name) = match self.resolve_parent(dev, path) {
                    Err(e) => {
                        return Err(e);
                    },
                    Ok(p) => p,
                };
                proof {
                    lemma_parent_ino(v, path@);
                }
                match self.create_in(dev, &parent, &name) {
                    Err(e) => {
                        return Err(e);
                    },
                    Ok(i) => {
                        if data.len() == 0 {
                            return Ok(0);
                        }
                        i
                    },
                }
            },
        };
        self.write_file(dev, i, off, data)
    }
}

// ---------------------------------------------------------------------------
// Removal and renaming
// ---------------------------------------------------------------------------

/// The pointers of a table that are not holes, of the first `n`.
pub open spec fn live_pointers(b: Seq<u8>, n: int) -> Seq<u32>
    decreases n,
{
    if n <= 0 {
        Seq::empty()
    } else if le32(b, 4 * (n - 1)) == 0 {
        live_pointers(b, n - 1)
    } else {
        live_pointers(b, n - 1).push(le32(b, 4 * (n - 1)) as u32)
    }
}

/// The direct blocks of an inode that are not holes, of the first `n`.
pub open spec fn live_direct(i: InodeView, n: int) -> Seq<u32>
    decreases n,
{
    if n <= 0 {
        Seq::empty()
    } else if i.blocks[n - 1] == 0 {
        live_direct(i, n - 1)
    } else {
        live_direct(i, n - 1).push(i.blocks[n - 1])
    }
}

/// The blocks behind the single indirect table, and the table.
pub open spec fn owned_single(v: Vol, tbl: u32) -> Result<Seq<u32>, FsError> {
    if tbl == 0 {
        Ok(Seq::empty())
    } else {
        match block(v, tbl as int) {
            Err(e) => Err(e),
            Ok(b) => Ok(live_pointers(b, 256).push(tbl)),
        }
    }
}

/// The blocks behind the first `n` pointers of the outer table.
pub open spec fn owned_inner(v: Vol, l1: Seq<u8>, n: int) -> Result<Seq<u32>, FsError>
    decreases n,
{
    if n <= 0 {
        Ok(Seq::empty())
    } else {
        match owned_inner(v, l1, n - 1) {
            Err(e) => Err(e),
            Ok(front) => match owned_single(v, le32(l1, 4 * (n - 1)) as u32) {
                Err(e) => Err(e),
                Ok(s) => Ok(front + s),
            },
        }
    }
}

/// The blocks behind the double indirect table, and the table.
pub open spec fn owned_double(v: Vol, tbl: u32) -> Result<Seq<u32>, FsError> {
    if tbl == 0 {
        Ok(Seq::empty())
    } else {
        match block(v, tbl as int) {
            Err(e) => Err(e),
            Ok(b) => match owned_inner(v, b, 256) {
                Err(e) => Err(e),
                Ok(s) => Ok(s.push(tbl)),
            },
        }
    }
}

/// Every block of a file, its tables included.
pub open spec fn owned(v: Vol, i: InodeView) -> Result<Seq<u32>, FsError> {
    match owned_single(v, i.blocks[12]) {
        Err(e) => Err(e),
        Ok(s) => match owned_double(v, i.blocks[13]) {
            Err(e) => Err(e),
            Ok(d) => Ok(live_direct(i, 12) + s + d),
        },
    }
}

/// The bitmap without the first `n` blocks of a list, and how many of them it
/// had.
pub open spec fn bits_freed(bits: Seq<u8>, list: Seq<u32>, n: int) -> (Seq<u8>, int)
    decreases n,
{
    if n <= 0 {
        (bits, 0)
    } else {
        let (b, c) = bits_freed(bits, list, n - 1);
        let k = list[n - 1] - 1;
        if is_set(b, k) {
            (without_bit(b, k), c + 1)
        } else {
            (b, c)
        }
    }
}

/// Every block number has a bit.
pub open spec fn all_in_map(list: Seq<u32>) -> bool {
    forall|k: int| 0 <= k < list.len() ==> 1 <= #[trigger] list[k] <= 8192
}

/// Give the blocks of a file back.
#[verifier::opaque]
pub open spec fn blocks_freed(v: Vol, i: InodeView) -> Res<()> {
    match owned(v, i) {
        Err(e) => fails(v, e),
        Ok(list) => if list.len() == 0 {
            Res { vol: v, r: Ok(()) }
        } else {
            match block(v, v.fs.block_bitmap as int) {
                Err(e) => fails(v, e),
                Ok(bits) => if !all_in_map(list) {
                    fails(v, FsError::BadFs)
                } else {
                    let (b, c) = bits_freed(bits, list, list.len() as int);
                    with_block(
                        Vol {
                            fs: Ext2 {
                                free_blocks: ((v.fs.free_blocks + c) % 0x1_0000_0000) as u32,
                                ..v.fs
                            },
                            disk: v.disk,
                        },
                        v.fs.block_bitmap as int,
                        b,
                    )
                },
            }
        },
    }
}

/// Give an inode back and sync the counts.
#[verifier::opaque]
pub open spec fn inode_freed(v: Vol, ino: u32) -> Res<()> {
    match block(v, v.fs.inode_bitmap as int) {
        Err(e) => fails(v, e),
        Ok(bits) => if ino > 8192 {
            fails(v, FsError::BadFs)
        } else {
            let had = is_set(bits, ino - 1);
            let more = Vol {
                fs: Ext2 {
                    free_inodes: if had {
                        ((v.fs.free_inodes + 1) % 0x1_0000_0000) as u32
                    } else {
                        v.fs.free_inodes
                    },
                    ..v.fs
                },
                disk: v.disk,
            };
            let w = with_block(
                more,
                v.fs.inode_bitmap as int,
                if had {
                    without_bit(bits, ino - 1)
                } else {
                    bits
                },
            );
            if w.r is Err {
                w
            } else {
                counts_synced(w.vol)
            }
        },
    }
}

/// The first record from number `k` on that names inode `ino`.
pub open spec fn record_of(rs: Seq<Record>, ino: u32, k: int) -> Option<int>
    decreases rs.len() - k,
{
    if k >= rs.len() {
        None
    } else if rs[k].ino == ino {
        Some(k)
    } else {
        record_of(rs, ino, k + 1)
    }
}

/// The record of inode `ino` in `parent`, its block and the block's bytes.
pub open spec fn record_home(v: Vol, parent: InodeView, ino: u32) -> Result<
    (Record, u32, Seq<u8>),
    FsError,
> {
    match dir_records(v, parent) {
        Err(e) => Err(e),
        Ok(rs) => match record_of(rs, ino, 0) {
            None => Err(FsError::BadFs),
            Some(k) => match mapped(v, parent, rs[k].offset / 1024) {
                Err(e) => Err(e),
                Ok(phys) => if phys == 0 {
                    Err(FsError::BadFs)
                } else {
                    match block(v, phys as int) {
                        Err(e) => Err(e),
                        Ok(b) => Ok((rs[k], phys, b)),
                    }
                },
            },
        },
    }
}

/// Remove the file at `path`: its record becomes a free one, and its blocks
/// and inode are given back.
pub open spec fn unlinked(v: Vol, path: Seq<char>) -> Res<()> {
    match node_at(v, path) {
        Err(e) => fails(v, e),
        Ok(None) => fails(v, FsError::NotFound),
        Ok(Some(i)) => if i.is_dir() {
            fails(v, FsError::IsDir)
        } else {
            match parent_of(v, path) {
                Err(e) => fails(v, e),
                Ok((parent, _)) => match record_home(v, parent, i.ino) {
                    Err(e) => fails(v, e),
                    Ok((r, phys, b)) => {
                        let o = r.offset % 1024;
                        let w = with_block(
                            v,
                            phys as int,
                            splice(b, o, le32_bytes(0)).update(o + 6, 0),
                        );
                        if w.r is Err {
                            w
                        } else {
                            let f = blocks_freed(w.vol, i);
                            if f.r is Err {
                                f
                            } else {
                                inode_freed(f.vol, i.ino)
                            }
                        }
                    },
                },
            }
        },
    }
}

/// Give what `from` names the name `to`, in the same directory.
pub open spec fn renamed(v: Vol, from: Seq<char>, to: Seq<char>) -> Res<()> {
    match node_at(v, from) {
        Err(e) => fails(v, e),
        Ok(None) => fails(v, FsError::NotFound),
        Ok(Some(i)) => match node_at(v, to) {
            Err(e) => fails(v, e),
            Ok(Some(_)) => fails(v, FsError::Exists),
            Ok(None) => match parent_of(v, from) {
                Err(e) => fails(v, e),
                Ok((home, _)) => match parent_of(v, to) {
                    Err(e) => fails(v, e),
                    Ok((dir, name)) => if dir.ino != home.ino {
                        fails(v, FsError::NotSupported)
                    } else {
                        record_renamed(v, home, i.ino, vstd::utf8::encode_utf8(name))
                    },
                },
            },
        },
    }
}

/// The record of inode `ino` in `home` with another name, where it fits.
pub open spec fn record_renamed(v: Vol, home: InodeView, ino: u32, name: Seq<u8>) -> Res<()> {
    match dir_records(v, home) {
        Err(e) => fails(v, e),
        Ok(rs) => match record_of(rs, ino, 0) {
            None => fails(v, FsError::BadFs),
            Some(k) => if name.len() > 255 || span_of(name.len() as int) > rs[k].rec_len {
                fails(v, FsError::NotSupported)
            } else {
                match record_home(v, home, ino) {
                    Err(e) => fails(v, e),
                    Ok((r, phys, b)) => {
                        let o = r.offset % 1024;
                        with_block(
                            v,
                            phys as int,
                            splice(b.update(o + 6, name.len() as u8), o + 8, name),
                        )
                    },
                }
            },
        },
    }
}

fn push_pointers(out: &mut Vec<u32>, b: &Vec<u8>)
    requires
        b@.len() == 1024,
    ensures
        final(out)@ == old(out)@ + live_pointers(b@, 256),
{
    let mut k: usize = 0;
    assert(out@ =~= old(out)@ + live_pointers(b@, 0));
    while k < 256
        invariant
            k <= 256,
            b@.len() == 1024,
            out@ == old(out)@ + live_pointers(b@, k as int),
        decreases 256 - k,
    {
        let p = get_u32(b.as_slice(), 4 * k);
        if p != 0 {
            out.push(p);
        }
        k += 1;
        assert(out@ =~= old(out)@ + live_pointers(b@, k as int));
    }
}

/// The chain as a sequence.
pub open spec fn list_view(r: Result<Vec<u32>, FsError>) -> Result<Seq<u32>, FsError> {
    match r {
        Ok(v) => Ok(v@),
        Err(e) => Err(e),
    }
}

proof fn lemma_inner_fails(v: Vol, l1: Seq<u8>, k: int, n: int)
    requires
        0 <= k <= n,
        owned_inner(v, l1, k) is Err,
    ensures
        owned_inner(v, l1, n) == owned_inner(v, l1, k),
    decreases n,
{
    if n > k {
        lemma_inner_fails(v, l1, k, n - 1);
    }
}

impl Ext2 {
    fn collect_single(&self, dev: &AtaDrive, tbl: u32) -> (r: Result<Vec<u32>, FsError>)
        requires
            dev.wf(),
        ensures
            reads(disk(*dev), list_view(r), owned_single(vol(*self, *dev), tbl)),
    {
        let mut out: Vec<u32> = Vec::new();
        assert(out@ =~= Seq::<u32>::empty());
        if tbl == 0 {
            return Ok(out);
        }
        match self.read_block(dev, tbl as u64) {
            Err(e) => Err(e),
            Ok(b) => {
                push_pointers(&mut out, &b);
                assert(out@ =~= live_pointers(b@, 256));
                out.push(tbl);
                Ok(out)
            },
        }
    }

    fn collect_double(&self, dev: &AtaDrive, tbl: u32) -> (r: Result<Vec<u32>, FsError>)
        requires
            dev.wf(),
        ensures
            reads(disk(*dev), list_view(r), owned_double(vol(*self, *dev), tbl)),
    {
        let ghost v = vol(*self, *dev);
        let mut out: Vec<u32> = Vec::new();
        assert(out@ =~= Seq::<u32>::empty());
        if tbl == 0 {
            return Ok(out);
        }
        let l1 = match self.read_block(dev, tbl as u64) {
            Err(e) => {
                return Err(e);
            },
            Ok(b) => b,
        };
        let mut k: usize = 0;
        while k < 256
            invariant
                dev.wf(),
                v == vol(*self, *dev),
                k <= 256,
                tbl != 0,
                l1@.len() == 1024,
                block(v, tbl as int) == Ok::<Seq<u8>, FsError>(l1@),
                owned_inner(v, l1@, k as int) == Ok::<Seq<u32>, FsError>(out@),
            decreases 256 - k,
        {
            let p = get_u32(l1.as_slice(), 4 * k);
            match self.collect_single(dev, p) {
                Err(e) => {
                    proof {
                        lemma_inner_fails(v, l1@, k + 1, 256);
                    }
                    return Err(e);
                },
                Ok(mut s) => {
                    out.append(&mut s);
                },
            }
            k += 1;
        }
        out.push(tbl);
        Ok(out)
    }

    /// Every block of a file, its tables included.
    fn collect_blocks(&self, dev: &AtaDrive, i: &Inode) -> (r: Result<Vec<u32>, FsError>)
        requires
            dev.wf(),
        ensures
            reads(disk(*dev), list_view(r), owned(vol(*self, *dev), i@)),
    {
        let mut out: Vec<u32> = Vec::new();
        let mut k: usize = 0;
        assert(out@ =~= live_direct(i@, 0));
        while k < 12
            invariant
                k <= 12,
                out@ == live_direct(i@, k as int),
            decreases 12 - k,
        {
            if i.blocks[k] != 0 {
                out.push(i.blocks[k]);
            }
            k += 1;
        }
        let mut s = match self.collect_single(dev, i.blocks[12]) {
            Err(e) => {
                return Err(e);
            },
            Ok(s) => s,
        };
        let mut d = match self.collect_double(dev, i.blocks[13]) {
            Err(e) => {
                return Err(e);
            },
            Ok(d) => d,
        };
        out.append(&mut s);
        out.append(&mut d);
        Ok(out)
    }

    /// Give the blocks of a file back.
    fn free_inode_blocks(&mut self, dev: &mut AtaDrive, i: &Inode) -> (r: Result<(), FsError>)
        requires
            old(dev).wf(),
        ensures
            final(dev).wf(),
            acts(
                vol(*old(self), *old(dev)),
                vol(*final(self), *final(dev)),
                r,
                blocks_freed(vol(*old(self), *old(dev)), i@),
            ),
            only_grew(disk(*old(dev)), disk(*final(dev))),
    {
        reveal(blocks_freed);
        let list = match self.collect_blocks(dev, i) {
            Err(e) => {
                return Err(e);
            },
            Ok(v) => v,
        };
        if list.len() == 0 {
            return Ok(());
        }
        let mut bits = match self.read_block(dev, self.block_bitmap as u64) {
            Err(e) => {
                return Err(e);
            },
            Ok(b) => b,
        };
        if !fits_map(&list) {
            return Err(FsError::BadFs);
        }
        let c = free_bits(&mut bits, &list);
        self.free_blocks = wrap_count(self.free_blocks, c);
        self.write_block(dev, self.block_bitmap as u64, &bits)
    }

    /// Give an inode back and sync the counts.
    fn free_inode(&mut self, dev: &mut AtaDrive, ino: u32) -> (r: Result<(), FsError>)
        requires
            old(dev).wf(),
            ino >= 1,
        ensures
            final(dev).wf(),
            acts(
                vol(*old(self), *old(dev)),
                vol(*final(self), *final(dev)),
                r,
                inode_freed(vol(*old(self), *old(dev)), ino),
            ),
            only_grew(disk(*old(dev)), disk(*final(dev))),
    {
        reveal(inode_freed);
        let mut bits = match self.read_block(dev, self.inode_bitmap as u64) {
            Err(e) => {
                return Err(e);
            },
            Ok(b) => b,
        };
        if ino > 8192 {
            return Err(FsError::BadFs);
        }
        let k = ino as usize - 1;
        if bit_is_set(&bits, k) {
            clear_bit(&mut bits, k);
            self.free_inodes = wrap_count(self.free_inodes, 1);
        }
        match self.write_block(dev, self.inode_bitmap as u64, &bits) {
            Err(e) => {
                return Err(e);
            },
            Ok(_) => {},
        }
        self.sync_free_counts(dev)
    }

    /// The record of inode `ino` in `parent`.
    fn find_record(&self, dev: &AtaDrive, parent: &Inode, ino: u32) -> (r: Result<DirEnt, FsError>)
        requires
            dev.wf(),
        ensures
            match r {
                Ok(e) => dir_records(vol(*self, *dev), parent@) matches Ok(rs) && (record_of(
                    rs,
                    ino,
                    0,
                ) matches Some(k) && 0 <= k < rs.len() && rs[k] == e@ && e.rec_len >= 8 && e.offset
                    % 1024 + e.rec_len <= 1024),
                Err(e) => fails_as(disk(*dev), r, dir_records(vol(*self, *dev), parent@) == Err::<
                    Seq<Record>,
                    FsError,
                >(e) || (e == FsError::BadFs && (dir_records(vol(*self, *dev), parent@) matches Ok(
                    rs,
                ) && record_of(rs, ino, 0) is None))),
            },
    {
        let es = match self.dir_entries(dev, parent) {
            Err(e) => {
                return Err(e);
            },
            Ok(v) => v,
        };
        let ghost v = vol(*self, *dev);
        let ghost all = records_view(es@);
        proof {
            lemma_records_fit(v, parent@, parent.size as int / 1024);
        }
        let mut k: usize = 0;
        while k < es.len()
            invariant
                v == vol(*self, *dev),
                k <= es@.len(),
                all == records_view(es@),
                records_fit(all),
                dir_records(v, parent@) == Ok::<Seq<Record>, FsError>(all),
                record_of(all, ino, 0) == record_of(all, ino, k as int),
            decreases es@.len() - k,
        {
            assert(all[k as int] == es@[k as int]@);
            let e = &es[k];
            if e.ino == ino {
                return Ok(
                    DirEnt {
                        ino: e.ino,
                        name: e.name.clone(),
                        rec_len: e.rec_len,
                        offset: e.offset,
                    },
                );
            }
            k += 1;
        }
        Err(FsError::BadFs)
    }

    /// The block that holds a record of `parent`, and its bytes.
    fn load_record(&self, dev: &AtaDrive, parent: &Inode, e: &DirEnt) -> (r: Result<
        (u32, Vec<u8>),
        FsError,
    >)
        requires
            dev.wf(),
        ensures
            match r {
                Ok(p) => mapped(vol(*self, *dev), parent@, e.offset as int / 1024) == Ok::<
                    u32,
                    FsError,
                >(p.0) && p.0 != 0 && block(vol(*self, *dev), p.0 as int) == Ok::<
                    Seq<u8>,
                    FsError,
                >(p.1@) && p.1@.len() == 1024,
                Err(x) => fails_as(disk(*dev), r, (match mapped(
                    vol(*self, *dev),
                    parent@,
                    e.offset as int / 1024,
                ) {
                    Err(y) => x == y,
                    Ok(phys) => if phys == 0 {
                        x == FsError::BadFs
                    } else {
                        block(vol(*self, *dev), phys as int) == Err::<Seq<u8>, FsError>(x)
                    },
                })),
            },
    {
        let phys = match self.map_block(dev, parent, e.offset / 1024) {
            Err(e) => {
                return Err(e);
            },
            Ok(p) => p,
        };
        if phys == 0 {
            return Err(FsError::BadFs);
        }
        match self.read_block(dev, phys as u64) {
            Err(e) => Err(e),
            Ok(b) => Ok((phys, b)),
        }
    }

    /// Remove the file at `path`; directories are refused.
    pub fn unlink(&mut self, dev: &mut AtaDrive, path: &str) -> (r: Result<(), FsError>)
        requires
            old(dev).wf(),
        ensures
            final(dev).wf(),
            acts(
                vol(*old(self), *old(dev)),
                vol(*final(self), *final(dev)),
                r,
                unlinked(vol(*old(self), *old(dev)), path@),
            ),
            only_grew(disk(*old(dev)), disk(*final(dev))),
    {
        let ghost v = vol(*self, *dev);
        let i = match self.resolve(dev, path) {
            Err(e) => {
                return Err(e);
            },
            Ok(None) => {
                return Err(FsError::NotFound);
            },
            Ok(Some(i)) => i,
        };
        proof {
            let ps = path_parts(path@)->0;
            lemma_node_ino(v, ps, ps.len() as int);
        }
        if is_dir(i.mode) {
            return Err(FsError::IsDir);
        }
        let (parent, _name) = match self.resolve_parent(dev, path) {
            Err(e) => {
                return Err(e);
            },
            Ok(p) => p,
        };
        let e = match self.find_record(dev, &parent, i.ino) {
            Err(e) => {
                return Err(e);
            },
            Ok(e) => e,
        };
        let (phys, mut b) = match self.load_record(dev, &parent, &e) {
            Err(e) => {
                return Err(e);
            },
            Ok(p) => p,
        };
        let o = (e.offset % 1024) as usize;
        put_u32(b.as_mut_slice(), o, 0);
        b[o + 6] = 0;
        match self.write_block(dev, phys as u64, &b) {
            Err(e) => {
                return Err(e);
            },
            Ok(_) => {},
        }
        match self.free_inode_blocks(dev, &i) {
            Err(e) => {
                return Err(e);
            },
            Ok(_) => {},
        }
        self.free_inode(dev, i.ino)
    }

    /// Rename within a directory: the record's name is rewritten in place, and
    /// has to fit the record.
    pub fn rename(&mut self, dev: &mut AtaDrive, from: &str, to: &str) -> (r: Result<(), FsError>)
        requires
            old(dev).wf(),
        ensures
            final(dev).wf(),
            acts(
                vol(*old(self), *old(dev)),
                vol(*final(self), *final(dev)),
                r,
                renamed(vol(*old(self), *old(dev)), from@, to@),
            ),
            only_grew(disk(*old(dev)), disk(*final(dev))),
    {
        let i = match self.resolve(dev, from) {
            Err(e) => {
                return Err(e);
            },
            Ok(None) => {
                return Err(FsError::NotFound);
            },
            Ok(Some(i)) => i,
        };
        match self.resolve(dev, to) {
            Err(e) => {
                return Err(e);
            },
            Ok(Some(_)) => {
                return Err(FsError::Exists);
            },
            Ok(None) => {},
        }
        let (home, _from_name) = match self.resolve_parent(dev, from) {
            Err(e) => {
                return Err(e);
            },
            Ok(p) => p,
        };
        let (dir, name) = match self.resolve_parent(dev, to) {
            Err(e) => {
                return Err(e);
            },
            Ok(p) => p,
        };
        if dir.ino != home.ino {
            return Err(FsError::NotSupported);
        }
        let bytes = name_bytes(&name);
        let e = match self.find_record(dev, &home, i.ino) {
            Err(e) => {
                return Err(e);
            },
            Ok(e) => e,
        };
        if bytes.len() > 255 || (8 + bytes.len() + 3) / 4 * 4 > e.rec_len as usize {
            return Err(FsError::NotSupported);
        }
        let (phys, mut b) = match self.load_record(dev, &home, &e) {
            Err(e) => {
                return Err(e);
            },
            Ok(p) => p,
        };
        let o = (e.offset % 1024) as usize;
        b[o + 6] = bytes.len() as u8;
        put_bytes(b.as_mut_slice(), o + 8, bytes.as_slice());
        self.write_block(dev, phys as u64, &b)
    }
}

fn wrap_count(n: u32, c: u32) -> (r: u32)
    ensures
        r == (n + c) % 0x1_0000_0000,
{
    if n > 0xFFFF_FFFF - c {
        n - (0xFFFF_FFFF - c) - 1
    } else {
        n + c
    }
}

fn fits_map(list: &Vec<u32>) -> (r: bool)
    ensures
        r == all_in_map(list@),
{
    let mut k: usize = 0;
    while k < list.len()
        invariant
            k <= list@.len(),
            forall|j: int| 0 <= j < k ==> 1 <= #[trigger] list@[j] <= 8192,
        decreases list@.len() - k,
    {
        if list[k] == 0 || list[k] > 8192 {
            assert(!(1 <= list@[k as int] <= 8192));
            return false;
        }
        k += 1;
    }
    true
}

/// Clear the bits of the blocks in the list; how many were set.
fn free_bits(bits: &mut Vec<u8>, list: &Vec<u32>) -> (c: u32)
    requires
        old(bits)@.len() == 1024,
        all_in_map(list@),
    ensures
        bits_freed(old(bits)@, list@, list@.len() as int).0 == final(bits)@,
        c as int % 0x1_0000_0000 == bits_freed(old(bits)@, list@, list@.len() as int).1
            % 0x1_0000_0000,
        final(bits)@.len() == 1024,
{
    let mut c: u32 = 0;
    let mut k: usize = 0;
    while k < list.len()
        invariant
            k <= list@.len(),
            bits@.len() == 1024,
            all_in_map(list@),
            bits_freed(old(bits)@, list@, k as int).0 == bits@,
            c as int % 0x1_0000_0000 == bits_freed(old(bits)@, list@, k as int).1 % 0x1_0000_0000,
        decreases list@.len() - k,
    {
        assert(1 <= list@[k as int] <= 8192);
        let i = list[k] as usize - 1;
        if bit_is_set(bits, i) {
            clear_bit(bits, i);
            c = wrap_count(c, 1);
        }
        k += 1;
    }
    c
}

// ---------------------------------------------------------------------------
// Bring-up
// ---------------------------------------------------------------------------

/// `word` stands somewhere in `s`.
pub open spec fn holds_word(s: Seq<char>, word: Seq<char>) -> bool {
    exists|i: int| 0 <= i && #[trigger] stands_at(s, word, i)
}

/// `word` stands in `s` at `i`.
pub open spec fn stands_at(s: Seq<char>, word: Seq<char>, i: int) -> bool {
    i + word.len() <= s.len() && s.subrange(i, i + word.len()) == word
}

/// A Linux partition of at least 1 MiB.
pub open spec fn is_home(p: Partition) -> bool {
    holds_word(p.kind@, "Linux"@) && p.sectors * 512 >= 1024 * 1024
}

/// The first partition from number `k` on that can hold the volume.
pub open spec fn first_home(ps: Seq<Partition>, k: int) -> Option<int>
    decreases ps.len() - k,
{
    if k >= ps.len() {
        None
    } else if is_home(ps[k]) {
        Some(k)
    } else {
        first_home(ps, k + 1)
    }
}

/// Why no volume is mounted.
#[derive(Clone, Copy, PartialEq, Eq, Debug)]
pub enum InitFault {
    NoPartition,
    Mount(FsError),
}

fn find_word(s: &Vec<char>, word: &Vec<char>) -> (r: bool)
    ensures
        r == holds_word(s@, word@),
{
    let n = s.len();
    let m = word.len();
    if m > n {
        return false;
    }
    let mut i: usize = 0;
    while i <= n - m
        invariant
            n == s@.len(),
            m == word@.len(),
            m <= n,
            i <= n - m + 1,
            forall|j: int| 0 <= j < i ==> !#[trigger] stands_at(s@, word@, j),
        decreases n - i,
    {
        let mut k: usize = 0;
        while k < m && s[i + k] == word[k]
            invariant
                n == s@.len(),
                m == word@.len(),
                i + m <= n,
                k <= m,
                forall|j: int| 0 <= j < k ==> s@[i + j] == #[trigger] word@[j],
            decreases m - k,
        {
            k += 1;
        }
        if k == m {
            assert(s@.subrange(i as int, i + m) =~= word@);
            assert(stands_at(s@, word@, i as int));
            return true;
        }
        proof {
            if stands_at(s@, word@, i as int) {
                assert(s@.subrange(i as int, i + m)[k as int] == word@[k as int]);
            }
        }
        if i == n - m {
            assert forall|j: int| 0 <= j implies !#[trigger] stands_at(s@, word@, j) by {}
            return false;
        }
        i += 1;
    }
    false
}

/// Find the partition and mount the volume on it: where it starts, and the
/// volume.
pub fn init(dev: &AtaDrive, parts: &Vec<Partition>) -> (r: Result<(u64, Ext2), InitFault>)
    requires
        dev.wf(),
    ensures
        match first_home(parts@, 0) {
            None => r == Err::<(u64, Ext2), InitFault>(InitFault::NoPartition),
            Some(k) => {
                let start = parts@[k].start_lba;
                let want = mounted(disk(*dev), (start % 0x1_0000_0000) as u32);
                match r {
                    Ok((s, fs)) => s == start && want == Ok::<Ext2, FsError>(fs),
                    Err(InitFault::NoPartition) => false,
                    Err(InitFault::Mount(e)) => want == Err::<Ext2, FsError>(e),
                }
            },
        },
{
    let word = crate::vfs::chars_of("Linux");
    let mut k: usize = 0;
    while k < parts.len()
        invariant
            dev.wf(),
            word@ == "Linux"@,
            k <= parts@.len(),
            first_home(parts@, 0) == first_home(parts@, k as int),
        decreases parts@.len() - k,
    {
        let p = &parts[k];
        let kind = crate::vfs::chars_of(p.kind.as_str());
        if find_word(&kind, &word) && p.sectors >= 2048 {
            let start = p.start_lba;
            return match Ext2::mount(dev, (start % 0x1_0000_0000) as u32) {
                Err(e) => Err(InitFault::Mount(e)),
                Ok(fs) => Ok((start, fs)),
            };
        }
        k += 1;
    }
    Err(InitFault::NoPartition)
}

/// What reading a file back gave.
#[derive(Clone, Copy, PartialEq, Eq, Debug)]
pub enum Check {
    /// The expected bytes, so many of them.
    Match(usize),
    /// Other bytes, so many of them.
    Mismatch(usize),
    Failed(FsError),
}

/// The self-test's findings, as far as it went.
#[derive(Clone, Copy, PartialEq, Eq, Debug)]
pub struct Report {
    /// Entries of the root directory.
    pub root: Result<usize, FsError>,
    pub hello: Option<Check>,
    pub readme: Option<Check>,
    /// The write that reaches into the single indirect table.
    pub big: Option<Result<usize, FsError>>,
    pub readback: Option<bool>,
    pub overwrite: Option<bool>,
    pub mkdir: Option<Result<(), FsError>>,
    pub note: Option<Result<usize, FsError>>,
    pub note_back: Option<Check>,
    pub nested: Option<bool>,
}

/// Nothing tested yet but the root listing.
pub open spec fn blank_report(root: Result<usize, FsError>) -> Report {
    Report {
        root,
        hello: None,
        readme: None,
        big: None,
        readback: None,
        overwrite: None,
        mkdir: None,
        note: None,
        note_back: None,
        nested: None,
    }
}

/// The bytes of a text.
pub open spec fn text_bytes(s: Seq<char>) -> Seq<u8> {
    vstd::utf8::encode_utf8(s)
}

/// The sector that an operation waits for.
pub open spec fn awaited<T>(r: Result<T, FsError>) -> Option<u32> {
    match r {
        Err(FsError::Io(AtaError::Pending(l))) => Some(l),
        _ => None,
    }
}

/// What reading at most `n` bytes of `path` from `off` on gives, next to what
/// is expected, or the sector to wait for.
pub open spec fn check_of(v: Vol, path: Seq<char>, off: int, n: int, expect: Seq<u8>) -> Result<Check, u32> {
    let got = contents(v, path, off, n);
    match awaited(got) {
        Some(l) => Err(l),
        None => Ok(
            match got {
                Err(e) => Check::Failed(e),
                Ok(x) => if x == expect {
                    Check::Match(x.len() as usize)
                } else {
                    Check::Mismatch(x.len() as usize)
                },
            },
        ),
    }
}

/// The test pattern.
pub open spec fn pattern() -> Seq<u8> {
    Seq::new(13312, |i: int| ((i * 7 + i / 251) % 256) as u8)
}

/// The last part of the self-test: a directory in a directory.
pub open spec fn nested_tested(v: Vol, rep: Report) -> (Vol, Result<Report, u32>) {
    let d = dir_made_at(v, "/SUB/DEEP"@);
    if let Some(l) = awaited(d.r) {
        (d.vol, Err(l))
    } else {
        let deep = text_bytes("two levels down\n"@);
        let x = written(d.vol, "/SUB/DEEP/D.TXT"@, 0, deep);
        if let Some(l) = awaited(x.r) {
            (x.vol, Err(l))
        } else {
            match check_of(x.vol, "/SUB/DEEP/D.TXT"@, 0, 32, deep) {
                Err(l) => (x.vol, Err(l)),
                Ok(c) => (x.vol, Ok(Report { nested: Some(c is Match), ..rep })),
            }
        }
    }
}

/// The second half of the self-test: directories.
pub open spec fn dirs_tested(v: Vol, rep: Report) -> (Vol, Result<Report, u32>) {
    let m = dir_made_at(v, "/SUB"@);
    let rep = Report { mkdir: Some(m.r), ..rep };
    if let Some(l) = awaited(m.r) {
        (m.vol, Err(l))
    } else if m.r is Err && m.r->Err_0 != FsError::Exists {
        (m.vol, Ok(rep))
    } else {
        let note = text_bytes("hello from an ext2 subdirectory\n"@);
        let w = written(m.vol, "/SUB/NOTE.TXT"@, 0, note);
        let rep = Report { note: Some(w.r), ..rep };
        if let Some(l) = awaited(w.r) {
            (w.vol, Err(l))
        } else if w.r is Err {
            (w.vol, Ok(rep))
        } else {
            match check_of(w.vol, "/SUB/NOTE.TXT"@, 0, 64, note) {
                Err(l) => (w.vol, Err(l)),
                Ok(back) => nested_tested(w.vol, Report { note_back: Some(back), ..rep }),
            }
        }
    }
}

/// The middle of the self-test: an overwrite in the middle of the big file.
pub open spec fn patch_tested(v: Vol, rep: Report) -> (Vol, Result<Report, u32>) {
    match check_of(v, "/BIG.BIN"@, 0, 13312, pattern()) {
        Err(l) => (v, Err(l)),
        Ok(back) => {
            let patch = text_bytes("MIDDLE"@);
            let x = written(v, "/BIG.BIN"@, 6244, patch);
            if let Some(l) = awaited(x.r) {
                (x.vol, Err(l))
            } else {
                match check_of(x.vol, "/BIG.BIN"@, 6244, 16, patch + pattern().subrange(6250, 6260)) {
                    Err(l) => (x.vol, Err(l)),
                    Ok(ok) => dirs_tested(
                        x.vol,
                        Report { readback: Some(back is Match), overwrite: Some(ok is Match), ..rep },
                    ),
                }
            }
        },
    }
}

/// The self-test: seed files, a write that reaches into the indirect table, an
/// overwrite in the middle, and directories. The findings, or the first sector
/// to wait for.
pub open spec fn tested(v: Vol) -> (Vol, Result<Report, u32>) {
    let ls = listing(v, "/"@);
    if let Some(l) = awaited(ls) {
        (v, Err(l))
    } else if let Err(e) = ls {
        (v, Ok(blank_report(Err(e))))
    } else {
        let rep = blank_report(Ok(ls->Ok_0.len() as usize));
        match check_of(v, "/HELLO.TXT"@, 0, 64, text_bytes("hello from ext2!\n"@)) {
            Err(l) => (v, Err(l)),
            Ok(hello) => match check_of(v, "/README.TXT"@, 0, 64, text_bytes("OnyxOS M7 ext2 test volume\n"@)) {
                Err(l) => (v, Err(l)),
                Ok(readme) => {
                    let w = written(v, "/BIG.BIN"@, 0, pattern());
                    let rep = Report { hello: Some(hello), readme: Some(readme), big: Some(w.r), ..rep };
                    if let Some(l) = awaited(w.r) {
                        (w.vol, Err(l))
                    } else if w.r is Err {
                        (w.vol, Ok(rep))
                    } else {
                        patch_tested(w.vol, rep)
                    }
                },
            },
        }
    }
}

/// The sector that an operation waits for.
fn pending<T>(r: &Result<T, FsError>) -> (p: Option<u32>)
    ensures
        p == awaited(*r),
{
    match r {
        Err(FsError::Io(AtaError::Pending(l))) => Some(*l),
        _ => None,
    }
}

fn bytes_of(s: &str) -> (r: Vec<u8>)
    ensures
        r@ == text_bytes(s@),
{
    let b = s.as_bytes();
    let r = copy_range(b, 0, b.len());
    assert(r@ =~= b@);
    r
}

fn make_pattern() -> (r: Vec<u8>)
    ensures
        r@ == pattern(),
{
    let mut r: Vec<u8> = Vec::new();
    let mut i: usize = 0;
    while i < 13312
        invariant
            i <= 13312,
            r@.len() == i,
            forall|k: int| 0 <= k < i ==> #[trigger] r@[k] == ((k * 7 + k / 251) % 256) as u8,
        decreases 13312 - i,
    {
        r.push(((i * 7 + i / 251) % 256) as u8);
        i += 1;
    }
    assert(r@ =~= pattern());
    r
}

impl Ext2 {
    /// Read at most `n` bytes of `path` from `off` on and hold them against
    /// what is expected; the sector to wait for otherwise.
    fn check_file(&self, dev: &AtaDrive, path: &str, off: u64, n: usize, expect: &Vec<u8>) -> (r: Result<
        Check,
        u32,
    >)
        requires
            dev.wf(),
        ensures
            r == check_of(vol(*self, *dev), path@, off as int, n as int, expect@),
            r matches Err(l) ==> l <= LBA28_MAX && !disk(*dev).sectors.contains_key(l),
    {
        let mut buf = zeros(n);
        let got = self.read_at_path(dev, path, off, buf.as_mut_slice());
        if let Some(l) = pending(&got) {
            return Err(l);
        }
        match got {
            Err(e) => Ok(Check::Failed(e)),
            Ok(k) => {
                let x = copy_range(buf.as_slice(), 0, k);
                proof {
                    let y = contents(vol(*self, *dev), path@, off as int, n as int)->Ok_0;
                    assert(x@ =~= y);
                }
                if same_bytes(x.as_slice(), expect.as_slice()) {
                    Ok(Check::Match(k))
                } else {
                    Ok(Check::Mismatch(k))
                }
            },
        }
    }
}

fn matched(c: Check) -> (r: bool)
    ensures
        r == (c is Match),
{
    match c {
        Check::Match(_) => true,
        _ => false,
    }
}

impl Ext2 {
    /// The last part of the self-test.
    fn test_nested(&mut self, dev: &mut AtaDrive, rep: Report) -> (r: Result<Report, u32>)
        requires
            old(dev).wf(),
        ensures
            final(dev).wf(),
            nested_tested(vol(*old(self), *old(dev)), rep) == (vol(*final(self), *final(dev)), r),
            r matches Err(l) ==> l <= LBA28_MAX && !disk(*old(dev)).sectors.contains_key(l),
            traced(disk(*old(dev)), disk(*final(dev))),
    {
        let mut rep = rep;
        let d = self.mkdir(dev, "/SUB/DEEP");
        if let Some(l) = pending(&d) {
            return Err(l);
        }
        proof {
            lemma_traced_grew(disk(*old(dev)), disk(*dev));
        }
        let deep = bytes_of("two levels down\n");
        let x = self.write_at(dev, "/SUB/DEEP/D.TXT", 0, deep.as_slice());
        if let Some(l) = pending(&x) {
            return Err(l);
        }
        proof {
            lemma_traced_grew(disk(*old(dev)), disk(*dev));
        }
        let c = match self.check_file(dev, "/SUB/DEEP/D.TXT", 0, 32, &deep) {
            Err(l) => {
                return Err(l);
            },
            Ok(c) => c,
        };
        rep.nested = Some(matched(c));
        Ok(rep)
    }

    /// The second half of the self-test.
    fn test_dirs(&mut self, dev: &mut AtaDrive, rep: Report) -> (r: Result<Report, u32>)
        requires
            old(dev).wf(),
        ensures
            final(dev).wf(),
            dirs_tested(vol(*old(self), *old(dev)), rep) == (vol(*final(self), *final(dev)), r),
            r matches Err(l) ==> l <= LBA28_MAX && !disk(*old(dev)).sectors.contains_key(l),
            traced(disk(*old(dev)), disk(*final(dev))),
    {
        let mut rep = rep;
        let m = self.mkdir(dev, "/SUB");
        if let Some(l) = pending(&m) {
            return Err(l);
        }
        proof {
            lemma_traced_grew(disk(*old(dev)), disk(*dev));
        }
        rep.mkdir = Some(m);
        if let Err(e) = m {
            if e != FsError::Exists {
                return Ok(rep);
            }
        }
        let note = bytes_of("hello from an ext2 subdirectory\n");
        let w = self.write_at(dev, "/SUB/NOTE.TXT", 0, note.as_slice());
        if let Some(l) = pending(&w) {
            return Err(l);
        }
        proof {
            lemma_traced_grew(disk(*old(dev)), disk(*dev));
        }
        rep.note = Some(w);
        if w.is_err() {
            return Ok(rep);
        }
        let back = match self.check_file(dev, "/SUB/NOTE.TXT", 0, 64, &note) {
            Err(l) => {
                return Err(l);
            },
            Ok(c) => c,
        };
        rep.note_back = Some(back);
        self.test_nested(dev, rep)
    }

    /// The middle of the self-test.
    fn test_patch(&mut self, dev: &mut AtaDrive, rep: Report) -> (r: Result<Report, u32>)
        requires
            old(dev).wf(),
        ensures
            final(dev).wf(),
            patch_tested(vol(*old(self), *old(dev)), rep) == (vol(*final(self), *final(dev)), r),
            r matches Err(l) ==> l <= LBA28_MAX && !disk(*old(dev)).sectors.contains_key(l),
            traced(disk(*old(dev)), disk(*final(dev))),
    {
        let mut rep = rep;
        let data = make_pattern();
        let back = match self.check_file(dev, "/BIG.BIN", 0, 13312, &data) {
            Err(l) => {
                return Err(l);
            },
            Ok(c) => c,
        };
        let patch = bytes_of("MIDDLE");
        let x = self.write_at(dev, "/BIG.BIN", 6244, patch.as_slice());
        if let Some(l) = pending(&x) {
            return Err(l);
        }
        proof {
            lemma_traced_grew(disk(*old(dev)), disk(*dev));
        }
        let mut expect = bytes_of("MIDDLE");
        let mut tail = copy_range(data.as_slice(), 6250, 6260);
        expect.append(&mut tail);
        assert(expect@ =~= text_bytes("MIDDLE"@) + pattern().subrange(6250, 6260));
        let ok = match self.check_file(dev, "/BIG.BIN", 6244, 16, &expect) {
            Err(l) => {
                return Err(l);
            },
            Ok(c) => c,
        };
        rep.readback = Some(matched(back));
        rep.overwrite = Some(matched(ok));
        self.test_dirs(dev, rep)
    }
}

/// Exercise the whole driver: the seed files, a write and read-back that cross
/// from the direct blocks into the indirect table, an overwrite in the middle,
/// and directories. Answers the findings, or the sector to wait for.
pub fn self_test(fs: &mut Ext2, dev: &mut AtaDrive) -> (r: Result<Report, u32>)
    requires
        old(dev).wf(),
    ensures
        final(dev).wf(),
        tested(vol(*old(fs), *old(dev))) == (vol(*final(fs), *final(dev)), r),
        r matches Err(l) ==> l <= LBA28_MAX && !disk(*old(dev)).sectors.contains_key(l),
        traced(disk(*old(dev)), disk(*final(dev))),
{
    let ls = fs.list_path(dev, "/");
    if let Some(l) = pending(&ls) {
        return Err(l);
    }
    let mut rep = Report {
        root: Ok(0),
        hello: None,
        readme: None,
        big: None,
        readback: None,
        overwrite: None,
        mkdir: None,
        note: None,
        note_back: None,
        nested: None,
    };
    match ls {
        Err(e) => {
            rep.root = Err(e);
            return Ok(rep);
        },
        Ok(v) => {
            rep.root = Ok(v.len());
        },
    }
    let hello = bytes_of("hello from ext2!\n");
    match fs.check_file(dev, "/HELLO.TXT", 0, 64, &hello) {
        Err(l) => {
            return Err(l);
        },
        Ok(c) => {
            rep.hello = Some(c);
        },
    }
    let readme = bytes_of("OnyxOS M7 ext2 test volume\n");
    match fs.check_file(dev, "/README.TXT", 0, 64, &readme) {
        Err(l) => {
            return Err(l);
        },
        Ok(c) => {
            rep.readme = Some(c);
        },
    }
    let data = make_pattern();
    let w = fs.write_at(dev, "/BIG.BIN", 0, data.as_slice());
    if let Some(l) = pending(&w) {
        return Err(l);
    }
    proof {
        lemma_traced_grew(disk(*old(dev)), disk(*dev));
    }
    rep.big = Some(w);
    if w.is_err() {
        return Ok(rep);
    }
    fs.test_patch(dev, rep)
}

} // verus!
