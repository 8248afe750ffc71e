//! The FAT32 file system.
//!
//! Paths are resolved component by component through directory cluster chains.
//! Reading understands long names; new entries get plain 8.3 names. `mkdir`
//! initializes `.` and `..` and links the directory into its parent.
//!
//! Every operation works on the sectors at hand and answers
//! `Io(Pending(lba))` when it needs another one: fetch it and ask again with
//! the disk as it was.
use vstd::prelude::*;

use crate::ata::{AtaDrive, SECTOR_SIZE};
use crate::block::{unit, unit_char};
use crate::bytes::{get_u16, get_u32, le16, le16_bytes, le32, le32_bytes, put_bytes, put_u16, put_u32,
    splice, zeros};
use crate::text::{dec, push_dec};
use crate::vfs::{disk, does, fails_as, fetch, fetched, is_dots, lemma_traced_on, lemma_traced_same, lines_view,
    listing_view, names, names_match, only_grew, path_parts, reads, same_name, split_path, store, stored, text_of,
    traced, DirEntry, Disk, FileStat, FsError, Line, Out};

verus! {

broadcast use {lemma_traced_on, lemma_traced_same};

/// Attribute of a long-name slot.
pub const ATTR_LFN: u8 = 0x0F;

/// Attribute of a directory.
pub const ATTR_DIR: u8 = 0x10;

/// Attribute of a plain file.
pub const ATTR_ARCHIVE: u8 = 0x20;

/// The end-of-chain mark that is written; any value from `0x0FFF_FFF8` on
/// reads as one.
pub const EOC: u32 = 0x0FFF_FFFF;

/// A mounted volume.
#[derive(Clone, Copy, PartialEq, Eq, Debug, Structural)]
pub struct Fat32 {
    pub part_start: u32,
    pub sectors_per_cluster: u8,
    pub reserved: u16,
    pub num_fats: u8,
    pub fat_sectors: u32,
    pub root_cluster: u32,
    /// Clusters of the data region: the valid ones are `2..=1 + total`.
    pub total_clusters: u32,
}

impl Fat32 {
    /// What `mount` checked.
    pub open spec fn wf(&self) -> bool {
        &&& 0 < self.sectors_per_cluster <= 16
        &&& self.reserved > 0
        &&& self.num_fats > 0
        &&& self.fat_sectors > 0
        &&& self.root_cluster >= 2
        &&& self.total_clusters < u32::MAX - 1
    }

    /// Bytes of a cluster.
    pub open spec fn cluster_size(&self) -> int {
        512 * self.sectors_per_cluster
    }

    /// The first sector of the data region.
    pub open spec fn data_lba(&self) -> int {
        self.part_start + self.reserved + self.num_fats * self.fat_sectors
    }

    /// The first sector of a cluster.
    pub open spec fn lba_of(&self, c: int) -> int {
        self.data_lba() + (c - 2) * self.sectors_per_cluster
    }

    /// The sector of FAT copy `f` that holds the entry of cluster `c`.
    pub open spec fn fat_lba(&self, f: int, c: int) -> int {
        self.part_start + self.reserved + f * self.fat_sectors + c / 128
    }
}

// ---------------------------------------------------------------------------
// Mounting
// ---------------------------------------------------------------------------

/// The volume that a boot sector describes.
pub open spec fn parsed(sec: Seq<u8>, part_start: u32) -> Result<Fat32, FsError> {
    let spc = sec[13];
    let reserved = le16(sec, 14);
    let num_fats = sec[16];
    let fat_sectors = le32(sec, 36);
    let root_cluster = le32(sec, 44);
    let total = le32(sec, 32);
    let data_start = reserved + num_fats * fat_sectors;
    if le16(sec, 11) != SECTOR_SIZE || spc == 0 || spc * 512 > 8192 || le16(sec, 17) != 0 || le16(
        sec,
        22,
    ) != 0 || num_fats == 0 || fat_sectors == 0 || root_cluster < 2 || total == 0 || reserved == 0
        || data_start >= total {
        Err(FsError::BadFs)
    } else {
        Ok(
            Fat32 {
                part_start,
                sectors_per_cluster: spc,
                reserved: reserved as u16,
                num_fats,
                fat_sectors: fat_sectors as u32,
                root_cluster: root_cluster as u32,
                total_clusters: ((total - data_start) / spc as int) as u32,
            },
        )
    }
}

impl Fat32 {
    /// Read and check the boot sector of the partition at `part_start`.
    pub fn mount(dev: &AtaDrive, part_start: u32) -> (r: Result<Fat32, FsError>)
        requires
            dev.wf(),
        ensures
            r matches Ok(fs) ==> fs.wf(),
            reads(
                disk(*dev),
                r,
                match fetched(disk(*dev), part_start as int, 1) {
                    Err(e) => Err(e),
                    Ok(sec) => parsed(sec, part_start),
                },
            ),
    {
        let v = match fetch(dev, part_start as u64, 1) {
            Err(e) => {
                return Err(e);
            },
            Ok(v) => v,
        };
        let sec = v.as_slice();
        let bps = get_u16(sec, 11);
        let spc = sec[13];
        if bps != SECTOR_SIZE as u16 || spc == 0 || spc as usize * SECTOR_SIZE > 8192 {
            return Err(FsError::BadFs);
        }
        let reserved = get_u16(sec, 14);
        let num_fats = sec[16];
        let root_entries = get_u16(sec, 17);
        let fat_sectors16 = get_u16(sec, 22);
        let fat_sectors = get_u32(sec, 36);
        let root_cluster = get_u32(sec, 44);
        let total = get_u32(sec, 32);
        if root_entries != 0 || fat_sectors16 != 0 || num_fats == 0 || fat_sectors == 0
            || root_cluster < 2 || total == 0 || reserved == 0 {
            return Err(FsError::BadFs);
        }
        assert(num_fats * fat_sectors <= 0xFF * 0xFFFF_FFFF && num_fats * fat_sectors >= 1)
            by (nonlinear_arith)
            requires
                1 <= num_fats <= 0xFF,
                1 <= fat_sectors <= 0xFFFF_FFFF,
        ;
        let data_start = reserved as u64 + num_fats as u64 * fat_sectors as u64;
        if data_start >= total as u64 {
            return Err(FsError::BadFs);
        }
        let data = total - data_start as u32;
        assert(data / spc as u32 <= data) by (nonlinear_arith)
            requires
                spc > 0,
                data >= 0,
        ;
        let total_clusters = data / spc as u32;
        Ok(
            Fat32 {
                part_start,
                sectors_per_cluster: spc,
                reserved,
                num_fats,
                fat_sectors,
                root_cluster,
                total_clusters,
            },
        )
    }

    /// A line on the volume.
    pub fn summary(&self) -> (r: String)
        requires
            self.wf(),
        ensures
            r@ == "cluster="@ + dec((self.cluster_size() / 1024) as nat) + "KiB FATs="@ + dec(
                self.num_fats as nat,
            ) + "x"@ + dec(self.fat_sectors as nat) + "sectors root_cluster="@ + dec(
                self.root_cluster as nat,
            ),
    {
        let mut s = String::from_str("cluster=");
        push_dec(&mut s, (512 * self.sectors_per_cluster as u64) / 1024);
        s.append("KiB FATs=");
        push_dec(&mut s, self.num_fats as u64);
        s.append("x");
        push_dec(&mut s, self.fat_sectors as u64);
        s.append("sectors root_cluster=");
        push_dec(&mut s, self.root_cluster as u64);
        assert(s@ =~= "cluster="@ + dec((self.cluster_size() / 1024) as nat) + "KiB FATs="@ + dec(
            self.num_fats as nat,
        ) + "x"@ + dec(self.fat_sectors as nat) + "sectors root_cluster="@ + dec(
            self.root_cluster as nat,
        ));
        s
    }
}

// ---------------------------------------------------------------------------
// Clusters and the allocation table
// ---------------------------------------------------------------------------

/// The bytes of a cluster.
pub open spec fn cluster(fs: Fat32, d: Disk, c: u32) -> Result<Seq<u8>, FsError> {
    if c < 2 {
        Err(FsError::BadFs)
    } else {
        fetched(d, fs.lba_of(c as int), fs.sectors_per_cluster)
    }
}

/// The disk with a cluster replaced.
pub open spec fn with_cluster(fs: Fat32, d: Disk, c: u32, data: Seq<u8>) -> Out<()> {
    if c < 2 {
        Out { disk: d, r: Err(FsError::BadFs) }
    } else {
        stored(d, fs.lba_of(c as int), fs.sectors_per_cluster, data)
    }
}

/// The table entry of a cluster, as the first copy has it.
pub open spec fn entry(fs: Fat32, d: Disk, c: u32) -> Result<u32, FsError> {
    match fetched(d, fs.fat_lba(0, c as int), 1) {
        Err(e) => Err(e),
        Ok(s) => Ok(le32(s, c as int % 128 * 4) as u32),
    }
}

/// The disk with the entry of `c` set in the first `n` copies of the table.
pub open spec fn with_entry_in(fs: Fat32, d: Disk, c: u32, v: u32, n: int) -> Out<()>
    decreases n,
{
    if n <= 0 {
        Out { disk: d, r: Ok(()) }
    } else {
        let o = with_entry_in(fs, d, c, v, n - 1);
        if o.r is Err {
            o
        } else {
            match fetched(o.disk, fs.fat_lba(n - 1, c as int), 1) {
                Err(e) => Out { disk: o.disk, r: Err(e) },
                Ok(s) => stored(
                    o.disk,
                    fs.fat_lba(n - 1, c as int),
                    1,
                    splice(s, c as int % 128 * 4, le32_bytes(v as int)),
                ),
            }
        }
    }
}

/// The disk with the entry of `c` set in every copy of the table.
pub open spec fn with_entry(fs: Fat32, d: Disk, c: u32, v: u32) -> Out<()> {
    with_entry_in(fs, d, c, v, fs.num_fats as int)
}

/// The cluster after `c`, `None` at the end of the chain.
pub open spec fn next_of(fs: Fat32, d: Disk, c: u32) -> Result<Option<u32>, FsError> {
    match entry(fs, d, c) {
        Err(e) => Err(e),
        Ok(v) => {
            let n = (v % 0x1000_0000) as u32;
            if n >= 0x0FFF_FFF8 {
                Ok(None)
            } else if n < 2 {
                Err(FsError::BadFs)
            } else {
                Ok(Some(n))
            }
        },
    }
}

/// The chain from `c` on, at most `max` clusters of it (one at least).
pub open spec fn chain(fs: Fat32, d: Disk, c: u32, max: int) -> Result<Seq<u32>, FsError>
    decreases max,
{
    if max <= 1 {
        Ok(seq![c])
    } else {
        match next_of(fs, d, c) {
            Err(e) => Err(e),
            Ok(None) => Ok(seq![c]),
            Ok(Some(n)) => match chain(fs, d, n, max - 1) {
                Err(e) => Err(e),
                Ok(rest) => Ok(seq![c] + rest),
            },
        }
    }
}

/// The whole chain from `c` on.
pub open spec fn full_chain(fs: Fat32, d: Disk, c: u32) -> Result<Seq<u32>, FsError> {
    chain(fs, d, c, fs.total_clusters as int)
}

/// The first free cluster from `c` on.
pub open spec fn first_free(fs: Fat32, d: Disk, c: int) -> Result<u32, FsError>
    decreases fs.total_clusters + 2 - c,
{
    if c > 1 + fs.total_clusters {
        Err(FsError::NoSpace)
    } else {
        match entry(fs, d, c as u32) {
            Err(e) => Err(e),
            Ok(v) => if v == 0 {
                Ok(c as u32)
            } else {
                first_free(fs, d, c + 1)
            },
        }
    }
}

/// Take the first free cluster: mark it as the end of a chain, and link it
/// after `prev` where there is one.
pub open spec fn allocated(fs: Fat32, d: Disk, prev: Option<u32>) -> Out<u32> {
    match first_free(fs, d, 2) {
        Err(e) => Out { disk: d, r: Err(e) },
        Ok(c) => {
            let o = with_entry(fs, d, c, EOC);
            match o.r {
                Err(e) => Out { disk: o.disk, r: Err(e) },
                Ok(_) => match prev {
                    None => Out { disk: o.disk, r: Ok(c) },
                    Some(p) => {
                        let q = with_entry(fs, o.disk, p, c);
                        match q.r {
                            Err(e) => Out { disk: q.disk, r: Err(e) },
                            Ok(_) => Out { disk: q.disk, r: Ok(c) },
                        }
                    },
                },
            }
        },
    }
}

/// Free the clusters of a chain from number `keep` up to number `n`.
pub open spec fn freed_upto(fs: Fat32, d: Disk, ch: Seq<u32>, keep: int, n: int) -> Out<()>
    decreases n - keep,
{
    if n <= keep {
        Out { disk: d, r: Ok(()) }
    } else {
        let o = freed_upto(fs, d, ch, keep, n - 1);
        if o.r is Err {
            o
        } else {
            with_entry(fs, o.disk, ch[n - 1], 0)
        }
    }
}

/// Keep the first `keep` clusters of the chain at `first` and free the rest.
pub open spec fn freed(fs: Fat32, d: Disk, first: u32, keep: int) -> Out<()> {
    match full_chain(fs, d, first) {
        Err(e) => Out { disk: d, r: Err(e) },
        Ok(ch) => if keep > ch.len() {
            Out { disk: d, r: Err(FsError::BadFs) }
        } else {
            let o = freed_upto(fs, d, ch, keep, ch.len() as int);
            if o.r is Err || keep == 0 {
                o
            } else {
                with_entry(fs, o.disk, ch[keep - 1], EOC)
            }
        },
    }
}

/// The chain as a sequence.
pub open spec fn chain_view(r: Result<Vec<u32>, FsError>) -> Result<Seq<u32>, FsError> {
    match r {
        Ok(v) => Ok(v@),
        Err(e) => Err(e),
    }
}

/// The bytes as a sequence.
pub open spec fn bytes_view(r: Result<Vec<u8>, FsError>) -> Result<Seq<u8>, FsError> {
    match r {
        Ok(v) => Ok(v@),
        Err(e) => Err(e),
    }
}

impl Fat32 {
    /// The first sector of a cluster.
    fn cluster_lba(&self, c: u32) -> (r: u64)
        requires
            self.wf(),
            c >= 2,
        ensures
            r == self.lba_of(c as int),
    {
        let f = self.num_fats as u64;
        let s = self.fat_sectors as u64;
        let k = (c - 2) as u64;
        let n = self.sectors_per_cluster as u64;
        assert(f * s <= 0xFF * 0xFFFF_FFFF && f * s >= 0) by (nonlinear_arith)
            requires
                0 <= f <= 0xFF,
                0 <= s <= 0xFFFF_FFFF,
        ;
        assert(k * n <= 0xFFFF_FFFF * 16 && k * n >= 0) by (nonlinear_arith)
            requires
                0 <= k <= 0xFFFF_FFFF,
                0 <= n <= 16,
        ;
        self.part_start as u64 + self.reserved as u64 + f * s + k * n
    }

    /// The sector of FAT copy `f` that holds the entry of cluster `c`.
    fn fat_sector(&self, f: u8, c: u32) -> (r: u64)
        requires
            self.wf(),
        ensures
            r == self.fat_lba(f as int, c as int),
    {
        let g = f as u64;
        let s = self.fat_sectors as u64;
        assert(g * s <= 0xFF * 0xFFFF_FFFF && g * s >= 0) by (nonlinear_arith)
            requires
                0 <= g <= 0xFF,
                0 <= s <= 0xFFFF_FFFF,
        ;
        self.part_start as u64 + self.reserved as u64 + g * s + (c / 128) as u64
    }

    /// Bytes of a cluster.
    fn cluster_bytes(&self) -> (r: usize)
        requires
            self.wf(),
        ensures
            r == self.cluster_size(),
            512 <= r <= 8192,
            r % 512 == 0,
    {
        self.sectors_per_cluster as usize * SECTOR_SIZE
    }

    fn read_cluster(&self, dev: &AtaDrive, c: u32) -> (r: Result<Vec<u8>, FsError>)
        requires
            self.wf(),
            dev.wf(),
        ensures
            reads(disk(*dev), bytes_view(r), cluster(*self, disk(*dev), c)),
            r matches Ok(v) ==> v@.len() == self.cluster_size(),
    {
        if c < 2 {
            return Err(FsError::BadFs);
        }
        fetch(dev, self.cluster_lba(c), self.sectors_per_cluster)
    }

    fn write_cluster(&self, dev: &mut AtaDrive, c: u32, data: &Vec<u8>) -> (r: Result<(), FsError>)
        requires
            self.wf(),
            old(dev).wf(),
            data@.len() == self.cluster_size(),
        ensures
            final(dev).wf(),
            disk(*final(dev)) == with_cluster(*self, disk(*old(dev)), c, data@).disk,
            r == with_cluster(*self, disk(*old(dev)), c, data@).r,
            !crate::vfs::is_pending(r),
            traced(disk(*old(dev)), disk(*final(dev))),
    {
        if c < 2 {
            return Err(FsError::BadFs);
        }
        store(dev, self.cluster_lba(c), self.sectors_per_cluster, data)
    }

    fn fat_entry(&self, dev: &AtaDrive, c: u32) -> (r: Result<u32, FsError>)
        requires
            self.wf(),
            dev.wf(),
        ensures
            reads(disk(*dev), r, entry(*self, disk(*dev), c)),
    {
        match fetch(dev, self.fat_sector(0, c), 1) {
            Err(e) => Err(e),
            Ok(s) => Ok(get_u32(s.as_slice(), (c % 128) as usize * 4)),
        }
    }

    /// Set a table entry in every copy.
    fn set_fat_entry(&self, dev: &mut AtaDrive, c: u32, v: u32) -> (r: Result<(), FsError>)
        requires
            self.wf(),
            old(dev).wf(),
        ensures
            final(dev).wf(),
            does(disk(*old(dev)), disk(*final(dev)), r, with_entry(*self, disk(*old(dev)), c, v)),
            only_grew(disk(*old(dev)), disk(*final(dev))),
    {
        let mut f: u8 = 0;
        while f < self.num_fats
            invariant
                self.wf(),
                dev.wf(),
                f <= self.num_fats,
                only_grew(disk(*old(dev)), disk(*dev)),
                traced(disk(*old(dev)), disk(*dev)),
                with_entry_in(*self, disk(*old(dev)), c, v, f as int) == (Out {
                    disk: disk(*dev),
                    r: Ok::<(), FsError>(()),
                }),
            decreases self.num_fats - f,
        {
            let lba = self.fat_sector(f, c);
            let ghost before = disk(*dev);
            match fetch(dev, lba, 1) {
                Err(e) => {
                    proof {
                        lemma_entry_in_stops(
                            *self,
                            disk(*old(dev)),
                            c,
                            v,
                            f + 1,
                            self.num_fats as int,
                        );
                    }
                    return Err(e);
                },
                Ok(mut s) => {
                    put_u32(s.as_mut_slice(), (c % 128) as usize * 4, v);
                    match store(dev, lba, 1, &s) {
                        Err(e) => {
                            proof {
                                lemma_entry_in_stops(
                                    *self,
                                    disk(*old(dev)),
                                    c,
                                    v,
                                    f + 1,
                                    self.num_fats as int,
                                );
                            }
                            return Err(e);
                        },
                        Ok(_) => {},
                    }
                },
            }
            f += 1;
        }
        Ok(())
    }

    /// The cluster after `c`, `None` at the end of the chain.
    fn next_cluster(&self, dev: &AtaDrive, c: u32) -> (r: Result<Option<u32>, FsError>)
        requires
            self.wf(),
            dev.wf(),
        ensures
            reads(disk(*dev), r, next_of(*self, disk(*dev), c)),
    {
        match self.fat_entry(dev, c) {
            Err(e) => Err(e),
            Ok(v) => {
                let n = v % 0x1000_0000;
                if n >= 0x0FFF_FFF8 {
                    Ok(None)
                } else if n < 2 {
                    Err(FsError::BadFs)
                } else {
                    Ok(Some(n))
                }
            },
        }
    }

    /// Walk the chain at `first`, at most `max` clusters of it.
    fn walk_chain(&self, dev: &AtaDrive, first: u32, max: u32) -> (r: Result<Vec<u32>, FsError>)
        requires
            self.wf(),
            dev.wf(),
        ensures
            reads(disk(*dev), chain_view(r), chain(*self, disk(*dev), first, max as int)),
            r matches Ok(v) ==> v@.len() >= 1 && v@.len() <= max + 1,
    {
        let ghost d = disk(*dev);
        let mut out: Vec<u32> = Vec::new();
        let mut c = first;
        let mut left = max;
        assert(out@ =~= Seq::empty());
        while left > 1
            invariant
                self.wf(),
                dev.wf(),
                d == disk(*dev),
                left <= max,
                left == 0 ==> out@.len() == 0,
                left >= 1 ==> out@.len() + left == max,
                prefixed(out@, chain(*self, d, c, left as int)) == chain(*self, d, first, max as int),
            decreases left,
        {
            let ghost before = out@;
            out.push(c);
            match self.next_cluster(dev, c) {
                Err(e) => {
                    return Err(e);
                },
                Ok(None) => {
                    assert(out@ =~= before + seq![c]);
                    return Ok(out);
                },
                Ok(Some(n)) => {
                    proof {
                        if let Ok(rest) = chain(*self, d, n, left - 1) {
                            assert(before + (seq![c] + rest) =~= out@ + rest);
                        }
                    }
                    c = n;
                },
            }
            left -= 1;
        }
        let ghost before = out@;
        out.push(c);
        assert(out@ =~= before + seq![c]);
        Ok(out)
    }

    /// Take a free cluster and link it after `prev`.
    fn alloc_cluster(&self, dev: &mut AtaDrive, prev: Option<u32>) -> (r: Result<u32, FsError>)
        requires
            self.wf(),
            old(dev).wf(),
        ensures
            final(dev).wf(),
            does(disk(*old(dev)), disk(*final(dev)), r, allocated(*self, disk(*old(dev)), prev)),
            only_grew(disk(*old(dev)), disk(*final(dev))),
    {
        let last = 1 + self.total_clusters;
        let mut c: u32 = 2;
        while c <= last
            invariant
                self.wf(),
                dev.wf(),
                *dev == *old(dev),
                last == 1 + self.total_clusters,
                2 <= c <= last + 1,
                first_free(*self, disk(*dev), 2) == first_free(*self, disk(*dev), c as int),
            decreases last + 1 - c,
        {
            match self.fat_entry(dev, c) {
                Err(e) => {
                    return Err(e);
                },
                Ok(v) => {
                    if v == 0 {
                        return self.take_cluster(dev, c, prev);
                    }
                },
            }
            c += 1;
        }
        Err(FsError::NoSpace)
    }

    /// Mark the free cluster `c` as the end of a chain and link it.
    fn take_cluster(&self, dev: &mut AtaDrive, c: u32, prev: Option<u32>) -> (r: Result<u32, FsError>)
        requires
            self.wf(),
            old(dev).wf(),
            first_free(*self, disk(*old(dev)), 2) == Ok::<u32, FsError>(c),
        ensures
            final(dev).wf(),
            does(disk(*old(dev)), disk(*final(dev)), r, allocated(*self, disk(*old(dev)), prev)),
            only_grew(disk(*old(dev)), disk(*final(dev))),
    {
        match self.set_fat_entry(dev, c, EOC) {
            Err(e) => Err(e),
            Ok(_) => match prev {
                None => Ok(c),
                Some(p) => match self.set_fat_entry(dev, p, c) {
                    Err(e) => Err(e),
                    Ok(_) => Ok(c),
                },
            },
        }
    }

    /// Keep the first `keep` clusters of a chain and free the rest.
    fn free_from(&self, dev: &mut AtaDrive, first: u32, keep: usize) -> (r: Result<(), FsError>)
        requires
            self.wf(),
            old(dev).wf(),
        ensures
            final(dev).wf(),
            does(disk(*old(dev)), disk(*final(dev)), r, freed(*self, disk(*old(dev)), first, keep as int)),
            only_grew(disk(*old(dev)), disk(*final(dev))),
    {
        let ch = match self.walk_chain(dev, first, self.total_clusters) {
            Err(e) => {
                return Err(e);
            },
            Ok(v) => v,
        };
        let n = ch.len();
        if keep > n {
            return Err(FsError::BadFs);
        }
        let ghost d = disk(*dev);
        let mut i: usize = keep;
        while i < n
            invariant
                self.wf(),
                dev.wf(),
                n == ch@.len(),
                keep <= i <= n,
                d == disk(*old(dev)),
                full_chain(*self, d, first) == Ok::<Seq<u32>, FsError>(ch@),
                only_grew(d, disk(*dev)),
                traced(d, disk(*dev)),
                freed_upto(*self, d, ch@, keep as int, i as int) == (Out {
                    disk: disk(*dev),
                    r: Ok::<(), FsError>(()),
                }),
            decreases n - i,
        {
            match self.set_fat_entry(dev, ch[i], 0) {
                Err(e) => {
                    proof {
                        lemma_freed_stops(*self, d, ch@, keep as int, i + 1, n as int);
                    }
                    return Err(e);
                },
                Ok(_) => {},
            }
            i += 1;
        }
        if keep > 0 {
            return self.set_fat_entry(dev, ch[keep - 1], EOC);
        }
        Ok(())
    }
}

/// `rest` with `front` before it.
pub open spec fn prefixed(front: Seq<u32>, rest: Result<Seq<u32>, FsError>) -> Result<
    Seq<u32>,
    FsError,
> {
    match rest {
        Err(e) => Err(e),
        Ok(s) => Ok(front + s),
    }
}

proof fn lemma_entry_in_stops(fs: Fat32, d: Disk, c: u32, v: u32, k: int, n: int)
    requires
        0 <= k <= n,
        with_entry_in(fs, d, c, v, k).r is Err,
    ensures
        with_entry_in(fs, d, c, v, n) == with_entry_in(fs, d, c, v, k),
    decreases n,
{
    if n > k {
        lemma_entry_in_stops(fs, d, c, v, k, n - 1);
    }
}

proof fn lemma_freed_stops(fs: Fat32, d: Disk, ch: Seq<u32>, keep: int, k: int, n: int)
    requires
        keep <= k <= n,
        freed_upto(fs, d, ch, keep, k).r is Err,
    ensures
        freed_upto(fs, d, ch, keep, n) == freed_upto(fs, d, ch, keep, k),
    decreases n - k,
{
    if n > k {
        lemma_freed_stops(fs, d, ch, keep, k, n - 1);
    }
}

// ---------------------------------------------------------------------------
// Directory slots
// ---------------------------------------------------------------------------

/// A directory entry: its names, what it points at, and its place.
pub struct RawEntry {
    /// The long name where there is one, the short name otherwise.
    pub name: Vec<char>,
    /// The 8.3 name.
    pub short: Vec<char>,
    pub first_cluster: u32,
    pub size: u32,
    pub is_dir: bool,
    /// The slot's number within its directory.
    pub dir_index: u64,
    /// The first cluster of its directory.
    pub dir_cluster: u32,
}

/// A directory entry in mathematical terms.
#[verifier::ext_equal]
pub struct Entry {
    pub name: Seq<char>,
    pub short: Seq<char>,
    pub first_cluster: u32,
    pub size: u32,
    pub is_dir: bool,
    pub dir_index: int,
    pub dir_cluster: u32,
}

impl RawEntry {
    pub open spec fn view(&self) -> Entry {
        Entry {
            name: self.name@,
            short: self.short@,
            first_cluster: self.first_cluster,
            size: self.size,
            is_dir: self.is_dir,
            dir_index: self.dir_index as int,
            dir_cluster: self.dir_cluster,
        }
    }
}

/// The entries in mathematical terms.
pub open spec fn entries_view(v: Seq<RawEntry>) -> Seq<Entry> {
    Seq::new(v.len(), |i: int| v[i]@)
}

/// One slot of a long name: its number and its thirteen UTF-16 units.
pub struct LfnPart {
    pub ord: u8,
    pub units: Vec<u8>,
}

/// A slot of a long name in mathematical terms.
pub type Part = (u8, Seq<u8>);

/// The slots of a long name in mathematical terms.
pub open spec fn parts_view(v: Seq<LfnPart>) -> Seq<Part> {
    Seq::new(v.len(), |i: int| (v[i].ord, v[i].units@))
}

/// The name units of a long-name slot: five, six and two of them.
pub open spec fn lfn_units(slot: Seq<u8>) -> Seq<u8> {
    slot.subrange(1, 11) + slot.subrange(14, 26) + slot.subrange(28, 32)
}

/// `s`, in order of the slot numbers, with `p` behind those that do not come
/// after it.
pub open spec fn inserted(s: Seq<Part>, p: Part) -> Seq<Part>
    decreases s.len(),
{
    if s.len() == 0 || s.last().0 <= p.0 {
        s.push(p)
    } else {
        inserted(s.drop_last(), p).push(s.last())
    }
}

/// The slots in order of their numbers; equal numbers keep their order.
pub open spec fn ordered(s: Seq<Part>) -> Seq<Part>
    decreases s.len(),
{
    if s.len() == 0 {
        s
    } else {
        inserted(ordered(s.drop_last()), s.last())
    }
}

/// Unit `j` of the slots put together.
pub open spec fn unit_of(s: Seq<Part>, j: int) -> int {
    le16(s[j / 13].1, j % 13 * 2)
}

/// The name from unit `j` on: up to a zero or an all-ones unit.
pub open spec fn lfn_from(s: Seq<Part>, j: int) -> Seq<char>
    decreases 13 * s.len() - j,
{
    if j >= 13 * s.len() || unit_of(s, j) == 0 || unit_of(s, j) == 0xFFFF {
        Seq::empty()
    } else {
        seq![unit_char(unit_of(s, j))] + lfn_from(s, j + 1)
    }
}

/// The long name that the slots spell.
pub open spec fn long_name(s: Seq<Part>) -> Seq<char> {
    lfn_from(ordered(s), 0)
}

/// A byte of a short name as a character.
pub open spec fn short_char(b: u8, lower: bool) -> char {
    if lower && 65 <= b <= 90 {
        (b + 32) as u8 as char
    } else {
        b as char
    }
}

/// The bytes `i..to` of a short name up to a space.
pub open spec fn stem(s: Seq<u8>, i: int, to: int, lower: bool) -> Seq<char>
    decreases to - i,
{
    if i >= to || s[i] == 0x20 {
        Seq::empty()
    } else {
        seq![short_char(s[i], lower)] + stem(s, i + 1, to, lower)
    }
}

/// The 8.3 name of a slot; byte 12 says which half is in lower case.
pub open spec fn short_of(slot: Seq<u8>) -> Seq<char> {
    let s = if slot[0] == 0x05 {
        slot.update(0, 0xE5)
    } else {
        slot
    };
    let base = stem(s, 0, 8, slot[12] / 8 % 2 == 1);
    if slot[8] == 0x20 && slot[9] == 0x20 && slot[10] == 0x20 {
        base
    } else {
        base + seq!['.'] + stem(s, 8, 11, slot[12] / 16 % 2 == 1)
    }
}

/// The scan of a directory so far.
#[verifier::ext_equal]
pub struct Scan {
    pub out: Seq<Entry>,
    pub lfn: Seq<Part>,
    pub done: bool,
}

/// The entry that a plain slot holds, after the long-name slots `lfn`.
pub open spec fn slot_entry(lfn: Seq<Part>, slot: Seq<u8>, index: int, dir: u32) -> Entry {
    Entry {
        name: if lfn.len() == 0 {
            short_of(slot)
        } else {
            long_name(lfn)
        },
        short: short_of(slot),
        first_cluster: (0x1_0000 * le16(slot, 20) + le16(slot, 26)) as u32,
        size: le32(slot, 28) as u32,
        is_dir: slot[11] / 16 % 2 == 1,
        dir_index: index,
        dir_cluster: dir,
    }
}

/// One more slot: the end mark stops the scan, deleted slots and labels are
/// skipped, long-name slots are collected for the entry that follows.
pub open spec fn scan_slot(st: Scan, slot: Seq<u8>, index: int, dir: u32) -> Scan {
    if st.done {
        st
    } else if slot[0] == 0 {
        Scan { done: true, ..st }
    } else if slot[0] == 0xE5 {
        Scan { lfn: Seq::empty(), ..st }
    } else if slot[11] == ATTR_LFN {
        Scan { lfn: st.lfn.push(((slot[0] % 32) as u8, lfn_units(slot))), ..st }
    } else if slot[11] / 8 % 2 == 1 {
        Scan { lfn: Seq::empty(), ..st }
    } else {
        Scan {
            out: st.out.push(slot_entry(st.lfn, slot, index, dir)),
            lfn: Seq::empty(),
            done: false,
        }
    }
}

/// After `n` slots of a cluster whose first slot has number `base`.
pub open spec fn scan_slots(st: Scan, buf: Seq<u8>, n: int, base: int, dir: u32) -> Scan
    decreases n,
{
    if n <= 0 {
        st
    } else {
        scan_slot(
            scan_slots(st, buf, n - 1, base, dir),
            buf.subrange(32 * (n - 1), 32 * n),
            base + n - 1,
            dir,
        )
    }
}

/// After `n` clusters of the directory's chain.
pub open spec fn scan_clusters(fs: Fat32, d: Disk, ch: Seq<u32>, n: int, dir: u32) -> Result<
    Scan,
    FsError,
>
    decreases n,
{
    if n <= 0 {
        Ok(Scan { out: Seq::empty(), lfn: Seq::empty(), done: false })
    } else {
        match scan_clusters(fs, d, ch, n - 1, dir) {
            Err(e) => Err(e),
            Ok(st) => if st.done {
                Ok(st)
            } else {
                match cluster(fs, d, ch[n - 1]) {
                    Err(e) => Err(e),
                    Ok(buf) => Ok(
                        scan_slots(
                            st,
                            buf,
                            fs.cluster_size() / 32,
                            (n - 1) * (fs.cluster_size() / 32),
                            dir,
                        ),
                    ),
                }
            },
        }
    }
}

/// The entries of the directory whose chain starts at `dir`.
pub open spec fn dir_entries(fs: Fat32, d: Disk, dir: u32) -> Result<Seq<Entry>, FsError> {
    match full_chain(fs, d, dir) {
        Err(e) => Err(e),
        Ok(ch) => match scan_clusters(fs, d, ch, ch.len() as int, dir) {
            Err(e) => Err(e),
            Ok(st) => Ok(st.out),
        },
    }
}

/// The entries as a sequence.
pub open spec fn scan_view(r: Result<Vec<RawEntry>, FsError>) -> Result<Seq<Entry>, FsError> {
    match r {
        Ok(v) => Ok(entries_view(v@)),
        Err(e) => Err(e),
    }
}

/// Put a slot in its place among the ordered ones.
fn insert_part(s: &mut Vec<LfnPart>, p: LfnPart)
    ensures
        parts_view(final(s)@) == inserted(parts_view(old(s)@), (p.ord, p.units@)),
{
    let mut i: usize = s.len();
    let ghost all = parts_view(s@);
    let ghost q = (p.ord, p.units@);
    assert(all.take(i as int) + all.skip(i as int) =~= all);
    assert(inserted(all.take(i as int), q) + all.skip(i as int) =~= inserted(all, q)) by {
        assert(all.take(i as int) =~= all);
    }
    while i > 0 && s[i - 1].ord > p.ord
        invariant
            i <= s@.len(),
            all == parts_view(s@),
            q == (p.ord, p.units@),
            inserted(all.take(i as int), q) + all.skip(i as int) == inserted(all, q),
        decreases i,
    {
        proof {
            let t = all.take(i as int);
            assert(t.last() == all[i - 1]);
            assert(t.drop_last() =~= all.take(i - 1));
            assert(inserted(all.take(i - 1), q) + all.skip(i - 1) =~= inserted(t, q) + all.skip(
                i as int,
            ));
        }
        i -= 1;
    }
    proof {
        let t = all.take(i as int);
        if i > 0 {
            assert(t.last() == all[i - 1]);
        }
        assert(inserted(t, q) == t.push(q));
        assert(all.insert(i as int, q) =~= t.push(q) + all.skip(i as int));
    }
    s.insert(i, p);
    assert(parts_view(s@) =~= all.insert(i as int, q));
}

/// The slots in order of their numbers.
fn order_parts(parts: &Vec<LfnPart>) -> (r: Vec<LfnPart>)
    ensures
        parts_view(r@) == ordered(parts_view(parts@)),
{
    let ghost all = parts_view(parts@);
    let mut r: Vec<LfnPart> = Vec::new();
    let mut k: usize = 0;
    assert(parts_view(r@) =~= ordered(all.take(0)));
    while k < parts.len()
        invariant
            k <= parts@.len(),
            all == parts_view(parts@),
            parts_view(r@) == ordered(all.take(k as int)),
        decreases parts@.len() - k,
    {
        let p = &parts[k];
        let c = LfnPart { ord: p.ord, units: copy_bytes(&p.units) };
        proof {
            let t = all.take(k + 1);
            assert(t.last() == all[k as int]);
            assert(t.drop_last() =~= all.take(k as int));
        }
        insert_part(&mut r, c);
        k += 1;
    }
    assert(all.take(parts@.len() as int) =~= all);
    r
}

fn copy_bytes(v: &Vec<u8>) -> (r: Vec<u8>)
    ensures
        r@ == v@,
{
    let r = crate::bytes::copy_range(v.as_slice(), 0, v.len());
    assert(r@ =~= v@);
    r
}

/// Every slot has its thirteen units.
pub open spec fn parts_ok(s: Seq<Part>) -> bool {
    forall|i: int| 0 <= i < s.len() ==> (#[trigger] s[i]).1.len() == 26
}

proof fn lemma_inserted_ok(s: Seq<Part>, p: Part)
    requires
        parts_ok(s),
        p.1.len() == 26,
    ensures
        parts_ok(inserted(s, p)),
    decreases s.len(),
{
    if s.len() > 0 && s.last().0 > p.0 {
        lemma_inserted_ok(s.drop_last(), p);
    }
}

proof fn lemma_ordered_ok(s: Seq<Part>)
    requires
        parts_ok(s),
    ensures
        parts_ok(ordered(s)),
    decreases s.len(),
{
    if s.len() > 0 {
        lemma_ordered_ok(s.drop_last());
        lemma_inserted_ok(ordered(s.drop_last()), s.last());
    }
}

/// Assemble a long name from its slots.
fn lfn_name(parts: &Vec<LfnPart>) -> (r: Vec<char>)
    requires
        parts_ok(parts_view(parts@)),
    ensures
        r@ == long_name(parts_view(parts@)),
{
    let sorted = order_parts(parts);
    let ghost s = parts_view(sorted@);
    proof {
        lemma_ordered_ok(parts_view(parts@));
    }
    let mut r: Vec<char> = Vec::new();
    let mut i: usize = 0;
    assert(r@ + lfn_from(s, 0) =~= lfn_from(s, 0));
    while i < sorted.len()
        invariant
            i <= sorted@.len(),
            s == parts_view(sorted@),
            parts_ok(s),
            s == ordered(parts_view(parts@)),
            r@ + lfn_from(s, 13 * i) == lfn_from(s, 0),
        decreases sorted@.len() - i,
    {
        let mut k: usize = 0;
        assert(s[i as int].1.len() == 26);
        while k < 13
            invariant
                i < sorted@.len(),
                k <= 13,
                s == parts_view(sorted@),
                s[i as int].1.len() == 26,
                s == ordered(parts_view(parts@)),
                r@ + lfn_from(s, 13 * i + k) == lfn_from(s, 0),
            decreases 13 - k,
        {
            let u = get_u16(sorted[i].units.as_slice(), k * 2);
            proof {
                let j = 13 * i + k;
                assert(j / 13 == i as int && j % 13 == k as int);
                assert(unit_of(s, j) == u);
            }
            if u == 0 || u == 0xFFFF {
                assert(r@ =~= r@ + lfn_from(s, 13 * i + k));
                return r;
            }
            let ghost before = r@;
            r.push(unit(u));
            assert(before + (seq![unit_char(u as int)] + lfn_from(s, 13 * i + k + 1)) =~= r@
                + lfn_from(s, 13 * i + k + 1));
            k += 1;
        }
        i += 1;
    }
    assert(r@ =~= r@ + lfn_from(s, 13 * s.len() as int));
    r
}

/// Append the bytes `from..to` of a short name up to a space.
fn push_stem(r: &mut Vec<char>, s: &Vec<u8>, from: usize, to: usize, lower: bool)
    requires
        from <= to <= s@.len(),
    ensures
        final(r)@ == old(r)@ + stem(s@, from as int, to as int, lower),
{
    let mut i: usize = from;
    let ghost want = r@ + stem(s@, from as int, to as int, lower);
    while i < to && s[i] != 0x20
        invariant
            from <= i <= to <= s@.len(),
            r@ + stem(s@, i as int, to as int, lower) == want,
        decreases to - i,
    {
        let b = s[i];
        let c = if lower && 65 <= b && b <= 90 {
            (b + 32) as char
        } else {
            b as char
        };
        let ghost before = r@;
        r.push(c);
        assert(before + (seq![c] + stem(s@, i + 1, to as int, lower)) =~= r@ + stem(
            s@,
            i + 1,
            to as int,
            lower,
        ));
        i += 1;
    }
    assert(r@ =~= r@ + stem(s@, i as int, to as int, lower));
}

/// Decode the 8.3 name of a slot.
fn short_name(slot: &Vec<u8>) -> (r: Vec<char>)
    requires
        slot@.len() == 32,
    ensures
        r@ == short_of(slot@),
{
    let mut s = copy_bytes(slot);
    if s[0] == 0x05 {
        s[0] = 0xE5;
    }
    let flags = slot[12];
    let mut r: Vec<char> = Vec::new();
    push_stem(&mut r, &s, 0, 8, flags / 8 % 2 == 1);
    assert(r@ =~= stem(s@, 0, 8, flags / 8 % 2 == 1));
    if slot[8] != 0x20 || slot[9] != 0x20 || slot[10] != 0x20 {
        let ghost base = r@;
        r.push('.');
        push_stem(&mut r, &s, 8, 11, flags / 16 % 2 == 1);
        assert(r@ =~= base + seq!['.'] + stem(s@, 8, 11, flags / 16 % 2 == 1));
    }
    r
}

/// The scan of a directory so far.
struct ScanState {
    out: Vec<RawEntry>,
    lfn: Vec<LfnPart>,
    done: bool,
}

impl ScanState {
    spec fn view(&self) -> Scan {
        Scan { out: entries_view(self.out@), lfn: parts_view(self.lfn@), done: self.done }
    }
}

fn take_slot(st: &mut ScanState, slot: &Vec<u8>, index: u64, dir: u32)
    requires
        slot@.len() == 32,
        parts_ok(old(st)@.lfn),
    ensures
        final(st)@ == scan_slot(old(st)@, slot@, index as int, dir),
        parts_ok(final(st)@.lfn),
{
    if st.done {
        return;
    }
    let s = slot.as_slice();
    let attr = slot[11];
    if slot[0] == 0 {
        st.done = true;
    } else if slot[0] == 0xE5 {
        st.lfn = Vec::new();
        assert(parts_view(st.lfn@) =~= Seq::empty());
    } else if attr == ATTR_LFN {
        let ghost before = parts_view(st.lfn@);
        let mut units = crate::bytes::copy_range(s, 1, 11);
        let mut b = crate::bytes::copy_range(s, 14, 26);
        let mut c = crate::bytes::copy_range(s, 28, 32);
        units.append(&mut b);
        units.append(&mut c);
        assert(units@ =~= lfn_units(slot@));
        st.lfn.push(LfnPart { ord: slot[0] % 32, units });
        assert(parts_view(st.lfn@) =~= before.push(((slot@[0] % 32) as u8, lfn_units(slot@))));
    } else if attr / 8 % 2 == 1 {
        st.lfn = Vec::new();
        assert(parts_view(st.lfn@) =~= Seq::empty());
    } else {
        let short = short_name(slot);
        let name = if st.lfn.len() == 0 {
            crate::vfs::piece(&short, 0, short.len())
        } else {
            lfn_name(&st.lfn)
        };
        assert(short@.subrange(0, short@.len() as int) =~= short@);
        let lo = get_u16(s, 26);
        let hi = get_u16(s, 20);
        let ghost before = entries_view(st.out@);
        let e = RawEntry {
            name,
            short,
            first_cluster: 0x1_0000 * hi as u32 + lo as u32,
            size: get_u32(s, 28),
            is_dir: attr / 16 % 2 == 1,
            dir_index: index,
            dir_cluster: dir,
        };
        assert(e@ == slot_entry(old(st)@.lfn, slot@, index as int, dir));
        st.out.push(e);
        st.lfn = Vec::new();
        assert(entries_view(st.out@) =~= before.push(e@));
        assert(parts_view(st.lfn@) =~= Seq::empty());
    }
}

impl Fat32 {
    /// The slots of one cluster.
    fn take_cluster_slots(&self, st: &mut ScanState, buf: &Vec<u8>, base: u64, dir: u32)
        requires
            self.wf(),
            buf@.len() == self.cluster_size(),
            base + 256 <= u64::MAX,
            parts_ok(old(st)@.lfn),
        ensures
            final(st)@ == scan_slots(old(st)@, buf@, self.cluster_size() / 32, base as int, dir),
            parts_ok(final(st)@.lfn),
    {
        let n = self.cluster_bytes() / 32;
        let mut i: usize = 0;
        while i < n
            invariant
                self.wf(),
                n == self.cluster_size() / 32,
                n <= 256,
                buf@.len() == self.cluster_size(),
                i <= n,
                base + 256 <= u64::MAX,
                parts_ok(st@.lfn),
                st@ == scan_slots(old(st)@, buf@, i as int, base as int, dir),
            decreases n - i,
        {
            let slot = crate::bytes::copy_range(buf.as_slice(), 32 * i, 32 * i + 32);
            take_slot(st, &slot, base + i as u64, dir);
            i += 1;
        }
    }

    /// Every entry of the directory at `dir`, `.` and `..` included.
    fn scan_dir(&self, dev: &AtaDrive, dir: u32) -> (r: Result<Vec<RawEntry>, FsError>)
        requires
            self.wf(),
            dev.wf(),
        ensures
            reads(disk(*dev), scan_view(r), dir_entries(*self, disk(*dev), dir)),
    {
        let ch = match self.walk_chain(dev, dir, self.total_clusters) {
            Err(e) => {
                return Err(e);
            },
            Ok(v) => v,
        };
        let ghost d = disk(*dev);
        let per = self.cluster_bytes() / 32;
        let mut st = ScanState { out: Vec::new(), lfn: Vec::new(), done: false };
        assert(st@ =~= Scan { out: Seq::empty(), lfn: Seq::empty(), done: false });
        let mut i: usize = 0;
        while i < ch.len()
            invariant
                self.wf(),
                dev.wf(),
                d == disk(*dev),
                full_chain(*self, d, dir) == Ok::<Seq<u32>, FsError>(ch@),
                ch@.len() <= self.total_clusters + 1,
                per == self.cluster_size() / 32,
                per <= 256,
                i <= ch@.len(),
                parts_ok(st@.lfn),
                scan_clusters(*self, d, ch@, i as int, dir) == Ok::<Scan, FsError>(st@),
            decreases ch@.len() - i,
        {
            if st.done {
                proof {
                    lemma_scan_stops(*self, d, ch@, i as int, ch@.len() as int, dir);
                }
                return Ok(st.out);
            }
            match self.read_cluster(dev, ch[i]) {
                Err(e) => {
                    proof {
                        lemma_scan_fails(*self, d, ch@, i + 1, ch@.len() as int, dir);
                    }
                    return Err(e);
                },
                Ok(buf) => {
                    assert(i * per <= 0x1_0000_0000 * 256) by (nonlinear_arith)
                        requires
                            0 <= i <= 0x1_0000_0000,
                            0 <= per <= 256,
                    ;
                    assert(i * per >= 0) by (nonlinear_arith);
                    self.take_cluster_slots(&mut st, &buf, i as u64 * per as u64, dir);
                },
            }
            i += 1;
        }
        Ok(st.out)
    }
}

proof fn lemma_scan_stops(fs: Fat32, d: Disk, ch: Seq<u32>, k: int, n: int, dir: u32)
    requires
        0 <= k <= n,
        scan_clusters(fs, d, ch, k, dir) matches Ok(st) && st.done,
    ensures
        scan_clusters(fs, d, ch, n, dir) == scan_clusters(fs, d, ch, k, dir),
    decreases n,
{
    if n > k {
        lemma_scan_stops(fs, d, ch, k, n - 1, dir);
    }
}

proof fn lemma_scan_fails(fs: Fat32, d: Disk, ch: Seq<u32>, k: int, n: int, dir: u32)
    requires
        0 <= k <= n,
        scan_clusters(fs, d, ch, k, dir) is Err,
    ensures
        scan_clusters(fs, d, ch, n, dir) == scan_clusters(fs, d, ch, k, dir),
    decreases n,
{
    if n > k {
        lemma_scan_fails(fs, d, ch, k, n - 1, dir);
    }
}

// ---------------------------------------------------------------------------
// Paths
// ---------------------------------------------------------------------------

/// The name is the entry's long or short name, whatever the case.
pub open spec fn is_named(e: Entry, name: Seq<char>) -> bool {
    same_name(e.name, name) || same_name(e.short, name)
}

/// The first entry from number `k` on with that name.
pub open spec fn first_named(es: Seq<Entry>, name: Seq<char>, k: int) -> Option<Entry>
    decreases es.len() - k,
{
    if k >= es.len() {
        None
    } else if is_named(es[k], name) {
        Some(es[k])
    } else {
        first_named(es, name, k + 1)
    }
}

/// The entry of that name in a directory.
pub open spec fn found(fs: Fat32, d: Disk, dir: u32, name: Seq<char>) -> Result<
    Option<Entry>,
    FsError,
> {
    match dir_entries(fs, d, dir) {
        Err(e) => Err(e),
        Ok(es) => Ok(first_named(es, name, 0)),
    }
}

/// The directory that the first `n` components name.
pub open spec fn dir_at(fs: Fat32, d: Disk, ps: Seq<Seq<char>>, n: int) -> Result<u32, FsError>
    decreases n,
{
    if n <= 0 {
        Ok(fs.root_cluster)
    } else {
        match dir_at(fs, d, ps, n - 1) {
            Err(e) => Err(e),
            Ok(dir) => match found(fs, d, dir, ps[n - 1]) {
                Err(e) => Err(e),
                Ok(None) => Err(FsError::NotFound),
                Ok(Some(e)) => if !e.is_dir || e.first_cluster < 2 {
                    Err(FsError::BadFs)
                } else {
                    Ok(e.first_cluster)
                },
            },
        }
    }
}

/// What a path names: the root, or an entry.
pub enum Node {
    Root,
    At(Entry),
}

/// What `path` names; `None` where only the last component is missing.
pub open spec fn node_at(fs: Fat32, d: Disk, path: Seq<char>) -> Result<Option<Node>, FsError> {
    match path_parts(path) {
        None => Err(FsError::NotSupported),
        Some(ps) => if ps.len() == 0 {
            Ok(Some(Node::Root))
        } else {
            match dir_at(fs, d, ps, ps.len() - 1) {
                Err(e) => Err(e),
                Ok(dir) => match found(fs, d, dir, ps.last()) {
                    Err(e) => Err(e),
                    Ok(None) => Ok(None),
                    Ok(Some(e)) => Ok(Some(Node::At(e))),
                },
            }
        },
    }
}

/// The directory that holds what `path` names, and the last component.
pub open spec fn parent_of(fs: Fat32, d: Disk, path: Seq<char>) -> Result<(u32, Seq<char>), FsError> {
    match path_parts(path) {
        None => Err(FsError::NotSupported),
        Some(ps) => if ps.len() == 0 {
            Err(FsError::NotSupported)
        } else {
            match dir_at(fs, d, ps, ps.len() - 1) {
                Err(e) => Err(e),
                Ok(dir) => Ok((dir, ps.last())),
            }
        },
    }
}

/// What a path names.
enum Resolution {
    Root,
    At(RawEntry),
}

spec fn node_view(r: Result<Option<Resolution>, FsError>) -> Result<Option<Node>, FsError> {
    match r {
        Err(e) => Err(e),
        Ok(None) => Ok(None),
        Ok(Some(Resolution::Root)) => Ok(Some(Node::Root)),
        Ok(Some(Resolution::At(e))) => Ok(Some(Node::At(e@))),
    }
}

/// The entry in mathematical terms.
pub open spec fn entry_view(r: Result<Option<RawEntry>, FsError>) -> Result<Option<Entry>, FsError> {
    match r {
        Err(e) => Err(e),
        Ok(None) => Ok(None),
        Ok(Some(e)) => Ok(Some(e@)),
    }
}

fn copy_entry(e: &RawEntry) -> (r: RawEntry)
    ensures
        r@ == e@,
{
    let name = crate::vfs::piece(&e.name, 0, e.name.len());
    let short = crate::vfs::piece(&e.short, 0, e.short.len());
    assert(name@ =~= e.name@);
    assert(short@ =~= e.short@);
    RawEntry {
        name,
        short,
        first_cluster: e.first_cluster,
        size: e.size,
        is_dir: e.is_dir,
        dir_index: e.dir_index,
        dir_cluster: e.dir_cluster,
    }
}

impl Fat32 {
    /// Look a name up in one directory, whatever its case.
    fn find_in(&self, dev: &AtaDrive, dir: u32, name: &Vec<char>) -> (r: Result<
        Option<RawEntry>,
        FsError,
    >)
        requires
            self.wf(),
            dev.wf(),
        ensures
            reads(disk(*dev), entry_view(r), found(*self, disk(*dev), dir, name@)),
    {
        let es = match self.scan_dir(dev, dir) {
            Err(e) => {
                return Err(e);
            },
            Ok(v) => v,
        };
        let ghost all = entries_view(es@);
        let mut k: usize = 0;
        while k < es.len()
            invariant
                k <= es@.len(),
                all == entries_view(es@),
                first_named(all, name@, 0) == first_named(all, name@, k as int),
                dir_entries(*self, disk(*dev), dir) == Ok::<Seq<Entry>, FsError>(all),
            decreases es@.len() - k,
        {
            assert(all[k as int] == es@[k as int]@);
            if names_match(&es[k].name, name) || names_match(&es[k].short, name) {
                return Ok(Some(copy_entry(&es[k])));
            }
            k += 1;
        }
        Ok(None)
    }

    /// Walk to the directory that the first `n` components name.
    fn walk_dirs(&self, dev: &AtaDrive, parts: &Vec<Vec<char>>, n: usize) -> (r: Result<u32, FsError>)
        requires
            self.wf(),
            dev.wf(),
            n <= parts@.len(),
        ensures
            reads(disk(*dev), r, dir_at(*self, disk(*dev), names(parts@), n as int)),
    {
        let ghost ps = names(parts@);
        let ghost d = disk(*dev);
        let mut dir = self.root_cluster;
        let mut k: usize = 0;
        while k < n
            invariant
                self.wf(),
                dev.wf(),
                d == disk(*dev),
                ps == names(parts@),
                k <= n <= parts@.len(),
                dir_at(*self, d, ps, k as int) == Ok::<u32, FsError>(dir),
            decreases n - k,
        {
            assert(ps[k as int] == parts@[k as int]@);
            let f = self.find_in(dev, dir, &parts[k]);
            let mut bad: Option<FsError> = None;
            match f {
                Err(e) => {
                    bad = Some(e);
                },
                Ok(None) => {
                    bad = Some(FsError::NotFound);
                },
                Ok(Some(e)) => {
                    if !e.is_dir || e.first_cluster < 2 {
                        bad = Some(FsError::BadFs);
                    } else {
                        dir = e.first_cluster;
                    }
                },
            }
            if let Some(e) = bad {
                proof {
                    lemma_dir_at_fails(*self, d, ps, k + 1, n as int);
                }
                return Err(e);
            }
            k += 1;
        }
        Ok(dir)
    }

    /// Resolve `path`; a missing last component gives `None`.
    fn resolve(&self, dev: &AtaDrive, path: &str) -> (r: Result<Option<Resolution>, FsError>)
        requires
            self.wf(),
            dev.wf(),
        ensures
            reads(disk(*dev), node_view(r), node_at(*self, disk(*dev), path@)),
    {
        let parts = match split_path(path) {
            None => {
                return Err(FsError::NotSupported);
            },
            Some(p) => p,
        };
        let n = parts.len();
        if n == 0 {
            return Ok(Some(Resolution::Root));
        }
        assert(names(parts@).last() == parts@[n - 1]@);
        match self.walk_dirs(dev, &parts, n - 1) {
            Err(e) => Err(e),
            Ok(dir) => match self.find_in(dev, dir, &parts[n - 1]) {
                Err(e) => Err(e),
                Ok(None) => Ok(None),
                Ok(Some(e)) => Ok(Some(Resolution::At(e))),
            },
        }
    }

    /// The directory that holds what `path` names, and the last component.
    fn resolve_parent(&self, dev: &AtaDrive, path: &str) -> (r: Result<(u32, Vec<char>), FsError>)
        requires
            self.wf(),
            dev.wf(),
        ensures
            match r {
                Ok(p) => parent_of(*self, disk(*dev), path@) == Ok::<(u32, Seq<char>), FsError>(
                    (p.0, p.1@),
                ),
                Err(e) => fails_as(disk(*dev), r, parent_of(*self, disk(*dev), path@) == Err::<
                    (u32, Seq<char>),
                    FsError,
                >(e)),
            },
    {
        let mut parts = match split_path(path) {
            None => {
                return Err(FsError::NotSupported);
            },
            Some(p) => p,
        };
        let n = parts.len();
        if n == 0 {
            return Err(FsError::NotSupported);
        }
        assert(names(parts@).last() == parts@[n - 1]@);
        match self.walk_dirs(dev, &parts, n - 1) {
            Err(e) => Err(e),
            Ok(dir) => {
                let last = crate::vfs::piece(&parts[n - 1], 0, parts[n - 1].len());
                assert(last@ =~= parts@[n - 1]@);
                Ok((dir, last))
            },
        }
    }
}

proof fn lemma_dir_at_fails(fs: Fat32, d: Disk, ps: Seq<Seq<char>>, k: int, n: int)
    requires
        0 <= k <= n,
        dir_at(fs, d, ps, k) is Err,
    ensures
        dir_at(fs, d, ps, n) == dir_at(fs, d, ps, k),
    decreases n,
{
    if n > k {
        lemma_dir_at_fails(fs, d, ps, k, n - 1);
    }
}

// ---------------------------------------------------------------------------
// Listing and metadata
// ---------------------------------------------------------------------------

/// The lines of the first `n` entries, `.` and `..` left out.
pub open spec fn lines(es: Seq<Entry>, n: int) -> Seq<Line>
    decreases n,
{
    if n <= 0 {
        Seq::empty()
    } else if is_dots(es[n - 1].name) {
        lines(es, n - 1)
    } else {
        lines(es, n - 1).push(
            Line {
                name: es[n - 1].name,
                size: es[n - 1].size as u64,
                is_dir: es[n - 1].is_dir,
            },
        )
    }
}

/// The listing of a path.
pub open spec fn listing(fs: Fat32, d: Disk, path: Seq<char>) -> Result<Seq<Line>, FsError> {
    match node_at(fs, d, path) {
        Err(e) => Err(e),
        Ok(None) => Err(FsError::NotFound),
        Ok(Some(Node::Root)) => dir_lines(fs, d, fs.root_cluster),
        Ok(Some(Node::At(e))) => if e.is_dir && e.first_cluster >= 2 {
            dir_lines(fs, d, e.first_cluster)
        } else {
            Err(FsError::NotSupported)
        },
    }
}

/// The listing of a directory.
pub open spec fn dir_lines(fs: Fat32, d: Disk, dir: u32) -> Result<Seq<Line>, FsError> {
    match dir_entries(fs, d, dir) {
        Err(e) => Err(e),
        Ok(es) => Ok(lines(es, es.len() as int)),
    }
}

/// What `stat` answers.
pub open spec fn status(fs: Fat32, d: Disk, path: Seq<char>) -> Result<FileStat, FsError> {
    match node_at(fs, d, path) {
        Err(e) => Err(e),
        Ok(None) => Err(FsError::NotFound),
        Ok(Some(Node::Root)) => Ok(FileStat { size: 0, is_dir: true }),
        Ok(Some(Node::At(e))) => Ok(FileStat { size: e.size as u64, is_dir: e.is_dir }),
    }
}

impl Fat32 {
    /// The listing of a directory.
    fn list_dir(&self, dev: &AtaDrive, dir: u32) -> (r: Result<Vec<DirEntry>, FsError>)
        requires
            self.wf(),
            dev.wf(),
        ensures
            reads(disk(*dev), listing_view(r), dir_lines(*self, disk(*dev), dir)),
    {
        let es = match self.scan_dir(dev, dir) {
            Err(e) => {
                return Err(e);
            },
            Ok(v) => v,
        };
        let ghost all = entries_view(es@);
        let mut out: Vec<DirEntry> = Vec::new();
        let mut k: usize = 0;
        assert(lines_view(out@) =~= lines(all, 0));
        while k < es.len()
            invariant
                k <= es@.len(),
                all == entries_view(es@),
                lines_view(out@) == lines(all, k as int),
            decreases es@.len() - k,
        {
            let e = &es[k];
            assert(all[k as int] == es@[k as int]@);
            if !crate::vfs::dots(&e.name) {
                let ghost before = lines_view(out@);
                let line = DirEntry {
                    name: text_of(&e.name),
                    size: e.size as u64,
                    is_dir: e.is_dir,
                };
                out.push(line);
                assert(lines_view(out@) =~= lines(all, k + 1));
            }
            k += 1;
        }
        Ok(out)
    }

    /// The listing of the directory at `path`.
    pub fn list(&self, dev: &AtaDrive, path: &str) -> (r: Result<Vec<DirEntry>, FsError>)
        requires
            self.wf(),
            dev.wf(),
        ensures
            reads(disk(*dev), listing_view(r), listing(*self, disk(*dev), path@)),
    {
        match self.resolve(dev, path) {
            Err(e) => Err(e),
            Ok(None) => Err(FsError::NotFound),
            Ok(Some(Resolution::Root)) => self.list_dir(dev, self.root_cluster),
            Ok(Some(Resolution::At(e))) => if e.is_dir && e.first_cluster >= 2 {
                self.list_dir(dev, e.first_cluster)
            } else {
                Err(FsError::NotSupported)
            },
        }
    }

    /// Does `path` name something?
    pub fn open(&self, dev: &AtaDrive, path: &str) -> (r: Result<(), FsError>)
        requires
            self.wf(),
            dev.wf(),
        ensures
            reads(
                disk(*dev),
                r,
                match node_at(*self, disk(*dev), path@) {
                    Err(e) => Err(e),
                    Ok(None) => Err(FsError::NotFound),
                    Ok(Some(_)) => Ok(()),
                },
            ),
    {
        match self.resolve(dev, path) {
            Err(e) => Err(e),
            Ok(None) => Err(FsError::NotFound),
            Ok(Some(_)) => Ok(()),
        }
    }

    /// Size and kind of what `path` names.
    pub fn stat(&self, dev: &AtaDrive, path: &str) -> (r: Result<FileStat, FsError>)
        requires
            self.wf(),
            dev.wf(),
        ensures
            reads(disk(*dev), r, status(*self, disk(*dev), path@)),
    {
        match self.resolve(dev, path) {
            Err(e) => Err(e),
            Ok(None) => Err(FsError::NotFound),
            Ok(Some(Resolution::Root)) => Ok(FileStat { size: 0, is_dir: true }),
            Ok(Some(Resolution::At(e))) => Ok(FileStat { size: e.size as u64, is_dir: e.is_dir }),
        }
    }
}

// ---------------------------------------------------------------------------
// Reading
// ---------------------------------------------------------------------------

/// How many of `n` bytes from `pos` on lie in the same cluster and in the file.
pub open spec fn span_at(fs: Fat32, size: int, pos: int, n: int) -> int {
    let room = fs.cluster_size() - pos % fs.cluster_size();
    let a = if room < n {
        room
    } else {
        n
    };
    if size - pos < a {
        size - pos
    } else {
        a
    }
}

/// At most `n` bytes from `pos` on of a file of `size` bytes on the chain `ch`.
pub open spec fn gathered(fs: Fat32, d: Disk, ch: Seq<u32>, size: int, pos: int, n: int) -> Result<
    Seq<u8>,
    FsError,
>
    decreases n,
{
    let cb = fs.cluster_size();
    let take = span_at(fs, size, pos, n);
    match cluster(fs, d, ch[pos / cb]) {
        Err(e) => Err(e),
        Ok(buf) => {
            let here = buf.subrange(pos % cb, pos % cb + take);
            if take <= 0 || take >= n || pos + take >= size || pos / cb + 1 >= ch.len() {
                Ok(here)
            } else {
                match gathered(fs, d, ch, size, pos + take, n - take) {
                    Err(e) => Err(e),
                    Ok(rest) => Ok(here + rest),
                }
            }
        },
    }
}

/// At most `n` bytes of the file that an entry names, from `off` on.
pub open spec fn file_part(fs: Fat32, d: Disk, e: Entry, off: int, n: int) -> Result<Seq<u8>, FsError> {
    if e.first_cluster == 0 || off >= e.size {
        Ok(Seq::empty())
    } else {
        match full_chain(fs, d, e.first_cluster) {
            Err(x) => Err(x),
            Ok(ch) => if off / fs.cluster_size() >= ch.len() {
                Ok(Seq::empty())
            } else {
                gathered(fs, d, ch, e.size as int, off, n)
            },
        }
    }
}

/// What a read of `n` bytes of `path` from `off` on gives.
pub open spec fn contents(fs: Fat32, d: Disk, path: Seq<char>, off: int, n: int) -> Result<
    Seq<u8>,
    FsError,
> {
    match node_at(fs, d, path) {
        Err(e) => Err(e),
        Ok(None) => Err(FsError::NotFound),
        Ok(Some(Node::Root)) => Err(FsError::NotSupported),
        Ok(Some(Node::At(e))) => if e.is_dir {
            Err(FsError::NotSupported)
        } else {
            file_part(fs, d, e, off, n)
        },
    }
}

/// The bytes with `front` before them.
pub open spec fn with_front(front: Seq<u8>, rest: Result<Seq<u8>, FsError>) -> Result<
    Seq<u8>,
    FsError,
> {
    match rest {
        Err(e) => Err(e),
        Ok(s) => Ok(front + s),
    }
}

impl Fat32 {
    /// At most `n` bytes from `off` on along the chain.
    fn gather(&self, dev: &AtaDrive, ch: &Vec<u32>, size: u64, off: u64, n: usize) -> (r: Result<
        Vec<u8>,
        FsError,
    >)
        requires
            self.wf(),
            dev.wf(),
            off < size <= u32::MAX,
            off as int / self.cluster_size() < ch@.len(),
        ensures
            reads(
                disk(*dev),
                bytes_view(r),
                gathered(*self, disk(*dev), ch@, size as int, off as int, n as int),
            ),
            r matches Ok(v) ==> v@.len() <= n,
    {
        let ghost d = disk(*dev);
        let cb = self.cluster_bytes() as u64;
        let mut out: Vec<u8> = Vec::new();
        let mut pos = off;
        let ghost want = gathered(*self, d, ch@, size as int, off as int, n as int);
        assert(with_front(out@, want) == want) by {
            if let Ok(s) = want {
                assert(out@ + s =~= s);
            }
        }
        loop
            invariant
                self.wf(),
                dev.wf(),
                d == disk(*dev),
                cb == self.cluster_size(),
                512 <= cb <= 8192,
                pos < size <= u32::MAX,
                pos / cb < ch@.len(),
                out@.len() <= n,
                n > 0 ==> out@.len() < n,
                want == gathered(*self, d, ch@, size as int, off as int, n as int),
                with_front(
                    out@,
                    gathered(*self, d, ch@, size as int, pos as int, n - out@.len()),
                ) == want,
            decreases n - out.len(),
        {
            let idx = (pos / cb) as usize;
            let buf = match self.read_cluster(dev, ch[idx]) {
                Err(e) => {
                    return Err(e);
                },
                Ok(b) => b,
            };
            let inoff = (pos % cb) as usize;
            let room = cb as usize - inoff;
            let left = n - out.len();
            let mut take = if room < left {
                room
            } else {
                left
            };
            if size - pos < take as u64 {
                take = (size - pos) as usize;
            }
            let ghost before = out@;
            let mut here = crate::bytes::copy_range(buf.as_slice(), inoff, inoff + take);
            let ghost got = here@;
            out.append(&mut here);
            assert(out@ =~= before + got);
            let last = out.len() == n || pos + take as u64 >= size || idx + 1 >= ch.len();
            if last {
                return Ok(out);
            }
            proof {
                if let Ok(rest) = gathered(*self, d, ch@, size as int, pos + take, left - take) {
                    assert(before + (got + rest) =~= out@ + rest);
                }
                lemma_next_cluster(pos as int, cb as int);
            }
            pos += take as u64;
        }
    }

    /// Read from `path` at `off` into `buf`; the number of bytes read.
    pub fn read_at(&self, dev: &AtaDrive, path: &str, off: u64, buf: &mut [u8]) -> (r: Result<
        usize,
        FsError,
    >)
        requires
            self.wf(),
            dev.wf(),
        ensures
            final(buf)@.len() == old(buf)@.len(),
            r matches Ok(n) ==> n <= old(buf)@.len(),
            match r {
                Ok(n) => exists|v: Seq<u8>|
                    {
                        &&& contents(
                            *self,
                            disk(*dev),
                            path@,
                            off as int,
                            old(buf)@.len() as int,
                        ) == Ok::<Seq<u8>, FsError>(v)
                        &&& v.len() == n
                        &&& final(buf)@ == #[trigger] splice(old(buf)@, 0, v)
                    },
                Err(e) => fails_as(disk(*dev), r, contents(
                    *self,
                    disk(*dev),
                    path@,
                    off as int,
                    old(buf)@.len() as int,
                ) == Err::<Seq<u8>, FsError>(e)),
            },
    {
        let e = match self.resolve(dev, path) {
            Err(e) => {
                return Err(e);
            },
            Ok(None) => {
                return Err(FsError::NotFound);
            },
            Ok(Some(Resolution::Root)) => {
                return Err(FsError::NotSupported);
            },
            Ok(Some(Resolution::At(e))) => e,
        };
        if e.is_dir {
            return Err(FsError::NotSupported);
        }
        assert(splice(buf@, 0, Seq::empty()) =~= buf@);
        if e.first_cluster == 0 || off >= e.size as u64 {
            return Ok(0);
        }
        let ch = match self.walk_chain(dev, e.first_cluster, self.total_clusters) {
            Err(e) => {
                return Err(e);
            },
            Ok(v) => v,
        };
        let cb = self.cluster_bytes() as u64;
        if off / cb >= ch.len() as u64 {
            return Ok(0);
        }
        match self.gather(dev, &ch, e.size as u64, off, buf.len()) {
            Err(e) => Err(e),
            Ok(v) => {
                put_bytes(buf, 0, v.as_slice());
                Ok(v.len())
            },
        }
    }
}

proof fn lemma_next_cluster(pos: int, cb: int)
    requires
        pos >= 0,
        cb > 0,
    ensures
        (pos + (cb - pos % cb)) / cb == pos / cb + 1,
        (pos + (cb - pos % cb)) % cb == 0,
{
    vstd::arithmetic::div_mod::lemma_fundamental_div_mod(pos, cb);
    let q = pos / cb + 1;
    assert(pos + (cb - pos % cb) == q * cb) by (nonlinear_arith)
        requires
            pos == cb * (pos / cb) + pos % cb,
            q == pos / cb + 1,
    ;
    vstd::arithmetic::div_mod::lemma_div_multiples_vanish(q, cb);
    vstd::arithmetic::div_mod::lemma_mod_multiples_basic(q, cb);
    assert(q * cb == cb * q) by (nonlinear_arith);
}

// ---------------------------------------------------------------------------
// Short names
// ---------------------------------------------------------------------------

/// An ASCII letter or digit.
pub open spec fn is_alnum(c: char) -> bool {
    let u = c as u32;
    48 <= u <= 57 || 65 <= u <= 90 || 97 <= u <= 122
}

/// A character of the first half of a short name.
pub open spec fn is_base_char(c: char) -> bool {
    is_alnum(c) || c == '_' || c == '-' || c == '~'
}

/// The place of the last dot before `k`, -1 where there is none.
pub open spec fn dot_before(s: Seq<char>, k: int) -> int
    decreases k,
{
    if k <= 0 {
        -1
    } else if s[k - 1] == '.' {
        k - 1
    } else {
        dot_before(s, k - 1)
    }
}

/// Where the first half of a name ends.
pub open spec fn base_end(s: Seq<char>) -> int {
    let p = dot_before(s, s.len() as int);
    if p <= 0 {
        s.len() as int
    } else {
        p
    }
}

/// The second half of a name.
pub open spec fn ext_of(s: Seq<char>) -> Seq<char> {
    let p = dot_before(s, s.len() as int);
    if p <= 0 {
        Seq::empty()
    } else {
        s.subrange(p + 1, s.len() as int)
    }
}

/// The first half of a name.
pub open spec fn base_of(s: Seq<char>) -> Seq<char> {
    s.subrange(0, base_end(s))
}

/// A name that fits the 8.3 form.
pub open spec fn fits_short(s: Seq<char>) -> bool {
    let base = base_of(s);
    let ext = ext_of(s);
    &&& 1 <= base.len() <= 8
    &&& ext.len() <= 3
    &&& forall|i: int| 0 <= i < base.len() ==> is_base_char(#[trigger] base[i])
    &&& forall|i: int| 0 <= i < ext.len() ==> is_alnum(#[trigger] ext[i])
}

/// A character in upper case, as a byte.
pub open spec fn upper(c: char) -> u8 {
    let u = c as u32;
    if 97 <= u <= 122 {
        (u - 32) as u8
    } else {
        u as u8
    }
}

/// The eleven bytes of an 8.3 name.
pub open spec fn short_form(s: Seq<char>) -> Seq<u8> {
    let base = base_of(s);
    let ext = ext_of(s);
    Seq::new(
        11,
        |i: int|
            if i < base.len() && i < 8 {
                upper(base[i])
            } else if 8 <= i < 8 + ext.len() {
                upper(ext[i - 8])
            } else {
                0x20
            },
    )
}

fn alnum(c: char) -> (r: bool)
    ensures
        r == is_alnum(c),
{
    let u = c as u32;
    (48 <= u && u <= 57) || (65 <= u && u <= 90) || (97 <= u && u <= 122)
}

fn upper_byte(c: char) -> (r: u8)
    requires
        is_base_char(c),
    ensures
        r == upper(c),
{
    let u = c as u32;
    if 97 <= u && u <= 122 {
        (u - 32) as u8
    } else {
        u as u8
    }
}

/// The last dot of a name.
fn last_dot(s: &Vec<char>) -> (r: Option<usize>)
    ensures
        match r {
            None => dot_before(s@, s@.len() as int) == -1,
            Some(p) => dot_before(s@, s@.len() as int) == p && p < s@.len(),
        },
{
    let mut k: usize = s.len();
    while k > 0
        invariant
            k <= s@.len(),
            dot_before(s@, s@.len() as int) == dot_before(s@, k as int),
        decreases k,
    {
        if s[k - 1] == '.' {
            return Some(k - 1);
        }
        k -= 1;
    }
    None
}

/// The on-disk form of an 8.3 name; other names are refused.
pub fn make_short_name(name: &Vec<char>) -> (r: Result<Vec<u8>, FsError>)
    ensures
        match r {
            Ok(v) => fits_short(name@) && v@ == short_form(name@),
            Err(e) => !fits_short(name@) && e == FsError::NotSupported,
        },
{
    let n = name.len();
    let (end, ext) = match last_dot(name) {
        None => (n, n),
        Some(p) => if p == 0 {
            (n, n)
        } else {
            (p, p + 1)
        },
    };
    let ghost base = base_of(name@);
    let ghost tail = ext_of(name@);
    assert(base.len() == end);
    assert(tail =~= name@.subrange(ext as int, n as int));
    if end == 0 || end > 8 || n - ext > 3 {
        return Err(FsError::NotSupported);
    }
    let mut out: Vec<u8> = Vec::new();
    let mut i: usize = 0;
    while i < 8
        invariant
            i <= 8,
            n == name@.len(),
            end <= n,
            end <= 8,
            base == base_of(name@),
            base == name@.subrange(0, end as int),
            out@.len() == i,
            forall|k: int| 0 <= k < i && k < end ==> is_base_char(#[trigger] base[k]),
            forall|k: int|
                0 <= k < i ==> #[trigger] out@[k] == if k < end {
                    upper(base[k])
                } else {
                    0x20u8
                },
        decreases 8 - i,
    {
        if i < end {
            let c = name[i];
            assert(base[i as int] == c);
            if !alnum(c) && c != '_' && c != '-' && c != '~' {
                assert(!is_base_char(base[i as int]));
                return Err(FsError::NotSupported);
            }
            out.push(upper_byte(c));
        } else {
            out.push(0x20);
        }
        i += 1;
    }
    let mut k: usize = 0;
    while k < 3
        invariant
            k <= 3,
            n == name@.len(),
            ext <= n,
            n - ext <= 3,
            end <= 8,
            base == base_of(name@),
            base.len() == end,
            tail == ext_of(name@),
            tail == name@.subrange(ext as int, n as int),
            out@.len() == 8 + k,
            forall|j: int| 0 <= j < k && j < tail.len() ==> is_alnum(#[trigger] tail[j]),
            forall|j: int|
                0 <= j < 8 ==> #[trigger] out@[j] == if j < end {
                    upper(base[j])
                } else {
                    0x20u8
                },
            forall|j: int|
                8 <= j < 8 + k ==> #[trigger] out@[j] == if j - 8 < tail.len() {
                    upper(tail[j - 8])
                } else {
                    0x20u8
                },
        decreases 3 - k,
    {
        if k < n - ext {
            let c = name[ext + k];
            assert(tail[k as int] == c);
            if !alnum(c) {
                assert(!is_alnum(tail[k as int]));
                return Err(FsError::NotSupported);
            }
            out.push(upper_byte(c));
        } else {
            out.push(0x20);
        }
        k += 1;
    }
    assert(out@ =~= short_form(name@));
    Ok(out)
}

// ---------------------------------------------------------------------------
// Entries on disk
// ---------------------------------------------------------------------------

/// A fresh slot.
pub open spec fn new_slot(short: Seq<u8>, first: u32, is_dir: bool) -> Seq<u8> {
    let z = Seq::new(32, |i: int| 0u8);
    let a = splice(z, 0, short);
    let b = a.update(
        11,
        if is_dir {
            ATTR_DIR
        } else {
            ATTR_ARCHIVE
        },
    );
    splice(
        splice(b, 20, le16_bytes(first as int / 0x1_0000)),
        26,
        le16_bytes(first as int % 0x1_0000),
    )
}

fn make_slot(short: &Vec<u8>, first: u32, is_dir: bool) -> (r: Vec<u8>)
    requires
        short@.len() == 11,
    ensures
        r@ == new_slot(short@, first, is_dir),
        r@.len() == 32,
{
    let mut s = zeros(32);
    put_bytes(s.as_mut_slice(), 0, short.as_slice());
    s[11] = if is_dir {
        ATTR_DIR
    } else {
        ATTR_ARCHIVE
    };
    put_u16(s.as_mut_slice(), 20, (first / 0x1_0000) as u16);
    put_u16(s.as_mut_slice(), 26, (first % 0x1_0000) as u16);
    s
}

/// The number of the first free slot of a cluster, from `k` on.
pub open spec fn free_slot(buf: Seq<u8>, k: int) -> Option<int>
    decreases buf.len() / 32 - k,
{
    if k < 0 || k >= buf.len() / 32 {
        None
    } else if buf[32 * k] == 0 || buf[32 * k] == 0xE5 {
        Some(k)
    } else {
        free_slot(buf, k + 1)
    }
}

/// The first free slot of a directory from its cluster `i` on: cluster and
/// slot number.
pub open spec fn free_place(fs: Fat32, d: Disk, ch: Seq<u32>, i: int) -> Result<
    Option<(int, int)>,
    FsError,
>
    decreases ch.len() - i,
{
    if i >= ch.len() {
        Ok(None)
    } else {
        match cluster(fs, d, ch[i]) {
            Err(e) => Err(e),
            Ok(buf) => match free_slot(buf, 0) {
                Some(k) => Ok(Some((i, k))),
                None => free_place(fs, d, ch, i + 1),
            },
        }
    }
}

/// The entry that `create` answers.
pub open spec fn fresh_entry(name: Seq<char>, first: u32, is_dir: bool, index: int, dir: u32) -> Entry {
    Entry {
        name,
        short: name,
        first_cluster: first,
        size: 0,
        is_dir,
        dir_index: index,
        dir_cluster: dir,
    }
}

/// Put a new entry into the directory at `dir`: in its first free slot, or in
/// a zeroed cluster that extends it.
pub open spec fn created(fs: Fat32, d: Disk, dir: u32, name: Seq<char>, first: u32, is_dir: bool) -> Out<
    Entry,
> {
    let per = fs.cluster_size() / 32;
    let slot = new_slot(short_form(name), first, is_dir);
    if !fits_short(name) {
        Out { disk: d, r: Err(FsError::NotSupported) }
    } else {
        match full_chain(fs, d, dir) {
            Err(e) => Out { disk: d, r: Err(e) },
            Ok(ch) => match free_place(fs, d, ch, 0) {
                Err(e) => Out { disk: d, r: Err(e) },
                Ok(Some((ci, si))) => match cluster(fs, d, ch[ci]) {
                    Err(e) => Out { disk: d, r: Err(e) },
                    Ok(buf) => {
                        let o = with_cluster(fs, d, ch[ci], splice(buf, 32 * si, slot));
                        answered(o, fresh_entry(name, first, is_dir, ci * per + si, dir))
                    },
                },
                Ok(None) => {
                    let a = allocated(fs, d, Some(ch.last()));
                    match a.r {
                        Err(e) => Out { disk: a.disk, r: Err(e) },
                        Ok(c) => {
                            let blank = Seq::new(fs.cluster_size() as nat, |i: int| 0u8);
                            let o = with_cluster(fs, a.disk, c, splice(blank, 0, slot));
                            answered(o, fresh_entry(name, first, is_dir, ch.len() * per, dir))
                        },
                    }
                },
            },
        }
    }
}

/// The outcome with another answer.
pub open spec fn answered<T>(o: Out<()>, v: T) -> Out<T> {
    match o.r {
        Err(e) => Out { disk: o.disk, r: Err(e) },
        Ok(_) => Out { disk: o.disk, r: Ok(v) },
    }
}

/// The cluster that holds slot `index` of a directory, its bytes, and the
/// slot's place in them.
pub open spec fn slot_home(fs: Fat32, d: Disk, dir: u32, index: int) -> Result<
    (u32, Seq<u8>, int),
    FsError,
> {
    let per = fs.cluster_size() / 32;
    match full_chain(fs, d, dir) {
        Err(e) => Err(e),
        Ok(ch) => if index / per >= ch.len() {
            Err(FsError::BadFs)
        } else {
            match cluster(fs, d, ch[index / per]) {
                Err(e) => Err(e),
                Ok(buf) => Ok((ch[index / per], buf, 32 * (index % per))),
            }
        },
    }
}

/// A cluster with the start and size in the slot at `o` replaced.
pub open spec fn saved_slot(buf: Seq<u8>, o: int, first: u32, size: u32) -> Seq<u8> {
    splice(
        splice(
            splice(buf, o + 20, le16_bytes(first as int / 0x1_0000)),
            o + 26,
            le16_bytes(first as int % 0x1_0000),
        ),
        o + 28,
        le32_bytes(size as int),
    )
}

/// Save the start and size of an entry in its slot.
pub open spec fn dirent_saved(fs: Fat32, d: Disk, e: Entry) -> Out<()> {
    match slot_home(fs, d, e.dir_cluster, e.dir_index) {
        Err(x) => Out { disk: d, r: Err(x) },
        Ok((c, buf, o)) => with_cluster(fs, d, c, saved_slot(buf, o, e.first_cluster, e.size)),
    }
}

impl Fat32 {
    /// The first free slot of a directory.
    fn find_free(&self, dev: &AtaDrive, ch: &Vec<u32>) -> (r: Result<Option<(usize, usize)>, FsError>)
        requires
            self.wf(),
            dev.wf(),
        ensures
            match r {
                Ok(None) => free_place(*self, disk(*dev), ch@, 0) == Ok::<
                    Option<(int, int)>,
                    FsError,
                >(None),
                Ok(Some(p)) => free_place(*self, disk(*dev), ch@, 0) == Ok::<
                    Option<(int, int)>,
                    FsError,
                >(Some((p.0 as int, p.1 as int))) && p.0 < ch@.len() && 32 * p.1 + 32
                    <= self.cluster_size(),
                Err(e) => fails_as(disk(*dev), r, free_place(*self, disk(*dev), ch@, 0) == Err::<
                    Option<(int, int)>,
                    FsError,
                >(e)),
            },
    {
        let ghost d = disk(*dev);
        let per = self.cluster_bytes() / 32;
        let mut i: usize = 0;
        while i < ch.len()
            invariant
                self.wf(),
                dev.wf(),
                d == disk(*dev),
                per == self.cluster_size() / 32,
                i <= ch@.len(),
                free_place(*self, d, ch@, 0) == free_place(*self, d, ch@, i as int),
            decreases ch@.len() - i,
        {
            let buf = match self.read_cluster(dev, ch[i]) {
                Err(e) => {
                    return Err(e);
                },
                Ok(b) => b,
            };
            let mut k: usize = 0;
            while k < per
                invariant
                    self.wf(),
                    i < ch@.len(),
                    d == disk(*dev),
                    per == self.cluster_size() / 32,
                    buf@.len() == self.cluster_size(),
                    cluster(*self, d, ch@[i as int]) == Ok::<Seq<u8>, FsError>(buf@),
                    free_place(*self, d, ch@, 0) == free_place(*self, d, ch@, i as int),
                    k <= per,
                    free_slot(buf@, 0) == free_slot(buf@, k as int),
                decreases per - k,
            {
                if buf[32 * k] == 0 || buf[32 * k] == 0xE5 {
                    return Ok(Some((i, k)));
                }
                k += 1;
            }
            i += 1;
        }
        Ok(None)
    }

    /// Put a new entry named `name` into the directory at `dir`.
    fn create_entry(&self, dev: &mut AtaDrive, dir: u32, name: &Vec<char>, first: u32, is_dir: bool) -> (r: Result<
        RawEntry,
        FsError,
    >)
        requires
            self.wf(),
            old(dev).wf(),
        ensures
            final(dev).wf(),
            does(
                disk(*old(dev)),
                disk(*final(dev)),
                raw_view(r),
                created(*self, disk(*old(dev)), dir, name@, first, is_dir),
            ),
            only_grew(disk(*old(dev)), disk(*final(dev))),
    {
        let short = match make_short_name(name) {
            Err(e) => {
                return Err(e);
            },
            Ok(s) => s,
        };
        let ch = match self.walk_chain(dev, dir, self.total_clusters) {
            Err(e) => {
                return Err(e);
            },
            Ok(v) => v,
        };
        let place = match self.find_free(dev, &ch) {
            Err(e) => {
                return Err(e);
            },
            Ok(p) => p,
        };
        let slot = make_slot(&short, first, is_dir);
        let per = self.cluster_bytes() / 32;
        let (c, at, mut buf, ci) = match place {
            Some((ci, si)) => {
                let buf = match self.read_cluster(dev, ch[ci]) {
                    Err(e) => {
                        return Err(e);
                    },
                    Ok(b) => b,
                };
                (ch[ci], si, buf, ci)
            },
            None => {
                let c = match self.alloc_cluster(dev, Some(ch[ch.len() - 1])) {
                    Err(e) => {
                        return Err(e);
                    },
                    Ok(c) => c,
                };
                (c, 0, zeros(self.cluster_bytes()), ch.len())
            },
        };
        put_bytes(buf.as_mut_slice(), 32 * at, slot.as_slice());
        match self.write_cluster(dev, c, &buf) {
            Err(e) => Err(e),
            Ok(_) => {
                assert(ci * per <= 0x1_0000_0001 * 256) by (nonlinear_arith)
                    requires
                        0 <= ci <= 0x1_0000_0001,
                        0 <= per <= 256,
                ;
                assert(ci * per >= 0) by (nonlinear_arith);
                let copy = crate::vfs::piece(name, 0, name.len());
                let again = crate::vfs::piece(name, 0, name.len());
                assert(copy@ =~= name@);
                assert(again@ =~= name@);
                Ok(
                    RawEntry {
                        name: copy,
                        short: again,
                        first_cluster: first,
                        size: 0,
                        is_dir,
                        dir_index: ci as u64 * per as u64 + at as u64,
                        dir_cluster: dir,
                    },
                )
            },
        }
    }

    /// The cluster that holds a slot, its bytes, and the slot's place in them.
    fn load_slot(&self, dev: &AtaDrive, dir: u32, index: u64) -> (r: Result<
        (u32, Vec<u8>, usize),
        FsError,
    >)
        requires
            self.wf(),
            dev.wf(),
        ensures
            match r {
                Ok(h) => slot_home(*self, disk(*dev), dir, index as int) == Ok::<
                    (u32, Seq<u8>, int),
                    FsError,
                >((h.0, h.1@, h.2 as int)) && h.2 + 32 <= h.1@.len() && h.1@.len()
                    == self.cluster_size(),
                Err(e) => fails_as(disk(*dev), r, slot_home(*self, disk(*dev), dir, index as int)
                    == Err::<(u32, Seq<u8>, int), FsError>(e)),
            },
    {
        let per = (self.cluster_bytes() / 32) as u64;
        let ch = match self.walk_chain(dev, dir, self.total_clusters) {
            Err(e) => {
                return Err(e);
            },
            Ok(v) => v,
        };
        let ci = index / per;
        if ci >= ch.len() as u64 {
            return Err(FsError::BadFs);
        }
        let si = (index % per) as usize;
        assert(si < per);
        match self.read_cluster(dev, ch[ci as usize]) {
            Err(e) => Err(e),
            Ok(buf) => Ok((ch[ci as usize], buf, 32 * si)),
        }
    }

    /// Save the start and size of an entry in its slot.
    fn write_dirent(&self, dev: &mut AtaDrive, e: &RawEntry) -> (r: Result<(), FsError>)
        requires
            self.wf(),
            old(dev).wf(),
        ensures
            final(dev).wf(),
            does(disk(*old(dev)), disk(*final(dev)), r, dirent_saved(*self, disk(*old(dev)), e@)),
            only_grew(disk(*old(dev)), disk(*final(dev))),
    {
        match self.load_slot(dev, e.dir_cluster, e.dir_index) {
            Err(e) => Err(e),
            Ok((c, mut buf, o)) => {
                put_u16(buf.as_mut_slice(), o + 20, (e.first_cluster / 0x1_0000) as u16);
                put_u16(buf.as_mut_slice(), o + 26, (e.first_cluster % 0x1_0000) as u16);
                put_u32(buf.as_mut_slice(), o + 28, e.size);
                self.write_cluster(dev, c, &buf)
            },
        }
    }
}

/// The entry in mathematical terms.
pub open spec fn raw_view(r: Result<RawEntry, FsError>) -> Result<Entry, FsError> {
    match r {
        Ok(e) => Ok(e@),
        Err(e) => Err(e),
    }
}

// ---------------------------------------------------------------------------
// Writing
// ---------------------------------------------------------------------------

/// A file's chain and where it starts.
pub struct Grown {
    pub first: u32,
    pub chain: Seq<u32>,
}

/// Extend a chain to `need` clusters.
pub open spec fn extended(fs: Fat32, d: Disk, g: Grown, need: int) -> Out<Grown>
    decreases need - g.chain.len(),
{
    if g.chain.len() >= need {
        Out { disk: d, r: Ok(g) }
    } else {
        let prev = if g.chain.len() == 0 {
            None
        } else {
            Some(g.chain.last())
        };
        let a = allocated(fs, d, prev);
        match a.r {
            Err(e) => Out { disk: a.disk, r: Err(e) },
            Ok(c) => extended(
                fs,
                a.disk,
                Grown {
                    first: if g.chain.len() == 0 {
                        c
                    } else {
                        g.first
                    },
                    chain: g.chain.push(c),
                },
                need,
            ),
        }
    }
}

/// Write `data` at `pos` along the chain: whole clusters are replaced, the
/// others are read, changed and written back.
pub open spec fn data_put(fs: Fat32, d: Disk, ch: Seq<u32>, pos: int, data: Seq<u8>) -> Out<()>
    decreases data.len(),
{
    let cb = fs.cluster_size();
    let room = cb - pos % cb;
    let take = if room < data.len() {
        room
    } else {
        data.len() as int
    };
    if data.len() == 0 || take <= 0 {
        Out { disk: d, r: Ok(()) }
    } else {
        let c = ch[pos / cb];
        let o = if take == cb {
            with_cluster(fs, d, c, data.take(take))
        } else {
            match cluster(fs, d, c) {
                Err(e) => Out { disk: d, r: Err(e) },
                Ok(buf) => with_cluster(fs, d, c, splice(buf, pos % cb, data.take(take))),
            }
        };
        if o.r is Err {
            o
        } else {
            data_put(fs, o.disk, ch, pos + take, data.skip(take))
        }
    }
}

/// The file that a write goes to: the one that `path` names, or a new one.
pub open spec fn write_target(fs: Fat32, d: Disk, path: Seq<char>) -> Out<Entry> {
    match node_at(fs, d, path) {
        Err(e) => Out { disk: d, r: Err(e) },
        Ok(Some(Node::Root)) => Out { disk: d, r: Err(FsError::NotSupported) },
        Ok(Some(Node::At(e))) => if e.is_dir {
            Out { disk: d, r: Err(FsError::NotSupported) }
        } else {
            Out { disk: d, r: Ok(e) }
        },
        Ok(None) => match parent_of(fs, d, path) {
            Err(e) => Out { disk: d, r: Err(e) },
            Ok((dir, name)) => created(fs, d, dir, name, 0, false),
        },
    }
}

/// Clusters for `n` bytes.
pub open spec fn clusters_for(fs: Fat32, n: int) -> int {
    (n + fs.cluster_size() - 1) / fs.cluster_size()
}

/// The chain of a file made just long enough for its first `end` bytes.
pub open spec fn fitted(fs: Fat32, d: Disk, first: u32, end: int) -> Out<Grown> {
    let need = clusters_for(fs, end);
    let start = if first == 0 {
        Ok(Seq::empty())
    } else {
        full_chain(fs, d, first)
    };
    match start {
        Err(e) => Out { disk: d, r: Err(e) },
        Ok(ch) => {
            let x = extended(fs, d, Grown { first, chain: ch }, need);
            match x.r {
                Err(e) => Out { disk: x.disk, r: Err(e) },
                Ok(g) => if g.chain.len() > need {
                    let y = freed(fs, x.disk, g.first, need);
                    match y.r {
                        Err(e) => Out { disk: y.disk, r: Err(e) },
                        Ok(_) => Out {
                            disk: y.disk,
                            r: Ok(Grown { first: g.first, chain: g.chain.take(need) }),
                        },
                    }
                } else {
                    Out { disk: x.disk, r: Ok(g) }
                },
            }
        },
    }
}

/// Write `data` at `off` of the file `e`.
pub open spec fn file_written(fs: Fat32, d: Disk, e: Entry, off: int, data: Seq<u8>) -> Out<usize> {
    let end = off + data.len();
    if end > u32::MAX {
        Out { disk: d, r: Err(FsError::NotSupported) }
    } else {
        let f = fitted(fs, d, e.first_cluster, end);
        match f.r {
            Err(x) => Out { disk: f.disk, r: Err(x) },
            Ok(g) => {
                let p = data_put(fs, f.disk, g.chain, off, data);
                if p.r is Err {
                    Out { disk: p.disk, r: Err(p.r->Err_0) }
                } else {
                    let size = if end > e.size {
                        end as u32
                    } else {
                        e.size
                    };
                    answered(
                        dirent_saved(fs, p.disk, Entry { first_cluster: g.first, size, ..e }),
                        data.len() as usize,
                    )
                }
            },
        }
    }
}

/// Write `data` at `off` of `path`, creating the file where it is missing.
pub open spec fn written(fs: Fat32, d: Disk, path: Seq<char>, off: int, data: Seq<u8>) -> Out<usize> {
    let t = write_target(fs, d, path);
    match t.r {
        Err(e) => Out { disk: t.disk, r: Err(e) },
        Ok(e) => file_written(fs, t.disk, e, off, data),
    }
}

spec fn grown_view(r: Result<(u32, Vec<u32>), FsError>) -> Result<Grown, FsError> {
    match r {
        Ok(g) => Ok(Grown { first: g.0, chain: g.1@ }),
        Err(e) => Err(e),
    }
}

impl Fat32 {
    /// Extend a chain to `need` clusters.
    fn grow_chain(&self, dev: &mut AtaDrive, first: u32, chain: Vec<u32>, need: usize) -> (r: Result<
        (u32, Vec<u32>),
        FsError,
    >)
        requires
            self.wf(),
            old(dev).wf(),
        ensures
            final(dev).wf(),
            does(
                disk(*old(dev)),
                disk(*final(dev)),
                grown_view(r),
                extended(*self, disk(*old(dev)), Grown { first, chain: chain@ }, need as int),
            ),
            only_grew(disk(*old(dev)), disk(*final(dev))),
            r matches Ok(g) ==> g.1@.len() >= need,
    {
        let ghost want = extended(*self, disk(*dev), Grown { first, chain: chain@ }, need as int);
        let mut ch = chain;
        let mut head = first;
        while ch.len() < need
            invariant
                self.wf(),
                dev.wf(),
                only_grew(disk(*old(dev)), disk(*dev)),
                traced(disk(*old(dev)), disk(*dev)),
                want == extended(
                    *self,
                    disk(*old(dev)),
                    Grown { first, chain: chain@ },
                    need as int,
                ),
                extended(*self, disk(*dev), Grown { first: head, chain: ch@ }, need as int) == want,
            decreases need - ch.len(),
        {
            let prev = if ch.len() == 0 {
                None
            } else {
                Some(ch[ch.len() - 1])
            };
            match self.alloc_cluster(dev, prev) {
                Err(e) => {
                    return Err(e);
                },
                Ok(c) => {
                    if ch.len() == 0 {
                        head = c;
                    }
                    ch.push(c);
                },
            }
        }
        Ok((head, ch))
    }

    /// Make the chain of a file just long enough for its first `end` bytes.
    fn fit_chain(&self, dev: &mut AtaDrive, first: u32, end: u64) -> (r: Result<
        (u32, Vec<u32>),
        FsError,
    >)
        requires
            self.wf(),
            old(dev).wf(),
            end <= u32::MAX,
        ensures
            final(dev).wf(),
            does(
                disk(*old(dev)),
                disk(*final(dev)),
                grown_view(r),
                fitted(*self, disk(*old(dev)), first, end as int),
            ),
            only_grew(disk(*old(dev)), disk(*final(dev))),
            r matches Ok(g) ==> g.1@.len() == clusters_for(*self, end as int),
    {
        let need = self.clusters_needed(end);
        let mut start: Vec<u32> = Vec::new();
        assert(start@ =~= Seq::empty());
        if first != 0 {
            match self.walk_chain(dev, first, self.total_clusters) {
                Err(e) => {
                    return Err(e);
                },
                Ok(v) => {
                    start = v;
                },
            }
        }
        let (head, mut ch) = match self.grow_chain(dev, first, start, need) {
            Err(e) => {
                return Err(e);
            },
            Ok(g) => g,
        };
        if ch.len() > need {
            match self.free_from(dev, head, need) {
                Err(e) => {
                    return Err(e);
                },
                Ok(_) => {},
            }
            let ghost long = ch@;
            ch.truncate(need);
            assert(ch@ =~= long.take(need as int));
        }
        Ok((head, ch))
    }

    /// Clusters for `n` bytes.
    fn clusters_needed(&self, n: u64) -> (r: usize)
        requires
            self.wf(),
            n <= u32::MAX,
        ensures
            r == clusters_for(*self, n as int),
    {
        let cb = self.cluster_bytes() as u64;
        let k = (n + cb - 1) / cb;
        assert(k <= u32::MAX) by (nonlinear_arith)
            requires
                k == (n + cb - 1) / cb as int,
                cb >= 2,
                0 <= n <= u32::MAX,
        ;
        k as usize
    }

    /// Write `data` at `off` along the chain.
    fn put_data(&self, dev: &mut AtaDrive, ch: &Vec<u32>, off: u64, data: &[u8]) -> (r: Result<
        (),
        FsError,
    >)
        requires
            self.wf(),
            old(dev).wf(),
            off + data@.len() <= u32::MAX,
            ch@.len() == clusters_for(*self, off + data@.len()),
        ensures
            final(dev).wf(),
            does(
                disk(*old(dev)),
                disk(*final(dev)),
                r,
                data_put(*self, disk(*old(dev)), ch@, off as int, data@),
            ),
            only_grew(disk(*old(dev)), disk(*final(dev))),
    {
        let cb = self.cluster_bytes() as u64;
        let total = data.len();
        let ghost d = disk(*dev);
        let mut done: usize = 0;
        assert(data@.skip(0) =~= data@);
        while done < total
            invariant
                self.wf(),
                dev.wf(),
                d == disk(*old(dev)),
                total == data@.len(),
                done <= total,
                off + total <= u32::MAX,
                cb == self.cluster_size(),
                512 <= cb <= 8192,
                ch@.len() == clusters_for(*self, off + total),
                only_grew(d, disk(*dev)),
                traced(d, disk(*dev)),
                data_put(*self, disk(*dev), ch@, off + done, data@.skip(done as int)) == data_put(
                    *self,
                    d,
                    ch@,
                    off as int,
                    data@,
                ),
            decreases total - done,
        {
            let pos = off + done as u64;
            let idx = (pos / cb) as usize;
            let inoff = (pos % cb) as usize;
            let room = cb as usize - inoff;
            let left = total - done;
            let take = if room < left {
                room
            } else {
                left
            };
            proof {
                lemma_covered(pos as int, off + total, cb as int);
            }
            let c = ch[idx];
            let part = crate::bytes::copy_range(data, done, done + take);
            let ghost rest = data@.skip(done as int);
            assert(part@ =~= rest.take(take as int));
            assert(data@.skip(done + take) =~= rest.skip(take as int));
            let w = if take == cb as usize {
                self.write_cluster(dev, c, &part)
            } else {
                match self.read_cluster(dev, c) {
                    Err(e) => Err(e),
                    Ok(mut buf) => {
                        put_bytes(buf.as_mut_slice(), inoff, part.as_slice());
                        self.write_cluster(dev, c, &buf)
                    },
                }
            };
            match w {
                Err(e) => {
                    return Err(e);
                },
                Ok(_) => {},
            }
            done += take;
        }
        Ok(())
    }

    /// Write `data` at `off` of the file `e`.
    fn write_file(&self, dev: &mut AtaDrive, e: RawEntry, off: u64, data: &[u8]) -> (r: Result<
        usize,
        FsError,
    >)
        requires
            self.wf(),
            old(dev).wf(),
        ensures
            final(dev).wf(),
            does(
                disk(*old(dev)),
                disk(*final(dev)),
                r,
                file_written(*self, disk(*old(dev)), e@, off as int, data@),
            ),
            only_grew(disk(*old(dev)), disk(*final(dev))),
    {
        let n = data.len() as u64;
        if off > 0xFFFF_FFFF || n > 0xFFFF_FFFF || off + n > 0xFFFF_FFFF {
            return Err(FsError::NotSupported);
        }
        let end = off + n;
        let (first, ch) = match self.fit_chain(dev, e.first_cluster, end) {
            Err(e) => {
                return Err(e);
            },
            Ok(g) => g,
        };
        match self.put_data(dev, &ch, off, data) {
            Err(e) => {
                return Err(e);
            },
            Ok(_) => {},
        }
        let ghost old_entry = e@;
        let mut e = e;
        e.first_cluster = first;
        if end > e.size as u64 {
            e.size = end as u32;
        }
        match self.write_dirent(dev, &e) {
            Err(e) => Err(e),
            Ok(_) => Ok(data.len()),
        }
    }

    /// Write `data` at `off` of `path`; a missing file is created in its
    /// existing directory.
    pub fn write_at(&self, dev: &mut AtaDrive, path: &str, off: u64, data: &[u8]) -> (r: Result<
        usize,
        FsError,
    >)
        requires
            self.wf(),
            old(dev).wf(),
        ensures
            final(dev).wf(),
            does(
                disk(*old(dev)),
                disk(*final(dev)),
                r,
                written(*self, disk(*old(dev)), path@, off as int, data@),
            ),
            only_grew(disk(*old(dev)), disk(*final(dev))),
    {
        let e = match self.resolve(dev, path) {
            Err(e) => {
                return Err(e);
            },
            Ok(Some(Resolution::Root)) => {
                return Err(FsError::NotSupported);
            },
            Ok(Some(Resolution::At(e))) => {
                if e.is_dir {
                    return Err(FsError::NotSupported);
                }
                e
            },
            Ok(None) => {
                let (dir, name) = match self.resolve_parent(dev, path) {
                    Err(e) => {
                        return Err(e);
                    },
                    Ok(p) => p,
                };
                match self.create_entry(dev, dir, &name, 0, false) {
                    Err(e) => {
                        return Err(e);
                    },
                    Ok(e) => e,
                }
            },
        };
        self.write_file(dev, e, off, data)
    }
}

proof fn lemma_covered(pos: int, end: int, cb: int)
    requires
        0 <= pos < end,
        cb > 0,
    ensures
        pos / cb < (end + cb - 1) / cb,
{
    vstd::arithmetic::div_mod::lemma_fundamental_div_mod(pos, cb);
    vstd::arithmetic::div_mod::lemma_fundamental_div_mod(end + cb - 1, cb);
    let q = pos / cb;
    let p = (end + cb - 1) / cb;
    assert(q < p) by (nonlinear_arith)
        requires
            cb > 0,
            pos >= cb * q,
            end + cb - 1 < cb * p + cb,
            pos < end,
    ;
}

// ---------------------------------------------------------------------------
// Directories, removal and renaming
// ---------------------------------------------------------------------------

/// A `.` or `..` slot.
pub open spec fn dots_slot(n: int, c: u32) -> Seq<u8> {
    new_slot(
        Seq::new(
            11,
            |i: int|
                if i < n {
                    0x2Eu8
                } else {
                    0x20u8
                },
        ),
        c,
        true,
    )
}

/// The first cluster of a new directory: `.` is itself, `..` its parent (0 for
/// the root).
pub open spec fn new_dir(fs: Fat32, c: u32, up: u32) -> Seq<u8> {
    splice(
        splice(Seq::new(fs.cluster_size() as nat, |i: int| 0u8), 0, dots_slot(1, c)),
        32,
        dots_slot(2, up),
    )
}

/// Create the directory at `path`.
pub open spec fn dir_made(fs: Fat32, d: Disk, path: Seq<char>) -> Out<()> {
    match node_at(fs, d, path) {
        Err(e) => Out { disk: d, r: Err(e) },
        Ok(Some(_)) => Out { disk: d, r: Err(FsError::Exists) },
        Ok(None) => match parent_of(fs, d, path) {
            Err(e) => Out { disk: d, r: Err(e) },
            Ok((parent, name)) => {
                let a = allocated(fs, d, None);
                match a.r {
                    Err(e) => Out { disk: a.disk, r: Err(e) },
                    Ok(c) => {
                        let up = if parent == fs.root_cluster {
                            0
                        } else {
                            parent
                        };
                        let w = with_cluster(fs, a.disk, c, new_dir(fs, c, up));
                        if w.r is Err {
                            w
                        } else {
                            let m = created(fs, w.disk, parent, name, c, true);
                            match m.r {
                                Err(e) => Out { disk: m.disk, r: Err(e) },
                                Ok(_) => Out { disk: m.disk, r: Ok(()) },
                            }
                        }
                    },
                }
            },
        },
    }
}

/// Mark an entry's slot as deleted and free its chain.
pub open spec fn deleted(fs: Fat32, d: Disk, e: Entry) -> Out<()> {
    match slot_home(fs, d, e.dir_cluster, e.dir_index) {
        Err(x) => Out { disk: d, r: Err(x) },
        Ok((c, buf, o)) => {
            let w = with_cluster(fs, d, c, buf.update(o, 0xE5));
            if w.r is Err || e.first_cluster == 0 {
                w
            } else {
                freed(fs, w.disk, e.first_cluster, 0)
            }
        },
    }
}

/// Remove the file at `path`.
pub open spec fn unlinked(fs: Fat32, d: Disk, path: Seq<char>) -> Out<()> {
    match node_at(fs, d, path) {
        Err(e) => Out { disk: d, r: Err(e) },
        Ok(None) => Out { disk: d, r: Err(FsError::NotFound) },
        Ok(Some(Node::Root)) => Out { disk: d, r: Err(FsError::NotSupported) },
        Ok(Some(Node::At(e))) => if e.is_dir {
            Out { disk: d, r: Err(FsError::IsDir) }
        } else {
            deleted(fs, d, e)
        },
    }
}

/// Give what `from` names the name `to`, in the same directory.
pub open spec fn renamed(fs: Fat32, d: Disk, from: Seq<char>, to: Seq<char>) -> Out<()> {
    match node_at(fs, d, from) {
        Err(e) => Out { disk: d, r: Err(e) },
        Ok(None) => Out { disk: d, r: Err(FsError::NotFound) },
        Ok(Some(Node::Root)) => Out { disk: d, r: Err(FsError::NotSupported) },
        Ok(Some(Node::At(e))) => match node_at(fs, d, to) {
            Err(x) => Out { disk: d, r: Err(x) },
            Ok(Some(_)) => Out { disk: d, r: Err(FsError::Exists) },
            Ok(None) => match parent_of(fs, d, to) {
                Err(x) => Out { disk: d, r: Err(x) },
                Ok((dir, name)) => if dir != e.dir_cluster || !fits_short(name) {
                    Out { disk: d, r: Err(FsError::NotSupported) }
                } else {
                    match slot_home(fs, d, e.dir_cluster, e.dir_index) {
                        Err(x) => Out { disk: d, r: Err(x) },
                        Ok((c, buf, o)) => with_cluster(
                            fs,
                            d,
                            c,
                            splice(buf, o, short_form(name)),
                        ),
                    }
                },
            },
        },
    }
}

fn make_dots(n: usize, c: u32) -> (r: Vec<u8>)
    requires
        n <= 11,
    ensures
        r@ == dots_slot(n as int, c),
        r@.len() == 32,
{
    let mut short: Vec<u8> = Vec::new();
    let mut i: usize = 0;
    while i < 11
        invariant
            i <= 11,
            short@.len() == i,
            forall|k: int|
                0 <= k < i ==> #[trigger] short@[k] == if k < n {
                    0x2Eu8
                } else {
                    0x20u8
                },
        decreases 11 - i,
    {
        short.push(
            if i < n {
                0x2E
            } else {
                0x20
            },
        );
        i += 1;
    }
    assert(short@ =~= Seq::new(
        11,
        |i: int|
            if i < n {
                0x2Eu8
            } else {
                0x20u8
            },
    ));
    make_slot(&short, c, true)
}

impl Fat32 {
    /// Create the directory at `path`: its parent must exist, and its name
    /// must be a free 8.3 name.
    pub fn mkdir(&self, dev: &mut AtaDrive, path: &str) -> (r: Result<(), FsError>)
        requires
            self.wf(),
            old(dev).wf(),
        ensures
            final(dev).wf(),
            does(disk(*old(dev)), disk(*final(dev)), r, dir_made(*self, disk(*old(dev)), path@)),
            only_grew(disk(*old(dev)), disk(*final(dev))),
    {
        match self.resolve(dev, path) {
            Err(e) => {
                return Err(e);
            },
            Ok(Some(_)) => {
                return Err(FsError::Exists);
            },
            Ok(None) => {},
        }
        let (parent, name) = match self.resolve_parent(dev, path) {
            Err(e) => {
                return Err(e);
            },
            Ok(p) => p,
        };
        let c = match self.alloc_cluster(dev, None) {
            Err(e) => {
                return Err(e);
            },
            Ok(c) => c,
        };
        let up = if parent == self.root_cluster {
            0
        } else {
            parent
        };
        let dot = make_dots(1, c);
        let dotdot = make_dots(2, up);
        let mut buf = zeros(self.cluster_bytes());
        put_bytes(buf.as_mut_slice(), 0, dot.as_slice());
        put_bytes(buf.as_mut_slice(), 32, dotdot.as_slice());
        match self.write_cluster(dev, c, &buf) {
            Err(e) => {
                return Err(e);
            },
            Ok(_) => {},
        }
        match self.create_entry(dev, parent, &name, c, true) {
            Err(e) => Err(e),
            Ok(_) => Ok(()),
        }
    }

    /// Mark an entry's slot as deleted and free its chain.
    fn delete_entry(&self, dev: &mut AtaDrive, e: &RawEntry) -> (r: Result<(), FsError>)
        requires
            self.wf(),
            old(dev).wf(),
        ensures
            final(dev).wf(),
            does(disk(*old(dev)), disk(*final(dev)), r, deleted(*self, disk(*old(dev)), e@)),
            only_grew(disk(*old(dev)), disk(*final(dev))),
    {
        match self.load_slot(dev, e.dir_cluster, e.dir_index) {
            Err(e) => Err(e),
            Ok((c, mut buf, o)) => {
                buf[o] = 0xE5;
                match self.write_cluster(dev, c, &buf) {
                    Err(e) => Err(e),
                    Ok(_) => if e.first_cluster != 0 {
                        self.free_from(dev, e.first_cluster, 0)
                    } else {
                        Ok(())
                    },
                }
            },
        }
    }

    /// Remove the file at `path`; directories are refused.
    pub fn unlink(&self, dev: &mut AtaDrive, path: &str) -> (r: Result<(), FsError>)
        requires
            self.wf(),
            old(dev).wf(),
        ensures
            final(dev).wf(),
            does(disk(*old(dev)), disk(*final(dev)), r, unlinked(*self, disk(*old(dev)), path@)),
            only_grew(disk(*old(dev)), disk(*final(dev))),
    {
        match self.resolve(dev, path) {
            Err(e) => Err(e),
            Ok(None) => Err(FsError::NotFound),
            Ok(Some(Resolution::Root)) => Err(FsError::NotSupported),
            Ok(Some(Resolution::At(e))) => if e.is_dir {
                Err(FsError::IsDir)
            } else {
                self.delete_entry(dev, &e)
            },
        }
    }

    /// Rename within a directory: the 8.3 name is rewritten in place.
    pub fn rename(&self, dev: &mut AtaDrive, from: &str, to: &str) -> (r: Result<(), FsError>)
        requires
            self.wf(),
            old(dev).wf(),
        ensures
            final(dev).wf(),
            does(
                disk(*old(dev)),
                disk(*final(dev)),
                r,
                renamed(*self, disk(*old(dev)), from@, to@),
            ),
            only_grew(disk(*old(dev)), disk(*final(dev))),
    {
        let e = match self.resolve(dev, from) {
            Err(e) => {
                return Err(e);
            },
            Ok(None) => {
                return Err(FsError::NotFound);
            },
            Ok(Some(Resolution::Root)) => {
                return Err(FsError::NotSupported);
            },
            Ok(Some(Resolution::At(e))) => e,
        };
        match self.resolve(dev, to) {
            Err(e) => {
                return Err(e);
            },
            Ok(Some(_)) => {
                return Err(FsError::Exists);
            },
            Ok(None) => {},
        }
        let (dir, name) = match self.resolve_parent(dev, to) {
            Err(e) => {
                return Err(e);
            },
            Ok(p) => p,
        };
        if dir != e.dir_cluster {
            return Err(FsError::NotSupported);
        }
        let short = match make_short_name(&name) {
            Err(e) => {
                return Err(e);
            },
            Ok(s) => s,
        };
        match self.load_slot(dev, e.dir_cluster, e.dir_index) {
            Err(e) => Err(e),
            Ok((c, mut buf, o)) => {
                put_bytes(buf.as_mut_slice(), o, short.as_slice());
                self.write_cluster(dev, c, &buf)
            },
        }
    }
}

} // verus!
