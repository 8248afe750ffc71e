//! Where an ext2 volume keeps things, told by byte addresses in its partition:
//! what mounting finds in the superblock, where an inode lies, which bytes of
//! the disk the bytes of a file are, and what a bit of a bitmap stands for.
use vstd::prelude::*;

use crate::bytes::{le16, le32};
use crate::ext2::{
    block, block_records, contents, dir_records, found, gathered, inode, lines, listing, mapped,
    mounted, node_at, node_upto, part_block, record_at, record_named, record_ok, records, shown,
    status, table_block, table_place, InodeView, Record, Vol,
};
use crate::ext2_laws::lemma_node_is_inode;
use crate::vfs::{fetched, is_dots, path_parts, Disk, FsError, Line};

verus! {

/// The byte at address `a` of the partition.
pub open spec fn byte_at(v: Vol, a: int) -> u8 {
    v.disk.sectors[(v.fs.part_start + a / 512) as u32][a % 512]
}

/// The 16-bit number at address `a`, its low byte first.
pub open spec fn half_at(v: Vol, a: int) -> int {
    byte_at(v, a) + 256 * byte_at(v, a + 1)
}

/// The 32-bit number at address `a`, its low byte first.
pub open spec fn word_at(v: Vol, a: int) -> int {
    half_at(v, a) + 65536 * half_at(v, a + 2)
}

/// The address of inode `n`: inodes of 128 bytes lie one behind the other.
pub open spec fn inode_home(v: Vol, n: int) -> int {
    1024 * v.fs.inode_table + 128 * (n - 1)
}

/// Number `j` of the table of numbers in block `t`; a table that is not there
/// holds zeros.
pub open spec fn table_word(v: Vol, t: int, j: int) -> int {
    if t == 0 {
        0
    } else {
        word_at(v, 1024 * t + 4 * j)
    }
}

/// The block with the file's bytes from `1024 * k` on, for the inode at `home`:
/// twelve numbers in the inode, then those of one table, then those of a table
/// of 256 tables.
#[verifier::opaque]
pub open spec fn file_block(v: Vol, home: int, k: int) -> int {
    if k < 12 {
        word_at(v, home + 40 + 4 * k)
    } else if k < 268 {
        table_word(v, word_at(v, home + 88), k - 12)
    } else {
        table_word(v, table_word(v, word_at(v, home + 92), (k - 268) / 256), (k - 268) % 256)
    }
}

/// Byte `p` of the file whose inode is at `home`; a block that is not there
/// reads as zeros.
#[verifier::opaque]
pub open spec fn file_byte(v: Vol, home: int, p: int) -> u8 {
    let b = file_block(v, home, p / 1024);
    if b == 0 {
        0
    } else {
        byte_at(v, 1024 * b + p % 1024)
    }
}

proof fn lemma_block_bytes(v: Vol, b: int)
    requires
        0 <= b,
        block(v, b) is Ok,
    ensures
        block(v, b)->Ok_0.len() == 1024,
        forall|k: int| 0 <= k < 1024 ==> #[trigger] block(v, b)->Ok_0[k] == byte_at(v, 1024 * b + k),
{
    reveal(fetched);
    let s = block(v, b)->Ok_0;
    assert forall|k: int| 0 <= k < 1024 implies #[trigger] s[k] == byte_at(v, 1024 * b + k) by {
        assert((1024 * b + k) / 512 == 2 * b + k / 512);
        assert((1024 * b + k) % 512 == k % 512);
    }
}

proof fn lemma_word(v: Vol, b: int, o: int)
    requires
        0 <= b,
        block(v, b) is Ok,
        0 <= o <= 1020,
    ensures
        le32(block(v, b)->Ok_0, o) == word_at(v, 1024 * b + o),
{
    lemma_block_bytes(v, b);
    let s = block(v, b)->Ok_0;
    assert(s[o] == byte_at(v, 1024 * b + o));
    assert(s[o + 1] == byte_at(v, 1024 * b + (o + 1)));
    assert(s[o + 2] == byte_at(v, 1024 * b + (o + 2)));
    assert(s[o + 3] == byte_at(v, 1024 * b + (o + 3)));
}

proof fn lemma_half(v: Vol, b: int, o: int)
    requires
        0 <= b,
        block(v, b) is Ok,
        0 <= o <= 1022,
    ensures
        le16(block(v, b)->Ok_0, o) == half_at(v, 1024 * b + o),
{
    lemma_block_bytes(v, b);
    let s = block(v, b)->Ok_0;
    assert(s[o] == byte_at(v, 1024 * b + o));
    assert(s[o + 1] == byte_at(v, 1024 * b + (o + 1)));
}

/// The inode `i` is the one that the disk has at `home`.
pub open spec fn inode_stands(v: Vol, i: InodeView, home: int) -> bool {
    &&& i.mode == half_at(v, home)
    &&& i.size == word_at(v, home + 4)
    &&& i.sectors == word_at(v, home + 28)
    &&& i.blocks.len() == 15
    &&& forall|k: int| 0 <= k < 15 ==> #[trigger] i.blocks[k] == word_at(v, home + 40 + 4 * k)
}

/// An inode that was fetched is what stands in its 128 bytes of the table:
/// mode, size, sectors and the fifteen block numbers. Inodes are numbered from
/// 1 up to the volume's count.
pub proof fn law_inode_on_disk(v: Vol, n: u32)
    requires
        inode(v, n) is Ok,
    ensures
        1 <= n <= v.fs.inodes_count,
        inode(v, n)->Ok_0.ino == n,
        inode_stands(v, inode(v, n)->Ok_0, inode_home(v, n as int)),
{
    let b = table_block(v.fs, n);
    let o = table_place(n);
    let home = inode_home(v, n as int);
    let i = inode(v, n)->Ok_0;
    assert(0 <= o <= 896);
    assert(home == 1024 * b + o);
    lemma_half(v, b, o);
    lemma_word(v, b, o + 4);
    lemma_word(v, b, o + 28);
    assert forall|k: int| 0 <= k < 15 implies #[trigger] i.blocks[k] == word_at(
        v,
        home + 40 + 4 * k,
    ) by {
        lemma_word(v, b, o + 40 + 4 * k);
    }
}

proof fn lemma_mapped_on_disk(v: Vol, i: InodeView, home: int, k: int)
    requires
        inode_stands(v, i, home),
        0 <= k,
        mapped(v, i, k) is Ok,
    ensures
        k < 268 + 65536,
        mapped(v, i, k)->Ok_0 == file_block(v, home, k),
{
    reveal(file_block);
    if k < 12 {
        assert(i.blocks[k] == word_at(v, home + 40 + 4 * k));
    } else if k < 268 {
        let t = i.blocks[12];
        assert(t == word_at(v, home + 88));
        if t != 0 {
            lemma_word(v, t as int, 4 * (k - 12));
        }
    } else {
        let t = i.blocks[13];
        let a = (k - 268) / 256;
        let b = (k - 268) % 256;
        assert(t == word_at(v, home + 92));
        if t != 0 {
            lemma_word(v, t as int, 4 * a);
            let m = le32(block(v, t as int)->Ok_0, 4 * a) as u32;
            assert(m == table_word(v, t as int, a));
            if m != 0 {
                lemma_word(v, m as int, 4 * b);
            }
        } else {
            assert(table_word(v, t as int, a) == 0);
        }
    }
}

proof fn lemma_gathered_on_disk(v: Vol, i: InodeView, home: int, pos: int, end: int)
    requires
        inode_stands(v, i, home),
        0 <= pos <= end,
        gathered(v, i, pos, end) is Ok,
    ensures
        gathered(v, i, pos, end)->Ok_0.len() == end - pos,
        forall|p: int|
            pos <= p < end ==> #[trigger] gathered(v, i, pos, end)->Ok_0[p - pos] == file_byte(
                v,
                home,
                p,
            ),
    decreases end - pos,
{
    reveal(file_byte);
    if pos < end {
        let room = 1024 - pos % 1024;
        let take = if room < end - pos {
            room
        } else {
            end - pos
        };
        let phys = mapped(v, i, pos / 1024)->Ok_0;
        lemma_mapped_on_disk(v, i, home, pos / 1024);
        lemma_gathered_on_disk(v, i, home, pos + take, end);
        if phys != 0 {
            lemma_block_bytes(v, phys as int);
        }
        let rest = gathered(v, i, pos + take, end)->Ok_0;
        let all = gathered(v, i, pos, end)->Ok_0;
        assert forall|p: int| pos <= p < end implies #[trigger] all[p - pos] == file_byte(
            v,
            home,
            p,
        ) by {
            if p < pos + take {
                assert(p / 1024 == pos / 1024);
                assert(p % 1024 == pos % 1024 + (p - pos));
                if phys != 0 {
                    assert(all[p - pos] == block(v, phys as int)->Ok_0[p % 1024]);
                }
            } else {
                assert(all[p - pos] == rest[p - (pos + take)]);
            }
        }
    }
}

/// What a read gives are the file's bytes from `off` on, up to `n` of them or
/// to the end of the file: byte `p` is the one that the disk has in the block
/// for it. The first twelve blocks stand in the inode, the next 256 in the
/// table it names thirteenth, in file order, and those behind in the tables of
/// the table it names fourteenth.
pub proof fn law_file_bytes_on_disk(v: Vol, path: Seq<char>, off: int, n: int)
    requires
        0 <= off,
        0 <= n,
        contents(v, path, off, n) is Ok,
    ensures
        ({
            let got = contents(v, path, off, n)->Ok_0;
            let ino = node_at(v, path)->Ok_0->0.ino;
            let home = inode_home(v, ino as int);
            let size = word_at(v, home + 4);
            &&& node_at(v, path) is Ok
            &&& node_at(v, path)->Ok_0 is Some
            &&& half_at(v, home) / 0x1000 != 4
            &&& got.len() == if off >= size {
                0
            } else if off + n < size {
                n
            } else {
                size - off
            }
            &&& forall|k: int| 0 <= k < got.len() ==> #[trigger] got[k] == file_byte(v, home, off + k)
        }),
{
    let ps = path_parts(path)->0;
    let i = node_at(v, path)->Ok_0->0;
    lemma_node_is_inode(v, ps, ps.len() as int);
    law_inode_on_disk(v, i.ino);
    let home = inode_home(v, i.ino as int);
    if off < i.size && n > 0 {
        let end = if off + n < i.size {
            off + n
        } else {
            i.size as int
        };
        lemma_gathered_on_disk(v, i, home, off, end);
        let got = contents(v, path, off, n)->Ok_0;
        assert forall|k: int| 0 <= k < got.len() implies #[trigger] got[k] == file_byte(
            v,
            home,
            off + k,
        ) by {
            assert(gathered(v, i, off, end)->Ok_0[(off + k) - off] == file_byte(v, home, off + k));
        }
    }
}

/// What `stat` tells of a path is what its inode says on the disk: the size,
/// and whether the top four bits of the mode are those of a directory.
pub proof fn law_status_on_disk(v: Vol, path: Seq<char>)
    requires
        status(v, path) is Ok,
    ensures
        node_at(v, path) is Ok,
        node_at(v, path)->Ok_0 is Some,
        ({
            let home = inode_home(v, node_at(v, path)->Ok_0->0.ino as int);
            &&& status(v, path)->Ok_0.size == word_at(v, home + 4)
            &&& status(v, path)->Ok_0.is_dir == (half_at(v, home) / 0x1000 == 4)
        }),
{
    let ps = path_parts(path)->0;
    lemma_node_is_inode(v, ps, ps.len() as int);
    law_inode_on_disk(v, node_at(v, path)->Ok_0->0.ino);
}

// ---------------------------------------------------------------------------
// Mounting
// ---------------------------------------------------------------------------

/// A volume that mounts carries the magic number at byte 56 of its superblock,
/// has blocks of 1 KiB, the first of them block 1, and inodes of 128 bytes in
/// one group; its counts stand in the superblock and its own places in the
/// group descriptor, which are the second and third KiB of the partition.
pub proof fn law_mounted_on_disk(d: Disk, start: u32)
    requires
        mounted(d, start) is Ok,
    ensures
        ({
            let fs = mounted(d, start)->Ok_0;
            let v = Vol { fs, disk: d };
            &&& fs.part_start == start
            &&& half_at(v, 1080) == 0xEF53
            &&& word_at(v, 1048) == 0
            &&& word_at(v, 1044) == 1
            &&& word_at(v, 1100) == 0 || half_at(v, 1112) == 128
            &&& fs.inodes_count == word_at(v, 1024)
            &&& fs.blocks_count == word_at(v, 1028)
            &&& fs.free_blocks == word_at(v, 1036)
            &&& fs.free_inodes == word_at(v, 1040)
            &&& fs.blocks_per_group == word_at(v, 1056)
            &&& fs.inodes_per_group == word_at(v, 1064)
            &&& fs.block_bitmap == word_at(v, 2048)
            &&& fs.inode_bitmap == word_at(v, 2052)
            &&& fs.inode_table == word_at(v, 2056)
            &&& fs.inodes_count > 0 && fs.inodes_per_group > 0
            &&& 2 <= fs.blocks_count <= fs.blocks_per_group + 1
            &&& fs.blocks_per_group <= 8192
            &&& 0 < fs.block_bitmap < fs.blocks_count
            &&& 0 < fs.inode_bitmap < fs.blocks_count
            &&& 0 < fs.inode_table < fs.blocks_count
        }),
{
    let fs = mounted(d, start)->Ok_0;
    let v = Vol { fs, disk: d };
    assert(block(v, 1) == part_block(start, d, 1));
    assert(block(v, 2) == part_block(start, d, 2));
    lemma_half(v, 1, 56);
    lemma_half(v, 1, 88);
    lemma_word(v, 1, 24);
    lemma_word(v, 1, 20);
    lemma_word(v, 1, 76);
    lemma_word(v, 1, 0);
    lemma_word(v, 1, 4);
    lemma_word(v, 1, 12);
    lemma_word(v, 1, 16);
    lemma_word(v, 1, 32);
    lemma_word(v, 1, 40);
    lemma_word(v, 2, 0);
    lemma_word(v, 2, 4);
    lemma_word(v, 2, 8);
}

// ---------------------------------------------------------------------------
// Directories
// ---------------------------------------------------------------------------

/// The 16-bit number at byte `q` of the file whose inode is at `home`.
pub open spec fn file_half(v: Vol, home: int, q: int) -> int {
    file_byte(v, home, q) + 256 * file_byte(v, home, q + 1)
}

/// The 32-bit number at byte `q` of the file whose inode is at `home`.
pub open spec fn file_word(v: Vol, home: int, q: int) -> int {
    file_half(v, home, q) + 65536 * file_half(v, home, q + 2)
}

/// The record `r` is the one that a directory holds at byte `r.offset`: the
/// inode, the record's length, the length of the name and the name itself.
#[verifier::opaque]
pub open spec fn record_stands(v: Vol, home: int, r: Record) -> bool {
    let q = r.offset;
    &&& 0 <= q
    &&& q % 1024 + r.rec_len <= 1024
    &&& 8 <= r.rec_len == file_half(v, home, q + 4)
    &&& r.ino == file_word(v, home, q)
    &&& r.ino != 0 ==> 8 + file_byte(v, home, q + 6) <= r.rec_len && r.name == shown(
        Seq::new(file_byte(v, home, q + 6) as nat, |k: int| file_byte(v, home, q + 8 + k)),
    )
}

/// Behind a record comes the one where it ends, or the first of a block where
/// no more fits into its own.
pub open spec fn follows(a: Record, b: Record) -> bool {
    if a.offset % 1024 + a.rec_len + 8 <= 1024 {
        b.offset == a.offset + a.rec_len
    } else {
        b.offset % 1024 == 0 && a.offset < b.offset
    }
}

/// The records of a block from `o` on: a chain that covers it.
#[verifier::opaque]
spec fn block_chain(b: Seq<u8>, rs: Seq<Record>, o: int, base: int) -> bool {
    &&& rs.len() > 0 <==> o + 8 <= 1024
    &&& rs.len() > 0 ==> rs[0].offset == base + o
    &&& rs.len() > 0 ==> rs.last().offset - base + rs.last().rec_len + 8 > 1024
    &&& forall|j: int|
        0 <= j < rs.len() ==> {
            let r = #[trigger] rs[j];
            let q = r.offset - base;
            &&& o <= q <= 1016
            &&& record_ok(b, q)
            &&& r == record_at(b, q, base)
        }
    &&& forall|j: int|
        0 <= j < rs.len() - 1 ==> (#[trigger] rs[j]).offset + rs[j].rec_len == rs[j + 1].offset
}

proof fn lemma_block_chain(b: Seq<u8>, o: int, base: int)
    requires
        b.len() == 1024,
        0 <= o,
        block_records(b, o, base) is Ok,
    ensures
        block_chain(b, block_records(b, o, base)->Ok_0, o, base),
    decreases 1024 - o,
{
    reveal(block_chain);
    if o + 8 <= 1024 {
        let next = o + le16(b, o + 4);
        lemma_block_chain(b, next, base);
        let rest = block_records(b, next, base)->Ok_0;
        let rs = block_records(b, o, base)->Ok_0;
        assert(rs == seq![record_at(b, o, base)] + rest);
        assert forall|j: int| 0 <= j < rs.len() implies {
            let r = #[trigger] rs[j];
            let q = r.offset - base;
            &&& o <= q <= 1016
            &&& record_ok(b, q)
            &&& r == record_at(b, q, base)
        } by {
            if j > 0 {
                assert(rs[j] == rest[j - 1]);
            }
        }
        assert forall|j: int| 0 <= j < rs.len() - 1 implies (#[trigger] rs[j]).offset
            + rs[j].rec_len == rs[j + 1].offset by {
            assert(rs[j + 1] == rest[j]);
            if j > 0 {
                assert(rs[j] == rest[j - 1]);
                assert(rest[j - 1].offset + rest[j - 1].rec_len == rest[j - 1 + 1].offset);
            }
        }
        if rest.len() > 0 {
            assert(rs.last() == rest.last());
        } else {
            assert(rs.last() == rs[0]);
        }
    }
}

/// The records of the first `n` blocks of a directory stand on the disk, one
/// behind the other.
spec fn records_stand(v: Vol, home: int, rs: Seq<Record>, n: int) -> bool {
    &&& forall|j: int|
        0 <= j < rs.len() ==> record_stands(v, home, #[trigger] rs[j]) && rs[j].offset < 1024 * n
    &&& forall|j: int| 0 <= j < rs.len() - 1 ==> follows(#[trigger] rs[j], rs[j + 1])
    &&& rs.len() > 0 ==> rs[0].offset % 1024 == 0
    &&& rs.len() > 0 ==> rs.last().offset % 1024 + rs.last().rec_len + 8 > 1024
    &&& forall|k: int|
        0 <= k < n && #[trigger] file_block(v, home, k) != 0 ==> exists|j: int|
            0 <= j < rs.len() && (#[trigger] rs[j]).offset == 1024 * k
}

proof fn lemma_dir_bytes(v: Vol, home: int, b: Seq<u8>, k: int)
    requires
        0 <= k,
        file_block(v, home, k) > 0,
        block(v, file_block(v, home, k)) == Ok::<Seq<u8>, FsError>(b),
    ensures
        b.len() == 1024,
        forall|x: int| 0 <= x < 1024 ==> #[trigger] b[x] == file_byte(v, home, 1024 * k + x),
{
    reveal(file_byte);
    lemma_block_bytes(v, file_block(v, home, k));
    assert forall|x: int| 0 <= x < 1024 implies #[trigger] b[x] == file_byte(v, home, 1024 * k + x) by {
        assert((1024 * k + x) / 1024 == k);
        assert((1024 * k + x) % 1024 == x);
    }
}

proof fn lemma_dir_half(v: Vol, home: int, b: Seq<u8>, k: int, q: int)
    requires
        0 <= q <= 1022,
        forall|x: int| 0 <= x < 1024 ==> #[trigger] b[x] == file_byte(v, home, 1024 * k + x),
    ensures
        le16(b, q) == file_half(v, home, 1024 * k + q),
{
    assert(b[q] == file_byte(v, home, 1024 * k + q));
    assert(b[q + 1] == file_byte(v, home, 1024 * k + (q + 1)));
}

proof fn lemma_dir_word(v: Vol, home: int, b: Seq<u8>, k: int, q: int)
    requires
        0 <= q <= 1020,
        forall|x: int| 0 <= x < 1024 ==> #[trigger] b[x] == file_byte(v, home, 1024 * k + x),
    ensures
        le32(b, q) == file_word(v, home, 1024 * k + q),
{
    lemma_dir_half(v, home, b, k, q);
    lemma_dir_half(v, home, b, k, q + 2);
}

proof fn lemma_record_on_disk(v: Vol, home: int, b: Seq<u8>, k: int, q: int)
    requires
        0 <= k,
        0 <= q <= 1016,
        file_block(v, home, k) > 0,
        block(v, file_block(v, home, k)) == Ok::<Seq<u8>, FsError>(b),
        record_ok(b, q),
    ensures
        record_stands(v, home, record_at(b, q, 1024 * k)),
{
    reveal(record_stands);
    lemma_dir_bytes(v, home, b, k);
    let r = record_at(b, q, 1024 * k);
    let f = 1024 * k + q;
    assert(f % 1024 == q);
    lemma_dir_word(v, home, b, k, q);
    lemma_dir_half(v, home, b, k, q + 4);
    assert(b[q + 6] == file_byte(v, home, 1024 * k + (q + 6)));
    if r.ino != 0 {
        let s = Seq::new(b[q + 6] as nat, |x: int| file_byte(v, home, f + 8 + x));
        assert(b.subrange(q + 8, q + 8 + b[q + 6]) =~= s) by {
            assert forall|x: int| 0 <= x < b[q + 6] implies b[q + 8 + x] == s[x] by {
                assert(b[q + 8 + x] == file_byte(v, home, 1024 * k + (q + 8 + x)));
            }
        }
    }
}

proof fn lemma_chain_facts(b: Seq<u8>, rs: Seq<Record>, base: int)
    requires
        block_chain(b, rs, 0, base),
    ensures
        rs.len() > 0,
        rs[0].offset == base,
        rs.last().offset - base + rs.last().rec_len + 8 > 1024,
        forall|j: int|
            0 <= j < rs.len() ==> 0 <= (#[trigger] rs[j]).offset - base <= 1016 && record_ok(
                b,
                rs[j].offset - base,
            ) && rs[j] == record_at(b, rs[j].offset - base, base),
        forall|j: int|
            0 <= j < rs.len() - 1 ==> (#[trigger] rs[j]).offset + rs[j].rec_len == rs[j + 1].offset,
{
    reveal(block_chain);
}

/// The records of one block of a directory.
spec fn part_stands(v: Vol, home: int, rs: Seq<Record>, k: int) -> bool {
    &&& rs.len() > 0
    &&& rs[0].offset == 1024 * k
    &&& rs.last().offset % 1024 + rs.last().rec_len + 8 > 1024
    &&& forall|j: int|
        0 <= j < rs.len() ==> record_stands(v, home, #[trigger] rs[j]) && 1024 * k <= rs[j].offset
            <= 1024 * k + 1016
    &&& forall|j: int| 0 <= j < rs.len() - 1 ==> follows(#[trigger] rs[j], rs[j + 1])
}

proof fn lemma_part(v: Vol, home: int, b: Seq<u8>, k: int)
    requires
        0 <= k,
        file_block(v, home, k) > 0,
        block(v, file_block(v, home, k)) == Ok::<Seq<u8>, FsError>(b),
        block_records(b, 0, 1024 * k) is Ok,
    ensures
        part_stands(v, home, block_records(b, 0, 1024 * k)->Ok_0, k),
{
    lemma_block_bytes(v, file_block(v, home, k));
    lemma_block_chain(b, 0, 1024 * k);
    let rs = block_records(b, 0, 1024 * k)->Ok_0;
    lemma_chain_facts(b, rs, 1024 * k);
    assert forall|j: int| 0 <= j < rs.len() implies record_stands(v, home, #[trigger] rs[j]) && 1024
        * k <= rs[j].offset <= 1024 * k + 1016 by {
        lemma_record_on_disk(v, home, b, k, rs[j].offset - 1024 * k);
    }
    lemma_part_chain(rs, k);
}

proof fn lemma_part_chain(rs: Seq<Record>, k: int)
    requires
        0 <= k,
        rs.len() > 0,
        forall|j: int|
            0 <= j < rs.len() ==> 1024 * k <= (#[trigger] rs[j]).offset <= 1024 * k + 1016,
        rs.last().offset - 1024 * k + rs.last().rec_len + 8 > 1024,
        forall|j: int|
            0 <= j < rs.len() - 1 ==> (#[trigger] rs[j]).offset + rs[j].rec_len == rs[j + 1].offset,
    ensures
        rs.last().offset % 1024 + rs.last().rec_len + 8 > 1024,
        forall|j: int| 0 <= j < rs.len() - 1 ==> follows(#[trigger] rs[j], rs[j + 1]),
{
    assert forall|j: int| 0 <= j < rs.len() - 1 implies follows(#[trigger] rs[j], rs[j + 1]) by {
        assert(rs[j].offset % 1024 == rs[j].offset - 1024 * k);
        assert(rs[j + 1].offset <= 1024 * k + 1016);
    }
    let l = rs[rs.len() - 1];
    assert(l.offset % 1024 == l.offset - 1024 * k);
}

proof fn lemma_joined_stand(v: Vol, home: int, front: Seq<Record>, rs: Seq<Record>, n: int, j: int)
    requires
        0 <= n,
        records_stand(v, home, front, n),
        part_stands(v, home, rs, n),
        0 <= j < front.len() + rs.len(),
    ensures
        record_stands(v, home, (front + rs)[j]),
        (front + rs)[j].offset < 1024 * (n + 1),
        j < front.len() + rs.len() - 1 ==> follows((front + rs)[j], (front + rs)[j + 1]),
{
    let all = front + rs;
    if j < front.len() {
        assert(all[j] == front[j]);
        if j + 1 < front.len() {
            assert(all[j + 1] == front[j + 1]);
        } else {
            assert(all[j] == front.last() && all[j + 1] == rs[0]);
        }
    } else {
        let x = j - front.len();
        assert(all[j] == rs[x]);
        if x + 1 < rs.len() {
            assert(all[j + 1] == rs[x + 1]);
            assert(follows(rs[x], rs[x + 1]));
        }
    }
}

#[verifier::spinoff_prover]
#[verifier::rlimit(60)]
proof fn lemma_parts_joined(v: Vol, home: int, front: Seq<Record>, rs: Seq<Record>, n: int)
    requires
        0 <= n,
        records_stand(v, home, front, n),
        part_stands(v, home, rs, n),
    ensures
        records_stand(v, home, front + rs, n + 1),
{
    let all = front + rs;
    assert forall|j: int| 0 <= j < all.len() implies record_stands(v, home, #[trigger] all[j])
        && all[j].offset < 1024 * (n + 1) by {
        lemma_joined_stand(v, home, front, rs, n, j);
    }
    assert forall|j: int| 0 <= j < all.len() - 1 implies follows(#[trigger] all[j], all[j + 1]) by {
        lemma_joined_stand(v, home, front, rs, n, j);
    }
    assert(all.last() == rs.last());
    if front.len() > 0 {
        assert(all[0] == front[0]);
    } else {
        assert(all[0] == rs[0]);
    }
    assert forall|k: int| 0 <= k < n + 1 && #[trigger] file_block(v, home, k) != 0 implies exists|
        j: int,
    |
        0 <= j < all.len() && (#[trigger] all[j]).offset == 1024 * k by {
        if k < n {
            let j = choose|j: int| 0 <= j < front.len() && (#[trigger] front[j]).offset == 1024 * k;
            assert(all[j] == front[j]);
        } else {
            assert(all[front.len() as int] == rs[0]);
        }
    }
}

proof fn lemma_records_on_disk(v: Vol, dir: InodeView, home: int, n: int)
    requires
        inode_stands(v, dir, home),
        0 <= n,
        records(v, dir, n) is Ok,
    ensures
        records_stand(v, home, records(v, dir, n)->Ok_0, n),
    decreases n,
{
    if n > 0 {
        lemma_records_on_disk(v, dir, home, n - 1);
        lemma_mapped_on_disk(v, dir, home, n - 1);
        let front = records(v, dir, n - 1)->Ok_0;
        let p = mapped(v, dir, n - 1)->Ok_0;
        if p != 0 {
            let b = block(v, p as int)->Ok_0;
            lemma_part(v, home, b, n - 1);
            lemma_parts_joined(v, home, front, block_records(b, 0, 1024 * (n - 1))->Ok_0, n - 1);
        }
    }
}

/// The records of a directory are those that its bytes hold: each one stands
/// where it says, the first of a block at its start, each next one where the
/// one before it ends, until no other fits; no block of the directory is left
/// out.
pub proof fn law_directory_on_disk(v: Vol, n: u32)
    requires
        inode(v, n) is Ok,
        dir_records(v, inode(v, n)->Ok_0) is Ok,
    ensures
        ({
            let home = inode_home(v, n as int);
            let blocks = word_at(v, home + 4) / 1024;
            let rs = dir_records(v, inode(v, n)->Ok_0)->Ok_0;
            &&& forall|j: int|
                0 <= j < rs.len() ==> record_stands(v, home, #[trigger] rs[j]) && rs[j].offset < 1024
                    * blocks
            &&& forall|j: int| 0 <= j < rs.len() - 1 ==> follows(#[trigger] rs[j], rs[j + 1])
            &&& rs.len() > 0 ==> rs.last().offset % 1024 + rs.last().rec_len + 8 > 1024
            &&& forall|k: int|
                0 <= k < blocks && #[trigger] file_block(v, home, k) != 0 ==> exists|j: int|
                    0 <= j < rs.len() && (#[trigger] rs[j]).offset == 1024 * k
        }),
{
    law_inode_on_disk(v, n);
    let dir = inode(v, n)->Ok_0;
    lemma_records_on_disk(v, dir, inode_home(v, n as int), dir.size as int / 1024);
}

proof fn lemma_record_named(rs: Seq<Record>, name: Seq<char>, k: int)
    requires
        0 <= k <= rs.len(),
    ensures
        match record_named(rs, name, k) {
            Some(r) => exists|j: int|
                k <= j < rs.len() && #[trigger] rs[j] == r && r.ino != 0 && r.name == name,
            None => forall|j: int|
                k <= j < rs.len() ==> (#[trigger] rs[j]).ino == 0 || rs[j].name != name,
        },
    decreases rs.len() - k,
{
    if k < rs.len() && !(rs[k].ino != 0 && rs[k].name == name) {
        lemma_record_named(rs, name, k + 1);
    }
}

/// A name is found in a directory exactly where one of its records bears it
/// and names an inode; what is found is that inode.
pub proof fn law_lookup(v: Vol, dir: InodeView, name: Seq<char>)
    requires
        found(v, dir, name) is Ok,
    ensures
        dir_records(v, dir) is Ok,
        ({
            let rs = dir_records(v, dir)->Ok_0;
            match found(v, dir, name)->Ok_0 {
                Some(i) => exists|j: int|
                    0 <= j < rs.len() && (#[trigger] rs[j]).ino == i.ino && i.ino != 0
                        && rs[j].name == name,
                None => forall|j: int|
                    0 <= j < rs.len() ==> (#[trigger] rs[j]).ino == 0 || rs[j].name != name,
            }
        }),
{
    lemma_record_named(dir_records(v, dir)->Ok_0, name, 0);
}

/// A path is walked from inode 2, one name of it at a time; all but the last
/// name directories.
pub proof fn law_path_walk(v: Vol, path: Seq<char>)
    requires
        node_at(v, path) is Ok,
        node_at(v, path)->Ok_0 is Some,
    ensures
        path_parts(path) is Some,
        ({
            let ps = path_parts(path)->0;
            exists|way: Seq<InodeView>|
                {
                    &&& #[trigger] way.len() == ps.len() + 1
                    &&& way[0].ino == 2
                    &&& way.last() == node_at(v, path)->Ok_0->0
                    &&& forall|k: int|
                        0 <= k < ps.len() ==> found(v, way[k], #[trigger] ps[k]) == Ok::<
                            Option<InodeView>,
                            FsError,
                        >(Some(way[k + 1]))
                    &&& forall|k: int|
                        0 < k < ps.len() ==> (#[trigger] way[k]).mode / 0x1000 == 4
                }
        }),
{
    let ps = path_parts(path)->0;
    lemma_walk(v, ps, ps.len() as int);
}

spec fn walked(v: Vol, ps: Seq<Seq<char>>, way: Seq<InodeView>, n: int) -> bool {
    &&& way.len() == n + 1
    &&& way[0].ino == 2
    &&& way.last() == node_upto(v, ps, n)->Ok_0->0
    &&& forall|k: int|
        0 <= k < n ==> found(v, way[k], #[trigger] ps[k]) == Ok::<Option<InodeView>, FsError>(
            Some(way[k + 1]),
        )
    &&& forall|k: int| 0 < k <= n && k < ps.len() ==> (#[trigger] way[k]).mode / 0x1000 == 4
}

proof fn lemma_walk(v: Vol, ps: Seq<Seq<char>>, n: int)
    requires
        0 <= n <= ps.len(),
        node_upto(v, ps, n) is Ok,
        node_upto(v, ps, n)->Ok_0 is Some,
    ensures
        exists|way: Seq<InodeView>| #[trigger] walked(v, ps, way, n),
    decreases n,
{
    let i = node_upto(v, ps, n)->Ok_0->0;
    if n == 0 {
        let way = seq![i];
        assert(walked(v, ps, way, n));
    } else {
        lemma_walk(v, ps, n - 1);
        let w = choose|way: Seq<InodeView>| #[trigger] walked(v, ps, way, n - 1);
        let way = w.push(i);
        assert forall|k: int| 0 <= k < n implies found(v, way[k], #[trigger] ps[k]) == Ok::<
            Option<InodeView>,
            FsError,
        >(Some(way[k + 1])) by {
            assert(way[k] == w[k]);
            if k + 1 < n {
                assert(way[k + 1] == w[k + 1]);
            }
        }
        assert forall|k: int| 0 < k <= n && k < ps.len() implies (#[trigger] way[k]).mode / 0x1000
            == 4 by {
            if k < n {
                assert(way[k] == w[k]);
            }
        }
        assert(walked(v, ps, way, n));
    }
}

/// The line `l` tells of the file that the record `r` names: its name, and size
/// and kind as its inode has them on the disk.
pub open spec fn line_stands(v: Vol, r: Record, l: Line) -> bool {
    let home = inode_home(v, r.ino as int);
    &&& r.ino != 0
    &&& r.name != seq!['.']
    &&& r.name != seq!['.', '.']
    &&& l.name == r.name
    &&& l.size == word_at(v, home + 4)
    &&& l.is_dir == (half_at(v, home) / 0x1000 == 4)
}

/// The places of the records that are listed, in order.
spec fn listed(v: Vol, rs: Seq<Record>, ls: Seq<Line>, at: Seq<int>, n: int) -> bool {
    &&& at.len() == ls.len()
    &&& forall|k: int| 0 <= k < at.len() ==> 0 <= #[trigger] at[k] < n
    &&& forall|k: int|
        0 <= k < at.len() ==> line_stands(v, rs[#[trigger] at[k]], ls[k])
    &&& forall|a: int, b: int| 0 <= a < b < at.len() ==> #[trigger] at[a] < #[trigger] at[b]
    &&& forall|j: int|
        0 <= j < n && (#[trigger] rs[j]).ino != 0 && rs[j].name != seq!['.'] && rs[j].name
            != seq!['.', '.'] ==> at.contains(j)
}

proof fn lemma_lines(v: Vol, rs: Seq<Record>, n: int)
    requires
        0 <= n <= rs.len(),
        lines(v, rs, n) is Ok,
    ensures
        exists|at: Seq<int>| #[trigger] listed(v, rs, lines(v, rs, n)->Ok_0, at, n),
    decreases n,
{
    if n == 0 {
        assert(listed(v, rs, lines(v, rs, n)->Ok_0, Seq::empty(), n));
    } else {
        lemma_lines(v, rs, n - 1);
        let front = lines(v, rs, n - 1)->Ok_0;
        let w = choose|at: Seq<int>| #[trigger] listed(v, rs, front, at, n - 1);
        let r = rs[n - 1];
        if r.ino == 0 || is_dots(r.name) {
            assert(listed(v, rs, front, w, n));
        } else {
            law_inode_on_disk(v, r.ino);
            let at = w.push(n - 1);
            let ls = lines(v, rs, n)->Ok_0;
            assert forall|k: int| 0 <= k < at.len() implies line_stands(
                v,
                rs[#[trigger] at[k]],
                ls[k],
            ) by {
                if k < w.len() {
                    assert(at[k] == w[k] && ls[k] == front[k]);
                }
            }
            assert forall|j: int|
                0 <= j < n && (#[trigger] rs[j]).ino != 0 && rs[j].name != seq!['.'] && rs[j].name
                    != seq!['.', '.'] implies at.contains(j) by {
                if j < n - 1 {
                    let k = choose|k: int| 0 <= k < w.len() && w[k] == j;
                    assert(at[k] == j);
                } else {
                    assert(at[w.len() as int] == j);
                }
            }
            assert(listed(v, rs, ls, at, n));
        }
    }
}

/// A listing has one line for every record of the directory that names an inode
/// and is not `.` or `..`, in their order, with the size and the kind that the
/// inode has on the disk.
pub proof fn law_listing_on_disk(v: Vol, path: Seq<char>)
    requires
        listing(v, path) is Ok,
    ensures
        node_at(v, path) is Ok,
        node_at(v, path)->Ok_0 is Some,
        dir_records(v, node_at(v, path)->Ok_0->0) is Ok,
        node_at(v, path)->Ok_0->0.mode / 0x1000 == 4,
        ({
            let rs = dir_records(v, node_at(v, path)->Ok_0->0)->Ok_0;
            let ls = listing(v, path)->Ok_0;
            exists|at: Seq<int>|
                {
                    &&& #[trigger] at.len() == ls.len()
                    &&& forall|k: int|
                        0 <= k < at.len() ==> 0 <= #[trigger] at[k] < rs.len() && line_stands(
                            v,
                            rs[at[k]],
                            ls[k],
                        )
                    &&& forall|a: int, b: int|
                        0 <= a < b < at.len() ==> #[trigger] at[a] < #[trigger] at[b]
                    &&& forall|j: int|
                        0 <= j < rs.len() && (#[trigger] rs[j]).ino != 0 && rs[j].name != seq!['.']
                            && rs[j].name != seq!['.', '.'] ==> at.contains(j)
                }
        }),
{
    let rs = dir_records(v, node_at(v, path)->Ok_0->0)->Ok_0;
    lemma_lines(v, rs, rs.len() as int);
    let at = choose|at: Seq<int>| #[trigger] listed(v, rs, listing(v, path)->Ok_0, at, rs.len() as int);
    assert(at.len() == listing(v, path)->Ok_0.len());
}

} // verus!
