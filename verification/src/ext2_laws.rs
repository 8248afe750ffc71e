//! What a healthy ext2 volume keeps: a read gives back what a write put there,
//! a removed file is gone, a new directory is there and empty, and a renamed
//! entry is what it was.
//!
//! A volume is healthy for a path when its own blocks are marked as taken and
//! the directories on the way and the file have block trees that share nothing
//! with each other or with the volume's own blocks.
use vstd::prelude::*;

use crate::ata::{sector_bytes, LBA28_MAX};
use crate::bytes::{law_le16_roundtrip, law_le32_roundtrip, le16, le16_bytes, le32, le32_bytes, splice};
use crate::ext2::{
    all_in_map, bits_freed, blank, block, block_records, block_taken, blocks_freed, contents,
    counts_synced, data_put, dir_extended, dir_made, dir_made_at, dir_records, dir_upto, ensured,
    file_made, file_part, file_written, first_clear, found, fresh_inode, gathered, inode,
    inode_freed, inode_in, inode_put, inode_taken, is_set, law_clear_bit, law_set_bit, lines,
    listing, live_direct, live_pointers, mapped, name_added, new_dir_block, node_at, node_upto,
    own_span, owned_double, owned_inner, owned_single, plus_block, pointers_put,
    record_added, record_at, record_home, record_named, record_of, record_ok, record_put,
    record_renamed, records, renamed, roomy, shown, slot_filled, span_of, status, table_block,
    table_filled, table_place, through, unlinked, with_bit, with_block, with_inode, without_bit,
    write_target, written, Ext2, InodeView, Record, Res, Vol, MODE_DIR, MODE_REG,
};
use crate::vfs::{lemma_fetched, path_parts, reachable, FileStat, FsError, Line};

verus! {

// ---------------------------------------------------------------------------
// Geometry
// ---------------------------------------------------------------------------

/// Blocks of the inode table.
pub open spec fn table_len(fs: Ext2) -> int {
    (fs.inodes_count + 7) / 8
}

/// The layout of the volume: everything lies in reach of the drive, and its
/// own blocks are different ones.
pub open spec fn good(fs: Ext2) -> bool {
    &&& 4 <= fs.blocks_count <= 8193
    &&& fs.part_start + 2 * fs.blocks_count <= LBA28_MAX + 1
    &&& 3 <= fs.block_bitmap < fs.blocks_count
    &&& 3 <= fs.inode_bitmap < fs.blocks_count
    &&& fs.block_bitmap != fs.inode_bitmap
    &&& 3 <= fs.inode_table
    &&& fs.inode_table + table_len(fs) <= fs.blocks_count
    &&& !(fs.inode_table <= fs.block_bitmap < fs.inode_table + table_len(fs))
    &&& !(fs.inode_table <= fs.inode_bitmap < fs.inode_table + table_len(fs))
}

/// The volumes have the same layout.
pub open spec fn like(a: Ext2, b: Ext2) -> bool {
    b == (Ext2 { free_blocks: b.free_blocks, free_inodes: b.free_inodes, ..a })
}

/// A block of the volume.
pub open spec fn inside(fs: Ext2, b: int) -> bool {
    0 <= b < fs.blocks_count
}

/// The sectors of the volume are at hand.
pub open spec fn held(v: Vol) -> bool {
    forall|l: u32|
        v.fs.part_start <= l < v.fs.part_start + 2 * v.fs.blocks_count ==> #[trigger] v.disk.sectors.contains_key(l)
}

/// The bytes of a block.
pub open spec fn blk(v: Vol, b: int) -> Seq<u8> {
    sector_bytes(v.disk.sectors, (v.fs.part_start + 2 * b) as u32, 2)
}

/// A block that is the volume's own.
pub open spec fn own(fs: Ext2, b: int) -> bool {
    b <= 2 || b == fs.block_bitmap || b == fs.inode_bitmap || fs.inode_table <= b < fs.inode_table + table_len(fs)
}

/// A block that allocation writes to: the free counts and the bitmap.
pub open spec fn counted(fs: Ext2, b: int) -> bool {
    b == 1 || b == 2 || b == fs.block_bitmap
}

/// The block is marked as taken.
pub open spec fn in_use(v: Vol, b: int) -> bool {
    b == 0 || is_set(blk(v, v.fs.block_bitmap as int), b - 1)
}

/// The volume's own blocks and what lies beyond its end are marked as taken.
pub open spec fn marked(v: Vol) -> bool {
    &&& forall|b: int| inside(v.fs, b) && own(v.fs, b) ==> #[trigger] in_use(v, b)
    &&& forall|b: int| v.fs.blocks_count <= b <= 8192 ==> #[trigger] in_use(v, b)
}

/// A sound volume with its sectors at hand.
pub open spec fn sound(v: Vol) -> bool {
    good(v.fs) && held(v) && marked(v)
}

pub(crate) proof fn lemma_block(v: Vol, b: int)
    requires
        good(v.fs),
        held(v),
        inside(v.fs, b),
    ensures
        block(v, b) == Ok::<Seq<u8>, FsError>(blk(v, b)),
        blk(v, b).len() == 1024,
        reachable(v.fs.part_start + 2 * b, 2),
{
    lemma_fetched(v.disk, v.fs.part_start + 2 * b, 2);
}

/// The volume `w` is `v` with block `b` replaced.
pub open spec fn block_set(v: Vol, w: Vol, b: int, data: Seq<u8>) -> bool {
    &&& w.fs == v.fs
    &&& held(w)
    &&& forall|x: int| inside(v.fs, x) ==> #[trigger] blk(w, x) == (if x == b { data } else { blk(v, x) })
}

pub(crate) proof fn lemma_with_block(v: Vol, b: int, data: Seq<u8>)
    requires
        good(v.fs),
        held(v),
        inside(v.fs, b),
        data.len() == 1024,
    ensures
        with_block(v, b, data).r is Ok,
        block_set(v, with_block(v, b, data).vol, b, data),
{
    let at = v.fs.part_start + 2 * b;
    let w = with_block(v, b, data).vol;
    crate::ata::law_read_after_write(v.disk.sectors, at as u32, 2, data);
    assert(data.take(1024) =~= data);
    assert forall|x: int| inside(v.fs, x) implies #[trigger] blk(w, x) == (if x == b { data } else { blk(v, x) }) by {
        if x != b {
            let p = v.fs.part_start + 2 * x;
            let a = blk(w, x);
            let c = blk(v, x);
            assert forall|k: int| 0 <= k < 1024 implies #[trigger] a[k] == c[k] by {
                let l = (p as u32 + k / 512) as u32;
                assert(v.disk.sectors.contains_key(l));
            }
            assert(a =~= c);
        }
    }
}

// ---------------------------------------------------------------------------
// Taking a block
// ---------------------------------------------------------------------------

pub(crate) proof fn lemma_counts_synced(v: Vol)
    requires
        good(v.fs),
        held(v),
    ensures
        counts_synced(v).r is Ok,
        counts_synced(v).vol.fs == v.fs,
        held(counts_synced(v).vol),
        forall|x: int|
            inside(v.fs, x) && x != 1 && x != 2 ==> #[trigger] blk(counts_synced(v).vol, x) == blk(v, x),
{
    reveal(counts_synced);
    lemma_block(v, 1);
    let sb = blk(v, 1);
    let d1 = splice(
        splice(sb, 12, le32_bytes(v.fs.free_blocks as int)),
        16,
        le32_bytes(v.fs.free_inodes as int),
    );
    lemma_with_block(v, 1, d1);
    let w = with_block(v, 1, d1).vol;
    lemma_block(w, 2);
    let gd = blk(w, 2);
    let d2 = splice(
        splice(gd, 12, le16_bytes(v.fs.free_blocks as int % 0x1_0000)),
        14,
        le16_bytes(v.fs.free_inodes as int % 0x1_0000),
    );
    lemma_with_block(w, 2, d2);
}

pub(crate) proof fn lemma_first_clear(bits: Seq<u8>, k: int)
    requires
        0 <= k,
        first_clear(bits, k) is Some,
    ensures
        k <= first_clear(bits, k)->0 < 8192,
        !is_set(bits, first_clear(bits, k)->0),
    decreases 8192 - k,
{
    if k < 8192 && is_set(bits, k) {
        lemma_first_clear(bits, k + 1);
    }
}

/// What taking the block `nb` does.
pub open spec fn takes(v: Vol, w: Vol, nb: u32) -> bool {
    &&& like(v.fs, w.fs)
    &&& sound(w)
    &&& inside(v.fs, nb as int)
    &&& !in_use(v, nb as int)
    &&& !own(v.fs, nb as int)
    &&& blk(w, nb as int) == blank()
    &&& forall|x: int|
        inside(v.fs, x) && x != nb && !counted(v.fs, x) ==> #[trigger] blk(w, x) == blk(v, x)
    &&& forall|x: int| 0 <= x <= 8192 ==> #[trigger] in_use(w, x) == (in_use(v, x) || x == nb)
}

pub(crate) proof fn lemma_block_taken(v: Vol)
    requires
        sound(v),
        block_taken(v).r is Ok,
    ensures
        takes(v, block_taken(v).vol, block_taken(v).r->Ok_0),
{
    reveal(block_taken);
    let bb = v.fs.block_bitmap as int;
    lemma_block(v, bb);
    let bits = blk(v, bb);
    lemma_first_clear(bits, 0);
    let k = first_clear(bits, 0)->0;
    let nb = k + 1;
    assert(!in_use(v, nb));
    assert(inside(v.fs, nb)) by {
        if nb >= v.fs.blocks_count {
            assert(in_use(v, nb));
        }
    }
    assert(!own(v.fs, nb)) by {
        if own(v.fs, nb) {
            assert(in_use(v, nb));
        }
    }
    let now = with_bit(bits, k);
    lemma_with_block(v, bb, now);
    let w1 = with_block(v, bb, now).vol;
    let less = Vol { fs: Ext2 { free_blocks: (v.fs.free_blocks - 1) as u32, ..v.fs }, disk: w1.disk };
    assert(held(less)) by {
        assert forall|l: u32|
            less.fs.part_start <= l < less.fs.part_start + 2 * less.fs.blocks_count implies #[trigger] less.disk.sectors.contains_key(
            l,
        ) by {
            assert(w1.disk.sectors.contains_key(l));
        }
    }
    assert forall|x: int| inside(v.fs, x) implies #[trigger] blk(less, x) == (if x == bb { now } else { blk(v, x) }) by {
        assert(blk(less, x) == blk(w1, x));
    }
    lemma_counts_synced(less);
    let s = counts_synced(less).vol;
    lemma_with_block(s, nb, blank());
    let w = with_block(s, nb, blank()).vol;
    assert(block_taken(v).vol == w);
    assert(like(v.fs, w.fs));
    assert(blk(s, bb) == blk(less, bb));
    assert(blk(w, bb) == now);
    assert forall|x: int| 0 <= x <= 8192 implies #[trigger] in_use(w, x) == (in_use(v, x) || x == nb) by {
        if x >= 1 {
            law_set_bit(bits, k, x - 1);
        }
    }
    assert forall|x: int| inside(v.fs, x) && x != nb && !counted(v.fs, x) implies #[trigger] blk(w, x) == blk(v, x) by {
        assert(blk(s, x) == blk(less, x));
        assert(blk(less, x) == blk(v, x));
    }
}

// ---------------------------------------------------------------------------
// Block trees
// ---------------------------------------------------------------------------

/// Places of pointers in the tree of an inode: its own fourteen, those of the
/// single table, those of the double table, and those of the tables that the
/// double table leads to.
pub open spec fn places() -> int {
    66062
}

/// The place of the table that holds the pointer at `p`.
pub open spec fn table_of(p: int) -> int {
    if p < 270 {
        12
    } else if p < 526 {
        13
    } else {
        270 + (p - 526) / 256
    }
}

/// The number of the pointer at `p` in its table.
pub open spec fn index_of(p: int) -> int {
    if p < 270 {
        p - 14
    } else if p < 526 {
        p - 270
    } else {
        (p - 526) % 256
    }
}

/// The place of the pointer to logical block `k`.
pub open spec fn place_of(k: int) -> int {
    if k < 12 {
        k
    } else if k < 268 {
        14 + (k - 12)
    } else {
        526 + (k - 268)
    }
}

/// A place that leads to a table.
pub open spec fn is_table(p: int) -> bool {
    p == 12 || p == 13 || 270 <= p < 526
}

/// Pointer `k` of the table in block `t`; block 0 is no table.
pub open spec fn ptr(v: Vol, t: u32, k: int) -> u32 {
    if t == 0 { 0 } else { le32(blk(v, t as int), 4 * k) as u32 }
}

/// The block that the pointer at `p` names, 0 for none.
pub open spec fn at(v: Vol, i: InodeView, p: int) -> u32
    decreases p,
{
    if p < 14 {
        i.blocks[p]
    } else {
        ptr(v, at(v, i, table_of(p)), index_of(p))
    }
}

/// The tree of an inode is proper: its blocks are different ones, marked as
/// taken and not the volume's own.
pub open spec fn tree(v: Vol, i: InodeView) -> bool {
    &&& i.blocks.len() == 15
    &&& forall|p: int|
        0 <= p < places() && #[trigger] at(v, i, p) != 0 ==> inside(v.fs, at(v, i, p) as int) && in_use(
            v,
            at(v, i, p) as int,
        ) && !own(v.fs, at(v, i, p) as int)
    &&& forall|p: int, q: int|
        0 <= p < q < places() && #[trigger] at(v, i, p) != 0 ==> at(v, i, p) != #[trigger] at(v, i, q)
}

/// The blocks of a tree lie on the volume.
pub open spec fn reached(v: Vol, i: InodeView) -> bool {
    forall|p: int| 0 <= p < places() && #[trigger] at(v, i, p) != 0 ==> inside(v.fs, at(v, i, p) as int)
}

/// The block is a table of the inode.
pub open spec fn tabled(v: Vol, i: InodeView, b: int) -> bool {
    exists|p: int| 0 <= p < places() && is_table(p) && b != 0 && #[trigger] at(v, i, p) == b
}

/// Blocks in use that are neither counts nor tables of the inode are as before.
pub open spec fn steady(v: Vol, i: InodeView, w: Vol) -> bool {
    forall|x: int|
        inside(v.fs, x) && in_use(v, x) && !counted(v.fs, x) && !tabled(v, i, x) ==> #[trigger] blk(w, x) == blk(v, x)
}

/// What filling the place `p` of a tree does.
pub open spec fn fills(v: Vol, i: InodeView, p: int, w: Vol, j: InodeView) -> bool {
    &&& like(v.fs, w.fs)
    &&& sound(w)
    &&& tree(w, j)
    &&& j.ino == i.ino && j.mode == i.mode && j.size == i.size
    &&& at(w, j, p) != 0
    &&& at(v, i, p) != 0 ==> at(w, j, p) == at(v, i, p)
    &&& at(v, i, p) == 0 ==> !in_use(v, at(w, j, p) as int) && blk(w, at(w, j, p) as int) == blank()
    &&& forall|q: int| 0 <= q < places() && q != p ==> #[trigger] at(w, j, q) == at(v, i, q)
    &&& forall|x: int| 0 <= x <= 8192 && in_use(v, x) ==> #[trigger] in_use(w, x)
    &&& steady(v, i, w)
}

proof fn lemma_blank_word(k: int)
    requires
        0 <= k < 256,
    ensures
        le32(blank(), 4 * k) == 0,
{
}

/// The pointers beside the one that a fresh block was put at.
proof fn lemma_at_top(v: Vol, i: InodeView, w: Vol, j: InodeView, p: int, nb: u32, q: int)
    requires
        sound(v),
        tree(v, i),
        takes(v, w, nb),
        0 <= p < 14,
        i.blocks[p] == 0,
        j.blocks == i.blocks.update(p, nb),
        0 <= q < places(),
        q != p,
    ensures
        at(w, j, q) == at(v, i, q),
    decreases q,
{
    if q >= 14 {
        let r = table_of(q);
        lemma_blank_word(index_of(q));
        if r == p {
            assert(at(v, i, p) == i.blocks[p]);
            assert(at(w, j, p) == nb);
        } else {
            lemma_at_top(v, i, w, j, p, nb, r);
            let t = at(v, i, r);
            if t != 0 {
                assert(in_use(v, t as int) && inside(v.fs, t as int) && !own(v.fs, t as int));
                assert(blk(w, t as int) == blk(v, t as int));
            }
        }
    }
}

/// A tree with a fresh block at a place that was empty is proper.
proof fn lemma_tree_grows(v: Vol, i: InodeView, w: Vol, j: InodeView, p: int)
    requires
        sound(v),
        tree(v, i),
        like(v.fs, w.fs),
        j.blocks.len() == 15,
        0 <= p < places(),
        at(w, j, p) != 0,
        inside(v.fs, at(w, j, p) as int),
        !in_use(v, at(w, j, p) as int),
        in_use(w, at(w, j, p) as int),
        !own(v.fs, at(w, j, p) as int),
        forall|q: int| 0 <= q < places() && q != p ==> #[trigger] at(w, j, q) == at(v, i, q),
        forall|x: int| 0 <= x <= 8192 && in_use(v, x) ==> #[trigger] in_use(w, x),
    ensures
        tree(w, j),
{
    assert forall|q: int| 0 <= q < places() && #[trigger] at(w, j, q) != 0 implies inside(
        w.fs,
        at(w, j, q) as int,
    ) && in_use(w, at(w, j, q) as int) && !own(w.fs, at(w, j, q) as int) by {
        if q != p {
            assert(at(v, i, q) != 0);
            assert(in_use(v, at(v, i, q) as int));
        }
    }
    assert forall|a: int, b: int| 0 <= a < b < places() && #[trigger] at(w, j, a) != 0 implies at(w, j, a)
        != #[trigger] at(w, j, b) by {
        if a == p {
            if at(v, i, b) != 0 {
                assert(in_use(v, at(v, i, b) as int));
            }
        } else if b == p {
            assert(at(v, i, a) != 0);
            assert(in_use(v, at(v, i, a) as int));
        } else {
            assert(at(v, i, a) != 0);
            assert(at(v, i, a) != at(v, i, b));
        }
    }
}

pub(crate) proof fn lemma_slot_filled(v: Vol, i: InodeView, p: int)
    requires
        sound(v),
        tree(v, i),
        0 <= p < 14,
        slot_filled(v, i, p).r is Ok,
    ensures
        fills(v, i, p, slot_filled(v, i, p).vol, slot_filled(v, i, p).r->Ok_0.0),
        at(slot_filled(v, i, p).vol, slot_filled(v, i, p).r->Ok_0.0, p) == slot_filled(v, i, p).r->Ok_0.1,
{
    reveal(slot_filled);
    if i.blocks[p] == 0 {
        lemma_block_taken(v);
        let w = block_taken(v).vol;
        let nb = block_taken(v).r->Ok_0;
        let j = slot_filled(v, i, p).r->Ok_0.0;
        assert forall|q: int| 0 <= q < places() && q != p implies #[trigger] at(w, j, q) == at(v, i, q) by {
            lemma_at_top(v, i, w, j, p, nb, q);
        }
        assert(at(w, j, p) == nb);
        assert(at(v, i, p) == 0);
        lemma_tree_grows(v, i, w, j, p);
    } else {
        assert(at(v, i, p) == i.blocks[p]);
    }
}

/// The pointers beside the one that a table got.
proof fn lemma_at_table(v: Vol, i: InodeView, v1: Vol, w: Vol, j: InodeView, p: int, nb: u32, q: int)
    requires
        sound(v),
        tree(v, i),
        takes(v, v1, nb),
        14 <= p < places(),
        at(v, i, table_of(p)) != 0,
        at(v, i, p) == 0,
        j.blocks == i.blocks,
        ({
            let t = at(v, i, table_of(p)) as int;
            block_set(v1, w, t, splice(blk(v, t), 4 * index_of(p), le32_bytes(nb as int)))
        }),
        0 <= q < places(),
    ensures
        at(w, j, q) == (if q == p { nb } else { at(v, i, q) }),
    decreases q,
{
    let t = at(v, i, table_of(p));
    assert(inside(v.fs, t as int) && in_use(v, t as int) && !own(v.fs, t as int));
    if q >= 14 {
        let r = table_of(q);
        lemma_at_table(v, i, v1, w, j, p, nb, r);
        let old = blk(v, t as int);
        let new = splice(old, 4 * index_of(p), le32_bytes(nb as int));
        if q == p {
            assert(at(w, j, r) == t);
            law_le32_roundtrip(old, 4 * index_of(p), nb);
            assert(blk(w, t as int) == new);
        } else if r == p {
            lemma_blank_word(index_of(q));
            assert(blk(w, nb as int) == blk(v1, nb as int));
        } else {
            let t2 = at(v, i, r);
            if t2 != 0 {
                assert(inside(v.fs, t2 as int) && in_use(v, t2 as int) && !own(v.fs, t2 as int));
                if t2 == t {
                    assert(r == table_of(p)) by {
                        if r < table_of(p) {
                            assert(at(v, i, r) != at(v, i, table_of(p)));
                        } else if r > table_of(p) {
                            assert(at(v, i, table_of(p)) != at(v, i, r));
                        }
                    }
                    lemma_same_table(p, q);
                    let a = 4 * index_of(p);
                    let b = 4 * index_of(q);
                    assert(a + 4 <= b || b + 4 <= a);
                    assert(new[b] == old[b] && new[b + 1] == old[b + 1] && new[b + 2] == old[b + 2] && new[b + 3]
                        == old[b + 3]);
                    assert(blk(w, t as int) == new);
                } else {
                    assert(blk(w, t2 as int) == blk(v1, t2 as int));
                    assert(blk(v1, t2 as int) == blk(v, t2 as int));
                }
            }
        }
    }
}

proof fn lemma_same_table(p: int, q: int)
    requires
        14 <= p < places(),
        14 <= q < places(),
        p != q,
        table_of(p) == table_of(q),
    ensures
        index_of(p) != index_of(q),
        0 <= index_of(p) < 256,
        0 <= index_of(q) < 256,
{
}

pub(crate) proof fn lemma_table_filled(v: Vol, i: InodeView, p: int)
    requires
        sound(v),
        tree(v, i),
        14 <= p < places(),
        at(v, i, table_of(p)) != 0,
        table_filled(v, i, at(v, i, table_of(p)), index_of(p)).r is Ok,
    ensures
        ({
            let o = table_filled(v, i, at(v, i, table_of(p)), index_of(p));
            fills(v, i, p, o.vol, o.r->Ok_0.0) && at(o.vol, o.r->Ok_0.0, p) == o.r->Ok_0.1
        }),
{
    reveal(table_filled);
    let t = at(v, i, table_of(p));
    let k = index_of(p);
    assert(inside(v.fs, t as int) && in_use(v, t as int) && !own(v.fs, t as int));
    lemma_block(v, t as int);
    let old = blk(v, t as int);
    let o = table_filled(v, i, t, k);
    assert(0 <= le32(old, 4 * k) <= u32::MAX);
    assert(at(v, i, p) == le32(old, 4 * k) as u32);
    if le32(old, 4 * k) == 0 {
        lemma_block_taken(v);
        let v1 = block_taken(v).vol;
        let nb = block_taken(v).r->Ok_0;
        let new = splice(old, 4 * k, le32_bytes(nb as int));
        assert(blk(v1, t as int) == old);
        lemma_with_block(v1, t as int, new);
        let w = with_block(v1, t as int, new).vol;
        let j = plus_block(i);
        assert(o.vol == w);
        assert forall|q: int| 0 <= q < places() implies #[trigger] at(w, j, q) == (if q == p {
            nb
        } else {
            at(v, i, q)
        }) by {
            lemma_at_table(v, i, v1, w, j, p, nb, q);
        }
        assert(at(w, j, p) == nb);
        let bb = v.fs.block_bitmap as int;
        assert(blk(w, bb) == blk(v1, bb));
        assert forall|x: int| 0 <= x <= 8192 implies #[trigger] in_use(w, x) == in_use(v1, x) by {}
        assert(marked(w)) by {
            assert forall|b: int| inside(w.fs, b) && own(w.fs, b) implies #[trigger] in_use(w, b) by {
                assert(in_use(v1, b));
            }
            assert forall|b: int| w.fs.blocks_count <= b <= 8192 implies #[trigger] in_use(w, b) by {
                assert(in_use(v1, b));
            }
        }
        lemma_tree_grows(v, i, w, j, p);
        assert(steady(v, i, w)) by {
            assert(is_table(table_of(p)));
            assert forall|x: int|
                inside(v.fs, x) && in_use(v, x) && !counted(v.fs, x) && !tabled(v, i, x) implies #[trigger] blk(w, x)
                == blk(v, x) by {
                assert(at(v, i, table_of(p)) == t);
                assert(x != t);
                assert(blk(v1, x) == blk(v, x));
            }
        }
    }
}

/// What adding blocks to a tree does: no pointer is lost, new ones name blocks
/// that were free, and blocks in use stay as they are.
pub open spec fn grows(v: Vol, i: InodeView, w: Vol, j: InodeView) -> bool {
    &&& like(v.fs, w.fs)
    &&& sound(w)
    &&& tree(w, j)
    &&& j.ino == i.ino && j.mode == i.mode && j.size == i.size
    &&& forall|q: int|
        0 <= q < places() ==> #[trigger] at(w, j, q) == at(v, i, q) || (at(v, i, q) == 0 && !in_use(
            v,
            at(w, j, q) as int,
        ))
    &&& forall|x: int| 0 <= x <= 8192 && in_use(v, x) ==> #[trigger] in_use(w, x)
    &&& steady(v, i, w)
}

proof fn lemma_grows_on(v: Vol, i: InodeView, m: Vol, im: InodeView, w: Vol, j: InodeView)
    requires
        sound(v),
        grows(v, i, m, im),
        grows(m, im, w, j),
    ensures
        grows(v, i, w, j),
{
    assert forall|q: int| 0 <= q < places() implies #[trigger] at(w, j, q) == at(v, i, q) || (at(v, i, q) == 0
        && !in_use(v, at(w, j, q) as int)) by {
        assert(at(m, im, q) == at(v, i, q) || (at(v, i, q) == 0 && !in_use(v, at(m, im, q) as int)));
        let b = at(w, j, q) as int;
        if at(w, j, q) != at(m, im, q) {
            assert(b != 0) by {
                if b == 0 {
                    assert(in_use(m, 0));
                }
            }
            assert(inside(w.fs, b));
            if in_use(v, b) {
                assert(in_use(m, b));
            }
        }
    }
    assert forall|x: int| 0 <= x <= 8192 && in_use(v, x) implies #[trigger] in_use(w, x) by {
        assert(in_use(m, x));
    }
    assert forall|x: int|
        inside(v.fs, x) && in_use(v, x) && !counted(v.fs, x) && !tabled(v, i, x) implies #[trigger] blk(w, x) == blk(
        v,
        x,
    ) by {
        assert(in_use(m, x));
        assert(!tabled(m, im, x)) by {
            if tabled(m, im, x) {
                let p = choose|p: int| 0 <= p < places() && is_table(p) && x != 0 && #[trigger] at(m, im, p) == x;
                assert(at(m, im, p) == at(v, i, p) || (at(v, i, p) == 0 && !in_use(v, at(m, im, p) as int)));
                assert(at(v, i, p) == x);
            }
        }
        assert(blk(m, x) == blk(v, x));
    }
}

/// What making sure of a block does.
pub open spec fn secures(v: Vol, i: InodeView, k: int, w: Vol, j: InodeView, phys: u32) -> bool {
    &&& grows(v, i, w, j)
    &&& phys == at(w, j, place_of(k))
    &&& phys != 0
    &&& at(v, i, place_of(k)) != 0 ==> phys == at(v, i, place_of(k))
    &&& at(v, i, place_of(k)) == 0 ==> blk(w, phys as int) == blank()
    &&& forall|n: int|
        0 <= n < 65804 && n != k ==> #[trigger] at(w, j, place_of(n)) == at(v, i, place_of(n))
}

pub(crate) proof fn lemma_places_apart(a: int, b: int)
    requires
        0 <= a < 65804,
        0 <= b < 65804,
    ensures
        0 <= place_of(a) < places(),
        !is_table(place_of(a)),
        a != b ==> place_of(a) != place_of(b),
{
}

proof fn lemma_fill_grows(v: Vol, i: InodeView, p: int, w: Vol, j: InodeView)
    requires
        fills(v, i, p, w, j),
        0 <= p < places(),
    ensures
        grows(v, i, w, j),
{
    assert forall|q: int| 0 <= q < places() implies #[trigger] at(w, j, q) == at(v, i, q) || (at(v, i, q) == 0
        && !in_use(v, at(w, j, q) as int)) by {
        if q == p {
            assert(at(w, j, p) != 0);
        }
    }
}

/// One more table on the way, and then the block.
proof fn lemma_last_fill(v: Vol, i: InodeView, m: Vol, im: InodeView, k: int, w: Vol, j: InodeView)
    requires
        sound(v),
        0 <= k < 65804,
        grows(v, i, m, im),
        forall|n: int| 0 <= n < 65804 ==> #[trigger] at(m, im, place_of(n)) == at(v, i, place_of(n)),
        fills(m, im, place_of(k), w, j),
    ensures
        secures(v, i, k, w, j, at(w, j, place_of(k))),
{
    lemma_places_apart(k, k);
    lemma_fill_grows(m, im, place_of(k), w, j);
    lemma_grows_on(v, i, m, im, w, j);
    assert(at(m, im, place_of(k)) == at(v, i, place_of(k)));
    assert forall|n: int| 0 <= n < 65804 && n != k implies #[trigger] at(w, j, place_of(n)) == at(
        v,
        i,
        place_of(n),
    ) by {
        lemma_places_apart(n, k);
        assert(at(m, im, place_of(n)) == at(v, i, place_of(n)));
    }
}

proof fn lemma_table_on_the_way(v: Vol, i: InodeView, p: int, w: Vol, j: InodeView)
    requires
        0 <= p < places(),
        is_table(p),
        fills(v, i, p, w, j),
    ensures
        grows(v, i, w, j),
        forall|n: int| 0 <= n < 65804 ==> #[trigger] at(w, j, place_of(n)) == at(v, i, place_of(n)),
{
    lemma_fill_grows(v, i, p, w, j);
    assert forall|n: int| 0 <= n < 65804 implies #[trigger] at(w, j, place_of(n)) == at(v, i, place_of(n)) by {
        lemma_places_apart(n, n);
    }
}

proof fn lemma_grows_still(v: Vol, i: InodeView)
    requires
        sound(v),
        tree(v, i),
    ensures
        grows(v, i, v, i),
{
}

pub(crate) proof fn lemma_ensured(v: Vol, i: InodeView, k: int)
    requires
        sound(v),
        tree(v, i),
        0 <= k,
        ensured(v, i, k).r is Ok,
    ensures
        k < 65804,
        secures(v, i, k, ensured(v, i, k).vol, ensured(v, i, k).r->Ok_0.0, ensured(v, i, k).r->Ok_0.1),
{
    reveal(ensured);
    if k < 12 {
        lemma_slot_filled(v, i, k);
        lemma_grows_still(v, i);
        let o = slot_filled(v, i, k);
        lemma_last_fill(v, i, v, i, k, o.vol, o.r->Ok_0.0);
    } else if k < 268 {
        let a = slot_filled(v, i, 12);
        assert(a.r is Ok);
        lemma_slot_filled(v, i, 12);
        let (m, im) = (a.vol, a.r->Ok_0.0);
        lemma_table_on_the_way(v, i, 12, m, im);
        let p = place_of(k);
        assert(table_of(p) == 12 && index_of(p) == k - 12);
        lemma_table_filled(m, im, p);
        let o = table_filled(m, im, at(m, im, 12), k - 12);
        lemma_last_fill(v, i, m, im, k, o.vol, o.r->Ok_0.0);
    } else if k < 268 + 65536 {
        let a = slot_filled(v, i, 13);
        assert(a.r is Ok);
        lemma_slot_filled(v, i, 13);
        let (m1, i1) = (a.vol, a.r->Ok_0.0);
        lemma_table_on_the_way(v, i, 13, m1, i1);
        let mid = (k - 268) / 256;
        let t = 270 + mid;
        assert(table_of(t) == 13 && index_of(t) == mid);
        let b = table_filled(m1, i1, at(m1, i1, 13), mid);
        assert(through(a, mid) == b);
        assert(b.r is Ok);
        lemma_table_filled(m1, i1, t);
        let (m2, i2) = (b.vol, b.r->Ok_0.0);
        lemma_table_on_the_way(m1, i1, t, m2, i2);
        lemma_grows_on(v, i, m1, i1, m2, i2);
        assert forall|n: int| 0 <= n < 65804 implies #[trigger] at(m2, i2, place_of(n)) == at(v, i, place_of(n)) by {
            assert(at(m1, i1, place_of(n)) == at(v, i, place_of(n)));
        }
        let p = place_of(k);
        assert(table_of(p) == t && index_of(p) == (k - 268) % 256);
        lemma_table_filled(m2, i2, p);
        let o = table_filled(m2, i2, at(m2, i2, t), (k - 268) % 256);
        assert(ensured(v, i, k) == o);
        lemma_last_fill(v, i, m2, i2, k, o.vol, o.r->Ok_0.0);
    }
}

/// Where a logical block of a file is.
pub(crate) proof fn lemma_mapped(v: Vol, i: InodeView, k: int)
    requires
        good(v.fs),
        held(v),
        reached(v, i),
        0 <= k < 65804,
    ensures
        mapped(v, i, k) == Ok::<u32, FsError>(at(v, i, place_of(k))),
{
    let p = place_of(k);
    if k >= 12 {
        let t = at(v, i, table_of(p));
        if t != 0 {
            assert(inside(v.fs, t as int));
            lemma_block(v, t as int);
        }
        if k < 268 {
            assert(at(v, i, 12) == i.blocks[12]);
            assert(table_of(p) == 12 && index_of(p) == k - 12);
        } else {
            let m = 270 + (k - 268) / 256;
            assert(table_of(p) == m && index_of(p) == (k - 268) % 256);
            assert(table_of(m) == 13 && index_of(m) == (k - 268) / 256);
            assert(at(v, i, 13) == i.blocks[13]);
            let t2 = at(v, i, 13);
            if t2 != 0 {
                assert(inside(v.fs, t2 as int));
                lemma_block(v, t2 as int);
            }
            assert(at(v, i, m) == ptr(v, t2, (k - 268) / 256));
        }
    }
}

// ---------------------------------------------------------------------------
// Data of a file
// ---------------------------------------------------------------------------

/// Byte `k` of a file; holes read as zeros.
pub open spec fn byte_of(v: Vol, i: InodeView, k: int) -> u8 {
    let b = at(v, i, place_of(k / 1024));
    if b == 0 { 0 } else { blk(v, b as int)[k % 1024] }
}

/// The block belongs to the inode.
pub open spec fn owned(v: Vol, i: InodeView, b: int) -> bool {
    exists|p: int| 0 <= p < places() && b != 0 && #[trigger] at(v, i, p) == b
}

/// What a write to a file does to the rest: nothing beside the file's blocks
/// and the counts changes, and no block changes hands.
pub open spec fn writes(v: Vol, i: InodeView, w: Vol, j: InodeView) -> bool {
    &&& like(v.fs, w.fs)
    &&& sound(w)
    &&& tree(w, j)
    &&& j.ino == i.ino && j.mode == i.mode && j.size == i.size
    &&& forall|q: int|
        0 <= q < places() ==> #[trigger] at(w, j, q) == at(v, i, q) || (at(v, i, q) == 0 && !in_use(
            v,
            at(w, j, q) as int,
        ))
    &&& forall|x: int| 0 <= x <= 8192 && in_use(v, x) ==> #[trigger] in_use(w, x)
    &&& forall|x: int|
        inside(v.fs, x) && in_use(v, x) && !counted(v.fs, x) && !owned(v, i, x) ==> #[trigger] blk(w, x) == blk(v, x)
}

/// A block of data written in place leaves the tree as it is.
proof fn lemma_at_data(v: Vol, i: InodeView, w: Vol, n: int, data: Seq<u8>, q: int)
    requires
        good(v.fs),
        tree(v, i),
        0 <= n < 65804,
        at(v, i, place_of(n)) != 0,
        block_set(v, w, at(v, i, place_of(n)) as int, data),
        0 <= q < places(),
    ensures
        at(w, i, q) == at(v, i, q),
    decreases q,
{
    if q >= 14 {
        let r = table_of(q);
        lemma_at_data(v, i, w, n, data, r);
        lemma_places_apart(n, n);
        let t = at(v, i, r);
        let p = place_of(n);
        if t != 0 {
            assert(inside(v.fs, t as int));
            assert(is_table(r));
            assert(t != at(v, i, p)) by {
                if r < p {
                    assert(at(v, i, r) != at(v, i, p));
                } else {
                    assert(at(v, i, p) != at(v, i, r));
                }
            }
        }
    }
}

pub(crate) proof fn lemma_data_block(v: Vol, i: InodeView, w: Vol, n: int, data: Seq<u8>)
    requires
        sound(v),
        tree(v, i),
        0 <= n < 65804,
        at(v, i, place_of(n)) != 0,
        block_set(v, w, at(v, i, place_of(n)) as int, data),
        data.len() == 1024,
    ensures
        writes(v, i, w, i),
        forall|k: int|
            0 <= k < 65804 * 1024 ==> #[trigger] byte_of(w, i, k) == (if k / 1024 == n {
                data[k % 1024]
            } else {
                byte_of(v, i, k)
            }),
{
    let p = place_of(n);
    lemma_places_apart(n, n);
    let b = at(v, i, p) as int;
    assert(inside(v.fs, b) && in_use(v, b) && !own(v.fs, b));
    assert forall|q: int| 0 <= q < places() implies #[trigger] at(w, i, q) == at(v, i, q) by {
        lemma_at_data(v, i, w, n, data, q);
    }
    let bb = v.fs.block_bitmap as int;
    assert(blk(w, bb) == blk(v, bb));
    assert forall|x: int| 0 <= x <= 8192 implies #[trigger] in_use(w, x) == in_use(v, x) by {}
    assert(marked(w)) by {
        assert forall|x: int| inside(w.fs, x) && own(w.fs, x) implies #[trigger] in_use(w, x) by {
            assert(in_use(v, x));
        }
        assert forall|x: int| w.fs.blocks_count <= x <= 8192 implies #[trigger] in_use(w, x) by {
            assert(in_use(v, x));
        }
    }
    assert(tree(w, i)) by {
        assert forall|q: int| 0 <= q < places() && #[trigger] at(w, i, q) != 0 implies inside(
            w.fs,
            at(w, i, q) as int,
        ) && in_use(w, at(w, i, q) as int) && !own(w.fs, at(w, i, q) as int) by {
            assert(at(v, i, q) != 0);
        }
        assert forall|x: int, y: int| 0 <= x < y < places() && #[trigger] at(w, i, x) != 0 implies at(w, i, x)
            != #[trigger] at(w, i, y) by {
            assert(at(v, i, x) != 0);
            assert(at(v, i, x) != at(v, i, y));
        }
    }
    assert forall|k: int| 0 <= k < 65804 * 1024 implies #[trigger] byte_of(w, i, k) == (if k / 1024 == n {
        data[k % 1024]
    } else {
        byte_of(v, i, k)
    }) by {
        let m = k / 1024;
        lemma_places_apart(m, n);
        let q = place_of(m);
        assert(at(w, i, q) == at(v, i, q));
        if m != n && at(v, i, q) != 0 {
            assert(inside(v.fs, at(v, i, q) as int));
            assert(at(v, i, q) != at(v, i, p)) by {
                if q < p {
                    assert(at(v, i, q) != at(v, i, p));
                } else {
                    assert(at(v, i, p) != at(v, i, q));
                }
            }
        }
    }
    assert forall|x: int|
        inside(v.fs, x) && in_use(v, x) && !counted(v.fs, x) && !owned(v, i, x) implies #[trigger] blk(w, x) == blk(
        v,
        x,
    ) by {
        if x == b {
            assert(at(v, i, p) == x);
        }
    }
}

/// Making sure of a block keeps the bytes of the file.
proof fn lemma_secured_bytes(v: Vol, i: InodeView, n: int, w: Vol, j: InodeView, phys: u32)
    requires
        sound(v),
        tree(v, i),
        0 <= n < 65804,
        secures(v, i, n, w, j, phys),
    ensures
        writes(v, i, w, j),
        forall|k: int| 0 <= k < 65804 * 1024 ==> #[trigger] byte_of(w, j, k) == byte_of(v, i, k),
{
    assert forall|k: int| 0 <= k < 65804 * 1024 implies #[trigger] byte_of(w, j, k) == byte_of(v, i, k) by {
        let m = k / 1024;
        lemma_places_apart(m, n);
        let q = place_of(m);
        let b = at(v, i, q);
        if b != 0 {
            assert(at(w, j, q) == b);
            assert(inside(v.fs, b as int) && in_use(v, b as int) && !own(v.fs, b as int));
            assert(!tabled(v, i, b as int)) by {
                if tabled(v, i, b as int) {
                    let p = choose|p: int| 0 <= p < places() && is_table(p) && b != 0 && #[trigger] at(v, i, p) == b;
                    if p < q {
                        assert(at(v, i, p) != at(v, i, q));
                    } else {
                        assert(at(v, i, q) != at(v, i, p));
                    }
                }
            }
            assert(blk(w, b as int) == blk(v, b as int));
        } else if m == n {
            assert(blk(w, phys as int)[k % 1024] == 0);
        }
    }
    assert forall|x: int|
        inside(v.fs, x) && in_use(v, x) && !counted(v.fs, x) && !owned(v, i, x) implies #[trigger] blk(w, x) == blk(
        v,
        x,
    ) by {
        assert(!tabled(v, i, x)) by {
            if tabled(v, i, x) {
                let p = choose|p: int| 0 <= p < places() && is_table(p) && x != 0 && #[trigger] at(v, i, p) == x;
                assert(owned(v, i, x));
            }
        }
    }
}

proof fn lemma_writes_on(v: Vol, i: InodeView, m: Vol, im: InodeView, w: Vol, j: InodeView)
    requires
        sound(v),
        writes(v, i, m, im),
        writes(m, im, w, j),
    ensures
        writes(v, i, w, j),
{
    assert forall|q: int| 0 <= q < places() implies #[trigger] at(w, j, q) == at(v, i, q) || (at(v, i, q) == 0
        && !in_use(v, at(w, j, q) as int)) by {
        assert(at(m, im, q) == at(v, i, q) || (at(v, i, q) == 0 && !in_use(v, at(m, im, q) as int)));
        let b = at(w, j, q) as int;
        if at(w, j, q) != at(m, im, q) {
            if b == 0 {
                assert(in_use(m, 0));
            }
            assert(inside(w.fs, b));
            if in_use(v, b) {
                assert(in_use(m, b));
            }
        }
    }
    assert forall|x: int| 0 <= x <= 8192 && in_use(v, x) implies #[trigger] in_use(w, x) by {
        assert(in_use(m, x));
    }
    assert forall|x: int|
        inside(v.fs, x) && in_use(v, x) && !counted(v.fs, x) && !owned(v, i, x) implies #[trigger] blk(w, x) == blk(
        v,
        x,
    ) by {
        assert(in_use(m, x));
        assert(!owned(m, im, x)) by {
            if owned(m, im, x) {
                let p = choose|p: int| 0 <= p < places() && x != 0 && #[trigger] at(m, im, p) == x;
                assert(at(m, im, p) == at(v, i, p) || (at(v, i, p) == 0 && !in_use(v, at(m, im, p) as int)));
                assert(at(v, i, p) == x);
            }
        }
        assert(blk(m, x) == blk(v, x));
    }
}

/// Putting data into a file changes exactly the bytes it covers.
pub(crate) proof fn lemma_data_put(v: Vol, i: InodeView, pos: int, data: Seq<u8>)
    requires
        sound(v),
        tree(v, i),
        0 <= pos <= 65804 * 1024,
        data_put(v, i, pos, data).r is Ok,
    ensures
        pos + data.len() <= 65804 * 1024,
        writes(v, i, data_put(v, i, pos, data).vol, data_put(v, i, pos, data).r->Ok_0),
        forall|k: int|
            0 <= k < 65804 * 1024 ==> #[trigger] byte_of(
                data_put(v, i, pos, data).vol,
                data_put(v, i, pos, data).r->Ok_0,
                k,
            ) == (if pos <= k < pos + data.len() { data[k - pos] } else { byte_of(v, i, k) }),
    decreases data.len(),
{
    let room = 1024 - pos % 1024;
    let take = if room < data.len() { room } else { data.len() as int };
    if data.len() > 0 {
        let n = pos / 1024;
        let x = ensured(v, i, n);
        assert(x.r is Ok);
        lemma_ensured(v, i, n);
        let (v1, i1, phys) = (x.vol, x.r->Ok_0.0, x.r->Ok_0.1);
        lemma_secured_bytes(v, i, n, v1, i1, phys);
        lemma_places_apart(n, n);
        assert(inside(v1.fs, phys as int));
        lemma_block(v1, phys as int);
        let old = blk(v1, phys as int);
        let new = if take < 1024 { splice(old, pos % 1024, data.take(take)) } else { data.take(take) };
        assert(new.len() == 1024);
        lemma_with_block(v1, phys as int, new);
        let w1 = with_block(v1, phys as int, new).vol;
        lemma_data_block(v1, i1, w1, n, new);
        lemma_writes_on(v, i, v1, i1, w1, i1);
        let rest = data.skip(take);
        assert(data_put(v, i, pos, data) == data_put(w1, i1, pos + take, rest));
        lemma_data_put(w1, i1, pos + take, rest);
        let w = data_put(w1, i1, pos + take, rest).vol;
        let j = data_put(w1, i1, pos + take, rest).r->Ok_0;
        lemma_writes_on(v, i, w1, i1, w, j);
        assert forall|k: int| 0 <= k < 65804 * 1024 implies #[trigger] byte_of(w, j, k) == (if pos <= k < pos
            + data.len() { data[k - pos] } else { byte_of(v, i, k) }) by {
            assert(byte_of(v1, i1, k) == byte_of(v, i, k));
            assert(byte_of(w1, i1, k) == (if k / 1024 == n { new[k % 1024] } else { byte_of(v1, i1, k) }));
            if k / 1024 == n {
                assert(old[k % 1024] == byte_of(v1, i1, k));
            }
        }
    }
}

/// Gathering gives the bytes of the file.
#[verifier::spinoff_prover]
proof fn lemma_gathered(v: Vol, i: InodeView, pos: int, end: int)
    requires
        good(v.fs),
        held(v),
        tree(v, i),
        0 <= pos <= end <= 65804 * 1024,
    ensures
        gathered(v, i, pos, end) == Ok::<Seq<u8>, FsError>(
            Seq::new((end - pos) as nat, |k: int| byte_of(v, i, pos + k)),
        ),
    decreases end - pos,
{
    let all = Seq::new((end - pos) as nat, |k: int| byte_of(v, i, pos + k));
    if pos < end {
        let room = 1024 - pos % 1024;
        let take = if room < end - pos { room } else { end - pos };
        let n = pos / 1024;
        lemma_mapped(v, i, n);
        lemma_places_apart(n, n);
        let b = at(v, i, place_of(n));
        if b != 0 {
            assert(inside(v.fs, b as int));
            lemma_block(v, b as int);
        }
        let here = if b == 0 {
            Seq::new(take as nat, |k: int| 0u8)
        } else {
            blk(v, b as int).subrange(pos % 1024, pos % 1024 + take)
        };
        lemma_gathered(v, i, pos + take, end);
        let rest = Seq::new((end - pos - take) as nat, |k: int| byte_of(v, i, pos + take + k));
        assert forall|k: int| 0 <= k < end - pos implies (here + rest)[k] == all[k] by {
            if k < take {
                assert((pos + k) / 1024 == n && (pos + k) % 1024 == pos % 1024 + k);
            } else {
                assert((here + rest)[k] == rest[k - take]);
            }
        }
        assert(here + rest =~= all);
    } else {
        assert(all =~= Seq::<u8>::empty());
    }
}

// ---------------------------------------------------------------------------
// Inodes
// ---------------------------------------------------------------------------

/// An inode of the volume.
pub open spec fn numbered(fs: Ext2, ino: u32) -> bool {
    1 <= ino <= fs.inodes_count
}

proof fn lemma_pointers(b: Seq<u8>, o: int, ps: Seq<u32>, n: int)
    requires
        0 <= o,
        o + 128 <= b.len(),
        0 <= n <= 15,
    ensures
        pointers_put(b, o, ps, n).len() == b.len(),
        forall|k: int|
            0 <= k < b.len() && !(o + 40 <= k < o + 40 + 4 * n) ==> #[trigger] pointers_put(b, o, ps, n)[k] == b[k],
        forall|m: int| 0 <= m < n ==> #[trigger] le32(pointers_put(b, o, ps, n), o + 40 + 4 * m) == ps[m],
    decreases n,
{
    if n > 0 {
        lemma_pointers(b, o, ps, n - 1);
        let was = pointers_put(b, o, ps, n - 1);
        let p = o + 40 + 4 * (n - 1);
        law_le32_roundtrip(was, p, ps[n - 1]);
        let now = pointers_put(b, o, ps, n);
        assert forall|m: int| 0 <= m < n implies #[trigger] le32(now, o + 40 + 4 * m) == ps[m] by {
            let q = o + 40 + 4 * m;
            if m < n - 1 {
                assert(le32(was, q) == ps[m]);
                assert(now[q] == was[q] && now[q + 1] == was[q + 1] && now[q + 2] == was[q + 2] && now[q + 3] == was[q
                    + 3]);
            }
        }
    }
}

/// An inode reads back from the table block it was put into, and the others
/// of that block are as before.
proof fn lemma_inode_put(b: Seq<u8>, o: int, i: InodeView)
    requires
        0 <= o,
        o + 128 <= b.len(),
        i.blocks.len() == 15,
    ensures
        inode_put(b, o, i).len() == b.len(),
        inode_in(inode_put(b, o, i), o, i.ino) == i,
        forall|k: int| 0 <= k < b.len() && !(o <= k < o + 128) ==> #[trigger] inode_put(b, o, i)[k] == b[k],
{
    let a = splice(b, o, le16_bytes(i.mode as int));
    let c = splice(a, o + 4, le32_bytes(i.size as int));
    let e = splice(c, o + 28, le32_bytes(i.sectors as int));
    law_le16_roundtrip(b, o, i.mode);
    law_le32_roundtrip(a, o + 4, i.size);
    law_le32_roundtrip(c, o + 28, i.sectors);
    lemma_pointers(e, o, i.blocks, 15);
    let x = inode_put(b, o, i);
    assert(x[o] == a[o] && x[o + 1] == a[o + 1]);
    assert(x[o + 4] == c[o + 4] && x[o + 5] == c[o + 5] && x[o + 6] == c[o + 6] && x[o + 7] == c[o + 7]);
    assert(x[o + 28] == e[o + 28] && x[o + 29] == e[o + 29] && x[o + 30] == e[o + 30] && x[o + 31] == e[o + 31]);
    let r = inode_in(x, o, i.ino);
    assert forall|m: int| 0 <= m < 15 implies #[trigger] r.blocks[m] == i.blocks[m] by {
        assert(le32(x, o + 40 + 4 * m) == i.blocks[m]);
    }
    assert(r.blocks =~= i.blocks);
}

proof fn lemma_inode_other(b: Seq<u8>, c: Seq<u8>, o: int, ino: u32)
    requires
        0 <= o,
        o + 128 <= b.len(),
        c.len() == b.len(),
        forall|k: int| o <= k < o + 128 ==> #[trigger] c[k] == b[k],
    ensures
        inode_in(c, o, ino) == inode_in(b, o, ino),
{
    let x = inode_in(b, o, ino);
    let y = inode_in(c, o, ino);
    assert forall|m: int| 0 <= m < 15 implies #[trigger] y.blocks[m] == x.blocks[m] by {
        let q = o + 40 + 4 * m;
        assert(c[q] == b[q] && c[q + 1] == b[q + 1] && c[q + 2] == b[q + 2] && c[q + 3] == b[q + 3]);
    }
    assert(c[o] == b[o] && c[o + 1] == b[o + 1]);
    assert(c[o + 4] == b[o + 4] && c[o + 5] == b[o + 5] && c[o + 6] == b[o + 6] && c[o + 7] == b[o + 7]);
    assert(c[o + 28] == b[o + 28] && c[o + 29] == b[o + 29] && c[o + 30] == b[o + 30] && c[o + 31] == b[o + 31]);
    assert(y.blocks =~= x.blocks);
}

/// Saving an inode changes that inode and no other, nor any block beside the
/// table.
pub(crate) proof fn lemma_with_inode(v: Vol, i: InodeView)
    requires
        sound(v),
        numbered(v.fs, i.ino),
        i.blocks.len() == 15,
    ensures
        with_inode(v, i).r is Ok,
        ({
            let w = with_inode(v, i).vol;
            &&& exists|d: Seq<u8>| block_set(v, w, table_block(v.fs, i.ino), d)
            &&& inode(w, i.ino) == Ok::<InodeView, FsError>(i)
            &&& forall|n: u32| numbered(v.fs, n) && n != i.ino ==> #[trigger] inode(w, n) == inode(v, n)
        }),
{
    reveal(with_inode);
    let t = table_block(v.fs, i.ino);
    let o = table_place(i.ino);
    lemma_block(v, t);
    let b = blk(v, t);
    lemma_inode_put(b, o, i);
    let put = inode_put(b, o, i);
    lemma_with_block(v, t, put);
    let w = with_inode(v, i).vol;
    assert(block_set(v, w, t, put));
    lemma_block(w, t);
    assert forall|n: u32| numbered(v.fs, n) && n != i.ino implies #[trigger] inode(w, n) == inode(v, n) by {
        let t2 = table_block(v.fs, n);
        let o2 = table_place(n);
        lemma_block(v, t2);
        lemma_block(w, t2);
        if t2 == t {
            assert(o2 + 128 <= o || o + 128 <= o2);
            lemma_inode_other(b, put, o2, n);
        }
    }
}

/// The blocks of a tree, and the bitmap, stay when one of the volume's other
/// blocks changes.
proof fn lemma_beside_own(v: Vol, w: Vol, b: int, d: Seq<u8>, i: InodeView)
    requires
        sound(v),
        tree(v, i),
        own(v.fs, b),
        inside(v.fs, b),
        b != v.fs.block_bitmap,
        block_set(v, w, b, d),
    ensures
        sound(w),
        tree(w, i),
        forall|q: int| 0 <= q < places() ==> #[trigger] at(w, i, q) == at(v, i, q),
        forall|x: int| 0 <= x <= 8192 ==> #[trigger] in_use(w, x) == in_use(v, x),
{
    let bb = v.fs.block_bitmap as int;
    assert(blk(w, bb) == blk(v, bb));
    assert forall|x: int| 0 <= x <= 8192 implies #[trigger] in_use(w, x) == in_use(v, x) by {}
    assert(marked(w)) by {
        assert forall|x: int| inside(w.fs, x) && own(w.fs, x) implies #[trigger] in_use(w, x) by {
            assert(in_use(v, x));
        }
        assert forall|x: int| w.fs.blocks_count <= x <= 8192 implies #[trigger] in_use(w, x) by {
            assert(in_use(v, x));
        }
    }
    assert forall|q: int| 0 <= q < places() implies #[trigger] at(w, i, q) == at(v, i, q) by {
        lemma_at_kept(v, i, w, q);
    }
    lemma_tree_kept(v, i, w);
}

/// Every block of a tree holds the same in `w`.
pub open spec fn tree_same(v: Vol, i: InodeView, w: Vol) -> bool {
    forall|p: int|
        0 <= p < places() && #[trigger] at(v, i, p) != 0 ==> blk(w, at(v, i, p) as int) == blk(v, at(v, i, p) as int)
}

pub(crate) proof fn lemma_at_kept(v: Vol, i: InodeView, w: Vol, q: int)
    requires
        tree_same(v, i, w),
        0 <= q < places(),
    ensures
        at(w, i, q) == at(v, i, q),
    decreases q,
{
    if q >= 14 {
        lemma_at_kept(v, i, w, table_of(q));
        let t = at(v, i, table_of(q));
        if t != 0 {
            assert(blk(w, t as int) == blk(v, t as int));
        }
    }
}

proof fn lemma_tree_kept(v: Vol, i: InodeView, w: Vol)
    requires
        tree(v, i),
        like(v.fs, w.fs),
        good(v.fs),
        tree_same(v, i, w),
        forall|x: int| 0 <= x <= 8192 && in_use(v, x) ==> #[trigger] in_use(w, x),
    ensures
        tree(w, i),
{
    assert forall|q: int| 0 <= q < places() implies #[trigger] at(w, i, q) == at(v, i, q) by {
        lemma_at_kept(v, i, w, q);
    }
    assert forall|q: int| 0 <= q < places() && #[trigger] at(w, i, q) != 0 implies inside(
        w.fs,
        at(w, i, q) as int,
    ) && in_use(w, at(w, i, q) as int) && !own(w.fs, at(w, i, q) as int) by {
        assert(at(v, i, q) != 0);
    }
    assert forall|x: int, y: int| 0 <= x < y < places() && #[trigger] at(w, i, x) != 0 implies at(w, i, x)
        != #[trigger] at(w, i, y) by {
        assert(at(v, i, x) != 0);
        assert(at(v, i, x) != at(v, i, y));
    }
}

// ---------------------------------------------------------------------------
// Directories
// ---------------------------------------------------------------------------

/// A directory whose tree and blocks are the same has the same records.
pub(crate) proof fn lemma_records_same(v: Vol, w: Vol, dir: InodeView, n: int)
    requires
        good(v.fs),
        held(v),
        good(w.fs),
        held(w),
        reached(v, dir),
        reached(w, dir),
        tree_same(v, dir, w),
    ensures
        records(w, dir, n) == records(v, dir, n),
    decreases n,
{
    if n > 0 {
        lemma_records_same(v, w, dir, n - 1);
        let k = n - 1;
        if k < 65804 {
            lemma_mapped(v, dir, k);
            lemma_mapped(w, dir, k);
            lemma_places_apart(k, k);
            lemma_at_kept(v, dir, w, place_of(k));
            let b = at(v, dir, place_of(k));
            if b != 0 {
                assert(inside(v.fs, b as int));
                assert(inside(w.fs, b as int));
                lemma_block(v, b as int);
                lemma_block(w, b as int);
            }
        } else {
            assert(mapped(v, dir, k) == mapped(w, dir, k));
        }
    }
}

/// The two trees share no block.
pub open spec fn apart(v: Vol, a: InodeView, b: InodeView) -> bool {
    forall|p: int, q: int|
        0 <= p < places() && 0 <= q < places() && #[trigger] at(v, a, p) != 0 ==> at(v, a, p) != #[trigger] at(
            v,
            b,
            q,
        )
}

/// A tree beside the file that is written keeps its blocks.
pub(crate) proof fn lemma_beside(v: Vol, i: InodeView, w: Vol, j: InodeView, dir: InodeView)
    requires
        sound(v),
        writes(v, i, w, j),
        tree(v, dir),
        apart(v, dir, i),
    ensures
        tree_same(v, dir, w),
        tree(w, dir),
{
    assert forall|p: int| 0 <= p < places() && #[trigger] at(v, dir, p) != 0 implies blk(w, at(v, dir, p) as int)
        == blk(v, at(v, dir, p) as int) by {
        let x = at(v, dir, p) as int;
        assert(inside(v.fs, x) && in_use(v, x) && !own(v.fs, x));
        if owned(v, i, x) {
            let q = choose|q: int| 0 <= q < places() && x != 0 && #[trigger] at(v, i, q) == x;
            assert(at(v, dir, p) != at(v, i, q));
        }
    }
    lemma_tree_kept(v, dir, w);
}

/// A write to a file leaves the inode table as it is.
pub(crate) proof fn lemma_inodes_kept(v: Vol, i: InodeView, w: Vol, j: InodeView, n: u32)
    requires
        sound(v),
        tree(v, i),
        writes(v, i, w, j),
    ensures
        inode(w, n) == inode(v, n),
{
    if numbered(v.fs, n) {
        let t = table_block(v.fs, n);
        lemma_block(v, t);
        lemma_block(w, t);
        assert(own(v.fs, t));
        assert(in_use(v, t));
        if owned(v, i, t) {
            let q = choose|q: int| 0 <= q < places() && t != 0 && #[trigger] at(v, i, q) == t;
            assert(at(v, i, q) != 0);
        }
        assert(blk(w, t) == blk(v, t));
    }
}

// ---------------------------------------------------------------------------
// Paths
// ---------------------------------------------------------------------------

/// The components of a path.
pub open spec fn parts(path: Seq<char>) -> Seq<Seq<char>> {
    path_parts(path)->0
}

/// What the first `n` components of a path name.
pub open spec fn node_n(v: Vol, path: Seq<char>, n: int) -> InodeView {
    node_upto(v, parts(path), n)->Ok_0->0
}

/// The volume is healthy as far as a path goes: it is sound, the directories
/// on the way and the file have proper trees, and the file shares no block
/// with the directories.
pub open spec fn healthy(v: Vol, path: Seq<char>) -> bool {
    &&& sound(v)
    &&& path_parts(path) is Some
    &&& node_n(v, path, 0).is_dir()
    &&& forall|n: int|
        0 <= n < parts(path).len() ==> #[trigger] node_upto(v, parts(path), n) is Ok && node_upto(
            v,
            parts(path),
            n,
        )->Ok_0 is Some && node_n(v, path, n).is_dir() && tree(v, node_n(v, path, n))
    &&& node_at(v, path) matches Ok(Some(i)) ==> {
        &&& tree(v, i)
        &&& forall|n: int| 0 <= n < parts(path).len() ==> apart(v, #[trigger] node_n(v, path, n), i)
    }
}

/// The inode that a lookup gives is the one that the table holds.
pub(crate) proof fn lemma_node_is_inode(v: Vol, ps: Seq<Seq<char>>, n: int)
    requires
        0 <= n,
        node_upto(v, ps, n) is Ok,
        node_upto(v, ps, n)->Ok_0 is Some,
    ensures
        inode(v, (node_upto(v, ps, n)->Ok_0->0).ino) == Ok::<InodeView, FsError>(node_upto(v, ps, n)->Ok_0->0),
        numbered(v.fs, (node_upto(v, ps, n)->Ok_0->0).ino),
{
}

/// The volume `w` is `v` with one file written: its inode is `k` now, every
/// other inode is as before, and trees beside the file's are too.
pub open spec fn rewrites(v: Vol, i: InodeView, w: Vol, k: InodeView) -> bool {
    &&& like(v.fs, w.fs)
    &&& sound(w)
    &&& k.ino == i.ino
    &&& inode(w, k.ino) == Ok::<InodeView, FsError>(k)
    &&& forall|n: u32| numbered(v.fs, n) && n != i.ino ==> #[trigger] inode(w, n) == inode(v, n)
    &&& forall|dir: InodeView|
        #![trigger tree(v, dir)]
        tree(v, dir) && apart(v, dir, i) ==> tree(w, dir) && tree_same(v, dir, w)
}

/// No directory on the way to a path shares a block with the inode.
pub open spec fn clear_way(v: Vol, path: Seq<char>, i: InodeView) -> bool {
    forall|n: int| 0 <= n < parts(path).len() ==> apart(v, #[trigger] node_n(v, path, n), i)
}

/// The directories on a way that is clear of the file are found as before.
proof fn lemma_way_kept(v: Vol, path: Seq<char>, i: InodeView, w: Vol, k: InodeView, n: int)
    requires
        healthy(v, path),
        rewrites(v, i, w, k),
        inode(v, i.ino) == Ok::<InodeView, FsError>(i),
        clear_way(v, path, i),
        !i.is_dir(),
        0 <= n < parts(path).len(),
    ensures
        node_upto(w, parts(path), n) == node_upto(v, parts(path), n),
    decreases n,
{
    let ps = parts(path);
    assert(node_upto(v, ps, n) is Ok);
    lemma_node_is_inode(v, ps, n);
    let here = node_n(v, path, n);
    assert(here.is_dir());
    assert(here.ino != i.ino);
    if n > 0 {
        lemma_way_kept(v, path, i, w, k, n - 1);
        assert(node_upto(v, ps, n - 1) is Ok);
        let dir = node_n(v, path, n - 1);
        assert(tree(v, dir));
        assert(apart(v, dir, i));
        lemma_records_same(v, w, dir, dir.size as int / 1024);
    }
}

/// A path still names its file.
proof fn lemma_file_found(v: Vol, path: Seq<char>, i: InodeView, w: Vol, k: InodeView)
    requires
        healthy(v, path),
        rewrites(v, i, w, k),
        node_at(v, path) == Ok::<Option<InodeView>, FsError>(Some(i)),
        !i.is_dir(),
        parts(path).len() >= 1,
    ensures
        node_at(w, path) == Ok::<Option<InodeView>, FsError>(Some(k)),
{
    let ps = parts(path);
    let l = ps.len() - 1;
    lemma_node_is_inode(v, ps, ps.len() as int);
    lemma_way_kept(v, path, i, w, k, l);
    assert(node_upto(v, ps, l) is Ok);
    let dir = node_n(v, path, l);
    assert(tree(v, dir));
    assert(apart(v, dir, i));
    lemma_records_same(v, w, dir, dir.size as int / 1024);
}

/// What writing data to a file of a sound volume does.
pub(crate) proof fn lemma_file_written(v: Vol, i: InodeView, off: int, data: Seq<u8>)
    requires
        sound(v),
        tree(v, i),
        numbered(v.fs, i.ino),
        0 <= off <= 65804 * 1024,
        data.len() >= 1,
        file_written(v, i, off, data).r is Ok,
    ensures
        ({
            let w = file_written(v, i, off, data).vol;
            let end = off + data.len();
            exists|k: InodeView|
                {
                    &&& #[trigger] rewrites(v, i, w, k)
                    &&& k.mode == i.mode
                    &&& k.size == (if end > i.size { end } else { i.size as int })
                    &&& file_part(w, k, off, data.len() as int) == Ok::<Seq<u8>, FsError>(data)
                }
        }),
{
    let p = data_put(v, i, off, data);
    lemma_data_put(v, i, off, data);
    let v1 = p.vol;
    let j = p.r->Ok_0;
    let end = off + data.len();
    let k = if end > j.size { InodeView { size: end as u32, ..j } } else { j };
    lemma_with_inode(v1, k);
    let w = with_inode(v1, k).vol;
    assert(file_written(v, i, off, data).vol == w);
    let t = table_block(v1.fs, k.ino);
    let d = choose|d: Seq<u8>| block_set(v1, w, t, d);
    lemma_tree_fields(v1, j, k);
    lemma_beside_own(v1, w, t, d, k);
    assert forall|n: u32| numbered(v.fs, n) && n != i.ino implies #[trigger] inode(w, n) == inode(v, n) by {
        lemma_inodes_kept(v, i, v1, j, n);
    }
    assert forall|dir: InodeView|
        #![trigger tree(v, dir)]
        tree(v, dir) && apart(v, dir, i) implies tree(w, dir) && tree_same(v, dir, w) by {
        lemma_beside(v, i, v1, j, dir);
        lemma_beside_own(v1, w, t, d, dir);
        assert forall|q: int| 0 <= q < places() && #[trigger] at(v, dir, q) != 0 implies blk(w, at(v, dir, q) as int)
            == blk(v, at(v, dir, q) as int) by {
            let x = at(v, dir, q) as int;
            assert(inside(v.fs, x) && !own(v.fs, x));
            assert(blk(v1, x) == blk(v, x));
            assert(x != t);
        }
    }
    assert(rewrites(v, i, w, k));
    lemma_gathered(w, k, off, end);
    let got = Seq::new(data.len(), |n: int| byte_of(w, k, off + n));
    assert forall|n: int| 0 <= n < data.len() implies #[trigger] got[n] == data[n] by {
        let m = off + n;
        lemma_places_apart(m / 1024, m / 1024);
        let q = place_of(m / 1024);
        lemma_at_fields(v1, j, k, q);
        assert(at(w, k, q) == at(v1, k, q));
        let b = at(v1, j, q) as int;
        if b != 0 {
            assert(inside(v1.fs, b) && !own(v1.fs, b));
            assert(blk(w, b) == blk(v1, b));
        }
        assert(byte_of(w, k, m) == byte_of(v1, j, m));
        assert(byte_of(v1, j, m) == data[m - off]);
    }
    assert(got =~= data);
}

/// The size of an inode has no part in its tree.
proof fn lemma_at_fields(v: Vol, i: InodeView, k: InodeView, q: int)
    requires
        k.blocks == i.blocks,
    ensures
        at(v, k, q) == at(v, i, q),
    decreases q,
{
    if q >= 14 {
        lemma_at_fields(v, i, k, table_of(q));
    }
}

proof fn lemma_tree_fields(v: Vol, i: InodeView, k: InodeView)
    requires
        tree(v, i),
        k.blocks == i.blocks,
    ensures
        tree(v, k),
{
    assert forall|q: int| 0 <= q < places() implies #[trigger] at(v, k, q) == at(v, i, q) by {
        lemma_at_fields(v, i, k, q);
    }
    assert forall|x: int, y: int| 0 <= x < y < places() && #[trigger] at(v, k, x) != 0 implies at(v, k, x)
        != #[trigger] at(v, k, y) by {
        assert(at(v, i, x) != at(v, i, y));
    }
}

proof fn lemma_write_existing(v: Vol, path: Seq<char>, i: InodeView, off: int, data: Seq<u8>)
    requires
        healthy(v, path),
        parts(path).len() >= 1,
        node_at(v, path) == Ok::<Option<InodeView>, FsError>(Some(i)),
        !i.is_dir(),
        0 <= off <= 65804 * 1024,
        data.len() >= 1,
        file_written(v, i, off, data).r is Ok,
    ensures
        ({
            let w = file_written(v, i, off, data).vol;
            let end = off + data.len();
            &&& contents(w, path, off, data.len() as int) == Ok::<Seq<u8>, FsError>(data)
            &&& status(w, path) == Ok::<FileStat, FsError>(
                FileStat { size: (if end > i.size { end } else { i.size as int }) as u64, is_dir: false },
            )
        }),
{
    lemma_node_is_inode(v, parts(path), parts(path).len() as int);
    lemma_file_written(v, i, off, data);
    let w = file_written(v, i, off, data).vol;
    let end = off + data.len();
    let k = choose|k: InodeView|
        {
            &&& #[trigger] rewrites(v, i, w, k)
            &&& k.mode == i.mode
            &&& k.size == (if end > i.size { end } else { i.size as int })
            &&& file_part(w, k, off, data.len() as int) == Ok::<Seq<u8>, FsError>(data)
        };
    lemma_file_found(v, path, i, w, k);
}

// ---------------------------------------------------------------------------
// Records of a directory
// ---------------------------------------------------------------------------

/// Every record of a block stands where it says.
proof fn lemma_record_places(b: Seq<u8>, o: int, base: int, k: int)
    requires
        0 <= o,
        block_records(b, o, base) is Ok,
        0 <= k < block_records(b, o, base)->Ok_0.len(),
    ensures
        ({
            let r = block_records(b, o, base)->Ok_0[k];
            let p = r.offset - base;
            &&& o <= p
            &&& p + 8 <= 1024
            &&& record_ok(b, p)
            &&& r == record_at(b, p, base)
        }),
        k == 0 ==> block_records(b, o, base)->Ok_0[k].offset == base + o,
        k > 0 ==> block_records(b, o, base)->Ok_0[k].offset >= base + o + le16(b, o + 4),
    decreases 1024 - o,
{
    if o + 8 <= 1024 && record_ok(b, o) {
        let rest = block_records(b, o + le16(b, o + 4), base)->Ok_0;
        if k > 0 {
            assert(block_records(b, o, base)->Ok_0[k] == rest[k - 1]);
            lemma_record_places(b, o + le16(b, o + 4), base, k - 1);
        }
    }
}

/// A record depends on its own bytes alone.
proof fn lemma_record_same(b: Seq<u8>, c: Seq<u8>, o: int, base: int)
    requires
        0 <= o,
        o + 8 <= 1024,
        b.len() == 1024,
        c.len() == 1024,
        record_ok(b, o),
        forall|k: int| o <= k < o + le16(b, o + 4) ==> #[trigger] c[k] == b[k],
    ensures
        record_ok(c, o),
        record_at(c, o, base) == record_at(b, o, base),
        le16(c, o + 4) == le16(b, o + 4),
{
    assert(c[o] == b[o] && c[o + 1] == b[o + 1] && c[o + 2] == b[o + 2] && c[o + 3] == b[o + 3]);
    assert(c[o + 4] == b[o + 4] && c[o + 5] == b[o + 5] && c[o + 6] == b[o + 6]);
    if le32(b, o) != 0 {
        let n = b[o + 6];
        assert(c.subrange(o + 8, o + 8 + n) =~= b.subrange(o + 8, o + 8 + n));
    }
}

/// The records from `o` on depend on the bytes from there on.
proof fn lemma_suffix_same(b: Seq<u8>, c: Seq<u8>, o: int, base: int)
    requires
        0 <= o,
        b.len() == 1024,
        c.len() == 1024,
        forall|k: int| o <= k < 1024 ==> #[trigger] c[k] == b[k],
        block_records(b, o, base) is Ok,
    ensures
        block_records(c, o, base) == block_records(b, o, base),
    decreases 1024 - o,
{
    if o + 8 <= 1024 {
        lemma_record_same(b, c, o, base);
        lemma_suffix_same(b, c, o + le16(b, o + 4), base);
    }
}

/// A change within one record of a block.
proof fn lemma_record_replaced(b: Seq<u8>, c: Seq<u8>, o: int, base: int, k: int, mid: Seq<Record>)
    requires
        0 <= o,
        b.len() == 1024,
        c.len() == 1024,
        block_records(b, o, base) is Ok,
        0 <= k < block_records(b, o, base)->Ok_0.len(),
        ({
            let rs = block_records(b, o, base)->Ok_0;
            let p = rs[k].offset - base;
            &&& forall|x: int| 0 <= x < 1024 && !(p <= x < p + rs[k].rec_len) ==> #[trigger] c[x] == b[x]
            &&& block_records(c, p, base) == (match block_records(c, p + rs[k].rec_len, base) {
                Ok(rest) => Ok::<Seq<Record>, FsError>(mid + rest),
                Err(e) => Err(e),
            })
        }),
    ensures
        block_records(c, o, base) == Ok::<Seq<Record>, FsError>(
            block_records(b, o, base)->Ok_0.take(k) + mid + block_records(b, o, base)->Ok_0.skip(k + 1),
        ),
    decreases 1024 - o,
{
    let rs = block_records(b, o, base)->Ok_0;
    lemma_record_places(b, o, base, k);
    let p = rs[k].offset - base;
    assert(o + 8 <= 1024 && record_ok(b, o));
    let next = o + le16(b, o + 4);
    let rest = block_records(b, next, base)->Ok_0;
    assert(rs == seq![record_at(b, o, base)] + rest);
    if k == 0 {
        assert(p == o);
        assert(rs[0].rec_len == le16(b, o + 4));
        lemma_suffix_same(b, c, next, base);
        assert(rs.take(0) + mid + rs.skip(1) =~= mid + rest);
    } else {
        assert(rs[k] == rest[k - 1]);
        assert(p >= next);
        lemma_record_same(b, c, o, base);
        lemma_record_replaced(b, c, next, base, k - 1, mid);
        assert(rs.take(k) + mid + rs.skip(k + 1) =~= seq![record_at(b, o, base)] + (rest.take(k - 1) + mid
            + rest.skip(k)));
    }
}

/// A record reads back from where it was put.
proof fn lemma_record_put(b: Seq<u8>, o: int, ino: u32, name: Seq<u8>, rec: int)
    requires
        b.len() == 1024,
        0 <= o,
        8 + name.len() <= rec,
        name.len() <= 255,
        o + rec <= 1024,
    ensures
        ({
            let c = record_put(b, o, ino, name, rec);
            &&& c.len() == 1024
            &&& le32(c, o) == ino
            &&& le16(c, o + 4) == rec
            &&& c[o + 6] == name.len()
            &&& c.subrange(o + 8, o + 8 + name.len()) == name
            &&& forall|x: int| 0 <= x < 1024 && !(o <= x < o + 8 + name.len()) ==> #[trigger] c[x] == b[x]
        }),
{
    let x1 = splice(b, o, le32_bytes(ino as int));
    let x2 = splice(x1, o + 4, le16_bytes(rec));
    let x3 = x2.update(o + 6, name.len() as u8).update(o + 7, 0);
    let c = splice(x3, o + 8, name);
    law_le32_roundtrip(b, o, ino);
    law_le16_roundtrip(x1, o + 4, rec as u16);
    assert(c[o] == x1[o] && c[o + 1] == x1[o + 1] && c[o + 2] == x1[o + 2] && c[o + 3] == x1[o + 3]);
    assert(c[o + 4] == x2[o + 4] && c[o + 5] == x2[o + 5]);
    assert(c.subrange(o + 8, o + 8 + name.len()) =~= name);
}

/// A name on disk reads back as its characters.
proof fn lemma_shown(name: Seq<char>)
    ensures
        shown(vstd::utf8::encode_utf8(name)) == name,
{
    vstd::utf8::encode_utf8_valid_utf8(name);
    vstd::utf8::encode_utf8_decode_utf8(name);
}

/// The bytes of the name in the record at `o`.
pub open spec fn raw_name(b: Seq<u8>, o: int) -> Seq<u8> {
    b.subrange(o + 8, o + 8 + b[o + 6])
}

/// The live record at `o` has a name in UTF-8.
pub open spec fn name_ok(b: Seq<u8>, o: int) -> bool {
    le32(b, o) != 0 ==> vstd::utf8::valid_utf8(raw_name(b, o))
}

/// The inode that the name finds in a list of records, 0 for none.
pub open spec fn ino_of(rs: Seq<Record>, name: Seq<char>) -> u32 {
    match record_named(rs, name, 0) {
        Some(r) => r.ino,
        None => 0,
    }
}

/// The lists answer every name alike but this one.
pub open spec fn alike_but(a: Seq<Record>, b: Seq<Record>, name: Seq<char>) -> bool {
    forall|other: Seq<char>| other != name ==> #[trigger] ino_of(b, other) == ino_of(a, other)
}

/// What is found has a number.
pub(crate) proof fn lemma_found_live(rs: Seq<Record>, name: Seq<char>, k: int)
    requires
        0 <= k,
    ensures
        record_named(rs, name, k) matches Some(r) ==> r.ino != 0,
    decreases rs.len() - k,
{
    if k < rs.len() {
        lemma_found_live(rs, name, k + 1);
    }
}

/// A name in two lists after each other.
proof fn lemma_ino_joined(a: Seq<Record>, b: Seq<Record>, name: Seq<char>)
    ensures
        ino_of(a + b, name) == if ino_of(a, name) != 0 { ino_of(a, name) } else { ino_of(b, name) },
{
    lemma_named_joined(a, b, name, 0);
    lemma_found_live(a, name, 0);
}

/// Lists that are joined answer alike where their parts do.
proof fn lemma_alike_joined(a: Seq<Record>, b: Seq<Record>, c: Seq<Record>, d: Seq<Record>, name: Seq<char>)
    requires
        alike_but(a, b, name),
        alike_but(c, d, name),
    ensures
        alike_but(a + c, b + d, name),
{
    assert forall|other: Seq<char>| other != name implies #[trigger] ino_of(b + d, other) == ino_of(a + c, other) by {
        lemma_ino_joined(a, c, other);
        lemma_ino_joined(b, d, other);
        assert(ino_of(b, other) == ino_of(a, other));
        assert(ino_of(d, other) == ino_of(c, other));
    }
}

/// A short list answers with its records.
proof fn lemma_short_list(rs: Seq<Record>, name: Seq<char>)
    requires
        1 <= rs.len() <= 2,
    ensures
        ino_of(rs, name) == if rs[0].ino != 0 && rs[0].name == name {
            rs[0].ino
        } else if rs.len() == 2 && rs[1].ino != 0 && rs[1].name == name {
            rs[1].ino
        } else {
            0
        },
{
    reveal_with_fuel(record_named, 3);
}

/// Records that hold what `mid` does not: the one that was there, if it was
/// live, and the new one.
pub open spec fn brings(mid: Seq<Record>, r: Record, name: Seq<char>, target: u32) -> bool {
    &&& alike_but(seq![r], mid, name)
    &&& exists|x: int|
        {
            &&& 0 <= x < mid.len()
            &&& (#[trigger] mid[x]).ino == target
            &&& mid[x].name == name
            &&& forall|y: int| 0 <= y < x ==> (#[trigger] mid[y]).ino == r.ino && mid[y].name == r.name
        }
}

/// The block `c` is `b` with the records `mid` in place of the one at `p`.
pub open spec fn swapped(b: Seq<u8>, c: Seq<u8>, p: int, base: int, mid: Seq<Record>) -> bool {
    let r = record_at(b, p, base);
    &&& c.len() == 1024
    &&& forall|x: int| 0 <= x < 1024 && !(p <= x < p + r.rec_len) ==> #[trigger] c[x] == b[x]
    &&& block_records(c, p, base) == (match block_records(c, p + r.rec_len, base) {
        Ok(rest) => Ok::<Seq<Record>, FsError>(mid + rest),
        Err(e) => Err(e),
    })
}

/// Two records after each other.
proof fn lemma_two_records(c: Seq<u8>, p: int, q: int, end: int, base: int)
    requires
        0 <= p,
        p + 8 <= 1024,
        q + 8 <= 1024,
        record_ok(c, p),
        record_ok(c, q),
        q == p + le16(c, p + 4),
        end == q + le16(c, q + 4),
    ensures
        block_records(c, p, base) == (match block_records(c, end, base) {
            Ok(rest) => Ok::<Seq<Record>, FsError>(seq![record_at(c, p, base), record_at(c, q, base)] + rest),
            Err(e) => Err(e),
        }),
{
    let x = record_at(c, p, base);
    let y = record_at(c, q, base);
    match block_records(c, end, base) {
        Ok(t) => {
            assert(block_records(c, q, base) == Ok::<Seq<Record>, FsError>(seq![y] + t));
            assert(seq![x] + (seq![y] + t) =~= seq![x, y] + t);
        },
        Err(_) => {},
    }
}

/// A record added in the room of a free one.
proof fn lemma_added_free(b: Seq<u8>, p: int, base: int, name: Seq<char>, target: u32) -> (mid: Seq<Record>)
    requires
        b.len() == 1024,
        0 <= p,
        p + 8 <= 1024,
        base % 1024 == 0,
        record_ok(b, p),
        target != 0,
        vstd::utf8::encode_utf8(name).len() <= 255,
        record_at(b, p, base).ino == 0,
        record_at(b, p, base).rec_len >= span_of(vstd::utf8::encode_utf8(name).len() as int),
    ensures
        swapped(
            b,
            record_added(b, record_at(b, p, base), vstd::utf8::encode_utf8(name), target),
            p,
            base,
            mid,
        ),
        brings(mid, record_at(b, p, base), name, target),
{
    let bytes = vstd::utf8::encode_utf8(name);
    let n = bytes.len() as int;
    let need = span_of(n);
    let r = record_at(b, p, base);
    let rec = r.rec_len;
    assert(r.offset % 1024 == p);
    assert(need >= 8 + n && need <= 8 + n + 3);
    lemma_shown(name);
    let c = record_added(b, r, bytes, target);
    let rest = rec - need;
    if rest >= 8 {
        let d = record_put(b, p, target, bytes, need);
        lemma_record_put(b, p, target, bytes, need);
        lemma_record_put(d, p + need, 0, Seq::empty(), rest);
        assert(c[p] == d[p] && c[p + 1] == d[p + 1] && c[p + 2] == d[p + 2] && c[p + 3] == d[p + 3]);
        assert(c[p + 4] == d[p + 4] && c[p + 5] == d[p + 5] && c[p + 6] == d[p + 6]);
        assert(c.subrange(p + 8, p + 8 + n) =~= d.subrange(p + 8, p + 8 + n));
        lemma_two_records(c, p, p + need, p + rec, base);
        let mid = seq![record_at(c, p, base), record_at(c, p + need, base)];
        assert(mid[0].ino == target && mid[0].name == name);
        assert(mid[1].ino == 0);
        assert forall|other: Seq<char>| other != name implies #[trigger] ino_of(mid, other) == ino_of(
            seq![r],
            other,
        ) by {
            lemma_short_list(mid, other);
            lemma_short_list(seq![r], other);
        }
        mid
    } else {
        lemma_record_put(b, p, target, bytes, rec);
        let mid = seq![record_at(c, p, base)];
        assert(mid[0].ino == target && mid[0].name == name);
        assert forall|other: Seq<char>| other != name implies #[trigger] ino_of(mid, other) == ino_of(
            seq![r],
            other,
        ) by {
            lemma_short_list(mid, other);
            lemma_short_list(seq![r], other);
        }
        mid
    }
}

/// A record added in the room that a live one leaves.
proof fn lemma_added_live(b: Seq<u8>, p: int, base: int, name: Seq<char>, target: u32) -> (mid: Seq<Record>)
    requires
        b.len() == 1024,
        0 <= p,
        p + 8 <= 1024,
        base % 1024 == 0,
        record_ok(b, p),
        name_ok(b, p),
        target != 0,
        vstd::utf8::encode_utf8(name).len() <= 255,
        record_at(b, p, base).ino != 0,
        own_span(record_at(b, p, base)) <= record_at(b, p, base).rec_len,
        record_at(b, p, base).rec_len - own_span(record_at(b, p, base)) >= span_of(
            vstd::utf8::encode_utf8(name).len() as int,
        ),
    ensures
        swapped(
            b,
            record_added(b, record_at(b, p, base), vstd::utf8::encode_utf8(name), target),
            p,
            base,
            mid,
        ),
        brings(mid, record_at(b, p, base), name, target),
{
    let bytes = vstd::utf8::encode_utf8(name);
    let n = bytes.len() as int;
    let need = span_of(n);
    let r = record_at(b, p, base);
    let rec = r.rec_len;
    assert(r.offset % 1024 == p);
    assert(need >= 8 + n && need <= 8 + n + 3);
    lemma_shown(name);
    let c = record_added(b, r, bytes, target);
    let own = own_span(r);
    vstd::utf8::decode_utf8_encode_utf8(raw_name(b, p));
    assert(vstd::utf8::encode_utf8(r.name) == raw_name(b, p));
    assert(own >= 8 + b[p + 6]);
    let d = splice(b, p + 4, le16_bytes(own));
    law_le16_roundtrip(b, p + 4, own as u16);
    lemma_record_put(d, p + own, target, bytes, rec - own);
    assert(c == record_put(d, p + own, target, bytes, rec - own));
    assert(c[p] == b[p] && c[p + 1] == b[p + 1] && c[p + 2] == b[p + 2] && c[p + 3] == b[p + 3]);
    assert(c[p + 4] == d[p + 4] && c[p + 5] == d[p + 5] && c[p + 6] == b[p + 6]);
    assert(raw_name(c, p) =~= raw_name(b, p));
    lemma_two_records(c, p, p + own, p + rec, base);
    let mid = seq![record_at(c, p, base), record_at(c, p + own, base)];
    assert(mid[0].ino == r.ino && mid[0].name == r.name);
    assert(mid[1].ino == target && mid[1].name == name);
    assert forall|other: Seq<char>| other != name implies #[trigger] ino_of(mid, other) == ino_of(seq![r], other) by {
        lemma_short_list(mid, other);
        lemma_short_list(seq![r], other);
    }
    mid
}

// ---------------------------------------------------------------------------
// Names
// ---------------------------------------------------------------------------

/// The first record of a name in two lists after each other.
proof fn lemma_named_joined(a: Seq<Record>, b: Seq<Record>, name: Seq<char>, k: int)
    requires
        0 <= k <= a.len(),
    ensures
        record_named(a + b, name, k) == (match record_named(a, name, k) {
            Some(r) => Some(r),
            None => record_named(b, name, 0),
        }),
    decreases a.len() - k,
{
    if k < a.len() {
        assert((a + b)[k] == a[k]);
        lemma_named_joined(a, b, name, k + 1);
    } else {
        lemma_named_shift(a, b, name, 0);
    }
}

proof fn lemma_named_shift(a: Seq<Record>, b: Seq<Record>, name: Seq<char>, k: int)
    requires
        0 <= k <= b.len(),
    ensures
        record_named(a + b, name, a.len() + k) == record_named(b, name, k),
    decreases b.len() - k,
{
    if k < b.len() {
        assert((a + b)[a.len() + k] == b[k]);
        lemma_named_shift(a, b, name, k + 1);
    }
}

/// No record has the name.
proof fn lemma_none_named(rs: Seq<Record>, name: Seq<char>, k: int, j: int)
    requires
        0 <= k <= j < rs.len(),
        record_named(rs, name, k) is None,
    ensures
        !(rs[j].ino != 0 && rs[j].name == name),
    decreases j - k,
{
    if k < j {
        lemma_none_named(rs, name, k + 1, j);
    }
}

proof fn lemma_named_at(rs: Seq<Record>, name: Seq<char>, k: int, x: int)
    requires
        0 <= k <= x < rs.len(),
        rs[x].ino != 0 && rs[x].name == name,
        forall|y: int| k <= y < x ==> !((#[trigger] rs[y]).ino != 0 && rs[y].name == name),
    ensures
        record_named(rs, name, k) == Some(rs[x]),
    decreases x - k,
{
    if k < x {
        assert(!(rs[k].ino != 0 && rs[k].name == name));
        lemma_named_at(rs, name, k + 1, x);
    }
}

/// The list with the new record finds it by its name.
proof fn lemma_named_new(rs: Seq<Record>, k: int, mid: Seq<Record>, name: Seq<char>, target: u32)
    requires
        0 <= k < rs.len(),
        record_named(rs, name, 0) is None,
        target != 0,
        brings(mid, rs[k], name, target),
    ensures
        record_named(rs.take(k) + mid + rs.skip(k + 1), name, 0) is Some,
        (record_named(rs.take(k) + mid + rs.skip(k + 1), name, 0)->0).ino == target,
        alike_but(rs, rs.take(k) + mid + rs.skip(k + 1), name),
{
    assert(rs =~= rs.take(k) + seq![rs[k]] + rs.skip(k + 1));
    lemma_alike_joined(rs.take(k), rs.take(k), seq![rs[k]], mid, name);
    lemma_alike_joined(rs.take(k) + seq![rs[k]], rs.take(k) + mid, rs.skip(k + 1), rs.skip(k + 1), name);
    let x = choose|x: int|
        {
            &&& 0 <= x < mid.len()
            &&& (#[trigger] mid[x]).ino == target
            &&& mid[x].name == name
            &&& forall|y: int| 0 <= y < x ==> (#[trigger] mid[y]).ino == rs[k].ino && mid[y].name == rs[k].name
        };
    let all = rs.take(k) + mid + rs.skip(k + 1);
    assert(all[k + x] == mid[x]);
    assert forall|y: int| 0 <= y < k + x implies !((#[trigger] all[y]).ino != 0 && all[y].name == name) by {
        if y < k {
            assert(all[y] == rs[y]);
            lemma_none_named(rs, name, 0, y);
        } else {
            assert(all[y] == mid[y - k]);
            lemma_none_named(rs, name, 0, k);
        }
    }
    lemma_named_at(all, name, 0, k + x);
}

/// A record of a directory is one of the block that its place says.
proof fn lemma_record_home(v: Vol, dir: InodeView, n: int, k: int) -> (kk: int)
    requires
        good(v.fs),
        held(v),
        tree(v, dir),
        records(v, dir, n) is Ok,
        0 <= k < records(v, dir, n)->Ok_0.len(),
    ensures
        ({
            let r = records(v, dir, n)->Ok_0[k];
            let m = r.offset / 1024;
            let b = at(v, dir, place_of(m));
            let bs = block_records(blk(v, b as int), 0, 1024 * m);
            &&& 0 <= m < n
            &&& m < 65804
            &&& b != 0
            &&& bs is Ok
            &&& 0 <= kk < bs->Ok_0.len()
            &&& bs->Ok_0[kk] == r
        }),
    decreases n,
{
    let front = records(v, dir, n - 1)->Ok_0;
    if k < front.len() {
        let kk = lemma_record_home(v, dir, n - 1, k);
        if mapped(v, dir, n - 1)->Ok_0 != 0 {
            assert(records(v, dir, n)->Ok_0[k] == front[k]);
        }
        kk
    } else {
        let m = n - 1;
        assert(m < 65804);
        lemma_mapped(v, dir, m);
        lemma_places_apart(m, m);
        let b = at(v, dir, place_of(m));
        assert(inside(v.fs, b as int));
        lemma_block(v, b as int);
        let kk = k - front.len();
        lemma_record_places(blk(v, b as int), 0, 1024 * m, kk);
        let bs = block_records(blk(v, b as int), 0, 1024 * m)->Ok_0;
        assert(records(v, dir, n)->Ok_0 == front + bs);
        assert(records(v, dir, n)->Ok_0[k] == bs[kk]);
        kk
    }
}

/// Where a record of a directory stands.
pub(crate) proof fn lemma_record_stands(v: Vol, dir: InodeView, k: int) -> (kk: int)
    requires
        good(v.fs),
        held(v),
        tree(v, dir),
        dir_records(v, dir) is Ok,
        0 <= k < dir_records(v, dir)->Ok_0.len(),
    ensures
        ({
            let r = dir_records(v, dir)->Ok_0[k];
            let m = r.offset / 1024;
            let p = r.offset % 1024;
            let phys = at(v, dir, place_of(m));
            let b = blk(v, phys as int);
            let bs = block_records(b, 0, 1024 * m);
            &&& 0 <= m < 65804
            &&& m < dir.size as int / 1024
            &&& phys != 0
            &&& inside(v.fs, phys as int)
            &&& b.len() == 1024
            &&& mapped(v, dir, m) == Ok::<u32, FsError>(phys)
            &&& block(v, phys as int) == Ok::<Seq<u8>, FsError>(b)
            &&& bs is Ok
            &&& 0 <= kk < bs->Ok_0.len()
            &&& bs->Ok_0[kk] == r
            &&& p + 8 <= 1024
            &&& record_ok(b, p)
            &&& r == record_at(b, p, 1024 * m)
        }),
{
    let kk = lemma_record_home(v, dir, dir.size as int / 1024, k);
    let r = dir_records(v, dir)->Ok_0[k];
    let m = r.offset / 1024;
    lemma_mapped(v, dir, m);
    lemma_places_apart(m, m);
    let phys = at(v, dir, place_of(m));
    assert(inside(v.fs, phys as int));
    lemma_block(v, phys as int);
    lemma_record_places(blk(v, phys as int), 0, 1024 * m, kk);
    kk
}

/// Where a directory has no record of a name, neither has its front nor its
/// last block.
proof fn lemma_none_front(v: Vol, dir: InodeView, name: Seq<char>, n: int)
    requires
        n >= 1,
        records(v, dir, n) is Ok,
        record_named(records(v, dir, n)->Ok_0, name, 0) is None,
    ensures
        records(v, dir, n - 1) is Ok,
        record_named(records(v, dir, n - 1)->Ok_0, name, 0) is None,
        ({
            let b = mapped(v, dir, n - 1)->Ok_0;
            let bs = block_records(block(v, b as int)->Ok_0, 0, 1024 * (n - 1));
            b != 0 ==> bs is Ok && record_named(bs->Ok_0, name, 0) is None
        }),
{
    let front = records(v, dir, n - 1)->Ok_0;
    let b = mapped(v, dir, n - 1)->Ok_0;
    if b != 0 {
        let bs = block_records(block(v, b as int)->Ok_0, 0, 1024 * (n - 1))->Ok_0;
        lemma_named_joined(front, bs, name, 0);
    }
}

proof fn lemma_none_upto(v: Vol, dir: InodeView, name: Seq<char>, n: int, m: int)
    requires
        0 <= m <= n,
        records(v, dir, n) is Ok,
        record_named(records(v, dir, n)->Ok_0, name, 0) is None,
    ensures
        records(v, dir, m) is Ok,
        record_named(records(v, dir, m)->Ok_0, name, 0) is None,
    decreases n - m,
{
    if m < n {
        lemma_none_front(v, dir, name, n);
        lemma_none_upto(v, dir, name, n - 1, m);
    }
}

/// Where a directory has no record of a name, none of its blocks has.
proof fn lemma_none_in_block(v: Vol, dir: InodeView, name: Seq<char>, m: int)
    requires
        good(v.fs),
        held(v),
        tree(v, dir),
        dir_records(v, dir) is Ok,
        record_named(dir_records(v, dir)->Ok_0, name, 0) is None,
        0 <= m < dir.size as int / 1024,
        m < 65804,
        at(v, dir, place_of(m)) != 0,
    ensures
        ({
            let bs = block_records(blk(v, at(v, dir, place_of(m)) as int), 0, 1024 * m);
            bs is Ok && record_named(bs->Ok_0, name, 0) is None
        }),
{
    lemma_none_upto(v, dir, name, dir.size as int / 1024, m + 1);
    lemma_none_front(v, dir, name, m + 1);
    lemma_mapped(v, dir, m);
    lemma_places_apart(m, m);
    assert(inside(v.fs, at(v, dir, place_of(m)) as int));
    lemma_block(v, at(v, dir, place_of(m)) as int);
}

/// The name finds `target` in a list of records.
pub open spec fn names_it(r: Result<Seq<Record>, FsError>, name: Seq<char>, target: u32) -> bool {
    r is Ok && record_named(r->Ok_0, name, 0) is Some && (record_named(r->Ok_0, name, 0)->0).ino == target
}

/// The records of a directory whose block `m` got a new one.
proof fn lemma_records_with(
    v: Vol,
    w: Vol,
    dir: InodeView,
    name: Seq<char>,
    target: u32,
    m: int,
    n: int,
    total: int,
)
    requires
        good(v.fs),
        held(w),
        held(v),
        w.fs == v.fs,
        tree(v, dir),
        tree(w, dir),
        0 <= m < total,
        m < 65804,
        0 <= n <= total,
        at(v, dir, place_of(m)) != 0,
        forall|q: int| 0 <= q < places() ==> #[trigger] at(w, dir, q) == at(v, dir, q),
        forall|x: int|
            inside(v.fs, x) && x != at(v, dir, place_of(m)) ==> #[trigger] blk(w, x) == blk(v, x) || counted(v.fs, x),
        names_it(block_records(blk(w, at(v, dir, place_of(m)) as int), 0, 1024 * m), name, target),
        alike_but(
            block_records(blk(v, at(v, dir, place_of(m)) as int), 0, 1024 * m)->Ok_0,
            block_records(blk(w, at(v, dir, place_of(m)) as int), 0, 1024 * m)->Ok_0,
            name,
        ),
        records(v, dir, total) is Ok,
        record_named(records(v, dir, total)->Ok_0, name, 0) is None,
    ensures
        n <= m ==> records(w, dir, n) == records(v, dir, n),
        n > m ==> names_it(records(w, dir, n), name, target),
        alike_but(records(v, dir, n)->Ok_0, records(w, dir, n)->Ok_0, name),
    decreases n,
{
    if n > 0 {
        lemma_records_with(v, w, dir, name, target, m, n - 1, total);
        lemma_none_upto(v, dir, name, total, n);
        lemma_none_front(v, dir, name, n);
        let k = n - 1;
        assert(k < 65804);
        lemma_mapped(v, dir, k);
        lemma_mapped(w, dir, k);
        lemma_places_apart(k, m);
        assert(at(w, dir, place_of(k)) == at(v, dir, place_of(k)));
        let b = at(v, dir, place_of(k));
        let front = records(w, dir, n - 1)->Ok_0;
        if b != 0 {
            assert(inside(v.fs, b as int) && !own(v.fs, b as int));
            lemma_block(v, b as int);
            lemma_block(w, b as int);
            if k != m {
                lemma_places_apart(m, k);
                assert(b != at(v, dir, place_of(m))) by {
                    if place_of(k) < place_of(m) {
                        assert(at(v, dir, place_of(k)) != at(v, dir, place_of(m)));
                    } else {
                        assert(at(v, dir, place_of(m)) != at(v, dir, place_of(k)));
                    }
                }
                assert(blk(w, b as int) == blk(v, b as int));
            }
            let bs = block_records(blk(w, b as int), 0, 1024 * k)->Ok_0;
            lemma_named_joined(front, bs, name, 0);
            let was = block_records(blk(v, b as int), 0, 1024 * k)->Ok_0;
            lemma_alike_joined(records(v, dir, n - 1)->Ok_0, front, was, bs, name);
        }
    }
}

/// The first record with room.
pub(crate) proof fn lemma_roomy(rs: Seq<Record>, need: int, k: int)
    requires
        0 <= k,
        roomy(rs, need, k) is Ok,
        roomy(rs, need, k)->Ok_0 is Some,
    ensures
        ({
            let j = roomy(rs, need, k)->Ok_0->0;
            &&& k <= j < rs.len()
            &&& if rs[j].ino == 0 {
                rs[j].rec_len >= need
            } else {
                own_span(rs[j]) <= rs[j].rec_len && rs[j].rec_len - own_span(rs[j]) >= need
            }
        }),
    decreases rs.len() - k,
{
    if k < rs.len() && (if rs[k].ino == 0 { rs[k].rec_len } else { rs[k].rec_len - own_span(rs[k]) }) < need {
        lemma_roomy(rs, need, k + 1);
    }
}

/// The names of a directory are UTF-8.
pub open spec fn utf8_names(v: Vol, dir: InodeView) -> bool {
    dir_records(v, dir) matches Ok(rs) ==> forall|k: int|
        0 <= k < rs.len() ==> name_ok(
            blk(v, at(v, dir, place_of((#[trigger] rs[k]).offset / 1024)) as int),
            rs[k].offset % 1024,
        )
}

/// A block of records in which a new name takes the room of record `k`.
proof fn lemma_room_taken(b: Seq<u8>, base: int, k: int, name: Seq<char>, target: u32)
    requires
        b.len() == 1024,
        base % 1024 == 0,
        target != 0,
        vstd::utf8::encode_utf8(name).len() <= 255,
        block_records(b, 0, base) is Ok,
        record_named(block_records(b, 0, base)->Ok_0, name, 0) is None,
        0 <= k < block_records(b, 0, base)->Ok_0.len(),
        ({
            let r = block_records(b, 0, base)->Ok_0[k];
            let need = span_of(vstd::utf8::encode_utf8(name).len() as int);
            &&& name_ok(b, r.offset - base)
            &&& if r.ino == 0 {
                r.rec_len >= need
            } else {
                own_span(r) <= r.rec_len && r.rec_len - own_span(r) >= need
            }
        }),
    ensures
        ({
            let r = block_records(b, 0, base)->Ok_0[k];
            let c = record_added(b, r, vstd::utf8::encode_utf8(name), target);
            &&& c.len() == 1024
            &&& names_it(block_records(c, 0, base), name, target)
            &&& alike_but(block_records(b, 0, base)->Ok_0, block_records(c, 0, base)->Ok_0, name)
        }),
{
    let bs = block_records(b, 0, base)->Ok_0;
    lemma_record_places(b, 0, base, k);
    let p = bs[k].offset - base;
    let c = record_added(b, bs[k], vstd::utf8::encode_utf8(name), target);
    let mid = if bs[k].ino == 0 {
        lemma_added_free(b, p, base, name, target)
    } else {
        lemma_added_live(b, p, base, name, target)
    };
    lemma_record_replaced(b, c, 0, base, k, mid);
    lemma_named_new(bs, k, mid, name, target);
}

/// A directory whose block `m` now has the name.
proof fn lemma_name_in_block(v: Vol, dir: InodeView, m: int, c: Seq<u8>, name: Seq<char>, target: u32)
    requires
        sound(v),
        tree(v, dir),
        dir_records(v, dir) is Ok,
        record_named(dir_records(v, dir)->Ok_0, name, 0) is None,
        0 <= m < dir.size as int / 1024,
        m < 65804,
        at(v, dir, place_of(m)) != 0,
        c.len() == 1024,
        names_it(block_records(c, 0, 1024 * m), name, target),
        alike_but(
            block_records(blk(v, at(v, dir, place_of(m)) as int), 0, 1024 * m)->Ok_0,
            block_records(c, 0, 1024 * m)->Ok_0,
            name,
        ),
    ensures
        ({
            let o = with_block(v, at(v, dir, place_of(m)) as int, c);
            &&& o.r is Ok
            &&& writes(v, dir, o.vol, dir)
            &&& names_it(dir_records(o.vol, dir), name, target)
            &&& alike_but(dir_records(v, dir)->Ok_0, dir_records(o.vol, dir)->Ok_0, name)
        }),
{
    let total = dir.size as int / 1024;
    let phys = at(v, dir, place_of(m));
    lemma_places_apart(m, m);
    assert(inside(v.fs, phys as int));
    lemma_with_block(v, phys as int, c);
    let w = with_block(v, phys as int, c).vol;
    lemma_data_block(v, dir, w, m, c);
    assert forall|q: int| 0 <= q < places() implies #[trigger] at(w, dir, q) == at(v, dir, q) by {
        lemma_at_data(v, dir, w, m, c, q);
    }
    lemma_records_with(v, w, dir, name, target, m, total, total);
}

/// A directory in which a new name takes the room of record `k`.
#[verifier::spinoff_prover]
proof fn lemma_name_into(v: Vol, dir: InodeView, k: int, name: Seq<char>, target: u32)
    requires
        sound(v),
        tree(v, dir),
        target != 0,
        vstd::utf8::encode_utf8(name).len() <= 255,
        dir_records(v, dir) is Ok,
        record_named(dir_records(v, dir)->Ok_0, name, 0) is None,
        0 <= k < dir_records(v, dir)->Ok_0.len(),
        ({
            let r = dir_records(v, dir)->Ok_0[k];
            let need = span_of(vstd::utf8::encode_utf8(name).len() as int);
            &&& name_ok(blk(v, at(v, dir, place_of(r.offset / 1024)) as int), r.offset % 1024)
            &&& if r.ino == 0 {
                r.rec_len >= need
            } else {
                own_span(r) <= r.rec_len && r.rec_len - own_span(r) >= need
            }
        }),
    ensures
        ({
            let r = dir_records(v, dir)->Ok_0[k];
            let phys = at(v, dir, place_of(r.offset / 1024));
            let b = blk(v, phys as int);
            let o = with_block(v, phys as int, record_added(b, r, vstd::utf8::encode_utf8(name), target));
            &&& phys != 0
            &&& mapped(v, dir, r.offset / 1024) == Ok::<u32, FsError>(phys)
            &&& block(v, phys as int) == Ok::<Seq<u8>, FsError>(b)
            &&& o.r is Ok
            &&& writes(v, dir, o.vol, dir)
            &&& names_it(dir_records(o.vol, dir), name, target)
            &&& alike_but(dir_records(v, dir)->Ok_0, dir_records(o.vol, dir)->Ok_0, name)
        }),
{
    let kk = lemma_record_stands(v, dir, k);
    let r = dir_records(v, dir)->Ok_0[k];
    let m = r.offset / 1024;
    let b = blk(v, at(v, dir, place_of(m)) as int);
    assert(r.offset - 1024 * m == r.offset % 1024);
    lemma_none_in_block(v, dir, name, m);
    lemma_room_taken(b, 1024 * m, kk, name, target);
    lemma_name_in_block(v, dir, m, record_added(b, r, vstd::utf8::encode_utf8(name), target), name, target);
}

/// A name put into the room of a record of the directory.
proof fn lemma_name_inside(v: Vol, dir: InodeView, name: Seq<char>, target: u32)
    requires
        sound(v),
        tree(v, dir),
        utf8_names(v, dir),
        target != 0,
        vstd::utf8::encode_utf8(name).len() <= 255,
        dir_records(v, dir) is Ok,
        record_named(dir_records(v, dir)->Ok_0, name, 0) is None,
        ({
            let rs = dir_records(v, dir)->Ok_0;
            let t = roomy(rs, span_of(vstd::utf8::encode_utf8(name).len() as int), 0);
            t is Ok && t->Ok_0 is Some
        }),
        name_added(v, dir, vstd::utf8::encode_utf8(name), target).r is Ok,
    ensures
        ({
            let w = name_added(v, dir, vstd::utf8::encode_utf8(name), target).vol;
            &&& writes(v, dir, w, dir)
            &&& names_it(dir_records(w, dir), name, target)
            &&& alike_but(dir_records(v, dir)->Ok_0, dir_records(w, dir)->Ok_0, name)
        }),
{
    let rs = dir_records(v, dir)->Ok_0;
    let need = span_of(vstd::utf8::encode_utf8(name).len() as int);
    lemma_roomy(rs, need, 0);
    let k = roomy(rs, need, 0)->Ok_0->0;
    assert(name_ok(blk(v, at(v, dir, place_of(rs[k].offset / 1024)) as int), rs[k].offset % 1024));
    lemma_name_into(v, dir, k, name, target);
}

/// A directory whose blocks hold the same bytes has the same records.
proof fn lemma_records_bytes(v: Vol, w: Vol, a: InodeView, b: InodeView, n: int)
    requires
        good(v.fs),
        held(v),
        good(w.fs),
        held(w),
        like(v.fs, w.fs),
        tree(v, a),
        tree(w, b),
        0 <= n <= 65804,
        forall|k: int| 0 <= k < n ==> #[trigger] at(w, b, place_of(k)) == at(v, a, place_of(k)),
        forall|k: int| 0 <= k < 1024 * n ==> #[trigger] byte_of(w, b, k) == byte_of(v, a, k),
    ensures
        records(w, b, n) == records(v, a, n),
    decreases n,
{
    if n > 0 {
        lemma_records_bytes(v, w, a, b, n - 1);
        let k = n - 1;
        lemma_mapped(v, a, k);
        lemma_mapped(w, b, k);
        lemma_places_apart(k, k);
        assert(at(w, b, place_of(k)) == at(v, a, place_of(k)));
        let x = at(v, a, place_of(k));
        if x != 0 {
            assert(inside(v.fs, x as int));
            assert(inside(w.fs, x as int));
            lemma_block(v, x as int);
            lemma_block(w, x as int);
            assert forall|j: int| 0 <= j < 1024 implies blk(w, x as int)[j] == blk(v, x as int)[j] by {
                let y = 1024 * k + j;
                assert(y / 1024 == k && y % 1024 == j);
                assert(byte_of(w, b, y) == byte_of(v, a, y));
            }
            assert(blk(w, x as int) =~= blk(v, x as int));
        }
    }
}

/// The first record of a fresh directory block.
proof fn lemma_fresh_block(name: Seq<char>, target: u32, base: int)
    requires
        target != 0,
        vstd::utf8::encode_utf8(name).len() <= 255,
    ensures
        record_put(blank(), 0, target, vstd::utf8::encode_utf8(name), 1024).len() == 1024,
        names_it(
            block_records(record_put(blank(), 0, target, vstd::utf8::encode_utf8(name), 1024), 0, base),
            name,
            target,
        ),
        alike_but(
            Seq::empty(),
            block_records(record_put(blank(), 0, target, vstd::utf8::encode_utf8(name), 1024), 0, base)->Ok_0,
            name,
        ),
{
    let bytes = vstd::utf8::encode_utf8(name);
    lemma_record_put(blank(), 0, target, bytes, 1024);
    lemma_shown(name);
    let c = record_put(blank(), 0, target, bytes, 1024);
    let x = record_at(c, 0, base);
    assert(record_ok(c, 0));
    assert(block_records(c, 1024, base) == Ok::<Seq<Record>, FsError>(Seq::empty()));
    assert(seq![x] + Seq::<Record>::empty() =~= seq![x]);
    assert(block_records(c, 0, base) == Ok::<Seq<Record>, FsError>(seq![x]));
    assert(seq![x][0] == x);
    lemma_named_at(seq![x], name, 0, 0);
    assert forall|other: Seq<char>| other != name implies #[trigger] ino_of(seq![x], other) == ino_of(
        Seq::empty(),
        other,
    ) by {
        lemma_short_list(seq![x], other);
    }
}

/// The inode of a directory with one block more.
pub open spec fn longer(d: InodeView) -> InodeView {
    InodeView { size: ((d.size + 1024) % 0x1_0000_0000) as u32, ..d }
}

/// Trees beside a directory that is made longer.
proof fn lemma_longer_beside(
    v: Vol,
    dir: InodeView,
    x: Vol,
    d: InodeView,
    w1: Vol,
    t: int,
    td: Seq<u8>,
    w: Vol,
    other: InodeView,
)
    requires
        sound(v),
        tree(v, dir),
        writes(v, dir, x, d),
        own(x.fs, t),
        inside(x.fs, t),
        t != x.fs.block_bitmap,
        block_set(x, w1, t, td),
        tree(w1, longer(d)),
        writes(w1, longer(d), w, longer(d)),
        tree(v, other),
        apart(v, other, dir),
    ensures
        tree(w, other),
        tree_same(v, other, w),
{
    lemma_beside(v, dir, x, d, other);
    lemma_beside_own(x, w1, t, td, other);
    lemma_beside_own(x, w1, t, td, d);
    assert forall|q: int| 0 <= q < places() implies #[trigger] at(w1, other, q) == at(v, other, q) by {
        lemma_at_kept(v, other, x, q);
    }
    assert(apart(w1, other, longer(d))) by {
        assert forall|p: int, q: int|
            0 <= p < places() && 0 <= q < places() && #[trigger] at(w1, other, p) != 0 implies at(w1, other, p)
            != #[trigger] at(w1, longer(d), q) by {
            lemma_at_fields(w1, d, longer(d), q);
            assert(at(w1, d, q) == at(x, d, q));
            assert(at(w1, other, p) == at(v, other, p));
            assert(at(v, other, p) != 0);
            assert(in_use(v, at(v, other, p) as int));
            assert(at(x, d, q) == at(v, dir, q) || !in_use(v, at(x, d, q) as int));
            assert(at(v, other, p) != at(v, dir, q));
        }
    }
    lemma_beside(w1, longer(d), w, longer(d), other);
    assert forall|p: int| 0 <= p < places() && #[trigger] at(v, other, p) != 0 implies blk(w, at(v, other, p) as int)
        == blk(v, at(v, other, p) as int) by {
        let b = at(v, other, p) as int;
        assert(inside(v.fs, b) && !own(v.fs, b));
        assert(blk(x, b) == blk(v, b));
        assert(blk(w1, b) == blk(x, b));
        assert(at(w1, other, p) == at(v, other, p));
        assert(blk(w, b) == blk(w1, b));
    }
}

/// A directory that was made longer: `x` and `d` are the volume and the inode
/// with the block, `w1` has the inode saved and `w` the record written.
pub open spec fn lengthens(
    v: Vol,
    dir: InodeView,
    x: Vol,
    d: InodeView,
    phys: u32,
    w1: Vol,
    w: Vol,
    put: Seq<u8>,
) -> bool {
    let n = dir.size as int / 1024;
    &&& ensured(v, dir, n) == (Res { vol: x, r: Ok::<(InodeView, u32), FsError>((d, phys)) })
    &&& w1 == with_inode(x, longer(d)).vol
    &&& w == with_block(w1, phys as int, put).vol
}

/// The steps of making a directory longer.
proof fn lemma_lengthens(v: Vol, dir: InodeView, x: Vol, d: InodeView, phys: u32, w1: Vol, w: Vol, put: Seq<u8>) -> (td:
    Seq<u8>)
    requires
        sound(v),
        tree(v, dir),
        numbered(v.fs, dir.ino),
        put.len() == 1024,
        lengthens(v, dir, x, d, phys, w1, w, put),
    ensures
        ({
            let n = dir.size as int / 1024;
            let t = table_block(x.fs, d.ino);
            &&& n < 65804
            &&& secures(v, dir, n, x, d, phys)
            &&& writes(v, dir, x, d)
            &&& own(x.fs, t) && inside(x.fs, t) && t != x.fs.block_bitmap
            &&& block_set(x, w1, t, td)
            &&& sound(w1)
            &&& tree(w1, longer(d))
            &&& at(w1, longer(d), place_of(n)) == phys
            &&& block_set(w1, w, phys as int, put)
            &&& writes(w1, longer(d), w, longer(d))
        }),
{
    let n = dir.size as int / 1024;
    lemma_ensured(v, dir, n);
    lemma_secured_bytes(v, dir, n, x, d, phys);
    let d2 = longer(d);
    lemma_with_inode(x, d2);
    let t = table_block(x.fs, d2.ino);
    let td = choose|td: Seq<u8>| block_set(x, w1, t, td);
    lemma_beside_own(x, w1, t, td, d);
    lemma_tree_fields(w1, d, d2);
    lemma_places_apart(n, n);
    lemma_at_fields(w1, d, d2, place_of(n));
    assert(at(w1, d, place_of(n)) == at(x, d, place_of(n)));
    assert(at(w1, d2, place_of(n)) == phys);
    assert(inside(w1.fs, phys as int));
    lemma_with_block(w1, phys as int, put);
    lemma_data_block(w1, d2, w, n, put);
    td
}

/// The name finds the new record of a directory that was made longer.
#[verifier::rlimit(60)]
#[verifier::spinoff_prover]
proof fn lemma_longer_names(
    v: Vol,
    dir: InodeView,
    x: Vol,
    d: InodeView,
    phys: u32,
    w1: Vol,
    w: Vol,
    name: Seq<char>,
    target: u32,
)
    requires
        sound(v),
        tree(v, dir),
        numbered(v.fs, dir.ino),
        target != 0,
        vstd::utf8::encode_utf8(name).len() <= 255,
        lengthens(
            v,
            dir,
            x,
            d,
            phys,
            w1,
            w,
            record_put(blank(), 0, target, vstd::utf8::encode_utf8(name), 1024),
        ),
        dir_records(v, dir) is Ok,
        record_named(dir_records(v, dir)->Ok_0, name, 0) is None,
    ensures
        names_it(dir_records(w, longer(d)), name, target),
        alike_but(dir_records(v, dir)->Ok_0, dir_records(w, longer(d))->Ok_0, name),
{
    let n = dir.size as int / 1024;
    let put = record_put(blank(), 0, target, vstd::utf8::encode_utf8(name), 1024);
    lemma_fresh_block(name, target, 1024 * n);
    let td = lemma_lengthens(v, dir, x, d, phys, w1, w, put);
    let t = table_block(x.fs, d.ino);
    let d2 = longer(d);
    lemma_longer_records(v, dir, n, x, d, phys, w1, t, td, w, put);
    lemma_places_apart(n, n);
    lemma_mapped(w, d2, n);
    lemma_at_data(w1, d2, w, n, put, place_of(n));
    assert(inside(w.fs, phys as int));
    lemma_block(w, phys as int);
    let front = records(w, d2, n)->Ok_0;
    let bs = block_records(put, 0, 1024 * n)->Ok_0;
    lemma_named_joined(front, bs, name, 0);
    lemma_alike_joined(front, front, Seq::empty(), bs, name);
    assert(front + Seq::<Record>::empty() =~= front);
    assert(records(w, d2, n + 1) == Ok::<Seq<Record>, FsError>(front + bs));
    assert(d2.size as int / 1024 == n + 1);
}

/// A name put into a new block of the directory.
proof fn lemma_name_behind(v: Vol, dir: InodeView, name: Seq<char>, target: u32)
    requires
        sound(v),
        tree(v, dir),
        numbered(v.fs, dir.ino),
        target != 0,
        vstd::utf8::encode_utf8(name).len() <= 255,
        dir_records(v, dir) is Ok,
        record_named(dir_records(v, dir)->Ok_0, name, 0) is None,
        dir_extended(v, dir, vstd::utf8::encode_utf8(name), target).r is Ok,
    ensures
        ({
            let w = dir_extended(v, dir, vstd::utf8::encode_utf8(name), target).vol;
            let n = dir.size as int / 1024;
            let d2 = longer(ensured(v, dir, n).r->Ok_0.0);
            &&& rewrites(v, dir, w, d2)
            &&& tree(w, d2)
            &&& d2.mode == dir.mode
            &&& names_it(dir_records(w, d2), name, target)
            &&& alike_but(dir_records(v, dir)->Ok_0, dir_records(w, d2)->Ok_0, name)
        }),
{
    let n = dir.size as int / 1024;
    let put = record_put(blank(), 0, target, vstd::utf8::encode_utf8(name), 1024);
    lemma_fresh_block(name, target, 1024 * n);
    let o = ensured(v, dir, n);
    let (x, d, phys) = (o.vol, o.r->Ok_0.0, o.r->Ok_0.1);
    let d2 = longer(d);
    let w1 = with_inode(x, d2).vol;
    let w = with_block(w1, phys as int, put).vol;
    assert(lengthens(v, dir, x, d, phys, w1, w, put));
    let td = lemma_lengthens(v, dir, x, d, phys, w1, w, put);
    lemma_with_inode(x, d2);
    assert(dir_extended(v, dir, vstd::utf8::encode_utf8(name), target).vol == w);
    lemma_longer_inodes(v, dir, x, d, w1, w);
    assert forall|other: InodeView|
        #![trigger tree(v, other)]
        tree(v, other) && apart(v, other, dir) implies tree(w, other) && tree_same(v, other, w) by {
        lemma_longer_beside(v, dir, x, d, w1, table_block(x.fs, d.ino), td, w, other);
    }
    lemma_longer_names(v, dir, x, d, phys, w1, w, name, target);
}

/// The inodes beside the one of the directory that was made longer.
proof fn lemma_longer_inodes(v: Vol, dir: InodeView, x: Vol, d: InodeView, w1: Vol, w: Vol)
    requires
        sound(v),
        tree(v, dir),
        writes(v, dir, x, d),
        numbered(v.fs, dir.ino),
        w1 == with_inode(x, longer(d)).vol,
        sound(w1),
        tree(w1, longer(d)),
        writes(w1, longer(d), w, longer(d)),
    ensures
        inode(w, dir.ino) == Ok::<InodeView, FsError>(longer(d)),
        forall|n: u32| numbered(v.fs, n) && n != dir.ino ==> #[trigger] inode(w, n) == inode(v, n),
{
    lemma_with_inode(x, longer(d));
    lemma_inodes_kept(w1, longer(d), w, longer(d), dir.ino);
    assert forall|n: u32| numbered(v.fs, n) && n != dir.ino implies #[trigger] inode(w, n) == inode(v, n) by {
        lemma_inodes_kept(w1, longer(d), w, longer(d), n);
        lemma_inodes_kept(v, dir, x, d, n);
        assert(inode(w1, n) == inode(x, n));
    }
}

/// The records that the directory had are still there.
proof fn lemma_longer_records(
    v: Vol,
    dir: InodeView,
    n: int,
    x: Vol,
    d: InodeView,
    phys: u32,
    w1: Vol,
    t: int,
    td: Seq<u8>,
    w: Vol,
    put: Seq<u8>,
)
    requires
        sound(v),
        tree(v, dir),
        0 <= n < 65804,
        secures(v, dir, n, x, d, phys),
        own(x.fs, t),
        inside(x.fs, t),
        t != x.fs.block_bitmap,
        block_set(x, w1, t, td),
        block_set(w1, w, phys as int, put),
        put.len() == 1024,
    ensures
        records(w, longer(d), n) == records(v, dir, n),
{
    let d2 = longer(d);
    lemma_secured_bytes(v, dir, n, x, d, phys);
    lemma_beside_own(x, w1, t, td, d);
    lemma_tree_fields(w1, d, d2);
    lemma_places_apart(n, n);
    lemma_at_fields(w1, d, d2, place_of(n));
    assert(at(w1, d2, place_of(n)) == phys);
    lemma_data_block(w1, d2, w, n, put);
    assert forall|k: int| 0 <= k < n implies #[trigger] at(w, d2, place_of(k)) == at(v, dir, place_of(k)) by {
        let q = place_of(k);
        lemma_places_apart(k, n);
        lemma_at_data(w1, d2, w, n, put, q);
        lemma_at_fields(w1, d, d2, q);
        assert(at(w1, d, q) == at(x, d, q));
        assert(at(x, d, place_of(k)) == at(v, dir, place_of(k)));
    }
    assert forall|k: int| 0 <= k < 1024 * n implies #[trigger] byte_of(w, d2, k) == byte_of(v, dir, k) by {
        let m = k / 1024;
        lemma_places_apart(m, n);
        let q = place_of(m);
        assert(byte_of(w, d2, k) == byte_of(w1, d2, k));
        lemma_at_fields(w1, d, d2, q);
        assert(at(w1, d, q) == at(x, d, q));
        let b = at(x, d, q) as int;
        if b != 0 {
            assert(inside(x.fs, b) && !own(x.fs, b));
            assert(blk(w1, b) == blk(x, b));
        }
        assert(byte_of(w1, d2, k) == byte_of(x, d, k));
        assert(byte_of(x, d, k) == byte_of(v, dir, k));
    }
    lemma_records_bytes(v, w, dir, d2, n);
}

// ---------------------------------------------------------------------------
// A new file
// ---------------------------------------------------------------------------

/// The inode is marked as taken.
pub open spec fn ino_used(v: Vol, n: int) -> bool {
    is_set(blk(v, v.fs.inode_bitmap as int), n - 1)
}

/// The directories on the way are different ones that share no block.
pub open spec fn spread(v: Vol, path: Seq<char>) -> bool {
    forall|m: int, n: int|
        0 <= m < n < parts(path).len() ==> (#[trigger] node_n(v, path, m)).ino != (#[trigger] node_n(v, path, n)).ino
            && apart(v, node_n(v, path, m), node_n(v, path, n))
}

/// The volume is ready for a new file on a path: the inodes of the directories
/// on the way, and what lies beyond the last inode, are marked as taken, these
/// directories are spread, and the names in the last of them are UTF-8.
pub open spec fn ready(v: Vol, path: Seq<char>) -> bool {
    &&& forall|n: int| v.fs.inodes_count < n <= 8192 ==> #[trigger] ino_used(v, n)
    &&& forall|n: int| 0 <= n < parts(path).len() ==> ino_used(v, (#[trigger] node_n(v, path, n)).ino as int)
    &&& spread(v, path)
    &&& parts(path).len() >= 1 ==> utf8_names(v, node_n(v, path, parts(path).len() - 1))
}

/// The volume `w` is `v` with a new inode.
pub open spec fn enrols(v: Vol, w: Vol, fresh: InodeView) -> bool {
    &&& like(v.fs, w.fs)
    &&& sound(w)
    &&& numbered(v.fs, fresh.ino)
    &&& !ino_used(v, fresh.ino as int)
    &&& inode(w, fresh.ino) == Ok::<InodeView, FsError>(fresh)
    &&& forall|n: u32| numbered(v.fs, n) && n != fresh.ino ==> #[trigger] inode(w, n) == inode(v, n)
    &&& forall|i: InodeView| #![trigger tree(v, i)] tree(v, i) ==> tree(w, i) && tree_same(v, i, w)
}

pub(crate) proof fn lemma_inode_taken(v: Vol)
    requires
        sound(v),
        inode_taken(v).r is Ok,
        forall|n: int| v.fs.inodes_count < n <= 8192 ==> #[trigger] ino_used(v, n),
    ensures
        ({
            let w = inode_taken(v).vol;
            let num = inode_taken(v).r->Ok_0;
            &&& like(v.fs, w.fs)
            &&& sound(w)
            &&& numbered(v.fs, num)
            &&& !ino_used(v, num as int)
            &&& forall|x: int| 0 <= x <= 8192 ==> #[trigger] in_use(w, x) == in_use(v, x)
            &&& forall|x: int|
                inside(v.fs, x) && x != 1 && x != 2 && x != v.fs.inode_bitmap ==> #[trigger] blk(w, x) == blk(v, x)
        }),
{
    reveal(inode_taken);
    let ib = v.fs.inode_bitmap as int;
    lemma_block(v, ib);
    let bits = blk(v, ib);
    lemma_first_clear(bits, 0);
    let k = first_clear(bits, 0)->0;
    assert(!ino_used(v, k + 1));
    let now = with_bit(bits, k);
    lemma_with_block(v, ib, now);
    let w1 = with_block(v, ib, now).vol;
    let less = Vol { fs: Ext2 { free_inodes: (v.fs.free_inodes - 1) as u32, ..v.fs }, disk: w1.disk };
    assert(held(less)) by {
        assert forall|l: u32|
            less.fs.part_start <= l < less.fs.part_start + 2 * less.fs.blocks_count implies #[trigger] less.disk.sectors.contains_key(
            l,
        ) by {
            assert(w1.disk.sectors.contains_key(l));
        }
    }
    assert forall|x: int| inside(v.fs, x) implies #[trigger] blk(less, x) == (if x == ib { now } else { blk(v, x) }) by {
        assert(blk(less, x) == blk(w1, x));
    }
    lemma_counts_synced(less);
    let w = counts_synced(less).vol;
    assert(inode_taken(v).vol == w);
    let bb = v.fs.block_bitmap as int;
    assert(blk(w, bb) == blk(less, bb));
    assert forall|x: int| 0 <= x <= 8192 implies #[trigger] in_use(w, x) == in_use(v, x) by {}
    assert(marked(w)) by {
        assert forall|x: int| inside(w.fs, x) && own(w.fs, x) implies #[trigger] in_use(w, x) by {
            assert(in_use(v, x));
        }
        assert forall|x: int| w.fs.blocks_count <= x <= 8192 implies #[trigger] in_use(w, x) by {
            assert(in_use(v, x));
        }
    }
    assert forall|x: int| inside(v.fs, x) && x != 1 && x != 2 && x != ib implies #[trigger] blk(w, x) == blk(v, x) by {
        assert(blk(less, x) == blk(v, x));
    }
}

pub(crate) proof fn lemma_enrolled(v: Vol)
    requires
        sound(v),
        inode_taken(v).r is Ok,
        forall|n: int| v.fs.inodes_count < n <= 8192 ==> #[trigger] ino_used(v, n),
    ensures
        ({
            let num = inode_taken(v).r->Ok_0;
            let o = with_inode(inode_taken(v).vol, fresh_inode(num, MODE_REG));
            o.r is Ok && enrols(v, o.vol, fresh_inode(num, MODE_REG))
        }),
{
    lemma_inode_taken(v);
    let a = inode_taken(v).vol;
    let num = inode_taken(v).r->Ok_0;
    let fresh = fresh_inode(num, MODE_REG);
    lemma_with_inode(a, fresh);
    let w = with_inode(a, fresh).vol;
    let t = table_block(a.fs, num);
    let td = choose|td: Seq<u8>| block_set(a, w, t, td);
    lemma_empty_tree(a, fresh);
    lemma_beside_own(a, w, t, td, fresh);
    assert forall|n: u32| numbered(v.fs, n) && n != num implies #[trigger] inode(w, n) == inode(v, n) by {
        assert(inode(w, n) == inode(a, n));
        let tn = table_block(v.fs, n);
        lemma_block(v, tn);
        lemma_block(a, tn);
        assert(blk(a, tn) == blk(v, tn));
    }
    assert forall|i: InodeView| #![trigger tree(v, i)] tree(v, i) implies tree(w, i) && tree_same(v, i, w) by {
        assert forall|p: int| 0 <= p < places() && #[trigger] at(v, i, p) != 0 implies blk(a, at(v, i, p) as int)
            == blk(v, at(v, i, p) as int) by {
            let b = at(v, i, p) as int;
            assert(inside(v.fs, b) && !own(v.fs, b));
        }
        assert(tree_same(v, i, a));
        lemma_tree_kept(v, i, a);
        lemma_beside_own(a, w, t, td, i);
        assert forall|p: int| 0 <= p < places() && #[trigger] at(v, i, p) != 0 implies blk(w, at(v, i, p) as int)
            == blk(v, at(v, i, p) as int) by {
            let b = at(v, i, p) as int;
            assert(inside(v.fs, b) && !own(v.fs, b));
            assert(blk(w, b) == blk(a, b));
        }
    }
}

proof fn lemma_nothing_at(v: Vol, i: InodeView, q: int)
    requires
        forall|s: int| 0 <= s < 14 ==> #[trigger] i.blocks[s] == 0,
        0 <= q,
    ensures
        at(v, i, q) == 0,
    decreases q,
{
    if q >= 14 {
        lemma_nothing_at(v, i, table_of(q));
    }
}

pub(crate) proof fn lemma_empty_tree(v: Vol, i: InodeView)
    requires
        i.blocks.len() == 15,
        forall|s: int| 0 <= s < 14 ==> #[trigger] i.blocks[s] == 0,
    ensures
        tree(v, i),
        forall|q: int| 0 <= q ==> #[trigger] at(v, i, q) == 0,
{
    assert forall|q: int| 0 <= q implies #[trigger] at(v, i, q) == 0 by {
        lemma_nothing_at(v, i, q);
    }
}

/// The directory that holds the last component.
pub(crate) proof fn lemma_dir_upto(v: Vol, path: Seq<char>, n: int)
    requires
        healthy(v, path),
        0 <= n < parts(path).len(),
    ensures
        dir_upto(v, parts(path), n) == Ok::<InodeView, FsError>(node_n(v, path, n)),
    decreases n,
{
    assert(node_upto(v, parts(path), n) is Ok);
    if n > 0 {
        lemma_dir_upto(v, path, n - 1);
        assert(node_upto(v, parts(path), n - 1) is Ok);
    }
}

/// What putting a name into a directory does: the name finds the target, and
/// every other name what it found.
pub open spec fn links(v: Vol, dir: InodeView, w: Vol, d2: InodeView, name: Seq<char>, target: u32) -> bool {
    &&& rewrites(v, dir, w, d2)
    &&& tree(w, d2)
    &&& d2.mode == dir.mode
    &&& names_it(dir_records(w, d2), name, target)
    &&& alike_but(dir_records(v, dir)->Ok_0, dir_records(w, d2)->Ok_0, name)
}

proof fn lemma_name_added(v: Vol, dir: InodeView, name: Seq<char>, target: u32) -> (d2: InodeView)
    requires
        sound(v),
        tree(v, dir),
        numbered(v.fs, dir.ino),
        inode(v, dir.ino) == Ok::<InodeView, FsError>(dir),
        utf8_names(v, dir),
        target != 0,
        vstd::utf8::encode_utf8(name).len() <= 255,
        dir_records(v, dir) is Ok,
        record_named(dir_records(v, dir)->Ok_0, name, 0) is None,
        name_added(v, dir, vstd::utf8::encode_utf8(name), target).r is Ok,
    ensures
        links(v, dir, name_added(v, dir, vstd::utf8::encode_utf8(name), target).vol, d2, name, target),
{
    let bytes = vstd::utf8::encode_utf8(name);
    let rs = dir_records(v, dir)->Ok_0;
    match roomy(rs, span_of(bytes.len() as int), 0) {
        Ok(Some(_)) => {
            lemma_name_inside(v, dir, name, target);
            let w = name_added(v, dir, bytes, target).vol;
            lemma_inodes_kept(v, dir, w, dir, dir.ino);
            assert forall|n: u32| numbered(v.fs, n) && n != dir.ino implies #[trigger] inode(w, n) == inode(v, n) by {
                lemma_inodes_kept(v, dir, w, dir, n);
            }
            assert forall|other: InodeView|
                #![trigger tree(v, other)]
                tree(v, other) && apart(v, other, dir) implies tree(w, other) && tree_same(v, other, w) by {
                lemma_beside(v, dir, w, dir, other);
            }
            dir
        },
        _ => {
            lemma_name_behind(v, dir, name, target);
            longer(ensured(v, dir, dir.size as int / 1024).r->Ok_0.0)
        },
    }
}

/// The volume `c` is `v` with a new inode `fresh` on a path, entered by way of
/// `b`; the directory that holds it is `d2` now.
pub open spec fn makes(v: Vol, path: Seq<char>, b: Vol, c: Vol, fresh: InodeView, d2: InodeView) -> bool {
    let l = parts(path).len() - 1;
    let parent = node_n(v, path, l);
    &&& enrols(v, b, fresh)
    &&& links(b, parent, c, d2, parts(path).last(), fresh.ino)
}

/// A directory before the last on the way is found as before.
proof fn lemma_way_new(v: Vol, path: Seq<char>, b: Vol, c: Vol, fresh: InodeView, d2: InodeView, n: int)
    requires
        healthy(v, path),
        ready(v, path),
        parts(path).len() >= 1,
        makes(v, path, b, c, fresh, d2),
        0 <= n < parts(path).len(),
    ensures
        node_upto(c, parts(path), n) == Ok::<Option<InodeView>, FsError>(
            Some(if n == parts(path).len() - 1 { d2 } else { node_n(v, path, n) }),
        ),
        n < parts(path).len() - 1 ==> tree(c, node_n(v, path, n)),
    decreases n,
{
    let ps = parts(path);
    let l = ps.len() - 1;
    let parent = node_n(v, path, l);
    assert(node_upto(v, ps, l) is Ok);
    assert(node_upto(v, ps, n) is Ok);
    lemma_node_is_inode(v, ps, n);
    lemma_node_is_inode(v, ps, l);
    let here = node_n(v, path, n);
    assert(ino_used(v, here.ino as int));
    assert(here.ino != fresh.ino);
    assert(inode(b, here.ino) == inode(v, here.ino));
    assert(tree(v, here));
    if n < l {
        assert(here.ino != parent.ino && apart(v, here, parent));
        lemma_still_apart(v, b, fresh, here, parent);
        assert(tree(b, here));
    }
    if n > 0 {
        lemma_way_new(v, path, b, c, fresh, d2, n - 1);
        assert(node_upto(v, ps, n - 1) is Ok);
        let dir = node_n(v, path, n - 1);
        assert(tree(v, dir));
        assert(dir.ino != parent.ino && apart(v, dir, parent));
        lemma_still_apart(v, b, fresh, dir, parent);
        assert(tree(b, dir));
        assert(tree(c, dir));
        assert(tree_same(v, dir, b) && tree_same(b, dir, c));
        lemma_records_same(v, b, dir, dir.size as int / 1024);
        lemma_records_same(b, c, dir, dir.size as int / 1024);
    }
}

/// Trees that share no block still share none.
pub(crate) proof fn lemma_still_apart(v: Vol, b: Vol, fresh: InodeView, x: InodeView, y: InodeView)
    requires
        enrols(v, b, fresh),
        tree(v, x),
        tree(v, y),
        apart(v, x, y),
    ensures
        apart(b, x, y),
{
    assert forall|p: int, q: int|
        0 <= p < places() && 0 <= q < places() && #[trigger] at(b, x, p) != 0 implies at(b, x, p) != #[trigger] at(
        b,
        y,
        q,
    ) by {
        lemma_at_kept(v, x, b, p);
        lemma_at_kept(v, y, b, q);
        assert(at(v, x, p) != at(v, y, q));
    }
}

/// Once a new entry was made, the path names it.
proof fn lemma_entry_made(v: Vol, path: Seq<char>, b: Vol, c: Vol, fresh: InodeView, d2: InodeView)
    requires
        healthy(v, path),
        ready(v, path),
        parts(path).len() >= 1,
        makes(v, path, b, c, fresh, d2),
    ensures
        node_at(c, path) == Ok::<Option<InodeView>, FsError>(Some(fresh)),
{
    let ps = parts(path);
    let l = ps.len() - 1;
    let parent = node_n(v, path, l);
    assert(node_upto(v, ps, l) is Ok);
    lemma_node_is_inode(v, ps, l);
    assert(ino_used(v, parent.ino as int));
    assert(parent.ino != fresh.ino);
    lemma_way_new(v, path, b, c, fresh, d2, l);
    assert(inode(c, fresh.ino) == inode(b, fresh.ino));
}

/// Once a new file was made, the path names it on a healthy volume.
proof fn lemma_made(v: Vol, path: Seq<char>, b: Vol, c: Vol, num: u32, d2: InodeView)
    requires
        healthy(v, path),
        ready(v, path),
        parts(path).len() >= 1,
        makes(v, path, b, c, fresh_inode(num, MODE_REG), d2),
    ensures
        node_at(c, path) == Ok::<Option<InodeView>, FsError>(Some(fresh_inode(num, MODE_REG))),
        healthy(c, path),
{
    let ps = parts(path);
    let fresh = fresh_inode(num, MODE_REG);
    lemma_entry_made(v, path, b, c, fresh, d2);
    lemma_way_new(v, path, b, c, fresh, d2, ps.len() - 1);
    lemma_empty_tree(c, fresh);
    assert forall|n: int| 0 <= n < ps.len() implies #[trigger] node_upto(c, ps, n) is Ok && node_upto(
        c,
        ps,
        n,
    )->Ok_0 is Some && node_n(c, path, n).is_dir() && tree(c, node_n(c, path, n)) by {
        lemma_way_new(v, path, b, c, fresh, d2, n);
        assert(node_upto(v, ps, n) is Ok);
    }
}

/// A new inode that gets a name in the directory that the path ends on.
pub(crate) proof fn lemma_entered(v: Vol, path: Seq<char>, b: Vol, fresh: InodeView) -> (d2: InodeView)
    requires
        healthy(v, path),
        ready(v, path),
        parts(path).len() >= 1,
        node_at(v, path) == Ok::<Option<InodeView>, FsError>(None),
        enrols(v, b, fresh),
        vstd::utf8::encode_utf8(parts(path).last()).len() <= 255,
        name_added(
            b,
            node_n(v, path, parts(path).len() - 1),
            vstd::utf8::encode_utf8(parts(path).last()),
            fresh.ino,
        ).r is Ok,
    ensures
        ({
            let up = node_n(v, path, parts(path).len() - 1);
            let c = name_added(b, up, vstd::utf8::encode_utf8(parts(path).last()), fresh.ino).vol;
            makes(v, path, b, c, fresh, d2)
        }),
{
    let ps = parts(path);
    let l = ps.len() - 1;
    let parent = node_n(v, path, l);
    assert(node_upto(v, ps, l) is Ok);
    lemma_node_is_inode(v, ps, l);
    assert(ino_used(v, parent.ino as int));
    assert(parent.ino != fresh.ino);
    assert(inode(b, parent.ino) == inode(v, parent.ino));
    assert(tree(v, parent));
    lemma_records_same(v, b, parent, parent.size as int / 1024);
    assert(found(v, parent, ps.last()) == Ok::<Option<InodeView>, FsError>(None));
    lemma_names_kept(v, b, fresh, parent);
    lemma_name_added(b, parent, ps.last(), fresh.ino)
}

/// Making a new file on a healthy volume.
pub(crate) proof fn lemma_file_made(v: Vol, path: Seq<char>)
    requires
        healthy(v, path),
        ready(v, path),
        parts(path).len() >= 1,
        node_at(v, path) == Ok::<Option<InodeView>, FsError>(None),
        file_made(v, node_n(v, path, parts(path).len() - 1), parts(path).last()).r is Ok,
    ensures
        ({
            let o = file_made(v, node_n(v, path, parts(path).len() - 1), parts(path).last());
            &&& node_at(o.vol, path) == Ok::<Option<InodeView>, FsError>(Some(o.r->Ok_0))
            &&& healthy(o.vol, path)
            &&& !o.r->Ok_0.is_dir()
            &&& o.r->Ok_0.size == 0
        }),
{
    let ps = parts(path);
    let l = ps.len() - 1;
    let parent = node_n(v, path, l);
    let name = ps.last();
    let bytes = vstd::utf8::encode_utf8(name);
    assert(node_upto(v, ps, l) is Ok);
    lemma_node_is_inode(v, ps, l);
    lemma_enrolled(v);
    let num = inode_taken(v).r->Ok_0;
    let fresh = fresh_inode(num, MODE_REG);
    let b = with_inode(inode_taken(v).vol, fresh).vol;
    let d2 = lemma_entered(v, path, b, fresh);
    let c = name_added(b, parent, bytes, num).vol;
    lemma_made(v, path, b, c, num, d2);
}

/// The names of a directory are still UTF-8 with a fresh inode.
proof fn lemma_names_kept(v: Vol, b: Vol, fresh: InodeView, dir: InodeView)
    requires
        sound(v),
        enrols(v, b, fresh),
        tree(v, dir),
        utf8_names(v, dir),
    ensures
        utf8_names(b, dir),
{
    let n = dir.size as int / 1024;
    lemma_records_same(v, b, dir, n);
    if dir_records(v, dir) is Ok {
        let rs = dir_records(v, dir)->Ok_0;
        assert forall|k: int| 0 <= k < rs.len() implies name_ok(
            blk(b, at(b, dir, place_of((#[trigger] rs[k]).offset / 1024)) as int),
            rs[k].offset % 1024,
        ) by {
            let kk = lemma_record_home(v, dir, n, k);
            let m = rs[k].offset / 1024;
            lemma_places_apart(m, m);
            lemma_at_kept(v, dir, b, place_of(m));
            assert(at(v, dir, place_of(m)) != 0);
        }
    }
}

// ---------------------------------------------------------------------------
// Laws
// ---------------------------------------------------------------------------

/// A write starts where a file can have a block.
pub(crate) proof fn lemma_in_reach(v: Vol, i: InodeView, off: int, data: Seq<u8>)
    requires
        0 <= off,
        data.len() >= 1,
        file_written(v, i, off, data).r is Ok,
    ensures
        off <= 65804 * 1024,
{
    reveal(ensured);
}

/// The file that a write goes to, on the volume it goes to.
proof fn lemma_target(v: Vol, path: Seq<char>)
    requires
        healthy(v, path),
        node_at(v, path) is Ok && node_at(v, path)->Ok_0 is None ==> ready(v, path),
        write_target(v, path).r is Ok,
    ensures
        ({
            let t = write_target(v, path);
            &&& parts(path).len() >= 1
            &&& healthy(t.vol, path)
            &&& node_at(t.vol, path) == Ok::<Option<InodeView>, FsError>(Some(t.r->Ok_0))
            &&& !t.r->Ok_0.is_dir()
            &&& node_at(v, path)->Ok_0 is None ==> t.r->Ok_0.size == 0
        }),
{
    let ps = parts(path);
    match node_at(v, path) {
        Ok(Some(i)) => {
            assert(!i.is_dir());
            assert(ps.len() == 0 ==> i == node_n(v, path, 0));
        },
        Ok(None) => {
            assert(ps.len() >= 1);
            lemma_dir_upto(v, path, ps.len() - 1);
            lemma_file_made(v, path);
        },
        Err(_) => {},
    }
}

/// What a write that is not empty leaves behind.
proof fn lemma_put(v: Vol, path: Seq<char>, off: int, data: Seq<u8>)
    requires
        healthy(v, path),
        node_at(v, path) == Ok::<Option<InodeView>, FsError>(None) ==> ready(v, path),
        0 <= off,
        data.len() >= 1,
        written(v, path, off, data).r is Ok,
    ensures
        ({
            let w = written(v, path, off, data).vol;
            let before = match node_at(v, path) {
                Ok(Some(i)) => i.size as int,
                _ => 0,
            };
            let end = off + data.len();
            &&& contents(w, path, off, data.len() as int) == Ok::<Seq<u8>, FsError>(data)
            &&& status(w, path) == Ok::<FileStat, FsError>(
                FileStat { size: (if end > before { end } else { before }) as u64, is_dir: false },
            )
        }),
{
    reveal(written);
    lemma_target(v, path);
    let t = write_target(v, path);
    let i = t.r->Ok_0;
    lemma_in_reach(t.vol, i, off, data);
    lemma_write_existing(t.vol, path, i, off, data);
}

/// What an empty write leaves behind.
proof fn lemma_touched(v: Vol, path: Seq<char>, off: int, data: Seq<u8>)
    requires
        healthy(v, path),
        node_at(v, path) == Ok::<Option<InodeView>, FsError>(None) ==> ready(v, path),
        !(node_at(v, path) matches Ok(Some(i)) && i.is_dir()),
        data.len() == 0,
        written(v, path, off, data).r is Ok,
    ensures
        ({
            let now = node_at(written(v, path, off, data).vol, path);
            now is Ok && now->Ok_0 is Some && !(now->Ok_0->0).is_dir()
        }),
{
    reveal(written);
    if node_at(v, path) == Ok::<Option<InodeView>, FsError>(None) {
        assert(write_target(v, path).r is Ok);
        lemma_target(v, path);
    }
}

/// Reading no byte of a file.
proof fn lemma_nothing_read(v: Vol, path: Seq<char>, off: int)
    requires
        node_at(v, path) is Ok,
        node_at(v, path)->Ok_0 is Some,
        !(node_at(v, path)->Ok_0->0).is_dir(),
    ensures
        contents(v, path, off, 0) == Ok::<Seq<u8>, FsError>(Seq::empty()),
{
}

/// A read gives back what a write wrote. For an empty write this leaves out a
/// directory, on which such a write succeeds though nothing can be read.
pub proof fn law_read_after_write(v: Vol, path: Seq<char>, off: int, data: Seq<u8>)
    requires
        healthy(v, path),
        node_at(v, path) == Ok::<Option<InodeView>, FsError>(None) ==> ready(v, path),
        data.len() == 0 ==> !(node_at(v, path) matches Ok(Some(i)) && i.is_dir()),
        0 <= off,
        written(v, path, off, data).r is Ok,
    ensures
        contents(written(v, path, off, data).vol, path, off, data.len() as int) == Ok::<Seq<u8>, FsError>(data),
{
    if data.len() == 0 {
        lemma_touched(v, path, off, data);
        assert(data =~= Seq::<u8>::empty());
        lemma_nothing_read(written(v, path, off, data).vol, path, off);
    } else {
        lemma_put(v, path, off, data);
    }
}

/// A write that is not empty leaves a file that reaches at least to its end,
/// and no shorter than before.
pub proof fn law_size_after_write(v: Vol, path: Seq<char>, off: int, data: Seq<u8>)
    requires
        healthy(v, path),
        node_at(v, path) == Ok::<Option<InodeView>, FsError>(None) ==> ready(v, path),
        0 <= off,
        data.len() >= 1,
        written(v, path, off, data).r is Ok,
    ensures
        ({
            let before = match node_at(v, path) {
                Ok(Some(i)) => i.size as int,
                _ => 0,
            };
            let end = off + data.len();
            status(written(v, path, off, data).vol, path) == Ok::<FileStat, FsError>(
                FileStat { size: (if end > before { end } else { before }) as u64, is_dir: false },
            )
        }),
{
    lemma_put(v, path, off, data);
}

// ---------------------------------------------------------------------------
// A changed record
// ---------------------------------------------------------------------------

/// The records with the one at place `off` replaced.
pub open spec fn changed(rs: Seq<Record>, off: int, to: Record) -> Seq<Record> {
    rs.map_values(|r: Record| if r.offset == off { to } else { r })
}

/// The records of a block stand in order.
proof fn lemma_records_in_order(b: Seq<u8>, o: int, base: int, i: int, j: int)
    requires
        0 <= o,
        block_records(b, o, base) is Ok,
        0 <= i < j < block_records(b, o, base)->Ok_0.len(),
    ensures
        block_records(b, o, base)->Ok_0[i].offset < block_records(b, o, base)->Ok_0[j].offset,
    decreases j,
{
    let rs = block_records(b, o, base)->Ok_0;
    lemma_record_places(b, o, base, i);
    lemma_record_places(b, o, base, j);
    if i > 0 {
        let next = o + le16(b, o + 4);
        let rest = block_records(b, next, base)->Ok_0;
        assert(rs[i] == rest[i - 1]);
        assert(rs[j] == rest[j - 1]);
        lemma_records_in_order(b, next, base, i - 1, j - 1);
    }
}

/// A block in which one record has other bytes.
proof fn lemma_block_changed(b: Seq<u8>, c: Seq<u8>, base: int, k: int)
    requires
        b.len() == 1024,
        c.len() == 1024,
        block_records(b, 0, base) is Ok,
        0 <= k < block_records(b, 0, base)->Ok_0.len(),
        ({
            let r = block_records(b, 0, base)->Ok_0[k];
            let p = r.offset - base;
            &&& forall|x: int| 0 <= x < 1024 && !(p <= x < p + r.rec_len) ==> #[trigger] c[x] == b[x]
            &&& record_ok(c, p)
            &&& le16(c, p + 4) == r.rec_len
        }),
    ensures
        ({
            let bs = block_records(b, 0, base)->Ok_0;
            let off = bs[k].offset;
            block_records(c, 0, base) == Ok::<Seq<Record>, FsError>(
                changed(bs, off, record_at(c, off - base, base)),
            )
        }),
{
    let bs = block_records(b, 0, base)->Ok_0;
    let off = bs[k].offset;
    let p = off - base;
    let to = record_at(c, p, base);
    lemma_record_places(b, 0, base, k);
    lemma_record_replaced(b, c, 0, base, k, seq![to]);
    let all = bs.take(k) + seq![to] + bs.skip(k + 1);
    assert forall|i: int| 0 <= i < bs.len() implies #[trigger] all[i] == changed(bs, off, to)[i] by {
        if i < k {
            lemma_records_in_order(b, 0, base, i, k);
        } else if i > k {
            lemma_records_in_order(b, 0, base, k, i);
        }
    }
    assert(all =~= changed(bs, off, to));
}

/// The records of a directory in whose block `m` one record changed.
proof fn lemma_records_changed(v: Vol, w: Vol, dir: InodeView, off: int, to: Record, n: int)
    requires
        good(v.fs),
        held(w),
        held(v),
        w.fs == v.fs,
        tree(v, dir),
        reached(w, dir),
        0 <= off,
        off / 1024 < 65804,
        at(v, dir, place_of(off / 1024)) != 0,
        forall|q: int| 0 <= q < places() ==> #[trigger] at(w, dir, q) == at(v, dir, q),
        forall|x: int|
            inside(v.fs, x) && x != at(v, dir, place_of(off / 1024)) ==> #[trigger] blk(w, x) == blk(v, x),
        ({
            let phys = at(v, dir, place_of(off / 1024)) as int;
            let base = 1024 * (off / 1024);
            let bs = block_records(blk(v, phys), 0, base);
            bs is Ok && block_records(blk(w, phys), 0, base) == Ok::<Seq<Record>, FsError>(changed(bs->Ok_0, off, to))
        }),
        records(v, dir, n) is Ok,
    ensures
        records(w, dir, n) == Ok::<Seq<Record>, FsError>(changed(records(v, dir, n)->Ok_0, off, to)),
    decreases n,
{
    if n > 0 {
        lemma_records_changed(v, w, dir, off, to, n - 1);
        let m = off / 1024;
        let k = n - 1;
        let front = records(v, dir, k)->Ok_0;
        assert(k < 65804);
        lemma_mapped(v, dir, k);
        lemma_mapped(w, dir, k);
        lemma_places_apart(k, m);
        let b = at(v, dir, place_of(k));
        assert(at(w, dir, place_of(k)) == b);
        if b != 0 {
            assert(inside(v.fs, b as int));
            lemma_block(v, b as int);
            lemma_block(w, b as int);
            let bs = block_records(blk(v, b as int), 0, 1024 * k)->Ok_0;
            if k != m {
                lemma_places_apart(m, k);
                assert(b != at(v, dir, place_of(m))) by {
                    if place_of(k) < place_of(m) {
                        assert(at(v, dir, place_of(k)) != at(v, dir, place_of(m)));
                    } else {
                        assert(at(v, dir, place_of(m)) != at(v, dir, place_of(k)));
                    }
                }
                assert forall|i: int| 0 <= i < bs.len() implies #[trigger] changed(bs, off, to)[i] == bs[i] by {
                    lemma_record_places(blk(v, b as int), 0, 1024 * k, i);
                }
                assert(changed(bs, off, to) =~= bs);
            }
            assert(changed(front + bs, off, to) =~= changed(front, off, to) + changed(bs, off, to));
        }
    } else {
        assert(changed(Seq::<Record>::empty(), off, to) =~= Seq::<Record>::empty());
    }
}

/// A directory in whose block `off / 1024` one record changed.
proof fn lemma_block_put_changed(v: Vol, dir: InodeView, off: int, c: Seq<u8>, to: Record)
    requires
        sound(v),
        tree(v, dir),
        dir_records(v, dir) is Ok,
        0 <= off,
        off / 1024 < 65804,
        at(v, dir, place_of(off / 1024)) != 0,
        c.len() == 1024,
        ({
            let bs = block_records(blk(v, at(v, dir, place_of(off / 1024)) as int), 0, 1024 * (off / 1024));
            bs is Ok && block_records(c, 0, 1024 * (off / 1024)) == Ok::<Seq<Record>, FsError>(
                changed(bs->Ok_0, off, to),
            )
        }),
    ensures
        ({
            let o = with_block(v, at(v, dir, place_of(off / 1024)) as int, c);
            &&& o.r is Ok
            &&& block_set(v, o.vol, at(v, dir, place_of(off / 1024)) as int, c)
            &&& writes(v, dir, o.vol, dir)
            &&& dir_records(o.vol, dir) == Ok::<Seq<Record>, FsError>(changed(dir_records(v, dir)->Ok_0, off, to))
        }),
{
    let m = off / 1024;
    let phys = at(v, dir, place_of(m));
    lemma_places_apart(m, m);
    assert(inside(v.fs, phys as int));
    lemma_with_block(v, phys as int, c);
    let w = with_block(v, phys as int, c).vol;
    lemma_data_block(v, dir, w, m, c);
    assert forall|q: int| 0 <= q < places() implies #[trigger] at(w, dir, q) == at(v, dir, q) by {
        lemma_at_data(v, dir, w, m, c, q);
    }
    lemma_records_changed(v, w, dir, off, to, dir.size as int / 1024);
}

/// A record of a directory that gets other bytes.
proof fn lemma_record_changed(v: Vol, dir: InodeView, k: int, c: Seq<u8>)
    requires
        sound(v),
        tree(v, dir),
        dir_records(v, dir) is Ok,
        0 <= k < dir_records(v, dir)->Ok_0.len(),
        c.len() == 1024,
        ({
            let r = dir_records(v, dir)->Ok_0[k];
            let p = r.offset % 1024;
            let b = blk(v, at(v, dir, place_of(r.offset / 1024)) as int);
            &&& forall|x: int| 0 <= x < 1024 && !(p <= x < p + r.rec_len) ==> #[trigger] c[x] == b[x]
            &&& record_ok(c, p)
            &&& le16(c, p + 4) == r.rec_len
        }),
    ensures
        ({
            let rs = dir_records(v, dir)->Ok_0;
            let off = rs[k].offset;
            let phys = at(v, dir, place_of(off / 1024));
            let w = with_block(v, phys as int, c);
            &&& phys != 0
            &&& off >= 0
            &&& off / 1024 < 65804
            &&& mapped(v, dir, off / 1024) == Ok::<u32, FsError>(phys)
            &&& block(v, phys as int) == Ok::<Seq<u8>, FsError>(blk(v, phys as int))
            &&& w.r is Ok
            &&& block_set(v, w.vol, phys as int, c)
            &&& writes(v, dir, w.vol, dir)
            &&& dir_records(w.vol, dir) == Ok::<Seq<Record>, FsError>(
                changed(rs, off, record_at(c, off % 1024, off - off % 1024)),
            )
        }),
{
    let kk = lemma_record_stands(v, dir, k);
    let off = dir_records(v, dir)->Ok_0[k].offset;
    let base = 1024 * (off / 1024);
    let b = blk(v, at(v, dir, place_of(off / 1024)) as int);
    assert(off - base == off % 1024);
    lemma_block_changed(b, c, base, kk);
    lemma_block_put_changed(v, dir, off, c, record_at(c, off % 1024, base));
}

/// The directories on the way to the one that changed are found as before.
proof fn lemma_way_beside(v: Vol, path: Seq<char>, w: Vol, n: int)
    requires
        healthy(v, path),
        spread(v, path),
        0 <= n < parts(path).len(),
        writes(v, node_n(v, path, parts(path).len() - 1), w, node_n(v, path, parts(path).len() - 1)),
    ensures
        node_upto(w, parts(path), n) == node_upto(v, parts(path), n),
    decreases n,
{
    let ps = parts(path);
    let l = ps.len() - 1;
    let dir = node_n(v, path, l);
    assert(node_upto(v, ps, l) is Ok);
    assert(node_upto(v, ps, n) is Ok);
    assert(tree(v, dir));
    lemma_node_is_inode(v, ps, n);
    lemma_inodes_kept(v, dir, w, dir, node_n(v, path, n).ino);
    if n > 0 {
        lemma_way_beside(v, path, w, n - 1);
        assert(node_upto(v, ps, n - 1) is Ok);
        let d = node_n(v, path, n - 1);
        assert(tree(v, d));
        assert(d.ino != dir.ino && apart(v, d, dir));
        lemma_beside(v, dir, w, dir, d);
        lemma_records_same(v, w, d, d.size as int / 1024);
    }
}

/// Among records none of which has a name, the one that is given it is found.
proof fn lemma_named_changed(rs: Seq<Record>, off: int, to: Record, name: Seq<char>, k: int, j: int)
    requires
        0 <= k <= j < rs.len(),
        record_named(rs, name, k) is None,
        rs[j].offset == off,
        to.ino != 0,
        to.name == name,
    ensures
        record_named(changed(rs, off, to), name, k) == Some(to),
    decreases j - k,
{
    assert(changed(rs, off, to)[k] == if rs[k].offset == off { to } else { rs[k] });
    if rs[k].offset != off {
        lemma_named_changed(rs, off, to, name, k + 1, j);
    }
}

/// No live record but the one at place `off` has the name.
pub open spec fn sole(rs: Seq<Record>, name: Seq<char>, off: int) -> bool {
    forall|i: int| 0 <= i < rs.len() && (#[trigger] rs[i]).ino != 0 && rs[i].name == name ==> rs[i].offset == off
}

proof fn lemma_name_gone(rs: Seq<Record>, off: int, to: Record, name: Seq<char>, k: int)
    requires
        0 <= k,
        sole(rs, name, off),
        to.ino == 0 || to.name != name,
    ensures
        record_named(changed(rs, off, to), name, k) is None,
    decreases rs.len() - k,
{
    if k < rs.len() {
        assert(changed(rs, off, to)[k] == if rs[k].offset == off { to } else { rs[k] });
        lemma_name_gone(rs, off, to, name, k + 1);
    }
}

pub(crate) proof fn lemma_record_of(rs: Seq<Record>, ino: u32, k: int)
    requires
        0 <= k,
        record_of(rs, ino, k) is Some,
    ensures
        k <= record_of(rs, ino, k)->0 < rs.len(),
        rs[record_of(rs, ino, k)->0].ino == ino,
    decreases rs.len() - k,
{
    if k < rs.len() && rs[k].ino != ino {
        lemma_record_of(rs, ino, k + 1);
    }
}

/// A tree whose blocks are as they were gives the same bytes.
pub(crate) proof fn lemma_gathered_same(v: Vol, w: Vol, i: InodeView, pos: int, end: int)
    requires
        good(v.fs),
        held(v),
        good(w.fs),
        held(w),
        reached(v, i),
        reached(w, i),
        tree_same(v, i, w),
        0 <= pos,
    ensures
        gathered(w, i, pos, end) == gathered(v, i, pos, end),
    decreases end - pos,
{
    if pos < end {
        let n = pos / 1024;
        let room = 1024 - pos % 1024;
        let take = if room < end - pos { room } else { end - pos };
        lemma_gathered_same(v, w, i, pos + take, end);
        if n < 65804 {
            lemma_mapped(v, i, n);
            lemma_mapped(w, i, n);
            lemma_places_apart(n, n);
            lemma_at_kept(v, i, w, place_of(n));
            let b = at(v, i, place_of(n));
            if b != 0 {
                assert(inside(v.fs, b as int) && inside(w.fs, b as int));
                lemma_block(v, b as int);
                lemma_block(w, b as int);
            }
        }
    }
}

/// Where the inodes are as they were, so are the lines of a listing.
proof fn lemma_lines_same(v: Vol, w: Vol, rs: Seq<Record>, n: int)
    requires
        forall|x: u32| #[trigger] inode(w, x) == inode(v, x),
    ensures
        lines(w, rs, n) == lines(v, rs, n),
    decreases n,
{
    if n > 0 {
        lemma_lines_same(v, w, rs, n - 1);
    }
}

/// The records of the directory that holds what a path names.
pub open spec fn siblings(v: Vol, path: Seq<char>) -> Seq<Record> {
    dir_records(v, node_n(v, path, parts(path).len() - 1))->Ok_0
}

/// The first record there of the inode that the path names.
pub open spec fn record_of_path(v: Vol, path: Seq<char>) -> Record {
    let rs = siblings(v, path);
    rs[record_of(rs, (node_at(v, path)->Ok_0->0).ino, 0)->0]
}

/// A record whose name is replaced by one that fits.
proof fn lemma_name_put(b: Seq<u8>, o: int, base: int, name: Seq<char>)
    requires
        b.len() == 1024,
        0 <= o,
        o + 8 <= 1024,
        record_ok(b, o),
        le32(b, o) != 0,
        vstd::utf8::encode_utf8(name).len() <= 255,
        span_of(vstd::utf8::encode_utf8(name).len() as int) <= le16(b, o + 4),
    ensures
        ({
            let bytes = vstd::utf8::encode_utf8(name);
            let c = splice(b.update(o + 6, bytes.len() as u8), o + 8, bytes);
            &&& c.len() == 1024
            &&& record_ok(c, o)
            &&& le16(c, o + 4) == le16(b, o + 4)
            &&& forall|x: int| 0 <= x < 1024 && !(o <= x < o + le16(b, o + 4)) ==> #[trigger] c[x] == b[x]
            &&& record_at(c, o, base) == (Record { name, ..record_at(b, o, base) })
        }),
{
    let bytes = vstd::utf8::encode_utf8(name);
    let c = splice(b.update(o + 6, bytes.len() as u8), o + 8, bytes);
    assert(c[o] == b[o] && c[o + 1] == b[o + 1] && c[o + 2] == b[o + 2] && c[o + 3] == b[o + 3]);
    assert(c[o + 4] == b[o + 4] && c[o + 5] == b[o + 5]);
    assert(c[o + 6] == bytes.len());
    assert(c.subrange(o + 8, o + 8 + bytes.len()) =~= bytes);
    lemma_shown(name);
}

/// The two paths of a renaming that went well.
proof fn lemma_one_directory(v: Vol, from: Seq<char>, to: Seq<char>)
    requires
        healthy(v, from),
        healthy(v, to),
        renamed(v, from, to).r is Ok,
    ensures
        ({
            let i = node_at(v, from)->Ok_0->0;
            let dir = node_n(v, from, parts(from).len() - 1);
            let rs = siblings(v, from);
            let k = record_of(rs, i.ino, 0)->0;
            &&& parts(from).len() >= 1 && parts(to).len() >= 1
            &&& node_at(v, from) == Ok::<Option<InodeView>, FsError>(Some(i))
            &&& node_n(v, to, parts(to).len() - 1) == dir
            &&& tree(v, dir)
            &&& dir_records(v, dir) == Ok::<Seq<Record>, FsError>(rs)
            &&& 0 <= k < rs.len() && rs[k].ino == i.ino && i.ino != 0
            &&& renamed(v, from, to) == record_renamed(v, dir, i.ino, vstd::utf8::encode_utf8(parts(to).last()))
        }),
{
    let i = node_at(v, from)->Ok_0->0;
    let lf = parts(from).len() - 1;
    let lt = parts(to).len() - 1;
    lemma_dir_upto(v, from, lf);
    lemma_dir_upto(v, to, lt);
    assert(node_upto(v, parts(from), lf) is Ok);
    assert(node_upto(v, parts(to), lt) is Ok);
    lemma_node_is_inode(v, parts(from), lf);
    lemma_node_is_inode(v, parts(to), lt);
    lemma_node_is_inode(v, parts(from), parts(from).len() as int);
    lemma_record_of(dir_records(v, node_n(v, from, lf))->Ok_0, i.ino, 0);
}

/// A directory in which the record of an inode got another name.
proof fn lemma_record_renamed(v: Vol, dir: InodeView, ino: u32, name: Seq<char>)
    requires
        sound(v),
        tree(v, dir),
        ino != 0,
        record_renamed(v, dir, ino, vstd::utf8::encode_utf8(name)).r is Ok,
    ensures
        ({
            let w = record_renamed(v, dir, ino, vstd::utf8::encode_utf8(name)).vol;
            let rs = dir_records(v, dir)->Ok_0;
            let r = rs[record_of(rs, ino, 0)->0];
            &&& writes(v, dir, w, dir)
            &&& dir_records(w, dir) == Ok::<Seq<Record>, FsError>(changed(rs, r.offset, Record { name, ..r }))
        }),
{
    let bytes = vstd::utf8::encode_utf8(name);
    let rs = dir_records(v, dir)->Ok_0;
    let k = record_of(rs, ino, 0)->0;
    lemma_record_of(rs, ino, 0);
    let r = rs[k];
    let kk = lemma_record_stands(v, dir, k);
    let o = r.offset % 1024;
    let b = blk(v, at(v, dir, place_of(r.offset / 1024)) as int);
    lemma_name_put(b, o, r.offset - o, name);
    lemma_record_changed(v, dir, k, splice(b.update(o + 6, bytes.len() as u8), o + 8, bytes));
}

/// What renaming leaves: the directory with the new name in the entry's
/// record, and all that is not of that directory as it was.
pub(crate) proof fn lemma_renamed(v: Vol, from: Seq<char>, to: Seq<char>)
    requires
        healthy(v, from),
        healthy(v, to),
        renamed(v, from, to).r is Ok,
    ensures
        ({
            let w = renamed(v, from, to).vol;
            let i = node_at(v, from)->Ok_0->0;
            let dir = node_n(v, from, parts(from).len() - 1);
            let r = record_of_path(v, from);
            let rs = siblings(v, from);
            let k = record_of(rs, i.ino, 0)->0;
            &&& parts(from).len() >= 1 && parts(to).len() >= 1
            &&& node_at(v, from) == Ok::<Option<InodeView>, FsError>(Some(i))
            &&& node_n(v, to, parts(to).len() - 1) == dir
            &&& dir_records(v, dir) == Ok::<Seq<Record>, FsError>(rs)
            &&& 0 <= k < rs.len() && rs[k] == r && r.ino == i.ino
            &&& writes(v, dir, w, dir)
            &&& dir_records(w, dir) == Ok::<Seq<Record>, FsError>(
                changed(rs, r.offset, Record { name: parts(to).last(), ..r }),
            )
        }),
{
    lemma_one_directory(v, from, to);
    let i = node_at(v, from)->Ok_0->0;
    lemma_record_renamed(v, node_n(v, from, parts(from).len() - 1), i.ino, parts(to).last());
}

/// What an inode holds stays as it was where only a directory beside it changed.
proof fn lemma_held_kept(v: Vol, w: Vol, dir: InodeView, i: InodeView, off: int, len: int)
    requires
        sound(v),
        tree(v, dir),
        tree(v, i),
        apart(v, i, dir),
        writes(v, dir, w, dir),
        0 <= off,
    ensures
        file_part(w, i, off, len) == file_part(v, i, off, len),
        dir_records(w, i) == dir_records(v, i),
        dir_records(v, i) matches Ok(rs) ==> lines(w, rs, rs.len() as int) == lines(v, rs, rs.len() as int),
{
    lemma_beside(v, dir, w, dir, i);
    let end = if off + len < i.size { off + len } else { i.size as int };
    lemma_gathered_same(v, w, i, off, end);
    lemma_records_same(v, w, i, i.size as int / 1024);
    assert forall|x: u32| #[trigger] inode(w, x) == inode(v, x) by {
        lemma_inodes_kept(v, dir, w, dir, x);
    }
    if let Ok(rs) = dir_records(v, i) {
        lemma_lines_same(v, w, rs, rs.len() as int);
    }
}

/// Sharing no block goes both ways.
pub(crate) proof fn lemma_apart_both(v: Vol, a: InodeView, b: InodeView)
    requires
        apart(v, a, b),
    ensures
        apart(v, b, a),
{
    assert forall|p: int, q: int|
        0 <= p < places() && 0 <= q < places() && #[trigger] at(v, b, p) != 0 implies at(v, b, p) != #[trigger] at(
        v,
        a,
        q,
    ) by {
        if at(v, a, q) != 0 {
            assert(at(v, a, q) != at(v, b, p));
        }
    }
}

/// The new path of a renamed entry names its inode.
proof fn lemma_new_name(v: Vol, from: Seq<char>, to: Seq<char>)
    requires
        healthy(v, from),
        healthy(v, to),
        spread(v, to),
        renamed(v, from, to).r is Ok,
    ensures
        node_at(renamed(v, from, to).vol, to) == node_at(v, from),
{
    lemma_renamed(v, from, to);
    let w = renamed(v, from, to).vol;
    let i = node_at(v, from)->Ok_0->0;
    let ps = parts(to);
    let l = ps.len() - 1;
    let dir = node_n(v, to, l);
    let rs = siblings(v, from);
    let r = record_of_path(v, from);
    lemma_way_beside(v, to, w, l);
    assert(node_upto(v, ps, l) is Ok);
    lemma_node_is_inode(v, parts(from), parts(from).len() as int);
    let x = Record { name: ps.last(), ..r };
    lemma_named_changed(rs, r.offset, x, ps.last(), 0, record_of(rs, i.ino, 0)->0);
    assert(tree(v, dir));
    lemma_inodes_kept(v, dir, w, dir, i.ino);
}

/// The old path of a renamed entry names nothing, unless another record of the
/// directory has that name.
proof fn lemma_old_name(v: Vol, from: Seq<char>, to: Seq<char>)
    requires
        healthy(v, from),
        healthy(v, to),
        spread(v, from),
        renamed(v, from, to).r is Ok,
        sole(siblings(v, from), parts(from).last(), record_of_path(v, from).offset),
    ensures
        node_at(renamed(v, from, to).vol, from) == Ok::<Option<InodeView>, FsError>(None),
{
    lemma_renamed(v, from, to);
    let w = renamed(v, from, to).vol;
    let ps = parts(from);
    let l = ps.len() - 1;
    let rs = siblings(v, from);
    let r = record_of_path(v, from);
    lemma_way_beside(v, from, w, l);
    assert(node_upto(v, ps, l) is Ok);
    let x = Record { name: parts(to).last(), ..r };
    assert(ps.last() != parts(to).last()) by {
        if ps.last() == parts(to).last() {
            assert(node_upto(v, parts(to), parts(to).len() - 1) is Ok);
            assert(found(v, node_n(v, from, l), ps.last()) == Ok::<Option<InodeView>, FsError>(None));
        }
    }
    lemma_name_gone(rs, r.offset, x, ps.last(), 0);
}

/// A renamed entry is what it was, under its new name: the new path has the
/// status, the bytes and the listing that the old one had, the directory has
/// the entry's record with the new name and all others as they were, and unless
/// another of them has the old name the old path names nothing.
pub proof fn law_renamed_is_the_same(v: Vol, from: Seq<char>, to: Seq<char>, off: int, len: int)
    requires
        healthy(v, from),
        healthy(v, to),
        spread(v, from),
        spread(v, to),
        renamed(v, from, to).r is Ok,
        0 <= off,
    ensures
        ({
            let w = renamed(v, from, to).vol;
            let r = record_of_path(v, from);
            &&& status(w, to) is Ok
            &&& status(w, to) == status(v, from)
            &&& contents(w, to, off, len) == contents(v, from, off, len)
            &&& listing(w, to) == listing(v, from)
            &&& siblings(w, to) == changed(siblings(v, from), r.offset, Record { name: parts(to).last(), ..r })
            &&& sole(siblings(v, from), parts(from).last(), r.offset) ==> status(w, from) == Err::<FileStat, FsError>(
                FsError::NotFound,
            )
        }),
{
    let w = renamed(v, from, to).vol;
    lemma_renamed(v, from, to);
    lemma_new_name(v, from, to);
    let i = node_at(v, from)->Ok_0->0;
    let l = parts(from).len() - 1;
    let dir = node_n(v, from, l);
    assert(node_upto(v, parts(from), l) is Ok);
    assert(tree(v, dir));
    assert(apart(v, dir, i));
    lemma_apart_both(v, dir, i);
    lemma_held_kept(v, w, dir, i, off, len);
    assert(node_upto(v, parts(to), parts(to).len() - 1) is Ok);
    lemma_way_beside(v, to, w, parts(to).len() - 1);
    if sole(siblings(v, from), parts(from).last(), record_of_path(v, from).offset) {
        lemma_old_name(v, from, to);
    }
}

// ---------------------------------------------------------------------------
// The blocks of a tree
// ---------------------------------------------------------------------------

/// Every block of the list belongs to the inode.
pub open spec fn all_owned(v: Vol, i: InodeView, list: Seq<u32>) -> bool {
    forall|x: u32| #[trigger] list.contains(x) ==> owned(v, i, x as int)
}

/// The list holds the blocks that the pointers at `from..to` name.
pub open spec fn covers(v: Vol, i: InodeView, list: Seq<u32>, from: int, to: int) -> bool {
    forall|p: int| from <= p < to && #[trigger] at(v, i, p) != 0 ==> list.contains(at(v, i, p))
}

/// What a list holds, a longer one holds too.
proof fn lemma_joined_lists(v: Vol, i: InodeView, a: Seq<u32>, b: Seq<u32>)
    requires
        all_owned(v, i, a),
        all_owned(v, i, b),
    ensures
        all_owned(v, i, a + b),
        forall|x: u32| a.contains(x) || b.contains(x) ==> #[trigger] (a + b).contains(x),
{
    assert forall|x: u32| #[trigger] (a + b).contains(x) implies a.contains(x) || b.contains(x) by {
        let k = choose|k: int| 0 <= k < (a + b).len() && (a + b)[k] == x;
        if k < a.len() {
            assert(a[k] == x);
        } else {
            assert(b[k - a.len()] == x);
        }
    }
    assert forall|x: u32| a.contains(x) || b.contains(x) implies #[trigger] (a + b).contains(x) by {
        if a.contains(x) {
            let k = choose|k: int| 0 <= k < a.len() && a[k] == x;
            assert((a + b)[k] == x);
        } else {
            let k = choose|k: int| 0 <= k < b.len() && b[k] == x;
            assert((a + b)[a.len() + k] == x);
        }
    }
}

proof fn lemma_one_more(v: Vol, i: InodeView, a: Seq<u32>, x: u32, p: int)
    requires
        all_owned(v, i, a),
        0 <= p < places(),
        x != 0,
        at(v, i, p) == x,
    ensures
        all_owned(v, i, a.push(x)),
        a.push(x).contains(x),
        forall|y: u32| a.contains(y) ==> #[trigger] a.push(x).contains(y),
{
    let one = seq![x];
    assert(one[0] == x);
    assert forall|y: u32| #[trigger] one.contains(y) implies owned(v, i, y as int) by {
        assert(at(v, i, p) == y);
    }
    lemma_joined_lists(v, i, a, one);
    assert(a.push(x) =~= a + one);
    assert((a + one)[a.len() as int] == x);
}

proof fn lemma_direct_list(v: Vol, i: InodeView, n: int)
    requires
        0 <= n <= 12,
    ensures
        all_owned(v, i, live_direct(i, n)),
        covers(v, i, live_direct(i, n), 0, n),
    decreases n,
{
    if n > 0 {
        lemma_direct_list(v, i, n - 1);
        assert(at(v, i, n - 1) == i.blocks[n - 1]);
        if i.blocks[n - 1] != 0 {
            lemma_one_more(v, i, live_direct(i, n - 1), i.blocks[n - 1], n - 1);
        }
    }
}

/// The places `base..base + 256` are those of the table at `p`.
pub open spec fn tables(p: int, base: int) -> bool {
    (p == 12 && base == 14) || (270 <= p < 526 && base == 526 + 256 * (p - 270))
}

proof fn lemma_pointer_list(v: Vol, i: InodeView, p: int, base: int, n: int)
    requires
        tables(p, base),
        at(v, i, p) != 0,
        0 <= n <= 256,
    ensures
        all_owned(v, i, live_pointers(blk(v, at(v, i, p) as int), n)),
        covers(v, i, live_pointers(blk(v, at(v, i, p) as int), n), base, base + n),
    decreases n,
{
    if n > 0 {
        let b = blk(v, at(v, i, p) as int);
        lemma_pointer_list(v, i, p, base, n - 1);
        let q = base + n - 1;
        assert(table_of(q) == p && index_of(q) == n - 1);
        assert(at(v, i, q) == le32(b, 4 * (n - 1)) as u32);
        if le32(b, 4 * (n - 1)) != 0 {
            lemma_one_more(v, i, live_pointers(b, n - 1), at(v, i, q), q);
        }
    }
}

proof fn lemma_single_list(v: Vol, i: InodeView, p: int, base: int)
    requires
        good(v.fs),
        held(v),
        reached(v, i),
        tables(p, base),
    ensures
        ({
            let r = owned_single(v, at(v, i, p));
            &&& r is Ok
            &&& all_owned(v, i, r->Ok_0)
            &&& covers(v, i, r->Ok_0, base, base + 256)
            &&& covers(v, i, r->Ok_0, p, p + 1)
        }),
{
    let t = at(v, i, p);
    if t != 0 {
        assert(inside(v.fs, t as int));
        lemma_block(v, t as int);
        lemma_pointer_list(v, i, p, base, 256);
        lemma_one_more(v, i, live_pointers(blk(v, t as int), 256), t, p);
    } else {
        assert forall|q: int| base <= q < base + 256 implies #[trigger] at(v, i, q) == 0 by {
            assert(table_of(q) == p);
        }
    }
}

proof fn lemma_inner_list(v: Vol, i: InodeView, n: int)
    requires
        good(v.fs),
        held(v),
        reached(v, i),
        at(v, i, 13) != 0,
        0 <= n <= 256,
    ensures
        ({
            let r = owned_inner(v, blk(v, at(v, i, 13) as int), n);
            &&& r is Ok
            &&& all_owned(v, i, r->Ok_0)
            &&& covers(v, i, r->Ok_0, 526, 526 + 256 * n)
            &&& covers(v, i, r->Ok_0, 270, 270 + n)
        }),
    decreases n,
{
    if n > 0 {
        let l1 = blk(v, at(v, i, 13) as int);
        lemma_inner_list(v, i, n - 1);
        let p = 270 + n - 1;
        let base = 526 + 256 * (n - 1);
        assert(table_of(p) == 13 && index_of(p) == n - 1);
        assert(at(v, i, p) == le32(l1, 4 * (n - 1)) as u32);
        lemma_single_list(v, i, p, base);
        lemma_joined_lists(v, i, owned_inner(v, l1, n - 1)->Ok_0, owned_single(v, at(v, i, p))->Ok_0);
    }
}

proof fn lemma_double_list(v: Vol, i: InodeView)
    requires
        good(v.fs),
        held(v),
        reached(v, i),
    ensures
        ({
            let r = owned_double(v, at(v, i, 13));
            &&& r is Ok
            &&& all_owned(v, i, r->Ok_0)
            &&& covers(v, i, r->Ok_0, 270, places())
            &&& covers(v, i, r->Ok_0, 13, 14)
        }),
{
    let t = at(v, i, 13);
    if t != 0 {
        assert(inside(v.fs, t as int));
        lemma_block(v, t as int);
        lemma_inner_list(v, i, 256);
        lemma_one_more(v, i, owned_inner(v, blk(v, t as int), 256)->Ok_0, t, 13);
    } else {
        assert forall|q: int| 270 <= q < places() implies #[trigger] at(v, i, q) == 0 by {
            if q >= 526 {
                assert(270 <= table_of(q) < 526);
                assert(table_of(table_of(q)) == 13);
                assert(at(v, i, table_of(q)) == 0);
            } else {
                assert(table_of(q) == 13);
            }
        }
    }
}

/// The blocks that are given back with a file are those of its tree.
pub(crate) proof fn lemma_owned_list(v: Vol, i: InodeView)
    requires
        good(v.fs),
        held(v),
        reached(v, i),
    ensures
        crate::ext2::owned(v, i) is Ok,
        all_owned(v, i, crate::ext2::owned(v, i)->Ok_0),
        covers(v, i, crate::ext2::owned(v, i)->Ok_0, 0, places()),
{
    assert(at(v, i, 12) == i.blocks[12]);
    assert(at(v, i, 13) == i.blocks[13]);
    lemma_direct_list(v, i, 12);
    lemma_single_list(v, i, 12, 14);
    lemma_double_list(v, i);
    let a = live_direct(i, 12);
    let b = owned_single(v, i.blocks[12])->Ok_0;
    let c = owned_double(v, i.blocks[13])->Ok_0;
    lemma_joined_lists(v, i, a, b);
    lemma_joined_lists(v, i, a + b, c);
}

// ---------------------------------------------------------------------------
// Removal
// ---------------------------------------------------------------------------

/// One of the first `n` blocks of a list.
pub open spec fn among(list: Seq<u32>, n: int, b: int) -> bool {
    exists|k: int| 0 <= k < n && #[trigger] list[k] == b
}

proof fn lemma_bits_freed(bits: Seq<u8>, list: Seq<u32>, n: int, b: int)
    requires
        bits.len() == 1024,
        all_in_map(list),
        0 <= n <= list.len(),
        1 <= b <= 8192,
    ensures
        bits_freed(bits, list, n).0.len() == 1024,
        is_set(bits_freed(bits, list, n).0, b - 1) == (is_set(bits, b - 1) && !among(list, n, b)),
    decreases n,
{
    if n > 0 {
        lemma_bits_freed(bits, list, n - 1, b);
        let was = bits_freed(bits, list, n - 1).0;
        let x = list[n - 1];
        assert(1 <= x <= 8192);
        law_clear_bit(was, x - 1, b - 1);
        if among(list, n, b) && !among(list, n - 1, b) {
            let k = choose|k: int| 0 <= k < n && #[trigger] list[k] == b;
            assert(k == n - 1);
        }
        if x == b {
            assert(among(list, n, b));
        }
        if among(list, n - 1, b) {
            let k = choose|k: int| 0 <= k < n - 1 && #[trigger] list[k] == b;
            assert(among(list, n, b));
        }
    }
}

/// The volume `w` is `v` but for the counts and the bitmaps.
pub open spec fn settled(v: Vol, w: Vol) -> bool {
    &&& like(v.fs, w.fs)
    &&& held(w)
    &&& forall|x: int|
        inside(v.fs, x) && !counted(v.fs, x) && x != v.fs.inode_bitmap ==> #[trigger] blk(w, x) == blk(v, x)
}

/// Giving the blocks of a file back clears their marks and no others.
pub(crate) proof fn lemma_blocks_freed(v: Vol, i: InodeView)
    requires
        good(v.fs),
        held(v),
        tree(v, i),
    ensures
        blocks_freed(v, i).r is Ok,
        settled(v, blocks_freed(v, i).vol),
        blk(blocks_freed(v, i).vol, v.fs.inode_bitmap as int) == blk(v, v.fs.inode_bitmap as int),
        forall|b: int|
            1 <= b <= 8192 ==> #[trigger] in_use(blocks_freed(v, i).vol, b) == (in_use(v, b) && !owned(v, i, b)),
{
    reveal(blocks_freed);
    lemma_owned_list(v, i);
    let list = crate::ext2::owned(v, i)->Ok_0;
    let o = blocks_freed(v, i);
    assert forall|b: int| 1 <= b <= 8192 implies #[trigger] owned(v, i, b) == among(list, list.len() as int, b) by {
        if owned(v, i, b) {
            let p = choose|p: int| 0 <= p < places() && b != 0 && #[trigger] at(v, i, p) == b;
            assert(list.contains(at(v, i, p)));
            let k = choose|k: int| 0 <= k < list.len() && list[k] == at(v, i, p);
            assert(list[k] == b);
        }
        if among(list, list.len() as int, b) {
            let k = choose|k: int| 0 <= k < list.len() && #[trigger] list[k] == b;
            assert(list.contains(list[k]));
        }
    }
    if list.len() > 0 {
        let bb = v.fs.block_bitmap as int;
        lemma_block(v, bb);
        assert(all_in_map(list)) by {
            assert forall|k: int| 0 <= k < list.len() implies 1 <= #[trigger] list[k] <= 8192 by {
                assert(list.contains(list[k]));
                let p = choose|p: int| 0 <= p < places() && list[k] != 0 && #[trigger] at(v, i, p) == list[k];
                assert(inside(v.fs, at(v, i, p) as int));
            }
        }
        let bits = blk(v, bb);
        let n = list.len() as int;
        lemma_bits_freed(bits, list, n, 1);
        let (b, c) = bits_freed(bits, list, n);
        let more = Vol {
            fs: Ext2 { free_blocks: ((v.fs.free_blocks + c) % 0x1_0000_0000) as u32, ..v.fs },
            disk: v.disk,
        };
        assert forall|x: int| inside(v.fs, x) implies #[trigger] blk(more, x) == blk(v, x) by {}
        lemma_with_block(more, bb, b);
        assert forall|y: int| 1 <= y <= 8192 implies #[trigger] in_use(o.vol, y) == (in_use(v, y) && !owned(v, i, y)) by {
            lemma_bits_freed(bits, list, n, y);
            assert(blk(o.vol, bb) == b);
        }
        assert forall|x: int| inside(v.fs, x) && x != bb implies #[trigger] blk(o.vol, x) == blk(v, x) by {
            assert(blk(more, x) == blk(v, x));
        }
    } else {
        assert forall|y: int| 1 <= y <= 8192 implies #[trigger] in_use(o.vol, y) == (in_use(v, y) && !owned(v, i, y)) by {
            assert(owned(v, i, y) == among(list, 0, y));
        }
    }
}

/// Giving an inode back clears its mark and no other.
proof fn lemma_inode_freed(v: Vol, ino: u32)
    requires
        good(v.fs),
        held(v),
        ino >= 1,
        inode_freed(v, ino).r is Ok,
    ensures
        settled(v, inode_freed(v, ino).vol),
        blk(inode_freed(v, ino).vol, v.fs.block_bitmap as int) == blk(v, v.fs.block_bitmap as int),
        forall|n: int|
            1 <= n <= 8192 ==> #[trigger] ino_used(inode_freed(v, ino).vol, n) == (n != ino && ino_used(v, n)),
{
    reveal(inode_freed);
    let ib = v.fs.inode_bitmap as int;
    lemma_block(v, ib);
    let bits = blk(v, ib);
    let had = is_set(bits, ino - 1);
    let more = Vol {
        fs: Ext2 {
            free_inodes: if had {
                ((v.fs.free_inodes + 1) % 0x1_0000_0000) as u32
            } else {
                v.fs.free_inodes
            },
            ..v.fs
        },
        disk: v.disk,
    };
    let put = if had { without_bit(bits, ino - 1) } else { bits };
    assert forall|x: int| inside(v.fs, x) implies #[trigger] blk(more, x) == blk(v, x) by {}
    lemma_with_block(more, ib, put);
    let w = with_block(more, ib, put).vol;
    lemma_counts_synced(w);
    let o = inode_freed(v, ino);
    assert(o.vol == counts_synced(w).vol);
    assert forall|n: int| 1 <= n <= 8192 implies #[trigger] ino_used(o.vol, n) == (n != ino && ino_used(v, n)) by {
        assert(blk(w, ib) == put);
        law_clear_bit(bits, ino - 1, n - 1);
    }
    assert forall|x: int| inside(v.fs, x) && x != ib && x != 1 && x != 2 implies #[trigger] blk(o.vol, x) == blk(
        v,
        x,
    ) by {
        assert(blk(w, x) == blk(more, x));
    }
}

/// The inode table is as it was.
pub(crate) proof fn lemma_inodes_settled(v: Vol, w: Vol, n: u32)
    requires
        good(v.fs),
        held(v),
        settled(v, w),
    ensures
        inode(w, n) == inode(v, n),
{
    if numbered(v.fs, n) {
        let t = table_block(v.fs, n);
        lemma_block(v, t);
        lemma_block(w, t);
        assert(blk(w, t) == blk(v, t));
    }
}

/// A tree is as it was, but for its marks.
pub(crate) proof fn lemma_tree_settled(v: Vol, w: Vol, i: InodeView)
    requires
        good(v.fs),
        held(v),
        settled(v, w),
        tree(v, i),
    ensures
        tree_same(v, i, w),
        reached(w, i),
        dir_records(w, i) == dir_records(v, i),
{
    assert forall|p: int| 0 <= p < places() && #[trigger] at(v, i, p) != 0 implies blk(w, at(v, i, p) as int) == blk(
        v,
        at(v, i, p) as int,
    ) by {
        let x = at(v, i, p) as int;
        assert(inside(v.fs, x) && !own(v.fs, x));
    }
    assert forall|p: int| 0 <= p < places() && #[trigger] at(w, i, p) != 0 implies inside(
        w.fs,
        at(w, i, p) as int,
    ) by {
        lemma_at_kept(v, i, w, p);
        assert(at(v, i, p) != 0);
    }
    lemma_records_same(v, w, i, i.size as int / 1024);
}

/// The way to a directory that changed, on a volume that was settled then.
proof fn lemma_way_settled(v: Vol, path: Seq<char>, w: Vol, x: Vol, n: int)
    requires
        healthy(v, path),
        spread(v, path),
        0 <= n < parts(path).len(),
        writes(v, node_n(v, path, parts(path).len() - 1), w, node_n(v, path, parts(path).len() - 1)),
        settled(w, x),
    ensures
        node_upto(x, parts(path), n) == node_upto(v, parts(path), n),
    decreases n,
{
    let ps = parts(path);
    let l = ps.len() - 1;
    let dir = node_n(v, path, l);
    assert(node_upto(v, ps, l) is Ok);
    assert(node_upto(v, ps, n) is Ok);
    assert(tree(v, dir));
    lemma_node_is_inode(v, ps, n);
    lemma_way_beside(v, path, w, n);
    lemma_inodes_settled(w, x, node_n(v, path, n).ino);
    lemma_node_is_inode(w, ps, n);
    if n > 0 {
        lemma_way_settled(v, path, w, x, n - 1);
        lemma_way_beside(v, path, w, n - 1);
        assert(node_upto(v, ps, n - 1) is Ok);
        let d = node_n(v, path, n - 1);
        assert(tree(v, d));
        assert(d.ino != dir.ino && apart(v, d, dir));
        lemma_beside(v, dir, w, dir, d);
        lemma_tree_settled(w, x, d);
    }
}

/// A record that is made a free one.
proof fn lemma_freed_record(b: Seq<u8>, o: int, base: int)
    requires
        b.len() == 1024,
        0 <= o,
        o + 8 <= 1024,
        record_ok(b, o),
    ensures
        ({
            let c = splice(b, o, le32_bytes(0)).update(o + 6, 0);
            &&& c.len() == 1024
            &&& record_ok(c, o)
            &&& le16(c, o + 4) == le16(b, o + 4)
            &&& forall|x: int| 0 <= x < 1024 && !(o <= x < o + le16(b, o + 4)) ==> #[trigger] c[x] == b[x]
            &&& record_at(c, o, base) == free_record(record_at(b, o, base))
        }),
{
    let z = splice(b, o, le32_bytes(0));
    let c = z.update(o + 6, 0);
    law_le32_roundtrip(b, o, 0);
    assert(c[o] == z[o] && c[o + 1] == z[o + 1] && c[o + 2] == z[o + 2] && c[o + 3] == z[o + 3]);
    assert(c[o + 4] == b[o + 4] && c[o + 5] == b[o + 5]);
}

/// A free record in the place of `r`.
pub open spec fn free_record(r: Record) -> Record {
    Record { ino: 0, name: Seq::empty(), ..r }
}

/// A directory in which the record of an inode was made a free one.
pub(crate) proof fn lemma_record_removed(v: Vol, dir: InodeView, ino: u32)
    requires
        sound(v),
        tree(v, dir),
        record_home(v, dir, ino) is Ok,
    ensures
        ({
            let (r, phys, b) = record_home(v, dir, ino)->Ok_0;
            let o = r.offset % 1024;
            let w = with_block(v, phys as int, splice(b, o, le32_bytes(0)).update(o + 6, 0));
            let rs = dir_records(v, dir)->Ok_0;
            &&& dir_records(v, dir) is Ok
            &&& r == rs[record_of(rs, ino, 0)->0]
            &&& w.r is Ok
            &&& writes(v, dir, w.vol, dir)
            &&& dir_records(w.vol, dir) == Ok::<Seq<Record>, FsError>(changed(rs, r.offset, free_record(r)))
            &&& blk(w.vol, v.fs.block_bitmap as int) == blk(v, v.fs.block_bitmap as int)
            &&& blk(w.vol, v.fs.inode_bitmap as int) == blk(v, v.fs.inode_bitmap as int)
        }),
{
    let rs = dir_records(v, dir)->Ok_0;
    let k = record_of(rs, ino, 0)->0;
    lemma_record_of(rs, ino, 0);
    let r = rs[k];
    let kk = lemma_record_stands(v, dir, k);
    let o = r.offset % 1024;
    let b = blk(v, at(v, dir, place_of(r.offset / 1024)) as int);
    lemma_freed_record(b, o, r.offset - o);
    lemma_record_changed(v, dir, k, splice(b, o, le32_bytes(0)).update(o + 6, 0));
    let p = place_of(r.offset / 1024);
    lemma_places_apart(r.offset / 1024, r.offset / 1024);
    assert(!own(v.fs, at(v, dir, p) as int));
    assert(inside(v.fs, v.fs.block_bitmap as int) && inside(v.fs, v.fs.inode_bitmap as int));
}

/// The blocks that belong to an inode are the same where its tree is.
proof fn lemma_owned_kept(v: Vol, w: Vol, i: InodeView, b: int)
    requires
        tree_same(v, i, w),
    ensures
        owned(w, i, b) == owned(v, i, b),
{
    if owned(v, i, b) {
        let p = choose|p: int| 0 <= p < places() && b != 0 && #[trigger] at(v, i, p) == b;
        lemma_at_kept(v, i, w, p);
        assert(at(w, i, p) == b);
    }
    if owned(w, i, b) {
        let p = choose|p: int| 0 <= p < places() && b != 0 && #[trigger] at(w, i, p) == b;
        lemma_at_kept(v, i, w, p);
        assert(at(v, i, p) == b);
    }
}

/// The steps of a removal: the volume without the record, and the one in which
/// the blocks and the inode were given back.
pub(crate) proof fn lemma_unlinked(v: Vol, path: Seq<char>) -> (w: Vol)
    requires
        healthy(v, path),
        unlinked(v, path).r is Ok,
    ensures
        ({
            let x = unlinked(v, path).vol;
            let i = node_at(v, path)->Ok_0->0;
            let dir = node_n(v, path, parts(path).len() - 1);
            let r = record_of_path(v, path);
            &&& parts(path).len() >= 1
            &&& node_at(v, path) == Ok::<Option<InodeView>, FsError>(Some(i))
            &&& writes(v, dir, w, dir)
            &&& dir_records(v, dir) is Ok
            &&& dir_records(w, dir) == Ok::<Seq<Record>, FsError>(
                changed(siblings(v, path), r.offset, free_record(r)),
            )
            &&& settled(w, x)
            &&& tree(w, i)
            &&& tree_same(v, i, w)
            &&& forall|b: int| 1 <= b <= 8192 ==> #[trigger] in_use(x, b) == (in_use(v, b) && !owned(v, i, b))
            &&& forall|n: int| 1 <= n <= 8192 ==> #[trigger] ino_used(x, n) == (n != i.ino && ino_used(v, n))
        }),
{
    let i = node_at(v, path)->Ok_0->0;
    let l = parts(path).len() - 1;
    lemma_dir_upto(v, path, l);
    assert(node_upto(v, parts(path), l) is Ok);
    let dir = node_n(v, path, l);
    assert(tree(v, dir));
    lemma_record_removed(v, dir, i.ino);
    let (r, phys, b) = record_home(v, dir, i.ino)->Ok_0;
    let o = r.offset % 1024;
    let w = with_block(v, phys as int, splice(b, o, le32_bytes(0)).update(o + 6, 0)).vol;
    assert(apart(v, dir, i));
    lemma_apart_both(v, dir, i);
    lemma_beside(v, dir, w, dir, i);
    lemma_blocks_freed(w, i);
    let f = blocks_freed(w, i).vol;
    lemma_node_is_inode(v, parts(path), parts(path).len() as int);
    lemma_inode_freed(f, i.ino);
    let x = inode_freed(f, i.ino).vol;
    assert(unlinked(v, path).vol == x);
    assert forall|n: int| 1 <= n <= 8192 implies #[trigger] ino_used(x, n) == (n != i.ino && ino_used(v, n)) by {
        assert(ino_used(f, n) == ino_used(v, n));
    }
    assert forall|y: int| 1 <= y <= 8192 implies #[trigger] in_use(x, y) == (in_use(v, y) && !owned(v, i, y)) by {
        assert(in_use(x, y) == in_use(f, y));
        assert(in_use(w, y) == in_use(v, y));
        lemma_owned_kept(v, w, i, y);
    }
    w
}

/// A removed file is gone: its directory has a free record in the place of its
/// own and all others as they were, its blocks and its inode are marked as free
/// and no others, and unless another record has its name the path names nothing.
pub proof fn law_unlinked_is_gone(v: Vol, path: Seq<char>)
    requires
        healthy(v, path),
        spread(v, path),
        unlinked(v, path).r is Ok,
    ensures
        ({
            let x = unlinked(v, path).vol;
            let i = node_at(v, path)->Ok_0->0;
            let r = record_of_path(v, path);
            &&& siblings(x, path) == changed(siblings(v, path), r.offset, free_record(r))
            &&& forall|b: int| 1 <= b <= 8192 ==> #[trigger] in_use(x, b) == (in_use(v, b) && !owned(v, i, b))
            &&& forall|n: int| 1 <= n <= 8192 ==> #[trigger] ino_used(x, n) == (n != i.ino && ino_used(v, n))
            &&& sole(siblings(v, path), parts(path).last(), r.offset) ==> status(x, path) == Err::<FileStat, FsError>(
                FsError::NotFound,
            )
        }),
{
    let x = unlinked(v, path).vol;
    let w = lemma_unlinked(v, path);
    let l = parts(path).len() - 1;
    let dir = node_n(v, path, l);
    lemma_way_settled(v, path, w, x, l);
    assert(node_upto(v, parts(path), l) is Ok);
    lemma_tree_settled(w, x, dir);
    let r = record_of_path(v, path);
    if sole(siblings(v, path), parts(path).last(), r.offset) {
        lemma_name_gone(siblings(v, path), r.offset, free_record(r), parts(path).last(), 0);
    }
}

// ---------------------------------------------------------------------------
// New directories
// ---------------------------------------------------------------------------

/// The steps of setting a new directory up: its inode is taken in `a`, its
/// block in `x`, filled in `w`, and the inode saved in `y`.
pub open spec fn founds(v: Vol, up: u32, a: Vol, x: Vol, j: InodeView, phys: u32, w: Vol, y: Vol) -> bool {
    let t = inode_taken(v);
    let num = t.r->Ok_0;
    &&& t.r is Ok
    &&& a == t.vol
    &&& ensured(a, fresh_inode(num, MODE_DIR), 0) == (Res { vol: x, r: Ok::<(InodeView, u32), FsError>((j, phys)) })
    &&& w == with_block(x, phys as int, new_dir_block(num, up)).vol
    &&& y == with_inode(w, set_up(j)).vol
}

/// The inode of a new directory.
pub open spec fn set_up(j: InodeView) -> InodeView {
    InodeView { size: 1024, ..j }
}

pub(crate) proof fn lemma_founds(v: Vol, up: u32, a: Vol, x: Vol, j: InodeView, phys: u32, w: Vol, y: Vol) -> (td: Seq<u8>)
    requires
        sound(v),
        forall|n: int| v.fs.inodes_count < n <= 8192 ==> #[trigger] ino_used(v, n),
        founds(v, up, a, x, j, phys, w, y),
    ensures
        ({
            let num = inode_taken(v).r->Ok_0;
            let f = fresh_inode(num, MODE_DIR);
            let t = table_block(v.fs, num);
            let put = new_dir_block(num, up);
            &&& tree(a, f)
            &&& forall|q: int| 0 <= q ==> #[trigger] at(a, f, q) == 0
            &&& secures(a, f, 0, x, j, phys)
            &&& inside(v.fs, phys as int) && !in_use(a, phys as int)
            &&& block_set(x, w, phys as int, put)
            &&& writes(x, j, w, j)
            &&& with_block(x, phys as int, put).r is Ok
            &&& with_inode(w, set_up(j)).r is Ok
            &&& own(v.fs, t) && inside(v.fs, t) && t != v.fs.block_bitmap
            &&& block_set(w, y, t, td)
            &&& sound(y)
            &&& inode(y, num) == Ok::<InodeView, FsError>(set_up(j))
            &&& forall|n: u32| numbered(v.fs, n) && n != num ==> #[trigger] inode(y, n) == inode(w, n)
            &&& tree(y, set_up(j))
            &&& at(y, set_up(j), 0) == phys
            &&& forall|q: int| 0 <= q < places() ==> #[trigger] at(y, set_up(j), q) == at(x, j, q)
            &&& forall|b: int| 0 <= b <= 8192 ==> #[trigger] in_use(y, b) == in_use(w, b)
        }),
{
    lemma_inode_taken(v);
    let num = inode_taken(v).r->Ok_0;
    let f = fresh_inode(num, MODE_DIR);
    lemma_empty_tree(a, f);
    lemma_ensured(a, f, 0);
    assert(at(a, f, place_of(0)) == 0);
    assert(at(x, j, 0) == phys);
    assert(inside(x.fs, phys as int));
    let put = new_dir_block(num, up);
    lemma_record_put(blank(), 0, num, seq![0x2Eu8], 12);
    lemma_record_put(record_put(blank(), 0, num, seq![0x2Eu8], 12), 12, up, seq![0x2Eu8, 0x2Eu8], 1012);
    lemma_with_block(x, phys as int, put);
    lemma_data_block(x, j, w, 0, put);
    let i = set_up(j);
    lemma_with_inode(w, i);
    let t = table_block(w.fs, num);
    let td = choose|td: Seq<u8>| block_set(w, y, t, td);
    lemma_beside_own(w, y, t, td, j);
    lemma_tree_fields(y, j, i);
    assert forall|q: int| 0 <= q < places() implies #[trigger] at(y, i, q) == at(x, j, q) by {
        lemma_at_fields(y, j, i, q);
        assert(at(y, j, q) == at(w, j, q));
        lemma_at_data(x, j, w, 0, put, q);
    }
    td
}

/// A block in use before a new directory was set up is as it was, unless it is
/// one of the volume's own that keep counts.
proof fn lemma_founds_keeps(v: Vol, up: u32, a: Vol, x: Vol, j: InodeView, phys: u32, w: Vol, y: Vol, b: int)
    requires
        sound(v),
        forall|n: int| v.fs.inodes_count < n <= 8192 ==> #[trigger] ino_used(v, n),
        founds(v, up, a, x, j, phys, w, y),
        inside(v.fs, b),
        in_use(v, b),
        !counted(v.fs, b),
        b != v.fs.inode_bitmap,
    ensures
        blk(w, b) == blk(v, b),
        b != table_block(v.fs, inode_taken(v).r->Ok_0) ==> blk(y, b) == blk(v, b),
        in_use(y, b),
{
    let td = lemma_founds(v, up, a, x, j, phys, w, y);
    lemma_inode_taken(v);
    let f = fresh_inode(inode_taken(v).r->Ok_0, MODE_DIR);
    assert(blk(a, b) == blk(v, b));
    assert(in_use(a, b));
    assert(!tabled(a, f, b)) by {
        if tabled(a, f, b) {
            let p = choose|p: int| 0 <= p < places() && is_table(p) && b != 0 && #[trigger] at(a, f, p) == b;
            assert(at(a, f, p) == 0);
        }
    }
    assert(blk(x, b) == blk(a, b));
    assert(b != phys);
    assert(blk(w, b) == blk(x, b));
    assert(in_use(x, b));
    assert(in_use(w, b));
}

/// Setting a new directory up gives the volume a new inode and keeps the rest.
pub(crate) proof fn lemma_founds_enrols(v: Vol, up: u32, a: Vol, x: Vol, j: InodeView, phys: u32, w: Vol, y: Vol)
    requires
        sound(v),
        forall|n: int| v.fs.inodes_count < n <= 8192 ==> #[trigger] ino_used(v, n),
        founds(v, up, a, x, j, phys, w, y),
    ensures
        enrols(v, y, set_up(j)),
{
    let td = lemma_founds(v, up, a, x, j, phys, w, y);
    lemma_inode_taken(v);
    let num = inode_taken(v).r->Ok_0;
    assert(set_up(j).ino == num);
    assert forall|n: u32| numbered(v.fs, n) && n != num implies #[trigger] inode(y, n) == inode(v, n) by {
        let t = table_block(v.fs, n);
        assert(own(v.fs, t) && inside(v.fs, t));
        assert(in_use(v, t));
        lemma_founds_keeps(v, up, a, x, j, phys, w, y, t);
        lemma_block(v, t);
        lemma_block(w, t);
        assert(inode(y, n) == inode(w, n));
    }
    assert forall|b: int| 0 <= b <= 8192 && in_use(v, b) implies #[trigger] in_use(y, b) by {
        assert(in_use(a, b) == in_use(v, b));
        assert(in_use(x, b));
        assert(in_use(w, b));
    }
    assert forall|i: InodeView| #![trigger tree(v, i)] tree(v, i) implies tree(y, i) && tree_same(v, i, y) by {
        assert forall|p: int| 0 <= p < places() && #[trigger] at(v, i, p) != 0 implies blk(y, at(v, i, p) as int)
            == blk(v, at(v, i, p) as int) by {
            let b = at(v, i, p) as int;
            assert(inside(v.fs, b) && in_use(v, b) && !own(v.fs, b));
            lemma_founds_keeps(v, up, a, x, j, phys, w, y, b);
        }
        lemma_tree_kept(v, i, y);
    }
}

/// The records of a new directory name itself and the one above.
proof fn lemma_new_block(num: u32, up: u32)
    requires
        num != 0,
        up != 0,
    ensures
        ({
            let rs = block_records(new_dir_block(num, up), 0, 0);
            &&& rs is Ok
            &&& rs->Ok_0.len() == 2
            &&& rs->Ok_0[0].name == seq!['.']
            &&& rs->Ok_0[1].name == seq!['.', '.']
        }),
{
    let b1 = record_put(blank(), 0, num, seq![0x2Eu8], 12);
    let c = new_dir_block(num, up);
    lemma_record_put(blank(), 0, num, seq![0x2Eu8], 12);
    lemma_record_put(b1, 12, up, seq![0x2Eu8, 0x2Eu8], 1012);
    assert(c[0] == b1[0] && c[1] == b1[1] && c[2] == b1[2] && c[3] == b1[3]);
    assert(c[4] == b1[4] && c[5] == b1[5] && c[6] == b1[6]);
    assert(c.subrange(8, 9) =~= b1.subrange(8, 9));
    lemma_dots_shown();
    assert(record_ok(c, 0) && record_ok(c, 12));
    assert(block_records(c, 1024, 0) == Ok::<Seq<Record>, FsError>(Seq::empty()));
    assert(block_records(c, 12, 0) is Ok);
    assert(block_records(c, 12, 0)->Ok_0 =~= seq![record_at(c, 12, 0)]);
    assert(block_records(c, 0, 0)->Ok_0 =~= seq![record_at(c, 0, 0), record_at(c, 12, 0)]);
}

proof fn lemma_dots_shown()
    ensures
        shown(seq![0x2Eu8]) == seq!['.'],
        shown(seq![0x2Eu8, 0x2Eu8]) == seq!['.', '.'],
{
    let one = seq!['.'];
    let two = seq!['.', '.'];
    lemma_shown(one);
    lemma_shown(two);
    vstd::utf8::is_ascii_chars_encode_utf8(one);
    vstd::utf8::is_ascii_chars_encode_utf8(two);
    assert(one[0] == '.' && two[0] == '.' && two[1] == '.');
    assert(vstd::utf8::encode_utf8(one) =~= seq![0x2Eu8]);
    assert(vstd::utf8::encode_utf8(two) =~= seq![0x2Eu8, 0x2Eu8]);
}

/// A directory whose first and only block is a new one lists nothing.
proof fn lemma_lists_nothing(v: Vol, i: InodeView, num: u32, up: u32)
    requires
        good(v.fs),
        held(v),
        reached(v, i),
        i.size == 1024,
        at(v, i, 0) != 0,
        blk(v, at(v, i, 0) as int) == new_dir_block(num, up),
        num != 0,
        up != 0,
    ensures
        dir_records(v, i) is Ok,
        lines(v, dir_records(v, i)->Ok_0, dir_records(v, i)->Ok_0.len() as int) == Ok::<Seq<Line>, FsError>(
            Seq::empty(),
        ),
{
    lemma_new_block(num, up);
    lemma_mapped(v, i, 0);
    assert(place_of(0) == 0);
    let b = at(v, i, 0) as int;
    assert(inside(v.fs, b));
    lemma_block(v, b);
    let bs = block_records(new_dir_block(num, up), 0, 0)->Ok_0;
    assert(records(v, i, 0) == Ok::<Seq<Record>, FsError>(Seq::empty()));
    assert(records(v, i, 1) == Ok::<Seq<Record>, FsError>(Seq::<Record>::empty() + bs));
    assert(Seq::<Record>::empty() + bs =~= bs);
    assert(lines(v, bs, 0) == Ok::<Seq<Line>, FsError>(Seq::empty()));
    assert(lines(v, bs, 1) == Ok::<Seq<Line>, FsError>(Seq::empty()));
    assert(lines(v, bs, 2) == Ok::<Seq<Line>, FsError>(Seq::empty()));
}

/// A new tree shares no block with one that was there before.
proof fn lemma_fresh_apart(v: Vol, a: Vol, x: Vol, j: InodeView, y: Vol, i: InodeView, old_dir: InodeView, num: u32)
    requires
        tree(v, old_dir),
        good(v.fs),
        tree_same(v, old_dir, y),
        forall|b: int| 0 <= b <= 8192 ==> #[trigger] in_use(a, b) == in_use(v, b),
        forall|q: int| 0 <= q ==> #[trigger] at(a, fresh_inode(num, MODE_DIR), q) == 0,
        grows(a, fresh_inode(num, MODE_DIR), x, j),
        forall|q: int| 0 <= q < places() ==> #[trigger] at(y, i, q) == at(x, j, q),
    ensures
        apart(y, i, old_dir),
{
    assert forall|p: int, q: int|
        0 <= p < places() && 0 <= q < places() && #[trigger] at(y, i, p) != 0 implies at(y, i, p) != #[trigger] at(
        y,
        old_dir,
        q,
    ) by {
        lemma_at_kept(v, old_dir, y, q);
        let b = at(v, old_dir, q);
        assert(at(a, fresh_inode(num, MODE_DIR), p) == 0);
        assert(at(y, i, p) == at(x, j, p));
        if b != 0 {
            assert(inside(v.fs, b as int) && in_use(v, b as int));
            assert(in_use(a, b as int));
        }
    }
}

/// The new directory stays empty while it gets its name.
proof fn lemma_stays_empty(y: Vol, dir: InodeView, c: Vol, d2: InodeView, i: InodeView, phys: u32)
    requires
        rewrites(y, dir, c, d2),
        tree(y, i),
        apart(y, i, dir),
        i.size == 1024,
        at(y, i, 0) == phys,
        phys != 0,
        blk(y, phys as int) == new_dir_block(i.ino, dir.ino),
        i.ino != 0,
        dir.ino != 0,
    ensures
        dir_records(c, i) is Ok,
        lines(c, dir_records(c, i)->Ok_0, dir_records(c, i)->Ok_0.len() as int) == Ok::<Seq<Line>, FsError>(
            Seq::empty(),
        ),
{
    assert(tree(c, i) && tree_same(y, i, c));
    lemma_at_kept(y, i, c, 0);
    assert(blk(c, at(y, i, 0) as int) == blk(y, at(y, i, 0) as int));
    lemma_lists_nothing(c, i, i.ino, dir.ino);
}

/// The steps of making a directory.
proof fn lemma_dir_made(v: Vol, path: Seq<char>, a: Vol, x: Vol, j: InodeView, phys: u32, w: Vol, y: Vol)
    requires
        healthy(v, path),
        ready(v, path),
        parts(path).len() >= 1,
        node_at(v, path) == Ok::<Option<InodeView>, FsError>(None),
        founds(v, node_n(v, path, parts(path).len() - 1).ino, a, x, j, phys, w, y),
        vstd::utf8::encode_utf8(parts(path).last()).len() <= 255,
        name_added(
            y,
            node_n(v, path, parts(path).len() - 1),
            vstd::utf8::encode_utf8(parts(path).last()),
            j.ino,
        ).r is Ok,
    ensures
        ({
            let up = node_n(v, path, parts(path).len() - 1);
            let c = name_added(y, up, vstd::utf8::encode_utf8(parts(path).last()), j.ino).vol;
            &&& node_at(c, path) == Ok::<Option<InodeView>, FsError>(Some(set_up(j)))
            &&& dir_records(c, set_up(j)) is Ok
            &&& lines(c, dir_records(c, set_up(j))->Ok_0, dir_records(c, set_up(j))->Ok_0.len() as int) == Ok::<
                Seq<Line>,
                FsError,
            >(Seq::empty())
        }),
{
    let l = parts(path).len() - 1;
    let parent = node_n(v, path, l);
    let i = set_up(j);
    assert(node_upto(v, parts(path), l) is Ok);
    lemma_node_is_inode(v, parts(path), l);
    assert(tree(v, parent));
    let td = lemma_founds(v, parent.ino, a, x, j, phys, w, y);
    lemma_founds_enrols(v, parent.ino, a, x, j, phys, w, y);
    let d2 = lemma_entered(v, path, y, i);
    let c = name_added(y, parent, vstd::utf8::encode_utf8(parts(path).last()), i.ino).vol;
    lemma_entry_made(v, path, y, c, i, d2);
    lemma_inode_taken(v);
    lemma_fresh_apart(v, a, x, j, y, i, parent, i.ino);
    lemma_stays_empty(y, parent, c, d2, i, phys);
}

/// A new directory is there, and lists nothing.
pub proof fn law_made_directory_is_there(v: Vol, path: Seq<char>)
    requires
        healthy(v, path),
        ready(v, path),
        dir_made_at(v, path).r is Ok,
    ensures
        ({
            let c = dir_made_at(v, path).vol;
            &&& status(c, path) == Ok::<FileStat, FsError>(FileStat { size: 1024, is_dir: true })
            &&& listing(c, path) == Ok::<Seq<Line>, FsError>(Seq::empty())
        }),
{
    reveal(dir_made_at);
    let ps = parts(path);
    let l = ps.len() - 1;
    lemma_dir_upto(v, path, l);
    assert(node_upto(v, ps, l) is Ok);
    let parent = node_n(v, path, l);
    assert(dir_made_at(v, path) == dir_made(v, parent, ps.last()));
    let t = inode_taken(v);
    let num = t.r->Ok_0;
    let e = ensured(t.vol, fresh_inode(num, MODE_DIR), 0);
    let (j, phys) = e.r->Ok_0;
    let w = with_block(e.vol, phys as int, new_dir_block(num, parent.ino)).vol;
    let y = with_inode(w, set_up(j)).vol;
    assert(e.r is Ok);
    assert(founds(v, parent.ino, t.vol, e.vol, j, phys, w, y));
    let td = lemma_founds(v, parent.ino, t.vol, e.vol, j, phys, w, y);
    assert(j.ino == num);
    lemma_dir_made(v, path, t.vol, e.vol, j, phys, w, y);
}

} // verus!
