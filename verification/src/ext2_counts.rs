//! What every operation on an ext2 volume keeps: the free counts are what the
//! bitmaps say, in memory and on the disk, and with the volume's sectors at hand
//! nothing waits for another.
use vstd::prelude::*;

use crate::ata::{all_in, law_read_after_write};
use crate::bytes::{law_le16_roundtrip, law_le32_roundtrip, le16, le16_bytes, le32, le32_bytes, splice};
use crate::ext2::{
    all_in_map, bits_freed, blank, block, block_records, block_taken, blocks_freed, contents,
    counts_synced, data_put, dir_extended, dir_made, dir_made_at, dir_records, ensured, file_made,
    file_written, first_clear, fresh_inode, gathered, inode, inode_freed, inode_taken,
    is_set, law_clear_bit, law_set_bit, lines, listing, mounted, name_added, new_dir_block, node_at,
    node_upto, owned, parent_of, record_added, record_home, record_named, record_of,
    record_ok, record_put, record_renamed, records, renamed, roomy, slot_filled, span_of, status,
    table_block, table_filled, through, unlinked, with_bit, with_block, with_inode, without_bit,
    written, Ext2, InodeView, Record, Vol, MODE_DIR, MODE_REG, ROOT_INO,
};
use crate::ext2_laws::{
    apart, at, blk, block_set, founds, good, healthy, held, in_use, index_of, ino_used, inside,
    lemma_apart_both, lemma_beside, lemma_block, lemma_block_taken, lemma_blocks_freed,
    lemma_counts_synced, lemma_data_block, lemma_data_put, lemma_dir_upto, lemma_empty_tree,
    lemma_enrolled, lemma_ensured, lemma_file_made, lemma_first_clear, lemma_founds,
    lemma_founds_enrols, lemma_inode_taken, lemma_mapped, lemma_node_is_inode, lemma_owned_list,
    lemma_places_apart, lemma_record_of, lemma_record_removed, lemma_record_stands, lemma_roomy,
    lemma_slot_filled, lemma_table_filled, lemma_with_block, lemma_with_inode, like, longer, node_n,
    numbered, own, parts, place_of, reached, ready, set_up, sound, table_of, tree,
};
use crate::vfs::{fetched, is_pending, FsError};

verus! {

// ---------------------------------------------------------------------------
// Clear bits
// ---------------------------------------------------------------------------

/// How many of the first `n` bits are clear.
pub open spec fn clear_bits(bits: Seq<u8>, n: int) -> int
    decreases n,
{
    if n <= 0 {
        0
    } else {
        clear_bits(bits, n - 1) + if is_set(bits, n - 1) { 0int } else { 1 }
    }
}

proof fn lemma_clear_bounds(bits: Seq<u8>, n: int)
    requires
        0 <= n,
    ensures
        0 <= clear_bits(bits, n) <= n,
    decreases n,
{
    if n > 0 {
        lemma_clear_bounds(bits, n - 1);
    }
}

/// Marking a clear bit leaves one less.
proof fn lemma_one_less(bits: Seq<u8>, k: int, n: int)
    requires
        bits.len() == 1024,
        0 <= k < 8192,
        0 <= n <= 8192,
        !is_set(bits, k),
    ensures
        clear_bits(with_bit(bits, k), n) == clear_bits(bits, n) - if k < n { 1int } else { 0 },
    decreases n,
{
    if n > 0 {
        lemma_one_less(bits, k, n - 1);
        law_set_bit(bits, k, n - 1);
    }
}

/// Clearing a marked bit leaves one more.
proof fn lemma_one_more(bits: Seq<u8>, k: int, n: int)
    requires
        bits.len() == 1024,
        0 <= k < 8192,
        0 <= n <= 8192,
        is_set(bits, k),
    ensures
        clear_bits(without_bit(bits, k), n) == clear_bits(bits, n) + if k < n { 1int } else { 0 },
    decreases n,
{
    if n > 0 {
        lemma_one_more(bits, k, n - 1);
        law_clear_bit(bits, k, n - 1);
    }
}

// ---------------------------------------------------------------------------
// Counts
// ---------------------------------------------------------------------------

/// The counts are what the bitmaps say.
pub open spec fn counts_right(v: Vol) -> bool {
    &&& v.fs.free_blocks == clear_bits(blk(v, v.fs.block_bitmap as int), 8192)
    &&& v.fs.free_inodes == clear_bits(blk(v, v.fs.inode_bitmap as int), 8192)
}

/// The superblock and the group descriptor hold the counts.
pub open spec fn counts_saved(v: Vol) -> bool {
    &&& le32(blk(v, 1), 12) == v.fs.free_blocks
    &&& le32(blk(v, 1), 16) == v.fs.free_inodes
    &&& le16(blk(v, 2), 12) == v.fs.free_blocks as int % 0x1_0000
    &&& le16(blk(v, 2), 14) == v.fs.free_inodes as int % 0x1_0000
}

/// The counts are right, in memory and on the disk.
pub open spec fn tallied(v: Vol) -> bool {
    counts_right(v) && counts_saved(v)
}

/// A block that holds no count and no bitmap.
pub open spec fn uncounted(fs: Ext2, b: int) -> bool {
    b != 1 && b != 2 && b != fs.block_bitmap && b != fs.inode_bitmap
}

/// A change of a block that holds no count keeps the counts.
proof fn lemma_tally_kept(v: Vol, b: int, data: Seq<u8>)
    requires
        good(v.fs),
        held(v),
        inside(v.fs, b),
        uncounted(v.fs, b),
        data.len() == 1024,
    ensures
        with_block(v, b, data).r is Ok,
        counts_right(v) ==> counts_right(with_block(v, b, data).vol),
        counts_saved(v) ==> counts_saved(with_block(v, b, data).vol),
{
    lemma_with_block(v, b, data);
    let w = with_block(v, b, data).vol;
    assert(blk(w, 1) == blk(v, 1));
    assert(blk(w, 2) == blk(v, 2));
    assert(blk(w, v.fs.block_bitmap as int) == blk(v, v.fs.block_bitmap as int));
    assert(blk(w, v.fs.inode_bitmap as int) == blk(v, v.fs.inode_bitmap as int));
}

/// Syncing saves the counts.
proof fn lemma_counts_saved(v: Vol)
    requires
        good(v.fs),
        held(v),
    ensures
        counts_saved(counts_synced(v).vol),
        counts_right(v) ==> counts_right(counts_synced(v).vol),
{
    lemma_counts_synced(v);
    reveal(counts_synced);
    lemma_block(v, 1);
    let sb = blk(v, 1);
    let s1 = splice(sb, 12, le32_bytes(v.fs.free_blocks as int));
    let s2 = splice(s1, 16, le32_bytes(v.fs.free_inodes as int));
    law_le32_roundtrip(sb, 12, v.fs.free_blocks);
    law_le32_roundtrip(s1, 16, v.fs.free_inodes);
    assert(s2[12] == s1[12] && s2[13] == s1[13] && s2[14] == s1[14] && s2[15] == s1[15]);
    lemma_with_block(v, 1, s2);
    let w = with_block(v, 1, s2).vol;
    lemma_block(w, 2);
    let gd = blk(w, 2);
    let fb = v.fs.free_blocks as int % 0x1_0000;
    let fi = v.fs.free_inodes as int % 0x1_0000;
    let g1 = splice(gd, 12, le16_bytes(fb));
    let g2 = splice(g1, 14, le16_bytes(fi));
    law_le16_roundtrip(gd, 12, fb as u16);
    law_le16_roundtrip(g1, 14, fi as u16);
    assert(g2[12] == g1[12] && g2[13] == g1[13]);
    lemma_with_block(w, 2, g2);
    let x = with_block(w, 2, g2).vol;
    assert(blk(x, 1) == blk(w, 1));
    assert(blk(x, v.fs.block_bitmap as int) == blk(v, v.fs.block_bitmap as int));
    assert(blk(x, v.fs.inode_bitmap as int) == blk(v, v.fs.inode_bitmap as int));
}

/// Taking a block keeps the counts right.
proof fn lemma_block_tally(v: Vol)
    requires
        sound(v),
    ensures
        tallied(v) ==> tallied(block_taken(v).vol),
        !is_pending(block_taken(v).r),
{
    reveal(block_taken);
    let bb = v.fs.block_bitmap as int;
    lemma_block(v, bb);
    let bits = blk(v, bb);
    if v.fs.free_blocks != 0 && first_clear(bits, 0) is Some {
        lemma_first_clear(bits, 0);
        let k = first_clear(bits, 0)->0;
        let now = with_bit(bits, k);
        lemma_with_block(v, bb, now);
        let w = with_block(v, bb, now).vol;
        let less = Vol { fs: Ext2 { free_blocks: (v.fs.free_blocks - 1) as u32, ..v.fs }, disk: w.disk };
        assert forall|x: int| inside(v.fs, x) implies #[trigger] blk(less, x) == blk(w, x) by {}
        lemma_one_less(bits, k, 8192);
        assert(blk(less, bb) == blk(w, bb));
        assert(blk(less, v.fs.inode_bitmap as int) == blk(w, v.fs.inode_bitmap as int));
        assert(blk(w, v.fs.inode_bitmap as int) == blk(v, v.fs.inode_bitmap as int));
        assert(tallied(v) ==> counts_right(less));
        lemma_counts_synced(less);
        lemma_counts_saved(less);
        let s = counts_synced(less).vol;
        assert(!in_use(v, k + 1));
        assert(inside(v.fs, k + 1)) by {
            if k + 1 >= v.fs.blocks_count {
                assert(in_use(v, k + 1));
            }
        }
        assert(!own(v.fs, k + 1)) by {
            if own(v.fs, k + 1) {
                assert(in_use(v, k + 1));
            }
        }
        lemma_tally_kept(s, k + 1, blank());
    }
}

/// Taking an inode keeps the counts right.
proof fn lemma_inode_tally(v: Vol)
    requires
        sound(v),
    ensures
        tallied(v) ==> tallied(inode_taken(v).vol),
        !is_pending(inode_taken(v).r),
{
    reveal(inode_taken);
    let ib = v.fs.inode_bitmap as int;
    lemma_block(v, ib);
    let bits = blk(v, ib);
    if v.fs.free_inodes != 0 && first_clear(bits, 0) is Some {
        lemma_first_clear(bits, 0);
        let k = first_clear(bits, 0)->0;
        let now = with_bit(bits, k);
        lemma_with_block(v, ib, now);
        let w = with_block(v, ib, now).vol;
        let less = Vol { fs: Ext2 { free_inodes: (v.fs.free_inodes - 1) as u32, ..v.fs }, disk: w.disk };
        assert forall|x: int| inside(v.fs, x) implies #[trigger] blk(less, x) == blk(w, x) by {}
        lemma_one_less(bits, k, 8192);
        assert(blk(less, ib) == blk(w, ib));
        assert(blk(less, v.fs.block_bitmap as int) == blk(w, v.fs.block_bitmap as int));
        assert(blk(w, v.fs.block_bitmap as int) == blk(v, v.fs.block_bitmap as int));
        assert(tallied(v) ==> counts_right(less));
        lemma_counts_synced(less);
        lemma_counts_saved(less);
    }
}

// ---------------------------------------------------------------------------
// Trees
// ---------------------------------------------------------------------------

proof fn lemma_slot_tally(v: Vol, i: InodeView, p: int)
    requires
        sound(v),
    ensures
        tallied(v) ==> tallied(slot_filled(v, i, p).vol),
        !is_pending(slot_filled(v, i, p).r),
{
    reveal(slot_filled);
    lemma_block_tally(v);
}

proof fn lemma_table_tally(v: Vol, i: InodeView, t: u32, k: int)
    requires
        sound(v),
        inside(v.fs, t as int),
        in_use(v, t as int),
        !own(v.fs, t as int),
        0 <= k < 256,
    ensures
        tallied(v) ==> tallied(table_filled(v, i, t, k).vol),
        !is_pending(table_filled(v, i, t, k).r),
{
    reveal(table_filled);
    lemma_block(v, t as int);
    lemma_block_tally(v);
    if le32(blk(v, t as int), 4 * k) == 0 && block_taken(v).r is Ok {
        lemma_block_taken(v);
        let nb = block_taken(v).r->Ok_0;
        lemma_tally_kept(
            block_taken(v).vol,
            t as int,
            splice(blk(v, t as int), 4 * k, le32_bytes(nb as int)),
        );
    }
}

proof fn lemma_ensured_tally(v: Vol, i: InodeView, k: int)
    requires
        sound(v),
        tree(v, i),
        0 <= k,
    ensures
        tallied(v) ==> tallied(ensured(v, i, k).vol),
        !is_pending(ensured(v, i, k).r),
{
    reveal(ensured);
    if k < 12 {
        lemma_slot_tally(v, i, k);
    } else if k < 268 {
        let a = slot_filled(v, i, 12);
        lemma_slot_tally(v, i, 12);
        if a.r is Ok {
            lemma_slot_filled(v, i, 12);
            let (m, im) = (a.vol, a.r->Ok_0.0);
            assert(at(m, im, 12) != 0);
            lemma_table_tally(m, im, at(m, im, 12), k - 12);
        }
    } else if k < 268 + 65536 {
        let a = slot_filled(v, i, 13);
        lemma_slot_tally(v, i, 13);
        if a.r is Ok {
            lemma_slot_filled(v, i, 13);
            let (m1, i1) = (a.vol, a.r->Ok_0.0);
            assert(at(m1, i1, 13) != 0);
            let mid = (k - 268) / 256;
            let t = 270 + mid;
            assert(table_of(t) == 13 && index_of(t) == mid);
            lemma_table_tally(m1, i1, at(m1, i1, 13), mid);
            let b = table_filled(m1, i1, at(m1, i1, 13), mid);
            assert(through(a, mid) == b);
            if b.r is Ok {
                lemma_table_filled(m1, i1, t);
                let (m2, i2) = (b.vol, b.r->Ok_0.0);
                assert(at(m2, i2, t) != 0);
                lemma_table_tally(m2, i2, at(m2, i2, t), (k - 268) % 256);
            }
        }
    }
}

proof fn lemma_with_inode_tally(v: Vol, i: InodeView)
    requires
        sound(v),
        numbered(v.fs, i.ino),
        i.blocks.len() == 15,
    ensures
        tallied(v) ==> tallied(with_inode(v, i).vol),
        !is_pending(with_inode(v, i).r),
{
    lemma_with_inode(v, i);
    let w = with_inode(v, i).vol;
    let t = table_block(v.fs, i.ino);
    let d = choose|d: Seq<u8>| block_set(v, w, t, d);
    assert(uncounted(v.fs, t));
    assert(blk(w, 1) == blk(v, 1));
    assert(blk(w, 2) == blk(v, 2));
    assert(blk(w, v.fs.block_bitmap as int) == blk(v, v.fs.block_bitmap as int));
    assert(blk(w, v.fs.inode_bitmap as int) == blk(v, v.fs.inode_bitmap as int));
}

proof fn lemma_data_tally(v: Vol, i: InodeView, pos: int, data: Seq<u8>)
    requires
        sound(v),
        tree(v, i),
        0 <= pos,
    ensures
        tallied(v) ==> tallied(data_put(v, i, pos, data).vol),
        !is_pending(data_put(v, i, pos, data).r),
    decreases data.len(),
{
    let room = 1024 - pos % 1024;
    let take = if room < data.len() { room } else { data.len() as int };
    if data.len() > 0 {
        let n = pos / 1024;
        lemma_ensured_tally(v, i, n);
        let x = ensured(v, i, n);
        if x.r is Ok {
            lemma_ensured(v, i, n);
            let (v1, i1, phys) = (x.vol, x.r->Ok_0.0, x.r->Ok_0.1);
            lemma_places_apart(n, n);
            assert(at(v1, i1, place_of(n)) == phys);
            assert(inside(v1.fs, phys as int) && !own(v1.fs, phys as int));
            lemma_block(v1, phys as int);
            let old = blk(v1, phys as int);
            let new = if take < 1024 { splice(old, pos % 1024, data.take(take)) } else { data.take(take) };
            assert(new.len() == 1024);
            lemma_tally_kept(v1, phys as int, new);
            lemma_with_block(v1, phys as int, new);
            let w1 = with_block(v1, phys as int, new).vol;
            lemma_data_block(v1, i1, w1, n, new);
            lemma_data_tally(w1, i1, pos + take, data.skip(take));
        }
    }
}

proof fn lemma_block_records_answer(b: Seq<u8>, o: int, base: int)
    ensures
        !is_pending(block_records(b, o, base)),
    decreases 1024 - o,
{
    if o + 8 <= 1024 && record_ok(b, o) {
        lemma_block_records_answer(b, o + le16(b, o + 4), base);
    }
}

/// The records of a directory are read without waiting.
proof fn lemma_records_answer(v: Vol, dir: InodeView, n: int)
    requires
        good(v.fs),
        held(v),
        reached(v, dir),
    ensures
        !is_pending(records(v, dir, n)),
    decreases n,
{
    if n > 0 {
        lemma_records_answer(v, dir, n - 1);
        if n - 1 < 65804 {
            lemma_mapped(v, dir, n - 1);
            lemma_places_apart(n - 1, n - 1);
            let b = at(v, dir, place_of(n - 1));
            if b != 0 {
                assert(inside(v.fs, b as int));
                lemma_block(v, b as int);
                lemma_block_records_answer(blk(v, b as int), 0, 1024 * (n - 1));
            }
        }
    }
}

proof fn lemma_roomy_answers(rs: Seq<Record>, need: int, k: int)
    ensures
        !is_pending(roomy(rs, need, k)),
    decreases rs.len() - k,
{
    if k < rs.len() {
        lemma_roomy_answers(rs, need, k + 1);
    }
}

proof fn lemma_name_tally(v: Vol, dir: InodeView, name: Seq<u8>, target: u32)
    requires
        sound(v),
        tree(v, dir),
        numbered(v.fs, dir.ino),
        name.len() <= 255,
    ensures
        tallied(v) ==> tallied(name_added(v, dir, name, target).vol),
        !is_pending(name_added(v, dir, name, target).r),
{
    lemma_records_answer(v, dir, dir.size as int / 1024);
    if dir_records(v, dir) is Ok {
        let rs = dir_records(v, dir)->Ok_0;
        lemma_roomy_answers(rs, span_of(name.len() as int), 0);
        let room = roomy(rs, span_of(name.len() as int), 0);
        if let Ok(Some(k)) = room {
            lemma_roomy(rs, span_of(name.len() as int), 0);
            let kk = lemma_record_stands(v, dir, k);
            let phys = at(v, dir, place_of(rs[k].offset / 1024));
            let b = blk(v, phys as int);
            lemma_places_apart(rs[k].offset / 1024, rs[k].offset / 1024);
            assert(!own(v.fs, phys as int));
            lemma_tally_kept(v, phys as int, record_added(b, rs[k], name, target));
        } else if room is Ok {
            lemma_extended_tally(v, dir, name, target);
        }
    }
}

proof fn lemma_extended_tally(v: Vol, dir: InodeView, name: Seq<u8>, target: u32)
    requires
        sound(v),
        tree(v, dir),
        numbered(v.fs, dir.ino),
        name.len() <= 255,
    ensures
        tallied(v) ==> tallied(dir_extended(v, dir, name, target).vol),
        !is_pending(dir_extended(v, dir, name, target).r),
{
    let n = dir.size as int / 1024;
    lemma_ensured_tally(v, dir, n);
    let x = ensured(v, dir, n);
    if x.r is Ok {
        lemma_ensured(v, dir, n);
        let (d, phys) = x.r->Ok_0;
        lemma_places_apart(n, n);
        assert(at(x.vol, d, place_of(n)) == phys);
        assert(inside(x.vol.fs, phys as int) && !own(x.vol.fs, phys as int));
        lemma_with_inode_tally(x.vol, longer(d));
        lemma_with_inode(x.vol, longer(d));
        let w = with_inode(x.vol, longer(d)).vol;
        lemma_tally_kept(w, phys as int, record_put(blank(), 0, target, name, 1024));
    }
}

// ---------------------------------------------------------------------------
// New entries
// ---------------------------------------------------------------------------

proof fn lemma_file_made_tally(v: Vol, parent: InodeView, name: Seq<char>)
    requires
        sound(v),
        forall|n: int| v.fs.inodes_count < n <= 8192 ==> #[trigger] ino_used(v, n),
        tree(v, parent),
        numbered(v.fs, parent.ino),
    ensures
        tallied(v) ==> tallied(file_made(v, parent, name).vol),
        !is_pending(file_made(v, parent, name).r),
{
    let bytes = vstd::utf8::encode_utf8(name);
    if bytes.len() <= 255 {
        lemma_inode_tally(v);
        if inode_taken(v).r is Ok {
            lemma_inode_taken(v);
            let a = inode_taken(v).vol;
            let num = inode_taken(v).r->Ok_0;
            let fresh = fresh_inode(num, MODE_REG);
            lemma_with_inode_tally(a, fresh);
            lemma_enrolled(v);
            lemma_name_tally(with_inode(a, fresh).vol, parent, bytes, num);
        }
    }
}

proof fn lemma_dir_made_tally(v: Vol, parent: InodeView, name: Seq<char>)
    requires
        sound(v),
        forall|n: int| v.fs.inodes_count < n <= 8192 ==> #[trigger] ino_used(v, n),
        tree(v, parent),
        numbered(v.fs, parent.ino),
    ensures
        tallied(v) ==> tallied(dir_made(v, parent, name).vol),
        !is_pending(dir_made(v, parent, name).r),
{
    let bytes = vstd::utf8::encode_utf8(name);
    if bytes.len() <= 255 {
        lemma_inode_tally(v);
        if inode_taken(v).r is Ok {
            lemma_inode_taken(v);
            let a = inode_taken(v).vol;
            let num = inode_taken(v).r->Ok_0;
            let f = fresh_inode(num, MODE_DIR);
            lemma_empty_tree(a, f);
            lemma_ensured_tally(a, f, 0);
            let x = ensured(a, f, 0);
            if x.r is Ok {
                let (j, phys) = x.r->Ok_0;
                let w = with_block(x.vol, phys as int, new_dir_block(num, parent.ino)).vol;
                let y = with_inode(w, set_up(j)).vol;
                assert(founds(v, parent.ino, a, x.vol, j, phys, w, y));
                lemma_founded_tally(v, parent.ino, a, x.vol, j, phys, w, y);
                lemma_founds_enrols(v, parent.ino, a, x.vol, j, phys, w, y);
                lemma_name_tally(y, parent, bytes, num);
            }
        }
    }
}

/// Setting a new directory up keeps the counts right.
proof fn lemma_founded_tally(v: Vol, up: u32, a: Vol, x: Vol, j: InodeView, phys: u32, w: Vol, y: Vol)
    requires
        sound(v),
        forall|n: int| v.fs.inodes_count < n <= 8192 ==> #[trigger] ino_used(v, n),
        founds(v, up, a, x, j, phys, w, y),
    ensures
        with_block(x, phys as int, new_dir_block(inode_taken(v).r->Ok_0, up)).r is Ok,
        with_inode(w, set_up(j)).r is Ok,
        tallied(x) ==> tallied(w) && tallied(y),
{
    let num = inode_taken(v).r->Ok_0;
    let td = lemma_founds(v, up, a, x, j, phys, w, y);
    lemma_inode_taken(v);
    assert(at(x, j, 0) == phys);
    assert(inside(x.fs, phys as int) && !own(x.fs, phys as int));
    lemma_tally_kept(x, phys as int, new_dir_block(num, up));
    lemma_with_inode_tally(w, set_up(j));
}

// ---------------------------------------------------------------------------
// Lookups
// ---------------------------------------------------------------------------

proof fn lemma_inode_answers(v: Vol, n: u32)
    requires
        good(v.fs),
        held(v),
    ensures
        !is_pending(inode(v, n)),
{
    if numbered(v.fs, n) {
        lemma_block(v, table_block(v.fs, n));
    }
}

proof fn lemma_node_answers(v: Vol, path: Seq<char>)
    requires
        healthy(v, path),
    ensures
        !is_pending(node_at(v, path)),
{
    let ps = parts(path);
    let l = ps.len() - 1;
    if l >= 0 {
        assert(node_upto(v, ps, l) is Ok);
        let dir = node_n(v, path, l);
        assert(tree(v, dir));
        lemma_records_answer(v, dir, dir.size as int / 1024);
        if let Ok(rs) = dir_records(v, dir) {
            if let Some(r) = record_named(rs, ps.last(), 0) {
                lemma_inode_answers(v, r.ino);
            }
        }
    } else {
        lemma_inode_answers(v, ROOT_INO);
    }
}

proof fn lemma_home_answers(v: Vol, path: Seq<char>, ino: u32)
    requires
        healthy(v, path),
        parts(path).len() >= 1,
    ensures
        parent_of(v, path) == Ok::<(InodeView, Seq<char>), FsError>(
            (node_n(v, path, parts(path).len() - 1), parts(path).last()),
        ),
        !is_pending(dir_records(v, node_n(v, path, parts(path).len() - 1))),
        !is_pending(record_home(v, node_n(v, path, parts(path).len() - 1), ino)),
{
    let l = parts(path).len() - 1;
    lemma_dir_upto(v, path, l);
    assert(node_upto(v, parts(path), l) is Ok);
    let dir = node_n(v, path, l);
    assert(tree(v, dir));
    lemma_records_answer(v, dir, dir.size as int / 1024);
    if let Ok(rs) = dir_records(v, dir) {
        if record_of(rs, ino, 0) is Some {
            lemma_record_of(rs, ino, 0);
            let kk = lemma_record_stands(v, dir, record_of(rs, ino, 0)->0);
        }
    }
}

proof fn lemma_rename_answers(v: Vol, from: Seq<char>, to: Seq<char>)
    requires
        healthy(v, from),
        healthy(v, to),
        node_at(v, from) is Ok && node_at(v, from)->Ok_0 is Some,
    ensures
        !is_pending(renamed(v, from, to).r),
{
    let i = node_at(v, from)->Ok_0->0;
    lemma_node_answers(v, to);
    if parts(from).len() >= 1 && parts(to).len() >= 1 {
        lemma_home_answers(v, from, i.ino);
        lemma_home_answers(v, to, i.ino);
    }
}

proof fn lemma_gathered_answers(v: Vol, i: InodeView, pos: int, end: int)
    requires
        good(v.fs),
        held(v),
        reached(v, i),
        0 <= pos,
    ensures
        !is_pending(gathered(v, i, pos, end)),
    decreases end - pos,
{
    if pos < end {
        let n = pos / 1024;
        let room = 1024 - pos % 1024;
        let take = if room < end - pos { room } else { end - pos };
        lemma_gathered_answers(v, i, pos + take, end);
        if n < 65804 {
            lemma_mapped(v, i, n);
            lemma_places_apart(n, n);
            let b = at(v, i, place_of(n));
            if b != 0 {
                assert(inside(v.fs, b as int));
                lemma_block(v, b as int);
            }
        }
    }
}

proof fn lemma_lines_answer(v: Vol, rs: Seq<Record>, n: int)
    requires
        good(v.fs),
        held(v),
    ensures
        !is_pending(lines(v, rs, n)),
    decreases n,
{
    if n > 0 {
        lemma_lines_answer(v, rs, n - 1);
        lemma_inode_answers(v, rs[n - 1].ino);
    }
}

// ---------------------------------------------------------------------------
// Laws
// ---------------------------------------------------------------------------

proof fn lemma_file_tally(v: Vol, i: InodeView, off: int, data: Seq<u8>)
    requires
        sound(v),
        tree(v, i),
        numbered(v.fs, i.ino),
        0 <= off,
        data.len() >= 1,
    ensures
        tallied(v) ==> tallied(file_written(v, i, off, data).vol),
        !is_pending(file_written(v, i, off, data).r),
{
    lemma_data_tally(v, i, off, data);
    let p = data_put(v, i, off, data);
    if let Ok(j) = p.r {
        assert(off / 1024 < 65804) by {
            assert(ensured(v, i, off / 1024).r is Ok);
            lemma_ensured(v, i, off / 1024);
        }
        lemma_data_put(v, i, off, data);
        let end = off + data.len();
        let k = if end > j.size { InodeView { size: end as u32, ..j } } else { j };
        lemma_with_inode_tally(p.vol, k);
    }
}

/// A write leaves the counts right, whether it succeeds or not, and with the
/// sectors of the volume at hand waits for no other.
pub proof fn law_write_keeps_counts(v: Vol, path: Seq<char>, off: int, data: Seq<u8>)
    requires
        healthy(v, path),
        node_at(v, path) == Ok::<Option<InodeView>, FsError>(None) ==> ready(v, path),
        0 <= off,
    ensures
        tallied(v) ==> tallied(written(v, path, off, data).vol),
        !is_pending(written(v, path, off, data).r),
{
    reveal(written);
    lemma_node_answers(v, path);
    let ps = parts(path);
    let l = ps.len() - 1;
    match node_at(v, path) {
        Ok(Some(i)) => {
            lemma_node_is_inode(v, ps, ps.len() as int);
            if data.len() > 0 && !i.is_dir() {
                lemma_file_tally(v, i, off, data);
            }
        },
        Ok(None) => {
            lemma_dir_upto(v, path, l);
            assert(node_upto(v, ps, l) is Ok);
            lemma_node_is_inode(v, ps, l);
            let parent = node_n(v, path, l);
            lemma_file_made_tally(v, parent, ps.last());
            let m = file_made(v, parent, ps.last());
            if data.len() > 0 && m.r is Ok {
                lemma_file_made(v, path);
                lemma_node_is_inode(m.vol, ps, ps.len() as int);
                lemma_file_tally(m.vol, m.r->Ok_0, off, data);
            }
        },
        _ => {},
    }
}

/// Making a directory leaves the counts right, whether it succeeds or not, and
/// with the sectors of the volume at hand waits for no other.
pub proof fn law_mkdir_keeps_counts(v: Vol, path: Seq<char>)
    requires
        healthy(v, path),
        node_at(v, path) == Ok::<Option<InodeView>, FsError>(None) ==> ready(v, path),
    ensures
        tallied(v) ==> tallied(dir_made_at(v, path).vol),
        !is_pending(dir_made_at(v, path).r),
{
    reveal(dir_made_at);
    lemma_node_answers(v, path);
    let ps = parts(path);
    let l = ps.len() - 1;
    if node_at(v, path) == Ok::<Option<InodeView>, FsError>(None) {
        lemma_dir_upto(v, path, l);
        assert(node_upto(v, ps, l) is Ok);
        lemma_node_is_inode(v, ps, l);
        lemma_dir_made_tally(v, node_n(v, path, l), ps.last());
    }
}

/// The block of a directory that holds the record of an inode.
proof fn lemma_home(v: Vol, dir: InodeView, ino: u32)
    requires
        sound(v),
        tree(v, dir),
        record_home(v, dir, ino) is Ok,
    ensures
        ({
            let (r, phys, b) = record_home(v, dir, ino)->Ok_0;
            &&& inside(v.fs, phys as int)
            &&& !own(v.fs, phys as int)
            &&& b.len() == 1024
            &&& 0 <= r.offset % 1024
            &&& r.offset % 1024 + 8 <= 1024
        }),
{
    let rs = dir_records(v, dir)->Ok_0;
    lemma_record_of(rs, ino, 0);
    let k = record_of(rs, ino, 0)->0;
    let kk = lemma_record_stands(v, dir, k);
    let m = rs[k].offset / 1024;
    lemma_places_apart(m, m);
    assert(!own(v.fs, at(v, dir, place_of(m)) as int));
}

/// Renaming leaves the counts right, whether it succeeds or not, and with the
/// sectors of the volume at hand waits for no other.
pub proof fn law_rename_keeps_counts(v: Vol, from: Seq<char>, to: Seq<char>)
    requires
        healthy(v, from),
    ensures
        tallied(v) ==> tallied(renamed(v, from, to).vol),
        healthy(v, to) ==> !is_pending(renamed(v, from, to).r),
{
    lemma_node_answers(v, from);
    if healthy(v, to) && node_at(v, from) is Ok && node_at(v, from)->Ok_0 is Some {
        lemma_rename_answers(v, from, to);
    }
    if renamed(v, from, to).vol != v {
        let l = parts(from).len() - 1;
        lemma_dir_upto(v, from, l);
        assert(node_upto(v, parts(from), l) is Ok);
        let dir = node_n(v, from, l);
        assert(tree(v, dir));
        let i = node_at(v, from)->Ok_0->0;
        let name = vstd::utf8::encode_utf8(parts(to).last());
        assert(renamed(v, from, to) == record_renamed(v, dir, i.ino, name));
        lemma_home(v, dir, i.ino);
        let (r, phys, b) = record_home(v, dir, i.ino)->Ok_0;
        let o = r.offset % 1024;
        lemma_tally_kept(v, phys as int, splice(b.update(o + 6, name.len() as u8), o + 8, name));
    }
}

/// Clearing the bits of a list leaves as many more as it counts.
proof fn lemma_freed_count(bits: Seq<u8>, list: Seq<u32>, n: int)
    requires
        bits.len() == 1024,
        all_in_map(list),
        0 <= n <= list.len(),
    ensures
        bits_freed(bits, list, n).0.len() == 1024,
        clear_bits(bits_freed(bits, list, n).0, 8192) == clear_bits(bits, 8192) + bits_freed(bits, list, n).1,
    decreases n,
{
    if n > 0 {
        lemma_freed_count(bits, list, n - 1);
        let b = bits_freed(bits, list, n - 1).0;
        let k = list[n - 1] - 1;
        assert(1 <= list[n - 1] <= 8192);
        if is_set(b, k) {
            lemma_one_more(b, k, 8192);
        }
    }
}

/// Giving the blocks of a file back leaves the counts in memory right.
proof fn lemma_blocks_tally(v: Vol, i: InodeView)
    requires
        sound(v),
        tree(v, i),
    ensures
        counts_right(v) ==> counts_right(blocks_freed(v, i).vol),
{
    reveal(blocks_freed);
    lemma_owned_list(v, i);
    let list = owned(v, i)->Ok_0;
    if list.len() > 0 {
        let bb = v.fs.block_bitmap as int;
        lemma_block(v, bb);
        let bits = blk(v, bb);
        if all_in_map(list) {
            let n = list.len() as int;
            lemma_freed_count(bits, list, n);
            let (b, c) = bits_freed(bits, list, n);
            lemma_clear_bounds(b, 8192);
            lemma_clear_bounds(bits, 8192);
            let more = Vol {
                fs: Ext2 { free_blocks: ((v.fs.free_blocks + c) % 0x1_0000_0000) as u32, ..v.fs },
                disk: v.disk,
            };
            assert forall|x: int| inside(v.fs, x) implies #[trigger] blk(more, x) == blk(v, x) by {}
            lemma_with_block(more, bb, b);
            let w = with_block(more, bb, b).vol;
            let ib = v.fs.inode_bitmap as int;
            assert(inside(v.fs, ib));
            assert(blk(w, ib) == blk(more, ib));
            assert(blk(w, bb) == b);
        }
    }
}

/// Giving an inode back leaves the counts right.
proof fn lemma_inode_back_tally(v: Vol, ino: u32)
    requires
        good(v.fs),
        held(v),
        1 <= ino,
    ensures
        counts_right(v) && ino <= 8192 ==> tallied(inode_freed(v, ino).vol),
        !is_pending(inode_freed(v, ino).r),
{
    reveal(inode_freed);
    let ib = v.fs.inode_bitmap as int;
    let bb = v.fs.block_bitmap as int;
    lemma_block(v, ib);
    let bits = blk(v, ib);
    let had = is_set(bits, ino - 1);
    let more = Vol {
        fs: Ext2 {
            free_inodes: if had {
                ((v.fs.free_inodes + 1) % 0x1_0000_0000) as u32
            } else {
                v.fs.free_inodes
            },
            ..v.fs
        },
        disk: v.disk,
    };
    let put = if had { without_bit(bits, ino - 1) } else { bits };
    if ino <= 8192 {
        if had {
            lemma_one_more(bits, ino - 1, 8192);
        }
        lemma_clear_bounds(bits, 8192);
        lemma_clear_bounds(put, 8192);
        assert forall|x: int| inside(v.fs, x) implies #[trigger] blk(more, x) == blk(v, x) by {}
        lemma_with_block(more, ib, put);
        let w = with_block(more, ib, put).vol;
        assert(inside(v.fs, bb));
        assert(blk(w, bb) == blk(more, bb));
        assert(blk(w, ib) == put);
        lemma_counts_synced(w);
        lemma_counts_saved(w);
    }
}

/// Removing a file leaves the counts right, whether it succeeds or not, on a
/// volume whose inodes all have a bit. With the sectors of the volume at hand it
/// waits for no other.
pub proof fn law_unlink_keeps_counts(v: Vol, path: Seq<char>)
    requires
        healthy(v, path),
    ensures
        tallied(v) && v.fs.inodes_count <= 8192 ==> tallied(unlinked(v, path).vol),
        !is_pending(unlinked(v, path).r),
{
    lemma_node_answers(v, path);
    if node_at(v, path) is Ok && node_at(v, path)->Ok_0 is Some && parts(path).len() >= 1 {
        lemma_home_answers(v, path, (node_at(v, path)->Ok_0->0).ino);
    }
    let i = node_at(v, path)->Ok_0->0;
    let l = parts(path).len() - 1;
    let dir = node_n(v, path, l);
    if node_at(v, path) is Ok && node_at(v, path)->Ok_0 is Some && !i.is_dir() && l >= 0
        && record_home(v, dir, i.ino) is Ok {
        lemma_dir_upto(v, path, l);
        assert(node_upto(v, parts(path), l) is Ok);
        assert(tree(v, dir));
        lemma_home(v, dir, i.ino);
        let (r, phys, b) = record_home(v, dir, i.ino)->Ok_0;
        let o = r.offset % 1024;
        let put = splice(b, o, le32_bytes(0)).update(o + 6, 0);
        lemma_tally_kept(v, phys as int, put);
        lemma_record_removed(v, dir, i.ino);
        let w = with_block(v, phys as int, put).vol;
        assert(apart(v, dir, i));
        lemma_apart_both(v, dir, i);
        lemma_beside(v, dir, w, dir, i);
        lemma_blocks_tally(w, i);
        lemma_blocks_freed(w, i);
        lemma_node_is_inode(v, parts(path), parts(path).len() as int);
        lemma_inode_back_tally(blocks_freed(w, i).vol, i.ino);
    }
}

/// With the sectors of a healthy volume at hand, no question about a path waits
/// for another.
pub proof fn law_held_volume_answers(v: Vol, path: Seq<char>, off: int, n: int)
    requires
        healthy(v, path),
        0 <= off,
    ensures
        !is_pending(status(v, path)),
        !is_pending(listing(v, path)),
        !is_pending(contents(v, path, off, n)),
{
    lemma_node_answers(v, path);
    if let Ok(Some(i)) = node_at(v, path) {
        lemma_records_answer(v, i, i.size as int / 1024);
        if let Ok(rs) = dir_records(v, i) {
            lemma_lines_answer(v, rs, rs.len() as int);
        }
        lemma_gathered_answers(v, i, off, if off + n < i.size { off + n } else { i.size as int });
    }
}

/// A sync saves the counts and touches nothing else: in the group descriptor the
/// two counts alone, so that the places of the bitmaps and of the table stay.
pub proof fn law_sync_saves_the_counts(v: Vol)
    requires
        good(v.fs),
        held(v),
    ensures
        ({
            let w = counts_synced(v).vol;
            let gd = blk(v, 2);
            &&& counts_synced(v).r is Ok
            &&& blk(w, 1) == splice(
                splice(blk(v, 1), 12, le32_bytes(v.fs.free_blocks as int)),
                16,
                le32_bytes(v.fs.free_inodes as int),
            )
            &&& blk(w, 2) == splice(
                splice(gd, 12, le16_bytes(v.fs.free_blocks as int % 0x1_0000)),
                14,
                le16_bytes(v.fs.free_inodes as int % 0x1_0000),
            )
            &&& blk(w, 2).take(12) == gd.take(12)
            &&& blk(w, 2).skip(16) == gd.skip(16)
            &&& forall|x: int| inside(v.fs, x) && x != 1 && x != 2 ==> #[trigger] blk(w, x) == blk(v, x)
        }),
{
    lemma_counts_synced(v);
    reveal(counts_synced);
    lemma_block(v, 1);
    let d1 = splice(
        splice(blk(v, 1), 12, le32_bytes(v.fs.free_blocks as int)),
        16,
        le32_bytes(v.fs.free_inodes as int),
    );
    lemma_with_block(v, 1, d1);
    let m = with_block(v, 1, d1).vol;
    lemma_block(v, 2);
    lemma_block(m, 2);
    let gd = blk(v, 2);
    let d2 = splice(
        splice(gd, 12, le16_bytes(v.fs.free_blocks as int % 0x1_0000)),
        14,
        le16_bytes(v.fs.free_inodes as int % 0x1_0000),
    );
    lemma_with_block(m, 2, d2);
    assert(d2.take(12) =~= gd.take(12));
    assert(d2.skip(16) =~= gd.skip(16));
}

/// Writing a block that can be read changes its two sectors and no others.
proof fn lemma_block_swapped(v: Vol, b: int, data: Seq<u8>)
    requires
        0 <= b,
        block(v, b) is Ok,
        data.len() == 1024,
    ensures
        block(v, b)->Ok_0 == blk(v, b),
        blk(v, b).len() == 1024,
        v.fs.part_start + 2 * b + 2 <= u32::MAX,
        ({
            let w = with_block(v, b, data).vol;
            &&& with_block(v, b, data).r is Ok
            &&& w.fs == v.fs
            &&& blk(w, b) == data
            &&& w.disk.sectors.dom() == v.disk.sectors.dom()
            &&& forall|l: u32|
                v.disk.sectors.contains_key(l) && !(v.fs.part_start + 2 * b <= l < v.fs.part_start + 2
                    * b + 2) ==> #[trigger] w.disk.sectors[l] == v.disk.sectors[l]
        }),
{
    reveal(fetched);
    let at = v.fs.part_start + 2 * b;
    let w = with_block(v, b, data).vol;
    law_read_after_write(v.disk.sectors, at as u32, 2, data);
    assert(data.take(1024) =~= data);
    assert(all_in(v.disk.sectors, at as u32, 2));
    assert forall|l: u32| w.disk.sectors.contains_key(l) implies v.disk.sectors.contains_key(l) by {
    }
    assert(w.disk.sectors.dom() =~= v.disk.sectors.dom());
}

/// Blocks whose sectors are the same hold the same.
proof fn lemma_same_block(v: Vol, w: Vol, b: int)
    requires
        0 <= b,
        w.fs == v.fs,
        v.fs.part_start + 2 * b + 2 <= u32::MAX,
        forall|l: u32|
            v.fs.part_start + 2 * b <= l < v.fs.part_start + 2 * b + 2 ==> #[trigger] w.disk.sectors[l]
                == v.disk.sectors[l],
    ensures
        blk(w, b) == blk(v, b),
{
    let a = blk(w, b);
    let c = blk(v, b);
    assert forall|k: int| 0 <= k < 1024 implies #[trigger] a[k] == c[k] by {
        let l = (v.fs.part_start + 2 * b + k / 512) as u32;
        assert(w.disk.sectors[l] == v.disk.sectors[l]);
    }
    assert(a =~= c);
}

/// Whatever the layout of the volume, a sync that succeeds changes the counts in
/// the superblock and in the group descriptor, and no other byte of the disk.
pub proof fn law_sync_spares_the_rest(v: Vol)
    requires
        counts_synced(v).r is Ok,
    ensures
        ({
            let w = counts_synced(v).vol;
            &&& w.fs == v.fs
            &&& blk(w, 1) == splice(
                splice(blk(v, 1), 12, le32_bytes(v.fs.free_blocks as int)),
                16,
                le32_bytes(v.fs.free_inodes as int),
            )
            &&& blk(w, 2) == splice(
                splice(blk(v, 2), 12, le16_bytes(v.fs.free_blocks as int % 0x1_0000)),
                14,
                le16_bytes(v.fs.free_inodes as int % 0x1_0000),
            )
            &&& w.disk.sectors.dom() == v.disk.sectors.dom()
            &&& forall|l: u32|
                v.disk.sectors.contains_key(l) && !(v.fs.part_start + 2 <= l < v.fs.part_start + 6)
                    ==> #[trigger] w.disk.sectors[l] == v.disk.sectors[l]
        }),
{
    reveal(counts_synced);
    let d1 = splice(
        splice(blk(v, 1), 12, le32_bytes(v.fs.free_blocks as int)),
        16,
        le32_bytes(v.fs.free_inodes as int),
    );
    lemma_block_swapped(v, 1, d1);
    let m = with_block(v, 1, d1).vol;
    let d2 = splice(
        splice(blk(m, 2), 12, le16_bytes(v.fs.free_blocks as int % 0x1_0000)),
        14,
        le16_bytes(v.fs.free_inodes as int % 0x1_0000),
    );
    lemma_block_swapped(m, 2, d2);
    let w = with_block(m, 2, d2).vol;
    assert(counts_synced(v).vol == w);
    assert forall|l: u32|
        v.fs.part_start + 4 <= l < v.fs.part_start + 6 implies #[trigger] m.disk.sectors[l]
        == v.disk.sectors[l] by {
        assert(m.disk.sectors.dom().contains(l));
    }
    lemma_same_block(v, m, 2);
    assert forall|l: u32|
        v.fs.part_start + 2 <= l < v.fs.part_start + 4 implies #[trigger] w.disk.sectors[l]
        == m.disk.sectors[l] by {
        assert(m.disk.sectors.dom().contains(l));
    }
    lemma_same_block(m, w, 1);
    assert forall|l: u32|
        v.disk.sectors.contains_key(l) && !(v.fs.part_start + 2 <= l < v.fs.part_start
            + 6) implies #[trigger] w.disk.sectors[l] == v.disk.sectors[l] by {
        assert(m.disk.sectors.dom().contains(l));
        assert(m.disk.sectors[l] == v.disk.sectors[l]);
    }
}

/// A mount after a sync finds the volume as it is in memory: its layout, with
/// the same bitmap and table blocks, and the counts just saved.
pub proof fn law_mount_after_sync(v: Vol)
    requires
        good(v.fs),
        held(v),
        mounted(v.disk, v.fs.part_start) is Ok,
        like(v.fs, mounted(v.disk, v.fs.part_start)->Ok_0),
    ensures
        counts_synced(v).r is Ok,
        mounted(counts_synced(v).vol.disk, v.fs.part_start) == Ok::<Ext2, FsError>(v.fs),
{
    lemma_counts_synced(v);
    lemma_counts_saved(v);
    reveal(counts_synced);
    lemma_block(v, 1);
    lemma_block(v, 2);
    let sb = blk(v, 1);
    let s2 = splice(
        splice(sb, 12, le32_bytes(v.fs.free_blocks as int)),
        16,
        le32_bytes(v.fs.free_inodes as int),
    );
    lemma_with_block(v, 1, s2);
    let w = with_block(v, 1, s2).vol;
    lemma_block(w, 2);
    let gd = blk(w, 2);
    let g2 = splice(
        splice(gd, 12, le16_bytes(v.fs.free_blocks as int % 0x1_0000)),
        14,
        le16_bytes(v.fs.free_inodes as int % 0x1_0000),
    );
    lemma_with_block(w, 2, g2);
    let x = with_block(w, 2, g2).vol;
    lemma_block(x, 1);
    lemma_block(x, 2);
    assert(blk(x, 1) == s2);
    assert(blk(x, 2) == g2);
    assert(gd == blk(v, 2));
    assert forall|i: int| 0 <= i < 1024 && !(12 <= i < 20) implies #[trigger] s2[i] == sb[i] by {}
    assert forall|i: int| 0 <= i < 12 implies #[trigger] g2[i] == gd[i] by {}
}

} // verus!
