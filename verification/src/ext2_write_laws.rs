//! What a change of an ext2 volume writes: which bit, which record, which inode, and what is
//! refused.
use vstd::prelude::*;

use crate::block::Partition;
use crate::bytes::{le16_bytes, le32, le32_bytes, splice};
use crate::disk_laws::{law_numbers, number_at};
use crate::ext2::{
    bits_freed, blank, block, block_taken, dir_made_at, file_made, first_clear, first_home,
    holds_word, inode_put, inode_taken, is_home, is_set, live_direct, live_pointers, new_dir_block,
    node_at, own_span, owned, owned_double, owned_inner, owned_single, parent_of, pointers_put,
    record_added, record_put, renamed, slot_filled, span_of, table_filled, unlinked, written,
    InodeView, Record, Vol, MAX_FILE,
};
use crate::memory_laws::{lemma_patched, lemma_put};
use crate::screen_laws::bit_at;
use crate::vfs::FsError;

verus! {

/// Bit `k` of a bitmap is bit `k % 8` of byte `k / 8`, counted from the lowest.
#[verifier::spinoff_prover]
#[verifier::rlimit(60)]
pub proof fn law_bitmap(bits: Seq<u8>, k: int)
    requires
        0 <= k,
    ensures
        is_set(bits, k) <==> bit_at(bits[k / 8], k % 8) == 1,
{
    let v = bits[k / 8];
    let q = (k % 8) as u8;
    assert((v & (1u8 << 0) != 0) == (v % 2 == 1) && (v & (1u8 << 1) != 0) == (v / 2 % 2 == 1) && (v & (1u8 << 2)
        != 0) == (v / 4 % 2 == 1) && (v & (1u8 << 3) != 0) == (v / 8 % 2 == 1) && (v & (1u8 << 4) != 0) == (v
        / 16 % 2 == 1) && (v & (1u8 << 5) != 0) == (v / 32 % 2 == 1) && (v & (1u8 << 6) != 0) == (v / 64 % 2
        == 1) && (v & (1u8 << 7) != 0) == (v / 128 % 2 == 1)) by (bit_vector);
    assert(q == 0 || q == 1 || q == 2 || q == 3 || q == 4 || q == 5 || q == 6 || q == 7);
}

/// The search takes the lowest clear bit, and finds none only where all 8192 are set.
pub proof fn law_lowest_clear_bit(bits: Seq<u8>, k: int, j: int)
    requires
        0 <= k <= j < 8192,
        !is_set(bits, j),
        forall|i: int| k <= i < j ==> #[trigger] is_set(bits, i),
    ensures
        first_clear(bits, k) == Some(j),
    decreases j - k,
{
    if k < j {
        assert(is_set(bits, k));
        law_lowest_clear_bit(bits, k + 1, j);
    }
}

/// Where every bit is set, there is nothing to take.
pub proof fn law_full_bitmap(bits: Seq<u8>, k: int)
    requires
        0 <= k <= 8192,
        forall|i: int| k <= i < 8192 ==> #[trigger] is_set(bits, i),
    ensures
        first_clear(bits, k) is None,
    decreases 8192 - k,
{
    if k < 8192 {
        assert(is_set(bits, k));
        law_full_bitmap(bits, k + 1);
    }
}

/// A block is taken by the lowest clear bit of the bitmap, whose bit 0 stands for block 1. The
/// count of free blocks goes down by one.
pub proof fn law_block_is_taken(v: Vol, bits: Seq<u8>, j: int)
    requires
        block(v, v.fs.block_bitmap as int) == Ok::<Seq<u8>, FsError>(bits),
        0 <= j < 8192,
        !is_set(bits, j),
        forall|i: int| 0 <= i < j ==> #[trigger] is_set(bits, i),
    ensures
        v.fs.free_blocks == 0 ==> block_taken(v).r == Err::<u32, FsError>(FsError::NoSpace) && block_taken(v).vol
            == v,
        block_taken(v).r matches Ok(b) ==> b == j + 1 && block_taken(v).vol.fs.free_blocks + 1
            == v.fs.free_blocks && block_taken(v).vol.fs.free_inodes == v.fs.free_inodes,
{
    law_lowest_clear_bit(bits, 0, j);
    reveal(block_taken);
    reveal(crate::ext2::counts_synced);
}

/// An inode is taken by the lowest clear bit of its bitmap, whose bit 0 stands for inode 1. The
/// count of free inodes goes down by one.
pub proof fn law_inode_is_taken(v: Vol, bits: Seq<u8>, j: int)
    requires
        block(v, v.fs.inode_bitmap as int) == Ok::<Seq<u8>, FsError>(bits),
        0 <= j < 8192,
        !is_set(bits, j),
        forall|i: int| 0 <= i < j ==> #[trigger] is_set(bits, i),
    ensures
        v.fs.free_inodes == 0 ==> inode_taken(v).r == Err::<u32, FsError>(FsError::NoSpace) && inode_taken(v).vol
            == v,
        inode_taken(v).r matches Ok(n) ==> n == j + 1 && inode_taken(v).vol.fs.free_inodes + 1
            == v.fs.free_inodes && inode_taken(v).vol.fs.free_blocks == v.fs.free_blocks,
{
    law_lowest_clear_bit(bits, 0, j);
    reveal(inode_taken);
    reveal(crate::ext2::counts_synced);
}

/// A block that a file gets counts as two sectors of it; a block that it has is kept and counts
/// for nothing.
#[verifier::spinoff_prover]
#[verifier::rlimit(60)]
pub proof fn law_sectors_are_counted(v: Vol, i: InodeView, slot: int, tbl: u32, k: int)
    requires
        0 <= slot < 15,
        i.blocks.len() == 15,
        i.sectors < 0xFFFF_FFFE,
        0 <= k < 256,
    ensures
        slot_filled(v, i, slot).r matches Ok((j, b)) ==> {
            &&& i.blocks[slot] != 0 ==> j == i && b == i.blocks[slot]
            &&& i.blocks[slot] == 0 ==> j.sectors == i.sectors + 2 && j.blocks == i.blocks.update(slot, b)
                && j.size == i.size && j.mode == i.mode
        },
        table_filled(v, i, tbl, k).r matches Ok((j, b)) ==> {
            &&& j.blocks == i.blocks
            &&& j.sectors == i.sectors || j.sectors == i.sectors + 2
            &&& j.size == i.size
        },
        table_filled(v, i, tbl, k).r matches Ok((j, b)) ==> (block(v, tbl as int) matches Ok(t) && {
            &&& number_at(t, 4 * k, 4) != 0 ==> b == number_at(t, 4 * k, 4) && j == i
            &&& number_at(t, 4 * k, 4) == 0 ==> j.sectors == i.sectors + 2
        }),
{
    reveal(slot_filled);
    reveal(table_filled);
    if let Ok(t) = block(v, tbl as int) {
        law_numbers(t, 4 * k);
    }
}

/// A record takes its head of eight bytes and its name, rounded up to a multiple of four.
pub proof fn law_record_span(n: int)
    requires
        n >= 0,
    ensures
        span_of(n) % 4 == 0,
        8 + n <= span_of(n) < 8 + n + 4,
{
}

/// A record holds its inode in four bytes, its length in two, the length of its name in one,
/// a nought, and the name. Nothing else changes.
#[verifier::spinoff_prover]
#[verifier::rlimit(60)]
pub proof fn law_record_bytes(b: Seq<u8>, o: int, ino: u32, name: Seq<u8>, rec: int, k: int)
    requires
        b.len() == 1024,
        0 <= o,
        o + 8 + name.len() <= 1024,
        name.len() < 256,
        0 <= rec < 0x1_0000,
        0 <= k < 1024,
    ensures
        ({
            let r = record_put(b, o, ino, name, rec);
            &&& r.len() == 1024
            &&& number_at(r, o, 4) == ino
            &&& number_at(r, o + 4, 2) == rec
            &&& r[o + 6] == name.len()
            &&& r[o + 7] == 0
            &&& o + 8 <= k < o + 8 + name.len() ==> r[k] == name[k - o - 8]
            &&& k < o || k >= o + 8 + name.len() ==> r[k] == b[k]
        }),
{
    let r = record_put(b, o, ino, name, rec);
    let e = le32_bytes(ino as int);
    let f = le16_bytes(rec);
    assert(r[o] == e[0] && r[o + 1] == e[1] && r[o + 2] == e[2] && r[o + 3] == e[3]);
    assert(r[o + 4] == f[0] && r[o + 5] == f[1]);
    reveal_with_fuel(number_at, 5);
}

/// A new directory holds itself under one dot, in a record of twelve bytes, and its parent
/// under two, in the rest of its block.
#[verifier::spinoff_prover]
#[verifier::rlimit(60)]
pub proof fn law_new_directory(num: u32, parent: u32)
    ensures
        ({
            let b = new_dir_block(num, parent);
            &&& b.len() == 1024
            &&& number_at(b, 0, 4) == num
            &&& number_at(b, 4, 2) == 12
            &&& b[6] == 1
            &&& b[8] == '.' as u8
            &&& number_at(b, 12, 4) == parent
            &&& number_at(b, 16, 2) == 1024 - 12
            &&& b[18] == 2
            &&& b[20] == '.' as u8 && b[21] == '.' as u8
        }),
{
    let a = record_put(blank(), 0, num, seq![0x2Eu8], 12);
    law_record_bytes(blank(), 0, num, seq![0x2Eu8], 12, 8);
    let b = new_dir_block(num, parent);
    law_record_bytes(a, 12, parent, seq![0x2Eu8, 0x2Eu8], 1012, 0);
    assert forall|k: int| 0 <= k < 12 implies b[k] == a[k] by {
        law_record_bytes(a, 12, parent, seq![0x2Eu8, 0x2Eu8], 1012, k);
    }
    law_record_bytes(a, 12, parent, seq![0x2Eu8, 0x2Eu8], 1012, 20);
    law_record_bytes(a, 12, parent, seq![0x2Eu8, 0x2Eu8], 1012, 21);
    reveal_with_fuel(number_at, 5);
}

/// A name that goes behind another takes what that one's record does not need: together they
/// are as long as the record was.
#[verifier::spinoff_prover]
#[verifier::rlimit(60)]
pub proof fn law_record_is_split(b: Seq<u8>, r: Record, name: Seq<u8>, target: u32)
    requires
        b.len() == 1024,
        r.ino != 0,
        0 <= r.offset,
        r.offset % 1024 + r.rec_len <= 1024,
        own_span(r) + 8 + name.len() <= r.rec_len,
        own_span(r) >= 8,
        name.len() < 256,
    ensures
        ({
            let o = r.offset % 1024;
            let n = record_added(b, r, name, target);
            let kept = number_at(n, o + 4, 2);
            &&& kept == own_span(r)
            &&& number_at(n, o + kept, 4) == target
            &&& kept + number_at(n, o + kept + 4, 2) == r.rec_len
            &&& n[o + kept + 6] == name.len()
            &&& forall|k: int| 0 <= k < name.len() ==> n[o + kept + 8 + k] == #[trigger] name[k]
        }),
{
    let o = r.offset % 1024;
    let own = own_span(r);
    let a = splice(b, o + 4, le16_bytes(own));
    let n = record_added(b, r, name, target);
    assert(n == record_put(a, o + own, target, name, r.rec_len - own));
    law_record_bytes(a, o + own, target, name, r.rec_len - own, o + 4);
    law_record_bytes(a, o + own, target, name, r.rec_len - own, o + 5);
    let f = le16_bytes(own);
    assert(a[o + 4] == f[0] && a[o + 5] == f[1]);
    reveal_with_fuel(number_at, 5);
    assert forall|k: int| 0 <= k < name.len() implies n[o + own + 8 + k] == #[trigger] name[k] by {
        law_record_bytes(a, o + own, target, name, r.rec_len - own, o + own + 8 + k);
    }
}

/// A name that goes into an empty record takes what it needs of it, and the rest stays an empty
/// record, where it is large enough to be one.
#[verifier::spinoff_prover]
#[verifier::rlimit(60)]
pub proof fn law_empty_record_is_used(b: Seq<u8>, r: Record, name: Seq<u8>, target: u32)
    requires
        b.len() == 1024,
        r.ino == 0,
        0 <= r.offset,
        r.offset % 1024 + r.rec_len <= 1024,
        span_of(name.len() as int) <= r.rec_len,
        name.len() < 256,
    ensures
        ({
            let o = r.offset % 1024;
            let n = record_added(b, r, name, target);
            let used = number_at(n, o + 4, 2);
            let need = span_of(name.len() as int);
            &&& number_at(n, o, 4) == target
            &&& n[o + 6] == name.len()
            &&& r.rec_len - need < 8 ==> used == r.rec_len
            &&& r.rec_len - need >= 8 ==> used == need && number_at(n, o + need, 4) == 0 && number_at(
                n,
                o + need + 4,
                2,
            ) == r.rec_len - need
        }),
{
    let o = r.offset % 1024;
    let need = span_of(name.len() as int);
    let rest = r.rec_len - need;
    let n = record_added(b, r, name, target);
    if rest >= 8 {
        let a = record_put(b, o, target, name, need);
        law_record_bytes(b, o, target, name, need, o);
        assert(n == record_put(a, o + need, 0, Seq::empty(), rest));
        law_record_bytes(a, o + need, 0, Seq::empty(), rest, o);
        assert forall|k: int| o <= k < o + 8 implies n[k] == a[k] by {
            law_record_bytes(a, o + need, 0, Seq::empty(), rest, k);
        }
        reveal_with_fuel(number_at, 5);
    } else {
        law_record_bytes(b, o, target, name, r.rec_len, o);
    }
}

/// An inode's 128 bytes hold its mode in the first two, its size from byte 4 on, its sectors
/// from byte 28 on and its fifteen pointers from byte 40 on. Nothing else changes.
#[verifier::spinoff_prover]
#[verifier::rlimit(60)]
pub proof fn law_inode_bytes(b: Seq<u8>, o: int, i: InodeView, k: int, j: int)
    requires
        b.len() == 1024,
        0 <= o,
        o + 128 <= 1024,
        i.blocks.len() == 15,
        0 <= k < 15,
        0 <= j < 1024,
    ensures
        ({
            let r = inode_put(b, o, i);
            &&& r.len() == 1024
            &&& number_at(r, o, 2) == i.mode
            &&& number_at(r, o + 4, 4) == i.size
            &&& number_at(r, o + 28, 4) == i.sectors
            &&& number_at(r, o + 40 + 4 * k, 4) == i.blocks[k]
            &&& j < o || j >= o + 100 ==> r[j] == b[j]
        }),
{
    let a = splice(b, o, le16_bytes(i.mode as int));
    let c = splice(a, o + 4, le32_bytes(i.size as int));
    let e = splice(c, o + 28, le32_bytes(i.sectors as int));
    lemma_put(b, o, i.mode as int);
    lemma_put(a, o + 4, i.size as int);
    lemma_put(c, o + 28, i.sectors as int);
    lemma_patched(a, o, le32_bytes(i.size as int), o + 4, 2);
    lemma_patched(c, o, le32_bytes(i.sectors as int), o + 28, 2);
    lemma_patched(c, o + 4, le32_bytes(i.sectors as int), o + 28, 4);
    lemma_pointers(e, o, i.blocks, 15, o, 2, j);
    lemma_pointers(e, o, i.blocks, 15, o + 4, 4, j);
    lemma_pointers(e, o, i.blocks, 15, o + 28, 4, j);
    lemma_pointer(e, o, i.blocks, 15, k);
}

proof fn lemma_pointers(b: Seq<u8>, o: int, ps: Seq<u32>, n: int, at: int, w: int, j: int)
    requires
        b.len() == 1024,
        0 <= o,
        o + 128 <= 1024,
        0 <= n <= 15,
        0 <= at,
        0 <= w,
        at + w <= o + 40,
        0 <= j < 1024,
    ensures
        pointers_put(b, o, ps, n).len() == 1024,
        number_at(pointers_put(b, o, ps, n), at, w) == number_at(b, at, w),
        j < o + 40 || j >= o + 40 + 4 * n ==> pointers_put(b, o, ps, n)[j] == b[j],
    decreases n,
{
    if n > 0 {
        lemma_pointers(b, o, ps, n - 1, at, w, j);
        lemma_patched(
            pointers_put(b, o, ps, n - 1),
            at,
            le32_bytes(ps[n - 1] as int),
            o + 40 + 4 * (n - 1),
            w,
        );
    }
}

proof fn lemma_pointer(b: Seq<u8>, o: int, ps: Seq<u32>, n: int, k: int)
    requires
        b.len() == 1024,
        0 <= o,
        o + 128 <= 1024,
        0 <= k < n <= 15,
        ps.len() == 15,
    ensures
        number_at(pointers_put(b, o, ps, n), o + 40 + 4 * k, 4) == ps[k],
    decreases n,
{
    let a = pointers_put(b, o, ps, n - 1);
    lemma_pointers(b, o, ps, n - 1, 0, 0, 0);
    if k == n - 1 {
        lemma_put(a, o + 40 + 4 * k, ps[k] as int);
    } else {
        lemma_pointer(b, o, ps, n - 1, k);
        lemma_patched(a, o + 40 + 4 * k, le32_bytes(ps[n - 1] as int), o + 40 + 4 * (n - 1), 4);
    }
}

/// A new file is a regular one, empty and without blocks.
pub proof fn law_new_file(v: Vol, parent: InodeView, name: Seq<char>, k: int)
    requires
        0 <= k < 15,
    ensures
        file_made(v, parent, name).r matches Ok(i) ==> i.mode == 0x8000 && i.size == 0 && i.sectors == 0
            && i.blocks.len() == 15 && i.blocks[k] == 0,
{
}

/// A file has at most 12 blocks of its own, 256 from one table and 256 from each of 256 more.
pub proof fn law_largest_file()
    ensures
        MAX_FILE == 1024 * (12 + 256 + 256 * 256),
{
}

/// What is refused leaves the volume as it was: a name that is not there, a directory to be
/// unlinked or written as a file, a name that is taken, a move into another directory.
#[verifier::spinoff_prover]
#[verifier::rlimit(60)]
pub proof fn law_refusals(v: Vol, a: Seq<char>, b: Seq<char>, off: int, data: Seq<u8>)
    requires
        data.len() > 0,
    ensures
        node_at(v, a) == Ok::<Option<InodeView>, FsError>(None) ==> {
            &&& unlinked(v, a).r == Err::<(), FsError>(FsError::NotFound) && unlinked(v, a).vol == v
            &&& renamed(v, a, b).r == Err::<(), FsError>(FsError::NotFound) && renamed(v, a, b).vol == v
        },
        node_at(v, a) matches Ok(Some(i)) ==> {
            &&& i.mode / 0x1000 == 4 ==> unlinked(v, a).r == Err::<(), FsError>(FsError::IsDir) && unlinked(v, a).vol
                == v
            &&& i.mode / 0x1000 == 4 ==> written(v, a, off, data).r == Err::<usize, FsError>(FsError::NotSupported)
                && written(v, a, off, data).vol == v
            &&& dir_made_at(v, a).r == Err::<(), FsError>(FsError::Exists) && dir_made_at(v, a).vol == v
            &&& node_at(v, b) is Ok && node_at(v, b)->Ok_0 is Some ==> renamed(v, a, b).r == Err::<(), FsError>(FsError::Exists)
                && renamed(v, a, b).vol == v
        },
        ({
            &&& node_at(v, a) is Ok && node_at(v, a)->Ok_0 is Some
            &&& node_at(v, b) == Ok::<Option<InodeView>, FsError>(None)
            &&& parent_of(v, a) is Ok
            &&& parent_of(v, b) is Ok
            &&& parent_of(v, a)->Ok_0.0.ino != parent_of(v, b)->Ok_0.0.ino
        }) ==> renamed(v, a, b).r == Err::<(), FsError>(FsError::NotSupported) && renamed(v, a, b).vol == v,
{
    reveal(written);
    reveal(dir_made_at);
}

proof fn lemma_in_front(a: Seq<u32>, b: Seq<u32>, x: u32)
    requires
        a.contains(x),
    ensures
        (a + b).contains(x),
        a.push(0).contains(x),
{
    let i = choose|i: int| 0 <= i < a.len() && a[i] == x;
    assert((a + b)[i] == x);
    assert(a.push(0)[i] == x);
}

proof fn lemma_behind(a: Seq<u32>, b: Seq<u32>, x: u32)
    requires
        b.contains(x),
    ensures
        (a + b).contains(x),
{
    let i = choose|i: int| 0 <= i < b.len() && b[i] == x;
    assert((a + b)[a.len() + i] == x);
}

proof fn lemma_pushed(a: Seq<u32>, y: u32, x: u32)
    ensures
        a.contains(x) ==> a.push(y).contains(x),
        a.push(y).contains(y),
{
    if a.contains(x) {
        let i = choose|i: int| 0 <= i < a.len() && a[i] == x;
        assert(a.push(y)[i] == x);
    }
    assert(a.push(y)[a.len() as int] == y);
}

proof fn lemma_live_direct(i: InodeView, n: int, k: int)
    requires
        0 <= k < n <= 12,
        i.blocks[k] != 0,
    ensures
        live_direct(i, n).contains(i.blocks[k]),
    decreases n,
{
    if k == n - 1 {
        lemma_pushed(live_direct(i, n - 1), i.blocks[k], 0);
    } else {
        lemma_live_direct(i, n - 1, k);
        lemma_pushed(live_direct(i, n - 1), i.blocks[n - 1], i.blocks[k]);
    }
}

proof fn lemma_live_pointers(b: Seq<u8>, n: int, k: int)
    requires
        0 <= k < n,
        number_at(b, 4 * k, 4) != 0,
    ensures
        live_pointers(b, n).contains(number_at(b, 4 * k, 4) as u32),
    decreases n,
{
    law_numbers(b, 4 * k);
    if k == n - 1 {
        lemma_pushed(live_pointers(b, n - 1), le32(b, 4 * k) as u32, 0);
    } else {
        lemma_live_pointers(b, n - 1, k);
        lemma_pushed(live_pointers(b, n - 1), le32(b, 4 * (n - 1)) as u32, le32(b, 4 * k) as u32);
    }
}

proof fn lemma_owned_single(v: Vol, tbl: u32, t: Seq<u8>, k: int)
    requires
        tbl != 0,
        block(v, tbl as int) == Ok::<Seq<u8>, FsError>(t),
        0 <= k < 256,
    ensures
        owned_single(v, tbl) matches Ok(l) && l.contains(tbl) && (number_at(t, 4 * k, 4) != 0 ==> l.contains(
            number_at(t, 4 * k, 4) as u32,
        )),
{
    lemma_pushed(live_pointers(t, 256), tbl, number_at(t, 4 * k, 4) as u32);
    if number_at(t, 4 * k, 4) != 0 {
        lemma_live_pointers(t, 256, k);
    }
}

/// A file owns each block that it points at, and the tables on the way: what it gives back
/// when it goes.
#[verifier::spinoff_prover]
#[verifier::rlimit(60)]
pub proof fn law_owned_blocks(v: Vol, i: InodeView, l: Seq<u32>, k: int)
    requires
        owned(v, i) == Ok::<Seq<u32>, FsError>(l),
        i.blocks.len() == 15,
        0 <= k < 256,
    ensures
        k < 12 && i.blocks[k] != 0 ==> l.contains(i.blocks[k]),
        i.blocks[12] != 0 ==> l.contains(i.blocks[12]),
        i.blocks[12] != 0 ==> (block(v, i.blocks[12] as int) matches Ok(t) && (number_at(t, 4 * k, 4) != 0
            ==> l.contains(number_at(t, 4 * k, 4) as u32))),
        i.blocks[13] != 0 ==> l.contains(i.blocks[13]),
{
    let s = owned_single(v, i.blocks[12])->Ok_0;
    let d = owned_double(v, i.blocks[13])->Ok_0;
    let f = live_direct(i, 12);
    assert(l == f + s + d);
    if k < 12 && i.blocks[k] != 0 {
        lemma_live_direct(i, 12, k);
        lemma_in_front(f, s, i.blocks[k]);
        lemma_in_front(f + s, d, i.blocks[k]);
    }
    if i.blocks[12] != 0 {
        let t = block(v, i.blocks[12] as int)->Ok_0;
        lemma_owned_single(v, i.blocks[12], t, k);
        lemma_behind(f, s, i.blocks[12]);
        lemma_in_front(f + s, d, i.blocks[12]);
        if number_at(t, 4 * k, 4) != 0 {
            let x = number_at(t, 4 * k, 4) as u32;
            lemma_behind(f, s, x);
            lemma_in_front(f + s, d, x);
        }
    }
    if i.blocks[13] != 0 {
        let b = block(v, i.blocks[13] as int)->Ok_0;
        let inner = owned_inner(v, b, 256)->Ok_0;
        lemma_pushed(inner, i.blocks[13], 0);
        lemma_behind(f + s, d, i.blocks[13]);
    }
}

proof fn lemma_owned_inner(v: Vol, b: Seq<u8>, n: int, l: Seq<u32>, j: int, k: int)
    requires
        owned_inner(v, b, n) == Ok::<Seq<u32>, FsError>(l),
        0 <= j < n <= 256,
        0 <= k < 256,
        number_at(b, 4 * j, 4) != 0,
    ensures
        l.contains(number_at(b, 4 * j, 4) as u32),
        block(v, number_at(b, 4 * j, 4)) matches Ok(t) && (number_at(t, 4 * k, 4) != 0 ==> l.contains(
            number_at(t, 4 * k, 4) as u32,
        )),
    decreases n,
{
    let front = owned_inner(v, b, n - 1)->Ok_0;
    let s = owned_single(v, le32(b, 4 * (n - 1)) as u32)->Ok_0;
    assert(l == front + s);
    law_numbers(b, 4 * j);
    if j == n - 1 {
        let tbl = number_at(b, 4 * j, 4) as u32;
        let t = block(v, tbl as int)->Ok_0;
        lemma_owned_single(v, tbl, t, k);
        lemma_behind(front, s, tbl);
        if number_at(t, 4 * k, 4) != 0 {
            lemma_behind(front, s, number_at(t, 4 * k, 4) as u32);
        }
    } else {
        lemma_owned_inner(v, b, n - 1, front, j, k);
        lemma_in_front(front, s, number_at(b, 4 * j, 4) as u32);
        let t = block(v, number_at(b, 4 * j, 4))->Ok_0;
        if number_at(t, 4 * k, 4) != 0 {
            lemma_in_front(front, s, number_at(t, 4 * k, 4) as u32);
        }
    }
}

/// The same holds of the tables behind the table of tables, and of the blocks they name.
pub proof fn law_owned_far_blocks(v: Vol, i: InodeView, l: Seq<u32>, b: Seq<u8>, j: int, k: int)
    requires
        owned(v, i) == Ok::<Seq<u32>, FsError>(l),
        i.blocks[13] != 0,
        block(v, i.blocks[13] as int) == Ok::<Seq<u8>, FsError>(b),
        0 <= j < 256,
        0 <= k < 256,
        number_at(b, 4 * j, 4) != 0,
    ensures
        l.contains(number_at(b, 4 * j, 4) as u32),
        block(v, number_at(b, 4 * j, 4)) matches Ok(t) && (number_at(t, 4 * k, 4) != 0 ==> l.contains(
            number_at(t, 4 * k, 4) as u32,
        )),
{
    let s = owned_single(v, i.blocks[12])->Ok_0;
    let d = owned_double(v, i.blocks[13])->Ok_0;
    let f = live_direct(i, 12);
    let inner = owned_inner(v, b, 256)->Ok_0;
    assert(l == f + s + d);
    assert(d == inner.push(i.blocks[13]));
    lemma_owned_inner(v, b, 256, inner, j, k);
    let x = number_at(b, 4 * j, 4) as u32;
    lemma_pushed(inner, i.blocks[13], x);
    lemma_behind(f + s, d, x);
    let t = block(v, number_at(b, 4 * j, 4))->Ok_0;
    if number_at(t, 4 * k, 4) != 0 {
        let y = number_at(t, 4 * k, 4) as u32;
        lemma_pushed(inner, i.blocks[13], y);
        lemma_behind(f + s, d, y);
    }
}

/// Blocks that are given back have their bits cleared, and no other bit changes.
pub proof fn law_bits_are_freed(bits: Seq<u8>, list: Seq<u32>, n: int, b: int)
    requires
        bits.len() == 1024,
        0 <= n <= list.len(),
        forall|k: int| 0 <= k < n ==> 1 <= #[trigger] list[k] <= 8192,
        1 <= b <= 8192,
    ensures
        bits_freed(bits, list, n).0.len() == 1024,
        list.take(n).contains(b as u32) ==> !is_set(bits_freed(bits, list, n).0, b - 1),
        !list.take(n).contains(b as u32) ==> is_set(bits_freed(bits, list, n).0, b - 1) == is_set(bits, b - 1),
        0 <= bits_freed(bits, list, n).1 <= n,
    decreases n,
{
    if n > 0 {
        law_bits_are_freed(bits, list, n - 1, b);
        let c = bits_freed(bits, list, n - 1).0;
        let k = list[n - 1] - 1;
        assert(1 <= list[n - 1] <= 8192);
        crate::ext2::law_clear_bit(c, k, b - 1);
        let p = list.take(n - 1);
        let q = list.take(n);
        assert(q =~= p.push(list[n - 1]));
        lemma_pushed(p, list[n - 1], b as u32);
        if q.contains(b as u32) && b != list[n - 1] {
            let i = choose|i: int| 0 <= i < q.len() && q[i] == b as u32;
            assert(p[i] == b as u32);
        }
    }
}

/// The home volume is the first partition of a mebibyte or more whose kind says so.
pub proof fn law_home_volume(ps: Seq<Partition>, k: int, j: int)
    requires
        0 <= k <= j < ps.len(),
        forall|i: int| k <= i < j ==> !((#[trigger] ps[i]).sectors >= 2048 && holds_word(ps[i].kind@, "Linux"@)),
    ensures
        ps[j].sectors >= 2048 && holds_word(ps[j].kind@, "Linux"@) ==> first_home(ps, k) == Some(j),
        j == ps.len() - 1 && !(ps[j].sectors >= 2048 && holds_word(ps[j].kind@, "Linux"@)) ==> first_home(ps, k)
            is None,
    decreases j - k,
{
    if k < j {
        assert(!is_home(ps[k]));
        law_home_volume(ps, k + 1, j);
    } else {
        reveal_with_fuel(first_home, 2);
    }
}

} // verus!
