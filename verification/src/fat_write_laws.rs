//! What a change of a FAT volume writes: which cluster and slot it takes, how the table is
//! linked, and what is refused.
use vstd::prelude::*;

use crate::bytes::{le16_bytes, le32_bytes, splice};
use crate::disk_laws::number_at;
use crate::fat::{
    allocated, clusters_for, dir_made, dots_slot, entry, first_free, free_slot, freed, new_dir,
    node_at, parent_of, renamed, saved_slot, unlinked, written, Fat32, Node,
};
use crate::fat_laws::{ent, held, lemma_all_freed, lemma_allocated, linked, roomy, valid};
use crate::memory_laws::{lemma_patched, lemma_put};
use crate::vfs::{Disk, FsError};

verus! {

/// The search takes the lowest cluster, from 2 on, whose table entry is nought.
pub proof fn law_lowest_free_cluster(fs: Fat32, d: Disk, c: int, j: int)
    requires
        2 <= c <= j <= fs.total_clusters + 1,
        fs.wf(),
        entry(fs, d, j as u32) == Ok::<u32, FsError>(0),
        forall|i: u32| c <= i < j ==> (#[trigger] entry(fs, d, i)) is Ok && entry(fs, d, i)->Ok_0 != 0,
    ensures
        first_free(fs, d, c) == Ok::<u32, FsError>(j as u32),
    decreases j - c,
{
    if c < j {
        assert(entry(fs, d, c as u32) is Ok);
        law_lowest_free_cluster(fs, d, c + 1, j);
    }
}

/// Where every cluster of the volume is in use, there is no space.
pub proof fn law_full_volume(fs: Fat32, d: Disk, c: int)
    requires
        2 <= c <= fs.total_clusters + 2,
        fs.wf(),
        forall|i: u32|
            c <= i < fs.total_clusters + 2 ==> (#[trigger] entry(fs, d, i)) is Ok && entry(fs, d, i)->Ok_0 != 0,
    ensures
        first_free(fs, d, c) == Err::<u32, FsError>(FsError::NoSpace),
    decreases fs.total_clusters + 2 - c,
{
    if c < fs.total_clusters + 2 {
        assert(entry(fs, d, c as u32) is Ok);
        law_full_volume(fs, d, c + 1);
    }
}

/// A cluster that is taken was free and ends a chain now; where it goes behind another, that
/// one leads to it. No other entry of the table changes.
pub proof fn law_cluster_is_taken(fs: Fat32, d: Disk, prev: Option<u32>, x: u32)
    requires
        roomy(fs),
        held(fs, d),
        prev matches Some(p) ==> valid(fs, p) && ent(fs, d, p) != 0,
        allocated(fs, d, prev).r is Ok,
        valid(fs, x),
    ensures
        ({
            let e = allocated(fs, d, prev).disk;
            let c = allocated(fs, d, prev).r->Ok_0;
            &&& first_free(fs, d, 2) == Ok::<u32, FsError>(c)
            &&& ent(fs, d, c) == 0
            &&& 0x0FFF_FFF8 <= ent(fs, e, c) < 0x1000_0000
            &&& prev matches Some(p) ==> ent(fs, e, p) == c
            &&& x != c && prev != Some(x) ==> ent(fs, e, x) == ent(fs, d, x)
        }),
{
    lemma_allocated(fs, d, prev);
}

/// A chain that is given back has nought in the entries of all of its clusters, and no other
/// entry changes.
pub proof fn law_chain_is_freed(fs: Fat32, d: Disk, first: u32, ch: Seq<u32>, x: u32)
    requires
        roomy(fs),
        held(fs, d),
        linked(fs, d, first, ch),
        valid(fs, x),
    ensures
        freed(fs, d, first, 0).r is Ok,
        ch.contains(x) ==> ent(fs, freed(fs, d, first, 0).disk, x) == 0,
        !ch.contains(x) ==> ent(fs, freed(fs, d, first, 0).disk, x) == ent(fs, d, x),
{
    lemma_all_freed(fs, d, first, ch);
}

/// A new name takes the first slot that was never used or whose name was deleted.
pub proof fn law_lowest_free_slot(buf: Seq<u8>, k: int, j: int)
    requires
        0 <= k <= j,
        32 * (j + 1) <= buf.len(),
        buf[32 * j] == 0 || buf[32 * j] == 229,
        forall|i: int| k <= i < j ==> (#[trigger] buf[32 * i]) != 0 && buf[32 * i] != 229,
    ensures
        free_slot(buf, k) == Some(j),
    decreases j - k,
{
    assert(k < buf.len() / 32);
    if k < j {
        assert(buf[32 * k] != 0 && buf[32 * k] != 229);
        law_lowest_free_slot(buf, k + 1, j);
    }
}

/// A file's slot tells its first cluster in two halves, the upper from byte 20 on and the lower
/// from byte 26 on, and its size from byte 28 on. Saving them changes nothing else.
pub proof fn law_saved_slot(buf: Seq<u8>, o: int, first: u32, size: u32, j: int)
    requires
        0 <= o,
        o + 40 <= buf.len(),
        0 <= j < buf.len(),
    ensures
        ({
            let s = saved_slot(buf, o, first, size);
            &&& s.len() == buf.len()
            &&& 65536 * number_at(s, o + 20, 2) + number_at(s, o + 26, 2) == first
            &&& number_at(s, o + 28, 4) == size
            &&& !(o + 20 <= j < o + 22 || o + 26 <= j < o + 32) ==> s[j] == buf[j]
        }),
{
    let hi = first as int / 0x1_0000;
    let lo = first as int % 0x1_0000;
    let a = splice(buf, o + 20, le16_bytes(hi));
    let b = splice(a, o + 26, le16_bytes(lo));
    lemma_put(buf, o + 20, hi);
    lemma_put(a, o + 26, lo);
    lemma_put(b, o + 28, size as int);
    lemma_patched(a, o + 20, le16_bytes(lo), o + 26, 2);
    lemma_patched(b, o + 20, le32_bytes(size as int), o + 28, 2);
    lemma_patched(b, o + 26, le32_bytes(size as int), o + 28, 2);
}

/// A new directory starts with two slots: one dot for itself, two for the directory above;
/// both are directories. The rest is nought.
pub proof fn law_new_directory(fs: Fat32, c: u32, up: u32, j: int)
    requires
        fs.wf(),
        0 <= j < 512 * fs.sectors_per_cluster,
    ensures
        ({
            let b = new_dir(fs, c, up);
            &&& b.len() == 512 * fs.sectors_per_cluster
            &&& b[0] == '.' as u8
            &&& 1 <= j < 11 ==> b[j] == ' ' as u8
            &&& b[11] == 16
            &&& 65536 * number_at(b, 20, 2) + number_at(b, 26, 2) == c
            &&& b[32] == '.' as u8 && b[33] == '.' as u8
            &&& 34 <= j < 43 ==> b[j] == ' ' as u8
            &&& b[43] == 16
            &&& 65536 * number_at(b, 52, 2) + number_at(b, 58, 2) == up
            &&& j >= 64 ==> b[j] == 0
        }),
{
    let s = dots_slot(1, c);
    let t = dots_slot(2, up);
    let b = new_dir(fs, c, up);
    lemma_dots(1, c);
    lemma_dots(2, up);
    assert(s.len() == 32 && t.len() == 32);
    assert forall|k: int| 0 <= k < 32 implies b[k] == s[k] && b[32 + k] == t[k] by {}
    reveal_with_fuel(number_at, 3);
    assert(b[20] == s[20] && b[21] == s[21] && b[26] == s[26] && b[27] == s[27]);
    assert(b[52] == t[20] && b[53] == t[21] && b[58] == t[26] && b[59] == t[27]);
    if 1 <= j < 11 {
        assert(b[j] == s[j]);
    }
    if 34 <= j < 43 {
        assert(b[j] == t[j - 32]);
    }
    assert(b[11] == s[11] && b[43] == t[11] && b[0] == s[0] && b[32] == t[0] && b[33] == t[1]);
}

proof fn lemma_dots(n: int, c: u32)
    requires
        1 <= n <= 2,
    ensures
        dots_slot(n, c).len() == 32,
        dots_slot(n, c)[11] == 16,
        forall|k: int| 0 <= k < n ==> #[trigger] dots_slot(n, c)[k] == 0x2E,
        forall|k: int| n <= k < 11 ==> #[trigger] dots_slot(n, c)[k] == 0x20,
        65536 * number_at(dots_slot(n, c), 20, 2) + number_at(dots_slot(n, c), 26, 2) == c,
{
    let hi = c as int / 0x1_0000;
    let lo = c as int % 0x1_0000;
    let short = Seq::new(
        11,
        |i: int|
            if i < n {
                0x2Eu8
            } else {
                0x20u8
            },
    );
    let z = Seq::new(32, |i: int| 0u8);
    let a = splice(z, 0, short).update(11, 0x10);
    let b = splice(a, 20, le16_bytes(hi));
    assert(dots_slot(n, c) == splice(b, 26, le16_bytes(lo)));
    let s = dots_slot(n, c);
    let e = le16_bytes(hi);
    let f = le16_bytes(lo);
    assert(s[20] == e[0] && s[21] == e[1] && s[26] == f[0] && s[27] == f[1]);
    reveal_with_fuel(number_at, 3);
}

/// A file has as many clusters as its bytes fill.
pub proof fn law_clusters_needed(fs: Fat32, n: int)
    requires
        fs.wf(),
        0 <= n,
    ensures
        ({
            let size = 512 * fs.sectors_per_cluster;
            let k = clusters_for(fs, n);
            &&& n <= k * size
            &&& k > 0 ==> (k - 1) * size < n
        }),
{
    let size = fs.cluster_size();
    let m = n + size - 1;
    vstd::arithmetic::div_mod::lemma_fundamental_div_mod(m, size);
    let k = m / size;
    assert(n <= k * size && (k - 1) * size < n) by (nonlinear_arith)
        requires
            m == size * k + m % size,
            0 <= m % size < size,
            m == n + size - 1,
    ;
}

/// What is refused leaves the disk as it was: a name that is not there, a directory to be
/// unlinked or written as a file, a name that is taken, a move into another directory.
pub proof fn law_refusals(fs: Fat32, d: Disk, a: Seq<char>, b: Seq<char>, off: int, data: Seq<u8>)
    ensures
        node_at(fs, d, a) == Ok::<Option<Node>, FsError>(None) ==> {
            &&& unlinked(fs, d, a).r == Err::<(), FsError>(FsError::NotFound) && unlinked(fs, d, a).disk == d
            &&& renamed(fs, d, a, b).r == Err::<(), FsError>(FsError::NotFound) && renamed(fs, d, a, b).disk == d
        },
        node_at(fs, d, a) matches Ok(Some(n)) ==> {
            &&& dir_made(fs, d, a).r == Err::<(), FsError>(FsError::Exists) && dir_made(fs, d, a).disk == d
            &&& n is Root || n->At_0.is_dir ==> written(fs, d, a, off, data).r == Err::<usize, FsError>(
                FsError::NotSupported,
            ) && written(fs, d, a, off, data).disk == d
            &&& n is Root ==> unlinked(fs, d, a).r == Err::<(), FsError>(FsError::NotSupported) && unlinked(fs, d, a).disk
                == d
            &&& n is At && n->At_0.is_dir ==> unlinked(fs, d, a).r == Err::<(), FsError>(FsError::IsDir) && unlinked(
                fs,
                d,
                a,
            ).disk == d
            &&& n is At && node_at(fs, d, b) is Ok && node_at(fs, d, b)->Ok_0 is Some ==> renamed(fs, d, a, b).r
                == Err::<(), FsError>(FsError::Exists) && renamed(fs, d, a, b).disk == d
            &&& n is At && node_at(fs, d, b) == Ok::<Option<Node>, FsError>(None) && parent_of(fs, d, b) is Ok
                && parent_of(fs, d, b)->Ok_0.0 != n->At_0.dir_cluster ==> renamed(fs, d, a, b).r == Err::<
                (),
                FsError,
            >(FsError::NotSupported) && renamed(fs, d, a, b).disk == d
        },
{
}

} // verus!
