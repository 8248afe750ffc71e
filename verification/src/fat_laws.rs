//! What a healthy FAT32 volume keeps: a read gives back what a write put
//! there, a removed file is gone, a new directory is there and empty, and a
//! renamed entry is what it was.
//!
//! A volume is healthy for a path when the directories on the way have proper
//! cluster chains that share nothing with each other or with the file.
use vstd::prelude::*;

use crate::ata::{sector_bytes, LBA28_MAX};
use crate::bytes::{law_le16_roundtrip, law_le32_roundtrip, le16, le16_bytes, le32, le32_bytes, splice};
use crate::fat::{
    allocated, base_of, chain, cluster, clusters_for, contents, created, data_put, deleted, dir_at,
    dir_entries, dir_lines, dir_made, dirent_saved, dots_slot, entry, ext_of, extended, file_part,
    file_written, first_free, first_named, fits_short, fitted, found, free_place, free_slot, freed,
    freed_upto, full_chain, gathered, is_named, lines, listing, new_dir, new_slot, next_of, node_at,
    renamed, saved_slot, scan_clusters, scan_slot, scan_slots, short_form, short_of, slot_entry,
    slot_home, span_at, status, stem, unlinked, with_cluster, with_entry, with_entry_in,
    write_target, written, Entry, Fat32, Grown, Node, Part, Scan, ATTR_LFN, EOC,
};
use crate::vfs::{
    is_dots, is_pending, lemma_fetched, path_parts, reachable, same_name, stored, Disk, FileStat, FsError, Line,
};

verus! {

// ---------------------------------------------------------------------------
// Geometry
// ---------------------------------------------------------------------------

/// The volume lies in reach of the drive, its table has an entry for every
/// cluster, and no cluster number is an end mark.
pub open spec fn roomy(fs: Fat32) -> bool {
    &&& fs.wf()
    &&& fs.total_clusters + 2 <= fs.fat_sectors * 128
    &&& fs.total_clusters + 1 < 0x0FFF_FFF8
    &&& fs.data_lba() + fs.total_clusters * fs.sectors_per_cluster <= LBA28_MAX + 1
}

/// The sectors of the volume are at hand.
pub open spec fn held(fs: Fat32, d: Disk) -> bool {
    forall|l: u32|
        fs.part_start <= l < fs.data_lba() + fs.total_clusters * fs.sectors_per_cluster
            ==> #[trigger] d.sectors.contains_key(l)
}

/// A cluster of the data region.
pub open spec fn valid(fs: Fat32, c: u32) -> bool {
    2 <= c <= fs.total_clusters + 1
}

/// The table entry of a cluster.
pub open spec fn ent(fs: Fat32, d: Disk, c: u32) -> u32 {
    le32(sector_bytes(d.sectors, fs.fat_lba(0, c as int) as u32, 1), c as int % 128 * 4) as u32
}

/// The bytes of a cluster.
pub open spec fn dat(fs: Fat32, d: Disk, c: u32) -> Seq<u8> {
    sector_bytes(d.sectors, fs.lba_of(c as int) as u32, fs.sectors_per_cluster as nat)
}

/// Where the parts of the volume lie.
proof fn lemma_places(fs: Fat32, c: u32, f: int)
    requires
        roomy(fs),
        valid(fs, c),
        0 <= f < fs.num_fats,
    ensures
        0 <= fs.fat_lba(f, c as int) < fs.data_lba() <= LBA28_MAX + 1,
        fs.fat_lba(f, c as int) >= fs.part_start + fs.reserved + f * fs.fat_sectors,
        fs.fat_lba(f, c as int) < fs.part_start + fs.reserved + (f + 1) * fs.fat_sectors,
        fs.data_lba() <= fs.lba_of(c as int),
        fs.lba_of(c as int) + fs.sectors_per_cluster <= fs.data_lba() + fs.total_clusters * fs.sectors_per_cluster,
        fs.lba_of(c as int) + fs.sectors_per_cluster <= LBA28_MAX + 1,
        reachable(fs.fat_lba(f, c as int), 1),
        reachable(fs.lba_of(c as int), fs.sectors_per_cluster),
{
    let (n, s, spc, t) = (
        fs.num_fats as int,
        fs.fat_sectors as int,
        fs.sectors_per_cluster as int,
        fs.total_clusters as int,
    );
    let cc = c as int;
    assert(c / 128 < fs.fat_sectors);
    assert(f * s + s == (f + 1) * s) by (nonlinear_arith);
    assert((f + 1) * s <= n * s) by (nonlinear_arith)
        requires
            f + 1 <= n,
            0 < s,
    ;
    assert(0 <= f * s) by (nonlinear_arith)
        requires
            0 <= f,
            0 < s,
    ;
    assert(0 <= (cc - 2) * spc && (cc - 2) * spc + spc <= t * spc) by (nonlinear_arith)
        requires
            2 <= cc <= t + 1,
            0 < spc,
    ;
}

proof fn lemma_reads(fs: Fat32, d: Disk, c: u32)
    requires
        roomy(fs),
        held(fs, d),
        valid(fs, c),
    ensures
        entry(fs, d, c) == Ok::<u32, FsError>(ent(fs, d, c)),
        cluster(fs, d, c) == Ok::<Seq<u8>, FsError>(dat(fs, d, c)),
        dat(fs, d, c).len() == fs.cluster_size(),
{
    lemma_places(fs, c, 0);
    lemma_fetched(d, fs.fat_lba(0, c as int), 1);
    lemma_fetched(d, fs.lba_of(c as int), fs.sectors_per_cluster);
}

/// Different clusters lie in different sectors.
proof fn lemma_clusters_apart(fs: Fat32, a: u32, b: u32)
    requires
        roomy(fs),
        valid(fs, a),
        valid(fs, b),
        a != b,
    ensures
        fs.lba_of(a as int) + fs.sectors_per_cluster <= fs.lba_of(b as int) || fs.lba_of(b as int)
            + fs.sectors_per_cluster <= fs.lba_of(a as int),
{
    let (x, y, s) = (a as int, b as int, fs.sectors_per_cluster as int);
    assert((x - 2) * s + s <= (y - 2) * s || (y - 2) * s + s <= (x - 2) * s) by (nonlinear_arith)
        requires
            x < y || y < x,
            0 < s,
    ;
}

/// Sectors outside of a write are as before.
proof fn lemma_elsewhere(d: Disk, lba: int, n: u8, data: Seq<u8>, at: int, m: u8)
    requires
        reachable(lba, n),
        reachable(at, m),
        at + m <= lba || lba + n <= at,
        forall|l: u32| at <= l < at + m ==> #[trigger] d.sectors.contains_key(l),
    ensures
        sector_bytes(stored(d, lba, n, data).disk.sectors, at as u32, m as nat) == sector_bytes(
            d.sectors,
            at as u32,
            m as nat,
        ),
{
    let a = sector_bytes(stored(d, lba, n, data).disk.sectors, at as u32, m as nat);
    let b = sector_bytes(d.sectors, at as u32, m as nat);
    assert forall|k: int| 0 <= k < 512 * m implies #[trigger] a[k] == b[k] by {
        let l = (at as u32 + k / 512) as u32;
        assert(at <= l < at + m);
        assert(d.sectors.contains_key(l));
    }
    assert(a =~= b);
}

/// The sectors of a write hold what was written.
proof fn lemma_here(d: Disk, lba: int, n: u8, data: Seq<u8>)
    requires
        reachable(lba, n),
        data.len() >= 512 * n,
    ensures
        stored(d, lba, n, data).r is Ok,
        sector_bytes(stored(d, lba, n, data).disk.sectors, lba as u32, n as nat) == data.take(512 * n as int),
{
    crate::ata::law_read_after_write(d.sectors, lba as u32, n as nat, data);
}

/// The disk `e` has the sectors of `d`.
proof fn lemma_still_held(fs: Fat32, d: Disk, lba: int, n: u8, data: Seq<u8>)
    requires
        held(fs, d),
    ensures
        held(fs, stored(d, lba, n, data).disk),
{
}

/// What a change of the table does: one entry of the first copy changes, and
/// no cluster does.
pub open spec fn entry_set(fs: Fat32, d: Disk, e: Disk, c: u32, v: u32) -> bool {
    &&& held(fs, e)
    &&& forall|x: u32| valid(fs, x) ==> #[trigger] ent(fs, e, x) == (if x == c { v } else { ent(fs, d, x) })
    &&& forall|x: u32| valid(fs, x) ==> #[trigger] dat(fs, e, x) == dat(fs, d, x)
}

proof fn lemma_entry_in(fs: Fat32, d: Disk, c: u32, v: u32, n: int)
    requires
        roomy(fs),
        held(fs, d),
        valid(fs, c),
        0 <= n <= fs.num_fats,
    ensures
        with_entry_in(fs, d, c, v, n).r is Ok,
        n >= 1 ==> entry_set(fs, d, with_entry_in(fs, d, c, v, n).disk, c, v),
        n == 0 ==> with_entry_in(fs, d, c, v, n).disk == d,
    decreases n,
{
    if n > 0 {
        lemma_entry_in(fs, d, c, v, n - 1);
        let o = with_entry_in(fs, d, c, v, n - 1).disk;
        lemma_places(fs, c, n - 1);
        let at = fs.fat_lba(n - 1, c as int);
        let was = sector_bytes(o.sectors, at as u32, 1);
        let put = splice(was, c as int % 128 * 4, le32_bytes(v as int));
        let e = stored(o, at, 1, put).disk;
        assert(was.len() == 512);
        lemma_fetched(o, at, 1);
        lemma_still_held(fs, o, at, 1, put);
        lemma_here(o, at, 1, put);
        assert(put.take(512) =~= put);
        assert(with_entry_in(fs, d, c, v, n).disk == e);
        assert forall|x: u32| valid(fs, x) implies #[trigger] dat(fs, e, x) == dat(fs, o, x) by {
            lemma_places(fs, x, 0);
            lemma_elsewhere(o, at, 1, put, fs.lba_of(x as int), fs.sectors_per_cluster);
        }
        assert forall|x: u32| valid(fs, x) implies #[trigger] ent(fs, e, x) == (if x == c && n == 1 {
            v
        } else {
            ent(fs, o, x)
        }) by {
            lemma_places(fs, x, 0);
            let p = fs.fat_lba(0, x as int);
            let s = fs.fat_sectors as int;
            if n - 1 >= 1 {
                assert(s <= (n - 1) * s) by (nonlinear_arith)
                    requires
                        n - 1 >= 1,
                        s > 0,
                ;
                lemma_elsewhere(o, at, 1, put, p, 1);
            } else if x / 128 != c / 128 {
                lemma_elsewhere(o, at, 1, put, p, 1);
            } else {
                let i = c as int % 128 * 4;
                let j = x as int % 128 * 4;
                if x == c {
                    law_le32_roundtrip(was, i, v);
                } else {
                    assert(i + 4 <= j || j + 4 <= i);
                    assert(put[j] == was[j] && put[j + 1] == was[j + 1] && put[j + 2] == was[j + 2] && put[j + 3]
                        == was[j + 3]);
                }
            }
        }
    }
}

proof fn lemma_with_entry(fs: Fat32, d: Disk, c: u32, v: u32)
    requires
        roomy(fs),
        held(fs, d),
        valid(fs, c),
    ensures
        with_entry(fs, d, c, v).r is Ok,
        entry_set(fs, d, with_entry(fs, d, c, v).disk, c, v),
{
    lemma_entry_in(fs, d, c, v, fs.num_fats as int);
}

/// The table's entry for a cluster in copy `f`.
pub open spec fn copy_ent(fs: Fat32, d: Disk, f: int, c: u32) -> u32 {
    le32(sector_bytes(d.sectors, fs.fat_lba(f, c as int) as u32, 1), c as int % 128 * 4) as u32
}

proof fn lemma_copies_apart(fs: Fat32, f: int, g: int)
    requires
        0 <= f < g,
        fs.fat_sectors > 0,
    ensures
        f * fs.fat_sectors + fs.fat_sectors <= g * fs.fat_sectors,
{
    let s = fs.fat_sectors as int;
    assert(f * s + s <= g * s) by (nonlinear_arith)
        requires
            f + 1 <= g,
            s > 0,
    ;
}

proof fn lemma_copies_set(fs: Fat32, d: Disk, c: u32, v: u32, n: int, f: int, x: u32)
    requires
        roomy(fs),
        held(fs, d),
        valid(fs, c),
        valid(fs, x),
        0 <= n <= fs.num_fats,
        0 <= f < fs.num_fats,
    ensures
        copy_ent(fs, with_entry_in(fs, d, c, v, n).disk, f, x) == (if f < n && x == c {
            v
        } else {
            copy_ent(fs, d, f, x)
        }),
    decreases n,
{
    if n > 0 {
        lemma_copies_set(fs, d, c, v, n - 1, f, x);
        lemma_entry_in(fs, d, c, v, n - 1);
        let o = with_entry_in(fs, d, c, v, n - 1).disk;
        assert(held(fs, o));
        lemma_places(fs, c, n - 1);
        lemma_places(fs, x, f);
        let at = fs.fat_lba(n - 1, c as int);
        let p = fs.fat_lba(f, x as int);
        let was = sector_bytes(o.sectors, at as u32, 1);
        let put = splice(was, c as int % 128 * 4, le32_bytes(v as int));
        assert(was.len() == 512);
        lemma_fetched(o, at, 1);
        lemma_here(o, at, 1, put);
        assert(put.take(512) =~= put);
        if f < n - 1 {
            lemma_copies_apart(fs, f, n - 1);
            lemma_elsewhere(o, at, 1, put, p, 1);
        } else if f > n - 1 {
            lemma_copies_apart(fs, n - 1, f);
            lemma_elsewhere(o, at, 1, put, p, 1);
        } else if x / 128 != c / 128 {
            lemma_elsewhere(o, at, 1, put, p, 1);
        } else {
            let i = c as int % 128 * 4;
            let j = x as int % 128 * 4;
            if x == c {
                law_le32_roundtrip(was, i, v);
            } else {
                assert(i + 4 <= j || j + 4 <= i);
                assert(put[j] == was[j] && put[j + 1] == was[j + 1] && put[j + 2] == was[j + 2] && put[j + 3]
                    == was[j + 3]);
            }
        }
    }
}

/// An entry of the table is set in every copy, and no other entry changes.
pub proof fn law_entries_are_mirrored(fs: Fat32, d: Disk, c: u32, v: u32, f: int, x: u32)
    requires
        roomy(fs),
        held(fs, d),
        valid(fs, c),
        valid(fs, x),
        0 <= f < fs.num_fats,
    ensures
        with_entry(fs, d, c, v).r is Ok,
        copy_ent(fs, with_entry(fs, d, c, v).disk, f, x) == (if x == c { v } else { copy_ent(fs, d, f, x) }),
{
    lemma_with_entry(fs, d, c, v);
    lemma_copies_set(fs, d, c, v, fs.num_fats as int, f, x);
}

/// What a change of a cluster does: that cluster changes, and nothing else.
pub open spec fn cluster_set(fs: Fat32, d: Disk, e: Disk, c: u32, b: Seq<u8>) -> bool {
    &&& held(fs, e)
    &&& forall|x: u32| valid(fs, x) ==> #[trigger] ent(fs, e, x) == ent(fs, d, x)
    &&& forall|x: u32| valid(fs, x) ==> #[trigger] dat(fs, e, x) == (if x == c { b } else { dat(fs, d, x) })
}

proof fn lemma_with_cluster(fs: Fat32, d: Disk, c: u32, data: Seq<u8>)
    requires
        roomy(fs),
        held(fs, d),
        valid(fs, c),
        data.len() == fs.cluster_size(),
    ensures
        with_cluster(fs, d, c, data).r is Ok,
        cluster_set(fs, d, with_cluster(fs, d, c, data).disk, c, data),
{
    lemma_places(fs, c, 0);
    let at = fs.lba_of(c as int);
    let n = fs.sectors_per_cluster;
    let e = stored(d, at, n, data).disk;
    lemma_here(d, at, n, data);
    assert(data.take(512 * n as int) =~= data);
    lemma_still_held(fs, d, at, n, data);
    assert forall|x: u32| valid(fs, x) implies #[trigger] ent(fs, e, x) == ent(fs, d, x) by {
        lemma_places(fs, x, 0);
        lemma_elsewhere(d, at, n, data, fs.fat_lba(0, x as int), 1);
    }
    assert forall|x: u32| valid(fs, x) implies #[trigger] dat(fs, e, x) == (if x == c {
        data
    } else {
        dat(fs, d, x)
    }) by {
        lemma_places(fs, x, 0);
        if x != c {
            lemma_clusters_apart(fs, x, c);
            lemma_elsewhere(d, at, n, data, fs.lba_of(x as int), n);
        }
    }
}

// ---------------------------------------------------------------------------
// Chains
// ---------------------------------------------------------------------------

/// A number that ends a chain.
pub open spec fn ends(v: u32) -> bool {
    v % 0x1000_0000 >= 0x0FFF_FFF8
}

/// `ch` is a proper chain from `first` on: its clusters are different clusters
/// of the volume, each linked to the next and the last one an end.
pub open spec fn linked(fs: Fat32, d: Disk, first: u32, ch: Seq<u32>) -> bool {
    &&& ch.len() >= 1
    &&& ch[0] == first
    &&& forall|i: int| 0 <= i < ch.len() ==> valid(fs, #[trigger] ch[i])
    &&& ch.no_duplicates()
    &&& forall|i: int| 0 <= i < ch.len() - 1 ==> #[trigger] ent(fs, d, ch[i]) % 0x1000_0000 == ch[i + 1]
    &&& ends(ent(fs, d, ch.last()))
}

/// A proper chain is no longer than the volume.
proof fn lemma_chain_fits(fs: Fat32, ch: Seq<u32>)
    requires
        forall|i: int| 0 <= i < ch.len() ==> valid(fs, #[trigger] ch[i]),
        ch.no_duplicates(),
    ensures
        ch.len() <= fs.total_clusters,
{
    let s = Seq::new(ch.len(), |i: int| ch[i] as int);
    assert(s.no_duplicates()) by {
        assert forall|i: int, j: int| 0 <= i < s.len() && 0 <= j < s.len() && i != j implies s[i] != s[j] by {
            assert(ch[i] != ch[j]);
        }
    }
    s.unique_seq_to_set();
    let all = vstd::set_lib::set_int_range(2, fs.total_clusters as int + 2);
    vstd::set_lib::lemma_int_range(2, fs.total_clusters as int + 2);
    assert(s.to_set().subset_of(all)) by {
        assert forall|x: int| s.to_set().contains(x) implies all.contains(x) by {
            let i = choose|i: int| 0 <= i < s.len() && s[i] == x;
            assert(valid(fs, ch[i]));
        }
    }
    vstd::set_lib::lemma_len_subset(s.to_set(), all);
}

proof fn lemma_next(fs: Fat32, d: Disk, ch: Seq<u32>, i: int)
    requires
        roomy(fs),
        held(fs, d),
        linked(fs, d, ch[0], ch),
        0 <= i < ch.len(),
    ensures
        next_of(fs, d, ch[i]) == Ok::<Option<u32>, FsError>(
            if i == ch.len() - 1 { None } else { Some(ch[i + 1]) },
        ),
{
    lemma_reads(fs, d, ch[i]);
    let v = ent(fs, d, ch[i]);
    if i == ch.len() - 1 {
        assert(ch[i] == ch.last());
    } else {
        assert(v % 0x1000_0000 == ch[i + 1]);
        assert(valid(fs, ch[i + 1]));
    }
}

proof fn lemma_walk(fs: Fat32, d: Disk, ch: Seq<u32>, i: int, max: int)
    requires
        roomy(fs),
        held(fs, d),
        linked(fs, d, ch[0], ch),
        0 <= i < ch.len(),
        ch.len() - i <= max,
    ensures
        chain(fs, d, ch[i], max) == Ok::<Seq<u32>, FsError>(ch.skip(i)),
    decreases ch.len() - i,
{
    lemma_next(fs, d, ch, i);
    if max <= 1 || i == ch.len() - 1 {
        assert(ch.skip(i) =~= seq![ch[i]]);
    } else {
        lemma_walk(fs, d, ch, i + 1, max - 1);
        assert(ch.skip(i) =~= seq![ch[i]] + ch.skip(i + 1));
    }
}

/// A proper chain is the one that a walk finds.
pub(crate) proof fn lemma_full_chain(fs: Fat32, d: Disk, first: u32, ch: Seq<u32>)
    requires
        roomy(fs),
        held(fs, d),
        linked(fs, d, first, ch),
    ensures
        full_chain(fs, d, first) == Ok::<Seq<u32>, FsError>(ch),
        ch.len() <= fs.total_clusters,
{
    lemma_chain_fits(fs, ch);
    lemma_walk(fs, d, ch, 0, fs.total_clusters as int);
    assert(ch.skip(0) =~= ch);
}

/// The entries of a proper chain are not free.
pub(crate) proof fn lemma_in_use(fs: Fat32, d: Disk, first: u32, ch: Seq<u32>, i: int)
    requires
        roomy(fs),
        linked(fs, d, first, ch),
        0 <= i < ch.len(),
    ensures
        ent(fs, d, ch[i]) != 0,
{
    if i < ch.len() - 1 {
        assert(ent(fs, d, ch[i]) % 0x1000_0000 == ch[i + 1]);
        assert(valid(fs, ch[i + 1]));
    }
}

/// A chain whose entries do not change stays.
pub(crate) proof fn lemma_chain_stays(fs: Fat32, d: Disk, e: Disk, first: u32, ch: Seq<u32>)
    requires
        linked(fs, d, first, ch),
        forall|i: int| 0 <= i < ch.len() ==> ent(fs, e, #[trigger] ch[i]) == ent(fs, d, ch[i]),
    ensures
        linked(fs, e, first, ch),
{
    assert(ent(fs, e, ch[ch.len() - 1]) == ent(fs, d, ch[ch.len() - 1]));
}

proof fn lemma_first_free(fs: Fat32, d: Disk, c: int)
    requires
        roomy(fs),
        held(fs, d),
        2 <= c,
        first_free(fs, d, c) is Ok,
    ensures
        valid(fs, first_free(fs, d, c)->Ok_0),
        ent(fs, d, first_free(fs, d, c)->Ok_0) == 0,
    decreases fs.total_clusters + 2 - c,
{
    if c <= 1 + fs.total_clusters {
        lemma_reads(fs, d, c as u32);
        if ent(fs, d, c as u32) != 0 {
            lemma_first_free(fs, d, c + 1);
        }
    }
}

/// No cluster changed between `d` and `e`.
pub open spec fn same_data(fs: Fat32, d: Disk, e: Disk) -> bool {
    forall|x: u32| valid(fs, x) ==> #[trigger] dat(fs, e, x) == dat(fs, d, x)
}

/// Taking a cluster: it was free, it ends a chain now, and `prev` leads to it.
pub(crate) proof fn lemma_allocated(fs: Fat32, d: Disk, prev: Option<u32>)
    requires
        roomy(fs),
        held(fs, d),
        prev matches Some(p) ==> valid(fs, p) && ent(fs, d, p) != 0,
        allocated(fs, d, prev).r is Ok,
    ensures
        ({
            let e = allocated(fs, d, prev).disk;
            let c = allocated(fs, d, prev).r->Ok_0;
            &&& valid(fs, c)
            &&& ent(fs, d, c) == 0
            &&& held(fs, e)
            &&& same_data(fs, d, e)
            &&& ent(fs, e, c) == EOC
            &&& prev matches Some(p) ==> p != c && ent(fs, e, p) == c
            &&& forall|x: u32|
                valid(fs, x) && x != c && (prev matches Some(p) ==> x != p) ==> #[trigger] ent(fs, e, x) == ent(
                    fs,
                    d,
                    x,
                )
        }),
{
    lemma_first_free(fs, d, 2);
    let c = first_free(fs, d, 2)->Ok_0;
    lemma_with_entry(fs, d, c, EOC);
    let o = with_entry(fs, d, c, EOC).disk;
    if let Some(p) = prev {
        lemma_with_entry(fs, o, p, c);
    }
}

/// What making a chain longer keeps: its clusters stay its front, the new
/// ones were free, and the rest of the table is as it was.
pub open spec fn grew(fs: Fat32, d: Disk, g: Grown, e: Disk, h: Grown) -> bool {
    &&& held(fs, e)
    &&& same_data(fs, d, e)
    &&& g.chain.len() <= h.chain.len()
    &&& h.chain.take(g.chain.len() as int) == g.chain
    &&& forall|i: int| g.chain.len() <= i < h.chain.len() ==> ent(fs, d, #[trigger] h.chain[i]) == 0
    &&& forall|x: u32| valid(fs, x) && !h.chain.contains(x) ==> #[trigger] ent(fs, e, x) == ent(fs, d, x)
}

/// The chain with one more cluster.
pub open spec fn one_more(g: Grown, c: u32) -> Grown {
    Grown { first: if g.chain.len() == 0 { c } else { g.first }, chain: g.chain.push(c) }
}

/// The last cluster of a chain, if it has one.
pub open spec fn tail_of(g: Grown) -> Option<u32> {
    if g.chain.len() == 0 { None } else { Some(g.chain.last()) }
}

/// A chain with a fresh cluster behind it is proper.
proof fn lemma_one_more(fs: Fat32, d: Disk, g: Grown)
    requires
        roomy(fs),
        held(fs, d),
        g.chain.len() == 0 || linked(fs, d, g.first, g.chain),
        allocated(fs, d, tail_of(g)).r is Ok,
    ensures
        ({
            let a = allocated(fs, d, tail_of(g)).disk;
            let h = one_more(g, allocated(fs, d, tail_of(g)).r->Ok_0);
            &&& grew(fs, d, g, a, h)
            &&& linked(fs, a, h.first, h.chain)
        }),
{
    let n = g.chain.len() as int;
    if n > 0 {
        lemma_in_use(fs, d, g.first, g.chain, n - 1);
        assert(valid(fs, g.chain[n - 1]));
    }
    lemma_allocated(fs, d, tail_of(g));
    let a = allocated(fs, d, tail_of(g)).disk;
    let c = allocated(fs, d, tail_of(g)).r->Ok_0;
    let h = one_more(g, c);
    let ch = h.chain;
    assert forall|i: int| 0 <= i < n implies #[trigger] g.chain[i] != c by {
        lemma_in_use(fs, d, g.first, g.chain, i);
    }
    assert forall|i: int| 0 <= i < ch.len() - 1 implies #[trigger] ent(fs, a, ch[i]) % 0x1000_0000 == ch[i + 1] by {
        if i == n - 1 {
            assert(ch[i] == g.chain.last());
        } else {
            assert(g.chain[i] != g.chain[n - 1]);
            assert(valid(fs, g.chain[i]));
            assert(ent(fs, d, g.chain[i]) % 0x1000_0000 == g.chain[i + 1]);
        }
    }
    assert forall|i: int| 0 <= i < ch.len() implies valid(fs, #[trigger] ch[i]) by {
        if i < n {
            assert(valid(fs, g.chain[i]));
        }
    }
    assert(ch.last() == c);
    assert(ch.take(n) =~= g.chain);
    assert(ch[n] == c);
    assert forall|x: u32| valid(fs, x) && !ch.contains(x) implies #[trigger] ent(fs, a, x) == ent(fs, d, x) by {
        assert(ch.contains(ch[n]));
        if n > 0 {
            assert(ch[n - 1] == g.chain[n - 1]);
            assert(ch.contains(ch[n - 1]));
        }
    }
}

proof fn lemma_grew_on(fs: Fat32, d: Disk, g: Grown, a: Disk, m: Grown, e: Disk, h: Grown)
    requires
        grew(fs, d, g, a, m),
        grew(fs, a, m, e, h),
        m.chain.len() == g.chain.len() + 1,
        h.chain.no_duplicates(),
        forall|i: int| 0 <= i < h.chain.len() ==> valid(fs, #[trigger] h.chain[i]),
    ensures
        grew(fs, d, g, e, h),
{
    let n = g.chain.len() as int;
    assert forall|i: int| 0 <= i <= n implies #[trigger] h.chain[i] == m.chain[i] by {
        assert(h.chain.take(n + 1)[i] == m.chain[i]);
    }
    assert forall|i: int| 0 <= i < n implies #[trigger] h.chain[i] == g.chain[i] by {
        assert(m.chain.take(n)[i] == g.chain[i]);
        assert(h.chain[i] == m.chain[i]);
    }
    assert(h.chain.take(n) =~= g.chain);
    assert forall|i: int| n <= i < h.chain.len() implies ent(fs, d, #[trigger] h.chain[i]) == 0 by {
        if i == n {
            assert(ent(fs, d, m.chain[n]) == 0);
        } else {
            assert(ent(fs, a, h.chain[i]) == 0);
            assert(!m.chain.contains(h.chain[i])) by {
                if m.chain.contains(h.chain[i]) {
                    let j = choose|j: int| 0 <= j < m.chain.len() && m.chain[j] == h.chain[i];
                    assert(h.chain[j] == h.chain[i]);
                }
            }
        }
    }
    assert forall|x: u32| valid(fs, x) && !h.chain.contains(x) implies #[trigger] ent(fs, e, x) == ent(fs, d, x) by {
        assert(!m.chain.contains(x)) by {
            if m.chain.contains(x) {
                let j = choose|j: int| 0 <= j < m.chain.len() && m.chain[j] == x;
                assert(h.chain[j] == x);
            }
        }
        assert(ent(fs, a, x) == ent(fs, d, x));
    }
    assert forall|x: u32| valid(fs, x) implies #[trigger] dat(fs, e, x) == dat(fs, d, x) by {
        assert(dat(fs, a, x) == dat(fs, d, x));
    }
}

proof fn lemma_extended(fs: Fat32, d: Disk, g: Grown, need: int)
    requires
        roomy(fs),
        held(fs, d),
        g.chain.len() == 0 || linked(fs, d, g.first, g.chain),
        extended(fs, d, g, need).r is Ok,
    ensures
        ({
            let e = extended(fs, d, g, need).disk;
            let h = extended(fs, d, g, need).r->Ok_0;
            &&& grew(fs, d, g, e, h)
            &&& h.chain.len() == (if g.chain.len() >= need { g.chain.len() as int } else { need })
            &&& h.chain.len() >= 1 ==> linked(fs, e, h.first, h.chain)
        }),
    decreases need - g.chain.len(),
{
    if g.chain.len() >= need {
        assert(g.chain.take(g.chain.len() as int) =~= g.chain);
    } else {
        lemma_one_more(fs, d, g);
        let a = allocated(fs, d, tail_of(g)).disk;
        let m = one_more(g, allocated(fs, d, tail_of(g)).r->Ok_0);
        lemma_extended(fs, a, m, need);
        let e = extended(fs, a, m, need).disk;
        let h = extended(fs, a, m, need).r->Ok_0;
        assert(extended(fs, d, g, need) == extended(fs, a, m, need));
        lemma_grew_on(fs, d, g, a, m, e, h);
    }
}

proof fn lemma_freed_upto(fs: Fat32, d: Disk, ch: Seq<u32>, keep: int, n: int)
    requires
        roomy(fs),
        held(fs, d),
        forall|i: int| 0 <= i < ch.len() ==> valid(fs, #[trigger] ch[i]),
        0 <= keep <= n <= ch.len(),
    ensures
        ({
            let o = freed_upto(fs, d, ch, keep, n);
            &&& o.r is Ok
            &&& held(fs, o.disk)
            &&& same_data(fs, d, o.disk)
            &&& forall|x: u32|
                valid(fs, x) && !ch.subrange(keep, n).contains(x) ==> #[trigger] ent(fs, o.disk, x) == ent(fs, d, x)
            &&& forall|i: int| keep <= i < n ==> ent(fs, o.disk, #[trigger] ch[i]) == 0
        }),
    decreases n - keep,
{
    if n > keep {
        lemma_freed_upto(fs, d, ch, keep, n - 1);
        let o = freed_upto(fs, d, ch, keep, n - 1).disk;
        assert(valid(fs, ch[n - 1]));
        lemma_with_entry(fs, o, ch[n - 1], 0);
        let e = with_entry(fs, o, ch[n - 1], 0).disk;
        let was = ch.subrange(keep, n - 1);
        let now = ch.subrange(keep, n);
        assert forall|x: u32| valid(fs, x) && !now.contains(x) implies #[trigger] ent(fs, e, x) == ent(fs, d, x) by {
            assert(now[n - 1 - keep] == ch[n - 1]);
            assert(!was.contains(x)) by {
                if was.contains(x) {
                    let j = choose|j: int| 0 <= j < was.len() && was[j] == x;
                    assert(now[j] == x);
                }
            }
        }
    }
}

/// Cutting a chain keeps its front and touches nothing but the chain.
proof fn lemma_freed(fs: Fat32, d: Disk, first: u32, ch: Seq<u32>, keep: int)
    requires
        roomy(fs),
        held(fs, d),
        linked(fs, d, first, ch),
        1 <= keep <= ch.len(),
    ensures
        ({
            let o = freed(fs, d, first, keep);
            &&& o.r is Ok
            &&& held(fs, o.disk)
            &&& same_data(fs, d, o.disk)
            &&& linked(fs, o.disk, first, ch.take(keep))
            &&& forall|x: u32| valid(fs, x) && !ch.contains(x) ==> #[trigger] ent(fs, o.disk, x) == ent(fs, d, x)
        }),
{
    lemma_full_chain(fs, d, first, ch);
    let n = ch.len() as int;
    lemma_freed_upto(fs, d, ch, keep, n);
    let o = freed_upto(fs, d, ch, keep, n).disk;
    let p = ch[keep - 1];
    assert(valid(fs, p));
    lemma_with_entry(fs, o, p, EOC);
    let e = with_entry(fs, o, p, EOC).disk;
    let cut = ch.take(keep);
    let rest = ch.subrange(keep, n);
    assert forall|i: int| 0 <= i < keep implies !rest.contains(#[trigger] ch[i]) by {
        if rest.contains(ch[i]) {
            let j = choose|j: int| 0 <= j < rest.len() && rest[j] == ch[i];
            assert(ch[keep + j] == ch[i]);
        }
    }
    assert forall|i: int| 0 <= i < cut.len() - 1 implies #[trigger] ent(fs, e, cut[i]) % 0x1000_0000 == cut[i + 1] by {
        assert(cut[i] == ch[i] && ch[i] != p);
        assert(valid(fs, ch[i]));
        assert(ent(fs, o, ch[i]) == ent(fs, d, ch[i]));
    }
    assert forall|i: int| 0 <= i < cut.len() implies valid(fs, #[trigger] cut[i]) by {
        assert(valid(fs, ch[i]));
    }
    assert(cut.last() == p);
    assert forall|x: u32| valid(fs, x) && !ch.contains(x) implies #[trigger] ent(fs, e, x) == ent(fs, d, x) by {
        assert(!rest.contains(x)) by {
            if rest.contains(x) {
                let j = choose|j: int| 0 <= j < rest.len() && rest[j] == x;
                assert(ch[keep + j] == x);
            }
        }
        assert(ch.contains(ch[keep - 1]));
    }
}

/// The chain of a file, empty where it has no cluster yet.
pub open spec fn proper(fs: Fat32, d: Disk, first: u32, ch: Seq<u32>) -> bool {
    if first == 0 { ch.len() == 0 } else { linked(fs, d, first, ch) }
}

/// What fitting the chain of a file to its end does.
pub(crate) proof fn lemma_fitted(fs: Fat32, d: Disk, first: u32, ch: Seq<u32>, end: int)
    requires
        roomy(fs),
        held(fs, d),
        proper(fs, d, first, ch),
        end >= 1,
        fitted(fs, d, first, end).r is Ok,
    ensures
        ({
            let e = fitted(fs, d, first, end).disk;
            let h = fitted(fs, d, first, end).r->Ok_0;
            &&& held(fs, e)
            &&& same_data(fs, d, e)
            &&& linked(fs, e, h.first, h.chain)
            &&& h.chain.len() == clusters_for(fs, end)
            &&& forall|x: u32|
                valid(fs, x) && ent(fs, d, x) != 0 && !ch.contains(x) ==> #[trigger] ent(fs, e, x) == ent(fs, d, x)
                    && !h.chain.contains(x)
        }),
{
    let need = clusters_for(fs, end);
    let cb = fs.cluster_size();
    assert(need >= 1) by (nonlinear_arith)
        requires
            need == (end + cb - 1) / cb,
            end >= 1,
            cb >= 1,
    ;
    if first != 0 {
        lemma_full_chain(fs, d, first, ch);
    } else {
        assert(ch =~= Seq::empty());
    }
    let g = Grown { first, chain: ch };
    let x1 = extended(fs, d, g, need);
    lemma_extended(fs, d, g, need);
    let h = x1.r->Ok_0;
    assert forall|x: u32| valid(fs, x) && ent(fs, d, x) != 0 && !ch.contains(x) implies !h.chain.contains(x)
        && #[trigger] ent(fs, x1.disk, x) == ent(fs, d, x) by {
        if h.chain.contains(x) {
            let j = choose|j: int| 0 <= j < h.chain.len() && h.chain[j] == x;
            if j < ch.len() {
                assert(h.chain.take(ch.len() as int)[j] == ch[j]);
                assert(ch.contains(ch[j]));
            } else {
                assert(ent(fs, d, h.chain[j]) == 0);
            }
        }
    }
    if h.chain.len() > need {
        assert(h.chain =~= ch) by {
            assert(h.chain.take(ch.len() as int) =~= h.chain);
        }
        lemma_freed(fs, x1.disk, h.first, h.chain, need);
        let cut = h.chain.take(need);
        assert forall|x: u32| valid(fs, x) && ent(fs, d, x) != 0 && !ch.contains(x) implies !cut.contains(x)
            && #[trigger] ent(fs, fitted(fs, d, first, end).disk, x) == ent(fs, d, x) by {
            assert(ent(fs, x1.disk, x) == ent(fs, d, x));
            if cut.contains(x) {
                let j = choose|j: int| 0 <= j < cut.len() && cut[j] == x;
                assert(h.chain[j] == x);
            }
        }
    }
}

// ---------------------------------------------------------------------------
// Data along a chain
// ---------------------------------------------------------------------------

/// Byte `k` of the clusters of a chain.
pub open spec fn byte_of(fs: Fat32, d: Disk, ch: Seq<u32>, k: int) -> u8 {
    dat(fs, d, ch[k / fs.cluster_size()])[k % fs.cluster_size()]
}

/// All but the clusters of `ch` is the same.
pub open spec fn only_in(fs: Fat32, d: Disk, e: Disk, ch: Seq<u32>) -> bool {
    &&& held(fs, e)
    &&& forall|x: u32| valid(fs, x) ==> #[trigger] ent(fs, e, x) == ent(fs, d, x)
    &&& forall|x: u32| valid(fs, x) && !ch.contains(x) ==> #[trigger] dat(fs, e, x) == dat(fs, d, x)
}

/// Putting data along a chain changes exactly the bytes it covers.
proof fn lemma_data_put(fs: Fat32, d: Disk, ch: Seq<u32>, pos: int, data: Seq<u8>)
    requires
        roomy(fs),
        held(fs, d),
        forall|i: int| 0 <= i < ch.len() ==> valid(fs, #[trigger] ch[i]),
        ch.no_duplicates(),
        0 <= pos,
        pos + data.len() <= ch.len() * fs.cluster_size(),
    ensures
        ({
            let o = data_put(fs, d, ch, pos, data);
            &&& o.r is Ok
            &&& only_in(fs, d, o.disk, ch)
            &&& forall|k: int|
                0 <= k < ch.len() * fs.cluster_size() ==> #[trigger] byte_of(fs, o.disk, ch, k) == (if pos <= k < pos
                    + data.len() { data[k - pos] } else { byte_of(fs, d, ch, k) })
        }),
    decreases data.len(),
{
    let cb = fs.cluster_size();
    let room = cb - pos % cb;
    let take = if room < data.len() { room } else { data.len() as int };
    let q = pos / cb;
    lemma_split(pos, cb, ch.len() as int, data.len() as int);
    if data.len() > 0 {
        assert(0 <= q < ch.len());
        let c = ch[q];
        assert(valid(fs, c));
        lemma_reads(fs, d, c);
        let buf = dat(fs, d, c);
        let put = if take == cb { data.take(take) } else { splice(buf, pos % cb, data.take(take)) };
        lemma_with_cluster(fs, d, c, put);
        let e = with_cluster(fs, d, c, put).disk;
        lemma_split(pos + take, cb, ch.len() as int, data.len() - take);
        assert(data.skip(take).len() == data.len() - take);
        lemma_data_put(fs, e, ch, pos + take, data.skip(take));
        let o = data_put(fs, e, ch, pos + take, data.skip(take)).disk;
        assert(data_put(fs, d, ch, pos, data) == data_put(fs, e, ch, pos + take, data.skip(take)));
        assert(ch.contains(ch[q]));
        assert forall|k: int| 0 <= k < ch.len() * cb implies #[trigger] byte_of(fs, o, ch, k) == (if pos <= k < pos
            + data.len() { data[k - pos] } else { byte_of(fs, d, ch, k) }) by {
            lemma_split(k, cb, ch.len() as int, 0);
            let i = k / cb;
            assert(0 <= i < ch.len()) by (nonlinear_arith)
                requires
                    i == k / cb,
                    0 <= k < ch.len() * cb,
                    cb > 0,
            ;
            assert(valid(fs, ch[i]));
            if i == q {
                assert(byte_of(fs, e, ch, k) == put[k % cb]);
                assert(k - pos == k % cb - pos % cb);
            } else {
                assert(ch[i] != ch[q]);
                assert(byte_of(fs, e, ch, k) == byte_of(fs, d, ch, k));
                assert(!(pos <= k < pos + take)) by {
                    if pos <= k < pos + take {
                        assert(k / cb == q) by (nonlinear_arith)
                            requires
                                pos <= k < pos + take,
                                take <= cb - pos % cb,
                                pos == cb * q + pos % cb,
                                0 <= pos % cb < cb,
                                q == pos / cb,
                        ;
                    }
                }
            }
        }
        assert forall|x: u32| valid(fs, x) && !ch.contains(x) implies #[trigger] dat(fs, o, x) == dat(fs, d, x) by {
            assert(dat(fs, e, x) == dat(fs, d, x));
        }
    }
}

/// Quotient and remainder of a place along a chain.
pub(crate) proof fn lemma_split(pos: int, cb: int, n: int, m: int)
    requires
        0 <= pos,
        cb > 0,
        0 <= m,
        pos + m <= n * cb,
    ensures
        pos == cb * (pos / cb) + pos % cb,
        0 <= pos % cb < cb,
        0 <= pos / cb,
        m > 0 ==> pos / cb < n,
{
    vstd::arithmetic::div_mod::lemma_fundamental_div_mod(pos, cb);
    vstd::arithmetic::div_mod::lemma_div_pos_is_pos(pos, cb);
    let q = pos / cb;
    let r = pos % cb;
    if m > 0 {
        assert(q < n) by (nonlinear_arith)
            requires
                pos == cb * q + r,
                0 <= r,
                pos < n * cb,
                cb > 0,
        ;
    }
}

/// Gathering along a chain gives its bytes.
proof fn lemma_gathered(fs: Fat32, d: Disk, ch: Seq<u32>, size: int, pos: int, n: int)
    requires
        roomy(fs),
        held(fs, d),
        forall|i: int| 0 <= i < ch.len() ==> valid(fs, #[trigger] ch[i]),
        0 <= pos,
        n >= 1,
        pos + n <= size,
        pos + n <= ch.len() * fs.cluster_size(),
    ensures
        gathered(fs, d, ch, size, pos, n) == Ok::<Seq<u8>, FsError>(
            Seq::new(n as nat, |i: int| byte_of(fs, d, ch, pos + i)),
        ),
    decreases n,
{
    let cb = fs.cluster_size();
    let q = pos / cb;
    let take = span_at(fs, size, pos, n);
    lemma_split(pos, cb, ch.len() as int, n);
    assert(valid(fs, ch[q]));
    lemma_reads(fs, d, ch[q]);
    let buf = dat(fs, d, ch[q]);
    let here = buf.subrange(pos % cb, pos % cb + take);
    let all = Seq::new(n as nat, |i: int| byte_of(fs, d, ch, pos + i));
    assert forall|i: int| 0 <= i < take implies #[trigger] here[i] == byte_of(fs, d, ch, pos + i) by {
        let k = pos + i;
        assert(k / cb == q && k % cb == pos % cb + i) by {
            vstd::arithmetic::div_mod::lemma_fundamental_div_mod_converse(k, cb, q, pos % cb + i);
        }
    }
    if take >= n {
        assert(here =~= all);
    } else {
        assert(take == cb - pos % cb);
        assert(pos + take == cb * (q + 1)) by (nonlinear_arith)
            requires
                take == cb - pos % cb,
                pos == cb * q + pos % cb,
        ;
        assert(q + 1 < ch.len()) by (nonlinear_arith)
            requires
                pos + take == cb * (q + 1),
                pos + take < ch.len() * cb,
                cb > 0,
        ;
        lemma_gathered(fs, d, ch, size, pos + take, n - take);
        let rest = Seq::new((n - take) as nat, |i: int| byte_of(fs, d, ch, pos + take + i));
        assert(here + rest =~= all) by {
            assert forall|i: int| 0 <= i < n implies (here + rest)[i] == all[i] by {
                if i >= take {
                    assert((here + rest)[i] == rest[i - take]);
                }
            }
        }
    }
}

// ---------------------------------------------------------------------------
// Directories
// ---------------------------------------------------------------------------

/// Slots of a cluster.
pub open spec fn per(fs: Fat32) -> int {
    fs.cluster_size() / 32
}

/// Slot `j` of the directory on the chain `ch`.
pub open spec fn slot_of(fs: Fat32, d: Disk, ch: Seq<u32>, j: int) -> Seq<u8> {
    dat(fs, d, ch[j / per(fs)]).subrange(32 * (j % per(fs)), 32 * (j % per(fs)) + 32)
}

/// The slots of a directory, by number.
pub open spec fn slots(fs: Fat32, d: Disk, ch: Seq<u32>) -> spec_fn(int) -> Seq<u8> {
    |j: int| slot_of(fs, d, ch, j)
}

/// The scan of a directory after `j` of its slots.
pub open spec fn after(f: spec_fn(int) -> Seq<u8>, dir: u32, j: int) -> Scan
    decreases j,
{
    if j <= 0 {
        Scan { out: Seq::empty(), lfn: Seq::empty(), done: false }
    } else {
        scan_slot(after(f, dir, j - 1), f(j - 1), j - 1, dir)
    }
}

/// A slot that holds an entry.
pub open spec fn plain(s: Seq<u8>) -> bool {
    s[0] != 0 && s[0] != 0xE5 && s[11] != ATTR_LFN && s[11] / 8 % 2 != 1
}

pub(crate) proof fn lemma_done_stays(f: spec_fn(int) -> Seq<u8>, dir: u32, i: int, j: int)
    requires
        0 <= i <= j,
        after(f, dir, i).done,
    ensures
        after(f, dir, j) == after(f, dir, i),
    decreases j - i,
{
    if i < j {
        lemma_done_stays(f, dir, i, j - 1);
    }
}

proof fn lemma_slots_scanned(fs: Fat32, d: Disk, ch: Seq<u32>, dir: u32, n: int, m: int)
    requires
        fs.wf(),
        0 <= n < ch.len(),
        0 <= m <= per(fs),
    ensures
        scan_slots(after(slots(fs, d, ch), dir, n * per(fs)), dat(fs, d, ch[n]), m, n * per(fs), dir) == after(
            slots(fs, d, ch),
            dir,
            n * per(fs) + m,
        ),
    decreases m,
{
    let p = per(fs);
    assert(p >= 16);
    assert(n * p >= 0) by (nonlinear_arith)
        requires
            n >= 0,
            p >= 16,
    ;
    if m > 0 {
        lemma_slots_scanned(fs, d, ch, dir, n, m - 1);
        let j = n * p + m - 1;
        assert(j == p * n + (m - 1)) by (nonlinear_arith)
            requires
                j == n * p + m - 1,
        ;
        vstd::arithmetic::div_mod::lemma_fundamental_div_mod_converse(j, p, n, m - 1);
        assert(slots(fs, d, ch)(j) == dat(fs, d, ch[n]).subrange(32 * (m - 1), 32 * m));
    }
}

proof fn lemma_clusters_scanned(fs: Fat32, d: Disk, ch: Seq<u32>, dir: u32, n: int)
    requires
        roomy(fs),
        held(fs, d),
        forall|i: int| 0 <= i < ch.len() ==> valid(fs, #[trigger] ch[i]),
        0 <= n <= ch.len(),
    ensures
        scan_clusters(fs, d, ch, n, dir) == Ok::<Scan, FsError>(after(slots(fs, d, ch), dir, n * per(fs))),
    decreases n,
{
    let p = per(fs);
    if n > 0 {
        lemma_clusters_scanned(fs, d, ch, dir, n - 1);
        assert(valid(fs, ch[n - 1]));
        lemma_reads(fs, d, ch[n - 1]);
        lemma_slots_scanned(fs, d, ch, dir, n - 1, p);
        assert((n - 1) * p + p == n * p) by (nonlinear_arith);
        assert((n - 1) * p >= 0) by (nonlinear_arith)
            requires
                n >= 1,
                p >= 16,
        ;
        if after(slots(fs, d, ch), dir, (n - 1) * p).done {
            lemma_done_stays(slots(fs, d, ch), dir, (n - 1) * p, n * p);
        }
    } else {
        assert(n * p == 0) by (nonlinear_arith)
            requires
                n == 0,
        ;
    }
}

/// The entries of a directory whose chain is proper.
pub(crate) proof fn lemma_dir_entries(fs: Fat32, d: Disk, dir: u32, ch: Seq<u32>)
    requires
        roomy(fs),
        held(fs, d),
        linked(fs, d, dir, ch),
    ensures
        dir_entries(fs, d, dir) == Ok::<Seq<Entry>, FsError>(
            after(slots(fs, d, ch), dir, ch.len() * per(fs)).out,
        ),
{
    lemma_full_chain(fs, d, dir, ch);
    lemma_clusters_scanned(fs, d, ch, dir, ch.len() as int);
}

/// Every entry of a scan stands in a slot that holds one.
pub(crate) proof fn lemma_entries_plain(f: spec_fn(int) -> Seq<u8>, dir: u32, j: int, k: int)
    requires
        0 <= j,
        0 <= k < after(f, dir, j).out.len(),
    ensures
        0 <= after(f, dir, j).out[k].dir_index < j,
        plain(f(after(f, dir, j).out[k].dir_index)),
        after(f, dir, j).out[k].dir_cluster == dir,
    decreases j,
{
    if j > 0 {
        if k < after(f, dir, j - 1).out.len() {
            lemma_entries_plain(f, dir, j - 1, k);
        }
    }
}

/// A longer scan keeps the entries of a shorter one in front.
pub(crate) proof fn lemma_scan_grows(f: spec_fn(int) -> Seq<u8>, dir: u32, i: int, j: int)
    requires
        0 <= i <= j,
    ensures
        after(f, dir, i).out.len() <= after(f, dir, j).out.len(),
        after(f, dir, j).out.take(after(f, dir, i).out.len() as int) == after(f, dir, i).out,
    decreases j - i,
{
    let a = after(f, dir, i).out;
    if i < j {
        lemma_scan_grows(f, dir, i, j - 1);
        let b = after(f, dir, j - 1).out;
        let c = after(f, dir, j).out;
        assert(c.take(a.len() as int) =~= b.take(a.len() as int));
    } else {
        assert(a.take(a.len() as int) =~= a);
    }
}

pub(crate) proof fn lemma_same_scan(f: spec_fn(int) -> Seq<u8>, g: spec_fn(int) -> Seq<u8>, dir: u32, j: int)
    requires
        forall|i: int| 0 <= i < j ==> #[trigger] g(i) == f(i),
    ensures
        after(g, dir, j) == after(f, dir, j),
    decreases j,
{
    if j > 0 {
        lemma_same_scan(f, g, dir, j - 1);
        assert(g(j - 1) == f(j - 1));
    }
}

/// An entry with another start and size.
pub open spec fn renewed(e: Entry, first: u32, size: u32) -> Entry {
    Entry { first_cluster: first, size, ..e }
}

/// Entries with the one of slot `j` renewed.
pub open spec fn renewed_at(es: Seq<Entry>, j: int, first: u32, size: u32) -> Seq<Entry> {
    es.map_values(|e: Entry| if e.dir_index == j { renewed(e, first, size) } else { e })
}

/// The two slots agree but for start and size.
pub open spec fn alike(s: Seq<u8>, t: Seq<u8>) -> bool {
    s.len() == 32 && t.len() == 32 && forall|i: int| 0 <= i < 20 ==> #[trigger] t[i] == s[i]
}

proof fn lemma_stem(s: Seq<u8>, t: Seq<u8>, i: int, to: int, lower: bool)
    requires
        0 <= i,
        to <= 11,
        s.len() == t.len(),
        forall|k: int| 0 <= k < 11 ==> #[trigger] t[k] == s[k],
    ensures
        stem(t, i, to, lower) == stem(s, i, to, lower),
    decreases to - i,
{
    if i < to {
        assert(t[i] == s[i]);
        lemma_stem(s, t, i + 1, to, lower);
    }
}

proof fn lemma_short_alike(s: Seq<u8>, t: Seq<u8>)
    requires
        alike(s, t),
    ensures
        short_of(t) == short_of(s),
        plain(t) == plain(s),
{
    assert(t[0] == s[0] && t[8] == s[8] && t[9] == s[9] && t[10] == s[10] && t[11] == s[11] && t[12] == s[12]);
    let a = if s[0] == 0x05 { s.update(0, 0xE5) } else { s };
    let b = if t[0] == 0x05 { t.update(0, 0xE5) } else { t };
    assert forall|k: int| 0 <= k < 11 implies #[trigger] b[k] == a[k] by {
        assert(t[k] == s[k]);
    }
    lemma_stem(a, b, 0, 8, s[12] / 8 % 2 == 1);
    lemma_stem(a, b, 8, 11, s[12] / 16 % 2 == 1);
}

/// Start and size of the entry in a slot.
pub open spec fn start_in(s: Seq<u8>) -> u32 {
    (0x1_0000 * le16(s, 20) + le16(s, 26)) as u32
}

pub open spec fn size_in(s: Seq<u8>) -> u32 {
    le32(s, 28) as u32
}

/// A scan with one entry's slot renewed finds the same entries, that one
/// renewed.
proof fn lemma_renewed_scan(f: spec_fn(int) -> Seq<u8>, g: spec_fn(int) -> Seq<u8>, dir: u32, at: int, j: int)
    requires
        0 <= at,
        0 <= j,
        forall|i: int| 0 <= i < j && i != at ==> #[trigger] g(i) == f(i),
        plain(f(at)),
        alike(f(at), g(at)),
    ensures
        after(g, dir, j) == (Scan {
            out: renewed_at(after(f, dir, j).out, at, start_in(g(at)), size_in(g(at))),
            ..after(f, dir, j)
        }),
    decreases j,
{
    let first = start_in(g(at));
    let size = size_in(g(at));
    if j > 0 {
        lemma_renewed_scan(f, g, dir, at, j - 1);
        let a = after(f, dir, j - 1);
        let b = after(g, dir, j - 1);
        if j - 1 == at {
            lemma_short_alike(f(at), g(at));
            assert(g(at)[0] == f(at)[0] && g(at)[11] == f(at)[11]);
            if !a.done {
                let x = slot_entry(a.lfn, f(at), at, dir);
                let y = slot_entry(a.lfn, g(at), at, dir);
                assert(y == renewed(x, first, size));
                assert(renewed_at(a.out.push(x), at, first, size) =~= renewed_at(a.out, at, first, size).push(y));
            }
        } else {
            let s = f(j - 1);
            assert(g(j - 1) == s);
            let x = slot_entry(a.lfn, s, j - 1, dir);
            assert(renewed_at(a.out.push(x), at, first, size) =~= renewed_at(a.out, at, first, size).push(x));
        }
    } else {
        assert(renewed_at(Seq::<Entry>::empty(), at, first, size) =~= Seq::<Entry>::empty());
    }
}

pub(crate) proof fn lemma_named_renewed(es: Seq<Entry>, name: Seq<char>, j: int, first: u32, size: u32, k: int)
    requires
        0 <= k,
    ensures
        first_named(renewed_at(es, j, first, size), name, k) == (match first_named(es, name, k) {
            Some(e) => Some(if e.dir_index == j { renewed(e, first, size) } else { e }),
            None => None,
        }),
    decreases es.len() - k,
{
    if k < es.len() {
        lemma_named_renewed(es, name, j, first, size, k + 1);
    }
}

pub(crate) proof fn lemma_named_is_one(es: Seq<Entry>, name: Seq<char>, k: int)
    requires
        0 <= k,
        first_named(es, name, k) is Some,
    ensures
        exists|i: int| k <= i < es.len() && #[trigger] es[i] == first_named(es, name, k)->0,
        is_named(first_named(es, name, k)->0, name),
    decreases es.len() - k,
{
    if k < es.len() && !is_named(es[k], name) {
        lemma_named_is_one(es, name, k + 1);
    }
}

/// The first entry of a name, when nothing before it has that name.
proof fn lemma_first_of(es: Seq<Entry>, front: Seq<Entry>, e: Entry, name: Seq<char>, k: int)
    requires
        0 <= k <= front.len() < es.len(),
        es.take(front.len() as int) == front,
        es[front.len() as int] == e,
        is_named(e, name),
        first_named(front, name, k) is None,
    ensures
        first_named(es, name, k) == Some(e),
    decreases front.len() - k,
{
    if k < front.len() {
        assert(es.take(front.len() as int)[k] == front[k]);
        lemma_first_of(es, front, e, name, k + 1);
    }
}

proof fn lemma_none_in_front(es: Seq<Entry>, n: int, name: Seq<char>, k: int)
    requires
        0 <= k,
        0 <= n <= es.len(),
        first_named(es, name, k) is None,
    ensures
        first_named(es.take(n), name, k) is None,
    decreases es.len() - k,
{
    if k < n {
        assert(es.take(n)[k] == es[k]);
        lemma_none_in_front(es, n, name, k + 1);
    }
}

pub(crate) proof fn lemma_not_done(f: spec_fn(int) -> Seq<u8>, dir: u32, j: int)
    requires
        0 <= j,
        forall|i: int| 0 <= i < j ==> (#[trigger] f(i))[0] != 0,
    ensures
        !after(f, dir, j).done,
    decreases j,
{
    if j > 0 {
        lemma_not_done(f, dir, j - 1);
        assert(f(j - 1)[0] != 0);
    }
}

/// A new entry in slot `at` is the one that its name finds.
proof fn lemma_inserted(
    f: spec_fn(int) -> Seq<u8>,
    g: spec_fn(int) -> Seq<u8>,
    dir: u32,
    at: int,
    j: int,
    name: Seq<char>,
) -> (e: Entry)
    requires
        0 <= at < j,
        forall|i: int| 0 <= i < at ==> #[trigger] g(i) == f(i),
        forall|i: int| 0 <= i < at ==> (#[trigger] f(i))[0] != 0,
        plain(g(at)),
        same_name(short_of(g(at)), name),
        first_named(after(f, dir, at).out, name, 0) is None,
    ensures
        first_named(after(g, dir, j).out, name, 0) == Some(e),
        e.dir_index == at,
        e.dir_cluster == dir,
        e.first_cluster == start_in(g(at)),
        e.size == size_in(g(at)),
        e.is_dir == (g(at)[11] / 16 % 2 == 1),
{
    lemma_same_scan(f, g, dir, at);
    lemma_not_done(f, dir, at);
    let a = after(g, dir, at);
    let e = slot_entry(a.lfn, g(at), at, dir);
    lemma_scan_grows(g, dir, at + 1, j);
    let es = after(g, dir, j).out;
    let one = after(g, dir, at + 1).out;
    assert(one == a.out.push(e));
    assert(es.take(one.len() as int) == one);
    assert(es[a.out.len() as int] == one[a.out.len() as int]);
    assert(es.take(a.out.len() as int) =~= a.out) by {
        assert forall|i: int| 0 <= i < a.out.len() implies es[i] == a.out[i] by {
            assert(es.take(one.len() as int)[i] == one[i]);
        }
    }
    lemma_first_of(es, a.out, e, name, 0);
    e
}

// ---------------------------------------------------------------------------
// A slot renewed
// ---------------------------------------------------------------------------

/// The slots of a directory once one of its clusters was replaced.
proof fn lemma_slots_changed(fs: Fat32, d: Disk, e: Disk, dir: u32, ch: Seq<u32>, q: int, put: Seq<u8>)
    requires
        roomy(fs),
        linked(fs, d, dir, ch),
        0 <= q < ch.len(),
        cluster_set(fs, d, e, ch[q], put),
    ensures
        linked(fs, e, dir, ch),
        forall|j: int|
            0 <= j < ch.len() * per(fs) ==> #[trigger] slots(fs, e, ch)(j) == (if j / per(fs) == q {
                put.subrange(32 * (j % per(fs)), 32 * (j % per(fs)) + 32)
            } else {
                slots(fs, d, ch)(j)
            }),
{
    assert forall|i: int| 0 <= i < ch.len() implies ent(fs, e, #[trigger] ch[i]) == ent(fs, d, ch[i]) by {
        assert(valid(fs, ch[i]));
    }
    lemma_chain_stays(fs, d, e, dir, ch);
    let p = per(fs);
    assert forall|j: int| 0 <= j < ch.len() * p implies #[trigger] slots(fs, e, ch)(j) == (if j / p == q {
        put.subrange(32 * (j % p), 32 * (j % p) + 32)
    } else {
        slots(fs, d, ch)(j)
    }) by {
        lemma_split(j, p, ch.len() as int, 1);
        assert(valid(fs, ch[j / p]));
        assert(valid(fs, ch[q]));
        if j / p != q {
            assert(ch[j / p] != ch[q]);
        }
    }
}

/// The slot whose start and size were saved.
proof fn lemma_saved_slot(buf: Seq<u8>, o: int, first: u32, size: u32)
    requires
        0 <= o,
        o + 32 <= buf.len(),
    ensures
        ({
            let put = saved_slot(buf, o, first, size);
            let t = put.subrange(o, o + 32);
            &&& put.len() == buf.len()
            &&& alike(buf.subrange(o, o + 32), t)
            &&& start_in(t) == first
            &&& size_in(t) == size
            &&& forall|u: int|
                0 <= u && u + 32 <= buf.len() && (u + 32 <= o || o + 32 <= u) ==> #[trigger] put.subrange(u, u + 32)
                    == buf.subrange(u, u + 32)
        }),
{
    let hi = (first as int / 0x1_0000) as u16;
    let lo = (first as int % 0x1_0000) as u16;
    let a = splice(buf, o + 20, le16_bytes(hi as int));
    let b = splice(a, o + 26, le16_bytes(lo as int));
    let put = splice(b, o + 28, le32_bytes(size as int));
    law_le16_roundtrip(buf, o + 20, hi);
    law_le16_roundtrip(a, o + 26, lo);
    law_le32_roundtrip(b, o + 28, size);
    assert(put == saved_slot(buf, o, first, size));
    let t = put.subrange(o, o + 32);
    assert(t[20] == a[o + 20] && t[21] == a[o + 21]);
    assert(t[26] == b[o + 26] && t[27] == b[o + 27]);
    assert(t[28] == put[o + 28] && t[29] == put[o + 29] && t[30] == put[o + 30] && t[31] == put[o + 31]);
    assert(le16(t, 20) == hi);
    assert(le16(t, 26) == lo);
    assert(le32(t, 28) == size);
    assert forall|u: int|
        0 <= u && u + 32 <= buf.len() && (u + 32 <= o || o + 32 <= u) implies #[trigger] put.subrange(u, u + 32)
        == buf.subrange(u, u + 32) by {
        assert(put.subrange(u, u + 32) =~= buf.subrange(u, u + 32));
    }
}

/// Saving an entry renews its slot and leaves the rest of the directory.
pub(crate) proof fn lemma_dirent_saved(fs: Fat32, d: Disk, ch: Seq<u32>, e: Entry)
    requires
        roomy(fs),
        held(fs, d),
        linked(fs, d, e.dir_cluster, ch),
        0 <= e.dir_index < ch.len() * per(fs),
    ensures
        ({
            let o = dirent_saved(fs, d, e);
            let q = e.dir_index / per(fs);
            let f = slots(fs, d, ch);
            let g = slots(fs, o.disk, ch);
            &&& o.r is Ok
            &&& 0 <= q < ch.len()
            &&& exists|put: Seq<u8>| cluster_set(fs, d, o.disk, ch[q], put)
            &&& linked(fs, o.disk, e.dir_cluster, ch)
            &&& alike(f(e.dir_index), g(e.dir_index))
            &&& start_in(g(e.dir_index)) == e.first_cluster
            &&& size_in(g(e.dir_index)) == e.size
            &&& forall|j: int| 0 <= j < ch.len() * per(fs) && j != e.dir_index ==> #[trigger] g(j) == f(j)
        }),
{
    let p = per(fs);
    let at = e.dir_index;
    lemma_split(at, p, ch.len() as int, 1);
    let q = at / p;
    lemma_full_chain(fs, d, e.dir_cluster, ch);
    assert(valid(fs, ch[q]));
    lemma_reads(fs, d, ch[q]);
    let buf = dat(fs, d, ch[q]);
    let o = 32 * (at % p);
    lemma_saved_slot(buf, o, e.first_cluster, e.size);
    let put = saved_slot(buf, o, e.first_cluster, e.size);
    lemma_with_cluster(fs, d, ch[q], put);
    let n = dirent_saved(fs, d, e).disk;
    assert(cluster_set(fs, d, n, ch[q], put));
    lemma_slots_changed(fs, d, n, e.dir_cluster, ch, q, put);
    let f = slots(fs, d, ch);
    let g = slots(fs, n, ch);
    assert(f(at) == buf.subrange(o, o + 32));
    assert(g(at) == put.subrange(o, o + 32));
    assert forall|j: int| 0 <= j < ch.len() * p && j != at implies #[trigger] g(j) == f(j) by {
        lemma_split(j, p, ch.len() as int, 1);
        if j / p == q {
            let u = 32 * (j % p);
            assert(j % p != at % p);
            assert(put.subrange(u, u + 32) == buf.subrange(u, u + 32));
        }
    }
}

/// The two chains share no cluster.
pub open spec fn disjoint(a: Seq<u32>, b: Seq<u32>) -> bool {
    forall|i: int, j: int| 0 <= i < a.len() && 0 <= j < b.len() ==> #[trigger] a[i] != #[trigger] b[j]
}

/// What lies outside of the file and its directory is the same.
pub open spec fn apart_from(fs: Fat32, d: Disk, e: Disk, a: Seq<u32>, b: Seq<u32>) -> bool {
    forall|x: u32|
        valid(fs, x) && ent(fs, d, x) != 0 && !a.contains(x) && !b.contains(x) ==> #[trigger] ent(fs, e, x) == ent(
            fs,
            d,
            x,
        ) && dat(fs, e, x) == dat(fs, d, x)
}

/// The end of a file fits the clusters that it is given.
proof fn lemma_clusters_for(fs: Fat32, end: int)
    requires
        fs.wf(),
        end >= 1,
    ensures
        clusters_for(fs, end) >= 1,
        end <= clusters_for(fs, end) * fs.cluster_size(),
{
    let cb = fs.cluster_size();
    let n = clusters_for(fs, end);
    vstd::arithmetic::div_mod::lemma_fundamental_div_mod(end + cb - 1, cb);
    assert(n >= 1 && end <= n * cb) by (nonlinear_arith)
        requires
            end + cb - 1 == cb * n + (end + cb - 1) % cb,
            0 <= (end + cb - 1) % cb < cb,
            end >= 1,
            cb >= 1,
    ;
}

/// The file `h` on the disk `b` holds `data` at `off`; the rest of what was in
/// use on `d`, but for the old chain `fch`, is the same.
pub open spec fn holds(
    fs: Fat32,
    d: Disk,
    fch: Seq<u32>,
    b: Disk,
    h: Grown,
    off: int,
    data: Seq<u8>,
) -> bool {
    &&& held(fs, b)
    &&& linked(fs, b, h.first, h.chain)
    &&& off + data.len() <= h.chain.len() * fs.cluster_size()
    &&& forall|k: int|
        0 <= k < h.chain.len() * fs.cluster_size() && off <= k < off + data.len() ==> #[trigger] byte_of(
            fs,
            b,
            h.chain,
            k,
        ) == data[k - off]
    &&& forall|x: u32|
        valid(fs, x) && ent(fs, d, x) != 0 && !fch.contains(x) ==> #[trigger] ent(fs, b, x) == ent(fs, d, x) && dat(
            fs,
            b,
            x,
        ) == dat(fs, d, x) && !h.chain.contains(x)
}

proof fn lemma_file_put(fs: Fat32, d: Disk, first: u32, fch: Seq<u32>, off: int, data: Seq<u8>)
    requires
        roomy(fs),
        held(fs, d),
        proper(fs, d, first, fch),
        off >= 0,
        data.len() >= 1,
        fitted(fs, d, first, off + data.len()).r is Ok,
    ensures
        ({
            let f = fitted(fs, d, first, off + data.len());
            let p = data_put(fs, f.disk, f.r->Ok_0.chain, off, data);
            &&& p.r is Ok
            &&& holds(fs, d, fch, p.disk, f.r->Ok_0, off, data)
        }),
{
    let end = off + data.len();
    let f = fitted(fs, d, first, end);
    lemma_fitted(fs, d, first, fch, end);
    let a = f.disk;
    let h = f.r->Ok_0;
    lemma_clusters_for(fs, end);
    lemma_data_put(fs, a, h.chain, off, data);
    let b = data_put(fs, a, h.chain, off, data).disk;
    assert forall|i: int| 0 <= i < h.chain.len() implies ent(fs, b, #[trigger] h.chain[i]) == ent(
        fs,
        a,
        h.chain[i],
    ) by {
        assert(valid(fs, h.chain[i]));
    }
    lemma_chain_stays(fs, a, b, h.first, h.chain);
    assert forall|x: u32| valid(fs, x) && ent(fs, d, x) != 0 && !fch.contains(x) implies #[trigger] ent(fs, b, x)
        == ent(fs, d, x) && dat(fs, b, x) == dat(fs, d, x) && !h.chain.contains(x) by {
        assert(ent(fs, a, x) == ent(fs, d, x) && !h.chain.contains(x));
        assert(dat(fs, a, x) == dat(fs, d, x));
        assert(dat(fs, b, x) == dat(fs, a, x));
    }
}

/// A chain in use beside the file is as it was.
proof fn lemma_beside(
    fs: Fat32,
    d: Disk,
    fch: Seq<u32>,
    b: Disk,
    h: Grown,
    off: int,
    data: Seq<u8>,
    dir: u32,
    ch: Seq<u32>,
)
    requires
        roomy(fs),
        holds(fs, d, fch, b, h, off, data),
        linked(fs, d, dir, ch),
        disjoint(fch, ch),
    ensures
        linked(fs, b, dir, ch),
        disjoint(h.chain, ch),
        forall|i: int| 0 <= i < ch.len() ==> dat(fs, b, #[trigger] ch[i]) == dat(fs, d, ch[i]),
{
    assert forall|i: int| 0 <= i < ch.len() implies ent(fs, b, #[trigger] ch[i]) == ent(fs, d, ch[i]) && dat(
        fs,
        b,
        ch[i],
    ) == dat(fs, d, ch[i]) && !h.chain.contains(ch[i]) by {
        lemma_in_use(fs, d, dir, ch, i);
        assert(valid(fs, ch[i]));
        assert(!fch.contains(ch[i])) by {
            if fch.contains(ch[i]) {
                let k = choose|k: int| 0 <= k < fch.len() && fch[k] == ch[i];
                assert(fch[k] != ch[i]);
            }
        }
    }
    lemma_chain_stays(fs, d, b, dir, ch);
    assert forall|i: int, j: int| 0 <= i < h.chain.len() && 0 <= j < ch.len() implies #[trigger] h.chain[i]
        != #[trigger] ch[j] by {
        assert(!h.chain.contains(ch[j]));
        assert(h.chain.contains(h.chain[i]));
    }
}

/// What is left of a file when the slot of its entry is saved.
proof fn lemma_save_beside(fs: Fat32, b: Disk, h: Grown, ch: Seq<u32>, e: Entry)
    requires
        roomy(fs),
        held(fs, b),
        linked(fs, b, h.first, h.chain),
        linked(fs, b, e.dir_cluster, ch),
        disjoint(h.chain, ch),
        0 <= e.dir_index < ch.len() * per(fs),
    ensures
        ({
            let n = dirent_saved(fs, b, e).disk;
            &&& linked(fs, n, h.first, h.chain)
            &&& forall|i: int| 0 <= i < h.chain.len() ==> dat(fs, n, #[trigger] h.chain[i]) == dat(fs, b, h.chain[i])
            &&& forall|x: u32| valid(fs, x) ==> #[trigger] ent(fs, n, x) == ent(fs, b, x)
            &&& forall|x: u32| valid(fs, x) && !ch.contains(x) ==> #[trigger] dat(fs, n, x) == dat(fs, b, x)
        }),
{
    lemma_dirent_saved(fs, b, ch, e);
    let n = dirent_saved(fs, b, e).disk;
    let q = e.dir_index / per(fs);
    let put = choose|put: Seq<u8>| cluster_set(fs, b, n, ch[q], put);
    assert(ch.contains(ch[q]));
    assert forall|i: int| 0 <= i < h.chain.len() implies ent(fs, n, #[trigger] h.chain[i]) == ent(
        fs,
        b,
        h.chain[i],
    ) && dat(fs, n, h.chain[i]) == dat(fs, b, h.chain[i]) by {
        assert(valid(fs, h.chain[i]));
        assert(h.chain[i] != ch[q]);
    }
    lemma_chain_stays(fs, b, n, h.first, h.chain);
}

/// The size of a file after a write up to `end`.
pub open spec fn size_after(e: Entry, end: int) -> u32 {
    if end > e.size { end as u32 } else { e.size }
}

/// The start of a file after a write.
pub open spec fn start_after(fs: Fat32, d: Disk, e: Entry, end: int) -> u32 {
    fitted(fs, d, e.first_cluster, end).r->Ok_0.first
}

/// Writing a file leaves its directory with its entry renewed, and a read of
/// the renewed entry gives the data back.
pub(crate) proof fn lemma_file_written(fs: Fat32, d: Disk, e: Entry, fch: Seq<u32>, ch: Seq<u32>, off: int, data: Seq<u8>)
    requires
        roomy(fs),
        held(fs, d),
        proper(fs, d, e.first_cluster, fch),
        linked(fs, d, e.dir_cluster, ch),
        disjoint(fch, ch),
        0 <= e.dir_index < ch.len() * per(fs),
        plain(slot_of(fs, d, ch, e.dir_index)),
        off >= 0,
        data.len() >= 1,
        file_written(fs, d, e, off, data).r is Ok,
    ensures
        ({
            let n = file_written(fs, d, e, off, data).disk;
            let end = off + data.len();
            &&& held(fs, n)
            &&& linked(fs, n, e.dir_cluster, ch)
            &&& after(slots(fs, n, ch), e.dir_cluster, ch.len() * per(fs)).out == renewed_at(
                after(slots(fs, d, ch), e.dir_cluster, ch.len() * per(fs)).out,
                e.dir_index,
                start_after(fs, d, e, end),
                size_after(e, end),
            )
            &&& apart_from(fs, d, n, fch, ch)
        }),
        forall|x: Entry|
            x.first_cluster == start_after(fs, d, e, off + data.len()) && x.size == size_after(
                e,
                off + data.len(),
            ) ==> #[trigger] file_part(
                fs,
                file_written(fs, d, e, off, data).disk,
                x,
                off,
                data.len() as int,
            ) == Ok::<Seq<u8>, FsError>(data),
{
    let end = off + data.len();
    let f = fitted(fs, d, e.first_cluster, end);
    lemma_file_put(fs, d, e.first_cluster, fch, off, data);
    let h = f.r->Ok_0;
    let b = data_put(fs, f.disk, h.chain, off, data).disk;
    lemma_beside(fs, d, fch, b, h, off, data, e.dir_cluster, ch);
    let e2 = Entry { first_cluster: h.first, size: size_after(e, end), ..e };
    lemma_dirent_saved(fs, b, ch, e2);
    lemma_save_beside(fs, b, h, ch, e2);
    let n = dirent_saved(fs, b, e2).disk;
    assert(file_written(fs, d, e, off, data).disk == n);
    lemma_scan_renewed(fs, d, b, n, ch, e2);
    assert(apart_from(fs, d, n, fch, ch)) by {
        assert forall|x: u32|
            valid(fs, x) && ent(fs, d, x) != 0 && !fch.contains(x) && !ch.contains(x) implies #[trigger] ent(fs, n, x)
            == ent(fs, d, x) && dat(fs, n, x) == dat(fs, d, x) by {
            assert(ent(fs, b, x) == ent(fs, d, x));
            assert(dat(fs, n, x) == dat(fs, b, x));
        }
    }
    lemma_read_back(fs, b, n, h, size_after(e, end) as int, off, data);
}

/// A scan after the write: the clusters of the directory did not change until
/// the slot was saved.
pub(crate) proof fn lemma_scan_renewed(fs: Fat32, d: Disk, b: Disk, n: Disk, ch: Seq<u32>, e: Entry)
    requires
        roomy(fs),
        held(fs, b),
        linked(fs, b, e.dir_cluster, ch),
        n == dirent_saved(fs, b, e).disk,
        0 <= e.dir_index < ch.len() * per(fs),
        plain(slot_of(fs, d, ch, e.dir_index)),
        forall|i: int| 0 <= i < ch.len() ==> dat(fs, b, #[trigger] ch[i]) == dat(fs, d, ch[i]),
    ensures
        after(slots(fs, n, ch), e.dir_cluster, ch.len() * per(fs)).out == renewed_at(
            after(slots(fs, d, ch), e.dir_cluster, ch.len() * per(fs)).out,
            e.dir_index,
            e.first_cluster,
            e.size,
        ),
{
    let p = per(fs);
    let j = ch.len() * p;
    let f = slots(fs, d, ch);
    let m = slots(fs, b, ch);
    let g = slots(fs, n, ch);
    assert forall|i: int| 0 <= i < j implies #[trigger] m(i) == f(i) by {
        lemma_split(i, p, ch.len() as int, 1);
        assert(dat(fs, b, ch[i / p]) == dat(fs, d, ch[i / p]));
    }
    assert(m(e.dir_index) == f(e.dir_index));
    lemma_dirent_saved(fs, b, ch, e);
    lemma_same_scan(f, m, e.dir_cluster, j);
    assert(plain(m(e.dir_index)));
    lemma_renewed_scan(m, g, e.dir_cluster, e.dir_index, j);
}

/// The bytes that were put along a chain are the ones that a read gathers.
proof fn lemma_read_back(fs: Fat32, b: Disk, n: Disk, h: Grown, size: int, off: int, data: Seq<u8>)
    requires
        held(fs, n),
        roomy(fs),
        linked(fs, n, h.first, h.chain),
        forall|i: int| 0 <= i < h.chain.len() ==> dat(fs, n, #[trigger] h.chain[i]) == dat(fs, b, h.chain[i]),
        0 <= off,
        data.len() >= 1,
        off + data.len() <= size,
        off + data.len() <= h.chain.len() * fs.cluster_size(),
        forall|k: int|
            0 <= k < h.chain.len() * fs.cluster_size() && off <= k < off + data.len() ==> #[trigger] byte_of(
                fs,
                b,
                h.chain,
                k,
            ) == data[k - off],
    ensures
        h.first != 0,
        full_chain(fs, n, h.first) == Ok::<Seq<u32>, FsError>(h.chain),
        off / fs.cluster_size() < h.chain.len(),
        gathered(fs, n, h.chain, size, off, data.len() as int) == Ok::<Seq<u8>, FsError>(data),
{
    let cb = fs.cluster_size();
    assert(valid(fs, h.chain[0]));
    lemma_full_chain(fs, n, h.first, h.chain);
    lemma_split(off, cb, h.chain.len() as int, data.len() as int);
    lemma_gathered(fs, n, h.chain, size, off, data.len() as int);
    let got = Seq::new(data.len(), |i: int| byte_of(fs, n, h.chain, off + i));
    assert forall|i: int| 0 <= i < data.len() implies #[trigger] got[i] == data[i] by {
        let k = off + i;
        lemma_split(k, cb, h.chain.len() as int, 1);
        assert(dat(fs, n, h.chain[k / cb]) == dat(fs, b, h.chain[k / cb]));
        assert(byte_of(fs, n, h.chain, k) == byte_of(fs, b, h.chain, k));
    }
    assert(got =~= data);
}

// ---------------------------------------------------------------------------
// A new entry
// ---------------------------------------------------------------------------

/// A slot without an entry.
pub open spec fn empty_slot(s: Seq<u8>) -> bool {
    s[0] == 0 || s[0] == 0xE5
}

proof fn lemma_free_slot(buf: Seq<u8>, k: int)
    requires
        0 <= k,
    ensures
        match free_slot(buf, k) {
            Some(i) => {
                &&& k <= i < buf.len() / 32
                &&& buf[32 * i] == 0 || buf[32 * i] == 0xE5
                &&& forall|j: int| k <= j < i ==> buf[32 * j] != 0 && #[trigger] buf[32 * j] != 0xE5
            },
            None => forall|j: int|
                k <= j < buf.len() / 32 ==> buf[32 * j] != 0 && #[trigger] buf[32 * j] != 0xE5,
        },
    decreases buf.len() / 32 - k,
{
    if k < buf.len() / 32 && !(buf[32 * k] == 0 || buf[32 * k] == 0xE5) {
        lemma_free_slot(buf, k + 1);
    }
}

/// First byte of slot `j` of a directory.
proof fn lemma_slot_head(fs: Fat32, d: Disk, ch: Seq<u32>, i: int, k: int)
    requires
        roomy(fs),
        held(fs, d),
        forall|x: int| 0 <= x < ch.len() ==> valid(fs, #[trigger] ch[x]),
        0 <= i < ch.len(),
        0 <= k < per(fs),
    ensures
        slots(fs, d, ch)(i * per(fs) + k) == dat(fs, d, ch[i]).subrange(32 * k, 32 * k + 32),
        slots(fs, d, ch)(i * per(fs) + k)[0] == dat(fs, d, ch[i])[32 * k],
        dat(fs, d, ch[i]).len() == 32 * per(fs),
        (i * per(fs) + k) / per(fs) == i,
        (i * per(fs) + k) % per(fs) == k,
        0 <= i * per(fs) + k < ch.len() * per(fs),
{
    let p = per(fs);
    assert(valid(fs, ch[i]));
    lemma_reads(fs, d, ch[i]);
    let j = i * p + k;
    assert(j == p * i + k && 0 <= j && j < ch.len() * p) by (nonlinear_arith)
        requires
            j == i * p + k,
            0 <= i < ch.len(),
            0 <= k < p,
    ;
    vstd::arithmetic::div_mod::lemma_fundamental_div_mod_converse(j, p, i, k);
}

/// The first free place of a directory, and that all slots before it are in
/// use.
proof fn lemma_free_place(fs: Fat32, d: Disk, ch: Seq<u32>, i: int)
    requires
        roomy(fs),
        held(fs, d),
        forall|x: int| 0 <= x < ch.len() ==> valid(fs, #[trigger] ch[x]),
        0 <= i <= ch.len(),
        forall|j: int| 0 <= j < i * per(fs) ==> !empty_slot(#[trigger] slots(fs, d, ch)(j)),
    ensures
        match free_place(fs, d, ch, i) {
            Ok(Some(t)) => {
                &&& 0 <= t.0 < ch.len()
                &&& 0 <= t.1 < per(fs)
                &&& forall|j: int| 0 <= j < t.0 * per(fs) + t.1 ==> !empty_slot(#[trigger] slots(fs, d, ch)(j))
            },
            Ok(None) => forall|j: int|
                0 <= j < ch.len() * per(fs) ==> !empty_slot(#[trigger] slots(fs, d, ch)(j)),
            Err(_) => false,
        },
    decreases ch.len() - i,
{
    let p = per(fs);
    if i < ch.len() {
        assert(valid(fs, ch[i]));
        lemma_reads(fs, d, ch[i]);
        let buf = dat(fs, d, ch[i]);
        lemma_free_slot(buf, 0);
        let upto = match free_slot(buf, 0) {
            Some(k) => k,
            None => p,
        };
        assert(buf.len() / 32 == p);
        assert forall|j: int| 0 <= j < i * p + upto implies !empty_slot(#[trigger] slots(fs, d, ch)(j)) by {
            if j >= i * p {
                let k = j - i * p;
                lemma_slot_head(fs, d, ch, i, k);
                assert(buf[32 * k] != 0 && buf[32 * k] != 0xE5);
            }
        }
        if free_slot(buf, 0) is None {
            assert(i * p + p == (i + 1) * p) by (nonlinear_arith);
            lemma_free_place(fs, d, ch, i + 1);
        }
    }
}

/// The slot of a new entry.
pub open spec fn entry_slot(name: Seq<char>, first: u32, is_dir: bool) -> Seq<u8> {
    new_slot(short_form(name), first, is_dir)
}

proof fn lemma_entry_slot(name: Seq<char>, first: u32, is_dir: bool)
    requires
        fits_short(name),
    ensures
        ({
            let s = entry_slot(name, first, is_dir);
            &&& s.len() == 32
            &&& plain(s)
            &&& start_in(s) == first
            &&& size_in(s) == 0
            &&& (s[11] / 16 % 2 == 1) == is_dir
            &&& forall|i: int| 0 <= i < 11 ==> #[trigger] s[i] == short_form(name)[i]
        }),
{
    let s = entry_slot(name, first, is_dir);
    let base = base_of(name);
    assert(crate::fat::is_base_char(base[0]));
    assert(s[0] == short_form(name)[0]);
    let hi = first as int / 0x1_0000;
    let lo = first as int % 0x1_0000;
    let z = Seq::new(32, |i: int| 0u8);
    law_le16_roundtrip(z, 0, hi as u16);
    law_le16_roundtrip(z, 0, lo as u16);
    assert(s[20] == le16_bytes(hi)[0] && s[21] == le16_bytes(hi)[1]);
    assert(s[26] == le16_bytes(lo)[0] && s[27] == le16_bytes(lo)[1]);
    assert(le16(s, 20) == le16(splice(z, 0, le16_bytes(hi)), 0));
    assert(le16(s, 26) == le16(splice(z, 0, le16_bytes(lo)), 0));
    assert(s[28] == 0 && s[29] == 0 && s[30] == 0 && s[31] == 0);
}

/// A byte of a short form and the character it stands for.
proof fn lemma_upper(c: char, lower: bool)
    requires
        crate::fat::is_base_char(c),
    ensures
        crate::fat::upper(c) != 0x20,
        crate::fat::upper(c) != 0x05,
        crate::vfs::folded(crate::fat::short_char(crate::fat::upper(c), lower)) == crate::vfs::folded(c),
{
}

/// Half of a short name reads back as its characters, but for their case.
proof fn lemma_half(s: Seq<u8>, half: Seq<char>, from: int, to: int, lower: bool, i: int)
    requires
        0 <= i <= half.len(),
        from + half.len() <= to,
        forall|k: int| 0 <= k < half.len() ==> crate::fat::is_base_char(#[trigger] half[k]),
        forall|k: int| 0 <= k < half.len() ==> s[from + k] == crate::fat::upper(#[trigger] half[k]),
        from + half.len() < to ==> s[from + half.len()] == 0x20,
    ensures
        stem(s, from + i, to, lower).len() == half.len() - i,
        forall|k: int|
            0 <= k < half.len() - i ==> crate::vfs::folded(#[trigger] stem(s, from + i, to, lower)[k])
                == crate::vfs::folded(half[i + k]),
    decreases half.len() - i,
{
    if i < half.len() {
        lemma_upper(half[i], lower);
        assert(s[from + i] == crate::fat::upper(half[i]));
        lemma_half(s, half, from, to, lower, i + 1);
        let rest = stem(s, from + i + 1, to, lower);
        let all = stem(s, from + i, to, lower);
        assert forall|k: int| 0 <= k < half.len() - i implies crate::vfs::folded(#[trigger] all[k])
            == crate::vfs::folded(half[i + k]) by {
            if k > 0 {
                assert(all[k] == rest[k - 1]);
                assert(half[i + k] == half[i + 1 + (k - 1)]);
            }
        }
    }
}

proof fn lemma_dot_place(s: Seq<char>, k: int)
    requires
        0 <= k <= s.len(),
    ensures
        -1 <= crate::fat::dot_before(s, k) < k || k == 0 && crate::fat::dot_before(s, k) == -1,
        crate::fat::dot_before(s, k) >= 0 ==> s[crate::fat::dot_before(s, k)] == '.',
    decreases k,
{
    if k > 0 && s[k - 1] != '.' {
        lemma_dot_place(s, k - 1);
    }
}

/// The slot of a new file has the file's name, unless that ends in a dot.
proof fn lemma_slot_name(s: Seq<u8>, name: Seq<char>)
    requires
        fits_short(name),
        name.last() != '.',
        s.len() == 32,
        forall|i: int| 0 <= i < 11 ==> #[trigger] s[i] == short_form(name)[i],
    ensures
        same_name(short_of(s), name),
{
    let lower = s[12] / 8 % 2 == 1;
    let lower_ext = s[12] / 16 % 2 == 1;
    let base = base_of(name);
    let ext = ext_of(name);
    let form = short_form(name);
    lemma_dot_place(name, name.len() as int);
    let p = crate::fat::dot_before(name, name.len() as int);
    assert(s[0] == form[0] && form[0] == crate::fat::upper(base[0]));
    assert(crate::fat::is_base_char(base[0]));
    lemma_upper(base[0], lower);
    assert forall|k: int| 0 <= k < base.len() implies s[0 + k] == crate::fat::upper(#[trigger] base[k]) by {
        assert(s[k] == form[k]);
    }
    assert(base.len() < 8 ==> s[base.len() as int] == 0x20) by {
        if base.len() < 8 {
            assert(s[base.len() as int] == form[base.len() as int]);
        }
    }
    lemma_half(s, base, 0, 8, lower, 0);
    assert(s[8] == form[8] && s[9] == form[9] && s[10] == form[10]);
    let a = stem(s, 0, 8, lower);
    if ext.len() == 0 {
        assert(p <= 0);
        assert(base =~= name);
        assert(short_of(s) == a);
    } else {
        assert forall|k: int| 0 <= k < ext.len() implies crate::fat::is_base_char(#[trigger] ext[k]) by {
            assert(crate::fat::is_alnum(ext[k]));
        }
        assert forall|k: int| 0 <= k < ext.len() implies s[8 + k] == crate::fat::upper(#[trigger] ext[k]) by {
            assert(s[8 + k] == form[8 + k]);
        }
        assert(8 + ext.len() < 11 ==> s[8 + ext.len() as int] == 0x20) by {
            if 8 + ext.len() < 11 {
                assert(s[8 + ext.len() as int] == form[8 + ext.len() as int]);
            }
        }
        lemma_half(s, ext, 8, 11, lower_ext, 0);
        lemma_upper(ext[0], lower_ext);
        assert(s[8] == crate::fat::upper(ext[0]));
        let b = stem(s, 8, 11, lower_ext);
        let full = a + seq!['.'] + b;
        assert(short_of(s) == full);
        assert(name.len() == base.len() + 1 + ext.len());
        assert forall|i: int| 0 <= i < full.len() implies crate::vfs::folded(#[trigger] full[i])
            == crate::vfs::folded(name[i]) by {
            if i < base.len() {
                assert(full[i] == a[i]);
                assert(name[i] == base[i]);
            } else if i == base.len() {
                assert(name[p] == '.');
            } else {
                assert(full[i] == b[i - base.len() - 1]);
                assert(name[i] == ext[i - base.len() - 1]);
            }
        }
    }
}

/// What putting a new entry into a directory touches: `ch2` is the chain of the
/// directory then. The entry takes the first free slot, or the first slot of a
/// new cluster; every other slot, and all that is in use elsewhere, stays.
pub open spec fn placed(
    fs: Fat32,
    d: Disk,
    dir: u32,
    ch: Seq<u32>,
    name: Seq<char>,
    first: u32,
    is_dir: bool,
    n: Disk,
    e: Entry,
    ch2: Seq<u32>,
) -> bool {
    let f = slots(fs, d, ch);
    let g = slots(fs, n, ch2);
    let total = ch.len() * per(fs);
    &&& held(fs, n)
    &&& linked(fs, n, dir, ch2)
    &&& e.dir_cluster == dir && e.first_cluster == first && e.size == 0 && e.is_dir == is_dir
    &&& 0 <= e.dir_index < ch2.len() * per(fs)
    &&& e.dir_index <= total
    &&& g(e.dir_index) == entry_slot(name, first, is_dir)
    &&& forall|i: int| 0 <= i < e.dir_index ==> #[trigger] g(i) == f(i) && f(i)[0] != 0
    &&& e.dir_index < total ==> ch2 == ch && empty_slot(f(e.dir_index))
    &&& e.dir_index < total ==> forall|i: int| 0 <= i < total && i != e.dir_index ==> #[trigger] g(i) == f(i)
    &&& apart_from(fs, d, n, ch, ch)
    &&& ch.len() <= ch2.len()
    &&& forall|i: int| 0 <= i < ch.len() ==> #[trigger] ch2[i] == ch[i]
    &&& forall|i: int| ch.len() <= i < ch2.len() ==> ent(fs, d, #[trigger] ch2[i]) == 0
}

/// What putting a new file into a directory does: the name finds the new entry.
pub open spec fn enters(
    fs: Fat32,
    d: Disk,
    dir: u32,
    ch: Seq<u32>,
    name: Seq<char>,
    first: u32,
    is_dir: bool,
    n: Disk,
    e: Entry,
    ch2: Seq<u32>,
) -> bool {
    &&& placed(fs, d, dir, ch, name, first, is_dir, n, e, ch2)
    &&& plain(slot_of(fs, n, ch2, e.dir_index))
    &&& first_named(after(slots(fs, n, ch2), dir, ch2.len() * per(fs)).out, name, 0) matches Some(x) && x.dir_index
        == e.dir_index && x.first_cluster == first && x.size == 0 && x.is_dir == is_dir
}

/// A slot put into a cluster of a directory changes that slot alone.
proof fn lemma_slot_put(fs: Fat32, d: Disk, n: Disk, dir: u32, ch: Seq<u32>, ci: int, si: int, slot: Seq<u8>)
    requires
        roomy(fs),
        held(fs, d),
        linked(fs, d, dir, ch),
        0 <= ci < ch.len(),
        0 <= si < per(fs),
        slot.len() == 32,
        cluster_set(fs, d, n, ch[ci], splice(dat(fs, d, ch[ci]), 32 * si, slot)),
    ensures
        linked(fs, n, dir, ch),
        slots(fs, n, ch)(ci * per(fs) + si) == slot,
        forall|i: int|
            0 <= i < ch.len() * per(fs) && i != ci * per(fs) + si ==> #[trigger] slots(fs, n, ch)(i) == slots(fs, d, ch)(
                i,
            ),
{
    let p = per(fs);
    lemma_slot_head(fs, d, ch, ci, si);
    let buf = dat(fs, d, ch[ci]);
    let put = splice(buf, 32 * si, slot);
    lemma_slots_changed(fs, d, n, dir, ch, ci, put);
    let f = slots(fs, d, ch);
    let g = slots(fs, n, ch);
    let at = ci * p + si;
    assert(g(at) == put.subrange(32 * si, 32 * si + 32));
    assert(g(at) =~= slot);
    assert forall|i: int| 0 <= i < ch.len() * p && i != at implies #[trigger] g(i) == f(i) by {
        lemma_split(i, p, ch.len() as int, 1);
        if i / p == ci {
            let u = 32 * (i % p);
            assert(i % p != si) by (nonlinear_arith)
                requires
                    i == p * (i / p) + i % p,
                    i / p == ci,
                    i != ci * p + si,
            ;
            assert(put.subrange(u, u + 32) =~= buf.subrange(u, u + 32));
        }
    }
}

proof fn lemma_placed_inside(fs: Fat32, d: Disk, dir: u32, ch: Seq<u32>, name: Seq<char>, first: u32, is_dir: bool, ci: int, si: int)
    requires
        roomy(fs),
        held(fs, d),
        linked(fs, d, dir, ch),
        fits_short(name),
        free_place(fs, d, ch, 0) == Ok::<Option<(int, int)>, FsError>(Some((ci, si))),
    ensures
        ({
            let o = created(fs, d, dir, name, first, is_dir);
            o.r is Ok && placed(fs, d, dir, ch, name, first, is_dir, o.disk, o.r->Ok_0, ch)
        }),
{
    lemma_full_chain(fs, d, dir, ch);
    lemma_free_place(fs, d, ch, 0);
    lemma_slot_head(fs, d, ch, ci, si);
    lemma_entry_slot(name, first, is_dir);
    assert(valid(fs, ch[ci]));
    lemma_reads(fs, d, ch[ci]);
    let buf = dat(fs, d, ch[ci]);
    lemma_free_slot(buf, 0);
    let slot = entry_slot(name, first, is_dir);
    let put = splice(buf, 32 * si, slot);
    lemma_with_cluster(fs, d, ch[ci], put);
    let o = created(fs, d, dir, name, first, is_dir);
    let n = o.disk;
    assert(n == with_cluster(fs, d, ch[ci], put).disk);
    lemma_slot_put(fs, d, n, dir, ch, ci, si, slot);
    let at = ci * per(fs) + si;
    lemma_place_is_free(fs, d, ch, 0);
    assert(empty_slot(slots(fs, d, ch)(at)));
    assert forall|i: int| 0 <= i < at implies #[trigger] slots(fs, n, ch)(i) == slots(fs, d, ch)(i) && slots(
        fs,
        d,
        ch,
    )(i)[0] != 0 by {
        assert(!empty_slot(slots(fs, d, ch)(i)));
    }
    assert(apart_from(fs, d, n, ch, ch)) by {
        assert(ch.contains(ch[ci]));
    }
}

/// The place that is found holds no entry.
proof fn lemma_place_is_free(fs: Fat32, d: Disk, ch: Seq<u32>, i: int)
    requires
        roomy(fs),
        held(fs, d),
        forall|x: int| 0 <= x < ch.len() ==> valid(fs, #[trigger] ch[x]),
        0 <= i <= ch.len(),
        free_place(fs, d, ch, i) is Ok,
        free_place(fs, d, ch, i)->Ok_0 is Some,
    ensures
        ({
            let (ci, si) = free_place(fs, d, ch, i)->Ok_0->0;
            empty_slot(slots(fs, d, ch)(ci * per(fs) + si))
        }),
    decreases ch.len() - i,
{
    assert(valid(fs, ch[i]));
    lemma_reads(fs, d, ch[i]);
    let buf = dat(fs, d, ch[i]);
    lemma_free_slot(buf, 0);
    if let Some(k) = free_slot(buf, 0) {
        lemma_slot_head(fs, d, ch, i, k);
    } else {
        lemma_place_is_free(fs, d, ch, i + 1);
    }
}

proof fn lemma_placed_behind(fs: Fat32, d: Disk, dir: u32, ch: Seq<u32>, name: Seq<char>, first: u32, is_dir: bool) -> (ch2: Seq<u32>)
    requires
        roomy(fs),
        held(fs, d),
        linked(fs, d, dir, ch),
        fits_short(name),
        free_place(fs, d, ch, 0) == Ok::<Option<(int, int)>, FsError>(None),
        created(fs, d, dir, name, first, is_dir).r is Ok,
    ensures
        ({
            let o = created(fs, d, dir, name, first, is_dir);
            placed(fs, d, dir, ch, name, first, is_dir, o.disk, o.r->Ok_0, ch2)
        }),
{
    let p = per(fs);
    lemma_full_chain(fs, d, dir, ch);
    lemma_free_place(fs, d, ch, 0);
    lemma_entry_slot(name, first, is_dir);
    let gr = Grown { first: dir, chain: ch };
    let a = allocated(fs, d, Some(ch.last()));
    assert(tail_of(gr) == Some(ch.last()));
    lemma_one_more(fs, d, gr);
    let c = a.r->Ok_0;
    let ch2 = ch.push(c);
    let m = ch.len() as int;
    assert(one_more(gr, c).chain == ch2);
    assert(ch2[m] == c);
    assert(valid(fs, ch2[m]));
    let blank = Seq::new(fs.cluster_size() as nat, |i: int| 0u8);
    let slot = entry_slot(name, first, is_dir);
    let put = splice(blank, 0, slot);
    lemma_with_cluster(fs, a.disk, c, put);
    let o = created(fs, d, dir, name, first, is_dir);
    let n = o.disk;
    assert(n == with_cluster(fs, a.disk, c, put).disk);
    lemma_slots_changed(fs, a.disk, n, dir, ch2, m, put);
    let f = slots(fs, d, ch);
    let g = slots(fs, n, ch2);
    let at = m * p;
    lemma_slot_head(fs, n, ch2, m, 0);
    assert(g(at) == put.subrange(0, 32));
    assert(g(at) =~= slot);
    assert forall|i: int| 0 <= i < at implies #[trigger] g(i) == f(i) && f(i)[0] != 0 by {
        lemma_split(i, p, m, 1);
        lemma_split(i, p, m + 1, 1);
        let q = i / p;
        assert(valid(fs, ch[q]));
        assert(ch2[q] == ch[q]);
        assert(g(i) == slots(fs, a.disk, ch2)(i));
        assert(dat(fs, a.disk, ch[q]) == dat(fs, d, ch[q]));
        assert(!empty_slot(slots(fs, d, ch)(i)));
    }
    assert(apart_from(fs, d, n, ch, ch)) by {
        assert forall|y: u32| valid(fs, y) && ent(fs, d, y) != 0 && !ch.contains(y) implies #[trigger] ent(fs, n, y)
            == ent(fs, d, y) && dat(fs, n, y) == dat(fs, d, y) by {
            assert(ent(fs, d, ch2[m]) == 0);
            assert(!ch2.contains(y)) by {
                if ch2.contains(y) {
                    let k = choose|k: int| 0 <= k < ch2.len() && ch2[k] == y;
                    if k < m {
                        assert(ch[k] == y);
                    }
                }
            }
            assert(ent(fs, a.disk, y) == ent(fs, d, y));
            assert(dat(fs, a.disk, y) == dat(fs, d, y));
        }
    }
    ch2
}

/// Where a new entry goes.
pub(crate) proof fn lemma_placed(fs: Fat32, d: Disk, dir: u32, ch: Seq<u32>, name: Seq<char>, first: u32, is_dir: bool) -> (ch2: Seq<u32>)
    requires
        roomy(fs),
        held(fs, d),
        linked(fs, d, dir, ch),
        created(fs, d, dir, name, first, is_dir).r is Ok,
    ensures
        ({
            let o = created(fs, d, dir, name, first, is_dir);
            &&& placed(fs, d, dir, ch, name, first, is_dir, o.disk, o.r->Ok_0, ch2)
            &&& plain(slot_of(fs, o.disk, ch2, o.r->Ok_0.dir_index))
        }),
{
    lemma_full_chain(fs, d, dir, ch);
    lemma_free_place(fs, d, ch, 0);
    lemma_entry_slot(name, first, is_dir);
    let ch2 = match free_place(fs, d, ch, 0) {
        Ok(Some(t)) => {
            lemma_placed_inside(fs, d, dir, ch, name, first, is_dir, t.0, t.1);
            ch
        },
        _ => lemma_placed_behind(fs, d, dir, ch, name, first, is_dir),
    };
    let o = created(fs, d, dir, name, first, is_dir);
    assert(slots(fs, o.disk, ch2)(o.r->Ok_0.dir_index) == slot_of(fs, o.disk, ch2, o.r->Ok_0.dir_index));
    ch2
}

proof fn lemma_created(fs: Fat32, d: Disk, dir: u32, ch: Seq<u32>, name: Seq<char>, first: u32, is_dir: bool) -> (ch2: Seq<u32>)
    requires
        roomy(fs),
        held(fs, d),
        linked(fs, d, dir, ch),
        name.last() != '.',
        first_named(after(slots(fs, d, ch), dir, ch.len() * per(fs)).out, name, 0) is None,
        created(fs, d, dir, name, first, is_dir).r is Ok,
    ensures
        ({
            let o = created(fs, d, dir, name, first, is_dir);
            enters(fs, d, dir, ch, name, first, is_dir, o.disk, o.r->Ok_0, ch2)
        }),
{
    let ch2 = lemma_placed(fs, d, dir, ch, name, first, is_dir);
    let o = created(fs, d, dir, name, first, is_dir);
    let at = o.r->Ok_0.dir_index;
    let f = slots(fs, d, ch);
    let g = slots(fs, o.disk, ch2);
    let total = ch.len() * per(fs);
    lemma_entry_slot(name, first, is_dir);
    lemma_slot_name(entry_slot(name, first, is_dir), name);
    assert forall|i: int| 0 <= i < at implies (#[trigger] f(i))[0] != 0 by {
        assert(g(i) == f(i));
    }
    lemma_scan_grows(f, dir, at, total);
    lemma_none_in_front(after(f, dir, total).out, after(f, dir, at).out.len() as int, name, 0);
    let x = lemma_inserted(f, g, dir, at, ch2.len() * per(fs), name);
    ch2
}

// ---------------------------------------------------------------------------
// Paths
// ---------------------------------------------------------------------------

/// The components of a path.
pub open spec fn parts(path: Seq<char>) -> Seq<Seq<char>> {
    path_parts(path)->0
}

/// The directory that the first `n` components of a path name.
pub open spec fn dir_n(fs: Fat32, d: Disk, path: Seq<char>, n: int) -> u32 {
    dir_at(fs, d, parts(path), n)->Ok_0
}

/// The chain of that directory.
pub open spec fn dir_chain(fs: Fat32, d: Disk, path: Seq<char>, n: int) -> Seq<u32> {
    full_chain(fs, d, dir_n(fs, d, path, n))->Ok_0
}

/// The chain of a file.
pub open spec fn file_chain(fs: Fat32, d: Disk, e: Entry) -> Seq<u32> {
    if e.first_cluster == 0 { Seq::empty() } else { full_chain(fs, d, e.first_cluster)->Ok_0 }
}

/// The volume is healthy as far as a path goes: its sectors are at hand, the
/// directories on the way and the file have proper chains, and no two of
/// them share a cluster.
pub open spec fn healthy(fs: Fat32, d: Disk, path: Seq<char>) -> bool {
    &&& roomy(fs)
    &&& held(fs, d)
    &&& path_parts(path) is Some
    &&& forall|n: int|
        0 <= n < parts(path).len() ==> dir_at(fs, d, parts(path), n) is Ok && linked(
            fs,
            d,
            dir_n(fs, d, path, n),
            #[trigger] dir_chain(fs, d, path, n),
        )
    &&& forall|m: int, n: int|
        0 <= m < n < parts(path).len() ==> disjoint(
            #[trigger] dir_chain(fs, d, path, m),
            #[trigger] dir_chain(fs, d, path, n),
        )
    &&& node_at(fs, d, path) matches Ok(Some(Node::At(e))) ==> {
        &&& proper(fs, d, e.first_cluster, file_chain(fs, d, e))
        &&& forall|n: int|
            0 <= n < parts(path).len() ==> disjoint(file_chain(fs, d, e), #[trigger] dir_chain(fs, d, path, n))
    }
}

/// A directory whose clusters did not change has the same entries.
proof fn lemma_dir_same(fs: Fat32, d: Disk, n: Disk, dir: u32, ch: Seq<u32>)
    requires
        held(fs, n),
        roomy(fs),
        held(fs, d),
        linked(fs, d, dir, ch),
        forall|i: int|
            0 <= i < ch.len() ==> ent(fs, n, #[trigger] ch[i]) == ent(fs, d, ch[i]) && dat(fs, n, ch[i]) == dat(
                fs,
                d,
                ch[i],
            ),
    ensures
        dir_entries(fs, n, dir) == dir_entries(fs, d, dir),
{
    lemma_chain_stays(fs, d, n, dir, ch);
    lemma_dir_entries(fs, d, dir, ch);
    lemma_dir_entries(fs, n, dir, ch);
    let p = per(fs);
    let f = slots(fs, d, ch);
    let g = slots(fs, n, ch);
    assert forall|i: int| 0 <= i < ch.len() * p implies #[trigger] g(i) == f(i) by {
        lemma_split(i, p, ch.len() as int, 1);
        assert(dat(fs, n, ch[i / p]) == dat(fs, d, ch[i / p]));
    }
    lemma_same_scan(f, g, dir, ch.len() * p);
}

proof fn lemma_dirs_same(fs: Fat32, d: Disk, n: Disk, path: Seq<char>, k: int)
    requires
        0 <= k <= parts(path).len(),
        dir_at(fs, d, parts(path), k) is Ok,
        forall|m: int|
            0 <= m < k ==> dir_entries(fs, n, #[trigger] dir_n(fs, d, path, m)) == dir_entries(
                fs,
                d,
                dir_n(fs, d, path, m),
            ),
    ensures
        dir_at(fs, n, parts(path), k) == dir_at(fs, d, parts(path), k),
    decreases k,
{
    if k > 0 {
        lemma_dirs_same(fs, d, n, path, k - 1);
        let dir = dir_n(fs, d, path, k - 1);
        assert(dir_entries(fs, n, dir) == dir_entries(fs, d, dir));
    }
}

/// A directory on the way to the file is beside what a write touches.
pub(crate) proof fn lemma_way_same(
    fs: Fat32,
    d: Disk,
    n: Disk,
    dir: u32,
    ch: Seq<u32>,
    a: Seq<u32>,
    b: Seq<u32>,
)
    requires
        held(fs, n),
        roomy(fs),
        held(fs, d),
        linked(fs, d, dir, ch),
        disjoint(a, ch),
        disjoint(ch, b),
        apart_from(fs, d, n, a, b),
    ensures
        dir_entries(fs, n, dir) == dir_entries(fs, d, dir),
        linked(fs, n, dir, ch),
{
    assert forall|i: int| 0 <= i < ch.len() implies ent(fs, n, #[trigger] ch[i]) == ent(fs, d, ch[i]) && dat(
        fs,
        n,
        ch[i],
    ) == dat(fs, d, ch[i]) by {
        lemma_in_use(fs, d, dir, ch, i);
        assert(valid(fs, ch[i]));
        if a.contains(ch[i]) {
            let k = choose|k: int| 0 <= k < a.len() && a[k] == ch[i];
            assert(a[k] != ch[i]);
        }
        if b.contains(ch[i]) {
            let k = choose|k: int| 0 <= k < b.len() && b[k] == ch[i];
            assert(ch[i] != b[k]);
        }
    }
    lemma_dir_same(fs, d, n, dir, ch);
    lemma_chain_stays(fs, d, n, dir, ch);
}

/// A read of the file that a path names, once its directory is known.
proof fn lemma_contents(fs: Fat32, d: Disk, n: Disk, path: Seq<char>, e: Entry, off: int, len: int)
    requires
        path_parts(path) is Some,
        parts(path).len() >= 1,
        dir_at(fs, d, parts(path), parts(path).len() - 1) is Ok,
        dir_at(fs, n, parts(path), parts(path).len() - 1) == dir_at(fs, d, parts(path), parts(path).len() - 1),
        found(fs, n, dir_n(fs, d, path, parts(path).len() - 1), parts(path).last()) == Ok::<Option<Entry>, FsError>(
            Some(e),
        ),
        !e.is_dir,
    ensures
        contents(fs, n, path, off, len) == file_part(fs, n, e, off, len),
        status(fs, n, path) == Ok::<FileStat, FsError>(FileStat { size: e.size as u64, is_dir: false }),
{
}

proof fn lemma_write_existing(fs: Fat32, d: Disk, path: Seq<char>, e: Entry, off: int, data: Seq<u8>)
    requires
        healthy(fs, d, path),
        off >= 0,
        data.len() >= 1,
        parts(path).len() >= 1,
        node_at(fs, d, path) == Ok::<Option<Node>, FsError>(Some(Node::At(e))),
        !e.is_dir,
        file_written(fs, d, e, off, data).r is Ok,
    ensures
        contents(fs, file_written(fs, d, e, off, data).disk, path, off, data.len() as int) == Ok::<
            Seq<u8>,
            FsError,
        >(data),
        status(fs, file_written(fs, d, e, off, data).disk, path) == Ok::<FileStat, FsError>(
            FileStat { size: size_after(e, off + data.len()) as u64, is_dir: false },
        ),
{
    let ps = parts(path);
    let l = ps.len() - 1;
    let dir = dir_n(fs, d, path, l);
    let ch = dir_chain(fs, d, path, l);
    let fch = file_chain(fs, d, e);
    let name = ps.last();
    lemma_dir_entries(fs, d, dir, ch);
    let total = ch.len() * per(fs);
    let es = after(slots(fs, d, ch), dir, total).out;
    assert(found(fs, d, dir, name) == Ok::<Option<Entry>, FsError>(first_named(es, name, 0)));
    lemma_named_is_one(es, name, 0);
    let i = choose|i: int| 0 <= i < es.len() && #[trigger] es[i] == e;
    assert(total >= 0) by (nonlinear_arith)
        requires
            total == ch.len() * per(fs),
            per(fs) >= 0,
    ;
    lemma_entries_plain(slots(fs, d, ch), dir, total, i);
    lemma_file_written(fs, d, e, fch, ch, off, data);
    let n = file_written(fs, d, e, off, data).disk;
    let end = off + data.len();
    let first = start_after(fs, d, e, end);
    let size = size_after(e, end);
    lemma_dir_entries(fs, n, dir, ch);
    lemma_named_renewed(es, name, e.dir_index, first, size, 0);
    let e2 = renewed(e, first, size);
    assert(found(fs, n, dir, name) == Ok::<Option<Entry>, FsError>(Some(e2)));
    assert forall|m: int| 0 <= m < l implies dir_entries(fs, n, #[trigger] dir_n(fs, d, path, m)) == dir_entries(
        fs,
        d,
        dir_n(fs, d, path, m),
    ) by {
        let c = dir_chain(fs, d, path, m);
        lemma_way_same(fs, d, n, dir_n(fs, d, path, m), c, fch, ch);
    }
    lemma_dirs_same(fs, d, n, path, l);
    lemma_contents(fs, d, n, path, e2, off, data.len() as int);
}

proof fn lemma_write_new(fs: Fat32, d: Disk, path: Seq<char>, off: int, data: Seq<u8>)
    requires
        healthy(fs, d, path),
        off >= 0,
        data.len() >= 1,
        parts(path).len() >= 1,
        parts(path).last().last() != '.',
        node_at(fs, d, path) == Ok::<Option<Node>, FsError>(None),
        written(fs, d, path, off, data).r is Ok,
    ensures
        contents(fs, written(fs, d, path, off, data).disk, path, off, data.len() as int) == Ok::<Seq<u8>, FsError>(
            data,
        ),
        status(fs, written(fs, d, path, off, data).disk, path) == Ok::<FileStat, FsError>(
            FileStat { size: (off + data.len()) as u64, is_dir: false },
        ),
{
    let ps = parts(path);
    let l = ps.len() - 1;
    let dir = dir_n(fs, d, path, l);
    let ch = dir_chain(fs, d, path, l);
    let name = ps.last();
    lemma_dir_entries(fs, d, dir, ch);
    let es = after(slots(fs, d, ch), dir, ch.len() * per(fs)).out;
    assert(found(fs, d, dir, name) == Ok::<Option<Entry>, FsError>(first_named(es, name, 0)));
    let o = created(fs, d, dir, name, 0, false);
    assert(write_target(fs, d, path) == o);
    let ch2 = lemma_created(fs, d, dir, ch, name, 0, false);
    let d1 = o.disk;
    let e = o.r->Ok_0;
    let none = Seq::<u32>::empty();
    lemma_file_written(fs, d1, e, none, ch2, off, data);
    let n = file_written(fs, d1, e, off, data).disk;
    assert(written(fs, d, path, off, data).disk == n);
    let end = off + data.len();
    let first = start_after(fs, d1, e, end);
    let size = size_after(e, end);
    lemma_dir_entries(fs, n, dir, ch2);
    let es1 = after(slots(fs, d1, ch2), dir, ch2.len() * per(fs)).out;
    let x = first_named(es1, name, 0)->0;
    lemma_named_renewed(es1, name, e.dir_index, first, size, 0);
    let x2 = renewed(x, first, size);
    assert(found(fs, n, dir, name) == Ok::<Option<Entry>, FsError>(Some(x2)));
    assert forall|m: int| 0 <= m < l implies dir_entries(fs, n, #[trigger] dir_n(fs, d, path, m)) == dir_entries(
        fs,
        d,
        dir_n(fs, d, path, m),
    ) by {
        let c = dir_chain(fs, d, path, m);
        let dm = dir_n(fs, d, path, m);
        assert(disjoint(c, ch));
        assert(disjoint(ch, c)) by {
            assert forall|i: int, j: int| 0 <= i < ch.len() && 0 <= j < c.len() implies #[trigger] ch[i]
                != #[trigger] c[j] by {
                assert(c[j] != ch[i]);
            }
        }
        lemma_way_same(fs, d, d1, dm, c, ch, ch);
        assert(disjoint(c, ch2)) by {
            assert forall|i: int, j: int| 0 <= i < c.len() && 0 <= j < ch2.len() implies #[trigger] c[i]
                != #[trigger] ch2[j] by {
                lemma_in_use(fs, d, dm, c, i);
                if j < ch.len() {
                    assert(ch2[j] == ch[j]);
                    assert(c[i] != ch[j]);
                } else {
                    assert(ent(fs, d, ch2[j]) == 0);
                }
            }
        }
        lemma_way_same(fs, d1, n, dm, c, none, ch2);
    }
    lemma_dirs_same(fs, d, n, path, l);
    lemma_contents(fs, d, n, path, x2, off, data.len() as int);
}

/// A read gives back what a write put there: after a successful write of some
/// bytes to a file of a healthy volume, reading as many bytes at the same
/// place gives the same bytes, whether the file was there before or not. The
/// name of a new file must not end in a dot: its short form has none.
pub proof fn law_read_after_write(fs: Fat32, d: Disk, path: Seq<char>, off: int, data: Seq<u8>)
    requires
        healthy(fs, d, path),
        off >= 0,
        data.len() >= 1,
        written(fs, d, path, off, data).r is Ok,
        node_at(fs, d, path) is Ok && node_at(fs, d, path)->Ok_0 is None ==> parts(path).last().last() != '.',
    ensures
        contents(fs, written(fs, d, path, off, data).disk, path, off, data.len() as int) == Ok::<Seq<u8>, FsError>(
            data,
        ),
{
    match node_at(fs, d, path) {
        Ok(Some(Node::At(e))) => {
            lemma_write_existing(fs, d, path, e, off, data);
        },
        Ok(None) => {
            lemma_write_new(fs, d, path, off, data);
        },
        _ => {},
    }
}

/// The size of a file before a write; nothing where there is no file.
pub open spec fn size_before(fs: Fat32, d: Disk, path: Seq<char>) -> int {
    match node_at(fs, d, path) {
        Ok(Some(Node::At(e))) => e.size as int,
        _ => 0,
    }
}

/// A write makes a file as long as it reaches, and never shorter.
pub proof fn law_size_after_write(fs: Fat32, d: Disk, path: Seq<char>, off: int, data: Seq<u8>)
    requires
        healthy(fs, d, path),
        off >= 0,
        data.len() >= 1,
        written(fs, d, path, off, data).r is Ok,
        node_at(fs, d, path) is Ok && node_at(fs, d, path)->Ok_0 is None ==> parts(path).last().last() != '.',
    ensures
        status(fs, written(fs, d, path, off, data).disk, path) == Ok::<FileStat, FsError>(
            FileStat {
                size: (if off + data.len() > size_before(fs, d, path) {
                    off + data.len()
                } else {
                    size_before(fs, d, path)
                }) as u64,
                is_dir: false,
            },
        ),
{
    match node_at(fs, d, path) {
        Ok(Some(Node::At(e))) => {
            lemma_write_existing(fs, d, path, e, off, data);
        },
        Ok(None) => {
            lemma_write_new(fs, d, path, off, data);
        },
        _ => {},
    }
}

// ---------------------------------------------------------------------------
// Removing a file
// ---------------------------------------------------------------------------

/// The entries but the one of slot `at`.
pub open spec fn without_slot(es: Seq<Entry>, at: int) -> Seq<Entry> {
    es.filter(|e: Entry| e.dir_index != at)
}

/// A scan in which slot `at` is marked as deleted lacks that slot's entry.
pub(crate) proof fn lemma_removed_scan(f: spec_fn(int) -> Seq<u8>, g: spec_fn(int) -> Seq<u8>, dir: u32, at: int, j: int)
    requires
        0 <= at,
        0 <= j,
        forall|i: int| 0 <= i < j && i != at ==> #[trigger] g(i) == f(i),
        plain(f(at)),
        g(at)[0] == 0xE5,
    ensures
        after(g, dir, j) == (Scan { out: without_slot(after(f, dir, j).out, at), ..after(f, dir, j) }),
    decreases j,
{
    let keep = |e: Entry| e.dir_index != at;
    if j > 0 {
        lemma_removed_scan(f, g, dir, at, j - 1);
        let a = after(f, dir, j - 1);
        let s = f(j - 1);
        let x = slot_entry(a.lfn, s, j - 1, dir);
        assert(a.out.push(x).filter(keep) == if keep(x) {
            a.out.filter(keep).push(x)
        } else {
            a.out.filter(keep)
        }) by {
            reveal(Seq::filter);
            assert(a.out.push(x).drop_last() =~= a.out);
        }
        if j - 1 != at {
            assert(g(j - 1) == s);
        }
    } else {
        reveal(Seq::filter);
    }
}

/// Freeing a whole chain empties its entries and touches nothing else.
pub(crate) proof fn lemma_all_freed(fs: Fat32, d: Disk, first: u32, ch: Seq<u32>)
    requires
        roomy(fs),
        held(fs, d),
        linked(fs, d, first, ch),
    ensures
        ({
            let o = freed(fs, d, first, 0);
            &&& o.r is Ok
            &&& held(fs, o.disk)
            &&& same_data(fs, d, o.disk)
            &&& forall|x: u32| valid(fs, x) && !ch.contains(x) ==> #[trigger] ent(fs, o.disk, x) == ent(fs, d, x)
            &&& forall|x: u32| ch.contains(x) ==> #[trigger] ent(fs, o.disk, x) == 0
        }),
{
    lemma_full_chain(fs, d, first, ch);
    let n = ch.len() as int;
    lemma_freed_upto(fs, d, ch, 0, n);
    assert(ch.subrange(0, n) =~= ch);
    assert forall|x: u32| ch.contains(x) implies #[trigger] ent(fs, freed(fs, d, first, 0).disk, x) == 0 by {
        let i = choose|i: int| 0 <= i < ch.len() && ch[i] == x;
        assert(ent(fs, freed(fs, d, first, 0).disk, ch[i]) == 0);
    }
}

/// Marking a slot as deleted changes that slot alone.
proof fn lemma_marked(fs: Fat32, d: Disk, ch: Seq<u32>, e: Entry)
    requires
        roomy(fs),
        held(fs, d),
        linked(fs, d, e.dir_cluster, ch),
        0 <= e.dir_index < ch.len() * per(fs),
    ensures
        ({
            let h = slot_home(fs, d, e.dir_cluster, e.dir_index);
            let (c, buf, o) = h->Ok_0;
            let w = with_cluster(fs, d, c, buf.update(o, 0xE5));
            let f = slots(fs, d, ch);
            let g = slots(fs, w.disk, ch);
            &&& h is Ok
            &&& ch.contains(c)
            &&& w.r is Ok
            &&& cluster_set(fs, d, w.disk, c, buf.update(o, 0xE5))
            &&& linked(fs, w.disk, e.dir_cluster, ch)
            &&& g(e.dir_index)[0] == 0xE5
            &&& forall|j: int| 0 <= j < ch.len() * per(fs) && j != e.dir_index ==> #[trigger] g(j) == f(j)
        }),
{
    let p = per(fs);
    let at = e.dir_index;
    lemma_split(at, p, ch.len() as int, 1);
    let q = at / p;
    lemma_full_chain(fs, d, e.dir_cluster, ch);
    assert(valid(fs, ch[q]));
    lemma_reads(fs, d, ch[q]);
    let buf = dat(fs, d, ch[q]);
    let o = 32 * (at % p);
    let put = buf.update(o, 0xE5);
    assert(ch.contains(ch[q]));
    lemma_with_cluster(fs, d, ch[q], put);
    let n = with_cluster(fs, d, ch[q], put).disk;
    lemma_slots_changed(fs, d, n, e.dir_cluster, ch, q, put);
    let f = slots(fs, d, ch);
    let g = slots(fs, n, ch);
    assert(g(at) == put.subrange(o, o + 32));
    assert forall|j: int| 0 <= j < ch.len() * p && j != at implies #[trigger] g(j) == f(j) by {
        lemma_split(j, p, ch.len() as int, 1);
        if j / p == q {
            let u = 32 * (j % p);
            assert(j % p != at % p);
            assert(put.subrange(u, u + 32) =~= buf.subrange(u, u + 32));
        }
    }
}

/// What removing an entry leaves: its directory without it, its clusters free,
/// and everything that belongs to neither as it was.
pub(crate) proof fn lemma_deleted(fs: Fat32, d: Disk, ch: Seq<u32>, fch: Seq<u32>, e: Entry)
    requires
        roomy(fs),
        held(fs, d),
        linked(fs, d, e.dir_cluster, ch),
        0 <= e.dir_index < ch.len() * per(fs),
        plain(slot_of(fs, d, ch, e.dir_index)),
        proper(fs, d, e.first_cluster, fch),
        disjoint(fch, ch),
    ensures
        ({
            let o = deleted(fs, d, e);
            let total = ch.len() * per(fs);
            &&& o.r is Ok
            &&& held(fs, o.disk)
            &&& linked(fs, o.disk, e.dir_cluster, ch)
            &&& after(slots(fs, o.disk, ch), e.dir_cluster, total).out == without_slot(
                after(slots(fs, d, ch), e.dir_cluster, total).out,
                e.dir_index,
            )
            &&& apart_from(fs, d, o.disk, fch, ch)
            &&& forall|x: u32| fch.contains(x) ==> #[trigger] ent(fs, o.disk, x) == 0
        }),
{
    let dir = e.dir_cluster;
    let total = ch.len() * per(fs);
    lemma_marked(fs, d, ch, e);
    let (c, buf, o) = slot_home(fs, d, dir, e.dir_index)->Ok_0;
    let w = with_cluster(fs, d, c, buf.update(o, 0xE5)).disk;
    let f = slots(fs, d, ch);
    let g = slots(fs, w, ch);
    lemma_removed_scan(f, g, dir, e.dir_index, total);
    let n = deleted(fs, d, e).disk;
    if e.first_cluster != 0 {
        assert forall|i: int| 0 <= i < fch.len() implies ent(fs, w, #[trigger] fch[i]) == ent(fs, d, fch[i]) by {
            assert(valid(fs, fch[i]));
        }
        lemma_chain_stays(fs, d, w, e.first_cluster, fch);
        lemma_all_freed(fs, w, e.first_cluster, fch);
        assert forall|i: int| 0 <= i < ch.len() implies ent(fs, n, #[trigger] ch[i]) == ent(fs, w, ch[i]) by {
            assert(valid(fs, ch[i]));
            if fch.contains(ch[i]) {
                let k = choose|k: int| 0 <= k < fch.len() && fch[k] == ch[i];
                assert(fch[k] != ch[i]);
            }
        }
        lemma_chain_stays(fs, w, n, dir, ch);
        let h = slots(fs, n, ch);
        assert forall|i: int| 0 <= i < total implies #[trigger] h(i) == g(i) by {
            lemma_split(i, per(fs), ch.len() as int, 1);
            assert(valid(fs, ch[i / per(fs)]));
        }
        lemma_same_scan(g, h, dir, total);
    }
}

/// The path's directory and the place of its entry there.
pub(crate) proof fn lemma_entry_place(fs: Fat32, d: Disk, path: Seq<char>, e: Entry)
    requires
        healthy(fs, d, path),
        node_at(fs, d, path) == Ok::<Option<Node>, FsError>(Some(Node::At(e))),
    ensures
        ({
            let l = parts(path).len() - 1;
            let dir = dir_n(fs, d, path, l);
            let ch = dir_chain(fs, d, path, l);
            let es = after(slots(fs, d, ch), dir, ch.len() * per(fs)).out;
            &&& l >= 0
            &&& linked(fs, d, dir, ch)
            &&& e.dir_cluster == dir
            &&& 0 <= e.dir_index < ch.len() * per(fs)
            &&& plain(slot_of(fs, d, ch, e.dir_index))
            &&& dir_entries(fs, d, dir) == Ok::<Seq<Entry>, FsError>(es)
            &&& first_named(es, parts(path).last(), 0) == Some(e)
            &&& disjoint(file_chain(fs, d, e), ch)
        }),
{
    let ps = parts(path);
    let l = ps.len() - 1;
    let dir = dir_n(fs, d, path, l);
    let ch = dir_chain(fs, d, path, l);
    let name = ps.last();
    lemma_dir_entries(fs, d, dir, ch);
    let total = ch.len() * per(fs);
    let es = after(slots(fs, d, ch), dir, total).out;
    assert(found(fs, d, dir, name) == Ok::<Option<Entry>, FsError>(first_named(es, name, 0)));
    lemma_named_is_one(es, name, 0);
    let i = choose|i: int| 0 <= i < es.len() && #[trigger] es[i] == e;
    assert(total >= 0) by (nonlinear_arith)
        requires
            total == ch.len() * per(fs),
            per(fs) >= 0,
    ;
    lemma_entries_plain(slots(fs, d, ch), dir, total, i);
}

/// No entry but the one of slot `at` has the name.
pub open spec fn sole(es: Seq<Entry>, name: Seq<char>, at: int) -> bool {
    forall|i: int| 0 <= i < es.len() && is_named(#[trigger] es[i], name) ==> es[i].dir_index == at
}

pub(crate) proof fn lemma_none_named(es: Seq<Entry>, name: Seq<char>, k: int)
    requires
        0 <= k,
        forall|i: int| k <= i < es.len() ==> !is_named(#[trigger] es[i], name),
    ensures
        first_named(es, name, k) is None,
    decreases es.len() - k,
{
    if k < es.len() {
        lemma_none_named(es, name, k + 1);
    }
}

/// The entries of the directory that holds what a path names.
pub open spec fn siblings(fs: Fat32, d: Disk, path: Seq<char>) -> Seq<Entry> {
    dir_entries(fs, d, dir_n(fs, d, path, parts(path).len() - 1))->Ok_0
}

/// A removed file is gone: its directory lists what it listed but for its
/// entry, its clusters are free, and unless the directory has another entry of
/// that name the path names nothing.
pub proof fn law_unlinked_is_gone(fs: Fat32, d: Disk, path: Seq<char>)
    requires
        healthy(fs, d, path),
        unlinked(fs, d, path).r is Ok,
    ensures
        ({
            let n = unlinked(fs, d, path).disk;
            let e = node_at(fs, d, path)->Ok_0->0->At_0;
            &&& node_at(fs, d, path) is Ok && node_at(fs, d, path)->Ok_0 is Some
            &&& siblings(fs, n, path) == without_slot(siblings(fs, d, path), e.dir_index)
            &&& forall|c: u32| file_chain(fs, d, e).contains(c) ==> #[trigger] ent(fs, n, c) == 0
            &&& sole(siblings(fs, d, path), parts(path).last(), e.dir_index) ==> status(fs, n, path) == Err::<
                FileStat,
                FsError,
            >(FsError::NotFound)
        }),
{
    let e = node_at(fs, d, path)->Ok_0->0->At_0;
    let ps = parts(path);
    let l = ps.len() - 1;
    lemma_entry_place(fs, d, path, e);
    let dir = dir_n(fs, d, path, l);
    let ch = dir_chain(fs, d, path, l);
    let fch = file_chain(fs, d, e);
    lemma_deleted(fs, d, ch, fch, e);
    let n = deleted(fs, d, e).disk;
    lemma_dir_entries(fs, n, dir, ch);
    assert forall|m: int| 0 <= m < l implies dir_entries(fs, n, #[trigger] dir_n(fs, d, path, m)) == dir_entries(
        fs,
        d,
        dir_n(fs, d, path, m),
    ) by {
        let c = dir_chain(fs, d, path, m);
        lemma_way_same(fs, d, n, dir_n(fs, d, path, m), c, fch, ch);
    }
    lemma_dirs_same(fs, d, n, path, l);
    let es = siblings(fs, d, path);
    let left = without_slot(es, e.dir_index);
    if sole(es, ps.last(), e.dir_index) {
        assert forall|i: int| 0 <= i < left.len() implies !is_named(#[trigger] left[i], ps.last()) by {
            let keep = |x: Entry| x.dir_index != e.dir_index;
            es.lemma_filter_contains_rev(keep, left[i]);
            assert(es.contains(left[i]));
        }
        lemma_none_named(left, ps.last(), 0);
    }
}

// ---------------------------------------------------------------------------
// Making a directory
// ---------------------------------------------------------------------------

/// A cluster that was free gets an end mark and new contents: what is in use
/// stays as it was.
pub(crate) proof fn lemma_new_cluster(fs: Fat32, d: Disk, data: Seq<u8>) -> (c: u32)
    requires
        roomy(fs),
        held(fs, d),
        allocated(fs, d, None).r is Ok,
        data.len() == fs.cluster_size(),
    ensures
        allocated(fs, d, None).r == Ok::<u32, FsError>(c),
        ({
            let w = with_cluster(fs, allocated(fs, d, None).disk, c, data);
            &&& w.r is Ok
            &&& held(fs, w.disk)
            &&& valid(fs, c)
            &&& ent(fs, d, c) == 0
            &&& linked(fs, w.disk, c, seq![c])
            &&& dat(fs, w.disk, c) == data
            &&& apart_from(fs, d, w.disk, Seq::empty(), Seq::empty())
        }),
{
    lemma_allocated(fs, d, None);
    let a = allocated(fs, d, None);
    let c = a.r->Ok_0;
    lemma_with_cluster(fs, a.disk, c, data);
    let n = with_cluster(fs, a.disk, c, data).disk;
    assert(ent(fs, n, c) == EOC);
    assert(ends(EOC));
    c
}

/// A slot of dots names a directory of that many dots.
proof fn lemma_dots_slot(n: int, c: u32)
    requires
        1 <= n <= 2,
    ensures
        dots_slot(n, c).len() == 32,
        plain(dots_slot(n, c)),
        short_of(dots_slot(n, c)) == Seq::new(n as nat, |i: int| '.'),
{
    let s = dots_slot(n, c);
    assert(s[11] == crate::fat::ATTR_DIR);
    assert(s[0] == 0x2E && s[8] == 0x20 && s[9] == 0x20 && s[10] == 0x20 && s[12] == 0);
    assert(s[1] == if n == 2 { 0x2Eu8 } else { 0x20u8 });
    assert(s[2] == 0x20);
    reveal_with_fuel(stem, 4);
    assert(short_of(s) =~= Seq::new(n as nat, |i: int| '.'));
}

/// A directory of which the first two slots hold dots and the third ends it
/// lists nothing.
proof fn lemma_dots_only(f: spec_fn(int) -> Seq<u8>, dir: u32, j: int)
    requires
        j >= 3,
        plain(f(0)),
        plain(f(1)),
        is_dots(short_of(f(0))),
        is_dots(short_of(f(1))),
        f(2)[0] == 0,
    ensures
        lines(after(f, dir, j).out, after(f, dir, j).out.len() as int) == Seq::<Line>::empty(),
{
    let none = Seq::<Part>::empty();
    let x = slot_entry(none, f(0), 0, dir);
    let y = slot_entry(none, f(1), 1, dir);
    let a = after(f, dir, 0);
    let b = after(f, dir, 1);
    let c = after(f, dir, 2);
    let e = after(f, dir, 3);
    assert(b == scan_slot(a, f(0), 0, dir));
    assert(b.out =~= seq![x] && !b.done && b.lfn =~= none);
    assert(c == scan_slot(b, f(1), 1, dir));
    assert(c.out =~= seq![x, y] && !c.done);
    assert(e == scan_slot(c, f(2), 2, dir));
    assert(e.done && e.out == c.out);
    lemma_done_stays(f, dir, 3, j);
    let es = after(f, dir, j).out;
    assert(es.len() == 2 && es[0] == x && es[1] == y);
    assert(lines(es, 0) =~= Seq::<Line>::empty());
    assert(lines(es, 1) == lines(es, 0));
    assert(lines(es, 2) == lines(es, 1));
}

/// A new directory lists nothing: it holds `.` and `..` alone.
proof fn lemma_new_dir_is_empty(fs: Fat32, d: Disk, c: u32, up: u32)
    requires
        roomy(fs),
        held(fs, d),
        linked(fs, d, c, seq![c]),
        dat(fs, d, c) == new_dir(fs, c, up),
    ensures
        dir_lines(fs, d, c) == Ok::<Seq<Line>, FsError>(Seq::empty()),
{
    let ch = seq![c];
    let p = per(fs);
    lemma_dir_entries(fs, d, c, ch);
    let f = slots(fs, d, ch);
    lemma_dots_slot(1, c);
    lemma_dots_slot(2, up);
    assert(p >= 16);
    assert(ch.len() * p == p);
    lemma_split(0, p, 1, 1);
    lemma_split(1, p, 1, 1);
    lemma_split(2, p, 1, 1);
    let buf = new_dir(fs, c, up);
    assert(f(0) =~= dots_slot(1, c)) by {
        assert(f(0) == buf.subrange(0, 32));
    }
    assert(f(1) =~= dots_slot(2, up)) by {
        assert(f(1) == buf.subrange(32, 64));
    }
    assert(f(2) == buf.subrange(64, 96));
    assert(f(2)[0] == buf[64]);
    assert(is_dots(short_of(f(0)))) by {
        assert(short_of(f(0)) =~= seq!['.']);
    }
    assert(is_dots(short_of(f(1)))) by {
        assert(short_of(f(1)) =~= seq!['.', '.']);
    }
    lemma_dots_only(f, c, p);
}

/// A one-cluster chain on what was free stays beside a directory that changes.
proof fn lemma_one_stays(fs: Fat32, d: Disk, w: Disk, n: Disk, dir: u32, ch: Seq<u32>, c: u32)
    requires
        held(fs, n),
        held(fs, w),
        roomy(fs),
        held(fs, d),
        linked(fs, d, dir, ch),
        ent(fs, d, c) == 0,
        linked(fs, w, c, seq![c]),
        apart_from(fs, w, n, ch, ch),
    ensures
        linked(fs, n, c, seq![c]),
        dat(fs, n, c) == dat(fs, w, c),
{
    if ch.contains(c) {
        let i = choose|i: int| 0 <= i < ch.len() && ch[i] == c;
        lemma_in_use(fs, d, dir, ch, i);
    }
    lemma_in_use(fs, w, c, seq![c], 0);
    assert(valid(fs, seq![c][0]));
    lemma_chain_stays(fs, w, n, c, seq![c]);
}

/// What making a directory leaves: the path names it, and its one cluster is as
/// it was written.
#[verifier::rlimit(30)]
proof fn lemma_dir_made(fs: Fat32, d: Disk, path: Seq<char>) -> (r: (Entry, u32))
    requires
        healthy(fs, d, path),
        dir_made(fs, d, path).r is Ok,
        parts(path).last().last() != '.',
    ensures
        ({
            let n = dir_made(fs, d, path).disk;
            let (x, up) = r;
            let c = x.first_cluster;
            &&& node_at(fs, n, path) == Ok::<Option<Node>, FsError>(Some(Node::At(x)))
            &&& x.is_dir && x.size == 0
            &&& held(fs, n)
            &&& linked(fs, n, c, seq![c])
            &&& dat(fs, n, c) == new_dir(fs, c, up)
        }),
{
    let ps = parts(path);
    let l = ps.len() - 1;
    let dir = dir_n(fs, d, path, l);
    let ch = dir_chain(fs, d, path, l);
    let name = ps.last();
    lemma_dir_entries(fs, d, dir, ch);
    let up: u32 = if dir == fs.root_cluster {
        0
    } else {
        dir
    };
    let blank = new_dir(fs, allocated(fs, d, None).r->Ok_0, up);
    let c = lemma_new_cluster(fs, d, blank);
    let none = Seq::<u32>::empty();
    let w = with_cluster(fs, allocated(fs, d, None).disk, c, blank).disk;
    lemma_way_same(fs, d, w, dir, ch, none, none);
    lemma_dir_entries(fs, w, dir, ch);
    let ch2 = lemma_created(fs, w, dir, ch, name, c, true);
    let n = dir_made(fs, d, path).disk;
    lemma_dir_entries(fs, n, dir, ch2);
    assert forall|m: int| 0 <= m < l implies dir_entries(fs, n, #[trigger] dir_n(fs, d, path, m)) == dir_entries(
        fs,
        d,
        dir_n(fs, d, path, m),
    ) by {
        let cm = dir_chain(fs, d, path, m);
        let dm = dir_n(fs, d, path, m);
        lemma_disjoint_both(cm, ch);
        lemma_way_same(fs, d, w, dm, cm, none, none);
        lemma_way_same(fs, w, n, dm, cm, ch, ch);
    }
    lemma_dirs_same(fs, d, n, path, l);
    lemma_one_stays(fs, d, w, n, dir, ch, c);
    let es = after(slots(fs, n, ch2), dir, ch2.len() * per(fs)).out;
    (first_named(es, name, 0)->0, up)
}

/// A made directory is there: the path names a directory, and it lists nothing.
pub proof fn law_made_directory_is_there(fs: Fat32, d: Disk, path: Seq<char>)
    requires
        healthy(fs, d, path),
        dir_made(fs, d, path).r is Ok,
        parts(path).last().last() != '.',
    ensures
        status(fs, dir_made(fs, d, path).disk, path) == Ok::<FileStat, FsError>(
            FileStat { size: 0, is_dir: true },
        ),
        listing(fs, dir_made(fs, d, path).disk, path) == Ok::<Seq<Line>, FsError>(Seq::empty()),
{
    let n = dir_made(fs, d, path).disk;
    let (x, up) = lemma_dir_made(fs, d, path);
    assert(valid(fs, seq![x.first_cluster][0]));
    lemma_new_dir_is_empty(fs, n, x.first_cluster, up);
}

// ---------------------------------------------------------------------------
// Renaming
// ---------------------------------------------------------------------------

/// The entries with the short name of slot `at` replaced. A long name is kept
/// where the slot has one.
pub open spec fn recast(es: Seq<Entry>, at: int, short: Seq<char>, long: bool) -> Seq<Entry> {
    es.map_values(|e: Entry| recast_entry(e, at, short, long))
}

pub open spec fn recast_entry(e: Entry, at: int, short: Seq<char>, long: bool) -> Entry {
    if e.dir_index == at {
        Entry { name: if long { e.name } else { short }, short, ..e }
    } else {
        e
    }
}

/// Two slots that agree on all but the name.
pub open spec fn same_rest(s: Seq<u8>, t: Seq<u8>) -> bool {
    s.len() == 32 && t.len() == 32 && forall|i: int| 11 <= i < 32 ==> #[trigger] s[i] == t[i]
}

/// A scan in which slot `at` has another name gives its entry that name.
pub(crate) proof fn lemma_recast_scan(f: spec_fn(int) -> Seq<u8>, g: spec_fn(int) -> Seq<u8>, dir: u32, at: int, j: int)
    requires
        0 <= at,
        0 <= j,
        forall|i: int| 0 <= i < j && i != at ==> #[trigger] g(i) == f(i),
        plain(f(at)),
        plain(g(at)),
        same_rest(f(at), g(at)),
    ensures
        after(g, dir, j) == (Scan {
            out: recast(after(f, dir, j).out, at, short_of(g(at)), after(f, dir, at).lfn.len() > 0),
            ..after(f, dir, j)
        }),
    decreases j,
{
    let short = short_of(g(at));
    let long = after(f, dir, at).lfn.len() > 0;
    if j > 0 {
        lemma_recast_scan(f, g, dir, at, j - 1);
        let a = after(f, dir, j - 1);
        if j - 1 == at {
            if !a.done {
                let x = slot_entry(a.lfn, f(at), at, dir);
                let y = slot_entry(a.lfn, g(at), at, dir);
                assert(le16(f(at), 20) == le16(g(at), 20));
                assert(le16(f(at), 26) == le16(g(at), 26));
                assert(le32(f(at), 28) == le32(g(at), 28));
                assert(y == recast_entry(x, at, short, long));
                assert(recast(a.out.push(x), at, short, long) =~= recast(a.out, at, short, long).push(y));
            }
        } else {
            let s = f(j - 1);
            assert(g(j - 1) == s);
            let x = slot_entry(a.lfn, s, j - 1, dir);
            assert(recast(a.out.push(x), at, short, long) =~= recast(a.out, at, short, long).push(x));
        }
    } else {
        assert(recast(Seq::<Entry>::empty(), at, short, long) =~= Seq::<Entry>::empty());
    }
}

/// Entries stand in the order of their slots.
pub(crate) proof fn lemma_in_order(f: spec_fn(int) -> Seq<u8>, dir: u32, j: int, a: int, b: int)
    requires
        0 <= j,
        0 <= a < b < after(f, dir, j).out.len(),
    ensures
        after(f, dir, j).out[a].dir_index < after(f, dir, j).out[b].dir_index,
    decreases j,
{
    if j > 0 {
        let was = after(f, dir, j - 1).out;
        if b < was.len() {
            lemma_in_order(f, dir, j - 1, a, b);
        } else {
            lemma_entries_plain(f, dir, j - 1, a);
        }
    }
}

/// Among entries none of which has a name, the one that is given it is found.
proof fn lemma_named_recast(es: Seq<Entry>, name: Seq<char>, at: int, short: Seq<char>, long: bool, i: int, k: int)
    requires
        0 <= k <= i < es.len(),
        first_named(es, name, k) is None,
        es[i].dir_index == at,
        forall|m: int| 0 <= m < i ==> (#[trigger] es[m]).dir_index != at,
        same_name(short, name),
    ensures
        first_named(recast(es, at, short, long), name, k) == Some(recast_entry(es[i], at, short, long)),
    decreases i - k,
{
    let rs = recast(es, at, short, long);
    assert(rs[k] == recast_entry(es[k], at, short, long));
    if k < i {
        lemma_named_recast(es, name, at, short, long, i, k + 1);
    }
}

/// A chain whose clusters did not change gives the same bytes.
proof fn lemma_gathered_same(fs: Fat32, d: Disk, n: Disk, ch: Seq<u32>, size: int, pos: int, len: int)
    requires
        held(fs, n),
        roomy(fs),
        held(fs, d),
        0 <= pos,
        pos / fs.cluster_size() < ch.len(),
        forall|i: int| 0 <= i < ch.len() ==> valid(fs, #[trigger] ch[i]),
        forall|i: int| 0 <= i < ch.len() ==> dat(fs, n, #[trigger] ch[i]) == dat(fs, d, ch[i]),
    ensures
        gathered(fs, n, ch, size, pos, len) == gathered(fs, d, ch, size, pos, len),
    decreases len,
{
    let cb = fs.cluster_size();
    let q = pos / cb;
    let take = span_at(fs, size, pos, len);
    assert(0 <= q) by (nonlinear_arith)
        requires
            pos >= 0,
            cb > 0,
            q == pos / cb,
    ;
    lemma_reads(fs, d, ch[q]);
    lemma_reads(fs, n, ch[q]);
    if !(take <= 0 || take >= len || pos + take >= size || q + 1 >= ch.len()) {
        assert((pos + take) / cb == q + 1) by (nonlinear_arith)
            requires
                cb > 0,
                q == pos / cb,
                take == cb - pos % cb,
        ;
        lemma_gathered_same(fs, d, n, ch, size, pos + take, len - take);
    }
}

/// What writing another short name into an entry's slot leaves.
pub(crate) proof fn lemma_slot_renamed(fs: Fat32, d: Disk, ch: Seq<u32>, e: Entry, name: Seq<char>)
    requires
        roomy(fs),
        held(fs, d),
        linked(fs, d, e.dir_cluster, ch),
        0 <= e.dir_index < ch.len() * per(fs),
        plain(slot_of(fs, d, ch, e.dir_index)),
        fits_short(name),
    ensures
        ({
            let h = slot_home(fs, d, e.dir_cluster, e.dir_index);
            let (c, buf, o) = h->Ok_0;
            let w = with_cluster(fs, d, c, splice(buf, o, short_form(name)));
            let f = slots(fs, d, ch);
            let g = slots(fs, w.disk, ch);
            &&& h is Ok
            &&& ch.contains(c)
            &&& w.r is Ok
            &&& cluster_set(fs, d, w.disk, c, splice(buf, o, short_form(name)))
            &&& linked(fs, w.disk, e.dir_cluster, ch)
            &&& plain(g(e.dir_index))
            &&& same_rest(f(e.dir_index), g(e.dir_index))
            &&& name.last() != '.' ==> same_name(short_of(g(e.dir_index)), name)
            &&& forall|j: int| 0 <= j < ch.len() * per(fs) && j != e.dir_index ==> #[trigger] g(j) == f(j)
        }),
{
    let p = per(fs);
    let at = e.dir_index;
    lemma_split(at, p, ch.len() as int, 1);
    let q = at / p;
    lemma_full_chain(fs, d, e.dir_cluster, ch);
    assert(valid(fs, ch[q]));
    lemma_reads(fs, d, ch[q]);
    let buf = dat(fs, d, ch[q]);
    let o = 32 * (at % p);
    let short = short_form(name);
    let put = splice(buf, o, short);
    assert(ch.contains(ch[q]));
    lemma_with_cluster(fs, d, ch[q], put);
    let n = with_cluster(fs, d, ch[q], put).disk;
    lemma_slots_changed(fs, d, n, e.dir_cluster, ch, q, put);
    let f = slots(fs, d, ch);
    let g = slots(fs, n, ch);
    assert(g(at) == put.subrange(o, o + 32));
    assert forall|i: int| 0 <= i < 11 implies #[trigger] g(at)[i] == short[i] by {
        assert(put[o + i] == short[i]);
    }
    assert forall|i: int| 11 <= i < 32 implies #[trigger] f(at)[i] == g(at)[i] by {
        assert(put[o + i] == buf[o + i]);
    }
    assert(crate::fat::is_base_char(base_of(name)[0]));
    assert(g(at)[0] == short[0]);
    if name.last() != '.' {
        lemma_slot_name(g(at), name);
    }
    assert forall|j: int| 0 <= j < ch.len() * p && j != at implies #[trigger] g(j) == f(j) by {
        lemma_split(j, p, ch.len() as int, 1);
        if j / p == q {
            let u = 32 * (j % p);
            assert(j % p != at % p);
            assert(put.subrange(u, u + 32) =~= buf.subrange(u, u + 32));
        }
    }
}

/// The directories on the way to a path stay as they were where only the
/// directory `ch` changed, on which the path ends.
proof fn lemma_way_to_kept(fs: Fat32, d: Disk, n: Disk, path: Seq<char>, ch: Seq<u32>)
    requires
        held(fs, n),
        healthy(fs, d, path),
        parts(path).len() >= 1,
        ch == dir_chain(fs, d, path, parts(path).len() - 1),
        apart_from(fs, d, n, ch, ch),
    ensures
        dir_at(fs, n, parts(path), parts(path).len() - 1) == dir_at(fs, d, parts(path), parts(path).len() - 1),
{
    let l = parts(path).len() - 1;
    assert forall|m: int| 0 <= m < l implies dir_entries(fs, n, #[trigger] dir_n(fs, d, path, m)) == dir_entries(
        fs,
        d,
        dir_n(fs, d, path, m),
    ) by {
        let cm = dir_chain(fs, d, path, m);
        lemma_disjoint_both(cm, ch);
        lemma_way_same(fs, d, n, dir_n(fs, d, path, m), cm, ch, ch);
    }
    lemma_dirs_same(fs, d, n, path, l);
}

/// What renaming leaves: both paths end on one directory, which has the new
/// name in the entry's slot, and all that is not of that directory is as it was.
pub(crate) proof fn lemma_renamed(fs: Fat32, d: Disk, from: Seq<char>, to: Seq<char>) -> (x: Entry)
    requires
        healthy(fs, d, from),
        healthy(fs, d, to),
        renamed(fs, d, from, to).r is Ok,
        parts(to).last().last() != '.',
    ensures
        ({
            let n = renamed(fs, d, from, to).disk;
            let e = node_at(fs, d, from)->Ok_0->0->At_0;
            let ch = dir_chain(fs, d, from, parts(from).len() - 1);
            &&& node_at(fs, d, from) == Ok::<Option<Node>, FsError>(Some(Node::At(e)))
            &&& node_at(fs, n, to) == Ok::<Option<Node>, FsError>(Some(Node::At(x)))
            &&& x == (Entry { name: x.name, short: x.short, ..e })
            &&& same_name(x.short, parts(to).last())
            &&& x.name == x.short || x.name == e.name
            &&& held(fs, n)
            &&& apart_from(fs, d, n, ch, ch)
            &&& dir_at(fs, n, parts(from), parts(from).len() - 1) == dir_at(fs, d, parts(from), parts(from).len() - 1)
            &&& dir_entries(fs, n, dir_n(fs, n, from, parts(from).len() - 1)) is Ok
            &&& siblings(fs, n, from) == siblings(fs, d, from).map_values(
                |y: Entry| if y.dir_index == e.dir_index { x } else { y },
            )
        }),
{
    let e = node_at(fs, d, from)->Ok_0->0->At_0;
    lemma_entry_place(fs, d, from, e);
    let lf = parts(from).len() - 1;
    let lt = parts(to).len() - 1;
    let dir = e.dir_cluster;
    let ch = dir_chain(fs, d, from, lf);
    let name = parts(to).last();
    assert(dir_n(fs, d, to, lt) == dir);
    assert(dir_chain(fs, d, to, lt) == ch);
    lemma_slot_renamed(fs, d, ch, e, name);
    let (c, buf, o) = slot_home(fs, d, dir, e.dir_index)->Ok_0;
    let put = splice(buf, o, short_form(name));
    let n = renamed(fs, d, from, to).disk;
    assert(n == with_cluster(fs, d, c, put).disk);
    assert(apart_from(fs, d, n, ch, ch));
    lemma_way_to_kept(fs, d, n, from, ch);
    lemma_way_to_kept(fs, d, n, to, ch);
    let f = slots(fs, d, ch);
    let g = slots(fs, n, ch);
    let at = e.dir_index;
    let total = ch.len() * per(fs);
    let short = short_of(g(at));
    let long = after(f, dir, at).lfn.len() > 0;
    lemma_recast_scan(f, g, dir, at, total);
    lemma_dir_entries(fs, n, dir, ch);
    let es = after(f, dir, total).out;
    let rs = recast(es, at, short, long);
    assert(first_named(es, name, 0) is None);
    lemma_named_is_one(es, parts(from).last(), 0);
    let i = choose|i: int| 0 <= i < es.len() && #[trigger] es[i] == e;
    assert forall|m: int| 0 <= m < es.len() && m != i implies (#[trigger] es[m]).dir_index != at by {
        if m < i {
            lemma_in_order(f, dir, total, m, i);
        } else {
            lemma_in_order(f, dir, total, i, m);
        }
    }
    lemma_named_recast(es, name, at, short, long, i, 0);
    let x = recast_entry(e, at, short, long);
    assert(rs =~= es.map_values(|y: Entry| if y.dir_index == at { x } else { y }));
    x
}

/// The chain of an entry, and what is read along it, stay as they were where
/// only clusters of two other chains changed.
pub(crate) proof fn lemma_file_kept(fs: Fat32, d: Disk, n: Disk, e: Entry, a: Seq<u32>, b: Seq<u32>, off: int, len: int)
    requires
        held(fs, n),
        roomy(fs),
        held(fs, d),
        proper(fs, d, e.first_cluster, file_chain(fs, d, e)),
        disjoint(a, file_chain(fs, d, e)),
        disjoint(file_chain(fs, d, e), b),
        apart_from(fs, d, n, a, b),
        0 <= off,
    ensures
        file_part(fs, n, e, off, len) == file_part(fs, d, e, off, len),
        e.first_cluster != 0 ==> dir_entries(fs, n, e.first_cluster) == dir_entries(fs, d, e.first_cluster),
{
    let fch = file_chain(fs, d, e);
    if e.first_cluster != 0 {
        let first = e.first_cluster;
        lemma_way_same(fs, d, n, first, fch, a, b);
        lemma_full_chain(fs, d, first, fch);
        lemma_full_chain(fs, n, first, fch);
        assert forall|i: int| 0 <= i < fch.len() implies dat(fs, n, #[trigger] fch[i]) == dat(fs, d, fch[i]) by {
            lemma_in_use(fs, d, first, fch, i);
            assert(valid(fs, fch[i]));
            if a.contains(fch[i]) {
                let k = choose|k: int| 0 <= k < a.len() && a[k] == fch[i];
                assert(a[k] != fch[i]);
            }
            if b.contains(fch[i]) {
                let k = choose|k: int| 0 <= k < b.len() && b[k] == fch[i];
                assert(fch[i] != b[k]);
            }
            assert(ent(fs, n, fch[i]) == ent(fs, d, fch[i]));
        }
        if off / fs.cluster_size() < fch.len() {
            lemma_gathered_same(fs, d, n, fch, e.size as int, off, len);
        }
    }
}

/// Sharing no cluster goes both ways.
proof fn lemma_disjoint_both(a: Seq<u32>, b: Seq<u32>)
    requires
        disjoint(a, b),
    ensures
        disjoint(b, a),
{
    assert forall|i: int, j: int| 0 <= i < b.len() && 0 <= j < a.len() implies #[trigger] b[i] != #[trigger] a[j] by {
        assert(a[j] != b[i]);
    }
}

/// The old path names nothing where its name is taken from the one entry that
/// had it.
proof fn lemma_name_gone(fs: Fat32, n: Disk, path: Seq<char>, es: Seq<Entry>, at: int, x: Entry)
    requires
        path_parts(path) is Some,
        parts(path).len() >= 1,
        dir_at(fs, n, parts(path), parts(path).len() - 1) is Ok,
        dir_entries(fs, n, dir_n(fs, n, path, parts(path).len() - 1)) == Ok::<Seq<Entry>, FsError>(
            es.map_values(|y: Entry| if y.dir_index == at { x } else { y }),
        ),
        sole(es, parts(path).last(), at),
        !is_named(x, parts(path).last()),
    ensures
        status(fs, n, path) == Err::<FileStat, FsError>(FsError::NotFound),
{
    let rs = es.map_values(|y: Entry| if y.dir_index == at { x } else { y });
    let name = parts(path).last();
    assert forall|i: int| 0 <= i < rs.len() implies !is_named(#[trigger] rs[i], name) by {
        assert(rs[i] == if es[i].dir_index == at { x } else { es[i] });
    }
    lemma_none_named(rs, name, 0);
}

/// A renamed entry is what it was, under its new name: the new path has the
/// status, the bytes and the listing that the old one had, the directory lists
/// that entry in the old one's place and all others as they were, and unless
/// another entry of the directory, or a long name that the entry keeps, still
/// answers to the old name, the old path names nothing.
pub proof fn law_renamed_is_the_same(fs: Fat32, d: Disk, from: Seq<char>, to: Seq<char>, off: int, len: int)
    requires
        healthy(fs, d, from),
        healthy(fs, d, to),
        renamed(fs, d, from, to).r is Ok,
        parts(to).last().last() != '.',
        0 <= off,
    ensures
        ({
            let n = renamed(fs, d, from, to).disk;
            let e = node_at(fs, d, from)->Ok_0->0->At_0;
            let x = node_at(fs, n, to)->Ok_0->0->At_0;
            &&& status(fs, n, to) is Ok
            &&& status(fs, n, to) == status(fs, d, from)
            &&& contents(fs, n, to, off, len) == contents(fs, d, from, off, len)
            &&& listing(fs, n, to) == listing(fs, d, from)
            &&& siblings(fs, n, from) == siblings(fs, d, from).map_values(
                |y: Entry| if y.dir_index == e.dir_index { x } else { y },
            )
            &&& sole(siblings(fs, d, from), parts(from).last(), e.dir_index) && !is_named(x, parts(from).last())
                ==> status(fs, n, from) == Err::<FileStat, FsError>(FsError::NotFound)
        }),
{
    let n = renamed(fs, d, from, to).disk;
    let x = lemma_renamed(fs, d, from, to);
    let e = node_at(fs, d, from)->Ok_0->0->At_0;
    lemma_entry_place(fs, d, from, e);
    let ch = dir_chain(fs, d, from, parts(from).len() - 1);
    lemma_disjoint_both(file_chain(fs, d, e), ch);
    lemma_file_kept(fs, d, n, e, ch, ch, off, len);
    assert(file_part(fs, n, x, off, len) == file_part(fs, n, e, off, len));
    if sole(siblings(fs, d, from), parts(from).last(), e.dir_index) && !is_named(x, parts(from).last()) {
        lemma_name_gone(fs, n, from, siblings(fs, d, from), e.dir_index, x);
    }
}

// ---------------------------------------------------------------------------
// With the volume at hand nothing waits
// ---------------------------------------------------------------------------

proof fn lemma_free_answers(fs: Fat32, d: Disk, c: int)
    requires
        roomy(fs),
        held(fs, d),
        2 <= c,
    ensures
        !is_pending(first_free(fs, d, c)),
    decreases fs.total_clusters + 2 - c,
{
    if c <= 1 + fs.total_clusters {
        lemma_reads(fs, d, c as u32);
        lemma_free_answers(fs, d, c + 1);
    }
}

proof fn lemma_allocated_answers(fs: Fat32, d: Disk, prev: Option<u32>)
    requires
        roomy(fs),
        held(fs, d),
        prev matches Some(p) ==> valid(fs, p),
    ensures
        !is_pending(allocated(fs, d, prev).r),
{
    lemma_free_answers(fs, d, 2);
    if let Ok(c) = first_free(fs, d, 2) {
        lemma_first_free(fs, d, 2);
        lemma_with_entry(fs, d, c, EOC);
        if let Some(p) = prev {
            lemma_with_entry(fs, with_entry(fs, d, c, EOC).disk, p, c);
        }
    }
}

proof fn lemma_extended_answers(fs: Fat32, d: Disk, g: Grown, need: int)
    requires
        roomy(fs),
        held(fs, d),
        g.chain.len() == 0 || linked(fs, d, g.first, g.chain),
    ensures
        !is_pending(extended(fs, d, g, need).r),
    decreases need - g.chain.len(),
{
    if g.chain.len() < need {
        if g.chain.len() > 0 {
            assert(valid(fs, g.chain[g.chain.len() - 1]));
        }
        lemma_allocated_answers(fs, d, tail_of(g));
        let a = allocated(fs, d, tail_of(g));
        if a.r is Ok {
            lemma_one_more(fs, d, g);
            lemma_extended_answers(fs, a.disk, one_more(g, a.r->Ok_0), need);
        }
    }
}

/// Fitting the chain of a file asks for nothing.
proof fn lemma_fits(fs: Fat32, d: Disk, first: u32, fch: Seq<u32>, end: int)
    requires
        roomy(fs),
        held(fs, d),
        proper(fs, d, first, fch),
        end >= 1,
    ensures
        !is_pending(fitted(fs, d, first, end).r),
{
    if first != 0 {
        lemma_full_chain(fs, d, first, fch);
    }
    let g = Grown { first, chain: fch };
    let need = clusters_for(fs, end);
    assert(first == 0 ==> fch =~= Seq::<u32>::empty());
    lemma_extended_answers(fs, d, g, need);
    lemma_clusters_for(fs, end);
    let x = extended(fs, d, g, need);
    if x.r is Ok {
        lemma_extended(fs, d, g, need);
        let h = x.r->Ok_0;
        if h.chain.len() > need {
            lemma_freed(fs, x.disk, h.first, h.chain, need);
        }
    }
}

/// A file that keeps nothing gives its chain back.
pub(crate) proof fn lemma_fits_nothing(fs: Fat32, d: Disk, first: u32, fch: Seq<u32>)
    requires
        roomy(fs),
        held(fs, d),
        proper(fs, d, first, fch),
    ensures
        ({
            let o = fitted(fs, d, first, 0);
            &&& o.r is Ok
            &&& held(fs, o.disk)
            &&& same_data(fs, d, o.disk)
            &&& forall|x: u32| valid(fs, x) && !fch.contains(x) ==> #[trigger] ent(fs, o.disk, x) == ent(fs, d, x)
        }),
{
    if first != 0 {
        lemma_full_chain(fs, d, first, fch);
    }
    assert(first == 0 ==> fch =~= Seq::<u32>::empty());
    let cb = fs.cluster_size();
    assert(clusters_for(fs, 0) == 0) by {
        vstd::arithmetic::div_mod::lemma_basic_div(cb - 1, cb);
    }
    if fch.len() > 0 {
        lemma_all_freed(fs, d, first, fch);
    }
}

/// Fitting the chain of a file asks for nothing, and leaves a directory beside
/// it as it was.
proof fn lemma_fitted_answers(fs: Fat32, d: Disk, first: u32, fch: Seq<u32>, end: int, dir: u32, ch: Seq<u32>)
    requires
        roomy(fs),
        held(fs, d),
        proper(fs, d, first, fch),
        linked(fs, d, dir, ch),
        disjoint(fch, ch),
        end >= 0,
    ensures
        ({
            let o = fitted(fs, d, first, end);
            let h = o.r->Ok_0.chain;
            &&& !is_pending(o.r)
            &&& o.r is Ok ==> held(fs, o.disk) && linked(fs, o.disk, dir, ch)
            &&& o.r is Ok && end >= 1 ==> linked(fs, o.disk, o.r->Ok_0.first, h) && h.len() == clusters_for(fs, end)
        }),
{
    let o = fitted(fs, d, first, end);
    if end >= 1 {
        lemma_fits(fs, d, first, fch, end);
        if o.r is Ok {
            lemma_fitted(fs, d, first, fch, end);
        }
    } else {
        lemma_fits_nothing(fs, d, first, fch);
    }
    if o.r is Ok {
        assert forall|i: int| 0 <= i < ch.len() implies ent(fs, o.disk, #[trigger] ch[i]) == ent(fs, d, ch[i]) by {
            lemma_in_use(fs, d, dir, ch, i);
            assert(valid(fs, ch[i]));
            if fch.contains(ch[i]) {
                let k = choose|k: int| 0 <= k < fch.len() && fch[k] == ch[i];
                assert(fch[k] != ch[i]);
            }
        }
        lemma_chain_stays(fs, d, o.disk, dir, ch);
    }
}

/// The place of a slot in a proper directory is found.
proof fn lemma_home_answers(fs: Fat32, d: Disk, dir: u32, ch: Seq<u32>, index: int)
    requires
        roomy(fs),
        held(fs, d),
        linked(fs, d, dir, ch),
        0 <= index,
    ensures
        !is_pending(slot_home(fs, d, dir, index)),
{
    lemma_full_chain(fs, d, dir, ch);
    let p = per(fs);
    let q = index / p;
    assert(q >= 0) by (nonlinear_arith)
        requires
            index >= 0,
            p > 0,
            q == index / p,
    ;
    if q < ch.len() {
        assert(valid(fs, ch[q]));
        lemma_reads(fs, d, ch[q]);
    }
}

proof fn lemma_file_answers(fs: Fat32, d: Disk, e: Entry, fch: Seq<u32>, ch: Seq<u32>, off: int, data: Seq<u8>)
    requires
        roomy(fs),
        held(fs, d),
        proper(fs, d, e.first_cluster, fch),
        linked(fs, d, e.dir_cluster, ch),
        disjoint(fch, ch),
        0 <= e.dir_index,
        off >= 0,
    ensures
        !is_pending(file_written(fs, d, e, off, data).r),
{
    let end = off + data.len();
    lemma_fitted_answers(fs, d, e.first_cluster, fch, end, e.dir_cluster, ch);
    let f = fitted(fs, d, e.first_cluster, end);
    if f.r is Ok {
        let g = f.r->Ok_0;
        let p = data_put(fs, f.disk, g.chain, off, data);
        if data.len() > 0 {
            lemma_clusters_for(fs, end);
            lemma_data_put(fs, f.disk, g.chain, off, data);
            assert forall|i: int| 0 <= i < ch.len() implies ent(fs, p.disk, #[trigger] ch[i]) == ent(
                fs,
                f.disk,
                ch[i],
            ) by {
                assert(valid(fs, ch[i]));
            }
            lemma_chain_stays(fs, f.disk, p.disk, e.dir_cluster, ch);
        }
        lemma_home_answers(fs, p.disk, e.dir_cluster, ch, e.dir_index);
    }
}

/// Creating an entry in a proper directory asks for nothing and leaves a proper
/// directory.
proof fn lemma_created_answers(fs: Fat32, d: Disk, dir: u32, ch: Seq<u32>, name: Seq<char>, first: u32, is_dir: bool) -> (ch2: Seq<u32>)
    requires
        roomy(fs),
        held(fs, d),
        linked(fs, d, dir, ch),
    ensures
        ({
            let o = created(fs, d, dir, name, first, is_dir);
            &&& !is_pending(o.r)
            &&& o.r is Ok ==> held(fs, o.disk) && linked(fs, o.disk, dir, ch2)
            &&& o.r is Ok ==> o.r->Ok_0.dir_cluster == dir && o.r->Ok_0.dir_index >= 0
            &&& o.r is Ok ==> o.r->Ok_0.first_cluster == first
        }),
{
    lemma_full_chain(fs, d, dir, ch);
    lemma_free_place(fs, d, ch, 0);
    let slot = new_slot(short_form(name), first, is_dir);
    let p = per(fs);
    match free_place(fs, d, ch, 0) {
        Ok(Some(t)) => {
            assert(valid(fs, ch[t.0]));
            lemma_reads(fs, d, ch[t.0]);
            let put = splice(dat(fs, d, ch[t.0]), 32 * t.1, slot);
            lemma_with_cluster(fs, d, ch[t.0], put);
            lemma_slots_changed(fs, d, with_cluster(fs, d, ch[t.0], put).disk, dir, ch, t.0, put);
            assert(t.0 * p + t.1 >= 0) by (nonlinear_arith)
                requires
                    t.0 >= 0,
                    t.1 >= 0,
                    p > 0,
            ;
            ch
        },
        _ => {
            assert(valid(fs, ch[ch.len() - 1]));
            lemma_allocated_answers(fs, d, Some(ch.last()));
            let a = allocated(fs, d, Some(ch.last()));
            if a.r is Ok {
                let gr = Grown { first: dir, chain: ch };
                assert(tail_of(gr) == Some(ch.last()));
                lemma_one_more(fs, d, gr);
                let c = a.r->Ok_0;
                let ch2 = ch.push(c);
                assert(one_more(gr, c).chain == ch2);
                assert(ch2[ch.len() as int] == c);
                assert(valid(fs, ch2[ch.len() as int]));
                let put = splice(Seq::new(fs.cluster_size() as nat, |i: int| 0u8), 0, slot);
                lemma_with_cluster(fs, a.disk, c, put);
                lemma_slots_changed(fs, a.disk, with_cluster(fs, a.disk, c, put).disk, dir, ch2, ch.len() as int, put);
                assert(ch.len() * p >= 0) by (nonlinear_arith)
                    requires
                        p > 0,
                ;
                ch2
            } else {
                ch
            }
        },
    }
}

proof fn lemma_gathered_answers(fs: Fat32, d: Disk, ch: Seq<u32>, size: int, pos: int, len: int)
    requires
        roomy(fs),
        held(fs, d),
        0 <= pos,
        pos / fs.cluster_size() < ch.len(),
        forall|i: int| 0 <= i < ch.len() ==> valid(fs, #[trigger] ch[i]),
    ensures
        gathered(fs, d, ch, size, pos, len) is Ok,
    decreases len,
{
    let cb = fs.cluster_size();
    let q = pos / cb;
    let take = span_at(fs, size, pos, len);
    assert(0 <= q) by (nonlinear_arith)
        requires
            pos >= 0,
            cb > 0,
            q == pos / cb,
    ;
    lemma_reads(fs, d, ch[q]);
    if !(take <= 0 || take >= len || pos + take >= size || q + 1 >= ch.len()) {
        assert((pos + take) / cb == q + 1) by (nonlinear_arith)
            requires
                cb > 0,
                q == pos / cb,
                take == cb - pos % cb,
        ;
        lemma_gathered_answers(fs, d, ch, size, pos + take, len - take);
    }
}

/// What a path names is found.
proof fn lemma_node_answers(fs: Fat32, d: Disk, path: Seq<char>)
    requires
        healthy(fs, d, path),
    ensures
        node_at(fs, d, path) is Ok,
        parts(path).len() >= 1 ==> linked(
            fs,
            d,
            dir_n(fs, d, path, parts(path).len() - 1),
            dir_chain(fs, d, path, parts(path).len() - 1),
        ),
{
    let l = parts(path).len() - 1;
    if l >= 0 {
        assert(linked(fs, d, dir_n(fs, d, path, l), dir_chain(fs, d, path, l)));
        lemma_dir_entries(fs, d, dir_n(fs, d, path, l), dir_chain(fs, d, path, l));
    }
}

/// With the sectors of a healthy volume at hand, no question about a path waits
/// for another.
pub proof fn law_held_volume_answers(fs: Fat32, d: Disk, path: Seq<char>, off: int, n: int)
    requires
        healthy(fs, d, path),
        0 <= off,
        parts(path).len() == 0 ==> linked(fs, d, fs.root_cluster, full_chain(fs, d, fs.root_cluster)->Ok_0),
    ensures
        !is_pending(status(fs, d, path)),
        !is_pending(listing(fs, d, path)),
        !is_pending(contents(fs, d, path, off, n)),
{
    lemma_node_answers(fs, d, path);
    if let Ok(Some(Node::At(e))) = node_at(fs, d, path) {
        let fch = file_chain(fs, d, e);
        if e.first_cluster != 0 {
            lemma_full_chain(fs, d, e.first_cluster, fch);
            lemma_dir_entries(fs, d, e.first_cluster, fch);
            if off / fs.cluster_size() < fch.len() {
                lemma_gathered_answers(fs, d, fch, e.size as int, off, n);
            }
        }
    } else if parts(path).len() == 0 {
        lemma_dir_entries(fs, d, fs.root_cluster, full_chain(fs, d, fs.root_cluster)->Ok_0);
    }
}

/// With the sectors of a healthy volume at hand, no write waits for another.
pub proof fn law_held_volume_takes_writes(fs: Fat32, d: Disk, path: Seq<char>, off: int, data: Seq<u8>)
    requires
        healthy(fs, d, path),
        0 <= off,
    ensures
        !is_pending(written(fs, d, path, off, data).r),
{
    lemma_node_answers(fs, d, path);
    let l = parts(path).len() - 1;
    match node_at(fs, d, path) {
        Ok(Some(Node::At(e))) => {
            lemma_entry_place(fs, d, path, e);
            lemma_file_answers(fs, d, e, file_chain(fs, d, e), dir_chain(fs, d, path, l), off, data);
        },
        Ok(None) => {
            let dir = dir_n(fs, d, path, l);
            let o = created(fs, d, dir, parts(path).last(), 0, false);
            let ch2 = lemma_created_answers(fs, d, dir, dir_chain(fs, d, path, l), parts(path).last(), 0, false);
            if o.r is Ok {
                lemma_file_answers(fs, o.disk, o.r->Ok_0, Seq::empty(), ch2, off, data);
            }
        },
        _ => {},
    }
}

/// With the sectors of a healthy volume at hand, making, removing and renaming
/// wait for no other.
pub proof fn law_held_volume_takes_names(fs: Fat32, d: Disk, path: Seq<char>, to: Seq<char>)
    requires
        healthy(fs, d, path),
    ensures
        !is_pending(dir_made(fs, d, path).r),
        !is_pending(unlinked(fs, d, path).r),
        healthy(fs, d, to) ==> !is_pending(renamed(fs, d, path, to).r),
{
    lemma_node_answers(fs, d, path);
    let l = parts(path).len() - 1;
    match node_at(fs, d, path) {
        Ok(Some(Node::At(e))) => {
            lemma_entry_place(fs, d, path, e);
            let ch = dir_chain(fs, d, path, l);
            lemma_deleted(fs, d, ch, file_chain(fs, d, e), e);
            if healthy(fs, d, to) {
                lemma_node_answers(fs, d, to);
                lemma_home_answers(fs, d, e.dir_cluster, ch, e.dir_index);
            }
        },
        Ok(None) => {
            lemma_made_answers(fs, d, path);
        },
        _ => {},
    }
}

proof fn lemma_made_answers(fs: Fat32, d: Disk, path: Seq<char>)
    requires
        healthy(fs, d, path),
        node_at(fs, d, path) == Ok::<Option<Node>, FsError>(None),
    ensures
        !is_pending(dir_made(fs, d, path).r),
{
    lemma_node_answers(fs, d, path);
    let l = parts(path).len() - 1;
    let dir = dir_n(fs, d, path, l);
    let ch = dir_chain(fs, d, path, l);
    lemma_allocated_answers(fs, d, None);
    let a = allocated(fs, d, None);
    if a.r is Ok {
        let c = a.r->Ok_0;
        let up: u32 = if dir == fs.root_cluster { 0 } else { dir };
        let blank = new_dir(fs, c, up);
        let c2 = lemma_new_cluster(fs, d, blank);
        let w = with_cluster(fs, a.disk, c, blank).disk;
        let none = Seq::<u32>::empty();
        lemma_way_same(fs, d, w, dir, ch, none, none);
        let ch2 = lemma_created_answers(fs, w, dir, ch, parts(path).last(), c, true);
    }
}

} // verus!
