//! Where a FAT32 volume keeps things, told by byte addresses in its partition:
//! what mounting finds in the boot sector, how clusters are chained, which bytes
//! of the disk the bytes of a file are, and which slots of a directory are
//! files.
use vstd::prelude::*;

use crate::bytes::{le16, le32};
use crate::fat::{
    chain, cluster, contents, dir_entries, dir_lines, entry, first_named, found, full_chain,
    gathered, is_named, lines, new_slot, next_of, node_at, parsed, scan_clusters, scan_slot,
    scan_slots, short_of, span_at, stem, short_char, Entry, Fat32, Node, Scan, ATTR_LFN,
};
use crate::vfs::{fetched, is_dots, same_name, Disk, Line};

verus! {

/// The byte at address `a` of the partition.
pub open spec fn byte_at(fs: Fat32, d: Disk, a: int) -> u8 {
    d.sectors[(fs.part_start + a / 512) as u32][a % 512]
}

/// The 16-bit number at address `a`, its low byte first.
pub open spec fn half_at(fs: Fat32, d: Disk, a: int) -> int {
    byte_at(fs, d, a) + 256 * byte_at(fs, d, a + 1)
}

/// The 32-bit number at address `a`, its low byte first.
pub open spec fn word_at(fs: Fat32, d: Disk, a: int) -> int {
    half_at(fs, d, a) + 65536 * half_at(fs, d, a + 2)
}

/// The address of cluster `c`: behind the reserved sectors and all the tables,
/// the first cluster being number 2.
pub open spec fn cluster_home(fs: Fat32, c: int) -> int {
    512 * (fs.reserved + fs.num_fats * fs.fat_sectors + (c - 2) * fs.sectors_per_cluster)
}

/// What the first table says of cluster `c`: the low 28 bits of its number.
pub open spec fn table_says(fs: Fat32, d: Disk, c: int) -> int {
    word_at(fs, d, 512 * fs.reserved + 4 * c) % 0x1000_0000
}

/// Byte `p` of what the clusters `ch` hold one after the other.
pub open spec fn chain_byte(fs: Fat32, d: Disk, ch: Seq<u32>, p: int) -> u8 {
    let cb = 512 * fs.sectors_per_cluster;
    byte_at(fs, d, cluster_home(fs, ch[p / cb] as int) + p % cb)
}

// ---------------------------------------------------------------------------
// Mounting
// ---------------------------------------------------------------------------

/// A boot sector that mounts has 512-byte sectors and neither a root directory
/// of fixed size nor a 16-bit table; everything else about the volume stands in
/// it, and its clusters are those that fit whole behind the tables.
pub proof fn law_boot_sector(sec: Seq<u8>, start: u32)
    requires
        parsed(sec, start) is Ok,
    ensures
        ({
            let fs = parsed(sec, start)->Ok_0;
            let room = le32(sec, 32) - (le16(sec, 14) + sec[16] * le32(sec, 36));
            &&& fs.part_start == start
            &&& le16(sec, 11) == 512
            &&& le16(sec, 17) == 0
            &&& le16(sec, 22) == 0
            &&& fs.sectors_per_cluster == sec[13]
            &&& 1 <= fs.sectors_per_cluster <= 16
            &&& fs.reserved == le16(sec, 14)
            &&& fs.num_fats == sec[16]
            &&& fs.fat_sectors == le32(sec, 36)
            &&& fs.root_cluster == le32(sec, 44)
            &&& fs.root_cluster >= 2
            &&& fs.reserved > 0 && fs.num_fats > 0 && fs.fat_sectors > 0
            &&& room > 0
            &&& fs.total_clusters * fs.sectors_per_cluster <= room < (fs.total_clusters + 1)
                * fs.sectors_per_cluster
        }),
{
    let spc = sec[13] as int;
    let nf = sec[16] as int;
    let fs = parsed(sec, start)->Ok_0;
    let ds = le16(sec, 14) + nf * le32(sec, 36);
    let room = le32(sec, 32) - ds;
    assert(0 <= ds) by (nonlinear_arith)
        requires
            ds == le16(sec, 14) + nf * le32(sec, 36),
            0 <= le16(sec, 14),
            0 <= nf,
            0 <= le32(sec, 36),
    ;
    let q = room / spc;
    assert(0 <= q <= room && q * spc <= room < (q + 1) * spc) by (nonlinear_arith)
        requires
            q == room / spc,
            spc > 0,
            room > 0,
    ;
    assert(fs.total_clusters == q);
}

// ---------------------------------------------------------------------------
// Chains
// ---------------------------------------------------------------------------

proof fn lemma_sector_bytes(fs: Fat32, d: Disk, lba: int, a: int, n: u8)
    requires
        0 <= a,
        a % 512 == 0,
        lba == fs.part_start + a / 512,
        fetched(d, lba, n) is Ok,
    ensures
        fetched(d, lba, n)->Ok_0.len() == 512 * n,
        forall|k: int|
            0 <= k < 512 * n ==> #[trigger] fetched(d, lba, n)->Ok_0[k] == byte_at(fs, d, a + k),
{
    reveal(fetched);
    let s = fetched(d, lba, n)->Ok_0;
    assert forall|k: int| 0 <= k < 512 * n implies #[trigger] s[k] == byte_at(fs, d, a + k) by {
        assert((a + k) / 512 == a / 512 + k / 512);
        assert((a + k) % 512 == k % 512);
    }
}

proof fn lemma_entry(fs: Fat32, d: Disk, c: u32)
    requires
        entry(fs, d, c) is Ok,
    ensures
        entry(fs, d, c)->Ok_0 as int % 0x1000_0000 == table_says(fs, d, c as int),
        entry(fs, d, c)->Ok_0 == word_at(fs, d, 512 * fs.reserved + 4 * c),
{
    let a = 512 * (fs.reserved + c as int / 128);
    assert(fs.fat_lba(0, c as int) == fs.part_start + a / 512) by {
        assert(0 * fs.fat_sectors == 0);
    }
    lemma_sector_bytes(fs, d, fs.fat_lba(0, c as int), a, 1);
    let s = fetched(d, fs.fat_lba(0, c as int), 1)->Ok_0;
    let o = c as int % 128 * 4;
    let home = 512 * fs.reserved + 4 * c;
    assert(home == a + o);
    assert(s[o] == byte_at(fs, d, a + o));
    assert(s[o + 1] == byte_at(fs, d, a + (o + 1)));
    assert(s[o + 2] == byte_at(fs, d, a + (o + 2)));
    assert(s[o + 3] == byte_at(fs, d, a + (o + 3)));
}

proof fn lemma_chain(fs: Fat32, d: Disk, c: u32, max: int)
    requires
        chain(fs, d, c, max) is Ok,
    ensures
        ({
            let ch = chain(fs, d, c, max)->Ok_0;
            &&& ch.len() >= 1
            &&& ch[0] == c
            &&& max >= 1 ==> ch.len() <= max
            &&& forall|j: int|
                0 <= j < ch.len() - 1 ==> ch[j + 1] == table_says(fs, d, #[trigger] ch[j] as int)
                    && 2 <= ch[j + 1] < 0x0FFF_FFF8
            &&& ch.len() < max ==> table_says(fs, d, ch.last() as int) >= 0x0FFF_FFF8
        }),
    decreases max,
{
    if max > 1 {
        let ch = chain(fs, d, c, max)->Ok_0;
        lemma_entry(fs, d, c);
        match next_of(fs, d, c)->Ok_0 {
            None => {
                assert(ch == seq![c]);
            },
            Some(n) => {
                lemma_chain(fs, d, n, max - 1);
                let rest = chain(fs, d, n, max - 1)->Ok_0;
                assert(ch == seq![c] + rest);
                assert forall|j: int| 0 <= j < ch.len() - 1 implies ch[j + 1] == table_says(
                    fs,
                    d,
                    #[trigger] ch[j] as int,
                ) && 2 <= ch[j + 1] < 0x0FFF_FFF8 by {
                    assert(ch[j + 1] == rest[j]);
                    if j > 0 {
                        assert(ch[j] == rest[j - 1]);
                        assert(rest[j - 1 + 1] == table_says(fs, d, rest[j - 1] as int));
                    }
                }
                assert(ch.last() == rest.last());
            },
        }
    }
}

/// The clusters of a file are the first one and then, for each of them, the one
/// that the table names for it, up to one whose number marks the end.
pub proof fn law_chain_on_disk(fs: Fat32, d: Disk, c: u32)
    requires
        fs.total_clusters >= 1,
        full_chain(fs, d, c) is Ok,
    ensures
        ({
            let ch = full_chain(fs, d, c)->Ok_0;
            &&& 1 <= ch.len() <= fs.total_clusters
            &&& ch[0] == c
            &&& forall|j: int|
                0 <= j < ch.len() - 1 ==> ch[j + 1] == table_says(fs, d, #[trigger] ch[j] as int)
                    && 2 <= ch[j + 1] < 0x0FFF_FFF8
            &&& ch.len() < fs.total_clusters ==> table_says(fs, d, ch.last() as int) >= 0x0FFF_FFF8
        }),
{
    lemma_chain(fs, d, c, fs.total_clusters as int);
}

proof fn lemma_place(cb: int, m: int, x: int)
    requires
        0 < cb,
        0 <= x < cb,
    ensures
        (m * cb + x) / cb == m,
        (m * cb + x) % cb == x,
{
    vstd::arithmetic::div_mod::lemma_fundamental_div_mod_converse(m * cb + x, cb, m, x);
}

proof fn lemma_cluster_bytes(fs: Fat32, d: Disk, c: u32)
    requires
        fs.wf(),
        cluster(fs, d, c) is Ok,
    ensures
        c >= 2,
        cluster(fs, d, c)->Ok_0.len() == 512 * fs.sectors_per_cluster,
        forall|k: int|
            0 <= k < 512 * fs.sectors_per_cluster ==> #[trigger] cluster(fs, d, c)->Ok_0[k] == byte_at(
                fs,
                d,
                cluster_home(fs, c as int) + k,
            ),
{
    let x = (c - 2) * fs.sectors_per_cluster;
    let y = fs.num_fats * fs.fat_sectors;
    assert(0 <= x) by (nonlinear_arith)
        requires
            x == (c - 2) * fs.sectors_per_cluster,
            c >= 2,
    ;
    assert(0 <= y) by (nonlinear_arith)
        requires
            y == fs.num_fats * fs.fat_sectors,
    ;
    let a = cluster_home(fs, c as int);
    assert(a == 512 * (fs.reserved + y + x));
    assert(fs.lba_of(c as int) == fs.part_start + a / 512);
    lemma_sector_bytes(fs, d, fs.lba_of(c as int), a, fs.sectors_per_cluster);
}

// ---------------------------------------------------------------------------
// Files
// ---------------------------------------------------------------------------

proof fn lemma_gathered(fs: Fat32, d: Disk, ch: Seq<u32>, size: int, pos: int, n: int)
    requires
        fs.wf(),
        0 <= pos < size,
        0 <= n,
        pos / fs.cluster_size() < ch.len(),
        gathered(fs, d, ch, size, pos, n) is Ok,
    ensures
        ({
            let got = gathered(fs, d, ch, size, pos, n)->Ok_0;
            &&& got.len() <= n
            &&& got.len() <= size - pos
            &&& got.len() == n || got.len() == size - pos || pos + got.len() == ch.len()
                * fs.cluster_size()
            &&& forall|k: int|
                0 <= k < got.len() ==> #[trigger] got[k] == chain_byte(fs, d, ch, pos + k)
        }),
    decreases n,
{
    let cb = fs.cluster_size();
    let m = pos / cb;
    let x = pos % cb;
    let take = span_at(fs, size, pos, n);
    let buf = cluster(fs, d, ch[m])->Ok_0;
    let got = gathered(fs, d, ch, size, pos, n)->Ok_0;
    vstd::arithmetic::div_mod::lemma_fundamental_div_mod(pos, cb);
    assert(cb * m == m * cb) by (nonlinear_arith);
    assert(0 <= x < cb && 0 <= m) by (nonlinear_arith)
        requires
            0 < cb,
            0 <= pos,
            x == pos % cb,
            m == pos / cb,
    ;
    lemma_cluster_bytes(fs, d, ch[m]);
    let here = buf.subrange(x, x + take);
    assert forall|k: int| 0 <= k < take implies #[trigger] here[k] == chain_byte(fs, d, ch, pos + k) by {
        lemma_place(cb, m, x + k);
        assert(pos + k == m * cb + (x + k));
        assert(here[k] == buf[x + k]);
    }
    if take <= 0 || take >= n || pos + take >= size || m + 1 >= ch.len() {
        if take < n && pos + take < size {
            assert(x + take == cb);
            assert(m + 1 == ch.len());
            assert(pos + take == (m + 1) * cb) by (nonlinear_arith)
                requires
                    pos == m * cb + x,
                    x + take == cb,
            ;
        }
    } else {
        assert(x + take == cb);
        assert(pos + take == (m + 1) * cb + 0) by (nonlinear_arith)
            requires
                pos == m * cb + x,
                x + take == cb,
        ;
        lemma_place(cb, m + 1, 0);
        lemma_gathered(fs, d, ch, size, pos + take, n - take);
        let rest = gathered(fs, d, ch, size, pos + take, n - take)->Ok_0;
        assert(got == here + rest);
        assert forall|k: int| 0 <= k < got.len() implies #[trigger] got[k] == chain_byte(
            fs,
            d,
            ch,
            pos + k,
        ) by {
            if k >= take {
                assert(got[k] == rest[k - take]);
                assert(rest[k - take] == chain_byte(fs, d, ch, (pos + take) + (k - take)));
            } else {
                assert(got[k] == here[k]);
            }
        }
    }
}

/// What a read gives are the bytes from `off` on of what the file's clusters
/// hold in the order of their chain: `n` of them, or as many as there are up to
/// the end of the file or of its clusters. A file without clusters has none.
pub proof fn law_file_bytes_on_disk(fs: Fat32, d: Disk, path: Seq<char>, off: int, n: int)
    requires
        fs.wf(),
        0 <= off,
        0 <= n,
        contents(fs, d, path, off, n) is Ok,
    ensures
        node_at(fs, d, path) matches Ok(Some(Node::At(e))) && !e.is_dir && {
            let got = contents(fs, d, path, off, n)->Ok_0;
            let ch = full_chain(fs, d, e.first_cluster)->Ok_0;
            let there = ch.len() * (512 * fs.sectors_per_cluster);
            if e.first_cluster == 0 || off >= e.size {
                got.len() == 0
            } else {
                &&& full_chain(fs, d, e.first_cluster) is Ok
                &&& got.len() <= n && off + got.len() <= e.size
                &&& got.len() == n || off + got.len() == e.size || off + got.len() >= there
                &&& off >= there ==> got.len() == 0
                &&& forall|k: int|
                    0 <= k < got.len() ==> #[trigger] got[k] == chain_byte(fs, d, ch, off + k)
            }
        },
{
    let e = node_at(fs, d, path)->Ok_0->0->At_0;
    let cb = fs.cluster_size();
    if e.first_cluster != 0 && off < e.size {
        let ch = full_chain(fs, d, e.first_cluster)->Ok_0;
        let m = off / cb;
        vstd::arithmetic::div_mod::lemma_fundamental_div_mod(off, cb);
        if m < ch.len() {
            lemma_gathered(fs, d, ch, e.size as int, off, n);
            assert(off < ch.len() * cb) by (nonlinear_arith)
                requires
                    off == cb * m + off % cb,
                    0 <= off % cb < cb,
                    m + 1 <= ch.len(),
            ;
        } else {
            assert(off >= ch.len() * cb) by (nonlinear_arith)
                requires
                    off == cb * m + off % cb,
                    0 <= off % cb,
                    m >= ch.len(),
                    cb > 0,
            ;
        }
    }
}

// ---------------------------------------------------------------------------
// Directories
// ---------------------------------------------------------------------------

/// Byte `x` of slot `j`, of 32 bytes each, of the directory in the clusters
/// `ch`.
pub open spec fn slot_byte(fs: Fat32, d: Disk, ch: Seq<u32>, j: int, x: int) -> u8 {
    chain_byte(fs, d, ch, 32 * j + x)
}

/// Slot `j` is a file or a directory: no slot up to it ends the directory, it is
/// not deleted, and bit 3 of its attributes, which volume labels and the pieces
/// of long names have, is clear.
#[verifier::opaque]
pub open spec fn is_live(fs: Fat32, d: Disk, ch: Seq<u32>, j: int) -> bool {
    &&& forall|i: int| 0 <= i <= j ==> #[trigger] slot_byte(fs, d, ch, i, 0) != 0
    &&& slot_byte(fs, d, ch, j, 0) != 0xE5
    &&& slot_byte(fs, d, ch, j, 11) as int / 8 % 2 == 0
}

/// The entry `e` says what its slot of the directory holds: the first cluster in
/// two halves, the size, the directory bit of the attributes and the short name.
#[verifier::opaque]
pub open spec fn entry_stands(fs: Fat32, d: Disk, ch: Seq<u32>, e: Entry) -> bool {
    let j = e.dir_index;
    &&& e.first_cluster == slot_byte(fs, d, ch, j, 26) + 0x100 * slot_byte(fs, d, ch, j, 27)
        + 0x1_0000 * slot_byte(fs, d, ch, j, 20) + 0x100_0000 * slot_byte(fs, d, ch, j, 21)
    &&& e.size == slot_byte(fs, d, ch, j, 28) + 0x100 * slot_byte(fs, d, ch, j, 29) + 0x1_0000
        * slot_byte(fs, d, ch, j, 30) + 0x100_0000 * slot_byte(fs, d, ch, j, 31)
    &&& e.is_dir == (slot_byte(fs, d, ch, j, 11) as int / 16 % 2 == 1)
    &&& e.short == short_of(Seq::new(32, |x: int| slot_byte(fs, d, ch, j, x)))
}

/// The entries are those of the live slots among the first `n`, in order.
pub open spec fn entries_stand(fs: Fat32, d: Disk, ch: Seq<u32>, es: Seq<Entry>, n: int) -> bool {
    &&& forall|k: int|
        0 <= k < es.len() ==> {
            let e = #[trigger] es[k];
            &&& 0 <= e.dir_index < n
            &&& is_live(fs, d, ch, e.dir_index)
            &&& entry_stands(fs, d, ch, e)
        }
    &&& forall|a: int, b: int|
        0 <= a < b < es.len() ==> (#[trigger] es[a]).dir_index < (#[trigger] es[b]).dir_index
    &&& forall|j: int|
        0 <= j < n && #[trigger] is_live(fs, d, ch, j) ==> exists|k: int|
            0 <= k < es.len() && (#[trigger] es[k]).dir_index == j
}

spec fn scanned(fs: Fat32, d: Disk, ch: Seq<u32>, st: Scan, n: int) -> bool {
    &&& st.done <==> exists|i: int| 0 <= i < n && #[trigger] slot_byte(fs, d, ch, i, 0) == 0
    &&& entries_stand(fs, d, ch, st.out, n)
}

proof fn lemma_slot(fs: Fat32, d: Disk, ch: Seq<u32>, st: Scan, slot: Seq<u8>, n: int, dir: u32)
    requires
        0 <= n,
        slot.len() == 32,
        forall|x: int| 0 <= x < 32 ==> #[trigger] slot[x] == slot_byte(fs, d, ch, n, x),
        scanned(fs, d, ch, st, n),
    ensures
        scanned(fs, d, ch, scan_slot(st, slot, n, dir), n + 1),
{
    reveal(is_live);
    reveal(entry_stands);
    let after = scan_slot(st, slot, n, dir);
    assert(slot[0] == slot_byte(fs, d, ch, n, 0));
    assert(slot[11] == slot_byte(fs, d, ch, n, 11));
    let live = is_live(fs, d, ch, n);
    if st.done {
        assert(!live);
    } else if slot[0] == 0 {
        assert(!live);
    } else {
        assert forall|i: int| 0 <= i <= n implies #[trigger] slot_byte(fs, d, ch, i, 0) != 0 by {}
        assert(live <==> slot[0] != 0xE5 && slot[11] as int / 8 % 2 == 0);
        if slot[0] != 0xE5 && slot[11] == ATTR_LFN {
            assert(slot[11] as int / 8 % 2 == 1);
        }
        if live {
            let e = after.out.last();
            assert(after.out == st.out.push(e));
            assert(entry_stands(fs, d, ch, e)) by {
                assert(slot[20] == slot_byte(fs, d, ch, n, 20));
                assert(slot[21] == slot_byte(fs, d, ch, n, 21));
                assert(slot[26] == slot_byte(fs, d, ch, n, 26));
                assert(slot[27] == slot_byte(fs, d, ch, n, 27));
                assert(slot[28] == slot_byte(fs, d, ch, n, 28));
                assert(slot[29] == slot_byte(fs, d, ch, n, 29));
                assert(slot[30] == slot_byte(fs, d, ch, n, 30));
                assert(slot[31] == slot_byte(fs, d, ch, n, 31));
                assert(Seq::new(32, |x: int| slot_byte(fs, d, ch, n, x)) =~= slot);
            }
        } else {
            assert(after.out == st.out);
        }
    }
    assert forall|k: int| 0 <= k < after.out.len() implies {
        let e = #[trigger] after.out[k];
        &&& 0 <= e.dir_index < n + 1
        &&& is_live(fs, d, ch, e.dir_index)
        &&& entry_stands(fs, d, ch, e)
    } by {
        if k < st.out.len() {
            assert(after.out[k] == st.out[k]);
        }
    }
    assert forall|j: int| 0 <= j < n + 1 && #[trigger] is_live(fs, d, ch, j) implies exists|k: int|
        0 <= k < after.out.len() && (#[trigger] after.out[k]).dir_index == j by {
        if j < n {
            let k = choose|k: int| 0 <= k < st.out.len() && (#[trigger] st.out[k]).dir_index == j;
            assert(after.out[k] == st.out[k]);
        } else {
            assert(after.out[st.out.len() as int].dir_index == n);
        }
    }
    assert(after.done <==> exists|i: int|
        0 <= i < n + 1 && #[trigger] slot_byte(fs, d, ch, i, 0) == 0) by {
        if st.done {
            let i = choose|i: int| 0 <= i < n && #[trigger] slot_byte(fs, d, ch, i, 0) == 0;
            assert(slot_byte(fs, d, ch, i, 0) == 0);
        }
    }
}

proof fn lemma_slots(fs: Fat32, d: Disk, ch: Seq<u32>, st: Scan, buf: Seq<u8>, n: int, base: int, dir: u32)
    requires
        0 <= n,
        0 <= base,
        32 * n <= buf.len(),
        forall|x: int|
            0 <= x < 32 * n ==> #[trigger] buf[x] == chain_byte(fs, d, ch, 32 * base + x),
        scanned(fs, d, ch, st, base),
    ensures
        scanned(fs, d, ch, scan_slots(st, buf, n, base, dir), base + n),
    decreases n,
{
    if n > 0 {
        lemma_slots(fs, d, ch, st, buf, n - 1, base, dir);
        let slot = buf.subrange(32 * (n - 1), 32 * n);
        assert forall|x: int| 0 <= x < 32 implies #[trigger] slot[x] == slot_byte(
            fs,
            d,
            ch,
            base + n - 1,
            x,
        ) by {
            assert(slot[x] == buf[32 * (n - 1) + x]);
            assert(buf[32 * (n - 1) + x] == chain_byte(fs, d, ch, 32 * base + (32 * (n - 1) + x)));
            assert(32 * base + (32 * (n - 1) + x) == 32 * (base + n - 1) + x);
        }
        lemma_slot(fs, d, ch, scan_slots(st, buf, n - 1, base, dir), slot, base + n - 1, dir);
    }
}

proof fn lemma_clusters(fs: Fat32, d: Disk, ch: Seq<u32>, n: int, dir: u32)
    requires
        fs.wf(),
        0 <= n <= ch.len(),
        scan_clusters(fs, d, ch, n, dir) is Ok,
    ensures
        ({
            let st = scan_clusters(fs, d, ch, n, dir)->Ok_0;
            scanned(fs, d, ch, st, n * (16 * fs.sectors_per_cluster))
        }),
    decreases n,
{
    let per = 16 * fs.sectors_per_cluster;
    assert(fs.cluster_size() / 32 == per);
    if n == 0 {
        assert(n * per == 0) by (nonlinear_arith)
            requires
                n == 0,
        ;
    } else {
        lemma_clusters(fs, d, ch, n - 1, dir);
        let st = scan_clusters(fs, d, ch, n - 1, dir)->Ok_0;
        let base = (n - 1) * per;
        assert(n * per == base + per) by (nonlinear_arith)
            requires
                base == (n - 1) * per,
        ;
        assert(base >= 0) by (nonlinear_arith)
            requires
                base == (n - 1) * per,
                n >= 1,
                per >= 0,
        ;
        if st.done {
            let i = choose|i: int| 0 <= i < base && #[trigger] slot_byte(fs, d, ch, i, 0) == 0;
            assert(slot_byte(fs, d, ch, i, 0) == 0);
            assert forall|j: int| base <= j implies !#[trigger] is_live(fs, d, ch, j) by {
                reveal(is_live);
            }
        } else {
            let buf = cluster(fs, d, ch[n - 1])->Ok_0;
            lemma_cluster_bytes(fs, d, ch[n - 1]);
            let cb = 512 * fs.sectors_per_cluster;
            assert(32 * base == (n - 1) * cb) by (nonlinear_arith)
                requires
                    base == (n - 1) * per,
                    cb == 32 * per,
            ;
            assert forall|x: int| 0 <= x < 32 * per implies #[trigger] buf[x] == chain_byte(
                fs,
                d,
                ch,
                32 * base + x,
            ) by {
                lemma_place(cb, n - 1, x);
            }
            lemma_slots(fs, d, ch, st, buf, per, base, dir);
        }
    }
}

/// The entries of a directory are its live slots, in order: each entry stands in
/// one, and every live slot is an entry, hidden and system files included. A
/// volume label, a deleted slot or what lies behind the end mark is none.
pub proof fn law_directory_on_disk(fs: Fat32, d: Disk, dir: u32)
    requires
        fs.wf(),
        dir_entries(fs, d, dir) is Ok,
    ensures
        full_chain(fs, d, dir) is Ok,
        entries_stand(
            fs,
            d,
            full_chain(fs, d, dir)->Ok_0,
            dir_entries(fs, d, dir)->Ok_0,
            full_chain(fs, d, dir)->Ok_0.len() * (16 * fs.sectors_per_cluster),
        ),
{
    let ch = full_chain(fs, d, dir)->Ok_0;
    lemma_clusters(fs, d, ch, ch.len() as int, dir);
}

proof fn lemma_first_named(es: Seq<Entry>, name: Seq<char>, k: int)
    requires
        0 <= k <= es.len(),
    ensures
        match first_named(es, name, k) {
            Some(e) => exists|j: int|
                k <= j < es.len() && #[trigger] es[j] == e && is_named(e, name) && forall|i: int|
                    k <= i < j ==> !is_named(#[trigger] es[i], name),
            None => forall|j: int| k <= j < es.len() ==> !is_named(#[trigger] es[j], name),
        },
    decreases es.len() - k,
{
    if k < es.len() && !is_named(es[k], name) {
        lemma_first_named(es, name, k + 1);
    }
}

/// The letters are the same but for the case of the ASCII ones.
pub open spec fn alike(a: char, b: char) -> bool {
    ||| a as u32 == b as u32
    ||| 'A' as u32 <= a as u32 <= 'Z' as u32 && b as u32 == a as u32 + 32
    ||| 'A' as u32 <= b as u32 <= 'Z' as u32 && a as u32 == b as u32 + 32
}

/// Names are the same where their letters are, but for the case of the ASCII
/// ones.
pub proof fn law_names_ignore_case(a: Seq<char>, b: Seq<char>)
    ensures
        same_name(a, b) <==> a.len() == b.len() && forall|i: int|
            0 <= i < a.len() ==> alike(#[trigger] a[i], b[i]),
{
    if a.len() == b.len() {
        assert forall|i: int| 0 <= i < a.len() implies (crate::vfs::folded(#[trigger] a[i])
            == crate::vfs::folded(b[i])) == alike(a[i], b[i]) by {}
    }
}

/// A name is found in a directory exactly where an entry's name or short name is
/// the same; the first such entry is found.
pub proof fn law_lookup(fs: Fat32, d: Disk, dir: u32, name: Seq<char>)
    requires
        found(fs, d, dir, name) is Ok,
    ensures
        dir_entries(fs, d, dir) is Ok,
        ({
            let es = dir_entries(fs, d, dir)->Ok_0;
            match found(fs, d, dir, name)->Ok_0 {
                Some(e) => exists|j: int|
                    {
                        &&& 0 <= j < es.len() && #[trigger] es[j] == e
                        &&& same_name(e.name, name) || same_name(e.short, name)
                        &&& forall|i: int|
                            0 <= i < j ==> !same_name((#[trigger] es[i]).name, name) && !same_name(
                                es[i].short,
                                name,
                            )
                    },
                None => forall|j: int|
                    0 <= j < es.len() ==> !same_name((#[trigger] es[j]).name, name) && !same_name(
                        es[j].short,
                        name,
                    ),
            }
        }),
{
    let es = dir_entries(fs, d, dir)->Ok_0;
    lemma_first_named(es, name, 0);
    match first_named(es, name, 0) {
        Some(e) => {
            let j = choose|j: int|
                0 <= j < es.len() && #[trigger] es[j] == e && is_named(e, name) && forall|i: int|
                    0 <= i < j ==> !is_named(#[trigger] es[i], name);
            assert(es[j] == e);
            assert forall|i: int| 0 <= i < j implies !same_name((#[trigger] es[i]).name, name)
                && !same_name(es[i].short, name) by {
                assert(!is_named(es[i], name));
            }
        },
        None => {
            assert forall|j: int| 0 <= j < es.len() implies !same_name(
                (#[trigger] es[j]).name,
                name,
            ) && !same_name(es[j].short, name) by {
                assert(!is_named(es[j], name));
            }
        },
    }
}

spec fn listed(es: Seq<Entry>, ls: Seq<Line>, at: Seq<int>, n: int) -> bool {
    &&& at.len() == ls.len()
    &&& forall|k: int|
        0 <= k < at.len() ==> 0 <= #[trigger] at[k] < n && ls[k].name == es[at[k]].name && ls[k].size
            == es[at[k]].size && ls[k].is_dir == es[at[k]].is_dir && es[at[k]].name != seq!['.']
            && es[at[k]].name != seq!['.', '.']
    &&& forall|a: int, b: int| 0 <= a < b < at.len() ==> #[trigger] at[a] < #[trigger] at[b]
    &&& forall|j: int|
        0 <= j < n && (#[trigger] es[j]).name != seq!['.'] && es[j].name != seq!['.', '.']
            ==> at.contains(j)
}

proof fn lemma_lines(es: Seq<Entry>, n: int)
    requires
        0 <= n <= es.len(),
    ensures
        exists|at: Seq<int>| #[trigger] listed(es, lines(es, n), at, n),
    decreases n,
{
    if n == 0 {
        assert(listed(es, lines(es, n), Seq::empty(), n));
    } else {
        lemma_lines(es, n - 1);
        let front = lines(es, n - 1);
        let w = choose|at: Seq<int>| #[trigger] listed(es, front, at, n - 1);
        if is_dots(es[n - 1].name) {
            assert(lines(es, n) == front);
            assert(listed(es, front, w, n));
        } else {
            let at = w.push(n - 1);
            let ls = lines(es, n);
            assert(ls.len() == front.len() + 1);
            assert forall|k: int| 0 <= k < at.len() implies 0 <= #[trigger] at[k] < n && ls[k].name
                == es[at[k]].name && ls[k].size == es[at[k]].size && ls[k].is_dir
                == es[at[k]].is_dir && es[at[k]].name != seq!['.'] && es[at[k]].name
                != seq!['.', '.'] by {
                if k < w.len() {
                    assert(at[k] == w[k] && ls[k] == front[k]);
                }
            }
            assert forall|j: int|
                0 <= j < n && (#[trigger] es[j]).name != seq!['.'] && es[j].name
                    != seq!['.', '.'] implies at.contains(j) by {
                if j < n - 1 {
                    let k = choose|k: int| 0 <= k < w.len() && w[k] == j;
                    assert(at[k] == j);
                } else {
                    assert(at[w.len() as int] == j);
                }
            }
            assert(listed(es, ls, at, n));
        }
    }
}

/// A listing has one line for every entry of the directory but `.` and `..`, in
/// their order.
pub proof fn law_listing(fs: Fat32, d: Disk, dir: u32)
    requires
        dir_lines(fs, d, dir) is Ok,
    ensures
        dir_entries(fs, d, dir) is Ok,
        ({
            let es = dir_entries(fs, d, dir)->Ok_0;
            let ls = dir_lines(fs, d, dir)->Ok_0;
            exists|at: Seq<int>|
                {
                    &&& #[trigger] at.len() == ls.len()
                    &&& forall|k: int|
                        0 <= k < at.len() ==> 0 <= #[trigger] at[k] < es.len() && ls[k].name
                            == es[at[k]].name && ls[k].size == es[at[k]].size && ls[k].is_dir
                            == es[at[k]].is_dir && es[at[k]].name != seq!['.'] && es[at[k]].name
                            != seq!['.', '.']
                    &&& forall|a: int, b: int|
                        0 <= a < b < at.len() ==> #[trigger] at[a] < #[trigger] at[b]
                    &&& forall|j: int|
                        0 <= j < es.len() && (#[trigger] es[j]).name != seq!['.'] && es[j].name
                            != seq!['.', '.'] ==> at.contains(j)
                }
        }),
{
    let es = dir_entries(fs, d, dir)->Ok_0;
    lemma_lines(es, es.len() as int);
    let at = choose|at: Seq<int>| #[trigger] listed(es, lines(es, es.len() as int), at, es.len() as int);
    assert(at.len() == dir_lines(fs, d, dir)->Ok_0.len());
}

// ---------------------------------------------------------------------------
// New slots and names
// ---------------------------------------------------------------------------

/// A slot made for a file carries its name of eleven bytes, the archive bit, 32,
/// or for a directory the directory bit, 16; the high half of the first cluster
/// at byte 20, the low half at byte 26, and no size.
pub proof fn law_new_slot(short: Seq<u8>, first: u32, is_dir: bool)
    requires
        short.len() == 11,
    ensures
        ({
            let s = new_slot(short, first, is_dir);
            &&& s.len() == 32
            &&& s.take(11) == short
            &&& s[11] == if is_dir {
                16u8
            } else {
                32u8
            }
            &&& s[26] + 0x100 * s[27] + 0x1_0000 * s[20] + 0x100_0000 * s[21] == first
            &&& s[28] == 0 && s[29] == 0 && s[30] == 0 && s[31] == 0
            &&& s[12] == 0
        }),
{
    let s = new_slot(short, first, is_dir);
    assert(s.take(11) =~= short);
}

/// The characters stand for the bytes from `i` on up to the first space or to
/// `to`.
spec fn is_stem(s: Seq<u8>, i: int, to: int, lower: bool, t: Seq<char>) -> bool {
    &&& t.len() <= to - i
    &&& forall|k: int| 0 <= k < t.len() ==> stem_char(s, i + k, lower, #[trigger] t[k])
    &&& i + t.len() < to ==> s[i + t.len()] == 0x20
}

spec fn stem_char(s: Seq<u8>, x: int, lower: bool, c: char) -> bool {
    s[x] != 0x20 && c == short_char(s[x], lower)
}

proof fn lemma_stem(s: Seq<u8>, i: int, to: int, lower: bool)
    requires
        0 <= i <= to <= s.len(),
    ensures
        is_stem(s, i, to, lower, stem(s, i, to, lower)),
    decreases to - i,
{
    let t = stem(s, i, to, lower);
    if i < to && s[i] != 0x20 {
        lemma_stem(s, i + 1, to, lower);
        let rest = stem(s, i + 1, to, lower);
        assert(t == seq![short_char(s[i], lower)] + rest);
        assert forall|k: int| 0 <= k < t.len() implies stem_char(s, i + k, lower, #[trigger] t[k]) by {
            if k > 0 {
                assert(t[k] == rest[k - 1]);
                assert(stem_char(s, i + 1 + (k - 1), lower, rest[k - 1]));
            }
        }
        if i + t.len() < to {
            assert(s[(i + 1) + rest.len()] == 0x20);
        }
    }
}

/// The name is that of the slot: `b` characters for its first bytes and, where
/// bytes 8 to 10 are not all spaces, a dot and `x` for those.
pub open spec fn name_stands(slot: Seq<u8>, name: Seq<char>, b: int, x: int) -> bool {
    let bare = slot[8] == 0x20 && slot[9] == 0x20 && slot[10] == 0x20;
    &&& 0 <= b <= 8 && 0 <= x <= 3
    &&& b < 8 ==> slot[b] == 0x20
    &&& name.len() == if bare {
        b
    } else {
        b + 1 + x
    }
    &&& forall|k: int|
        0 <= k < b ==> is_letter(
            if k == 0 && slot[0] == 0x05 {
                0xE5
            } else {
                slot[k]
            },
            slot[12] as int / 8 % 2 == 1,
            #[trigger] name[k],
        )
    &&& bare || tail_stands(slot, name, b, x)
}

/// Behind the first `b` characters of the name come a dot and the `x` for bytes
/// 8 to 10.
pub open spec fn tail_stands(slot: Seq<u8>, name: Seq<char>, b: int, x: int) -> bool {
    &&& x < 3 ==> slot[8 + x] == 0x20
    &&& name[b] == '.'
    &&& forall|k: int|
        b < k < name.len() ==> is_letter(slot[7 + k - b], slot[12] as int / 16 % 2 == 1, #[trigger] name[k])
}

/// Whether the byte is no space and is shown as `c`.
pub open spec fn is_letter(b: u8, small: bool, c: char) -> bool {
    b != 0x20 && c == shown(b, small)
}

/// The character for a byte of a short name.
pub open spec fn shown(b: u8, small: bool) -> char {
    if small && 0x41 <= b <= 0x5A {
        (b + 0x20) as u8 as char
    } else {
        b as char
    }
}

proof fn lemma_head(slot: Seq<u8>, s: Seq<u8>, base: Seq<char>, name: Seq<char>, small: bool)
    requires
        slot.len() == 32,
        s == if slot[0] == 0x05 { slot.update(0, 0xE5) } else { slot },
        is_stem(s, 0, 8, small, base),
        small == (slot[12] as int / 8 % 2 == 1),
        base.len() <= name.len(),
        forall|k: int| 0 <= k < base.len() ==> #[trigger] name[k] == base[k],
    ensures
        base.len() < 8 ==> slot[base.len() as int] == 0x20,
        forall|k: int|
            0 <= k < base.len() ==> is_letter(
                if k == 0 && slot[0] == 0x05 {
                    0xE5
                } else {
                    slot[k]
                },
                slot[12] as int / 8 % 2 == 1,
                #[trigger] name[k],
            ),
{
    let b = base.len() as int;
    assert(forall|j: int| 0 < j < 32 ==> s[j] == slot[j]);
    assert forall|k: int| 0 <= k < b implies is_letter(
        if k == 0 && slot[0] == 0x05 {
            0xE5
        } else {
            slot[k]
        },
        slot[12] as int / 8 % 2 == 1,
        #[trigger] name[k],
    ) by {
        assert(name[k] == base[k]);
        assert(stem_char(s, 0 + k, small, base[k]));
        assert(k > 0 ==> s[k] == slot[k]);
    }
    if b < 8 {
        assert(s[0 + b] == 0x20);
        assert(b > 0 ==> s[b] == slot[b]);
    }
}

proof fn lemma_tail(slot: Seq<u8>, s: Seq<u8>, ext: Seq<char>, name: Seq<char>, b: int, small: bool)
    requires
        slot.len() == 32,
        s == if slot[0] == 0x05 { slot.update(0, 0xE5) } else { slot },
        is_stem(s, 8, 11, small, ext),
        small == (slot[12] as int / 16 % 2 == 1),
        0 <= b,
        name.len() == b + 1 + ext.len(),
        name[b] == '.',
        forall|k: int| 0 <= k < ext.len() ==> name[b + 1 + k] == #[trigger] ext[k],
    ensures
        tail_stands(slot, name, b, ext.len() as int),
{
    let x = ext.len() as int;
    if x < 3 {
        assert(s[8 + x] == 0x20);
    }
    assert(forall|j: int| 0 < j < 32 ==> s[j] == slot[j]);
    assert forall|k: int| b < k < name.len() implies is_letter(
        slot[7 + k - b],
        slot[12] as int / 16 % 2 == 1,
        #[trigger] name[k],
    ) by {
        let j = k - b - 1;
        assert(name[b + 1 + j] == ext[j]);
        assert(stem_char(s, 8 + j, small, ext[j]));
        assert(s[8 + j] == slot[8 + j]);
    }
}

/// A short name is the first eight bytes of its slot up to a space and, where
/// the next three are not all spaces, a dot and those up to a space. The first
/// byte 5 stands for 0xE5, and two bits of byte 12 ask for small letters in the
/// two parts.
pub proof fn law_short_name(slot: Seq<u8>)
    requires
        slot.len() == 32,
    ensures
        exists|b: int, x: int| #[trigger] name_stands(slot, short_of(slot), b, x),
{
    let s = if slot[0] == 0x05 {
        slot.update(0, 0xE5)
    } else {
        slot
    };
    let lb = slot[12] / 8 % 2 == 1;
    let lx = slot[12] / 16 % 2 == 1;
    lemma_stem(s, 0, 8, lb);
    lemma_stem(s, 8, 11, lx);
    let base = stem(s, 0, 8, lb);
    let ext = stem(s, 8, 11, lx);
    let name = short_of(slot);
    let bare = slot[8] == 0x20 && slot[9] == 0x20 && slot[10] == 0x20;
    let b = base.len() as int;
    let x = ext.len() as int;
    assert(name == if bare { base } else { base + seq!['.'] + ext });
    assert forall|k: int| 0 <= k < b implies #[trigger] name[k] == base[k] by {}
    lemma_head(slot, s, base, name, lb);
    if !bare {
        assert(name[b] == '.');
        assert forall|k: int| 0 <= k < ext.len() implies name[b + 1 + k] == #[trigger] ext[k] by {}
        lemma_tail(slot, s, ext, name, b, lx);
    }
    assert(name_stands(slot, name, b, x));
}

} // verus!
