//! What the operations on a FAT32 volume leave alone: writing, removing,
//! renaming and making a directory keep the status and the contents of every
//! other path.
use vstd::prelude::*;

use crate::fat::{
    allocated, contents, created, data_put, deleted, dir_at, dir_entries, dir_made, dirent_saved,
    file_written, first_named, fitted, found, full_chain, is_named, new_dir, node_at, renamed, short_form,
    short_of, slot_home, status, unlinked, with_cluster, write_target, written, Entry, Fat32, Node,
};
use crate::fat_laws::{
    after, apart_from, cluster_set, dat, dir_chain, dir_n, disjoint, empty_slot, ent, file_chain, healthy,
    held, lemma_chain_stays, lemma_deleted, lemma_dir_entries, lemma_dirent_saved, lemma_done_stays,
    lemma_entries_plain, lemma_entry_place, lemma_file_kept, lemma_file_written, lemma_fits_nothing,
    lemma_fitted, lemma_in_order, lemma_in_use, lemma_named_is_one, lemma_named_renewed, lemma_new_cluster,
    lemma_not_done, lemma_placed, lemma_recast_scan, lemma_removed_scan, lemma_same_scan, lemma_scan_grows,
    lemma_scan_renewed, lemma_slot_renamed, lemma_way_same, linked, parts, per, placed, plain, proper, recast,
    recast_entry, renewed, renewed_at, roomy, size_after, slot_of, slots, start_after, valid, without_slot,
};
use crate::vfs::{Disk, FsError};

verus! {

// ---------------------------------------------------------------------------
// Names in a changed directory
// ---------------------------------------------------------------------------

/// The entry `e` is the only one in its slot.
pub open spec fn lone(es: Seq<Entry>, e: Entry) -> bool {
    forall|i: int| 0 <= i < es.len() && (#[trigger] es[i]).dir_index == e.dir_index ==> es[i] == e
}

/// The one entry of a slot.
proof fn lemma_lone(f: spec_fn(int) -> Seq<u8>, dir: u32, j: int, i: int)
    requires
        0 <= j,
        0 <= i < after(f, dir, j).out.len(),
    ensures
        lone(after(f, dir, j).out, after(f, dir, j).out[i]),
{
    let es = after(f, dir, j).out;
    assert forall|k: int| 0 <= k < es.len() && (#[trigger] es[k]).dir_index == es[i].dir_index implies es[k]
        == es[i] by {
        if k < i {
            lemma_in_order(f, dir, j, k, i);
        } else if i < k {
            lemma_in_order(f, dir, j, i, k);
        }
    }
}

/// One more entry is found by its name where no entry before it has that name.
proof fn lemma_named_push(es: Seq<Entry>, x: Entry, name: Seq<char>, k: int)
    requires
        0 <= k <= es.len(),
    ensures
        first_named(es.push(x), name, k) == (match first_named(es, name, k) {
            Some(y) => Some(y),
            None => if is_named(x, name) {
                Some(x)
            } else {
                None
            },
        }),
    decreases es.len() - k,
{
    if k < es.len() {
        assert(es.push(x)[k] == es[k]);
        lemma_named_push(es, x, name, k + 1);
    } else {
        assert(first_named(es.push(x), name, k + 1) is None);
    }
}

/// A name that no entry of slot `at` is found by finds the same without it.
proof fn lemma_named_without(es: Seq<Entry>, at: int, name: Seq<char>)
    requires
        first_named(es, name, 0) matches Some(y) ==> y.dir_index != at,
    ensures
        first_named(without_slot(es, at), name, 0) == first_named(es, name, 0),
    decreases es.len(),
{
    let keep = |e: Entry| e.dir_index != at;
    reveal(Seq::filter);
    if es.len() > 0 {
        let init = es.drop_last();
        let x = es.last();
        assert(es =~= init.push(x));
        lemma_named_push(init, x, name, 0);
        lemma_named_without(init, at, name);
        lemma_named_push(without_slot(init, at), x, name, 0);
    }
}

/// A name that finds an entry in front finds it in the whole.
proof fn lemma_named_in_front(es: Seq<Entry>, front: Seq<Entry>, name: Seq<char>, k: int)
    requires
        0 <= k <= front.len() <= es.len(),
        es.take(front.len() as int) == front,
        first_named(front, name, k) is Some,
    ensures
        first_named(es, name, k) == first_named(front, name, k),
    decreases front.len() - k,
{
    assert(es.take(front.len() as int)[k] == front[k]);
    if !is_named(front[k], name) {
        lemma_named_in_front(es, front, name, k + 1);
    }
}

/// What the name finds in the directory on the disk `n`, if anything, was there
/// on `d`.
pub open spec fn no_newcomer(fs: Fat32, d: Disk, n: Disk, dir: u32, name: Seq<char>) -> bool {
    found(fs, n, dir, name) matches Ok(Some(y)) ==> dir_entries(fs, d, dir)->Ok_0.contains(y)
}

/// No entry stands in a slot that holds none.
proof fn lemma_not_listed(fs: Fat32, d: Disk, dir: u32, ch: Seq<u32>, at: int, y: Entry)
    requires
        roomy(fs),
        held(fs, d),
        linked(fs, d, dir, ch),
        at < ch.len() * per(fs) ==> empty_slot(slots(fs, d, ch)(at)),
        dir_entries(fs, d, dir)->Ok_0.contains(y),
    ensures
        y.dir_index != at,
{
    lemma_dir_entries(fs, d, dir, ch);
    let total = ch.len() * per(fs);
    assert(total >= 0) by (nonlinear_arith)
        requires
            total == ch.len() * per(fs),
            per(fs) >= 0,
    ;
    let es = after(slots(fs, d, ch), dir, total).out;
    let i = choose|i: int| 0 <= i < es.len() && es[i] == y;
    lemma_entries_plain(slots(fs, d, ch), dir, total, i);
}

/// A new entry takes no name away: a name that nothing new has finds what it
/// found.
proof fn lemma_found_beside_new(
    fs: Fat32,
    d: Disk,
    dir: u32,
    ch: Seq<u32>,
    name: Seq<char>,
    first: u32,
    is_dir: bool,
    n: Disk,
    e: Entry,
    ch2: Seq<u32>,
    other: Seq<char>,
)
    requires
        roomy(fs),
        held(fs, d),
        linked(fs, d, dir, ch),
        placed(fs, d, dir, ch, name, first, is_dir, n, e, ch2),
        plain(slot_of(fs, n, ch2, e.dir_index)),
        no_newcomer(fs, d, n, dir, other),
    ensures
        found(fs, n, dir, other) == found(fs, d, dir, other),
{
    let f = slots(fs, d, ch);
    let g = slots(fs, n, ch2);
    let at = e.dir_index;
    let total = ch.len() * per(fs);
    let total2 = ch2.len() * per(fs);
    lemma_dir_entries(fs, d, dir, ch);
    lemma_dir_entries(fs, n, dir, ch2);
    let es = after(f, dir, total).out;
    let es2 = after(g, dir, total2).out;
    assert(g(at) == slot_of(fs, n, ch2, at));
    if let Some(z) = first_named(es2, other, 0) {
        lemma_not_listed(fs, d, dir, ch, at, z);
        lemma_named_is_one(es2, other, 0);
    }
    if at < total && f(at)[0] == 0xE5 {
        assert(total2 == total);
        assert forall|i: int| 0 <= i < total && i != at implies #[trigger] f(i) == g(i) by {
            assert(g(i) == f(i));
        }
        lemma_removed_scan(g, f, dir, at, total);
        assert(es == without_slot(es2, at));
        lemma_named_without(es2, at, other);
    } else {
        let front = after(f, dir, at);
        assert forall|i: int| 0 <= i < at implies (#[trigger] f(i))[0] != 0 by {
            assert(g(i) == f(i));
        }
        lemma_not_done(f, dir, at);
        lemma_same_scan(f, g, dir, at);
        lemma_scan_grows(g, dir, at, total2);
        if at < total {
            assert(f(at)[0] == 0);
            assert(after(f, dir, at + 1) == scan_end(front));
            lemma_done_stays(f, dir, at + 1, total);
        }
        assert(es == front.out);
        if first_named(es, other, 0) is Some {
            lemma_named_in_front(es2, es, other, 0);
        } else if let Some(z) = first_named(es2, other, 0) {
            let j = choose|j: int| 0 <= j < es.len() && es[j] == z;
            lemma_not_named(es, other, 0, j);
        }
    }
}

/// The scan that has come to the end mark.
spec fn scan_end(s: crate::fat::Scan) -> crate::fat::Scan {
    crate::fat::Scan { done: true, ..s }
}

/// Where a name finds nothing no entry has it.
proof fn lemma_not_named(es: Seq<Entry>, name: Seq<char>, k: int, j: int)
    requires
        0 <= k <= j < es.len(),
        first_named(es, name, k) is None,
    ensures
        !is_named(es[j], name),
    decreases j - k,
{
    if k < j {
        lemma_not_named(es, name, k + 1, j);
    }
}

// ---------------------------------------------------------------------------
// Another path
// ---------------------------------------------------------------------------

/// The way to a path and the file that it names share no cluster with the chain
/// `fch`, nor with the directory `dir` unless the way leads through that.
pub open spec fn clear_of(fs: Fat32, d: Disk, path: Seq<char>, fch: Seq<u32>, dir: u32) -> bool {
    let ch = full_chain(fs, d, dir)->Ok_0;
    &&& forall|m: int|
        0 <= m < parts(path).len() ==> #[trigger] dir_n(fs, d, path, m) == dir || (disjoint(
            fch,
            dir_chain(fs, d, path, m),
        ) && disjoint(dir_chain(fs, d, path, m), ch))
    &&& node_at(fs, d, path) matches Ok(Some(Node::At(x))) ==> x.is_dir || (disjoint(fch, file_chain(fs, d, x))
        && disjoint(file_chain(fs, d, x), ch))
}

/// The way to a path does not lead through the entry `e`, nor end on it.
pub open spec fn passes_by(fs: Fat32, d: Disk, path: Seq<char>, e: Entry) -> bool {
    forall|m: int|
        0 <= m < parts(path).len() && #[trigger] dir_n(fs, d, path, m) == e.dir_cluster ==> found(
            fs,
            d,
            e.dir_cluster,
            parts(path)[m],
        ) != Ok::<Option<Entry>, FsError>(Some(e))
}

/// Wherever the way to a path leads through the directory, it finds there on the
/// disk `n` what it finds on `d`.
spec fn finds_alike(fs: Fat32, d: Disk, n: Disk, path: Seq<char>, dir: u32) -> bool {
    forall|m: int|
        0 <= m < parts(path).len() && #[trigger] dir_n(fs, d, path, m) == dir ==> found(fs, n, dir, parts(path)[m])
            == found(fs, d, dir, parts(path)[m])
}

proof fn lemma_way_stays(fs: Fat32, d: Disk, n: Disk, path: Seq<char>, fch: Seq<u32>, dir: u32, k: int)
    requires
        healthy(fs, d, path),
        held(fs, n),
        apart_from(fs, d, n, fch, full_chain(fs, d, dir)->Ok_0),
        clear_of(fs, d, path, fch, dir),
        finds_alike(fs, d, n, path, dir),
        0 <= k < parts(path).len(),
    ensures
        dir_at(fs, n, parts(path), k) == dir_at(fs, d, parts(path), k),
        found(fs, n, dir_n(fs, d, path, k), parts(path)[k]) == found(fs, d, dir_n(fs, d, path, k), parts(path)[k]),
    decreases k,
{
    let dk = dir_n(fs, d, path, k);
    let ck = dir_chain(fs, d, path, k);
    if dk != dir {
        lemma_way_same(fs, d, n, dk, ck, fch, full_chain(fs, d, dir)->Ok_0);
    }
    if k > 0 {
        lemma_way_stays(fs, d, n, path, fch, dir, k - 1);
        assert(linked(fs, d, dir_n(fs, d, path, k - 1), dir_chain(fs, d, path, k - 1)));
        assert(linked(fs, d, dk, ck));
    }
}

/// A path that the changed directory answers as before, and that is clear of
/// what changed otherwise, has the status and the contents that it had.
proof fn lemma_spared(fs: Fat32, d: Disk, n: Disk, path: Seq<char>, fch: Seq<u32>, dir: u32, off: int, len: int)
    requires
        healthy(fs, d, path),
        held(fs, n),
        apart_from(fs, d, n, fch, full_chain(fs, d, dir)->Ok_0),
        clear_of(fs, d, path, fch, dir),
        finds_alike(fs, d, n, path, dir),
        0 <= off,
    ensures
        node_at(fs, n, path) == node_at(fs, d, path),
        status(fs, n, path) == status(fs, d, path),
        contents(fs, n, path, off, len) == contents(fs, d, path, off, len),
{
    let l = parts(path).len() - 1;
    if l >= 0 {
        lemma_way_stays(fs, d, n, path, fch, dir, l);
        assert(linked(fs, d, dir_n(fs, d, path, l), dir_chain(fs, d, path, l)));
        assert(node_at(fs, n, path) == node_at(fs, d, path));
        if let Ok(Some(Node::At(x))) = node_at(fs, d, path) {
            if !x.is_dir {
                lemma_file_kept(fs, d, n, x, fch, full_chain(fs, d, dir)->Ok_0, off, len);
            }
        }
    }
}

// ---------------------------------------------------------------------------
// Writing
// ---------------------------------------------------------------------------

/// What a write leaves of the directory of its file and of what lies elsewhere.
proof fn lemma_write_touches(fs: Fat32, d: Disk, e: Entry, fch: Seq<u32>, ch: Seq<u32>, off: int, data: Seq<u8>)
    requires
        roomy(fs),
        held(fs, d),
        proper(fs, d, e.first_cluster, fch),
        linked(fs, d, e.dir_cluster, ch),
        disjoint(fch, ch),
        0 <= e.dir_index < ch.len() * per(fs),
        plain(slot_of(fs, d, ch, e.dir_index)),
        off >= 0,
        file_written(fs, d, e, off, data).r is Ok,
    ensures
        ({
            let n = file_written(fs, d, e, off, data).disk;
            let end = off + data.len();
            &&& held(fs, n)
            &&& linked(fs, n, e.dir_cluster, ch)
            &&& after(slots(fs, n, ch), e.dir_cluster, ch.len() * per(fs)).out == renewed_at(
                after(slots(fs, d, ch), e.dir_cluster, ch.len() * per(fs)).out,
                e.dir_index,
                start_after(fs, d, e, end),
                size_after(e, end),
            )
            &&& apart_from(fs, d, n, fch, ch)
        }),
{
    let end = off + data.len();
    if data.len() >= 1 {
        lemma_file_written(fs, d, e, fch, ch, off, data);
    } else {
        let t = fitted(fs, d, e.first_cluster, end);
        if end >= 1 {
            lemma_fitted(fs, d, e.first_cluster, fch, end);
        } else {
            lemma_fits_nothing(fs, d, e.first_cluster, fch);
        }
        let b = t.disk;
        assert(data_put(fs, b, t.r->Ok_0.chain, off, data).disk == b);
        assert forall|i: int| 0 <= i < ch.len() implies ent(fs, b, #[trigger] ch[i]) == ent(fs, d, ch[i]) && dat(
            fs,
            b,
            ch[i],
        ) == dat(fs, d, ch[i]) by {
            lemma_in_use(fs, d, e.dir_cluster, ch, i);
            assert(valid(fs, ch[i]));
            if fch.contains(ch[i]) {
                let k = choose|k: int| 0 <= k < fch.len() && fch[k] == ch[i];
                assert(fch[k] != ch[i]);
            }
        }
        lemma_chain_stays(fs, d, b, e.dir_cluster, ch);
        let e2 = Entry { first_cluster: t.r->Ok_0.first, size: size_after(e, end), ..e };
        lemma_dirent_saved(fs, b, ch, e2);
        let n = dirent_saved(fs, b, e2).disk;
        assert(file_written(fs, d, e, off, data).disk == n);
        lemma_scan_renewed(fs, d, b, n, ch, e2);
        let q = e.dir_index / per(fs);
        let put = choose|put: Seq<u8>| cluster_set(fs, b, n, ch[q], put);
        assert(ch.contains(ch[q]));
        assert forall|x: u32|
            valid(fs, x) && ent(fs, d, x) != 0 && !fch.contains(x) && !ch.contains(x) implies #[trigger] ent(fs, n, x)
            == ent(fs, d, x) && dat(fs, n, x) == dat(fs, d, x) by {
            assert(ent(fs, b, x) == ent(fs, d, x));
            assert(dat(fs, b, x) == dat(fs, d, x));
        }
    }
}

/// A name that finds another entry, or none, still does when one is renewed.
proof fn lemma_found_past(fs: Fat32, d: Disk, n: Disk, dir: u32, e: Entry, first: u32, size: u32, name: Seq<char>)
    requires
        dir_entries(fs, d, dir) is Ok,
        dir_entries(fs, n, dir) == Ok::<Seq<Entry>, FsError>(
            renewed_at(dir_entries(fs, d, dir)->Ok_0, e.dir_index, first, size),
        ),
        found(fs, d, dir, name)->Ok_0 matches Some(y) ==> y.dir_index != e.dir_index,
    ensures
        found(fs, n, dir, name) == found(fs, d, dir, name),
{
    lemma_named_renewed(dir_entries(fs, d, dir)->Ok_0, name, e.dir_index, first, size, 0);
}

/// Where a name finds an entry other than `e`, it finds another slot.
proof fn lemma_other_slot(fs: Fat32, d: Disk, dir: u32, ch: Seq<u32>, e: Entry, name: Seq<char>)
    requires
        roomy(fs),
        held(fs, d),
        linked(fs, d, dir, ch),
        dir_entries(fs, d, dir)->Ok_0.contains(e),
        found(fs, d, dir, name) != Ok::<Option<Entry>, FsError>(Some(e)),
    ensures
        dir_entries(fs, d, dir) is Ok,
        found(fs, d, dir, name) is Ok,
        found(fs, d, dir, name)->Ok_0 matches Some(y) ==> y.dir_index != e.dir_index,
{
    lemma_dir_entries(fs, d, dir, ch);
    let total = ch.len() * per(fs);
    let es = after(slots(fs, d, ch), dir, total).out;
    assert(total >= 0) by (nonlinear_arith)
        requires
            total == ch.len() * per(fs),
            per(fs) >= 0,
    ;
    let i = choose|i: int| 0 <= i < es.len() && es[i] == e;
    lemma_lone(slots(fs, d, ch), dir, total, i);
    if first_named(es, name, 0) is Some {
        lemma_named_is_one(es, name, 0);
    }
}

/// The entry that a path names is one of its directory.
proof fn lemma_is_listed(fs: Fat32, d: Disk, path: Seq<char>, e: Entry)
    requires
        healthy(fs, d, path),
        node_at(fs, d, path) == Ok::<Option<Node>, FsError>(Some(Node::At(e))),
    ensures
        dir_entries(fs, d, e.dir_cluster) is Ok,
        dir_entries(fs, d, e.dir_cluster)->Ok_0.contains(e),
{
    lemma_entry_place(fs, d, path, e);
    let es = dir_entries(fs, d, e.dir_cluster)->Ok_0;
    lemma_named_is_one(es, parts(path).last(), 0);
}

proof fn lemma_write_spares(
    fs: Fat32,
    d: Disk,
    path: Seq<char>,
    off: int,
    data: Seq<u8>,
    other: Seq<char>,
    from: int,
    len: int,
    e: Entry,
)
    requires
        healthy(fs, d, path),
        healthy(fs, d, other),
        node_at(fs, d, path) == Ok::<Option<Node>, FsError>(Some(Node::At(e))),
        passes_by(fs, d, other, e),
        clear_of(fs, d, other, file_chain(fs, d, e), e.dir_cluster),
        off >= 0,
        0 <= from,
        file_written(fs, d, e, off, data).r is Ok,
    ensures
        status(fs, file_written(fs, d, e, off, data).disk, other) == status(fs, d, other),
        contents(fs, file_written(fs, d, e, off, data).disk, other, from, len) == contents(fs, d, other, from, len),
{
    lemma_entry_place(fs, d, path, e);
    lemma_is_listed(fs, d, path, e);
    let dir = e.dir_cluster;
    let ch = dir_chain(fs, d, path, parts(path).len() - 1);
    let fch = file_chain(fs, d, e);
    lemma_write_touches(fs, d, e, fch, ch, off, data);
    let n = file_written(fs, d, e, off, data).disk;
    lemma_dir_entries(fs, n, dir, ch);
    assert forall|m: int| 0 <= m < parts(other).len() && #[trigger] dir_n(fs, d, other, m) == dir implies found(
        fs,
        n,
        dir,
        parts(other)[m],
    ) == found(fs, d, dir, parts(other)[m]) by {
        lemma_other_slot(fs, d, dir, ch, e, parts(other)[m]);
        lemma_found_past(
            fs,
            d,
            n,
            dir,
            e,
            start_after(fs, d, e, off + data.len()),
            size_after(e, off + data.len()),
            parts(other)[m],
        );
    }
    lemma_spared(fs, d, n, other, fch, dir, from, len);
}

/// What a write to a new file leaves of the directory and of what lies
/// elsewhere: a name that nothing new has finds what it found.
proof fn lemma_new_file_touches(
    fs: Fat32,
    d: Disk,
    dir: u32,
    ch: Seq<u32>,
    name: Seq<char>,
    off: int,
    data: Seq<u8>,
    n: Disk,
)
    requires
        roomy(fs),
        held(fs, d),
        linked(fs, d, dir, ch),
        off >= 0,
        created(fs, d, dir, name, 0, false).r is Ok,
        ({
            let o = created(fs, d, dir, name, 0, false);
            let w = file_written(fs, o.disk, o.r->Ok_0, off, data);
            w.r is Ok && w.disk == n
        }),
    ensures
        held(fs, n),
        apart_from(fs, d, n, Seq::empty(), ch),
        forall|other: Seq<char>|
            #![trigger found(fs, n, dir, other)]
            no_newcomer(fs, d, n, dir, other) ==> found(fs, n, dir, other) == found(fs, d, dir, other),
{
    let o = created(fs, d, dir, name, 0, false);
    let d1 = o.disk;
    let e = o.r->Ok_0;
    let at = e.dir_index;
    let none = Seq::<u32>::empty();
    let ch2 = lemma_placed(fs, d, dir, ch, name, 0, false);
    lemma_write_touches(fs, d1, e, none, ch2, off, data);
    lemma_dir_entries(fs, d1, dir, ch2);
    lemma_dir_entries(fs, n, dir, ch2);
    let es1 = dir_entries(fs, d1, dir)->Ok_0;
    let first = start_after(fs, d1, e, off + data.len());
    let size = size_after(e, off + data.len());
    assert forall|x: u32|
        valid(fs, x) && ent(fs, d, x) != 0 && !none.contains(x) && !ch.contains(x) implies #[trigger] ent(fs, n, x)
        == ent(fs, d, x) && dat(fs, n, x) == dat(fs, d, x) by {
        assert(ent(fs, d1, x) == ent(fs, d, x));
        if ch2.contains(x) {
            let k = choose|k: int| 0 <= k < ch2.len() && ch2[k] == x;
            if k < ch.len() {
                assert(ch[k] == x);
            } else {
                assert(ent(fs, d, ch2[k]) == 0);
            }
        }
    }
    assert forall|other: Seq<char>| no_newcomer(fs, d, n, dir, other) implies #[trigger] found(fs, n, dir, other)
        == found(fs, d, dir, other) by {
        lemma_named_renewed(es1, other, at, first, size, 0);
        if let Some(y) = first_named(es1, other, 0) {
            let z = if y.dir_index == at { renewed(y, first, size) } else { y };
            assert(found(fs, n, dir, other) == Ok::<Option<Entry>, FsError>(Some(z)));
            lemma_not_listed(fs, d, dir, ch, at, z);
        }
        lemma_found_beside_new(fs, d, dir, ch, name, 0, false, d1, e, ch2, other);
        lemma_found_past(fs, d1, n, dir, e, first, size, other);
    }
}

/// The directory in which a path ends.
pub open spec fn home(fs: Fat32, d: Disk, path: Seq<char>) -> u32 {
    dir_n(fs, d, path, parts(path).len() - 1)
}

/// Wherever the way to a path leads through the directory, nothing new answers
/// to its name there.
pub open spec fn not_taken(fs: Fat32, d: Disk, n: Disk, path: Seq<char>, dir: u32) -> bool {
    forall|m: int|
        0 <= m < parts(path).len() && #[trigger] dir_n(fs, d, path, m) == dir ==> no_newcomer(
            fs,
            d,
            n,
            dir,
            parts(path)[m],
        )
}

/// A write to a file, whether it was there before or not, leaves the status and
/// the contents of every other path as they were, as far as they share no
/// cluster. A new file must not answer to a name on the other's way.
pub proof fn law_write_spares_others(
    fs: Fat32,
    d: Disk,
    path: Seq<char>,
    off: int,
    data: Seq<u8>,
    other: Seq<char>,
    from: int,
    len: int,
)
    requires
        healthy(fs, d, path),
        healthy(fs, d, other),
        off >= 0,
        0 <= from,
        written(fs, d, path, off, data).r is Ok,
        node_at(fs, d, path) matches Ok(Some(Node::At(e))) ==> passes_by(fs, d, other, e) && clear_of(
            fs,
            d,
            other,
            file_chain(fs, d, e),
            e.dir_cluster,
        ),
        node_at(fs, d, path) matches Ok(None) ==> clear_of(fs, d, other, Seq::empty(), home(fs, d, path)) && not_taken(
            fs,
            d,
            written(fs, d, path, off, data).disk,
            other,
            home(fs, d, path),
        ),
    ensures
        status(fs, written(fs, d, path, off, data).disk, other) == status(fs, d, other),
        contents(fs, written(fs, d, path, off, data).disk, other, from, len) == contents(fs, d, other, from, len),
{
    match node_at(fs, d, path) {
        Ok(Some(Node::At(e))) => {
            lemma_write_spares(fs, d, path, off, data, other, from, len, e);
        },
        Ok(None) => {
            let l = parts(path).len() - 1;
            let dir = home(fs, d, path);
            let ch = dir_chain(fs, d, path, l);
            let n = written(fs, d, path, off, data).disk;
            assert(write_target(fs, d, path) == created(fs, d, dir, parts(path).last(), 0, false));
            assert(linked(fs, d, dir, ch));
            lemma_new_file_touches(fs, d, dir, ch, parts(path).last(), off, data, n);
            lemma_spared(fs, d, n, other, Seq::empty(), dir, from, len);
        },
        _ => {},
    }
}

// ---------------------------------------------------------------------------
// Removing, making and renaming
// ---------------------------------------------------------------------------

/// Removing a file leaves the status and the contents of every other path as
/// they were, as far as they share no cluster.
pub proof fn law_unlink_spares_others(fs: Fat32, d: Disk, path: Seq<char>, other: Seq<char>, from: int, len: int)
    requires
        healthy(fs, d, path),
        healthy(fs, d, other),
        0 <= from,
        unlinked(fs, d, path).r is Ok,
        node_at(fs, d, path) matches Ok(Some(Node::At(e))) ==> passes_by(fs, d, other, e) && clear_of(
            fs,
            d,
            other,
            file_chain(fs, d, e),
            e.dir_cluster,
        ),
    ensures
        status(fs, unlinked(fs, d, path).disk, other) == status(fs, d, other),
        contents(fs, unlinked(fs, d, path).disk, other, from, len) == contents(fs, d, other, from, len),
{
    let e = node_at(fs, d, path)->Ok_0->0->At_0;
    lemma_entry_place(fs, d, path, e);
    lemma_is_listed(fs, d, path, e);
    let dir = e.dir_cluster;
    let ch = dir_chain(fs, d, path, parts(path).len() - 1);
    let fch = file_chain(fs, d, e);
    lemma_deleted(fs, d, ch, fch, e);
    let n = deleted(fs, d, e).disk;
    lemma_dir_entries(fs, n, dir, ch);
    assert forall|m: int| 0 <= m < parts(other).len() && #[trigger] dir_n(fs, d, other, m) == dir implies found(
        fs,
        n,
        dir,
        parts(other)[m],
    ) == found(fs, d, dir, parts(other)[m]) by {
        lemma_other_slot(fs, d, dir, ch, e, parts(other)[m]);
        lemma_named_without(dir_entries(fs, d, dir)->Ok_0, e.dir_index, parts(other)[m]);
    }
    lemma_spared(fs, d, n, other, fch, dir, from, len);
}

/// Making a directory leaves the status and the contents of every other path as
/// they were, as far as they share no cluster. The new directory must not answer
/// to a name on the other's way.
pub proof fn law_mkdir_spares_others(fs: Fat32, d: Disk, path: Seq<char>, other: Seq<char>, from: int, len: int)
    requires
        healthy(fs, d, path),
        healthy(fs, d, other),
        0 <= from,
        dir_made(fs, d, path).r is Ok,
        clear_of(fs, d, other, Seq::empty(), home(fs, d, path)),
        not_taken(fs, d, dir_made(fs, d, path).disk, other, home(fs, d, path)),
    ensures
        status(fs, dir_made(fs, d, path).disk, other) == status(fs, d, other),
        contents(fs, dir_made(fs, d, path).disk, other, from, len) == contents(fs, d, other, from, len),
{
    let l = parts(path).len() - 1;
    let dir = home(fs, d, path);
    let ch = dir_chain(fs, d, path, l);
    let name = parts(path).last();
    assert(linked(fs, d, dir, ch));
    let up: u32 = if dir == fs.root_cluster {
        0
    } else {
        dir
    };
    let blank = new_dir(fs, allocated(fs, d, None).r->Ok_0, up);
    let c = lemma_new_cluster(fs, d, blank);
    let none = Seq::<u32>::empty();
    let w = with_cluster(fs, allocated(fs, d, None).disk, c, blank).disk;
    lemma_way_same(fs, d, w, dir, ch, none, none);
    let ch2 = lemma_placed(fs, w, dir, ch, name, c, true);
    let o = created(fs, w, dir, name, c, true);
    let n = dir_made(fs, d, path).disk;
    assert(n == o.disk);
    assert forall|x: u32|
        valid(fs, x) && ent(fs, d, x) != 0 && !none.contains(x) && !ch.contains(x) implies #[trigger] ent(fs, n, x)
        == ent(fs, d, x) && dat(fs, n, x) == dat(fs, d, x) by {
        assert(ent(fs, w, x) == ent(fs, d, x));
    }
    assert forall|m: int| 0 <= m < parts(other).len() && #[trigger] dir_n(fs, d, other, m) == dir implies found(
        fs,
        n,
        dir,
        parts(other)[m],
    ) == found(fs, d, dir, parts(other)[m]) by {
        lemma_found_beside_new(fs, w, dir, ch, name, c, true, n, o.r->Ok_0, ch2, parts(other)[m]);
    }
    lemma_spared(fs, d, n, other, none, dir, from, len);
}

/// A name that finds neither the entry that changes its name nor the one that it
/// becomes finds what it found.
proof fn lemma_named_past(es: Seq<Entry>, at: int, short: Seq<char>, long: bool, name: Seq<char>, k: int)
    requires
        0 <= k,
        first_named(es, name, k) matches Some(y) ==> y.dir_index != at,
        first_named(recast(es, at, short, long), name, k) matches Some(z) ==> z.dir_index != at,
    ensures
        first_named(recast(es, at, short, long), name, k) == first_named(es, name, k),
    decreases es.len() - k,
{
    if k < es.len() {
        assert(recast(es, at, short, long)[k] == recast_entry(es[k], at, short, long));
        if !is_named(es[k], name) && !is_named(recast_entry(es[k], at, short, long), name) {
            lemma_named_past(es, at, short, long, name, k + 1);
        }
    }
}

/// Renaming an entry leaves the status and the contents of every other path as
/// they were, as far as they share no cluster with the directory. The new name
/// must not take one on the other's way.
pub proof fn law_rename_spares_others(
    fs: Fat32,
    d: Disk,
    path: Seq<char>,
    to: Seq<char>,
    other: Seq<char>,
    from: int,
    len: int,
)
    requires
        healthy(fs, d, path),
        healthy(fs, d, to),
        healthy(fs, d, other),
        0 <= from,
        renamed(fs, d, path, to).r is Ok,
        node_at(fs, d, path) matches Ok(Some(Node::At(e))) ==> passes_by(fs, d, other, e),
        clear_of(fs, d, other, Seq::empty(), home(fs, d, path)),
        not_taken(fs, d, renamed(fs, d, path, to).disk, other, home(fs, d, path)),
    ensures
        status(fs, renamed(fs, d, path, to).disk, other) == status(fs, d, other),
        contents(fs, renamed(fs, d, path, to).disk, other, from, len) == contents(fs, d, other, from, len),
{
    let e = node_at(fs, d, path)->Ok_0->0->At_0;
    lemma_entry_place(fs, d, path, e);
    lemma_is_listed(fs, d, path, e);
    let dir = e.dir_cluster;
    let ch = dir_chain(fs, d, path, parts(path).len() - 1);
    let name = parts(to).last();
    lemma_slot_renamed(fs, d, ch, e, name);
    let (c, buf, o) = slot_home(fs, d, dir, e.dir_index)->Ok_0;
    let n = renamed(fs, d, path, to).disk;
    let none = Seq::<u32>::empty();
    assert(n == with_cluster(fs, d, c, crate::bytes::splice(buf, o, short_form(name))).disk);
    assert(apart_from(fs, d, n, none, ch));
    let f = slots(fs, d, ch);
    let g = slots(fs, n, ch);
    let at = e.dir_index;
    let total = ch.len() * per(fs);
    lemma_recast_scan(f, g, dir, at, total);
    lemma_dir_entries(fs, d, dir, ch);
    lemma_dir_entries(fs, n, dir, ch);
    let es = after(f, dir, total).out;
    let short = short_of(g(at));
    let long = after(f, dir, at).lfn.len() > 0;
    let es2 = recast(es, at, short, long);
    let i = choose|i: int| 0 <= i < es.len() && es[i] == e;
    lemma_lone(f, dir, total, i);
    assert forall|m: int| 0 <= m < parts(other).len() && #[trigger] dir_n(fs, d, other, m) == dir implies found(
        fs,
        n,
        dir,
        parts(other)[m],
    ) == found(fs, d, dir, parts(other)[m]) by {
        let nm = parts(other)[m];
        lemma_other_slot(fs, d, dir, ch, e, nm);
        assert(no_newcomer(fs, d, n, dir, nm));
        if let Some(z) = first_named(es2, nm, 0) {
            if z.dir_index == at {
                let j = choose|j: int| 0 <= j < es.len() && es[j] == z;
                assert(z == e);
                lemma_named_is_one(es2, nm, 0);
                let q = choose|q: int| 0 <= q < es2.len() && es2[q] == z;
                assert(es2[q] == recast_entry(es[q], at, short, long));
                assert(recast_entry(e, at, short, long) == e);
                assert(es2 =~= es);
            }
        }
        if es2 != es {
            lemma_named_past(es, at, short, long, nm, 0);
        }
    }
    lemma_spared(fs, d, n, other, none, dir, from, len);
}

} // verus!
