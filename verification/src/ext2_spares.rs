//! What the operations on an ext2 volume leave alone: writing, removing,
//! renaming and making a directory keep the status and the contents of every
//! other path.
use vstd::prelude::*;

use crate::ext2::{
    contents, dir_made, dir_made_at, dir_records, ensured, file_made, file_part, file_written, found,
    fresh_inode, inode, inode_taken, name_added, new_dir_block, node_at, node_upto, record_named, renamed,
    status, unlinked, with_block, with_inode, written, InodeView, Record, Vol, MODE_DIR, MODE_REG,
};
use crate::ext2_laws::{
    alike_but, apart, at, changed, enrols, founds, free_record, good, healthy, held, ino_of, ino_used,
    lemma_at_kept, lemma_beside, lemma_dir_upto, lemma_empty_tree, lemma_enrolled, lemma_entered,
    lemma_file_written, lemma_found_live, lemma_founds, lemma_founds_enrols, lemma_gathered_same,
    lemma_in_reach, lemma_inodes_kept, lemma_inodes_settled, lemma_node_is_inode, lemma_records_same,
    lemma_renamed, lemma_still_apart, lemma_tree_settled, lemma_unlinked, links, makes, node_n, numbered,
    parts, places, reached, ready, record_of_path, rewrites, set_up, settled, sound, tree, tree_same, writes,
};
use crate::vfs::{FsError};

verus! {

// ---------------------------------------------------------------------------
// Another path
// ---------------------------------------------------------------------------

/// The blocks of the tree are where they were, and hold what they held.
spec fn kept(v: Vol, w: Vol, i: InodeView) -> bool {
    reached(w, i) && tree_same(v, i, w)
}

proof fn lemma_kept_twice(v: Vol, m: Vol, w: Vol, i: InodeView)
    requires
        tree_same(v, i, m),
        kept(m, w, i),
    ensures
        kept(v, w, i),
{
    assert forall|p: int| 0 <= p < places() && #[trigger] at(v, i, p) != 0 implies crate::ext2_laws::blk(
        w,
        at(v, i, p) as int,
    ) == crate::ext2_laws::blk(v, at(v, i, p) as int) by {
        lemma_at_kept(v, i, m, p);
        assert(at(m, i, p) != 0);
    }
}

/// The volume `w` is `v` with the inode `dir` changed to `d2`, as far as a path
/// goes: its directories, but for that one, and what it names are as they were,
/// and where it leads through that one it finds there the number that it found.
spec fn spares(v: Vol, w: Vol, path: Seq<char>, dir: InodeView, d2: InodeView) -> bool {
    let ps = parts(path);
    &&& good(w.fs) && held(w)
    &&& inode(v, dir.ino) == Ok::<InodeView, FsError>(dir)
    &&& inode(w, dir.ino) == Ok::<InodeView, FsError>(d2)
    &&& d2.ino == dir.ino && d2.mode == dir.mode
    &&& forall|m: int|
        0 <= m < ps.len() && (#[trigger] node_n(v, path, m)).ino != dir.ino ==> kept(v, w, node_n(v, path, m))
    &&& forall|m: int|
        0 <= m < ps.len() && (#[trigger] node_n(v, path, m)).ino == dir.ino ==> {
            &&& dir_records(v, dir) is Ok
            &&& dir_records(w, d2) is Ok
            &&& ino_of(dir_records(w, d2)->Ok_0, ps[m]) == ino_of(dir_records(v, dir)->Ok_0, ps[m])
        }
    &&& forall|m: int|
        0 <= m <= ps.len() && (#[trigger] node_upto(v, ps, m)) is Ok && node_upto(v, ps, m)->Ok_0 is Some && (node_upto(
            v,
            ps,
            m,
        )->Ok_0->0).ino != dir.ino ==> inode(w, (node_upto(v, ps, m)->Ok_0->0).ino) == inode(
            v,
            (node_upto(v, ps, m)->Ok_0->0).ino,
        )
}

/// What a path names, with the changed inode in its place.
spec fn swapped(r: Result<Option<InodeView>, FsError>, dir: InodeView, d2: InodeView) -> Result<
    Option<InodeView>,
    FsError,
> {
    match r {
        Ok(Some(k)) => Ok(Some(if k.ino == dir.ino { d2 } else { k })),
        x => x,
    }
}

proof fn lemma_way_spared(v: Vol, w: Vol, path: Seq<char>, dir: InodeView, d2: InodeView, n: int)
    requires
        healthy(v, path),
        node_at(v, path) is Ok,
        spares(v, w, path, dir, d2),
        0 <= n <= parts(path).len(),
    ensures
        node_upto(w, parts(path), n) == swapped(node_upto(v, parts(path), n), dir, d2),
    decreases n,
{
    let ps = parts(path);
    if n < ps.len() {
        assert(node_upto(v, ps, n) is Ok);
    }
    if node_upto(v, ps, n)->Ok_0 is Some {
        lemma_node_is_inode(v, ps, n);
    }
    if n > 0 {
        lemma_way_spared(v, w, path, dir, d2, n - 1);
        assert(node_upto(v, ps, n - 1) is Ok);
        lemma_node_is_inode(v, ps, n - 1);
        let cur = node_n(v, path, n - 1);
        assert(tree(v, cur));
        if cur.ino == dir.ino {
            assert(cur == dir);
            let a = dir_records(v, dir)->Ok_0;
            let b = dir_records(w, d2)->Ok_0;
            assert(ino_of(b, ps[n - 1]) == ino_of(a, ps[n - 1]));
            lemma_found_live(a, ps[n - 1], 0);
            lemma_found_live(b, ps[n - 1], 0);
        } else {
            assert(kept(v, w, cur));
            lemma_records_same(v, w, cur, cur.size as int / 1024);
        }
    }
}

/// A path that is spared has its contents, and its status unless it names the
/// inode that changed.
proof fn lemma_spared(v: Vol, w: Vol, path: Seq<char>, dir: InodeView, d2: InodeView, off: int, len: int)
    requires
        healthy(v, path),
        node_at(v, path) is Ok,
        spares(v, w, path, dir, d2),
        node_at(v, path) matches Ok(Some(k)) ==> k.ino != dir.ino || d2 == dir,
        node_at(v, path) matches Ok(Some(k)) ==> k.is_dir() || kept(v, w, k),
        0 <= off,
    ensures
        status(w, path) == status(v, path),
        contents(w, path, off, len) == contents(v, path, off, len),
{
    let ps = parts(path);
    lemma_way_spared(v, w, path, dir, d2, ps.len() as int);
    if let Ok(Some(k)) = node_at(v, path) {
        lemma_node_is_inode(v, ps, ps.len() as int);
        assert(node_at(w, path) == node_at(v, path));
        if !k.is_dir() {
            assert(tree(v, k));
            let end = if off + len < k.size { off + len } else { k.size as int };
            lemma_gathered_same(v, w, k, off, end);
        }
    }
}

/// The way to a path and the file that it names share no block with the inode,
/// unless the way leads through that.
pub open spec fn clear_of(v: Vol, path: Seq<char>, i: InodeView) -> bool {
    &&& forall|m: int|
        0 <= m < parts(path).len() ==> (#[trigger] node_n(v, path, m)).ino == i.ino || apart(v, node_n(v, path, m), i)
    &&& node_at(v, path) matches Ok(Some(k)) ==> k.is_dir() || apart(v, k, i)
}

/// The path does not name the inode.
pub open spec fn names_another(v: Vol, path: Seq<char>, i: InodeView) -> bool {
    node_at(v, path) matches Ok(Some(k)) ==> k.ino != i.ino
}

/// The directory in which a path ends.
pub open spec fn home(v: Vol, path: Seq<char>) -> InodeView {
    node_n(v, path, parts(path).len() - 1)
}

/// Wherever the way to a path leads through the directory, it does not take the
/// record at the place `off`.
pub open spec fn passes_by(v: Vol, path: Seq<char>, dir: InodeView, off: int) -> bool {
    forall|m: int|
        0 <= m < parts(path).len() && (#[trigger] node_n(v, path, m)).ino == dir.ino ==> (record_named(
            dir_records(v, dir)->Ok_0,
            parts(path)[m],
            0,
        ) matches Some(y) ==> y.offset != off)
}

/// Wherever the way to a path leads through the directory, it is not by the
/// name.
pub open spec fn other_name(v: Vol, path: Seq<char>, dir: InodeView, name: Seq<char>) -> bool {
    forall|m: int|
        0 <= m < parts(path).len() && (#[trigger] node_n(v, path, m)).ino == dir.ino ==> parts(path)[m] != name
}

/// The inodes on the way to a path, and the one that it names, are marked as
/// taken.
pub open spec fn way_marked(v: Vol, path: Seq<char>) -> bool {
    forall|m: int|
        0 <= m <= parts(path).len() && (#[trigger] node_upto(v, parts(path), m)) is Ok && node_upto(
            v,
            parts(path),
            m,
        )->Ok_0 is Some ==> ino_used(v, (node_upto(v, parts(path), m)->Ok_0->0).ino as int)
}

// ---------------------------------------------------------------------------
// Removing and renaming
// ---------------------------------------------------------------------------

/// A name that neither finds the record that changes nor is given to it finds
/// what it found.
proof fn lemma_named_past(rs: Seq<Record>, off: int, to: Record, name: Seq<char>, k: int)
    requires
        0 <= k,
        to.ino == 0 || to.name != name,
        record_named(rs, name, k) matches Some(y) ==> y.offset != off,
    ensures
        record_named(changed(rs, off, to), name, k) == record_named(rs, name, k),
    decreases rs.len() - k,
{
    if k < rs.len() {
        assert(changed(rs, off, to)[k] == if rs[k].offset == off { to } else { rs[k] });
        if !(rs[k].ino != 0 && rs[k].name == name) {
            lemma_named_past(rs, off, to, name, k + 1);
        }
    }
}

/// A path spared where one record of a directory changed.
proof fn lemma_record_spares(v: Vol, w: Vol, x: Vol, path: Seq<char>, dir: InodeView, off: int, to: Record)
    requires
        healthy(v, path),
        node_at(v, path) is Ok,
        tree(v, dir),
        inode(v, dir.ino) == Ok::<InodeView, FsError>(dir),
        dir_records(v, dir) is Ok,
        writes(v, dir, w, dir),
        dir_records(w, dir) == Ok::<Seq<Record>, FsError>(changed(dir_records(v, dir)->Ok_0, off, to)),
        settled(w, x),
        clear_of(v, path, dir),
        passes_by(v, path, dir, off),
        to.ino == 0 || other_name(v, path, dir, to.name),
    ensures
        spares(v, x, path, dir, dir),
        node_at(v, path) matches Ok(Some(k)) ==> k.is_dir() || kept(v, x, k),
{
    let ps = parts(path);
    assert forall|n: u32| #[trigger] inode(x, n) == inode(v, n) by {
        lemma_inodes_kept(v, dir, w, dir, n);
        lemma_inodes_settled(w, x, n);
    }
    assert forall|h: InodeView| tree(v, h) && apart(v, h, dir) implies #[trigger] kept(v, x, h) by {
        lemma_beside(v, dir, w, dir, h);
        lemma_tree_settled(w, x, h);
        lemma_kept_twice(v, w, x, h);
    }
    lemma_tree_settled(w, x, dir);
    assert forall|m: int| 0 <= m < ps.len() && (#[trigger] node_n(v, path, m)).ino != dir.ino implies kept(
        v,
        x,
        node_n(v, path, m),
    ) by {
        assert(node_upto(v, ps, m) is Ok);
        assert(tree(v, node_n(v, path, m)));
    }
    assert forall|m: int| 0 <= m < ps.len() && (#[trigger] node_n(v, path, m)).ino == dir.ino implies ino_of(
        dir_records(x, dir)->Ok_0,
        ps[m],
    ) == ino_of(dir_records(v, dir)->Ok_0, ps[m]) by {
        lemma_named_past(dir_records(v, dir)->Ok_0, off, to, ps[m], 0);
    }
    if let Ok(Some(k)) = node_at(v, path) {
        assert(tree(v, k));
    }
}

/// Removing a file leaves the status and the contents of every other path as
/// they were, as far as they share no block with the directory.
pub proof fn law_unlink_spares_others(v: Vol, path: Seq<char>, other: Seq<char>, from: int, len: int)
    requires
        healthy(v, path),
        healthy(v, other),
        node_at(v, other) is Ok,
        unlinked(v, path).r is Ok,
        clear_of(v, other, home(v, path)),
        passes_by(v, other, home(v, path), record_of_path(v, path).offset),
        0 <= from,
    ensures
        status(unlinked(v, path).vol, other) == status(v, other),
        contents(unlinked(v, path).vol, other, from, len) == contents(v, other, from, len),
{
    let w = lemma_unlinked(v, path);
    let x = unlinked(v, path).vol;
    let l = parts(path).len() - 1;
    let dir = home(v, path);
    assert(node_upto(v, parts(path), l) is Ok);
    lemma_node_is_inode(v, parts(path), l);
    assert(tree(v, dir));
    let r = record_of_path(v, path);
    lemma_record_spares(v, w, x, other, dir, r.offset, free_record(r));
    lemma_spared(v, x, other, dir, dir, from, len);
}

/// Renaming an entry leaves the status and the contents of every other path as
/// they were, as far as they share no block with the directory. The new name
/// must not be one on the other's way.
pub proof fn law_rename_spares_others(
    v: Vol,
    path: Seq<char>,
    to: Seq<char>,
    other: Seq<char>,
    from: int,
    len: int,
)
    requires
        healthy(v, path),
        healthy(v, to),
        healthy(v, other),
        node_at(v, other) is Ok,
        renamed(v, path, to).r is Ok,
        clear_of(v, other, home(v, path)),
        passes_by(v, other, home(v, path), record_of_path(v, path).offset),
        other_name(v, other, home(v, path), parts(to).last()),
        0 <= from,
    ensures
        status(renamed(v, path, to).vol, other) == status(v, other),
        contents(renamed(v, path, to).vol, other, from, len) == contents(v, other, from, len),
{
    lemma_renamed(v, path, to);
    let w = renamed(v, path, to).vol;
    let l = parts(path).len() - 1;
    let dir = home(v, path);
    assert(node_upto(v, parts(path), l) is Ok);
    lemma_node_is_inode(v, parts(path), l);
    assert(tree(v, dir));
    let r = record_of_path(v, path);
    assert(settled(w, w));
    lemma_record_spares(v, w, w, other, dir, r.offset, Record { name: parts(to).last(), ..r });
    lemma_spared(v, w, other, dir, dir, from, len);
}

// ---------------------------------------------------------------------------
// Writing and making a directory
// ---------------------------------------------------------------------------

/// The volume `w` is `c` but for one inode, whose tree was empty.
spec fn fills_one(c: Vol, w: Vol, num: u32) -> bool {
    &&& good(w.fs) && held(w)
    &&& forall|h: InodeView| #[trigger] tree(c, h) ==> kept(c, w, h)
    &&& forall|n: u32| numbered(c.fs, n) && n != num ==> #[trigger] inode(w, n) == inode(c, n)
}

proof fn lemma_fills_none(c: Vol, num: u32)
    requires
        sound(c),
    ensures
        fills_one(c, c, num),
{
}

/// A write to an empty file.
proof fn lemma_fills_one(c: Vol, w: Vol, fresh: InodeView, k: InodeView)
    requires
        rewrites(c, fresh, w, k),
        forall|q: int| 0 <= q ==> #[trigger] at(c, fresh, q) == 0,
    ensures
        fills_one(c, w, fresh.ino),
{
    assert forall|h: InodeView| #[trigger] tree(c, h) implies kept(c, w, h) by {
        assert(apart(c, h, fresh));
        assert(tree(w, h) && tree_same(c, h, w));
    }
}

/// A tree beside the directory that gets the entry.
proof fn lemma_entry_keeps(v: Vol, b: Vol, c: Vol, w: Vol, fresh: InodeView, dir: InodeView, d2: InodeView, h: InodeView)
    requires
        enrols(v, b, fresh),
        rewrites(b, dir, c, d2),
        fills_one(c, w, fresh.ino),
        tree(v, dir),
        tree(v, h),
        apart(v, h, dir),
    ensures
        kept(v, w, h),
{
    assert(tree(b, h) && tree_same(v, h, b));
    lemma_still_apart(v, b, fresh, h, dir);
    assert(tree(c, h) && tree_same(b, h, c));
    assert(kept(c, w, h));
    lemma_kept_twice(b, c, w, h);
    lemma_kept_twice(v, b, w, h);
}

/// The directory that gets the entry answers every other name as before.
proof fn lemma_entry_names(
    v: Vol,
    b: Vol,
    c: Vol,
    w: Vol,
    fresh: InodeView,
    dir: InodeView,
    d2: InodeView,
    name: Seq<char>,
)
    requires
        sound(v),
        enrols(v, b, fresh),
        links(b, dir, c, d2, name, fresh.ino),
        fills_one(c, w, fresh.ino),
        tree(v, dir),
        inode(v, dir.ino) == Ok::<InodeView, FsError>(dir),
        numbered(v.fs, dir.ino),
        dir.ino != fresh.ino,
        dir_records(v, dir) is Ok,
    ensures
        inode(w, dir.ino) == Ok::<InodeView, FsError>(d2),
        d2.ino == dir.ino && d2.mode == dir.mode,
        dir_records(w, d2) is Ok,
        alike_but(dir_records(v, dir)->Ok_0, dir_records(w, d2)->Ok_0, name),
        forall|n: u32|
            numbered(v.fs, n) && n != dir.ino && n != fresh.ino ==> #[trigger] inode(w, n) == inode(v, n),
{
    assert(tree_same(v, dir, b) && tree(b, dir));
    lemma_records_same(v, b, dir, dir.size as int / 1024);
    assert(tree(c, d2));
    assert(kept(c, w, d2));
    lemma_records_same(c, w, d2, d2.size as int / 1024);
    assert(inode(w, dir.ino) == inode(c, dir.ino));
    assert forall|n: u32| numbered(v.fs, n) && n != dir.ino && n != fresh.ino implies #[trigger] inode(w, n) == inode(
        v,
        n,
    ) by {
        assert(inode(b, n) == inode(v, n));
        assert(inode(c, n) == inode(b, n));
    }
}

/// A path spared where a new inode was entered into a directory, and perhaps
/// written then.
proof fn lemma_entry_spares(
    v: Vol,
    path: Seq<char>,
    b: Vol,
    c: Vol,
    w: Vol,
    fresh: InodeView,
    d2: InodeView,
    other: Seq<char>,
)
    requires
        healthy(v, path),
        ready(v, path),
        parts(path).len() >= 1,
        node_at(v, path) == Ok::<Option<InodeView>, FsError>(None),
        makes(v, path, b, c, fresh, d2),
        fills_one(c, w, fresh.ino),
        healthy(v, other),
        node_at(v, other) is Ok,
        clear_of(v, other, home(v, path)),
        other_name(v, other, home(v, path), parts(path).last()),
        way_marked(v, other),
    ensures
        spares(v, w, other, home(v, path), d2),
        node_at(v, other) matches Ok(Some(k)) ==> k.is_dir() || kept(v, w, k),
{
    let ps = parts(path);
    let l = ps.len() - 1;
    let dir = home(v, path);
    assert(node_upto(v, ps, l) is Ok);
    lemma_node_is_inode(v, ps, l);
    assert(tree(v, dir));
    assert(ino_used(v, node_n(v, path, l).ino as int));
    assert(found(v, dir, ps.last()) == Ok::<Option<InodeView>, FsError>(None));
    lemma_entry_names(v, b, c, w, fresh, dir, d2, ps.last());
    let os = parts(other);
    assert forall|m: int| 0 <= m < os.len() && (#[trigger] node_n(v, other, m)).ino != dir.ino implies kept(
        v,
        w,
        node_n(v, other, m),
    ) by {
        assert(node_upto(v, os, m) is Ok);
        assert(tree(v, node_n(v, other, m)));
        lemma_entry_keeps(v, b, c, w, fresh, dir, d2, node_n(v, other, m));
    }
    assert forall|m: int|
        0 <= m <= os.len() && (#[trigger] node_upto(v, os, m)) is Ok && node_upto(v, os, m)->Ok_0 is Some && (node_upto(
            v,
            os,
            m,
        )->Ok_0->0).ino != dir.ino implies inode(w, (node_upto(v, os, m)->Ok_0->0).ino) == inode(
        v,
        (node_upto(v, os, m)->Ok_0->0).ino,
    ) by {
        lemma_node_is_inode(v, os, m);
        assert(ino_used(v, (node_upto(v, os, m)->Ok_0->0).ino as int));
    }
    if let Ok(Some(k)) = node_at(v, other) {
        assert(tree(v, k));
        if !k.is_dir() {
            lemma_entry_keeps(v, b, c, w, fresh, dir, d2, k);
        }
    }
}

/// What is asked of another path where a path gets a new entry: it shares no
/// block with the directory, does not name that, leads through it by another
/// name only, and its inodes are marked as taken.
pub open spec fn out_of_the_way(v: Vol, path: Seq<char>, other: Seq<char>) -> bool {
    &&& ready(v, path)
    &&& clear_of(v, other, home(v, path))
    &&& names_another(v, other, home(v, path))
    &&& other_name(v, other, home(v, path), parts(path).last())
    &&& way_marked(v, other)
}

/// A write to a new file.
proof fn lemma_new_file_spares(
    v: Vol,
    path: Seq<char>,
    off: int,
    data: Seq<u8>,
    other: Seq<char>,
    from: int,
    len: int,
)
    requires
        healthy(v, path),
        healthy(v, other),
        node_at(v, path) == Ok::<Option<InodeView>, FsError>(None),
        node_at(v, other) is Ok,
        out_of_the_way(v, path, other),
        0 <= off,
        0 <= from,
        written(v, path, off, data).r is Ok,
    ensures
        status(written(v, path, off, data).vol, other) == status(v, other),
        contents(written(v, path, off, data).vol, other, from, len) == contents(v, other, from, len),
{
    reveal(written);
    let ps = parts(path);
    let l = ps.len() - 1;
    lemma_dir_upto(v, path, l);
    assert(node_upto(v, ps, l) is Ok);
    let dir = home(v, path);
    lemma_node_is_inode(v, ps, l);
    lemma_enrolled(v);
    let num = inode_taken(v).r->Ok_0;
    let fresh = fresh_inode(num, MODE_REG);
    let b = with_inode(inode_taken(v).vol, fresh).vol;
    let d2 = lemma_entered(v, path, b, fresh);
    let c = name_added(b, dir, vstd::utf8::encode_utf8(ps.last()), num).vol;
    let o = file_made(v, dir, ps.last());
    assert(o.vol == c && o.r == Ok::<InodeView, FsError>(fresh));
    lemma_empty_tree(c, fresh);
    let w = written(v, path, off, data).vol;
    if data.len() == 0 {
        lemma_fills_none(c, num);
    } else {
        assert(w == file_written(c, fresh, off, data).vol);
        lemma_in_reach(c, fresh, off, data);
        lemma_file_written(c, fresh, off, data);
        let k = choose|k: InodeView|
            {
                &&& #[trigger] rewrites(c, fresh, w, k)
                &&& k.mode == fresh.mode
                &&& k.size == (if off + data.len() > fresh.size { off + data.len() } else { fresh.size as int })
                &&& file_part(w, k, off, data.len() as int) == Ok::<Seq<u8>, FsError>(data)
            };
        lemma_fills_one(c, w, fresh, k);
    }
    lemma_entry_spares(v, path, b, c, w, fresh, d2, other);
    lemma_spared(v, w, other, dir, d2, from, len);
}

/// A write to a file that is there.
proof fn lemma_old_file_spares(
    v: Vol,
    path: Seq<char>,
    off: int,
    data: Seq<u8>,
    other: Seq<char>,
    from: int,
    len: int,
    i: InodeView,
)
    requires
        healthy(v, path),
        healthy(v, other),
        node_at(v, path) == Ok::<Option<InodeView>, FsError>(Some(i)),
        node_at(v, other) is Ok,
        !i.is_dir(),
        names_another(v, other, i),
        clear_of(v, other, i),
        0 <= off,
        0 <= from,
        data.len() > 0,
        file_written(v, i, off, data).r is Ok,
    ensures
        status(file_written(v, i, off, data).vol, other) == status(v, other),
        contents(file_written(v, i, off, data).vol, other, from, len) == contents(v, other, from, len),
{
    let os = parts(other);
    lemma_node_is_inode(v, parts(path), parts(path).len() as int);
    lemma_in_reach(v, i, off, data);
    lemma_file_written(v, i, off, data);
    let w = file_written(v, i, off, data).vol;
    let k = choose|k: InodeView|
        {
            &&& #[trigger] rewrites(v, i, w, k)
            &&& k.mode == i.mode
            &&& k.size == (if off + data.len() > i.size { off + data.len() } else { i.size as int })
            &&& file_part(w, k, off, data.len() as int) == Ok::<Seq<u8>, FsError>(data)
        };
    assert forall|m: int| 0 <= m < os.len() implies (#[trigger] node_n(v, other, m)).ino != i.ino && kept(
        v,
        w,
        node_n(v, other, m),
    ) by {
        assert(node_upto(v, os, m) is Ok);
        lemma_node_is_inode(v, os, m);
        assert(tree(v, node_n(v, other, m)));
    }
    assert forall|m: int|
        0 <= m <= os.len() && (#[trigger] node_upto(v, os, m)) is Ok && node_upto(v, os, m)->Ok_0 is Some && (node_upto(
            v,
            os,
            m,
        )->Ok_0->0).ino != i.ino implies inode(w, (node_upto(v, os, m)->Ok_0->0).ino) == inode(
        v,
        (node_upto(v, os, m)->Ok_0->0).ino,
    ) by {
        lemma_node_is_inode(v, os, m);
    }
    if let Ok(Some(x)) = node_at(v, other) {
        assert(tree(v, x));
    }
    assert(spares(v, w, other, i, k));
    lemma_spared(v, w, other, i, k, from, len);
}

/// A write to a file, whether it was there before or not, leaves the status and
/// the contents of every other path as they were, as far as they share no block
/// with what is written. A directory that gets a new entry may grow.
pub proof fn law_write_spares_others(
    v: Vol,
    path: Seq<char>,
    off: int,
    data: Seq<u8>,
    other: Seq<char>,
    from: int,
    len: int,
)
    requires
        healthy(v, path),
        healthy(v, other),
        node_at(v, other) is Ok,
        node_at(v, path) matches Ok(Some(i)) ==> names_another(v, other, i) && clear_of(v, other, i),
        node_at(v, path) matches Ok(None) ==> out_of_the_way(v, path, other),
        0 <= off,
        0 <= from,
        written(v, path, off, data).r is Ok,
    ensures
        status(written(v, path, off, data).vol, other) == status(v, other),
        contents(written(v, path, off, data).vol, other, from, len) == contents(v, other, from, len),
{
    match node_at(v, path) {
        Ok(Some(i)) => {
            reveal(written);
            if data.len() > 0 {
                lemma_old_file_spares(v, path, off, data, other, from, len, i);
            }
        },
        Ok(None) => {
            lemma_new_file_spares(v, path, off, data, other, from, len);
        },
        Err(_) => {
            reveal(written);
        },
    }
}

/// Making a directory leaves the status and the contents of every other path as
/// they were, as far as they share no block with the one it is made in. That may
/// grow.
pub proof fn law_mkdir_spares_others(v: Vol, path: Seq<char>, other: Seq<char>, from: int, len: int)
    requires
        healthy(v, path),
        healthy(v, other),
        node_at(v, other) is Ok,
        out_of_the_way(v, path, other),
        0 <= from,
        dir_made_at(v, path).r is Ok,
    ensures
        status(dir_made_at(v, path).vol, other) == status(v, other),
        contents(dir_made_at(v, path).vol, other, from, len) == contents(v, other, from, len),
{
    reveal(dir_made_at);
    let ps = parts(path);
    let l = ps.len() - 1;
    lemma_dir_upto(v, path, l);
    assert(node_upto(v, ps, l) is Ok);
    let dir = home(v, path);
    lemma_node_is_inode(v, ps, l);
    assert(dir_made_at(v, path) == dir_made(v, dir, ps.last()));
    let t = inode_taken(v);
    let num = t.r->Ok_0;
    let e = ensured(t.vol, fresh_inode(num, MODE_DIR), 0);
    let (j, phys) = e.r->Ok_0;
    let w = with_block(e.vol, phys as int, new_dir_block(num, dir.ino)).vol;
    let y = with_inode(w, set_up(j)).vol;
    assert(e.r is Ok);
    assert(founds(v, dir.ino, t.vol, e.vol, j, phys, w, y));
    let td = lemma_founds(v, dir.ino, t.vol, e.vol, j, phys, w, y);
    lemma_founds_enrols(v, dir.ino, t.vol, e.vol, j, phys, w, y);
    assert(j.ino == num);
    let d2 = lemma_entered(v, path, y, set_up(j));
    let c = name_added(y, dir, vstd::utf8::encode_utf8(ps.last()), num).vol;
    assert(c == dir_made_at(v, path).vol);
    lemma_fills_none(c, num);
    lemma_entry_spares(v, path, y, c, c, set_up(j), d2, other);
    lemma_spared(v, c, other, dir, d2, from, len);
}

} // verus!
