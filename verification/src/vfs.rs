//! Types and paths that the file systems share.
use vstd::prelude::*;

use crate::ata::{all_in, in_range, sector_bytes, with_sectors, AtaDrive, AtaError, LBA28_MAX};
use crate::bytes::zeros;

verus! {

/// Why a file system operation failed.
#[derive(Clone, Copy, PartialEq, Eq, Debug, Structural)]
pub enum FsError {
    /// No such file or directory.
    NotFound,
    /// The name is taken.
    Exists,
    /// The operation or the name is not supported.
    NotSupported,
    /// The volume is full.
    NoSpace,
    /// The volume is damaged.
    BadFs,
    /// The path names a directory.
    IsDir,
    /// The disk failed.
    Io(AtaError),
}

/// One line of a directory listing.
#[derive(Debug)]
pub struct DirEntry {
    pub name: String,
    pub size: u64,
    pub is_dir: bool,
}

/// What `stat` tells of a path.
#[derive(Clone, Copy, PartialEq, Eq, Debug, Structural)]
pub struct FileStat {
    pub size: u64,
    pub is_dir: bool,
}

/// A line of a listing in mathematical terms.
pub struct Line {
    pub name: Seq<char>,
    pub size: u64,
    pub is_dir: bool,
}

/// The lines in mathematical terms.
pub open spec fn lines_view(v: Seq<DirEntry>) -> Seq<Line> {
    Seq::new(v.len(), |i: int| Line { name: v[i].name@, size: v[i].size, is_dir: v[i].is_dir })
}

/// The listing in mathematical terms.
pub open spec fn listing_view(r: Result<Vec<DirEntry>, FsError>) -> Result<Seq<Line>, FsError> {
    match r {
        Ok(v) => Ok(lines_view(v@)),
        Err(e) => Err(e),
    }
}

// ---------------------------------------------------------------------------
// The disk under a file system
// ---------------------------------------------------------------------------

/// The sectors at hand and the log of those written.
#[verifier::ext_equal]
pub struct Disk {
    pub sectors: Map<u32, Seq<u8>>,
    pub log: Seq<u32>,
}

/// The drive as a file system sees it.
pub open spec fn disk(dev: AtaDrive) -> Disk {
    Disk { sectors: dev@, log: dev.log() }
}

/// The disk after an operation, and what the operation answered.
pub struct Out<T> {
    pub disk: Disk,
    pub r: Result<T, FsError>,
}

/// The transfer that an address asks for can be made: it starts below 2^28.
pub open spec fn reachable(lba: int, n: u8) -> bool {
    0 <= lba <= u32::MAX && in_range(lba as u32, n)
}

/// Sector `l` is the first of the range that is not at hand.
pub open spec fn is_first_absent(m: Map<u32, Seq<u8>>, lba: u32, n: int, l: u32) -> bool {
    &&& lba <= l < lba + n
    &&& !m.contains_key(l)
    &&& all_in(m, lba, l - lba)
}

/// The first sector of the range that is not at hand.
pub open spec fn first_absent(m: Map<u32, Seq<u8>>, lba: u32, n: int) -> u32 {
    choose|l: u32| #[trigger] is_first_absent(m, lba, n, l)
}

/// The bytes of `n` sectors from `lba` on; where some are not at hand, the
/// first of them is asked for.
#[verifier::opaque]
pub open spec fn fetched(d: Disk, lba: int, n: u8) -> Result<Seq<u8>, FsError> {
    if !reachable(lba, n) {
        Err(FsError::Io(AtaError::OutOfRange))
    } else if all_in(d.sectors, lba as u32, n as int) {
        Ok(sector_bytes(d.sectors, lba as u32, n as nat))
    } else {
        Err(FsError::Io(AtaError::Pending(first_absent(d.sectors, lba as u32, n as int))))
    }
}

/// Sectors at hand are given.
pub proof fn lemma_fetched(d: Disk, lba: int, n: u8)
    requires
        reachable(lba, n),
        forall|l: u32| lba <= l < lba + n ==> #[trigger] d.sectors.contains_key(l),
    ensures
        fetched(d, lba, n) == Ok::<Seq<u8>, FsError>(sector_bytes(d.sectors, lba as u32, n as nat)),
{
    reveal(fetched);
}

/// The disk with `n` sectors from `lba` on replaced.
pub open spec fn stored(d: Disk, lba: int, n: u8, data: Seq<u8>) -> Out<()> {
    if reachable(lba, n) {
        Out {
            disk: Disk {
                sectors: with_sectors(d.sectors, lba as u32, n as nat, data),
                log: d.log + Seq::new(n as nat, |i: int| (lba as u32 + i) as u32),
            },
            r: Ok(()),
        }
    } else {
        Out { disk: d, r: Err(FsError::Io(AtaError::OutOfRange)) }
    }
}

/// The operation says that it waits for a sector.
pub open spec fn is_pending<T>(r: Result<T, FsError>) -> bool {
    r matches Err(FsError::Io(AtaError::Pending(_)))
}

/// Where the operation waits for a sector, that is one which the drive has and
/// which is not at hand.
pub open spec fn waits<T>(d: Disk, r: Result<T, FsError>) -> bool {
    r matches Err(FsError::Io(AtaError::Pending(l))) ==> l <= LBA28_MAX && !d.sectors.contains_key(l)
}

/// Every sector that a drive can address is at hand.
pub open spec fn complete(d: Disk) -> bool {
    forall|l: u32| l <= LBA28_MAX ==> #[trigger] d.sectors.contains_key(l)
}

/// With every sector at hand no operation waits.
pub proof fn law_complete_disk_answers<T>(d: Disk, r: Result<T, FsError>)
    requires
        complete(d),
        waits(d, r),
    ensures
        !is_pending(r),
{
}

/// No sector at hand was dropped.
pub open spec fn only_grew(a: Disk, b: Disk) -> bool {
    forall|l: u32| a.sectors.contains_key(l) ==> #[trigger] b.sectors.contains_key(l)
}

/// Sector `l` was logged since the log had `from` entries.
pub open spec fn logged(d: Disk, from: int, l: u32) -> bool {
    exists|k: int| from <= k < d.log.len() && #[trigger] d.log[k] == l
}

/// The sector is as it was.
pub open spec fn sector_kept(a: Disk, b: Disk, l: u32) -> bool {
    a.sectors.contains_key(l) == b.sectors.contains_key(l) && (a.sectors.contains_key(l) ==> a.sectors[l]
        == b.sectors[l])
}

/// The log tells what changed: it goes on from the old one, a sector that it
/// does not add is as it was, and none is dropped.
#[verifier::opaque]
pub open spec fn traced(a: Disk, b: Disk) -> bool {
    &&& only_grew(a, b)
    &&& a.log.len() <= b.log.len()
    &&& forall|k: int| 0 <= k < a.log.len() ==> #[trigger] b.log[k] == a.log[k]
    &&& forall|l: u32|
        !#[trigger] logged(b, a.log.len() as int, l) ==> sector_kept(a, b, l)
}

/// No sector at hand was dropped.
pub proof fn lemma_traced_grew(a: Disk, b: Disk)
    requires
        traced(a, b),
    ensures
        only_grew(a, b),
{
    reveal(traced);
}

/// Nothing changed.
pub broadcast proof fn lemma_traced_same(a: Disk)
    ensures
        #[trigger] traced(a, a),
{
    reveal(traced);
}

/// What two operations after each other change is what their logs say.
pub broadcast proof fn lemma_traced_on(a: Disk, b: Disk, c: Disk)
    requires
        #[trigger] traced(a, b),
        #[trigger] traced(b, c),
    ensures
        traced(a, c),
{
    reveal(traced);
    assert forall|l: u32| a.sectors.contains_key(l) implies #[trigger] c.sectors.contains_key(l) by {
        assert(b.sectors.contains_key(l));
    }
    assert forall|k: int| 0 <= k < a.log.len() implies #[trigger] c.log[k] == a.log[k] by {
        assert(b.log[k] == a.log[k]);
    }
    assert forall|l: u32| !#[trigger] logged(c, a.log.len() as int, l) implies sector_kept(a, c, l) by {
        if logged(b, a.log.len() as int, l) {
            let k = choose|k: int| a.log.len() <= k < b.log.len() && #[trigger] b.log[k] == l;
            assert(c.log[k] == l);
        }
        if logged(c, b.log.len() as int, l) {
            let k = choose|k: int| b.log.len() <= k < c.log.len() && #[trigger] c.log[k] == l;
            assert(c.log[k] == l);
        }
    }
}

/// A transfer to the drive is logged.
pub proof fn lemma_stored_traced(d: Disk, lba: int, n: u8, data: Seq<u8>)
    ensures
        traced(d, stored(d, lba, n, data).disk),
{
    reveal(traced);
    let e = stored(d, lba, n, data).disk;
    if reachable(lba, n) {
        assert forall|l: u32| !#[trigger] logged(e, d.log.len() as int, l) implies sector_kept(d, e, l) by {
            if lba <= l < lba + n {
                assert(e.log[d.log.len() + (l - lba)] == l);
            }
        }
    }
}

/// The read answered what `want` says.
pub open spec fn reads<T>(d: Disk, r: Result<T, FsError>, want: Result<T, FsError>) -> bool {
    r == want && waits(d, r)
}

/// The operation failed, as `ok` says.
pub open spec fn fails_as<T>(d: Disk, r: Result<T, FsError>, ok: bool) -> bool {
    ok && waits(d, r)
}

/// The operation did what `want` says, and its log tells what it changed.
pub open spec fn does<T>(before: Disk, after: Disk, r: Result<T, FsError>, want: Out<T>) -> bool {
    after == want.disk && r == want.r && waits(before, r) && traced(before, after)
}

/// Read `n` sectors from `lba` on.
pub fn fetch(dev: &AtaDrive, lba: u64, n: u8) -> (r: Result<Vec<u8>, FsError>)
    requires
        dev.wf(),
        n > 0,
    ensures
        match r {
            Ok(v) => fetched(disk(*dev), lba as int, n) == Ok::<Seq<u8>, FsError>(v@) && v@.len() == 512 * n,
            Err(e) => fetched(disk(*dev), lba as int, n) == Err::<Seq<u8>, FsError>(e),
        },
        r matches Err(FsError::Io(AtaError::Pending(l))) ==> lba <= l < lba + n && !dev@.contains_key(l),
        reachable(lba as int, n) && all_in(dev@, lba as u32, n as int) ==> r is Ok,
        waits(disk(*dev), r),
{
    proof {
        reveal(fetched);
    }
    if lba > 0xFFFF_FFFF {
        return Err(FsError::Io(AtaError::OutOfRange));
    }
    let mut v = zeros(512 * n as usize);
    match dev.read_sectors_raw(lba as u32, n, v.as_mut_slice(), 0) {
        Err(e) => {
            proof {
                if let AtaError::Pending(l) = e {
                    assert(is_first_absent(dev@, lba as u32, n as int, l));
                    let k = first_absent(dev@, lba as u32, n as int);
                    assert(k == l) by {
                        if k < l {
                            assert(dev@.contains_key(k));
                        } else if l < k {
                            assert(dev@.contains_key(l));
                        }
                    }
                    assert(!all_in(dev@, lba as u32, n as int));
                }
            }
            Err(FsError::Io(e))
        },
        Ok(_) => {
            assert(v@ =~= sector_bytes(dev@, lba as u32, n as nat));
            Ok(v)
        },
    }
}

/// Write `n` sectors from `lba` on.
pub fn store(dev: &mut AtaDrive, lba: u64, n: u8, data: &Vec<u8>) -> (r: Result<(), FsError>)
    requires
        old(dev).wf(),
        n > 0,
        data@.len() >= 512 * n,
    ensures
        final(dev).wf(),
        disk(*final(dev)) == stored(disk(*old(dev)), lba as int, n, data@).disk,
        r == stored(disk(*old(dev)), lba as int, n, data@).r,
        traced(disk(*old(dev)), disk(*final(dev))),
{
    proof {
        lemma_stored_traced(disk(*dev), lba as int, n, data@);
    }
    if lba > 0xFFFF_FFFF {
        return Err(FsError::Io(AtaError::OutOfRange));
    }
    match dev.write_sectors_raw(lba as u32, n, data.as_slice()) {
        Err(e) => Err(FsError::Io(e)),
        Ok(_) => Ok(()),
    }
}

// ---------------------------------------------------------------------------
// Paths
// ---------------------------------------------------------------------------

/// The components of `s` from `i` on, where `start` is where the current one
/// begins. Empty ones are left out.
pub open spec fn components(s: Seq<char>, start: int, i: int) -> Seq<Seq<char>>
    decreases s.len() - i,
{
    let done = if start < i {
        seq![s.subrange(start, i)]
    } else {
        Seq::empty()
    };
    if i >= s.len() {
        done
    } else if s[i] == '/' {
        done + components(s, i + 1, i + 1)
    } else {
        components(s, start, i + 1)
    }
}

/// `.` or `..`.
pub open spec fn is_dots(c: Seq<char>) -> bool {
    c == seq!['.'] || c == seq!['.', '.']
}

/// The components of an absolute path without `.` and `..`.
pub open spec fn path_parts(p: Seq<char>) -> Option<Seq<Seq<char>>> {
    if p.len() == 0 || p[0] != '/' || (exists|k: int|
        0 <= k < components(p, 1, 1).len() && is_dots(#[trigger] components(p, 1, 1)[k])) {
        None
    } else {
        Some(components(p, 1, 1))
    }
}

/// The characters of each name.
pub open spec fn names(v: Seq<Vec<char>>) -> Seq<Seq<char>> {
    Seq::new(v.len(), |i: int| v[i]@)
}

/// The characters of a text.
pub fn chars_of(s: &str) -> (r: Vec<char>)
    ensures
        r@ == s@,
{
    let n = s.unicode_len();
    let mut r: Vec<char> = Vec::new();
    let mut i: usize = 0;
    while i < n
        invariant
            n == s@.len(),
            i <= n,
            r@ == s@.take(i as int),
        decreases n - i,
    {
        r.push(s.get_char(i));
        i += 1;
        assert(r@ =~= s@.take(i as int));
    }
    assert(s@.take(n as int) =~= s@);
    r
}

/// The text of some characters.
pub fn text_of(v: &Vec<char>) -> (r: String)
    ensures
        r@ == v@,
{
    let mut r = String::new();
    let mut i: usize = 0;
    while i < v.len()
        invariant
            i <= v@.len(),
            r@ == v@.take(i as int),
        decreases v@.len() - i,
    {
        r.push(v[i]);
        i += 1;
        assert(r@ =~= v@.take(i as int));
    }
    assert(v@.take(v@.len() as int) =~= v@);
    r
}

/// A copy of the characters `from..to`.
pub fn piece(s: &Vec<char>, from: usize, to: usize) -> (r: Vec<char>)
    requires
        from <= to <= s@.len(),
    ensures
        r@ == s@.subrange(from as int, to as int),
{
    let mut r: Vec<char> = Vec::new();
    let mut k: usize = from;
    while k < to
        invariant
            from <= k <= to <= s@.len(),
            r@ == s@.subrange(from as int, k as int),
        decreases to - k,
    {
        r.push(s[k]);
        k += 1;
        assert(r@ =~= s@.subrange(from as int, k as int));
    }
    r
}

/// Is it `.` or `..`?
pub fn dots(c: &Vec<char>) -> (r: bool)
    ensures
        r == is_dots(c@),
{
    let n = c.len();
    let r = (n == 1 && c[0] == '.') || (n == 2 && c[0] == '.' && c[1] == '.');
    proof {
        if r {
            assert(c@ =~= seq!['.'] || c@ =~= seq!['.', '.']);
        }
    }
    r
}

/// Split an absolute path into its components; empty ones are dropped, and a
/// path that is not absolute or holds `.` or `..` is refused.
pub fn split_path(path: &str) -> (r: Option<Vec<Vec<char>>>)
    ensures
        match r {
            None => path_parts(path@) is None,
            Some(v) => path_parts(path@) == Some(names(v@)),
        },
{
    let s = chars_of(path);
    let n = s.len();
    if n == 0 || s[0] != '/' {
        return None;
    }
    let mut out: Vec<Vec<char>> = Vec::new();
    let mut start: usize = 1;
    let mut i: usize = 1;
    assert(names(out@) + components(s@, 1, 1) =~= components(s@, 1, 1));
    while i < n
        invariant
            n == s@.len(),
            s@ == path@,
            1 <= start <= i <= n,
            components(s@, 1, 1) == names(out@) + components(s@, start as int, i as int),
        decreases n - i,
    {
        if s[i] == '/' {
            let ghost before = names(out@);
            if start < i {
                let p = piece(&s, start, i);
                out.push(p);
                assert(names(out@) =~= before.push(s@.subrange(start as int, i as int)));
            }
            assert(components(s@, 1, 1) =~= names(out@) + components(s@, i + 1, i + 1));
            start = i + 1;
        }
        i += 1;
    }
    let ghost before = names(out@);
    if start < n {
        let p = piece(&s, start, n);
        out.push(p);
        assert(names(out@) =~= before.push(s@.subrange(start as int, n as int)));
    }
    assert(components(s@, 1, 1) =~= names(out@));
    let mut k: usize = 0;
    while k < out.len()
        invariant
            k <= out@.len(),
            s@ == path@,
            s@.len() > 0,
            components(s@, 1, 1) == names(out@),
            forall|j: int| 0 <= j < k ==> !is_dots(#[trigger] names(out@)[j]),
        decreases out@.len() - k,
    {
        if dots(&out[k]) {
            assert(is_dots(names(out@)[k as int]));
            return None;
        }
        k += 1;
    }
    Some(out)
}

/// ASCII letters in lower case, everything else as it is.
pub open spec fn folded(c: char) -> int {
    let u = c as u32;
    if 65 <= u <= 90 {
        u + 32
    } else {
        u as int
    }
}

/// Equal but for the case of ASCII letters.
pub open spec fn same_name(a: Seq<char>, b: Seq<char>) -> bool {
    a.len() == b.len() && forall|i: int|
        0 <= i < a.len() ==> folded(#[trigger] a[i]) == folded(b[i])
}

fn fold(c: char) -> (r: u32)
    ensures
        r == folded(c),
{
    let u = c as u32;
    if 65 <= u && u <= 90 {
        u + 32
    } else {
        u
    }
}

/// Equal but for the case of ASCII letters?
pub fn names_match(a: &Vec<char>, b: &Vec<char>) -> (r: bool)
    ensures
        r == same_name(a@, b@),
{
    if a.len() != b.len() {
        return false;
    }
    let mut i: usize = 0;
    while i < a.len()
        invariant
            i <= a@.len(),
            a@.len() == b@.len(),
            forall|k: int| 0 <= k < i ==> folded(#[trigger] a@[k]) == folded(b@[k]),
        decreases a@.len() - i,
    {
        if fold(a[i]) != fold(b[i]) {
            assert(folded(a@[i as int]) != folded(b@[i as int]));
            return false;
        }
        i += 1;
    }
    true
}

} // verus!
