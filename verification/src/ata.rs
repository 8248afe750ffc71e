//! The ATA drive: identification, task-file registers and whole-sector
//! transfers.
//!
//! Port I/O happens outside. An [`AtaDrive`] holds the sectors fetched from the
//! drive for the work in progress and notes the ones written, in order; a read
//! of a sector that was not fetched yet says which one to fetch.
use crate::bytes::{copy_range, put_bytes, splice};
use crate::sectors::SectorMap;
use vstd::prelude::*;

verus! {

/// Bytes per sector.
pub const SECTOR_SIZE: usize = 512;
/// Highest block address of a 28-bit command.
pub const LBA28_MAX: u32 = 0x0FFF_FFFF;
/// Bound on polling loops.
pub const POLL_LIMIT: u32 = 4_000_000;

#[derive(Debug, Clone, Copy, PartialEq, Eq, Structural)]
pub enum AtaError {
    NoDrive,
    CommandFailed,
    Timeout,
    OutOfRange,
    /// The sector has to be fetched before the operation can go on.
    Pending(u32),
}

/// What IDENTIFY DEVICE says of the drive.
#[derive(Debug, Clone)]
pub struct DriveInfo {
    /// User-addressable sectors.
    pub total_sectors: u64,
    /// Model name, trimmed.
    pub model: String,
}

// ---------------------------------------------------------------------------
// IDENTIFY DEVICE
// ---------------------------------------------------------------------------

/// White space among the characters U+0000 to U+00FF.
pub open spec fn is_space(b: u8) -> bool {
    9 <= b <= 13 || b == 32 || b == 0x85 || b == 0xA0
}

/// The forty model characters: words 27 to 46, high byte first.
pub open spec fn model_bytes(id: Seq<u16>) -> Seq<u8> {
    Seq::new(
        40,
        |k: int|
            if k % 2 == 0 {
                (id[27 + k / 2] / 256) as u8
            } else {
                (id[27 + k / 2] % 256) as u8
            },
    )
}

/// `s` is `t` between white space, and has none at its own ends.
pub open spec fn is_trim_of(s: Seq<u8>, t: Seq<u8>) -> bool {
    exists|a: int, b: int|
        {
            &&& 0 <= a <= b <= t.len()
            &&& s == #[trigger] t.subrange(a, b)
            &&& forall|i: int| 0 <= i < a ==> is_space(#[trigger] t[i])
            &&& forall|i: int| b <= i < t.len() ==> is_space(#[trigger] t[i])
            &&& s.len() > 0 ==> !is_space(s[0]) && !is_space(s.last())
        }
}

/// Bytes as the characters U+0000 to U+00FF.
pub open spec fn latin1(s: Seq<u8>) -> Seq<char> {
    s.map_values(|b: u8| b as char)
}

/// Sectors with 28-bit commands: words 60 and 61.
pub open spec fn lba28_sectors(id: Seq<u16>) -> int {
    id[60] + 0x1_0000 * id[61]
}

/// Sectors with 48-bit commands: words 100 to 103.
pub open spec fn lba48_sectors(id: Seq<u16>) -> int {
    id[100] + 0x1_0000 * id[101] + 0x1_0000_0000 * id[102] + 0x1_0000_0000_0000 * id[103]
}

/// The sector count: 48-bit where supported and nonzero, else 28-bit.
pub open spec fn identified_sectors(id: Seq<u16>) -> int {
    if id[83] / 1024 % 2 == 1 && lba48_sectors(id) > 0 {
        lba48_sectors(id)
    } else {
        lba28_sectors(id)
    }
}

fn space(b: u8) -> (r: bool)
    ensures
        r == is_space(b),
{
    (9 <= b && b <= 13) || b == 32 || b == 0x85 || b == 0xA0
}

/// Trim white space off both ends.
fn trim(t: &Vec<u8>) -> (s: Vec<u8>)
    ensures
        is_trim_of(s@, t@),
{
    let n = t.len();
    let mut a: usize = 0;
    while a < n && space(t[a])
        invariant
            a <= n == t@.len(),
            forall|i: int| 0 <= i < a ==> is_space(#[trigger] t@[i]),
        decreases n - a,
    {
        a += 1;
    }
    let mut b: usize = n;
    while b > a && space(t[b - 1])
        invariant
            a <= b <= n == t@.len(),
            forall|i: int| b <= i < n ==> is_space(#[trigger] t@[i]),
        decreases b,
    {
        b -= 1;
    }
    let s = copy_range(t.as_slice(), a, b);
    assert(is_trim_of(s@, t@)) by {
        assert(s@ == t@.subrange(a as int, b as int));
    }
    s
}

/// Bytes as text, one character each.
fn latin1_text(s: &Vec<u8>) -> (r: String)
    ensures
        r@ == latin1(s@),
{
    let mut r = String::new();
    let mut k: usize = 0;
    while k < s.len()
        invariant
            k <= s@.len(),
            r@ == latin1(s@.take(k as int)),
        decreases s@.len() - k,
    {
        r.push(s[k] as char);
        k += 1;
        assert(r@ =~= latin1(s@.take(k as int)));
    }
    assert(s@.take(k as int) =~= s@);
    r
}

/// Decode the 256 words of IDENTIFY DEVICE.
pub fn identify(id: &Vec<u16>) -> (r: DriveInfo)
    requires
        id@.len() == 256,
    ensures
        r.total_sectors == identified_sectors(id@),
        exists|m: Seq<u8>| is_trim_of(m, model_bytes(id@)) && r.model@ == #[trigger] latin1(m),
{
    let lba28 = id[60] as u64 + 0x1_0000 * (id[61] as u64);
    let lba48 = id[100] as u64 + 0x1_0000 * (id[101] as u64) + 0x1_0000_0000 * (id[102] as u64)
        + 0x1_0000_0000_0000 * (id[103] as u64);
    let total_sectors = if id[83] / 1024 % 2 == 1 && lba48 > 0 {
        lba48
    } else {
        lba28
    };
    let mut bytes: Vec<u8> = Vec::new();
    let mut w: usize = 27;
    while w < 47
        invariant
            27 <= w <= 47,
            id@.len() == 256,
            bytes@ == model_bytes(id@).take(2 * (w - 27)),
        decreases 47 - w,
    {
        bytes.push((id[w] / 256) as u8);
        bytes.push((id[w] % 256) as u8);
        w += 1;
        assert(bytes@ =~= model_bytes(id@).take(2 * (w - 27)));
    }
    assert(bytes@ =~= model_bytes(id@));
    let t = trim(&bytes);
    let model = latin1_text(&t);
    DriveInfo { total_sectors, model }
}

// ---------------------------------------------------------------------------
// Status polling and probing
// ---------------------------------------------------------------------------

/// BSY is set.
pub open spec fn busy(st: u8) -> bool {
    st >= 0x80
}

/// ERR or DF is set.
pub open spec fn failed(st: u8) -> bool {
    st % 2 == 1 || st / 32 % 2 == 1
}

/// DRQ is set.
pub open spec fn requests_data(st: u8) -> bool {
    st / 8 % 2 == 1
}

/// One poll for data: ready, failed, or ask again.
pub fn wait_data_ready(st: u8) -> (r: Option<Result<(), AtaError>>)
    ensures
        r == if failed(st) {
            Some(Err::<(), AtaError>(AtaError::CommandFailed))
        } else if !busy(st) && requests_data(st) {
            Some(Ok::<(), AtaError>(()))
        } else {
            None
        },
{
    if st % 2 == 1 || st / 32 % 2 == 1 {
        Some(Err(AtaError::CommandFailed))
    } else if st < 0x80 && st / 8 % 2 == 1 {
        Some(Ok(()))
    } else {
        None
    }
}

/// One poll for idleness: `true` once the drive is not busy.
pub fn wait_not_busy(st: u8) -> (r: bool)
    ensures
        r == !busy(st),
{
    st < 0x80
}

/// What the drive answers to a probe: whether it got ready after selection and
/// after the command, the status after the command, and whether its data came.
#[derive(Debug, Clone, Copy)]
pub struct ProbeReplies {
    pub selected: bool,
    pub first_status: u8,
    pub command_done: bool,
    pub second_status: u8,
    pub data: Result<(), AtaError>,
}

/// The probe's verdict, in the order in which the replies come.
pub open spec fn probe_error(p: ProbeReplies) -> Option<AtaError> {
    if !p.selected {
        Some(AtaError::Timeout)
    } else if p.first_status == 0 {
        Some(AtaError::NoDrive)
    } else if !p.command_done {
        Some(AtaError::Timeout)
    } else if failed(p.second_status) {
        Some(AtaError::NoDrive)
    } else {
        match p.data {
            Err(e) => Some(e),
            Ok(_) => None,
        }
    }
}

/// The sectors of the drive that are in memory.
pub struct AtaDrive {
    sectors: SectorMap,
    written: Vec<u32>,
}

/// The bytes of `n` sectors of `m` from `lba` on.
pub open spec fn sector_bytes(m: Map<u32, Seq<u8>>, lba: u32, n: nat) -> Seq<u8> {
    Seq::new(512 * n, |k: int| m[(lba + k / 512) as u32][k % 512])
}

/// `m` with the `n` sectors from `lba` on replaced by `data`.
pub open spec fn with_sectors(m: Map<u32, Seq<u8>>, lba: u32, n: nat, data: Seq<u8>) -> Map<
    u32,
    Seq<u8>,
> {
    Map::new(
        |l: u32| m.contains_key(l) || lba <= l < lba + n,
        |l: u32|
            if lba <= l < lba + n {
                data.subrange(512 * (l - lba), 512 * (l - lba) + 512)
            } else {
                m[l]
            },
    )
}

/// The transfer stays within 28-bit addresses.
pub open spec fn in_range(lba: u32, count: u8) -> bool {
    lba + count - 1 <= LBA28_MAX
}

/// Every sector of the range is in `m`.
pub open spec fn all_in(m: Map<u32, Seq<u8>>, lba: u32, n: int) -> bool {
    forall|l: u32| lba <= l < lba + n ==> #[trigger] m.contains_key(l)
}

impl AtaDrive {
    pub closed spec fn view(&self) -> Map<u32, Seq<u8>> {
        self.sectors@
    }

    /// The sectors written, in order.
    pub closed spec fn log(&self) -> Seq<u32> {
        self.written@
    }

    pub closed spec fn wf(&self) -> bool {
        self.sectors.wf()
    }

    /// Every sector in memory has 512 bytes.
    pub proof fn lemma_wf(&self)
        requires
            self.wf(),
        ensures
            forall|l: u32| #[trigger] self@.contains_key(l) ==> self@[l].len() == 512,
    {
    }

    /// No sector fetched.
    pub fn empty() -> (r: AtaDrive)
        ensures
            r.wf(),
            r@ == Map::<u32, Seq<u8>>::empty(),
            r.log() == Seq::<u32>::empty(),
    {
        AtaDrive { sectors: SectorMap::new(), written: Vec::new() }
    }

    /// Probe the primary master: judge its replies and decode its 256 words.
    pub fn new_primary_master(replies: ProbeReplies, id: &Vec<u16>) -> (r: Result<
        (AtaDrive, DriveInfo),
        AtaError,
    >)
        requires
            id@.len() == 256,
        ensures
            match r {
                Err(e) => probe_error(replies) == Some(e),
                Ok((d, info)) => {
                    &&& probe_error(replies) is None
                    &&& d.wf()
                    &&& d@ == Map::<u32, Seq<u8>>::empty()
                    &&& d.log() == Seq::<u32>::empty()
                    &&& info.total_sectors == identified_sectors(id@)
                    &&& exists|m: Seq<u8>|
                        is_trim_of(m, model_bytes(id@)) && info.model@ == #[trigger] latin1(m)
                },
            },
    {
        if !replies.selected {
            return Err(AtaError::Timeout);
        }
        if replies.first_status == 0 {
            return Err(AtaError::NoDrive);
        }
        if !replies.command_done {
            return Err(AtaError::Timeout);
        }
        if replies.second_status % 2 == 1 || replies.second_status / 32 % 2 == 1 {
            return Err(AtaError::NoDrive);
        }
        match replies.data {
            Err(e) => Err(e),
            Ok(_) => Ok((AtaDrive::empty(), identify(id))),
        }
    }

    /// Hand in a sector fetched from the drive.
    pub fn stage(&mut self, lba: u32, data: Vec<u8>)
        requires
            old(self).wf(),
            data@.len() == 512,
        ensures
            final(self).wf(),
            final(self)@ == old(self)@.insert(lba, data@),
            final(self).log() == old(self).log(),
    {
        self.sectors.put(lba, data);
    }

    /// A sector's bytes, where it is in memory.
    pub fn sector(&self, lba: u32) -> (r: Option<Vec<u8>>)
        requires
            self.wf(),
        ensures
            match r {
                Some(d) => self@.contains_key(lba) && d@ == self@[lba],
                None => !self@.contains_key(lba),
            },
    {
        self.sectors.get(lba)
    }

    /// The sectors written since the last call, oldest first.
    pub fn take_written(&mut self) -> (r: Vec<u32>)
        requires
            old(self).wf(),
        ensures
            final(self).wf(),
            final(self)@ == old(self)@,
            r@ == old(self).log(),
            final(self).log() == Seq::<u32>::empty(),
    {
        let mut r: Vec<u32> = Vec::new();
        let mut k: usize = 0;
        while k < self.written.len()
            invariant
                k <= self.written@.len(),
                r@ == self.written@.take(k as int),
            decreases self.written@.len() - k,
        {
            r.push(self.written[k]);
            k += 1;
            assert(r@ =~= self.written@.take(k as int));
        }
        assert(self.written@.take(k as int) =~= self.written@);
        self.written = Vec::new();
        r
    }

    /// Read `count` sectors from `lba` on into `buf` at `at`.
    pub fn read_sectors_raw(&self, lba: u32, count: u8, buf: &mut [u8], at: usize) -> (r: Result<
        (),
        AtaError,
    >)
        requires
            self.wf(),
            count > 0,
            at + count * 512 <= old(buf)@.len(),
        ensures
            match r {
                Ok(_) => {
                    &&& in_range(lba, count)
                    &&& all_in(self@, lba, count as int)
                    &&& final(buf)@ == splice(
                        old(buf)@,
                        at as int,
                        sector_bytes(self@, lba, count as nat),
                    )
                },
                Err(AtaError::OutOfRange) => !in_range(lba, count) && final(buf)@ == old(buf)@,
                Err(AtaError::Pending(l)) => {
                    &&& in_range(lba, count)
                    &&& lba <= l < lba + count
                    &&& !self@.contains_key(l)
                    &&& all_in(self@, lba, l - lba)
                    &&& final(buf)@ == old(buf)@
                },
                Err(_) => false,
            },
    {
        let total = buf.len();
        if lba as u64 + count as u64 - 1 > LBA28_MAX as u64 {
            return Err(AtaError::OutOfRange);
        }
        let mut s: u32 = 0;
        while s < count as u32
            invariant
                s <= count,
                in_range(lba, count),
                all_in(self@, lba, s as int),
            decreases count - s,
        {
            if !self.sectors.has(lba + s) {
                return Err(AtaError::Pending(lba + s));
            }
            s += 1;
        }
        let ghost want = sector_bytes(self@, lba, count as nat);
        let mut k: usize = 0;
        assert(buf@ =~= splice(old(buf)@, at as int, want.take(0)));
        while k < count as usize
            invariant
                self.wf(),
                k <= count,
                total == buf@.len() == old(buf)@.len(),
                at + count * 512 <= total,
                in_range(lba, count),
                all_in(self@, lba, count as int),
                want == sector_bytes(self@, lba, count as nat),
                buf@ == splice(old(buf)@, at as int, want.take(512 * k)),
            decreases count - k,
        {
            let l = lba + k as u32;
            assert(self@.contains_key(l));
            match self.sectors.get(l) {
                Some(d) => {
                    let ghost before = buf@;
                    put_bytes(buf, at + 512 * k, d.as_slice());
                    assert(buf@ =~= splice(old(buf)@, at as int, want.take(512 * (k + 1)))) by {
                        assert forall|i: int| 512 * k <= i < 512 * (k + 1) implies want[i] == d@[i
                            - 512 * k] by {
                            assert(i / 512 == k && i % 512 == i - 512 * k);
                        }
                    }
                },
                None => {
                    return Err(AtaError::Pending(l));
                },
            }
            k += 1;
        }
        assert(want.take(512 * count) =~= want);
        Ok(())
    }

    /// Write `count` sectors from the front of `buf` to `lba` on.
    pub fn write_sectors_raw(&mut self, lba: u32, count: u8, buf: &[u8]) -> (r: Result<
        (),
        AtaError,
    >)
        requires
            old(self).wf(),
            count > 0,
            count * 512 <= buf@.len(),
        ensures
            final(self).wf(),
            match r {
                Ok(_) => {
                    &&& in_range(lba, count)
                    &&& final(self)@ == with_sectors(old(self)@, lba, count as nat, buf@)
                    &&& final(self).log() == old(self).log() + Seq::new(
                        count as nat,
                        |i: int| (lba + i) as u32,
                    )
                },
                Err(e) => e == AtaError::OutOfRange && !in_range(lba, count) && final(self)@
                    == old(self)@ && final(self).log() == old(self).log(),
            },
    {
        if lba as u64 + count as u64 - 1 > LBA28_MAX as u64 {
            return Err(AtaError::OutOfRange);
        }
        let mut k: usize = 0;
        let _n = buf.len();
        assert(self@ =~= with_sectors(old(self)@, lba, 0, buf@));
        assert(self.log() =~= old(self).log() + Seq::new(0, |i: int| (lba + i) as u32));
        while k < count as usize
            invariant
                self.wf(),
                k <= count,
                _n == buf@.len(),
                count * 512 <= buf@.len(),
                in_range(lba, count),
                self@ == with_sectors(old(self)@, lba, k as nat, buf@),
                self.log() == old(self).log() + Seq::new(k as nat, |i: int| (lba + i) as u32),
            decreases count - k,
        {
            let d = copy_range(buf, 512 * k, 512 * k + 512);
            let l = lba + k as u32;
            self.sectors.put(l, d);
            self.written.push(l);
            k += 1;
            assert(self@ =~= with_sectors(old(self)@, lba, k as nat, buf@));
            assert(self.log() =~= old(self).log() + Seq::new(
                k as nat,
                |i: int| (lba + i) as u32,
            ));
        }
        Ok(())
    }
}

// ---------------------------------------------------------------------------
// Registers and words
// ---------------------------------------------------------------------------

/// The registers of an LBA28 transfer.
#[derive(Debug, Clone, Copy, PartialEq, Eq, Structural)]
pub struct TaskFile {
    pub drive: u8,
    pub seccount: u8,
    pub lba_lo: u8,
    pub lba_mid: u8,
    pub lba_hi: u8,
}

/// The block address that the registers name.
pub open spec fn task_file_lba(t: TaskFile) -> int {
    t.lba_lo + 0x100 * t.lba_mid + 0x1_0000 * t.lba_hi + 0x100_0000 * (t.drive % 16)
}

/// The register values for a transfer of `count` sectors at `lba`: master
/// drive, LBA mode.
pub fn prepare_lba28(lba: u32, count: u8) -> (t: TaskFile)
    ensures
        t.drive / 16 == 0xE,
        t.seccount == count,
        task_file_lba(t) == lba as int % 0x1000_0000,
{
    let above_lo = lba / 0x100;
    let above_mid = above_lo / 0x100;
    let above_hi = above_mid / 0x100;
    let low = lba % 0x100;
    let mid = above_lo % 0x100;
    let hi = above_mid % 0x100;
    let top = above_hi % 16;
    assert(lba == low + 0x100 * mid + 0x1_0000 * hi + 0x100_0000 * top + 0x1000_0000 * (above_hi
        / 16));
    assert(0 <= low + 0x100 * mid + 0x1_0000 * hi + 0x100_0000 * top < 0x1000_0000);
    assert(lba as int % 0x1000_0000 == low + 0x100 * mid + 0x1_0000 * hi + 0x100_0000 * top);
    let drive = 0xE0 + top as u8;
    assert(drive % 16 == top && drive / 16 == 0xE);
    TaskFile {
        drive,
        seccount: count,
        lba_lo: low as u8,
        lba_mid: mid as u8,
        lba_hi: hi as u8,
    }
}

/// The bytes of data-port words, low byte first.
pub open spec fn words_as_bytes(ws: Seq<u16>) -> Seq<u8> {
    Seq::new(
        2 * ws.len(),
        |k: int|
            if k % 2 == 0 {
                (ws[k / 2] % 256) as u8
            } else {
                (ws[k / 2] / 256) as u8
            },
    )
}

/// The bytes of data-port words.
pub fn words_to_bytes(ws: &Vec<u16>) -> (r: Vec<u8>)
    ensures
        r@ == words_as_bytes(ws@),
{
    let mut r: Vec<u8> = Vec::new();
    let mut k: usize = 0;
    while k < ws.len()
        invariant
            k <= ws@.len(),
            r@ == words_as_bytes(ws@).take(2 * k),
        decreases ws@.len() - k,
    {
        r.push((ws[k] % 256) as u8);
        r.push((ws[k] / 256) as u8);
        k += 1;
        assert(r@ =~= words_as_bytes(ws@).take(2 * k));
    }
    assert(r@ =~= words_as_bytes(ws@));
    r
}

/// The data-port words of a sector's bytes.
pub fn bytes_to_words(b: &Vec<u8>) -> (r: Vec<u16>)
    requires
        b@.len() % 2 == 0,
    ensures
        r@.len() == b@.len() / 2,
        words_as_bytes(r@) == b@,
{
    let mut r: Vec<u16> = Vec::new();
    let len = b.len();
    let n = len / 2;
    let mut k: usize = 0;
    while k < n
        invariant
            k <= n,
            len == b@.len() == 2 * n,
            r@.len() == k,
            words_as_bytes(r@) == b@.take(2 * k),
        decreases n - k,
    {
        let ghost before = r@;
        r.push(b[2 * k] as u16 + 256 * (b[2 * k + 1] as u16));
        k += 1;
        assert(words_as_bytes(r@) =~= b@.take(2 * k)) by {
            assert forall|i: int| 0 <= i < 2 * (k - 1) implies words_as_bytes(r@)[i] == b@[i] by {
                assert(words_as_bytes(before)[i] == b@.take(2 * (k - 1))[i]);
                assert(r@[i / 2] == before[i / 2]);
            }
        }
    }
    assert(b@.take(2 * n) =~= b@);
    r
}

/// What was written is what a read gives back.
pub proof fn law_read_after_write(m: Map<u32, Seq<u8>>, lba: u32, n: nat, data: Seq<u8>)
    requires
        data.len() >= 512 * n,
        lba + n <= u32::MAX,
    ensures
        all_in(with_sectors(m, lba, n, data), lba, n as int),
        sector_bytes(with_sectors(m, lba, n, data), lba, n) == data.take(512 * n as int),
{
    let w = with_sectors(m, lba, n, data);
    assert forall|k: int| 0 <= k < 512 * n implies sector_bytes(w, lba, n)[k] == data[k] by {
        let l = (lba + k / 512) as u32;
        assert(lba <= l < lba + n);
        assert(w[l] == data.subrange(512 * (l - lba), 512 * (l - lba) + 512));
    }
    assert(sector_bytes(w, lba, n) =~= data.take(512 * n as int));
}

} // verus!
