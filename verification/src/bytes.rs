//! Little- and big-endian fields in byte buffers.
use vstd::prelude::*;

verus! {

/// The 16-bit little-endian field at `i`.
pub open spec fn le16(s: Seq<u8>, i: int) -> int {
    s[i] + 0x100 * s[i + 1]
}

/// The 32-bit little-endian field at `i`.
pub open spec fn le32(s: Seq<u8>, i: int) -> int {
    s[i] + 0x100 * s[i + 1] + 0x1_0000 * s[i + 2] + 0x100_0000 * s[i + 3]
}

/// The 64-bit little-endian field at `i`.
pub open spec fn le64(s: Seq<u8>, i: int) -> int {
    le32(s, i) + 0x1_0000_0000 * le32(s, i + 4)
}

/// The four bytes of `v`, least significant first.
pub open spec fn le32_bytes(v: int) -> Seq<u8> {
    seq![
        (v % 0x100) as u8,
        (v / 0x100 % 0x100) as u8,
        (v / 0x1_0000 % 0x100) as u8,
        (v / 0x100_0000 % 0x100) as u8,
    ]
}

/// The two bytes of `v`, least significant first.
pub open spec fn le16_bytes(v: int) -> Seq<u8> {
    seq![(v % 0x100) as u8, (v / 0x100 % 0x100) as u8]
}

/// The eight bytes of `v`, least significant first.
pub open spec fn le64_bytes(v: int) -> Seq<u8> {
    le32_bytes(v % 0x1_0000_0000) + le32_bytes(v / 0x1_0000_0000)
}

/// `s` with the bytes from `at` on replaced by `d`.
pub open spec fn splice(s: Seq<u8>, at: int, d: Seq<u8>) -> Seq<u8> {
    Seq::new(
        s.len(),
        |k: int|
            if at <= k < at + d.len() {
                d[k - at]
            } else {
                s[k]
            },
    )
}

/// Reading a field back after writing it gives the value written.
pub proof fn law_le32_roundtrip(s: Seq<u8>, i: int, v: u32)
    requires
        0 <= i,
        i + 4 <= s.len(),
    ensures
        le32(splice(s, i, le32_bytes(v as int)), i) == v,
{
}

pub proof fn law_le16_roundtrip(s: Seq<u8>, i: int, v: u16)
    requires
        0 <= i,
        i + 2 <= s.len(),
    ensures
        le16(splice(s, i, le16_bytes(v as int)), i) == v,
{
}

pub proof fn law_le64_roundtrip(s: Seq<u8>, i: int, v: u64)
    requires
        0 <= i,
        i + 8 <= s.len(),
    ensures
        le64(splice(s, i, le64_bytes(v as int)), i) == v,
{
    let t = splice(s, i, le64_bytes(v as int));
    let lo = (v as int % 0x1_0000_0000) as u32;
    let hi = (v as int / 0x1_0000_0000) as u32;
    law_le32_roundtrip(s, i, lo);
    law_le32_roundtrip(s, i + 4, hi);
    let a = splice(s, i, le32_bytes(lo as int));
    let b = splice(s, i + 4, le32_bytes(hi as int));
    assert(t[i] == a[i] && t[i + 1] == a[i + 1] && t[i + 2] == a[i + 2] && t[i + 3] == a[i + 3]);
    assert(t[i + 4] == b[i + 4] && t[i + 5] == b[i + 5] && t[i + 6] == b[i + 6] && t[i + 7]
        == b[i + 7]);
    assert(le32(t, i) == le32(a, i));
    assert(le32(t, i + 4) == le32(b, i + 4));
}

pub fn get_u16(s: &[u8], i: usize) -> (r: u16)
    requires
        i + 2 <= s@.len(),
    ensures
        r == le16(s@, i as int),
{
    s[i] as u16 + 0x100 * (s[i + 1] as u16)
}

pub fn get_u32(s: &[u8], i: usize) -> (r: u32)
    requires
        i + 4 <= s@.len(),
    ensures
        r == le32(s@, i as int),
{
    s[i] as u32 + 0x100 * (s[i + 1] as u32) + 0x1_0000 * (s[i + 2] as u32) + 0x100_0000 * (
    s[i + 3] as u32)
}

pub fn get_u64(s: &[u8], i: usize) -> (r: u64)
    requires
        i + 8 <= s@.len(),
    ensures
        r == le64(s@, i as int),
{
    let n = s.len();
    get_u32(s, i) as u64 + 0x1_0000_0000 * (get_u32(s, i + 4) as u64)
}

pub fn put_u16(s: &mut [u8], i: usize, v: u16)
    requires
        i + 2 <= old(s)@.len(),
    ensures
        final(s)@ == splice(old(s)@, i as int, le16_bytes(v as int)),
{
    s[i] = (v % 0x100) as u8;
    s[i + 1] = (v / 0x100 % 0x100) as u8;
}

pub fn put_u32(s: &mut [u8], i: usize, v: u32)
    requires
        i + 4 <= old(s)@.len(),
    ensures
        final(s)@ == splice(old(s)@, i as int, le32_bytes(v as int)),
{
    s[i] = (v % 0x100) as u8;
    s[i + 1] = (v / 0x100 % 0x100) as u8;
    s[i + 2] = (v / 0x1_0000 % 0x100) as u8;
    s[i + 3] = (v / 0x100_0000 % 0x100) as u8;
}

pub fn put_u64(s: &mut [u8], i: usize, v: u64)
    requires
        i + 8 <= old(s)@.len(),
    ensures
        final(s)@ == splice(old(s)@, i as int, le64_bytes(v as int)),
{
    let n = s.len();
    put_u32(s, i, (v % 0x1_0000_0000) as u32);
    put_u32(s, i + 4, (v / 0x1_0000_0000) as u32);
}

/// Copy `d` over the bytes of `s` that start at `at`.
pub fn put_bytes(s: &mut [u8], at: usize, d: &[u8])
    requires
        at + d@.len() <= old(s)@.len(),
    ensures
        final(s)@ == splice(old(s)@, at as int, d@),
{
    let n = d.len();
    let total = s.len();
    let mut k: usize = 0;
    while k < n
        invariant
            n == d@.len(),
            at + n <= total,
            total == s@.len() == old(s)@.len(),
            k <= n,
            s@ == splice(old(s)@, at as int, d@.take(k as int)),
        decreases n - k,
    {
        s[at + k] = d[k];
        k += 1;
    }
    assert(d@.take(n as int) =~= d@);
}

/// A fresh copy of `s[from..to]`.
pub fn copy_range(s: &[u8], from: usize, to: usize) -> (r: Vec<u8>)
    requires
        from <= to <= s@.len(),
    ensures
        r@ == s@.subrange(from as int, to as int),
{
    let mut r: Vec<u8> = Vec::new();
    let mut k: usize = from;
    while k < to
        invariant
            from <= k <= to <= s@.len(),
            r@ == s@.subrange(from as int, k as int),
        decreases to - k,
    {
        r.push(s[k]);
        k += 1;
    }
    r
}

/// `n` zero bytes.
pub fn zeros(n: usize) -> (r: Vec<u8>)
    ensures
        r@ == Seq::new(n as nat, |i: int| 0u8),
{
    let mut r: Vec<u8> = Vec::new();
    let mut k: usize = 0;
    while k < n
        invariant
            k <= n,
            r@ == Seq::new(k as nat, |i: int| 0u8),
        decreases n - k,
    {
        r.push(0);
        k += 1;
    }
    r
}

/// Whether two buffers hold the same bytes.
pub fn same_bytes(a: &[u8], b: &[u8]) -> (r: bool)
    ensures
        r == (a@ == b@),
{
    if a.len() != b.len() {
        return false;
    }
    let mut k: usize = 0;
    while k < a.len()
        invariant
            a@.len() == b@.len(),
            k <= a@.len(),
            forall|j: int| 0 <= j < k ==> a@[j] == b@[j],
        decreases a@.len() - k,
    {
        if a[k] != b[k] {
            return false;
        }
        k += 1;
    }
    assert(a@ =~= b@);
    true
}

} // verus!
