//! Little-endian integer encoding and byte-buffer helpers shared by the DSU
//! and HID codecs.

use vstd::prelude::*;

verus! {

pub open spec fn le16(v: u16) -> Seq<u8> {
    seq![(v % 256) as u8, (v / 256) as u8]
}

pub open spec fn le32(v: u32) -> Seq<u8> {
    seq![
        (v % 256) as u8,
        ((v / 256) % 256) as u8,
        ((v / 65536) % 256) as u8,
        (v / 16777216) as u8,
    ]
}

pub open spec fn le64(v: u64) -> Seq<u8> {
    le32((v % 0x1_0000_0000) as u32) + le32((v / 0x1_0000_0000) as u32)
}

/// The little-endian `u16` stored at `s[i..i + 2]`.
pub open spec fn le_u16_at(s: Seq<u8>, i: int) -> u16 {
    (s[i] + 256 * s[i + 1]) as u16
}

/// The little-endian `u32` stored at `s[i..i + 4]`.
pub open spec fn le_u32_at(s: Seq<u8>, i: int) -> u32 {
    (s[i] + 256 * s[i + 1] + 65536 * s[i + 2] + 16777216 * s[i + 3]) as u32
}

/// The little-endian `u64` stored at `s[i..i + 8]`.
pub open spec fn le_u64_at(s: Seq<u8>, i: int) -> u64 {
    (le_u32_at(s, i) + 0x1_0000_0000 * le_u32_at(s, i + 4)) as u64
}

/// The little-endian two's-complement `i16` stored at `s[i..i + 2]`.
pub open spec fn le_i16_at(s: Seq<u8>, i: int) -> i16 {
    le_u16_at(s, i) as i16
}

/// `s` with `b` written over it from index `at` on; bytes past the end of
/// `s` are dropped.
pub open spec fn write_bytes(s: Seq<u8>, at: int, b: Seq<u8>) -> Seq<u8> {
    Seq::new(s.len(), |i: int| if at <= i < at + b.len() { b[i - at] } else { s[i] })
}

/// `n` zero bytes.
pub open spec fn zeros(n: nat) -> Seq<u8> {
    Seq::new(n, |i: int| 0u8)
}

/// A vector of `n` zero bytes.
pub fn zeroed(n: usize) -> (r: Vec<u8>)
    ensures
        r@ == zeros(n as nat),
{
    let mut r: Vec<u8> = Vec::new();
    let mut i: usize = 0;
    while i < n
        invariant
            0 <= i <= n,
            r@ == zeros(i as nat),
        decreases n - i,
    {
        r.push(0u8);
        i = i + 1;
        assert(r@ =~= zeros(i as nat));
    }
    r
}

/// Copies `b` into `out` from index `at` on.
pub fn put_bytes(out: &mut Vec<u8>, at: usize, b: &[u8])
    requires
        at + b@.len() <= old(out)@.len(),
    ensures
        final(out)@ == write_bytes(old(out)@, at as int, b@),
{
    let _len = out.len();
    let mut i: usize = 0;
    while i < b.len()
        invariant
            0 <= i <= b@.len(),
            at + b@.len() <= out@.len(),
            out@.len() <= usize::MAX,
            out@.len() == old(out)@.len(),
            out@ == write_bytes(old(out)@, at as int, b@.subrange(0, i as int)),
        decreases b@.len() - i,
    {
        out.set(at + i, b[i]);
        i = i + 1;
        assert(out@ =~= write_bytes(old(out)@, at as int, b@.subrange(0, i as int)));
    }
    assert(b@.subrange(0, i as int) =~= b@);
}

pub fn put_u16_le(out: &mut Vec<u8>, at: usize, v: u16)
    requires
        at + 2 <= old(out)@.len(),
    ensures
        final(out)@ == write_bytes(old(out)@, at as int, le16(v)),
{
    let _len = out.len();
    out.set(at, (v % 256) as u8);
    out.set(at + 1, (v / 256) as u8);
    assert(out@ =~= write_bytes(old(out)@, at as int, le16(v)));
}

pub fn put_u32_le(out: &mut Vec<u8>, at: usize, v: u32)
    requires
        at + 4 <= old(out)@.len(),
    ensures
        final(out)@ == write_bytes(old(out)@, at as int, le32(v)),
{
    let _len = out.len();
    out.set(at, (v % 256) as u8);
    out.set(at + 1, ((v / 256) % 256) as u8);
    out.set(at + 2, ((v / 65536) % 256) as u8);
    out.set(at + 3, (v / 16777216) as u8);
    assert(out@ =~= write_bytes(old(out)@, at as int, le32(v)));
}

pub fn push_u16_le(out: &mut Vec<u8>, v: u16)
    ensures
        final(out)@ == old(out)@ + le16(v),
{
    out.push((v % 256) as u8);
    out.push((v / 256) as u8);
    assert(out@ =~= old(out)@ + le16(v));
}

pub fn push_u32_le(out: &mut Vec<u8>, v: u32)
    ensures
        final(out)@ == old(out)@ + le32(v),
{
    out.push((v % 256) as u8);
    out.push(((v / 256) % 256) as u8);
    out.push(((v / 65536) % 256) as u8);
    out.push((v / 16777216) as u8);
    assert(out@ =~= old(out)@ + le32(v));
}

pub fn get_u16_le(data: &[u8], at: usize) -> (r: u16)
    requires
        at + 2 <= data@.len(),
    ensures
        r == le_u16_at(data@, at as int),
{
    data[at] as u16 + 256 * (data[at + 1] as u16)
}

pub fn get_u32_le(data: &[u8], at: usize) -> (r: u32)
    requires
        at + 4 <= data@.len(),
    ensures
        r == le_u32_at(data@, at as int),
{
    data[at] as u32 + 256 * (data[at + 1] as u32) + 65536 * (data[at + 2] as u32) + 16777216 * (
    data[at + 3] as u32)
}

pub fn get_u64_le(data: &[u8], at: usize) -> (r: u64)
    requires
        at + 8 <= data@.len(),
    ensures
        r == le_u64_at(data@, at as int),
{
    let _len = data.len();
    let lo = get_u32_le(data, at) as u64;
    let hi = get_u32_le(data, at + 4) as u64;
    lo + 0x1_0000_0000 * hi
}

pub fn get_i16_le(data: &[u8], at: usize) -> (r: i16)
    requires
        at + 2 <= data@.len(),
    ensures
        r == le_i16_at(data@, at as int),
{
    get_u16_le(data, at) as i16
}

/// Whether two byte strings are equal.
pub fn same_bytes(a: &[u8], b: &[u8]) -> (r: bool)
    ensures
        r == (a@ == b@),
{
    if a.len() != b.len() {
        return false;
    }
    let mut i: usize = 0;
    while i < a.len()
        invariant
            0 <= i <= a@.len(),
            a@.len() == b@.len(),
            forall|k: int| 0 <= k < i ==> a@[k] == b@[k],
        decreases a@.len() - i,
    {
        if a[i] != b[i] {
            return false;
        }
        i = i + 1;
    }
    assert(a@ =~= b@);
    true
}

} // verus!
