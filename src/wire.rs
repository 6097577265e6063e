//! Fixed-width integers read out of byte buffers.
use vstd::prelude::*;

verus! {

/// The little-endian `u32` stored at `d[i..i + 4]`.
#[verifier::opaque]
pub open spec fn le32(d: Seq<u8>, i: int) -> int {
    d[i] as int + d[i + 1] as int * 0x100 + d[i + 2] as int * 0x1_0000 + d[i + 3] as int
        * 0x100_0000
}

/// The little-endian `u64` stored at `d[i..i + 8]`.
pub open spec fn le64(d: Seq<u8>, i: int) -> int {
    le32(d, i) + le32(d, i + 4) * 0x1_0000_0000
}

/// The big-endian `u32` stored at `d[i..i + 4]`.
#[verifier::opaque]
pub open spec fn be32(d: Seq<u8>, i: int) -> int {
    d[i] as int * 0x100_0000 + d[i + 1] as int * 0x1_0000 + d[i + 2] as int * 0x100 + d[i
        + 3] as int
}

/// The big-endian `u64` stored at `d[i..i + 8]`.
pub open spec fn be64(d: Seq<u8>, i: int) -> int {
    be32(d, i) * 0x1_0000_0000 + be32(d, i + 4)
}

pub proof fn lemma_le32_bound(d: Seq<u8>, i: int)
    requires
        0 <= i && i + 4 <= d.len(),
    ensures
        0 <= le32(d, i) < 0x1_0000_0000,
{
    reveal(le32);
}

pub proof fn lemma_be32_bound(d: Seq<u8>, i: int)
    requires
        0 <= i && i + 4 <= d.len(),
    ensures
        0 <= be32(d, i) < 0x1_0000_0000,
{
    reveal(be32);
}

pub proof fn lemma_le64_bound(d: Seq<u8>, i: int)
    requires
        0 <= i && i + 8 <= d.len(),
    ensures
        0 <= le64(d, i) < 0x1_0000_0000_0000_0000,
{
    lemma_le32_bound(d, i);
    lemma_le32_bound(d, i + 4);
    let lo = le32(d, i);
    let hi = le32(d, i + 4);
    assert(0 <= hi * 0x1_0000_0000 + lo < 0x1_0000_0000_0000_0000) by (nonlinear_arith)
        requires
            0 <= hi < 0x1_0000_0000,
            0 <= lo < 0x1_0000_0000,
    ;
}

/// Reads the little-endian `u32` at `d[i..i + 4]`.
pub fn le_u32(d: &[u8], i: usize) -> (r: u32)
    requires
        i + 4 <= d@.len(),
    ensures
        r as int == le32(d@, i as int),
{
    reveal(le32);
    (d[i] as u32) + (d[i + 1] as u32) * 0x100 + (d[i + 2] as u32) * 0x1_0000 + (d[i + 3] as u32)
        * 0x100_0000
}

/// Reads the little-endian `u64` at `d[i..i + 8]`.
pub fn le_u64(d: &[u8], i: usize) -> (r: u64)
    requires
        i + 8 <= d@.len(),
    ensures
        r as int == le64(d@, i as int),
{
    let _n = d.len();
    let lo = le_u32(d, i) as u64;
    let hi = le_u32(d, i + 4) as u64;
    proof {
        lemma_le32_bound(d@, i as int);
        lemma_le32_bound(d@, i + 4);
    }
    assert(hi * 0x1_0000_0000 + lo < 0x1_0000_0000_0000_0000) by (nonlinear_arith)
        requires
            hi < 0x1_0000_0000,
            lo < 0x1_0000_0000,
    ;
    hi * 0x1_0000_0000 + lo
}

/// Reads the big-endian `u32` at `d[i..i + 4]`.
pub fn be_u32(d: &[u8], i: usize) -> (r: u32)
    requires
        i + 4 <= d@.len(),
    ensures
        r as int == be32(d@, i as int),
{
    reveal(be32);
    (d[i] as u32) * 0x100_0000 + (d[i + 1] as u32) * 0x1_0000 + (d[i + 2] as u32) * 0x100 + (d[i
        + 3] as u32)
}

/// Reads the big-endian `u64` at `d[i..i + 8]`.
pub fn be_u64(d: &[u8], i: usize) -> (r: u64)
    requires
        i + 8 <= d@.len(),
    ensures
        r as int == be64(d@, i as int),
{
    let _n = d.len();
    let hi = be_u32(d, i) as u64;
    let lo = be_u32(d, i + 4) as u64;
    proof {
        lemma_be32_bound(d@, i as int);
        lemma_be32_bound(d@, i + 4);
    }
    assert(hi * 0x1_0000_0000 + lo < 0x1_0000_0000_0000_0000) by (nonlinear_arith)
        requires
            hi < 0x1_0000_0000,
            lo < 0x1_0000_0000,
    ;
    hi * 0x1_0000_0000 + lo
}

} // verus!
