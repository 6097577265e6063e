//! Cache file names: blockfile entries `f_XXXXXX` and Simple Cache entries
//! `{16 hex}_0`, `{16 hex}_1` and `{16 hex}_s`; the numbering of blockfile
//! entries; and the labels shown for a cache directory.
use vstd::prelude::*;
use vstd::string::StringSliceAdditionalSpecFns;
use crate::text::{file_name_of, bare_name};

verus! {

pub open spec fn is_hex_digit(b: u8) -> bool {
    (0x30 <= b <= 0x39) || (0x61 <= b <= 0x66) || (0x41 <= b <= 0x46)
}

pub open spec fn is_lower_hex_digit(b: u8) -> bool {
    (0x30 <= b <= 0x39) || (0x61 <= b <= 0x66)
}

/// The value of a hex digit.
pub open spec fn hex_value(b: u8) -> int {
    if 0x30 <= b <= 0x39 {
        b - 0x30
    } else if 0x61 <= b <= 0x66 {
        b - 0x61 + 10
    } else {
        b - 0x41 + 10
    }
}

/// `f_` followed by six lowercase hex digits.
pub open spec fn blockfile_name(s: Seq<u8>) -> bool {
    &&& s.len() == 8
    &&& s[0] == 0x66 && s[1] == 0x5f
    &&& forall|i: int| 2 <= i < 8 ==> is_lower_hex_digit(#[trigger] s[i])
}

/// Sixteen hex digits, `_`, and the stream letter `suffix`.
pub open spec fn simple_name(s: Seq<u8>, suffix: u8) -> bool {
    &&& s.len() == 18
    &&& forall|i: int| 0 <= i < 16 ==> is_hex_digit(#[trigger] s[i])
    &&& s[16] == 0x5f
    &&& s[17] == suffix
}

/// The name of a cache entry file of one of the four kinds.
pub open spec fn cache_file_name(s: Seq<u8>) -> bool {
    blockfile_name(s) || simple_name(s, 0x30) || simple_name(s, 0x31) || simple_name(s, 0x73)
}

/// The number that hex digits `s[lo..hi]` spell.
pub open spec fn hex_number(s: Seq<u8>, lo: int, hi: int) -> int
    decreases hi - lo,
{
    if hi <= lo {
        0
    } else {
        hex_number(s, lo, hi - 1) * 16 + hex_value(s[hi - 1])
    }
}

/// The number of a blockfile entry: the six lowercase hex digits after `f_`.
pub open spec fn blockfile_number(s: Seq<u8>) -> Option<u64> {
    if blockfile_name(s) {
        Some(hex_number(s, 2, 8) as u64)
    } else {
        None
    }
}

/// Whether the bytes are all hex digits.
fn all_hex(b: &[u8], lo: usize, hi: usize, lower_only: bool) -> (r: bool)
    requires
        lo <= hi <= b@.len(),
    ensures
        r == forall|i: int|
            lo <= i < hi ==> if lower_only {
                is_lower_hex_digit(#[trigger] b@[i])
            } else {
                is_hex_digit(b@[i])
            },
{
    let mut i = lo;
    while i < hi
        invariant
            lo <= i <= hi <= b@.len(),
            forall|k: int|
                lo <= k < i ==> if lower_only {
                    is_lower_hex_digit(#[trigger] b@[k])
                } else {
                    is_hex_digit(b@[k])
                },
        decreases hi - i,
    {
        let c = b[i];
        let ok = (0x30 <= c && c <= 0x39) || (0x61 <= c && c <= 0x66) || (!lower_only && 0x41 <= c
            && c <= 0x46);
        if !ok {
            return false;
        }
        i = i + 1;
    }
    true
}

/// Whether the bytes name a Simple Cache entry of stream letter `suffix`.
fn is_simple_name(b: &[u8], suffix: u8) -> (r: bool)
    ensures
        r == simple_name(b@, suffix),
{
    b.len() == 18 && b[16] == 0x5f && b[17] == suffix && all_hex(b, 0, 16, false)
}

/// Whether the name is that of a cache entry file: a blockfile entry `f_`
/// followed by six lowercase hex digits, or a Simple Cache entry of sixteen hex
/// digits followed by `_0`, `_1` or `_s`. Index and journal files are not.
pub fn is_cache_file(name: &str) -> (r: bool)
    ensures
        r == cache_file_name(name.spec_bytes()),
{
    let b = name.as_bytes();
    if b.len() == 8 && b[0] == 0x66 && b[1] == 0x5f {
        return all_hex(b, 2, 8, true);
    }
    is_simple_name(b, 0x30) || is_simple_name(b, 0x31) || is_simple_name(b, 0x73)
}

/// Whether the file name is that of a stream-2 (`_1`) Simple Cache entry.
pub fn is_stream2_file_name(name: &str) -> (r: bool)
    ensures
        r == simple_name(name.spec_bytes(), 0x31),
{
    is_simple_name(name.as_bytes(), 0x31)
}

/// Whether the file name is that of a sparse (`_s`) Simple Cache entry.
pub fn is_sparse_file_name(name: &str) -> (r: bool)
    ensures
        r == simple_name(name.spec_bytes(), 0x73),
{
    is_simple_name(name.as_bytes(), 0x73)
}

/// Whether the last component of the path names a stream-2 (`_1`) entry.
pub fn is_simple_cache_stream2(path: &str) -> (r: bool)
    ensures
        bare_name(path@) ==> r == simple_name(path.spec_bytes(), 0x31),
{
    is_stream2_file_name(file_name_of(path))
}

/// Whether the last component of the path names a sparse (`_s`) entry.
pub fn is_simple_cache_sparse(path: &str) -> (r: bool)
    ensures
        bare_name(path@) ==> r == simple_name(path.spec_bytes(), 0x73),
{
    is_sparse_file_name(file_name_of(path))
}

/// The number of a blockfile entry from its file name: `f_` and six
/// lowercase hex digits, read in base 16; `None` for any other name.
pub fn blockfile_hex(name: &str) -> (r: Option<u64>)
    ensures
        r == blockfile_number(name.spec_bytes()),
{
    let b = name.as_bytes();
    if !(b.len() == 8 && b[0] == 0x66 && b[1] == 0x5f) {
        return None;
    }
    let lo: usize = 2;
    if !all_hex(b, lo, 8, true) {
        return None;
    }
    let mut v: u64 = 0;
    let mut i = lo;
    while i < 8
        invariant
            2 <= lo <= i <= 8,
            b@.len() == 8,
            forall|k: int| lo <= k < 8 ==> is_lower_hex_digit(#[trigger] b@[k]),
            v as int == hex_number(b@, lo as int, i as int),
            0 <= v as int,
            (v as int) < pow16((i - lo) as nat),
        decreases 8 - i,
    {
        let c = b[i];
        let d: u64 = if 0x30 <= c && c <= 0x39 {
            (c - 0x30) as u64
        } else {
            (c - 0x61 + 10) as u64
        };
        assert(pow16((i + 1 - lo) as nat) == pow16((i - lo) as nat) * 16);
        assert(v as int * 16 + d < pow16((i + 1 - lo) as nat)) by (nonlinear_arith)
            requires
                v < pow16((i - lo) as nat),
                d < 16,
                pow16((i + 1 - lo) as nat) == pow16((i - lo) as nat) * 16,
        ;
        assert(pow16((i + 1 - lo) as nat) <= pow16(6)) by {
            lemma_pow16_mono((i + 1 - lo) as nat, 6);
        }
        assert(pow16(6) == 0x100_0000) by {
            reveal_with_fuel(pow16, 7);
        }
        v = v * 16 + d;
        i = i + 1;
    }
    Some(v)
}

/// `16^k`.
pub open spec fn pow16(k: nat) -> int
    decreases k,
{
    if k == 0 {
        1
    } else {
        16 * pow16((k - 1) as nat)
    }
}

proof fn lemma_pow16_mono(a: nat, b: nat)
    requires
        a <= b,
    ensures
        1 <= pow16(a) <= pow16(b),
    decreases b,
{
    if b > 0 && a < b {
        lemma_pow16_mono(a, (b - 1) as nat);
    } else if b > 0 {
        lemma_pow16_mono((a - 1) as nat, (b - 1) as nat);
    }
}

/// The number of a blockfile entry from the last component of its path.
pub fn parse_cache_hex(path: &str) -> (r: Option<u64>)
    ensures
        bare_name(path@) ==> r == blockfile_number(path.spec_bytes()),
{
    blockfile_hex(file_name_of(path))
}

/// Cache entry names: `f_` and six lowercase hex digits is one; so are sixteen
/// hex digits followed by `_0`, `_1` or `_s`. A name of another length, a
/// blockfile name with a capital `F` or a capital hex digit, and a Simple Cache
/// name with another stream letter are not.
pub proof fn lemma_cache_file_names(s: Seq<u8>)
    ensures
        blockfile_name(s) ==> cache_file_name(s),
        simple_name(s, 0x30) || simple_name(s, 0x31) || simple_name(s, 0x73) ==> cache_file_name(s),
        s.len() != 8 && s.len() != 18 ==> !cache_file_name(s),
        s.len() == 8 && s[0] == 0x46 ==> !cache_file_name(s),
        s.len() == 8 && (exists|i: int| 2 <= i < 8 && 0x41 <= #[trigger] s[i] <= 0x46)
            ==> !cache_file_name(s),
        s.len() == 18 && s[17] != 0x30 && s[17] != 0x31 && s[17] != 0x73 ==> !cache_file_name(s),
{
}

} // verus!
