//! Chromium Simple Cache entry files: the stream-1 (`_0`) layout with two EOF
//! records, the stream-2 (`_1`) layout with one, and the fallback scan for an
//! EOF record when the trailing one is damaged.
use vstd::prelude::*;
use crate::wire::{le32, le64, le_u32, le_u64};

verus! {

/// Magic number at the start of every Simple Cache entry file.
pub const SIMPLE_CACHE_MAGIC: u64 = 0xfcfb6d1ba7725c30;

/// Size of the SimpleFileHeader: magic, version, key length, key hash, padding.
pub const SIMPLE_CACHE_HEADER_SIZE: usize = 24;

/// Magic number of a SimpleFileEOF record.
pub const SIMPLE_CACHE_EOF_MAGIC: u64 = 0xf4fa6f45970d41d8;

/// Size of a SimpleFileEOF record: magic, flags, data crc32, stream size, padding.
pub const SIMPLE_CACHE_EOF_SIZE: usize = 24;

/// Flag of an EOF record: a 32-byte SHA-256 of the key sits just before it.
pub const FLAG_HAS_KEY_SHA256: u32 = 2;

/// Byte boundaries of the streams inside one entry file. In the layouts where
/// stream 0 is not known, its bounds are both 0.
#[derive(Clone, Copy, Debug, PartialEq, Eq, Structural)]
pub struct SimpleCacheLayout {
    pub stream1_start: usize,
    pub stream1_end: usize,
    pub stream0_start: usize,
    pub stream0_end: usize,
}

/// The file starts with a SimpleFileHeader magic.
pub open spec fn has_header_magic(d: Seq<u8>) -> bool {
    d.len() >= 24 && le64(d, 0) == SIMPLE_CACHE_MAGIC
}

/// The key length declared by the header.
pub open spec fn key_len(d: Seq<u8>) -> int {
    le32(d, 12)
}

/// An EOF record magic is stored at `p`.
pub open spec fn eof_magic_at(d: Seq<u8>, p: int) -> bool {
    0 <= p && p + 8 <= d.len() && le64(d, p) == SIMPLE_CACHE_EOF_MAGIC
}

/// The first position at or after `p` where an EOF record magic is stored.
pub open spec fn first_eof_from(d: Seq<u8>, p: int) -> Option<int>
    decreases d.len() - p,
{
    if p < 0 || p + 8 > d.len() {
        None
    } else if le64(d, p) == SIMPLE_CACHE_EOF_MAGIC {
        Some(p)
    } else {
        first_eof_from(d, p + 1)
    }
}

/// Layout found by scanning for the first EOF magic at or after `s1`.
pub open spec fn fallback_layout(d: Seq<u8>, s1: int) -> Option<SimpleCacheLayout> {
    match first_eof_from(d, s1) {
        Some(e) => Some(
            SimpleCacheLayout {
                stream1_start: s1 as usize,
                stream1_end: e as usize,
                stream0_start: 0,
                stream0_end: 0,
            },
        ),
        None => None,
    }
}

/// Bytes of the optional key digest announced by the EOF record at `e`.
pub open spec fn sha_len_at(d: Seq<u8>, e: int) -> int {
    if (le32(d, e + 8) as u32) & FLAG_HAS_KEY_SHA256 != 0 {
        32
    } else {
        0
    }
}

/// Layout of a stream-1 file, read from its trailing EOF0 record, then from the
/// EOF1 record that precedes stream 0; the fallback scan where either is bad.
pub open spec fn stream1_layout(d: Seq<u8>) -> Option<SimpleCacheLayout> {
    if d.len() < 48 || le64(d, 0) != SIMPLE_CACHE_MAGIC {
        None
    } else {
        let s1 = 24 + key_len(d);
        let e0 = d.len() - 24;
        if s1 >= d.len() {
            None
        } else if le64(d, e0) != SIMPLE_CACHE_EOF_MAGIC {
            fallback_layout(d, s1)
        } else {
            let end0 = e0 - sha_len_at(d, e0);
            let size0 = le32(d, e0 + 16);
            if size0 > end0 || end0 - size0 < 24 {
                fallback_layout(d, s1)
            } else {
                let start0 = end0 - size0;
                let e1 = start0 - 24;
                if le64(d, e1) != SIMPLE_CACHE_EOF_MAGIC {
                    fallback_layout(d, s1)
                } else if s1 > e1 {
                    None
                } else {
                    Some(
                        SimpleCacheLayout {
                            stream1_start: s1 as usize,
                            stream1_end: e1 as usize,
                            stream0_start: start0 as usize,
                            stream0_end: end0 as usize,
                        },
                    )
                }
            }
        }
    }
}

/// Layout of a stream-2 file: the body runs from the end of the key to the
/// trailing EOF record, or to the end of the file where that record is missing.
pub open spec fn stream2_layout(d: Seq<u8>) -> Option<SimpleCacheLayout> {
    if d.len() < 48 || le64(d, 0) != SIMPLE_CACHE_MAGIC {
        None
    } else {
        let s = 24 + key_len(d);
        let e = d.len() - 24;
        if s > e {
            None
        } else {
            Some(
                SimpleCacheLayout {
                    stream1_start: s as usize,
                    stream1_end: (if le64(d, e) == SIMPLE_CACHE_EOF_MAGIC {
                        e
                    } else {
                        d.len() as int
                    }) as usize,
                    stream0_start: 0,
                    stream0_end: 0,
                },
            )
        }
    }
}

/// Scans forward from `stream1_start` for the first EOF record magic and takes
/// it as the end of stream 1; stream 0 is then unknown.
pub fn parse_simple_cache_layout_fallback(data: &[u8], stream1_start: usize) -> (r: Option<
    SimpleCacheLayout,
>)
    requires
        stream1_start <= data@.len(),
    ensures
        r == fallback_layout(data@, stream1_start as int),
        r matches Some(l) ==> l.stream1_start == stream1_start <= l.stream1_end <= data@.len(),
{
    let n = data.len();
    let mut p: usize = stream1_start;
    while p < n && n - p >= 8
        invariant
            stream1_start <= p <= n,
            n == data@.len(),
            first_eof_from(data@, stream1_start as int) == first_eof_from(data@, p as int),
        decreases n - p,
    {
        if le_u64(data, p) == SIMPLE_CACHE_EOF_MAGIC {
            return Some(
                SimpleCacheLayout {
                    stream1_start,
                    stream1_end: p,
                    stream0_start: 0,
                    stream0_end: 0,
                },
            );
        }
        p = p + 1;
    }
    None
}

/// Parses the layout of a stream-1 (`_0`) entry file.
pub fn parse_simple_cache_layout(data: &[u8]) -> (r: Option<SimpleCacheLayout>)
    ensures
        r == stream1_layout(data@),
        r matches Some(l) ==> l.stream1_start <= l.stream1_end <= data@.len() && l.stream0_start
            <= l.stream0_end <= data@.len(),
{
    let n = data.len();
    if n < SIMPLE_CACHE_HEADER_SIZE + SIMPLE_CACHE_EOF_SIZE {
        return None;
    }
    if le_u64(data, 0) != SIMPLE_CACHE_MAGIC {
        return None;
    }
    let key_length = le_u32(data, 12) as usize;
    if key_length >= n - SIMPLE_CACHE_HEADER_SIZE {
        return None;
    }
    let stream1_start = SIMPLE_CACHE_HEADER_SIZE + key_length;
    let eof0_start = n - SIMPLE_CACHE_EOF_SIZE;
    if le_u64(data, eof0_start) != SIMPLE_CACHE_EOF_MAGIC {
        return parse_simple_cache_layout_fallback(data, stream1_start);
    }
    let eof0_flags = le_u32(data, eof0_start + 8);
    let stream0_size = le_u32(data, eof0_start + 16) as usize;
    let sha_len: usize = if eof0_flags & FLAG_HAS_KEY_SHA256 != 0 {
        32
    } else {
        0
    };
    if sha_len > eof0_start || stream0_size > eof0_start - sha_len {
        return parse_simple_cache_layout_fallback(data, stream1_start);
    }
    let stream0_end = eof0_start - sha_len;
    let stream0_start = stream0_end - stream0_size;
    if stream0_start < SIMPLE_CACHE_EOF_SIZE {
        return parse_simple_cache_layout_fallback(data, stream1_start);
    }
    let eof1_start = stream0_start - SIMPLE_CACHE_EOF_SIZE;
    if le_u64(data, eof1_start) != SIMPLE_CACHE_EOF_MAGIC {
        return parse_simple_cache_layout_fallback(data, stream1_start);
    }
    let stream1_end = eof1_start;
    if stream1_start > stream1_end {
        return None;
    }
    Some(SimpleCacheLayout { stream1_start, stream1_end, stream0_start, stream0_end })
}

/// Parses the layout of a stream-2 (`_1`) entry file.
pub fn parse_simple_cache_stream2_layout(data: &[u8]) -> (r: Option<SimpleCacheLayout>)
    ensures
        r == stream2_layout(data@),
        r matches Some(l) ==> l.stream1_start <= l.stream1_end <= data@.len(),
{
    let n = data.len();
    if n < SIMPLE_CACHE_HEADER_SIZE + SIMPLE_CACHE_EOF_SIZE {
        return None;
    }
    if le_u64(data, 0) != SIMPLE_CACHE_MAGIC {
        return None;
    }
    let key_length = le_u32(data, 12) as usize;
    let eof_start = n - SIMPLE_CACHE_EOF_SIZE;
    if key_length > eof_start - SIMPLE_CACHE_HEADER_SIZE {
        return None;
    }
    let body_start = SIMPLE_CACHE_HEADER_SIZE + key_length;
    let body_end = if le_u64(data, eof_start) == SIMPLE_CACHE_EOF_MAGIC {
        eof_start
    } else {
        n
    };
    Some(SimpleCacheLayout { stream1_start: body_start, stream1_end: body_end, stream0_start: 0, stream0_end: 0 })
}

/// The body of a stream-1 or stream-2 entry file; a buffer whose layout does
/// not parse is taken to be a body already.
pub open spec fn stripped(d: Seq<u8>, stream2: bool) -> Seq<u8> {
    let l = if stream2 {
        stream2_layout(d)
    } else {
        stream1_layout(d)
    };
    match l {
        Some(l) => d.subrange(l.stream1_start as int, l.stream1_end as int),
        None => d,
    }
}

/// The HTTP headers (stream 0) of a stream-1 entry file, where its layout is
/// known and stream 0 is not empty.
pub open spec fn stream0_headers(d: Seq<u8>) -> Option<Seq<u8>> {
    match stream1_layout(d) {
        Some(l) => if l.stream0_start == 0 && l.stream0_end == 0 {
            None
        } else if l.stream0_start < l.stream0_end {
            Some(d.subrange(l.stream0_start as int, l.stream0_end as int))
        } else {
            None
        },
        None => None,
    }
}

/// The HTTP body of an entry file: the stream-2 layout where `stream2`, else
/// the stream-1 layout; the buffer itself where the layout does not parse.
pub fn strip_wrapper(data: Vec<u8>, stream2: bool) -> (r: Vec<u8>)
    ensures
        r@ == stripped(data@, stream2),
{
    let layout = if stream2 {
        parse_simple_cache_stream2_layout(data.as_slice())
    } else {
        parse_simple_cache_layout(data.as_slice())
    };
    match layout {
        Some(l) => vstd::slice::slice_to_vec(&data.as_slice()[l.stream1_start..l.stream1_end]),
        None => data,
    }
}

/// The HTTP response headers (stream 0) of a stream-1 entry file; `None` where
/// the file is no Simple Cache entry or stream 0 is unknown or empty.
pub fn extract_simple_cache_headers(data: &[u8]) -> (r: Option<Vec<u8>>)
    ensures
        r is Some <==> stream0_headers(data@) is Some,
        r matches Some(v) ==> stream0_headers(data@) == Some(v@),
{
    let layout = match parse_simple_cache_layout(data) {
        Some(l) => l,
        None => return None,
    };
    if layout.stream0_start == 0 && layout.stream0_end == 0 {
        return None;
    }
    if layout.stream0_start < layout.stream0_end {
        assert(layout.stream0_end <= data@.len());
        Some(vstd::slice::slice_to_vec(&data[layout.stream0_start..layout.stream0_end]))
    } else {
        None
    }
}

/// A well-formed stream-1 entry file: header magic, a key that leaves room for
/// the body, a trailing EOF0 record whose declared stream 0 fits before it (and
/// before the key digest it announces), and an EOF1 record just before stream 0
/// that does not start before the body.
pub open spec fn valid_stream1(d: Seq<u8>) -> bool {
    let e0 = d.len() - 24;
    let end0 = e0 - sha_len_at(d, e0);
    let start0 = end0 - le32(d, e0 + 16);
    &&& d.len() >= 48
    &&& le64(d, 0) == SIMPLE_CACHE_MAGIC
    &&& 24 + key_len(d) < d.len()
    &&& le64(d, e0) == SIMPLE_CACHE_EOF_MAGIC
    &&& start0 >= 24
    &&& le64(d, start0 - 24) == SIMPLE_CACHE_EOF_MAGIC
    &&& 24 + key_len(d) <= start0 - 24
}

/// For a well-formed stream-1 file with key length `k`, the layout puts
/// stream 1 at `24 + k` up to the EOF1 record before stream 0, stream 0 spans
/// the size EOF0 declares, and it ends 24 bytes (plus 32 for a key digest)
/// before the end of the file.
pub proof fn lemma_stream1_boundaries(d: Seq<u8>)
    requires
        valid_stream1(d),
        d.len() <= usize::MAX,
    ensures
        stream1_layout(d) matches Some(l) && {
            let e0 = d.len() - 24;
            &&& l.stream1_start == 24 + key_len(d)
            &&& l.stream1_end <= l.stream0_start - 24
            &&& l.stream0_end - l.stream0_start == le32(d, e0 + 16)
            &&& l.stream0_end == d.len() - 24 - (if (le32(d, e0 + 8) as u32) & FLAG_HAS_KEY_SHA256
                != 0 {
                32int
            } else {
                0int
            })
        },
{
    crate::wire::lemma_le32_bound(d, 12);
    crate::wire::lemma_le32_bound(d, d.len() - 24 + 16);
}

} // verus!
