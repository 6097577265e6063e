//! Sparse (`_s`) Simple Cache entries: a header and key followed by range
//! records, each a SparseRangeHeader and the bytes it announces. The ranges are
//! laid out at their offsets in one buffer; bytes no range covers stay zero.
use vstd::prelude::*;
use crate::wire::{le32, le64, le_u32, le_u64, lemma_le64_bound};
use crate::simple_cache::{
    SIMPLE_CACHE_MAGIC, SIMPLE_CACHE_HEADER_SIZE, SIMPLE_CACHE_EOF_MAGIC, SIMPLE_CACHE_EOF_SIZE,
    FLAG_HAS_KEY_SHA256, key_len,
};

verus! {

/// Magic number of a SparseRangeHeader.
pub const SPARSE_RANGE_MAGIC: u64 = 0xeb97bf016553676b;

/// Size of a SparseRangeHeader: magic, offset, length, crc32, padding.
pub const SPARSE_RANGE_HEADER_SIZE: usize = 32;

/// One range record: where its bytes belong in the reassembled stream, the
/// length its header declares, and where the bytes present in the file lie.
#[derive(Clone, Copy, Debug, PartialEq, Eq, Structural)]
pub struct SparseRange {
    pub offset: u64,
    pub length: u64,
    pub data_start: usize,
    pub data_end: usize,
}

/// Why a buffer cannot be read as a sparse entry.
#[derive(Clone, Copy, Debug, PartialEq, Eq, Structural)]
pub enum SparseError {
    /// Shorter than a SimpleFileHeader.
    TooSmall,
    /// The header magic is wrong.
    BadMagic,
    /// The declared key runs past the end of the file.
    KeyPastEnd,
    /// The reassembled stream would not fit in memory addresses.
    TooLarge,
}

/// A range header starts at `pos`.
pub open spec fn range_header_at(d: Seq<u8>, pos: int) -> bool {
    0 <= pos && pos + 32 <= d.len() && le64(d, pos) == SPARSE_RANGE_MAGIC
}

/// The range record whose header starts at `pos`; its bytes are cut at the end
/// of the file.
pub open spec fn record_at(d: Seq<u8>, pos: int) -> SparseRange {
    let len = le64(d, pos + 16);
    let ds = pos + 32;
    SparseRange {
        offset: le64(d, pos + 8) as u64,
        length: len as u64,
        data_start: ds as usize,
        data_end: (if ds + len > d.len() {
            d.len() as int
        } else {
            ds + len
        }) as usize,
    }
}

/// The records read from `pos` on: the walk stops at the first position that
/// holds no range header, and after a record whose bytes run past the end of
/// the file. Such a cut record is kept only when some of its bytes are present.
pub open spec fn sparse_chunks(d: Seq<u8>, pos: int) -> Seq<SparseRange>
    decreases d.len() - pos,
{
    if !range_header_at(d, pos) {
        Seq::empty()
    } else {
        let r = record_at(d, pos);
        if pos + 32 + r.length > d.len() {
            if pos + 32 < d.len() {
                seq![r]
            } else {
                Seq::empty()
            }
        } else {
            seq![r] + sparse_chunks(d, pos + 32 + r.length)
        }
    }
}

/// Every record read from `pos` on has all its declared bytes in the file.
pub open spec fn ranges_fit(d: Seq<u8>, pos: int) -> bool
    decreases d.len() - pos,
{
    if !range_header_at(d, pos) {
        true
    } else {
        let r = record_at(d, pos);
        pos + 32 + r.length <= d.len() && ranges_fit(d, pos + 32 + r.length)
    }
}

pub open spec fn max_int(a: int, b: int) -> int {
    if a >= b {
        a
    } else {
        b
    }
}

/// The largest `offset + length` that the range headers from `pos` on declare.
pub open spec fn declared_end(d: Seq<u8>, pos: int) -> int
    decreases d.len() - pos,
{
    if !range_header_at(d, pos) {
        0
    } else {
        let r = record_at(d, pos);
        let rest = if pos + 32 + r.length > d.len() {
            0
        } else {
            declared_end(d, pos + 32 + r.length)
        };
        max_int(r.offset + r.length, rest)
    }
}

/// Number of bytes of the record present in the file.
pub open spec fn avail(c: SparseRange) -> int {
    c.data_end - c.data_start
}

/// The record places its bytes over position `i` of the stream.
pub open spec fn covers(c: SparseRange, i: int) -> bool {
    c.offset <= i < c.offset + avail(c)
}

/// Some record covers position `i`.
pub open spec fn covered(cs: Seq<SparseRange>, i: int) -> bool {
    exists|j: int| 0 <= j < cs.len() && #[trigger] covers(cs[j], i)
}

/// Records are laid out by ascending offset, in file order among equal
/// offsets: `cs[j]` is laid out before `cs[k]`.
pub open spec fn laid_before(cs: Seq<SparseRange>, j: int, k: int) -> bool {
    cs[j].offset < cs[k].offset || (cs[j].offset == cs[k].offset && j < k)
}

/// `cs[j]` is the record laid out last among those covering `i`, so its byte
/// is the one that stays.
pub open spec fn wins(cs: Seq<SparseRange>, j: int, i: int) -> bool {
    &&& 0 <= j < cs.len()
    &&& covers(cs[j], i)
    &&& forall|k: int|
        0 <= k < cs.len() && k != j && #[trigger] covers(cs[k], i) ==> laid_before(cs, k, j)
}

/// The byte that record `c` places at position `i`.
pub open spec fn chunk_byte(d: Seq<u8>, c: SparseRange, i: int) -> u8 {
    d[c.data_start + (i - c.offset)]
}

/// Byte `i` of the reassembled stream.
pub open spec fn assembled_byte(d: Seq<u8>, cs: Seq<SparseRange>, i: int) -> u8 {
    if exists|j: int| wins(cs, j, i) {
        chunk_byte(d, cs[choose|j: int| wins(cs, j, i)], i)
    } else {
        0
    }
}

/// The first `n` bytes of the stream that the records reassemble to.
pub open spec fn assembled(d: Seq<u8>, cs: Seq<SparseRange>, n: int) -> Seq<u8> {
    Seq::new(n as nat, |i: int| assembled_byte(d, cs, i))
}

/// End of the reassembled stream: the largest `offset + bytes present`.
pub open spec fn chunks_end(cs: Seq<SparseRange>) -> int
    decreases cs.len(),
{
    if cs.len() == 0 {
        0
    } else {
        max_int(cs[0].offset + avail(cs[0]), chunks_end(cs.drop_first()))
    }
}

/// Every record's bytes lie inside `d`.
pub open spec fn chunks_in(d: Seq<u8>, cs: Seq<SparseRange>) -> bool {
    forall|j: int|
        0 <= j < cs.len() ==> #[trigger] cs[j].data_start <= cs[j].data_end && cs[j].data_end
            <= d.len()
}

/// Where the range records of an entry start.
pub open spec fn records_start(d: Seq<u8>) -> int {
    24 + key_len(d)
}

/// The header checks shared by every reading of a sparse entry.
pub open spec fn sparse_header_error(d: Seq<u8>) -> Option<SparseError> {
    if d.len() < 24 {
        Some(SparseError::TooSmall)
    } else if le64(d, 0) != SIMPLE_CACHE_MAGIC {
        Some(SparseError::BadMagic)
    } else if records_start(d) > d.len() {
        Some(SparseError::KeyPastEnd)
    } else {
        None
    }
}

/// Body of an entry written without range records: from the end of the key to
/// the trailing EOF record (and the 32-byte key digest it announces) if one is
/// there, else to the end of the file; empty where that end does not come
/// after the key.
pub open spec fn raw_body(d: Seq<u8>) -> Seq<u8> {
    let s = records_start(d);
    let e0 = d.len() - 24;
    let end = if d.len() >= s + 24 && le64(d, e0) == SIMPLE_CACHE_EOF_MAGIC {
        if (le32(d, e0 + 8) as u32) & FLAG_HAS_KEY_SHA256 != 0 {
            e0 - 32
        } else {
            e0
        }
    } else {
        d.len() as int
    };
    if s < end {
        d.subrange(s, end)
    } else {
        Seq::empty()
    }
}

/// What a sparse entry reassembles to: its range records laid out at their
/// offsets, or its raw body where it holds no range record.
pub open spec fn reassembled(d: Seq<u8>) -> Result<Seq<u8>, SparseError> {
    match sparse_header_error(d) {
        Some(e) => Err(e),
        None => {
            let cs = sparse_chunks(d, records_start(d));
            if cs.len() == 0 {
                Ok(raw_body(d))
            } else if chunks_end(cs) > usize::MAX {
                Err(SparseError::TooLarge)
            } else {
                Ok(assembled(d, cs, chunks_end(cs)))
            }
        },
    }
}

/// Largest number of bytes a prefix read returns.
pub const SPARSE_PREFIX_LIMIT: usize = 4096;

pub open spec fn min_int(a: int, b: int) -> int {
    if a <= b {
        a
    } else {
        b
    }
}

/// The first `min(size, 4096)` bytes of what the entry reassembles to (fewer
/// where the stream is shorter).
pub open spec fn sparse_prefix_spec(d: Seq<u8>, size: int) -> Result<Seq<u8>, SparseError> {
    match sparse_header_error(d) {
        Some(e) => Err(e),
        None => {
            let cs = sparse_chunks(d, records_start(d));
            let k = min_int(size, SPARSE_PREFIX_LIMIT as int);
            if cs.len() == 0 {
                Ok(raw_body(d).take(min_int(k, raw_body(d).len() as int)))
            } else {
                Ok(assembled(d, cs, min_int(k, chunks_end(cs))))
            }
        },
    }
}

/// Size of the reassembled stream as the range headers declare it, at most
/// `u64::MAX`; 0 for a buffer that is no sparse entry.
pub open spec fn total_size(d: Seq<u8>) -> u64 {
    if d.len() < 24 || le64(d, 0) != SIMPLE_CACHE_MAGIC {
        0
    } else {
        cap64(declared_end(d, records_start(d)))
    }
}

/// `x`, or `u64::MAX` where `x` is larger.
pub open spec fn cap64(x: int) -> u64 {
    if x > u64::MAX {
        u64::MAX
    } else {
        x as u64
    }
}

proof fn lemma_record_bounds(d: Seq<u8>, pos: int)
    requires
        range_header_at(d, pos),
    ensures
        record_at(d, pos).offset == le64(d, pos + 8),
        record_at(d, pos).length == le64(d, pos + 16),
{
    lemma_le64_bound(d, pos + 8);
    lemma_le64_bound(d, pos + 16);
}

/// Reads the range records from `start` on.
fn collect_chunks(data: &[u8], start: usize) -> (r: Vec<SparseRange>)
    requires
        start <= data@.len(),
    ensures
        r@ == sparse_chunks(data@, start as int),
        chunks_in(data@, r@),
{
    let n = data.len();
    let mut v: Vec<SparseRange> = Vec::new();
    let mut pos: usize = start;
    loop
        invariant_except_break
            pos <= n,
            n == data@.len(),
            v@ + sparse_chunks(data@, pos as int) == sparse_chunks(data@, start as int),
        invariant
            chunks_in(data@, v@),
        ensures
            v@ == sparse_chunks(data@, start as int),
        decreases n - pos,
    {
        if n - pos < SPARSE_RANGE_HEADER_SIZE {
            assert(v@ + sparse_chunks(data@, pos as int) =~= v@);
            break;
        }
        if le_u64(data, pos) != SPARSE_RANGE_MAGIC {
            assert(v@ + sparse_chunks(data@, pos as int) =~= v@);
            break;
        }
        let offset = le_u64(data, pos + 8);
        let length = le_u64(data, pos + 16);
        proof {
            lemma_record_bounds(data@, pos as int);
        }
        let ds = pos + SPARSE_RANGE_HEADER_SIZE;
        if length > (n - ds) as u64 {
            if ds < n {
                let c = SparseRange { offset, length, data_start: ds, data_end: n };
                assert(c == record_at(data@, pos as int));
                v.push(c);
            } else {
                assert(v@ + sparse_chunks(data@, pos as int) =~= v@);
            }
            break;
        }
        let de = ds + length as usize;
        let c = SparseRange { offset, length, data_start: ds, data_end: de };
        assert(c == record_at(data@, pos as int));
        proof {
            assert(sparse_chunks(data@, pos as int) == seq![c] + sparse_chunks(data@, de as int));
            assert(v@.push(c) + sparse_chunks(data@, de as int) =~= v@ + (seq![c] + sparse_chunks(
                data@,
                de as int,
            )));
        }
        v.push(c);
        pos = de;
    }
    v
}

/// Record `k` has been laid out: every record of offset at most `below`, and
/// those of offset `at` before index `upto`.
pub open spec fn laid(cs: Seq<SparseRange>, k: int, below: Option<u64>, at: u64, upto: int) -> bool {
    (match below {
        Some(v) => cs[k].offset <= v,
        None => false,
    }) || (cs[k].offset == at && k < upto)
}

/// Position `i` of `buf` holds what the records laid out so far put there;
/// `w[i]` is the record whose byte stays, or -1.
pub open spec fn slot_ok(
    d: Seq<u8>,
    cs: Seq<SparseRange>,
    buf: Seq<u8>,
    w: Seq<int>,
    i: int,
    below: Option<u64>,
    at: u64,
    upto: int,
) -> bool {
    if w[i] == -1 {
        &&& buf[i] == 0
        &&& forall|k: int|
            0 <= k < cs.len() && #[trigger] laid(cs, k, below, at, upto) ==> !covers(cs[k], i)
    } else {
        &&& 0 <= w[i] < cs.len()
        &&& laid(cs, w[i], below, at, upto)
        &&& covers(cs[w[i]], i)
        &&& buf[i] == chunk_byte(d, cs[w[i]], i)
        &&& forall|k: int|
            0 <= k < cs.len() && k != w[i] && #[trigger] laid(cs, k, below, at, upto) && covers(
                cs[k],
                i,
            ) ==> laid_before(cs, k, w[i])
    }
}

/// Writes the bytes of record `k`, which comes after every record laid out so
/// far, over the first `buf.len()` positions.
fn place_chunk(
    data: &[u8],
    cs: &Vec<SparseRange>,
    k: usize,
    buf: &mut Vec<u8>,
    w: Ghost<Seq<int>>,
    below: Ghost<Option<u64>>,
) -> (w2: Ghost<Seq<int>>)
    requires
        k < cs@.len(),
        chunks_in(data@, cs@),
        w@.len() == old(buf)@.len(),
        below@ matches Some(v) ==> v < cs@[k as int].offset,
        forall|i: int|
            0 <= i < old(buf)@.len() ==> #[trigger] slot_ok(
                data@,
                cs@,
                old(buf)@,
                w@,
                i,
                below@,
                cs@[k as int].offset,
                k as int,
            ),
    ensures
        final(buf)@.len() == old(buf)@.len(),
        w2@.len() == w@.len(),
        forall|i: int|
            0 <= i < final(buf)@.len() ==> #[trigger] slot_ok(
                data@,
                cs@,
                final(buf)@,
                w2@,
                i,
                below@,
                cs@[k as int].offset,
                k as int + 1,
            ),
{
    let ghost at = cs@[k as int].offset;
    let ghost ki = k as int;
    let n = buf.len();
    let c = cs[k];
    let len = c.data_end - c.data_start;
    let ghost mut wv = w@;
    // positions outside the record's range only see the laid-out set grow by `k`
    assert forall|i: int|
        0 <= i < n && !covers(c, i) implies #[trigger] slot_ok(
        data@,
        cs@,
        buf@,
        wv,
        i,
        below@,
        at,
        ki + 1,
    ) by {
        assert(slot_ok(data@, cs@, buf@, wv, i, below@, at, ki));
        if wv[i] == -1 {
            assert forall|j: int|
                0 <= j < cs@.len() && #[trigger] laid(cs@, j, below@, at, ki + 1) implies !covers(
                cs@[j],
                i,
            ) by {
                if j != ki {
                    assert(laid(cs@, j, below@, at, ki));
                }
            }
        } else {
            assert forall|j: int|
                0 <= j < cs@.len() && j != wv[i] && #[trigger] laid(cs@, j, below@, at, ki + 1)
                    && covers(cs@[j], i) implies laid_before(cs@, j, wv[i]) by {
                if j != ki {
                    assert(laid(cs@, j, below@, at, ki));
                }
            }
        }
    }
    if c.offset < n as u64 {
        let start = c.offset as usize;
        let stop = if len > n - start {
            n
        } else {
            start + len
        };
        let mut p = start;
        while p < stop
            invariant
                start <= p <= stop <= n,
                n == buf@.len(),
                wv.len() == n,
                c == cs@[ki],
                start == c.offset,
                len == avail(c),
                len > n - start ==> stop == n,
                len <= n - start ==> stop == start + len,
                chunks_in(data@, cs@),
                below@ matches Some(v) ==> v < at,
                at == c.offset,
                0 <= ki < cs@.len(),
                forall|i: int|
                    0 <= i < n && (i < start || i >= p) && covers(c, i) ==> #[trigger] slot_ok(
                        data@,
                        cs@,
                        buf@,
                        wv,
                        i,
                        below@,
                        at,
                        ki,
                    ),
                forall|i: int|
                    0 <= i < n && (!covers(c, i) || (start <= i < p)) ==> #[trigger] slot_ok(
                        data@,
                        cs@,
                        buf@,
                        wv,
                        i,
                        below@,
                        at,
                        ki + 1,
                    ),
            decreases stop - p,
        {
            let b = data[c.data_start + (p - start)];
            let ghost old_buf = buf@;
            let ghost old_w = wv;
            buf.set(p, b);
            proof {
                wv = wv.update(p as int, ki);
                assert(slot_ok(data@, cs@, old_buf, old_w, p as int, below@, at, ki));
                assert forall|i: int|
                    0 <= i < n && (i < start || i >= p + 1) && covers(c, i) implies #[trigger] slot_ok(
                    data@,
                    cs@,
                    buf@,
                    wv,
                    i,
                    below@,
                    at,
                    ki,
                ) by {
                    assert(slot_ok(data@, cs@, old_buf, old_w, i, below@, at, ki));
                }
                assert forall|i: int|
                    0 <= i < n && (!covers(c, i) || (start <= i < p + 1)) implies #[trigger] slot_ok(
                    data@,
                    cs@,
                    buf@,
                    wv,
                    i,
                    below@,
                    at,
                    ki + 1,
                ) by {
                    if i == p {
                        assert forall|j: int|
                            0 <= j < cs@.len() && j != ki && laid(cs@, j, below@, at, ki + 1)
                                && covers(cs@[j], i) implies laid_before(cs@, j, ki) by {}
                    } else {
                        assert(slot_ok(data@, cs@, old_buf, old_w, i, below@, at, ki + 1));
                    }
                }
            }
            p = p + 1;
        }
    }
    Ghost(wv)
}

proof fn lemma_slot_same_laid(
    d: Seq<u8>,
    cs: Seq<SparseRange>,
    buf: Seq<u8>,
    w: Seq<int>,
    i: int,
    b1: Option<u64>,
    a1: u64,
    u1: int,
    b2: Option<u64>,
    a2: u64,
    u2: int,
)
    requires
        slot_ok(d, cs, buf, w, i, b1, a1, u1),
        forall|k: int| 0 <= k < cs.len() ==> laid(cs, k, b1, a1, u1) == laid(cs, k, b2, a2, u2),
    ensures
        slot_ok(d, cs, buf, w, i, b2, a2, u2),
{
    if w[i] == -1 {
        assert forall|k: int|
            0 <= k < cs.len() && #[trigger] laid(cs, k, b2, a2, u2) implies !covers(cs[k], i) by {
            assert(laid(cs, k, b1, a1, u1));
        }
    } else {
        assert forall|k: int|
            0 <= k < cs.len() && k != w[i] && #[trigger] laid(cs, k, b2, a2, u2) && covers(cs[k], i)
                implies laid_before(cs, k, w[i]) by {
            assert(laid(cs, k, b1, a1, u1));
        }
    }
}

proof fn lemma_slot_final(d: Seq<u8>, cs: Seq<SparseRange>, buf: Seq<u8>, w: Seq<int>, i: int, below: Option<u64>)
    requires
        slot_ok(d, cs, buf, w, i, below, 0, 0),
        forall|k: int| 0 <= k < cs.len() ==> #[trigger] laid(cs, k, below, 0, 0),
    ensures
        buf[i] == assembled_byte(d, cs, i),
{
    if w[i] == -1 {
        assert forall|j: int| !wins(cs, j, i) by {
            if 0 <= j < cs.len() {
                assert(laid(cs, j, below, 0, 0));
            }
        }
    } else {
        let j = w[i];
        assert forall|k: int|
            0 <= k < cs.len() && k != j && #[trigger] covers(cs[k], i) implies laid_before(cs, k, j) by {
            assert(laid(cs, k, below, 0, 0));
        }
        assert(wins(cs, j, i));
        let j2 = choose|j2: int| wins(cs, j2, i);
        if j2 != j {
            assert(laid_before(cs, j2, j));
            assert(laid_before(cs, j, j2));
        }
    }
}

/// Lays the records out at their offsets, in order of offset and then of file
/// position, and keeps the first `n` bytes.
fn assemble_chunks(data: &[u8], cs: &Vec<SparseRange>, n: usize) -> (r: Vec<u8>)
    requires
        chunks_in(data@, cs@),
    ensures
        r@ == assembled(data@, cs@, n as int),
{
    let mut buf: Vec<u8> = vec![0u8; n];
    let ghost mut w: Seq<int> = Seq::new(n as nat, |i: int| -1int);
    let m = cs.len();
    let mut below: Option<u64> = None;
    loop
        invariant
            m == cs@.len(),
            chunks_in(data@, cs@),
            buf@.len() == n,
            w.len() == n,
            forall|i: int| 0 <= i < n ==> #[trigger] slot_ok(data@, cs@, buf@, w, i, below, 0, 0),
        ensures
            forall|k: int| 0 <= k < cs@.len() ==> #[trigger] laid(cs@, k, below, 0, 0),
        decreases
                (match below {
                    None => u64::MAX as int + 1,
                    Some(v) => u64::MAX - v,
                }),
    {
        // the least offset among the records not laid out yet
        let mut found = false;
        let mut next: u64 = 0;
        let mut k: usize = 0;
        while k < m
            invariant
                k <= m,
                m == cs@.len(),
                found ==> (below matches Some(v) ==> v < next),
                forall|kk: int|
                    0 <= kk < k && !#[trigger] laid(cs@, kk, below, 0, 0) ==> found && next
                        <= cs@[kk].offset,
            decreases m - k,
        {
            let o = cs[k].offset;
            let pending = match below {
                None => true,
                Some(v) => o > v,
            };
            if pending && (!found || o < next) {
                next = o;
                found = true;
            }
            k = k + 1;
        }
        if !found {
            break;
        }
        proof {
            assert forall|i: int| 0 <= i < n implies #[trigger] slot_ok(
                data@,
                cs@,
                buf@,
                w,
                i,
                below,
                next,
                0,
            ) by {
                lemma_slot_same_laid(data@, cs@, buf@, w, i, below, 0, 0, below, next, 0);
            }
        }
        let mut k: usize = 0;
        while k < m
            invariant
                k <= m,
                m == cs@.len(),
                chunks_in(data@, cs@),
                buf@.len() == n,
                w.len() == n,
                below matches Some(v) ==> v < next,
                forall|kk: int|
                    0 <= kk < m && !#[trigger] laid(cs@, kk, below, 0, 0) ==> next
                        <= cs@[kk].offset,
                forall|i: int|
                    0 <= i < n ==> #[trigger] slot_ok(data@, cs@, buf@, w, i, below, next, k as int),
            decreases m - k,
        {
            if cs[k].offset == next {
                let Ghost(w2) = place_chunk(data, cs, k, &mut buf, Ghost(w), Ghost(below));
                proof {
                    w = w2;
                }
            } else {
                proof {
                    assert forall|i: int| 0 <= i < n implies #[trigger] slot_ok(
                        data@,
                        cs@,
                        buf@,
                        w,
                        i,
                        below,
                        next,
                        k as int + 1,
                    ) by {
                        lemma_slot_same_laid(
                            data@,
                            cs@,
                            buf@,
                            w,
                            i,
                            below,
                            next,
                            k as int,
                            below,
                            next,
                            k as int + 1,
                        );
                    }
                }
            }
            k = k + 1;
        }
        proof {
            assert forall|kk: int| 0 <= kk < m implies laid(cs@, kk, below, next, m as int) == laid(
                cs@,
                kk,
                Some(next),
                0,
                0,
            ) by {
                if !laid(cs@, kk, below, 0, 0) {
                    assert(next <= cs@[kk].offset);
                }
            }
            assert forall|i: int| 0 <= i < n implies #[trigger] slot_ok(
                data@,
                cs@,
                buf@,
                w,
                i,
                Some(next),
                0,
                0,
            ) by {
                lemma_slot_same_laid(data@, cs@, buf@, w, i, below, next, m as int, Some(next), 0, 0);
            }
        }
        below = Some(next);
    }
    proof {
        assert forall|i: int| 0 <= i < n implies buf@[i] == assembled_byte(data@, cs@, i) by {
            lemma_slot_final(data@, cs@, buf@, w, i, below);
        }
    }
    assert(buf@ =~= assembled(data@, cs@, n as int));
    buf
}

/// The end of the reassembled stream, where it fits in a `usize`.
fn stream_end(cs: &Vec<SparseRange>) -> (r: Option<usize>)
    requires
        forall|j: int| 0 <= j < cs@.len() ==> #[trigger] cs@[j].data_start <= cs@[j].data_end,
    ensures
        r matches Some(e) ==> e == chunks_end(cs@),
        r is None <==> chunks_end(cs@) > usize::MAX,
{
    let m = cs.len();
    let mut k = m;
    let mut acc: usize = 0;
    let mut over = false;
    assert(cs@.subrange(m as int, m as int).len() == 0);
    while k > 0
        invariant
            k <= m,
            m == cs@.len(),
            forall|j: int| 0 <= j < cs@.len() ==> #[trigger] cs@[j].data_start <= cs@[j].data_end,
            over == (chunks_end(cs@.subrange(k as int, m as int)) > usize::MAX),
            !over ==> acc == chunks_end(cs@.subrange(k as int, m as int)),
        decreases k,
    {
        k = k - 1;
        let c = cs[k];
        let a = c.data_end - c.data_start;
        assert(cs@.subrange(k as int, m as int).drop_first() =~= cs@.subrange(k as int + 1, m as int));
        assert(cs@.subrange(k as int, m as int)[0] == c);
        if c.offset > (usize::MAX - a) as u64 {
            over = true;
        } else {
            let e = c.offset as usize + a;
            if e > acc {
                acc = e;
            }
        }
    }
    assert(cs@.subrange(0, m as int) =~= cs@);
    if over {
        None
    } else {
        Some(acc)
    }
}

/// The raw body of an entry that holds no range record.
fn raw_body_of(data: &[u8], start: usize) -> (r: Vec<u8>)
    requires
        start == records_start(data@),
        start <= data@.len(),
    ensures
        r@ == raw_body(data@),
{
    let n = data.len();
    let mut end = n;
    if n - start >= SIMPLE_CACHE_EOF_SIZE {
        let e0 = n - SIMPLE_CACHE_EOF_SIZE;
        if le_u64(data, e0) == SIMPLE_CACHE_EOF_MAGIC {
            let flags = le_u32(data, e0 + 8);
            if flags & FLAG_HAS_KEY_SHA256 != 0 {
                // the key digest leaves no body where it reaches into the key
                end = if e0 >= 32 {
                    e0 - 32
                } else {
                    0
                };
            } else {
                end = e0;
            }
        }
    }
    if start < end {
        vstd::slice::slice_to_vec(&data[start..end])
    } else {
        Vec::new()
    }
}

/// Checks the header and returns where the range records start.
fn records_offset(data: &[u8]) -> (r: Result<usize, SparseError>)
    ensures
        sparse_header_error(data@) matches Some(e) ==> r == Err::<usize, SparseError>(e),
        sparse_header_error(data@) is None ==> r == Ok::<usize, SparseError>(
            records_start(data@) as usize,
        ),
        r matches Ok(s) ==> sparse_header_error(data@) is None && s as int == records_start(data@)
            && s <= data@.len(),
{
    let n = data.len();
    if n < SIMPLE_CACHE_HEADER_SIZE {
        return Err(SparseError::TooSmall);
    }
    if le_u64(data, 0) != SIMPLE_CACHE_MAGIC {
        return Err(SparseError::BadMagic);
    }
    let key_length = le_u32(data, 12) as usize;
    if key_length > n - SIMPLE_CACHE_HEADER_SIZE {
        return Err(SparseError::KeyPastEnd);
    }
    Ok(SIMPLE_CACHE_HEADER_SIZE + key_length)
}

/// Reassembles a sparse entry: its range records are laid out at their offsets
/// by ascending offset (file order among equal offsets, so the later record
/// wins where two overlap), and bytes no record covers are zero. An entry with
/// no range record yields its raw body.
pub fn reassemble_sparse_data(data: &[u8]) -> (r: Result<Vec<u8>, SparseError>)
    ensures
        match r {
            Ok(v) => reassembled(data@) == Ok::<Seq<u8>, SparseError>(v@),
            Err(e) => reassembled(data@) == Err::<Seq<u8>, SparseError>(e),
        },
{
    let start = match records_offset(data) {
        Ok(s) => s,
        Err(e) => return Err(e),
    };
    let cs = collect_chunks(data, start);
    if cs.len() == 0 {
        return Ok(raw_body_of(data, start));
    }
    match stream_end(&cs) {
        None => Err(SparseError::TooLarge),
        Some(end) => Ok(assemble_chunks(data, &cs, end)),
    }
}

/// The size of the stream that the range headers declare, without laying it
/// out: the largest `offset + length`, at most `u64::MAX`; 0 where the buffer
/// is no sparse entry or holds no range record.
pub fn sparse_total_size(data: &[u8]) -> (r: u64)
    ensures
        r == total_size(data@),
{
    let n = data.len();
    if n < SIMPLE_CACHE_HEADER_SIZE {
        return 0;
    }
    if le_u64(data, 0) != SIMPLE_CACHE_MAGIC {
        return 0;
    }
    let key_length = le_u32(data, 12) as usize;
    if key_length > n - SIMPLE_CACHE_HEADER_SIZE {
        assert(!range_header_at(data@, records_start(data@)));
        return 0;
    }
    let start = SIMPLE_CACHE_HEADER_SIZE + key_length;
    let ghost mut g: int = 0;
    let mut best: u64 = 0;
    let mut pos = start;
    loop
        invariant_except_break
            pos <= n,
            cap64(max_int(g, declared_end(data@, pos as int))) == cap64(
                declared_end(data@, start as int),
            ),
        invariant
            n == data@.len(),
            start == records_start(data@),
            g >= 0,
            best == cap64(g),
        ensures
            best == cap64(declared_end(data@, start as int)),
        decreases n - pos,
    {
        if n - pos < SPARSE_RANGE_HEADER_SIZE {
            break;
        }
        if le_u64(data, pos) != SPARSE_RANGE_MAGIC {
            break;
        }
        let offset = le_u64(data, pos + 8);
        let length = le_u64(data, pos + 16);
        proof {
            lemma_record_bounds(data@, pos as int);
            g = max_int(g, offset + length);
        }
        let end = offset.saturating_add(length);
        if end > best {
            best = end;
        }
        let ds = pos + SPARSE_RANGE_HEADER_SIZE;
        if length > (n - ds) as u64 {
            break;
        }
        pos = ds + length as usize;
    }
    best
}

/// The first `min(size, 4096)` bytes of what the entry reassembles to, laid
/// out without building the rest of the stream.
pub fn sparse_prefix(data: &[u8], size: usize) -> (r: Result<Vec<u8>, SparseError>)
    ensures
        match r {
            Ok(v) => sparse_prefix_spec(data@, size as int) == Ok::<Seq<u8>, SparseError>(v@),
            Err(e) => sparse_prefix_spec(data@, size as int) == Err::<Seq<u8>, SparseError>(e),
        },
        reassembled(data@) matches Ok(s) ==> r matches Ok(v) && v@ == s.take(
            min_int(min_int(size as int, SPARSE_PREFIX_LIMIT as int), s.len() as int),
        ),
{
    let start = match records_offset(data) {
        Ok(s) => s,
        Err(e) => return Err(e),
    };
    let needed = if size < SPARSE_PREFIX_LIMIT {
        size
    } else {
        SPARSE_PREFIX_LIMIT
    };
    let cs = collect_chunks(data, start);
    if cs.len() == 0 {
        let body = raw_body_of(data, start);
        let keep = if needed < body.len() {
            needed
        } else {
            body.len()
        };
        let r = vstd::slice::slice_to_vec(&body.as_slice()[0..keep]);
        assert(r@ =~= body@.take(keep as int));
        return Ok(r);
    }
    let window = match stream_end(&cs) {
        None => needed,
        Some(end) => if end < needed {
            end
        } else {
            needed
        },
    };
    let r = assemble_chunks(data, &cs, window);
    assert(reassembled(data@) matches Ok(s) ==> r@ =~= s.take(window as int));
    Ok(r)
}

/// No two records place bytes over the same position.
pub open spec fn disjoint(cs: Seq<SparseRange>) -> bool {
    forall|j: int, k: int|
        0 <= j < cs.len() && 0 <= k < cs.len() && j != k ==> cs[j].offset + avail(cs[j])
            <= #[trigger] cs[k].offset || cs[k].offset + avail(cs[k]) <= #[trigger] cs[j].offset
}

proof fn lemma_chunks_end_bounds(cs: Seq<SparseRange>, b: int)
    ensures
        chunks_end(cs) >= 0,
        forall|j: int| 0 <= j < cs.len() ==> cs[j].offset + avail(cs[j]) <= chunks_end(cs),
        (b >= 0 && forall|j: int| 0 <= j < cs.len() ==> cs[j].offset + avail(cs[j]) <= b)
            ==> chunks_end(cs) <= b,
    decreases cs.len(),
{
    if cs.len() > 0 {
        lemma_chunks_end_bounds(cs.drop_first(), b);
        assert forall|j: int| 0 <= j < cs.len() implies cs[j].offset + avail(cs[j]) <= chunks_end(
            cs,
        ) by {
            if j > 0 {
                assert(cs[j] == cs.drop_first()[j - 1]);
            }
        }
        if b >= 0 && forall|j: int| 0 <= j < cs.len() ==> cs[j].offset + avail(cs[j]) <= b {
            assert forall|j: int|
                0 <= j < cs.drop_first().len() implies cs.drop_first()[j].offset + avail(
                cs.drop_first()[j],
            ) <= b by {
                assert(cs.drop_first()[j] == cs[j + 1]);
            }
        }
    }
}

proof fn lemma_chunks_in(d: Seq<u8>, pos: int)
    requires
        d.len() <= usize::MAX,
    ensures
        chunks_in(d, sparse_chunks(d, pos)),
    decreases d.len() - pos,
{
    if range_header_at(d, pos) {
        let r = record_at(d, pos);
        lemma_record_bounds(d, pos);
        let next = pos + 32 + r.length;
        let cs = sparse_chunks(d, pos);
        if next <= d.len() {
            lemma_chunks_in(d, next);
            assert(cs == seq![r] + sparse_chunks(d, next));
            assert forall|j: int| 0 <= j < cs.len() implies #[trigger] cs[j].data_start
                <= cs[j].data_end && cs[j].data_end <= d.len() by {
                if j > 0 {
                    let c = sparse_chunks(d, next)[j - 1];
                    assert(cs[j] == c);
                    assert(c.data_start <= c.data_end && c.data_end <= d.len());
                } else {
                    assert(cs[0] == r);
                }
            }
        } else if pos + 32 < d.len() {
            assert(cs == seq![r]);
            assert(cs[0] == r);
        }
    }
}

/// Where a sparse entry reassembles from range records, a position that no
/// record covers holds 0.
pub proof fn lemma_gaps_are_zero(d: Seq<u8>, i: int)
    requires
        d.len() <= usize::MAX,
        reassembled(d) is Ok,
        sparse_chunks(d, records_start(d)).len() > 0,
        0 <= i < reassembled(d)->Ok_0.len(),
        !covered(sparse_chunks(d, records_start(d)), i),
    ensures
        reassembled(d)->Ok_0[i] == 0,
{
    let cs = sparse_chunks(d, records_start(d));
    assert forall|j: int| !wins(cs, j, i) by {
        if wins(cs, j, i) {
            assert(covers(cs[j], i));
        }
    }
}

/// Range records that do not overlap and together cover `[0, n)` reassemble to
/// exactly `n` bytes, with the bytes of each record at its offset.
pub proof fn lemma_tiling_ranges(d: Seq<u8>, n: nat)
    requires
        d.len() <= usize::MAX,
        sparse_header_error(d) is None,
        sparse_chunks(d, records_start(d)).len() > 0,
        disjoint(sparse_chunks(d, records_start(d))),
        forall|j: int|
            0 <= j < sparse_chunks(d, records_start(d)).len() ==> #[trigger] sparse_chunks(
                d,
                records_start(d),
            )[j].offset + avail(sparse_chunks(d, records_start(d))[j]) <= n,
        forall|i: int| 0 <= i < n ==> covered(sparse_chunks(d, records_start(d)), i),
        n <= usize::MAX,
    ensures
        reassembled(d) is Ok,
        reassembled(d)->Ok_0.len() == n,
        forall|j: int|
            0 <= j < sparse_chunks(d, records_start(d)).len() ==> reassembled(d)->Ok_0.subrange(
                #[trigger] sparse_chunks(d, records_start(d))[j].offset as int,
                sparse_chunks(d, records_start(d))[j].offset + avail(
                    sparse_chunks(d, records_start(d))[j],
                ),
            ) == d.subrange(
                sparse_chunks(d, records_start(d))[j].data_start as int,
                sparse_chunks(d, records_start(d))[j].data_end as int,
            ),
{
    let cs = sparse_chunks(d, records_start(d));
    lemma_chunks_in(d, records_start(d));
    lemma_chunks_end_bounds(cs, n as int);
    if n > 0 {
        assert(covered(cs, n - 1));
        let j = choose|j: int| 0 <= j < cs.len() && #[trigger] covers(cs[j], n - 1);
        assert(cs[j].offset + avail(cs[j]) >= n);
    }
    assert(chunks_end(cs) == n);
    let s = reassembled(d)->Ok_0;
    assert(s.len() == n);
    assert forall|j: int| 0 <= j < cs.len() implies s.subrange(
        #[trigger] cs[j].offset as int,
        cs[j].offset + avail(cs[j]),
    ) == d.subrange(cs[j].data_start as int, cs[j].data_end as int) by {
        assert(cs[j].data_start <= cs[j].data_end <= d.len());
        assert(cs[j].offset + avail(cs[j]) <= n);
        let sa = s.subrange(cs[j].offset as int, cs[j].offset + avail(cs[j]));
        let da = d.subrange(cs[j].data_start as int, cs[j].data_end as int);
        assert forall|t: int| 0 <= t < avail(cs[j]) implies #[trigger] sa[t] == da[t] by {
            let i = cs[j].offset + t;
            assert forall|k: int|
                0 <= k < cs.len() && k != j && #[trigger] covers(cs[k], i) implies laid_before(
                cs,
                k,
                j,
            ) by {
                assert(cs[j].offset + avail(cs[j]) <= cs[k].offset || cs[k].offset + avail(cs[k])
                    <= cs[j].offset);
            }
            assert(wins(cs, j, i));
            let j2 = choose|j2: int| wins(cs, j2, i);
            if j2 != j {
                assert(laid_before(cs, j2, j));
                assert(laid_before(cs, j, j2));
            }
        }
        assert(sa =~= da);
    }
}

proof fn lemma_declared_end_fits(d: Seq<u8>, pos: int)
    requires
        d.len() <= usize::MAX,
        ranges_fit(d, pos),
    ensures
        declared_end(d, pos) == chunks_end(sparse_chunks(d, pos)),
    decreases d.len() - pos,
{
    if range_header_at(d, pos) {
        let r = record_at(d, pos);
        lemma_record_bounds(d, pos);
        let next = pos + 32 + r.length;
        lemma_declared_end_fits(d, next);
        let cs = sparse_chunks(d, pos);
        assert(cs == seq![r] + sparse_chunks(d, next));
        assert(cs.drop_first() =~= sparse_chunks(d, next));
    }
}

/// Where every range record has all its declared bytes in the file and the
/// entry reassembles from them, the size computed from the range headers alone
/// is the length of the reassembled stream.
pub proof fn lemma_total_size_is_length(d: Seq<u8>)
    requires
        d.len() <= usize::MAX,
        reassembled(d) is Ok,
        sparse_chunks(d, records_start(d)).len() > 0,
        ranges_fit(d, records_start(d)),
    ensures
        total_size(d) as int == reassembled(d)->Ok_0.len(),
{
    let cs = sparse_chunks(d, records_start(d));
    lemma_declared_end_fits(d, records_start(d));
    lemma_chunks_end_bounds(cs, 0);
}

} // verus!
