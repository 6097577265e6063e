//! Rebuilding an MP4 file from one header chunk, the body chunks, and an
//! optional tail chunk holding the `moov` box, all taken from blockfile cache
//! entries whose names number them in hex.
use vstd::prelude::*;
use crate::wire::be32;
use crate::mp4::{
    Mp4Box, FOURCC_FTYP, FOURCC_MDAT, find_box_from, moov_candidate, find_box, scan_for_moov,
};

verus! {

/// One cache chunk as read by the caller: the hex number of its file name (if
/// it is named `f_XXXXXX`), its size on disk, and its HTTP body.
#[derive(Debug)]
pub struct ChunkInput {
    pub hex: Option<u64>,
    pub file_size: u64,
    pub body: Vec<u8>,
}

/// Why a set of chunks cannot be rebuilt.
#[derive(Clone, Copy, Debug, PartialEq, Eq, Structural)]
pub enum ReconstructError {
    /// The header chunk holds no `ftyp` box.
    NoFtyp,
    /// The header chunk holds no `mdat` box.
    NoMdat,
    /// The `ftyp` box runs past the end of the header chunk.
    FtypOutsideHeader,
    /// The rebuilt file would not fit in memory addresses.
    TooLarge,
}

/// How many chunks have size `s` on disk.
pub open spec fn size_count(cs: Seq<ChunkInput>, s: u64) -> nat
    decreases cs.len(),
{
    if cs.len() == 0 {
        0
    } else {
        (if cs[0].file_size == s {
            1nat
        } else {
            0nat
        }) + size_count(cs.drop_first(), s)
    }
}

/// `s` is the most common size among the chunks; among equally common sizes
/// the largest.
pub open spec fn is_modal_size(cs: Seq<ChunkInput>, s: u64) -> bool {
    &&& exists|i: int| 0 <= i < cs.len() && #[trigger] cs[i].file_size == s
    &&& forall|i: int|
        0 <= i < cs.len() ==> size_count(cs, #[trigger] cs[i].file_size) < size_count(cs, s) || (
        size_count(cs, cs[i].file_size) == size_count(cs, s) && cs[i].file_size <= s)
}

/// The size of a full chunk: the modal size on disk, 0 where there is no chunk.
pub open spec fn full_chunk_size(cs: Seq<ChunkInput>) -> u64 {
    if exists|s: u64| is_modal_size(cs, s) {
        choose|s: u64| is_modal_size(cs, s)
    } else {
        0
    }
}

/// The buffer holds a plausible `moov` somewhere.
pub open spec fn has_moov(d: Seq<u8>) -> bool {
    exists|q: int| 0 <= q < d.len() && #[trigger] moov_candidate(d, q)
}

/// The first plausible `moov` of the buffer, as found by the scan.
pub open spec fn moov_scan(d: Seq<u8>) -> Option<int> {
    if has_moov(d) {
        Some(
            choose|q: int|
                0 <= q < d.len() && moov_candidate(d, q) && forall|p: int|
                    0 <= p < q ==> !#[trigger] moov_candidate(d, p),
        )
    } else {
        None
    }
}

/// The first chunk from `k` on that is smaller than a full chunk and holds a
/// `moov`.
pub open spec fn first_small_moov(cs: Seq<ChunkInput>, full: u64, k: int) -> Option<int>
    decreases cs.len() - k,
{
    if k < 0 || k >= cs.len() {
        None
    } else if cs[k].file_size < full && has_moov(cs[k].body@) {
        Some(k)
    } else {
        first_small_moov(cs, full, k + 1)
    }
}

/// The first chunk from `k` on that holds a `moov`.
pub open spec fn first_moov(cs: Seq<ChunkInput>, k: int) -> Option<int>
    decreases cs.len() - k,
{
    if k < 0 || k >= cs.len() {
        None
    } else if has_moov(cs[k].body@) {
        Some(k)
    } else {
        first_moov(cs, k + 1)
    }
}

/// The tail chunk: the first undersized chunk that holds a `moov`, else the
/// first chunk of any size that does.
pub open spec fn tail_choice(cs: Seq<ChunkInput>, full: u64) -> Option<int> {
    match first_small_moov(cs, full, 0) {
        Some(t) => Some(t),
        None => first_moov(cs, 0),
    }
}

/// The bodies of the chunks from `k` on, leaving out the tail, one after the
/// other.
pub open spec fn middle_concat(cs: Seq<ChunkInput>, k: int, tail: Option<int>) -> Seq<u8>
    decreases cs.len() - k,
{
    if k < 0 || k >= cs.len() {
        Seq::empty()
    } else if tail == Some(k) {
        middle_concat(cs, k + 1, tail)
    } else {
        cs[k].body@ + middle_concat(cs, k + 1, tail)
    }
}

/// The body of the tail chunk, if there is one.
pub open spec fn tail_body(cs: Seq<ChunkInput>, tail: Option<int>) -> Seq<u8> {
    match tail {
        Some(t) => cs[t].body@,
        None => Seq::empty(),
    }
}

/// The header body, the middle bodies and the tail body, in that order.
pub open spec fn concatenation(h: Seq<u8>, cs: Seq<ChunkInput>, tail: Option<int>) -> Seq<u8> {
    h + middle_concat(cs, 0, tail) + tail_body(cs, tail)
}

/// `buf` with `src` written from position `pos` on; bytes past the end of
/// `buf` are dropped.
pub open spec fn overlay(buf: Seq<u8>, pos: int, src: Seq<u8>) -> Seq<u8> {
    Seq::new(
        buf.len(),
        |i: int|
            if pos <= i < pos + src.len() {
                src[i - pos]
            } else {
                buf[i]
            },
    )
}

/// The writes, applied in order.
pub open spec fn apply_writes(buf: Seq<u8>, ws: Seq<(int, Seq<u8>)>) -> Seq<u8>
    decreases ws.len(),
{
    if ws.len() == 0 {
        buf
    } else {
        apply_writes(overlay(buf, ws[0].0, ws[0].1), ws.drop_first())
    }
}

pub open spec fn min_of(a: int, b: int) -> int {
    if a <= b {
        a
    } else {
        b
    }
}

pub open spec fn max_of(a: int, b: int) -> int {
    if a >= b {
        a
    } else {
        b
    }
}

/// Where the next middle chunk goes after leaving room for the chunks missing
/// between the last one written (hex `last`) and this one (hex `hex`), never
/// past `ts`.
pub open spec fn padded_pos(pos: int, last: Option<u64>, hex: Option<u64>, full: u64, ts: int) -> int {
    match (last, hex) {
        (Some(p), Some(h)) => {
            let missing = max_of(h - p - 1, 0);
            if missing > 0 {
                pos + min_of(missing * full, max_of(ts - pos, 0))
            } else {
                pos
            }
        },
        _ => pos,
    }
}

/// The writes that place the middle chunks from `k` on, the tail left out:
/// chunks whose body is not a full chunk are skipped, room is left for missing
/// chunks, nothing is written from `ts` on, and placement stops once it gets
/// there. Positions past `ts` behave alike, so `pos` is kept at most `ts`.
pub open spec fn middle_writes(
    cs: Seq<ChunkInput>,
    k: int,
    tail: Option<int>,
    full: u64,
    ts: int,
    pos: int,
    last: Option<u64>,
) -> Seq<(int, Seq<u8>)>
    decreases cs.len() - k,
{
    if k < 0 || k >= cs.len() || pos >= ts {
        Seq::empty()
    } else if tail == Some(k) || cs[k].body@.len() != full {
        middle_writes(cs, k + 1, tail, full, ts, pos, last)
    } else {
        let c = cs[k];
        let p1 = padded_pos(pos, last, c.hex, full, ts);
        let last1 = if c.hex is Some {
            c.hex
        } else {
            last
        };
        if p1 >= ts {
            Seq::empty()
        } else {
            let wl = min_of(c.body@.len() as int, ts - p1);
            seq![(p1, c.body@.take(wl))] + middle_writes(
                cs,
                k + 1,
                tail,
                full,
                ts,
                min_of(p1 + c.body@.len(), ts),
                last1,
            )
        }
    }
}

/// The larger of two optional hex numbers.
pub open spec fn max_hex(a: Option<u64>, b: Option<u64>) -> Option<u64> {
    match (a, b) {
        (Some(x), Some(y)) => Some(
            if x >= y {
                x
            } else {
                y
            },
        ),
        (Some(x), None) => Some(x),
        (None, y) => y,
    }
}

/// The big-endian bytes of `x` modulo `2^32`.
pub open spec fn be_bytes4(x: int) -> Seq<u8> {
    seq![
        ((x / 0x100_0000) % 0x100) as u8,
        ((x / 0x1_0000) % 0x100) as u8,
        ((x / 0x100) % 0x100) as u8,
        (x % 0x100) as u8,
    ]
}

/// The `mdat` box header as the rebuilt file carries it: the extended form
/// where the header chunk used it.
pub open spec fn mdat_header_bytes(mdat: Mp4Box) -> Seq<u8> {
    if mdat.header_size == 16 {
        be_bytes4(1) + be_bytes4(FOURCC_MDAT as int) + be_bytes4(mdat.size as int / 0x1_0000_0000)
            + be_bytes4(mdat.size as int)
    } else {
        be_bytes4(mdat.size as int) + be_bytes4(FOURCC_MDAT as int)
    }
}

/// Size of the file in the moov-at-end layout.
pub open spec fn original_size(h: Seq<u8>, ftyp: Mp4Box, mdat: Mp4Box, moov_size: int) -> int {
    let gap = max_of(mdat.offset - (ftyp.offset + ftyp.size), 0);
    ftyp.size + gap + mdat.size + moov_size
}

/// Where the tail chunk starts in the moov-at-end layout: its body ends the
/// file (at 0 where it is longer than the file).
pub open spec fn layout_tail_start(
    h: Seq<u8>,
    cs: Seq<ChunkInput>,
    ftyp: Mp4Box,
    mdat: Mp4Box,
    moov_size: int,
) -> int {
    let orig = original_size(h, ftyp, mdat, moov_size);
    match tail_choice(cs, full_chunk_size(cs)) {
        Some(t) => max_of(orig - cs[t].body@.len(), 0),
        None => orig,
    }
}

/// Where the media of the header chunk ends in the moov-at-end layout.
pub open spec fn layout_media_end(h: Seq<u8>, ftyp: Mp4Box, mdat: Mp4Box) -> int {
    let gap = max_of(mdat.offset - (ftyp.offset + ftyp.size), 0);
    ftyp.size + gap + mdat.header_size + (h.len() - (mdat.offset + mdat.header_size))
}

/// The writes that place the middle chunks in the moov-at-end layout: from
/// the end of the header media on, the last hex number written taken to be
/// the larger of the header's and the tail's.
pub open spec fn layout_middle_writes(
    hex: Option<u64>,
    h: Seq<u8>,
    cs: Seq<ChunkInput>,
    ftyp: Mp4Box,
    mdat: Mp4Box,
    moov_size: int,
) -> Seq<(int, Seq<u8>)> {
    let full = full_chunk_size(cs);
    let tail = tail_choice(cs, full);
    let ts = layout_tail_start(h, cs, ftyp, mdat, moov_size);
    let tail_hex = match tail {
        Some(t) => cs[t].hex,
        None => None,
    };
    middle_writes(cs, 0, tail, full, ts, min_of(layout_media_end(h, ftyp, mdat), ts), max_hex(hex, tail_hex))
}

/// The moov-at-end layout: `ftyp`, the bytes between `ftyp` and `mdat`, the
/// `mdat` header and the media of the header chunk, the middle chunks with
/// zero padding for missing ones, and the tail chunk at the end.
pub open spec fn moov_at_end_layout(
    hex: Option<u64>,
    h: Seq<u8>,
    cs: Seq<ChunkInput>,
    ftyp: Mp4Box,
    mdat: Mp4Box,
    moov_size: int,
) -> Seq<u8> {
    let full = full_chunk_size(cs);
    let tail = tail_choice(cs, full);
    let fs = ftyp.size as int;
    let fo = ftyp.offset as int;
    let mo = mdat.offset as int;
    let mh = mdat.header_size as int;
    let gap = max_of(mo - (fo + fs), 0);
    let orig = original_size(h, ftyp, mdat, moov_size);
    let ms = fs + gap;
    let b1 = overlay(Seq::new(orig as nat, |i: int| 0u8), 0, h.subrange(fo, fo + fs));
    let b2 = if gap > 0 {
        overlay(b1, fs, h.subrange(fo + fs, mo))
    } else {
        b1
    };
    let b3 = overlay(b2, ms, mdat_header_bytes(mdat));
    let media = h.subrange(mo + mh, h.len() as int);
    let b4 = overlay(b3, ms + mh, media);
    let ts = layout_tail_start(h, cs, ftyp, mdat, moov_size);
    let ws = layout_middle_writes(hex, h, cs, ftyp, mdat, moov_size);
    let b5 = apply_writes(b4, ws);
    match tail {
        Some(t) => overlay(b5, ts, cs[t].body@),
        None => b5,
    }
}

/// What the header chunk (hex number `hex`, body `h`) and the chunks `cs`
/// rebuild to. Without a `moov`, or with the `moov` in the first half of the
/// concatenation, the concatenation itself; otherwise the moov-at-end layout.
pub open spec fn reconstructed(hex: Option<u64>, h: Seq<u8>, cs: Seq<ChunkInput>) -> Result<
    Seq<u8>,
    ReconstructError,
> {
    match (find_box_from(h, 0, FOURCC_FTYP), find_box_from(h, 0, FOURCC_MDAT)) {
        (None, _) => Err(ReconstructError::NoFtyp),
        (Some(_), None) => Err(ReconstructError::NoMdat),
        (Some(ftyp), Some(mdat)) => {
            let all = concatenation(h, cs, tail_choice(cs, full_chunk_size(cs)));
            match moov_scan(all) {
                None => Ok(all),
                Some(q) => if q <= all.len() / 2 {
                    Ok(all)
                } else if ftyp.offset + ftyp.size > h.len() {
                    Err(ReconstructError::FtypOutsideHeader)
                } else if original_size(h, ftyp, mdat, be32(all, q)) > usize::MAX {
                    Err(ReconstructError::TooLarge)
                } else {
                    Ok(moov_at_end_layout(hex, h, cs, ftyp, mdat, be32(all, q)))
                },
            }
        },
    }
}

/// How many chunks have size `s` on disk.
fn count_size(chunks: &Vec<ChunkInput>, s: u64) -> (r: usize)
    ensures
        r == size_count(chunks@, s),
{
    let m = chunks.len();
    let mut j = m;
    let mut c: usize = 0;
    assert(chunks@.subrange(m as int, m as int).len() == 0);
    while j > 0
        invariant
            j <= m,
            m == chunks@.len(),
            c == size_count(chunks@.subrange(j as int, m as int), s),
            c <= m - j,
        decreases j,
    {
        j = j - 1;
        assert(chunks@.subrange(j as int, m as int).drop_first() =~= chunks@.subrange(
            j as int + 1,
            m as int,
        ));
        assert(chunks@.subrange(j as int, m as int)[0] == chunks@[j as int]);
        if chunks[j].file_size == s {
            c = c + 1;
        }
    }
    assert(chunks@.subrange(0, m as int) =~= chunks@);
    c
}

/// The size of a full chunk: the most common size on disk, the largest among
/// equally common ones; 0 where there is no chunk.
pub fn modal_chunk_size(chunks: &Vec<ChunkInput>) -> (r: u64)
    ensures
        r == full_chunk_size(chunks@),
        chunks@.len() > 0 ==> is_modal_size(chunks@, r),
{
    let m = chunks.len();
    if m == 0 {
        return 0;
    }
    let mut best = chunks[0].file_size;
    let mut best_count = count_size(chunks, best);
    let mut i: usize = 1;
    while i < m
        invariant
            1 <= i <= m,
            m == chunks@.len(),
            best_count == size_count(chunks@, best),
            exists|k: int| 0 <= k < i && #[trigger] chunks@[k].file_size == best,
            forall|k: int|
                0 <= k < i ==> size_count(chunks@, #[trigger] chunks@[k].file_size) < best_count
                    || (size_count(chunks@, chunks@[k].file_size) == best_count
                    && chunks@[k].file_size <= best),
        decreases m - i,
    {
        let s = chunks[i].file_size;
        let c = count_size(chunks, s);
        if c > best_count || (c == best_count && s > best) {
            best = s;
            best_count = c;
        }
        i = i + 1;
    }
    assert(is_modal_size(chunks@, best));
    let ghost other = choose|s: u64| is_modal_size(chunks@, s);
    assert(other == best) by {
        let ko = choose|k: int| 0 <= k < chunks@.len() && #[trigger] chunks@[k].file_size == other;
        let kb = choose|k: int| 0 <= k < chunks@.len() && #[trigger] chunks@[k].file_size == best;
        assert(size_count(chunks@, chunks@[ko].file_size) <= best_count);
        assert(size_count(chunks@, chunks@[kb].file_size) <= size_count(chunks@, other));
    }
    best
}

proof fn lemma_moov_scan_is(d: Seq<u8>, o: int)
    requires
        0 <= o < d.len(),
        moov_candidate(d, o),
        forall|q: int| 0 <= q < o ==> !#[trigger] moov_candidate(d, q),
    ensures
        moov_scan(d) == Some(o),
{
    assert(has_moov(d));
    let q = choose|q: int|
        0 <= q < d.len() && moov_candidate(d, q) && forall|p: int|
            0 <= p < q ==> !#[trigger] moov_candidate(d, p);
    if q < o {
        assert(!moov_candidate(d, q));
    } else if q > o {
        assert(!moov_candidate(d, o));
    }
}

/// Whether the buffer holds a plausible `moov`.
fn holds_moov(d: &[u8]) -> (r: bool)
    ensures
        r == has_moov(d@),
{
    scan_for_moov(d).is_some()
}

/// Picks the tail chunk: the first chunk smaller than a full chunk that holds
/// a `moov`, else the first chunk of any size that holds one.
pub fn choose_tail(chunks: &Vec<ChunkInput>, full: u64) -> (r: Option<usize>)
    ensures
        r matches Some(t) ==> tail_choice(chunks@, full) == Some(t as int) && t < chunks@.len(),
        r is None ==> tail_choice(chunks@, full) is None,
{
    let m = chunks.len();
    let mut k: usize = 0;
    while k < m
        invariant
            k <= m,
            m == chunks@.len(),
            first_small_moov(chunks@, full, 0) == first_small_moov(chunks@, full, k as int),
        decreases m - k,
    {
        if chunks[k].file_size < full && holds_moov(chunks[k].body.as_slice()) {
            return Some(k);
        }
        k = k + 1;
    }
    let mut k: usize = 0;
    while k < m
        invariant
            k <= m,
            m == chunks@.len(),
            first_small_moov(chunks@, full, 0) is None,
            first_moov(chunks@, 0) == first_moov(chunks@, k as int),
        decreases m - k,
    {
        if holds_moov(chunks[k].body.as_slice()) {
            return Some(k);
        }
        k = k + 1;
    }
    None
}

/// The header body, the middle bodies and the tail body, one after the other.
fn concat_chunks(header: &Vec<u8>, chunks: &Vec<ChunkInput>, tail: Option<usize>) -> (r: Vec<u8>)
    requires
        tail matches Some(t) ==> t < chunks@.len(),
    ensures
        r@ == concatenation(header@, chunks@, match tail {
            Some(t) => Some(t as int),
            None => None,
        }),
{
    let ghost tl: Option<int> = match tail {
        Some(t) => Some(t as int),
        None => None,
    };
    let m = chunks.len();
    let mut out: Vec<u8> = Vec::new();
    out.extend_from_slice(header.as_slice());
    assert(out@ =~= header@);
    let mut k: usize = 0;
    while k < m
        invariant
            k <= m,
            m == chunks@.len(),
            tl == (match tail {
                Some(t) => Some(t as int),
                None => None,
            }),
            out@ + middle_concat(chunks@, k as int, tl) == header@ + middle_concat(chunks@, 0, tl),
        decreases m - k,
    {
        if tail != Some(k) {
            let ghost before = out@;
            out.extend_from_slice(chunks[k].body.as_slice());
            assert(out@ =~= before + chunks@[k as int].body@);
            assert(out@ + middle_concat(chunks@, k as int + 1, tl) =~= before + middle_concat(
                chunks@,
                k as int,
                tl,
            ));
        }
        k = k + 1;
    }
    assert(out@ =~= header@ + middle_concat(chunks@, 0, tl));
    if let Some(t) = tail {
        let ghost before = out@;
        out.extend_from_slice(chunks[t].body.as_slice());
        assert(out@ =~= before + chunks@[t as int].body@);
    } else {
        assert(out@ =~= out@ + Seq::<u8>::empty());
    }
    out
}

/// Writes `src` into `buf` from position `pos` on, dropping what would fall
/// past its end.
fn write_at(buf: &mut Vec<u8>, pos: usize, src: &[u8])
    ensures
        final(buf)@ == overlay(old(buf)@, pos as int, src@),
{
    let n = buf.len();
    let mut t: usize = 0;
    while t < src.len() && pos < n && t < n - pos
        invariant
            t <= src@.len(),
            n == buf@.len(),
            n == old(buf)@.len(),
            pos < n ==> t <= n - pos,
            forall|i: int|
                0 <= i < n ==> #[trigger] buf@[i] == if pos <= i < pos + t {
                    src@[i - pos]
                } else {
                    old(buf)@[i]
                },
        decreases src@.len() - t,
    {
        buf.set(pos + t, src[t]);
        t = t + 1;
    }
    assert(buf@ =~= overlay(old(buf)@, pos as int, src@));
}

/// Appends the big-endian bytes of `x` modulo `2^32`.
fn push_be4(v: &mut Vec<u8>, x: u64)
    ensures
        final(v)@ == old(v)@ + be_bytes4(x as int),
{
    v.push(((x / 0x100_0000) % 0x100) as u8);
    v.push(((x / 0x1_0000) % 0x100) as u8);
    v.push(((x / 0x100) % 0x100) as u8);
    v.push((x % 0x100) as u8);
    assert(v@ =~= old(v)@ + be_bytes4(x as int));
}

/// The `mdat` box header that the rebuilt file carries.
fn mdat_header(mdat: &Mp4Box) -> (r: Vec<u8>)
    ensures
        r@ == mdat_header_bytes(*mdat),
{
    let mut v: Vec<u8> = Vec::new();
    if mdat.header_size == 16 {
        push_be4(&mut v, 1);
        push_be4(&mut v, FOURCC_MDAT as u64);
        push_be4(&mut v, mdat.size / 0x1_0000_0000);
        push_be4(&mut v, mdat.size);
    } else {
        push_be4(&mut v, mdat.size);
        push_be4(&mut v, FOURCC_MDAT as u64);
    }
    assert(v@ =~= mdat_header_bytes(*mdat));
    v
}

/// Places the middle chunks between `pos` and `ts` as `middle_writes` says.
fn place_middle(
    chunks: &Vec<ChunkInput>,
    tail: Option<usize>,
    full: u64,
    ts: usize,
    pos0: usize,
    last0: Option<u64>,
    buf: &mut Vec<u8>,
)
    requires
        pos0 <= ts,
        tail matches Some(t) ==> t < chunks@.len(),
    ensures
        final(buf)@ == apply_writes(
            old(buf)@,
            middle_writes(
                chunks@,
                0,
                match tail {
                    Some(t) => Some(t as int),
                    None => None,
                },
                full,
                ts as int,
                pos0 as int,
                last0,
            ),
        ),
{
    let ghost tl: Option<int> = match tail {
        Some(t) => Some(t as int),
        None => None,
    };
    let ghost target = apply_writes(old(buf)@, middle_writes(chunks@, 0, tl, full, ts as int, pos0 as int, last0));
    let m = chunks.len();
    let mut pos = pos0;
    let mut last = last0;
    let mut k: usize = 0;
    while k < m
        invariant_except_break
            apply_writes(buf@, middle_writes(chunks@, k as int, tl, full, ts as int, pos as int, last))
                == target,
        invariant
            k <= m,
            m == chunks@.len(),
            pos <= ts,
            tl == (match tail {
                Some(t) => Some(t as int),
                None => None,
            }),
        ensures
            buf@ == target,
        decreases m - k,
    {
        if pos >= ts {
            break;
        }
        let c = &chunks[k];
        if tail == Some(k) || c.body.len() as u64 != full {
            k = k + 1;
            continue;
        }
        let ghost last_before = last;
        let mut p1 = pos;
        match (last, c.hex) {
            (Some(p), Some(h)) => {
                if h > p && h - p - 1 > 0 {
                    let missing = h - p - 1;
                    assert(missing as int * full as int <= u64::MAX as int * u64::MAX as int)
                        by (nonlinear_arith)
                        requires
                            missing <= u64::MAX,
                            full <= u64::MAX,
                    ;
                    let pad: u128 = missing as u128 * full as u128;
                    let room = ts - pos;
                    if pad > room as u128 {
                        p1 = pos + room;
                    } else {
                        p1 = pos + pad as usize;
                    }
                }
            },
            _ => {},
        }
        assert(p1 as int == padded_pos(pos as int, last_before, c.hex, full, ts as int));
        if c.hex.is_some() {
            last = c.hex;
        }
        if p1 >= ts {
            break;
        }
        let blen = c.body.len();
        let wl = if blen < ts - p1 {
            blen
        } else {
            ts - p1
        };
        let ghost w = (p1 as int, c.body@.take(wl as int));
        let ghost rest = middle_writes(
            chunks@,
            k as int + 1,
            tl,
            full,
            ts as int,
            min_of(p1 + blen, ts as int),
            last,
        );
        assert(middle_writes(chunks@, k as int, tl, full, ts as int, pos as int, last_before) == seq![w]
            + rest);
        assert((seq![w] + rest).drop_first() =~= rest);
        assert(c.body@.subrange(0, wl as int) == c.body@.take(wl as int));
        write_at(buf, p1, &c.body.as_slice()[0..wl]);
        pos = if blen >= ts - p1 {
            ts
        } else {
            p1 + blen
        };
        k = k + 1;
    }
}

/// Builds the moov-at-end layout in a buffer of its exact size.
fn layout_moov_at_end(
    hex: Option<u64>,
    h: &Vec<u8>,
    chunks: &Vec<ChunkInput>,
    ftyp: Mp4Box,
    mdat: Mp4Box,
    moov_size: usize,
    full: u64,
    tail: Option<usize>,
    orig: usize,
) -> (r: Vec<u8>)
    requires
        full == full_chunk_size(chunks@),
        tail matches Some(t) ==> tail_choice(chunks@, full) == Some(t as int) && t < chunks@.len(),
        tail is None ==> tail_choice(chunks@, full) is None,
        ftyp.offset + ftyp.size <= h@.len(),
        mdat.offset + mdat.header_size <= h@.len(),
        orig == original_size(h@, ftyp, mdat, moov_size as int),
    ensures
        r@ == moov_at_end_layout(hex, h@, chunks@, ftyp, mdat, moov_size as int),
{
    let _hn = h.len();
    let fo = ftyp.offset;
    let fs = ftyp.size as usize;
    let mo = mdat.offset;
    let mh = mdat.header_size;
    let gap = if mo > fo + fs {
        mo - (fo + fs)
    } else {
        0
    };
    let mut buf: Vec<u8> = vec![0u8; orig];
    assert(buf@ =~= Seq::new(orig as nat, |i: int| 0u8));
    write_at(&mut buf, 0, &h.as_slice()[fo..fo + fs]);
    if gap > 0 {
        write_at(&mut buf, fs, &h.as_slice()[fo + fs..mo]);
    }
    let ms = fs + gap;
    let hdr = mdat_header(&mdat);
    write_at(&mut buf, ms, hdr.as_slice());
    let hn = h.len();
    let media = &h.as_slice()[mo + mh..hn];
    if mh <= orig - ms {
        write_at(&mut buf, ms + mh, media);
    } else {
        assert(overlay(buf@, ms + mh, media@) =~= buf@);
    }
    let ts: usize = match tail {
        Some(t) => if chunks[t].body.len() < orig {
            orig - chunks[t].body.len()
        } else {
            0
        },
        None => orig,
    };
    let pos0: usize = if ms >= ts {
        ts
    } else if mh >= ts - ms {
        ts
    } else if media.len() >= ts - ms - mh {
        ts
    } else {
        ms + mh + media.len()
    };
    let tail_hex: Option<u64> = match tail {
        Some(t) => chunks[t].hex,
        None => None,
    };
    let last0: Option<u64> = match (hex, tail_hex) {
        (Some(x), Some(y)) => Some(
            if x >= y {
                x
            } else {
                y
            },
        ),
        (Some(x), None) => Some(x),
        (None, y) => y,
    };
    place_middle(chunks, tail, full, ts, pos0, last0, &mut buf);
    if let Some(t) = tail {
        write_at(&mut buf, ts, chunks[t].body.as_slice());
    }
    buf
}

/// Rebuilds an MP4 file from its header chunk (hex number `header_hex`, body
/// `header_body`) and the other chunks of its download, sorted by name. The
/// tail is the chunk holding the `moov`. Where the `moov` of the header, middle
/// and tail bodies put end to end lies in their second half, the file is laid
/// out anew with `moov` at the end and zero padding for missing chunks;
/// otherwise, and where no `moov` is found, the concatenation is the result.
pub fn reconstruct_mp4(header_hex: Option<u64>, header_body: &Vec<u8>, chunks: &Vec<ChunkInput>) -> (r:
    Result<Vec<u8>, ReconstructError>)
    ensures
        match r {
            Ok(v) => reconstructed(header_hex, header_body@, chunks@) == Ok::<
                Seq<u8>,
                ReconstructError,
            >(v@),
            Err(e) => reconstructed(header_hex, header_body@, chunks@) == Err::<
                Seq<u8>,
                ReconstructError,
            >(e),
        },
{
    let h = header_body.as_slice();
    let ftyp = match find_box(h, FOURCC_FTYP) {
        Some(b) => b,
        None => return Err(ReconstructError::NoFtyp),
    };
    let mdat = match find_box(h, FOURCC_MDAT) {
        Some(b) => b,
        None => return Err(ReconstructError::NoMdat),
    };
    let full = modal_chunk_size(chunks);
    let tail = choose_tail(chunks, full);
    let all = concat_chunks(header_body, chunks, tail);
    match scan_for_moov(all.as_slice()) {
        None => Ok(all),
        Some((o, moov_size)) => {
            proof {
                lemma_moov_scan_is(all@, o as int);
            }
            if o <= all.len() / 2 {
                return Ok(all);
            }
            let hn = h.len();
            if ftyp.size > (hn - ftyp.offset) as u64 {
                return Err(ReconstructError::FtypOutsideHeader);
            }
            let fend = ftyp.offset + ftyp.size as usize;
            let gap: usize = if mdat.offset > fend {
                mdat.offset - fend
            } else {
                0
            };
            let total: u128 = ftyp.size as u128 + gap as u128 + mdat.size as u128 + moov_size as u128;
            if total > usize::MAX as u128 {
                return Err(ReconstructError::TooLarge);
            }
            Ok(
                layout_moov_at_end(
                    header_hex,
                    header_body,
                    chunks,
                    ftyp,
                    mdat,
                    moov_size,
                    full,
                    tail,
                    total as usize,
                ),
            )
        },
    }
}

/// A full middle chunk numbered `h` that follows one numbered `p` with
/// `h - p - 1` chunks missing in between is written after that much zero
/// padding (`h - p - 1` full chunks), never past the tail; the first write of
/// the placement is this chunk, cut at the tail.
pub proof fn lemma_gap_padding(
    cs: Seq<ChunkInput>,
    k: int,
    tail: Option<int>,
    full: u64,
    ts: int,
    pos: int,
    p: u64,
    h: u64,
)
    requires
        0 <= k < cs.len(),
        tail != Some(k),
        cs[k].body@.len() == full,
        cs[k].hex == Some(h),
        h > p + 1,
        pos < ts,
        pos + min_of((h - p - 1) * full, ts - pos) < ts,
    ensures
        ({
            let q = pos + min_of((h - p - 1) * full, ts - pos);
            middle_writes(cs, k, tail, full, ts, pos, Some(p))[0] == (q, cs[k].body@.take(
                min_of(full as int, ts - q),
            ))
        }),
{
}

/// Position `i` lies under write `w`.
pub open spec fn writes_at(w: (int, Seq<u8>), i: int) -> bool {
    w.0 <= i < w.0 + w.1.len()
}

proof fn lemma_apply_untouched(buf: Seq<u8>, ws: Seq<(int, Seq<u8>)>, i: int)
    requires
        0 <= i < buf.len(),
        forall|j: int| 0 <= j < ws.len() ==> !writes_at(#[trigger] ws[j], i),
    ensures
        apply_writes(buf, ws).len() == buf.len(),
        apply_writes(buf, ws)[i] == buf[i],
    decreases ws.len(),
{
    if ws.len() > 0 {
        assert(!writes_at(ws[0], i));
        let b2 = overlay(buf, ws[0].0, ws[0].1);
        assert forall|j: int| 0 <= j < ws.drop_first().len() implies !writes_at(
            #[trigger] ws.drop_first()[j],
            i,
        ) by {
            assert(ws.drop_first()[j] == ws[j + 1]);
        }
        lemma_apply_untouched(b2, ws.drop_first(), i);
    }
}

/// Placing the middle chunks from chunk `k` on, with placement at `pos`,
/// writes only at or after `pos` and before `ts`.
pub proof fn lemma_placement_bounds(
    cs: Seq<ChunkInput>,
    k: int,
    tail: Option<int>,
    full: u64,
    ts: int,
    pos: int,
    last: Option<u64>,
)
    ensures
        forall|j: int|
            0 <= j < middle_writes(cs, k, tail, full, ts, pos, last).len() ==> {
                let w = #[trigger] middle_writes(cs, k, tail, full, ts, pos, last)[j];
                pos <= w.0 && w.0 + w.1.len() <= ts
            },
    decreases cs.len() - k,
{
    if k < 0 || k >= cs.len() || pos >= ts {
    } else if tail == Some(k) || cs[k].body@.len() != full {
        lemma_placement_bounds(cs, k + 1, tail, full, ts, pos, last);
        assert(middle_writes(cs, k, tail, full, ts, pos, last) == middle_writes(
            cs,
            k + 1,
            tail,
            full,
            ts,
            pos,
            last,
        ));
    } else {
        let c = cs[k];
        let p1 = padded_pos(pos, last, c.hex, full, ts);
        let last1 = if c.hex is Some {
            c.hex
        } else {
            last
        };
        if let (Some(lp), Some(hx)) = (last, c.hex) {
            let missing = max_of(hx - lp - 1, 0);
            assert(missing * full >= 0) by (nonlinear_arith)
                requires
                    missing >= 0,
                    full >= 0,
            ;
        }
        assert(p1 >= pos);
        if p1 < ts {
            let wl = min_of(c.body@.len() as int, ts - p1);
            let next = min_of(p1 + c.body@.len(), ts);
            assert(c.body@.take(wl).len() == wl);
            lemma_placement_bounds(cs, k + 1, tail, full, ts, next, last1);
            let rest = middle_writes(cs, k + 1, tail, full, ts, next, last1);
            let ws = middle_writes(cs, k, tail, full, ts, pos, last);
            assert(ws == seq![(p1, c.body@.take(wl))] + rest);
            assert forall|j: int| 0 <= j < ws.len() implies {
                let w = #[trigger] ws[j];
                pos <= w.0 && w.0 + w.1.len() <= ts
            } by {
                if j > 0 {
                    assert(ws[j] == rest[j - 1]);
                } else {
                    assert(ws[0] == (p1, c.body@.take(wl)));
                }
            }
        } else {
            assert(middle_writes(cs, k, tail, full, ts, pos, last).len() == 0);
        }
    }
}

/// The zero padding left for missing chunks stays as it was: placing the
/// chunk numbered `h` that follows the chunk numbered `p`, and every chunk
/// after it, writes nothing into the `min((h - p - 1) * full, ts - pos)` bytes
/// skipped before it, so in a buffer that is zero there they stay zero.
pub proof fn lemma_padding_stays_zero(
    cs: Seq<ChunkInput>,
    k: int,
    tail: Option<int>,
    full: u64,
    ts: int,
    pos: int,
    p: u64,
    h: u64,
    buf: Seq<u8>,
    i: int,
)
    requires
        0 <= k < cs.len(),
        tail != Some(k),
        cs[k].body@.len() == full,
        cs[k].hex == Some(h),
        h > p + 1,
        0 <= pos < ts <= buf.len(),
        pos <= i < pos + min_of((h - p - 1) * full, ts - pos),
        buf[i] == 0,
    ensures
        apply_writes(buf, middle_writes(cs, k, tail, full, ts, pos, Some(p)))[i] == 0,
{
    let ws = middle_writes(cs, k, tail, full, ts, pos, Some(p));
    let q = pos + min_of((h - p - 1) * full, ts - pos);
    if q < ts {
        let c = cs[k];
        let next = min_of(q + c.body@.len(), ts);
        let rest = middle_writes(cs, k + 1, tail, full, ts, next, Some(h));
        let wl = min_of(c.body@.len() as int, ts - q);
        assert(ws == seq![(q, c.body@.take(wl))] + rest);
        lemma_placement_bounds(cs, k + 1, tail, full, ts, next, Some(h));
        assert forall|j: int| 0 <= j < ws.len() implies !writes_at(#[trigger] ws[j], i) by {
            if j > 0 {
                assert(ws[j] == rest[j - 1]);
            }
        }
    } else {
        assert(ws.len() == 0);
    }
    lemma_apply_untouched(buf, ws, i);
}

/// In the moov-at-end layout, every byte between the end of the header media
/// and the start of the tail that no middle chunk is written to is zero: the
/// padding left for missing chunks, and what placement did not reach.
pub proof fn lemma_unwritten_bytes_are_zero(
    hex: Option<u64>,
    h: Seq<u8>,
    cs: Seq<ChunkInput>,
    ftyp: Mp4Box,
    mdat: Mp4Box,
    moov_size: int,
    i: int,
)
    requires
        ftyp.offset + ftyp.size <= h.len(),
        mdat.offset + mdat.header_size <= h.len(),
        mdat.header_size == 8 || mdat.header_size == 16,
        moov_size >= 0,
        layout_media_end(h, ftyp, mdat) <= i < layout_tail_start(h, cs, ftyp, mdat, moov_size),
        forall|j: int|
            0 <= j < layout_middle_writes(hex, h, cs, ftyp, mdat, moov_size).len() ==> !writes_at(
                #[trigger] layout_middle_writes(hex, h, cs, ftyp, mdat, moov_size)[j],
                i,
            ),
    ensures
        0 <= i < moov_at_end_layout(hex, h, cs, ftyp, mdat, moov_size).len(),
        moov_at_end_layout(hex, h, cs, ftyp, mdat, moov_size)[i] == 0,
{
    let full = full_chunk_size(cs);
    let tail = tail_choice(cs, full);
    let fs = ftyp.size as int;
    let fo = ftyp.offset as int;
    let mo = mdat.offset as int;
    let mh = mdat.header_size as int;
    let gap = max_of(mo - (fo + fs), 0);
    let orig = original_size(h, ftyp, mdat, moov_size);
    let ms = fs + gap;
    let b0 = Seq::new(orig as nat, |k: int| 0u8);
    let b1 = overlay(b0, 0, h.subrange(fo, fo + fs));
    let b2 = if gap > 0 {
        overlay(b1, fs, h.subrange(fo + fs, mo))
    } else {
        b1
    };
    let hdr = mdat_header_bytes(mdat);
    assert(hdr.len() == mh);
    let b3 = overlay(b2, ms, hdr);
    let media = h.subrange(mo + mh, h.len() as int);
    let b4 = overlay(b3, ms + mh, media);
    assert(0 <= i < orig);
    assert(b1[i] == 0);
    assert(b2[i] == 0);
    assert(b3[i] == 0);
    assert(b4[i] == 0);
    let ws = layout_middle_writes(hex, h, cs, ftyp, mdat, moov_size);
    lemma_apply_untouched(b4, ws, i);
    let b5 = apply_writes(b4, ws);
    let ts = layout_tail_start(h, cs, ftyp, mdat, moov_size);
    match tail {
        Some(t) => {
            assert(overlay(b5, ts, cs[t].body@)[i] == b5[i]);
        },
        None => {},
    }
}

} // verus!
