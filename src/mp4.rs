//! ISO-BMFF box framing: the walk over top-level boxes, the search for a box
//! of one type, and the search anywhere in a buffer for a plausible `moov`.
use vstd::prelude::*;
use crate::wire::{be32, be64, be_u32, be_u64, lemma_be32_bound};
use crate::wire;

verus! {

/// Four-character code `ftyp`, read as a big-endian integer.
pub const FOURCC_FTYP: u32 = 0x6674_7970;

/// Four-character code `mdat`.
pub const FOURCC_MDAT: u32 = 0x6d64_6174;

/// Four-character code `moov`.
pub const FOURCC_MOOV: u32 = 0x6d6f_6f76;

/// Four-character code `mvhd`.
pub const FOURCC_MVHD: u32 = 0x6d76_6864;

/// Four-character code `trak`.
pub const FOURCC_TRAK: u32 = 0x7472_616b;

/// Smallest size accepted for a `moov` found by scanning.
pub const MOOV_MIN_SIZE: u32 = 500;

/// Largest size accepted for a `moov` found by scanning.
pub const MOOV_MAX_SIZE: u32 = 2_000_000;

/// One top-level box: where it starts, the size its header declares (for size
/// 0, the rest of the buffer), the length of that header, and its type.
#[derive(Clone, Copy, Debug, PartialEq, Eq, Structural)]
pub struct Mp4Box {
    pub offset: usize,
    pub size: u64,
    pub header_size: usize,
    pub fourcc: u32,
}

pub open spec fn printable(b: u8) -> bool {
    0x20 <= b && b <= 0x7e
}

/// The size and header length of the box whose header starts at `pos`.
pub open spec fn box_extent(d: Seq<u8>, pos: int) -> (int, int) {
    let s = be32(d, pos);
    if s == 1 {
        (be64(d, pos + 8), 16)
    } else if s == 0 {
        (d.len() - pos, 8)
    } else {
        (s, 8)
    }
}

/// A box header the walk accepts starts at `pos`: it is complete, declares at
/// least 8 bytes, and its type is printable ASCII.
pub open spec fn box_ok_at(d: Seq<u8>, pos: int) -> bool {
    &&& 0 <= pos && pos + 8 <= d.len()
    &&& be32(d, pos) == 1 ==> pos + 16 <= d.len()
    &&& box_extent(d, pos).0 >= 8
    &&& printable(d[pos + 4]) && printable(d[pos + 5]) && printable(d[pos + 6]) && printable(
        d[pos + 7],
    )
}

/// The box whose header starts at `pos`.
pub open spec fn box_at(d: Seq<u8>, pos: int) -> Mp4Box {
    Mp4Box {
        offset: pos as usize,
        size: box_extent(d, pos).0 as u64,
        header_size: box_extent(d, pos).1 as usize,
        fourcc: be32(d, pos + 4) as u32,
    }
}

/// The boxes that the walk from `pos` reaches: it stops at a header it does
/// not accept, and after a box that runs past the end of the buffer.
pub open spec fn top_boxes(d: Seq<u8>, pos: int) -> Seq<Mp4Box>
    decreases d.len() - pos,
{
    if !box_ok_at(d, pos) {
        Seq::empty()
    } else {
        let next = pos + box_extent(d, pos).0;
        if next > d.len() {
            seq![box_at(d, pos)]
        } else {
            seq![box_at(d, pos)] + top_boxes(d, next)
        }
    }
}

/// The first box of type `t` that the walk from `pos` reaches.
pub open spec fn find_box_from(d: Seq<u8>, pos: int, t: u32) -> Option<Mp4Box>
    decreases d.len() - pos,
{
    if !box_ok_at(d, pos) {
        None
    } else if be32(d, pos + 4) == t {
        Some(box_at(d, pos))
    } else {
        let next = pos + box_extent(d, pos).0;
        if next > d.len() {
            None
        } else {
            find_box_from(d, next, t)
        }
    }
}

/// The boxes from `pos` on that lie wholly inside the buffer.
pub open spec fn full_boxes(d: Seq<u8>, pos: int) -> Seq<Mp4Box>
    decreases d.len() - pos,
{
    if !box_ok_at(d, pos) {
        Seq::empty()
    } else {
        let next = pos + box_extent(d, pos).0;
        if next > d.len() {
            Seq::empty()
        } else {
            seq![box_at(d, pos)] + full_boxes(d, next)
        }
    }
}

/// The four bytes at `i` spell the code `t`.
pub open spec fn tag_at(d: Seq<u8>, i: int, t: u32) -> bool {
    0 <= i && i + 4 <= d.len() && be32(d, i) == t
}

/// The code `t` occurs in `d[lo..hi]`.
pub open spec fn has_tag(d: Seq<u8>, lo: int, hi: int, t: u32) -> bool {
    exists|i: int| lo <= i && i + 4 <= hi && #[trigger] tag_at(d, i, t)
}

/// A plausible `moov` box starts at `q`: its size lies in the accepted window,
/// it ends inside the buffer, and its bytes hold `mvhd` and `trak`.
pub open spec fn moov_candidate(d: Seq<u8>, q: int) -> bool {
    &&& 0 <= q && q + 8 <= d.len()
    &&& tag_at(d, q + 4, FOURCC_MOOV)
    &&& MOOV_MIN_SIZE <= be32(d, q) <= MOOV_MAX_SIZE
    &&& q + be32(d, q) <= d.len()
    &&& has_tag(d, q, q + be32(d, q), FOURCC_MVHD)
    &&& has_tag(d, q, q + be32(d, q), FOURCC_TRAK)
}

proof fn lemma_be64_bound(d: Seq<u8>, i: int)
    requires
        0 <= i && i + 8 <= d.len(),
    ensures
        0 <= be64(d, i) < 0x1_0000_0000_0000_0000,
{
    lemma_be32_bound(d, i);
    lemma_be32_bound(d, i + 4);
    let hi = be32(d, i);
    let lo = be32(d, i + 4);
    assert(0 <= hi * 0x1_0000_0000 + lo < 0x1_0000_0000_0000_0000) by (nonlinear_arith)
        requires
            0 <= hi < 0x1_0000_0000,
            0 <= lo < 0x1_0000_0000,
    ;
}

/// The code that the four bytes spell, as a big-endian integer.
pub fn fourcc_of(t: &[u8; 4]) -> (r: u32)
    ensures
        r as int == be32(t@, 0),
{
    let s: &[u8] = t.as_slice();
    be_u32(s, 0)
}

/// Reads the box header at `pos`, if the walk accepts it.
fn read_box(data: &[u8], pos: usize) -> (r: Option<Mp4Box>)
    requires
        pos <= data@.len(),
    ensures
        r is Some <==> box_ok_at(data@, pos as int),
        r matches Some(b) ==> b == box_at(data@, pos as int) && b.size as int == box_extent(
            data@,
            pos as int,
        ).0 && b.header_size as int == box_extent(data@, pos as int).1 && b.fourcc as int == be32(
            data@,
            pos as int + 4,
        ),
{
    let n = data.len();
    if n - pos < 8 {
        return None;
    }
    let size32 = be_u32(data, pos);
    let fourcc = be_u32(data, pos + 4);
    let (size, header_size): (u64, usize) = if size32 == 1 {
        if n - pos < 16 {
            return None;
        }
        proof {
            lemma_be64_bound(data@, pos + 8);
        }
        (be_u64(data, pos + 8), 16)
    } else if size32 == 0 {
        ((n - pos) as u64, 8)
    } else {
        (size32 as u64, 8)
    };
    if size < 8 {
        return None;
    }
    if !(0x20 <= data[pos + 4] && data[pos + 4] <= 0x7e && 0x20 <= data[pos + 5] && data[pos + 5]
        <= 0x7e && 0x20 <= data[pos + 6] && data[pos + 6] <= 0x7e && 0x20 <= data[pos + 7]
        && data[pos + 7] <= 0x7e) {
        return None;
    }
    proof {
        lemma_be32_bound(data@, pos + 4);
    }
    Some(Mp4Box { offset: pos, size, header_size, fourcc })
}

/// Walks the top-level boxes and returns the first of type `t`.
pub fn find_box(data: &[u8], t: u32) -> (r: Option<Mp4Box>)
    ensures
        r == find_box_from(data@, 0, t),
        r matches Some(b) ==> b.offset + b.header_size <= data@.len() && b.size >= 8,
{
    let n = data.len();
    let mut pos: usize = 0;
    loop
        invariant
            pos <= n,
            n == data@.len(),
            find_box_from(data@, 0, t) == find_box_from(data@, pos as int, t),
        decreases n - pos,
    {
        let b = match read_box(data, pos) {
            Some(b) => b,
            None => return None,
        };
        if b.fourcc == t {
            return Some(b);
        }
        if b.size > (n - pos) as u64 {
            return None;
        }
        pos = pos + b.size as usize;
    }
}

/// Walks the top-level boxes and returns the first of type `box_type` as
/// (offset, declared size, header size). The walk stops at a header declaring
/// less than 8 bytes or a non-printable type, and after a box that runs past
/// the end of the buffer; the box found may itself run past the end.
pub fn find_mp4_box(data: &[u8], box_type: &[u8; 4]) -> (r: Option<(usize, u64, usize)>)
    ensures
        r == (match find_box_from(data@, 0, be32(box_type@, 0) as u32) {
            Some(b) => Some((b.offset, b.size, b.header_size)),
            None => None,
        }),
{
    let t = fourcc_of(box_type);
    match find_box(data, t) {
        Some(b) => Some((b.offset, b.size, b.header_size)),
        None => None,
    }
}

/// Whether the code `t` occurs in `data[lo..hi]`.
fn find_tag(data: &[u8], lo: usize, hi: usize, t: u32) -> (r: bool)
    requires
        lo <= hi <= data@.len(),
    ensures
        r == has_tag(data@, lo as int, hi as int, t),
{
    let mut i = lo;
    while i < hi && hi - i >= 4
        invariant
            lo <= i <= hi,
            hi <= data@.len(),
            forall|k: int| lo <= k < i ==> !#[trigger] tag_at(data@, k, t),
        decreases hi - i,
    {
        if be_u32(data, i) == t {
            assert(tag_at(data@, i as int, t));
            return true;
        }
        i = i + 1;
    }
    false
}

/// Whether a plausible `moov` box starts at `q`.
fn is_moov_candidate(data: &[u8], q: usize) -> (r: bool)
    requires
        q <= data@.len(),
    ensures
        r == moov_candidate(data@, q as int),
{
    let n = data.len();
    if n - q < 8 {
        return false;
    }
    if be_u32(data, q + 4) != FOURCC_MOOV {
        return false;
    }
    let size = be_u32(data, q);
    if size < MOOV_MIN_SIZE || size > MOOV_MAX_SIZE {
        return false;
    }
    if size as usize > n - q {
        return false;
    }
    let end = q + size as usize;
    find_tag(data, q, end, FOURCC_MVHD) && find_tag(data, q, end, FOURCC_TRAK)
}

/// Scans the whole buffer, not only its top-level boxes, for the first
/// plausible `moov` box and returns its (offset, size). A candidate is the
/// code `moov` preceded by a size between 500 and 2,000,000 whose extent lies
/// inside the buffer and holds the codes `mvhd` and `trak`.
pub fn scan_for_moov(data: &[u8]) -> (r: Option<(usize, usize)>)
    ensures
        r is None <==> forall|q: int| 0 <= q < data@.len() ==> !#[trigger] moov_candidate(data@, q),
        r matches Some((o, s)) ==> moov_candidate(data@, o as int) && s as int == be32(
            data@,
            o as int,
        ) && o + s <= data@.len() && forall|q: int| 0 <= q < o ==> !#[trigger] moov_candidate(
            data@,
            q,
        ),
{
    let n = data.len();
    let mut q: usize = 0;
    while q < n
        invariant
            q <= n,
            n == data@.len(),
            forall|k: int| 0 <= k < q ==> !#[trigger] moov_candidate(data@, k),
        decreases n - q,
    {
        if is_moov_candidate(data, q) {
            let size = be_u32(data, q) as usize;
            return Some((q, size));
        }
        q = q + 1;
    }
    None
}

/// How many of the boxes are `moov` boxes.
pub open spec fn moov_count(bs: Seq<Mp4Box>) -> nat
    decreases bs.len(),
{
    if bs.len() == 0 {
        0
    } else {
        (if bs[0].fourcc == FOURCC_MOOV {
            1nat
        } else {
            0nat
        }) + moov_count(bs.drop_first())
    }
}

/// The bytes of the boxes in order, leaving out every `moov` box once a `moov`
/// has been kept (`seen`: one was kept before these boxes).
pub open spec fn dedup_bytes(d: Seq<u8>, bs: Seq<Mp4Box>, seen: bool) -> Seq<u8>
    decreases bs.len(),
{
    if bs.len() == 0 {
        Seq::empty()
    } else {
        let b = bs[0];
        let is_moov = b.fourcc == FOURCC_MOOV;
        let rest = dedup_bytes(d, bs.drop_first(), seen || is_moov);
        if is_moov && seen {
            rest
        } else {
            d.subrange(b.offset as int, b.offset + b.size) + rest
        }
    }
}

/// Every box lies inside the buffer.
pub open spec fn boxes_in(d: Seq<u8>, bs: Seq<Mp4Box>) -> bool {
    forall|k: int| 0 <= k < bs.len() ==> #[trigger] bs[k].offset + bs[k].size <= d.len()
}

proof fn lemma_full_boxes_in(d: Seq<u8>, pos: int)
    requires
        d.len() <= usize::MAX,
    ensures
        boxes_in(d, full_boxes(d, pos)),
    decreases d.len() - pos,
{
    if box_ok_at(d, pos) {
        let next = pos + box_extent(d, pos).0;
        if next <= d.len() {
            lemma_full_boxes_in(d, next);
            let bs = full_boxes(d, pos);
            assert(bs == seq![box_at(d, pos)] + full_boxes(d, next));
            if be32(d, pos) == 1 {
                lemma_be64_bound(d, pos + 8);
            }
            assert forall|k: int| 0 <= k < bs.len() implies #[trigger] bs[k].offset + bs[k].size
                <= d.len() by {
                if k > 0 {
                    let b = full_boxes(d, next)[k - 1];
                    assert(bs[k] == b);
                    assert(b.offset + b.size <= d.len());
                }
            }
        }
    }
}

/// The top-level boxes that lie wholly inside the buffer, in order.
pub fn top_level_boxes(data: &[u8]) -> (r: Vec<Mp4Box>)
    ensures
        r@ == full_boxes(data@, 0),
        boxes_in(data@, r@),
{
    let n = data.len();
    let mut v: Vec<Mp4Box> = Vec::new();
    let mut pos: usize = 0;
    loop
        invariant
            pos <= n,
            n == data@.len(),
            v@ + full_boxes(data@, pos as int) == full_boxes(data@, 0),
        ensures
            v@ == full_boxes(data@, 0),
        decreases n - pos,
    {
        let b = match read_box(data, pos) {
            Some(b) => b,
            None => {
                assert(v@ + full_boxes(data@, pos as int) =~= v@);
                break;
            },
        };
        if b.size > (n - pos) as u64 {
            assert(v@ + full_boxes(data@, pos as int) =~= v@);
            break;
        }
        let next = pos + b.size as usize;
        assert(full_boxes(data@, pos as int) == seq![b] + full_boxes(data@, next as int));
        assert(v@.push(b) + full_boxes(data@, next as int) =~= v@ + (seq![b] + full_boxes(
            data@,
            next as int,
        )));
        v.push(b);
        pos = next;
    }
    proof {
        lemma_full_boxes_in(data@, 0);
    }
    v
}

/// Counts the top-level `moov` boxes. Where there are two or more, also
/// returns the buffer rebuilt from the top-level boxes in order with only the
/// first `moov` kept; otherwise nothing is to change. The count is reported up
/// to `u32::MAX`.
pub fn dedup_moov(data: &[u8]) -> (r: (u32, Option<Vec<u8>>))
    ensures
        r.0 as int == if moov_count(full_boxes(data@, 0)) > u32::MAX {
            u32::MAX as int
        } else {
            moov_count(full_boxes(data@, 0)) as int
        },
        r.1 is Some <==> moov_count(full_boxes(data@, 0)) > 1,
        r.1 matches Some(v) ==> v@ == dedup_bytes(data@, full_boxes(data@, 0), false),
{
    let n = data.len();
    let bs = top_level_boxes(data);
    let m = bs.len();
    let mut count: u32 = 0;
    let ghost mut total: nat = 0;
    let mut k = m;
    assert(bs@.subrange(m as int, m as int).len() == 0);
    while k > 0
        invariant
            k <= m,
            m == bs@.len(),
            total == moov_count(bs@.subrange(k as int, m as int)),
            count as int == if total > u32::MAX {
                u32::MAX as int
            } else {
                total as int
            },
        decreases k,
    {
        k = k - 1;
        assert(bs@.subrange(k as int, m as int).drop_first() =~= bs@.subrange(
            k as int + 1,
            m as int,
        ));
        assert(bs@.subrange(k as int, m as int)[0] == bs@[k as int]);
        if bs[k].fourcc == FOURCC_MOOV {
            proof {
                total = total + 1;
            }
            count = count.saturating_add(1);
        }
    }
    assert(bs@.subrange(0, m as int) =~= bs@);
    if count <= 1 {
        return (count, None);
    }
    let mut out: Vec<u8> = Vec::new();
    let mut seen = false;
    let mut k: usize = 0;
    while k < m
        invariant
            k <= m,
            m == bs@.len(),
            boxes_in(data@, bs@),
            n == data@.len(),
            out@ + dedup_bytes(data@, bs@.subrange(k as int, m as int), seen) == dedup_bytes(
                data@,
                bs@,
                false,
            ),
        decreases m - k,
    {
        let b = bs[k];
        assert(bs@.subrange(k as int, m as int).drop_first() =~= bs@.subrange(
            k as int + 1,
            m as int,
        ));
        assert(bs@.subrange(k as int, m as int)[0] == b);
        let is_moov = b.fourcc == FOURCC_MOOV;
        if !(is_moov && seen) {
            assert(b.offset + b.size <= data@.len());
            let piece = &data[b.offset..b.offset + b.size as usize];
            let ghost before = out@;
            out.extend_from_slice(piece);
            assert(out@ =~= before + data@.subrange(b.offset as int, b.offset + b.size));
        }
        seen = seen || is_moov;
        k = k + 1;
    }
    assert(bs@.subrange(m as int, m as int) =~= Seq::<Mp4Box>::empty());
    assert(out@ =~= out@ + dedup_bytes(data@, bs@.subrange(m as int, m as int), seen));
    (count, Some(out))
}

proof fn lemma_find_in_walk(d: Seq<u8>, pos: int, t: u32)
    ensures
        find_box_from(d, pos, t) is Some <==> exists|k: int|
            0 <= k < top_boxes(d, pos).len() && #[trigger] top_boxes(d, pos)[k].fourcc == t,
        find_box_from(d, pos, t) matches Some(b) ==> exists|k: int|
            0 <= k < top_boxes(d, pos).len() && #[trigger] top_boxes(d, pos)[k] == b && forall|
                i: int,
            |
                0 <= i < k ==> (#[trigger] top_boxes(d, pos)[i]).fourcc != t,
    decreases d.len() - pos,
{
    if box_ok_at(d, pos) {
        let next = pos + box_extent(d, pos).0;
        let bs = top_boxes(d, pos);
        lemma_be32_bound(d, pos + 4);
        assert(bs[0] == box_at(d, pos));
        if be32(d, pos + 4) == t {
            assert(bs[0].fourcc == t);
        } else if next <= d.len() {
            lemma_find_in_walk(d, next, t);
            let rest = top_boxes(d, next);
            assert(bs == seq![box_at(d, pos)] + rest);
            if exists|k: int| 0 <= k < bs.len() && #[trigger] bs[k].fourcc == t {
                let k = choose|k: int| 0 <= k < bs.len() && #[trigger] bs[k].fourcc == t;
                assert(rest[k - 1].fourcc == t);
            }
            if exists|k: int| 0 <= k < rest.len() && #[trigger] rest[k].fourcc == t {
                let k = choose|k: int| 0 <= k < rest.len() && #[trigger] rest[k].fourcc == t;
                assert(bs[k + 1].fourcc == t);
            }
            if let Some(b) = find_box_from(d, next, t) {
                let k = choose|k: int|
                    0 <= k < rest.len() && #[trigger] rest[k] == b && forall|i: int|
                        0 <= i < k ==> (#[trigger] rest[i]).fourcc != t;
                assert(bs[k + 1] == b);
                assert forall|i: int| 0 <= i < k + 1 implies (#[trigger] bs[i]).fourcc != t by {
                    if i > 0 {
                        assert(bs[i] == rest[i - 1]);
                    }
                }
            }
        } else {
            assert(bs == seq![box_at(d, pos)]);
        }
    }
}

/// The search for a box of type `t` finds one exactly when the top-level walk
/// reaches a box of that type, and then finds the first such box of the walk.
/// Every box of the walk but the last lies inside the buffer.
pub proof fn lemma_find_box_in_walk(d: Seq<u8>, t: u32)
    requires
        d.len() <= usize::MAX,
    ensures
        find_box_from(d, 0, t) is Some <==> exists|k: int|
            0 <= k < top_boxes(d, 0).len() && #[trigger] top_boxes(d, 0)[k].fourcc == t,
        find_box_from(d, 0, t) matches Some(b) ==> exists|k: int|
            0 <= k < top_boxes(d, 0).len() && #[trigger] top_boxes(d, 0)[k] == b && forall|i: int|
                0 <= i < k ==> (#[trigger] top_boxes(d, 0)[i]).fourcc != t,
        forall|k: int|
            0 <= k < top_boxes(d, 0).len() - 1 ==> #[trigger] top_boxes(d, 0)[k].offset
                + top_boxes(d, 0)[k].size <= d.len(),
{
    lemma_find_in_walk(d, 0, t);
    lemma_walk_bounds(d, 0);
}

proof fn lemma_walk_bounds(d: Seq<u8>, pos: int)
    requires
        d.len() <= usize::MAX,
    ensures
        forall|k: int|
            0 <= k < top_boxes(d, pos).len() - 1 ==> #[trigger] top_boxes(d, pos)[k].offset
                + top_boxes(d, pos)[k].size <= d.len(),
    decreases d.len() - pos,
{
    if box_ok_at(d, pos) {
        let next = pos + box_extent(d, pos).0;
        if next <= d.len() {
            lemma_walk_bounds(d, next);
            let bs = top_boxes(d, pos);
            let rest = top_boxes(d, next);
            assert(bs == seq![box_at(d, pos)] + rest);
            if be32(d, pos) == 1 {
                lemma_be64_bound(d, pos + 8);
            }
            assert forall|k: int| 0 <= k < bs.len() - 1 implies #[trigger] bs[k].offset
                + bs[k].size <= d.len() by {
                if k > 0 {
                    assert(bs[k] == rest[k - 1]);
                }
            }
        }
    }
}

/// The boxes that survive the removal of duplicate `moov` boxes (`seen`: a
/// `moov` was kept before these boxes).
pub open spec fn kept_boxes(bs: Seq<Mp4Box>, seen: bool) -> Seq<Mp4Box>
    decreases bs.len(),
{
    if bs.len() == 0 {
        Seq::empty()
    } else {
        let b = bs[0];
        let is_moov = b.fourcc == FOURCC_MOOV;
        let rest = kept_boxes(bs.drop_first(), seen || is_moov);
        if is_moov && seen {
            rest
        } else {
            seq![b] + rest
        }
    }
}

/// The bytes of the boxes, one after the other.
pub open spec fn blocks(d: Seq<u8>, ks: Seq<Mp4Box>) -> Seq<u8>
    decreases ks.len(),
{
    if ks.len() == 0 {
        Seq::empty()
    } else {
        d.subrange(ks[0].offset as int, ks[0].offset + ks[0].size) + blocks(d, ks.drop_first())
    }
}

/// The types of the boxes, in order.
pub open spec fn codes(bs: Seq<Mp4Box>) -> Seq<u32> {
    Seq::new(bs.len(), |i: int| bs[i].fourcc)
}

/// Each box is one the walk accepts in `d`, lies inside `d`, holds its whole
/// header, and only the last may extend to the end of the buffer (size 0).
pub open spec fn wf_blocks(d: Seq<u8>, ks: Seq<Mp4Box>) -> bool {
    forall|i: int|
        0 <= i < ks.len() ==> {
            let o = (#[trigger] ks[i]).offset as int;
            &&& box_ok_at(d, o)
            &&& ks[i] == box_at(d, o)
            &&& o + ks[i].size <= d.len()
            &&& (be32(d, o) == 1 ==> ks[i].size >= 16)
            &&& (be32(d, o) == 0 ==> i == ks.len() - 1)
        }
}

proof fn lemma_dedup_is_blocks(d: Seq<u8>, bs: Seq<Mp4Box>, seen: bool)
    ensures
        dedup_bytes(d, bs, seen) == blocks(d, kept_boxes(bs, seen)),
    decreases bs.len(),
{
    if bs.len() > 0 {
        let b = bs[0];
        let s2 = seen || b.fourcc == FOURCC_MOOV;
        lemma_dedup_is_blocks(d, bs.drop_first(), s2);
        if !(b.fourcc == FOURCC_MOOV && seen) {
            let ks = seq![b] + kept_boxes(bs.drop_first(), s2);
            assert(ks.drop_first() =~= kept_boxes(bs.drop_first(), s2));
        }
    }
}

proof fn lemma_moov_count_codes(a: Seq<Mp4Box>, b: Seq<Mp4Box>)
    requires
        codes(a) == codes(b),
    ensures
        moov_count(a) == moov_count(b),
    decreases a.len(),
{
    assert(a.len() == codes(a).len());
    assert(b.len() == codes(b).len());
    if a.len() > 0 {
        assert(a[0].fourcc == codes(a)[0]);
        assert(b[0].fourcc == codes(b)[0]);
        assert forall|i: int| 0 <= i < a.len() - 1 implies codes(a.drop_first())[i] == codes(
            b.drop_first(),
        )[i] by {
            assert(codes(a)[i + 1] == a[i + 1].fourcc);
            assert(codes(b)[i + 1] == b[i + 1].fourcc);
            assert(codes(a)[i + 1] == codes(b)[i + 1]);
            assert(codes(a.drop_first())[i] == a[i + 1].fourcc);
            assert(codes(b.drop_first())[i] == b[i + 1].fourcc);
        }
        assert(codes(a.drop_first()) =~= codes(b.drop_first()));
        lemma_moov_count_codes(a.drop_first(), b.drop_first());
    }
}

proof fn lemma_be_shift(x: Seq<u8>, y: Seq<u8>, p: int)
    requires
        0 <= p && p + 8 <= y.len(),
    ensures
        be32(x + y, x.len() + p) == be32(y, p),
        be32(x + y, x.len() + p + 4) == be32(y, p + 4),
        be64(x + y, x.len() + p) == be64(y, p),
{
    reveal(be32);
    let z = x + y;
    assert(z[x.len() + p] == y[p]);
    assert(z[x.len() + p + 1] == y[p + 1]);
    assert(z[x.len() + p + 2] == y[p + 2]);
    assert(z[x.len() + p + 3] == y[p + 3]);
    assert(z[x.len() + p + 4] == y[p + 4]);
    assert(z[x.len() + p + 5] == y[p + 5]);
    assert(z[x.len() + p + 6] == y[p + 6]);
    assert(z[x.len() + p + 7] == y[p + 7]);
}

/// Walking `x + y` from inside `y` meets the boxes of `y`, type for type.
proof fn lemma_walk_shift(x: Seq<u8>, y: Seq<u8>, p: int)
    requires
        0 <= p <= y.len(),
    ensures
        codes(full_boxes(x + y, x.len() + p)) == codes(full_boxes(y, p)),
    decreases y.len() - p,
{
    let z = x + y;
    let q = x.len() + p;
    if p + 8 <= y.len() {
        lemma_be_shift(x, y, p);
        assert(z[q + 4] == y[p + 4] && z[q + 5] == y[p + 5] && z[q + 6] == y[p + 6] && z[q + 7] == y[
            p + 7
        ]);
        if be32(y, p) == 1 && p + 16 <= y.len() {
            lemma_be_shift(x, y, p + 8);
        }
        assert(box_ok_at(z, q) == box_ok_at(y, p));
        if box_ok_at(y, p) {
            assert(box_extent(z, q) == box_extent(y, p));
            let next = p + box_extent(y, p).0;
            if next <= y.len() {
                lemma_walk_shift(x, y, next);
                let fz = full_boxes(z, q);
                let fy = full_boxes(y, p);
                assert(fz == seq![box_at(z, q)] + full_boxes(z, x.len() + next));
                assert(fy == seq![box_at(y, p)] + full_boxes(y, next));
                let tz = full_boxes(z, x.len() + next);
                let ty = full_boxes(y, next);
                assert(codes(tz).len() == tz.len());
                assert(codes(ty).len() == ty.len());
                assert(tz.len() == ty.len());
                assert(fz.len() == fy.len());
                assert forall|i: int| 0 <= i < fz.len() implies codes(fz)[i] == codes(fy)[i] by {
                    if i > 0 {
                        assert(fz[i] == tz[i - 1]);
                        assert(fy[i] == ty[i - 1]);
                        assert(codes(tz)[i - 1] == tz[i - 1].fourcc);
                        assert(codes(ty)[i - 1] == ty[i - 1].fourcc);
                    } else {
                        assert(fz[0] == box_at(z, q));
                        assert(fy[0] == box_at(y, p));
                    }
                }
                assert(codes(fz) =~= codes(fy));
            }
        }
    } else {
        assert(!box_ok_at(z, q));
        assert(!box_ok_at(y, p));
        assert(codes(full_boxes(z, q)) =~= codes(full_boxes(y, p)));
    }
}

proof fn lemma_header_copy(d: Seq<u8>, o: int, f: Seq<u8>, m: int)
    requires
        8 <= m <= f.len(),
        0 <= o && o + m <= d.len(),
        forall|i: int| 0 <= i < m ==> f[i] == d[o + i],
    ensures
        be32(f, 0) == be32(d, o),
        be32(f, 4) == be32(d, o + 4),
        m >= 16 ==> be64(f, 8) == be64(d, o + 8),
        f[4] == d[o + 4] && f[5] == d[o + 5] && f[6] == d[o + 6] && f[7] == d[o + 7],
{
    reveal(be32);
    assert(f[0] == d[o] && f[1] == d[o + 1] && f[2] == d[o + 2] && f[3] == d[o + 3]);
    assert(f[4] == d[o + 4] && f[5] == d[o + 5] && f[6] == d[o + 6] && f[7] == d[o + 7]);
    if m >= 16 {
        assert(f[8] == d[o + 8] && f[9] == d[o + 9] && f[10] == d[o + 10] && f[11] == d[o + 11]);
        assert(f[12] == d[o + 12] && f[13] == d[o + 13] && f[14] == d[o + 14] && f[15] == d[o
            + 15]);
    }
}

proof fn lemma_wf_tail(d: Seq<u8>, ks: Seq<Mp4Box>)
    requires
        wf_blocks(d, ks),
        ks.len() > 0,
    ensures
        wf_blocks(d, ks.drop_first()),
{
    let t = ks.drop_first();
    assert forall|i: int| 0 <= i < t.len() implies {
        let o = (#[trigger] t[i]).offset as int;
        &&& box_ok_at(d, o)
        &&& t[i] == box_at(d, o)
        &&& o + t[i].size <= d.len()
        &&& (be32(d, o) == 1 ==> t[i].size >= 16)
        &&& (be32(d, o) == 0 ==> i == t.len() - 1)
    } by {
        assert(t[i] == ks[i + 1]);
    }
}

/// Walking the bytes of well-formed boxes laid end to end meets those boxes,
/// type for type.
proof fn lemma_blocks_walk(d: Seq<u8>, ks: Seq<Mp4Box>)
    requires
        d.len() <= usize::MAX,
        wf_blocks(d, ks),
    ensures
        codes(full_boxes(blocks(d, ks), 0)) == codes(ks),
    decreases ks.len(),
{
    let f = blocks(d, ks);
    if ks.len() == 0 {
        assert(!box_ok_at(f, 0));
        assert(codes(full_boxes(f, 0)) =~= codes(ks));
    } else {
        let k = ks[0];
        let o = k.offset as int;
        let sz = k.size as int;
        assert(box_ok_at(d, o) && k == box_at(d, o) && o + sz <= d.len());
        lemma_be32_bound(d, o);
        if be32(d, o) == 1 {
            lemma_be64_bound(d, o + 8);
        }
        assert(sz == box_extent(d, o).0);
        let b = d.subrange(o, o + sz);
        let rest = ks.drop_first();
        lemma_wf_tail(d, ks);
        lemma_blocks_walk(d, rest);
        let r = blocks(d, rest);
        assert(f == b + r);
        assert(sz >= 8);
        assert forall|i: int| 0 <= i < sz implies f[i] == d[o + i] by {
            assert(f[i] == b[i]);
        }
        lemma_header_copy(d, o, f, if be32(d, o) == 1 { 16 } else { 8 });
        if be32(d, o) == 0 {
            assert(ks.len() == 1);
            assert(rest.len() == 0);
            assert(r =~= Seq::<u8>::empty());
        }
        assert(box_ok_at(f, 0));
        assert(box_extent(f, 0).0 == sz);
        lemma_walk_shift(b, r, 0);
        let fz = full_boxes(f, 0);
        let tz = full_boxes(f, sz);
        let ty = full_boxes(r, 0);
        assert(b + r == f);
        assert(fz == seq![box_at(f, 0)] + tz);
        assert(codes(tz) == codes(ty));
        assert(codes(tz).len() == tz.len() && codes(ty).len() == ty.len());
        assert(codes(ty) == codes(rest));
        assert(codes(rest).len() == rest.len());
        assert forall|i: int| 0 <= i < fz.len() implies codes(fz)[i] == codes(ks)[i] by {
            if i > 0 {
                assert(fz[i] == tz[i - 1]);
                assert(codes(tz)[i - 1] == tz[i - 1].fourcc);
                assert(codes(ty)[i - 1] == ty[i - 1].fourcc);
                assert(codes(rest)[i - 1] == rest[i - 1].fourcc);
                assert(rest[i - 1] == ks[i]);
            } else {
                lemma_be32_bound(d, o + 4);
                lemma_be32_bound(f, 4);
            }
        }
        assert(codes(fz) =~= codes(ks));
    }
}

proof fn lemma_full_boxes_wf(d: Seq<u8>, pos: int)
    requires
        d.len() <= usize::MAX,
        0 <= pos,
        forall|i: int|
            0 <= i < full_boxes(d, pos).len() && (#[trigger] full_boxes(d, pos)[i]).header_size
                == 16 ==> full_boxes(d, pos)[i].size >= 16,
    ensures
        wf_blocks(d, full_boxes(d, pos)),
    decreases d.len() - pos,
{
    let bs = full_boxes(d, pos);
    if box_ok_at(d, pos) {
        let next = pos + box_extent(d, pos).0;
        if next <= d.len() {
            let rest = full_boxes(d, next);
            assert(bs == seq![box_at(d, pos)] + rest);
            assert forall|i: int|
                0 <= i < rest.len() && (#[trigger] rest[i]).header_size == 16 implies rest[i].size
                >= 16 by {
                assert(bs[i + 1] == rest[i]);
            }
            lemma_full_boxes_wf(d, next);
            if be32(d, pos) == 1 {
                lemma_be64_bound(d, pos + 8);
            }
            if be32(d, pos) == 0 {
                assert(!box_ok_at(d, next));
                assert(rest.len() == 0);
            }
            assert(bs[0] == box_at(d, pos));
            assert forall|i: int| 0 <= i < bs.len() implies {
                let o = (#[trigger] bs[i]).offset as int;
                &&& box_ok_at(d, o)
                &&& bs[i] == box_at(d, o)
                &&& o + bs[i].size <= d.len()
                &&& (be32(d, o) == 1 ==> bs[i].size >= 16)
                &&& (be32(d, o) == 0 ==> i == bs.len() - 1)
            } by {
                if i > 0 {
                    assert(bs[i] == rest[i - 1]);
                }
            }
        }
    }
}

proof fn lemma_kept_wf(d: Seq<u8>, bs: Seq<Mp4Box>, seen: bool)
    requires
        wf_blocks(d, bs),
    ensures
        wf_blocks(d, kept_boxes(bs, seen)),
    decreases bs.len(),
{
    if bs.len() > 0 {
        let b = bs[0];
        let s2 = seen || b.fourcc == FOURCC_MOOV;
        lemma_wf_tail(d, bs);
        lemma_kept_wf(d, bs.drop_first(), s2);
        let k = kept_boxes(bs.drop_first(), s2);
        if !(b.fourcc == FOURCC_MOOV && seen) {
            let ks = seq![b] + k;
            if be32(d, b.offset as int) == 0 {
                assert(bs.len() == 1);
                assert(k.len() == 0);
            }
            assert forall|i: int| 0 <= i < ks.len() implies {
                let o = (#[trigger] ks[i]).offset as int;
                &&& box_ok_at(d, o)
                &&& ks[i] == box_at(d, o)
                &&& o + ks[i].size <= d.len()
                &&& (be32(d, o) == 1 ==> ks[i].size >= 16)
                &&& (be32(d, o) == 0 ==> i == ks.len() - 1)
            } by {
                if i > 0 {
                    assert(ks[i] == k[i - 1]);
                } else {
                    assert(ks[0] == bs[0]);
                }
            }
        }
    }
}

proof fn lemma_kept_moov_count(bs: Seq<Mp4Box>, seen: bool)
    ensures
        moov_count(kept_boxes(bs, seen)) == if !seen && moov_count(bs) > 0 {
            1nat
        } else {
            0nat
        },
    decreases bs.len(),
{
    if bs.len() > 0 {
        let b = bs[0];
        let s2 = seen || b.fourcc == FOURCC_MOOV;
        lemma_kept_moov_count(bs.drop_first(), s2);
        if !(b.fourcc == FOURCC_MOOV && seen) {
            let ks = seq![b] + kept_boxes(bs.drop_first(), s2);
            assert(ks.drop_first() =~= kept_boxes(bs.drop_first(), s2));
        }
    }
}

/// Removing duplicate `moov` boxes is done once for all: the rebuilt buffer
/// has exactly one top-level `moov`, so a second pass finds one and changes
/// nothing. Boxes of the extended form must hold their whole 16-byte header.
pub proof fn lemma_dedup_idempotent(d: Seq<u8>)
    requires
        d.len() <= usize::MAX,
        moov_count(full_boxes(d, 0)) > 1,
        forall|i: int|
            0 <= i < full_boxes(d, 0).len() && (#[trigger] full_boxes(d, 0)[i]).header_size == 16
                ==> full_boxes(d, 0)[i].size >= 16,
    ensures
        moov_count(full_boxes(dedup_bytes(d, full_boxes(d, 0), false), 0)) == 1,
{
    let bs = full_boxes(d, 0);
    lemma_full_boxes_wf(d, 0);
    lemma_kept_wf(d, bs, false);
    let ks = kept_boxes(bs, false);
    lemma_dedup_is_blocks(d, bs, false);
    lemma_blocks_walk(d, ks);
    lemma_moov_count_codes(full_boxes(blocks(d, ks), 0), ks);
    lemma_kept_moov_count(bs, false);
}

} // verus!
