//! What an entry file holds for its reader: the HTTP body, chosen by the kind
//! of entry its name shows, and the Content-Type of its stored headers.
use vstd::prelude::*;
use vstd::string::StringSliceAdditionalSpecFns;
use crate::names::{simple_name, is_stream2_file_name, is_sparse_file_name};
use crate::simple_cache::{strip_wrapper, stripped, extract_simple_cache_headers, stream0_headers};
use crate::sparse::{SparseError, reassemble_sparse_data, reassembled};
use crate::text::{file_name_of, bare_name, lossy_text, lossy_text_of, trim, trimmed_of, lowercase, lowercase_of};

verus! {

/// How the bytes of an entry file are read.
#[derive(Clone, Copy, Debug, PartialEq, Eq, Structural)]
pub enum EntryKind {
    /// A sparse (`_s`) entry: range records to reassemble.
    Sparse,
    /// A stream-2 (`_1`) entry: one trailing EOF record.
    Stream2,
    /// A stream-1 (`_0`) entry, or a blockfile entry holding the body as is.
    Plain,
}

/// Why no Content-Type can be read from an entry file.
#[derive(Clone, Copy, Debug, PartialEq, Eq, Structural)]
pub enum ContentTypeError {
    /// The file is no Simple Cache entry, or it stores no headers.
    NoHeaders,
    /// The stored headers hold no Content-Type.
    NoContentType,
}

pub open spec fn kind_of_name(name: Seq<u8>) -> EntryKind {
    if simple_name(name, 0x73) {
        EntryKind::Sparse
    } else if simple_name(name, 0x31) {
        EntryKind::Stream2
    } else {
        EntryKind::Plain
    }
}

/// The HTTP body that an entry file of the given kind holds.
pub open spec fn body_of(d: Seq<u8>, kind: EntryKind) -> Result<Seq<u8>, SparseError> {
    match kind {
        EntryKind::Sparse => reassembled(d),
        EntryKind::Stream2 => Ok(stripped(d, true)),
        EntryKind::Plain => Ok(stripped(d, false)),
    }
}

/// The kind of entry a file name shows.
pub fn entry_kind_of_name(name: &str) -> (r: EntryKind)
    ensures
        r == kind_of_name(name.spec_bytes()),
{
    if is_sparse_file_name(name) {
        EntryKind::Sparse
    } else if is_stream2_file_name(name) {
        EntryKind::Stream2
    } else {
        EntryKind::Plain
    }
}

/// The kind of entry the last component of a path shows.
pub fn entry_kind(path: &str) -> (r: EntryKind)
    ensures
        bare_name(path@) ==> r == kind_of_name(path.spec_bytes()),
{
    entry_kind_of_name(file_name_of(path))
}

/// The HTTP body of an entry file of the given kind.
pub fn cache_body(data: Vec<u8>, kind: EntryKind) -> (r: Result<Vec<u8>, SparseError>)
    ensures
        match r {
            Ok(v) => body_of(data@, kind) == Ok::<Seq<u8>, SparseError>(v@),
            Err(e) => body_of(data@, kind) == Err::<Seq<u8>, SparseError>(e),
        },
{
    match kind {
        EntryKind::Sparse => reassemble_sparse_data(data.as_slice()),
        EntryKind::Stream2 => Ok(strip_wrapper(data, true)),
        EntryKind::Plain => Ok(strip_wrapper(data, false)),
    }
}

/// The HTTP body of the entry file at `path`, whose bytes are `data`: sparse
/// entries are reassembled, stream-1 and stream-2 entries stripped of their
/// framing, other files returned as they are.
pub fn read_cache_body(path: &str, data: Vec<u8>) -> (r: Result<Vec<u8>, SparseError>)
    ensures
        match r {
            Ok(v) => body_of(data@, EntryKind::Sparse) == Ok::<Seq<u8>, SparseError>(v@) || v@
                == stripped(data@, true) || v@ == stripped(data@, false),
            Err(e) => body_of(data@, EntryKind::Sparse) == Err::<Seq<u8>, SparseError>(e),
        },
        bare_name(path@) ==> match r {
            Ok(v) => body_of(data@, kind_of_name(path.spec_bytes())) == Ok::<Seq<u8>, SparseError>(
                v@,
            ),
            Err(e) => body_of(data@, kind_of_name(path.spec_bytes())) == Err::<Seq<u8>, SparseError>(
                e,
            ),
        },
{
    cache_body(data, entry_kind(path))
}

/// The body of a stream-1 or stream-2 entry at `path`; other files as they are.
pub fn strip_simple_cache_wrapper(data: Vec<u8>, path: &str) -> (r: Vec<u8>)
    ensures
        r@ == stripped(data@, true) || r@ == stripped(data@, false),
        bare_name(path@) ==> r@ == stripped(data@, simple_name(path.spec_bytes(), 0x31)),
{
    strip_wrapper(data, is_stream2_file_name(file_name_of(path)))
}

/// The bytes of `content-type:`.
pub open spec fn content_type_prefix() -> Seq<u8> {
    seq![0x63u8, 0x6f, 0x6e, 0x74, 0x65, 0x6e, 0x74, 0x2d, 0x74, 0x79, 0x70, 0x65, 0x3a]
}

/// The ASCII lowercase of a byte.
pub open spec fn ascii_lower(b: u8) -> u8 {
    if 0x41 <= b <= 0x5a {
        (b + 0x20) as u8
    } else {
        b
    }
}

/// End of the NUL-terminated header line that starts at `i`.
pub open spec fn line_end(h: Seq<u8>, i: int) -> int
    decreases h.len() - i,
{
    if i < 0 || i >= h.len() || h[i] == 0 {
        i
    } else {
        line_end(h, i + 1)
    }
}

/// The line at `s` begins, in any letter case, with `content-type:`.
pub open spec fn is_content_type_line(h: Seq<u8>, s: int) -> bool {
    &&& line_end(h, s) - s >= 13
    &&& forall|k: int| 0 <= k < 13 ==> ascii_lower(#[trigger] h[s + k]) == content_type_prefix()[k]
}

/// The start of the first Content-Type line from the line at `s` on.
pub open spec fn content_type_line(h: Seq<u8>, s: int) -> Option<int>
    decreases h.len() - s,
{
    if s < 0 || s > h.len() {
        None
    } else if is_content_type_line(h, s) {
        Some(s)
    } else if line_end(h, s) >= h.len() || line_end(h, s) < s {
        None
    } else {
        content_type_line(h, line_end(h, s) + 1)
    }
}

/// End of the value that starts at `i`: the first `;` or the end of the line.
pub open spec fn value_end(h: Seq<u8>, i: int) -> int
    decreases h.len() - i,
{
    if i < 0 || i >= h.len() || h[i] == 0 || h[i] == 0x3b {
        i
    } else {
        value_end(h, i + 1)
    }
}

/// The bytes of the first Content-Type value, parameters left out.
pub open spec fn content_type_value(h: Seq<u8>) -> Option<Seq<u8>> {
    match content_type_line(h, 0) {
        Some(s) => Some(h.subrange(s + 13, value_end(h, s + 13))),
        None => None,
    }
}

proof fn lemma_line_end(h: Seq<u8>, i: int)
    requires
        0 <= i <= h.len(),
    ensures
        i <= line_end(h, i) <= h.len(),
    decreases h.len() - i,
{
    if i < h.len() && h[i] != 0 {
        lemma_line_end(h, i + 1);
    }
}

proof fn lemma_value_end(h: Seq<u8>, i: int)
    requires
        0 <= i <= h.len(),
    ensures
        i <= value_end(h, i) <= h.len(),
    decreases h.len() - i,
{
    if i < h.len() && h[i] != 0 && h[i] != 0x3b {
        lemma_value_end(h, i + 1);
    }
}

fn prefix_byte(k: usize) -> (r: u8)
    requires
        k < 13,
    ensures
        r == content_type_prefix()[k as int],
{
    match k {
        0 => 0x63,
        1 => 0x6f,
        2 => 0x6e,
        3 => 0x74,
        4 => 0x65,
        5 => 0x6e,
        6 => 0x74,
        7 => 0x2d,
        8 => 0x74,
        9 => 0x79,
        10 => 0x70,
        11 => 0x65,
        _ => 0x3a,
    }
}

/// Finds the end of the header line that starts at `i`.
fn find_line_end(h: &[u8], i: usize) -> (r: usize)
    requires
        i <= h@.len(),
    ensures
        r == line_end(h@, i as int),
{
    let mut j = i;
    while j < h.len() && h[j] != 0
        invariant
            i <= j <= h@.len(),
            line_end(h@, i as int) == line_end(h@, j as int),
        decreases h@.len() - j,
    {
        j = j + 1;
    }
    j
}

/// The Content-Type value bytes of NUL-separated HTTP headers: after the
/// first line that begins, in any letter case, with `content-type:`, up to the
/// first `;` or the end of that line.
pub fn content_type_field(h: &[u8]) -> (r: Option<(usize, usize)>)
    ensures
        r is Some <==> content_type_value(h@) is Some,
        r matches Some((a, b)) ==> a <= b <= h@.len() && content_type_value(h@) == Some(
            h@.subrange(a as int, b as int),
        ),
{
    let n = h.len();
    let mut s: usize = 0;
    loop
        invariant
            s <= n,
            n == h@.len(),
            content_type_line(h@, 0) == content_type_line(h@, s as int),
        decreases n - s,
    {
        let e = find_line_end(h, s);
        proof {
            lemma_line_end(h@, s as int);
        }
        let mut matched = e - s >= 13;
        let mut k: usize = 0;
        while matched && k < 13
            invariant
                k <= 13,
                e == line_end(h@, s as int),
                s <= e <= n,
                n == h@.len(),
                matched ==> e - s >= 13,
                matched ==> forall|j: int|
                    0 <= j < k ==> ascii_lower(#[trigger] h@[s + j]) == content_type_prefix()[j],
                !matched ==> !is_content_type_line(h@, s as int),
            decreases 13 - k,
        {
            let c = h[s + k];
            let lc = if 0x41 <= c && c <= 0x5a {
                c + 0x20
            } else {
                c
            };
            if lc != prefix_byte(k) {
                matched = false;
            }
            k = k + 1;
        }
        if matched {
            let a = s + 13;
            let mut b = a;
            while b < n && h[b] != 0 && h[b] != 0x3b
                invariant
                    a <= b <= n,
                    n == h@.len(),
                    value_end(h@, a as int) == value_end(h@, b as int),
                decreases n - b,
            {
                b = b + 1;
            }
            return Some((a, b));
        }
        if e >= n {
            return None;
        }
        s = e + 1;
    }
}

/// The lowercase MIME type of NUL-separated HTTP headers: the first
/// Content-Type value, parameters left out, trimmed and lowercased.
pub fn content_type_of(headers: &[u8]) -> (r: Option<String>)
    ensures
        r is Some <==> content_type_value(headers@) is Some,
        r matches Some(t) ==> content_type_value(headers@) matches Some(v) && t@ == lowercase_of(
            trimmed_of(lossy_text_of(v)),
        ),
{
    match content_type_field(headers) {
        Some((a, b)) => {
            let text = lossy_text(&headers[a..b]);
            let t = trim(text.as_str());
            Some(lowercase(t))
        },
        None => None,
    }
}

/// The lowercase MIME type stored in the headers (stream 0) of a stream-1
/// entry file.
pub fn content_type_of_entry(data: &[u8]) -> (r: Result<String, ContentTypeError>)
    ensures
        stream0_headers(data@) is None ==> r == Err::<String, ContentTypeError>(
            ContentTypeError::NoHeaders,
        ),
        stream0_headers(data@) matches Some(h) ==> match content_type_value(h) {
            None => r == Err::<String, ContentTypeError>(ContentTypeError::NoContentType),
            Some(v) => r matches Ok(t) && t@ == lowercase_of(trimmed_of(lossy_text_of(v))),
        },
{
    let headers = match extract_simple_cache_headers(data) {
        Some(h) => h,
        None => return Err(ContentTypeError::NoHeaders),
    };
    match content_type_of(headers.as_slice()) {
        Some(t) => Ok(t),
        None => Err(ContentTypeError::NoContentType),
    }
}

} // verus!
