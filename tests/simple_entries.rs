use cache_recovery::entry::{entry_kind, read_cache_body, strip_simple_cache_wrapper, cache_body, content_type_of, content_type_of_entry, entry_kind_of_name, ContentTypeError, EntryKind};
use cache_recovery::simple_cache::{
    extract_simple_cache_headers, parse_simple_cache_layout, parse_simple_cache_layout_fallback,
    parse_simple_cache_stream2_layout, strip_wrapper,
};

const HEADER_MAGIC: u64 = 0xfcfb6d1ba7725c30;
const EOF_MAGIC: u64 = 0xf4fa6f45970d41d8;

fn header(key: &[u8]) -> Vec<u8> {
    let mut v = Vec::new();
    v.extend_from_slice(&HEADER_MAGIC.to_le_bytes());
    v.extend_from_slice(&1u32.to_le_bytes());
    v.extend_from_slice(&(key.len() as u32).to_le_bytes());
    v.extend_from_slice(&0u32.to_le_bytes());
    v.extend_from_slice(&0u32.to_le_bytes());
    v.extend_from_slice(key);
    v
}

fn eof(v: &mut Vec<u8>, flags: u32, size: u32) {
    v.extend_from_slice(&EOF_MAGIC.to_le_bytes());
    v.extend_from_slice(&flags.to_le_bytes());
    v.extend_from_slice(&0u32.to_le_bytes());
    v.extend_from_slice(&size.to_le_bytes());
    v.extend_from_slice(&0u32.to_le_bytes());
}

/// header + key + body + EOF1 + stream 0 + [digest] + EOF0
fn stream1_file(key: &[u8], body: &[u8], headers: &[u8], digest: bool) -> Vec<u8> {
    let mut v = header(key);
    v.extend_from_slice(body);
    eof(&mut v, 0, body.len() as u32);
    v.extend_from_slice(headers);
    if digest {
        v.extend_from_slice(&[0xEE; 32]);
    }
    eof(&mut v, if digest { 2 } else { 0 }, headers.len() as u32);
    v
}

#[test]
fn stream1_layout_of_a_200_byte_file() {
    let headers = b"HTTP/1.1 200\0Content-Type: video/mp4\0";
    let body_len = 200 - 24 - 8 - 24 - headers.len() - 24;
    let body = vec![0x42u8; body_len];
    let f = stream1_file(b"https://", &body, headers, false);
    assert_eq!(f.len(), 200);
    assert_eq!(&f[0..16], &[0x30, 0x5C, 0x72, 0xA7, 0x1B, 0x6D, 0xFB, 0xFC, 1, 0, 0, 0, 8, 0, 0, 0]);
    let l = parse_simple_cache_layout(&f).unwrap();
    assert_eq!(l.stream1_start, 32);
    assert_eq!(l.stream1_end, 32 + body_len);
    assert_eq!(l.stream0_start, 32 + body_len + 24);
    assert_eq!(l.stream0_end, 200 - 24);
    assert_eq!(l.stream0_end - l.stream0_start, headers.len());
}

#[test]
fn stream1_layout_with_key_digest() {
    let f = stream1_file(b"key", &[1, 2, 3, 4], b"H\0", true);
    let l = parse_simple_cache_layout(&f).unwrap();
    assert_eq!(l.stream1_start, 27);
    assert_eq!(l.stream1_end, 31);
    assert_eq!(l.stream0_end, f.len() - 24 - 32);
    assert_eq!(l.stream0_end - l.stream0_start, 2);
}

#[test]
fn stream1_falls_back_to_scanning() {
    let mut f = stream1_file(b"key", &[1, 2, 3, 4, 5, 6, 7, 8], b"HEADERS", false);
    let n = f.len();
    f[n - 24] ^= 0xFF;
    let l = parse_simple_cache_layout(&f).unwrap();
    assert_eq!((l.stream1_start, l.stream1_end, l.stream0_start, l.stream0_end), (27, 35, 0, 0));
    assert_eq!(parse_simple_cache_layout_fallback(&f, 27), Some(l));
    assert_eq!(parse_simple_cache_layout_fallback(&f, 36), None);
}

#[test]
fn stream1_rejects_short_or_foreign_files() {
    assert_eq!(parse_simple_cache_layout(&[0u8; 47]), None);
    assert_eq!(parse_simple_cache_layout(&[0u8; 100]), None);
}

#[test]
fn stream2_layout_with_and_without_eof() {
    let mut f = header(b"ab");
    f.extend_from_slice(&[9u8; 30]);
    let mut with_eof = f.clone();
    eof(&mut with_eof, 0, 30);
    let l = parse_simple_cache_stream2_layout(&with_eof).unwrap();
    assert_eq!((l.stream1_start, l.stream1_end), (26, 56));
    let l = parse_simple_cache_stream2_layout(&f).unwrap();
    assert_eq!((l.stream1_start, l.stream1_end), (26, 56));
    assert_eq!(strip_wrapper(with_eof, true), vec![9u8; 30]);
}

#[test]
fn strip_keeps_unparsed_buffers() {
    let raw = vec![1u8, 2, 3];
    assert_eq!(strip_wrapper(raw.clone(), false), raw);
}

#[test]
fn headers_and_content_type() {
    let f = stream1_file(b"k", &[0u8; 8], b"HTTP/1.1 200\0content-TYPE:  Video/MP4 ; codecs=x\0Server: y\0", false);
    let h = extract_simple_cache_headers(&f).unwrap();
    assert!(h.starts_with(b"HTTP/1.1 200"));
    assert_eq!(content_type_of_entry(&f).unwrap(), "video/mp4");
}

#[test]
fn content_type_errors() {
    let f = stream1_file(b"k", &[0u8; 8], b"HTTP/1.1 200\0Server: y\0", false);
    assert_eq!(content_type_of_entry(&f), Err(ContentTypeError::NoContentType));
    assert_eq!(content_type_of_entry(&[0u8; 64]), Err(ContentTypeError::NoHeaders));
    assert_eq!(content_type_of(b"Content-Type:text/html"), Some("text/html".to_string()));
    assert_eq!(content_type_of(b"X-Content-Type: a/b"), None);
}

#[test]
fn body_by_entry_kind() {
    assert_eq!(entry_kind_of_name("0123456789abcdef_s"), EntryKind::Sparse);
    assert_eq!(entry_kind_of_name("0123456789abcdef_1"), EntryKind::Stream2);
    assert_eq!(entry_kind_of_name("0123456789abcdef_0"), EntryKind::Plain);
    assert_eq!(entry_kind_of_name("f_00000a"), EntryKind::Plain);
    let f = stream1_file(b"k", &[5, 6, 7], b"H", false);
    assert_eq!(cache_body(f, EntryKind::Plain).unwrap(), vec![5, 6, 7]);
}

#[test]
fn body_by_path() {
    let f = stream1_file(b"k", &[5, 6, 7], b"H", false);
    assert_eq!(read_cache_body("0123456789abcdef_0", f.clone()).unwrap(), vec![5, 6, 7]);
    assert_eq!(strip_simple_cache_wrapper(f.clone(), "/c/0123456789abcdef_0"), vec![5, 6, 7]);
    assert_eq!(entry_kind("0123456789abcdef_s"), EntryKind::Sparse);
    assert_eq!(entry_kind("/c/Cache_Data/0123456789abcdef_1"), EntryKind::Stream2);
    let mut g = header(b"ab");
    g.extend_from_slice(&[9u8; 30]);
    eof(&mut g, 0, 30);
    assert_eq!(strip_simple_cache_wrapper(g.clone(), "0123456789abcdef_1"), vec![9u8; 30]);
    assert!(read_cache_body("0123456789abcdef_s", vec![0u8; 10]).is_err());
    assert_eq!(read_cache_body("f_000001", vec![1, 2]).unwrap(), vec![1, 2]);
}
