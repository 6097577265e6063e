use cache_recovery::sparse::{reassemble_sparse_data, sparse_prefix, sparse_total_size, SparseError};

const HEADER_MAGIC: u64 = 0xfcfb6d1ba7725c30;
const EOF_MAGIC: u64 = 0xf4fa6f45970d41d8;
const RANGE_MAGIC: u64 = 0xeb97bf016553676b;

fn header(key: &[u8]) -> Vec<u8> {
    let mut v = Vec::new();
    v.extend_from_slice(&HEADER_MAGIC.to_le_bytes());
    v.extend_from_slice(&5u32.to_le_bytes());
    v.extend_from_slice(&(key.len() as u32).to_le_bytes());
    v.extend_from_slice(&0u32.to_le_bytes());
    v.extend_from_slice(&0u32.to_le_bytes());
    v.extend_from_slice(key);
    v
}

fn range(v: &mut Vec<u8>, offset: u64, data: &[u8]) {
    v.extend_from_slice(&RANGE_MAGIC.to_le_bytes());
    v.extend_from_slice(&offset.to_le_bytes());
    v.extend_from_slice(&(data.len() as u64).to_le_bytes());
    v.extend_from_slice(&0u32.to_le_bytes());
    v.extend_from_slice(&0u32.to_le_bytes());
    v.extend_from_slice(data);
}

#[test]
fn one_range_after_a_gap() {
    let mut f = header(b"abcd");
    range(&mut f, 10, &[1, 2, 3, 4, 5]);
    let r = reassemble_sparse_data(&f).unwrap();
    let mut expected = vec![0u8; 10];
    expected.extend_from_slice(&[1, 2, 3, 4, 5]);
    assert_eq!(r, expected);
    assert_eq!(sparse_total_size(&f), 15);
}

#[test]
fn gap_between_two_ranges_is_zero() {
    let mut f = header(b"k");
    range(&mut f, 0, &[7, 8, 9]);
    range(&mut f, 6, &[4, 5, 6]);
    let r = reassemble_sparse_data(&f).unwrap();
    assert_eq!(r.len(), 9);
    assert_eq!(&r[3..6], &[0, 0, 0]);
    assert_eq!(r, vec![7, 8, 9, 0, 0, 0, 4, 5, 6]);
}

#[test]
fn tiling_ranges_out_of_order() {
    let mut f = header(b"url");
    range(&mut f, 3, &[4, 5, 6]);
    range(&mut f, 0, &[1, 2, 3]);
    let r = reassemble_sparse_data(&f).unwrap();
    assert_eq!(r, vec![1, 2, 3, 4, 5, 6]);
    assert_eq!(sparse_total_size(&f), r.len() as u64);
}

#[test]
fn overlapping_ranges_later_offset_wins() {
    let mut f = header(b"");
    range(&mut f, 2, &[9, 9, 9]);
    range(&mut f, 0, &[1, 1, 1, 1]);
    let r = reassemble_sparse_data(&f).unwrap();
    assert_eq!(r, vec![1, 1, 9, 9, 9]);
}

#[test]
fn equal_offsets_later_record_wins() {
    let mut f = header(b"");
    range(&mut f, 0, &[1, 1]);
    range(&mut f, 0, &[2, 2]);
    assert_eq!(reassemble_sparse_data(&f).unwrap(), vec![2, 2]);
}

#[test]
fn truncated_last_range_keeps_present_bytes() {
    let mut f = header(b"");
    range(&mut f, 0, &[1, 2, 3, 4]);
    f.truncate(f.len() - 2);
    assert_eq!(reassemble_sparse_data(&f).unwrap(), vec![1, 2]);
    assert_eq!(sparse_total_size(&f), 4);
}

#[test]
fn no_ranges_gives_raw_body() {
    let mut f = header(b"key");
    f.extend_from_slice(&[10, 11, 12]);
    assert_eq!(reassemble_sparse_data(&f).unwrap(), vec![10, 11, 12]);
    assert_eq!(sparse_total_size(&f), 0);
}

#[test]
fn no_ranges_raw_body_stops_at_eof_record() {
    let mut f = header(b"key");
    f.extend_from_slice(&[10, 11, 12]);
    f.extend_from_slice(&EOF_MAGIC.to_le_bytes());
    f.extend_from_slice(&[0u8; 16]);
    assert_eq!(reassemble_sparse_data(&f).unwrap(), vec![10, 11, 12]);
}

#[test]
fn sparse_errors() {
    assert_eq!(reassemble_sparse_data(&[0u8; 10]), Err(SparseError::TooSmall));
    assert_eq!(reassemble_sparse_data(&[0u8; 30]), Err(SparseError::BadMagic));
    let mut f = header(b"");
    f[12..16].copy_from_slice(&100u32.to_le_bytes());
    assert_eq!(reassemble_sparse_data(&f), Err(SparseError::KeyPastEnd));
    assert_eq!(sparse_prefix(&f, 10), Err(SparseError::KeyPastEnd));
    assert_eq!(sparse_total_size(&[0u8; 30]), 0);
}

#[test]
fn prefix_is_start_of_reassembly() {
    let mut f = header(b"k");
    range(&mut f, 0, &[1, 2, 3]);
    range(&mut f, 6, &[4, 5, 6]);
    assert_eq!(sparse_prefix(&f, 4).unwrap(), vec![1, 2, 3, 0]);
    assert_eq!(sparse_prefix(&f, 100).unwrap(), vec![1, 2, 3, 0, 0, 0, 4, 5, 6]);
}

#[test]
fn prefix_is_capped_at_4096() {
    let mut f = header(b"k");
    range(&mut f, 0, &vec![3u8; 5000]);
    assert_eq!(sparse_prefix(&f, 10_000).unwrap().len(), 4096);
}

#[test]
fn key_digest_reaching_into_the_key_leaves_no_body() {
    let mut f = header(b"");
    f.extend_from_slice(&[10, 11]);
    f.extend_from_slice(&EOF_MAGIC.to_le_bytes());
    f.extend_from_slice(&2u32.to_le_bytes());
    f.extend_from_slice(&[0u8; 12]);
    assert_eq!(f.len(), 50);
    assert_eq!(reassemble_sparse_data(&f).unwrap(), Vec::<u8>::new());
}

#[test]
fn key_digest_before_eof_record_is_left_out() {
    let mut f = header(b"k");
    f.extend_from_slice(&[10, 11, 12]);
    f.extend_from_slice(&[0xEE; 32]);
    f.extend_from_slice(&EOF_MAGIC.to_le_bytes());
    f.extend_from_slice(&2u32.to_le_bytes());
    f.extend_from_slice(&[0u8; 12]);
    assert_eq!(reassemble_sparse_data(&f).unwrap(), vec![10, 11, 12]);
}
