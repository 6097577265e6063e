use cache_recovery::mp4::{dedup_moov, find_mp4_box, scan_for_moov, top_level_boxes, FOURCC_MOOV};

fn boxed(kind: &[u8; 4], payload: &[u8]) -> Vec<u8> {
    let mut v = Vec::new();
    v.extend_from_slice(&((payload.len() + 8) as u32).to_be_bytes());
    v.extend_from_slice(kind);
    v.extend_from_slice(payload);
    v
}

/// A `moov` box of `size` bytes holding `mvhd` and `trak`.
fn moov(size: usize) -> Vec<u8> {
    let mut payload = vec![0u8; size - 8];
    payload[4..8].copy_from_slice(b"mvhd");
    payload[120..124].copy_from_slice(b"trak");
    boxed(b"moov", &payload)
}

#[test]
fn finds_ftyp_at_start() {
    let mut b = vec![0u8; 64];
    b[0..8].copy_from_slice(&[0x00, 0x00, 0x00, 0x20, 0x66, 0x74, 0x79, 0x70]);
    assert_eq!(find_mp4_box(&b, b"ftyp"), Some((0, 32, 8)));
}

#[test]
fn finds_extended_mdat() {
    let mut b = vec![0u8; 4096];
    b[0..16].copy_from_slice(&[0x00, 0x00, 0x00, 0x01, 0x6D, 0x64, 0x61, 0x74, 0, 0, 0, 0, 0, 0, 0x10, 0x00]);
    assert_eq!(find_mp4_box(&b, b"mdat"), Some((0, 4096, 16)));
    assert_eq!(find_mp4_box(&b[0..32], b"mdat"), Some((0, 4096, 16)));
}

#[test]
fn find_walks_past_earlier_boxes() {
    let mut b = boxed(b"ftyp", &[0u8; 24]);
    b.extend(boxed(b"free", &[1u8; 8]));
    b.extend(boxed(b"mdat", &[2u8; 100]));
    assert_eq!(find_mp4_box(&b, b"mdat"), Some((48, 108, 8)));
    assert_eq!(find_mp4_box(&b, b"moov"), None);
}

#[test]
fn find_box_to_end_of_buffer() {
    let mut b = boxed(b"ftyp", &[0u8; 8]);
    b.extend_from_slice(&[0, 0, 0, 0]);
    b.extend_from_slice(b"mdat");
    b.extend_from_slice(&[7u8; 20]);
    assert_eq!(find_mp4_box(&b, b"mdat"), Some((16, 28, 8)));
}

#[test]
fn walk_halts_on_bad_headers() {
    let mut b = boxed(b"ftyp", &[0u8; 8]);
    b.extend_from_slice(&[0, 0, 0, 4]);
    b.extend_from_slice(b"mdat");
    assert_eq!(find_mp4_box(&b, b"mdat"), None);
    let mut c = boxed(b"ftyp", &[0u8; 8]);
    c.extend(boxed(&[0x6d, 0x64, 0x01, 0x74], &[0u8; 8]));
    assert_eq!(find_mp4_box(&c, &[0x6d, 0x64, 0x01, 0x74]), None);
}

#[test]
fn scan_finds_nested_moov() {
    let mut b = vec![0xAAu8; 100];
    let m = moov(600);
    b.extend_from_slice(&m);
    b.extend_from_slice(&[0u8; 10]);
    assert_eq!(scan_for_moov(&b), Some((100, 600)));
}

#[test]
fn scan_rejects_implausible_moov() {
    let small = moov(400);
    assert_eq!(scan_for_moov(&small), None);
    let mut no_trak = moov(600);
    no_trak[128..132].copy_from_slice(b"xxxx");
    assert_eq!(scan_for_moov(&no_trak), None);
    let cut = moov(600);
    assert_eq!(scan_for_moov(&cut[0..599]), None);
    assert_eq!(scan_for_moov(&[]), None);
}

#[test]
fn dedup_keeps_first_moov() {
    let mut b = boxed(b"ftyp", &[0u8; 8]);
    let m1 = moov(600);
    let mut m2 = moov(600);
    m2[200] = 1;
    b.extend_from_slice(&m1);
    b.extend(boxed(b"mdat", &[5u8; 10]));
    b.extend_from_slice(&m2);
    let (count, fixed) = dedup_moov(&b);
    assert_eq!(count, 2);
    let fixed = fixed.unwrap();
    let mut expected = boxed(b"ftyp", &[0u8; 8]);
    expected.extend_from_slice(&m1);
    expected.extend(boxed(b"mdat", &[5u8; 10]));
    assert_eq!(fixed, expected);
    assert_eq!(dedup_moov(&fixed), (1, None));
    let moovs = top_level_boxes(&fixed).iter().filter(|x| x.fourcc == FOURCC_MOOV).count();
    assert_eq!(moovs, 1);
}

#[test]
fn dedup_leaves_single_moov_alone() {
    let mut b = boxed(b"ftyp", &[0u8; 8]);
    b.extend_from_slice(&moov(600));
    assert_eq!(dedup_moov(&b), (1, None));
    assert_eq!(dedup_moov(&[]), (0, None));
}
