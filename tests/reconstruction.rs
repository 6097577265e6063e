use cache_recovery::mp4::{dedup_moov, scan_for_moov, top_level_boxes, FOURCC_MOOV};
use cache_recovery::reconstruct::{choose_tail, modal_chunk_size, reconstruct_mp4, ChunkInput, ReconstructError};

const MIB: usize = 1_048_576;

fn boxed(kind: &[u8; 4], payload: &[u8]) -> Vec<u8> {
    let mut v = Vec::new();
    v.extend_from_slice(&((payload.len() + 8) as u32).to_be_bytes());
    v.extend_from_slice(kind);
    v.extend_from_slice(payload);
    v
}

fn moov(size: usize) -> Vec<u8> {
    let mut payload = vec![0u8; size - 8];
    payload[4..8].copy_from_slice(b"mvhd");
    payload[120..124].copy_from_slice(b"trak");
    boxed(b"moov", &payload)
}

fn chunk(hex: u64, body: Vec<u8>) -> ChunkInput {
    ChunkInput { hex: Some(hex), file_size: body.len() as u64, body }
}

/// A header chunk of one MiB: `ftyp`, then an `mdat` header declaring
/// `media + 8` bytes, then media bytes.
fn header_chunk(media: usize) -> Vec<u8> {
    let mut h = boxed(b"ftyp", &[0x11u8; 24]);
    h.extend_from_slice(&((media + 8) as u32).to_be_bytes());
    h.extend_from_slice(b"mdat");
    h.resize(MIB, 0x22);
    h
}

#[test]
fn missing_chunks_become_zero_padding() {
    let media = 5 * MIB - 40;
    let header = header_chunk(media);
    let tail = moov(600);
    let chunks = vec![
        chunk(0x10, vec![0xAA; MIB]),
        chunk(0x13, vec![0xBB; MIB]),
        chunk(0x14, tail.clone()),
    ];
    assert_eq!(modal_chunk_size(&chunks), MIB as u64);
    assert_eq!(choose_tail(&chunks, MIB as u64), Some(2));
    let out = reconstruct_mp4(Some(0x0f), &header, &chunks).unwrap();
    assert_eq!(out.len(), 5 * MIB + 600);
    assert_eq!(&out[..MIB], &header[..]);
    assert!(out[MIB..2 * MIB].iter().all(|&b| b == 0xAA));
    assert!(out[2 * MIB..4 * MIB].iter().all(|&b| b == 0));
    assert!(out[4 * MIB..5 * MIB].iter().all(|&b| b == 0xBB));
    assert_eq!(&out[5 * MIB..], &tail[..]);
}

#[test]
fn rebuilt_file_has_one_moov() {
    let media = 5 * MIB - 40;
    let header = header_chunk(media);
    let chunks = vec![
        chunk(0x10, vec![0xAA; MIB]),
        chunk(0x13, vec![0xBB; MIB]),
        chunk(0x14, moov(600)),
    ];
    let out = reconstruct_mp4(Some(0x0f), &header, &chunks).unwrap();
    assert_eq!(scan_for_moov(&out), Some((5 * MIB, 600)));
    let boxes = top_level_boxes(&out);
    assert_eq!(boxes.len(), 3);
    assert_eq!(boxes.iter().filter(|b| b.fourcc == FOURCC_MOOV).count(), 1);
    assert_eq!(dedup_moov(&out), (1, None));
}

#[test]
fn split_file_round_trip() {
    // A small MP4 split into equal chunks, named in sequence, rebuilt.
    let chunk_size = 4096usize;
    let media = 3 * chunk_size + 1000;
    let mut source_mp4 = boxed(b"ftyp", &[0x11u8; 24]);
    source_mp4.extend(boxed(b"free", &[0x33u8; 16]));
    let mut payload = vec![0u8; media];
    for (i, b) in payload.iter_mut().enumerate() {
        *b = (i % 251) as u8 | 0x80;
    }
    source_mp4.extend(boxed(b"mdat", &payload));
    let tail_box = moov(700);
    source_mp4.extend_from_slice(&tail_box);
    let pieces: Vec<Vec<u8>> = source_mp4.chunks(chunk_size).map(|c| c.to_vec()).collect();
    let header = pieces[0].clone();
    let chunks: Vec<ChunkInput> = pieces[1..]
        .iter()
        .enumerate()
        .map(|(i, p)| chunk(0x100 + 1 + i as u64, p.clone()))
        .collect();
    let out = reconstruct_mp4(Some(0x100), &header, &chunks).unwrap();
    assert_eq!(out, source_mp4);
    assert!(scan_for_moov(&out).is_some());
    let moovs = top_level_boxes(&out).iter().filter(|b| b.fourcc == FOURCC_MOOV).count();
    assert_eq!(moovs, 1);
    assert_eq!(dedup_moov(&out).0, 1);
}

#[test]
fn moov_at_front_keeps_concatenation() {
    let mut header = boxed(b"ftyp", &[0u8; 24]);
    header.extend_from_slice(&moov(600));
    header.extend(boxed(b"mdat", &[1u8; 100]));
    let chunks = vec![chunk(2, vec![9u8; 50])];
    let out = reconstruct_mp4(Some(1), &header, &chunks).unwrap();
    let mut expected = header.clone();
    expected.extend_from_slice(&[9u8; 50]);
    assert_eq!(out, expected);
}

#[test]
fn no_moov_keeps_concatenation() {
    let mut header = boxed(b"ftyp", &[0u8; 24]);
    header.extend(boxed(b"mdat", &[1u8; 100]));
    let chunks = vec![chunk(2, vec![9u8; 50]), chunk(3, vec![8u8; 5])];
    let out = reconstruct_mp4(None, &header, &chunks).unwrap();
    assert_eq!(out.len(), header.len() + 55);
    assert_eq!(choose_tail(&chunks, 50), None);
}

#[test]
fn header_without_boxes_is_refused() {
    let chunks: Vec<ChunkInput> = Vec::new();
    assert_eq!(reconstruct_mp4(None, &vec![0u8; 64], &chunks).err(), Some(ReconstructError::NoFtyp));
    let header = boxed(b"ftyp", &[0u8; 24]);
    assert_eq!(reconstruct_mp4(None, &header, &chunks).err(), Some(ReconstructError::NoMdat));
}

#[test]
fn modal_size_prefers_larger_on_ties() {
    let chunks = vec![chunk(1, vec![0; 10]), chunk(2, vec![0; 20]), chunk(3, vec![0; 10]), chunk(4, vec![0; 20])];
    assert_eq!(modal_chunk_size(&chunks), 20);
    let chunks = vec![chunk(1, vec![0; 10]), chunk(2, vec![0; 20]), chunk(3, vec![0; 10])];
    assert_eq!(modal_chunk_size(&chunks), 10);
    assert_eq!(modal_chunk_size(&Vec::new()), 0);
}

#[test]
fn extended_mdat_header_round_trip() {
    let chunk_size = 4096usize;
    let media = 3 * chunk_size;
    let mut source_mp4 = boxed(b"ftyp", &[0x11u8; 24]);
    source_mp4.extend_from_slice(&1u32.to_be_bytes());
    source_mp4.extend_from_slice(b"mdat");
    source_mp4.extend_from_slice(&((media + 16) as u64).to_be_bytes());
    source_mp4.extend(std::iter::repeat(0x99u8).take(media));
    source_mp4.extend_from_slice(&moov(700));
    let pieces: Vec<Vec<u8>> = source_mp4.chunks(chunk_size).map(|c| c.to_vec()).collect();
    let chunks: Vec<ChunkInput> = pieces[1..]
        .iter()
        .enumerate()
        .map(|(i, p)| chunk(0x20 + 1 + i as u64, p.clone()))
        .collect();
    let out = reconstruct_mp4(Some(0x20), &pieces[0], &chunks).unwrap();
    assert_eq!(out, source_mp4);
}

#[test]
fn padding_is_capped_at_tail_start() {
    let media = 3 * MIB - 40;
    let header = header_chunk(media);
    let tail = moov(600);
    let chunks = vec![
        chunk(0x10, vec![0xAA; MIB]),
        chunk(0x20, vec![0xBB; MIB]),
        chunk(0x21, tail.clone()),
    ];
    let out = reconstruct_mp4(Some(0x0f), &header, &chunks).unwrap();
    assert_eq!(out.len(), 3 * MIB + 600);
    assert!(out[MIB..2 * MIB].iter().all(|&b| b == 0xAA));
    assert!(out[2 * MIB..3 * MIB].iter().all(|&b| b == 0));
    assert_eq!(&out[3 * MIB..], &tail[..]);
}
