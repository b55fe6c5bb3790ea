//! End-to-end scenarios: pack directories of in-memory files and extract
//! the archives again.

use psarc::blocks::decode_entry_data;
use psarc::extract::extract_archive;
use psarc::pack::pack_archive;
use psarc::{CompressionLevel, FileInput, PackingMode, PsarcError};

fn file(path: &str, data: &[u8]) -> FileInput {
    FileInput { path: path.as_bytes().to_vec(), data: data.to_vec() }
}

fn pack_full(files: Vec<FileInput>) -> psarc::pack::PackOutcome {
    pack_archive(files, None, CompressionLevel::Best, PackingMode::Full, &Vec::new(), None)
        .expect("pack")
}

fn be32(b: &[u8], pos: usize) -> u32 {
    ((b[pos] as u32) << 24) | ((b[pos + 1] as u32) << 16) | ((b[pos + 2] as u32) << 8) | (b[pos
        + 3] as u32)
}

fn be16(b: &[u8], pos: usize) -> u16 {
    ((b[pos] as u16) << 8) | (b[pos + 1] as u16)
}

fn hex_to_bytes(hex: &str) -> Vec<u8> {
    let digits: Vec<u8> = hex
        .bytes()
        .map(|c| match c {
            b'0'..=b'9' => c - b'0',
            b'a'..=b'f' => c - b'a' + 10,
            _ => c - b'A' + 10,
        })
        .collect();
    digits.chunks(2).map(|p| (p[0] << 4) | p[1]).collect()
}

/// Pseudo-random but fixed bytes, incompressible in practice.
fn noise(len: usize, mut seed: u64) -> Vec<u8> {
    let mut out = Vec::with_capacity(len);
    for _ in 0..len {
        seed ^= seed << 13;
        seed ^= seed >> 7;
        seed ^= seed << 17;
        out.push((seed >> 32) as u8);
    }
    out
}

#[test]
fn single_text_file_layout() {
    let out = pack_full(vec![file("a.txt", b"hello\n")]);
    let a = &out.archive;
    assert_eq!(out.recompressed, 1);
    assert_eq!(out.reused, 0);
    // Header: magic, version 1.4, zlib, entry size 30, two entries,
    // 64 KiB blocks, ignore-case flag.
    assert_eq!(&a[0..4], b"PSAR");
    assert_eq!(be16(a, 4), 1);
    assert_eq!(be16(a, 6), 4);
    assert_eq!(&a[8..12], b"zlib");
    let toc_length = be32(a, 12) as usize;
    assert_eq!(be32(a, 16), 30);
    assert_eq!(be32(a, 20), 2);
    assert_eq!(be32(a, 24), 65536);
    assert_eq!(be32(a, 28), 1);
    // toc_length = 32 + 2 * 30 + 2 * n_zsizes; one block each for the
    // manifest ("a.txt") and the file.
    assert_eq!(toc_length, 32 + 2 * 30 + 2 * 2);
    // Entry 0 is the manifest: zero hash, offset = toc_length.
    assert_eq!(&a[32..48], &[0u8; 16]);
    // Entry 1 carries MD5 of "A.TXT".
    assert_eq!(&a[62..78], hex_to_bytes("adcfd32a04510629fd757073e78da5b7").as_slice());
    // Both tiny payloads are stored raw, so their ZSizes are the raw
    // lengths and the data regions are the plain bytes.
    assert_eq!(be16(a, 32 + 60), 5);
    assert_eq!(&a[toc_length..toc_length + 5], b"a.txt");
    let extracted = extract_archive(a).expect("extract");
    assert_eq!(extracted.manifest.as_deref(), Some(b"a.txt".as_slice()));
    assert_eq!(extracted.files.len(), 1);
    assert_eq!(extracted.files[0].path, b"a.txt".to_vec());
    assert_eq!(extracted.files[0].data, b"hello\n".to_vec());
    assert_eq!(extracted.files[0].expected_size, 6);
}

#[test]
fn random_full_block_stored_raw() {
    let payload = noise(65536, 0x5eed);
    let out = pack_full(vec![file("b.bin", &payload)]);
    let a = &out.archive;
    let toc_length = be32(a, 12) as usize;
    // One ZSize for the manifest, one for the single 64 KiB block.
    assert_eq!(toc_length, 32 + 2 * 30 + 2 * 2);
    // The block does not compress: ZSize 0 marks a raw full block.
    assert_eq!(be16(a, 32 + 60 + 2), 0);
    // The stored bytes equal the input block byte for byte.
    let data_start = toc_length + 5;
    assert_eq!(&a[data_start..data_start + 65536], payload.as_slice());
    let extracted = extract_archive(a).expect("extract");
    assert_eq!(extracted.files[0].data, payload);
}

#[test]
fn block_size_plus_one_gets_two_zsizes() {
    let payload = noise(65537, 7);
    let out = pack_full(vec![file("b.bin", &payload)]);
    let a = &out.archive;
    let toc_length = be32(a, 12) as usize;
    // Manifest: one ZSize; file: two.
    assert_eq!(toc_length, 32 + 2 * 30 + 2 * 3);
    // Full raw block, then a one-byte raw tail.
    assert_eq!(be16(a, 32 + 60 + 2), 0);
    assert_eq!(be16(a, 32 + 60 + 4), 1);
    let extracted = extract_archive(a).expect("extract");
    assert_eq!(extracted.files[0].data, payload);
}

#[test]
fn hash_sort_order_without_manifest() {
    // MD5("B.TXT") = 2652... sorts before MD5("A.TXT") = adcf...
    let out = pack_full(vec![file("a.txt", b"A"), file("b.txt", b"B")]);
    let extracted = extract_archive(&out.archive).expect("extract");
    assert_eq!(extracted.manifest.as_deref(), Some(b"b.txt\na.txt".as_slice()));
    assert_eq!(extracted.files[0].path, b"b.txt".to_vec());
    assert_eq!(extracted.files[0].data, b"B".to_vec());
    assert_eq!(extracted.files[1].path, b"a.txt".to_vec());
    assert_eq!(extracted.files[1].data, b"A".to_vec());
}

#[test]
fn manifest_decides_order() {
    let blob = b"a.txt\nb.txt".to_vec();
    let out = pack_archive(
        vec![file("a.txt", b"A"), file("b.txt", b"B")],
        Some(blob),
        CompressionLevel::Best,
        PackingMode::Full,
        &Vec::new(),
        None,
    )
    .expect("pack");
    let extracted = extract_archive(&out.archive).expect("extract");
    assert_eq!(extracted.manifest.as_deref(), Some(b"a.txt\nb.txt".as_slice()));
    assert_eq!(extracted.files[0].path, b"a.txt".to_vec());
    assert_eq!(extracted.files[1].path, b"b.txt".to_vec());
    // Swapping two manifest lines changes the archive byte layout.
    let swapped = pack_archive(
        vec![file("a.txt", b"A"), file("b.txt", b"B")],
        Some(b"b.txt\na.txt".to_vec()),
        CompressionLevel::Best,
        PackingMode::Full,
        &Vec::new(),
        None,
    )
    .expect("pack");
    assert_ne!(out.archive, swapped.archive);
}

#[test]
fn manifest_reference_missing_fails() {
    let r = pack_archive(
        vec![file("a.txt", b"A")],
        Some(b"a.txt\ngone.txt".to_vec()),
        CompressionLevel::Best,
        PackingMode::Full,
        &Vec::new(),
        None,
    );
    match r {
        Err(PsarcError::ManifestReferenceMissing(miss)) => {
            assert_eq!(miss, vec![b"gone.txt".to_vec()]);
        },
        _ => panic!("expected ManifestReferenceMissing"),
    }
}

#[test]
fn corrupt_compression_tag_rejected() {
    let out = pack_full(vec![file("a.txt", b"hello\n")]);
    let mut a = out.archive.clone();
    a[8..12].copy_from_slice(b"lzma");
    match extract_archive(&a) {
        Err(PsarcError::UnsupportedCompression) => {},
        r => panic!("expected UnsupportedCompression, got {:?}", r.map(|_| ())),
    }
}

#[test]
fn bad_magic_rejected() {
    match extract_archive(b"NOPE....") {
        Err(PsarcError::BadMagic) => {},
        r => panic!("expected BadMagic, got {:?}", r.map(|_| ())),
    }
}

#[test]
fn zero_length_file_roundtrip() {
    let out = pack_full(vec![file("empty", b"")]);
    let a = &out.archive;
    // Entry 1: 40-bit uncompressed size is zero, and no ZSize entries
    // belong to it (only the manifest's single entry exists).
    let toc_length = be32(a, 12) as usize;
    assert_eq!(toc_length, 32 + 2 * 30 + 2 * 1);
    assert_eq!(&a[62 + 20..62 + 25], &[0u8; 5]);
    let extracted = extract_archive(a).expect("extract");
    assert_eq!(extracted.files.len(), 1);
    assert_eq!(extracted.files[0].path, b"empty".to_vec());
    assert_eq!(extracted.files[0].data, Vec::<u8>::new());
    assert_eq!(extracted.files[0].expected_size, 0);
}

#[test]
fn multi_block_compressible_roundtrip() {
    let mut payload = Vec::new();
    for i in 0..70000 {
        payload.push((i % 7) as u8);
    }
    let out = pack_full(vec![file("big/dir/data.bin", &payload), file("small.txt", b"x")]);
    let extracted = extract_archive(&out.archive).expect("extract");
    let mut got: Vec<(Vec<u8>, Vec<u8>)> =
        extracted.files.iter().map(|f| (f.path.clone(), f.data.clone())).collect();
    got.sort();
    let mut want = vec![
        (b"big/dir/data.bin".to_vec(), payload.clone()),
        (b"small.txt".to_vec(), b"x".to_vec()),
    ];
    want.sort();
    assert_eq!(got, want);
}

#[test]
fn incremental_reuses_unmodified_files() {
    let a_old = b"original contents of a".to_vec();
    let b_data = noise(65536, 99);
    let prior = pack_full(vec![file("a.txt", &a_old), file("b.bin", &b_data)]);
    let a_new = b"changed contents!".to_vec();
    let modified = vec![b"a.txt".to_vec()];
    let out = pack_archive(
        vec![file("a.txt", &a_new), file("b.bin", &b_data)],
        None,
        CompressionLevel::Best,
        PackingMode::Incremental,
        &modified,
        Some(&prior.archive),
    )
    .expect("pack incremental");
    assert_eq!(out.reused, 1);
    assert_eq!(out.recompressed, 1);
    let extracted = extract_archive(&out.archive).expect("extract");
    let mut got: Vec<(Vec<u8>, Vec<u8>)> =
        extracted.files.iter().map(|f| (f.path.clone(), f.data.clone())).collect();
    got.sort();
    let mut want = vec![(b"a.txt".to_vec(), a_new.clone()), (b"b.bin".to_vec(), b_data.clone())];
    want.sort();
    assert_eq!(got, want);
    // The reused file's raw stored bytes appear in the new archive
    // exactly as in the prior one: for this incompressible block, the
    // bytes themselves.
    let hay = out.archive.windows(b_data.len()).any(|w| w == b_data.as_slice());
    assert!(hay);
}

#[test]
fn incremental_without_prior_recompresses_all() {
    let out = pack_archive(
        vec![file("a.txt", b"A"), file("b.txt", b"B")],
        None,
        CompressionLevel::Fast,
        PackingMode::Incremental,
        &Vec::new(),
        None,
    )
    .expect("pack");
    assert_eq!(out.reused, 0);
    assert_eq!(out.recompressed, 2);
}

#[test]
fn truncated_trailing_block_extracts_exact_size() {
    // 65536 compressible + 100 trailing bytes: the last block is partial.
    let mut payload = vec![b'z'; 65536];
    payload.extend_from_slice(&noise(100, 3));
    let out = pack_full(vec![file("t.bin", &payload)]);
    let extracted = extract_archive(&out.archive).expect("extract");
    assert_eq!(extracted.files[0].data.len(), 65636);
    assert_eq!(extracted.files[0].data, payload);
}

#[test]
fn corrupt_zlib_stream_rejected() {
    // A compressible file gets a compressed block; corrupting bytes after
    // the two-byte zlib header leaves the probe satisfied but the stream
    // invalid.
    let payload = vec![b'q'; 4096];
    let out = pack_full(vec![file("c.bin", &payload)]);
    let mut a = out.archive.clone();
    let toc_length = be32(&a, 12) as usize;
    // Data layout: manifest "c.bin" (5 raw bytes), then the compressed
    // block.
    let block_start = toc_length + 5;
    assert_eq!(a[block_start], 0x78);
    for b in &mut a[block_start + 2..block_start + 6] {
        *b ^= 0xff;
    }
    match extract_archive(&a) {
        Err(PsarcError::InflateFailed) => {},
        r => panic!("expected InflateFailed, got {:?}", r.map(|_| ())),
    }
}

#[test]
fn truncated_archive_rejected() {
    let out = pack_full(vec![file("a.txt", b"hello
")]);
    // Cut the archive inside the entry table.
    let cut = &out.archive[..40];
    match extract_archive(cut) {
        Err(PsarcError::CorruptOffset) => {},
        r => panic!("expected CorruptOffset, got {:?}", r.map(|_| ())),
    }
}

#[test]
fn decode_entry_rejects_bad_zsize_index() {
    let out = pack_full(vec![file("a.txt", b"hello\n")]);
    let zs: Vec<u16> = vec![5];
    // An entry pointing past the ZSize table fails.
    let r = decode_entry_data(&out.archive, &zs, 9, 32, 100, 65536);
    assert!(matches!(r, Err(PsarcError::CorruptZSizeIndex)));
    // An entry whose block runs past the archive fails.
    let r2 = decode_entry_data(&out.archive, &zs, 0, out.archive.len() as u64 - 2, 100, 65536);
    assert!(matches!(r2, Err(PsarcError::CorruptBlockBounds)));
}
