//! Unit tests for the hashing, block codec and manifest helpers.

use psarc::hash::{calculate_md5, hash_to_string};
use psarc::manifest::{manifest_bytes_from_paths, normalize_line, normalize_manifest_lines,
    resolve_file_order};
use psarc::zlib::{compress_block, decompress_block, probe_zlib_header};
use psarc::{CompressionLevel, FileInput};

fn hex_to_bytes(hex: &str) -> Vec<u8> {
    let digits: Vec<u8> = hex
        .bytes()
        .map(|c| match c {
            b'0'..=b'9' => c - b'0',
            b'a'..=b'f' => c - b'a' + 10,
            _ => c - b'A' + 10,
        })
        .collect();
    digits.chunks(2).map(|p| (p[0] << 4) | p[1]).collect()
}

#[test]
fn hash_is_case_insensitive() {
    let a = calculate_md5(b"foo/BAR.ext");
    let b = calculate_md5(b"FOO/bar.ext");
    assert_eq!(a, b);
    // The digest really is MD5 of the uppercased path.
    assert_eq!(a, hex_to_bytes("e2698c869954e2eae51e1867317d319f"));
}

#[test]
fn hash_of_known_names() {
    assert_eq!(calculate_md5(b"a.txt"), hex_to_bytes("adcfd32a04510629fd757073e78da5b7"));
    assert_eq!(calculate_md5(b"A.TXT"), hex_to_bytes("adcfd32a04510629fd757073e78da5b7"));
    assert_eq!(calculate_md5(b"empty"), hex_to_bytes("ba2b45bdc11e2a4a6e86aab2ac693cbb"));
}

#[test]
fn hash_renders_with_dashes() {
    let s = hash_to_string(&[0xad, 0xcf, 0x01]);
    assert_eq!(s, "AD-CF-01");
    assert_eq!(hash_to_string(&[]), "");
}

#[test]
fn zlib_roundtrip_and_header() {
    let data = b"hello hello hello hello hello";
    let packed = compress_block(data, 9);
    assert!(probe_zlib_header(&packed));
    assert_eq!(packed[0], 0x78);
    let back = decompress_block(&packed).expect("inflate");
    assert_eq!(back, data.to_vec());
    // Garbage is rejected.
    assert!(decompress_block(b"not a zlib stream").is_none());
}

#[test]
fn zlib_level_zero_does_not_shrink() {
    let data = b"aaaaaaaaaaaaaaaaaaaaaaaaaaaaaaaaaaaaaaaa";
    let stored = compress_block(data, 0);
    assert!(stored.len() >= data.len());
    let best = compress_block(data, 9);
    assert!(best.len() < data.len());
}

#[test]
fn normalize_line_trims_and_folds() {
    assert_eq!(normalize_line(b"  dir\\sub\\file.txt \r"), b"dir/sub/file.txt".to_vec());
    assert_eq!(normalize_line(b"\xef\xbb\xbfpath.txt"), b"path.txt".to_vec());
    assert_eq!(normalize_line(b"   \t "), Vec::<u8>::new());
}

#[test]
fn normalize_manifest_lines_drops_empties() {
    let lines = normalize_manifest_lines(b"a.txt\r\n\n  \nb\\c.txt\n");
    assert_eq!(lines, vec![b"a.txt".to_vec(), b"b/c.txt".to_vec()]);
}

#[test]
fn manifest_bytes_have_no_trailing_newline() {
    let paths = vec![b"a".to_vec(), b"b".to_vec(), b"c".to_vec()];
    assert_eq!(manifest_bytes_from_paths(&paths), b"a\nb\nc".to_vec());
    assert_eq!(manifest_bytes_from_paths(&vec![b"solo".to_vec()]), b"solo".to_vec());
    assert_eq!(manifest_bytes_from_paths(&Vec::new()), Vec::<u8>::new());
}

#[test]
fn resolve_order_follows_manifest() {
    let files = vec![
        FileInput { path: b"x.txt".to_vec(), data: b"X".to_vec() },
        FileInput { path: b"y.txt".to_vec(), data: b"Y".to_vec() },
    ];
    let (ordered, mbytes) = resolve_file_order(files, Some(b"y.txt\nx.txt".to_vec())).expect(
        "resolve",
    );
    assert_eq!(mbytes, b"y.txt\nx.txt".to_vec());
    assert_eq!(ordered[0].path, b"y.txt".to_vec());
    assert_eq!(ordered[1].path, b"x.txt".to_vec());
}

#[test]
fn resolve_order_falls_back_on_extra_files() {
    let files = vec![
        FileInput { path: b"a.txt".to_vec(), data: b"A".to_vec() },
        FileInput { path: b"b.txt".to_vec(), data: b"B".to_vec() },
    ];
    // The manifest misses b.txt, so the hash order decides; MD5("B.TXT")
    // sorts before MD5("A.TXT").
    let (ordered, mbytes) = resolve_file_order(files, Some(b"a.txt".to_vec())).expect("resolve");
    assert_eq!(mbytes, b"b.txt\na.txt".to_vec());
    assert_eq!(ordered[0].path, b"b.txt".to_vec());
}

#[test]
fn compression_levels_map_to_zlib_levels() {
    assert_eq!(CompressionLevel::Stored.to_level(), 0);
    assert_eq!(CompressionLevel::Fast.to_level(), 1);
    assert_eq!(CompressionLevel::Normal.to_level(), 6);
    assert_eq!(CompressionLevel::Best.to_level(), 9);
    assert_eq!(CompressionLevel::default(), CompressionLevel::Best);
}
