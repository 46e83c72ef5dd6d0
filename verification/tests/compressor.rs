use static_opti::worker::{
    compress_file, file_fits, keep_if_smaller, select_variants, Failure, MAX_VARIANT_LEN,
    RETENTION_PERCENT,
};
use std::io::Read;

fn gunzip(stream: &[u8], size: usize) -> Vec<u8> {
    let mut out = vec![0u8; size];
    let mut decompressor = libdeflater::Decompressor::new();
    let n = decompressor.gzip_decompress(stream, &mut out).unwrap();
    out.truncate(n);
    out
}

fn unbrotli(stream: &[u8]) -> Vec<u8> {
    let mut out = Vec::new();
    brotli::Decompressor::new(stream, 4096)
        .read_to_end(&mut out)
        .unwrap();
    out
}

fn sample_text() -> Vec<u8> {
    let mut text = Vec::new();
    for i in 0..400 {
        text.extend_from_slice(format!("<li class=\"item\">entry number {}</li>\n", i).as_bytes());
    }
    text
}

#[test]
fn retention_share_is_ninety_percent() {
    assert_eq!(RETENTION_PERCENT, 90);
    assert_eq!(MAX_VARIANT_LEN, u32::MAX as usize);
}

#[test]
fn variant_at_exactly_ninety_percent_is_dropped() {
    assert_eq!(keep_if_smaller(vec![7u8; 90], 100), None);
    assert_eq!(keep_if_smaller(vec![7u8; 900], 1000), None);
}

#[test]
fn variant_at_eighty_nine_percent_is_kept() {
    assert_eq!(keep_if_smaller(vec![7u8; 89], 100), Some(vec![7u8; 89]));
}

#[test]
fn variant_at_ninety_one_percent_is_dropped() {
    assert_eq!(keep_if_smaller(vec![7u8; 91], 100), None);
}

#[test]
fn variant_just_below_the_share_is_kept() {
    // 899 of 1000 bytes is 89.9 percent.
    assert_eq!(keep_if_smaller(vec![1u8; 899], 1000), Some(vec![1u8; 899]));
    // 9 of 10 is exactly the share; 8 of 10 is below it.
    assert_eq!(keep_if_smaller(vec![1u8; 9], 10), None);
    assert_eq!(keep_if_smaller(vec![1u8; 8], 10), Some(vec![1u8; 8]));
}

#[test]
fn variant_longer_than_plain_is_dropped() {
    assert_eq!(keep_if_smaller(vec![1u8; 20], 2), None);
    assert_eq!(keep_if_smaller(vec![], 0), None);
    assert_eq!(keep_if_smaller(vec![], 1), Some(vec![]));
}

#[test]
fn variants_are_judged_independently() {
    let plain = vec![b'x'; 100];
    let (path, kept_plain, gzip, brotli) =
        select_variants("a.txt".to_string(), plain.clone(), vec![1; 89], vec![2; 90]);
    assert_eq!(path, "a.txt");
    assert_eq!(kept_plain, plain);
    assert_eq!(gzip, Some(vec![1; 89]));
    assert_eq!(brotli, None);

    let (_, _, gzip, brotli) =
        select_variants("a.txt".to_string(), plain.clone(), vec![1; 91], vec![2; 10]);
    assert_eq!(gzip, None);
    assert_eq!(brotli, Some(vec![2; 10]));
}

#[test]
fn empty_plain_has_no_variants_whatever_the_streams() {
    let (path, plain, gzip, brotli) =
        select_variants("empty".to_string(), vec![], vec![], vec![]);
    assert_eq!(path, "empty");
    assert!(plain.is_empty());
    assert_eq!(gzip, None);
    assert_eq!(brotli, None);
}

#[test]
fn empty_file_is_stored_plain_only() {
    let (path, plain, gzip, brotli) = compress_file("dir/empty.css".to_string(), vec![]).unwrap();
    assert_eq!(path, "dir/empty.css");
    assert!(plain.is_empty());
    assert!(gzip.is_none());
    assert!(brotli.is_none());
}

#[test]
fn compressible_file_gets_both_variants() {
    let text = sample_text();
    let (path, plain, gzip, brotli) = compress_file("list.html".to_string(), text.clone()).unwrap();
    assert_eq!(path, "list.html");
    assert_eq!(plain, text);
    let gzip = gzip.unwrap();
    let brotli = brotli.unwrap();
    assert!(gzip.len() * 100 < text.len() * 90);
    assert!(brotli.len() * 100 < text.len() * 90);
    assert_ne!(gzip, text);
    assert_ne!(brotli, text);
    // gzip magic number
    assert_eq!(&gzip[..2], &[0x1f, 0x8b]);
    assert_eq!(gunzip(&gzip, text.len()), text);
    assert_eq!(unbrotli(&brotli), text);
}

#[test]
fn tiny_file_keeps_no_compressed_variant() {
    let (_, plain, gzip, brotli) = compress_file("t".to_string(), b"ab".to_vec()).unwrap();
    assert_eq!(plain, b"ab");
    assert!(gzip.is_none());
    assert!(brotli.is_none());
}

#[test]
fn compression_is_repeatable() {
    let text = sample_text();
    let first = compress_file("a".to_string(), text.clone()).unwrap();
    let second = compress_file("a".to_string(), text).unwrap();
    assert_eq!(first, second);
}

#[test]
fn failure_causes_are_distinct() {
    assert_ne!(Failure::TooLarge, Failure::Gzip);
    assert_ne!(Failure::Gzip, Failure::Brotli);
    assert_ne!(Failure::TooLarge, Failure::Brotli);
}

#[test]
fn files_of_ordinary_size_fit() {
    assert!(file_fits(&("a".to_string(), vec![1, 2, 3], Some(vec![1]), None)));
    assert!(file_fits(&("a".to_string(), vec![], None, None)));
    let file = compress_file("list.html".to_string(), sample_text()).unwrap();
    assert!(file_fits(&file));
}

#[test]
fn incompressible_file_still_compresses_into_the_bound() {
    // Bytes without pattern: the gzip stream is longer than the content, and
    // fits only because the buffer has the size of the compressor's bound.
    let mut state: u32 = 0x1234_5678;
    let noise: Vec<u8> = (0..3000)
        .map(|_| {
            state ^= state << 13;
            state ^= state >> 17;
            state ^= state << 5;
            (state >> 24) as u8
        })
        .collect();
    let (_, plain, gzip, brotli) = compress_file("noise.bin".to_string(), noise.clone()).unwrap();
    assert_eq!(plain, noise);
    assert!(gzip.is_none());
    assert!(brotli.is_none());
}
