use demotracer_converter::content::{
    reserve_demo_capacity, ContentStream,
    decode_demo_content, demo_content_sha256, ZSTD_FRAME_HEADER_MAX_BYTES,
};
use demotracer_converter::demo_input::has_zstd_magic;
use demotracer_converter::digest::sha256_hex;
use demotracer_converter::error::Error;
use std::io::Write;

const LIMIT: u64 = 2_147_483_648;

#[test]
fn plain_demo_bytes_and_hash_are_unchanged() {
    let bytes = b"PBDEMS2\0logical demo bytes";
    let loaded = decode_demo_content(bytes, false, LIMIT, "match.dem").unwrap();
    assert_eq!(loaded, bytes);
    assert_eq!(
        demo_content_sha256(bytes, false, LIMIT, "match.dem").unwrap(),
        sha256_hex(bytes)
    );
}

#[test]
fn faceit_zstd_demo_loads_with_logical_stem_and_content_hash() {
    let bytes = b"PBDEMS2\0decompressed demo bytes";
    let compressed = zstd::stream::encode_all(&bytes[..], 1).unwrap();
    let loaded = decode_demo_content(&compressed, true, LIMIT, "faceit-match.dem.zst").unwrap();
    assert_eq!(loaded, bytes);
    assert_eq!(
        demo_content_sha256(&compressed, true, LIMIT, "faceit-match.dem.zst").unwrap(),
        sha256_hex(bytes)
    );
}

#[test]
fn zstd_magic_is_detected_even_with_dem_extension() {
    let bytes = b"PBDEMS2\0compressed despite extension";
    let compressed = zstd::stream::encode_all(&bytes[..], 1).unwrap();
    assert!(has_zstd_magic(&compressed[..ZSTD_FRAME_HEADER_MAX_BYTES.min(compressed.len())]));
    let loaded = decode_demo_content(&compressed, true, LIMIT, "renamed.dem").unwrap();
    assert_eq!(loaded, bytes);
}

#[test]
fn compressed_output_limit_is_enforced() {
    let bytes = vec![b'x'; 1_025];
    let compressed = zstd::stream::encode_all(&bytes[..], 1).unwrap();
    let error = decode_demo_content(&compressed, true, 1_024, "oversize.dem.zst").unwrap_err();
    assert!(matches!(
        error,
        Error::DecompressedDemoTooLarge {
            limit_bytes: 1_024,
            ..
        }
    ));
}

#[test]
fn plain_demo_limit_is_enforced_before_reading() {
    let bytes = vec![b'x'; 1_025];
    let error = decode_demo_content(&bytes, false, 1_024, "oversize.dem").unwrap_err();
    assert!(matches!(
        error,
        Error::DecompressedDemoTooLarge {
            limit_bytes: 1_024,
            ..
        }
    ));
}

#[test]
fn declared_frame_size_is_rejected_before_payload_decode() {
    let bytes = vec![b'x'; 1_025];
    let mut encoder = zstd::stream::write::Encoder::new(Vec::new(), 1).unwrap();
    encoder.include_contentsize(true).unwrap();
    encoder.set_pledged_src_size(Some(bytes.len() as u64)).unwrap();
    encoder.write_all(&bytes).unwrap();
    let compressed = encoder.finish().unwrap();
    let header = &compressed[..compressed.len().min(ZSTD_FRAME_HEADER_MAX_BYTES)];

    let error = decode_demo_content(header, true, 1_024, "declared-oversize.dem.zst").unwrap_err();
    assert!(matches!(
        error,
        Error::DecompressedDemoTooLarge {
            limit_bytes: 1_024,
            ..
        }
    ));
}

#[test]
fn corrupt_zstd_input_has_a_specific_error() {
    let error = decode_demo_content(b"not a zstd frame", true, LIMIT, "broken.dem.zst").unwrap_err();
    assert!(matches!(error, Error::ZstdDemo { .. }));
    assert!(error.message().contains("failed to decompress zstd demo"));
}

#[test]
fn truncated_and_empty_zstd_input_is_an_incomplete_frame() {
    let bytes = vec![b'y'; 100_000];
    let compressed = zstd::stream::encode_all(&bytes[..], 1).unwrap();
    let cut = &compressed[..compressed.len() - 3];
    let error = decode_demo_content(cut, true, LIMIT, "cut.dem.zst").unwrap_err();
    assert!(matches!(error, Error::ZstdDemo { .. }));
    assert!(decode_demo_content(&[], true, LIMIT, "empty.dem.zst").is_err());
}

#[test]
fn multi_frame_and_large_zstd_input_streams_through() {
    let first: Vec<u8> = (0..200_000u32).map(|i| (i % 251) as u8).collect();
    let second = b"second frame".to_vec();
    let mut compressed = zstd::stream::encode_all(&first[..], 3).unwrap();
    compressed.extend(zstd::stream::encode_all(&second[..], 3).unwrap());
    let mut all = first.clone();
    all.extend(&second);
    assert_eq!(decode_demo_content(&compressed, true, LIMIT, "two.dem.zst").unwrap(), all);
    assert_eq!(
        demo_content_sha256(&compressed, true, LIMIT, "two.dem.zst").unwrap(),
        sha256_hex(&all)
    );
    let exact = all.len() as u64;
    assert!(decode_demo_content(&compressed, true, exact, "two.dem.zst").is_ok());
    assert!(decode_demo_content(&compressed, true, exact - 1, "two.dem.zst").is_err());
}

#[test]
fn allocation_failure_is_reported_instead_of_panicking() {
    let mut output = vec![1u8, 2, 3];
    let error = reserve_demo_capacity(&mut output, usize::MAX, "too-large.dem.zst", u64::MAX).unwrap_err();

    assert!(matches!(error, Error::DemoAllocation { .. }));
    assert!(error.message().contains("cannot allocate memory while loading demo"));
    assert!(error
        .message()
        .starts_with("cannot allocate memory while loading demo too-large.dem.zst after 18446744073709551615 decoded bytes: "));
    assert_eq!(output, vec![1, 2, 3]);
    assert!(reserve_demo_capacity(&mut output, 16, "small.dem", 3).is_ok());
    assert_eq!(output, vec![1, 2, 3]);
}

fn stream_hash(raw: &[u8], compressed: bool, limit: u64, piece: usize) -> Result<String, Error> {
    let header = &raw[..ZSTD_FRAME_HEADER_MAX_BYTES.min(raw.len())];
    let mut stream = ContentStream::start(compressed, header, limit, "piece.dem")?;
    for chunk in raw.chunks(piece) {
        stream.feed(chunk, "piece.dem")?;
    }
    stream.finish_sha256("piece.dem")
}

#[test]
fn content_hash_streams_in_pieces() {
    let first: Vec<u8> = (0..200_000u32).map(|i| (i % 251) as u8).collect();
    let second = b"second frame".to_vec();
    let mut compressed = zstd::stream::encode_all(&first[..], 3).unwrap();
    compressed.extend(zstd::stream::encode_all(&second[..], 3).unwrap());
    let mut all = first.clone();
    all.extend(&second);
    for piece in [1, 7, 4096, compressed.len()] {
        assert_eq!(stream_hash(&compressed, true, LIMIT, piece).unwrap(), sha256_hex(&all));
    }
    assert_eq!(stream_hash(&all, false, LIMIT, 1000).unwrap(), sha256_hex(&all));
    assert_eq!(stream_hash(&[], false, LIMIT, 1).unwrap(), sha256_hex(&[]));

    let exact = all.len() as u64;
    assert!(stream_hash(&compressed, true, exact, 4096).is_ok());
    let error = stream_hash(&compressed, true, exact - 1, 4096).unwrap_err();
    assert!(matches!(error, Error::DecompressedDemoTooLarge { .. }));
    let error = stream_hash(&all, false, exact - 1, 1000).unwrap_err();
    assert!(matches!(error, Error::DecompressedDemoTooLarge { .. }));

    let cut = &compressed[..compressed.len() - 3];
    assert!(matches!(stream_hash(cut, true, LIMIT, 100).unwrap_err(), Error::ZstdDemo { .. }));
    assert!(matches!(stream_hash(b"not zstd at all", true, LIMIT, 4).unwrap_err(), Error::ZstdDemo { .. }));
}
