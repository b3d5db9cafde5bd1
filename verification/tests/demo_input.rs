use demotracer_converter::demo_input::{
    demo_input_stem, enforce_demo_limit, has_zstd_magic, MAX_DECOMPRESSED_DEMO_BYTES,
};
use demotracer_converter::demo_series::{is_supported_demo_path, is_zstd_demo_path};
use demotracer_converter::error::Error;

#[test]
fn supported_paths_cover_plain_and_faceit_zstd_names() {
    assert!(is_supported_demo_path(Some("match.dem")));
    assert!(is_supported_demo_path(Some("MATCH.DEM.ZST")));
    assert!(is_zstd_demo_path(Some("match.dem.zst")));
    assert!(!is_zstd_demo_path(Some("match.dem")));
    assert!(!is_supported_demo_path(Some("match.zst")));
    assert!(!is_supported_demo_path(Some("match.dem.zip")));
}

#[test]
fn logical_stem_drops_demo_and_zstd_extensions() {
    assert_eq!(demo_input_stem(Some("match.dem")), "match");
    assert_eq!(demo_input_stem(Some("faceit-match.dem.zst")), "faceit-match");
    assert_eq!(demo_input_stem(Some("renamed.dem")), "renamed");
    assert_eq!(demo_input_stem(Some(".hidden")), ".hidden");
    assert_eq!(demo_input_stem(Some("..zst")), "demo");
    assert_eq!(demo_input_stem(None), "demo");
}

#[test]
fn zstd_frames_are_recognised_by_magic() {
    assert!(has_zstd_magic(&[0x28, 0xB5, 0x2F, 0xFD, 0x00]));
    assert!(has_zstd_magic(&[0x5F, 0x2A, 0x4D, 0x18]));
    assert!(!has_zstd_magic(b"PBDEMS2\0"));
    assert!(!has_zstd_magic(&[0x28, 0xB5, 0x2F]));
}

#[test]
fn demo_limit_refuses_larger_content() {
    assert!(enforce_demo_limit("big.dem", MAX_DECOMPRESSED_DEMO_BYTES, MAX_DECOMPRESSED_DEMO_BYTES).is_ok());
    let error = enforce_demo_limit("big.dem", 11, 10).unwrap_err();
    assert!(matches!(
        &error,
        Error::DecompressedDemoTooLarge { path, limit_bytes: 10 } if path == "big.dem"
    ));
    assert_eq!(
        error.message(),
        "logical demo content exceeds the safety limit of 10 bytes: big.dem"
    );
}
