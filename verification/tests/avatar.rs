use demotracer_converter::avatar::{detect_avatar_image_format, parse_avatar_overrides, AVATAR_SOURCE};
use demotracer_converter::digest::sha256_hex;
use demotracer_converter::model::AvatarImageFormat;

#[test]
fn default_avatar_override_expands_to_demo_players() {
    let png = b"\x89PNG\r\n\x1a\nblast".to_vec();
    let expected_sha256 = sha256_hex(&png);

    let parsed = parse_avatar_overrides(
        vec![("default".to_string(), png.clone())],
        &vec![76561198000000002, 0, 76561198000000001, 76561198000000002],
    );

    assert_eq!(parsed.len(), 2);
    assert_eq!(parsed[0].steam_id, 76561198000000001);
    assert_eq!(parsed[1].steam_id, 76561198000000002);
    assert!(parsed
        .iter()
        .all(|avatar| avatar.sha256 == expected_sha256 && avatar.bytes == png));
}

#[test]
fn player_avatar_override_takes_precedence_over_default() {
    let default_png = b"\x89PNG\r\n\x1a\ndefault".to_vec();
    let player_png = b"\x89PNG\r\n\x1a\nplayer".to_vec();
    let player_sha256 = sha256_hex(&player_png);

    let parsed = parse_avatar_overrides(
        vec![
            ("default".to_string(), default_png),
            ("76561198000000001".to_string(), player_png),
        ],
        &vec![76561198000000001],
    );

    assert_eq!(parsed.len(), 1);
    assert_eq!(parsed[0].steam_id, 76561198000000001);
    assert_eq!(parsed[0].sha256, player_sha256);
}

#[test]
fn player_with_two_distinct_images_falls_back_to_the_default() {
    let default_jpg = b"\xff\xd8\xffdefault".to_vec();
    let parsed = parse_avatar_overrides(
        vec![
            (" 7 ".to_string(), b"first".to_vec()),
            ("7".to_string(), b"second".to_vec()),
            ("8".to_string(), b"same".to_vec()),
            ("8".to_string(), b"same".to_vec()),
            (" DeFault ".to_string(), default_jpg.clone()),
        ],
        &vec![7],
    );

    assert_eq!(parsed.len(), 2);
    assert_eq!(parsed[0].steam_id, 7);
    assert_eq!(parsed[0].bytes, default_jpg);
    assert_eq!(parsed[0].format, AvatarImageFormat::Jpeg);
    assert_eq!(parsed[0].sha256, sha256_hex(&default_jpg));
    assert_eq!(parsed[1].steam_id, 8);
    assert_eq!(parsed[1].bytes, b"same".to_vec());
    assert_eq!(parsed[1].format, AvatarImageFormat::Binary);
    assert_eq!(parsed[1].source, AVATAR_SOURCE);
}

#[test]
fn two_distinct_default_images_apply_to_nobody() {
    let parsed = parse_avatar_overrides(
        vec![
            ("default".to_string(), b"one".to_vec()),
            ("default".to_string(), b"two".to_vec()),
        ],
        &vec![1, 2],
    );
    assert!(parsed.is_empty());
}

#[test]
fn empty_images_and_unreadable_keys_are_skipped() {
    let parsed = parse_avatar_overrides(
        vec![
            ("5".to_string(), Vec::new()),
            ("not-a-player".to_string(), b"x".to_vec()),
            ("-4".to_string(), b"x".to_vec()),
            ("default".to_string(), Vec::new()),
        ],
        &vec![5],
    );
    assert!(parsed.is_empty());
}

#[test]
fn player_zero_keeps_its_own_image_but_gets_no_default() {
    let parsed = parse_avatar_overrides(
        vec![
            ("default".to_string(), b"d".to_vec()),
            ("0".to_string(), b"z".to_vec()),
        ],
        &vec![0, 3],
    );
    assert_eq!(parsed.len(), 2);
    assert_eq!(parsed[0].steam_id, 0);
    assert_eq!(parsed[0].bytes, b"z".to_vec());
    assert_eq!(parsed[1].steam_id, 3);
    assert_eq!(parsed[1].bytes, b"d".to_vec());
}

#[test]
fn image_format_is_read_from_the_signature() {
    assert_eq!(detect_avatar_image_format(b"\x89PNG\r\n\x1a\nrest"), AvatarImageFormat::Png);
    assert_eq!(detect_avatar_image_format(b"\xff\xd8\xff"), AvatarImageFormat::Jpeg);
    assert_eq!(detect_avatar_image_format(b"\x89PNG\r\n\x1a"), AvatarImageFormat::Binary);
    assert_eq!(detect_avatar_image_format(b""), AvatarImageFormat::Binary);
}

#[test]
fn override_hash_is_the_sha256_of_the_image() {
    let parsed = parse_avatar_overrides(vec![("9".to_string(), b"abc".to_vec())], &vec![]);
    assert_eq!(parsed.len(), 1);
    assert_eq!(
        parsed[0].sha256,
        "ba7816bf8f01cfea414140de5dae2223b00361a396177a9cb410ff61f20015ad"
    );
}
