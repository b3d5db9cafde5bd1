use demotracer_converter::inspect_link::{
    crc32, encode_keychain, encode_sticker, inspect_compatible_custom_name, item_inspect,
    uppercase_hex, valid_wear, weapon_inspect, write_varint, PREVIEW_COMMAND, PREVIEW_URL,
};
use demotracer_converter::model::{
    ReplayItemCosmetic, ReplayWeaponCharm, ReplayWeaponCosmetic, ReplayWeaponSticker,
};

fn item(defindex: i32, paint_kit: u32, seed: u32, wear: f32) -> ReplayItemCosmetic {
    ReplayItemCosmetic {
        item_def_index: Some(defindex),
        paint_kit,
        seed,
        seed_known: None,
        wear_bits: wear.to_bits(),
        custom_name: None,
        inspect: None,
    }
}

#[test]
fn crimson_kimono_glove_matches_native_preview_payload() {
    let inspect = item_inspect(
        &item(5034, 10033, 772, f32::from_bits(1_032_289_721)),
        Some(6),
    )
    .unwrap();
    assert_eq!(
        inspect.command,
        "csgo_econ_action_preview 0018AA2720B14E280638B9FB9DEC034084063BFD7E70"
    );
    assert_eq!(
        inspect.steam_url.as_deref(),
        Some("steam://run/730/en/+csgo_econ_action_preview%200018AA2720B14E280638B9FB9DEC034084063BFD7E70")
    );
}

#[test]
fn butterfly_marble_fade_matches_native_preview_payload() {
    let inspect =
        item_inspect(&item(515, 413, 284, f32::from_bits(1_028_123_081)), Some(6)).unwrap();
    assert_eq!(
        inspect.command,
        "csgo_econ_action_preview 00188304209D03280638C9D39FEA03409C02487E8790"
    );
}

#[test]
fn fullwidth_custom_name_is_preserved_in_preview_payload() {
    let mut cosmetic = item(515, 568, 142, f32::from_bits(0x3c43_cb58));
    let custom_name = "千古风流今在此，万里功名莫放休";
    cosmetic.custom_name = Some(custom_name.to_string());

    let inspect = item_inspect(&cosmetic, Some(6)).unwrap();

    assert!(inspect
        .command
        .contains(&uppercase_hex(custom_name.as_bytes())));
    assert_eq!(
        inspect_compatible_custom_name(Some(custom_name)),
        Some(custom_name)
    );
    assert_eq!(
        inspect_compatible_custom_name(Some("not-compatible")),
        Some("not-compatible")
    );
    assert_eq!(inspect_compatible_custom_name(Some("<invalid>")), None);
}

#[test]
fn long_sticker_payload_keeps_equivalent_command_and_steam_url() {
    let stickers = (0..5)
        .map(|slot| ReplayWeaponSticker {
            slot,
            sticker_id: 7_901,
            wear_bits: 0.123f32.to_bits(),
            offset_x_bits: (-0.25f32).to_bits(),
            offset_y_bits: 0.5f32.to_bits(),
            scale_bits: Some(1.0f32.to_bits()),
            rotation_bits: Some(180.0f32.to_bits()),
        })
        .collect();
    let cosmetic = ReplayWeaponCosmetic {
        weapon_def_index: 7,
        paint_kit: 1_801,
        seed: 999,
        wear_bits: 0.01f32.to_bits(),
        quality: Some(9),
        stattrak_counter: Some(12_345),
        original_owner_steam_id: None,
        item_account_id: None,
        item_id: None,
        custom_name: Some("a sufficiently long custom name".to_string()),
        stickers,
        charms: Vec::new(),
        inspect: None,
    };
    let inspect = weapon_inspect(&cosmetic, Some(6)).unwrap();
    let payload = inspect.command.strip_prefix(PREVIEW_COMMAND).unwrap();
    assert_eq!(
        inspect.steam_url.as_deref(),
        Some(format!("{PREVIEW_URL}{payload}").as_str())
    );
}

#[test]
fn crc32_matches_the_standard_check_value() {
    assert_eq!(crc32(b"123456789"), 0xCBF4_3926);
    assert_eq!(crc32(b""), 0);
}

#[test]
fn varint_uses_seven_bits_per_byte() {
    let mut out = Vec::new();
    write_varint(&mut out, 300);
    assert_eq!(out, vec![0xAC, 0x02]);
    let mut out = Vec::new();
    write_varint(&mut out, 1);
    assert_eq!(out, vec![0x01]);
}

#[test]
fn uppercase_hex_writes_two_digits_per_byte() {
    assert_eq!(uppercase_hex(&[0x00, 0xAB, 0x0F]), "00AB0F");
}

#[test]
fn wear_accepts_unit_interval_and_negative_zero_only() {
    assert!(valid_wear(0.0f32.to_bits()));
    assert!(valid_wear(1.0f32.to_bits()));
    assert!(valid_wear((-0.0f32).to_bits()));
    assert!(!valid_wear(1.5f32.to_bits()));
    assert!(!valid_wear((-0.5f32).to_bits()));
    assert!(!valid_wear(f32::NAN.to_bits()));
}

#[test]
fn invalid_wear_gives_no_preview() {
    assert!(item_inspect(&item(515, 413, 284, 2.0), Some(6)).is_none());
}

#[test]
fn sticker_and_keychain_encode_their_ids() {
    let sticker = ReplayWeaponSticker {
        slot: 1,
        sticker_id: 5,
        wear_bits: 0,
        offset_x_bits: 0,
        offset_y_bits: 0,
        scale_bits: None,
        rotation_bits: None,
    };
    let bytes = encode_sticker(&sticker);
    assert_eq!(&bytes[..4], &[0x08, 0x01, 0x10, 0x05]);
    let charm = ReplayWeaponCharm {
        slot: 0,
        charm_id: 3,
        offset_x_bits: 0,
        offset_y_bits: 0,
        offset_z_bits: 0,
        seed: None,
        highlight: None,
        sticker_id: None,
    };
    let bytes = encode_keychain(&charm);
    assert_eq!(&bytes[..4], &[0x08, 0x00, 0x10, 0x03]);
}
