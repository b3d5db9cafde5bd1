use demotracer_converter::catalog::{
    Cs2LibEconIndex, RawCs2LibEconIndex, RawPaintPair, RawReplayEquipment, ReplayEquipmentSlot,
};
use demotracer_converter::weapon_evidence::{
    cosmetic_charm_set_from_attributes, cosmetic_sticker_set_from_slice,
    has_trusted_inventory_weapon_cosmetic_identity, inventory_attribute_u32,
    inventory_item_cosmetic_evidence,
    inventory_stattrak_counter, inventory_weapon_cosmetics_for_row, ParsedInventoryWeaponAttribute,
    ParsedInventoryWeaponCosmetic, ParsedWeaponSticker,
};

fn equipment(def: i32, class_name: &str, slot: ReplayEquipmentSlot) -> RawReplayEquipment {
    RawReplayEquipment { weapon_defidx: def, class_name: class_name.to_string(), replay_slot: slot }
}

fn pair(def: i32, kit: u32) -> RawPaintPair {
    RawPaintPair { weapon_defidx: def, paint_kit: kit, rarity: None }
}

fn test_index() -> Cs2LibEconIndex {
    let raw = RawCs2LibEconIndex {
        weapon_paints: vec![pair(16, 926), pair(16, 309), pair(7, 44), pair(31, 1183)],
        paint_kit_ids: vec![926, 309, 44, 1183],
        replay_equipment_defidx: vec![16, 7, 42, 31, 44],
        replay_equipment: vec![
            equipment(16, "weapon_m4a1", ReplayEquipmentSlot::Primary),
            equipment(7, "weapon_ak47", ReplayEquipmentSlot::Primary),
            equipment(42, "weapon_knife", ReplayEquipmentSlot::Knife),
            equipment(31, "weapon_taser", ReplayEquipmentSlot::Taser),
            equipment(44, "weapon_hegrenade", ReplayEquipmentSlot::Utility),
        ],
        knife_defidx: vec![42],
        glove_defidx: Vec::new(),
        agent_defidx: Vec::new(),
        sticker_ids: vec![225, 7891],
        keychain_ids: vec![12],
        music_kit_ids: Vec::new(),
        scoreboard_flair_defidx: Vec::new(),
    };
    Cs2LibEconIndex::from_raw(raw)
}

fn item(def: i32, kit: u32) -> ParsedInventoryWeaponCosmetic {
    ParsedInventoryWeaponCosmetic {
        item_def_index: def,
        item_id_high: None,
        item_id_low: None,
        item_account_id: None,
        original_owner_xuid: None,
        paint_kit: kit,
        paint_seed: 0,
        paint_wear_bits: 0.0f32.to_bits(),
        entity_quality: None,
        stattrak_counter: None,
        attributes: Vec::new(),
        custom_name: None,
        stickers: Vec::new(),
    }
}

fn sticker(slot: u8, sticker_id: u32) -> ParsedWeaponSticker {
    ParsedWeaponSticker {
        slot,
        sticker_id,
        wear_bits: 0.1f32.to_bits(),
        offset_x_bits: 0.0f32.to_bits(),
        offset_y_bits: 0.0f32.to_bits(),
        scale_bits: None,
        rotation_bits: None,
    }
}

#[test]
fn inventory_conflicts_are_sticky_and_do_not_remove_independent_evidence() {
    let index = test_index();
    let mut first = item(16, 926);
    first.paint_seed = 42;
    first.paint_wear_bits = 0.123f32.to_bits();
    first.item_account_id = Some(123);
    first.entity_quality = Some(9);
    first.stattrak_counter = Some(1);
    first.custom_name = Some("first".to_string());
    first.stickers = vec![sticker(0, 225)];
    let mut conflicting = first.clone();
    conflicting.custom_name = Some("other".to_string());
    conflicting.stattrak_counter = Some(2);
    conflicting.stickers[0].sticker_id = 7891;
    let items = vec![first.clone(), conflicting.clone(), first.clone()];
    let weapons = inventory_weapon_cosmetics_for_row(&index, &items, true, true).unwrap();
    assert_eq!(weapons.len(), 1);
    let weapon = &weapons[0];
    assert_eq!(weapon.paint_kit, 926);
    assert_eq!(weapon.wear_bits, first.paint_wear_bits);
    assert_eq!(weapon.item_account_id, Some(123));
    assert_eq!(weapon.quality, Some(9));
    assert_eq!(weapon.custom_name, None);
    assert_eq!(weapon.stattrak_counter, None);
    assert!(weapon.stickers.is_empty());

    conflicting.paint_kit = 309;
    let items = vec![first.clone(), conflicting, first];
    assert!(inventory_weapon_cosmetics_for_row(&index, &items, true, true).is_none());
}

#[test]
fn agreeing_items_keep_every_attribute_in_definition_order() {
    let index = test_index();
    let mut m4 = item(16, 926);
    m4.item_id_high = Some(0);
    m4.item_id_low = Some(77);
    m4.original_owner_xuid = Some(0);
    m4.custom_name = Some("  Blade ".to_string());
    m4.stickers = vec![sticker(2, 7891), sticker(0, 225)];
    let mut ak = item(7, 44);
    ak.item_account_id = Some(5);
    ak.original_owner_xuid = Some(9);
    let items = vec![m4.clone(), ak.clone(), m4];
    let weapons = inventory_weapon_cosmetics_for_row(&index, &items, true, false).unwrap();
    assert_eq!(weapons.len(), 2);
    assert_eq!(weapons[0].weapon_def_index, 7);
    assert_eq!(weapons[0].original_owner_steam_id, Some(9));
    assert_eq!(weapons[0].item_account_id, Some(5));
    assert_eq!(weapons[1].weapon_def_index, 16);
    assert_eq!(weapons[1].item_id, Some(77));
    assert_eq!(weapons[1].original_owner_steam_id, None);
    assert_eq!(weapons[1].custom_name.as_deref(), Some("Blade"));
    let slots: Vec<u8> = weapons[1].stickers.iter().map(|s| s.slot).collect();
    assert_eq!(slots, vec![0, 2]);
    assert!(weapons[1].charms.is_empty());
    assert!(weapons[1].inspect.is_none());
}

#[test]
fn untrusted_unpainted_and_non_weapon_items_are_ignored() {
    let index = test_index();
    // No item id and an account id of 1: not trusted.
    let mut weak = item(16, 926);
    weak.item_account_id = Some(1);
    // A grenade carries no paint.
    let mut grenade = item(44, 926);
    grenade.item_account_id = Some(5);
    // A paint kit the catalog does not pair with the weapon.
    let mut unpaired = item(7, 926);
    unpaired.item_account_id = Some(5);
    let items = vec![weak, grenade, unpaired];
    assert!(inventory_weapon_cosmetics_for_row(&index, &items, true, true).is_none());
    assert!(inventory_weapon_cosmetics_for_row(&index, &Vec::new(), true, true).is_none());
}

#[test]
fn stickers_and_charms_are_exported_only_when_asked() {
    let index = test_index();
    let mut m4 = item(16, 926);
    m4.item_account_id = Some(5);
    m4.stickers = vec![sticker(1, 225)];
    m4.attributes = vec![
        ParsedInventoryWeaponAttribute { definition_index: 299, raw_value_bits: 12 },
        ParsedInventoryWeaponAttribute { definition_index: 300, raw_value_bits: 0.5f32.to_bits() },
        ParsedInventoryWeaponAttribute { definition_index: 301, raw_value_bits: 0.0f32.to_bits() },
        ParsedInventoryWeaponAttribute { definition_index: 302, raw_value_bits: 0.0f32.to_bits() },
    ];
    let items = vec![m4];
    let off = inventory_weapon_cosmetics_for_row(&index, &items, false, false).unwrap();
    assert!(off[0].stickers.is_empty());
    assert!(off[0].charms.is_empty());
    let on = inventory_weapon_cosmetics_for_row(&index, &items, true, true).unwrap();
    assert_eq!(on[0].stickers.len(), 1);
    assert_eq!(on[0].stickers[0].sticker_id, 225);
    assert_eq!(on[0].charms.len(), 1);
    assert_eq!(on[0].charms[0].charm_id, 12);
    assert_eq!(on[0].charms[0].offset_x_bits, 0.5f32.to_bits());
    assert_eq!(on[0].charms[0].seed, None);
}

#[test]
fn item_identity_needs_an_item_id_or_a_real_account() {
    let mut it = item(16, 926);
    assert!(!has_trusted_inventory_weapon_cosmetic_identity(&it));
    it.item_account_id = Some(1);
    assert!(!has_trusted_inventory_weapon_cosmetic_identity(&it));
    it.item_account_id = Some(2);
    assert!(has_trusted_inventory_weapon_cosmetic_identity(&it));
    it.item_account_id = None;
    it.item_id_high = Some(0);
    it.item_id_low = Some(0);
    assert!(!has_trusted_inventory_weapon_cosmetic_identity(&it));
    it.item_id_high = Some(1);
    assert!(has_trusted_inventory_weapon_cosmetic_identity(&it));
}

#[test]
fn stattrak_counter_falls_back_to_the_counter_attribute() {
    let mut it = item(16, 926);
    it.stattrak_counter = Some(-1);
    it.attributes = vec![
        ParsedInventoryWeaponAttribute { definition_index: 80, raw_value_bits: 17 },
        ParsedInventoryWeaponAttribute { definition_index: 80, raw_value_bits: 18 },
    ];
    assert_eq!(inventory_stattrak_counter(&it), None);
    it.entity_quality = Some(9);
    assert_eq!(inventory_stattrak_counter(&it), Some(17));
    it.stattrak_counter = Some(4);
    assert_eq!(inventory_stattrak_counter(&it), Some(4));
    it.stattrak_counter = None;
    it.attributes[0].raw_value_bits = 0x8000_0000;
    assert_eq!(inventory_stattrak_counter(&it), None);
    assert_eq!(inventory_attribute_u32(&it.attributes, 81), None);
}

#[test]
fn sticker_sets_reject_invalid_or_doubled_slots() {
    let index = test_index();
    assert!(cosmetic_sticker_set_from_slice(&index, &Vec::new()).is_none());
    assert!(cosmetic_sticker_set_from_slice(&index, &vec![sticker(0, 225), sticker(0, 7891)]).is_none());
    assert!(cosmetic_sticker_set_from_slice(&index, &vec![sticker(5, 225)]).is_none());
    assert!(cosmetic_sticker_set_from_slice(&index, &vec![sticker(0, 1)]).is_none());
    let mut worn = sticker(0, 225);
    worn.wear_bits = 1.5f32.to_bits();
    assert!(cosmetic_sticker_set_from_slice(&index, &vec![worn]).is_none());
    let set = cosmetic_sticker_set_from_slice(&index, &vec![sticker(4, 225), sticker(3, 7891)]).unwrap();
    assert_eq!(set.iter().map(|s| s.slot).collect::<Vec<_>>(), vec![3, 4]);
}

#[test]
fn charms_need_a_catalog_keychain_and_finite_offsets() {
    let index = test_index();
    let attrs = |id: u32, x: u32| {
        vec![
            ParsedInventoryWeaponAttribute { definition_index: 299, raw_value_bits: id },
            ParsedInventoryWeaponAttribute { definition_index: 300, raw_value_bits: x },
            ParsedInventoryWeaponAttribute { definition_index: 301, raw_value_bits: 0 },
            ParsedInventoryWeaponAttribute { definition_index: 302, raw_value_bits: 0 },
            ParsedInventoryWeaponAttribute { definition_index: 314, raw_value_bits: 0 },
            ParsedInventoryWeaponAttribute { definition_index: 321, raw_value_bits: 225 },
        ]
    };
    let charms = cosmetic_charm_set_from_attributes(&index, &attrs(12, 0)).unwrap();
    assert_eq!(charms.len(), 1);
    assert_eq!(charms[0].highlight, None);
    assert_eq!(charms[0].sticker_id, Some(225));
    assert!(cosmetic_charm_set_from_attributes(&index, &attrs(13, 0)).is_none());
    assert!(cosmetic_charm_set_from_attributes(&index, &attrs(12, f32::NAN.to_bits())).is_none());
    assert!(cosmetic_charm_set_from_attributes(&index, &Vec::new()).is_none());
}

#[test]
fn taser_inventory_cosmetic_is_exported() {
    let index = test_index();
    let mut taser = item(31, 1183);
    taser.paint_seed = 733;
    taser.paint_wear_bits = 0.139_071_45_f32.to_bits();

    let cosmetic = inventory_item_cosmetic_evidence(&index, &taser)
        .expect("Zeus x27 cosmetic evidence should be exported");

    assert_eq!(cosmetic.weapon_def_index, 31);
    assert_eq!(cosmetic.paint_kit, 1183);
    assert_eq!(cosmetic.seed, 733);
    assert_eq!(cosmetic.wear_bits, 0.139_071_45_f32.to_bits());
}

#[test]
fn single_item_evidence_needs_a_painted_weapon() {
    let index = test_index();
    assert!(inventory_item_cosmetic_evidence(&index, &item(42, 926)).is_none());
    assert!(inventory_item_cosmetic_evidence(&index, &item(16, 44)).is_none());
    let mut wrong_wear = item(16, 926);
    wrong_wear.paint_wear_bits = 1.5f32.to_bits();
    assert!(inventory_item_cosmetic_evidence(&index, &wrong_wear).is_none());

    let mut m4 = item(16, 926);
    m4.entity_quality = Some(9);
    m4.stattrak_counter = Some(-1);
    m4.original_owner_xuid = Some(0);
    m4.item_id_high = Some(1);
    m4.item_id_low = Some(2);
    m4.custom_name = Some("  Dove ".to_string());
    m4.stickers = vec![sticker(0, 225), sticker(1, 7891)];
    let w = inventory_item_cosmetic_evidence(&index, &m4).unwrap();
    assert_eq!(w.quality, Some(9));
    assert_eq!(w.stattrak_counter, None);
    assert_eq!(w.original_owner_steam_id, None);
    assert_eq!(w.item_id, Some((1u64 << 32) | 2));
    assert_eq!(w.custom_name.as_deref(), Some("Dove"));
    assert_eq!(w.stickers.len(), 2);
    assert!(w.charms.is_empty());
    assert!(w.inspect.is_none());
}
