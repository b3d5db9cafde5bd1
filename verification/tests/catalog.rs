use demotracer_converter::catalog::{
    normalize_item_event_name, raw_index_is_consistent, Cs2LibEconIndex, RawCs2LibEconIndex,
    RawPaintPair, RawReplayEquipment, ReplayEquipmentSlot,
};

fn equipment(def: i32, class: &str, slot: ReplayEquipmentSlot) -> RawReplayEquipment {
    RawReplayEquipment { weapon_defidx: def, class_name: class.to_string(), replay_slot: slot }
}

fn raw() -> RawCs2LibEconIndex {
    RawCs2LibEconIndex {
        weapon_paints: vec![
            RawPaintPair { weapon_defidx: 7, paint_kit: 44, rarity: Some(4) },
            RawPaintPair { weapon_defidx: 515, paint_kit: 413, rarity: Some(6) },
        ],
        paint_kit_ids: vec![0, 44, 413],
        replay_equipment_defidx: vec![7, 42, 49, 43],
        replay_equipment: vec![
            equipment(7, "weapon_ak47", ReplayEquipmentSlot::Primary),
            equipment(42, "weapon_knife", ReplayEquipmentSlot::Knife),
            equipment(49, "weapon_c4", ReplayEquipmentSlot::C4),
            equipment(43, "weapon_flashbang", ReplayEquipmentSlot::Utility),
        ],
        knife_defidx: vec![42, 59, 515],
        glove_defidx: vec![5034],
        agent_defidx: vec![4619],
        sticker_ids: vec![0, 7901],
        keychain_ids: vec![3],
        music_kit_ids: vec![1, 2, 57],
        scoreboard_flair_defidx: vec![874],
    }
}

fn index() -> Cs2LibEconIndex {
    let raw = raw();
    assert!(raw_index_is_consistent(&raw));
    Cs2LibEconIndex::from_raw(raw)
}

#[test]
fn knives_play_back_as_the_default_knife() {
    let index = index();
    assert_eq!(index.normalize_weapon_def_index(515), 42);
    assert_eq!(index.normalize_weapon_def_index(index.normalize_weapon_def_index(515)), 42);
    assert_eq!(index.normalize_weapon_def_index(7), 7);
    assert!(index.is_knife_cosmetic_def_index(515));
    assert!(!index.is_knife_cosmetic_def_index(42));
}

#[test]
fn paints_are_checked_against_normalized_weapons() {
    let index = index();
    assert!(index.valid_weapon_cosmetic_paint(7, 44));
    assert!(!index.valid_weapon_cosmetic_paint(7, 413));
    assert!(index.valid_weapon_cosmetic_paint(59, 413));
    assert_eq!(index.weapon_cosmetic_rarity(7, 44), Some(4));
    assert_eq!(index.weapon_cosmetic_rarity(7, 45), None);
    assert!(index.valid_paint_kit(44));
    assert!(!index.valid_paint_kit(0));
    assert!(index.valid_sticker_id(7901));
    assert!(!index.valid_sticker_id(0));
}

#[test]
fn item_names_resolve_to_definitions() {
    let index = index();
    assert_eq!(index.weapon_def_index_from_item_name(" AK47 "), Some(7));
    assert_eq!(index.weapon_def_index_from_item_name("c4"), Some(49));
    assert_eq!(index.weapon_def_index_from_item_name("awp"), None);
    assert_eq!(index.weapon_item_name(515), Some("weapon_knife"));
    assert_eq!(index.weapon_item_name(1), None);
    assert_eq!(normalize_item_event_name("Decoy_Grenade"), "weapon_decoy");
    assert_eq!(normalize_item_event_name("weapon_c4_explosive"), "weapon_c4");
    assert_eq!(normalize_item_event_name("weapon_awp"), "weapon_awp");
    assert_eq!(normalize_item_event_name("hegrenade"), "weapon_hegrenade");
}

#[test]
fn equipment_slots_and_catalog_memberships() {
    let index = index();
    assert!(index.is_replay_equipment_event_def(43));
    assert!(!index.is_replay_equipment_event_def(7));
    assert!(index.is_weapon_cosmetic_def_index(7));
    assert!(index.valid_replay_equipment_item_def_index(515));
    assert!(index.is_known_weapon_def_index(49));
    assert!(!index.is_known_weapon_def_index(1));
    assert!(index.valid_music_kit_id(1));
    assert!(!index.valid_music_kit_evidence_id(1));
    assert!(index.valid_music_kit_evidence_id(57));
    assert!(index.valid_scoreboard_flair_item_def(0));
    assert!(index.valid_scoreboard_flair_item_def(874));
    assert!(index.valid_glove_item_def_index(5034));
    assert!(index.valid_knife_item_def_index(59));
    assert!(index.valid_agent_item_def_index(4619));
    assert!(index.valid_keychain_id(3));
}

#[test]
fn inconsistent_catalog_is_detected() {
    let mut bad = raw();
    bad.replay_equipment_defidx.pop();
    assert!(!raw_index_is_consistent(&bad));
}
