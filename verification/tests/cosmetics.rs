use demotracer_converter::catalog::{Cs2LibEconIndex, RawCs2LibEconIndex, RawReplayEquipment, ReplayEquipmentSlot};
use demotracer_converter::cosmetics::{
    agent_model_path_from_name, combine_item_id, cosmetic_custom_name_value, cosmetic_paint_spec,
    stable_knife_custom_name, CosmeticPaintSpec, Unique,
};

#[test]
fn agent_model_path_uses_known_family_prefixes() {
    assert_eq!(
        agent_model_path_from_name("customplayer_tm_jungle_raider_variantb2").as_deref(),
        Some("agents\\models\\tm_jungle_raider\\tm_jungle_raider_variantb2.vmdl")
    );
    assert_eq!(
        agent_model_path_from_name("customplayer_tm_professional_varf1").as_deref(),
        Some("agents\\models\\tm_professional\\tm_professional_varf1.vmdl")
    );
    assert_eq!(
        agent_model_path_from_name("customplayer_tm_phoenix_heavy").as_deref(),
        Some("agents\\models\\tm_phoenix_heavy\\tm_phoenix_heavy.vmdl")
    );
    assert_eq!(agent_model_path_from_name("customplayer_t_map_based"), None);
    assert_eq!(
        agent_model_path_from_name("customplayer_ct_map_based"),
        None
    );
}

#[test]
fn unique_evidence_keeps_one_value_and_sticks_on_conflict() {
    let mut value = Unique::default();
    value.observe(7u32);
    value.observe(7u32);
    assert_eq!(value.into_value(), Some(7));

    let mut value = Unique::default();
    value.observe(7u32);
    value.observe(8u32);
    value.observe(7u32);
    assert_eq!(value.into_value(), None);

    let mut value: Unique<u32> = Unique::default();
    value.observe_option(None);
    assert_eq!(value.into_value(), None);
}

#[test]
fn item_ids_combine_their_halves() {
    assert_eq!(combine_item_id(Some(1), Some(2)), Some((1u64 << 32) | 2));
    assert_eq!(combine_item_id(Some(0), Some(0)), Some(0));
    assert_eq!(combine_item_id(None, Some(2)), None);
}

#[test]
fn custom_names_are_trimmed_and_cleaned() {
    assert_eq!(cosmetic_custom_name_value(Some("  Blade\u{7}  ")).as_deref(), Some("Blade"));
    assert_eq!(cosmetic_custom_name_value(Some("   ")), None);
    assert_eq!(cosmetic_custom_name_value(None), None);
    let long = "x".repeat(200);
    assert_eq!(cosmetic_custom_name_value(Some(&long)).map(|n| n.len()), Some(128));
}

#[test]
fn knife_custom_name_needs_one_name() {
    let names = vec![(515, "first".to_string()), (515, "first".to_string()), (500, "other".to_string())];
    assert_eq!(stable_knife_custom_name(&names, 515).as_deref(), Some("first"));
    let names = vec![(515, "first".to_string()), (515, "second".to_string())];
    assert_eq!(stable_knife_custom_name(&names, 515), None);
    assert_eq!(stable_knife_custom_name(&names, 1), None);
}

#[test]
fn paint_spec_needs_known_kit_seed_and_valid_wear() {
    let raw = RawCs2LibEconIndex {
        weapon_paints: Vec::new(),
        paint_kit_ids: vec![44],
        replay_equipment_defidx: vec![42],
        replay_equipment: vec![RawReplayEquipment {
            weapon_defidx: 42,
            class_name: "weapon_knife".to_string(),
            replay_slot: ReplayEquipmentSlot::Knife,
        }],
        knife_defidx: vec![42],
        glove_defidx: Vec::new(),
        agent_defidx: Vec::new(),
        sticker_ids: Vec::new(),
        keychain_ids: Vec::new(),
        music_kit_ids: Vec::new(),
        scoreboard_flair_defidx: Vec::new(),
    };
    let index = Cs2LibEconIndex::from_raw(raw);
    let spec = cosmetic_paint_spec(&index, Some(44), Some(3), Some(0.5f32.to_bits())).unwrap();
    assert!(spec == CosmeticPaintSpec { paint_kit: 44, seed: 3, wear_bits: 0.5f32.to_bits() });
    assert!(cosmetic_paint_spec(&index, Some(45), Some(3), Some(0.5f32.to_bits())).is_none());
    assert!(cosmetic_paint_spec(&index, Some(44), None, Some(0.5f32.to_bits())).is_none());
    assert!(cosmetic_paint_spec(&index, Some(44), Some(3), Some(1.5f32.to_bits())).is_none());
}
