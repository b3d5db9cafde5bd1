use demotracer_converter::catalog::{
    Cs2LibEconIndex, RawCs2LibEconIndex, RawPaintPair, RawReplayEquipment, ReplayEquipmentSlot,
};
use demotracer_converter::cosmetics::STEAM_ID64_BASE;
use demotracer_converter::model::{ParsedScoreboardFlair, ReplayCosmetics, ReplayItemCosmetic};
use demotracer_converter::playback::{
    active_cosmetic_owned_by, glove_econ_seed_index, knife_econ_paint_index,
    live_start_inventory_cosmetic_row, matching_active_econ_knife_paint, populate_cosmetic_inspect,
    replay_active_cosmetics, replay_agent_cosmetic, replay_cosmetics_at,
    round_inventory_weapon_cosmetics, stable_glove_fallback_seed, stable_music_kit_id,
    stable_scoreboard_flair, CosmeticRow, EconGloveKey, EconKnifePaint, InventorySnapshotTracker,
};
use demotracer_converter::segment_merge::SegmentEconItem;
use demotracer_converter::weapon_evidence::{ParsedInventoryWeaponCosmetic, ParsedWeaponSticker};
use sha2::{Digest, Sha256};

const PLAYER: u64 = STEAM_ID64_BASE + 1000;

fn equipment(def: i32, class_name: &str, slot: ReplayEquipmentSlot) -> RawReplayEquipment {
    RawReplayEquipment { weapon_defidx: def, class_name: class_name.to_string(), replay_slot: slot }
}

fn pair(def: i32, kit: u32) -> RawPaintPair {
    RawPaintPair { weapon_defidx: def, paint_kit: kit, rarity: Some(4) }
}

fn test_index() -> Cs2LibEconIndex {
    let raw = RawCs2LibEconIndex {
        weapon_paints: vec![pair(16, 926), pair(16, 309), pair(7, 44)],
        paint_kit_ids: vec![926, 309, 44, 568, 10006],
        replay_equipment_defidx: vec![16, 7, 42],
        replay_equipment: vec![
            equipment(16, "weapon_m4a1", ReplayEquipmentSlot::Primary),
            equipment(7, "weapon_ak47", ReplayEquipmentSlot::Primary),
            equipment(42, "weapon_knife", ReplayEquipmentSlot::Knife),
        ],
        knife_defidx: vec![42, 59, 507],
        glove_defidx: vec![5030],
        agent_defidx: vec![4613],
        sticker_ids: vec![225],
        keychain_ids: Vec::new(),
        music_kit_ids: vec![1, 3],
        scoreboard_flair_defidx: vec![874],
    };
    Cs2LibEconIndex::from_raw(raw)
}

fn row(def: i32) -> CosmeticRow {
    CosmeticRow {
        steam_id: PLAYER,
        team_num: 2,
        is_alive: true,
        inventory_weapon_cosmetics: Vec::new(),
        inventory_snapshot: 0,
        agent_item_def_index: None,
        agent_skin: None,
        music_kit_id: None,
        scoreboard_flair: None,
        item_def_idx: def,
        active_weapon_paint_kit: None,
        active_weapon_paint_seed: None,
        active_weapon_paint_wear_bits: None,
        active_weapon_original_owner_steam_id: None,
        active_weapon_item_account_id: None,
        active_weapon_item_id: None,
        active_weapon_custom_name: None,
        active_weapon_stickers: Vec::new(),
        glove_item_def_index: None,
        glove_paint_kit: None,
        glove_paint_seed: None,
        glove_paint_wear_bits: None,
    }
}

fn painted(def: i32, kit: u32, seed: u32, wear: f32) -> CosmeticRow {
    let mut r = row(def);
    r.active_weapon_paint_kit = Some(kit);
    r.active_weapon_paint_seed = Some(seed);
    r.active_weapon_paint_wear_bits = Some(wear.to_bits());
    r
}

fn gloved(seed: Option<u32>) -> CosmeticRow {
    let mut r = row(7);
    r.glove_item_def_index = Some(5030);
    r.glove_paint_kit = Some(10006);
    r.glove_paint_wear_bits = Some(0.5f32.to_bits());
    r.glove_paint_seed = seed;
    r
}

fn inventory_item(def: i32, kit: u32) -> ParsedInventoryWeaponCosmetic {
    ParsedInventoryWeaponCosmetic {
        item_def_index: def,
        item_id_high: Some(0),
        item_id_low: Some(55),
        item_account_id: None,
        original_owner_xuid: None,
        paint_kit: kit,
        paint_seed: 3,
        paint_wear_bits: 0.2f32.to_bits(),
        entity_quality: None,
        stattrak_counter: None,
        attributes: Vec::new(),
        custom_name: None,
        stickers: Vec::new(),
    }
}

fn econ_item(def: u32, kit: u32, seed: u32, wear: f32, name: Option<&str>) -> SegmentEconItem {
    SegmentEconItem {
        steam_id: Some(PLAYER),
        item_def_index: Some(def),
        paint_kit: Some(kit),
        paint_seed: Some(seed),
        paint_wear_raw: Some(wear.to_bits()),
        paint_wear_bits: None,
        custom_name: name.map(|n| n.to_string()),
        item_name: None,
        skin_name: None,
        source: 0,
    }
}

fn sticker(sticker_id: u32) -> ParsedWeaponSticker {
    ParsedWeaponSticker {
        slot: 0,
        sticker_id,
        wear_bits: 0.0f32.to_bits(),
        offset_x_bits: 0.0f32.to_bits(),
        offset_y_bits: 0.0f32.to_bits(),
        scale_bits: None,
        rotation_bits: None,
    }
}

#[test]
fn owned_knife_shows_its_live_paint_and_cleaned_name() {
    let index = test_index();
    let mut knife = painted(507, 568, 7, 0.25);
    knife.active_weapon_item_account_id = Some(1000);
    knife.active_weapon_custom_name = Some("  Fang ".to_string());
    assert!(active_cosmetic_owned_by(&knife));
    let rows = vec![knife.clone(), knife];
    let cosmetics = replay_active_cosmetics(&index, &rows, None, None, false, true).unwrap();
    let shown = cosmetics.knife.unwrap();
    assert_eq!(shown.item_def_index, Some(507));
    assert_eq!(shown.paint_kit, 568);
    assert_eq!(shown.seed, 7);
    assert_eq!(shown.wear_bits, 0.25f32.to_bits());
    assert_eq!(shown.seed_known, None);
    assert_eq!(shown.custom_name.as_deref(), Some("Fang"));
    assert!(cosmetics.weapons.is_empty());
    assert!(cosmetics.glove.is_none());
    assert!(cosmetics.agent.is_none());
}

#[test]
fn economy_paint_fills_a_knife_without_live_fields() {
    let index = test_index();
    let rows = vec![row(507)];
    let knives = vec![(
        507,
        Some(EconKnifePaint { paint_kit: 568, seed: 3, wear_bits: 0.125f32.to_bits(), custom_name: Some("Econ".to_string()) }),
    )];
    let paint = matching_active_econ_knife_paint(Some(&knives), &rows[0]).unwrap();
    assert_eq!(paint.seed, 3);
    let shown = replay_active_cosmetics(&index, &rows, None, Some(&knives), false, true).unwrap().knife.unwrap();
    assert_eq!(shown.paint_kit, 568);
    assert_eq!(shown.seed, 3);
    assert_eq!(shown.wear_bits, 0.125f32.to_bits());
    assert_eq!(shown.custom_name.as_deref(), Some("Econ"));

    // A live item id that is not the player's keeps the economy paint out.
    let mut held = row(507);
    held.active_weapon_item_id = Some(9);
    assert!(matching_active_econ_knife_paint(Some(&knives), &held).is_none());
    assert!(replay_active_cosmetics(&index, &vec![held], None, Some(&knives), false, true).is_none());
}

#[test]
fn disagreeing_knife_paints_show_no_knife() {
    let index = test_index();
    let mut first = painted(507, 568, 7, 0.25);
    first.active_weapon_original_owner_steam_id = Some(PLAYER);
    let mut second = first.clone();
    second.active_weapon_paint_seed = Some(8);
    assert!(replay_active_cosmetics(&index, &vec![first, second], None, None, false, true).is_none());
}

#[test]
fn glove_takes_the_first_seed_reported_for_it() {
    let index = test_index();
    let rows = vec![gloved(None), gloved(Some(11)), gloved(Some(12))];
    let glove = replay_active_cosmetics(&index, &rows, None, None, false, true).unwrap().glove.unwrap();
    assert_eq!(glove.item_def_index, Some(5030));
    assert_eq!(glove.paint_kit, 10006);
    assert_eq!(glove.seed, 11);
    assert_eq!(glove.seed_known, None);
    assert_eq!(glove.wear_bits, 0.5f32.to_bits());

    let seeds = vec![(EconGloveKey { item_def_index: 5030, paint_kit: 10006, wear_bits: 0.5f32.to_bits() }, Some(77))];
    let glove = replay_active_cosmetics(&index, &vec![gloved(None)], Some(&seeds), None, false, true)
        .unwrap()
        .glove
        .unwrap();
    assert_eq!(glove.seed, 77);
}

#[test]
fn glove_without_seed_gets_the_stable_fallback() {
    let index = test_index();
    let rows = vec![gloved(None)];
    let key = EconGloveKey { item_def_index: 5030, paint_kit: 10006, wear_bits: 0.5f32.to_bits() };
    let mut data = b"cs2-demotracer-glove-fallback-seed-v1\0".to_vec();
    data.extend_from_slice(&PLAYER.to_le_bytes());
    data.extend_from_slice(&2u8.to_le_bytes());
    data.extend_from_slice(&5030i32.to_le_bytes());
    data.extend_from_slice(&10006u32.to_le_bytes());
    data.extend_from_slice(&0.5f32.to_bits().to_le_bytes());
    let digest = Sha256::digest(&data);
    let expected = 1 + u32::from_le_bytes([digest[0], digest[1], digest[2], digest[3]]) % 1000;
    assert_eq!(stable_glove_fallback_seed(&rows, key), expected);
    let glove = replay_active_cosmetics(&index, &rows, None, None, false, true).unwrap().glove.unwrap();
    assert_eq!(glove.seed, expected);
    assert_eq!(glove.seed_known, Some(false));
}

#[test]
fn weapons_in_hand_need_trusted_identity_and_agreeing_stickers() {
    let index = test_index();
    let mut m4 = painted(16, 926, 1, 0.1);
    m4.active_weapon_item_id = Some(99);
    m4.active_weapon_item_account_id = Some(1);
    m4.active_weapon_stickers = vec![sticker(225)];
    let mut bad_sticker = m4.clone();
    bad_sticker.active_weapon_stickers = vec![sticker(0)];
    let mut untrusted = painted(16, 309, 1, 0.1);
    untrusted.active_weapon_item_account_id = Some(1);
    let rows = vec![m4.clone(), untrusted.clone(), m4.clone()];
    let weapons = replay_active_cosmetics(&index, &rows, None, None, true, true).unwrap().weapons;
    assert_eq!(weapons.len(), 1);
    assert_eq!(weapons[0].weapon_def_index, 16);
    assert_eq!(weapons[0].paint_kit, 926);
    assert_eq!(weapons[0].item_id, Some(99));
    assert_eq!(weapons[0].item_account_id, None);
    assert_eq!(weapons[0].stickers.len(), 1);
    assert_eq!(weapons[0].stickers[0].sticker_id, 225);

    let rows = vec![m4.clone(), bad_sticker];
    let weapons = replay_active_cosmetics(&index, &rows, None, None, true, true).unwrap().weapons;
    assert_eq!(weapons.len(), 1);
    assert!(weapons[0].stickers.is_empty());

    assert!(replay_active_cosmetics(&index, &vec![m4], None, None, true, false).is_none());
}

#[test]
fn economy_indices_void_disagreeing_entries() {
    let index = test_index();
    let items = vec![
        econ_item(507, 568, 3, 0.125, Some("A")),
        econ_item(507, 568, 3, 0.125, Some("B")),
        econ_item(59, 568, 3, 0.125, None),
        econ_item(5030, 10006, 4, 0.5, None),
        econ_item(5030, 10006, 5, 0.5, None),
        econ_item(5030, 10006, 6, 0.75, None),
        econ_item(5030, 10006, 6, 0.75, None),
    ];
    let knives = knife_econ_paint_index(&index, &items);
    assert_eq!(knives.len(), 1);
    assert_eq!(knives[0].0, PLAYER);
    assert_eq!(knives[0].1.len(), 1);
    let (def, paint) = &knives[0].1[0];
    assert_eq!(*def, 507);
    let paint = paint.as_ref().unwrap();
    assert_eq!((paint.paint_kit, paint.seed), (568, 3));
    assert_eq!(paint.custom_name, None);

    let mut disagreeing = items.clone();
    disagreeing.push(econ_item(507, 568, 9, 0.125, None));
    let knives = knife_econ_paint_index(&index, &disagreeing);
    assert!(knives[0].1[0].1.is_none());

    let gloves = glove_econ_seed_index(&index, &items);
    assert_eq!(gloves.len(), 1);
    let entries = &gloves[0].1;
    assert_eq!(entries.len(), 2);
    let first = EconGloveKey { item_def_index: 5030, paint_kit: 10006, wear_bits: 0.5f32.to_bits() };
    let second = EconGloveKey { item_def_index: 5030, paint_kit: 10006, wear_bits: 0.75f32.to_bits() };
    assert!(entries.contains(&(first, None)));
    assert!(entries.contains(&(second, Some(6))));
}

#[test]
fn music_kit_and_flair_need_exactly_one_value() {
    let index = test_index();
    let mut a = row(7);
    a.music_kit_id = Some(3);
    a.scoreboard_flair = Some(ParsedScoreboardFlair { item_def_index: 874 });
    let mut b = a.clone();
    b.music_kit_id = Some(99);
    b.scoreboard_flair = Some(ParsedScoreboardFlair { item_def_index: 5 });
    assert_eq!(stable_music_kit_id(&index, &vec![a.clone(), b.clone(), a.clone()]), Some(3));
    assert_eq!(stable_scoreboard_flair(&index, &vec![a.clone(), b]).map(|f| f.item_def_index), Some(874));
    let mut c = a.clone();
    c.music_kit_id = Some(1);
    c.scoreboard_flair = Some(ParsedScoreboardFlair { item_def_index: 0 });
    assert_eq!(stable_music_kit_id(&index, &vec![a.clone(), c.clone()]), None);
    assert!(stable_scoreboard_flair(&index, &vec![a, c]).is_none());
}

#[test]
fn agent_needs_one_model_and_is_named_when_unambiguous() {
    let index = test_index();
    let mut a = row(7);
    a.agent_item_def_index = Some(4613);
    a.agent_skin = Some("customplayer_tm_phoenix_varianta".to_string());
    let agent = replay_agent_cosmetic(&index, &vec![a.clone(), a.clone()]).unwrap();
    assert_eq!(agent.item_def_index, 4613);
    assert_eq!(agent.model_path, "agents\\models\\tm_phoenix\\tm_phoenix_varianta.vmdl");
    assert_eq!(agent.name.as_deref(), Some("customplayer_tm_phoenix_varianta"));

    let mut upper = a.clone();
    upper.agent_skin = Some("CUSTOMPLAYER_tm_phoenix_varianta".to_string());
    let agent = replay_agent_cosmetic(&index, &vec![a.clone(), upper]).unwrap();
    assert_eq!(agent.name, None);

    let mut other = a.clone();
    other.agent_skin = Some("customplayer_tm_leet_variantb".to_string());
    assert!(replay_agent_cosmetic(&index, &vec![a, other]).is_none());
}

#[test]
fn live_start_row_looks_after_the_start_before_looking_back() {
    let mut rows: Vec<CosmeticRow> = (0..6).map(|_| row(7)).collect();
    rows[1].inventory_weapon_cosmetics = vec![inventory_item(16, 926)];
    rows[4].inventory_weapon_cosmetics = vec![inventory_item(16, 926)];
    assert_eq!(live_start_inventory_cosmetic_row(&rows, 2), Some(4));
    assert_eq!(live_start_inventory_cosmetic_row(&rows, 10), Some(4));
    assert_eq!(live_start_inventory_cosmetic_row(&rows, 0), Some(1));
    assert_eq!(live_start_inventory_cosmetic_row(&rows[..1], 0), None);
    assert_eq!(live_start_inventory_cosmetic_row(&[], 0), None);
}

#[test]
fn snapshot_tracker_reports_new_samples_and_side_changes() {
    let mut tracker = InventorySnapshotTracker::new();
    let mut r = row(7);
    r.inventory_snapshot = 1;
    assert!(tracker.changed(&r));
    assert!(!tracker.changed(&r));
    r.team_num = 3;
    assert!(tracker.changed(&r));
    r.inventory_snapshot = 2;
    assert!(tracker.changed(&r));
    assert!(!tracker.changed(&r));
}

#[test]
fn round_inventory_keeps_the_first_sample_of_each_weapon() {
    let index = test_index();
    let mut first = row(7);
    first.inventory_snapshot = 1;
    first.inventory_weapon_cosmetics = vec![inventory_item(16, 926)];
    let mut repeat = first.clone();
    repeat.inventory_weapon_cosmetics = vec![inventory_item(16, 309)];
    let mut later = first.clone();
    later.inventory_snapshot = 2;
    later.inventory_weapon_cosmetics = vec![inventory_item(16, 309), inventory_item(7, 44)];
    let weapons = round_inventory_weapon_cosmetics(&index, &vec![first, repeat, later], false, false).unwrap();
    assert_eq!(weapons.len(), 2);
    assert_eq!((weapons[0].weapon_def_index, weapons[0].paint_kit), (7, 44));
    assert_eq!((weapons[1].weapon_def_index, weapons[1].paint_kit), (16, 926));

    let mut dead = row(7);
    dead.is_alive = false;
    dead.inventory_weapon_cosmetics = vec![inventory_item(16, 926)];
    assert!(round_inventory_weapon_cosmetics(&index, &vec![dead], false, false).is_none());
}

#[test]
fn start_inventory_takes_precedence_over_weapons_in_hand() {
    let index = test_index();
    let mut m4 = painted(16, 926, 1, 0.1);
    m4.active_weapon_item_id = Some(99);
    let mut knife = painted(507, 568, 7, 0.25);
    knife.active_weapon_item_account_id = Some(1000);

    // An unpainted start inventory is authoritative: no weapon is shown.
    let mut start = m4.clone();
    start.inventory_weapon_cosmetics = vec![inventory_item(16, 0)];
    let rows = vec![start, m4.clone(), knife.clone()];
    let cosmetics = replay_cosmetics_at(&index, &rows, &rows, 0, None, None, false, false).unwrap();
    assert!(cosmetics.weapons.is_empty());
    let shown_knife = cosmetics.knife.unwrap();
    assert_eq!(shown_knife.item_def_index, Some(507));
    assert!(shown_knife.inspect.is_some());

    // Without any inventory the weapons in hand from the start of play are used.
    let rows = vec![m4.clone(), knife.clone()];
    let cosmetics = replay_cosmetics_at(&index, &rows, &rows, 0, None, None, false, false).unwrap();
    assert_eq!(cosmetics.weapons.len(), 1);
    assert_eq!(cosmetics.weapons[0].paint_kit, 926);
    assert!(cosmetics.weapons[0].inspect.is_some());

    // Rows before the start of play do not count for weapons in hand.
    let cosmetics = replay_cosmetics_at(&index, &rows, &rows, 1, None, None, false, false).unwrap();
    assert!(cosmetics.weapons.is_empty());
    assert!(cosmetics.knife.is_some());

    assert!(replay_cosmetics_at(&index, &[], &[], 0, None, None, false, false).is_none());
}

#[test]
fn preview_links_skip_made_up_glove_seeds() {
    let index = test_index();
    let item = |seed_known: Option<bool>| ReplayItemCosmetic {
        item_def_index: Some(5030),
        paint_kit: 10006,
        seed: 5,
        seed_known,
        wear_bits: 0.5f32.to_bits(),
        custom_name: None,
        inspect: None,
    };
    let mut cosmetics = ReplayCosmetics { weapons: Vec::new(), knife: Some(item(None)), glove: Some(item(Some(false))), agent: None };
    populate_cosmetic_inspect(&index, &mut cosmetics);
    assert!(cosmetics.knife.unwrap().inspect.is_some());
    assert!(cosmetics.glove.unwrap().inspect.is_none());
}

#[test]
fn playerless_rows_change_no_cosmetic() {
    let index = test_index();
    let mut knife = painted(507, 568, 7, 0.25);
    knife.active_weapon_item_account_id = Some(1000);
    let mut stranger = painted(507, 44, 9, 0.75);
    stranger.steam_id = 0;
    stranger.active_weapon_item_account_id = Some(1000);
    let mut glove_stranger = gloved(Some(3));
    glove_stranger.steam_id = 0;
    let with_player = vec![knife.clone(), gloved(None)];
    let with_strangers = vec![stranger, knife, glove_stranger, gloved(None)];
    let a = replay_active_cosmetics(&index, &with_player, None, None, false, true).unwrap();
    let b = replay_active_cosmetics(&index, &with_strangers, None, None, false, true).unwrap();
    let (ka, kb) = (a.knife.unwrap(), b.knife.unwrap());
    assert_eq!((ka.paint_kit, ka.seed, ka.wear_bits), (kb.paint_kit, kb.seed, kb.wear_bits));
    let (ga, gb) = (a.glove.unwrap(), b.glove.unwrap());
    assert_eq!((ga.seed, ga.seed_known), (gb.seed, gb.seed_known));
    assert_eq!(a.weapons.len(), b.weapons.len());
}
