use demotracer_converter::catalog::{
    Cs2LibEconIndex, RawCs2LibEconIndex, RawPaintPair, RawReplayEquipment, ReplayEquipmentSlot,
};
use demotracer_converter::economy::{
    checked_inventory_value, infer_inventory_value, is_pistol_round, team_economy, weapon_value,
};
use demotracer_converter::hifi::{
    hifi_event_rank, infer_initial_c4_owner, inferred_inventory_drops, inferred_inventory_pickups,
    inventory_count_at_or_after, inventory_counts, inventory_snapshots_for_player, map_recorded_game_event,
    pair_inventory_transfers, player_live_rows, player_scoped_hifi_events, projectile_consumed_inventory,
    round_start_balance_for_player, tick_index_for_event, InventoryChange, ThrownProjectile,
};
use demotracer_converter::model::{EconomyClass, ParsedGameEvent, ReplayHifiEventKind};
use demotracer_converter::round_replay::{
    clean_replay_chat_scope, clean_replay_chat_text, clean_replay_player_color, clean_replay_team_name,
    replay_chat_messages, replay_player_scoreboard, replay_round_scoreboard, RoundRow,
};

fn equipment(def: i32, class_name: &str, slot: ReplayEquipmentSlot) -> RawReplayEquipment {
    RawReplayEquipment { weapon_defidx: def, class_name: class_name.to_string(), replay_slot: slot }
}

fn test_index() -> Cs2LibEconIndex {
    let raw = RawCs2LibEconIndex {
        weapon_paints: vec![RawPaintPair { weapon_defidx: 7, paint_kit: 44, rarity: None }],
        paint_kit_ids: vec![44],
        replay_equipment_defidx: vec![7, 42, 44, 45, 49, 507],
        replay_equipment: vec![
            equipment(7, "weapon_ak47", ReplayEquipmentSlot::Primary),
            equipment(42, "weapon_knife", ReplayEquipmentSlot::Knife),
            equipment(44, "weapon_hegrenade", ReplayEquipmentSlot::Utility),
            equipment(45, "weapon_smokegrenade", ReplayEquipmentSlot::Utility),
            equipment(49, "weapon_c4", ReplayEquipmentSlot::C4),
            equipment(507, "weapon_knife_karambit", ReplayEquipmentSlot::Knife),
        ],
        knife_defidx: vec![42, 507],
        glove_defidx: Vec::new(),
        agent_defidx: Vec::new(),
        sticker_ids: Vec::new(),
        keychain_ids: Vec::new(),
        music_kit_ids: Vec::new(),
        scoreboard_flair_defidx: Vec::new(),
    };
    Cs2LibEconIndex::from_raw(raw)
}

fn row(tick: i32, steam_id: u64, team_num: u8) -> RoundRow {
    RoundRow {
        tick,
        steam_id,
        name: String::new(),
        team_num,
        is_alive: true,
        player_user_id: None,
        player_entity_id: None,
        player_color: None,
        scoreboard_score: None,
        scoreboard_mvps: None,
        scoreboard_kills: None,
        scoreboard_deaths: None,
        scoreboard_assists: None,
        team_rounds_total: None,
        team_clan_name: None,
        team_name: None,
        item_def_idx: 7,
        inventory_as_ids: Vec::new(),
        armor_value: 0,
        has_helmet: false,
        has_defuser: false,
        account_balance: None,
        round_start_equip_value: 0,
        equipment_value_total: 0,
        money_saved_total: 0,
        cash_spent_this_round: 0,
    }
}

fn with_inventory(mut r: RoundRow, inventory: &[i32]) -> RoundRow {
    r.inventory_as_ids = inventory.to_vec();
    r
}

fn event(tick: i32, name: &str) -> ParsedGameEvent {
    let mut e = ParsedGameEvent::default();
    e.tick = tick;
    e.name = name.to_string();
    e
}

#[test]
fn round_scoreboard_takes_each_sides_first_values() {
    let mut t = row(1, 1, 2);
    t.team_rounds_total = Some(3);
    t.team_clan_name = Some("   ".to_string());
    t.team_name = Some(" Terrorists ".to_string());
    let mut ct = row(1, 2, 3);
    ct.team_rounds_total = Some(5);
    ct.team_clan_name = Some(" Clan ".to_string());
    let mut later = row(2, 1, 2);
    later.team_rounds_total = Some(4);
    assert_eq!(clean_replay_team_name(&t).as_deref(), Some("Terrorists"));
    let scoreboard = replay_round_scoreboard(&[t.clone(), ct.clone(), later]).unwrap();
    assert_eq!((scoreboard.t_score, scoreboard.ct_score), (3, 5));
    assert_eq!(scoreboard.t_team_name.as_deref(), Some("Terrorists"));
    assert_eq!(scoreboard.ct_team_name.as_deref(), Some("Clan"));
    assert!(replay_round_scoreboard(&[t]).is_none());
}

#[test]
fn player_scoreboard_uses_the_first_row_with_a_field() {
    let mut empty = row(1, 1, 2);
    empty.player_color = Some("pink".to_string());
    let mut filled = row(2, 1, 2);
    filled.player_color = Some(" Blue ".to_string());
    filled.scoreboard_kills = Some(2);
    assert_eq!(clean_replay_player_color(Some(" PURPLE")).as_deref(), Some("purple"));
    assert_eq!(clean_replay_player_color(Some("pink")), None);
    let scoreboard = replay_player_scoreboard(&[empty.clone(), filled]).unwrap();
    assert_eq!(scoreboard.player_color.as_deref(), Some("blue"));
    assert_eq!(scoreboard.kills, Some(2));
    assert!(replay_player_scoreboard(&[empty]).is_none());
}

#[test]
fn chat_messages_are_cleaned_deduplicated_and_ordered() {
    assert_eq!(clean_replay_chat_scope(Some(" ADMIN ")), "server");
    assert_eq!(clean_replay_chat_scope(Some("Team")), "team");
    assert_eq!(clean_replay_chat_scope(None), "all");
    assert_eq!(clean_replay_chat_text("  hi\u{7}there "), Some("hithere".to_string()));
    assert_eq!(clean_replay_chat_text(" \u{1} "), None);

    let mut named = row(10, 7, 2);
    named.name = "  Alice ".to_string();
    let mut late = event(20, "player_chat");
    late.user_steam_id = Some(7);
    late.chat_text = Some("gg".to_string());
    let mut early = event(15, "player_chat");
    early.user_steam_id = Some(7);
    early.chat_text = Some("go".to_string());
    early.chat_scope = Some("team".to_string());
    let mut server = event(15, "server_message");
    server.chat_text = Some("warmup".to_string());
    server.chat_scope = Some("server".to_string());
    let mut anonymous = event(16, "player_chat");
    anonymous.chat_text = Some("who".to_string());
    let mut outside = event(99, "player_chat");
    outside.user_steam_id = Some(7);
    outside.chat_text = Some("late".to_string());
    let events = vec![late.clone(), early, late, server, anonymous, outside];
    let messages = replay_chat_messages(&events, 0, 50, &[named]);
    let summary: Vec<(i32, u64, &str, &str, Option<&str>)> = messages
        .iter()
        .map(|m| (m.tick, m.sender_steam_id, m.scope.as_str(), m.text.as_str(), m.sender_name.as_deref()))
        .collect();
    assert_eq!(
        summary,
        vec![(15, 0, "server", "warmup", None), (15, 7, "team", "go", Some("Alice")), (20, 7, "all", "gg", Some("Alice"))]
    );
}

#[test]
fn economy_sums_first_rows_and_hands_the_class_to_the_classifier() {
    let index = test_index();
    assert_eq!(weapon_value(7), 2700);
    assert_eq!(weapon_value(99), 0);
    assert_eq!(infer_inventory_value(&index, &[7, 44, 507]), 3000);
    assert!(is_pistol_round(12) && !is_pistol_round(1));

    let mut a = with_inventory(row(5, 1, 2), &[7]);
    a.round_start_equip_value = 1000;
    a.equipment_value_total = 4000;
    a.money_saved_total = 10;
    a.cash_spent_this_round = 20;
    let mut a_later = a.clone();
    a_later.tick = 6;
    a_later.money_saved_total = 999;
    let mut b = row(5, 2, 2);
    b.round_start_equip_value = 500;
    let ct = row(5, 3, 3);
    let classify = |players: usize, value: u32| {
        assert_eq!((players, value), (2, 4500));
        EconomyClass::Force
    };
    let economy = team_economy(&index, &[a, a_later, b, ct], 0, 10, 2, false, &classify).unwrap();
    assert_eq!(economy.side, "t");
    assert_eq!(economy.players, 2);
    assert_eq!(economy.round_start_equipment_value, 3200);
    assert_eq!(economy.equipment_value_total, 4500);
    assert_eq!(economy.money_saved_total, 10);
    assert_eq!(economy.cash_spent_this_round, 20);
    assert_eq!(economy.class, EconomyClass::Force);

    let never = |_: usize, _: u32| -> EconomyClass { panic!("no class is asked for") };
    let pistol = team_economy(&index, &[row(5, 1, 2)], 0, 10, 2, true, &never).unwrap();
    assert_eq!(pistol.class, EconomyClass::Pistol);
    let empty = team_economy(&index, &[row(5, 1, 2)], 0, 10, 3, false, &never).unwrap();
    assert_eq!(empty.players, 0);
    assert_eq!(empty.side, "ct");
    assert_eq!(empty.class, EconomyClass::Unknown);

    // An inventory worth more than a u32 holds has no economy; a later row
    // of the same player is not read.
    let huge = vec![7; 1_600_000];
    assert_eq!(checked_inventory_value(&index, &huge), None);
    assert_eq!(checked_inventory_value(&index, &[7, 44, 507]), Some(3000));
    let overflowing = with_inventory(row(5, 1, 2), &huge);
    assert!(team_economy(&index, &[overflowing.clone()], 0, 10, 2, false, &never).is_none());
    let mut later = overflowing;
    later.tick = 6;
    let eco = |_: usize, _: u32| EconomyClass::Eco;
    assert!(team_economy(&index, &[row(5, 1, 2), later], 0, 10, 2, false, &eco).is_some());
}

#[test]
fn inventory_counts_normalize_and_skip_unknown_items() {
    let index = test_index();
    let counts = inventory_counts(&index, &vec![45, 507, 44, 45, 1234]);
    let pairs: Vec<(i32, u32)> = counts.iter().map(|c| (c.weapon_def_index, c.count)).collect();
    assert_eq!(pairs, vec![(42, 1), (44, 1), (45, 2)]);
    let rows = [with_inventory(row(10, 1, 2), &[44]), with_inventory(row(20, 1, 2), &[44, 44])];
    assert_eq!(inventory_count_at_or_after(&index, &rows, 11, 44), Some(2));
    assert_eq!(inventory_count_at_or_after(&index, &rows, 21, 44), None);
    let mut balance = row(30, 1, 2);
    balance.account_balance = Some(800);
    assert_eq!(round_start_balance_for_player(&[rows[0].clone(), balance], 25), Some(800));
}

#[test]
fn tick_indices_clamp_to_the_second_to_last_row() {
    let rows = [row(10, 1, 2), row(20, 1, 2), row(30, 1, 2)];
    assert_eq!(tick_index_for_event(&rows, 5), Some(0));
    assert_eq!(tick_index_for_event(&rows, 15), Some(1));
    assert_eq!(tick_index_for_event(&rows, 35), Some(1));
    assert_eq!(tick_index_for_event(&rows[..1], 5), None);
    assert!(hifi_event_rank(ReplayHifiEventKind::BombInitialOwner) < hifi_event_rank(ReplayHifiEventKind::PlayerDeath));
}

#[test]
fn recorded_events_concern_actor_or_target() {
    let index = test_index();
    let mut hurt = event(40, "player_hurt");
    hurt.user_steam_id = Some(9);
    hurt.attacker_steam_id = Some(1);
    hurt.victim_steam_id = Some(9);
    hurt.item_name = Some("ak47".to_string());
    hurt.damage = Some(27);
    let mapped = map_recorded_game_event(&index, &hurt, 1).unwrap();
    assert_eq!(mapped.kind, ReplayHifiEventKind::PlayerHurt);
    assert_eq!(mapped.actor_steam_id, Some(1));
    assert_eq!(mapped.target_steam_id, Some(9));
    assert_eq!(mapped.weapon_def_index, Some(7));
    assert_eq!(mapped.item_name.as_deref(), Some("weapon_ak47"));
    assert_eq!(mapped.damage, Some(27));
    assert!(map_recorded_game_event(&index, &hurt, 5).is_none());
    let mut pickup = event(41, "bomb_pickup");
    pickup.user_steam_id = Some(5);
    let bomb = map_recorded_game_event(&index, &pickup, 5).unwrap();
    assert_eq!(bomb.weapon_def_index, Some(49));
    assert_eq!(bomb.target_steam_id, Some(5));
    assert!(map_recorded_game_event(&index, &event(41, "round_end"), 5).is_none());
}

#[test]
fn initial_bomb_owner_prefers_carriers_then_bomb_events() {
    let index = test_index();
    let rows = [
        with_inventory(row(12, 8, 2), &[49]),
        with_inventory(row(10, 9, 2), &[49]),
        with_inventory(row(10, 7, 3), &[49]),
    ];
    assert_eq!(infer_initial_c4_owner(&index, &vec![], 0, 0, 100, &rows), Some(9));
    let mut dropped = event(30, "bomb_dropped");
    dropped.attacker_steam_id = Some(4);
    let mut planted = event(30, "bomb_planted");
    planted.user_steam_id = Some(3);
    let events = vec![dropped, planted];
    assert_eq!(infer_initial_c4_owner(&index, &events, 0, 0, 100, &rows[2..]), Some(4));
    assert_eq!(infer_initial_c4_owner(&index, &events, 0, 31, 100, &rows[2..]), None);
}

#[test]
fn live_rows_keep_the_first_row_of_each_tick_in_tick_order() {
    let mut dead = row(5, 1, 2);
    dead.is_alive = false;
    let rows = [row(20, 1, 2), row(10, 1, 2), row(20, 1, 2), row(15, 2, 2), dead];
    assert_eq!(player_live_rows(&rows, 1), vec![1, 0]);
    assert_eq!(player_live_rows(&rows, 0), Vec::<usize>::new());
}

#[test]
fn drops_pickups_and_transfers_pair_across_players() {
    let index = test_index();
    let rows = [
        with_inventory(row(10, 1, 2), &[45, 7]),
        with_inventory(row(20, 1, 2), &[7]),
        with_inventory(row(10, 2, 2), &[]),
        with_inventory(row(30, 2, 2), &[45]),
        with_inventory(row(10, 3, 2), &[44]),
        with_inventory(row(20, 3, 2), &[]),
    ];
    let thrown = [ThrownProjectile { steam_id: 3, weapon_def_index: 44, tick: 25 }];
    assert!(projectile_consumed_inventory(&index, &thrown, 3, 44, 20));
    let mut drops = inferred_inventory_drops(&index, &thrown, 0, 100, &rows);
    assert_eq!(drops.len(), 1);
    assert_eq!((drops[0].tick, drops[0].steam_id, drops[0].weapon_def_index, drops[0].count_after), (20, 1, 45, 0));
    assert_eq!(drops[0].item_name.as_deref(), Some("weapon_smokegrenade"));

    let mut pickup_event = event(25, "item_pickup");
    pickup_event.user_steam_id = Some(2);
    pickup_event.item_name = Some("smokegrenade".to_string());
    let events = vec![pickup_event.clone(), pickup_event];
    let mut pickups = inferred_inventory_pickups(&index, 0, 100, &rows, &events);
    let keys: Vec<(i32, u64, i32, u32)> = pickups.iter().map(|c| (c.tick, c.steam_id, c.weapon_def_index, c.count_after)).collect();
    assert_eq!(keys, vec![(25, 2, 45, 1), (30, 2, 45, 1)]);

    pair_inventory_transfers(&mut drops, &mut pickups);
    assert_eq!(drops[0].paired_steam_id, Some(2));
    assert_eq!(pickups[0].paired_steam_id, Some(1));
    assert_eq!(pickups[1].paired_steam_id, None);

    let far = InventoryChange { tick: 200, steam_id: 2, weapon_def_index: 45, count_after: 1, item_name: None, paired_steam_id: None };
    let mut lone_drop = vec![drops[0].clone()];
    lone_drop[0].paired_steam_id = None;
    let mut far_pickups = vec![far];
    pair_inventory_transfers(&mut lone_drop, &mut far_pickups);
    assert_eq!(lone_drop[0].paired_steam_id, None);

    let events_for_1 = player_scoped_hifi_events(&index, &events, &thrown, 1, 0, 100, &rows, Some(1));
    let kinds: Vec<ReplayHifiEventKind> = events_for_1.iter().map(|e| e.kind).collect();
    assert_eq!(kinds, vec![ReplayHifiEventKind::BombInitialOwner, ReplayHifiEventKind::ItemDrop]);
    assert_eq!(events_for_1[0].item_name.as_deref(), Some("weapon_c4"));
    assert_eq!(events_for_1[1].target_steam_id, Some(2));
    let events_for_2 = player_scoped_hifi_events(&index, &events, &thrown, 2, 0, 100, &rows, Some(1));
    let kinds: Vec<ReplayHifiEventKind> = events_for_2.iter().map(|e| e.kind).collect();
    assert_eq!(kinds, vec![ReplayHifiEventKind::ItemTransfer, ReplayHifiEventKind::ItemPickup]);
}

#[test]
fn inventory_snapshots_are_written_when_counts_change() {
    let index = test_index();
    let mut first = with_inventory(row(10, 1, 2), &[7, 44]);
    first.armor_value = 100;
    let same = with_inventory(row(20, 1, 2), &[44, 7]);
    let changed = with_inventory(row(30, 1, 2), &[7]);
    let snapshots = inventory_snapshots_for_player(&index, &[first.clone(), same, changed]);
    let ticks: Vec<(u32, i32)> = snapshots.iter().map(|s| (s.tick_index, s.tick)).collect();
    assert_eq!(ticks, vec![(0, 10), (1, 30)]);
    assert_eq!(snapshots[0].armor_value, 100);
    assert_eq!(snapshots[0].weapon_def_counts.len(), 2);
    assert!(inventory_snapshots_for_player(&index, &[first]).is_empty());
}
