use demotracer_converter::model::{RoundStatus, Side};
use demotracer_converter::quality::RoundSummary;
use demotracer_converter::round_export::{
    bomb_planted_tick_for_round, cut_before_bomb_plant, estimate_round_files,
    plan_round_export, planned_file_paths, play_start_tick_index, player_file_path,
    recording_start_tick_for_round, round_skip_reason, selected_round_summary, slugify,
    ExportSelection,
};
use demotracer_converter::round_phase::PhaseRow;
use demotracer_converter::hifi::tick_index_for_event;
use demotracer_converter::round_replay::RoundRow;

const STEAM: u64 = 76561198000000001;

fn sample_row(tick: i32) -> PhaseRow {
    PhaseRow {
        round: 1,
        tick,
        steam_id: STEAM,
        team_num: 2,
        is_alive: true,
        is_freeze_period: false,
        round_in_progress: true,
    }
}

fn freeze_row(tick: i32) -> PhaseRow {
    PhaseRow {
        round_in_progress: false,
        is_freeze_period: true,
        ..sample_row(tick)
    }
}

fn seconds_to_ticks(seconds: f32, tick_rate: f32) -> i32 {
    (seconds * tick_rate).round() as i32
}

fn summary(round: u32, status: RoundStatus, problems: &[&str]) -> RoundSummary {
    RoundSummary {
        round,
        start_tick: 100,
        end_tick: 300,
        duration_seconds_bits: 0,
        t_players: 1,
        ct_players: 0,
        total_players: 1,
        valid_rows: 2,
        status,
        problems: problems.iter().map(|p| p.to_string()).collect(),
    }
}

#[test]
fn freeze_preroll_uses_only_the_contiguous_suffix_before_live_start() {
    let mut rows = Vec::new();
    for tick in 100..=199 {
        rows.push(freeze_row(tick));
    }
    for tick in 400..600 {
        rows.push(freeze_row(tick));
    }
    rows.push(sample_row(600));

    assert_eq!(
        recording_start_tick_for_round(&rows, seconds_to_ticks(120.0, 64.0), 600),
        400
    );
}

fn freeze_export_selection(preroll_seconds: f32) -> ExportSelection {
    ExportSelection {
        side: Side::Both,
        selected_rounds: Some(vec![1]),
        include_suspicious: true,
        cut_before_bomb_plant: true,
        freeze_preroll_ticks: seconds_to_ticks(preroll_seconds, 64.0),
    }
}

fn replay_row(tick: i32) -> RoundRow {
    RoundRow {
        tick,
        steam_id: STEAM,
        name: "alpha".to_string(),
        team_num: 2,
        is_alive: true,
        player_user_id: None,
        player_entity_id: None,
        player_color: None,
        scoreboard_score: None,
        scoreboard_mvps: None,
        scoreboard_kills: None,
        scoreboard_deaths: None,
        scoreboard_assists: None,
        team_rounds_total: None,
        team_clan_name: None,
        team_name: None,
        item_def_idx: 7,
        inventory_as_ids: Vec::new(),
        armor_value: 0,
        has_helmet: false,
        has_defuser: false,
        account_balance: None,
        round_start_equip_value: 0,
        equipment_value_total: 0,
        money_saved_total: 0,
        cash_spent_this_round: 0,
    }
}

#[test]
fn export_includes_bounded_freeze_preroll_and_live_play_start() {
    // Freeze rows from tick 20, live play from 100 to 228, one row a tick.
    let mut rows = Vec::new();
    for tick in 20..100 {
        rows.push(freeze_row(tick));
    }
    for tick in 100..=228 {
        rows.push(sample_row(tick));
    }
    let mut round = summary(1, RoundStatus::Recommended, &[]);
    round.end_tick = 228;
    let plan = plan_round_export(&rows, &round, &freeze_export_selection(120.0), &[], &[]);

    assert_eq!(plan.skip_reason, None);
    assert_eq!(plan.recording_start_tick, 20);
    assert_eq!(round.start_tick, 100);
    assert_eq!(round.start_tick - plan.recording_start_tick, 80);
    assert_eq!(plan.players.len(), 1);
    let file_ticks: Vec<i32> = plan.players[0].rows.iter().map(|&i| rows[i].tick).collect();
    assert_eq!(play_start_tick_index(&file_ticks, round.start_tick), 80);
    // One recorded tick between each pair of consecutive rows.
    assert_eq!(file_ticks.len() - 1, 208);
    assert_eq!(file_ticks[0], 20);
    assert_eq!(file_ticks[80], 100);

    // The smoke thrown at tick 164 lands on tick index 144 of the file.
    let player_rows: Vec<RoundRow> = file_ticks.iter().map(|&tick| replay_row(tick)).collect();
    assert_eq!(tick_index_for_event(&player_rows, 164), Some(144));
}

#[test]
fn export_caps_freeze_preroll_before_pause_tail() {
    let mut rows = vec![freeze_row(-1_000)];
    for tick in 60..100 {
        rows.push(freeze_row(tick));
    }
    for tick in 100..=164 {
        rows.push(sample_row(tick));
    }
    let mut round = summary(1, RoundStatus::Recommended, &[]);
    round.end_tick = 164;
    let plan = plan_round_export(&rows, &round, &freeze_export_selection(1.0), &[], &[]);

    assert_eq!(plan.skip_reason, None);
    assert_eq!(plan.recording_start_tick, 60);
    assert_eq!(round.start_tick - plan.recording_start_tick, 40);
    let file_ticks: Vec<i32> = plan.players[0].rows.iter().map(|&i| rows[i].tick).collect();
    assert_eq!(play_start_tick_index(&file_ticks, round.start_tick), 40);
    assert_eq!(file_ticks[0], 60);
}

#[test]
fn preroll_is_dropped_when_a_player_misses_the_live_start() {
    let mut other = freeze_row(99);
    other.steam_id = 2;
    let rows = vec![freeze_row(98), freeze_row(99), sample_row(100), other];
    assert_eq!(recording_start_tick_for_round(&rows, 64, 100), 100);
    assert_eq!(recording_start_tick_for_round(&rows[..3], 64, 100), 98);
    assert_eq!(recording_start_tick_for_round(&rows[..3], 0, 100), 100);
    assert_eq!(recording_start_tick_for_round(&rows[..3], 1, 100), 99);
    assert_eq!(recording_start_tick_for_round(&[], 64, 100), 100);
}

#[test]
fn preroll_starts_where_every_player_is_present() {
    let mut rows = vec![freeze_row(90), freeze_row(91), freeze_row(92), sample_row(93)];
    for tick in 92..=93 {
        let mut row = if tick == 93 { sample_row(tick) } else { freeze_row(tick) };
        row.steam_id = 7;
        row.team_num = 3;
        rows.push(row);
    }
    assert_eq!(recording_start_tick_for_round(&rows, 64, 93), 92);
    assert_eq!(
        recording_start_tick_for_round(&rows, i32::MAX, i32::MIN + 5),
        i32::MIN + 5
    );
}

#[test]
fn bomb_plant_cuts_the_round_before_the_first_plant() {
    let (end, reason) = cut_before_bomb_plant(&[500, 250], &[260, 90], 100, 300);
    assert_eq!(end, 249);
    assert_eq!(reason.as_deref(), Some("before_bomb_plant_tick_250"));
    let (end, reason) = cut_before_bomb_plant(&[100, 400], &[], 100, 300);
    assert_eq!(end, 300);
    assert_eq!(reason, None);
    assert_eq!(bomb_planted_tick_for_round(&[100, 90, 301], 100, 300), Some(100));
    assert_eq!(bomb_planted_tick_for_round(&[], 100, 300), None);
}

#[test]
fn export_progress_reports_round_skip_reason() {
    let suspicious = summary(2, RoundStatus::Suspicious, &["few players", "short"]);
    assert_eq!(
        round_skip_reason(&suspicious, None, false).as_deref(),
        Some("not selected")
    );
    assert_eq!(
        round_skip_reason(&suspicious, Some(&[2][..]), false).as_deref(),
        Some("suspicious (few players; short)")
    );
    assert_eq!(round_skip_reason(&suspicious, Some(&[2][..]), true), None);
    let recommended = summary(3, RoundStatus::Recommended, &[]);
    assert_eq!(round_skip_reason(&recommended, None, false), None);
    assert_eq!(
        round_skip_reason(&recommended, Some(&[1, 2][..]), false).as_deref(),
        Some("not selected")
    );
}

#[test]
fn round_file_estimate_counts_players_with_two_ticks() {
    let mut rows = vec![sample_row(100), sample_row(101)];
    let mut single = sample_row(100);
    single.steam_id = 2;
    rows.push(single);
    let mut ct = sample_row(100);
    ct.steam_id = 3;
    ct.team_num = 3;
    rows.push(ct);
    let mut ct_later = ct;
    ct_later.tick = 150;
    rows.push(ct_later);

    assert_eq!(estimate_round_files(&rows, 100, 300, &[], &[], true, 0, Side::Both), 2);
    assert_eq!(estimate_round_files(&rows, 100, 300, &[], &[], true, 0, Side::T), 1);
    assert_eq!(estimate_round_files(&rows, 100, 300, &[120], &[], true, 0, Side::Both), 1);
    assert_eq!(estimate_round_files(&rows, 100, 300, &[120], &[], false, 0, Side::Both), 2);
    assert_eq!(estimate_round_files(&rows, 100, 300, &[101], &[], true, 0, Side::Both), 0);

    let selection = ExportSelection {
        side: Side::Both,
        selected_rounds: None,
        include_suspicious: false,
        cut_before_bomb_plant: false,
        freeze_preroll_ticks: 0,
    };
    let rounds = vec![
        summary(1, RoundStatus::Recommended, &[]),
        summary(2, RoundStatus::Suspicious, &["odd"]),
    ];
    assert_eq!(selected_round_summary(&rows, &rounds, &selection, &[], &[]), (1, 2));
}

#[test]
fn player_names_become_file_slugs() {
    assert_eq!(slugify("Player One-2_x!"), "Player_One-2_x");
    assert_eq!(slugify("!!!"), "player");
    assert_eq!(slugify(""), "player");
    assert_eq!(slugify("ümlaut"), "mlaut");
}

fn selection(cut: bool) -> ExportSelection {
    ExportSelection {
        side: Side::Both,
        selected_rounds: None,
        include_suspicious: false,
        cut_before_bomb_plant: cut,
        freeze_preroll_ticks: 64,
    }
}

#[test]
fn round_plan_lists_players_with_sorted_distinct_ticks() {
    let mut ct = sample_row(100);
    ct.steam_id = 5;
    ct.team_num = 3;
    let mut dead = sample_row(120);
    dead.steam_id = 9;
    dead.is_alive = false;
    let mut duplicate = sample_row(101);
    duplicate.round_in_progress = false;
    let rows = vec![
        sample_row(102),
        freeze_row(99),
        sample_row(101),
        duplicate,
        sample_row(100),
        ct,
        dead,
    ];
    let round = summary(1, RoundStatus::Recommended, &[]);
    let plan = plan_round_export(&rows, &round, &selection(false), &[], &[]);
    assert_eq!(plan.skip_reason, None);
    assert_eq!(plan.end_tick, 300);
    assert_eq!(plan.recording_start_tick, 100);
    assert_eq!(plan.players.len(), 2);
    assert_eq!(plan.players[0].steam_id, 5);
    assert_eq!(plan.players[0].rows, vec![5]);
    assert_eq!(plan.players[1].steam_id, STEAM);
    assert_eq!(plan.players[1].rows, vec![4, 2, 0]);

    let names: Vec<String> = rows.iter().map(|_| "Alpha Player".to_string()).collect();
    let paths = planned_file_paths(&plan, round.round, &rows, &names);
    assert_eq!(paths, vec![format!("round01/t/{STEAM}_Alpha_Player.dtr")]);
}

#[test]
fn round_plan_reports_skips() {
    let rows = vec![sample_row(100), sample_row(101)];
    let suspicious = summary(1, RoundStatus::Suspicious, &["odd"]);
    let plan = plan_round_export(&rows, &suspicious, &selection(false), &[], &[]);
    assert_eq!(plan.skip_reason.as_deref(), Some("not selected"));
    assert!(plan.players.is_empty());

    let round = summary(1, RoundStatus::Recommended, &[]);
    let plan = plan_round_export(&rows, &round, &selection(true), &[101], &[]);
    assert_eq!(
        plan.skip_reason.as_deref(),
        Some("cut window empty after Some(\"before_bomb_plant_tick_101\")")
    );
    let plan = plan_round_export(&rows, &round, &selection(true), &[150], &[]);
    assert_eq!(plan.skip_reason, None);
    assert_eq!(plan.end_tick, 149);
    assert_eq!(plan.cut_reason.as_deref(), Some("before_bomb_plant_tick_150"));
}

#[test]
fn player_file_paths_follow_the_archive_layout() {
    assert_eq!(player_file_path(3, 2, 42, "Neo"), "round03/t/42_Neo.dtr");
    assert_eq!(player_file_path(12, 3, 42, "a b!"), "round12/ct/42_a_b.dtr");
    assert_eq!(player_file_path(120, 1, 42, ""), "round120/unknown/42_42.dtr");
    assert_eq!(player_file_path(1, 2, 7, "!!"), "round01/t/7_player.dtr");
}
