use demotracer_converter::round_phase::{
    is_pistol_round_number, repair_round_phase_after_events, round_end_after,
    round_phase_candidate_score, PhaseRow,
};

fn row(round: u32, tick: i32, is_freeze_period: bool) -> PhaseRow {
    PhaseRow {
        round,
        tick,
        steam_id: 0,
        team_num: 0,
        is_alive: false,
        is_freeze_period,
        round_in_progress: false,
    }
}

fn live_row(round: u32, tick: i32, is_freeze_period: bool) -> PhaseRow {
    PhaseRow {
        steam_id: tick as u64,
        team_num: 2,
        is_alive: true,
        ..row(round, tick, is_freeze_period)
    }
}

#[test]
fn freeze_end_event_repairs_sticky_freeze_period_rows() {
    let mut rows = vec![
        row(1, 90, true),
        row(1, 99, true),
        row(1, 100, true),
        row(1, 120, true),
        row(1, 130, true),
    ];

    repair_round_phase_after_events(&mut rows, &[100], &[130]);

    assert!(rows[0].is_freeze_period);
    assert!(rows[1].is_freeze_period);
    assert!(!rows[2].is_freeze_period);
    assert!(!rows[3].is_freeze_period);
    assert!(!rows[4].is_freeze_period);
    assert!(!rows[1].round_in_progress);
    assert!(rows[2].round_in_progress);
    assert!(rows[3].round_in_progress);
    assert!(!rows[4].round_in_progress);
}

#[test]
fn pistol_round_uses_latest_freeze_end_candidate() {
    let mut rows = vec![
        row(0, 90, true),
        row(0, 120, true),
        row(0, 1_490, true),
        row(0, 1_500, true),
        row(0, 1_520, true),
    ];

    repair_round_phase_after_events(&mut rows, &[100, 1_500], &[2_000]);

    assert!(rows[0].is_freeze_period);
    assert!(rows[1].is_freeze_period);
    assert!(rows[2].is_freeze_period);
    assert!(!rows[3].is_freeze_period);
    assert!(!rows[4].is_freeze_period);
    assert!(!rows[2].round_in_progress);
    assert!(rows[3].round_in_progress);
    assert!(rows[4].round_in_progress);
}

#[test]
fn phase_repair_prefers_candidate_with_live_player_rows() {
    let mut rows = vec![
        row(1, 110, true),
        row(1, 120, true),
        row(1, 190, true),
        live_row(1, 200, true),
        live_row(1, 220, true),
        live_row(1, 240, true),
    ];

    repair_round_phase_after_events(&mut rows, &[100, 200], &[130, 260]);

    assert!(rows[2].is_freeze_period);
    assert!(!rows[3].is_freeze_period);
    assert!(rows[3].round_in_progress);
    assert!(rows[4].round_in_progress);
    assert!(rows[5].round_in_progress);
}

#[test]
fn phase_repair_leaves_rounds_without_a_freeze_end_alone() {
    let before = vec![row(1, 90, true), row(2, 300, true), live_row(2, 320, false)];
    let mut rows = before.clone();

    repair_round_phase_after_events(&mut rows, &[100, 200], &[]);

    assert_eq!(rows, before);
}

#[test]
fn phase_repair_handles_each_round_run_on_its_own() {
    let mut rows = vec![
        row(3, 100, true),
        row(3, 150, true),
        row(4, 400, true),
        row(4, 450, true),
    ];

    repair_round_phase_after_events(&mut rows, &[150, 450], &[]);

    assert!(rows[0].is_freeze_period);
    assert!(!rows[1].is_freeze_period && rows[1].round_in_progress);
    assert!(rows[2].is_freeze_period && !rows[2].round_in_progress);
    assert!(!rows[3].is_freeze_period && rows[3].round_in_progress);
    for (a, b) in rows.iter().zip([100, 150, 400, 450]) {
        assert_eq!(a.tick, b);
    }
}

#[test]
fn round_end_after_takes_the_earliest_end_in_range() {
    assert_eq!(round_end_after(&[500, 130, 90, 260], 100, 300), Some(130));
    assert_eq!(round_end_after(&[90, 400], 100, 300), None);
    assert_eq!(round_end_after(&[100], 100, 100), Some(100));
}

#[test]
fn candidate_score_counts_players_and_live_rows() {
    let mut repeat = live_row(1, 230, false);
    repeat.steam_id = 200;
    let rows = vec![
        row(1, 190, true),
        live_row(1, 200, false),
        repeat,
        live_row(1, 240, false),
        live_row(1, 260, false),
    ];
    assert_eq!(round_phase_candidate_score(&rows, 260, 200, Some(260)), (2, 3));
    assert_eq!(round_phase_candidate_score(&rows, 260, 200, None), (3, 4));
    assert!(is_pistol_round_number(0) && is_pistol_round_number(12));
    assert!(!is_pistol_round_number(1));
}
