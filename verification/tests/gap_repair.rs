use demotracer_converter::gap_repair::{
    plan_short_global_tick_gap_repairs, stable_across_missing_tick, GapRepair, GapRow,
};
use demotracer_converter::round_phase::{repair_round_phase_after_events, PhaseRow};

fn gap_row(steam_id: u64, tick: i32) -> GapRow {
    GapRow {
        round: 1,
        tick,
        steam_id,
        team_num: 2,
        is_alive: true,
        player_user_id: Some(steam_id as i32),
        player_entity_id: Some(steam_id as i32),
    }
}

/// The (player, tick) of each planned row, in (tick, player) order.
fn repaired(rows: &[GapRow], plan: &[GapRepair]) -> Vec<(u64, i32)> {
    let mut out: Vec<(u64, i32)> = plan.iter().map(|r| (rows[r.before].steam_id, r.tick)).collect();
    out.sort_by_key(|&(steam_id, tick)| (tick, steam_id));
    out
}

#[test]
fn global_single_tick_gap_is_interpolated_for_stable_players() {
    let rows = vec![gap_row(70, 10), gap_row(90, 10), gap_row(70, 12), gap_row(90, 12)];
    let plan = plan_short_global_tick_gap_repairs(&rows);
    assert_eq!(plan.len(), 2);
    let repair = plan.iter().find(|r| rows[r.before].steam_id == 70 && r.tick == 11).unwrap();
    assert_eq!((repair.before, repair.after), (0, 2));
    assert_eq!(repaired(&rows, &plan), vec![(70, 11), (90, 11)]);
}

#[test]
fn global_tick_gap_across_freeze_end_is_repaired() {
    let rows = vec![gap_row(70, 10), gap_row(90, 10), gap_row(70, 12), gap_row(90, 12)];
    let plan = plan_short_global_tick_gap_repairs(&rows);
    assert_eq!(plan.len(), 2);

    // Rows 0 and 1 are still in the freeze, rows 2 and 3 live; a filled-in
    // row starts as a copy of the row before the hole.
    let phase = |row: &GapRow, live: bool| PhaseRow {
        round: row.round,
        tick: row.tick,
        steam_id: row.steam_id,
        team_num: row.team_num,
        is_alive: row.is_alive,
        is_freeze_period: !live,
        round_in_progress: live,
    };
    let mut phase_rows: Vec<PhaseRow> =
        rows.iter().enumerate().map(|(index, row)| phase(row, index >= 2)).collect();
    for repair in &plan {
        let mut row = phase(&rows[repair.before], false);
        row.tick = repair.tick;
        phase_rows.push(row);
    }
    phase_rows.sort_by_key(|row| (row.round, row.tick, row.steam_id));
    repair_round_phase_after_events(&mut phase_rows, &[11], &[]);

    for steam_id in [70, 90] {
        let freeze = phase_rows.iter().find(|row| row.steam_id == steam_id && row.tick == 10).unwrap();
        let filled = phase_rows.iter().find(|row| row.steam_id == steam_id && row.tick == 11).unwrap();
        assert!(freeze.is_freeze_period);
        assert!(!freeze.round_in_progress);
        assert!(!filled.is_freeze_period);
        assert!(filled.round_in_progress);
    }
}

#[test]
fn short_global_tick_gap_is_linearly_interpolated() {
    let rows = vec![gap_row(70, 10), gap_row(90, 10), gap_row(70, 15), gap_row(90, 15)];
    let plan = plan_short_global_tick_gap_repairs(&rows);
    assert_eq!(plan.len(), 8);
    let repair = plan.iter().find(|r| rows[r.before].steam_id == 70 && r.tick == 12).unwrap();
    assert_eq!((repair.before, repair.after), (0, 2));
    let filled = repaired(&rows, &plan);
    assert!((11..15).all(|tick| filled.contains(&(90, tick))));
}

#[test]
fn long_global_tick_gap_remains_rejected() {
    let rows = vec![gap_row(70, 10), gap_row(90, 10), gap_row(70, 20), gap_row(90, 20)];
    assert!(plan_short_global_tick_gap_repairs(&rows).is_empty());
}

#[test]
fn player_only_gap_is_not_treated_as_a_global_packet_hole() {
    let rows = vec![
        gap_row(70, 10),
        gap_row(90, 10),
        gap_row(90, 11),
        gap_row(70, 12),
        gap_row(90, 12),
    ];
    assert!(plan_short_global_tick_gap_repairs(&rows).is_empty());
}

#[test]
fn global_gap_does_not_invent_a_player_lifecycle_transition() {
    let mut rows = vec![gap_row(70, 10), gap_row(90, 10), gap_row(70, 12), gap_row(90, 12)];
    rows[2].is_alive = false;
    let plan = plan_short_global_tick_gap_repairs(&rows);
    assert_eq!(plan.len(), 1);
    assert_eq!(repaired(&rows, &plan), vec![(90, 11)]);
}

#[test]
fn ambiguous_and_playerless_rows_are_not_repaired() {
    // Two rows of player 70 at tick 10 make its side of the hole ambiguous.
    let rows = vec![gap_row(70, 10), gap_row(70, 10), gap_row(70, 13), gap_row(0, 10), gap_row(0, 13)];
    assert!(plan_short_global_tick_gap_repairs(&rows).is_empty());

    // Nine missing ticks is the first hole too long; eight is filled.
    let rows = vec![gap_row(5, 0), gap_row(5, 9)];
    assert_eq!(plan_short_global_tick_gap_repairs(&rows).len(), 8);
    let rows = vec![gap_row(5, 0), gap_row(5, 10)];
    assert!(plan_short_global_tick_gap_repairs(&rows).is_empty());
    assert!(plan_short_global_tick_gap_repairs(&[]).is_empty());
}

#[test]
fn lifecycle_is_read_from_player_round_team_life_and_entity() {
    let a = gap_row(70, 10);
    let mut b = gap_row(70, 12);
    assert!(stable_across_missing_tick(&a, &b));
    b.player_entity_id = Some(3);
    assert!(!stable_across_missing_tick(&a, &b));
    let mut c = gap_row(70, 12);
    c.team_num = 3;
    assert!(!stable_across_missing_tick(&a, &c));
    let mut d = gap_row(70, 12);
    d.round = 2;
    assert!(!stable_across_missing_tick(&a, &d));
}
