use demotracer_converter::gap_repair::GapRow;
use demotracer_converter::motion::{velocity_pair, velocity_sources};

fn gap_row(steam_id: u64, tick: i32) -> GapRow {
    GapRow {
        round: 1,
        tick,
        steam_id,
        team_num: 2,
        is_alive: true,
        player_user_id: Some(steam_id as i32),
        player_entity_id: Some(steam_id as i32),
    }
}

/// The velocity along x that the caller derives from a row's source.
fn velocity_x(rows: &[(GapRow, f32)], sources: &[Option<usize>], k: usize, tick_rate: f32) -> f32 {
    match sources[k] {
        Some(m) => (rows[k].1 - rows[m].1) * (tick_rate / (rows[k].0.tick - rows[m].0.tick) as f32),
        None => 0.0,
    }
}

#[test]
fn rebuilt_velocity_matches_the_current_position_interval() {
    let rows = vec![(gap_row(70, 10), 0.0f32), (gap_row(70, 11), 1.0), (gap_row(70, 12), 3.0)];
    let plain: Vec<GapRow> = rows.iter().map(|(row, _)| *row).collect();
    let sources = velocity_sources(&plain);

    assert_eq!(sources, vec![None, Some(0), Some(1)]);
    assert_eq!(velocity_x(&rows, &sources, 0, 64.0), 0.0);
    assert_eq!(velocity_x(&rows, &sources, 1, 64.0), 64.0);
    assert_eq!(velocity_x(&rows, &sources, 2, 64.0), 128.0);
}

#[test]
fn rebuilt_velocity_stops_at_round_and_pawn_boundaries() {
    let mut before = gap_row(70, 10);
    before.round = 1;
    before.player_entity_id = Some(7);
    let mut new_round = gap_row(70, 11);
    new_round.round = 2;
    new_round.player_entity_id = Some(8);
    let mut same_pawn = gap_row(70, 12);
    same_pawn.round = 2;
    same_pawn.player_entity_id = Some(8);
    let rows = vec![(before, 0.0f32), (new_round, 1000.0), (same_pawn, 1001.0)];
    let plain: Vec<GapRow> = rows.iter().map(|(row, _)| *row).collect();
    let sources = velocity_sources(&plain);

    assert_eq!(sources, vec![None, None, Some(1)]);
    assert_eq!(velocity_x(&rows, &sources, 0, 64.0), 0.0);
    assert_eq!(velocity_x(&rows, &sources, 1, 64.0), 0.0);
    assert_eq!(velocity_x(&rows, &sources, 2, 64.0), 64.0);
}

#[test]
fn velocity_source_is_the_players_own_previous_row() {
    let mut dead = gap_row(90, 11);
    dead.is_alive = false;
    let rows = vec![
        gap_row(70, 10),
        gap_row(90, 10),
        dead,
        gap_row(70, 12),
        gap_row(90, 12),
        gap_row(0, 13),
        gap_row(0, 14),
        gap_row(70, 12),
    ];
    // Player 90's previous row is dead; a repeated tick has no time between.
    assert_eq!(
        velocity_sources(&rows),
        vec![None, None, None, Some(0), None, None, None, None]
    );
    assert!(!velocity_pair(&gap_row(5, i32::MAX), &gap_row(5, i32::MIN)));
    assert!(!velocity_pair(&gap_row(5, i32::MIN), &gap_row(5, i32::MAX)));
    assert!(velocity_pair(&gap_row(5, -1), &gap_row(5, i32::MAX - 1)));
}
