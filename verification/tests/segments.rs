use demotracer_converter::demo_series::{CompletedRound, DemoSourcePart, DemoSourceSet};
use demotracer_converter::model::ParsedGameEvent;
use demotracer_converter::segment_merge::{
    canonical_match_end, canonical_match_start, merge_parsed_demo_parts, score_by_player, stable_roster,
    validate_boundary_scores, MergedDemo, SegmentDemo, SegmentEconItem, SegmentProjectile, SegmentVoiceFrame,
};
use demotracer_converter::segment_rounds::{completed_rounds, rounds_by_tick, score_total_at_round_start, SegmentRow};

fn row(round: u32, tick: i32, steam_id: u64, team_num: u8, score: u32) -> SegmentRow {
    SegmentRow {
        round,
        tick,
        steam_id,
        team_num,
        round_in_progress: tick >= 20,
        is_freeze_period: tick < 20,
        team_rounds_total: Some(score),
        source: 0,
    }
}

fn completed_round_rows(round: u32, side_scores: [u32; 2]) -> Vec<SegmentRow> {
    [10, 20, 40]
        .into_iter()
        .flat_map(|tick| {
            (0..10).map(move |index| {
                let team_num = if index < 5 { 2 } else { 3 };
                let score = side_scores[usize::from(team_num - 2)];
                row(round, tick, 100 + index, team_num, score)
            })
        })
        .collect()
}

fn event(tick: i32, name: &str, winner_side: Option<u8>) -> ParsedGameEvent {
    ParsedGameEvent { tick, name: name.to_string(), winner_side, ..ParsedGameEvent::default() }
}

fn numbered(mut rows: Vec<SegmentRow>) -> Vec<SegmentRow> {
    for (index, row) in rows.iter_mut().enumerate() {
        row.source = index;
    }
    rows
}

fn part_one() -> SegmentDemo {
    let mut rows = completed_round_rows(0, [0, 0]);
    rows.extend((0..10).map(|index| {
        let team_num = if index < 5 { 2 } else { 3 };
        row(1, 60, 100 + index, team_num, if team_num == 2 { 1 } else { 0 })
    }));
    SegmentDemo {
        demo_sha256: "11".repeat(32),
        map: "de_mirage".to_string(),
        demo_patch_version: Some(14_165),
        demo_version_name: Some("valve_demo_2".to_string()),
        server_name: Some("ESL Match Server #1".to_string()),
        tick_rate_bits: 64.0f32.to_bits(),
        tick_rate_text: "64".to_string(),
        round_freeze_end_ticks: vec![15, 65],
        bomb_beginplant_ticks: Vec::new(),
        bomb_planted_ticks: Vec::new(),
        rows: numbered(rows),
        projectiles: Vec::new(),
        voice_frames: Vec::new(),
        events: vec![event(5, "round_announce_match_start", None), event(60, "round_end", Some(2))],
        avatar_overrides: Vec::new(),
        econ_items: Vec::new(),
    }
}

fn part_two() -> SegmentDemo {
    let mut rows = completed_round_rows(1, [1, 0]);
    rows.extend((0..2).map(|index| row(2, 60, 100 + index, 2, 2)));
    SegmentDemo {
        demo_sha256: "22".repeat(32),
        map: "de_mirage".to_string(),
        demo_patch_version: Some(14_165),
        demo_version_name: Some("valve_demo_2".to_string()),
        server_name: Some("ESL Match Server #1".to_string()),
        tick_rate_bits: 64.0f32.to_bits(),
        tick_rate_text: "64".to_string(),
        round_freeze_end_ticks: vec![15, 65],
        bomb_beginplant_ticks: Vec::new(),
        bomb_planted_ticks: vec![30],
        rows: numbered(rows),
        projectiles: vec![SegmentProjectile { tick: 25, effect_tick: Some(30), source: 0 }],
        voice_frames: vec![SegmentVoiceFrame { tick: 25, xuid: 100, source: 0 }],
        events: vec![
            event(1, "round_end", None),
            event(60, "round_end", Some(3)),
            event(65, "cs_win_panel_match", None),
        ],
        avatar_overrides: Vec::new(),
        econ_items: Vec::new(),
    }
}

fn source() -> DemoSourceSet {
    DemoSourceSet {
        logical_stem: "match".to_string(),
        parts: vec![
            DemoSourcePart { part: 1, path: "/demos/match-p1.dem".to_string() },
            DemoSourcePart { part: 2, path: "/demos/match-p2.dem".to_string() },
        ],
    }
}

fn merge(parts: Vec<SegmentDemo>) -> Result<MergedDemo, String> {
    let agrees = vec![true; parts.len()];
    match merge_parsed_demo_parts(&source(), parts, &agrees) {
        Ok(Some(merged)) => Ok(merged),
        Ok(None) => Err("single".to_string()),
        Err(error) => Err(error.message()),
    }
}

#[test]
fn merge_keeps_only_completed_rounds_and_rebases_every_tick_lane() {
    let merged = merge(vec![part_one(), part_two()]).unwrap();

    assert_eq!(merged.stem, "match");
    assert_eq!(merged.path, "/demos/match-p1.dem");
    let rounds: std::collections::BTreeSet<u32> = merged.rows.iter().map(|(_, row)| row.round).collect();
    assert_eq!(rounds, std::collections::BTreeSet::from([0, 1]));
    assert_eq!(merged.round_freeze_end_ticks.len(), 2);
    assert_eq!(merged.bomb_planted_ticks.len(), 1);
    assert_eq!(merged.projectiles.len(), 1);
    assert_eq!(merged.voice_frames.len(), 1);
    assert_eq!(merged.events.iter().filter(|event| event.name == "round_end").count(), 2);
    assert!(!merged.events.iter().any(|event| event.name == "round_end" && event.winner_side.is_none()));
    assert_eq!(merged.events.iter().filter(|event| event.name == "round_announce_match_start").count(), 1);
    assert_eq!(merged.events.iter().filter(|event| event.name == "cs_win_panel_match").count(), 1);

    let part_one_max = merged.rows.iter().filter(|(_, row)| row.round == 0).map(|(_, row)| row.tick).max().unwrap();
    let part_two_min = merged.rows.iter().filter(|(_, row)| row.round == 1).map(|(_, row)| row.tick).min().unwrap();
    let part_one_round_end = merged
        .events
        .iter()
        .filter(|event| event.name == "round_end")
        .map(|event| event.tick)
        .min()
        .unwrap();
    assert_eq!(part_two_min, part_one_round_end + 1);
    assert!(part_one_round_end > part_one_max);
    assert!(merged.projectiles[0].1.tick > part_one_max);
    assert!(merged.projectiles[0].1.effect_tick.unwrap() > part_one_max);
    assert!(merged.voice_frames[0].1.tick > part_one_max);
    assert!(merged.bomb_planted_ticks[0] > part_one_max);
    // The rows of round 1 are the second segment's.
    assert!(merged.rows.iter().filter(|(_, row)| row.round == 1).all(|(segment, _)| *segment == 1));

    // Each merged row points back at its row in its segment: the second
    // segment's completed round carries a scoreboard score of 99, the first
    // segment's rows carry none.
    let scores: Vec<Vec<Option<u32>>> = vec![
        part_one().rows.iter().map(|_| None).collect(),
        part_two().rows.iter().map(|row| if row.round == 1 { Some(99) } else { None }).collect(),
    ];
    let best = merged.rows.iter().filter_map(|(segment, row)| scores[*segment][row.source]).max();
    assert_eq!(best, Some(99));
    // The merged demo's rows hold both sides' ten players.
    let players: std::collections::BTreeSet<u64> = merged.rows.iter().map(|(_, row)| row.steam_id).collect();
    assert_eq!(players.len(), 10);
}

#[test]
fn merge_rejects_non_contiguous_rounds_and_header_mismatch() {
    let mut second = part_two();
    for row in &mut second.rows {
        row.round = row.round.saturating_add(1);
    }
    assert!(merge(vec![part_one(), second]).unwrap_err().contains("not continuous"));

    let mut second = part_two();
    second.map = "de_anubis".to_string();
    assert!(merge(vec![part_one(), second]).unwrap_err().contains("map mismatch"));

    let mut second = part_two();
    for row in &mut second.rows {
        if row.round == 1 {
            row.team_rounds_total = Some(if row.team_num == 2 { 0 } else { 1 });
        }
    }
    assert!(merge(vec![part_one(), second]).unwrap_err().contains("score mismatch"));

    let mut second = part_two();
    second.rows.retain(|row| row.steam_id < 107);
    assert!(merge(vec![part_one(), second]).unwrap_err().contains("insufficient roster evidence"));
}

#[test]
fn merged_rows_are_ordered_and_sources_kept() {
    let merged = merge(vec![part_one(), part_two()]).unwrap();
    for pair in merged.rows.windows(2) {
        let (a, b) = (&pair[0].1, &pair[1].1);
        assert!((a.round, a.tick, a.steam_id) <= (b.round, b.tick, b.steam_id));
    }
    // Part one keeps rounds 0 only; its round-1 shell rows are dropped.
    assert_eq!(merged.rows.iter().filter(|(segment, _)| *segment == 0).count(), 30);
    assert_eq!(merged.rows.iter().filter(|(segment, _)| *segment == 1).count(), 30);
    assert_eq!(merged.demo_sha256.len(), 64);
    assert_eq!(merged.map, "de_mirage");
}

#[test]
fn single_part_source_stands_as_it_is() {
    let single = DemoSourceSet {
        logical_stem: "match".to_string(),
        parts: vec![DemoSourcePart { part: 1, path: "/demos/match.dem".to_string() }],
    };
    assert!(merge_parsed_demo_parts(&single, vec![part_one()], &vec![true]).unwrap().is_none());
    let error = merge_parsed_demo_parts(&single, vec![part_one(), part_two()], &vec![true, true]).unwrap_err();
    assert!(error.message().contains("segment count does not match"));
}

#[test]
fn tick_rate_disagreement_is_a_header_mismatch() {
    let error = merge_parsed_demo_parts(&source(), vec![part_one(), part_two()], &vec![true, false]).unwrap_err();
    assert!(error.message().contains("tick rate mismatch"));
}

#[test]
fn completed_rounds_follow_round_ends_and_freeze_ends() {
    let part = part_one();
    let rounds = completed_rounds(&part.rows, &part.round_freeze_end_ticks, &part.events).unwrap();
    assert_eq!(rounds.len(), 1);
    let (round, completed) = rounds[0];
    assert_eq!(round, 0);
    assert_eq!(completed.row_min_tick, 10);
    assert_eq!(completed.row_max_tick, 40);
    assert_eq!(completed.freeze_end_tick, 15);
    assert_eq!(completed.round_end_tick, 60);
    assert_eq!(completed.winner_side, 2);
    assert_eq!(completed.start_score_total, Some(0));
}

#[test]
fn conflicting_round_winners_are_an_error() {
    let mut part = part_one();
    part.events.push(event(60, "round_end", Some(3)));
    let error = completed_rounds(&part.rows, &part.round_freeze_end_ticks, &part.events).unwrap_err();
    assert_eq!(error.message(), "invalid demo data: conflicting round winners at tick 60");
}

#[test]
fn rows_are_counted_by_tick_and_round() {
    let rows = vec![row(1, 30, 1, 2, 0), row(1, 10, 2, 2, 0), row(2, 30, 3, 3, 0), row(1, 30, 4, 3, 0)];
    let rbt = rounds_by_tick(&rows);
    assert_eq!(rbt.len(), 2);
    assert_eq!(rbt[0].0, 10);
    assert_eq!(rbt[0].1, vec![(1, 1)]);
    assert_eq!(rbt[1].0, 30);
    let mut at_thirty = rbt[1].1.clone();
    at_thirty.sort();
    assert_eq!(at_thirty, vec![(1, 2), (2, 1)]);
}

#[test]
fn start_score_total_is_the_modal_sum_of_both_sides() {
    let rows = completed_round_rows(3, [2, 1]);
    assert_eq!(score_total_at_round_start(&rows, 3, 20, 40), Some(3));
    assert_eq!(score_total_at_round_start(&rows, 4, 20, 40), None);
}

#[test]
fn player_scores_count_a_round_win_when_asked() {
    let rows = completed_round_rows(0, [4, 2]);
    let round = CompletedRound {
        row_min_tick: 10,
        row_max_tick: 40,
        freeze_end_tick: 15,
        round_end_tick: 60,
        winner_side: 3,
        start_score_total: None,
    };
    let with_win = score_by_player(&rows, &round, true);
    assert_eq!(with_win.len(), 10);
    assert_eq!(with_win[0], (100, 4));
    assert_eq!(with_win[9], (109, 3));
    let without = score_by_player(&rows, &round, false);
    assert_eq!(without[9], (109, 2));
    assert!(validate_boundary_scores(1, &rows, &round, &rows, &round).is_err());
}

#[test]
fn rosters_list_players_on_playing_sides() {
    let rows = vec![row(0, 10, 5, 2, 0), row(0, 10, 0, 2, 0), row(0, 10, 3, 1, 0), row(0, 11, 5, 3, 0), row(0, 11, 4, 3, 0)];
    assert_eq!(stable_roster(&rows), vec![4, 5]);
}

#[test]
fn canonical_match_events_bracket_the_completed_rounds() {
    let rounds = vec![(
        0u32,
        CompletedRound {
            row_min_tick: 10,
            row_max_tick: 40,
            freeze_end_tick: 15,
            round_end_tick: 60,
            winner_side: 2,
            start_score_total: None,
        },
    )];
    let events = vec![
        event(5, "round_announce_match_start", None),
        event(7, "round_announce_match_start", Some(1)),
        event(90, "round_announce_match_start", None),
        event(70, "cs_win_panel_match", Some(1)),
        event(70, "cs_win_panel_match", None),
        event(50, "cs_win_panel_match", None),
    ];
    assert_eq!(canonical_match_start(&events, &rounds).unwrap().tick, 7);
    let end = canonical_match_end(&events, &rounds).unwrap();
    assert_eq!((end.tick, end.winner_side), (70, Some(1)));
    assert!(canonical_match_start(&Vec::new(), &rounds).is_err());
}

#[test]
fn economy_items_and_avatars_merge_by_identity() {
    let item = |steam: u64, name: &str, source: usize| SegmentEconItem {
        steam_id: Some(steam),
        item_def_index: Some(7),
        paint_kit: None,
        paint_seed: None,
        paint_wear_raw: None,
        paint_wear_bits: None,
        custom_name: Some(name.to_string()),
        item_name: None,
        skin_name: None,
        source,
    };
    let mut one = part_one();
    one.econ_items = vec![item(9, "b", 0), item(3, "a", 1)];
    let mut two = part_two();
    two.econ_items = vec![item(9, "b", 0)];
    let merged = merge(vec![one, two]).unwrap();
    let keys: Vec<(usize, u64, usize)> =
        merged.econ_items.iter().map(|(segment, item)| (*segment, item.steam_id.unwrap(), item.source)).collect();
    assert_eq!(keys, vec![(0, 3, 1), (1, 9, 0)]);
}
