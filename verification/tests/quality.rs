use demotracer_converter::model::{ParsedGameEvent, RoundStatus};
use demotracer_converter::quality::{
    analyze_round_windows, is_pistol_round, round_summary, row_qualifies_for_window,
    select_stable_window, AnalysisTicks, PlayerWindowKind, QualityRow, RoundSummary,
    TeamPlayerSet,
};

struct Demo {
    rows: Vec<QualityRow>,
    freeze_end_ticks: Vec<i32>,
    events: Vec<ParsedGameEvent>,
    tick_rate: f32,
}

fn seconds_to_ticks(tick_rate: f32, seconds: f32) -> i32 {
    (tick_rate.max(1.0) * seconds).round() as i32
}

/// The round analysis with the default options (10 s to 240 s windows).
fn analyze(demo: &Demo) -> Vec<RoundSummary> {
    let ticks = AnalysisTicks {
        freeze_lookback: seconds_to_ticks(demo.tick_rate, 35.0),
        active_lookahead: seconds_to_ticks(demo.tick_rate, 12.0),
        transition_gap: seconds_to_ticks(demo.tick_rate, 45.0),
    };
    let (min_seconds, max_seconds) = (10.0f32, 240.0f32);
    let windows = analyze_round_windows(&demo.rows, &demo.freeze_end_ticks, &demo.events, ticks);
    assert!(windows.iter().all(|window| window.start_tick <= window.end_tick));
    windows
        .iter()
        .map(|window| {
            let span = (window.end_tick - window.start_tick).max(0) as f32;
            let duration = if demo.tick_rate > 0.0 { span / demo.tick_rate } else { 0.0 };
            let too_short = (duration < min_seconds).then(|| {
                format!("round window too short: {:.1}s < {:.1}s", duration, min_seconds)
            });
            let too_long = (duration > max_seconds).then(|| {
                format!("round window too long: {:.1}s > {:.1}s", duration, max_seconds)
            });
            round_summary(window, duration.to_bits(), too_short, too_long)
        })
        .collect()
}

fn row(round: u32, tick: i32, team_num: u8, steam_id: u64) -> QualityRow {
    QualityRow {
        round,
        tick,
        steam_id,
        team_num,
        is_alive: true,
        round_in_progress: true,
        is_freeze_period: false,
        moving: false,
    }
}

fn demo(rows: Vec<QualityRow>, freeze_end_ticks: Vec<i32>, events: Vec<ParsedGameEvent>) -> Demo {
    Demo { rows, freeze_end_ticks, events, tick_rate: 64.0 }
}

#[test]
fn flags_underfilled_round_as_suspicious() {
    let parsed = demo(vec![row(1, 0, 2, 1), row(1, 640, 3, 2)], Vec::new(), Vec::new());
    let analysis = analyze(&parsed);
    assert_eq!(analysis[0].status, RoundStatus::Suspicious);
    assert!(analysis[0]
        .problems
        .iter()
        .any(|p| p.contains("available players")));
}

fn four_v_five_disconnect_demo(include_death_event: bool) -> Demo {
    let mut rows = Vec::new();
    for steam_id in 1..=10 {
        let team_num = if steam_id <= 5 { 2 } else { 3 };
        let mut frozen = row(11, 100, team_num, steam_id);
        frozen.round_in_progress = false;
        frozen.is_freeze_period = true;
        rows.push(frozen);
    }

    let mut dead = row(11, 160, 3, 10);
    dead.round_in_progress = false;
    dead.is_freeze_period = true;
    dead.is_alive = false;
    rows.push(dead);

    for steam_id in 1..=9 {
        let team_num = if steam_id <= 5 { 2 } else { 3 };
        rows.push(row(11, 200, team_num, steam_id));
        rows.push(row(11, 1_000, team_num, steam_id));
    }

    let events = if include_death_event {
        vec![ParsedGameEvent {
            tick: 150,
            name: "player_death".to_string(),
            user_steam_id: Some(10),
            ..ParsedGameEvent::default()
        }]
    } else {
        Vec::new()
    };
    demo(rows, vec![180], events)
}

#[test]
fn selects_evidence_backed_four_v_five_round_as_partial() {
    let analysis = analyze(&four_v_five_disconnect_demo(true));
    let round = &analysis[0];

    assert_eq!(round.status, RoundStatus::Partial);
    assert_eq!((round.t_players, round.ct_players), (5, 4));
    assert!(round.selected_by_default());
    assert!(round.problems.is_empty());
}

#[test]
fn keeps_four_v_five_round_suspicious_without_explicit_death_evidence() {
    let analysis = analyze(&four_v_five_disconnect_demo(false));
    let round = &analysis[0];

    assert_eq!(round.status, RoundStatus::Suspicious);
    assert!(!round.selected_by_default());
    assert!(round
        .problems
        .iter()
        .any(|problem| problem.contains("available players 9 != 10")));
}

#[test]
fn flags_round_without_active_window_as_suspicious() {
    let mut frozen = row(1, 0, 2, 1);
    frozen.round_in_progress = false;
    frozen.is_freeze_period = true;
    let parsed = demo(vec![frozen], Vec::new(), Vec::new());

    let analysis = analyze(&parsed);

    assert_eq!(analysis[0].status, RoundStatus::Suspicious);
    assert!(analysis[0]
        .problems
        .iter()
        .any(|p| p.contains("available players")));
}

#[test]
fn recovers_halftime_side_swap_window_from_raw_rows() {
    let mut rows = Vec::new();
    let mut old_side = row(12, 0, 2, 1);
    old_side.round_in_progress = false;
    old_side.is_freeze_period = true;
    rows.push(old_side);

    for steam_id in 1..=5 {
        for tick in [100, 800] {
            let mut r = row(12, tick, 3, steam_id);
            r.round_in_progress = false;
            r.is_freeze_period = true;
            rows.push(r);
        }
    }
    for steam_id in 6..=10 {
        for tick in [100, 800] {
            let mut r = row(12, tick, 2, steam_id);
            r.round_in_progress = false;
            r.is_freeze_period = true;
            rows.push(r);
        }
    }

    let parsed = demo(rows, Vec::new(), Vec::new());
    let analysis = analyze(&parsed);
    let summary = &analysis[0];

    assert_eq!(summary.status, RoundStatus::Suspicious);
    assert_eq!(summary.start_tick, 100);
    assert_eq!(summary.t_players, 5);
    assert_eq!(summary.ct_players, 5);
}

#[test]
fn uses_round_freeze_end_event_as_window_floor() {
    let rows = vec![
        row(1, 100, 2, 1),
        row(1, 100, 3, 2),
        row(1, 200, 2, 1),
        row(1, 200, 3, 2),
    ];
    let parsed = demo(rows, vec![150], Vec::new());

    let analysis = analyze(&parsed);

    assert_eq!(analysis[0].start_tick, 200);
}

#[test]
fn pistol_round_uses_late_freeze_end_to_skip_warmup_activity() {
    let mut rows = Vec::new();
    for steam_id in 1..=5 {
        rows.push(row(0, 100, 2, steam_id));
        let mut frozen = row(0, 1_900, 2, steam_id);
        frozen.is_freeze_period = true;
        frozen.round_in_progress = false;
        rows.push(frozen);
        rows.push(row(0, 2_100, 2, steam_id));
    }
    for steam_id in 6..=10 {
        rows.push(row(0, 100, 3, steam_id));
        let mut frozen = row(0, 1_900, 3, steam_id);
        frozen.is_freeze_period = true;
        frozen.round_in_progress = false;
        rows.push(frozen);
        rows.push(row(0, 2_100, 3, steam_id));
    }
    let parsed = demo(rows, vec![500, 2_000], Vec::new());

    let analysis = analyze(&parsed);

    assert_eq!(analysis[0].start_tick, 2_100);
}

#[test]
fn pistol_round_infers_freeze_transition_when_event_is_missing() {
    let mut rows = Vec::new();
    for steam_id in 1..=5 {
        rows.push(row(12, 100, 2, steam_id));
        let mut frozen = row(12, 1_000, 3, steam_id);
        frozen.is_freeze_period = true;
        frozen.round_in_progress = false;
        rows.push(frozen);
        rows.push(row(12, 1_300, 3, steam_id));
    }
    for steam_id in 6..=10 {
        rows.push(row(12, 100, 3, steam_id));
        let mut frozen = row(12, 1_000, 2, steam_id);
        frozen.is_freeze_period = true;
        frozen.round_in_progress = false;
        rows.push(frozen);
        rows.push(row(12, 1_300, 2, steam_id));
    }
    let parsed = demo(rows, Vec::new(), Vec::new());

    let analysis = analyze(&parsed);

    assert_eq!(analysis[0].start_tick, 1_300);
    assert_eq!(analysis[0].t_players, 5);
    assert_eq!(analysis[0].ct_players, 5);
}

#[test]
fn full_round_is_recommended() {
    let mut rows = Vec::new();
    for steam_id in 1..=10 {
        let team = if steam_id <= 5 { 2 } else { 3 };
        rows.push(row(3, 1_000, team, steam_id));
        rows.push(row(3, 3_000, team, steam_id));
    }
    let analysis = analyze(&demo(rows, Vec::new(), Vec::new()));
    assert_eq!(analysis[0].status, RoundStatus::Recommended);
    assert_eq!(analysis[0].total_players, 10);
    assert_eq!(analysis[0].valid_rows, 20);
    assert!(analysis[0].problems.is_empty());
    assert!(!analysis[0].requires_suspicious_opt_in());
}

#[test]
fn short_round_reports_its_duration() {
    let mut rows = Vec::new();
    for steam_id in 1..=10 {
        let team = if steam_id <= 5 { 2 } else { 3 };
        rows.push(row(3, 1_000, team, steam_id));
        rows.push(row(3, 1_064, team, steam_id));
    }
    let analysis = analyze(&demo(rows, Vec::new(), Vec::new()));
    assert_eq!(analysis[0].status, RoundStatus::Suspicious);
    assert_eq!(analysis[0].problems, vec!["round window too short: 1.0s < 10.0s".to_string()]);
}

#[test]
fn stable_window_counts_players_and_valid_rows() {
    let rows = vec![row(1, 10, 2, 1), row(1, 20, 3, 2), row(1, 30, 2, 1), row(1, 5, 3, 0)];
    let window = select_stable_window(&rows, &vec![0, 1, 2, 3]).unwrap();
    assert_eq!((window.start_tick, window.end_tick), (20, 30));
    assert_eq!((window.t_players, window.ct_players), (1, 1));
    assert_eq!(window.valid_rows, 2);
    assert!(select_stable_window(&rows, &Vec::new()).is_none());
}

#[test]
fn player_sets_count_distinct_players_per_side() {
    let mut set = TeamPlayerSet::new();
    for r in [row(1, 1, 2, 1), row(1, 2, 2, 1), row(1, 3, 3, 2), row(1, 4, 1, 3)] {
        set.add(&r);
    }
    assert_eq!(set.total(), 2);
    assert_eq!(set.balanced_score(), 2);
    assert!(is_pistol_round(0) && is_pistol_round(12) && !is_pistol_round(1));
    let mut frozen = row(1, 1, 2, 1);
    frozen.is_freeze_period = true;
    assert!(row_qualifies_for_window(&frozen, PlayerWindowKind::Freeze));
    assert!(!row_qualifies_for_window(&frozen, PlayerWindowKind::Active));
}
