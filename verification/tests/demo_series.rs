use demotracer_converter::demo_series::{
    combine_part_metadata, compound_demo_sha256, demo_source_sha256, demo_stem,
    group_demo_sources, is_supported_demo_path, is_zstd_demo_path, mode_score,
    predecessor_round, modal_round_at_tick, require_matching_optional,
    require_matching_optional_ref, resolve_demo_source, resolve_demo_source_for_sha256,
    retained_events, round_for_tick, segment_file_name, single_source, strip_demo_extension,
    checked_shift_tick, tick_in_completed_round, unresolved_source_for_sha256, CompletedRound,
    DemoSourcePart, DemoSourceSet, PartMetadata, SegmentCandidate,
};
use demotracer_converter::digest::sha256_hex;
use demotracer_converter::error::Error;
use demotracer_converter::model::ParsedGameEvent;

fn candidate(dir: &str, name: &str) -> SegmentCandidate {
    SegmentCandidate {
        path: format!("{dir}/{name}"),
        file_name: Some(name.to_string()),
    }
}

fn detail(error: Error) -> String {
    match error {
        Error::InvalidDemo(text) => text,
        other => panic!("unexpected error {}", other.message()),
    }
}

#[test]
fn compound_hash_is_order_sensitive_and_path_independent() {
    let first = compound_demo_sha256(&vec!["11".repeat(32), "22".repeat(32)]).unwrap();
    let second = compound_demo_sha256(&vec!["22".repeat(32), "11".repeat(32)]).unwrap();
    assert_ne!(first, second);
    assert_eq!(first.len(), 64);
}

#[test]
fn single_part_keeps_its_content_hash() {
    let hash = sha256_hex(b"ordinary demo bytes");
    assert_eq!(hash.len(), 64);
    assert_eq!(demo_source_sha256(&vec![hash.clone()]).unwrap(), hash);
}

#[test]
fn compound_hash_rejects_empty_and_invalid_series() {
    assert_eq!(
        detail(compound_demo_sha256(&Vec::new()).unwrap_err()),
        "demo segment set is empty"
    );
    assert_eq!(
        detail(compound_demo_sha256(&vec!["11".repeat(32), "zz".to_string()]).unwrap_err()),
        "demo segment contains an invalid content hash"
    );
    // A single part is kept as it is, even when it is not a hex digest.
    assert_eq!(compound_demo_sha256(&vec!["zz".to_string()]).unwrap(), "zz");
}

#[test]
fn sha256_of_known_input() {
    assert_eq!(
        sha256_hex(b"abc"),
        "ba7816bf8f01cfea414140de5dae2223b00361a396177a9cb410ff61f20015ad"
    );
}

#[test]
fn demo_extensions_are_recognised_ignoring_case() {
    assert_eq!(strip_demo_extension("Match-p1.DEM").as_deref(), Some("Match-p1"));
    assert_eq!(strip_demo_extension("faceit.dem.zst").as_deref(), Some("faceit"));
    assert_eq!(strip_demo_extension("notes.txt"), None);
    assert!(is_supported_demo_path(Some("a.Dem.Zst")));
    assert!(!is_supported_demo_path(None));
    assert!(is_zstd_demo_path(Some("A.DEM.ZST")));
    assert!(!is_zstd_demo_path(Some("a.dem")));
    assert_eq!(demo_stem(Some("round.dem.zst")), "round");
    assert_eq!(demo_stem(Some("readme")), "readme");
    assert_eq!(demo_stem(None), "demo");
}

#[test]
fn segment_names_split_base_and_part() {
    let seg = segment_file_name("Final Match -P12.dem").unwrap();
    assert_eq!(seg.base, "Final Match");
    assert_eq!(seg.part, 12);
    assert!(segment_file_name("match-p0.dem").is_none());
    assert!(segment_file_name("match-p.dem").is_none());
    assert!(segment_file_name("match-p1x.dem").is_none());
    assert!(segment_file_name("-p1.dem").is_none());
    assert!(segment_file_name("match-p99999999999.dem").is_none());
    assert!(segment_file_name("match.dem").is_none());
}

#[test]
fn resolves_series_from_listed_siblings() {
    let siblings = vec![
        candidate("/d", "match-p2.dem"),
        candidate("/d", "Match-p1.dem"),
        candidate("/d", "other-p1.dem"),
        candidate("/d", "notes.txt"),
    ];
    let from_p1 = resolve_demo_source("/d/Match-p1.dem", Some("Match-p1.dem"), true, &siblings).unwrap();
    let from_p2 = resolve_demo_source("/d/match-p2.dem", Some("match-p2.dem"), true, &siblings).unwrap();
    assert_eq!(from_p1, from_p2);
    assert_eq!(from_p1.logical_stem, "Match");
    assert_eq!(from_p1.parts.len(), 2);
    assert_eq!(from_p1.parts[0].part, 1);
    assert_eq!(from_p1.parts[0].path, "/d/Match-p1.dem");
    assert_eq!(from_p1.parts[1].part, 2);
    assert!(from_p1.is_segmented());
    assert_eq!(from_p1.primary_path(), "/d/Match-p1.dem");
    assert_eq!(from_p1.paths(), vec!["/d/Match-p1.dem", "/d/match-p2.dem"]);
}

#[test]
fn plain_demo_resolves_to_itself() {
    let source = resolve_demo_source("/d/ordinary.dem", Some("ordinary.dem"), true, &Vec::new()).unwrap();
    assert!(!source.is_segmented());
    assert_eq!(source.logical_stem, "ordinary");
    assert_eq!(source, single_source("/d/ordinary.dem", Some("ordinary.dem")));
}

#[test]
fn rejects_gapped_ambiguous_and_orphan_segments() {
    let gap = vec![candidate("/d", "match-p1.dem"), candidate("/d", "match-p3.dem")];
    let error = resolve_demo_source("/d/match-p1.dem", Some("match-p1.dem"), true, &gap).unwrap_err();
    assert!(detail(error).contains("missing p2"));

    let ambiguous = vec![
        candidate("/d", "match-p1.dem"),
        candidate("/d", "match-p1.dem.zst"),
        candidate("/d", "match-p2.dem"),
    ];
    let error = resolve_demo_source("/d/match-p1.dem", Some("match-p1.dem"), true, &ambiguous).unwrap_err();
    assert_eq!(
        detail(error),
        "ambiguous demo segment p1: /d/match-p1.dem and /d/match-p1.dem.zst"
    );

    let orphan = vec![candidate("/d", "match-p2.dem")];
    let error = resolve_demo_source("/d/match-p2.dem", Some("match-p2.dem"), true, &orphan).unwrap_err();
    assert_eq!(detail(error), "demo segment /d/match-p2.dem is missing its p1 sibling");

    let error = resolve_demo_source("/d/notes.txt", Some("notes.txt"), true, &Vec::new()).unwrap_err();
    assert_eq!(
        detail(error),
        "demo source does not exist or has an unsupported extension: /d/notes.txt"
    );
    assert!(resolve_demo_source("/d/gone.dem", Some("gone.dem"), false, &Vec::new()).is_err());
}

#[test]
fn expected_raw_part_hash_preserves_singleton_identity() {
    let siblings = vec![candidate("/d", "match-p1.dem"), candidate("/d", "match-p2.dem")];
    let source = resolve_demo_source("/d/match-p2.dem", Some("match-p2.dem"), true, &siblings).unwrap();
    let hashes = vec![sha256_hex(b"one"), sha256_hex(b"two")];
    let expected = sha256_hex(b"two").to_uppercase();
    let resolved = resolve_demo_source_for_sha256(
        "/d/match-p2.dem",
        Some("match-p2.dem"),
        source.clone(),
        &hashes,
        &expected,
    )
    .unwrap()
    .unwrap();
    assert_eq!(resolved.parts.len(), 1);
    assert_eq!(resolved.primary_path(), "/d/match-p2.dem");

    let compound = compound_demo_sha256(&hashes).unwrap();
    let whole = resolve_demo_source_for_sha256(
        "/d/match-p2.dem",
        Some("match-p2.dem"),
        source.clone(),
        &hashes,
        &compound,
    )
    .unwrap()
    .unwrap();
    assert_eq!(whole, source);

    let none = resolve_demo_source_for_sha256(
        "/d/match-p2.dem",
        Some("match-p2.dem"),
        source,
        &hashes,
        &sha256_hex(b"three"),
    )
    .unwrap();
    assert!(none.is_none());

    let fallback = unresolved_source_for_sha256(
        "/d/match-p2.dem",
        Some("match-p2.dem"),
        Error::InvalidDemo("gone".to_string()),
        &sha256_hex(b"two"),
        &sha256_hex(b"two"),
    )
    .unwrap()
    .unwrap();
    assert_eq!(fallback.parts.len(), 1);
    let refused = unresolved_source_for_sha256(
        "/d/match-p2.dem",
        Some("match-p2.dem"),
        Error::InvalidDemo("gone".to_string()),
        &sha256_hex(b"two"),
        &sha256_hex(b"one"),
    );
    assert_eq!(detail(refused.unwrap_err()), "gone");
}

#[test]
fn grouping_keeps_first_source_per_primary_path() {
    let a = single_source("C:\\Demos\\A.dem", Some("A.dem"));
    let a_again = DemoSourceSet {
        logical_stem: "again".to_string(),
        parts: vec![DemoSourcePart { part: 1, path: "c:/demos/a.dem".to_string() }],
    };
    let b = single_source("/x/b.dem", Some("b.dem"));
    let grouped = group_demo_sources(vec![b.clone(), a.clone(), a_again]);
    assert_eq!(grouped, vec![b, a]);
}

#[test]
fn part_metadata_sums_sizes_and_keeps_latest_time() {
    let parts = vec![
        PartMetadata { len: 10, modified_nanos: Some(5) },
        PartMetadata { len: 20, modified_nanos: None },
        PartMetadata { len: 30, modified_nanos: Some(-7) },
    ];
    let combined = combine_part_metadata(&parts).unwrap();
    assert_eq!(combined.size_bytes, 60);
    assert_eq!(combined.modified_nanos, Some(5));
    let too_big = vec![
        PartMetadata { len: u64::MAX, modified_nanos: None },
        PartMetadata { len: 1, modified_nanos: None },
    ];
    assert!(combine_part_metadata(&too_big).is_err());
}

fn round(min: i32, max: i32, end: i32, winner: u8) -> CompletedRound {
    CompletedRound {
        row_min_tick: min,
        row_max_tick: max,
        freeze_end_tick: min,
        round_end_tick: end,
        winner_side: winner,
        start_score_total: None,
    }
}

fn event(tick: i32, name: &str, winner: Option<u8>) -> ParsedGameEvent {
    ParsedGameEvent {
        tick,
        name: name.to_string(),
        winner_side: winner,
        ..ParsedGameEvent::default()
    }
}

#[test]
fn completed_round_helpers_find_rounds_by_tick() {
    let rounds = vec![(0, round(10, 40, 41, 2)), (1, round(50, 90, 91, 3))];
    assert_eq!(round_for_tick(55, &rounds).unwrap().winner_side, 3);
    assert!(round_for_tick(45, &rounds).is_none());
    assert!(tick_in_completed_round(10, &rounds));
    assert!(!tick_in_completed_round(95, &rounds));
}

#[test]
fn retained_events_keep_round_ends_with_their_winner() {
    let rounds = vec![(0, round(10, 40, 41, 2))];
    let events = vec![
        event(5, "round_announce_match_start", None),
        event(20, "player_death", None),
        event(41, "round_end", Some(2)),
        event(41, "round_end", Some(3)),
        event(45, "player_death", None),
    ];
    let kept = retained_events(
        events,
        &rounds,
        Some(event(6, "round_announce_match_start", None)),
        None,
    );
    let names: Vec<(i32, String)> = kept.iter().map(|e| (e.tick, e.name.clone())).collect();
    assert_eq!(
        names,
        vec![
            (20, "player_death".to_string()),
            (41, "round_end".to_string()),
            (6, "round_announce_match_start".to_string()),
        ]
    );
}

#[test]
fn modal_values_prefer_count_then_smaller_key() {
    assert_eq!(mode_score(&vec![(3, 2), (1, 2), (7, 1)]), Some(1));
    assert_eq!(mode_score(&vec![(3, 5), (1, 2)]), Some(3));
    assert_eq!(mode_score(&Vec::new()), None);
    let by_tick = vec![(10, vec![(4, 3), (5, 3)]), (20, vec![(6, 1)])];
    assert_eq!(modal_round_at_tick(&by_tick, 10), Some(4));
    assert_eq!(modal_round_at_tick(&by_tick, 15), None);
    assert_eq!(predecessor_round(&by_tick, 20), Some(4));
    assert_eq!(predecessor_round(&by_tick, 21), Some(6));
    assert_eq!(predecessor_round(&by_tick, 10), None);
}

#[test]
fn header_values_must_agree_when_both_are_known() {
    assert!(require_matching_optional(1, "patch version", Some(14_165), None).is_ok());
    let error = require_matching_optional(1, "patch version", Some(14_165), Some(14_166)).unwrap_err();
    assert_eq!(
        detail(error),
        "demo segment p2 patch version mismatch: \"14165\" != \"14166\""
    );
    assert!(require_matching_optional_ref(1, "server name", Some(" ESL "), Some("esl")).is_ok());
    let error = require_matching_optional_ref(2, "map", Some("de_mirage"), Some("de_anubis")).unwrap_err();
    assert_eq!(detail(error), "demo segment p3 map mismatch: \"de_mirage\" != \"de_anubis\"");
}

#[test]
fn tick_shift_refuses_out_of_range_results() {
    assert_eq!(checked_shift_tick(10, -4, 2).unwrap(), 6);
    let error = checked_shift_tick(i32::MAX, 1, 2).unwrap_err();
    assert_eq!(detail(error), "demo segment p2 tick rebasing exceeds the supported range");
}
