use demotracer_converter::model::{public_demo_path, ProjectileKind, Side, SubtickMode};

#[test]
fn public_demo_path_strips_local_directories() {
    assert_eq!(public_demo_path(r"C:\demos\match.dem"), "match.dem");
    assert_eq!(public_demo_path("/home/user/demos/match.dem"), "match.dem");
    assert_eq!(public_demo_path("match.dem"), "match.dem");
    assert_eq!(public_demo_path(""), "demo.dem");
}

#[test]
fn public_demo_path_skips_trailing_separators() {
    assert_eq!(public_demo_path("demos/match.dem/"), "match.dem");
    assert_eq!(public_demo_path("///"), "demo.dem");
}

#[test]
fn side_matches_engine_teams() {
    assert!(Side::T.matches_team(2));
    assert!(!Side::T.matches_team(3));
    assert!(Side::Ct.matches_team(3));
    assert!(Side::Both.matches_team(2) && Side::Both.matches_team(3));
    assert!(!Side::Both.matches_team(1));
    assert_eq!(Side::team_dir(2), "t");
    assert_eq!(Side::team_dir(3), "ct");
}

#[test]
fn side_parses_known_names_and_rejects_others() {
    assert_eq!(Side::from_str("CT").unwrap(), Side::Ct);
    assert_eq!(Side::from_str("t").unwrap(), Side::T);
    assert_eq!(Side::from_str("Both").unwrap(), Side::Both);
    assert!(Side::from_str("spectator").is_err());
    assert_eq!(SubtickMode::from_str("OFF").unwrap(), SubtickMode::Off);
    assert!(SubtickMode::from_str("sometimes").is_err());
}

#[test]
fn projectile_codes_round_trip() {
    for code in 0u8..=8 {
        let kind = ProjectileKind::from_u8(code);
        assert_eq!(ProjectileKind::from_u8(kind.to_u8()).to_u8(), kind.to_u8());
    }
    assert_eq!(ProjectileKind::from_grenade_type("CSmokeGrenadeProjectile").to_u8(), ProjectileKind::Smoke.to_u8());
    assert_eq!(
        ProjectileKind::weapon_def_index_from_grenade_type("CSmokeGrenadeProjectile"),
        ProjectileKind::Smoke.weapon_def_index()
    );
}

#[test]
fn default_player_scoreboard_is_empty() {
    let scoreboard = demotracer_converter::model::ReplayPlayerScoreboard::default();
    assert!(scoreboard.is_empty());
}
