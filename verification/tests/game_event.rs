use demotracer_converter::event_text::{
    infer_chat_scope, is_supported_chat_message, normalize_agent_skin, normalize_chat_message_name,
    normalize_chat_text, normalize_crosshair_code, normalize_custom_name,
};
use demotracer_converter::game_event::{
    event_field_bool, event_field_i32, event_field_string, event_field_u64, event_steam_id,
    event_ticks, event_winner_side, parse_game_events, parse_i32, parse_u64, parsed_game_event,
    EventField, EventValue, RawGameEvent,
};

fn field(name: &str, data: EventValue) -> EventField {
    EventField {
        name: name.to_string(),
        data: Some(data),
    }
}

fn event(name: &str, tick: i32, fields: Vec<EventField>) -> RawGameEvent {
    RawGameEvent {
        name: name.to_string(),
        tick,
        fields,
    }
}

fn text(value: &str) -> EventValue {
    EventValue::Text(value.to_string())
}

#[test]
fn round_winner_accepts_numeric_and_named_sides() {
    fn round_end(data: EventValue) -> RawGameEvent {
        event("round_end", 100, vec![field("winner", data)])
    }

    assert_eq!(event_winner_side(&round_end(EventValue::I32(2))), Some(2));
    assert_eq!(
        event_winner_side(&round_end(text("Counter-Terrorists"))),
        Some(3)
    );
    assert_eq!(event_winner_side(&round_end(EventValue::I32(1))), None);
}

#[test]
fn round_winner_reads_text_numbers_and_short_names() {
    let round_end = |data: EventValue| event("round_end", 1, vec![field("winner", data)]);
    assert_eq!(event_winner_side(&round_end(text(" 3 "))), Some(3));
    assert_eq!(event_winner_side(&round_end(text("2"))), Some(2));
    assert_eq!(event_winner_side(&round_end(text("T"))), Some(2));
    assert_eq!(event_winner_side(&round_end(text("counter_terrorist"))), Some(3));
    assert_eq!(event_winner_side(&round_end(text("5"))), None);
    assert_eq!(event_winner_side(&round_end(EventValue::U64(3))), Some(3));
    assert_eq!(event_winner_side(&event("round_end", 1, Vec::new())), None);
}

#[test]
fn integer_parsing_follows_std() {
    assert_eq!(parse_i32("-2147483648"), Some(i32::MIN));
    assert_eq!(parse_i32("+2147483647"), Some(i32::MAX));
    assert_eq!(parse_i32("2147483648"), None);
    assert_eq!(parse_i32("-"), None);
    assert_eq!(parse_i32(""), None);
    assert_eq!(parse_i32(" 1"), None);
    assert_eq!(parse_i32("007"), Some(7));
    assert_eq!(parse_u64("18446744073709551615"), Some(u64::MAX));
    assert_eq!(parse_u64("18446744073709551616"), None);
    assert_eq!(parse_u64("-1"), None);
    assert_eq!(parse_u64("+42"), Some(42));
    for s in ["0", "-17", "12a", "99999999999", "+", "+-1"] {
        assert_eq!(parse_i32(s), s.parse::<i32>().ok());
        assert_eq!(parse_u64(s), s.parse::<u64>().ok());
    }
}

#[test]
fn field_reads_convert_between_kinds() {
    let e = event(
        "x",
        1,
        vec![
            field("a", EventValue::U32(7)),
            field("a", EventValue::I32(9)),
            field("b", EventValue::I32(-4)),
            field("c", text(" Yes ")),
            field("d", EventValue::U64(76561198000000001)),
            field("e", EventValue::F32Bits(0x3f80_0000)),
            EventField {
                name: "f".to_string(),
                data: None,
            },
        ],
    );
    assert_eq!(event_field_i32(&e, "a"), Some(7));
    assert_eq!(event_field_u64(&e, "b"), None);
    assert_eq!(event_field_i32(&e, "b"), Some(-4));
    assert_eq!(event_field_string(&e, "b").as_deref(), Some("-4"));
    assert_eq!(event_field_bool(&e, "c"), Some(true));
    assert_eq!(event_field_bool(&e, "b"), Some(true));
    assert_eq!(event_field_i32(&e, "d"), None);
    assert_eq!(event_field_string(&e, "d").as_deref(), Some("76561198000000001"));
    assert_eq!(event_field_i32(&e, "e"), None);
    assert_eq!(event_field_i32(&e, "f"), None);
    assert_eq!(event_field_i32(&e, "missing"), None);
}

#[test]
fn steam_id_prefers_the_user_field() {
    let e = event(
        "weapon_fire",
        1,
        vec![
            field("attacker_steamid", EventValue::U64(3)),
            field("steamid", text("2")),
        ],
    );
    assert_eq!(event_steam_id(&e), Some(2));
}

#[test]
fn chat_and_server_messages_are_kept_only_with_text() {
    let chat = event(
        "chat_message",
        50,
        vec![
            field("chat_message", text("  gl hf\u{7}  ")),
            field("chat_message_name", text("#Cstrike_Chat_T")),
            field("userid", EventValue::U64(5)),
        ],
    );
    let parsed = parsed_game_event(&chat).expect("team chat is kept");
    assert_eq!(parsed.chat_text.as_deref(), Some("gl hf"));
    assert_eq!(parsed.chat_scope.as_deref(), Some("team"));
    assert_eq!(parsed.chat_message_name.as_deref(), Some("#Cstrike_Chat_T"));
    assert_eq!(parsed.victim_steam_id, Some(5));
    assert_eq!(parsed.tick, 50);

    let empty = event("chat_message", 1, vec![field("chat_message", text("   "))]);
    assert!(parsed_game_event(&empty).is_none());

    let unnamed = event("chat_message", 1, vec![field("chat_message", text("hi"))]);
    assert!(parsed_game_event(&unnamed).is_none());
    let flagged = event(
        "chat_message",
        1,
        vec![field("chat_message", text("hi")), field("chat", EventValue::Bool(true))],
    );
    assert_eq!(parsed_game_event(&flagged).unwrap().chat_scope.as_deref(), Some("all"));

    let server = event("server_message", 2, vec![field("server_message", text("restart"))]);
    let parsed = parsed_game_event(&server).expect("server message is kept");
    assert_eq!(parsed.chat_scope.as_deref(), Some("server"));
}

#[test]
fn unsupported_events_are_dropped_and_fields_fall_back() {
    assert!(parsed_game_event(&event("player_footstep", 1, Vec::new())).is_none());
    let hurt = event(
        "player_hurt",
        9,
        vec![
            field("attacker", EventValue::U64(11)),
            field("weapon", text("ak47")),
            field("damage", EventValue::I32(27)),
            field("health", EventValue::I32(73)),
            field("weapon_id", text("7")),
        ],
    );
    let parsed = parsed_game_event(&hurt).unwrap();
    assert_eq!(parsed.name, "player_hurt");
    assert_eq!(parsed.attacker_steam_id, Some(11));
    assert_eq!(parsed.item_name.as_deref(), Some("ak47"));
    assert_eq!(parsed.damage, Some(27));
    assert_eq!(parsed.health, Some(73));
    assert_eq!(parsed.weapon_def_index, Some(7));
    assert_eq!(parsed.winner_side, None);
    assert_eq!(parsed.chat_scope, None);

    let events = vec![
        event("round_freeze_end", 100, Vec::new()),
        event("player_footstep", 101, Vec::new()),
        event("round_end", 900, vec![field("winner", text("CT"))]),
        event("round_freeze_end", 1_000, Vec::new()),
    ];
    let parsed = parse_game_events(&events);
    assert_eq!(parsed.len(), 3);
    assert_eq!(parsed[1].winner_side, Some(3));
    assert_eq!(event_ticks(&events, "round_freeze_end"), vec![100, 1_000]);
    assert_eq!(event_ticks(&events, "round_end"), vec![900]);
}

#[test]
fn chat_names_and_scopes_are_normalized() {
    assert_eq!(normalize_chat_text("\u{1}\u{2}").as_deref(), None);
    assert_eq!(
        normalize_chat_text(&"x".repeat(300)).map(|s| s.chars().count()),
        Some(256)
    );
    assert_eq!(
        normalize_chat_message_name(" #Cstrike Chat-All! ").as_deref(),
        Some("#CstrikeChatAll")
    );
    assert_eq!(normalize_chat_message_name("!!!").as_deref(), None);
    assert!(is_supported_chat_message(Some("#SFUI_ServerNotice"), None));
    assert!(!is_supported_chat_message(Some("#Radio"), Some(false)));
    assert!(is_supported_chat_message(None, Some(true)));
    assert_eq!(infer_chat_scope(Some("##Cstrike_Chat_AllDead")), "all");
    assert_eq!(infer_chat_scope(Some("Cstrike_Chat_CT_Loc")), "team");
    assert_eq!(infer_chat_scope(Some("admin_say")), "server");
    assert_eq!(infer_chat_scope(None), "all");
}

#[test]
fn player_texts_are_normalized() {
    assert_eq!(
        normalize_crosshair_code(" CSGO-abcde ").as_deref(),
        Some("CSGO-abcde")
    );
    assert_eq!(normalize_crosshair_code(&"x".repeat(129)), None);
    assert_eq!(normalize_crosshair_code(&"é".repeat(65)), None);
    assert_eq!(normalize_crosshair_code(&"é".repeat(64)).map(|s| s.len()), Some(128));
    assert_eq!(
        normalize_agent_skin(" TM_Phoenix_Variant_A ").as_deref(),
        Some("tm_phoenix_variant_a")
    );
    assert_eq!(normalize_agent_skin("bad-skin"), None);
    assert_eq!(normalize_agent_skin("   "), None);
    assert_eq!(
        normalize_custom_name("\0\0 Dove\u{7}1e \0").as_deref(),
        Some("Dove1e")
    );
    assert_eq!(normalize_custom_name("\0\0"), None);
    assert_eq!(
        normalize_custom_name(&"n".repeat(200)).map(|s| s.chars().count()),
        Some(128)
    );
}
