//! Round-level replay metadata: the scoreboard of a round and of a player,
//! and the chat messages of the round.
use crate::cosmetics::{clean_text, spec_clean_text};
use crate::model::{ParsedGameEvent, ReplayChatMessage, ReplayPlayerScoreboard, ReplayRoundScoreboard};
use crate::text::{
    ascii_lower, chars_of, lemma_lex_irreflexive, lemma_lex_total, lemma_lex_transitive, lex_compare, lex_lt,
    lower_vec, string_from_chars, string_of, trim, vec_eq, vec_trim,
};
use crate::weapon_evidence::opt_str_view;
use vstd::prelude::*;

verus! {

/// The scoreboard, naming, inventory and economy fields of one sampled player tick.
#[derive(Clone, Debug)]
pub struct RoundRow {
    pub tick: i32,
    pub steam_id: u64,
    pub name: String,
    pub team_num: u8,
    pub is_alive: bool,
    pub player_user_id: Option<i32>,
    pub player_entity_id: Option<i32>,
    pub player_color: Option<String>,
    pub scoreboard_score: Option<i32>,
    pub scoreboard_mvps: Option<u32>,
    pub scoreboard_kills: Option<u32>,
    pub scoreboard_deaths: Option<u32>,
    pub scoreboard_assists: Option<u32>,
    pub team_rounds_total: Option<u32>,
    pub team_clan_name: Option<String>,
    pub team_name: Option<String>,
    pub item_def_idx: i32,
    pub inventory_as_ids: Vec<i32>,
    pub armor_value: u32,
    pub has_helmet: bool,
    pub has_defuser: bool,
    pub account_balance: Option<u32>,
    pub round_start_equip_value: u32,
    pub equipment_value_total: u32,
    pub money_saved_total: u32,
    pub cash_spent_this_round: u32,
}

// ---------------------------------------------------------------------------
// Team names and round score
// ---------------------------------------------------------------------------

/// A name that is not blank, trimmed.
pub open spec fn nonblank(o: Option<String>) -> Option<Seq<char>> {
    match o {
        Some(s) => if trim(s@).len() > 0 {
            Some(trim(s@))
        } else {
            None
        },
        None => None,
    }
}

fn nonblank_of(o: &Option<String>) -> (r: Option<String>)
    ensures
        opt_str_view(r) == nonblank(*o),
{
    match o {
        Some(s) => {
            let chars = chars_of(s.as_str());
            let t = vec_trim(&chars);
            if t.len() > 0 {
                Some(string_from_chars(&t))
            } else {
                None
            }
        },
        None => None,
    }
}

/// The team name a row reports: the clan name, else the team name; blank
/// names do not count.
pub open spec fn spec_team_name(row: RoundRow) -> Option<Seq<char>> {
    match nonblank(row.team_clan_name) {
        Some(t) => Some(t),
        None => nonblank(row.team_name),
    }
}

pub fn clean_replay_team_name(row: &RoundRow) -> (r: Option<String>)
    ensures
        opt_str_view(r) == spec_team_name(*row),
{
    match nonblank_of(&row.team_clan_name) {
        Some(t) => Some(t),
        None => nonblank_of(&row.team_name),
    }
}

/// The first score the rows of a side report.
pub open spec fn first_score(rows: Seq<RoundRow>, side: u8) -> Option<u32>
    decreases rows.len(),
{
    if rows.len() == 0 {
        None
    } else {
        match first_score(rows.drop_last(), side) {
            Some(s) => Some(s),
            None => if rows.last().team_num == side {
                rows.last().team_rounds_total
            } else {
                None
            },
        }
    }
}

/// The first team name the rows of a side report.
pub open spec fn first_team_name(rows: Seq<RoundRow>, side: u8) -> Option<Seq<char>>
    decreases rows.len(),
{
    if rows.len() == 0 {
        None
    } else {
        match first_team_name(rows.drop_last(), side) {
            Some(s) => Some(s),
            None => if rows.last().team_num == side {
                spec_team_name(rows.last())
            } else {
                None
            },
        }
    }
}

/// The round's scoreboard: the first score and team name each side's rows
/// report; `None` unless both sides report a score.
pub fn replay_round_scoreboard(round_rows: &[RoundRow]) -> (r: Option<ReplayRoundScoreboard>)
    ensures
        match r {
            Some(s) => {
                &&& first_score(round_rows@, 2) == Some(s.t_score)
                &&& first_score(round_rows@, 3) == Some(s.ct_score)
                &&& opt_str_view(s.t_team_name) == first_team_name(round_rows@, 2)
                &&& opt_str_view(s.ct_team_name) == first_team_name(round_rows@, 3)
            },
            None => first_score(round_rows@, 2) is None || first_score(round_rows@, 3) is None,
        },
{
    let mut t_score: Option<u32> = None;
    let mut ct_score: Option<u32> = None;
    let mut t_team_name: Option<String> = None;
    let mut ct_team_name: Option<String> = None;
    let mut k: usize = 0;
    while k < round_rows.len()
        invariant
            k <= round_rows.len(),
            t_score == first_score(round_rows@.take(k as int), 2),
            ct_score == first_score(round_rows@.take(k as int), 3),
            opt_str_view(t_team_name) == first_team_name(round_rows@.take(k as int), 2),
            opt_str_view(ct_team_name) == first_team_name(round_rows@.take(k as int), 3),
        decreases round_rows.len() - k,
    {
        let row = &round_rows[k];
        proof {
            assert(round_rows@.take(k + 1).drop_last() =~= round_rows@.take(k as int));
            assert(round_rows@.take(k + 1).last() == round_rows@[k as int]);
        }
        if row.team_num == 2 {
            if t_score.is_none() {
                t_score = row.team_rounds_total;
            }
            if t_team_name.is_none() {
                t_team_name = clean_replay_team_name(row);
            }
        } else if row.team_num == 3 {
            if ct_score.is_none() {
                ct_score = row.team_rounds_total;
            }
            if ct_team_name.is_none() {
                ct_team_name = clean_replay_team_name(row);
            }
        }
        k = k + 1;
    }
    proof {
        assert(round_rows@.take(round_rows@.len() as int) =~= round_rows@);
    }
    match (t_score, ct_score) {
        (Some(t), Some(ct)) => Some(ReplayRoundScoreboard { t_score: t, ct_score: ct, t_team_name, ct_team_name }),
        _ => None,
    }
}

// ---------------------------------------------------------------------------
// Player scoreboard
// ---------------------------------------------------------------------------

/// A player color the replay knows: trimmed and lower-cased, one of five names.
pub open spec fn spec_player_color(value: Option<Seq<char>>) -> Option<Seq<char>> {
    match value {
        Some(v) => {
            let t = ascii_lower(trim(v));
            if t == "blue"@ || t == "green"@ || t == "yellow"@ || t == "orange"@ || t == "purple"@ {
                Some(t)
            } else {
                None
            }
        },
        None => None,
    }
}

pub fn clean_replay_player_color(value: Option<&str>) -> (r: Option<String>)
    ensures
        opt_str_view(r) == spec_player_color(
            match value {
                Some(v) => Some(v@),
                None => None,
            },
        ),
{
    let v = match value {
        Some(v) => v,
        None => return None,
    };
    let chars = chars_of(v);
    let trimmed = vec_trim(&chars);
    let t = lower_vec(&trimmed);
    let known = vec_eq(&t, &chars_of("blue")) || vec_eq(&t, &chars_of("green")) || vec_eq(&t, &chars_of("yellow"))
        || vec_eq(&t, &chars_of("orange")) || vec_eq(&t, &chars_of("purple"));
    if known {
        Some(string_from_chars(&t))
    } else {
        None
    }
}

/// The row carries some scoreboard field.
pub open spec fn has_scoreboard(row: RoundRow) -> bool {
    row.player_user_id is Some || row.player_entity_id is Some || spec_player_color(opt_str_view(row.player_color))
        is Some || row.scoreboard_score is Some || row.scoreboard_kills is Some || row.scoreboard_deaths is Some
        || row.scoreboard_assists is Some || row.scoreboard_mvps is Some
}

/// The first row that carries a scoreboard field.
pub open spec fn first_scoreboard_row(rows: Seq<RoundRow>) -> Option<int>
    decreases rows.len(),
{
    if rows.len() == 0 {
        None
    } else {
        match first_scoreboard_row(rows.drop_last()) {
            Some(i) => Some(i),
            None => if has_scoreboard(rows.last()) {
                Some(rows.len() - 1)
            } else {
                None
            },
        }
    }
}

proof fn lemma_first_scoreboard_row_bound(rows: Seq<RoundRow>)
    ensures
        first_scoreboard_row(rows) matches Some(i) ==> 0 <= i < rows.len(),
    decreases rows.len(),
{
    if rows.len() > 0 {
        lemma_first_scoreboard_row_bound(rows.drop_last());
    }
}

/// The scoreboard of row `row`.
pub open spec fn scoreboard_of(s: ReplayPlayerScoreboard, row: RoundRow) -> bool {
    &&& s.player_user_id == row.player_user_id
    &&& s.player_entity_id == row.player_entity_id
    &&& opt_str_view(s.player_color) == spec_player_color(opt_str_view(row.player_color))
    &&& s.score == row.scoreboard_score
    &&& s.kills == row.scoreboard_kills
    &&& s.deaths == row.scoreboard_deaths
    &&& s.assists == row.scoreboard_assists
    &&& s.mvps == row.scoreboard_mvps
}

/// A player's scoreboard: that of the first row that carries any field.
pub fn replay_player_scoreboard(rows: &[RoundRow]) -> (r: Option<ReplayPlayerScoreboard>)
    ensures
        match first_scoreboard_row(rows@) {
            Some(i) => 0 <= i < rows@.len() && (r matches Some(s) && scoreboard_of(s, rows@[i])),
            None => r is None,
        },
{
    let mut k: usize = 0;
    while k < rows.len()
        invariant
            k <= rows.len(),
            first_scoreboard_row(rows@.take(k as int)) is None,
        decreases rows.len() - k,
    {
        let row = &rows[k];
        proof {
            assert(rows@.take(k + 1).drop_last() =~= rows@.take(k as int));
            assert(rows@.take(k + 1).last() == rows@[k as int]);
        }
        let color = match &row.player_color {
            Some(c) => clean_replay_player_color(Some(c.as_str())),
            None => clean_replay_player_color(None),
        };
        let scoreboard = ReplayPlayerScoreboard {
            player_user_id: row.player_user_id,
            player_entity_id: row.player_entity_id,
            player_color: color,
            score: row.scoreboard_score,
            kills: row.scoreboard_kills,
            deaths: row.scoreboard_deaths,
            assists: row.scoreboard_assists,
            mvps: row.scoreboard_mvps,
        };
        if !scoreboard.is_empty() {
            proof {
                lemma_first_scoreboard_row_prefix(rows@, k + 1);
            }
            return Some(scoreboard);
        }
        k = k + 1;
    }
    proof {
        assert(rows@.take(rows@.len() as int) =~= rows@);
    }
    None
}

/// A row found in a prefix is the first row of the whole.
proof fn lemma_first_scoreboard_row_prefix(rows: Seq<RoundRow>, n: int)
    requires
        0 <= n <= rows.len(),
        first_scoreboard_row(rows.take(n)) is Some,
    ensures
        first_scoreboard_row(rows) == first_scoreboard_row(rows.take(n)),
    decreases rows.len() - n,
{
    if n < rows.len() {
        assert(rows.take(n + 1).drop_last() =~= rows.take(n));
        lemma_first_scoreboard_row_prefix(rows, n + 1);
    } else {
        assert(rows.take(n) =~= rows);
    }
}

// ---------------------------------------------------------------------------
// Chat
// ---------------------------------------------------------------------------

/// The replay scope of a chat message: `team`, `server` (also for `admin`),
/// else `all`; a missing scope is `all`.
pub open spec fn spec_chat_scope(value: Option<Seq<char>>) -> Seq<char> {
    let t = ascii_lower(
        trim(
            match value {
                Some(v) => v,
                None => "all"@,
            },
        ),
    );
    if t == "team"@ {
        "team"@
    } else if t == "server"@ || t == "admin"@ {
        "server"@
    } else {
        "all"@
    }
}

pub fn clean_replay_chat_scope(value: Option<&str>) -> (r: String)
    ensures
        r@ == spec_chat_scope(
            match value {
                Some(v) => Some(v@),
                None => None,
            },
        ),
{
    let raw = match value {
        Some(v) => chars_of(v),
        None => chars_of("all"),
    };
    let trimmed = vec_trim(&raw);
    let t = lower_vec(&trimmed);
    if vec_eq(&t, &chars_of("team")) {
        string_of("team")
    } else if vec_eq(&t, &chars_of("server")) || vec_eq(&t, &chars_of("admin")) {
        string_of("server")
    } else {
        string_of("all")
    }
}

/// Chat text for the replay: cleaned, at most 256 characters.
pub fn clean_replay_chat_text(value: &str) -> (r: Option<String>)
    ensures
        opt_str_view(r) == spec_clean_text(value@, 256),
{
    clean_text(value, 256)
}

pub type ChatKey = (i32, u64, Seq<char>, Seq<char>);

/// The order of chat messages: by tick, sender, scope, then text.
pub open spec fn chat_key_lt(a: ChatKey, b: ChatKey) -> bool {
    a.0 < b.0 || (a.0 == b.0 && (a.1 < b.1 || (a.1 == b.1 && (lex_lt(a.2, b.2) || (a.2 == b.2 && lex_lt(a.3, b.3))))))
}

proof fn lemma_chat_key_order(a: ChatKey, b: ChatKey, c: ChatKey)
    ensures
        !chat_key_lt(a, a),
        a == b || chat_key_lt(a, b) || chat_key_lt(b, a),
        !(chat_key_lt(a, b) && chat_key_lt(b, a)),
        chat_key_lt(a, b) && chat_key_lt(b, c) ==> chat_key_lt(a, c),
{
    lemma_lex_irreflexive(a.2);
    lemma_lex_irreflexive(a.3);
    lemma_lex_total(a.2, b.2);
    lemma_lex_total(a.3, b.3);
    if chat_key_lt(a, b) && chat_key_lt(b, c) {
        if a.0 == b.0 && b.0 == c.0 && a.1 == b.1 && b.1 == c.1 {
            if lex_lt(a.2, b.2) && lex_lt(b.2, c.2) {
                lemma_lex_transitive(a.2, b.2, c.2);
            }
            if a.2 == b.2 && b.2 == c.2 && lex_lt(a.3, b.3) && lex_lt(b.3, c.3) {
                lemma_lex_transitive(a.3, b.3, c.3);
            }
        }
    }
}

pub open spec fn message_key(m: ReplayChatMessage) -> ChatKey {
    (m.tick, m.sender_steam_id, m.scope@, m.text@)
}

/// The chat message an event gives in the tick range: cleaned text, its
/// scope, and a sender (none only for server messages).
pub open spec fn chat_key(event: ParsedGameEvent, start_tick: i32, end_tick: i32) -> Option<ChatKey> {
    if event.tick < start_tick || event.tick > end_tick {
        None
    } else {
        match event.chat_text {
            Some(t) => match spec_clean_text(t@, 256) {
                Some(text) => {
                    let scope = spec_chat_scope(opt_str_view(event.chat_scope));
                    let sender: u64 = match event.user_steam_id {
                        Some(s) => s,
                        None => 0,
                    };
                    if sender == 0 && scope != "server"@ {
                        None
                    } else {
                        Some((event.tick, sender, scope, text))
                    }
                },
                None => None,
            },
            None => None,
        }
    }
}

/// The first non-blank name the rows give a player, trimmed.
pub open spec fn first_name(rows: Seq<RoundRow>, steam: u64) -> Option<Seq<char>>
    decreases rows.len(),
{
    if rows.len() == 0 {
        None
    } else {
        match first_name(rows.drop_last(), steam) {
            Some(n) => Some(n),
            None => if steam != 0 && rows.last().steam_id == steam && trim(rows.last().name@).len() > 0 {
                Some(trim(rows.last().name@))
            } else {
                None
            },
        }
    }
}

fn first_name_of(rows: &[RoundRow], steam: u64) -> (r: Option<String>)
    ensures
        opt_str_view(r) == first_name(rows@, steam),
{
    let mut found: Option<String> = None;
    let mut k: usize = 0;
    while k < rows.len()
        invariant
            k <= rows.len(),
            opt_str_view(found) == first_name(rows@.take(k as int), steam),
        decreases rows.len() - k,
    {
        proof {
            assert(rows@.take(k + 1).drop_last() =~= rows@.take(k as int));
            assert(rows@.take(k + 1).last() == rows@[k as int]);
        }
        if found.is_none() && steam != 0 && rows[k].steam_id == steam {
            let chars = chars_of(rows[k].name.as_str());
            let t = vec_trim(&chars);
            if t.len() > 0 {
                found = Some(string_from_chars(&t));
            }
        }
        k = k + 1;
    }
    proof {
        assert(rows@.take(rows@.len() as int) =~= rows@);
    }
    found
}

fn compare_messages(a: &ReplayChatMessage, b: &ReplayChatMessage) -> (r: i8)
    ensures
        (r < 0) == chat_key_lt(message_key(*a), message_key(*b)),
        (r == 0) == (message_key(*a) == message_key(*b)),
        (r > 0) == chat_key_lt(message_key(*b), message_key(*a)),
{
    proof {
        lemma_chat_key_order(message_key(*a), message_key(*b), message_key(*a));
    }
    if a.tick != b.tick {
        return if a.tick < b.tick {
            -1
        } else {
            1
        };
    }
    if a.sender_steam_id != b.sender_steam_id {
        return if a.sender_steam_id < b.sender_steam_id {
            -1
        } else {
            1
        };
    }
    let c = lex_compare(&chars_of(a.scope.as_str()), &chars_of(b.scope.as_str()));
    if c != 0 {
        return c;
    }
    lex_compare(&chars_of(a.text.as_str()), &chars_of(b.text.as_str()))
}

pub open spec fn chat_sorted(ms: Seq<ReplayChatMessage>) -> bool {
    forall|a: int, b: int| 0 <= a < b < ms.len() ==> chat_key_lt(message_key(#[trigger] ms[a]), message_key(#[trigger] ms[b]))
}

/// Some message of `ms` has key `k`.
pub open spec fn lists_key(ms: Seq<ReplayChatMessage>, k: ChatKey) -> bool {
    exists|i: int| 0 <= i < ms.len() && message_key(#[trigger] ms[i]) == k
}

/// One of the first `n` events gives a message with key `k`.
pub open spec fn events_give(events: Seq<ParsedGameEvent>, n: int, start_tick: i32, end_tick: i32, k: ChatKey) -> bool {
    exists|q: int| 0 <= q < n && chat_key(#[trigger] events[q], start_tick, end_tick) == Some(k)
}

/// Adds a message unless one with the same key is listed, keeping the order.
fn insert_message(out: &mut Vec<ReplayChatMessage>, m: ReplayChatMessage)
    requires
        chat_sorted(old(out)@),
    ensures
        chat_sorted(final(out)@),
        forall|k: ChatKey| #[trigger] lists_key(final(out)@, k) <==> (lists_key(old(out)@, k) || k == message_key(m)),
        forall|i: int| 0 <= i < final(out)@.len() ==> (#[trigger] final(out)@[i] == m || exists|j: int| 0 <= j < old(out)@.len() && old(out)@[j] == final(out)@[i]),
{
    let mut p: usize = 0;
    while p < out.len() && compare_messages(&out[p], &m) < 0
        invariant
            p <= out@.len(),
            forall|a: int| 0 <= a < p ==> chat_key_lt(message_key(#[trigger] out@[a]), message_key(m)),
        decreases out.len() - p,
    {
        p = p + 1;
    }
    if p < out.len() && compare_messages(&out[p], &m) == 0 {
        proof {
            assert forall|k: ChatKey| #[trigger] lists_key(out@, k) <==> (lists_key(out@, k) || k == message_key(m)) by {
                if k == message_key(m) {
                    assert(message_key(out@[p as int]) == k);
                }
            }
            assert forall|i: int| 0 <= i < out@.len() implies (#[trigger] out@[i] == m || exists|j: int| 0 <= j < out@.len() && out@[j] == out@[i]) by {
                assert(out@[i] == out@[i]);
            }
        }
        return;
    }
    let ghost before = out@;
    proof {
        if p < before.len() {
            lemma_chat_key_order(message_key(before[p as int]), message_key(m), message_key(m));
            assert(chat_key_lt(message_key(m), message_key(before[p as int])));
        }
    }
    out.insert(p, m);
    proof {
        assert forall|a: int, b: int| 0 <= a < b < out@.len() implies chat_key_lt(message_key(#[trigger] out@[a]), message_key(#[trigger] out@[b])) by {
            if b < p {
            } else if a < p && b == p {
            } else if a < p {
                assert(out@[b] == before[b - 1]);
                if a < b - 1 {
                    assert(chat_key_lt(message_key(before[a]), message_key(before[b - 1])));
                }
            } else if a == p {
                assert(out@[b] == before[b - 1]);
                if b - 1 > p {
                    assert(chat_key_lt(message_key(before[p as int]), message_key(before[b - 1])));
                    lemma_chat_key_order(message_key(m), message_key(before[p as int]), message_key(before[b - 1]));
                }
            } else {
                assert(out@[a] == before[a - 1]);
                assert(out@[b] == before[b - 1]);
            }
        }
        assert forall|k: ChatKey| #[trigger] lists_key(out@, k) <==> (lists_key(before, k) || k == message_key(m)) by {
            if lists_key(out@, k) {
                let i = choose|i: int| 0 <= i < out@.len() && message_key(#[trigger] out@[i]) == k;
                if i < p {
                    assert(before[i] == out@[i]);
                } else if i > p {
                    assert(before[i - 1] == out@[i]);
                }
            }
            if lists_key(before, k) {
                let i = choose|i: int| 0 <= i < before.len() && message_key(#[trigger] before[i]) == k;
                if i < p {
                    assert(out@[i] == before[i]);
                } else {
                    assert(out@[i + 1] == before[i]);
                }
            }
            if k == message_key(m) {
                assert(out@[p as int] == m);
            }
        }
        assert forall|i: int| 0 <= i < out@.len() implies (#[trigger] out@[i] == m || exists|j: int| 0 <= j < before.len() && before[j] == out@[i]) by {
            if i < p {
                assert(before[i] == out@[i]);
            } else if i > p {
                assert(before[i - 1] == out@[i]);
            }
        }
    }
}

/// The chat messages of a round: the events in the tick range that carry
/// text, each once by tick, sender, scope and text, in that order, with the
/// sender's name from the round's rows.
pub fn replay_chat_messages(events: &Vec<ParsedGameEvent>, start_tick: i32, end_tick: i32, round_rows: &[RoundRow]) -> (r:
    Vec<ReplayChatMessage>)
    ensures
        chat_sorted(r@),
        forall|k: ChatKey| #[trigger] lists_key(r@, k) <==> events_give(events@, events@.len() as int, start_tick, end_tick, k),
        forall|i: int| 0 <= i < r@.len() ==> opt_str_view((#[trigger] r@[i]).sender_name) == first_name(round_rows@, r@[i].sender_steam_id),
{
    let mut out: Vec<ReplayChatMessage> = Vec::new();
    let mut j: usize = 0;
    while j < events.len()
        invariant
            j <= events@.len(),
            chat_sorted(out@),
            forall|k: ChatKey| #[trigger] lists_key(out@, k) <==> events_give(events@, j as int, start_tick, end_tick, k),
            forall|i: int| 0 <= i < out@.len() ==> opt_str_view((#[trigger] out@[i]).sender_name) == first_name(round_rows@, out@[i].sender_steam_id),
        decreases events.len() - j,
    {
        let event = &events[j];
        let ghost before = out@;
        let mut message: Option<ReplayChatMessage> = None;
        if event.tick >= start_tick && event.tick <= end_tick {
            if let Some(raw) = &event.chat_text {
                if let Some(text) = clean_replay_chat_text(raw.as_str()) {
                    let scope = match &event.chat_scope {
                        Some(s) => clean_replay_chat_scope(Some(s.as_str())),
                        None => clean_replay_chat_scope(None),
                    };
                    let sender: u64 = match event.user_steam_id {
                        Some(s) => s,
                        None => 0,
                    };
                    let server = vec_eq(&chars_of(scope.as_str()), &chars_of("server"));
                    if sender != 0 || server {
                        let sender_name = first_name_of(round_rows, sender);
                        message = Some(ReplayChatMessage { tick: event.tick, sender_steam_id: sender, sender_name, scope, text });
                    }
                }
            }
        }
        proof {
            if message is Some {
                assert(chat_key(events@[j as int], start_tick, end_tick) == Some(message_key(message->0)));
            } else {
                assert(chat_key(events@[j as int], start_tick, end_tick) is None);
            }
        }
        match message {
            Some(m) => {
                let ghost mk = message_key(m);
                let ghost mm = m;
                insert_message(&mut out, m);
                proof {
                    assert forall|k: ChatKey| #[trigger] lists_key(out@, k) <==> events_give(events@, j + 1, start_tick, end_tick, k) by {
                        assert(lists_key(before, k) <==> events_give(events@, j as int, start_tick, end_tick, k));
                        if events_give(events@, j + 1, start_tick, end_tick, k) {
                            let q = choose|q: int| 0 <= q < j + 1 && chat_key(#[trigger] events@[q], start_tick, end_tick) == Some(k);
                            if q < j {
                                assert(events_give(events@, j as int, start_tick, end_tick, k));
                            }
                        }
                        if events_give(events@, j as int, start_tick, end_tick, k) {
                            let q = choose|q: int| 0 <= q < j && chat_key(#[trigger] events@[q], start_tick, end_tick) == Some(k);
                            assert(0 <= q < j + 1);
                        }
                        if k == mk {
                            assert(chat_key(events@[j as int], start_tick, end_tick) == Some(k));
                        }
                    }
                    assert forall|i: int| 0 <= i < out@.len() implies opt_str_view((#[trigger] out@[i]).sender_name) == first_name(round_rows@, out@[i].sender_steam_id) by {
                        if out@[i] != mm {
                            let q = choose|q: int| 0 <= q < before.len() && before[q] == out@[i];
                            assert(opt_str_view(before[q].sender_name) == first_name(round_rows@, before[q].sender_steam_id));
                        }
                    }
                }
            },
            None => {
                proof {
                    assert forall|k: ChatKey| #[trigger] lists_key(out@, k) <==> events_give(events@, j + 1, start_tick, end_tick, k) by {
                        assert(lists_key(out@, k) <==> events_give(events@, j as int, start_tick, end_tick, k));
                        if events_give(events@, j + 1, start_tick, end_tick, k) {
                            let q = choose|q: int| 0 <= q < j + 1 && chat_key(#[trigger] events@[q], start_tick, end_tick) == Some(k);
                            assert(q < j);
                        }
                    }
                }
            },
        }
        j = j + 1;
    }
    out
}

} // verus!
