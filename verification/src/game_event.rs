//! Decoding of a demo's game events: typed reads of the event fields and
//! the selection of the events a replay keeps.
use crate::cosmetics::spec_clean_text;
use crate::event_text::{
    infer_chat_scope, is_supported_chat_message, normalize_chat_message_name, normalize_chat_text,
    opt_text, spec_chat_message_name, spec_chat_scope, spec_supported_chat_message,
};
use crate::hifi::or_else;
use crate::model::{eq_lit, ParsedGameEvent};
use crate::text::{
    ascii_lower, chars_of, decimal, i64_decimal, lower_vec, signed_decimal, string_from_chars,
    string_of, trim, u64_decimal, vec_trim,
};
use vstd::prelude::*;

verus! {

/// The value of an event field, as the demo parser hands it over; a float
/// is kept by its bits, and any other kind of value as `Other`.
#[derive(Clone, Debug)]
pub enum EventValue {
    Bool(bool),
    I32(i32),
    U32(u32),
    U64(u64),
    F32Bits(u32),
    Text(String),
    Other,
}

/// A named field of a game event; its value may be missing.
#[derive(Clone, Debug)]
pub struct EventField {
    pub name: String,
    pub data: Option<EventValue>,
}

/// A game event as the demo parser hands it over.
#[derive(Clone, Debug)]
pub struct RawGameEvent {
    pub name: String,
    pub tick: i32,
    pub fields: Vec<EventField>,
}

/// The value of the first field named `name`, if that field has one.
pub open spec fn spec_field(fields: Seq<EventField>, name: Seq<char>) -> Option<EventValue>
    decreases fields.len(),
{
    if fields.len() == 0 {
        None
    } else if fields[0].name@ == name {
        fields[0].data
    } else {
        spec_field(fields.drop_first(), name)
    }
}

proof fn lemma_field_skip(fields: Seq<EventField>, name: Seq<char>, k: int)
    requires
        0 <= k <= fields.len(),
        forall|j: int| 0 <= j < k ==> (#[trigger] fields[j]).name@ != name,
    ensures
        spec_field(fields, name) == spec_field(fields.skip(k), name),
    decreases k,
{
    if k > 0 {
        assert forall|j: int| 0 <= j < k - 1 implies (#[trigger] fields.drop_first()[j]).name@ != name by {
            assert(fields.drop_first()[j] == fields[j + 1]);
        }
        lemma_field_skip(fields.drop_first(), name, k - 1);
        assert(fields.drop_first().skip(k - 1) =~= fields.skip(k));
    } else {
        assert(fields.skip(0) =~= fields);
    }
}

/// Index of the first field named `name`.
fn field_index(fields: &Vec<EventField>, name: &str) -> (r: Option<usize>)
    ensures
        match r {
            Some(k) => k < fields@.len() && spec_field(fields@, name@) == fields@[k as int].data,
            None => spec_field(fields@, name@) is None,
        },
{
    let mut k: usize = 0;
    while k < fields.len()
        invariant
            k <= fields@.len(),
            forall|j: int| 0 <= j < k ==> (#[trigger] fields@[j]).name@ != name@,
        decreases fields.len() - k,
    {
        let chars = chars_of(fields[k].name.as_str());
        if eq_lit(&chars, name) {
            proof {
                lemma_field_skip(fields@, name@, k as int);
                assert(fields@.skip(k as int)[0] == fields@[k as int]);
            }
            return Some(k);
        }
        k = k + 1;
    }
    proof {
        lemma_field_skip(fields@, name@, k as int);
        assert(fields@.skip(k as int).len() == 0);
    }
    None
}

pub open spec fn is_digit(c: char) -> bool {
    '0' <= c && c <= '9'
}

/// The decimal value of a run of digits.
pub open spec fn digits_value(s: Seq<char>) -> int
    decreases s.len(),
{
    if s.len() == 0 {
        0
    } else {
        digits_value(s.drop_last()) * 10 + (s.last() as int - 48)
    }
}

/// A non-empty run of ASCII digits.
pub open spec fn all_digits(s: Seq<char>) -> bool {
    s.len() > 0 && forall|i: int| 0 <= i < s.len() ==> is_digit(#[trigger] s[i])
}

proof fn lemma_digits_value_prefix(s: Seq<char>, k: int)
    requires
        0 <= k <= s.len(),
        forall|i: int| 0 <= i < s.len() ==> is_digit(#[trigger] s[i]),
    ensures
        0 <= digits_value(s.take(k)) <= digits_value(s),
    decreases s.len() - k,
{
    if k < s.len() {
        lemma_digits_value_prefix(s, k + 1);
        assert(s.take(k + 1).drop_last() =~= s.take(k));
        assert(is_digit(s.take(k + 1).last()));
    } else {
        assert(s.take(k) =~= s);
        lemma_digits_value_nonneg(s);
    }
}

proof fn lemma_digits_value_nonneg(s: Seq<char>)
    requires
        forall|i: int| 0 <= i < s.len() ==> is_digit(#[trigger] s[i]),
    ensures
        digits_value(s) >= 0,
    decreases s.len(),
{
    if s.len() > 0 {
        assert(is_digit(s.last()));
        assert forall|i: int| 0 <= i < s.drop_last().len() implies is_digit(#[trigger] s.drop_last()[i]) by {
            assert(s.drop_last()[i] == s[i]);
        }
        lemma_digits_value_nonneg(s.drop_last());
    }
}

/// The digits from `from` on, as a number no larger than `bound`.
fn parse_digits(s: &Vec<char>, from: usize, bound: u64) -> (r: Option<u64>)
    requires
        from <= s@.len(),
    ensures
        r == (if all_digits(s@.skip(from as int)) && digits_value(s@.skip(from as int)) <= bound {
            Some(digits_value(s@.skip(from as int)) as u64)
        } else {
            None::<u64>
        }),
        r matches Some(v) ==> v <= bound && v as int == digits_value(s@.skip(from as int)),
{
    let ghost t = s@.skip(from as int);
    if from >= s.len() {
        return None;
    }
    let mut acc: u64 = 0;
    let mut k: usize = from;
    while k < s.len()
        invariant
            from <= k <= s@.len(),
            from < s@.len(),
            t == s@.skip(from as int),
            acc as int == digits_value(t.take(k - from)),
            acc <= bound,
            forall|j: int| 0 <= j < k - from ==> is_digit(#[trigger] t[j]),
        decreases s.len() - k,
    {
        let c = s[k];
        assert(t[k - from] == c);
        if !('0' <= c && c <= '9') {
            return None;
        }
        let d: u64 = (c as u32 - 48) as u64;
        proof {
            assert(t.take(k - from + 1).drop_last() =~= t.take(k - from));
            assert(t.take(k - from + 1).last() == c);
        }
        let next: u128 = (acc as u128) * 10 + (d as u128);
        if next > bound as u128 {
            proof {
                if all_digits(t) {
                    lemma_digits_value_prefix(t, k - from + 1);
                }
            }
            return None;
        }
        acc = next as u64;
        k = k + 1;
    }
    proof {
        assert(t.take(k - from) =~= t);
    }
    Some(acc)
}

/// `str::parse::<i32>`: an optional sign, then decimal digits, in range.
pub open spec fn spec_parse_i32(s: Seq<char>) -> Option<i32> {
    let signed = s.len() > 0 && (s[0] == '+' || s[0] == '-');
    let neg = s.len() > 0 && s[0] == '-';
    let digits = if signed {
        s.drop_first()
    } else {
        s
    };
    let v = if neg {
        -digits_value(digits)
    } else {
        digits_value(digits)
    };
    if all_digits(digits) && i32::MIN <= v && v <= i32::MAX {
        Some(v as i32)
    } else {
        None
    }
}

/// `str::parse::<u64>`: an optional `+`, then decimal digits, in range.
pub open spec fn spec_parse_u64(s: Seq<char>) -> Option<u64> {
    let digits = if s.len() > 0 && s[0] == '+' {
        s.drop_first()
    } else {
        s
    };
    if all_digits(digits) && digits_value(digits) <= u64::MAX {
        Some(digits_value(digits) as u64)
    } else {
        None
    }
}

pub fn parse_i32(text: &str) -> (r: Option<i32>)
    ensures
        r == spec_parse_i32(text@),
{
    let s = chars_of(text);
    let signed = s.len() > 0 && (s[0] == '+' || s[0] == '-');
    let neg = s.len() > 0 && s[0] == '-';
    let from: usize = if signed {
        1
    } else {
        0
    };
    proof {
        if signed {
            assert(s@.skip(1) =~= s@.drop_first());
        } else {
            assert(s@.skip(0) =~= s@);
        }
    }
    let bound: u64 = if neg {
        2147483648
    } else {
        2147483647
    };
    match parse_digits(&s, from, bound) {
        None => None,
        Some(v) => if neg {
            Some((0 - (v as i64)) as i32)
        } else {
            Some(v as i32)
        },
    }
}

pub fn parse_u64(text: &str) -> (r: Option<u64>)
    ensures
        r == spec_parse_u64(text@),
{
    let s = chars_of(text);
    let from: usize = if s.len() > 0 && s[0] == '+' {
        1
    } else {
        0
    };
    proof {
        if from == 1 {
            assert(s@.skip(1) =~= s@.drop_first());
        } else {
            assert(s@.skip(0) =~= s@);
        }
    }
    parse_digits(&s, from, u64::MAX)
}

/// A field value read as an `i32`.
pub open spec fn spec_value_i32(v: EventValue) -> Option<i32> {
    match v {
        EventValue::I32(x) => Some(x),
        EventValue::U32(x) => if x <= i32::MAX {
            Some(x as i32)
        } else {
            None
        },
        EventValue::U64(x) => if x <= i32::MAX {
            Some(x as i32)
        } else {
            None
        },
        EventValue::Text(s) => spec_parse_i32(s@),
        _ => None,
    }
}

/// A field value read as a `u64`.
pub open spec fn spec_value_u64(v: EventValue) -> Option<u64> {
    match v {
        EventValue::U64(x) => Some(x),
        EventValue::U32(x) => Some(x as u64),
        EventValue::I32(x) => if x >= 0 {
            Some(x as u64)
        } else {
            None
        },
        EventValue::Text(s) => spec_parse_u64(s@),
        _ => None,
    }
}

/// A text read as a flag: `1`, `true`, `yes`, `on` or `0`, `false`, `no`,
/// `off`, trimmed and in any case.
pub open spec fn spec_text_bool(s: Seq<char>) -> Option<bool> {
    let t = ascii_lower(trim(s));
    if t == "1"@ || t == "true"@ || t == "yes"@ || t == "on"@ {
        Some(true)
    } else if t == "0"@ || t == "false"@ || t == "no"@ || t == "off"@ {
        Some(false)
    } else {
        None
    }
}

/// A field value read as a flag.
pub open spec fn spec_value_bool(v: EventValue) -> Option<bool> {
    match v {
        EventValue::Bool(b) => Some(b),
        EventValue::I32(x) => Some(x != 0),
        EventValue::U32(x) => Some(x != 0),
        EventValue::Text(s) => spec_text_bool(s@),
        _ => None,
    }
}

/// A field value read as text.
pub open spec fn spec_value_text(v: EventValue) -> Option<Seq<char>> {
    match v {
        EventValue::Text(s) => Some(s@),
        EventValue::U64(x) => Some(decimal(x as nat)),
        EventValue::U32(x) => Some(decimal(x as nat)),
        EventValue::I32(x) => Some(signed_decimal(x as int)),
        _ => None,
    }
}

pub open spec fn spec_field_i32(fields: Seq<EventField>, name: Seq<char>) -> Option<i32> {
    match spec_field(fields, name) {
        Some(v) => spec_value_i32(v),
        None => None,
    }
}

pub open spec fn spec_field_u64(fields: Seq<EventField>, name: Seq<char>) -> Option<u64> {
    match spec_field(fields, name) {
        Some(v) => spec_value_u64(v),
        None => None,
    }
}

pub open spec fn spec_field_bool(fields: Seq<EventField>, name: Seq<char>) -> Option<bool> {
    match spec_field(fields, name) {
        Some(v) => spec_value_bool(v),
        None => None,
    }
}

pub open spec fn spec_field_text(fields: Seq<EventField>, name: Seq<char>) -> Option<Seq<char>> {
    match spec_field(fields, name) {
        Some(v) => spec_value_text(v),
        None => None,
    }
}

pub fn event_field_i32(event: &RawGameEvent, name: &str) -> (r: Option<i32>)
    ensures
        r == spec_field_i32(event.fields@, name@),
{
    match field_index(&event.fields, name) {
        None => None,
        Some(k) => match &event.fields[k].data {
            Some(EventValue::I32(x)) => Some(*x),
            Some(EventValue::U32(x)) => if *x <= 2147483647 {
                Some(*x as i32)
            } else {
                None
            },
            Some(EventValue::U64(x)) => if *x <= 2147483647 {
                Some(*x as i32)
            } else {
                None
            },
            Some(EventValue::Text(s)) => parse_i32(s.as_str()),
            _ => None,
        },
    }
}

pub fn event_field_u64(event: &RawGameEvent, name: &str) -> (r: Option<u64>)
    ensures
        r == spec_field_u64(event.fields@, name@),
{
    match field_index(&event.fields, name) {
        None => None,
        Some(k) => match &event.fields[k].data {
            Some(EventValue::U64(x)) => Some(*x),
            Some(EventValue::U32(x)) => Some(*x as u64),
            Some(EventValue::I32(x)) => if *x >= 0 {
                Some(*x as u64)
            } else {
                None
            },
            Some(EventValue::Text(s)) => parse_u64(s.as_str()),
            _ => None,
        },
    }
}

fn text_bool(text: &str) -> (r: Option<bool>)
    ensures
        r == spec_text_bool(text@),
{
    let raw = chars_of(text);
    let trimmed = vec_trim(&raw);
    let t = lower_vec(&trimmed);
    if eq_lit(&t, "1") || eq_lit(&t, "true") || eq_lit(&t, "yes") || eq_lit(&t, "on") {
        Some(true)
    } else if eq_lit(&t, "0") || eq_lit(&t, "false") || eq_lit(&t, "no") || eq_lit(&t, "off") {
        Some(false)
    } else {
        None
    }
}

pub fn event_field_bool(event: &RawGameEvent, name: &str) -> (r: Option<bool>)
    ensures
        r == spec_field_bool(event.fields@, name@),
{
    match field_index(&event.fields, name) {
        None => None,
        Some(k) => match &event.fields[k].data {
            Some(EventValue::Bool(b)) => Some(*b),
            Some(EventValue::I32(x)) => Some(*x != 0),
            Some(EventValue::U32(x)) => Some(*x != 0),
            Some(EventValue::Text(s)) => text_bool(s.as_str()),
            _ => None,
        },
    }
}

pub fn event_field_string(event: &RawGameEvent, name: &str) -> (r: Option<String>)
    ensures
        opt_text(r) == spec_field_text(event.fields@, name@),
{
    match field_index(&event.fields, name) {
        None => None,
        Some(k) => match &event.fields[k].data {
            Some(EventValue::Text(s)) => Some(string_of(s.as_str())),
            Some(EventValue::U64(x)) => Some(u64_decimal(*x)),
            Some(EventValue::U32(x)) => Some(u64_decimal(*x as u64)),
            Some(EventValue::I32(x)) => Some(i64_decimal(*x as i64)),
            _ => None,
        },
    }
}

/// The acting player: the first of the user, the plain, the thrower and the
/// attacker Steam ID fields that reads as a `u64`.
pub open spec fn spec_event_steam_id(fields: Seq<EventField>) -> Option<u64> {
    or_else(
        spec_field_u64(fields, "user_steamid"@),
        or_else(
            spec_field_u64(fields, "steamid"@),
            or_else(spec_field_u64(fields, "thrower_steamid"@), spec_field_u64(fields, "attacker_steamid"@)),
        ),
    )
}

/// The acting player of an event is its user: whenever the event names its
/// user by SteamID, that is the event's SteamID (a death is its victim's,
/// not its attacker's). Without a user the plain SteamID, then the thrower's,
/// count; the attacker's counts only when the event names none of these.
pub proof fn law_event_user_comes_first(fields: Seq<EventField>)
    ensures
        spec_field_u64(fields, "user_steamid"@) is Some ==> spec_event_steam_id(fields) == spec_field_u64(
            fields,
            "user_steamid"@,
        ),
        spec_field_u64(fields, "user_steamid"@) is None && spec_field_u64(fields, "steamid"@) is Some
            ==> spec_event_steam_id(fields) == spec_field_u64(fields, "steamid"@),
        spec_field_u64(fields, "user_steamid"@) is None && spec_field_u64(fields, "steamid"@) is None
            && spec_field_u64(fields, "thrower_steamid"@) is Some ==> spec_event_steam_id(fields) == spec_field_u64(
            fields,
            "thrower_steamid"@,
        ),
        spec_field_u64(fields, "user_steamid"@) is None && spec_field_u64(fields, "steamid"@) is None
            && spec_field_u64(fields, "thrower_steamid"@) is None ==> spec_event_steam_id(fields)
            == spec_field_u64(fields, "attacker_steamid"@),
{
}

pub fn event_steam_id(event: &RawGameEvent) -> (r: Option<u64>)
    ensures
        r == spec_event_steam_id(event.fields@),
        spec_field_u64(event.fields@, "user_steamid"@) is Some ==> r == spec_field_u64(event.fields@, "user_steamid"@),
        spec_field_u64(event.fields@, "user_steamid"@) is None && spec_field_u64(event.fields@, "steamid"@) is Some
            ==> r == spec_field_u64(event.fields@, "steamid"@),
        spec_field_u64(event.fields@, "user_steamid"@) is None && spec_field_u64(event.fields@, "steamid"@) is None
            && spec_field_u64(event.fields@, "thrower_steamid"@) is Some ==> r == spec_field_u64(
            event.fields@,
            "thrower_steamid"@,
        ),
        spec_field_u64(event.fields@, "user_steamid"@) is None && spec_field_u64(event.fields@, "steamid"@) is None
            && spec_field_u64(event.fields@, "thrower_steamid"@) is None ==> r == spec_field_u64(
            event.fields@,
            "attacker_steamid"@,
        ),
{
    proof {
        law_event_user_comes_first(event.fields@);
    }
    match event_field_u64(event, "user_steamid") {
        Some(v) => Some(v),
        None => match event_field_u64(event, "steamid") {
            Some(v) => Some(v),
            None => match event_field_u64(event, "thrower_steamid") {
                Some(v) => Some(v),
                None => event_field_u64(event, "attacker_steamid"),
            },
        },
    }
}

pub open spec fn is_separator(c: char) -> bool {
    c == '-' || c == '_' || c == ' '
}

/// The sequence without `-`, `_` and spaces.
pub open spec fn without_separators(s: Seq<char>) -> Seq<char>
    decreases s.len(),
{
    if s.len() == 0 {
        seq![]
    } else if is_separator(s.last()) {
        without_separators(s.drop_last())
    } else {
        without_separators(s.drop_last()).push(s.last())
    }
}

/// The side that won a round: a numeric `winner` of 2 (T) or 3 (CT), or a
/// side's name in any case and spelling.
pub open spec fn spec_winner_side(fields: Seq<EventField>) -> Option<u8> {
    match spec_field_i32(fields, "winner"@) {
        Some(v) => if v == 2 || v == 3 {
            Some(v as u8)
        } else {
            None
        },
        None => match spec_field_text(fields, "winner"@) {
            None => None,
            Some(s) => {
                let n = without_separators(ascii_lower(trim(s)));
                if n == "2"@ || n == "t"@ || n == "terrorist"@ || n == "terrorists"@ {
                    Some(2u8)
                } else if n == "3"@ || n == "ct"@ || n == "counterterrorist"@ || n == "counterterrorists"@ {
                    Some(3u8)
                } else {
                    None
                }
            },
        },
    }
}

pub fn event_winner_side(event: &RawGameEvent) -> (r: Option<u8>)
    ensures
        r == spec_winner_side(event.fields@),
{
    match event_field_i32(event, "winner") {
        Some(v) => if v == 2 || v == 3 {
            Some(v as u8)
        } else {
            None
        },
        None => match event_field_string(event, "winner") {
            None => None,
            Some(s) => {
                let raw = chars_of(s.as_str());
                let trimmed = vec_trim(&raw);
                let lower = lower_vec(&trimmed);
                let mut n: Vec<char> = Vec::new();
                let mut i: usize = 0;
                while i < lower.len()
                    invariant
                        i <= lower.len(),
                        n@ == without_separators(lower@.subrange(0, i as int)),
                    decreases lower.len() - i,
                {
                    let c = lower[i];
                    if !(c == '-' || c == '_' || c == ' ') {
                        n.push(c);
                    }
                    assert(lower@.subrange(0, i + 1).drop_last() =~= lower@.subrange(0, i as int));
                    i = i + 1;
                }
                assert(lower@.subrange(0, lower.len() as int) =~= lower@);
                if eq_lit(&n, "2") || eq_lit(&n, "t") || eq_lit(&n, "terrorist") || eq_lit(&n, "terrorists") {
                    Some(2)
                } else if eq_lit(&n, "3") || eq_lit(&n, "ct") || eq_lit(&n, "counterterrorist") || eq_lit(&n, "counterterrorists") {
                    Some(3)
                } else {
                    None
                }
            },
        },
    }
}

/// The events a replay keeps, by name.
pub open spec fn spec_supported_event(n: Seq<char>) -> bool {
    n == "round_start"@ || n == "round_freeze_end"@ || n == "round_end"@ || n == "round_announce_match_start"@
        || n == "cs_win_panel_match"@ || n == "bomb_beginplant"@ || n == "bomb_planted"@ || n == "bomb_dropped"@
        || n == "bomb_pickup"@ || n == "item_pickup"@ || n == "weapon_fire"@ || n == "player_hurt"@
        || n == "player_death"@ || n == "chat_message"@ || n == "server_message"@
}

pub open spec fn cleaned_chat(o: Option<Seq<char>>) -> Option<Seq<char>> {
    match o {
        Some(t) => spec_clean_text(t, 256),
        None => None,
    }
}

/// The cleaned line of a chat or server message.
pub open spec fn spec_event_chat_text(e: RawGameEvent) -> Option<Seq<char>> {
    if e.name@ == "chat_message"@ {
        cleaned_chat(spec_field_text(e.fields@, "chat_message"@))
    } else if e.name@ == "server_message"@ {
        cleaned_chat(spec_field_text(e.fields@, "server_message"@))
    } else {
        None
    }
}

/// The normalized message name of an event.
pub open spec fn spec_event_message_name(e: RawGameEvent) -> Option<Seq<char>> {
    match spec_field_text(e.fields@, "chat_message_name"@) {
        Some(t) => spec_chat_message_name(t),
        None => None,
    }
}

/// An event is kept when its name is supported, a chat or server message
/// has a line, and a chat message is chat, server or admin chat.
pub open spec fn spec_event_kept(e: RawGameEvent) -> bool {
    &&& spec_supported_event(e.name@)
    &&& (e.name@ == "chat_message"@ || e.name@ == "server_message"@) ==> spec_event_chat_text(e) is Some
    &&& e.name@ == "chat_message"@ ==> spec_supported_chat_message(
        spec_event_message_name(e),
        spec_field_bool(e.fields@, "chat"@),
    )
}

/// The audience of a message: `server` for a server message, inferred from
/// the message name for a chat message.
pub open spec fn spec_event_scope(e: RawGameEvent) -> Option<Seq<char>> {
    if e.name@ == "server_message"@ {
        Some("server"@)
    } else if e.name@ == "chat_message"@ {
        Some(spec_chat_scope(spec_event_message_name(e)))
    } else {
        None
    }
}

/// `p` is the decoding of `e`: each field is the first of its source fields
/// that reads as the field's type.
pub open spec fn decoded_as(p: ParsedGameEvent, e: RawGameEvent) -> bool {
    let f = e.fields@;
    &&& p.tick == e.tick
    &&& p.name@ == e.name@
    &&& p.user_steam_id == spec_event_steam_id(f)
    &&& p.attacker_steam_id == or_else(spec_field_u64(f, "attacker_steamid"@), spec_field_u64(f, "attacker"@))
    &&& p.victim_steam_id == or_else(spec_field_u64(f, "victim_steamid"@), spec_field_u64(f, "userid"@))
    &&& p.weapon_def_index == or_else(
        spec_field_i32(f, "defindex"@),
        or_else(spec_field_i32(f, "item_def_index"@), spec_field_i32(f, "weapon_id"@)),
    )
    &&& opt_text(p.item_name) == or_else(
        spec_field_text(f, "item"@),
        or_else(spec_field_text(f, "weapon"@), spec_field_text(f, "weapon_name"@)),
    )
    &&& p.entity_id == or_else(spec_field_i32(f, "entindex"@), spec_field_i32(f, "entityid"@))
    &&& p.damage == or_else(spec_field_i32(f, "dmg_health"@), spec_field_i32(f, "damage"@))
    &&& p.health == spec_field_i32(f, "health"@)
    &&& p.winner_side == (if e.name@ == "round_end"@ {
        spec_winner_side(f)
    } else {
        None
    })
    &&& opt_text(p.chat_text) == spec_event_chat_text(e)
    &&& opt_text(p.chat_scope) == spec_event_scope(e)
    &&& opt_text(p.chat_message_name) == spec_event_message_name(e)
}

fn first_i32(a: Option<i32>, b: Option<i32>) -> (r: Option<i32>)
    ensures
        r == or_else(a, b),
{
    match a {
        Some(x) => Some(x),
        None => b,
    }
}

fn first_u64(a: Option<u64>, b: Option<u64>) -> (r: Option<u64>)
    ensures
        r == or_else(a, b),
{
    match a {
        Some(x) => Some(x),
        None => b,
    }
}

fn first_text(a: Option<String>, b: Option<String>) -> (r: Option<String>)
    ensures
        opt_text(r) == or_else(opt_text(a), opt_text(b)),
{
    match a {
        Some(x) => Some(x),
        None => b,
    }
}

fn clean_chat(o: Option<String>) -> (r: Option<String>)
    ensures
        opt_text(r) == cleaned_chat(opt_text(o)),
{
    match o {
        Some(t) => normalize_chat_text(t.as_str()),
        None => None,
    }
}

/// The replay's record of a game event, or `None` for an event it does not
/// keep.
pub fn parsed_game_event(event: &RawGameEvent) -> (r: Option<ParsedGameEvent>)
    ensures
        r is Some <==> spec_event_kept(*event),
        r matches Some(p) ==> decoded_as(p, *event),
{
    let name = chars_of(event.name.as_str());
    let supported = eq_lit(&name, "round_start") || eq_lit(&name, "round_freeze_end") || eq_lit(&name, "round_end")
        || eq_lit(&name, "round_announce_match_start") || eq_lit(&name, "cs_win_panel_match")
        || eq_lit(&name, "bomb_beginplant") || eq_lit(&name, "bomb_planted") || eq_lit(&name, "bomb_dropped")
        || eq_lit(&name, "bomb_pickup") || eq_lit(&name, "item_pickup") || eq_lit(&name, "weapon_fire")
        || eq_lit(&name, "player_hurt") || eq_lit(&name, "player_death") || eq_lit(&name, "chat_message")
        || eq_lit(&name, "server_message");
    if !supported {
        return None;
    }
    let is_chat = eq_lit(&name, "chat_message");
    let is_server = eq_lit(&name, "server_message");
    let chat_text = if is_chat {
        clean_chat(event_field_string(event, "chat_message"))
    } else if is_server {
        clean_chat(event_field_string(event, "server_message"))
    } else {
        None
    };
    if (is_chat || is_server) && chat_text.is_none() {
        return None;
    }
    let chat_message_name = match event_field_string(event, "chat_message_name") {
        Some(t) => normalize_chat_message_name(t.as_str()),
        None => None,
    };
    let chat_flag = event_field_bool(event, "chat");
    let message_name: Option<&str> = match &chat_message_name {
        Some(t) => Some(t.as_str()),
        None => None,
    };
    if is_chat && !is_supported_chat_message(message_name, chat_flag) {
        return None;
    }
    let chat_scope = if is_server {
        Some(string_of("server"))
    } else if is_chat {
        Some(infer_chat_scope(message_name))
    } else {
        None
    };
    let attacker = first_u64(event_field_u64(event, "attacker_steamid"), event_field_u64(event, "attacker"));
    let victim = first_u64(event_field_u64(event, "victim_steamid"), event_field_u64(event, "userid"));
    let weapon = first_i32(
        event_field_i32(event, "defindex"),
        first_i32(event_field_i32(event, "item_def_index"), event_field_i32(event, "weapon_id")),
    );
    let item = first_text(
        event_field_string(event, "item"),
        first_text(event_field_string(event, "weapon"), event_field_string(event, "weapon_name")),
    );
    let entity = first_i32(event_field_i32(event, "entindex"), event_field_i32(event, "entityid"));
    let damage = first_i32(event_field_i32(event, "dmg_health"), event_field_i32(event, "damage"));
    let winner = if eq_lit(&name, "round_end") {
        event_winner_side(event)
    } else {
        None
    };
    Some(ParsedGameEvent {
        tick: event.tick,
        name: string_of(event.name.as_str()),
        user_steam_id: event_steam_id(event),
        attacker_steam_id: attacker,
        victim_steam_id: victim,
        weapon_def_index: weapon,
        item_name: item,
        entity_id: entity,
        damage,
        health: event_field_i32(event, "health"),
        winner_side: winner,
        chat_text,
        chat_scope,
        chat_message_name,
    })
}

/// The events a replay keeps, in order.
pub open spec fn kept_events(events: Seq<RawGameEvent>) -> Seq<RawGameEvent>
    decreases events.len(),
{
    if events.len() == 0 {
        seq![]
    } else if spec_event_kept(events.last()) {
        kept_events(events.drop_last()).push(events.last())
    } else {
        kept_events(events.drop_last())
    }
}

/// The replay's records of the events it keeps, in event order.
pub fn parse_game_events(events: &[RawGameEvent]) -> (r: Vec<ParsedGameEvent>)
    ensures
        r@.len() == kept_events(events@).len(),
        forall|i: int| 0 <= i < r@.len() ==> decoded_as(#[trigger] r@[i], kept_events(events@)[i]),
{
    let mut out: Vec<ParsedGameEvent> = Vec::new();
    let mut k: usize = 0;
    while k < events.len()
        invariant
            k <= events.len(),
            out@.len() == kept_events(events@.take(k as int)).len(),
            forall|i: int| 0 <= i < out@.len() ==> decoded_as(#[trigger] out@[i], kept_events(events@.take(k as int))[i]),
        decreases events.len() - k,
    {
        proof {
            assert(events@.take(k + 1).drop_last() =~= events@.take(k as int));
            assert(events@.take(k + 1).last() == events@[k as int]);
        }
        match parsed_game_event(&events[k]) {
            Some(p) => {
                out.push(p);
            },
            None => {},
        }
        k = k + 1;
    }
    proof {
        assert(events@.take(events@.len() as int) =~= events@);
    }
    out
}

/// The ticks of the events named `name`, in event order.
pub open spec fn named_ticks(events: Seq<RawGameEvent>, name: Seq<char>) -> Seq<i32>
    decreases events.len(),
{
    if events.len() == 0 {
        seq![]
    } else if events.last().name@ == name {
        named_ticks(events.drop_last(), name).push(events.last().tick)
    } else {
        named_ticks(events.drop_last(), name)
    }
}

pub fn event_ticks(events: &[RawGameEvent], name: &str) -> (r: Vec<i32>)
    ensures
        r@ == named_ticks(events@, name@),
{
    let mut out: Vec<i32> = Vec::new();
    let mut k: usize = 0;
    while k < events.len()
        invariant
            k <= events.len(),
            out@ == named_ticks(events@.take(k as int), name@),
        decreases events.len() - k,
    {
        proof {
            assert(events@.take(k + 1).drop_last() =~= events@.take(k as int));
            assert(events@.take(k + 1).last() == events@[k as int]);
        }
        let chars = chars_of(events[k].name.as_str());
        if eq_lit(&chars, name) {
            out.push(events[k].tick);
        }
        k = k + 1;
    }
    proof {
        assert(events@.take(events@.len() as int) =~= events@);
    }
    out
}

} // verus!
