//! Replay data model: sides, projectile kinds, scoreboard and event records.
use crate::text::{
    ascii_lower, chars_of, concat_str, lower_chars_of, seq_contains, string_from_chars, string_of,
    vec_contains_str, vec_eq, vec_slice,
};
use vstd::prelude::*;
use vstd::string::*;

verus! {

pub const DEMOTRACER_ABI: i32 = 17;

pub const DTR_FORMAT_VERSION: u32 = 9;

pub const COMMAND_FIELD_FORWARD_MOVE: u32 = 1;

pub const COMMAND_FIELD_LEFT_MOVE: u32 = 2;

pub const COMMAND_FIELD_UP_MOVE: u32 = 4;

pub const COMMAND_FIELD_VIEW_ANGLES: u32 = 8;

pub const COMMAND_FIELD_BUTTONS: u32 = 16;

pub const COMMAND_FIELD_MOUSE: u32 = 32;

pub const COMMAND_FIELD_WEAPON_SELECT: u32 = 64;

pub const COMMAND_FIELD_LEFT_HAND: u32 = 128;

pub const COMMAND_FIELDS_ALL: u32 = 255;

pub const INPUT_HISTORY_CLIENT_TICK_UNKNOWN: i32 = -2147483648i32;

/// A path separator of either platform.
pub open spec fn is_path_sep(c: char) -> bool {
    c == '/' || c == '\\'
}

/// End (exclusive) of the last component of `s` that is not empty, or 0 when
/// every component is empty.
pub open spec fn last_part_end(s: Seq<char>) -> nat
    decreases s.len(),
{
    if s.len() == 0 {
        0
    } else if !is_path_sep(s.last()) {
        s.len()
    } else {
        last_part_end(s.drop_last())
    }
}

/// Start of the component that ends at `end`.
pub open spec fn part_start(s: Seq<char>, end: int) -> int
    decreases end,
{
    if end <= 0 {
        0
    } else if is_path_sep(s[end - 1]) {
        end
    } else {
        part_start(s, end - 1)
    }
}

/// The last non-empty component of a path written with `/` or `\`
/// separators, or `demo.dem` when there is none.
pub open spec fn spec_public_demo_path(s: Seq<char>) -> Seq<char> {
    let end = last_part_end(s);
    if end == 0 {
        "demo.dem"@
    } else {
        s.subrange(part_start(s, end as int), end as int)
    }
}

proof fn lemma_last_part_end(s: Seq<char>, e: int)
    requires
        0 <= e <= s.len(),
        forall|i: int| e <= i < s.len() ==> is_path_sep(#[trigger] s[i]),
        e > 0 ==> !is_path_sep(s[e - 1]),
    ensures
        last_part_end(s) == e,
    decreases s.len(),
{
    if s.len() > 0 && e < s.len() {
        assert(is_path_sep(s[s.len() - 1]));
        assert forall|i: int| e <= i < s.drop_last().len() implies is_path_sep(
            #[trigger] s.drop_last()[i],
        ) by {
            assert(s.drop_last()[i] == s[i]);
        }
        if e > 0 {
            assert(s.drop_last()[e - 1] == s[e - 1]);
        }
        lemma_last_part_end(s.drop_last(), e);
    }
}

proof fn lemma_part_start(s: Seq<char>, end: int, b: int)
    requires
        0 <= b <= end <= s.len(),
        forall|i: int| b <= i < end ==> !is_path_sep(#[trigger] s[i]),
        b > 0 ==> is_path_sep(s[b - 1]),
    ensures
        part_start(s, end) == b,
    decreases end,
{
    if end > b {
        assert(!is_path_sep(s[end - 1]));
        lemma_part_start(s, end - 1, b);
    }
}

proof fn lemma_last_part_end_bounds(s: Seq<char>)
    ensures
        last_part_end(s) <= s.len(),
        last_part_end(s) > 0 ==> !is_path_sep(s[last_part_end(s) - 1]),
    decreases s.len(),
{
    if s.len() > 0 && is_path_sep(s.last()) {
        lemma_last_part_end_bounds(s.drop_last());
        let e = last_part_end(s.drop_last());
        if e > 0 {
            assert(s.drop_last()[e - 1] == s[e - 1]);
        }
    }
}

proof fn lemma_part_start_chars(s: Seq<char>, end: int)
    requires
        end <= s.len(),
    ensures
        0 <= part_start(s, end),
        end >= 0 ==> part_start(s, end) <= end,
        forall|i: int| part_start(s, end) <= i < end ==> !is_path_sep(#[trigger] s[i]),
    decreases end,
{
    if end > 0 && !is_path_sep(s[end - 1]) {
        lemma_part_start_chars(s, end - 1);
    }
}

/// The public name of a path holds no path separator.
pub proof fn law_public_demo_path_has_no_separator(path: Seq<char>)
    ensures
        forall|i: int| 0 <= i < spec_public_demo_path(path).len() ==> !is_path_sep(#[trigger] spec_public_demo_path(path)[i]),
        spec_public_demo_path(path).len() > 0,
{
    reveal_strlit("demo.dem");
    lemma_last_part_end_bounds(path);
    let end = last_part_end(path) as int;
    if end > 0 {
        lemma_part_start_chars(path, end);
        let r = spec_public_demo_path(path);
        assert forall|i: int| 0 <= i < r.len() implies !is_path_sep(#[trigger] r[i]) by {
            assert(r[i] == path[part_start(path, end) + i]);
        }
        assert(!is_path_sep(path[end - 1]));
        lemma_part_start_chars(path, end - 1);
        assert(part_start(path, end) == part_start(path, end - 1));
    }
}

/// Taking the public name of a public name changes nothing.
pub proof fn law_public_demo_path_is_idempotent(path: Seq<char>)
    ensures
        spec_public_demo_path(spec_public_demo_path(path)) == spec_public_demo_path(path),
{
    law_public_demo_path_has_no_separator(path);
    let r = spec_public_demo_path(path);
    lemma_last_part_end(r, r.len() as int);
    lemma_part_start(r, r.len() as int, 0);
    assert(r.subrange(0, r.len() as int) =~= r);
}

/// The public (directory-free) name of a local demo path.
pub fn public_demo_path(path: &str) -> (r: String)
    ensures
        r@ == spec_public_demo_path(path@),
{
    let s = chars_of(path);
    let mut end = s.len();
    while end > 0 && (s[end - 1] == '/' || s[end - 1] == '\\')
        invariant
            end <= s.len(),
            forall|i: int| end <= i < s.len() ==> is_path_sep(#[trigger] s@[i]),
        decreases end,
    {
        end = end - 1;
    }
    proof {
        lemma_last_part_end(s@, end as int);
    }
    if end == 0 {
        return string_of("demo.dem");
    }
    let mut start = end;
    while start > 0 && !(s[start - 1] == '/' || s[start - 1] == '\\')
        invariant
            start <= end <= s.len(),
            forall|i: int| start <= i < end ==> !is_path_sep(#[trigger] s@[i]),
        decreases start,
    {
        start = start - 1;
    }
    proof {
        lemma_part_start(s@, end as int, start as int);
    }
    let part = vec_slice(&s, start, end);
    string_from_chars(&part)
}

/// Which team a replay or a filter speaks of.
#[derive(Clone, Copy, Debug, PartialEq, Eq, Structural)]
pub enum Side {
    Both,
    T,
    Ct,
}

/// Whether the engine team number `team_num` belongs to `side` (2 is T, 3 is CT).
pub open spec fn side_matches_team(side: Side, team_num: u8) -> bool {
    match side {
        Side::Both => team_num == 2 || team_num == 3,
        Side::T => team_num == 2,
        Side::Ct => team_num == 3,
    }
}

/// Accepted spellings of a side, compared after ASCII lower casing.
pub open spec fn spec_side_from_lower(lower: Seq<char>) -> Option<Side> {
    if lower == "both"@ || lower == "all"@ || lower == "两边"@ || lower == "全部"@ {
        Some(Side::Both)
    } else if lower == "t"@ || lower == "terrorist"@ || lower == "terrorists"@ {
        Some(Side::T)
    } else if lower == "ct"@ || lower == "counter"@ || lower == "counter-terrorist"@ || lower
        == "counter-terrorists"@ {
        Some(Side::Ct)
    } else {
        None
    }
}

impl Side {
    pub fn matches_team(self, team_num: u8) -> (r: bool)
        ensures
            r == side_matches_team(self, team_num),
    {
        match self {
            Side::Both => team_num == 2 || team_num == 3,
            Side::T => team_num == 2,
            Side::Ct => team_num == 3,
        }
    }

    /// Output directory of a team number.
    pub fn team_dir(team_num: u8) -> (r: &'static str)
        ensures
            team_num == 2 ==> r@ == "t"@,
            team_num == 3 ==> r@ == "ct"@,
            team_num != 2 && team_num != 3 ==> r@ == "unknown"@,
    {
        match team_num {
            2 => "t",
            3 => "ct",
            _ => "unknown",
        }
    }

    /// The lower-case display name.
    pub fn as_str(self) -> (r: &'static str)
        ensures
            self == Side::Both ==> r@ == "both"@,
            self == Side::T ==> r@ == "t"@,
            self == Side::Ct ==> r@ == "ct"@,
    {
        match self {
            Side::Both => "both",
            Side::T => "t",
            Side::Ct => "ct",
        }
    }

    /// Parses a side name, ignoring ASCII case.
    pub fn from_str(value: &str) -> (r: Result<Side, String>)
        ensures
            spec_side_from_lower(ascii_lower(value@)) is Some ==> r == Ok::<Side, String>(
                spec_side_from_lower(ascii_lower(value@))->0,
            ),
            spec_side_from_lower(ascii_lower(value@)) is None ==> r is Err && r->Err_0@
                == "unknown side: "@ + value@,
    {
        let lower = lower_chars_of(value);
        if eq_lit(&lower, "both") || eq_lit(&lower, "all") || eq_lit(&lower, "两边") || eq_lit(
            &lower,
            "全部",
        ) {
            Ok(Side::Both)
        } else if eq_lit(&lower, "t") || eq_lit(&lower, "terrorist") || eq_lit(&lower, "terrorists") {
            Ok(Side::T)
        } else if eq_lit(&lower, "ct") || eq_lit(&lower, "counter") || eq_lit(
            &lower,
            "counter-terrorist",
        ) || eq_lit(&lower, "counter-terrorists") {
            Ok(Side::Ct)
        } else {
            Err(concat_str(string_of("unknown side: "), value))
        }
    }
}

impl Default for Side {
    fn default() -> (r: Side)
        ensures
            r == Side::Both,
    {
        Side::Both
    }
}

/// Equality of a character sequence with a text.
pub fn eq_lit(v: &Vec<char>, lit: &str) -> (r: bool)
    ensures
        r == (v@ == lit@),
{
    let l = chars_of(lit);
    vec_eq(v, &l)
}

/// Whether sub-tick input is exported.
#[derive(Clone, Copy, Debug, PartialEq, Eq, Structural)]
pub enum SubtickMode {
    Auto,
    Off,
}

pub open spec fn spec_subtick_mode_from_lower(lower: Seq<char>) -> Option<SubtickMode> {
    if lower == "auto"@ || lower == "on"@ || lower == "1"@ || lower == "true"@ {
        Some(SubtickMode::Auto)
    } else if lower == "off"@ || lower == "0"@ || lower == "false"@ {
        Some(SubtickMode::Off)
    } else {
        None
    }
}

impl SubtickMode {
    pub fn as_str(self) -> (r: &'static str)
        ensures
            self == SubtickMode::Auto ==> r@ == "auto"@,
            self == SubtickMode::Off ==> r@ == "off"@,
    {
        match self {
            SubtickMode::Auto => "auto",
            SubtickMode::Off => "off",
        }
    }

    /// Parses a sub-tick mode, ignoring ASCII case.
    pub fn from_str(value: &str) -> (r: Result<SubtickMode, String>)
        ensures
            spec_subtick_mode_from_lower(ascii_lower(value@)) is Some ==> r == Ok::<
                SubtickMode,
                String,
            >(spec_subtick_mode_from_lower(ascii_lower(value@))->0),
            spec_subtick_mode_from_lower(ascii_lower(value@)) is None ==> r is Err && r->Err_0@
                == "unknown subtick mode: "@ + value@,
    {
        let lower = lower_chars_of(value);
        if eq_lit(&lower, "auto") || eq_lit(&lower, "on") || eq_lit(&lower, "1") || eq_lit(
            &lower,
            "true",
        ) {
            Ok(SubtickMode::Auto)
        } else if eq_lit(&lower, "off") || eq_lit(&lower, "0") || eq_lit(&lower, "false") {
            Ok(SubtickMode::Off)
        } else {
            Err(concat_str(string_of("unknown subtick mode: "), value))
        }
    }
}

impl Default for SubtickMode {
    fn default() -> (r: SubtickMode)
        ensures
            r == SubtickMode::Auto,
    {
        SubtickMode::Auto
    }
}

/// Input-history bookkeeping of one replay tick.
#[derive(Clone, Copy, Debug, PartialEq, Eq, Structural)]
pub struct ReplayInputHistoryTick {
    pub source_client_tick: i32,
    pub attack1_start_history_index: i32,
    pub attack2_start_history_index: i32,
    pub num_entries: u32,
}

impl Default for ReplayInputHistoryTick {
    fn default() -> (r: ReplayInputHistoryTick)
        ensures
            r.source_client_tick == INPUT_HISTORY_CLIENT_TICK_UNKNOWN,
            r.attack1_start_history_index == -1,
            r.attack2_start_history_index == -1,
            r.num_entries == 0,
    {
        ReplayInputHistoryTick {
            source_client_tick: INPUT_HISTORY_CLIENT_TICK_UNKNOWN,
            attack1_start_history_index: -1,
            attack2_start_history_index: -1,
            num_entries: 0,
        }
    }
}

/// Grenade family of a thrown projectile.
#[derive(Clone, Copy, Debug, PartialEq, Eq, Structural)]
pub enum ProjectileKind {
    Unknown,
    Smoke,
    Flash,
    He,
    Molotov,
    Decoy,
}

/// The projectile family named by a grenade type text (ASCII case ignored).
pub open spec fn spec_kind_from_grenade_type(value: Seq<char>) -> ProjectileKind {
    let lower = ascii_lower(value);
    if seq_contains(lower, "smoke"@) {
        ProjectileKind::Smoke
    } else if seq_contains(lower, "flash"@) {
        ProjectileKind::Flash
    } else if seq_contains(lower, "hegrenade"@) || seq_contains(lower, "he_grenade"@) {
        ProjectileKind::He
    } else if seq_contains(lower, "molotov"@) || seq_contains(lower, "incgrenade"@)
        || seq_contains(lower, "inferno"@) {
        ProjectileKind::Molotov
    } else if seq_contains(lower, "decoy"@) {
        ProjectileKind::Decoy
    } else {
        ProjectileKind::Unknown
    }
}

/// The weapon definition index named by a grenade type text (ASCII case ignored).
pub open spec fn spec_weapon_def_from_grenade_type(value: Seq<char>) -> i32 {
    let lower = ascii_lower(value);
    if seq_contains(lower, "flash"@) {
        43
    } else if seq_contains(lower, "hegrenade"@) || seq_contains(lower, "he_grenade"@) {
        44
    } else if seq_contains(lower, "smoke"@) {
        45
    } else if seq_contains(lower, "incgrenade"@) {
        48
    } else if seq_contains(lower, "molotov"@) || seq_contains(lower, "inferno"@) {
        46
    } else if seq_contains(lower, "decoy"@) {
        47
    } else {
        -1i32
    }
}

impl ProjectileKind {
    pub open spec fn spec_to_u8(self) -> u8 {
        match self {
            ProjectileKind::Unknown => 0,
            ProjectileKind::Smoke => 1,
            ProjectileKind::Flash => 2,
            ProjectileKind::He => 3,
            ProjectileKind::Molotov => 4,
            ProjectileKind::Decoy => 5,
        }
    }

    pub open spec fn spec_from_u8(value: u8) -> ProjectileKind {
        match value {
            1 => ProjectileKind::Smoke,
            2 => ProjectileKind::Flash,
            3 => ProjectileKind::He,
            4 => ProjectileKind::Molotov,
            5 => ProjectileKind::Decoy,
            _ => ProjectileKind::Unknown,
        }
    }

    pub open spec fn spec_weapon_def_index(self) -> i32 {
        match self {
            ProjectileKind::Flash => 43,
            ProjectileKind::He => 44,
            ProjectileKind::Smoke => 45,
            ProjectileKind::Molotov => 46,
            ProjectileKind::Decoy => 47,
            ProjectileKind::Unknown => -1i32,
        }
    }

    pub fn from_grenade_type(value: &str) -> (r: ProjectileKind)
        ensures
            r == spec_kind_from_grenade_type(value@),
    {
        let lower = lower_chars_of(value);
        if vec_contains_str(&lower, "smoke") {
            ProjectileKind::Smoke
        } else if vec_contains_str(&lower, "flash") {
            ProjectileKind::Flash
        } else if vec_contains_str(&lower, "hegrenade") || vec_contains_str(&lower, "he_grenade") {
            ProjectileKind::He
        } else if vec_contains_str(&lower, "molotov") || vec_contains_str(&lower, "incgrenade")
            || vec_contains_str(&lower, "inferno") {
            ProjectileKind::Molotov
        } else if vec_contains_str(&lower, "decoy") {
            ProjectileKind::Decoy
        } else {
            ProjectileKind::Unknown
        }
    }

    pub fn to_u8(self) -> (code: u8)
        ensures
            code == self.spec_to_u8(),
    {
        match self {
            ProjectileKind::Unknown => 0,
            ProjectileKind::Smoke => 1,
            ProjectileKind::Flash => 2,
            ProjectileKind::He => 3,
            ProjectileKind::Molotov => 4,
            ProjectileKind::Decoy => 5,
        }
    }

    pub fn from_u8(value: u8) -> (r: ProjectileKind)
        ensures
            r == ProjectileKind::spec_from_u8(value),
    {
        match value {
            1 => ProjectileKind::Smoke,
            2 => ProjectileKind::Flash,
            3 => ProjectileKind::He,
            4 => ProjectileKind::Molotov,
            5 => ProjectileKind::Decoy,
            _ => ProjectileKind::Unknown,
        }
    }

    pub fn weapon_def_index(self) -> (r: i32)
        ensures
            r == self.spec_weapon_def_index(),
    {
        match self {
            ProjectileKind::Flash => 43,
            ProjectileKind::He => 44,
            ProjectileKind::Smoke => 45,
            ProjectileKind::Molotov => 46,
            ProjectileKind::Decoy => 47,
            ProjectileKind::Unknown => -1,
        }
    }

    pub fn weapon_def_index_from_grenade_type(value: &str) -> (r: i32)
        ensures
            r == spec_weapon_def_from_grenade_type(value@),
    {
        let lower = lower_chars_of(value);
        if vec_contains_str(&lower, "flash") {
            43
        } else if vec_contains_str(&lower, "hegrenade") || vec_contains_str(&lower, "he_grenade") {
            44
        } else if vec_contains_str(&lower, "smoke") {
            45
        } else if vec_contains_str(&lower, "incgrenade") {
            48
        } else if vec_contains_str(&lower, "molotov") || vec_contains_str(&lower, "inferno") {
            46
        } else if vec_contains_str(&lower, "decoy") {
            47
        } else {
            -1
        }
    }
}

impl Default for ProjectileKind {
    fn default() -> (r: ProjectileKind)
        ensures
            r == ProjectileKind::Unknown,
    {
        ProjectileKind::Unknown
    }
}

/// The stored code of a projectile kind reads back as the same kind.
pub proof fn lemma_projectile_kind_code_roundtrip(kind: ProjectileKind)
    ensures
        ProjectileKind::spec_from_u8(kind.spec_to_u8()) == kind,
{
}

/// Every stored code up to 5 is the code of the kind it reads back as; any
/// other code reads back as `Unknown`.
pub proof fn lemma_projectile_code_kind_roundtrip(code: u8)
    ensures
        code <= 5 ==> ProjectileKind::spec_from_u8(code).spec_to_u8() == code,
        code > 5 ==> ProjectileKind::spec_from_u8(code) == ProjectileKind::Unknown,
{
}

/// The weapon of a detected projectile kind agrees with the weapon named by
/// the same grenade type text, except for incendiary grenades, which share
/// the molotov kind but keep their own weapon.
pub proof fn lemma_grenade_kind_and_weapon_agree(value: Seq<char>)
    requires
        !(seq_contains(ascii_lower(value), "smoke"@) && (seq_contains(ascii_lower(value), "flash"@)
            || seq_contains(ascii_lower(value), "hegrenade"@) || seq_contains(
            ascii_lower(value),
            "he_grenade"@,
        ))),
        !(seq_contains(ascii_lower(value), "incgrenade"@) && !seq_contains(
            ascii_lower(value),
            "smoke"@,
        ) && !seq_contains(ascii_lower(value), "flash"@) && !seq_contains(
            ascii_lower(value),
            "hegrenade"@,
        ) && !seq_contains(ascii_lower(value), "he_grenade"@)),
    ensures
        spec_kind_from_grenade_type(value).spec_weapon_def_index()
            == spec_weapon_def_from_grenade_type(value),
{
}

/// Where the effect position of a projectile came from.
#[derive(Clone, Copy, Debug, PartialEq, Eq, Structural)]
pub enum ProjectileEffectSource {
    Unknown,
    SmokeDetonationProp,
    SmokeDetonationEvent,
    FlashDetonationEvent,
    HeDetonationEvent,
    MolotovDetonationEvent,
    InfernoStartBurnEvent,
    DecoyStartedEvent,
    DecoyDetonationEvent,
}

/// Kinds of high-fidelity replay events.
#[derive(Clone, Copy, Debug, PartialEq, Eq, Structural)]
pub enum ReplayHifiEventKind {
    BombInitialOwner,
    ItemDrop,
    ItemPickup,
    ItemTransfer,
    BombDrop,
    BombPickup,
    BombBeginplant,
    BombPlanted,
    WeaponFire,
    PlayerHurt,
    PlayerDeath,
    RoundStart,
    RoundFreezeEnd,
}

#[derive(Clone, Debug)]
pub struct ReplayHifiEvent {
    pub tick_index: u32,
    pub tick: i32,
    pub kind: ReplayHifiEventKind,
    pub actor_steam_id: Option<u64>,
    pub target_steam_id: Option<u64>,
    pub weapon_def_index: Option<i32>,
    pub item_name: Option<String>,
    pub entity_id: Option<i32>,
    pub actor_count_after: Option<u32>,
    pub target_count_after: Option<u32>,
    pub damage: Option<i32>,
    pub health: Option<i32>,
}

#[derive(Clone, Debug)]
pub struct ReplayInventorySnapshot {
    pub tick_index: u32,
    pub tick: i32,
    pub steam_id: u64,
    pub weapon_def_counts: Vec<ReplayInventoryItemCount>,
    pub active_weapon_def_index: i32,
    pub armor_value: u32,
    pub has_helmet: bool,
    pub has_defuser: bool,
}

#[derive(Clone, Copy, Debug, PartialEq, Eq, Structural)]
pub struct ReplayInventoryItemCount {
    pub weapon_def_index: i32,
    pub count: u32,
}

/// Image format of a custom avatar.
#[derive(Clone, Copy, Debug, PartialEq, Eq, Structural)]
pub enum AvatarImageFormat {
    Png,
    Jpeg,
    Binary,
}

impl AvatarImageFormat {
    /// File extension of the format.
    pub fn extension(self) -> (r: &'static str)
        ensures
            self == AvatarImageFormat::Png ==> r@ == "png"@,
            self == AvatarImageFormat::Jpeg ==> r@ == "jpg"@,
            self == AvatarImageFormat::Binary ==> r@ == "bin"@,
    {
        match self {
            AvatarImageFormat::Png => "png",
            AvatarImageFormat::Jpeg => "jpg",
            AvatarImageFormat::Binary => "bin",
        }
    }
}

impl Default for AvatarImageFormat {
    fn default() -> (r: AvatarImageFormat)
        ensures
            r == AvatarImageFormat::Binary,
    {
        AvatarImageFormat::Binary
    }
}

#[derive(Clone, Debug)]
pub struct ParsedAvatarOverride {
    pub steam_id: u64,
    pub format: AvatarImageFormat,
    pub sha256: String,
    pub source: String,
    pub bytes: Vec<u8>,
}

/// A game event of the demo, reduced to the fields the replay uses.
#[derive(Clone, Debug)]
pub struct ParsedGameEvent {
    pub tick: i32,
    pub name: String,
    pub user_steam_id: Option<u64>,
    pub attacker_steam_id: Option<u64>,
    pub victim_steam_id: Option<u64>,
    pub weapon_def_index: Option<i32>,
    pub item_name: Option<String>,
    pub entity_id: Option<i32>,
    pub damage: Option<i32>,
    pub health: Option<i32>,
    /// Winning engine side for `round_end` (`2` = T, `3` = CT).
    pub winner_side: Option<u8>,
    pub chat_text: Option<String>,
    pub chat_scope: Option<String>,
    pub chat_message_name: Option<String>,
}

impl Default for ParsedGameEvent {
    fn default() -> (r: ParsedGameEvent)
        ensures
            r.tick == 0,
            r.name@ == Seq::<char>::empty(),
            r.user_steam_id is None,
            r.attacker_steam_id is None,
            r.victim_steam_id is None,
            r.weapon_def_index is None,
            r.item_name is None,
            r.entity_id is None,
            r.damage is None,
            r.health is None,
            r.winner_side is None,
            r.chat_text is None,
            r.chat_scope is None,
            r.chat_message_name is None,
    {
        ParsedGameEvent {
            tick: 0,
            name: String::new(),
            user_steam_id: None,
            attacker_steam_id: None,
            victim_steam_id: None,
            weapon_def_index: None,
            item_name: None,
            entity_id: None,
            damage: None,
            health: None,
            winner_side: None,
            chat_text: None,
            chat_scope: None,
            chat_message_name: None,
        }
    }
}

#[derive(Clone, Copy, Debug, PartialEq, Eq, Structural)]
pub struct ParsedScoreboardFlair {
    pub item_def_index: u32,
}

#[derive(Clone, Copy, Debug, PartialEq, Eq, Structural)]
pub enum RoundStatus {
    Recommended,
    Partial,
    Suspicious,
}

#[derive(Clone, Debug)]
pub struct ManifestAvatarOverride {
    pub steam_id: u64,
    pub format: AvatarImageFormat,
    pub sha256: String,
    pub path: String,
    pub source: String,
    pub bytes: usize,
}

#[derive(Clone, Copy, Debug, PartialEq, Eq, Structural)]
pub enum EconomyClass {
    Pistol,
    Eco,
    Force,
    Full,
    Unknown,
}

impl Default for EconomyClass {
    fn default() -> (r: EconomyClass)
        ensures
            r == EconomyClass::Full,
    {
        EconomyClass::Full
    }
}

#[derive(Clone, Debug)]
pub struct TeamEconomy {
    pub side: String,
    pub players: usize,
    pub round_start_equipment_value: u32,
    pub equipment_value_total: u32,
    pub money_saved_total: u32,
    pub cash_spent_this_round: u32,
    pub class: EconomyClass,
}

#[derive(Clone, Debug)]
pub struct ReplayLoadout {
    pub weapon_def_indices: Vec<i32>,
    pub armor_value: u32,
    pub has_helmet: bool,
    pub has_defuser: bool,
}

#[derive(Clone, Copy, Debug, PartialEq, Eq, Structural)]
pub struct ReplayScoreboardFlair {
    pub item_def_index: u32,
}

#[derive(Clone, Debug)]
pub struct ReplayRoundScoreboard {
    pub t_score: u32,
    pub ct_score: u32,
    pub t_team_name: Option<String>,
    pub ct_team_name: Option<String>,
}

#[derive(Clone, Debug)]
pub struct ReplayPlayerScoreboard {
    pub player_user_id: Option<i32>,
    pub player_entity_id: Option<i32>,
    pub player_color: Option<String>,
    pub score: Option<i32>,
    pub kills: Option<u32>,
    pub deaths: Option<u32>,
    pub assists: Option<u32>,
    pub mvps: Option<u32>,
}

impl Default for ReplayPlayerScoreboard {
    fn default() -> (r: ReplayPlayerScoreboard)
        ensures
            r.player_user_id is None && r.player_entity_id is None && r.player_color is None && r.score is None
                && r.kills is None && r.deaths is None && r.assists is None && r.mvps is None,
    {
        ReplayPlayerScoreboard {
            player_user_id: None,
            player_entity_id: None,
            player_color: None,
            score: None,
            kills: None,
            deaths: None,
            assists: None,
            mvps: None,
        }
    }
}

impl ReplayPlayerScoreboard {
    /// True when no scoreboard field carries a value.
    pub fn is_empty(&self) -> (r: bool)
        ensures
            r == (self.score is None && self.player_user_id is None && self.player_entity_id is None
                && self.player_color is None && self.kills is None && self.deaths is None
                && self.assists is None && self.mvps is None),
    {
        self.score.is_none() && self.player_user_id.is_none() && self.player_entity_id.is_none()
            && self.player_color.is_none() && self.kills.is_none() && self.deaths.is_none()
            && self.assists.is_none() && self.mvps.is_none()
    }
}

#[derive(Clone, Debug)]
pub struct ReplayChatMessage {
    pub tick: i32,
    pub sender_steam_id: u64,
    pub sender_name: Option<String>,
    pub scope: String,
    pub text: String,
}

/// Preview command of an item, and the Steam link that runs it.
#[derive(Clone, Debug)]
pub struct ReplayCosmeticInspect {
    pub command: String,
    pub steam_url: Option<String>,
}

#[derive(Clone, Debug)]
pub struct ReplayAgentCosmetic {
    pub item_def_index: u32,
    pub model_path: String,
    pub name: Option<String>,
}

/// A sticker on a weapon; float values are kept as their bit patterns.
#[derive(Clone, Copy, Debug, PartialEq, Eq, Structural)]
pub struct ReplayWeaponSticker {
    pub slot: u8,
    pub sticker_id: u32,
    pub wear_bits: u32,
    pub offset_x_bits: u32,
    pub offset_y_bits: u32,
    pub scale_bits: Option<u32>,
    pub rotation_bits: Option<u32>,
}

/// A charm (keychain) on a weapon; float values are kept as their bit patterns.
#[derive(Clone, Copy, Debug, PartialEq, Eq, Structural)]
pub struct ReplayWeaponCharm {
    pub slot: u8,
    pub charm_id: u32,
    pub offset_x_bits: u32,
    pub offset_y_bits: u32,
    pub offset_z_bits: u32,
    pub seed: Option<u32>,
    pub highlight: Option<u32>,
    pub sticker_id: Option<u32>,
}

/// The appearance of one weapon in a replay; `wear_bits` is the paint wear's bit pattern.
#[derive(Clone, Debug)]
pub struct ReplayWeaponCosmetic {
    pub weapon_def_index: i32,
    pub paint_kit: u32,
    pub seed: u32,
    pub wear_bits: u32,
    pub quality: Option<i32>,
    pub stattrak_counter: Option<i32>,
    pub original_owner_steam_id: Option<u64>,
    pub item_account_id: Option<u32>,
    pub item_id: Option<u64>,
    pub custom_name: Option<String>,
    pub stickers: Vec<ReplayWeaponSticker>,
    pub charms: Vec<ReplayWeaponCharm>,
    pub inspect: Option<ReplayCosmeticInspect>,
}

/// The appearance of a knife or glove in a replay; `wear_bits` is the paint wear's bit pattern.
#[derive(Clone, Debug)]
pub struct ReplayItemCosmetic {
    pub item_def_index: Option<i32>,
    pub paint_kit: u32,
    pub seed: u32,
    pub seed_known: Option<bool>,
    pub wear_bits: u32,
    pub custom_name: Option<String>,
    pub inspect: Option<ReplayCosmeticInspect>,
}


/// A player's replay appearances for one round.
#[derive(Clone, Debug)]
pub struct ReplayCosmetics {
    pub weapons: Vec<ReplayWeaponCosmetic>,
    pub knife: Option<ReplayItemCosmetic>,
    pub glove: Option<ReplayItemCosmetic>,
    pub agent: Option<ReplayAgentCosmetic>,
}

impl ReplayCosmetics {
    pub open spec fn spec_is_empty(&self) -> bool {
        self.weapons@.len() == 0 && self.knife is None && self.glove is None && self.agent is None
    }

    /// No weapon, knife, glove or agent appearance.
    pub fn is_empty(&self) -> (r: bool)
        ensures
            r == self.spec_is_empty(),
    {
        self.weapons.len() == 0 && self.knife.is_none() && self.glove.is_none() && self.agent.is_none()
    }
}

} // verus!
