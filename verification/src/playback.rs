//! Round-scoped replay appearances from what a player holds and wears: the
//! knife and weapons in hand and the gloves, with the player's economy items
//! filling in what the live fields leave unknown.
use crate::catalog::Cs2LibEconIndex;
use crate::cosmetics::{
    agent_model_path_from_name, cosmetic_custom_name_value, cosmetic_paint_spec, lemma_agent_path_is_function,
    spec_agent_path, spec_custom_name_value, spec_paint_spec,
    CosmeticPaintSpec, STEAM_ID64_BASE,
};
use crate::digest::{sha256, sha256_digest};
use crate::inspect_link::{
    item_inspect, item_inspect_applies, item_preview_matches, le32, preview_bytes, push_le32, spec_inspect, valid_wear,
    wear_bits_valid, weapon_inspect, weapon_inspect_applies, weapon_preview_matches, PreviewData,
};
use crate::segment_merge::SegmentEconItem;
use crate::text::{chars_of, string_of, vec_eq};
use crate::cosmetics::{knife_names_for, stable_knife_custom_name, Unique};
use crate::model::{ParsedScoreboardFlair, ReplayAgentCosmetic, ReplayCosmeticInspect, ReplayCosmetics, ReplayScoreboardFlair, ReplayItemCosmetic, ReplayWeaponCosmetic, ReplayWeaponSticker};
use crate::weapon_evidence::{
    cosmetic_sticker_set_from_slice, fold_obs, inventory_weapon_cosmetics_for_row, lists_weapon, weapon_matches,
    weapon_shown, weapons_listed, ParsedInventoryWeaponCosmetic, insert_sorted_distinct, lemma_fold_obs_none, nonzero_u64,
    nonzero_u64_of, observe_name, observe_opt, observe_paint, observe_stickers, observe_u32, observe_u64,
    observe_value, opt_str_view, spec_is_weapon_cosmetic, spec_sticker_set, str_evidence, strictly_increasing,
    unique_name, unique_value, vec_evidence, ParsedWeaponSticker,
};
use vstd::prelude::*;
use vstd::string::StringSliceAdditionalSpecFns;

verus! {

/// The appearance fields of one sampled player tick; float values are kept
/// as their bit patterns. `inventory_snapshot` identifies the sampled
/// inventory: rows that share one inventory sample share its number.
#[derive(Clone, Debug)]
pub struct CosmeticRow {
    pub steam_id: u64,
    pub team_num: u8,
    pub is_alive: bool,
    pub inventory_weapon_cosmetics: Vec<ParsedInventoryWeaponCosmetic>,
    pub inventory_snapshot: u64,
    pub agent_item_def_index: Option<u32>,
    pub agent_skin: Option<String>,
    pub music_kit_id: Option<u32>,
    pub scoreboard_flair: Option<ParsedScoreboardFlair>,
    pub item_def_idx: i32,
    pub active_weapon_paint_kit: Option<u32>,
    pub active_weapon_paint_seed: Option<u32>,
    pub active_weapon_paint_wear_bits: Option<u32>,
    pub active_weapon_original_owner_steam_id: Option<u64>,
    pub active_weapon_item_account_id: Option<u32>,
    pub active_weapon_item_id: Option<u64>,
    pub active_weapon_custom_name: Option<String>,
    pub active_weapon_stickers: Vec<ParsedWeaponSticker>,
    pub glove_item_def_index: Option<i32>,
    pub glove_paint_kit: Option<u32>,
    pub glove_paint_seed: Option<u32>,
    pub glove_paint_wear_bits: Option<u32>,
}

/// A glove appearance as economy items key it: model, paint kit and wear bits.
#[derive(Clone, Copy, Debug, PartialEq, Eq, Structural)]
pub struct EconGloveKey {
    pub item_def_index: i32,
    pub paint_kit: u32,
    pub wear_bits: u32,
}

/// A knife paint as the player's economy items report it.
#[derive(Clone, Debug)]
pub struct EconKnifePaint {
    pub paint_kit: u32,
    pub seed: u32,
    pub wear_bits: u32,
    pub custom_name: Option<String>,
}

/// A glove seen on a player, with its seed when the row or the economy items know it.
#[derive(Clone, Copy, Debug, PartialEq, Eq, Structural)]
pub struct ObservedGloveSpec {
    pub key: EconGloveKey,
    pub seed: Option<u32>,
}

/// What a knife paint says, with the name by its text.
pub open spec fn knife_paint_view(p: EconKnifePaint) -> (u32, u32, u32, Option<Seq<char>>) {
    (p.paint_kit, p.seed, p.wear_bits, opt_str_view(p.custom_name))
}

pub open spec fn opt_knife_paint_view(o: Option<EconKnifePaint>) -> Option<(u32, u32, u32, Option<Seq<char>>)> {
    match o {
        Some(p) => Some(knife_paint_view(p)),
        None => None,
    }
}

fn copy_knife_paint(p: &EconKnifePaint) -> (r: EconKnifePaint)
    ensures
        knife_paint_view(r) == knife_paint_view(*p),
{
    EconKnifePaint {
        paint_kit: p.paint_kit,
        seed: p.seed,
        wear_bits: p.wear_bits,
        custom_name: match &p.custom_name {
            Some(n) => Some(string_of(n.as_str())),
            None => None,
        },
    }
}

// ---------------------------------------------------------------------------
// Keyed entries
// ---------------------------------------------------------------------------

/// The value of the first entry with `key`.
pub open spec fn entry_for<K, V>(entries: Seq<(K, V)>, key: K) -> Option<V>
    decreases entries.len(),
{
    if entries.len() == 0 {
        None
    } else if entries[0].0 == key {
        Some(entries[0].1)
    } else {
        entry_for(entries.drop_first(), key)
    }
}

/// No key occurs twice.
pub open spec fn distinct_keys<K, V>(entries: Seq<(K, V)>) -> bool {
    forall|a: int, b: int| 0 <= a < b < entries.len() ==> #[trigger] entries[a].0 != #[trigger] entries[b].0
}

proof fn lemma_entry_for_at<K, V>(entries: Seq<(K, V)>, i: int)
    requires
        0 <= i < entries.len(),
        forall|j: int| 0 <= j < i ==> #[trigger] entries[j].0 != entries[i].0,
    ensures
        entry_for(entries, entries[i].0) == Some(entries[i].1),
    decreases i,
{
    if i > 0 {
        let rest = entries.drop_first();
        assert forall|j: int| 0 <= j < i - 1 implies #[trigger] rest[j].0 != rest[i - 1].0 by {
            assert(rest[j] == entries[j + 1]);
        }
        lemma_entry_for_at(rest, i - 1);
    }
}

proof fn lemma_entry_for_absent<K, V>(entries: Seq<(K, V)>, key: K)
    requires
        forall|j: int| 0 <= j < entries.len() ==> #[trigger] entries[j].0 != key,
    ensures
        entry_for(entries, key) is None,
    decreases entries.len(),
{
    if entries.len() > 0 {
        let rest = entries.drop_first();
        assert forall|j: int| 0 <= j < rest.len() implies #[trigger] rest[j].0 != key by {
            assert(rest[j] == entries[j + 1]);
        }
        lemma_entry_for_absent(rest, key);
    }
}

proof fn lemma_entry_for_some<K, V>(entries: Seq<(K, V)>, key: K)
    requires
        entry_for(entries, key) is Some,
    ensures
        exists|j: int| 0 <= j < entries.len() && #[trigger] entries[j].0 == key && entries[j].1 == entry_for(entries, key)->0,
    decreases entries.len(),
{
    if entries[0].0 != key {
        let rest = entries.drop_first();
        lemma_entry_for_some(rest, key);
        let j = choose|j: int| 0 <= j < rest.len() && #[trigger] rest[j].0 == key && rest[j].1 == entry_for(rest, key)->0;
        assert(entries[j + 1] == rest[j]);
    } else {
        assert(entries[0].0 == key);
    }
}

/// Under distinct keys, an entry's value is what `entry_for` finds.
proof fn lemma_entry_for_distinct<K, V>(entries: Seq<(K, V)>, i: int)
    requires
        distinct_keys(entries),
        0 <= i < entries.len(),
    ensures
        entry_for(entries, entries[i].0) == Some(entries[i].1),
{
    assert forall|j: int| 0 <= j < i implies #[trigger] entries[j].0 != entries[i].0 by {}
    lemma_entry_for_at(entries, i);
}

/// Replacing the value of an entry changes what its key finds and nothing else.
proof fn lemma_entry_for_update<K, V>(entries: Seq<(K, V)>, i: int, v: V, other: K)
    requires
        distinct_keys(entries),
        0 <= i < entries.len(),
    ensures
        distinct_keys(entries.update(i, (entries[i].0, v))),
        entry_for(entries.update(i, (entries[i].0, v)), entries[i].0) == Some(v),
        other != entries[i].0 ==> entry_for(entries.update(i, (entries[i].0, v)), other) == entry_for(entries, other),
{
    let u = entries.update(i, (entries[i].0, v));
    assert forall|a: int, b: int| 0 <= a < b < u.len() implies #[trigger] u[a].0 != #[trigger] u[b].0 by {
        assert(u[a].0 == entries[a].0);
        assert(u[b].0 == entries[b].0);
    }
    lemma_entry_for_distinct(u, i);
    if other != entries[i].0 {
        if entry_for(entries, other) is Some {
            lemma_entry_for_some(entries, other);
            let j = choose|j: int| 0 <= j < entries.len() && #[trigger] entries[j].0 == other && entries[j].1 == entry_for(entries, other)->0;
            lemma_entry_for_distinct(entries, j);
            lemma_entry_for_distinct(u, j);
        } else {
            assert forall|j: int| 0 <= j < u.len() implies #[trigger] u[j].0 != other by {
                if u[j].0 == other {
                    lemma_entry_for_distinct(entries, j);
                }
            }
            lemma_entry_for_absent(u, other);
        }
    }
}

/// Appending an entry under a new key.
proof fn lemma_entry_for_push<K, V>(entries: Seq<(K, V)>, key: K, v: V, other: K)
    requires
        distinct_keys(entries),
        entry_for(entries, key) is None,
    ensures
        distinct_keys(entries.push((key, v))),
        entry_for(entries.push((key, v)), key) == Some(v),
        other != key ==> entry_for(entries.push((key, v)), other) == entry_for(entries, other),
{
    let p = entries.push((key, v));
    assert forall|j: int| 0 <= j < entries.len() implies #[trigger] entries[j].0 != key by {
        if entries[j].0 == key {
            lemma_entry_for_distinct(entries, j);
        }
    }
    assert forall|a: int, b: int| 0 <= a < b < p.len() implies #[trigger] p[a].0 != #[trigger] p[b].0 by {
        if b == entries.len() {
            assert(entries[a].0 != key);
        } else {
            assert(p[a] == entries[a] && p[b] == entries[b]);
        }
    }
    lemma_entry_for_distinct(p, entries.len() as int);
    if other != key {
        if entry_for(entries, other) is Some {
            lemma_entry_for_some(entries, other);
            let j = choose|j: int| 0 <= j < entries.len() && #[trigger] entries[j].0 == other && entries[j].1 == entry_for(entries, other)->0;
            lemma_entry_for_distinct(entries, j);
            assert(p[j] == entries[j]);
            lemma_entry_for_distinct(p, j);
        } else {
            assert forall|j: int| 0 <= j < p.len() implies #[trigger] p[j].0 != other by {
                if j < entries.len() && p[j].0 == other {
                    assert(p[j] == entries[j]);
                    lemma_entry_for_distinct(entries, j);
                }
            }
            lemma_entry_for_absent(p, other);
        }
    }
}

/// Position of the first entry for knife model `def`.
fn find_knife_entry(entries: &Vec<(i32, Option<EconKnifePaint>)>, def: i32) -> (r: Option<usize>)
    ensures
        match r {
            Some(i) => i < entries@.len() && entries@[i as int].0 == def && entry_for(entries@, def) == Some(
                entries@[i as int].1,
            ),
            None => entry_for(entries@, def) is None,
        },
{
    let mut i: usize = 0;
    while i < entries.len()
        invariant
            i <= entries.len(),
            forall|j: int| 0 <= j < i ==> #[trigger] entries@[j].0 != def,
        decreases entries.len() - i,
    {
        if entries[i].0 == def {
            proof {
                lemma_entry_for_at(entries@, i as int);
            }
            return Some(i);
        }
        i = i + 1;
    }
    proof {
        lemma_entry_for_absent(entries@, def);
    }
    None
}

/// Position of the first entry for glove `key`.
fn find_glove_entry(entries: &Vec<(EconGloveKey, Option<u32>)>, key: EconGloveKey) -> (r: Option<usize>)
    ensures
        match r {
            Some(i) => i < entries@.len() && entries@[i as int].0 == key && entry_for(entries@, key) == Some(
                entries@[i as int].1,
            ),
            None => entry_for(entries@, key) is None,
        },
{
    let mut i: usize = 0;
    while i < entries.len()
        invariant
            i <= entries.len(),
            forall|j: int| 0 <= j < i ==> #[trigger] entries@[j].0 != key,
        decreases entries.len() - i,
    {
        let k = entries[i].0;
        if k.item_def_index == key.item_def_index && k.paint_kit == key.paint_kit && k.wear_bits == key.wear_bits {
            proof {
                lemma_entry_for_at(entries@, i as int);
            }
            return Some(i);
        }
        i = i + 1;
    }
    proof {
        lemma_entry_for_absent(entries@, key);
    }
    None
}

// ---------------------------------------------------------------------------
// Economy fallbacks
// ---------------------------------------------------------------------------

/// The seed the player's economy items agree on for a glove.
pub open spec fn spec_econ_glove_seed(seeds: Option<Seq<(EconGloveKey, Option<u32>)>>, key: EconGloveKey) -> Option<u32> {
    match seeds {
        Some(m) => match entry_for(m, key) {
            Some(Some(s)) => Some(s),
            _ => None,
        },
        None => None,
    }
}

pub open spec fn seq_of<T>(o: Option<&Vec<T>>) -> Option<Seq<T>> {
    match o {
        Some(v) => Some(v@),
        None => None,
    }
}

pub fn matching_econ_glove_seed(
    seeds: Option<&Vec<(EconGloveKey, Option<u32>)>>,
    item_def_index: i32,
    paint_kit: u32,
    wear_bits: u32,
) -> (r: Option<u32>)
    ensures
        r == spec_econ_glove_seed(seq_of(seeds), EconGloveKey { item_def_index, paint_kit, wear_bits }),
{
    let key = EconGloveKey { item_def_index, paint_kit, wear_bits };
    match seeds {
        Some(m) => match find_glove_entry(m, key) {
            Some(i) => m[i].1,
            None => None,
        },
        None => None,
    }
}

/// The paint the player's economy items agree on for knife model `def`.
pub open spec fn spec_econ_knife_paint(paints: Option<Seq<(i32, Option<EconKnifePaint>)>>, def: i32) -> Option<EconKnifePaint> {
    match paints {
        Some(m) => match entry_for(m, def) {
            Some(Some(p)) => Some(p),
            _ => None,
        },
        None => None,
    }
}

pub fn matching_econ_knife_paint(paints: Option<&Vec<(i32, Option<EconKnifePaint>)>>, item_def_index: i32) -> (r:
    Option<EconKnifePaint>)
    ensures
        opt_knife_paint_view(r) == opt_knife_paint_view(spec_econ_knife_paint(seq_of(paints), item_def_index)),
{
    match paints {
        Some(m) => match find_knife_entry(m, item_def_index) {
            Some(i) => match &m[i].1 {
                Some(p) => Some(copy_knife_paint(p)),
                None => None,
            },
            None => None,
        },
        None => None,
    }
}

// ---------------------------------------------------------------------------
// What the weapon in hand says
// ---------------------------------------------------------------------------

/// The player owns the weapon in hand: its account id is the player's, or the
/// player is its original owner.
pub open spec fn spec_owned_by(row: CosmeticRow) -> bool {
    (row.steam_id >= STEAM_ID64_BASE && row.steam_id - STEAM_ID64_BASE <= u32::MAX
        && row.active_weapon_item_account_id == Some((row.steam_id - STEAM_ID64_BASE) as u32))
        || row.active_weapon_original_owner_steam_id == Some(row.steam_id)
}

/// The weapon in hand is the player's exactly when its item account id is
/// the player's own account (the player's SteamID64 is that account id past
/// the SteamID64 base) or the player is its original owner. A teammate's
/// weapon picked up, with another account id and no original owner, is not
/// the player's.
pub proof fn law_owned_weapon_is_the_players(row: CosmeticRow)
    ensures
        spec_owned_by(row) <==> ((row.active_weapon_item_account_id matches Some(a) && a + STEAM_ID64_BASE
            == row.steam_id) || row.active_weapon_original_owner_steam_id == Some(row.steam_id)),
{
    if let Some(a) = row.active_weapon_item_account_id {
        if a + STEAM_ID64_BASE == row.steam_id {
            assert(row.steam_id - STEAM_ID64_BASE == a);
            assert((row.steam_id - STEAM_ID64_BASE) as u32 == a);
        }
    }
}

pub fn active_cosmetic_owned_by(row: &CosmeticRow) -> (r: bool)
    ensures
        r == spec_owned_by(*row),
        r <==> ((row.active_weapon_item_account_id matches Some(a) && a + STEAM_ID64_BASE == row.steam_id)
            || row.active_weapon_original_owner_steam_id == Some(row.steam_id)),
{
    proof {
        law_owned_weapon_is_the_players(*row);
    }
    let by_account = if row.steam_id >= STEAM_ID64_BASE && row.steam_id - STEAM_ID64_BASE <= 0xffff_ffff {
        let expected = (row.steam_id - STEAM_ID64_BASE) as u32;
        match row.active_weapon_item_account_id {
            Some(actual) => actual == expected,
            None => false,
        }
    } else {
        false
    };
    let by_owner = match row.active_weapon_original_owner_steam_id {
        Some(owner) => owner == row.steam_id,
        None => false,
    };
    by_account || by_owner
}

/// The weapon in hand can be told apart from other copies: a nonzero item id
/// or an account id above 1.
pub open spec fn spec_trusted_active(row: CosmeticRow) -> bool {
    (row.active_weapon_item_id matches Some(id) && id != 0) || (row.active_weapon_item_account_id matches Some(a)
        && a > 1)
}

pub fn has_trusted_active_weapon_cosmetic_identity(row: &CosmeticRow) -> (r: bool)
    ensures
        r == spec_trusted_active(*row),
{
    let id_known = match row.active_weapon_item_id {
        Some(id) => id != 0,
        None => false,
    };
    let account_known = match row.active_weapon_item_account_id {
        Some(a) => a > 1,
        None => false,
    };
    id_known || account_known
}

pub open spec fn spec_active_custom_name(row: CosmeticRow) -> Option<Seq<char>> {
    spec_custom_name_value(opt_str_view(row.active_weapon_custom_name))
}

pub fn active_cosmetic_custom_name(row: &CosmeticRow) -> (r: Option<String>)
    ensures
        opt_str_view(r) == spec_active_custom_name(*row),
{
    match &row.active_weapon_custom_name {
        Some(name) => cosmetic_custom_name_value(Some(name.as_str())),
        None => cosmetic_custom_name_value(None),
    }
}

/// Every live econ field of the weapon in hand is at its network default.
pub open spec fn live_econ_unavailable(row: CosmeticRow) -> bool {
    &&& (row.active_weapon_paint_kit matches Some(v) ==> v == 0)
    &&& (row.active_weapon_paint_seed matches Some(v) ==> v == 0)
    &&& row.active_weapon_paint_wear_bits is None
    &&& (row.active_weapon_original_owner_steam_id matches Some(v) ==> v == 0)
    &&& (row.active_weapon_item_account_id matches Some(v) ==> v <= 1)
    &&& (row.active_weapon_item_id matches Some(v) ==> v == 0)
}

/// The economy paint of the knife in hand: for an owned knife with a valid
/// live wear, only when the live seed and wear match it; otherwise only when
/// every live econ field is at its default.
pub open spec fn spec_active_econ_knife(paints: Option<Seq<(i32, Option<EconKnifePaint>)>>, row: CosmeticRow) -> Option<EconKnifePaint> {
    match spec_econ_knife_paint(paints, row.item_def_idx) {
        None => None,
        Some(p) => if spec_owned_by(row) && (row.active_weapon_paint_wear_bits matches Some(w) && wear_bits_valid(w)) {
            if row.active_weapon_paint_seed == Some(p.seed) && row.active_weapon_paint_wear_bits == Some(p.wear_bits) {
                Some(p)
            } else {
                None
            }
        } else if live_econ_unavailable(row) {
            Some(p)
        } else {
            None
        },
    }
}

pub fn matching_active_econ_knife_paint(
    paints: Option<&Vec<(i32, Option<EconKnifePaint>)>>,
    row: &CosmeticRow,
) -> (r: Option<EconKnifePaint>)
    ensures
        opt_knife_paint_view(r) == opt_knife_paint_view(spec_active_econ_knife(seq_of(paints), *row)),
{
    let paint = match matching_econ_knife_paint(paints, row.item_def_idx) {
        Some(p) => p,
        None => return None,
    };
    if active_cosmetic_owned_by(row) {
        if let Some(w) = row.active_weapon_paint_wear_bits {
            if valid_wear(w) {
                let seed_matches = match row.active_weapon_paint_seed {
                    Some(s) => s == paint.seed,
                    None => false,
                };
                return if seed_matches && w == paint.wear_bits {
                    Some(paint)
                } else {
                    None
                };
            }
        }
    }
    let kit_default = match row.active_weapon_paint_kit {
        Some(v) => v == 0,
        None => true,
    };
    let seed_default = match row.active_weapon_paint_seed {
        Some(v) => v == 0,
        None => true,
    };
    let owner_default = match row.active_weapon_original_owner_steam_id {
        Some(v) => v == 0,
        None => true,
    };
    let account_default = match row.active_weapon_item_account_id {
        Some(v) => v <= 1,
        None => true,
    };
    let id_default = match row.active_weapon_item_id {
        Some(v) => v == 0,
        None => true,
    };
    if kit_default && seed_default && row.active_weapon_paint_wear_bits.is_none() && owner_default
        && account_default && id_default {
        Some(paint)
    } else {
        None
    }
}

// ---------------------------------------------------------------------------
// Gloves
// ---------------------------------------------------------------------------

/// The glove a row shows: a catalog glove with a catalog paint kit and a
/// valid wear; the seed from the row, else from the economy items.
pub open spec fn spec_observed_glove(
    index: Cs2LibEconIndex,
    row: CosmeticRow,
    seeds: Option<Seq<(EconGloveKey, Option<u32>)>>,
) -> Option<ObservedGloveSpec> {
    match (row.glove_item_def_index, row.glove_paint_kit, row.glove_paint_wear_bits) {
        (Some(d), Some(k), Some(w)) => if index.glove_defidx@.contains(d) && index.paint_kit_ids@.contains(k)
            && wear_bits_valid(w) {
            let key = EconGloveKey { item_def_index: d, paint_kit: k, wear_bits: w };
            Some(
                ObservedGloveSpec {
                    key,
                    seed: match row.glove_paint_seed {
                        Some(s) => Some(s),
                        None => spec_econ_glove_seed(seeds, key),
                    },
                },
            )
        } else {
            None
        },
        _ => None,
    }
}

pub fn observed_glove_spec(
    index: &Cs2LibEconIndex,
    row: &CosmeticRow,
    seeds: Option<&Vec<(EconGloveKey, Option<u32>)>>,
) -> (r: Option<ObservedGloveSpec>)
    ensures
        r == spec_observed_glove(*index, *row, seq_of(seeds)),
{
    let item_def_index = match row.glove_item_def_index {
        Some(d) => if index.valid_glove_item_def_index(d) {
            d
        } else {
            return None;
        },
        None => return None,
    };
    let paint_kit = match row.glove_paint_kit {
        Some(k) => if index.valid_paint_kit(k) {
            k
        } else {
            return None;
        },
        None => return None,
    };
    let wear_bits = match row.glove_paint_wear_bits {
        Some(w) => w,
        None => return None,
    };
    if !valid_wear(wear_bits) {
        return None;
    }
    let seed = match row.glove_paint_seed {
        Some(s) => Some(s),
        None => matching_econ_glove_seed(seeds, item_def_index, paint_kit, wear_bits),
    };
    Some(ObservedGloveSpec { key: EconGloveKey { item_def_index, paint_kit, wear_bits }, seed })
}

/// The first player identity (SteamID and side) among the rows; zeros when none.
pub open spec fn first_identity(rows: Seq<CosmeticRow>) -> (u64, u8)
    decreases rows.len(),
{
    if rows.len() == 0 {
        (0, 0)
    } else if rows[0].steam_id != 0 {
        (rows[0].steam_id, rows[0].team_num)
    } else {
        first_identity(rows.drop_first())
    }
}

/// Little-endian bytes of a 64-bit value.
pub open spec fn le64(v: u64) -> Seq<u8> {
    le32((v % 0x1_0000_0000) as u32) + le32((v / 0x1_0000_0000) as u32)
}

/// Salt of the glove fallback seed (followed by a zero byte).
pub const GLOVE_SEED_SALT: &'static str = "cs2-demotracer-glove-fallback-seed-v1";

/// The bytes hashed for a glove's fallback seed.
pub open spec fn glove_seed_input(identity: (u64, u8), key: EconGloveKey) -> Seq<u8> {
    GLOVE_SEED_SALT.spec_bytes() + seq![0u8] + le64(identity.0) + seq![identity.1] + le32(
        key.item_def_index as u32,
    ) + le32(key.paint_kit) + le32(key.wear_bits)
}

/// A stable seed in `1..=1000` for a glove whose seed nobody reports: from
/// the first four bytes of the SHA-256 of the player's identity and the glove.
pub open spec fn spec_glove_fallback_seed(rows: Seq<CosmeticRow>, key: EconGloveKey) -> u32 {
    let d = sha256(glove_seed_input(first_identity(rows), key));
    (1 + (d[0] + d[1] * 256 + d[2] * 65536 + d[3] * 16777216) % 1000) as u32
}

fn push_le64(output: &mut Vec<u8>, value: u64)
    ensures
        final(output)@ == old(output)@ + le64(value),
{
    let ghost before = output@;
    push_le32(output, (value % 0x1_0000_0000) as u32);
    push_le32(output, (value / 0x1_0000_0000) as u32);
    proof {
        assert(output@ =~= before + le64(value));
    }
}

fn first_identity_of(rows: &[CosmeticRow]) -> (r: (u64, u8))
    ensures
        r == first_identity(rows@),
{
    let mut i: usize = 0;
    proof {
        assert(rows@.subrange(0, rows@.len() as int) =~= rows@);
    }
    while i < rows.len()
        invariant
            i <= rows.len(),
            first_identity(rows@) == first_identity(rows@.subrange(i as int, rows@.len() as int)),
        decreases rows.len() - i,
    {
        proof {
            let rest = rows@.subrange(i as int, rows@.len() as int);
            assert(rest.drop_first() =~= rows@.subrange(i + 1, rows@.len() as int));
        }
        if rows[i].steam_id != 0 {
            return (rows[i].steam_id, rows[i].team_num);
        }
        i = i + 1;
    }
    (0, 0)
}

pub fn stable_glove_fallback_seed(rows: &[CosmeticRow], key: EconGloveKey) -> (r: u32)
    ensures
        r == spec_glove_fallback_seed(rows@, key),
        1 <= r <= 1000,
{
    let identity = first_identity_of(rows);
    let mut data: Vec<u8> = Vec::new();
    let salt = GLOVE_SEED_SALT.as_bytes();
    let mut j: usize = 0;
    while j < salt.len()
        invariant
            j <= salt@.len(),
            data@ == salt@.subrange(0, j as int),
        decreases salt.len() - j,
    {
        data.push(salt[j]);
        proof {
            assert(data@ =~= salt@.subrange(0, j + 1));
        }
        j = j + 1;
    }
    proof {
        assert(data@ =~= salt@);
    }
    data.push(0u8);
    push_le64(&mut data, identity.0);
    data.push(identity.1);
    push_le32(&mut data, key.item_def_index as u32);
    push_le32(&mut data, key.paint_kit);
    push_le32(&mut data, key.wear_bits);
    proof {
        assert(data@ =~= glove_seed_input(first_identity(rows@), key));
    }
    let digest = sha256_digest(data.as_slice());
    let prefix: u32 = digest[0] as u32 + digest[1] as u32 * 256 + digest[2] as u32 * 65536 + digest[3] as u32
        * 16777216;
    1 + prefix % 1000
}


// ---------------------------------------------------------------------------
// The knife in hand
// ---------------------------------------------------------------------------

/// A row of a living player.
pub open spec fn counted(r: CosmeticRow) -> bool {
    r.is_alive && r.steam_id != 0
}

/// A living player holds an ownable knife model.
pub open spec fn spec_is_knife_row(index: Cs2LibEconIndex, r: CosmeticRow) -> bool {
    counted(r) && index.knife_defidx@.contains(r.item_def_idx) && r.item_def_idx != 42 && r.item_def_idx != 59
}

pub open spec fn econ_paint_spec(p: EconKnifePaint) -> CosmeticPaintSpec {
    CosmeticPaintSpec { paint_kit: p.paint_kit, seed: p.seed, wear_bits: p.wear_bits }
}

/// The knife model and paint a row shows: the live paint of an owned knife,
/// else the matching economy paint.
pub open spec fn knife_observation(
    index: Cs2LibEconIndex,
    knives: Option<Seq<(i32, Option<EconKnifePaint>)>>,
    r: CosmeticRow,
) -> Option<(i32, CosmeticPaintSpec)> {
    if !spec_is_knife_row(index, r) {
        None
    } else {
        let live = if spec_owned_by(r) {
            spec_paint_spec(index, r.active_weapon_paint_kit, r.active_weapon_paint_seed, r.active_weapon_paint_wear_bits)
        } else {
            None
        };
        match live {
            Some(s) => Some((r.item_def_idx, s)),
            None => match spec_active_econ_knife(knives, r) {
                Some(p) => Some((r.item_def_idx, econ_paint_spec(p))),
                None => None,
            },
        }
    }
}

/// Knife evidence over the rows: a value when they all show one model and paint.
pub open spec fn knife_evidence(
    index: Cs2LibEconIndex,
    knives: Option<Seq<(i32, Option<EconKnifePaint>)>>,
    rows: Seq<CosmeticRow>,
) -> Unique<(i32, CosmeticPaintSpec)> {
    fold_obs(rows, |r: CosmeticRow| knife_observation(index, knives, r))
}

/// A row names knife model `def` `n`: the live name of an owned knife, or the
/// name of the matching economy paint.
pub open spec fn knife_name_at(
    index: Cs2LibEconIndex,
    knives: Option<Seq<(i32, Option<EconKnifePaint>)>>,
    r: CosmeticRow,
    def: i32,
    n: Seq<char>,
) -> bool {
    &&& spec_is_knife_row(index, r)
    &&& r.item_def_idx == def
    &&& ((spec_owned_by(r) && spec_active_custom_name(r) == Some(n)) || (spec_active_econ_knife(knives, r) matches Some(
        p,
    ) && opt_str_view(p.custom_name) == Some(n)))
}

/// The names the rows give knife model `def`.
pub open spec fn knife_names(
    index: Cs2LibEconIndex,
    knives: Option<Seq<(i32, Option<EconKnifePaint>)>>,
    rows: Seq<CosmeticRow>,
    def: i32,
) -> Set<Seq<char>> {
    Set::new(|n: Seq<char>| exists|i: int| 0 <= i < rows.len() && knife_name_at(index, knives, #[trigger] rows[i], def, n))
}

fn observe_knife(u: &mut Unique<(i32, CosmeticPaintSpec)>, o: Option<(i32, CosmeticPaintSpec)>)
    ensures
        *final(u) == observe_opt(*old(u), o),
{
    if let Some(v) = o {
        *u = match *u {
            Unique::Missing => Unique::Value(v),
            Unique::Value(p) => if p.0 == v.0 && p.1.paint_kit == v.1.paint_kit && p.1.seed == v.1.seed
                && p.1.wear_bits == v.1.wear_bits {
                Unique::Value(p)
            } else {
                Unique::Conflict
            },
            Unique::Conflict => Unique::Conflict,
        };
    }
}

proof fn lemma_names_push(names: Seq<(i32, String)>, e: (i32, String), d: i32, n: Seq<char>)
    ensures
        knife_names_for(names.push(e), d).contains(n) <==> (knife_names_for(names, d).contains(n) || (e.0 == d
            && e.1@ == n)),
{
    let p = names.push(e);
    if knife_names_for(p, d).contains(n) {
        let i = choose|i: int| 0 <= i < p.len() && p[i].0 == d && p[i].1@ == n;
        if i < names.len() {
            assert(names[i] == p[i]);
            assert(knife_names_for(names, d).contains(n));
        }
    }
    if knife_names_for(names, d).contains(n) {
        let i = choose|i: int| 0 <= i < names.len() && names[i].0 == d && names[i].1@ == n;
        assert(p[i] == names[i]);
        assert(knife_names_for(p, d).contains(n));
    }
    if e.0 == d && e.1@ == n {
        assert(p[names.len() as int] == e);
        assert(knife_names_for(p, d).contains(n));
    }
}

/// The knife evidence of the rows, and every name they give a knife model.
fn knife_pass(
    index: &Cs2LibEconIndex,
    rows: &[CosmeticRow],
    knives: Option<&Vec<(i32, Option<EconKnifePaint>)>>,
) -> (r: (Unique<(i32, CosmeticPaintSpec)>, Vec<(i32, String)>))
    ensures
        r.0 == knife_evidence(*index, seq_of(knives), rows@),
        forall|d: i32, n: Seq<char>| #[trigger] knife_names_for(r.1@, d).contains(n) <==> knife_names(*index, seq_of(knives), rows@, d).contains(n),
{
    let mut u: Unique<(i32, CosmeticPaintSpec)> = Unique::Missing;
    let mut names: Vec<(i32, String)> = Vec::new();
    let mut k: usize = 0;
    while k < rows.len()
        invariant
            k <= rows.len(),
            u == knife_evidence(*index, seq_of(knives), rows@.take(k as int)),
            forall|d: i32, n: Seq<char>| #[trigger] knife_names_for(names@, d).contains(n) <==> exists|i: int|
                0 <= i < k && knife_name_at(*index, seq_of(knives), #[trigger] rows@[i], d, n),
        decreases rows.len() - k,
    {
        let row = &rows[k];
        proof {
            assert(rows@.take(k + 1).drop_last() =~= rows@.take(k as int));
            assert(rows@.take(k + 1).last() == rows@[k as int]);
        }
        let ghost before = names@;
        if row.is_alive && row.steam_id != 0 && index.is_knife_cosmetic_def_index(row.item_def_idx) {
            let owned = active_cosmetic_owned_by(row);
            let live = if owned {
                cosmetic_paint_spec(index, row.active_weapon_paint_kit, row.active_weapon_paint_seed, row.active_weapon_paint_wear_bits)
            } else {
                None
            };
            let econ = matching_active_econ_knife_paint(knives, row);
            let obs = match live {
                Some(s) => Some((row.item_def_idx, s)),
                None => match &econ {
                    Some(p) => Some((row.item_def_idx, CosmeticPaintSpec { paint_kit: p.paint_kit, seed: p.seed, wear_bits: p.wear_bits })),
                    None => None,
                },
            };
            observe_knife(&mut u, obs);
            if owned {
                if let Some(name) = active_cosmetic_custom_name(row) {
                    let ghost e = (row.item_def_idx, name);
                    names.push((row.item_def_idx, name));
                    proof {
                        assert forall|d: i32, n: Seq<char>| #[trigger] knife_names_for(names@, d).contains(n) <==> (knife_names_for(before, d).contains(n) || (e.0 == d && e.1@ == n)) by {
                            lemma_names_push(before, e, d, n);
                        }
                    }
                }
            }
            let ghost mid = names@;
            match econ {
                Some(p) => match p.custom_name {
                    Some(name) => {
                        let ghost e = (row.item_def_idx, name);
                        names.push((row.item_def_idx, name));
                        proof {
                            assert forall|d: i32, n: Seq<char>| #[trigger] knife_names_for(names@, d).contains(n) <==> (knife_names_for(mid, d).contains(n) || (e.0 == d && e.1@ == n)) by {
                                lemma_names_push(mid, e, d, n);
                            }
                        }
                    },
                    None => {},
                },
                None => {},
            }
        }
        proof {
            assert forall|d: i32, n: Seq<char>| #[trigger] knife_names_for(names@, d).contains(n) <==> exists|i: int|
                0 <= i < k + 1 && knife_name_at(*index, seq_of(knives), #[trigger] rows@[i], d, n) by {
                if exists|i: int| 0 <= i < k + 1 && knife_name_at(*index, seq_of(knives), #[trigger] rows@[i], d, n) {
                    let i = choose|i: int| 0 <= i < k + 1 && knife_name_at(*index, seq_of(knives), #[trigger] rows@[i], d, n);
                    if i < k {
                        assert(knife_names_for(before, d).contains(n));
                    }
                }
                if knife_names_for(before, d).contains(n) {
                    let i = choose|i: int| 0 <= i < k && knife_name_at(*index, seq_of(knives), #[trigger] rows@[i], d, n);
                    assert(0 <= i < k + 1);
                }
            }
        }
        k = k + 1;
    }
    proof {
        assert(rows@.take(rows@.len() as int) =~= rows@);
    }
    (u, names)
}

// ---------------------------------------------------------------------------
// The gloves worn
// ---------------------------------------------------------------------------

/// The glove a living player's row shows.
pub open spec fn glove_observation(
    index: Cs2LibEconIndex,
    seeds: Option<Seq<(EconGloveKey, Option<u32>)>>,
    r: CosmeticRow,
) -> Option<ObservedGloveSpec> {
    if counted(r) {
        spec_observed_glove(index, r, seeds)
    } else {
        None
    }
}

/// The first glove the rows show.
pub open spec fn first_glove_key(
    index: Cs2LibEconIndex,
    seeds: Option<Seq<(EconGloveKey, Option<u32>)>>,
    rows: Seq<CosmeticRow>,
) -> Option<EconGloveKey>
    decreases rows.len(),
{
    if rows.len() == 0 {
        None
    } else {
        match first_glove_key(index, seeds, rows.drop_last()) {
            Some(k) => Some(k),
            None => match glove_observation(index, seeds, rows.last()) {
                Some(g) => Some(g.key),
                None => None,
            },
        }
    }
}

/// The first seed the rows report for glove `key`.
pub open spec fn first_glove_seed(
    index: Cs2LibEconIndex,
    seeds: Option<Seq<(EconGloveKey, Option<u32>)>>,
    rows: Seq<CosmeticRow>,
    key: EconGloveKey,
) -> Option<u32>
    decreases rows.len(),
{
    if rows.len() == 0 {
        None
    } else {
        match first_glove_seed(index, seeds, rows.drop_last(), key) {
            Some(s) => Some(s),
            None => match glove_observation(index, seeds, rows.last()) {
                Some(g) => if g.key == key {
                    g.seed
                } else {
                    None
                },
                None => None,
            },
        }
    }
}

/// The glove of the rows: the first one shown, with the first seed reported for it.
pub open spec fn spec_glove(
    index: Cs2LibEconIndex,
    seeds: Option<Seq<(EconGloveKey, Option<u32>)>>,
    rows: Seq<CosmeticRow>,
) -> Option<ObservedGloveSpec> {
    match first_glove_key(index, seeds, rows) {
        Some(k) => Some(ObservedGloveSpec { key: k, seed: first_glove_seed(index, seeds, rows, k) }),
        None => None,
    }
}

proof fn lemma_no_glove_no_seed(
    index: Cs2LibEconIndex,
    seeds: Option<Seq<(EconGloveKey, Option<u32>)>>,
    rows: Seq<CosmeticRow>,
    key: EconGloveKey,
)
    requires
        first_glove_key(index, seeds, rows) is None,
    ensures
        first_glove_seed(index, seeds, rows, key) is None,
    decreases rows.len(),
{
    if rows.len() > 0 {
        lemma_no_glove_no_seed(index, seeds, rows.drop_last(), key);
    }
}

fn glove_pass(
    index: &Cs2LibEconIndex,
    rows: &[CosmeticRow],
    seeds: Option<&Vec<(EconGloveKey, Option<u32>)>>,
) -> (r: Option<ObservedGloveSpec>)
    ensures
        r == spec_glove(*index, seq_of(seeds), rows@),
{
    let mut glove: Option<ObservedGloveSpec> = None;
    let mut k: usize = 0;
    while k < rows.len()
        invariant
            k <= rows.len(),
            glove == spec_glove(*index, seq_of(seeds), rows@.take(k as int)),
        decreases rows.len() - k,
    {
        let row = &rows[k];
        let ghost pre = rows@.take(k as int);
        proof {
            assert(rows@.take(k + 1).drop_last() =~= pre);
            assert(rows@.take(k + 1).last() == rows@[k as int]);
        }
        let open = match glove {
            None => true,
            Some(g) => g.seed.is_none(),
        };
        if open && row.is_alive && row.steam_id != 0 {
            match observed_glove_spec(index, row, seeds) {
                Some(c) => {
                    match glove {
                        None => {
                            proof {
                                lemma_no_glove_no_seed(*index, seq_of(seeds), pre, c.key);
                            }
                            glove = Some(c);
                        },
                        Some(g) => {
                            if c.seed.is_some() && g.key.item_def_index == c.key.item_def_index
                                && g.key.paint_kit == c.key.paint_kit && g.key.wear_bits == c.key.wear_bits {
                                glove = Some(ObservedGloveSpec { key: g.key, seed: c.seed });
                            }
                        },
                    }
                },
                None => {},
            }
        }
        k = k + 1;
    }
    proof {
        assert(rows@.take(rows@.len() as int) =~= rows@);
    }
    glove
}


// ---------------------------------------------------------------------------
// The weapons in hand
// ---------------------------------------------------------------------------

/// The row is evidence for the (normalized) weapon `def`: a living player
/// holds that weapon, it carries paint, it is no knife model, and its
/// identity can be trusted.
pub open spec fn active_evidence_for(index: Cs2LibEconIndex, r: CosmeticRow, def: i32) -> bool {
    &&& counted(r)
    &&& !(index.knife_defidx@.contains(r.item_def_idx) && r.item_def_idx != 42 && r.item_def_idx != 59)
    &&& index.spec_normalize(r.item_def_idx) == def
    &&& spec_is_weapon_cosmetic(index, def)
    &&& spec_trusted_active(r)
}

pub open spec fn only_active<V>(index: Cs2LibEconIndex, r: CosmeticRow, def: i32, o: Option<V>) -> Option<V> {
    if active_evidence_for(index, r, def) {
        o
    } else {
        None
    }
}

/// The live paint of the weapon in hand, when the catalog pairs it with the weapon.
pub open spec fn row_paint(index: Cs2LibEconIndex, r: CosmeticRow, def: i32) -> Option<CosmeticPaintSpec> {
    match spec_paint_spec(index, r.active_weapon_paint_kit, r.active_weapon_paint_seed, r.active_weapon_paint_wear_bits) {
        Some(p) => if index.weapon_paints@.contains((index.spec_normalize(def), p.paint_kit)) {
            Some(p)
        } else {
            None
        },
        None => None,
    }
}

pub open spec fn above_one(o: Option<u32>) -> Option<u32> {
    match o {
        Some(v) => if v > 1 {
            Some(v)
        } else {
            None
        },
        None => None,
    }
}

pub open spec fn active_paint_evidence(index: Cs2LibEconIndex, rows: Seq<CosmeticRow>, def: i32) -> Unique<CosmeticPaintSpec> {
    fold_obs(rows, |r: CosmeticRow| only_active(index, r, def, row_paint(index, r, def)))
}

pub open spec fn active_name_evidence(index: Cs2LibEconIndex, rows: Seq<CosmeticRow>, def: i32) -> Unique<Seq<char>> {
    fold_obs(rows, |r: CosmeticRow| only_active(index, r, def, spec_active_custom_name(r)))
}

pub open spec fn active_owner_evidence(index: Cs2LibEconIndex, rows: Seq<CosmeticRow>, def: i32) -> Unique<u64> {
    fold_obs(rows, |r: CosmeticRow| only_active(index, r, def, nonzero_u64(r.active_weapon_original_owner_steam_id)))
}

pub open spec fn active_account_evidence(index: Cs2LibEconIndex, rows: Seq<CosmeticRow>, def: i32) -> Unique<u32> {
    fold_obs(rows, |r: CosmeticRow| only_active(index, r, def, above_one(r.active_weapon_item_account_id)))
}

pub open spec fn active_item_id_evidence(index: Cs2LibEconIndex, rows: Seq<CosmeticRow>, def: i32) -> Unique<u64> {
    fold_obs(rows, |r: CosmeticRow| only_active(index, r, def, nonzero_u64(r.active_weapon_item_id)))
}

/// Sticker evidence: every observation is the weapon's sticker set, or its
/// absence when the set is invalid; absence is no proof of agreement.
pub open spec fn active_sticker_evidence(
    index: Cs2LibEconIndex,
    rows: Seq<CosmeticRow>,
    def: i32,
    export_stickers: bool,
) -> Unique<Option<Seq<ReplayWeaponSticker>>> {
    fold_obs(
        rows,
        |r: CosmeticRow| only_active(index, r, def, if export_stickers {
            Some(spec_sticker_set(index, r.active_weapon_stickers@))
        } else {
            None
        }),
    )
}

/// The stickers shown: the one sticker set every observation reports.
pub open spec fn agreed_stickers(u: Unique<Option<Seq<ReplayWeaponSticker>>>) -> Seq<ReplayWeaponSticker> {
    match u {
        Unique::Value(Some(s)) => s,
        _ => Seq::empty(),
    }
}

/// A weapon in hand is shown when its rows agree on one paint.
pub open spec fn active_weapon_shown(index: Cs2LibEconIndex, rows: Seq<CosmeticRow>, def: i32) -> bool {
    active_paint_evidence(index, rows, def) is Value
}

/// The replay appearance of weapon `def` in hand: the agreed paint, and each
/// other attribute only where every observation of it agrees.
pub open spec fn active_weapon_matches(
    w: ReplayWeaponCosmetic,
    index: Cs2LibEconIndex,
    rows: Seq<CosmeticRow>,
    def: i32,
    export_stickers: bool,
) -> bool {
    &&& active_paint_evidence(index, rows, def) matches Unique::Value(p)
    &&& w.weapon_def_index == def
    &&& w.paint_kit == p.paint_kit
    &&& w.seed == p.seed
    &&& w.wear_bits == p.wear_bits
    &&& w.quality is None
    &&& w.stattrak_counter is None
    &&& w.original_owner_steam_id == unique_value(active_owner_evidence(index, rows, def))
    &&& w.item_account_id == unique_value(active_account_evidence(index, rows, def))
    &&& w.item_id == unique_value(active_item_id_evidence(index, rows, def))
    &&& opt_str_view(w.custom_name) == unique_value(active_name_evidence(index, rows, def))
    &&& w.stickers@ == agreed_stickers(active_sticker_evidence(index, rows, def, export_stickers))
    &&& w.charms@.len() == 0
    &&& w.inspect is None
}

/// The exec sticker state stands for the evidence: an absent set is held as a conflict.
pub open spec fn sticker_state(st: Unique<Vec<ReplayWeaponSticker>>, f: Unique<Option<Seq<ReplayWeaponSticker>>>) -> bool {
    match f {
        Unique::Missing => st is Missing,
        Unique::Value(None) => st is Conflict,
        Unique::Value(Some(s)) => st matches Unique::Value(v) && v@ == s,
        Unique::Conflict => st is Conflict,
    }
}

pub open spec fn opt_vec_view<T>(o: Option<Vec<T>>) -> Option<Seq<T>> {
    match o {
        Some(v) => Some(v@),
        None => None,
    }
}

fn observe_active_stickers(
    u: &mut Unique<Vec<ReplayWeaponSticker>>,
    o: Option<Vec<ReplayWeaponSticker>>,
    Ghost(f): Ghost<Unique<Option<Seq<ReplayWeaponSticker>>>>,
)
    requires
        sticker_state(*old(u), f),
    ensures
        sticker_state(*final(u), observe_value(f, opt_vec_view(o))),
{
    match o {
        Some(v) => {
            let ghost vv = v@;
            observe_stickers(u, Some(v));
            proof {
                assert(vec_evidence(*u) == observe_opt(vec_evidence(*old(u)), Some(vv)));
            }
        },
        None => {
            *u = Unique::Conflict;
        },
    }
}

fn above_one_of(o: Option<u32>) -> (r: Option<u32>)
    ensures
        r == above_one(o),
{
    match o {
        Some(v) => if v > 1 {
            Some(v)
        } else {
            None
        },
        None => None,
    }
}

fn row_paint_of(index: &Cs2LibEconIndex, r: &CosmeticRow, def: i32) -> (p: Option<CosmeticPaintSpec>)
    ensures
        p == row_paint(*index, *r, def),
{
    match cosmetic_paint_spec(index, r.active_weapon_paint_kit, r.active_weapon_paint_seed, r.active_weapon_paint_wear_bits) {
        Some(p) => if index.valid_weapon_cosmetic_paint(def, p.paint_kit) {
            Some(p)
        } else {
            None
        },
        None => None,
    }
}

fn is_active_evidence(index: &Cs2LibEconIndex, r: &CosmeticRow, def: i32) -> (b: bool)
    ensures
        b == active_evidence_for(*index, *r, def),
{
    let row_def = index.normalize_weapon_def_index(r.item_def_idx);
    r.is_alive && r.steam_id != 0 && !index.is_knife_cosmetic_def_index(r.item_def_idx) && row_def == def
        && index.is_weapon_cosmetic_def_index(row_def) && has_trusted_active_weapon_cosmetic_identity(r)
}

/// The replay appearance of weapon `def` in hand, when its rows agree on a paint.
#[verifier::rlimit(40)]
fn active_weapon_for_def(
    index: &Cs2LibEconIndex,
    rows: &[CosmeticRow],
    def: i32,
    export_stickers: bool,
) -> (r: Option<ReplayWeaponCosmetic>)
    ensures
        match r {
            Some(w) => active_weapon_matches(w, *index, rows@, def, export_stickers),
            None => !active_weapon_shown(*index, rows@, def),
        },
{
    let mut paint: Unique<CosmeticPaintSpec> = Unique::Missing;
    let mut name: Unique<String> = Unique::Missing;
    let mut owner: Unique<u64> = Unique::Missing;
    let mut account: Unique<u32> = Unique::Missing;
    let mut item_id: Unique<u64> = Unique::Missing;
    let mut stickers: Unique<Vec<ReplayWeaponSticker>> = Unique::Missing;
    let mut k: usize = 0;
    while k < rows.len()
        invariant
            k <= rows.len(),
            paint == active_paint_evidence(*index, rows@.take(k as int), def),
            str_evidence(name) == active_name_evidence(*index, rows@.take(k as int), def),
            owner == active_owner_evidence(*index, rows@.take(k as int), def),
            account == active_account_evidence(*index, rows@.take(k as int), def),
            item_id == active_item_id_evidence(*index, rows@.take(k as int), def),
            sticker_state(stickers, active_sticker_evidence(*index, rows@.take(k as int), def, export_stickers)),
        decreases rows.len() - k,
    {
        let row = &rows[k];
        proof {
            assert(rows@.take(k + 1).drop_last() =~= rows@.take(k as int));
            assert(rows@.take(k + 1).last() == rows@[k as int]);
        }
        if is_active_evidence(index, row, def) {
            observe_paint(&mut paint, row_paint_of(index, row, def));
            observe_name(&mut name, active_cosmetic_custom_name(row));
            observe_u64(&mut owner, nonzero_u64_of(row.active_weapon_original_owner_steam_id));
            observe_u32(&mut account, above_one_of(row.active_weapon_item_account_id));
            observe_u64(&mut item_id, nonzero_u64_of(row.active_weapon_item_id));
            if export_stickers {
                let set = cosmetic_sticker_set_from_slice(index, &row.active_weapon_stickers);
                observe_active_stickers(
                    &mut stickers,
                    set,
                    Ghost(active_sticker_evidence(*index, rows@.take(k as int), def, export_stickers)),
                );
            }
        }
        k = k + 1;
    }
    proof {
        assert(rows@.take(rows@.len() as int) =~= rows@);
    }
    let p = match paint {
        Unique::Value(p) => p,
        _ => return None,
    };
    let shown_stickers = match stickers {
        Unique::Value(v) => v,
        _ => Vec::new(),
    };
    Some(ReplayWeaponCosmetic {
        weapon_def_index: def,
        paint_kit: p.paint_kit,
        seed: p.seed,
        wear_bits: p.wear_bits,
        quality: None,
        stattrak_counter: None,
        original_owner_steam_id: owner.into_value(),
        item_account_id: account.into_value(),
        item_id: item_id.into_value(),
        custom_name: unique_name(name),
        stickers: shown_stickers,
        charms: Vec::new(),
        inspect: None,
    })
}


/// The weapons rows can be evidence for, ascending.
fn active_evidence_weapons(index: &Cs2LibEconIndex, rows: &[CosmeticRow]) -> (r: Vec<i32>)
    ensures
        strictly_increasing(r@),
        forall|d: i32| r@.contains(d) <==> exists|k: int| 0 <= k < rows@.len() && active_evidence_for(*index, #[trigger] rows@[k], d),
{
    let mut defs: Vec<i32> = Vec::new();
    let mut k: usize = 0;
    while k < rows.len()
        invariant
            k <= rows.len(),
            strictly_increasing(defs@),
            forall|d: i32| defs@.contains(d) <==> exists|j: int| 0 <= j < k && active_evidence_for(*index, #[trigger] rows@[j], d),
        decreases rows.len() - k,
    {
        let row = &rows[k];
        let def = index.normalize_weapon_def_index(row.item_def_idx);
        if is_active_evidence(index, row, def) {
            insert_sorted_distinct(&mut defs, def);
        }
        proof {
            assert forall|d: i32| defs@.contains(d) <==> exists|j: int| 0 <= j < k + 1 && active_evidence_for(*index, #[trigger] rows@[j], d) by {
                if exists|j: int| 0 <= j < k + 1 && active_evidence_for(*index, #[trigger] rows@[j], d) {
                    let j = choose|j: int| 0 <= j < k + 1 && active_evidence_for(*index, #[trigger] rows@[j], d);
                    if j < k {
                        assert(exists|j: int| 0 <= j < k && active_evidence_for(*index, #[trigger] rows@[j], d));
                    }
                }
            }
        }
        k = k + 1;
    }
    defs
}

/// Some weapon of `ws` is `def`.
pub open spec fn lists_def(ws: Seq<ReplayWeaponCosmetic>, def: i32) -> bool {
    exists|i: int| 0 <= i < ws.len() && #[trigger] ws[i].weapon_def_index == def
}

/// The weapons of `ws` in ascending order are exactly the weapons in hand
/// that are shown, each with its agreed appearance.
pub open spec fn active_weapons_listed(
    ws: Seq<ReplayWeaponCosmetic>,
    index: Cs2LibEconIndex,
    rows: Seq<CosmeticRow>,
    export_stickers: bool,
) -> bool {
    &&& forall|a: int, b: int| 0 <= a < b < ws.len() ==> #[trigger] ws[a].weapon_def_index < #[trigger] ws[b].weapon_def_index
    &&& forall|d: i32| #[trigger] active_weapon_shown(index, rows, d) <==> lists_def(ws, d)
    &&& forall|i: int| 0 <= i < ws.len() ==> active_weapon_matches(#[trigger] ws[i], index, rows, ws[i].weapon_def_index, export_stickers)
}

spec fn active_shown_among(defs: Seq<i32>, n: int, index: Cs2LibEconIndex, rows: Seq<CosmeticRow>, d: i32) -> bool {
    exists|m: int| 0 <= m < n && #[trigger] defs[m] == d && active_weapon_shown(index, rows, d)
}

/// The weapons in hand that the rows show, ascending.
fn active_weapon_cosmetics(index: &Cs2LibEconIndex, rows: &[CosmeticRow], export_stickers: bool) -> (r: Vec<
    ReplayWeaponCosmetic,
>)
    ensures
        active_weapons_listed(r@, *index, rows@, export_stickers),
{
    let defs = active_evidence_weapons(index, rows);
    let mut out: Vec<ReplayWeaponCosmetic> = Vec::new();
    let mut i: usize = 0;
    while i < defs.len()
        invariant
            i <= defs.len(),
            strictly_increasing(defs@),
            forall|a: int, b: int| 0 <= a < b < out@.len() ==> #[trigger] out@[a].weapon_def_index < #[trigger] out@[b].weapon_def_index,
            forall|a: int| 0 <= a < out@.len() ==> exists|m: int| 0 <= m < i && defs@[m] == #[trigger] out@[a].weapon_def_index,
            forall|d: i32| #[trigger] active_shown_among(defs@, i as int, *index, rows@, d) <==> lists_def(out@, d),
            forall|a: int| 0 <= a < out@.len() ==> active_weapon_matches(#[trigger] out@[a], *index, rows@, out@[a].weapon_def_index, export_stickers),
        decreases defs.len() - i,
    {
        let d = defs[i];
        let ghost before = out@;
        match active_weapon_for_def(index, rows, d, export_stickers) {
            Some(w) => {
                proof {
                    assert forall|a: int| 0 <= a < before.len() implies before[a].weapon_def_index < d by {
                        let m = choose|m: int| 0 <= m < i && defs@[m] == before[a].weapon_def_index;
                        assert(defs@[m] < defs@[i as int]);
                    }
                }
                out.push(w);
            },
            None => {},
        }
        proof {
            assert forall|a: int| 0 <= a < out@.len() implies exists|m: int| 0 <= m < i + 1 && defs@[m] == #[trigger] out@[a].weapon_def_index by {
                if a < before.len() {
                    let m = choose|m: int| 0 <= m < i && defs@[m] == before[a].weapon_def_index;
                    assert(out@[a] == before[a]);
                    assert(defs@[m] == out@[a].weapon_def_index);
                } else {
                    assert(defs@[i as int] == out@[a].weapon_def_index);
                }
            }
            assert forall|x: i32| #[trigger] active_shown_among(defs@, i + 1, *index, rows@, x) <==> lists_def(out@, x) by {
                if active_shown_among(defs@, i + 1, *index, rows@, x) {
                    let m = choose|m: int| 0 <= m < i + 1 && #[trigger] defs@[m] == x && active_weapon_shown(*index, rows@, x);
                    if m < i {
                        assert(active_shown_among(defs@, i as int, *index, rows@, x));
                        let a = choose|a: int| 0 <= a < before.len() && #[trigger] before[a].weapon_def_index == x;
                        assert(out@[a] == before[a]);
                    } else {
                        assert(out@[before.len() as int].weapon_def_index == x);
                    }
                }
                if lists_def(out@, x) {
                    let a = choose|a: int| 0 <= a < out@.len() && #[trigger] out@[a].weapon_def_index == x;
                    if a < before.len() {
                        assert(before[a].weapon_def_index == x);
                        assert(lists_def(before, x));
                        let m = choose|m: int| 0 <= m < i && #[trigger] defs@[m] == x && active_weapon_shown(*index, rows@, x);
                        assert(0 <= m < i + 1 && defs@[m] == x);
                    } else {
                        assert(defs@[i as int] == x && active_weapon_shown(*index, rows@, x));
                    }
                }
            }
            assert forall|a: int| 0 <= a < out@.len() implies active_weapon_matches(#[trigger] out@[a], *index, rows@, out@[a].weapon_def_index, export_stickers) by {
                if a < before.len() {
                    assert(out@[a] == before[a]);
                }
            }
        }
        i = i + 1;
    }
    proof {
        assert forall|d: i32| #[trigger] active_weapon_shown(*index, rows@, d) <==> lists_def(out@, d) by {
            if active_weapon_shown(*index, rows@, d) {
                if !defs@.contains(d) {
                    assert forall|k: int| 0 <= k < rows@.len() implies (|r: CosmeticRow| only_active(*index, r, d, row_paint(*index, r, d)))(#[trigger] rows@[k]) is None by {
                        if active_evidence_for(*index, rows@[k], d) {
                            assert(defs@.contains(d));
                        }
                    }
                    lemma_fold_obs_none(rows@, |r: CosmeticRow| only_active(*index, r, d, row_paint(*index, r, d)));
                }
                let m = choose|m: int| 0 <= m < defs@.len() && defs@[m] == d;
                assert(active_shown_among(defs@, defs@.len() as int, *index, rows@, d));
            }
        }
    }
    out
}

// ---------------------------------------------------------------------------
// A player's appearances in one round
// ---------------------------------------------------------------------------

/// The knife shown: the one model and paint the rows agree on, named only
/// when every name given to that model is the same.
pub open spec fn active_knife_matches(
    k: Option<ReplayItemCosmetic>,
    index: Cs2LibEconIndex,
    knives: Option<Seq<(i32, Option<EconKnifePaint>)>>,
    rows: Seq<CosmeticRow>,
) -> bool {
    match knife_evidence(index, knives, rows) {
        Unique::Value((d, s)) => {
            &&& k matches Some(c)
            &&& c.item_def_index == Some(d)
            &&& c.paint_kit == s.paint_kit
            &&& c.seed == s.seed
            &&& c.seed_known is None
            &&& c.wear_bits == s.wear_bits
            &&& c.inspect is None
            &&& (c.custom_name matches Some(n) ==> knife_names(index, knives, rows, d) == set![n@])
            &&& (c.custom_name is None ==> !(exists|n: Seq<char>| knife_names(index, knives, rows, d) == set![n]))
        },
        _ => k is None,
    }
}

/// The glove shown: the first glove of the rows; without a reported seed it
/// gets the stable fallback seed and is marked as such.
pub open spec fn active_glove_matches(
    g: Option<ReplayItemCosmetic>,
    index: Cs2LibEconIndex,
    seeds: Option<Seq<(EconGloveKey, Option<u32>)>>,
    rows: Seq<CosmeticRow>,
) -> bool {
    match spec_glove(index, seeds, rows) {
        Some(o) => {
            &&& g matches Some(c)
            &&& c.item_def_index == Some(o.key.item_def_index)
            &&& c.paint_kit == o.key.paint_kit
            &&& c.wear_bits == o.key.wear_bits
            &&& c.seed == match o.seed {
                Some(s) => s,
                None => spec_glove_fallback_seed(rows, o.key),
            }
            &&& c.seed_known == if o.seed is Some {
                None
            } else {
                Some(false)
            }
            &&& c.custom_name is None
            &&& c.inspect is None
        },
        None => g is None,
    }
}

/// What the appearances of a round are on these rows: `Some` with the
/// weapons shown (when asked for), the knife and the gloves, never empty and
/// with no agent; `None` exactly when nothing of them is shown.
pub open spec fn active_cosmetics_match(
    r: Option<ReplayCosmetics>,
    index: Cs2LibEconIndex,
    seeds: Option<Seq<(EconGloveKey, Option<u32>)>>,
    knives: Option<Seq<(i32, Option<EconKnifePaint>)>>,
    rows: Seq<CosmeticRow>,
    export_stickers: bool,
    collect_weapons: bool,
) -> bool {
    match r {
        Some(c) => {
            &&& !c.spec_is_empty()
            &&& c.agent is None
            &&& (collect_weapons ==> active_weapons_listed(c.weapons@, index, rows, export_stickers))
            &&& (!collect_weapons ==> c.weapons@.len() == 0)
            &&& active_knife_matches(c.knife, index, knives, rows)
            &&& active_glove_matches(c.glove, index, seeds, rows)
        },
        None => {
            &&& (collect_weapons ==> forall|d: i32| !active_weapon_shown(index, rows, d))
            &&& !(knife_evidence(index, knives, rows) is Value)
            &&& spec_glove(index, seeds, rows) is None
        },
    }
}

/// The appearances a player shows in hand and on the hands during a round:
/// the weapons (when asked for), the knife and the gloves; `None` when there
/// is none.
pub fn replay_active_cosmetics(
    index: &Cs2LibEconIndex,
    rows: &[CosmeticRow],
    econ_glove_seeds: Option<&Vec<(EconGloveKey, Option<u32>)>>,
    econ_knife_paints: Option<&Vec<(i32, Option<EconKnifePaint>)>>,
    export_stickers: bool,
    collect_weapons: bool,
) -> (r: Option<ReplayCosmetics>)
    ensures
        active_cosmetics_match(
            r,
            *index,
            seq_of(econ_glove_seeds),
            seq_of(econ_knife_paints),
            rows@,
            export_stickers,
            collect_weapons,
        ),
{
    let (knife_ev, knife_names_seen) = knife_pass(index, rows, econ_knife_paints);
    let weapons = if collect_weapons {
        active_weapon_cosmetics(index, rows, export_stickers)
    } else {
        Vec::new()
    };
    let knife = match knife_ev {
        Unique::Value((d, s)) => {
            let name = stable_knife_custom_name(&knife_names_seen, d);
            proof {
                assert(knife_names_for(knife_names_seen@, d) =~= knife_names(*index, seq_of(econ_knife_paints), rows@, d));
            }
            Some(ReplayItemCosmetic {
                item_def_index: Some(d),
                paint_kit: s.paint_kit,
                seed: s.seed,
                seed_known: None,
                wear_bits: s.wear_bits,
                custom_name: name,
                inspect: None,
            })
        },
        _ => None,
    };
    let glove = match glove_pass(index, rows, econ_glove_seeds) {
        Some(o) => {
            let (seed, seed_known) = match o.seed {
                Some(s) => (s, None),
                None => (stable_glove_fallback_seed(rows, o.key), Some(false)),
            };
            Some(ReplayItemCosmetic {
                item_def_index: Some(o.key.item_def_index),
                paint_kit: o.key.paint_kit,
                seed,
                seed_known,
                wear_bits: o.key.wear_bits,
                custom_name: None,
                inspect: None,
            })
        },
        None => None,
    };
    let cosmetics = ReplayCosmetics { weapons, knife, glove, agent: None };
    if cosmetics.is_empty() {
        proof {
            if collect_weapons {
                assert forall|d: i32| !active_weapon_shown(*index, rows@, d) by {
                    if active_weapon_shown(*index, rows@, d) {
                        assert(lists_def(cosmetics.weapons@, d));
                    }
                }
            }
        }
        None
    } else {
        Some(cosmetics)
    }
}


// ---------------------------------------------------------------------------
// Economy indices
// ---------------------------------------------------------------------------

pub type KnifePaintView = (u32, u32, u32, Option<Seq<char>>);

/// The owner, knife model and paint of an economy item that is an ownable
/// knife with a valid paint; the wear is the raw bits, else the float's bits.
pub open spec fn econ_knife_obs(index: Cs2LibEconIndex, it: SegmentEconItem) -> Option<(u64, i32, KnifePaintView)> {
    match (it.steam_id, it.item_def_index) {
        (Some(s), Some(d)) => if d <= i32::MAX && index.knife_defidx@.contains(d as i32) && d != 42 && d != 59 {
            match spec_paint_spec(
                index,
                it.paint_kit,
                it.paint_seed,
                match it.paint_wear_raw {
                    Some(w) => Some(w),
                    None => it.paint_wear_bits,
                },
            ) {
                Some(p) => Some(
                    (s, d as i32, (p.paint_kit, p.seed, p.wear_bits, spec_custom_name_value(opt_str_view(it.custom_name)))),
                ),
                None => None,
            }
        } else {
            None
        },
        _ => None,
    }
}

/// One more paint for a knife model: a different paint voids the entry for
/// good; the name is kept while it agrees, and a name fills a missing one.
pub open spec fn knife_step(cur: Option<Option<KnifePaintView>>, p: KnifePaintView) -> Option<Option<KnifePaintView>> {
    match cur {
        None => Some(Some(p)),
        Some(None) => Some(None),
        Some(Some(c)) => if c.0 != p.0 || c.1 != p.1 || c.2 != p.2 {
            Some(None)
        } else {
            Some(
                Some(
                    (c.0, c.1, c.2, match (c.3, p.3) {
                        (None, Some(n)) => Some(n),
                        (Some(e), Some(n)) => if e != n {
                            None
                        } else {
                            Some(e)
                        },
                        _ => c.3,
                    }),
                ),
            )
        },
    }
}

/// The economy entry of a player's knife model over the items, in order.
pub open spec fn knife_entry(index: Cs2LibEconIndex, items: Seq<SegmentEconItem>, steam: u64, def: i32) -> Option<
    Option<KnifePaintView>,
>
    decreases items.len(),
{
    if items.len() == 0 {
        None
    } else {
        let prev = knife_entry(index, items.drop_last(), steam, def);
        match econ_knife_obs(index, items.last()) {
            Some((s, d, p)) => if s == steam && d == def {
                knife_step(prev, p)
            } else {
                prev
            },
            None => prev,
        }
    }
}

pub open spec fn knife_entry_view(o: Option<Option<EconKnifePaint>>) -> Option<Option<KnifePaintView>> {
    match o {
        Some(v) => Some(opt_knife_paint_view(v)),
        None => None,
    }
}

/// What the index says of a player's knife model.
pub open spec fn knife_index_lookup(idx: Seq<(u64, Vec<(i32, Option<EconKnifePaint>)>)>, steam: u64, def: i32) -> Option<
    Option<KnifePaintView>,
> {
    match entry_for(idx, steam) {
        Some(m) => knife_entry_view(entry_for(m@, def)),
        None => None,
    }
}

fn econ_knife_of(index: &Cs2LibEconIndex, it: &SegmentEconItem) -> (r: Option<(u64, i32, EconKnifePaint)>)
    ensures
        match r {
            Some((s, d, p)) => econ_knife_obs(*index, *it) == Some((s, d, knife_paint_view(p))),
            None => econ_knife_obs(*index, *it) is None,
        },
{
    let s = match it.steam_id {
        Some(s) => s,
        None => return None,
    };
    let d = match it.item_def_index {
        Some(d) => d,
        None => return None,
    };
    if d > 0x7fff_ffff {
        return None;
    }
    let d = d as i32;
    if !index.is_knife_cosmetic_def_index(d) {
        return None;
    }
    let wear = match it.paint_wear_raw {
        Some(w) => Some(w),
        None => it.paint_wear_bits,
    };
    let spec = match cosmetic_paint_spec(index, it.paint_kit, it.paint_seed, wear) {
        Some(p) => p,
        None => return None,
    };
    let name = match &it.custom_name {
        Some(n) => cosmetic_custom_name_value(Some(n.as_str())),
        None => cosmetic_custom_name_value(None),
    };
    Some((s, d, EconKnifePaint { paint_kit: spec.paint_kit, seed: spec.seed, wear_bits: spec.wear_bits, custom_name: name }))
}

fn same_name(a: &String, b: &String) -> (r: bool)
    ensures
        r == (a@ == b@),
{
    let x = chars_of(a.as_str());
    let y = chars_of(b.as_str());
    vec_eq(&x, &y)
}

fn knife_step_of(cur: &Option<EconKnifePaint>, p: EconKnifePaint) -> (r: Option<EconKnifePaint>)
    ensures
        Some(opt_knife_paint_view(r)) == knife_step(Some(opt_knife_paint_view(*cur)), knife_paint_view(p)),
{
    let c = match cur {
        Some(c) => c,
        None => return None,
    };
    if c.paint_kit != p.paint_kit || c.seed != p.seed || c.wear_bits != p.wear_bits {
        return None;
    }
    let name = match (&c.custom_name, p.custom_name) {
        (None, Some(n)) => Some(n),
        (Some(e), Some(n)) => if same_name(e, &n) {
            Some(string_of(e.as_str()))
        } else {
            None
        },
        (Some(e), None) => Some(string_of(e.as_str())),
        (None, None) => None,
    };
    Some(EconKnifePaint { paint_kit: c.paint_kit, seed: c.seed, wear_bits: c.wear_bits, custom_name: name })
}

/// One player's knife models with the paint their economy items agree on
/// (`None` for a model whose items disagree).
fn knife_paints_for_player(index: &Cs2LibEconIndex, items: &Vec<SegmentEconItem>, steam: u64) -> (r: Vec<(i32, Option<EconKnifePaint>)>)
    ensures
        distinct_keys(r@),
        forall|d: i32| #[trigger] knife_entry_view(entry_for(r@, d)) == knife_entry(*index, items@, steam, d),
{
    let mut m: Vec<(i32, Option<EconKnifePaint>)> = Vec::new();
    let mut k: usize = 0;
    while k < items.len()
        invariant
            k <= items.len(),
            distinct_keys(m@),
            forall|d: i32| #[trigger] knife_entry_view(entry_for(m@, d)) == knife_entry(*index, items@.take(k as int), steam, d),
        decreases items.len() - k,
    {
        proof {
            assert(items@.take(k + 1).drop_last() =~= items@.take(k as int));
            assert(items@.take(k + 1).last() == items@[k as int]);
        }
        let ghost before = m@;
        match econ_knife_of(index, &items[k]) {
            Some((s, d, p)) => if s == steam {
                match find_knife_entry(&m, d) {
                    Some(i) => {
                        let ghost pv = knife_paint_view(p);
                        let ghost old_v = m@[i as int].1;
                        let next = knife_step_of(&m[i].1, p);
                        m.set(i, (d, next));
                        proof {
                            assert(econ_knife_obs(*index, items@.take(k + 1).last()) == Some((s, d, pv)));
                            lemma_entry_for_update(before, i as int, next, d);
                            assert(before[i as int].0 == d);
                            assert(m@ == before.update(i as int, (before[i as int].0, next)));
                            assert(entry_for(before, d) == Some(old_v));
                            assert(knife_entry_view(entry_for(before, d)) == knife_entry(*index, items@.take(k as int), steam, d));
                            assert(knife_entry(*index, items@.take(k as int), steam, d) == Some(opt_knife_paint_view(old_v)));
                            assert forall|x: i32| #[trigger] knife_entry_view(entry_for(m@, x)) == knife_entry(*index, items@.take(k + 1), steam, x) by {
                                lemma_entry_for_update(before, i as int, next, x);
                                assert(before[i as int].0 == d);
                                if x == d {
                                    assert(entry_for(m@, x) == Some(next));
                                } else {
                                    assert(entry_for(m@, x) == entry_for(before, x));
                                }
                            }
                        }
                    },
                    None => {
                        let ghost pv = knife_paint_view(p);
                        let ghost e = Some(p);
                        m.push((d, Some(p)));
                        proof {
                            assert(econ_knife_obs(*index, items@.take(k + 1).last()) == Some((s, d, pv)));
                            assert(knife_entry_view(entry_for(before, d)) == knife_entry(*index, items@.take(k as int), steam, d));
                            assert(knife_entry(*index, items@.take(k as int), steam, d) is None);
                            lemma_entry_for_push(before, d, e, d);
                            assert(m@ == before.push((d, e)));
                            assert forall|x: i32| #[trigger] knife_entry_view(entry_for(m@, x)) == knife_entry(*index, items@.take(k + 1), steam, x) by {
                                lemma_entry_for_push(before, d, e, x);
                                assert(m@ == before.push((d, e)));
                                if x == d {
                                    assert(entry_for(m@, x) == Some(e));
                                } else {
                                    assert(entry_for(m@, x) == entry_for(before, x));
                                }
                            }
                        }
                    },
                }
            },
            None => {},
        }
        k = k + 1;
    }
    proof {
        assert(items@.take(items@.len() as int) =~= items@);
    }
    m
}

proof fn lemma_knife_entry_absent(index: Cs2LibEconIndex, items: Seq<SegmentEconItem>, steam: u64, def: i32)
    requires
        forall|k: int| 0 <= k < items.len() ==> (#[trigger] items[k]).steam_id != Some(steam),
    ensures
        knife_entry(index, items, steam, def) is None,
    decreases items.len(),
{
    if items.len() > 0 {
        let init = items.drop_last();
        assert forall|k: int| 0 <= k < init.len() implies (#[trigger] init[k]).steam_id != Some(steam) by {
            assert(init[k] == items[k]);
        }
        lemma_knife_entry_absent(index, init, steam, def);
        assert(items.last() == items[items.len() - 1]);
    }
}

/// The players of the items, each once.
fn econ_players(items: &Vec<SegmentEconItem>) -> (r: Vec<u64>)
    ensures
        forall|a: int, b: int| 0 <= a < b < r@.len() ==> #[trigger] r@[a] != #[trigger] r@[b],
        forall|s: u64| r@.contains(s) <==> exists|k: int| 0 <= k < items@.len() && (#[trigger] items@[k]).steam_id == Some(s),
{
    let mut out: Vec<u64> = Vec::new();
    let mut k: usize = 0;
    while k < items.len()
        invariant
            k <= items.len(),
            forall|a: int, b: int| 0 <= a < b < out@.len() ==> #[trigger] out@[a] != #[trigger] out@[b],
            forall|s: u64| out@.contains(s) <==> exists|j: int| 0 <= j < k && (#[trigger] items@[j]).steam_id == Some(s),
        decreases items.len() - k,
    {
        if let Some(s) = items[k].steam_id {
            let mut seen = false;
            let mut j: usize = 0;
            while j < out.len()
                invariant
                    j <= out.len(),
                    seen <==> exists|a: int| 0 <= a < j && out@[a] == s,
                decreases out.len() - j,
            {
                if out[j] == s {
                    seen = true;
                }
                j = j + 1;
            }
            if !seen {
                let ghost before = out@;
                out.push(s);
                proof {
                    assert forall|a: int, b: int| 0 <= a < b < out@.len() implies #[trigger] out@[a] != #[trigger] out@[b] by {
                        if b == before.len() {
                            assert(out@[a] == before[a]);
                        } else {
                            assert(out@[a] == before[a] && out@[b] == before[b]);
                        }
                    }
                    assert forall|x: u64| out@.contains(x) <==> exists|j: int| 0 <= j < k + 1 && (#[trigger] items@[j]).steam_id == Some(x) by {
                        if out@.contains(x) {
                            let a = choose|a: int| 0 <= a < out@.len() && out@[a] == x;
                            if a < before.len() {
                                assert(before[a] == x);
                                assert(before.contains(x));
                            } else {
                                assert(items@[k as int].steam_id == Some(x));
                            }
                        }
                        if exists|j: int| 0 <= j < k + 1 && (#[trigger] items@[j]).steam_id == Some(x) {
                            let j = choose|j: int| 0 <= j < k + 1 && (#[trigger] items@[j]).steam_id == Some(x);
                            if j < k {
                                assert(before.contains(x));
                                let a = choose|a: int| 0 <= a < before.len() && before[a] == x;
                                assert(out@[a] == x);
                            } else {
                                assert(out@[before.len() as int] == x);
                            }
                        }
                    }
                }
            } else {
                proof {
                    assert forall|x: u64| out@.contains(x) <==> exists|j: int| 0 <= j < k + 1 && (#[trigger] items@[j]).steam_id == Some(x) by {
                        if exists|j: int| 0 <= j < k + 1 && (#[trigger] items@[j]).steam_id == Some(x) {
                            let j = choose|j: int| 0 <= j < k + 1 && (#[trigger] items@[j]).steam_id == Some(x);
                            if j == k {
                                let a = choose|a: int| 0 <= a < out@.len() && out@[a] == s;
                                assert(out@.contains(x));
                            }
                        }
                    }
                }
            }
        } else {
            proof {
                assert forall|x: u64| out@.contains(x) <==> exists|j: int| 0 <= j < k + 1 && (#[trigger] items@[j]).steam_id == Some(x) by {
                    if exists|j: int| 0 <= j < k + 1 && (#[trigger] items@[j]).steam_id == Some(x) {
                        let j = choose|j: int| 0 <= j < k + 1 && (#[trigger] items@[j]).steam_id == Some(x);
                        assert(j < k);
                    }
                }
            }
        }
        k = k + 1;
    }
    out
}

/// For each player, the knife models with the paint their economy items
/// agree on: a disagreeing paint voids the model, names agree or fill in.
pub fn knife_econ_paint_index(index: &Cs2LibEconIndex, items: &Vec<SegmentEconItem>) -> (r: Vec<
    (u64, Vec<(i32, Option<EconKnifePaint>)>),
>)
    ensures
        distinct_keys(r@),
        forall|s: u64, d: i32| #[trigger] knife_index_lookup(r@, s, d) == knife_entry(*index, items@, s, d),
{
    let players = econ_players(items);
    let mut out: Vec<(u64, Vec<(i32, Option<EconKnifePaint>)>)> = Vec::new();
    let mut i: usize = 0;
    while i < players.len()
        invariant
            i <= players.len(),
            forall|a: int, b: int| 0 <= a < b < players@.len() ==> #[trigger] players@[a] != #[trigger] players@[b],
            out@.len() == i,
            forall|a: int| 0 <= a < i ==> (#[trigger] out@[a]).0 == players@[a],
            forall|a: int, d: i32| 0 <= a < i ==> #[trigger] knife_entry_view(entry_for((#[trigger] out@[a]).1@, d)) == knife_entry(*index, items@, out@[a].0, d),
        decreases players.len() - i,
    {
        let m = knife_paints_for_player(index, items, players[i]);
        out.push((players[i], m));
        i = i + 1;
    }
    proof {
        assert forall|a: int, b: int| 0 <= a < b < out@.len() implies #[trigger] out@[a].0 != #[trigger] out@[b].0 by {
            assert(players@[a] != players@[b]);
        }
        assert forall|s: u64, d: i32| #[trigger] knife_index_lookup(out@, s, d) == knife_entry(*index, items@, s, d) by {
            if players@.contains(s) {
                let a = choose|a: int| 0 <= a < players@.len() && players@[a] == s;
                lemma_entry_for_distinct(out@, a);
                assert(out@[a].0 == s);
            } else {
                assert forall|j: int| 0 <= j < out@.len() implies #[trigger] out@[j].0 != s by {
                    assert(players@[j] == out@[j].0);
                }
                lemma_entry_for_absent(out@, s);
                assert forall|k: int| 0 <= k < items@.len() implies (#[trigger] items@[k]).steam_id != Some(s) by {}
                lemma_knife_entry_absent(*index, items@, s, d);
            }
        }
    }
    out
}


/// The glove and seed of an economy item: a catalog glove with a catalog
/// paint kit, a seed, and valid raw wear bits.
pub open spec fn spec_econ_glove_item(index: Cs2LibEconIndex, it: SegmentEconItem) -> Option<(EconGloveKey, u32)> {
    match (it.item_def_index, it.paint_kit, it.paint_seed, it.paint_wear_raw) {
        (Some(d), Some(k), Some(s), Some(w)) => if d <= i32::MAX && index.glove_defidx@.contains(d as i32)
            && index.paint_kit_ids@.contains(k) && wear_bits_valid(w) {
            Some((EconGloveKey { item_def_index: d as i32, paint_kit: k, wear_bits: w }, s))
        } else {
            None
        },
        _ => None,
    }
}

pub fn econ_glove_seed(index: &Cs2LibEconIndex, item: &SegmentEconItem) -> (r: Option<(EconGloveKey, u32)>)
    ensures
        r == spec_econ_glove_item(*index, *item),
{
    let d = match item.item_def_index {
        Some(d) => d,
        None => return None,
    };
    if d > 0x7fff_ffff {
        return None;
    }
    let d = d as i32;
    if !index.valid_glove_item_def_index(d) {
        return None;
    }
    let k = match item.paint_kit {
        Some(k) => if index.valid_paint_kit(k) {
            k
        } else {
            return None;
        },
        None => return None,
    };
    let seed = match item.paint_seed {
        Some(s) => s,
        None => return None,
    };
    let w = match item.paint_wear_raw {
        Some(w) => w,
        None => return None,
    };
    if !valid_wear(w) {
        return None;
    }
    Some((EconGloveKey { item_def_index: d, paint_kit: k, wear_bits: w }, seed))
}

/// One more seed for a glove: a different seed voids the entry for good.
pub open spec fn glove_step(cur: Option<Option<u32>>, seed: u32) -> Option<Option<u32>> {
    match cur {
        None => Some(Some(seed)),
        Some(Some(c)) => if c != seed {
            Some(None)
        } else {
            cur
        },
        Some(None) => Some(None),
    }
}

/// The economy entry of a player's glove over the items, in order.
pub open spec fn glove_entry(index: Cs2LibEconIndex, items: Seq<SegmentEconItem>, steam: u64, key: EconGloveKey) -> Option<
    Option<u32>,
>
    decreases items.len(),
{
    if items.len() == 0 {
        None
    } else {
        let prev = glove_entry(index, items.drop_last(), steam, key);
        let it = items.last();
        match spec_econ_glove_item(index, it) {
            Some((g, s)) => if it.steam_id == Some(steam) && g == key {
                glove_step(prev, s)
            } else {
                prev
            },
            None => prev,
        }
    }
}

/// What the index says of a player's glove.
pub open spec fn glove_index_lookup(idx: Seq<(u64, Vec<(EconGloveKey, Option<u32>)>)>, steam: u64, key: EconGloveKey) -> Option<
    Option<u32>,
> {
    match entry_for(idx, steam) {
        Some(m) => entry_for(m@, key),
        None => None,
    }
}

fn glove_seeds_for_player(index: &Cs2LibEconIndex, items: &Vec<SegmentEconItem>, steam: u64) -> (r: Vec<(EconGloveKey, Option<u32>)>)
    ensures
        distinct_keys(r@),
        forall|g: EconGloveKey| #[trigger] entry_for(r@, g) == glove_entry(*index, items@, steam, g),
{
    let mut m: Vec<(EconGloveKey, Option<u32>)> = Vec::new();
    let mut k: usize = 0;
    while k < items.len()
        invariant
            k <= items.len(),
            distinct_keys(m@),
            forall|g: EconGloveKey| #[trigger] entry_for(m@, g) == glove_entry(*index, items@.take(k as int), steam, g),
        decreases items.len() - k,
    {
        proof {
            assert(items@.take(k + 1).drop_last() =~= items@.take(k as int));
            assert(items@.take(k + 1).last() == items@[k as int]);
        }
        let ghost before = m@;
        let owner_matches = match items[k].steam_id {
            Some(s) => s == steam,
            None => false,
        };
        if owner_matches {
            match econ_glove_seed(index, &items[k]) {
                Some((key, seed)) => {
                    proof {
                        assert(entry_for(before, key) == glove_entry(*index, items@.take(k as int), steam, key));
                    }
                    match find_glove_entry(&m, key) {
                        Some(i) => {
                            let next = match m[i].1 {
                                Some(c) => if c != seed {
                                    None
                                } else {
                                    Some(c)
                                },
                                None => None,
                            };
                            m.set(i, (key, next));
                            proof {
                                lemma_entry_for_update(before, i as int, next, key);
                                assert(m@ == before.update(i as int, (before[i as int].0, next)));
                                assert forall|x: EconGloveKey| #[trigger] entry_for(m@, x) == glove_entry(*index, items@.take(k + 1), steam, x) by {
                                    lemma_entry_for_update(before, i as int, next, x);
                                }
                            }
                        },
                        None => {
                            m.push((key, Some(seed)));
                            proof {
                                lemma_entry_for_push(before, key, Some(seed), key);
                                assert forall|x: EconGloveKey| #[trigger] entry_for(m@, x) == glove_entry(*index, items@.take(k + 1), steam, x) by {
                                    lemma_entry_for_push(before, key, Some(seed), x);
                                }
                            }
                        },
                    }
                },
                None => {},
            }
        }
        k = k + 1;
    }
    proof {
        assert(items@.take(items@.len() as int) =~= items@);
    }
    m
}

proof fn lemma_glove_entry_absent(index: Cs2LibEconIndex, items: Seq<SegmentEconItem>, steam: u64, key: EconGloveKey)
    requires
        forall|k: int| 0 <= k < items.len() ==> (#[trigger] items[k]).steam_id != Some(steam),
    ensures
        glove_entry(index, items, steam, key) is None,
    decreases items.len(),
{
    if items.len() > 0 {
        let init = items.drop_last();
        assert forall|k: int| 0 <= k < init.len() implies (#[trigger] init[k]).steam_id != Some(steam) by {
            assert(init[k] == items[k]);
        }
        lemma_glove_entry_absent(index, init, steam, key);
        assert(items.last() == items[items.len() - 1]);
    }
}

/// For each player, the gloves with the seed their economy items agree on
/// (`None` for a glove whose items disagree).
pub fn glove_econ_seed_index(index: &Cs2LibEconIndex, items: &Vec<SegmentEconItem>) -> (r: Vec<
    (u64, Vec<(EconGloveKey, Option<u32>)>),
>)
    ensures
        distinct_keys(r@),
        forall|s: u64, g: EconGloveKey| #[trigger] glove_index_lookup(r@, s, g) == glove_entry(*index, items@, s, g),
{
    let players = econ_players(items);
    let mut out: Vec<(u64, Vec<(EconGloveKey, Option<u32>)>)> = Vec::new();
    let mut i: usize = 0;
    while i < players.len()
        invariant
            i <= players.len(),
            forall|a: int, b: int| 0 <= a < b < players@.len() ==> #[trigger] players@[a] != #[trigger] players@[b],
            out@.len() == i,
            forall|a: int| 0 <= a < i ==> (#[trigger] out@[a]).0 == players@[a],
            forall|a: int, g: EconGloveKey| 0 <= a < i ==> #[trigger] entry_for((#[trigger] out@[a]).1@, g) == glove_entry(*index, items@, out@[a].0, g),
        decreases players.len() - i,
    {
        let m = glove_seeds_for_player(index, items, players[i]);
        out.push((players[i], m));
        i = i + 1;
    }
    proof {
        assert forall|a: int, b: int| 0 <= a < b < out@.len() implies #[trigger] out@[a].0 != #[trigger] out@[b].0 by {
            assert(players@[a] != players@[b]);
        }
        assert forall|s: u64, g: EconGloveKey| #[trigger] glove_index_lookup(out@, s, g) == glove_entry(*index, items@, s, g) by {
            if players@.contains(s) {
                let a = choose|a: int| 0 <= a < players@.len() && players@[a] == s;
                lemma_entry_for_distinct(out@, a);
                assert(out@[a].0 == s);
            } else {
                assert forall|j: int| 0 <= j < out@.len() implies #[trigger] out@[j].0 != s by {
                    assert(players@[j] == out@[j].0);
                }
                lemma_entry_for_absent(out@, s);
                assert forall|k: int| 0 <= k < items@.len() implies (#[trigger] items@[k]).steam_id != Some(s) by {}
                lemma_glove_entry_absent(*index, items@, s, g);
            }
        }
    }
    out
}


// ---------------------------------------------------------------------------
// Music kit, scoreboard flair and agent
// ---------------------------------------------------------------------------

/// A catalog music kit a row reports.
pub open spec fn music_obs(index: Cs2LibEconIndex, r: CosmeticRow) -> Option<u32> {
    match r.music_kit_id {
        Some(v) => if index.music_kit_ids@.contains(v) {
            Some(v)
        } else {
            None
        },
        None => None,
    }
}

/// The music kit, when the rows report exactly one catalog kit.
pub fn stable_music_kit_id(index: &Cs2LibEconIndex, rows: &[CosmeticRow]) -> (r: Option<u32>)
    ensures
        r == unique_value(fold_obs(rows@, |x: CosmeticRow| music_obs(*index, x))),
{
    let mut u: Unique<u32> = Unique::Missing;
    let mut k: usize = 0;
    while k < rows.len()
        invariant
            k <= rows.len(),
            u == fold_obs(rows@.take(k as int), |x: CosmeticRow| music_obs(*index, x)),
        decreases rows.len() - k,
    {
        proof {
            assert(rows@.take(k + 1).drop_last() =~= rows@.take(k as int));
            assert(rows@.take(k + 1).last() == rows@[k as int]);
        }
        let obs = match rows[k].music_kit_id {
            Some(v) => if index.valid_music_kit_id(v) {
                Some(v)
            } else {
                None
            },
            None => None,
        };
        observe_u32(&mut u, obs);
        k = k + 1;
    }
    proof {
        assert(rows@.take(rows@.len() as int) =~= rows@);
    }
    u.into_value()
}

/// A valid scoreboard flair a row reports.
pub open spec fn flair_obs(index: Cs2LibEconIndex, r: CosmeticRow) -> Option<u32> {
    match r.scoreboard_flair {
        Some(f) => if f.item_def_index == 0 || index.scoreboard_flair_defidx@.contains(f.item_def_index) {
            Some(f.item_def_index)
        } else {
            None
        },
        None => None,
    }
}

/// The scoreboard flair, when the rows report exactly one valid flair.
pub fn stable_scoreboard_flair(index: &Cs2LibEconIndex, rows: &[CosmeticRow]) -> (r: Option<ReplayScoreboardFlair>)
    ensures
        r == match unique_value(fold_obs(rows@, |x: CosmeticRow| flair_obs(*index, x))) {
            Some(d) => Some(ReplayScoreboardFlair { item_def_index: d }),
            None => None,
        },
{
    let mut u: Unique<u32> = Unique::Missing;
    let mut k: usize = 0;
    while k < rows.len()
        invariant
            k <= rows.len(),
            u == fold_obs(rows@.take(k as int), |x: CosmeticRow| flair_obs(*index, x)),
        decreases rows.len() - k,
    {
        proof {
            assert(rows@.take(k + 1).drop_last() =~= rows@.take(k as int));
            assert(rows@.take(k + 1).last() == rows@[k as int]);
        }
        let obs = match rows[k].scoreboard_flair {
            Some(f) => if index.valid_scoreboard_flair_item_def(f.item_def_index) {
                Some(f.item_def_index)
            } else {
                None
            },
            None => None,
        };
        observe_u32(&mut u, obs);
        k = k + 1;
    }
    proof {
        assert(rows@.take(rows@.len() as int) =~= rows@);
    }
    match u.into_value() {
        Some(d) => Some(ReplayScoreboardFlair { item_def_index: d }),
        None => None,
    }
}

/// A row shows an agent: a player with a catalog agent and a skin name that
/// names an agent model.
pub open spec fn agent_row(index: Cs2LibEconIndex, r: CosmeticRow) -> bool {
    &&& r.steam_id != 0
    &&& r.agent_item_def_index matches Some(d)
    &&& d != 0
    &&& index.agent_defidx@.contains(d)
    &&& r.agent_skin matches Some(n)
    &&& spec_agent_path(n@) is Some
}

pub open spec fn agent_def_obs(index: Cs2LibEconIndex, r: CosmeticRow) -> Option<u32> {
    if agent_row(index, r) {
        r.agent_item_def_index
    } else {
        None
    }
}

pub open spec fn agent_path_obs(index: Cs2LibEconIndex, r: CosmeticRow) -> Option<Seq<char>> {
    if agent_row(index, r) {
        spec_agent_path(r.agent_skin->0@)
    } else {
        None
    }
}

pub open spec fn agent_name_obs(index: Cs2LibEconIndex, r: CosmeticRow) -> Option<Seq<char>> {
    if agent_row(index, r) {
        Some(r.agent_skin->0@)
    } else {
        None
    }
}

/// The agent shown: the one agent and model path the rows agree on, named
/// only when they agree on the skin name too.
pub open spec fn agent_matches(a: Option<ReplayAgentCosmetic>, index: Cs2LibEconIndex, rows: Seq<CosmeticRow>) -> bool {
    match (
        unique_value(fold_obs(rows, |x: CosmeticRow| agent_def_obs(index, x))),
        unique_value(fold_obs(rows, |x: CosmeticRow| agent_path_obs(index, x))),
    ) {
        (Some(d), Some(p)) => a matches Some(c) && c.item_def_index == d && c.model_path@ == p && opt_str_view(c.name)
            == unique_value(fold_obs(rows, |x: CosmeticRow| agent_name_obs(index, x))),
        _ => a is None,
    }
}

pub fn replay_agent_cosmetic(index: &Cs2LibEconIndex, rows: &[CosmeticRow]) -> (r: Option<ReplayAgentCosmetic>)
    ensures
        agent_matches(r, *index, rows@),
{
    let mut defs: Unique<u32> = Unique::Missing;
    let mut paths: Unique<String> = Unique::Missing;
    let mut names: Unique<String> = Unique::Missing;
    let mut k: usize = 0;
    while k < rows.len()
        invariant
            k <= rows.len(),
            defs == fold_obs(rows@.take(k as int), |x: CosmeticRow| agent_def_obs(*index, x)),
            str_evidence(paths) == fold_obs(rows@.take(k as int), |x: CosmeticRow| agent_path_obs(*index, x)),
            str_evidence(names) == fold_obs(rows@.take(k as int), |x: CosmeticRow| agent_name_obs(*index, x)),
        decreases rows.len() - k,
    {
        let row = &rows[k];
        proof {
            assert(rows@.take(k + 1).drop_last() =~= rows@.take(k as int));
            assert(rows@.take(k + 1).last() == rows@[k as int]);
        }
        if row.steam_id != 0 {
            if let Some(d) = row.agent_item_def_index {
                if d != 0 && index.valid_agent_item_def_index(d) {
                    if let Some(name) = &row.agent_skin {
                        let path = agent_model_path_from_name(name.as_str());
                        proof {
                            lemma_agent_path_is_function(name@, opt_str_view(path));
                        }
                        if let Some(path) = path {
                            observe_u32(&mut defs, Some(d));
                            observe_name(&mut paths, Some(path));
                            observe_name(&mut names, Some(string_of(name.as_str())));
                        }
                    }
                }
            }
        }
        k = k + 1;
    }
    proof {
        assert(rows@.take(rows@.len() as int) =~= rows@);
    }
    match (defs, paths) {
        (Unique::Value(d), Unique::Value(p)) => Some(ReplayAgentCosmetic { item_def_index: d, model_path: p, name: unique_name(names) }),
        _ => None,
    }
}


// ---------------------------------------------------------------------------
// Inventory weapons of a round
// ---------------------------------------------------------------------------

/// The candidate rows around the live start: the start (clamped to the last
/// row), the two after it, then the two before it.
pub open spec fn start_candidates(len: int, start: int) -> Seq<int> {
    let c = if start < len - 1 {
        start
    } else {
        len - 1
    };
    seq![c] + (if c + 1 < len {
        seq![c + 1]
    } else {
        seq![]
    }) + (if c + 2 < len {
        seq![c + 2]
    } else {
        seq![]
    }) + (if c >= 1 {
        seq![c - 1]
    } else {
        seq![]
    }) + (if c >= 2 {
        seq![c - 2]
    } else {
        seq![]
    })
}

/// The first candidate in `cands` whose row has a sampled inventory.
pub open spec fn first_with_inventory(rows: Seq<CosmeticRow>, cands: Seq<int>) -> Option<int>
    decreases cands.len(),
{
    if cands.len() == 0 {
        None
    } else if rows[cands[0]].inventory_weapon_cosmetics@.len() > 0 {
        Some(cands[0])
    } else {
        first_with_inventory(rows, cands.drop_first())
    }
}

/// The row whose inventory stands for the live start: the first candidate
/// around it with a sampled inventory.
pub open spec fn spec_start_row(rows: Seq<CosmeticRow>, start: u32) -> Option<int> {
    if rows.len() == 0 {
        None
    } else {
        first_with_inventory(rows, start_candidates(rows.len() as int, start as int))
    }
}

pub fn live_start_inventory_cosmetic_row(rows: &[CosmeticRow], play_start_tick_index: u32) -> (r: Option<usize>)
    ensures
        match spec_start_row(rows@, play_start_tick_index) {
            Some(i) => 0 <= i < rows@.len() && r == Some(i as usize),
            None => r is None,
        },
{
    let n = rows.len();
    if n == 0 {
        return None;
    }
    let start = play_start_tick_index as usize;
    let center = if start < n - 1 {
        start
    } else {
        n - 1
    };
    let mut cands: Vec<usize> = Vec::new();
    cands.push(center);
    if n - center > 1 {
        cands.push(center + 1);
    }
    if n - center > 2 {
        cands.push(center + 2);
    }
    if center >= 1 {
        cands.push(center - 1);
    }
    if center >= 2 {
        cands.push(center - 2);
    }
    let ghost sc = start_candidates(n as int, play_start_tick_index as int);
    proof {
        assert(cands@.len() == sc.len());
        assert forall|j: int| 0 <= j < sc.len() implies sc[j] == cands@[j] as int && 0 <= sc[j] < n by {}
        assert(sc.subrange(0, sc.len() as int) =~= sc);
    }
    let mut j: usize = 0;
    while j < cands.len()
        invariant
            j <= cands@.len() == sc.len(),
            n == rows@.len(),
            n > 0,
            sc == start_candidates(n as int, play_start_tick_index as int),
            forall|q: int| 0 <= q < sc.len() ==> sc[q] == cands@[q] as int && 0 <= sc[q] < n,
            first_with_inventory(rows@, sc) == first_with_inventory(rows@, sc.subrange(j as int, sc.len() as int)),
        decreases cands.len() - j,
    {
        proof {
            let rest = sc.subrange(j as int, sc.len() as int);
            assert(rest.drop_first() =~= sc.subrange(j + 1, sc.len() as int));
            assert(rest[0] == sc[j as int]);
        }
        let i = cands[j];
        if rows[i].inventory_weapon_cosmetics.len() > 0 {
            proof {
                let rest = sc.subrange(j as int, sc.len() as int);
                assert(rest[0] == i as int);
                assert(rows@[rest[0]].inventory_weapon_cosmetics@.len() > 0);
                assert(first_with_inventory(rows@, rest) == Some(i as int));
            }
            return Some(i);
        }
        j = j + 1;
    }
    None
}

/// The inventory weapons at the live start: `None` without a sampled
/// inventory near it; an empty list is authoritative.
pub fn live_start_inventory_weapon_cosmetics(
    index: &Cs2LibEconIndex,
    rows: &[CosmeticRow],
    play_start_tick_index: u32,
    export_stickers: bool,
    export_charms: bool,
) -> (r: Option<Vec<ReplayWeaponCosmetic>>)
    ensures
        match spec_start_row(rows@, play_start_tick_index) {
            Some(i) => r matches Some(ws) && weapons_listed(ws@, *index, rows@[i].inventory_weapon_cosmetics@, export_stickers, export_charms),
            None => r is None,
        },
{
    match live_start_inventory_cosmetic_row(rows, play_start_tick_index) {
        Some(i) => match inventory_weapon_cosmetics_for_row(index, &rows[i].inventory_weapon_cosmetics, export_stickers, export_charms) {
            Some(ws) => Some(ws),
            None => {
                let empty: Vec<ReplayWeaponCosmetic> = Vec::new();
                proof {
                    assert forall|d: i32| #[trigger] weapon_shown(*index, rows@[i as int].inventory_weapon_cosmetics@, d) <==> lists_weapon(empty@, d) by {}
                }
                Some(empty)
            },
        },
        None => None,
    }
}

/// The side and inventory sample last seen for a player among the first `k`
/// rows of living players.
pub open spec fn last_seen(rows: Seq<CosmeticRow>, steam: u64, k: int) -> Option<(u8, u64)>
    decreases k,
{
    if k <= 0 {
        None
    } else if counted(rows[k - 1]) && rows[k - 1].steam_id == steam {
        Some((rows[k - 1].team_num, rows[k - 1].inventory_snapshot))
    } else {
        last_seen(rows, steam, k - 1)
    }
}

/// A living player's row brings a new inventory sample: the player was not
/// seen before, changed side, or carries another sample.
pub open spec fn changed_at(rows: Seq<CosmeticRow>, k: int) -> bool {
    counted(rows[k]) && last_seen(rows, rows[k].steam_id, k) != Some((rows[k].team_num, rows[k].inventory_snapshot))
}

/// The side and inventory sample last seen for each player.
pub struct InventorySnapshotTracker {
    pub last: Vec<(u64, (u8, u64))>,
}

impl InventorySnapshotTracker {
    pub fn new() -> (r: InventorySnapshotTracker)
        ensures
            r.last@.len() == 0,
    {
        InventorySnapshotTracker { last: Vec::new() }
    }

    /// Records the row's side and sample for its player; true when they differ
    /// from what was last seen for that player, or the player is new.
    pub fn changed(&mut self, row: &CosmeticRow) -> (r: bool)
        requires
            distinct_keys(old(self).last@),
        ensures
            distinct_keys(final(self).last@),
            r == (entry_for(old(self).last@, row.steam_id) != Some((row.team_num, row.inventory_snapshot))),
            entry_for(final(self).last@, row.steam_id) == Some((row.team_num, row.inventory_snapshot)),
            forall|s: u64| s != row.steam_id ==> #[trigger] entry_for(final(self).last@, s) == entry_for(old(self).last@, s),
    {
        let current = (row.team_num, row.inventory_snapshot);
        let ghost before = self.last@;
        let mut i: usize = 0;
        while i < self.last.len()
            invariant
                i <= self.last@.len(),
                self.last@ == before,
                before == old(self).last@,
                current == (row.team_num, row.inventory_snapshot),
                distinct_keys(before),
                forall|j: int| 0 <= j < i ==> #[trigger] self.last@[j].0 != row.steam_id,
            decreases self.last.len() - i,
        {
            if self.last[i].0 == row.steam_id {
                let previous = self.last[i].1;
                proof {
                    lemma_entry_for_at(before, i as int);
                    assert(entry_for(before, row.steam_id) == Some(previous));
                }
                self.last.set(i, (row.steam_id, current));
                proof {
                    assert(before[i as int].0 == row.steam_id);
                    assert(self.last@ == before.update(i as int, (before[i as int].0, current)));
                    lemma_entry_for_update(before, i as int, current, row.steam_id);
                    assert forall|s: u64| s != row.steam_id implies #[trigger] entry_for(self.last@, s) == entry_for(before, s) by {
                        lemma_entry_for_update(before, i as int, current, s);
                    }
                }
                return previous.0 != current.0 || previous.1 != current.1;
            }
            i = i + 1;
        }
        proof {
            lemma_entry_for_absent(before, row.steam_id);
            lemma_entry_for_push(before, row.steam_id, current, row.steam_id);
            assert forall|s: u64| s != row.steam_id implies #[trigger] entry_for(before.push((row.steam_id, current)), s) == entry_for(before, s) by {
                lemma_entry_for_push(before, row.steam_id, current, s);
            }
        }
        self.last.push((row.steam_id, current));
        true
    }
}

/// The first row among the first `n` that brings a new inventory sample
/// showing weapon `d`.
pub open spec fn first_showing(index: Cs2LibEconIndex, rows: Seq<CosmeticRow>, n: int, d: i32) -> Option<int>
    decreases n,
{
    if n <= 0 {
        None
    } else {
        match first_showing(index, rows, n - 1, d) {
            Some(j) => Some(j),
            None => if changed_at(rows, n - 1) && weapon_shown(index, rows[n - 1].inventory_weapon_cosmetics@, d) {
                Some(n - 1)
            } else {
                None
            },
        }
    }
}

/// The weapon of `ws` for definition `d`.
pub open spec fn weapon_for(ws: Seq<ReplayWeaponCosmetic>, d: i32) -> ReplayWeaponCosmetic {
    ws[choose|i: int| 0 <= i < ws.len() && #[trigger] ws[i].weapon_def_index == d]
}

pub open spec fn ascending(ws: Seq<ReplayWeaponCosmetic>) -> bool {
    forall|a: int, b: int| 0 <= a < b < ws.len() ==> #[trigger] ws[a].weapon_def_index < #[trigger] ws[b].weapon_def_index
}

/// The weapons of `ws` in ascending order are the weapons the round's
/// inventory samples show, each as the first sample that shows it has it.
pub open spec fn round_weapons_listed(
    ws: Seq<ReplayWeaponCosmetic>,
    index: Cs2LibEconIndex,
    rows: Seq<CosmeticRow>,
    export_stickers: bool,
    export_charms: bool,
) -> bool {
    &&& ascending(ws)
    &&& forall|d: i32| #[trigger] lists_weapon(ws, d) <==> first_showing(index, rows, rows.len() as int, d) is Some
    &&& forall|i: int| 0 <= i < ws.len() ==> weapon_matches(#[trigger] ws[i], index, rows[first_showing(index, rows, rows.len() as int, ws[i].weapon_def_index)->0].inventory_weapon_cosmetics@, ws[i].weapon_def_index, export_stickers, export_charms)
}

/// Adds `w` unless its weapon is listed, keeping the list ascending.
fn insert_weapon_if_absent(out: &mut Vec<ReplayWeaponCosmetic>, w: ReplayWeaponCosmetic) -> (added: bool)
    requires
        ascending(old(out)@),
    ensures
        ascending(final(out)@),
        added == !lists_weapon(old(out)@, w.weapon_def_index),
        !added ==> final(out)@ == old(out)@,
        added ==> exists|p: int| 0 <= p <= old(out)@.len() && final(out)@ == old(out)@.insert(p, w),
        forall|d: i32| #[trigger] lists_weapon(final(out)@, d) <==> (lists_weapon(old(out)@, d) || d == w.weapon_def_index),
{
    let x = w.weapon_def_index;
    let mut p: usize = 0;
    while p < out.len() && out[p].weapon_def_index < x
        invariant
            p <= out@.len(),
            forall|a: int| 0 <= a < p ==> out@[a].weapon_def_index < x,
        decreases out.len() - p,
    {
        p = p + 1;
    }
    if p < out.len() && out[p].weapon_def_index == x {
        proof {
            assert(lists_weapon(out@, x));
        }
        return false;
    }
    let ghost before = out@;
    proof {
        assert forall|a: int| 0 <= a < before.len() implies before[a].weapon_def_index != x by {
            if a >= p {
                assert(before[p as int].weapon_def_index > x);
                if a > p {
                    assert(before[p as int].weapon_def_index < before[a].weapon_def_index);
                }
            }
        }
    }
    out.insert(p, w);
    proof {
        lemma_insert_ascending(before, p as int, w);
        assert(!lists_weapon(before, x));
        lemma_insert_lists(before, p as int, w);
    }
    true
}

proof fn lemma_insert_ascending(before: Seq<ReplayWeaponCosmetic>, p: int, w: ReplayWeaponCosmetic)
    requires
        ascending(before),
        0 <= p <= before.len(),
        forall|a: int| 0 <= a < p ==> before[a].weapon_def_index < w.weapon_def_index,
        p < before.len() ==> before[p].weapon_def_index > w.weapon_def_index,
    ensures
        ascending(before.insert(p, w)),
{
    let out = before.insert(p, w);
    assert forall|a: int, b: int| 0 <= a < b < out.len() implies #[trigger] out[a].weapon_def_index < #[trigger] out[b].weapon_def_index by {
        if b < p {
        } else if a < p && b == p {
        } else if a < p {
            assert(out[b] == before[b - 1]);
            assert(before[a].weapon_def_index < before[b - 1].weapon_def_index || a == b - 1);
        } else if a == p {
            assert(out[b] == before[b - 1]);
            assert(before[p].weapon_def_index <= before[b - 1].weapon_def_index);
        } else {
            assert(out[a] == before[a - 1]);
            assert(out[b] == before[b - 1]);
        }
    }
}

proof fn lemma_insert_lists(before: Seq<ReplayWeaponCosmetic>, p: int, w: ReplayWeaponCosmetic)
    requires
        0 <= p <= before.len(),
    ensures
        forall|d: i32| #[trigger] lists_weapon(before.insert(p, w), d) <==> (lists_weapon(before, d) || d == w.weapon_def_index),
{
    let out = before.insert(p, w);
    assert forall|d: i32| #[trigger] lists_weapon(out, d) <==> (lists_weapon(before, d) || d == w.weapon_def_index) by {
        if lists_weapon(out, d) {
            let i = choose|i: int| 0 <= i < out.len() && #[trigger] out[i].weapon_def_index == d;
            if i < p {
                assert(before[i].weapon_def_index == d);
            } else if i > p {
                assert(before[i - 1].weapon_def_index == d);
            }
        }
        if lists_weapon(before, d) {
            let i = choose|i: int| 0 <= i < before.len() && #[trigger] before[i].weapon_def_index == d;
            if i < p {
                assert(out[i].weapon_def_index == d);
            } else {
                assert(out[i + 1].weapon_def_index == d);
            }
        }
        if d == w.weapon_def_index {
            assert(out[p].weapon_def_index == d);
        }
    }
}


/// Every weapon of `out` is as the first sample among the first `k` rows that
/// shows it has it, or, for a weapon no such sample shows, as row `k` has it.
pub open spec fn matches_round_or_row(
    out: Seq<ReplayWeaponCosmetic>,
    index: Cs2LibEconIndex,
    rows: Seq<CosmeticRow>,
    k: int,
    export_stickers: bool,
    export_charms: bool,
) -> bool {
    forall|i: int| 0 <= i < out.len() ==> match first_showing(index, rows, k, (#[trigger] out[i]).weapon_def_index) {
        Some(j) => weapon_matches(out[i], index, rows[j].inventory_weapon_cosmetics@, out[i].weapon_def_index, export_stickers, export_charms),
        None => weapon_matches(out[i], index, rows[k].inventory_weapon_cosmetics@, out[i].weapon_def_index, export_stickers, export_charms),
    }
}

/// Adds the weapons of row `k`'s sample that no earlier sample showed.
#[verifier::rlimit(60)]
fn add_row_weapons(
    out: &mut Vec<ReplayWeaponCosmetic>,
    ws: Vec<ReplayWeaponCosmetic>,
    Ghost(index): Ghost<Cs2LibEconIndex>,
    Ghost(rows): Ghost<Seq<CosmeticRow>>,
    Ghost(k): Ghost<int>,
    Ghost(export_stickers): Ghost<bool>,
    Ghost(export_charms): Ghost<bool>,
)
    requires
        0 <= k < rows.len(),
        ascending(old(out)@),
        weapons_listed(ws@, index, rows[k].inventory_weapon_cosmetics@, export_stickers, export_charms),
        forall|d: i32| #[trigger] lists_weapon(old(out)@, d) <==> first_showing(index, rows, k, d) is Some,
        matches_round_or_row(old(out)@, index, rows, k, export_stickers, export_charms),
    ensures
        ascending(final(out)@),
        forall|d: i32| #[trigger] lists_weapon(final(out)@, d) <==> (first_showing(index, rows, k, d) is Some || weapon_shown(index, rows[k].inventory_weapon_cosmetics@, d)),
        matches_round_or_row(final(out)@, index, rows, k, export_stickers, export_charms),
{
    let ghost all = ws@;
    let mut rest = ws;
    while rest.len() > 0
        invariant
            0 <= k < rows.len(),
            rest@.len() <= all.len(),
            rest@ == all.subrange(all.len() - rest@.len(), all.len() as int),
            weapons_listed(all, index, rows[k].inventory_weapon_cosmetics@, export_stickers, export_charms),
            ascending(out@),
            forall|d: i32| #[trigger] lists_weapon(out@, d) <==> (first_showing(index, rows, k, d) is Some || exists|m: int| 0 <= m < all.len() - rest@.len() && #[trigger] all[m].weapon_def_index == d),
            matches_round_or_row(out@, index, rows, k, export_stickers, export_charms),
        decreases rest.len(),
    {
        let ghost taken = all.len() - rest@.len();
        let w = rest.remove(0);
        proof {
            assert(w == all[taken]);
            assert(rest@ =~= all.subrange(all.len() - rest@.len(), all.len() as int));
        }
        let ghost before = out@;
        let added = insert_weapon_if_absent(out, w);
        proof {
            assert forall|d: i32| #[trigger] lists_weapon(out@, d) <==> (first_showing(index, rows, k, d) is Some || exists|m: int| 0 <= m < taken + 1 && #[trigger] all[m].weapon_def_index == d) by {
                if exists|m: int| 0 <= m < taken + 1 && #[trigger] all[m].weapon_def_index == d {
                    let m = choose|m: int| 0 <= m < taken + 1 && #[trigger] all[m].weapon_def_index == d;
                    if m < taken {
                        assert(lists_weapon(before, d));
                    }
                }
                if lists_weapon(before, d) && first_showing(index, rows, k, d) is None {
                    let m = choose|m: int| 0 <= m < taken && #[trigger] all[m].weapon_def_index == d;
                    assert(0 <= m < taken + 1);
                }
            }
            if added {
                let p = choose|p: int| 0 <= p <= before.len() && out@ == before.insert(p, w);
                assert(first_showing(index, rows, k, w.weapon_def_index) is None);
                assert(weapon_matches(all[taken], index, rows[k].inventory_weapon_cosmetics@, all[taken].weapon_def_index, export_stickers, export_charms));
                assert forall|i: int| 0 <= i < out@.len() implies match first_showing(index, rows, k, (#[trigger] out@[i]).weapon_def_index) {
                    Some(j) => weapon_matches(out@[i], index, rows[j].inventory_weapon_cosmetics@, out@[i].weapon_def_index, export_stickers, export_charms),
                    None => weapon_matches(out@[i], index, rows[k].inventory_weapon_cosmetics@, out@[i].weapon_def_index, export_stickers, export_charms),
                } by {
                    if i < p {
                        assert(out@[i] == before[i]);
                    } else if i > p {
                        assert(out@[i] == before[i - 1]);
                    } else {
                        assert(out@[i] == w);
                    }
                }
            }
        }
    }
    proof {
        assert forall|d: i32| #[trigger] lists_weapon(out@, d) <==> (first_showing(index, rows, k, d) is Some || weapon_shown(index, rows[k].inventory_weapon_cosmetics@, d)) by {
            if weapon_shown(index, rows[k].inventory_weapon_cosmetics@, d) {
                assert(lists_weapon(all, d));
                let m = choose|m: int| 0 <= m < all.len() && #[trigger] all[m].weapon_def_index == d;
                assert(0 <= m < all.len() - rest@.len());
            }
            if lists_weapon(out@, d) && first_showing(index, rows, k, d) is None {
                let m = choose|m: int| 0 <= m < all.len() - rest@.len() && #[trigger] all[m].weapon_def_index == d;
                assert(lists_weapon(all, d));
            }
        }
    }
}

/// The inventory weapons of a round: over the living players' rows that
/// bring a new inventory sample, in order, each weapon as the first sample
/// that shows it has it; ascending, and `None` when no sample shows a weapon.
pub fn round_inventory_weapon_cosmetics(
    index: &Cs2LibEconIndex,
    rows: &[CosmeticRow],
    export_stickers: bool,
    export_charms: bool,
) -> (r: Option<Vec<ReplayWeaponCosmetic>>)
    ensures
        match r {
            Some(ws) => ws@.len() > 0 && round_weapons_listed(ws@, *index, rows@, export_stickers, export_charms),
            None => forall|d: i32| #[trigger] first_showing(*index, rows@, rows@.len() as int, d) is None,
        },
{
    let mut out: Vec<ReplayWeaponCosmetic> = Vec::new();
    let mut snapshots = InventorySnapshotTracker::new();
    let mut k: usize = 0;
    while k < rows.len()
        invariant
            k <= rows.len(),
            distinct_keys(snapshots.last@),
            forall|s: u64| #[trigger] entry_for(snapshots.last@, s) == last_seen(rows@, s, k as int),
            ascending(out@),
            forall|d: i32| #[trigger] lists_weapon(out@, d) <==> first_showing(*index, rows@, k as int, d) is Some,
            forall|i: int| 0 <= i < out@.len() ==> weapon_matches(#[trigger] out@[i], *index, rows@[first_showing(*index, rows@, k as int, out@[i].weapon_def_index)->0].inventory_weapon_cosmetics@, out@[i].weapon_def_index, export_stickers, export_charms),
        decreases rows.len() - k,
    {
        let row = &rows[k];
        let ghost tracked_before = snapshots.last@;
        let changed = if row.is_alive && row.steam_id != 0 {
            snapshots.changed(row)
        } else {
            false
        };
        proof {
            assert(changed == changed_at(rows@, k as int)) by {
                if counted(rows@[k as int]) {
                    assert(entry_for(tracked_before, row.steam_id) == last_seen(rows@, row.steam_id, k as int));
                }
            }
            assert forall|s: u64| #[trigger] entry_for(snapshots.last@, s) == last_seen(rows@, s, k + 1) by {
                assert(entry_for(tracked_before, s) == last_seen(rows@, s, k as int));
            }
        }
        let ghost mid = out@;
        proof {
            assert forall|i: int| 0 <= i < mid.len() implies match first_showing(*index, rows@, k as int, (#[trigger] mid[i]).weapon_def_index) {
                Some(j) => weapon_matches(mid[i], *index, rows@[j].inventory_weapon_cosmetics@, mid[i].weapon_def_index, export_stickers, export_charms),
                None => weapon_matches(mid[i], *index, rows@[k as int].inventory_weapon_cosmetics@, mid[i].weapon_def_index, export_stickers, export_charms),
            } by {
                assert(lists_weapon(mid, mid[i].weapon_def_index));
            }
        }
        let mut shown_here = false;
        if changed {
            match inventory_weapon_cosmetics_for_row(index, &row.inventory_weapon_cosmetics, export_stickers, export_charms) {
                Some(ws) => {
                    add_row_weapons(&mut out, ws, Ghost(*index), Ghost(rows@), Ghost(k as int), Ghost(export_stickers), Ghost(export_charms));
                    shown_here = true;
                },
                None => {},
            }
        }
        proof {
            assert forall|d: i32| #[trigger] lists_weapon(out@, d) <==> first_showing(*index, rows@, k + 1, d) is Some by {
                assert(first_showing(*index, rows@, k + 1, d) == match first_showing(*index, rows@, k as int, d) {
                    Some(j) => Some(j),
                    None => if changed_at(rows@, k as int) && weapon_shown(*index, rows@[k as int].inventory_weapon_cosmetics@, d) {
                        Some(k as int)
                    } else {
                        None
                    },
                });
            }
            assert forall|i: int| 0 <= i < out@.len() implies weapon_matches(#[trigger] out@[i], *index, rows@[first_showing(*index, rows@, k + 1, out@[i].weapon_def_index)->0].inventory_weapon_cosmetics@, out@[i].weapon_def_index, export_stickers, export_charms) by {
                let d = out@[i].weapon_def_index;
                assert(lists_weapon(out@, d));
                if !shown_here {
                    assert(out@ == mid);
                }
            }
        }
        k = k + 1;
    }
    if out.len() == 0 {
        proof {
            assert forall|d: i32| #[trigger] first_showing(*index, rows@, rows@.len() as int, d) is None by {
                if first_showing(*index, rows@, rows@.len() as int, d) is Some {
                    assert(lists_weapon(out@, d));
                }
            }
        }
        None
    } else {
        Some(out)
    }
}


// ---------------------------------------------------------------------------
// Preview links
// ---------------------------------------------------------------------------

/// A weapon appearance without its preview link.
pub open spec fn weapon_without_inspect(w: ReplayWeaponCosmetic) -> ReplayWeaponCosmetic {
    ReplayWeaponCosmetic {
        weapon_def_index: w.weapon_def_index,
        paint_kit: w.paint_kit,
        seed: w.seed,
        wear_bits: w.wear_bits,
        quality: w.quality,
        stattrak_counter: w.stattrak_counter,
        original_owner_steam_id: w.original_owner_steam_id,
        item_account_id: w.item_account_id,
        item_id: w.item_id,
        custom_name: w.custom_name,
        stickers: w.stickers,
        charms: w.charms,
        inspect: None,
    }
}

/// A knife or glove appearance without its preview link.
pub open spec fn item_without_inspect(c: ReplayItemCosmetic) -> ReplayItemCosmetic {
    ReplayItemCosmetic {
        item_def_index: c.item_def_index,
        paint_kit: c.paint_kit,
        seed: c.seed,
        seed_known: c.seed_known,
        wear_bits: c.wear_bits,
        custom_name: c.custom_name,
        inspect: None,
    }
}

/// The catalog rarity of a weapon's paint.
pub open spec fn spec_rarity(index: Cs2LibEconIndex, def: i32, paint_kit: u32) -> Option<u32> {
    let key = (index.spec_normalize(def), paint_kit);
    if index.weapon_paint_rarities@.contains_key(key) {
        Some(index.weapon_paint_rarities@[key])
    } else {
        None
    }
}

/// The preview link of a weapon: present exactly when the weapon qualifies,
/// and then the command and Steam link of its preview fields.
pub open spec fn weapon_inspect_fits(i: Option<ReplayCosmeticInspect>, c: ReplayWeaponCosmetic, rarity: Option<u32>) -> bool {
    &&& (i is Some <==> weapon_inspect_applies(c))
    &&& (i matches Some(inspect) ==> exists|p: PreviewData|
        {
            &&& weapon_preview_matches(p, c, rarity)
            &&& inspect.command@ == spec_inspect(preview_bytes(p)).0
            &&& (inspect.steam_url matches Some(url) && url@ == spec_inspect(preview_bytes(p)).1)
        })
}

/// The preview link of a knife or glove, as for a weapon.
pub open spec fn item_inspect_fits(i: Option<ReplayCosmeticInspect>, c: ReplayItemCosmetic, rarity: Option<u32>) -> bool {
    &&& (i is Some <==> item_inspect_applies(c))
    &&& (i matches Some(inspect) ==> exists|p: PreviewData|
        {
            &&& item_preview_matches(p, c, rarity)
            &&& inspect.command@ == spec_inspect(preview_bytes(p)).0
            &&& (inspect.steam_url matches Some(url) && url@ == spec_inspect(preview_bytes(p)).1)
        })
}

/// A knife or glove after linking: the same appearance with its preview link.
pub open spec fn item_linked(after: Option<ReplayItemCosmetic>, before: Option<ReplayItemCosmetic>) -> bool {
    match before {
        Some(c) => after matches Some(a) && item_without_inspect(a) == item_without_inspect(c) && item_inspect_fits(a.inspect, c, Some(6)),
        None => after is None,
    }
}

fn link_item(item: Option<ReplayItemCosmetic>) -> (r: Option<ReplayItemCosmetic>)
    ensures
        item_linked(r, item),
{
    match item {
        Some(mut c) => {
            let ghost before = c;
            let inspect = item_inspect(&c, Some(6));
            c.inspect = inspect;
            Some(c)
        },
        None => None,
    }
}

/// Sets the preview link of every weapon, of the knife and of the glove;
/// knives and gloves use the covert rarity.
pub fn populate_cosmetic_inspect(index: &Cs2LibEconIndex, cosmetics: &mut ReplayCosmetics)
    ensures
        final(cosmetics).weapons@.len() == old(cosmetics).weapons@.len(),
        forall|i: int| 0 <= i < final(cosmetics).weapons@.len() ==> {
            let b = old(cosmetics).weapons@[i];
            let a = #[trigger] final(cosmetics).weapons@[i];
            weapon_without_inspect(a) == weapon_without_inspect(b) && weapon_inspect_fits(a.inspect, b, spec_rarity(*index, b.weapon_def_index, b.paint_kit))
        },
        item_linked(final(cosmetics).knife, old(cosmetics).knife),
        item_linked(final(cosmetics).glove, old(cosmetics).glove),
        final(cosmetics).agent == old(cosmetics).agent,
{
    let mut weapons: Vec<ReplayWeaponCosmetic> = Vec::new();
    std::mem::swap(&mut weapons, &mut cosmetics.weapons);
    let ghost all = weapons@;
    let mut out: Vec<ReplayWeaponCosmetic> = Vec::new();
    while weapons.len() > 0
        invariant
            weapons@.len() <= all.len(),
            out@.len() == all.len() - weapons@.len(),
            weapons@ == all.subrange(out@.len() as int, all.len() as int),
            forall|i: int| 0 <= i < out@.len() ==> {
                let b = all[i];
                let a = #[trigger] out@[i];
                weapon_without_inspect(a) == weapon_without_inspect(b) && weapon_inspect_fits(a.inspect, b, spec_rarity(*index, b.weapon_def_index, b.paint_kit))
            },
        decreases weapons.len(),
    {
        let ghost n: int = out@.len() as int;
        let mut w = weapons.remove(0);
        proof {
            assert(w == all[n]);
            assert(weapons@ =~= all.subrange(n + 1, all.len() as int));
        }
        let ghost b = w;
        let rarity = index.weapon_cosmetic_rarity(w.weapon_def_index, w.paint_kit);
        let inspect = weapon_inspect(&w, rarity);
        w.inspect = inspect;
        out.push(w);
    }
    cosmetics.weapons = out;
    let mut knife: Option<ReplayItemCosmetic> = None;
    std::mem::swap(&mut knife, &mut cosmetics.knife);
    cosmetics.knife = link_item(knife);
    let mut glove: Option<ReplayItemCosmetic> = None;
    std::mem::swap(&mut glove, &mut cosmetics.glove);
    cosmetics.glove = link_item(glove);
}


// ---------------------------------------------------------------------------
// A player's appearances at the start of a round
// ---------------------------------------------------------------------------

/// Where play starts among the rows: the start index, clamped to the last row.
pub open spec fn spec_play_start(len: int, start: u32) -> int {
    if len == 0 {
        0
    } else if start < len - 1 {
        start as int
    } else {
        len - 1
    }
}

/// The rows from the start of play on.
pub open spec fn spec_active_rows(rows: Seq<CosmeticRow>, start: u32) -> Seq<CosmeticRow> {
    rows.subrange(spec_play_start(rows.len() as int, start), rows.len() as int)
}

/// The weapons of the round: the sampled inventory at the live start (even
/// an unpainted one), else the round's inventory samples, else the weapons
/// in hand from the start of play.
pub open spec fn round_weapons_are(
    ws: Seq<ReplayWeaponCosmetic>,
    index: Cs2LibEconIndex,
    rows: Seq<CosmeticRow>,
    cosmetic_rows: Seq<CosmeticRow>,
    start: u32,
    export_stickers: bool,
    export_charms: bool,
) -> bool {
    match spec_start_row(rows, start) {
        Some(i) => weapons_listed(ws, index, rows[i].inventory_weapon_cosmetics@, export_stickers, export_charms),
        None => if exists|d: i32| #[trigger] first_showing(index, cosmetic_rows, cosmetic_rows.len() as int, d) is Some {
            ws.len() > 0 && round_weapons_listed(ws, index, cosmetic_rows, export_stickers, export_charms)
        } else {
            active_weapons_listed(ws, index, spec_active_rows(rows, start), export_stickers)
        },
    }
}

pub open spec fn opt_item_without_inspect(o: Option<ReplayItemCosmetic>) -> Option<ReplayItemCosmetic> {
    match o {
        Some(c) => Some(item_without_inspect(c)),
        None => None,
    }
}

/// A knife or glove carries the preview link of its appearance.
pub open spec fn item_link_fits(o: Option<ReplayItemCosmetic>) -> bool {
    o matches Some(c) ==> item_inspect_fits(c.inspect, item_without_inspect(c), Some(6))
}

/// The appearances of a player at the start of a round, as listed above,
/// each with its preview link.
pub open spec fn cosmetics_at(
    c: ReplayCosmetics,
    index: Cs2LibEconIndex,
    rows: Seq<CosmeticRow>,
    cosmetic_rows: Seq<CosmeticRow>,
    start: u32,
    seeds: Option<Seq<(EconGloveKey, Option<u32>)>>,
    knives: Option<Seq<(i32, Option<EconKnifePaint>)>>,
    export_stickers: bool,
    export_charms: bool,
) -> bool {
    &&& round_weapons_are(c.weapons@.map_values(|w: ReplayWeaponCosmetic| weapon_without_inspect(w)), index, rows, cosmetic_rows, start, export_stickers, export_charms)
    &&& forall|i: int| 0 <= i < c.weapons@.len() ==> {
        let w = #[trigger] c.weapons@[i];
        weapon_inspect_fits(w.inspect, weapon_without_inspect(w), spec_rarity(index, w.weapon_def_index, w.paint_kit))
    }
    &&& active_knife_matches(opt_item_without_inspect(c.knife), index, knives, spec_active_rows(rows, start))
    &&& item_link_fits(c.knife)
    &&& active_glove_matches(opt_item_without_inspect(c.glove), index, seeds, spec_active_rows(rows, start))
    &&& item_link_fits(c.glove)
    &&& agent_matches(c.agent, index, rows)
}

/// The player shows nothing at the start of the round.
pub open spec fn nothing_at(
    index: Cs2LibEconIndex,
    rows: Seq<CosmeticRow>,
    cosmetic_rows: Seq<CosmeticRow>,
    start: u32,
    seeds: Option<Seq<(EconGloveKey, Option<u32>)>>,
    knives: Option<Seq<(i32, Option<EconKnifePaint>)>>,
    export_stickers: bool,
    export_charms: bool,
) -> bool {
    &&& round_weapons_are(Seq::empty(), index, rows, cosmetic_rows, start, export_stickers, export_charms)
    &&& active_knife_matches(None, index, knives, spec_active_rows(rows, start))
    &&& active_glove_matches(None, index, seeds, spec_active_rows(rows, start))
    &&& agent_matches(None, index, rows)
}

proof fn lemma_unlinked_weapons(ws: Seq<ReplayWeaponCosmetic>)
    requires
        forall|i: int| 0 <= i < ws.len() ==> (#[trigger] ws[i]).inspect is None,
    ensures
        ws.map_values(|w: ReplayWeaponCosmetic| weapon_without_inspect(w)) == ws,
{
    assert(ws.map_values(|w: ReplayWeaponCosmetic| weapon_without_inspect(w)) =~= ws);
}

/// A player's appearances at the start of a round: weapons from the live
/// start inventory, the round's inventory samples or the weapons in hand;
/// knife and gloves from play on; the agent over all rows; each with its
/// preview link. `None` when there is none.
#[verifier::rlimit(60)]
pub fn replay_cosmetics_at(
    index: &Cs2LibEconIndex,
    rows: &[CosmeticRow],
    cosmetic_rows: &[CosmeticRow],
    play_start_tick_index: u32,
    econ_glove_seeds: Option<&Vec<(EconGloveKey, Option<u32>)>>,
    econ_knife_paints: Option<&Vec<(i32, Option<EconKnifePaint>)>>,
    export_stickers: bool,
    export_charms: bool,
) -> (r: Option<ReplayCosmetics>)
    ensures
        match r {
            Some(c) => !c.spec_is_empty() && cosmetics_at(c, *index, rows@, cosmetic_rows@, play_start_tick_index, seq_of(econ_glove_seeds), seq_of(econ_knife_paints), export_stickers, export_charms),
            None => nothing_at(*index, rows@, cosmetic_rows@, play_start_tick_index, seq_of(econ_glove_seeds), seq_of(econ_knife_paints), export_stickers, export_charms),
        },
{
    let n = rows.len();
    let start = play_start_tick_index as usize;
    let play_start = if n == 0 {
        0
    } else if start < n - 1 {
        start
    } else {
        n - 1
    };
    let active = vstd::slice::slice_subrange(rows, play_start, n);
    let ghost active_view = spec_active_rows(rows@, play_start_tick_index);
    assert(active@ == active_view);
    let inventory = match live_start_inventory_weapon_cosmetics(index, rows, play_start_tick_index, export_stickers, export_charms) {
        Some(ws) => Some(ws),
        None => round_inventory_weapon_cosmetics(index, cosmetic_rows, export_stickers, export_charms),
    };
    proof {
        if spec_start_row(rows@, play_start_tick_index) is None && inventory is Some {
            let ws = inventory->0;
            assert(lists_weapon(ws@, ws@[0].weapon_def_index));
            assert(first_showing(*index, cosmetic_rows@, cosmetic_rows@.len() as int, ws@[0].weapon_def_index) is Some);
        }
    }
    let collect_weapons = inventory.is_none();
    let mut cosmetics = match replay_active_cosmetics(index, active, econ_glove_seeds, econ_knife_paints, export_stickers, collect_weapons) {
        Some(c) => c,
        None => ReplayCosmetics { weapons: Vec::new(), knife: None, glove: None, agent: None },
    };
    let ghost weapons_in_hand = cosmetics.weapons@;
    proof {
        if collect_weapons {
            assert(active_weapons_listed(cosmetics.weapons@, *index, active_view, export_stickers)) by {
                if cosmetics.weapons@.len() == 0 {
                    assert forall|d: i32| #[trigger] active_weapon_shown(*index, active_view, d) <==> lists_def(cosmetics.weapons@, d) by {}
                }
            }
        }
    }
    match replay_agent_cosmetic(index, rows) {
        Some(agent) => {
            cosmetics.agent = Some(agent);
        },
        None => {},
    }
    match inventory {
        Some(ws) => {
            cosmetics.weapons = ws;
        },
        None => {},
    }
    proof {
        assert(round_weapons_are(cosmetics.weapons@, *index, rows@, cosmetic_rows@, play_start_tick_index, export_stickers, export_charms)) by {
            if spec_start_row(rows@, play_start_tick_index) is None {
                if exists|d: i32| #[trigger] first_showing(*index, cosmetic_rows@, cosmetic_rows@.len() as int, d) is Some {
                    assert(!collect_weapons);
                } else {
                    assert(collect_weapons);
                }
            }
        }
        assert forall|i: int| 0 <= i < cosmetics.weapons@.len() implies (#[trigger] cosmetics.weapons@[i]).inspect is None by {
            let w = cosmetics.weapons@[i];
            assert(lists_weapon(cosmetics.weapons@, w.weapon_def_index) || lists_def(cosmetics.weapons@, w.weapon_def_index));
        }
        lemma_unlinked_weapons(cosmetics.weapons@);
    }
    let ghost unlinked = cosmetics;
    populate_cosmetic_inspect(index, &mut cosmetics);
    proof {
        assert(cosmetics.weapons@.map_values(|w: ReplayWeaponCosmetic| weapon_without_inspect(w)) =~= unlinked.weapons@.map_values(|w: ReplayWeaponCosmetic| weapon_without_inspect(w)));
        assert forall|i: int| 0 <= i < cosmetics.weapons@.len() implies {
            let w = #[trigger] cosmetics.weapons@[i];
            weapon_inspect_fits(w.inspect, weapon_without_inspect(w), spec_rarity(*index, w.weapon_def_index, w.paint_kit))
        } by {
            let b = unlinked.weapons@[i];
            assert(weapon_without_inspect(b) == b);
        }
        assert(opt_item_without_inspect(cosmetics.knife) == unlinked.knife);
        assert(opt_item_without_inspect(cosmetics.glove) == unlinked.glove);
    }
    if cosmetics.is_empty() {
        proof {
            assert(cosmetics.weapons@ =~= Seq::<ReplayWeaponCosmetic>::empty());
        }
        None
    } else {
        Some(cosmetics)
    }
}

// ---------------------------------------------------------------------------
// Rows without a player
// ---------------------------------------------------------------------------

/// The rows that belong to a player (a non-zero SteamID), in order.
pub open spec fn rows_with_player(rows: Seq<CosmeticRow>) -> Seq<CosmeticRow>
    decreases rows.len(),
{
    if rows.len() == 0 {
        seq![]
    } else if rows.last().steam_id != 0 {
        rows_with_player(rows.drop_last()).push(rows.last())
    } else {
        rows_with_player(rows.drop_last())
    }
}

proof fn lemma_fold_skips_playerless<V>(rows: Seq<CosmeticRow>, f: spec_fn(CosmeticRow) -> Option<V>)
    requires
        forall|r: CosmeticRow| r.steam_id == 0 ==> #[trigger] f(r) is None,
    ensures
        fold_obs(rows, f) == fold_obs(rows_with_player(rows), f),
    decreases rows.len(),
{
    if rows.len() > 0 {
        lemma_fold_skips_playerless(rows.drop_last(), f);
        if rows.last().steam_id != 0 {
            let nz = rows_with_player(rows.drop_last()).push(rows.last());
            assert(nz.drop_last() =~= rows_with_player(rows.drop_last()));
        } else {
            assert(f(rows.last()) is None);
        }
    }
}

proof fn lemma_glove_skips_playerless(
    index: Cs2LibEconIndex,
    seeds: Option<Seq<(EconGloveKey, Option<u32>)>>,
    rows: Seq<CosmeticRow>,
    key: EconGloveKey,
)
    ensures
        first_glove_key(index, seeds, rows) == first_glove_key(index, seeds, rows_with_player(rows)),
        first_glove_seed(index, seeds, rows, key) == first_glove_seed(index, seeds, rows_with_player(rows), key),
    decreases rows.len(),
{
    if rows.len() > 0 {
        lemma_glove_skips_playerless(index, seeds, rows.drop_last(), key);
        if rows.last().steam_id != 0 {
            let nz = rows_with_player(rows.drop_last()).push(rows.last());
            assert(nz.drop_last() =~= rows_with_player(rows.drop_last()));
            assert(nz.last() == rows.last());
        }
    }
}

proof fn lemma_rows_with_player_members(rows: Seq<CosmeticRow>)
    ensures
        forall|j: int| 0 <= j < rows_with_player(rows).len() ==> exists|i: int| 0 <= i < rows.len() && rows[i] == #[trigger] rows_with_player(rows)[j],
        forall|j: int| 0 <= j < rows_with_player(rows).len() ==> (#[trigger] rows_with_player(rows)[j]).steam_id != 0,
        forall|i: int| 0 <= i < rows.len() && (#[trigger] rows[i]).steam_id != 0 ==> exists|j: int| 0 <= j < rows_with_player(rows).len() && rows_with_player(rows)[j] == rows[i],
    decreases rows.len(),
{
    if rows.len() > 0 {
        let dl = rows.drop_last();
        lemma_rows_with_player_members(dl);
        let nd = rows_with_player(dl);
        let nz = rows_with_player(rows);
        assert forall|j: int| 0 <= j < nz.len() implies exists|i: int| 0 <= i < rows.len() && rows[i] == #[trigger] nz[j] by {
            if j < nd.len() {
                assert(nz[j] == nd[j]);
                let i = choose|i: int| 0 <= i < dl.len() && dl[i] == nd[j];
                assert(rows[i] == dl[i]);
            } else {
                assert(nz[j] == rows.last());
                assert(rows[rows.len() - 1] == rows.last());
            }
        }
        assert forall|j: int| 0 <= j < nz.len() implies (#[trigger] nz[j]).steam_id != 0 by {
            if j < nd.len() {
                assert(nz[j] == nd[j]);
            }
        }
        assert forall|i: int| 0 <= i < rows.len() && (#[trigger] rows[i]).steam_id != 0 implies exists|j: int| 0 <= j < nz.len() && nz[j] == rows[i] by {
            if i < dl.len() {
                assert(dl[i] == rows[i]);
                let j = choose|j: int| 0 <= j < nd.len() && nd[j] == dl[i];
                assert(nz[j] == nd[j]);
            } else {
                assert(nz[nz.len() - 1] == rows.last());
            }
        }
    }
}

proof fn lemma_first_identity_push(s: Seq<CosmeticRow>, x: CosmeticRow)
    ensures
        first_identity(s.push(x)) == (if exists|i: int| 0 <= i < s.len() && (#[trigger] s[i]).steam_id != 0 {
            first_identity(s)
        } else if x.steam_id != 0 {
            (x.steam_id, x.team_num)
        } else {
            (0u64, 0u8)
        }),
    decreases s.len(),
{
    assert(s.push(x)[0] == (if s.len() > 0 { s[0] } else { x }));
    if s.len() == 0 {
        assert(s.push(x).drop_first() =~= Seq::<CosmeticRow>::empty());
        assert(first_identity(Seq::<CosmeticRow>::empty()) == (0u64, 0u8));
    }
    if s.len() > 0 {
        lemma_first_identity_push(s.drop_first(), x);
        assert(s.push(x).drop_first() =~= s.drop_first().push(x));
        if s[0].steam_id == 0 {
            if exists|i: int| 0 <= i < s.len() && (#[trigger] s[i]).steam_id != 0 {
                let i = choose|i: int| 0 <= i < s.len() && (#[trigger] s[i]).steam_id != 0;
                assert(s.drop_first()[i - 1] == s[i]);
            }
            if exists|i: int| 0 <= i < s.drop_first().len() && (#[trigger] s.drop_first()[i]).steam_id != 0 {
                let i = choose|i: int| 0 <= i < s.drop_first().len() && (#[trigger] s.drop_first()[i]).steam_id != 0;
                assert(s[i + 1] == s.drop_first()[i]);
            }
        } else {
            assert(s[0].steam_id != 0);
        }
    }
}

#[verifier::spinoff_prover]
#[verifier::rlimit(40)]
proof fn lemma_first_identity_skips_playerless(rows: Seq<CosmeticRow>)
    ensures
        first_identity(rows) == first_identity(rows_with_player(rows)),
        (exists|i: int| 0 <= i < rows.len() && (#[trigger] rows[i]).steam_id != 0) <==> rows_with_player(rows).len() > 0,
    decreases rows.len(),
{
    if rows.len() > 0 {
        let dl = rows.drop_last();
        lemma_first_identity_skips_playerless(dl);
        assert(rows =~= dl.push(rows.last()));
        lemma_first_identity_push(dl, rows.last());
        let nd = rows_with_player(dl);
        if rows.last().steam_id != 0 {
            lemma_first_identity_push(nd, rows.last());
            if nd.len() > 0 {
                lemma_rows_with_player_members(dl);
                assert(nd[0].steam_id != 0);
            } else {
                assert(!(exists|i: int| 0 <= i < nd.len() && (#[trigger] nd[i]).steam_id != 0));
            }
            assert(rows[rows.len() - 1].steam_id != 0);
        }
        assert((exists|i: int| 0 <= i < rows.len() && (#[trigger] rows[i]).steam_id != 0) <==> (
            (exists|i: int| 0 <= i < dl.len() && (#[trigger] dl[i]).steam_id != 0) || rows.last().steam_id != 0)) by {
            if exists|i: int| 0 <= i < rows.len() && (#[trigger] rows[i]).steam_id != 0 {
                let i = choose|i: int| 0 <= i < rows.len() && (#[trigger] rows[i]).steam_id != 0;
                if i < dl.len() {
                    assert(dl[i] == rows[i]);
                }
            }
            if exists|i: int| 0 <= i < dl.len() && (#[trigger] dl[i]).steam_id != 0 {
                let i = choose|i: int| 0 <= i < dl.len() && (#[trigger] dl[i]).steam_id != 0;
                assert(rows[i] == dl[i]);
            }
            if rows.last().steam_id != 0 {
                assert(rows[rows.len() - 1].steam_id != 0);
            }
        }
    }
}

/// Rows without a player (SteamID 0) change nothing of the knife and glove a
/// round shows: the knife evidence, the names of each knife model, the glove
/// and its seed, and the glove's fallback seed are those of the player rows
/// alone, so the knife and glove that `replay_active_cosmetics` returns are
/// the same for both.
pub proof fn law_playerless_rows_leave_knife_and_glove(
    index: Cs2LibEconIndex,
    knives: Option<Seq<(i32, Option<EconKnifePaint>)>>,
    seeds: Option<Seq<(EconGloveKey, Option<u32>)>>,
    rows: Seq<CosmeticRow>,
)
    ensures
        knife_evidence(index, knives, rows) == knife_evidence(index, knives, rows_with_player(rows)),
        forall|d: i32| #[trigger] knife_names(index, knives, rows, d) == knife_names(index, knives, rows_with_player(rows), d),
        spec_glove(index, seeds, rows) == spec_glove(index, seeds, rows_with_player(rows)),
        forall|key: EconGloveKey| #[trigger] spec_glove_fallback_seed(rows, key) == spec_glove_fallback_seed(rows_with_player(rows), key),
        forall|k: Option<ReplayItemCosmetic>| #[trigger] active_knife_matches(k, index, knives, rows)
            == active_knife_matches(k, index, knives, rows_with_player(rows)),
        forall|g: Option<ReplayItemCosmetic>| #[trigger] active_glove_matches(g, index, seeds, rows)
            == active_glove_matches(g, index, seeds, rows_with_player(rows)),
{
    let nz = rows_with_player(rows);
    let f = |r: CosmeticRow| knife_observation(index, knives, r);
    assert forall|r: CosmeticRow| r.steam_id == 0 implies #[trigger] f(r) is None by {}
    lemma_fold_skips_playerless(rows, f);
    lemma_rows_with_player_members(rows);
    assert forall|d: i32| #[trigger] knife_names(index, knives, rows, d) == knife_names(index, knives, nz, d) by {
        assert forall|n: Seq<char>| knife_names(index, knives, rows, d).contains(n) <==> knife_names(index, knives, nz, d).contains(n) by {
            if exists|i: int| 0 <= i < rows.len() && knife_name_at(index, knives, #[trigger] rows[i], d, n) {
                let i = choose|i: int| 0 <= i < rows.len() && knife_name_at(index, knives, #[trigger] rows[i], d, n);
                assert(rows[i].steam_id != 0);
                let j = choose|j: int| 0 <= j < nz.len() && nz[j] == rows[i];
                assert(knife_name_at(index, knives, nz[j], d, n));
            }
            if exists|j: int| 0 <= j < nz.len() && knife_name_at(index, knives, #[trigger] nz[j], d, n) {
                let j = choose|j: int| 0 <= j < nz.len() && knife_name_at(index, knives, #[trigger] nz[j], d, n);
                let i = choose|i: int| 0 <= i < rows.len() && rows[i] == nz[j];
                assert(knife_name_at(index, knives, rows[i], d, n));
            }
        }
        assert(knife_names(index, knives, rows, d) =~= knife_names(index, knives, nz, d));
    }
    let k0 = first_glove_key(index, seeds, rows);
    match k0 {
        Some(k) => lemma_glove_skips_playerless(index, seeds, rows, k),
        None => lemma_glove_skips_playerless(index, seeds, rows, EconGloveKey { item_def_index: 0, paint_kit: 0, wear_bits: 0 }),
    }
    lemma_first_identity_skips_playerless(rows);
}

proof fn lemma_active_evidence_skips_playerless(index: Cs2LibEconIndex, rows: Seq<CosmeticRow>, def: i32, export_stickers: bool)
    ensures
        active_paint_evidence(index, rows, def) == active_paint_evidence(index, rows_with_player(rows), def),
        active_name_evidence(index, rows, def) == active_name_evidence(index, rows_with_player(rows), def),
        active_owner_evidence(index, rows, def) == active_owner_evidence(index, rows_with_player(rows), def),
        active_account_evidence(index, rows, def) == active_account_evidence(index, rows_with_player(rows), def),
        active_item_id_evidence(index, rows, def) == active_item_id_evidence(index, rows_with_player(rows), def),
        active_sticker_evidence(index, rows, def, export_stickers) == active_sticker_evidence(index, rows_with_player(rows), def, export_stickers),
{
    let f1 = |r: CosmeticRow| only_active(index, r, def, row_paint(index, r, def));
    assert forall|r: CosmeticRow| r.steam_id == 0 implies #[trigger] f1(r) is None by {}
    lemma_fold_skips_playerless(rows, f1);
    let f2 = |r: CosmeticRow| only_active(index, r, def, spec_active_custom_name(r));
    assert forall|r: CosmeticRow| r.steam_id == 0 implies #[trigger] f2(r) is None by {}
    lemma_fold_skips_playerless(rows, f2);
    let f3 = |r: CosmeticRow| only_active(index, r, def, nonzero_u64(r.active_weapon_original_owner_steam_id));
    assert forall|r: CosmeticRow| r.steam_id == 0 implies #[trigger] f3(r) is None by {}
    lemma_fold_skips_playerless(rows, f3);
    let f4 = |r: CosmeticRow| only_active(index, r, def, above_one(r.active_weapon_item_account_id));
    assert forall|r: CosmeticRow| r.steam_id == 0 implies #[trigger] f4(r) is None by {}
    lemma_fold_skips_playerless(rows, f4);
    let f5 = |r: CosmeticRow| only_active(index, r, def, nonzero_u64(r.active_weapon_item_id));
    assert forall|r: CosmeticRow| r.steam_id == 0 implies #[trigger] f5(r) is None by {}
    lemma_fold_skips_playerless(rows, f5);
    let f6 = |r: CosmeticRow| only_active(index, r, def, if export_stickers {
        Some(spec_sticker_set(index, r.active_weapon_stickers@))
    } else {
        None
    });
    assert forall|r: CosmeticRow| r.steam_id == 0 implies #[trigger] f6(r) is None by {}
    lemma_fold_skips_playerless(rows, f6);
}

/// Rows without a player (SteamID 0) change nothing of what
/// `replay_active_cosmetics` returns: the appearances that match the rows
/// are exactly those that match the player rows alone.
pub proof fn law_playerless_rows_leave_cosmetics(
    index: Cs2LibEconIndex,
    seeds: Option<Seq<(EconGloveKey, Option<u32>)>>,
    knives: Option<Seq<(i32, Option<EconKnifePaint>)>>,
    rows: Seq<CosmeticRow>,
    export_stickers: bool,
    collect_weapons: bool,
)
    ensures
        forall|r: Option<ReplayCosmetics>| #[trigger] active_cosmetics_match(r, index, seeds, knives, rows, export_stickers, collect_weapons)
            == active_cosmetics_match(r, index, seeds, knives, rows_with_player(rows), export_stickers, collect_weapons),
{
    law_playerless_rows_leave_knife_and_glove(index, knives, seeds, rows);
    law_playerless_rows_leave_weapons(index, rows, export_stickers);
    let nz = rows_with_player(rows);
    assert forall|r: Option<ReplayCosmetics>| #[trigger] active_cosmetics_match(r, index, seeds, knives, rows, export_stickers, collect_weapons)
        == active_cosmetics_match(r, index, seeds, knives, nz, export_stickers, collect_weapons) by {
        match r {
            Some(c) => {
                assert(active_weapons_listed(c.weapons@, index, rows, export_stickers) == active_weapons_listed(c.weapons@, index, nz, export_stickers));
                assert(active_knife_matches(c.knife, index, knives, rows) == active_knife_matches(c.knife, index, knives, nz));
                assert(active_glove_matches(c.glove, index, seeds, rows) == active_glove_matches(c.glove, index, seeds, nz));
            },
            None => {
                assert((forall|d: i32| !active_weapon_shown(index, rows, d)) == (forall|d: i32| !active_weapon_shown(index, nz, d))) by {
                    assert forall|d: i32| active_weapon_shown(index, rows, d) == active_weapon_shown(index, nz, d) by {}
                }
            },
        }
    }
}

/// Two weapon appearances agree in every field (texts by their characters,
/// lists by their items).
pub open spec fn same_weapon(a: ReplayWeaponCosmetic, b: ReplayWeaponCosmetic) -> bool {
    &&& a.weapon_def_index == b.weapon_def_index
    &&& a.paint_kit == b.paint_kit
    &&& a.seed == b.seed
    &&& a.wear_bits == b.wear_bits
    &&& a.quality == b.quality
    &&& a.stattrak_counter == b.stattrak_counter
    &&& a.original_owner_steam_id == b.original_owner_steam_id
    &&& a.item_account_id == b.item_account_id
    &&& a.item_id == b.item_id
    &&& opt_str_view(a.custom_name) == opt_str_view(b.custom_name)
    &&& a.stickers@ == b.stickers@
    &&& a.charms@ == b.charms@
    &&& a.inspect == b.inspect
}

/// Two knife or glove appearances agree in every field.
pub open spec fn same_item(a: Option<ReplayItemCosmetic>, b: Option<ReplayItemCosmetic>) -> bool {
    match (a, b) {
        (None, None) => true,
        (Some(x), Some(y)) => {
            &&& x.item_def_index == y.item_def_index
            &&& x.paint_kit == y.paint_kit
            &&& x.seed == y.seed
            &&& x.seed_known == y.seed_known
            &&& x.wear_bits == y.wear_bits
            &&& opt_str_view(x.custom_name) == opt_str_view(y.custom_name)
            &&& x.inspect == y.inspect
        },
        _ => false,
    }
}

/// Two results of `replay_active_cosmetics` agree in every field.
pub open spec fn same_cosmetics(a: Option<ReplayCosmetics>, b: Option<ReplayCosmetics>) -> bool {
    match (a, b) {
        (None, None) => true,
        (Some(x), Some(y)) => {
            &&& x.weapons@.len() == y.weapons@.len()
            &&& forall|i: int| 0 <= i < x.weapons@.len() ==> same_weapon(#[trigger] x.weapons@[i], y.weapons@[i])
            &&& same_item(x.knife, y.knife)
            &&& same_item(x.glove, y.glove)
            &&& x.agent == y.agent
        },
        _ => false,
    }
}

/// Two lists in strictly increasing weapon order that list the same weapons
/// hold them at the same places.
proof fn lemma_sorted_lists_agree(a: Seq<ReplayWeaponCosmetic>, b: Seq<ReplayWeaponCosmetic>)
    requires
        forall|x: int, y: int| 0 <= x < y < a.len() ==> #[trigger] a[x].weapon_def_index < #[trigger] a[y].weapon_def_index,
        forall|x: int, y: int| 0 <= x < y < b.len() ==> #[trigger] b[x].weapon_def_index < #[trigger] b[y].weapon_def_index,
        forall|d: i32| #![trigger lists_def(a, d)] #![trigger lists_def(b, d)] lists_def(a, d) <==> lists_def(b, d),
    ensures
        a.len() == b.len(),
        forall|i: int| 0 <= i < a.len() ==> (#[trigger] a[i]).weapon_def_index == b[i].weapon_def_index,
    decreases a.len(),
{
    if a.len() == 0 {
        if b.len() > 0 {
            assert(lists_def(b, b[0].weapon_def_index));
        }
    } else if b.len() == 0 {
        assert(lists_def(a, a[0].weapon_def_index));
    } else {
        assert(lists_def(a, a[0].weapon_def_index));
        assert(lists_def(b, b[0].weapon_def_index));
        let j = choose|j: int| 0 <= j < b.len() && #[trigger] b[j].weapon_def_index == a[0].weapon_def_index;
        let i = choose|i: int| 0 <= i < a.len() && #[trigger] a[i].weapon_def_index == b[0].weapon_def_index;
        if j > 0 {
            assert(b[0].weapon_def_index < b[j].weapon_def_index);
            if i > 0 {
                assert(a[0].weapon_def_index < a[i].weapon_def_index);
            }
        }
        assert(a[0].weapon_def_index == b[0].weapon_def_index);
        let a1 = a.drop_first();
        let b1 = b.drop_first();
        assert forall|d: i32| #[trigger] lists_def(a1, d) <==> lists_def(b1, d) by {
            if lists_def(a1, d) {
                let x = choose|x: int| 0 <= x < a1.len() && #[trigger] a1[x].weapon_def_index == d;
                assert(a[x + 1].weapon_def_index == d);
                assert(lists_def(a, d));
                let y = choose|y: int| 0 <= y < b.len() && #[trigger] b[y].weapon_def_index == d;
                assert(a[0].weapon_def_index < a[x + 1].weapon_def_index);
                assert(y != 0);
                assert(b1[y - 1].weapon_def_index == d);
            }
            if lists_def(b1, d) {
                let y = choose|y: int| 0 <= y < b1.len() && #[trigger] b1[y].weapon_def_index == d;
                assert(b[y + 1].weapon_def_index == d);
                assert(lists_def(b, d));
                let x = choose|x: int| 0 <= x < a.len() && #[trigger] a[x].weapon_def_index == d;
                assert(b[0].weapon_def_index < b[y + 1].weapon_def_index);
                assert(x != 0);
                assert(a1[x - 1].weapon_def_index == d);
            }
        }
        assert forall|x: int, y: int| 0 <= x < y < a1.len() implies #[trigger] a1[x].weapon_def_index < #[trigger] a1[y].weapon_def_index by {
            assert(a[x + 1].weapon_def_index < a[y + 1].weapon_def_index);
        }
        assert forall|x: int, y: int| 0 <= x < y < b1.len() implies #[trigger] b1[x].weapon_def_index < #[trigger] b1[y].weapon_def_index by {
            assert(b[x + 1].weapon_def_index < b[y + 1].weapon_def_index);
        }
        lemma_sorted_lists_agree(a1, b1);
        assert forall|i: int| 0 <= i < a.len() implies (#[trigger] a[i]).weapon_def_index == b[i].weapon_def_index by {
            if i > 0 {
                assert(a1[i - 1] == a[i] && b1[i - 1] == b[i]);
            }
        }
    }
}

/// On the same rows, every result that `replay_active_cosmetics` may return
/// agrees with every other in every field.
proof fn lemma_cosmetics_match_unique(
    r1: Option<ReplayCosmetics>,
    r2: Option<ReplayCosmetics>,
    index: Cs2LibEconIndex,
    seeds: Option<Seq<(EconGloveKey, Option<u32>)>>,
    knives: Option<Seq<(i32, Option<EconKnifePaint>)>>,
    rows: Seq<CosmeticRow>,
    export_stickers: bool,
    collect_weapons: bool,
)
    requires
        active_cosmetics_match(r1, index, seeds, knives, rows, export_stickers, collect_weapons),
        active_cosmetics_match(r2, index, seeds, knives, rows, export_stickers, collect_weapons),
    ensures
        same_cosmetics(r1, r2),
{
    match (r1, r2) {
        (Some(x), Some(y)) => {
            let a = x.weapons@;
            let b = y.weapons@;
            if collect_weapons {
                assert forall|d: i32| #[trigger] lists_def(a, d) <==> lists_def(b, d) by {
                    assert(active_weapon_shown(index, rows, d) <==> lists_def(a, d));
                    assert(active_weapon_shown(index, rows, d) <==> lists_def(b, d));
                }
                lemma_sorted_lists_agree(a, b);
                assert forall|i: int| 0 <= i < a.len() implies same_weapon(#[trigger] a[i], b[i]) by {
                    assert(active_weapon_matches(a[i], index, rows, a[i].weapon_def_index, export_stickers));
                    assert(active_weapon_matches(b[i], index, rows, b[i].weapon_def_index, export_stickers));
                    assert(a[i].charms@ =~= b[i].charms@);
                }
            }
            match knife_evidence(index, knives, rows) {
                Unique::Value((d, s)) => {
                    let k1 = x.knife->0;
                    let k2 = y.knife->0;
                    if k1.custom_name is Some && k2.custom_name is Some {
                        let n1 = k1.custom_name->0;
                        let n2 = k2.custom_name->0;
                        assert(set![n1@] == set![n2@]);
                        assert(set![n1@].contains(n2@));
                    } else if k1.custom_name is Some {
                        let n1 = k1.custom_name->0;
                        assert(knife_names(index, knives, rows, d) == set![n1@]);
                    } else if k2.custom_name is Some {
                        let n2 = k2.custom_name->0;
                        assert(knife_names(index, knives, rows, d) == set![n2@]);
                    }
                },
                _ => {},
            }
        },
        (Some(x), None) => {
            if collect_weapons && x.weapons@.len() > 0 {
                assert(lists_def(x.weapons@, x.weapons@[0].weapon_def_index));
                assert(active_weapon_shown(index, rows, x.weapons@[0].weapon_def_index));
            }
        },
        (None, Some(y)) => {
            if collect_weapons && y.weapons@.len() > 0 {
                assert(lists_def(y.weapons@, y.weapons@[0].weapon_def_index));
                assert(active_weapon_shown(index, rows, y.weapons@[0].weapon_def_index));
            }
        },
        (None, None) => {},
    }
}

/// Rows without a player (SteamID 0) leave the result of
/// `replay_active_cosmetics` unchanged: what it returns on the rows and what
/// it returns on the player rows alone agree in every field.
pub proof fn law_playerless_rows_leave_result(
    index: Cs2LibEconIndex,
    seeds: Option<Seq<(EconGloveKey, Option<u32>)>>,
    knives: Option<Seq<(i32, Option<EconKnifePaint>)>>,
    rows: Seq<CosmeticRow>,
    export_stickers: bool,
    collect_weapons: bool,
    with_playerless: Option<ReplayCosmetics>,
    players_only: Option<ReplayCosmetics>,
)
    requires
        active_cosmetics_match(with_playerless, index, seeds, knives, rows, export_stickers, collect_weapons),
        active_cosmetics_match(players_only, index, seeds, knives, rows_with_player(rows), export_stickers, collect_weapons),
    ensures
        same_cosmetics(with_playerless, players_only),
{
    law_playerless_rows_leave_cosmetics(index, seeds, knives, rows, export_stickers, collect_weapons);
    assert(active_cosmetics_match(players_only, index, seeds, knives, rows, export_stickers, collect_weapons));
    lemma_cosmetics_match_unique(with_playerless, players_only, index, seeds, knives, rows, export_stickers, collect_weapons);
}

/// Rows without a player (SteamID 0) change nothing of the weapons in hand a
/// round shows: each weapon is shown, and listed with its appearance, on
/// the rows exactly when on the player rows alone.
pub proof fn law_playerless_rows_leave_weapons(
    index: Cs2LibEconIndex,
    rows: Seq<CosmeticRow>,
    export_stickers: bool,
)
    ensures
        forall|d: i32| #[trigger] active_weapon_shown(index, rows, d) == active_weapon_shown(index, rows_with_player(rows), d),
        forall|ws: Seq<ReplayWeaponCosmetic>| #[trigger] active_weapons_listed(ws, index, rows, export_stickers)
            == active_weapons_listed(ws, index, rows_with_player(rows), export_stickers),
{
    let nz = rows_with_player(rows);
    assert forall|d: i32| #[trigger] active_weapon_shown(index, rows, d) == active_weapon_shown(index, nz, d) by {
        lemma_active_evidence_skips_playerless(index, rows, d, export_stickers);
    }
    assert forall|ws: Seq<ReplayWeaponCosmetic>| #[trigger] active_weapons_listed(ws, index, rows, export_stickers)
        == active_weapons_listed(ws, index, nz, export_stickers) by {
        if active_weapons_listed(ws, index, rows, export_stickers) {
            assert forall|d: i32| #[trigger] active_weapon_shown(index, nz, d) <==> lists_def(ws, d) by {
                lemma_active_evidence_skips_playerless(index, rows, d, export_stickers);
                assert(active_weapon_shown(index, rows, d) <==> lists_def(ws, d));
            }
            assert forall|i: int| 0 <= i < ws.len() implies active_weapon_matches(#[trigger] ws[i], index, nz, ws[i].weapon_def_index, export_stickers) by {
                lemma_active_evidence_skips_playerless(index, rows, ws[i].weapon_def_index, export_stickers);
            }
        }
        if active_weapons_listed(ws, index, nz, export_stickers) {
            assert forall|d: i32| #[trigger] active_weapon_shown(index, rows, d) <==> lists_def(ws, d) by {
                lemma_active_evidence_skips_playerless(index, rows, d, export_stickers);
            }
            assert forall|i: int| 0 <= i < ws.len() implies active_weapon_matches(#[trigger] ws[i], index, rows, ws[i].weapon_def_index, export_stickers) by {
                lemma_active_evidence_skips_playerless(index, rows, ws[i].weapon_def_index, export_stickers);
            }
        }
    }
}

} // verus!
