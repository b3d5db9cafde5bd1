//! Validated item catalog shared by appearance and equipment playback.
use crate::text::{
    ascii_lower, chars_of, lower_vec, starts_with, string_from_chars, string_of, trim, vec_eq,
    vec_starts_with, vec_trim,
};
use std::collections::{BTreeMap, BTreeSet};
use vstd::prelude::*;
use vstd::string::*;

verus! {

broadcast use vstd::laws_cmp::group_laws_cmp;

/// A weapon/paint pair of the catalog, with the paint's rarity when known.
#[derive(Clone, Copy, Debug)]
pub struct RawPaintPair {
    pub weapon_defidx: i32,
    pub paint_kit: u32,
    pub rarity: Option<u32>,
}

/// Playback slot of a replay equipment item.
#[derive(Clone, Copy, Debug, PartialEq, Eq, Structural)]
pub enum ReplayEquipmentSlot {
    Primary,
    Secondary,
    Utility,
    C4,
    Taser,
    Knife,
}

/// A replay equipment item: definition index, entity class, playback slot.
#[derive(Clone, Debug)]
pub struct RawReplayEquipment {
    pub weapon_defidx: i32,
    pub class_name: String,
    pub replay_slot: ReplayEquipmentSlot,
}

/// The catalog as it is published: plain lists.
#[derive(Clone, Debug)]
pub struct RawCs2LibEconIndex {
    pub weapon_paints: Vec<RawPaintPair>,
    pub paint_kit_ids: Vec<u32>,
    pub replay_equipment_defidx: Vec<i32>,
    pub replay_equipment: Vec<RawReplayEquipment>,
    pub knife_defidx: Vec<i32>,
    pub glove_defidx: Vec<i32>,
    pub agent_defidx: Vec<u32>,
    pub sticker_ids: Vec<u32>,
    pub keychain_ids: Vec<u32>,
    pub music_kit_ids: Vec<u32>,
    pub scoreboard_flair_defidx: Vec<u32>,
}

/// The catalog indexed for lookups.
#[derive(Clone, Debug)]
pub struct Cs2LibEconIndex {
    pub weapon_paints: BTreeSet<(i32, u32)>,
    pub weapon_paint_rarities: BTreeMap<(i32, u32), u32>,
    pub paint_kit_ids: BTreeSet<u32>,
    pub replay_equipment_defidx: BTreeSet<i32>,
    pub replay_equipment: Vec<RawReplayEquipment>,
    pub default_knife_defidx: i32,
    pub knife_defidx: BTreeSet<i32>,
    pub glove_defidx: BTreeSet<i32>,
    pub agent_defidx: BTreeSet<u32>,
    pub sticker_ids: BTreeSet<u32>,
    pub keychain_ids: BTreeSet<u32>,
    pub music_kit_ids: BTreeSet<u32>,
    pub scoreboard_flair_defidx: BTreeSet<u32>,
}

/// Every knife model plays back as the default knife.
pub open spec fn spec_normalize_with_knives(def: i32, knives: Set<i32>, default_knife: i32) -> i32 {
    if knives.contains(def) {
        default_knife
    } else {
        def
    }
}

/// Position of the first equipment entry at or after `start` with definition index `def`.
pub open spec fn first_with_def_from(eq: Seq<RawReplayEquipment>, def: i32, start: int) -> Option<int>
    decreases eq.len() - start,
{
    if start < 0 || start >= eq.len() {
        None
    } else if eq[start].weapon_defidx == def {
        Some(start)
    } else {
        first_with_def_from(eq, def, start + 1)
    }
}

/// Position of the first equipment entry with definition index `def`.
pub open spec fn first_with_def(eq: Seq<RawReplayEquipment>, def: i32) -> Option<int> {
    first_with_def_from(eq, def, 0)
}

/// Position of the first equipment entry at or after `start` whose class is `name`.
pub open spec fn first_with_class_from(
    eq: Seq<RawReplayEquipment>,
    name: Seq<char>,
    start: int,
) -> Option<int>
    decreases eq.len() - start,
{
    if start < 0 || start >= eq.len() {
        None
    } else if eq[start].class_name@ == name {
        Some(start)
    } else {
        first_with_class_from(eq, name, start + 1)
    }
}

/// Position of the first equipment entry whose class is `name`.
pub open spec fn first_with_class(eq: Seq<RawReplayEquipment>, name: Seq<char>) -> Option<int> {
    first_with_class_from(eq, name, 0)
}

pub proof fn lemma_first_with_class_range(eq: Seq<RawReplayEquipment>, name: Seq<char>, start: int)
    ensures
        first_with_class_from(eq, name, start) matches Some(i) ==> start <= i < eq.len()
            && eq[i].class_name@ == name,
    decreases eq.len() - start,
{
    if 0 <= start < eq.len() && eq[start].class_name@ != name {
        lemma_first_with_class_range(eq, name, start + 1);
    }
}

pub proof fn lemma_first_with_def_range(eq: Seq<RawReplayEquipment>, def: i32, start: int)
    ensures
        first_with_def_from(eq, def, start) matches Some(i) ==> start <= i < eq.len()
            && eq[i].weapon_defidx == def,
    decreases eq.len() - start,
{
    if 0 <= start < eq.len() && eq[start].weapon_defidx != def {
        lemma_first_with_def_range(eq, def, start + 1);
    }
}

/// Positive values of a list, as a set.
pub open spec fn positive_set(v: Seq<u32>) -> Set<u32> {
    Set::new(|x: u32| x > 0 && v.contains(x))
}

/// Catalog paint pairs (non-zero paint) keyed by normalized weapon.
pub open spec fn spec_weapon_paints(
    pairs: Seq<RawPaintPair>,
    knives: Set<i32>,
    default_knife: i32,
) -> Set<(i32, u32)> {
    Set::new(
        |p: (i32, u32)|
            exists|i: int|
                0 <= i < pairs.len() && pairs[i].paint_kit != 0 && p == (
                    spec_normalize_with_knives(pairs[i].weapon_defidx, knives, default_knife),
                    pairs[i].paint_kit,
                ),
    )
}

/// Normalizing a definition index twice is normalizing it once.
pub proof fn law_normalize_is_idempotent(def: i32, knives: Set<i32>, default_knife: i32)
    ensures
        spec_normalize_with_knives(spec_normalize_with_knives(def, knives, default_knife), knives, default_knife)
            == spec_normalize_with_knives(def, knives, default_knife),
{
}

/// Every paint pair of the catalog has a non-zero paint kit and is keyed by a
/// weapon that normalization leaves as it is.
pub proof fn law_paint_pairs_are_normalized(
    pairs: Seq<RawPaintPair>,
    knives: Set<i32>,
    default_knife: i32,
    pair: (i32, u32),
)
    requires
        spec_weapon_paints(pairs, knives, default_knife).contains(pair),
    ensures
        spec_normalize_with_knives(pair.0, knives, default_knife) == pair.0,
        pair.1 != 0,
{
    let i = choose|i: int|
        0 <= i < pairs.len() && pairs[i].paint_kit != 0 && pair == (
            spec_normalize_with_knives(pairs[i].weapon_defidx, knives, default_knife),
            pairs[i].paint_kit,
        );
    law_normalize_is_idempotent(pairs[i].weapon_defidx, knives, default_knife);
}

/// Rarities of the first `n` pairs; a later pair overrides an earlier one.
pub open spec fn spec_rarities(
    pairs: Seq<RawPaintPair>,
    knives: Set<i32>,
    default_knife: i32,
    n: int,
) -> Map<(i32, u32), u32>
    decreases n,
{
    if n <= 0 {
        Map::empty()
    } else {
        let before = spec_rarities(pairs, knives, default_knife, n - 1);
        let p = pairs[n - 1];
        if p.paint_kit != 0 && p.rarity is Some && p.rarity->0 <= 7 {
            before.insert(
                (spec_normalize_with_knives(p.weapon_defidx, knives, default_knife), p.paint_kit),
                p.rarity->0,
            )
        } else {
            before
        }
    }
}

/// What the catalog build asserts of its input: every equipment entry names
/// a replay definition index, no class and no definition index occurs twice,
/// every replay definition index has an entry, and `weapon_knife` is one.
pub open spec fn raw_index_consistent(raw: RawCs2LibEconIndex) -> bool {
    let eq = raw.replay_equipment@;
    &&& forall|i: int| 0 <= i < eq.len() ==> raw.replay_equipment_defidx@.contains(#[trigger] eq[i].weapon_defidx)
    &&& forall|i: int, j: int|
        0 <= i < j < eq.len() ==> #[trigger] eq[i].weapon_defidx != #[trigger] eq[j].weapon_defidx
            && eq[i].class_name@ != eq[j].class_name@
    &&& raw.replay_equipment_defidx@.to_set().len() == eq.len()
    &&& first_with_class(eq, "weapon_knife"@) is Some
}

/// Finds the first equipment entry with a definition index.
fn find_def(eq: &Vec<RawReplayEquipment>, def: i32) -> (r: Option<usize>)
    ensures
        r matches Some(i) ==> Some(i as int) == first_with_def(eq@, def) && i < eq.len(),
        r is None ==> first_with_def(eq@, def) is None,
{
    let mut i: usize = 0;
    while i < eq.len()
        invariant
            i <= eq.len(),
            first_with_def(eq@, def) == first_with_def_from(eq@, def, i as int),
        decreases eq.len() - i,
    {
        if eq[i].weapon_defidx == def {
            return Some(i);
        }
        i = i + 1;
    }
    None
}

/// Finds the first equipment entry with a class name.
fn find_class(eq: &Vec<RawReplayEquipment>, name: &Vec<char>) -> (r: Option<usize>)
    ensures
        r matches Some(i) ==> Some(i as int) == first_with_class(eq@, name@) && i < eq.len(),
        r is None ==> first_with_class(eq@, name@) is None,
{
    let mut i: usize = 0;
    while i < eq.len()
        invariant
            i <= eq.len(),
            first_with_class(eq@, name@) == first_with_class_from(eq@, name@, i as int),
        decreases eq.len() - i,
    {
        let class = chars_of(eq[i].class_name.as_str());
        if vec_eq(&class, name) {
            return Some(i);
        }
        i = i + 1;
    }
    None
}

fn set_of_i32(v: &Vec<i32>) -> (s: BTreeSet<i32>)
    ensures
        s@ == v@.to_set(),
{
    let mut s = BTreeSet::new();
    let mut i: usize = 0;
    while i < v.len()
        invariant
            i <= v.len(),
            s@ == v@.subrange(0, i as int).to_set(),
        decreases v.len() - i,
    {
        s.insert(v[i]);
        i = i + 1;
        assert(s@ =~= v@.subrange(0, i as int).to_set()) by {
            assert forall|x: i32| s@.contains(x) <==> v@.subrange(0, i as int).contains(x) by {
                if v@.subrange(0, i as int).contains(x) {
                    let k = choose|k: int| 0 <= k < i && #[trigger] v@.subrange(0, i as int)[k] == x;
                    if k < i - 1 {
                        assert(v@.subrange(0, i - 1)[k] == x);
                    }
                }
                if v@.subrange(0, i - 1).contains(x) {
                    let k = choose|k: int| 0 <= k < i - 1 && #[trigger] v@.subrange(0, i - 1)[k] == x;
                    assert(v@.subrange(0, i as int)[k] == x);
                }
                if x == v@[i - 1] {
                    assert(v@.subrange(0, i as int)[i - 1] == x);
                }
            }
        }
    }
    assert(v@.subrange(0, v.len() as int) =~= v@);
    s
}

fn positive_set_of(v: &Vec<u32>) -> (s: BTreeSet<u32>)
    ensures
        s@ == positive_set(v@),
{
    let mut s = BTreeSet::new();
    let mut i: usize = 0;
    while i < v.len()
        invariant
            i <= v.len(),
            s@ == positive_set(v@.subrange(0, i as int)),
        decreases v.len() - i,
    {
        if v[i] > 0 {
            s.insert(v[i]);
        }
        i = i + 1;
        assert(s@ =~= positive_set(v@.subrange(0, i as int))) by {
            assert forall|x: u32| s@.contains(x) <==> positive_set(v@.subrange(0, i as int)).contains(
                x,
            ) by {
                if v@.subrange(0, i as int).contains(x) {
                    let k = choose|k: int| 0 <= k < i && #[trigger] v@.subrange(0, i as int)[k] == x;
                    if k < i - 1 {
                        assert(v@.subrange(0, i - 1)[k] == x);
                    }
                }
                if v@.subrange(0, i - 1).contains(x) {
                    let k = choose|k: int| 0 <= k < i - 1 && #[trigger] v@.subrange(0, i - 1)[k] == x;
                    assert(v@.subrange(0, i as int)[k] == x);
                }
                if x == v@[i - 1] {
                    assert(v@.subrange(0, i as int)[i - 1] == x);
                }
            }
        }
    }
    assert(v@.subrange(0, v.len() as int) =~= v@);
    s
}

fn normalize_weapon_def_index_with_knives(
    def: i32,
    knife_defidx: &BTreeSet<i32>,
    default_knife_defidx: i32,
) -> (r: i32)
    ensures
        r == spec_normalize_with_knives(def, knife_defidx@, default_knife_defidx),
{
    if knife_defidx.contains(&def) {
        default_knife_defidx
    } else {
        def
    }
}

/// Whether the raw catalog meets what the build asserts of it.
pub fn raw_index_is_consistent(raw: &RawCs2LibEconIndex) -> (r: bool)
    ensures
        r == raw_index_consistent(*raw),
{
    let eq = &raw.replay_equipment;
    let defs = set_of_i32(&raw.replay_equipment_defidx);
    let mut i: usize = 0;
    while i < eq.len()
        invariant
            i <= eq.len(),
            defs@ == raw.replay_equipment_defidx@.to_set(),
            eq == &raw.replay_equipment,
            forall|k: int| 0 <= k < i ==> raw.replay_equipment_defidx@.contains(#[trigger] eq@[k].weapon_defidx),
            forall|a: int, b: int|
                0 <= a < b < i ==> #[trigger] eq@[a].weapon_defidx != #[trigger] eq@[b].weapon_defidx
                    && eq@[a].class_name@ != eq@[b].class_name@,
        decreases eq.len() - i,
    {
        if !defs.contains(&eq[i].weapon_defidx) {
            assert(!raw.replay_equipment_defidx@.contains(eq@[i as int].weapon_defidx));
            return false;
        }
        let name_i = chars_of(eq[i].class_name.as_str());
        let mut j: usize = 0;
        while j < i
            invariant
                i < eq.len(),
                j <= i,
                eq == &raw.replay_equipment,
                name_i@ == eq@[i as int].class_name@,
                forall|b: int| 0 <= b < j ==> eq@[b].weapon_defidx != eq@[i as int].weapon_defidx
                    && eq@[b].class_name@ != eq@[i as int].class_name@,
            decreases i - j,
        {
            if eq[j].weapon_defidx == eq[i].weapon_defidx {
                assert(!(eq@[j as int].weapon_defidx != eq@[i as int].weapon_defidx));
                return false;
            }
            let name_j = chars_of(eq[j].class_name.as_str());
            if vec_eq(&name_j, &name_i) {
                assert(!(eq@[j as int].class_name@ != eq@[i as int].class_name@));
                assert(eq@[j as int].weapon_defidx != eq@[i as int].weapon_defidx);
                return false;
            }
            j = j + 1;
        }
        i = i + 1;
    }
    if defs.len() != eq.len() {
        return false;
    }
    let knife = chars_of("weapon_knife");
    find_class(eq, &knife).is_some()
}


fn build_weapon_paints(
    pairs: &Vec<RawPaintPair>,
    knife_defidx: &BTreeSet<i32>,
    default_knife_defidx: i32,
) -> (r: (BTreeSet<(i32, u32)>, BTreeMap<(i32, u32), u32>))
    ensures
        r.0@ == spec_weapon_paints(pairs@, knife_defidx@, default_knife_defidx),
        r.1@ == spec_rarities(pairs@, knife_defidx@, default_knife_defidx, pairs@.len() as int),
{
        let mut weapon_paints: BTreeSet<(i32, u32)> = BTreeSet::new();
        let mut weapon_paint_rarities: BTreeMap<(i32, u32), u32> = BTreeMap::new();
        let mut i: usize = 0;
        while i < pairs.len()
            invariant
                i <= pairs.len(),
                weapon_paints@ == spec_weapon_paints(
                    pairs@.subrange(0, i as int),
                    knife_defidx@,
                    default_knife_defidx,
                ),
                weapon_paint_rarities@ == spec_rarities(
                    pairs@,
                    knife_defidx@,
                    default_knife_defidx,
                    i as int,
                ),
            decreases pairs.len() - i,
        {
            let pair = pairs[i];
            if pair.paint_kit != 0 {
                let key = (
                    normalize_weapon_def_index_with_knives(
                        pair.weapon_defidx,
                        knife_defidx,
                        default_knife_defidx,
                    ),
                    pair.paint_kit,
                );
                weapon_paints.insert(key);
                match pair.rarity {
                    Some(rarity) => {
                        if rarity <= 7 {
                            weapon_paint_rarities.insert(key, rarity);
                        }
                    },
                    None => {},
                }
            }
            i = i + 1;
            assert(weapon_paints@ =~= spec_weapon_paints(
                pairs@.subrange(0, i as int),
                knife_defidx@,
                default_knife_defidx,
            )) by {
                let s_new = pairs@.subrange(0, i as int);
                let s_old = pairs@.subrange(0, i - 1);
                assert forall|p: (i32, u32)| #[trigger] weapon_paints@.contains(p) implies spec_weapon_paints(
                    s_new,
                    knife_defidx@,
                    default_knife_defidx,
                ).contains(p) by {
                    if spec_weapon_paints(s_old, knife_defidx@, default_knife_defidx).contains(p) {
                        let k = choose|k: int|
                            0 <= k < s_old.len() && s_old[k].paint_kit != 0 && p == (
                                spec_normalize_with_knives(
                                    s_old[k].weapon_defidx,
                                    knife_defidx@,
                                    default_knife_defidx,
                                ),
                                s_old[k].paint_kit,
                            );
                        assert(s_new[k] == s_old[k]);
                    } else {
                        assert(s_new[i - 1] == pair);
                    }
                }
                assert forall|p: (i32, u32)| #[trigger] spec_weapon_paints(
                    s_new,
                    knife_defidx@,
                    default_knife_defidx,
                ).contains(p) implies weapon_paints@.contains(p) by {
                    let k = choose|k: int|
                        0 <= k < s_new.len() && s_new[k].paint_kit != 0 && p == (
                            spec_normalize_with_knives(
                                s_new[k].weapon_defidx,
                                knife_defidx@,
                                default_knife_defidx,
                            ),
                            s_new[k].paint_kit,
                        );
                    if k < i - 1 {
                        assert(s_old[k] == s_new[k]);
                        assert(spec_weapon_paints(s_old, knife_defidx@, default_knife_defidx).contains(
                            p,
                        ));
                    }
                }
            }
        }
        assert(pairs@.subrange(0, pairs.len() as int) =~= pairs@);
        (weapon_paints, weapon_paint_rarities)
}

impl Cs2LibEconIndex {
    /// Builds the lookup index from the raw catalog.
    pub fn from_raw(raw: RawCs2LibEconIndex) -> (r: Cs2LibEconIndex)
        requires
            raw_index_consistent(raw),
        ensures
            r.knife_defidx@ == raw.knife_defidx@.to_set(),
            r.replay_equipment_defidx@ == raw.replay_equipment_defidx@.to_set(),
            r.replay_equipment@ == raw.replay_equipment@,
            Some(r.default_knife_defidx) == (match first_with_class(raw.replay_equipment@, "weapon_knife"@) {
                Some(i) => Some(raw.replay_equipment@[i].weapon_defidx),
                None => None,
            }),
            r.weapon_paints@ == spec_weapon_paints(
                raw.weapon_paints@,
                r.knife_defidx@,
                r.default_knife_defidx,
            ),
            r.weapon_paint_rarities@ == spec_rarities(
                raw.weapon_paints@,
                r.knife_defidx@,
                r.default_knife_defidx,
                raw.weapon_paints@.len() as int,
            ),
            r.paint_kit_ids@ == positive_set(raw.paint_kit_ids@),
            r.glove_defidx@ == raw.glove_defidx@.to_set(),
            r.agent_defidx@ == raw.agent_defidx@.to_set(),
            r.sticker_ids@ == positive_set(raw.sticker_ids@),
            r.keychain_ids@ == positive_set(raw.keychain_ids@),
            r.music_kit_ids@ == positive_set(raw.music_kit_ids@),
            r.scoreboard_flair_defidx@ == positive_set(raw.scoreboard_flair_defidx@),
    {
        let knife_defidx = set_of_i32(&raw.knife_defidx);
        let replay_equipment_defidx = set_of_i32(&raw.replay_equipment_defidx);
        let knife_name = chars_of("weapon_knife");
        let k = find_class(&raw.replay_equipment, &knife_name);
        let default_knife_defidx = raw.replay_equipment[k.unwrap()].weapon_defidx;
        let (weapon_paints, weapon_paint_rarities) = build_weapon_paints(
            &raw.weapon_paints,
            &knife_defidx,
            default_knife_defidx,
        );
        let r = Cs2LibEconIndex {
            weapon_paints,
            weapon_paint_rarities,
            paint_kit_ids: positive_set_of(&raw.paint_kit_ids),
            replay_equipment_defidx,
            replay_equipment: raw.replay_equipment,
            default_knife_defidx,
            knife_defidx,
            glove_defidx: set_of_i32(&raw.glove_defidx),
            agent_defidx: set_of_u32(&raw.agent_defidx),
            sticker_ids: positive_set_of(&raw.sticker_ids),
            keychain_ids: positive_set_of(&raw.keychain_ids),
            music_kit_ids: positive_set_of(&raw.music_kit_ids),
            scoreboard_flair_defidx: positive_set_of(&raw.scoreboard_flair_defidx),
        };
        r
    }
}

/// `weapon_<name>` form of an item name from a game event: trimmed, ASCII
/// lower-cased, with the two aliases of the decoy and the bomb resolved.
pub open spec fn spec_normalize_item_event_name(item_name: Seq<char>) -> Seq<char> {
    let lower = ascii_lower(trim(item_name));
    if lower == "decoy_grenade"@ || lower == "weapon_decoy_grenade"@ {
        "weapon_decoy"@
    } else if lower == "c4"@ || lower == "weapon_c4_explosive"@ {
        "weapon_c4"@
    } else if starts_with(lower, "weapon_"@) {
        lower
    } else {
        "weapon_"@ + lower
    }
}

pub fn normalize_item_event_name(item_name: &str) -> (r: String)
    ensures
        r@ == spec_normalize_item_event_name(item_name@),
{
    let raw = chars_of(item_name);
    let trimmed = vec_trim(&raw);
    let lower = lower_vec(&trimmed);
    let decoy_a = chars_of("decoy_grenade");
    let decoy_b = chars_of("weapon_decoy_grenade");
    let c4_a = chars_of("c4");
    let c4_b = chars_of("weapon_c4_explosive");
    let prefix = chars_of("weapon_");
    if vec_eq(&lower, &decoy_a) || vec_eq(&lower, &decoy_b) {
        string_of("weapon_decoy")
    } else if vec_eq(&lower, &c4_a) || vec_eq(&lower, &c4_b) {
        string_of("weapon_c4")
    } else if vec_starts_with(&lower, &prefix) {
        string_from_chars(&lower)
    } else {
        let tail = string_from_chars(&lower);
        string_of("weapon_").concat(tail.as_str())
    }
}

impl Cs2LibEconIndex {
    /// Playback definition index: knife models collapse to the default knife.
    pub open spec fn spec_normalize(self, def: i32) -> i32 {
        spec_normalize_with_knives(def, self.knife_defidx@, self.default_knife_defidx)
    }

    /// Replay slot of a (normalized) definition index.
    pub open spec fn spec_slot(self, def: i32) -> Option<ReplayEquipmentSlot> {
        match first_with_def(self.replay_equipment@, def) {
            Some(i) => Some(self.replay_equipment@[i].replay_slot),
            None => None,
        }
    }

    pub fn normalize_weapon_def_index(&self, def: i32) -> (r: i32)
        ensures
            r == self.spec_normalize(def),
    {
        normalize_weapon_def_index_with_knives(def, &self.knife_defidx, self.default_knife_defidx)
    }

    pub fn valid_weapon_cosmetic_paint(&self, weapon_def_index: i32, paint_kit: u32) -> (r: bool)
        ensures
            r == self.weapon_paints@.contains((self.spec_normalize(weapon_def_index), paint_kit)),
    {
        let key = (self.normalize_weapon_def_index(weapon_def_index), paint_kit);
        self.weapon_paints.contains(&key)
    }

    pub fn weapon_cosmetic_rarity(&self, weapon_def_index: i32, paint_kit: u32) -> (r: Option<u32>)
        ensures
            ({
                let key = (self.spec_normalize(weapon_def_index), paint_kit);
                r == (if self.weapon_paint_rarities@.contains_key(key) {
                    Some(self.weapon_paint_rarities@[key])
                } else {
                    None
                })
            }),
    {
        let key = (self.normalize_weapon_def_index(weapon_def_index), paint_kit);
        match self.weapon_paint_rarities.get(&key) {
            Some(v) => Some(*v),
            None => None,
        }
    }

    pub fn valid_paint_kit(&self, paint_kit: u32) -> (r: bool)
        ensures
            r == self.paint_kit_ids@.contains(paint_kit),
    {
        self.paint_kit_ids.contains(&paint_kit)
    }

    pub fn valid_sticker_id(&self, sticker_id: u32) -> (r: bool)
        ensures
            r == self.sticker_ids@.contains(sticker_id),
    {
        self.sticker_ids.contains(&sticker_id)
    }

    pub fn valid_keychain_id(&self, keychain_id: u32) -> (r: bool)
        ensures
            r == self.keychain_ids@.contains(keychain_id),
    {
        self.keychain_ids.contains(&keychain_id)
    }

    pub fn valid_music_kit_id(&self, music_kit_id: u32) -> (r: bool)
        ensures
            r == self.music_kit_ids@.contains(music_kit_id),
    {
        self.music_kit_ids.contains(&music_kit_id)
    }

    /// A music kit that proves ownership: the two free default soundtracks
    /// (1 and 70) do not.
    pub fn valid_music_kit_evidence_id(&self, music_kit_id: u32) -> (r: bool)
        ensures
            r == (self.music_kit_ids@.contains(music_kit_id) && music_kit_id != 1 && music_kit_id
                != 70),
    {
        self.valid_music_kit_id(music_kit_id) && !(music_kit_id == 1 || music_kit_id == 70)
    }

    /// A scoreboard flair; 0 (no flair) is always accepted.
    pub fn valid_scoreboard_flair_item_def(&self, item_def_index: u32) -> (r: bool)
        ensures
            r == (item_def_index == 0 || self.scoreboard_flair_defidx@.contains(item_def_index)),
    {
        item_def_index == 0 || self.scoreboard_flair_defidx.contains(&item_def_index)
    }

    pub fn valid_glove_item_def_index(&self, item_def_index: i32) -> (r: bool)
        ensures
            r == self.glove_defidx@.contains(item_def_index),
    {
        self.glove_defidx.contains(&item_def_index)
    }

    pub fn valid_knife_item_def_index(&self, item_def_index: i32) -> (r: bool)
        ensures
            r == self.knife_defidx@.contains(item_def_index),
    {
        self.knife_defidx.contains(&item_def_index)
    }

    pub fn valid_agent_item_def_index(&self, item_def_index: u32) -> (r: bool)
        ensures
            r == self.agent_defidx@.contains(item_def_index),
    {
        self.agent_defidx.contains(&item_def_index)
    }

    pub fn valid_replay_equipment_item_def_index(&self, def: i32) -> (r: bool)
        ensures
            r == self.replay_equipment_defidx@.contains(self.spec_normalize(def)),
    {
        let d = self.normalize_weapon_def_index(def);
        self.replay_equipment_defidx.contains(&d)
    }

    pub fn is_known_weapon_def_index(&self, def: i32) -> (r: bool)
        ensures
            r == self.replay_equipment_defidx@.contains(self.spec_normalize(def)),
    {
        self.valid_replay_equipment_item_def_index(def)
    }

    /// Utility (grenade) equipment, whose events the replay records.
    pub fn is_replay_equipment_event_def(&self, def: i32) -> (r: bool)
        ensures
            r == (self.spec_slot(self.spec_normalize(def)) == Some(ReplayEquipmentSlot::Utility)),
    {
        let d = self.normalize_weapon_def_index(def);
        match find_def(&self.replay_equipment, d) {
            Some(i) => self.replay_equipment[i].replay_slot == ReplayEquipmentSlot::Utility,
            None => false,
        }
    }

    /// Weapons that carry paint: primaries, secondaries and the taser.
    pub fn is_weapon_cosmetic_def_index(&self, def: i32) -> (r: bool)
        ensures
            r == (self.spec_slot(self.spec_normalize(def)) == Some(ReplayEquipmentSlot::Primary)
                || self.spec_slot(self.spec_normalize(def)) == Some(ReplayEquipmentSlot::Secondary)
                || self.spec_slot(self.spec_normalize(def)) == Some(ReplayEquipmentSlot::Taser)),
    {
        let d = self.normalize_weapon_def_index(def);
        match find_def(&self.replay_equipment, d) {
            Some(i) => {
                let slot = self.replay_equipment[i].replay_slot;
                slot == ReplayEquipmentSlot::Primary || slot == ReplayEquipmentSlot::Secondary
                    || slot == ReplayEquipmentSlot::Taser
            },
            None => false,
        }
    }

    /// An ownable knife model; the CT and T defaults (42, 59) are playback equipment.
    pub fn is_knife_cosmetic_def_index(&self, def: i32) -> (r: bool)
        ensures
            r == (self.knife_defidx@.contains(def) && def != 42 && def != 59),
    {
        self.valid_knife_item_def_index(def) && !(def == 42 || def == 59)
    }

    /// Definition index of the equipment class an item event names.
    pub fn weapon_def_index_from_item_name(&self, item_name: &str) -> (r: Option<i32>)
        ensures
            r == (match first_with_class(
                self.replay_equipment@,
                spec_normalize_item_event_name(item_name@),
            ) {
                Some(i) => Some(self.spec_normalize(self.replay_equipment@[i].weapon_defidx)),
                None => None,
            }),
    {
        let name = normalize_item_event_name(item_name);
        let chars = chars_of(name.as_str());
        match find_class(&self.replay_equipment, &chars) {
            Some(i) => Some(self.normalize_weapon_def_index(self.replay_equipment[i].weapon_defidx)),
            None => None,
        }
    }

    /// Equipment class of a definition index.
    pub fn weapon_item_name(&self, def: i32) -> (r: Option<&str>)
        ensures
            r matches Some(name) ==> first_with_def(self.replay_equipment@, self.spec_normalize(def))
                matches Some(i) && name@ == self.replay_equipment@[i].class_name@,
            r is None ==> first_with_def(self.replay_equipment@, self.spec_normalize(def)) is None,
    {
        let d = self.normalize_weapon_def_index(def);
        match find_def(&self.replay_equipment, d) {
            Some(i) => Some(self.replay_equipment[i].class_name.as_str()),
            None => None,
        }
    }
}

fn set_of_u32(v: &Vec<u32>) -> (s: BTreeSet<u32>)
    ensures
        s@ == v@.to_set(),
{
    let mut s = BTreeSet::new();
    let mut i: usize = 0;
    while i < v.len()
        invariant
            i <= v.len(),
            s@ == v@.subrange(0, i as int).to_set(),
        decreases v.len() - i,
    {
        s.insert(v[i]);
        i = i + 1;
        assert(s@ =~= v@.subrange(0, i as int).to_set()) by {
            assert forall|x: u32| s@.contains(x) <==> v@.subrange(0, i as int).contains(x) by {
                if v@.subrange(0, i as int).contains(x) {
                    let k = choose|k: int| 0 <= k < i && #[trigger] v@.subrange(0, i as int)[k] == x;
                    if k < i - 1 {
                        assert(v@.subrange(0, i - 1)[k] == x);
                    }
                }
                if v@.subrange(0, i - 1).contains(x) {
                    let k = choose|k: int| 0 <= k < i - 1 && #[trigger] v@.subrange(0, i - 1)[k] == x;
                    assert(v@.subrange(0, i as int)[k] == x);
                }
                if x == v@[i - 1] {
                    assert(v@.subrange(0, i as int)[i - 1] == x);
                }
            }
        }
    }
    assert(v@.subrange(0, v.len() as int) =~= v@);
    s
}

} // verus!
