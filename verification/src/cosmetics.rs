//! Demo-backed appearance rules shared by player evidence and replay output.
//! Float evidence (wear, sticker offsets) is handled as 32-bit patterns.
use crate::catalog::Cs2LibEconIndex;
use crate::inspect_link::wear_bits_valid;
use crate::text::{
    ascii_lower, chars_of, char_is_control, concat_str, is_control, lower_vec, starts_with,
    string_from_chars, string_of, trim, vec_eq, vec_slice, vec_starts_with, vec_trim,
};
use vstd::prelude::*;
use vstd::std_specs::cmp::PartialEqSpec;
use vstd::string::*;

verus! {

pub const STEAM_ID64_BASE: u64 = 76_561_197_960_265_728;

/// One paint observation: paint kit, seed and wear bits.
#[derive(Clone, Copy, Debug)]
pub struct CosmeticPaintSpec {
    pub paint_kit: u32,
    pub seed: u32,
    pub wear_bits: u32,
}

impl PartialEq for CosmeticPaintSpec {
    fn eq(&self, other: &Self) -> (r: bool) {
        self.paint_kit == other.paint_kit && self.seed == other.seed && self.wear_bits
            == other.wear_bits
    }
}

impl vstd::std_specs::cmp::PartialEqSpecImpl for CosmeticPaintSpec {
    open spec fn obeys_eq_spec() -> bool {
        true
    }

    open spec fn eq_spec(&self, other: &Self) -> bool {
        self.paint_kit == other.paint_kit && self.seed == other.seed && self.wear_bits
            == other.wear_bits
    }
}

/// The paint observation a row or item carries, when the catalog knows the
/// paint kit, the seed is known, and the wear is finite in `0.0..=1.0`.
pub open spec fn spec_paint_spec(
    index: Cs2LibEconIndex,
    paint_kit: Option<u32>,
    seed: Option<u32>,
    wear_bits: Option<u32>,
) -> Option<CosmeticPaintSpec> {
    match (paint_kit, seed, wear_bits) {
        (Some(k), Some(s), Some(w)) => if index.paint_kit_ids@.contains(k) && wear_bits_valid(w) {
            Some(CosmeticPaintSpec { paint_kit: k, seed: s, wear_bits: w })
        } else {
            None
        },
        _ => None,
    }
}

pub fn cosmetic_paint_spec(
    index: &Cs2LibEconIndex,
    paint_kit: Option<u32>,
    seed: Option<u32>,
    wear_bits: Option<u32>,
) -> (r: Option<CosmeticPaintSpec>)
    ensures
        r == spec_paint_spec(*index, paint_kit, seed, wear_bits),
{
    let paint_kit = match paint_kit {
        Some(k) => if index.valid_paint_kit(k) {
            k
        } else {
            return None;
        },
        None => return None,
    };
    let seed = match seed {
        Some(s) => s,
        None => return None,
    };
    let wear_bits = match wear_bits {
        Some(w) => w,
        None => return None,
    };
    if !(wear_bits <= 0x3f80_0000 || wear_bits == 0x8000_0000) {
        return None;
    }
    Some(CosmeticPaintSpec { paint_kit, seed, wear_bits })
}

/// Accumulated evidence for one appearance attribute: only uniqueness
/// matters. Conflict is sticky, and missing evidence is distinct from disagreement.
pub enum Unique<T> {
    Missing,
    Value(T),
    Conflict,
}

impl<T> Default for Unique<T> {
    fn default() -> (r: Unique<T>)
        ensures
            r is Missing,
    {
        Unique::Missing
    }
}

/// Evidence after observing `value`.
pub open spec fn spec_observe<T: PartialEq>(u: Unique<T>, value: T) -> Unique<T> {
    match u {
        Unique::Missing => Unique::Value(value),
        Unique::Value(previous) => if previous.eq_spec(&value) {
            Unique::Value(previous)
        } else {
            Unique::Conflict
        },
        Unique::Conflict => Unique::Conflict,
    }
}

impl<T: PartialEq> Unique<T> {
    pub fn observe(&mut self, value: T)
        requires
            T::obeys_eq_spec(),
        ensures
            *final(self) == spec_observe(*old(self), value),
    {
        let mut current = Unique::Missing;
        std::mem::swap(&mut current, self);
        *self = match current {
            Unique::Missing => Unique::Value(value),
            Unique::Value(previous) => if previous == value {
                Unique::Value(previous)
            } else {
                Unique::Conflict
            },
            Unique::Conflict => Unique::Conflict,
        };
    }

    pub fn observe_option(&mut self, value: Option<T>)
        requires
            T::obeys_eq_spec(),
        ensures
            *final(self) == match value {
                Some(v) => spec_observe(*old(self), v),
                None => *old(self),
            },
    {
        if let Some(value) = value {
            self.observe(value);
        }
    }

    pub fn into_value(self) -> (r: Option<T>)
        ensures
            r == match self {
                Unique::Value(v) => Some(v),
                _ => None,
            },
    {
        match self {
            Unique::Value(value) => Some(value),
            _ => None,
        }
    }
}

/// A 64-bit item id from its two halves.
pub fn combine_item_id(high: Option<u32>, low: Option<u32>) -> (r: Option<u64>)
    ensures
        r == match (high, low) {
            (Some(h), Some(l)) => Some((h as int * 0x1_0000_0000 + l as int) as u64),
            _ => None,
        },
{
    match (high, low) {
        (Some(h), Some(l)) => {
            let r = ((h as u64) << 32) | (l as u64);
            assert(r == h as u64 * 0x1_0000_0000u64 + l as u64) by (bit_vector)
                requires
                    r == ((h as u64) << 32u64) | (l as u64),
            ;
            Some(r)
        },
        _ => None,
    }
}

/// Characters a custom name keeps: all but control characters, tab excepted.
pub open spec fn keep_name_char(c: char) -> bool {
    !is_control(c) || c == '\t'
}

pub open spec fn kept_name_chars(s: Seq<char>) -> Seq<char>
    decreases s.len(),
{
    if s.len() == 0 {
        seq![]
    } else if keep_name_char(s.last()) {
        kept_name_chars(s.drop_last()).push(s.last())
    } else {
        kept_name_chars(s.drop_last())
    }
}

/// Text cleaned for replay output: trimmed, without control characters (tab
/// kept), at most `cap` characters, trimmed again; empty means none.
pub open spec fn spec_clean_text(v: Seq<char>, cap: nat) -> Option<Seq<char>> {
    let kept = kept_name_chars(trim(v));
    let capped = if kept.len() > cap {
        kept.take(cap as int)
    } else {
        kept
    };
    let cleaned = trim(capped);
    if cleaned.len() > 0 {
        Some(cleaned)
    } else {
        None
    }
}

/// A custom name as replay evidence: cleaned text of at most 128 characters.
pub open spec fn spec_custom_name_value(value: Option<Seq<char>>) -> Option<Seq<char>> {
    match value {
        Some(v) => spec_clean_text(v, 128),
        None => None,
    }
}

/// Cleans text for replay output.
pub fn clean_text(value: &str, cap: usize) -> (r: Option<String>)
    ensures
        (match r {
            Some(s) => Some(s@),
            None => None,
        }) == spec_clean_text(value@, cap as nat),
{
    let raw = chars_of(value);
    let trimmed = vec_trim(&raw);
    let mut kept: Vec<char> = Vec::new();
    let mut i: usize = 0;
    while i < trimmed.len()
        invariant
            i <= trimmed.len(),
            kept@ == kept_name_chars(trimmed@.subrange(0, i as int)),
        decreases trimmed.len() - i,
    {
        let c = trimmed[i];
        if !char_is_control(c) || c == '\t' {
            kept.push(c);
        }
        assert(trimmed@.subrange(0, i + 1).drop_last() =~= trimmed@.subrange(0, i as int));
        i = i + 1;
    }
    assert(trimmed@.subrange(0, trimmed.len() as int) =~= trimmed@);
    let capped = if kept.len() > cap {
        vec_slice(&kept, 0, cap)
    } else {
        kept
    };
    let cleaned = vec_trim(&capped);
    if cleaned.len() > 0 {
        Some(string_from_chars(&cleaned))
    } else {
        None
    }
}

pub fn cosmetic_custom_name_value(value: Option<&str>) -> (r: Option<String>)
    ensures
        (match r {
            Some(s) => Some(s@),
            None => None,
        }) == spec_custom_name_value(
            match value {
                Some(v) => Some(v@),
                None => None,
            },
        ),
{
    match value {
        Some(v) => clean_text(v, 128),
        None => None,
    }
}

/// Agent model families, longest match first among equal prefixes.
pub open spec fn spec_agent_family(i: int) -> Seq<char> {
    if i == 0 {
        "ctm_diver"@
    } else if i == 1 {
        "ctm_fbi"@
    } else if i == 2 {
        "ctm_gendarmerie"@
    } else if i == 3 {
        "ctm_gign"@
    } else if i == 4 {
        "ctm_gsg9"@
    } else if i == 5 {
        "ctm_heavy"@
    } else if i == 6 {
        "ctm_idf"@
    } else if i == 7 {
        "ctm_sas"@
    } else if i == 8 {
        "ctm_st6"@
    } else if i == 9 {
        "ctm_swat"@
    } else if i == 10 {
        "tm_anarchist"@
    } else if i == 11 {
        "tm_balkan"@
    } else if i == 12 {
        "tm_jungle_raider"@
    } else if i == 13 {
        "tm_jumpsuit"@
    } else if i == 14 {
        "tm_leet"@
    } else if i == 15 {
        "tm_phoenix_heavy"@
    } else if i == 16 {
        "tm_phoenix"@
    } else if i == 17 {
        "tm_pirate"@
    } else if i == 18 {
        "tm_professional"@
    } else {
        "tm_separatist"@
    }
}

pub const AGENT_MODEL_FAMILY_COUNT: usize = 20;

fn agent_family(i: usize) -> (r: &'static str)
    requires
        i < AGENT_MODEL_FAMILY_COUNT,
    ensures
        r@ == spec_agent_family(i as int),
{
    match i {
        0 => "ctm_diver",
        1 => "ctm_fbi",
        2 => "ctm_gendarmerie",
        3 => "ctm_gign",
        4 => "ctm_gsg9",
        5 => "ctm_heavy",
        6 => "ctm_idf",
        7 => "ctm_sas",
        8 => "ctm_st6",
        9 => "ctm_swat",
        10 => "tm_anarchist",
        11 => "tm_balkan",
        12 => "tm_jungle_raider",
        13 => "tm_jumpsuit",
        14 => "tm_leet",
        15 => "tm_phoenix_heavy",
        16 => "tm_phoenix",
        17 => "tm_pirate",
        18 => "tm_professional",
        _ => "tm_separatist",
    }
}

/// A model stem belongs to a family: it is the family or starts with the family and `_`.
pub open spec fn family_matches(stem: Seq<char>, family: Seq<char>) -> bool {
    stem == family || starts_with(stem, family + "_"@)
}

/// ASCII letters, digits and `_`.
pub open spec fn is_model_char(c: char) -> bool {
    ('a' <= c && c <= 'z') || ('A' <= c && c <= 'Z') || ('0' <= c && c <= '9') || c == '_'
}

/// The model stem of an agent name: trimmed, ASCII lower-cased, after the
/// `customplayer_` prefix; none for the map-based defaults or for other characters.
pub open spec fn spec_agent_stem(name: Seq<char>) -> Option<Seq<char>> {
    let normalized = ascii_lower(trim(name));
    let prefix = "customplayer_"@;
    if !starts_with(normalized, prefix) {
        None
    } else {
        let stem = normalized.subrange(prefix.len() as int, normalized.len() as int);
        if stem == "t_map_based"@ || stem == "ct_map_based"@ {
            None
        } else if !(forall|i: int| 0 <= i < stem.len() ==> is_model_char(#[trigger] stem[i])) {
            None
        } else {
            Some(stem)
        }
    }
}

/// The model path of an agent skin name: the longest family the stem belongs to.
pub open spec fn spec_agent_model_path(name: Seq<char>, r: Option<Seq<char>>) -> bool {
    match spec_agent_stem(name) {
        None => r is None,
        Some(stem) => {
            if exists|i: int| 0 <= i < AGENT_MODEL_FAMILY_COUNT && family_matches(stem, #[trigger] spec_agent_family(i)) {
                exists|i: int|
                    0 <= i < AGENT_MODEL_FAMILY_COUNT && family_matches(stem, #[trigger] spec_agent_family(i))
                        && (forall|j: int|
                        0 <= j < AGENT_MODEL_FAMILY_COUNT && family_matches(stem, #[trigger] spec_agent_family(j))
                            ==> spec_agent_family(j).len() <= spec_agent_family(i).len())
                        && r == Some(
                        "agents\\models\\"@ + spec_agent_family(i) + "\\"@ + stem + ".vmdl"@,
                    )
            } else {
                r is None
            }
        },
    }
}

/// The model path of an agent skin name, as the relation above determines it.
pub open spec fn spec_agent_path(name: Seq<char>) -> Option<Seq<char>> {
    choose|r: Option<Seq<char>>| spec_agent_model_path(name, r)
}

proof fn lemma_family_prefix(stem: Seq<char>, family: Seq<char>)
    requires
        family_matches(stem, family),
    ensures
        family.len() <= stem.len(),
        stem.subrange(0, family.len() as int) == family,
{
    if stem == family {
        assert(stem.subrange(0, family.len() as int) =~= family);
    } else {
        let p = family + "_"@;
        assert(p.subrange(0, family.len() as int) =~= family);
        assert(stem.subrange(0, family.len() as int) =~= stem.subrange(0, p.len() as int).subrange(0, family.len() as int));
    }
}

/// An agent name has one model path: the relation is a function.
pub proof fn lemma_agent_path_is_function(name: Seq<char>, r: Option<Seq<char>>)
    requires
        spec_agent_model_path(name, r),
    ensures
        spec_agent_path(name) == r,
{
    let c = spec_agent_path(name);
    assert(spec_agent_model_path(name, c));
    match spec_agent_stem(name) {
        None => {},
        Some(stem) => {
            if exists|i: int| 0 <= i < AGENT_MODEL_FAMILY_COUNT && family_matches(stem, #[trigger] spec_agent_family(i)) {
                let i1 = choose|i: int|
                    0 <= i < AGENT_MODEL_FAMILY_COUNT && family_matches(stem, #[trigger] spec_agent_family(i))
                        && (forall|j: int|
                        0 <= j < AGENT_MODEL_FAMILY_COUNT && family_matches(stem, #[trigger] spec_agent_family(j))
                            ==> spec_agent_family(j).len() <= spec_agent_family(i).len())
                        && r == Some("agents\\models\\"@ + spec_agent_family(i) + "\\"@ + stem + ".vmdl"@);
                let i2 = choose|i: int|
                    0 <= i < AGENT_MODEL_FAMILY_COUNT && family_matches(stem, #[trigger] spec_agent_family(i))
                        && (forall|j: int|
                        0 <= j < AGENT_MODEL_FAMILY_COUNT && family_matches(stem, #[trigger] spec_agent_family(j))
                            ==> spec_agent_family(j).len() <= spec_agent_family(i).len())
                        && c == Some("agents\\models\\"@ + spec_agent_family(i) + "\\"@ + stem + ".vmdl"@);
                lemma_family_prefix(stem, spec_agent_family(i1));
                lemma_family_prefix(stem, spec_agent_family(i2));
                assert(spec_agent_family(i1).len() == spec_agent_family(i2).len());
                assert(spec_agent_family(i1) == spec_agent_family(i2));
            }
        },
    }
}

#[verifier::loop_isolation(false)]
pub fn agent_model_path_from_name(name: &str) -> (r: Option<String>)
    ensures
        spec_agent_model_path(
            name@,
            match r {
                Some(s) => Some(s@),
                None => None,
            },
        ),
{
    let raw = chars_of(name);
    let trimmed = vec_trim(&raw);
    let normalized = lower_vec(&trimmed);
    let prefix = chars_of("customplayer_");
    if !vec_starts_with(&normalized, &prefix) {
        return None;
    }
    let stem = vec_slice(&normalized, prefix.len(), normalized.len());
    let t_map = chars_of("t_map_based");
    let ct_map = chars_of("ct_map_based");
    if vec_eq(&stem, &t_map) || vec_eq(&stem, &ct_map) {
        return None;
    }
    let mut k: usize = 0;
    while k < stem.len()
        invariant
            k <= stem.len(),
            forall|i: int| 0 <= i < k ==> is_model_char(#[trigger] stem@[i]),
        decreases stem.len() - k,
    {
        let c = stem[k];
        if !(('a' <= c && c <= 'z') || ('A' <= c && c <= 'Z') || ('0' <= c && c <= '9') || c
            == '_') {
            assert(!is_model_char(stem@[k as int]));
            return None;
        }
        k = k + 1;
    }
    let mut best: Option<usize> = None;
    let mut i: usize = 0;
    while i < AGENT_MODEL_FAMILY_COUNT
        invariant
            i <= AGENT_MODEL_FAMILY_COUNT,
            best matches Some(b) ==> b < i && family_matches(stem@, spec_agent_family(b as int)),
            forall|j: int|
                0 <= j < i && family_matches(stem@, #[trigger] spec_agent_family(j)) ==> (best matches Some(
                    b,
                ) && spec_agent_family(j).len() <= spec_agent_family(b as int).len()),
        decreases AGENT_MODEL_FAMILY_COUNT - i,
    {
        let family = chars_of(agent_family(i));
        let mut with_sep = chars_of(agent_family(i));
        with_sep.push('_');
        assert(with_sep@ =~= spec_agent_family(i as int) + "_"@) by {
            reveal_strlit("_");
        }
        let matches = vec_eq(&stem, &family) || vec_starts_with(&stem, &with_sep);
        if matches {
            let better = match best {
                Some(b) => family.len() >= agent_family_len(b),
                None => true,
            };
            if better {
                best = Some(i);
            }
        }
        i = i + 1;
    }
    match best {
        Some(b) => {
            let mut out = string_of("agents\\models\\");
            out = concat_str(out, agent_family(b));
            out = concat_str(out, "\\");
            let stem_text = string_from_chars(&stem);
            out = concat_str(out, stem_text.as_str());
            out = concat_str(out, ".vmdl");
            Some(out)
        },
        None => None,
    }
}

fn agent_family_len(i: usize) -> (n: usize)
    requires
        i < AGENT_MODEL_FAMILY_COUNT,
    ensures
        n == spec_agent_family(i as int).len(),
{
    agent_family(i).unicode_len()
}

/// Entries for one knife definition index, by their name texts.
pub open spec fn knife_names_for(names: Seq<(i32, String)>, def: i32) -> Set<Seq<char>> {
    Set::new(|n: Seq<char>| exists|i: int| 0 <= i < names.len() && names[i].0 == def && names[i].1@ == n)
}

/// The one custom name recorded for a knife definition index, if there is exactly one.
pub fn stable_knife_custom_name(names: &Vec<(i32, String)>, item_def_index: i32) -> (r: Option<
    String,
>)
    ensures
        r matches Some(n) ==> knife_names_for(names@, item_def_index) == set![n@],
        r is None ==> !(exists|n: Seq<char>| knife_names_for(names@, item_def_index) == set![n]),
{
    let mut found: Option<usize> = None;
    let mut i: usize = 0;
    while i < names.len()
        invariant
            i <= names.len(),
            found matches Some(f) ==> f < i && names@[f as int].0 == item_def_index && forall|j: int|
                0 <= j < i && names@[j].0 == item_def_index ==> #[trigger] names@[j].1@ == names@[f as int].1@,
            found is None ==> forall|j: int| 0 <= j < i ==> #[trigger] names@[j].0 != item_def_index,
        decreases names.len() - i,
    {
        if names[i].0 == item_def_index {
            match found {
                None => {
                    found = Some(i);
                },
                Some(f) => {
                    let a = chars_of(names[f].1.as_str());
                    let b = chars_of(names[i].1.as_str());
                    if !vec_eq(&a, &b) {
                        proof {
                            let s = knife_names_for(names@, item_def_index);
                            assert(s.contains(names@[f as int].1@));
                            assert(s.contains(names@[i as int].1@));
                            assert forall|n: Seq<char>| s != set![n] by {
                                if s == set![n] {
                                    assert(names@[f as int].1@ == n);
                                    assert(names@[i as int].1@ == n);
                                }
                            }
                        }
                        return None;
                    }
                },
            }
        }
        i = i + 1;
    }
    match found {
        Some(f) => {
            let n = string_of(names[f].1.as_str());
            proof {
                let s = knife_names_for(names@, item_def_index);
                assert(s =~= set![n@]) by {
                    assert(s.contains(names@[f as int].1@));
                }
            }
            Some(n)
        },
        None => {
            proof {
                let s = knife_names_for(names@, item_def_index);
                assert(s =~= Set::empty());
                assert forall|n: Seq<char>| s != set![n] by {
                    assert(set![n].contains(n));
                }
            }
            None
        },
    }
}

} // verus!
