//! Weapon appearances from a player's sampled inventory. Every attribute is
//! kept only when all observations of the weapon agree on it: a conflict is
//! sticky and only removes that attribute, while the paint is required.
use crate::catalog::{Cs2LibEconIndex, ReplayEquipmentSlot};
use crate::cosmetics::{
    combine_item_id, cosmetic_custom_name_value, cosmetic_paint_spec, spec_custom_name_value,
    spec_paint_spec, CosmeticPaintSpec, Unique,
};
use crate::inspect_link::wear_bits_valid;
use crate::model::{ReplayWeaponCharm, ReplayWeaponCosmetic, ReplayWeaponSticker};
use crate::source_state::f32_bits_finite;
use vstd::prelude::*;
use vstd::std_specs::cmp::PartialEqSpec;

verus! {

/// Attribute definition indices of the first keychain slot.
pub const KEYCHAIN_SLOT_0_ID_ATTR: u32 = 299;

pub const KEYCHAIN_SLOT_0_OFFSET_X_ATTR: u32 = 300;

pub const KEYCHAIN_SLOT_0_OFFSET_Y_ATTR: u32 = 301;

pub const KEYCHAIN_SLOT_0_OFFSET_Z_ATTR: u32 = 302;

pub const KEYCHAIN_SLOT_0_SEED_ATTR: u32 = 306;

pub const KEYCHAIN_SLOT_0_HIGHLIGHT_ATTR: u32 = 314;

pub const KEYCHAIN_SLOT_0_STICKER_ATTR: u32 = 321;

/// The StatTrak counter attribute.
pub const STATTRAK_COUNTER_ATTR: u32 = 80;

/// A sticker as the demo reports it; float values are kept as their bit patterns.
#[derive(Clone, Copy, Debug, PartialEq, Eq, Structural)]
pub struct ParsedWeaponSticker {
    pub slot: u8,
    pub sticker_id: u32,
    pub wear_bits: u32,
    pub offset_x_bits: u32,
    pub offset_y_bits: u32,
    pub scale_bits: Option<u32>,
    pub rotation_bits: Option<u32>,
}

/// An item attribute: its definition index and the bits of its value.
#[derive(Clone, Copy, Debug, PartialEq, Eq, Structural)]
pub struct ParsedInventoryWeaponAttribute {
    pub definition_index: u32,
    pub raw_value_bits: u32,
}

/// A weapon of a sampled inventory; `paint_wear_bits` is the bit pattern of the wear.
#[derive(Clone, Debug)]
pub struct ParsedInventoryWeaponCosmetic {
    pub item_def_index: i32,
    pub item_id_high: Option<u32>,
    pub item_id_low: Option<u32>,
    pub item_account_id: Option<u32>,
    pub original_owner_xuid: Option<u64>,
    pub paint_kit: u32,
    pub paint_seed: u32,
    pub paint_wear_bits: u32,
    pub entity_quality: Option<i32>,
    pub stattrak_counter: Option<i32>,
    pub attributes: Vec<ParsedInventoryWeaponAttribute>,
    pub custom_name: Option<String>,
    pub stickers: Vec<ParsedWeaponSticker>,
}

// ---------------------------------------------------------------------------
// Evidence accumulation
// ---------------------------------------------------------------------------

/// Evidence after observing `v`: the first value is kept while every later
/// observation equals it; any disagreement is a conflict for good.
pub open spec fn observe_value<V>(u: Unique<V>, v: V) -> Unique<V> {
    match u {
        Unique::Missing => Unique::Value(v),
        Unique::Value(p) => if p == v {
            Unique::Value(p)
        } else {
            Unique::Conflict
        },
        Unique::Conflict => Unique::Conflict,
    }
}

/// Evidence after observing an optional value (nothing for `None`).
pub open spec fn observe_opt<V>(u: Unique<V>, o: Option<V>) -> Unique<V> {
    match o {
        Some(v) => observe_value(u, v),
        None => u,
    }
}

/// Evidence from a sequence of optional observations.
pub open spec fn fold_unique<V>(obs: Seq<Option<V>>) -> Unique<V>
    decreases obs.len(),
{
    if obs.len() == 0 {
        Unique::Missing
    } else {
        observe_opt(fold_unique(obs.drop_last()), obs.last())
    }
}

pub open spec fn unique_value<V>(u: Unique<V>) -> Option<V> {
    match u {
        Unique::Value(v) => Some(v),
        _ => None,
    }
}

pub open spec fn str_evidence(u: Unique<String>) -> Unique<Seq<char>> {
    match u {
        Unique::Missing => Unique::Missing,
        Unique::Value(s) => Unique::Value(s@),
        Unique::Conflict => Unique::Conflict,
    }
}

pub open spec fn vec_evidence<T>(u: Unique<Vec<T>>) -> Unique<Seq<T>> {
    match u {
        Unique::Missing => Unique::Missing,
        Unique::Value(s) => Unique::Value(s@),
        Unique::Conflict => Unique::Conflict,
    }
}

/// Observes an optional value whose `==` is plain equality.
fn observe_eq<T: PartialEq>(u: &mut Unique<T>, o: Option<T>)
    requires
        T::obeys_eq_spec(),
        forall|a: T, b: T| a.eq_spec(&b) <==> (a == b),
    ensures
        *final(u) == observe_opt(*old(u), o),
{
    if let Some(v) = o {
        let mut current = Unique::Missing;
        std::mem::swap(&mut current, u);
        *u = match current {
            Unique::Missing => Unique::Value(v),
            Unique::Value(p) => if p == v {
                Unique::Value(p)
            } else {
                Unique::Conflict
            },
            Unique::Conflict => Unique::Conflict,
        };
    }
}

pub(crate) fn observe_name(u: &mut Unique<String>, o: Option<String>)
    ensures
        str_evidence(*final(u)) == observe_opt(str_evidence(*old(u)), match o {
            Some(v) => Some(v@),
            None => None,
        }),
{
    if let Some(v) = o {
        let mut current = Unique::Missing;
        std::mem::swap(&mut current, u);
        *u = match current {
            Unique::Missing => Unique::Value(v),
            Unique::Value(p) => {
                let pc = crate::text::chars_of(p.as_str());
                let vc = crate::text::chars_of(v.as_str());
                if crate::text::vec_eq(&pc, &vc) {
                    Unique::Value(p)
                } else {
                    Unique::Conflict
                }
            },
            Unique::Conflict => Unique::Conflict,
        };
    }
}

fn same_stickers(a: &Vec<ReplayWeaponSticker>, b: &Vec<ReplayWeaponSticker>) -> (r: bool)
    ensures
        r == (a@ == b@),
{
    if a.len() != b.len() {
        return false;
    }
    let mut i: usize = 0;
    while i < a.len()
        invariant
            i <= a.len(),
            a.len() == b.len(),
            forall|j: int| 0 <= j < i ==> a@[j] == b@[j],
        decreases a.len() - i,
    {
        if a[i] != b[i] {
            return false;
        }
        i = i + 1;
    }
    assert(a@ =~= b@);
    true
}

fn same_charms(a: &Vec<ReplayWeaponCharm>, b: &Vec<ReplayWeaponCharm>) -> (r: bool)
    ensures
        r == (a@ == b@),
{
    if a.len() != b.len() {
        return false;
    }
    let mut i: usize = 0;
    while i < a.len()
        invariant
            i <= a.len(),
            a.len() == b.len(),
            forall|j: int| 0 <= j < i ==> a@[j] == b@[j],
        decreases a.len() - i,
    {
        if a[i] != b[i] {
            return false;
        }
        i = i + 1;
    }
    assert(a@ =~= b@);
    true
}

pub(crate) fn observe_stickers(u: &mut Unique<Vec<ReplayWeaponSticker>>, o: Option<Vec<ReplayWeaponSticker>>)
    ensures
        vec_evidence(*final(u)) == observe_opt(vec_evidence(*old(u)), match o {
            Some(v) => Some(v@),
            None => None,
        }),
{
    if let Some(v) = o {
        let mut current = Unique::Missing;
        std::mem::swap(&mut current, u);
        *u = match current {
            Unique::Missing => Unique::Value(v),
            Unique::Value(p) => if same_stickers(&p, &v) {
                Unique::Value(p)
            } else {
                Unique::Conflict
            },
            Unique::Conflict => Unique::Conflict,
        };
    }
}

fn observe_charms(u: &mut Unique<Vec<ReplayWeaponCharm>>, o: Option<Vec<ReplayWeaponCharm>>)
    ensures
        vec_evidence(*final(u)) == observe_opt(vec_evidence(*old(u)), match o {
            Some(v) => Some(v@),
            None => None,
        }),
{
    if let Some(v) = o {
        let mut current = Unique::Missing;
        std::mem::swap(&mut current, u);
        *u = match current {
            Unique::Missing => Unique::Value(v),
            Unique::Value(p) => if same_charms(&p, &v) {
                Unique::Value(p)
            } else {
                Unique::Conflict
            },
            Unique::Conflict => Unique::Conflict,
        };
    }
}

// ---------------------------------------------------------------------------
// What one inventory item shows
// ---------------------------------------------------------------------------

pub open spec fn spec_combined_id(high: Option<u32>, low: Option<u32>) -> Option<u64> {
    match (high, low) {
        (Some(h), Some(l)) => Some((h as int * 0x1_0000_0000 + l as int) as u64),
        _ => None,
    }
}

/// The item can be told apart from other copies: a nonzero item id, or an
/// account id above 1.
pub open spec fn spec_trusted_identity(item: ParsedInventoryWeaponCosmetic) -> bool {
    (spec_combined_id(item.item_id_high, item.item_id_low) matches Some(id) && id != 0) || (
    item.item_account_id matches Some(a) && a > 1)
}

pub fn has_trusted_inventory_weapon_cosmetic_identity(item: &ParsedInventoryWeaponCosmetic) -> (r: bool)
    ensures
        r == spec_trusted_identity(*item),
{
    let id_known = match combine_item_id(item.item_id_high, item.item_id_low) {
        Some(id) => id != 0,
        None => false,
    };
    let account_known = match item.item_account_id {
        Some(a) => a > 1,
        None => false,
    };
    id_known || account_known
}

/// The raw bits of the first attribute with a definition index.
pub open spec fn first_attr(attrs: Seq<ParsedInventoryWeaponAttribute>, def: u32) -> Option<u32>
    decreases attrs.len(),
{
    if attrs.len() == 0 {
        None
    } else if attrs[0].definition_index == def {
        Some(attrs[0].raw_value_bits)
    } else {
        first_attr(attrs.drop_first(), def)
    }
}

pub fn inventory_attribute_u32(attributes: &Vec<ParsedInventoryWeaponAttribute>, definition_index: u32) -> (r:
    Option<u32>)
    ensures
        r == first_attr(attributes@, definition_index),
{
    let mut i: usize = 0;
    proof {
        assert(attributes@.subrange(0, attributes.len() as int) =~= attributes@);
    }
    while i < attributes.len()
        invariant
            i <= attributes.len(),
            first_attr(attributes@, definition_index) == first_attr(
                attributes@.subrange(i as int, attributes.len() as int),
                definition_index,
            ),
        decreases attributes.len() - i,
    {
        proof {
            let rest = attributes@.subrange(i as int, attributes.len() as int);
            assert(rest.drop_first() =~= attributes@.subrange(i + 1, attributes.len() as int));
        }
        if attributes[i].definition_index == definition_index {
            return Some(attributes[i].raw_value_bits);
        }
        i = i + 1;
    }
    assert(attributes@.subrange(i as int, attributes.len() as int) =~= Seq::<ParsedInventoryWeaponAttribute>::empty());
    None
}

/// The StatTrak counter: a reported non-negative counter, or for a StatTrak
/// item (quality 9) the counter attribute when it fits an `i32`.
pub open spec fn spec_stattrak(item: ParsedInventoryWeaponCosmetic) -> Option<i32> {
    if item.stattrak_counter matches Some(c) && c >= 0 {
        item.stattrak_counter
    } else if item.entity_quality != Some(9i32) {
        None
    } else {
        match first_attr(item.attributes@, STATTRAK_COUNTER_ATTR) {
            Some(bits) => if bits <= i32::MAX {
                Some(bits as i32)
            } else {
                None
            },
            None => None,
        }
    }
}

pub fn inventory_stattrak_counter(item: &ParsedInventoryWeaponCosmetic) -> (r: Option<i32>)
    ensures
        r == spec_stattrak(*item),
{
    if let Some(counter) = item.stattrak_counter {
        if counter >= 0 {
            return Some(counter);
        }
    }
    if item.entity_quality != Some(9) {
        return None;
    }
    match inventory_attribute_u32(&item.attributes, STATTRAK_COUNTER_ATTR) {
        Some(bits) => if bits <= 0x7fff_ffff {
            Some(bits as i32)
        } else {
            None
        },
        None => None,
    }
}

/// A sticker the replay can show: slot 0 to 4, a catalog sticker, wear in
/// `0.0..=1.0`, finite offsets, and finite scale and rotation when given.
pub open spec fn sticker_ok(index: Cs2LibEconIndex, s: ParsedWeaponSticker) -> bool {
    &&& s.slot <= 4
    &&& s.sticker_id != 0
    &&& index.sticker_ids@.contains(s.sticker_id)
    &&& wear_bits_valid(s.wear_bits)
    &&& f32_bits_finite(s.offset_x_bits)
    &&& f32_bits_finite(s.offset_y_bits)
    &&& (s.scale_bits matches Some(b) ==> f32_bits_finite(b))
    &&& (s.rotation_bits matches Some(b) ==> f32_bits_finite(b))
}

pub open spec fn replay_sticker(s: ParsedWeaponSticker) -> ReplayWeaponSticker {
    ReplayWeaponSticker {
        slot: s.slot,
        sticker_id: s.sticker_id,
        wear_bits: s.wear_bits,
        offset_x_bits: s.offset_x_bits,
        offset_y_bits: s.offset_y_bits,
        scale_bits: s.scale_bits,
        rotation_bits: s.rotation_bits,
    }
}

/// The stickers of slots `k..=4`, in slot order.
pub open spec fn stickers_from_slot(s: Seq<ParsedWeaponSticker>, k: int) -> Seq<ReplayWeaponSticker>
    decreases 5 - k,
{
    if k > 4 || k < 0 {
        seq![]
    } else {
        (if exists|i: int| 0 <= i < s.len() && s[i].slot == k {
            seq![replay_sticker(s[choose|i: int| 0 <= i < s.len() && s[i].slot == k])]
        } else {
            seq![]
        }) + stickers_from_slot(s, k + 1)
    }
}

/// The sticker set of a weapon: none for no sticker, for an invalid sticker
/// or for two stickers in one slot; otherwise the stickers in slot order.
pub open spec fn spec_sticker_set(index: Cs2LibEconIndex, s: Seq<ParsedWeaponSticker>) -> Option<
    Seq<ReplayWeaponSticker>,
> {
    if s.len() == 0 || (exists|i: int| 0 <= i < s.len() && !sticker_ok(index, #[trigger] s[i])) || (exists|
        i: int,
        j: int,
    | 0 <= i < j < s.len() && #[trigger] s[i].slot == #[trigger] s[j].slot) {
        None
    } else {
        Some(stickers_from_slot(s, 0))
    }
}

fn sticker_is_ok(index: &Cs2LibEconIndex, s: &ParsedWeaponSticker) -> (r: bool)
    ensures
        r == sticker_ok(*index, *s),
{
    let scale_ok = match s.scale_bits {
        Some(b) => b & 0x7f80_0000 != 0x7f80_0000,
        None => true,
    };
    let rotation_ok = match s.rotation_bits {
        Some(b) => b & 0x7f80_0000 != 0x7f80_0000,
        None => true,
    };
    s.slot <= 4 && s.sticker_id != 0 && index.valid_sticker_id(s.sticker_id) && crate::inspect_link::valid_wear(
        s.wear_bits,
    ) && s.offset_x_bits & 0x7f80_0000 != 0x7f80_0000 && s.offset_y_bits & 0x7f80_0000 != 0x7f80_0000
        && scale_ok && rotation_ok
}

fn to_replay_sticker(s: &ParsedWeaponSticker) -> (r: ReplayWeaponSticker)
    ensures
        r == replay_sticker(*s),
{
    ReplayWeaponSticker {
        slot: s.slot,
        sticker_id: s.sticker_id,
        wear_bits: s.wear_bits,
        offset_x_bits: s.offset_x_bits,
        offset_y_bits: s.offset_y_bits,
        scale_bits: s.scale_bits,
        rotation_bits: s.rotation_bits,
    }
}

/// The validated sticker set of a weapon, in slot order.
pub fn cosmetic_sticker_set_from_slice(index: &Cs2LibEconIndex, stickers: &Vec<ParsedWeaponSticker>) -> (r:
    Option<Vec<ReplayWeaponSticker>>)
    ensures
        match r {
            Some(v) => spec_sticker_set(*index, stickers@) == Some(v@),
            None => spec_sticker_set(*index, stickers@) is None,
        },
{
    if stickers.len() == 0 {
        return None;
    }
    let mut i: usize = 0;
    while i < stickers.len()
        invariant
            i <= stickers.len(),
            forall|j: int| 0 <= j < i ==> sticker_ok(*index, #[trigger] stickers@[j]),
            forall|a: int, b: int| 0 <= a < b < i ==> #[trigger] stickers@[a].slot != #[trigger] stickers@[b].slot,
        decreases stickers.len() - i,
    {
        if !sticker_is_ok(index, &stickers[i]) {
            return None;
        }
        let mut j: usize = 0;
        while j < i
            invariant
                j <= i < stickers.len(),
                forall|a: int| 0 <= a < j ==> stickers@[a].slot != stickers@[i as int].slot,
            decreases i - j,
        {
            if stickers[j].slot == stickers[i].slot {
                return None;
            }
            j = j + 1;
        }
        i = i + 1;
    }
    let mut out: Vec<ReplayWeaponSticker> = Vec::new();
    let mut k: u8 = 0;
    while k <= 4
        invariant
            k <= 5,
            forall|a: int, b: int| 0 <= a < b < stickers.len() ==> #[trigger] stickers@[a].slot != #[trigger] stickers@[b].slot,
            out@ + stickers_from_slot(stickers@, k as int) == stickers_from_slot(stickers@, 0),
        decreases 5 - k,
    {
        let ghost before = out@;
        let mut found: Option<usize> = None;
        let mut q: usize = 0;
        while q < stickers.len()
            invariant
                q <= stickers.len(),
                found matches Some(f) ==> f < stickers.len() && stickers@[f as int].slot == k,
                found is None ==> forall|a: int| 0 <= a < q ==> stickers@[a].slot != k,
            decreases stickers.len() - q,
        {
            if found.is_none() && stickers[q].slot == k {
                found = Some(q);
            }
            q = q + 1;
        }
        proof {
            if found is Some {
                let f = found->0 as int;
                let c = choose|i: int| 0 <= i < stickers@.len() && stickers@[i].slot == k;
                if c != f {
                    if c < f {
                        assert(stickers@[c].slot != stickers@[f].slot);
                    } else {
                        assert(stickers@[f].slot != stickers@[c].slot);
                    }
                }
            }
        }
        match found {
            Some(f) => out.push(to_replay_sticker(&stickers[f])),
            None => {},
        }
        proof {
            assert(out@ + stickers_from_slot(stickers@, k + 1) =~= before + stickers_from_slot(stickers@, k as int));
        }
        k = k + 1;
    }
    proof {
        assert(stickers_from_slot(stickers@, 5) =~= Seq::<ReplayWeaponSticker>::empty());
        assert(out@ =~= stickers_from_slot(stickers@, 0));
    }
    Some(out)
}

/// The keychain of a weapon from its first keychain slot attributes: a
/// catalog keychain with finite offsets; the seed, a positive highlight and a
/// catalog sticker when given.
pub open spec fn spec_charm_set(index: Cs2LibEconIndex, attrs: Seq<ParsedInventoryWeaponAttribute>) -> Option<
    Seq<ReplayWeaponCharm>,
> {
    match (
        first_attr(attrs, KEYCHAIN_SLOT_0_ID_ATTR),
        first_attr(attrs, KEYCHAIN_SLOT_0_OFFSET_X_ATTR),
        first_attr(attrs, KEYCHAIN_SLOT_0_OFFSET_Y_ATTR),
        first_attr(attrs, KEYCHAIN_SLOT_0_OFFSET_Z_ATTR),
    ) {
        (Some(id), Some(x), Some(y), Some(z)) => if index.keychain_ids@.contains(id) && f32_bits_finite(x)
            && f32_bits_finite(y) && f32_bits_finite(z) {
            Some(
                seq![ReplayWeaponCharm {
                    slot: 0,
                    charm_id: id,
                    offset_x_bits: x,
                    offset_y_bits: y,
                    offset_z_bits: z,
                    seed: first_attr(attrs, KEYCHAIN_SLOT_0_SEED_ATTR),
                    highlight: match first_attr(attrs, KEYCHAIN_SLOT_0_HIGHLIGHT_ATTR) {
                        Some(h) => if h > 0 {
                            Some(h)
                        } else {
                            None
                        },
                        None => None,
                    },
                    sticker_id: match first_attr(attrs, KEYCHAIN_SLOT_0_STICKER_ATTR) {
                        Some(st) => if index.sticker_ids@.contains(st) {
                            Some(st)
                        } else {
                            None
                        },
                        None => None,
                    },
                }],
            )
        } else {
            None
        },
        _ => None,
    }
}

/// The validated keychain of a weapon.
pub fn cosmetic_charm_set_from_attributes(
    index: &Cs2LibEconIndex,
    attributes: &Vec<ParsedInventoryWeaponAttribute>,
) -> (r: Option<Vec<ReplayWeaponCharm>>)
    ensures
        match r {
            Some(v) => spec_charm_set(*index, attributes@) == Some(v@),
            None => spec_charm_set(*index, attributes@) is None,
        },
{
    let charm_id = match inventory_attribute_u32(attributes, KEYCHAIN_SLOT_0_ID_ATTR) {
        Some(id) => id,
        None => return None,
    };
    if !index.valid_keychain_id(charm_id) {
        return None;
    }
    let x = match inventory_attribute_u32(attributes, KEYCHAIN_SLOT_0_OFFSET_X_ATTR) {
        Some(v) => v,
        None => return None,
    };
    let y = match inventory_attribute_u32(attributes, KEYCHAIN_SLOT_0_OFFSET_Y_ATTR) {
        Some(v) => v,
        None => return None,
    };
    let z = match inventory_attribute_u32(attributes, KEYCHAIN_SLOT_0_OFFSET_Z_ATTR) {
        Some(v) => v,
        None => return None,
    };
    if x & 0x7f80_0000 == 0x7f80_0000 || y & 0x7f80_0000 == 0x7f80_0000 || z & 0x7f80_0000 == 0x7f80_0000 {
        return None;
    }
    let seed = inventory_attribute_u32(attributes, KEYCHAIN_SLOT_0_SEED_ATTR);
    let highlight = match inventory_attribute_u32(attributes, KEYCHAIN_SLOT_0_HIGHLIGHT_ATTR) {
        Some(h) => if h > 0 {
            Some(h)
        } else {
            None
        },
        None => None,
    };
    let sticker_id = match inventory_attribute_u32(attributes, KEYCHAIN_SLOT_0_STICKER_ATTR) {
        Some(st) => if index.valid_sticker_id(st) {
            Some(st)
        } else {
            None
        },
        None => None,
    };
    let charm = ReplayWeaponCharm {
        slot: 0,
        charm_id,
        offset_x_bits: x,
        offset_y_bits: y,
        offset_z_bits: z,
        seed,
        highlight,
        sticker_id,
    };
    let v = vec![charm];
    proof {
        assert(v@ =~= seq![charm]);
    }
    Some(v)
}


// ---------------------------------------------------------------------------
// Evidence of one weapon across a sampled inventory
// ---------------------------------------------------------------------------

/// Evidence folded over the observations that `f` draws from each item, in order.
pub open spec fn fold_obs<T, V>(items: Seq<T>, f: spec_fn(T) -> Option<V>) -> Unique<V>
    decreases items.len(),
{
    if items.len() == 0 {
        Unique::Missing
    } else {
        observe_opt(fold_obs(items.drop_last(), f), f(items.last()))
    }
}

/// Weapons that carry paint: primaries, secondaries and the taser.
pub open spec fn spec_is_weapon_cosmetic(index: Cs2LibEconIndex, def: i32) -> bool {
    let slot = index.spec_slot(index.spec_normalize(def));
    slot == Some(ReplayEquipmentSlot::Primary) || slot == Some(ReplayEquipmentSlot::Secondary) || slot
        == Some(ReplayEquipmentSlot::Taser)
}

/// The item is evidence for the (normalized) weapon `def`: it is that weapon,
/// the weapon carries paint, and the item's identity can be trusted.
pub open spec fn evidence_for(index: Cs2LibEconIndex, item: ParsedInventoryWeaponCosmetic, def: i32) -> bool {
    &&& index.spec_normalize(item.item_def_index) == def
    &&& spec_is_weapon_cosmetic(index, def)
    &&& spec_trusted_identity(item)
}

/// The paint an item shows: a valid paint observation whose paint kit the
/// catalog pairs with the weapon.
pub open spec fn item_paint(index: Cs2LibEconIndex, item: ParsedInventoryWeaponCosmetic, def: i32) -> Option<CosmeticPaintSpec> {
    match spec_paint_spec(index, Some(item.paint_kit), Some(item.paint_seed), Some(item.paint_wear_bits)) {
        Some(p) => if index.weapon_paints@.contains((index.spec_normalize(def), p.paint_kit)) {
            Some(p)
        } else {
            None
        },
        None => None,
    }
}

pub open spec fn only_for<V>(index: Cs2LibEconIndex, item: ParsedInventoryWeaponCosmetic, def: i32, o: Option<V>) -> Option<V> {
    if evidence_for(index, item, def) {
        o
    } else {
        None
    }
}

pub open spec fn nonzero_u64(o: Option<u64>) -> Option<u64> {
    match o {
        Some(v) => if v != 0 {
            Some(v)
        } else {
            None
        },
        None => None,
    }
}

pub open spec fn nonzero_u32(o: Option<u32>) -> Option<u32> {
    match o {
        Some(v) => if v != 0 {
            Some(v)
        } else {
            None
        },
        None => None,
    }
}

pub open spec fn opt_str_view(o: Option<String>) -> Option<Seq<char>> {
    match o {
        Some(s) => Some(s@),
        None => None,
    }
}

pub open spec fn paint_evidence(index: Cs2LibEconIndex, items: Seq<ParsedInventoryWeaponCosmetic>, def: i32) -> Unique<CosmeticPaintSpec> {
    fold_obs(items, |it: ParsedInventoryWeaponCosmetic| only_for(index, it, def, item_paint(index, it, def)))
}

pub open spec fn name_evidence(index: Cs2LibEconIndex, items: Seq<ParsedInventoryWeaponCosmetic>, def: i32) -> Unique<Seq<char>> {
    fold_obs(
        items,
        |it: ParsedInventoryWeaponCosmetic| only_for(index, it, def, spec_custom_name_value(opt_str_view(it.custom_name))),
    )
}

pub open spec fn quality_evidence(index: Cs2LibEconIndex, items: Seq<ParsedInventoryWeaponCosmetic>, def: i32) -> Unique<i32> {
    fold_obs(
        items,
        |it: ParsedInventoryWeaponCosmetic| only_for(index, it, def, if it.entity_quality == Some(9i32) {
            Some(9i32)
        } else {
            None
        }),
    )
}

pub open spec fn stattrak_evidence(index: Cs2LibEconIndex, items: Seq<ParsedInventoryWeaponCosmetic>, def: i32) -> Unique<i32> {
    fold_obs(items, |it: ParsedInventoryWeaponCosmetic| only_for(index, it, def, spec_stattrak(it)))
}

pub open spec fn owner_evidence(index: Cs2LibEconIndex, items: Seq<ParsedInventoryWeaponCosmetic>, def: i32) -> Unique<u64> {
    fold_obs(items, |it: ParsedInventoryWeaponCosmetic| only_for(index, it, def, nonzero_u64(it.original_owner_xuid)))
}

pub open spec fn account_evidence(index: Cs2LibEconIndex, items: Seq<ParsedInventoryWeaponCosmetic>, def: i32) -> Unique<u32> {
    fold_obs(items, |it: ParsedInventoryWeaponCosmetic| only_for(index, it, def, nonzero_u32(it.item_account_id)))
}

pub open spec fn item_id_evidence(index: Cs2LibEconIndex, items: Seq<ParsedInventoryWeaponCosmetic>, def: i32) -> Unique<u64> {
    fold_obs(
        items,
        |it: ParsedInventoryWeaponCosmetic| only_for(index, it, def, nonzero_u64(spec_combined_id(it.item_id_high, it.item_id_low))),
    )
}

pub open spec fn sticker_evidence(
    index: Cs2LibEconIndex,
    items: Seq<ParsedInventoryWeaponCosmetic>,
    def: i32,
    export_stickers: bool,
) -> Unique<Seq<ReplayWeaponSticker>> {
    fold_obs(
        items,
        |it: ParsedInventoryWeaponCosmetic| only_for(index, it, def, if export_stickers {
            spec_sticker_set(index, it.stickers@)
        } else {
            None
        }),
    )
}

pub open spec fn charm_evidence(
    index: Cs2LibEconIndex,
    items: Seq<ParsedInventoryWeaponCosmetic>,
    def: i32,
    export_charms: bool,
) -> Unique<Seq<ReplayWeaponCharm>> {
    fold_obs(
        items,
        |it: ParsedInventoryWeaponCosmetic| only_for(index, it, def, if export_charms {
            spec_charm_set(index, it.attributes@)
        } else {
            None
        }),
    )
}

/// A weapon is shown when its items agree on one paint.
pub open spec fn weapon_shown(index: Cs2LibEconIndex, items: Seq<ParsedInventoryWeaponCosmetic>, def: i32) -> bool {
    paint_evidence(index, items, def) is Value
}

pub open spec fn seq_or_empty<T>(o: Option<Seq<T>>) -> Seq<T> {
    match o {
        Some(s) => s,
        None => Seq::empty(),
    }
}

/// The replay appearance of weapon `def`: the agreed paint, and each other
/// attribute only where every observation of it agrees.
pub open spec fn weapon_matches(
    w: ReplayWeaponCosmetic,
    index: Cs2LibEconIndex,
    items: Seq<ParsedInventoryWeaponCosmetic>,
    def: i32,
    export_stickers: bool,
    export_charms: bool,
) -> bool {
    &&& paint_evidence(index, items, def) matches Unique::Value(p)
    &&& w.weapon_def_index == def
    &&& w.paint_kit == p.paint_kit
    &&& w.seed == p.seed
    &&& w.wear_bits == p.wear_bits
    &&& w.quality == unique_value(quality_evidence(index, items, def))
    &&& w.stattrak_counter == unique_value(stattrak_evidence(index, items, def))
    &&& w.original_owner_steam_id == unique_value(owner_evidence(index, items, def))
    &&& w.item_account_id == unique_value(account_evidence(index, items, def))
    &&& w.item_id == unique_value(item_id_evidence(index, items, def))
    &&& opt_str_view(w.custom_name) == unique_value(name_evidence(index, items, def))
    &&& w.stickers@ == seq_or_empty(unique_value(sticker_evidence(index, items, def, export_stickers)))
    &&& w.charms@ == seq_or_empty(unique_value(charm_evidence(index, items, def, export_charms)))
    &&& w.inspect is None
}

pub(crate) proof fn lemma_fold_obs_none<T, V>(items: Seq<T>, f: spec_fn(T) -> Option<V>)
    requires
        forall|k: int| 0 <= k < items.len() ==> f(#[trigger] items[k]) is None,
    ensures
        fold_obs(items, f) is Missing,
    decreases items.len(),
{
    if items.len() > 0 {
        lemma_fold_obs_none(items.drop_last(), f);
    }
}

/// Some item shows the value `v`.
pub open spec fn some_shows<T, V>(items: Seq<T>, f: spec_fn(T) -> Option<V>, v: V) -> bool {
    exists|k: int| #![trigger items[k]] 0 <= k < items.len() && f(items[k]) == Some(v)
}

/// Every item that shows anything shows `v`.
pub open spec fn all_show<T, V>(items: Seq<T>, f: spec_fn(T) -> Option<V>, v: V) -> bool {
    forall|k: int| #![trigger items[k]] 0 <= k < items.len() && f(items[k]) is Some ==> f(items[k]) == Some(v)
}

/// No item shows anything.
pub open spec fn none_show<T, V>(items: Seq<T>, f: spec_fn(T) -> Option<V>) -> bool {
    forall|k: int| #![trigger items[k]] 0 <= k < items.len() ==> f(items[k]) is None
}

proof fn lemma_shows_after_push<T, V>(
    items: Seq<T>,
    f: spec_fn(T) -> Option<V>,
    v: V,
)
    requires
        items.len() > 0,
    ensures
        some_shows(items, f, v) <==> (some_shows(items.drop_last(), f, v) || f(items.last()) == Some(v)),
        all_show(items, f, v) <==> (all_show(items.drop_last(), f, v) && (f(items.last()) is Some ==> f(items.last()) == Some(v))),
        none_show(items, f) <==> (none_show(items.drop_last(), f) && f(items.last()) is None),
        !none_show(items.drop_last(), f) && all_show(items.drop_last(), f, v) ==> some_shows(items.drop_last(), f, v),
{
    let init = items.drop_last();
    let n = init.len() as int;
    assert forall|k: int| 0 <= k < n implies #[trigger] init[k] == items[k] by {}
    if some_shows(items, f, v) {
        let k = choose|k: int| #![trigger items[k]] 0 <= k < items.len() && f(items[k]) == Some(v);
        if k < n {
            assert(init[k] == items[k]);
        }
    }
    if some_shows(init, f, v) {
        let k = choose|k: int| #![trigger init[k]] 0 <= k < init.len() && f(init[k]) == Some(v);
        assert(init[k] == items[k]);
    }
    if all_show(init, f, v) && (f(items.last()) is Some ==> f(items.last()) == Some(v)) {
        assert forall|k: int| 0 <= k < items.len() && f(#[trigger] items[k]) is Some implies f(items[k]) == Some(v) by {
            if k < n {
                assert(init[k] == items[k]);
            }
        }
    }
    if none_show(init, f) && f(items.last()) is None {
        assert forall|k: int| 0 <= k < items.len() implies f(#[trigger] items[k]) is None by {
            if k < n {
                assert(init[k] == items[k]);
            }
        }
    }
    if !none_show(init, f) && all_show(init, f, v) {
        let k = choose|k: int| #![trigger init[k]] !(0 <= k < init.len() ==> f(init[k]) is None);
        assert(f(init[k]) == Some(v));
    }
}

/// Evidence is agreement: it holds a value exactly when some item shows that
/// value and every item that shows anything shows that value, and it is
/// missing exactly when no item shows anything. So the order of the items
/// does not matter.
pub proof fn law_evidence_is_agreement<T, V>(
    items: Seq<T>,
    f: spec_fn(T) -> Option<V>,
    v: V,
)
    ensures
        (fold_obs(items, f) == Unique::Value(v)) <==> (some_shows(items, f, v) && all_show(items, f, v)),
        (fold_obs(items, f) is Missing) <==> none_show(items, f),
    decreases items.len(),
{
    if items.len() > 0 {
        let init = items.drop_last();
        law_evidence_is_agreement(init, f, v);
        lemma_shows_after_push(items, f, v);
        match fold_obs(init, f) {
            Unique::Value(w) => {
                law_evidence_is_agreement(init, f, w);
                lemma_shows_after_push(items, f, w);
            },
            _ => {},
        }
    }
}

/// A conflict is sticky: further items never restore the attribute.
pub proof fn law_conflict_is_sticky<T, V>(
    items: Seq<T>,
    more: Seq<T>,
    f: spec_fn(T) -> Option<V>,
)
    requires
        fold_obs(items, f) is Conflict,
    ensures
        fold_obs(items + more, f) is Conflict,
    decreases more.len(),
{
    if more.len() > 0 {
        law_conflict_is_sticky(items, more.drop_last(), f);
        assert((items + more).drop_last() =~= items + more.drop_last());
    } else {
        assert(items + more =~= items);
    }
}

pub(crate) fn observe_u32(u: &mut Unique<u32>, o: Option<u32>)
    ensures
        *final(u) == observe_opt(*old(u), o),
{
    observe_eq(u, o);
}

pub(crate) fn observe_u64(u: &mut Unique<u64>, o: Option<u64>)
    ensures
        *final(u) == observe_opt(*old(u), o),
{
    observe_eq(u, o);
}

fn observe_i32(u: &mut Unique<i32>, o: Option<i32>)
    ensures
        *final(u) == observe_opt(*old(u), o),
{
    observe_eq(u, o);
}

pub(crate) fn observe_paint(u: &mut Unique<CosmeticPaintSpec>, o: Option<CosmeticPaintSpec>)
    ensures
        *final(u) == observe_opt(*old(u), o),
{
    observe_eq(u, o);
}

pub(crate) fn nonzero_u64_of(o: Option<u64>) -> (r: Option<u64>)
    ensures
        r == nonzero_u64(o),
{
    match o {
        Some(v) => if v != 0 {
            Some(v)
        } else {
            None
        },
        None => None,
    }
}

pub(crate) fn nonzero_u32_of(o: Option<u32>) -> (r: Option<u32>)
    ensures
        r == nonzero_u32(o),
{
    match o {
        Some(v) => if v != 0 {
            Some(v)
        } else {
            None
        },
        None => None,
    }
}

fn item_paint_of(index: &Cs2LibEconIndex, item: &ParsedInventoryWeaponCosmetic, def: i32) -> (r: Option<CosmeticPaintSpec>)
    ensures
        r == item_paint(*index, *item, def),
{
    match cosmetic_paint_spec(index, Some(item.paint_kit), Some(item.paint_seed), Some(item.paint_wear_bits)) {
        Some(p) => if index.valid_weapon_cosmetic_paint(def, p.paint_kit) {
            Some(p)
        } else {
            None
        },
        None => None,
    }
}

fn custom_name_of(item: &ParsedInventoryWeaponCosmetic) -> (r: Option<String>)
    ensures
        opt_str_view(r) == spec_custom_name_value(opt_str_view(item.custom_name)),
{
    match &item.custom_name {
        Some(name) => cosmetic_custom_name_value(Some(name.as_str())),
        None => cosmetic_custom_name_value(None),
    }
}

fn unique_or_empty<T>(u: Unique<Vec<T>>) -> (r: Vec<T>)
    ensures
        r@ == seq_or_empty(unique_value(vec_evidence(u))),
{
    match u {
        Unique::Value(v) => v,
        _ => Vec::new(),
    }
}

pub(crate) fn unique_name(u: Unique<String>) -> (r: Option<String>)
    ensures
        opt_str_view(r) == unique_value(str_evidence(u)),
{
    match u {
        Unique::Value(v) => Some(v),
        _ => None,
    }
}

/// The replay appearance of weapon `def`, when its items agree on a paint.
#[verifier::rlimit(40)]
fn weapon_cosmetic_for_def(
    index: &Cs2LibEconIndex,
    items: &Vec<ParsedInventoryWeaponCosmetic>,
    def: i32,
    export_stickers: bool,
    export_charms: bool,
) -> (r: Option<ReplayWeaponCosmetic>)
    ensures
        match r {
            Some(w) => weapon_matches(w, *index, items@, def, export_stickers, export_charms),
            None => !weapon_shown(*index, items@, def),
        },
{
    let mut paint: Unique<CosmeticPaintSpec> = Unique::Missing;
    let mut name: Unique<String> = Unique::Missing;
    let mut quality: Unique<i32> = Unique::Missing;
    let mut stattrak: Unique<i32> = Unique::Missing;
    let mut owner: Unique<u64> = Unique::Missing;
    let mut account: Unique<u32> = Unique::Missing;
    let mut item_id: Unique<u64> = Unique::Missing;
    let mut stickers: Unique<Vec<ReplayWeaponSticker>> = Unique::Missing;
    let mut charms: Unique<Vec<ReplayWeaponCharm>> = Unique::Missing;
    let mut k: usize = 0;
    while k < items.len()
        invariant
            k <= items.len(),
            paint == paint_evidence(*index, items@.take(k as int), def),
            str_evidence(name) == name_evidence(*index, items@.take(k as int), def),
            quality == quality_evidence(*index, items@.take(k as int), def),
            stattrak == stattrak_evidence(*index, items@.take(k as int), def),
            owner == owner_evidence(*index, items@.take(k as int), def),
            account == account_evidence(*index, items@.take(k as int), def),
            item_id == item_id_evidence(*index, items@.take(k as int), def),
            vec_evidence(stickers) == sticker_evidence(*index, items@.take(k as int), def, export_stickers),
            vec_evidence(charms) == charm_evidence(*index, items@.take(k as int), def, export_charms),
        decreases items.len() - k,
    {
        let item = &items[k];
        proof {
            assert(items@.take(k + 1).drop_last() =~= items@.take(k as int));
            assert(items@.take(k + 1).last() == items@[k as int]);
        }
        let item_def = index.normalize_weapon_def_index(item.item_def_index);
        if item_def == def && index.is_weapon_cosmetic_def_index(item_def)
            && has_trusted_inventory_weapon_cosmetic_identity(item) {
            observe_paint(&mut paint, item_paint_of(index, item, def));
            observe_name(&mut name, custom_name_of(item));
            let q = if item.entity_quality == Some(9) {
                Some(9)
            } else {
                None
            };
            observe_i32(&mut quality, q);
            observe_i32(&mut stattrak, inventory_stattrak_counter(item));
            observe_u64(&mut owner, nonzero_u64_of(item.original_owner_xuid));
            observe_u32(&mut account, nonzero_u32_of(item.item_account_id));
            observe_u64(&mut item_id, nonzero_u64_of(combine_item_id(item.item_id_high, item.item_id_low)));
            if export_stickers {
                observe_stickers(&mut stickers, cosmetic_sticker_set_from_slice(index, &item.stickers));
            }
            if export_charms {
                observe_charms(&mut charms, cosmetic_charm_set_from_attributes(index, &item.attributes));
            }
        }
        k = k + 1;
    }
    proof {
        assert(items@.take(items.len() as int) =~= items@);
    }
    let p = match paint {
        Unique::Value(p) => p,
        _ => return None,
    };
    Some(ReplayWeaponCosmetic {
        weapon_def_index: def,
        paint_kit: p.paint_kit,
        seed: p.seed,
        wear_bits: p.wear_bits,
        quality: quality.into_value(),
        stattrak_counter: stattrak.into_value(),
        original_owner_steam_id: owner.into_value(),
        item_account_id: account.into_value(),
        item_id: item_id.into_value(),
        custom_name: unique_name(name),
        stickers: unique_or_empty(stickers),
        charms: unique_or_empty(charms),
        inspect: None,
    })
}


pub open spec fn strictly_increasing(s: Seq<i32>) -> bool {
    forall|a: int, b: int| 0 <= a < b < s.len() ==> #[trigger] s[a] < #[trigger] s[b]
}

/// Adds `x` to a strictly increasing sequence, keeping it strictly increasing.
pub(crate) fn insert_sorted_distinct(v: &mut Vec<i32>, x: i32)
    requires
        strictly_increasing(old(v)@),
    ensures
        strictly_increasing(final(v)@),
        forall|y: i32| #[trigger] final(v)@.contains(y) <==> (old(v)@.contains(y) || y == x),
{
    let mut p: usize = 0;
    while p < v.len() && v[p] < x
        invariant
            p <= v.len(),
            forall|a: int| 0 <= a < p ==> v@[a] < x,
        decreases v.len() - p,
    {
        p = p + 1;
    }
    if p < v.len() && v[p] == x {
        proof {
            assert(v@[p as int] == x);
        }
        return;
    }
    let ghost before = v@;
    assert(before == old(v)@);
    v.insert(p, x);
    proof {
        assert forall|a: int, b: int| 0 <= a < b < v@.len() implies #[trigger] v@[a] < #[trigger] v@[b] by {
            if b < p {
            } else if a < p && b == p {
            } else if a < p {
                assert(v@[b] == before[b - 1]);
                assert(before[a] < before[b - 1] || a == b - 1);
            } else if a == p {
                assert(v@[b] == before[b - 1]);
                assert(before[p as int] > x);
                assert(before[p as int] <= before[b - 1]);
            } else {
                assert(v@[a] == before[a - 1]);
                assert(v@[b] == before[b - 1]);
            }
        }
        assert forall|y: i32| #[trigger] v@.contains(y) <==> (before.contains(y) || y == x) by {
            if v@.contains(y) {
                let i = choose|i: int| 0 <= i < v@.len() && v@[i] == y;
                if i < p {
                    assert(before[i] == y);
                } else if i > p {
                    assert(before[i - 1] == y);
                }
            }
            if before.contains(y) {
                let i = choose|i: int| 0 <= i < before.len() && before[i] == y;
                if i < p {
                    assert(v@[i] == y);
                } else {
                    assert(v@[i + 1] == y);
                }
            }
            if y == x {
                assert(v@[p as int] == x);
            }
        }
    }
}

/// The weapons of an inventory that items can be evidence for, ascending.
fn evidence_weapons(index: &Cs2LibEconIndex, items: &Vec<ParsedInventoryWeaponCosmetic>) -> (r: Vec<i32>)
    ensures
        strictly_increasing(r@),
        forall|d: i32| r@.contains(d) <==> exists|k: int| 0 <= k < items@.len() && evidence_for(*index, #[trigger] items@[k], d),
{
    let mut defs: Vec<i32> = Vec::new();
    let mut k: usize = 0;
    while k < items.len()
        invariant
            k <= items.len(),
            strictly_increasing(defs@),
            forall|d: i32| defs@.contains(d) <==> exists|j: int| 0 <= j < k && evidence_for(*index, #[trigger] items@[j], d),
        decreases items.len() - k,
    {
        let item = &items[k];
        let def = index.normalize_weapon_def_index(item.item_def_index);
        if index.is_weapon_cosmetic_def_index(def) && has_trusted_inventory_weapon_cosmetic_identity(item) {
            insert_sorted_distinct(&mut defs, def);
            proof {
                assert(evidence_for(*index, items@[k as int], def));
            }
        }
        proof {
            assert forall|d: i32| defs@.contains(d) <==> exists|j: int| 0 <= j < k + 1 && evidence_for(*index, #[trigger] items@[j], d) by {
                if exists|j: int| 0 <= j < k + 1 && evidence_for(*index, #[trigger] items@[j], d) {
                    let j = choose|j: int| 0 <= j < k + 1 && evidence_for(*index, #[trigger] items@[j], d);
                    if j < k {
                        assert(exists|j: int| 0 <= j < k && evidence_for(*index, #[trigger] items@[j], d));
                    }
                }
            }
        }
        k = k + 1;
    }
    defs
}

/// `w` is the appearance the inventory item shows on its own: its weapon,
/// its paint, and each attribute it carries (stickers and charms where they
/// form a valid set, else none).
pub open spec fn item_appearance(w: ReplayWeaponCosmetic, index: Cs2LibEconIndex, item: ParsedInventoryWeaponCosmetic) -> bool {
    let def = index.spec_normalize(item.item_def_index);
    let p = item_paint(index, item, def);
    &&& w.weapon_def_index == def
    &&& p == Some(CosmeticPaintSpec { paint_kit: w.paint_kit, seed: w.seed, wear_bits: w.wear_bits })
    &&& w.quality == (if item.entity_quality == Some(9i32) {
        Some(9i32)
    } else {
        None
    })
    &&& w.stattrak_counter == spec_stattrak(item)
    &&& w.original_owner_steam_id == nonzero_u64(item.original_owner_xuid)
    &&& w.item_account_id == nonzero_u32(item.item_account_id)
    &&& w.item_id == nonzero_u64(spec_combined_id(item.item_id_high, item.item_id_low))
    &&& opt_str_view(w.custom_name) == spec_custom_name_value(opt_str_view(item.custom_name))
    &&& w.stickers@ == seq_or_empty(spec_sticker_set(index, item.stickers@))
    &&& w.charms@ == seq_or_empty(spec_charm_set(index, item.attributes@))
    &&& w.inspect is None
}

/// The appearance of one inventory item, once its owner is established:
/// `None` unless it is a painted weapon whose paint the catalog pairs with it.
pub fn inventory_item_cosmetic_evidence(index: &Cs2LibEconIndex, item: &ParsedInventoryWeaponCosmetic) -> (r: Option<ReplayWeaponCosmetic>)
    ensures
        r is Some <==> (spec_is_weapon_cosmetic(*index, index.spec_normalize(item.item_def_index))
            && item_paint(*index, *item, index.spec_normalize(item.item_def_index)) is Some),
        r matches Some(w) ==> item_appearance(w, *index, *item),
{
    let weapon_def_index = index.normalize_weapon_def_index(item.item_def_index);
    if !index.is_weapon_cosmetic_def_index(weapon_def_index) {
        return None;
    }
    let spec = match item_paint_of(index, item, weapon_def_index) {
        Some(p) => p,
        None => return None,
    };
    let stickers = match cosmetic_sticker_set_from_slice(index, &item.stickers) {
        Some(v) => v,
        None => Vec::new(),
    };
    let charms = match cosmetic_charm_set_from_attributes(index, &item.attributes) {
        Some(v) => v,
        None => Vec::new(),
    };
    let quality = if item.entity_quality == Some(9) {
        Some(9)
    } else {
        None
    };
    Some(ReplayWeaponCosmetic {
        weapon_def_index,
        paint_kit: spec.paint_kit,
        seed: spec.seed,
        wear_bits: spec.wear_bits,
        quality,
        stattrak_counter: inventory_stattrak_counter(item),
        original_owner_steam_id: nonzero_u64_of(item.original_owner_xuid),
        item_account_id: nonzero_u32_of(item.item_account_id),
        item_id: nonzero_u64_of(combine_item_id(item.item_id_high, item.item_id_low)),
        custom_name: custom_name_of(item),
        stickers,
        charms,
        inspect: None,
    })
}

/// Some weapon of `ws` is `def`.
pub open spec fn lists_weapon(ws: Seq<ReplayWeaponCosmetic>, def: i32) -> bool {
    exists|i: int| 0 <= i < ws.len() && #[trigger] ws[i].weapon_def_index == def
}

/// The weapons of `ws` in ascending order are exactly the shown weapons,
/// each with its agreed appearance.
pub open spec fn weapons_listed(
    ws: Seq<ReplayWeaponCosmetic>,
    index: Cs2LibEconIndex,
    items: Seq<ParsedInventoryWeaponCosmetic>,
    export_stickers: bool,
    export_charms: bool,
) -> bool {
    &&& forall|a: int, b: int| 0 <= a < b < ws.len() ==> #[trigger] ws[a].weapon_def_index < #[trigger] ws[b].weapon_def_index
    &&& forall|d: i32| #[trigger] weapon_shown(index, items, d) <==> lists_weapon(ws, d)
    &&& forall|i: int| 0 <= i < ws.len() ==> weapon_matches(#[trigger] ws[i], index, items, ws[i].weapon_def_index, export_stickers, export_charms)
}

spec fn shown_among(defs: Seq<i32>, n: int, index: Cs2LibEconIndex, items: Seq<ParsedInventoryWeaponCosmetic>, d: i32) -> bool {
    exists|m: int| 0 <= m < n && #[trigger] defs[m] == d && weapon_shown(index, items, d)
}

/// The weapon appearances a player's sampled inventory shows: for each weapon,
/// in ascending definition order, the paint its trusted items agree on, with
/// every other attribute only where they agree; `None` when no weapon is shown.
pub fn inventory_weapon_cosmetics_for_row(
    index: &Cs2LibEconIndex,
    items: &Vec<ParsedInventoryWeaponCosmetic>,
    export_stickers: bool,
    export_charms: bool,
) -> (r: Option<Vec<ReplayWeaponCosmetic>>)
    ensures
        match r {
            Some(ws) => ws@.len() > 0 && weapons_listed(ws@, *index, items@, export_stickers, export_charms),
            None => forall|d: i32| !weapon_shown(*index, items@, d),
        },
{
    let defs = evidence_weapons(index, items);
    let mut out: Vec<ReplayWeaponCosmetic> = Vec::new();
    let mut i: usize = 0;
    while i < defs.len()
        invariant
            i <= defs.len(),
            strictly_increasing(defs@),
            forall|a: int, b: int| 0 <= a < b < out@.len() ==> #[trigger] out@[a].weapon_def_index < #[trigger] out@[b].weapon_def_index,
            forall|a: int| 0 <= a < out@.len() ==> exists|m: int| 0 <= m < i && defs@[m] == #[trigger] out@[a].weapon_def_index,
            forall|d: i32| #[trigger] shown_among(defs@, i as int, *index, items@, d) <==> lists_weapon(out@, d),
            forall|a: int| 0 <= a < out@.len() ==> weapon_matches(#[trigger] out@[a], *index, items@, out@[a].weapon_def_index, export_stickers, export_charms),
        decreases defs.len() - i,
    {
        let d = defs[i];
        let ghost before = out@;
        match weapon_cosmetic_for_def(index, items, d, export_stickers, export_charms) {
            Some(w) => {
                proof {
                    assert forall|a: int| 0 <= a < before.len() implies before[a].weapon_def_index < d by {
                        let m = choose|m: int| 0 <= m < i && defs@[m] == before[a].weapon_def_index;
                        assert(defs@[m] < defs@[i as int]);
                    }
                }
                out.push(w);
            },
            None => {},
        }
        proof {
            assert forall|a: int| 0 <= a < out@.len() implies exists|m: int| 0 <= m < i + 1 && defs@[m] == #[trigger] out@[a].weapon_def_index by {
                if a < before.len() {
                    let m = choose|m: int| 0 <= m < i && defs@[m] == before[a].weapon_def_index;
                    assert(out@[a] == before[a]);
                    assert(defs@[m] == out@[a].weapon_def_index);
                } else {
                    assert(defs@[i as int] == out@[a].weapon_def_index);
                }
            }
            assert forall|x: i32| #[trigger] shown_among(defs@, i + 1, *index, items@, x) <==> lists_weapon(out@, x) by {
                if shown_among(defs@, i + 1, *index, items@, x) {
                    let m = choose|m: int| 0 <= m < i + 1 && #[trigger] defs@[m] == x && weapon_shown(*index, items@, x);
                    if m < i {
                        assert(shown_among(defs@, i as int, *index, items@, x));
                        let a = choose|a: int| 0 <= a < before.len() && #[trigger] before[a].weapon_def_index == x;
                        assert(out@[a] == before[a]);
                    } else {
                        assert(out@[before.len() as int].weapon_def_index == x);
                    }
                }
                if lists_weapon(out@, x) {
                    let a = choose|a: int| 0 <= a < out@.len() && #[trigger] out@[a].weapon_def_index == x;
                    if a < before.len() {
                        assert(before[a].weapon_def_index == x);
                        assert(lists_weapon(before, x));
                        let m = choose|m: int| 0 <= m < i && #[trigger] defs@[m] == x && weapon_shown(*index, items@, x);
                        assert(0 <= m < i + 1 && defs@[m] == x);
                    } else {
                        assert(defs@[i as int] == x && weapon_shown(*index, items@, x));
                    }
                }
            }
            assert forall|a: int| 0 <= a < out@.len() implies weapon_matches(#[trigger] out@[a], *index, items@, out@[a].weapon_def_index, export_stickers, export_charms) by {
                if a < before.len() {
                    assert(out@[a] == before[a]);
                }
            }
        }
        i = i + 1;
    }
    proof {
        assert forall|d: i32| #[trigger] weapon_shown(*index, items@, d) <==> lists_weapon(out@, d) by {
            if weapon_shown(*index, items@, d) {
                if !defs@.contains(d) {
                    assert forall|k: int| 0 <= k < items@.len() implies (|it: ParsedInventoryWeaponCosmetic| only_for(*index, it, d, item_paint(*index, it, d)))(#[trigger] items@[k]) is None by {
                        if evidence_for(*index, items@[k], d) {
                            assert(defs@.contains(d));
                        }
                    }
                    lemma_fold_obs_none(items@, |it: ParsedInventoryWeaponCosmetic| only_for(*index, it, d, item_paint(*index, it, d)));
                }
                let m = choose|m: int| 0 <= m < defs@.len() && defs@[m] == d;
                assert(shown_among(defs@, defs@.len() as int, *index, items@, d));
            }
        }
    }
    if out.len() == 0 {
        None
    } else {
        Some(out)
    }
}

} // verus!
