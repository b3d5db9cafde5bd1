//! High-fidelity replay events of a player in a round: inventory counts and
//! their changes, transfers between players, bomb ownership and the game
//! events that concern the player.
use crate::catalog::{first_with_class, first_with_def, spec_normalize_item_event_name, Cs2LibEconIndex, ReplayEquipmentSlot};
use crate::model::{
    eq_lit, ParsedGameEvent, ReplayHifiEvent, ReplayHifiEventKind, ReplayInventoryItemCount, ReplayInventorySnapshot,
};
use crate::round_replay::RoundRow;
use crate::text::{chars_of, string_of};
use crate::weapon_evidence::opt_str_view;
use vstd::prelude::*;

verus! {

/// The catalog definition an item name names, normalized.
pub open spec fn spec_def_from_item_name(index: Cs2LibEconIndex, name: Seq<char>) -> Option<i32> {
    match first_with_class(index.replay_equipment@, spec_normalize_item_event_name(name)) {
        Some(i) => Some(index.spec_normalize(index.replay_equipment@[i].weapon_defidx)),
        None => None,
    }
}

/// The catalog class name of a definition.
pub open spec fn spec_item_name(index: Cs2LibEconIndex, def: i32) -> Option<Seq<char>> {
    match first_with_def(index.replay_equipment@, index.spec_normalize(def)) {
        Some(i) => Some(index.replay_equipment@[i].class_name@),
        None => None,
    }
}

fn item_name_of(index: &Cs2LibEconIndex, def: i32) -> (r: Option<String>)
    ensures
        opt_str_view(r) == spec_item_name(*index, def),
{
    match index.weapon_item_name(def) {
        Some(n) => Some(string_of(n)),
        None => None,
    }
}

// ---------------------------------------------------------------------------
// Inventory counts
// ---------------------------------------------------------------------------

/// A catalog definition the replay knows.
pub open spec fn known_def(index: Cs2LibEconIndex, def: i32) -> bool {
    index.replay_equipment_defidx@.contains(index.spec_normalize(def))
}

/// How many items of (normalized, known) definition `def` an inventory holds.
pub open spec fn spec_count(index: Cs2LibEconIndex, inv: Seq<i32>, def: i32) -> nat
    decreases inv.len(),
{
    if inv.len() == 0 {
        0
    } else {
        let d = index.spec_normalize(inv.last());
        spec_count(index, inv.drop_last(), def) + if d == def && known_def(index, d) {
            1nat
        } else {
            0nat
        }
    }
}

/// The count listed for `def`, 0 when it is not listed.
pub open spec fn listed_count(counts: Seq<ReplayInventoryItemCount>, def: i32) -> nat {
    if exists|i: int| 0 <= i < counts.len() && #[trigger] counts[i].weapon_def_index == def {
        counts[choose|i: int| 0 <= i < counts.len() && #[trigger] counts[i].weapon_def_index == def].count as nat
    } else {
        0
    }
}

/// Strictly ascending definitions, each with a positive count.
pub open spec fn counts_wf(counts: Seq<ReplayInventoryItemCount>) -> bool {
    &&& forall|a: int, b: int| 0 <= a < b < counts.len() ==> #[trigger] counts[a].weapon_def_index < #[trigger] counts[b].weapon_def_index
    &&& forall|a: int| 0 <= a < counts.len() ==> (#[trigger] counts[a]).count > 0
}

proof fn lemma_spec_count_bound(index: Cs2LibEconIndex, inv: Seq<i32>, def: i32)
    ensures
        spec_count(index, inv, def) <= inv.len(),
    decreases inv.len(),
{
    if inv.len() > 0 {
        lemma_spec_count_bound(index, inv.drop_last(), def);
    }
}

proof fn lemma_listed_at(counts: Seq<ReplayInventoryItemCount>, i: int)
    requires
        counts_wf(counts),
        0 <= i < counts.len(),
    ensures
        listed_count(counts, counts[i].weapon_def_index) == counts[i].count,
{
    let d = counts[i].weapon_def_index;
    let j = choose|j: int| 0 <= j < counts.len() && #[trigger] counts[j].weapon_def_index == d;
    if j != i {
        if j < i {
            assert(counts[j].weapon_def_index < counts[i].weapon_def_index);
        } else {
            assert(counts[i].weapon_def_index < counts[j].weapon_def_index);
        }
    }
}

proof fn lemma_listed_update(a: Seq<ReplayInventoryItemCount>, p: int, e: ReplayInventoryItemCount, d: i32)
    requires
        counts_wf(a),
        counts_wf(a.update(p, e)),
        0 <= p < a.len(),
        a[p].weapon_def_index == e.weapon_def_index,
        d != e.weapon_def_index,
    ensures
        listed_count(a.update(p, e), d) == listed_count(a, d),
{
    let b = a.update(p, e);
    if exists|i: int| 0 <= i < a.len() && #[trigger] a[i].weapon_def_index == d {
        let i = choose|i: int| 0 <= i < a.len() && #[trigger] a[i].weapon_def_index == d;
        lemma_listed_at(a, i);
        assert(b[i] == a[i]);
        lemma_listed_at(b, i);
    } else {
        assert forall|i: int| 0 <= i < b.len() implies #[trigger] b[i].weapon_def_index != d by {
            if i != p {
                assert(b[i] == a[i]);
            }
        }
    }
}

proof fn lemma_listed_insert(a: Seq<ReplayInventoryItemCount>, p: int, e: ReplayInventoryItemCount, d: i32)
    requires
        counts_wf(a),
        counts_wf(a.insert(p, e)),
        0 <= p <= a.len(),
        d != e.weapon_def_index,
    ensures
        listed_count(a.insert(p, e), d) == listed_count(a, d),
{
    let b = a.insert(p, e);
    if exists|i: int| 0 <= i < a.len() && #[trigger] a[i].weapon_def_index == d {
        let i = choose|i: int| 0 <= i < a.len() && #[trigger] a[i].weapon_def_index == d;
        lemma_listed_at(a, i);
        let j = if i < p {
            i
        } else {
            i + 1
        };
        assert(b[j] == a[i]);
        lemma_listed_at(b, j);
    } else {
        assert forall|i: int| 0 <= i < b.len() implies #[trigger] b[i].weapon_def_index != d by {
            if i < p {
                assert(b[i] == a[i]);
            } else if i > p {
                assert(b[i] == a[i - 1]);
            }
        }
    }
}

proof fn lemma_insert_wf(a: Seq<ReplayInventoryItemCount>, p: int, e: ReplayInventoryItemCount)
    requires
        counts_wf(a),
        0 <= p <= a.len(),
        e.count > 0,
        forall|i: int| 0 <= i < p ==> a[i].weapon_def_index < e.weapon_def_index,
        p < a.len() ==> a[p].weapon_def_index > e.weapon_def_index,
    ensures
        counts_wf(a.insert(p, e)),
{
    let b = a.insert(p, e);
    assert forall|x: int, y: int| 0 <= x < y < b.len() implies #[trigger] b[x].weapon_def_index < #[trigger] b[y].weapon_def_index by {
        if y < p {
        } else if x < p && y == p {
        } else if x < p {
            assert(b[y] == a[y - 1]);
            assert(a[x].weapon_def_index < a[y - 1].weapon_def_index || x == y - 1);
        } else if x == p {
            assert(b[y] == a[y - 1]);
            assert(a[p].weapon_def_index <= a[y - 1].weapon_def_index);
        } else {
            assert(b[x] == a[x - 1]);
            assert(b[y] == a[y - 1]);
        }
    }
    assert forall|x: int| 0 <= x < b.len() implies (#[trigger] b[x]).count > 0 by {
        if x < p {
            assert(b[x] == a[x]);
        } else if x > p {
            assert(b[x] == a[x - 1]);
        }
    }
}

/// Counts one more item of `def`.
fn bump(counts: &mut Vec<ReplayInventoryItemCount>, def: i32, Ghost(bound): Ghost<nat>)
    requires
        counts_wf(old(counts)@),
        listed_count(old(counts)@, def) < bound <= u32::MAX,
    ensures
        counts_wf(final(counts)@),
        forall|d: i32| #[trigger] listed_count(final(counts)@, d) == listed_count(old(counts)@, d) + if d == def {
            1nat
        } else {
            0nat
        },
{
    let ghost before = counts@;
    let mut p: usize = 0;
    while p < counts.len() && counts[p].weapon_def_index < def
        invariant
            p <= counts@.len(),
            counts@ == before,
            forall|a: int| 0 <= a < p ==> counts@[a].weapon_def_index < def,
        decreases counts.len() - p,
    {
        p = p + 1;
    }
    if p < counts.len() && counts[p].weapon_def_index == def {
        proof {
            lemma_listed_at(before, p as int);
        }
        let c = counts[p].count;
        let e = ReplayInventoryItemCount { weapon_def_index: def, count: c + 1 };
        counts.set(p, e);
        proof {
            assert forall|a: int, b: int| 0 <= a < b < counts@.len() implies #[trigger] counts@[a].weapon_def_index < #[trigger] counts@[b].weapon_def_index by {
                assert(counts@[a].weapon_def_index == before[a].weapon_def_index);
                assert(counts@[b].weapon_def_index == before[b].weapon_def_index);
            }
            lemma_listed_at(counts@, p as int);
            assert forall|d: i32| #[trigger] listed_count(counts@, d) == listed_count(before, d) + if d == def {
                1nat
            } else {
                0nat
            } by {
                if d != def {
                    lemma_listed_update(before, p as int, e, d);
                }
            }
        }
    } else {
        proof {
            assert forall|a: int| 0 <= a < before.len() implies #[trigger] before[a].weapon_def_index != def by {
                if a > p {
                    assert(before[p as int].weapon_def_index < before[a].weapon_def_index);
                }
            }
            assert(listed_count(before, def) == 0);
        }
        let e = ReplayInventoryItemCount { weapon_def_index: def, count: 1 };
        counts.insert(p, e);
        proof {
            lemma_insert_wf(before, p as int, e);
            lemma_listed_at(counts@, p as int);
            assert forall|d: i32| #[trigger] listed_count(counts@, d) == listed_count(before, d) + if d == def {
                1nat
            } else {
                0nat
            } by {
                if d != def {
                    lemma_listed_insert(before, p as int, e, d);
                }
            }
        }
    }
}

/// The items of an inventory by (normalized, known) definition, ascending.
pub fn inventory_counts(index: &Cs2LibEconIndex, inventory_as_ids: &Vec<i32>) -> (r: Vec<ReplayInventoryItemCount>)
    requires
        inventory_as_ids@.len() <= u32::MAX,
    ensures
        counts_wf(r@),
        forall|d: i32| #[trigger] listed_count(r@, d) == spec_count(*index, inventory_as_ids@, d),
{
    let mut counts: Vec<ReplayInventoryItemCount> = Vec::new();
    let mut k: usize = 0;
    while k < inventory_as_ids.len()
        invariant
            k <= inventory_as_ids@.len() <= u32::MAX,
            counts_wf(counts@),
            forall|d: i32| #[trigger] listed_count(counts@, d) == spec_count(*index, inventory_as_ids@.take(k as int), d),
        decreases inventory_as_ids.len() - k,
    {
        let ghost pre = inventory_as_ids@.take(k as int);
        proof {
            assert(inventory_as_ids@.take(k + 1).drop_last() =~= pre);
            assert(inventory_as_ids@.take(k + 1).last() == inventory_as_ids@[k as int]);
        }
        let def = index.normalize_weapon_def_index(inventory_as_ids[k]);
        if index.is_known_weapon_def_index(def) {
            proof {
                lemma_spec_count_bound(*index, pre, def);
                assert(listed_count(counts@, def) == spec_count(*index, pre, def));
            }
            bump(&mut counts, def, Ghost((k + 1) as nat));
        }
        k = k + 1;
    }
    proof {
        assert(inventory_as_ids@.take(inventory_as_ids@.len() as int) =~= inventory_as_ids@);
    }
    counts
}

fn count_of(counts: &Vec<ReplayInventoryItemCount>, def: i32) -> (r: u32)
    requires
        counts_wf(counts@),
    ensures
        r == listed_count(counts@, def),
{
    let mut i: usize = 0;
    while i < counts.len()
        invariant
            i <= counts@.len(),
            counts_wf(counts@),
            forall|a: int| 0 <= a < i ==> counts@[a].weapon_def_index != def,
        decreases counts.len() - i,
    {
        if counts[i].weapon_def_index == def {
            proof {
                lemma_listed_at(counts@, i as int);
            }
            return counts[i].count;
        }
        i = i + 1;
    }
    0
}

/// The first row at or after `tick`.
pub open spec fn first_at_or_after(rows: Seq<RoundRow>, tick: i32) -> Option<int>
    decreases rows.len(),
{
    if rows.len() == 0 {
        None
    } else {
        match first_at_or_after(rows.drop_last(), tick) {
            Some(i) => Some(i),
            None => if rows.last().tick >= tick {
                Some(rows.len() - 1)
            } else {
                None
            },
        }
    }
}

proof fn lemma_first_at_or_after_prefix(rows: Seq<RoundRow>, n: int, tick: i32)
    requires
        0 <= n <= rows.len(),
        first_at_or_after(rows.take(n), tick) is Some,
    ensures
        first_at_or_after(rows, tick) == first_at_or_after(rows.take(n), tick),
        first_at_or_after(rows, tick) matches Some(i) && 0 <= i < n,
    decreases rows.len() - n,
{
    lemma_first_at_or_after_bound(rows.take(n), tick);
    if n < rows.len() {
        assert(rows.take(n + 1).drop_last() =~= rows.take(n));
        lemma_first_at_or_after_prefix(rows, n + 1, tick);
    } else {
        assert(rows.take(n) =~= rows);
    }
}

proof fn lemma_first_at_or_after_bound(rows: Seq<RoundRow>, tick: i32)
    ensures
        first_at_or_after(rows, tick) matches Some(i) ==> 0 <= i < rows.len() && rows[i].tick >= tick,
    decreases rows.len(),
{
    if rows.len() > 0 {
        lemma_first_at_or_after_bound(rows.drop_last(), tick);
    }
}

fn find_at_or_after(rows: &[RoundRow], tick: i32) -> (r: Option<usize>)
    ensures
        match first_at_or_after(rows@, tick) {
            Some(i) => r == Some(i as usize) && 0 <= i < rows@.len(),
            None => r is None,
        },
{
    let mut k: usize = 0;
    while k < rows.len()
        invariant
            k <= rows.len(),
            first_at_or_after(rows@.take(k as int), tick) is None,
        decreases rows.len() - k,
    {
        proof {
            assert(rows@.take(k + 1).drop_last() =~= rows@.take(k as int));
            assert(rows@.take(k + 1).last() == rows@[k as int]);
        }
        if rows[k].tick >= tick {
            proof {
                lemma_first_at_or_after_prefix(rows@, k + 1, tick);
            }
            return Some(k);
        }
        k = k + 1;
    }
    proof {
        assert(rows@.take(rows@.len() as int) =~= rows@);
    }
    None
}

/// How many items of `def` the first row at or after `tick` holds.
pub fn inventory_count_at_or_after(index: &Cs2LibEconIndex, rows: &[RoundRow], tick: i32, def: i32) -> (r: Option<u32>)
    requires
        forall|i: int| 0 <= i < rows@.len() ==> (#[trigger] rows@[i]).inventory_as_ids@.len() <= u32::MAX,
    ensures
        r == match first_at_or_after(rows@, tick) {
            Some(i) => Some(spec_count(*index, rows@[i].inventory_as_ids@, def) as u32),
            None => None,
        },
{
    match find_at_or_after(rows, tick) {
        Some(i) => {
            let counts = inventory_counts(index, &rows[i].inventory_as_ids);
            proof {
                lemma_spec_count_bound(*index, rows@[i as int].inventory_as_ids@, def);
            }
            Some(count_of(&counts, def))
        },
        None => None,
    }
}

/// The account balance of the first row from the live start on.
pub fn round_start_balance_for_player(player_rows: &[RoundRow], live_start_tick: i32) -> (r: Option<u32>)
    ensures
        r == match first_at_or_after(player_rows@, live_start_tick) {
            Some(i) => player_rows@[i].account_balance,
            None => None,
        },
{
    match find_at_or_after(player_rows, live_start_tick) {
        Some(i) => player_rows[i].account_balance,
        None => None,
    }
}

/// The tick index of an event among a player's rows: the first row (but the
/// last) at or after the tick, else the second-to-last row; none for fewer
/// than two rows.
pub open spec fn spec_tick_index(rows: Seq<RoundRow>, tick: i32) -> Option<u32> {
    if rows.len() < 2 {
        None
    } else {
        match first_at_or_after(rows.take(rows.len() - 1), tick) {
            Some(i) => Some(i as u32),
            None => Some((rows.len() - 2) as u32),
        }
    }
}

pub fn tick_index_for_event(player_rows: &[RoundRow], tick: i32) -> (r: Option<u32>)
    ensures
        r == spec_tick_index(player_rows@, tick),
{
    let n = player_rows.len();
    if n < 2 {
        return None;
    }
    let head = vstd::slice::slice_subrange(player_rows, 0, n - 1);
    proof {
        assert(head@ == player_rows@.take(n - 1));
    }
    match find_at_or_after(head, tick) {
        Some(i) => Some(i as u32),
        None => Some((n - 2) as u32),
    }
}

/// The order of event kinds at one tick.
pub open spec fn spec_hifi_rank(kind: ReplayHifiEventKind) -> u8 {
    match kind {
        ReplayHifiEventKind::BombInitialOwner => 0,
        ReplayHifiEventKind::RoundStart => 1,
        ReplayHifiEventKind::RoundFreezeEnd => 2,
        ReplayHifiEventKind::BombDrop => 3,
        ReplayHifiEventKind::ItemDrop => 4,
        ReplayHifiEventKind::BombPickup => 5,
        ReplayHifiEventKind::ItemPickup => 6,
        ReplayHifiEventKind::ItemTransfer => 7,
        ReplayHifiEventKind::BombBeginplant => 8,
        ReplayHifiEventKind::BombPlanted => 9,
        ReplayHifiEventKind::WeaponFire => 10,
        ReplayHifiEventKind::PlayerHurt => 11,
        ReplayHifiEventKind::PlayerDeath => 12,
    }
}

/// The order of event kinds at one tick: the round opens (the bomb's first
/// carrier, the round start, the freeze end) before anything happens in it;
/// drops come before pickups and hand-overs, the bomb changes hands before it
/// is planted, and a shot comes before the damage it does, which comes
/// before the death it causes. No two kinds share a place.
pub proof fn law_hifi_order_at_one_tick()
    ensures
        spec_hifi_rank(ReplayHifiEventKind::BombInitialOwner) < spec_hifi_rank(ReplayHifiEventKind::RoundStart),
        spec_hifi_rank(ReplayHifiEventKind::RoundStart) < spec_hifi_rank(ReplayHifiEventKind::RoundFreezeEnd),
        spec_hifi_rank(ReplayHifiEventKind::RoundFreezeEnd) < spec_hifi_rank(ReplayHifiEventKind::BombDrop),
        spec_hifi_rank(ReplayHifiEventKind::BombDrop) < spec_hifi_rank(ReplayHifiEventKind::ItemDrop),
        spec_hifi_rank(ReplayHifiEventKind::ItemDrop) < spec_hifi_rank(ReplayHifiEventKind::BombPickup),
        spec_hifi_rank(ReplayHifiEventKind::BombPickup) < spec_hifi_rank(ReplayHifiEventKind::ItemPickup),
        spec_hifi_rank(ReplayHifiEventKind::ItemPickup) < spec_hifi_rank(ReplayHifiEventKind::ItemTransfer),
        spec_hifi_rank(ReplayHifiEventKind::ItemTransfer) < spec_hifi_rank(ReplayHifiEventKind::BombBeginplant),
        spec_hifi_rank(ReplayHifiEventKind::BombBeginplant) < spec_hifi_rank(ReplayHifiEventKind::BombPlanted),
        spec_hifi_rank(ReplayHifiEventKind::BombPlanted) < spec_hifi_rank(ReplayHifiEventKind::WeaponFire),
        spec_hifi_rank(ReplayHifiEventKind::WeaponFire) < spec_hifi_rank(ReplayHifiEventKind::PlayerHurt),
        spec_hifi_rank(ReplayHifiEventKind::PlayerHurt) < spec_hifi_rank(ReplayHifiEventKind::PlayerDeath),
        forall|a: ReplayHifiEventKind, b: ReplayHifiEventKind| a != b ==> #[trigger] spec_hifi_rank(a)
            != #[trigger] spec_hifi_rank(b),
{
}

pub fn hifi_event_rank(kind: ReplayHifiEventKind) -> (r: u8)
    ensures
        r == spec_hifi_rank(kind),
        kind == ReplayHifiEventKind::WeaponFire ==> r < spec_hifi_rank(ReplayHifiEventKind::PlayerHurt),
        kind == ReplayHifiEventKind::PlayerHurt ==> r < spec_hifi_rank(ReplayHifiEventKind::PlayerDeath),
        kind == ReplayHifiEventKind::PlayerDeath ==> r > spec_hifi_rank(ReplayHifiEventKind::PlayerHurt),
{
    proof {
        law_hifi_order_at_one_tick();
    }
    match kind {
        ReplayHifiEventKind::BombInitialOwner => 0,
        ReplayHifiEventKind::RoundStart => 1,
        ReplayHifiEventKind::RoundFreezeEnd => 2,
        ReplayHifiEventKind::BombDrop => 3,
        ReplayHifiEventKind::ItemDrop => 4,
        ReplayHifiEventKind::BombPickup => 5,
        ReplayHifiEventKind::ItemPickup => 6,
        ReplayHifiEventKind::ItemTransfer => 7,
        ReplayHifiEventKind::BombBeginplant => 8,
        ReplayHifiEventKind::BombPlanted => 9,
        ReplayHifiEventKind::WeaponFire => 10,
        ReplayHifiEventKind::PlayerHurt => 11,
        ReplayHifiEventKind::PlayerDeath => 12,
    }
}

// ---------------------------------------------------------------------------
// Recorded game events
// ---------------------------------------------------------------------------

/// A high-fidelity event at an absolute tick, before it is placed among a
/// player's rows.
#[derive(Clone, Debug)]
pub struct AbsoluteHifiEvent {
    pub tick: i32,
    pub kind: ReplayHifiEventKind,
    pub actor_steam_id: Option<u64>,
    pub target_steam_id: Option<u64>,
    pub weapon_def_index: Option<i32>,
    pub item_name: Option<String>,
    pub entity_id: Option<i32>,
    pub actor_count_after: Option<u32>,
    pub target_count_after: Option<u32>,
    pub damage: Option<i32>,
    pub health: Option<i32>,
}

impl AbsoluteHifiEvent {
    /// The event placed at its tick index among the player's rows; none for
    /// fewer than two rows.
    pub fn with_tick_index(self, player_rows: &[RoundRow]) -> (r: Option<ReplayHifiEvent>)
        ensures
            match spec_tick_index(player_rows@, self.tick) {
                Some(t) => r matches Some(e) && e.tick_index == t && e.tick == self.tick && e.kind == self.kind
                    && e.actor_steam_id == self.actor_steam_id && e.target_steam_id == self.target_steam_id
                    && e.weapon_def_index == self.weapon_def_index && e.item_name == self.item_name && e.entity_id
                    == self.entity_id && e.actor_count_after == self.actor_count_after && e.target_count_after
                    == self.target_count_after && e.damage == self.damage && e.health == self.health,
                None => r is None,
            },
    {
        let tick_index = match tick_index_for_event(player_rows, self.tick) {
            Some(t) => t,
            None => return None,
        };
        Some(ReplayHifiEvent {
            tick_index,
            tick: self.tick,
            kind: self.kind,
            actor_steam_id: self.actor_steam_id,
            target_steam_id: self.target_steam_id,
            weapon_def_index: self.weapon_def_index,
            item_name: self.item_name,
            entity_id: self.entity_id,
            actor_count_after: self.actor_count_after,
            target_count_after: self.target_count_after,
            damage: self.damage,
            health: self.health,
        })
    }
}

/// The replay kind of a recorded game event.
pub open spec fn spec_event_kind(name: Seq<char>) -> Option<ReplayHifiEventKind> {
    if name == "bomb_dropped"@ {
        Some(ReplayHifiEventKind::BombDrop)
    } else if name == "bomb_pickup"@ {
        Some(ReplayHifiEventKind::BombPickup)
    } else if name == "bomb_beginplant"@ {
        Some(ReplayHifiEventKind::BombBeginplant)
    } else if name == "bomb_planted"@ {
        Some(ReplayHifiEventKind::BombPlanted)
    } else if name == "weapon_fire"@ {
        Some(ReplayHifiEventKind::WeaponFire)
    } else if name == "player_hurt"@ {
        Some(ReplayHifiEventKind::PlayerHurt)
    } else if name == "player_death"@ {
        Some(ReplayHifiEventKind::PlayerDeath)
    } else {
        None
    }
}

pub open spec fn or_else<T>(a: Option<T>, b: Option<T>) -> Option<T> {
    match a {
        Some(x) => Some(x),
        None => b,
    }
}

pub open spec fn is_bomb_kind(kind: ReplayHifiEventKind) -> bool {
    kind == ReplayHifiEventKind::BombDrop || kind == ReplayHifiEventKind::BombPickup || kind
        == ReplayHifiEventKind::BombBeginplant || kind == ReplayHifiEventKind::BombPlanted
}

/// Who acts: the attacker of a hurt or death (else the user), the user of
/// anything else (else the attacker).
pub open spec fn event_actor(event: ParsedGameEvent, kind: ReplayHifiEventKind) -> Option<u64> {
    if kind == ReplayHifiEventKind::PlayerHurt || kind == ReplayHifiEventKind::PlayerDeath {
        or_else(event.attacker_steam_id, event.user_steam_id)
    } else {
        or_else(event.user_steam_id, event.attacker_steam_id)
    }
}

/// Who is acted on: the user of a bomb pickup, the victim of anything else.
pub open spec fn event_target(event: ParsedGameEvent, kind: ReplayHifiEventKind) -> Option<u64> {
    if kind == ReplayHifiEventKind::BombPickup {
        event.user_steam_id
    } else {
        event.victim_steam_id
    }
}

/// The weapon of an event: its definition (normalized), else the one its
/// item name names, else the bomb for bomb events.
pub open spec fn event_weapon(index: Cs2LibEconIndex, event: ParsedGameEvent, kind: ReplayHifiEventKind) -> Option<i32> {
    or_else(
        match event.weapon_def_index {
            Some(d) => Some(index.spec_normalize(d)),
            None => None,
        },
        or_else(
            match event.item_name {
                Some(n) => spec_def_from_item_name(index, n@),
                None => None,
            },
            if is_bomb_kind(kind) {
                Some(49i32)
            } else {
                None
            },
        ),
    )
}

/// A recorded game event as the player's event: a known kind, with the
/// player as actor or target; the item name is the catalog name of its
/// weapon, else the event's.
pub open spec fn recorded_event_matches(
    r: Option<AbsoluteHifiEvent>,
    index: Cs2LibEconIndex,
    event: ParsedGameEvent,
    steam_id: u64,
) -> bool {
    match spec_event_kind(event.name@) {
        Some(kind) => if event_actor(event, kind) != Some(steam_id) && event_target(event, kind) != Some(steam_id) {
            r is None
        } else {
            let weapon = event_weapon(index, event, kind);
            &&& r matches Some(e)
            &&& e.tick == event.tick
            &&& e.kind == kind
            &&& e.actor_steam_id == event_actor(event, kind)
            &&& e.target_steam_id == event_target(event, kind)
            &&& e.weapon_def_index == weapon
            &&& opt_str_view(e.item_name) == or_else(
                match weapon {
                    Some(w) => spec_item_name(index, w),
                    None => None,
                },
                opt_str_view(event.item_name),
            )
            &&& e.entity_id == event.entity_id
            &&& e.actor_count_after is None
            &&& e.target_count_after is None
            &&& e.damage == event.damage
            &&& e.health == event.health
        },
        None => r is None,
    }
}

fn event_kind_of(name: &String) -> (r: Option<ReplayHifiEventKind>)
    ensures
        r == spec_event_kind(name@),
{
    let chars = chars_of(name.as_str());
    if eq_lit(&chars, "bomb_dropped") {
        Some(ReplayHifiEventKind::BombDrop)
    } else if eq_lit(&chars, "bomb_pickup") {
        Some(ReplayHifiEventKind::BombPickup)
    } else if eq_lit(&chars, "bomb_beginplant") {
        Some(ReplayHifiEventKind::BombBeginplant)
    } else if eq_lit(&chars, "bomb_planted") {
        Some(ReplayHifiEventKind::BombPlanted)
    } else if eq_lit(&chars, "weapon_fire") {
        Some(ReplayHifiEventKind::WeaponFire)
    } else if eq_lit(&chars, "player_hurt") {
        Some(ReplayHifiEventKind::PlayerHurt)
    } else if eq_lit(&chars, "player_death") {
        Some(ReplayHifiEventKind::PlayerDeath)
    } else {
        None
    }
}

fn copy_name(o: &Option<String>) -> (r: Option<String>)
    ensures
        opt_str_view(r) == opt_str_view(*o),
{
    match o {
        Some(s) => Some(string_of(s.as_str())),
        None => None,
    }
}

pub fn map_recorded_game_event(index: &Cs2LibEconIndex, event: &ParsedGameEvent, steam_id: u64) -> (r: Option<
    AbsoluteHifiEvent,
>)
    ensures
        recorded_event_matches(r, *index, *event, steam_id),
{
    let kind = match event_kind_of(&event.name) {
        Some(k) => k,
        None => return None,
    };
    let hurt_or_death = match kind {
        ReplayHifiEventKind::PlayerHurt => true,
        ReplayHifiEventKind::PlayerDeath => true,
        _ => false,
    };
    let actor = if hurt_or_death {
        match event.attacker_steam_id {
            Some(a) => Some(a),
            None => event.user_steam_id,
        }
    } else {
        match event.user_steam_id {
            Some(u) => Some(u),
            None => event.attacker_steam_id,
        }
    };
    let target = match kind {
        ReplayHifiEventKind::BombPickup => event.user_steam_id,
        _ => event.victim_steam_id,
    };
    let actor_is = match actor {
        Some(a) => a == steam_id,
        None => false,
    };
    let target_is = match target {
        Some(t) => t == steam_id,
        None => false,
    };
    if !actor_is && !target_is {
        return None;
    }
    let bomb = match kind {
        ReplayHifiEventKind::BombDrop => true,
        ReplayHifiEventKind::BombPickup => true,
        ReplayHifiEventKind::BombBeginplant => true,
        ReplayHifiEventKind::BombPlanted => true,
        _ => false,
    };
    let weapon = match event.weapon_def_index {
        Some(d) => Some(index.normalize_weapon_def_index(d)),
        None => {
            let named = match &event.item_name {
                Some(n) => index.weapon_def_index_from_item_name(n.as_str()),
                None => None,
            };
            match named {
                Some(d) => Some(d),
                None => if bomb {
                    Some(49)
                } else {
                    None
                },
            }
        },
    };
    let catalog_name = match weapon {
        Some(w) => item_name_of(index, w),
        None => None,
    };
    let item_name = match catalog_name {
        Some(n) => Some(n),
        None => copy_name(&event.item_name),
    };
    Some(AbsoluteHifiEvent {
        tick: event.tick,
        kind,
        actor_steam_id: actor,
        target_steam_id: target,
        weapon_def_index: weapon,
        item_name,
        entity_id: event.entity_id,
        actor_count_after: None,
        target_count_after: None,
        damage: event.damage,
        health: event.health,
    })
}


// ---------------------------------------------------------------------------
// Bomb owner at the start of the round
// ---------------------------------------------------------------------------

/// A living T-side player carries the bomb in the tick range.
pub open spec fn c4_row(index: Cs2LibEconIndex, r: RoundRow, start_tick: i32, end_tick: i32) -> bool {
    start_tick <= r.tick <= end_tick && r.team_num == 2 && r.steam_id != 0 && r.is_alive && spec_count(
        index,
        r.inventory_as_ids@,
        49,
    ) > 0
}

pub open spec fn tick_steam_lt(a: (i32, u64), b: (i32, u64)) -> bool {
    a.0 < b.0 || (a.0 == b.0 && a.1 < b.1)
}

/// The least (tick, player) among the bomb carriers' rows.
pub open spec fn min_c4_key(index: Cs2LibEconIndex, rows: Seq<RoundRow>, start_tick: i32, end_tick: i32) -> Option<(i32, u64)>
    decreases rows.len(),
{
    if rows.len() == 0 {
        None
    } else {
        let prev = min_c4_key(index, rows.drop_last(), start_tick, end_tick);
        let r = rows.last();
        if c4_row(index, r, start_tick, end_tick) {
            match prev {
                Some(p) => if tick_steam_lt((r.tick, r.steam_id), p) {
                    Some((r.tick, r.steam_id))
                } else {
                    Some(p)
                },
                None => Some((r.tick, r.steam_id)),
            }
        } else {
            prev
        }
    }
}

/// A bomb event from the live start on.
pub open spec fn bomb_event(e: ParsedGameEvent, live_start_tick: i32, end_tick: i32) -> bool {
    &&& live_start_tick <= e.tick <= end_tick
    &&& (e.name@ == "bomb_dropped"@ || e.name@ == "bomb_pickup"@ || e.name@ == "bomb_beginplant"@ || e.name@
        == "bomb_planted"@)
}

/// The earliest bomb event among the first `n` (the first of equal ticks).
pub open spec fn first_bomb_event(events: Seq<ParsedGameEvent>, n: int, live_start_tick: i32, end_tick: i32) -> Option<int>
    decreases n,
{
    if n <= 0 {
        None
    } else {
        let prev = first_bomb_event(events, n - 1, live_start_tick, end_tick);
        if bomb_event(events[n - 1], live_start_tick, end_tick) {
            match prev {
                Some(i) => if events[n - 1].tick < events[i].tick {
                    Some(n - 1)
                } else {
                    Some(i)
                },
                None => Some(n - 1),
            }
        } else {
            prev
        }
    }
}

proof fn lemma_first_bomb_event_bound(events: Seq<ParsedGameEvent>, n: int, live_start_tick: i32, end_tick: i32)
    ensures
        first_bomb_event(events, n, live_start_tick, end_tick) matches Some(i) ==> 0 <= i < n,
    decreases n,
{
    if n > 0 {
        lemma_first_bomb_event_bound(events, n - 1, live_start_tick, end_tick);
    }
}

/// The bomb's first owner: the first living T-side carrier in the tick range
/// (by tick, then SteamID), else the user (or attacker) of the earliest bomb
/// event from the live start on.
pub open spec fn spec_initial_c4_owner(
    index: Cs2LibEconIndex,
    events: Seq<ParsedGameEvent>,
    start_tick: i32,
    live_start_tick: i32,
    end_tick: i32,
    rows: Seq<RoundRow>,
) -> Option<u64> {
    match min_c4_key(index, rows, start_tick, end_tick) {
        Some(k) => Some(k.1),
        None => match first_bomb_event(events, events.len() as int, live_start_tick, end_tick) {
            Some(i) => or_else(events[i].user_steam_id, events[i].attacker_steam_id),
            None => None,
        },
    }
}

fn is_bomb_event_name(name: &String) -> (r: bool)
    ensures
        r == (name@ == "bomb_dropped"@ || name@ == "bomb_pickup"@ || name@ == "bomb_beginplant"@ || name@ == "bomb_planted"@),
{
    let chars = chars_of(name.as_str());
    eq_lit(&chars, "bomb_dropped") || eq_lit(&chars, "bomb_pickup") || eq_lit(&chars, "bomb_beginplant") || eq_lit(
        &chars,
        "bomb_planted",
    )
}

pub fn infer_initial_c4_owner(
    index: &Cs2LibEconIndex,
    events: &Vec<ParsedGameEvent>,
    start_tick: i32,
    live_start_tick: i32,
    end_tick: i32,
    round_rows: &[RoundRow],
) -> (r: Option<u64>)
    requires
        forall|i: int| 0 <= i < round_rows@.len() ==> (#[trigger] round_rows@[i]).inventory_as_ids@.len() <= u32::MAX,
    ensures
        r == spec_initial_c4_owner(*index, events@, start_tick, live_start_tick, end_tick, round_rows@),
{
    let mut best: Option<(i32, u64)> = None;
    let mut k: usize = 0;
    while k < round_rows.len()
        invariant
            k <= round_rows.len(),
            forall|i: int| 0 <= i < round_rows@.len() ==> (#[trigger] round_rows@[i]).inventory_as_ids@.len() <= u32::MAX,
            best == min_c4_key(*index, round_rows@.take(k as int), start_tick, end_tick),
        decreases round_rows.len() - k,
    {
        let row = &round_rows[k];
        proof {
            assert(round_rows@.take(k + 1).drop_last() =~= round_rows@.take(k as int));
            assert(round_rows@.take(k + 1).last() == round_rows@[k as int]);
        }
        if row.tick >= start_tick && row.tick <= end_tick && row.team_num == 2 && row.steam_id != 0 && row.is_alive {
            let counts = inventory_counts(index, &row.inventory_as_ids);
            if count_of(&counts, 49) > 0 {
                best = match best {
                    Some(p) => if row.tick < p.0 || (row.tick == p.0 && row.steam_id < p.1) {
                        Some((row.tick, row.steam_id))
                    } else {
                        Some(p)
                    },
                    None => Some((row.tick, row.steam_id)),
                };
            }
        }
        k = k + 1;
    }
    proof {
        assert(round_rows@.take(round_rows@.len() as int) =~= round_rows@);
    }
    if let Some(p) = best {
        return Some(p.1);
    }
    let mut first: Option<usize> = None;
    let mut j: usize = 0;
    while j < events.len()
        invariant
            j <= events@.len(),
            match first_bomb_event(events@, j as int, live_start_tick, end_tick) {
                Some(i) => first == Some(i as usize),
                None => first is None,
            },
        decreases events.len() - j,
    {
        proof {
            lemma_first_bomb_event_bound(events@, j as int, live_start_tick, end_tick);
        }
        let e = &events[j];
        if e.tick >= live_start_tick && e.tick <= end_tick && is_bomb_event_name(&e.name) {
            first = match first {
                Some(i) => if e.tick < events[i].tick {
                    Some(j)
                } else {
                    Some(i)
                },
                None => Some(j),
            };
        }
        j = j + 1;
    }
    proof {
        lemma_first_bomb_event_bound(events@, events@.len() as int, live_start_tick, end_tick);
    }
    match first {
        Some(i) => match events[i].user_steam_id {
            Some(u) => Some(u),
            None => events[i].attacker_steam_id,
        },
        None => None,
    }
}

// ---------------------------------------------------------------------------
// Inventory snapshots
// ---------------------------------------------------------------------------

/// Row `i` changes the inventory: the first row, or one whose counts differ
/// from the row before.
pub open spec fn inventory_changes_at(index: Cs2LibEconIndex, rows: Seq<RoundRow>, i: int) -> bool {
    i == 0 || exists|d: i32| spec_count(index, #[trigger] rows[i].inventory_as_ids@, d) != spec_count(index, rows[i - 1].inventory_as_ids@, d)
}

/// The rows among the first `n` that change the inventory, in order.
pub open spec fn snapshot_rows(index: Cs2LibEconIndex, rows: Seq<RoundRow>, n: int) -> Seq<int>
    decreases n,
{
    if n <= 0 {
        seq![]
    } else if inventory_changes_at(index, rows, n - 1) {
        snapshot_rows(index, rows, n - 1).push(n - 1)
    } else {
        snapshot_rows(index, rows, n - 1)
    }
}

/// The snapshot of row `i`.
pub open spec fn snapshot_matches(s: ReplayInventorySnapshot, index: Cs2LibEconIndex, rows: Seq<RoundRow>, i: int) -> bool {
    let r = rows[i];
    &&& spec_tick_index(rows, r.tick) == Some(s.tick_index)
    &&& s.tick == r.tick
    &&& s.steam_id == r.steam_id
    &&& counts_wf(s.weapon_def_counts@)
    &&& forall|d: i32| #[trigger] listed_count(s.weapon_def_counts@, d) == spec_count(index, r.inventory_as_ids@, d)
    &&& s.active_weapon_def_index == index.spec_normalize(r.item_def_idx)
    &&& s.armor_value == r.armor_value
    &&& s.has_helmet == r.has_helmet
    &&& s.has_defuser == r.has_defuser
}

/// Two well-formed count lists are equal exactly when they count alike.
proof fn lemma_counts_equal(a: Seq<ReplayInventoryItemCount>, b: Seq<ReplayInventoryItemCount>)
    requires
        counts_wf(a),
        counts_wf(b),
        forall|d: i32| #[trigger] listed_count(a, d) == listed_count(b, d),
    ensures
        a == b,
    decreases a.len() + b.len(),
{
    if a.len() > 0 && b.len() > 0 {
        let x = a[0].weapon_def_index;
        let y = b[0].weapon_def_index;
        lemma_listed_at(a, 0);
        lemma_listed_at(b, 0);
        if x != y {
            if x < y {
                assert forall|i: int| 0 <= i < b.len() implies #[trigger] b[i].weapon_def_index != x by {
                    if i > 0 {
                        assert(b[0].weapon_def_index < b[i].weapon_def_index);
                    }
                }
                assert(listed_count(b, x) == 0);
            } else {
                assert forall|i: int| 0 <= i < a.len() implies #[trigger] a[i].weapon_def_index != y by {
                    if i > 0 {
                        assert(a[0].weapon_def_index < a[i].weapon_def_index);
                    }
                }
                assert(listed_count(a, y) == 0);
            }
        }
        assert(a[0] == b[0]);
        let ta = a.drop_first();
        let tb = b.drop_first();
        assert(counts_wf(ta));
        assert(counts_wf(tb));
        assert forall|d: i32| #[trigger] listed_count(ta, d) == listed_count(tb, d) by {
            lemma_listed_tail(a, d);
            lemma_listed_tail(b, d);
        }
        lemma_counts_equal(ta, tb);
        assert(a =~= seq![a[0]] + ta);
        assert(b =~= seq![b[0]] + tb);
    } else if a.len() > 0 {
        lemma_listed_at(a, 0);
        assert(listed_count(b, a[0].weapon_def_index) == 0);
    } else if b.len() > 0 {
        lemma_listed_at(b, 0);
        assert(listed_count(a, b[0].weapon_def_index) == 0);
    } else {
        assert(a =~= b);
    }
}

proof fn lemma_listed_tail(a: Seq<ReplayInventoryItemCount>, d: i32)
    requires
        counts_wf(a),
        a.len() > 0,
    ensures
        counts_wf(a.drop_first()),
        d != a[0].weapon_def_index ==> listed_count(a.drop_first(), d) == listed_count(a, d),
        d == a[0].weapon_def_index ==> listed_count(a.drop_first(), d) == 0,
{
    let t = a.drop_first();
    assert forall|x: int, y: int| 0 <= x < y < t.len() implies #[trigger] t[x].weapon_def_index < #[trigger] t[y].weapon_def_index by {
        assert(t[x] == a[x + 1] && t[y] == a[y + 1]);
    }
    assert forall|x: int| 0 <= x < t.len() implies (#[trigger] t[x]).count > 0 by {
        assert(t[x] == a[x + 1]);
    }
    if exists|i: int| 0 <= i < t.len() && #[trigger] t[i].weapon_def_index == d {
        let i = choose|i: int| 0 <= i < t.len() && #[trigger] t[i].weapon_def_index == d;
        assert(t[i] == a[i + 1]);
        assert(a[0].weapon_def_index < a[i + 1].weapon_def_index);
        lemma_listed_at(t, i);
        lemma_listed_at(a, i + 1);
    } else {
        if d != a[0].weapon_def_index {
            assert forall|i: int| 0 <= i < a.len() implies #[trigger] a[i].weapon_def_index != d by {
                if i > 0 {
                    assert(t[i - 1] == a[i]);
                }
            }
        }
    }
}

fn same_counts(a: &Vec<ReplayInventoryItemCount>, b: &Vec<ReplayInventoryItemCount>) -> (r: bool)
    ensures
        r == (a@ == b@),
{
    if a.len() != b.len() {
        return false;
    }
    let mut i: usize = 0;
    while i < a.len()
        invariant
            i <= a@.len(),
            a@.len() == b@.len(),
            forall|j: int| 0 <= j < i ==> a@[j] == b@[j],
        decreases a.len() - i,
    {
        if a[i].weapon_def_index != b[i].weapon_def_index || a[i].count != b[i].count {
            return false;
        }
        i = i + 1;
    }
    proof {
        assert(a@ =~= b@);
    }
    true
}

/// A player's inventory snapshots: the first row and every row whose counts
/// change, each at its tick index; none for fewer than two rows.
pub fn inventory_snapshots_for_player(index: &Cs2LibEconIndex, player_rows: &[RoundRow]) -> (r: Vec<ReplayInventorySnapshot>)
    requires
        forall|i: int| 0 <= i < player_rows@.len() ==> (#[trigger] player_rows@[i]).inventory_as_ids@.len() <= u32::MAX,
    ensures
        player_rows@.len() < 2 ==> r@.len() == 0,
        player_rows@.len() >= 2 ==> r@.len() == snapshot_rows(*index, player_rows@, player_rows@.len() as int).len(),
        player_rows@.len() >= 2 ==> forall|j: int| 0 <= j < r@.len() ==> snapshot_matches(#[trigger] r@[j], *index, player_rows@, snapshot_rows(*index, player_rows@, player_rows@.len() as int)[j]),
{
    let mut out: Vec<ReplayInventorySnapshot> = Vec::new();
    if player_rows.len() < 2 {
        return out;
    }
    let mut previous: Vec<ReplayInventoryItemCount> = Vec::new();
    let mut k: usize = 0;
    while k < player_rows.len()
        invariant
            2 <= player_rows@.len(),
            k <= player_rows@.len(),
            forall|i: int| 0 <= i < player_rows@.len() ==> (#[trigger] player_rows@[i]).inventory_as_ids@.len() <= u32::MAX,
            k > 0 ==> counts_wf(previous@),
            k > 0 ==> forall|d: i32| #[trigger] listed_count(previous@, d) == spec_count(*index, player_rows@[k - 1].inventory_as_ids@, d),
            out@.len() == snapshot_rows(*index, player_rows@, k as int).len(),
            forall|j: int| 0 <= j < out@.len() ==> snapshot_matches(#[trigger] out@[j], *index, player_rows@, snapshot_rows(*index, player_rows@, k as int)[j]),
        decreases player_rows.len() - k,
    {
        let row = &player_rows[k];
        let counts = inventory_counts(index, &row.inventory_as_ids);
        let unchanged = k != 0 && same_counts(&previous, &counts);
        proof {
            if k > 0 {
                if unchanged {
                    assert forall|d: i32| spec_count(*index, player_rows@[k as int].inventory_as_ids@, d) == spec_count(*index, player_rows@[k - 1].inventory_as_ids@, d) by {
                        assert(listed_count(counts@, d) == listed_count(previous@, d));
                    }
                    assert(!inventory_changes_at(*index, player_rows@, k as int));
                } else {
                    if !inventory_changes_at(*index, player_rows@, k as int) {
                        assert forall|d: i32| #[trigger] listed_count(previous@, d) == listed_count(counts@, d) by {
                            assert(spec_count(*index, player_rows@[k as int].inventory_as_ids@, d) == spec_count(*index, player_rows@[k - 1].inventory_as_ids@, d));
                        }
                        lemma_counts_equal(previous@, counts@);
                    }
                    assert(inventory_changes_at(*index, player_rows@, k as int));
                }
            }
        }
        let ghost pre = snapshot_rows(*index, player_rows@, k as int);
        if !unchanged {
            let tick_index = tick_index_for_event(player_rows, row.tick);
            let kept = match &counts {
                c => {
                    let mut copy: Vec<ReplayInventoryItemCount> = Vec::new();
                    let mut q: usize = 0;
                    while q < c.len()
                        invariant
                            q <= c@.len(),
                            copy@ == c@.subrange(0, q as int),
                        decreases c.len() - q,
                    {
                        copy.push(c[q]);
                        proof {
                            assert(copy@ =~= c@.subrange(0, q + 1));
                        }
                        q = q + 1;
                    }
                    proof {
                        assert(copy@ =~= c@);
                    }
                    copy
                },
            };
            match tick_index {
                Some(t) => {
                    let snapshot = ReplayInventorySnapshot {
                        tick_index: t,
                        tick: row.tick,
                        steam_id: row.steam_id,
                        weapon_def_counts: kept,
                        active_weapon_def_index: index.normalize_weapon_def_index(row.item_def_idx),
                        armor_value: row.armor_value,
                        has_helmet: row.has_helmet,
                        has_defuser: row.has_defuser,
                    };
                    out.push(snapshot);
                    proof {
                        let now = snapshot_rows(*index, player_rows@, k + 1);
                        assert(now == pre.push(k as int));
                        assert forall|j: int| 0 <= j < out@.len() implies snapshot_matches(#[trigger] out@[j], *index, player_rows@, now[j]) by {
                            if j < pre.len() {
                                assert(now[j] == pre[j]);
                            }
                        }
                    }
                },
                None => {
                    proof {
                        assert(false);
                    }
                },
            }
        }
        previous = counts;
        k = k + 1;
    }
    out
}


// ---------------------------------------------------------------------------
// Each player's live rows
// ---------------------------------------------------------------------------

/// A row of living player `steam`.
pub open spec fn live_row(r: RoundRow, steam: u64) -> bool {
    steam != 0 && r.steam_id == steam && r.is_alive
}

/// `l` lists the live rows of `steam` among the first `k` rows by ascending
/// tick, one per tick: the first row at that tick.
pub open spec fn listing_upto(l: Seq<usize>, rows: Seq<RoundRow>, steam: u64, k: int) -> bool {
    &&& forall|j: int| 0 <= j < l.len() ==> (#[trigger] l[j]) < k
    &&& forall|a: int, b: int| 0 <= a < b < l.len() ==> rows[#[trigger] l[a] as int].tick < rows[#[trigger] l[b] as int].tick
    &&& forall|j: int| 0 <= j < l.len() ==> live_row(rows[#[trigger] l[j] as int], steam) && forall|i: int| 0 <= i < l[j] ==> !(live_row(#[trigger] rows[i], steam) && rows[i].tick == rows[l[j] as int].tick)
    &&& forall|i: int| 0 <= i < k && live_row(#[trigger] rows[i], steam) ==> exists|j: int| 0 <= j < l.len() && rows[#[trigger] l[j] as int].tick == rows[i].tick
}

/// `l` lists the live rows of `steam` by ascending tick, one per tick: the
/// first row at that tick.
pub open spec fn live_listing(l: Seq<usize>, rows: Seq<RoundRow>, steam: u64) -> bool {
    listing_upto(l, rows, steam, rows.len() as int)
}

proof fn lemma_listing_skip(l: Seq<usize>, rows: Seq<RoundRow>, steam: u64, k: int)
    requires
        0 <= k < rows.len(),
        listing_upto(l, rows, steam, k),
        !live_row(rows[k], steam),
    ensures
        listing_upto(l, rows, steam, k + 1),
{
}

proof fn lemma_listing_dup(l: Seq<usize>, rows: Seq<RoundRow>, steam: u64, k: int, p: int)
    requires
        0 <= k < rows.len(),
        listing_upto(l, rows, steam, k),
        0 <= p < l.len(),
        rows[l[p] as int].tick == rows[k].tick,
    ensures
        listing_upto(l, rows, steam, k + 1),
{
    assert forall|i: int| 0 <= i < k + 1 && live_row(#[trigger] rows[i], steam) implies exists|j: int| 0 <= j < l.len() && rows[#[trigger] l[j] as int].tick == rows[i].tick by {
        if i == k {
            assert(rows[l[p] as int].tick == rows[i].tick);
        }
    }
}

proof fn lemma_listing_insert_order(l: Seq<usize>, rows: Seq<RoundRow>, p: int, k: usize)
    requires
        0 <= k < rows.len(),
        0 <= p <= l.len(),
        forall|j: int| 0 <= j < l.len() ==> (#[trigger] l[j]) < k,
        forall|a: int, b: int| 0 <= a < b < l.len() ==> rows[#[trigger] l[a] as int].tick < rows[#[trigger] l[b] as int].tick,
        forall|a: int| 0 <= a < p ==> rows[l[a] as int].tick < rows[k as int].tick,
        p < l.len() ==> rows[l[p] as int].tick > rows[k as int].tick,
    ensures
        forall|a: int, b: int| 0 <= a < b < l.insert(p, k).len() ==> rows[#[trigger] l.insert(p, k)[a] as int].tick < rows[#[trigger] l.insert(p, k)[b] as int].tick,
        forall|j: int| 0 <= j < l.insert(p, k).len() ==> (#[trigger] l.insert(p, k)[j]) < k + 1,
{
    let n = l.insert(p, k);
    assert forall|a: int, b: int| 0 <= a < b < n.len() implies rows[#[trigger] n[a] as int].tick < rows[#[trigger] n[b] as int].tick by {
        if b < p {
        } else if a < p && b == p {
        } else if a < p {
            assert(n[b] == l[b - 1]);
            if a < b - 1 {
                assert(rows[l[a] as int].tick < rows[l[b - 1] as int].tick);
            }
        } else if a == p {
            assert(n[b] == l[b - 1]);
            if b - 1 > p {
                assert(rows[l[p] as int].tick < rows[l[b - 1] as int].tick);
            }
        } else {
            assert(n[a] == l[a - 1]);
            assert(n[b] == l[b - 1]);
        }
    }
    assert forall|j: int| 0 <= j < n.len() implies (#[trigger] n[j]) < k + 1 by {
        if j < p {
            assert(n[j] == l[j]);
        } else if j > p {
            assert(n[j] == l[j - 1]);
        }
    }
}

#[verifier::rlimit(40)]
proof fn lemma_listing_insert(l: Seq<usize>, rows: Seq<RoundRow>, steam: u64, k: usize, p: int)
    requires
        0 <= k < rows.len(),
        listing_upto(l, rows, steam, k as int),
        live_row(rows[k as int], steam),
        0 <= p <= l.len(),
        forall|a: int| 0 <= a < p ==> rows[l[a] as int].tick < rows[k as int].tick,
        p < l.len() ==> rows[l[p] as int].tick > rows[k as int].tick,
        forall|j: int| 0 <= j < l.len() ==> rows[l[j] as int].tick != rows[k as int].tick,
    ensures
        listing_upto(l.insert(p, k), rows, steam, k + 1),
{
    let t = rows[k as int].tick;
    let n = l.insert(p, k);
    lemma_listing_insert_order(l, rows, p, k);
    assert forall|j: int| 0 <= j < n.len() implies live_row(rows[#[trigger] n[j] as int], steam) && forall|i: int| 0 <= i < n[j] ==> !(live_row(#[trigger] rows[i], steam) && rows[i].tick == rows[n[j] as int].tick) by {
        if j < p {
            assert(n[j] == l[j]);
        } else if j > p {
            assert(n[j] == l[j - 1]);
        } else {
            assert forall|i: int| 0 <= i < k implies !(live_row(#[trigger] rows[i], steam) && rows[i].tick == t) by {
                if live_row(rows[i], steam) && rows[i].tick == t {
                    let q = choose|q: int| 0 <= q < l.len() && rows[#[trigger] l[q] as int].tick == rows[i].tick;
                }
            }
        }
    }
    assert forall|i: int| 0 <= i < k + 1 && live_row(#[trigger] rows[i], steam) implies exists|j: int| 0 <= j < n.len() && rows[#[trigger] n[j] as int].tick == rows[i].tick by {
        if i == k {
            assert(n[p] == k);
        } else {
            let q = choose|q: int| 0 <= q < l.len() && rows[#[trigger] l[q] as int].tick == rows[i].tick;
            if q < p {
                assert(n[q] == l[q]);
            } else {
                assert(n[q + 1] == l[q]);
            }
        }
    }
}

/// The live rows of one player, by ascending tick, the first row of each tick.
pub fn player_live_rows(rows: &[RoundRow], steam: u64) -> (r: Vec<usize>)
    ensures
        live_listing(r@, rows@, steam),
{
    let mut l: Vec<usize> = Vec::new();
    let mut k: usize = 0;
    while k < rows.len()
        invariant
            k <= rows@.len(),
            listing_upto(l@, rows@, steam, k as int),
        decreases rows.len() - k,
    {
        let row = &rows[k];
        if steam != 0 && row.steam_id == steam && row.is_alive {
            let t = row.tick;
            let mut p: usize = 0;
            while p < l.len() && rows[l[p]].tick < t
                invariant
                    p <= l@.len(),
                    k < rows@.len(),
                    listing_upto(l@, rows@, steam, k as int),
                    forall|a: int| 0 <= a < p ==> rows@[l@[a] as int].tick < t,
                decreases l.len() - p,
            {
                p = p + 1;
            }
            if p < l.len() && rows[l[p]].tick == t {
                proof {
                    lemma_listing_dup(l@, rows@, steam, k as int, p as int);
                }
            } else {
                proof {
                    if p < l@.len() {
                        assert(rows@[l@[p as int] as int].tick > t);
                    }
                    assert forall|j: int| 0 <= j < l@.len() implies rows@[l@[j] as int].tick != t by {
                        if j > p {
                            assert(rows@[l@[p as int] as int].tick < rows@[l@[j] as int].tick);
                        }
                    }
                    lemma_listing_insert(l@, rows@, steam, k, p as int);
                }
                l.insert(p, k);
            }
        } else {
            proof {
                lemma_listing_skip(l@, rows@, steam, k as int);
            }
        }
        k = k + 1;
    }
    l
}


// ---------------------------------------------------------------------------
// Inventory changes
// ---------------------------------------------------------------------------

/// Who threw a grenade, which, and when.
#[derive(Clone, Copy, Debug)]
pub struct ThrownProjectile {
    pub steam_id: u64,
    pub weapon_def_index: i32,
    pub tick: i32,
}

/// One item a player lost or gained, with the count held afterwards.
#[derive(Clone, Debug)]
pub struct InventoryChange {
    pub tick: i32,
    pub steam_id: u64,
    pub weapon_def_index: i32,
    pub count_after: u32,
    pub item_name: Option<String>,
    pub paired_steam_id: Option<u64>,
}

/// Utility (grenades), whose drops and pickups the replay records.
pub open spec fn utility_def(index: Cs2LibEconIndex, def: i32) -> bool {
    index.spec_slot(index.spec_normalize(def)) == Some(ReplayEquipmentSlot::Utility)
}

/// The player threw that grenade within 16 ticks of `tick`.
pub open spec fn spec_consumed(index: Cs2LibEconIndex, projectiles: Seq<ThrownProjectile>, steam: u64, def: i32, tick: i32) -> bool {
    exists|i: int| 0 <= i < projectiles.len() && (#[trigger] projectiles[i]).steam_id == steam && index.spec_normalize(projectiles[i].weapon_def_index) == def && -16 <= projectiles[i].tick - tick <= 16
}

/// The projectile's tick difference can be taken (and negated) in `i32`.
pub open spec fn tick_gaps_fit(index: Cs2LibEconIndex, projectiles: Seq<ThrownProjectile>, steam: u64, def: i32, tick: i32) -> bool {
    forall|i: int| 0 <= i < projectiles.len() && (#[trigger] projectiles[i]).steam_id == steam && index.spec_normalize(projectiles[i].weapon_def_index) == def ==> i32::MIN < projectiles[i].tick - tick <= i32::MAX
}

pub fn projectile_consumed_inventory(
    index: &Cs2LibEconIndex,
    projectiles: &[ThrownProjectile],
    steam_id: u64,
    weapon_def_index: i32,
    tick: i32,
) -> (r: bool)
    requires
        tick_gaps_fit(*index, projectiles@, steam_id, weapon_def_index, tick),
    ensures
        r == spec_consumed(*index, projectiles@, steam_id, weapon_def_index, tick),
{
    let mut i: usize = 0;
    while i < projectiles.len()
        invariant
            i <= projectiles@.len(),
            tick_gaps_fit(*index, projectiles@, steam_id, weapon_def_index, tick),
            forall|j: int| 0 <= j < i ==> !((#[trigger] projectiles@[j]).steam_id == steam_id && index.spec_normalize(projectiles@[j].weapon_def_index) == weapon_def_index && -16 <= projectiles@[j].tick - tick <= 16),
        decreases projectiles.len() - i,
    {
        let p = projectiles[i];
        if p.steam_id == steam_id && index.normalize_weapon_def_index(p.weapon_def_index) == weapon_def_index {
            let gap = p.tick - tick;
            let distance = if gap < 0 {
                -gap
            } else {
                gap
            };
            if distance <= 16 {
                return true;
            }
        }
        i = i + 1;
    }
    false
}

/// Row `i` is the first row of living player `steam` at its tick.
pub open spec fn first_of_tick(rows: Seq<RoundRow>, steam: u64, i: int) -> bool {
    forall|m: int| 0 <= m < i ==> !(live_row(#[trigger] rows[m], steam) && rows[m].tick == rows[i].tick)
}

/// Rows `i` and `k` are consecutive live rows of `steam` (one per tick).
pub open spec fn consecutive_live(rows: Seq<RoundRow>, steam: u64, i: int, k: int) -> bool {
    &&& 0 <= i < rows.len()
    &&& 0 <= k < rows.len()
    &&& live_row(rows[i], steam)
    &&& live_row(rows[k], steam)
    &&& rows[i].tick < rows[k].tick
    &&& first_of_tick(rows, steam, i)
    &&& first_of_tick(rows, steam, k)
    &&& forall|m: int| 0 <= m < rows.len() && live_row(#[trigger] rows[m], steam) ==> !(rows[i].tick < rows[m].tick < rows[k].tick)
}

proof fn lemma_listing_consecutive(l: Seq<usize>, rows: Seq<RoundRow>, steam: u64, j: int)
    requires
        live_listing(l, rows, steam),
        1 <= j < l.len(),
    ensures
        consecutive_live(rows, steam, l[j - 1] as int, l[j] as int),
{
    let i = l[j - 1] as int;
    let k = l[j] as int;
    assert(rows[l[j - 1] as int].tick < rows[l[j] as int].tick);
    assert forall|m: int| 0 <= m < rows.len() && live_row(#[trigger] rows[m], steam) implies !(rows[i].tick < rows[m].tick < rows[k].tick) by {
        let q = choose|q: int| 0 <= q < l.len() && rows[#[trigger] l[q] as int].tick == rows[m].tick;
        if q < j - 1 {
            assert(rows[l[q] as int].tick < rows[l[j - 1] as int].tick);
        } else if q > j {
            assert(rows[l[j] as int].tick < rows[l[q] as int].tick);
        }
    }
}

proof fn lemma_listed_first(l: Seq<usize>, rows: Seq<RoundRow>, steam: u64, k: int) -> (q: int)
    requires
        live_listing(l, rows, steam),
        0 <= k < rows.len(),
        live_row(rows[k], steam),
        first_of_tick(rows, steam, k),
    ensures
        0 <= q < l.len(),
        l[q] == k,
{
    let q = choose|q: int| 0 <= q < l.len() && rows[#[trigger] l[q] as int].tick == rows[k].tick;
    let lq = l[q] as int;
    assert(live_row(rows[lq], steam));
    if lq < k {
        assert(!(live_row(rows[lq], steam) && rows[lq].tick == rows[k].tick));
    } else if lq > k {
        assert(!(live_row(rows[k], steam) && rows[k].tick == rows[lq].tick));
    }
    q
}

proof fn lemma_consecutive_listed(l: Seq<usize>, rows: Seq<RoundRow>, steam: u64, i: int, k: int) -> (j: int)
    requires
        live_listing(l, rows, steam),
        consecutive_live(rows, steam, i, k),
    ensures
        1 <= j < l.len(),
        l[j - 1] == i,
        l[j] == k,
{
    let p = lemma_listed_first(l, rows, steam, i);
    let q = lemma_listed_first(l, rows, steam, k);
    if q <= p {
        if q < p {
            assert(rows[l[q] as int].tick < rows[l[p] as int].tick);
        }
    }
    if p < q - 1 {
        assert(rows[l[p] as int].tick < rows[l[q - 1] as int].tick);
        assert(rows[l[q - 1] as int].tick < rows[l[q] as int].tick);
        assert(live_row(rows[l[q - 1] as int], steam));
    }
    q
}

/// Player `steam` holds fewer of grenade `def` at row `k` than at the live
/// row before, in the tick range.
pub open spec fn drop_candidate(
    index: Cs2LibEconIndex,
    rows: Seq<RoundRow>,
    steam: u64,
    i: int,
    k: int,
    def: i32,
    start_tick: i32,
    end_tick: i32,
) -> bool {
    &&& consecutive_live(rows, steam, i, k)
    &&& start_tick <= rows[k].tick <= end_tick
    &&& spec_count(index, rows[i].inventory_as_ids@, def) > 0
    &&& utility_def(index, def)
    &&& spec_count(index, rows[k].inventory_as_ids@, def) < spec_count(index, rows[i].inventory_as_ids@, def)
}

/// A drop at row `k`'s tick: a loss the player did not throw within 16 ticks.
pub open spec fn drop_at(
    index: Cs2LibEconIndex,
    projectiles: Seq<ThrownProjectile>,
    rows: Seq<RoundRow>,
    steam: u64,
    i: int,
    k: int,
    def: i32,
    start_tick: i32,
    end_tick: i32,
) -> bool {
    drop_candidate(index, rows, steam, i, k, def, start_tick, end_tick) && !spec_consumed(index, projectiles, steam, def, rows[k].tick)
}

pub type ChangeKey = (i32, u64, i32);

pub open spec fn change_key(c: InventoryChange) -> ChangeKey {
    (c.tick, c.steam_id, c.weapon_def_index)
}

pub open spec fn change_key_lt(a: ChangeKey, b: ChangeKey) -> bool {
    a.0 < b.0 || (a.0 == b.0 && (a.1 < b.1 || (a.1 == b.1 && a.2 < b.2)))
}

pub open spec fn changes_sorted(cs: Seq<InventoryChange>) -> bool {
    forall|a: int, b: int| 0 <= a < b < cs.len() ==> change_key_lt(change_key(#[trigger] cs[a]), change_key(#[trigger] cs[b]))
}

pub open spec fn lists_change(cs: Seq<InventoryChange>, k: ChangeKey) -> bool {
    exists|i: int| 0 <= i < cs.len() && change_key(#[trigger] cs[i]) == k
}

/// Adds a change unless one with its key is listed, keeping the order.
fn insert_change(out: &mut Vec<InventoryChange>, c: InventoryChange)
    requires
        changes_sorted(old(out)@),
    ensures
        changes_sorted(final(out)@),
        forall|k: ChangeKey| #[trigger] lists_change(final(out)@, k) <==> (lists_change(old(out)@, k) || k == change_key(c)),
        forall|i: int| 0 <= i < final(out)@.len() ==> (#[trigger] final(out)@[i] == c || exists|j: int| 0 <= j < old(out)@.len() && old(out)@[j] == final(out)@[i]),
        forall|j: int| 0 <= j < old(out)@.len() ==> exists|i: int| 0 <= i < final(out)@.len() && #[trigger] old(out)@[j] == final(out)@[i],
        lists_change(old(out)@, change_key(c)) ==> final(out)@ == old(out)@,
{
    let ghost ck = change_key(c);
    let mut p: usize = 0;
    while p < out.len() && (out[p].tick < c.tick || (out[p].tick == c.tick && (out[p].steam_id < c.steam_id || (
    out[p].steam_id == c.steam_id && out[p].weapon_def_index < c.weapon_def_index))))
        invariant
            p <= out@.len(),
            ck == change_key(c),
            forall|a: int| 0 <= a < p ==> change_key_lt(change_key(#[trigger] out@[a]), ck),
        decreases out.len() - p,
    {
        p = p + 1;
    }
    if p < out.len() && out[p].tick == c.tick && out[p].steam_id == c.steam_id && out[p].weapon_def_index == c.weapon_def_index {
        proof {
            assert forall|k: ChangeKey| #[trigger] lists_change(out@, k) <==> (lists_change(out@, k) || k == ck) by {
                if k == ck {
                    assert(change_key(out@[p as int]) == k);
                }
            }
            assert forall|i: int| 0 <= i < out@.len() implies (#[trigger] out@[i] == c || exists|j: int| 0 <= j < out@.len() && out@[j] == out@[i]) by {
                assert(out@[i] == out@[i]);
            }
            assert forall|j: int| 0 <= j < out@.len() implies exists|i: int| 0 <= i < out@.len() && #[trigger] out@[j] == out@[i] by {
                assert(out@[j] == out@[j]);
            }
        }
        return;
    }
    let ghost before = out@;
    proof {
        if lists_change(before, ck) {
            let i = choose|i: int| 0 <= i < before.len() && change_key(#[trigger] before[i]) == ck;
            if i < p {
                assert(change_key_lt(change_key(before[i]), ck));
            } else if i > p {
                assert(change_key_lt(change_key(before[p as int]), change_key(before[i])));
                assert(!change_key_lt(change_key(before[p as int]), ck));
            }
            assert(false);
        }
    }
    out.insert(p, c);
    proof {
        assert forall|a: int, b: int| 0 <= a < b < out@.len() implies change_key_lt(change_key(#[trigger] out@[a]), change_key(#[trigger] out@[b])) by {
            if b < p {
            } else if a < p && b == p {
            } else if a < p {
                assert(out@[b] == before[b - 1]);
                if a < b - 1 {
                    assert(change_key_lt(change_key(before[a]), change_key(before[b - 1])));
                }
            } else if a == p {
                assert(out@[b] == before[b - 1]);
                if b - 1 > p {
                    assert(change_key_lt(change_key(before[p as int]), change_key(before[b - 1])));
                }
            } else {
                assert(out@[a] == before[a - 1]);
                assert(out@[b] == before[b - 1]);
            }
        }
        assert forall|k: ChangeKey| #[trigger] lists_change(out@, k) <==> (lists_change(before, k) || k == ck) by {
            if lists_change(out@, k) {
                let i = choose|i: int| 0 <= i < out@.len() && change_key(#[trigger] out@[i]) == k;
                if i < p {
                    assert(before[i] == out@[i]);
                } else if i > p {
                    assert(before[i - 1] == out@[i]);
                }
            }
            if lists_change(before, k) {
                let i = choose|i: int| 0 <= i < before.len() && change_key(#[trigger] before[i]) == k;
                if i < p {
                    assert(out@[i] == before[i]);
                } else {
                    assert(out@[i + 1] == before[i]);
                }
            }
            if k == ck {
                assert(out@[p as int] == c);
            }
        }
        assert forall|i: int| 0 <= i < out@.len() implies (#[trigger] out@[i] == c || exists|j: int| 0 <= j < before.len() && before[j] == out@[i]) by {
            if i < p {
                assert(before[i] == out@[i]);
            } else if i > p {
                assert(before[i - 1] == out@[i]);
            }
        }
        assert forall|j: int| 0 <= j < before.len() implies exists|i: int| 0 <= i < out@.len() && #[trigger] before[j] == out@[i] by {
            if j < p {
                assert(out@[j] == before[j]);
            } else {
                assert(out@[j + 1] == before[j]);
            }
        }
    }
}

/// The players with live rows, each once.
fn live_players(rows: &[RoundRow]) -> (r: Vec<u64>)
    ensures
        forall|a: int, b: int| 0 <= a < b < r@.len() ==> #[trigger] r@[a] != #[trigger] r@[b],
        forall|s: u64| r@.contains(s) <==> exists|k: int| 0 <= k < rows@.len() && live_row(#[trigger] rows@[k], s),
{
    let mut out: Vec<u64> = Vec::new();
    let mut k: usize = 0;
    while k < rows.len()
        invariant
            k <= rows@.len(),
            forall|a: int, b: int| 0 <= a < b < out@.len() ==> #[trigger] out@[a] != #[trigger] out@[b],
            forall|s: u64| out@.contains(s) <==> exists|j: int| 0 <= j < k && live_row(#[trigger] rows@[j], s),
        decreases rows.len() - k,
    {
        let s = rows[k].steam_id;
        if s != 0 && rows[k].is_alive {
            let mut seen = false;
            let mut q: usize = 0;
            while q < out.len()
                invariant
                    q <= out@.len(),
                    seen <==> exists|a: int| 0 <= a < q && out@[a] == s,
                decreases out.len() - q,
            {
                if out[q] == s {
                    seen = true;
                }
                q = q + 1;
            }
            let ghost before = out@;
            if !seen {
                out.push(s);
            }
            proof {
                assert(live_row(rows@[k as int], s));
                assert forall|a: int, b: int| 0 <= a < b < out@.len() implies #[trigger] out@[a] != #[trigger] out@[b] by {
                    if !seen && b == before.len() {
                        assert(out@[a] == before[a]);
                    } else {
                        assert(out@[a] == before[a] && out@[b] == before[b]);
                    }
                }
                assert forall|x: u64| out@.contains(x) <==> exists|j: int| 0 <= j < k + 1 && live_row(#[trigger] rows@[j], x) by {
                    if out@.contains(x) {
                        let a = choose|a: int| 0 <= a < out@.len() && out@[a] == x;
                        if a < before.len() {
                            assert(before[a] == x);
                            assert(before.contains(x));
                        } else {
                            assert(live_row(rows@[k as int], x));
                        }
                    }
                    if exists|j: int| 0 <= j < k + 1 && live_row(#[trigger] rows@[j], x) {
                        let j = choose|j: int| 0 <= j < k + 1 && live_row(#[trigger] rows@[j], x);
                        if j < k {
                            assert(before.contains(x));
                            let a = choose|a: int| 0 <= a < before.len() && before[a] == x;
                            assert(out@[a] == x);
                        } else {
                            assert(x == s);
                            if seen {
                                let a = choose|a: int| 0 <= a < out@.len() && out@[a] == s;
                                assert(out@.contains(x));
                            } else {
                                assert(out@[before.len() as int] == x);
                            }
                        }
                    }
                }
            }
        } else {
            proof {
                assert forall|x: u64| out@.contains(x) <==> exists|j: int| 0 <= j < k + 1 && live_row(#[trigger] rows@[j], x) by {
                    if exists|j: int| 0 <= j < k + 1 && live_row(#[trigger] rows@[j], x) {
                        let j = choose|j: int| 0 <= j < k + 1 && live_row(#[trigger] rows@[j], x);
                        assert(j < k);
                    }
                }
            }
        }
        k = k + 1;
    }
    out
}


/// A drop as the replay records it: at row `k`'s tick, with the count after
/// and the catalog name.
pub open spec fn drop_change_ok(
    c: InventoryChange,
    index: Cs2LibEconIndex,
    projectiles: Seq<ThrownProjectile>,
    rows: Seq<RoundRow>,
    start_tick: i32,
    end_tick: i32,
) -> bool {
    &&& exists|i: int, k: int| #[trigger] drop_at(index, projectiles, rows, c.steam_id, i, k, c.weapon_def_index, start_tick, end_tick) && rows[k].tick == c.tick && c.count_after == spec_count(index, rows[k].inventory_as_ids@, c.weapon_def_index)
    &&& opt_str_view(c.item_name) == spec_item_name(index, c.weapon_def_index)
    &&& c.paired_steam_id is None
}

/// Some drop of player `key.1` of grenade `key.2` at tick `key.0`.
pub open spec fn drop_key(
    index: Cs2LibEconIndex,
    projectiles: Seq<ThrownProjectile>,
    rows: Seq<RoundRow>,
    key: ChangeKey,
    start_tick: i32,
    end_tick: i32,
) -> bool {
    exists|i: int, k: int| #[trigger] drop_at(index, projectiles, rows, key.1, i, k, key.2, start_tick, end_tick) && rows[k].tick == key.0
}

pub open spec fn rows_fit(rows: Seq<RoundRow>) -> bool {
    forall|i: int| 0 <= i < rows.len() ==> (#[trigger] rows[i]).inventory_as_ids@.len() <= u32::MAX
}

/// The projectile gaps of every drop candidate can be taken in `i32`.
pub open spec fn drop_gaps_fit(
    index: Cs2LibEconIndex,
    projectiles: Seq<ThrownProjectile>,
    rows: Seq<RoundRow>,
    start_tick: i32,
    end_tick: i32,
) -> bool {
    forall|s: u64, i: int, k: int, def: i32| #[trigger] drop_candidate(index, rows, s, i, k, def, start_tick, end_tick) ==> tick_gaps_fit(index, projectiles, s, def, rows[k].tick)
}

fn drops_for_pair(
    index: &Cs2LibEconIndex,
    projectiles: &[ThrownProjectile],
    rows: &[RoundRow],
    steam: u64,
    i: usize,
    k: usize,
    start_tick: i32,
    end_tick: i32,
    out: &mut Vec<InventoryChange>,
)
    requires
        consecutive_live(rows@, steam, i as int, k as int),
        rows_fit(rows@),
        drop_gaps_fit(*index, projectiles@, rows@, start_tick, end_tick),
        changes_sorted(old(out)@),
        forall|q: int| 0 <= q < old(out)@.len() ==> drop_change_ok(#[trigger] old(out)@[q], *index, projectiles@, rows@, start_tick, end_tick),
    ensures
        changes_sorted(final(out)@),
        forall|q: int| 0 <= q < final(out)@.len() ==> drop_change_ok(#[trigger] final(out)@[q], *index, projectiles@, rows@, start_tick, end_tick),
        forall|key: ChangeKey| #[trigger] lists_change(final(out)@, key) <==> (lists_change(old(out)@, key) || (key.0 == rows@[k as int].tick && key.1 == steam && drop_at(*index, projectiles@, rows@, steam, i as int, k as int, key.2, start_tick, end_tick))),
{
    let tick = rows[k].tick;
    if tick < start_tick || tick > end_tick {
        return;
    }
    let prev_counts = inventory_counts(index, &rows[i].inventory_as_ids);
    let cur_counts = inventory_counts(index, &rows[k].inventory_as_ids);
    let ghost first = out@;
    let mut e: usize = 0;
    while e < prev_counts.len()
        invariant
            e <= prev_counts@.len(),
            consecutive_live(rows@, steam, i as int, k as int),
            tick == rows@[k as int].tick,
            start_tick <= tick <= end_tick,
            drop_gaps_fit(*index, projectiles@, rows@, start_tick, end_tick),
            counts_wf(prev_counts@),
            forall|d: i32| #[trigger] listed_count(prev_counts@, d) == spec_count(*index, rows@[i as int].inventory_as_ids@, d),
            counts_wf(cur_counts@),
            forall|d: i32| #[trigger] listed_count(cur_counts@, d) == spec_count(*index, rows@[k as int].inventory_as_ids@, d),
            changes_sorted(out@),
            forall|q: int| 0 <= q < out@.len() ==> drop_change_ok(#[trigger] out@[q], *index, projectiles@, rows@, start_tick, end_tick),
            forall|key: ChangeKey| #[trigger] lists_change(out@, key) <==> (lists_change(first, key) || (key.0 == tick && key.1 == steam && drop_at(*index, projectiles@, rows@, steam, i as int, k as int, key.2, start_tick, end_tick) && exists|q: int| 0 <= q < e && prev_counts@[q].weapon_def_index == key.2)),
        decreases prev_counts.len() - e,
    {
        let def = prev_counts[e].weapon_def_index;
        let pc = prev_counts[e].count;
        proof {
            lemma_listed_at(prev_counts@, e as int);
        }
        let ghost before = out@;
        let mut added = false;
        if index.is_replay_equipment_event_def(def) {
            let cc = count_of(&cur_counts, def);
            if cc < pc {
                proof {
                    assert(drop_candidate(*index, rows@, steam, i as int, k as int, def, start_tick, end_tick));
                }
                if !projectile_consumed_inventory(index, projectiles, steam, def, tick) {
                    let c = InventoryChange {
                        tick,
                        steam_id: steam,
                        weapon_def_index: def,
                        count_after: cc,
                        item_name: item_name_of(index, def),
                        paired_steam_id: None,
                    };
                    proof {
                        assert(drop_at(*index, projectiles@, rows@, c.steam_id, i as int, k as int, c.weapon_def_index, start_tick, end_tick));
                        assert(rows@[k as int].tick == c.tick);
                        assert(c.count_after == spec_count(*index, rows@[k as int].inventory_as_ids@, c.weapon_def_index));
                        assert(opt_str_view(c.item_name) == spec_item_name(*index, c.weapon_def_index));
                        assert(drop_change_ok(c, *index, projectiles@, rows@, start_tick, end_tick));
                    }
                    insert_change(out, c);
                    added = true;
                    proof {
                        assert forall|q: int| 0 <= q < out@.len() implies drop_change_ok(#[trigger] out@[q], *index, projectiles@, rows@, start_tick, end_tick) by {
                            if out@[q] != c {
                                let j = choose|j: int| 0 <= j < before.len() && before[j] == out@[q];
                                assert(drop_change_ok(before[j], *index, projectiles@, rows@, start_tick, end_tick));
                            }
                        }
                    }
                }
            }
        }
        proof {
            assert forall|key: ChangeKey| #[trigger] lists_change(out@, key) <==> (lists_change(first, key) || (key.0 == tick && key.1 == steam && drop_at(*index, projectiles@, rows@, steam, i as int, k as int, key.2, start_tick, end_tick) && exists|q: int| 0 <= q < e + 1 && prev_counts@[q].weapon_def_index == key.2)) by {
                assert(lists_change(before, key) <==> (lists_change(first, key) || (key.0 == tick && key.1 == steam && drop_at(*index, projectiles@, rows@, steam, i as int, k as int, key.2, start_tick, end_tick) && exists|q: int| 0 <= q < e && prev_counts@[q].weapon_def_index == key.2)));
                if key.0 == tick && key.1 == steam && drop_at(*index, projectiles@, rows@, steam, i as int, k as int, key.2, start_tick, end_tick) && exists|q: int| 0 <= q < e + 1 && prev_counts@[q].weapon_def_index == key.2 {
                    let q = choose|q: int| 0 <= q < e + 1 && prev_counts@[q].weapon_def_index == key.2;
                    if q == e {
                        assert(key.2 == def);
                        assert(added);
                    }
                }
            }
        }
        e = e + 1;
    }
    proof {
        assert forall|key: ChangeKey| #[trigger] lists_change(out@, key) <==> (lists_change(first, key) || (key.0 == rows@[k as int].tick && key.1 == steam && drop_at(*index, projectiles@, rows@, steam, i as int, k as int, key.2, start_tick, end_tick))) by {
            if key.0 == tick && key.1 == steam && drop_at(*index, projectiles@, rows@, steam, i as int, k as int, key.2, start_tick, end_tick) {
                assert(listed_count(prev_counts@, key.2) > 0);
                let q = choose|q: int| 0 <= q < prev_counts@.len() && #[trigger] prev_counts@[q].weapon_def_index == key.2;
            }
        }
    }
}


fn drops_for_player(
    index: &Cs2LibEconIndex,
    projectiles: &[ThrownProjectile],
    rows: &[RoundRow],
    steam: u64,
    start_tick: i32,
    end_tick: i32,
    out: &mut Vec<InventoryChange>,
)
    requires
        rows_fit(rows@),
        drop_gaps_fit(*index, projectiles@, rows@, start_tick, end_tick),
        changes_sorted(old(out)@),
        forall|q: int| 0 <= q < old(out)@.len() ==> drop_change_ok(#[trigger] old(out)@[q], *index, projectiles@, rows@, start_tick, end_tick),
    ensures
        changes_sorted(final(out)@),
        forall|q: int| 0 <= q < final(out)@.len() ==> drop_change_ok(#[trigger] final(out)@[q], *index, projectiles@, rows@, start_tick, end_tick),
        forall|key: ChangeKey| #[trigger] lists_change(final(out)@, key) <==> (lists_change(old(out)@, key) || (key.1 == steam && drop_key(*index, projectiles@, rows@, key, start_tick, end_tick))),
{
    let l = player_live_rows(rows, steam);
    let ghost first = out@;
    if l.len() < 2 {
        proof {
            assert forall|key: ChangeKey| #[trigger] lists_change(out@, key) <==> (lists_change(first, key) || (key.1 == steam && drop_key(*index, projectiles@, rows@, key, start_tick, end_tick))) by {
                if key.1 == steam && drop_key(*index, projectiles@, rows@, key, start_tick, end_tick) {
                    let (i, k) = choose|i: int, k: int| #[trigger] drop_at(*index, projectiles@, rows@, key.1, i, k, key.2, start_tick, end_tick) && rows@[k].tick == key.0;
                    let j = lemma_consecutive_listed(l@, rows@, steam, i, k);
                }
            }
        }
        return;
    }
    let mut j: usize = 1;
    while j < l.len()
        invariant
            1 <= j <= l@.len(),
            live_listing(l@, rows@, steam),
            rows_fit(rows@),
            drop_gaps_fit(*index, projectiles@, rows@, start_tick, end_tick),
            changes_sorted(out@),
            forall|q: int| 0 <= q < out@.len() ==> drop_change_ok(#[trigger] out@[q], *index, projectiles@, rows@, start_tick, end_tick),
            forall|key: ChangeKey| #[trigger] lists_change(out@, key) <==> (lists_change(first, key) || (key.1 == steam && exists|q: int| 1 <= q < j && #[trigger] drop_at(*index, projectiles@, rows@, steam, l@[q - 1] as int, l@[q] as int, key.2, start_tick, end_tick) && rows@[l@[q] as int].tick == key.0)),
        decreases l.len() - j,
    {
        proof {
            lemma_listing_consecutive(l@, rows@, steam, j as int);
        }
        let ghost before = out@;
        drops_for_pair(index, projectiles, rows, steam, l[j - 1], l[j], start_tick, end_tick, out);
        proof {
            assert forall|key: ChangeKey| #[trigger] lists_change(out@, key) <==> (lists_change(first, key) || (key.1 == steam && exists|q: int| 1 <= q < j + 1 && #[trigger] drop_at(*index, projectiles@, rows@, steam, l@[q - 1] as int, l@[q] as int, key.2, start_tick, end_tick) && rows@[l@[q] as int].tick == key.0)) by {
                assert(lists_change(before, key) <==> (lists_change(first, key) || (key.1 == steam && exists|q: int| 1 <= q < j && #[trigger] drop_at(*index, projectiles@, rows@, steam, l@[q - 1] as int, l@[q] as int, key.2, start_tick, end_tick) && rows@[l@[q] as int].tick == key.0)));
                if key.1 == steam && exists|q: int| 1 <= q < j + 1 && #[trigger] drop_at(*index, projectiles@, rows@, steam, l@[q - 1] as int, l@[q] as int, key.2, start_tick, end_tick) && rows@[l@[q] as int].tick == key.0 {
                    let q = choose|q: int| 1 <= q < j + 1 && #[trigger] drop_at(*index, projectiles@, rows@, steam, l@[q - 1] as int, l@[q] as int, key.2, start_tick, end_tick) && rows@[l@[q] as int].tick == key.0;
                    if q < j {
                        assert(exists|q: int| 1 <= q < j && #[trigger] drop_at(*index, projectiles@, rows@, steam, l@[q - 1] as int, l@[q] as int, key.2, start_tick, end_tick) && rows@[l@[q] as int].tick == key.0);
                    }
                }
            }
        }
        j = j + 1;
    }
    proof {
        assert forall|key: ChangeKey| #[trigger] lists_change(out@, key) <==> (lists_change(first, key) || (key.1 == steam && drop_key(*index, projectiles@, rows@, key, start_tick, end_tick))) by {
            if key.1 == steam && drop_key(*index, projectiles@, rows@, key, start_tick, end_tick) {
                let (i, k) = choose|i: int, k: int| #[trigger] drop_at(*index, projectiles@, rows@, key.1, i, k, key.2, start_tick, end_tick) && rows@[k].tick == key.0;
                let q = lemma_consecutive_listed(l@, rows@, steam, i, k);
                assert(drop_at(*index, projectiles@, rows@, steam, l@[q - 1] as int, l@[q] as int, key.2, start_tick, end_tick));
            }
            if key.1 == steam && exists|q: int| 1 <= q < l@.len() && #[trigger] drop_at(*index, projectiles@, rows@, steam, l@[q - 1] as int, l@[q] as int, key.2, start_tick, end_tick) && rows@[l@[q] as int].tick == key.0 {
                let q = choose|q: int| 1 <= q < l@.len() && #[trigger] drop_at(*index, projectiles@, rows@, steam, l@[q - 1] as int, l@[q] as int, key.2, start_tick, end_tick) && rows@[l@[q] as int].tick == key.0;
                assert(drop_at(*index, projectiles@, rows@, key.1, l@[q - 1] as int, l@[q] as int, key.2, start_tick, end_tick));
            }
        }
    }
}

/// The grenades the players dropped in the tick range: every loss between
/// consecutive live rows that no throw explains, each once, ordered by tick,
/// player and grenade.
pub fn inferred_inventory_drops(
    index: &Cs2LibEconIndex,
    projectiles: &[ThrownProjectile],
    start_tick: i32,
    end_tick: i32,
    round_rows: &[RoundRow],
) -> (r: Vec<InventoryChange>)
    requires
        rows_fit(round_rows@),
        drop_gaps_fit(*index, projectiles@, round_rows@, start_tick, end_tick),
    ensures
        changes_sorted(r@),
        forall|q: int| 0 <= q < r@.len() ==> drop_change_ok(#[trigger] r@[q], *index, projectiles@, round_rows@, start_tick, end_tick),
        forall|key: ChangeKey| #[trigger] lists_change(r@, key) <==> drop_key(*index, projectiles@, round_rows@, key, start_tick, end_tick),
{
    let players = live_players(round_rows);
    let mut out: Vec<InventoryChange> = Vec::new();
    let mut p: usize = 0;
    while p < players.len()
        invariant
            p <= players@.len(),
            forall|s: u64| players@.contains(s) <==> exists|k: int| 0 <= k < round_rows@.len() && live_row(#[trigger] round_rows@[k], s),
            rows_fit(round_rows@),
            drop_gaps_fit(*index, projectiles@, round_rows@, start_tick, end_tick),
            changes_sorted(out@),
            forall|q: int| 0 <= q < out@.len() ==> drop_change_ok(#[trigger] out@[q], *index, projectiles@, round_rows@, start_tick, end_tick),
            forall|key: ChangeKey| #[trigger] lists_change(out@, key) <==> (exists|a: int| 0 <= a < p && players@[a] == key.1) && drop_key(*index, projectiles@, round_rows@, key, start_tick, end_tick),
        decreases players.len() - p,
    {
        let ghost before = out@;
        drops_for_player(index, projectiles, round_rows, players[p], start_tick, end_tick, &mut out);
        proof {
            assert forall|key: ChangeKey| #[trigger] lists_change(out@, key) <==> (exists|a: int| 0 <= a < p + 1 && players@[a] == key.1) && drop_key(*index, projectiles@, round_rows@, key, start_tick, end_tick) by {
                assert(lists_change(before, key) <==> (exists|a: int| 0 <= a < p && players@[a] == key.1) && drop_key(*index, projectiles@, round_rows@, key, start_tick, end_tick));
                if exists|a: int| 0 <= a < p + 1 && players@[a] == key.1 {
                    let a = choose|a: int| 0 <= a < p + 1 && players@[a] == key.1;
                    if a < p {
                        assert(exists|a: int| 0 <= a < p && players@[a] == key.1);
                    }
                }
                if exists|a: int| 0 <= a < p && players@[a] == key.1 {
                    let a = choose|a: int| 0 <= a < p && players@[a] == key.1;
                    assert(0 <= a < p + 1);
                }
            }
        }
        p = p + 1;
    }
    proof {
        assert forall|key: ChangeKey| #[trigger] lists_change(out@, key) <==> drop_key(*index, projectiles@, round_rows@, key, start_tick, end_tick) by {
            if drop_key(*index, projectiles@, round_rows@, key, start_tick, end_tick) {
                let (i, k) = choose|i: int, k: int| #[trigger] drop_at(*index, projectiles@, round_rows@, key.1, i, k, key.2, start_tick, end_tick) && round_rows@[k].tick == key.0;
                assert(live_row(round_rows@[k], key.1));
                assert(players@.contains(key.1));
                let a = choose|a: int| 0 <= a < players@.len() && players@[a] == key.1;
            }
        }
    }
    out
}


// ---------------------------------------------------------------------------
// Pickups
// ---------------------------------------------------------------------------

/// The grenade an event names: its definition (normalized), else the one its
/// item name names.
pub open spec fn event_def(index: Cs2LibEconIndex, e: ParsedGameEvent) -> Option<i32> {
    or_else(
        match e.weapon_def_index {
            Some(d) => Some(index.spec_normalize(d)),
            None => None,
        },
        match e.item_name {
            Some(n) => spec_def_from_item_name(index, n@),
            None => None,
        },
    )
}

/// The pickup an `item_pickup` event in the tick range records, by key.
pub open spec fn pickup_event_key(index: Cs2LibEconIndex, e: ParsedGameEvent, start_tick: i32, end_tick: i32) -> Option<ChangeKey> {
    if start_tick <= e.tick <= end_tick && e.name@ == "item_pickup"@ {
        match (e.user_steam_id, event_def(index, e)) {
            (Some(s), Some(d)) => if utility_def(index, d) {
                Some((e.tick, s, d))
            } else {
                None
            },
            _ => None,
        }
    } else {
        None
    }
}

/// The first of the first `n` events that records a pickup with `key`.
pub open spec fn first_pickup_event(index: Cs2LibEconIndex, events: Seq<ParsedGameEvent>, n: int, key: ChangeKey, start_tick: i32, end_tick: i32) -> Option<int>
    decreases n,
{
    if n <= 0 {
        None
    } else {
        match first_pickup_event(index, events, n - 1, key, start_tick, end_tick) {
            Some(q) => Some(q),
            None => if pickup_event_key(index, events[n - 1], start_tick, end_tick) == Some(key) {
                Some(n - 1)
            } else {
                None
            },
        }
    }
}

proof fn lemma_first_pickup_event(index: Cs2LibEconIndex, events: Seq<ParsedGameEvent>, n: int, key: ChangeKey, start_tick: i32, end_tick: i32)
    requires
        0 <= n,
    ensures
        first_pickup_event(index, events, n, key, start_tick, end_tick) matches Some(q) ==> 0 <= q < n && pickup_event_key(index, events[q], start_tick, end_tick) == Some(key),
        first_pickup_event(index, events, n, key, start_tick, end_tick) is None ==> forall|q: int| 0 <= q < n ==> pickup_event_key(index, #[trigger] events[q], start_tick, end_tick) != Some(key),
    decreases n,
{
    if n > 0 {
        lemma_first_pickup_event(index, events, n - 1, key, start_tick, end_tick);
    }
}

/// The live row of `steam` with the least tick at or after `t` (the first
/// row of that tick).
pub open spec fn live_at_or_after(rows: Seq<RoundRow>, steam: u64, t: i32, k: int) -> bool {
    &&& 0 <= k < rows.len()
    &&& live_row(rows[k], steam)
    &&& first_of_tick(rows, steam, k)
    &&& rows[k].tick >= t
    &&& forall|m: int| 0 <= m < rows.len() && live_row(#[trigger] rows[m], steam) && rows[m].tick >= t ==> rows[m].tick >= rows[k].tick
}

/// The count a pickup event records: that of the player's next live row,
/// else 1.
pub open spec fn pickup_count(index: Cs2LibEconIndex, rows: Seq<RoundRow>, key: ChangeKey) -> nat {
    if exists|k: int| #[trigger] live_at_or_after(rows, key.1, key.0, k) {
        spec_count(index, rows[choose|k: int| #[trigger] live_at_or_after(rows, key.1, key.0, k)].inventory_as_ids@, key.2)
    } else {
        1
    }
}

/// The player holds more of grenade `key.2` at live row `k` (tick `key.0`)
/// than at the live row before.
pub open spec fn row_pickup(index: Cs2LibEconIndex, rows: Seq<RoundRow>, key: ChangeKey, i: int, k: int, start_tick: i32, end_tick: i32) -> bool {
    &&& consecutive_live(rows, key.1, i, k)
    &&& rows[k].tick == key.0
    &&& start_tick <= key.0 <= end_tick
    &&& utility_def(index, key.2)
    &&& spec_count(index, rows[k].inventory_as_ids@, key.2) > spec_count(index, rows[i].inventory_as_ids@, key.2)
}

pub open spec fn row_pickup_key(index: Cs2LibEconIndex, rows: Seq<RoundRow>, key: ChangeKey, start_tick: i32, end_tick: i32) -> bool {
    exists|i: int, k: int| #[trigger] row_pickup(index, rows, key, i, k, start_tick, end_tick)
}

/// A pickup as the replay records it: from the first event with its key
/// (count of the next live row, catalog name else the event's), else from
/// the rows (count after, catalog name).
pub open spec fn pickup_change_ok(
    c: InventoryChange,
    index: Cs2LibEconIndex,
    events: Seq<ParsedGameEvent>,
    rows: Seq<RoundRow>,
    start_tick: i32,
    end_tick: i32,
) -> bool {
    let key = change_key(c);
    &&& c.paired_steam_id is None
    &&& match first_pickup_event(index, events, events.len() as int, key, start_tick, end_tick) {
        Some(q) => c.count_after == pickup_count(index, rows, key) && opt_str_view(c.item_name) == or_else(spec_item_name(index, key.2), opt_str_view(events[q].item_name)),
        None => (exists|i: int, k: int| #[trigger] row_pickup(index, rows, key, i, k, start_tick, end_tick) && c.count_after == spec_count(index, rows[k].inventory_as_ids@, key.2)) && opt_str_view(c.item_name) == spec_item_name(index, key.2),
    }
}


/// The count a pickup of grenade `def` by `steam` at `tick` records, from
/// the player's live listing.
fn next_live_count(index: &Cs2LibEconIndex, rows: &[RoundRow], l: &Vec<usize>, steam: u64, tick: i32, def: i32) -> (r: u32)
    requires
        live_listing(l@, rows@, steam),
        rows_fit(rows@),
    ensures
        r == pickup_count(*index, rows@, (tick, steam, def)),
{
    let mut q: usize = 0;
    while q < l.len() && rows[l[q]].tick < tick
        invariant
            q <= l@.len(),
            live_listing(l@, rows@, steam),
            forall|a: int| 0 <= a < q ==> rows@[l@[a] as int].tick < tick,
        decreases l.len() - q,
    {
        q = q + 1;
    }
    if q < l.len() {
        let k = l[q];
        proof {
            assert(live_at_or_after(rows@, steam, tick, k as int)) by {
                assert forall|m: int| 0 <= m < rows@.len() && live_row(#[trigger] rows@[m], steam) && rows@[m].tick >= tick implies rows@[m].tick >= rows@[k as int].tick by {
                    let q2 = choose|q2: int| 0 <= q2 < l@.len() && rows@[#[trigger] l@[q2] as int].tick == rows@[m].tick;
                    if q2 < q {
                    } else if q2 > q {
                        assert(rows@[l@[q as int] as int].tick < rows@[l@[q2] as int].tick);
                    }
                }
            }
            let k2 = choose|k2: int| #[trigger] live_at_or_after(rows@, steam, tick, k2);
            assert(rows@[k2].tick == rows@[k as int].tick);
            if k2 < k {
                assert(!(live_row(rows@[k2], steam) && rows@[k2].tick == rows@[k as int].tick));
            } else if k2 > k {
                assert(!(live_row(rows@[k as int], steam) && rows@[k as int].tick == rows@[k2].tick));
            }
        }
        let counts = inventory_counts(index, &rows[k].inventory_as_ids);
        proof {
            lemma_spec_count_bound(*index, rows@[k as int].inventory_as_ids@, def);
        }
        count_of(&counts, def)
    } else {
        proof {
            assert forall|k: int| !#[trigger] live_at_or_after(rows@, steam, tick, k) by {
                if live_at_or_after(rows@, steam, tick, k) {
                    let q2 = choose|q2: int| 0 <= q2 < l@.len() && rows@[#[trigger] l@[q2] as int].tick == rows@[k].tick;
                    assert(rows@[l@[q2] as int].tick < tick);
                }
            }
        }
        1
    }
}

fn event_def_of(index: &Cs2LibEconIndex, e: &ParsedGameEvent) -> (r: Option<i32>)
    ensures
        r == event_def(*index, *e),
{
    match e.weapon_def_index {
        Some(d) => Some(index.normalize_weapon_def_index(d)),
        None => match &e.item_name {
            Some(n) => index.weapon_def_index_from_item_name(n.as_str()),
            None => None,
        },
    }
}

fn pickup_event_key_of(index: &Cs2LibEconIndex, e: &ParsedGameEvent, start_tick: i32, end_tick: i32) -> (r: Option<(i32, u64, i32)>)
    ensures
        r == pickup_event_key(*index, *e, start_tick, end_tick),
{
    if e.tick < start_tick || e.tick > end_tick {
        return None;
    }
    let name = chars_of(e.name.as_str());
    if !eq_lit(&name, "item_pickup") {
        return None;
    }
    let s = match e.user_steam_id {
        Some(s) => s,
        None => return None,
    };
    match event_def_of(index, e) {
        Some(d) => if index.is_replay_equipment_event_def(d) {
            Some((e.tick, s, d))
        } else {
            None
        },
        None => None,
    }
}

/// Pickup evidence as far as it is gathered: the first `n` events, then the
/// rows of the players counted by `row_done`.
pub open spec fn event_pickup_ok(
    c: InventoryChange,
    index: Cs2LibEconIndex,
    events: Seq<ParsedGameEvent>,
    n: int,
    rows: Seq<RoundRow>,
    start_tick: i32,
    end_tick: i32,
) -> bool {
    let key = change_key(c);
    &&& c.paired_steam_id is None
    &&& first_pickup_event(index, events, n, key, start_tick, end_tick) matches Some(q)
    &&& c.count_after == pickup_count(index, rows, key)
    &&& opt_str_view(c.item_name) == or_else(spec_item_name(index, key.2), opt_str_view(events[q].item_name))
}

proof fn lemma_first_pickup_grows(index: Cs2LibEconIndex, events: Seq<ParsedGameEvent>, n: int, m: int, key: ChangeKey, start_tick: i32, end_tick: i32)
    requires
        0 <= n <= m,
        first_pickup_event(index, events, n, key, start_tick, end_tick) is Some,
    ensures
        first_pickup_event(index, events, m, key, start_tick, end_tick) == first_pickup_event(index, events, n, key, start_tick, end_tick),
    decreases m - n,
{
    if n < m {
        lemma_first_pickup_grows(index, events, n, m - 1, key, start_tick, end_tick);
    }
}

/// The pickups the `item_pickup` events record, each key once, from its first event.
fn event_pickups(
    index: &Cs2LibEconIndex,
    events: &Vec<ParsedGameEvent>,
    start_tick: i32,
    end_tick: i32,
    round_rows: &[RoundRow],
) -> (r: Vec<InventoryChange>)
    requires
        rows_fit(round_rows@),
    ensures
        changes_sorted(r@),
        forall|key: ChangeKey| #[trigger] lists_change(r@, key) <==> first_pickup_event(*index, events@, events@.len() as int, key, start_tick, end_tick) is Some,
        forall|q: int| 0 <= q < r@.len() ==> event_pickup_ok(#[trigger] r@[q], *index, events@, events@.len() as int, round_rows@, start_tick, end_tick),
{
    let mut out: Vec<InventoryChange> = Vec::new();
    let mut j: usize = 0;
    while j < events.len()
        invariant
            j <= events@.len(),
            rows_fit(round_rows@),
            changes_sorted(out@),
            forall|key: ChangeKey| #[trigger] lists_change(out@, key) <==> first_pickup_event(*index, events@, j as int, key, start_tick, end_tick) is Some,
            forall|q: int| 0 <= q < out@.len() ==> event_pickup_ok(#[trigger] out@[q], *index, events@, j as int, round_rows@, start_tick, end_tick),
        decreases events.len() - j,
    {
        let e = &events[j];
        let ghost before = out@;
        match pickup_event_key_of(index, e, start_tick, end_tick) {
            Some((t, s, d)) => {
                let ghost key = (t, s, d);
                let l = player_live_rows(round_rows, s);
                let count_after = next_live_count(index, round_rows, &l, s, t, d);
                let item_name = match item_name_of(index, d) {
                    Some(n) => Some(n),
                    None => copy_name(&e.item_name),
                };
                let c = InventoryChange { tick: t, steam_id: s, weapon_def_index: d, count_after, item_name, paired_steam_id: None };
                insert_change(&mut out, c);
                proof {
                    assert forall|k: ChangeKey| #[trigger] lists_change(out@, k) <==> first_pickup_event(*index, events@, j + 1, k, start_tick, end_tick) is Some by {
                        assert(lists_change(before, k) <==> first_pickup_event(*index, events@, j as int, k, start_tick, end_tick) is Some);
                    }
                    assert forall|q: int| 0 <= q < out@.len() implies event_pickup_ok(#[trigger] out@[q], *index, events@, j + 1, round_rows@, start_tick, end_tick) by {
                        if exists|p: int| 0 <= p < before.len() && before[p] == out@[q] {
                            let p = choose|p: int| 0 <= p < before.len() && before[p] == out@[q];
                            assert(event_pickup_ok(before[p], *index, events@, j as int, round_rows@, start_tick, end_tick));
                            lemma_first_pickup_grows(*index, events@, j as int, j + 1, change_key(before[p]), start_tick, end_tick);
                        } else {
                            assert(out@[q] == c);
                            assert(!lists_change(before, key));
                            assert(first_pickup_event(*index, events@, j as int, key, start_tick, end_tick) is None);
                        }
                    }
                }
            },
            None => {
                proof {
                    assert forall|q: int| 0 <= q < out@.len() implies event_pickup_ok(#[trigger] out@[q], *index, events@, j + 1, round_rows@, start_tick, end_tick) by {
                        lemma_first_pickup_grows(*index, events@, j as int, j + 1, change_key(out@[q]), start_tick, end_tick);
                    }
                }
            },
        }
        j = j + 1;
    }
    out
}


fn pickups_for_pair(
    index: &Cs2LibEconIndex,
    events: &Vec<ParsedGameEvent>,
    rows: &[RoundRow],
    steam: u64,
    i: usize,
    k: usize,
    start_tick: i32,
    end_tick: i32,
    out: &mut Vec<InventoryChange>,
)
    requires
        consecutive_live(rows@, steam, i as int, k as int),
        rows_fit(rows@),
        changes_sorted(old(out)@),
        forall|key: ChangeKey| first_pickup_event(*index, events@, events@.len() as int, key, start_tick, end_tick) is Some ==> #[trigger] lists_change(old(out)@, key),
        forall|q: int| 0 <= q < old(out)@.len() ==> pickup_change_ok(#[trigger] old(out)@[q], *index, events@, rows@, start_tick, end_tick),
    ensures
        changes_sorted(final(out)@),
        forall|q: int| 0 <= q < final(out)@.len() ==> pickup_change_ok(#[trigger] final(out)@[q], *index, events@, rows@, start_tick, end_tick),
        forall|key: ChangeKey| #[trigger] lists_change(final(out)@, key) <==> (lists_change(old(out)@, key) || (key.1 == steam && row_pickup(*index, rows@, key, i as int, k as int, start_tick, end_tick))),
{
    let tick = rows[k].tick;
    if tick < start_tick || tick > end_tick {
        return;
    }
    let prev_counts = inventory_counts(index, &rows[i].inventory_as_ids);
    let cur_counts = inventory_counts(index, &rows[k].inventory_as_ids);
    let ghost first = out@;
    let mut e: usize = 0;
    while e < cur_counts.len()
        invariant
            e <= cur_counts@.len(),
            consecutive_live(rows@, steam, i as int, k as int),
            tick == rows@[k as int].tick,
            start_tick <= tick <= end_tick,
            counts_wf(prev_counts@),
            forall|d: i32| #[trigger] listed_count(prev_counts@, d) == spec_count(*index, rows@[i as int].inventory_as_ids@, d),
            counts_wf(cur_counts@),
            forall|d: i32| #[trigger] listed_count(cur_counts@, d) == spec_count(*index, rows@[k as int].inventory_as_ids@, d),
            changes_sorted(out@),
            forall|key: ChangeKey| first_pickup_event(*index, events@, events@.len() as int, key, start_tick, end_tick) is Some ==> #[trigger] lists_change(out@, key),
            forall|q: int| 0 <= q < out@.len() ==> pickup_change_ok(#[trigger] out@[q], *index, events@, rows@, start_tick, end_tick),
            forall|key: ChangeKey| #[trigger] lists_change(out@, key) <==> (lists_change(first, key) || (key.1 == steam && row_pickup(*index, rows@, key, i as int, k as int, start_tick, end_tick) && exists|q: int| 0 <= q < e && cur_counts@[q].weapon_def_index == key.2)),
        decreases cur_counts.len() - e,
    {
        let def = cur_counts[e].weapon_def_index;
        let cc = cur_counts[e].count;
        proof {
            lemma_listed_at(cur_counts@, e as int);
        }
        let ghost before = out@;
        let ghost key = (tick, steam, def);
        let mut added = false;
        if index.is_replay_equipment_event_def(def) {
            let pc = count_of(&prev_counts, def);
            if cc > pc {
                let c = InventoryChange { tick, steam_id: steam, weapon_def_index: def, count_after: cc, item_name: item_name_of(index, def), paired_steam_id: None };
                proof {
                    assert(row_pickup(*index, rows@, key, i as int, k as int, start_tick, end_tick));
                }
                insert_change(out, c);
                added = true;
                proof {
                    assert forall|q: int| 0 <= q < out@.len() implies pickup_change_ok(#[trigger] out@[q], *index, events@, rows@, start_tick, end_tick) by {
                        if exists|p: int| 0 <= p < before.len() && before[p] == out@[q] {
                            let p = choose|p: int| 0 <= p < before.len() && before[p] == out@[q];
                            assert(pickup_change_ok(before[p], *index, events@, rows@, start_tick, end_tick));
                        } else {
                            assert(out@[q] == c);
                            assert(!lists_change(before, key));
                            assert(first_pickup_event(*index, events@, events@.len() as int, key, start_tick, end_tick) is None);
                            assert(row_pickup(*index, rows@, change_key(c), i as int, k as int, start_tick, end_tick));
                        }
                    }
                    assert forall|k2: ChangeKey| first_pickup_event(*index, events@, events@.len() as int, k2, start_tick, end_tick) is Some implies #[trigger] lists_change(out@, k2) by {
                        assert(lists_change(before, k2));
                    }
                }
            }
        }
        proof {
            assert forall|k2: ChangeKey| #[trigger] lists_change(out@, k2) <==> (lists_change(first, k2) || (k2.1 == steam && row_pickup(*index, rows@, k2, i as int, k as int, start_tick, end_tick) && exists|q: int| 0 <= q < e + 1 && cur_counts@[q].weapon_def_index == k2.2)) by {
                assert(lists_change(before, k2) <==> (lists_change(first, k2) || (k2.1 == steam && row_pickup(*index, rows@, k2, i as int, k as int, start_tick, end_tick) && exists|q: int| 0 <= q < e && cur_counts@[q].weapon_def_index == k2.2)));
                if k2.1 == steam && row_pickup(*index, rows@, k2, i as int, k as int, start_tick, end_tick) && exists|q: int| 0 <= q < e + 1 && cur_counts@[q].weapon_def_index == k2.2 {
                    let q = choose|q: int| 0 <= q < e + 1 && cur_counts@[q].weapon_def_index == k2.2;
                    if q == e {
                        assert(k2 == key);
                        assert(added);
                    }
                }
            }
        }
        e = e + 1;
    }
    proof {
        assert forall|k2: ChangeKey| #[trigger] lists_change(out@, k2) <==> (lists_change(first, k2) || (k2.1 == steam && row_pickup(*index, rows@, k2, i as int, k as int, start_tick, end_tick))) by {
            if k2.1 == steam && row_pickup(*index, rows@, k2, i as int, k as int, start_tick, end_tick) {
                assert(listed_count(cur_counts@, k2.2) > 0);
                let q = choose|q: int| 0 <= q < cur_counts@.len() && #[trigger] cur_counts@[q].weapon_def_index == k2.2;
            }
        }
    }
}

fn pickups_for_player(
    index: &Cs2LibEconIndex,
    events: &Vec<ParsedGameEvent>,
    rows: &[RoundRow],
    steam: u64,
    start_tick: i32,
    end_tick: i32,
    out: &mut Vec<InventoryChange>,
)
    requires
        rows_fit(rows@),
        changes_sorted(old(out)@),
        forall|key: ChangeKey| first_pickup_event(*index, events@, events@.len() as int, key, start_tick, end_tick) is Some ==> #[trigger] lists_change(old(out)@, key),
        forall|q: int| 0 <= q < old(out)@.len() ==> pickup_change_ok(#[trigger] old(out)@[q], *index, events@, rows@, start_tick, end_tick),
    ensures
        changes_sorted(final(out)@),
        forall|key: ChangeKey| first_pickup_event(*index, events@, events@.len() as int, key, start_tick, end_tick) is Some ==> #[trigger] lists_change(final(out)@, key),
        forall|q: int| 0 <= q < final(out)@.len() ==> pickup_change_ok(#[trigger] final(out)@[q], *index, events@, rows@, start_tick, end_tick),
        forall|key: ChangeKey| #[trigger] lists_change(final(out)@, key) <==> (lists_change(old(out)@, key) || (key.1 == steam && row_pickup_key(*index, rows@, key, start_tick, end_tick))),
{
    let l = player_live_rows(rows, steam);
    let ghost first = out@;
    let mut j: usize = 1;
    while j < l.len()
        invariant
            1 <= j,
            j <= l@.len() || l@.len() < 2,
            live_listing(l@, rows@, steam),
            rows_fit(rows@),
            changes_sorted(out@),
            forall|key: ChangeKey| first_pickup_event(*index, events@, events@.len() as int, key, start_tick, end_tick) is Some ==> #[trigger] lists_change(out@, key),
            forall|q: int| 0 <= q < out@.len() ==> pickup_change_ok(#[trigger] out@[q], *index, events@, rows@, start_tick, end_tick),
            forall|key: ChangeKey| #[trigger] lists_change(out@, key) <==> (lists_change(first, key) || (key.1 == steam && exists|q: int| 1 <= q < j && q < l@.len() && #[trigger] row_pickup(*index, rows@, key, l@[q - 1] as int, l@[q] as int, start_tick, end_tick))),
        decreases l.len() - j,
    {
        proof {
            lemma_listing_consecutive(l@, rows@, steam, j as int);
        }
        let ghost before = out@;
        pickups_for_pair(index, events, rows, steam, l[j - 1], l[j], start_tick, end_tick, out);
        proof {
            assert forall|key: ChangeKey| #[trigger] lists_change(out@, key) <==> (lists_change(first, key) || (key.1 == steam && exists|q: int| 1 <= q < j + 1 && q < l@.len() && #[trigger] row_pickup(*index, rows@, key, l@[q - 1] as int, l@[q] as int, start_tick, end_tick))) by {
                assert(lists_change(before, key) <==> (lists_change(first, key) || (key.1 == steam && exists|q: int| 1 <= q < j && q < l@.len() && #[trigger] row_pickup(*index, rows@, key, l@[q - 1] as int, l@[q] as int, start_tick, end_tick))));
                if key.1 == steam && exists|q: int| 1 <= q < j + 1 && q < l@.len() && #[trigger] row_pickup(*index, rows@, key, l@[q - 1] as int, l@[q] as int, start_tick, end_tick) {
                    let q = choose|q: int| 1 <= q < j + 1 && q < l@.len() && #[trigger] row_pickup(*index, rows@, key, l@[q - 1] as int, l@[q] as int, start_tick, end_tick);
                    if q < j {
                        assert(exists|q: int| 1 <= q < j && q < l@.len() && #[trigger] row_pickup(*index, rows@, key, l@[q - 1] as int, l@[q] as int, start_tick, end_tick));
                    }
                }
            }
        }
        j = j + 1;
    }
    proof {
        assert forall|key: ChangeKey| #[trigger] lists_change(out@, key) <==> (lists_change(first, key) || (key.1 == steam && row_pickup_key(*index, rows@, key, start_tick, end_tick))) by {
            if key.1 == steam && row_pickup_key(*index, rows@, key, start_tick, end_tick) {
                let (i, k) = choose|i: int, k: int| #[trigger] row_pickup(*index, rows@, key, i, k, start_tick, end_tick);
                let q = lemma_consecutive_listed(l@, rows@, steam, i, k);
                assert(row_pickup(*index, rows@, key, l@[q - 1] as int, l@[q] as int, start_tick, end_tick));
            }
        }
    }
}

/// The grenades the players picked up in the tick range: each `item_pickup`
/// event's (from its first event), then every gain between consecutive live
/// rows that no event recorded; each once, ordered by tick, player and grenade.
pub fn inferred_inventory_pickups(
    index: &Cs2LibEconIndex,
    start_tick: i32,
    end_tick: i32,
    round_rows: &[RoundRow],
    game_events: &Vec<ParsedGameEvent>,
) -> (r: Vec<InventoryChange>)
    requires
        rows_fit(round_rows@),
    ensures
        changes_sorted(r@),
        forall|q: int| 0 <= q < r@.len() ==> pickup_change_ok(#[trigger] r@[q], *index, game_events@, round_rows@, start_tick, end_tick),
        forall|key: ChangeKey| #[trigger] lists_change(r@, key) <==> (first_pickup_event(*index, game_events@, game_events@.len() as int, key, start_tick, end_tick) is Some || row_pickup_key(*index, round_rows@, key, start_tick, end_tick)),
{
    let mut out = event_pickups(index, game_events, start_tick, end_tick, round_rows);
    proof {
        assert forall|q: int| 0 <= q < out@.len() implies pickup_change_ok(#[trigger] out@[q], *index, game_events@, round_rows@, start_tick, end_tick) by {
            assert(event_pickup_ok(out@[q], *index, game_events@, game_events@.len() as int, round_rows@, start_tick, end_tick));
        }
    }
    let ghost events_only = out@;
    let players = live_players(round_rows);
    let mut p: usize = 0;
    while p < players.len()
        invariant
            p <= players@.len(),
            forall|s: u64| players@.contains(s) <==> exists|k: int| 0 <= k < round_rows@.len() && live_row(#[trigger] round_rows@[k], s),
            rows_fit(round_rows@),
            changes_sorted(out@),
            forall|key: ChangeKey| first_pickup_event(*index, game_events@, game_events@.len() as int, key, start_tick, end_tick) is Some ==> #[trigger] lists_change(out@, key),
            forall|q: int| 0 <= q < out@.len() ==> pickup_change_ok(#[trigger] out@[q], *index, game_events@, round_rows@, start_tick, end_tick),
            forall|key: ChangeKey| #[trigger] lists_change(out@, key) <==> (first_pickup_event(*index, game_events@, game_events@.len() as int, key, start_tick, end_tick) is Some || ((exists|a: int| 0 <= a < p && players@[a] == key.1) && row_pickup_key(*index, round_rows@, key, start_tick, end_tick))),
        decreases players.len() - p,
    {
        let ghost before = out@;
        pickups_for_player(index, game_events, round_rows, players[p], start_tick, end_tick, &mut out);
        proof {
            assert forall|key: ChangeKey| #[trigger] lists_change(out@, key) <==> (first_pickup_event(*index, game_events@, game_events@.len() as int, key, start_tick, end_tick) is Some || ((exists|a: int| 0 <= a < p + 1 && players@[a] == key.1) && row_pickup_key(*index, round_rows@, key, start_tick, end_tick))) by {
                assert(lists_change(before, key) <==> (first_pickup_event(*index, game_events@, game_events@.len() as int, key, start_tick, end_tick) is Some || ((exists|a: int| 0 <= a < p && players@[a] == key.1) && row_pickup_key(*index, round_rows@, key, start_tick, end_tick))));
                if exists|a: int| 0 <= a < p + 1 && players@[a] == key.1 {
                    let a = choose|a: int| 0 <= a < p + 1 && players@[a] == key.1;
                    if a < p {
                        assert(exists|a: int| 0 <= a < p && players@[a] == key.1);
                    }
                }
                if exists|a: int| 0 <= a < p && players@[a] == key.1 {
                    let a = choose|a: int| 0 <= a < p && players@[a] == key.1;
                    assert(0 <= a < p + 1);
                }
            }
        }
        p = p + 1;
    }
    proof {
        assert forall|key: ChangeKey| #[trigger] lists_change(out@, key) <==> (first_pickup_event(*index, game_events@, game_events@.len() as int, key, start_tick, end_tick) is Some || row_pickup_key(*index, round_rows@, key, start_tick, end_tick)) by {
            if row_pickup_key(*index, round_rows@, key, start_tick, end_tick) {
                let (i, k) = choose|i: int, k: int| #[trigger] row_pickup(*index, round_rows@, key, i, k, start_tick, end_tick);
                assert(live_row(round_rows@[k], key.1));
                assert(players@.contains(key.1));
                let a = choose|a: int| 0 <= a < players@.len() && players@[a] == key.1;
            }
        }
    }
    out
}


// ---------------------------------------------------------------------------
// Transfers
// ---------------------------------------------------------------------------

/// A change paired with another player.
pub open spec fn with_pair(c: InventoryChange, steam: u64) -> InventoryChange {
    InventoryChange {
        tick: c.tick,
        steam_id: c.steam_id,
        weapon_def_index: c.weapon_def_index,
        count_after: c.count_after,
        item_name: c.item_name,
        paired_steam_id: Some(steam),
    }
}

/// An unpaired pickup of the same grenade by another player, at most 128
/// ticks after the drop.
pub open spec fn transfer_candidate(d: InventoryChange, p: InventoryChange) -> bool {
    &&& p.paired_steam_id is None
    &&& p.steam_id != d.steam_id
    &&& p.weapon_def_index == d.weapon_def_index
    &&& p.tick >= d.tick
    &&& p.tick - d.tick <= 128
}

/// The earliest candidate among the first `n` pickups (the first of equal ticks).
pub open spec fn best_pickup(d: InventoryChange, ps: Seq<InventoryChange>, n: int) -> Option<int>
    decreases n,
{
    if n <= 0 {
        None
    } else {
        let prev = best_pickup(d, ps, n - 1);
        if transfer_candidate(d, ps[n - 1]) && match prev {
            Some(b) => ps[n - 1].tick < ps[b].tick,
            None => true,
        } {
            Some(n - 1)
        } else {
            prev
        }
    }
}

proof fn lemma_best_pickup_bound(d: InventoryChange, ps: Seq<InventoryChange>, n: int)
    ensures
        best_pickup(d, ps, n) matches Some(b) ==> 0 <= b < n && transfer_candidate(d, ps[b]),
    decreases n,
{
    if n > 0 {
        lemma_best_pickup_bound(d, ps, n - 1);
    }
}

/// The drops and pickups after pairing the first `k` drops in order, each
/// with the earliest candidate pickup left.
pub open spec fn paired_after(drops: Seq<InventoryChange>, pickups: Seq<InventoryChange>, k: int) -> (Seq<InventoryChange>, Seq<InventoryChange>)
    decreases k,
{
    if k <= 0 {
        (drops, pickups)
    } else {
        let prev = paired_after(drops, pickups, k - 1);
        let d = prev.0[k - 1];
        match best_pickup(d, prev.1, prev.1.len() as int) {
            Some(b) => (prev.0.update(k - 1, with_pair(d, prev.1[b].steam_id)), prev.1.update(b, with_pair(prev.1[b], d.steam_id))),
            None => prev,
        }
    }
}

proof fn lemma_paired_after_lens(drops: Seq<InventoryChange>, pickups: Seq<InventoryChange>, k: int)
    requires
        k <= drops.len(),
    ensures
        paired_after(drops, pickups, k).0.len() == drops.len(),
        paired_after(drops, pickups, k).1.len() == pickups.len(),
    decreases k,
{
    if k > 0 {
        lemma_paired_after_lens(drops, pickups, k - 1);
        let prev = paired_after(drops, pickups, k - 1);
        lemma_best_pickup_bound(prev.0[k - 1], prev.1, prev.1.len() as int);
    }
}

fn set_pair(v: &mut Vec<InventoryChange>, i: usize, steam: u64)
    requires
        i < old(v)@.len(),
    ensures
        final(v)@ == old(v)@.update(i as int, with_pair(old(v)@[i as int], steam)),
{
    let ghost before = v@;
    let mut c = v.remove(i);
    c.paired_steam_id = Some(steam);
    v.insert(i, c);
    proof {
        assert(v@ =~= before.update(i as int, with_pair(before[i as int], steam)));
    }
}

/// Pairs each drop, in order, with the earliest unpaired pickup of the same
/// grenade by another player within 128 ticks after it; both record the other
/// player. Tick differences are taken exactly.
pub fn pair_inventory_transfers(drops: &mut Vec<InventoryChange>, pickups: &mut Vec<InventoryChange>)
    ensures
        (final(drops)@, final(pickups)@) == paired_after(old(drops)@, old(pickups)@, old(drops)@.len() as int),
{
    let ghost d0 = drops@;
    let ghost p0 = pickups@;
    let mut k: usize = 0;
    proof {
        lemma_paired_after_lens(d0, p0, 0);
    }
    while k < drops.len()
        invariant
            k <= drops@.len(),
            drops@.len() == d0.len(),
            (drops@, pickups@) == paired_after(d0, p0, k as int),
        decreases drops.len() - k,
    {
        let ghost prev_state = (drops@, pickups@);
        let d_tick = drops[k].tick;
        let d_steam = drops[k].steam_id;
        let d_def = drops[k].weapon_def_index;
        let mut best: Option<usize> = None;
        let mut q: usize = 0;
        while q < pickups.len()
            invariant
                q <= pickups@.len(),
                k < drops@.len(),
                d_tick == drops@[k as int].tick,
                d_steam == drops@[k as int].steam_id,
                d_def == drops@[k as int].weapon_def_index,
                match best_pickup(drops@[k as int], pickups@, q as int) {
                    Some(b) => best == Some(b as usize),
                    None => best is None,
                },
            decreases pickups.len() - q,
        {
            proof {
                lemma_best_pickup_bound(drops@[k as int], pickups@, q as int);
            }
            let p = &pickups[q];
            let candidate = p.paired_steam_id.is_none() && p.steam_id != d_steam && p.weapon_def_index == d_def
                && p.tick >= d_tick && (p.tick as i64) - (d_tick as i64) <= 128;
            if candidate {
                let better = match best {
                    Some(b) => p.tick < pickups[b].tick,
                    None => true,
                };
                if better {
                    best = Some(q);
                }
            }
            q = q + 1;
        }
        proof {
            lemma_best_pickup_bound(drops@[k as int], pickups@, pickups@.len() as int);
        }
        match best {
            Some(b) => {
                let picker = pickups[b].steam_id;
                set_pair(drops, k, picker);
                set_pair(pickups, b, d_steam);
            },
            None => {},
        }
        proof {
            lemma_paired_after_lens(d0, p0, k + 1);
        }
        k = k + 1;
    }
}


// ---------------------------------------------------------------------------
// A player's events in a round
// ---------------------------------------------------------------------------

/// The replay event of a drop.
pub open spec fn drop_event(d: InventoryChange) -> AbsoluteHifiEvent {
    AbsoluteHifiEvent {
        tick: d.tick,
        kind: ReplayHifiEventKind::ItemDrop,
        actor_steam_id: Some(d.steam_id),
        target_steam_id: d.paired_steam_id,
        weapon_def_index: Some(d.weapon_def_index),
        item_name: d.item_name,
        entity_id: None,
        actor_count_after: Some(d.count_after),
        target_count_after: None,
        damage: None,
        health: None,
    }
}

/// The replay event of a pickup: a transfer when it is paired with a drop.
pub open spec fn pickup_event(p: InventoryChange) -> AbsoluteHifiEvent {
    AbsoluteHifiEvent {
        tick: p.tick,
        kind: if p.paired_steam_id is Some {
            ReplayHifiEventKind::ItemTransfer
        } else {
            ReplayHifiEventKind::ItemPickup
        },
        actor_steam_id: p.paired_steam_id,
        target_steam_id: Some(p.steam_id),
        weapon_def_index: Some(p.weapon_def_index),
        item_name: p.item_name,
        entity_id: None,
        actor_count_after: None,
        target_count_after: Some(p.count_after),
        damage: None,
        health: None,
    }
}

/// The drop events of one player, in order.
pub open spec fn drop_events(ds: Seq<InventoryChange>, steam: u64) -> Seq<AbsoluteHifiEvent>
    decreases ds.len(),
{
    if ds.len() == 0 {
        seq![]
    } else {
        drop_events(ds.drop_last(), steam) + if ds.last().steam_id == steam {
            seq![drop_event(ds.last())]
        } else {
            seq![]
        }
    }
}

/// The pickup events of one player, in order.
pub open spec fn pickup_events(ps: Seq<InventoryChange>, steam: u64) -> Seq<AbsoluteHifiEvent>
    decreases ps.len(),
{
    if ps.len() == 0 {
        seq![]
    } else {
        pickup_events(ps.drop_last(), steam) + if ps.last().steam_id == steam {
            seq![pickup_event(ps.last())]
        } else {
            seq![]
        }
    }
}

/// The recorded game events of the first `n` in the tick range that concern the player.
pub open spec fn recorded_indices(events: Seq<ParsedGameEvent>, steam: u64, start_tick: i32, end_tick: i32, n: int) -> Seq<int>
    decreases n,
{
    if n <= 0 {
        seq![]
    } else {
        let e = events[n - 1];
        let prev = recorded_indices(events, steam, start_tick, end_tick, n - 1);
        if start_tick <= e.tick <= end_tick && match spec_event_kind(e.name@) {
            Some(kind) => event_actor(e, kind) == Some(steam) || event_target(e, kind) == Some(steam),
            None => false,
        } {
            prev.push(n - 1)
        } else {
            prev
        }
    }
}

/// The event that makes the player the bomb's first owner.
pub open spec fn initial_owner_event_ok(e: AbsoluteHifiEvent, start_tick: i32, steam: u64) -> bool {
    &&& e.tick == start_tick
    &&& e.kind == ReplayHifiEventKind::BombInitialOwner
    &&& e.actor_steam_id == Some(steam)
    &&& e.target_steam_id == Some(steam)
    &&& e.weapon_def_index == Some(49i32)
    &&& opt_str_view(e.item_name) == Some("weapon_c4"@)
    &&& e.entity_id is None
    &&& e.actor_count_after == Some(1u32)
    &&& e.target_count_after == Some(1u32)
    &&& e.damage is None
    &&& e.health is None
}

/// The drops of the round as `inferred_inventory_drops` lists them.
pub open spec fn drops_as_listed(
    ds: Seq<InventoryChange>,
    index: Cs2LibEconIndex,
    projectiles: Seq<ThrownProjectile>,
    rows: Seq<RoundRow>,
    start_tick: i32,
    end_tick: i32,
) -> bool {
    &&& changes_sorted(ds)
    &&& forall|q: int| 0 <= q < ds.len() ==> drop_change_ok(#[trigger] ds[q], index, projectiles, rows, start_tick, end_tick)
    &&& forall|key: ChangeKey| #[trigger] lists_change(ds, key) <==> drop_key(index, projectiles, rows, key, start_tick, end_tick)
}

/// The pickups of the round as `inferred_inventory_pickups` lists them.
pub open spec fn pickups_as_listed(
    ps: Seq<InventoryChange>,
    index: Cs2LibEconIndex,
    events: Seq<ParsedGameEvent>,
    rows: Seq<RoundRow>,
    start_tick: i32,
    end_tick: i32,
) -> bool {
    &&& changes_sorted(ps)
    &&& forall|q: int| 0 <= q < ps.len() ==> pickup_change_ok(#[trigger] ps[q], index, events, rows, start_tick, end_tick)
    &&& forall|key: ChangeKey| #[trigger] lists_change(ps, key) <==> (first_pickup_event(index, events, events.len() as int, key, start_tick, end_tick) is Some || row_pickup_key(index, rows, key, start_tick, end_tick))
}

/// The player's events of a round, in this order: the bomb's first ownership
/// (when the player has it), the player's drops and pickups (paired into
/// transfers), then the recorded game events that concern the player.
pub open spec fn scoped_events_ok(
    r: Seq<AbsoluteHifiEvent>,
    ds: Seq<InventoryChange>,
    ps: Seq<InventoryChange>,
    index: Cs2LibEconIndex,
    events: Seq<ParsedGameEvent>,
    steam: u64,
    start_tick: i32,
    end_tick: i32,
    initial_c4_owner: Option<u64>,
) -> bool {
    let n0: int = if initial_c4_owner == Some(steam) {
        1
    } else {
        0
    };
    let paired = paired_after(ds, ps, ds.len() as int);
    let de = drop_events(paired.0, steam);
    let pe = pickup_events(paired.1, steam);
    let ri = recorded_indices(events, steam, start_tick, end_tick, events.len() as int);
    &&& r.len() == n0 + de.len() + pe.len() + ri.len()
    &&& (n0 == 1 ==> initial_owner_event_ok(r[0], start_tick, steam))
    &&& r.subrange(n0, n0 + de.len()) == de
    &&& r.subrange(n0 + de.len(), n0 + de.len() + pe.len()) == pe
    &&& forall|m: int| 0 <= m < ri.len() ==> recorded_event_matches(Some(#[trigger] r[n0 + de.len() + pe.len() + m]), index, events[ri[m]], steam)
}

/// The events of one player in a round (see `scoped_events_ok`).
pub fn player_scoped_hifi_events(
    index: &Cs2LibEconIndex,
    game_events: &Vec<ParsedGameEvent>,
    projectiles: &[ThrownProjectile],
    steam_id: u64,
    start_tick: i32,
    end_tick: i32,
    round_rows: &[RoundRow],
    initial_c4_owner: Option<u64>,
) -> (r: Vec<AbsoluteHifiEvent>)
    requires
        rows_fit(round_rows@),
        drop_gaps_fit(*index, projectiles@, round_rows@, start_tick, end_tick),
    ensures
        exists|ds: Seq<InventoryChange>, ps: Seq<InventoryChange>|
            drops_as_listed(ds, *index, projectiles@, round_rows@, start_tick, end_tick)
            && pickups_as_listed(ps, *index, game_events@, round_rows@, start_tick, end_tick)
            && #[trigger] scoped_events_ok(r@, ds, ps, *index, game_events@, steam_id, start_tick, end_tick, initial_c4_owner),
{
    let mut drops = inferred_inventory_drops(index, projectiles, start_tick, end_tick, round_rows);
    let mut pickups = inferred_inventory_pickups(index, start_tick, end_tick, round_rows, game_events);
    let ghost ds = drops@;
    let ghost ps = pickups@;
    pair_inventory_transfers(&mut drops, &mut pickups);
    let ghost paired = paired_after(ds, ps, ds.len() as int);
    let mut out: Vec<AbsoluteHifiEvent> = Vec::new();
    if initial_c4_owner == Some(steam_id) {
        out.push(AbsoluteHifiEvent {
            tick: start_tick,
            kind: ReplayHifiEventKind::BombInitialOwner,
            actor_steam_id: Some(steam_id),
            target_steam_id: Some(steam_id),
            weapon_def_index: Some(49),
            item_name: Some(string_of("weapon_c4")),
            entity_id: None,
            actor_count_after: Some(1),
            target_count_after: Some(1),
            damage: None,
            health: None,
        });
    }
    let ghost n0: int = out@.len() as int;
    let ghost head = out@;
    let mut rest = drops;
    let ghost all_drops = paired.0;
    while rest.len() > 0
        invariant
            rest@.len() <= all_drops.len(),
            rest@ == all_drops.subrange(all_drops.len() - rest@.len(), all_drops.len() as int),
            out@ == head + drop_events(all_drops.subrange(0, all_drops.len() - rest@.len()), steam_id),
        decreases rest.len(),
    {
        let ghost taken = all_drops.len() - rest@.len();
        let d = rest.remove(0);
        proof {
            assert(d == all_drops[taken]);
            assert(rest@ =~= all_drops.subrange(taken + 1, all_drops.len() as int));
            assert(all_drops.subrange(0, taken + 1).drop_last() =~= all_drops.subrange(0, taken));
        }
        if d.steam_id == steam_id {
            out.push(AbsoluteHifiEvent {
                tick: d.tick,
                kind: ReplayHifiEventKind::ItemDrop,
                actor_steam_id: Some(d.steam_id),
                target_steam_id: d.paired_steam_id,
                weapon_def_index: Some(d.weapon_def_index),
                item_name: d.item_name,
                entity_id: None,
                actor_count_after: Some(d.count_after),
                target_count_after: None,
                damage: None,
                health: None,
            });
        }
        proof {
            assert(out@ =~= head + drop_events(all_drops.subrange(0, taken + 1), steam_id));
        }
    }
    proof {
        assert(all_drops.subrange(0, all_drops.len() as int) =~= all_drops);
    }
    let ghost head2 = out@;
    let mut rest = pickups;
    let ghost all_pickups = paired.1;
    while rest.len() > 0
        invariant
            rest@.len() <= all_pickups.len(),
            rest@ == all_pickups.subrange(all_pickups.len() - rest@.len(), all_pickups.len() as int),
            out@ == head2 + pickup_events(all_pickups.subrange(0, all_pickups.len() - rest@.len()), steam_id),
        decreases rest.len(),
    {
        let ghost taken = all_pickups.len() - rest@.len();
        let p = rest.remove(0);
        proof {
            assert(p == all_pickups[taken]);
            assert(rest@ =~= all_pickups.subrange(taken + 1, all_pickups.len() as int));
            assert(all_pickups.subrange(0, taken + 1).drop_last() =~= all_pickups.subrange(0, taken));
        }
        if p.steam_id == steam_id {
            let kind = if p.paired_steam_id.is_some() {
                ReplayHifiEventKind::ItemTransfer
            } else {
                ReplayHifiEventKind::ItemPickup
            };
            out.push(AbsoluteHifiEvent {
                tick: p.tick,
                kind,
                actor_steam_id: p.paired_steam_id,
                target_steam_id: Some(p.steam_id),
                weapon_def_index: Some(p.weapon_def_index),
                item_name: p.item_name,
                entity_id: None,
                actor_count_after: None,
                target_count_after: Some(p.count_after),
                damage: None,
                health: None,
            });
        }
        proof {
            assert(out@ =~= head2 + pickup_events(all_pickups.subrange(0, taken + 1), steam_id));
        }
    }
    proof {
        assert(all_pickups.subrange(0, all_pickups.len() as int) =~= all_pickups);
    }
    let ghost head3 = out@;
    let mut j: usize = 0;
    while j < game_events.len()
        invariant
            j <= game_events@.len(),
            out@.len() == head3.len() + recorded_indices(game_events@, steam_id, start_tick, end_tick, j as int).len(),
            out@.subrange(0, head3.len() as int) == head3,
            forall|m: int| 0 <= m < recorded_indices(game_events@, steam_id, start_tick, end_tick, j as int).len() ==> recorded_event_matches(Some(#[trigger] out@[head3.len() + m]), *index, game_events@[recorded_indices(game_events@, steam_id, start_tick, end_tick, j as int)[m]], steam_id),
        decreases game_events.len() - j,
    {
        let e = &game_events[j];
        let ghost before = out@;
        let ghost ri = recorded_indices(game_events@, steam_id, start_tick, end_tick, j as int);
        if e.tick >= start_tick && e.tick <= end_tick {
            match map_recorded_game_event(index, e, steam_id) {
                Some(mapped) => {
                    out.push(mapped);
                },
                None => {},
            }
        }
        proof {
            let ri2 = recorded_indices(game_events@, steam_id, start_tick, end_tick, j + 1);
            assert(out@.subrange(0, head3.len() as int) =~= head3) by {
                assert(forall|x: int| 0 <= x < head3.len() ==> out@[x] == before[x]);
            }
            assert forall|m: int| 0 <= m < ri2.len() implies recorded_event_matches(Some(#[trigger] out@[head3.len() + m]), *index, game_events@[ri2[m]], steam_id) by {
                if m < ri.len() {
                    assert(ri2[m] == ri[m]);
                    assert(out@[head3.len() + m] == before[head3.len() + m]);
                }
            }
        }
        j = j + 1;
    }
    proof {
        let de = drop_events(paired.0, steam_id);
        let pe = pickup_events(paired.1, steam_id);
        assert(head3 == head + de + pe);
        assert(head.len() == n0);
        assert(out@.subrange(n0, n0 + de.len()) =~= de) by {
            assert forall|x: int| 0 <= x < de.len() implies out@[n0 + x] == de[x] by {
                assert(out@[n0 + x] == head3[n0 + x]);
            }
        }
        assert(out@.subrange(n0 + de.len(), n0 + de.len() + pe.len()) =~= pe) by {
            assert forall|x: int| 0 <= x < pe.len() implies out@[n0 + de.len() + x] == pe[x] by {
                assert(out@[n0 + de.len() + x] == head3[n0 + de.len() + x]);
            }
        }
        if initial_c4_owner == Some(steam_id) {
            assert(out@[0] == head3[0]);
            reveal_strlit("weapon_c4");
        }
        assert(scoped_events_ok(out@, ds, ps, *index, game_events@, steam_id, start_tick, end_tick, initial_c4_owner));
    }
    out
}

} // verus!
