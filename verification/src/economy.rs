//! Team economy of a round: what each team's players carried and spent at
//! the start of the round.
use crate::catalog::Cs2LibEconIndex;
use crate::model::{EconomyClass, Side, TeamEconomy};
use crate::round_replay::RoundRow;
use crate::text::string_of;
use vstd::prelude::*;

verus! {

/// The buy price of a (normalized) weapon definition; 0 for anything else.
pub open spec fn spec_weapon_value(def: i32) -> u32 {
    if def == 1 {
        700
    } else if def == 2 {
        300
    } else if def == 3 {
        500
    } else if def == 4 {
        200
    } else if def == 7 {
        2700
    } else if def == 8 {
        3300
    } else if def == 9 {
        4750
    } else if def == 10 {
        2050
    } else if def == 11 {
        5000
    } else if def == 13 {
        1800
    } else if def == 14 {
        5200
    } else if def == 16 {
        3100
    } else if def == 17 {
        1050
    } else if def == 19 {
        2350
    } else if def == 23 {
        1500
    } else if def == 24 {
        1200
    } else if def == 25 {
        2000
    } else if def == 26 {
        1400
    } else if def == 27 {
        1300
    } else if def == 28 {
        1700
    } else if def == 29 {
        1100
    } else if def == 30 {
        500
    } else if def == 31 {
        200
    } else if def == 32 {
        200
    } else if def == 33 {
        1500
    } else if def == 34 {
        1250
    } else if def == 35 {
        1050
    } else if def == 36 {
        300
    } else if def == 38 {
        5000
    } else if def == 39 {
        3000
    } else if def == 40 {
        1700
    } else if def == 43 {
        200
    } else if def == 44 {
        300
    } else if def == 45 {
        300
    } else if def == 46 {
        400
    } else if def == 47 {
        50
    } else if def == 48 {
        600
    } else if def == 60 {
        2900
    } else if def == 61 {
        200
    } else if def == 63 {
        500
    } else if def == 64 {
        600
    } else {
        0
    }
}

/// The buy prices of CS2's weapons and grenades, by definition index.
pub open spec fn cs2_buy_prices() -> Seq<(i32, u32)> {
    seq![
        (1i32, 700u32),  // Desert Eagle
        (2i32, 300u32),  // Dual Berettas
        (3i32, 500u32),  // Five-SeveN
        (4i32, 200u32),  // Glock-18
        (7i32, 2700u32),  // AK-47
        (8i32, 3300u32),  // AUG
        (9i32, 4750u32),  // AWP
        (10i32, 2050u32),  // FAMAS
        (11i32, 5000u32),  // G3SG1
        (13i32, 1800u32),  // Galil AR
        (14i32, 5200u32),  // M249
        (16i32, 3100u32),  // M4A4
        (17i32, 1050u32),  // MAC-10
        (19i32, 2350u32),  // P90
        (23i32, 1500u32),  // MP5-SD
        (24i32, 1200u32),  // UMP-45
        (25i32, 2000u32),  // XM1014
        (26i32, 1400u32),  // PP-Bizon
        (27i32, 1300u32),  // MAG-7
        (28i32, 1700u32),  // Negev
        (29i32, 1100u32),  // Sawed-Off
        (30i32, 500u32),  // Tec-9
        (31i32, 200u32),  // Zeus x27
        (32i32, 200u32),  // P2000
        (33i32, 1500u32),  // MP7
        (34i32, 1250u32),  // MP9
        (35i32, 1050u32),  // Nova
        (36i32, 300u32),  // P250
        (38i32, 5000u32),  // SCAR-20
        (39i32, 3000u32),  // SG 553
        (40i32, 1700u32),  // SSG 08
        (43i32, 200u32),  // Flashbang
        (44i32, 300u32),  // HE Grenade
        (45i32, 300u32),  // Smoke Grenade
        (46i32, 400u32),  // Molotov
        (47i32, 50u32),  // Decoy
        (48i32, 600u32),  // Incendiary
        (60i32, 2900u32),  // M4A1-S
        (61i32, 200u32),  // USP-S
        (63i32, 500u32),  // CZ75-Auto
        (64i32, 600u32),  // R8 Revolver
    ]
}

/// A definition index is on the price list.
pub open spec fn has_buy_price(def: i32) -> bool {
    exists|i: int| 0 <= i < cs2_buy_prices().len() && (#[trigger] cs2_buy_prices()[i]).0 == def
}

/// Each weapon on the price list is worth its buy price (an AWP 4750, an
/// AK-47 2700, ...), and anything off the list is worth nothing.
pub proof fn law_weapon_value_is_the_buy_price()
    ensures
        forall|i: int| 0 <= i < cs2_buy_prices().len() ==> spec_weapon_value((#[trigger] cs2_buy_prices()[i]).0)
            == cs2_buy_prices()[i].1,
        forall|d: i32| !has_buy_price(d) ==> #[trigger] spec_weapon_value(d) == 0,
{
    let l = cs2_buy_prices();
    assert forall|i: int| 0 <= i < l.len() implies spec_weapon_value((#[trigger] l[i]).0) == l[i].1 by {}
    assert forall|d: i32| !has_buy_price(d) implies #[trigger] spec_weapon_value(d) == 0 by {
        if d == 1 {
            assert(l[0].0 == 1);
        } else if d == 2 {
            assert(l[1].0 == 2);
        } else if d == 3 {
            assert(l[2].0 == 3);
        } else if d == 4 {
            assert(l[3].0 == 4);
        } else if d == 7 {
            assert(l[4].0 == 7);
        } else if d == 8 {
            assert(l[5].0 == 8);
        } else if d == 9 {
            assert(l[6].0 == 9);
        } else if d == 10 {
            assert(l[7].0 == 10);
        } else if d == 11 {
            assert(l[8].0 == 11);
        } else if d == 13 {
            assert(l[9].0 == 13);
        } else if d == 14 {
            assert(l[10].0 == 14);
        } else if d == 16 {
            assert(l[11].0 == 16);
        } else if d == 17 {
            assert(l[12].0 == 17);
        } else if d == 19 {
            assert(l[13].0 == 19);
        } else if d == 23 {
            assert(l[14].0 == 23);
        } else if d == 24 {
            assert(l[15].0 == 24);
        } else if d == 25 {
            assert(l[16].0 == 25);
        } else if d == 26 {
            assert(l[17].0 == 26);
        } else if d == 27 {
            assert(l[18].0 == 27);
        } else if d == 28 {
            assert(l[19].0 == 28);
        } else if d == 29 {
            assert(l[20].0 == 29);
        } else if d == 30 {
            assert(l[21].0 == 30);
        } else if d == 31 {
            assert(l[22].0 == 31);
        } else if d == 32 {
            assert(l[23].0 == 32);
        } else if d == 33 {
            assert(l[24].0 == 33);
        } else if d == 34 {
            assert(l[25].0 == 34);
        } else if d == 35 {
            assert(l[26].0 == 35);
        } else if d == 36 {
            assert(l[27].0 == 36);
        } else if d == 38 {
            assert(l[28].0 == 38);
        } else if d == 39 {
            assert(l[29].0 == 39);
        } else if d == 40 {
            assert(l[30].0 == 40);
        } else if d == 43 {
            assert(l[31].0 == 43);
        } else if d == 44 {
            assert(l[32].0 == 44);
        } else if d == 45 {
            assert(l[33].0 == 45);
        } else if d == 46 {
            assert(l[34].0 == 46);
        } else if d == 47 {
            assert(l[35].0 == 47);
        } else if d == 48 {
            assert(l[36].0 == 48);
        } else if d == 60 {
            assert(l[37].0 == 60);
        } else if d == 61 {
            assert(l[38].0 == 61);
        } else if d == 63 {
            assert(l[39].0 == 63);
        } else if d == 64 {
            assert(l[40].0 == 64);
        }
    }
}

pub fn weapon_value(def: i32) -> (r: u32)
    ensures
        r == spec_weapon_value(def),
        r <= 5200,
        forall|i: int| 0 <= i < cs2_buy_prices().len() && (#[trigger] cs2_buy_prices()[i]).0 == def ==> r
            == cs2_buy_prices()[i].1,
        !has_buy_price(def) ==> r == 0,
{
    proof {
        law_weapon_value_is_the_buy_price();
    }
    match def {
        1 => 700,
        2 => 300,
        3 => 500,
        4 => 200,
        7 => 2700,
        8 => 3300,
        9 => 4750,
        10 => 2050,
        11 => 5000,
        13 => 1800,
        14 => 5200,
        16 => 3100,
        17 => 1050,
        19 => 2350,
        23 => 1500,
        24 => 1200,
        25 => 2000,
        26 => 1400,
        27 => 1300,
        28 => 1700,
        29 => 1100,
        30 => 500,
        31 => 200,
        32 => 200,
        33 => 1500,
        34 => 1250,
        35 => 1050,
        36 => 300,
        38 => 5000,
        39 => 3000,
        40 => 1700,
        43 => 200,
        44 => 300,
        45 => 300,
        46 => 400,
        47 => 50,
        48 => 600,
        60 => 2900,
        61 => 200,
        63 => 500,
        64 => 600,
        _ => 0,
    }
}

/// The value of an inventory: the sum of its weapons' prices.
pub open spec fn inventory_value(index: Cs2LibEconIndex, defs: Seq<i32>) -> int
    decreases defs.len(),
{
    if defs.len() == 0 {
        0
    } else {
        inventory_value(index, defs.drop_last()) + spec_weapon_value(index.spec_normalize(defs.last()))
    }
}

proof fn lemma_inventory_value_prefix(index: Cs2LibEconIndex, defs: Seq<i32>, k: int)
    requires
        0 <= k <= defs.len(),
    ensures
        0 <= inventory_value(index, defs.take(k)) <= inventory_value(index, defs),
    decreases defs.len() - k,
{
    if k < defs.len() {
        assert(defs.take(k + 1).drop_last() =~= defs.take(k));
        lemma_inventory_value_prefix(index, defs, k + 1);
        lemma_inventory_value_nonnegative(index, defs.take(k));
        assert(inventory_value(index, defs.take(k + 1)) == inventory_value(index, defs.take(k)) + spec_weapon_value(index.spec_normalize(defs.take(k + 1).last())));
    } else {
        assert(defs.take(k) =~= defs);
        lemma_inventory_value_nonnegative(index, defs);
    }
}

proof fn lemma_inventory_value_nonnegative(index: Cs2LibEconIndex, defs: Seq<i32>)
    ensures
        inventory_value(index, defs) >= 0,
    decreases defs.len(),
{
    if defs.len() > 0 {
        lemma_inventory_value_nonnegative(index, defs.drop_last());
    }
}

/// The value of an inventory; the sum must fit a `u32` (the sum overflows otherwise).
pub fn infer_inventory_value(index: &Cs2LibEconIndex, defs: &[i32]) -> (r: u32)
    requires
        inventory_value(*index, defs@) <= u32::MAX,
    ensures
        r == inventory_value(*index, defs@),
{
    let mut total: u32 = 0;
    let mut k: usize = 0;
    while k < defs.len()
        invariant
            k <= defs.len(),
            inventory_value(*index, defs@) <= u32::MAX,
            total == inventory_value(*index, defs@.take(k as int)),
        decreases defs.len() - k,
    {
        proof {
            assert(defs@.take(k + 1).drop_last() =~= defs@.take(k as int));
            assert(defs@.take(k + 1).last() == defs@[k as int]);
            lemma_inventory_value_prefix(*index, defs@, k + 1);
        }
        let v = weapon_value(index.normalize_weapon_def_index(defs[k]));
        total = total + v;
        k = k + 1;
    }
    proof {
        assert(defs@.take(defs@.len() as int) =~= defs@);
    }
    total
}

/// The value of an inventory, or `None` when the sum does not fit a `u32`
/// (where the plain sum overflows).
pub fn checked_inventory_value(index: &Cs2LibEconIndex, defs: &[i32]) -> (r: Option<u32>)
    ensures
        match r {
            Some(v) => v == inventory_value(*index, defs@),
            None => inventory_value(*index, defs@) > u32::MAX,
        },
{
    let mut total: u32 = 0;
    let mut k: usize = 0;
    while k < defs.len()
        invariant
            k <= defs.len(),
            total == inventory_value(*index, defs@.take(k as int)),
        decreases defs.len() - k,
    {
        proof {
            assert(defs@.take(k + 1).drop_last() =~= defs@.take(k as int));
            assert(defs@.take(k + 1).last() == defs@[k as int]);
        }
        let v = weapon_value(index.normalize_weapon_def_index(defs[k]));
        if total > u32::MAX - v {
            proof {
                lemma_inventory_value_prefix(*index, defs@, k + 1);
            }
            return None;
        }
        total = total + v;
        k = k + 1;
    }
    proof {
        assert(defs@.take(defs@.len() as int) =~= defs@);
    }
    Some(total)
}

/// The first round and the second half's first round are pistol rounds.
pub fn is_pistol_round(round: u32) -> (r: bool)
    ensures
        r == (round == 0 || round == 12),
{
    round == 0 || round == 12
}

/// A living player of the team, in the tick range.
pub open spec fn economy_row(r: RoundRow, start_tick: i32, end_tick: i32, team_num: u8) -> bool {
    start_tick <= r.tick <= end_tick && r.team_num == team_num && r.is_alive && r.steam_id != 0
}

pub open spec fn lists_steam(rows: Seq<RoundRow>, steam: u64) -> bool {
    exists|i: int| 0 <= i < rows.len() && (#[trigger] rows[i]).steam_id == steam
}

/// Each player's first row of the team in the tick range.
pub open spec fn first_rows(rows: Seq<RoundRow>, start_tick: i32, end_tick: i32, team_num: u8) -> Seq<RoundRow>
    decreases rows.len(),
{
    if rows.len() == 0 {
        seq![]
    } else {
        let prev = first_rows(rows.drop_last(), start_tick, end_tick, team_num);
        let r = rows.last();
        if economy_row(r, start_tick, end_tick, team_num) && !lists_steam(prev, r.steam_id) {
            prev.push(r)
        } else {
            prev
        }
    }
}

/// A player's equipment value at the start of the round: the reported one,
/// or the inventory's value when higher.
pub open spec fn start_value(index: Cs2LibEconIndex, r: RoundRow) -> int {
    let inferred = inventory_value(index, r.inventory_as_ids@);
    if r.round_start_equip_value >= inferred {
        r.round_start_equip_value as int
    } else {
        inferred
    }
}

/// A player's total equipment value: the reported one, at least the start value.
pub open spec fn total_value(index: Cs2LibEconIndex, r: RoundRow) -> int {
    if r.equipment_value_total >= start_value(index, r) {
        r.equipment_value_total as int
    } else {
        start_value(index, r)
    }
}

pub open spec fn sum_start(index: Cs2LibEconIndex, rs: Seq<RoundRow>) -> int
    decreases rs.len(),
{
    if rs.len() == 0 {
        0
    } else {
        sum_start(index, rs.drop_last()) + start_value(index, rs.last())
    }
}

pub open spec fn sum_total(index: Cs2LibEconIndex, rs: Seq<RoundRow>) -> int
    decreases rs.len(),
{
    if rs.len() == 0 {
        0
    } else {
        sum_total(index, rs.drop_last()) + total_value(index, rs.last())
    }
}

pub open spec fn sum_saved(rs: Seq<RoundRow>) -> int
    decreases rs.len(),
{
    if rs.len() == 0 {
        0
    } else {
        sum_saved(rs.drop_last()) + rs.last().money_saved_total
    }
}

pub open spec fn sum_spent(rs: Seq<RoundRow>) -> int
    decreases rs.len(),
{
    if rs.len() == 0 {
        0
    } else {
        sum_spent(rs.drop_last()) + rs.last().cash_spent_this_round
    }
}

/// A sum saturated at `u32::MAX`.
pub open spec fn saturated(s: int) -> u32 {
    if s >= u32::MAX {
        u32::MAX
    } else {
        s as u32
    }
}

fn sat_add(acc: u32, x: u32, Ghost(s): Ghost<int>) -> (r: u32)
    requires
        s >= 0,
        acc == saturated(s),
    ensures
        r == saturated(s + x),
{
    if acc > u32::MAX - x {
        u32::MAX
    } else {
        acc + x
    }
}

proof fn lemma_sums_nonnegative(index: Cs2LibEconIndex, rs: Seq<RoundRow>)
    ensures
        sum_start(index, rs) >= 0,
        sum_total(index, rs) >= 0,
        sum_saved(rs) >= 0,
        sum_spent(rs) >= 0,
    decreases rs.len(),
{
    if rs.len() > 0 {
        lemma_sums_nonnegative(index, rs.drop_last());
        lemma_inventory_value_nonnegative(index, rs.last().inventory_as_ids@);
    }
}

/// The economy of a team in a round: over each living player's first row
/// in the tick range, the start and total equipment values, money saved and
/// cash spent, each summed and saturated at `u32::MAX`. The class is
/// `Pistol` in a pistol round, `Unknown` for a team with no players, and
/// otherwise what `classify` gives for the player count and the larger of
/// the two equipment sums. `None` when the inventory value of a first row
/// does not fit a `u32` (where its plain sum overflows).
pub fn team_economy<F: Fn(usize, u32) -> EconomyClass>(
    index: &Cs2LibEconIndex,
    round_rows: &[RoundRow],
    start_tick: i32,
    end_tick: i32,
    team_num: u8,
    pistol_round: bool,
    classify: &F,
) -> (result: Option<TeamEconomy>)
    requires
        forall|p: usize, v: u32| classify.requires((p, v)),
    ensures
        result is None <==> exists|i: int| 0 <= i < first_rows(round_rows@, start_tick, end_tick, team_num).len() && inventory_value(*index, (#[trigger] first_rows(round_rows@, start_tick, end_tick, team_num)[i]).inventory_as_ids@) > u32::MAX,
        result matches Some(r) ==> {
            &&& r.players == first_rows(round_rows@, start_tick, end_tick, team_num).len()
            &&& r.round_start_equipment_value == saturated(sum_start(*index, first_rows(round_rows@, start_tick, end_tick, team_num)))
            &&& r.equipment_value_total == saturated(sum_total(*index, first_rows(round_rows@, start_tick, end_tick, team_num)))
            &&& r.money_saved_total == saturated(sum_saved(first_rows(round_rows@, start_tick, end_tick, team_num)))
            &&& r.cash_spent_this_round == saturated(sum_spent(first_rows(round_rows@, start_tick, end_tick, team_num)))
            &&& (pistol_round ==> r.class == EconomyClass::Pistol)
            &&& (!pistol_round && r.players == 0 ==> r.class == EconomyClass::Unknown)
            &&& (!pistol_round && r.players > 0 ==> classify.ensures((r.players, if r.round_start_equipment_value >= r.equipment_value_total {
                r.round_start_equipment_value
            } else {
                r.equipment_value_total
            }), r.class))
            &&& (team_num == 2 ==> r.side@ == "t"@)
            &&& (team_num == 3 ==> r.side@ == "ct"@)
            &&& (team_num != 2 && team_num != 3 ==> r.side@ == "unknown"@)
        },
{
    let mut seen: Vec<u64> = Vec::new();
    let mut start_sum: u32 = 0;
    let mut total_sum: u32 = 0;
    let mut saved_sum: u32 = 0;
    let mut spent_sum: u32 = 0;
    let mut k: usize = 0;
    while k < round_rows.len()
        invariant
            k <= round_rows.len(),
            forall|i: int| 0 <= i < seen@.len() ==> inventory_value(*index, (#[trigger] first_rows(round_rows@.take(k as int), start_tick, end_tick, team_num)[i]).inventory_as_ids@) <= u32::MAX,
            seen@.len() == first_rows(round_rows@.take(k as int), start_tick, end_tick, team_num).len(),
            forall|i: int| 0 <= i < seen@.len() ==> seen@[i] == (#[trigger] first_rows(round_rows@.take(k as int), start_tick, end_tick, team_num)[i]).steam_id,
            first_rows(round_rows@, start_tick, end_tick, team_num).len() >= seen@.len(),
            forall|i: int| 0 <= i < seen@.len() ==> first_rows(round_rows@, start_tick, end_tick, team_num)[i] == #[trigger] first_rows(round_rows@.take(k as int), start_tick, end_tick, team_num)[i],
            start_sum == saturated(sum_start(*index, first_rows(round_rows@.take(k as int), start_tick, end_tick, team_num))),
            total_sum == saturated(sum_total(*index, first_rows(round_rows@.take(k as int), start_tick, end_tick, team_num))),
            saved_sum == saturated(sum_saved(first_rows(round_rows@.take(k as int), start_tick, end_tick, team_num))),
            spent_sum == saturated(sum_spent(first_rows(round_rows@.take(k as int), start_tick, end_tick, team_num))),
        decreases round_rows.len() - k,
    {
        let row = &round_rows[k];
        let ghost pre = first_rows(round_rows@.take(k as int), start_tick, end_tick, team_num);
        proof {
            assert(round_rows@.take(k + 1).drop_last() =~= round_rows@.take(k as int));
            assert(round_rows@.take(k + 1).last() == round_rows@[k as int]);
            lemma_sums_nonnegative(*index, pre);
            lemma_first_rows_prefix(round_rows@, k + 1, start_tick, end_tick, team_num);
        }
        if row.tick >= start_tick && row.tick <= end_tick && row.team_num == team_num && row.is_alive && row.steam_id != 0 {
            let mut found = false;
            let mut j: usize = 0;
            while j < seen.len()
                invariant
                    j <= seen@.len(),
                    found <==> exists|a: int| 0 <= a < j && seen@[a] == row.steam_id,
                decreases seen.len() - j,
            {
                if seen[j] == row.steam_id {
                    found = true;
                }
                j = j + 1;
            }
            proof {
                assert(found <==> lists_steam(pre, row.steam_id)) by {
                    if found {
                        let a = choose|a: int| 0 <= a < seen@.len() && seen@[a] == row.steam_id;
                        assert(pre[a].steam_id == seen@[a]);
                    }
                    if lists_steam(pre, row.steam_id) {
                        let a = choose|a: int| 0 <= a < pre.len() && (#[trigger] pre[a]).steam_id == row.steam_id;
                        assert(seen@[a] == pre[a].steam_id);
                    }
                }
            }
            if !found {
                let ghost now = pre.push(rows_at(round_rows@, k as int));
                proof {
                    assert(now == first_rows(round_rows@.take(k + 1), start_tick, end_tick, team_num));
                    let whole = first_rows(round_rows@, start_tick, end_tick, team_num);
                    assert(whole[pre.len() as int] == now[pre.len() as int]);
                    assert(now.drop_last() =~= pre);
                }
                let inferred = match checked_inventory_value(index, row.inventory_as_ids.as_slice()) {
                    Some(v) => v,
                    None => {
                        proof {
                            let whole = first_rows(round_rows@, start_tick, end_tick, team_num);
                            assert(inventory_value(*index, whole[pre.len() as int].inventory_as_ids@) > u32::MAX);
                        }
                        return None;
                    },
                };
                let start_value_here = if row.round_start_equip_value >= inferred {
                    row.round_start_equip_value
                } else {
                    inferred
                };
                let total_value_here = if row.equipment_value_total >= start_value_here {
                    row.equipment_value_total
                } else {
                    start_value_here
                };
                start_sum = sat_add(start_sum, start_value_here, Ghost(sum_start(*index, pre)));
                total_sum = sat_add(total_sum, total_value_here, Ghost(sum_total(*index, pre)));
                saved_sum = sat_add(saved_sum, row.money_saved_total, Ghost(sum_saved(pre)));
                spent_sum = sat_add(spent_sum, row.cash_spent_this_round, Ghost(sum_spent(pre)));
                seen.push(row.steam_id);
                proof {
                    assert forall|i: int| 0 <= i < seen@.len() implies seen@[i] == (#[trigger] now[i]).steam_id by {
                        if i < pre.len() {
                            assert(now[i] == pre[i]);
                        }
                    }
                    assert forall|i: int| 0 <= i < seen@.len() implies inventory_value(*index, (#[trigger] now[i]).inventory_as_ids@) <= u32::MAX by {
                        if i < pre.len() {
                            assert(now[i] == pre[i]);
                        }
                    }
                }
            }
        }
        k = k + 1;
    }
    proof {
        assert(round_rows@.take(round_rows@.len() as int) =~= round_rows@);
    }
    let value = if start_sum >= total_sum {
        start_sum
    } else {
        total_sum
    };
    let class = if pistol_round {
        EconomyClass::Pistol
    } else if seen.len() == 0 {
        EconomyClass::Unknown
    } else {
        classify(seen.len(), value)
    };
    Some(TeamEconomy {
        side: string_of(Side::team_dir(team_num)),
        players: seen.len(),
        round_start_equipment_value: start_sum,
        equipment_value_total: total_sum,
        money_saved_total: saved_sum,
        cash_spent_this_round: spent_sum,
        class,
    })
}

spec fn rows_at(rows: Seq<RoundRow>, k: int) -> RoundRow {
    rows[k]
}

/// The first rows of a prefix begin the first rows of the whole.
proof fn lemma_first_rows_prefix(rows: Seq<RoundRow>, n: int, start_tick: i32, end_tick: i32, team_num: u8)
    requires
        0 <= n <= rows.len(),
    ensures
        first_rows(rows.take(n), start_tick, end_tick, team_num).len() <= first_rows(rows, start_tick, end_tick, team_num).len(),
        forall|i: int| 0 <= i < first_rows(rows.take(n), start_tick, end_tick, team_num).len() ==> first_rows(rows, start_tick, end_tick, team_num)[i] == #[trigger] first_rows(rows.take(n), start_tick, end_tick, team_num)[i],
    decreases rows.len() - n,
{
    if n < rows.len() {
        lemma_first_rows_prefix(rows, n + 1, start_tick, end_tick, team_num);
        assert(rows.take(n + 1).drop_last() =~= rows.take(n));
        let a = first_rows(rows.take(n), start_tick, end_tick, team_num);
        let b = first_rows(rows.take(n + 1), start_tick, end_tick, team_num);
        assert(a.len() <= b.len());
        assert forall|i: int| 0 <= i < a.len() implies b[i] == a[i] by {}
    } else {
        assert(rows.take(n) =~= rows);
    }
}

} // verus!
