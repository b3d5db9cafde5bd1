//! Short holes in a demo's global tick sequence: a few ticks at which no
//! snapshot of any player was recorded. A player seen unambiguously on both
//! sides of such a hole, in the same lifecycle, gets a row at each missing
//! tick; the rows themselves are interpolated by the caller.
use vstd::prelude::*;

verus! {

/// The longest run of missing global ticks that is filled in.
pub const MAX_REPAIRABLE_GLOBAL_GAP_TICKS: i32 = 8;

/// What the gap repair reads of a player row.
#[derive(Clone, Copy, Debug)]
pub struct GapRow {
    pub round: u32,
    pub tick: i32,
    pub steam_id: u64,
    pub team_num: u8,
    pub is_alive: bool,
    pub player_user_id: Option<i32>,
    pub player_entity_id: Option<i32>,
}

/// One row to fill in: the player of row `before` at `tick`, which lies
/// between the player's rows `before` and `after`.
#[derive(Clone, Copy, Debug, PartialEq, Eq, Structural)]
pub struct GapRepair {
    pub before: usize,
    pub after: usize,
    pub tick: i32,
}

/// Two rows of one player in one lifecycle: same player, round, team, life
/// state and entity (the round phase may change across a hole).
pub open spec fn spec_stable(before: GapRow, after: GapRow) -> bool {
    &&& before.steam_id == after.steam_id
    &&& before.round == after.round
    &&& before.team_num == after.team_num
    &&& before.is_alive == after.is_alive
    &&& before.player_user_id == after.player_user_id
    &&& before.player_entity_id == after.player_entity_id
}

pub fn stable_across_missing_tick(before: &GapRow, after: &GapRow) -> (r: bool)
    ensures
        r == spec_stable(*before, *after),
{
    before.steam_id == after.steam_id && before.round == after.round && before.team_num == after.team_num
        && before.is_alive == after.is_alive && before.player_user_id == after.player_user_id
        && before.player_entity_id == after.player_entity_id
}

/// Row `i` is the only row of its player at its tick.
pub open spec fn unique_at(rows: Seq<GapRow>, i: int) -> bool {
    forall|k: int|
        0 <= k < rows.len() && k != i ==> !((#[trigger] rows[k]).tick == rows[i].tick && rows[k].steam_id
            == rows[i].steam_id)
}

/// No row lies strictly between ticks `b` and `a`.
pub open spec fn no_tick_between(rows: Seq<GapRow>, b: int, a: int) -> bool {
    forall|k: int| 0 <= k < rows.len() ==> !(b < (#[trigger] rows[k]).tick && rows[k].tick < a)
}

/// Tick `t` is to be filled in for the player of row `i` from rows `i` and
/// `j`: these are the only rows of one player (not SteamID 0) at two
/// consecutive global ticks with 1 to 8 ticks missing between them, they
/// show the player in one lifecycle, and `t` is one of the missing ticks.
pub open spec fn repair_owed(rows: Seq<GapRow>, i: int, j: int, t: int) -> bool {
    &&& 0 <= i < rows.len()
    &&& 0 <= j < rows.len()
    &&& rows[i].steam_id != 0
    &&& rows[j].steam_id == rows[i].steam_id
    &&& 1 <= rows[j].tick - rows[i].tick - 1 <= MAX_REPAIRABLE_GLOBAL_GAP_TICKS
    &&& no_tick_between(rows, rows[i].tick as int, rows[j].tick as int)
    &&& unique_at(rows, i)
    &&& unique_at(rows, j)
    &&& spec_stable(rows[i], rows[j])
    &&& rows[i].tick < t < rows[j].tick
}

/// The plan lists the repair of tick `t` from rows `i` and `j`.
pub open spec fn lists_repair(r: Seq<GapRepair>, i: int, j: int, t: int) -> bool {
    exists|k: int| 0 <= k < r.len() && (#[trigger] r[k]).before == i && r[k].after == j && r[k].tick == t
}

/// The smallest tick of any row after `b`.
fn next_global_tick(rows: &[GapRow], b: i32) -> (r: Option<i32>)
    ensures
        match r {
            Some(a) => b < a && (exists|k: int| 0 <= k < rows@.len() && (#[trigger] rows@[k]).tick == a)
                && no_tick_between(rows@, b as int, a as int),
            None => forall|k: int| 0 <= k < rows@.len() ==> (#[trigger] rows@[k]).tick <= b,
        },
{
    let mut best: Option<i32> = None;
    let mut k: usize = 0;
    while k < rows.len()
        invariant
            k <= rows@.len(),
            match best {
                Some(a) => b < a && (exists|m: int| 0 <= m < k && (#[trigger] rows@[m]).tick == a)
                    && forall|m: int| 0 <= m < k ==> !(b < (#[trigger] rows@[m]).tick && rows@[m].tick < a),
                None => forall|m: int| 0 <= m < k ==> (#[trigger] rows@[m]).tick <= b,
            },
        decreases rows.len() - k,
    {
        let t = rows[k].tick;
        if t > b {
            match best {
                None => {
                    best = Some(t);
                },
                Some(a) => {
                    if t < a {
                        best = Some(t);
                    }
                },
            }
        }
        k = k + 1;
    }
    best
}

/// Whether row `i` is the only row of its player at its tick.
fn only_row_at(rows: &[GapRow], i: usize) -> (r: bool)
    requires
        i < rows@.len(),
    ensures
        r == unique_at(rows@, i as int),
{
    let mut k: usize = 0;
    while k < rows.len()
        invariant
            i < rows@.len(),
            k <= rows@.len(),
            forall|m: int|
                0 <= m < k && m != i ==> !((#[trigger] rows@[m]).tick == rows@[i as int].tick && rows@[m].steam_id
                    == rows@[i as int].steam_id),
        decreases rows.len() - k,
    {
        if k != i && rows[k].tick == rows[i].tick && rows[k].steam_id == rows[i].steam_id {
            return false;
        }
        k = k + 1;
    }
    true
}

/// The only row of player `p` at tick `a`, when there is exactly one.
fn only_row_of_at(rows: &[GapRow], p: u64, a: i32) -> (r: Option<usize>)
    ensures
        match r {
            Some(j) => j < rows@.len() && rows@[j as int].steam_id == p && rows@[j as int].tick == a && unique_at(
                rows@,
                j as int,
            ),
            None => forall|j: int|
                0 <= j < rows@.len() && (#[trigger] rows@[j]).steam_id == p && rows@[j].tick == a ==> !unique_at(
                    rows@,
                    j,
                ),
        },
{
    let mut k: usize = 0;
    while k < rows.len()
        invariant
            k <= rows@.len(),
            forall|m: int| 0 <= m < k ==> !((#[trigger] rows@[m]).steam_id == p && rows@[m].tick == a),
        decreases rows.len() - k,
    {
        if rows[k].steam_id == p && rows[k].tick == a {
            if only_row_at(rows, k) {
                return Some(k);
            } else {
                proof {
                    assert forall|j: int|
                        0 <= j < rows@.len() && (#[trigger] rows@[j]).steam_id == p && rows@[j].tick == a implies !unique_at(
                        rows@,
                        j,
                    ) by {
                        if j != k {
                            assert(rows@[k as int].tick == rows@[j].tick && rows@[k as int].steam_id == rows@[j].steam_id);
                        }
                    }
                }
                return None;
            }
        }
        k = k + 1;
    }
    None
}

/// A repair from row `i` ends at the next global tick after row `i`.
proof fn lemma_partner_at_next_tick(rows: Seq<GapRow>, i: int, j: int, t: int, a: int)
    requires
        repair_owed(rows, i, j, t),
        rows[i].tick < a,
        exists|m: int| 0 <= m < rows.len() && (#[trigger] rows[m]).tick == a,
        no_tick_between(rows, rows[i].tick as int, a),
    ensures
        rows[j].tick == a,
{
    let m = choose|m: int| 0 <= m < rows.len() && (#[trigger] rows[m]).tick == a;
    assert(!(rows[i].tick < rows[m].tick && rows[m].tick < rows[j].tick));
    assert(!(rows[i].tick < rows[j].tick && rows[j].tick < a));
}

/// The repairs owed from row `i`, given what the scan found for it: none,
/// or those from its partner `j` at each tick before `a`.
pub open spec fn found_for(rows: Seq<GapRow>, i: int, plan: Option<(usize, i32)>) -> bool {
    match plan {
        None => forall|j: int, t: int| !#[trigger] repair_owed(rows, i, j, t),
        Some((j, a)) => {
            &&& rows[j as int].tick == a
            &&& forall|t: int| rows[i].tick < t < a ==> #[trigger] repair_owed(rows, i, j as int, t)
            &&& forall|j2: int, t: int| #[trigger] repair_owed(rows, i, j2, t) ==> j2 == j && rows[i].tick < t < a
        },
    }
}

/// What the scan finds for row `i`: its partner and the tick after the hole.
fn scan_row(rows: &[GapRow], i: usize) -> (plan: Option<(usize, i32)>)
    requires
        i < rows@.len(),
    ensures
        found_for(rows@, i as int, plan),
        plan matches Some((j, a)) ==> j < rows@.len() && rows@[i as int].tick < a,
{
    let row = rows[i];
    if row.steam_id == 0 {
        return None;
    }
    let a = match next_global_tick(rows, row.tick) {
        None => {
            proof {
                assert forall|j: int, t: int| !#[trigger] repair_owed(rows@, i as int, j, t) by {
                    if repair_owed(rows@, i as int, j, t) {
                        assert(rows@[j].tick <= row.tick);
                    }
                }
            }
            return None;
        },
        Some(a) => a,
    };
    proof {
        assert forall|j: int, t: int| #[trigger] repair_owed(rows@, i as int, j, t) implies rows@[j].tick == a by {
            lemma_partner_at_next_tick(rows@, i as int, j, t, a as int);
        }
    }
    let gap: i64 = a as i64 - row.tick as i64 - 1;
    if !(1 <= gap && gap <= MAX_REPAIRABLE_GLOBAL_GAP_TICKS as i64) || !only_row_at(rows, i) {
        return None;
    }
    let j = match only_row_of_at(rows, row.steam_id, a) {
        None => {
            return None;
        },
        Some(j) => j,
    };
    proof {
        assert forall|j2: int, t: int| #[trigger] repair_owed(rows@, i as int, j2, t) implies j2 == j by {
            if j2 != j {
                assert(rows@[j as int].tick == rows@[j2].tick && rows@[j as int].steam_id == rows@[j2].steam_id);
            }
        }
    }
    if !stable_across_missing_tick(&row, &rows[j]) {
        return None;
    }
    Some((j, a))
}

/// A player gets at most one row at a missing tick: two repairs owed to one
/// player at one tick come from the same pair of rows.
pub proof fn law_one_repair_per_player_tick(rows: Seq<GapRow>, i1: int, j1: int, i2: int, j2: int, t: int)
    requires
        repair_owed(rows, i1, j1, t),
        repair_owed(rows, i2, j2, t),
        rows[i1].steam_id == rows[i2].steam_id,
    ensures
        i1 == i2,
        j1 == j2,
{
    assert(!(rows[i1].tick < rows[i2].tick && rows[i2].tick < rows[j1].tick));
    assert(!(rows[i2].tick < rows[i1].tick && rows[i1].tick < rows[j2].tick));
    assert(!(rows[i1].tick < rows[j2].tick && rows[j2].tick < rows[j1].tick));
    assert(!(rows[i2].tick < rows[j1].tick && rows[j1].tick < rows[j2].tick));
    if i1 != i2 {
        assert(!(rows[i2].tick == rows[i1].tick && rows[i2].steam_id == rows[i1].steam_id));
    }
    if j1 != j2 {
        assert(!(rows[j2].tick == rows[j1].tick && rows[j2].steam_id == rows[j1].steam_id));
    }
}

/// The rows to fill in the short holes of the global tick sequence: exactly
/// the owed repairs, each once.
pub fn plan_short_global_tick_gap_repairs(rows: &[GapRow]) -> (r: Vec<GapRepair>)
    ensures
        forall|k: int|
            0 <= k < r@.len() ==> repair_owed(
                rows@,
                (#[trigger] r@[k]).before as int,
                r@[k].after as int,
                r@[k].tick as int,
            ),
        forall|i: int, j: int, t: int| #[trigger] repair_owed(rows@, i, j, t) ==> lists_repair(r@, i, j, t),
        forall|a: int, b: int|
            0 <= a < b < r@.len() ==> !((#[trigger] r@[a]).before == (#[trigger] r@[b]).before && r@[a].tick
                == r@[b].tick),
{
    let n = rows.len();
    let mut out: Vec<GapRepair> = Vec::new();
    let mut i: usize = 0;
    while i < n
        invariant
            n == rows@.len(),
            i <= n,
            forall|k: int|
                0 <= k < out@.len() ==> repair_owed(
                    rows@,
                    (#[trigger] out@[k]).before as int,
                    out@[k].after as int,
                    out@[k].tick as int,
                ) && out@[k].before < i,
            forall|i2: int, j: int, t: int|
                0 <= i2 < i && #[trigger] repair_owed(rows@, i2, j, t) ==> lists_repair(out@, i2, j, t),
            forall|a: int, b: int|
                0 <= a < b < out@.len() ==> !((#[trigger] out@[a]).before == (#[trigger] out@[b]).before
                    && out@[a].tick == out@[b].tick),
        decreases n - i,
    {
        let ghost start = out@;
        let plan = scan_row(rows, i);
        let b = rows[i].tick;
        if let Some((j, a)) = plan {
            let mut t: i32 = b + 1;
            while t < a
                invariant
                    n == rows@.len(),
                    i < n,
                    j < n,
                    b == rows@[i as int].tick,
                    b < t <= a,
                    found_for(rows@, i as int, plan),
                    plan == Some((j, a)),
                    out@.len() == start.len() + (t - b - 1),
                    forall|k: int| 0 <= k < start.len() ==> out@[k] == start[k],
                    forall|k: int|
                        start.len() <= k < out@.len() ==> (#[trigger] out@[k]).before == i && out@[k].after == j
                            && out@[k].tick == b + 1 + (k - start.len()),
                decreases a - t,
            {
                out.push(GapRepair { before: i, after: j, tick: t });
                t = t + 1;
            }
        }
        proof {
            if plan is None {
                assert(out@ == start);
            }
            assert forall|k: int| 0 <= k < out@.len() implies repair_owed(
                rows@,
                (#[trigger] out@[k]).before as int,
                out@[k].after as int,
                out@[k].tick as int,
            ) && out@[k].before < i + 1 by {
                if k < start.len() {
                    assert(out@[k] == start[k]);
                }
            }
            assert forall|i2: int, j2: int, t2: int|
                0 <= i2 < i + 1 && #[trigger] repair_owed(rows@, i2, j2, t2) implies lists_repair(out@, i2, j2, t2) by {
                if i2 < i {
                    let k = choose|k: int|
                        0 <= k < start.len() && (#[trigger] start[k]).before == i2 && start[k].after == j2 && start[k].tick
                            == t2;
                    assert(out@[k] == start[k]);
                } else {
                    let k = start.len() + (t2 - b - 1);
                    assert(out@[k].before == i && out@[k].after == j2 && out@[k].tick == t2);
                }
            }
            assert forall|x: int, y: int| 0 <= x < y < out@.len() implies !((#[trigger] out@[x]).before
                == (#[trigger] out@[y]).before && out@[x].tick == out@[y].tick) by {
                if y < start.len() {
                    assert(out@[x] == start[x] && out@[y] == start[y]);
                } else if x < start.len() {
                    assert(out@[x] == start[x]);
                }
            }
        }
        i = i + 1;
    }
    out
}

} // verus!
