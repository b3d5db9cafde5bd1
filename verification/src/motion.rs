//! Where a player's observed velocity comes from: the player's previous row,
//! when both rows show one living pawn in one round and team, with time
//! between them. The velocity itself (a difference of positions over time)
//! is computed by the caller.
use crate::gap_repair::GapRow;
use vstd::prelude::*;

verus! {

/// Row `m` is the last row of the player of row `k` before it.
pub open spec fn is_previous(rows: Seq<GapRow>, m: int, k: int) -> bool {
    &&& 0 <= m < k < rows.len()
    &&& rows[m].steam_id == rows[k].steam_id
    &&& forall|x: int| m < x < k ==> (#[trigger] rows[x]).steam_id != rows[k].steam_id
}

/// A velocity can be taken from `before` to `after`: a player (not SteamID
/// 0) alive in both, in one round and team, with the same pawn entity (or
/// none in both), and a later tick whose distance fits an `i32`.
pub open spec fn spec_velocity_pair(before: GapRow, after: GapRow) -> bool {
    &&& after.steam_id != 0
    &&& after.round == before.round
    &&& after.team_num == before.team_num
    &&& before.is_alive
    &&& after.is_alive
    &&& before.player_entity_id == after.player_entity_id
    &&& 0 < after.tick - before.tick <= i32::MAX
}

/// The velocity of row `k` is taken from row `s`: its player's previous row,
/// when the pair allows it; `None` when there is no such row or it does not.
pub open spec fn velocity_source(rows: Seq<GapRow>, k: int, s: Option<usize>) -> bool {
    match s {
        Some(m) => is_previous(rows, m as int, k) && spec_velocity_pair(rows[m as int], rows[k]),
        None => forall|m: int| #[trigger] is_previous(rows, m, k) ==> !spec_velocity_pair(rows[m], rows[k]),
    }
}

pub fn velocity_pair(before: &GapRow, after: &GapRow) -> (r: bool)
    ensures
        r == spec_velocity_pair(*before, *after),
{
    let delta: i64 = after.tick as i64 - before.tick as i64;
    after.steam_id != 0 && after.round == before.round && after.team_num == before.team_num && before.is_alive
        && after.is_alive && before.player_entity_id == after.player_entity_id && 0 < delta && delta
        <= i32::MAX as i64
}

/// The last row of the player of row `k` before it.
fn previous_row(rows: &[GapRow], k: usize) -> (r: Option<usize>)
    requires
        k < rows@.len(),
    ensures
        match r {
            Some(m) => is_previous(rows@, m as int, k as int),
            None => forall|m: int| !#[trigger] is_previous(rows@, m, k as int),
        },
{
    let p = rows[k].steam_id;
    let mut m: usize = k;
    while m > 0
        invariant
            k < rows@.len(),
            m <= k,
            p == rows@[k as int].steam_id,
            forall|x: int| m <= x < k ==> (#[trigger] rows@[x]).steam_id != p,
        decreases m,
    {
        if rows[m - 1].steam_id == p {
            return Some(m - 1);
        }
        m = m - 1;
    }
    proof {
        assert forall|m2: int| !#[trigger] is_previous(rows@, m2, k as int) by {
            if is_previous(rows@, m2, k as int) {
                assert(rows@[m2].steam_id != p);
            }
        }
    }
    None
}

/// For each row, the row its velocity is taken from.
pub fn velocity_sources(rows: &[GapRow]) -> (r: Vec<Option<usize>>)
    ensures
        r@.len() == rows@.len(),
        forall|k: int| 0 <= k < r@.len() ==> velocity_source(rows@, k, #[trigger] r@[k]),
{
    let mut out: Vec<Option<usize>> = Vec::new();
    let mut k: usize = 0;
    while k < rows.len()
        invariant
            k <= rows@.len(),
            out@.len() == k,
            forall|x: int| 0 <= x < k ==> velocity_source(rows@, x, #[trigger] out@[x]),
        decreases rows.len() - k,
    {
        let source = match previous_row(rows, k) {
            None => None,
            Some(m) => {
                if velocity_pair(&rows[m], &rows[k]) {
                    Some(m)
                } else {
                    proof {
                        assert forall|m2: int| #[trigger] is_previous(rows@, m2, k as int) implies !spec_velocity_pair(
                            rows@[m2],
                            rows@[k as int],
                        ) by {
                            if m2 < m {
                                assert(rows@[m as int].steam_id != rows@[k as int].steam_id);
                            } else if m < m2 {
                                assert(rows@[m2].steam_id != rows@[k as int].steam_id);
                            }
                        }
                    }
                    None
                }
            },
        };
        out.push(source);
        proof {
            assert(out@[k as int] == source);
        }
        k = k + 1;
    }
    out
}

} // verus!
