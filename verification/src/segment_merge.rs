//! Checks that the parsed segments of one match fit together, and the merge
//! of their completed rounds onto one continuous tick line.
use crate::demo_series::CompletedRound;
use crate::error::Error;
use crate::segment_rounds::{bump_count, describes_counts, is_modal_key, modal_key, SegmentRow, lemma_modal_key_of_entries};
use crate::demo_series::{mismatch_message, mode_score, require_matching_optional, require_matching_optional_ref};
use crate::model::{ParsedAvatarOverride, ParsedGameEvent};
use crate::text::{decimal, eq_ignore_ascii_case, signed_decimal, trim};
use vstd::prelude::*;

verus! {

// ---------------------------------------------------------------------------
// Scores of the players at a round
// ---------------------------------------------------------------------------

/// A live row of a player on a playing side, inside the round's freeze end
/// and round end, that reports the team's round total.
pub open spec fn is_score_observation(row: SegmentRow, round: CompletedRound) -> bool {
    &&& row.steam_id != 0
    &&& (row.team_num == 2 || row.team_num == 3)
    &&& row.round_in_progress
    &&& !row.is_freeze_period
    &&& round.freeze_end_tick <= row.tick <= round.round_end_tick
    &&& row.team_rounds_total is Some
}

/// How many observations show player `steam` on side `team` with total `score`.
pub open spec fn observation_count(rows: Seq<SegmentRow>, round: CompletedRound, steam: u64, team: u8, score: u32) -> nat
    decreases rows.len(),
{
    if rows.len() == 0 {
        0
    } else {
        let row = rows.last();
        observation_count(rows.drop_last(), round, steam, team, score) + if is_score_observation(row, round)
            && row.steam_id == steam && row.team_num == team && row.team_rounds_total == Some(score) {
            1nat
        } else {
            0nat
        }
    }
}

pub open spec fn side_counts(rows: Seq<SegmentRow>, round: CompletedRound, steam: u64, team: u8) -> spec_fn(u32) -> nat {
    |s: u32| observation_count(rows, round, steam, team, s)
}

/// The side and total most observations of a player show; on a tie the
/// smaller side, then the smaller total.
pub open spec fn modal_observation(rows: Seq<SegmentRow>, round: CompletedRound, steam: u64) -> Option<(u8, u32)> {
    match (modal_key(side_counts(rows, round, steam, 2)), modal_key(side_counts(rows, round, steam, 3))) {
        (None, None) => None,
        (Some(a), None) => Some((2u8, a)),
        (None, Some(b)) => Some((3u8, b)),
        (Some(a), Some(b)) => if observation_count(rows, round, steam, 2, a) >= observation_count(rows, round, steam, 3, b) {
            Some((2u8, a))
        } else {
            Some((3u8, b))
        },
    }
}

/// A player's score at the round: the modal total, plus one for a win of the
/// round when asked, when that fits.
pub open spec fn player_score(rows: Seq<SegmentRow>, round: CompletedRound, steam: u64, include_round_win: bool) -> Option<u32> {
    match modal_observation(rows, round, steam) {
        Some((team, score)) => {
            let v = score + if include_round_win && team == round.winner_side { 1int } else { 0int };
            if v <= u32::MAX {
                Some(v as u32)
            } else {
                None
            }
        },
        None => None,
    }
}

/// `v` lists every player with a score at the round, ascending by SteamID.
pub open spec fn lists_player_scores(v: Seq<(u64, u32)>, rows: Seq<SegmentRow>, round: CompletedRound, include_round_win: bool) -> bool {
    &&& forall|a: int, b: int| 0 <= a < b < v.len() ==> (#[trigger] v[a]).0 < (#[trigger] v[b]).0
    &&& forall|j: int| 0 <= j < v.len() ==> player_score(rows, round, (#[trigger] v[j]).0, include_round_win) == Some(v[j].1)
    &&& forall|steam: u64| #[trigger] player_score(rows, round, steam, include_round_win) is Some ==> exists|j: int|
        0 <= j < v.len() && (#[trigger] v[j]).0 == steam
}

proof fn lemma_observation_count_step(rows: Seq<SegmentRow>, i: int, round: CompletedRound, steam: u64, team: u8, s: u32)
    requires
        0 <= i < rows.len(),
    ensures
        observation_count(rows.take(i + 1), round, steam, team, s) == observation_count(rows.take(i), round, steam, team, s)
            + if is_score_observation(rows[i], round) && rows[i].steam_id == steam && rows[i].team_num == team
            && rows[i].team_rounds_total == Some(s) {
            1nat
        } else {
            0nat
        },
{
    assert(rows.take(i + 1).drop_last() =~= rows.take(i));
}

proof fn lemma_observation_count_bound(rows: Seq<SegmentRow>, round: CompletedRound, steam: u64, team: u8, s: u32)
    ensures
        observation_count(rows, round, steam, team, s) <= rows.len(),
    decreases rows.len(),
{
    if rows.len() > 0 {
        lemma_observation_count_bound(rows.drop_last(), round, steam, team, s);
    }
}

proof fn lemma_observation_witness(rows: Seq<SegmentRow>, round: CompletedRound, steam: u64, team: u8, s: u32)
    ensures
        observation_count(rows, round, steam, team, s) > 0 ==> exists|i: int|
            0 <= i < rows.len() && is_score_observation(#[trigger] rows[i], round) && rows[i].steam_id == steam,
    decreases rows.len(),
{
    if rows.len() > 0 {
        lemma_observation_witness(rows.drop_last(), round, steam, team, s);
        if observation_count(rows.drop_last(), round, steam, team, s) > 0 {
            let i = choose|i: int|
                0 <= i < rows.drop_last().len() && is_score_observation(#[trigger] rows.drop_last()[i], round)
                    && rows.drop_last()[i].steam_id == steam;
            assert(rows[i] == rows.drop_last()[i]);
        }
    }
}

/// Adds `x` to an ascending list of distinct SteamIDs.
fn insert_player(v: &mut Vec<u64>, x: u64)
    requires
        forall|a: int, b: int| 0 <= a < b < old(v)@.len() ==> #[trigger] old(v)@[a] < #[trigger] old(v)@[b],
    ensures
        forall|a: int, b: int| 0 <= a < b < final(v)@.len() ==> #[trigger] final(v)@[a] < #[trigger] final(v)@[b],
        forall|y: u64| #[trigger] final(v)@.contains(y) <==> (old(v)@.contains(y) || y == x),
{
    let ghost before = v@;
    let mut p: usize = 0;
    while p < v.len() && v[p] < x
        invariant
            p <= v.len(),
            v@ == before,
            forall|a: int| 0 <= a < p ==> v@[a] < x,
        decreases v.len() - p,
    {
        p = p + 1;
    }
    if p < v.len() && v[p] == x {
        proof {
            assert(v@[p as int] == x);
        }
        return;
    }
    v.insert(p, x);
    proof {
        assert forall|a: int| 0 <= a < v@.len() && a != p implies #[trigger] v@[a] == (if a < p {
            before[a]
        } else {
            before[a - 1]
        }) by {}
        assert forall|a: int, b: int| 0 <= a < b < v@.len() implies #[trigger] v@[a] < #[trigger] v@[b] by {
            if b < p {
                assert(before[a] < before[b]);
            } else if b == p {
            } else if a < p {
                assert(before[p as int] > x);
                if b - 1 > p {
                    assert(before[p as int] < before[b - 1]);
                }
            } else if a == p {
                assert(before[p as int] > x);
                if b - 1 > p {
                    assert(before[p as int] < before[b - 1]);
                }
            } else {
                assert(before[a - 1] < before[b - 1]);
            }
        }
        assert forall|y: u64| #[trigger] v@.contains(y) <==> (before.contains(y) || y == x) by {
            if v@.contains(y) {
                let i = choose|i: int| 0 <= i < v@.len() && v@[i] == y;
                if i < p {
                    assert(before[i] == y);
                } else if i > p {
                    assert(before[i - 1] == y);
                }
            }
            if before.contains(y) {
                let i = choose|i: int| 0 <= i < before.len() && before[i] == y;
                if i < p {
                    assert(v@[i] == y);
                } else {
                    assert(v@[i + 1] == y);
                }
            }
            if y == x {
                assert(v@[p as int] == x);
            }
        }
    }
}

fn is_observation(row: &SegmentRow, round: &CompletedRound) -> (r: bool)
    ensures
        r == is_score_observation(*row, *round),
{
    row.steam_id != 0 && (row.team_num == 2 || row.team_num == 3) && row.round_in_progress && !row.is_freeze_period
        && round.freeze_end_tick <= row.tick && row.tick <= round.round_end_tick && row.team_rounds_total.is_some()
}

/// The players with an observation at the round, ascending.
fn observed_players(rows: &Vec<SegmentRow>, round: &CompletedRound) -> (r: Vec<u64>)
    ensures
        forall|a: int, b: int| 0 <= a < b < r@.len() ==> #[trigger] r@[a] < #[trigger] r@[b],
        forall|y: u64| #[trigger] r@.contains(y) <==> exists|i: int|
            0 <= i < rows@.len() && is_score_observation(#[trigger] rows@[i], *round) && rows@[i].steam_id == y,
{
    let mut players: Vec<u64> = Vec::new();
    let mut i: usize = 0;
    while i < rows.len()
        invariant
            i <= rows.len(),
            forall|a: int, b: int| 0 <= a < b < players@.len() ==> #[trigger] players@[a] < #[trigger] players@[b],
            forall|y: u64| #[trigger] players@.contains(y) <==> exists|k: int|
                0 <= k < i && is_score_observation(#[trigger] rows@[k], *round) && rows@[k].steam_id == y,
        decreases rows.len() - i,
    {
        if is_observation(&rows[i], round) {
            insert_player(&mut players, rows[i].steam_id);
        }
        proof {
            assert forall|y: u64| #[trigger] players@.contains(y) <==> exists|k: int|
                0 <= k < i + 1 && is_score_observation(#[trigger] rows@[k], *round) && rows@[k].steam_id == y by {
                if exists|k: int| 0 <= k < i + 1 && is_score_observation(#[trigger] rows@[k], *round) && rows@[k].steam_id == y {
                    let k = choose|k: int| 0 <= k < i + 1 && is_score_observation(#[trigger] rows@[k], *round) && rows@[k].steam_id == y;
                    if k < i {
                        assert(exists|k: int| 0 <= k < i && is_score_observation(#[trigger] rows@[k], *round) && rows@[k].steam_id == y);
                    }
                }
            }
        }
        i = i + 1;
    }
    players
}

/// The observation counts of one player on one side.
fn side_entries(rows: &Vec<SegmentRow>, round: &CompletedRound, steam: u64, team: u8) -> (r: Vec<(u32, usize)>)
    ensures
        describes_counts(r@, side_counts(rows@, *round, steam, team)),
{
    let mut entries: Vec<(u32, usize)> = Vec::new();
    let mut i: usize = 0;
    while i < rows.len()
        invariant
            i <= rows.len(),
            describes_counts(entries@, side_counts(rows@.take(i as int), *round, steam, team)),
        decreases rows.len() - i,
    {
        let row = rows[i];
        let ghost count = side_counts(rows@.take(i as int), *round, steam, team);
        let ghost next = side_counts(rows@.take(i + 1), *round, steam, team);
        proof {
            assert forall|q: u32| #[trigger] next(q) == count(q) + if is_score_observation(row, *round) && row.steam_id == steam
                && row.team_num == team && row.team_rounds_total == Some(q) {
                1nat
            } else {
                0nat
            } by {
                lemma_observation_count_step(rows@, i as int, *round, steam, team, q);
            }
        }
        if is_observation(&row, round) && row.steam_id == steam && row.team_num == team {
            match row.team_rounds_total {
                Some(score) => {
                    proof {
                        lemma_observation_count_bound(rows@.take(i as int), *round, steam, team, score);
                    }
                    bump_count(&mut entries, score, Ghost(count), Ghost(next));
                },
                None => {},
            }
        } else {
            proof {
                assert forall|q: u32| #[trigger] next(q) == count(q) by {}
            }
        }
        i = i + 1;
    }
    proof {
        assert(rows@.take(rows.len() as int) =~= rows@);
    }
    entries
}

fn count_of(entries: &Vec<(u32, usize)>, key: u32, Ghost(count): Ghost<spec_fn(u32) -> nat>) -> (r: usize)
    requires
        describes_counts(entries@, count),
    ensures
        r == count(key),
{
    let mut j: usize = 0;
    while j < entries.len()
        invariant
            j <= entries.len(),
            describes_counts(entries@, count),
            forall|q: int| 0 <= q < j ==> (#[trigger] entries@[q]).0 != key,
        decreases entries.len() - j,
    {
        if entries[j].0 == key {
            return entries[j].1;
        }
        j = j + 1;
    }
    proof {
        if count(key) > 0 {
            let q = choose|q: int| 0 <= q < entries@.len() && (#[trigger] entries@[q]).0 == key;
        }
    }
    0
}

/// Every player's score at a round: the side and team total most of the
/// player's live observations in the round show (the smaller side, then the
/// smaller total, on a tie), plus one for a round win when asked.
pub fn score_by_player(rows: &Vec<SegmentRow>, round: &CompletedRound, include_round_win: bool) -> (r: Vec<(u64, u32)>)
    ensures
        lists_player_scores(r@, rows@, *round, include_round_win),
{
    let players = observed_players(rows, round);
    let mut out: Vec<(u64, u32)> = Vec::new();
    let mut k: usize = 0;
    while k < players.len()
        invariant
            k <= players.len(),
            forall|a: int, b: int| 0 <= a < b < players@.len() ==> #[trigger] players@[a] < #[trigger] players@[b],
            forall|y: u64| #[trigger] players@.contains(y) <==> exists|i: int|
                0 <= i < rows@.len() && is_score_observation(#[trigger] rows@[i], *round) && rows@[i].steam_id == y,
            forall|a: int, b: int| 0 <= a < b < out@.len() ==> (#[trigger] out@[a]).0 < (#[trigger] out@[b]).0,
            forall|j: int| 0 <= j < out@.len() ==> player_score(rows@, *round, (#[trigger] out@[j]).0, include_round_win)
                == Some(out@[j].1),
            forall|j: int| 0 <= j < out@.len() ==> exists|m: int| 0 <= m < k && players@[m] == (#[trigger] out@[j]).0,
            forall|m: int| 0 <= m < k && player_score(rows@, *round, #[trigger] players@[m], include_round_win) is Some
                ==> exists|j: int| 0 <= j < out@.len() && (#[trigger] out@[j]).0 == players@[m],
        decreases players.len() - k,
    {
        let steam = players[k];
        let e2 = side_entries(rows, round, steam, 2);
        let e3 = side_entries(rows, round, steam, 3);
        let m2 = mode_score(&e2);
        let m3 = mode_score(&e3);
        proof {
            lemma_modal_key_of_entries(e2@, side_counts(rows@, *round, steam, 2), m2);
            lemma_modal_key_of_entries(e3@, side_counts(rows@, *round, steam, 3), m3);
        }
        let chosen: Option<(u8, u32)> = match (m2, m3) {
            (None, None) => None,
            (Some(a), None) => Some((2, a)),
            (None, Some(b)) => Some((3, b)),
            (Some(a), Some(b)) => {
                let ca = count_of(&e2, a, Ghost(side_counts(rows@, *round, steam, 2)));
                let cb = count_of(&e3, b, Ghost(side_counts(rows@, *round, steam, 3)));
                if ca >= cb {
                    Some((2, a))
                } else {
                    Some((3, b))
                }
            },
        };
        let ghost before = out@;
        match chosen {
            Some((team, score)) => {
                let won = include_round_win && team == round.winner_side;
                if !won {
                    out.push((steam, score));
                } else if score < u32::MAX {
                    out.push((steam, score + 1));
                }
            },
            None => {},
        }
        proof {
            assert(modal_observation(rows@, *round, steam) == chosen);
            assert forall|a: int| 0 <= a < before.len() implies (#[trigger] before[a]).0 < steam by {
                let m = choose|m: int| 0 <= m < k && players@[m] == before[a].0;
                assert(players@[m] < players@[k as int]);
            }
            assert forall|a: int, b: int| 0 <= a < b < out@.len() implies (#[trigger] out@[a]).0 < (#[trigger] out@[b]).0 by {
                if b >= before.len() {
                    assert(before[a].0 < steam);
                } else {
                    assert(out@[a] == before[a] && out@[b] == before[b]);
                }
            }
            assert forall|j: int| 0 <= j < out@.len() implies player_score(rows@, *round, (#[trigger] out@[j]).0, include_round_win)
                == Some(out@[j].1) by {
                if j < before.len() {
                    assert(out@[j] == before[j]);
                }
            }
            assert forall|j: int| 0 <= j < out@.len() implies exists|m: int| 0 <= m < k + 1 && players@[m] == (#[trigger] out@[j]).0 by {
                if j < before.len() {
                    assert(out@[j] == before[j]);
                    let m = choose|m: int| 0 <= m < k && players@[m] == before[j].0;
                    assert(players@[m] == out@[j].0);
                } else {
                    assert(players@[k as int] == out@[j].0);
                }
            }
            assert forall|m: int| 0 <= m < k + 1 && player_score(rows@, *round, #[trigger] players@[m], include_round_win) is Some
                implies exists|j: int| 0 <= j < out@.len() && (#[trigger] out@[j]).0 == players@[m] by {
                if m < k {
                    let j = choose|j: int| 0 <= j < before.len() && (#[trigger] before[j]).0 == players@[m];
                    assert(out@[j] == before[j]);
                } else {
                    assert(out@[before.len() as int].0 == steam);
                }
            }
        }
        k = k + 1;
    }
    proof {
        assert forall|steam: u64| #[trigger] player_score(rows@, *round, steam, include_round_win) is Some implies exists|j: int|
            0 <= j < out@.len() && (#[trigger] out@[j]).0 == steam by {
            let mo = modal_observation(rows@, *round, steam);
            let (team, score) = mo->0;
            let c = if team == 2 { side_counts(rows@, *round, steam, 2) } else { side_counts(rows@, *round, steam, 3) };
            assert(is_modal_key(c, score));
            lemma_observation_witness(rows@, *round, steam, team, score);
            assert(players@.contains(steam));
            let m = choose|m: int| 0 <= m < players@.len() && players@[m] == steam;
        }
    }
    out
}


/// The ascending listing of the players' scores at a round.
pub open spec fn score_listing(rows: Seq<SegmentRow>, round: CompletedRound, include_round_win: bool) -> Seq<(u64, u32)> {
    choose|v: Seq<(u64, u32)>| lists_player_scores(v, rows, round, include_round_win)
}

pub open spec fn has_key(s: Seq<(u64, u32)>, key: u64) -> bool {
    exists|y: int| 0 <= y < s.len() && (#[trigger] s[y]).0 == key
}

proof fn lemma_listing_tails_equal(a: Seq<(u64, u32)>, b: Seq<(u64, u32)>)
    requires
        forall|x: int, y: int| 0 <= x < y < a.len() ==> (#[trigger] a[x]).0 < (#[trigger] a[y]).0,
        forall|x: int, y: int| 0 <= x < y < b.len() ==> (#[trigger] b[x]).0 < (#[trigger] b[y]).0,
        forall|k: int| 0 <= k < a.len() ==> has_key(b, (#[trigger] a[k]).0),
        forall|k: int| 0 <= k < b.len() ==> has_key(a, (#[trigger] b[k]).0),
        forall|x: int, y: int| 0 <= x < a.len() && 0 <= y < b.len() && (#[trigger] a[x]).0 == (#[trigger] b[y]).0 ==> a[x].1 == b[y].1,
    ensures
        a == b,
    decreases a.len(),
{
    if a.len() == 0 {
        if b.len() > 0 {
            assert(has_key(a, b[0].0));
        }
        assert(a =~= b);
    } else {
        assert(has_key(b, a[0].0));
        let j = choose|j: int| 0 <= j < b.len() && (#[trigger] b[j]).0 == a[0].0;
        assert(has_key(a, b[0].0));
        let i = choose|i: int| 0 <= i < a.len() && (#[trigger] a[i]).0 == b[0].0;
        if i > 0 {
            assert(a[0].0 < a[i].0);
        }
        if j > 0 {
            assert(b[0].0 < b[j].0);
        }
        assert(a[0] == b[0]);
        let a1 = a.drop_first();
        let b1 = b.drop_first();
        assert forall|x: int, y: int| 0 <= x < y < a1.len() implies (#[trigger] a1[x]).0 < (#[trigger] a1[y]).0 by {
            assert(a1[x] == a[x + 1] && a1[y] == a[y + 1]);
        }
        assert forall|x: int, y: int| 0 <= x < y < b1.len() implies (#[trigger] b1[x]).0 < (#[trigger] b1[y]).0 by {
            assert(b1[x] == b[x + 1] && b1[y] == b[y + 1]);
        }
        assert forall|k: int| 0 <= k < a1.len() implies has_key(b1, (#[trigger] a1[k]).0) by {
            assert(a1[k] == a[k + 1]);
            assert(a[0].0 < a[k + 1].0);
            assert(has_key(b, a[k + 1].0));
            let y = choose|y: int| 0 <= y < b.len() && (#[trigger] b[y]).0 == a[k + 1].0;
            assert(y != 0);
            assert(b1[y - 1] == b[y]);
        }
        assert forall|k: int| 0 <= k < b1.len() implies has_key(a1, (#[trigger] b1[k]).0) by {
            assert(b1[k] == b[k + 1]);
            assert(b[0].0 < b[k + 1].0);
            assert(has_key(a, b[k + 1].0));
            let y = choose|y: int| 0 <= y < a.len() && (#[trigger] a[y]).0 == b[k + 1].0;
            assert(y != 0);
            assert(a1[y - 1] == a[y]);
        }
        assert forall|x: int, y: int| 0 <= x < a1.len() && 0 <= y < b1.len() && (#[trigger] a1[x]).0 == (#[trigger] b1[y]).0 implies a1[x].1 == b1[y].1 by {
            assert(a1[x] == a[x + 1] && b1[y] == b[y + 1]);
        }
        lemma_listing_tails_equal(a1, b1);
        assert(a =~= seq![a[0]] + a1);
        assert(b =~= seq![b[0]] + b1);
    }
}

proof fn lemma_score_listing_unique(a: Seq<(u64, u32)>, b: Seq<(u64, u32)>, rows: Seq<SegmentRow>, round: CompletedRound, w: bool)
    requires
        lists_player_scores(a, rows, round, w),
        lists_player_scores(b, rows, round, w),
    ensures
        a == b,
{
    assert forall|k: int| 0 <= k < a.len() implies has_key(b, (#[trigger] a[k]).0) by {
        assert(player_score(rows, round, a[k].0, w) is Some);
    }
    assert forall|k: int| 0 <= k < b.len() implies has_key(a, (#[trigger] b[k]).0) by {
        assert(player_score(rows, round, b[k].0, w) is Some);
    }
    lemma_listing_tails_equal(a, b);
}

/// The players of `expected` that also have a score at the next round, with
/// both scores, in the order of `expected`.
pub open spec fn shared_scores(expected: Seq<(u64, u32)>, next_rows: Seq<SegmentRow>, next_round: CompletedRound) -> Seq<(u64, u32, u32)>
    decreases expected.len(),
{
    if expected.len() == 0 {
        Seq::empty()
    } else {
        let e = expected.last();
        shared_scores(expected.drop_last(), next_rows, next_round) + match player_score(next_rows, next_round, e.0, false) {
            Some(a) => seq![(e.0, e.1, a)],
            None => Seq::empty(),
        }
    }
}

pub open spec fn insufficient_score_message(next_index: int) -> Seq<char> {
    "demo segment boundary p"@ + crate::text::decimal(next_index as nat) + " -> p"@ + crate::text::decimal((next_index + 1) as nat)
        + " has insufficient score evidence"@
}

pub open spec fn score_mismatch_message(next_index: int, steam: u64, expected: u32, actual: u32) -> Seq<char> {
    "demo segment boundary p"@ + crate::text::decimal(next_index as nat) + " -> p"@ + crate::text::decimal((next_index + 1) as nat)
        + " score mismatch for SteamID "@ + crate::text::decimal(steam as nat) + ": expected "@ + crate::text::decimal(expected as nat)
        + ", got "@ + crate::text::decimal(actual as nat)
}

/// The position of the first shared player whose two scores differ.
pub open spec fn first_score_mismatch(shared: Seq<(u64, u32, u32)>) -> Option<int> {
    if exists|q: int| 0 <= q < shared.len() && (#[trigger] shared[q]).1 != shared[q].2 {
        Some(choose|q: int| 0 <= q < shared.len() && (#[trigger] shared[q]).1 != shared[q].2 && forall|p: int|
            0 <= p < q ==> (#[trigger] shared[p]).1 == shared[p].2)
    } else {
        None
    }
}

/// Why the scores across a segment boundary disagree: fewer than eight
/// players with a score on both sides, or the first of them whose score at
/// the end of the earlier segment (a win counted) differs from the score at
/// the start of the next.
pub open spec fn boundary_score_error(
    next_index: int,
    previous_rows: Seq<SegmentRow>,
    previous_round: CompletedRound,
    next_rows: Seq<SegmentRow>,
    next_round: CompletedRound,
) -> Option<Seq<char>> {
    let shared = shared_scores(score_listing(previous_rows, previous_round, true), next_rows, next_round);
    if shared.len() < 8 {
        Some(insufficient_score_message(next_index))
    } else {
        match first_score_mismatch(shared) {
            Some(q) => Some(score_mismatch_message(next_index, shared[q].0, shared[q].1, shared[q].2)),
            None => None,
        }
    }
}

proof fn lemma_first_score_mismatch(shared: Seq<(u64, u32, u32)>, q: int)
    requires
        0 <= q < shared.len(),
        shared[q].1 != shared[q].2,
        forall|p: int| 0 <= p < q ==> (#[trigger] shared[p]).1 == shared[p].2,
    ensures
        first_score_mismatch(shared) == Some(q),
{
    let c = choose|c: int| 0 <= c < shared.len() && (#[trigger] shared[c]).1 != shared[c].2 && forall|p: int|
        0 <= p < c ==> (#[trigger] shared[p]).1 == shared[p].2;
    if c < q {
        assert(shared[c].1 == shared[c].2);
    } else if c > q {
        assert(shared[q].1 == shared[q].2);
    }
}

fn score_of(v: &Vec<(u64, u32)>, steam: u64, Ghost(rows): Ghost<Seq<SegmentRow>>, Ghost(round): Ghost<CompletedRound>) -> (r: Option<u32>)
    requires
        lists_player_scores(v@, rows, round, false),
    ensures
        r == player_score(rows, round, steam, false),
{
    let mut j: usize = 0;
    while j < v.len()
        invariant
            j <= v.len(),
            lists_player_scores(v@, rows, round, false),
            forall|q: int| 0 <= q < j ==> (#[trigger] v@[q]).0 != steam,
        decreases v.len() - j,
    {
        if v[j].0 == steam {
            return Some(v[j].1);
        }
        j = j + 1;
    }
    proof {
        if player_score(rows, round, steam, false) is Some {
            let q = choose|q: int| 0 <= q < v@.len() && (#[trigger] v@[q]).0 == steam;
        }
    }
    None
}

/// The scores at the last round of one segment (a win counted) and at the
/// first round of the next agree for at least eight shared players.
pub fn validate_boundary_scores(
    next_index: usize,
    previous_rows: &Vec<SegmentRow>,
    previous_round: &CompletedRound,
    next_rows: &Vec<SegmentRow>,
    next_round: &CompletedRound,
) -> (r: Result<(), Error>)
    requires
        next_index < usize::MAX,
    ensures
        match r {
            Ok(()) => boundary_score_error(next_index as int, previous_rows@, *previous_round, next_rows@, *next_round) is None,
            Err(e) => e is InvalidDemo && boundary_score_error(next_index as int, previous_rows@, *previous_round, next_rows@, *next_round)
                == Some(e.demo_detail()),
        },
{
    let expected = score_by_player(previous_rows, previous_round, true);
    let actual = score_by_player(next_rows, next_round, false);
    proof {
        let chosen = score_listing(previous_rows@, *previous_round, true);
        lemma_score_listing_unique(chosen, expected@, previous_rows@, *previous_round, true);
    }
    let mut shared: Vec<(u64, u32, u32)> = Vec::new();
    let mut i: usize = 0;
    while i < expected.len()
        invariant
            i <= expected.len(),
            lists_player_scores(actual@, next_rows@, *next_round, false),
            expected@ == score_listing(previous_rows@, *previous_round, true),
            shared@ == shared_scores(expected@.take(i as int), next_rows@, *next_round),
        decreases expected.len() - i,
    {
        proof {
            assert(expected@.take(i + 1).drop_last() =~= expected@.take(i as int));
        }
        let (steam, e) = expected[i];
        match score_of(&actual, steam, Ghost(next_rows@), Ghost(*next_round)) {
            Some(a) => shared.push((steam, e, a)),
            None => {},
        }
        proof {
            assert(shared@ =~= shared_scores(expected@.take(i + 1), next_rows@, *next_round));
        }
        i = i + 1;
    }
    proof {
        assert(expected@.take(expected.len() as int) =~= expected@);
    }
    if shared.len() < 8 {
        let m = crate::text::string_of("demo segment boundary p");
        let m = crate::text::concat_str(m, crate::text::u64_decimal(next_index as u64).as_str());
        let m = crate::text::concat_str(m, " -> p");
        let m = crate::text::concat_str(m, crate::text::u64_decimal((next_index + 1) as u64).as_str());
        let m = crate::text::concat_str(m, " has insufficient score evidence");
        proof {
            reveal_strlit("demo segment boundary p");
            reveal_strlit(" -> p");
            reveal_strlit(" has insufficient score evidence");
        }
        return Err(crate::error::invalid_demo(m));
    }
    let mut q: usize = 0;
    while q < shared.len()
        invariant
            q <= shared.len(),
            next_index < usize::MAX,
            shared.len() >= 8,
            shared@ == shared_scores(score_listing(previous_rows@, *previous_round, true), next_rows@, *next_round),
            forall|p: int| 0 <= p < q ==> (#[trigger] shared@[p]).1 == shared@[p].2,
        decreases shared.len() - q,
    {
        let (steam, e, a) = shared[q];
        if e != a {
            let m = crate::text::string_of("demo segment boundary p");
            let m = crate::text::concat_str(m, crate::text::u64_decimal(next_index as u64).as_str());
            let m = crate::text::concat_str(m, " -> p");
            let m = crate::text::concat_str(m, crate::text::u64_decimal((next_index + 1) as u64).as_str());
            let m = crate::text::concat_str(m, " score mismatch for SteamID ");
            let m = crate::text::concat_str(m, crate::text::u64_decimal(steam).as_str());
            let m = crate::text::concat_str(m, ": expected ");
            let m = crate::text::concat_str(m, crate::text::u64_decimal(e as u64).as_str());
            let m = crate::text::concat_str(m, ", got ");
            let m = crate::text::concat_str(m, crate::text::u64_decimal(a as u64).as_str());
            proof {
                reveal_strlit("demo segment boundary p");
                reveal_strlit(" -> p");
                reveal_strlit(" score mismatch for SteamID ");
                reveal_strlit(": expected ");
                reveal_strlit(", got ");
                lemma_first_score_mismatch(shared@, q as int);
            }
            return Err(crate::error::invalid_demo(m));
        }
        q = q + 1;
    }
    proof {
        if exists|q: int| 0 <= q < shared@.len() && (#[trigger] shared@[q]).1 != shared@[q].2 {
            let q = choose|q: int| 0 <= q < shared@.len() && (#[trigger] shared@[q]).1 != shared@[q].2;
        }
    }
    Ok(())
}


// ---------------------------------------------------------------------------
// Segments
// ---------------------------------------------------------------------------

/// A projectile of a segment; `source` is its index in the segment.
#[derive(Clone, Copy, Debug, PartialEq, Eq, Structural)]
pub struct SegmentProjectile {
    pub tick: i32,
    pub effect_tick: Option<i32>,
    pub source: usize,
}

/// A voice frame of a segment; `source` is its index in the segment.
#[derive(Clone, Copy, Debug, PartialEq, Eq, Structural)]
pub struct SegmentVoiceFrame {
    pub tick: i32,
    pub xuid: u64,
    pub source: usize,
}

/// The identity of an economy item; the wear is its bit pattern. `source`
/// is the item's index in its segment.
#[derive(Clone, Debug)]
pub struct SegmentEconItem {
    pub steam_id: Option<u64>,
    pub item_def_index: Option<u32>,
    pub paint_kit: Option<u32>,
    pub paint_seed: Option<u32>,
    pub paint_wear_raw: Option<u32>,
    pub paint_wear_bits: Option<u32>,
    pub custom_name: Option<String>,
    pub item_name: Option<String>,
    pub skin_name: Option<String>,
    pub source: usize,
}

/// What merging reads of one parsed demo segment. The tick rate is given by
/// its bit pattern and its display text.
#[derive(Clone, Debug)]
pub struct SegmentDemo {
    pub demo_sha256: String,
    pub map: String,
    pub demo_patch_version: Option<i32>,
    pub demo_version_name: Option<String>,
    pub server_name: Option<String>,
    pub tick_rate_bits: u32,
    pub tick_rate_text: String,
    pub round_freeze_end_ticks: Vec<i32>,
    pub bomb_beginplant_ticks: Vec<i32>,
    pub bomb_planted_ticks: Vec<i32>,
    pub rows: Vec<SegmentRow>,
    pub projectiles: Vec<SegmentProjectile>,
    pub voice_frames: Vec<SegmentVoiceFrame>,
    pub events: Vec<ParsedGameEvent>,
    pub avatar_overrides: Vec<ParsedAvatarOverride>,
    pub econ_items: Vec<SegmentEconItem>,
}

// ---------------------------------------------------------------------------
// Rosters and headers
// ---------------------------------------------------------------------------

/// A player of the segment: a non-zero SteamID seen on a playing side.
pub open spec fn in_roster(rows: Seq<SegmentRow>, steam: u64) -> bool {
    steam != 0 && exists|i: int| 0 <= i < rows.len() && (#[trigger] rows[i]).steam_id == steam && (rows[i].team_num == 2
        || rows[i].team_num == 3)
}

pub open spec fn lists_roster(v: Seq<u64>, rows: Seq<SegmentRow>) -> bool {
    &&& forall|a: int, b: int| 0 <= a < b < v.len() ==> #[trigger] v[a] < #[trigger] v[b]
    &&& forall|s: u64| #[trigger] v.contains(s) <==> in_roster(rows, s)
}

/// The segment's players, ascending.
pub open spec fn roster_listing(rows: Seq<SegmentRow>) -> Seq<u64> {
    choose|v: Seq<u64>| lists_roster(v, rows)
}

/// How many of `a` are in `b`.
pub open spec fn shared_count(a: Seq<u64>, b: Seq<u64>) -> nat
    decreases a.len(),
{
    if a.len() == 0 {
        0
    } else {
        shared_count(a.drop_last(), b) + if b.contains(a.last()) {
            1nat
        } else {
            0nat
        }
    }
}

proof fn lemma_ascending_u64_unique(a: Seq<u64>, b: Seq<u64>)
    requires
        forall|i: int, j: int| 0 <= i < j < a.len() ==> #[trigger] a[i] < #[trigger] a[j],
        forall|i: int, j: int| 0 <= i < j < b.len() ==> #[trigger] b[i] < #[trigger] b[j],
        forall|x: u64| a.contains(x) <==> b.contains(x),
    ensures
        a == b,
    decreases a.len(),
{
    if a.len() == 0 {
        if b.len() > 0 {
            assert(b.contains(b[0]));
        }
        assert(a =~= b);
    } else {
        assert(a.contains(a[0]));
        assert(b.contains(a[0]));
        assert(b.contains(b[0]));
        let j = choose|j: int| 0 <= j < b.len() && b[j] == a[0];
        let i = choose|i: int| 0 <= i < a.len() && a[i] == b[0];
        if i > 0 {
            assert(a[0] < a[i]);
        }
        if j > 0 {
            assert(b[0] < b[j]);
        }
        let a1 = a.drop_first();
        let b1 = b.drop_first();
        assert forall|x: u64| a1.contains(x) <==> b1.contains(x) by {
            if a1.contains(x) {
                let p = choose|p: int| 0 <= p < a1.len() && a1[p] == x;
                assert(a[p + 1] == x);
                assert(a.contains(x));
                let q = choose|q: int| 0 <= q < b.len() && b[q] == x;
                assert(a[0] < a[p + 1]);
                assert(q != 0);
                assert(b1[q - 1] == x);
            }
            if b1.contains(x) {
                let p = choose|p: int| 0 <= p < b1.len() && b1[p] == x;
                assert(b[p + 1] == x);
                assert(b.contains(x));
                let q = choose|q: int| 0 <= q < a.len() && a[q] == x;
                assert(b[0] < b[p + 1]);
                assert(q != 0);
                assert(a1[q - 1] == x);
            }
        }
        lemma_ascending_u64_unique(a1, b1);
        assert(a =~= seq![a[0]] + a1);
        assert(b =~= seq![b[0]] + b1);
    }
}

/// The SteamIDs seen on a playing side, ascending.
pub fn stable_roster(rows: &Vec<SegmentRow>) -> (r: Vec<u64>)
    ensures
        r@ == roster_listing(rows@),
{
    let mut players: Vec<u64> = Vec::new();
    let mut i: usize = 0;
    while i < rows.len()
        invariant
            i <= rows.len(),
            forall|a: int, b: int| 0 <= a < b < players@.len() ==> #[trigger] players@[a] < #[trigger] players@[b],
            forall|y: u64| #[trigger] players@.contains(y) <==> (y != 0 && exists|k: int|
                0 <= k < i && (#[trigger] rows@[k]).steam_id == y && (rows@[k].team_num == 2 || rows@[k].team_num == 3)),
        decreases rows.len() - i,
    {
        let row = rows[i];
        if row.steam_id != 0 && (row.team_num == 2 || row.team_num == 3) {
            insert_player(&mut players, row.steam_id);
        }
        proof {
            assert forall|y: u64| #[trigger] players@.contains(y) <==> (y != 0 && exists|k: int|
                0 <= k < i + 1 && (#[trigger] rows@[k]).steam_id == y && (rows@[k].team_num == 2 || rows@[k].team_num == 3)) by {
                if y != 0 && exists|k: int| 0 <= k < i + 1 && (#[trigger] rows@[k]).steam_id == y && (rows@[k].team_num == 2 || rows@[k].team_num == 3) {
                    let k = choose|k: int| 0 <= k < i + 1 && (#[trigger] rows@[k]).steam_id == y && (rows@[k].team_num == 2 || rows@[k].team_num == 3);
                    if k < i {
                        assert(exists|k: int| 0 <= k < i && (#[trigger] rows@[k]).steam_id == y && (rows@[k].team_num == 2 || rows@[k].team_num == 3));
                    }
                }
            }
        }
        i = i + 1;
    }
    proof {
        assert(lists_roster(players@, rows@));
        lemma_ascending_u64_unique(roster_listing(rows@), players@);
    }
    players
}

fn count_shared(a: &Vec<u64>, b: &Vec<u64>) -> (r: usize)
    ensures
        r == shared_count(a@, b@),
{
    let mut n: usize = 0;
    let mut i: usize = 0;
    while i < a.len()
        invariant
            i <= a.len(),
            n == shared_count(a@.take(i as int), b@),
            n <= i,
        decreases a.len() - i,
    {
        proof {
            assert(a@.take(i + 1).drop_last() =~= a@.take(i as int));
        }
        let x = a[i];
        let mut found = false;
        let mut j: usize = 0;
        while j < b.len()
            invariant
                j <= b.len(),
                found == exists|q: int| 0 <= q < j && b@[q] == x,
            decreases b.len() - j,
        {
            if b[j] == x {
                found = true;
            }
            j = j + 1;
        }
        if found {
            n = n + 1;
        }
        i = i + 1;
    }
    proof {
        assert(a@.take(a.len() as int) =~= a@);
    }
    n
}

pub open spec fn roster_short_message(part_number: int, players: int) -> Seq<char> {
    "demo segment p"@ + decimal(part_number as nat) + " has insufficient roster evidence: "@ + decimal(players as nat) + " players"@
}

pub open spec fn roster_mismatch_message(part_number: int, shared: int, smaller: int) -> Seq<char> {
    "demo segment p"@ + decimal(part_number as nat) + " roster mismatch: only "@ + decimal(shared as nat) + " of "@ + decimal(
        smaller as nat,
    ) + " players overlap"@
}

pub open spec fn text_headers_differ(left: Option<String>, right: Option<String>) -> bool {
    left is Some && right is Some && !eq_ignore_ascii_case(trim(left->0@), trim(right->0@))
}

/// The first disagreement of segment `index` (from 1) with the first
/// segment: map, tick rate, patch version, demo version, server name, then
/// roster size and overlap.
pub open spec fn part_header_error(parts: Seq<SegmentDemo>, tick_rate_agrees: Seq<bool>, index: int) -> Option<Seq<char>> {
    let first = parts[0];
    let part = parts[index];
    if !eq_ignore_ascii_case(part.map@, first.map@) {
        Some(mismatch_message(index, "map"@, first.map@, part.map@))
    } else if !tick_rate_agrees[index] {
        Some(mismatch_message(index, "tick rate"@, first.tick_rate_text@, part.tick_rate_text@))
    } else if first.demo_patch_version is Some && part.demo_patch_version is Some && first.demo_patch_version
        != part.demo_patch_version {
        Some(
            mismatch_message(
                index,
                "patch version"@,
                signed_decimal(first.demo_patch_version->0 as int),
                signed_decimal(part.demo_patch_version->0 as int),
            ),
        )
    } else if text_headers_differ(first.demo_version_name, part.demo_version_name) {
        Some(mismatch_message(index, "demo version"@, first.demo_version_name->0@, part.demo_version_name->0@))
    } else if text_headers_differ(first.server_name, part.server_name) {
        Some(mismatch_message(index, "server name"@, first.server_name->0@, part.server_name->0@))
    } else {
        let first_roster = roster_listing(first.rows@);
        let roster = roster_listing(part.rows@);
        if roster.len() < 8 {
            Some(roster_short_message(index + 1, roster.len() as int))
        } else {
            let smaller = if first_roster.len() <= roster.len() { first_roster.len() } else { roster.len() };
            let shared = shared_count(first_roster, roster);
            let required = if smaller >= 9 { 8 } else { smaller };
            if shared < required {
                Some(roster_mismatch_message(index + 1, shared as int, smaller as int))
            } else {
                None
            }
        }
    }
}

/// The first header disagreement among segments `index..`.
pub open spec fn header_error_from(parts: Seq<SegmentDemo>, tick_rate_agrees: Seq<bool>, index: int) -> Option<Seq<char>>
    decreases parts.len() - index,
{
    if index >= parts.len() || index < 1 {
        None
    } else {
        match part_header_error(parts, tick_rate_agrees, index) {
            Some(m) => Some(m),
            None => header_error_from(parts, tick_rate_agrees, index + 1),
        }
    }
}

/// Why the segments' headers do not fit one match: too few players in the
/// first segment, or the first disagreement of a later segment with it.
pub open spec fn segment_metadata_error(parts: Seq<SegmentDemo>, tick_rate_agrees: Seq<bool>) -> Option<Seq<char>> {
    let first_roster = roster_listing(parts[0].rows@);
    if first_roster.len() < 8 {
        Some(roster_short_message(1, first_roster.len() as int))
    } else {
        header_error_from(parts, tick_rate_agrees, 1)
    }
}

fn decimal_text(n: usize) -> (r: String)
    ensures
        r@ == decimal(n as nat),
{
    crate::text::u64_decimal(n as u64)
}

fn roster_short_error(part_number: usize, players: usize) -> (e: Error)
    ensures
        e is InvalidDemo,
        e.demo_detail() == roster_short_message(part_number as int, players as int),
{
    let m = crate::text::string_of("demo segment p");
    let m = crate::text::concat_str(m, decimal_text(part_number).as_str());
    let m = crate::text::concat_str(m, " has insufficient roster evidence: ");
    let m = crate::text::concat_str(m, decimal_text(players).as_str());
    let m = crate::text::concat_str(m, " players");
    proof {
        reveal_strlit("demo segment p");
        reveal_strlit(" has insufficient roster evidence: ");
        reveal_strlit(" players");
    }
    crate::error::invalid_demo(m)
}

fn roster_mismatch_error(part_number: usize, shared: usize, smaller: usize) -> (e: Error)
    ensures
        e is InvalidDemo,
        e.demo_detail() == roster_mismatch_message(part_number as int, shared as int, smaller as int),
{
    let m = crate::text::string_of("demo segment p");
    let m = crate::text::concat_str(m, decimal_text(part_number).as_str());
    let m = crate::text::concat_str(m, " roster mismatch: only ");
    let m = crate::text::concat_str(m, decimal_text(shared).as_str());
    let m = crate::text::concat_str(m, " of ");
    let m = crate::text::concat_str(m, decimal_text(smaller).as_str());
    let m = crate::text::concat_str(m, " players overlap");
    proof {
        reveal_strlit("demo segment p");
        reveal_strlit(" roster mismatch: only ");
        reveal_strlit(" of ");
        reveal_strlit(" players overlap");
    }
    crate::error::invalid_demo(m)
}

fn opt_str(o: &Option<String>) -> (r: Option<&str>)
    ensures
        r is Some <==> o is Some,
        o is Some ==> r->0@ == o->0@,
{
    match o {
        Some(s) => Some(s.as_str()),
        None => None,
    }
}

/// The headers of segment `index` agree with the first segment's, and its
/// roster overlaps the first one.
fn check_part_header(parts: &Vec<SegmentDemo>, tick_rate_agrees: &Vec<bool>, first_roster: &Vec<u64>, index: usize) -> (r:
    Result<(), Error>)
    requires
        1 <= index < parts.len(),
        tick_rate_agrees.len() == parts.len(),
        first_roster@ == roster_listing(parts@[0].rows@),
    ensures
        match r {
            Ok(()) => part_header_error(parts@, tick_rate_agrees@, index as int) is None,
            Err(e) => e is InvalidDemo && part_header_error(parts@, tick_rate_agrees@, index as int) == Some(e.demo_detail()),
        },
{
    let first = &parts[0];
    let part = &parts[index];
    let pm = crate::text::chars_of(part.map.as_str());
    let fm = crate::text::chars_of(first.map.as_str());
    if !crate::text::vec_eq_ignore_ascii_case(&pm, &fm) {
        proof {
            reveal_strlit("map");
        }
        return Err(crate::demo_series::segment_mismatch(index, "map", first.map.as_str(), part.map.as_str()));
    }
    if !tick_rate_agrees[index] {
        proof {
            reveal_strlit("tick rate");
        }
        return Err(
            crate::demo_series::segment_mismatch(index, "tick rate", first.tick_rate_text.as_str(), part.tick_rate_text.as_str()),
        );
    }
    proof {
        reveal_strlit("patch version");
        reveal_strlit("demo version");
        reveal_strlit("server name");
    }
    match require_matching_optional(index, "patch version", first.demo_patch_version, part.demo_patch_version) {
        Ok(()) => {},
        Err(e) => return Err(e),
    }
    match require_matching_optional_ref(index, "demo version", opt_str(&first.demo_version_name), opt_str(&part.demo_version_name)) {
        Ok(()) => {},
        Err(e) => return Err(e),
    }
    match require_matching_optional_ref(index, "server name", opt_str(&first.server_name), opt_str(&part.server_name)) {
        Ok(()) => {},
        Err(e) => return Err(e),
    }
    let roster = stable_roster(&part.rows);
    if roster.len() < 8 {
        return Err(roster_short_error(index + 1, roster.len()));
    }
    let smaller = if first_roster.len() <= roster.len() {
        first_roster.len()
    } else {
        roster.len()
    };
    let shared = count_shared(first_roster, &roster);
    let required = if smaller >= 9 {
        8
    } else {
        smaller
    };
    if shared < required {
        return Err(roster_mismatch_error(index + 1, shared, smaller));
    }
    Ok(())
}

proof fn lemma_header_error_skip(parts: Seq<SegmentDemo>, tick_rate_agrees: Seq<bool>, i: int)
    requires
        1 <= i <= parts.len(),
        forall|j: int| 1 <= j < i ==> #[trigger] part_header_error(parts, tick_rate_agrees, j) is None,
    ensures
        header_error_from(parts, tick_rate_agrees, 1) == header_error_from(parts, tick_rate_agrees, i),
    decreases i,
{
    if i > 1 {
        lemma_header_error_skip(parts, tick_rate_agrees, i - 1);
        assert(part_header_error(parts, tick_rate_agrees, i - 1) is None);
    }
}

/// The segments' headers fit one match; see `segment_metadata_error`.
pub fn validate_segment_metadata(parts: &Vec<SegmentDemo>, tick_rate_agrees: &Vec<bool>) -> (r: Result<(), Error>)
    requires
        parts.len() > 0,
        tick_rate_agrees.len() == parts.len(),
    ensures
        match r {
            Ok(()) => segment_metadata_error(parts@, tick_rate_agrees@) is None,
            Err(e) => e is InvalidDemo && segment_metadata_error(parts@, tick_rate_agrees@) == Some(e.demo_detail()),
        },
{
    let first_roster = stable_roster(&parts[0].rows);
    if first_roster.len() < 8 {
        return Err(roster_short_error(1, first_roster.len()));
    }
    let mut i: usize = 1;
    while i < parts.len()
        invariant
            1 <= i <= parts.len(),
            tick_rate_agrees.len() == parts.len(),
            first_roster@ == roster_listing(parts@[0].rows@),
            roster_listing(parts@[0].rows@).len() >= 8,
            forall|j: int| 1 <= j < i ==> #[trigger] part_header_error(parts@, tick_rate_agrees@, j) is None,
        decreases parts.len() - i,
    {
        match check_part_header(parts, tick_rate_agrees, &first_roster, i) {
            Ok(()) => {},
            Err(e) => {
                proof {
                    lemma_header_error_skip(parts@, tick_rate_agrees@, i as int);
                }
                return Err(e);
            },
        }
        i = i + 1;
    }
    proof {
        lemma_header_error_skip(parts@, tick_rate_agrees@, parts.len() as int);
    }
    Ok(())
}


// ---------------------------------------------------------------------------
// Round continuity across segments
// ---------------------------------------------------------------------------

pub open spec fn ascending_rounds(v: Seq<(u32, CompletedRound)>) -> bool {
    forall|a: int, b: int| 0 <= a < b < v.len() ==> (#[trigger] v[a]).0 < (#[trigger] v[b]).0
}

pub open spec fn has_event_named(events: Seq<ParsedGameEvent>, name: Seq<char>) -> bool {
    exists|i: int| 0 <= i < events.len() && (#[trigger] events[i]).name@ == name
}

/// The smallest round between the first and the last completed round that
/// is not completed.
pub open spec fn first_missing_round(rounds: Seq<(u32, CompletedRound)>) -> Option<u32> {
    if exists|j: int| 0 <= j < rounds.len() && (#[trigger] rounds[j]).0 != rounds[0].0 + j {
        let j = choose|j: int| 0 <= j < rounds.len() && (#[trigger] rounds[j]).0 != rounds[0].0 + j && forall|k: int|
            0 <= k < j ==> (#[trigger] rounds[k]).0 == rounds[0].0 + k;
        Some((rounds[0].0 + j) as u32)
    } else {
        None
    }
}

pub open spec fn saturating_next(r: u32) -> u32 {
    if r == u32::MAX {
        r
    } else {
        (r + 1) as u32
    }
}

/// The completed rounds of each segment, as sequences.
pub open spec fn round_views(c: Seq<Vec<(u32, CompletedRound)>>) -> Seq<Seq<(u32, CompletedRound)>> {
    Seq::new(c.len(), |i: int| c[i]@)
}

/// The first continuity problem of segment `index` and the ones after it.
#[verifier::opaque]
pub open spec fn continuity_error_from(parts: Seq<SegmentDemo>, completed: Seq<Seq<(u32, CompletedRound)>>, index: int) -> Option<
    Seq<char>,
>
    decreases completed.len() - index,
{
    if index < 0 || index >= completed.len() {
        None
    } else {
        let rounds = completed[index];
        if rounds.len() == 0 {
            Some("demo segment p"@ + decimal((index + 1) as nat) + " has no completed rounds"@)
        } else {
            let first = rounds[0].0;
            match first_missing_round(rounds) {
                Some(m) => Some(
                    "demo segment p"@ + decimal((index + 1) as nat) + " is missing completed round "@ + decimal(m as nat),
                ),
                None => {
                    let previous = completed[index - 1].last();
                    if index > 0 && first != saturating_next(previous.0) {
                        Some(
                            "demo segment boundary is not continuous: p"@ + decimal(index as nat) + " ends at round "@ + decimal(
                                previous.0 as nat,
                            ) + ", p"@ + decimal((index + 1) as nat) + " starts at round "@ + decimal(first as nat),
                        )
                    } else if index > 0 && boundary_score_error(
                        index,
                        parts[index - 1].rows@,
                        previous.1,
                        parts[index].rows@,
                        rounds[0].1,
                    ) is Some {
                        boundary_score_error(index, parts[index - 1].rows@, previous.1, parts[index].rows@, rounds[0].1)
                    } else {
                        match rounds[0].1.start_score_total {
                            Some(total) => if total != first {
                                Some(
                                    "demo segment p"@ + decimal((index + 1) as nat) + " starts round "@ + decimal(first as nat)
                                        + " from score total "@ + decimal(total as nat),
                                )
                            } else {
                                continuity_error_from(parts, completed, index + 1)
                            },
                            None => continuity_error_from(parts, completed, index + 1),
                        }
                    }
                },
            }
        }
    }
}

/// Why the segments' completed rounds are not one continuous match: the
/// first segment completes no round or does not start at round 0, the
/// first has no match start or the last no match end, or the first
/// segment, in order, with a gap, a break at its boundary, disagreeing
/// scores across the boundary, or a start score that is not its first round.
pub open spec fn continuity_error(parts: Seq<SegmentDemo>, completed: Seq<Seq<(u32, CompletedRound)>>) -> Option<Seq<char>> {
    if completed.len() == 0 || completed[0].len() == 0 {
        Some("p1 contains no completed match rounds"@)
    } else if completed[0][0].0 != 0 {
        Some("segmented match starts at round "@ + decimal(completed[0][0].0 as nat) + ", expected round 0"@)
    } else if !has_event_named(parts[0].events@, "round_announce_match_start"@) {
        Some("p1 has no formal match-start event"@)
    } else if parts.len() == 0 || !has_event_named(parts.last().events@, "cs_win_panel_match"@) {
        Some("last demo segment has no match-end event; another part may be missing"@)
    } else {
        continuity_error_from(parts, completed, 0)
    }
}

fn any_event_named(events: &Vec<ParsedGameEvent>, name: &str) -> (r: bool)
    ensures
        r == has_event_named(events@, name@),
{
    let mut i: usize = 0;
    while i < events.len()
        invariant
            i <= events.len(),
            forall|k: int| 0 <= k < i ==> (#[trigger] events@[k]).name@ != name@,
        decreases events.len() - i,
    {
        let n = crate::text::chars_of(events[i].name.as_str());
        if crate::model::eq_lit(&n, name) {
            return true;
        }
        i = i + 1;
    }
    false
}

fn find_missing_round(rounds: &Vec<(u32, CompletedRound)>) -> (r: Option<u32>)
    requires
        rounds.len() > 0,
        ascending_rounds(rounds@),
    ensures
        r == first_missing_round(rounds@),
{
    let first = rounds[0].0;
    let mut j: usize = 0;
    while j < rounds.len()
        invariant
            j <= rounds.len(),
            first == rounds@[0].0,
            ascending_rounds(rounds@),
            forall|k: int| 0 <= k < j ==> (#[trigger] rounds@[k]).0 == first + k,
        decreases rounds.len() - j,
    {
        if j > 0 {
            assert(rounds@[j - 1].0 < rounds@[j as int].0);
        }
        assert(rounds@[j as int].0 >= first + j) by {
            if j > 0 {
                assert(rounds@[j - 1].0 == first + j - 1);
                assert(rounds@[j - 1].0 < rounds@[j as int].0);
            }
        }
        if rounds[j].0 as u64 != first as u64 + j as u64 {
            proof {
                let c = choose|c: int| 0 <= c < rounds@.len() && (#[trigger] rounds@[c]).0 != rounds@[0].0 + c && forall|k: int|
                    0 <= k < c ==> (#[trigger] rounds@[k]).0 == rounds@[0].0 + k;
                if c < j {
                } else if c > j {
                    assert(rounds@[j as int].0 == rounds@[0].0 + j);
                }
            }
            return Some((first as u64 + j as u64) as u32);
        }
        j = j + 1;
    }
    None
}

fn part_message(head: &str, number: u64, tail: &str) -> (r: String)
    ensures
        r@ == head@ + decimal(number as nat) + tail@,
{
    let m = crate::text::string_of(head);
    let m = crate::text::concat_str(m, crate::text::u64_decimal(number).as_str());
    crate::text::concat_str(m, tail)
}

fn append_number(m: String, text: &str, number: u64) -> (r: String)
    ensures
        r@ == m@ + text@ + decimal(number as nat),
{
    let m = crate::text::concat_str(m, text);
    crate::text::concat_str(m, crate::text::u64_decimal(number).as_str())
}

/// Checks one segment's completed rounds: no gap, continuous with the
/// previous segment and with agreeing scores, and a start score that is its
/// first round.
fn check_segment_rounds(parts: &Vec<SegmentDemo>, completed: &Vec<Vec<(u32, CompletedRound)>>, index: usize) -> (r: Result<(), Error>)
    requires
        index < completed.len(),
        completed.len() == parts.len(),
        forall|i: int| 0 <= i < completed.len() ==> ascending_rounds(#[trigger] completed@[i]@),
        index > 0 ==> completed@[index - 1]@.len() > 0,
    ensures
        r is Ok ==> completed@[index as int]@.len() > 0,
        match r {
            Ok(()) => continuity_error_from(parts@, round_views(completed@), index as int) == continuity_error_from(parts@, round_views(completed@), index + 1),
            Err(e) => e is InvalidDemo && continuity_error_from(parts@, round_views(completed@), index as int) == Some(e.demo_detail()),
        },
{
    let rounds = &completed[index];
    proof {
        reveal(continuity_error_from);
        reveal_strlit("demo segment p");
        reveal_strlit(" has no completed rounds");
        reveal_strlit(" is missing completed round ");
        reveal_strlit("demo segment boundary is not continuous: p");
        reveal_strlit(" ends at round ");
        reveal_strlit(", p");
        reveal_strlit(" starts at round ");
        reveal_strlit(" from score total ");
        reveal_strlit("");
    }
    if rounds.len() == 0 {
        return Err(crate::error::invalid_demo(part_message("demo segment p", index as u64 + 1, " has no completed rounds")));
    }
    let first = rounds[0].0;
    match find_missing_round(rounds) {
        Some(m) => {
            let msg = part_message("demo segment p", index as u64 + 1, " is missing completed round ");
            let msg = crate::text::concat_str(msg, crate::text::u64_decimal(m as u64).as_str());
            return Err(crate::error::invalid_demo(msg));
        },
        None => {},
    }
    if index > 0 {
        let prev_rounds = &completed[index - 1];
        let previous = prev_rounds[prev_rounds.len() - 1];
        let expected = if previous.0 == u32::MAX {
            previous.0
        } else {
            previous.0 + 1
        };
        if first != expected {
            let msg = part_message("demo segment boundary is not continuous: p", index as u64, " ends at round ");
            let msg = crate::text::concat_str(msg, crate::text::u64_decimal(previous.0 as u64).as_str());
            let msg = append_number(msg, ", p", index as u64 + 1);
            let msg = append_number(msg, " starts at round ", first as u64);
            return Err(crate::error::invalid_demo(msg));
        }
        match validate_boundary_scores(index, &parts[index - 1].rows, &previous.1, &parts[index].rows, &rounds[0].1) {
            Ok(()) => {},
            Err(e) => return Err(e),
        }
    }
    match rounds[0].1.start_score_total {
        Some(total) => {
            if total != first {
                let msg = part_message("demo segment p", index as u64 + 1, " starts round ");
                let msg = crate::text::concat_str(msg, crate::text::u64_decimal(first as u64).as_str());
                let msg = append_number(msg, " from score total ", total as u64);
                return Err(crate::error::invalid_demo(msg));
            }
        },
        None => {},
    }
    Ok(())
}

proof fn lemma_continuity_skip(parts: Seq<SegmentDemo>, completed: Seq<Seq<(u32, CompletedRound)>>, i: int)
    requires
        0 <= i <= completed.len(),
        forall|j: int| 0 <= j < i ==> #[trigger] continuity_error_from(parts, completed, j) == continuity_error_from(parts, completed, j + 1),
    ensures
        continuity_error_from(parts, completed, 0) == continuity_error_from(parts, completed, i),
    decreases i,
{
    if i > 0 {
        lemma_continuity_skip(parts, completed, i - 1);
        assert(continuity_error_from(parts, completed, i - 1) == continuity_error_from(parts, completed, i));
    }
}

/// The segments' completed rounds form one continuous match; see
/// `continuity_error`.
pub fn validate_round_continuity(parts: &Vec<SegmentDemo>, completed: &Vec<Vec<(u32, CompletedRound)>>) -> (r: Result<(), Error>)
    requires
        completed.len() == parts.len(),
        forall|i: int| 0 <= i < completed.len() ==> ascending_rounds(#[trigger] completed@[i]@),
    ensures
        match r {
            Ok(()) => continuity_error(parts@, round_views(completed@)) is None,
            Err(e) => e is InvalidDemo && continuity_error(parts@, round_views(completed@)) == Some(e.demo_detail()),
        },
{
    proof {
        reveal(continuity_error_from);
        reveal_strlit("p1 contains no completed match rounds");
        reveal_strlit("segmented match starts at round ");
        reveal_strlit(", expected round 0");
        reveal_strlit("p1 has no formal match-start event");
        reveal_strlit("last demo segment has no match-end event; another part may be missing");
        reveal_strlit("round_announce_match_start");
        reveal_strlit("cs_win_panel_match");
    }
    if completed.len() == 0 || completed[0].len() == 0 {
        return Err(crate::error::invalid_demo_str("p1 contains no completed match rounds"));
    }
    let first_round = completed[0][0].0;
    if first_round != 0 {
        let msg = crate::text::string_of("segmented match starts at round ");
        let msg = crate::text::concat_str(msg, crate::text::u64_decimal(first_round as u64).as_str());
        let msg = crate::text::concat_str(msg, ", expected round 0");
        return Err(crate::error::invalid_demo(msg));
    }
    if !any_event_named(&parts[0].events, "round_announce_match_start") {
        return Err(crate::error::invalid_demo_str("p1 has no formal match-start event"));
    }
    if !any_event_named(&parts[parts.len() - 1].events, "cs_win_panel_match") {
        return Err(crate::error::invalid_demo_str("last demo segment has no match-end event; another part may be missing"));
    }
    let mut index: usize = 0;
    proof {
        assert(continuity_error(parts@, round_views(completed@)) == continuity_error_from(parts@, round_views(completed@), 0));
    }
    while index < completed.len()
        invariant
            index <= completed.len(),
            completed.len() == parts.len(),
            continuity_error(parts@, round_views(completed@)) == continuity_error_from(parts@, round_views(completed@), 0),
            forall|i: int| 0 <= i < completed.len() ==> ascending_rounds(#[trigger] completed@[i]@),
            forall|j: int| 0 <= j < index ==> #[trigger] completed@[j]@.len() > 0,
            forall|j: int| 0 <= j < index ==> #[trigger] continuity_error_from(parts@, round_views(completed@), j) == continuity_error_from(parts@, round_views(completed@), j + 1),
        decreases completed.len() - index,
    {
        match check_segment_rounds(parts, completed, index) {
            Ok(()) => {},
            Err(e) => {
                proof {
                    lemma_continuity_skip(parts@, round_views(completed@), index as int);
                }
                return Err(e);
            },
        }
        index = index + 1;
    }
    proof {
        lemma_continuity_skip(parts@, round_views(completed@), completed.len() as int);
    }
    Ok(())
}


// ---------------------------------------------------------------------------
// Canonical match start and end
// ---------------------------------------------------------------------------

/// The latest round end of the completed rounds.
pub open spec fn last_round_end(rounds: Seq<(u32, CompletedRound)>) -> Option<i32>
    decreases rounds.len(),
{
    if rounds.len() == 0 {
        None
    } else {
        let t = rounds.last().1.round_end_tick;
        match last_round_end(rounds.drop_last()) {
            Some(p) => Some(if p >= t { p } else { t }),
            None => Some(t),
        }
    }
}

pub open spec fn usable_start(e: ParsedGameEvent, limit: i32) -> bool {
    e.name@ == "round_announce_match_start"@ && e.tick <= limit
}

pub open spec fn usable_end(e: ParsedGameEvent, limit: i32) -> bool {
    e.name@ == "cs_win_panel_match"@ && e.tick >= limit
}

/// `k` is the latest match start at or before the last round end (the last
/// of them on a tie).
pub open spec fn is_canonical_start(events: Seq<ParsedGameEvent>, limit: i32, k: int) -> bool {
    &&& 0 <= k < events.len()
    &&& usable_start(events[k], limit)
    &&& forall|j: int| 0 <= j < events.len() && usable_start(#[trigger] events[j], limit) ==> events[j].tick < events[k].tick || (
    events[j].tick == events[k].tick && j <= k)
}

/// `k` is the earliest match end at or after the last round end (the first
/// of them on a tie).
pub open spec fn is_canonical_end(events: Seq<ParsedGameEvent>, limit: i32, k: int) -> bool {
    &&& 0 <= k < events.len()
    &&& usable_end(events[k], limit)
    &&& forall|j: int| 0 <= j < events.len() && usable_end(#[trigger] events[j], limit) ==> events[j].tick > events[k].tick || (
    events[j].tick == events[k].tick && j >= k)
}

pub open spec fn start_limit(rounds: Seq<(u32, CompletedRound)>) -> i32 {
    match last_round_end(rounds) {
        Some(t) => t,
        None => i32::MAX,
    }
}

pub open spec fn end_limit(rounds: Seq<(u32, CompletedRound)>) -> i32 {
    match last_round_end(rounds) {
        Some(t) => t,
        None => i32::MIN,
    }
}

/// The match start event of the merged match.
pub open spec fn canonical_start(events: Seq<ParsedGameEvent>, rounds: Seq<(u32, CompletedRound)>) -> Option<ParsedGameEvent> {
    if exists|k: int| is_canonical_start(events, start_limit(rounds), k) {
        Some(events[choose|k: int| is_canonical_start(events, start_limit(rounds), k)])
    } else {
        None
    }
}

/// The match end event of the merged match.
pub open spec fn canonical_end(events: Seq<ParsedGameEvent>, rounds: Seq<(u32, CompletedRound)>) -> Option<ParsedGameEvent> {
    if exists|k: int| is_canonical_end(events, end_limit(rounds), k) {
        Some(events[choose|k: int| is_canonical_end(events, end_limit(rounds), k)])
    } else {
        None
    }
}

fn clone_opt_string(o: &Option<String>) -> (r: Option<String>)
    ensures
        r == *o,
{
    match o {
        Some(s) => Some(s.clone()),
        None => None,
    }
}

/// A copy of an event.
pub fn copy_event(e: &ParsedGameEvent) -> (r: ParsedGameEvent)
    ensures
        r == *e,
{
    ParsedGameEvent {
        tick: e.tick,
        name: e.name.clone(),
        user_steam_id: e.user_steam_id,
        attacker_steam_id: e.attacker_steam_id,
        victim_steam_id: e.victim_steam_id,
        weapon_def_index: e.weapon_def_index,
        item_name: clone_opt_string(&e.item_name),
        entity_id: e.entity_id,
        damage: e.damage,
        health: e.health,
        winner_side: e.winner_side,
        chat_text: clone_opt_string(&e.chat_text),
        chat_scope: clone_opt_string(&e.chat_scope),
        chat_message_name: clone_opt_string(&e.chat_message_name),
    }
}

fn last_round_end_of(rounds: &Vec<(u32, CompletedRound)>) -> (r: Option<i32>)
    ensures
        r == last_round_end(rounds@),
{
    let mut best: Option<i32> = None;
    let mut i: usize = 0;
    while i < rounds.len()
        invariant
            i <= rounds.len(),
            best == last_round_end(rounds@.take(i as int)),
        decreases rounds.len() - i,
    {
        proof {
            assert(rounds@.take(i + 1).drop_last() =~= rounds@.take(i as int));
        }
        let t = rounds[i].1.round_end_tick;
        best = match best {
            Some(p) => Some(if p >= t { p } else { t }),
            None => Some(t),
        };
        i = i + 1;
    }
    proof {
        assert(rounds@.take(rounds.len() as int) =~= rounds@);
    }
    best
}

/// The merged match's start: the latest match start of the first segment
/// at or before its last completed round's end.
pub fn canonical_match_start(events: &Vec<ParsedGameEvent>, rounds: &Vec<(u32, CompletedRound)>) -> (r: Result<ParsedGameEvent, Error>)
    ensures
        match r {
            Ok(e) => canonical_start(events@, rounds@) == Some(e),
            Err(err) => canonical_start(events@, rounds@) is None && err is InvalidDemo && err.demo_detail()
                == "p1 has no usable match-start event"@,
        },
{
    let limit = match last_round_end_of(rounds) {
        Some(t) => t,
        None => i32::MAX,
    };
    let mut best: Option<usize> = None;
    let mut i: usize = 0;
    while i < events.len()
        invariant
            i <= events.len(),
            limit == start_limit(rounds@),
            best matches Some(k) ==> k < i && usable_start(events@[k as int], limit) && forall|j: int|
                0 <= j < i && usable_start(#[trigger] events@[j], limit) ==> events@[j].tick < events@[k as int].tick || (
                events@[j].tick == events@[k as int].tick && j <= k),
            best is None ==> forall|j: int| 0 <= j < i ==> !usable_start(#[trigger] events@[j], limit),
        decreases events.len() - i,
    {
        let n = crate::text::chars_of(events[i].name.as_str());
        if crate::model::eq_lit(&n, "round_announce_match_start") && events[i].tick <= limit {
            best = match best {
                Some(k) => if events[i].tick >= events[k].tick {
                    Some(i)
                } else {
                    Some(k)
                },
                None => Some(i),
            };
        }
        i = i + 1;
    }
    proof {
        reveal_strlit("p1 has no usable match-start event");
    }
    match best {
        Some(k) => {
            proof {
                assert(is_canonical_start(events@, limit, k as int));
                let c = choose|c: int| is_canonical_start(events@, start_limit(rounds@), c);
                assert(c == k) by {
                    assert(events@[c].tick < events@[k as int].tick || (events@[c].tick == events@[k as int].tick && c <= k));
                    assert(events@[k as int].tick < events@[c].tick || (events@[k as int].tick == events@[c].tick && k <= c));
                }
            }
            Ok(copy_event(&events[k]))
        },
        None => Err(crate::error::invalid_demo_str("p1 has no usable match-start event")),
    }
}

/// The merged match's end: the earliest match end of the last segment at or
/// after its last completed round's end.
pub fn canonical_match_end(events: &Vec<ParsedGameEvent>, rounds: &Vec<(u32, CompletedRound)>) -> (r: Result<ParsedGameEvent, Error>)
    ensures
        match r {
            Ok(e) => canonical_end(events@, rounds@) == Some(e),
            Err(err) => canonical_end(events@, rounds@) is None && err is InvalidDemo && err.demo_detail()
                == "last segment has no usable match-end event"@,
        },
{
    let limit = match last_round_end_of(rounds) {
        Some(t) => t,
        None => i32::MIN,
    };
    let mut best: Option<usize> = None;
    let mut i: usize = 0;
    while i < events.len()
        invariant
            i <= events.len(),
            limit == end_limit(rounds@),
            best matches Some(k) ==> k < i && usable_end(events@[k as int], limit) && forall|j: int|
                0 <= j < i && usable_end(#[trigger] events@[j], limit) ==> events@[j].tick > events@[k as int].tick || (
                events@[j].tick == events@[k as int].tick && j >= k),
            best is None ==> forall|j: int| 0 <= j < i ==> !usable_end(#[trigger] events@[j], limit),
        decreases events.len() - i,
    {
        let n = crate::text::chars_of(events[i].name.as_str());
        if crate::model::eq_lit(&n, "cs_win_panel_match") && events[i].tick >= limit {
            best = match best {
                Some(k) => if events[i].tick < events[k].tick {
                    Some(i)
                } else {
                    Some(k)
                },
                None => Some(i),
            };
        }
        i = i + 1;
    }
    proof {
        reveal_strlit("last segment has no usable match-end event");
    }
    match best {
        Some(k) => {
            proof {
                assert(is_canonical_end(events@, limit, k as int));
                let c = choose|c: int| is_canonical_end(events@, end_limit(rounds@), c);
                assert(c == k) by {
                    assert(events@[c].tick > events@[k as int].tick || (events@[c].tick == events@[k as int].tick && c >= k));
                    assert(events@[k as int].tick > events@[c].tick || (events@[k as int].tick == events@[c].tick && k >= c));
                }
            }
            Ok(copy_event(&events[k]))
        },
        None => Err(crate::error::invalid_demo_str("last segment has no usable match-end event")),
    }
}


// ---------------------------------------------------------------------------
// The lanes of a segment that the merged match keeps
// ---------------------------------------------------------------------------

/// The tick-carrying lanes of a segment.
pub struct PartLanes {
    pub rows: Vec<SegmentRow>,
    pub projectiles: Vec<SegmentProjectile>,
    pub voice_frames: Vec<SegmentVoiceFrame>,
    pub events: Vec<ParsedGameEvent>,
    pub round_freeze_end_ticks: Vec<i32>,
    pub bomb_beginplant_ticks: Vec<i32>,
    pub bomb_planted_ticks: Vec<i32>,
}

/// The lanes as sequences.
pub struct LanesView {
    pub rows: Seq<SegmentRow>,
    pub projectiles: Seq<SegmentProjectile>,
    pub voice_frames: Seq<SegmentVoiceFrame>,
    pub events: Seq<ParsedGameEvent>,
    pub round_freeze_end_ticks: Seq<i32>,
    pub bomb_beginplant_ticks: Seq<i32>,
    pub bomb_planted_ticks: Seq<i32>,
}

impl View for PartLanes {
    type V = LanesView;

    open spec fn view(&self) -> LanesView {
        LanesView {
            rows: self.rows@,
            projectiles: self.projectiles@,
            voice_frames: self.voice_frames@,
            events: self.events@,
            round_freeze_end_ticks: self.round_freeze_end_ticks@,
            bomb_beginplant_ticks: self.bomb_beginplant_ticks@,
            bomb_planted_ticks: self.bomb_planted_ticks@,
        }
    }
}

/// Some completed round is `round`.
pub open spec fn has_round(rounds: Seq<(u32, CompletedRound)>, round: u32) -> bool {
    exists|j: int| 0 <= j < rounds.len() && (#[trigger] rounds[j]).0 == round
}

/// The tick lies in the row span of some completed round.
pub open spec fn in_completed(rounds: Seq<(u32, CompletedRound)>, tick: i32) -> bool {
    exists|j: int| 0 <= j < rounds.len() && crate::demo_series::tick_in_round(tick, (#[trigger] rounds[j]).1)
}

pub open spec fn kept_rows(rows: Seq<SegmentRow>, rounds: Seq<(u32, CompletedRound)>) -> Seq<SegmentRow>
    decreases rows.len(),
{
    if rows.len() == 0 {
        Seq::empty()
    } else {
        kept_rows(rows.drop_last(), rounds) + if has_round(rounds, rows.last().round) {
            seq![rows.last()]
        } else {
            Seq::empty()
        }
    }
}

pub open spec fn kept_ticks(ticks: Seq<i32>, rounds: Seq<(u32, CompletedRound)>) -> Seq<i32>
    decreases ticks.len(),
{
    if ticks.len() == 0 {
        Seq::empty()
    } else {
        kept_ticks(ticks.drop_last(), rounds) + if in_completed(rounds, ticks.last()) {
            seq![ticks.last()]
        } else {
            Seq::empty()
        }
    }
}

/// A projectile is kept when it is thrown or takes effect in a completed round.
pub open spec fn projectile_kept(p: SegmentProjectile, rounds: Seq<(u32, CompletedRound)>) -> bool {
    in_completed(rounds, p.tick) || (p.effect_tick matches Some(t) && in_completed(rounds, t))
}

pub open spec fn kept_projectiles(ps: Seq<SegmentProjectile>, rounds: Seq<(u32, CompletedRound)>) -> Seq<SegmentProjectile>
    decreases ps.len(),
{
    if ps.len() == 0 {
        Seq::empty()
    } else {
        kept_projectiles(ps.drop_last(), rounds) + if projectile_kept(ps.last(), rounds) {
            seq![ps.last()]
        } else {
            Seq::empty()
        }
    }
}

pub open spec fn kept_voice(vs: Seq<SegmentVoiceFrame>, rounds: Seq<(u32, CompletedRound)>) -> Seq<SegmentVoiceFrame>
    decreases vs.len(),
{
    if vs.len() == 0 {
        Seq::empty()
    } else {
        kept_voice(vs.drop_last(), rounds) + if in_completed(rounds, vs.last().tick) {
            seq![vs.last()]
        } else {
            Seq::empty()
        }
    }
}

/// The freeze ends of the completed rounds, in round order.
pub open spec fn completed_freeze_ends(rounds: Seq<(u32, CompletedRound)>) -> Seq<i32> {
    Seq::new(rounds.len(), |j: int| rounds[j].1.freeze_end_tick)
}

pub open spec fn opt_seq<T>(o: Option<T>) -> Seq<T> {
    match o {
        Some(x) => seq![x],
        None => Seq::empty(),
    }
}

/// What the merged match keeps of a segment: rows of completed rounds, the
/// completed rounds' freeze ends, and the other lanes' items inside
/// completed rounds; events as `retained_events` keeps them, with the
/// canonical match start and end added where given.
pub open spec fn kept_lanes(
    part: SegmentDemo,
    rounds: Seq<(u32, CompletedRound)>,
    start: Option<ParsedGameEvent>,
    end: Option<ParsedGameEvent>,
) -> LanesView {
    LanesView {
        rows: kept_rows(part.rows@, rounds),
        projectiles: kept_projectiles(part.projectiles@, rounds),
        voice_frames: kept_voice(part.voice_frames@, rounds),
        events: part.events@.filter(|e: ParsedGameEvent| crate::demo_series::event_retained(e, rounds)) + opt_seq(start) + opt_seq(end),
        round_freeze_end_ticks: completed_freeze_ends(rounds),
        bomb_beginplant_ticks: kept_ticks(part.bomb_beginplant_ticks@, rounds),
        bomb_planted_ticks: kept_ticks(part.bomb_planted_ticks@, rounds),
    }
}

fn keep_rows(rows: &Vec<SegmentRow>, rounds: &Vec<(u32, CompletedRound)>) -> (r: Vec<SegmentRow>)
    ensures
        r@ == kept_rows(rows@, rounds@),
{
    let mut out: Vec<SegmentRow> = Vec::new();
    let mut i: usize = 0;
    while i < rows.len()
        invariant
            i <= rows.len(),
            out@ == kept_rows(rows@.take(i as int), rounds@),
        decreases rows.len() - i,
    {
        proof {
            assert(rows@.take(i + 1).drop_last() =~= rows@.take(i as int));
        }
        let mut found = false;
        let mut j: usize = 0;
        while j < rounds.len()
            invariant
                j <= rounds.len(),
                i < rows.len(),
                found == exists|q: int| 0 <= q < j && (#[trigger] rounds@[q]).0 == rows@[i as int].round,
            decreases rounds.len() - j,
        {
            if rounds[j].0 == rows[i].round {
                found = true;
            }
            j = j + 1;
        }
        if found {
            out.push(rows[i]);
        }
        proof {
            assert(out@ =~= kept_rows(rows@.take(i + 1), rounds@));
        }
        i = i + 1;
    }
    proof {
        assert(rows@.take(rows.len() as int) =~= rows@);
    }
    out
}

fn keep_ticks(ticks: &Vec<i32>, rounds: &Vec<(u32, CompletedRound)>) -> (r: Vec<i32>)
    ensures
        r@ == kept_ticks(ticks@, rounds@),
{
    let mut out: Vec<i32> = Vec::new();
    let mut i: usize = 0;
    while i < ticks.len()
        invariant
            i <= ticks.len(),
            out@ == kept_ticks(ticks@.take(i as int), rounds@),
        decreases ticks.len() - i,
    {
        proof {
            assert(ticks@.take(i + 1).drop_last() =~= ticks@.take(i as int));
        }
        if crate::demo_series::tick_in_completed_round(ticks[i], rounds) {
            out.push(ticks[i]);
        }
        proof {
            assert(out@ =~= kept_ticks(ticks@.take(i + 1), rounds@));
        }
        i = i + 1;
    }
    proof {
        assert(ticks@.take(ticks.len() as int) =~= ticks@);
    }
    out
}

fn keep_projectiles(ps: &Vec<SegmentProjectile>, rounds: &Vec<(u32, CompletedRound)>) -> (r: Vec<SegmentProjectile>)
    ensures
        r@ == kept_projectiles(ps@, rounds@),
{
    let mut out: Vec<SegmentProjectile> = Vec::new();
    let mut i: usize = 0;
    while i < ps.len()
        invariant
            i <= ps.len(),
            out@ == kept_projectiles(ps@.take(i as int), rounds@),
        decreases ps.len() - i,
    {
        proof {
            assert(ps@.take(i + 1).drop_last() =~= ps@.take(i as int));
        }
        let p = ps[i];
        let keep = crate::demo_series::tick_in_completed_round(p.tick, rounds) || match p.effect_tick {
            Some(t) => crate::demo_series::tick_in_completed_round(t, rounds),
            None => false,
        };
        if keep {
            out.push(p);
        }
        proof {
            assert(out@ =~= kept_projectiles(ps@.take(i + 1), rounds@));
        }
        i = i + 1;
    }
    proof {
        assert(ps@.take(ps.len() as int) =~= ps@);
    }
    out
}

fn keep_voice(vs: &Vec<SegmentVoiceFrame>, rounds: &Vec<(u32, CompletedRound)>) -> (r: Vec<SegmentVoiceFrame>)
    ensures
        r@ == kept_voice(vs@, rounds@),
{
    let mut out: Vec<SegmentVoiceFrame> = Vec::new();
    let mut i: usize = 0;
    while i < vs.len()
        invariant
            i <= vs.len(),
            out@ == kept_voice(vs@.take(i as int), rounds@),
        decreases vs.len() - i,
    {
        proof {
            assert(vs@.take(i + 1).drop_last() =~= vs@.take(i as int));
        }
        if crate::demo_series::tick_in_completed_round(vs[i].tick, rounds) {
            out.push(vs[i]);
        }
        proof {
            assert(out@ =~= kept_voice(vs@.take(i + 1), rounds@));
        }
        i = i + 1;
    }
    proof {
        assert(vs@.take(vs.len() as int) =~= vs@);
    }
    out
}

fn freeze_ends_of(rounds: &Vec<(u32, CompletedRound)>) -> (r: Vec<i32>)
    ensures
        r@ == completed_freeze_ends(rounds@),
{
    let mut out: Vec<i32> = Vec::new();
    let mut i: usize = 0;
    while i < rounds.len()
        invariant
            i <= rounds.len(),
            out@ == completed_freeze_ends(rounds@).take(i as int),
        decreases rounds.len() - i,
    {
        out.push(rounds[i].1.freeze_end_tick);
        proof {
            assert(out@ =~= completed_freeze_ends(rounds@).take(i + 1));
        }
        i = i + 1;
    }
    proof {
        assert(completed_freeze_ends(rounds@).take(rounds.len() as int) =~= completed_freeze_ends(rounds@));
    }
    out
}

/// The lanes of a segment that the merged match keeps; the segment's
/// events are consumed.
pub fn keep_completed_lanes(
    part: &SegmentDemo,
    events: Vec<ParsedGameEvent>,
    rounds: &Vec<(u32, CompletedRound)>,
    start: Option<ParsedGameEvent>,
    end: Option<ParsedGameEvent>,
) -> (r: PartLanes)
    requires
        events@ == part.events@,
    ensures
        r@ == kept_lanes(*part, rounds@, start, end),
{
    let kept_events = crate::demo_series::retained_events(events, rounds, start, end);
    let r = PartLanes {
        rows: keep_rows(&part.rows, rounds),
        projectiles: keep_projectiles(&part.projectiles, rounds),
        voice_frames: keep_voice(&part.voice_frames, rounds),
        events: kept_events,
        round_freeze_end_ticks: freeze_ends_of(rounds),
        bomb_beginplant_ticks: keep_ticks(&part.bomb_beginplant_ticks, rounds),
        bomb_planted_ticks: keep_ticks(&part.bomb_planted_ticks, rounds),
    };
    proof {
        assert(r@.events =~= kept_lanes(*part, rounds@, start, end).events);
    }
    r
}


// ---------------------------------------------------------------------------
// Tick range and rebasing
// ---------------------------------------------------------------------------

pub open spec fn widen(r: Option<(i32, i32)>, t: i32) -> Option<(i32, i32)> {
    match r {
        Some((lo, hi)) => Some((if lo <= t { lo } else { t }, if hi >= t { hi } else { t })),
        None => Some((t, t)),
    }
}

pub open spec fn join_ranges(a: Option<(i32, i32)>, b: Option<(i32, i32)>) -> Option<(i32, i32)> {
    match (a, b) {
        (None, _) => b,
        (_, None) => a,
        (Some((l1, h1)), Some((l2, h2))) => Some((if l1 <= l2 { l1 } else { l2 }, if h1 >= h2 { h1 } else { h2 })),
    }
}

pub open spec fn range_of_ticks(ticks: Seq<i32>) -> Option<(i32, i32)>
    decreases ticks.len(),
{
    if ticks.len() == 0 {
        None
    } else {
        widen(range_of_ticks(ticks.drop_last()), ticks.last())
    }
}

pub open spec fn range_of_rows(rows: Seq<SegmentRow>) -> Option<(i32, i32)>
    decreases rows.len(),
{
    if rows.len() == 0 {
        None
    } else {
        widen(range_of_rows(rows.drop_last()), rows.last().tick)
    }
}

pub open spec fn range_of_events(events: Seq<ParsedGameEvent>) -> Option<(i32, i32)>
    decreases events.len(),
{
    if events.len() == 0 {
        None
    } else {
        widen(range_of_events(events.drop_last()), events.last().tick)
    }
}

pub open spec fn range_of_projectiles(ps: Seq<SegmentProjectile>) -> Option<(i32, i32)>
    decreases ps.len(),
{
    if ps.len() == 0 {
        None
    } else {
        let p = ps.last();
        let with_throw = widen(range_of_projectiles(ps.drop_last()), p.tick);
        match p.effect_tick {
            Some(t) => widen(with_throw, t),
            None => with_throw,
        }
    }
}

pub open spec fn range_of_voice(vs: Seq<SegmentVoiceFrame>) -> Option<(i32, i32)>
    decreases vs.len(),
{
    if vs.len() == 0 {
        None
    } else {
        widen(range_of_voice(vs.drop_last()), vs.last().tick)
    }
}

/// The first and last tick of any item of the lanes.
pub open spec fn lanes_range(l: LanesView) -> Option<(i32, i32)> {
    join_ranges(
        join_ranges(
            join_ranges(
                join_ranges(join_ranges(join_ranges(range_of_rows(l.rows), range_of_events(l.events)), range_of_projectiles(l.projectiles)), range_of_voice(l.voice_frames)),
                range_of_ticks(l.round_freeze_end_ticks),
            ),
            range_of_ticks(l.bomb_beginplant_ticks),
        ),
        range_of_ticks(l.bomb_planted_ticks),
    )
}

fn widen_exec(r: Option<(i32, i32)>, t: i32) -> (o: Option<(i32, i32)>)
    ensures
        o == widen(r, t),
{
    match r {
        Some((lo, hi)) => Some((if lo <= t { lo } else { t }, if hi >= t { hi } else { t })),
        None => Some((t, t)),
    }
}

fn join_exec(a: Option<(i32, i32)>, b: Option<(i32, i32)>) -> (o: Option<(i32, i32)>)
    ensures
        o == join_ranges(a, b),
{
    match (a, b) {
        (None, _) => b,
        (_, None) => a,
        (Some((l1, h1)), Some((l2, h2))) => Some((if l1 <= l2 { l1 } else { l2 }, if h1 >= h2 { h1 } else { h2 })),
    }
}

fn ticks_range(ticks: &Vec<i32>) -> (r: Option<(i32, i32)>)
    ensures
        r == range_of_ticks(ticks@),
{
    let mut r: Option<(i32, i32)> = None;
    let mut i: usize = 0;
    while i < ticks.len()
        invariant
            i <= ticks.len(),
            r == range_of_ticks(ticks@.take(i as int)),
        decreases ticks.len() - i,
    {
        proof {
            assert(ticks@.take(i + 1).drop_last() =~= ticks@.take(i as int));
        }
        r = widen_exec(r, ticks[i]);
        i = i + 1;
    }
    proof {
        assert(ticks@.take(ticks.len() as int) =~= ticks@);
    }
    r
}

fn rows_range(rows: &Vec<SegmentRow>) -> (r: Option<(i32, i32)>)
    ensures
        r == range_of_rows(rows@),
{
    let mut r: Option<(i32, i32)> = None;
    let mut i: usize = 0;
    while i < rows.len()
        invariant
            i <= rows.len(),
            r == range_of_rows(rows@.take(i as int)),
        decreases rows.len() - i,
    {
        proof {
            assert(rows@.take(i + 1).drop_last() =~= rows@.take(i as int));
        }
        r = widen_exec(r, rows[i].tick);
        i = i + 1;
    }
    proof {
        assert(rows@.take(rows.len() as int) =~= rows@);
    }
    r
}

fn events_range(events: &Vec<ParsedGameEvent>) -> (r: Option<(i32, i32)>)
    ensures
        r == range_of_events(events@),
{
    let mut r: Option<(i32, i32)> = None;
    let mut i: usize = 0;
    while i < events.len()
        invariant
            i <= events.len(),
            r == range_of_events(events@.take(i as int)),
        decreases events.len() - i,
    {
        proof {
            assert(events@.take(i + 1).drop_last() =~= events@.take(i as int));
        }
        r = widen_exec(r, events[i].tick);
        i = i + 1;
    }
    proof {
        assert(events@.take(events.len() as int) =~= events@);
    }
    r
}

fn projectiles_range(ps: &Vec<SegmentProjectile>) -> (r: Option<(i32, i32)>)
    ensures
        r == range_of_projectiles(ps@),
{
    let mut r: Option<(i32, i32)> = None;
    let mut i: usize = 0;
    while i < ps.len()
        invariant
            i <= ps.len(),
            r == range_of_projectiles(ps@.take(i as int)),
        decreases ps.len() - i,
    {
        proof {
            assert(ps@.take(i + 1).drop_last() =~= ps@.take(i as int));
        }
        r = widen_exec(r, ps[i].tick);
        match ps[i].effect_tick {
            Some(t) => {
                r = widen_exec(r, t);
            },
            None => {},
        }
        i = i + 1;
    }
    proof {
        assert(ps@.take(ps.len() as int) =~= ps@);
    }
    r
}

fn voice_range(vs: &Vec<SegmentVoiceFrame>) -> (r: Option<(i32, i32)>)
    ensures
        r == range_of_voice(vs@),
{
    let mut r: Option<(i32, i32)> = None;
    let mut i: usize = 0;
    while i < vs.len()
        invariant
            i <= vs.len(),
            r == range_of_voice(vs@.take(i as int)),
        decreases vs.len() - i,
    {
        proof {
            assert(vs@.take(i + 1).drop_last() =~= vs@.take(i as int));
        }
        r = widen_exec(r, vs[i].tick);
        i = i + 1;
    }
    proof {
        assert(vs@.take(vs.len() as int) =~= vs@);
    }
    r
}

/// The first and last tick of the kept lanes of a segment.
pub fn retained_tick_range(lanes: &PartLanes) -> (r: Option<(i32, i32)>)
    ensures
        r == lanes_range(lanes@),
{
    let r = join_exec(rows_range(&lanes.rows), events_range(&lanes.events));
    let r = join_exec(r, projectiles_range(&lanes.projectiles));
    let r = join_exec(r, voice_range(&lanes.voice_frames));
    let r = join_exec(r, ticks_range(&lanes.round_freeze_end_ticks));
    let r = join_exec(r, ticks_range(&lanes.bomb_beginplant_ticks));
    join_exec(r, ticks_range(&lanes.bomb_planted_ticks))
}


pub open spec fn fits_i32(x: int) -> bool {
    i32::MIN <= x <= i32::MAX
}

/// Every tick moved by `offset` still fits an `i32`.
pub open spec fn all_fit(ticks: Seq<i32>, offset: int) -> bool {
    forall|i: int| 0 <= i < ticks.len() ==> fits_i32(#[trigger] ticks[i] + offset)
}

/// Every tick of the lanes, moved by `offset`, still fits an `i32`.
pub open spec fn lanes_fit(l: LanesView, offset: int) -> bool {
    &&& forall|i: int| 0 <= i < l.rows.len() ==> fits_i32((#[trigger] l.rows[i]).tick + offset)
    &&& forall|i: int| 0 <= i < l.projectiles.len() ==> fits_i32((#[trigger] l.projectiles[i]).tick + offset) && (
    l.projectiles[i].effect_tick matches Some(t) ==> fits_i32(t + offset))
    &&& forall|i: int| 0 <= i < l.voice_frames.len() ==> fits_i32((#[trigger] l.voice_frames[i]).tick + offset)
    &&& forall|i: int| 0 <= i < l.events.len() ==> fits_i32((#[trigger] l.events[i]).tick + offset)
    &&& all_fit(l.round_freeze_end_ticks, offset)
    &&& all_fit(l.bomb_beginplant_ticks, offset)
    &&& all_fit(l.bomb_planted_ticks, offset)
}

pub open spec fn shift_tick(t: i32, offset: int) -> i32 {
    (t + offset) as i32
}

pub open spec fn shift_row(r: SegmentRow, offset: int) -> SegmentRow {
    SegmentRow { tick: shift_tick(r.tick, offset), ..r }
}

pub open spec fn shift_projectile(p: SegmentProjectile, offset: int) -> SegmentProjectile {
    SegmentProjectile {
        tick: shift_tick(p.tick, offset),
        effect_tick: match p.effect_tick {
            Some(t) => Some(shift_tick(t, offset)),
            None => None,
        },
        source: p.source,
    }
}

pub open spec fn shift_voice(v: SegmentVoiceFrame, offset: int) -> SegmentVoiceFrame {
    SegmentVoiceFrame { tick: shift_tick(v.tick, offset), ..v }
}

pub open spec fn shift_event(e: ParsedGameEvent, offset: int) -> ParsedGameEvent {
    ParsedGameEvent { tick: shift_tick(e.tick, offset), ..e }
}

/// The lanes with every tick moved by `offset`.
pub open spec fn shifted_lanes(l: LanesView, offset: int) -> LanesView {
    LanesView {
        rows: Seq::new(l.rows.len(), |i: int| shift_row(l.rows[i], offset)),
        projectiles: Seq::new(l.projectiles.len(), |i: int| shift_projectile(l.projectiles[i], offset)),
        voice_frames: Seq::new(l.voice_frames.len(), |i: int| shift_voice(l.voice_frames[i], offset)),
        events: Seq::new(l.events.len(), |i: int| shift_event(l.events[i], offset)),
        round_freeze_end_ticks: Seq::new(l.round_freeze_end_ticks.len(), |i: int| shift_tick(l.round_freeze_end_ticks[i], offset)),
        bomb_beginplant_ticks: Seq::new(l.bomb_beginplant_ticks.len(), |i: int| shift_tick(l.bomb_beginplant_ticks[i], offset)),
        bomb_planted_ticks: Seq::new(l.bomb_planted_ticks.len(), |i: int| shift_tick(l.bomb_planted_ticks[i], offset)),
    }
}

fn fits(t: i32, offset: i64) -> (r: bool)
    ensures
        r == fits_i32(t + offset),
{
    if offset > 0x1_0000_0000 || offset < -0x1_0000_0000 {
        return false;
    }
    let x = t as i64 + offset;
    i32::MIN as i64 <= x && x <= i32::MAX as i64
}

fn ticks_fit(ticks: &Vec<i32>, offset: i64) -> (r: bool)
    ensures
        r == all_fit(ticks@, offset as int),
{
    let mut i: usize = 0;
    while i < ticks.len()
        invariant
            i <= ticks.len(),
            forall|k: int| 0 <= k < i ==> fits_i32(#[trigger] ticks@[k] + offset),
        decreases ticks.len() - i,
    {
        if !fits(ticks[i], offset) {
            return false;
        }
        i = i + 1;
    }
    true
}

#[verifier::loop_isolation(false)]
fn lanes_fit_exec(lanes: &PartLanes, offset: i64) -> (r: bool)
    ensures
        r == lanes_fit(lanes@, offset as int),
{
    let mut i: usize = 0;
    while i < lanes.rows.len()
        invariant
            i <= lanes.rows.len(),
            forall|k: int| 0 <= k < i ==> fits_i32((#[trigger] lanes.rows@[k]).tick + offset),
        decreases lanes.rows.len() - i,
    {
        if !fits(lanes.rows[i].tick, offset) {
            proof {
                assert(!fits_i32(lanes@.rows[i as int].tick + offset));
            }
            return false;
        }
        i = i + 1;
    }
    let mut i: usize = 0;
    while i < lanes.projectiles.len()
        invariant
            i <= lanes.projectiles.len(),
            forall|k: int| 0 <= k < i ==> fits_i32((#[trigger] lanes.projectiles@[k]).tick + offset) && (
            lanes.projectiles@[k].effect_tick matches Some(t) ==> fits_i32(t + offset)),
        decreases lanes.projectiles.len() - i,
    {
        let p = lanes.projectiles[i];
        if !fits(p.tick, offset) {
            proof {
                assert(!fits_i32(lanes@.projectiles[i as int].tick + offset));
            }
            return false;
        }
        match p.effect_tick {
            Some(t) => if !fits(t, offset) {
                proof {
                    assert(lanes@.projectiles[i as int].effect_tick == Some(t));
                }
                return false;
            },
            None => {},
        }
        i = i + 1;
    }
    let mut i: usize = 0;
    while i < lanes.voice_frames.len()
        invariant
            i <= lanes.voice_frames.len(),
            forall|k: int| 0 <= k < i ==> fits_i32((#[trigger] lanes.voice_frames@[k]).tick + offset),
        decreases lanes.voice_frames.len() - i,
    {
        if !fits(lanes.voice_frames[i].tick, offset) {
            proof {
                assert(!fits_i32(lanes@.voice_frames[i as int].tick + offset));
            }
            return false;
        }
        i = i + 1;
    }
    let mut i: usize = 0;
    while i < lanes.events.len()
        invariant
            i <= lanes.events.len(),
            forall|k: int| 0 <= k < i ==> fits_i32((#[trigger] lanes.events@[k]).tick + offset),
        decreases lanes.events.len() - i,
    {
        if !fits(lanes.events[i].tick, offset) {
            proof {
                assert(!fits_i32(lanes@.events[i as int].tick + offset));
            }
            return false;
        }
        i = i + 1;
    }
    let a = ticks_fit(&lanes.round_freeze_end_ticks, offset);
    let b = ticks_fit(&lanes.bomb_beginplant_ticks, offset);
    let c = ticks_fit(&lanes.bomb_planted_ticks, offset);
    proof {
        let l = lanes@;
        assert(forall|k: int| 0 <= k < l.rows.len() ==> fits_i32((#[trigger] l.rows[k]).tick + offset));
        assert(forall|k: int| 0 <= k < l.voice_frames.len() ==> fits_i32((#[trigger] l.voice_frames[k]).tick + offset));
        assert(forall|k: int| 0 <= k < l.events.len() ==> fits_i32((#[trigger] l.events[k]).tick + offset));
    }
    a && b && c
}

fn shift_ticks(ticks: &Vec<i32>, offset: i64) -> (r: Vec<i32>)
    requires
        all_fit(ticks@, offset as int),
    ensures
        r@ == Seq::new(ticks@.len(), |i: int| shift_tick(ticks@[i], offset as int)),
{
    let mut out: Vec<i32> = Vec::new();
    let mut i: usize = 0;
    while i < ticks.len()
        invariant
            i <= ticks.len(),
            all_fit(ticks@, offset as int),
            out@ == Seq::new(i as nat, |k: int| shift_tick(ticks@[k], offset as int)),
        decreases ticks.len() - i,
    {
        assert(fits_i32(ticks@[i as int] + offset));
        out.push((ticks[i] as i64 + offset) as i32);
        proof {
            assert(out@ =~= Seq::new((i + 1) as nat, |k: int| shift_tick(ticks@[k], offset as int)));
        }
        i = i + 1;
    }
    proof {
        assert(out@ =~= Seq::new(ticks@.len(), |i: int| shift_tick(ticks@[i], offset as int)));
    }
    out
}

fn shift_all(lanes: &PartLanes, offset: i64) -> (r: PartLanes)
    requires
        lanes_fit(lanes@, offset as int),
    ensures
        r@ == shifted_lanes(lanes@, offset as int),
{
    let ghost l = lanes@;
    let mut rows: Vec<SegmentRow> = Vec::new();
    let mut i: usize = 0;
    while i < lanes.rows.len()
        invariant
            i <= lanes.rows.len(),
            l == lanes@,
            lanes_fit(l, offset as int),
            rows@ == Seq::new(i as nat, |k: int| shift_row(l.rows[k], offset as int)),
        decreases lanes.rows.len() - i,
    {
        let row = lanes.rows[i];
        assert(fits_i32(l.rows[i as int].tick + offset));
        rows.push(SegmentRow { tick: (row.tick as i64 + offset) as i32, ..row });
        proof {
            assert(rows@ =~= Seq::new((i + 1) as nat, |k: int| shift_row(l.rows[k], offset as int)));
        }
        i = i + 1;
    }
    let mut projectiles: Vec<SegmentProjectile> = Vec::new();
    let mut i: usize = 0;
    while i < lanes.projectiles.len()
        invariant
            i <= lanes.projectiles.len(),
            l == lanes@,
            lanes_fit(l, offset as int),
            projectiles@ == Seq::new(i as nat, |k: int| shift_projectile(l.projectiles[k], offset as int)),
        decreases lanes.projectiles.len() - i,
    {
        let p = lanes.projectiles[i];
        assert(fits_i32(l.projectiles[i as int].tick + offset));
        let effect = match p.effect_tick {
            Some(t) => Some((t as i64 + offset) as i32),
            None => None,
        };
        projectiles.push(SegmentProjectile { tick: (p.tick as i64 + offset) as i32, effect_tick: effect, source: p.source });
        proof {
            assert(projectiles@ =~= Seq::new((i + 1) as nat, |k: int| shift_projectile(l.projectiles[k], offset as int)));
        }
        i = i + 1;
    }
    let mut voice: Vec<SegmentVoiceFrame> = Vec::new();
    let mut i: usize = 0;
    while i < lanes.voice_frames.len()
        invariant
            i <= lanes.voice_frames.len(),
            l == lanes@,
            lanes_fit(l, offset as int),
            voice@ == Seq::new(i as nat, |k: int| shift_voice(l.voice_frames[k], offset as int)),
        decreases lanes.voice_frames.len() - i,
    {
        let v = lanes.voice_frames[i];
        assert(fits_i32(l.voice_frames[i as int].tick + offset));
        voice.push(SegmentVoiceFrame { tick: (v.tick as i64 + offset) as i32, ..v });
        proof {
            assert(voice@ =~= Seq::new((i + 1) as nat, |k: int| shift_voice(l.voice_frames[k], offset as int)));
        }
        i = i + 1;
    }
    let mut events: Vec<ParsedGameEvent> = Vec::new();
    let mut i: usize = 0;
    while i < lanes.events.len()
        invariant
            i <= lanes.events.len(),
            l == lanes@,
            lanes_fit(l, offset as int),
            events@ == Seq::new(i as nat, |k: int| shift_event(l.events[k], offset as int)),
        decreases lanes.events.len() - i,
    {
        let mut e = copy_event(&lanes.events[i]);
        assert(fits_i32(l.events[i as int].tick + offset));
        e.tick = (e.tick as i64 + offset) as i32;
        events.push(e);
        proof {
            assert(events@ =~= Seq::new((i + 1) as nat, |k: int| shift_event(l.events[k], offset as int)));
        }
        i = i + 1;
    }
    proof {
        assert(all_fit(lanes.round_freeze_end_ticks@, offset as int));
        assert(all_fit(lanes.bomb_beginplant_ticks@, offset as int));
        assert(all_fit(lanes.bomb_planted_ticks@, offset as int));
    }
    let r = PartLanes {
        rows,
        projectiles,
        voice_frames: voice,
        events,
        round_freeze_end_ticks: shift_ticks(&lanes.round_freeze_end_ticks, offset),
        bomb_beginplant_ticks: shift_ticks(&lanes.bomb_beginplant_ticks, offset),
        bomb_planted_ticks: shift_ticks(&lanes.bomb_planted_ticks, offset),
    };
    proof {
        assert(r@.rows =~= shifted_lanes(l, offset as int).rows);
        assert(r@.projectiles =~= shifted_lanes(l, offset as int).projectiles);
        assert(r@.voice_frames =~= shifted_lanes(l, offset as int).voice_frames);
        assert(r@.events =~= shifted_lanes(l, offset as int).events);
    }
    r
}

/// Moves every tick of the lanes by `offset`, when all of them still fit an
/// `i32`; otherwise the lanes stay as they are.
pub fn shift_part_ticks(lanes: &mut PartLanes, offset: i64, part_number: u32) -> (r: Result<(), Error>)
    ensures
        match r {
            Ok(()) => lanes_fit(old(lanes)@, offset as int) && final(lanes)@ == shifted_lanes(old(lanes)@, offset as int),
            Err(e) => !lanes_fit(old(lanes)@, offset as int) && final(lanes)@ == old(lanes)@ && e is InvalidDemo
                && e.demo_detail() == crate::demo_series::shift_message(part_number),
        },
{
    if !lanes_fit_exec(lanes, offset) {
        let m = crate::text::string_of("demo segment p");
        let m = crate::text::concat_str(m, crate::text::u64_decimal(part_number as u64).as_str());
        let m = crate::text::concat_str(m, " tick rebasing exceeds the supported range");
        proof {
            reveal_strlit("demo segment p");
            reveal_strlit(" tick rebasing exceeds the supported range");
        }
        return Err(crate::error::invalid_demo(m));
    }
    let shifted = shift_all(lanes, offset);
    *lanes = shifted;
    Ok(())
}


// ---------------------------------------------------------------------------
// Ordering the merged lanes
// ---------------------------------------------------------------------------

/// `out` is `inp` rearranged by `perm` (out[i] is inp[perm[i]]), ordered by
/// `rank`, with items of equal rank in their input order.
pub open spec fn is_stable_arrangement<T>(out: Seq<T>, inp: Seq<T>, rank: spec_fn(T) -> int, perm: Seq<int>) -> bool {
    &&& out.len() == inp.len()
    &&& perm.len() == inp.len()
    &&& forall|i: int| 0 <= i < perm.len() ==> 0 <= #[trigger] perm[i] < inp.len()
    &&& forall|i: int, j: int| 0 <= i < j < perm.len() ==> #[trigger] perm[i] != #[trigger] perm[j]
    &&& forall|i: int| 0 <= i < out.len() ==> #[trigger] out[i] == inp[perm[i]]
    &&& forall|i: int, j: int|
        0 <= i < j < out.len() ==> rank(#[trigger] out[i]) < rank(#[trigger] out[j]) || (rank(out[i]) == rank(out[j])
            && perm[i] < perm[j])
}

/// `out` is the stable sort of `inp` by `rank`.
pub open spec fn stably_sorted<T>(out: Seq<T>, inp: Seq<T>, rank: spec_fn(T) -> int) -> bool {
    exists|perm: Seq<int>| #[trigger] is_stable_arrangement(out, inp, rank, perm)
}

/// Rows order by round, then tick, then SteamID.
pub open spec fn row_rank() -> spec_fn((usize, SegmentRow)) -> int {
    |x: (usize, SegmentRow)| x.1.round * 0x1_0000_0000_0000_0000_0000_0000int + (x.1.tick + 0x8000_0000int) * 0x1_0000_0000_0000_0000int
        + x.1.steam_id
}

/// Projectiles order by tick.
pub open spec fn projectile_rank() -> spec_fn((usize, SegmentProjectile)) -> int {
    |x: (usize, SegmentProjectile)| x.1.tick as int
}

/// Voice frames order by speaker, then tick.
pub open spec fn voice_rank() -> spec_fn((usize, SegmentVoiceFrame)) -> int {
    |x: (usize, SegmentVoiceFrame)| x.1.xuid * 0x1_0000_0000int + (x.1.tick + 0x8000_0000int)
}

/// Events order by tick.
pub open spec fn event_rank() -> spec_fn(ParsedGameEvent) -> int {
    |e: ParsedGameEvent| e.tick as int
}

/// Sorts with `slice::sort_by_key` on (round, tick, SteamID). Trusted: the
/// std documentation says this sort is stable and orders by the key, and a
/// tuple of integers orders lexicographically, as `row_rank` does.
#[verifier::external_body]
fn sort_rows(v: &mut Vec<(usize, SegmentRow)>)
    ensures
        stably_sorted(final(v)@, old(v)@, row_rank()),
{
    v.sort_by_key(|x| (x.1.round, x.1.tick, x.1.steam_id));
}

/// Sorts with `slice::sort_by_key` on the tick. Trusted: a stable sort by
/// the key, as the std documentation says.
#[verifier::external_body]
fn sort_projectiles(v: &mut Vec<(usize, SegmentProjectile)>)
    ensures
        stably_sorted(final(v)@, old(v)@, projectile_rank()),
{
    v.sort_by_key(|x| x.1.tick);
}

/// Sorts with `slice::sort_by_key` on (speaker, tick). Trusted: a stable
/// sort by the key, as the std documentation says.
#[verifier::external_body]
fn sort_voice_frames(v: &mut Vec<(usize, SegmentVoiceFrame)>)
    ensures
        stably_sorted(final(v)@, old(v)@, voice_rank()),
{
    v.sort_by_key(|x| (x.1.xuid, x.1.tick));
}

/// Sorts with `slice::sort_by_key` on the tick. Trusted: a stable sort by
/// the key, as the std documentation says.
#[verifier::external_body]
fn sort_events(v: &mut Vec<ParsedGameEvent>)
    ensures
        stably_sorted(final(v)@, old(v)@, event_rank()),
{
    v.sort_by_key(|e| e.tick);
}

// ---------------------------------------------------------------------------
// Avatars and economy items
// ---------------------------------------------------------------------------

/// Avatar overrides by SteamID; a later override replaces an earlier one.
pub open spec fn avatar_map(all: Seq<ParsedAvatarOverride>) -> Map<u64, ParsedAvatarOverride>
    decreases all.len(),
{
    if all.len() == 0 {
        Map::empty()
    } else {
        avatar_map(all.drop_last()).insert(all.last().steam_id, all.last())
    }
}

/// `v` lists the map ascending by SteamID.
pub open spec fn lists_avatars(v: Seq<ParsedAvatarOverride>, m: Map<u64, ParsedAvatarOverride>) -> bool {
    &&& forall|a: int, b: int| 0 <= a < b < v.len() ==> (#[trigger] v[a]).steam_id < (#[trigger] v[b]).steam_id
    &&& forall|j: int| 0 <= j < v.len() ==> m.dom().contains((#[trigger] v[j]).steam_id) && m[v[j].steam_id] == v[j]
    &&& forall|k: u64| #[trigger] m.dom().contains(k) ==> exists|j: int| 0 <= j < v.len() && (#[trigger] v[j]).steam_id == k
}

/// Records an avatar override, replacing an earlier one of the same player.
fn put_avatar(v: &mut Vec<ParsedAvatarOverride>, a: ParsedAvatarOverride, Ghost(m): Ghost<Map<u64, ParsedAvatarOverride>>)
    requires
        lists_avatars(old(v)@, m),
    ensures
        lists_avatars(final(v)@, m.insert(a.steam_id, a)),
{
    let ghost before = v@;
    let ghost m2 = m.insert(a.steam_id, a);
    let key = a.steam_id;
    let mut p: usize = 0;
    while p < v.len() && v[p].steam_id < key
        invariant
            p <= v.len(),
            v@ == before,
            forall|q: int| 0 <= q < p ==> (#[trigger] v@[q]).steam_id < key,
        decreases v.len() - p,
    {
        p = p + 1;
    }
    if p < v.len() && v[p].steam_id == key {
        let _old = v.remove(p);
        v.insert(p, a);
        proof {
            assert forall|q: int| 0 <= q < v@.len() && q != p implies #[trigger] v@[q] == before[q] by {}
            assert forall|x: int, y: int| 0 <= x < y < v@.len() implies (#[trigger] v@[x]).steam_id < (#[trigger] v@[y]).steam_id by {
                assert(v@[x].steam_id == before[x].steam_id);
                assert(v@[y].steam_id == before[y].steam_id);
            }
            assert forall|j: int| 0 <= j < v@.len() implies m2.dom().contains((#[trigger] v@[j]).steam_id) && m2[v@[j].steam_id] == v@[j] by {
                if j != p {
                    assert(v@[j] == before[j]);
                    if j > p {
                        assert(before[p as int].steam_id < before[j].steam_id);
                    }
                }
            }
            assert forall|k: u64| #[trigger] m2.dom().contains(k) implies exists|j: int| 0 <= j < v@.len() && (#[trigger] v@[j]).steam_id == k by {
                if k == key {
                    assert(v@[p as int].steam_id == k);
                } else {
                    let j = choose|j: int| 0 <= j < before.len() && (#[trigger] before[j]).steam_id == k;
                    assert(v@[j].steam_id == before[j].steam_id);
                }
            }
        }
    } else {
        v.insert(p, a);
        proof {
            assert forall|q: int| 0 <= q < v@.len() && q != p implies #[trigger] v@[q] == (if q < p {
                before[q]
            } else {
                before[q - 1]
            }) by {}
            assert forall|x: int, y: int| 0 <= x < y < v@.len() implies (#[trigger] v@[x]).steam_id < (#[trigger] v@[y]).steam_id by {
                if y < p {
                    assert(before[x].steam_id < before[y].steam_id);
                } else if y == p {
                } else if x < p {
                    assert(before[p as int].steam_id > key);
                    if y - 1 > p {
                        assert(before[p as int].steam_id < before[y - 1].steam_id);
                    }
                } else if x == p {
                    assert(before[p as int].steam_id > key);
                    if y - 1 > p {
                        assert(before[p as int].steam_id < before[y - 1].steam_id);
                    }
                } else {
                    assert(before[x - 1].steam_id < before[y - 1].steam_id);
                }
            }
            assert forall|j: int| 0 <= j < v@.len() implies m2.dom().contains((#[trigger] v@[j]).steam_id) && m2[v@[j].steam_id] == v@[j] by {
                if j != p {
                    let ob = if j < p { j } else { j - 1 };
                    assert(v@[j] == before[ob]);
                    if ob >= p {
                        assert(before[p as int].steam_id > key);
                        if ob > p {
                            assert(before[p as int].steam_id < before[ob].steam_id);
                        }
                    }
                }
            }
            assert forall|k: u64| #[trigger] m2.dom().contains(k) implies exists|j: int| 0 <= j < v@.len() && (#[trigger] v@[j]).steam_id == k by {
                if k == key {
                    assert(v@[p as int].steam_id == k);
                } else {
                    let j = choose|j: int| 0 <= j < before.len() && (#[trigger] before[j]).steam_id == k;
                    let nj = if j < p { j } else { j + 1 };
                    assert(v@[nj] == before[j]);
                }
            }
        }
    }
}

pub open spec fn opt_str_view(o: Option<String>) -> Option<Seq<char>> {
    match o {
        Some(s) => Some(s@),
        None => None,
    }
}

/// Two economy items have the same identity.
pub open spec fn same_econ_key(a: SegmentEconItem, b: SegmentEconItem) -> bool {
    &&& a.steam_id == b.steam_id
    &&& a.item_def_index == b.item_def_index
    &&& a.paint_kit == b.paint_kit
    &&& a.paint_seed == b.paint_seed
    &&& a.paint_wear_raw == b.paint_wear_raw
    &&& a.paint_wear_bits == b.paint_wear_bits
    &&& opt_str_view(a.custom_name) == opt_str_view(b.custom_name)
    &&& opt_str_view(a.item_name) == opt_str_view(b.item_name)
    &&& opt_str_view(a.skin_name) == opt_str_view(b.skin_name)
}

/// Economy items with one entry per identity, in order of first appearance;
/// a later item replaces an earlier one of the same identity.
pub open spec fn dedup_econ(all: Seq<(usize, SegmentEconItem)>) -> Seq<(usize, SegmentEconItem)>
    decreases all.len(),
{
    if all.len() == 0 {
        Seq::empty()
    } else {
        let d = dedup_econ(all.drop_last());
        let x = all.last();
        if exists|j: int| 0 <= j < d.len() && same_econ_key((#[trigger] d[j]).1, x.1) {
            d.update(choose|j: int| 0 <= j < d.len() && same_econ_key((#[trigger] d[j]).1, x.1), x)
        } else {
            d.push(x)
        }
    }
}

fn same_opt_str(a: &Option<String>, b: &Option<String>) -> (r: bool)
    ensures
        r == (opt_str_view(*a) == opt_str_view(*b)),
{
    match (a, b) {
        (Some(x), Some(y)) => {
            let xc = crate::text::chars_of(x.as_str());
            let yc = crate::text::chars_of(y.as_str());
            crate::text::vec_eq(&xc, &yc)
        },
        (None, None) => true,
        _ => false,
    }
}

fn same_econ(a: &SegmentEconItem, b: &SegmentEconItem) -> (r: bool)
    ensures
        r == same_econ_key(*a, *b),
{
    a.steam_id == b.steam_id && a.item_def_index == b.item_def_index && a.paint_kit == b.paint_kit && a.paint_seed
        == b.paint_seed && a.paint_wear_raw == b.paint_wear_raw && a.paint_wear_bits == b.paint_wear_bits && same_opt_str(
        &a.custom_name,
        &b.custom_name,
    ) && same_opt_str(&a.item_name, &b.item_name) && same_opt_str(&a.skin_name, &b.skin_name)
}

/// No two entries share an identity.
pub open spec fn econ_keys_distinct(d: Seq<(usize, SegmentEconItem)>) -> bool {
    forall|i: int, j: int| 0 <= i < j < d.len() ==> !same_econ_key((#[trigger] d[i]).1, (#[trigger] d[j]).1)
}

proof fn lemma_same_econ_key_equiv(a: SegmentEconItem, b: SegmentEconItem, c: SegmentEconItem)
    ensures
        same_econ_key(a, a),
        same_econ_key(a, b) ==> same_econ_key(b, a),
        same_econ_key(a, b) && same_econ_key(b, c) ==> same_econ_key(a, c),
{
}

/// Adds an economy item, replacing the entry of the same identity.
fn put_econ(d: &mut Vec<(usize, SegmentEconItem)>, x: (usize, SegmentEconItem), Ghost(all): Ghost<Seq<(usize, SegmentEconItem)>>)
    requires
        old(d)@ == dedup_econ(all),
        econ_keys_distinct(old(d)@),
    ensures
        final(d)@ == dedup_econ(all.push(x)),
        econ_keys_distinct(final(d)@),
{
    let ghost before = d@;
    proof {
        assert(all.push(x).drop_last() =~= all);
    }
    let mut j: usize = 0;
    while j < d.len()
        invariant
            j <= d.len(),
            d@ == before,
            before == dedup_econ(all),
            econ_keys_distinct(before),
            forall|q: int| 0 <= q < j ==> !same_econ_key((#[trigger] d@[q]).1, x.1),
        decreases d.len() - j,
    {
        if same_econ(&d[j].1, &x.1) {
            proof {
                assert(same_econ_key(before[j as int].1, x.1));
                let c = choose|c: int| 0 <= c < before.len() && same_econ_key((#[trigger] before[c]).1, x.1);
                lemma_same_econ_key_equiv(before[c].1, x.1, before[j as int].1);
                lemma_same_econ_key_equiv(before[j as int].1, x.1, before[c].1);
                if c < j {
                    assert(!same_econ_key(before[c].1, before[j as int].1));
                } else if c > j {
                    assert(!same_econ_key(before[j as int].1, before[c].1));
                }
                assert(c == j);
                assert(all.push(x).drop_last() =~= all);
                assert(all.push(x).last() == x);
                assert(dedup_econ(all.push(x)) == before.update(j as int, x));
            }
            let _old = d.remove(j);
            d.insert(j, x);
            proof {
                assert(d@ =~= before.update(j as int, x));
                assert forall|a: int, b: int| 0 <= a < b < d@.len() implies !same_econ_key((#[trigger] d@[a]).1, (#[trigger] d@[b]).1) by {
                    if a == j {
                        lemma_same_econ_key_equiv(x.1, before[j as int].1, before[b].1);
                        lemma_same_econ_key_equiv(before[j as int].1, x.1, before[b].1);
                    } else if b == j {
                        lemma_same_econ_key_equiv(before[a].1, x.1, before[j as int].1);
                        lemma_same_econ_key_equiv(x.1, before[j as int].1, before[a].1);
                        lemma_same_econ_key_equiv(before[j as int].1, x.1, before[a].1);
                    }
                }
            }
            return;
        }
        j = j + 1;
    }
    d.push(x);
    proof {
        assert(all.push(x).drop_last() =~= all);
        assert(all.push(x).last() == x);
        assert forall|a: int, b: int| 0 <= a < b < d@.len() implies !same_econ_key((#[trigger] d@[a]).1, (#[trigger] d@[b]).1) by {
            if b == before.len() {
                assert(!same_econ_key(before[a].1, x.1));
            } else {
                assert(d@[a] == before[a] && d@[b] == before[b]);
            }
        }
    }
}


pub open spec fn opt_u64_lt(a: Option<u64>, b: Option<u64>) -> bool {
    match (a, b) {
        (None, Some(_)) => true,
        (Some(x), Some(y)) => x < y,
        _ => false,
    }
}

pub open spec fn opt_u32_lt(a: Option<u32>, b: Option<u32>) -> bool {
    match (a, b) {
        (None, Some(_)) => true,
        (Some(x), Some(y)) => x < y,
        _ => false,
    }
}

pub open spec fn opt_text_lt(a: Option<Seq<char>>, b: Option<Seq<char>>) -> bool {
    match (a, b) {
        (None, Some(_)) => true,
        (Some(x), Some(y)) => crate::text::lex_lt(x, y),
        _ => false,
    }
}

/// The order of economy item identities: field by field, absent before
/// present, numbers by value, texts lexicographically by character.
pub open spec fn econ_key_lt(a: SegmentEconItem, b: SegmentEconItem) -> bool {
    if a.steam_id != b.steam_id {
        opt_u64_lt(a.steam_id, b.steam_id)
    } else if a.item_def_index != b.item_def_index {
        opt_u32_lt(a.item_def_index, b.item_def_index)
    } else if a.paint_kit != b.paint_kit {
        opt_u32_lt(a.paint_kit, b.paint_kit)
    } else if a.paint_seed != b.paint_seed {
        opt_u32_lt(a.paint_seed, b.paint_seed)
    } else if a.paint_wear_raw != b.paint_wear_raw {
        opt_u32_lt(a.paint_wear_raw, b.paint_wear_raw)
    } else if a.paint_wear_bits != b.paint_wear_bits {
        opt_u32_lt(a.paint_wear_bits, b.paint_wear_bits)
    } else if opt_str_view(a.custom_name) != opt_str_view(b.custom_name) {
        opt_text_lt(opt_str_view(a.custom_name), opt_str_view(b.custom_name))
    } else if opt_str_view(a.item_name) != opt_str_view(b.item_name) {
        opt_text_lt(opt_str_view(a.item_name), opt_str_view(b.item_name))
    } else {
        opt_text_lt(opt_str_view(a.skin_name), opt_str_view(b.skin_name))
    }
}

/// `out` is `inp` rearranged by `perm`, ordered by identity, with items of
/// one identity in their input order.
pub open spec fn is_econ_arrangement(out: Seq<(usize, SegmentEconItem)>, inp: Seq<(usize, SegmentEconItem)>, perm: Seq<int>) -> bool {
    &&& out.len() == inp.len()
    &&& perm.len() == inp.len()
    &&& forall|i: int| 0 <= i < perm.len() ==> 0 <= #[trigger] perm[i] < inp.len()
    &&& forall|i: int, j: int| 0 <= i < j < perm.len() ==> #[trigger] perm[i] != #[trigger] perm[j]
    &&& forall|i: int| 0 <= i < out.len() ==> #[trigger] out[i] == inp[perm[i]]
    &&& forall|i: int, j: int|
        0 <= i < j < out.len() ==> !econ_key_lt((#[trigger] out[j]).1, (#[trigger] out[i]).1) && (!econ_key_lt(out[i].1, out[j].1)
            ==> perm[i] < perm[j])
}

pub open spec fn econ_sorted(out: Seq<(usize, SegmentEconItem)>, inp: Seq<(usize, SegmentEconItem)>) -> bool {
    exists|perm: Seq<int>| #[trigger] is_econ_arrangement(out, inp, perm)
}

/// Sorts with `slice::sort_by_key` on the identity fields. Trusted: a stable
/// sort by the key, as the std documentation says; the key tuple orders
/// field by field, `Option` puts `None` first, and `String`s compare by
/// their UTF-8 bytes, which orders them as `lex_lt` orders their characters.
#[verifier::external_body]
fn sort_econ_items(v: &mut Vec<(usize, SegmentEconItem)>)
    ensures
        econ_sorted(final(v)@, old(v)@),
{
    v.sort_by_key(
        |x| (x.1.steam_id, x.1.item_def_index, x.1.paint_kit, x.1.paint_seed, x.1.paint_wear_raw, x.1.paint_wear_bits, x.1.custom_name.clone(), x.1.item_name.clone(), x.1.skin_name.clone()),
    );
}

// ---------------------------------------------------------------------------
// The merged match
// ---------------------------------------------------------------------------

/// A merged match: the headers of the first segment, the compound hash, and
/// every kept item on one tick line; rows, projectiles, voice frames and
/// economy items carry the index of their segment.
#[derive(Debug)]
pub struct MergedDemo {
    pub path: String,
    pub stem: String,
    pub demo_sha256: String,
    pub map: String,
    pub demo_patch_version: Option<i32>,
    pub demo_version_name: Option<String>,
    pub server_name: Option<String>,
    pub tick_rate_bits: u32,
    pub tick_rate_text: String,
    pub round_freeze_end_ticks: Vec<i32>,
    pub bomb_beginplant_ticks: Vec<i32>,
    pub bomb_planted_ticks: Vec<i32>,
    pub rows: Vec<(usize, SegmentRow)>,
    pub projectiles: Vec<(usize, SegmentProjectile)>,
    pub voice_frames: Vec<(usize, SegmentVoiceFrame)>,
    pub events: Vec<ParsedGameEvent>,
    pub avatar_overrides: Vec<ParsedAvatarOverride>,
    pub econ_items: Vec<(usize, SegmentEconItem)>,
}

/// The completed rounds of a segment, ascending.
pub open spec fn part_rounds(part: SegmentDemo) -> Seq<(u32, CompletedRound)> {
    choose|v: Seq<(u32, CompletedRound)>| crate::segment_rounds::lists_rounds(
        v,
        crate::segment_rounds::spec_completed_rounds(part.rows@, part.round_freeze_end_ticks@, part.events@),
    )
}

/// Why a segment's rounds cannot be read: the first of its round ends whose
/// winners disagree.
pub open spec fn rounds_error(part: SegmentDemo) -> Option<Seq<char>> {
    let ticks = crate::segment_rounds::round_end_listing(part.events@);
    if exists|q: int|
        0 <= q < ticks.len() && crate::segment_rounds::no_conflict_upto(part.events@, ticks, q)
            && crate::segment_rounds::winners_conflict_at(
            part.events@,
            crate::segment_rounds::match_start_tick(part.events@),
            crate::segment_rounds::match_end_tick(part.events@),
            #[trigger] ticks[q],
        ) {
        let q = choose|q: int|
            0 <= q < ticks.len() && crate::segment_rounds::no_conflict_upto(part.events@, ticks, q)
                && crate::segment_rounds::winners_conflict_at(
                part.events@,
                crate::segment_rounds::match_start_tick(part.events@),
                crate::segment_rounds::match_end_tick(part.events@),
                #[trigger] ticks[q],
            );
        Some(crate::segment_rounds::conflict_message(ticks[q]))
    } else {
        None
    }
}

/// The first segment among the first `n` whose rounds cannot be read.
pub open spec fn first_rounds_error(parts: Seq<SegmentDemo>, n: int) -> Option<Seq<char>>
    decreases n,
{
    if n <= 0 {
        None
    } else {
        match first_rounds_error(parts, n - 1) {
            Some(m) => Some(m),
            None => rounds_error(parts[n - 1]),
        }
    }
}

pub open spec fn rounds_of_parts(parts: Seq<SegmentDemo>) -> Seq<Seq<(u32, CompletedRound)>> {
    Seq::new(parts.len(), |i: int| part_rounds(parts[i]))
}

pub open spec fn start_for(parts: Seq<SegmentDemo>, i: int) -> Option<ParsedGameEvent> {
    if i == 0 {
        canonical_start(parts[0].events@, part_rounds(parts[0]))
    } else {
        None
    }
}

pub open spec fn end_for(parts: Seq<SegmentDemo>, i: int) -> Option<ParsedGameEvent> {
    if i == parts.len() - 1 {
        canonical_end(parts[i].events@, part_rounds(parts[i]))
    } else {
        None
    }
}

pub open spec fn part_kept(parts: Seq<SegmentDemo>, i: int) -> LanesView {
    kept_lanes(parts[i], part_rounds(parts[i]), start_for(parts, i), end_for(parts, i))
}

pub open spec fn no_data_message(part_number: u32) -> Seq<char> {
    "demo segment p"@ + decimal(part_number as nat) + " contains no completed round data"@
}

/// The kept lanes of the first `n` segments, each moved to start one tick
/// after the previous segment's last tick, with that last tick; or why
/// a segment cannot be placed.
#[verifier::opaque]
pub open spec fn lanes_upto(parts: Seq<SegmentDemo>, numbers: Seq<u32>, n: int) -> Result<(Seq<LanesView>, Option<i32>), Seq<char>>
    decreases n,
{
    if n <= 0 {
        Ok((Seq::empty(), None))
    } else {
        match lanes_upto(parts, numbers, n - 1) {
            Err(m) => Err(m),
            Ok((done, prev)) => {
                let kept = part_kept(parts, n - 1);
                match lanes_range(kept) {
                    None => Err(no_data_message(numbers[n - 1])),
                    Some((lo, hi)) => {
                        let offset = match prev {
                            Some(p) => p + 1 - lo,
                            None => 0,
                        };
                        if !lanes_fit(kept, offset) || !fits_i32(hi + offset) {
                            Err(crate::demo_series::shift_message(numbers[n - 1]))
                        } else {
                            Ok((done.push(shifted_lanes(kept, offset)), Some((hi + offset) as i32)))
                        }
                    },
                }
            },
        }
    }
}

pub open spec fn all_rows(lanes: Seq<LanesView>) -> Seq<(usize, SegmentRow)>
    decreases lanes.len(),
{
    if lanes.len() == 0 {
        Seq::empty()
    } else {
        let i = lanes.len() - 1;
        all_rows(lanes.drop_last()) + Seq::new(lanes[i].rows.len(), |k: int| (i as usize, lanes[i].rows[k]))
    }
}

pub open spec fn all_projectiles(lanes: Seq<LanesView>) -> Seq<(usize, SegmentProjectile)>
    decreases lanes.len(),
{
    if lanes.len() == 0 {
        Seq::empty()
    } else {
        let i = lanes.len() - 1;
        all_projectiles(lanes.drop_last()) + Seq::new(lanes[i].projectiles.len(), |k: int| (i as usize, lanes[i].projectiles[k]))
    }
}

pub open spec fn all_voice(lanes: Seq<LanesView>) -> Seq<(usize, SegmentVoiceFrame)>
    decreases lanes.len(),
{
    if lanes.len() == 0 {
        Seq::empty()
    } else {
        let i = lanes.len() - 1;
        all_voice(lanes.drop_last()) + Seq::new(lanes[i].voice_frames.len(), |k: int| (i as usize, lanes[i].voice_frames[k]))
    }
}

pub open spec fn all_events(lanes: Seq<LanesView>) -> Seq<ParsedGameEvent>
    decreases lanes.len(),
{
    if lanes.len() == 0 {
        Seq::empty()
    } else {
        all_events(lanes.drop_last()) + lanes.last().events
    }
}

pub open spec fn all_freeze(lanes: Seq<LanesView>) -> Seq<i32>
    decreases lanes.len(),
{
    if lanes.len() == 0 {
        Seq::empty()
    } else {
        all_freeze(lanes.drop_last()) + lanes.last().round_freeze_end_ticks
    }
}

pub open spec fn all_beginplant(lanes: Seq<LanesView>) -> Seq<i32>
    decreases lanes.len(),
{
    if lanes.len() == 0 {
        Seq::empty()
    } else {
        all_beginplant(lanes.drop_last()) + lanes.last().bomb_beginplant_ticks
    }
}

pub open spec fn all_planted(lanes: Seq<LanesView>) -> Seq<i32>
    decreases lanes.len(),
{
    if lanes.len() == 0 {
        Seq::empty()
    } else {
        all_planted(lanes.drop_last()) + lanes.last().bomb_planted_ticks
    }
}

pub open spec fn all_avatars(parts: Seq<SegmentDemo>) -> Seq<ParsedAvatarOverride>
    decreases parts.len(),
{
    if parts.len() == 0 {
        Seq::empty()
    } else {
        all_avatars(parts.drop_last()) + parts.last().avatar_overrides@
    }
}

pub open spec fn all_econ(parts: Seq<SegmentDemo>) -> Seq<(usize, SegmentEconItem)>
    decreases parts.len(),
{
    if parts.len() == 0 {
        Seq::empty()
    } else {
        let i = parts.len() - 1;
        all_econ(parts.drop_last()) + Seq::new(parts[i].econ_items@.len(), |k: int| (i as usize, parts[i].econ_items@[k]))
    }
}

/// `v` lists, ascending, each tick of `all` once.
pub open spec fn lists_distinct_ticks(v: Seq<i32>, all: Seq<i32>) -> bool {
    &&& crate::weapon_evidence::strictly_increasing(v)
    &&& forall|t: i32| #[trigger] v.contains(t) <==> all.contains(t)
}

pub open spec fn part_hashes(parts: Seq<SegmentDemo>) -> Seq<Seq<char>> {
    Seq::new(parts.len(), |i: int| parts[i].demo_sha256@)
}

pub open spec fn part_numbers(source: crate::demo_series::DemoSourceSet) -> Seq<u32> {
    Seq::new(source.parts@.len(), |i: int| source.parts@[i].part)
}

/// Why segments do not merge into one match, checked in this order: the
/// count of segments, their headers, their rounds, the continuity of their
/// rounds, the canonical match start and end, their hashes, their
/// placement on one tick line, and rows to merge at all.
pub open spec fn merge_error(source: crate::demo_series::DemoSourceSet, parts: Seq<SegmentDemo>, tick_rate_agrees: Seq<bool>) -> Option<Seq<char>> {
    let n = parts.len();
    if n != source.parts@.len() || n == 0 {
        Some("parsed demo segment count does not match the source set"@)
    } else if n == 1 {
        None
    } else if segment_metadata_error(parts, tick_rate_agrees) is Some {
        segment_metadata_error(parts, tick_rate_agrees)
    } else if first_rounds_error(parts, n as int) is Some {
        first_rounds_error(parts, n as int)
    } else if continuity_error(parts, rounds_of_parts(parts)) is Some {
        continuity_error(parts, rounds_of_parts(parts))
    } else if canonical_start(parts[0].events@, part_rounds(parts[0])) is None {
        Some("p1 has no usable match-start event"@)
    } else if canonical_end(parts[n - 1].events@, part_rounds(parts[n - 1])) is None {
        Some("last segment has no usable match-end event"@)
    } else if crate::demo_series::compound_hash_refused(part_hashes(parts)) {
        Some("demo segment contains an invalid content hash"@)
    } else {
        placement_error(parts, part_numbers(source))
    }
}

/// Why the segments cannot be placed on one tick line, or no row is left.
pub open spec fn placement_error(parts: Seq<SegmentDemo>, numbers: Seq<u32>) -> Option<Seq<char>> {
    match lanes_upto(parts, numbers, parts.len() as int) {
        Err(m) => Some(m),
        Ok((lanes, _)) => if all_rows(lanes).len() == 0 {
            Some("merged demo contains no player rows"@)
        } else {
            None
        },
    }
}

/// The merged match of segments that merge.
pub open spec fn merged_as(m: MergedDemo, source: crate::demo_series::DemoSourceSet, parts: Seq<SegmentDemo>) -> bool {
    let lanes = lanes_upto(parts, part_numbers(source), parts.len() as int)->Ok_0.0;
    &&& m.path@ == source.parts@[0].path@
    &&& m.stem@ == source.logical_stem@
    &&& m.demo_sha256@ == crate::demo_series::spec_compound_hash(part_hashes(parts))
    &&& m.map@ == parts[0].map@
    &&& m.demo_patch_version == parts[0].demo_patch_version
    &&& opt_str_view(m.demo_version_name) == opt_str_view(parts[0].demo_version_name)
    &&& opt_str_view(m.server_name) == opt_str_view(parts[0].server_name)
    &&& m.tick_rate_bits == parts[0].tick_rate_bits
    &&& m.tick_rate_text@ == parts[0].tick_rate_text@
    &&& lists_distinct_ticks(m.round_freeze_end_ticks@, all_freeze(lanes))
    &&& lists_distinct_ticks(m.bomb_beginplant_ticks@, all_beginplant(lanes))
    &&& lists_distinct_ticks(m.bomb_planted_ticks@, all_planted(lanes))
    &&& stably_sorted(m.rows@, all_rows(lanes), row_rank())
    &&& stably_sorted(m.projectiles@, all_projectiles(lanes), projectile_rank())
    &&& stably_sorted(m.voice_frames@, all_voice(lanes), voice_rank())
    &&& stably_sorted(m.events@, all_events(lanes), event_rank())
    &&& lists_avatars(m.avatar_overrides@, avatar_map(all_avatars(parts)))
    &&& econ_sorted(m.econ_items@, dedup_econ(all_econ(parts)))
}


proof fn lemma_lists_rounds_unique(a: Seq<(u32, CompletedRound)>, b: Seq<(u32, CompletedRound)>, m: Map<u32, CompletedRound>)
    requires
        crate::segment_rounds::lists_rounds(a, m),
        crate::segment_rounds::lists_rounds(b, m),
    ensures
        a == b,
    decreases a.len(),
{
    if a.len() == 0 {
        if b.len() > 0 {
            assert(m.dom().contains(b[0].0));
        }
        assert(a =~= b);
    } else {
        assert(m.dom().contains(a[0].0));
        let j = choose|j: int| 0 <= j < b.len() && (#[trigger] b[j]).0 == a[0].0;
        assert(m.dom().contains(b[0].0));
        let i = choose|i: int| 0 <= i < a.len() && (#[trigger] a[i]).0 == b[0].0;
        if i > 0 {
            assert(a[0].0 < a[i].0);
        }
        if j > 0 {
            assert(b[0].0 < b[j].0);
        }
        assert(a[0] == b[0]);
        let m1 = m.remove(a[0].0);
        let a1 = a.drop_first();
        let b1 = b.drop_first();
        assert forall|x: int, y: int| 0 <= x < y < a1.len() implies (#[trigger] a1[x]).0 < (#[trigger] a1[y]).0 by {
            assert(a1[x] == a[x + 1] && a1[y] == a[y + 1]);
        }
        assert forall|x: int, y: int| 0 <= x < y < b1.len() implies (#[trigger] b1[x]).0 < (#[trigger] b1[y]).0 by {
            assert(b1[x] == b[x + 1] && b1[y] == b[y + 1]);
        }
        assert forall|x: int| 0 <= x < a1.len() implies m1.dom().contains((#[trigger] a1[x]).0) && m1[a1[x].0] == a1[x].1 by {
            assert(a1[x] == a[x + 1]);
            assert(a[0].0 < a[x + 1].0);
        }
        assert forall|x: int| 0 <= x < b1.len() implies m1.dom().contains((#[trigger] b1[x]).0) && m1[b1[x].0] == b1[x].1 by {
            assert(b1[x] == b[x + 1]);
            assert(b[0].0 < b[x + 1].0);
        }
        assert forall|r: u32| #[trigger] m1.dom().contains(r) implies exists|x: int| 0 <= x < a1.len() && (#[trigger] a1[x]).0 == r by {
            let x = choose|x: int| 0 <= x < a.len() && (#[trigger] a[x]).0 == r;
            assert(x != 0);
            assert(a1[x - 1] == a[x]);
        }
        assert forall|r: u32| #[trigger] m1.dom().contains(r) implies exists|x: int| 0 <= x < b1.len() && (#[trigger] b1[x]).0 == r by {
            let x = choose|x: int| 0 <= x < b.len() && (#[trigger] b[x]).0 == r;
            assert(x != 0);
            assert(b1[x - 1] == b[x]);
        }
        lemma_lists_rounds_unique(a1, b1, m1);
        assert(a =~= seq![a[0]] + a1);
        assert(b =~= seq![b[0]] + b1);
    }
}

proof fn lemma_rounds_error_at(part: SegmentDemo, q: int)
    requires
        0 <= q < crate::segment_rounds::round_end_listing(part.events@).len(),
        crate::segment_rounds::no_conflict_upto(part.events@, crate::segment_rounds::round_end_listing(part.events@), q),
        crate::segment_rounds::winners_conflict_at(
            part.events@,
            crate::segment_rounds::match_start_tick(part.events@),
            crate::segment_rounds::match_end_tick(part.events@),
            crate::segment_rounds::round_end_listing(part.events@)[q],
        ),
    ensures
        rounds_error(part) == Some(crate::segment_rounds::conflict_message(crate::segment_rounds::round_end_listing(part.events@)[q])),
{
    let ticks = crate::segment_rounds::round_end_listing(part.events@);
    let c = choose|c: int|
        0 <= c < ticks.len() && crate::segment_rounds::no_conflict_upto(part.events@, ticks, c)
            && crate::segment_rounds::winners_conflict_at(
            part.events@,
            crate::segment_rounds::match_start_tick(part.events@),
            crate::segment_rounds::match_end_tick(part.events@),
            #[trigger] ticks[c],
        );
    if c < q {
        assert(!crate::segment_rounds::winners_conflict_at(
            part.events@,
            crate::segment_rounds::match_start_tick(part.events@),
            crate::segment_rounds::match_end_tick(part.events@),
            ticks[c],
        ));
    } else if c > q {
        assert(!crate::segment_rounds::winners_conflict_at(
            part.events@,
            crate::segment_rounds::match_start_tick(part.events@),
            crate::segment_rounds::match_end_tick(part.events@),
            ticks[q],
        ));
    }
}

proof fn lemma_first_rounds_error_skip(parts: Seq<SegmentDemo>, i: int)
    requires
        0 <= i <= parts.len(),
        forall|j: int| 0 <= j < i ==> rounds_error(#[trigger] parts[j]) is None,
    ensures
        first_rounds_error(parts, i) is None,
    decreases i,
{
    if i > 0 {
        lemma_first_rounds_error_skip(parts, i - 1);
    }
}

/// The completed rounds of every segment, in segment order.
fn completed_of_parts(parts: &Vec<SegmentDemo>) -> (r: Result<Vec<Vec<(u32, CompletedRound)>>, Error>)
    ensures
        match r {
            Ok(c) => first_rounds_error(parts@, parts.len() as int) is None && round_views(c@) == rounds_of_parts(parts@)
                && c@.len() == parts@.len() && forall|i: int| 0 <= i < c@.len() ==> ascending_rounds(#[trigger] c@[i]@),
            Err(e) => e is InvalidDemo && first_rounds_error(parts@, parts.len() as int) == Some(e.demo_detail()),
        },
{
    let mut completed: Vec<Vec<(u32, CompletedRound)>> = Vec::new();
    let mut i: usize = 0;
    while i < parts.len()
        invariant
            i <= parts.len(),
            completed.len() == i,
            forall|j: int| 0 <= j < i ==> rounds_error(#[trigger] parts@[j]) is None,
            forall|j: int| 0 <= j < i ==> #[trigger] completed@[j]@ == part_rounds(parts@[j]),
            forall|j: int| 0 <= j < i ==> ascending_rounds(#[trigger] completed@[j]@),
        decreases parts.len() - i,
    {
        let part = &parts[i];
        match crate::segment_rounds::completed_rounds(&part.rows, &part.round_freeze_end_ticks, &part.events) {
            Ok(v) => {
                proof {
                    let m = crate::segment_rounds::spec_completed_rounds(part.rows@, part.round_freeze_end_ticks@, part.events@);
                    lemma_lists_rounds_unique(v@, part_rounds(*part), m);
                    if rounds_error(*part) is Some {
                        let ticks = crate::segment_rounds::round_end_listing(part.events@);
                        let q = choose|q: int|
                            0 <= q < ticks.len() && crate::segment_rounds::no_conflict_upto(part.events@, ticks, q)
                                && crate::segment_rounds::winners_conflict_at(
                                part.events@,
                                crate::segment_rounds::match_start_tick(part.events@),
                                crate::segment_rounds::match_end_tick(part.events@),
                                #[trigger] ticks[q],
                            );
                        assert(!crate::segment_rounds::winners_conflict_at(
                            part.events@,
                            crate::segment_rounds::match_start_tick(part.events@),
                            crate::segment_rounds::match_end_tick(part.events@),
                            ticks[q],
                        ));
                    }
                }
                completed.push(v);
            },
            Err(e) => {
                proof {
                    let ticks = crate::segment_rounds::round_end_listing(part.events@);
                    let q = choose|q: int|
                        0 <= q < ticks.len() && crate::segment_rounds::no_conflict_upto(part.events@, ticks, q)
                            && crate::segment_rounds::winners_conflict_at(
                            part.events@,
                            crate::segment_rounds::match_start_tick(part.events@),
                            crate::segment_rounds::match_end_tick(part.events@),
                            #[trigger] ticks[q],
                        ) && e is InvalidDemo && e.demo_detail() == crate::segment_rounds::conflict_message(ticks[q]);
                    lemma_rounds_error_at(*part, q);
                    lemma_first_rounds_error_skip(parts@, i as int);
                    lemma_first_rounds_error_prefix(parts@, i as int, parts.len() as int);
                }
                return Err(e);
            },
        }
        i = i + 1;
    }
    proof {
        lemma_first_rounds_error_skip(parts@, parts.len() as int);
        assert(round_views(completed@) =~= rounds_of_parts(parts@));
    }
    Ok(completed)
}

proof fn lemma_first_rounds_error_prefix(parts: Seq<SegmentDemo>, i: int, n: int)
    requires
        0 <= i < n <= parts.len(),
        first_rounds_error(parts, i) is None,
        rounds_error(parts[i]) is Some,
    ensures
        first_rounds_error(parts, n) == rounds_error(parts[i]),
    decreases n,
{
    if n > i + 1 {
        lemma_first_rounds_error_prefix(parts, i, n - 1);
    }
}


fn append_rows(acc: &mut Vec<(usize, SegmentRow)>, rows: &Vec<SegmentRow>, tag: usize)
    ensures
        final(acc)@ == old(acc)@ + Seq::new(rows@.len(), |k: int| (tag, rows@[k])),
{
    let ghost before = acc@;
    let mut i: usize = 0;
    while i < rows.len()
        invariant
            i <= rows.len(),
            acc@ == before + Seq::new(i as nat, |k: int| (tag, rows@[k])),
        decreases rows.len() - i,
    {
        acc.push((tag, rows[i]));
        proof {
            assert(acc@ =~= before + Seq::new((i + 1) as nat, |k: int| (tag, rows@[k])));
        }
        i = i + 1;
    }
}

fn append_projectiles(acc: &mut Vec<(usize, SegmentProjectile)>, ps: &Vec<SegmentProjectile>, tag: usize)
    ensures
        final(acc)@ == old(acc)@ + Seq::new(ps@.len(), |k: int| (tag, ps@[k])),
{
    let ghost before = acc@;
    let mut i: usize = 0;
    while i < ps.len()
        invariant
            i <= ps.len(),
            acc@ == before + Seq::new(i as nat, |k: int| (tag, ps@[k])),
        decreases ps.len() - i,
    {
        acc.push((tag, ps[i]));
        proof {
            assert(acc@ =~= before + Seq::new((i + 1) as nat, |k: int| (tag, ps@[k])));
        }
        i = i + 1;
    }
}

fn append_voice(acc: &mut Vec<(usize, SegmentVoiceFrame)>, vs: &Vec<SegmentVoiceFrame>, tag: usize)
    ensures
        final(acc)@ == old(acc)@ + Seq::new(vs@.len(), |k: int| (tag, vs@[k])),
{
    let ghost before = acc@;
    let mut i: usize = 0;
    while i < vs.len()
        invariant
            i <= vs.len(),
            acc@ == before + Seq::new(i as nat, |k: int| (tag, vs@[k])),
        decreases vs.len() - i,
    {
        acc.push((tag, vs[i]));
        proof {
            assert(acc@ =~= before + Seq::new((i + 1) as nat, |k: int| (tag, vs@[k])));
        }
        i = i + 1;
    }
}

fn add_distinct_ticks(acc: &mut Vec<i32>, ticks: &Vec<i32>)
    requires
        crate::weapon_evidence::strictly_increasing(old(acc)@),
    ensures
        crate::weapon_evidence::strictly_increasing(final(acc)@),
        forall|t: i32| #[trigger] final(acc)@.contains(t) <==> (old(acc)@.contains(t) || ticks@.contains(t)),
{
    let ghost before = acc@;
    let mut i: usize = 0;
    while i < ticks.len()
        invariant
            i <= ticks.len(),
            crate::weapon_evidence::strictly_increasing(acc@),
            forall|t: i32| #[trigger] acc@.contains(t) <==> (before.contains(t) || ticks@.take(i as int).contains(t)),
        decreases ticks.len() - i,
    {
        crate::weapon_evidence::insert_sorted_distinct(acc, ticks[i]);
        proof {
            assert forall|t: i32| #[trigger] acc@.contains(t) <==> (before.contains(t) || ticks@.take(i + 1).contains(t)) by {
                if ticks@.take(i + 1).contains(t) {
                    let k = choose|k: int| 0 <= k < i + 1 && #[trigger] ticks@.take(i + 1)[k] == t;
                    if k < i {
                        assert(ticks@.take(i as int)[k] == t);
                    }
                }
                if ticks@.take(i as int).contains(t) {
                    let k = choose|k: int| 0 <= k < i && #[trigger] ticks@.take(i as int)[k] == t;
                    assert(ticks@.take(i + 1)[k] == t);
                }
                if t == ticks@[i as int] {
                    assert(ticks@.take(i + 1)[i as int] == t);
                }
            }
        }
        i = i + 1;
    }
    proof {
        assert(ticks@.take(ticks.len() as int) =~= ticks@);
    }
}

fn add_avatars(acc: &mut Vec<ParsedAvatarOverride>, avatars: Vec<ParsedAvatarOverride>, Ghost(prefix): Ghost<Seq<ParsedAvatarOverride>>)
    requires
        lists_avatars(old(acc)@, avatar_map(prefix)),
    ensures
        lists_avatars(final(acc)@, avatar_map(prefix + avatars@)),
{
    let ghost all = avatars@;
    let mut rest = avatars;
    let ghost mut done: int = 0;
    proof {
        assert(prefix + all.take(0) =~= prefix);
    }
    while rest.len() > 0
        invariant
            0 <= done <= all.len(),
            rest@ == all.subrange(done, all.len() as int),
            lists_avatars(acc@, avatar_map(prefix + all.take(done))),
        decreases rest.len(),
    {
        let a = rest.remove(0);
        proof {
            assert(a == all[done]);
            assert((prefix + all.take(done + 1)).drop_last() =~= prefix + all.take(done));
            assert((prefix + all.take(done + 1)).last() == a);
        }
        put_avatar(acc, a, Ghost(avatar_map(prefix + all.take(done))));
        proof {
            done = done + 1;
            assert(rest@ =~= all.subrange(done, all.len() as int));
        }
    }
    proof {
        assert(all.take(done) =~= all);
    }
}

fn add_econ(acc: &mut Vec<(usize, SegmentEconItem)>, items: Vec<SegmentEconItem>, tag: usize, Ghost(prefix): Ghost<Seq<(usize, SegmentEconItem)>>)
    requires
        old(acc)@ == dedup_econ(prefix),
        econ_keys_distinct(old(acc)@),
    ensures
        final(acc)@ == dedup_econ(prefix + Seq::new(items@.len(), |k: int| (tag, items@[k]))),
        econ_keys_distinct(final(acc)@),
{
    let ghost all = items@;
    let ghost tagged = Seq::new(all.len(), |k: int| (tag, all[k]));
    let mut rest = items;
    let ghost mut done: int = 0;
    proof {
        assert(prefix + tagged.take(0) =~= prefix);
    }
    while rest.len() > 0
        invariant
            0 <= done <= all.len(),
            tagged == Seq::new(all.len(), |k: int| (tag, all[k])),
            rest@ == all.subrange(done, all.len() as int),
            acc@ == dedup_econ(prefix + tagged.take(done)),
            econ_keys_distinct(acc@),
        decreases rest.len(),
    {
        let item = rest.remove(0);
        proof {
            assert(item == all[done]);
            assert((prefix + tagged.take(done)).push((tag, item)) =~= prefix + tagged.take(done + 1));
        }
        put_econ(acc, (tag, item), Ghost(prefix + tagged.take(done)));
        proof {
            done = done + 1;
            assert(rest@ =~= all.subrange(done, all.len() as int));
        }
    }
    proof {
        assert(tagged.take(done) =~= tagged);
    }
}

fn copy_events(v: &Vec<ParsedGameEvent>) -> (r: Vec<ParsedGameEvent>)
    ensures
        r@ == v@,
{
    let mut out: Vec<ParsedGameEvent> = Vec::new();
    let mut i: usize = 0;
    while i < v.len()
        invariant
            i <= v.len(),
            out@ == v@.take(i as int),
        decreases v.len() - i,
    {
        out.push(copy_event(&v[i]));
        proof {
            assert(out@ =~= v@.take(i + 1));
        }
        i = i + 1;
    }
    proof {
        assert(v@.take(v.len() as int) =~= v@);
    }
    out
}


proof fn lemma_lanes_error_stays(parts: Seq<SegmentDemo>, numbers: Seq<u32>, i: int, n: int, m: Seq<char>)
    requires
        0 < i <= n,
        lanes_upto(parts, numbers, i) == Err::<(Seq<LanesView>, Option<i32>), Seq<char>>(m),
    ensures
        lanes_upto(parts, numbers, n) == Err::<(Seq<LanesView>, Option<i32>), Seq<char>>(m),
    decreases n - i,
{
    reveal(lanes_upto);
    if n > i {
        lemma_lanes_error_stays(parts, numbers, i, n - 1, m);
    }
}

/// The accumulated lanes of the segments placed so far.
struct MergeAcc {
    rows: Vec<(usize, SegmentRow)>,
    projectiles: Vec<(usize, SegmentProjectile)>,
    voice_frames: Vec<(usize, SegmentVoiceFrame)>,
    events: Vec<ParsedGameEvent>,
    freeze: Vec<i32>,
    beginplant: Vec<i32>,
    planted: Vec<i32>,
}

spec fn acc_holds(acc: MergeAcc, lanes: Seq<LanesView>) -> bool {
    &&& acc.rows@ == all_rows(lanes)
    &&& acc.projectiles@ == all_projectiles(lanes)
    &&& acc.voice_frames@ == all_voice(lanes)
    &&& acc.events@ == all_events(lanes)
    &&& lists_distinct_ticks(acc.freeze@, all_freeze(lanes))
    &&& lists_distinct_ticks(acc.beginplant@, all_beginplant(lanes))
    &&& lists_distinct_ticks(acc.planted@, all_planted(lanes))
}

fn append_lanes(acc: &mut MergeAcc, lanes: PartLanes, tag: usize, Ghost(done): Ghost<Seq<LanesView>>)
    requires
        acc_holds(*old(acc), done),
        done.len() == tag,
    ensures
        acc_holds(*final(acc), done.push(lanes@)),
{
    let ghost l = lanes@;
    let ghost next = done.push(l);
    proof {
        assert(next.drop_last() =~= done);
        assert(next.last() == l);
    }
    append_rows(&mut acc.rows, &lanes.rows, tag);
    append_projectiles(&mut acc.projectiles, &lanes.projectiles, tag);
    append_voice(&mut acc.voice_frames, &lanes.voice_frames, tag);
    let mut events = lanes.events;
    acc.events.append(&mut events);
    add_distinct_ticks(&mut acc.freeze, &lanes.round_freeze_end_ticks);
    add_distinct_ticks(&mut acc.beginplant, &lanes.bomb_beginplant_ticks);
    add_distinct_ticks(&mut acc.planted, &lanes.bomb_planted_ticks);
    proof {
        assert(all_freeze(next) =~= all_freeze(done) + l.round_freeze_end_ticks);
        assert(all_beginplant(next) =~= all_beginplant(done) + l.bomb_beginplant_ticks);
        assert(all_planted(next) =~= all_planted(done) + l.bomb_planted_ticks);
        assert forall|t: i32| #[trigger] acc.freeze@.contains(t) <==> all_freeze(next).contains(t) by {
            if (all_freeze(done) + l.round_freeze_end_ticks).contains(t) {
                let k = choose|k: int| 0 <= k < (all_freeze(done) + l.round_freeze_end_ticks).len() && #[trigger] (all_freeze(done) + l.round_freeze_end_ticks)[k] == t;
                if k < all_freeze(done).len() {
                    assert(all_freeze(done)[k] == t);
                } else {
                    assert(l.round_freeze_end_ticks[k - all_freeze(done).len()] == t);
                }
            }
            if all_freeze(done).contains(t) {
                let k = choose|k: int| 0 <= k < all_freeze(done).len() && #[trigger] all_freeze(done)[k] == t;
                assert((all_freeze(done) + l.round_freeze_end_ticks)[k] == t);
            }
            if l.round_freeze_end_ticks.contains(t) {
                let k = choose|k: int| 0 <= k < l.round_freeze_end_ticks.len() && #[trigger] l.round_freeze_end_ticks[k] == t;
                assert((all_freeze(done) + l.round_freeze_end_ticks)[all_freeze(done).len() + k] == t);
            }
        }
        assert forall|t: i32| #[trigger] acc.beginplant@.contains(t) <==> all_beginplant(next).contains(t) by {
            if (all_beginplant(done) + l.bomb_beginplant_ticks).contains(t) {
                let k = choose|k: int| 0 <= k < (all_beginplant(done) + l.bomb_beginplant_ticks).len() && #[trigger] (all_beginplant(done) + l.bomb_beginplant_ticks)[k] == t;
                if k < all_beginplant(done).len() {
                    assert(all_beginplant(done)[k] == t);
                } else {
                    assert(l.bomb_beginplant_ticks[k - all_beginplant(done).len()] == t);
                }
            }
            if all_beginplant(done).contains(t) {
                let k = choose|k: int| 0 <= k < all_beginplant(done).len() && #[trigger] all_beginplant(done)[k] == t;
                assert((all_beginplant(done) + l.bomb_beginplant_ticks)[k] == t);
            }
            if l.bomb_beginplant_ticks.contains(t) {
                let k = choose|k: int| 0 <= k < l.bomb_beginplant_ticks.len() && #[trigger] l.bomb_beginplant_ticks[k] == t;
                assert((all_beginplant(done) + l.bomb_beginplant_ticks)[all_beginplant(done).len() + k] == t);
            }
        }
        assert forall|t: i32| #[trigger] acc.planted@.contains(t) <==> all_planted(next).contains(t) by {
            if (all_planted(done) + l.bomb_planted_ticks).contains(t) {
                let k = choose|k: int| 0 <= k < (all_planted(done) + l.bomb_planted_ticks).len() && #[trigger] (all_planted(done) + l.bomb_planted_ticks)[k] == t;
                if k < all_planted(done).len() {
                    assert(all_planted(done)[k] == t);
                } else {
                    assert(l.bomb_planted_ticks[k - all_planted(done).len()] == t);
                }
            }
            if all_planted(done).contains(t) {
                let k = choose|k: int| 0 <= k < all_planted(done).len() && #[trigger] all_planted(done)[k] == t;
                assert((all_planted(done) + l.bomb_planted_ticks)[k] == t);
            }
            if l.bomb_planted_ticks.contains(t) {
                let k = choose|k: int| 0 <= k < l.bomb_planted_ticks.len() && #[trigger] l.bomb_planted_ticks[k] == t;
                assert((all_planted(done) + l.bomb_planted_ticks)[all_planted(done).len() + k] == t);
            }
        }
        assert(all_events(next) =~= all_events(done) + l.events);
    }
}


/// Places one segment: keeps its completed lanes, moves them one tick past
/// the previous segment, and adds them, its avatars and its economy items.
/// Gives the segment's last tick after the move.
#[verifier::rlimit(60)]
fn place_part(
    acc: &mut MergeAcc,
    avatars: &mut Vec<ParsedAvatarOverride>,
    econ: &mut Vec<(usize, SegmentEconItem)>,
    part: SegmentDemo,
    rounds: &Vec<(u32, CompletedRound)>,
    start: Option<ParsedGameEvent>,
    end: Option<ParsedGameEvent>,
    prev: Option<i32>,
    tag: usize,
    number: u32,
    Ghost(orig): Ghost<Seq<SegmentDemo>>,
    Ghost(numbers): Ghost<Seq<u32>>,
    Ghost(done): Ghost<Seq<LanesView>>,
) -> (r: Result<i32, Error>)
    requires
        tag < orig.len(),
        numbers.len() == orig.len(),
        part == orig[tag as int],
        numbers[tag as int] == number,
        rounds@ == part_rounds(orig[tag as int]),
        start == start_for(orig, tag as int),
        end == end_for(orig, tag as int),
        lanes_upto(orig, numbers, tag as int) == Ok::<(Seq<LanesView>, Option<i32>), Seq<char>>((done, prev)),
        done.len() == tag,
        acc_holds(*old(acc), done),
        lists_avatars(old(avatars)@, avatar_map(all_avatars(orig.take(tag as int)))),
        old(econ)@ == dedup_econ(all_econ(orig.take(tag as int))),
        econ_keys_distinct(old(econ)@),
    ensures
        match r {
            Ok(max) => lanes_upto(orig, numbers, tag + 1) is Ok && lanes_upto(orig, numbers, tag + 1)->Ok_0.1 == Some(max)
                && lanes_upto(orig, numbers, tag + 1)->Ok_0.0.len() == tag + 1
                && acc_holds(*final(acc), lanes_upto(orig, numbers, tag + 1)->Ok_0.0)
                && lists_avatars(final(avatars)@, avatar_map(all_avatars(orig.take(tag + 1))))
                && final(econ)@ == dedup_econ(all_econ(orig.take(tag + 1))) && econ_keys_distinct(final(econ)@),
            Err(e) => e is InvalidDemo && lanes_upto(orig, numbers, tag + 1) == Err::<(Seq<LanesView>, Option<i32>), Seq<char>>(
                e.demo_detail(),
            ),
        },
{
    proof {
        reveal(lanes_upto);
    }
    let events = copy_events(&part.events);
    let mut lanes = keep_completed_lanes(&part, events, rounds, start, end);
    let ghost kept = lanes@;
    proof {
        assert(kept == part_kept(orig, tag as int));
    }
    let (lo, hi) = match retained_tick_range(&lanes) {
        Some(range) => range,
        None => {
            let m = crate::text::string_of("demo segment p");
            let m = crate::text::concat_str(m, crate::text::u64_decimal(number as u64).as_str());
            let m = crate::text::concat_str(m, " contains no completed round data");
            proof {
                reveal_strlit("demo segment p");
                reveal_strlit(" contains no completed round data");
            }
            return Err(crate::error::invalid_demo(m));
        },
    };
    let offset: i64 = match prev {
        Some(p) => p as i64 + 1 - lo as i64,
        None => 0,
    };
    match shift_part_ticks(&mut lanes, offset, number) {
        Ok(()) => {},
        Err(e) => return Err(e),
    }
    let max = match crate::demo_series::checked_shift_tick(hi, offset, number) {
        Ok(t) => t,
        Err(e) => return Err(e),
    };
    let ghost next = lanes_upto(orig, numbers, tag + 1);
    proof {
        assert(next == Ok::<(Seq<LanesView>, Option<i32>), Seq<char>>((done.push(lanes@), Some(max))));
        assert(orig.take(tag + 1).drop_last() =~= orig.take(tag as int));
        assert(orig.take(tag + 1).last() == part);
    }
    append_lanes(acc, lanes, tag, Ghost(done));
    add_avatars(avatars, part.avatar_overrides, Ghost(all_avatars(orig.take(tag as int))));
    add_econ(econ, part.econ_items, tag, Ghost(all_econ(orig.take(tag as int))));
    proof {
        assert(all_avatars(orig.take(tag + 1)) =~= all_avatars(orig.take(tag as int)) + part.avatar_overrides@);
        assert(all_econ(orig.take(tag + 1)) =~= all_econ(orig.take(tag as int)) + Seq::new(part.econ_items@.len(), |k: int| (tag, part.econ_items@[k])));
    }
    Ok(max)
}


fn copy_opt_event(e: &Option<ParsedGameEvent>) -> (r: Option<ParsedGameEvent>)
    ensures
        r == *e,
{
    match e {
        Some(x) => Some(copy_event(x)),
        None => None,
    }
}

fn copy_opt_string(o: &Option<String>) -> (r: Option<String>)
    ensures
        r == *o,
{
    match o {
        Some(s) => Some(s.clone()),
        None => None,
    }
}

/// What the checks before placement produce.
struct MergePrep {
    completed: Vec<Vec<(u32, CompletedRound)>>,
    start: ParsedGameEvent,
    end: ParsedGameEvent,
    demo_sha256: String,
}

/// Runs the checks that come before placing the segments.
#[verifier::rlimit(40)]
fn merge_checks(source: &crate::demo_series::DemoSourceSet, parts: &Vec<SegmentDemo>, tick_rate_agrees: &Vec<bool>) -> (r: Result<
    MergePrep,
    Error,
>)
    requires
        tick_rate_agrees.len() == parts.len(),
        parts.len() == source.parts@.len(),
        parts.len() >= 2,
    ensures
        match r {
            Err(e) => e is InvalidDemo && merge_error(*source, parts@, tick_rate_agrees@) == Some(e.demo_detail()),
            Ok(p) => merge_error(*source, parts@, tick_rate_agrees@) == placement_error(parts@, part_numbers(*source))
                && p.completed.len() == parts.len() && round_views(p.completed@) == rounds_of_parts(parts@)
                && canonical_start(parts@[0].events@, part_rounds(parts@[0])) == Some(p.start)
                && canonical_end(parts@[parts.len() - 1].events@, part_rounds(parts@[parts.len() - 1])) == Some(p.end)
                && p.demo_sha256@ == crate::demo_series::spec_compound_hash(part_hashes(parts@)),
        },
{
    let n = parts.len();
    proof {
        reveal_strlit("p1 has no usable match-start event");
        reveal_strlit("last segment has no usable match-end event");
        reveal_strlit("demo segment contains an invalid content hash");
        reveal_strlit("demo segment set is empty");
    }
    match validate_segment_metadata(parts, tick_rate_agrees) {
        Ok(()) => {},
        Err(e) => return Err(e),
    }
    let completed = match completed_of_parts(parts) {
        Ok(c) => c,
        Err(e) => return Err(e),
    };
    match validate_round_continuity(parts, &completed) {
        Ok(()) => {},
        Err(e) => return Err(e),
    }
    proof {
        assert(round_views(completed@)[0] == completed@[0]@);
        assert(round_views(completed@)[n - 1] == completed@[n - 1]@);
    }
    let start = match canonical_match_start(&parts[0].events, &completed[0]) {
        Ok(e) => e,
        Err(e) => return Err(e),
    };
    let end = match canonical_match_end(&parts[n - 1].events, &completed[n - 1]) {
        Ok(e) => e,
        Err(e) => return Err(e),
    };
    let mut hashes: Vec<String> = Vec::new();
    let mut i: usize = 0;
    while i < n
        invariant
            i <= n,
            n == parts.len(),
            hashes@.len() == i,
            forall|k: int| 0 <= k < i ==> #[trigger] hashes@[k]@ == parts@[k].demo_sha256@,
        decreases n - i,
    {
        hashes.push(parts[i].demo_sha256.clone());
        i = i + 1;
    }
    proof {
        assert(crate::demo_series::hash_views(hashes@) =~= part_hashes(parts@));
    }
    let demo_sha256 = match crate::demo_series::compound_demo_sha256(&hashes) {
        Ok(h) => h,
        Err(e) => return Err(e),
    };
    Ok(MergePrep { completed, start, end, demo_sha256 })
}

/// Places the segments on one tick line and orders the merged lanes.
#[verifier::rlimit(60)]
fn place_parts(
    source: &crate::demo_series::DemoSourceSet,
    parts: Vec<SegmentDemo>,
    completed: &Vec<Vec<(u32, CompletedRound)>>,
    start: ParsedGameEvent,
    end: ParsedGameEvent,
) -> (r: Result<MergedLanes, Error>)
    requires
        parts.len() == source.parts@.len(),
        parts.len() >= 2,
        completed.len() == parts.len(),
        round_views(completed@) == rounds_of_parts(parts@),
        canonical_start(parts@[0].events@, part_rounds(parts@[0])) == Some(start),
        canonical_end(parts@[parts.len() - 1].events@, part_rounds(parts@[parts.len() - 1])) == Some(end),
    ensures
        match r {
            Err(e) => e is InvalidDemo && placement_error(parts@, part_numbers(*source)) == Some(e.demo_detail()),
            Ok(m) => placement_error(parts@, part_numbers(*source)) is None && merged_lanes_as(m, *source, parts@),
        },
{
    let ghost orig = parts@;
    let ghost numbers = part_numbers(*source);
    let n = parts.len();
    proof {
        reveal_strlit("merged demo contains no player rows");
    }
    let mut acc = MergeAcc {
        rows: Vec::new(),
        projectiles: Vec::new(),
        voice_frames: Vec::new(),
        events: Vec::new(),
        freeze: Vec::new(),
        beginplant: Vec::new(),
        planted: Vec::new(),
    };
    let mut avatars: Vec<ParsedAvatarOverride> = Vec::new();
    let mut econ: Vec<(usize, SegmentEconItem)> = Vec::new();
    let mut prev: Option<i32> = None;
    let ghost mut done: Seq<LanesView> = Seq::empty();
    let start_event = Some(start);
    let end_event = Some(end);
    let mut rest = parts;
    let mut i: usize = 0;
    proof {
        reveal(lanes_upto);
        assert(orig.take(0) =~= Seq::<SegmentDemo>::empty());
        assert(acc.rows@ =~= all_rows(done));
        assert(acc.projectiles@ =~= all_projectiles(done));
        assert(acc.voice_frames@ =~= all_voice(done));
        assert(acc.events@ =~= all_events(done));
        assert(rest@.subrange(0, n as int) =~= rest@);
    }
    while i < n
        invariant
            i <= n,
            orig == parts@,
            n == orig.len(),
            n == source.parts@.len(),
            n >= 2,
            numbers == part_numbers(*source),
            rest@ == orig.subrange(i as int, n as int),
            completed.len() == n,
            round_views(completed@) == rounds_of_parts(orig),
            start_event == canonical_start(orig[0].events@, part_rounds(orig[0])),
            end_event == canonical_end(orig[n - 1].events@, part_rounds(orig[n - 1])),
            lanes_upto(orig, numbers, i as int) == Ok::<(Seq<LanesView>, Option<i32>), Seq<char>>((done, prev)),
            done.len() == i,
            acc_holds(acc, done),
            lists_avatars(avatars@, avatar_map(all_avatars(orig.take(i as int)))),
            econ@ == dedup_econ(all_econ(orig.take(i as int))),
            econ_keys_distinct(econ@),
        decreases n - i,
    {
        let part = rest.remove(0);
        let st = if i == 0 {
            copy_opt_event(&start_event)
        } else {
            None
        };
        let en = if i == n - 1 {
            copy_opt_event(&end_event)
        } else {
            None
        };
        proof {
            assert(part == orig[i as int]);
            assert(round_views(completed@)[i as int] == completed@[i as int]@);
            assert(numbers[i as int] == source.parts@[i as int].part);
        }
        let placed = place_part(
            &mut acc,
            &mut avatars,
            &mut econ,
            part,
            &completed[i],
            st,
            en,
            prev,
            i,
            source.parts[i].part,
            Ghost(orig),
            Ghost(numbers),
            Ghost(done),
        );
        match placed {
            Ok(max) => {
                proof {
                    done = lanes_upto(orig, numbers, i + 1)->Ok_0.0;
                }
                prev = Some(max);
            },
            Err(e) => {
                proof {
                    lemma_lanes_error_stays(orig, numbers, i + 1, n as int, e.demo_detail());
                }
                return Err(e);
            },
        }
        proof {
            assert(rest@ =~= orig.subrange(i + 1, n as int));
        }
        i = i + 1;
    }
    proof {
        assert(orig.take(n as int) =~= orig);
    }
    let MergeAcc { mut rows, mut projectiles, mut voice_frames, mut events, freeze, beginplant, planted } = acc;
    sort_rows(&mut rows);
    sort_projectiles(&mut projectiles);
    sort_voice_frames(&mut voice_frames);
    sort_events(&mut events);
    sort_econ_items(&mut econ);
    proof {
        let perm = choose|perm: Seq<int>| #[trigger] is_stable_arrangement(rows@, all_rows(done), row_rank(), perm);
    }
    if rows.len() == 0 {
        return Err(crate::error::invalid_demo_str("merged demo contains no player rows"));
    }
    Ok(
        MergedLanes {
            round_freeze_end_ticks: freeze,
            bomb_beginplant_ticks: beginplant,
            bomb_planted_ticks: planted,
            rows,
            projectiles,
            voice_frames,
            events,
            avatar_overrides: avatars,
            econ_items: econ,
        },
    )
}

/// The merged lanes of a match.
struct MergedLanes {
    round_freeze_end_ticks: Vec<i32>,
    bomb_beginplant_ticks: Vec<i32>,
    bomb_planted_ticks: Vec<i32>,
    rows: Vec<(usize, SegmentRow)>,
    projectiles: Vec<(usize, SegmentProjectile)>,
    voice_frames: Vec<(usize, SegmentVoiceFrame)>,
    events: Vec<ParsedGameEvent>,
    avatar_overrides: Vec<ParsedAvatarOverride>,
    econ_items: Vec<(usize, SegmentEconItem)>,
}

spec fn merged_lanes_as(m: MergedLanes, source: crate::demo_series::DemoSourceSet, parts: Seq<SegmentDemo>) -> bool {
    let lanes = lanes_upto(parts, part_numbers(source), parts.len() as int)->Ok_0.0;
    &&& lists_distinct_ticks(m.round_freeze_end_ticks@, all_freeze(lanes))
    &&& lists_distinct_ticks(m.bomb_beginplant_ticks@, all_beginplant(lanes))
    &&& lists_distinct_ticks(m.bomb_planted_ticks@, all_planted(lanes))
    &&& stably_sorted(m.rows@, all_rows(lanes), row_rank())
    &&& stably_sorted(m.projectiles@, all_projectiles(lanes), projectile_rank())
    &&& stably_sorted(m.voice_frames@, all_voice(lanes), voice_rank())
    &&& stably_sorted(m.events@, all_events(lanes), event_rank())
    &&& lists_avatars(m.avatar_overrides@, avatar_map(all_avatars(parts)))
    &&& econ_sorted(m.econ_items@, dedup_econ(all_econ(parts)))
}

/// Merges the parsed segments of one match, in part order, into one match:
/// its headers are the first segment's, its hash the compound hash, and its
/// lanes keep the completed rounds of each segment on one continuous tick
/// line. `tick_rate_agrees[i]` tells whether segment `i`'s tick rate is
/// finite and within 0.01 of the first segment's. `Ok(None)` when the source
/// has a single part, which stands as it is.
pub fn merge_parsed_demo_parts(
    source: &crate::demo_series::DemoSourceSet,
    parts: Vec<SegmentDemo>,
    tick_rate_agrees: &Vec<bool>,
) -> (r: Result<Option<MergedDemo>, Error>)
    requires
        tick_rate_agrees.len() == parts.len(),
    ensures
        match r {
            Err(e) => e is InvalidDemo && merge_error(*source, parts@, tick_rate_agrees@) == Some(e.demo_detail()),
            Ok(None) => merge_error(*source, parts@, tick_rate_agrees@) is None && parts.len() == 1,
            Ok(Some(m)) => merge_error(*source, parts@, tick_rate_agrees@) is None && parts.len() > 1 && merged_as(
                m,
                *source,
                parts@,
            ),
        },
{
    proof {
        reveal_strlit("parsed demo segment count does not match the source set");
    }
    let n = parts.len();
    if n != source.parts.len() || n == 0 {
        return Err(crate::error::invalid_demo_str("parsed demo segment count does not match the source set"));
    }
    if n == 1 {
        return Ok(None);
    }
    let prep = match merge_checks(source, &parts, tick_rate_agrees) {
        Ok(p) => p,
        Err(e) => return Err(e),
    };
    let MergePrep { completed, start, end, demo_sha256 } = prep;
    let map = parts[0].map.clone();
    let demo_patch_version = parts[0].demo_patch_version;
    let demo_version_name = copy_opt_string(&parts[0].demo_version_name);
    let server_name = copy_opt_string(&parts[0].server_name);
    let tick_rate_bits = parts[0].tick_rate_bits;
    let tick_rate_text = parts[0].tick_rate_text.clone();
    let ghost orig = parts@;
    let lanes = match place_parts(source, parts, &completed, start, end) {
        Ok(l) => l,
        Err(e) => return Err(e),
    };
    let path = crate::text::string_of(source.primary_path());
    let stem = source.logical_stem.clone();
    Ok(
        Some(
            MergedDemo {
                path,
                stem,
                demo_sha256,
                map,
                demo_patch_version,
                demo_version_name,
                server_name,
                tick_rate_bits,
                tick_rate_text,
                round_freeze_end_ticks: lanes.round_freeze_end_ticks,
                bomb_beginplant_ticks: lanes.bomb_beginplant_ticks,
                bomb_planted_ticks: lanes.bomb_planted_ticks,
                rows: lanes.rows,
                projectiles: lanes.projectiles,
                voice_frames: lanes.voice_frames,
                events: lanes.events,
                avatar_overrides: lanes.avatar_overrides,
                econ_items: lanes.econ_items,
            },
        ),
    )
}


// ---------------------------------------------------------------------------
// The merged tick line is continuous
// ---------------------------------------------------------------------------

pub open spec fn shift_range(r: Option<(i32, i32)>, offset: int) -> Option<(i32, i32)> {
    match r {
        Some((lo, hi)) => Some((shift_tick(lo, offset), shift_tick(hi, offset))),
        None => None,
    }
}

proof fn lemma_widen_shift(r: Option<(i32, i32)>, t: i32, offset: int)
    requires
        fits_i32(t + offset),
        r matches Some((lo, hi)) ==> fits_i32(lo + offset) && fits_i32(hi + offset),
    ensures
        widen(shift_range(r, offset), shift_tick(t, offset)) == shift_range(widen(r, t), offset),
{
}

proof fn lemma_join_shift(a: Option<(i32, i32)>, b: Option<(i32, i32)>, offset: int)
    requires
        a matches Some((lo, hi)) ==> fits_i32(lo + offset) && fits_i32(hi + offset),
        b matches Some((lo, hi)) ==> fits_i32(lo + offset) && fits_i32(hi + offset),
    ensures
        join_ranges(shift_range(a, offset), shift_range(b, offset)) == shift_range(join_ranges(a, b), offset),
        join_ranges(a, b) matches Some((lo, hi)) ==> fits_i32(lo + offset) && fits_i32(hi + offset),
{
}

proof fn lemma_range_of_ticks_shift(ticks: Seq<i32>, offset: int)
    requires
        all_fit(ticks, offset),
    ensures
        range_of_ticks(Seq::new(ticks.len(), |i: int| shift_tick(ticks[i], offset))) == shift_range(range_of_ticks(ticks), offset),
        range_of_ticks(ticks) matches Some((lo, hi)) ==> fits_i32(lo + offset) && fits_i32(hi + offset),
    decreases ticks.len(),
{
    if ticks.len() > 0 {
        let init = ticks.drop_last();
        assert(all_fit(init, offset)) by {
            assert forall|i: int| 0 <= i < init.len() implies fits_i32(#[trigger] init[i] + offset) by {
                assert(init[i] == ticks[i]);
            }
        }
        lemma_range_of_ticks_shift(init, offset);
        let shifted = Seq::new(ticks.len(), |i: int| shift_tick(ticks[i], offset));
        assert(shifted.drop_last() =~= Seq::new(init.len(), |i: int| shift_tick(init[i], offset)));
        assert(fits_i32(ticks.last() + offset));
        lemma_widen_shift(range_of_ticks(init), ticks.last(), offset);
    }
}

proof fn lemma_range_of_rows_shift(rows: Seq<SegmentRow>, offset: int)
    requires
        forall|i: int| 0 <= i < rows.len() ==> fits_i32((#[trigger] rows[i]).tick + offset),
    ensures
        range_of_rows(Seq::new(rows.len(), |i: int| shift_row(rows[i], offset))) == shift_range(range_of_rows(rows), offset),
        range_of_rows(rows) matches Some((lo, hi)) ==> fits_i32(lo + offset) && fits_i32(hi + offset),
    decreases rows.len(),
{
    if rows.len() > 0 {
        let init = rows.drop_last();
        assert forall|i: int| 0 <= i < init.len() implies fits_i32((#[trigger] init[i]).tick + offset) by {
            assert(init[i] == rows[i]);
        }
        lemma_range_of_rows_shift(init, offset);
        let shifted = Seq::new(rows.len(), |i: int| shift_row(rows[i], offset));
        assert(shifted.drop_last() =~= Seq::new(init.len(), |i: int| shift_row(init[i], offset)));
        assert(fits_i32(rows.last().tick + offset));
        lemma_widen_shift(range_of_rows(init), rows.last().tick, offset);
    }
}

proof fn lemma_range_of_events_shift(events: Seq<ParsedGameEvent>, offset: int)
    requires
        forall|i: int| 0 <= i < events.len() ==> fits_i32((#[trigger] events[i]).tick + offset),
    ensures
        range_of_events(Seq::new(events.len(), |i: int| shift_event(events[i], offset))) == shift_range(range_of_events(events), offset),
        range_of_events(events) matches Some((lo, hi)) ==> fits_i32(lo + offset) && fits_i32(hi + offset),
    decreases events.len(),
{
    if events.len() > 0 {
        let init = events.drop_last();
        assert forall|i: int| 0 <= i < init.len() implies fits_i32((#[trigger] init[i]).tick + offset) by {
            assert(init[i] == events[i]);
        }
        lemma_range_of_events_shift(init, offset);
        let shifted = Seq::new(events.len(), |i: int| shift_event(events[i], offset));
        assert(shifted.drop_last() =~= Seq::new(init.len(), |i: int| shift_event(init[i], offset)));
        assert(fits_i32(events.last().tick + offset));
        lemma_widen_shift(range_of_events(init), events.last().tick, offset);
    }
}

proof fn lemma_range_of_voice_shift(vs: Seq<SegmentVoiceFrame>, offset: int)
    requires
        forall|i: int| 0 <= i < vs.len() ==> fits_i32((#[trigger] vs[i]).tick + offset),
    ensures
        range_of_voice(Seq::new(vs.len(), |i: int| shift_voice(vs[i], offset))) == shift_range(range_of_voice(vs), offset),
        range_of_voice(vs) matches Some((lo, hi)) ==> fits_i32(lo + offset) && fits_i32(hi + offset),
    decreases vs.len(),
{
    if vs.len() > 0 {
        let init = vs.drop_last();
        assert forall|i: int| 0 <= i < init.len() implies fits_i32((#[trigger] init[i]).tick + offset) by {
            assert(init[i] == vs[i]);
        }
        lemma_range_of_voice_shift(init, offset);
        let shifted = Seq::new(vs.len(), |i: int| shift_voice(vs[i], offset));
        assert(shifted.drop_last() =~= Seq::new(init.len(), |i: int| shift_voice(init[i], offset)));
        assert(fits_i32(vs.last().tick + offset));
        lemma_widen_shift(range_of_voice(init), vs.last().tick, offset);
    }
}

proof fn lemma_range_of_projectiles_shift(ps: Seq<SegmentProjectile>, offset: int)
    requires
        forall|i: int| 0 <= i < ps.len() ==> fits_i32((#[trigger] ps[i]).tick + offset) && (ps[i].effect_tick matches Some(t)
            ==> fits_i32(t + offset)),
    ensures
        range_of_projectiles(Seq::new(ps.len(), |i: int| shift_projectile(ps[i], offset))) == shift_range(range_of_projectiles(ps), offset),
        range_of_projectiles(ps) matches Some((lo, hi)) ==> fits_i32(lo + offset) && fits_i32(hi + offset),
    decreases ps.len(),
{
    if ps.len() > 0 {
        let init = ps.drop_last();
        assert forall|i: int| 0 <= i < init.len() implies fits_i32((#[trigger] init[i]).tick + offset) && (init[i].effect_tick matches Some(t)
            ==> fits_i32(t + offset)) by {
            assert(init[i] == ps[i]);
        }
        lemma_range_of_projectiles_shift(init, offset);
        let shifted = Seq::new(ps.len(), |i: int| shift_projectile(ps[i], offset));
        assert(shifted.drop_last() =~= Seq::new(init.len(), |i: int| shift_projectile(init[i], offset)));
        let p = ps.last();
        assert(fits_i32(p.tick + offset));
        lemma_widen_shift(range_of_projectiles(init), p.tick, offset);
        match p.effect_tick {
            Some(t) => {
                lemma_widen_shift(widen(range_of_projectiles(init), p.tick), t, offset);
            },
            None => {},
        }
    }
}

/// Moving every tick of the lanes by `offset` moves their range by it.
proof fn lemma_lanes_range_shift(l: LanesView, offset: int)
    requires
        lanes_fit(l, offset),
    ensures
        lanes_range(shifted_lanes(l, offset)) == shift_range(lanes_range(l), offset),
        lanes_range(l) matches Some((lo, hi)) ==> fits_i32(lo + offset) && fits_i32(hi + offset),
{
    let sh = shifted_lanes(l, offset);
    lemma_range_of_rows_shift(l.rows, offset);
    lemma_range_of_events_shift(l.events, offset);
    lemma_range_of_projectiles_shift(l.projectiles, offset);
    lemma_range_of_voice_shift(l.voice_frames, offset);
    lemma_range_of_ticks_shift(l.round_freeze_end_ticks, offset);
    lemma_range_of_ticks_shift(l.bomb_beginplant_ticks, offset);
    lemma_range_of_ticks_shift(l.bomb_planted_ticks, offset);
    let a = range_of_rows(l.rows);
    let b = range_of_events(l.events);
    let c = range_of_projectiles(l.projectiles);
    let d = range_of_voice(l.voice_frames);
    let e = range_of_ticks(l.round_freeze_end_ticks);
    let f = range_of_ticks(l.bomb_beginplant_ticks);
    let g = range_of_ticks(l.bomb_planted_ticks);
    lemma_join_shift(a, b, offset);
    lemma_join_shift(join_ranges(a, b), c, offset);
    lemma_join_shift(join_ranges(join_ranges(a, b), c), d, offset);
    lemma_join_shift(join_ranges(join_ranges(join_ranges(a, b), c), d), e, offset);
    lemma_join_shift(join_ranges(join_ranges(join_ranges(join_ranges(a, b), c), d), e), f, offset);
    lemma_join_shift(join_ranges(join_ranges(join_ranges(join_ranges(join_ranges(a, b), c), d), e), f), g, offset);
}

/// The first tick of the lanes.
pub open spec fn range_start(l: LanesView) -> Option<i32> {
    match lanes_range(l) {
        Some((lo, _)) => Some(lo),
        None => None,
    }
}

/// The last tick of the lanes.
pub open spec fn range_end(l: LanesView) -> Option<i32> {
    match lanes_range(l) {
        Some((_, hi)) => Some(hi),
        None => None,
    }
}

/// Split recordings merge onto one continuous tick line: every placed
/// segment starts one tick after the previous one ends, and the first
/// keeps its own ticks.
pub proof fn law_segments_follow_each_other(parts: Seq<SegmentDemo>, numbers: Seq<u32>, n: int)
    requires
        0 <= n <= parts.len(),
        n <= numbers.len(),
        lanes_upto(parts, numbers, n) is Ok,
    ensures
        lanes_upto(parts, numbers, n)->Ok_0.0.len() == n,
        n == 0 ==> lanes_upto(parts, numbers, n)->Ok_0.1 is None,
        n > 0 ==> range_end(lanes_upto(parts, numbers, n)->Ok_0.0[n - 1]) is Some && lanes_upto(parts, numbers, n)->Ok_0.1
            == range_end(lanes_upto(parts, numbers, n)->Ok_0.0[n - 1]),
        n > 0 ==> lanes_upto(parts, numbers, n)->Ok_0.0[0] == part_kept(parts, 0),
        forall|i: int|
            0 < i < n ==> range_start(#[trigger] lanes_upto(parts, numbers, n)->Ok_0.0[i]) is Some && range_end(
                lanes_upto(parts, numbers, n)->Ok_0.0[i - 1],
            ) is Some && range_start(lanes_upto(parts, numbers, n)->Ok_0.0[i])->0 == range_end(
                lanes_upto(parts, numbers, n)->Ok_0.0[i - 1],
            )->0 + 1,
    decreases n,
{
    reveal(lanes_upto);
    if n > 0 {
        law_segments_follow_each_other(parts, numbers, n - 1);
        let (done, prev) = lanes_upto(parts, numbers, n - 1)->Ok_0;
        let kept = part_kept(parts, n - 1);
        let (lo, hi) = lanes_range(kept)->Some_0;
        let offset = match prev {
            Some(p) => p + 1 - lo,
            None => 0,
        };
        lemma_lanes_range_shift(kept, offset);
        let lanes = done.push(shifted_lanes(kept, offset));
        assert(lanes_upto(parts, numbers, n)->Ok_0 == (lanes, Some((hi + offset) as i32)));
        assert forall|i: int| 0 < i < n implies range_start(#[trigger] lanes[i]) is Some && range_end(lanes[i - 1]) is Some
            && range_start(lanes[i])->0 == range_end(lanes[i - 1])->0 + 1 by {
            if i < n - 1 {
                assert(lanes[i] == done[i]);
                assert(lanes[i - 1] == done[i - 1]);
            } else {
                assert(lanes[i - 1] == done[i - 1]);
            }
        }
        if n == 1 {
            assert(offset == 0);
            assert(shifted_lanes(kept, 0) =~= kept) by {
                assert(shifted_lanes(kept, 0).rows =~= kept.rows);
                assert(shifted_lanes(kept, 0).projectiles =~= kept.projectiles) by {
                    assert forall|k: int| 0 <= k < kept.projectiles.len() implies shifted_lanes(kept, 0).projectiles[k] == kept.projectiles[k] by {
                        let p = kept.projectiles[k];
                        match p.effect_tick {
                            Some(t) => {},
                            None => {},
                        }
                    }
                }
                assert(shifted_lanes(kept, 0).voice_frames =~= kept.voice_frames);
                assert(shifted_lanes(kept, 0).events =~= kept.events);
                assert(shifted_lanes(kept, 0).round_freeze_end_ticks =~= kept.round_freeze_end_ticks);
                assert(shifted_lanes(kept, 0).bomb_beginplant_ticks =~= kept.bomb_beginplant_ticks);
                assert(shifted_lanes(kept, 0).bomb_planted_ticks =~= kept.bomb_planted_ticks);
            }
        }
    }
}

} // verus!
