//! Rounds that a demo segment completes: for every `round_end` of the match
//! with one winner, the round that was played from the freeze end before it,
//! its row span, and the team score total its live rows show at its start.
use crate::demo_series::{is_mode, modal_round_at_tick, mode_score, predecessor_round, CompletedRound};
use crate::error::Error;
use crate::model::ParsedGameEvent;
use vstd::prelude::*;

verus! {

/// What segment merging reads of a player row; `source` is the row's index in
/// its segment.
#[derive(Clone, Copy, Debug, PartialEq, Eq, Structural)]
pub struct SegmentRow {
    pub round: u32,
    pub tick: i32,
    pub steam_id: u64,
    pub team_num: u8,
    pub round_in_progress: bool,
    pub is_freeze_period: bool,
    pub team_rounds_total: Option<u32>,
    pub source: usize,
}

/// Number of rows of `round` at `tick`.
pub open spec fn row_count(rows: Seq<SegmentRow>, tick: i32, round: u32) -> nat
    decreases rows.len(),
{
    if rows.len() == 0 {
        0
    } else {
        row_count(rows.drop_last(), tick, round) + if rows.last().tick == tick && rows.last().round == round {
            1nat
        } else {
            0nat
        }
    }
}

/// Rows at each tick counted by round: ticks ascending, each listed once,
/// every counted round once with its exact positive count.
pub open spec fn describes_rounds_by_tick(rbt: Seq<(i32, Vec<(u32, usize)>)>, rows: Seq<SegmentRow>) -> bool {
    &&& forall|a: int, b: int| 0 <= a < b < rbt.len() ==> #[trigger] rbt[a].0 < #[trigger] rbt[b].0
    &&& forall|k: int| 0 <= k < rbt.len() ==> (#[trigger] rbt[k]).1.len() > 0
    &&& forall|k: int, j: int|
        #![trigger rbt[k].1@[j]]
        0 <= k < rbt.len() && 0 <= j < rbt[k].1.len() ==> rbt[k].1@[j].1 == row_count(rows, rbt[k].0, rbt[k].1@[j].0)
            && rbt[k].1@[j].1 > 0
    &&& forall|k: int, j1: int, j2: int|
        #![trigger rbt[k].1@[j1], rbt[k].1@[j2]]
        0 <= k < rbt.len() && 0 <= j1 < j2 < rbt[k].1.len() ==> rbt[k].1@[j1].0 != rbt[k].1@[j2].0
    &&& forall|t: i32, r: u32| #[trigger] row_count(rows, t, r) > 0 ==> exists|k: int, j: int|
        #![trigger rbt[k].1@[j]]
        0 <= k < rbt.len() && 0 <= j < rbt[k].1.len() && rbt[k].0 == t && rbt[k].1@[j].0 == r
}

proof fn lemma_row_count_step(rows: Seq<SegmentRow>, i: int, t: i32, r: u32)
    requires
        0 <= i < rows.len(),
    ensures
        row_count(rows.take(i + 1), t, r) == row_count(rows.take(i), t, r) + if rows[i].tick == t && rows[i].round == r {
            1nat
        } else {
            0nat
        },
{
    assert(rows.take(i + 1).drop_last() =~= rows.take(i));
}

proof fn lemma_row_count_bound(rows: Seq<SegmentRow>, t: i32, r: u32)
    ensures
        row_count(rows, t, r) <= rows.len(),
    decreases rows.len(),
{
    if rows.len() > 0 {
        lemma_row_count_bound(rows.drop_last(), t, r);
    }
}

proof fn lemma_row_count_push(prefix: Seq<SegmentRow>, row: SegmentRow)
    ensures
        forall|t: i32, r: u32| #[trigger] row_count(prefix.push(row), t, r) == row_count(prefix, t, r) + if row.tick == t
            && row.round == r {
            1nat
        } else {
            0nat
        },
{
    assert(prefix.push(row).drop_last() =~= prefix);
}

/// Counts one more row at a tick that already has rows.
#[verifier::rlimit(40)]
fn count_at_listed_tick(
    rbt: &mut Vec<(i32, Vec<(u32, usize)>)>,
    k: usize,
    row: SegmentRow,
    Ghost(prefix): Ghost<Seq<SegmentRow>>,
)
    requires
        describes_rounds_by_tick(old(rbt)@, prefix),
        k < old(rbt)@.len(),
        old(rbt)@[k as int].0 == row.tick,
        prefix.len() < usize::MAX,
    ensures
        describes_rounds_by_tick(final(rbt)@, prefix.push(row)),
{
    let ghost before = rbt@;
    let ghost next = prefix.push(row);
    proof {
        lemma_row_count_push(prefix, row);
        lemma_row_count_bound(prefix, row.tick, row.round);
    }
    let ghost inner = rbt@[k as int].1@;
    let mut j: usize = 0;
    while j < rbt[k].1.len() && rbt[k].1[j].0 != row.round
        invariant
            k < rbt.len(),
            rbt@ == before,
            j <= rbt@[k as int].1.len(),
            forall|q: int| 0 <= q < j ==> (#[trigger] rbt@[k as int].1@[q]).0 != row.round,
        decreases rbt@[k as int].1.len() - j,
    {
        j = j + 1;
    }
    let (tick, mut counts) = rbt.remove(k);
    if j < counts.len() {
        let (round, count) = counts[j];
        counts.set(j, (round, count + 1));
    } else {
        counts.push((row.round, 1));
    }
    rbt.insert(k, (tick, counts));
    proof {
        assert forall|kk: int| 0 <= kk < rbt@.len() && kk != k implies #[trigger] rbt@[kk] == before[kk] by {}
        assert forall|kk: int, jj: int|
            #![trigger rbt@[kk].1@[jj]]
            0 <= kk < rbt@.len() && 0 <= jj < rbt@[kk].1.len() implies rbt@[kk].1@[jj].1 == row_count(next, rbt@[kk].0, rbt@[kk].1@[jj].0)
                && rbt@[kk].1@[jj].1 > 0 by {
            if kk != k {
                assert(rbt@[kk] == before[kk]);
                assert(before[kk].0 != row.tick) by {
                    if kk < k {
                        assert(before[kk].0 < before[k as int].0);
                    } else {
                        assert(before[k as int].0 < before[kk].0);
                    }
                }
            } else if jj != j {
                assert(rbt@[kk].1@[jj] == inner[jj]);
                if jj < j {
                } else if j < inner.len() {
                    assert(inner[j as int].0 == row.round);
                }
            }
        }
        assert forall|kk: int, j1: int, j2: int|
            #![trigger rbt@[kk].1@[j1], rbt@[kk].1@[j2]]
            0 <= kk < rbt@.len() && 0 <= j1 < j2 < rbt@[kk].1.len() implies rbt@[kk].1@[j1].0 != rbt@[kk].1@[j2].0 by {
            if kk != k {
                assert(rbt@[kk] == before[kk]);
            } else {
                assert(rbt@[kk].1@[j1].0 == inner[j1].0);
                if j2 < inner.len() {
                    assert(rbt@[kk].1@[j2].0 == inner[j2].0);
                }
            }
        }
        assert forall|t: i32, r: u32| #[trigger] row_count(next, t, r) > 0 implies exists|kk: int, jj: int|
            #![trigger rbt@[kk].1@[jj]]
            0 <= kk < rbt@.len() && 0 <= jj < rbt@[kk].1.len() && rbt@[kk].0 == t && rbt@[kk].1@[jj].0 == r by {
            if t == row.tick && r == row.round {
                assert(rbt@[k as int].1@[j as int].0 == r);
            } else {
                assert(row_count(prefix, t, r) > 0);
                let (kk, jj) = choose|kk: int, jj: int|
                    #![trigger before[kk].1@[jj]]
                    0 <= kk < before.len() && 0 <= jj < before[kk].1.len() && before[kk].0 == t && before[kk].1@[jj].0 == r;
                if kk != k {
                    assert(rbt@[kk] == before[kk]);
                } else {
                    assert(rbt@[kk].1@[jj] == inner[jj]);
                }
            }
        }
        assert forall|a: int, b: int| 0 <= a < b < rbt@.len() implies #[trigger] rbt@[a].0 < #[trigger] rbt@[b].0 by {
            assert(rbt@[a].0 == before[a].0);
            assert(rbt@[b].0 == before[b].0);
        }
        assert forall|kk: int| 0 <= kk < rbt@.len() implies (#[trigger] rbt@[kk]).1.len() > 0 by {
            if kk != k {
                assert(rbt@[kk] == before[kk]);
            }
        }
    }
}

/// Lists a new tick, at position `p`, with its first row.
#[verifier::rlimit(40)]
fn count_at_new_tick(
    rbt: &mut Vec<(i32, Vec<(u32, usize)>)>,
    p: usize,
    row: SegmentRow,
    Ghost(prefix): Ghost<Seq<SegmentRow>>,
)
    requires
        describes_rounds_by_tick(old(rbt)@, prefix),
        p <= old(rbt)@.len(),
        p > 0 ==> old(rbt)@[p - 1].0 < row.tick,
        forall|a: int| p <= a < old(rbt)@.len() ==> (#[trigger] old(rbt)@[a]).0 > row.tick,
    ensures
        describes_rounds_by_tick(final(rbt)@, prefix.push(row)),
{
    let ghost before = rbt@;
    let ghost next = prefix.push(row);
    proof {
        lemma_row_count_push(prefix, row);
    }
    let mut counts: Vec<(u32, usize)> = Vec::new();
    counts.push((row.round, 1));
    rbt.insert(p, (row.tick, counts));
    proof {
        assert forall|kk: int| 0 <= kk < rbt@.len() && kk != p implies #[trigger] rbt@[kk] == (if kk < p {
            before[kk]
        } else {
            before[kk - 1]
        }) by {}
        assert forall|a: int, b: int| 0 <= a < b < rbt@.len() implies #[trigger] rbt@[a].0 < #[trigger] rbt@[b].0 by {
            if b < p {
                assert(before[a].0 < before[b].0);
            } else if b == p {
                if a < p - 1 {
                    assert(before[a].0 < before[p - 1].0);
                }
            } else if a < p {
                assert(before[b - 1].0 > row.tick);
                if a < p - 1 {
                    assert(before[a].0 < before[p - 1].0);
                }
            } else if a == p {
                assert(before[b - 1].0 > row.tick);
            } else {
                assert(before[a - 1].0 < before[b - 1].0);
            }
        }
        assert forall|kk: int| 0 <= kk < rbt@.len() implies (#[trigger] rbt@[kk]).1.len() > 0 by {}
        assert(row_count(prefix, row.tick, row.round) == 0) by {
            if row_count(prefix, row.tick, row.round) > 0 {
                let (k2, j2) = choose|k2: int, j2: int|
                    #![trigger before[k2].1@[j2]]
                    0 <= k2 < before.len() && 0 <= j2 < before[k2].1.len() && before[k2].0 == row.tick
                        && before[k2].1@[j2].0 == row.round;
                if k2 < p - 1 {
                    assert(before[k2].0 < before[p - 1].0);
                }
            }
        }
        assert forall|kk: int, jj: int|
            #![trigger rbt@[kk].1@[jj]]
            0 <= kk < rbt@.len() && 0 <= jj < rbt@[kk].1.len() implies rbt@[kk].1@[jj].1 == row_count(next, rbt@[kk].0, rbt@[kk].1@[jj].0)
                && rbt@[kk].1@[jj].1 > 0 by {
            if kk != p {
                let ob = if kk < p { kk } else { kk - 1 };
                assert(rbt@[kk] == before[ob]);
                if ob < p - 1 {
                    assert(before[ob].0 < before[p - 1].0);
                }
                assert(before[ob].0 != row.tick);
            }
        }
        assert forall|kk: int, j1: int, j2: int|
            #![trigger rbt@[kk].1@[j1], rbt@[kk].1@[j2]]
            0 <= kk < rbt@.len() && 0 <= j1 < j2 < rbt@[kk].1.len() implies rbt@[kk].1@[j1].0 != rbt@[kk].1@[j2].0 by {
            if kk != p {
                let ob = if kk < p { kk } else { kk - 1 };
                assert(rbt@[kk] == before[ob]);
            }
        }
        assert forall|t: i32, r: u32| #[trigger] row_count(next, t, r) > 0 implies exists|kk: int, jj: int|
            #![trigger rbt@[kk].1@[jj]]
            0 <= kk < rbt@.len() && 0 <= jj < rbt@[kk].1.len() && rbt@[kk].0 == t && rbt@[kk].1@[jj].0 == r by {
            if t == row.tick && r == row.round {
                assert(rbt@[p as int].1@[0].0 == r);
            } else {
                assert(row_count(prefix, t, r) > 0);
                let (k2, j2) = choose|k2: int, j2: int|
                    #![trigger before[k2].1@[j2]]
                    0 <= k2 < before.len() && 0 <= j2 < before[k2].1.len() && before[k2].0 == t && before[k2].1@[j2].0 == r;
                let nk = if k2 < p { k2 } else { k2 + 1 };
                assert(rbt@[nk] == before[k2]);
            }
        }
    }
}

/// The rows of a segment counted by tick and round.
pub fn rounds_by_tick(rows: &Vec<SegmentRow>) -> (rbt: Vec<(i32, Vec<(u32, usize)>)>)
    ensures
        describes_rounds_by_tick(rbt@, rows@),
{
    let mut rbt: Vec<(i32, Vec<(u32, usize)>)> = Vec::new();
    let mut i: usize = 0;
    while i < rows.len()
        invariant
            i <= rows.len(),
            describes_rounds_by_tick(rbt@, rows@.take(i as int)),
        decreases rows.len() - i,
    {
        let row = rows[i];
        let ghost before = rbt@;
        proof {
            assert(rows@.take(i as int).push(row) =~= rows@.take(i + 1));
        }
        let mut p: usize = rbt.len();
        while p > 0 && rbt[p - 1].0 > row.tick
            invariant
                p <= rbt.len(),
                rbt@ == before,
                forall|a: int| p <= a < rbt.len() ==> (#[trigger] rbt@[a]).0 > row.tick,
            decreases p,
        {
            p = p - 1;
        }
        if p > 0 && rbt[p - 1].0 == row.tick {
            count_at_listed_tick(&mut rbt, p - 1, row, Ghost(rows@.take(i as int)));
        } else {
            count_at_new_tick(&mut rbt, p, row, Ghost(rows@.take(i as int)));
        }
        i = i + 1;
    }
    proof {
        assert(rows@.take(rows.len() as int) =~= rows@);
    }
    rbt
}


/// `round` has the most rows at `tick`, and is the smallest such round.
pub open spec fn is_modal_round(rows: Seq<SegmentRow>, tick: i32, round: u32) -> bool {
    &&& row_count(rows, tick, round) > 0
    &&& forall|q: u32| #[trigger] row_count(rows, tick, q) < row_count(rows, tick, round) || (row_count(rows, tick, q)
        == row_count(rows, tick, round) && q >= round)
}

/// The round most rows at `tick` belong to, the smallest on a tie; `None`
/// when no row is at `tick`.
pub open spec fn modal_round(rows: Seq<SegmentRow>, tick: i32) -> Option<u32> {
    if exists|r: u32| is_modal_round(rows, tick, r) {
        Some(choose|r: u32| is_modal_round(rows, tick, r))
    } else {
        None
    }
}

/// `p` is the last tick before `t` that has a row.
pub open spec fn is_last_tick_before(rows: Seq<SegmentRow>, t: i32, p: i32) -> bool {
    &&& p < t
    &&& exists|i: int| 0 <= i < rows.len() && (#[trigger] rows[i]).tick == p
    &&& forall|i: int| 0 <= i < rows.len() && (#[trigger] rows[i]).tick < t ==> rows[i].tick <= p
}

/// The modal round at the last tick before `t` that has rows.
pub open spec fn predecessor_round_before(rows: Seq<SegmentRow>, t: i32) -> Option<u32> {
    if exists|p: i32| is_last_tick_before(rows, t, p) {
        modal_round(rows, choose|p: i32| is_last_tick_before(rows, t, p))
    } else {
        None
    }
}

proof fn lemma_row_count_witness(rows: Seq<SegmentRow>, tick: i32, round: u32)
    ensures
        row_count(rows, tick, round) > 0 <==> exists|i: int|
            0 <= i < rows.len() && (#[trigger] rows[i]).tick == tick && rows[i].round == round,
    decreases rows.len(),
{
    if rows.len() > 0 {
        let init = rows.drop_last();
        lemma_row_count_witness(init, tick, round);
        if exists|i: int| 0 <= i < rows.len() && (#[trigger] rows[i]).tick == tick && rows[i].round == round {
            let i = choose|i: int| 0 <= i < rows.len() && (#[trigger] rows[i]).tick == tick && rows[i].round == round;
            if i < init.len() {
                assert(init[i] == rows[i]);
            }
        }
        if exists|i: int| 0 <= i < init.len() && (#[trigger] init[i]).tick == tick && init[i].round == round {
            let i = choose|i: int| 0 <= i < init.len() && (#[trigger] init[i]).tick == tick && init[i].round == round;
            assert(rows[i] == init[i]);
        }
    }
}

proof fn lemma_modal_round_unique(rows: Seq<SegmentRow>, tick: i32, a: u32, b: u32)
    requires
        is_modal_round(rows, tick, a),
        is_modal_round(rows, tick, b),
    ensures
        a == b,
{
    assert(row_count(rows, tick, b) < row_count(rows, tick, a) || (row_count(rows, tick, b) == row_count(rows, tick, a) && b >= a));
    assert(row_count(rows, tick, a) < row_count(rows, tick, b) || (row_count(rows, tick, a) == row_count(rows, tick, b) && a >= b));
}

proof fn lemma_mode_is_modal_round(rbt: Seq<(i32, Vec<(u32, usize)>)>, rows: Seq<SegmentRow>, k: int, round: u32)
    requires
        describes_rounds_by_tick(rbt, rows),
        0 <= k < rbt.len(),
        is_mode(rbt[k].1@, round),
    ensures
        modal_round(rows, rbt[k].0) == Some(round),
{
    let tick = rbt[k].0;
    let entries = rbt[k].1@;
    let i = choose|i: int|
        0 <= i < entries.len() && (#[trigger] entries[i]).0 == round && forall|j: int|
            0 <= j < entries.len() ==> (#[trigger] entries[j]).1 < entries[i].1 || (entries[j].1 == entries[i].1
                && entries[j].0 >= round);
    assert(rbt[k].1@[i].1 == row_count(rows, tick, rbt[k].1@[i].0));
    assert forall|q: u32| #[trigger] row_count(rows, tick, q) < row_count(rows, tick, round) || (row_count(rows, tick, q)
        == row_count(rows, tick, round) && q >= round) by {
        if row_count(rows, tick, q) > 0 {
            let (k2, j) = choose|k2: int, j: int|
                #![trigger rbt[k2].1@[j]]
                0 <= k2 < rbt.len() && 0 <= j < rbt[k2].1.len() && rbt[k2].0 == tick && rbt[k2].1@[j].0 == q;
            if k2 < k {
                assert(rbt[k2].0 < rbt[k].0);
            } else if k2 > k {
                assert(rbt[k].0 < rbt[k2].0);
            }
            assert(entries[j] == rbt[k].1@[j]);
        }
    }
    assert(is_modal_round(rows, tick, round));
    let c = choose|r: u32| is_modal_round(rows, tick, r);
    lemma_modal_round_unique(rows, tick, c, round);
}

proof fn lemma_unlisted_tick_has_no_modal_round(rbt: Seq<(i32, Vec<(u32, usize)>)>, rows: Seq<SegmentRow>, tick: i32)
    requires
        describes_rounds_by_tick(rbt, rows),
        forall|k: int| 0 <= k < rbt.len() ==> (#[trigger] rbt[k]).0 != tick,
    ensures
        modal_round(rows, tick) is None,
        forall|i: int| 0 <= i < rows.len() ==> (#[trigger] rows[i]).tick != tick,
{
    assert forall|r: u32| !is_modal_round(rows, tick, r) by {
        if row_count(rows, tick, r) > 0 {
            let (k, j) = choose|k: int, j: int|
                #![trigger rbt[k].1@[j]]
                0 <= k < rbt.len() && 0 <= j < rbt[k].1.len() && rbt[k].0 == tick && rbt[k].1@[j].0 == r;
            assert(rbt[k].0 != tick);
        }
    }
    assert forall|i: int| 0 <= i < rows.len() implies (#[trigger] rows[i]).tick != tick by {
        lemma_row_count_witness(rows, tick, rows[i].round);
        if rows[i].tick == tick {
            assert(row_count(rows, tick, rows[i].round) > 0);
            let (k, j) = choose|k: int, j: int|
                #![trigger rbt[k].1@[j]]
                0 <= k < rbt.len() && 0 <= j < rbt[k].1.len() && rbt[k].0 == tick && rbt[k].1@[j].0 == rows[i].round;
            assert(rbt[k].0 != tick);
        }
    }
}

/// The modal round of the rows at `tick`.
pub fn modal_round_of_rows(rbt: &Vec<(i32, Vec<(u32, usize)>)>, Ghost(rows): Ghost<Seq<SegmentRow>>, tick: i32) -> (r: Option<u32>)
    requires
        describes_rounds_by_tick(rbt@, rows),
    ensures
        r == modal_round(rows, tick),
{
    let r = modal_round_at_tick(rbt, tick);
    proof {
        match r {
            Some(round) => {
                let k = choose|k: int|
                    0 <= k < rbt.len() && (#[trigger] rbt@[k]).0 == tick && is_mode(rbt@[k].1@, round) && forall|q: int|
                        0 <= q < k ==> (#[trigger] rbt@[q]).0 != tick;
                lemma_mode_is_modal_round(rbt@, rows, k, round);
            },
            None => {
                assert forall|k: int| 0 <= k < rbt.len() implies (#[trigger] rbt@[k]).0 != tick by {
                    if rbt@[k].0 == tick {
                        assert forall|q: int| 0 <= q < k implies (#[trigger] rbt@[q]).0 != tick by {
                            assert(rbt@[q].0 < rbt@[k].0);
                        }
                        assert(rbt@[k].1.len() > 0);
                    }
                }
                lemma_unlisted_tick_has_no_modal_round(rbt@, rows, tick);
            },
        }
    }
    r
}

proof fn lemma_last_listed_below(rbt: Seq<(i32, Vec<(u32, usize)>)>, t: i32, k0: int)
    requires
        forall|a: int, b: int| 0 <= a < b < rbt.len() ==> #[trigger] rbt[a].0 < #[trigger] rbt[b].0,
        0 <= k0 < rbt.len(),
        rbt[k0].0 < t,
    ensures
        exists|k: int| k0 <= k < rbt.len() && (#[trigger] rbt[k]).0 < t && (k + 1 == rbt.len() || rbt[k + 1].0 >= t),
    decreases rbt.len() - k0,
{
    if k0 + 1 < rbt.len() && rbt[k0 + 1].0 < t {
        lemma_last_listed_below(rbt, t, k0 + 1);
    } else {
        assert(k0 <= k0 < rbt.len() && rbt[k0].0 < t && (k0 + 1 == rbt.len() || rbt[k0 + 1].0 >= t));
    }
}

proof fn lemma_predecessor_listed(rbt: Seq<(i32, Vec<(u32, usize)>)>, rows: Seq<SegmentRow>, tick: i32, k: int, round: u32)
    requires
        describes_rounds_by_tick(rbt, rows),
        0 <= k < rbt.len(),
        rbt[k].0 < tick,
        is_mode(rbt[k].1@, round),
        k + 1 == rbt.len() || rbt[k + 1].0 >= tick,
    ensures
        predecessor_round_before(rows, tick) == Some(round),
{
    let p = rbt[k].0;
    lemma_mode_is_modal_round(rbt, rows, k, round);
    let round0 = rbt[k].1@[0].0;
    lemma_row_count_witness(rows, p, round0);
    assert(row_count(rows, p, round0) > 0);
    assert forall|i: int| 0 <= i < rows.len() && (#[trigger] rows[i]).tick < tick implies rows[i].tick <= p by {
        lemma_row_count_witness(rows, rows[i].tick, rows[i].round);
        let (k2, j) = choose|k2: int, j: int|
            #![trigger rbt[k2].1@[j]]
            0 <= k2 < rbt.len() && 0 <= j < rbt[k2].1.len() && rbt[k2].0 == rows[i].tick && rbt[k2].1@[j].0
                == rows[i].round;
        if k2 > k {
            if k2 > k + 1 {
                assert(rbt[k + 1].0 < rbt[k2].0);
            }
        } else if k2 < k {
            assert(rbt[k2].0 < rbt[k].0);
        }
    }
    assert(is_last_tick_before(rows, tick, p));
    let c = choose|q: i32| is_last_tick_before(rows, tick, q);
    assert(c == p) by {
        let ic = choose|i: int| 0 <= i < rows.len() && (#[trigger] rows[i]).tick == c;
        let ip = choose|i: int| 0 <= i < rows.len() && (#[trigger] rows[i]).tick == p;
        assert(rows[ic].tick <= p);
        assert(rows[ip].tick <= c);
    }
}

proof fn lemma_no_predecessor(rbt: Seq<(i32, Vec<(u32, usize)>)>, rows: Seq<SegmentRow>, tick: i32)
    requires
        describes_rounds_by_tick(rbt, rows),
        forall|k: int|
            0 <= k < rbt.len() && (#[trigger] rbt[k]).0 < tick ==> (k + 1 < rbt.len() && rbt[k + 1].0 < tick)
                || rbt[k].1.len() == 0,
    ensures
        predecessor_round_before(rows, tick) is None,
{
    assert forall|q: i32| !is_last_tick_before(rows, tick, q) by {
        if is_last_tick_before(rows, tick, q) {
            let i = choose|i: int| 0 <= i < rows.len() && (#[trigger] rows[i]).tick == q;
            lemma_row_count_witness(rows, q, rows[i].round);
            let (k2, j) = choose|k2: int, j: int|
                #![trigger rbt[k2].1@[j]]
                0 <= k2 < rbt.len() && 0 <= j < rbt[k2].1.len() && rbt[k2].0 == q && rbt[k2].1@[j].0 == rows[i].round;
            lemma_last_listed_below(rbt, tick, k2);
            let k = choose|k: int| k2 <= k < rbt.len() && (#[trigger] rbt[k]).0 < tick && (k + 1 == rbt.len() || rbt[k
                + 1].0 >= tick);
            assert(rbt[k].1.len() > 0);
        }
    }
}

/// The modal round at the last tick before `tick` that has rows.
pub fn predecessor_round_of_rows(rbt: &Vec<(i32, Vec<(u32, usize)>)>, Ghost(rows): Ghost<Seq<SegmentRow>>, tick: i32) -> (r: Option<u32>)
    requires
        describes_rounds_by_tick(rbt@, rows),
    ensures
        r == predecessor_round_before(rows, tick),
{
    let r = predecessor_round(rbt, tick);
    proof {
        match r {
            Some(round) => {
                let k = choose|k: int|
                    0 <= k < rbt.len() && (#[trigger] rbt@[k]).0 < tick && is_mode(rbt@[k].1@, round) && (k + 1
                        == rbt.len() || rbt@[k + 1].0 >= tick);
                lemma_predecessor_listed(rbt@, rows, tick, k, round);
            },
            None => {
                lemma_no_predecessor(rbt@, rows, tick);
            },
        }
    }
    r
}


// ---------------------------------------------------------------------------
// Modal keys of a count
// ---------------------------------------------------------------------------

/// `k` has the largest positive count, and is the smallest such key.
pub open spec fn is_modal_key(count: spec_fn(u32) -> nat, k: u32) -> bool {
    &&& count(k) > 0
    &&& forall|q: u32| #[trigger] count(q) < count(k) || (count(q) == count(k) && q >= k)
}

/// The key with the largest count, the smallest on a tie; `None` when every
/// count is zero.
pub open spec fn modal_key(count: spec_fn(u32) -> nat) -> Option<u32> {
    if exists|k: u32| is_modal_key(count, k) {
        Some(choose|k: u32| is_modal_key(count, k))
    } else {
        None
    }
}

/// `entries` lists every key with a positive count once, with its count.
pub open spec fn describes_counts(entries: Seq<(u32, usize)>, count: spec_fn(u32) -> nat) -> bool {
    &&& forall|j: int| 0 <= j < entries.len() ==> (#[trigger] entries[j]).1 == count(entries[j].0) && entries[j].1 > 0
    &&& forall|j1: int, j2: int| 0 <= j1 < j2 < entries.len() ==> (#[trigger] entries[j1]).0 != (#[trigger] entries[j2]).0
    &&& forall|q: u32| #[trigger] count(q) > 0 ==> exists|j: int| 0 <= j < entries.len() && (#[trigger] entries[j]).0 == q
}

pub(crate) proof fn lemma_modal_key_of_entries(entries: Seq<(u32, usize)>, count: spec_fn(u32) -> nat, r: Option<u32>)
    requires
        describes_counts(entries, count),
        match r {
            Some(s) => is_mode(entries, s),
            None => entries.len() == 0,
        },
    ensures
        modal_key(count) == r,
{
    match r {
        Some(s) => {
            let i = choose|i: int|
                0 <= i < entries.len() && (#[trigger] entries[i]).0 == s && forall|j: int|
                    0 <= j < entries.len() ==> (#[trigger] entries[j]).1 < entries[i].1 || (entries[j].1 == entries[i].1
                        && entries[j].0 >= s);
            assert forall|q: u32| #[trigger] count(q) < count(s) || (count(q) == count(s) && q >= s) by {
                if count(q) > 0 {
                    let j = choose|j: int| 0 <= j < entries.len() && (#[trigger] entries[j]).0 == q;
                    assert(entries[j].1 < entries[i].1 || (entries[j].1 == entries[i].1 && entries[j].0 >= s));
                }
            }
            assert(is_modal_key(count, s));
            let c = choose|k: u32| is_modal_key(count, k);
            assert(count(s) < count(c) || (count(s) == count(c) && s >= c));
            assert(count(c) < count(s) || (count(c) == count(s) && c >= s));
        },
        None => {
            assert forall|k: u32| !is_modal_key(count, k) by {
                if count(k) > 0 {
                    let j = choose|j: int| 0 <= j < entries.len() && (#[trigger] entries[j]).0 == k;
                }
            }
        },
    }
}

/// Adds one to the count of `key` in a list of distinct keys.
pub(crate) fn bump_count(entries: &mut Vec<(u32, usize)>, key: u32, Ghost(count): Ghost<spec_fn(u32) -> nat>, Ghost(next): Ghost<spec_fn(u32) -> nat>)
    requires
        describes_counts(old(entries)@, count),
        forall|q: u32| #[trigger] next(q) == count(q) + if q == key { 1nat } else { 0nat },
        count(key) < usize::MAX,
    ensures
        describes_counts(final(entries)@, next),
{
    let ghost before = entries@;
    let mut j: usize = 0;
    while j < entries.len() && entries[j].0 != key
        invariant
            j <= entries.len(),
            entries@ == before,
            forall|q: int| 0 <= q < j ==> (#[trigger] entries@[q]).0 != key,
        decreases entries.len() - j,
    {
        j = j + 1;
    }
    if j < entries.len() {
        let c = entries[j].1;
        entries.set(j, (key, c + 1));
        proof {
            assert forall|q: int| 0 <= q < entries@.len() implies (#[trigger] entries@[q]).1 == next(entries@[q].0) && entries@[q].1 > 0 by {
                if q != j {
                    assert(entries@[q] == before[q]);
                    if q < j {
                    } else {
                        assert(before[q].0 != before[j as int].0);
                    }
                }
            }
            assert forall|q: u32| #[trigger] next(q) > 0 implies exists|i: int| 0 <= i < entries@.len() && (#[trigger] entries@[i]).0 == q by {
                if q == key {
                    assert(entries@[j as int].0 == q);
                } else {
                    let i = choose|i: int| 0 <= i < before.len() && (#[trigger] before[i]).0 == q;
                    assert(entries@[i].0 == before[i].0);
                }
            }
            assert forall|j1: int, j2: int| 0 <= j1 < j2 < entries@.len() implies (#[trigger] entries@[j1]).0 != (#[trigger] entries@[j2]).0 by {
                assert(entries@[j1].0 == before[j1].0);
                assert(entries@[j2].0 == before[j2].0);
            }
        }
    } else {
        entries.push((key, 1));
        proof {
            assert(count(key) == 0) by {
                if count(key) > 0 {
                    let i = choose|i: int| 0 <= i < before.len() && (#[trigger] before[i]).0 == key;
                }
            }
            assert forall|q: int| 0 <= q < entries@.len() implies (#[trigger] entries@[q]).1 == next(entries@[q].0) && entries@[q].1 > 0 by {
                if q < before.len() {
                    assert(entries@[q] == before[q]);
                }
            }
            assert forall|q: u32| #[trigger] next(q) > 0 implies exists|i: int| 0 <= i < entries@.len() && (#[trigger] entries@[i]).0 == q by {
                if q == key {
                    assert(entries@[before.len() as int].0 == q);
                } else {
                    let i = choose|i: int| 0 <= i < before.len() && (#[trigger] before[i]).0 == q;
                    assert(entries@[i] == before[i]);
                }
            }
            assert forall|j1: int, j2: int| 0 <= j1 < j2 < entries@.len() implies (#[trigger] entries@[j1]).0 != (#[trigger] entries@[j2]).0 by {
                assert(entries@[j1] == before[j1]);
                if j2 < before.len() {
                    assert(entries@[j2] == before[j2]);
                }
            }
        }
    }
}

// ---------------------------------------------------------------------------
// The score total at a round's live start
// ---------------------------------------------------------------------------

/// A live row of `round` between `from` and `to` on a playing side that
/// reports its team's round total.
pub open spec fn is_score_row(row: SegmentRow, round: u32, from: i32, to: i32) -> bool {
    &&& row.round == round
    &&& from <= row.tick <= to
    &&& row.round_in_progress
    &&& !row.is_freeze_period
    &&& (row.team_num == 2 || row.team_num == 3)
    &&& row.team_rounds_total is Some
}

/// The score rows of one side, as rows whose "round" is the reported total.
pub open spec fn side_score_rows(rows: Seq<SegmentRow>, round: u32, from: i32, to: i32, team: u8) -> Seq<SegmentRow>
    decreases rows.len(),
{
    if rows.len() == 0 {
        Seq::empty()
    } else {
        let row = rows.last();
        side_score_rows(rows.drop_last(), round, from, to, team) + if is_score_row(row, round, from, to) && row.team_num == team {
            seq![SegmentRow { round: row.team_rounds_total->0, ..row }]
        } else {
            Seq::empty()
        }
    }
}

/// The match score total at a tick: the sides' modal totals added, when both
/// sides report one and the sum fits.
pub open spec fn tick_score_total(t_rows: Seq<SegmentRow>, ct_rows: Seq<SegmentRow>, tick: i32) -> Option<u32> {
    match (modal_round(t_rows, tick), modal_round(ct_rows, tick)) {
        (Some(a), Some(b)) => if a + b <= u32::MAX {
            Some((a + b) as u32)
        } else {
            None
        },
        _ => None,
    }
}

/// How many of `ticks` show the match score total `s`.
pub open spec fn total_count(t_rows: Seq<SegmentRow>, ct_rows: Seq<SegmentRow>, ticks: Seq<i32>, s: u32) -> nat
    decreases ticks.len(),
{
    if ticks.len() == 0 {
        0
    } else {
        total_count(t_rows, ct_rows, ticks.drop_last(), s) + if tick_score_total(t_rows, ct_rows, ticks.last()) == Some(s) {
            1nat
        } else {
            0nat
        }
    }
}

pub open spec fn totals_of(t_rows: Seq<SegmentRow>, ct_rows: Seq<SegmentRow>, ticks: Seq<i32>) -> spec_fn(u32) -> nat {
    |s: u32| total_count(t_rows, ct_rows, ticks, s)
}

/// `ticks` lists, ascending, exactly the ticks that have rows.
pub open spec fn lists_row_ticks(ticks: Seq<i32>, rows: Seq<SegmentRow>) -> bool {
    &&& forall|a: int, b: int| 0 <= a < b < ticks.len() ==> #[trigger] ticks[a] < #[trigger] ticks[b]
    &&& forall|x: i32| ticks.contains(x) <==> exists|i: int| 0 <= i < rows.len() && (#[trigger] rows[i]).tick == x
}

/// The score total a round starts from: the total most ticks with T-side
/// rows show, the smallest on a tie.
pub open spec fn round_start_score_total(rows: Seq<SegmentRow>, round: u32, live_start: i32, round_end: i32) -> Option<u32> {
    let t_rows = side_score_rows(rows, round, live_start, round_end, 2);
    let ct_rows = side_score_rows(rows, round, live_start, round_end, 3);
    modal_key(totals_of(t_rows, ct_rows, choose|ticks: Seq<i32>| lists_row_ticks(ticks, t_rows)))
}


/// At most one ascending sequence lists a given set of ticks.
pub proof fn lemma_ascending_listing_unique(a: Seq<i32>, b: Seq<i32>)
    requires
        forall|i: int, j: int| 0 <= i < j < a.len() ==> #[trigger] a[i] < #[trigger] a[j],
        forall|i: int, j: int| 0 <= i < j < b.len() ==> #[trigger] b[i] < #[trigger] b[j],
        forall|x: i32| a.contains(x) <==> b.contains(x),
    ensures
        a == b,
    decreases a.len(),
{
    if a.len() == 0 {
        if b.len() > 0 {
            assert(b.contains(b[0]));
        }
        assert(a =~= b);
    } else {
        assert(a.contains(a[0]));
        if b.len() == 0 {
            assert(false);
        }
        assert(b.contains(b[0]));
        let j = choose|j: int| 0 <= j < b.len() && b[j] == a[0];
        let i = choose|i: int| 0 <= i < a.len() && a[i] == b[0];
        if i > 0 {
            assert(a[0] < a[i]);
        }
        if j > 0 {
            assert(b[0] < b[j]);
        }
        assert(a[0] == b[0]);
        let a1 = a.drop_first();
        let b1 = b.drop_first();
        assert forall|x: i32| a1.contains(x) <==> b1.contains(x) by {
            if a1.contains(x) {
                let p = choose|p: int| 0 <= p < a1.len() && a1[p] == x;
                assert(a[p + 1] == x);
                assert(a.contains(x));
                let q = choose|q: int| 0 <= q < b.len() && b[q] == x;
                assert(a[0] < a[p + 1]);
                assert(q != 0);
                assert(b1[q - 1] == x);
            }
            if b1.contains(x) {
                let p = choose|p: int| 0 <= p < b1.len() && b1[p] == x;
                assert(b[p + 1] == x);
                assert(b.contains(x));
                let q = choose|q: int| 0 <= q < a.len() && a[q] == x;
                assert(b[0] < b[p + 1]);
                assert(q != 0);
                assert(a1[q - 1] == x);
            }
        }
        lemma_ascending_listing_unique(a1, b1);
        assert(a =~= seq![a[0]] + a1);
        assert(b =~= seq![b[0]] + b1);
    }
}

pub open spec fn listed_ticks(rbt: Seq<(i32, Vec<(u32, usize)>)>) -> Seq<i32> {
    Seq::new(rbt.len(), |k: int| rbt[k].0)
}

proof fn lemma_listed_ticks(rbt: Seq<(i32, Vec<(u32, usize)>)>, rows: Seq<SegmentRow>)
    requires
        describes_rounds_by_tick(rbt, rows),
    ensures
        lists_row_ticks(listed_ticks(rbt), rows),
{
    let ticks = listed_ticks(rbt);
    assert forall|x: i32| ticks.contains(x) <==> exists|i: int| 0 <= i < rows.len() && (#[trigger] rows[i]).tick == x by {
        if ticks.contains(x) {
            let k = choose|k: int| 0 <= k < ticks.len() && ticks[k] == x;
            let r0 = rbt[k].1@[0].0;
            assert(rbt[k].1@[0].1 == row_count(rows, rbt[k].0, r0));
            lemma_row_count_witness(rows, x, r0);
        }
        if exists|i: int| 0 <= i < rows.len() && (#[trigger] rows[i]).tick == x {
            let i = choose|i: int| 0 <= i < rows.len() && (#[trigger] rows[i]).tick == x;
            lemma_row_count_witness(rows, x, rows[i].round);
            let (k, j) = choose|k: int, j: int|
                #![trigger rbt[k].1@[j]]
                0 <= k < rbt.len() && 0 <= j < rbt[k].1.len() && rbt[k].0 == x && rbt[k].1@[j].0 == rows[i].round;
            assert(ticks[k] == x);
        }
    }
}

proof fn lemma_total_count_bound(t_rows: Seq<SegmentRow>, ct_rows: Seq<SegmentRow>, ticks: Seq<i32>, s: u32)
    ensures
        total_count(t_rows, ct_rows, ticks, s) <= ticks.len(),
    decreases ticks.len(),
{
    if ticks.len() > 0 {
        lemma_total_count_bound(t_rows, ct_rows, ticks.drop_last(), s);
    }
}

fn side_rows(rows: &Vec<SegmentRow>, round: u32, from: i32, to: i32, team: u8) -> (r: Vec<SegmentRow>)
    ensures
        r@ == side_score_rows(rows@, round, from, to, team),
{
    let mut out: Vec<SegmentRow> = Vec::new();
    let mut i: usize = 0;
    while i < rows.len()
        invariant
            i <= rows.len(),
            out@ == side_score_rows(rows@.take(i as int), round, from, to, team),
        decreases rows.len() - i,
    {
        let row = rows[i];
        proof {
            assert(rows@.take(i + 1).drop_last() =~= rows@.take(i as int));
        }
        if row.round == round && from <= row.tick && row.tick <= to && row.round_in_progress && !row.is_freeze_period
            && row.team_num == team && (team == 2 || team == 3) {
            match row.team_rounds_total {
                Some(score) => {
                    out.push(SegmentRow { round: score, ..row });
                },
                None => {},
            }
        }
        proof {
            assert(out@ =~= side_score_rows(rows@.take(i + 1), round, from, to, team));
        }
        i = i + 1;
    }
    proof {
        assert(rows@.take(rows.len() as int) =~= rows@);
    }
    out
}

/// The score total a round starts from, from its live rows between the live
/// start and the round end.
pub fn score_total_at_round_start(rows: &Vec<SegmentRow>, round: u32, live_start_tick: i32, round_end_tick: i32) -> (r:
    Option<u32>)
    ensures
        r == round_start_score_total(rows@, round, live_start_tick, round_end_tick),
{
    let t_rows = side_rows(rows, round, live_start_tick, round_end_tick, 2);
    let ct_rows = side_rows(rows, round, live_start_tick, round_end_tick, 3);
    let rbt_t = rounds_by_tick(&t_rows);
    let rbt_ct = rounds_by_tick(&ct_rows);
    let ghost ticks = listed_ticks(rbt_t@);
    let mut totals: Vec<(u32, usize)> = Vec::new();
    let mut k: usize = 0;
    proof {
        assert(ticks.take(0) =~= Seq::<i32>::empty());
    }
    while k < rbt_t.len()
        invariant
            k <= rbt_t.len(),
            ticks == listed_ticks(rbt_t@),
            describes_rounds_by_tick(rbt_t@, t_rows@),
            describes_rounds_by_tick(rbt_ct@, ct_rows@),
            describes_counts(totals@, totals_of(t_rows@, ct_rows@, ticks.take(k as int))),
        decreases rbt_t.len() - k,
    {
        let tick = rbt_t[k].0;
        let a = mode_score(&rbt_t[k].1);
        let b = modal_round_of_rows(&rbt_ct, Ghost(ct_rows@), tick);
        let ghost count = totals_of(t_rows@, ct_rows@, ticks.take(k as int));
        let ghost next = totals_of(t_rows@, ct_rows@, ticks.take(k + 1));
        proof {
            assert(ticks.take(k + 1).drop_last() =~= ticks.take(k as int));
            assert(ticks.take(k + 1).last() == tick);
            match a {
                Some(m) => lemma_mode_is_modal_round(rbt_t@, t_rows@, k as int, m),
                None => assert(rbt_t@[k as int].1.len() > 0),
            }
        }
        let mut bumped = false;
        match (a, b) {
            (Some(x), Some(y)) => {
                if x <= u32::MAX - y {
                    proof {
                        assert(tick_score_total(t_rows@, ct_rows@, tick) == Some((x + y) as u32));
                        assert forall|q: u32| #[trigger] next(q) == count(q) + if q == x + y { 1nat } else { 0nat } by {}
                        lemma_total_count_bound(t_rows@, ct_rows@, ticks.take(k as int), (x + y) as u32);
                    }
                    bump_count(&mut totals, x + y, Ghost(count), Ghost(next));
                    bumped = true;
                }
            },
            _ => {},
        }
        proof {
            if !bumped {
                assert(tick_score_total(t_rows@, ct_rows@, tick) is None);
                assert forall|q: u32| #[trigger] next(q) == count(q) by {}
            }
        }
        k = k + 1;
    }
    let r = mode_score(&totals);
    proof {
        assert(ticks.take(rbt_t.len() as int) =~= ticks);
        lemma_listed_ticks(rbt_t@, t_rows@);
        let chosen = choose|l: Seq<i32>| lists_row_ticks(l, t_rows@);
        lemma_ascending_listing_unique(chosen, ticks);
        lemma_modal_key_of_entries(totals@, totals_of(t_rows@, ct_rows@, ticks), r);
    }
    r
}


// ---------------------------------------------------------------------------
// Match start, match end and round ends
// ---------------------------------------------------------------------------

/// The latest tick of an event named `name`.
pub open spec fn named_max_tick(events: Seq<ParsedGameEvent>, name: Seq<char>) -> Option<i32>
    decreases events.len(),
{
    if events.len() == 0 {
        None
    } else {
        let prev = named_max_tick(events.drop_last(), name);
        let e = events.last();
        if e.name@ == name {
            match prev {
                Some(p) => Some(if p >= e.tick { p } else { e.tick }),
                None => Some(e.tick),
            }
        } else {
            prev
        }
    }
}

/// The earliest tick of an event named `name`.
pub open spec fn named_min_tick(events: Seq<ParsedGameEvent>, name: Seq<char>) -> Option<i32>
    decreases events.len(),
{
    if events.len() == 0 {
        None
    } else {
        let prev = named_min_tick(events.drop_last(), name);
        let e = events.last();
        if e.name@ == name {
            match prev {
                Some(p) => Some(if p <= e.tick { p } else { e.tick }),
                None => Some(e.tick),
            }
        } else {
            prev
        }
    }
}

/// The match starts at the last `round_announce_match_start`.
pub open spec fn match_start_tick(events: Seq<ParsedGameEvent>) -> Option<i32> {
    named_max_tick(events, "round_announce_match_start"@)
}

/// The match ends at the first `cs_win_panel_match`.
pub open spec fn match_end_tick(events: Seq<ParsedGameEvent>) -> Option<i32> {
    named_min_tick(events, "cs_win_panel_match"@)
}

/// A `round_end` with a playing side as winner, inside the match.
pub open spec fn counts_as_round_end(e: ParsedGameEvent, start: Option<i32>, end: Option<i32>) -> bool {
    &&& e.name@ == "round_end"@
    &&& (e.winner_side == Some(2u8) || e.winner_side == Some(3u8))
    &&& (start matches Some(s) ==> e.tick >= s)
    &&& (end matches Some(x) ==> e.tick <= x)
}

/// `ticks` lists, ascending, exactly the ticks of counted round ends.
pub open spec fn lists_round_end_ticks(ticks: Seq<i32>, events: Seq<ParsedGameEvent>, start: Option<i32>, end: Option<i32>) -> bool {
    &&& forall|a: int, b: int| 0 <= a < b < ticks.len() ==> #[trigger] ticks[a] < #[trigger] ticks[b]
    &&& forall|x: i32| ticks.contains(x) <==> exists|i: int|
        0 <= i < events.len() && counts_as_round_end(#[trigger] events[i], start, end) && events[i].tick == x
}

/// Two counted round ends at `tick` name different winners.
pub open spec fn winners_conflict_at(events: Seq<ParsedGameEvent>, start: Option<i32>, end: Option<i32>, tick: i32) -> bool {
    exists|i: int, j: int|
        0 <= i < events.len() && 0 <= j < events.len() && counts_as_round_end(#[trigger] events[i], start, end)
            && counts_as_round_end(#[trigger] events[j], start, end) && events[i].tick == tick && events[j].tick == tick
            && events[i].winner_side != events[j].winner_side
}

/// The winner a counted round end at `tick` names.
pub open spec fn winner_at(events: Seq<ParsedGameEvent>, start: Option<i32>, end: Option<i32>, tick: i32) -> u8 {
    events[choose|i: int| 0 <= i < events.len() && counts_as_round_end(#[trigger] events[i], start, end) && events[i].tick == tick].winner_side->0
}

fn name_is(e: &ParsedGameEvent, lit: &str) -> (r: bool)
    ensures
        r == (e.name@ == lit@),
{
    let name = crate::text::chars_of(e.name.as_str());
    crate::model::eq_lit(&name, lit)
}

/// The latest tick of an event named `name`.
pub fn last_event_tick(events: &Vec<ParsedGameEvent>, name: &str) -> (r: Option<i32>)
    ensures
        r == named_max_tick(events@, name@),
{
    let mut best: Option<i32> = None;
    let mut i: usize = 0;
    while i < events.len()
        invariant
            i <= events.len(),
            best == named_max_tick(events@.take(i as int), name@),
        decreases events.len() - i,
    {
        proof {
            assert(events@.take(i + 1).drop_last() =~= events@.take(i as int));
        }
        if name_is(&events[i], name) {
            let t = events[i].tick;
            best = match best {
                Some(p) => Some(if p >= t { p } else { t }),
                None => Some(t),
            };
        }
        i = i + 1;
    }
    proof {
        assert(events@.take(events.len() as int) =~= events@);
    }
    best
}

/// The earliest tick of an event named `name`.
pub fn first_event_tick(events: &Vec<ParsedGameEvent>, name: &str) -> (r: Option<i32>)
    ensures
        r == named_min_tick(events@, name@),
{
    let mut best: Option<i32> = None;
    let mut i: usize = 0;
    while i < events.len()
        invariant
            i <= events.len(),
            best == named_min_tick(events@.take(i as int), name@),
        decreases events.len() - i,
    {
        proof {
            assert(events@.take(i + 1).drop_last() =~= events@.take(i as int));
        }
        if name_is(&events[i], name) {
            let t = events[i].tick;
            best = match best {
                Some(p) => Some(if p <= t { p } else { t }),
                None => Some(t),
            };
        }
        i = i + 1;
    }
    proof {
        assert(events@.take(events.len() as int) =~= events@);
    }
    best
}

fn counts_round_end(e: &ParsedGameEvent, start: Option<i32>, end: Option<i32>) -> (r: bool)
    ensures
        r == counts_as_round_end(*e, start, end),
{
    let winner_ok = match e.winner_side {
        Some(w) => w == 2 || w == 3,
        None => false,
    };
    let start_ok = match start {
        Some(s) => e.tick >= s,
        None => true,
    };
    let end_ok = match end {
        Some(x) => e.tick <= x,
        None => true,
    };
    name_is(e, "round_end") && winner_ok && start_ok && end_ok
}

/// The ticks of the counted round ends, ascending.
fn round_end_ticks(events: &Vec<ParsedGameEvent>, start: Option<i32>, end: Option<i32>) -> (r: Vec<i32>)
    ensures
        lists_round_end_ticks(r@, events@, start, end),
{
    let mut ticks: Vec<i32> = Vec::new();
    let mut i: usize = 0;
    while i < events.len()
        invariant
            i <= events.len(),
            crate::weapon_evidence::strictly_increasing(ticks@),
            forall|x: i32| ticks@.contains(x) <==> exists|k: int|
                0 <= k < i && counts_as_round_end(#[trigger] events@[k], start, end) && events@[k].tick == x,
        decreases events.len() - i,
    {
        if counts_round_end(&events[i], start, end) {
            crate::weapon_evidence::insert_sorted_distinct(&mut ticks, events[i].tick);
        }
        proof {
            assert forall|x: i32| ticks@.contains(x) <==> exists|k: int|
                0 <= k < i + 1 && counts_as_round_end(#[trigger] events@[k], start, end) && events@[k].tick == x by {
                if exists|k: int| 0 <= k < i + 1 && counts_as_round_end(#[trigger] events@[k], start, end) && events@[k].tick == x {
                    let k = choose|k: int| 0 <= k < i + 1 && counts_as_round_end(#[trigger] events@[k], start, end) && events@[k].tick == x;
                    if k < i {
                        assert(exists|k: int| 0 <= k < i && counts_as_round_end(#[trigger] events@[k], start, end) && events@[k].tick == x);
                    }
                }
            }
        }
        i = i + 1;
    }
    ticks
}

/// The winner of the round ending at `tick`, or `None` when the counted
/// round ends there disagree. Some counted round end is at `tick`.
fn winner_at_tick(events: &Vec<ParsedGameEvent>, start: Option<i32>, end: Option<i32>, tick: i32) -> (r: Option<u8>)
    requires
        exists|i: int| 0 <= i < events.len() && counts_as_round_end(#[trigger] events@[i], start, end) && events@[i].tick == tick,
    ensures
        r is None <==> winners_conflict_at(events@, start, end, tick),
        r matches Some(w) ==> w == winner_at(events@, start, end, tick),
{
    let mut winner: Option<u8> = None;
    let ghost mut first: int = 0;
    let mut i: usize = 0;
    while i < events.len()
        invariant
            i <= events.len(),
            winner is None ==> forall|k: int| 0 <= k < i ==> !(counts_as_round_end(#[trigger] events@[k], start, end) && events@[k].tick == tick),
            winner matches Some(w) ==> 0 <= first < i && counts_as_round_end(events@[first], start, end) && events@[first].tick == tick
                && events@[first].winner_side == Some(w),
            winner matches Some(w) ==> forall|k: int| 0 <= k < i && counts_as_round_end(#[trigger] events@[k], start, end) && events@[k].tick == tick
                ==> events@[k].winner_side == Some(w),
        decreases events.len() - i,
    {
        if events[i].tick == tick && counts_round_end(&events[i], start, end) {
            match winner {
                None => {
                    winner = events[i].winner_side;
                    proof {
                        first = i as int;
                    }
                },
                Some(w) => {
                    if events[i].winner_side != Some(w) {
                        proof {
                            assert(winners_conflict_at(events@, start, end, tick)) by {
                                assert(counts_as_round_end(events@[first], start, end));
                                assert(counts_as_round_end(events@[i as int], start, end));
                            }
                        }
                        return None;
                    }
                },
            }
        }
        i = i + 1;
    }
    proof {
        let c = choose|c: int| 0 <= c < events.len() && counts_as_round_end(#[trigger] events@[c], start, end) && events@[c].tick == tick;
        assert(winner is Some);
        if winners_conflict_at(events@, start, end, tick) {
            let (a, b) = choose|a: int, b: int|
                0 <= a < events.len() && 0 <= b < events.len() && counts_as_round_end(#[trigger] events@[a], start, end)
                    && counts_as_round_end(#[trigger] events@[b], start, end) && events@[a].tick == tick && events@[b].tick == tick
                    && events@[a].winner_side != events@[b].winner_side;
        }
    }
    winner
}


// ---------------------------------------------------------------------------
// Completed rounds
// ---------------------------------------------------------------------------

/// The latest freeze end `f` with `lo < f <= hi`.
pub open spec fn last_freeze_in(freeze: Seq<i32>, lo: i32, hi: i32) -> Option<i32>
    decreases freeze.len(),
{
    if freeze.len() == 0 {
        None
    } else {
        let prev = last_freeze_in(freeze.drop_last(), lo, hi);
        let f = freeze.last();
        if lo < f && f <= hi {
            match prev {
                Some(p) => Some(if p >= f { p } else { f }),
                None => Some(f),
            }
        } else {
            prev
        }
    }
}

/// The first and last tick of the rows of `round`.
pub open spec fn round_span(rows: Seq<SegmentRow>, round: u32) -> Option<(i32, i32)>
    decreases rows.len(),
{
    if rows.len() == 0 {
        None
    } else {
        let prev = round_span(rows.drop_last(), round);
        let row = rows.last();
        if row.round == round {
            match prev {
                Some((lo, hi)) => Some((if lo <= row.tick { lo } else { row.tick }, if hi >= row.tick { hi } else { row.tick })),
                None => Some((row.tick, row.tick)),
            }
        } else {
            prev
        }
    }
}

/// A live row of a player on a playing side, of `round`, between `from` and `to`.
pub open spec fn is_live_row(row: SegmentRow, round: u32, from: i32, to: i32) -> bool {
    &&& row.round == round
    &&& from <= row.tick <= to
    &&& row.round_in_progress
    &&& !row.is_freeze_period
    &&& row.steam_id != 0
    &&& (row.team_num == 2 || row.team_num == 3)
}

/// The first tick of a live row of `round` between `from` and `to`.
pub open spec fn live_start_tick(rows: Seq<SegmentRow>, round: u32, from: i32, to: i32) -> Option<i32>
    decreases rows.len(),
{
    if rows.len() == 0 {
        None
    } else {
        let prev = live_start_tick(rows.drop_last(), round, from, to);
        let row = rows.last();
        if is_live_row(row, round, from, to) {
            match prev {
                Some(p) => Some(if p <= row.tick { p } else { row.tick }),
                None => Some(row.tick),
            }
        } else {
            prev
        }
    }
}

/// The round-end tick before the `q`-th one, or the tick before the match
/// start for the first.
pub open spec fn previous_round_end(events: Seq<ParsedGameEvent>, ticks: Seq<i32>, q: int) -> i32 {
    if q == 0 {
        match match_start_tick(events) {
            Some(s) => if s == i32::MIN {
                s
            } else {
                (s - 1) as i32
            },
            None => i32::MIN,
        }
    } else {
        ticks[q - 1]
    }
}

/// The round that the `q`-th round end completes, if any: the round played
/// from the last freeze end since the previous round end (the modal round of
/// the rows at that freeze end, or else at the last row tick before the
/// round end), with its row span, provided it has a live row in between.
pub open spec fn round_ended_at(
    rows: Seq<SegmentRow>,
    freeze: Seq<i32>,
    events: Seq<ParsedGameEvent>,
    ticks: Seq<i32>,
    q: int,
) -> Option<(u32, CompletedRound)> {
    let t = ticks[q];
    match last_freeze_in(freeze, previous_round_end(events, ticks, q), t) {
        None => None,
        Some(f) => {
            let found = match modal_round(rows, f) {
                Some(r) => Some(r),
                None => predecessor_round_before(rows, t),
            };
            match found {
                None => None,
                Some(round) => match round_span(rows, round) {
                    None => None,
                    Some(span) => match live_start_tick(rows, round, f, t) {
                        None => None,
                        Some(live) => Some(
                            (
                                round,
                                CompletedRound {
                                    row_min_tick: span.0,
                                    row_max_tick: span.1,
                                    freeze_end_tick: f,
                                    round_end_tick: t,
                                    winner_side: winner_at(events, match_start_tick(events), match_end_tick(events), t),
                                    start_score_total: round_start_score_total(rows, round, live, t),
                                },
                            ),
                        ),
                    },
                },
            }
        },
    }
}

/// The rounds the first `n` round ends complete; a later round end of the
/// same round replaces an earlier one.
pub open spec fn completed_upto(
    rows: Seq<SegmentRow>,
    freeze: Seq<i32>,
    events: Seq<ParsedGameEvent>,
    ticks: Seq<i32>,
    n: int,
) -> Map<u32, CompletedRound>
    decreases n,
{
    if n <= 0 {
        Map::empty()
    } else {
        let before = completed_upto(rows, freeze, events, ticks, n - 1);
        match round_ended_at(rows, freeze, events, ticks, n - 1) {
            Some((round, c)) => before.insert(round, c),
            None => before,
        }
    }
}

/// The ascending ticks of the match's counted round ends.
pub open spec fn round_end_listing(events: Seq<ParsedGameEvent>) -> Seq<i32> {
    choose|ticks: Seq<i32>| lists_round_end_ticks(ticks, events, match_start_tick(events), match_end_tick(events))
}

/// The rounds a segment completes, by round.
pub open spec fn spec_completed_rounds(rows: Seq<SegmentRow>, freeze: Seq<i32>, events: Seq<ParsedGameEvent>) -> Map<
    u32,
    CompletedRound,
> {
    let ticks = round_end_listing(events);
    completed_upto(rows, freeze, events, ticks, ticks.len() as int)
}

/// `v` lists the map ascending by round.
pub open spec fn lists_rounds(v: Seq<(u32, CompletedRound)>, m: Map<u32, CompletedRound>) -> bool {
    &&& forall|a: int, b: int| 0 <= a < b < v.len() ==> (#[trigger] v[a]).0 < (#[trigger] v[b]).0
    &&& forall|j: int| 0 <= j < v.len() ==> m.dom().contains((#[trigger] v[j]).0) && m[v[j].0] == v[j].1
    &&& forall|r: u32| #[trigger] m.dom().contains(r) ==> exists|j: int| 0 <= j < v.len() && (#[trigger] v[j]).0 == r
}

pub open spec fn conflict_message(tick: i32) -> Seq<char> {
    "conflicting round winners at tick "@ + crate::text::signed_decimal(tick as int)
}

fn last_freeze_between(freeze: &Vec<i32>, lo: i32, hi: i32) -> (r: Option<i32>)
    ensures
        r == last_freeze_in(freeze@, lo, hi),
{
    let mut best: Option<i32> = None;
    let mut i: usize = 0;
    while i < freeze.len()
        invariant
            i <= freeze.len(),
            best == last_freeze_in(freeze@.take(i as int), lo, hi),
        decreases freeze.len() - i,
    {
        proof {
            assert(freeze@.take(i + 1).drop_last() =~= freeze@.take(i as int));
        }
        let f = freeze[i];
        if lo < f && f <= hi {
            best = match best {
                Some(p) => Some(if p >= f { p } else { f }),
                None => Some(f),
            };
        }
        i = i + 1;
    }
    proof {
        assert(freeze@.take(freeze.len() as int) =~= freeze@);
    }
    best
}

fn round_span_of(rows: &Vec<SegmentRow>, round: u32) -> (r: Option<(i32, i32)>)
    ensures
        r == round_span(rows@, round),
{
    let mut span: Option<(i32, i32)> = None;
    let mut i: usize = 0;
    while i < rows.len()
        invariant
            i <= rows.len(),
            span == round_span(rows@.take(i as int), round),
        decreases rows.len() - i,
    {
        proof {
            assert(rows@.take(i + 1).drop_last() =~= rows@.take(i as int));
        }
        let row = rows[i];
        if row.round == round {
            span = match span {
                Some((lo, hi)) => Some((if lo <= row.tick { lo } else { row.tick }, if hi >= row.tick { hi } else { row.tick })),
                None => Some((row.tick, row.tick)),
            };
        }
        i = i + 1;
    }
    proof {
        assert(rows@.take(rows.len() as int) =~= rows@);
    }
    span
}

fn live_start_of(rows: &Vec<SegmentRow>, round: u32, from: i32, to: i32) -> (r: Option<i32>)
    ensures
        r == live_start_tick(rows@, round, from, to),
{
    let mut best: Option<i32> = None;
    let mut i: usize = 0;
    while i < rows.len()
        invariant
            i <= rows.len(),
            best == live_start_tick(rows@.take(i as int), round, from, to),
        decreases rows.len() - i,
    {
        proof {
            assert(rows@.take(i + 1).drop_last() =~= rows@.take(i as int));
        }
        let row = rows[i];
        if row.round == round && from <= row.tick && row.tick <= to && row.round_in_progress && !row.is_freeze_period
            && row.steam_id != 0 && (row.team_num == 2 || row.team_num == 3) {
            best = match best {
                Some(p) => Some(if p <= row.tick { p } else { row.tick }),
                None => Some(row.tick),
            };
        }
        i = i + 1;
    }
    proof {
        assert(rows@.take(rows.len() as int) =~= rows@);
    }
    best
}

/// Records a completed round, replacing an earlier record of it.
fn put_round(v: &mut Vec<(u32, CompletedRound)>, round: u32, c: CompletedRound, Ghost(m): Ghost<Map<u32, CompletedRound>>)
    requires
        lists_rounds(old(v)@, m),
    ensures
        lists_rounds(final(v)@, m.insert(round, c)),
{
    let ghost before = v@;
    let mut p: usize = 0;
    while p < v.len() && v[p].0 < round
        invariant
            p <= v.len(),
            v@ == before,
            forall|a: int| 0 <= a < p ==> (#[trigger] v@[a]).0 < round,
        decreases v.len() - p,
    {
        p = p + 1;
    }
    let m2 = Ghost(m.insert(round, c));
    if p < v.len() && v[p].0 == round {
        v.set(p, (round, c));
        proof {
            assert forall|a: int, b: int| 0 <= a < b < v@.len() implies (#[trigger] v@[a]).0 < (#[trigger] v@[b]).0 by {
                assert(v@[a].0 == before[a].0);
                assert(v@[b].0 == before[b].0);
            }
            assert forall|j: int| 0 <= j < v@.len() implies m2@.dom().contains((#[trigger] v@[j]).0) && m2@[v@[j].0] == v@[j].1 by {
                if j != p {
                    assert(v@[j] == before[j]);
                    if j < p {
                    } else {
                        assert(before[p as int].0 < before[j].0);
                    }
                }
            }
            assert forall|r: u32| #[trigger] m2@.dom().contains(r) implies exists|j: int| 0 <= j < v@.len() && (#[trigger] v@[j]).0 == r by {
                if r == round {
                    assert(v@[p as int].0 == r);
                } else {
                    let j = choose|j: int| 0 <= j < before.len() && (#[trigger] before[j]).0 == r;
                    assert(v@[j].0 == before[j].0);
                }
            }
        }
    } else {
        v.insert(p, (round, c));
        proof {
            assert forall|a: int| 0 <= a < v@.len() && a != p implies #[trigger] v@[a] == (if a < p {
                before[a]
            } else {
                before[a - 1]
            }) by {}
            assert forall|a: int, b: int| 0 <= a < b < v@.len() implies (#[trigger] v@[a]).0 < (#[trigger] v@[b]).0 by {
                if b < p {
                    assert(before[a].0 < before[b].0);
                } else if b == p {
                } else if a < p {
                    assert(before[b - 1].0 > round) by {
                        if p < before.len() {
                            assert(before[p as int].0 >= round);
                            assert(before[p as int].0 != round);
                            if b - 1 > p {
                                assert(before[p as int].0 < before[b - 1].0);
                            }
                        }
                    }
                } else if a == p {
                    assert(before[b - 1].0 > round) by {
                        assert(before[p as int].0 >= round);
                        assert(before[p as int].0 != round);
                        if b - 1 > p {
                            assert(before[p as int].0 < before[b - 1].0);
                        }
                    }
                } else {
                    assert(before[a - 1].0 < before[b - 1].0);
                }
            }
            assert forall|j: int| 0 <= j < v@.len() implies m2@.dom().contains((#[trigger] v@[j]).0) && m2@[v@[j].0] == v@[j].1 by {
                if j != p {
                    let ob = if j < p { j } else { j - 1 };
                    assert(v@[j] == before[ob]);
                    assert(before[ob].0 != round) by {
                        if ob >= p {
                            assert(before[p as int].0 >= round && before[p as int].0 != round);
                            if ob > p {
                                assert(before[p as int].0 < before[ob].0);
                            }
                        }
                    }
                }
            }
            assert forall|r: u32| #[trigger] m2@.dom().contains(r) implies exists|j: int| 0 <= j < v@.len() && (#[trigger] v@[j]).0 == r by {
                if r == round {
                    assert(v@[p as int].0 == r);
                } else {
                    let j = choose|j: int| 0 <= j < before.len() && (#[trigger] before[j]).0 == r;
                    let nj = if j < p { j } else { j + 1 };
                    assert(v@[nj] == before[j]);
                }
            }
        }
    }
}


/// No two counted round ends among the first `n` listed ticks disagree.
pub open spec fn no_conflict_upto(events: Seq<ParsedGameEvent>, ticks: Seq<i32>, n: int) -> bool {
    forall|q: int| 0 <= q < n ==> !winners_conflict_at(events, match_start_tick(events), match_end_tick(events), #[trigger] ticks[q])
}

/// The rounds that a segment completes, ascending by round; an error names
/// the first round-end tick whose winners disagree.
pub fn completed_rounds(rows: &Vec<SegmentRow>, freeze_end_ticks: &Vec<i32>, events: &Vec<ParsedGameEvent>) -> (r: Result<
    Vec<(u32, CompletedRound)>,
    Error,
>)
    ensures
        match r {
            Ok(v) => no_conflict_upto(events@, round_end_listing(events@), round_end_listing(events@).len() as int)
                && lists_rounds(v@, spec_completed_rounds(rows@, freeze_end_ticks@, events@)),
            Err(e) => exists|q: int|
                0 <= q < round_end_listing(events@).len() && no_conflict_upto(events@, round_end_listing(events@), q)
                    && winners_conflict_at(
                    events@,
                    match_start_tick(events@),
                    match_end_tick(events@),
                    #[trigger] round_end_listing(events@)[q],
                ) && e is InvalidDemo && e.demo_detail() == conflict_message(round_end_listing(events@)[q]),
        },
{
    let rbt = rounds_by_tick(rows);
    let start = last_event_tick(events, "round_announce_match_start");
    let end = first_event_tick(events, "cs_win_panel_match");
    let ticks = round_end_ticks(events, start, end);
    proof {
        reveal_strlit("round_announce_match_start");
        reveal_strlit("cs_win_panel_match");
        let chosen = round_end_listing(events@);
        assert(lists_round_end_ticks(ticks@, events@, start, end));
        lemma_ascending_listing_unique(chosen, ticks@);
    }
    let mut winners: Vec<u8> = Vec::new();
    let mut q: usize = 0;
    while q < ticks.len()
        invariant
            q <= ticks.len(),
            ticks@ == round_end_listing(events@),
            start == match_start_tick(events@),
            end == match_end_tick(events@),
            lists_round_end_ticks(ticks@, events@, start, end),
            winners@.len() == q,
            no_conflict_upto(events@, ticks@, q as int),
            forall|p: int| 0 <= p < q ==> #[trigger] winners@[p] == winner_at(events@, start, end, ticks@[p]),
        decreases ticks.len() - q,
    {
        proof {
            assert(ticks@.contains(ticks@[q as int]));
        }
        match winner_at_tick(events, start, end, ticks[q]) {
            Some(w) => winners.push(w),
            None => {
                let m = crate::text::concat_str(
                    crate::text::string_of("conflicting round winners at tick "),
                    crate::text::i64_decimal(ticks[q] as i64).as_str(),
                );
                proof {
                    reveal_strlit("conflicting round winners at tick ");
                }
                return Err(crate::error::invalid_demo(m));
            },
        }
        q = q + 1;
    }
    let mut completed: Vec<(u32, CompletedRound)> = Vec::new();
    let mut prev: i32 = match start {
        Some(s) => if s == i32::MIN {
            s
        } else {
            s - 1
        },
        None => i32::MIN,
    };
    let mut q: usize = 0;
    proof {
        assert(lists_rounds(completed@, completed_upto(rows@, freeze_end_ticks@, events@, ticks@, 0)));
    }
    while q < ticks.len()
        invariant
            q <= ticks.len(),
            ticks@ == round_end_listing(events@),
            start == match_start_tick(events@),
            end == match_end_tick(events@),
            winners@.len() == ticks.len(),
            forall|p: int| 0 <= p < ticks.len() ==> #[trigger] winners@[p] == winner_at(events@, start, end, ticks@[p]),
            describes_rounds_by_tick(rbt@, rows@),
            prev == previous_round_end(events@, ticks@, q as int),
            lists_rounds(completed@, completed_upto(rows@, freeze_end_ticks@, events@, ticks@, q as int)),
        decreases ticks.len() - q,
    {
        let t = ticks[q];
        let ghost m = completed_upto(rows@, freeze_end_ticks@, events@, ticks@, q as int);
        match last_freeze_between(freeze_end_ticks, prev, t) {
            None => {},
            Some(f) => {
                let found = match modal_round_of_rows(&rbt, Ghost(rows@), f) {
                    Some(r) => Some(r),
                    None => predecessor_round_of_rows(&rbt, Ghost(rows@), t),
                };
                match found {
                    None => {},
                    Some(round) => match round_span_of(rows, round) {
                        None => {},
                        Some((lo, hi)) => match live_start_of(rows, round, f, t) {
                            None => {},
                            Some(live) => {
                                let total = score_total_at_round_start(rows, round, live, t);
                                let c = CompletedRound {
                                    row_min_tick: lo,
                                    row_max_tick: hi,
                                    freeze_end_tick: f,
                                    round_end_tick: t,
                                    winner_side: winners[q],
                                    start_score_total: total,
                                };
                                put_round(&mut completed, round, c, Ghost(m));
                            },
                        },
                    },
                }
            },
        }
        prev = t;
        q = q + 1;
    }
    Ok(completed)
}

} // verus!
