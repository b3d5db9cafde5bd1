//! Repair of the round phase flags of player rows from the freeze-end and
//! round-end events: a freeze period flag that sticks after the freeze end,
//! or a round that never shows as in progress, is set from the events.
use vstd::prelude::*;

verus! {

/// What the phase repair reads and writes of a player row.
#[derive(Clone, Copy, Debug, PartialEq, Eq, Structural)]
pub struct PhaseRow {
    pub round: u32,
    pub tick: i32,
    pub steam_id: u64,
    pub team_num: u8,
    pub is_alive: bool,
    pub is_freeze_period: bool,
    pub round_in_progress: bool,
}

/// The first round of each half is a pistol round.
pub open spec fn spec_is_pistol_round_number(round: u32) -> bool {
    round == 0 || round == 12
}

pub fn is_pistol_round_number(round: u32) -> (r: bool)
    ensures
        r == spec_is_pistol_round_number(round),
{
    round == 0 || round == 12
}

/// Number of leading rows that share the first row's round.
pub open spec fn run_len(rows: Seq<PhaseRow>) -> nat
    decreases rows.len(),
{
    if rows.len() <= 1 {
        rows.len()
    } else if rows[1].round == rows[0].round {
        1 + run_len(rows.drop_first())
    } else {
        1
    }
}

pub proof fn lemma_run_len_bounds(rows: Seq<PhaseRow>)
    ensures
        run_len(rows) <= rows.len(),
        rows.len() > 0 ==> run_len(rows) >= 1,
    decreases rows.len(),
{
    if rows.len() > 1 && rows[1].round == rows[0].round {
        lemma_run_len_bounds(rows.drop_first());
    }
}

/// A leading run of `n` rows of one round, ended by the end of the rows or
/// by a row of another round, is the first run.
proof fn lemma_run_len_is(rows: Seq<PhaseRow>, n: int)
    requires
        1 <= n <= rows.len(),
        forall|i: int| 0 <= i < n ==> #[trigger] rows[i].round == rows[0].round,
        n == rows.len() || rows[n].round != rows[0].round,
    ensures
        run_len(rows) == n,
    decreases n,
{
    if n > 1 {
        let rest = rows.drop_first();
        assert forall|i: int| 0 <= i < n - 1 implies #[trigger] rest[i].round == rest[0].round by {
            assert(rows[i + 1].round == rows[0].round);
            assert(rows[1].round == rows[0].round);
        }
        if n < rows.len() {
            assert(rest[n - 1] == rows[n]);
            assert(rows[1].round == rows[0].round);
        }
        lemma_run_len_is(rest, n - 1);
    }
}

/// The earliest round end in `[freeze_end, max_tick]`.
pub open spec fn spec_round_end_after(ends: Seq<i32>, freeze_end: i32, max_tick: i32) -> Option<i32>
    decreases ends.len(),
{
    if ends.len() == 0 {
        None
    } else {
        let prev = spec_round_end_after(ends.drop_last(), freeze_end, max_tick);
        let t = ends.last();
        if freeze_end <= t && t <= max_tick {
            match prev {
                Some(p) => if p <= t {
                    Some(p)
                } else {
                    Some(t)
                },
                None => Some(t),
            }
        } else {
            prev
        }
    }
}

/// The earliest round end between a freeze end and the round's last tick.
pub fn round_end_after(round_end_ticks: &[i32], freeze_end: i32, max_tick: i32) -> (r: Option<i32>)
    ensures
        r == spec_round_end_after(round_end_ticks@, freeze_end, max_tick),
{
    let mut best: Option<i32> = None;
    let mut k: usize = 0;
    while k < round_end_ticks.len()
        invariant
            k <= round_end_ticks.len(),
            best == spec_round_end_after(round_end_ticks@.take(k as int), freeze_end, max_tick),
        decreases round_end_ticks.len() - k,
    {
        proof {
            assert(round_end_ticks@.take(k + 1).drop_last() =~= round_end_ticks@.take(k as int));
        }
        let t = round_end_ticks[k];
        if freeze_end <= t && t <= max_tick {
            best = match best {
                Some(p) => if p <= t {
                    Some(p)
                } else {
                    Some(t)
                },
                None => Some(t),
            };
        }
        k = k + 1;
    }
    proof {
        assert(round_end_ticks@.take(round_end_ticks@.len() as int) =~= round_end_ticks@);
    }
    best
}

/// The end of live play: the round end, or just past the round's last tick.
pub open spec fn live_end(max_tick: i32, round_end: Option<i32>) -> int {
    match round_end {
        Some(e) => e as int,
        None => if max_tick == i32::MAX {
            max_tick as int
        } else {
            max_tick + 1
        },
    }
}

/// A row of a living player of either side in live play.
pub open spec fn counts_live(r: PhaseRow, freeze_end: i32, end: int) -> bool {
    &&& freeze_end <= r.tick
    &&& r.tick < end
    &&& r.is_alive
    &&& r.steam_id != 0
    &&& (r.team_num == 2 || r.team_num == 3)
}

pub open spec fn live_row_count(rows: Seq<PhaseRow>, freeze_end: i32, end: int) -> nat
    decreases rows.len(),
{
    if rows.len() == 0 {
        0
    } else {
        live_row_count(rows.drop_last(), freeze_end, end) + if counts_live(rows.last(), freeze_end, end) {
            1nat
        } else {
            0nat
        }
    }
}

/// Some live row of `rows` is the player's.
pub open spec fn seen_live(rows: Seq<PhaseRow>, steam_id: u64, freeze_end: i32, end: int) -> bool {
    exists|j: int| 0 <= j < rows.len() && counts_live(#[trigger] rows[j], freeze_end, end) && rows[j].steam_id == steam_id
}

/// Number of distinct players with a live row.
pub open spec fn live_player_count(rows: Seq<PhaseRow>, freeze_end: i32, end: int) -> nat
    decreases rows.len(),
{
    if rows.len() == 0 {
        0
    } else {
        live_player_count(rows.drop_last(), freeze_end, end) + if counts_live(rows.last(), freeze_end, end)
            && !seen_live(rows.drop_last(), rows.last().steam_id, freeze_end, end) {
            1nat
        } else {
            0nat
        }
    }
}

proof fn lemma_live_counts_bounded(rows: Seq<PhaseRow>, freeze_end: i32, end: int)
    ensures
        live_row_count(rows, freeze_end, end) <= rows.len(),
        live_player_count(rows, freeze_end, end) <= rows.len(),
    decreases rows.len(),
{
    if rows.len() > 0 {
        lemma_live_counts_bounded(rows.drop_last(), freeze_end, end);
    }
}

/// How well a freeze end candidate fits the round: the number of players
/// and of rows in live play between it and the round end.
pub open spec fn spec_candidate_score(run: Seq<PhaseRow>, max_tick: i32, freeze_end: i32, round_end: Option<i32>) -> (nat, nat) {
    let end = live_end(max_tick, round_end);
    (live_player_count(run, freeze_end, end), live_row_count(run, freeze_end, end))
}

/// The players and rows of the round in live play from a freeze end candidate.
pub fn round_phase_candidate_score(round_rows: &[PhaseRow], max_tick: i32, freeze_end: i32, round_end: Option<i32>) -> (r: (usize, usize))
    ensures
        r.0 as nat == spec_candidate_score(round_rows@, max_tick, freeze_end, round_end).0,
        r.1 as nat == spec_candidate_score(round_rows@, max_tick, freeze_end, round_end).1,
{
    let live_end_tick: i32 = match round_end {
        Some(e) => e,
        None => if max_tick == i32::MAX {
            max_tick
        } else {
            max_tick + 1
        },
    };
    let ghost end = live_end(max_tick, round_end);
    let mut players: Vec<u64> = Vec::new();
    let mut live_rows: usize = 0;
    let mut k: usize = 0;
    while k < round_rows.len()
        invariant
            k <= round_rows.len(),
            live_end_tick as int == end,
            live_rows as nat == live_row_count(round_rows@.take(k as int), freeze_end, end),
            players@.len() == live_player_count(round_rows@.take(k as int), freeze_end, end),
            forall|s: u64| players@.contains(s) <==> seen_live(round_rows@.take(k as int), s, freeze_end, end),
        decreases round_rows.len() - k,
    {
        let ghost pre = round_rows@.take(k as int);
        proof {
            assert(round_rows@.take(k + 1).drop_last() =~= pre);
            assert(round_rows@.take(k + 1).last() == round_rows@[k as int]);
            lemma_live_counts_bounded(pre, freeze_end, end);
        }
        let row = &round_rows[k];
        let ghost old_players = players@;
        assert(forall|s: u64| old_players.contains(s) <==> seen_live(pre, s, freeze_end, end));
        if row.tick >= freeze_end && row.tick < live_end_tick && row.is_alive && row.steam_id != 0 && (row.team_num == 2 || row.team_num == 3) {
            let mut found = false;
            let mut j: usize = 0;
            while j < players.len()
                invariant
                    j <= players@.len(),
                    found <==> exists|a: int| 0 <= a < j && players@[a] == row.steam_id,
                decreases players.len() - j,
            {
                if players[j] == row.steam_id {
                    found = true;
                }
                j = j + 1;
            }
            proof {
                assert(found <==> players@.contains(row.steam_id));
            }
            if !found {
                players.push(row.steam_id);
                proof {
                    assert(players@[players@.len() - 1] == row.steam_id);
                    assert forall|a: int| 0 <= a < old_players.len() implies players@[a] == old_players[a] by {}
                }
            }
            proof {
                assert(players@.contains(row.steam_id));
            }
            live_rows = live_rows + 1;
        }
        proof {
            let now = round_rows@.take(k + 1);
            assert(now[k as int] == round_rows@[k as int]);
            assert forall|s: u64| players@.contains(s) <==> seen_live(now, s, freeze_end, end) by {
                if players@.contains(s) {
                    let a = choose|a: int| 0 <= a < players@.len() && players@[a] == s;
                    if a < old_players.len() {
                        assert(old_players[a] == s);
                        assert(old_players.contains(s));
                        let j = choose|j: int| 0 <= j < pre.len() && counts_live(#[trigger] pre[j], freeze_end, end) && pre[j].steam_id == s;
                        assert(now[j] == pre[j]);
                    } else {
                        assert(s == round_rows@[k as int].steam_id);
                        assert(counts_live(now[k as int], freeze_end, end));
                    }
                }
                if seen_live(now, s, freeze_end, end) {
                    let j = choose|j: int| 0 <= j < now.len() && counts_live(#[trigger] now[j], freeze_end, end) && now[j].steam_id == s;
                    if j < k {
                        assert(pre[j] == now[j]);
                        assert(seen_live(pre, s, freeze_end, end));
                        assert(old_players.contains(s));
                        let a = choose|a: int| 0 <= a < old_players.len() && old_players[a] == s;
                        assert(players@[a] == old_players[a]);
                    } else {
                        assert(j == k);
                        assert(players@.contains(round_rows@[k as int].steam_id));
                    }
                }
            }
        }
        k = k + 1;
    }
    proof {
        assert(round_rows@.take(round_rows@.len() as int) =~= round_rows@);
    }
    (players.len(), live_rows)
}

/// `a` ranks at least as high as `b`: more players, then more live rows,
/// then the later freeze end.
pub open spec fn ranks_at_least(a: (nat, nat), at: i32, b: (nat, nat), bt: i32) -> bool {
    a.0 > b.0 || (a.0 == b.0 && (a.1 > b.1 || (a.1 == b.1 && at >= bt)))
}

pub open spec fn candidate_rank(run: Seq<PhaseRow>, ends: Seq<i32>, max_tick: i32, freeze_end: i32) -> (nat, nat) {
    spec_candidate_score(run, max_tick, freeze_end, spec_round_end_after(ends, freeze_end, max_tick))
}

/// The freeze end chosen for a round among the candidates within its ticks:
/// in a pistol round the last one, in any other round the best ranked one
/// (the last of equals).
pub open spec fn chosen_freeze_end(
    run: Seq<PhaseRow>,
    freeze_ends: Seq<i32>,
    ends: Seq<i32>,
    min_tick: i32,
    max_tick: i32,
    pistol: bool,
) -> Option<i32>
    decreases freeze_ends.len(),
{
    if freeze_ends.len() == 0 {
        None
    } else {
        let prev = chosen_freeze_end(run, freeze_ends.drop_last(), ends, min_tick, max_tick, pistol);
        let t = freeze_ends.last();
        if min_tick <= t && t <= max_tick {
            match prev {
                None => Some(t),
                Some(p) => if pistol || ranks_at_least(
                    candidate_rank(run, ends, max_tick, t),
                    t,
                    candidate_rank(run, ends, max_tick, p),
                    p,
                ) {
                    Some(t)
                } else {
                    prev
                },
            }
        } else {
            prev
        }
    }
}

/// The phase of a round: the chosen freeze end and the earliest round end
/// after it, if any freeze end falls within the round's ticks.
pub open spec fn round_phase(run: Seq<PhaseRow>, freeze_ends: Seq<i32>, ends: Seq<i32>) -> Option<(i32, Option<i32>)> {
    let min_tick = run[0].tick;
    let max_tick = run.last().tick;
    match chosen_freeze_end(run, freeze_ends, ends, min_tick, max_tick, spec_is_pistol_round_number(run[0].round)) {
        Some(f) => Some((f, spec_round_end_after(ends, f, max_tick))),
        None => None,
    }
}

fn choose_round_phase(run: &[PhaseRow], freeze_end_ticks: &[i32], round_end_ticks: &[i32]) -> (r: Option<(i32, Option<i32>)>)
    requires
        run@.len() > 0,
    ensures
        r == round_phase(run@, freeze_end_ticks@, round_end_ticks@),
{
    let min_tick = run[0].tick;
    let max_tick = run[run.len() - 1].tick;
    let pistol = is_pistol_round_number(run[0].round);
    let mut best: Option<(i32, Option<i32>)> = None;
    let mut best_score: (usize, usize) = (0, 0);
    let mut k: usize = 0;
    while k < freeze_end_ticks.len()
        invariant
            k <= freeze_end_ticks.len(),
            run@.len() > 0,
            min_tick == run@[0].tick,
            max_tick == run@.last().tick,
            pistol == spec_is_pistol_round_number(run@[0].round),
            match best {
                None => chosen_freeze_end(run@, freeze_end_ticks@.take(k as int), round_end_ticks@, min_tick, max_tick, pistol) is None,
                Some(b) => chosen_freeze_end(run@, freeze_end_ticks@.take(k as int), round_end_ticks@, min_tick, max_tick, pistol) == Some(b.0)
                    && b.1 == spec_round_end_after(round_end_ticks@, b.0, max_tick)
                    && (!pistol ==> best_score.0 as nat == candidate_rank(run@, round_end_ticks@, max_tick, b.0).0
                        && best_score.1 as nat == candidate_rank(run@, round_end_ticks@, max_tick, b.0).1),
            },
        decreases freeze_end_ticks.len() - k,
    {
        proof {
            assert(freeze_end_ticks@.take(k + 1).drop_last() =~= freeze_end_ticks@.take(k as int));
        }
        let t = freeze_end_ticks[k];
        if min_tick <= t && t <= max_tick {
            let round_end = round_end_after(round_end_ticks, t, max_tick);
            if pistol {
                best = Some((t, round_end));
            } else {
                let score = round_phase_candidate_score(run, max_tick, t, round_end);
                let take = match best {
                    None => true,
                    Some(b) => score.0 > best_score.0 || (score.0 == best_score.0 && (score.1 > best_score.1 || (score.1 == best_score.1 && t >= b.0))),
                };
                if take {
                    best = Some((t, round_end));
                    best_score = score;
                }
            }
        }
        k = k + 1;
    }
    proof {
        assert(freeze_end_ticks@.take(freeze_end_ticks@.len() as int) =~= freeze_end_ticks@);
    }
    best
}

/// The row after the phase `(freeze_end, round_end)` is applied: from the
/// freeze end on the row is out of the freeze period; it is in progress from
/// the freeze end to the round end, and not in progress from the round end on.
pub open spec fn apply_phase(r: PhaseRow, freeze_end: i32, round_end: Option<i32>) -> PhaseRow {
    let started = r.tick >= freeze_end;
    let before_end = match round_end {
        Some(e) => r.tick < e,
        None => true,
    };
    let after_end = match round_end {
        Some(e) => r.tick >= e,
        None => false,
    };
    PhaseRow {
        is_freeze_period: if started {
            false
        } else {
            r.is_freeze_period
        },
        round_in_progress: if started && before_end {
            true
        } else if after_end {
            false
        } else {
            r.round_in_progress
        },
        ..r
    }
}

/// A round's rows after its phase, if it has one, is applied.
pub open spec fn repaired_run(run: Seq<PhaseRow>, freeze_ends: Seq<i32>, ends: Seq<i32>) -> Seq<PhaseRow> {
    match round_phase(run, freeze_ends, ends) {
        None => run,
        Some(p) => Seq::new(run.len(), |i: int| apply_phase(run[i], p.0, p.1)),
    }
}

/// The rows after each run of rows of one round is repaired on its own.
pub open spec fn repaired_rows(rows: Seq<PhaseRow>, freeze_ends: Seq<i32>, ends: Seq<i32>) -> Seq<PhaseRow>
    decreases rows.len(),
{
    if rows.len() == 0 {
        rows
    } else {
        proof {
            lemma_run_len_bounds(rows);
        }
        let n = run_len(rows) as int;
        repaired_run(rows.take(n), freeze_ends, ends) + repaired_rows(rows.skip(n), freeze_ends, ends)
    }
}

/// `b` is `a` with at most its two phase flags changed.
pub open spec fn same_but_phase(a: PhaseRow, b: PhaseRow) -> bool {
    &&& b.round == a.round
    &&& b.tick == a.tick
    &&& b.steam_id == a.steam_id
    &&& b.team_num == a.team_num
    &&& b.is_alive == a.is_alive
}

/// The phase repair keeps every row in its place and changes nothing of it
/// but its freeze period and in-progress flags.
pub proof fn law_repair_changes_only_phase_flags(rows: Seq<PhaseRow>, freeze_ends: Seq<i32>, ends: Seq<i32>)
    ensures
        repaired_rows(rows, freeze_ends, ends).len() == rows.len(),
        forall|i: int| 0 <= i < rows.len() ==> same_but_phase(rows[i], #[trigger] repaired_rows(rows, freeze_ends, ends)[i]),
    decreases rows.len(),
{
    if rows.len() > 0 {
        lemma_run_len_bounds(rows);
        let n = run_len(rows) as int;
        law_repair_changes_only_phase_flags(rows.skip(n), freeze_ends, ends);
        let head = repaired_run(rows.take(n), freeze_ends, ends);
        let tail = repaired_rows(rows.skip(n), freeze_ends, ends);
        assert(head.len() == n);
        assert forall|i: int| 0 <= i < rows.len() implies same_but_phase(rows[i], #[trigger] repaired_rows(rows, freeze_ends, ends)[i]) by {
            if i < n {
                assert(repaired_rows(rows, freeze_ends, ends)[i] == head[i]);
                assert(rows.take(n)[i] == rows[i]);
            } else {
                assert(repaired_rows(rows, freeze_ends, ends)[i] == tail[i - n]);
                assert(rows.skip(n)[i - n] == rows[i]);
            }
        }
    }
}

fn apply_round_phase(rows: &mut Vec<PhaseRow>, start: usize, end: usize, freeze_end: i32, round_end: Option<i32>)
    requires
        start <= end <= old(rows)@.len(),
    ensures
        final(rows)@.len() == old(rows)@.len(),
        forall|i: int| 0 <= i < start ==> #[trigger] final(rows)@[i] == old(rows)@[i],
        forall|i: int| end <= i < old(rows)@.len() ==> #[trigger] final(rows)@[i] == old(rows)@[i],
        forall|i: int| start <= i < end ==> #[trigger] final(rows)@[i] == apply_phase(old(rows)@[i], freeze_end, round_end),
{
    let mut i: usize = start;
    while i < end
        invariant
            start <= i <= end,
            end <= rows@.len(),
            rows@.len() == old(rows)@.len(),
            forall|j: int| 0 <= j < start ==> #[trigger] rows@[j] == old(rows)@[j],
            forall|j: int| i <= j < old(rows)@.len() ==> #[trigger] rows@[j] == old(rows)@[j],
            forall|j: int| start <= j < i ==> #[trigger] rows@[j] == apply_phase(old(rows)@[j], freeze_end, round_end),
        decreases end - i,
    {
        let mut row = rows[i];
        if row.tick >= freeze_end {
            row.is_freeze_period = false;
        }
        let before_end = match round_end {
            Some(e) => row.tick < e,
            None => true,
        };
        let after_end = match round_end {
            Some(e) => row.tick >= e,
            None => false,
        };
        if row.tick >= freeze_end && before_end {
            row.round_in_progress = true;
        } else if after_end {
            row.round_in_progress = false;
        }
        rows.set(i, row);
        i = i + 1;
    }
}

/// Repairs the phase flags of the rows, a run of rows of one round at a
/// time, from the freeze-end and round-end event ticks (each in event
/// order): each run gets the phase of its chosen freeze end, and a run with
/// no freeze end within its ticks is left as it is.
pub fn repair_round_phase_after_events(rows: &mut Vec<PhaseRow>, freeze_end_ticks: &[i32], round_end_ticks: &[i32])
    ensures
        final(rows)@ == repaired_rows(old(rows)@, freeze_end_ticks@, round_end_ticks@),
        final(rows)@.len() == old(rows)@.len(),
        forall|i: int| 0 <= i < old(rows)@.len() ==> same_but_phase(old(rows)@[i], #[trigger] final(rows)@[i]),
{
    let ghost orig = rows@;
    proof {
        law_repair_changes_only_phase_flags(orig, freeze_end_ticks@, round_end_ticks@);
    }
    let mut start: usize = 0;
    proof {
        assert(orig.skip(0) =~= orig);
        assert(rows@.take(0) + repaired_rows(orig.skip(0), freeze_end_ticks@, round_end_ticks@) =~= repaired_rows(orig, freeze_end_ticks@, round_end_ticks@));
    }
    while start < rows.len()
        invariant
            start <= rows@.len(),
            rows@.len() == orig.len(),
            rows@.skip(start as int) == orig.skip(start as int),
            repaired_rows(orig, freeze_end_ticks@, round_end_ticks@) == rows@.take(start as int) + repaired_rows(orig.skip(start as int), freeze_end_ticks@, round_end_ticks@),
        decreases rows@.len() - start,
    {
        let round = rows[start].round;
        let mut end: usize = start + 1;
        while end < rows.len() && rows[end].round == round
            invariant
                start < end <= rows@.len(),
                round == rows@[start as int].round,
                forall|i: int| start <= i < end ==> #[trigger] rows@[i].round == round,
            decreases rows@.len() - end,
        {
            end = end + 1;
        }
        let ghost rest = orig.skip(start as int);
        let ghost run = orig.subrange(start as int, end as int);
        proof {
            assert forall|i: int| start <= i < orig.len() implies #[trigger] rows@[i] == orig[i] by {
                assert(rows@.skip(start as int)[i - start] == orig.skip(start as int)[i - start]);
            }
            assert forall|i: int| 0 <= i < end - start implies #[trigger] rest[i].round == rest[0].round by {
                assert(rest[i] == orig[start + i]);
                assert(rows@[start + i].round == round);
            }
            if end < orig.len() {
                assert(rest[end - start] == orig[end as int]);
            }
            lemma_run_len_is(rest, end - start);
            assert(rest.take(end - start) =~= run);
            assert(rest.skip(end - start) =~= orig.skip(end as int));
        }
        let phase = {
            let run_rows = vstd::slice::slice_subrange(rows.as_slice(), start, end);
            proof {
                assert(run_rows@ =~= run);
            }
            choose_round_phase(run_rows, freeze_end_ticks, round_end_ticks)
        };
        let ghost before = rows@;
        match phase {
            Some((freeze_end, round_end)) => {
                apply_round_phase(rows, start, end, freeze_end, round_end);
            },
            None => {},
        }
        proof {
            assert(rows@.take(end as int) =~= before.take(start as int) + repaired_run(run, freeze_end_ticks@, round_end_ticks@)) by {
                assert forall|i: int| 0 <= i < end - start implies before[start + i] == #[trigger] run[i] by {
                    assert(orig[start + i] == run[i]);
                }
            }
            assert(rows@.skip(end as int) =~= orig.skip(end as int)) by {
                assert forall|i: int| 0 <= i < orig.len() - end implies #[trigger] rows@.skip(end as int)[i] == orig.skip(end as int)[i] by {
                    assert(rows@[end + i] == before[end + i]);
                    assert(before[end + i] == orig[end + i]);
                }
            }
            assert(repaired_rows(rest, freeze_end_ticks@, round_end_ticks@) == repaired_run(run, freeze_end_ticks@, round_end_ticks@) + repaired_rows(orig.skip(end as int), freeze_end_ticks@, round_end_ticks@));
        }
        start = end;
    }
    proof {
        assert(orig.skip(orig.len() as int) =~= Seq::<PhaseRow>::empty());
        assert(rows@.take(rows@.len() as int) =~= rows@);
    }
}

} // verus!
