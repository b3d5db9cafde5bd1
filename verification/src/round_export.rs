//! Which rounds an export writes and from which tick: the freeze-time
//! pre-roll every player can join, the cut before a bomb plant, and the
//! estimate of the files a selection writes.
use crate::model::{side_matches_team, Side};
use crate::quality::RoundSummary;
use crate::round_phase::PhaseRow;
use crate::text::{concat_str, signed_decimal, i64_decimal, string_of};
use vstd::prelude::*;

verus! {

/// The earliest tick a pre-roll of `cap` ticks may reach: `live - cap`,
/// saturated at `i32::MIN`.
pub open spec fn preroll_floor(live: i32, cap: i32) -> int {
    if live - cap < i32::MIN {
        i32::MIN as int
    } else {
        live - cap
    }
}

/// A row of a living player of either side between the floor and the live
/// start, frozen unless it is the live start itself.
pub open spec fn preroll_row(r: PhaseRow, floor: int, live: i32) -> bool {
    &&& floor <= r.tick <= live
    &&& (r.tick == live || r.is_freeze_period)
    &&& r.is_alive
    &&& r.steam_id != 0
    &&& (r.team_num == 2 || r.team_num == 3)
}

pub open spec fn preroll_listed(rows: Seq<PhaseRow>, p: u64, floor: int, live: i32) -> bool {
    exists|i: int| 0 <= i < rows.len() && preroll_row(#[trigger] rows[i], floor, live) && rows[i].steam_id == p
}

pub open spec fn preroll_tick(rows: Seq<PhaseRow>, p: u64, t: int, floor: int, live: i32) -> bool {
    exists|i: int| 0 <= i < rows.len() && preroll_row(#[trigger] rows[i], floor, live) && rows[i].steam_id == p && rows[i].tick == t
}

/// The player has a pre-roll row at every tick from `s` up to the live start.
pub open spec fn preroll_from(rows: Seq<PhaseRow>, p: u64, s: int, floor: int, live: i32) -> bool {
    forall|t: int| s <= t < live ==> #[trigger] preroll_tick(rows, p, t, floor, live)
}

/// No pre-roll: none is allowed, no player has a pre-roll row, or some player
/// has pre-roll rows but no row at the live start.
pub open spec fn no_preroll(rows: Seq<PhaseRow>, cap: i32, live: i32) -> bool {
    let floor = preroll_floor(live, cap);
    ||| cap <= 0
    ||| !(exists|p: u64| #[trigger] preroll_listed(rows, p, floor, live))
    ||| exists|p: u64| #[trigger] preroll_listed(rows, p, floor, live) && !preroll_tick(rows, p, live as int, floor, live)
}

/// `r` is the latest tick from which every player with pre-roll rows has a
/// row at each tick up to the live start, no earlier than the floor.
pub open spec fn preroll_start_ok(rows: Seq<PhaseRow>, cap: i32, live: i32, r: int) -> bool {
    let floor = preroll_floor(live, cap);
    &&& floor <= r <= live
    &&& forall|p: u64| #[trigger] preroll_listed(rows, p, floor, live) ==> preroll_from(rows, p, r, floor, live)
    &&& (r == floor || exists|p: u64| #[trigger] preroll_listed(rows, p, floor, live) && !preroll_tick(rows, p, r - 1, floor, live))
}

/// At most one tick is the start of the pre-roll.
pub proof fn lemma_preroll_start_unique(rows: Seq<PhaseRow>, cap: i32, live: i32, a: int, b: int)
    requires
        preroll_start_ok(rows, cap, live, a),
        preroll_start_ok(rows, cap, live, b),
    ensures
        a == b,
{
    let floor = preroll_floor(live, cap);
    if a < b {
        let p = choose|p: u64| #[trigger] preroll_listed(rows, p, floor, live) && !preroll_tick(rows, p, b - 1, floor, live);
        assert(preroll_from(rows, p, a, floor, live));
        assert(preroll_tick(rows, p, b - 1, floor, live));
    } else if b < a {
        let p = choose|p: u64| #[trigger] preroll_listed(rows, p, floor, live) && !preroll_tick(rows, p, a - 1, floor, live);
        assert(preroll_from(rows, p, b, floor, live));
        assert(preroll_tick(rows, p, a - 1, floor, live));
    }
}

/// The first tick of a round's recording.
pub open spec fn spec_recording_start(rows: Seq<PhaseRow>, cap: i32, live: i32) -> int {
    if no_preroll(rows, cap, live) {
        live as int
    } else {
        choose|r: int| preroll_start_ok(rows, cap, live, r)
    }
}

/// Distinct players with a pre-roll row.
fn preroll_players(rows: &[PhaseRow], floor: i64, live: i32) -> (v: Vec<u64>)
    requires
        i32::MIN <= floor <= live,
    ensures
        forall|p: u64| v@.contains(p) <==> preroll_listed(rows@, p, floor as int, live),
{
    let mut v: Vec<u64> = Vec::new();
    let mut k: usize = 0;
    while k < rows.len()
        invariant
            k <= rows.len(),
            i32::MIN <= floor <= live,
            forall|p: u64| v@.contains(p) <==> preroll_listed(rows@.take(k as int), p, floor as int, live),
        decreases rows.len() - k,
    {
        let r = &rows[k];
        let ghost old_v = v@;
        let ghost pre = rows@.take(k as int);
        let ghost now = rows@.take(k + 1);
        assert(forall|p: u64| old_v.contains(p) <==> preroll_listed(pre, p, floor as int, live));
        if (r.tick as i64) >= floor && r.tick <= live && (r.tick == live || r.is_freeze_period) && r.is_alive
            && r.steam_id != 0 && (r.team_num == 2 || r.team_num == 3) {
            let mut found = false;
            let mut j: usize = 0;
            while j < v.len()
                invariant
                    j <= v@.len(),
                    found <==> exists|a: int| 0 <= a < j && v@[a] == r.steam_id,
                decreases v.len() - j,
            {
                if v[j] == r.steam_id {
                    found = true;
                }
                j = j + 1;
            }
            if !found {
                v.push(r.steam_id);
                proof {
                    assert(v@[v@.len() - 1] == r.steam_id);
                    assert forall|a: int| 0 <= a < old_v.len() implies v@[a] == old_v[a] by {}
                }
            }
            proof {
                assert(v@.contains(r.steam_id));
            }
        }
        proof {
            assert(now[k as int] == rows@[k as int]);
            assert forall|p: u64| v@.contains(p) <==> preroll_listed(now, p, floor as int, live) by {
                if v@.contains(p) {
                    let a = choose|a: int| 0 <= a < v@.len() && v@[a] == p;
                    if a < old_v.len() {
                        assert(old_v[a] == p);
                        assert(old_v.contains(p));
                        let i = choose|i: int| 0 <= i < pre.len() && preroll_row(#[trigger] pre[i], floor as int, live) && pre[i].steam_id == p;
                        assert(now[i] == pre[i]);
                    } else {
                        assert(preroll_row(now[k as int], floor as int, live));
                    }
                }
                if preroll_listed(now, p, floor as int, live) {
                    let i = choose|i: int| 0 <= i < now.len() && preroll_row(#[trigger] now[i], floor as int, live) && now[i].steam_id == p;
                    if i < k {
                        assert(pre[i] == now[i]);
                        assert(preroll_listed(pre, p, floor as int, live));
                        assert(old_v.contains(p));
                        let a = choose|a: int| 0 <= a < old_v.len() && old_v[a] == p;
                        assert(v@[a] == old_v[a]);
                    }
                }
            }
        }
        k = k + 1;
    }
    proof {
        assert(rows@.take(rows@.len() as int) =~= rows@);
    }
    v
}

/// The player's pre-roll ticks (with repeats).
fn preroll_ticks_of(rows: &[PhaseRow], p: u64, floor: i64, live: i32) -> (v: Vec<i32>)
    requires
        i32::MIN <= floor <= live,
    ensures
        forall|t: i32| v@.contains(t) <==> preroll_tick(rows@, p, t as int, floor as int, live),
{
    let mut v: Vec<i32> = Vec::new();
    let mut k: usize = 0;
    while k < rows.len()
        invariant
            k <= rows.len(),
            i32::MIN <= floor <= live,
            forall|t: i32| v@.contains(t) <==> preroll_tick(rows@.take(k as int), p, t as int, floor as int, live),
        decreases rows.len() - k,
    {
        let r = &rows[k];
        let ghost old_v = v@;
        let ghost pre = rows@.take(k as int);
        let ghost now = rows@.take(k + 1);
        assert(forall|t: i32| old_v.contains(t) <==> preroll_tick(pre, p, t as int, floor as int, live));
        if (r.tick as i64) >= floor && r.tick <= live && (r.tick == live || r.is_freeze_period) && r.is_alive
            && r.steam_id != 0 && (r.team_num == 2 || r.team_num == 3) && r.steam_id == p {
            v.push(r.tick);
            proof {
                assert(v@[v@.len() - 1] == r.tick);
                assert forall|a: int| 0 <= a < old_v.len() implies v@[a] == old_v[a] by {}
            }
        }
        proof {
            assert(now[k as int] == rows@[k as int]);
            assert forall|t: i32| v@.contains(t) <==> preroll_tick(now, p, t as int, floor as int, live) by {
                if v@.contains(t) {
                    let a = choose|a: int| 0 <= a < v@.len() && v@[a] == t;
                    if a < old_v.len() {
                        assert(old_v[a] == t);
                        assert(old_v.contains(t));
                        let i = choose|i: int| 0 <= i < pre.len() && preroll_row(#[trigger] pre[i], floor as int, live) && pre[i].steam_id == p && pre[i].tick == t;
                        assert(now[i] == pre[i]);
                    } else {
                        assert(preroll_row(now[k as int], floor as int, live));
                    }
                }
                if preroll_tick(now, p, t as int, floor as int, live) {
                    let i = choose|i: int| 0 <= i < now.len() && preroll_row(#[trigger] now[i], floor as int, live) && now[i].steam_id == p && now[i].tick == t;
                    if i < k {
                        assert(pre[i] == now[i]);
                        assert(preroll_tick(pre, p, t as int, floor as int, live));
                        assert(old_v.contains(t));
                        let a = choose|a: int| 0 <= a < old_v.len() && old_v[a] == t;
                        assert(v@[a] == old_v[a]);
                    } else {
                        assert(v@[v@.len() - 1] == t);
                    }
                }
            }
        }
        k = k + 1;
    }
    proof {
        assert(rows@.take(rows@.len() as int) =~= rows@);
    }
    v
}

fn contains_i32(v: &Vec<i32>, t: i32) -> (r: bool)
    ensures
        r == v@.contains(t),
{
    let mut k: usize = 0;
    while k < v.len()
        invariant
            k <= v@.len(),
            forall|a: int| 0 <= a < k ==> v@[a] != t,
        decreases v.len() - k,
    {
        if v[k] == t {
            return true;
        }
        k = k + 1;
    }
    false
}

/// The first tick of a round's recording: the latest tick from which every
/// player with pre-roll rows has a row at each tick up to the live start,
/// at most `cap_ticks` before it; the live start itself when there is no
/// pre-roll (see `no_preroll`).
pub fn recording_start_tick_for_round(round_rows: &[PhaseRow], cap_ticks: i32, live_start_tick: i32) -> (r: i32)
    ensures
        r == spec_recording_start(round_rows@, cap_ticks, live_start_tick),
        no_preroll(round_rows@, cap_ticks, live_start_tick) ==> r == live_start_tick,
        !no_preroll(round_rows@, cap_ticks, live_start_tick) ==> preroll_start_ok(round_rows@, cap_ticks, live_start_tick, r as int),
{
    if cap_ticks <= 0 {
        return live_start_tick;
    }
    let wide: i64 = (live_start_tick as i64) - (cap_ticks as i64);
    let floor: i64 = if wide < -2147483648 {
        -2147483648
    } else {
        wide
    };
    let ghost fl = preroll_floor(live_start_tick, cap_ticks);
    assert(floor == fl);
    let players = preroll_players(round_rows, floor, live_start_tick);
    let mut common: i64 = floor;
    let mut k: usize = 0;
    while k < players.len()
        invariant
            k <= players@.len(),
            cap_ticks > 0,
            floor == fl,
            fl == preroll_floor(live_start_tick, cap_ticks),
            i32::MIN <= floor <= live_start_tick,
            floor <= common <= live_start_tick,
            forall|p: u64| players@.contains(p) <==> preroll_listed(round_rows@, p, fl, live_start_tick),
            forall|j: int| 0 <= j < k ==> preroll_tick(round_rows@, #[trigger] players@[j], live_start_tick as int, fl, live_start_tick),
            forall|j: int| 0 <= j < k ==> preroll_from(round_rows@, #[trigger] players@[j], common as int, fl, live_start_tick),
            common == floor || exists|j: int| 0 <= j < k && !preroll_tick(round_rows@, #[trigger] players@[j], common - 1, fl, live_start_tick),
        decreases players.len() - k,
    {
        let p = players[k];
        let ticks = preroll_ticks_of(round_rows, p, floor, live_start_tick);
        if !contains_i32(&ticks, live_start_tick) {
            proof {
                assert(players@.contains(p));
                assert(preroll_listed(round_rows@, p, fl, live_start_tick));
                assert(!preroll_tick(round_rows@, p, live_start_tick as int, fl, live_start_tick));
            }
            return live_start_tick;
        }
        let mut s: i32 = live_start_tick;
        while (s as i64) > floor && contains_i32(&ticks, s - 1)
            invariant
                floor <= s <= live_start_tick,
                i32::MIN <= floor,
                forall|t: i32| ticks@.contains(t) <==> preroll_tick(round_rows@, p, t as int, fl, live_start_tick),
                floor == fl,
                forall|t: int| s <= t < live_start_tick ==> #[trigger] preroll_tick(round_rows@, p, t, fl, live_start_tick),
            decreases s - floor,
        {
            proof {
                assert(ticks@.contains((s - 1) as i32));
            }
            s = s - 1;
        }
        proof {
            if (s as i64) > floor {
                assert(!ticks@.contains((s - 1) as i32));
                assert(!preroll_tick(round_rows@, p, s - 1, fl, live_start_tick));
            }
        }
        let ghost old_common = common;
        if (s as i64) > common {
            common = s as i64;
        }
        proof {
            assert forall|j: int| 0 <= j < k + 1 implies preroll_from(round_rows@, #[trigger] players@[j], common as int, fl, live_start_tick) by {
                if j < k {
                    assert(preroll_from(round_rows@, players@[j], old_common as int, fl, live_start_tick));
                    assert forall|t: int| common <= t < live_start_tick implies #[trigger] preroll_tick(round_rows@, players@[j], t, fl, live_start_tick) by {
                        assert(old_common <= t);
                    }
                } else {
                    assert forall|t: int| common <= t < live_start_tick implies #[trigger] preroll_tick(round_rows@, players@[j], t, fl, live_start_tick) by {
                        assert(s <= t);
                    }
                }
            }
            if common != floor {
                if common == old_common {
                    let j = choose|j: int| 0 <= j < k && !preroll_tick(round_rows@, #[trigger] players@[j], old_common - 1, fl, live_start_tick);
                    assert(0 <= j < k + 1);
                } else {
                    assert(common == s);
                    assert(!preroll_tick(round_rows@, players@[k as int], common - 1, fl, live_start_tick));
                }
            }
            assert(preroll_tick(round_rows@, players@[k as int], live_start_tick as int, fl, live_start_tick));
        }
        k = k + 1;
    }
    if players.len() == 0 {
        proof {
            assert forall|p: u64| !preroll_listed(round_rows@, p, fl, live_start_tick) by {
                if preroll_listed(round_rows@, p, fl, live_start_tick) {
                    assert(players@.contains(p));
                }
            }
        }
        return live_start_tick;
    }
    proof {
        assert(players@.contains(players@[0]));
        assert(preroll_listed(round_rows@, players@[0], fl, live_start_tick));
        assert forall|p: u64| #[trigger] preroll_listed(round_rows@, p, fl, live_start_tick) implies preroll_tick(round_rows@, p, live_start_tick as int, fl, live_start_tick)
            && preroll_from(round_rows@, p, common as int, fl, live_start_tick) by {
            assert(players@.contains(p));
            let j = choose|j: int| 0 <= j < players@.len() && players@[j] == p;
            assert(preroll_tick(round_rows@, players@[j], live_start_tick as int, fl, live_start_tick));
            assert(preroll_from(round_rows@, players@[j], common as int, fl, live_start_tick));
        }
        if common != floor {
            let j = choose|j: int| 0 <= j < players@.len() && !preroll_tick(round_rows@, #[trigger] players@[j], common - 1, fl, live_start_tick);
            assert(players@.contains(players@[j]));
            assert(preroll_listed(round_rows@, players@[j], fl, live_start_tick));
        }
        assert(preroll_start_ok(round_rows@, cap_ticks, live_start_tick, common as int));
        let c = choose|r: int| preroll_start_ok(round_rows@, cap_ticks, live_start_tick, r);
        lemma_preroll_start_unique(round_rows@, cap_ticks, live_start_tick, c, common as int);
    }
    common as i32
}

/// The earliest tick of `ticks` in `[lo, hi]`.
pub open spec fn earliest_between(ticks: Seq<i32>, lo: int, hi: int) -> Option<i32>
    decreases ticks.len(),
{
    if ticks.len() == 0 {
        None
    } else {
        let prev = earliest_between(ticks.drop_last(), lo, hi);
        let t = ticks.last();
        if lo <= t && t <= hi {
            match prev {
                Some(p) => if p <= t {
                    Some(p)
                } else {
                    Some(t)
                },
                None => Some(t),
            }
        } else {
            prev
        }
    }
}

fn earliest_tick_between(ticks: &[i32], lo: i64, hi: i64) -> (r: Option<i32>)
    ensures
        r == earliest_between(ticks@, lo as int, hi as int),
        r matches Some(t) ==> lo <= t <= hi,
{
    let mut best: Option<i32> = None;
    let mut k: usize = 0;
    while k < ticks.len()
        invariant
            k <= ticks.len(),
            best == earliest_between(ticks@.take(k as int), lo as int, hi as int),
            best matches Some(t) ==> lo <= t <= hi,
        decreases ticks.len() - k,
    {
        proof {
            assert(ticks@.take(k + 1).drop_last() =~= ticks@.take(k as int));
        }
        let t = ticks[k];
        if lo <= t as i64 && t as i64 <= hi {
            best = match best {
                Some(p) => if p <= t {
                    Some(p)
                } else {
                    Some(t)
                },
                None => Some(t),
            };
        }
        k = k + 1;
    }
    proof {
        assert(ticks@.take(ticks@.len() as int) =~= ticks@);
    }
    best
}

pub open spec fn opt_min(a: Option<i32>, b: Option<i32>) -> Option<i32> {
    match (a, b) {
        (Some(x), Some(y)) => if x <= y {
            Some(x)
        } else {
            Some(y)
        },
        (Some(x), None) => Some(x),
        (None, y) => y,
    }
}

/// The first bomb plant (begun or done) after the round's start tick and no
/// later than its end tick.
pub open spec fn first_plant_tick(beginplant: Seq<i32>, planted: Seq<i32>, start_tick: i32, end_tick: i32) -> Option<i32> {
    opt_min(
        earliest_between(beginplant, start_tick + 1, end_tick as int),
        earliest_between(planted, start_tick + 1, end_tick as int),
    )
}

/// The round's last exported tick when it is cut before the bomb plant: the
/// tick before the first plant, with the reason; the round's end tick and no
/// reason when nobody plants.
pub fn cut_before_bomb_plant(beginplant_ticks: &[i32], planted_ticks: &[i32], start_tick: i32, end_tick: i32) -> (r: (i32, Option<String>))
    ensures
        match first_plant_tick(beginplant_ticks@, planted_ticks@, start_tick, end_tick) {
            Some(t) => r.0 == t - 1 && (r.1 matches Some(reason) && reason@ == "before_bomb_plant_tick_"@ + signed_decimal(t as int)),
            None => r.0 == end_tick && r.1 is None,
        },
{
    let lo: i64 = start_tick as i64 + 1;
    let a = earliest_tick_between(beginplant_ticks, lo, end_tick as i64);
    let b = earliest_tick_between(planted_ticks, lo, end_tick as i64);
    let first = match (a, b) {
        (Some(x), Some(y)) => if x <= y {
            Some(x)
        } else {
            Some(y)
        },
        (Some(x), None) => Some(x),
        (None, y) => y,
    };
    match first {
        Some(t) => {
            let reason = concat_str(string_of("before_bomb_plant_tick_"), i64_decimal(t as i64).as_str());
            (t - 1, Some(reason))
        },
        None => (end_tick, None),
    }
}

/// The first bomb plant of the round, in `[start_tick, end_tick]`.
pub fn bomb_planted_tick_for_round(planted_ticks: &[i32], start_tick: i32, end_tick: i32) -> (r: Option<i32>)
    ensures
        r == earliest_between(planted_ticks@, start_tick as int, end_tick as int),
{
    earliest_tick_between(planted_ticks, start_tick as i64, end_tick as i64)
}

/// The problems of a round, joined with `"; "`.
pub open spec fn joined_problems(ps: Seq<String>) -> Seq<char>
    decreases ps.len(),
{
    if ps.len() == 0 {
        seq![]
    } else if ps.len() == 1 {
        ps[0]@
    } else {
        joined_problems(ps.drop_last()) + "; "@ + ps.last()@
    }
}

/// The round is in the selection: listed when rounds are chosen, else
/// selected by default or the suspicious ones are included.
pub open spec fn round_selected(round: RoundSummary, selected_rounds: Option<Seq<u32>>, include_suspicious: bool) -> bool {
    match selected_rounds {
        Some(v) => v.contains(round.round),
        None => round.spec_selected_by_default() || include_suspicious,
    }
}

pub open spec fn opt_seq(o: Option<&[u32]>) -> Option<Seq<u32>> {
    match o {
        Some(v) => Some(v@),
        None => None,
    }
}

pub open spec fn spec_skip_reason(round: RoundSummary, selected_rounds: Option<Seq<u32>>, include_suspicious: bool) -> Option<Seq<char>> {
    if !round_selected(round, selected_rounds, include_suspicious) {
        Some("not selected"@)
    } else if round.spec_requires_suspicious_opt_in() && !include_suspicious {
        Some("suspicious ("@ + joined_problems(round.problems@) + ")"@)
    } else {
        None
    }
}

fn contains_u32(v: &[u32], x: u32) -> (r: bool)
    ensures
        r == v@.contains(x),
{
    let mut k: usize = 0;
    while k < v.len()
        invariant
            k <= v@.len(),
            forall|a: int| 0 <= a < k ==> v@[a] != x,
        decreases v.len() - k,
    {
        if v[k] == x {
            return true;
        }
        k = k + 1;
    }
    false
}

/// Why an export skips a round, or `None` when it writes it.
pub fn round_skip_reason(round: &RoundSummary, selected_rounds: Option<&[u32]>, include_suspicious: bool) -> (r: Option<String>)
    ensures
        (match r {
            Some(s) => Some(s@),
            None => None,
        }) == spec_skip_reason(*round, opt_seq(selected_rounds), include_suspicious),
{
    let selected = match selected_rounds {
        Some(rounds) => contains_u32(rounds, round.round),
        None => round.selected_by_default() || include_suspicious,
    };
    if !selected {
        return Some(string_of("not selected"));
    }
    if round.requires_suspicious_opt_in() && !include_suspicious {
        let mut text = string_of("suspicious (");
        let mut k: usize = 0;
        while k < round.problems.len()
            invariant
                k <= round.problems@.len(),
                text@ == "suspicious ("@ + joined_problems(round.problems@.take(k as int)),
            decreases round.problems.len() - k,
        {
            proof {
                assert(round.problems@.take(k + 1).drop_last() =~= round.problems@.take(k as int));
                assert(round.problems@.take(k + 1).last() == round.problems@[k as int]);
            }
            if k > 0 {
                text = concat_str(text, "; ");
            }
            text = concat_str(text, round.problems[k].as_str());
            proof {
                if k == 0 {
                    assert(joined_problems(round.problems@.take(1)) == round.problems@[0]@);
                    assert(joined_problems(round.problems@.take(0)) =~= Seq::<char>::empty());
                }
            }
            k = k + 1;
        }
        proof {
            assert(round.problems@.take(round.problems@.len() as int) =~= round.problems@);
        }
        return Some(concat_str(text, ")"));
    }
    None
}

/// Where a player's recording starts: the first of the player's rows
/// (all but the last) at or after the live start, else the one before the
/// last; 0 for fewer than two rows. The index is cast to `u32`.
pub open spec fn spec_play_start_index(ticks: Seq<i32>, live: i32) -> u32 {
    let n = if ticks.len() == 0 {
        0
    } else {
        ticks.len() - 1
    };
    if n == 0 {
        0
    } else if exists|i: int| 0 <= i < n && ticks[i] >= live {
        (choose|i: int| 0 <= i < n && ticks[i] >= live && forall|j: int| 0 <= j < i ==> ticks[j] < live) as u32
    } else {
        (n - 1) as u32
    }
}

pub fn play_start_tick_index(row_ticks: &[i32], live_start_tick: i32) -> (r: u32)
    ensures
        r == spec_play_start_index(row_ticks@, live_start_tick),
{
    let tick_count: usize = if row_ticks.len() == 0 {
        0
    } else {
        row_ticks.len() - 1
    };
    if tick_count == 0 {
        return 0;
    }
    let mut i: usize = 0;
    while i < tick_count
        invariant
            i <= tick_count,
            tick_count == row_ticks@.len() - 1,
            forall|j: int| 0 <= j < i ==> row_ticks@[j] < live_start_tick,
        decreases tick_count - i,
    {
        if row_ticks[i] >= live_start_tick {
            proof {
                let c = choose|c: int| 0 <= c < tick_count && row_ticks@[c] >= live_start_tick && forall|j: int| 0 <= j < c ==> row_ticks@[j] < live_start_tick;
                if c < i {
                    assert(row_ticks@[c] < live_start_tick);
                } else if c > i {
                    assert(row_ticks@[i as int] < live_start_tick);
                }
            }
            return i as u32;
        }
        i = i + 1;
    }
    (tick_count - 1) as u32
}

pub open spec fn slug_chars(s: Seq<char>) -> Seq<char>
    decreases s.len(),
{
    if s.len() == 0 {
        seq![]
    } else {
        let c = s.last();
        let prev = slug_chars(s.drop_last());
        if crate::event_text::is_ascii_alnum(c) || c == '-' || c == '_' {
            prev.push(c)
        } else if crate::text::is_whitespace(c) {
            prev.push('_')
        } else {
            prev
        }
    }
}

/// A name as a file-name slug: letters, digits, `-` and `_` kept, whitespace
/// as `_`, anything else dropped; `player` when nothing is left.
pub open spec fn spec_slug(s: Seq<char>) -> Seq<char> {
    if slug_chars(s).len() == 0 {
        "player"@
    } else {
        slug_chars(s)
    }
}

pub fn slugify(value: &str) -> (r: String)
    ensures
        r@ == spec_slug(value@),
{
    let chars = crate::text::chars_of(value);
    let mut out: Vec<char> = Vec::new();
    let mut i: usize = 0;
    while i < chars.len()
        invariant
            i <= chars.len(),
            out@ == slug_chars(chars@.take(i as int)),
        decreases chars.len() - i,
    {
        proof {
            assert(chars@.take(i + 1).drop_last() =~= chars@.take(i as int));
            assert(chars@.take(i + 1).last() == chars@[i as int]);
        }
        let c = chars[i];
        if ('a' <= c && c <= 'z') || ('A' <= c && c <= 'Z') || ('0' <= c && c <= '9') || c == '-' || c == '_' {
            out.push(c);
        } else if crate::text::char_is_whitespace(c) {
            out.push('_');
        }
        i = i + 1;
    }
    proof {
        assert(chars@.take(chars@.len() as int) =~= chars@);
    }
    if out.len() == 0 {
        string_of("player")
    } else {
        crate::text::string_from_chars(&out)
    }
}

/// A row that goes into a round's player files: a living player of the
/// exported side between the recording start and the export end, frozen
/// when it is before the live start.
pub open spec fn file_row(r: PhaseRow, rec: int, start: i32, end: int, side: Side) -> bool {
    &&& rec <= r.tick <= end
    &&& !(r.tick < start && !r.is_freeze_period)
    &&& r.is_alive
    &&& r.steam_id != 0
    &&& side_matches_team(side, r.team_num)
}

pub open spec fn file_seen(rows: Seq<PhaseRow>, p: u64, rec: int, start: i32, end: int, side: Side) -> bool {
    exists|i: int| 0 <= i < rows.len() && file_row(#[trigger] rows[i], rec, start, end, side) && rows[i].steam_id == p
}

/// The player has file rows at two different ticks.
pub open spec fn two_file_ticks(rows: Seq<PhaseRow>, p: u64, rec: int, start: i32, end: int, side: Side) -> bool {
    exists|i: int, j: int|
        0 <= i < rows.len() && 0 <= j < rows.len() && file_row(#[trigger] rows[i], rec, start, end, side)
            && file_row(#[trigger] rows[j], rec, start, end, side) && rows[i].steam_id == p && rows[j].steam_id == p
            && rows[i].tick != rows[j].tick
}

/// Number of distinct players of `rows` with file rows at two different
/// ticks of `whole`.
pub open spec fn file_count(rows: Seq<PhaseRow>, whole: Seq<PhaseRow>, rec: int, start: i32, end: int, side: Side) -> nat
    decreases rows.len(),
{
    if rows.len() == 0 {
        0
    } else {
        let r = rows.last();
        file_count(rows.drop_last(), whole, rec, start, end, side) + if file_row(r, rec, start, end, side)
            && !file_seen(rows.drop_last(), r.steam_id, rec, start, end, side)
            && two_file_ticks(whole, r.steam_id, rec, start, end, side) {
            1nat
        } else {
            0nat
        }
    }
}

proof fn lemma_file_count_bound(rows: Seq<PhaseRow>, whole: Seq<PhaseRow>, rec: int, start: i32, end: int, side: Side)
    ensures
        file_count(rows, whole, rec, start, end, side) <= rows.len(),
    decreases rows.len(),
{
    if rows.len() > 0 {
        lemma_file_count_bound(rows.drop_last(), whole, rec, start, end, side);
    }
}

/// The last tick a round's files hold.
pub open spec fn export_end_tick(beginplant: Seq<i32>, planted: Seq<i32>, start: i32, end: i32, cut: bool) -> int {
    if cut {
        match first_plant_tick(beginplant, planted, start, end) {
            Some(t) => t - 1,
            None => end as int,
        }
    } else {
        end as int
    }
}

/// The number of player files a round's export writes: the players with
/// file rows at two ticks at least; none when the export ends by the live
/// start.
pub open spec fn spec_round_files(
    rows: Seq<PhaseRow>,
    start: i32,
    end: i32,
    beginplant: Seq<i32>,
    planted: Seq<i32>,
    cut: bool,
    cap: i32,
    side: Side,
) -> nat {
    let e = export_end_tick(beginplant, planted, start, end, cut);
    if e <= start {
        0
    } else {
        file_count(rows, rows, spec_recording_start(rows, cap, start), start, e, side)
    }
}

fn has_two_file_ticks(rows: &[PhaseRow], p: u64, rec: i32, start: i32, end: i32, side: Side) -> (r: bool)
    ensures
        r == two_file_ticks(rows@, p, rec as int, start, end as int, side),
{
    let mut first: Option<i32> = None;
    let ghost mut first_at: int = 0;
    let mut j: usize = 0;
    while j < rows.len()
        invariant
            j <= rows@.len(),
            first is None ==> forall|a: int| 0 <= a < j ==> !(file_row(#[trigger] rows@[a], rec as int, start, end as int, side) && rows@[a].steam_id == p),
            first matches Some(t0) ==> 0 <= first_at < j && file_row(rows@[first_at], rec as int, start, end as int, side) && rows@[first_at].steam_id == p
                && rows@[first_at].tick == t0
                && forall|a: int| 0 <= a < j && file_row(#[trigger] rows@[a], rec as int, start, end as int, side) && rows@[a].steam_id == p ==> rows@[a].tick == t0,
        decreases rows.len() - j,
    {
        let r = &rows[j];
        if r.tick >= rec && r.tick <= end && !(r.tick < start && !r.is_freeze_period) && r.is_alive && r.steam_id != 0
            && side.matches_team(r.team_num) && r.steam_id == p {
            match first {
                None => {
                    first = Some(r.tick);
                    proof {
                        first_at = j as int;
                    }
                },
                Some(t0) => {
                    if r.tick != t0 {
                        proof {
                            assert(file_row(rows@[j as int], rec as int, start, end as int, side));
                            assert(file_row(rows@[first_at], rec as int, start, end as int, side));
                        }
                        return true;
                    }
                },
            }
        }
        j = j + 1;
    }
    proof {
        if two_file_ticks(rows@, p, rec as int, start, end as int, side) {
            let (a, b) = choose|a: int, b: int|
                0 <= a < rows@.len() && 0 <= b < rows@.len() && file_row(#[trigger] rows@[a], rec as int, start, end as int, side)
                    && file_row(#[trigger] rows@[b], rec as int, start, end as int, side) && rows@[a].steam_id == p
                    && rows@[b].steam_id == p && rows@[a].tick != rows@[b].tick;
            assert(file_row(rows@[a], rec as int, start, end as int, side) && rows@[a].steam_id == p);
            assert(file_row(rows@[b], rec as int, start, end as int, side) && rows@[b].steam_id == p);
        }
    }
    false
}

/// Estimates how many player files a round's export writes.
pub fn estimate_round_files(
    round_rows: &[PhaseRow],
    start_tick: i32,
    end_tick: i32,
    beginplant_ticks: &[i32],
    planted_ticks: &[i32],
    cut_before_plant: bool,
    preroll_ticks: i32,
    side: Side,
) -> (r: usize)
    ensures
        r == spec_round_files(round_rows@, start_tick, end_tick, beginplant_ticks@, planted_ticks@, cut_before_plant, preroll_ticks, side),
{
    let end: i32 = if cut_before_plant {
        cut_before_bomb_plant(beginplant_ticks, planted_ticks, start_tick, end_tick).0
    } else {
        end_tick
    };
    if end <= start_tick {
        return 0;
    }
    let rec = recording_start_tick_for_round(round_rows, preroll_ticks, start_tick);
    let ghost whole = round_rows@;
    let mut seen: Vec<u64> = Vec::new();
    let mut count: usize = 0;
    let mut k: usize = 0;
    while k < round_rows.len()
        invariant
            k <= round_rows@.len(),
            whole == round_rows@,
            count == file_count(round_rows@.take(k as int), whole, rec as int, start_tick, end as int, side),
            count <= k,
            forall|p: u64| seen@.contains(p) <==> file_seen(round_rows@.take(k as int), p, rec as int, start_tick, end as int, side),
        decreases round_rows.len() - k,
    {
        let r = &round_rows[k];
        let ghost old_seen = seen@;
        let ghost pre = round_rows@.take(k as int);
        let ghost now = round_rows@.take(k + 1);
        proof {
            assert(now.drop_last() =~= pre);
            assert(now.last() == round_rows@[k as int]);
        }
        assert(forall|p: u64| old_seen.contains(p) <==> file_seen(pre, p, rec as int, start_tick, end as int, side));
        if r.tick >= rec && r.tick <= end && !(r.tick < start_tick && !r.is_freeze_period) && r.is_alive && r.steam_id != 0
            && side.matches_team(r.team_num) {
            let mut found = false;
            let mut j: usize = 0;
            while j < seen.len()
                invariant
                    j <= seen@.len(),
                    found <==> exists|a: int| 0 <= a < j && seen@[a] == r.steam_id,
                decreases seen.len() - j,
            {
                if seen[j] == r.steam_id {
                    found = true;
                }
                j = j + 1;
            }
            proof {
                assert(found <==> old_seen.contains(r.steam_id));
            }
            if !found {
                seen.push(r.steam_id);
                proof {
                    assert(seen@[seen@.len() - 1] == r.steam_id);
                    assert forall|a: int| 0 <= a < old_seen.len() implies seen@[a] == old_seen[a] by {}
                }
                if has_two_file_ticks(round_rows, r.steam_id, rec, start_tick, end, side) {
                    count = count + 1;
                }
            }
            proof {
                assert(seen@.contains(r.steam_id));
            }
        }
        proof {
            assert forall|p: u64| seen@.contains(p) <==> file_seen(now, p, rec as int, start_tick, end as int, side) by {
                if seen@.contains(p) {
                    let a = choose|a: int| 0 <= a < seen@.len() && seen@[a] == p;
                    if a < old_seen.len() {
                        assert(old_seen[a] == p);
                        assert(old_seen.contains(p));
                        let i = choose|i: int| 0 <= i < pre.len() && file_row(#[trigger] pre[i], rec as int, start_tick, end as int, side) && pre[i].steam_id == p;
                        assert(now[i] == pre[i]);
                    } else {
                        assert(file_row(now[k as int], rec as int, start_tick, end as int, side));
                    }
                }
                if file_seen(now, p, rec as int, start_tick, end as int, side) {
                    let i = choose|i: int| 0 <= i < now.len() && file_row(#[trigger] now[i], rec as int, start_tick, end as int, side) && now[i].steam_id == p;
                    if i < k {
                        assert(pre[i] == now[i]);
                        assert(file_seen(pre, p, rec as int, start_tick, end as int, side));
                        assert(old_seen.contains(p));
                        let a = choose|a: int| 0 <= a < old_seen.len() && old_seen[a] == p;
                        assert(seen@[a] == old_seen[a]);
                    }
                }
            }
        }
        k = k + 1;
    }
    proof {
        assert(round_rows@.take(round_rows@.len() as int) =~= round_rows@);
    }
    count
}

/// What an export selects: the side, the chosen rounds (all by default), the
/// suspicious opt-in, the cut before a bomb plant and the freeze-time
/// pre-roll in ticks.
#[derive(Clone, Debug)]
pub struct ExportSelection {
    pub side: Side,
    pub selected_rounds: Option<Vec<u32>>,
    pub include_suspicious: bool,
    pub cut_before_bomb_plant: bool,
    pub freeze_preroll_ticks: i32,
}

pub open spec fn selection_rounds(s: ExportSelection) -> Option<Seq<u32>> {
    match s.selected_rounds {
        Some(v) => Some(v@),
        None => None,
    }
}

/// The rows of one round, in order.
pub open spec fn rows_of_round(rows: Seq<PhaseRow>, round: u32) -> Seq<PhaseRow>
    decreases rows.len(),
{
    if rows.len() == 0 {
        seq![]
    } else if rows.last().round == round {
        rows_of_round(rows.drop_last(), round).push(rows.last())
    } else {
        rows_of_round(rows.drop_last(), round)
    }
}

proof fn lemma_rows_of_round_len(rows: Seq<PhaseRow>, round: u32)
    ensures
        rows_of_round(rows, round).len() <= rows.len(),
    decreases rows.len(),
{
    if rows.len() > 0 {
        lemma_rows_of_round_len(rows.drop_last(), round);
    }
}

fn round_rows_of(rows: &[PhaseRow], round: u32) -> (r: Vec<PhaseRow>)
    ensures
        r@ == rows_of_round(rows@, round),
{
    let mut out: Vec<PhaseRow> = Vec::new();
    let mut k: usize = 0;
    while k < rows.len()
        invariant
            k <= rows.len(),
            out@ == rows_of_round(rows@.take(k as int), round),
        decreases rows.len() - k,
    {
        proof {
            assert(rows@.take(k + 1).drop_last() =~= rows@.take(k as int));
            assert(rows@.take(k + 1).last() == rows@[k as int]);
        }
        if rows[k].round == round {
            out.push(rows[k]);
        }
        k = k + 1;
    }
    proof {
        assert(rows@.take(rows@.len() as int) =~= rows@);
    }
    out
}

/// The number of rounds an export writes and of the player files it
/// writes for them.
pub open spec fn spec_selection_summary(
    rows: Seq<PhaseRow>,
    rounds: Seq<RoundSummary>,
    sel: ExportSelection,
    beginplant: Seq<i32>,
    planted: Seq<i32>,
) -> (nat, nat)
    decreases rounds.len(),
{
    if rounds.len() == 0 {
        (0, 0)
    } else {
        let prev = spec_selection_summary(rows, rounds.drop_last(), sel, beginplant, planted);
        let round = rounds.last();
        if spec_skip_reason(round, selection_rounds(sel), sel.include_suspicious) is None {
            (
                prev.0 + 1,
                prev.1 + spec_round_files(
                    rows_of_round(rows, round.round),
                    round.start_tick,
                    round.end_tick,
                    beginplant,
                    planted,
                    sel.cut_before_bomb_plant,
                    sel.freeze_preroll_ticks,
                    sel.side,
                ),
            )
        } else {
            prev
        }
    }
}

proof fn lemma_round_files_bound(
    rows: Seq<PhaseRow>,
    start: i32,
    end: i32,
    beginplant: Seq<i32>,
    planted: Seq<i32>,
    cut: bool,
    cap: i32,
    side: Side,
)
    ensures
        spec_round_files(rows, start, end, beginplant, planted, cut, cap, side) <= rows.len(),
{
    let e = export_end_tick(beginplant, planted, start, end, cut);
    lemma_file_count_bound(rows, rows, spec_recording_start(rows, cap, start), start, e, side);
}

/// How many rounds a selection writes and an estimate of its player files.
/// The counts must fit a `usize` (they overflow otherwise).
pub fn selected_round_summary(
    rows: &[PhaseRow],
    rounds: &[RoundSummary],
    selection: &ExportSelection,
    beginplant_ticks: &[i32],
    planted_ticks: &[i32],
) -> (r: (usize, usize))
    requires
        rounds@.len() * rows@.len() <= usize::MAX,
    ensures
        r.0 as nat == spec_selection_summary(rows@, rounds@, *selection, beginplant_ticks@, planted_ticks@).0,
        r.1 as nat == spec_selection_summary(rows@, rounds@, *selection, beginplant_ticks@, planted_ticks@).1,
{
    let chosen: Option<&[u32]> = match &selection.selected_rounds {
        Some(v) => Some(v.as_slice()),
        None => None,
    };
    let mut selected: usize = 0;
    let mut files: usize = 0;
    let mut k: usize = 0;
    while k < rounds.len()
        invariant
            k <= rounds@.len(),
            rounds@.len() * rows@.len() <= usize::MAX,
            opt_seq(chosen) == selection_rounds(*selection),
            selected as nat == spec_selection_summary(rows@, rounds@.take(k as int), *selection, beginplant_ticks@, planted_ticks@).0,
            files as nat == spec_selection_summary(rows@, rounds@.take(k as int), *selection, beginplant_ticks@, planted_ticks@).1,
            selected <= k,
            files <= k * rows@.len(),
        decreases rounds.len() - k,
    {
        proof {
            assert(rounds@.take(k + 1).drop_last() =~= rounds@.take(k as int));
            assert(rounds@.take(k + 1).last() == rounds@[k as int]);
        }
        let round = &rounds[k];
        if round_skip_reason(round, chosen, selection.include_suspicious).is_none() {
            let round_rows = round_rows_of(rows, round.round);
            let n = estimate_round_files(
                round_rows.as_slice(),
                round.start_tick,
                round.end_tick,
                beginplant_ticks,
                planted_ticks,
                selection.cut_before_bomb_plant,
                selection.freeze_preroll_ticks,
                selection.side,
            );
            proof {
                lemma_rows_of_round_len(rows@, round.round);
                lemma_round_files_bound(
                    round_rows@,
                    round.start_tick,
                    round.end_tick,
                    beginplant_ticks@,
                    planted_ticks@,
                    selection.cut_before_bomb_plant,
                    selection.freeze_preroll_ticks,
                    selection.side,
                );
                assert(k + 1 <= rounds@.len());
                assert((k + 1) * rows@.len() <= rounds@.len() * rows@.len()) by (nonlinear_arith)
                    requires
                        k + 1 <= rounds@.len(),
                ;
                assert((k + 1) * rows@.len() == k * rows@.len() + rows@.len()) by (nonlinear_arith);
            }
            selected = selected + 1;
            files = files + n;
        } else {
            proof {
                assert((k + 1) * rows@.len() == k * rows@.len() + rows@.len()) by (nonlinear_arith);
            }
        }
        k = k + 1;
    }
    proof {
        assert(rounds@.take(rounds@.len() as int) =~= rounds@);
    }
    (selected, files)
}

/// `i` is the first row of `rows` that is a file row of `p` at its tick.
pub open spec fn first_file_row_at_tick(rows: Seq<PhaseRow>, p: u64, i: int, rec: int, start: i32, end: int, side: Side) -> bool {
    &&& 0 <= i < rows.len()
    &&& file_row(rows[i], rec, start, end, side)
    &&& rows[i].steam_id == p
    &&& forall|j: int| 0 <= j < i && #[trigger] rows[j].tick == rows[i].tick ==> !(file_row(rows[j], rec, start, end, side) && rows[j].steam_id == p)
}

/// `idx` lists the player's file rows by tick, one row per tick (the first
/// of the rows at that tick), ticks ascending.
pub open spec fn player_rows_listed(rows: Seq<PhaseRow>, p: u64, idx: Seq<usize>, rec: int, start: i32, end: int, side: Side) -> bool {
    &&& forall|a: int| 0 <= a < idx.len() ==> first_file_row_at_tick(rows, p, #[trigger] idx[a] as int, rec, start, end, side)
    &&& forall|a: int, b: int| 0 <= a < b < idx.len() ==> rows[#[trigger] idx[a] as int].tick < rows[#[trigger] idx[b] as int].tick
    &&& forall|i: int| 0 <= i < rows.len() && file_row(#[trigger] rows[i], rec, start, end, side) && rows[i].steam_id == p
        ==> exists|a: int| 0 <= a < idx.len() && rows[#[trigger] idx[a] as int].tick == rows[i].tick
}


#[verifier::rlimit(100)]
#[verifier::spinoff_prover]
fn insert_by_tick(idx: &mut Vec<usize>, rows: &[PhaseRow], k: usize, p: u64, rec: i32, start: i32, end: i32, side: Side)
    requires
        k < rows@.len(),
        file_row(rows@[k as int], rec as int, start, end as int, side),
        rows@[k as int].steam_id == p,
        forall|a: int| 0 <= a < old(idx)@.len() ==> #[trigger] old(idx)@[a] < k,
        forall|a: int| 0 <= a < old(idx)@.len() ==> first_file_row_at_tick(rows@, p, #[trigger] old(idx)@[a] as int, rec as int, start, end as int, side),
        forall|a: int, b: int| 0 <= a < b < old(idx)@.len() ==> rows@[#[trigger] old(idx)@[a] as int].tick < rows@[#[trigger] old(idx)@[b] as int].tick,
        forall|i: int| 0 <= i < k && file_row(#[trigger] rows@[i], rec as int, start, end as int, side) && rows@[i].steam_id == p
            ==> exists|a: int| 0 <= a < old(idx)@.len() && rows@[#[trigger] old(idx)@[a] as int].tick == rows@[i].tick,
    ensures
        forall|a: int| 0 <= a < final(idx)@.len() ==> #[trigger] final(idx)@[a] < k + 1,
        forall|a: int| 0 <= a < final(idx)@.len() ==> first_file_row_at_tick(rows@, p, #[trigger] final(idx)@[a] as int, rec as int, start, end as int, side),
        forall|a: int, b: int| 0 <= a < b < final(idx)@.len() ==> rows@[#[trigger] final(idx)@[a] as int].tick < rows@[#[trigger] final(idx)@[b] as int].tick,
        forall|i: int| 0 <= i < k + 1 && file_row(#[trigger] rows@[i], rec as int, start, end as int, side) && rows@[i].steam_id == p
            ==> exists|a: int| 0 <= a < final(idx)@.len() && rows@[#[trigger] final(idx)@[a] as int].tick == rows@[i].tick,
{
    let r = rows[k];
            let t = r.tick;
    let mut q: usize = idx.len();
    while q > 0 && rows[idx[q - 1]].tick > t
        invariant
            q <= idx@.len(),
            forall|a: int| 0 <= a < idx@.len() ==> #[trigger] idx@[a] < k,
            k < rows@.len(),
            forall|a: int| q <= a < idx@.len() ==> rows@[#[trigger] idx@[a] as int].tick > t,
        decreases q,
    {
        q = q - 1;
    }
    let ghost old_idx = idx@;
    if q > 0 && rows[idx[q - 1]].tick == t {
        proof {
            assert(rows@[old_idx[q - 1] as int].tick == rows@[k as int].tick);
        }
    } else {
        proof {
            assert forall|a: int| 0 <= a < old_idx.len() implies rows@[#[trigger] old_idx[a] as int].tick != t by {
                if a < q - 1 {
                    assert(rows@[old_idx[a] as int].tick < rows@[old_idx[q - 1] as int].tick);
                } else if a == q - 1 {
                } else {
                    assert(a >= q);
                }
            }
            assert forall|j: int| 0 <= j < k && #[trigger] rows@[j].tick == rows@[k as int].tick implies !(file_row(rows@[j], rec as int, start, end as int, side) && rows@[j].steam_id == p) by {
                if file_row(rows@[j], rec as int, start, end as int, side) && rows@[j].steam_id == p {
                    let a = choose|a: int| 0 <= a < old_idx.len() && rows@[#[trigger] old_idx[a] as int].tick == rows@[j].tick;
                    assert(rows@[old_idx[a] as int].tick != t);
                }
            }
        }
        idx.insert(q, k);
        proof {
            assert(idx@ == old_idx.insert(q as int, k));
            assert forall|a: int, b: int| 0 <= a < b < idx@.len() implies rows@[#[trigger] idx@[a] as int].tick < rows@[#[trigger] idx@[b] as int].tick by {
                if a < q && b < q {
                    assert(idx@[a] == old_idx[a] && idx@[b] == old_idx[b]);
                } else if a < q && b == q {
                    assert(idx@[a] == old_idx[a]);
                    if a < q - 1 {
                        assert(rows@[old_idx[a] as int].tick < rows@[old_idx[q - 1] as int].tick);
                    }
                    assert(rows@[old_idx[q - 1] as int].tick != t);
                } else if a < q {
                    assert(idx@[a] == old_idx[a] && idx@[b] == old_idx[b - 1]);
                } else if a == q {
                    assert(idx@[b] == old_idx[b - 1]);
                } else {
                    assert(idx@[a] == old_idx[a - 1] && idx@[b] == old_idx[b - 1]);
                }
            }
            assert forall|a: int| 0 <= a < idx@.len() implies first_file_row_at_tick(rows@, p, #[trigger] idx@[a] as int, rec as int, start, end as int, side) by {
                if a < q {
                    assert(idx@[a] == old_idx[a]);
                } else if a > q {
                    assert(idx@[a] == old_idx[a - 1]);
                }
            }
            assert forall|a: int| 0 <= a < idx@.len() implies #[trigger] idx@[a] < k + 1 by {
                if a < q {
                    assert(idx@[a] == old_idx[a]);
                } else if a > q {
                    assert(idx@[a] == old_idx[a - 1]);
                }
            }
            assert forall|i: int| 0 <= i < k + 1 && file_row(#[trigger] rows@[i], rec as int, start, end as int, side) && rows@[i].steam_id == p
                implies exists|a: int| 0 <= a < idx@.len() && rows@[#[trigger] idx@[a] as int].tick == rows@[i].tick by {
                if i < k {
                    let a = choose|a: int| 0 <= a < old_idx.len() && rows@[#[trigger] old_idx[a] as int].tick == rows@[i].tick;
                    if a < q {
                        assert(idx@[a] == old_idx[a]);
                    } else {
                        assert(idx@[a + 1] == old_idx[a]);
                    }
                } else {
                    assert(idx@[q as int] == k);
                }
            }
        }
    }
}

/// The player's file rows by tick, ticks ascending, the first row of each
/// tick kept.
fn player_row_indices(rows: &[PhaseRow], p: u64, rec: i32, start: i32, end: i32, side: Side) -> (idx: Vec<usize>)
    ensures
        player_rows_listed(rows@, p, idx@, rec as int, start, end as int, side),
{
    let mut idx: Vec<usize> = Vec::new();
    let mut k: usize = 0;
    while k < rows.len()
        invariant
            k <= rows@.len(),
            forall|a: int| 0 <= a < idx@.len() ==> #[trigger] idx@[a] < k,
            forall|a: int| 0 <= a < idx@.len() ==> first_file_row_at_tick(rows@, p, #[trigger] idx@[a] as int, rec as int, start, end as int, side),
            forall|a: int, b: int| 0 <= a < b < idx@.len() ==> rows@[#[trigger] idx@[a] as int].tick < rows@[#[trigger] idx@[b] as int].tick,
            forall|i: int| 0 <= i < k && file_row(#[trigger] rows@[i], rec as int, start, end as int, side) && rows@[i].steam_id == p
                ==> exists|a: int| 0 <= a < idx@.len() && rows@[#[trigger] idx@[a] as int].tick == rows@[i].tick,
        decreases rows.len() - k,
    {
        let r = rows[k];
        if r.tick >= rec && r.tick <= end && !(r.tick < start && !r.is_freeze_period) && r.is_alive && r.steam_id != 0
            && side.matches_team(r.team_num) && r.steam_id == p {
            insert_by_tick(&mut idx, rows, k, p, rec, start, end, side);
        }
        k = k + 1;
    }
    idx
}

/// One player of a round's export: the Steam ID and the rows of the
/// player's file, one per tick, ticks ascending (indices into the round's
/// rows). A file is written when it has two rows at least.
#[derive(Clone, Debug)]
pub struct PlayerPlan {
    pub steam_id: u64,
    pub rows: Vec<usize>,
}

/// What the export of a round does: the reason it is skipped, or the tick
/// range it records (with the cut reason) and its players in Steam ID order.
#[derive(Clone, Debug)]
pub struct RoundPlan {
    pub skip_reason: Option<String>,
    pub end_tick: i32,
    pub cut_reason: Option<String>,
    pub recording_start_tick: i32,
    pub players: Vec<PlayerPlan>,
}

pub open spec fn opt_chars(o: Option<String>) -> Option<Seq<char>> {
    match o {
        Some(s) => Some(s@),
        None => None,
    }
}

/// The cut reason as `{:?}` writes an optional reason.
pub open spec fn debug_cut_reason(o: Option<Seq<char>>) -> Seq<char> {
    match o {
        Some(s) => "Some(\""@ + s + "\")"@,
        None => "None"@,
    }
}

pub open spec fn spec_cut_reason(beginplant: Seq<i32>, planted: Seq<i32>, round: RoundSummary, cut: bool) -> Option<Seq<char>> {
    if cut {
        match first_plant_tick(beginplant, planted, round.start_tick, round.end_tick) {
            Some(t) => Some("before_bomb_plant_tick_"@ + signed_decimal(t as int)),
            None => None,
        }
    } else {
        None
    }
}

/// Why the export skips the round: not selected, suspicious, or nothing
/// left after the cut.
pub open spec fn spec_plan_skip(
    rows: Seq<PhaseRow>,
    round: RoundSummary,
    sel: ExportSelection,
    beginplant: Seq<i32>,
    planted: Seq<i32>,
) -> Option<Seq<char>> {
    match spec_skip_reason(round, selection_rounds(sel), sel.include_suspicious) {
        Some(reason) => Some(reason),
        None => if export_end_tick(beginplant, planted, round.start_tick, round.end_tick, sel.cut_before_bomb_plant)
            <= round.start_tick {
            Some("cut window empty after "@ + debug_cut_reason(spec_cut_reason(beginplant, planted, round, sel.cut_before_bomb_plant)))
        } else {
            None
        },
    }
}

fn insert_player(v: &mut Vec<u64>, x: u64)
    requires
        forall|a: int, b: int| 0 <= a < b < old(v)@.len() ==> #[trigger] old(v)@[a] < #[trigger] old(v)@[b],
    ensures
        forall|a: int, b: int| 0 <= a < b < final(v)@.len() ==> #[trigger] final(v)@[a] < #[trigger] final(v)@[b],
        forall|y: u64| #[trigger] final(v)@.contains(y) <==> (old(v)@.contains(y) || y == x),
{
    let mut q: usize = 0;
    while q < v.len() && v[q] < x
        invariant
            q <= v@.len(),
            forall|a: int| 0 <= a < q ==> v@[a] < x,
        decreases v.len() - q,
    {
        q = q + 1;
    }
    if q < v.len() && v[q] == x {
        proof {
            assert(v@[q as int] == x);
        }
        return;
    }
    let ghost before = v@;
    v.insert(q, x);
    proof {
        assert(v@ == before.insert(q as int, x));
        assert forall|a: int, b: int| 0 <= a < b < v@.len() implies #[trigger] v@[a] < #[trigger] v@[b] by {
            if b < q {
            } else if a < q && b == q {
            } else if a < q {
                assert(v@[b] == before[b - 1]);
                assert(before[q as int] > x || before[q as int] == x);
                if b - 1 > q {
                    assert(before[q as int] < before[b - 1]);
                }
            } else if a == q {
                assert(v@[b] == before[b - 1]);
                assert(before[q as int] >= x);
                if b - 1 > q {
                    assert(before[q as int] < before[b - 1]);
                }
            } else {
                assert(v@[a] == before[a - 1] && v@[b] == before[b - 1]);
            }
        }
        assert forall|y: u64| #[trigger] v@.contains(y) <==> (before.contains(y) || y == x) by {
            if v@.contains(y) {
                let a = choose|a: int| 0 <= a < v@.len() && v@[a] == y;
                if a < q {
                    assert(before[a] == y);
                } else if a > q {
                    assert(before[a - 1] == y);
                }
            }
            if before.contains(y) {
                let a = choose|a: int| 0 <= a < before.len() && before[a] == y;
                if a < q {
                    assert(v@[a] == y);
                } else {
                    assert(v@[a + 1] == y);
                }
            }
            if y == x {
                assert(v@[q as int] == x);
            }
        }
    }
}

/// The players of a round's export, in Steam ID order.
fn file_players(rows: &[PhaseRow], rec: i32, start: i32, end: i32, side: Side) -> (v: Vec<u64>)
    ensures
        forall|a: int, b: int| 0 <= a < b < v@.len() ==> #[trigger] v@[a] < #[trigger] v@[b],
        forall|p: u64| #[trigger] v@.contains(p) <==> file_seen(rows@, p, rec as int, start, end as int, side),
{
    let mut v: Vec<u64> = Vec::new();
    let mut k: usize = 0;
    while k < rows.len()
        invariant
            k <= rows@.len(),
            forall|a: int, b: int| 0 <= a < b < v@.len() ==> #[trigger] v@[a] < #[trigger] v@[b],
            forall|p: u64| #[trigger] v@.contains(p) <==> file_seen(rows@.take(k as int), p, rec as int, start, end as int, side),
        decreases rows.len() - k,
    {
        let r = rows[k];
        let ghost pre = rows@.take(k as int);
        let ghost now = rows@.take(k + 1);
        let ghost old_v = v@;
        if r.tick >= rec && r.tick <= end && !(r.tick < start && !r.is_freeze_period) && r.is_alive && r.steam_id != 0
            && side.matches_team(r.team_num) {
            insert_player(&mut v, r.steam_id);
        }
        proof {
            assert(now[k as int] == rows@[k as int]);
            assert forall|p: u64| #[trigger] v@.contains(p) <==> file_seen(now, p, rec as int, start, end as int, side) by {
                if file_seen(now, p, rec as int, start, end as int, side) {
                    let i = choose|i: int| 0 <= i < now.len() && file_row(#[trigger] now[i], rec as int, start, end as int, side) && now[i].steam_id == p;
                    if i < k {
                        assert(pre[i] == now[i]);
                        assert(file_seen(pre, p, rec as int, start, end as int, side));
                        assert(old_v.contains(p));
                    }
                }
                if old_v.contains(p) {
                    assert(file_seen(pre, p, rec as int, start, end as int, side));
                    let i = choose|i: int| 0 <= i < pre.len() && file_row(#[trigger] pre[i], rec as int, start, end as int, side) && pre[i].steam_id == p;
                    assert(now[i] == pre[i]);
                }
            }
        }
        k = k + 1;
    }
    proof {
        assert(rows@.take(rows@.len() as int) =~= rows@);
    }
    v
}

/// The plan has an entry for the player.
pub open spec fn plans_player(players: Seq<PlayerPlan>, p: u64) -> bool {
    exists|a: int| 0 <= a < players.len() && #[trigger] players[a].steam_id == p
}

/// The plan of a round's export. A skipped round has no players; otherwise
/// the round records from the recording start to the (cut) end tick, and its
/// players are exactly those with file rows, in Steam ID order, each with
/// the rows of its file.
pub fn plan_round_export(
    round_rows: &[PhaseRow],
    round: &RoundSummary,
    selection: &ExportSelection,
    beginplant_ticks: &[i32],
    planted_ticks: &[i32],
) -> (r: RoundPlan)
    ensures
        opt_chars(r.skip_reason) == spec_plan_skip(round_rows@, *round, *selection, beginplant_ticks@, planted_ticks@),
        opt_chars(r.cut_reason) == spec_cut_reason(beginplant_ticks@, planted_ticks@, *round, selection.cut_before_bomb_plant),
        r.skip_reason is Some ==> r.players@.len() == 0,
        plan_rows_in(r.players@, round_rows@.len() as int),
        r.skip_reason is None ==> r.end_tick == export_end_tick(beginplant_ticks@, planted_ticks@, round.start_tick, round.end_tick, selection.cut_before_bomb_plant),
        r.skip_reason is None ==> r.recording_start_tick == spec_recording_start(round_rows@, selection.freeze_preroll_ticks, round.start_tick),
        r.skip_reason is None ==> forall|a: int, b: int| 0 <= a < b < r.players@.len() ==> #[trigger] r.players@[a].steam_id < #[trigger] r.players@[b].steam_id,
        r.skip_reason is None ==> forall|p: u64| #[trigger] file_seen(round_rows@, p, r.recording_start_tick as int, round.start_tick, r.end_tick as int, selection.side)
            <==> plans_player(r.players@, p),
        r.skip_reason is None ==> forall|a: int| 0 <= a < r.players@.len() ==> player_rows_listed(
            round_rows@,
            (#[trigger] r.players@[a]).steam_id,
            r.players@[a].rows@,
            r.recording_start_tick as int,
            round.start_tick,
            r.end_tick as int,
            selection.side,
        ),
{
    let chosen: Option<&[u32]> = match &selection.selected_rounds {
        Some(v) => Some(v.as_slice()),
        None => None,
    };
    let (cut_end, cut_reason) = if selection.cut_before_bomb_plant {
        cut_before_bomb_plant(beginplant_ticks, planted_ticks, round.start_tick, round.end_tick)
    } else {
        (round.end_tick, None)
    };
    if let Some(reason) = round_skip_reason(round, chosen, selection.include_suspicious) {
        return RoundPlan {
            skip_reason: Some(reason),
            end_tick: cut_end,
            cut_reason,
            recording_start_tick: round.start_tick,
            players: Vec::new(),
        };
    }
    if cut_end <= round.start_tick {
        let shown = match &cut_reason {
            Some(text) => {
                let open = concat_str(string_of("Some(\""), text.as_str());
                concat_str(open, "\")")
            },
            None => string_of("None"),
        };
        let reason = concat_str(string_of("cut window empty after "), shown.as_str());
        return RoundPlan {
            skip_reason: Some(reason),
            end_tick: cut_end,
            cut_reason,
            recording_start_tick: round.start_tick,
            players: Vec::new(),
        };
    }
    let rec = recording_start_tick_for_round(round_rows, selection.freeze_preroll_ticks, round.start_tick);
    let ids = file_players(round_rows, rec, round.start_tick, cut_end, selection.side);
    let mut players: Vec<PlayerPlan> = Vec::new();
    let mut k: usize = 0;
    while k < ids.len()
        invariant
            k <= ids@.len(),
            players@.len() == k,
            forall|a: int| 0 <= a < k ==> (#[trigger] players@[a]).steam_id == ids@[a],
            forall|a: int| 0 <= a < k ==> player_rows_listed(
                round_rows@,
                (#[trigger] players@[a]).steam_id,
                players@[a].rows@,
                rec as int,
                round.start_tick,
                cut_end as int,
                selection.side,
            ),
        decreases ids.len() - k,
    {
        let p = ids[k];
        let rows = player_row_indices(round_rows, p, rec, round.start_tick, cut_end, selection.side);
        players.push(PlayerPlan { steam_id: p, rows });
        k = k + 1;
    }
    proof {
        assert forall|p: u64| file_seen(round_rows@, p, rec as int, round.start_tick, cut_end as int, selection.side)
            <==> exists|a: int| 0 <= a < players@.len() && #[trigger] players@[a].steam_id == p by {
            if file_seen(round_rows@, p, rec as int, round.start_tick, cut_end as int, selection.side) {
                assert(ids@.contains(p));
                let a = choose|a: int| 0 <= a < ids@.len() && ids@[a] == p;
                assert(players@[a].steam_id == p);
            }
            if exists|a: int| 0 <= a < players@.len() && #[trigger] players@[a].steam_id == p {
                let a = choose|a: int| 0 <= a < players@.len() && #[trigger] players@[a].steam_id == p;
                assert(ids@[a] == p);
                assert(ids@.contains(p));
            }
        }
        assert forall|a: int, b: int| 0 <= a < b < players@.len() implies #[trigger] players@[a].steam_id < #[trigger] players@[b].steam_id by {
            assert(ids@[a] < ids@[b]);
        }
    }
    assert(cut_end as int == export_end_tick(beginplant_ticks@, planted_ticks@, round.start_tick, round.end_tick, selection.cut_before_bomb_plant));
    assert(rec as int == spec_recording_start(round_rows@, selection.freeze_preroll_ticks, round.start_tick));
    assert(ids@.len() == players@.len());
    proof {
        lemma_plan_rows_in(round_rows@, players@, rec as int, round.start_tick, cut_end as int, selection.side);
    }
    assert(forall|a: int, b: int| 0 <= a < b < players@.len() ==> #[trigger] players@[a].steam_id < #[trigger] players@[b].steam_id);
    assert forall|p: u64| #[trigger] file_seen(round_rows@, p, rec as int, round.start_tick, cut_end as int, selection.side)
        <==> plans_player(players@, p) by {
        if file_seen(round_rows@, p, rec as int, round.start_tick, cut_end as int, selection.side) {
            let a = choose|a: int| 0 <= a < players@.len() && #[trigger] players@[a].steam_id == p;
        }
    }
    RoundPlan {
        skip_reason: None,
        end_tick: cut_end,
        cut_reason,
        recording_start_tick: rec,
        players,
    }
}

/// A player of the plan gets a file exactly when the player has file rows at
/// two different ticks.
pub proof fn law_file_written_iff_two_ticks(
    rows: Seq<PhaseRow>,
    p: u64,
    idx: Seq<usize>,
    rec: int,
    start: i32,
    end: int,
    side: Side,
)
    requires
        player_rows_listed(rows, p, idx, rec, start, end, side),
    ensures
        idx.len() >= 2 <==> two_file_ticks(rows, p, rec, start, end, side),
{
    if idx.len() >= 2 {
        assert(first_file_row_at_tick(rows, p, idx[0] as int, rec, start, end, side));
        assert(first_file_row_at_tick(rows, p, idx[1] as int, rec, start, end, side));
        assert(rows[idx[0] as int].tick < rows[idx[1] as int].tick);
        assert(file_row(rows[idx[0] as int], rec, start, end, side) && file_row(rows[idx[1] as int], rec, start, end, side));
    }
    if two_file_ticks(rows, p, rec, start, end, side) {
        let (i, j) = choose|i: int, j: int|
            0 <= i < rows.len() && 0 <= j < rows.len() && file_row(#[trigger] rows[i], rec, start, end, side)
                && file_row(#[trigger] rows[j], rec, start, end, side) && rows[i].steam_id == p && rows[j].steam_id == p
                && rows[i].tick != rows[j].tick;
        let a = choose|a: int| 0 <= a < idx.len() && rows[#[trigger] idx[a] as int].tick == rows[i].tick;
        let b = choose|b: int| 0 <= b < idx.len() && rows[#[trigger] idx[b] as int].tick == rows[j].tick;
        assert(a != b);
    }
}

/// Two decimal digits at least, as `{:02}` writes a number.
pub open spec fn two_digits(n: u32) -> Seq<char> {
    if n < 10 {
        seq!['0'] + crate::text::decimal(n as nat)
    } else {
        crate::text::decimal(n as nat)
    }
}

pub open spec fn spec_team_dir(team_num: u8) -> Seq<char> {
    if team_num == 2 {
        "t"@
    } else if team_num == 3 {
        "ct"@
    } else {
        "unknown"@
    }
}

/// The path of a player's file: `roundNN/<side>/<steam id>_<slug>.dtr`,
/// the Steam ID standing in for an empty name.
pub open spec fn spec_player_file_path(round: u32, team_num: u8, steam_id: u64, name: Seq<char>) -> Seq<char> {
    let shown = if name.len() == 0 {
        crate::text::decimal(steam_id as nat)
    } else {
        name
    };
    "round"@ + two_digits(round) + "/"@ + spec_team_dir(team_num) + "/"@ + crate::text::decimal(steam_id as nat) + "_"@
        + spec_slug(shown) + ".dtr"@
}

pub fn player_file_path(round: u32, team_num: u8, steam_id: u64, name: &str) -> (r: String)
    ensures
        r@ == spec_player_file_path(round, team_num, steam_id, name@),
{
    let digits = crate::text::u64_decimal(round as u64);
    let number = if round < 10 {
        concat_str(string_of("0"), digits.as_str())
    } else {
        digits
    };
    let id = crate::text::u64_decimal(steam_id);
    let shown = if name.unicode_len() == 0 {
        crate::text::u64_decimal(steam_id)
    } else {
        string_of(name)
    };
    let slug = slugify(shown.as_str());
    let dir = Side::team_dir(team_num);
    assert(dir@ == spec_team_dir(team_num));
    assert(shown@ == (if name@.len() == 0 {
        crate::text::decimal(steam_id as nat)
    } else {
        name@
    }));
    proof {
        reveal_strlit("0");
    }
    assert(number@ == two_digits(round));
    let path = concat_str(string_of("round"), number.as_str());
    let path = concat_str(path, "/");
    let path = concat_str(path, dir);
    let path = concat_str(path, "/");
    let path = concat_str(path, id.as_str());
    let path = concat_str(path, "_");
    let path = concat_str(path, slug.as_str());
    let r = concat_str(path, ".dtr");
    proof {
        assert(r@ =~= spec_player_file_path(round, team_num, steam_id, name@));
    }
    r
}

/// The paths of the files a round's plan writes, in player order: one per
/// player with two rows at least, named after the player's first row.
pub open spec fn written_paths(players: Seq<PlayerPlan>, round: u32, rows: Seq<PhaseRow>, names: Seq<String>) -> Seq<Seq<char>>
    decreases players.len(),
{
    if players.len() == 0 {
        seq![]
    } else {
        let prev = written_paths(players.drop_last(), round, rows, names);
        let pl = players.last();
        if pl.rows@.len() >= 2 {
            let first = pl.rows@[0] as int;
            prev.push(spec_player_file_path(round, rows[first].team_num, pl.steam_id, names[first]@))
        } else {
            prev
        }
    }
}

/// The row indices of every player plan lie within the round's rows.
pub open spec fn plan_rows_in(players: Seq<PlayerPlan>, n: int) -> bool {
    forall|a: int, b: int| 0 <= a < players.len() && 0 <= b < players[a].rows@.len() ==> #[trigger] players[a].rows@[b] < n
}

/// The files a round's plan writes, by path, in player order; `names[i]` is
/// the name on round row `i`.
pub fn planned_file_paths(plan: &RoundPlan, round: u32, round_rows: &[PhaseRow], names: &[String]) -> (r: Vec<String>)
    requires
        names@.len() == round_rows@.len(),
        plan_rows_in(plan.players@, round_rows@.len() as int),
    ensures
        r@.len() == written_paths(plan.players@, round, round_rows@, names@).len(),
        forall|i: int| 0 <= i < r@.len() ==> #[trigger] r@[i]@ == written_paths(plan.players@, round, round_rows@, names@)[i],
{
    let mut out: Vec<String> = Vec::new();
    let mut k: usize = 0;
    while k < plan.players.len()
        invariant
            k <= plan.players@.len(),
            names@.len() == round_rows@.len(),
            plan_rows_in(plan.players@, round_rows@.len() as int),
            out@.len() == written_paths(plan.players@.take(k as int), round, round_rows@, names@).len(),
            forall|i: int| 0 <= i < out@.len() ==> #[trigger] out@[i]@ == written_paths(plan.players@.take(k as int), round, round_rows@, names@)[i],
        decreases plan.players.len() - k,
    {
        proof {
            assert(plan.players@.take(k + 1).drop_last() =~= plan.players@.take(k as int));
            assert(plan.players@.take(k + 1).last() == plan.players@[k as int]);
        }
        let pl = &plan.players[k];
        if pl.rows.len() >= 2 {
            let first = pl.rows[0];
            proof {
                assert(plan.players@[k as int].rows@[0] < round_rows@.len());
            }
            let path = player_file_path(round, round_rows[first].team_num, pl.steam_id, names[first].as_str());
            out.push(path);
        }
        k = k + 1;
    }
    proof {
        assert(plan.players@.take(plan.players@.len() as int) =~= plan.players@);
    }
    out
}

/// Number of players of a plan with two rows at least.
pub open spec fn written_count(players: Seq<PlayerPlan>) -> nat
    decreases players.len(),
{
    if players.len() == 0 {
        0
    } else {
        written_count(players.drop_last()) + if players.last().rows@.len() >= 2 {
            1nat
        } else {
            0nat
        }
    }
}

/// One path per written file: the manifest's files of a round and its
/// `.dtr` artifacts are as many as the plan's players with two rows.
pub proof fn law_one_path_per_written_file(players: Seq<PlayerPlan>, round: u32, rows: Seq<PhaseRow>, names: Seq<String>)
    ensures
        written_paths(players, round, rows, names).len() == written_count(players),
    decreases players.len(),
{
    if players.len() > 0 {
        law_one_path_per_written_file(players.drop_last(), round, rows, names);
    }
}

/// A plan's rows lie within the round's rows.
pub proof fn lemma_plan_rows_in(
    rows: Seq<PhaseRow>,
    players: Seq<PlayerPlan>,
    rec: int,
    start: i32,
    end: int,
    side: Side,
)
    requires
        forall|a: int| 0 <= a < players.len() ==> player_rows_listed(rows, (#[trigger] players[a]).steam_id, players[a].rows@, rec, start, end, side),
    ensures
        plan_rows_in(players, rows.len() as int),
{
    assert forall|a: int, b: int| 0 <= a < players.len() && 0 <= b < players[a].rows@.len() implies #[trigger] players[a].rows@[b] < rows.len() by {
        assert(player_rows_listed(rows, players[a].steam_id, players[a].rows@, rec, start, end, side));
        assert(first_file_row_at_tick(rows, players[a].steam_id, players[a].rows@[b] as int, rec, start, end, side));
    }
}

} // verus!
