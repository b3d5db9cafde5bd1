//! Round quality analysis: the stable window of each round, its player
//! counts, and whether the round is recommended, partial or suspicious.
use crate::model::{ParsedGameEvent, RoundStatus};
use vstd::prelude::*;

verus! {

/// What the round analysis reads of a player row.
#[derive(Clone, Copy, Debug, PartialEq, Eq, Structural)]
pub struct QualityRow {
    pub round: u32,
    pub tick: i32,
    pub steam_id: u64,
    pub team_num: u8,
    pub is_alive: bool,
    pub round_in_progress: bool,
    pub is_freeze_period: bool,
    /// The player's horizontal speed is at least 30 units per second.
    pub moving: bool,
}

/// Lengths of the analysis windows in ticks, from the demo's tick rate.
#[derive(Clone, Copy, Debug, PartialEq, Eq, Structural)]
pub struct AnalysisTicks {
    /// Freeze time looked at before a freeze end candidate (35 seconds).
    pub freeze_lookback: i32,
    /// Live play looked at after a freeze end candidate (12 seconds).
    pub active_lookahead: i32,
    /// Largest gap from a frozen tick to the live tick that follows it (45 seconds).
    pub transition_gap: i32,
}

/// The two round windows a row can count in.
#[derive(Clone, Copy, Debug, PartialEq, Eq, Structural)]
pub enum PlayerWindowKind {
    Freeze,
    Active,
}

/// A living player of a playing team (T = 2, CT = 3).
pub open spec fn is_team_player(row: QualityRow) -> bool {
    row.is_alive && row.steam_id != 0 && (row.team_num == 2 || row.team_num == 3)
}

pub open spec fn spec_row_qualifies(row: QualityRow, kind: PlayerWindowKind) -> bool {
    is_team_player(row) && match kind {
        PlayerWindowKind::Freeze => row.is_freeze_period,
        PlayerWindowKind::Active => row.round_in_progress && !row.is_freeze_period,
    }
}

/// A row counts in a window: a living team player, frozen for the freeze
/// window, live (round in progress, not frozen) for the active window.
pub fn row_qualifies_for_window(row: &QualityRow, kind: PlayerWindowKind) -> (r: bool)
    ensures
        r == spec_row_qualifies(*row, kind),
{
    if !row.is_alive || row.steam_id == 0 || !(row.team_num == 2 || row.team_num == 3) {
        return false;
    }
    match kind {
        PlayerWindowKind::Freeze => row.is_freeze_period,
        PlayerWindowKind::Active => row.round_in_progress && !row.is_freeze_period,
    }
}

/// The pistol rounds: the first round of each half.
pub fn is_pistol_round(round: u32) -> (r: bool)
    ensures
        r == (round == 0 || round == 12),
{
    round == 0 || round == 12
}

/// All indices point at rows.
pub open spec fn indices_valid(rows: Seq<QualityRow>, indices: Seq<usize>) -> bool {
    forall|k: int| 0 <= k < indices.len() ==> (#[trigger] indices[k]) < rows.len()
}

// ---------------------------------------------------------------------------
// Player sets
// ---------------------------------------------------------------------------

/// The distinct players seen on each side.
#[derive(Clone, Debug)]
pub struct TeamPlayerSet {
    pub t: Vec<u64>,
    pub ct: Vec<u64>,
}

impl TeamPlayerSet {
    /// No player is listed twice on a side.
    pub open spec fn wf(&self) -> bool {
        self.t@.no_duplicates() && self.ct@.no_duplicates()
    }

    pub open spec fn t_set(&self) -> Set<u64> {
        self.t@.to_set()
    }

    pub open spec fn ct_set(&self) -> Set<u64> {
        self.ct@.to_set()
    }

    /// The empty set of players.
    pub fn new() -> (r: TeamPlayerSet)
        ensures
            r.wf(),
            r.t@.len() == 0,
            r.ct@.len() == 0,
    {
        TeamPlayerSet { t: Vec::new(), ct: Vec::new() }
    }

    /// Adds the row's player to its side (T or CT); other sides are ignored.
    pub fn add(&mut self, row: &QualityRow)
        requires
            old(self).wf(),
        ensures
            final(self).wf(),
            final(self).t_set() == (if row.team_num == 2 {
                old(self).t_set().insert(row.steam_id)
            } else {
                old(self).t_set()
            }),
            final(self).ct_set() == (if row.team_num == 3 {
                old(self).ct_set().insert(row.steam_id)
            } else {
                old(self).ct_set()
            }),
            final(self).t@.len() + final(self).ct@.len() <= old(self).t@.len() + old(self).ct@.len() + 1,
    {
        if row.team_num == 2 {
            insert_distinct(&mut self.t, row.steam_id);
        } else if row.team_num == 3 {
            insert_distinct(&mut self.ct, row.steam_id);
        }
    }

    /// Number of distinct players on both sides.
    pub fn total(&self) -> (r: usize)
        requires
            self.wf(),
            self.t@.len() + self.ct@.len() <= usize::MAX,
        ensures
            r == self.t_set().len() + self.ct_set().len(),
    {
        proof {
            self.t@.unique_seq_to_set();
            self.ct@.unique_seq_to_set();
        }
        self.t.len() + self.ct.len()
    }

    /// Players counted up to five per side.
    pub fn balanced_score(&self) -> (r: usize)
        requires
            self.wf(),
        ensures
            r == spec_min5(self.t_set().len()) + spec_min5(self.ct_set().len()),
    {
        proof {
            self.t@.unique_seq_to_set();
            self.ct@.unique_seq_to_set();
        }
        let t = if self.t.len() < 5 {
            self.t.len()
        } else {
            5
        };
        let ct = if self.ct.len() < 5 {
            self.ct.len()
        } else {
            5
        };
        t + ct
    }
}

pub open spec fn spec_min5(n: nat) -> nat {
    if n < 5 {
        n
    } else {
        5
    }
}

fn insert_distinct(v: &mut Vec<u64>, id: u64)
    requires
        old(v)@.no_duplicates(),
    ensures
        final(v)@.no_duplicates(),
        final(v)@.to_set() == old(v)@.to_set().insert(id),
        final(v)@.len() <= old(v)@.len() + 1,
{
    let mut i: usize = 0;
    while i < v.len()
        invariant
            i <= v.len(),
            v@.no_duplicates(),
            forall|j: int| 0 <= j < i ==> v@[j] != id,
        decreases v.len() - i,
    {
        if v[i] == id {
            proof {
                assert(v@.to_set() =~= v@.to_set().insert(id));
            }
            return;
        }
        i = i + 1;
    }
    let ghost before = v@;
    v.push(id);
    proof {
        assert(v@ == before.push(id));
        assert forall|a: int, b: int| 0 <= a < v@.len() && 0 <= b < v@.len() && a != b implies v@[a] != v@[b] by {
            if a < before.len() && b < before.len() {
                assert(v@[a] == before[a] && v@[b] == before[b]);
            } else if a < before.len() {
                assert(v@[a] == before[a]);
            } else if b < before.len() {
                assert(v@[b] == before[b]);
            }
        }
        assert forall|x: u64| v@.contains(x) <==> (before.contains(x) || x == id) by {
            if v@.contains(x) {
                let k = choose|k: int| 0 <= k < v@.len() && v@[k] == x;
                if k < before.len() {
                    assert(before[k] == x);
                }
            }
            if before.contains(x) {
                let k = choose|k: int| 0 <= k < before.len() && before[k] == x;
                assert(v@[k] == x);
            }
            if x == id {
                assert(v@[before.len() as int] == id);
            }
        }
        assert forall|x: u64| v@.to_set().contains(x) <==> before.to_set().insert(id).contains(x) by {
            assert(v@.to_set().contains(x) == v@.contains(x));
            assert(before.to_set().contains(x) == before.contains(x));
            if v@.contains(x) {
                assert(before.contains(x) || x == id);
            }
        }
        assert(v@.to_set() =~= before.to_set().insert(id));
    }
}

/// The players of side `team` among the indexed rows that count in the
/// window `kind` between `start` and `end` (inclusive).
pub open spec fn window_players(
    rows: Seq<QualityRow>,
    indices: Seq<usize>,
    start: i32,
    end: i32,
    kind: PlayerWindowKind,
    team: u8,
) -> Set<u64> {
    Set::new(
        |id: u64|
            exists|k: int|
                0 <= k < indices.len() && {
                    let row = rows[#[trigger] indices[k] as int];
                    start <= row.tick <= end && spec_row_qualifies(row, kind) && row.team_num == team
                        && row.steam_id == id
                },
    )
}

/// The players of each side that count in a window.
pub fn count_players_in_window(
    rows: &Vec<QualityRow>,
    indices: &Vec<usize>,
    start_tick: i32,
    end_tick: i32,
    kind: PlayerWindowKind,
) -> (r: TeamPlayerSet)
    requires
        indices_valid(rows@, indices@),
    ensures
        r.wf(),
        r.t_set() == window_players(rows@, indices@, start_tick, end_tick, kind, 2),
        r.ct_set() == window_players(rows@, indices@, start_tick, end_tick, kind, 3),
        r.t@.len() + r.ct@.len() <= indices.len(),
{
    let mut players = TeamPlayerSet::new();
    let mut i: usize = 0;
    while i < indices.len()
        invariant
            i <= indices.len(),
            indices_valid(rows@, indices@),
            players.wf(),
            players.t_set() == window_players(
                rows@,
                indices@.subrange(0, i as int),
                start_tick,
                end_tick,
                kind,
                2,
            ),
            players.ct_set() == window_players(
                rows@,
                indices@.subrange(0, i as int),
                start_tick,
                end_tick,
                kind,
                3,
            ),
            players.t@.len() + players.ct@.len() <= i,
        decreases indices.len() - i,
    {
        let idx = indices[i];
        let row = rows[idx];
        let counts = row.tick >= start_tick && row.tick <= end_tick && row_qualifies_for_window(
            &row,
            kind,
        );
        let ghost old_t = players.t_set();
        let ghost old_ct = players.ct_set();
        if counts {
            players.add(&row);
        }
        proof {
            let pre = indices@.subrange(0, i as int);
            let next = indices@.subrange(0, i + 1);
            assert(next[i as int] == idx);
            assert forall|team: u8| #![auto]
                window_players(rows@, next, start_tick, end_tick, kind, team) =~= (if counts
                    && row.team_num == team {
                    window_players(rows@, pre, start_tick, end_tick, kind, team).insert(row.steam_id)
                } else {
                    window_players(rows@, pre, start_tick, end_tick, kind, team)
                }) by {
                assert forall|id: u64|
                    window_players(rows@, next, start_tick, end_tick, kind, team).contains(id)
                        <==> (if counts && row.team_num == team {
                        window_players(rows@, pre, start_tick, end_tick, kind, team).insert(
                            row.steam_id,
                        )
                    } else {
                        window_players(rows@, pre, start_tick, end_tick, kind, team)
                    }).contains(id) by {
                    if window_players(rows@, next, start_tick, end_tick, kind, team).contains(id) {
                        let k = choose|k: int|
                            0 <= k < next.len() && {
                                let r2 = rows@[#[trigger] next[k] as int];
                                start_tick <= r2.tick <= end_tick && spec_row_qualifies(r2, kind)
                                    && r2.team_num == team && r2.steam_id == id
                            };
                        if k < i {
                            assert(pre[k] == next[k]);
                        }
                    }
                    if window_players(rows@, pre, start_tick, end_tick, kind, team).contains(id) {
                        let k = choose|k: int|
                            0 <= k < pre.len() && {
                                let r2 = rows@[#[trigger] pre[k] as int];
                                start_tick <= r2.tick <= end_tick && spec_row_qualifies(r2, kind)
                                    && r2.team_num == team && r2.steam_id == id
                            };
                        assert(next[k] == pre[k]);
                    }
                }
            }
            assert(players.t_set() == window_players(rows@, next, start_tick, end_tick, kind, 2));
            assert(players.ct_set() == window_players(rows@, next, start_tick, end_tick, kind, 3));
        }
        i = i + 1;
    }
    proof {
        assert(indices@.subrange(0, indices.len() as int) =~= indices@);
    }
    players
}

// ---------------------------------------------------------------------------
// Where a round's live play starts
// ---------------------------------------------------------------------------

pub open spec fn clamp_i32(v: int) -> i32 {
    if v < i32::MIN {
        i32::MIN
    } else if v > i32::MAX {
        i32::MAX
    } else {
        v as i32
    }
}

/// Number of distinct players of both sides in a window.
pub open spec fn window_total(
    rows: Seq<QualityRow>,
    indices: Seq<usize>,
    start: i32,
    end: i32,
    kind: PlayerWindowKind,
) -> nat {
    window_players(rows, indices, start, end, kind, 2).len() + window_players(
        rows,
        indices,
        start,
        end,
        kind,
        3,
    ).len()
}

pub open spec fn min10(n: nat) -> nat {
    if n < 10 {
        n
    } else {
        10
    }
}

/// How well a freeze end candidate separates frozen from live players:
/// players live in the 12 seconds after it weigh most, then how balanced
/// they are, then players frozen in the 35 seconds before it.
pub open spec fn spec_freeze_end_quality(
    rows: Seq<QualityRow>,
    indices: Seq<usize>,
    tick: i32,
    ticks: AnalysisTicks,
) -> int {
    let before_start = clamp_i32(tick - ticks.freeze_lookback);
    let after_end = clamp_i32(tick + ticks.active_lookahead);
    let after_total = window_total(rows, indices, tick, after_end, PlayerWindowKind::Active);
    let balanced = spec_min5(window_players(rows, indices, tick, after_end, PlayerWindowKind::Active, 2).len())
        + spec_min5(window_players(rows, indices, tick, after_end, PlayerWindowKind::Active, 3).len());
    let before_total = window_total(rows, indices, before_start, tick, PlayerWindowKind::Freeze);
    (min10(after_total) * 1000 + balanced * 100 + min10(before_total) * 10) as int
}

fn saturating_add_i32(a: i32, b: i32) -> (r: i32)
    ensures
        r == clamp_i32(a + b),
{
    let v = a as i64 + b as i64;
    if v > i32::MAX as i64 {
        i32::MAX
    } else if v < i32::MIN as i64 {
        i32::MIN
    } else {
        v as i32
    }
}

fn saturating_sub_i32(a: i32, b: i32) -> (r: i32)
    ensures
        r == clamp_i32(a - b),
{
    let v = a as i64 - b as i64;
    if v > i32::MAX as i64 {
        i32::MAX
    } else if v < i32::MIN as i64 {
        i32::MIN
    } else {
        v as i32
    }
}

/// The score of a freeze end candidate.
pub fn freeze_end_quality(rows: &Vec<QualityRow>, indices: &Vec<usize>, tick: i32, ticks: AnalysisTicks) -> (r:
    i32)
    requires
        indices_valid(rows@, indices@),
    ensures
        r == spec_freeze_end_quality(rows@, indices@, tick, ticks),
{
    let before = count_players_in_window(
        rows,
        indices,
        saturating_sub_i32(tick, ticks.freeze_lookback),
        tick,
        PlayerWindowKind::Freeze,
    );
    let after = count_players_in_window(
        rows,
        indices,
        tick,
        saturating_add_i32(tick, ticks.active_lookahead),
        PlayerWindowKind::Active,
    );
    let after_total = after.total();
    let before_total = before.total();
    let after_capped: i32 = if after_total < 10 {
        after_total as i32
    } else {
        10
    };
    let before_capped: i32 = if before_total < 10 {
        before_total as i32
    } else {
        10
    };
    let balanced = after.balanced_score() as i32;
    after_capped * 1000 + balanced * 100 + before_capped * 10
}

/// `a` is not after `b` in the order of (quality, tick).
pub open spec fn quality_key_le(
    rows: Seq<QualityRow>,
    indices: Seq<usize>,
    ticks: AnalysisTicks,
    a: i32,
    b: i32,
) -> bool {
    let qa = spec_freeze_end_quality(rows, indices, a, ticks);
    let qb = spec_freeze_end_quality(rows, indices, b, ticks);
    qa < qb || (qa == qb && a <= b)
}

/// The pistol-round freeze end: the candidate of best quality, the latest on
/// a tie.
pub fn choose_pistol_freeze_end(
    rows: &Vec<QualityRow>,
    indices: &Vec<usize>,
    freeze_end_ticks: &Vec<i32>,
    ticks: AnalysisTicks,
) -> (r: Option<i32>)
    requires
        indices_valid(rows@, indices@),
    ensures
        match r {
            Some(f) => freeze_end_ticks@.contains(f) && forall|j: int|
                0 <= j < freeze_end_ticks.len() ==> quality_key_le(
                    rows@,
                    indices@,
                    ticks,
                    #[trigger] freeze_end_ticks@[j],
                    f,
                ),
            None => freeze_end_ticks.len() == 0,
        },
{
    if freeze_end_ticks.len() == 0 {
        return None;
    }
    let mut best = freeze_end_ticks[0];
    let mut best_quality = freeze_end_quality(rows, indices, best, ticks);
    let mut i: usize = 1;
    while i < freeze_end_ticks.len()
        invariant
            1 <= i <= freeze_end_ticks.len(),
            indices_valid(rows@, indices@),
            freeze_end_ticks@.contains(best),
            best_quality == spec_freeze_end_quality(rows@, indices@, best, ticks),
            forall|j: int|
                0 <= j < i ==> quality_key_le(rows@, indices@, ticks, #[trigger] freeze_end_ticks@[j], best),
        decreases freeze_end_ticks.len() - i,
    {
        let tick = freeze_end_ticks[i];
        let quality = freeze_end_quality(rows, indices, tick, ticks);
        if quality > best_quality || (quality == best_quality && tick >= best) {
            best = tick;
            best_quality = quality;
        }
        i = i + 1;
    }
    Some(best)
}

/// The indices whose rows are at or after the floor; all of them when there
/// is no floor or no row is left.
pub open spec fn spec_apply_floor(rows: Seq<QualityRow>, indices: Seq<usize>, floor: Option<i32>) -> Seq<usize> {
    match floor {
        None => indices,
        Some(f) => {
            let kept = indices.filter(|idx: usize| rows[idx as int].tick >= f);
            if kept.len() == 0 {
                indices
            } else {
                kept
            }
        },
    }
}

/// Keeps the indexed rows at or after the round's start floor.
pub fn apply_round_start_floor(rows: &Vec<QualityRow>, indices: &Vec<usize>, start_floor_tick: Option<i32>) -> (r:
    Vec<usize>)
    requires
        indices_valid(rows@, indices@),
    ensures
        r@ == spec_apply_floor(rows@, indices@, start_floor_tick),
        indices_valid(rows@, r@),
{
    let floor = match start_floor_tick {
        None => return indices.clone(),
        Some(f) => f,
    };
    let ghost pred = |idx: usize| rows@[idx as int].tick >= floor;
    let mut kept: Vec<usize> = Vec::new();
    let mut i: usize = 0;
    while i < indices.len()
        invariant
            i <= indices.len(),
            indices_valid(rows@, indices@),
            pred == (|idx: usize| rows@[idx as int].tick >= floor),
            kept@ == indices@.subrange(0, i as int).filter(pred),
            indices_valid(rows@, kept@),
        decreases indices.len() - i,
    {
        let idx = indices[i];
        proof {
            let next = indices@.subrange(0, i + 1);
            assert(next.drop_last() =~= indices@.subrange(0, i as int));
            assert(next.last() == idx);
            reveal(Seq::filter);
        }
        if rows[idx].tick >= floor {
            kept.push(idx);
        }
        i = i + 1;
    }
    proof {
        assert(indices@.subrange(0, indices.len() as int) =~= indices@);
    }
    if kept.len() == 0 {
        indices.clone()
    } else {
        kept
    }
}

/// Some indexed row counts in the window `kind` at `tick`.
pub open spec fn is_window_tick(rows: Seq<QualityRow>, indices: Seq<usize>, tick: i32, kind: PlayerWindowKind) -> bool {
    exists|k: int|
        0 <= k < indices.len() && {
            let row = rows[#[trigger] indices[k] as int];
            spec_row_qualifies(row, kind) && row.tick == tick
        }
}

/// The ticks at which some indexed row counts in the window `kind`, in
/// increasing order, each once.
pub fn window_ticks(rows: &Vec<QualityRow>, indices: &Vec<usize>, kind: PlayerWindowKind) -> (r: Vec<i32>)
    requires
        indices_valid(rows@, indices@),
    ensures
        forall|a: int, b: int| 0 <= a < b < r.len() ==> r@[a] < r@[b],
        forall|t: i32| r@.contains(t) <==> is_window_tick(rows@, indices@, t, kind),
{
    let mut out: Vec<i32> = Vec::new();
    let mut i: usize = 0;
    while i < indices.len()
        invariant
            i <= indices.len(),
            indices_valid(rows@, indices@),
            forall|a: int, b: int| 0 <= a < b < out.len() ==> out@[a] < out@[b],
            forall|t: i32|
                out@.contains(t) <==> is_window_tick(rows@, indices@.subrange(0, i as int), t, kind),
        decreases indices.len() - i,
    {
        let row = rows[indices[i]];
        let ghost old_out = out@;
        let qualifies = row_qualifies_for_window(&row, kind);
        if qualifies {
            let t = row.tick;
            let mut pos: usize = 0;
            while pos < out.len() && out[pos] < t
                invariant
                    pos <= out.len(),
                    forall|j: int| 0 <= j < pos ==> out@[j] < t,
                decreases out.len() - pos,
            {
                pos = pos + 1;
            }
            if pos == out.len() || out[pos] != t {
                out.insert(pos, t);
                proof {
                    assert forall|a: int, b: int| 0 <= a < b < out.len() implies out@[a] < out@[b] by {
                        if b < pos {
                            assert(out@[a] == old_out[a] && out@[b] == old_out[b]);
                        } else if b == pos {
                            assert(out@[a] == old_out[a]);
                        } else if a > pos {
                            assert(out@[a] == old_out[a - 1] && out@[b] == old_out[b - 1]);
                        } else if a == pos {
                            assert(out@[b] == old_out[b - 1]);
                            assert(old_out[pos as int] > t);
                            assert(old_out[pos as int] <= old_out[b - 1]);
                        } else {
                            assert(out@[a] == old_out[a] && out@[b] == old_out[b - 1]);
                            assert(old_out[a] < t);
                            if b - 1 > pos {
                                assert(old_out[pos as int] < old_out[b - 1]);
                            }
                        }
                    }
                    assert forall|x: i32| out@.contains(x) <==> (old_out.contains(x) || x == t) by {
                        if out@.contains(x) {
                            let k = choose|k: int| 0 <= k < out@.len() && out@[k] == x;
                            if k < pos {
                                assert(old_out[k] == x);
                            } else if k > pos {
                                assert(old_out[k - 1] == x);
                            }
                        }
                        if old_out.contains(x) {
                            let k = choose|k: int| 0 <= k < old_out.len() && old_out[k] == x;
                            if k < pos {
                                assert(out@[k] == x);
                            } else {
                                assert(out@[k + 1] == x);
                            }
                        }
                        if x == t {
                            assert(out@[pos as int] == t);
                        }
                    }
                }
            } else {
                proof {
                    assert(old_out[pos as int] == t);
                    assert(old_out.contains(t));
                }
            }
        }
        proof {
            assert forall|x: i32| out@.contains(x) <==> (old_out.contains(x) || (qualifies && x
                == row.tick)) by {
                if qualifies && x == row.tick && !old_out.contains(x) {
                    assert(out@.contains(x));
                }
            }
            let pre = indices@.subrange(0, i as int);
            let next = indices@.subrange(0, i + 1);
            assert(next[i as int] == indices@[i as int]);
            assert forall|x: i32| out@.contains(x) <==> is_window_tick(rows@, next, x, kind) by {
                assert(old_out.contains(x) <==> is_window_tick(rows@, pre, x, kind));
                assert(out@.contains(x) <==> (old_out.contains(x) || (qualifies && x == row.tick)));
                if is_window_tick(rows@, next, x, kind) {
                    let k = choose|k: int|
                        0 <= k < next.len() && {
                            let r2 = rows@[#[trigger] next[k] as int];
                            spec_row_qualifies(r2, kind) && r2.tick == x
                        };
                    if k < i {
                        assert(pre[k] == next[k]);
                        assert(is_window_tick(rows@, pre, x, kind));
                    } else {
                        assert(rows@[next[k] as int] == row);
                    }
                }
                if is_window_tick(rows@, pre, x, kind) {
                    let k = choose|k: int|
                        0 <= k < pre.len() && {
                            let r2 = rows@[#[trigger] pre[k] as int];
                            spec_row_qualifies(r2, kind) && r2.tick == x
                        };
                    assert(next[k] == pre[k]);
                }
                if spec_row_qualifies(row, kind) && x == row.tick {
                    assert(rows@[next[i as int] as int] == row);
                    assert(is_window_tick(rows@, next, x, kind));
                }
            }
        }
        i = i + 1;
    }
    proof {
        assert(indices@.subrange(0, indices.len() as int) =~= indices@);
    }
    out
}

/// Players of both sides that count in the window `kind` at one tick.
fn tick_total(rows: &Vec<QualityRow>, indices: &Vec<usize>, tick: i32, kind: PlayerWindowKind) -> (r: usize)
    requires
        indices_valid(rows@, indices@),
    ensures
        r == window_total(rows@, indices@, tick, tick, kind),
{
    let players = count_players_in_window(rows, indices, tick, tick, kind);
    players.total()
}

/// `a` is the first live tick after the frozen tick `f`, within the
/// transition gap, at which at least six players are live.
pub open spec fn is_first_transition(
    rows: Seq<QualityRow>,
    indices: Seq<usize>,
    gap: i32,
    f: i32,
    a: i32,
) -> bool {
    &&& is_window_tick(rows, indices, a, PlayerWindowKind::Active)
    &&& f < a <= clamp_i32(f + gap)
    &&& window_total(rows, indices, a, a, PlayerWindowKind::Active) >= 6
    &&& forall|b: i32|
        f < b < a && #[trigger] is_window_tick(rows, indices, b, PlayerWindowKind::Active) ==> window_total(
            rows,
            indices,
            b,
            b,
            PlayerWindowKind::Active,
        ) < 6
}

/// A frozen tick with at least six frozen players that live play follows
/// within the transition gap.
pub open spec fn is_transition_source(rows: Seq<QualityRow>, indices: Seq<usize>, gap: i32, f: i32) -> bool {
    &&& is_window_tick(rows, indices, f, PlayerWindowKind::Freeze)
    &&& window_total(rows, indices, f, f, PlayerWindowKind::Freeze) >= 6
    &&& exists|a: i32| #[trigger] is_first_transition(rows, indices, gap, f, a)
}

/// The first live tick after `f`, within the gap, with six live players.
fn first_transition_after(
    rows: &Vec<QualityRow>,
    indices: &Vec<usize>,
    active_ticks: &Vec<i32>,
    f: i32,
    gap: i32,
) -> (r: Option<i32>)
    requires
        indices_valid(rows@, indices@),
        forall|a: int, b: int| 0 <= a < b < active_ticks.len() ==> active_ticks@[a] < active_ticks@[b],
        forall|t: i32| active_ticks@.contains(t) <==> is_window_tick(rows@, indices@, t, PlayerWindowKind::Active),
    ensures
        match r {
            Some(a) => is_first_transition(rows@, indices@, gap, f, a),
            None => forall|a: i32| !#[trigger] is_first_transition(rows@, indices@, gap, f, a),
        },
{
    let end = saturating_add_i32(f, gap);
    let mut j: usize = 0;
    while j < active_ticks.len()
        invariant
            j <= active_ticks.len(),
            indices_valid(rows@, indices@),
            forall|a: int, b: int| 0 <= a < b < active_ticks.len() ==> active_ticks@[a] < active_ticks@[b],
            forall|t: i32|
                active_ticks@.contains(t) <==> is_window_tick(rows@, indices@, t, PlayerWindowKind::Active),
            end == clamp_i32(f + gap),
            forall|k: int|
                0 <= k < j && f < #[trigger] active_ticks@[k] <= end ==> window_total(
                    rows@,
                    indices@,
                    active_ticks@[k],
                    active_ticks@[k],
                    PlayerWindowKind::Active,
                ) < 6,
        decreases active_ticks.len() - j,
    {
        let a = active_ticks[j];
        if a > f && a <= end && tick_total(rows, indices, a, PlayerWindowKind::Active) >= 6 {
            proof {
                assert(active_ticks@.contains(a));
                assert forall|b: i32|
                    f < b < a && #[trigger] is_window_tick(
                        rows@,
                        indices@,
                        b,
                        PlayerWindowKind::Active,
                    ) implies window_total(rows@, indices@, b, b, PlayerWindowKind::Active) < 6 by {
                    assert(active_ticks@.contains(b));
                    let k = choose|k: int| 0 <= k < active_ticks@.len() && active_ticks@[k] == b;
                    if k > j {
                        assert(active_ticks@[j as int] < active_ticks@[k]);
                    }
                }
            }
            return Some(a);
        }
        j = j + 1;
    }
    proof {
        assert forall|a: i32| !#[trigger] is_first_transition(rows@, indices@, gap, f, a) by {
            if is_first_transition(rows@, indices@, gap, f, a) {
                assert(active_ticks@.contains(a));
                let k = choose|k: int| 0 <= k < active_ticks@.len() && active_ticks@[k] == a;
                assert(f < active_ticks@[k] <= end);
            }
        }
    }
    None
}

/// The first live tick after the latest freeze-to-live transition.
pub fn infer_latest_freeze_transition_floor(rows: &Vec<QualityRow>, indices: &Vec<usize>, ticks: AnalysisTicks) -> (r:
    Option<i32>)
    requires
        indices_valid(rows@, indices@),
    ensures
        match r {
            Some(a) => exists|f: i32|
                is_transition_source(rows@, indices@, ticks.transition_gap, f) && #[trigger] is_first_transition(
                    rows@,
                    indices@,
                    ticks.transition_gap,
                    f,
                    a,
                ) && forall|g: i32|
                    g > f ==> !#[trigger] is_transition_source(rows@, indices@, ticks.transition_gap, g),
            None => forall|f: i32| !#[trigger] is_transition_source(rows@, indices@, ticks.transition_gap, f),
        },
{
    let gap = ticks.transition_gap;
    let freeze_ticks = window_ticks(rows, indices, PlayerWindowKind::Freeze);
    let active_ticks = window_ticks(rows, indices, PlayerWindowKind::Active);
    let mut latest: Option<i32> = None;
    let ghost mut source: i32 = 0;
    let mut i: usize = 0;
    while i < freeze_ticks.len()
        invariant
            i <= freeze_ticks.len(),
            indices_valid(rows@, indices@),
            gap == ticks.transition_gap,
            forall|a: int, b: int| 0 <= a < b < freeze_ticks.len() ==> freeze_ticks@[a] < freeze_ticks@[b],
            forall|t: i32|
                freeze_ticks@.contains(t) <==> is_window_tick(rows@, indices@, t, PlayerWindowKind::Freeze),
            forall|a: int, b: int| 0 <= a < b < active_ticks.len() ==> active_ticks@[a] < active_ticks@[b],
            forall|t: i32|
                active_ticks@.contains(t) <==> is_window_tick(rows@, indices@, t, PlayerWindowKind::Active),
            match latest {
                Some(a) => is_transition_source(rows@, indices@, gap, source) && is_first_transition(
                    rows@,
                    indices@,
                    gap,
                    source,
                    a,
                ) && exists|k: int| 0 <= k < i && freeze_ticks@[k] == source,
                None => true,
            },
            forall|k: int|
                0 <= k < i && is_transition_source(rows@, indices@, gap, #[trigger] freeze_ticks@[k])
                    ==> latest is Some && freeze_ticks@[k] <= source,
        decreases freeze_ticks.len() - i,
    {
        let f = freeze_ticks[i];
        proof {
            assert(freeze_ticks@.contains(f));
        }
        let frozen = tick_total(rows, indices, f, PlayerWindowKind::Freeze);
        let found: Option<i32> = if frozen >= 6 {
            first_transition_after(rows, indices, &active_ticks, f, gap)
        } else {
            None
        };
        match found {
            Some(a) => {
                latest = Some(a);
                proof {
                    source = f;
                }
            },
            None => {},
        }
        proof {
            assert forall|k: int|
                0 <= k < i + 1 && is_transition_source(rows@, indices@, gap, #[trigger] freeze_ticks@[k])
                    implies latest is Some && freeze_ticks@[k] <= source by {
                if k < i && found is Some {
                    assert(freeze_ticks@[k] < freeze_ticks@[i as int]);
                }
            }
        }
        i = i + 1;
    }
    proof {
        match latest {
            Some(a) => {
                assert forall|g: i32| g > source implies !#[trigger] is_transition_source(rows@, indices@, gap, g) by {
                    if is_transition_source(rows@, indices@, gap, g) {
                        assert(freeze_ticks@.contains(g));
                        let k = choose|k: int| 0 <= k < freeze_ticks@.len() && freeze_ticks@[k] == g;
                        assert(is_transition_source(rows@, indices@, gap, freeze_ticks@[k]));
                    }
                }
                assert(is_first_transition(rows@, indices@, gap, source, a));
            },
            None => {
                assert forall|g: i32| !#[trigger] is_transition_source(rows@, indices@, gap, g) by {
                    if is_transition_source(rows@, indices@, gap, g) {
                        assert(freeze_ticks@.contains(g));
                        let k = choose|k: int| 0 <= k < freeze_ticks@.len() && freeze_ticks@[k] == g;
                        assert(is_transition_source(rows@, indices@, gap, freeze_ticks@[k]));
                    }
                }
            },
        }
    }
    latest
}

/// A living team player that moves.
pub open spec fn is_moving_player(row: QualityRow) -> bool {
    is_team_player(row) && row.moving
}

/// Number of indexed rows of moving players at `tick`.
pub open spec fn moving_rows_at(rows: Seq<QualityRow>, indices: Seq<usize>, tick: i32) -> nat
    decreases indices.len(),
{
    if indices.len() == 0 {
        0
    } else {
        let row = rows[indices.last() as int];
        moving_rows_at(rows, indices.drop_last(), tick) + if is_moving_player(row) && row.tick == tick {
            1nat
        } else {
            0nat
        }
    }
}

proof fn lemma_moving_rows_witness(rows: Seq<QualityRow>, indices: Seq<usize>, tick: i32)
    requires
        moving_rows_at(rows, indices, tick) > 0,
    ensures
        exists|k: int|
            0 <= k < indices.len() && is_moving_player(rows[#[trigger] indices[k] as int]) && rows[indices[k]
                as int].tick == tick,
    decreases indices.len(),
{
    let row = rows[indices.last() as int];
    if is_moving_player(row) && row.tick == tick {
        assert(indices[indices.len() - 1] == indices.last());
    } else {
        lemma_moving_rows_witness(rows, indices.drop_last(), tick);
        let k = choose|k: int|
            0 <= k < indices.drop_last().len() && is_moving_player(rows[#[trigger] indices.drop_last()[k] as int])
                && rows[indices.drop_last()[k] as int].tick == tick;
        assert(indices.drop_last()[k] == indices[k]);
    }
}

fn moving_rows_count(rows: &Vec<QualityRow>, indices: &Vec<usize>, tick: i32) -> (r: usize)
    requires
        indices_valid(rows@, indices@),
    ensures
        r == moving_rows_at(rows@, indices@, tick),
{
    let mut count: usize = 0;
    let mut i: usize = 0;
    while i < indices.len()
        invariant
            i <= indices.len(),
            indices_valid(rows@, indices@),
            count == moving_rows_at(rows@, indices@.subrange(0, i as int), tick),
            count <= i,
        decreases indices.len() - i,
    {
        let row = rows[indices[i]];
        proof {
            let next = indices@.subrange(0, i + 1);
            assert(next.drop_last() =~= indices@.subrange(0, i as int));
            assert(next.last() == indices@[i as int]);
        }
        if row.is_alive && row.steam_id != 0 && (row.team_num == 2 || row.team_num == 3) && row.moving
            && row.tick == tick {
            count = count + 1;
        }
        i = i + 1;
    }
    proof {
        assert(indices@.subrange(0, indices.len() as int) =~= indices@);
    }
    count
}

/// The first tick at which at least three moving players are seen.
pub fn infer_round_start_from_movement(rows: &Vec<QualityRow>, indices: &Vec<usize>) -> (r: Option<i32>)
    requires
        indices_valid(rows@, indices@),
    ensures
        match r {
            Some(t) => moving_rows_at(rows@, indices@, t) >= 3 && forall|u: i32|
                u < t ==> #[trigger] moving_rows_at(rows@, indices@, u) < 3,
            None => forall|u: i32| #[trigger] moving_rows_at(rows@, indices@, u) < 3,
        },
{
    let mut best: Option<i32> = None;
    let mut i: usize = 0;
    while i < indices.len()
        invariant
            i <= indices.len(),
            indices_valid(rows@, indices@),
            match best {
                Some(t) => moving_rows_at(rows@, indices@, t) >= 3,
                None => true,
            },
            forall|k: int|
                0 <= k < i && is_moving_player(rows@[#[trigger] indices@[k] as int]) && moving_rows_at(
                    rows@,
                    indices@,
                    rows@[indices@[k] as int].tick,
                ) >= 3 ==> best is Some && best->0 <= rows@[indices@[k] as int].tick,
        decreases indices.len() - i,
    {
        let row = rows[indices[i]];
        if row.is_alive && row.steam_id != 0 && (row.team_num == 2 || row.team_num == 3) && row.moving {
            let c = moving_rows_count(rows, indices, row.tick);
            if c >= 3 {
                let better = match best {
                    None => true,
                    Some(t) => row.tick < t,
                };
                if better {
                    best = Some(row.tick);
                }
            }
        }
        i = i + 1;
    }
    proof {
        assert forall|u: i32| moving_rows_at(rows@, indices@, u) >= 3 implies best is Some && best->0 <= u by {
            lemma_moving_rows_witness(rows@, indices@, u);
            let k = choose|k: int|
                0 <= k < indices@.len() && is_moving_player(rows@[#[trigger] indices@[k] as int])
                    && rows@[indices@[k] as int].tick == u;
        }
    }
    best
}

/// Where the live play of a round starts, as `choose_round_floor` finds it.
pub open spec fn floor_spec(
    rows: Seq<QualityRow>,
    round: u32,
    indices: Seq<usize>,
    freeze_end_ticks: Seq<i32>,
    ticks: AnalysisTicks,
    r: Option<i32>,
) -> bool {
    let pistol = round == 0 || round == 12;
    if freeze_end_ticks.len() > 0 {
        if pistol {
            r is Some && freeze_end_ticks.contains(r->0) && forall|j: int|
                0 <= j < freeze_end_ticks.len() ==> quality_key_le(
                    rows,
                    indices,
                    ticks,
                    #[trigger] freeze_end_ticks[j],
                    r->0,
                )
        } else {
            r == Some(freeze_end_ticks[0])
        }
    } else if exists|f: i32| #[trigger] is_transition_source(rows, indices, ticks.transition_gap, f) {
        r is Some && exists|f: i32|
            is_transition_source(rows, indices, ticks.transition_gap, f)
                && #[trigger] is_first_transition(rows, indices, ticks.transition_gap, f, r->0)
                && forall|g: i32|
                g > f ==> !#[trigger] is_transition_source(rows, indices, ticks.transition_gap, g)
    } else {
        match r {
            Some(t) => moving_rows_at(rows, indices, t) >= 3 && forall|u: i32|
                u < t ==> #[trigger] moving_rows_at(rows, indices, u) < 3,
            None => forall|u: i32| #[trigger] moving_rows_at(rows, indices, u) < 3,
        }
    }
}

/// Where the live play of a round starts, when it can be told: a freeze end
/// event of the round (for a pistol round the best one, otherwise the first),
/// else the latest freeze-to-live transition, else the first tick with three
/// moving players.
pub fn choose_round_floor(
    rows: &Vec<QualityRow>,
    round: u32,
    indices: &Vec<usize>,
    freeze_end_ticks: &Vec<i32>,
    ticks: AnalysisTicks,
) -> (r: Option<i32>)
    requires
        indices_valid(rows@, indices@),
    ensures
        floor_spec(rows@, round, indices@, freeze_end_ticks@, ticks, r),
{
    let event_floor = if is_pistol_round(round) {
        choose_pistol_freeze_end(rows, indices, freeze_end_ticks, ticks)
    } else if freeze_end_ticks.len() > 0 {
        Some(freeze_end_ticks[0])
    } else {
        None
    };
    if event_floor.is_some() {
        return event_floor;
    }
    let transition = infer_latest_freeze_transition_floor(rows, indices, ticks);
    if transition.is_some() {
        return transition;
    }
    infer_round_start_from_movement(rows, indices)
}

// ---------------------------------------------------------------------------
// The stable window of a round
// ---------------------------------------------------------------------------

/// The window of a round in which the player assignment to sides is stable.
#[derive(Clone, Copy, Debug, PartialEq, Eq, Structural)]
pub struct StableWindow {
    pub start_tick: i32,
    pub end_tick: i32,
    pub t_players: usize,
    pub ct_players: usize,
    pub valid_rows: usize,
}

/// A row of player `id` on side `team` that counts for the player's spans.
pub open spec fn is_span_row(row: QualityRow, id: u64, team: u8) -> bool {
    is_team_player(row) && row.steam_id == id && row.team_num == team
}

/// Rows, first tick and last tick of player `id` on side `team` among the
/// indexed rows (0, 0, 0 when there is none).
pub open spec fn team_span(rows: Seq<QualityRow>, indices: Seq<usize>, id: u64, team: u8) -> (nat, int, int)
    decreases indices.len(),
{
    if indices.len() == 0 {
        (0, 0, 0)
    } else {
        let acc = team_span(rows, indices.drop_last(), id, team);
        let row = rows[indices.last() as int];
        if is_span_row(row, id, team) {
            if acc.0 == 0 {
                (1, row.tick as int, row.tick as int)
            } else {
                (
                    acc.0 + 1,
                    if (row.tick as int) < acc.1 {
                        row.tick as int
                    } else {
                        acc.1
                    },
                    if (row.tick as int) > acc.2 {
                        row.tick as int
                    } else {
                        acc.2
                    },
                )
            }
        } else {
            acc
        }
    }
}

/// Some indexed row counts for player `id` on either side.
pub open spec fn is_stable_player(rows: Seq<QualityRow>, indices: Seq<usize>, id: u64) -> bool {
    exists|k: int|
        0 <= k < indices.len() && {
            let row = rows[#[trigger] indices[k] as int];
            is_team_player(row) && row.steam_id == id
        }
}

/// The side a player is assigned to: the side with the later last tick, then
/// with more rows; CT on a full tie.
pub open spec fn assigned_team(rows: Seq<QualityRow>, indices: Seq<usize>, id: u64) -> u8 {
    let t = team_span(rows, indices, id, 2);
    let ct = team_span(rows, indices, id, 3);
    if ct.0 > 0 && (t.0 == 0 || ct.2 > t.2 || (ct.2 == t.2 && ct.0 >= t.0)) {
        3
    } else {
        2
    }
}

/// The span of a player on the assigned side.
pub open spec fn assigned_span(rows: Seq<QualityRow>, indices: Seq<usize>, id: u64) -> (nat, int, int) {
    team_span(rows, indices, id, assigned_team(rows, indices, id))
}

/// The players of the stable window.
pub open spec fn stable_players(rows: Seq<QualityRow>, indices: Seq<usize>) -> Set<u64> {
    Set::new(|id: u64| is_stable_player(rows, indices, id))
}

/// Rows between `start` and `end` of living players on their assigned side.
pub open spec fn valid_row_count(
    rows: Seq<QualityRow>,
    all: Seq<usize>,
    indices: Seq<usize>,
    start: i32,
    end: i32,
) -> nat
    decreases indices.len(),
{
    if indices.len() == 0 {
        0
    } else {
        let row = rows[indices.last() as int];
        valid_row_count(rows, all, indices.drop_last(), start, end) + if start <= row.tick <= end
            && row.is_alive && is_stable_player(rows, all, row.steam_id) && row.team_num
            == assigned_team(rows, all, row.steam_id) {
            1nat
        } else {
            0nat
        }
    }
}

proof fn lemma_team_span_count(rows: Seq<QualityRow>, indices: Seq<usize>, id: u64, team: u8)
    ensures
        (team_span(rows, indices, id, team).0 > 0) == exists|k: int|
            0 <= k < indices.len() && is_span_row(rows[#[trigger] indices[k] as int], id, team),
        team_span(rows, indices, id, team).0 <= indices.len(),
        team_span(rows, indices, id, team).0 > 0 ==> i32::MIN <= team_span(rows, indices, id, team).1
            <= i32::MAX && i32::MIN <= team_span(rows, indices, id, team).2 <= i32::MAX,
    decreases indices.len(),
{
    if indices.len() > 0 {
        let rest = indices.drop_last();
        lemma_team_span_count(rows, rest, id, team);
        if exists|k: int| 0 <= k < rest.len() && is_span_row(rows[#[trigger] rest[k] as int], id, team) {
            let k = choose|k: int| 0 <= k < rest.len() && is_span_row(rows[#[trigger] rest[k] as int], id, team);
            assert(indices[k] == rest[k]);
        }
        if exists|k: int| 0 <= k < indices.len() && is_span_row(rows[#[trigger] indices[k] as int], id, team) {
            let k = choose|k: int| 0 <= k < indices.len() && is_span_row(rows[#[trigger] indices[k] as int], id, team);
            if k < rest.len() {
                assert(rest[k] == indices[k]);
            }
        }
    }
}

/// Rows, first and last tick of one player on one side.
fn compute_team_span(rows: &Vec<QualityRow>, indices: &Vec<usize>, id: u64, team: u8) -> (r: (usize, i32, i32))
    requires
        indices_valid(rows@, indices@),
    ensures
        r.0 == team_span(rows@, indices@, id, team).0,
        r.0 > 0 ==> r.1 == team_span(rows@, indices@, id, team).1 && r.2 == team_span(
            rows@,
            indices@,
            id,
            team,
        ).2,
{
    let mut count: usize = 0;
    let mut first: i32 = 0;
    let mut last: i32 = 0;
    let mut i: usize = 0;
    while i < indices.len()
        invariant
            i <= indices.len(),
            indices_valid(rows@, indices@),
            count == team_span(rows@, indices@.subrange(0, i as int), id, team).0,
            count > 0 ==> first == team_span(rows@, indices@.subrange(0, i as int), id, team).1 && last
                == team_span(rows@, indices@.subrange(0, i as int), id, team).2,
            count <= i,
        decreases indices.len() - i,
    {
        let row = rows[indices[i]];
        proof {
            let next = indices@.subrange(0, i + 1);
            assert(next.drop_last() =~= indices@.subrange(0, i as int));
            assert(next.last() == indices@[i as int]);
        }
        if row.is_alive && row.steam_id != 0 && (row.team_num == 2 || row.team_num == 3) && row.steam_id
            == id && row.team_num == team {
            if count == 0 {
                first = row.tick;
                last = row.tick;
            } else {
                if row.tick < first {
                    first = row.tick;
                }
                if row.tick > last {
                    last = row.tick;
                }
            }
            count = count + 1;
        }
        i = i + 1;
    }
    proof {
        assert(indices@.subrange(0, indices.len() as int) =~= indices@);
    }
    (count, first, last)
}

/// The distinct stable players, in order of their first row.
fn stable_player_ids(rows: &Vec<QualityRow>, indices: &Vec<usize>) -> (ids: Vec<u64>)
    requires
        indices_valid(rows@, indices@),
    ensures
        ids@.no_duplicates(),
        ids@.to_set() == stable_players(rows@, indices@),
        ids.len() <= indices.len(),
{
    let mut ids: Vec<u64> = Vec::new();
    let mut i: usize = 0;
    while i < indices.len()
        invariant
            i <= indices.len(),
            indices_valid(rows@, indices@),
            ids@.no_duplicates(),
            ids@.to_set() == stable_players(rows@, indices@.subrange(0, i as int)),
            ids.len() <= i,
        decreases indices.len() - i,
    {
        let row = rows[indices[i]];
        let ghost before = ids@;
        let player = row.is_alive && row.steam_id != 0 && (row.team_num == 2 || row.team_num == 3);
        if player {
            insert_distinct(&mut ids, row.steam_id);
        }
        proof {
            let pre = indices@.subrange(0, i as int);
            let next = indices@.subrange(0, i + 1);
            assert(next[i as int] == indices@[i as int]);
            assert forall|id: u64| #![auto]
                stable_players(rows@, next).contains(id) <==> (stable_players(rows@, pre).contains(id) || (
                player && id == row.steam_id)) by {
                if is_stable_player(rows@, next, id) {
                    let k = choose|k: int|
                        0 <= k < next.len() && {
                            let r2 = rows@[#[trigger] next[k] as int];
                            is_team_player(r2) && r2.steam_id == id
                        };
                    if k < i {
                        assert(pre[k] == next[k]);
                    } else {
                        assert(rows@[next[k] as int] == row);
                    }
                }
                if is_stable_player(rows@, pre, id) {
                    let k = choose|k: int|
                        0 <= k < pre.len() && {
                            let r2 = rows@[#[trigger] pre[k] as int];
                            is_team_player(r2) && r2.steam_id == id
                        };
                    assert(next[k] == pre[k]);
                }
                if player && id == row.steam_id {
                    assert(rows@[next[i as int] as int] == row);
                }
            }
            assert(ids@.to_set() =~= stable_players(rows@, next));
        }
        i = i + 1;
    }
    proof {
        assert(indices@.subrange(0, indices.len() as int) =~= indices@);
    }
    ids
}

/// The position of `id` in a list without duplicates.
fn position_of(ids: &Vec<u64>, id: u64) -> (r: Option<usize>)
    ensures
        match r {
            Some(p) => p < ids.len() && ids@[p as int] == id,
            None => !ids@.contains(id),
        },
{
    let mut i: usize = 0;
    while i < ids.len()
        invariant
            i <= ids.len(),
            forall|j: int| 0 <= j < i ==> ids@[j] != id,
        decreases ids.len() - i,
    {
        if ids[i] == id {
            return Some(i);
        }
        i = i + 1;
    }
    None
}

/// The stable window of the indexed rows, as `select_stable_window` computes it.
pub open spec fn window_spec(rows: Seq<QualityRow>, indices: Seq<usize>, r: Option<StableWindow>) -> bool {
    let players = stable_players(rows, indices);
    match r {
        None => players =~= Set::<u64>::empty(),
        Some(w) => {
            &&& exists|id: u64|
                #[trigger] players.contains(id) && w.start_tick == assigned_span(rows, indices, id).1
            &&& forall|id: u64|
                #[trigger] players.contains(id) ==> assigned_span(rows, indices, id).1 <= w.start_tick
            &&& exists|id: u64|
                #[trigger] players.contains(id) && w.end_tick == assigned_span(rows, indices, id).2
            &&& forall|id: u64|
                #[trigger] players.contains(id) ==> assigned_span(rows, indices, id).2 <= w.end_tick
            &&& w.t_players == players.filter(|id: u64| assigned_team(rows, indices, id) == 2).len()
            &&& w.ct_players == players.filter(|id: u64| assigned_team(rows, indices, id) == 3).len()
            &&& w.valid_rows == valid_row_count(rows, indices, indices, w.start_tick, w.end_tick)
            &&& w.t_players + w.ct_players <= indices.len()
        },
    }
}

proof fn lemma_team_span_ordered(rows: Seq<QualityRow>, indices: Seq<usize>, id: u64, team: u8)
    ensures
        team_span(rows, indices, id, team).1 <= team_span(rows, indices, id, team).2,
    decreases indices.len(),
{
    if indices.len() > 0 {
        lemma_team_span_ordered(rows, indices.drop_last(), id, team);
    }
}

/// A stable window never starts after it ends: it runs from the latest first
/// tick to the latest last tick of its players, and no player's first tick
/// comes after its last.
pub proof fn law_stable_window_is_ordered(rows: Seq<QualityRow>, indices: Seq<usize>, w: StableWindow)
    requires
        window_spec(rows, indices, Some(w)),
    ensures
        w.start_tick <= w.end_tick,
{
    let players = stable_players(rows, indices);
    let id = choose|id: u64| #[trigger] players.contains(id) && w.start_tick == assigned_span(rows, indices, id).1;
    lemma_team_span_ordered(rows, indices, id, assigned_team(rows, indices, id));
    assert(assigned_span(rows, indices, id).2 <= w.end_tick);
}

/// The stable window of the indexed rows: each player is assigned to a side,
/// the window runs from the latest first tick to the latest last tick of the
/// players on their assigned sides, and counts the assigned players of each
/// side and the valid rows in it. `None` when no row is of a living player
/// of a team.
pub fn select_stable_window(rows: &Vec<QualityRow>, indices: &Vec<usize>) -> (r: Option<StableWindow>)
    requires
        indices_valid(rows@, indices@),
    ensures
        window_spec(rows@, indices@, r),
{
    let ids = stable_player_ids(rows, indices);
    let ghost players = stable_players(rows@, indices@);
    if ids.len() == 0 {
        proof {
            assert forall|id: u64| !players.contains(id) by {
                if players.contains(id) {
                    assert(ids@.to_set().contains(id));
                }
            }
            assert(players =~= Set::<u64>::empty());
        }
        return None;
    }
    let mut teams: Vec<u8> = Vec::new();
    let mut t_ids: Vec<u64> = Vec::new();
    let mut ct_ids: Vec<u64> = Vec::new();
    let mut start: i32 = 0;
    let mut end: i32 = 0;
    let mut j: usize = 0;
    while j < ids.len()
        invariant
            j <= ids.len(),
            indices_valid(rows@, indices@),
            ids@.no_duplicates(),
            ids@.to_set() == players,
            players == stable_players(rows@, indices@),
            teams.len() == j,
            forall|q: int| 0 <= q < j ==> #[trigger] teams@[q] == assigned_team(rows@, indices@, ids@[q]),
            t_ids@.no_duplicates(),
            ct_ids@.no_duplicates(),
            t_ids.len() + ct_ids.len() == j,
            ids.len() <= indices.len(),
            forall|x: u64|
                t_ids@.contains(x) <==> (ids@.subrange(0, j as int).contains(x) && assigned_team(
                    rows@,
                    indices@,
                    x,
                ) == 2),
            forall|x: u64|
                ct_ids@.contains(x) <==> (ids@.subrange(0, j as int).contains(x) && assigned_team(
                    rows@,
                    indices@,
                    x,
                ) == 3),
            j > 0 ==> exists|q: int| 0 <= q < j && start == assigned_span(rows@, indices@, ids@[q]).1,
            forall|q: int| 0 <= q < j ==> assigned_span(rows@, indices@, #[trigger] ids@[q]).1 <= start,
            j > 0 ==> exists|q: int| 0 <= q < j && end == assigned_span(rows@, indices@, ids@[q]).2,
            forall|q: int| 0 <= q < j ==> assigned_span(rows@, indices@, #[trigger] ids@[q]).2 <= end,
        decreases ids.len() - j,
    {
        let id = ids[j];
        proof {
            assert(ids@.to_set().contains(id));
            assert(is_stable_player(rows@, indices@, id));
            let k = choose|k: int|
                0 <= k < indices@.len() && {
                    let row = rows@[#[trigger] indices@[k] as int];
                    is_team_player(row) && row.steam_id == id
                };
            let row = rows@[indices@[k] as int];
            lemma_team_span_count(rows@, indices@, id, 2);
            lemma_team_span_count(rows@, indices@, id, 3);
            assert(is_span_row(row, id, row.team_num));
        }
        let (n2, f2, l2) = compute_team_span(rows, indices, id, 2);
        let (n3, f3, l3) = compute_team_span(rows, indices, id, 3);
        let team: u8 = if n3 > 0 && (n2 == 0 || l3 > l2 || (l3 == l2 && n3 >= n2)) {
            3
        } else {
            2
        };
        let (first, last) = if team == 3 {
            (f3, l3)
        } else {
            (f2, l2)
        };
        proof {
            assert(team == assigned_team(rows@, indices@, id));
            assert(first == assigned_span(rows@, indices@, id).1);
            assert(last == assigned_span(rows@, indices@, id).2);
        }
        let ghost old_start = start;
        let ghost old_end = end;
        if j == 0 || first > start {
            start = first;
        }
        if j == 0 || last > end {
            end = last;
        }
        let ghost old_t = t_ids@;
        let ghost old_ct = ct_ids@;
        proof {
            assert(!ids@.subrange(0, j as int).contains(id)) by {
                if ids@.subrange(0, j as int).contains(id) {
                    let q = choose|q: int| 0 <= q < j && ids@.subrange(0, j as int)[q] == id;
                    assert(ids@[q] == ids@[j as int]);
                }
            }
        }
        if team == 2 {
            t_ids.push(id);
        } else {
            ct_ids.push(id);
        }
        teams.push(team);
        proof {
            let pre = ids@.subrange(0, j as int);
            let next = ids@.subrange(0, j + 1);
            assert(next =~= pre.push(id));
            assert forall|x: u64| next.contains(x) <==> (pre.contains(x) || x == id) by {
                if next.contains(x) {
                    let q = choose|q: int| 0 <= q < next.len() && next[q] == x;
                    if q < j {
                        assert(pre[q] == x);
                    }
                }
                if pre.contains(x) {
                    let q = choose|q: int| 0 <= q < pre.len() && pre[q] == x;
                    assert(next[q] == x);
                }
                if x == id {
                    assert(next[j as int] == id);
                }
            }
            if team == 2 {
                assert(t_ids@ == old_t.push(id));
                assert(!old_t.contains(id));
                assert forall|a: int, b: int| 0 <= a < t_ids@.len() && 0 <= b < t_ids@.len() && a != b
                    implies t_ids@[a] != t_ids@[b] by {
                    if a == old_t.len() {
                        assert(old_t.contains(t_ids@[b]));
                    } else if b == old_t.len() {
                        assert(old_t.contains(t_ids@[a]));
                    }
                }
                assert forall|x: u64| t_ids@.contains(x) <==> (old_t.contains(x) || x == id) by {
                    if t_ids@.contains(x) {
                        let q = choose|q: int| 0 <= q < t_ids@.len() && t_ids@[q] == x;
                        if q < old_t.len() {
                            assert(old_t[q] == x);
                        }
                    }
                    if old_t.contains(x) {
                        let q = choose|q: int| 0 <= q < old_t.len() && old_t[q] == x;
                        assert(t_ids@[q] == x);
                    }
                    if x == id {
                        assert(t_ids@[old_t.len() as int] == id);
                    }
                }
            } else {
                assert(ct_ids@ == old_ct.push(id));
                assert(!old_ct.contains(id));
                assert forall|a: int, b: int| 0 <= a < ct_ids@.len() && 0 <= b < ct_ids@.len() && a != b
                    implies ct_ids@[a] != ct_ids@[b] by {
                    if a == old_ct.len() {
                        assert(old_ct.contains(ct_ids@[b]));
                    } else if b == old_ct.len() {
                        assert(old_ct.contains(ct_ids@[a]));
                    }
                }
                assert forall|x: u64| ct_ids@.contains(x) <==> (old_ct.contains(x) || x == id) by {
                    if ct_ids@.contains(x) {
                        let q = choose|q: int| 0 <= q < ct_ids@.len() && ct_ids@[q] == x;
                        if q < old_ct.len() {
                            assert(old_ct[q] == x);
                        }
                    }
                    if old_ct.contains(x) {
                        let q = choose|q: int| 0 <= q < old_ct.len() && old_ct[q] == x;
                        assert(ct_ids@[q] == x);
                    }
                    if x == id {
                        assert(ct_ids@[old_ct.len() as int] == id);
                    }
                }
            }
            assert forall|x: u64| t_ids@.contains(x) <==> (next.contains(x) && assigned_team(
                rows@,
                indices@,
                x,
            ) == 2) by {
                assert(old_t.contains(x) <==> (pre.contains(x) && assigned_team(rows@, indices@, x) == 2));
                if team != 2 {
                    assert(t_ids@ == old_t);
                }
            }
            assert forall|x: u64| ct_ids@.contains(x) <==> (next.contains(x) && assigned_team(
                rows@,
                indices@,
                x,
            ) == 3) by {
                assert(old_ct.contains(x) <==> (pre.contains(x) && assigned_team(rows@, indices@, x) == 3));
                if team == 2 {
                    assert(ct_ids@ == old_ct);
                }
            }
            assert forall|q: int| 0 <= q < j + 1 implies #[trigger] teams@[q] == assigned_team(
                rows@,
                indices@,
                ids@[q],
            ) by {}
            if j > 0 {
                let q0 = choose|q: int| 0 <= q < j && old_start == assigned_span(rows@, indices@, ids@[q]).1;
                let q1 = choose|q: int| 0 <= q < j && old_end == assigned_span(rows@, indices@, ids@[q]).2;
                if start == first {
                    assert(start == assigned_span(rows@, indices@, ids@[j as int]).1);
                } else {
                    assert(start == assigned_span(rows@, indices@, ids@[q0]).1);
                }
                if end == last {
                    assert(end == assigned_span(rows@, indices@, ids@[j as int]).2);
                } else {
                    assert(end == assigned_span(rows@, indices@, ids@[q1]).2);
                }
            } else {
                assert(start == assigned_span(rows@, indices@, ids@[0]).1);
                assert(end == assigned_span(rows@, indices@, ids@[0]).2);
            }
        }
        j = j + 1;
    }
    proof {
        assert(ids@.subrange(0, ids.len() as int) =~= ids@);
    }
    let mut valid_rows: usize = 0;
    let mut i: usize = 0;
    while i < indices.len()
        invariant
            i <= indices.len(),
            indices_valid(rows@, indices@),
            ids@.to_set() == players,
            players == stable_players(rows@, indices@),
            teams.len() == ids.len(),
            forall|q: int| 0 <= q < ids.len() ==> #[trigger] teams@[q] == assigned_team(rows@, indices@, ids@[q]),
            valid_rows == valid_row_count(rows@, indices@, indices@.subrange(0, i as int), start, end),
            valid_rows <= i,
        decreases indices.len() - i,
    {
        let row = rows[indices[i]];
        proof {
            let next = indices@.subrange(0, i + 1);
            assert(next.drop_last() =~= indices@.subrange(0, i as int));
            assert(next.last() == indices@[i as int]);
        }
        if row.tick >= start && row.tick <= end && row.is_alive {
            match position_of(&ids, row.steam_id) {
                Some(p) => {
                    proof {
                        assert(ids@.to_set().contains(row.steam_id));
                    }
                    if teams[p] == row.team_num {
                        valid_rows = valid_rows + 1;
                    }
                },
                None => {
                    proof {
                        assert(!ids@.to_set().contains(row.steam_id));
                    }
                },
            }
        }
        i = i + 1;
    }
    proof {
        assert(indices@.subrange(0, indices.len() as int) =~= indices@);
        let pt = players.filter(|id: u64| assigned_team(rows@, indices@, id) == 2);
        let pc = players.filter(|id: u64| assigned_team(rows@, indices@, id) == 3);
        assert(t_ids@.to_set() =~= pt);
        assert(ct_ids@.to_set() =~= pc);
        t_ids@.unique_seq_to_set();
        ct_ids@.unique_seq_to_set();
        assert forall|id: u64| #[trigger] players.contains(id) implies assigned_span(rows@, indices@, id).1
            <= start && assigned_span(rows@, indices@, id).2 <= end by {
            assert(ids@.to_set().contains(id));
            let q = choose|q: int| 0 <= q < ids@.len() && ids@[q] == id;
        }
        let q0 = choose|q: int| 0 <= q < ids.len() && start == assigned_span(rows@, indices@, ids@[q]).1;
        let q1 = choose|q: int| 0 <= q < ids.len() && end == assigned_span(rows@, indices@, ids@[q]).2;
        assert(ids@.to_set().contains(ids@[q0]));
        assert(ids@.to_set().contains(ids@[q1]));
    }
    Some(
        StableWindow {
            start_tick: start,
            end_tick: end,
            t_players: t_ids.len(),
            ct_players: ct_ids.len(),
            valid_rows,
        },
    )
}

// ---------------------------------------------------------------------------
// Four against five, backed by a death in freeze time
// ---------------------------------------------------------------------------

/// A frozen row, before the window start, of a living team player.
pub open spec fn is_freeze_row(row: QualityRow, start: i32) -> bool {
    row.tick < start && row.is_freeze_period && is_team_player(row)
}

/// The side and tick of the latest frozen row of player `id` before the
/// window (the first such row on equal ticks), when there is one.
pub open spec fn freeze_state(rows: Seq<QualityRow>, indices: Seq<usize>, start: i32, id: u64) -> Option<(u8, i32)>
    decreases indices.len(),
{
    if indices.len() == 0 {
        None
    } else {
        let acc = freeze_state(rows, indices.drop_last(), start, id);
        let row = rows[indices.last() as int];
        if is_freeze_row(row, start) && row.steam_id == id {
            match acc {
                None => Some((row.team_num, row.tick)),
                Some(prev) => if row.tick > prev.1 {
                    Some((row.team_num, row.tick))
                } else {
                    acc
                },
            }
        } else {
            acc
        }
    }
}

pub open spec fn state_side(state: Option<(u8, i32)>) -> u8 {
    match state {
        Some(x) => x.0,
        None => 0,
    }
}

pub open spec fn state_tick(state: Option<(u8, i32)>) -> i32 {
    match state {
        Some(x) => x.1,
        None => 0,
    }
}

/// The players frozen and alive before the window.
pub open spec fn freeze_players(rows: Seq<QualityRow>, indices: Seq<usize>, start: i32) -> Set<u64> {
    Set::new(|id: u64| freeze_state(rows, indices, start, id) is Some)
}

/// The players alive and live in the window.
pub open spec fn active_players(rows: Seq<QualityRow>, indices: Seq<usize>, start: i32, end: i32) -> Set<u64> {
    Set::new(
        |id: u64|
            exists|k: int|
                0 <= k < indices.len() && {
                    let row = rows[#[trigger] indices[k] as int];
                    start <= row.tick <= end && is_team_player(row) && row.steam_id == id
                },
    )
}

/// `d` is the first tick of a death event of player `id` (as its user or its
/// victim) from `from` up to before `start`.
pub open spec fn is_first_death(events: Seq<ParsedGameEvent>, id: u64, from: i32, start: i32, d: i32) -> bool {
    &&& exists|i: int| 0 <= i < events.len() && is_death_of(#[trigger] events[i], id, from, start) && events[i].tick == d
    &&& forall|i: int| 0 <= i < events.len() && is_death_of(#[trigger] events[i], id, from, start) ==> d <= events[i].tick
}

pub open spec fn is_death_of(e: ParsedGameEvent, id: u64, from: i32, start: i32) -> bool {
    e.name@ == "player_death"@ && from <= e.tick < start && (e.user_steam_id == Some(id) || e.victim_steam_id
        == Some(id))
}

/// Player `id` is seen dead in freeze time from `death` up to before `start`.
pub open spec fn has_dead_freeze_row(rows: Seq<QualityRow>, indices: Seq<usize>, id: u64, death: i32, start: i32) -> bool {
    exists|k: int|
        0 <= k < indices.len() && {
            let row = rows[#[trigger] indices[k] as int];
            row.steam_id == id && death <= row.tick < start && row.is_freeze_period && !row.is_alive
        }
}

/// Player `id` is seen alive in live play inside the window.
pub open spec fn revived_in_window(rows: Seq<QualityRow>, indices: Seq<usize>, id: u64, start: i32, end: i32) -> bool {
    exists|k: int|
        0 <= k < indices.len() && {
            let row = rows[#[trigger] indices[k] as int];
            row.steam_id == id && start <= row.tick <= end && row.round_in_progress && !row.is_freeze_period
                && row.is_alive
        }
}

/// The evidence about the one missing player `m`: the side short of a player
/// is `m`'s frozen side, `m` died after last seen alive in freeze time, is
/// then seen dead in freeze time, and never alive in the window.
pub open spec fn missing_player_evidence(
    rows: Seq<QualityRow>,
    events: Seq<ParsedGameEvent>,
    round_indices: Seq<usize>,
    start: i32,
    end: i32,
    t_count: usize,
    ct_count: usize,
    m: u64,
) -> bool {
    match freeze_state(rows, round_indices, start, m) {
        None => false,
        Some(st) => {
            &&& !((st.0 == 2 && t_count != 4) || (st.0 == 3 && ct_count != 4))
            &&& match first_death_tick(events, m, st.1, start) {
                Some(d) => has_dead_freeze_row(rows, round_indices, m, d, start),
                None => false,
            }
            &&& !revived_in_window(rows, round_indices, m, start, end)
        },
    }
}

/// The first tick of a death event of player `id` from `from` up to before
/// `start`, when there is one.
pub open spec fn first_death_tick(events: Seq<ParsedGameEvent>, id: u64, from: i32, start: i32) -> Option<i32> {
    if exists|d: i32| #[trigger] is_first_death(events, id, from, start, d) {
        Some(choose|d: i32| #[trigger] is_first_death(events, id, from, start, d))
    } else {
        None
    }
}

/// A four-against-five round is a true partial round: ten players were frozen
/// alive five a side, nine play the window, and the missing one is backed by
/// a death event and a dead frozen row, without coming back.
pub open spec fn spec_partial_evidence(
    rows: Seq<QualityRow>,
    events: Seq<ParsedGameEvent>,
    round_indices: Seq<usize>,
    active_indices: Seq<usize>,
    start: i32,
    end: i32,
    t_count: usize,
    ct_count: usize,
) -> bool {
    let fp = freeze_players(rows, round_indices, start);
    let ap = active_players(rows, active_indices, start, end);
    &&& (t_count == 4 && ct_count == 5) || (t_count == 5 && ct_count == 4)
    &&& fp.filter(|id: u64| state_side(freeze_state(rows, round_indices, start, id)) == 2).len() == 5
    &&& fp.filter(|id: u64| state_side(freeze_state(rows, round_indices, start, id)) == 3).len() == 5
    &&& ap.len() == 9
    &&& fp.difference(ap).len() == 1
    &&& exists|m: u64|
        #[trigger] fp.difference(ap).contains(m) && missing_player_evidence(
            rows,
            events,
            round_indices,
            start,
            end,
            t_count,
            ct_count,
            m,
        )
}

proof fn lemma_freeze_state_some(rows: Seq<QualityRow>, indices: Seq<usize>, start: i32, id: u64)
    ensures
        (freeze_state(rows, indices, start, id) is Some) == exists|k: int|
            0 <= k < indices.len() && {
                let row = rows[#[trigger] indices[k] as int];
                is_freeze_row(row, start) && row.steam_id == id
            },
    decreases indices.len(),
{
    if indices.len() > 0 {
        let rest = indices.drop_last();
        lemma_freeze_state_some(rows, rest, start, id);
        if exists|k: int|
            0 <= k < rest.len() && {
                let row = rows[#[trigger] rest[k] as int];
                is_freeze_row(row, start) && row.steam_id == id
            } {
            let k = choose|k: int|
                0 <= k < rest.len() && {
                    let row = rows[#[trigger] rest[k] as int];
                    is_freeze_row(row, start) && row.steam_id == id
                };
            assert(indices[k] == rest[k]);
        }
        if exists|k: int|
            0 <= k < indices.len() && {
                let row = rows[#[trigger] indices[k] as int];
                is_freeze_row(row, start) && row.steam_id == id
            } {
            let k = choose|k: int|
                0 <= k < indices.len() && {
                    let row = rows[#[trigger] indices[k] as int];
                    is_freeze_row(row, start) && row.steam_id == id
                };
            if k < rest.len() {
                assert(rest[k] == indices[k]);
            }
        }
    }
}

/// The side and tick of the latest frozen row of a player before `start`.
fn compute_freeze_state(rows: &Vec<QualityRow>, indices: &Vec<usize>, start: i32, id: u64) -> (r: Option<(u8, i32)>)
    requires
        indices_valid(rows@, indices@),
    ensures
        r == freeze_state(rows@, indices@, start, id),
{
    let mut state: Option<(u8, i32)> = None;
    let mut i: usize = 0;
    while i < indices.len()
        invariant
            i <= indices.len(),
            indices_valid(rows@, indices@),
            state == freeze_state(rows@, indices@.subrange(0, i as int), start, id),
        decreases indices.len() - i,
    {
        let row = rows[indices[i]];
        proof {
            let next = indices@.subrange(0, i + 1);
            assert(next.drop_last() =~= indices@.subrange(0, i as int));
            assert(next.last() == indices@[i as int]);
        }
        if row.tick < start && row.is_freeze_period && row.is_alive && row.steam_id != 0 && (row.team_num
            == 2 || row.team_num == 3) && row.steam_id == id {
            state = match state {
                None => Some((row.team_num, row.tick)),
                Some(prev) => if row.tick > prev.1 {
                    Some((row.team_num, row.tick))
                } else {
                    Some(prev)
                },
            };
        }
        i = i + 1;
    }
    proof {
        assert(indices@.subrange(0, indices.len() as int) =~= indices@);
    }
    state
}

/// The distinct players with a frozen row before `start`.
fn freeze_player_ids(rows: &Vec<QualityRow>, indices: &Vec<usize>, start: i32) -> (ids: Vec<u64>)
    requires
        indices_valid(rows@, indices@),
    ensures
        ids@.no_duplicates(),
        ids@.to_set() == freeze_players(rows@, indices@, start),
{
    let mut ids: Vec<u64> = Vec::new();
    let mut i: usize = 0;
    while i < indices.len()
        invariant
            i <= indices.len(),
            indices_valid(rows@, indices@),
            ids@.no_duplicates(),
            forall|id: u64|
                ids@.to_set().contains(id) <==> exists|k: int|
                    0 <= k < i && {
                        let row = rows@[#[trigger] indices@[k] as int];
                        is_freeze_row(row, start) && row.steam_id == id
                    },
        decreases indices.len() - i,
    {
        let row = rows[indices[i]];
        let member = row.tick < start && row.is_freeze_period && row.is_alive && row.steam_id != 0 && (
        row.team_num == 2 || row.team_num == 3);
        let ghost before = ids@;
        if member {
            insert_distinct(&mut ids, row.steam_id);
        }
        proof {
            assert forall|id: u64|
                ids@.to_set().contains(id) <==> exists|k: int|
                    0 <= k < i + 1 && {
                        let r2 = rows@[#[trigger] indices@[k] as int];
                        is_freeze_row(r2, start) && r2.steam_id == id
                    } by {
                assert(before.to_set().contains(id) <==> exists|k: int|
                    0 <= k < i && {
                        let r2 = rows@[#[trigger] indices@[k] as int];
                        is_freeze_row(r2, start) && r2.steam_id == id
                    });
                if member && id == row.steam_id {
                    assert(rows@[indices@[i as int] as int] == row);
                }
            }
        }
        i = i + 1;
    }
    proof {
        assert forall|id: u64| ids@.to_set().contains(id) <==> freeze_players(rows@, indices@, start).contains(id) by {
            lemma_freeze_state_some(rows@, indices@, start, id);
        }
        assert(ids@.to_set() =~= freeze_players(rows@, indices@, start));
    }
    ids
}

/// The distinct players alive and live in the window.
fn active_player_ids(rows: &Vec<QualityRow>, indices: &Vec<usize>, start: i32, end: i32) -> (ids: Vec<u64>)
    requires
        indices_valid(rows@, indices@),
    ensures
        ids@.no_duplicates(),
        ids@.to_set() == active_players(rows@, indices@, start, end),
{
    let mut ids: Vec<u64> = Vec::new();
    let mut i: usize = 0;
    while i < indices.len()
        invariant
            i <= indices.len(),
            indices_valid(rows@, indices@),
            ids@.no_duplicates(),
            ids@.to_set() == active_players(rows@, indices@.subrange(0, i as int), start, end),
        decreases indices.len() - i,
    {
        let row = rows[indices[i]];
        let member = row.tick >= start && row.tick <= end && row.is_alive && row.steam_id != 0 && (
        row.team_num == 2 || row.team_num == 3);
        let ghost before = ids@;
        if member {
            insert_distinct(&mut ids, row.steam_id);
        }
        proof {
            let pre = indices@.subrange(0, i as int);
            let next = indices@.subrange(0, i + 1);
            assert(next[i as int] == indices@[i as int]);
            assert forall|id: u64| #![auto]
                active_players(rows@, next, start, end).contains(id) <==> (active_players(
                    rows@,
                    pre,
                    start,
                    end,
                ).contains(id) || (member && id == row.steam_id)) by {
                if active_players(rows@, next, start, end).contains(id) {
                    let k = choose|k: int|
                        0 <= k < next.len() && {
                            let r2 = rows@[#[trigger] next[k] as int];
                            start <= r2.tick <= end && is_team_player(r2) && r2.steam_id == id
                        };
                    if k < i {
                        assert(pre[k] == next[k]);
                    } else {
                        assert(rows@[next[k] as int] == row);
                    }
                }
                if active_players(rows@, pre, start, end).contains(id) {
                    let k = choose|k: int|
                        0 <= k < pre.len() && {
                            let r2 = rows@[#[trigger] pre[k] as int];
                            start <= r2.tick <= end && is_team_player(r2) && r2.steam_id == id
                        };
                    assert(next[k] == pre[k]);
                }
                if member && id == row.steam_id {
                    assert(rows@[next[i as int] as int] == row);
                }
            }
            assert(ids@.to_set() =~= active_players(rows@, next, start, end));
        }
        i = i + 1;
    }
    proof {
        assert(indices@.subrange(0, indices.len() as int) =~= indices@);
    }
    ids
}

/// Number of listed players whose side (`sides`, parallel to `ids`) is `side`.
fn count_side(ids: &Vec<u64>, sides: &Vec<u8>, side: u8, Ghost(f): Ghost<spec_fn(u64) -> u8>) -> (r: usize)
    requires
        ids@.no_duplicates(),
        sides.len() == ids.len(),
        forall|q: int| 0 <= q < ids.len() ==> #[trigger] sides@[q] == f(ids@[q]),
    ensures
        r == ids@.to_set().filter(|x: u64| f(x) == side).len(),
{
    let mut chosen: Vec<u64> = Vec::new();
    let mut j: usize = 0;
    while j < ids.len()
        invariant
            j <= ids.len(),
            ids@.no_duplicates(),
            sides.len() == ids.len(),
            forall|q: int| 0 <= q < ids.len() ==> #[trigger] sides@[q] == f(ids@[q]),
            chosen@.no_duplicates(),
            forall|x: u64| chosen@.contains(x) <==> (ids@.subrange(0, j as int).contains(x) && f(x) == side),
        decreases ids.len() - j,
    {
        let id = ids[j];
        let ghost before = chosen@;
        proof {
            assert(!ids@.subrange(0, j as int).contains(id)) by {
                if ids@.subrange(0, j as int).contains(id) {
                    let q = choose|q: int| 0 <= q < j && ids@.subrange(0, j as int)[q] == id;
                    assert(ids@[q] == ids@[j as int]);
                }
            }
        }
        if sides[j] == side {
            chosen.push(id);
        }
        proof {
            let pre = ids@.subrange(0, j as int);
            let next = ids@.subrange(0, j + 1);
            assert(next =~= pre.push(id));
            assert forall|x: u64| next.contains(x) <==> (pre.contains(x) || x == id) by {
                if next.contains(x) {
                    let q = choose|q: int| 0 <= q < next.len() && next[q] == x;
                    if q < j {
                        assert(pre[q] == x);
                    }
                }
                if pre.contains(x) {
                    let q = choose|q: int| 0 <= q < pre.len() && pre[q] == x;
                    assert(next[q] == x);
                }
                if x == id {
                    assert(next[j as int] == id);
                }
            }
            if sides@[j as int] == side {
                assert(chosen@ == before.push(id));
                assert(!before.contains(id));
                assert forall|a: int, b: int| 0 <= a < chosen@.len() && 0 <= b < chosen@.len() && a != b
                    implies chosen@[a] != chosen@[b] by {
                    if a == before.len() {
                        assert(before.contains(chosen@[b]));
                    } else if b == before.len() {
                        assert(before.contains(chosen@[a]));
                    }
                }
                assert forall|x: u64| chosen@.contains(x) <==> (before.contains(x) || x == id) by {
                    if chosen@.contains(x) {
                        let q = choose|q: int| 0 <= q < chosen@.len() && chosen@[q] == x;
                        if q < before.len() {
                            assert(before[q] == x);
                        }
                    }
                    if before.contains(x) {
                        let q = choose|q: int| 0 <= q < before.len() && before[q] == x;
                        assert(chosen@[q] == x);
                    }
                    if x == id {
                        assert(chosen@[before.len() as int] == id);
                    }
                }
            }
            assert forall|x: u64| chosen@.contains(x) <==> (next.contains(x) && f(x) == side) by {
                assert(before.contains(x) <==> (pre.contains(x) && f(x) == side));
            }
        }
        j = j + 1;
    }
    proof {
        assert(ids@.subrange(0, ids.len() as int) =~= ids@);
        assert(chosen@.to_set() =~= ids@.to_set().filter(|x: u64| f(x) == side));
        chosen@.unique_seq_to_set();
    }
    chosen.len()
}

/// Whether a four-against-five round is backed by evidence that the fifth
/// player died in freeze time (see `spec_partial_evidence`).
pub fn evidence_backed_partial_round(
    rows: &Vec<QualityRow>,
    events: &Vec<ParsedGameEvent>,
    round_indices: &Vec<usize>,
    active_indices: &Vec<usize>,
    start_tick: i32,
    end_tick: i32,
    t_count: usize,
    ct_count: usize,
) -> (r: bool)
    requires
        indices_valid(rows@, round_indices@),
        indices_valid(rows@, active_indices@),
    ensures
        r == spec_partial_evidence(
            rows@,
            events@,
            round_indices@,
            active_indices@,
            start_tick,
            end_tick,
            t_count,
            ct_count,
        ),
{
    let ghost fp_set = freeze_players(rows@, round_indices@, start_tick);
    let ghost ap_set = active_players(rows@, active_indices@, start_tick, end_tick);
    if !((t_count == 4 && ct_count == 5) || (t_count == 5 && ct_count == 4)) {
        return false;
    }
    let fp = freeze_player_ids(rows, round_indices, start_tick);
    let ghost side_of = |id: u64| state_side(freeze_state(rows@, round_indices@, start_tick, id));
    let mut sides: Vec<u8> = Vec::new();
    let mut j: usize = 0;
    while j < fp.len()
        invariant
            j <= fp.len(),
            indices_valid(rows@, round_indices@),
            sides.len() == j,
            side_of == (|id: u64| state_side(freeze_state(rows@, round_indices@, start_tick, id))),
            forall|q: int| 0 <= q < j ==> #[trigger] sides@[q] == side_of(fp@[q]),
        decreases fp.len() - j,
    {
        let state = compute_freeze_state(rows, round_indices, start_tick, fp[j]);
        let side = match state {
            Some(x) => x.0,
            None => 0,
        };
        sides.push(side);
        j = j + 1;
    }
    let frozen_t = count_side(&fp, &sides, 2, Ghost(side_of));
    let frozen_ct = count_side(&fp, &sides, 3, Ghost(side_of));
    proof {
        assert(fp_set.filter(|id: u64| state_side(freeze_state(rows@, round_indices@, start_tick, id)) == 2)
            =~= fp@.to_set().filter(|x: u64| side_of(x) == 2));
        assert(fp_set.filter(|id: u64| state_side(freeze_state(rows@, round_indices@, start_tick, id)) == 3)
            =~= fp@.to_set().filter(|x: u64| side_of(x) == 3));
    }
    if frozen_t != 5 || frozen_ct != 5 {
        return false;
    }
    let ap = active_player_ids(rows, active_indices, start_tick, end_tick);
    proof {
        ap@.unique_seq_to_set();
    }
    if ap.len() != 9 {
        return false;
    }
    let mut missing: Vec<u64> = Vec::new();
    let mut k: usize = 0;
    while k < fp.len()
        invariant
            k <= fp.len(),
            fp@.no_duplicates(),
            missing@.no_duplicates(),
            forall|x: u64| missing@.contains(x) <==> (fp@.subrange(0, k as int).contains(x) && !ap@.contains(x)),
        decreases fp.len() - k,
    {
        let id = fp[k];
        let ghost before = missing@;
        proof {
            assert(!fp@.subrange(0, k as int).contains(id)) by {
                if fp@.subrange(0, k as int).contains(id) {
                    let q = choose|q: int| 0 <= q < k && fp@.subrange(0, k as int)[q] == id;
                    assert(fp@[q] == fp@[k as int]);
                }
            }
        }
        let absent = position_of(&ap, id).is_none();
        if absent {
            missing.push(id);
        }
        proof {
            let pre = fp@.subrange(0, k as int);
            let next = fp@.subrange(0, k + 1);
            assert(next =~= pre.push(id));
            assert forall|x: u64| next.contains(x) <==> (pre.contains(x) || x == id) by {
                if next.contains(x) {
                    let q = choose|q: int| 0 <= q < next.len() && next[q] == x;
                    if q < k {
                        assert(pre[q] == x);
                    }
                }
                if pre.contains(x) {
                    let q = choose|q: int| 0 <= q < pre.len() && pre[q] == x;
                    assert(next[q] == x);
                }
                if x == id {
                    assert(next[k as int] == id);
                }
            }
            if absent {
                assert(missing@ == before.push(id));
                assert(!before.contains(id));
                assert forall|a: int, b: int| 0 <= a < missing@.len() && 0 <= b < missing@.len() && a != b
                    implies missing@[a] != missing@[b] by {
                    if a == before.len() {
                        assert(before.contains(missing@[b]));
                    } else if b == before.len() {
                        assert(before.contains(missing@[a]));
                    }
                }
                assert forall|x: u64| missing@.contains(x) <==> (before.contains(x) || x == id) by {
                    if missing@.contains(x) {
                        let q = choose|q: int| 0 <= q < missing@.len() && missing@[q] == x;
                        if q < before.len() {
                            assert(before[q] == x);
                        }
                    }
                    if before.contains(x) {
                        let q = choose|q: int| 0 <= q < before.len() && before[q] == x;
                        assert(missing@[q] == x);
                    }
                    if x == id {
                        assert(missing@[before.len() as int] == id);
                    }
                }
            }
            assert forall|x: u64| missing@.contains(x) <==> (next.contains(x) && !ap@.contains(x)) by {
                assert(before.contains(x) <==> (pre.contains(x) && !ap@.contains(x)));
            }
        }
        k = k + 1;
    }
    proof {
        assert(fp@.subrange(0, fp.len() as int) =~= fp@);
        assert(missing@.to_set() =~= fp_set.difference(ap_set));
        missing@.unique_seq_to_set();
    }
    if missing.len() != 1 {
        return false;
    }
    let m = missing[0];
    proof {
        assert(missing@.contains(m));
        assert forall|x: u64| fp_set.difference(ap_set).contains(x) implies x == m by {
            assert(missing@.to_set().contains(x));
            let q = choose|q: int| 0 <= q < missing@.len() && missing@[q] == x;
        }
        assert(fp_set.contains(m));
        lemma_freeze_state_some(rows@, round_indices@, start_tick, m);
    }
    let state = compute_freeze_state(rows, round_indices, start_tick, m);
    let (side, last_alive) = match state {
        Some(x) => x,
        None => return false,
    };
    if (side == 2 && t_count != 4) || (side == 3 && ct_count != 4) {
        return false;
    }
    let mut death: Option<i32> = None;
    let mut e: usize = 0;
    while e < events.len()
        invariant
            e <= events.len(),
            match death {
                Some(d) => exists|i: int| 0 <= i < e && is_death_of(#[trigger] events@[i], m, last_alive, start_tick)
                    && events@[i].tick == d,
                None => true,
            },
            forall|i: int|
                0 <= i < e && is_death_of(#[trigger] events@[i], m, last_alive, start_tick) ==> death is Some
                    && death->0 <= events@[i].tick,
        decreases events.len() - e,
    {
        let event = &events[e];
        let name = crate::text::chars_of(event.name.as_str());
        let is_death = crate::model::eq_lit(&name, "player_death") && event.tick >= last_alive && event.tick
            < start_tick && (event.user_steam_id == Some(m) || event.victim_steam_id == Some(m));
        proof {
            assert(is_death == is_death_of(events@[e as int], m, last_alive, start_tick));
        }
        if is_death {
            let earlier = match death {
                None => true,
                Some(d) => event.tick < d,
            };
            if earlier {
                death = Some(event.tick);
            }
        }
        e = e + 1;
    }
    let death_tick = match death {
        None => {
            proof {
                assert forall|d: i32| !#[trigger] is_first_death(events@, m, last_alive, start_tick, d) by {
                    if is_first_death(events@, m, last_alive, start_tick, d) {
                        let i = choose|i: int| 0 <= i < events@.len() && is_death_of(#[trigger] events@[i], m, last_alive, start_tick)
                            && events@[i].tick == d;
                    }
                }
            }
            return false;
        },
        Some(d) => d,
    };
    proof {
        assert(is_first_death(events@, m, last_alive, start_tick, death_tick));
        assert forall|d: i32| #[trigger] is_first_death(events@, m, last_alive, start_tick, d) implies d == death_tick by {
            let i = choose|i: int| 0 <= i < events@.len() && is_death_of(#[trigger] events@[i], m, last_alive, start_tick)
                && events@[i].tick == d;
            let i2 = choose|i: int| 0 <= i < events@.len() && is_death_of(#[trigger] events@[i], m, last_alive, start_tick)
                && events@[i].tick == death_tick;
        }
    }
    let mut dead_seen = false;
    let mut revived = false;
    let mut i: usize = 0;
    while i < round_indices.len()
        invariant
            i <= round_indices.len(),
            indices_valid(rows@, round_indices@),
            dead_seen == exists|k: int|
                0 <= k < i && {
                    let row = rows@[#[trigger] round_indices@[k] as int];
                    row.steam_id == m && death_tick <= row.tick < start_tick && row.is_freeze_period && !row.is_alive
                },
            revived == exists|k: int|
                0 <= k < i && {
                    let row = rows@[#[trigger] round_indices@[k] as int];
                    row.steam_id == m && start_tick <= row.tick <= end_tick && row.round_in_progress
                        && !row.is_freeze_period && row.is_alive
                },
        decreases round_indices.len() - i,
    {
        let row = rows[round_indices[i]];
        if row.steam_id == m && row.tick >= death_tick && row.tick < start_tick && row.is_freeze_period
            && !row.is_alive {
            dead_seen = true;
        }
        if row.steam_id == m && row.tick >= start_tick && row.tick <= end_tick && row.round_in_progress
            && !row.is_freeze_period && row.is_alive {
            revived = true;
        }
        i = i + 1;
    }
    proof {
        let ev = missing_player_evidence(
            rows@,
            events@,
            round_indices@,
            start_tick,
            end_tick,
            t_count,
            ct_count,
            m,
        );
        assert(has_dead_freeze_row(rows@, round_indices@, m, death_tick, start_tick) == dead_seen);
        assert(revived_in_window(rows@, round_indices@, m, start_tick, end_tick) == revived);
        assert(freeze_state(rows@, round_indices@, start_tick, m) == Some((side, last_alive)));
        assert(first_death_tick(events@, m, last_alive, start_tick) == Some(death_tick));
        if dead_seen && !revived {
            assert(missing_player_evidence(
                rows@,
                events@,
                round_indices@,
                start_tick,
                end_tick,
                t_count,
                ct_count,
                m,
            ));
        } else {
            assert(!missing_player_evidence(
                rows@,
                events@,
                round_indices@,
                start_tick,
                end_tick,
                t_count,
                ct_count,
                m,
            ));
        }
        if dead_seen && !revived {
            assert(fp_set.difference(ap_set).contains(m));
        } else {
            assert forall|x: u64| #[trigger] fp_set.difference(ap_set).contains(x) implies !missing_player_evidence(
                rows@,
                events@,
                round_indices@,
                start_tick,
                end_tick,
                t_count,
                ct_count,
                x,
            ) by {}
        }
    }
    dead_seen && !revived
}

// ---------------------------------------------------------------------------
// The analysis of every round
// ---------------------------------------------------------------------------

/// The window and evidence found for one round.
#[derive(Clone, Copy, Debug, PartialEq, Eq, Structural)]
pub struct RoundWindow {
    pub round: u32,
    pub start_tick: i32,
    pub end_tick: i32,
    pub t_players: usize,
    pub ct_players: usize,
    pub valid_rows: usize,
    pub partial_evidence: bool,
    pub has_active_window: bool,
    pub has_floor: bool,
}

/// Positions of the rows of a round, in row order.
pub open spec fn round_indices(rows: Seq<QualityRow>, round: u32) -> Seq<usize> {
    Seq::new(rows.len(), |i: int| i as usize).filter(|i: usize| rows[i as int].round == round)
}

pub open spec fn min_row_tick(rows: Seq<QualityRow>, indices: Seq<usize>) -> int
    decreases indices.len(),
{
    if indices.len() == 0 {
        0
    } else if indices.len() == 1 {
        rows[indices[0] as int].tick as int
    } else {
        let rest = min_row_tick(rows, indices.drop_last());
        let t = rows[indices.last() as int].tick as int;
        if t < rest {
            t
        } else {
            rest
        }
    }
}

pub open spec fn max_row_tick(rows: Seq<QualityRow>, indices: Seq<usize>) -> int
    decreases indices.len(),
{
    if indices.len() == 0 {
        0
    } else if indices.len() == 1 {
        rows[indices[0] as int].tick as int
    } else {
        let rest = max_row_tick(rows, indices.drop_last());
        let t = rows[indices.last() as int].tick as int;
        if t > rest {
            t
        } else {
            rest
        }
    }
}

/// The freeze end events inside the tick span of the round's rows.
pub open spec fn round_freeze_ends(rows: Seq<QualityRow>, indices: Seq<usize>, freeze_end_ticks: Seq<i32>) -> Seq<i32> {
    let lo = min_row_tick(rows, indices);
    let hi = max_row_tick(rows, indices);
    freeze_end_ticks.filter(|t: i32| lo <= t <= hi)
}

/// The live rows of the round.
pub open spec fn live_indices(rows: Seq<QualityRow>, indices: Seq<usize>) -> Seq<usize> {
    indices.filter(|i: usize| rows[i as int].round_in_progress && !rows[i as int].is_freeze_period)
}

/// The rows the window is chosen from: the live rows (all rows when none is
/// live), from the round's start floor on.
pub open spec fn window_source(rows: Seq<QualityRow>, indices: Seq<usize>, floor: Option<i32>) -> Seq<usize> {
    let live = live_indices(rows, indices);
    spec_apply_floor(rows, if live.len() > 0 { live } else { indices }, floor)
}

/// The analysis of a round that has rows, with the floor `floor` that
/// `floor_spec` fixes for it.
#[verifier::opaque]
pub open spec fn round_analysis(
    rows: Seq<QualityRow>,
    freeze_end_ticks: Seq<i32>,
    events: Seq<ParsedGameEvent>,
    ticks: AnalysisTicks,
    round: u32,
    floor: Option<i32>,
    w: Option<RoundWindow>,
) -> bool {
    let idx = round_indices(rows, round);
    let src = window_source(rows, idx, floor);
    &&& floor_spec(rows, round, idx, round_freeze_ends(rows, idx, freeze_end_ticks), ticks, floor)
    &&& match w {
        None => window_spec(rows, src, None),
        Some(w) => {
            &&& w.round == round
            &&& window_spec(
                rows,
                src,
                Some(
                    StableWindow {
                        start_tick: w.start_tick,
                        end_tick: w.end_tick,
                        t_players: w.t_players,
                        ct_players: w.ct_players,
                        valid_rows: w.valid_rows,
                    },
                ),
            )
            &&& w.has_active_window == (live_indices(rows, idx).len() > 0)
            &&& w.has_floor == (floor is Some)
            &&& w.partial_evidence == spec_partial_evidence(
                rows,
                events,
                idx,
                src,
                w.start_tick,
                w.end_tick,
                w.t_players,
                w.ct_players,
            )
        },
    }
}

/// Some row belongs to the round.
pub open spec fn has_round(rows: Seq<QualityRow>, round: u32) -> bool {
    exists|i: int| 0 <= i < rows.len() && (#[trigger] rows[i]).round == round
}

/// The rounds that have rows, in increasing order, each once.
fn distinct_rounds(rows: &Vec<QualityRow>) -> (r: Vec<u32>)
    ensures
        forall|a: int, b: int| 0 <= a < b < r.len() ==> r@[a] < r@[b],
        forall|x: u32| r@.contains(x) <==> has_round(rows@, x),
{
    let mut out: Vec<u32> = Vec::new();
    let mut i: usize = 0;
    while i < rows.len()
        invariant
            i <= rows.len(),
            forall|a: int, b: int| 0 <= a < b < out.len() ==> out@[a] < out@[b],
            forall|x: u32| out@.contains(x) <==> exists|k: int| 0 <= k < i && (#[trigger] rows@[k]).round == x,
        decreases rows.len() - i,
    {
        let t = rows[i].round;
        let ghost old_out = out@;
        let mut pos: usize = 0;
        while pos < out.len() && out[pos] < t
            invariant
                pos <= out.len(),
                forall|j: int| 0 <= j < pos ==> out@[j] < t,
            decreases out.len() - pos,
        {
            pos = pos + 1;
        }
        if pos == out.len() || out[pos] != t {
            out.insert(pos, t);
            proof {
                assert forall|a: int, b: int| 0 <= a < b < out.len() implies out@[a] < out@[b] by {
                    if b < pos {
                        assert(out@[a] == old_out[a] && out@[b] == old_out[b]);
                    } else if b == pos {
                        assert(out@[a] == old_out[a]);
                    } else if a > pos {
                        assert(out@[a] == old_out[a - 1] && out@[b] == old_out[b - 1]);
                    } else if a == pos {
                        assert(out@[b] == old_out[b - 1]);
                        assert(old_out[pos as int] > t);
                        assert(old_out[pos as int] <= old_out[b - 1]);
                    } else {
                        assert(out@[a] == old_out[a] && out@[b] == old_out[b - 1]);
                        assert(old_out[a] < t);
                        if b - 1 > pos {
                            assert(old_out[pos as int] < old_out[b - 1]);
                        }
                    }
                }
                assert forall|x: u32| out@.contains(x) <==> (old_out.contains(x) || x == t) by {
                    if out@.contains(x) {
                        let k = choose|k: int| 0 <= k < out@.len() && out@[k] == x;
                        if k < pos {
                            assert(old_out[k] == x);
                        } else if k > pos {
                            assert(old_out[k - 1] == x);
                        }
                    }
                    if old_out.contains(x) {
                        let k = choose|k: int| 0 <= k < old_out.len() && old_out[k] == x;
                        if k < pos {
                            assert(out@[k] == x);
                        } else {
                            assert(out@[k + 1] == x);
                        }
                    }
                    if x == t {
                        assert(out@[pos as int] == t);
                    }
                }
            }
        } else {
            proof {
                assert(old_out[pos as int] == t);
                assert(old_out.contains(t));
            }
        }
        proof {
            assert forall|x: u32| out@.contains(x) <==> exists|k: int| 0 <= k < i + 1 && (#[trigger] rows@[k]).round == x by {
                assert(old_out.contains(x) <==> exists|k: int| 0 <= k < i && (#[trigger] rows@[k]).round == x);
                assert(out@.contains(x) <==> (old_out.contains(x) || x == t));
                if x == t {
                    assert(rows@[i as int].round == x);
                }
            }
        }
        i = i + 1;
    }
    out
}

/// Positions of the rows of a round.
fn indices_of_round(rows: &Vec<QualityRow>, round: u32) -> (r: Vec<usize>)
    ensures
        r@ == round_indices(rows@, round),
        indices_valid(rows@, r@),
{
    let ghost all = Seq::new(rows@.len(), |i: int| i as usize);
    let ghost pred = |i: usize| rows@[i as int].round == round;
    let mut out: Vec<usize> = Vec::new();
    let mut i: usize = 0;
    while i < rows.len()
        invariant
            i <= rows.len(),
            all == Seq::new(rows@.len(), |i: int| i as usize),
            pred == (|i: usize| rows@[i as int].round == round),
            out@ == all.subrange(0, i as int).filter(pred),
            forall|k: int| 0 <= k < out.len() ==> #[trigger] out@[k] < i,
        decreases rows.len() - i,
    {
        proof {
            let next = all.subrange(0, i + 1);
            assert(next.drop_last() =~= all.subrange(0, i as int));
            assert(next.last() == i);
            reveal(Seq::filter);
        }
        if rows[i].round == round {
            out.push(i);
        }
        i = i + 1;
    }
    proof {
        assert(all.subrange(0, rows.len() as int) =~= all);
    }
    out
}

fn min_max_tick(rows: &Vec<QualityRow>, indices: &Vec<usize>) -> (r: (i32, i32))
    requires
        indices_valid(rows@, indices@),
    ensures
        r.0 == min_row_tick(rows@, indices@),
        r.1 == max_row_tick(rows@, indices@),
{
    if indices.len() == 0 {
        return (0, 0);
    }
    let mut lo = rows[indices[0]].tick;
    let mut hi = lo;
    let mut i: usize = 1;
    proof {
        assert(indices@.subrange(0, 1) =~= seq![indices@[0]]);
    }
    while i < indices.len()
        invariant
            1 <= i <= indices.len(),
            indices_valid(rows@, indices@),
            lo == min_row_tick(rows@, indices@.subrange(0, i as int)),
            hi == max_row_tick(rows@, indices@.subrange(0, i as int)),
        decreases indices.len() - i,
    {
        let t = rows[indices[i]].tick;
        proof {
            let next = indices@.subrange(0, i + 1);
            assert(next.drop_last() =~= indices@.subrange(0, i as int));
            assert(next.last() == indices@[i as int]);
        }
        if t < lo {
            lo = t;
        }
        if t > hi {
            hi = t;
        }
        i = i + 1;
    }
    proof {
        assert(indices@.subrange(0, indices.len() as int) =~= indices@);
    }
    (lo, hi)
}

fn freeze_ends_in_span(freeze_end_ticks: &Vec<i32>, lo: i32, hi: i32) -> (r: Vec<i32>)
    ensures
        r@ == freeze_end_ticks@.filter(|t: i32| lo <= t <= hi),
{
    let ghost pred = |t: i32| lo <= t <= hi;
    let mut out: Vec<i32> = Vec::new();
    let mut i: usize = 0;
    while i < freeze_end_ticks.len()
        invariant
            i <= freeze_end_ticks.len(),
            pred == (|t: i32| lo <= t <= hi),
            out@ == freeze_end_ticks@.subrange(0, i as int).filter(pred),
        decreases freeze_end_ticks.len() - i,
    {
        proof {
            let next = freeze_end_ticks@.subrange(0, i + 1);
            assert(next.drop_last() =~= freeze_end_ticks@.subrange(0, i as int));
            assert(next.last() == freeze_end_ticks@[i as int]);
            reveal(Seq::filter);
        }
        let t = freeze_end_ticks[i];
        if t >= lo && t <= hi {
            out.push(t);
        }
        i = i + 1;
    }
    proof {
        assert(freeze_end_ticks@.subrange(0, freeze_end_ticks.len() as int) =~= freeze_end_ticks@);
    }
    out
}

fn live_rows_of(rows: &Vec<QualityRow>, indices: &Vec<usize>) -> (r: Vec<usize>)
    requires
        indices_valid(rows@, indices@),
    ensures
        r@ == live_indices(rows@, indices@),
        indices_valid(rows@, r@),
{
    let ghost pred = |i: usize| rows@[i as int].round_in_progress && !rows@[i as int].is_freeze_period;
    let mut out: Vec<usize> = Vec::new();
    let mut i: usize = 0;
    while i < indices.len()
        invariant
            i <= indices.len(),
            indices_valid(rows@, indices@),
            indices_valid(rows@, out@),
            pred == (|i: usize| rows@[i as int].round_in_progress && !rows@[i as int].is_freeze_period),
            out@ == indices@.subrange(0, i as int).filter(pred),
        decreases indices.len() - i,
    {
        let idx = indices[i];
        proof {
            let next = indices@.subrange(0, i + 1);
            assert(next.drop_last() =~= indices@.subrange(0, i as int));
            assert(next.last() == idx);
            reveal(Seq::filter);
        }
        if rows[idx].round_in_progress && !rows[idx].is_freeze_period {
            out.push(idx);
        }
        i = i + 1;
    }
    proof {
        assert(indices@.subrange(0, indices.len() as int) =~= indices@);
    }
    out
}

/// Finds the stable window of every round that has rows, in round order, and
/// the evidence for a partial round. A round whose rows hold no living team
/// player is left out.
pub fn analyze_round_windows(
    rows: &Vec<QualityRow>,
    freeze_end_ticks: &Vec<i32>,
    events: &Vec<ParsedGameEvent>,
    ticks: AnalysisTicks,
) -> (r: Vec<RoundWindow>)
    ensures
        forall|a: int, b: int| 0 <= a < b < r.len() ==> r@[a].round < r@[b].round,
        forall|j: int| 0 <= j < r.len() ==> (#[trigger] r@[j]).start_tick <= r@[j].end_tick,
        forall|j: int|
            0 <= j < r.len() ==> has_round(rows@, (#[trigger] r@[j]).round) && exists|floor: Option<i32>|
                #[trigger] round_analysis(rows@, freeze_end_ticks@, events@, ticks, r@[j].round, floor, Some(r@[j])),
        forall|round: u32|
            #[trigger] has_round(rows@, round) && !(exists|j: int| 0 <= j < r.len() && r@[j].round == round)
                ==> exists|floor: Option<i32>|
                #[trigger] round_analysis(rows@, freeze_end_ticks@, events@, ticks, round, floor, None),
{
    let rounds = distinct_rounds(rows);
    let mut out: Vec<RoundWindow> = Vec::new();
    let ghost mut out_floors: Seq<Option<i32>> = seq![];
    let ghost mut out_pos: Seq<int> = seq![];
    let ghost mut floors: Seq<Option<i32>> = seq![];
    let mut k: usize = 0;
    while k < rounds.len()
        invariant
            k <= rounds.len(),
            forall|a: int, b: int| 0 <= a < b < rounds.len() ==> rounds@[a] < rounds@[b],
            forall|x: u32| rounds@.contains(x) <==> has_round(rows@, x),
            floors.len() == k,
            out_floors.len() == out.len(),
            out_pos.len() == out.len(),
            forall|j: int|
                0 <= j < out.len() ==> 0 <= #[trigger] out_pos[j] < k && rounds@[out_pos[j]] == out@[j].round,
            forall|a: int, b: int| 0 <= a < b < out.len() ==> out_pos[a] < out_pos[b],
            forall|j: int|
                0 <= j < out.len() ==> #[trigger] round_analysis(
                    rows@,
                    freeze_end_ticks@,
                    events@,
                    ticks,
                    out@[j].round,
                    out_floors[j],
                    Some(out@[j]),
                ),
            forall|q: int|
                0 <= q < k && !(exists|j: int| 0 <= j < out.len() && out_pos[j] == q) ==> #[trigger] round_analysis(
                    rows@,
                    freeze_end_ticks@,
                    events@,
                    ticks,
                    rounds@[q],
                    floors[q],
                    None,
                ),
        decreases rounds.len() - k,
    {
        let round = rounds[k];
        let indices = indices_of_round(rows, round);
        let (lo, hi) = min_max_tick(rows, &indices);
        let freeze_ends = freeze_ends_in_span(freeze_end_ticks, lo, hi);
        let floor = choose_round_floor(rows, round, &indices, &freeze_ends, ticks);
        let live = live_rows_of(rows, &indices);
        let has_active_window = live.len() > 0;
        let source = if has_active_window {
            apply_round_start_floor(rows, &live, floor)
        } else {
            apply_round_start_floor(rows, &indices, floor)
        };
        let window = select_stable_window(rows, &source);
        let ghost old_out = out@;
        let ghost old_pos = out_pos;
        proof {
            assert(source@ == window_source(rows@, indices@, floor));
            floors = floors.push(floor);
        }
        match window {
            None => {
                proof {
                    reveal(round_analysis);
                    assert(round_analysis(rows@, freeze_end_ticks@, events@, ticks, round, floor, None));
                }
            },
            Some(w) => {
                let partial = evidence_backed_partial_round(
                    rows,
                    events,
                    &indices,
                    &source,
                    w.start_tick,
                    w.end_tick,
                    w.t_players,
                    w.ct_players,
                );
                let entry = RoundWindow {
                    round,
                    start_tick: w.start_tick,
                    end_tick: w.end_tick,
                    t_players: w.t_players,
                    ct_players: w.ct_players,
                    valid_rows: w.valid_rows,
                    partial_evidence: partial,
                    has_active_window,
                    has_floor: floor.is_some(),
                };
                proof {
                    reveal(round_analysis);
                    assert(w == StableWindow {
                        start_tick: entry.start_tick,
                        end_tick: entry.end_tick,
                        t_players: entry.t_players,
                        ct_players: entry.ct_players,
                        valid_rows: entry.valid_rows,
                    });
                    assert(round_analysis(rows@, freeze_end_ticks@, events@, ticks, round, floor, Some(entry)));
                    out_floors = out_floors.push(floor);
                    out_pos = out_pos.push(k as int);
                }
                out.push(entry);
            },
        }
        proof {
            assert forall|j: int| 0 <= j < out.len() implies 0 <= #[trigger] out_pos[j] < k + 1
                && rounds@[out_pos[j]] == out@[j].round by {
                if j < old_out.len() {
                    assert(out@[j] == old_out[j] && out_pos[j] == old_pos[j]);
                }
            }
            assert forall|a: int, b: int| 0 <= a < b < out.len() implies out_pos[a] < out_pos[b] by {
                if b < old_out.len() {
                    assert(out_pos[a] == old_pos[a] && out_pos[b] == old_pos[b]);
                } else {
                    assert(out_pos[a] == old_pos[a]);
                }
            }
            assert forall|j: int| 0 <= j < out.len() implies #[trigger] round_analysis(
                rows@,
                freeze_end_ticks@,
                events@,
                ticks,
                out@[j].round,
                out_floors[j],
                Some(out@[j]),
            ) by {
                if j < old_out.len() {
                    assert(out@[j] == old_out[j]);
                }
            }
            assert forall|q: int|
                0 <= q < k + 1 && !(exists|j: int| 0 <= j < out.len() && out_pos[j] == q) implies #[trigger] round_analysis(
                    rows@,
                    freeze_end_ticks@,
                    events@,
                    ticks,
                    rounds@[q],
                    floors[q],
                    None,
                ) by {
                if q < k {
                    if exists|j: int| 0 <= j < old_out.len() && old_pos[j] == q {
                        let j = choose|j: int| 0 <= j < old_out.len() && old_pos[j] == q;
                        assert(out_pos[j] == old_pos[j]);
                    }
                } else if window is Some {
                    assert(out_pos[old_out.len() as int] == q);
                }
            }
        }
        k = k + 1;
    }
    proof {
        assert forall|a: int, b: int| 0 <= a < b < out.len() implies out@[a].round < out@[b].round by {
            assert(rounds@[out_pos[a]] < rounds@[out_pos[b]]);
        }
        assert forall|j: int| 0 <= j < out.len() implies (#[trigger] out@[j]).start_tick <= out@[j].end_tick by {
            let w = out@[j];
            assert(round_analysis(rows@, freeze_end_ticks@, events@, ticks, w.round, out_floors[j], Some(w)));
            reveal(round_analysis);
            let idx = round_indices(rows@, w.round);
            law_stable_window_is_ordered(
                rows@,
                window_source(rows@, idx, out_floors[j]),
                StableWindow {
                    start_tick: w.start_tick,
                    end_tick: w.end_tick,
                    t_players: w.t_players,
                    ct_players: w.ct_players,
                    valid_rows: w.valid_rows,
                },
            );
        }
        assert forall|j: int| 0 <= j < out.len() implies has_round(rows@, (#[trigger] out@[j]).round) && exists|floor: Option<i32>|
            #[trigger] round_analysis(rows@, freeze_end_ticks@, events@, ticks, out@[j].round, floor, Some(out@[j])) by {
            assert(rounds@.contains(rounds@[out_pos[j]]));
            assert(round_analysis(rows@, freeze_end_ticks@, events@, ticks, out@[j].round, out_floors[j], Some(out@[j])));
        }
        assert forall|round: u32|
            #[trigger] has_round(rows@, round) && !(exists|j: int| 0 <= j < out.len() && out@[j].round == round)
                implies exists|floor: Option<i32>|
                #[trigger] round_analysis(rows@, freeze_end_ticks@, events@, ticks, round, floor, None) by {
            assert(rounds@.contains(round));
            let q = choose|q: int| 0 <= q < rounds@.len() && rounds@[q] == round;
            if exists|j: int| 0 <= j < out.len() && out_pos[j] == q {
                let j = choose|j: int| 0 <= j < out.len() && out_pos[j] == q;
                assert(out@[j].round == round);
            }
            assert(round_analysis(rows@, freeze_end_ticks@, events@, ticks, rounds@[q], floors[q], None));
        }
    }
    out
}

// ---------------------------------------------------------------------------
// Round summaries
// ---------------------------------------------------------------------------

/// The verdict on one round.
#[derive(Clone, Debug)]
pub struct RoundSummary {
    pub round: u32,
    pub start_tick: i32,
    pub end_tick: i32,
    /// Length of the window in seconds: the bits of an `f32`.
    pub duration_seconds_bits: u32,
    pub t_players: usize,
    pub ct_players: usize,
    pub total_players: usize,
    pub valid_rows: usize,
    pub status: RoundStatus,
    pub problems: Vec<String>,
}

impl RoundSummary {
    pub open spec fn spec_selected_by_default(self) -> bool {
        self.status == RoundStatus::Recommended || self.status == RoundStatus::Partial
    }

    pub open spec fn spec_requires_suspicious_opt_in(self) -> bool {
        self.status == RoundStatus::Suspicious
    }

    /// Recommended and partial rounds are exported unless deselected.
    pub fn selected_by_default(&self) -> (r: bool)
        ensures
            r == self.spec_selected_by_default(),
    {
        match self.status {
            RoundStatus::Recommended | RoundStatus::Partial => true,
            RoundStatus::Suspicious => false,
        }
    }

    /// Suspicious rounds are exported only on request.
    pub fn requires_suspicious_opt_in(&self) -> (r: bool)
        ensures
            r == self.spec_requires_suspicious_opt_in(),
    {
        match self.status {
            RoundStatus::Suspicious => true,
            _ => false,
        }
    }
}

/// Every round is either exported by default or needs the suspicious
/// opt-in, never both.
pub proof fn law_selection_needs_no_opt_in(summary: RoundSummary)
    ensures
        summary.spec_selected_by_default() <==> !summary.spec_requires_suspicious_opt_in(),
{
}

/// A round summary is exported by default exactly when it lists no problem.
pub proof fn law_default_selection_means_no_problems(summary: RoundSummary, partial_evidence: bool)
    requires
        summary.status == (if summary.problems.len() > 0 {
            RoundStatus::Suspicious
        } else if partial_evidence {
            RoundStatus::Partial
        } else {
            RoundStatus::Recommended
        }),
    ensures
        summary.spec_selected_by_default() <==> summary.problems.len() == 0,
{
}

pub open spec fn problem_if(cond: bool, message: Seq<char>) -> Seq<Seq<char>> {
    if cond {
        seq![message]
    } else {
        seq![]
    }
}

pub open spec fn opt_problem(message: Option<Seq<char>>) -> Seq<Seq<char>> {
    match message {
        Some(m) => seq![m],
        None => seq![],
    }
}

pub open spec fn opt_string_view(s: Option<String>) -> Option<Seq<char>> {
    match s {
        Some(v) => Some(v@),
        None => None,
    }
}

/// The problems of a round, in order: player counts (unless backed as a
/// partial round), the duration checks given as text, the valid rows, and a
/// round that had neither a live window nor a start floor.
pub open spec fn spec_round_problems(
    w: RoundWindow,
    too_short: Option<Seq<char>>,
    too_long: Option<Seq<char>>,
) -> Seq<Seq<char>> {
    let total = w.t_players + w.ct_players;
    problem_if(
        total != 10 && !w.partial_evidence,
        "available players "@ + crate::text::decimal(total as nat) + " != 10"@,
    ) + problem_if(
        w.t_players != 5 && !w.partial_evidence,
        "T players "@ + crate::text::decimal(w.t_players as nat) + " != 5"@,
    ) + problem_if(
        w.ct_players != 5 && !w.partial_evidence,
        "CT players "@ + crate::text::decimal(w.ct_players as nat) + " != 5"@,
    ) + opt_problem(too_short) + opt_problem(too_long) + problem_if(
        w.valid_rows < 2,
        "valid player rows "@ + crate::text::decimal(w.valid_rows as nat) + " < 2"@,
    ) + problem_if(
        !w.has_active_window && !w.has_floor,
        "missing active/freeze-end window; used raw round rows"@,
    )
}

pub open spec fn string_views(v: Seq<String>) -> Seq<Seq<char>> {
    Seq::new(v.len(), |i: int| v[i]@)
}

fn push_problem_if(problems: &mut Vec<String>, cond: bool, message: String)
    ensures
        string_views(final(problems)@) == string_views(old(problems)@) + problem_if(cond, message@),
{
    if cond {
        problems.push(message);
    }
    proof {
        assert(string_views(problems@) =~= string_views(old(problems)@) + problem_if(cond, message@));
    }
}

fn push_opt_problem(problems: &mut Vec<String>, message: Option<String>)
    ensures
        string_views(final(problems)@) == string_views(old(problems)@) + opt_problem(opt_string_view(message)),
{
    match message {
        Some(m) => problems.push(m),
        None => {},
    }
    proof {
        assert(string_views(problems@) =~= string_views(old(problems)@) + opt_problem(opt_string_view(message)));
    }
}

fn count_message(head: &str, n: usize, tail: &str) -> (r: String)
    ensures
        r@ == head@ + crate::text::decimal(n as nat) + tail@,
{
    let m = crate::text::string_of(head);
    let m = crate::text::concat_str(m, crate::text::u64_decimal(n as u64).as_str());
    crate::text::concat_str(m, tail)
}

/// The summary of a round from its window, the bits of its duration in
/// seconds, and the duration problems (too short, too long) as text.
#[verifier::rlimit(30)]
pub fn round_summary(
    w: &RoundWindow,
    duration_seconds_bits: u32,
    too_short: Option<String>,
    too_long: Option<String>,
) -> (r: RoundSummary)
    requires
        w.t_players + w.ct_players <= usize::MAX,
    ensures
        r.round == w.round,
        r.start_tick == w.start_tick,
        r.end_tick == w.end_tick,
        r.duration_seconds_bits == duration_seconds_bits,
        r.t_players == w.t_players,
        r.ct_players == w.ct_players,
        r.total_players == w.t_players + w.ct_players,
        r.valid_rows == w.valid_rows,
        string_views(r.problems@) == spec_round_problems(
            *w,
            opt_string_view(too_short),
            opt_string_view(too_long),
        ),
        r.status == (if r.problems.len() > 0 {
            RoundStatus::Suspicious
        } else if w.partial_evidence {
            RoundStatus::Partial
        } else {
            RoundStatus::Recommended
        }),
{
    let ghost short_view = opt_string_view(too_short);
    let ghost long_view = opt_string_view(too_long);
    let total = w.t_players + w.ct_players;
    let mut problems: Vec<String> = Vec::new();
    proof {
        assert(string_views(problems@) =~= Seq::<Seq<char>>::empty());
    }
    push_problem_if(
        &mut problems,
        total != 10 && !w.partial_evidence,
        count_message("available players ", total, " != 10"),
    );
    push_problem_if(
        &mut problems,
        w.t_players != 5 && !w.partial_evidence,
        count_message("T players ", w.t_players, " != 5"),
    );
    push_problem_if(
        &mut problems,
        w.ct_players != 5 && !w.partial_evidence,
        count_message("CT players ", w.ct_players, " != 5"),
    );
    push_opt_problem(&mut problems, too_short);
    push_opt_problem(&mut problems, too_long);
    push_problem_if(&mut problems, w.valid_rows < 2, count_message("valid player rows ", w.valid_rows, " < 2"));
    push_problem_if(
        &mut problems,
        !w.has_active_window && !w.has_floor,
        crate::text::string_of("missing active/freeze-end window; used raw round rows"),
    );
    proof {
        assert(string_views(problems@) =~= spec_round_problems(*w, short_view, long_view));
    }
    let status = if problems.len() > 0 {
        RoundStatus::Suspicious
    } else if w.partial_evidence {
        RoundStatus::Partial
    } else {
        RoundStatus::Recommended
    };
    RoundSummary {
        round: w.round,
        start_tick: w.start_tick,
        end_tick: w.end_tick,
        duration_seconds_bits,
        t_players: w.t_players,
        ct_players: w.ct_players,
        total_players: total,
        valid_rows: w.valid_rows,
        status,
        problems,
    }
}

} // verus!
