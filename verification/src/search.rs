//! The Monte Carlo search: for each of the four first moves, repeatedly play
//! the game out to the end with the deterministic rollout policy and the
//! precomputed insertion positions of one simulation index, and keep the
//! action with the greatest accumulated final score. The same simulation
//! index feeds all four branches, so the four totals are directly
//! comparable. The whole search outcome for a fixed rollout count is a pure
//! function of the board, the schedule and the table.
use vstd::prelude::*;

use crate::board::Action;
use crate::board::State;
use crate::board::advance_flat;
use crate::board::insert_flat;
use crate::board::lemma_advance_flat_lines;
use crate::board::zero_count;
use crate::conserve::lemma_advance_conserves;
use crate::oracle::Schedule;
use crate::policy::action_of_index;
use crate::policy::action_from_index;
use crate::policy::rulebase_action;
use crate::policy::rulebase_spec;
use crate::score::lemma_score_upto_bounds;
use crate::score::score_spec;
use crate::time_keeper::TimeKeeper;

verus! {

/// The precomputed table of insertion positions: one row per simulation
/// index, one entry per turn, each a 1-based position among the empty cells
/// that remain at that turn. Built once from a fixed seed and read-only
/// afterwards, so every branch and every turn replays the same simulated
/// universe.
pub struct SimTable {
    pub table: Vec<Vec<i64>>,
}

impl SimTable {
    /// Full size, and every entry a valid position for its turn.
    pub open spec fn wf(self) -> bool {
        &&& self.table@.len() == crate::SIMULATION_MAX
        &&& forall|s: int|
            0 <= s < self.table@.len() ==> (#[trigger] self.table@[s])@.len() == 100
        &&& forall|s: int, t: int|
            0 <= s < self.table@.len() && 0 <= t < 100 ==> 1 <= #[trigger] self.table@[s]@[t] <= 100
                - t
    }
}

/// Build the simulation table from a seeded generator: for each simulation
/// index and turn, a position among the `100 - turn` empty cells then left.
pub fn build_simulation_table(rng: &mut rand::rngs::StdRng) -> (tb: SimTable)
    ensures
        tb.wf(),
{
    let mut table: Vec<Vec<i64>> = Vec::new();
    let mut s: usize = 0;
    while s < crate::SIMULATION_MAX
        invariant
            s <= crate::SIMULATION_MAX,
            table@.len() == s,
            forall|k: int| 0 <= k < s ==> (#[trigger] table@[k])@.len() == 100,
            forall|k: int, t: int|
                0 <= k < s && 0 <= t < 100 ==> 1 <= #[trigger] table@[k]@[t] <= 100 - t,
        decreases crate::SIMULATION_MAX - s,
    {
        let mut row: Vec<i64> = Vec::new();
        let mut t: i64 = 0;
        while t < crate::END_TURN
            invariant
                0 <= t <= 100,
                row@.len() == t,
                forall|u: int| 0 <= u < t ==> 1 <= #[trigger] row@[u] <= 100 - u,
            decreases 100 - t,
        {
            let p = crate::rng::gen_range_i64(rng, 1, crate::END_TURN - t);
            row.push(p);
            t = t + 1;
        }
        table.push(row);
        s = s + 1;
    }
    SimTable { table }
}

impl State {
    /// Insert this turn's scheduled value at the position the simulation
    /// table gives for this simulation index and turn.
    pub fn simulation_update(
        &mut self,
        schedule: &Schedule,
        table: &SimTable,
        simulation_cnt: usize,
    )
        requires
            old(self).wf(),
            schedule.wf(),
            table.wf(),
            simulation_cnt < crate::SIMULATION_MAX,
            old(self).turn < crate::END_TURN,
            zero_count(old(self).board@) == 100 - old(self).turn,
        ensures
            final(self).wf(),
            final(self).turn == old(self).turn,
            final(self).board@ == insert_flat(
                old(self).board@,
                table.table@[simulation_cnt as int]@[old(self).turn as int] as int,
                schedule.values@[old(self).turn as int],
            ),
            zero_count(final(self).board@) == zero_count(old(self).board@) - 1,
    {
        let p = table.table[simulation_cnt][self.turn as usize];
        self.update(schedule, p);
    }

    /// Insert this turn's scheduled value at a random position among the
    /// empty cells; which position is up to the generator.
    pub fn random_update(&mut self, schedule: &Schedule, rng: &mut rand::rngs::StdRng)
        requires
            old(self).wf(),
            schedule.wf(),
            old(self).turn < crate::END_TURN,
            zero_count(old(self).board@) == 100 - old(self).turn,
        ensures
            final(self).wf(),
            final(self).turn == old(self).turn,
            exists|pt: int|
                1 <= pt <= 100 - old(self).turn && final(self).board@ == insert_flat(
                    old(self).board@,
                    pt,
                    schedule.values@[old(self).turn as int],
                ),
            zero_count(final(self).board@) == zero_count(old(self).board@) - 1,
    {
        let remain_turn = crate::END_TURN - self.turn;
        let p = crate::rng::gen_range_i64(rng, 1, remain_turn);
        let ghost pt = p as int;
        self.update(schedule, p);
        proof {
            assert(1 <= pt <= 100 - old(self).turn && self.board@ == insert_flat(
                old(self).board@,
                pt,
                schedule.values@[old(self).turn as int],
            ));
        }
    }
}

/// The final score of finishing the game from a position: each turn inserts
/// the scheduled value at the row's precomputed position, then slides in the
/// direction the rollout rule picks.
pub open spec fn playout_spec(f: Seq<u8>, turn: int, sched: Seq<u8>, row: Seq<i64>) -> int
    decreases 100 - turn,
{
    if turn >= 100 {
        score_spec(f)
    } else {
        let f1 = insert_flat(f, row[turn] as int, sched[turn]);
        let f2 = advance_flat(f1, rulebase_spec(sched, turn));
        playout_spec(f2, turn + 1, sched, row)
    }
}

/// A playout's score is a board score, so it lies within a board's score
/// bounds.
pub proof fn lemma_playout_spec_bounds(f: Seq<u8>, turn: int, sched: Seq<u8>, row: Seq<i64>)
    requires
        f.len() == 100,
    ensures
        0 <= playout_spec(f, turn, sched, row) <= 10000,
    decreases 100 - turn,
{
    if turn >= 100 {
        lemma_score_upto_bounds(f, 100);
    } else {
        let f1 = insert_flat(f, row[turn] as int, sched[turn]);
        let f2 = advance_flat(f1, rulebase_spec(sched, turn));
        crate::board::lemma_insert_flat_len(f, row[turn] as int, sched[turn]);
        assert(f1.len() == 100);
        lemma_advance_flat_lines(f1, rulebase_spec(sched, turn));
        lemma_playout_spec_bounds(f2, turn + 1, sched, row);
    }
}

/// Play the game out to the end and return the final score.
pub fn playout(state: &mut State, schedule: &Schedule, table: &SimTable, simulation_cnt: usize) -> (score:
    i64)
    requires
        old(state).wf(),
        schedule.wf(),
        table.wf(),
        simulation_cnt < crate::SIMULATION_MAX,
        zero_count(old(state).board@) == 100 - old(state).turn,
    ensures
        score == playout_spec(
            old(state).board@,
            old(state).turn as int,
            schedule.values@,
            table.table@[simulation_cnt as int]@,
        ),
        0 <= score <= 10000,
{
    let ghost f0 = old(state).board@;
    let ghost t0 = old(state).turn as int;
    let ghost sched = schedule.values@;
    let ghost row = table.table@[simulation_cnt as int]@;
    loop
        invariant
            state.wf(),
            schedule.wf(),
            table.wf(),
            simulation_cnt < crate::SIMULATION_MAX,
            zero_count(state.board@) == 100 - state.turn,
            sched == schedule.values@,
            row == table.table@[simulation_cnt as int]@,
            f0.len() == 100,
            playout_spec(state.board@, state.turn as int, sched, row) == playout_spec(
                f0,
                t0,
                sched,
                row,
            ),
        ensures
            state.wf(),
            state.turn >= 100,
            playout_spec(state.board@, state.turn as int, sched, row) == playout_spec(
                f0,
                t0,
                sched,
                row,
            ),
        decreases 100 - state.turn,
    {
        if state.is_done() {
            break;
        }
        let ghost f = state.board@;
        let ghost t = state.turn as int;
        state.simulation_update(schedule, table, simulation_cnt);
        let a = rulebase_action(state, schedule);
        let ghost f1 = state.board@;
        state.advance(a);
        proof {
            lemma_advance_conserves(f1, a);
            assert(state.board@ == advance_flat(
                insert_flat(f, row[t] as int, sched[t]),
                rulebase_spec(sched, t),
            ));
            assert(playout_spec(f, t, sched, row) == playout_spec(
                state.board@,
                t + 1,
                sched,
                row,
            ));
        }
    }
    let score = state.get_score();
    proof {
        assert(playout_spec(state.board@, state.turn as int, sched, row) == score_spec(
            state.board@,
        ));
        lemma_score_upto_bounds(state.board@, 100);
    }
    score
}

/// The score of one rollout of one first move.
pub open spec fn rollout_score(f: Seq<u8>, turn: int, sched: Seq<u8>, row: Seq<i64>, d: int) -> int {
    playout_spec(advance_flat(f, action_of_index(d)), turn + 1, sched, row)
}

/// The total score that first move `d` accumulates over the first `n`
/// simulation indices.
pub open spec fn accum(tb: SimTable, f: Seq<u8>, turn: int, sched: Seq<u8>, n: int, d: int) -> int
    decreases n,
{
    if n <= 0 {
        0
    } else {
        accum(tb, f, turn, sched, n - 1, d) + rollout_score(f, turn, sched, tb.table@[n - 1]@, d)
    }
}

pub proof fn lemma_accum_bounds(tb: SimTable, f: Seq<u8>, turn: int, sched: Seq<u8>, n: int, d: int)
    requires
        f.len() == 100,
        n >= 0,
    ensures
        0 <= accum(tb, f, turn, sched, n, d) <= 10000 * n,
    decreases n,
{
    if n > 0 {
        lemma_accum_bounds(tb, f, turn, sched, n - 1, d);
        lemma_advance_flat_lines(f, action_of_index(d));
        lemma_playout_spec_bounds(
            advance_flat(f, action_of_index(d)),
            turn + 1,
            sched,
            tb.table@[n - 1]@,
        );
    }
}

/// One step of the strict-greater scan over the four totals.
pub open spec fn scan_best(b: int, s: int, d: int, wd: int) -> (int, int) {
    if wd > s {
        (d, wd)
    } else {
        (b, s)
    }
}

/// The index of the action with the strictly greatest total, ties going to
/// the earliest action; with all totals zero the first action stands.
pub open spec fn best_action_index(w0: int, w1: int, w2: int, w3: int) -> int {
    let p0 = scan_best(0, 0, 0, w0);
    let p1 = scan_best(p0.0, p0.1, 1, w1);
    let p2 = scan_best(p1.0, p1.1, 2, w2);
    let p3 = scan_best(p2.0, p2.1, 3, w3);
    p3.0
}

/// Pick the action of the greatest accumulated total.
fn select_best(w0: i64, w1: i64, w2: i64, w3: i64) -> (a: Action)
    ensures
        a == action_of_index(best_action_index(w0 as int, w1 as int, w2 as int, w3 as int)),
{
    let mut best_score: i64 = 0;
    let mut best_idx: usize = 0;
    if w0 > best_score {
        best_idx = 0;
        best_score = w0;
    }
    if w1 > best_score {
        best_idx = 1;
        best_score = w1;
    }
    if w2 > best_score {
        best_idx = 2;
        best_score = w2;
    }
    if w3 > best_score {
        best_idx = 3;
        best_score = w3;
    }
    action_from_index(best_idx)
}

/// One rollout: copy the board, force first move `d`, finish with the
/// rollout policy on this simulation index's positions.
fn run_rollout(
    base_state: &State,
    schedule: &Schedule,
    table: &SimTable,
    simulation_cnt: usize,
    d: usize,
) -> (s: i64)
    requires
        base_state.wf(),
        schedule.wf(),
        table.wf(),
        simulation_cnt < crate::SIMULATION_MAX,
        d < 4,
        base_state.turn < crate::END_TURN,
        zero_count(base_state.board@) == 99 - base_state.turn,
    ensures
        s == rollout_score(
            base_state.board@,
            base_state.turn as int,
            schedule.values@,
            table.table@[simulation_cnt as int]@,
            d as int,
        ),
        0 <= s <= 10000,
{
    let mut st = base_state.duplicate();
    let a = action_from_index(d);
    let ghost f = st.board@;
    st.advance(a);
    proof {
        lemma_advance_conserves(f, a);
    }
    playout(&mut st, schedule, table, simulation_cnt)
}

/// The Monte Carlo choice with a fixed rollout count: a pure function of the
/// board, the schedule, the table and the count. With a count of zero all
/// totals are zero and the first action in enumeration order stands.
pub fn monte_carlo_capped(
    base_state: &State,
    schedule: &Schedule,
    table: &SimTable,
    rollouts: usize,
) -> (a: Action)
    requires
        base_state.wf(),
        schedule.wf(),
        table.wf(),
        rollouts <= crate::SIMULATION_MAX,
        base_state.turn < crate::END_TURN,
        zero_count(base_state.board@) == 99 - base_state.turn,
    ensures
        a == action_of_index(
            best_action_index(
                accum(*table, base_state.board@, base_state.turn as int, schedule.values@, rollouts as int, 0),
                accum(*table, base_state.board@, base_state.turn as int, schedule.values@, rollouts as int, 1),
                accum(*table, base_state.board@, base_state.turn as int, schedule.values@, rollouts as int, 2),
                accum(*table, base_state.board@, base_state.turn as int, schedule.values@, rollouts as int, 3),
            ),
        ),
{
    let ghost f = base_state.board@;
    let ghost t = base_state.turn as int;
    let ghost sched = schedule.values@;
    let mut w0: i64 = 0;
    let mut w1: i64 = 0;
    let mut w2: i64 = 0;
    let mut w3: i64 = 0;
    let mut sim: usize = 0;
    while sim < rollouts
        invariant
            base_state.wf(),
            schedule.wf(),
            table.wf(),
            rollouts <= crate::SIMULATION_MAX,
            base_state.turn < crate::END_TURN,
            zero_count(base_state.board@) == 99 - base_state.turn,
            f == base_state.board@,
            t == base_state.turn as int,
            sched == schedule.values@,
            sim <= rollouts,
            w0 == accum(*table, f, t, sched, sim as int, 0),
            w1 == accum(*table, f, t, sched, sim as int, 1),
            w2 == accum(*table, f, t, sched, sim as int, 2),
            w3 == accum(*table, f, t, sched, sim as int, 3),
            0 <= w0 <= 10000 * sim,
            0 <= w1 <= 10000 * sim,
            0 <= w2 <= 10000 * sim,
            0 <= w3 <= 10000 * sim,
        decreases rollouts - sim,
    {
        let s0 = run_rollout(base_state, schedule, table, sim, 0);
        let s1 = run_rollout(base_state, schedule, table, sim, 1);
        let s2 = run_rollout(base_state, schedule, table, sim, 2);
        let s3 = run_rollout(base_state, schedule, table, sim, 3);
        w0 = w0 + s0;
        w1 = w1 + s1;
        w2 = w2 + s2;
        w3 = w3 + s3;
        sim = sim + 1;
    }
    select_best(w0, w1, w2, w3)
}

/// The time-budgeted Monte Carlo choice: rollouts run until the turn's
/// allowance is spent or the table is exhausted, so the result is the capped
/// choice for however many rollouts completed.
pub fn primitive_monteralro(
    time_keeper: &TimeKeeper,
    base_state: &State,
    schedule: &Schedule,
    table: &SimTable,
) -> (a: Action)
    requires
        base_state.wf(),
        schedule.wf(),
        table.wf(),
        0 <= time_keeper.turn < time_keeper.end_turn,
        base_state.turn < crate::END_TURN,
        zero_count(base_state.board@) == 99 - base_state.turn,
    ensures
        exists|n: int|
            0 <= n <= crate::SIMULATION_MAX && a == action_of_index(
                best_action_index(
                    accum(*table, base_state.board@, base_state.turn as int, schedule.values@, n, 0),
                    accum(*table, base_state.board@, base_state.turn as int, schedule.values@, n, 1),
                    accum(*table, base_state.board@, base_state.turn as int, schedule.values@, n, 2),
                    accum(*table, base_state.board@, base_state.turn as int, schedule.values@, n, 3),
                ),
            ),
{
    let ghost f = base_state.board@;
    let ghost t = base_state.turn as int;
    let ghost sched = schedule.values@;
    let mut w0: i64 = 0;
    let mut w1: i64 = 0;
    let mut w2: i64 = 0;
    let mut w3: i64 = 0;
    let mut sim: usize = 0;
    while sim < crate::SIMULATION_MAX
        invariant
            base_state.wf(),
            schedule.wf(),
            table.wf(),
            0 <= time_keeper.turn < time_keeper.end_turn,
            base_state.turn < crate::END_TURN,
            zero_count(base_state.board@) == 99 - base_state.turn,
            f == base_state.board@,
            t == base_state.turn as int,
            sched == schedule.values@,
            sim <= crate::SIMULATION_MAX,
            w0 == accum(*table, f, t, sched, sim as int, 0),
            w1 == accum(*table, f, t, sched, sim as int, 1),
            w2 == accum(*table, f, t, sched, sim as int, 2),
            w3 == accum(*table, f, t, sched, sim as int, 3),
            0 <= w0 <= 10000 * sim,
            0 <= w1 <= 10000 * sim,
            0 <= w2 <= 10000 * sim,
            0 <= w3 <= 10000 * sim,
        decreases crate::SIMULATION_MAX - sim,
    {
        if time_keeper.is_time_over() {
            break;
        }
        let s0 = run_rollout(base_state, schedule, table, sim, 0);
        let s1 = run_rollout(base_state, schedule, table, sim, 1);
        let s2 = run_rollout(base_state, schedule, table, sim, 2);
        let s3 = run_rollout(base_state, schedule, table, sim, 3);
        w0 = w0 + s0;
        w1 = w1 + s1;
        w2 = w2 + s2;
        w3 = w3 + s3;
        sim = sim + 1;
    }
    let a = select_best(w0, w1, w2, w3);
    proof {
        let n = sim as int;
        assert(0 <= n <= crate::SIMULATION_MAX && a == action_of_index(
            best_action_index(
                accum(*table, f, t, sched, n, 0),
                accum(*table, f, t, sched, n, 1),
                accum(*table, f, t, sched, n, 2),
                accum(*table, f, t, sched, n, 3),
            ),
        ));
    }
    a
}

} // verus!
