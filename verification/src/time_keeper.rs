//! The time budget: a total wall-clock threshold for the whole game, divided
//! live over the remaining turns. Reading the clock is outside work; the
//! decision itself — has this turn used up its share of what is left? — is a
//! verified function of plain millisecond counts.
use vstd::prelude::*;

verus! {

#[verifier::external_type_specification]
#[verifier::external_body]
pub struct ExInstant(std::time::Instant);

/// Relies on std::time::Instant::now: an opaque monotonic timestamp.
#[verifier::external_body]
fn instant_now() -> std::time::Instant {
    std::time::Instant::now()
}

/// Relies on std::time::Instant::elapsed: the wall-clock time since the
/// recorded instant, converted to whole milliseconds. The value depends on
/// the clock, so nothing is promised of it.
#[verifier::external_body]
fn elapsed_ms(t: &std::time::Instant) -> u64 {
    t.elapsed().as_millis() as u64
}

/// The share of the remaining budget that one turn may spend: the time still
/// left (never negative) divided evenly over the remaining turns.
pub open spec fn allowance(threshold_ms: u64, whole_ms: u64, end_turn: int, turn: int) -> int
    recommends
        turn < end_turn,
{
    (if whole_ms >= threshold_ms {
        0int
    } else {
        threshold_ms - whole_ms
    }) / (end_turn - turn)
}

/// Whether a turn has used up its allowance, given the total threshold, the
/// time elapsed since the game started, and the time elapsed in this turn.
pub fn time_over_decision(
    threshold_ms: u64,
    whole_ms: u64,
    last_ms: u64,
    end_turn: i64,
    turn: i64,
) -> (r: bool)
    requires
        0 <= turn < end_turn,
    ensures
        r == (last_ms >= allowance(threshold_ms, whole_ms, end_turn as int, turn as int)),
{
    let remaining: u64 = if whole_ms >= threshold_ms {
        0
    } else {
        threshold_ms - whole_ms
    };
    let per_turn: u64 = remaining / ((end_turn - turn) as u64);
    last_ms >= per_turn
}

/// With the turn fixed, more elapsed game time never grows the allowance:
/// the per-turn budget only shrinks as the clock runs.
pub proof fn lemma_allowance_shrinks_with_elapsed(
    threshold_ms: u64,
    w1: u64,
    w2: u64,
    end_turn: int,
    turn: int,
)
    requires
        turn < end_turn,
        w1 <= w2,
    ensures
        allowance(threshold_ms, w2, end_turn, turn) <= allowance(threshold_ms, w1, end_turn, turn),
{
    let r1 = if w1 >= threshold_ms {
        0int
    } else {
        threshold_ms - w1
    };
    let r2 = if w2 >= threshold_ms {
        0int
    } else {
        threshold_ms - w2
    };
    vstd::arithmetic::div_mod::lemma_div_is_ordered(r2, r1, end_turn - turn);
}

/// Once a turn has spent strictly more than its allowance, the next turn's
/// allowance is no larger: the live rebalancing never grows the budget of a
/// turn that follows an overspent one.
pub proof fn lemma_allowance_next_turn(
    threshold_ms: u64,
    w1: u64,
    w2: u64,
    end_turn: int,
    turn: int,
)
    requires
        0 <= turn,
        turn + 1 < end_turn,
        w1 <= w2,
        w2 - w1 > allowance(threshold_ms, w1, end_turn, turn),
    ensures
        allowance(threshold_ms, w2, end_turn, turn + 1) <= allowance(
            threshold_ms,
            w1,
            end_turn,
            turn,
        ),
{
    let n = end_turn - turn;
    let r1 = if w1 >= threshold_ms {
        0int
    } else {
        threshold_ms - w1
    };
    let r2 = if w2 >= threshold_ms {
        0int
    } else {
        threshold_ms - w2
    };
    let a = r1 / n;
    vstd::arithmetic::div_mod::lemma_fundamental_div_mod(r1, n);
    let rr = r1 % n;
    vstd::arithmetic::div_mod::lemma_mod_bound(r1, n);
    assert(r1 == n * a + rr);
    assert(a >= 0) by {
        vstd::arithmetic::div_mod::lemma_div_is_ordered(0, r1, n);
    }
    if r1 == 0 {
        assert(a == 0) by {
            vstd::arithmetic::div_mod::lemma_fundamental_div_mod_converse(0, n, 0, 0);
        }
        assert(r2 == 0);
        assert(r2 / (n - 1) == 0) by {
            vstd::arithmetic::div_mod::lemma_fundamental_div_mod_converse(0, n - 1, 0, 0);
        }
    } else {
        assert(a < r1) by (nonlinear_arith)
            requires
                r1 == n * a + rr,
                rr >= 0,
                a >= 0,
                n >= 2,
                r1 >= 1,
        ;
        assert(r2 <= r1 - a - 1);
        assert(r1 - a - 1 <= (a + 1) * (n - 1) - 1) by (nonlinear_arith)
            requires
                r1 == n * a + rr,
                rr < n,
                a >= 0,
                n >= 2,
        ;
        vstd::arithmetic::div_mod::lemma_div_is_ordered(r2, (a + 1) * (n - 1) - 1, n - 1);
        assert((a + 1) * (n - 1) - 1 == a * (n - 1) + (n - 2)) by (nonlinear_arith);
        assert(((a + 1) * (n - 1) - 1) / (n - 1) == a) by {
            vstd::arithmetic::div_mod::lemma_fundamental_div_mod_converse(
                (a + 1) * (n - 1) - 1,
                n - 1,
                a,
                n - 2,
            );
        }
    }
}

/// The time keeper: the game's start instant, the current turn's start
/// instant, the total budget in milliseconds, and the turn bookkeeping.
pub struct TimeKeeper {
    pub start_time: std::time::Instant,
    pub before_time: std::time::Instant,
    pub time_threshold: u64,
    pub end_turn: i64,
    pub turn: i64,
}

impl TimeKeeper {
    /// A fresh keeper: the whole-game budget in milliseconds and the number
    /// of turns; the clock starts now.
    pub fn new(time_threshold: u64, end_turn: i64) -> (t: TimeKeeper)
        ensures
            t.time_threshold == time_threshold,
            t.end_turn == end_turn,
            t.turn == 0,
    {
        TimeKeeper {
            start_time: instant_now(),
            before_time: instant_now(),
            time_threshold,
            end_turn,
            turn: 0,
        }
    }

    /// Begin a turn: record its index and restart the per-turn clock.
    pub fn set_turn(&mut self, turn: i64)
        ensures
            final(self).turn == turn,
            final(self).time_threshold == old(self).time_threshold,
            final(self).end_turn == old(self).end_turn,
    {
        self.turn = turn;
        self.before_time = instant_now();
    }

    /// Whether the current turn has used up its share of the remaining
    /// budget. The shape of the decision is fixed by `time_over_decision`;
    /// which millisecond counts come back is up to the clock.
    pub fn is_time_over(&self) -> bool
        requires
            0 <= self.turn < self.end_turn,
    {
        let whole_ms = elapsed_ms(&self.start_time);
        let last_ms = elapsed_ms(&self.before_time);
        time_over_decision(self.time_threshold, whole_ms, last_ms, self.end_turn, self.turn)
    }
}

} // verus!
