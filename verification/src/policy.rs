//! Action selection policies: the fixed enumeration order of the four
//! actions, the hand-tuned deterministic rollout rule keyed by this turn's
//! and the next turn's scheduled tile values, and a uniformly random
//! fallback.
use vstd::prelude::*;

use crate::board::Action;
use crate::board::State;
use crate::oracle::Schedule;

verus! {

/// The fixed enumeration order of the four actions; ties in the search are
/// broken toward the earliest.
pub open spec fn action_of_index(d: int) -> Action {
    if d == 0 {
        Action::Forward
    } else if d == 1 {
        Action::Back
    } else if d == 2 {
        Action::Left
    } else {
        Action::Right
    }
}

/// The action at a position of the fixed enumeration order.
pub fn action_from_index(d: usize) -> (a: Action)
    requires
        d < 4,
    ensures
        a == action_of_index(d as int),
{
    if d == 0 {
        Action::Forward
    } else if d == 1 {
        Action::Back
    } else if d == 2 {
        Action::Left
    } else {
        Action::Right
    }
}

/// The hand-tuned rollout rule, row = this turn's tile value, column = the
/// next turn's. Its exact contents are part of the system's behaviour.
pub open spec fn rule_spec(now_v: u8, next_v: u8) -> Action {
    if now_v == 1 {
        if next_v == 1 {
            Action::Forward
        } else {
            Action::Back
        }
    } else {
        if next_v == 1 {
            Action::Forward
        } else if next_v == 2 {
            Action::Left
        } else {
            Action::Right
        }
    }
}

/// What the deterministic rollout policy plays at a turn: the rule applied
/// to this and the next scheduled value, and `Forward` on the last turn,
/// which has no next value.
pub open spec fn rulebase_spec(sched: Seq<u8>, turn: int) -> Action {
    if turn >= 99 {
        Action::Forward
    } else {
        rule_spec(sched[turn], sched[turn + 1])
    }
}

/// The deterministic rollout policy's choice for the board's current turn.
pub fn rulebase_action(state: &State, schedule: &Schedule) -> (a: Action)
    requires
        schedule.wf(),
        0 <= state.turn < 100,
    ensures
        a == rulebase_spec(schedule.values@, state.turn as int),
{
    if state.turn >= crate::END_TURN - 1 {
        return Action::Forward;
    }
    let now_v = schedule.scheduled_value(state.turn);
    let next_v = schedule.scheduled_value(state.turn + 1);
    if now_v == 1 {
        if next_v == 1 {
            Action::Forward
        } else {
            Action::Back
        }
    } else {
        if next_v == 1 {
            Action::Forward
        } else if next_v == 2 {
            Action::Left
        } else {
            Action::Right
        }
    }
}

/// A uniformly random action; which one comes back is up to the generator.
pub fn random_action(_state: &State, rng: &mut rand::rngs::StdRng) -> (a: Action)
    ensures
        exists|d: int| 0 <= d < 4 && a == action_of_index(d),
{
    let d = crate::rng::gen_index(rng, 4);
    let a = action_from_index(d);
    proof {
        assert(a == action_of_index(d as int));
    }
    a
}

} // verus!
