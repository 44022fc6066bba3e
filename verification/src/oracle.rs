//! The insertion oracle: the full sequence of the 100 tile values that will
//! be inserted, one per turn, known before the game starts. Values are tile
//! kinds in 1..=3; the rollout policy's lookup table is indexed by them.
use vstd::prelude::*;

verus! {

/// The immutable schedule of future tile values, one per turn.
pub struct Schedule {
    pub values: Vec<u8>,
}

impl Schedule {
    /// One value per turn, each a tile kind in 1..=3.
    pub open spec fn wf(self) -> bool {
        self.values@.len() == 100 && forall|t: int| 0 <= t < 100 ==> 1 <= #[trigger] self.values@[t] <= 3
    }

    /// Wrap a full game's schedule.
    pub fn new(values: Vec<u8>) -> (s: Schedule)
        requires
            values@.len() == 100,
            forall|t: int| 0 <= t < 100 ==> 1 <= #[trigger] values@[t] <= 3,
        ensures
            s.wf(),
            s.values@ == values@,
    {
        Schedule { values }
    }

    /// The tile value scheduled for the given turn.
    pub fn scheduled_value(&self, turn: i64) -> (v: u8)
        requires
            self.wf(),
            0 <= turn < 100,
        ensures
            v == self.values@[turn as int],
            1 <= v <= 3,
    {
        self.values[turn as usize]
    }
}

} // verus!
