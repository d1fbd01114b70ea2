//! Difficulty levels and the masking weight each one maps to.

use vstd::prelude::*;

verus! {

/// Qualitative puzzle-emptiness level; maps to a masking-probability weight.
#[derive(Debug, Clone, Copy, PartialEq, Eq, Structural)]
pub enum Difficulty {
    Easy,
    Medium,
    Hard,
}

impl Default for Difficulty {
    fn default() -> (d: Self)
        ensures
            d == Difficulty::Medium,
    {
        Difficulty::Medium
    }
}

impl Difficulty {
    /// The emptiness weight this level maps to.
    pub open spec fn weight(self) -> i32 {
        match self {
            Difficulty::Easy => 3,
            Difficulty::Medium => 6,
            Difficulty::Hard => 9,
        }
    }

    /// Returns the emptiness weight: 3 for Easy, 6 for Medium, 9 for Hard.
    pub fn value(self) -> (v: i32)
        ensures
            v == self.weight(),
    {
        match self {
            Difficulty::Easy => 3,
            Difficulty::Medium => 6,
            Difficulty::Hard => 9,
        }
    }
}

} // verus!
