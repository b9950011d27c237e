//! The orientation in which a deck is presented.

use vstd::prelude::*;

verus! {

/// Which side of the cards is asked.
#[derive(Debug)]
pub enum FlipMode {
    /// Every card shows its recto.
    Recto,
    /// Every card shows its verso.
    Verso,
    /// A fixed share of the cards is turned over at random. The flag tells
    /// whether the whole deck is turned over again at each new cycle.
    Random(bool),
}

impl FlipMode {
    /// The flag carried by `Random`, and `false` for the other modes.
    pub open spec fn all_cases(self) -> bool {
        match self {
            FlipMode::Random(all_cases) => all_cases,
            _ => false,
        }
    }

    /// Whether the whole deck is turned over again at each new cycle.
    pub fn is_all_cases(&self) -> (all_cases: bool)
        ensures
            all_cases == self.all_cases(),
    {
        if let FlipMode::Random(all_cases) = self {
            *all_cases
        } else {
            false
        }
    }
}

} // verus!
