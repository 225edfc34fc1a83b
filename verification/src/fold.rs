//! What a fold header reports when the region below it opens or closes.

use vstd::prelude::*;

verus! {

/// What a fold header reports.
#[derive(Clone, Copy, Debug, PartialEq, Eq, Structural)]
pub enum FoldHeaderAction {
    Opening,
    Closing,
    Idle,
}

impl FoldHeaderAction {
    /// Whether the region is to be open after the action: open after
    /// `Opening`, closed after `Closing`, and as it is after `Idle`.
    pub open spec fn target(self, open: bool) -> bool {
        match self {
            FoldHeaderAction::Opening => true,
            FoldHeaderAction::Closing => false,
            FoldHeaderAction::Idle => open,
        }
    }

    /// Whether the region is to be open after the action.
    pub fn apply(&self, open: bool) -> (now: bool)
        ensures
            now == self.target(open),
    {
        match self {
            FoldHeaderAction::Opening => true,
            FoldHeaderAction::Closing => false,
            FoldHeaderAction::Idle => open,
        }
    }
}

} // verus!
