//! What ends a batch.

use vstd::prelude::*;

verus! {

/// A fault in the model itself. The batch cannot go on.
#[derive(Debug, Clone, Copy, PartialEq, Eq, Structural)]
pub enum FatalError {
    /// A window has a probability, and a shorter window at the same start has
    /// none.
    MissingFragmentProbability,
    /// An action of a segmented build has no probability of its own.
    MissingActionProbability,
}

} // verus!
