//! The two ways in which the single attempt at a render can end.

use vstd::prelude::*;

verus! {

/// What one attempt at a piece of work gave.  `P` stands for the work that
/// is still to do.
pub enum RunOrSuspendResult<T, P> {
    /// The work did not finish; it goes on elsewhere.
    Suspend(P),
    /// The work finished with this result.
    Done(T),
}

} // verus!
