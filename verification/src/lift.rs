//! Batched lifting of many maps through one target complex, one bidegree at a time.
use vstd::prelude::*;

verus! {

/// Outcome of the `prepare` half of a lift step, generic over the pending state each implementor
/// carries between `prepare` and `finish`.
///
/// The split exists so that many steps at a bidegree can be gathered before any of them is
/// solved; a single-map caller matches on this immediately and does its own solve.
pub enum LiftPrep<P> {
    /// The step needed no quasi-inverse and is already finished; carries the range of
    /// newly-contiguous input degrees.
    Done(core::ops::Range<i32>),
    /// The step needs a quasi-inverse solve; complete it with the implementor's `finish`.
    NeedsLift(P),
}

} // verus!
