//! The observation boundary: the core hands finished values to an external
//! observer, which is responsible for windowed aggregation and reporting.

use vstd::prelude::*;

verus! {

/// An observer gathers and periodically records information on the
/// evolutionary process. Implementations live with the surrounding driver;
/// the core only hands values across this boundary.
pub trait Observe {
    type Observable;

    /// Takes one observable (a fitness value, a profile) into something like
    /// a sliding observation window.
    fn observe(&self, ob: Self::Observable);

    /// Generates quantitative observations on the sliding window and sends
    /// them out to whatever recording backend the implementation chose.
    fn report(&self);
}

} // verus!
