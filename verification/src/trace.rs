//! Watching a resolution run: the resolver reports each step it takes to an
//! observer. What the observer does with the reports has no bearing on the
//! outcome of the run.

use crate::clause::Clause;
use crate::literal::Literal;
use vstd::prelude::*;

verus! {

/// Receives the steps of a resolution run as they are taken.
pub trait Observer {
    /// `left` and `right` were resolved on `variable`, a literal of `left`
    /// stripped of its polarity, and gave `result`.
    fn resolved(&mut self, variable: Literal, left: &Clause, right: &Clause, result: &Clause);

    /// The result of the last step went into the knowledge base; `fresh` says
    /// whether it was new there.
    fn learned(&mut self, fresh: bool);

    /// The result of the last step was the empty clause: the run ends here.
    fn contradiction(&mut self);
}

/// An observer that takes no notice of anything.
#[derive(Clone, Copy, Debug, Default)]
pub struct Silent;

impl Observer for Silent {
    fn resolved(&mut self, variable: Literal, left: &Clause, right: &Clause, result: &Clause) {
    }

    fn learned(&mut self, fresh: bool) {
    }

    fn contradiction(&mut self) {
    }
}

} // verus!
