//! Literals: a propositional variable together with a polarity.

use crate::text::{literal_text, push_literal};
use std::cmp::Ordering;
use vstd::prelude::*;

verus! {

/// A propositional variable `m`, asserted or negated.
///
/// Literals are totally ordered by variable, and for one variable the asserted
/// literal comes before the negated one.
#[derive(Clone, Copy, PartialEq, Eq, Structural, Ord, Hash, Debug)]
pub struct Literal {
    pub m: u32,
    pub negated: bool,
}

impl Literal {
    /// The literal over the same variable with the opposite polarity.
    pub open spec fn complement(self) -> Literal {
        Literal { m: self.m, negated: !self.negated }
    }

    /// The asserted literal over the same variable.
    pub open spec fn normalized(self) -> Literal {
        Literal { m: self.m, negated: false }
    }

    /// The strict order on literals: by variable, then asserted before negated.
    pub open spec fn precedes(self, other: Literal) -> bool {
        self.m < other.m || (self.m == other.m && !self.negated && other.negated)
    }

    /// How `self` compares to `other` in the order of `precedes`.
    pub open spec fn compare(self, other: Literal) -> Ordering {
        if self.precedes(other) {
            Ordering::Less
        } else if self == other {
            Ordering::Equal
        } else {
            Ordering::Greater
        }
    }

    /// Strips the polarity: the result names the variable of `self`.
    pub fn normalize(&self) -> (r: Literal)
        ensures
            r == self.normalized(),
    {
        Literal { m: self.m, negated: false }
    }

    /// The literal written out: `p` and the variable's number, after the sign
    /// of negation where the literal is negated.
    pub fn to_string(&self) -> (s: String)
        ensures
            s@ == literal_text(*self),
    {
        let mut out = String::new();
        push_literal(&mut out, *self);
        out
    }
}

impl PartialOrd for Literal {
    fn partial_cmp(&self, other: &Literal) -> (r: Option<Ordering>) {
        if self.m < other.m {
            Some(Ordering::Less)
        } else if self.m > other.m {
            Some(Ordering::Greater)
        } else if self.negated == other.negated {
            Some(Ordering::Equal)
        } else if other.negated {
            Some(Ordering::Less)
        } else {
            Some(Ordering::Greater)
        }
    }
}

impl vstd::std_specs::cmp::PartialOrdSpecImpl for Literal {
    open spec fn obeys_partial_cmp_spec() -> bool {
        true
    }

    open spec fn partial_cmp_spec(&self, other: &Literal) -> Option<Ordering> {
        Some(self.compare(*other))
    }
}

/// The order on literals is irreflexive and transitive, and any two distinct
/// literals are ordered one way or the other.
pub proof fn lemma_precedes_strict_total(a: Literal, b: Literal, c: Literal)
    ensures
        !a.precedes(a),
        a.precedes(b) && b.precedes(c) ==> a.precedes(c),
        a.precedes(b) || b.precedes(a) || a == b,
        !(a.precedes(b) && b.precedes(a)),
{
}

} // verus!
