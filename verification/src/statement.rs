//! The knowledge base: a set of clauses, and its saturation under resolution.

use crate::bound::{atoms, lemma_over_bounded, lemma_step_over, over};
use crate::clause::Clause;
use crate::literal::Literal;
use crate::logic::{
    derives, lemma_refutable_unfold, lemma_saturated_is_fixpoint, lemma_saturated_not_refutable,
    refutable, refutes, resolvable, resolvent, saturated, step,
};
use crate::semantics::{lemma_refutable_iff_unsatisfiable, satisfiable};
use crate::trace::{Observer, Silent};
use vstd::arithmetic::power2::pow2;
use vstd::prelude::*;
use vstd::set_lib::lemma_subset_equality;

verus! {

/// The sets of literals of a sequence of clauses, in the same order.
pub open spec fn views(clauses: Seq<Clause>) -> Seq<Set<Literal>> {
    clauses.map_values(|c: Clause| c@)
}

/// A set of clauses. A clause equal to one already held is not held twice.
#[derive(Debug)]
pub struct Statement {
    clauses: Vec<Clause>,
}

/// How one round of resolution over a knowledge base ended.
#[derive(Debug)]
pub enum Round {
    /// A resolution step yielded the empty clause.
    Refuted,
    /// Every resolvent was already held.
    Saturated,
    /// The knowledge base together with its resolvents, some of them new.
    Grown(Statement),
}

impl View for Statement {
    type V = Set<Set<Literal>>;

    /// The set of the clauses held, each as its set of literals.
    open spec fn view(&self) -> Set<Set<Literal>> {
        self.members().to_set()
    }
}

impl Statement {
    #[verifier::type_invariant]
    spec fn inv(self) -> bool {
        views(self.clauses@).no_duplicates()
    }

    /// The clauses held, in the order in which they came in.
    pub closed spec fn members(&self) -> Seq<Set<Literal>> {
        views(self.clauses@)
    }

    /// Collects `clauses` into a knowledge base; equal clauses collapse to one.
    pub fn new(clauses: &[Clause]) -> (s: Statement)
        ensures
            s@ == views(clauses@).to_set(),
    {
        let mut s = Statement { clauses: Vec::new() };
        let mut i: usize = 0;
        assert(s@ =~= views(clauses@.take(0)).to_set());
        while i < clauses.len()
            invariant
                i <= clauses.len(),
                s@ == views(clauses@.take(i as int)).to_set(),
            decreases clauses.len() - i,
        {
            let c = clauses[i].clone();
            proof {
                let before = views(clauses@.take(i as int));
                let after = views(clauses@.take(i + 1));
                assert(after =~= before.push(c@));
                before.lemma_push_to_set_commute(c@);
            }
            s.insert(c);
            i = i + 1;
        }
        assert(clauses@.take(clauses.len() as int) == clauses@);
        s
    }

    /// The number of distinct clauses held.
    pub fn len(&self) -> (n: usize)
        ensures
            n == self@.len(),
    {
        proof {
            use_type_invariant(self);
            self.members().unique_seq_to_set();
        }
        self.clauses.len()
    }

    /// Whether a clause equal to `clause` is held.
    pub fn contains(&self, clause: &Clause) -> (r: bool)
        ensures
            r == self@.contains(clause@),
    {
        let mut i: usize = 0;
        while i < self.clauses.len()
            invariant
                i <= self.clauses.len(),
                forall|k: int| 0 <= k < i ==> self.members()[k] != clause@,
            decreases self.clauses.len() - i,
        {
            if self.clauses[i] == *clause {
                assert(self.members()[i as int] == clause@);
                return true;
            }
            i = i + 1;
        }
        false
    }

    /// Adds `clause`, and says whether it was absent before: a clause that is
    /// already held changes nothing.
    pub fn insert(&mut self, clause: Clause) -> (fresh: bool)
        ensures
            fresh == !old(self)@.contains(clause@),
            final(self)@ == old(self)@.insert(clause@),
            final(self)@.len() == old(self)@.len() + if fresh { 1nat } else { 0nat },
            final(self).members() == if fresh {
                old(self).members().push(clause@)
            } else {
                old(self).members()
            },
    {
        proof {
            use_type_invariant(&*self);
            self.members().unique_seq_to_set();
        }
        if self.contains(&clause) {
            assert(self@.insert(clause@) =~= self@);
            false
        } else {
            let ghost before = self.members();
            let ghost c = clause@;
            let mut clauses: Vec<Clause> = Vec::new();
            std::mem::swap(&mut clauses, &mut self.clauses);
            clauses.push(clause);
            proof {
                assert(views(clauses@) =~= before.push(c));
                before.lemma_push_to_set_commute(c);
                assert(views(clauses@).no_duplicates());
                views(clauses@).unique_seq_to_set();
            }
            self.clauses = clauses;
            true
        }
    }
}

impl Statement {
    /// Resolves `c1` on `pivot` against `c2`: where `c2` holds the complement
    /// of `pivot`, the resolvent goes into `next`, unless it is empty.
    fn resolve_pair<O: Observer>(
        c1: &Clause,
        pivot: Literal,
        c2: &Clause,
        next: &mut Statement,
        observer: &mut O,
    ) -> (hit: bool)
        requires
            c1@.contains(pivot),
        ensures
            hit ==> resolvable(c1@, c2@, pivot) && resolvent(c1@, c2@, pivot).is_empty(),
            !hit ==> final(next)@ == if resolvable(c1@, c2@, pivot) {
                old(next)@.insert(resolvent(c1@, c2@, pivot))
            } else {
                old(next)@
            },
            !hit && resolvable(c1@, c2@, pivot) ==> !resolvent(c1@, c2@, pivot).is_empty(),
    {
        let ghost start = next@;
        let ghost res = resolvent(c1@, c2@, pivot);
        let n = c2.len();
        let mut b: usize = 0;
        while b < n
            invariant
                b <= n,
                n == c2.literals().len(),
                c1@.contains(pivot),
                res == resolvent(c1@, c2@, pivot),
                c2.literals().take(b as int).to_set().contains(pivot.complement()) ==> !res.is_empty()
                    && next@ == start.insert(res),
                !c2.literals().take(b as int).to_set().contains(pivot.complement()) ==> next@
                    == start,
            decreases n - b,
        {
            let other = c2.literal(b);
            proof {
                let seen = c2.literals().take(b as int);
                assert(c2.literals().take(b + 1) == seen.push(other));
                seen.lemma_push_to_set_commute(other);
            }
            if pivot.m == other.m && pivot.negated != other.negated {
                assert(other == pivot.complement());
                let new_clause = c1.rule_out(c2, &pivot);
                observer.resolved(pivot.normalize(), c1, c2, &new_clause);
                if new_clause.is_empty() {
                    observer.contradiction();
                    return true;
                }
                let fresh = next.insert(new_clause);
                observer.learned(fresh);
                assert(start.insert(res).insert(res) =~= start.insert(res));
            }
            b = b + 1;
        }
        assert(c2.literals().take(n as int) == c2.literals());
        false
    }

    /// Resolves `c1` on `pivot` against every clause held.
    fn resolve_literal<O: Observer>(
        &self,
        c1: &Clause,
        pivot: Literal,
        next: &mut Statement,
        observer: &mut O,
    ) -> (hit: bool)
        requires
            self@.contains(c1@),
            c1@.contains(pivot),
            old(next)@.subset_of(step(self@)),
        ensures
            hit ==> refutes(self@),
            !hit ==> old(next)@.subset_of(final(next)@) && final(next)@.subset_of(step(self@)),
            !hit ==> forall|c2: Set<Literal>|
                self@.contains(c2) && c2.contains(pivot.complement()) ==> final(next)@.contains(
                    #[trigger] resolvent(c1@, c2, pivot),
                ) && !resolvent(c1@, c2, pivot).is_empty(),
    {
        let ghost start = next@;
        let mut j: usize = 0;
        while j < self.clauses.len()
            invariant
                j <= self.clauses.len(),
                self@.contains(c1@),
                c1@.contains(pivot),
                start.subset_of(next@),
                next@.subset_of(step(self@)),
                forall|c2: Set<Literal>|
                    self.members().take(j as int).to_set().contains(c2) && c2.contains(
                        pivot.complement(),
                    ) ==> next@.contains(#[trigger] resolvent(c1@, c2, pivot)) && !resolvent(
                        c1@,
                        c2,
                        pivot,
                    ).is_empty(),
            decreases self.clauses.len() - j,
        {
            let c2 = &self.clauses[j];
            proof {
                let seen = self.members().take(j as int);
                assert(self.members()[j as int] == c2@);
                assert(self.members().take(j + 1) == seen.push(c2@));
                seen.lemma_push_to_set_commute(c2@);
                assert(self@.contains(c2@));
            }
            if Self::resolve_pair(c1, pivot, c2, next, observer) {
                assert(derives(self@, Set::empty())) by {
                    assert(resolvent(c1@, c2@, pivot) =~= Set::<Literal>::empty());
                }
                return true;
            }
            proof {
                if resolvable(c1@, c2@, pivot) {
                    assert(derives(self@, resolvent(c1@, c2@, pivot)));
                }
            }
            j = j + 1;
        }
        assert(self.members().take(self.clauses.len() as int) == self.members());
        false
    }

    /// Resolves `c1` on each of its literals against every clause held.
    fn resolve_clause<O: Observer>(&self, c1: &Clause, next: &mut Statement, observer: &mut O) -> (hit:
        bool)
        requires
            self@.contains(c1@),
            old(next)@.subset_of(step(self@)),
        ensures
            hit ==> refutes(self@),
            !hit ==> old(next)@.subset_of(final(next)@) && final(next)@.subset_of(step(self@)),
            !hit ==> forall|c2: Set<Literal>, pivot: Literal|
                self@.contains(c2) && resolvable(c1@, c2, pivot) ==> final(next)@.contains(
                    #[trigger] resolvent(c1@, c2, pivot),
                ) && !resolvent(c1@, c2, pivot).is_empty(),
    {
        let ghost start = next@;
        let n = c1.len();
        let mut a: usize = 0;
        while a < n
            invariant
                a <= n,
                n == c1.literals().len(),
                self@.contains(c1@),
                start.subset_of(next@),
                next@.subset_of(step(self@)),
                forall|c2: Set<Literal>, pivot: Literal|
                    self@.contains(c2) && c1.literals().take(a as int).to_set().contains(pivot)
                        && c2.contains(pivot.complement()) ==> next@.contains(
                        #[trigger] resolvent(c1@, c2, pivot),
                    ) && !resolvent(c1@, c2, pivot).is_empty(),
            decreases n - a,
        {
            let pivot = c1.literal(a);
            proof {
                let seen = c1.literals().take(a as int);
                assert(c1.literals().take(a + 1) == seen.push(pivot));
                seen.lemma_push_to_set_commute(pivot);
            }
            if self.resolve_literal(c1, pivot, next, observer) {
                return true;
            }
            a = a + 1;
        }
        assert(c1.literals().take(n as int) == c1.literals());
        false
    }

    /// One round of resolution, unobserved.
    pub fn round(&self) -> (out: Round)
        ensures
            match out {
                Round::Refuted => refutes(self@),
                Round::Saturated => !refutes(self@) && saturated(self@),
                Round::Grown(next) => !refutes(self@) && !saturated(self@) && next@ == step(
                    self@,
                ),
            },
    {
        let mut silent = Silent;
        self.round_with(&mut silent)
    }

    /// One round of resolution: every clause held is resolved against every
    /// clause held, on every literal whose complement the other holds. The
    /// round ends at the first step that yields the empty clause; otherwise
    /// every resolvent joins the clauses held. Each step is reported to
    /// `observer`.
    pub fn round_with<O: Observer>(&self, observer: &mut O) -> (out: Round)
        ensures
            match out {
                Round::Refuted => refutes(self@),
                Round::Saturated => !refutes(self@) && saturated(self@),
                Round::Grown(next) => !refutes(self@) && !saturated(self@) && next@ == step(
                    self@,
                ),
            },
    {
        let mut next = self.clone();
        let size = self.len();
        let mut i: usize = 0;
        while i < self.clauses.len()
            invariant
                i <= self.clauses.len(),
                self@.subset_of(next@),
                next@.subset_of(step(self@)),
                forall|c1: Set<Literal>, c2: Set<Literal>, pivot: Literal|
                    self.members().take(i as int).to_set().contains(c1) && self@.contains(c2)
                        && resolvable(c1, c2, pivot) ==> next@.contains(
                        #[trigger] resolvent(c1, c2, pivot),
                    ) && !resolvent(c1, c2, pivot).is_empty(),
            decreases self.clauses.len() - i,
        {
            let c1 = &self.clauses[i];
            proof {
                let seen = self.members().take(i as int);
                assert(self.members()[i as int] == c1@);
                assert(self.members().take(i + 1) == seen.push(c1@));
                seen.lemma_push_to_set_commute(c1@);
                assert(self@.contains(c1@));
            }
            if self.resolve_clause(c1, &mut next, observer) {
                return Round::Refuted;
            }
            i = i + 1;
        }
        proof {
            assert(self.members().take(self.clauses.len() as int) == self.members());
            assert(next@ =~= step(self@));
            lemma_saturated_is_fixpoint(self@);
            if next@.len() == self@.len() {
                lemma_subset_equality(self@, next@);
            }
        }
        if next.len() == size {
            Round::Saturated
        } else {
            Round::Grown(next)
        }
    }

    /// Decides by resolution whether the clauses held can be refuted,
    /// unobserved.
    pub fn resolve(&self) -> (refuted: bool)
        ensures
            refuted == refutable(self@),
            !self@.contains(Set::empty()) ==> refuted == !satisfiable(self@),
    {
        let mut silent = Silent;
        self.resolve_with(&mut silent)
    }

    /// Decides by resolution whether the clauses held can be refuted: rounds
    /// of resolution follow one another until one yields the empty clause
    /// (`true`) or adds nothing (`false`). Each step is reported to
    /// `observer`.
    ///
    /// Unless the empty clause is itself among the clauses held, `true` means
    /// that no assignment satisfies them all, and `false` that one does.
    pub fn resolve_with<O: Observer>(&self, observer: &mut O) -> (refuted: bool)
        ensures
            refuted == refutable(self@),
            !self@.contains(Set::empty()) ==> refuted == !satisfiable(self@),
    {
        let mut kb = self.clone();
        let ghost universe = atoms(self@);
        proof {
            assert forall|c: Set<Literal>| self@.contains(c) implies #[trigger] c.finite() by {
                let k = choose|k: int| 0 <= k < self.members().len() && self.members()[k] == c;
                assert(c == self.clauses@[k]@);
            }
            self@.lemma_flatten_finite();
            if !self@.contains(Set::empty()) {
                lemma_refutable_iff_unsatisfiable(self@, universe);
            }
        }
        loop
            invariant
                !self@.contains(Set::empty()) ==> refutable(self@) == !satisfiable(self@),
                refutable(kb@) == refutable(self@),
                universe.finite(),
                over(kb@, universe),
            decreases pow2(universe.len()) - kb@.len(),
        {
            proof {
                lemma_refutable_unfold(kb@);
                lemma_over_bounded(kb@, universe);
            }
            match kb.round_with(observer) {
                Round::Refuted => {
                    return true;
                },
                Round::Saturated => {
                    proof {
                        lemma_saturated_not_refutable(kb@);
                    }
                    return false;
                },
                Round::Grown(next) => {
                    proof {
                        lemma_step_over(kb@, universe);
                        lemma_over_bounded(next@, universe);
                        let r = choose|r: Set<Literal>| derives(kb@, r) && !kb@.contains(r);
                        kb@.lemma_subset_not_in_lt(next@, r);
                    }
                    kb = next;
                },
            }
        }
    }
}

impl Clone for Statement {
    fn clone(&self) -> (r: Statement)
        ensures
            r@ == self@,
    {
        proof {
            use_type_invariant(self);
        }
        let mut clauses: Vec<Clause> = Vec::new();
        let mut i: usize = 0;
        while i < self.clauses.len()
            invariant
                i <= self.clauses.len(),
                views(clauses@) == views(self.clauses@).take(i as int),
            decreases self.clauses.len() - i,
        {
            let c = self.clauses[i].clone();
            let ghost held = views(clauses@);
            let ghost v = c@;
            clauses.push(c);
            assert(views(clauses@) =~= held.push(v));
            assert(views(self.clauses@).take(i + 1) =~= held.push(v));
            i = i + 1;
        }
        assert(views(self.clauses@).take(self.clauses.len() as int) == views(self.clauses@));
        Statement { clauses }
    }
}

} // verus!
