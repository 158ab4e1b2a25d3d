//! The resolution calculus over mathematical sets: a clause is a set of
//! literals, a knowledge base is a set of clauses.

use crate::literal::Literal;
use vstd::prelude::*;

verus! {

/// `c1` and `c2` can be resolved on `pivot`: `c1` holds `pivot` and `c2` holds
/// its complement.
pub open spec fn resolvable(c1: Set<Literal>, c2: Set<Literal>, pivot: Literal) -> bool {
    c1.contains(pivot) && c2.contains(pivot.complement())
}

/// The resolvent of `c1` and `c2` on `pivot`: everything in `c1` but `pivot`,
/// joined with everything in `c2` but the complement of `pivot`.
pub open spec fn resolvent(c1: Set<Literal>, c2: Set<Literal>, pivot: Literal) -> Set<Literal> {
    c1.remove(pivot).union(c2.remove(pivot.complement()))
}

/// One resolution step on two clauses of `kb` yields `r`.
pub open spec fn derives(kb: Set<Set<Literal>>, r: Set<Literal>) -> bool {
    exists|c1: Set<Literal>, c2: Set<Literal>, pivot: Literal|
        kb.contains(c1) && kb.contains(c2) && resolvable(c1, c2, pivot) && #[trigger] resolvent(
            c1,
            c2,
            pivot,
        ) == r
}

/// One resolution step on `kb` yields the empty clause.
pub open spec fn refutes(kb: Set<Set<Literal>>) -> bool {
    derives(kb, Set::empty())
}

/// Every clause that one resolution step on `kb` yields is already in `kb`.
pub open spec fn saturated(kb: Set<Set<Literal>>) -> bool {
    forall|r: Set<Literal>| derives(kb, r) ==> kb.contains(r)
}

/// `kb` together with every clause that one resolution step on it yields.
pub open spec fn step(kb: Set<Set<Literal>>) -> Set<Set<Literal>> {
    Set::new(|r: Set<Literal>| kb.contains(r) || derives(kb, r))
}

/// `kb` after `n` rounds of `step`.
pub open spec fn after_rounds(kb: Set<Set<Literal>>, n: nat) -> Set<Set<Literal>>
    decreases n,
{
    if n == 0 {
        kb
    } else {
        step(after_rounds(kb, (n - 1) as nat))
    }
}

/// Some number of rounds leads from `kb` to a knowledge base on which one more
/// resolution step yields the empty clause.
pub open spec fn refutable(kb: Set<Set<Literal>>) -> bool {
    exists|n: nat| refutes(#[trigger] after_rounds(kb, n))
}

/// Saturation has come to an end after `n` rounds: the knowledge base reached
/// then either yields the empty clause or yields nothing new.
pub open spec fn halts_at(kb: Set<Set<Literal>>, n: nat) -> bool {
    refutes(after_rounds(kb, n)) || saturated(after_rounds(kb, n))
}

/// No two clauses of `kb` hold a literal and its complement.
pub open spec fn clash_free(kb: Set<Set<Literal>>) -> bool {
    forall|c1: Set<Literal>, c2: Set<Literal>, pivot: Literal|
        kb.contains(c1) && kb.contains(c2) ==> !#[trigger] resolvable(c1, c2, pivot)
}

/// A round of resolution never loses a clause.
pub proof fn lemma_step_grows(kb: Set<Set<Literal>>)
    ensures
        kb.subset_of(step(kb)),
{
}

/// A knowledge base is saturated exactly when a round of resolution leaves it
/// as it is.
pub proof fn lemma_saturated_is_fixpoint(kb: Set<Set<Literal>>)
    ensures
        saturated(kb) <==> step(kb) == kb,
{
    if saturated(kb) {
        assert(step(kb) =~= kb);
    }
    if step(kb) == kb {
        assert forall|r: Set<Literal>| derives(kb, r) implies kb.contains(r) by {
            assert(step(kb).contains(r));
        }
    }
}

/// `n + 1` rounds from `kb` are `n` rounds from `step(kb)`.
pub proof fn lemma_rounds_shift(kb: Set<Set<Literal>>, n: nat)
    ensures
        after_rounds(kb, n + 1) == after_rounds(step(kb), n),
    decreases n,
{
    if n == 0 {
        assert(after_rounds(kb, 0) == kb);
        assert(after_rounds(kb, 1) == step(after_rounds(kb, 0)));
    } else {
        lemma_rounds_shift(kb, (n - 1) as nat);
        assert(after_rounds(kb, n + 1) == step(after_rounds(kb, n)));
    }
}

/// Rounds of resolution leave a saturated knowledge base as it is.
pub proof fn lemma_rounds_saturated(kb: Set<Set<Literal>>, n: nat)
    requires
        saturated(kb),
    ensures
        after_rounds(kb, n) == kb,
    decreases n,
{
    if n > 0 {
        lemma_rounds_saturated(kb, (n - 1) as nat);
        lemma_saturated_is_fixpoint(kb);
    }
}

/// Resolution on a saturated knowledge base that does not yield the empty
/// clause adds nothing in its first round and refutes nothing, however often
/// it is run again.
pub proof fn lemma_saturated_not_refutable(kb: Set<Set<Literal>>)
    requires
        saturated(kb),
        !refutes(kb),
    ensures
        step(kb) == kb,
        !refutable(kb),
{
    lemma_saturated_is_fixpoint(kb);
    assert forall|n: nat| !refutes(#[trigger] after_rounds(kb, n)) by {
        lemma_rounds_saturated(kb, n);
    }
}

/// A knowledge base is refutable exactly when one step yields the empty clause
/// or the knowledge base after one round is refutable.
pub proof fn lemma_refutable_unfold(kb: Set<Set<Literal>>)
    ensures
        refutable(kb) == (refutes(kb) || refutable(step(kb))),
{
    if refutable(kb) && !refutes(kb) {
        let n = choose|n: nat| refutes(#[trigger] after_rounds(kb, n));
        assert(n > 0);
        lemma_rounds_shift(kb, (n - 1) as nat);
        assert(refutes(after_rounds(step(kb), (n - 1) as nat)));
    }
    if refutes(kb) {
        assert(after_rounds(kb, 0) == kb);
    }
    if refutable(step(kb)) {
        let n = choose|n: nat| refutes(#[trigger] after_rounds(step(kb), n));
        lemma_rounds_shift(kb, n);
        assert(refutes(after_rounds(kb, n + 1)));
    }
}

/// Where no two clauses hold a literal and its complement, resolution derives
/// nothing: the knowledge base is saturated and cannot be refuted.
pub proof fn lemma_clash_free_not_refutable(kb: Set<Set<Literal>>)
    requires
        clash_free(kb),
    ensures
        saturated(kb),
        !refutes(kb),
        !refutable(kb),
{
    assert forall|r: Set<Literal>| !derives(kb, r) by {
        if derives(kb, r) {
            let (c1, c2, pivot) = choose|c1: Set<Literal>, c2: Set<Literal>, pivot: Literal|
                kb.contains(c1) && kb.contains(c2) && resolvable(c1, c2, pivot)
                    && #[trigger] resolvent(c1, c2, pivot) == r;
            assert(resolvable(c1, c2, pivot));
        }
    }
    lemma_saturated_not_refutable(kb);
}

} // verus!
