//! Why saturation comes to an end: over finitely many literals there are
//! finitely many clauses, and every round but the last adds one.

use crate::literal::Literal;
use crate::logic::{
    after_rounds, derives, halts_at, lemma_saturated_not_refutable, refutable, refutes,
    resolvable, resolvent, saturated, step,
};
use vstd::arithmetic::power2::{lemma_pow2_strictly_increases, lemma_pow2_unfold, pow2};
use vstd::prelude::*;
use vstd::set_lib::{lemma_len_subset, lemma_len_union, lemma_map_size_bound};

verus! {

/// Every clause of `kb` is made of literals of `universe`.
pub open spec fn over(kb: Set<Set<Literal>>, universe: Set<Literal>) -> bool {
    forall|c: Set<Literal>| #[trigger] kb.contains(c) ==> c.subset_of(universe)
}

/// The literals that occur in the clauses of `kb`.
pub open spec fn atoms(kb: Set<Set<Literal>>) -> Set<Literal> {
    kb.flatten()
}

/// The clauses that can be made of literals of `universe`.
pub open spec fn subsets(universe: Set<Literal>) -> Set<Set<Literal>> {
    Set::new(|c: Set<Literal>| c.subset_of(universe))
}

/// The literals, of either polarity, over the variables `vars`.
pub open spec fn literals_over(vars: Set<u32>) -> Set<Literal> {
    Set::new(|l: Literal| vars.contains(l.m))
}

/// A round of resolution brings in no literal that was not there before.
pub proof fn lemma_step_over(kb: Set<Set<Literal>>, universe: Set<Literal>)
    requires
        over(kb, universe),
    ensures
        over(step(kb), universe),
{
    assert forall|c: Set<Literal>| #[trigger] step(kb).contains(c) implies c.subset_of(
        universe,
    ) by {
        if !kb.contains(c) {
            let (c1, c2, pivot) = choose|c1: Set<Literal>, c2: Set<Literal>, pivot: Literal|
                kb.contains(c1) && kb.contains(c2) && resolvable(c1, c2, pivot)
                    && #[trigger] resolvent(c1, c2, pivot) == c;
            assert(c1.subset_of(universe));
            assert(c2.subset_of(universe));
        }
    }
}

/// No number of rounds brings in a literal that was not there before.
pub proof fn lemma_rounds_over(kb: Set<Set<Literal>>, universe: Set<Literal>, n: nat)
    requires
        over(kb, universe),
    ensures
        over(after_rounds(kb, n), universe),
    decreases n,
{
    if n > 0 {
        lemma_rounds_over(kb, universe, (n - 1) as nat);
        lemma_step_over(after_rounds(kb, (n - 1) as nat), universe);
    }
}

/// A finite set of `k` literals has at most `2^k` subsets.
pub proof fn lemma_subsets_bounded(universe: Set<Literal>)
    requires
        universe.finite(),
    ensures
        subsets(universe).finite(),
        subsets(universe).len() <= pow2(universe.len()),
    decreases universe.len(),
{
    if universe.len() == 0 {
        let only = Set::<Set<Literal>>::empty().insert(Set::<Literal>::empty());
        assert forall|c: Set<Literal>| subsets(universe).contains(c) <==> only.contains(c) by {
            if c.subset_of(universe) {
                assert(c =~= Set::<Literal>::empty());
            }
        }
        assert(subsets(universe) =~= only);
        assert(pow2(0) == 1) by {
            reveal(pow2);
            reveal(vstd::arithmetic::power::pow);
        }
    } else {
        let x = universe.choose();
        let rest = universe.remove(x);
        lemma_subsets_bounded(rest);
        let without = subsets(rest);
        let f = |c: Set<Literal>| c.insert(x);
        let with = without.map(f);
        lemma_map_size_bound(without, with, f);
        lemma_len_union(without, with);
        assert forall|c: Set<Literal>| subsets(universe).contains(c) <==> without.union(
            with,
        ).contains(c) by {
            if c.subset_of(universe) {
                if c.contains(x) {
                    let c0 = c.remove(x);
                    assert(c0.subset_of(rest));
                    assert(without.contains(c0));
                    assert(c =~= f(c0));
                    assert(with.contains(c));
                } else {
                    assert(c.subset_of(rest));
                }
            }
            if with.contains(c) {
                let c0 = choose|c0: Set<Literal>| without.contains(c0) && c == f(c0);
                assert(c0.subset_of(rest));
                assert(c.subset_of(universe));
            }
        }
        assert(subsets(universe) =~= without.union(with));
        lemma_pow2_unfold(universe.len());
    }
}

/// A knowledge base over `k` literals holds at most `2^k` clauses.
pub proof fn lemma_over_bounded(kb: Set<Set<Literal>>, universe: Set<Literal>)
    requires
        universe.finite(),
        over(kb, universe),
    ensures
        kb.finite(),
        kb.len() <= pow2(universe.len()),
{
    lemma_subsets_bounded(universe);
    assert(kb.subset_of(subsets(universe)));
    lemma_len_subset(kb, subsets(universe));
}

/// As long as saturation has not come to an end, every round adds a clause.
proof fn lemma_growth(kb: Set<Set<Literal>>, universe: Set<Literal>, n: nat)
    requires
        universe.finite(),
        over(kb, universe),
        forall|k: nat| k < n ==> !saturated(#[trigger] after_rounds(kb, k)),
    ensures
        after_rounds(kb, n).len() >= n,
    decreases n,
{
    if n > 0 {
        let m = (n - 1) as nat;
        lemma_growth(kb, universe, m);
        let before = after_rounds(kb, m);
        let after = after_rounds(kb, n);
        assert(after == step(before));
        assert(!saturated(before));
        let r = choose|r: Set<Literal>| derives(before, r) && !before.contains(r);
        lemma_rounds_over(kb, universe, n);
        lemma_over_bounded(after, universe);
        before.lemma_subset_not_in_lt(after, r);
    }
}

/// Saturation of a knowledge base over `k` literals comes to an end within
/// `2^k` rounds.
pub proof fn lemma_halts_within(kb: Set<Set<Literal>>, universe: Set<Literal>)
    requires
        universe.finite(),
        over(kb, universe),
    ensures
        exists|n: nat| n <= pow2(universe.len()) && #[trigger] halts_at(kb, n),
{
    let bound = pow2(universe.len());
    if forall|n: nat| n <= bound ==> !#[trigger] halts_at(kb, n) {
        assert forall|k: nat| k < bound + 1 implies !saturated(#[trigger] after_rounds(kb, k)) by {
            assert(!halts_at(kb, k));
        }
        lemma_growth(kb, universe, bound + 1);
        lemma_rounds_over(kb, universe, bound + 1);
        lemma_over_bounded(after_rounds(kb, bound + 1), universe);
    }
}

/// Over `n` variables there are at most `2 n` literals.
pub proof fn lemma_literals_over_bounded(vars: Set<u32>)
    requires
        vars.finite(),
    ensures
        literals_over(vars).finite(),
        literals_over(vars).len() <= 2 * vars.len(),
{
    let pos = |m: u32| Literal { m, negated: false };
    let neg = |m: u32| Literal { m, negated: true };
    let asserted = vars.map(pos);
    let negated = vars.map(neg);
    lemma_map_size_bound(vars, asserted, pos);
    lemma_map_size_bound(vars, negated, neg);
    lemma_len_union(asserted, negated);
    assert forall|l: Literal| literals_over(vars).contains(l) <==> asserted.union(
        negated,
    ).contains(l) by {
        if vars.contains(l.m) {
            if l.negated {
                assert(l == neg(l.m));
                assert(negated.contains(l));
            } else {
                assert(l == pos(l.m));
                assert(asserted.contains(l));
            }
        }
    }
    assert(literals_over(vars) =~= asserted.union(negated));
}

/// Saturation of a knowledge base whose variables are drawn from a set of
/// size `n` comes to an end within `2^(2 n)` rounds.
pub proof fn lemma_rounds_bounded(kb: Set<Set<Literal>>, vars: Set<u32>)
    requires
        vars.finite(),
        forall|c: Set<Literal>, l: Literal| kb.contains(c) && c.contains(l) ==> vars.contains(l.m),
    ensures
        exists|n: nat| n <= pow2(2 * vars.len()) && #[trigger] halts_at(kb, n),
{
    let universe = literals_over(vars);
    lemma_literals_over_bounded(vars);
    assert(over(kb, universe));
    lemma_halts_within(kb, universe);
    if universe.len() < 2 * vars.len() {
        lemma_pow2_strictly_increases(universe.len(), 2 * vars.len());
    }
}

/// A knowledge base that is not refutable reaches, after some rounds, a
/// saturated one, which is not refutable either.
pub proof fn lemma_unrefutable_saturates(kb: Set<Set<Literal>>, universe: Set<Literal>)
    requires
        universe.finite(),
        over(kb, universe),
        !refutable(kb),
    ensures
        exists|n: nat|
            saturated(#[trigger] after_rounds(kb, n)) && !refutes(after_rounds(kb, n))
                && !refutable(after_rounds(kb, n)),
{
    lemma_halts_within(kb, universe);
    let n = choose|n: nat| n <= pow2(universe.len()) && #[trigger] halts_at(kb, n);
    assert(!refutes(after_rounds(kb, n)));
    lemma_saturated_not_refutable(after_rounds(kb, n));
}

} // verus!
