//! What resolution is for: a knowledge base is refutable exactly when no
//! assignment of truth values to the variables satisfies all its clauses.

use crate::bound::{lemma_unrefutable_saturates, over};
use crate::literal::Literal;
use crate::logic::{
    after_rounds, derives, refutable, refutes, resolvable, resolvent, saturated, step,
};
use vstd::prelude::*;

verus! {

/// Whether `l` holds under the assignment that makes exactly the variables in
/// `truths` true.
pub open spec fn holds(truths: Set<u32>, l: Literal) -> bool {
    truths.contains(l.m) != l.negated
}

/// Whether the assignment `truths` makes some literal of `c` hold.
pub open spec fn satisfies_clause(truths: Set<u32>, c: Set<Literal>) -> bool {
    exists|l: Literal| c.contains(l) && #[trigger] holds(truths, l)
}

/// Whether the assignment `truths` satisfies every clause of `kb`.
pub open spec fn satisfies(truths: Set<u32>, kb: Set<Set<Literal>>) -> bool {
    forall|c: Set<Literal>| #[trigger] kb.contains(c) ==> satisfies_clause(truths, c)
}

/// An assignment that satisfies two clauses satisfies their resolvent.
pub proof fn lemma_resolvent_sound(
    truths: Set<u32>,
    c1: Set<Literal>,
    c2: Set<Literal>,
    pivot: Literal,
)
    requires
        satisfies_clause(truths, c1),
        satisfies_clause(truths, c2),
    ensures
        satisfies_clause(truths, resolvent(c1, c2, pivot)),
{
    let l1 = choose|l: Literal| c1.contains(l) && #[trigger] holds(truths, l);
    let l2 = choose|l: Literal| c2.contains(l) && #[trigger] holds(truths, l);
    if holds(truths, pivot) {
        assert(l2 != pivot.complement());
        assert(resolvent(c1, c2, pivot).contains(l2));
    } else {
        assert(l1 != pivot);
        assert(resolvent(c1, c2, pivot).contains(l1));
    }
}

/// An assignment that satisfies a knowledge base satisfies it after any
/// number of rounds.
pub proof fn lemma_rounds_sound(truths: Set<u32>, kb: Set<Set<Literal>>, n: nat)
    requires
        satisfies(truths, kb),
    ensures
        satisfies(truths, after_rounds(kb, n)),
    decreases n,
{
    if n > 0 {
        let before = after_rounds(kb, (n - 1) as nat);
        lemma_rounds_sound(truths, kb, (n - 1) as nat);
        assert forall|c: Set<Literal>| #[trigger] step(before).contains(c) implies satisfies_clause(
            truths,
            c,
        ) by {
            if !before.contains(c) {
                let (c1, c2, pivot) = choose|c1: Set<Literal>, c2: Set<Literal>, pivot: Literal|
                    before.contains(c1) && before.contains(c2) && resolvable(c1, c2, pivot)
                        && #[trigger] resolvent(c1, c2, pivot) == c;
                lemma_resolvent_sound(truths, c1, c2, pivot);
            }
        }
    }
}

/// Resolution is sound: no assignment satisfies a refutable knowledge base.
pub proof fn lemma_refutable_unsatisfiable(kb: Set<Set<Literal>>, truths: Set<u32>)
    requires
        refutable(kb),
    ensures
        !satisfies(truths, kb),
{
    if satisfies(truths, kb) {
        let n = choose|n: nat| refutes(#[trigger] after_rounds(kb, n));
        let reached = after_rounds(kb, n);
        lemma_rounds_sound(truths, kb, n);
        let (c1, c2, pivot) = choose|c1: Set<Literal>, c2: Set<Literal>, pivot: Literal|
            reached.contains(c1) && reached.contains(c2) && resolvable(c1, c2, pivot)
                && #[trigger] resolvent(c1, c2, pivot) == Set::<Literal>::empty();
        lemma_resolvent_sound(truths, c1, c2, pivot);
        assert(false);
    }
}

/// Some assignment satisfies every clause of `kb`.
pub open spec fn satisfiable(kb: Set<Set<Literal>>) -> bool {
    exists|truths: Set<u32>| #[trigger] satisfies(truths, kb)
}

/// Every variable of `c` is below `k`.
spec fn below(c: Set<Literal>, k: nat) -> bool {
    forall|l: Literal| #[trigger] c.contains(l) ==> l.m < k
}

/// Some clause of `kb` over the variables below `k` fails under `truths`.
spec fn blocked(kb: Set<Set<Literal>>, truths: Set<u32>, k: nat) -> bool {
    exists|c: Set<Literal>| #[trigger] kb.contains(c) && below(c, k) && !satisfies_clause(truths, c)
}

/// An assignment to the variables below `k`, chosen variable by variable: each
/// one is made true unless that lets a clause over the variables so far fail.
spec fn model(kb: Set<Set<Literal>>, k: nat) -> Set<u32>
    decreases k,
{
    if k == 0 {
        Set::empty()
    } else {
        let chosen = model(kb, (k - 1) as nat);
        let x = (k - 1) as u32;
        if blocked(kb, chosen.insert(x), k) {
            chosen
        } else {
            chosen.insert(x)
        }
    }
}

/// Over a saturated knowledge base without the empty clause, `model` lets no
/// clause over the variables below `k` fail.
proof fn lemma_model(kb: Set<Set<Literal>>, k: nat)
    requires
        saturated(kb),
        !kb.contains(Set::empty()),
        k <= 0x1_0000_0000,
    ensures
        forall|v: u32| model(kb, k).contains(v) ==> v < k,
        forall|c: Set<Literal>| #[trigger]
            kb.contains(c) && below(c, k) ==> satisfies_clause(model(kb, k), c),
    decreases k,
{
    if k == 0 {
        assert forall|c: Set<Literal>| #[trigger] kb.contains(c) && below(c, 0) implies false by {
            assert(c =~= Set::<Literal>::empty());
        }
    } else {
        let j = (k - 1) as nat;
        let x = j as u32;
        let chosen = model(kb, j);
        let with = chosen.insert(x);
        let px = Literal { m: x, negated: false };
        let nx = Literal { m: x, negated: true };
        lemma_model(kb, j);
        assert(!chosen.contains(x));
        if blocked(kb, with, k) {
            let c0 = choose|c: Set<Literal>| #[trigger]
                kb.contains(c) && below(c, k) && !satisfies_clause(with, c);
            assert(!c0.contains(px)) by {
                if c0.contains(px) {
                    assert(holds(with, px));
                }
            }
            assert forall|c: Set<Literal>| #[trigger]
                kb.contains(c) && below(c, k) implies satisfies_clause(chosen, c) by {
                if !satisfies_clause(chosen, c) {
                    assert(!c.contains(nx)) by {
                        if c.contains(nx) {
                            assert(holds(chosen, nx));
                        }
                    }
                    if !c.contains(px) {
                        assert(below(c, j)) by {
                            assert forall|l: Literal| #[trigger] c.contains(l) implies l.m < j by {
                                assert(l.m < k);
                                if l.m == x {
                                    assert(l == px || l == nx);
                                }
                            }
                        }
                    } else if !c0.contains(nx) {
                        assert(below(c0, j)) by {
                            assert forall|l: Literal| #[trigger] c0.contains(l) implies l.m
                                < j by {
                                assert(l.m < k);
                                if l.m == x {
                                    assert(l == px || l == nx);
                                }
                            }
                        }
                        let l = choose|l: Literal| c0.contains(l) && #[trigger] holds(chosen, l);
                        assert(holds(with, l));
                    } else {
                        let r = resolvent(c, c0, px);
                        assert(nx == px.complement());
                        assert(resolvable(c, c0, px));
                        assert(derives(kb, r));
                        assert(below(r, j)) by {
                            assert forall|l: Literal| #[trigger] r.contains(l) implies l.m < j by {
                                assert(c.contains(l) || c0.contains(l));
                                assert(l.m < k);
                                if l.m == x {
                                    assert(l == px || l == nx);
                                }
                            }
                        }
                        let l = choose|l: Literal| r.contains(l) && #[trigger] holds(chosen, l);
                        if !c.contains(l) {
                            assert(c0.contains(l));
                            assert(l.m != x) by {
                                if l.m == x {
                                    assert(l == px || l == nx);
                                }
                            }
                            assert(holds(with, l));
                        }
                    }
                }
            }
        }
    }
}

/// Resolution is complete: a saturated knowledge base that does not hold the
/// empty clause is satisfiable.
pub proof fn lemma_saturated_satisfiable(kb: Set<Set<Literal>>)
    requires
        saturated(kb),
        !kb.contains(Set::empty()),
    ensures
        satisfiable(kb),
{
    let k: nat = 0x1_0000_0000;
    lemma_model(kb, k);
    assert forall|c: Set<Literal>| #[trigger] kb.contains(c) implies satisfies_clause(
        model(kb, k),
        c,
    ) by {
        assert(below(c, k));
    }
    assert(satisfies(model(kb, k), kb));
}

/// Rounds that do not yield the empty clause do not bring it in.
proof fn lemma_rounds_keep_out_empty(kb: Set<Set<Literal>>, n: nat)
    requires
        !kb.contains(Set::empty()),
        !refutable(kb),
    ensures
        !after_rounds(kb, n).contains(Set::empty()),
        kb.subset_of(after_rounds(kb, n)),
    decreases n,
{
    if n > 0 {
        lemma_rounds_keep_out_empty(kb, (n - 1) as nat);
        assert(!refutes(after_rounds(kb, (n - 1) as nat)));
    }
}

/// Resolution decides satisfiability: a knowledge base over finitely many
/// literals that does not hold the empty clause is refutable exactly when no
/// assignment satisfies it.
pub proof fn lemma_refutable_iff_unsatisfiable(kb: Set<Set<Literal>>, universe: Set<Literal>)
    requires
        universe.finite(),
        over(kb, universe),
        !kb.contains(Set::empty()),
    ensures
        refutable(kb) <==> !satisfiable(kb),
{
    if refutable(kb) {
        assert forall|truths: Set<u32>| !#[trigger] satisfies(truths, kb) by {
            lemma_refutable_unsatisfiable(kb, truths);
        }
    } else {
        lemma_unrefutable_saturates(kb, universe);
        let n = choose|n: nat|
            saturated(#[trigger] after_rounds(kb, n)) && !refutes(after_rounds(kb, n))
                && !refutable(after_rounds(kb, n));
        let reached = after_rounds(kb, n);
        lemma_rounds_keep_out_empty(kb, n);
        lemma_saturated_satisfiable(reached);
        let truths = choose|truths: Set<u32>| #[trigger] satisfies(truths, reached);
        assert(satisfies(truths, kb));
    }
}

} // verus!
