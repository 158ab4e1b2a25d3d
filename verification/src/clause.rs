//! Clauses: finite sets of literals, kept in one canonical order.

use crate::literal::Literal;
use crate::logic::resolvent;
use crate::text::{clause_text, listing, push_literal};
use vstd::prelude::*;
use vstd::std_specs::cmp::PartialEqSpec;
use vstd::string::StringExecFns;

verus! {

/// A sequence of literals is canonical when it is strictly increasing in the
/// order of `Literal::precedes`; in particular no literal occurs twice.
pub open spec fn canonical(s: Seq<Literal>) -> bool {
    forall|i: int, j: int| 0 <= i < j < s.len() ==> (#[trigger] s[i]).precedes(#[trigger] s[j])
}

/// The first index of `v` whose literal does not come before `l`.
fn position(v: &Vec<Literal>, l: Literal) -> (i: usize)
    requires
        canonical(v@),
    ensures
        i <= v.len(),
        forall|k: int| 0 <= k < i ==> (#[trigger] v@[k]).precedes(l),
        forall|k: int| i <= k < v.len() ==> !(#[trigger] v@[k]).precedes(l),
{
    let mut i: usize = 0;
    while i < v.len() && v[i] < l
        invariant
            i <= v.len(),
            canonical(v@),
            forall|k: int| 0 <= k < i ==> (#[trigger] v@[k]).precedes(l),
        decreases v.len() - i,
    {
        i = i + 1;
    }
    assert forall|k: int| i <= k < v.len() implies !(#[trigger] v@[k]).precedes(l) by {
        if i < k {
            assert(v@[i as int].precedes(v@[k]));
        }
    }
    i
}

/// Adds `l` to a canonical vector, keeping it canonical.
fn insert_sorted(v: &mut Vec<Literal>, l: Literal)
    requires
        canonical(old(v)@),
    ensures
        canonical(final(v)@),
        final(v)@.to_set() == old(v)@.to_set().insert(l),
{
    let i = position(v, l);
    if i < v.len() && v[i] == l {
        assert(old(v)@.to_set().contains(l)) by {
            assert(old(v)@[i as int] == l);
        }
        assert(old(v)@.to_set().insert(l) =~= old(v)@.to_set());
        return ;
    }
    v.insert(i, l);
    proof {
        let a = old(v)@;
        let b = v@;
        assert(b == a.insert(i as int, l));
        assert forall|p: int, q: int| 0 <= p < q < b.len() implies (#[trigger] b[p]).precedes(
            #[trigger] b[q],
        ) by {
            if q < i {
                assert(b[p] == a[p] && b[q] == a[q]);
            } else if q == i {
                assert(b[p] == a[p]);
            } else if p < i {
                assert(b[p] == a[p] && b[q] == a[q - 1]);
                if q - 1 > p {
                    assert(a[p].precedes(a[q - 1]));
                }
            } else if p == i {
                assert(b[q] == a[q - 1]);
                assert(!a[q - 1].precedes(l));
            } else {
                assert(b[p] == a[p - 1] && b[q] == a[q - 1]);
                assert(a[p - 1].precedes(a[q - 1]));
            }
        }
        assert forall|x: Literal| b.to_set().contains(x) <==> a.to_set().insert(l).contains(
            x,
        ) by {
            if b.to_set().contains(x) {
                let k = choose|k: int| 0 <= k < b.len() && b[k] == x;
                if k < i {
                    assert(a[k] == x);
                } else if k > i {
                    assert(a[k - 1] == x);
                }
            }
            if a.to_set().contains(x) {
                let k = choose|k: int| 0 <= k < a.len() && a[k] == x;
                if k < i {
                    assert(b[k] == x);
                } else {
                    assert(b[k + 1] == x);
                }
            }
            if x == l {
                assert(b[i as int] == x);
            }
        }
        assert(b.to_set() =~= a.to_set().insert(l));
    }
}

/// Takes `l` out of a canonical vector, and says whether it was there.
fn remove_sorted(v: &mut Vec<Literal>, l: Literal) -> (found: bool)
    requires
        canonical(old(v)@),
    ensures
        canonical(final(v)@),
        found == old(v)@.to_set().contains(l),
        final(v)@.to_set() == old(v)@.to_set().remove(l),
{
    let i = position(v, l);
    if i < v.len() && v[i] == l {
        v.remove(i);
        proof {
            let a = old(v)@;
            let b = v@;
            assert(b == a.remove(i as int));
            assert(a[i as int] == l);
            assert forall|p: int, q: int| 0 <= p < q < b.len() implies (#[trigger] b[p]).precedes(
                #[trigger] b[q],
            ) by {
                let p0 = if p < i { p } else { p + 1 };
                let q0 = if q < i { q } else { q + 1 };
                assert(b[p] == a[p0] && b[q] == a[q0]);
                assert(a[p0].precedes(a[q0]));
            }
            assert forall|x: Literal| b.to_set().contains(x) <==> a.to_set().remove(l).contains(
                x,
            ) by {
                if b.to_set().contains(x) {
                    let k = choose|k: int| 0 <= k < b.len() && b[k] == x;
                    let k0 = if k < i { k } else { k + 1 };
                    assert(a[k0] == x);
                    if k0 < i {
                        assert(a[k0].precedes(a[i as int]));
                    } else {
                        assert(a[i as int].precedes(a[k0]));
                    }
                }
                if a.to_set().contains(x) && x != l {
                    let k = choose|k: int| 0 <= k < a.len() && a[k] == x;
                    if k < i {
                        assert(b[k] == x);
                    } else {
                        assert(b[k - 1] == x);
                    }
                }
            }
            assert(b.to_set() =~= a.to_set().remove(l));
        }
        true
    } else {
        proof {
            let a = old(v)@;
            if a.to_set().contains(l) {
                let k = choose|k: int| 0 <= k < a.len() && a[k] == l;
                if k < i {
                    assert(a[k].precedes(l));
                } else if k > i {
                    assert(!a[i as int].precedes(l));
                    assert(a[i as int].precedes(a[k]));
                }
            }
            assert(a.to_set().remove(l) =~= a.to_set());
        }
        false
    }
}

/// A disjunction of literals, held as a set: the order and the repetitions of
/// the literals it was built from are forgotten.
#[derive(Debug, Hash)]
pub struct Clause {
    lits: Vec<Literal>,
}

impl View for Clause {
    type V = Set<Literal>;

    /// The set of literals of the clause.
    open spec fn view(&self) -> Set<Literal> {
        self.literals().to_set()
    }
}

impl Clause {
    #[verifier::type_invariant]
    spec fn inv(self) -> bool {
        canonical(self.lits@)
    }

    /// The literals of the clause in canonical order.
    pub closed spec fn literals(&self) -> Seq<Literal> {
        self.lits@
    }

    /// Builds the clause that holds exactly the literals of `lits`.
    pub fn new(lits: &[Literal]) -> (c: Clause)
        ensures
            c@ == lits@.to_set(),
            canonical(c.literals()),
            c@.is_empty() == (lits@.len() == 0),
    {
        let mut acc: Vec<Literal> = Vec::new();
        let mut i: usize = 0;
        while i < lits.len()
            invariant
                i <= lits.len(),
                canonical(acc@),
                acc@.to_set() == lits@.take(i as int).to_set(),
            decreases lits.len() - i,
        {
            insert_sorted(&mut acc, lits[i]);
            proof {
                let before = lits@.take(i as int);
                let after = lits@.take(i + 1);
                assert(after == before.push(lits@[i as int]));
                before.lemma_push_to_set_commute(lits@[i as int]);
            }
            i = i + 1;
        }
        assert(lits@.take(lits.len() as int) == lits@);
        proof {
            if lits@.len() > 0 {
                assert(lits@.to_set().contains(lits@[0]));
            }
        }
        Clause { lits: acc }
    }

    /// The clause written out: the empty-set sign for the empty clause, else
    /// its literals in canonical order between braces.
    pub fn to_string(&self) -> (s: String)
        ensures
            s@ == clause_text(self.literals()),
            canonical(self.literals()),
    {
        proof {
            use_type_invariant(self);
            reveal_strlit("\u{2205}");
            reveal_strlit("{");
            reveal_strlit(", ");
            reveal_strlit("}");
        }
        if self.lits.len() == 0 {
            let s = String::from_str("\u{2205}");
            assert(s@ =~= clause_text(self.literals()));
            return s;
        }
        let mut out = String::from_str("{");
        push_literal(&mut out, self.lits[0]);
        assert(self.lits@.take(1) =~= seq![self.lits@[0]]);
        assert(out@ =~= seq!['{'] + listing(self.lits@.take(1)));
        let mut i: usize = 1;
        while i < self.lits.len()
            invariant
                1 <= i <= self.lits.len(),
                out@ == seq!['{'] + listing(self.lits@.take(i as int)),
            decreases self.lits.len() - i,
        {
            out.append(", ");
            push_literal(&mut out, self.lits[i]);
            proof {
                reveal_strlit(", ");
                let upto = self.lits@.take(i + 1);
                assert(", "@ =~= seq![',', ' ']);
                assert(upto.drop_last() =~= self.lits@.take(i as int));
                assert(upto.last() == self.lits@[i as int]);
                assert(out@ =~= seq!['{'] + listing(upto));
            }
            i = i + 1;
        }
        assert(self.lits@.take(self.lits.len() as int) == self.lits@);
        out.append("}");
        assert(out@ =~= clause_text(self.literals()));
        out
    }

    /// The number of literals of the clause.
    pub fn len(&self) -> (n: usize)
        ensures
            n == self.literals().len(),
            n == self@.len(),
            canonical(self.literals()),
    {
        proof {
            use_type_invariant(self);
            lemma_canonical_distinct(self.lits@);
            self.lits@.unique_seq_to_set();
        }
        self.lits.len()
    }

    /// The literal at place `i` of the canonical order.
    pub fn literal(&self, i: usize) -> (l: Literal)
        requires
            i < self.literals().len(),
        ensures
            l == self.literals()[i as int],
            self@.contains(l),
    {
        self.lits[i]
    }

    /// Whether the clause holds no literal: the empty clause, a contradiction.
    pub fn is_empty(&self) -> (r: bool)
        ensures
            r == self@.is_empty(),
    {
        let r = self.lits.len() == 0;
        proof {
            if !r {
                assert(self@.contains(self.lits@[0]));
            }
        }
        r
    }

    /// The resolvent of `self` and `with` on `target`, a literal of `self`:
    /// `self` without `target`, joined with `with` without the complement of
    /// `target`.
    pub fn rule_out(&self, with: &Clause, target: &Literal) -> (r: Clause)
        requires
            self@.contains(*target),
        ensures
            r@ == resolvent(self@, with@, *target),
            canonical(r.literals()),
    {
        proof {
            use_type_invariant(self);
            use_type_invariant(with);
        }
        let mut set = self.lits.clone();
        assert(set@ == self.lits@);
        remove_sorted(&mut set, *target);
        let mut i: usize = 0;
        while i < with.lits.len()
            invariant
                i <= with.lits.len(),
                canonical(set@),
                set@.to_set() == self@.remove(*target).union(
                    with.lits@.take(i as int).to_set().remove(target.complement()),
                ),
            decreases with.lits.len() - i,
        {
            let literal = with.lits[i];
            proof {
                let before = with.lits@.take(i as int);
                let after = with.lits@.take(i + 1);
                assert(after == before.push(literal));
                before.lemma_push_to_set_commute(literal);
            }
            if literal.m != target.m || literal.negated == target.negated {
                insert_sorted(&mut set, literal);
            }
            i = i + 1;
        }
        assert(with.lits@.take(with.lits.len() as int) == with.lits@);
        Clause { lits: set }
    }
}

impl Clone for Clause {
    fn clone(&self) -> (r: Clause)
        ensures
            r@ == self@,
            r.literals() == self.literals(),
    {
        proof {
            use_type_invariant(self);
        }
        let lits = self.lits.clone();
        assert(lits@ == self.lits@);
        Clause { lits }
    }
}

impl PartialEq for Clause {
    fn eq(&self, other: &Clause) -> (r: bool) {
        proof {
            use_type_invariant(self);
            use_type_invariant(other);
            if self@ == other@ {
                lemma_canonical_unique(self.lits@, other.lits@);
            }
        }
        if self.lits.len() != other.lits.len() {
            return false;
        }
        let mut i: usize = 0;
        while i < self.lits.len()
            invariant
                i <= self.lits.len(),
                self.lits.len() == other.lits.len(),
                self@ == other@ ==> self.lits@ == other.lits@,
                forall|k: int| 0 <= k < i ==> self.lits@[k] == other.lits@[k],
            decreases self.lits.len() - i,
        {
            if self.lits[i] != other.lits[i] {
                return false;
            }
            i = i + 1;
        }
        assert(self.lits@ =~= other.lits@);
        true
    }
}

impl Eq for Clause {

}

impl vstd::std_specs::cmp::PartialEqSpecImpl for Clause {
    open spec fn obeys_eq_spec() -> bool {
        true
    }

    open spec fn eq_spec(&self, other: &Clause) -> bool {
        self@ == other@
    }
}

/// In a canonical sequence no literal occurs twice.
pub proof fn lemma_canonical_distinct(a: Seq<Literal>)
    requires
        canonical(a),
    ensures
        a.no_duplicates(),
{
    assert forall|i: int, j: int| 0 <= i < a.len() && 0 <= j < a.len() && i != j implies a[i]
        != a[j] by {
        if i < j {
            assert(a[i].precedes(a[j]));
        } else {
            assert(a[j].precedes(a[i]));
        }
    }
}

/// Two lists of literals of which one is a permutation of the other hold the
/// same literals.
pub proof fn lemma_permutation_same_literals(a: Seq<Literal>, b: Seq<Literal>)
    requires
        a.to_multiset() == b.to_multiset(),
    ensures
        a.to_set() == b.to_set(),
{
    assert forall|l: Literal| a.to_set().contains(l) <==> b.to_set().contains(l) by {
        vstd::seq_lib::to_multiset_contains(a, l);
        vstd::seq_lib::to_multiset_contains(b, l);
    }
    assert(a.to_set() =~= b.to_set());
}

/// Clauses built from two lists of which one is a permutation of the other
/// cannot be told apart: they hold the same literals in the same order, and
/// compare equal.
pub proof fn lemma_order_is_forgotten(a: Seq<Literal>, b: Seq<Literal>, ca: Clause, cb: Clause)
    requires
        a.to_multiset() == b.to_multiset(),
        ca@ == a.to_set(),
        canonical(ca.literals()),
        cb@ == b.to_set(),
        canonical(cb.literals()),
    ensures
        ca@ == cb@,
        ca.literals() == cb.literals(),
        ca.eq_spec(&cb),
{
    lemma_permutation_same_literals(a, b);
    lemma_canonical_unique(ca.literals(), cb.literals());
}

/// However often a literal occurs in the list that a clause is built from, the
/// clause holds it once.
pub proof fn lemma_duplicates_collapse(a: Seq<Literal>, c: Clause)
    requires
        c@ == a.to_set(),
        canonical(c.literals()),
    ensures
        c.literals().no_duplicates(),
        c.literals().len() == a.to_set().len(),
{
    lemma_canonical_distinct(c.literals());
    c.literals().unique_seq_to_set();
}

/// A set of literals has at most one canonical sequence: two canonical
/// sequences that hold the same literals are the same sequence.
pub proof fn lemma_canonical_unique(a: Seq<Literal>, b: Seq<Literal>)
    requires
        canonical(a),
        canonical(b),
        a.to_set() == b.to_set(),
    ensures
        a == b,
    decreases a.len(),
{
    if a.len() == 0 {
        if b.len() > 0 {
            assert(b.to_set().contains(b[0]));
        }
        assert(a =~= b);
    } else if b.len() == 0 {
        assert(a.to_set().contains(a[0]));
    } else {
        let x = a.last();
        let y = b.last();
        assert(a.to_set().contains(x));
        assert(b.to_set().contains(y));
        let j = choose|j: int| 0 <= j < a.len() && a[j] == y;
        let k = choose|k: int| 0 <= k < b.len() && b[k] == x;
        if j < a.len() - 1 {
            assert(a[j].precedes(a[a.len() - 1]));
        }
        if k < b.len() - 1 {
            assert(b[k].precedes(b[b.len() - 1]));
        }
        assert(x == y);
        let a0 = a.drop_last();
        let b0 = b.drop_last();
        assert forall|l: Literal| a0.to_set().contains(l) <==> b0.to_set().contains(l) by {
            if a0.to_set().contains(l) {
                let p = choose|p: int| 0 <= p < a0.len() && a0[p] == l;
                assert(a[p].precedes(a[a.len() - 1]));
                assert(a.to_set().contains(l));
                let q = choose|q: int| 0 <= q < b.len() && b[q] == l;
                assert(b0[q] == l);
            }
            if b0.to_set().contains(l) {
                let p = choose|p: int| 0 <= p < b0.len() && b0[p] == l;
                assert(b[p].precedes(b[b.len() - 1]));
                assert(b.to_set().contains(l));
                let q = choose|q: int| 0 <= q < a.len() && a[q] == l;
                assert(a0[q] == l);
            }
        }
        assert(a0.to_set() =~= b0.to_set());
        assert(canonical(a0)) by {
            assert forall|p: int, q: int| 0 <= p < q < a0.len() implies (#[trigger] a0[p]).precedes(
                #[trigger] a0[q],
            ) by {
                assert(a[p].precedes(a[q]));
            }
        }
        assert(canonical(b0)) by {
            assert forall|p: int, q: int| 0 <= p < q < b0.len() implies (#[trigger] b0[p]).precedes(
                #[trigger] b0[q],
            ) by {
                assert(b[p].precedes(b[q]));
            }
        }
        lemma_canonical_unique(a0, b0);
        assert(a =~= a0.push(x));
        assert(b =~= b0.push(y));
    }
}

} // verus!
