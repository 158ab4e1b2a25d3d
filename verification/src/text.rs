//! How literals and clauses are written out.

use crate::literal::Literal;
use vstd::prelude::*;
use vstd::string::StringExecFns;

verus! {

/// The decimal digit for `d`, a number below ten.
pub open spec fn digit(d: nat) -> char {
    if d == 0 {
        '0'
    } else if d == 1 {
        '1'
    } else if d == 2 {
        '2'
    } else if d == 3 {
        '3'
    } else if d == 4 {
        '4'
    } else if d == 5 {
        '5'
    } else if d == 6 {
        '6'
    } else if d == 7 {
        '7'
    } else if d == 8 {
        '8'
    } else {
        '9'
    }
}

/// `n` in decimal, without leading zeros.
pub open spec fn decimal(n: nat) -> Seq<char>
    decreases n,
{
    if n < 10 {
        seq![digit(n)]
    } else {
        decimal(n / 10).push(digit(n % 10))
    }
}

/// A literal written out: the letter `p` and the variable's number, after the
/// sign of negation where the literal is negated.
pub open spec fn literal_text(l: Literal) -> Seq<char> {
    if l.negated {
        seq!['\u{ac}', 'p'] + decimal(l.m as nat)
    } else {
        seq!['p'] + decimal(l.m as nat)
    }
}

/// Literals written out one after the other, with a comma and a space between
/// each two.
pub open spec fn listing(lits: Seq<Literal>) -> Seq<char>
    decreases lits.len(),
{
    if lits.len() == 0 {
        Seq::empty()
    } else if lits.len() == 1 {
        literal_text(lits[0])
    } else {
        listing(lits.drop_last()) + seq![',', ' '] + literal_text(lits.last())
    }
}

/// A clause written out: the empty-set sign for the empty clause, else its
/// literals listed between braces.
pub open spec fn clause_text(lits: Seq<Literal>) -> Seq<char> {
    if lits.len() == 0 {
        seq!['\u{2205}']
    } else {
        seq!['{'] + listing(lits) + seq!['}']
    }
}

/// The text of one decimal digit.
fn digit_text(d: u32) -> (s: &'static str)
    requires
        d < 10,
    ensures
        s@ == seq![digit(d as nat)],
{
    proof {
        reveal_strlit("0");
        reveal_strlit("1");
        reveal_strlit("2");
        reveal_strlit("3");
        reveal_strlit("4");
        reveal_strlit("5");
        reveal_strlit("6");
        reveal_strlit("7");
        reveal_strlit("8");
        reveal_strlit("9");
    }
    let s = if d == 0 {
        "0"
    } else if d == 1 {
        "1"
    } else if d == 2 {
        "2"
    } else if d == 3 {
        "3"
    } else if d == 4 {
        "4"
    } else if d == 5 {
        "5"
    } else if d == 6 {
        "6"
    } else if d == 7 {
        "7"
    } else if d == 8 {
        "8"
    } else {
        "9"
    };
    assert(s@ =~= seq![digit(d as nat)]);
    s
}

/// Appends `n` in decimal to `out`.
pub fn push_decimal(out: &mut String, n: u32)
    ensures
        final(out)@ == old(out)@ + decimal(n as nat),
    decreases n,
{
    if n >= 10 {
        push_decimal(out, n / 10);
    }
    out.append(digit_text(n % 10));
    assert(out@ =~= old(out)@ + decimal(n as nat));
}

/// Appends `l`, written out, to `out`.
pub fn push_literal(out: &mut String, l: Literal)
    ensures
        final(out)@ == old(out)@ + literal_text(l),
{
    proof {
        reveal_strlit("\u{ac}");
        reveal_strlit("p");
    }
    if l.negated {
        out.append("\u{ac}");
    }
    out.append("p");
    push_decimal(out, l.m);
    assert(out@ =~= old(out)@ + literal_text(l));
}

} // verus!
