//! Natural numbers written as terms.

use crate::expr::{lit_nat, Expr, ExprData, Lit, LitT, Term};
use crate::num::Natural;
use vstd::prelude::*;

verus! {

/// The number that a literal stands for.
pub open spec fn lit_value(e: Term) -> Option<nat> {
    match e {
        Term::Lit(LitT::Nat(n)) => Some(n),
        _ => None,
    }
}

/// The number that a term built of literals, zero and successors stands for.
pub open spec fn numeral_spec(e: Term, zero: u32, succ: u32) -> Option<nat>
    decreases e,
{
    match e {
        Term::Lit(LitT::Nat(n)) => Some(n),
        Term::Const(c, _) => if c == zero {
            Some(0)
        } else {
            None
        },
        Term::App(f, a) => match *f {
            Term::Const(c, _) => if c == succ {
                match numeral_spec(*a, zero, succ) {
                    Some(n) => Some(n + 1),
                    None => None,
                }
            } else {
                None
            },
            _ => None,
        },
        _ => None,
    }
}

/// The number that a literal stands for.
pub fn as_lit(e: &Expr) -> (r: Option<Natural>)
    ensures
        r.deep_view() == lit_value(e@),
{
    match e.data() {
        ExprData::Lit(Lit::Nat(n)) => Some(n.clone()),
        _ => None,
    }
}

/// The number that a term built of literals, zero and successors stands for.
pub fn numeral_value(e: &Expr, zero: u32, succ: u32) -> (r: Option<Natural>)
    ensures
        r.deep_view() == numeral_spec(e@, zero, succ),
    decreases e,
{
    match e.data() {
        ExprData::Lit(Lit::Nat(n)) => Some(n.clone()),
        ExprData::Const(c, _) => {
            if *c == zero {
                Some(Natural::zero())
            } else {
                None
            }
        },
        ExprData::App(f, a) => match f.data() {
            ExprData::Const(c, _) => {
                if *c == succ {
                    match numeral_value(a, zero, succ) {
                        Some(n) => Some(n.plus(&Natural::from_u64(1))),
                        None => None,
                    }
                } else {
                    None
                }
            },
            _ => None,
        },
        _ => None,
    }
}

/// Whether a term is zero, as a literal or by the constructor.
pub open spec fn is_zero_spec(e: Term, zero: u32) -> bool {
    match e {
        Term::Lit(LitT::Nat(n)) => n == 0,
        Term::Const(c, _) => c == zero,
        _ => false,
    }
}

/// What a term that shows a successor is the successor of.
pub open spec fn pred_spec(e: Term, succ: u32) -> Option<Term> {
    match e {
        Term::Lit(LitT::Nat(n)) => if n > 0 {
            Some(Term::Lit(LitT::Nat((n - 1) as nat)))
        } else {
            None
        },
        Term::App(f, a) => match *f {
            Term::Const(c, _) => if c == succ {
                Some(*a)
            } else {
                None
            },
            _ => None,
        },
        _ => None,
    }
}

/// Whether a term is one, as a literal or as the successor of zero.
pub open spec fn is_one_spec(e: Term, zero: u32, succ: u32) -> bool {
    match pred_spec(e, succ) {
        Some(p) => is_zero_spec(p, zero),
        None => false,
    }
}

/// The literal that stands for itself at the type of naturals.
pub open spec fn of_nat_spec(ty: Term, e: Term, nat_ty: u32) -> Option<Term> {
    match ty {
        Term::Const(t, _) => if t == nat_ty && lit_value(e) is Some {
            Some(e)
        } else {
            None
        },
        _ => None,
    }
}

/// Whether a term is zero, as a literal or by the constructor.
pub fn is_zero(e: &Expr, zero: u32) -> (r: bool)
    ensures
        r == is_zero_spec(e@, zero),
{
    match e.data() {
        ExprData::Lit(Lit::Nat(n)) => n.is_zero(),
        ExprData::Const(c, _) => *c == zero,
        _ => false,
    }
}

/// What a term that shows a successor is the successor of.
pub fn pred(e: &Expr, succ: u32) -> (r: Option<Expr>)
    ensures
        r.deep_view() == pred_spec(e@, succ),
{
    match e.data() {
        ExprData::Lit(Lit::Nat(n)) => {
            if n.is_zero() {
                None
            } else {
                Some(lit_nat(n.minus(&Natural::from_u64(1))))
            }
        },
        ExprData::App(f, a) => match f.data() {
            ExprData::Const(c, _) => {
                if *c == succ {
                    Some(a.clone())
                } else {
                    None
                }
            },
            _ => None,
        },
        _ => None,
    }
}

/// Whether a term is one, as a literal or as the successor of zero.
pub fn is_one(e: &Expr, zero: u32, succ: u32) -> (r: bool)
    ensures
        r == is_one_spec(e@, zero, succ),
{
    match pred(e, succ) {
        Some(p) => is_zero(&p, zero),
        None => false,
    }
}

/// The literal that stands for itself at the type of naturals.
pub fn of_nat_value(ty: &Expr, e: &Expr, nat_ty: u32) -> (r: Option<Expr>)
    ensures
        r.deep_view() == of_nat_spec(ty@, e@, nat_ty),
{
    match ty.data() {
        ExprData::Const(t, _) => {
            if *t == nat_ty && as_lit(e).is_some() {
                Some(e.clone())
            } else {
                None
            }
        },
        _ => None,
    }
}

} // verus!
