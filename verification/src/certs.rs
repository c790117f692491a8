//! Certificates of linear integer arithmetic: tests on polynomials that show one
//! (in)equation to follow from others.

use crate::ints::{cmod, ediv, int_cmod, int_ediv};
use crate::linear::{
    law_add_const_value, law_combine_value, law_insert_value, law_norm_value, law_scale_value, lin_add_const,
    lin_coeff, lin_combine, lin_const, lin_div, lin_divisible, lin_insert, lin_lead, lin_mul,
    lin_value, linexp_norm, linexp_value, Lin, LinExp, LinearExpr, LinearPoly,
};
use crate::lists::magnitude;
use crate::num::{Integer, Natural};
use crate::text::{is_named, named};
use vstd::prelude::*;

verus! {

/// The certificates.
#[derive(Clone, Copy, Debug, PartialEq, Eq, Structural)]
pub enum Cert {
    DiseqEqSubst,
    EqEqSubst,
    EqEqSubstBy,
    EqOfLeGe,
    EqOfCore,
    LeOfLeDiseq,
    DiseqSplit,
    LeCoeff,
    LeNeg,
    LeCombine,
    LeCombineCoeff,
    EqCoeff,
    EqUnsatCoeff,
    DvdOfEq,
    EqDvdSubst,
    VarEq,
    OfVarEqMul,
    OfVarEqVar,
    NormEq,
    NormEqVar,
    NormEqVarConst,
    NormEqCoeff,
    OfVarEq,
}

/// What an argument of a certificate is read as.
#[derive(Clone, Copy, Debug, PartialEq, Eq, Structural)]
pub enum Kind {
    Nat,
    /// A natural, whose term is reduced first.
    NatReduced,
    Int,
    Poly,
    Exp,
}

/// An argument of a certificate.
pub enum Input {
    Nat(Natural),
    Int(Integer),
    Poly(LinearPoly),
    Exp(LinearExpr),
}

/// The mathematical reading of an [`Input`].
pub enum InputT {
    Nat(nat),
    Int(int),
    Poly(Lin),
    Exp(LinExp),
}

impl DeepView for Input {
    type V = InputT;

    open spec fn deep_view(&self) -> InputT {
        match self {
            Input::Nat(n) => InputT::Nat(n@),
            Input::Int(v) => InputT::Int(v@),
            Input::Poly(p) => InputT::Poly(p@),
            Input::Exp(e) => InputT::Exp(e@),
        }
    }
}

/// Whether an argument is what it is to be read as.
pub open spec fn input_fits(kind: Kind, x: InputT) -> bool {
    match kind {
        Kind::Nat => x is Nat,
        Kind::NatReduced => x is Nat,
        Kind::Int => x is Int,
        Kind::Poly => x is Poly,
        Kind::Exp => x is Exp,
    }
}

/// The number of arguments of a certificate.
pub open spec fn cert_arity(c: Cert) -> nat {
    match c {
        Cert::EqDvdSubst => 6,
        Cert::EqEqSubstBy => 5,
        Cert::DiseqEqSubst => 4,
        Cert::EqEqSubst => 4,
        Cert::LeCombineCoeff => 4,
        Cert::DvdOfEq => 4,
        Cert::OfVarEqMul => 4,
        Cert::NormEqVar => 4,
        Cert::NormEqVarConst => 4,
        Cert::NormEqCoeff => 4,
        Cert::EqOfLeGe => 2,
        Cert::LeNeg => 2,
        Cert::EqUnsatCoeff => 2,
        _ => 3,
    }
}

/// What the argument at a position is read as.
pub open spec fn cert_kind(c: Cert, i: int) -> Kind {
    match c {
        Cert::DiseqEqSubst => if i == 0 {
            Kind::NatReduced
        } else {
            Kind::Poly
        },
        Cert::EqEqSubst => if i == 0 {
            Kind::Nat
        } else {
            Kind::Poly
        },
        Cert::EqEqSubstBy => if i < 2 {
            Kind::Int
        } else {
            Kind::Poly
        },
        Cert::LeCoeff => if i == 2 {
            Kind::Int
        } else {
            Kind::Poly
        },
        Cert::LeCombineCoeff => if i == 3 {
            Kind::Int
        } else {
            Kind::Poly
        },
        Cert::EqCoeff => if i == 2 {
            Kind::Int
        } else {
            Kind::Poly
        },
        Cert::EqUnsatCoeff => if i == 1 {
            Kind::Int
        } else {
            Kind::Poly
        },
        Cert::DvdOfEq => if i == 0 {
            Kind::Nat
        } else if i == 2 {
            Kind::Int
        } else {
            Kind::Poly
        },
        Cert::EqDvdSubst => if i == 0 {
            Kind::Nat
        } else if i == 2 || i == 4 {
            Kind::Int
        } else {
            Kind::Poly
        },
        Cert::VarEq => if i == 0 {
            Kind::Nat
        } else if i == 1 {
            Kind::Int
        } else {
            Kind::Poly
        },
        Cert::OfVarEq => if i == 0 {
            Kind::Nat
        } else if i == 1 {
            Kind::Int
        } else {
            Kind::Poly
        },
        Cert::OfVarEqMul => if i == 0 || i == 2 {
            Kind::Nat
        } else if i == 1 {
            Kind::Int
        } else {
            Kind::Poly
        },
        Cert::OfVarEqVar => if i < 2 {
            Kind::Nat
        } else {
            Kind::Poly
        },
        Cert::NormEq => if i < 2 {
            Kind::Exp
        } else {
            Kind::Poly
        },
        Cert::NormEqVar => if i < 2 {
            Kind::Exp
        } else {
            Kind::NatReduced
        },
        Cert::NormEqVarConst => if i < 2 {
            Kind::Exp
        } else if i == 2 {
            Kind::NatReduced
        } else {
            Kind::Int
        },
        Cert::NormEqCoeff => if i < 2 {
            Kind::Exp
        } else if i == 2 {
            Kind::Poly
        } else {
            Kind::Int
        },
        _ => Kind::Poly,
    }
}

/// The certificate that a name stands for.
#[verifier::opaque]
pub open spec fn cert_named(name: Seq<char>) -> Option<Cert> {
    if is_named(name, "diseq_eq_subst_cert"@) {
        Some(Cert::DiseqEqSubst)
    } else if is_named(name, "eq_eq_subst_cert"@) {
        Some(Cert::EqEqSubst)
    } else if is_named(name, "eq_eq_subst'_cert"@) {
        Some(Cert::EqEqSubstBy)
    } else if is_named(name, "eq_of_le_ge_cert"@) {
        Some(Cert::EqOfLeGe)
    } else if is_named(name, "eq_of_core_cert"@) {
        Some(Cert::EqOfCore)
    } else if is_named(name, "le_of_le_diseq_cert"@) {
        Some(Cert::LeOfLeDiseq)
    } else if is_named(name, "diseq_split_cert"@) {
        Some(Cert::DiseqSplit)
    } else if is_named(name, "le_coeff_cert"@) {
        Some(Cert::LeCoeff)
    } else if is_named(name, "le_neg_cert"@) {
        Some(Cert::LeNeg)
    } else if is_named(name, "le_combine_cert"@) {
        Some(Cert::LeCombine)
    } else if is_named(name, "le_combine_coeff_cert"@) {
        Some(Cert::LeCombineCoeff)
    } else if is_named(name, "eq_coeff_cert"@) {
        Some(Cert::EqCoeff)
    } else if is_named(name, "eq_unsat_coeff_cert"@) {
        Some(Cert::EqUnsatCoeff)
    } else if is_named(name, "dvd_of_eq_cert"@) {
        Some(Cert::DvdOfEq)
    } else if is_named(name, "eq_dvd_subst_cert"@) {
        Some(Cert::EqDvdSubst)
    } else if is_named(name, "var_eq_cert"@) {
        Some(Cert::VarEq)
    } else if is_named(name, "of_var_eq_mul_cert"@) {
        Some(Cert::OfVarEqMul)
    } else if is_named(name, "of_var_eq_var_cert"@) {
        Some(Cert::OfVarEqVar)
    } else if is_named(name, "norm_eq_cert"@) {
        Some(Cert::NormEq)
    } else if is_named(name, "norm_eq_var_cert"@) {
        Some(Cert::NormEqVar)
    } else if is_named(name, "norm_eq_var_const_cert"@) {
        Some(Cert::NormEqVarConst)
    } else if is_named(name, "norm_eq_coeff_cert"@) {
        Some(Cert::NormEqCoeff)
    } else if is_named(name, "of_var_eq_cert"@) {
        Some(Cert::OfVarEq)
    } else {
        None
    }
}

/// The polynomial `x - y`.
pub open spec fn var_difference(x: nat, y: nat) -> Lin {
    Lin::Add(1, x, Box::new(Lin::Add(-1, y, Box::new(Lin::Num(0)))))
}

/// The polynomial `x - k`.
pub open spec fn var_minus(x: nat, k: int) -> Lin {
    Lin::Add(1, x, Box::new(Lin::Num(-k)))
}

/// The polynomial `x - k y`.
pub open spec fn var_minus_multiple(x: nat, k: int, y: nat) -> Lin {
    Lin::Add(1, x, Box::new(Lin::Add(-k, y, Box::new(Lin::Num(0)))))
}

/// The sum of two polynomials, each times the leading coefficient of the other.
pub open spec fn cross_sum(p1: Lin, p2: Lin) -> Lin {
    lin_combine(magnitude(lin_lead(p2)) as int, magnitude(lin_lead(p1)) as int, p1, p2)
}

/// The polynomial of the difference of two expressions.
pub open spec fn exp_difference(a: LinExp, b: LinExp) -> Lin {
    linexp_norm(LinExp::Sub(Box::new(a), Box::new(b)))
}

/// Substitution of a variable that an equation determines into an equation that
/// must not hold.
pub open spec fn diseq_eq_subst_holds(x: nat, p1: Lin, p2: Lin, p3: Lin) -> bool {
    lin_coeff(p1, x) != 0 && eq_eq_subst_holds(x, p1, p2, p3)
}

/// Substitution of a variable that an equation determines into another.
pub open spec fn eq_eq_subst_holds(x: nat, p1: Lin, p2: Lin, p3: Lin) -> bool {
    eq_eq_subst_by_holds(lin_coeff(p1, x), lin_coeff(p2, x), p1, p2, p3)
}

/// The combination of two equations by given coefficients.
pub open spec fn eq_eq_subst_by_holds(a: int, b: int, p1: Lin, p2: Lin, p3: Lin) -> bool {
    p3 == lin_combine(b, -a, p1, p2)
}

/// An equation from two opposite inequations.
pub open spec fn eq_of_le_ge_holds(p1: Lin, p2: Lin) -> bool {
    p2 == lin_mul(p1, -1)
}

/// An equation from two equal values.
pub open spec fn eq_of_core_holds(p1: Lin, p2: Lin, p3: Lin) -> bool {
    p3 == lin_combine(1, -1, p1, p2)
}

/// A strict inequation from an inequation and a disequation.
pub open spec fn le_of_le_diseq_holds(p1: Lin, p2: Lin, p3: Lin) -> bool {
    (p2 == p1 || p2 == lin_mul(p1, -1)) && p3 == lin_add_const(p1, 1)
}

/// The two sides of a disequation.
pub open spec fn diseq_split_holds(p1: Lin, p2: Lin, p3: Lin) -> bool {
    p2 == lin_add_const(p1, 1) && p3 == lin_add_const(lin_mul(p1, -1), 1)
}

/// An inequation divided by a common factor of its coefficients.
pub open spec fn le_coeff_holds(p1: Lin, p2: Lin, k: int) -> bool {
    k > 0 && lin_divisible(p1, k) && p2 == lin_div(p1, k)
}

/// The negation of an inequation.
pub open spec fn le_neg_holds(p1: Lin, p2: Lin) -> bool {
    p2 == lin_add_const(lin_mul(p1, -1), 1)
}

/// The combination of two inequations that cancels their leading variable.
pub open spec fn le_combine_holds(p1: Lin, p2: Lin, p3: Lin) -> bool {
    p3 == cross_sum(p1, p2)
}

/// Such a combination, divided by a common factor.
pub open spec fn le_combine_coeff_holds(p1: Lin, p2: Lin, p3: Lin, k: int) -> bool {
    le_coeff_holds(cross_sum(p1, p2), p3, k)
}

/// An equation divided by a common factor.
pub open spec fn eq_coeff_holds(p1: Lin, p2: Lin, k: int) -> bool {
    p1 == lin_mul(p2, k) && k > 0
}

/// An equation that no integers meet: a factor of the coefficients does not
/// divide the constant.
pub open spec fn eq_unsat_coeff_holds(p: Lin, k: int) -> bool {
    lin_divisible(p, k) && k > 0 && cmod(lin_const(p), k) < 0
}

/// A divisibility from an equation.
pub open spec fn dvd_of_eq_holds(x: nat, p1: Lin, d: int, p2: Lin) -> bool {
    d == magnitude(lin_coeff(p1, x)) && p2 == lin_insert(p1, -lin_coeff(p1, x), x)
}

/// Substitution of a variable that an equation determines into a divisibility.
pub open spec fn eq_dvd_subst_holds(x: nat, p1: Lin, d2: int, p2: Lin, d3: int, p3: Lin) -> bool {
    let a = lin_coeff(p1, x);
    let b = lin_coeff(p2, x);
    d3 == magnitude(a * d2) && p3 == lin_combine(
        a,
        -b,
        lin_insert(p2, -b, x),
        lin_insert(p1, -a, x),
    )
}

/// The value of a variable from an equation.
pub open spec fn var_eq_holds(x: nat, k: int, p: Lin) -> bool {
    match p {
        Lin::Add(k1, y, rest) => match *rest {
            Lin::Num(k2) => k1 != 0 && x == y && k == -ediv(k2, k1),
            _ => false,
        },
        _ => false,
    }
}

/// The multiple of an equation between expressions.
pub open spec fn norm_eq_coeff_holds(lhs: LinExp, rhs: LinExp, p: Lin, k: int) -> bool {
    exp_difference(lhs, rhs) == lin_mul(p, k) && k > 0
}

/// The natural at a position.
pub open spec fn nat_in(ins: Seq<InputT>, i: int) -> nat {
    ins[i]->Nat_0
}

/// The integer at a position.
pub open spec fn int_in(ins: Seq<InputT>, i: int) -> int {
    ins[i]->Int_0
}

/// The polynomial at a position.
pub open spec fn poly_in(ins: Seq<InputT>, i: int) -> Lin {
    ins[i]->Poly_0
}

/// The expression at a position.
pub open spec fn exp_in(ins: Seq<InputT>, i: int) -> LinExp {
    ins[i]->Exp_0
}

/// Whether a certificate holds of its arguments.
#[verifier::opaque]
pub open spec fn cert_holds(c: Cert, ins: Seq<InputT>) -> bool {
    match c {
        Cert::DiseqEqSubst => diseq_eq_subst_holds(
            nat_in(ins, 0),
            poly_in(ins, 1),
            poly_in(ins, 2),
            poly_in(ins, 3),
        ),
        Cert::EqEqSubst => eq_eq_subst_holds(
            nat_in(ins, 0),
            poly_in(ins, 1),
            poly_in(ins, 2),
            poly_in(ins, 3),
        ),
        Cert::EqEqSubstBy => eq_eq_subst_by_holds(
            int_in(ins, 0),
            int_in(ins, 1),
            poly_in(ins, 2),
            poly_in(ins, 3),
            poly_in(ins, 4),
        ),
        Cert::EqOfLeGe => eq_of_le_ge_holds(poly_in(ins, 0), poly_in(ins, 1)),
        Cert::EqOfCore => eq_of_core_holds(poly_in(ins, 0), poly_in(ins, 1), poly_in(ins, 2)),
        Cert::LeOfLeDiseq => le_of_le_diseq_holds(
            poly_in(ins, 0),
            poly_in(ins, 1),
            poly_in(ins, 2),
        ),
        Cert::DiseqSplit => diseq_split_holds(poly_in(ins, 0), poly_in(ins, 1), poly_in(ins, 2)),
        Cert::LeCoeff => le_coeff_holds(poly_in(ins, 0), poly_in(ins, 1), int_in(ins, 2)),
        Cert::LeNeg => le_neg_holds(poly_in(ins, 0), poly_in(ins, 1)),
        Cert::LeCombine => le_combine_holds(poly_in(ins, 0), poly_in(ins, 1), poly_in(ins, 2)),
        Cert::LeCombineCoeff => le_combine_coeff_holds(
            poly_in(ins, 0),
            poly_in(ins, 1),
            poly_in(ins, 2),
            int_in(ins, 3),
        ),
        Cert::EqCoeff => eq_coeff_holds(poly_in(ins, 0), poly_in(ins, 1), int_in(ins, 2)),
        Cert::EqUnsatCoeff => eq_unsat_coeff_holds(poly_in(ins, 0), int_in(ins, 1)),
        Cert::DvdOfEq => dvd_of_eq_holds(
            nat_in(ins, 0),
            poly_in(ins, 1),
            int_in(ins, 2),
            poly_in(ins, 3),
        ),
        Cert::EqDvdSubst => eq_dvd_subst_holds(
            nat_in(ins, 0),
            poly_in(ins, 1),
            int_in(ins, 2),
            poly_in(ins, 3),
            int_in(ins, 4),
            poly_in(ins, 5),
        ),
        Cert::VarEq => var_eq_holds(nat_in(ins, 0), int_in(ins, 1), poly_in(ins, 2)),
        Cert::OfVarEqMul => poly_in(ins, 3) == var_minus_multiple(
            nat_in(ins, 0),
            int_in(ins, 1),
            nat_in(ins, 2),
        ),
        Cert::OfVarEqVar => poly_in(ins, 2) == var_difference(nat_in(ins, 0), nat_in(ins, 1)),
        Cert::NormEq => poly_in(ins, 2) == exp_difference(exp_in(ins, 0), exp_in(ins, 1)),
        Cert::NormEqVar => exp_difference(exp_in(ins, 0), exp_in(ins, 1)) == var_difference(
            nat_in(ins, 2),
            nat_in(ins, 3),
        ),
        Cert::NormEqVarConst => exp_difference(exp_in(ins, 0), exp_in(ins, 1)) == var_minus(
            nat_in(ins, 2),
            int_in(ins, 3),
        ),
        Cert::NormEqCoeff => norm_eq_coeff_holds(
            exp_in(ins, 0),
            exp_in(ins, 1),
            poly_in(ins, 2),
            int_in(ins, 3),
        ),
        Cert::OfVarEq => poly_in(ins, 2) == var_minus(nat_in(ins, 0), int_in(ins, 1)),
    }
}

/// The certificate that a name stands for.
pub fn named_cert(name: &str) -> (r: Option<Cert>)
    ensures
        r == cert_named(name@),
{
    proof {
        reveal(cert_named);
    }
    if named(name, "diseq_eq_subst_cert") {
        Some(Cert::DiseqEqSubst)
    } else if named(name, "eq_eq_subst_cert") {
        Some(Cert::EqEqSubst)
    } else if named(name, "eq_eq_subst'_cert") {
        Some(Cert::EqEqSubstBy)
    } else if named(name, "eq_of_le_ge_cert") {
        Some(Cert::EqOfLeGe)
    } else if named(name, "eq_of_core_cert") {
        Some(Cert::EqOfCore)
    } else if named(name, "le_of_le_diseq_cert") {
        Some(Cert::LeOfLeDiseq)
    } else if named(name, "diseq_split_cert") {
        Some(Cert::DiseqSplit)
    } else if named(name, "le_coeff_cert") {
        Some(Cert::LeCoeff)
    } else if named(name, "le_neg_cert") {
        Some(Cert::LeNeg)
    } else if named(name, "le_combine_cert") {
        Some(Cert::LeCombine)
    } else if named(name, "le_combine_coeff_cert") {
        Some(Cert::LeCombineCoeff)
    } else if named(name, "eq_coeff_cert") {
        Some(Cert::EqCoeff)
    } else if named(name, "eq_unsat_coeff_cert") {
        Some(Cert::EqUnsatCoeff)
    } else if named(name, "dvd_of_eq_cert") {
        Some(Cert::DvdOfEq)
    } else if named(name, "eq_dvd_subst_cert") {
        Some(Cert::EqDvdSubst)
    } else if named(name, "var_eq_cert") {
        Some(Cert::VarEq)
    } else if named(name, "of_var_eq_mul_cert") {
        Some(Cert::OfVarEqMul)
    } else if named(name, "of_var_eq_var_cert") {
        Some(Cert::OfVarEqVar)
    } else if named(name, "norm_eq_cert") {
        Some(Cert::NormEq)
    } else if named(name, "norm_eq_var_cert") {
        Some(Cert::NormEqVar)
    } else if named(name, "norm_eq_var_const_cert") {
        Some(Cert::NormEqVarConst)
    } else if named(name, "norm_eq_coeff_cert") {
        Some(Cert::NormEqCoeff)
    } else if named(name, "of_var_eq_cert") {
        Some(Cert::OfVarEq)
    } else {
        None
    }
}

/// The number of arguments of a certificate.
pub fn arity_of(c: Cert) -> (r: usize)
    ensures
        r as nat == cert_arity(c),
{
    match c {
        Cert::EqDvdSubst => 6,
        Cert::EqEqSubstBy => 5,
        Cert::DiseqEqSubst => 4,
        Cert::EqEqSubst => 4,
        Cert::LeCombineCoeff => 4,
        Cert::DvdOfEq => 4,
        Cert::OfVarEqMul => 4,
        Cert::NormEqVar => 4,
        Cert::NormEqVarConst => 4,
        Cert::NormEqCoeff => 4,
        Cert::EqOfLeGe => 2,
        Cert::LeNeg => 2,
        Cert::EqUnsatCoeff => 2,
        _ => 3,
    }
}

/// What the argument at a position is read as.
pub fn kind_at(c: Cert, i: usize) -> (r: Kind)
    ensures
        r == cert_kind(c, i as int),
{
    match c {
        Cert::DiseqEqSubst => if i == 0 {
            Kind::NatReduced
        } else {
            Kind::Poly
        },
        Cert::EqEqSubst => if i == 0 {
            Kind::Nat
        } else {
            Kind::Poly
        },
        Cert::EqEqSubstBy => if i < 2 {
            Kind::Int
        } else {
            Kind::Poly
        },
        Cert::LeCoeff => if i == 2 {
            Kind::Int
        } else {
            Kind::Poly
        },
        Cert::LeCombineCoeff => if i == 3 {
            Kind::Int
        } else {
            Kind::Poly
        },
        Cert::EqCoeff => if i == 2 {
            Kind::Int
        } else {
            Kind::Poly
        },
        Cert::EqUnsatCoeff => if i == 1 {
            Kind::Int
        } else {
            Kind::Poly
        },
        Cert::DvdOfEq => if i == 0 {
            Kind::Nat
        } else if i == 2 {
            Kind::Int
        } else {
            Kind::Poly
        },
        Cert::EqDvdSubst => if i == 0 {
            Kind::Nat
        } else if i == 2 || i == 4 {
            Kind::Int
        } else {
            Kind::Poly
        },
        Cert::VarEq => if i == 0 {
            Kind::Nat
        } else if i == 1 {
            Kind::Int
        } else {
            Kind::Poly
        },
        Cert::OfVarEq => if i == 0 {
            Kind::Nat
        } else if i == 1 {
            Kind::Int
        } else {
            Kind::Poly
        },
        Cert::OfVarEqMul => if i == 0 || i == 2 {
            Kind::Nat
        } else if i == 1 {
            Kind::Int
        } else {
            Kind::Poly
        },
        Cert::OfVarEqVar => if i < 2 {
            Kind::Nat
        } else {
            Kind::Poly
        },
        Cert::NormEq => if i < 2 {
            Kind::Exp
        } else {
            Kind::Poly
        },
        Cert::NormEqVar => if i < 2 {
            Kind::Exp
        } else {
            Kind::NatReduced
        },
        Cert::NormEqVarConst => if i < 2 {
            Kind::Exp
        } else if i == 2 {
            Kind::NatReduced
        } else {
            Kind::Int
        },
        Cert::NormEqCoeff => if i < 2 {
            Kind::Exp
        } else if i == 2 {
            Kind::Poly
        } else {
            Kind::Int
        },
        _ => Kind::Poly,
    }
}

fn nat_at(ins: &Vec<Input>, i: usize) -> (r: &Natural)
    requires
        i < ins.len(),
        ins.deep_view()[i as int] is Nat,
    ensures
        r@ == nat_in(ins.deep_view(), i as int),
{
    assert(ins.deep_view()[i as int] == ins@[i as int].deep_view());
    match &ins[i] {
        Input::Nat(x) => x,
        _ => vstd::pervasive::unreached(),
    }
}

fn int_at(ins: &Vec<Input>, i: usize) -> (r: &Integer)
    requires
        i < ins.len(),
        ins.deep_view()[i as int] is Int,
    ensures
        r@ == int_in(ins.deep_view(), i as int),
{
    assert(ins.deep_view()[i as int] == ins@[i as int].deep_view());
    match &ins[i] {
        Input::Int(x) => x,
        _ => vstd::pervasive::unreached(),
    }
}

fn poly_at(ins: &Vec<Input>, i: usize) -> (r: &LinearPoly)
    requires
        i < ins.len(),
        ins.deep_view()[i as int] is Poly,
    ensures
        r@ == poly_in(ins.deep_view(), i as int),
{
    assert(ins.deep_view()[i as int] == ins@[i as int].deep_view());
    match &ins[i] {
        Input::Poly(x) => x,
        _ => vstd::pervasive::unreached(),
    }
}

fn exp_at(ins: &Vec<Input>, i: usize) -> (r: &LinearExpr)
    requires
        i < ins.len(),
        ins.deep_view()[i as int] is Exp,
    ensures
        r@ == exp_in(ins.deep_view(), i as int),
{
    assert(ins.deep_view()[i as int] == ins@[i as int].deep_view());
    match &ins[i] {
        Input::Exp(x) => x,
        _ => vstd::pervasive::unreached(),
    }
}

fn mk_var_difference(x: &Natural, y: &Natural) -> (r: LinearPoly)
    ensures
        r@ == var_difference(x@, y@),
{
    mk_var_minus_multiple(x, &Integer::from_i64(1), y)
}

fn mk_var_minus(x: &Natural, k: &Integer) -> (r: LinearPoly)
    ensures
        r@ == var_minus(x@, k@),
{
    let rest = LinearPoly::Num(k.negate());
    assert(rest@ == Lin::Num(-k@));
    LinearPoly::Add(Integer::from_i64(1), x.clone(), Box::new(rest))
}

fn mk_var_minus_multiple(x: &Natural, k: &Integer, y: &Natural) -> (r: LinearPoly)
    ensures
        r@ == var_minus_multiple(x@, k@, y@),
{
    let none = LinearPoly::Num(Integer::from_i64(0));
    assert(none@ == Lin::Num(0));
    let rest = LinearPoly::Add(k.negate(), y.clone(), Box::new(none));
    assert(rest@ == Lin::Add(-k@, y@, Box::new(Lin::Num(0))));
    LinearPoly::Add(Integer::from_i64(1), x.clone(), Box::new(rest))
}

fn mk_cross_sum(p1: &LinearPoly, p2: &LinearPoly) -> (r: LinearPoly)
    ensures
        r@ == cross_sum(p1@, p2@),
{
    let a1 = LinearPoly::nat_abs(&p1.lead_coeff());
    let a2 = LinearPoly::nat_abs(&p2.lead_coeff());
    LinearPoly::combine_mul_k(&a2, &a1, p1, p2)
}

fn check_subst_by(
    a: &Integer,
    b: &Integer,
    p1: &LinearPoly,
    p2: &LinearPoly,
    p3: &LinearPoly,
) -> (r: bool)
    ensures
        r == eq_eq_subst_by_holds(a@, b@, p1@, p2@, p3@),
{
    p3.beq(&LinearPoly::combine_mul_k(b, &a.negate(), p1, p2))
}

fn check_subst(x: &Natural, p1: &LinearPoly, p2: &LinearPoly, p3: &LinearPoly) -> (r: bool)
    ensures
        r == eq_eq_subst_holds(x@, p1@, p2@, p3@),
{
    check_subst_by(&p1.coeff(x), &p2.coeff(x), p1, p2, p3)
}

fn check_le_coeff(p1: &LinearPoly, p2: &LinearPoly, k: &Integer) -> (r: bool)
    ensures
        r == le_coeff_holds(p1@, p2@, k@),
{
    !k.is_negative() && !k.is_zero() && p1.div_coeffs(k) && p2.beq(&p1.div(k))
}

fn check_dvd_subst(
    x: &Natural,
    p1: &LinearPoly,
    d2: &Integer,
    p2: &LinearPoly,
    d3: &Integer,
    p3: &LinearPoly,
) -> (r: bool)
    ensures
        r == eq_dvd_subst_holds(x@, p1@, d2@, p2@, d3@, p3@),
{
    let a = p1.coeff(x);
    let b = p2.coeff(x);
    let p = p1.insert(&a.negate(), x);
    let q = p2.insert(&b.negate(), x);
    d3.same(&LinearPoly::nat_abs(&a.times(d2))) && p3.beq(
        &LinearPoly::combine_mul_k(&a, &b.negate(), &q, &p),
    )
}

fn check_var_eq(x: &Natural, k: &Integer, p: &LinearPoly) -> (r: bool)
    ensures
        r == var_eq_holds(x@, k@, p@),
{
    match p {
        LinearPoly::Add(k1, y, rest) => match &**rest {
            LinearPoly::Num(k2) => {
                assert((**rest)@ == Lin::Num(k2@));
                !k1.is_zero() && x.same(y) && k.same(&int_ediv(k2, k1).negate())
            },
            LinearPoly::Add(_, _, _) => {
                assert((**rest)@ is Add);
                false
            },
        },
        LinearPoly::Num(_) => false,
    }
}

/// Copies an expression.
pub fn copy_exp(e: &LinearExpr) -> (r: LinearExpr)
    ensures
        r@ == e@,
    decreases e,
{
    match e {
        LinearExpr::Num(k) => LinearExpr::Num(k.clone()),
        LinearExpr::Var(x) => LinearExpr::Var(x.clone()),
        LinearExpr::Add(a, b) => LinearExpr::Add(Box::new(copy_exp(a)), Box::new(copy_exp(b))),
        LinearExpr::Sub(a, b) => LinearExpr::Sub(Box::new(copy_exp(a)), Box::new(copy_exp(b))),
        LinearExpr::Neg(a) => LinearExpr::Neg(Box::new(copy_exp(a))),
        LinearExpr::MulL(k, a) => LinearExpr::MulL(k.clone(), Box::new(copy_exp(a))),
        LinearExpr::MulR(a, k) => LinearExpr::MulR(Box::new(copy_exp(a)), k.clone()),
    }
}

fn mk_exp_difference(a: &LinearExpr, b: &LinearExpr) -> (r: LinearPoly)
    ensures
        r@ == exp_difference(a@, b@),
{
    LinearExpr::Sub(Box::new(copy_exp(a)), Box::new(copy_exp(b))).norm()
}

/// Whether a certificate holds of its arguments.
pub fn check_cert(c: Cert, ins: &Vec<Input>) -> (r: bool)
    requires
        ins.len() == cert_arity(c),
        forall|i: int| 0 <= i < ins.len() ==> input_fits(cert_kind(c, i), #[trigger] ins.deep_view()[i]),
    ensures
        r == cert_holds(c, ins.deep_view()),
{
    proof {
        reveal(cert_holds);
    }
    let one = Integer::from_i64(1);
    let minus_one = Integer::from_i64(-1);
    match c {
        Cert::DiseqEqSubst => !poly_at(ins, 1).coeff(nat_at(ins, 0)).is_zero() && check_subst(
            nat_at(ins, 0),
            poly_at(ins, 1),
            poly_at(ins, 2),
            poly_at(ins, 3),
        ),
        Cert::EqEqSubst => check_subst(
            nat_at(ins, 0),
            poly_at(ins, 1),
            poly_at(ins, 2),
            poly_at(ins, 3),
        ),
        Cert::EqEqSubstBy => check_subst_by(
            int_at(ins, 0),
            int_at(ins, 1),
            poly_at(ins, 2),
            poly_at(ins, 3),
            poly_at(ins, 4),
        ),
        Cert::EqOfLeGe => poly_at(ins, 1).beq(&poly_at(ins, 0).mul(&minus_one)),
        Cert::EqOfCore => poly_at(ins, 2).beq(
            &LinearPoly::combine_mul_k(&one, &minus_one, poly_at(ins, 0), poly_at(ins, 1)),
        ),
        Cert::LeOfLeDiseq => {
            let p1 = poly_at(ins, 0);
            let p2 = poly_at(ins, 1);
            (p2.beq(p1) || p2.beq(&p1.mul(&minus_one))) && poly_at(ins, 2).beq(&p1.add_const(&one))
        },
        Cert::DiseqSplit => {
            let p1 = poly_at(ins, 0);
            poly_at(ins, 1).beq(&p1.add_const(&one)) && poly_at(ins, 2).beq(
                &p1.mul(&minus_one).add_const(&one),
            )
        },
        Cert::LeCoeff => check_le_coeff(poly_at(ins, 0), poly_at(ins, 1), int_at(ins, 2)),
        Cert::LeNeg => poly_at(ins, 1).beq(&poly_at(ins, 0).mul(&minus_one).add_const(&one)),
        Cert::LeCombine => poly_at(ins, 2).beq(&mk_cross_sum(poly_at(ins, 0), poly_at(ins, 1))),
        Cert::LeCombineCoeff => check_le_coeff(
            &mk_cross_sum(poly_at(ins, 0), poly_at(ins, 1)),
            poly_at(ins, 2),
            int_at(ins, 3),
        ),
        Cert::EqCoeff => {
            let k = int_at(ins, 2);
            poly_at(ins, 0).beq(&poly_at(ins, 1).mul(k)) && !k.is_negative() && !k.is_zero()
        },
        Cert::EqUnsatCoeff => {
            let p = poly_at(ins, 0);
            let k = int_at(ins, 1);
            p.div_coeffs(k) && !k.is_negative() && !k.is_zero() && int_cmod(
                &p.get_const(),
                k,
            ).is_negative()
        },
        Cert::DvdOfEq => {
            let x = nat_at(ins, 0);
            let p1 = poly_at(ins, 1);
            let a = p1.coeff(x);
            int_at(ins, 2).same(&LinearPoly::nat_abs(&a)) && poly_at(ins, 3).beq(
                &p1.insert(&a.negate(), x),
            )
        },
        Cert::EqDvdSubst => check_dvd_subst(
            nat_at(ins, 0),
            poly_at(ins, 1),
            int_at(ins, 2),
            poly_at(ins, 3),
            int_at(ins, 4),
            poly_at(ins, 5),
        ),
        Cert::VarEq => check_var_eq(nat_at(ins, 0), int_at(ins, 1), poly_at(ins, 2)),
        Cert::OfVarEqMul => poly_at(ins, 3).beq(
            &mk_var_minus_multiple(nat_at(ins, 0), int_at(ins, 1), nat_at(ins, 2)),
        ),
        Cert::OfVarEqVar => poly_at(ins, 2).beq(&mk_var_difference(nat_at(ins, 0), nat_at(ins, 1))),
        Cert::NormEq => poly_at(ins, 2).beq(&mk_exp_difference(exp_at(ins, 0), exp_at(ins, 1))),
        Cert::NormEqVar => mk_exp_difference(exp_at(ins, 0), exp_at(ins, 1)).beq(
            &mk_var_difference(nat_at(ins, 2), nat_at(ins, 3)),
        ),
        Cert::NormEqVarConst => mk_exp_difference(exp_at(ins, 0), exp_at(ins, 1)).beq(
            &mk_var_minus(nat_at(ins, 2), int_at(ins, 3)),
        ),
        Cert::NormEqCoeff => {
            let k = int_at(ins, 3);
            mk_exp_difference(exp_at(ins, 0), exp_at(ins, 1)).beq(&poly_at(ins, 2).mul(k))
                && !k.is_negative() && !k.is_zero()
        },
        Cert::OfVarEq => poly_at(ins, 2).beq(&mk_var_minus(nat_at(ins, 0), int_at(ins, 1))),
    }
}

/// Whether a value is a multiple of another.
pub open spec fn is_multiple(v: int, d: int) -> bool {
    exists|q: int| v == #[trigger] (d * q)
}

/// Two equations, combined as the certificate says, give a third. A disequation
/// whose equation is combined with one in which the variable occurs stays one.
pub proof fn law_subst_cert(x: nat, p1: Lin, p2: Lin, p3: Lin, rho: spec_fn(nat) -> int)
    requires
        eq_eq_subst_holds(x, p1, p2, p3),
        lin_value(p1, rho) == 0,
    ensures
        lin_value(p2, rho) == 0 ==> lin_value(p3, rho) == 0,
        diseq_eq_subst_holds(x, p1, p2, p3) && lin_value(p2, rho) != 0 ==> lin_value(p3, rho) != 0,
{
    let a = lin_coeff(p1, x);
    let b = lin_coeff(p2, x);
    law_subst_by_cert(a, b, p1, p2, p3, rho);
    let v = lin_value(p2, rho);
    assert(a != 0 && v != 0 ==> (-a) * v != 0) by (nonlinear_arith);
    law_combine_value(b, -a, p1, p2, rho);
    assert(b * 0 == 0);
}

/// Two equations, combined by given coefficients, give a third.
pub proof fn law_subst_by_cert(a: int, b: int, p1: Lin, p2: Lin, p3: Lin, rho: spec_fn(nat) -> int)
    requires
        eq_eq_subst_by_holds(a, b, p1, p2, p3),
        lin_value(p1, rho) == 0,
    ensures
        lin_value(p2, rho) == 0 ==> lin_value(p3, rho) == 0,
{
    law_combine_value(b, -a, p1, p2, rho);
    let v = lin_value(p2, rho);
    assert(v == 0 ==> b * 0 + (-a) * v == 0) by (nonlinear_arith);
}

/// Two opposite inequations give an equation.
pub proof fn law_eq_of_le_ge_cert(p1: Lin, p2: Lin, rho: spec_fn(nat) -> int)
    requires
        eq_of_le_ge_holds(p1, p2),
        lin_value(p1, rho) <= 0,
        lin_value(p2, rho) <= 0,
    ensures
        lin_value(p1, rho) == 0,
{
    law_scale_value(p1, -1, rho);
}

/// Two polynomials of the same value have a difference of zero.
pub proof fn law_eq_of_core_cert(p1: Lin, p2: Lin, p3: Lin, rho: spec_fn(nat) -> int)
    requires
        eq_of_core_holds(p1, p2, p3),
    ensures
        lin_value(p3, rho) == 0 <==> lin_value(p1, rho) == lin_value(p2, rho),
{
    law_combine_value(1, -1, p1, p2, rho);
}

/// An inequation and the disequation of its bound give a strict inequation.
pub proof fn law_le_of_le_diseq_cert(p1: Lin, p2: Lin, p3: Lin, rho: spec_fn(nat) -> int)
    requires
        le_of_le_diseq_holds(p1, p2, p3),
        lin_value(p1, rho) <= 0,
        lin_value(p2, rho) != 0,
    ensures
        lin_value(p3, rho) <= 0,
{
    law_scale_value(p1, -1, rho);
    law_add_const_value(p1, 1, rho);
}

/// A disequation gives one of two strict inequations.
pub proof fn law_diseq_split_cert(p1: Lin, p2: Lin, p3: Lin, rho: spec_fn(nat) -> int)
    requires
        diseq_split_holds(p1, p2, p3),
        lin_value(p1, rho) != 0,
    ensures
        lin_value(p2, rho) <= 0 || lin_value(p3, rho) <= 0,
{
    law_scale_value(p1, -1, rho);
    law_add_const_value(p1, 1, rho);
    law_add_const_value(lin_mul(p1, -1), 1, rho);
}

proof fn lemma_div_value(p: Lin, k: int, rho: spec_fn(nat) -> int)
    requires
        k > 0,
        lin_divisible(p, k),
    ensures
        lin_value(p, rho) == k * lin_value(lin_div(p, k), rho) + cmod(lin_const(p), k),
        -k < cmod(lin_const(p), k) <= 0,
    decreases p,
{
    match p {
        Lin::Num(c) => {
            crate::ints::law_euclidean_division(-c, k);
            let q = ediv(-c, k);
            assert(k * (-q) == -(k * q)) by (nonlinear_arith);
        },
        Lin::Add(a, v, q) => {
            lemma_div_value(*q, k, rho);
            crate::ints::law_euclidean_division(a, k);
            let x = rho(v);
            let y = lin_value(lin_div(*q, k), rho);
            let d = ediv(a, k);
            assert(k * (d * x + y) == a * x + k * y) by (nonlinear_arith)
                requires
                    k * d == a,
            ;
        },
    }
}

/// An inequation divided by a common factor of its coefficients, the constant
/// rounded up, still holds.
pub proof fn law_le_coeff_cert(p1: Lin, p2: Lin, k: int, rho: spec_fn(nat) -> int)
    requires
        le_coeff_holds(p1, p2, k),
        lin_value(p1, rho) <= 0,
    ensures
        lin_value(p2, rho) <= 0,
{
    lemma_div_value(p1, k, rho);
    let v = lin_value(p2, rho);
    let r = cmod(lin_const(p1), k);
    assert(v <= 0) by (nonlinear_arith)
        requires
            k > 0,
            k * v + r <= 0,
            -k < r <= 0,
    ;
}

/// An inequation that does not hold gives the opposite one.
pub proof fn law_le_neg_cert(p1: Lin, p2: Lin, rho: spec_fn(nat) -> int)
    requires
        le_neg_holds(p1, p2),
    ensures
        lin_value(p2, rho) <= 0 <==> lin_value(p1, rho) > 0,
{
    law_scale_value(p1, -1, rho);
    law_add_const_value(lin_mul(p1, -1), 1, rho);
}

/// Two inequations, combined by coefficients that are not negative, give a third.
pub proof fn law_le_combine_cert(p1: Lin, p2: Lin, p3: Lin, rho: spec_fn(nat) -> int)
    requires
        le_combine_holds(p1, p2, p3),
        lin_value(p1, rho) <= 0,
        lin_value(p2, rho) <= 0,
    ensures
        lin_value(p3, rho) <= 0,
{
    let a = magnitude(lin_lead(p2)) as int;
    let b = magnitude(lin_lead(p1)) as int;
    law_combine_value(a, b, p1, p2, rho);
    let x = lin_value(p1, rho);
    let y = lin_value(p2, rho);
    assert(a * x + b * y <= 0) by (nonlinear_arith)
        requires
            a >= 0,
            b >= 0,
            x <= 0,
            y <= 0,
    ;
}

/// Two inequations, combined and divided, give a third.
pub proof fn law_le_combine_coeff_cert(
    p1: Lin,
    p2: Lin,
    p3: Lin,
    k: int,
    rho: spec_fn(nat) -> int,
)
    requires
        le_combine_coeff_holds(p1, p2, p3, k),
        lin_value(p1, rho) <= 0,
        lin_value(p2, rho) <= 0,
    ensures
        lin_value(p3, rho) <= 0,
{
    law_le_combine_cert(p1, p2, cross_sum(p1, p2), rho);
    law_le_coeff_cert(cross_sum(p1, p2), p3, k, rho);
}

/// An equation and its multiple hold together.
pub proof fn law_eq_coeff_cert(p1: Lin, p2: Lin, k: int, rho: spec_fn(nat) -> int)
    requires
        eq_coeff_holds(p1, p2, k),
    ensures
        lin_value(p1, rho) == 0 <==> lin_value(p2, rho) == 0,
{
    law_scale_value(p2, k, rho);
    let v = lin_value(p2, rho);
    assert(k > 0 ==> (k * v == 0 <==> v == 0)) by (nonlinear_arith);
}

/// An equation whose constant a factor of the coefficients does not divide is met
/// by no integers.
pub proof fn law_eq_unsat_coeff_cert(p: Lin, k: int, rho: spec_fn(nat) -> int)
    requires
        eq_unsat_coeff_holds(p, k),
    ensures
        lin_value(p, rho) != 0,
{
    lemma_div_value(p, k, rho);
    let v = lin_value(lin_div(p, k), rho);
    let r = cmod(lin_const(p), k);
    assert(k * v + r != 0) by (nonlinear_arith)
        requires
            k > 0,
            -k < r < 0,
    ;
}

/// Where an equation holds, the coefficient of a variable divides the rest of it.
pub proof fn law_dvd_of_eq_cert(x: nat, p1: Lin, d: int, p2: Lin, rho: spec_fn(nat) -> int)
    requires
        dvd_of_eq_holds(x, p1, d, p2),
        lin_value(p1, rho) == 0,
    ensures
        is_multiple(lin_value(p2, rho), d),
{
    let a = lin_coeff(p1, x);
    law_insert_value(p1, -a, x, rho);
    let v = rho(x);
    if a < 0 {
        assert((-a) * v == d * v);
    } else {
        assert((-a) * v == d * (-v)) by (nonlinear_arith)
            requires
                d == a,
        ;
    }
}

/// A divisibility combined with an equation is a divisibility by the product.
pub proof fn law_eq_dvd_subst_cert(
    x: nat,
    p1: Lin,
    d2: int,
    p2: Lin,
    d3: int,
    p3: Lin,
    rho: spec_fn(nat) -> int,
)
    requires
        eq_dvd_subst_holds(x, p1, d2, p2, d3, p3),
        lin_value(p1, rho) == 0,
        is_multiple(lin_value(p2, rho), d2),
    ensures
        is_multiple(lin_value(p3, rho), d3),
{
    let a = lin_coeff(p1, x);
    let b = lin_coeff(p2, x);
    let v = rho(x);
    let y = lin_value(p2, rho);
    law_insert_value(p1, -a, x, rho);
    law_insert_value(p2, -b, x, rho);
    law_combine_value(a, -b, lin_insert(p2, -b, x), lin_insert(p1, -a, x), rho);
    assert(a * ((-b) * v + y) + (-b) * ((-a) * v) == a * y) by (nonlinear_arith);
    let q = choose|q: int| y == #[trigger] (d2 * q);
    assert(a * (d2 * q) == (a * d2) * q) by (nonlinear_arith);
    if a * d2 < 0 {
        assert((a * d2) * q == d3 * (-q)) by (nonlinear_arith)
            requires
                d3 == -(a * d2),
        ;
    } else {
        assert((a * d2) * q == d3 * q);
    }
}

/// An equation in one variable gives the value of the variable.
pub proof fn law_var_eq_cert(x: nat, k: int, p: Lin, rho: spec_fn(nat) -> int)
    requires
        var_eq_holds(x, k, p),
        lin_value(p, rho) == 0,
    ensures
        rho(x) == k,
{
    match p {
        Lin::Add(k1, _, rest) => match *rest {
            Lin::Num(k2) => {
                let v = rho(x);
                reveal_with_fuel(lin_value, 2);
                crate::ints::law_euclidean_division(k2, k1);
                let d = ediv(k2, k1);
                let r = crate::ints::emod(k2, k1);
                assert(d == -v) by (nonlinear_arith)
                    requires
                        k1 != 0,
                        k1 * v + k2 == 0,
                        k1 * d + r == k2,
                        0 <= r,
                        r < k1 || r < -k1,
                ;
            },
            _ => {},
        },
        _ => {},
    }
}

/// The polynomials that say that a variable is a constant, another variable, or a
/// multiple of one.
pub proof fn law_of_var_cert(x: nat, k: int, y: nat, rho: spec_fn(nat) -> int)
    ensures
        lin_value(var_minus(x, k), rho) == 0 <==> rho(x) == k,
        lin_value(var_difference(x, y), rho) == 0 <==> rho(x) == rho(y),
        lin_value(var_minus_multiple(x, k, y), rho) == 0 <==> rho(x) == k * rho(y),
{
    reveal_with_fuel(lin_value, 3);
    let v = rho(y);
    assert((-k) * v == -(k * v)) by (nonlinear_arith);
}

/// Two expressions have the same value exactly where the polynomial of their
/// difference, or of which that one is a multiple, is zero.
pub proof fn law_norm_eq_cert(lhs: LinExp, rhs: LinExp, p: Lin, k: int, rho: spec_fn(nat) -> int)
    requires
        p == exp_difference(lhs, rhs) || norm_eq_coeff_holds(lhs, rhs, p, k),
    ensures
        linexp_value(lhs, rho) == linexp_value(rhs, rho) <==> lin_value(p, rho) == 0,
{
    law_norm_value(LinExp::Sub(Box::new(lhs), Box::new(rhs)), rho);
    law_scale_value(p, k, rho);
    let v = lin_value(p, rho);
    assert(k > 0 ==> (k * v == 0 <==> v == 0)) by (nonlinear_arith);
}

} // verus!
