//! What the reflected arithmetic of certificates, constraints and lists stands for.

use crate::certs::{
    cert_arity, cert_holds, cert_kind, cert_named, diseq_eq_subst_holds, exp_difference, exp_in,
    int_in, is_multiple, law_diseq_split_cert, law_dvd_of_eq_cert, law_eq_coeff_cert,
    law_eq_dvd_subst_cert, law_eq_of_core_cert, law_eq_of_le_ge_cert, law_eq_unsat_coeff_cert,
    law_le_coeff_cert, law_le_combine_cert, law_le_combine_coeff_cert, law_le_neg_cert,
    law_le_of_le_diseq_cert, law_norm_eq_cert, law_of_var_cert, law_subst_by_cert, law_subst_cert,
    law_var_eq_cert, nat_in, poly_in, Cert, InputT,
};
use crate::closed::{bool_term, closed_nat};
use crate::errors::Fault;
use crate::expr::{spine_args, spine_head, Term};
use crate::intlinear::{
    all_inputs, cert_spec, exp_of, poly_of, read_exp, read_input, read_inputs, read_poly,
    reduced_int, reduced_nat,
};
use crate::ints::{divides, gcd, law_gcd};
use crate::kernel::{K, Mode, Sem};
use crate::linear::{lin_value, linexp_value, Lin, LinExp};
use crate::lists::{
    at_or_zero, combine_coeffs, gcd_all, gcd_from, int_list_term, list_values_spec, magnitude,
};
use crate::lookup::name_of;
use crate::omega::{
    closed_bound, constraint_fields, constraint_term, dot_from, in_bounds, law_tidy_keeps_solutions,
    meets, merged_bound, omega_tidy_spec, option_shown, tidy_spec, Ineq,
};
use crate::text::{int_linear_ident, is_named};
use crate::typing::reduces;
use vstd::prelude::*;

verus! {

/// What a certificate claims of its inputs, given values of the variables.
pub open spec fn claims(c: Cert, ins: Seq<InputT>, rho: spec_fn(nat) -> int) -> bool {
    let p = |i: int| lin_value(poly_in(ins, i), rho);
    let e = |i: int| linexp_value(exp_in(ins, i), rho);
    let v = |i: int| rho(nat_in(ins, i));
    match c {
        Cert::DiseqEqSubst => p(1) == 0 ==> (p(2) == 0 <==> p(3) == 0),
        Cert::EqEqSubst => p(1) == 0 && p(2) == 0 ==> p(3) == 0,
        Cert::EqEqSubstBy => p(2) == 0 && p(3) == 0 ==> p(4) == 0,
        Cert::EqOfLeGe => p(0) <= 0 && p(1) <= 0 ==> p(0) == 0,
        Cert::EqOfCore => p(2) == 0 <==> p(0) == p(1),
        Cert::LeOfLeDiseq => p(0) <= 0 && p(1) != 0 ==> p(2) <= 0,
        Cert::DiseqSplit => p(0) != 0 ==> p(1) <= 0 || p(2) <= 0,
        Cert::LeCoeff => p(0) <= 0 ==> p(1) <= 0,
        Cert::LeNeg => p(1) <= 0 <==> p(0) > 0,
        Cert::LeCombine => p(0) <= 0 && p(1) <= 0 ==> p(2) <= 0,
        Cert::LeCombineCoeff => p(0) <= 0 && p(1) <= 0 ==> p(2) <= 0,
        Cert::EqCoeff => p(0) == 0 <==> p(1) == 0,
        Cert::EqUnsatCoeff => p(0) != 0,
        Cert::DvdOfEq => p(1) == 0 ==> is_multiple(p(3), int_in(ins, 2)),
        Cert::EqDvdSubst => p(1) == 0 && is_multiple(p(3), int_in(ins, 2)) ==> is_multiple(
            p(5),
            int_in(ins, 4),
        ),
        Cert::VarEq => p(2) == 0 ==> v(0) == int_in(ins, 1),
        Cert::OfVarEq => p(2) == 0 <==> v(0) == int_in(ins, 1),
        Cert::OfVarEqMul => p(3) == 0 <==> v(0) == int_in(ins, 1) * v(2),
        Cert::OfVarEqVar => p(2) == 0 <==> v(0) == v(1),
        Cert::NormEq => e(0) == e(1) <==> p(2) == 0,
        Cert::NormEqVar => e(0) == e(1) <==> v(2) == v(3),
        Cert::NormEqVarConst => e(0) == e(1) <==> v(2) == int_in(ins, 3),
        Cert::NormEqCoeff => e(0) == e(1) <==> p(2) == 0,
    }
}

/// A certificate that holds claims nothing that any values of the variables break.
pub proof fn law_certificate_is_sound(c: Cert, ins: Seq<InputT>, rho: spec_fn(nat) -> int)
    requires
        cert_holds(c, ins),
    ensures
        claims(c, ins, rho),
{
    reveal(cert_holds);
    let p = |i: int| lin_value(poly_in(ins, i), rho);
    let q = |i: int| poly_in(ins, i);
    match c {
        Cert::DiseqEqSubst => {
            if p(1) == 0 {
                law_subst_cert(nat_in(ins, 0), q(1), q(2), q(3), rho);
                assert(diseq_eq_subst_holds(nat_in(ins, 0), q(1), q(2), q(3)));
            }
        },
        Cert::EqEqSubst => {
            if p(1) == 0 {
                law_subst_cert(nat_in(ins, 0), q(1), q(2), q(3), rho);
            }
        },
        Cert::EqEqSubstBy => {
            if p(2) == 0 {
                law_subst_by_cert(int_in(ins, 0), int_in(ins, 1), q(2), q(3), q(4), rho);
            }
        },
        Cert::EqOfLeGe => {
            if p(0) <= 0 && p(1) <= 0 {
                law_eq_of_le_ge_cert(q(0), q(1), rho);
            }
        },
        Cert::EqOfCore => law_eq_of_core_cert(q(0), q(1), q(2), rho),
        Cert::LeOfLeDiseq => {
            if p(0) <= 0 && p(1) != 0 {
                law_le_of_le_diseq_cert(q(0), q(1), q(2), rho);
            }
        },
        Cert::DiseqSplit => {
            if p(0) != 0 {
                law_diseq_split_cert(q(0), q(1), q(2), rho);
            }
        },
        Cert::LeCoeff => {
            if p(0) <= 0 {
                law_le_coeff_cert(q(0), q(1), int_in(ins, 2), rho);
            }
        },
        Cert::LeNeg => law_le_neg_cert(q(0), q(1), rho),
        Cert::LeCombine => {
            if p(0) <= 0 && p(1) <= 0 {
                law_le_combine_cert(q(0), q(1), q(2), rho);
            }
        },
        Cert::LeCombineCoeff => {
            if p(0) <= 0 && p(1) <= 0 {
                law_le_combine_coeff_cert(q(0), q(1), q(2), int_in(ins, 3), rho);
            }
        },
        Cert::EqCoeff => law_eq_coeff_cert(q(0), q(1), int_in(ins, 2), rho),
        Cert::EqUnsatCoeff => law_eq_unsat_coeff_cert(q(0), int_in(ins, 1), rho),
        Cert::DvdOfEq => {
            if p(1) == 0 {
                law_dvd_of_eq_cert(nat_in(ins, 0), q(1), int_in(ins, 2), q(3), rho);
            }
        },
        Cert::EqDvdSubst => {
            if p(1) == 0 && is_multiple(p(3), int_in(ins, 2)) {
                law_eq_dvd_subst_cert(
                    nat_in(ins, 0),
                    q(1),
                    int_in(ins, 2),
                    q(3),
                    int_in(ins, 4),
                    q(5),
                    rho,
                );
            }
        },
        Cert::VarEq => {
            if p(2) == 0 {
                law_var_eq_cert(nat_in(ins, 0), int_in(ins, 1), q(2), rho);
            }
        },
        Cert::OfVarEq => law_of_var_cert(nat_in(ins, 0), int_in(ins, 1), 0, rho),
        Cert::OfVarEqMul => law_of_var_cert(nat_in(ins, 0), int_in(ins, 1), nat_in(ins, 2), rho),
        Cert::OfVarEqVar => law_of_var_cert(nat_in(ins, 0), 0, nat_in(ins, 1), rho),
        Cert::NormEq => law_norm_eq_cert(exp_in(ins, 0), exp_in(ins, 1), q(2), 1, rho),
        Cert::NormEqVar => {
            let d = exp_difference(exp_in(ins, 0), exp_in(ins, 1));
            law_norm_eq_cert(exp_in(ins, 0), exp_in(ins, 1), d, 1, rho);
            law_of_var_cert(nat_in(ins, 2), 0, nat_in(ins, 3), rho);
        },
        Cert::NormEqVarConst => {
            let d = exp_difference(exp_in(ins, 0), exp_in(ins, 1));
            law_norm_eq_cert(exp_in(ins, 0), exp_in(ins, 1), d, 1, rho);
            law_of_var_cert(nat_in(ins, 2), int_in(ins, 3), 0, rho);
        },
        Cert::NormEqCoeff => law_norm_eq_cert(
            exp_in(ins, 0),
            exp_in(ins, 1),
            q(2),
            int_in(ins, 3),
            rho,
        ),
    }
}

/// The text that a certificate goes by.
pub open spec fn certificate_text(c: Cert) -> Seq<char> {
    match c {
        Cert::DiseqEqSubst => "diseq_eq_subst_cert"@,
        Cert::EqEqSubst => "eq_eq_subst_cert"@,
        Cert::EqEqSubstBy => "eq_eq_subst'_cert"@,
        Cert::EqOfLeGe => "eq_of_le_ge_cert"@,
        Cert::EqOfCore => "eq_of_core_cert"@,
        Cert::LeOfLeDiseq => "le_of_le_diseq_cert"@,
        Cert::DiseqSplit => "diseq_split_cert"@,
        Cert::LeCoeff => "le_coeff_cert"@,
        Cert::LeNeg => "le_neg_cert"@,
        Cert::LeCombine => "le_combine_cert"@,
        Cert::LeCombineCoeff => "le_combine_coeff_cert"@,
        Cert::EqCoeff => "eq_coeff_cert"@,
        Cert::EqUnsatCoeff => "eq_unsat_coeff_cert"@,
        Cert::DvdOfEq => "dvd_of_eq_cert"@,
        Cert::EqDvdSubst => "eq_dvd_subst_cert"@,
        Cert::VarEq => "var_eq_cert"@,
        Cert::OfVarEq => "of_var_eq_cert"@,
        Cert::OfVarEqMul => "of_var_eq_mul_cert"@,
        Cert::OfVarEqVar => "of_var_eq_var_cert"@,
        Cert::NormEq => "norm_eq_cert"@,
        Cert::NormEqVar => "norm_eq_var_cert"@,
        Cert::NormEqVarConst => "norm_eq_var_const_cert"@,
        Cert::NormEqCoeff => "norm_eq_coeff_cert"@,
    }
}

/// A name stands for a certificate only where it is the certificate's own.
pub proof fn law_certificate_name(name: Seq<char>)
    ensures
        cert_named(name) matches Some(c) ==> is_named(name, certificate_text(c)),
        cert_named(name) is None ==> forall|c: Cert| !is_named(name, #[trigger] certificate_text(c)),
{
    reveal(cert_named);
}

/// What a certificate reduces to says whether it holds of what its arguments are
/// read as: the truth only where none of its claims breaks.
pub proof fn law_certificate(
    k: K,
    s: Sem,
    m: Mode,
    ctx: Seq<Term>,
    c: Cert,
    args: Seq<Term>,
    t: Term,
    rho: spec_fn(nat) -> int,
)
    requires
        cert_spec(k, s, m, ctx, c, args) == Ok::<Option<Term>, Fault>(Some(t)),
    ensures
        exists|ins: Seq<InputT>|
            all_inputs(k, s, m, ctx, c, args) == Ok::<Option<Seq<InputT>>, Fault>(Some(ins))
                && bool_term(k, #[trigger] is_certified(c, ins)) == Some(t) && (is_certified(c, ins)
                ==> claims(c, ins, rho)) && forall|i: int|
                0 <= i < ins.len() ==> is_read_as(k, s, m, ctx, args[i], #[trigger] ins[i]),
{
    reveal(cert_spec);
    let ins = all_inputs(k, s, m, ctx, c, args)->Ok_0.unwrap();
    if cert_holds(c, ins) {
        law_certificate_is_sound(c, ins, rho);
    }
    if c != Cert::NormEq {
        lemma_inputs(k, s, m, ctx, c, args, 0, Seq::empty(), ins);
    }
    assert(bool_term(k, is_certified(c, ins)) == Some(t));
}

/// The input is what the term is: a natural, an integer, a polynomial or an
/// expression.
pub open spec fn is_read_as(k: K, s: Sem, m: Mode, ctx: Seq<Term>, e: Term, x: InputT) -> bool {
    match x {
        InputT::Nat(v) => closed_nat(k, s, m, ctx, e) == Ok::<Option<nat>, Fault>(Some(v))
            || reduced_nat(k, s, m, ctx, e) == Ok::<Option<nat>, Fault>(Some(v)),
        InputT::Int(v) => reduced_int(s, m, ctx, e) == Ok::<Option<int>, Fault>(Some(v)),
        InputT::Poly(p) => poly_of(k, s, m, ctx, e) == Ok::<Option<Lin>, Fault>(Some(p)),
        InputT::Exp(p) => exp_of(k, s, m, ctx, e) == Ok::<Option<LinExp>, Fault>(Some(p)),
    }
}

proof fn lemma_inputs(
    k: K,
    s: Sem,
    m: Mode,
    ctx: Seq<Term>,
    c: Cert,
    args: Seq<Term>,
    i: nat,
    acc: Seq<InputT>,
    ins: Seq<InputT>,
)
    requires
        i == acc.len() <= cert_arity(c),
        read_inputs(k, s, m, ctx, c, args, i, acc) == Ok::<Option<Seq<InputT>>, Fault>(Some(ins)),
        forall|j: int| 0 <= j < acc.len() ==> is_read_as(k, s, m, ctx, args[j], #[trigger] acc[j]),
    ensures
        ins.len() == cert_arity(c),
        forall|j: int| 0 <= j < ins.len() ==> is_read_as(k, s, m, ctx, args[j], #[trigger] ins[j]),
    decreases cert_arity(c) - i,
{
    if i < cert_arity(c) {
        let x = read_input(k, s, m, ctx, cert_kind(c, i as int), args[i as int])->Ok_0.unwrap();
        lemma_inputs(k, s, m, ctx, c, args, i + 1, acc.push(x), ins);
    }
}

/// The certificate holds of the inputs.
pub open spec fn is_certified(c: Cert, ins: Seq<InputT>) -> bool {
    cert_holds(c, ins)
}

/// There is a conclusion that is certified: the difference of two equations, the
/// opposite of an inequation, the combination of two inequations and of two
/// equations, and the normal form of an equation between expressions.
pub proof fn law_certified_conclusions(p1: Lin, p2: Lin, x: nat, e1: LinExp, e2: LinExp)
    ensures
        exists|p: Lin| #[trigger] is_certified(Cert::EqOfCore, three(InputT::Poly(p1), InputT::Poly(p2), InputT::Poly(p))),
        exists|p: Lin| #[trigger] is_certified(Cert::EqOfLeGe, two(InputT::Poly(p1), InputT::Poly(p))),
        exists|p: Lin| #[trigger] is_certified(Cert::LeNeg, two(InputT::Poly(p1), InputT::Poly(p))),
        exists|p: Lin| #[trigger] is_certified(Cert::LeCombine, three(InputT::Poly(p1), InputT::Poly(p2), InputT::Poly(p))),
        exists|p: Lin, q: Lin| #[trigger] is_certified(Cert::DiseqSplit, three(InputT::Poly(p1), InputT::Poly(p), InputT::Poly(q))),
        exists|p: Lin| #[trigger]
            is_certified(
                Cert::EqEqSubst,
                four(InputT::Nat(x), InputT::Poly(p1), InputT::Poly(p2), InputT::Poly(p)),
            ),
        exists|p: Lin| #[trigger]
            is_certified(Cert::NormEq, three(InputT::Exp(e1), InputT::Exp(e2), InputT::Poly(p))),
{
    reveal(cert_holds);
    let core = crate::linear::lin_combine(1, -1, p1, p2);
    assert(is_certified(Cert::EqOfCore, three(InputT::Poly(p1), InputT::Poly(p2), InputT::Poly(core))));
    let minus = crate::linear::lin_mul(p1, -1);
    assert(is_certified(Cert::EqOfLeGe, two(InputT::Poly(p1), InputT::Poly(minus))));
    let opposite = crate::linear::lin_add_const(minus, 1);
    assert(is_certified(Cert::LeNeg, two(InputT::Poly(p1), InputT::Poly(opposite))));
    let more = crate::linear::lin_add_const(p1, 1);
    assert(is_certified(Cert::DiseqSplit, three(InputT::Poly(p1), InputT::Poly(more), InputT::Poly(opposite))));
    let sum = crate::certs::cross_sum(p1, p2);
    assert(is_certified(Cert::LeCombine, three(InputT::Poly(p1), InputT::Poly(p2), InputT::Poly(sum))));
    let a = crate::linear::lin_coeff(p1, x);
    let b = crate::linear::lin_coeff(p2, x);
    let replaced = crate::linear::lin_combine(b, -a, p1, p2);
    assert(is_certified(
        Cert::EqEqSubst,
        four(InputT::Nat(x), InputT::Poly(p1), InputT::Poly(p2), InputT::Poly(replaced)),
    ));
    let d = exp_difference(e1, e2);
    assert(is_certified(
        Cert::NormEq,
        three(InputT::Exp(e1), InputT::Exp(e2), InputT::Poly(d)),
    ));
}

/// Two inputs.
pub open spec fn two(a: InputT, b: InputT) -> Seq<InputT> {
    seq![a, b]
}

/// Three inputs.
pub open spec fn three(a: InputT, b: InputT, c: InputT) -> Seq<InputT> {
    seq![a, b, c]
}

/// Four inputs.
pub open spec fn four(a: InputT, b: InputT, c: InputT, d: InputT) -> Seq<InputT> {
    seq![a, b, c, d]
}

/// The term is headed by the constant of linear arithmetic of that name.
pub open spec fn is_linear(k: K, w: Term, text: Seq<char>) -> bool {
    spine_head(w) matches Term::Const(c, _) && int_linear_ident(name_of(k, c), text)
}

/// The argument of a term, counted from the last one.
pub open spec fn from_end(w: Term, i: int) -> Term {
    spine_args(w)[spine_args(w).len() - i]
}

/// The reflected expression, reduced as it is read, has the value, given the
/// variables.
pub open spec fn exp_means(
    k: K,
    s: Sem,
    m: Mode,
    ctx: Seq<Term>,
    e: Term,
    rho: spec_fn(nat) -> int,
    v: int,
    n: nat,
) -> bool
    decreases n,
{
    n > 0 && exists|w: Term| #[trigger]
        reduces(s, m, ctx, e, w) && {
            let n1 = (n - 1) as nat;
            let last = from_end(w, 1);
            let first = from_end(w, 2);
            ||| is_linear(k, w, "Expr.num"@) && reduced_int(s, m, ctx, last) == Ok::<
                Option<int>,
                Fault,
            >(Some(v))
            ||| is_linear(k, w, "Expr.var"@) && exists|x: nat|
                reduced_nat(k, s, m, ctx, last) == Ok::<Option<nat>, Fault>(Some(x))
                    && #[trigger] rho(x) == v
            ||| is_linear(k, w, "Expr.neg"@) && exp_means(k, s, m, ctx, last, rho, -v, n1)
            ||| is_linear(k, w, "Expr.add"@) && exists|a: int, b: int|
                exp_means(k, s, m, ctx, first, rho, a, n1) && exp_means(
                    k,
                    s,
                    m,
                    ctx,
                    last,
                    rho,
                    b,
                    n1,
                ) && #[trigger] sums_to(a, b, v)
            ||| is_linear(k, w, "Expr.sub"@) && exists|a: int, b: int|
                exp_means(k, s, m, ctx, first, rho, a, n1) && exp_means(
                    k,
                    s,
                    m,
                    ctx,
                    last,
                    rho,
                    b,
                    n1,
                ) && #[trigger] sums_to(v, b, a)
            ||| is_linear(k, w, "Expr.mulL"@) && exists|a: int, b: int|
                reduced_int(s, m, ctx, first) == Ok::<Option<int>, Fault>(Some(a)) && exp_means(
                    k,
                    s,
                    m,
                    ctx,
                    last,
                    rho,
                    b,
                    n1,
                ) && #[trigger] times_to(a, b, v)
            ||| is_linear(k, w, "Expr.mulR"@) && exists|a: int, b: int|
                exp_means(k, s, m, ctx, first, rho, a, n1) && reduced_int(s, m, ctx, last) == Ok::<
                    Option<int>,
                    Fault,
                >(Some(b)) && #[trigger] times_to(a, b, v)
        }
}

/// The third is the sum of the other two.
pub open spec fn sums_to(a: int, b: int, v: int) -> bool {
    a + b == v
}

/// The third is the product of the other two.
pub open spec fn times_to(a: int, b: int, v: int) -> bool {
    a * b == v
}

/// A reflected expression is read as one of the same value.
pub proof fn law_read_expression(
    k: K,
    s: Sem,
    m: Mode,
    ctx: Seq<Term>,
    e: Term,
    n: nat,
    x: LinExp,
    rho: spec_fn(nat) -> int,
)
    requires
        read_exp(k, s, m, ctx, e, n) == Ok::<Option<LinExp>, Fault>(Some(x)),
    ensures
        exp_means(k, s, m, ctx, e, rho, linexp_value(x, rho), n),
    decreases n,
{
    let w = (s.whnf)(m, ctx, e)->Ok_0;
    assert(reduces(s, m, ctx, e, w));
    let n1 = (n - 1) as nat;
    let v = linexp_value(x, rho);
    match x {
        LinExp::Num(_) => {},
        LinExp::Var(i) => {
            assert(rho(i) == v);
        },
        LinExp::Neg(a) => {
            law_read_expression(k, s, m, ctx, from_end(w, 1), n1, *a, rho);
        },
        LinExp::Add(a, b) => {
            law_read_expression(k, s, m, ctx, from_end(w, 2), n1, *a, rho);
            law_read_expression(k, s, m, ctx, from_end(w, 1), n1, *b, rho);
            assert(sums_to(linexp_value(*a, rho), linexp_value(*b, rho), v));
        },
        LinExp::Sub(a, b) => {
            law_read_expression(k, s, m, ctx, from_end(w, 2), n1, *a, rho);
            law_read_expression(k, s, m, ctx, from_end(w, 1), n1, *b, rho);
            assert(sums_to(v, linexp_value(*b, rho), linexp_value(*a, rho)));
        },
        LinExp::MulL(a, b) => {
            law_read_expression(k, s, m, ctx, from_end(w, 1), n1, *b, rho);
            assert(times_to(a, linexp_value(*b, rho), v));
        },
        LinExp::MulR(a, b) => {
            law_read_expression(k, s, m, ctx, from_end(w, 2), n1, *a, rho);
            assert(times_to(linexp_value(*a, rho), b, v));
        },
    }
}

/// The reflected polynomial, reduced as it is read, has the value, given the
/// variables.
pub open spec fn poly_means(
    k: K,
    s: Sem,
    m: Mode,
    ctx: Seq<Term>,
    e: Term,
    rho: spec_fn(nat) -> int,
    v: int,
    n: nat,
) -> bool
    decreases n,
{
    n > 0 && exists|w: Term| #[trigger]
        reduces(s, m, ctx, e, w) && {
            ||| is_linear(k, w, "Poly.num"@) && reduced_int(s, m, ctx, from_end(w, 1)) == Ok::<
                Option<int>,
                Fault,
            >(Some(v))
            ||| is_linear(k, w, "Poly.add"@) && exists|a: int, i: nat, rest: int|
                reduced_int(s, m, ctx, from_end(w, 3)) == Ok::<Option<int>, Fault>(Some(a))
                    && reduced_nat(k, s, m, ctx, from_end(w, 2)) == Ok::<Option<nat>, Fault>(
                    Some(i),
                ) && poly_means(k, s, m, ctx, from_end(w, 1), rho, rest, (n - 1) as nat)
                    && #[trigger] adds_multiple(a, rho, i, rest, v)
        }
}

/// The value is the multiple of the variable and the rest.
pub open spec fn adds_multiple(a: int, rho: spec_fn(nat) -> int, i: nat, rest: int, v: int) -> bool {
    a * rho(i) + rest == v
}

/// A reflected polynomial is read as one of the same value.
pub proof fn law_read_polynomial(
    k: K,
    s: Sem,
    m: Mode,
    ctx: Seq<Term>,
    e: Term,
    n: nat,
    x: Lin,
    rho: spec_fn(nat) -> int,
)
    requires
        read_poly(k, s, m, ctx, e, n) == Ok::<Option<Lin>, Fault>(Some(x)),
    ensures
        poly_means(k, s, m, ctx, e, rho, lin_value(x, rho), n),
    decreases n,
{
    let w = (s.whnf)(m, ctx, e)->Ok_0;
    assert(reduces(s, m, ctx, e, w));
    match x {
        Lin::Num(_) => {},
        Lin::Add(a, i, p) => {
            law_read_polynomial(k, s, m, ctx, from_end(w, 1), (n - 1) as nat, *p, rho);
            assert(adds_multiple(a, rho, i, lin_value(*p, rho), lin_value(x, rho)));
        },
    }
}

/// The greatest common divisor of a list divides every entry, and whatever divides
/// every entry divides it.
pub proof fn law_list_divisor(vs: Seq<int>, d: nat)
    ensures
        forall|j: int| 0 <= j < vs.len() ==> divides(gcd_all(vs), magnitude(#[trigger] vs[j])),
        (forall|j: int| 0 <= j < vs.len() ==> divides(d, magnitude(#[trigger] vs[j]))) ==> divides(
            d,
            gcd_all(vs),
        ),
{
    lemma_list_divisor(vs, 0, 0, d);
    assert(0nat == d * 0nat);
}

proof fn lemma_divides_on(a: nat, b: nat, c: nat)
    requires
        divides(a, b),
        divides(b, c),
    ensures
        divides(a, c),
{
    let x = choose|x: nat| b == #[trigger] (a * x);
    let y = choose|y: nat| c == #[trigger] (b * y);
    assert((a * x) * y == a * (x * y)) by (nonlinear_arith);
    let z: nat = x * y;
    assert(c == a * z);
}

proof fn lemma_list_divisor(vs: Seq<int>, i: nat, g: nat, d: nat)
    ensures
        divides(gcd_from(vs, i, g), g),
        forall|j: int|
            i <= j < vs.len() ==> divides(gcd_from(vs, i, g), magnitude(#[trigger] vs[j])),
        divides(d, g) && (forall|j: int|
            i <= j < vs.len() ==> divides(d, magnitude(#[trigger] vs[j]))) ==> divides(
            d,
            gcd_from(vs, i, g),
        ),
    decreases vs.len() - i,
{
    if i < vs.len() {
        let h = gcd(g, magnitude(vs[i as int]));
        law_gcd(g, magnitude(vs[i as int]));
        lemma_list_divisor(vs, i + 1, h, d);
        let r = gcd_from(vs, i, g);
        lemma_divides_on(r, h, g);
        lemma_divides_on(r, h, magnitude(vs[i as int]));
    } else {
        assert(g == g * 1nat);
    }
}

/// Combining coefficients combines what they come to, whatever the unknowns are.
pub proof fn law_combined_coefficients(
    a: int,
    xs: Seq<int>,
    b: int,
    ys: Seq<int>,
    v: Seq<int>,
)
    ensures
        combine_coeffs(a, xs, b, ys).len() >= xs.len(),
        combine_coeffs(a, xs, b, ys).len() >= ys.len(),
        dot_from(combine_coeffs(a, xs, b, ys), v, 0) == a * dot_from(xs, v, 0) + b * dot_from(
            ys,
            v,
            0,
        ),
{
    lemma_combined_from(a, xs, b, ys, v, 0);
}

proof fn lemma_combined_from(
    a: int,
    xs: Seq<int>,
    b: int,
    ys: Seq<int>,
    v: Seq<int>,
    i: nat,
)
    ensures
        dot_from(combine_coeffs(a, xs, b, ys), v, i) == a * dot_from(xs, v, i) + b * dot_from(
            ys,
            v,
            i,
        ),
    decreases combine_coeffs(a, xs, b, ys).len() - i,
{
    let c = combine_coeffs(a, xs, b, ys);
    if i < c.len() {
        lemma_combined_from(a, xs, b, ys, v, i + 1);
        let x = at_or_zero(xs, i as int);
        let y = at_or_zero(ys, i as int);
        let u = at_or_zero(v, i as int);
        let p = dot_from(xs, v, i + 1);
        let q = dot_from(ys, v, i + 1);
        assert(i >= xs.len() ==> dot_from(xs, v, i) == 0 && p == 0 && x == 0);
        assert(i >= ys.len() ==> dot_from(ys, v, i) == 0 && q == 0 && y == 0);
        assert(0 * u == 0);
        assert(dot_from(xs, v, i) == x * u + p);
        assert(dot_from(ys, v, i) == y * u + q);
        assert((a * x + b * y) * u + (a * p + b * q) == a * (x * u + p) + b * (y * u + q))
            by (nonlinear_arith);
    } else {
        assert(a * 0 + b * 0 == 0);
    }
}

/// The reduced term shows the bound: none, or one that is the integer.
pub open spec fn shows_bound(
    k: K,
    s: Sem,
    m: Mode,
    ctx: Seq<Term>,
    t: Term,
    b: Option<int>,
) -> bool {
    match option_shown(k, t) {
        None => false,
        Some(None) => b is None,
        Some(Some(x)) => b is Some && (s.closed_int)(m, ctx, x) == Ok::<Option<int>, Fault>(b),
    }
}

/// Two bounds merge into the tighter one: what meets it meets both, and what meets
/// both meets it.
pub proof fn law_merged_bounds(
    k: K,
    s: Sem,
    m: Mode,
    ctx: Seq<Term>,
    a: Term,
    b: Term,
    lower: bool,
    aw: Term,
    bw: Term,
    x: Option<int>,
    y: Option<int>,
    v: int,
)
    requires
        reduces(s, m, ctx, a, aw),
        reduces(s, m, ctx, b, bw),
        shows_bound(k, s, m, ctx, aw, x),
        shows_bound(k, s, m, ctx, bw, y),
    ensures
        exists|t: Term, z: Option<int>|
            merged_bound(k, s, m, ctx, a, b, lower) == Ok::<Option<Term>, Fault>(Some(t))
                && #[trigger] shows_bound(k, s, m, ctx, t, z) && (lower ==> (in_bounds(z, None, v)
                <==> in_bounds(x, None, v) && in_bounds(y, None, v))) && (!lower ==> (in_bounds(
                None,
                z,
                v,
            ) <==> in_bounds(None, x, v) && in_bounds(None, y, v))),
{
    reveal(merged_bound);
    let t = merged_bound(k, s, m, ctx, a, b, lower)->Ok_0.unwrap();
    if t == aw {
        assert(shows_bound(k, s, m, ctx, t, x));
    }
    if t == bw {
        assert(shows_bound(k, s, m, ctx, t, y));
    }
}

/// What a constraint is brought to is met by the same unknowns as the constraint.
pub proof fn law_constraints(
    q: Ineq,
    v: Seq<int>,
    k: K,
    s: Sem,
    m: Mode,
    ctx: Seq<Term>,
    c: Term,
    xs: Term,
    w: Term,
    t: Term,
    l: Term,
    lo: Term,
    hi: Term,
)
    requires
        reduces(s, m, ctx, c, w),
        constraint_fields(k, w) == Some((lo, hi)),
        closed_bound(k, s, m, ctx, lo) == Ok::<Option<Option<int>>, Fault>(Some(q.lo)),
        closed_bound(k, s, m, ctx, hi) == Ok::<Option<Option<int>>, Fault>(Some(q.hi)),
        list_values_spec(k, s, m, ctx, xs) == Ok::<Option<Seq<int>>, Fault>(Some(q.coeffs)),
        omega_tidy_spec(k, s, m, ctx, c, xs) == Ok::<Option<(Term, Term)>, Fault>(Some((t, l))),
    ensures
        exists|r: Ineq| #[trigger]
            meets(r, v) == meets(q, v) && constraint_term(k, r.lo, r.hi) == Some(t)
                && int_list_term(k, r.coeffs) == Some(l),
{
    reveal(omega_tidy_spec);
    let r = tidy_spec(q);
    law_tidy_keeps_solutions(q, v);
    assert(q == Ineq { lo: q.lo, hi: q.hi, coeffs: q.coeffs });
    assert(meets(r, v) == meets(q, v));
}

} // verus!
