//! Reflected linear integer arithmetic.

use crate::certs::{
    arity_of, cert_arity, cert_holds, cert_kind, cert_named, check_cert, input_fits, kind_at,
    named_cert, Cert, Input, InputT, Kind,
};
use crate::closed::{bool_term, both, canonical_int, closed_nat};
use crate::ctx::Ctx;
use crate::errors::{decline, res, Fault, R};
use crate::expr::{
    app, apps_from, const_, lit_nat, spine_args, spine_head, unfold_apps, Expr, ExprData, Term,
};
use crate::ext::with_rest;
use crate::judge::sem_at;
use crate::kernel::{Budget, NEST_LIMIT, Checker, K, Mode, Res, STEP_LIMIT, Sem};
use crate::level::{zero, Level, Univ};
use crate::linear::{lin_combine, Lin, LinExp, LinearExpr, LinearPoly};
use crate::lookup::{name_of, plain_const};
use crate::names::{
    app1, app2, app3, at_zero, const_at_zero, find_name_ending_spec, find_name_spec, mk_app2,
    mk_app3, nat_lit, plain,
};
use crate::num::{Integer, Natural};
use crate::text::{
    int_linear_ident, is_infix, is_int_linear_ident, is_named, named, str_contains,
};
use vstd::prelude::*;

verus! {

/// The shape of a reflected expression.
pub enum ExpForm<T> {
    Opaque,
    Num(T),
    Var(T),
    Neg(T),
    Plus(T, T),
    Minus(T, T),
    MulL(T, T),
    MulR(T, T),
}

impl<T: DeepView> DeepView for ExpForm<T> {
    type V = ExpForm<T::V>;

    open spec fn deep_view(&self) -> ExpForm<T::V> {
        match self {
            ExpForm::Opaque => ExpForm::Opaque,
            ExpForm::Num(a) => ExpForm::Num(a.deep_view()),
            ExpForm::Var(a) => ExpForm::Var(a.deep_view()),
            ExpForm::Neg(a) => ExpForm::Neg(a.deep_view()),
            ExpForm::Plus(a, b) => ExpForm::Plus(a.deep_view(), b.deep_view()),
            ExpForm::Minus(a, b) => ExpForm::Minus(a.deep_view(), b.deep_view()),
            ExpForm::MulL(a, b) => ExpForm::MulL(a.deep_view(), b.deep_view()),
            ExpForm::MulR(a, b) => ExpForm::MulR(a.deep_view(), b.deep_view()),
        }
    }
}

/// The shape of a reflected expression.
pub open spec fn exp_form(k: K, e: Term) -> ExpForm<Term> {
    let args = spine_args(e);
    let n = args.len();
    match spine_head(e) {
        Term::Const(c, _) => {
            let name = name_of(k, c);
            if n < 1 {
                ExpForm::Opaque
            } else if int_linear_ident(name, "Expr.num"@) {
                ExpForm::Num(args[n - 1])
            } else if int_linear_ident(name, "Expr.var"@) {
                ExpForm::Var(args[n - 1])
            } else if int_linear_ident(name, "Expr.neg"@) {
                ExpForm::Neg(args[n - 1])
            } else if n < 2 {
                ExpForm::Opaque
            } else if int_linear_ident(name, "Expr.add"@) {
                ExpForm::Plus(args[n - 2], args[n - 1])
            } else if int_linear_ident(name, "Expr.sub"@) {
                ExpForm::Minus(args[n - 2], args[n - 1])
            } else if int_linear_ident(name, "Expr.mulL"@) {
                ExpForm::MulL(args[n - 2], args[n - 1])
            } else if int_linear_ident(name, "Expr.mulR"@) {
                ExpForm::MulR(args[n - 2], args[n - 1])
            } else {
                ExpForm::Opaque
            }
        },
        _ => ExpForm::Opaque,
    }
}

/// The shape of a reflected polynomial.
pub enum PolyForm<T> {
    Opaque,
    Num(T),
    Plus(T, T, T),
}

impl<T: DeepView> DeepView for PolyForm<T> {
    type V = PolyForm<T::V>;

    open spec fn deep_view(&self) -> PolyForm<T::V> {
        match self {
            PolyForm::Opaque => PolyForm::Opaque,
            PolyForm::Num(a) => PolyForm::Num(a.deep_view()),
            PolyForm::Plus(a, b, c) => PolyForm::Plus(
                a.deep_view(),
                b.deep_view(),
                c.deep_view(),
            ),
        }
    }
}

/// The shape of a reflected polynomial.
pub open spec fn poly_form(k: K, e: Term) -> PolyForm<Term> {
    let args = spine_args(e);
    let n = args.len();
    match spine_head(e) {
        Term::Const(c, _) => {
            let name = name_of(k, c);
            if n >= 1 && int_linear_ident(name, "Poly.num"@) {
                PolyForm::Num(args[n - 1])
            } else if n >= 3 && int_linear_ident(name, "Poly.add"@) {
                PolyForm::Plus(args[n - 3], args[n - 2], args[n - 1])
            } else {
                PolyForm::Opaque
            }
        },
        _ => PolyForm::Opaque,
    }
}

/// The value of an integer term, reduced first.
pub open spec fn reduced_int(s: Sem, m: Mode, ctx: Seq<Term>, e: Term) -> Res<Option<int>> {
    match (s.whnf)(m, ctx, e) {
        Err(f) => Err(f),
        Ok(w) => (s.closed_int)(m, ctx, w),
    }
}

/// The value of a natural term, reduced first.
pub open spec fn reduced_nat(k: K, s: Sem, m: Mode, ctx: Seq<Term>, e: Term) -> Res<Option<nat>> {
    match (s.whnf)(m, ctx, e) {
        Err(f) => Err(f),
        Ok(w) => closed_nat(k, s, m, ctx, w),
    }
}

/// The reflected expression that a term is, with at most `n` nested parts.
pub open spec fn read_exp(k: K, s: Sem, m: Mode, ctx: Seq<Term>, e: Term, n: nat) -> Res<
    Option<LinExp>,
>
    decreases n,
{
    if n == 0 {
        Err(Fault::Decline("reflected expression depth limit"@))
    } else {
        let n1 = (n - 1) as nat;
        match (s.whnf)(m, ctx, e) {
            Err(f) => Err(f),
            Ok(w) => match exp_form(k, w) {
                ExpForm::Opaque => Ok(None),
                ExpForm::Num(t) => match reduced_int(s, m, ctx, t) {
                    Err(f) => Err(f),
                    Ok(None) => Ok(None),
                    Ok(Some(v)) => Ok(Some(LinExp::Num(v))),
                },
                ExpForm::Var(t) => match reduced_nat(k, s, m, ctx, t) {
                    Err(f) => Err(f),
                    Ok(None) => Ok(None),
                    Ok(Some(v)) => Ok(Some(LinExp::Var(v))),
                },
                ExpForm::Neg(t) => match read_exp(k, s, m, ctx, t, n1) {
                    Err(f) => Err(f),
                    Ok(None) => Ok(None),
                    Ok(Some(a)) => Ok(Some(LinExp::Neg(Box::new(a)))),
                },
                ExpForm::Plus(t, u) => match read_exp(k, s, m, ctx, t, n1) {
                    Err(f) => Err(f),
                    Ok(None) => Ok(None),
                    Ok(Some(a)) => match read_exp(k, s, m, ctx, u, n1) {
                        Err(f) => Err(f),
                        Ok(None) => Ok(None),
                        Ok(Some(b)) => Ok(Some(LinExp::Add(Box::new(a), Box::new(b)))),
                    },
                },
                ExpForm::Minus(t, u) => match read_exp(k, s, m, ctx, t, n1) {
                    Err(f) => Err(f),
                    Ok(None) => Ok(None),
                    Ok(Some(a)) => match read_exp(k, s, m, ctx, u, n1) {
                        Err(f) => Err(f),
                        Ok(None) => Ok(None),
                        Ok(Some(b)) => Ok(Some(LinExp::Sub(Box::new(a), Box::new(b)))),
                    },
                },
                ExpForm::MulL(t, u) => match reduced_int(s, m, ctx, t) {
                    Err(f) => Err(f),
                    Ok(None) => Ok(None),
                    Ok(Some(v)) => match read_exp(k, s, m, ctx, u, n1) {
                        Err(f) => Err(f),
                        Ok(None) => Ok(None),
                        Ok(Some(a)) => Ok(Some(LinExp::MulL(v, Box::new(a)))),
                    },
                },
                ExpForm::MulR(t, u) => match read_exp(k, s, m, ctx, t, n1) {
                    Err(f) => Err(f),
                    Ok(None) => Ok(None),
                    Ok(Some(a)) => match reduced_int(s, m, ctx, u) {
                        Err(f) => Err(f),
                        Ok(None) => Ok(None),
                        Ok(Some(v)) => Ok(Some(LinExp::MulR(Box::new(a), v))),
                    },
                },
            },
        }
    }
}

/// The reflected expression that a term is.
pub open spec fn exp_of(k: K, s: Sem, m: Mode, ctx: Seq<Term>, e: Term) -> Res<Option<LinExp>> {
    read_exp(k, s, m, ctx, e, NEST_LIMIT as nat)
}

/// The reflected polynomial that a term is, with at most `n` summands.
pub open spec fn read_poly(k: K, s: Sem, m: Mode, ctx: Seq<Term>, e: Term, n: nat) -> Res<
    Option<Lin>,
>
    decreases n,
{
    if n == 0 {
        Err(Fault::Decline("reflected polynomial depth limit"@))
    } else {
        match (s.whnf)(m, ctx, e) {
            Err(f) => Err(f),
            Ok(w) => match poly_form(k, w) {
                PolyForm::Opaque => Ok(None),
                PolyForm::Num(t) => match reduced_int(s, m, ctx, t) {
                    Err(f) => Err(f),
                    Ok(None) => Ok(None),
                    Ok(Some(v)) => Ok(Some(Lin::Num(v))),
                },
                PolyForm::Plus(kt, vt, p) => read_summand(
                    k,
                    s,
                    m,
                    ctx,
                    kt,
                    vt,
                    read_poly(k, s, m, ctx, p, (n - 1) as nat),
                ),
            },
        }
    }
}

/// A summand of a reflected polynomial in front of the others.
pub open spec fn read_summand(
    k: K,
    s: Sem,
    m: Mode,
    ctx: Seq<Term>,
    kt: Term,
    vt: Term,
    rest: Res<Option<Lin>>,
) -> Res<Option<Lin>> {
    match (s.whnf)(m, ctx, kt) {
        Err(f) => Err(f),
        Ok(kw) => match (s.whnf)(m, ctx, vt) {
            Err(f) => Err(f),
            Ok(vw) => match (s.closed_int)(m, ctx, kw) {
                Err(f) => Err(f),
                Ok(None) => Ok(None),
                Ok(Some(kv)) => match closed_nat(k, s, m, ctx, vw) {
                    Err(f) => Err(f),
                    Ok(None) => Ok(None),
                    Ok(Some(vv)) => match rest {
                        Err(f) => Err(f),
                        Ok(None) => Ok(None),
                        Ok(Some(p)) => Ok(Some(Lin::Add(kv, vv, Box::new(p)))),
                    },
                },
            },
        },
    }
}

/// The reflected polynomial that a term is.
pub open spec fn poly_of(k: K, s: Sem, m: Mode, ctx: Seq<Term>, e: Term) -> Res<Option<Lin>> {
    read_poly(k, s, m, ctx, e, NEST_LIMIT as nat)
}

/// The first name from position `i` on that linear arithmetic answers to.
pub open spec fn linear_name_from(names: Seq<Seq<char>>, text: Seq<char>, i: nat) -> Option<u32>
    decreases names.len() - i,
{
    if i >= names.len() || i > u32::MAX {
        None
    } else if int_linear_ident(names[i as int], text) {
        Some(i as u32)
    } else {
        linear_name_from(names, text, i + 1)
    }
}

/// The constant of linear arithmetic with the given name.
pub open spec fn linear_name(k: K, text: Seq<char>) -> Option<u32> {
    linear_name_from(k.names, text, 0)
}

/// A polynomial as a term.
pub open spec fn poly_term(k: K, p: Lin) -> Option<Term>
    decreases p,
{
    match p {
        Lin::Num(c) => match (linear_name(k, "Poly.num"@), canonical_int(k, c)) {
            (Some(f), Some(t)) => Some(app1(plain(f), t)),
            _ => None,
        },
        Lin::Add(c, v, rest) => match (
            linear_name(k, "Poly.add"@),
            canonical_int(k, c),
            poly_term(k, *rest),
        ) {
            (Some(f), Some(t), Some(r)) => Some(app3(plain(f), t, nat_lit(v), r)),
            _ => None,
        },
    }
}

/// A constant at three lowest universes.
pub open spec fn at_zeros(n: u32) -> Term {
    Term::Const(n, seq![Univ::Zero, Univ::Zero, Univ::Zero])
}

/// An overloaded operation between integers.
pub open spec fn hbin_term(
    k: K,
    method: Seq<char>,
    inst_h: Seq<char>,
    inst_int: Seq<char>,
    a: Term,
    b: Term,
) -> Option<Term> {
    match (
        find_name_spec(k, method),
        find_name_ending_spec(k, "Int"@),
        find_name_spec(k, inst_h),
        find_name_spec(k, inst_int),
    ) {
        (Some(f), Some(ty), Some(h), Some(i)) => {
            let t = plain(ty);
            Some(app3(app3(at_zeros(f), t, t, t), app2(at_zero(h), t, plain(i)), a, b))
        },
        _ => None,
    }
}

/// A sum of integers.
pub open spec fn hadd_term(k: K, a: Term, b: Term) -> Option<Term> {
    hbin_term(k, "HAdd.hAdd"@, "instHAdd"@, "Int.instAdd"@, a, b)
}

/// A difference of integers.
pub open spec fn hsub_term(k: K, a: Term, b: Term) -> Option<Term> {
    hbin_term(k, "HSub.hSub"@, "instHSub"@, "Int.instSub"@, a, b)
}

/// A product of integers.
pub open spec fn hmul_term(k: K, a: Term, b: Term) -> Option<Term> {
    hbin_term(k, "HMul.hMul"@, "instHMul"@, "Int.instMul"@, a, b)
}

/// The negative of an integer.
pub open spec fn hneg_term(k: K, a: Term) -> Option<Term> {
    let inst = match find_name_spec(k, "Int.instNegInt"@) {
        Some(i) => Some(i),
        None => find_name_ending_spec(k, "instNegInt"@),
    };
    match (find_name_spec(k, "Neg.neg"@), find_name_ending_spec(k, "Int"@), inst) {
        (Some(f), Some(ty), Some(i)) => Some(app3(at_zero(f), plain(ty), plain(i), a)),
        _ => None,
    }
}

/// The element of a reduced tree array at an index.
pub open spec fn tree_get(k: K, s: Sem, m: Mode, ctx: Seq<Term>, t: Term, i: nat, n: nat) -> Res<
    Option<Term>,
>
    decreases n,
{
    let args = spine_args(t);
    let len = args.len();
    match spine_head(t) {
        Term::Const(c, _) => {
            let name = name_of(k, c);
            if is_named(name, "leaf"@) && len >= 1 {
                Ok(Some(args[len - 1]))
            } else if is_named(name, "branch"@) && len >= 3 {
                match closed_nat(k, s, m, ctx, args[len - 3]) {
                    Err(f) => Err(f),
                    Ok(None) => Ok(None),
                    Ok(Some(p)) => match (s.whnf)(
                        m,
                        ctx,
                        if i < p {
                            args[len - 2]
                        } else {
                            args[len - 1]
                        },
                    ) {
                        Err(f) => Err(f),
                        Ok(w) => if n == 0 {
                            Err(Fault::Decline("WHNF step limit"@))
                        } else {
                            tree_get(k, s, m, ctx, w, i, (n - 1) as nat)
                        },
                    },
                }
            } else {
                Ok(None)
            }
        },
        _ => Ok(None),
    }
}

/// The element of a tree array at a closed index.
#[verifier::opaque]
pub open spec fn rarray_spec(k: K, s: Sem, m: Mode, ctx: Seq<Term>, arr: Term, idx: Term) -> Res<
    Option<Term>,
> {
    match closed_nat(k, s, m, ctx, idx) {
        Err(f) => Err(f),
        Ok(None) => Ok(None),
        Ok(Some(i)) => match (s.whnf)(m, ctx, arr) {
            Err(f) => Err(f),
            Ok(w) => tree_get(k, s, m, ctx, w, i, STEP_LIMIT as nat),
        },
    }
}

/// What a reflected expression denotes, with at most `n` nested parts.
pub open spec fn denote_exp(
    k: K,
    s: Sem,
    m: Mode,
    ctx: Seq<Term>,
    rctx: Term,
    e: Term,
    n: nat,
) -> Res<Option<Term>>
    decreases n,
{
    if n == 0 {
        Err(Fault::Decline("reflected expression depth limit"@))
    } else {
        let n1 = (n - 1) as nat;
        match (s.whnf)(m, ctx, e) {
            Err(f) => Err(f),
            Ok(w) => match exp_form(k, w) {
                ExpForm::Opaque => Ok(None),
                ExpForm::Num(t) => Ok(Some(t)),
                ExpForm::Var(t) => rarray_spec(k, s, m, ctx, rctx, t),
                ExpForm::Neg(t) => match denote_exp(k, s, m, ctx, rctx, t, n1) {
                    Err(f) => Err(f),
                    Ok(None) => Ok(None),
                    Ok(Some(a)) => Ok(hneg_term(k, a)),
                },
                ExpForm::Plus(t, u) => match denote_exp(k, s, m, ctx, rctx, t, n1) {
                    Err(f) => Err(f),
                    Ok(None) => Ok(None),
                    Ok(Some(a)) => match denote_exp(k, s, m, ctx, rctx, u, n1) {
                        Err(f) => Err(f),
                        Ok(None) => Ok(None),
                        Ok(Some(b)) => Ok(hadd_term(k, a, b)),
                    },
                },
                ExpForm::Minus(t, u) => match denote_exp(k, s, m, ctx, rctx, t, n1) {
                    Err(f) => Err(f),
                    Ok(None) => Ok(None),
                    Ok(Some(a)) => match denote_exp(k, s, m, ctx, rctx, u, n1) {
                        Err(f) => Err(f),
                        Ok(None) => Ok(None),
                        Ok(Some(b)) => Ok(hsub_term(k, a, b)),
                    },
                },
                ExpForm::MulL(t, u) => match denote_exp(k, s, m, ctx, rctx, u, n1) {
                    Err(f) => Err(f),
                    Ok(None) => Ok(None),
                    Ok(Some(a)) => Ok(hmul_term(k, t, a)),
                },
                ExpForm::MulR(t, u) => match denote_exp(k, s, m, ctx, rctx, t, n1) {
                    Err(f) => Err(f),
                    Ok(None) => Ok(None),
                    Ok(Some(a)) => Ok(hmul_term(k, a, u)),
                },
            },
        }
    }
}

/// A summand of a reflected polynomial: the variable, times its coefficient where
/// that is not one.
#[verifier::opaque]
pub open spec fn denote_summand(
    k: K,
    s: Sem,
    m: Mode,
    ctx: Seq<Term>,
    rctx: Term,
    kt: Term,
    vt: Term,
) -> Res<Option<Term>> {
    match reduced_int(s, m, ctx, kt) {
        Err(f) => Err(f),
        Ok(None) => Ok(None),
        Ok(Some(kv)) => match rarray_spec(k, s, m, ctx, rctx, vt) {
            Err(f) => Err(f),
            Ok(None) => Ok(None),
            Ok(Some(v)) => if kv == 1 {
                Ok(Some(v))
            } else {
                Ok(hmul_term(k, kt, v))
            },
        },
    }
}

/// What the rest of a reflected polynomial adds to a sum.
pub open spec fn denote_rest(
    k: K,
    s: Sem,
    m: Mode,
    ctx: Seq<Term>,
    rctx: Term,
    p: Term,
    acc: Term,
    n: nat,
) -> Res<Option<Term>>
    decreases n,
{
    match (s.whnf)(m, ctx, p) {
        Err(f) => Err(f),
        Ok(w) => match poly_form(k, w) {
            PolyForm::Opaque => Ok(None),
            PolyForm::Num(t) => match reduced_int(s, m, ctx, t) {
                Err(f) => Err(f),
                Ok(None) => Ok(None),
                Ok(Some(v)) => if v == 0 {
                    Ok(Some(acc))
                } else {
                    Ok(hadd_term(k, acc, t))
                },
            },
            PolyForm::Plus(kt, vt, rest) => match denote_summand(k, s, m, ctx, rctx, kt, vt) {
                Err(f) => Err(f),
                Ok(None) => Ok(None),
                Ok(Some(x)) => match hadd_term(k, acc, x) {
                    None => Ok(None),
                    Some(acc2) => if n == 0 {
                        Err(Fault::Decline("WHNF step limit"@))
                    } else {
                        denote_rest(k, s, m, ctx, rctx, rest, acc2, (n - 1) as nat)
                    },
                },
            },
        },
    }
}

/// What a reflected polynomial denotes.
#[verifier::opaque]
pub open spec fn denote_poly(k: K, s: Sem, m: Mode, ctx: Seq<Term>, rctx: Term, p: Term) -> Res<
    Option<Term>,
> {
    match (s.whnf)(m, ctx, p) {
        Err(f) => Err(f),
        Ok(w) => match poly_form(k, w) {
            PolyForm::Opaque => Ok(None),
            PolyForm::Num(t) => Ok(Some(t)),
            PolyForm::Plus(kt, vt, rest) => match denote_summand(k, s, m, ctx, rctx, kt, vt) {
                Err(f) => Err(f),
                Ok(None) => Ok(None),
                Ok(Some(x)) => denote_rest(k, s, m, ctx, rctx, rest, x, STEP_LIMIT as nat),
            },
        },
    }
}

/// One argument of a certificate.
pub open spec fn read_input(k: K, s: Sem, m: Mode, ctx: Seq<Term>, kind: Kind, e: Term) -> Res<
    Option<InputT>,
> {
    match kind {
        Kind::Nat => match closed_nat(k, s, m, ctx, e) {
            Err(f) => Err(f),
            Ok(None) => Ok(None),
            Ok(Some(v)) => Ok(Some(InputT::Nat(v))),
        },
        Kind::NatReduced => match reduced_nat(k, s, m, ctx, e) {
            Err(f) => Err(f),
            Ok(None) => Ok(None),
            Ok(Some(v)) => Ok(Some(InputT::Nat(v))),
        },
        Kind::Int => match reduced_int(s, m, ctx, e) {
            Err(f) => Err(f),
            Ok(None) => Ok(None),
            Ok(Some(v)) => Ok(Some(InputT::Int(v))),
        },
        Kind::Poly => match poly_of(k, s, m, ctx, e) {
            Err(f) => Err(f),
            Ok(None) => Ok(None),
            Ok(Some(p)) => Ok(Some(InputT::Poly(p))),
        },
        Kind::Exp => match exp_of(k, s, m, ctx, e) {
            Err(f) => Err(f),
            Ok(None) => Ok(None),
            Ok(Some(p)) => Ok(Some(InputT::Exp(p))),
        },
    }
}

/// The arguments of a certificate from position `i` on, behind those collected.
pub open spec fn read_inputs(
    k: K,
    s: Sem,
    m: Mode,
    ctx: Seq<Term>,
    c: Cert,
    args: Seq<Term>,
    i: nat,
    acc: Seq<InputT>,
) -> Res<Option<Seq<InputT>>>
    decreases cert_arity(c) - i,
{
    if i >= cert_arity(c) {
        Ok(Some(acc))
    } else {
        match read_input(k, s, m, ctx, cert_kind(c, i as int), args[i as int]) {
            Err(f) => Err(f),
            Ok(None) => Ok(None),
            Ok(Some(x)) => read_inputs(k, s, m, ctx, c, args, i + 1, acc.push(x)),
        }
    }
}

/// The arguments of a certificate. Those of the equation between expressions are
/// all read even where one of them cannot be.
pub open spec fn all_inputs(k: K, s: Sem, m: Mode, ctx: Seq<Term>, c: Cert, args: Seq<Term>) -> Res<
    Option<Seq<InputT>>,
> {
    if c == Cert::NormEq {
        match both(
            read_input(k, s, m, ctx, Kind::Exp, args[0]),
            both(
                read_input(k, s, m, ctx, Kind::Exp, args[1]),
                read_input(k, s, m, ctx, Kind::Poly, args[2]),
            ),
        ) {
            Err(f) => Err(f),
            Ok(None) => Ok(None),
            Ok(Some((x, (y, z)))) => Ok(Some(seq![x, y, z])),
        }
    } else {
        read_inputs(k, s, m, ctx, c, args, 0, Seq::empty())
    }
}

/// The result of a certificate on its arguments.
#[verifier::opaque]
pub open spec fn cert_spec(k: K, s: Sem, m: Mode, ctx: Seq<Term>, c: Cert, args: Seq<Term>) -> Res<
    Option<Term>,
> {
    match all_inputs(k, s, m, ctx, c, args) {
        Err(f) => Err(f),
        Ok(None) => Ok(None),
        Ok(Some(ins)) => Ok(bool_term(k, cert_holds(c, ins))),
    }
}

/// A combination of two reflected polynomials.
#[verifier::opaque]
pub open spec fn combine_spec(
    k: K,
    s: Sem,
    m: Mode,
    ctx: Seq<Term>,
    a: int,
    b: int,
    p1: Term,
    p2: Term,
) -> Res<Option<Term>> {
    match poly_of(k, s, m, ctx, p1) {
        Err(f) => Err(f),
        Ok(None) => Ok(None),
        Ok(Some(x)) => match poly_of(k, s, m, ctx, p2) {
            Err(f) => Err(f),
            Ok(None) => Ok(None),
            Ok(Some(y)) => Ok(poly_term(k, lin_combine(a, b, x, y))),
        },
    }
}

/// A combination of two reflected polynomials by given coefficients.
pub open spec fn combine_by_spec(k: K, s: Sem, m: Mode, ctx: Seq<Term>, args: Seq<Term>) -> Res<
    Option<Term>,
> {
    match reduced_int(s, m, ctx, args[0]) {
        Err(f) => Err(f),
        Ok(None) => Ok(None),
        Ok(Some(a)) => match reduced_int(s, m, ctx, args[1]) {
            Err(f) => Err(f),
            Ok(None) => Ok(None),
            Ok(Some(b)) => combine_spec(k, s, m, ctx, a, b, args[2], args[3]),
        },
    }
}

/// Whether linear arithmetic has a say in a constant of the given name.
pub open spec fn linear_concern(name: Seq<char>) -> bool {
    is_infix(name, "Int.Linear"@) || is_infix(name, "RArray"@) || is_named(name, "getElem"@)
        || int_linear_ident(name, "diseq_eq_subst_cert"@) || int_linear_ident(
        name,
        "combine_mul_k"@,
    )
}

/// What a reflection does.
#[derive(Clone, Copy, Debug, PartialEq, Eq, Structural)]
pub enum Reflection {
    /// The element of an array; `true` where a proof follows the index.
    Get(bool),
    DenoteExp,
    DenotePoly,
    DenoteRest,
    CombineBy,
    Combine,
    Certify(Cert),
}

/// What a constant of the given name on `n` arguments does.
#[verifier::opaque]
pub open spec fn reflection(name: Seq<char>, n: nat) -> Option<Reflection> {
    if !linear_concern(name) {
        None
    } else if is_named(name, "get"@) && is_infix(name, "RArray"@) && n >= 2 {
        Some(Reflection::Get(false))
    } else if is_named(name, "getElem"@) && n >= 3 {
        Some(Reflection::Get(true))
    } else if is_named(name, "denote"@) && is_infix(name, "Int.Linear.Var"@) && n >= 2 {
        Some(Reflection::Get(false))
    } else if is_named(name, "denote"@) && is_infix(name, "Int.Linear.Expr"@) && n >= 2 {
        Some(Reflection::DenoteExp)
    } else if is_named(name, "denote'"@) && is_infix(name, "Poly"@) && n >= 2 {
        Some(Reflection::DenotePoly)
    } else if is_named(name, "go"@) && is_infix(name, "denote'"@) && n >= 3 {
        Some(Reflection::DenoteRest)
    } else if is_named(name, "combine_mul_k"@) && n >= 4 {
        Some(Reflection::CombineBy)
    } else if is_named(name, "combine"@) && n >= 2 && is_infix(name, "Poly"@) {
        Some(Reflection::Combine)
    } else {
        match cert_named(name) {
            Some(c) => if n >= cert_arity(c) {
                Some(Reflection::Certify(c))
            } else {
                None
            },
            None => None,
        }
    }
}

/// The reduction of a reflection of linear arithmetic, by its name.
#[verifier::opaque]
pub open spec fn int_linear_spec(
    k: K,
    s: Sem,
    m: Mode,
    ctx: Seq<Term>,
    head: Term,
    args: Seq<Term>,
) -> Res<Option<Term>> {
    let n = args.len();
    match head {
        Term::Const(c, _) => match reflection(name_of(k, c), n) {
            None => Ok(None),
            Some(Reflection::Get(guarded)) => if guarded {
                rarray_spec(k, s, m, ctx, args[n - 3], args[n - 2])
            } else {
                rarray_spec(k, s, m, ctx, args[n - 2], args[n - 1])
            },
            Some(Reflection::DenoteExp) => denote_exp(
                k,
                s,
                m,
                ctx,
                args[n - 2],
                args[n - 1],
                NEST_LIMIT as nat,
            ),
            Some(Reflection::DenotePoly) => denote_poly(k, s, m, ctx, args[n - 2], args[n - 1]),
            Some(Reflection::DenoteRest) => denote_rest(
                k,
                s,
                m,
                ctx,
                args[n - 3],
                args[n - 2],
                args[n - 1],
                STEP_LIMIT as nat,
            ),
            Some(Reflection::CombineBy) => with_rest(combine_by_spec(k, s, m, ctx, args), args, 4),
            Some(Reflection::Combine) => with_rest(
                combine_spec(k, s, m, ctx, 1, 1, args[0], args[1]),
                args,
                2,
            ),
            Some(Reflection::Certify(c)) => with_rest(
                cert_spec(k, s, m, ctx, c, args),
                args,
                cert_arity(c),
            ),
        },
        _ => Ok(None),
    }
}

fn const_at_zeros(n: u32) -> (r: Expr)
    ensures
        r@ == at_zeros(n),
{
    let mut us: Vec<Level> = Vec::new();
    us.push(zero());
    us.push(zero());
    us.push(zero());
    assert(us.deep_view() =~= seq![Univ::Zero, Univ::Zero, Univ::Zero]);
    const_(n, us)
}

fn has_linear_concern(name: &str) -> (r: bool)
    ensures
        r == linear_concern(name@),
{
    str_contains(name, "Int.Linear") || str_contains(name, "RArray") || named(name, "getElem")
        || is_int_linear_ident(name, "diseq_eq_subst_cert") || is_int_linear_ident(
        name,
        "combine_mul_k",
    )
}

fn find_reflection(name: &str, n: usize) -> (r: Option<Reflection>)
    ensures
        r == reflection(name@, n as nat),
{
    proof {
        reveal(reflection);
    }
    if !has_linear_concern(name) {
        return None;
    }
    if named(name, "get") && str_contains(name, "RArray") && n >= 2 {
        return Some(Reflection::Get(false));
    }
    if named(name, "getElem") && n >= 3 {
        return Some(Reflection::Get(true));
    }
    if named(name, "denote") && str_contains(name, "Int.Linear.Var") && n >= 2 {
        return Some(Reflection::Get(false));
    }
    if named(name, "denote") && str_contains(name, "Int.Linear.Expr") && n >= 2 {
        return Some(Reflection::DenoteExp);
    }
    if named(name, "denote'") && str_contains(name, "Poly") && n >= 2 {
        return Some(Reflection::DenotePoly);
    }
    if named(name, "go") && str_contains(name, "denote'") && n >= 3 {
        return Some(Reflection::DenoteRest);
    }
    if named(name, "combine_mul_k") && n >= 4 {
        return Some(Reflection::CombineBy);
    }
    if named(name, "combine") && n >= 2 && str_contains(name, "Poly") {
        return Some(Reflection::Combine);
    }
    match named_cert(name) {
        Some(c) => {
            if n >= arity_of(c) {
                Some(Reflection::Certify(c))
            } else {
                None
            }
        },
        None => None,
    }
}

impl<'e> Checker<'e> {
    fn read_exp_form(&self, e: &Expr) -> (r: ExpForm<Expr>)
        ensures
            r.deep_view() == exp_form(self@, e@),
    {
        let (head, args) = unfold_apps(e);
        assert(args.len() == args.deep_view().len());
        let n: usize = args.len();
        match head.data() {
            ExprData::Const(c, _) => {
                let name = self.name_str(*c);
                if n < 1 {
                    return ExpForm::Opaque;
                }
                if is_int_linear_ident(name, "Expr.num") {
                    return ExpForm::Num(args[n - 1].clone());
                }
                if is_int_linear_ident(name, "Expr.var") {
                    return ExpForm::Var(args[n - 1].clone());
                }
                if is_int_linear_ident(name, "Expr.neg") {
                    return ExpForm::Neg(args[n - 1].clone());
                }
                if n < 2 {
                    return ExpForm::Opaque;
                }
                if is_int_linear_ident(name, "Expr.add") {
                    return ExpForm::Plus(args[n - 2].clone(), args[n - 1].clone());
                }
                if is_int_linear_ident(name, "Expr.sub") {
                    return ExpForm::Minus(args[n - 2].clone(), args[n - 1].clone());
                }
                if is_int_linear_ident(name, "Expr.mulL") {
                    return ExpForm::MulL(args[n - 2].clone(), args[n - 1].clone());
                }
                if is_int_linear_ident(name, "Expr.mulR") {
                    return ExpForm::MulR(args[n - 2].clone(), args[n - 1].clone());
                }
                ExpForm::Opaque
            },
            _ => ExpForm::Opaque,
        }
    }

    fn read_poly_form(&self, e: &Expr) -> (r: PolyForm<Expr>)
        ensures
            r.deep_view() == poly_form(self@, e@),
    {
        let (head, args) = unfold_apps(e);
        assert(args.len() == args.deep_view().len());
        let n: usize = args.len();
        match head.data() {
            ExprData::Const(c, _) => {
                let name = self.name_str(*c);
                if n >= 1 && is_int_linear_ident(name, "Poly.num") {
                    return PolyForm::Num(args[n - 1].clone());
                }
                if n >= 3 && is_int_linear_ident(name, "Poly.add") {
                    return PolyForm::Plus(
                        args[n - 3].clone(),
                        args[n - 2].clone(),
                        args[n - 1].clone(),
                    );
                }
                PolyForm::Opaque
            },
            _ => PolyForm::Opaque,
        }
    }

    /// The value of an integer term, reduced first.
    pub fn reduced_int_value(&self, g: Budget, m: Mode, ctx: &Ctx, e: &Expr) -> (r: R<Option<Integer>>)
        ensures
            res(r) == reduced_int(sem_at(self@, g), m, ctx@, e@),
        decreases g.total(), 1int, 0int,
    {
        let w = self.whnf_at(g, m, ctx, e)?;
        self.closed_int_at(g, m, ctx, &w)
    }

    /// The value of a natural term, reduced first.
    pub fn reduced_nat_value(&self, g: Budget, m: Mode, ctx: &Ctx, e: &Expr) -> (r: R<Option<Natural>>)
        ensures
            res(r) == reduced_nat(self@, sem_at(self@, g), m, ctx@, e@),
        decreases g.total(), 3int, 0int,
    {
        let w = self.whnf_at(g, m, ctx, e)?;
        self.closed_nat_value(g, m, ctx, &w)
    }

    /// The reflected expression that a term is, with at most `n` nested parts.
    pub fn parse_linear_expr(&self, g: Budget, m: Mode, ctx: &Ctx, e: &Expr, n: u32) -> (r: R<
        Option<LinearExpr>,
    >)
        ensures
            res(r) == read_exp(self@, sem_at(self@, g), m, ctx@, e@, n as nat),
        decreases g.total(), 4int, n,
    {
        if n == 0 {
            return decline("reflected expression depth limit");
        }
        let w = self.whnf_at(g, m, ctx, e)?;
        match self.read_exp_form(&w) {
            ExpForm::Opaque => Ok(None),
            ExpForm::Num(t) => match self.reduced_int_value(g, m, ctx, &t)? {
                Some(v) => Ok(Some(LinearExpr::Num(v))),
                None => Ok(None),
            },
            ExpForm::Var(t) => match self.reduced_nat_value(g, m, ctx, &t)? {
                Some(v) => Ok(Some(LinearExpr::Var(v))),
                None => Ok(None),
            },
            ExpForm::Neg(t) => match self.parse_linear_expr(g, m, ctx, &t, n - 1)? {
                Some(a) => Ok(Some(LinearExpr::Neg(Box::new(a)))),
                None => Ok(None),
            },
            ExpForm::Plus(t, u) => match self.parse_linear_expr(g, m, ctx, &t, n - 1)? {
                Some(a) => match self.parse_linear_expr(g, m, ctx, &u, n - 1)? {
                    Some(b) => Ok(Some(LinearExpr::Add(Box::new(a), Box::new(b)))),
                    None => Ok(None),
                },
                None => Ok(None),
            },
            ExpForm::Minus(t, u) => match self.parse_linear_expr(g, m, ctx, &t, n - 1)? {
                Some(a) => match self.parse_linear_expr(g, m, ctx, &u, n - 1)? {
                    Some(b) => Ok(Some(LinearExpr::Sub(Box::new(a), Box::new(b)))),
                    None => Ok(None),
                },
                None => Ok(None),
            },
            ExpForm::MulL(t, u) => match self.reduced_int_value(g, m, ctx, &t)? {
                Some(v) => match self.parse_linear_expr(g, m, ctx, &u, n - 1)? {
                    Some(a) => Ok(Some(LinearExpr::MulL(v, Box::new(a)))),
                    None => Ok(None),
                },
                None => Ok(None),
            },
            ExpForm::MulR(t, u) => match self.parse_linear_expr(g, m, ctx, &t, n - 1)? {
                Some(a) => match self.reduced_int_value(g, m, ctx, &u)? {
                    Some(v) => Ok(Some(LinearExpr::MulR(Box::new(a), v))),
                    None => Ok(None),
                },
                None => Ok(None),
            },
        }
    }

    /// The reflected polynomial that a term is, with at most `n` summands.
    pub fn parse_linear_poly(&self, g: Budget, m: Mode, ctx: &Ctx, e: &Expr, n: u32) -> (r: R<
        Option<LinearPoly>,
    >)
        ensures
            res(r) == read_poly(self@, sem_at(self@, g), m, ctx@, e@, n as nat),
        decreases g.total(), 4int, n,
    {
        if n == 0 {
            return decline("reflected polynomial depth limit");
        }
        let w = self.whnf_at(g, m, ctx, e)?;
        match self.read_poly_form(&w) {
            PolyForm::Opaque => Ok(None),
            PolyForm::Num(t) => match self.reduced_int_value(g, m, ctx, &t)? {
                Some(v) => Ok(Some(LinearPoly::Num(v))),
                None => Ok(None),
            },
            PolyForm::Plus(kt, vt, p) => {
                let kw = self.whnf_at(g, m, ctx, &kt)?;
                let vw = self.whnf_at(g, m, ctx, &vt)?;
                let kv = match self.closed_int_at(g, m, ctx, &kw)? {
                    Some(v) => v,
                    None => {
                        return Ok(None);
                    },
                };
                let vv = match self.closed_nat_value(g, m, ctx, &vw)? {
                    Some(v) => v,
                    None => {
                        return Ok(None);
                    },
                };
                match self.parse_linear_poly(g, m, ctx, &p, n - 1)? {
                    Some(q) => Ok(Some(LinearPoly::Add(kv, vv, Box::new(q)))),
                    None => Ok(None),
                }
            },
        }
    }

    /// The constant of linear arithmetic with the given name.
    pub fn find_int_linear_ident(&self, text: &str) -> (r: Option<u32>)
        ensures
            r == linear_name(self@, text@),
    {
        let mut i: usize = 0;
        let ghost names = self@.names;
        while i < self.names.len()
            invariant
                i <= self.names.len(),
                names == self@.names,
                linear_name_from(names, text@, i as nat) == linear_name_from(names, text@, 0),
            decreases self.names.len() - i,
        {
            if i as u64 > u32::MAX as u64 {
                return None;
            }
            assert(names[i as int] == (*self.names@[i as int])@);
            if is_int_linear_ident(self.names[i].as_str(), text) {
                return Some(i as u32);
            }
            i = i + 1;
        }
        None
    }

    /// A polynomial as a term.
    pub fn mk_linear_poly(&self, p: &LinearPoly) -> (r: Option<Expr>)
        ensures
            r.deep_view() == poly_term(self@, p@),
        decreases p,
    {
        match p {
            LinearPoly::Num(c) => {
                let f = self.find_int_linear_ident("Poly.num")?;
                let t = self.mk_int_canonical(c)?;
                Some(app(plain_const(f), t))
            },
            LinearPoly::Add(c, v, rest) => {
                let f = self.find_int_linear_ident("Poly.add")?;
                let t = self.mk_int_canonical(c)?;
                let q = self.mk_linear_poly(rest)?;
                Some(mk_app3(plain_const(f), t, lit_nat(v.clone()), q))
            },
        }
    }

    /// An overloaded operation between integers.
    pub fn mk_hbinop(&self, method: &str, inst_h: &str, inst_int: &str, a: Expr, b: Expr) -> (r:
        Option<Expr>)
        ensures
            r.deep_view() == hbin_term(self@, method@, inst_h@, inst_int@, a@, b@),
    {
        let f = self.find_name(method)?;
        let ty = self.find_name_ending("Int")?;
        let h = self.find_name(inst_h)?;
        let i = self.find_name(inst_int)?;
        let t = plain_const(ty);
        let inst = mk_app2(const_at_zero(h), t.clone(), plain_const(i));
        Some(mk_app3(mk_app3(const_at_zeros(f), t.clone(), t.clone(), t), inst, a, b))
    }

    /// A sum of integers.
    pub fn mk_hadd(&self, a: Expr, b: Expr) -> (r: Option<Expr>)
        ensures
            r.deep_view() == hadd_term(self@, a@, b@),
    {
        self.mk_hbinop("HAdd.hAdd", "instHAdd", "Int.instAdd", a, b)
    }

    /// A difference of integers.
    pub fn mk_hsub(&self, a: Expr, b: Expr) -> (r: Option<Expr>)
        ensures
            r.deep_view() == hsub_term(self@, a@, b@),
    {
        self.mk_hbinop("HSub.hSub", "instHSub", "Int.instSub", a, b)
    }

    /// A product of integers.
    pub fn mk_hmul(&self, a: Expr, b: Expr) -> (r: Option<Expr>)
        ensures
            r.deep_view() == hmul_term(self@, a@, b@),
    {
        self.mk_hbinop("HMul.hMul", "instHMul", "Int.instMul", a, b)
    }

    /// The negative of an integer.
    pub fn mk_hneg(&self, a: Expr) -> (r: Option<Expr>)
        ensures
            r.deep_view() == hneg_term(self@, a@),
    {
        let f = self.find_name("Neg.neg")?;
        let ty = self.find_name_ending("Int")?;
        let i = match self.find_name("Int.instNegInt") {
            Some(i) => i,
            None => self.find_name_ending("instNegInt")?,
        };
        Some(mk_app3(const_at_zero(f), plain_const(ty), plain_const(i), a))
    }

    fn tree_get_at(&self, g: Budget, m: Mode, ctx: &Ctx, t: &Expr, i: &Natural) -> (r: R<Option<Expr>>)
        ensures
            res(r) == tree_get(
                self@,
                sem_at(self@, g),
                m,
                ctx@,
                t@,
                i@,
                STEP_LIMIT as nat,
            ),
        decreases g.total(), 3int, 0int,
    {
        let ghost s = sem_at(self@, g);
        let mut cur = t.clone();
        let mut left: u32 = STEP_LIMIT;
        loop
            invariant
                left <= STEP_LIMIT,
                s == sem_at(self@, g),
                tree_get(self@, s, m, ctx@, cur@, i@, left as nat) == tree_get(
                    self@,
                    s,
                    m,
                    ctx@,
                    t@,
                    i@,
                    STEP_LIMIT as nat,
                ),
            decreases left,
        {
            let (head, args) = unfold_apps(&cur);
            assert(args.len() == args.deep_view().len());
            let n: usize = args.len();
            let name = match head.data() {
                ExprData::Const(c, _) => self.name_str(*c),
                _ => {
                    return Ok(None);
                },
            };
            if named(name, "leaf") && n >= 1 {
                return Ok(Some(args[n - 1].clone()));
            }
            if !(named(name, "branch") && n >= 3) {
                return Ok(None);
            }
            let p = match self.closed_nat_value(g, m, ctx, &args[n - 3])? {
                Some(p) => p,
                None => {
                    return Ok(None);
                },
            };
            let w = if i.less(&p) {
                self.whnf_at(g, m, ctx, &args[n - 2])?
            } else {
                self.whnf_at(g, m, ctx, &args[n - 1])?
            };
            if left == 0 {
                return decline("WHNF step limit");
            }
            cur = w;
            left = left - 1;
        }
    }

    /// The element of a tree array at a closed index.
    pub fn rarray_get(&self, g: Budget, m: Mode, ctx: &Ctx, arr: &Expr, idx: &Expr) -> (r: R<
        Option<Expr>,
    >)
        ensures
            res(r) == rarray_spec(self@, sem_at(self@, g), m, ctx@, arr@, idx@),
        decreases g.total(), 4int, 0int,
    {
        proof {
            reveal(rarray_spec);
        }
        match self.closed_nat_value(g, m, ctx, idx)? {
            None => Ok(None),
            Some(i) => {
                let w = self.whnf_at(g, m, ctx, arr)?;
                self.tree_get_at(g, m, ctx, &w, &i)
            },
        }
    }

    /// What a reflected expression denotes, with at most `n` nested parts.
    pub fn linear_expr_denote(&self, g: Budget, m: Mode, ctx: &Ctx, rctx: &Expr, e: &Expr, n: u32) -> (r:
        R<Option<Expr>>)
        ensures
            res(r) == denote_exp(self@, sem_at(self@, g), m, ctx@, rctx@, e@, n as nat),
        decreases g.total(), 5int, n,
    {
        if n == 0 {
            return decline("reflected expression depth limit");
        }
        let w = self.whnf_at(g, m, ctx, e)?;
        match self.read_exp_form(&w) {
            ExpForm::Opaque => Ok(None),
            ExpForm::Num(t) => Ok(Some(t)),
            ExpForm::Var(t) => self.rarray_get(g, m, ctx, rctx, &t),
            ExpForm::Neg(t) => match self.linear_expr_denote(g, m, ctx, rctx, &t, n - 1)? {
                Some(a) => Ok(self.mk_hneg(a)),
                None => Ok(None),
            },
            ExpForm::Plus(t, u) => match self.linear_expr_denote(g, m, ctx, rctx, &t, n - 1)? {
                Some(a) => match self.linear_expr_denote(g, m, ctx, rctx, &u, n - 1)? {
                    Some(b) => Ok(self.mk_hadd(a, b)),
                    None => Ok(None),
                },
                None => Ok(None),
            },
            ExpForm::Minus(t, u) => match self.linear_expr_denote(g, m, ctx, rctx, &t, n - 1)? {
                Some(a) => match self.linear_expr_denote(g, m, ctx, rctx, &u, n - 1)? {
                    Some(b) => Ok(self.mk_hsub(a, b)),
                    None => Ok(None),
                },
                None => Ok(None),
            },
            ExpForm::MulL(t, u) => match self.linear_expr_denote(g, m, ctx, rctx, &u, n - 1)? {
                Some(a) => Ok(self.mk_hmul(t, a)),
                None => Ok(None),
            },
            ExpForm::MulR(t, u) => match self.linear_expr_denote(g, m, ctx, rctx, &t, n - 1)? {
                Some(a) => Ok(self.mk_hmul(a, u)),
                None => Ok(None),
            },
        }
    }

    fn summand_denote(&self, g: Budget, m: Mode, ctx: &Ctx, rctx: &Expr, kt: &Expr, vt: &Expr) -> (r:
        R<Option<Expr>>)
        ensures
            res(r) == denote_summand(
                self@,
                sem_at(self@, g),
                m,
                ctx@,
                rctx@,
                kt@,
                vt@,
            ),
        decreases g.total(), 5int, 0int,
    {
        proof {
            reveal(denote_summand);
        }
        let kv = match self.reduced_int_value(g, m, ctx, kt)? {
            Some(v) => v,
            None => {
                return Ok(None);
            },
        };
        match self.rarray_get(g, m, ctx, rctx, vt)? {
            None => Ok(None),
            Some(v) => {
                if kv.same(&Integer::from_i64(1)) {
                    Ok(Some(v))
                } else {
                    Ok(self.mk_hmul(kt.clone(), v))
                }
            },
        }
    }

    /// What the rest of a reflected polynomial adds to a sum.
    pub fn linear_poly_denote_go(
        &self,
        g: Budget,
        m: Mode,
        ctx: &Ctx,
        rctx: &Expr,
        p: &Expr,
        acc: Expr,
    ) -> (r: R<Option<Expr>>)
        ensures
            res(r) == denote_rest(
                self@,
                sem_at(self@, g),
                m,
                ctx@,
                rctx@,
                p@,
                acc@,
                STEP_LIMIT as nat,
            ),
        decreases g.total(), 6int, 0int,
    {
        let ghost s = sem_at(self@, g);
        let mut cur = p.clone();
        let mut sum = acc;
        let mut left: u32 = STEP_LIMIT;
        loop
            invariant
                left <= STEP_LIMIT,
                s == sem_at(self@, g),
                denote_rest(self@, s, m, ctx@, rctx@, cur@, sum@, left as nat) == denote_rest(
                    self@,
                    s,
                    m,
                    ctx@,
                    rctx@,
                    p@,
                    acc@,
                    STEP_LIMIT as nat,
                ),
            decreases left,
        {
            let w = self.whnf_at(g, m, ctx, &cur)?;
            match self.read_poly_form(&w) {
                PolyForm::Opaque => {
                    return Ok(None);
                },
                PolyForm::Num(t) => {
                    return match self.reduced_int_value(g, m, ctx, &t)? {
                        None => Ok(None),
                        Some(v) => {
                            if v.is_zero() {
                                Ok(Some(sum))
                            } else {
                                Ok(self.mk_hadd(sum, t))
                            }
                        },
                    };
                },
                PolyForm::Plus(kt, vt, rest) => {
                    let x = match self.summand_denote(g, m, ctx, rctx, &kt, &vt)? {
                        Some(x) => x,
                        None => {
                            return Ok(None);
                        },
                    };
                    match self.mk_hadd(sum.clone(), x) {
                        None => {
                            return Ok(None);
                        },
                        Some(sum2) => {
                            if left == 0 {
                                return decline("WHNF step limit");
                            }
                            sum = sum2;
                            cur = rest;
                            left = left - 1;
                        },
                    }
                },
            }
        }
    }

    /// What a reflected polynomial denotes.
    pub fn linear_poly_denote_prime(&self, g: Budget, m: Mode, ctx: &Ctx, rctx: &Expr, p: &Expr) -> (r:
        R<Option<Expr>>)
        ensures
            res(r) == denote_poly(self@, sem_at(self@, g), m, ctx@, rctx@, p@),
        decreases g.total(), 7int, 0int,
    {
        proof {
            reveal(denote_poly);
        }
        let w = self.whnf_at(g, m, ctx, p)?;
        match self.read_poly_form(&w) {
            PolyForm::Opaque => Ok(None),
            PolyForm::Num(t) => Ok(Some(t)),
            PolyForm::Plus(kt, vt, rest) => match self.summand_denote(
                g,
                m,
                ctx,
                rctx,
                &kt,
                &vt,
            )? {
                None => Ok(None),
                Some(x) => self.linear_poly_denote_go(g, m, ctx, rctx, &rest, x),
            },
        }
    }

    fn read_cert_input(&self, g: Budget, m: Mode, ctx: &Ctx, kind: Kind, e: &Expr) -> (r: R<
        Option<Input>,
    >)
        ensures
            res(r) == read_input(self@, sem_at(self@, g), m, ctx@, kind, e@),
            r matches Ok(Some(x)) ==> input_fits(kind, x.deep_view()),
        decreases g.total(), 5int, 0int,
    {
        match kind {
            Kind::Nat => match self.closed_nat_value(g, m, ctx, e)? {
                Some(v) => Ok(Some(Input::Nat(v))),
                None => Ok(None),
            },
            Kind::NatReduced => match self.reduced_nat_value(g, m, ctx, e)? {
                Some(v) => Ok(Some(Input::Nat(v))),
                None => Ok(None),
            },
            Kind::Int => match self.reduced_int_value(g, m, ctx, e)? {
                Some(v) => Ok(Some(Input::Int(v))),
                None => Ok(None),
            },
            Kind::Poly => match self.parse_linear_poly(g, m, ctx, e, NEST_LIMIT)? {
                Some(p) => Ok(Some(Input::Poly(p))),
                None => Ok(None),
            },
            Kind::Exp => match self.parse_linear_expr(g, m, ctx, e, NEST_LIMIT)? {
                Some(p) => Ok(Some(Input::Exp(p))),
                None => Ok(None),
            },
        }
    }

    fn read_cert_inputs(&self, g: Budget, m: Mode, ctx: &Ctx, c: Cert, args: &Vec<Expr>) -> (r: R<
        Option<Vec<Input>>,
    >)
        requires
            args.len() >= cert_arity(c),
        ensures
            res(r) == read_inputs(
                self@,
                sem_at(self@, g),
                m,
                ctx@,
                c,
                args.deep_view(),
                0,
                Seq::empty(),
            ),
            r matches Ok(Some(ins)) ==> ins.len() == cert_arity(c) && forall|j: int|
                0 <= j < ins.len() ==> input_fits(cert_kind(c, j), #[trigger] ins.deep_view()[j]),
        decreases g.total(), 6int, 0int,
    {
        let ghost s = sem_at(self@, g);
        let ghost av = args.deep_view();
        let n: usize = arity_of(c);
        let mut ins: Vec<Input> = Vec::new();
        let mut i: usize = 0;
        assert(ins.deep_view() =~= Seq::<InputT>::empty());
        while i < n
            invariant
                i <= n,
                n as nat == cert_arity(c),
                n <= args.len(),
                ins.len() == i,
                av == args.deep_view(),
                s == sem_at(self@, g),
                forall|j: int|
                    0 <= j < i ==> input_fits(cert_kind(c, j), #[trigger] ins.deep_view()[j]),
                read_inputs(self@, s, m, ctx@, c, av, i as nat, ins.deep_view()) == read_inputs(
                    self@,
                    s,
                    m,
                    ctx@,
                    c,
                    av,
                    0,
                    Seq::empty(),
                ),
            decreases n - i,
        {
            match self.read_cert_input(g, m, ctx, kind_at(c, i), &args[i])? {
                None => {
                    return Ok(None);
                },
                Some(x) => {
                    let ghost before = ins.deep_view();
                    let ghost xv = x.deep_view();
                    ins.push(x);
                    assert(ins.deep_view() =~= before.push(xv));
                },
            }
            i = i + 1;
        }
        Ok(Some(ins))
    }

    fn read_equation(&self, g: Budget, m: Mode, ctx: &Ctx, args: &Vec<Expr>) -> (r: R<
        Option<Vec<Input>>,
    >)
        requires
            args.len() >= 3,
        ensures
            res(r) == all_inputs(
                self@,
                sem_at(self@, g),
                m,
                ctx@,
                Cert::NormEq,
                args.deep_view(),
            ),
            r matches Ok(Some(ins)) ==> ins.len() == 3 && forall|j: int|
                0 <= j < ins.len() ==> input_fits(
                    cert_kind(Cert::NormEq, j),
                    #[trigger] ins.deep_view()[j],
                ),
        decreases g.total(), 6int, 0int,
    {
        let x = self.read_cert_input(g, m, ctx, Kind::Exp, &args[0])?;
        let y = self.read_cert_input(g, m, ctx, Kind::Exp, &args[1])?;
        let z = self.read_cert_input(g, m, ctx, Kind::Poly, &args[2])?;
        match (x, y, z) {
            (Some(a), Some(b), Some(c)) => {
                let ghost want = seq![a.deep_view(), b.deep_view(), c.deep_view()];
                let ins = vec![a, b, c];
                assert(ins.deep_view() =~= want);
                Ok(Some(ins))
            },
            _ => Ok(None),
        }
    }

    fn cert_result(&self, g: Budget, m: Mode, ctx: &Ctx, c: Cert, args: &Vec<Expr>) -> (r: R<
        Option<Expr>,
    >)
        requires
            args.len() >= cert_arity(c),
        ensures
            res(r) == cert_spec(self@, sem_at(self@, g), m, ctx@, c, args.deep_view()),
        decreases g.total(), 7int, 0int,
    {
        proof {
            reveal(cert_spec);
        }
        let found = match c {
            Cert::NormEq => self.read_equation(g, m, ctx, args)?,
            _ => self.read_cert_inputs(g, m, ctx, c, args)?,
        };
        match found {
            Some(ins) => Ok(self.mk_bool_const(check_cert(c, &ins))),
            None => Ok(None),
        }
    }

    fn combine_polys(
        &self,
        g: Budget,
        m: Mode,
        ctx: &Ctx,
        a: &Integer,
        b: &Integer,
        p1: &Expr,
        p2: &Expr,
    ) -> (r: R<Option<Expr>>)
        ensures
            res(r) == combine_spec(
                self@,
                sem_at(self@, g),
                m,
                ctx@,
                a@,
                b@,
                p1@,
                p2@,
            ),
        decreases g.total(), 5int, 0int,
    {
        proof {
            reveal(combine_spec);
        }
        let x = match self.parse_linear_poly(g, m, ctx, p1, NEST_LIMIT)? {
            Some(p) => p,
            None => {
                return Ok(None);
            },
        };
        match self.parse_linear_poly(g, m, ctx, p2, NEST_LIMIT)? {
            Some(y) => Ok(self.mk_linear_poly(&LinearPoly::combine_mul_k(a, b, &x, &y))),
            None => Ok(None),
        }
    }

    fn combine_by(&self, g: Budget, m: Mode, ctx: &Ctx, args: &Vec<Expr>) -> (r: R<Option<Expr>>)
        requires
            args.len() >= 4,
        ensures
            res(r) == combine_by_spec(
                self@,
                sem_at(self@, g),
                m,
                ctx@,
                args.deep_view(),
            ),
        decreases g.total(), 6int, 0int,
    {
        let a = match self.reduced_int_value(g, m, ctx, &args[0])? {
            Some(v) => v,
            None => {
                return Ok(None);
            },
        };
        match self.reduced_int_value(g, m, ctx, &args[1])? {
            Some(b) => self.combine_polys(g, m, ctx, &a, &b, &args[2], &args[3]),
            None => Ok(None),
        }
    }

    /// The reduction of a reflection of linear arithmetic, by its name.
    pub fn try_int_linear(&self, g: Budget, m: Mode, ctx: &Ctx, head: &Expr, args: &Vec<Expr>) -> (r:
        R<Option<Expr>>)
        ensures
            res(r) == int_linear_spec(
                self@,
                sem_at(self@, g),
                m,
                ctx@,
                head@,
                args.deep_view(),
            ),
        decreases g.total(), 8int, 0int,
    {
        proof {
            reveal(int_linear_spec);
            reveal(reflection);
        }
        let ghost av = args.deep_view();
        let n: usize = args.len();
        assert(n == av.len());
        let what = match head.data() {
            ExprData::Const(c, _) => match find_reflection(self.name_str(*c), n) {
                Some(w) => w,
                None => {
                    return Ok(None);
                },
            },
            _ => {
                return Ok(None);
            },
        };
        match what {
            Reflection::Get(guarded) => {
                if guarded {
                    self.rarray_get(g, m, ctx, &args[n - 3], &args[n - 2])
                } else {
                    self.rarray_get(g, m, ctx, &args[n - 2], &args[n - 1])
                }
            },
            Reflection::DenoteExp => self.linear_expr_denote(
                g,
                m,
                ctx,
                &args[n - 2],
                &args[n - 1],
                NEST_LIMIT,
            ),
            Reflection::DenotePoly => self.linear_poly_denote_prime(
                g,
                m,
                ctx,
                &args[n - 2],
                &args[n - 1],
            ),
            Reflection::DenoteRest => self.linear_poly_denote_go(
                g,
                m,
                ctx,
                &args[n - 3],
                &args[n - 2],
                args[n - 1].clone(),
            ),
            Reflection::CombineBy => match self.combine_by(g, m, ctx, args)? {
                Some(t) => Ok(Some(apps_from(t, args, 4))),
                None => Ok(None),
            },
            Reflection::Combine => {
                let one = Integer::from_i64(1);
                match self.combine_polys(g, m, ctx, &one, &one, &args[0], &args[1])? {
                    Some(t) => Ok(Some(apps_from(t, args, 2))),
                    None => Ok(None),
                }
            },
            Reflection::Certify(c) => match self.cert_result(g, m, ctx, c, args)? {
                Some(t) => Ok(Some(apps_from(t, args, arity_of(c)))),
                None => Ok(None),
            },
        }
    }
}

} // verus!
