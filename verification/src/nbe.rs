//! Conversion and inference by evaluation.

use crate::conv::defeq_eager;
use crate::ctx::Ctx;
use crate::env::{find, ConstantInfo, Info, RecRule};
use crate::errors::{decline, other, reject, res, Fault, TcError, R};
use crate::expr::{
    app, bvar, const_shared, exprs_between, instantiate1, instantiate_level_params, lam, lit, lit_same, pi,
    plug1, proj, sort, subst_params, BinderInfo, Expr, ExprData, Lit, LitT, Term,
};
use crate::infer::{infer_eager, infer_proj_spec, proj_structure};
use crate::iota::{
    ctor_type, has_id, iota_rhs, major_at, minor_index, takes_ctor, CtorApp, CtorAppT, RecArgs,
    RecArgsT, RecShape, LITERAL_BITS,
};
use crate::judge::sem_at;
use crate::kernel::{eager_mode, keep_major_mode, Budget, Checker, K, Mode, Res, Sem};
use crate::level::{imax, is_def_eq, levels_def_eq, succ, univ_eq, univs_eq, zero, Level, Univ};
use crate::lookup::{
    eager_unfolds, infer_const_spec, nat_ctors_spec, nat_type_spec, string_type_spec,
    unfold_delta_spec, unfolds_thm_major,
};
use crate::num::Natural;
use crate::reduce::{ensure_pi_spec, whnf_major_spec};
use crate::report::value_argument_text;
use crate::value::{Neu, Neutral, Thk, Thunk, VEnv, Val, Value};
use std::rc::Rc;
use vstd::arithmetic::power2::pow2;
use vstd::prelude::*;

verus! {

/// The number of binders that a scope is reckoned to have.
pub open spec fn depth_of(n: nat) -> u32 {
    (n % 0x1_0000_0000) as u32
}

/// A variable that stands for itself.
pub open spec fn fresh(level: u32) -> Thk {
    Thk::Forced(Box::new(Val::Neutral(Neu::Var(level))))
}

/// The environment in which each variable stands for itself.
pub open spec fn env_vars(n: nat) -> Seq<Thk> {
    Seq::new(n, |i: int| fresh(depth_of(i as nat)))
}

/// A scope of which only the number of binders is known.
pub open spec fn dummy_scope(depth: u32) -> Seq<Term> {
    Seq::new(depth as nat, |i: int| Term::Sort(Univ::Zero))
}

/// The types of a scope as values.
pub open spec fn scope_types(ctx: Seq<Term>) -> Seq<Thk> {
    Seq::new(ctx.len(), |i: int| Thk::Deferred(env_vars(i as nat), ctx[i]))
}

/// The value of a thunk.
pub open spec fn force(s: Sem, m: Mode, t: Thk) -> Res<Val> {
    match t {
        Thk::Deferred(env, e) => (s.eval)(m, env, e),
        Thk::Forced(v) => Ok(*v),
    }
}

/// What a neutral value applies.
pub open spec fn neu_head(n: Neu) -> Neu
    decreases n,
{
    match n {
        Neu::App(f, _) => neu_head(*f),
        _ => n,
    }
}

/// What a neutral value is applied to.
pub open spec fn neu_args(n: Neu) -> Seq<Thk>
    decreases n,
{
    match n {
        Neu::App(f, a) => neu_args(*f).push(*a),
        _ => Seq::empty(),
    }
}

/// The number of parts of a neutral value.
pub open spec fn neu_size(n: Neu) -> nat
    decreases n,
{
    match n {
        Neu::App(f, _) => 1 + neu_size(*f),
        Neu::Proj(_, _, v) => 1 + neu_size(*v),
        _ => 1,
    }
}

/// The value of a constant.
pub open spec fn eval_const_spec(k: K, s: Sem, m: Mode, n: u32, us: Seq<Univ>) -> Res<Val> {
    let unfolded = if eager_unfolds(k, n) {
        unfold_delta_spec(k, n, us, true)
    } else {
        None
    };
    match unfolded {
        Some(body) => (s.eval)(m, Seq::empty(), body),
        None => Ok(Val::Neutral(Neu::Const(n, us))),
    }
}

/// The field that a projection selects from a value that shows its constructor.
pub open spec fn shown_field(k: K, sname: u32, idx: u32, n: Neu) -> Option<Thk> {
    match neu_head(n) {
        Neu::Const(c, _) => match find(k.env, c) {
            Some(Info::Constructor { num_params, induct, .. }) => if induct == sname && num_params
                + idx < neu_args(n).len() {
                Some(neu_args(n)[num_params + idx])
            } else {
                None
            },
            _ => None,
        },
        _ => None,
    }
}

/// The value of a projection.
pub open spec fn eval_proj_spec(k: K, s: Sem, m: Mode, sname: u32, idx: u32, v: Val) -> Res<Val> {
    match v {
        Val::Neutral(n) => match shown_field(k, sname, idx, n) {
            Some(t) => force(s, m, t),
            None => Ok(Val::Neutral(Neu::Proj(sname, idx, Box::new(n)))),
        },
        _ => Err(Fault::Decline("nbe: proj of a non-structure value"@)),
    }
}

/// Thunks as terms, from position `i` on, behind those collected.
pub open spec fn quote_from(s: Sem, m: Mode, depth: u32, ts: Seq<Thk>, i: nat, acc: Seq<Term>) -> Res<
    Seq<Term>,
>
    decreases ts.len() - i,
{
    if i >= ts.len() {
        Ok(acc)
    } else {
        match force(s, m, ts[i as int]) {
            Err(f) => Err(f),
            Ok(v) => match (s.quote)(m, depth, v) {
                Err(f) => Err(f),
                Ok(t) => quote_from(s, m, depth, ts, i + 1, acc.push(t)),
            },
        }
    }
}

/// Thunks as terms.
pub open spec fn quote_all_spec(s: Sem, m: Mode, depth: u32, ts: Seq<Thk>) -> Res<Seq<Term>> {
    quote_from(s, m, depth, ts, 0, Seq::empty())
}

/// Whether a value shows a constructor or a natural literal.
pub open spec fn ctor_value(k: K, v: Val) -> bool {
    match v {
        Val::Lit(LitT::Nat(_)) => true,
        Val::Neutral(n) => match neu_head(n) {
            Neu::Const(c, _) => find(k.env, c) matches Some(Info::Constructor { .. }),
            _ => false,
        },
        _ => false,
    }
}

/// A constructor applied to thunks: the constructor, the number of its
/// parameters, the arguments, and the levels where they are known.
pub struct CtorVal {
    pub ctor: u32,
    pub num_params: u32,
    pub args: Seq<Thk>,
    pub levels: Option<Seq<Univ>>,
}

/// A major premise as a constructor applied to all its arguments, as thunks, where
/// it shows one.
pub open spec fn value_ctor(k: K, all: Seq<u32>, ctors: Seq<u32>, v: Val) -> Option<CtorVal> {
    match v {
        Val::Lit(LitT::Nat(n)) => match nat_ctors_spec(k) {
            None => None,
            Some((zero, succ)) => if !takes_ctor(all, ctors, zero, ctor_type(k, zero)) {
                None
            } else if n == 0 {
                Some(CtorVal { ctor: zero, num_params: 0, args: Seq::empty(), levels: None })
            } else if n >= pow2(LITERAL_BITS as nat) {
                None
            } else {
                Some(
                    CtorVal {
                        ctor: succ,
                        num_params: 0,
                        args: seq![
                            Thk::Forced(Box::new(Val::Lit(LitT::Nat((n - 1) as nat)))),
                        ],
                        levels: None,
                    },
                )
            },
        },
        Val::Neutral(n) => match neu_head(n) {
            Neu::Const(c, us) => match find(k.env, c) {
                Some(Info::Constructor { induct, num_params, num_fields, .. }) => if takes_ctor(
                    all,
                    ctors,
                    c,
                    Some(induct),
                ) && neu_args(n).len() == num_params + num_fields {
                    Some(CtorVal { ctor: c, num_params, args: neu_args(n), levels: Some(us) })
                } else {
                    None
                },
                _ => None,
            },
            _ => None,
        },
        _ => None,
    }
}

/// The major premise of a recursor as a value: a theorem that stands in the way
/// of a recursive proposition's constructor is unfolded.
#[verifier::opaque]
pub open spec fn major_value(k: K, s: Sem, m: Mode, rname: u32, t: Thk, depth: u32) -> Res<Val> {
    match force(s, m, t) {
        Err(f) => Err(f),
        Ok(v) => if unfolds_thm_major(k.env, rname) && !ctor_value(k, v) {
            match (s.quote)(m, depth, v) {
                Err(f) => Err(f),
                Ok(q) => match whnf_major_spec(k, s, m, dummy_scope(depth), q, rname) {
                    Err(f) => Err(f),
                    Ok(w) => (s.eval)(m, env_vars(depth as nat), w),
                },
            }
        } else {
            Ok(v)
        },
    }
}

/// What the reduction of a recursor applied to thunks needs as terms.
pub struct QuotedRec {
    pub ra: RecArgsT,
    pub c: CtorAppT,
}

/// The arguments of a recursor and of the constructor it is on, as terms.
#[verifier::opaque]
pub open spec fn quote_rec(
    s: Sem,
    m: Mode,
    depth: u32,
    rname: u32,
    us: Seq<Univ>,
    all: Seq<u32>,
    sh: RecShape,
    args: Seq<Thk>,
    c: CtorVal,
) -> Res<QuotedRec> {
    let p1 = sh.num_params as int;
    let p2 = p1 + sh.num_motives;
    let p3 = p2 + sh.num_minors;
    let cp = c.num_params as int;
    match quote_all_spec(s, m, depth, args.subrange(0, p1)) {
        Err(f) => Err(f),
        Ok(params) => match quote_all_spec(s, m, depth, c.args.subrange(0, cp)) {
            Err(f) => Err(f),
            Ok(cparams) => match quote_all_spec(s, m, depth, args.subrange(p1, p2)) {
                Err(f) => Err(f),
                Ok(motives) => match quote_all_spec(s, m, depth, args.subrange(p2, p3)) {
                    Err(f) => Err(f),
                    Ok(minors) => match quote_all_spec(
                        s,
                        m,
                        depth,
                        c.args.subrange(cp, c.args.len() as int),
                    ) {
                        Err(f) => Err(f),
                        Ok(fields) => Ok(
                            QuotedRec {
                                ra: RecArgsT { rname, us, all, params, motives, minors },
                                c: CtorAppT {
                                    ctor: c.ctor,
                                    num_params: c.num_params,
                                    args: cparams + fields,
                                    levels: c.levels,
                                },
                            },
                        ),
                    },
                },
            },
        },
    }
}

/// The reduction of a recursor that has exactly its arguments, on the
/// constructor application that its major premise is.
#[verifier::opaque]
pub open spec fn iota_value_on(k: K, s: Sem, m: Mode, depth: u32, q: QuotedRec) -> Res<Option<Val>> {
    let i = minor_index(
        k,
        q.ra.rname,
        q.ra.us,
        q.ra.params,
        q.c.ctor,
        q.c.args.take(q.c.num_params as int),
        q.ra.all,
    );
    if i >= q.ra.minors.len() {
        Ok(None)
    } else {
        match iota_rhs(k, s, m, dummy_scope(depth), q.ra, q.c, q.ra.minors[i as int]) {
            Err(f) => Err(f),
            Ok(rhs) => match (s.eval)(m, env_vars(depth as nat), rhs) {
                Err(f) => Err(f),
                Ok(v) => Ok(Some(v)),
            },
        }
    }
}

/// The reduction of a recursor applied to thunks.
#[verifier::opaque]
pub open spec fn iota_value_spec(k: K, s: Sem, m: Mode, spine: Neu, depth: u32) -> Res<Option<Val>> {
    match neu_head(spine) {
        Neu::Const(rname, us) => match find(k.env, rname) {
            Some(
                Info::Recursor {
                    all,
                    num_params,
                    num_motives,
                    num_minors,
                    num_indices,
                    ctors,
                    ..
                },
            ) => {
                let sh = RecShape { num_params, num_motives, num_minors, num_indices };
                let args = neu_args(spine);
                if args.len() != major_at(sh) + 1 {
                    Ok(None)
                } else if m.keep_prop_major && unfolds_thm_major(k.env, rname) {
                    Ok(None)
                } else {
                    match major_value(k, s, m, rname, args[major_at(sh)], depth) {
                        Err(f) => Err(f),
                        Ok(v) => match value_ctor(k, all, ctors, v) {
                            None => Ok(None),
                            Some(c) => if c.args.len() < c.num_params {
                                Ok(None)
                            } else {
                                match quote_rec(s, m, depth, rname, us, all, sh, args, c) {
                                    Err(f) => Err(f),
                                    Ok(q) => iota_value_on(k, s, m, depth, q),
                                }
                            },
                        },
                    }
                }
            },
            _ => Ok(None),
        },
        _ => Ok(None),
    }
}

/// A value applied to a thunk.
#[verifier::opaque]
pub open spec fn apply_spec(k: K, s: Sem, m: Mode, vf: Val, arg: Thk, depth: u32) -> Res<Val> {
    match vf {
        Val::Lam(_, _, env, body) => (s.eval)(m, env.push(arg), body),
        Val::Neutral(n) => {
            let spine = Neu::App(Box::new(n), Box::new(arg));
            match iota_value_spec(k, s, m, spine, depth) {
                Err(f) => Err(f),
                Ok(Some(v)) => Ok(v),
                Ok(None) => Ok(Val::Neutral(spine)),
            }
        },
        _ => Err(Fault::Decline("nbe: apply to a non-function value"@)),
    }
}

/// One judgement of evaluation.
#[verifier::opaque]
pub open spec fn eval_step(k: K, s: Sem, m: Mode, env: Seq<Thk>, e: Term) -> Res<Val> {
    match e {
        Term::BVar(i) => if i < env.len() {
            force(s, m, env[env.len() - 1 - i])
        } else {
            Err(Fault::Other("nbe: bvar out of range"@))
        },
        Term::Sort(l) => Ok(Val::Sort(l)),
        Term::Lit(l) => Ok(Val::Lit(l)),
        Term::Lam(bi, ty, body) => Ok(
            Val::Lam(bi, Box::new(Thk::Deferred(env, *ty)), env, *body),
        ),
        Term::Pi(bi, ty, body) => Ok(Val::Pi(bi, Box::new(Thk::Deferred(env, *ty)), env, *body)),
        Term::Let(_, val, body) => (s.eval)(m, env.push(Thk::Deferred(env, *val)), *body),
        Term::Proj(sname, idx, v) => match (s.eval)(m, env, *v) {
            Err(f) => Err(f),
            Ok(vv) => eval_proj_spec(k, s, m, sname, idx, vv),
        },
        Term::Const(n, us) => eval_const_spec(k, s, m, n, us),
        Term::App(f, a) => match (s.eval)(m, env, *f) {
            Err(x) => Err(x),
            Ok(vf) => apply_spec(k, s, m, vf, Thk::Deferred(env, *a), depth_of(env.len())),
        },
    }
}

/// The body of an abstraction on a variable of its own.
pub open spec fn open_body(s: Sem, m: Mode, depth: u32, env: Seq<Thk>, body: Term) -> Res<Val> {
    if depth == u32::MAX {
        Err(Fault::Decline("nbe: depth limit"@))
    } else {
        (s.eval)(m, env.push(fresh(depth)), body)
    }
}

/// The domain and the body of an abstraction as terms.
pub open spec fn quote_binder(s: Sem, m: Mode, depth: u32, dom: Thk, env: Seq<Thk>, body: Term) -> Res<
    (Term, Term),
> {
    match force(s, m, dom) {
        Err(f) => Err(f),
        Ok(d) => match (s.quote)(m, depth, d) {
            Err(f) => Err(f),
            Ok(dq) => match open_body(s, m, depth, env, body) {
                Err(f) => Err(f),
                Ok(b) => match (s.quote)(m, (depth + 1) as u32, b) {
                    Err(f) => Err(f),
                    Ok(bq) => Ok((dq, bq)),
                },
            },
        },
    }
}

/// A neutral value as a term.
pub open spec fn quote_neutral_spec(s: Sem, m: Mode, depth: u32, n: Neu) -> Res<Term>
    decreases n,
{
    match n {
        Neu::Var(level) => if level >= depth {
            Err(Fault::Other("nbe: level out of range during quote"@))
        } else {
            Ok(Term::BVar((depth - level - 1) as u32))
        },
        Neu::Const(c, us) => Ok(Term::Const(c, us)),
        Neu::App(f, a) => match quote_neutral_spec(s, m, depth, *f) {
            Err(x) => Err(x),
            Ok(fq) => match force(s, m, *a) {
                Err(x) => Err(x),
                Ok(av) => match (s.quote)(m, depth, av) {
                    Err(x) => Err(x),
                    Ok(aq) => Ok(Term::App(Box::new(fq), Box::new(aq))),
                },
            },
        },
        Neu::Proj(sname, i, v) => match quote_neutral_spec(s, m, depth, *v) {
            Err(x) => Err(x),
            Ok(vq) => Ok(Term::Proj(sname, i, Box::new(vq))),
        },
    }
}

/// One judgement of a value as a term.
#[verifier::opaque]
pub open spec fn quote_step(s: Sem, m: Mode, depth: u32, v: Val) -> Res<Term> {
    match v {
        Val::Sort(l) => Ok(Term::Sort(l)),
        Val::Lit(l) => Ok(Term::Lit(l)),
        Val::Lam(bi, dom, env, body) => match quote_binder(s, m, depth, *dom, env, body) {
            Err(f) => Err(f),
            Ok((d, b)) => Ok(Term::Lam(bi, Box::new(d), Box::new(b))),
        },
        Val::Pi(bi, dom, env, body) => match quote_binder(s, m, depth, *dom, env, body) {
            Err(f) => Err(f),
            Ok((d, b)) => Ok(Term::Pi(bi, Box::new(d), Box::new(b))),
        },
        Val::Neutral(n) => quote_neutral_spec(s, m, depth, n),
    }
}

/// Whether two thunks have the same value.
pub open spec fn thunks_same(s: Sem, m: Mode, depth: u32, a: Thk, b: Thk) -> Res<bool> {
    match force(s, m, a) {
        Err(f) => Err(f),
        Ok(x) => match force(s, m, b) {
            Err(f) => Err(f),
            Ok(y) => (s.val_eq)(m, depth, x, y),
        },
    }
}

/// Whether two abstractions have the same domain and body.
pub open spec fn closures_same(
    s: Sem,
    m: Mode,
    depth: u32,
    d1: Thk,
    e1: Seq<Thk>,
    b1: Term,
    d2: Thk,
    e2: Seq<Thk>,
    b2: Term,
) -> Res<bool> {
    match thunks_same(s, m, depth, d1, d2) {
        Err(f) => Err(f),
        Ok(false) => Ok(false),
        Ok(true) => match open_body(s, m, depth, e1, b1) {
            Err(f) => Err(f),
            Ok(v1) => match open_body(s, m, depth, e2, b2) {
                Err(f) => Err(f),
                Ok(v2) => (s.val_eq)(m, (depth + 1) as u32, v1, v2),
            },
        },
    }
}

/// Whether two neutral values are the same.
pub open spec fn neutrals_same(s: Sem, m: Mode, depth: u32, a: Neu, b: Neu) -> Res<bool>
    decreases a,
{
    match (a, b) {
        (Neu::Var(l1), Neu::Var(l2)) => Ok(l1 == l2),
        (Neu::Const(c1, u1), Neu::Const(c2, u2)) => Ok(c1 == c2 && univs_eq(u1, u2)),
        (Neu::App(f1, a1), Neu::App(f2, a2)) => match neutrals_same(s, m, depth, *f1, *f2) {
            Err(f) => Err(f),
            Ok(false) => Ok(false),
            Ok(true) => thunks_same(s, m, depth, *a1, *a2),
        },
        (Neu::Proj(s1, i1, v1), Neu::Proj(s2, i2, v2)) => if s1 == s2 && i1 == i2 {
            neutrals_same(s, m, depth, *v1, *v2)
        } else {
            Ok(false)
        },
        _ => Ok(false),
    }
}

/// One judgement of whether two values are the same.
#[verifier::opaque]
pub open spec fn val_eq_step(s: Sem, m: Mode, depth: u32, a: Val, b: Val) -> Res<bool> {
    match (a, b) {
        (Val::Sort(l1), Val::Sort(l2)) => Ok(univ_eq(l1, l2)),
        (Val::Lit(x), Val::Lit(y)) => Ok(x == y),
        (Val::Neutral(n1), Val::Neutral(n2)) => neutrals_same(s, m, depth, n1, n2),
        (Val::Pi(_, d1, e1, b1), Val::Pi(_, d2, e2, b2)) => closures_same(
            s,
            m,
            depth,
            *d1,
            e1,
            b1,
            *d2,
            e2,
            b2,
        ),
        (Val::Lam(_, d1, e1, b1), Val::Lam(_, d2, e2, b2)) => closures_same(
            s,
            m,
            depth,
            *d1,
            e1,
            b1,
            *d2,
            e2,
            b2,
        ),
        _ => Ok(false),
    }
}

/// What evaluation says of two terms being the same; where it does not say that
/// they are, reduction decides.
#[verifier::opaque]
pub open spec fn defeq_step(k: K, s: Sem, m: Mode, ctx: Seq<Term>, a: Term, b: Term) -> Res<bool> {
    let depth = depth_of(ctx.len());
    let env = env_vars(depth as nat);
    if k.nbe && !m.eager && evaluated_same(s, m, depth, env, a, b) == Ok::<bool, Fault>(true) {
        Ok(true)
    } else {
        defeq_eager(k, s, m, ctx, a, b)
    }
}

/// Whether the values of two terms are the same.
pub open spec fn evaluated_same(s: Sem, m: Mode, depth: u32, env: Seq<Thk>, a: Term, b: Term) -> Res<
    bool,
> {
    match (s.eval)(m, env, a) {
        Err(f) => Err(f),
        Ok(va) => match (s.eval)(m, env, b) {
            Err(f) => Err(f),
            Ok(vb) => (s.val_eq)(m, depth, va, vb),
        },
    }
}

/// The value of the type that substitution finds for a term.
pub open spec fn type_fallback(k: K, s: Sem, m: Mode, ctx: Seq<Term>, env: Seq<Thk>, e: Term) -> Res<
    Val,
> {
    match infer_eager(k, s, m, ctx, e) {
        Err(f) => Err(f),
        Ok(t) => (s.eval)(m, env, t),
    }
}

/// Whether the type of a value fits the expected one.
#[verifier::opaque]
pub open spec fn types_fit(
    k: K,
    s: Sem,
    m: Mode,
    ctx: Seq<Term>,
    depth: u32,
    got: Val,
    want: Val,
) -> Res<bool> {
    match (s.val_eq)(m, depth, got, want) {
        Err(f) => Err(f),
        Ok(true) => Ok(true),
        Ok(false) => match (s.quote)(m, depth, got) {
            Err(f) => Err(f),
            Ok(gq) => match (s.quote)(m, depth, want) {
                Err(f) => Err(f),
                Ok(wq) => defeq_eager(k, s, eager_mode(m), ctx, gq, wq),
            },
        },
    }
}

/// Whether an argument fits a function by reduction alone.
#[verifier::opaque]
pub open spec fn argument_fits(k: K, s: Sem, m: Mode, ctx: Seq<Term>, f: Term, a: Term) -> Res<
    bool,
> {
    let q = eager_mode(m);
    match infer_eager(k, s, q, ctx, f) {
        Err(_) => Ok(false),
        Ok(ft) => match ensure_pi_spec(k, s, q, ctx, ft) {
            Err(_) => Ok(false),
            Ok((_, dom, _)) => match infer_eager(k, s, q, ctx, a) {
                Err(_) => Ok(false),
                Ok(at) => defeq_eager(k, s, q, ctx, at, dom),
            },
        },
    }
}

/// Whether an argument's type is the domain of the function that it is for, by
/// evaluation or else by reduction.
#[verifier::opaque]
pub open spec fn check_argument(
    k: K,
    s: Sem,
    m: Mode,
    ctx: Seq<Term>,
    tys: Seq<Thk>,
    env: Seq<Thk>,
    f: Term,
    a: Term,
    dom: Val,
) -> Res<()> {
    match (s.infer_val)(m, ctx, tys, env, a) {
        Err(x) => Err(x),
        Ok(at) => match types_fit(k, s, m, ctx, depth_of(env.len()), at, dom) {
            Err(x) => Err(x),
            Ok(true) => Ok(()),
            Ok(false) => match argument_fits(k, s, m, ctx, f, a) {
                Err(x) => Err(x),
                Ok(true) => Ok(()),
                Ok(false) => Err(
                    Fault::Reject(
                        value_argument_text(k, s, m, ctx, depth_of(env.len()), f, a, at, dom),
                    ),
                ),
            },
        },
    }
}

/// The type of an application as a value.
#[verifier::opaque]
pub open spec fn infer_app_value(
    k: K,
    s: Sem,
    m: Mode,
    ctx: Seq<Term>,
    tys: Seq<Thk>,
    env: Seq<Thk>,
    f: Term,
    a: Term,
) -> Res<Val> {
    match (s.infer_val)(m, ctx, tys, env, f) {
        Err(x) => Err(x),
        Ok(Val::Pi(_, dom, penv, pbody)) => match force(s, m, *dom) {
            Err(x) => Err(x),
            Ok(d) => {
                let checked = if m.infer_only {
                    Ok(())
                } else {
                    check_argument(k, s, m, ctx, tys, env, f, a, d)
                };
                match checked {
                    Err(x) => Err(x),
                    Ok(()) => match (s.eval)(m, env, a) {
                        Err(x) => Err(x),
                        Ok(av) => (s.eval)(m, penv.push(Thk::Forced(Box::new(av))), pbody),
                    },
                }
            },
        },
        Ok(_) => type_fallback(k, s, m, ctx, env, Term::App(Box::new(f), Box::new(a))),
    }
}

/// The type of a body under one more binder, as a value.
pub open spec fn infer_body(
    s: Sem,
    m: Mode,
    ctx: Seq<Term>,
    tys: Seq<Thk>,
    env: Seq<Thk>,
    ty: Term,
    body: Term,
) -> Res<Val> {
    (s.infer_val)(
        m,
        ctx.push(ty),
        tys.push(Thk::Deferred(env, ty)),
        env.push(fresh(depth_of(env.len()))),
        body,
    )
}

/// The type of a local definition's body, as a value.
#[verifier::opaque]
pub open spec fn infer_let_value(
    k: K,
    s: Sem,
    m: Mode,
    ctx: Seq<Term>,
    tys: Seq<Thk>,
    env: Seq<Thk>,
    ty: Term,
    val: Term,
    body: Term,
) -> Res<Val> {
    match (s.eval)(m, env, ty) {
        Err(x) => Err(x),
        Ok(d) => match (s.infer_val)(m, ctx, tys, env, val) {
            Err(x) => Err(x),
            Ok(vt) => match types_fit(k, s, m, ctx, depth_of(env.len()), vt, d) {
                Err(x) => Err(x),
                Ok(false) => Err(Fault::Reject("let value type mismatch (nbe)"@)),
                Ok(true) => (s.infer_val)(m, ctx, tys, env, plug1(body, val)),
            },
        },
    }
}

/// A constructor's type behind its parameters, with the environment that gives
/// them.
pub open spec fn peel_params(
    s: Sem,
    m: Mode,
    t: Term,
    targs: Seq<Thk>,
    i: nat,
    n: nat,
    env: Seq<Thk>,
) -> Res<Option<(Term, Seq<Thk>)>>
    decreases n - i,
{
    if i >= n {
        Ok(Some((t, env)))
    } else {
        match t {
            Term::Pi(_, _, body) => match force(s, m, targs[i as int]) {
                Err(f) => Err(f),
                Ok(v) => peel_params(
                    s,
                    m,
                    *body,
                    targs,
                    i + 1,
                    n,
                    env.push(Thk::Forced(Box::new(v))),
                ),
            },
            _ => Ok(None),
        }
    }
}

/// A constructor's type behind some of its fields, with the environment that
/// gives them as projections of a value.
pub open spec fn peel_fields(
    k: K,
    s: Sem,
    m: Mode,
    t: Term,
    sname: u32,
    v: Val,
    i: u32,
    n: u32,
    env: Seq<Thk>,
) -> Res<Option<(Term, Seq<Thk>)>>
    decreases n - i,
{
    if i >= n {
        Ok(Some((t, env)))
    } else {
        match t {
            Term::Pi(_, _, body) => match eval_proj_spec(k, s, m, sname, i, v) {
                Err(f) => Err(f),
                Ok(p) => peel_fields(
                    k,
                    s,
                    m,
                    *body,
                    sname,
                    v,
                    (i + 1) as u32,
                    n,
                    env.push(Thk::Forced(Box::new(p))),
                ),
            },
            _ => Ok(None),
        }
    }
}

/// The type of a field as a value, where the structure's type shows enough;
/// nothing where substitution is to be asked.
#[verifier::opaque]
pub open spec fn field_value(
    k: K,
    s: Sem,
    m: Mode,
    ctx: Seq<Term>,
    env: Seq<Thk>,
    sname: u32,
    idx: u32,
    v: Term,
    vt: Val,
    ctor_typ: Term,
    targs: Seq<Thk>,
    num_params: u32,
) -> Res<Option<Val>> {
    match peel_params(s, m, ctor_typ, targs, 0, num_params as nat, Seq::empty()) {
        Err(f) => Err(f),
        Ok(None) => Ok(None),
        Ok(Some((t1, env1))) => match (s.eval)(m, env, v) {
            Err(f) => Err(f),
            Ok(vv) => match peel_fields(k, s, m, t1, sname, vv, 0, idx, env1) {
                Err(f) => Err(f),
                Ok(Some((Term::Pi(_, dom, _), env2))) => match (s.eval)(m, env2, *dom) {
                    Err(f) => Err(f),
                    Ok(r) => match (s.quote)(m, depth_of(env.len()), vt) {
                        Err(f) => Err(f),
                        Ok(vq) => match (s.is_prop)(m, ctx, vq) {
                            Err(f) => Err(f),
                            Ok(true) => Ok(None),
                            Ok(false) => Ok(Some(r)),
                        },
                    },
                },
                Ok(_) => Ok(None),
            },
        },
    }
}

/// The structure that a type value is an instance of: its name, its levels and
/// its arguments.
pub open spec fn structure_value(sname: u32, vt: Val) -> Option<(Seq<Univ>, Seq<Thk>)> {
    match vt {
        Val::Neutral(n) => match neu_head(n) {
            Neu::Const(c, us) => if c == sname {
                Some((us, neu_args(n)))
            } else {
                None
            },
            _ => None,
        },
        _ => None,
    }
}

/// The type of a projection as a value, where the structure's type shows enough.
#[verifier::opaque]
pub open spec fn proj_value_type(
    k: K,
    s: Sem,
    m: Mode,
    ctx: Seq<Term>,
    env: Seq<Thk>,
    sname: u32,
    idx: u32,
    v: Term,
    vt: Val,
) -> Res<Option<Val>> {
    match (structure_value(sname, vt), proj_structure(k, sname)) {
        (Some((us, targs)), Some((num_params, ctor))) => match find(k.env, ctor) {
            Some(Info::Constructor { level_params, typ, num_fields, .. }) => if idx >= num_fields {
                Err(Fault::Reject("projection index out of range (nbe)"@))
            } else if targs.len() < num_params {
                Ok(None)
            } else {
                field_value(
                    k,
                    s,
                    m,
                    ctx,
                    env,
                    sname,
                    idx,
                    v,
                    vt,
                    subst_params(typ, level_params, us),
                    targs,
                    num_params,
                )
            },
            _ => Ok(None),
        },
        _ => Ok(None),
    }
}

/// The type of a projection as a value.
#[verifier::opaque]
pub open spec fn infer_proj_value_spec(
    k: K,
    s: Sem,
    m: Mode,
    ctx: Seq<Term>,
    tys: Seq<Thk>,
    env: Seq<Thk>,
    sname: u32,
    idx: u32,
    v: Term,
) -> Res<Val> {
    match (s.infer_val)(m, ctx, tys, env, v) {
        Err(f) => Err(f),
        Ok(vt) => match proj_value_type(k, s, m, ctx, env, sname, idx, v, vt) {
            Err(f) => Err(f),
            Ok(Some(r)) => Ok(r),
            Ok(None) => match infer_proj_spec(k, s, m, ctx, sname, idx, v) {
                Err(f) => Err(f),
                Ok(t) => (s.eval)(m, env, t),
            },
        },
    }
}

/// A closed type as a value.
pub open spec fn closed_type(s: Sem, m: Mode, t: Res<Term>) -> Res<Val> {
    match t {
        Err(f) => Err(f),
        Ok(t) => (s.eval)(m, Seq::empty(), t),
    }
}

/// One judgement of the type of a term as a value.
#[verifier::opaque]
pub open spec fn infer_val_step(
    k: K,
    s: Sem,
    m: Mode,
    ctx: Seq<Term>,
    tys: Seq<Thk>,
    env: Seq<Thk>,
    e: Term,
) -> Res<Val> {
    match e {
        Term::BVar(i) => if i < tys.len() {
            force(s, m, tys[tys.len() - 1 - i])
        } else {
            Err(Fault::Other("nbe infer: bvar out of range"@))
        },
        Term::Sort(l) => Ok(Val::Sort(Univ::Succ(Box::new(l)))),
        Term::Const(n, us) => closed_type(s, m, infer_const_spec(k, n, us)),
        Term::Lit(LitT::Nat(_)) => closed_type(s, m, nat_type_spec(k)),
        Term::Lit(LitT::Str(_)) => closed_type(s, m, string_type_spec(k)),
        Term::App(f, a) => infer_app_value(k, s, m, ctx, tys, env, *f, *a),
        Term::Lam(bi, ty, body) => match (s.infer_val)(m, ctx, tys, env, *ty) {
            Err(x) => Err(x),
            Ok(Val::Sort(_)) => match infer_body(s, m, ctx, tys, env, *ty, *body) {
                Err(x) => Err(x),
                Ok(bt) => if depth_of(env.len()) == u32::MAX {
                    Err(Fault::Decline("nbe: depth limit"@))
                } else {
                    match (s.quote)(m, (depth_of(env.len()) + 1) as u32, bt) {
                        Err(x) => Err(x),
                        Ok(bq) => Ok(Val::Pi(bi, Box::new(Thk::Deferred(env, *ty)), env, bq)),
                    }
                },
            },
            Ok(_) => type_fallback(k, s, m, ctx, env, e),
        },
        Term::Pi(_, ty, body) => match (s.infer_val)(m, ctx, tys, env, *ty) {
            Err(x) => Err(x),
            Ok(Val::Sort(l1)) => match infer_body(s, m, ctx, tys, env, *ty, *body) {
                Err(x) => Err(x),
                Ok(Val::Sort(l2)) => Ok(Val::Sort(Univ::IMax(Box::new(l1), Box::new(l2)))),
                Ok(_) => type_fallback(k, s, m, ctx, env, e),
            },
            Ok(_) => type_fallback(k, s, m, ctx, env, e),
        },
        Term::Let(ty, val, body) => match (s.infer_val)(m, ctx, tys, env, *ty) {
            Err(x) => Err(x),
            Ok(Val::Sort(_)) => infer_let_value(k, s, m, ctx, tys, env, *ty, *val, *body),
            Ok(_) => type_fallback(k, s, m, ctx, env, e),
        },
        Term::Proj(sname, idx, v) => infer_proj_value_spec(
            k,
            s,
            m,
            ctx,
            tys,
            env,
            sname,
            idx,
            *v,
        ),
    }
}

/// The type of a term by evaluation; by substitution where evaluation does not
/// come through.
#[verifier::opaque]
pub open spec fn infer_by_value(k: K, s: Sem, m: Mode, ctx: Seq<Term>, e: Term) -> Res<Term> {
    let q = keep_major_mode(m);
    match (s.infer_val)(q, ctx, scope_types(ctx), env_vars(ctx.len()), e) {
        Ok(tv) => match (s.quote)(q, depth_of(ctx.len()), tv) {
            Ok(t) => Ok(t),
            Err(_) => infer_eager(k, s, q, ctx, e),
        },
        Err(Fault::Reject(msg)) => Err(Fault::Reject(msg)),
        Err(_) => infer_eager(k, s, q, ctx, e),
    }
}

/// One judgement of inference.
#[verifier::opaque]
pub open spec fn infer_step(k: K, s: Sem, m: Mode, ctx: Seq<Term>, e: Term) -> Res<Term> {
    if k.nbe && !m.eager {
        infer_by_value(k, s, m, ctx, e)
    } else {
        infer_eager(k, s, m, ctx, e)
    }
}

/// The number of binders that an environment is reckoned to have.
pub fn env_depth(env: &VEnv) -> (r: u32)
    ensures
        r == depth_of(env@.len()),
{
    let mut cur = env;
    let mut n: u32 = 0;
    let ghost seen: nat = 0;
    loop
        invariant
            env@.len() == seen + cur@.len(),
            n == depth_of(seen),
        decreases cur@.len(),
    {
        match cur {
            VEnv::Empty => {
                assert(cur@.len() == 0);
                return n;
            },
            VEnv::Bind(rest, t) => {
                assert(cur@ == (**rest)@.push((**t)@));
                n = if n == u32::MAX {
                    0
                } else {
                    n + 1
                };
                proof {
                    lemma_next_depth(seen);
                    seen = seen + 1;
                }
                cur = rest;
            },
        }
    }
}

proof fn lemma_next_depth(n: nat)
    ensures
        depth_of(n + 1) == (if depth_of(n) == u32::MAX {
            0
        } else {
            (depth_of(n) + 1) as u32
        }),
{
}

fn scope_depth(ctx: &Ctx) -> (r: u32)
    ensures
        r == depth_of(ctx@.len()),
{
    (ctx.len() as u64 % 0x1_0000_0000) as u32
}

fn mk_fresh(level: u32) -> (r: Rc<Thunk>)
    ensures
        (*r)@ == fresh(level),
{
    let v = Value::Neutral(Neutral::Var(level));
    assert(v@ == Val::Neutral(Neu::Var(level)));
    Rc::new(Thunk::Forced(Rc::new(v)))
}

fn mk_forced(v: Value) -> (r: Rc<Thunk>)
    ensures
        (*r)@ == Thk::Forced(Box::new(v@)),
{
    Rc::new(Thunk::Forced(Rc::new(v)))
}

fn mk_deferred(env: &VEnv, e: &Expr) -> (r: Rc<Thunk>)
    ensures
        (*r)@ == Thk::Deferred(env@, e@),
{
    Rc::new(Thunk::Deferred(env.copy(), e.clone()))
}

/// The environment in which each variable stands for itself.
pub fn generic_env(depth: u32) -> (r: VEnv)
    ensures
        r@ == env_vars(depth as nat),
{
    let mut env = VEnv::empty();
    let mut i: u32 = 0;
    assert(env@ =~= env_vars(0));
    while i < depth
        invariant
            i <= depth,
            env@ == env_vars(i as nat),
        decreases depth - i,
    {
        env = env.bind(mk_fresh(i));
        assert(env@ =~= env_vars((i + 1) as nat));
        i = i + 1;
    }
    env
}

fn dummy_ctx(depth: u32) -> (r: Ctx)
    ensures
        r@ == dummy_scope(depth),
{
    let mut ctx = Ctx::new();
    let mut i: u32 = 0;
    assert(ctx@ =~= Seq::<Term>::empty());
    while i < depth
        invariant
            i <= depth,
            ctx@.len() == i,
            forall|j: int| 0 <= j < i ==> #[trigger] ctx@[j] == Term::Sort(Univ::Zero),
        decreases depth - i,
    {
        ctx.push(sort(zero()));
        i = i + 1;
    }
    assert(ctx@ =~= dummy_scope(depth));
    ctx
}

fn scope_values(ctx: &Ctx) -> (r: (VEnv, VEnv))
    ensures
        r.0@ == scope_types(ctx@),
        r.1@ == env_vars(ctx@.len()),
{
    let mut tys = VEnv::empty();
    let mut env = VEnv::empty();
    let mut level: u32 = 0;
    let mut i: usize = 0;
    assert(env@ =~= env_vars(0));
    while i < ctx.len()
        invariant
            i <= ctx@.len(),
            tys@.len() == i,
            forall|j: int|
                0 <= j < i ==> #[trigger] tys@[j] == Thk::Deferred(env_vars(j as nat), ctx@[j]),
            env@ == env_vars(i as nat),
            level == depth_of(i as nat),
        decreases ctx@.len() - i,
    {
        tys = tys.bind(mk_deferred(&env, ctx.at(i)));
        env = env.bind(mk_fresh(level));
        assert(env@ =~= env_vars((i + 1) as nat));
        proof {
            lemma_next_depth(i as nat);
        }
        level = if level == u32::MAX {
            0
        } else {
            level + 1
        };
        i = i + 1;
    }
    assert(tys@ =~= scope_types(ctx@));
    (tys, env)
}

/// What a neutral value applies, and what it is applied to.
pub fn unwind_neutral(n: &Neutral) -> (r: (&Neutral, Vec<Rc<Thunk>>))
    ensures
        r.0@ == neu_head(n@),
        r.1.deep_view() == neu_args(n@),
    decreases n,
{
    match n {
        Neutral::App(f, a) => {
            let (head, mut args) = unwind_neutral(f);
            let ghost before = args.deep_view();
            args.push(a.clone());
            assert(args.deep_view() =~= before.push((**a)@));
            (head, args)
        },
        _ => {
            let args: Vec<Rc<Thunk>> = Vec::new();
            assert(args.deep_view() =~= Seq::<Thk>::empty());
            (n, args)
        },
    }
}

fn thunks_between(v: &Vec<Rc<Thunk>>, from: usize, to: usize) -> (r: Vec<Rc<Thunk>>)
    requires
        from <= to <= v.len(),
    ensures
        r.deep_view() == v.deep_view().subrange(from as int, to as int),
{
    let mut out: Vec<Rc<Thunk>> = Vec::new();
    let mut i: usize = from;
    while i < to
        invariant
            from <= i <= to <= v.len(),
            out.len() == i - from,
            forall|j: int| 0 <= j < out.len() ==> (*#[trigger] out@[j])@ == (*v@[from + j])@,
        decreases to - i,
    {
        out.push(v[i].clone());
        i = i + 1;
    }
    assert(out.deep_view() =~= v.deep_view().subrange(from as int, to as int));
    out
}

/// A constructor applied to thunks.
pub struct CtorThunks {
    pub ctor: u32,
    pub num_params: u32,
    pub args: Vec<Rc<Thunk>>,
    pub levels: Option<Vec<Level>>,
}

impl DeepView for CtorThunks {
    type V = CtorVal;

    open spec fn deep_view(&self) -> CtorVal {
        CtorVal {
            ctor: self.ctor,
            num_params: self.num_params,
            args: self.args.deep_view(),
            levels: self.levels.deep_view(),
        }
    }
}

/// What the reduction of a recursor applied to thunks needs as terms.
pub struct QuotedArgs {
    pub ra: RecArgs,
    pub c: CtorApp,
}

impl DeepView for QuotedArgs {
    type V = QuotedRec;

    open spec fn deep_view(&self) -> QuotedRec {
        QuotedRec { ra: self.ra@, c: self.c.deep_view() }
    }
}

impl<'e> Checker<'e> {
    fn force_at(&self, g: Budget, m: Mode, t: &Thunk) -> (r: R<Value>)
        ensures
            res(r) == force(sem_at(self@, g), m, t@),
        decreases g.total(), 1int, 0int,
    {
        match t {
            Thunk::Deferred(env, e) => self.eval_at(g, m, env, e),
            Thunk::Forced(v) => Ok(v.copy()),
        }
    }

    fn eval_const(&self, g: Budget, m: Mode, n: u32, us: &Rc<Vec<Level>>) -> (r: R<Value>)
        ensures
            res(r) == eval_const_spec(
                self@,
                sem_at(self@, g),
                m,
                n,
                (**us).deep_view(),
            ),
        decreases g.total(), 1int, 0int,
    {
        if self.eager_whnf_unfolds(n) {
            match self.unfold_delta(n, us, true) {
                Some(body) => {
                    return self.eval_at(g, m, &VEnv::empty(), &body);
                },
                None => {},
            }
        }
        Ok(Value::Neutral(Neutral::Const(n, us.clone())))
    }

    fn eval_proj(&self, g: Budget, m: Mode, sname: u32, idx: u32, v: &Value) -> (r: R<Value>)
        ensures
            res(r) == eval_proj_spec(self@, sem_at(self@, g), m, sname, idx, v@),
        decreases g.total(), 2int, 0int,
    {
        match v {
            Value::Neutral(n) => {
                let (head, args) = unwind_neutral(n);
                assert(args.len() == args.deep_view().len());
                match head {
                    Neutral::Const(c, _) => match self.env.get(*c) {
                        Some(ConstantInfo::Constructor { num_params, induct, .. }) => {
                            let at: u64 = *num_params as u64 + idx as u64;
                            if *induct == sname && at < args.len() as u64 {
                                return self.force_at(g, m, &args[at as usize]);
                            }
                        },
                        _ => {},
                    },
                    _ => {},
                }
                Ok(Value::Neutral(Neutral::Proj(sname, idx, Rc::new(n.copy()))))
            },
            _ => decline("nbe: proj of a non-structure value"),
        }
    }

    fn quote_all(&self, g: Budget, m: Mode, depth: u32, ts: &Vec<Rc<Thunk>>) -> (r: R<Vec<Expr>>)
        ensures
            res(r) == quote_all_spec(sem_at(self@, g), m, depth, ts.deep_view()),
            r matches Ok(v) ==> v.len() == ts.len(),
        decreases g.total(), 2int, 0int,
    {
        let ghost s = sem_at(self@, g);
        let ghost tv = ts.deep_view();
        let mut out: Vec<Expr> = Vec::new();
        let mut i: usize = 0;
        assert(out.deep_view() =~= Seq::<Term>::empty());
        while i < ts.len()
            invariant
                i <= ts.len(),
                out.len() == i,
                tv == ts.deep_view(),
                s == sem_at(self@, g),
                quote_from(s, m, depth, tv, i as nat, out.deep_view()) == quote_all_spec(
                    s,
                    m,
                    depth,
                    tv,
                ),
            decreases ts.len() - i,
        {
            let v = self.force_at(g, m, &ts[i])?;
            let t = self.quote_at(g, m, depth, &v)?;
            let ghost before = out.deep_view();
            let ghost x = t@;
            out.push(t);
            assert(out.deep_view() =~= before.push(x));
            i = i + 1;
        }
        Ok(out)
    }

    fn is_ctor_or_nat_lit_value(&self, v: &Value) -> (r: bool)
        ensures
            r == ctor_value(self@, v@),
    {
        match v {
            Value::Lit(Lit::Nat(_)) => true,
            Value::Neutral(n) => {
                let (head, _) = unwind_neutral(n);
                match head {
                    Neutral::Const(c, _) => match self.env.get(*c) {
                        Some(ConstantInfo::Constructor { .. }) => true,
                        _ => false,
                    },
                    _ => false,
                }
            },
            _ => false,
        }
    }

    fn read_value_ctor(&self, all: &Vec<u32>, rules: &Vec<RecRule>, v: &Value) -> (r: Option<
        CtorThunks,
    >)
        ensures
            r.deep_view() == value_ctor(self@, all@, crate::env::rule_ctors(rules@), v@),
    {
        match v {
            Value::Lit(Lit::Nat(n)) => {
                let (z, sc) = self.nat_ctors()?;
                let owned = match self.ctor_owner(z) {
                    Some(i) => has_id(all, i),
                    None => false,
                };
                if !owned && crate::iota::first_rule(rules, z).is_none() {
                    return None;
                }
                if n.is_zero() {
                    let none: Vec<Rc<Thunk>> = Vec::new();
                    assert(none.deep_view() =~= Seq::<Thk>::empty());
                    return Some(CtorThunks { ctor: z, num_params: 0, args: none, levels: None });
                }
                let bits: u64 = n.bits();
                proof {
                    crate::iota::lemma_bit_cap(n@, bits);
                }
                if bits > LITERAL_BITS {
                    return None;
                }
                let p = Value::Lit(Lit::Nat(n.minus(&Natural::from_u64(1))));
                assert(p@ == Val::Lit(LitT::Nat((n@ - 1) as nat)));
                let t = mk_forced(p);
                let ghost tv = (*t)@;
                let one = vec![t];
                assert(one.deep_view() =~= seq![tv]);
                Some(CtorThunks { ctor: sc, num_params: 0, args: one, levels: None })
            },
            Value::Neutral(n) => {
                let (head, args) = unwind_neutral(n);
                match head {
                    Neutral::Const(c, us) => match self.env.get(*c) {
                        Some(
                            ConstantInfo::Constructor { induct, num_params, num_fields, .. },
                        ) => {
                            assert(args.len() == args.deep_view().len());
                            if args.len() as u64 != *num_params as u64 + *num_fields as u64 {
                                return None;
                            }
                            if !has_id(all, *induct) && crate::iota::first_rule(
                                rules,
                                *c,
                            ).is_none() {
                                return None;
                            }
                            let levels = crate::expr::clone_levels(us);
                            Some(
                                CtorThunks {
                                    ctor: *c,
                                    num_params: *num_params,
                                    args,
                                    levels: Some(levels),
                                },
                            )
                        },
                        _ => None,
                    },
                    _ => None,
                }
            },
            _ => None,
        }
    }

    fn major_value_at(&self, g: Budget, m: Mode, rname: u32, t: &Thunk, depth: u32) -> (r: R<Value>)
        ensures
            res(r) == major_value(self@, sem_at(self@, g), m, rname, t@, depth),
        decreases g.total(), 2int, 0int,
    {
        proof {
            reveal(major_value);
        }
        let v = self.force_at(g, m, t)?;
        if self.recursor_unfolds_thm_major(rname) && !self.is_ctor_or_nat_lit_value(&v) {
            let q = self.quote_at(g, m, depth, &v)?;
            let w = self.whnf_major(g, m, &dummy_ctx(depth), &q, rname)?;
            return self.eval_at(g, m, &generic_env(depth), &w);
        }
        Ok(v)
    }

    fn quote_rec_at(
        &self,
        g: Budget,
        m: Mode,
        depth: u32,
        rname: u32,
        us: &Vec<Level>,
        all: &Vec<u32>,
        sh: RecShape,
        args: &Vec<Rc<Thunk>>,
        c: CtorThunks,
    ) -> (r: R<QuotedArgs>)
        requires
            args.len() == major_at(sh) + 1,
            c.num_params <= c.args.len(),
        ensures
            res(r) == quote_rec(
                sem_at(self@, g),
                m,
                depth,
                rname,
                us.deep_view(),
                all@,
                sh,
                args.deep_view(),
                c.deep_view(),
            ),
            r matches Ok(q) ==> q.c.num_params <= q.c.args.len(),
        decreases g.total(), 3int, 0int,
    {
        proof {
            reveal(quote_rec);
        }
        let p1: usize = sh.num_params as usize;
        let p2: usize = p1 + sh.num_motives as usize;
        let p3: usize = p2 + sh.num_minors as usize;
        let cp: usize = c.num_params as usize;
        let params = self.quote_all(g, m, depth, &thunks_between(args, 0, p1))?;
        let mut cargs = self.quote_all(g, m, depth, &thunks_between(&c.args, 0, cp))?;
        let ghost cpv = cargs.deep_view();
        let motives = self.quote_all(g, m, depth, &thunks_between(args, p1, p2))?;
        let minors = self.quote_all(g, m, depth, &thunks_between(args, p2, p3))?;
        let mut fields = self.quote_all(g, m, depth, &thunks_between(&c.args, cp, c.args.len()))?;
        let ghost fv = fields.deep_view();
        cargs.append(&mut fields);
        assert(cargs.deep_view() =~= cpv + fv);
        let all2 = all.clone();
        assert(all2@ =~= all@);
        Ok(
            QuotedArgs {
                ra: RecArgs {
                    rname,
                    us: crate::expr::clone_levels(us),
                    all: all2,
                    params,
                    motives,
                    minors,
                },
                c: CtorApp {
                    ctor: c.ctor,
                    num_params: c.num_params,
                    args: cargs,
                    levels: c.levels,
                },
            },
        )
    }

    fn iota_value_on_at(&self, g: Budget, m: Mode, depth: u32, q: &QuotedArgs) -> (r: R<Option<Value>>)
        requires
            q.c.num_params <= q.c.args.len(),
        ensures
            res(r) == iota_value_on(self@, sem_at(self@, g), m, depth, q.deep_view()),
        decreases g.total(), 8int, 0int,
    {
        proof {
            reveal(iota_value_on);
        }
        let np: usize = q.c.num_params as usize;
        let cps = exprs_between(&q.c.args, 0, np);
        assert(cps.deep_view() =~= q.c.args.deep_view().take(np as int));
        let i: u128 = self.minor_position(
            q.ra.rname,
            &q.ra.us,
            &q.ra.params,
            q.c.ctor,
            &cps,
            &q.ra.all,
        );
        assert(q.ra.minors.len() == q.ra@.minors.len());
        if i >= q.ra.minors.len() as u128 {
            return Ok(None);
        }
        let minor = q.ra.minors[i as usize].clone();
        let rhs = self.iota_from_first_principles(g, m, &dummy_ctx(depth), &q.ra, &q.c, minor)?;
        Ok(Some(self.eval_at(g, m, &generic_env(depth), &rhs)?))
    }

    /// The reduction of a recursor applied to thunks.
    pub fn try_iota_value(&self, g: Budget, m: Mode, spine: &Neutral, depth: u32) -> (r: R<
        Option<Value>,
    >)
        ensures
            res(r) == iota_value_spec(self@, sem_at(self@, g), m, spine@, depth),
        decreases g.total(), 9int, 0int,
    {
        proof {
            reveal(iota_value_spec);
        }
        let (head, args) = unwind_neutral(spine);
        assert(args.len() == args.deep_view().len());
        match head {
            Neutral::Const(rname, us) => match self.env.get(*rname) {
                Some(
                    ConstantInfo::Recursor {
                        all,
                        num_params,
                        num_motives,
                        num_minors,
                        num_indices,
                        rules,
                        ..
                    },
                ) => {
                    let sh = RecShape {
                        num_params: *num_params,
                        num_motives: *num_motives,
                        num_minors: *num_minors,
                        num_indices: *num_indices,
                    };
                    let at: u64 = *num_params as u64 + *num_motives as u64 + *num_minors as u64
                        + *num_indices as u64;
                    if args.len() as u64 != at + 1 {
                        return Ok(None);
                    }
                    if m.keep_prop_major && self.recursor_unfolds_thm_major(*rname) {
                        return Ok(None);
                    }
                    let v = self.major_value_at(g, m, *rname, &args[at as usize], depth)?;
                    match self.read_value_ctor(all, rules, &v) {
                        None => Ok(None),
                        Some(c) => {
                            assert(c.args.len() == c.args.deep_view().len());
                            if (c.args.len() as u64) < (c.num_params as u64) {
                                return Ok(None);
                            }
                            let q = self.quote_rec_at(
                                g,
                                m,
                                depth,
                                *rname,
                                us,
                                all,
                                sh,
                                &args,
                                c,
                            )?;
                            self.iota_value_on_at(g, m, depth, &q)
                        },
                    }
                },
                _ => Ok(None),
            },
            _ => Ok(None),
        }
    }

    /// A value applied to a thunk.
    pub fn apply(&self, g: Budget, m: Mode, vf: &Value, arg: Rc<Thunk>, depth: u32) -> (r: R<Value>)
        ensures
            res(r) == apply_spec(self@, sem_at(self@, g), m, vf@, (*arg)@, depth),
        decreases g.total(), 10int, 0int,
    {
        proof {
            reveal(apply_spec);
        }
        match vf {
            Value::Lam(_, _, env, body) => self.eval_at(g, m, &env.bind(arg), body),
            Value::Neutral(n) => {
                let spine = Neutral::App(Rc::new(n.copy()), arg);
                match self.try_iota_value(g, m, &spine, depth)? {
                    Some(v) => Ok(v),
                    None => Ok(Value::Neutral(spine)),
                }
            },
            _ => decline("nbe: apply to a non-function value"),
        }
    }

    /// One judgement of evaluation.
    pub fn eval(&self, g: Budget, m: Mode, env: &VEnv, e: &Expr) -> (r: R<Value>)
        ensures
            res(r) == eval_step(self@, sem_at(self@, g), m, env@, e@),
        decreases g.total(), 11int, 0int,
    {
        proof {
            reveal(eval_step);
        }
        match e.data() {
            ExprData::BVar(i) => match env.at(*i) {
                Some(t) => self.force_at(g, m, t),
                None => other("nbe: bvar out of range"),
            },
            ExprData::Sort(l) => Ok(Value::Sort(l.clone())),
            ExprData::Lit(l) => Ok(Value::Lit(l.clone())),
            ExprData::Lam(bi, ty, body) => Ok(
                Value::Lam(*bi, mk_deferred(env, ty), env.copy(), body.clone()),
            ),
            ExprData::Pi(bi, ty, body) => Ok(
                Value::Pi(*bi, mk_deferred(env, ty), env.copy(), body.clone()),
            ),
            ExprData::Let(_, val, body) => self.eval_at(
                g,
                m,
                &env.bind(mk_deferred(env, val)),
                body,
            ),
            ExprData::Proj(sname, idx, v) => {
                let vv = self.eval_at(g, m, env, v)?;
                self.eval_proj(g, m, *sname, *idx, &vv)
            },
            ExprData::Const(n, us) => self.eval_const(g, m, *n, us),
            ExprData::App(f, a) => {
                let vf = self.eval_at(g, m, env, f)?;
                self.apply(g, m, &vf, mk_deferred(env, a), env_depth(env))
            },
        }
    }

    fn open_body_at(&self, g: Budget, m: Mode, depth: u32, env: &VEnv, body: &Expr) -> (r: R<Value>)
        ensures
            res(r) == open_body(sem_at(self@, g), m, depth, env@, body@),
            r is Ok ==> depth < u32::MAX,
        decreases g.total(), 1int, 0int,
    {
        if depth == u32::MAX {
            return decline("nbe: depth limit");
        }
        self.eval_at(g, m, &env.bind(mk_fresh(depth)), body)
    }

    fn quote_binder_at(
        &self,
        g: Budget,
        m: Mode,
        depth: u32,
        dom: &Thunk,
        env: &VEnv,
        body: &Expr,
    ) -> (r: R<(Expr, Expr)>)
        ensures
            res(r) == quote_binder(sem_at(self@, g), m, depth, dom@, env@, body@),
        decreases g.total(), 2int, 0int,
    {
        let d = self.force_at(g, m, dom)?;
        let dq = self.quote_at(g, m, depth, &d)?;
        let b = self.open_body_at(g, m, depth, env, body)?;
        let bq = self.quote_at(g, m, depth + 1, &b)?;
        Ok((dq, bq))
    }

    fn quote_neutral(&self, g: Budget, m: Mode, depth: u32, n: &Neutral) -> (r: R<Expr>)
        ensures
            res(r) == quote_neutral_spec(sem_at(self@, g), m, depth, n@),
        decreases g.total(), 2int, neu_size(n@),
    {
        match n {
            Neutral::Var(level) => {
                if *level >= depth {
                    return other("nbe: level out of range during quote");
                }
                Ok(bvar(depth - *level - 1))
            },
            Neutral::Const(c, us) => Ok(const_shared(*c, us.clone())),
            Neutral::App(f, a) => {
                let fq = self.quote_neutral(g, m, depth, f)?;
                let av = self.force_at(g, m, a)?;
                let aq = self.quote_at(g, m, depth, &av)?;
                Ok(app(fq, aq))
            },
            Neutral::Proj(sname, i, v) => {
                let vq = self.quote_neutral(g, m, depth, v)?;
                Ok(proj(*sname, *i, vq))
            },
        }
    }

    /// One judgement of a value as a term.
    pub fn quote(&self, g: Budget, m: Mode, depth: u32, v: &Value) -> (r: R<Expr>)
        ensures
            res(r) == quote_step(sem_at(self@, g), m, depth, v@),
        decreases g.total(), 3int, 0int,
    {
        proof {
            reveal(quote_step);
        }
        match v {
            Value::Sort(l) => Ok(sort(l.clone())),
            Value::Lit(l) => Ok(lit(l.clone())),
            Value::Lam(bi, dom, env, body) => {
                let (d, b) = self.quote_binder_at(g, m, depth, dom, env, body)?;
                Ok(lam(*bi, d, b))
            },
            Value::Pi(bi, dom, env, body) => {
                let (d, b) = self.quote_binder_at(g, m, depth, dom, env, body)?;
                Ok(pi(*bi, d, b))
            },
            Value::Neutral(n) => self.quote_neutral(g, m, depth, n),
        }
    }

    fn thunks_eq(&self, g: Budget, m: Mode, depth: u32, a: &Thunk, b: &Thunk) -> (r: R<bool>)
        ensures
            res(r) == thunks_same(sem_at(self@, g), m, depth, a@, b@),
        decreases g.total(), 2int, 0int,
    {
        let x = self.force_at(g, m, a)?;
        let y = self.force_at(g, m, b)?;
        self.values_eq_at(g, m, depth, &x, &y)
    }

    fn closures_eq(
        &self,
        g: Budget,
        m: Mode,
        depth: u32,
        d1: &Thunk,
        e1: &VEnv,
        b1: &Expr,
        d2: &Thunk,
        e2: &VEnv,
        b2: &Expr,
    ) -> (r: R<bool>)
        ensures
            res(r) == closures_same(
                sem_at(self@, g),
                m,
                depth,
                d1@,
                e1@,
                b1@,
                d2@,
                e2@,
                b2@,
            ),
        decreases g.total(), 3int, 0int,
    {
        if !self.thunks_eq(g, m, depth, d1, d2)? {
            return Ok(false);
        }
        let v1 = self.open_body_at(g, m, depth, e1, b1)?;
        let v2 = self.open_body_at(g, m, depth, e2, b2)?;
        self.values_eq_at(g, m, depth + 1, &v1, &v2)
    }

    fn neutral_def_eq(&self, g: Budget, m: Mode, depth: u32, a: &Neutral, b: &Neutral) -> (r: R<bool>)
        ensures
            res(r) == neutrals_same(sem_at(self@, g), m, depth, a@, b@),
        decreases g.total(), 3int, neu_size(a@),
    {
        match (a, b) {
            (Neutral::Var(l1), Neutral::Var(l2)) => Ok(*l1 == *l2),
            (Neutral::Const(c1, u1), Neutral::Const(c2, u2)) => Ok(
                *c1 == *c2 && levels_def_eq(u1, u2),
            ),
            (Neutral::App(f1, a1), Neutral::App(f2, a2)) => {
                if !self.neutral_def_eq(g, m, depth, f1, f2)? {
                    return Ok(false);
                }
                self.thunks_eq(g, m, depth, a1, a2)
            },
            (Neutral::Proj(s1, i1, v1), Neutral::Proj(s2, i2, v2)) => {
                if *s1 == *s2 && *i1 == *i2 {
                    self.neutral_def_eq(g, m, depth, v1, v2)
                } else {
                    Ok(false)
                }
            },
            _ => Ok(false),
        }
    }

    /// One judgement of whether two values are the same.
    pub fn values_def_eq(&self, g: Budget, m: Mode, depth: u32, a: &Value, b: &Value) -> (r: R<bool>)
        ensures
            res(r) == val_eq_step(sem_at(self@, g), m, depth, a@, b@),
        decreases g.total(), 4int, 0int,
    {
        proof {
            reveal(val_eq_step);
        }
        match (a, b) {
            (Value::Sort(l1), Value::Sort(l2)) => Ok(is_def_eq(l1, l2)),
            (Value::Lit(x), Value::Lit(y)) => Ok(lit_same(x, y)),
            (Value::Neutral(n1), Value::Neutral(n2)) => self.neutral_def_eq(g, m, depth, n1, n2),
            (Value::Pi(_, d1, e1, b1), Value::Pi(_, d2, e2, b2)) => self.closures_eq(
                g,
                m,
                depth,
                d1,
                e1,
                b1,
                d2,
                e2,
                b2,
            ),
            (Value::Lam(_, d1, e1, b1), Value::Lam(_, d2, e2, b2)) => self.closures_eq(
                g,
                m,
                depth,
                d1,
                e1,
                b1,
                d2,
                e2,
                b2,
            ),
            _ => Ok(false),
        }
    }

    fn evaluated_eq(&self, g: Budget, m: Mode, depth: u32, a: &Expr, b: &Expr) -> (r: R<bool>)
        ensures
            res(r) == evaluated_same(
                sem_at(self@, g),
                m,
                depth,
                env_vars(depth as nat),
                a@,
                b@,
            ),
        decreases g.total(), 1int, 0int,
    {
        let env = generic_env(depth);
        let va = self.eval_at(g, m, &env, a)?;
        let vb = self.eval_at(g, m, &env, b)?;
        self.values_eq_at(g, m, depth, &va, &vb)
    }

    pub(crate) fn defeq_once(&self, g: Budget, m: Mode, ctx: &Ctx, a: &Expr, b: &Expr) -> (r: R<bool>)
        ensures
            res(r) == defeq_step(self@, sem_at(self@, g), m, ctx@, a@, b@),
        decreases g.total(), 9int, 0int,
    {
        proof {
            reveal(defeq_step);
        }
        if self.nbe && !m.eager {
            match self.evaluated_eq(g, m, scope_depth(ctx), a, b) {
                Ok(same) => {
                    if same {
                        return Ok(true);
                    }
                },
                Err(_) => {},
            }
        }
        self.defeq_eager_at(g, m, ctx, a, b)
    }

    fn infer_type_value_fallback(&self, g: Budget, m: Mode, ctx: &Ctx, env: &VEnv, e: &Expr) -> (r: R<
        Value,
    >)
        ensures
            res(r) == type_fallback(self@, sem_at(self@, g), m, ctx@, env@, e@),
        decreases g.total(), 7int, 0int,
    {
        let t = self.infer_eager_at(g, m, ctx, e)?;
        self.eval_at(g, m, env, &t)
    }

    fn types_compatible(
        &self,
        g: Budget,
        m: Mode,
        ctx: &Ctx,
        depth: u32,
        got: &Value,
        want: &Value,
    ) -> (r: R<bool>)
        ensures
            res(r) == types_fit(
                self@,
                sem_at(self@, g),
                m,
                ctx@,
                depth,
                got@,
                want@,
            ),
        decreases g.total(), 9int, 0int,
    {
        proof {
            reveal(types_fit);
        }
        if self.values_eq_at(g, m, depth, got, want)? {
            return Ok(true);
        }
        let gq = self.quote_at(g, m, depth, got)?;
        let wq = self.quote_at(g, m, depth, want)?;
        self.defeq_eager_at(g, m.eagerly(), ctx, &gq, &wq)
    }

    fn app_arg_type_ok_eager(&self, g: Budget, m: Mode, ctx: &Ctx, f: &Expr, a: &Expr) -> (r: R<bool>)
        ensures
            res(r) == argument_fits(self@, sem_at(self@, g), m, ctx@, f@, a@),
        decreases g.total(), 9int, 0int,
    {
        proof {
            reveal(argument_fits);
        }
        let q = m.eagerly();
        let ft = match self.infer_eager_at(g, q, ctx, f) {
            Ok(t) => t,
            Err(_) => {
                return Ok(false);
            },
        };
        let dom = match self.ensure_pi_at(g, q, ctx, &ft) {
            Ok((_, dom, _)) => dom,
            Err(_) => {
                return Ok(false);
            },
        };
        let at = match self.infer_eager_at(g, q, ctx, a) {
            Ok(t) => t,
            Err(_) => {
                return Ok(false);
            },
        };
        self.defeq_eager_at(g, q, ctx, &at, &dom)
    }

    fn check_argument_at(
        &self,
        g: Budget,
        m: Mode,
        ctx: &Ctx,
        tys: &VEnv,
        env: &VEnv,
        f: &Expr,
        a: &Expr,
        dom: &Value,
    ) -> (r: R<()>)
        ensures
            res(r) == check_argument(
                self@,
                sem_at(self@, g),
                m,
                ctx@,
                tys@,
                env@,
                f@,
                a@,
                dom@,
            ),
        decreases g.total(), 10int, 0int,
    {
        proof {
            reveal(check_argument);
        }
        let at = self.infer_value_at(g, m, ctx, tys, env, a)?;
        if self.types_compatible(g, m, ctx, env_depth(env), &at, dom)? {
            return Ok(());
        }
        if self.app_arg_type_ok_eager(g, m, ctx, f, a)? {
            return Ok(());
        }
        let text = self.value_argument_message(g, m, ctx, env_depth(env), f, a, &at, dom);
        reject(text.as_str())
    }

    fn infer_app_value_at(
        &self,
        g: Budget,
        m: Mode,
        ctx: &Ctx,
        tys: &VEnv,
        env: &VEnv,
        e: &Expr,
        f: &Expr,
        a: &Expr,
    ) -> (r: R<Value>)
        requires
            e@ == Term::App(Box::new(f@), Box::new(a@)),
        ensures
            res(r) == infer_app_value(
                self@,
                sem_at(self@, g),
                m,
                ctx@,
                tys@,
                env@,
                f@,
                a@,
            ),
        decreases g.total(), 11int, 0int,
    {
        proof {
            reveal(infer_app_value);
        }
        let ft = self.infer_value_at(g, m, ctx, tys, env, f)?;
        match &ft {
            Value::Pi(_, dom, penv, pbody) => {
                let d = self.force_at(g, m, dom)?;
                if !m.infer_only {
                    self.check_argument_at(g, m, ctx, tys, env, f, a, &d)?;
                }
                let av = self.eval_at(g, m, env, a)?;
                self.eval_at(g, m, &penv.bind(mk_forced(av)), pbody)
            },
            _ => self.infer_type_value_fallback(g, m, ctx, env, e),
        }
    }

    fn infer_body_at(
        &self,
        g: Budget,
        m: Mode,
        ctx: &Ctx,
        tys: &VEnv,
        env: &VEnv,
        ty: &Expr,
        body: &Expr,
    ) -> (r: R<Value>)
        ensures
            res(r) == infer_body(
                sem_at(self@, g),
                m,
                ctx@,
                tys@,
                env@,
                ty@,
                body@,
            ),
        decreases g.total(), 1int, 0int,
    {
        self.infer_value_at(
            g,
            m,
            &ctx.extended(ty),
            &tys.bind(mk_deferred(env, ty)),
            &env.bind(mk_fresh(env_depth(env))),
            body,
        )
    }

    fn infer_let_value_at(
        &self,
        g: Budget,
        m: Mode,
        ctx: &Ctx,
        tys: &VEnv,
        env: &VEnv,
        ty: &Expr,
        val: &Expr,
        body: &Expr,
    ) -> (r: R<Value>)
        ensures
            res(r) == infer_let_value(
                self@,
                sem_at(self@, g),
                m,
                ctx@,
                tys@,
                env@,
                ty@,
                val@,
                body@,
            ),
        decreases g.total(), 10int, 0int,
    {
        proof {
            reveal(infer_let_value);
        }
        let d = self.eval_at(g, m, env, ty)?;
        let vt = self.infer_value_at(g, m, ctx, tys, env, val)?;
        if !self.types_compatible(g, m, ctx, env_depth(env), &vt, &d)? {
            return reject("let value type mismatch (nbe)");
        }
        self.infer_value_at(g, m, ctx, tys, env, &instantiate1(body, val))
    }

    fn peel_params_at(
        &self,
        g: Budget,
        m: Mode,
        t: &Expr,
        targs: &Vec<Rc<Thunk>>,
        n: u32,
    ) -> (r: R<Option<(Expr, VEnv)>>)
        requires
            n <= targs.len(),
        ensures
            match r {
                Ok(None) => peel_params(
                    sem_at(self@, g),
                    m,
                    t@,
                    targs.deep_view(),
                    0,
                    n as nat,
                    Seq::empty(),
                ) == Ok::<Option<(Term, Seq<Thk>)>, Fault>(None),
                Ok(Some((e, env))) => peel_params(
                    sem_at(self@, g),
                    m,
                    t@,
                    targs.deep_view(),
                    0,
                    n as nat,
                    Seq::empty(),
                ) == Ok::<Option<(Term, Seq<Thk>)>, Fault>(Some((e@, env@))),
                Err(f) => peel_params(
                    sem_at(self@, g),
                    m,
                    t@,
                    targs.deep_view(),
                    0,
                    n as nat,
                    Seq::empty(),
                ) == Err::<Option<(Term, Seq<Thk>)>, Fault>(f@),
            },
        decreases g.total(), 2int, 0int,
    {
        let ghost s = sem_at(self@, g);
        let ghost tv = targs.deep_view();
        let mut cur = t.clone();
        let mut env = VEnv::empty();
        let mut i: u32 = 0;
        while i < n
            invariant
                i <= n <= targs.len(),
                tv == targs.deep_view(),
                s == sem_at(self@, g),
                peel_params(s, m, cur@, tv, i as nat, n as nat, env@) == peel_params(
                    s,
                    m,
                    t@,
                    tv,
                    0,
                    n as nat,
                    Seq::empty(),
                ),
            decreases n - i,
        {
            let body = match cur.data() {
                ExprData::Pi(_, _, body) => body.clone(),
                _ => {
                    return Ok(None);
                },
            };
            let v = self.force_at(g, m, &targs[i as usize])?;
            env = env.bind(mk_forced(v));
            cur = body;
            i = i + 1;
        }
        Ok(Some((cur, env)))
    }

    fn peel_fields_at(
        &self,
        g: Budget,
        m: Mode,
        t: &Expr,
        sname: u32,
        v: &Value,
        n: u32,
        start: &VEnv,
    ) -> (r: R<Option<(Expr, VEnv)>>)
        ensures
            match r {
                Ok(None) => peel_fields(
                    self@,
                    sem_at(self@, g),
                    m,
                    t@,
                    sname,
                    v@,
                    0,
                    n,
                    start@,
                ) == Ok::<Option<(Term, Seq<Thk>)>, Fault>(None),
                Ok(Some((e, env))) => peel_fields(
                    self@,
                    sem_at(self@, g),
                    m,
                    t@,
                    sname,
                    v@,
                    0,
                    n,
                    start@,
                ) == Ok::<Option<(Term, Seq<Thk>)>, Fault>(Some((e@, env@))),
                Err(f) => peel_fields(
                    self@,
                    sem_at(self@, g),
                    m,
                    t@,
                    sname,
                    v@,
                    0,
                    n,
                    start@,
                ) == Err::<Option<(Term, Seq<Thk>)>, Fault>(f@),
            },
        decreases g.total(), 3int, 0int,
    {
        let ghost s = sem_at(self@, g);
        let mut cur = t.clone();
        let mut env = start.copy();
        let mut i: u32 = 0;
        while i < n
            invariant
                i <= n,
                s == sem_at(self@, g),
                peel_fields(self@, s, m, cur@, sname, v@, i, n, env@) == peel_fields(
                    self@,
                    s,
                    m,
                    t@,
                    sname,
                    v@,
                    0,
                    n,
                    start@,
                ),
            decreases n - i,
        {
            let body = match cur.data() {
                ExprData::Pi(_, _, body) => body.clone(),
                _ => {
                    return Ok(None);
                },
            };
            let p = self.eval_proj(g, m, sname, i, v)?;
            env = env.bind(mk_forced(p));
            cur = body;
            i = i + 1;
        }
        Ok(Some((cur, env)))
    }

    fn field_value_at(
        &self,
        g: Budget,
        m: Mode,
        ctx: &Ctx,
        env: &VEnv,
        sname: u32,
        idx: u32,
        v: &Expr,
        vt: &Value,
        ctor_typ: &Expr,
        targs: &Vec<Rc<Thunk>>,
        num_params: u32,
    ) -> (r: R<Option<Value>>)
        requires
            num_params <= targs.len(),
        ensures
            res(r) == field_value(
                self@,
                sem_at(self@, g),
                m,
                ctx@,
                env@,
                sname,
                idx,
                v@,
                vt@,
                ctor_typ@,
                targs.deep_view(),
                num_params,
            ),
        decreases g.total(), 4int, 0int,
    {
        proof {
            reveal(field_value);
        }
        let (t1, env1) = match self.peel_params_at(g, m, ctor_typ, targs, num_params)? {
            Some(p) => p,
            None => {
                return Ok(None);
            },
        };
        let vv = self.eval_at(g, m, env, v)?;
        let (t2, env2) = match self.peel_fields_at(g, m, &t1, sname, &vv, idx, &env1)? {
            Some(p) => p,
            None => {
                return Ok(None);
            },
        };
        match t2.data() {
            ExprData::Pi(_, dom, _) => {
                let r = self.eval_at(g, m, &env2, dom)?;
                let vq = self.quote_at(g, m, env_depth(env), vt)?;
                if self.is_prop_at(g, m, ctx, &vq)? {
                    return Ok(None);
                }
                Ok(Some(r))
            },
            _ => Ok(None),
        }
    }

    fn proj_value_type_at(
        &self,
        g: Budget,
        m: Mode,
        ctx: &Ctx,
        env: &VEnv,
        sname: u32,
        idx: u32,
        v: &Expr,
        vt: &Value,
    ) -> (r: R<Option<Value>>)
        ensures
            res(r) == proj_value_type(
                self@,
                sem_at(self@, g),
                m,
                ctx@,
                env@,
                sname,
                idx,
                v@,
                vt@,
            ),
        decreases g.total(), 5int, 0int,
    {
        proof {
            reveal(proj_value_type);
        }
        let n = match vt {
            Value::Neutral(n) => n,
            _ => {
                return Ok(None);
            },
        };
        let (head, targs) = unwind_neutral(n);
        assert(targs.len() == targs.deep_view().len());
        let us = match head {
            Neutral::Const(c, us) => {
                if *c != sname {
                    return Ok(None);
                }
                us
            },
            _ => {
                return Ok(None);
            },
        };
        let (num_params, ctor) = match self.env.get(sname) {
            Some(ConstantInfo::InductiveType { num_params, ctors, .. }) => {
                if ctors.len() != 1 {
                    return Ok(None);
                }
                (*num_params, ctors[0])
            },
            _ => {
                return Ok(None);
            },
        };
        match self.env.get(ctor) {
            Some(ConstantInfo::Constructor { level_params, typ, num_fields, .. }) => {
                if idx >= *num_fields {
                    return reject("projection index out of range (nbe)");
                }
                if (targs.len() as u64) < (num_params as u64) {
                    return Ok(None);
                }
                let ct = instantiate_level_params(typ, level_params, us);
                self.field_value_at(g, m, ctx, env, sname, idx, v, vt, &ct, &targs, num_params)
            },
            _ => Ok(None),
        }
    }

    fn infer_proj_value(
        &self,
        g: Budget,
        m: Mode,
        ctx: &Ctx,
        tys: &VEnv,
        env: &VEnv,
        sname: u32,
        idx: u32,
        v: &Expr,
    ) -> (r: R<Value>)
        ensures
            res(r) == infer_proj_value_spec(
                self@,
                sem_at(self@, g),
                m,
                ctx@,
                tys@,
                env@,
                sname,
                idx,
                v@,
            ),
        decreases g.total(), 6int, 0int,
    {
        proof {
            reveal(infer_proj_value_spec);
        }
        let vt = self.infer_value_at(g, m, ctx, tys, env, v)?;
        match self.proj_value_type_at(g, m, ctx, env, sname, idx, v, &vt)? {
            Some(r) => Ok(r),
            None => {
                let t = self.infer_proj_at(g, m, ctx, sname, idx, v)?;
                self.eval_at(g, m, env, &t)
            },
        }
    }

    fn infer_lam_value(
        &self,
        g: Budget,
        m: Mode,
        ctx: &Ctx,
        tys: &VEnv,
        env: &VEnv,
        bi: BinderInfo,
        ty: &Expr,
        body: &Expr,
    ) -> (r: R<Value>)
        ensures
            res(r) == (match infer_body(
                sem_at(self@, g),
                m,
                ctx@,
                tys@,
                env@,
                ty@,
                body@,
            ) {
                Err(x) => Err(x),
                Ok(bt) => if depth_of(env@.len()) == u32::MAX {
                    Err(Fault::Decline("nbe: depth limit"@))
                } else {
                    match (sem_at(self@, g).quote)(
                        m,
                        (depth_of(env@.len()) + 1) as u32,
                        bt,
                    ) {
                        Err(x) => Err(x),
                        Ok(bq) => Ok(Val::Pi(bi, Box::new(Thk::Deferred(env@, ty@)), env@, bq)),
                    }
                },
            }),
        decreases g.total(), 2int, 0int,
    {
        let bt = self.infer_body_at(g, m, ctx, tys, env, ty, body)?;
        let depth: u32 = env_depth(env);
        if depth == u32::MAX {
            return decline("nbe: depth limit");
        }
        let bq = self.quote_at(g, m, depth + 1, &bt)?;
        Ok(Value::Pi(bi, mk_deferred(env, ty), env.copy(), bq))
    }

    /// One judgement of the type of a term as a value.
    pub fn infer_type_value(
        &self,
        g: Budget,
        m: Mode,
        ctx: &Ctx,
        tys: &VEnv,
        env: &VEnv,
        e: &Expr,
    ) -> (r: R<Value>)
        ensures
            res(r) == infer_val_step(
                self@,
                sem_at(self@, g),
                m,
                ctx@,
                tys@,
                env@,
                e@,
            ),
        decreases g.total(), 12int, 0int,
    {
        proof {
            reveal(infer_val_step);
        }
        match e.data() {
            ExprData::BVar(i) => match tys.at(*i) {
                Some(t) => self.force_at(g, m, t),
                None => other("nbe infer: bvar out of range"),
            },
            ExprData::Sort(l) => Ok(Value::Sort(succ(l.clone()))),
            ExprData::Const(n, us) => {
                let t = self.infer_const(*n, us)?;
                self.eval_at(g, m, &VEnv::empty(), &t)
            },
            ExprData::Lit(Lit::Nat(_)) => {
                let t = self.nat_type()?;
                self.eval_at(g, m, &VEnv::empty(), &t)
            },
            ExprData::Lit(Lit::Str(_)) => {
                let t = self.string_type()?;
                self.eval_at(g, m, &VEnv::empty(), &t)
            },
            ExprData::App(f, a) => self.infer_app_value_at(g, m, ctx, tys, env, e, f, a),
            ExprData::Lam(bi, ty, body) => {
                let tt = self.infer_value_at(g, m, ctx, tys, env, ty)?;
                match &tt {
                    Value::Sort(_) => self.infer_lam_value(g, m, ctx, tys, env, *bi, ty, body),
                    _ => self.infer_type_value_fallback(g, m, ctx, env, e),
                }
            },
            ExprData::Pi(_, ty, body) => {
                let tt = self.infer_value_at(g, m, ctx, tys, env, ty)?;
                match tt {
                    Value::Sort(l1) => {
                        let bs = self.infer_body_at(g, m, ctx, tys, env, ty, body)?;
                        match bs {
                            Value::Sort(l2) => Ok(Value::Sort(imax(l1, l2))),
                            _ => self.infer_type_value_fallback(g, m, ctx, env, e),
                        }
                    },
                    _ => self.infer_type_value_fallback(g, m, ctx, env, e),
                }
            },
            ExprData::Let(ty, val, body) => {
                let tt = self.infer_value_at(g, m, ctx, tys, env, ty)?;
                match &tt {
                    Value::Sort(_) => self.infer_let_value_at(g, m, ctx, tys, env, ty, val, body),
                    _ => self.infer_type_value_fallback(g, m, ctx, env, e),
                }
            },
            ExprData::Proj(sname, idx, v) => self.infer_proj_value(
                g,
                m,
                ctx,
                tys,
                env,
                *sname,
                *idx,
                v,
            ),
        }
    }

    fn infer_type_via_nbe(&self, g: Budget, m: Mode, ctx: &Ctx, e: &Expr) -> (r: R<Expr>)
        ensures
            res(r) == infer_by_value(self@, sem_at(self@, g), m, ctx@, e@),
        decreases g.total(), 7int, 0int,
    {
        proof {
            reveal(infer_by_value);
        }
        let q = m.keeping_majors();
        let (tys, env) = scope_values(ctx);
        match self.infer_value_at(g, q, ctx, &tys, &env, e) {
            Ok(tv) => match self.quote_at(g, q, scope_depth(ctx), &tv) {
                Ok(t) => Ok(t),
                Err(_) => self.infer_eager_at(g, q, ctx, e),
            },
            Err(f) => match f {
                TcError::Reject(msg) => Err(TcError::Reject(msg)),
                _ => self.infer_eager_at(g, q, ctx, e),
            },
        }
    }

    pub(crate) fn infer_once(&self, g: Budget, m: Mode, ctx: &Ctx, e: &Expr) -> (r: R<Expr>)
        ensures
            res(r) == infer_step(self@, sem_at(self@, g), m, ctx@, e@),
        decreases g.total(), 8int, 0int,
    {
        proof {
            reveal(infer_step);
        }
        if self.nbe && !m.eager {
            return self.infer_type_via_nbe(g, m, ctx, e);
        }
        self.infer_eager_at(g, m, ctx, e)
    }
}

} // verus!
