//! What evaluation does: what the value of a term has to do with the values of its
//! parts, when two values are the same, and what the type that evaluation gives has
//! to do with the types of the parts.

use crate::conv::defeq_eager;
use crate::env::{find, Info};
use crate::errors::Fault;
use crate::expr::{plug1, subst_params, BinderInfo, LitT, Term};
use crate::infer::{infer_eager, infer_proj_spec, proj_structure};
use crate::iota::{iota_rhs, minor_index, CtorAppT, RecArgsT};
use crate::kernel::{eager_mode, keep_major_mode, K, Mode, Sem};
use crate::level::{univ_value, univs_eq, Univ};
use crate::nbe::{
    apply_spec, argument_fits, check_argument, closures_same, depth_of, dummy_scope, env_vars,
    eval_proj_spec, eval_step, field_value, force, infer_app_value, infer_body, infer_by_value,
    infer_let_value, infer_proj_value_spec, infer_val_step, iota_value_on, iota_value_spec,
    major_value, neu_args, neu_head, neutrals_same, open_body, peel_fields, peel_params,
    proj_value_type, quote_all_spec, quote_from, quote_neutral_spec, quote_rec, quote_step,
    structure_value, thunks_same, types_fit, val_eq_step, value_ctor, CtorVal,
};
use crate::reduce::ensure_pi_spec;
use crate::sameness::same_level;
use crate::typing::{is_product_level, is_reject, shows_pi};
use crate::value::{Neu, Thk, Val};
use vstd::prelude::*;

verus! {

/// The thunk comes to the value.
pub open spec fn forces_to(s: Sem, m: Mode, t: Thk, v: Val) -> bool {
    match t {
        Thk::Deferred(env, e) => (s.eval)(m, env, e) == Ok::<Val, Fault>(v),
        Thk::Forced(x) => *x == v,
    }
}

/// The term has the value.
pub open spec fn has_value(s: Sem, m: Mode, env: Seq<Thk>, e: Term, v: Val) -> bool {
    (s.eval)(m, env, e) == Ok::<Val, Fault>(v)
}

/// Evaluation confirms that the values are the same.
pub open spec fn same_values(s: Sem, m: Mode, depth: u32, a: Val, b: Val) -> bool {
    (s.val_eq)(m, depth, a, b) == Ok::<bool, Fault>(true)
}

/// The values of terms: a variable has that of its place in the environment, the
/// innermost last; a sort and a literal stand for themselves; an abstraction and a
/// function type keep their environment; a local definition has the value of its
/// body where the variable stands for the definition; a definition in sight has
/// that of its value at the levels given, and any other constant stands for
/// itself.
pub proof fn law_values(k: K, s: Sem, m: Mode, env: Seq<Thk>, i: u32, bi: BinderInfo, a: Term, b: Term, c: Term, l: Univ, n: u32, us: Seq<Univ>, x: LitT)
    ensures
        i >= env.len() ==> eval_step(k, s, m, env, Term::BVar(i)) is Err,
        i < env.len() ==> forall|v: Val|
            #![trigger forces_to(s, m, env[env.len() - 1 - i], v)]
            eval_step(k, s, m, env, Term::BVar(i)) == Ok::<Val, Fault>(v) <==> forces_to(
                s,
                m,
                env[env.len() - 1 - i],
                v,
            ),
        eval_step(k, s, m, env, Term::Sort(l)) == Ok::<Val, Fault>(Val::Sort(l)),
        eval_step(k, s, m, env, Term::Lit(x)) == Ok::<Val, Fault>(Val::Lit(x)),
        eval_step(k, s, m, env, Term::Lam(bi, Box::new(a), Box::new(b))) == Ok::<Val, Fault>(
            Val::Lam(bi, Box::new(Thk::Deferred(env, a)), env, b),
        ),
        eval_step(k, s, m, env, Term::Pi(bi, Box::new(a), Box::new(b))) == Ok::<Val, Fault>(
            Val::Pi(bi, Box::new(Thk::Deferred(env, a)), env, b),
        ),
        eval_step(k, s, m, env, Term::Let(Box::new(a), Box::new(b), Box::new(c))) == (s.eval)(
            m,
            env.push(Thk::Deferred(env, b)),
            c,
        ),
        (k.declaring != Some(n) && (find(k.env, n) matches Some(
            Info::Def { level_params, value, .. },
        ) && eval_step(k, s, m, env, Term::Const(n, us)) == (s.eval)(
            m,
            Seq::empty(),
            subst_params(value, level_params, us),
        ))) || ((k.declaring == Some(n) || !(find(k.env, n) matches Some(Info::Def { .. })))
            && eval_step(k, s, m, env, Term::Const(n, us)) == Ok::<Val, Fault>(
            Val::Neutral(Neu::Const(n, us)),
        )),
{
    reveal(eval_step);
}

/// The value of an application: where the function's value is an abstraction, that
/// of its body in its own environment, with the argument, put off, for the
/// variable; where it is stuck, what the recursor at its head computes on the
/// arguments, or else the value applied to the argument.
pub proof fn law_applied_values(k: K, s: Sem, m: Mode, env: Seq<Thk>, f: Term, a: Term, vf: Val)
    requires
        has_value(s, m, env, f, vf),
    ensures
        ({
            let r = eval_step(k, s, m, env, Term::App(Box::new(f), Box::new(a)));
            let arg = Thk::Deferred(env, a);
            match vf {
                Val::Lam(_, _, env2, body) => r == (s.eval)(m, env2.push(arg), body),
                Val::Neutral(n) => {
                    let spine = Neu::App(Box::new(n), Box::new(arg));
                    match iota_value_spec(k, s, m, spine, depth_of(env.len())) {
                        Ok(Some(v)) => r == Ok::<Val, Fault>(v),
                        Ok(None) => r == Ok::<Val, Fault>(Val::Neutral(spine)),
                        Err(x) => r == Err::<Val, Fault>(x),
                    }
                },
                _ => r is Err,
            }
        }),
{
    reveal(eval_step);
    reveal(apply_spec);
}

/// The value of a projection: where the value shows the structure's constructor with
/// the field among its arguments, that of the field; where it is stuck otherwise,
/// the projection of it.
pub proof fn law_projected_values(k: K, s: Sem, m: Mode, env: Seq<Thk>, sname: u32, i: u32, e: Term, n: Neu, v: Val)
    requires
        has_value(s, m, env, e, Val::Neutral(n)),
    ensures
        ({
            let r = eval_step(k, s, m, env, Term::Proj(sname, i, Box::new(e)));
            let shows = neu_head(n) matches Neu::Const(c, _) && (find(k.env, c) matches Some(
                Info::Constructor { num_params, induct, .. },
            ) && induct == sname && num_params + i < neu_args(n).len());
            &&& !shows ==> r == Ok::<Val, Fault>(Val::Neutral(Neu::Proj(sname, i, Box::new(n))))
            &&& (neu_head(n) matches Neu::Const(c, _) && (find(k.env, c) matches Some(
                Info::Constructor { num_params, induct, .. },
            ) && induct == sname && num_params + i < neu_args(n).len() && forces_to(
                s,
                m,
                neu_args(n)[num_params + i],
                v,
            ))) ==> r == Ok::<Val, Fault>(v)
        }),
{
    reveal(eval_step);
}

/// Terms read back from values: a variable at its level becomes the index that
/// counts back from the depth; a constant, an application and a projection become
/// what their parts do; an abstraction and a function type have their domain read
/// back, and their body on a variable of its own, one level deeper.
pub proof fn law_read_back(s: Sem, m: Mode, depth: u32, n: Neu, a: Thk, av: Val, aq: Term, nq: Term, l: u32, c: u32, us: Seq<Univ>, sname: u32, i: u32)
    ensures
        l < depth ==> quote_step(s, m, depth, Val::Neutral(Neu::Var(l))) == Ok::<Term, Fault>(
            Term::BVar((depth - 1 - l) as u32),
        ),
        l >= depth ==> quote_step(s, m, depth, Val::Neutral(Neu::Var(l))) is Err,
        quote_step(s, m, depth, Val::Neutral(Neu::Const(c, us))) == Ok::<Term, Fault>(
            Term::Const(c, us),
        ),
        quote_step(s, m, depth, Val::Neutral(n)) == Ok::<Term, Fault>(nq) ==> {
            &&& quote_step(s, m, depth, Val::Neutral(Neu::Proj(sname, i, Box::new(n)))) == Ok::<
                Term,
                Fault,
            >(Term::Proj(sname, i, Box::new(nq)))
            &&& forces_to(s, m, a, av) && (s.quote)(m, depth, av) == Ok::<Term, Fault>(aq)
                ==> quote_step(s, m, depth, Val::Neutral(Neu::App(Box::new(n), Box::new(a))))
                == Ok::<Term, Fault>(Term::App(Box::new(nq), Box::new(aq)))
        },
{
    reveal(quote_step);
    reveal_with_fuel(quote_neutral_spec, 2);
}

/// The body of an abstraction on a variable of its own has the value.
pub open spec fn opens_to(s: Sem, m: Mode, depth: u32, env: Seq<Thk>, body: Term, v: Val) -> bool {
    depth < u32::MAX && has_value(
        s,
        m,
        env.push(Thk::Forced(Box::new(Val::Neutral(Neu::Var(depth))))),
        body,
        v,
    )
}

/// Abstractions and function types read back: the domain as it stands, the body on
/// a variable of its own, one level deeper.
pub proof fn law_read_back_binder(
    s: Sem,
    m: Mode,
    depth: u32,
    bi: BinderInfo,
    dom: Thk,
    env: Seq<Thk>,
    body: Term,
    dv: Val,
    d: Term,
    bv: Val,
    b: Term,
)
    requires
        forces_to(s, m, dom, dv),
        (s.quote)(m, depth, dv) == Ok::<Term, Fault>(d),
        opens_to(s, m, depth, env, body, bv),
        (s.quote)(m, (depth + 1) as u32, bv) == Ok::<Term, Fault>(b),
    ensures
        quote_step(s, m, depth, Val::Lam(bi, Box::new(dom), env, body)) == Ok::<Term, Fault>(
            Term::Lam(bi, Box::new(d), Box::new(b)),
        ),
        quote_step(s, m, depth, Val::Pi(bi, Box::new(dom), env, body)) == Ok::<Term, Fault>(
            Term::Pi(bi, Box::new(d), Box::new(b)),
        ),
{
    reveal(quote_step);
}

/// The thunks come to values that are the same.
pub open spec fn same_thunks(s: Sem, m: Mode, depth: u32, a: Thk, b: Thk) -> bool {
    exists|x: Val, y: Val|
        forces_to(s, m, a, x) && forces_to(s, m, b, y) && #[trigger] same_values(s, m, depth, x, y)
}

/// The stuck values are the same: one variable; one constant at levels that agree;
/// applications of stuck values that are the same to arguments that are; or
/// projections of one field of stuck values that are the same.
pub open spec fn same_stuck(s: Sem, m: Mode, depth: u32, a: Neu, b: Neu) -> bool
    decreases a,
{
    match (a, b) {
        (Neu::Var(x), Neu::Var(y)) => x == y,
        (Neu::Const(c, us), Neu::Const(c2, us2)) => c == c2 && univs_eq(us, us2),
        (Neu::App(f, x), Neu::App(f2, x2)) => same_stuck(s, m, depth, *f, *f2) && same_thunks(
            s,
            m,
            depth,
            *x,
            *x2,
        ),
        (Neu::Proj(n, i, v), Neu::Proj(n2, i2, v2)) => n == n2 && i == i2 && same_stuck(
            s,
            m,
            depth,
            *v,
            *v2,
        ),
        _ => false,
    }
}

proof fn lemma_same_thunks(s: Sem, m: Mode, depth: u32, a: Thk, b: Thk)
    ensures
        thunks_same(s, m, depth, a, b) == Ok::<bool, Fault>(true) <==> same_thunks(
            s,
            m,
            depth,
            a,
            b,
        ),
{
    if thunks_same(s, m, depth, a, b) == Ok::<bool, Fault>(true) {
        let x = force(s, m, a)->Ok_0;
        let y = force(s, m, b)->Ok_0;
        assert(forces_to(s, m, a, x) && forces_to(s, m, b, y) && same_values(s, m, depth, x, y));
    }
}

proof fn lemma_same_stuck(s: Sem, m: Mode, depth: u32, a: Neu, b: Neu)
    ensures
        neutrals_same(s, m, depth, a, b) == Ok::<bool, Fault>(true) <==> same_stuck(
            s,
            m,
            depth,
            a,
            b,
        ),
    decreases a,
{
    match (a, b) {
        (Neu::App(f, x), Neu::App(f2, x2)) => {
            lemma_same_stuck(s, m, depth, *f, *f2);
            lemma_same_thunks(s, m, depth, *x, *x2);
        },
        (Neu::Proj(_, _, v), Neu::Proj(_, _, v2)) => lemma_same_stuck(s, m, depth, *v, *v2),
        _ => {},
    }
}

/// The abstractions have domains that are the same, and bodies that are on one fresh
/// variable.
pub open spec fn same_closures(
    s: Sem,
    m: Mode,
    depth: u32,
    d1: Thk,
    e1: Seq<Thk>,
    b1: Term,
    d2: Thk,
    e2: Seq<Thk>,
    b2: Term,
) -> bool {
    same_thunks(s, m, depth, d1, d2) && exists|x: Val, y: Val|
        opens_to(s, m, depth, e1, b1, x) && opens_to(s, m, depth, e2, b2, y)
            && #[trigger] same_values(s, m, (depth + 1) as u32, x, y)
}

proof fn lemma_same_closures(
    s: Sem,
    m: Mode,
    depth: u32,
    d1: Thk,
    e1: Seq<Thk>,
    b1: Term,
    d2: Thk,
    e2: Seq<Thk>,
    b2: Term,
)
    ensures
        closures_same(s, m, depth, d1, e1, b1, d2, e2, b2) == Ok::<bool, Fault>(true)
            <==> same_closures(s, m, depth, d1, e1, b1, d2, e2, b2),
{
    lemma_same_thunks(s, m, depth, d1, d2);
    if closures_same(s, m, depth, d1, e1, b1, d2, e2, b2) == Ok::<bool, Fault>(true) {
        let x = open_body(s, m, depth, e1, b1)->Ok_0;
        let y = open_body(s, m, depth, e2, b2)->Ok_0;
        assert(opens_to(s, m, depth, e1, b1, x) && opens_to(s, m, depth, e2, b2, y) && same_values(
            s,
            m,
            (depth + 1) as u32,
            x,
            y,
        ));
    }
}

/// Two values are confirmed to be the same exactly where they are sorts of one
/// level, one literal, stuck values that are the same, or two function types or two
/// abstractions with domains that are the same and bodies that are on one fresh
/// variable.
pub proof fn law_same_values(s: Sem, m: Mode, depth: u32, a: Val, b: Val)
    ensures
        val_eq_step(s, m, depth, a, b) == Ok::<bool, Fault>(true) <==> (match (a, b) {
            (Val::Sort(x), Val::Sort(y)) => same_level(x, y),
            (Val::Lit(x), Val::Lit(y)) => x == y,
            (Val::Neutral(x), Val::Neutral(y)) => same_stuck(s, m, depth, x, y),
            (Val::Pi(_, d1, e1, b1), Val::Pi(_, d2, e2, b2)) => same_closures(
                s,
                m,
                depth,
                *d1,
                e1,
                b1,
                *d2,
                e2,
                b2,
            ),
            (Val::Lam(_, d1, e1, b1), Val::Lam(_, d2, e2, b2)) => same_closures(
                s,
                m,
                depth,
                *d1,
                e1,
                b1,
                *d2,
                e2,
                b2,
            ),
            _ => false,
        }),
{
    reveal(val_eq_step);
    match (a, b) {
        (Val::Neutral(x), Val::Neutral(y)) => lemma_same_stuck(s, m, depth, x, y),
        (Val::Pi(_, d1, e1, b1), Val::Pi(_, d2, e2, b2)) => {
            lemma_same_closures(s, m, depth, *d1, e1, b1, *d2, e2, b2);
        },
        (Val::Lam(_, d1, e1, b1), Val::Lam(_, d2, e2, b2)) => {
            lemma_same_closures(s, m, depth, *d1, e1, b1, *d2, e2, b2);
        },
        _ => {},
    }
}

/// Evaluation gives the term the value for its type.
pub open spec fn has_type_value(
    s: Sem,
    m: Mode,
    ctx: Seq<Term>,
    tys: Seq<Thk>,
    env: Seq<Thk>,
    e: Term,
    t: Val,
) -> bool {
    (s.infer_val)(m, ctx, tys, env, e) == Ok::<Val, Fault>(t)
}

/// The body of a binder over the type has the value for its type, in the scope, the
/// types and the environment that the binder extends.
pub open spec fn body_has_type_value(
    s: Sem,
    m: Mode,
    ctx: Seq<Term>,
    tys: Seq<Thk>,
    env: Seq<Thk>,
    d: Term,
    b: Term,
    t: Val,
) -> bool {
    has_type_value(
        s,
        m,
        ctx.push(d),
        tys.push(Thk::Deferred(env, d)),
        env.push(Thk::Forced(Box::new(Val::Neutral(Neu::Var(depth_of(env.len())))))),
        b,
        t,
    )
}

/// The value is that of the type that substitution finds for the term.
pub open spec fn by_substitution(k: K, s: Sem, m: Mode, ctx: Seq<Term>, env: Seq<Thk>, e: Term, v: Val) -> bool {
    infer_eager(k, s, m, ctx, e) matches Ok(t) && has_value(s, m, env, t, v)
}

/// The type of a function type, as a value: where the types of domain and codomain
/// are sorts, a sort of the level of the products from one into the other; else
/// what substitution finds.
pub proof fn law_product_type_value(
    k: K,
    s: Sem,
    m: Mode,
    ctx: Seq<Term>,
    tys: Seq<Thk>,
    env: Seq<Thk>,
    bi: BinderInfo,
    d: Term,
    b: Term,
    v: Val,
)
    requires
        infer_val_step(
            k,
            s,
            m,
            ctx,
            tys,
            env,
            Term::Pi(bi, Box::new(d), Box::new(b)),
        ) == Ok::<Val, Fault>(v),
    ensures
        (v matches Val::Sort(l) && exists|x: Univ, y: Univ|
            has_type_value(s, m, ctx, tys, env, d, Val::Sort(x)) && body_has_type_value(
                s,
                m,
                ctx,
                tys,
                env,
                d,
                b,
                Val::Sort(y),
            ) && #[trigger] is_product_level(l, x, y)) || by_substitution(
            k,
            s,
            m,
            ctx,
            env,
            Term::Pi(bi, Box::new(d), Box::new(b)),
            v,
        ),
{
    reveal(infer_val_step);
    match (s.infer_val)(m, ctx, tys, env, d) {
        Ok(Val::Sort(x)) => match infer_body(s, m, ctx, tys, env, d, b) {
            Ok(Val::Sort(y)) => {
                assert(is_product_level(v->Sort_0, x, y));
            },
            _ => {},
        },
        _ => {},
    }
}

/// The type of a function, as a value: where its domain's type is a sort, the
/// function type over the domain, in the same environment, into the type of the
/// body read back one level deeper; else what substitution finds.
pub proof fn law_function_type_value(
    k: K,
    s: Sem,
    m: Mode,
    ctx: Seq<Term>,
    tys: Seq<Thk>,
    env: Seq<Thk>,
    bi: BinderInfo,
    d: Term,
    b: Term,
    v: Val,
)
    requires
        infer_val_step(
            k,
            s,
            m,
            ctx,
            tys,
            env,
            Term::Lam(bi, Box::new(d), Box::new(b)),
        ) == Ok::<Val, Fault>(v),
    ensures
        (v matches Val::Pi(bi2, dom, env2, body) && bi2 == bi && *dom == Thk::Deferred(env, d)
            && env2 == env && (exists|l: Univ|
            #[trigger] has_type_value(s, m, ctx, tys, env, d, Val::Sort(l))) && exists|bt: Val|
            #[trigger] body_has_type_value(s, m, ctx, tys, env, d, b, bt) && (s.quote)(
                m,
                (depth_of(env.len()) + 1) as u32,
                bt,
            ) == Ok::<Term, Fault>(body)) || by_substitution(
            k,
            s,
            m,
            ctx,
            env,
            Term::Lam(bi, Box::new(d), Box::new(b)),
            v,
        ),
{
    reveal(infer_val_step);
    match (s.infer_val)(m, ctx, tys, env, d) {
        Ok(Val::Sort(l)) => {
            assert(has_type_value(s, m, ctx, tys, env, d, Val::Sort(l)));
            match infer_body(s, m, ctx, tys, env, d, b) {
                Ok(bt) => {
                    assert(body_has_type_value(s, m, ctx, tys, env, d, b, bt));
                },
                Err(_) => {},
            }
        },
        _ => {},
    }
}

/// The values of two types are the same, or what they are read back as is, by
/// reduction.
pub open spec fn fits(k: K, s: Sem, m: Mode, ctx: Seq<Term>, depth: u32, got: Val, want: Val) -> bool {
    same_values(s, m, depth, got, want) || exists|a: Term, b: Term|
        (s.quote)(m, depth, got) == Ok::<Term, Fault>(a) && (s.quote)(m, depth, want) == Ok::<
            Term,
            Fault,
        >(b) && #[trigger] defeq_eager(k, s, eager_mode(m), ctx, a, b) == Ok::<bool, Fault>(true)
}

proof fn lemma_fits(k: K, s: Sem, m: Mode, ctx: Seq<Term>, depth: u32, got: Val, want: Val)
    requires
        types_fit(k, s, m, ctx, depth, got, want) == Ok::<bool, Fault>(true),
    ensures
        fits(k, s, m, ctx, depth, got, want),
{
    reveal(types_fit);
    if !same_values(s, m, depth, got, want) {
        let a = (s.quote)(m, depth, got)->Ok_0;
        let b = (s.quote)(m, depth, want)->Ok_0;
        assert(defeq_eager(k, s, eager_mode(m), ctx, a, b) == Ok::<bool, Fault>(true));
    }
}

/// By reduction alone, the argument's type is the same as the domain of the
/// function's.
pub open spec fn fits_by_reduction(k: K, s: Sem, m: Mode, ctx: Seq<Term>, f: Term, a: Term) -> bool {
    let q = eager_mode(m);
    exists|ft: Term, at: Term, bi: BinderInfo, d: Term, b: Term|
        infer_eager(k, s, q, ctx, f) == Ok::<Term, Fault>(ft) && #[trigger] shows_pi(
            k,
            s,
            q,
            ctx,
            ft,
            bi,
            d,
            b,
        ) && infer_eager(k, s, q, ctx, a) == Ok::<Term, Fault>(at) && #[trigger] defeq_eager(
            k,
            s,
            q,
            ctx,
            at,
            d,
        ) == Ok::<bool, Fault>(true)
}

/// The type of an application, as a value: where the function's is a function type,
/// that of its codomain at the value of the argument; else what substitution finds.
/// The argument's type fits the domain, by the values, by reduction of what they
/// are read back as, or by reduction alone, unless arguments are taken for granted.
pub proof fn law_application_type_value(
    k: K,
    s: Sem,
    m: Mode,
    ctx: Seq<Term>,
    tys: Seq<Thk>,
    env: Seq<Thk>,
    f: Term,
    a: Term,
    v: Val,
)
    requires
        infer_val_step(k, s, m, ctx, tys, env, Term::App(Box::new(f), Box::new(a))) == Ok::<
            Val,
            Fault,
        >(v),
    ensures
        by_substitution(k, s, m, ctx, env, Term::App(Box::new(f), Box::new(a)), v) || ((s.infer_val)(
            m,
            ctx,
            tys,
            env,
            f,
        ) matches Ok(Val::Pi(_, dom, penv, pbody)) && (exists|av: Val| #[trigger]
            has_value(s, m, env, a, av) && has_value(
                s,
                m,
                penv.push(Thk::Forced(Box::new(av))),
                pbody,
                v,
            )) && (m.infer_only || fits_by_reduction(k, s, m, ctx, f, a) || exists|at: Val, d: Val|
            has_type_value(s, m, ctx, tys, env, a, at) && forces_to(s, m, *dom, d)
                && #[trigger] fits(k, s, m, ctx, depth_of(env.len()), at, d))),
{
    reveal(infer_val_step);
    reveal(infer_app_value);
    match (s.infer_val)(m, ctx, tys, env, f) {
        Ok(Val::Pi(_, dom, penv, pbody)) => {
            let d = force(s, m, *dom)->Ok_0;
            let av = (s.eval)(m, env, a)->Ok_0;
            assert(has_value(s, m, env, a, av));
            assert(forces_to(s, m, *dom, d));
            if !m.infer_only {
                reveal(check_argument);
                let at = (s.infer_val)(m, ctx, tys, env, a)->Ok_0;
                assert(has_type_value(s, m, ctx, tys, env, a, at));
                if types_fit(k, s, m, ctx, depth_of(env.len()), at, d) == Ok::<bool, Fault>(true) {
                    lemma_fits(k, s, m, ctx, depth_of(env.len()), at, d);
                } else {
                    reveal(argument_fits);
                    let q = eager_mode(m);
                    let ft = infer_eager(k, s, q, ctx, f)->Ok_0;
                    let (bi, x, b) = ensure_pi_spec(k, s, q, ctx, ft)->Ok_0;
                    crate::typing::law_showing(k, s, q, ctx, ft, ft);
                    let et = infer_eager(k, s, q, ctx, a)->Ok_0;
                    assert(shows_pi(k, s, q, ctx, ft, bi, x, b));
                    assert(defeq_eager(k, s, q, ctx, et, x) == Ok::<bool, Fault>(true));
                }
            }
        },
        _ => {},
    }
}

/// The types of the other terms, as values: a variable has that of its place among
/// the types, a sort the next sort, a local definition that of its body with the
/// definition put in, whose type must be a sort and whose value's type must fit.
pub proof fn law_other_type_values(
    k: K,
    s: Sem,
    m: Mode,
    ctx: Seq<Term>,
    tys: Seq<Thk>,
    env: Seq<Thk>,
    i: u32,
    l: Univ,
    ty: Term,
    val: Term,
    body: Term,
    v: Val,
)
    ensures
        i >= tys.len() ==> infer_val_step(k, s, m, ctx, tys, env, Term::BVar(i)) is Err,
        i < tys.len() ==> (infer_val_step(k, s, m, ctx, tys, env, Term::BVar(i)) == Ok::<
            Val,
            Fault,
        >(v) <==> forces_to(s, m, tys[tys.len() - 1 - i], v)),
        infer_val_step(k, s, m, ctx, tys, env, Term::Sort(l)) matches Ok(Val::Sort(up)) && forall|
            rho: spec_fn(u32) -> nat,
        | #[trigger] univ_value(up, rho) == univ_value(l, rho) + 1,
        ({
            let e = Term::Let(Box::new(ty), Box::new(val), Box::new(body));
            infer_val_step(k, s, m, ctx, tys, env, e) == Ok::<Val, Fault>(v) ==> by_substitution(
                k,
                s,
                m,
                ctx,
                env,
                e,
                v,
            ) || (has_type_value(s, m, ctx, tys, env, plug1(body, val), v) && (exists|x: Univ|
                #[trigger] has_type_value(s, m, ctx, tys, env, ty, Val::Sort(x))) && exists|
                d: Val,
                vt: Val,
            |
                has_value(s, m, env, ty, d) && has_type_value(s, m, ctx, tys, env, val, vt)
                    && #[trigger] fits(k, s, m, ctx, depth_of(env.len()), vt, d))
        }),
{
    reveal(infer_val_step);
    let e = Term::Let(Box::new(ty), Box::new(val), Box::new(body));
    if infer_val_step(k, s, m, ctx, tys, env, e) == Ok::<Val, Fault>(v) {
        match (s.infer_val)(m, ctx, tys, env, ty) {
            Ok(Val::Sort(x)) => {
                reveal(infer_let_value);
                assert(has_type_value(s, m, ctx, tys, env, ty, Val::Sort(x)));
                let d = (s.eval)(m, env, ty)->Ok_0;
                let vt = (s.infer_val)(m, ctx, tys, env, val)->Ok_0;
                lemma_fits(k, s, m, ctx, depth_of(env.len()), vt, d);
                assert(has_value(s, m, env, ty, d));
            },
            _ => {},
        }
    }
}

/// Inference by evaluation gives the type value of the term in the scope in which
/// each variable stands for itself, read back, or what substitution finds where
/// evaluation does not come through; it rejects what evaluation rejects.
pub proof fn law_inference_by_value(k: K, s: Sem, m: Mode, ctx: Seq<Term>, e: Term)
    ensures
        ({
            let q = keep_major_mode(m);
            let tys = Seq::new(ctx.len(), |i: int| Thk::Deferred(env_vars(i as nat), ctx[i]));
            let r = (s.infer_val)(q, ctx, tys, env_vars(ctx.len()), e);
            &&& infer_by_value(k, s, m, ctx, e) matches Ok(t) ==> infer_eager(k, s, q, ctx, e)
                == Ok::<Term, Fault>(t) || (r matches Ok(v) && (s.quote)(
                q,
                depth_of(ctx.len()),
                v,
            ) == Ok::<Term, Fault>(t))
            &&& is_reject(r) ==> is_reject(infer_by_value(k, s, m, ctx, e))
            &&& (r matches Ok(v) && (s.quote)(q, depth_of(ctx.len()), v) is Ok)
                ==> infer_by_value(k, s, m, ctx, e) == (s.quote)(q, depth_of(ctx.len()), r->Ok_0)
        }),
{
    reveal(infer_by_value);
    assert(crate::nbe::scope_types(ctx) =~= Seq::new(
        ctx.len(),
        |i: int| Thk::Deferred(env_vars(i as nat), ctx[i]),
    ));
}

/// The environment in which each variable stands for itself.
pub proof fn law_own_variables(n: nat, i: int)
    requires
        0 <= i < n < 0x1_0000_0000,
    ensures
        env_vars(n).len() == n,
        env_vars(n)[i] == Thk::Forced(Box::new(Val::Neutral(Neu::Var(i as u32)))),
{
}

/// The term, read back, of each thunk.
pub open spec fn reads_all(s: Sem, m: Mode, depth: u32, ts: Seq<Thk>, es: Seq<Term>) -> bool {
    ts.len() == es.len() && forall|i: int|
        0 <= i < ts.len() ==> #[trigger] reads(s, m, depth, ts[i], es[i])
}

/// The thunk's value is read back as the term.
pub open spec fn reads(s: Sem, m: Mode, depth: u32, t: Thk, e: Term) -> bool {
    exists|v: Val|
        #![trigger forces_to(s, m, t, v)]
        forces_to(s, m, t, v) && (s.quote)(m, depth, v) == Ok::<Term, Fault>(e)
}

proof fn lemma_reads_all(s: Sem, m: Mode, depth: u32, ts: Seq<Thk>, i: nat, acc: Seq<Term>, es: Seq<Term>)
    requires
        i == acc.len(),
        i <= ts.len(),
        quote_from(s, m, depth, ts, i, acc) == Ok::<Seq<Term>, Fault>(es),
        forall|j: int| 0 <= j < i ==> #[trigger] reads(s, m, depth, ts[j], acc[j]),
    ensures
        reads_all(s, m, depth, ts, es),
    decreases ts.len() - i,
{
    if i < ts.len() {
        let v = force(s, m, ts[i as int])->Ok_0;
        let t = (s.quote)(m, depth, v)->Ok_0;
        assert(forces_to(s, m, ts[i as int], v));
        assert(reads(s, m, depth, ts[i as int], t));
        assert forall|j: int| 0 <= j < i + 1 implies #[trigger] reads(
            s,
            m,
            depth,
            ts[j],
            acc.push(t)[j],
        ) by {
            if j < i {
                assert(reads(s, m, depth, ts[j], acc[j]));
            }
        }
        lemma_reads_all(s, m, depth, ts, i + 1, acc.push(t), es);
    }
}

/// What a recursor computes on values: with exactly its arguments, the last of which
/// shows a constructor with all its own arguments, it is what its rule gives on the
/// terms that all of them are read back as, evaluated.
pub open spec fn computes_value(
    k: K,
    s: Sem,
    m: Mode,
    depth: u32,
    rname: u32,
    us: Seq<Univ>,
    args: Seq<Thk>,
    mv: Val,
    c: CtorVal,
    ra: RecArgsT,
    fields: Seq<Term>,
    cps: Seq<Term>,
    v: Val,
) -> bool {
    find(k.env, rname) matches Some(
        Info::Recursor { all, num_params, num_motives, num_minors, num_indices, ctors, .. },
    ) && {
        let p2 = num_params + num_motives;
        let p3 = p2 + num_minors;
        let at = p3 + num_indices;
        let cp = c.num_params as int;
        let ca = CtorAppT {
            ctor: c.ctor,
            num_params: c.num_params,
            args: cps + fields,
            levels: c.levels,
        };
        let i = minor_index(k, rname, us, ra.params, c.ctor, ca.args.take(cp), all);
        &&& args.len() == at + 1
        &&& major_value(k, s, m, rname, args[at], depth) == Ok::<Val, Fault>(mv)
        &&& value_ctor(k, all, ctors, mv) == Some(c)
        &&& ra.rname == rname && ra.us == us && ra.all == all
        &&& reads_all(s, m, depth, args.take(num_params as int), ra.params)
        &&& reads_all(s, m, depth, args.subrange(num_params as int, p2), ra.motives)
        &&& reads_all(s, m, depth, args.subrange(p2, p3), ra.minors)
        &&& reads_all(s, m, depth, c.args.take(cp), cps)
        &&& reads_all(s, m, depth, c.args.skip(cp), fields)
        &&& i < ra.minors.len()
        &&& iota_rhs(k, s, m, dummy_scope(depth), ra, ca, ra.minors[i as int]) matches Ok(rhs)
        &&& has_value(s, m, env_vars(depth as nat), rhs, v)
    }
}

/// Whatever a recursor computes on values is what its rule gives on what they are
/// read back as, evaluated.
pub proof fn law_iota_value(
    k: K,
    s: Sem,
    m: Mode,
    spine: Neu,
    depth: u32,
    v: Val,
)
    requires
        iota_value_spec(k, s, m, spine, depth) == Ok::<Option<Val>, Fault>(Some(v)),
    ensures
        neu_head(spine) matches Neu::Const(rname, us) && exists|
            mv: Val,
            c: CtorVal,
            ra: RecArgsT,
            fields: Seq<Term>,
            cps: Seq<Term>,
        | #[trigger]
            computes_value(
                k,
                s,
                m,
                depth,
                rname,
                us,
                neu_args(spine),
                mv,
                c,
                ra,
                fields,
                cps,
                v,
            ),
{
    reveal(iota_value_spec);
    reveal(quote_rec);
    reveal(iota_value_on);
    match neu_head(spine) {
        Neu::Const(rname, us) => match find(k.env, rname) {
            Some(
                Info::Recursor { all, num_params, num_motives, num_minors, num_indices, ctors, .. },
            ) => {
                let sh = crate::iota::RecShape { num_params, num_motives, num_minors, num_indices };
                let args = neu_args(spine);
                let p1 = num_params as int;
                let p2 = p1 + num_motives;
                let p3 = p2 + num_minors;
                let at = crate::iota::major_at(sh);
                let mv = major_value(k, s, m, rname, args[at], depth)->Ok_0;
                let c = value_ctor(k, all, ctors, mv).unwrap();
                let cp = c.num_params as int;
                let q = quote_rec(s, m, depth, rname, us, all, sh, args, c)->Ok_0;
                let none = Seq::<Term>::empty();
                let params = quote_all_spec(s, m, depth, args.subrange(0, p1))->Ok_0;
                let cps = quote_all_spec(s, m, depth, c.args.subrange(0, cp))->Ok_0;
                let motives = quote_all_spec(s, m, depth, args.subrange(p1, p2))->Ok_0;
                let minors = quote_all_spec(s, m, depth, args.subrange(p2, p3))->Ok_0;
                let fields = quote_all_spec(
                    s,
                    m,
                    depth,
                    c.args.subrange(cp, c.args.len() as int),
                )->Ok_0;
                lemma_reads_all(s, m, depth, args.subrange(0, p1), 0, none, params);
                lemma_reads_all(s, m, depth, c.args.subrange(0, cp), 0, none, cps);
                lemma_reads_all(s, m, depth, args.subrange(p1, p2), 0, none, motives);
                lemma_reads_all(s, m, depth, args.subrange(p2, p3), 0, none, minors);
                lemma_reads_all(
                    s,
                    m,
                    depth,
                    c.args.subrange(cp, c.args.len() as int),
                    0,
                    none,
                    fields,
                );
                assert(args.subrange(0, p1) =~= args.take(p1));
                assert(c.args.subrange(0, cp) =~= c.args.take(cp));
                assert(c.args.subrange(cp, c.args.len() as int) =~= c.args.skip(cp));
                assert(computes_value(
                    k,
                    s,
                    m,
                    depth,
                    rname,
                    us,
                    args,
                    mv,
                    c,
                    q.ra,
                    fields,
                    cps,
                    v,
                ));
            },
            _ => {},
        },
        _ => {},
    }
}

/// The constructor that a value shows: one that the recursor takes, with all its
/// arguments, or the one that a numeral is built with.
pub proof fn law_shown_value(k: K, all: Seq<u32>, ctors: Seq<u32>, v: Val, c: CtorVal)
    requires
        value_ctor(k, all, ctors, v) == Some(c),
    ensures
        (v matches Val::Neutral(n) && (neu_head(n) matches Neu::Const(x, us) && x == c.ctor
            && c.levels == Some(us) && c.args == neu_args(n) && (find(k.env, x) matches Some(
            Info::Constructor { induct, num_params, num_fields, .. },
        ) && c.num_params == num_params && c.args.len() == num_params + num_fields && (all.contains(
            induct,
        ) || ctors.contains(x))))) || (v matches Val::Lit(LitT::Nat(n)) && c.num_params == 0 && (
        k.nat_ref matches Some(t) && (find(k.env, t) matches Some(
            Info::InductiveType { ctors: cs, .. },
        ) && cs.len() == 2 && (if n == 0 {
            c.ctor == cs[0] && c.args.len() == 0
        } else {
            c.ctor == cs[1] && c.args == seq![
                Thk::Forced(Box::new(Val::Lit(LitT::Nat((n - 1) as nat)))),
            ]
        })))),
{
}

/// The term behind as many function types as it shows.
pub open spec fn behind_pis(t: Term, n: nat) -> Option<Term>
    decreases n,
{
    if n == 0 {
        Some(t)
    } else {
        match t {
            Term::Pi(_, _, b) => behind_pis(*b, (n - 1) as nat),
            _ => None,
        }
    }
}

proof fn lemma_behind_pis(t: Term, n: nat, u: Term, i: nat)
    requires
        behind_pis(t, n) == Some(u),
    ensures
        behind_pis(t, n + i) == behind_pis(u, i),
    decreases n,
{
    if n > 0 {
        match t {
            Term::Pi(_, _, b) => {
                lemma_behind_pis(*b, (n - 1) as nat, u, i);
                assert((n + i - 1) as nat == (n - 1) + i);
            },
            _ => {},
        }
    }
}

proof fn lemma_peel_params(
    s: Sem,
    m: Mode,
    t: Term,
    targs: Seq<Thk>,
    i: nat,
    n: nat,
    env: Seq<Thk>,
    u: Term,
    env2: Seq<Thk>,
)
    requires
        i == env.len() <= n,
        peel_params(s, m, t, targs, i, n, env) == Ok::<Option<(Term, Seq<Thk>)>, Fault>(
            Some((u, env2)),
        ),
    ensures
        behind_pis(t, (n - i) as nat) == Some(u),
        env2.len() == n,
        env2.take(i as int) == env,
        forall|j: int| i <= j < n ==> is_forced(s, m, targs[j], #[trigger] env2[j]),
    decreases n - i,
{
    if i < n {
        match t {
            Term::Pi(_, _, b) => {
                let v = force(s, m, targs[i as int])->Ok_0;
                let env1 = env.push(Thk::Forced(Box::new(v)));
                lemma_peel_params(s, m, *b, targs, i + 1, n, env1, u, env2);
                assert(env2[i as int] == env2.take((i + 1) as int)[i as int]);
                assert(env2.take(i as int) =~= env2.take((i + 1) as int).take(i as int));
                assert(env1.take(i as int) =~= env);
                assert(((n - i) as nat - 1) as nat == (n - (i + 1)) as nat);
            },
            _ => {},
        }
    } else {
        assert(env2.take(i as int) =~= env);
    }
}

/// The second thunk holds what the first comes to.
pub open spec fn is_forced(s: Sem, m: Mode, t: Thk, r: Thk) -> bool {
    r matches Thk::Forced(v) && forces_to(s, m, t, *v)
}

/// The thunk holds the field of the value.
pub open spec fn is_field_of(k: K, s: Sem, m: Mode, sname: u32, i: u32, v: Val, r: Thk) -> bool {
    r matches Thk::Forced(p) && eval_proj_spec(k, s, m, sname, i, v) == Ok::<Val, Fault>(*p)
}

proof fn lemma_peel_fields(
    k: K,
    s: Sem,
    m: Mode,
    t: Term,
    sname: u32,
    v: Val,
    i: u32,
    n: u32,
    env: Seq<Thk>,
    base: nat,
    u: Term,
    env2: Seq<Thk>,
)
    requires
        i <= n,
        env.len() == base + i,
        peel_fields(k, s, m, t, sname, v, i, n, env) == Ok::<Option<(Term, Seq<Thk>)>, Fault>(
            Some((u, env2)),
        ),
    ensures
        behind_pis(t, (n - i) as nat) == Some(u),
        env2.len() == base + n,
        env2.take(env.len() as int) == env,
        forall|j: int|
            base + i <= j < base + n ==> is_field_of(
                k,
                s,
                m,
                sname,
                (j - base) as u32,
                v,
                #[trigger] env2[j],
            ),
    decreases n - i,
{
    let e = env.len() as int;
    if i < n {
        match t {
            Term::Pi(_, _, b) => {
                let p = eval_proj_spec(k, s, m, sname, i, v)->Ok_0;
                let env1 = env.push(Thk::Forced(Box::new(p)));
                lemma_peel_fields(k, s, m, *b, sname, v, (i + 1) as u32, n, env1, base, u, env2);
                assert(env2[e] == env2.take(e + 1)[e]);
                assert(env2.take(e) =~= env2.take(e + 1).take(e));
                assert(env1.take(e) =~= env);
                assert(((n - i) as nat - 1) as nat == (n - (i + 1)) as nat);
            },
            _ => {},
        }
    } else {
        assert(env2.take(e) =~= env);
    }
}

/// The value is that of the field's type: the domain of the constructor's type
/// behind the parameters and the fields before it, where the parameters stand for
/// the arguments of the structure's type and the fields before it for those of the
/// structure's value.
pub open spec fn is_field_type_value(
    k: K,
    s: Sem,
    m: Mode,
    sname: u32,
    idx: u32,
    np: u32,
    ctor_typ: Term,
    targs: Seq<Thk>,
    vv: Val,
    scope: Seq<Thk>,
    dom: Term,
    r: Val,
) -> bool {
    &&& (behind_pis(ctor_typ, (np + idx) as nat) matches Some(Term::Pi(_, d, _)) && *d == dom)
    &&& scope.len() == np + idx
    &&& forall|i: int| 0 <= i < np ==> is_forced(s, m, targs[i], #[trigger] scope[i])
    &&& forall|j: int|
        np <= j < np + idx ==> is_field_of(
            k,
            s,
            m,
            sname,
            (j - np) as u32,
            vv,
            #[trigger] scope[j],
        )
    &&& has_value(s, m, scope, dom, r)
}

/// The type of a projection as a value: that of the field, at the structure that
/// the value's type shows, where that type is judged no proposition; else what
/// inference gives, evaluated.
pub proof fn law_projection_type_value(
    k: K,
    s: Sem,
    m: Mode,
    ctx: Seq<Term>,
    tys: Seq<Thk>,
    env: Seq<Thk>,
    sname: u32,
    idx: u32,
    v: Term,
    r: Val,
)
    requires
        infer_proj_value_spec(k, s, m, ctx, tys, env, sname, idx, v) == Ok::<Val, Fault>(r),
    ensures
        exists|vt: Val| #[trigger]
            is_value_type(s, m, ctx, tys, env, v, vt) && (fields_decide(
                k,
                s,
                m,
                ctx,
                env,
                sname,
                idx,
                v,
                vt,
                r,
            ) || exists|t: Term|
                infer_proj_spec(k, s, m, ctx, sname, idx, v) == Ok::<Term, Fault>(t)
                    && #[trigger] has_value(s, m, env, t, r)),
{
    reveal(infer_proj_value_spec);
    reveal(proj_value_type);
    reveal(field_value);
    let vt = (s.infer_val)(m, ctx, tys, env, v)->Ok_0;
    assert(is_value_type(s, m, ctx, tys, env, v, vt));
    match proj_value_type(k, s, m, ctx, env, sname, idx, v, vt) {
        Ok(Some(x)) => {
            let (us, targs) = structure_value(sname, vt).unwrap();
            let (np, ctor) = proj_structure(k, sname).unwrap();
            match find(k.env, ctor) {
                Some(Info::Constructor { level_params, typ, num_fields, .. }) => {
                    let ct = subst_params(typ, level_params, us);
                    let none = Seq::<Thk>::empty();
                    let (t1, env1) = peel_params(s, m, ct, targs, 0, np as nat, none)->Ok_0.unwrap();
                    lemma_peel_params(s, m, ct, targs, 0, np as nat, none, t1, env1);
                    let vv = (s.eval)(m, env, v)->Ok_0;
                    let (t2, env2) = peel_fields(k, s, m, t1, sname, vv, 0, idx, env1)->Ok_0.unwrap();
                    lemma_peel_fields(
                        k,
                        s,
                        m,
                        t1,
                        sname,
                        vv,
                        0,
                        idx,
                        env1,
                        np as nat,
                        t2,
                        env2,
                    );
                    lemma_behind_pis(ct, np as nat, t1, idx as nat);
                    match t2 {
                        Term::Pi(_, dom, _) => {
                            assert forall|i: int| 0 <= i < np implies is_forced(
                                s,
                                m,
                                targs[i],
                                #[trigger] env2[i],
                            ) by {
                                assert(env2[i] == env2.take(np as int)[i]);
                                assert(env1[i] == env2[i]);
                            }
                            assert(is_field_type_value(
                                k,
                                s,
                                m,
                                sname,
                                idx,
                                np,
                                ct,
                                targs,
                                vv,
                                env2,
                                *dom,
                                r,
                            ));
                            let vq = (s.quote)(m, depth_of(env.len()), vt)->Ok_0;
                            assert(is_no_proposition(s, m, ctx, env, vt, vq));
                            assert(has_value(s, m, env, v, vv));
                        },
                        _ => {},
                    }
                },
                _ => {},
            }
        },
        _ => {
            let t = infer_proj_spec(k, s, m, ctx, sname, idx, v)->Ok_0;
            assert(has_value(s, m, env, t, r));
        },
    }
}

/// Evaluation gives the term the type.
pub open spec fn is_value_type(
    s: Sem,
    m: Mode,
    ctx: Seq<Term>,
    tys: Seq<Thk>,
    env: Seq<Thk>,
    v: Term,
    vt: Val,
) -> bool {
    (s.infer_val)(m, ctx, tys, env, v) == Ok::<Val, Fault>(vt)
}

/// The type, read back, is judged no proposition.
pub open spec fn is_no_proposition(
    s: Sem,
    m: Mode,
    ctx: Seq<Term>,
    env: Seq<Thk>,
    vt: Val,
    vq: Term,
) -> bool {
    (s.quote)(m, depth_of(env.len()), vt) == Ok::<Term, Fault>(vq) && (s.is_prop)(m, ctx, vq)
        == Ok::<bool, Fault>(false)
}

/// The structure is in sight with its only constructor, the value's type is one of
/// its instances and no proposition, and the value is that of the field's type.
pub open spec fn fields_decide(
    k: K,
    s: Sem,
    m: Mode,
    ctx: Seq<Term>,
    env: Seq<Thk>,
    sname: u32,
    idx: u32,
    v: Term,
    vt: Val,
    r: Val,
) -> bool {
    &&& (vt matches Val::Neutral(n) && (neu_head(n) matches Neu::Const(c, us) && c == sname && (
    proj_structure(k, sname) matches Some((np, ctor)) && (find(k.env, ctor) matches Some(
        Info::Constructor { level_params, typ, num_fields, .. },
    ) && idx < num_fields && np <= neu_args(n).len() && exists|
        vv: Val,
        scope: Seq<Thk>,
        dom: Term,
    |
        has_value(s, m, env, v, vv) && #[trigger] is_field_type_value(
            k,
            s,
            m,
            sname,
            idx,
            np,
            subst_params(typ, level_params, us),
            neu_args(n),
            vv,
            scope,
            dom,
            r,
        )))))
    &&& exists|vq: Term| #[trigger] is_no_proposition(s, m, ctx, env, vt, vq)
}

} // verus!
