//! What the types that inference gives have to do with the types of the parts, and
//! what it takes for a declaration to be accepted.

use crate::ctx::local_type;
use crate::decl::{decl_body_ok, decl_spec, while_declaring};
use crate::env::{find, info_params, info_type, info_value, Info};
use crate::errors::Fault;
use crate::expr::{
    lift, mk_apps, plug1, spine_args, spine_head, subst_params, BinderInfo, LitT, Term,
};
use crate::infer::{
    field_types, infer_eager, infer_field, infer_proj_spec, is_data_field, is_prop_step,
    law_no_data_before, some_mentions, sort_of,
};
use crate::judge::sem_at;
use crate::kernel::{by_value, eager_mode, infer_only_mode, start_mode, Budget, K, Mode, Res, Sem};
use crate::level::{univ_eq, univ_value, Univ};
use crate::nbe::infer_step;
use crate::reduce::{
    apply_type_spec, ensure_loop, ensure_pi_spec, ensure_sort_spec, ensure_spec, ENSURE_LIMIT,
};
use vstd::prelude::*;

verus! {

/// Inference gives the term the type.
pub open spec fn has_type(s: Sem, m: Mode, ctx: Seq<Term>, e: Term, t: Term) -> bool {
    (s.infer)(m, ctx, e) == Ok::<Term, Fault>(t)
}

/// Conversion confirms that the terms are the same.
pub open spec fn converts(s: Sem, m: Mode, ctx: Seq<Term>, a: Term, b: Term) -> bool {
    (s.defeq)(m, ctx, a, b) == Ok::<bool, Fault>(true)
}

/// Reduction gives the term the head normal form.
pub open spec fn reduces(s: Sem, m: Mode, ctx: Seq<Term>, e: Term, w: Term) -> bool {
    (s.whnf)(m, ctx, e) == Ok::<Term, Fault>(w)
}

/// The head of the first term is a definition in sight, and the second term is
/// what its value, applied to the same arguments, reduces to.
pub open spec fn unfolds(k: K, s: Sem, m: Mode, ctx: Seq<Term>, a: Term, b: Term) -> bool {
    spine_head(a) matches Term::Const(c, us) && k.declaring != Some(c) && (find(
        k.env,
        c,
    ) matches Some(Info::Def { level_params, value, .. }) && (s.core)(
        m,
        ctx,
        mk_apps(subst_params(value, level_params, us), spine_args(a)),
    ) == Ok::<Term, Fault>(b))
}

/// Each term of the path unfolds to the next.
pub open spec fn unfolding_path(k: K, s: Sem, m: Mode, ctx: Seq<Term>, p: Seq<Term>) -> bool {
    forall|i: int| 0 <= i < p.len() - 1 ==> unfolds(k, s, m, ctx, #[trigger] p[i], p[i + 1])
}

/// The head normal form of the term is the second one, or comes to it by unfolding
/// definitions.
pub open spec fn shows(k: K, s: Sem, m: Mode, ctx: Seq<Term>, t: Term, w: Term) -> bool {
    exists|p: Seq<Term>|
        p.len() > 0 && p.last() == w && reduces(s, m, ctx, t, p[0]) && #[trigger] unfolding_path(
            k,
            s,
            m,
            ctx,
            p,
        )
}

/// The term shows the function type.
pub open spec fn shows_pi(
    k: K,
    s: Sem,
    m: Mode,
    ctx: Seq<Term>,
    t: Term,
    bi: BinderInfo,
    d: Term,
    b: Term,
) -> bool {
    shows(k, s, m, ctx, t, Term::Pi(bi, Box::new(d), Box::new(b)))
}

/// The term reduces to the sort of the level.
pub open spec fn reduces_to_sort(s: Sem, m: Mode, ctx: Seq<Term>, t: Term, l: Univ) -> bool {
    reduces(s, m, ctx, t, Term::Sort(l))
}

/// The type of the term shows a sort of the level.
pub open spec fn is_type_at(k: K, s: Sem, m: Mode, ctx: Seq<Term>, t: Term, l: Univ) -> bool {
    exists|tt: Term| #[trigger]
        has_type(s, m, ctx, t, tt) && shows(k, s, m, ctx, tt, Term::Sort(l))
}

proof fn lemma_ensure_loop(k: K, s: Sem, m: Mode, ctx: Seq<Term>, w: Term, n: nat, p: Seq<Term>, r: Term)
    requires
        p.len() > 0,
        p.last() == w,
        unfolding_path(k, s, m, ctx, p),
        ensure_loop(k, s, m, ctx, w, n) == Ok::<Term, Fault>(r),
    ensures
        exists|q: Seq<Term>|
            q.len() > 0 && q.last() == r && q[0] == p[0] && #[trigger] unfolding_path(
                k,
                s,
                m,
                ctx,
                q,
            ),
    decreases n,
{
    if r == w {
        assert(unfolding_path(k, s, m, ctx, p));
    } else {
        match spine_head(w) {
            Term::Const(c, us) => {
                let u = crate::lookup::unfold_def_spec(k, c, us).unwrap();
                let next = (s.core)(m, ctx, mk_apps(u, spine_args(w)))->Ok_0;
                let q = p.push(next);
                assert forall|i: int| 0 <= i < q.len() - 1 implies unfolds(
                    k,
                    s,
                    m,
                    ctx,
                    #[trigger] q[i],
                    q[i + 1],
                ) by {
                    if i < p.len() - 1 {
                        assert(unfolds(k, s, m, ctx, p[i], p[i + 1]));
                    }
                }
                lemma_ensure_loop(k, s, m, ctx, next, (n - 1) as nat, q, r);
            },
            _ => {},
        }
    }
}

/// A sort or a function type that a term is brought to is one that the term shows.
/// A head normal form that is one already is taken as it is, and one that is
/// neither and does not unfold is refused.
pub proof fn law_showing(k: K, s: Sem, m: Mode, ctx: Seq<Term>, t: Term, w: Term)
    ensures
        ensure_sort_spec(k, s, m, ctx, t) matches Ok(l) ==> shows(k, s, m, ctx, t, Term::Sort(l)),
        ensure_pi_spec(k, s, m, ctx, t) matches Ok((bi, d, b)) ==> shows(
            k,
            s,
            m,
            ctx,
            t,
            Term::Pi(bi, Box::new(d), Box::new(b)),
        ),
        reduces(s, m, ctx, t, w) ==> match w {
            Term::Sort(l) => ensure_sort_spec(k, s, m, ctx, t) == Ok::<Univ, Fault>(l)
                && ensure_pi_spec(k, s, m, ctx, t) is Err,
            Term::Pi(bi, d, b) => ensure_pi_spec(k, s, m, ctx, t) == Ok::<
                (BinderInfo, Term, Term),
                Fault,
            >((bi, *d, *b)) && ensure_sort_spec(k, s, m, ctx, t) is Err,
            _ => !(spine_head(w) is Const) ==> ensure_sort_spec(k, s, m, ctx, t) is Err
                && ensure_pi_spec(k, s, m, ctx, t) is Err,
        },
        (s.whnf)(m, ctx, t) is Err ==> ensure_sort_spec(k, s, m, ctx, t) is Err && ensure_pi_spec(
            k,
            s,
            m,
            ctx,
            t,
        ) is Err,
{
    reveal(ensure_spec);
    match (s.whnf)(m, ctx, t) {
        Err(_) => {},
        Ok(h) => {
            let p = seq![h];
            assert(unfolding_path(k, s, m, ctx, p));
            match ensure_loop(k, s, m, ctx, h, ENSURE_LIMIT as nat) {
                Err(_) => {},
                Ok(r) => {
                    lemma_ensure_loop(k, s, m, ctx, h, ENSURE_LIMIT as nat, p, r);
                    assert(shows(k, s, m, ctx, t, r));
                },
            }
        },
    }
}

proof fn lemma_sort_of(k: K, s: Sem, m: Mode, ctx: Seq<Term>, t: Term)
    ensures
        sort_of(k, s, m, ctx, t) matches Ok(l) ==> is_type_at(k, s, m, ctx, t, l),
{
    match (s.infer)(m, ctx, t) {
        Err(_) => {},
        Ok(tt) => {
            law_showing(k, s, m, ctx, tt, tt);
            assert(has_type(s, m, ctx, t, tt));
        },
    }
}

/// Reading off the sort of a type: what is found is the level of a sort that the
/// type's own type shows; it is found wherever that type reduces to a sort.
pub proof fn law_sort_of_type(k: K, s: Sem, m: Mode, ctx: Seq<Term>, t: Term, tt: Term, l: Univ)
    ensures
        sort_of(k, s, m, ctx, t) == Ok::<Univ, Fault>(l) ==> is_type_at(k, s, m, ctx, t, l),
        has_type(s, m, ctx, t, tt) && reduces(s, m, ctx, tt, Term::Sort(l)) ==> sort_of(
            k,
            s,
            m,
            ctx,
            t,
        ) == Ok::<Univ, Fault>(l),
{
    lemma_sort_of(k, s, m, ctx, t);
    law_showing(k, s, m, ctx, tt, Term::Sort(l));
}

/// The value of the level of a product: that of propositions where the codomain is
/// one, else the larger of the two.
pub open spec fn product_value(a: nat, b: nat) -> nat {
    if b == 0 {
        0
    } else if a > b {
        a
    } else {
        b
    }
}

/// A level is that of the products from the first into the second, whatever the
/// universe parameters are.
pub open spec fn is_product_level(l: Univ, s1: Univ, s2: Univ) -> bool {
    forall|rho: spec_fn(u32) -> nat| #[trigger]
        univ_value(l, rho) == product_value(univ_value(s1, rho), univ_value(s2, rho))
}

/// The type of a function type is a sort. Its level is that of the products from
/// the level of the domain into that of the codomain, read in the scope that the
/// domain extends: zero where the codomain's is, and else the larger of the two.
pub proof fn law_product_type(
    k: K,
    s: Sem,
    m: Mode,
    ctx: Seq<Term>,
    bi: BinderInfo,
    d: Term,
    b: Term,
    s1: Univ,
    s2: Univ,
)
    ensures
        infer_eager(k, s, m, ctx, Term::Pi(bi, Box::new(d), Box::new(b))) matches Ok(t) ==> (
        t matches Term::Sort(l) && exists|x: Univ, y: Univ|
            is_type_at(k, s, m, ctx, d, x) && is_type_at(k, s, m, ctx.push(d), b, y)
                && #[trigger] is_product_level(l, x, y)),
        (exists|dt: Term, bt: Term|
            #![trigger has_type(s, m, ctx, d, dt), has_type(s, m, ctx.push(d), b, bt)]
            has_type(s, m, ctx, d, dt) && reduces(s, m, ctx, dt, Term::Sort(s1)) && has_type(
                s,
                m,
                ctx.push(d),
                b,
                bt,
            ) && reduces(s, m, ctx.push(d), bt, Term::Sort(s2))) ==> (infer_eager(
            k,
            s,
            m,
            ctx,
            Term::Pi(bi, Box::new(d), Box::new(b)),
        ) matches Ok(Term::Sort(l)) && is_product_level(l, s1, s2)),
{
    reveal(infer_eager);
    let e = Term::Pi(bi, Box::new(d), Box::new(b));
    lemma_sort_of(k, s, m, ctx, d);
    lemma_sort_of(k, s, m, ctx.push(d), b);
    match (sort_of(k, s, m, ctx, d), sort_of(k, s, m, ctx.push(d), b)) {
        (Ok(x), Ok(y)) => {
            let l = infer_eager(k, s, m, ctx, e)->Ok_0->Sort_0;
            assert(is_product_level(l, x, y));
        },
        _ => {},
    }
    if exists|dt: Term, bt: Term|
        #![trigger has_type(s, m, ctx, d, dt), has_type(s, m, ctx.push(d), b, bt)]
        has_type(s, m, ctx, d, dt) && reduces(s, m, ctx, dt, Term::Sort(s1)) && has_type(
            s,
            m,
            ctx.push(d),
            b,
            bt,
        ) && reduces(s, m, ctx.push(d), bt, Term::Sort(s2)) {
        let (dt, bt) = choose|dt: Term, bt: Term|
            #![trigger has_type(s, m, ctx, d, dt), has_type(s, m, ctx.push(d), b, bt)]
            has_type(s, m, ctx, d, dt) && reduces(s, m, ctx, dt, Term::Sort(s1)) && has_type(
                s,
                m,
                ctx.push(d),
                b,
                bt,
            ) && reduces(s, m, ctx.push(d), bt, Term::Sort(s2));
        law_sort_of_type(k, s, m, ctx, d, dt, s1);
        law_sort_of_type(k, s, m, ctx.push(d), b, bt, s2);
    }
}

/// The type of a function is the function type over its own domain into the type
/// that its body has in the scope that the domain extends; the domain is a type.
pub proof fn law_function_type(
    k: K,
    s: Sem,
    m: Mode,
    ctx: Seq<Term>,
    bi: BinderInfo,
    d: Term,
    b: Term,
    dt: Term,
    l: Univ,
    bt: Term,
)
    ensures
        infer_eager(k, s, m, ctx, Term::Lam(bi, Box::new(d), Box::new(b))) matches Ok(t) ==> (
        t matches Term::Pi(bi2, d2, b2) && bi2 == bi && *d2 == d && has_type(
            s,
            m,
            ctx.push(d),
            b,
            *b2,
        ) && exists|x: Univ| #[trigger] is_type_at(k, s, m, ctx, d, x)),
        has_type(s, m, ctx, d, dt) && reduces(s, m, ctx, dt, Term::Sort(l)) && has_type(
            s,
            m,
            ctx.push(d),
            b,
            bt,
        ) ==> infer_eager(k, s, m, ctx, Term::Lam(bi, Box::new(d), Box::new(b))) == Ok::<
            Term,
            Fault,
        >(Term::Pi(bi, Box::new(d), Box::new(bt))),
{
    reveal(infer_eager);
    lemma_sort_of(k, s, m, ctx, d);
    law_sort_of_type(k, s, m, ctx, d, dt, l);
}

/// The function's type shows a function type over the domain into the codomain.
pub open spec fn takes(k: K, s: Sem, m: Mode, ctx: Seq<Term>, f: Term, d: Term, b: Term) -> bool {
    exists|ft: Term, bi: BinderInfo|
        has_type(s, m, ctx, f, ft) && #[trigger] shows_pi(k, s, m, ctx, ft, bi, d, b)
}

/// The argument has a type that is the same as the domain.
pub open spec fn argument_has(s: Sem, m: Mode, ctx: Seq<Term>, a: Term, d: Term) -> bool {
    exists|at: Term| #[trigger] has_type(s, m, ctx, a, at) && converts(s, m, ctx, at, d)
}

/// The type of an application is the codomain of the function at the argument. The
/// argument's type is the same as the domain, unless arguments are taken for
/// granted.
pub proof fn law_application_type(
    k: K,
    s: Sem,
    m: Mode,
    ctx: Seq<Term>,
    f: Term,
    a: Term,
    ft: Term,
    bi: BinderInfo,
    d: Term,
    b: Term,
    at: Term,
)
    ensures
        infer_eager(k, s, m, ctx, Term::App(Box::new(f), Box::new(a))) matches Ok(t) ==> exists|
            x: Term,
            y: Term,
        |
            #[trigger] takes(k, s, m, ctx, f, x, y) && t == plug1(y, a) && (m.infer_only
                || argument_has(s, m, ctx, a, x)),
        has_type(s, m, ctx, f, ft) && reduces(
            s,
            m,
            ctx,
            ft,
            Term::Pi(bi, Box::new(d), Box::new(b)),
        ) ==> {
            let r = infer_eager(k, s, m, ctx, Term::App(Box::new(f), Box::new(a)));
            &&& m.infer_only ==> r == Ok::<Term, Fault>(plug1(b, a))
            &&& !m.infer_only && has_type(s, m, ctx, a, at) ==> {
                &&& converts(s, m, ctx, at, d) ==> r == Ok::<Term, Fault>(plug1(b, a))
                &&& (s.defeq)(m, ctx, at, d) == Ok::<bool, Fault>(false) ==> r matches Err(
                    Fault::Reject(_),
                )
            }
        },
{
    reveal(infer_eager);
    let e = Term::App(Box::new(f), Box::new(a));
    law_showing(k, s, m, ctx, ft, Term::Pi(bi, Box::new(d), Box::new(b)));
    match (s.infer)(m, ctx, f) {
        Err(_) => {},
        Ok(gt) => {
            assert(has_type(s, m, ctx, f, gt));
            law_showing(k, s, m, ctx, gt, gt);
            match ensure_pi_spec(k, s, m, ctx, gt) {
                Err(_) => {},
                Ok((gi, x, y)) => {
                    assert(shows_pi(k, s, m, ctx, gt, gi, x, y));
                    assert(takes(k, s, m, ctx, f, x, y));
                    if !m.infer_only {
                        match (s.infer)(m, ctx, a) {
                            Err(_) => {},
                            Ok(z) => {
                                assert(has_type(s, m, ctx, a, z));
                            },
                        }
                    }
                },
            }
        },
    }
}

/// The type of a local definition is that of its body with the value in place of
/// the variable; the value has a type that is the same as the one given, which is
/// a type.
pub proof fn law_local_definition_type(
    k: K,
    s: Sem,
    m: Mode,
    ctx: Seq<Term>,
    ty: Term,
    v: Term,
    b: Term,
)
    ensures
        infer_eager(k, s, m, ctx, Term::Let(Box::new(ty), Box::new(v), Box::new(b))) matches Ok(
            t,
        ) ==> has_type(s, m, ctx, plug1(b, v), t) && argument_has(s, m, ctx, v, ty) && exists|
            x: Univ,
        | #[trigger] is_type_at(k, s, m, ctx, ty, x),
        forall|tt: Term, l: Univ, vt: Term|
            #![trigger reduces_to_sort(s, m, ctx, tt, l), has_type(s, m, ctx, v, vt)]
            has_type(s, m, ctx, ty, tt) && reduces_to_sort(s, m, ctx, tt, l) && has_type(
                s,
                m,
                ctx,
                v,
                vt,
            ) && converts(s, m, ctx, vt, ty) ==> infer_eager(
                k,
                s,
                m,
                ctx,
                Term::Let(Box::new(ty), Box::new(v), Box::new(b)),
            ) == (s.infer)(m, ctx, plug1(b, v)),
{
    reveal(infer_eager);
    lemma_sort_of(k, s, m, ctx, ty);
    match (s.infer)(m, ctx, v) {
        Err(_) => {},
        Ok(vt) => {
            assert(has_type(s, m, ctx, v, vt));
        },
    }
    assert forall|tt: Term, l: Univ, vt: Term|
        #![trigger reduces_to_sort(s, m, ctx, tt, l), has_type(s, m, ctx, v, vt)]
        has_type(s, m, ctx, ty, tt) && reduces_to_sort(s, m, ctx, tt, l) && has_type(
            s,
            m,
            ctx,
            v,
            vt,
        ) && converts(s, m, ctx, vt, ty) implies infer_eager(
        k,
        s,
        m,
        ctx,
        Term::Let(Box::new(ty), Box::new(v), Box::new(b)),
    ) == (s.infer)(m, ctx, plug1(b, v)) by {
        law_sort_of_type(k, s, m, ctx, ty, tt, l);
    }
}

/// The types of what has no parts: a variable has the type that its binder gives
/// it, moved to where it is read; a sort has the next sort; a constant that is in
/// sight has its declared type at the levels given, as many as it has universe
/// parameters; a literal has the type that the checker knows for it.
pub proof fn law_leaf_types(k: K, s: Sem, m: Mode, ctx: Seq<Term>, i: u32, l: Univ, n: u32, us: Seq<Univ>)
    ensures
        i < ctx.len() ==> infer_eager(k, s, m, ctx, Term::BVar(i)) == Ok::<Term, Fault>(
            lift(ctx[ctx.len() - 1 - i], i + 1, 0),
        ),
        i >= ctx.len() ==> infer_eager(k, s, m, ctx, Term::BVar(i)) is Err,
        infer_eager(k, s, m, ctx, Term::Sort(l)) matches Ok(Term::Sort(up)) && forall|
            rho: spec_fn(u32) -> nat,
        | #[trigger] univ_value(up, rho) == univ_value(l, rho) + 1,
        infer_eager(k, s, m, ctx, Term::Const(n, us)) matches Ok(t) ==> k.declaring != Some(n)
            && (find(k.env, n) matches Some(info) && info_params(info).len() == us.len() && t
            == subst_params(info_type(info), info_params(info), us)),
        k.declaring != Some(n) && (find(k.env, n) matches Some(info) && info_params(info).len()
            == us.len()) ==> infer_eager(k, s, m, ctx, Term::Const(n, us)) is Ok,
        forall|v: nat|
            (#[trigger] infer_eager(k, s, m, ctx, Term::Lit(LitT::Nat(v)))) matches Ok(t) ==> (
            k.nat_ref matches Some(c) && t == Term::Const(c, Seq::empty())),
        forall|v: Seq<char>|
            (#[trigger] infer_eager(k, s, m, ctx, Term::Lit(LitT::Str(v)))) matches Ok(t) ==> (
            k.string_ref matches Some(c) && t == Term::Const(c, Seq::empty())),
        forall|v: nat|
            k.nat_ref is Some ==> (#[trigger] infer_eager(
                k,
                s,
                m,
                ctx,
                Term::Lit(LitT::Nat(v)),
            )) is Ok,
        forall|v: Seq<char>|
            k.string_ref is Some ==> (#[trigger] infer_eager(
                k,
                s,
                m,
                ctx,
                Term::Lit(LitT::Str(v)),
            )) is Ok,
{
    reveal(infer_eager);
}

/// Inference that does not go by evaluation is the inference of one step over the
/// judgements with one less to nest.
pub proof fn law_inference_steps(k: K, g: Budget, m: Mode, ctx: Seq<Term>, e: Term)
    requires
        g.rest > 0,
        !by_value(k, m),
    ensures
        (sem_at(k, g).infer)(m, ctx, e) == infer_eager(k, sem_at(k, g.in_rest()), m, ctx, e),
{
    reveal(sem_at);
    reveal(infer_step);
}


/// The function type, instantiated at the arguments one after the other, comes to
/// the second type.
pub open spec fn instantiates(
    k: K,
    s: Sem,
    m: Mode,
    ctx: Seq<Term>,
    t: Term,
    args: Seq<Term>,
    r: Term,
) -> bool
    decreases args.len(),
{
    if args.len() == 0 {
        r == t
    } else {
        exists|bi: BinderInfo, d: Term, b: Term| #[trigger]
            shows_pi(k, s, m, ctx, t, bi, d, b) && instantiates(
                k,
                s,
                m,
                ctx,
                plug1(b, args[0]),
                args.drop_first(),
                r,
            )
    }
}

pub(crate) proof fn lemma_instantiates_append(
    k: K,
    s: Sem,
    m: Mode,
    ctx: Seq<Term>,
    t: Term,
    a1: Seq<Term>,
    mid: Term,
    a2: Seq<Term>,
    r: Term,
)
    requires
        instantiates(k, s, m, ctx, t, a1, mid),
        instantiates(k, s, m, ctx, mid, a2, r),
    ensures
        instantiates(k, s, m, ctx, t, a1 + a2, r),
    decreases a1.len(),
{
    if a1.len() == 0 {
        assert(a1 + a2 =~= a2);
    } else {
        let (bi, d, b) = choose|bi: BinderInfo, d: Term, b: Term| #[trigger]
            shows_pi(k, s, m, ctx, t, bi, d, b) && instantiates(
                k,
                s,
                m,
                ctx,
                plug1(b, a1[0]),
                a1.drop_first(),
                mid,
            );
        lemma_instantiates_append(k, s, m, ctx, plug1(b, a1[0]), a1.drop_first(), mid, a2, r);
        assert((a1 + a2).drop_first() =~= a1.drop_first() + a2);
        assert((a1 + a2)[0] == a1[0]);
        assert(shows_pi(k, s, m, ctx, t, bi, d, b));
    }
}

/// Applying a function type to arguments instantiates it at all of them, in order.
pub proof fn law_applied_type(
    k: K,
    s: Sem,
    m: Mode,
    ctx: Seq<Term>,
    t: Term,
    args: Seq<Term>,
    i: nat,
    r: Term,
)
    requires
        i <= args.len(),
        apply_type_spec(k, s, m, ctx, t, args, i) == Ok::<Term, Fault>(r),
    ensures
        instantiates(k, s, m, ctx, t, args.skip(i as int), r),
    decreases args.len() - i,
{
    if i < args.len() {
        law_showing(k, s, m, ctx, t, t);
        let (bi, d, b) = ensure_pi_spec(k, s, m, ctx, t)->Ok_0;
        assert(shows_pi(k, s, m, ctx, t, bi, d, b));
        law_applied_type(k, s, m, ctx, plug1(b, args[i as int]), args, i + 1, r);
        assert(args.skip(i as int).drop_first() =~= args.skip(i as int + 1));
        assert(args.skip(i as int)[0] == args[i as int]);
    }
}

/// The projections of the first fields of a value.
pub open spec fn projections(sname: u32, v: Term, n: nat) -> Seq<Term> {
    Seq::new(n, |i: int| Term::Proj(sname, i as u32, Box::new(v)))
}

proof fn lemma_field_types(
    k: K,
    s: Sem,
    m: Mode,
    ctx: Seq<Term>,
    t: Term,
    sname: u32,
    v: Term,
    i: u32,
    n: u32,
    acc: Seq<Term>,
    doms: Seq<Term>,
    start: Term,
    j: u32,
)
    requires
        i <= n,
        i == acc.len(),
        j < n,
        instantiates(k, s, m, ctx, start, projections(sname, v, i as nat), t),
        field_types(k, s, m, ctx, t, sname, v, i, n, acc) == Ok::<Seq<Term>, Fault>(
            doms,
        ),
        j < i ==> is_field_type(k, s, m, ctx, start, sname, v, j, acc[j as int]),
    ensures
        doms.len() == n,
        is_field_type(k, s, m, ctx, start, sname, v, j, doms[j as int]),
    decreases n - i,
{
    if i < n {
        law_showing(k, s, m, ctx, t, t);
        let (bi, d, b) = ensure_pi_spec(k, s, m, ctx, t)->Ok_0;
        assert(shows_pi(k, s, m, ctx, t, bi, d, b));
        let p = Term::Proj(sname, i, Box::new(v));
        let next = plug1(b, p);
        let one = seq![p];
        assert(one.drop_first() =~= Seq::<Term>::empty());
        assert(one[0] == p);
        assert(instantiates(k, s, m, ctx, next, one.drop_first(), next));
        assert(instantiates(k, s, m, ctx, t, one, next));
        lemma_instantiates_append(
            k,
            s,
            m,
            ctx,
            start,
            projections(sname, v, i as nat),
            t,
            one,
            next,
        );
        assert(projections(sname, v, i as nat) + one =~= projections(sname, v, (i + 1) as nat));
        if j == i {
            assert(instantiates(k, s, m, ctx, start, projections(sname, v, j as nat), t));
            assert(is_field_type(k, s, m, ctx, start, sname, v, j, d));
        }
        assert(acc.push(d)[i as int] == d);
        lemma_field_types(
            k,
            s,
            m,
            ctx,
            next,
            sname,
            v,
            (i + 1) as u32,
            n,
            acc.push(d),
            doms,
            start,
            j,
        );
    }
}

/// The type is that of the field at the position: the domain that the type of the
/// fields shows once it is instantiated at the projections of the fields before.
pub open spec fn is_field_type(
    k: K,
    s: Sem,
    m: Mode,
    ctx: Seq<Term>,
    t: Term,
    sname: u32,
    v: Term,
    j: u32,
    d: Term,
) -> bool {
    exists|at: Term, bi: BinderInfo, b: Term|
        instantiates(k, s, m, ctx, t, projections(sname, v, j as nat), at) && #[trigger] shows_pi(
            k,
            s,
            m,
            ctx,
            at,
            bi,
            d,
            b,
        )
}

/// The value is of a structure: its type reduces to an inductive type of that name
/// with one constructor, and the second type is the constructor's at the levels
/// and the parameters of that type.
pub open spec fn structure_fields_at(
    k: K,
    s: Sem,
    m: Mode,
    ctx: Seq<Term>,
    sname: u32,
    idx: u32,
    v: Term,
    vtw: Term,
    ct: Term,
) -> bool {
    exists|vt: Term| #[trigger]
        has_type(s, m, ctx, v, vt) && reduces(s, m, ctx, vt, vtw) && (spine_head(
            vtw,
        ) matches Term::Const(c, us) && c == sname && (find(k.env, sname) matches Some(
            Info::InductiveType { num_params, ctors, .. },
        ) && ctors.len() == 1 && num_params <= spine_args(vtw).len() && (find(
            k.env,
            ctors[0],
        ) matches Some(Info::Constructor { level_params, typ, num_fields, .. }) && idx < num_fields
            && instantiates(
            k,
            s,
            m,
            ctx,
            subst_params(typ, level_params, us),
            spine_args(vtw).take(num_params as int),
            ct,
        ))))
}

/// The types are those of all the fields of the structure, each with the projections
/// of the value in place of the fields before it.
pub open spec fn are_field_types(
    k: K,
    s: Sem,
    m: Mode,
    ctx: Seq<Term>,
    ct: Term,
    sname: u32,
    v: Term,
    doms: Seq<Term>,
) -> bool {
    forall|j: u32|
        j < doms.len() ==> #[trigger] is_field_type(
            k,
            s,
            m,
            ctx,
            ct,
            sname,
            v,
            j,
            doms[j as int],
        )
}

/// The type of a projection is that of the field at the index, in the constructor's
/// type at the levels and parameters of the value's type, with the projections of
/// the value in place of the fields before it. The value's type is that structure.
/// Where it is a proposition the field is a proof, and no field of data up to it is
/// mentioned in the type of any field.
pub proof fn law_projection_type(
    k: K,
    s: Sem,
    m: Mode,
    ctx: Seq<Term>,
    sname: u32,
    idx: u32,
    v: Term,
    t: Term,
)
    requires
        infer_eager(k, s, m, ctx, Term::Proj(sname, idx, Box::new(v))) == Ok::<Term, Fault>(t),
    ensures
        exists|vtw: Term, ct: Term, doms: Seq<Term>|
            #![trigger structure_fields_at(k, s, m, ctx, sname, idx, v, vtw, ct), are_field_types(k, s, m, ctx, ct, sname, v, doms)]
            structure_fields_at(k, s, m, ctx, sname, idx, v, vtw, ct) && are_field_types(
                k,
                s,
                m,
                ctx,
                ct,
                sname,
                v,
                doms,
            ) && idx < doms.len() && doms[idx as int] == t && (s.is_prop)(m, ctx, vtw) is Ok && ((
            s.is_prop)(m, ctx, vtw) == Ok::<bool, Fault>(true) ==> (s.is_prop)(m, ctx, t) == Ok::<
                bool,
                Fault,
            >(true) && forall|j: u32|
                j <= idx && #[trigger] is_data_field(s, m, ctx, doms, j) ==> !some_mentions(
                    doms,
                    sname,
                    j,
                    v,
                    0,
                )),
{
    reveal(infer_eager);
    reveal(infer_proj_spec);
    reveal(infer_field);
    let vt = (s.infer)(m, ctx, v)->Ok_0;
    assert(has_type(s, m, ctx, v, vt));
    let vtw = (s.whnf)(m, ctx, vt)->Ok_0;
    let us = spine_head(vtw)->Const_1;
    let args = spine_args(vtw);
    match find(k.env, sname) {
        Some(Info::InductiveType { num_params, ctors, .. }) => match find(k.env, ctors[0]) {
            Some(Info::Constructor { level_params, typ, num_fields, .. }) => {
                let start = subst_params(typ, level_params, us);
                let ps = args.take(num_params as int);
                let ct = apply_type_spec(k, s, m, ctx, start, ps, 0)->Ok_0;
                law_applied_type(k, s, m, ctx, start, ps, 0, ct);
                assert(ps.skip(0) =~= ps);
                let none = Seq::<Term>::empty();
                let doms = field_types(k, s, m, ctx, ct, sname, v, 0, num_fields, none)->Ok_0;
                assert(projections(sname, v, 0) =~= none);
                assert(instantiates(k, s, m, ctx, ct, none, ct));
                lemma_field_types(k, s, m, ctx, ct, sname, v, 0, num_fields, none, doms, ct, idx);
                assert forall|j: u32| j < doms.len() implies #[trigger] is_field_type(
                    k,
                    s,
                    m,
                    ctx,
                    ct,
                    sname,
                    v,
                    j,
                    doms[j as int],
                ) by {
                    lemma_field_types(k, s, m, ctx, ct, sname, v, 0, num_fields, none, doms, ct, j);
                }
                if (s.is_prop)(m, ctx, vtw) == Ok::<bool, Fault>(true) {
                    law_no_data_before(s, m, ctx, doms, sname, v, idx, idx);
                    assert forall|j: u32|
                        j <= idx && #[trigger] is_data_field(
                            s,
                            m,
                            ctx,
                            doms,
                            j,
                        ) implies !some_mentions(doms, sname, j, v, 0) by {
                        law_no_data_before(s, m, ctx, doms, sname, v, idx, j);
                    }
                }
                assert(structure_fields_at(k, s, m, ctx, sname, idx, v, vtw, ct));
                assert(are_field_types(k, s, m, ctx, ct, sname, v, doms));
            },
            _ => {},
        },
        _ => {},
    }
}

/// Whether the level is that of propositions, whatever the universe parameters are.
pub open spec fn is_zero(l: Univ) -> bool {
    forall|rho: spec_fn(u32) -> nat| #[trigger] univ_value(l, rho) == 0
}

/// Whether the answer is a rejection.
pub open spec fn is_reject<T>(r: Res<T>) -> bool {
    r matches Err(Fault::Reject(_))
}

/// The value has the declared type: the type that inference gives it is the same as
/// the declared one, by the judgements as they are or by reduction alone.
pub open spec fn value_has_type(k: K, s: Sem, m: Mode, value: Term, typ: Term) -> bool {
    ||| argument_has(s, m, Seq::empty(), value, typ)
    ||| exists|vt: Term|
        infer_eager(k, s, eager_mode(m), Seq::empty(), value) == Ok::<Term, Fault>(vt)
            && #[trigger] crate::conv::defeq_eager(
            k,
            s,
            eager_mode(m),
            Seq::empty(),
            vt,
            typ,
        ) == Ok::<bool, Fault>(true)
}

/// A declaration is accepted only if its constant is there, it names no universe
/// parameter twice, its type is a type, a proposition where it is a theorem, and
/// the type that inference gives its value, where it has one, is the same as the
/// declared type. All this is judged with the constant itself out of sight.
pub proof fn law_declaration(k: K, g: Budget, name: u32, kind: Seq<char>)
    requires
        decl_spec(k, g, name, kind) is Ok,
    ensures
        find(k.env, name) matches Some(i) && {
            let d = K { declaring: Some(name), ..k };
            let s = sem_at(d, g);
            let m = start_mode();
            &&& forall|x: int, y: int|
                0 <= x < y < info_params(i).len() ==> info_params(i)[x] != info_params(i)[y]
            &&& exists|l: Univ| #[trigger]
                is_type_at(d, s, m, Seq::empty(), info_type(i), l) && (kind == "theorem"@
                    ==> is_zero(l))
            &&& info_value(i) matches Some(v) ==> value_has_type(d, s, m, v, info_type(i))
        },
{
    reveal(decl_spec);
    reveal(decl_body_ok);
    let i = find(k.env, name).unwrap();
    let d = while_declaring(k, name);
    let s = sem_at(d, g);
    let m = start_mode();
    let none = Seq::<Term>::empty();
    lemma_sort_of(d, s, m, none, info_type(i));
    let l = sort_of(d, s, m, none, info_type(i))->Ok_0;
    assert(is_type_at(d, s, m, none, info_type(i), l));
    assert forall|x: int, y: int| 0 <= x < y < info_params(i).len() implies info_params(i)[x]
        != info_params(i)[y] by {}
    if kind == "theorem"@ {
        assert forall|rho: spec_fn(u32) -> nat| #[trigger] univ_value(l, rho) == 0 by {
            assert(univ_value(l, rho) == univ_value(Univ::Zero, rho));
        }
    }
    match info_value(i) {
        None => {},
        Some(v) => {
            let vt = (s.infer)(m, none, v)->Ok_0;
            assert(has_type(s, m, none, v, vt));
            if !converts(s, m, none, vt, info_type(i)) {
                let et = infer_eager(d, s, eager_mode(m), none, v)->Ok_0;
                assert(crate::conv::defeq_eager(
                    d,
                    s,
                    eager_mode(m),
                    none,
                    et,
                    info_type(i),
                ) == Ok::<bool, Fault>(true));
            }
        },
    }
}

/// A declaration whose type is a type, a proposition where it is a theorem, is
/// accepted if it has no value or if the type of its value is the same as the
/// declared one; it is rejected if its value's type is denied to be that, by the
/// judgements as they are and by reduction alone, if it is a theorem and its type
/// is no proposition, or if it names a universe parameter twice.
pub proof fn law_declaration_decides(
    k: K,
    g: Budget,
    name: u32,
    kind: Seq<char>,
    tt: Term,
    l: Univ,
    vt: Term,
    et: Term,
)
    requires
        find(k.env, name) is Some,
        ({
            let d = K { declaring: Some(name), ..k };
            let s = sem_at(d, g);
            let typ = info_type(find(k.env, name).unwrap());
            has_type(s, start_mode(), Seq::empty(), typ, tt) && reduces_to_sort(
                s,
                start_mode(),
                Seq::empty(),
                tt,
                l,
            )
        }),
    ensures
        ({
            let i = find(k.env, name).unwrap();
            let d = K { declaring: Some(name), ..k };
            let s = sem_at(d, g);
            let m = start_mode();
            let none = Seq::<Term>::empty();
            let r = decl_spec(k, g, name, kind);
            let twice = exists|x: int, y: int|
                0 <= x < y < info_params(i).len() && info_params(i)[x] == info_params(i)[y];
            let small = kind == "theorem"@ ==> is_zero(l);
            &&& twice ==> is_reject(r)
            &&& !twice && !small ==> is_reject(r)
            &&& !twice && small ==> match info_value(i) {
                None => r is Ok,
                Some(v) => {
                    &&& has_type(s, m, none, v, vt) && converts(s, m, none, vt, info_type(i)) ==> r
                        is Ok
                    &&& has_type(s, m, none, v, vt) && (s.defeq)(m, none, vt, info_type(i)) == Ok::<
                        bool,
                        Fault,
                    >(false) && (infer_eager(d, s, eager_mode(m), none, v) is Err || (infer_eager(
                        d,
                        s,
                        eager_mode(m),
                        none,
                        v,
                    ) == Ok::<Term, Fault>(et) && crate::conv::defeq_eager(
                        d,
                        s,
                        eager_mode(m),
                        none,
                        et,
                        info_type(i),
                    ) == Ok::<bool, Fault>(false))) ==> is_reject(r)
                },
            }
        }),
{
    reveal(decl_spec);
    reveal(decl_body_ok);
    let i = find(k.env, name).unwrap();
    let d = while_declaring(k, name);
    let s = sem_at(d, g);
    law_sort_of_type(d, s, start_mode(), Seq::empty(), info_type(i), tt, l);
    assert(is_zero(l) == univ_eq(l, Univ::Zero)) by {
        if is_zero(l) {
            assert forall|rho: spec_fn(u32) -> nat| #[trigger] univ_value(l, rho) == univ_value(
                Univ::Zero,
                rho,
            ) by {}
        }
        if univ_eq(l, Univ::Zero) {
            assert forall|rho: spec_fn(u32) -> nat| #[trigger] univ_value(l, rho) == 0 by {
                assert(univ_value(l, rho) == univ_value(Univ::Zero, rho));
            }
        }
    }
}

/// A type that is judged a proposition is one for a reason that its head normal
/// form shows: it is a variable whose type reduces to the sort of propositions; a
/// function type into a proposition; an inductive family with all its arguments
/// whose declared type ends in that sort; a constant whose declared type ends in
/// that sort behind as many binders as there are arguments; or its type shows that
/// sort.
pub open spec fn is_prop_because(k: K, s: Sem, m: Mode, ctx: Seq<Term>, w: Term) -> bool {
    ||| (w matches Term::BVar(i) && i < ctx.len() && exists|l: Univ|
        is_zero(l) && #[trigger] reduces_to_sort(
            s,
            m,
            ctx,
            lift(ctx[ctx.len() - 1 - i], i + 1, 0),
            l,
        ))
    ||| (w matches Term::Pi(_, d, b) && (s.is_prop)(m, ctx.push(*d), *b) == Ok::<bool, Fault>(
        true,
    ))
    ||| (spine_head(w) matches Term::Const(n, _) && (find(k.env, n) matches Some(
        Info::InductiveType { typ, num_params, num_indices, .. },
    ) && spine_args(w).len() >= num_params + num_indices && crate::lookup::ends_in_prop(typ)))
    ||| (spine_head(w) matches Term::Const(n, _) && (find(k.env, n) matches Some(i)
        && crate::lookup::ends_in_prop_after(info_type(i), spine_args(w).len())))
    ||| exists|l: Univ| is_zero(l) && #[trigger] is_type_at(k, s, infer_only_mode(m), ctx, w, l)
}

proof fn lemma_zero(l: Univ)
    ensures
        is_zero(l) == univ_eq(l, Univ::Zero),
{
    if univ_eq(l, Univ::Zero) {
        assert forall|rho: spec_fn(u32) -> nat| #[trigger] univ_value(l, rho) == 0 by {
            assert(univ_value(l, rho) == univ_value(Univ::Zero, rho));
        }
    }
}

/// What is judged a proposition is one for a reason. A sort is none, a function
/// type is one exactly where its codomain is, and where the reduced type's own type
/// reduces to the sort of propositions, with arguments taken for granted, the type
/// is one.
pub proof fn law_propositions(k: K, s: Sem, m: Mode, ctx: Seq<Term>, t: Term, w: Term, wt: Term, l: Univ)
    requires
        reduces(s, m, ctx, t, w),
    ensures
        is_prop_step(k, s, m, ctx, t) == Ok::<bool, Fault>(true) ==> is_prop_because(
            k,
            s,
            m,
            ctx,
            w,
        ),
        w is Sort ==> is_prop_step(k, s, m, ctx, t) == Ok::<bool, Fault>(false),
        w matches Term::Pi(_, d, b) ==> is_prop_step(k, s, m, ctx, t) == (s.is_prop)(
            m,
            ctx.push(*d),
            *b,
        ),
        !(w is Sort) && !(w is Pi) && !(w is BVar) && has_type(s, infer_only_mode(m), ctx, w, wt)
            && reduces_to_sort(s, infer_only_mode(m), ctx, wt, l) && is_zero(l) ==> is_prop_step(
            k,
            s,
            m,
            ctx,
            t,
        ) == Ok::<bool, Fault>(true),
{
    reveal(is_prop_step);
    let q = infer_only_mode(m);
    lemma_sort_of(k, s, q, ctx, w);
    law_sort_of_type(k, s, q, ctx, w, wt, l);
    lemma_zero(l);
    match sort_of(k, s, q, ctx, w) {
        Ok(x) => {
            lemma_zero(x);
        },
        Err(_) => {},
    }
    match w {
        Term::BVar(i) => match local_type(ctx, i) {
            Some(vt) => match (s.whnf)(m, ctx, vt) {
                Ok(Term::Sort(x)) => {
                    lemma_zero(x);
                    assert(reduces_to_sort(s, m, ctx, vt, x));
                },
                _ => {},
            },
            None => {},
        },
        _ => {},
    }
}

} // verus!
