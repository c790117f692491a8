//! What it takes for a group of inductive types to be accepted.

use crate::conv::pairwise;
use crate::env::{find, rec_of, Info};
use crate::errors::Fault;
use crate::expr::{plug1, spine_args, spine_head, subst_params, BinderInfo, Term};
use crate::inductive::{
    all_ctors_ok, closed_level, conclusion_ok, ctor_ok, ctors_ok, elim_only_spec, group_ok,
    group_recursors, inductive_group_spec, insert_id, may_be_prop, motive_small, motives_small,
    open_fields, open_params, param_levels, pi_doms, rec_small, shared_by, too_big, type_shape,
    type_shapes, under_succs, Shared,
};
use crate::iota::{occurs_any_spec, pi_target};
use crate::kernel::{K, Mode, NEST_LIMIT, STEP_LIMIT, Sem};
use crate::level::{univ_eq, univ_le, univ_value, univs_eq, Univ};
use crate::positive::{
    apply_shown, are_params, arg_positive, ctor_positive, ctors_positive, fields_positive,
    is_visited, lift_visiting, nested_positive, occurs_in_any, param_var, peel_domains,
    positive_whnf, types_positive, PositiveFor, Visiting,
};
use crate::reduce::{ensure_pi_spec, ensure_sort_spec, open_spec};
use crate::sameness::convert_all;
use crate::typing::{
    converts, has_type, is_reject, is_zero, law_showing, reduces, reduces_to_sort, shows, shows_pi,
};
use vstd::prelude::*;

verus! {

/// Behind as many binders, each made to show, stands the type in the scope.
pub open spec fn opens(
    k: K,
    s: Sem,
    m: Mode,
    ctx: Seq<Term>,
    t: Term,
    n: nat,
    c1: Seq<Term>,
    t1: Term,
) -> bool
    decreases n,
{
    if n == 0 {
        c1 == ctx && t1 == t
    } else {
        exists|bi: BinderInfo, d: Term, b: Term| #[trigger]
            shows_pi(k, s, m, ctx, t, bi, d, b) && opens(
                k,
                s,
                m,
                ctx.push(d),
                b,
                (n - 1) as nat,
                c1,
                t1,
            )
    }
}

/// Opening a type binds as many types as it is asked to, each the domain that
/// shows.
pub proof fn law_opened(
    k: K,
    s: Sem,
    m: Mode,
    ctx: Seq<Term>,
    t: Term,
    n: nat,
    c1: Seq<Term>,
    t1: Term,
)
    requires
        open_spec(k, s, m, ctx, t, n) == Ok::<(Seq<Term>, Term), Fault>((c1, t1)),
    ensures
        opens(k, s, m, ctx, t, n, c1, t1),
        c1.len() == ctx.len() + n,
        c1.take(ctx.len() as int) == ctx,
    decreases n,
{
    if n > 0 {
        law_showing(k, s, m, ctx, t, t);
        let (bi, d, b) = ensure_pi_spec(k, s, m, ctx, t)->Ok_0;
        assert(shows_pi(k, s, m, ctx, t, bi, d, b));
        law_opened(k, s, m, ctx.push(d), b, (n - 1) as nat, c1, t1);
        assert(c1.take(ctx.len() as int) =~= c1.take(ctx.len() as int + 1).take(ctx.len() as int));
        assert(ctx.push(d).take(ctx.len() as int) =~= ctx);
    } else {
        assert(ctx.take(ctx.len() as int) =~= ctx);
    }
}

proof fn lemma_open_params(
    k: K,
    s: Sem,
    m: Mode,
    ctx: Seq<Term>,
    t: Term,
    params: Seq<Term>,
    i: nat,
    n: nat,
    msg: Seq<char>,
    c1: Seq<Term>,
    t1: Term,
)
    requires
        i <= n,
        i == ctx.len(),
        open_params(k, s, m, ctx, t, params, i, n, msg) == Ok::<(Seq<Term>, Term), Fault>(
            (c1, t1),
        ),
    ensures
        opens(k, s, m, ctx, t, (n - i) as nat, c1, t1),
        c1.len() == n,
        c1.take(i as int) == ctx,
        forall|j: int|
            i <= j < n ==> #[trigger] converts(s, m, c1.take(j), c1[j], params[j]),
    decreases n - i,
{
    if i < n {
        law_showing(k, s, m, ctx, t, t);
        let (bi, d, b) = ensure_pi_spec(k, s, m, ctx, t)->Ok_0;
        assert(shows_pi(k, s, m, ctx, t, bi, d, b));
        lemma_open_params(k, s, m, ctx.push(d), b, params, i + 1, n, msg, c1, t1);
        assert(c1.take(i as int) =~= c1.take(i as int + 1).take(i as int));
        assert(ctx.push(d).take(i as int) =~= ctx);
        assert(c1[i as int] == c1.take(i as int + 1)[i as int]);
        assert(converts(s, m, c1.take(i as int), c1[i as int], params[i as int]));
    } else {
        assert(ctx.take(i as int) =~= ctx);
    }
}

/// The scope and the type behind the parameters, which are those of the group.
pub open spec fn has_params(
    k: K,
    s: Sem,
    m: Mode,
    typ: Term,
    params: Seq<Term>,
    n: nat,
    c1: Seq<Term>,
    t1: Term,
) -> bool {
    &&& opens(k, s, m, Seq::empty(), typ, n, c1, t1)
    &&& c1.len() == n
    &&& forall|j: int| 0 <= j < n ==> #[trigger] converts(s, m, c1.take(j), c1[j], params[j])
}

/// The terms come from one another by taking a function type, in whose domain none
/// of the names occurs, to the head normal form of its codomain.
pub open spec fn walks(s: Sem, m: Mode, ctx: Seq<Term>, names: Seq<u32>, ws: Seq<Term>, ds: Seq<Term>) -> bool {
    &&& ws.len() == ds.len() + 1
    &&& forall|i: int|
        0 <= i < ds.len() ==> walk_step(s, m, ctx + ds.take(i), names, #[trigger] ws[i], ds[i], ws[i + 1])
}

/// The first term is a function type over the domain, which none of the names
/// occurs in, and its codomain reduces to the second.
pub open spec fn walk_step(
    s: Sem,
    m: Mode,
    ctx: Seq<Term>,
    names: Seq<u32>,
    a: Term,
    d: Term,
    b: Term,
) -> bool {
    a matches Term::Pi(_, dom, body) && *dom == d && !occurs_any_spec(d, names) && reduces(
        s,
        m,
        ctx.push(d),
        *body,
        b,
    )
}

proof fn lemma_walk(
    s: Sem,
    m: Mode,
    ctx: Seq<Term>,
    t: Term,
    names: Seq<u32>,
    peeled: nat,
    n: nat,
    c2: Seq<Term>,
    e: Term,
    p2: nat,
)
    requires
        peel_domains(s, m, ctx, t, names, peeled, n) == Ok::<(Seq<Term>, Term, nat), Fault>(
            (c2, e, p2),
        ),
    ensures
        !(e is Pi),
        exists|ws: Seq<Term>, ds: Seq<Term>| #[trigger]
            walks(s, m, ctx, names, ws, ds) && ws[0] == t && ws.last() == e && c2 == ctx + ds && p2
                == peeled + ds.len(),
    decreases n,
{
    match t {
        Term::Pi(_, dom, body) => {
            let d = *dom;
            let w = positive_whnf(s, m, ctx.push(d), *body)->Ok_0;
            lemma_walk(s, m, ctx.push(d), w, names, peeled + 1, (n - 1) as nat, c2, e, p2);
            let (ws, ds) = choose|ws: Seq<Term>, ds: Seq<Term>| #[trigger]
                walks(s, m, ctx.push(d), names, ws, ds) && ws[0] == w && ws.last() == e && c2
                    == ctx.push(d) + ds && p2 == peeled + 1 + ds.len();
            let ws2 = seq![t] + ws;
            let ds2 = seq![d] + ds;
            assert forall|i: int| 0 <= i < ds2.len() implies walk_step(
                s,
                m,
                ctx + ds2.take(i),
                names,
                #[trigger] ws2[i],
                ds2[i],
                ws2[i + 1],
            ) by {
                if i == 0 {
                    assert(ctx + ds2.take(0) =~= ctx);
                } else {
                    assert(ws2[i] == ws[i - 1]);
                    assert(ws2[i + 1] == ws[i]);
                    assert(ctx + ds2.take(i) =~= ctx.push(d) + ds.take(i - 1));
                }
            }
            assert(walks(s, m, ctx, names, ws2, ds2));
            assert(ctx + ds2 =~= ctx.push(d) + ds);
        },
        _ => {
            let ws = seq![t];
            let ds = Seq::<Term>::empty();
            assert(walks(s, m, ctx, names, ws, ds));
            assert(ctx + ds =~= ctx);
        },
    }
}

proof fn lemma_are_params(s: Sem, m: Mode, ctx: Seq<Term>, args: Seq<Term>, i: nat, n: nat)
    requires
        are_params(s, m, ctx, args, i, n) == Ok::<bool, Fault>(true),
        ctx.len() < 0x1_0000_0000,
        n <= ctx.len(),
    ensures
        forall|j: int|
            i <= j < n ==> #[trigger] is_param(s, m, ctx, args[j], j),
    decreases n - i,
{
    if i < n {
        lemma_are_params(s, m, ctx, args, i + 1, n);
        assert(param_var(ctx.len(), i) == Term::BVar((ctx.len() - 1 - i) as u32));
        assert(is_param(s, m, ctx, args[i as int], i as int));
    }
}

/// The term is the same as the variable that the parameter at the position is bound
/// to.
pub open spec fn is_param(s: Sem, m: Mode, ctx: Seq<Term>, e: Term, j: int) -> bool {
    converts(s, m, ctx, e, Term::BVar((ctx.len() - 1 - j) as u32))
}

/// The term is a type of the group, at the group's own parameters, and the group
/// occurs in none of its arguments.
pub open spec fn is_recursive_use(s: Sem, m: Mode, ctx: Seq<Term>, e: Term, p: PositiveFor) -> bool {
    spine_head(e) matches Term::Const(c, _) && p.bound.contains(c) && spine_args(e).len()
        >= p.num_params && !occurs_in_any(spine_args(e), p.bound) && forall|j: int|
        0 <= j < p.num_params && p.num_params <= ctx.len() < 0x1_0000_0000 ==> #[trigger] is_param(
            s,
            m,
            ctx,
            spine_args(e)[j],
            j,
        )
}

/// The term is an instance of an inductive type outside the group, and the group
/// occurs in none of its indices.
pub open spec fn is_nested_use(k: K, e: Term, p: PositiveFor) -> bool {
    spine_head(e) matches Term::Const(c, us) && !p.bound.contains(c) && (find(
        k.env,
        c,
    ) matches Some(Info::InductiveType { num_params, level_params, .. }) && num_params
        <= spine_args(e).len() && level_params.len() == us.len() && !occurs_in_any(
        spine_args(e).skip(num_params as int),
        p.bound,
    ))
}

/// An argument type that is positive reduces to a telescope of function types in
/// none of whose domains the group occurs, and what stands behind it does not
/// mention the group, is a type of the group at the group's own parameters, or is
/// an instance of another inductive type in which the group is positive.
pub proof fn law_positive_argument(
    k: K,
    s: Sem,
    m: Mode,
    ctx: Seq<Term>,
    ty: Term,
    p: PositiveFor,
    v: Visiting,
    n: nat,
)
    requires
        arg_positive(k, s, m, ctx, ty, p, v, n) is Ok,
    ensures
        exists|ws: Seq<Term>, ds: Seq<Term>| #[trigger]
            walks(s, m, ctx, p.bound, ws, ds) && reduces(s, m, ctx, ty, ws[0]) && !(ws.last() is Pi)
                && (!occurs_any_spec(ws.last(), p.bound) || is_recursive_use(
                s,
                m,
                ctx + ds,
                ws.last(),
                p,
            ) || (is_nested_use(k, ws.last(), p) && nested_positive(
                k,
                s,
                m,
                ctx + ds,
                spine_head(ws.last())->Const_0,
                spine_head(ws.last())->Const_1,
                spine_args(ws.last()),
                p,
                lift_visiting(v, ds.len() as int),
                n,
            ) is Ok)),
{
    let w = positive_whnf(s, m, ctx, ty)->Ok_0;
    let (c2, e, peeled) = peel_domains(s, m, ctx, w, p.bound, 0, STEP_LIMIT as nat)->Ok_0;
    lemma_walk(s, m, ctx, w, p.bound, 0, STEP_LIMIT as nat, c2, e, peeled);
    let (ws, ds) = choose|ws: Seq<Term>, ds: Seq<Term>| #[trigger]
        walks(s, m, ctx, p.bound, ws, ds) && ws[0] == w && ws.last() == e && c2 == ctx + ds
            && peeled == ds.len();
    assert(walks(s, m, ctx, p.bound, ws, ds) && reduces(s, m, ctx, ty, ws[0]));
    if occurs_any_spec(e, p.bound) {
        match spine_head(e) {
            Term::Const(c, us) => {
                if p.bound.contains(c) {
                    if p.num_params <= c2.len() < 0x1_0000_0000 {
                        lemma_are_params(s, m, c2, spine_args(e), 0, p.num_params as nat);
                    }
                    assert(is_recursive_use(s, m, ctx + ds, e, p));
                }
            },
            _ => {},
        }
    }
}

/// An argument type with the group to the left of an arrow is rejected, and so is
/// one that uses the group at the head of no constant.
pub proof fn law_negative_is_rejected(
    k: K,
    s: Sem,
    m: Mode,
    ctx: Seq<Term>,
    ty: Term,
    w: Term,
    p: PositiveFor,
    v: Visiting,
    n: nat,
)
    requires
        reduces(s, m, ctx, ty, w),
    ensures
        (w matches Term::Pi(_, d, _) && occurs_any_spec(*d, p.bound)) ==> is_reject(
            arg_positive(k, s, m, ctx, ty, p, v, n),
        ),
        !(w is Pi) && occurs_any_spec(w, p.bound) && !(spine_head(w) is Const) ==> is_reject(
            arg_positive(k, s, m, ctx, ty, p, v, n),
        ),
{
}

/// The type at these parameters is under way already.
pub open spec fn under_way(
    s: Sem,
    m: Mode,
    ctx: Seq<Term>,
    v: Visiting,
    f: u32,
    params: Seq<Term>,
) -> bool {
    exists|i: int|
        0 <= i < v.len() && (#[trigger] v[i]).0 == f && convert_all(s, m, ctx, v[i].1, params)
}

proof fn lemma_pairs(s: Sem, m: Mode, ctx: Seq<Term>, a1: Seq<Term>, a2: Seq<Term>, i: nat)
    requires
        pairwise(s, m, ctx, a1, a2, i) == Ok::<bool, Fault>(true),
    ensures
        a1.len() == a2.len(),
        forall|j: int| i <= j < a1.len() ==> #[trigger] converts(s, m, ctx, a1[j], a2[j]),
    decreases a1.len() - i,
{
    if i < a1.len() {
        lemma_pairs(s, m, ctx, a1, a2, i + 1);
    }
}

proof fn lemma_visited(
    s: Sem,
    m: Mode,
    ctx: Seq<Term>,
    v: Visiting,
    f: u32,
    params: Seq<Term>,
    i: nat,
)
    requires
        is_visited(s, m, ctx, v, f, params, i) == Ok::<bool, Fault>(true),
    ensures
        under_way(s, m, ctx, v, f, params),
    decreases v.len() - i,
{
    if i < v.len() {
        if v[i as int].0 == f && pairwise(s, m, ctx, v[i as int].1, params, 0) == Ok::<
            bool,
            Fault,
        >(true) {
            lemma_pairs(s, m, ctx, v[i as int].1, params, 0);
        } else {
            lemma_visited(s, m, ctx, v, f, params, i + 1);
        }
    }
}

proof fn lemma_ctors_positive(
    k: K,
    s: Sem,
    m: Mode,
    ctx: Seq<Term>,
    ctors: Seq<u32>,
    i: nat,
    us: Seq<Univ>,
    params: Seq<Term>,
    p: PositiveFor,
    v: Visiting,
    n: nat,
    x: nat,
)
    requires
        ctors_positive(k, s, m, ctx, ctors, i, us, params, p, v, n) is Ok,
        i <= x < ctors.len(),
    ensures
        ctor_positive(k, s, m, ctx, ctors[x as int], us, params, p, v, n) is Ok,
    decreases x - i,
{
    if i < x {
        lemma_ctors_positive(k, s, m, ctx, ctors, i + 1, us, params, p, v, n, x);
    }
}

proof fn lemma_types_positive(
    k: K,
    s: Sem,
    m: Mode,
    ctx: Seq<Term>,
    group: Seq<u32>,
    i: nat,
    us: Seq<Univ>,
    params: Seq<Term>,
    p: PositiveFor,
    v: Visiting,
    n: nat,
    j: nat,
)
    requires
        types_positive(k, s, m, ctx, group, i, us, params, p, v, n) is Ok,
        i <= j < group.len(),
    ensures
        find(k.env, group[j as int]) matches Some(Info::InductiveType { ctors, .. })
            ==> ctors_positive(k, s, m, ctx, ctors, 0, us, params, p, v, n) is Ok,
    decreases j - i,
{
    if i < j {
        lemma_types_positive(k, s, m, ctx, group, i + 1, us, params, p, v, n, j);
    }
}

/// Where the group is positive inside an instance of another inductive type that is
/// not under way already, it is so in every constructor of every type that is
/// declared together with that one.
pub proof fn law_nested_use(
    k: K,
    s: Sem,
    m: Mode,
    ctx: Seq<Term>,
    f: u32,
    us: Seq<Univ>,
    args: Seq<Term>,
    p: PositiveFor,
    v: Visiting,
    n: nat,
    j: nat,
    x: nat,
)
    requires
        nested_positive(k, s, m, ctx, f, us, args, p, v, n) is Ok,
    ensures
        find(k.env, f) matches Some(Info::InductiveType { num_params, all, level_params, .. }) && {
            let params = args.take(num_params as int);
            let group = if all.len() == 0 {
                seq![f]
            } else {
                all
            };
            let v2 = v + Seq::new(group.len(), |i: int| (group[i], params));
            &&& num_params <= args.len()
            &&& level_params.len() == us.len()
            &&& !occurs_in_any(args.skip(num_params as int), p.bound)
            &&& under_way(s, m, ctx, v, f, params) || (occurs_in_any(params, p.bound) && (j
                < group.len() ==> (find(k.env, group[j as int]) matches Some(
                Info::InductiveType { ctors, .. },
            ) ==> x < ctors.len() ==> ctor_positive(
                k,
                s,
                m,
                ctx,
                ctors[x as int],
                us,
                params,
                p,
                v2,
                n,
            ) is Ok)))
        },
{
    match find(k.env, f) {
        Some(Info::InductiveType { num_params, all, .. }) => {
            let params = args.take(num_params as int);
            let group = if all.len() == 0 {
                seq![f]
            } else {
                all
            };
            let v2 = v + Seq::new(group.len(), |i: int| (group[i], params));
            if is_visited(s, m, ctx, v, f, params, 0) == Ok::<bool, Fault>(true) {
                lemma_visited(s, m, ctx, v, f, params, 0);
            } else if j < group.len() {
                lemma_types_positive(k, s, m, ctx, group, 0, us, params, p, v2, n, j);
                match find(k.env, group[j as int]) {
                    Some(Info::InductiveType { ctors, .. }) => {
                        if x < ctors.len() {
                            lemma_ctors_positive(k, s, m, ctx, ctors, 0, us, params, p, v2, n, x);
                        }
                    },
                    _ => {},
                }
            }
        },
        _ => {},
    }
}

proof fn lemma_fields_positive(
    k: K,
    s: Sem,
    m: Mode,
    ctx: Seq<Term>,
    t: Term,
    p: PositiveFor,
    v: Visiting,
    n: nat,
    concl: Term,
    q: nat,
)
    requires
        fields_positive(k, s, m, ctx, t, p, v, n) == Ok::<Term, Fault>(concl),
    ensures
        concl == pi_target(t),
        q < pi_doms(t).len() ==> n > 0 && exists|u: Visiting| #[trigger]
            arg_positive(
                k,
                s,
                m,
                ctx + pi_doms(t).take(q as int),
                pi_doms(t)[q as int],
                p,
                u,
                (n - 1) as nat,
            ) is Ok,
    decreases t,
{
    match t {
        Term::Pi(_, dom, body) => {
            let ds = pi_doms(t);
            let rest = pi_doms(*body);
            if q == 0 {
                lemma_fields_positive(
                    k,
                    s,
                    m,
                    ctx.push(*dom),
                    *body,
                    p,
                    lift_visiting(v, 1),
                    n,
                    concl,
                    0,
                );
                assert(ctx + ds.take(0) =~= ctx);
                assert(arg_positive(k, s, m, ctx + ds.take(0), ds[0], p, v, (n - 1) as nat) is Ok);
            } else {
                lemma_fields_positive(
                    k,
                    s,
                    m,
                    ctx.push(*dom),
                    *body,
                    p,
                    lift_visiting(v, 1),
                    n,
                    concl,
                    (q - 1) as nat,
                );
                if q < ds.len() {
                    assert(ds[q as int] == rest[q - 1]);
                    assert(ctx + ds.take(q as int) =~= ctx.push(*dom) + rest.take(q - 1));
                }
            }
        },
        _ => {},
    }
}

/// The type with the arguments put in for its outermost binders.
pub open spec fn filled(t: Term, args: Seq<Term>) -> Option<Term>
    decreases args.len(),
{
    if args.len() == 0 {
        Some(t)
    } else {
        match t {
            Term::Pi(_, _, b) => filled(plug1(*b, args[0]), args.drop_first()),
            _ => None,
        }
    }
}

proof fn lemma_filled(t: Term, args: Seq<Term>, i: nat)
    requires
        i <= args.len(),
    ensures
        apply_shown(t, args, i) == filled(t, args.skip(i as int)),
    decreases args.len() - i,
{
    if i < args.len() {
        match t {
            Term::Pi(_, _, b) => {
                lemma_filled(plug1(*b, args[i as int]), args, i + 1);
                assert(args.skip(i as int).drop_first() =~= args.skip(i as int + 1));
                assert(args.skip(i as int)[0] == args[i as int]);
            },
            _ => {},
        }
    }
}

/// Where the group is positive in a constructor of another type at some parameters,
/// the type of every field of the constructor, with these parameters put in, is
/// positive in the scope of the fields before it.
pub proof fn law_nested_constructor(
    k: K,
    s: Sem,
    m: Mode,
    ctx: Seq<Term>,
    c: u32,
    us: Seq<Univ>,
    params: Seq<Term>,
    p: PositiveFor,
    v: Visiting,
    n: nat,
    q: nat,
)
    requires
        ctor_positive(k, s, m, ctx, c, us, params, p, v, n) is Ok,
    ensures
        find(k.env, c) matches Some(Info::Constructor { level_params, typ, num_params, .. })
            && num_params == params.len() && level_params.len() == us.len() && (filled(
            subst_params(typ, level_params, us),
            params,
        ) matches Some(t) && (q < pi_doms(t).len() ==> exists|u: Visiting| #[trigger]
            arg_positive(
                k,
                s,
                m,
                ctx + pi_doms(t).take(q as int),
                pi_doms(t)[q as int],
                p,
                u,
                (n - 1) as nat,
            ) is Ok)),
{
    match find(k.env, c) {
        Some(Info::Constructor { level_params, typ, .. }) => {
            let start = subst_params(typ, level_params, us);
            lemma_filled(start, params, 0);
            assert(params.skip(0) =~= params);
            let t = apply_shown(start, params, 0).unwrap();
            let concl = fields_positive(k, s, m, ctx, t, p, v, n)->Ok_0;
            lemma_fields_positive(k, s, m, ctx, t, p, v, n, concl, q);
        },
        _ => {},
    }
}

/// The level of a field is not above that of the type: where both are built of zero
/// and successors, its value is at most that of the type's; nothing is above a
/// proposition.
pub open spec fn level_allowed(field: Univ, sort: Univ) -> bool {
    is_zero(sort) || (closed_level(field) && closed_level(sort) ==> forall|
        rho: spec_fn(u32) -> nat,
    | #[trigger] univ_value(field, rho) <= univ_value(sort, rho))
}

proof fn lemma_closed_value(l: Univ, r1: spec_fn(u32) -> nat, r2: spec_fn(u32) -> nat)
    requires
        closed_level(l),
    ensures
        univ_value(l, r1) == univ_value(l, r2),
    decreases l,
{
    match l {
        Univ::Succ(a) => lemma_closed_value(*a, r1, r2),
        _ => {},
    }
}

proof fn lemma_under_succs(l: Univ, rho: spec_fn(u32) -> nat)
    ensures
        univ_value(under_succs(l), rho) <= univ_value(l, rho),
    decreases l,
{
    match l {
        Univ::Succ(a) => lemma_under_succs(*a, rho),
        _ => {},
    }
}

proof fn lemma_is_zero(l: Univ)
    ensures
        is_zero(l) == univ_eq(l, Univ::Zero),
{
    if univ_eq(l, Univ::Zero) {
        assert forall|rho: spec_fn(u32) -> nat| #[trigger] univ_value(l, rho) == 0 by {
            assert(univ_value(l, rho) == univ_value(Univ::Zero, rho));
        }
    }
}

/// A level that is too big for a type is above that of the type, whatever the
/// universe parameters are, and the type is no proposition. Between levels built of
/// zero and successors that is all it takes.
pub proof fn law_too_big(field: Univ, sort: Univ, rho: spec_fn(u32) -> nat)
    ensures
        too_big(field, sort) ==> univ_value(field, rho) > univ_value(sort, rho) && !is_zero(sort),
        closed_level(field) && closed_level(sort) ==> (too_big(field, sort) <==> univ_value(
            field,
            rho,
        ) > univ_value(sort, rho) && univ_value(sort, rho) != 0),
        !too_big(field, sort) ==> level_allowed(field, sort),
{
    lemma_is_zero(sort);
    if too_big(field, sort) || (closed_level(field) && closed_level(sort)) {
        if closed_level(field) && closed_level(sort) {
            assert forall|r: spec_fn(u32) -> nat|
                univ_value(field, r) == univ_value(field, rho) && #[trigger] univ_value(sort, r)
                    == univ_value(sort, rho) by {
                lemma_closed_value(field, r, rho);
                lemma_closed_value(sort, r, rho);
            }
            assert(forall|r: spec_fn(u32) -> nat| #[trigger]
                univ_value(field, r) == univ_value(field, rho)) by {
                assert forall|r: spec_fn(u32) -> nat| #[trigger]
                    univ_value(field, r) == univ_value(field, rho) by {
                    lemma_closed_value(field, r, rho);
                }
            }
            if univ_value(field, rho) <= univ_value(sort, rho) {
                assert(univ_le(field, sort));
            }
            if is_zero(sort) {
                assert(univ_value(sort, rho) == 0);
            } else if univ_value(sort, rho) == 0 {
                assert(is_zero(sort));
            }
        }
        match field {
            Univ::Succ(a) => {
                lemma_under_succs(*a, rho);
                assert(univ_value(under_succs(field), rho) == univ_value(under_succs(*a), rho));
                if univ_eq(under_succs(field), sort) {
                    assert(univ_value(under_succs(field), rho) == univ_value(sort, rho));
                }
            },
            _ => {},
        }
    }
}

/// The field at its place is accepted: its type is positive for the group, and
/// where its sort shows, the sort is not too big for the type.
pub open spec fn field_accepted(
    k: K,
    s: Sem,
    m: Mode,
    ctx: Seq<Term>,
    d: Term,
    all: Seq<u32>,
    np: u32,
    sort: Univ,
) -> bool {
    &&& arg_positive(
        k,
        s,
        m,
        ctx,
        d,
        PositiveFor { bound: all, num_params: np },
        Seq::empty(),
        NEST_LIMIT as nat,
    ) is Ok
    &&& (exists|w: Term| #[trigger]
        reduces(s, m, ctx, d, w) && (w matches Term::Pi(_, dom, _) ==> !occurs_any_spec(*dom, all)))
    &&& exists|dt: Term| #[trigger]
        has_type(s, m, ctx, d, dt) && forall|l: Univ| #[trigger]
            reduces_to_sort(s, m, ctx, dt, l) ==> !too_big(l, sort) && level_allowed(l, sort)
}

proof fn lemma_open_fields(
    k: K,
    s: Sem,
    m: Mode,
    ctx: Seq<Term>,
    t: Term,
    sh: Shared,
    sort: Univ,
    c2: Seq<Term>,
    e: Term,
    q: nat,
)
    requires
        open_fields(k, s, m, ctx, t, sh, sort) == Ok::<(Seq<Term>, Term), Fault>((c2, e)),
    ensures
        c2 == ctx + pi_doms(t),
        e == pi_target(t),
        q < pi_doms(t).len() ==> field_accepted(
            k,
            s,
            m,
            ctx + pi_doms(t).take(q as int),
            pi_doms(t)[q as int],
            sh.all,
            sh.num_params,
            sort,
        ),
    decreases t,
{
    match t {
        Term::Pi(_, dom, body) => {
            let d = *dom;
            let ds = pi_doms(t);
            let rest = pi_doms(*body);
            lemma_open_fields(
                k,
                s,
                m,
                ctx.push(d),
                *body,
                sh,
                sort,
                c2,
                e,
                if q == 0 {
                    0
                } else {
                    (q - 1) as nat
                },
            );
            assert(ctx.push(d) + rest =~= ctx + ds);
            if q == 0 {
                assert(ctx + ds.take(0) =~= ctx);
                let dt = (s.infer)(m, ctx, d)->Ok_0;
                assert(has_type(s, m, ctx, d, dt));
                assert forall|l: Univ| #[trigger] reduces_to_sort(s, m, ctx, dt, l) implies !too_big(
                    l,
                    sort,
                ) && level_allowed(l, sort) by {
                    law_showing(k, s, m, ctx, dt, Term::Sort(l));
                    law_too_big(l, sort, |u: u32| 0nat);
                }
                let w = (s.whnf)(m, ctx, d)->Ok_0;
                assert(reduces(s, m, ctx, d, w));
                assert(ds[0] == d);
                assert(field_accepted(k, s, m, ctx, d, sh.all, sh.num_params, sort));
            } else if q < ds.len() {
                assert(ds[q as int] == rest[q - 1]);
                assert(ctx + ds.take(q as int) =~= ctx.push(d) + rest.take(q - 1));
            }
        },
        _ => {
            assert(ctx + pi_doms(t) =~= ctx);
        },
    }
}

/// The term is the type at the universe parameters of the group, applied to the
/// group's parameters and to as many indices as it has, in none of which the group
/// occurs.
pub open spec fn concludes_in(
    s: Sem,
    m: Mode,
    ctx: Seq<Term>,
    e: Term,
    t: u32,
    num_indices: u32,
    sh: Shared,
) -> bool {
    let args = spine_args(e);
    spine_head(e) matches Term::Const(c, us) && c == t && us.len() == sh.level_params.len() && (
    forall|i: int|
        0 <= i < us.len() ==> #[trigger] univ_eq(us[i], Univ::Param(sh.level_params[i])))
        && args.len() == sh.num_params + num_indices && !occurs_in_any(
        args.skip(sh.num_params as int),
        sh.all,
    ) && (sh.num_params <= ctx.len() < 0x1_0000_0000 ==> forall|j: int|
        0 <= j < sh.num_params ==> #[trigger] is_param(s, m, ctx, args[j], j))
}

/// The constructor is accepted for the type: behind the group's parameters, each of
/// its fields is accepted in the scope of those before it, and what stands behind
/// all of them is the type itself.
pub open spec fn ctor_accepted(
    k: K,
    s: Sem,
    m: Mode,
    sh: Shared,
    t: u32,
    num_indices: u32,
    sort: Univ,
    typ: Term,
) -> bool {
    exists|c1: Seq<Term>, t1: Term| #[trigger]
        has_params(k, s, m, typ, sh.params, sh.num_params as nat, c1, t1) && (forall|q: int|
            0 <= q < pi_doms(t1).len() ==> field_accepted(
                k,
                s,
                m,
                c1 + pi_doms(t1).take(q),
                #[trigger] pi_doms(t1)[q],
                sh.all,
                sh.num_params,
                sort,
            )) && concludes_in(s, m, c1 + pi_doms(t1), pi_target(t1), t, num_indices, sh)
}

/// The type has the level: behind the group's parameters and as many indices as it
/// has, it shows the sort of it.
pub open spec fn type_has_level(
    k: K,
    s: Sem,
    m: Mode,
    sh: Shared,
    typ: Term,
    num_indices: u32,
    l: Univ,
) -> bool {
    exists|c1: Seq<Term>, t1: Term, c2: Seq<Term>, t2: Term|
        #![trigger has_params(k, s, m, typ, sh.params, sh.num_params as nat, c1, t1), opens(k, s, m, c1, t1, num_indices as nat, c2, t2)]
        has_params(k, s, m, typ, sh.params, sh.num_params as nat, c1, t1) && opens(
            k,
            s,
            m,
            c1,
            t1,
            num_indices as nat,
            c2,
            t2,
        ) && shows(k, s, m, c2, t2, Term::Sort(l))
}

proof fn lemma_ctor_accepted(
    k: K,
    s: Sem,
    m: Mode,
    sh: Shared,
    t: u32,
    ni: u32,
    sort: Univ,
    c: u32,
)
    requires
        ctor_ok(k, s, m, sh, t, ni, sort, c) is Ok,
    ensures
        find(k.env, c) matches Some(Info::Constructor { level_params, typ, num_params, .. })
            ==> level_params == sh.level_params && num_params == sh.num_params && ctor_accepted(
            k,
            s,
            m,
            sh,
            t,
            ni,
            sort,
            typ,
        ),
{
    reveal(ctor_ok);
    reveal(conclusion_ok);
    match find(k.env, c) {
        Some(Info::Constructor { typ, .. }) => {
            let msg = "constructor parameter telescope does not match inductive type"@;
            let none = Seq::<Term>::empty();
            let (c1, t1) = open_params(
                k,
                s,
                m,
                none,
                typ,
                sh.params,
                0,
                sh.num_params as nat,
                msg,
            )->Ok_0;
            lemma_open_params(k, s, m, none, typ, sh.params, 0, sh.num_params as nat, msg, c1, t1);
            let (c2, e) = open_fields(k, s, m, c1, t1, sh, sort)->Ok_0;
            lemma_open_fields(k, s, m, c1, t1, sh, sort, c2, e, 0);
            assert forall|q: int| 0 <= q < pi_doms(t1).len() implies field_accepted(
                k,
                s,
                m,
                c1 + pi_doms(t1).take(q),
                #[trigger] pi_doms(t1)[q],
                sh.all,
                sh.num_params,
                sort,
            ) by {
                lemma_open_fields(k, s, m, c1, t1, sh, sort, c2, e, q as nat);
            }
            if sh.num_params <= c2.len() < 0x1_0000_0000 {
                lemma_are_params(s, m, c2, spine_args(e), 0, sh.num_params as nat);
            }
            match spine_head(e) {
                Term::Const(_, us) => {
                    let ps = param_levels(sh.level_params);
                    assert(univs_eq(us, ps));
                    assert forall|i: int| 0 <= i < us.len() implies #[trigger] univ_eq(
                        us[i],
                        Univ::Param(sh.level_params[i]),
                    ) by {
                        assert(univ_eq(us[i], ps[i]));
                    }
                },
                _ => {},
            }
            assert(has_params(k, s, m, typ, sh.params, sh.num_params as nat, c1, t1));
        },
        _ => {},
    }
}

proof fn lemma_each_shape(k: K, s: Sem, m: Mode, sh: Shared, i: nat, acc: Seq<Option<(u32, Univ)>>, j: nat)
    requires
        i == acc.len(),
        type_shapes(k, s, m, sh, i, acc) is Ok,
        j < sh.all.len(),
        i <= sh.all.len(),
    ensures
        type_shapes(k, s, m, sh, i, acc)->Ok_0.len() == sh.all.len(),
        j < i ==> type_shapes(k, s, m, sh, i, acc)->Ok_0[j as int] == acc[j as int],
        i <= j ==> type_shape(k, s, m, sh, sh.all[j as int]) == Ok::<Option<(u32, Univ)>, Fault>(
            type_shapes(k, s, m, sh, i, acc)->Ok_0[j as int],
        ),
    decreases sh.all.len() - i,
{
    if i < sh.all.len() {
        let x = type_shape(k, s, m, sh, sh.all[i as int])->Ok_0;
        lemma_each_shape(k, s, m, sh, i + 1, acc.push(x), j);
    }
}

proof fn lemma_each_type(
    k: K,
    s: Sem,
    m: Mode,
    sh: Shared,
    shapes: Seq<Option<(u32, Univ)>>,
    i: nat,
    j: nat,
)
    requires
        i <= j < sh.all.len(),
        all_ctors_ok(k, s, m, sh, shapes, i) is Ok,
    ensures
        (find(k.env, sh.all[j as int]), shapes[j as int]) matches (
            Some(Info::InductiveType { ctors, .. }),
            Some((ni, sort)),
        ) ==> ctors_ok(k, s, m, sh, sh.all[j as int], ni, sort, ctors, 0) is Ok,
    decreases j - i,
{
    if i < j {
        lemma_each_type(k, s, m, sh, shapes, i + 1, j);
    }
}

proof fn lemma_each_ctor(
    k: K,
    s: Sem,
    m: Mode,
    sh: Shared,
    t: u32,
    ni: u32,
    sort: Univ,
    ctors: Seq<u32>,
    i: nat,
    x: nat,
)
    requires
        i <= x < ctors.len(),
        ctors_ok(k, s, m, sh, t, ni, sort, ctors, i) is Ok,
    ensures
        ctor_ok(k, s, m, sh, t, ni, sort, ctors[x as int]) is Ok,
    decreases x - i,
{
    if i < x {
        lemma_each_ctor(k, s, m, sh, t, ni, sort, ctors, i + 1, x);
    }
}

/// What the types of the group of `first` share: the parameters that its own type
/// opens with, and its universe parameters, none of which is named twice.
pub open spec fn shares(k: K, s: Sem, m: Mode, first: u32, sh: Shared) -> bool {
    find(k.env, first) matches Some(Info::InductiveType { typ, num_params, all, level_params, .. })
        && sh.num_params == num_params && sh.level_params == level_params && sh.all == all && (
    forall|x: int, y: int| 0 <= x < y < level_params.len() ==> level_params[x] != level_params[y])
        && exists|t1: Term| #[trigger]
        opens(k, s, m, Seq::empty(), typ, num_params as nat, sh.params, t1)
}

/// In a group that is accepted, every type has the universe parameters and the
/// parameters of the group and shows a sort behind its parameters and indices; and
/// every constructor of it has them too. Every field of the constructor is positive
/// for the group and fits that sort, in the scope of the parameters and the fields
/// before it, and what stands behind the fields is the type at the group's own
/// parameters.
pub proof fn law_group(k: K, s: Sem, m: Mode, first: u32, j: nat, x: nat)
    requires
        inductive_group_spec(k, s, m, first) is Ok,
        find(k.env, first) matches Some(Info::InductiveType { all, .. }) && j < all.len(),
    ensures
        exists|sh: Shared| #[trigger]
            shares(k, s, m, first, sh) && (find(k.env, sh.all[j as int]) matches Some(
                Info::InductiveType { typ, num_params, level_params, num_indices, ctors, .. },
            ) ==> num_params == sh.num_params && level_params == sh.level_params && exists|
                sort: Univ,
            | #[trigger]
                type_has_level(k, s, m, sh, typ, num_indices, sort) && (x < ctors.len() ==> (find(
                    k.env,
                    ctors[x as int],
                ) matches Some(Info::Constructor { typ: ct, level_params: lps, num_params: np, .. })
                    ==> lps == sh.level_params && np == sh.num_params && ctor_accepted(
                    k,
                    s,
                    m,
                    sh,
                    sh.all[j as int],
                    num_indices,
                    sort,
                    ct,
                )))),
{
    reveal(inductive_group_spec);
    reveal(group_ok);
    let sh = shared_by(k, s, m, first).unwrap();
    match find(k.env, first) {
        Some(Info::InductiveType { typ, num_params, level_params, .. }) => {
            let (ps, t1) = open_spec(k, s, m, Seq::empty(), typ, num_params as nat)->Ok_0;
            law_opened(k, s, m, Seq::empty(), typ, num_params as nat, ps, t1);
            assert(opens(k, s, m, Seq::empty(), typ, num_params as nat, sh.params, t1));
            assert forall|a: int, b: int| 0 <= a < b < level_params.len() implies level_params[a]
                != level_params[b] by {}
            assert(shares(k, s, m, first, sh));
        },
        _ => {},
    }
    let none = Seq::<Option<(u32, Univ)>>::empty();
    let shapes = type_shapes(k, s, m, sh, 0, none)->Ok_0;
    lemma_each_shape(k, s, m, sh, 0, none, j);
    lemma_each_type(k, s, m, sh, shapes, 0, j);
    let t = sh.all[j as int];
    match find(k.env, t) {
        Some(Info::InductiveType { typ, num_indices, num_params, ctors, .. }) => {
            reveal(type_shape);
            let msg = "inductive type's parameter telescope is inconsistent"@;
            let empty = Seq::<Term>::empty();
            let (c1, t1) = open_params(
                k,
                s,
                m,
                empty,
                typ,
                sh.params,
                0,
                num_params as nat,
                msg,
            )->Ok_0;
            lemma_open_params(k, s, m, empty, typ, sh.params, 0, num_params as nat, msg, c1, t1);
            let (c2, t2) = open_spec(k, s, m, c1, t1, num_indices as nat)->Ok_0;
            law_opened(k, s, m, c1, t1, num_indices as nat, c2, t2);
            law_showing(k, s, m, c2, t2, t2);
            let sort = shapes[j as int].unwrap().1;
            assert(has_params(k, s, m, typ, sh.params, sh.num_params as nat, c1, t1));
            assert(opens(k, s, m, c1, t1, num_indices as nat, c2, t2));
            assert(type_has_level(k, s, m, sh, typ, num_indices, sort));
            if x < ctors.len() {
                lemma_each_ctor(k, s, m, sh, t, num_indices, sort, ctors, 0, x);
                lemma_ctor_accepted(k, s, m, sh, t, num_indices, sort, ctors[x as int]);
            }
        },
        _ => {},
    }
}

/// A constructor with the wrong universe parameters or the wrong number of
/// parameters is rejected, as is a conclusion that is not the type itself, at the
/// group's universe parameters, with the right number of arguments.
pub proof fn law_wrong_constructor(
    k: K,
    s: Sem,
    m: Mode,
    sh: Shared,
    t: u32,
    ni: u32,
    sort: Univ,
    c: u32,
    ctx: Seq<Term>,
    e: Term,
)
    ensures
        (find(k.env, c) matches Some(Info::Constructor { level_params, num_params, .. }) && (
        level_params != sh.level_params || num_params != sh.num_params)) ==> is_reject(
            ctor_ok(k, s, m, sh, t, ni, sort, c),
        ),
        !(spine_head(e) matches Term::Const(n, us) && n == t && univs_eq(
            us,
            param_levels(sh.level_params),
        )) ==> is_reject(conclusion_ok(s, m, ctx, e, t, ni, sh)),
        spine_args(e).len() != sh.num_params + ni ==> is_reject(
            conclusion_ok(s, m, ctx, e, t, ni, sh),
        ),
{
    reveal(ctor_ok);
    reveal(conclusion_ok);
}

/// What the term comes to behind all its binders, each made to show, is the sort of
/// propositions.
pub open spec fn gives_propositions(k: K, s: Sem, m: Mode, ctx: Seq<Term>, t: Term) -> bool {
    exists|n: nat, c2: Seq<Term>, t2: Term, l: Univ|
        #![trigger opens(k, s, m, ctx, t, n, c2, t2), is_zero(l)]
        opens(k, s, m, ctx, t, n, c2, t2) && shows(k, s, m, c2, t2, Term::Sort(l)) && is_zero(l)
}

proof fn lemma_motive_small(k: K, s: Sem, m: Mode, ctx: Seq<Term>, t: Term, n: nat)
    requires
        motive_small(k, s, m, ctx, t, n),
    ensures
        gives_propositions(k, s, m, ctx, t),
    decreases n,
{
    law_showing(k, s, m, ctx, t, t);
    match ensure_pi_spec(k, s, m, ctx, t) {
        Ok((bi, d, b)) => {
            assert(shows_pi(k, s, m, ctx, t, bi, d, b));
            lemma_motive_small(k, s, m, ctx.push(d), b, (n - 1) as nat);
            let (n2, c2, t2, l) = choose|n2: nat, c2: Seq<Term>, t2: Term, l: Univ|
                #![trigger opens(k, s, m, ctx.push(d), b, n2, c2, t2), is_zero(l)]
                opens(k, s, m, ctx.push(d), b, n2, c2, t2) && shows(k, s, m, c2, t2, Term::Sort(l))
                    && is_zero(l);
            assert(opens(k, s, m, ctx, t, n2 + 1, c2, t2));
        },
        Err(_) => {
            let l = ensure_sort_spec(k, s, m, ctx, t)->Ok_0;
            lemma_is_zero(l);
            assert(opens(k, s, m, ctx, t, 0, ctx, t));
        },
    }
}

proof fn lemma_motives_small(
    k: K,
    s: Sem,
    m: Mode,
    ctx: Seq<Term>,
    t: Term,
    n: nat,
    rec: u32,
    i: nat,
)
    requires
        motives_small(k, s, m, ctx, t, n, rec) is Ok,
        i < n,
    ensures
        exists|c1: Seq<Term>, t1: Term, bi: BinderInfo, d: Term, b: Term|
            #![trigger opens(k, s, m, ctx, t, i, c1, t1), shows_pi(k, s, m, c1, t1, bi, d, b)]
            opens(k, s, m, ctx, t, i, c1, t1) && shows_pi(k, s, m, c1, t1, bi, d, b)
                && gives_propositions(k, s, m, c1, d),
    decreases n,
{
    law_showing(k, s, m, ctx, t, t);
    let (bi, d, b) = ensure_pi_spec(k, s, m, ctx, t)->Ok_0;
    assert(shows_pi(k, s, m, ctx, t, bi, d, b));
    if i == 0 {
        lemma_motive_small(k, s, m, ctx, d, STEP_LIMIT as nat);
        assert(opens(k, s, m, ctx, t, 0, ctx, t));
    } else {
        lemma_motives_small(k, s, m, ctx.push(d), b, (n - 1) as nat, rec, (i - 1) as nat);
        let (c1, t1, bi2, d2, b2) = choose|
            c1: Seq<Term>,
            t1: Term,
            bi2: BinderInfo,
            d2: Term,
            b2: Term,
        |
            #![trigger opens(k, s, m, ctx.push(d), b, (i - 1) as nat, c1, t1), shows_pi(k, s, m, c1, t1, bi2, d2, b2)]
            opens(k, s, m, ctx.push(d), b, (i - 1) as nat, c1, t1) && shows_pi(
                k,
                s,
                m,
                c1,
                t1,
                bi2,
                d2,
                b2,
            ) && gives_propositions(k, s, m, c1, d2);
        assert(opens(k, s, m, ctx, t, i, c1, t1));
    }
}

proof fn lemma_insert_id(v: Seq<u32>, x: u32, y: u32)
    ensures
        insert_id(v, x).contains(x),
        v.contains(y) ==> insert_id(v, x).contains(y),
    decreases v.len(),
{
    if v.len() == 0 {
        assert(seq![x][0] == x);
    } else if x == v.last() {
        assert(v[v.len() - 1] == x);
    } else if x > v.last() {
        assert(v.push(x)[v.len() as int] == x);
        if v.contains(y) {
            let i = choose|i: int| 0 <= i < v.len() && v[i] == y;
            assert(v.push(x)[i] == y);
        }
    } else {
        let w = insert_id(v.drop_last(), x);
        lemma_insert_id(v.drop_last(), x, y);
        let i = choose|i: int| 0 <= i < w.len() && w[i] == x;
        assert(w.push(v.last())[i] == x);
        if v.contains(y) {
            let i2 = choose|i2: int| 0 <= i2 < v.len() && v[i2] == y;
            if i2 == v.len() - 1 {
                assert(w.push(v.last())[w.len() as int] == y);
            } else {
                assert(v.drop_last()[i2] == y);
                let i3 = choose|i3: int| 0 <= i3 < w.len() && w[i3] == y;
                assert(w.push(v.last())[i3] == y);
            }
        }
    }
}

proof fn lemma_group_recursors(k: K, all: Seq<u32>, i: nat, acc: Seq<u32>, j: nat, y: u32)
    ensures
        acc.contains(y) ==> group_recursors(k, all, i, acc).contains(y),
        i <= j < all.len() && rec_of(k.env, all[j as int]) == Some(y) ==> group_recursors(
            k,
            all,
            i,
            acc,
        ).contains(y),
    decreases all.len() - i,
{
    if i < all.len() {
        match rec_of(k.env, all[i as int]) {
            Some(r) => {
                lemma_insert_id(acc, r, y);
                lemma_group_recursors(k, all, i + 1, insert_id(acc, r), j, y);
            },
            None => {
                lemma_group_recursors(k, all, i + 1, acc, j, y);
            },
        }
    }
}

/// In an accepted group that may be eliminated into propositions alone, the
/// recursor of every type of the group does so: whatever its motives are given,
/// what they give are propositions.
pub proof fn law_small_elimination(k: K, s: Sem, m: Mode, first: u32, j: nat, rec: u32, i: nat)
    requires
        inductive_group_spec(k, s, m, first) is Ok,
        find(k.env, first) matches Some(Info::InductiveType { all, .. }) && j < all.len() && all[0]
            == first && elim_only_spec(k, s, m, all) == Ok::<bool, Fault>(true) && rec_of(
            k.env,
            all[j as int],
        ) == Some(rec),
    ensures
        find(k.env, rec) matches Some(Info::Recursor { typ, num_params, num_motives, .. }) ==> i
            < num_motives ==> exists|c0: Seq<Term>, t0: Term, c1: Seq<Term>, t1: Term, bi: BinderInfo, d: Term, b: Term|
            #![trigger opens(k, s, m, Seq::empty(), typ, num_params as nat, c0, t0), opens(k, s, m, c0, t0, i, c1, t1), shows_pi(k, s, m, c1, t1, bi, d, b)]
            opens(k, s, m, Seq::empty(), typ, num_params as nat, c0, t0) && opens(
                k,
                s,
                m,
                c0,
                t0,
                i,
                c1,
                t1,
            ) && shows_pi(k, s, m, c1, t1, bi, d, b) && gives_propositions(k, s, m, c1, d),
{
    match find(k.env, first) {
        Some(Info::InductiveType { all, .. }) => {
            let recs = group_recursors(k, all, 0, Seq::empty());
            lemma_group_recursors(k, all, 0, Seq::empty(), j, rec);
            let x = choose|x: int| 0 <= x < recs.len() && recs[x] == rec;
            crate::inductive::law_prop_elimination(k, s, m, first, x as nat);
            reveal(rec_small);
            match find(k.env, rec) {
                Some(Info::Recursor { typ, num_params, num_motives, .. }) => {
                    let (c0, t0) = open_spec(k, s, m, Seq::empty(), typ, num_params as nat)->Ok_0;
                    law_opened(k, s, m, Seq::empty(), typ, num_params as nat, c0, t0);
                    if i < num_motives {
                        lemma_motives_small(k, s, m, c0, t0, num_motives as nat, rec, i);
                    }
                },
                _ => {},
            }
        },
        _ => {},
    }
}

/// Into what a group may be eliminated: into anything where its types are never
/// propositions; into propositions alone where they may be, and the group has more
/// than one type, or its type more than one constructor; into anything where a
/// single type has no constructor.
pub proof fn law_elimination(k: K, s: Sem, m: Mode, all: Seq<u32>)
    requires
        elim_only_spec(k, s, m, all) is Ok,
        all.len() > 0,
    ensures
        find(k.env, all[0]) matches Some(Info::InductiveType { ctors, .. }) ==> {
            let small = elim_only_spec(k, s, m, all)->Ok_0;
            &&& !may_be_prop(k, s, m, all[0]) ==> !small
            &&& may_be_prop(k, s, m, all[0]) && (all.len() > 1 || ctors.len() > 1) ==> small
            &&& all.len() == 1 && ctors.len() == 0 ==> !small
        },
{
    reveal(elim_only_spec);
}

} // verus!
