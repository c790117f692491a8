//! What it takes for two terms to be judged the same, and what is enough.

use crate::conv::{
    chains_same, const_args_same, defeq_core_step, defeq_eager, domain_prop, fields_project,
    has_proof_arg, numeral_pair, pairwise, same_args, same_proofs, shapes_same, spines_congruent,
    struct_eta, unfolded_same, unit_like, unreduced_congruent,
};
use crate::env::{find, Info};
use crate::errors::Fault;
use crate::expr::{
    lift, mk_apps, plug1, spine_args, spine_head, subst_params, BinderInfo, LitT, Term,
};
use crate::judge::sem_at;
use crate::kernel::{by_value, infer_only_mode, Budget, K, Mode, Sem};
use crate::level::{univ_value, univs_eq, Univ};
use crate::lookup::{delta_reducible, ends_in_prop, infer_const_spec, never_proof};
use crate::nbe::{defeq_step, depth_of, env_vars};
use crate::numeral::numeral_spec;
use crate::reduce::ensure_pi_spec;
use crate::typing::{converts, has_type, instantiates, law_showing, reduces, shows_pi};
use vstd::prelude::*;

verus! {

/// Both terms are proofs, of propositions that are the same.
pub open spec fn are_proofs(s: Sem, m: Mode, ctx: Seq<Term>, a: Term, b: Term) -> bool {
    let q = infer_only_mode(m);
    exists|ta: Term, tb: Term|
        has_type(s, q, ctx, a, ta) && (s.is_prop)(q, ctx, ta) == Ok::<bool, Fault>(true)
            && has_type(s, q, ctx, b, tb) && #[trigger] converts(s, q, ctx, ta, tb)
}

/// The lists are equally long and the same position by position.
pub open spec fn convert_all(s: Sem, m: Mode, ctx: Seq<Term>, a1: Seq<Term>, a2: Seq<Term>) -> bool {
    a1.len() == a2.len() && forall|i: int|
        0 <= i < a1.len() ==> #[trigger] converts(s, m, ctx, a1[i], a2[i])
}

/// The domain is a proposition: it is judged one, or reduces to an inductive family
/// with its parameters whose declared type ends in the sort of propositions.
pub open spec fn is_prop_domain(k: K, s: Sem, m: Mode, ctx: Seq<Term>, d: Term) -> bool {
    ||| (s.is_prop)(m, ctx, d) == Ok::<bool, Fault>(true)
    ||| exists|w: Term| #[trigger]
        reduces(s, m, ctx, d, w) && (spine_head(w) matches Term::Const(n, _) && (find(
            k.env,
            n,
        ) matches Some(Info::InductiveType { typ, num_params, .. }) && spine_args(w).len()
            >= num_params && ends_in_prop(typ)))
}

/// A function of the type takes a proof at the position, behind the arguments.
pub open spec fn takes_proof(
    k: K,
    s: Sem,
    m: Mode,
    ctx: Seq<Term>,
    t: Term,
    args: Seq<Term>,
    i: int,
) -> bool {
    exists|at: Term, bi: BinderInfo, d: Term, b: Term|
        instantiates(k, s, m, ctx, t, args.take(i), at) && #[trigger] shows_pi(
            k,
            s,
            m,
            ctx,
            at,
            bi,
            d,
            b,
        ) && is_prop_domain(k, s, m, ctx, d)
}

/// The lists of arguments to a function of the type are equally long and the same
/// position by position, but for positions that take proofs.
pub open spec fn convert_args(
    k: K,
    s: Sem,
    m: Mode,
    ctx: Seq<Term>,
    t: Term,
    a1: Seq<Term>,
    a2: Seq<Term>,
) -> bool {
    a1.len() == a2.len() && forall|i: int|
        0 <= i < a1.len() ==> #[trigger] converts(s, m, ctx, a1[i], a2[i]) || takes_proof(
            k,
            s,
            m,
            ctx,
            t,
            a1,
            i,
        )
}

/// Both terms apply one constant, at levels that agree, to arguments that are the
/// same but for proofs.
pub open spec fn same_constant(k: K, s: Sem, m: Mode, ctx: Seq<Term>, a: Term, b: Term) -> bool {
    spine_head(a) matches Term::Const(n, us) && (spine_head(b) matches Term::Const(n2, us2) && n
        == n2 && univs_eq(us, us2) && (convert_all(s, m, ctx, spine_args(a), spine_args(b)) || (
    find(k.env, n) is Some && exists|t: Term|
        infer_const_spec(k, n, us) == Ok::<Term, Fault>(t) && #[trigger] convert_args(
            k,
            s,
            m,
            ctx,
            t,
            spine_args(a),
            spine_args(b),
        ))))
}

/// Both terms apply heads that are the same, other than constants, to arguments
/// that are the same.
pub open spec fn same_application(s: Sem, m: Mode, ctx: Seq<Term>, a: Term, b: Term) -> bool {
    !(spine_head(a) is Const && spine_head(b) is Const) && (spine_head(a) == spine_head(b)
        || converts(s, m, ctx, spine_head(a), spine_head(b))) && convert_all(
        s,
        m,
        ctx,
        spine_args(a),
        spine_args(b),
    )
}

/// Both terms apply functions that are the same to arguments that are the same, or
/// that do so in turn.
pub open spec fn same_layers(s: Sem, m: Mode, ctx: Seq<Term>, a: Term, b: Term) -> bool
    decreases a,
{
    match (a, b) {
        (Term::App(fa, aa), Term::App(fb, ab)) => converts(s, m, ctx, *fa, *fb) && (converts(
            s,
            m,
            ctx,
            *aa,
            *ab,
        ) || same_layers(s, m, ctx, *aa, *ab)),
        _ => false,
    }
}

/// The terms have types that are the same, and the type is a structure without
/// fields.
pub open spec fn of_unit_type(k: K, s: Sem, m: Mode, ctx: Seq<Term>, a: Term, b: Term) -> bool {
    exists|ta: Term, tb: Term, w: Term|
        has_type(s, m, ctx, a, ta) && has_type(s, m, ctx, b, tb) && #[trigger] converts(
            s,
            m,
            ctx,
            ta,
            tb,
        ) && #[trigger] reduces(s, m, ctx, ta, w) && (spine_head(w) matches Term::Const(n, _)
            && has_one_value(k, n))
}

/// The type is a structure, and its constructor has no fields.
pub open spec fn has_one_value(k: K, n: u32) -> bool {
    find(k.env, n) matches Some(Info::InductiveType { ctors, num_indices, is_rec, .. })
        && ctors.len() == 1 && num_indices == 0 && !is_rec && (find(k.env, ctors[0]) matches Some(
        Info::Constructor { num_fields, .. },
    ) && num_fields == 0)
}

/// The first term is a structure's constructor with all its arguments, the second
/// is of the same type, and the fields of the first are the projections of the
/// second.
pub open spec fn builds_from(k: K, s: Sem, m: Mode, ctx: Seq<Term>, a: Term, b: Term) -> bool {
    let q = infer_only_mode(m);
    spine_head(a) matches Term::Const(c, _) && (find(k.env, c) matches Some(
        Info::Constructor { induct, num_params, num_fields, .. },
    ) && (find(k.env, induct) matches Some(
        Info::InductiveType { ctors, num_indices, is_rec, .. },
    ) && ctors.len() == 1 && num_indices == 0 && !is_rec) && spine_args(a).len() == num_params
        + num_fields && (exists|ta: Term, tb: Term, w: Term|
        has_type(s, q, ctx, a, ta) && has_type(s, q, ctx, b, tb) && #[trigger] converts(
            s,
            q,
            ctx,
            ta,
            tb,
        ) && #[trigger] reduces(s, q, ctx, tb, w) && (spine_head(w) matches Term::Const(n, _) && n
            == induct)) && (forall|i: int|
        0 <= i < num_fields ==> (s.defeq)(
            m,
            ctx,
            #[trigger] spine_args(a)[num_params + i],
            Term::Proj(induct, i as u32, Box::new(b)),
        ) == Ok::<bool, Fault>(true)))
}

/// The second term is the first, or what is left of it once the definition or the
/// theorem at its head is replaced by its value.
pub open spec fn delta_to(k: K, s: Sem, m: Mode, ctx: Seq<Term>, a: Term, ua: Term) -> bool {
    spine_head(a) matches Term::Const(c, us) && k.declaring != Some(c) && (match find(k.env, c) {
        Some(Info::Def { level_params, value, .. }) => (s.core)(
            m,
            ctx,
            mk_apps(subst_params(value, level_params, us), spine_args(a)),
        ) == Ok::<Term, Fault>(ua),
        Some(Info::Theorem { level_params, value, .. }) => k.theorem_delta && k.theorem_scope && (
        s.core)(
            m,
            ctx,
            mk_apps(subst_params(value, level_params, us), spine_args(a)),
        ) == Ok::<Term, Fault>(ua),
        _ => false,
    })
}

/// Unfolding the head of one of the terms, or of both, gives terms that are the
/// same.
pub open spec fn same_unfolded(k: K, s: Sem, m: Mode, ctx: Seq<Term>, a: Term, b: Term) -> bool {
    exists|ua: Term, ub: Term|
        (s.defeq_core)(m, ctx, ua, ub) == Ok::<bool, Fault>(true) && #[trigger] unfolded_pair(
            k,
            s,
            m,
            ctx,
            a,
            b,
            ua,
            ub,
        )
}

/// One of the terms, or both, are replaced by what they unfold to.
pub open spec fn unfolded_pair(
    k: K,
    s: Sem,
    m: Mode,
    ctx: Seq<Term>,
    a: Term,
    b: Term,
    ua: Term,
    ub: Term,
) -> bool {
    ||| (delta_to(k, s, m, ctx, a, ua) && ub == b)
    ||| (ua == a && delta_to(k, s, m, ctx, b, ub))
    ||| (delta_to(k, s, m, ctx, a, ua) && delta_to(k, s, m, ctx, b, ub))
}

/// The levels have one value, whatever the universe parameters are.
pub open spec fn same_level(a: Univ, b: Univ) -> bool {
    forall|rho: spec_fn(u32) -> nat| #[trigger] univ_value(a, rho) == univ_value(b, rho)
}

/// The shapes of the terms make them the same: local definitions with their value
/// put in; sorts of one level; function types or functions over domains that are
/// the same with bodies that are; a function and what behaves like it on a fresh
/// argument; applications of heads that are the same to arguments that are;
/// projections of one field of values that are the same; one constant at levels
/// that agree.
pub open spec fn same_by_shape(k: K, s: Sem, m: Mode, ctx: Seq<Term>, a: Term, b: Term) -> bool {
    ||| (a matches Term::Let(_, v, body) && converts(s, m, ctx, plug1(*body, *v), b))
    ||| (b matches Term::Let(_, v, body) && converts(s, m, ctx, a, plug1(*body, *v)))
    ||| (a matches Term::Sort(l1) && b matches Term::Sort(l2) && same_level(l1, l2))
    ||| (a matches Term::Pi(_, t1, b1) && b matches Term::Pi(_, t2, b2) && converts(
        s,
        m,
        ctx,
        *t1,
        *t2,
    ) && converts(s, m, ctx.push(*t1), *b1, *b2))
    ||| (a matches Term::Lam(_, t1, b1) && b matches Term::Lam(_, t2, b2) && converts(
        s,
        m,
        ctx,
        *t1,
        *t2,
    ) && converts(s, m, ctx.push(*t1), *b1, *b2))
    ||| (a matches Term::Lam(_, t1, b1) && !(b is Lam) && converts(
        s,
        m,
        ctx.push(*t1),
        *b1,
        Term::App(Box::new(lift(b, 1, 0)), Box::new(Term::BVar(0))),
    ))
    ||| (b matches Term::Lam(_, t2, b2) && !(a is Lam) && converts(
        s,
        m,
        ctx.push(*t2),
        Term::App(Box::new(lift(a, 1, 0)), Box::new(Term::BVar(0))),
        *b2,
    ))
    ||| same_layers(s, m, ctx, a, b)
    ||| same_constant(k, s, m, ctx, a, b)
    ||| same_application(s, m, ctx, a, b)
    ||| (a matches Term::Proj(s1, i1, v1) && b matches Term::Proj(s2, i2, v2) && s1 == s2 && i1
        == i2 && converts(s, m, ctx, *v1, *v2))
}

/// The terms are numerals of one value, over the constructors of the type of
/// naturals.
pub open spec fn same_number(k: K, a: Term, b: Term) -> bool {
    k.nat_ref matches Some(n) && (find(k.env, n) matches Some(Info::InductiveType { ctors, .. })
        && ctors.len() == 2 && (numeral_spec(a, ctors[0], ctors[1]) matches Some(x)
        && numeral_spec(b, ctors[0], ctors[1]) == Some(x)))
}

pub(crate) proof fn lemma_pairwise(s: Sem, m: Mode, ctx: Seq<Term>, a1: Seq<Term>, a2: Seq<Term>, i: nat)
    requires
        pairwise(s, m, ctx, a1, a2, i) == Ok::<bool, Fault>(true),
    ensures
        a1.len() == a2.len(),
        forall|j: int| i <= j < a1.len() ==> #[trigger] converts(s, m, ctx, a1[j], a2[j]),
    decreases a1.len() - i,
{
    if i < a1.len() {
        lemma_pairwise(s, m, ctx, a1, a2, i + 1);
    }
}

proof fn lemma_pairwise_true(s: Sem, m: Mode, ctx: Seq<Term>, a1: Seq<Term>, a2: Seq<Term>, i: nat)
    requires
        convert_all(s, m, ctx, a1, a2),
    ensures
        pairwise(s, m, ctx, a1, a2, i) == Ok::<bool, Fault>(true),
    decreases a1.len() - i,
{
    if i < a1.len() {
        assert(converts(s, m, ctx, a1[i as int], a2[i as int]));
        lemma_pairwise_true(s, m, ctx, a1, a2, i + 1);
    }
}

proof fn lemma_domain_prop(k: K, s: Sem, m: Mode, ctx: Seq<Term>, d: Term)
    requires
        domain_prop(k, s, m, ctx, d),
    ensures
        is_prop_domain(k, s, m, ctx, d),
{
    let w = (s.whnf)(m, ctx, d)->Ok_0;
    assert(reduces(s, m, ctx, d, w));
}

proof fn lemma_same_args(
    k: K,
    s: Sem,
    m: Mode,
    ctx: Seq<Term>,
    t: Term,
    a1: Seq<Term>,
    a2: Seq<Term>,
    i: nat,
    start: Term,
)
    requires
        i <= a1.len(),
        same_args(k, s, m, ctx, t, a1, a2, i) == Ok::<bool, Fault>(true),
        instantiates(k, s, m, ctx, start, a1.take(i as int), t),
    ensures
        a1.len() == a2.len(),
        forall|j: int|
            i <= j < a1.len() ==> #[trigger] converts(s, m, ctx, a1[j], a2[j]) || takes_proof(
                k,
                s,
                m,
                ctx,
                start,
                a1,
                j,
            ),
    decreases a1.len() - i,
{
    if i < a1.len() {
        match ensure_pi_spec(k, s, m, ctx, t) {
            Err(_) => {
                lemma_pairwise(s, m, ctx, a1, a2, i);
            },
            Ok((bi, d, b)) => {
                law_showing(k, s, m, ctx, t, t);
                assert(shows_pi(k, s, m, ctx, t, bi, d, b));
                let next = plug1(b, a1[i as int]);
                let one = seq![a1[i as int]];
                assert(one.drop_first() =~= Seq::<Term>::empty());
                assert(one[0] == a1[i as int]);
                assert(instantiates(k, s, m, ctx, next, one.drop_first(), next));
                assert(instantiates(k, s, m, ctx, t, one, next));
                crate::typing::lemma_instantiates_append(
                    k,
                    s,
                    m,
                    ctx,
                    start,
                    a1.take(i as int),
                    t,
                    one,
                    next,
                );
                assert(a1.take(i as int) + one =~= a1.take(i as int + 1));
                if domain_prop(k, s, m, ctx, d) || (s.is_prop)(m, ctx, d) == Ok::<bool, Fault>(
                    true,
                ) {
                    if domain_prop(k, s, m, ctx, d) {
                        lemma_domain_prop(k, s, m, ctx, d);
                    }
                    assert(takes_proof(k, s, m, ctx, start, a1, i as int));
                }
                lemma_same_args(k, s, m, ctx, next, a1, a2, i + 1, start);
            },
        }
    }
}

proof fn lemma_same_args_true(
    k: K,
    s: Sem,
    m: Mode,
    ctx: Seq<Term>,
    t: Term,
    a1: Seq<Term>,
    a2: Seq<Term>,
    i: nat,
)
    requires
        convert_all(s, m, ctx, a1, a2),
    ensures
        same_args(k, s, m, ctx, t, a1, a2, i) == Ok::<bool, Fault>(true),
    decreases a1.len() - i,
{
    if i < a1.len() {
        assert(converts(s, m, ctx, a1[i as int], a2[i as int]));
        match ensure_pi_spec(k, s, m, ctx, t) {
            Err(_) => {
                lemma_pairwise_true(s, m, ctx, a1, a2, i);
            },
            Ok((_, _, b)) => {
                lemma_same_args_true(k, s, m, ctx, plug1(b, a1[i as int]), a1, a2, i + 1);
            },
        }
    }
}

proof fn lemma_const_args(
    k: K,
    s: Sem,
    m: Mode,
    ctx: Seq<Term>,
    n: u32,
    us: Seq<Univ>,
    a1: Seq<Term>,
    a2: Seq<Term>,
)
    requires
        const_args_same(k, s, m, ctx, n, us, a1, a2) == Ok::<bool, Fault>(true),
    ensures
        convert_all(s, m, ctx, a1, a2) || (find(k.env, n) is Some && exists|t: Term|
            infer_const_spec(k, n, us) == Ok::<Term, Fault>(t) && #[trigger] convert_args(
                k,
                s,
                m,
                ctx,
                t,
                a1,
                a2,
            )),
{
    reveal(const_args_same);
    if has_proof_arg(k, s, m, n) {
        match infer_const_spec(k, n, us) {
            Ok(t) => {
                assert(a1.take(0) =~= Seq::<Term>::empty());
                assert(instantiates(k, s, m, ctx, t, a1.take(0), t));
                lemma_same_args(k, s, m, ctx, t, a1, a2, 0, t);
                assert(convert_args(k, s, m, ctx, t, a1, a2));
            },
            Err(_) => {
                lemma_pairwise(s, m, ctx, a1, a2, 0);
            },
        }
    } else {
        lemma_pairwise(s, m, ctx, a1, a2, 0);
    }
}

proof fn lemma_const_args_true(
    k: K,
    s: Sem,
    m: Mode,
    ctx: Seq<Term>,
    n: u32,
    us: Seq<Univ>,
    a1: Seq<Term>,
    a2: Seq<Term>,
)
    requires
        convert_all(s, m, ctx, a1, a2),
    ensures
        const_args_same(k, s, m, ctx, n, us, a1, a2) == Ok::<bool, Fault>(true),
{
    reveal(const_args_same);
    lemma_pairwise_true(s, m, ctx, a1, a2, 0);
    match infer_const_spec(k, n, us) {
        Ok(t) => lemma_same_args_true(k, s, m, ctx, t, a1, a2, 0),
        Err(_) => {},
    }
}

proof fn lemma_chains(s: Sem, m: Mode, ctx: Seq<Term>, a: Term, b: Term, peeled: bool)
    requires
        chains_same(s, m, ctx, a, b, peeled) matches Ok(Some(_)),
    ensures
        chains_same(s, m, ctx, a, b, peeled) == Ok::<Option<bool>, Fault>(Some(true)),
        (peeled && converts(s, m, ctx, a, b)) || same_layers(s, m, ctx, a, b),
    decreases a,
{
    match (a, b) {
        (Term::App(fa, aa), Term::App(fb, ab)) => {
            if *fa is BVar && converts(s, m, ctx, *fa, *fb) {
                lemma_chains(s, m, ctx, *aa, *ab, true);
            }
        },
        _ => {},
    }
}

proof fn lemma_congruent(k: K, s: Sem, m: Mode, ctx: Seq<Term>, a: Term, b: Term)
    requires
        spines_congruent(k, s, m, ctx, a, b) == Ok::<bool, Fault>(true),
    ensures
        same_constant(k, s, m, ctx, a, b) || same_application(s, m, ctx, a, b),
{
    reveal(spines_congruent);
    let (a1, a2) = (spine_args(a), spine_args(b));
    match (spine_head(a), spine_head(b)) {
        (Term::Const(n1, u1), Term::Const(_, _)) => {
            lemma_const_args(k, s, m, ctx, n1, u1, a1, a2);
        },
        _ => {
            lemma_pairwise(s, m, ctx, a1, a2, 0);
        },
    }
}

/// What is judged the same by its shape is, for a reason that the shapes show.
pub proof fn law_shapes(k: K, s: Sem, m: Mode, ctx: Seq<Term>, a: Term, b: Term)
    requires
        shapes_same(k, s, m, ctx, a, b) == Ok::<Option<bool>, Fault>(Some(true)),
        a != b,
    ensures
        same_by_shape(k, s, m, ctx, a, b),
{
    reveal(shapes_same);
    match (a, b) {
        (Term::App(_, _), Term::App(_, _)) => {
            if chains_same(s, m, ctx, a, b, false) matches Ok(Some(_)) {
                lemma_chains(s, m, ctx, a, b, false);
            } else {
                lemma_congruent(k, s, m, ctx, a, b);
            }
        },
        (Term::Const(n1, u1), Term::Const(n2, u2)) => {
            assert(convert_all(s, m, ctx, spine_args(a), spine_args(b)));
        },
        _ => {},
    }
}

proof fn lemma_fields_project(
    s: Sem,
    m: Mode,
    ctx: Seq<Term>,
    sname: u32,
    b: Term,
    fields: Seq<Term>,
    i: nat,
)
    requires
        fields_project(s, m, ctx, sname, b, fields, i) == Ok::<bool, Fault>(true),
    ensures
        forall|j: int|
            i <= j < fields.len() ==> (s.defeq)(
                m,
                ctx,
                #[trigger] fields[j],
                Term::Proj(sname, j as u32, Box::new(b)),
            ) == Ok::<bool, Fault>(true),
    decreases fields.len() - i,
{
    if i < fields.len() {
        lemma_fields_project(s, m, ctx, sname, b, fields, i + 1);
    }
}

proof fn lemma_struct_eta(k: K, s: Sem, m: Mode, ctx: Seq<Term>, a: Term, b: Term)
    requires
        struct_eta(k, s, m, ctx, a, b) == Ok::<bool, Fault>(true),
    ensures
        builds_from(k, s, m, ctx, a, b),
{
    reveal(struct_eta);
    let q = infer_only_mode(m);
    match spine_head(a) {
        Term::Const(c, _) => match find(k.env, c) {
            Some(Info::Constructor { induct, num_params, num_fields, .. }) => {
                let fields = spine_args(a).skip(num_params as int);
                lemma_fields_project(s, m, ctx, induct, b, fields, 0);
                assert forall|i: int| 0 <= i < num_fields implies (s.defeq)(
                    m,
                    ctx,
                    #[trigger] spine_args(a)[num_params + i],
                    Term::Proj(induct, i as u32, Box::new(b)),
                ) == Ok::<bool, Fault>(true) by {
                    assert(fields[i] == spine_args(a)[num_params + i]);
                }
                let tb = (s.infer)(q, ctx, b)->Ok_0;
                let ta = (s.infer)(q, ctx, a)->Ok_0;
                let w = (s.whnf)(q, ctx, tb)->Ok_0;
                assert(converts(s, q, ctx, ta, tb) && reduces(s, q, ctx, tb, w));
            },
            _ => {},
        },
        _ => {},
    }
}

proof fn lemma_unit_like(k: K, s: Sem, m: Mode, ctx: Seq<Term>, a: Term, b: Term)
    requires
        unit_like(k, s, m, ctx, a, b) == Ok::<bool, Fault>(true),
    ensures
        of_unit_type(k, s, m, ctx, a, b),
{
    reveal(unit_like);
    let ta = (s.infer)(m, ctx, a)->Ok_0;
    let tb = (s.infer)(m, ctx, b)->Ok_0;
    let w = (s.whnf)(m, ctx, ta)->Ok_0;
    assert(converts(s, m, ctx, ta, tb) && reduces(s, m, ctx, ta, w));
}

proof fn lemma_delta(k: K, s: Sem, m: Mode, ctx: Seq<Term>, a: Term, n: u32)
    requires
        crate::conv::head_const(a) == Some(n),
        delta_reducible(k, n),
        crate::conv::unfolded_core(k, s, m, ctx, a) is Ok,
    ensures
        delta_to(k, s, m, ctx, a, crate::conv::unfolded_core(k, s, m, ctx, a)->Ok_0),
{
}

proof fn lemma_unfolded(k: K, s: Sem, m: Mode, ctx: Seq<Term>, a: Term, b: Term)
    requires
        unfolded_same(k, s, m, ctx, a, b) == Ok::<bool, Fault>(true),
    ensures
        same_unfolded(k, s, m, ctx, a, b),
{
    reveal(unfolded_same);
    let ua = crate::conv::unfolded_core(k, s, m, ctx, a)->Ok_0;
    let ub = crate::conv::unfolded_core(k, s, m, ctx, b)->Ok_0;
    match crate::conv::head_const(a) {
        Some(x) => {
            if delta_reducible(k, x) && crate::conv::unfolded_core(k, s, m, ctx, a) is Ok {
                lemma_delta(k, s, m, ctx, a, x);
            }
        },
        None => {},
    }
    match crate::conv::head_const(b) {
        Some(y) => {
            if delta_reducible(k, y) && crate::conv::unfolded_core(k, s, m, ctx, b) is Ok {
                lemma_delta(k, s, m, ctx, b, y);
            }
        },
        None => {},
    }
    if (s.defeq_core)(m, ctx, ua, ub) == Ok::<bool, Fault>(true) && unfolded_pair(
        k,
        s,
        m,
        ctx,
        a,
        b,
        ua,
        ub,
    ) {
    } else if (s.defeq_core)(m, ctx, ua, b) == Ok::<bool, Fault>(true) && unfolded_pair(
        k,
        s,
        m,
        ctx,
        a,
        b,
        ua,
        b,
    ) {
    } else {
        assert(unfolded_pair(k, s, m, ctx, a, b, a, ub));
    }
}

proof fn lemma_proofs(k: K, s: Sem, m: Mode, ctx: Seq<Term>, a: Term, b: Term)
    requires
        same_proofs(k, s, m, ctx, a, b) == Ok::<bool, Fault>(true),
    ensures
        are_proofs(s, m, ctx, a, b),
{
    reveal(same_proofs);
    let q = infer_only_mode(m);
    let ta = (s.infer)(q, ctx, a)->Ok_0;
    let tb = (s.infer)(q, ctx, b)->Ok_0;
    assert(converts(s, q, ctx, ta, tb));
}

/// Reduced terms that are judged the same are, for one of these reasons: they are
/// one term; they are proofs of one proposition; they are numerals of one value;
/// their shapes make them the same; their type has one value; one is built from the
/// projections of the other; or they are the same once a head is unfolded.
pub proof fn law_reduced_conversion(k: K, s: Sem, m: Mode, ctx: Seq<Term>, a: Term, b: Term)
    requires
        defeq_core_step(k, s, m, ctx, a, b) == Ok::<bool, Fault>(true),
    ensures
        a == b || are_proofs(s, m, ctx, a, b) || same_number(k, a, b) || same_by_shape(
            k,
            s,
            m,
            ctx,
            a,
            b,
        ) || of_unit_type(k, s, m, ctx, a, b) || builds_from(k, s, m, ctx, a, b) || builds_from(
            k,
            s,
            m,
            ctx,
            b,
            a,
        ) || same_unfolded(k, s, m, ctx, a, b),
{
    reveal(defeq_core_step);
    let yes = Ok::<bool, Fault>(true);
    if a != b {
        if same_proofs(k, s, m, ctx, a, b) == yes {
            lemma_proofs(k, s, m, ctx, a, b);
        } else if numeral_pair(k, a, b) is None {
            if shapes_same(k, s, m, ctx, a, b) == Ok::<Option<bool>, Fault>(Some(true)) {
                law_shapes(k, s, m, ctx, a, b);
            } else if unit_like(k, s, m, ctx, a, b) == yes {
                lemma_unit_like(k, s, m, ctx, a, b);
            } else if struct_eta(k, s, m, ctx, a, b) == yes {
                lemma_struct_eta(k, s, m, ctx, a, b);
            } else if struct_eta(k, s, m, ctx, b, a) == yes {
                lemma_struct_eta(k, s, m, ctx, b, a);
            } else {
                lemma_unfolded(k, s, m, ctx, a, b);
            }
        }
    }
}

/// Both reduce, and what they reduce to is the same: integers of one value, or
/// terms that are judged the same.
pub open spec fn reduce_to_same(s: Sem, m: Mode, ctx: Seq<Term>, a: Term, b: Term) -> bool {
    exists|aw: Term, bw: Term|
        #![trigger reduces(s, m, ctx, a, aw), reduces(s, m, ctx, b, bw)]
        reduces(s, m, ctx, a, aw) && reduces(s, m, ctx, b, bw) && ((s.defeq_core)(m, ctx, aw, bw)
            == Ok::<bool, Fault>(true) || ((s.closed_int)(m, ctx, aw) matches Ok(Some(x)) && (
        s.closed_int)(m, ctx, bw) == Ok::<Option<int>, Fault>(Some(x))))
}

/// Terms that reduction judges the same are, for one of these reasons: they are one
/// term; they are proofs of one proposition; they project one field of values that
/// are the same, or apply one constant to arguments that are; or they reduce to
/// terms that are the same.
pub proof fn law_conversion(k: K, s: Sem, m: Mode, ctx: Seq<Term>, a: Term, b: Term)
    requires
        defeq_eager(k, s, m, ctx, a, b) == Ok::<bool, Fault>(true),
    ensures
        a == b || are_proofs(s, m, ctx, a, b) || (a matches Term::Proj(s1, i1, v1)
            && b matches Term::Proj(s2, i2, v2) && s1 == s2 && i1 == i2 && converts(
            s,
            m,
            ctx,
            *v1,
            *v2,
        )) || same_constant(k, s, m, ctx, a, b) || reduce_to_same(s, m, ctx, a, b),
{
    reveal(defeq_eager);
    let yes = Ok::<bool, Fault>(true);
    if a != b {
        if same_proofs(k, s, m, ctx, a, b) == yes {
            lemma_proofs(k, s, m, ctx, a, b);
        } else if unreduced_congruent(k, s, m, ctx, a, b) == yes {
            reveal(unreduced_congruent);
            match (spine_head(a), spine_head(b)) {
                (Term::Const(n1, u1), Term::Const(_, _)) => {
                    if !(a is Proj && b is Proj) {
                        lemma_const_args(k, s, m, ctx, n1, u1, spine_args(a), spine_args(b));
                    }
                },
                _ => {},
            }
        } else {
            let aw = (s.whnf)(m, ctx, a)->Ok_0;
            let bw = (s.whnf)(m, ctx, b)->Ok_0;
            assert(reduces(s, m, ctx, a, aw) && reduces(s, m, ctx, b, bw));
        }
    }
}

/// The verdict on two terms as the checker gives it: a positive one is confirmed by
/// their values, which evaluation judges the same, or is given by reduction.
pub proof fn law_verdict(k: K, g: Budget, m: Mode, ctx: Seq<Term>, a: Term, b: Term)
    requires
        (sem_at(k, g).defeq)(m, ctx, a, b) == Ok::<bool, Fault>(true),
    ensures
        g.defeq > 0,
        ({
            let s = sem_at(k, g.in_defeq());
            let d = depth_of(ctx.len());
            let env = env_vars(d as nat);
            ||| defeq_eager(k, s, m, ctx, a, b) == Ok::<bool, Fault>(true)
            ||| by_value(k, m) && ((s.eval)(m, env, a) matches Ok(va) && ((s.eval)(
                m,
                env,
                b,
            ) matches Ok(vb) && (s.val_eq)(m, d, va, vb) == Ok::<bool, Fault>(true)))
        }),
{
    reveal(sem_at);
    reveal(defeq_step);
}

/// Two function types are judged the same exactly where their domains are, and
/// their bodies are in the scope that the first domain extends; two sorts exactly
/// where their levels have one value; two literals where they are one. None of
/// them is a proof.
pub proof fn law_type_shapes(
    k: K,
    s: Sem,
    m: Mode,
    ctx: Seq<Term>,
    i1: BinderInfo,
    t1: Term,
    b1: Term,
    i2: BinderInfo,
    t2: Term,
    b2: Term,
    l1: Univ,
    l2: Univ,
)
    ensures
        ({
            let p1 = Term::Pi(i1, Box::new(t1), Box::new(b1));
            let p2 = Term::Pi(i2, Box::new(t2), Box::new(b2));
            p1 != p2 ==> {
                let r = defeq_core_step(k, s, m, ctx, p1, p2);
                &&& r == Ok::<bool, Fault>(true) <==> converts(s, m, ctx, t1, t2) && converts(
                    s,
                    m,
                    ctx.push(t1),
                    b1,
                    b2,
                )
                &&& r == Ok::<bool, Fault>(false) <==> (s.defeq)(m, ctx, t1, t2) == Ok::<
                    bool,
                    Fault,
                >(false) || (converts(s, m, ctx, t1, t2) && (s.defeq)(m, ctx.push(t1), b1, b2)
                    == Ok::<bool, Fault>(false))
            }
        }),
        defeq_core_step(k, s, m, ctx, Term::Sort(l1), Term::Sort(l2)) == Ok::<bool, Fault>(
            same_level(l1, l2),
        ),
        defeq_core_step(
            k,
            s,
            m,
            ctx,
            Term::Sort(l1),
            Term::Pi(i1, Box::new(t1), Box::new(b1)),
        ) != Ok::<bool, Fault>(true) || of_unit_type(
            k,
            s,
            m,
            ctx,
            Term::Sort(l1),
            Term::Pi(i1, Box::new(t1), Box::new(b1)),
        ),
{
    reveal(defeq_core_step);
    reveal(shapes_same);
    reveal(same_proofs);
    reveal(struct_eta);
    reveal(unfolded_same);
    let sort = Term::Sort(l1);
    let pi = Term::Pi(i1, Box::new(t1), Box::new(b1));
    if unit_like(k, s, m, ctx, sort, pi) == Ok::<bool, Fault>(true) {
        lemma_unit_like(k, s, m, ctx, sort, pi);
    }
}

/// Two different functions that are not proofs are judged the same exactly where
/// their domains are, and their bodies are in the scope that the first domain
/// extends.
pub proof fn law_function_shapes(
    k: K,
    s: Sem,
    m: Mode,
    ctx: Seq<Term>,
    i1: BinderInfo,
    t1: Term,
    b1: Term,
    i2: BinderInfo,
    t2: Term,
    b2: Term,
)
    requires
        same_proofs(
            k,
            s,
            m,
            ctx,
            Term::Lam(i1, Box::new(t1), Box::new(b1)),
            Term::Lam(i2, Box::new(t2), Box::new(b2)),
        ) == Ok::<bool, Fault>(false),
        Term::Lam(i1, Box::new(t1), Box::new(b1)) != Term::Lam(i2, Box::new(t2), Box::new(b2)),
    ensures
        defeq_core_step(
            k,
            s,
            m,
            ctx,
            Term::Lam(i1, Box::new(t1), Box::new(b1)),
            Term::Lam(i2, Box::new(t2), Box::new(b2)),
        ) == Ok::<bool, Fault>(true) <==> converts(s, m, ctx, t1, t2) && converts(
            s,
            m,
            ctx.push(t1),
            b1,
            b2,
        ),
{
    reveal(defeq_core_step);
    reveal(shapes_same);
}

/// What is enough for two reduced terms to be judged the same: to be proofs of one
/// proposition that no look at their heads excludes; and, where they are no proofs
/// and no numerals, to apply one constant at levels that agree, or heads that are
/// one, to arguments that are the same; to project one field of values that are
/// the same; to be a function and a term that is the same on a fresh argument.
pub proof fn law_enough(k: K, s: Sem, m: Mode, ctx: Seq<Term>, a: Term, b: Term)
    ensures
        are_proofs(s, m, ctx, a, b) && !never_proof(k.env, a) && !never_proof(k.env, b)
            ==> defeq_core_step(k, s, m, ctx, a, b) == Ok::<bool, Fault>(true) && defeq_eager(
            k,
            s,
            m,
            ctx,
            a,
            b,
        ) == Ok::<bool, Fault>(true),
        same_proofs(k, s, m, ctx, a, b) == Ok::<bool, Fault>(false) && numeral_pair(k, a, b)
            is None ==> {
            let yes = defeq_core_step(k, s, m, ctx, a, b) == Ok::<bool, Fault>(true);
            &&& a is App && b is App && chains_same(s, m, ctx, a, b, false) is Ok && convert_all(
                s,
                m,
                ctx,
                spine_args(a),
                spine_args(b),
            ) && (spine_head(a) == spine_head(b) || (spine_head(a) matches Term::Const(n, us)
                && spine_head(b) matches Term::Const(n2, us2) && n == n2 && univs_eq(us, us2)))
                ==> yes
            &&& (a matches Term::Proj(s1, i1, v1) && b matches Term::Proj(s2, i2, v2) && s1 == s2
                && i1 == i2 && converts(s, m, ctx, *v1, *v2)) ==> yes
            &&& (a matches Term::Const(n, us) && b matches Term::Const(n2, us2) && n == n2
                && univs_eq(us, us2)) ==> yes
            &&& (a matches Term::Lam(_, t1, b1) && !(b is Lam) && !(b is Let) && converts(
                s,
                m,
                ctx.push(*t1),
                *b1,
                Term::App(Box::new(lift(b, 1, 0)), Box::new(Term::BVar(0))),
            )) ==> yes
            &&& (b matches Term::Lam(_, t2, b2) && !(a is Lam) && !(a is Let) && converts(
                s,
                m,
                ctx.push(*t2),
                Term::App(Box::new(lift(a, 1, 0)), Box::new(Term::BVar(0))),
                *b2,
            )) ==> yes
        },
{
    reveal(defeq_core_step);
    reveal(defeq_eager);
    reveal(shapes_same);
    if are_proofs(s, m, ctx, a, b) {
        reveal(same_proofs);
    }
    if a is App && b is App && chains_same(s, m, ctx, a, b, false) is Ok {
        reveal(spines_congruent);
        if chains_same(s, m, ctx, a, b, false) matches Ok(Some(_)) {
            lemma_chains(s, m, ctx, a, b, false);
        }
        if convert_all(s, m, ctx, spine_args(a), spine_args(b)) {
            lemma_pairwise_true(s, m, ctx, spine_args(a), spine_args(b), 0);
            match (spine_head(a), spine_head(b)) {
                (Term::Const(n, us), Term::Const(_, _)) => {
                    lemma_const_args_true(k, s, m, ctx, n, us, spine_args(a), spine_args(b));
                    assert(univs_eq(us, us));
                },
                _ => {},
            }
        }
    }
}

/// Comparison by unfolding goes on with what the head unfolds to: where the head of
/// one of two different constants unfolds and the other does not, the verdict is
/// that on the unfolded term and the other one; where one constant heads both and
/// unfolds, both are unfolded; where nothing unfolds, they are not the same.
pub proof fn law_unfolding_decides(k: K, s: Sem, m: Mode, ctx: Seq<Term>, a: Term, b: Term, ua: Term, ub: Term)
    ensures
        delta_to(k, s, m, ctx, a, ua) && (match spine_head(b) {
            Term::Const(y, _) => !delta_reducible(k, y) && spine_head(a) != spine_head(b) && !(
            spine_head(a) matches Term::Const(x, _) && x == y),
            _ => true,
        }) ==> unfolded_same(k, s, m, ctx, a, b) == (s.defeq_core)(m, ctx, ua, b),
        delta_to(k, s, m, ctx, b, ub) && (match spine_head(a) {
            Term::Const(x, _) => !delta_reducible(k, x) && !(spine_head(b) matches Term::Const(
                y,
                _,
            ) && x == y),
            _ => true,
        }) ==> unfolded_same(k, s, m, ctx, a, b) == (s.defeq_core)(m, ctx, a, ub),
        delta_to(k, s, m, ctx, a, ua) && delta_to(k, s, m, ctx, b, ub) && (spine_head(
            a,
        ) matches Term::Const(x, _) && (spine_head(b) matches Term::Const(y, _) && x == y))
            ==> unfolded_same(k, s, m, ctx, a, b) == (s.defeq_core)(m, ctx, ua, ub),
{
    reveal(unfolded_same);
}

/// Terms that reduce, are not the same before that and are no integers are judged
/// as what they reduce to; integers are judged by their values.
pub proof fn law_reduction_decides(
    k: K,
    s: Sem,
    m: Mode,
    ctx: Seq<Term>,
    a: Term,
    b: Term,
    aw: Term,
    bw: Term,
    x: int,
    y: int,
)
    requires
        a != b,
        same_proofs(k, s, m, ctx, a, b) == Ok::<bool, Fault>(false),
        unreduced_congruent(k, s, m, ctx, a, b) == Ok::<bool, Fault>(false),
        reduces(s, m, ctx, a, aw),
        reduces(s, m, ctx, b, bw),
    ensures
        (s.closed_int)(m, ctx, aw) == Ok::<Option<int>, Fault>(None) ==> defeq_eager(
            k,
            s,
            m,
            ctx,
            a,
            b,
        ) == (s.defeq_core)(m, ctx, aw, bw),
        (s.closed_int)(m, ctx, aw) == Ok::<Option<int>, Fault>(Some(x)) && (s.closed_int)(
            m,
            ctx,
            bw,
        ) == Ok::<Option<int>, Fault>(Some(y)) ==> defeq_eager(k, s, m, ctx, a, b) == Ok::<
            bool,
            Fault,
        >(x == y),
{
    reveal(defeq_eager);
}

/// A telescope: what stands behind all its binders.
pub open spec fn behind(t: Term) -> Term
    decreases t,
{
    match t {
        Term::Pi(_, _, b) => behind(*b),
        _ => t,
    }
}

/// A type ends in the sort of propositions exactly where what stands behind all its
/// binders is a sort of level zero.
pub proof fn law_ends_in_prop(t: Term)
    ensures
        ends_in_prop(t) <==> (behind(t) matches Term::Sort(l) && same_level(l, Univ::Zero)),
    decreases t,
{
    match t {
        Term::Pi(_, _, b) => law_ends_in_prop(*b),
        _ => {},
    }
}

/// Numerals: a literal stands for its number, the first constructor for zero, and
/// the second applied to a numeral for one more than that. Nothing else that is
/// applied is a numeral.
pub proof fn law_numeral(zero: u32, succ: u32, us: Seq<Univ>, c: u32, a: Term, n: nat)
    ensures
        numeral_spec(Term::Lit(LitT::Nat(n)), zero, succ) == Some(n),
        numeral_spec(Term::Const(c, us), zero, succ) == (if c == zero {
            Some(0nat)
        } else {
            None
        }),
        numeral_spec(
            Term::App(Box::new(Term::Const(succ, us)), Box::new(a)),
            zero,
            succ,
        ) == (match numeral_spec(a, zero, succ) {
            Some(x) => Some((x + 1) as nat),
            None => None,
        }),
        c != succ ==> numeral_spec(
            Term::App(Box::new(Term::Const(c, us)), Box::new(a)),
            zero,
            succ,
        ) is None,
{
    reveal_with_fuel(numeral_spec, 2);
}

} // verus!
