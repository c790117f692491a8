//! Conversion: when two terms stand for the same thing.

use crate::ctx::Ctx;
use crate::env::{find, info_type, ConstantInfo, Info};
use crate::errors::{res, Fault, R};
use crate::expr::{
    app, app_head, bvar, instantiate1, lift, lit_same, plug1, proj, rec_expr_eq, shift, spine_args,
    spine_head, unfold_apps, Expr, ExprData, Term,
};
use crate::judge::sem_at;
use crate::kernel::{infer_only_mode, Budget, Checker, K, Mode, Res, Sem};
use crate::level::{is_def_eq, levels_def_eq, univ_eq, univs_eq, Level, Univ};
use crate::lookup::{
    def_height_spec, delta_reducible, delta_step_spec, ends_in_prop, infer_const_spec, is_structure,
    nat_ctors_spec, never_proof, structure_fields, targets_class_prop, targets_prop,
    targets_unit_prop,
};
use crate::names::app1;
use crate::numeral::{numeral_spec, numeral_value};
use crate::reduce::ensure_pi_spec;
use vstd::prelude::*;

verus! {

/// The number of binders of a constant's type that are looked at for proofs.
pub const PROOF_ARG_LIMIT: u32 = 64;

/// Whether a type reduces to an inductive proposition.
pub open spec fn domain_prop(k: K, s: Sem, m: Mode, ctx: Seq<Term>, ty: Term) -> bool {
    match (s.whnf)(m, ctx, ty) {
        Err(_) => false,
        Ok(w) => match spine_head(w) {
            Term::Const(n, _) => match find(k.env, n) {
                Some(Info::InductiveType { typ, num_params, .. }) => spine_args(w).len()
                    >= num_params && ends_in_prop(typ),
                _ => false,
            },
            _ => false,
        },
    }
}

/// Whether two terms are proofs of propositions that are the same.
#[verifier::opaque]
pub open spec fn same_proofs(k: K, s: Sem, m: Mode, ctx: Seq<Term>, a: Term, b: Term) -> Res<bool> {
    let q = infer_only_mode(m);
    if never_proof(k.env, a) || never_proof(k.env, b) {
        Ok(false)
    } else {
        match (s.infer)(q, ctx, a) {
            Err(_) => Ok(false),
            Ok(ta) => match (s.is_prop)(q, ctx, ta) {
                Err(f) => Err(f),
                Ok(false) => Ok(false),
                Ok(true) => match (s.infer)(q, ctx, b) {
                    Err(_) => Ok(false),
                    Ok(tb) => (s.defeq)(q, ctx, ta, tb),
                },
            },
        }
    }
}

/// Whether one of the domains of a type is an inductive proposition.
pub open spec fn proof_domain(k: K, s: Sem, m: Mode, t: Term, n: nat) -> bool
    decreases n,
{
    if n == 0 {
        false
    } else {
        match t {
            Term::Pi(_, dom, body) => domain_prop(k, s, m, Seq::empty(), *dom) || proof_domain(
                k,
                s,
                m,
                *body,
                (n - 1) as nat,
            ),
            _ => match (s.whnf)(m, Seq::empty(), t) {
                Ok(w) => w != t && proof_domain(k, s, m, w, (n - 1) as nat),
                Err(_) => false,
            },
        }
    }
}

/// Whether a constant or what it builds is a proposition.
pub open spec fn about_props(k: K, i: Info) -> bool {
    ||| (i matches Info::Constructor { induct, .. } && (find(k.env, induct) matches Some(
        Info::InductiveType { typ, .. },
    ) && ends_in_prop(typ)))
    ||| (i matches Info::InductiveType { typ, .. } && ends_in_prop(typ))
    ||| targets_unit_prop(k.env, info_type(i))
    ||| targets_class_prop(k.env, info_type(i))
    ||| targets_prop(k.env, info_type(i))
}

/// Whether the arguments of a constant may hold proofs.
#[verifier::opaque]
pub open spec fn has_proof_arg(k: K, s: Sem, m: Mode, n: u32) -> bool {
    match find(k.env, n) {
        None => false,
        Some(i) => about_props(k, i) || proof_domain(
            k,
            s,
            m,
            info_type(i),
            PROOF_ARG_LIMIT as nat,
        ),
    }
}

/// Whether two lists of arguments are the same, from position `i` on.
pub open spec fn pairwise(
    s: Sem,
    m: Mode,
    ctx: Seq<Term>,
    a1: Seq<Term>,
    a2: Seq<Term>,
    i: nat,
) -> Res<bool>
    decreases a1.len() - i,
{
    if a1.len() != a2.len() {
        Ok(false)
    } else if i >= a1.len() {
        Ok(true)
    } else {
        match (s.defeq)(m, ctx, a1[i as int], a2[i as int]) {
            Err(f) => Err(f),
            Ok(false) => Ok(false),
            Ok(true) => pairwise(s, m, ctx, a1, a2, i + 1),
        }
    }
}

/// Whether two lists of arguments to a function of the given type are the same,
/// from position `i` on. Proofs need not be.
pub open spec fn same_args(
    k: K,
    s: Sem,
    m: Mode,
    ctx: Seq<Term>,
    ty: Term,
    a1: Seq<Term>,
    a2: Seq<Term>,
    i: nat,
) -> Res<bool>
    decreases a1.len() - i,
{
    if a1.len() != a2.len() {
        Ok(false)
    } else if i >= a1.len() {
        Ok(true)
    } else {
        match ensure_pi_spec(k, s, m, ctx, ty) {
            Err(_) => pairwise(s, m, ctx, a1, a2, i),
            Ok((_, dom, body)) => {
                let next = plug1(body, a1[i as int]);
                if domain_prop(k, s, m, ctx, dom) || (s.is_prop)(m, ctx, dom) == Ok::<bool, Fault>(
                    true,
                ) {
                    same_args(k, s, m, ctx, next, a1, a2, i + 1)
                } else {
                    match (s.defeq)(m, ctx, a1[i as int], a2[i as int]) {
                        Err(f) => Err(f),
                        Ok(false) => Ok(false),
                        Ok(true) => same_args(k, s, m, ctx, next, a1, a2, i + 1),
                    }
                }
            },
        }
    }
}

/// Whether the arguments of one constant are the same.
#[verifier::opaque]
pub open spec fn const_args_same(
    k: K,
    s: Sem,
    m: Mode,
    ctx: Seq<Term>,
    n: u32,
    us: Seq<Univ>,
    a1: Seq<Term>,
    a2: Seq<Term>,
) -> Res<bool> {
    if has_proof_arg(k, s, m, n) {
        match infer_const_spec(k, n, us) {
            Ok(ty) => same_args(k, s, m, ctx, ty, a1, a2, 0),
            Err(_) => pairwise(s, m, ctx, a1, a2, 0),
        }
    } else {
        pairwise(s, m, ctx, a1, a2, 0)
    }
}

/// Whether two applications agree in head and arguments.
#[verifier::opaque]
pub open spec fn spines_congruent(k: K, s: Sem, m: Mode, ctx: Seq<Term>, a: Term, b: Term) -> Res<
    bool,
> {
    let (h1, h2) = (spine_head(a), spine_head(b));
    let (a1, a2) = (spine_args(a), spine_args(b));
    match (h1, h2) {
        (Term::Const(n1, u1), Term::Const(n2, u2)) => if n1 == n2 && a1.len() == a2.len()
            && univs_eq(u1, u2) {
            const_args_same(k, s, m, ctx, n1, u1, a1, a2)
        } else {
            Ok(false)
        },
        _ => if a1.len() != a2.len() {
            Ok(false)
        } else if h1 == h2 {
            pairwise(s, m, ctx, a1, a2, 0)
        } else if h1 is Const || h2 is Const {
            Ok(false)
        } else {
            match (s.defeq)(m, ctx, h1, h2) {
                Err(f) => Err(f),
                Ok(false) => Ok(false),
                Ok(true) => pairwise(s, m, ctx, a1, a2, 0),
            }
        },
    }
}

/// Compares chains of applications of a bound variable layer by layer; nothing
/// where there is no such layer, or where what is left does not agree. `peeled`
/// says that some layer agreed already.
pub open spec fn chains_same(
    s: Sem,
    m: Mode,
    ctx: Seq<Term>,
    a: Term,
    b: Term,
    peeled: bool,
) -> Res<Option<bool>>
    decreases a,
{
    let stop = if peeled {
        if_same((s.defeq)(m, ctx, a, b))
    } else {
        Ok(None)
    };
    match (a, b) {
        (Term::App(fa, aa), Term::App(fb, ab)) => if *fa is BVar {
            match (s.defeq)(m, ctx, *fa, *fb) {
                Err(f) => Err(f),
                Ok(true) => chains_same(s, m, ctx, *aa, *ab, true),
                Ok(false) => stop,
            }
        } else {
            stop
        },
        _ => stop,
    }
}

/// A verdict that stands whatever it is.
pub open spec fn decided(r: Res<bool>) -> Res<Option<bool>> {
    match r {
        Err(f) => Err(f),
        Ok(b) => Ok(Some(b)),
    }
}

/// A verdict that stands only where it is positive.
pub open spec fn if_same(r: Res<bool>) -> Res<Option<bool>> {
    match r {
        Err(f) => Err(f),
        Ok(true) => Ok(Some(true)),
        Ok(false) => Ok(None),
    }
}

/// Whether a constant is the constructor of a structure that holds data.
pub open spec fn builds_data(k: K, n: u32) -> bool {
    match find(k.env, n) {
        Some(Info::Constructor { induct, .. }) => match find(k.env, induct) {
            Some(
                Info::InductiveType { typ, ctors, num_indices, is_rec, .. },
            ) => ctors.len() == 1 && num_indices == 0 && !is_rec && !ends_in_prop(typ),
            _ => false,
        },
        _ => false,
    }
}

/// Whether two terms agree before any reduction: equal projections of the same
/// value, or one constant on the same arguments.
#[verifier::opaque]
pub open spec fn unreduced_congruent(
    k: K,
    s: Sem,
    m: Mode,
    ctx: Seq<Term>,
    a: Term,
    b: Term,
) -> Res<bool> {
    match (a, b) {
        (Term::Proj(s1, i1, v1), Term::Proj(s2, i2, v2)) => if s1 == s2 && i1 == i2 {
            (s.defeq)(m, ctx, *v1, *v2)
        } else {
            Ok(false)
        },
        _ => match (spine_head(a), spine_head(b)) {
            (Term::Const(n1, u1), Term::Const(n2, u2)) => if n1 == n2 && spine_args(a).len()
                == spine_args(b).len() && !(find(k.env, n1) matches Some(Info::Recursor { .. }))
                && !builds_data(k, n1) && univs_eq(u1, u2) {
                const_args_same(k, s, m, ctx, n1, u1, spine_args(a), spine_args(b))
            } else {
                Ok(false)
            },
            _ => Ok(false),
        },
    }
}

/// Whether two terms have the same type and that type has but one value.
#[verifier::opaque]
pub open spec fn unit_like(k: K, s: Sem, m: Mode, ctx: Seq<Term>, a: Term, b: Term) -> Res<bool> {
    match (s.infer)(m, ctx, a) {
        Err(_) => Ok(false),
        Ok(ta) => match (s.infer)(m, ctx, b) {
            Err(_) => Ok(false),
            Ok(tb) => match (s.defeq)(m, ctx, ta, tb) {
                Err(f) => Err(f),
                Ok(false) => Ok(false),
                Ok(true) => match (s.whnf)(m, ctx, ta) {
                    Err(f) => Err(f),
                    Ok(w) => match spine_head(w) {
                        Term::Const(n, _) => Ok(
                            is_structure(k.env, n) && structure_fields(k.env, n) == Some(0u32),
                        ),
                        _ => Ok(false),
                    },
                },
            },
        },
    }
}

/// Whether the fields from position `i` on are the projections of `b`.
pub open spec fn fields_project(
    s: Sem,
    m: Mode,
    ctx: Seq<Term>,
    sname: u32,
    b: Term,
    fields: Seq<Term>,
    i: nat,
) -> Res<bool>
    decreases fields.len() - i,
{
    if i >= fields.len() {
        Ok(true)
    } else {
        match (s.defeq)(m, ctx, fields[i as int], Term::Proj(sname, i as u32, Box::new(b))) {
            Err(f) => Err(f),
            Ok(false) => Ok(false),
            Ok(true) => fields_project(s, m, ctx, sname, b, fields, i + 1),
        }
    }
}

/// Whether `b` is of the inductive type `induct`, and of the same type as `a`.
pub open spec fn same_structure(
    s: Sem,
    m: Mode,
    ctx: Seq<Term>,
    a: Term,
    b: Term,
    induct: u32,
) -> Res<bool> {
    let q = infer_only_mode(m);
    match (s.infer)(q, ctx, b) {
        Err(_) => Ok(false),
        Ok(tb) => match (s.whnf)(q, ctx, tb) {
            Err(f) => Err(f),
            Ok(w) => match spine_head(w) {
                Term::Const(n, _) => if n == induct {
                    match (s.infer)(q, ctx, a) {
                        Err(_) => Ok(false),
                        Ok(ta) => (s.defeq)(q, ctx, ta, tb),
                    }
                } else {
                    Ok(false)
                },
                _ => Ok(false),
            },
        },
    }
}

/// Whether `a` is a structure's constructor, fully applied, `b` is of the same
/// structure type, and the fields of `a` are the projections of `b`.
#[verifier::opaque]
pub open spec fn struct_eta(k: K, s: Sem, m: Mode, ctx: Seq<Term>, a: Term, b: Term) -> Res<bool> {
    let args = spine_args(a);
    match spine_head(a) {
        Term::Const(c, _) => match find(k.env, c) {
            Some(
                Info::Constructor { induct, num_params, num_fields, .. },
            ) => if is_structure(k.env, induct) && args.len() == num_params + num_fields {
                match same_structure(s, m, ctx, a, b, induct) {
                    Err(f) => Err(f),
                    Ok(false) => Ok(false),
                    Ok(true) => fields_project(
                        s,
                        m,
                        ctx,
                        induct,
                        b,
                        args.skip(num_params as int),
                        0,
                    ),
                }
            } else {
                Ok(false)
            },
            _ => Ok(false),
        },
        _ => Ok(false),
    }
}

/// Whether two functions or function types have the same domain and body.
pub open spec fn binders_same(
    s: Sem,
    m: Mode,
    ctx: Seq<Term>,
    t1: Term,
    b1: Term,
    t2: Term,
    b2: Term,
) -> Res<bool> {
    match (s.defeq)(m, ctx, t1, t2) {
        Err(f) => Err(f),
        Ok(false) => Ok(false),
        Ok(true) => (s.defeq)(m, ctx.push(t1), b1, b2),
    }
}

/// A term under one more binder, applied to that binder.
pub open spec fn eta_expand(e: Term) -> Term {
    app1(lift(e, 1, 0), Term::BVar(0))
}

/// What the outermost shapes of two terms decide, if they do.
#[verifier::opaque]
pub open spec fn shapes_same(k: K, s: Sem, m: Mode, ctx: Seq<Term>, a: Term, b: Term) -> Res<
    Option<bool>,
> {
    match (a, b) {
        (Term::Let(_, v, body), _) => decided((s.defeq)(m, ctx, plug1(*body, *v), b)),
        (_, Term::Let(_, v, body)) => decided((s.defeq)(m, ctx, a, plug1(*body, *v))),
        (Term::Sort(l1), Term::Sort(l2)) => Ok(Some(univ_eq(l1, l2))),
        (Term::Lit(x), Term::Lit(y)) => Ok(Some(x == y)),
        (Term::Pi(_, t1, b1), Term::Pi(_, t2, b2)) => decided(
            binders_same(s, m, ctx, *t1, *b1, *t2, *b2),
        ),
        (Term::Lam(_, t1, b1), Term::Lam(_, t2, b2)) => decided(
            binders_same(s, m, ctx, *t1, *b1, *t2, *b2),
        ),
        (Term::Lam(_, t1, b1), _) => decided((s.defeq)(m, ctx.push(*t1), *b1, eta_expand(b))),
        (_, Term::Lam(_, t2, b2)) => decided((s.defeq)(m, ctx.push(*t2), eta_expand(a), *b2)),
        (Term::App(_, _), Term::App(_, _)) => match chains_same(s, m, ctx, a, b, false) {
            Err(f) => Err(f),
            Ok(Some(r)) => Ok(Some(r)),
            Ok(None) => if_same(spines_congruent(k, s, m, ctx, a, b)),
        },
        (Term::Proj(s1, i1, v1), Term::Proj(s2, i2, v2)) => if s1 == s2 && i1 == i2 {
            if_same((s.defeq)(m, ctx, *v1, *v2))
        } else {
            Ok(None)
        },
        (Term::Const(n1, u1), Term::Const(n2, u2)) => if n1 == n2 && univs_eq(u1, u2) {
            Ok(Some(true))
        } else {
            Ok(None)
        },
        _ => Ok(None),
    }
}

/// A term with its head unfolded, reduced.
pub open spec fn unfolded_core(k: K, s: Sem, m: Mode, ctx: Seq<Term>, e: Term) -> Res<Term> {
    (s.core)(m, ctx, delta_step_spec(k, e))
}

/// Compares with the left head unfolded.
pub open spec fn unfold_left(k: K, s: Sem, m: Mode, ctx: Seq<Term>, a: Term, b: Term) -> Res<bool> {
    match unfolded_core(k, s, m, ctx, a) {
        Err(f) => Err(f),
        Ok(ua) => (s.defeq_core)(m, ctx, ua, b),
    }
}

/// Compares with the right head unfolded.
pub open spec fn unfold_right(k: K, s: Sem, m: Mode, ctx: Seq<Term>, a: Term, b: Term) -> Res<
    bool,
> {
    match unfolded_core(k, s, m, ctx, b) {
        Err(f) => Err(f),
        Ok(ub) => (s.defeq_core)(m, ctx, a, ub),
    }
}

/// Compares with both heads unfolded.
pub open spec fn unfold_both(k: K, s: Sem, m: Mode, ctx: Seq<Term>, a: Term, b: Term) -> Res<bool> {
    match unfolded_core(k, s, m, ctx, a) {
        Err(f) => Err(f),
        Ok(ua) => unfold_right(k, s, m, ctx, ua, b),
    }
}

/// The constant at the head of a term.
pub open spec fn head_const(e: Term) -> Option<u32> {
    match spine_head(e) {
        Term::Const(n, _) => Some(n),
        _ => None,
    }
}

/// Compares two terms with heads unfolded: both where they are the same, else the
/// one of greater height.
#[verifier::opaque]
pub open spec fn unfolded_same(k: K, s: Sem, m: Mode, ctx: Seq<Term>, a: Term, b: Term) -> Res<
    bool,
> {
    match (head_const(a), head_const(b)) {
        (Some(x), Some(y)) => {
            let rx = delta_reducible(k, x);
            let ry = delta_reducible(k, y);
            if x == y {
                if rx {
                    unfold_both(k, s, m, ctx, a, b)
                } else {
                    Ok(false)
                }
            } else if rx && (def_height_spec(k.env, x) >= def_height_spec(k.env, y) || !ry) {
                unfold_left(k, s, m, ctx, a, b)
            } else if ry {
                unfold_right(k, s, m, ctx, a, b)
            } else {
                Ok(false)
            }
        },
        (Some(x), None) => if delta_reducible(k, x) {
            unfold_left(k, s, m, ctx, a, b)
        } else {
            Ok(false)
        },
        (None, Some(y)) => if delta_reducible(k, y) {
            unfold_right(k, s, m, ctx, a, b)
        } else {
            Ok(false)
        },
        _ => Ok(false),
    }
}

/// The values of two numerals.
pub open spec fn numeral_pair(k: K, a: Term, b: Term) -> Option<(nat, nat)> {
    match nat_ctors_spec(k) {
        None => None,
        Some((zero, succ)) => match (numeral_spec(a, zero, succ), numeral_spec(b, zero, succ)) {
            (Some(x), Some(y)) => Some((x, y)),
            _ => None,
        },
    }
}

/// Goes on to the next test where the first does not show the terms to be the
/// same.
pub open spec fn or_else(first: Res<bool>, second: Res<bool>) -> Res<bool> {
    match first {
        Err(f) => Err(f),
        Ok(true) => Ok(true),
        Ok(false) => second,
    }
}

/// One judgement of conversion between reduced terms.
#[verifier::opaque]
pub open spec fn defeq_core_step(k: K, s: Sem, m: Mode, ctx: Seq<Term>, a: Term, b: Term) -> Res<
    bool,
> {
    if a == b {
        Ok(true)
    } else {
        or_else(
            same_proofs(k, s, m, ctx, a, b),
            match numeral_pair(k, a, b) {
                Some((x, y)) => Ok(x == y),
                None => match shapes_same(k, s, m, ctx, a, b) {
                    Err(f) => Err(f),
                    Ok(Some(r)) => Ok(r),
                    Ok(None) => or_else(
                        unit_like(k, s, m, ctx, a, b),
                        or_else(
                            struct_eta(k, s, m, ctx, a, b),
                            or_else(
                                struct_eta(k, s, m, ctx, b, a),
                                or_else(
                                    unfolded_same(k, s, m, ctx, a, b),
                                    same_proofs(k, s, m, ctx, a, b),
                                ),
                            ),
                        ),
                    ),
                },
            },
        )
    }
}

/// One judgement of conversion by reduction.
#[verifier::opaque]
pub open spec fn defeq_eager(k: K, s: Sem, m: Mode, ctx: Seq<Term>, a: Term, b: Term) -> Res<bool> {
    if a == b {
        Ok(true)
    } else {
        or_else(
            same_proofs(k, s, m, ctx, a, b),
            or_else(
                unreduced_congruent(k, s, m, ctx, a, b),
                match ((s.whnf)(m, ctx, a), (s.whnf)(m, ctx, b)) {
                    (Err(f), _) => Err(f),
                    (_, Err(f)) => Err(f),
                    (Ok(aw), Ok(bw)) => reduced_same(s, m, ctx, aw, bw),
                },
            ),
        )
    }
}

/// Compares two reduced terms: closed integers by value, others by structure.
pub open spec fn reduced_same(s: Sem, m: Mode, ctx: Seq<Term>, aw: Term, bw: Term) -> Res<bool> {
    match ((s.closed_int)(m, ctx, aw), (s.closed_int)(m, ctx, bw)) {
        (Ok(Some(x)), Ok(Some(y))) => Ok(x == y),
        _ => (s.defeq_core)(m, ctx, aw, bw),
    }
}

impl<'e> Checker<'e> {
    /// Whether a type reduces to an inductive proposition.
    pub fn domain_is_prop_inductive(&self, g: Budget, m: Mode, ctx: &Ctx, ty: &Expr) -> (r: bool)
        ensures
            r == domain_prop(self@, sem_at(self@, g), m, ctx@, ty@),
        decreases g.total(), 1int, 0int,
    {
        let w = match self.whnf_at(g, m, ctx, ty) {
            Ok(w) => w,
            Err(_) => {
                return false;
            },
        };
        let (head, args) = unfold_apps(&w);
        assert(args.len() == args.deep_view().len());
        match head.data() {
            ExprData::Const(n, _) => match self.env.get(*n) {
                Some(ConstantInfo::InductiveType { typ, num_params, .. }) => args.len() as u64
                    >= *num_params as u64 && self.sort_codomain_is_prop(typ),
                _ => false,
            },
            _ => false,
        }
    }

    /// Whether two terms are proofs of propositions that are the same.
    pub fn proofs_of_same_prop(&self, g: Budget, m: Mode, ctx: &Ctx, a: &Expr, b: &Expr) -> (r: R<
        bool,
    >)
        ensures
            res(r) == same_proofs(self@, sem_at(self@, g), m, ctx@, a@, b@),
        decreases g.total(), 1int, 0int,
    {
        proof {
            reveal(same_proofs);
        }
        if self.obviously_not_proof(a) || self.obviously_not_proof(b) {
            return Ok(false);
        }
        let q = m.inferring();
        let ta = match self.infer_at(g, q, ctx, a) {
            Ok(t) => t,
            Err(_) => {
                return Ok(false);
            },
        };
        if !self.is_prop_at(g, q, ctx, &ta)? {
            return Ok(false);
        }
        let tb = match self.infer_at(g, q, ctx, b) {
            Ok(t) => t,
            Err(_) => {
                return Ok(false);
            },
        };
        self.defeq_at(g, q, ctx, &ta, &tb)
    }

    fn has_proof_domain(&self, g: Budget, m: Mode, t: &Expr) -> (r: bool)
        ensures
            r == proof_domain(self@, sem_at(self@, g), m, t@, PROOF_ARG_LIMIT as nat),
        decreases g.total(), 2int, 0int,
    {
        let ghost s = sem_at(self@, g);
        let empty = Ctx::new();
        assert(empty@ =~= Seq::<Term>::empty());
        let mut cur = t.clone();
        let mut left: u32 = PROOF_ARG_LIMIT;
        while left > 0
            invariant
                left <= PROOF_ARG_LIMIT,
                s == sem_at(self@, g),
                empty@ == Seq::<Term>::empty(),
                proof_domain(self@, s, m, cur@, left as nat) == proof_domain(
                    self@,
                    s,
                    m,
                    t@,
                    PROOF_ARG_LIMIT as nat,
                ),
            decreases left,
        {
            let next = match cur.data() {
                ExprData::Pi(_, dom, body) => {
                    if self.domain_is_prop_inductive(g, m, &empty, dom) {
                        return true;
                    }
                    body.clone()
                },
                _ => match self.whnf_at(g, m, &empty, &cur) {
                    Ok(w) => {
                        if rec_expr_eq(&w, &cur) {
                            return false;
                        }
                        w
                    },
                    Err(_) => {
                        return false;
                    },
                },
            };
            cur = next;
            left = left - 1;
        }
        false
    }

    fn is_about_props(&self, ci: &ConstantInfo) -> (r: bool)
        ensures
            r == about_props(self@, ci@),
    {
        match ci {
            ConstantInfo::Constructor { induct, .. } => match self.env.get(*induct) {
                Some(ConstantInfo::InductiveType { typ, .. }) => {
                    if self.sort_codomain_is_prop(typ) {
                        return true;
                    }
                },
                _ => {},
            },
            ConstantInfo::InductiveType { typ, .. } => {
                if self.sort_codomain_is_prop(typ) {
                    return true;
                }
            },
            _ => {},
        }
        self.type_is_unit_ctor_zero_index_prop(ci.typ()) || self.type_is_multiarg_prop_structure(
            ci.typ(),
        ) || self.type_targets_prop(ci.typ())
    }

    /// Whether the arguments of a constant may hold proofs.
    pub fn const_has_proof_arg(&self, g: Budget, m: Mode, n: u32) -> (r: bool)
        ensures
            r == has_proof_arg(self@, sem_at(self@, g), m, n),
        decreases g.total(), 3int, 0int,
    {
        proof {
            reveal(has_proof_arg);
        }
        match self.env.get(n) {
            None => false,
            Some(ci) => self.is_about_props(ci) || self.has_proof_domain(g, m, ci.typ()),
        }
    }

    fn pairwise_from(
        &self,
        g: Budget,
        m: Mode,
        ctx: &Ctx,
        a1: &Vec<Expr>,
        a2: &Vec<Expr>,
        from: usize,
    ) -> (r: R<bool>)
        requires
            from <= a1.len(),
        ensures
            res(r) == pairwise(
                sem_at(self@, g),
                m,
                ctx@,
                a1.deep_view(),
                a2.deep_view(),
                from as nat,
            ),
        decreases g.total(), 1int, 0int,
    {
        let ghost s = sem_at(self@, g);
        let ghost v1 = a1.deep_view();
        let ghost v2 = a2.deep_view();
        assert(v1.len() == a1.len() && v2.len() == a2.len());
        if a1.len() != a2.len() {
            return Ok(false);
        }
        let mut i: usize = from;
        while i < a1.len()
            invariant
                i <= a1.len(),
                a1.len() == a2.len(),
                v1 == a1.deep_view(),
                v2 == a2.deep_view(),
                s == sem_at(self@, g),
                pairwise(s, m, ctx@, v1, v2, i as nat) == pairwise(
                    s,
                    m,
                    ctx@,
                    v1,
                    v2,
                    from as nat,
                ),
            decreases a1.len() - i,
        {
            if !self.defeq_at(g, m, ctx, &a1[i], &a2[i])? {
                return Ok(false);
            }
            i = i + 1;
        }
        Ok(true)
    }

    /// Whether two lists of arguments are the same.
    pub fn pairwise_args(&self, g: Budget, m: Mode, ctx: &Ctx, a1: &Vec<Expr>, a2: &Vec<Expr>) -> (r:
        R<bool>)
        ensures
            res(r) == pairwise(
                sem_at(self@, g),
                m,
                ctx@,
                a1.deep_view(),
                a2.deep_view(),
                0,
            ),
        decreases g.total(), 2int, 0int,
    {
        self.pairwise_from(g, m, ctx, a1, a2, 0)
    }

    /// Whether two lists of arguments to a function of the given type are the
    /// same.
    pub fn defeq_args(
        &self,
        g: Budget,
        m: Mode,
        ctx: &Ctx,
        ty: &Expr,
        a1: &Vec<Expr>,
        a2: &Vec<Expr>,
    ) -> (r: R<bool>)
        ensures
            res(r) == same_args(
                self@,
                sem_at(self@, g),
                m,
                ctx@,
                ty@,
                a1.deep_view(),
                a2.deep_view(),
                0,
            ),
        decreases g.total(), 3int, 0int,
    {
        let ghost s = sem_at(self@, g);
        let ghost v1 = a1.deep_view();
        let ghost v2 = a2.deep_view();
        assert(v1.len() == a1.len() && v2.len() == a2.len());
        if a1.len() != a2.len() {
            return Ok(false);
        }
        let mut cur = ty.clone();
        let mut i: usize = 0;
        while i < a1.len()
            invariant
                i <= a1.len(),
                a1.len() == a2.len(),
                v1 == a1.deep_view(),
                v2 == a2.deep_view(),
                s == sem_at(self@, g),
                same_args(self@, s, m, ctx@, cur@, v1, v2, i as nat) == same_args(
                    self@,
                    s,
                    m,
                    ctx@,
                    ty@,
                    v1,
                    v2,
                    0,
                ),
            decreases a1.len() - i,
        {
            let (_, dom, body) = match self.ensure_pi_at(g, m, ctx, &cur) {
                Ok(t) => t,
                Err(_) => {
                    return self.pairwise_from(g, m, ctx, a1, a2, i);
                },
            };
            let is_proof = self.domain_is_prop_inductive(g, m, ctx, &dom)
                || match self.is_prop_at(g, m, ctx, &dom) {
                Ok(p) => p,
                Err(_) => false,
            };
            if !is_proof {
                if !self.defeq_at(g, m, ctx, &a1[i], &a2[i])? {
                    return Ok(false);
                }
            }
            cur = instantiate1(&body, &a1[i]);
            i = i + 1;
        }
        Ok(true)
    }

    fn const_args(
        &self,
        g: Budget,
        m: Mode,
        ctx: &Ctx,
        n: u32,
        us: &Vec<Level>,
        a1: &Vec<Expr>,
        a2: &Vec<Expr>,
    ) -> (r: R<bool>)
        ensures
            res(r) == const_args_same(
                self@,
                sem_at(self@, g),
                m,
                ctx@,
                n,
                us.deep_view(),
                a1.deep_view(),
                a2.deep_view(),
            ),
        decreases g.total(), 4int, 0int,
    {
        proof {
            reveal(const_args_same);
        }
        if self.const_has_proof_arg(g, m, n) {
            match self.infer_const(n, us) {
                Ok(ty) => self.defeq_args(g, m, ctx, &ty, a1, a2),
                Err(_) => self.pairwise_args(g, m, ctx, a1, a2),
            }
        } else {
            self.pairwise_args(g, m, ctx, a1, a2)
        }
    }

    /// Whether two applications agree in head and arguments.
    pub fn app_spines_congruent(&self, g: Budget, m: Mode, ctx: &Ctx, a: &Expr, b: &Expr) -> (r: R<
        bool,
    >)
        ensures
            res(r) == spines_congruent(self@, sem_at(self@, g), m, ctx@, a@, b@),
        decreases g.total(), 5int, 0int,
    {
        proof {
            reveal(spines_congruent);
        }
        let (h1, a1) = unfold_apps(a);
        let (h2, a2) = unfold_apps(b);
        assert(a1.len() == a1.deep_view().len() && a2.len() == a2.deep_view().len());
        let c1 = match h1.data() {
            ExprData::Const(n1, u1) => match h2.data() {
                ExprData::Const(n2, u2) => {
                    if *n1 == *n2 && a1.len() == a2.len() && levels_def_eq(u1, u2) {
                        return self.const_args(g, m, ctx, *n1, u1, &a1, &a2);
                    }
                    return Ok(false);
                },
                _ => true,
            },
            _ => false,
        };
        if a1.len() != a2.len() {
            return Ok(false);
        }
        if !rec_expr_eq(&h1, &h2) {
            let c2 = match h2.data() {
                ExprData::Const(_, _) => true,
                _ => false,
            };
            if c1 || c2 {
                return Ok(false);
            }
            if !self.defeq_at(g, m, ctx, &h1, &h2)? {
                return Ok(false);
            }
        }
        self.pairwise_args(g, m, ctx, &a1, &a2)
    }

    /// Compares chains of applications of a bound variable layer by layer. It
    /// confirms that they are the same, or says nothing.
    pub fn iterated_app_congruent(&self, g: Budget, m: Mode, ctx: &Ctx, a: &Expr, b: &Expr) -> (r: R<
        Option<bool>,
    >)
        ensures
            res(r) == chains_same(sem_at(self@, g), m, ctx@, a@, b@, false),
        decreases g.total(), 1int, 0int,
    {
        let ghost s = sem_at(self@, g);
        let mut cur_a = a.clone();
        let mut cur_b = b.clone();
        let mut peeled = false;
        loop
            invariant
                s == sem_at(self@, g),
                chains_same(s, m, ctx@, cur_a@, cur_b@, peeled) == chains_same(
                    s,
                    m,
                    ctx@,
                    a@,
                    b@,
                    false,
                ),
            decreases cur_a@,
        {
            let next = match cur_a.data() {
                ExprData::App(fa, aa) => match cur_b.data() {
                    ExprData::App(fb, ab) => {
                        let by_var = match fa.data() {
                            ExprData::BVar(_) => true,
                            _ => false,
                        };
                        if by_var && self.defeq_at(g, m, ctx, fa, fb)? {
                            Some((aa.clone(), ab.clone()))
                        } else {
                            None
                        }
                    },
                    _ => None,
                },
                _ => None,
            };
            match next {
                Some((na, nb)) => {
                    cur_a = na;
                    cur_b = nb;
                    peeled = true;
                },
                None => {
                    if !peeled {
                        return Ok(None);
                    }
                    if self.defeq_at(g, m, ctx, &cur_a, &cur_b)? {
                        return Ok(Some(true));
                    }
                    return Ok(None);
                },
            }
        }
    }

    fn builds_data_structure(&self, n: u32) -> (r: bool)
        ensures
            r == builds_data(self@, n),
    {
        match self.env.get(n) {
            Some(ConstantInfo::Constructor { induct, .. }) => match self.env.get(*induct) {
                Some(
                    ConstantInfo::InductiveType { typ, ctors, num_indices, is_rec, .. },
                ) => ctors.len() == 1 && *num_indices == 0 && !*is_rec
                    && !self.sort_codomain_is_prop(typ),
                _ => false,
            },
            _ => false,
        }
    }

    /// Whether two terms agree before any reduction.
    pub fn try_unreduced_const_congruence(
        &self,
        g: Budget,
        m: Mode,
        ctx: &Ctx,
        a: &Expr,
        b: &Expr,
    ) -> (r: R<bool>)
        ensures
            res(r) == unreduced_congruent(self@, sem_at(self@, g), m, ctx@, a@, b@),
        decreases g.total(), 5int, 0int,
    {
        proof {
            reveal(unreduced_congruent);
        }
        match a.data() {
            ExprData::Proj(s1, i1, v1) => match b.data() {
                ExprData::Proj(s2, i2, v2) => {
                    if *s1 == *s2 && *i1 == *i2 {
                        return self.defeq_at(g, m, ctx, v1, v2);
                    }
                    return Ok(false);
                },
                _ => {},
            },
            _ => {},
        }
        let (h1, a1) = unfold_apps(a);
        let (h2, a2) = unfold_apps(b);
        assert(a1.len() == a1.deep_view().len() && a2.len() == a2.deep_view().len());
        match h1.data() {
            ExprData::Const(n1, u1) => match h2.data() {
                ExprData::Const(n2, u2) => {
                    let recursor = match self.env.get(*n1) {
                        Some(ConstantInfo::Recursor { .. }) => true,
                        _ => false,
                    };
                    if *n1 == *n2 && a1.len() == a2.len() && !recursor
                        && !self.builds_data_structure(*n1) && levels_def_eq(u1, u2) {
                        self.const_args(g, m, ctx, *n1, u1, &a1, &a2)
                    } else {
                        Ok(false)
                    }
                },
                _ => Ok(false),
            },
            _ => Ok(false),
        }
    }

    /// Whether two terms have the same type and that type has but one value.
    pub fn is_unit_like_pair(&self, g: Budget, m: Mode, ctx: &Ctx, a: &Expr, b: &Expr) -> (r: R<bool>)
        ensures
            res(r) == unit_like(self@, sem_at(self@, g), m, ctx@, a@, b@),
        decreases g.total(), 1int, 0int,
    {
        proof {
            reveal(unit_like);
        }
        let ta = match self.infer_at(g, m, ctx, a) {
            Ok(t) => t,
            Err(_) => {
                return Ok(false);
            },
        };
        let tb = match self.infer_at(g, m, ctx, b) {
            Ok(t) => t,
            Err(_) => {
                return Ok(false);
            },
        };
        if !self.defeq_at(g, m, ctx, &ta, &tb)? {
            return Ok(false);
        }
        let tw = self.whnf_at(g, m, ctx, &ta)?;
        let (head, _) = unfold_apps(&tw);
        match head.data() {
            ExprData::Const(n, _) => {
                if !self.is_non_rec_structure(*n) {
                    return Ok(false);
                }
                match self.structure_num_fields(*n) {
                    Some(c) => Ok(c == 0),
                    None => Ok(false),
                }
            },
            _ => Ok(false),
        }
    }

    fn is_same_structure(&self, g: Budget, m: Mode, ctx: &Ctx, a: &Expr, b: &Expr, induct: u32) -> (r:
        R<bool>)
        ensures
            res(r) == same_structure(sem_at(self@, g), m, ctx@, a@, b@, induct),
        decreases g.total(), 1int, 0int,
    {
        let q = m.inferring();
        let tb = match self.infer_at(g, q, ctx, b) {
            Ok(t) => t,
            Err(_) => {
                return Ok(false);
            },
        };
        let w = self.whnf_at(g, q, ctx, &tb)?;
        match app_head(&w).data() {
            ExprData::Const(n, _) => {
                if *n != induct {
                    return Ok(false);
                }
            },
            _ => {
                return Ok(false);
            },
        }
        match self.infer_at(g, q, ctx, a) {
            Ok(ta) => self.defeq_at(g, q, ctx, &ta, &tb),
            Err(_) => Ok(false),
        }
    }

    /// Whether `a` is a structure's constructor, fully applied, `b` is of the same
    /// structure type, and the fields of `a` are the projections of `b`.
    pub fn try_struct_eta(&self, g: Budget, m: Mode, ctx: &Ctx, a: &Expr, b: &Expr) -> (r: R<bool>)
        ensures
            res(r) == struct_eta(self@, sem_at(self@, g), m, ctx@, a@, b@),
        decreases g.total(), 2int, 0int,
    {
        proof {
            reveal(struct_eta);
        }
        let ghost s = sem_at(self@, g);
        let (head, args) = unfold_apps(a);
        let ghost av = args.deep_view();
        assert(args.len() == av.len());
        let (sname, np, nf) = match head.data() {
            ExprData::Const(c, _) => match self.env.get(*c) {
                Some(
                    ConstantInfo::Constructor { induct, num_params, num_fields, .. },
                ) => (*induct, *num_params, *num_fields),
                _ => {
                    return Ok(false);
                },
            },
            _ => {
                return Ok(false);
            },
        };
        if !self.is_non_rec_structure(sname) || args.len() as u64 != np as u64 + nf as u64 {
            return Ok(false);
        }
        if !self.is_same_structure(g, m, ctx, a, b, sname)? {
            return Ok(false);
        }
        let ghost fields = av.skip(np as int);
        let mut i: u32 = 0;
        while i < nf
            invariant
                i <= nf,
                args.len() == np + nf,
                av == args.deep_view(),
                fields == av.skip(np as int),
                fields.len() == nf,
                s == sem_at(self@, g),
                fields_project(s, m, ctx@, sname, b@, fields, i as nat) == struct_eta(
                    self@,
                    s,
                    m,
                    ctx@,
                    a@,
                    b@,
                ),
            decreases nf - i,
        {
            let p = proj(sname, i, b.clone());
            if !self.defeq_at(g, m, ctx, &args[np as usize + i as usize], &p)? {
                return Ok(false);
            }
            i = i + 1;
        }
        Ok(true)
    }

    fn same_binders(
        &self,
        g: Budget,
        m: Mode,
        ctx: &Ctx,
        t1: &Expr,
        b1: &Expr,
        t2: &Expr,
        b2: &Expr,
    ) -> (r: R<Option<bool>>)
        ensures
            res(r) == decided(
                binders_same(sem_at(self@, g), m, ctx@, t1@, b1@, t2@, b2@),
            ),
        decreases g.total(), 1int, 0int,
    {
        if !self.defeq_at(g, m, ctx, t1, t2)? {
            return Ok(Some(false));
        }
        Ok(Some(self.defeq_at(g, m, &ctx.extended(t1), b1, b2)?))
    }

    fn same_apps(&self, g: Budget, m: Mode, ctx: &Ctx, a: &Expr, b: &Expr) -> (r: R<Option<bool>>)
        requires
            a@ is App,
            b@ is App,
        ensures
            res(r) == shapes_same(self@, sem_at(self@, g), m, ctx@, a@, b@),
        decreases g.total(), 6int, 0int,
    {
        proof {
            reveal(shapes_same);
        }
        match self.iterated_app_congruent(g, m, ctx, a, b)? {
            Some(r) => Ok(Some(r)),
            None => {
                if self.app_spines_congruent(g, m, ctx, a, b)? {
                    Ok(Some(true))
                } else {
                    Ok(None)
                }
            },
        }
    }

    fn same_shapes(&self, g: Budget, m: Mode, ctx: &Ctx, a: &Expr, b: &Expr) -> (r: R<Option<bool>>)
        ensures
            res(r) == shapes_same(self@, sem_at(self@, g), m, ctx@, a@, b@),
        decreases g.total(), 7int, 0int,
    {
        proof {
            reveal(shapes_same);
        }
        match (a.data(), b.data()) {
            (ExprData::Let(_, v, body), _) => Ok(
                Some(self.defeq_at(g, m, ctx, &instantiate1(body, v), b)?),
            ),
            (_, ExprData::Let(_, v, body)) => Ok(
                Some(self.defeq_at(g, m, ctx, a, &instantiate1(body, v))?),
            ),
            (ExprData::Sort(l1), ExprData::Sort(l2)) => Ok(Some(is_def_eq(l1, l2))),
            (ExprData::Lit(x), ExprData::Lit(y)) => Ok(Some(lit_same(x, y))),
            (ExprData::Pi(_, t1, b1), ExprData::Pi(_, t2, b2)) => self.same_binders(
                g,
                m,
                ctx,
                t1,
                b1,
                t2,
                b2,
            ),
            (ExprData::Lam(_, t1, b1), ExprData::Lam(_, t2, b2)) => self.same_binders(
                g,
                m,
                ctx,
                t1,
                b1,
                t2,
                b2,
            ),
            (ExprData::Lam(_, t1, b1), _) => {
                let b_app = app(shift(b, 1, 0), bvar(0));
                Ok(Some(self.defeq_at(g, m, &ctx.extended(t1), b1, &b_app)?))
            },
            (_, ExprData::Lam(_, t2, b2)) => {
                let a_app = app(shift(a, 1, 0), bvar(0));
                Ok(Some(self.defeq_at(g, m, &ctx.extended(t2), &a_app, b2)?))
            },
            (ExprData::App(_, _), ExprData::App(_, _)) => self.same_apps(g, m, ctx, a, b),
            (ExprData::Proj(s1, i1, v1), ExprData::Proj(s2, i2, v2)) => {
                if *s1 == *s2 && *i1 == *i2 && self.defeq_at(g, m, ctx, v1, v2)? {
                    Ok(Some(true))
                } else {
                    Ok(None)
                }
            },
            (ExprData::Const(n1, u1), ExprData::Const(n2, u2)) => {
                if *n1 == *n2 && levels_def_eq(u1, u2) {
                    Ok(Some(true))
                } else {
                    Ok(None)
                }
            },
            _ => Ok(None),
        }
    }

    fn compare_unfolded(&self, g: Budget, m: Mode, ctx: &Ctx, a: &Expr, b: &Expr) -> (r: R<bool>)
        ensures
            res(r) == unfolded_same(self@, sem_at(self@, g), m, ctx@, a@, b@),
        decreases g.total(), 1int, 0int,
    {
        proof {
            reveal(unfolded_same);
        }
        let (h1, _) = unfold_apps(a);
        let (h2, _) = unfold_apps(b);
        let (left, right) = match (h1.data(), h2.data()) {
            (ExprData::Const(x, _), ExprData::Const(y, _)) => {
                let rx = self.is_delta_reducible(*x);
                let ry = self.is_delta_reducible(*y);
                if *x == *y {
                    (rx, rx)
                } else if rx && (self.def_height(*x) >= self.def_height(*y) || !ry) {
                    (true, false)
                } else {
                    (false, ry)
                }
            },
            (ExprData::Const(x, _), _) => (self.is_delta_reducible(*x), false),
            (_, ExprData::Const(y, _)) => (false, self.is_delta_reducible(*y)),
            _ => (false, false),
        };
        if !left && !right {
            return Ok(false);
        }
        let ua = if left {
            self.core_at(g, m, ctx, &self.delta_step(a))?
        } else {
            a.clone()
        };
        let ub = if right {
            self.core_at(g, m, ctx, &self.delta_step(b))?
        } else {
            b.clone()
        };
        self.defeq_core_at(g, m, ctx, &ua, &ub)
    }

    fn same_numerals(&self, a: &Expr, b: &Expr) -> (r: Option<bool>)
        ensures
            match numeral_pair(self@, a@, b@) {
                Some((x, y)) => r == Some(x == y),
                None => r is None,
            },
    {
        match self.nat_ctors() {
            None => None,
            Some((zero, succ)) => match numeral_value(a, zero, succ) {
                None => None,
                Some(x) => match numeral_value(b, zero, succ) {
                    None => None,
                    Some(y) => Some(x.same(&y)),
                },
            },
        }
    }

    pub(crate) fn defeq_core_once(&self, g: Budget, m: Mode, ctx: &Ctx, a: &Expr, b: &Expr) -> (r: R<
        bool,
    >)
        ensures
            res(r) == defeq_core_step(self@, sem_at(self@, g), m, ctx@, a@, b@),
        decreases g.total(), 8int, 0int,
    {
        proof {
            reveal(defeq_core_step);
        }
        if rec_expr_eq(a, b) {
            return Ok(true);
        }
        if self.proofs_of_same_prop(g, m, ctx, a, b)? {
            return Ok(true);
        }
        match self.same_numerals(a, b) {
            Some(r) => {
                return Ok(r);
            },
            None => {},
        }
        match self.same_shapes(g, m, ctx, a, b)? {
            Some(r) => {
                return Ok(r);
            },
            None => {},
        }
        if self.is_unit_like_pair(g, m, ctx, a, b)? {
            return Ok(true);
        }
        if self.try_struct_eta(g, m, ctx, a, b)? {
            return Ok(true);
        }
        if self.try_struct_eta(g, m, ctx, b, a)? {
            return Ok(true);
        }
        if self.compare_unfolded(g, m, ctx, a, b)? {
            return Ok(true);
        }
        self.proofs_of_same_prop(g, m, ctx, a, b)
    }

    pub(crate) fn defeq_eager_at(&self, g: Budget, m: Mode, ctx: &Ctx, a: &Expr, b: &Expr) -> (r: R<
        bool,
    >)
        ensures
            res(r) == defeq_eager(self@, sem_at(self@, g), m, ctx@, a@, b@),
        decreases g.total(), 8int, 0int,
    {
        proof {
            reveal(defeq_eager);
        }
        if rec_expr_eq(a, b) {
            return Ok(true);
        }
        if self.proofs_of_same_prop(g, m, ctx, a, b)? {
            return Ok(true);
        }
        if self.try_unreduced_const_congruence(g, m, ctx, a, b)? {
            return Ok(true);
        }
        let aw = self.whnf_at(g, m, ctx, a)?;
        let bw = self.whnf_at(g, m, ctx, b)?;
        match self.closed_int_at(g, m, ctx, &aw) {
            Ok(Some(x)) => match self.closed_int_at(g, m, ctx, &bw) {
                Ok(Some(y)) => {
                    return Ok(x.same(&y));
                },
                _ => {},
            },
            _ => {},
        }
        self.defeq_core_at(g, m, ctx, &aw, &bw)
    }
}

/// Proofs of one proposition are the same.
pub proof fn law_proof_irrelevance(k: K, s: Sem, m: Mode, ctx: Seq<Term>, a: Term, b: Term)
    requires
        same_proofs(k, s, m, ctx, a, b) == Ok::<bool, Fault>(true),
    ensures
        defeq_eager(k, s, m, ctx, a, b) == Ok::<bool, Fault>(true),
        defeq_core_step(k, s, m, ctx, a, b) == Ok::<bool, Fault>(true),
{
    reveal(defeq_eager);
    reveal(defeq_core_step);
}

/// Only propositions have irrelevant proofs: where two terms are the same on this
/// account, the type of the first one is a proposition.
pub proof fn law_irrelevance_needs_prop(k: K, s: Sem, m: Mode, ctx: Seq<Term>, a: Term, b: Term)
    requires
        same_proofs(k, s, m, ctx, a, b) == Ok::<bool, Fault>(true),
    ensures
        (s.infer)(infer_only_mode(m), ctx, a) matches Ok(t) && (s.is_prop)(
            infer_only_mode(m),
            ctx,
            t,
        ) == Ok::<bool, Fault>(true),
{
    reveal(same_proofs);
}

/// A function is compared with a term that is none by applying the term to the
/// variable.
pub proof fn law_eta(
    k: K,
    s: Sem,
    m: Mode,
    ctx: Seq<Term>,
    bi: crate::expr::BinderInfo,
    ty: Term,
    body: Term,
    b: Term,
)
    requires
        !(b is Lam),
        !(b is Let),
    ensures
        shapes_same(k, s, m, ctx, Term::Lam(bi, Box::new(ty), Box::new(body)), b) == decided(
            (s.defeq)(m, ctx.push(ty), body, eta_expand(b)),
        ),
{
    reveal(shapes_same);
}

/// Sorts are the same exactly where their levels are.
pub proof fn law_sorts_same(k: K, s: Sem, m: Mode, ctx: Seq<Term>, a: Univ, b: Univ)
    ensures
        shapes_same(k, s, m, ctx, Term::Sort(a), Term::Sort(b)) == Ok::<Option<bool>, Fault>(
            Some(univ_eq(a, b)),
        ),
{
    reveal(shapes_same);
}

/// Numerals that are not proofs are the same exactly where their values are.
pub proof fn law_numerals_by_value(
    k: K,
    s: Sem,
    m: Mode,
    ctx: Seq<Term>,
    a: Term,
    b: Term,
    x: nat,
    y: nat,
)
    requires
        numeral_pair(k, a, b) == Some((x, y)),
        same_proofs(k, s, m, ctx, a, b) == Ok::<bool, Fault>(false),
    ensures
        defeq_core_step(k, s, m, ctx, a, b) == Ok::<bool, Fault>(x == y),
{
    reveal(defeq_core_step);
}

/// Whether the fields of a constructor application are the projections of a term,
/// in order.
pub open spec fn fields_of(sname: u32, fields: Seq<Term>, b: Term) -> bool {
    forall|i: int|
        0 <= i < fields.len() ==> #[trigger] fields[i] == Term::Proj(sname, i as u32, Box::new(b))
}

proof fn lemma_own_fields(
    k: K,
    g: Budget,
    m: Mode,
    ctx: Seq<Term>,
    sname: u32,
    b: Term,
    fields: Seq<Term>,
    i: nat,
)
    requires
        g.defeq > 0,
        fields_of(sname, fields, b),
    ensures
        fields_project(sem_at(k, g), m, ctx, sname, b, fields, i) == Ok::<bool, Fault>(true),
    decreases fields.len() - i,
{
    if i < fields.len() {
        assert(fields[i as int] == Term::Proj(sname, i as u32, Box::new(b)));
        crate::decl::law_defeq_reflexive(k, g, m, ctx, fields[i as int]);
        lemma_own_fields(k, g, m, ctx, sname, b, fields, i + 1);
    }
}

/// A term is the same as the constructor of its structure type applied to all its
/// projections.
pub proof fn law_structure_eta(
    k: K,
    g: Budget,
    m: Mode,
    ctx: Seq<Term>,
    a: Term,
    b: Term,
    induct: u32,
    num_params: u32,
    num_fields: u32,
)
    requires
        g.defeq > 0,
        spine_head(a) matches Term::Const(c, _) && (find(k.env, c) matches Some(
            Info::Constructor { induct: i, num_params: p, num_fields: f, .. },
        ) && i == induct && p == num_params && f == num_fields),
        is_structure(k.env, induct),
        spine_args(a).len() == num_params + num_fields,
        fields_of(induct, spine_args(a).skip(num_params as int), b),
        same_structure(sem_at(k, g), m, ctx, a, b, induct) == Ok::<bool, Fault>(true),
    ensures
        struct_eta(k, sem_at(k, g), m, ctx, a, b) == Ok::<bool, Fault>(true),
{
    reveal(struct_eta);
    lemma_own_fields(
        k,
        g,
        m,
        ctx,
        induct,
        b,
        spine_args(a).skip(num_params as int),
        0,
    );
}

/// Comparing a constructor application with another term by its fields takes the
/// other term to be of the structure: its type reduces to the structure that the
/// constructor builds, and is the same as that of the application.
pub proof fn law_structure_eta_is_typed(k: K, s: Sem, m: Mode, ctx: Seq<Term>, a: Term, b: Term)
    requires
        struct_eta(k, s, m, ctx, a, b) == Ok::<bool, Fault>(true),
    ensures
        spine_head(a) matches Term::Const(c, _) && (find(k.env, c) matches Some(
            Info::Constructor { induct, .. },
        ) && is_structure(k.env, induct) && ((s.infer)(infer_only_mode(m), ctx, b) matches Ok(tb)
            && ((s.whnf)(infer_only_mode(m), ctx, tb) matches Ok(w) && (spine_head(
            w,
        ) matches Term::Const(n, _) && n == induct)) && ((s.infer)(
            infer_only_mode(m),
            ctx,
            a,
        ) matches Ok(ta) && (s.defeq)(infer_only_mode(m), ctx, ta, tb) == Ok::<bool, Fault>(true)))),
{
    reveal(struct_eta);
}

} // verus!
