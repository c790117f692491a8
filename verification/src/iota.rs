//! Reduction of recursors and of quotients.

use crate::ctx::Ctx;
use crate::env::{find, group_of, rec_of, ConstantInfo, Info, QuotKind, RecRule};
use crate::errors::{decline, res, Fault, R};
use crate::expr::{
    app, apps, apps_from, bvar, clone_exprs, const_, exprs_between, exprs_from, instantiate,
    instantiate1, instantiate_level_params, lam, lift, lit_nat, mk_apps, plug, plug1, proj,
    rec_expr_eq, shift, spine_args, spine_head, subst_params, unfold_apps, BinderInfo, Expr,
    ExprData, Lit, LitT, Term,
};
use crate::judge::sem_at;
use crate::kernel::{Budget, Checker, K, Mode, Res, STEP_LIMIT, Sem};
use crate::level::{is_def_eq, univ_eq, zero, Level, Univ};
use crate::lookup::{is_structure, nat_ctors_spec};
use crate::names::{app1, nat_lit};
use crate::num::Natural;
use crate::reduce::{apply_type_spec, ensure_pi_spec, ensure_sort_spec, open_spec, reversed_exprs, whnf_major_spec};
use vstd::arithmetic::power2::pow2;
use vstd::prelude::*;

verus! {

/// The number of bits that a literal may have to be taken apart by a recursor.
pub const LITERAL_BITS: u64 = 256;

/// Whether a list holds a number.
pub fn has_id(v: &Vec<u32>, x: u32) -> (r: bool)
    ensures
        r == v@.contains(x),
{
    let mut i: usize = 0;
    while i < v.len()
        invariant
            i <= v.len(),
            forall|j: int| 0 <= j < i ==> v@[j] != x,
        decreases v.len() - i,
    {
        if v[i] == x {
            assert(v@[i as int] == x);
            return true;
        }
        i = i + 1;
    }
    false
}

/// Whether one of the names occurs in a term.
pub open spec fn occurs_any_spec(e: Term, names: Seq<u32>) -> bool
    decreases e,
{
    match e {
        Term::Const(n, _) => names.contains(n),
        Term::App(f, a) => occurs_any_spec(*f, names) || occurs_any_spec(*a, names),
        Term::Lam(_, t, b) => occurs_any_spec(*t, names) || occurs_any_spec(*b, names),
        Term::Pi(_, t, b) => occurs_any_spec(*t, names) || occurs_any_spec(*b, names),
        Term::Let(t, v, b) => occurs_any_spec(*t, names) || occurs_any_spec(*v, names)
            || occurs_any_spec(*b, names),
        Term::Proj(_, _, v) => occurs_any_spec(*v, names),
        _ => false,
    }
}

/// Whether one of the names occurs in a term.
pub fn occurs_any(e: &Expr, names: &Vec<u32>) -> (r: bool)
    ensures
        r == occurs_any_spec(e@, names@),
    decreases e,
{
    match e.data() {
        ExprData::Const(n, _) => has_id(names, *n),
        ExprData::App(f, a) => occurs_any(f, names) || occurs_any(a, names),
        ExprData::Lam(_, t, b) => occurs_any(t, names) || occurs_any(b, names),
        ExprData::Pi(_, t, b) => occurs_any(t, names) || occurs_any(b, names),
        ExprData::Let(t, v, b) => occurs_any(t, names) || occurs_any(v, names) || occurs_any(
            b,
            names,
        ),
        ExprData::Proj(_, _, v) => occurs_any(v, names),
        _ => false,
    }
}

/// The terms lifted over `by` binders.
pub open spec fn lift_all(ts: Seq<Term>, by: int) -> Seq<Term> {
    Seq::new(ts.len(), |i: int| lift(ts[i], by, 0))
}

/// The terms lifted over `by` binders.
pub fn shift_exprs(ts: &Vec<Expr>, by: i64) -> (r: Vec<Expr>)
    ensures
        r.deep_view() == lift_all(ts.deep_view(), by as int),
{
    let mut out: Vec<Expr> = Vec::new();
    let mut i: usize = 0;
    while i < ts.len()
        invariant
            i <= ts.len(),
            out.len() == i,
            forall|j: int| 0 <= j < i ==> (#[trigger] out@[j])@ == lift(ts@[j]@, by as int, 0),
        decreases ts.len() - i,
    {
        out.push(shift(&ts[i], by, 0));
        i = i + 1;
    }
    assert(out.deep_view() =~= lift_all(ts.deep_view(), by as int));
    out
}

/// A body under abstractions over the given types, the first one outermost.
pub open spec fn wrap_lams(tys: Seq<Term>, body: Term) -> Term
    decreases tys.len(),
{
    if tys.len() == 0 {
        body
    } else {
        wrap_lams(
            tys.drop_last(),
            Term::Lam(BinderInfo::Default, Box::new(tys.last()), Box::new(body)),
        )
    }
}

/// A body under abstractions over the given types.
pub fn mk_lams(tys: &Vec<Expr>, body: Expr) -> (r: Expr)
    ensures
        r@ == wrap_lams(tys.deep_view(), body@),
{
    let ghost tv = tys.deep_view();
    let mut out = body;
    let mut i: usize = tys.len();
    assert(tv.take(i as int) =~= tv);
    while i > 0
        invariant
            i <= tys.len(),
            tv == tys.deep_view(),
            wrap_lams(tv.take(i as int), out@) == wrap_lams(tv, body@),
        decreases i,
    {
        i = i - 1;
        assert(tv.take(i + 1).drop_last() =~= tv.take(i as int));
        out = lam(BinderInfo::Default, tys[i].clone(), out);
    }
    out
}

/// A function applied to the innermost `n` variables, the outermost first.
pub open spec fn app_bvars(f: Term, n: nat) -> Term
    decreases n,
{
    if n == 0 {
        f
    } else {
        app_bvars(app1(f, Term::BVar((n - 1) as u32)), (n - 1) as nat)
    }
}

/// A function applied to the innermost `n` variables.
pub fn apply_bvars(f: Expr, n: u32) -> (r: Expr)
    ensures
        r@ == app_bvars(f@, n as nat),
{
    let mut out = f;
    let mut i: u32 = n;
    while i > 0
        invariant
            i <= n,
            app_bvars(out@, i as nat) == app_bvars(f@, n as nat),
        decreases i,
    {
        i = i - 1;
        out = app(out, bvar(i));
    }
    out
}

/// The type behind all function types, each made to show.
pub open spec fn open_all(s: Sem, m: Mode, ctx: Seq<Term>, t: Term, n: nat) -> Res<
    (Seq<Term>, Term),
>
    decreases n,
{
    if n == 0 {
        Err(Fault::Decline("WHNF step limit"@))
    } else {
        match (s.whnf)(m, ctx, t) {
            Err(f) => Err(f),
            Ok(Term::Pi(_, dom, body)) => open_all(s, m, ctx.push(*dom), *body, (n - 1) as nat),
            Ok(w) => Ok((ctx, w)),
        }
    }
}

/// The number of function types that a type shows.
pub open spec fn pi_count(t: Term) -> nat
    decreases t,
{
    match t {
        Term::Pi(_, _, b) => 1 + pi_count(*b),
        _ => 0,
    }
}

/// The type behind all the function types that show.
pub open spec fn pi_target(t: Term) -> Term
    decreases t,
{
    match t {
        Term::Pi(_, _, b) => pi_target(*b),
        _ => t,
    }
}

/// The type behind `n` function types that show.
pub open spec fn skip_pis(t: Term, n: nat) -> Option<Term>
    decreases n,
{
    if n == 0 {
        Some(t)
    } else {
        match t {
            Term::Pi(_, _, b) => skip_pis(*b, (n - 1) as nat),
            _ => None,
        }
    }
}

/// Whether a type in the sort of propositions has at most one proof of each of
/// its instances: it is alone in its group, is a proposition, and has one
/// constructor without fields.
#[verifier::opaque]
pub open spec fn k_like(k: K, s: Sem, m: Mode, all: Seq<u32>) -> bool {
    if all.len() != 1 {
        false
    } else {
        match find(k.env, all[0]) {
            Some(Info::InductiveType { ctors, num_params, typ, .. }) => if ctors.len() != 1 {
                false
            } else {
                match open_spec(k, s, m, Seq::empty(), typ, num_params as nat) {
                    Err(_) => false,
                    Ok((c1, t1)) => match open_all(s, m, c1, t1, STEP_LIMIT as nat) {
                        Err(_) => false,
                        Ok((c2, t2)) => match ensure_sort_spec(k, s, m, c2, t2) {
                            Err(_) => false,
                            Ok(l) => univ_eq(l, Univ::Zero) && match find(k.env, ctors[0]) {
                                Some(
                                    Info::Constructor { typ: ct, .. },
                                ) => pi_count(ct) == num_params,
                                _ => false,
                            },
                        },
                    },
                }
            },
            _ => false,
        }
    }
}

/// A constructor applied to arguments, as a recursor sees it: the constructor,
/// the number of its parameters, the arguments, and the levels where they are
/// known.
pub struct CtorAppT {
    pub ctor: u32,
    pub num_params: u32,
    pub args: Seq<Term>,
    pub levels: Option<Seq<Univ>>,
}

/// A constructor applied to arguments, as a recursor sees it.
pub struct CtorApp {
    pub ctor: u32,
    pub num_params: u32,
    pub args: Vec<Expr>,
    pub levels: Option<Vec<Level>>,
}

impl DeepView for CtorApp {
    type V = CtorAppT;

    open spec fn deep_view(&self) -> CtorAppT {
        CtorAppT {
            ctor: self.ctor,
            num_params: self.num_params,
            args: self.args.deep_view(),
            levels: self.levels.deep_view(),
        }
    }
}

/// The constructor that a K-like major premise must be, where its type is that of
/// the constructor.
#[verifier::opaque]
pub open spec fn k_ctor(
    k: K,
    s: Sem,
    m: Mode,
    ctx: Seq<Term>,
    all: Seq<u32>,
    params: Seq<Term>,
    major: Term,
) -> Res<Option<CtorAppT>> {
    match find(k.env, all[0]) {
        Some(Info::InductiveType { ctors, .. }) => if ctors.len() != 1 {
            Ok(None)
        } else {
            match find(k.env, ctors[0]) {
                Some(Info::Constructor { level_params, typ, num_params, .. }) => match (s.infer)(
                    m,
                    ctx,
                    major,
                ) {
                    Err(f) => Err(f),
                    Ok(mt) => match (s.whnf)(m, ctx, mt) {
                        Err(f) => Err(f),
                        Ok(mtw) => match spine_head(mtw) {
                            Term::Const(n, us) => if n != all[0] {
                                Ok(None)
                            } else {
                                match apply_type_spec(
                                    k,
                                    s,
                                    m,
                                    ctx,
                                    subst_params(typ, level_params, us),
                                    params,
                                    0,
                                ) {
                                    Err(_) => Ok(None),
                                    Ok(ct) => match crate::conv::pairwise(
                                        s,
                                        m,
                                        ctx,
                                        spine_args(mtw),
                                        spine_args(ct),
                                        0,
                                    ) {
                                        Err(f) => Err(f),
                                        Ok(false) => Ok(None),
                                        Ok(true) => Ok(
                                            Some(
                                                CtorAppT {
                                                    ctor: ctors[0],
                                                    num_params,
                                                    args: params,
                                                    levels: None,
                                                },
                                            ),
                                        ),
                                    },
                                }
                            },
                            _ => Ok(None),
                        },
                    },
                },
                _ => Ok(None),
            }
        },
        _ => Ok(None),
    }
}

/// The projections of the fields from `i` on, behind those collected.
pub open spec fn push_projs(sname: u32, v: Term, acc: Seq<Term>, i: u32, n: u32) -> Seq<Term>
    decreases n - i,
{
    if i >= n {
        acc
    } else {
        push_projs(sname, v, acc.push(Term::Proj(sname, i, Box::new(v))), (i + 1) as u32, n)
    }
}

/// A value of a structure that holds data, as its constructor applied to its
/// projections.
#[verifier::opaque]
pub open spec fn structure_ctor(k: K, s: Sem, m: Mode, ctx: Seq<Term>, major: Term) -> Res<
    Option<CtorAppT>,
> {
    match (s.infer)(m, ctx, major) {
        Err(f) => Err(f),
        Ok(mt) => match (s.whnf)(m, ctx, mt) {
            Err(f) => Err(f),
            Ok(mtw) => match (s.is_prop)(m, ctx, mtw) {
                Err(f) => Err(f),
                Ok(true) => Ok(None),
                Ok(false) => match spine_head(mtw) {
                    Term::Const(n, us) => if !is_structure(k.env, n) {
                        Ok(None)
                    } else {
                        Ok(eta_structure(k, n, us, spine_args(mtw), major))
                    },
                    _ => Ok(None),
                },
            },
        },
    }
}

/// A value of a structure type, as its constructor applied to its projections.
pub open spec fn eta_structure(k: K, n: u32, us: Seq<Univ>, targs: Seq<Term>, major: Term) -> Option<
    CtorAppT,
> {
    match find(k.env, n) {
        Some(Info::InductiveType { ctors, num_params, .. }) => match find(k.env, ctors[0]) {
            Some(Info::Constructor { num_fields, .. }) => if targs.len() < num_params {
                None
            } else {
                Some(
                    CtorAppT {
                        ctor: ctors[0],
                        num_params,
                        args: push_projs(n, major, targs.take(num_params as int), 0, num_fields),
                        levels: Some(us),
                    },
                )
            },
            _ => None,
        },
        _ => None,
    }
}

/// The parts of a recursor's declaration that its reduction reads.
pub struct RecShape {
    pub num_params: u32,
    pub num_motives: u32,
    pub num_minors: u32,
    pub num_indices: u32,
}

/// The position of the major premise.
pub open spec fn major_at(sh: RecShape) -> int {
    sh.num_params + sh.num_motives + sh.num_minors + sh.num_indices
}

/// Whether a recursor takes values of a constructor: by its type, or by a rule.
pub open spec fn takes_ctor(all: Seq<u32>, ctors: Seq<u32>, ctor: u32, induct: Option<u32>) -> bool {
    (induct matches Some(i) && all.contains(i)) || ctors.contains(ctor)
}

/// The type that a constructor belongs to.
pub open spec fn ctor_type(k: K, c: u32) -> Option<u32> {
    match find(k.env, c) {
        Some(Info::Constructor { induct, .. }) => Some(induct),
        _ => None,
    }
}

/// A reduced major premise as a constructor applied to arguments, where it shows
/// one.
pub open spec fn shown_ctor(k: K, all: Seq<u32>, ctors: Seq<u32>, major: Term) -> Res<
    Option<CtorAppT>,
> {
    match spine_head(major) {
        Term::Const(c, us) => match find(k.env, c) {
            Some(Info::Constructor { induct, num_params, .. }) => if takes_ctor(
                all,
                ctors,
                c,
                Some(induct),
            ) {
                Ok(
                    Some(
                        CtorAppT { ctor: c, num_params, args: spine_args(major), levels: Some(us) },
                    ),
                )
            } else {
                Ok(None)
            },
            _ => Ok(None),
        },
        Term::Lit(LitT::Nat(n)) => match nat_ctors_spec(k) {
            None => Ok(None),
            Some((zero, succ)) => if takes_ctor(all, ctors, zero, ctor_type(k, zero)) {
                if n == 0 {
                    Ok(
                        Some(
                            CtorAppT { ctor: zero, num_params: 0, args: Seq::empty(), levels: None },
                        ),
                    )
                } else if n >= pow2(LITERAL_BITS as nat) {
                    Err(Fault::Decline("Nat literal exceeds byte cap"@))
                } else {
                    Ok(
                        Some(
                            CtorAppT {
                                ctor: succ,
                                num_params: 0,
                                args: seq![nat_lit((n - 1) as nat)],
                                levels: None,
                            },
                        ),
                    )
                }
            } else {
                Ok(None)
            },
        },
        _ => Ok(None),
    }
}

/// The constructor application that the major premise of a recursor is.
#[verifier::opaque]
pub open spec fn major_ctor(
    k: K,
    s: Sem,
    m: Mode,
    ctx: Seq<Term>,
    all: Seq<u32>,
    ctors: Seq<u32>,
    params: Seq<Term>,
    major: Term,
    major_w: Term,
) -> Res<Option<CtorAppT>> {
    match shown_ctor(k, all, ctors, major_w) {
        Err(f) => Err(f),
        Ok(Some(c)) => Ok(Some(c)),
        Ok(None) => match structure_ctor(k, s, m, ctx, major_w) {
            Err(f) => Err(f),
            Ok(Some(c)) => Ok(Some(c)),
            Ok(None) => if k_like(k, s, m, all) {
                k_ctor(k, s, m, ctx, all, params, major)
            } else {
                Ok(None)
            },
        },
    }
}

/// A recursor's type with its levels and parameters filled in.
pub open spec fn rec_type_at(typ: Term, lps: Seq<u32>, us: Seq<Univ>, params: Seq<Term>) -> Term {
    plug(subst_params(typ, lps, us), params.reverse(), 0)
}

/// Whether the type of a minor premise is that for a constructor with the given
/// parameters.
pub open spec fn minor_is_for(dom: Term, c: u32, ctor_params: Seq<Term>) -> bool {
    let concl = spine_args(pi_target(dom));
    concl.len() > 0 && {
        let shape = concl.last();
        let cargs = spine_args(shape);
        (spine_head(shape) matches Term::Const(x, _) && x == c) && cargs.len() >= ctor_params.len()
            && cargs.take(ctor_params.len() as int) == ctor_params
    }
}

/// The position of the minor premise for a constructor, counted on from `p`.
pub open spec fn minor_from(t: Term, p: nat, n: nat, c: u32, ctor_params: Seq<Term>) -> Option<nat>
    decreases n,
{
    if n == 0 {
        None
    } else {
        match t {
            Term::Pi(_, dom, body) => if minor_is_for(*dom, c, ctor_params) {
                Some(p)
            } else {
                minor_from(*body, p + 1, (n - 1) as nat, c, ctor_params)
            },
            _ => None,
        }
    }
}

/// The position of the minor premise for a constructor, as the recursor's type
/// shows it.
#[verifier::opaque]
pub open spec fn minor_by_type(
    k: K,
    rname: u32,
    us: Seq<Univ>,
    params: Seq<Term>,
    c: u32,
    ctor_params: Seq<Term>,
) -> Option<nat> {
    match find(k.env, rname) {
        Some(
            Info::Recursor { level_params, typ, num_params, num_motives, num_minors, .. },
        ) => if level_params.len() != us.len() || num_params != params.len() {
            None
        } else {
            match skip_pis(
                rec_type_at(typ, level_params, us, params),
                (num_params + num_motives) as nat,
            ) {
                None => None,
                Some(t) => minor_from(t, 0, num_minors as nat, c, ctor_params),
            }
        },
        _ => None,
    }
}

/// The first position of a number in a list, from `i` on.
pub open spec fn first_at(v: Seq<u32>, x: u32, i: nat) -> Option<nat>
    decreases v.len() - i,
{
    if i >= v.len() {
        None
    } else if v[i as int] == x {
        Some(i)
    } else {
        first_at(v, x, i + 1)
    }
}

/// The position of a constructor among those that a group of recursors has rules
/// for, counted on from `idx`; where `only` names a recursor, its rules alone
/// count as a match.
pub open spec fn group_minor(
    k: K,
    group: Seq<u32>,
    only: Option<u32>,
    c: u32,
    i: nat,
    idx: nat,
) -> Option<nat>
    decreases group.len() - i,
{
    if i >= group.len() {
        None
    } else {
        match find(k.env, group[i as int]) {
            Some(Info::Recursor { ctors, .. }) => {
                let here = match only {
                    Some(r) => r == group[i as int],
                    None => true,
                };
                match first_at(ctors, c, 0) {
                    Some(l) => if here {
                        Some(idx + l)
                    } else {
                        group_minor(k, group, only, c, i + 1, idx + ctors.len())
                    },
                    None => group_minor(k, group, only, c, i + 1, idx + ctors.len()),
                }
            },
            _ => group_minor(k, group, only, c, i + 1, idx),
        }
    }
}

/// The position of a constructor among those of a group of types, counted on
/// from `idx`; where it is not among them, their number.
pub open spec fn types_minor(k: K, all: Seq<u32>, c: u32, i: nat, idx: nat) -> nat
    decreases all.len() - i,
{
    if i >= all.len() {
        idx
    } else {
        match find(k.env, all[i as int]) {
            Some(Info::InductiveType { ctors, .. }) => match first_at(ctors, c, 0) {
                Some(l) => idx + l,
                None => types_minor(k, all, c, i + 1, idx + ctors.len()),
            },
            _ => types_minor(k, all, c, i + 1, idx),
        }
    }
}

/// The position of the minor premise for a constructor, by the rules of the
/// group.
pub open spec fn minor_by_group(k: K, c: u32, rname: u32, all: Seq<u32>) -> nat {
    let group = group_of(k.env, rname);
    match group_minor(k, group, Some(rname), c, 0, 0) {
        Some(i) => i,
        None => match group_minor(k, group, None, c, 0, 0) {
            Some(i) => i,
            None => types_minor(k, all, c, 0, 0),
        },
    }
}

/// The position of the minor premise for a constructor.
pub open spec fn minor_index(
    k: K,
    rname: u32,
    us: Seq<Univ>,
    params: Seq<Term>,
    c: u32,
    ctor_params: Seq<Term>,
    all: Seq<u32>,
) -> nat {
    match minor_by_type(k, rname, us, params, c, ctor_params) {
        Some(i) => i,
        None => minor_by_group(k, c, rname, all),
    }
}

/// Whether a recursor is on a type with recursive constructors.
pub open spec fn rec_recurses(k: K, rname: u32) -> bool {
    match find(k.env, rname) {
        Some(Info::Recursor { all, .. }) => exists|i: int|
            0 <= i < all.len() && #[trigger] type_recurses(k, all[i]),
        _ => true,
    }
}

/// Whether a type has recursive constructors.
pub open spec fn type_recurses(k: K, n: u32) -> bool {
    match find(k.env, n) {
        Some(Info::InductiveType { is_rec, .. }) => is_rec,
        _ => false,
    }
}

/// The head normal form, or the term itself where there is none.
pub open spec fn whnf_or(s: Sem, m: Mode, ctx: Seq<Term>, e: Term) -> Term {
    match (s.whnf)(m, ctx, e) {
        Ok(w) => w,
        Err(_) => e,
    }
}

/// The domains that a field's type shows, behind those collected, and the type
/// behind them.
pub open spec fn field_binders(
    s: Sem,
    m: Mode,
    ctx: Seq<Term>,
    ty: Term,
    acc: Seq<Term>,
    n: nat,
) -> Res<(Seq<Term>, Term)>
    decreases n,
{
    match ty {
        Term::Pi(_, dom, body) => if n == 0 {
            Err(Fault::Decline("WHNF step limit"@))
        } else {
            let acc2 = acc.push(*dom);
            field_binders(s, m, ctx, whnf_or(s, m, ctx + acc2, *body), acc2, (n - 1) as nat)
        },
        _ => Ok((acc, ty)),
    }
}

/// Whether arguments are, position by position, equal to or the same as the
/// expected ones.
pub open spec fn args_match(
    s: Sem,
    m: Mode,
    ctx: Seq<Term>,
    have: Seq<Term>,
    want: Seq<Term>,
    i: nat,
) -> bool
    decreases want.len() - i,
{
    if i >= want.len() {
        true
    } else {
        (have[i as int] == want[i as int] || (s.defeq)(m, ctx, have[i as int], want[i as int])
            == Ok::<bool, Fault>(true)) && args_match(s, m, ctx, have, want, i + 1)
    }
}

/// Whether the major premise of a recursor has the given type.
pub open spec fn rec_is_for_type(
    k: K,
    s: Sem,
    m: Mode,
    ctx: Seq<Term>,
    rec: u32,
    us: Seq<Univ>,
    params: Seq<Term>,
    target: u32,
    targs: Seq<Term>,
) -> bool {
    match find(k.env, rec) {
        Some(
            Info::Recursor {
                level_params,
                typ,
                num_params,
                num_motives,
                num_minors,
                num_indices,
                ..
            },
        ) => level_params.len() == us.len() && num_params == params.len() && match skip_pis(
            rec_type_at(typ, level_params, us, params),
            (num_params + num_motives + num_minors + num_indices) as nat,
        ) {
            Some(Term::Pi(_, dom, _)) => (spine_head(*dom) matches Term::Const(c, _) && c == target)
                && spine_args(*dom).len() >= targs.len() && args_match(
                s,
                m,
                ctx,
                spine_args(*dom),
                targs,
                0,
            ),
            _ => false,
        },
        _ => false,
    }
}

/// The first recursor of a group whose major premise has the given type.
pub open spec fn nested_by_type(
    k: K,
    s: Sem,
    m: Mode,
    ctx: Seq<Term>,
    group: Seq<u32>,
    us: Seq<Univ>,
    params: Seq<Term>,
    target: u32,
    targs: Seq<Term>,
    i: nat,
) -> Option<u32>
    decreases group.len() - i,
{
    if i >= group.len() {
        None
    } else if rec_is_for_type(k, s, m, ctx, group[i as int], us, params, target, targs) {
        Some(group[i as int])
    } else {
        nested_by_type(k, s, m, ctx, group, us, params, target, targs, i + 1)
    }
}

/// The first recursor of a group with a rule for a constructor.
pub open spec fn rec_for_ctor(k: K, group: Seq<u32>, c: u32, i: nat) -> Option<u32>
    decreases group.len() - i,
{
    if i >= group.len() {
        None
    } else {
        match find(k.env, group[i as int]) {
            Some(Info::Recursor { ctors, .. }) => if ctors.contains(c) {
                Some(group[i as int])
            } else {
                rec_for_ctor(k, group, c, i + 1)
            },
            _ => rec_for_ctor(k, group, c, i + 1),
        }
    }
}

/// The first recursor of a group with a rule for one of the constructors from
/// position `i` on.
pub open spec fn rec_for_ctors(k: K, group: Seq<u32>, ctors: Seq<u32>, i: nat) -> Option<u32>
    decreases ctors.len() - i,
{
    if i >= ctors.len() {
        None
    } else {
        match rec_for_ctor(k, group, ctors[i as int], 0) {
            Some(r) => Some(r),
            None => rec_for_ctors(k, group, ctors, i + 1),
        }
    }
}

/// The recursor of a group with a rule for a constructor of a type.
pub open spec fn nested_by_ctor(k: K, target: u32, rname: u32) -> Option<u32> {
    match find(k.env, target) {
        Some(Info::InductiveType { ctors, .. }) => rec_for_ctors(
            k,
            group_of(k.env, rname),
            ctors,
            0,
        ),
        _ => None,
    }
}

/// The number of parameters of a recursor, else the given number.
pub open spec fn rec_params_count(k: K, rec: u32, default: nat) -> nat {
    match find(k.env, rec) {
        Some(Info::Recursor { num_params, .. }) => num_params as nat,
        _ => default,
    }
}

/// The recursor for a field's type, with its parameters and indices; nothing
/// where the field is not recursive.
#[verifier::opaque]
pub open spec fn rec_target(
    k: K,
    s: Sem,
    m: Mode,
    tctx: Seq<Term>,
    rname: u32,
    us: Seq<Univ>,
    all: Seq<u32>,
    params: Seq<Term>,
    ty: Term,
    by: int,
) -> Res<Option<(u32, Seq<Term>, Seq<Term>)>> {
    match spine_head(ty) {
        Term::Const(target, _) => {
            let iargs = spine_args(ty);
            let lifted = lift_all(params, by);
            if all.contains(target) {
                let rec = match rec_of(k.env, target) {
                    Some(r) => r,
                    None => rname,
                };
                let np = rec_params_count(k, rec, params.len());
                if iargs.len() < np || np != params.len() {
                    Ok(None)
                } else {
                    match crate::conv::pairwise(s, m, tctx, iargs.take(np as int), lifted, 0) {
                        Err(f) => Err(f),
                        Ok(false) => Ok(None),
                        Ok(true) => Ok(Some((rec, iargs.take(np as int), iargs.skip(np as int)))),
                    }
                }
            } else {
                match nested_by_type(
                    k,
                    s,
                    m,
                    tctx,
                    group_of(k.env, rname),
                    us,
                    params,
                    target,
                    iargs,
                    0,
                ) {
                    Some(r) => Ok(Some((r, lifted, Seq::empty()))),
                    None => if occurs_any_spec(ty, all) {
                        match nested_by_ctor(k, target, rname) {
                            Some(r) => Ok(Some((r, lifted, Seq::empty()))),
                            None => Ok(None),
                        }
                    } else {
                        Ok(None)
                    },
                }
            }
        },
        _ => Ok(None),
    }
}

/// The call of a recursor on a field, under the binders of the field's type.
pub open spec fn rec_call(
    rec: u32,
    us: Seq<Univ>,
    rec_params: Seq<Term>,
    motives: Seq<Term>,
    minors: Seq<Term>,
    indices: Seq<Term>,
    field: Term,
    binders: Seq<Term>,
) -> Term {
    let by = binders.len() as int;
    let f0 = mk_apps(Term::Const(rec, us), rec_params);
    let f1 = mk_apps(f0, lift_all(motives, by));
    let f2 = mk_apps(f1, lift_all(minors, by));
    let f3 = mk_apps(f2, indices);
    wrap_lams(binders, app1(f3, app_bvars(lift(field, by, 0), binders.len())))
}

/// What stays the same through the reduction of one recursor application.
pub struct RecArgsT {
    pub rname: u32,
    pub us: Seq<Univ>,
    pub all: Seq<u32>,
    pub params: Seq<Term>,
    pub motives: Seq<Term>,
    pub minors: Seq<Term>,
}

/// The recursive call for a field, if the field is recursive.
#[verifier::opaque]
pub open spec fn field_call(
    k: K,
    s: Sem,
    m: Mode,
    ctx: Seq<Term>,
    ra: RecArgsT,
    field: Term,
    field_ty: Term,
) -> Res<Option<Term>> {
    if !rec_recurses(k, ra.rname) {
        Ok(None)
    } else {
        match field_binders(
            s,
            m,
            ctx,
            whnf_or(s, m, ctx, field_ty),
            Seq::empty(),
            STEP_LIMIT as nat,
        ) {
            Err(f) => Err(f),
            Ok((binders, ty)) => match rec_target(
                k,
                s,
                m,
                ctx + binders,
                ra.rname,
                ra.us,
                ra.all,
                ra.params,
                ty,
                binders.len() as int,
            ) {
                Err(f) => Err(f),
                Ok(None) => Ok(None),
                Ok(Some((rec, rps, ixs))) => Ok(
                    Some(
                        rec_call(rec, ra.us, rps, ra.motives, ra.minors, ixs, field, binders),
                    ),
                ),
            },
        }
    }
}

/// A minor premise applied to the fields from position `i` on, with the recursive
/// calls for them collected.
pub open spec fn apply_fields(
    k: K,
    s: Sem,
    m: Mode,
    ctx: Seq<Term>,
    ra: RecArgsT,
    ct: Term,
    fields: Seq<Term>,
    i: nat,
    out: Term,
    calls: Seq<Term>,
) -> Res<Term>
    decreases fields.len() - i,
{
    if i >= fields.len() {
        Ok(mk_apps(out, calls))
    } else {
        match ensure_pi_spec(k, s, m, ctx, ct) {
            Err(_) => Ok(mk_apps(out, calls)),
            Ok((_, dom, body)) => {
                let f = fields[i as int];
                match field_call(k, s, m, ctx, ra, f, dom) {
                    Err(e) => Err(e),
                    Ok(call) => apply_fields(
                        k,
                        s,
                        m,
                        ctx,
                        ra,
                        plug1(body, f),
                        fields,
                        i + 1,
                        app1(out, f),
                        match call {
                            Some(c) => calls.push(c),
                            None => calls,
                        },
                    ),
                }
            },
        }
    }
}

/// The right-hand side of a recursor's rule, computed from the types of the
/// constructor and of the recursor alone.
#[verifier::opaque]
pub open spec fn iota_rhs(
    k: K,
    s: Sem,
    m: Mode,
    ctx: Seq<Term>,
    ra: RecArgsT,
    c: CtorAppT,
    minor: Term,
) -> Res<Term> {
    let levels = match c.levels {
        Some(l) => l,
        None => ra.us,
    };
    match find(k.env, c.ctor) {
        Some(Info::Constructor { level_params, typ, .. }) => match apply_type_spec(
            k,
            s,
            m,
            ctx,
            subst_params(typ, level_params, levels),
            c.args.take(c.num_params as int),
            0,
        ) {
            Err(f) => Err(f),
            Ok(ct) => apply_fields(
                k,
                s,
                m,
                ctx,
                ra,
                ct,
                c.args.skip(c.num_params as int),
                0,
                minor,
                Seq::empty(),
            ),
        },
        _ => Ok(minor),
    }
}

/// The reduction of a recursor applied to arguments, of which the rules' own
/// right-hand sides and the `k` flag are not part.
#[verifier::opaque]
pub open spec fn iota_spec(k: K, s: Sem, m: Mode, ctx: Seq<Term>, head: Term, args: Seq<Term>) -> Res<
    Option<Term>,
> {
    match head {
        Term::Const(rname, us) => match find(k.env, rname) {
            Some(
                Info::Recursor {
                    all,
                    num_params,
                    num_motives,
                    num_minors,
                    num_indices,
                    ctors,
                    ..
                },
            ) => {
                let sh = RecShape { num_params, num_motives, num_minors, num_indices };
                if args.len() <= major_at(sh) {
                    Ok(None)
                } else {
                    iota_on(k, s, m, ctx, rname, us, all, ctors, sh, args)
                }
            },
            _ => Ok(None),
        },
        _ => Ok(None),
    }
}

/// The reduction of a recursor that has its major premise.
#[verifier::opaque]
pub open spec fn iota_on(
    k: K,
    s: Sem,
    m: Mode,
    ctx: Seq<Term>,
    rname: u32,
    us: Seq<Univ>,
    all: Seq<u32>,
    ctors: Seq<u32>,
    sh: RecShape,
    args: Seq<Term>,
) -> Res<Option<Term>> {
    let p1 = sh.num_params as int;
    let p2 = p1 + sh.num_motives;
    let p3 = p2 + sh.num_minors;
    let at = major_at(sh);
    let ra = RecArgsT {
        rname,
        us,
        all,
        params: args.subrange(0, p1),
        motives: args.subrange(p1, p2),
        minors: args.subrange(p2, p3),
    };
    match whnf_major_spec(k, s, m, ctx, args[at], rname) {
        Err(f) => Err(f),
        Ok(w) => match major_ctor(k, s, m, ctx, all, ctors, ra.params, args[at], w) {
            Err(f) => Err(f),
            Ok(None) => Ok(None),
            Ok(Some(c)) => if c.args.len() < c.num_params {
                Ok(None)
            } else {
                let i = minor_index(
                    k,
                    rname,
                    us,
                    ra.params,
                    c.ctor,
                    c.args.take(c.num_params as int),
                    all,
                );
                if i >= ra.minors.len() {
                    Ok(None)
                } else {
                    match iota_rhs(k, s, m, ctx, ra, c, ra.minors[i as int]) {
                        Err(f) => Err(f),
                        Ok(rhs) => Ok(Some(mk_apps(rhs, args.skip(at + 1)))),
                    }
                }
            },
        },
    }
}

/// The reduction of a quotient's lift or induction on a class.
#[verifier::opaque]
pub open spec fn quot_spec(k: K, s: Sem, m: Mode, ctx: Seq<Term>, head: Term, args: Seq<Term>) -> Res<
    Option<Term>,
> {
    match quot_position(k, head) {
        None => Ok(None),
        Some(q_idx) => if args.len() <= q_idx {
            Ok(None)
        } else {
            match (s.whnf)(m, ctx, args[q_idx as int]) {
                Err(f) => Err(f),
                Ok(q) => if is_quot_class(k, q) && spine_args(q).len() >= 3 {
                    Ok(Some(mk_apps(app1(args[3], spine_args(q)[2]), args.skip(q_idx as int + 1))))
                } else {
                    Ok(None)
                },
            }
        },
    }
}

/// The position of the class that a quotient's eliminator looks at.
pub open spec fn quot_position(k: K, head: Term) -> Option<nat> {
    match head {
        Term::Const(n, _) => match find(k.env, n) {
            Some(Info::Quot { kind: QuotKind::Lift, .. }) => Some(5),
            Some(Info::Quot { kind: QuotKind::Ind, .. }) => Some(4),
            _ => None,
        },
        _ => None,
    }
}

/// Whether a term is headed by the constructor of quotient classes.
pub open spec fn is_quot_class(k: K, q: Term) -> bool {
    match spine_head(q) {
        Term::Const(n, _) => match find(k.env, n) {
            Some(Info::Quot { kind: QuotKind::Ctor, .. }) => true,
            _ => false,
        },
        _ => false,
    }
}

/// What stays the same through the reduction of one recursor application.
pub struct RecArgs {
    pub rname: u32,
    pub us: Vec<Level>,
    pub all: Vec<u32>,
    pub params: Vec<Expr>,
    pub motives: Vec<Expr>,
    pub minors: Vec<Expr>,
}

impl View for RecArgs {
    type V = RecArgsT;

    open spec fn view(&self) -> RecArgsT {
        RecArgsT {
            rname: self.rname,
            us: self.us.deep_view(),
            all: self.all@,
            params: self.params.deep_view(),
            motives: self.motives.deep_view(),
            minors: self.minors.deep_view(),
        }
    }
}

fn count_pis(t: &Expr, most: u32) -> (r: bool)
    ensures
        r == (pi_count(t@) == most),
    decreases t,
{
    match t.data() {
        ExprData::Pi(_, _, b) => most > 0 && count_pis(b, most - 1),
        _ => most == 0,
    }
}

fn target_of(t: &Expr) -> (r: &Expr)
    ensures
        r@ == pi_target(t@),
    decreases t,
{
    match t.data() {
        ExprData::Pi(_, _, b) => target_of(b),
        _ => t,
    }
}

fn behind_pis(t: &Expr, n: u64) -> (r: Option<Expr>)
    ensures
        r.deep_view() == skip_pis(t@, n as nat),
{
    let mut cur = t.clone();
    let mut left: u64 = n;
    while left > 0
        invariant
            skip_pis(cur@, left as nat) == skip_pis(t@, n as nat),
        decreases left,
    {
        let next = match cur.data() {
            ExprData::Pi(_, _, b) => b.clone(),
            _ => {
                return None;
            },
        };
        cur = next;
        left = left - 1;
    }
    Some(cur)
}

fn minor_for(dom: &Expr, c: u32, ctor_params: &Vec<Expr>) -> (r: bool)
    ensures
        r == minor_is_for(dom@, c, ctor_params.deep_view()),
{
    let (_, concl) = unfold_apps(target_of(dom));
    assert(concl.len() == concl.deep_view().len());
    assert(ctor_params.len() == ctor_params.deep_view().len());
    if concl.len() == 0 {
        return false;
    }
    let (head, cargs) = unfold_apps(&concl[concl.len() - 1]);
    assert(cargs.len() == cargs.deep_view().len());
    match head.data() {
        ExprData::Const(x, _) => {
            if *x != c || cargs.len() < ctor_params.len() {
                return false;
            }
            let front = exprs_between(&cargs, 0, ctor_params.len());
            assert(front.deep_view() =~= cargs.deep_view().take(ctor_params.len() as int));
            crate::expr::rec_exprs_eq(&front, ctor_params)
        },
        _ => false,
    }
}

fn find_minor(t: &Expr, n: u32, c: u32, ctor_params: &Vec<Expr>) -> (r: Option<u32>)
    ensures
        match minor_from(t@, 0, n as nat, c, ctor_params.deep_view()) {
            Some(p) => r matches Some(q) && q as nat == p,
            None => r is None,
        },
{
    let ghost cp = ctor_params.deep_view();
    let mut cur = t.clone();
    let mut p: u32 = 0;
    while p < n
        invariant
            p <= n,
            cp == ctor_params.deep_view(),
            minor_from(cur@, p as nat, (n - p) as nat, c, cp) == minor_from(
                t@,
                0,
                n as nat,
                c,
                cp,
            ),
        decreases n - p,
    {
        let next = match cur.data() {
            ExprData::Pi(_, dom, body) => {
                if minor_for(dom, c, ctor_params) {
                    return Some(p);
                }
                body.clone()
            },
            _ => {
                return None;
            },
        };
        cur = next;
        p = p + 1;
    }
    None
}

proof fn lemma_first_in(v: Seq<u32>, x: u32, i: nat)
    requires
        i <= v.len(),
    ensures
        match first_at(v, x, i) {
            Some(l) => i <= l < v.len() && v[l as int] == x,
            None => forall|j: int| i <= j < v.len() ==> v[j] != x,
        },
    decreases v.len() - i,
{
    if i < v.len() && v[i as int] != x {
        lemma_first_in(v, x, i + 1);
    }
}

fn first_id(v: &Vec<u32>, x: u32) -> (r: Option<usize>)
    ensures
        match first_at(v@, x, 0) {
            Some(l) => r matches Some(q) && q as nat == l && l < v.len(),
            None => r is None,
        },
{
    let mut i: usize = 0;
    while i < v.len()
        invariant
            i <= v.len(),
            first_at(v@, x, i as nat) == first_at(v@, x, 0),
        decreases v.len() - i,
    {
        if v[i] == x {
            return Some(i);
        }
        i = i + 1;
    }
    None
}

pub(crate) fn first_rule(v: &Vec<RecRule>, x: u32) -> (r: Option<usize>)
    ensures
        match first_at(crate::env::rule_ctors(v@), x, 0) {
            Some(l) => r matches Some(q) && q as nat == l && l < v.len(),
            None => r is None,
        },
        r is Some <==> crate::env::rule_ctors(v@).contains(x),
{
    let ghost cs = crate::env::rule_ctors(v@);
    let mut i: usize = 0;
    proof {
        lemma_first_in(cs, x, 0);
    }
    while i < v.len()
        invariant
            i <= v.len(),
            cs == crate::env::rule_ctors(v@),
            first_at(cs, x, i as nat) == first_at(cs, x, 0),
            first_at(cs, x, 0) is Some <==> cs.contains(x),
        decreases v.len() - i,
    {
        if v[i].ctor == x {
            return Some(i);
        }
        i = i + 1;
    }
    None
}

impl<'e> Checker<'e> {
    fn open_all_at(&self, g: Budget, m: Mode, ctx: &Ctx, t: &Expr) -> (r: R<(Ctx, Expr)>)
        ensures
            res(r) == open_all(sem_at(self@, g), m, ctx@, t@, STEP_LIMIT as nat),
        decreases g.total(), 1int, 0int,
    {
        let ghost s = sem_at(self@, g);
        let mut c = ctx.clone();
        let mut cur = t.clone();
        let mut left: u32 = STEP_LIMIT;
        while left > 0
            invariant
                left <= STEP_LIMIT,
                s == sem_at(self@, g),
                open_all(s, m, c@, cur@, left as nat) == open_all(
                    s,
                    m,
                    ctx@,
                    t@,
                    STEP_LIMIT as nat,
                ),
            decreases left,
        {
            let w = self.whnf_at(g, m, &c, &cur)?;
            let next = match w.data() {
                ExprData::Pi(_, dom, body) => Some((dom.clone(), body.clone())),
                _ => None,
            };
            match next {
                Some((dom, body)) => {
                    c.push(dom);
                    cur = body;
                },
                None => {
                    return Ok((c, w));
                },
            }
            left = left - 1;
        }
        decline("WHNF step limit")
    }

    /// Whether a type in the sort of propositions has at most one proof of each
    /// of its instances. This is computed from the declarations; what an export
    /// says of it is not consulted.
    pub fn is_k_like(&self, g: Budget, m: Mode, all: &Vec<u32>) -> (r: bool)
        ensures
            r == k_like(self@, sem_at(self@, g), m, all@),
        decreases g.total(), 4int, 0int,
    {
        proof {
            reveal(k_like);
        }
        if all.len() != 1 {
            return false;
        }
        let (ctors, np, typ) = match self.env.get(all[0]) {
            Some(ConstantInfo::InductiveType { ctors, num_params, typ, .. }) => (
                ctors,
                *num_params,
                typ,
            ),
            _ => {
                return false;
            },
        };
        if ctors.len() != 1 {
            return false;
        }
        let empty = Ctx::new();
        assert(empty@ =~= Seq::<Term>::empty());
        let (c1, t1) = match self.open_binders(g, m, &empty, typ, np) {
            Ok(x) => x,
            Err(_) => {
                return false;
            },
        };
        let (c2, t2) = match self.open_all_at(g, m, &c1, &t1) {
            Ok(x) => x,
            Err(_) => {
                return false;
            },
        };
        let l = match self.ensure_sort_at(g, m, &c2, &t2) {
            Ok(x) => x,
            Err(_) => {
                return false;
            },
        };
        if !is_def_eq(&l, &zero()) {
            return false;
        }
        match self.env.get(ctors[0]) {
            Some(ConstantInfo::Constructor { typ, .. }) => count_pis(typ, np),
            _ => false,
        }
    }

    /// The constructor that a K-like major premise must be.
    pub fn k_like_ctor(
        &self,
        g: Budget,
        m: Mode,
        ctx: &Ctx,
        all: &Vec<u32>,
        params: &Vec<Expr>,
        major: &Expr,
    ) -> (r: R<Option<CtorApp>>)
        requires
            all.len() >= 1,
        ensures
            res(r) == k_ctor(
                self@,
                sem_at(self@, g),
                m,
                ctx@,
                all@,
                params.deep_view(),
                major@,
            ),
        decreases g.total(), 4int, 0int,
    {
        proof {
            reveal(k_ctor);
        }
        let cname = match self.env.get(all[0]) {
            Some(ConstantInfo::InductiveType { ctors, .. }) => {
                if ctors.len() != 1 {
                    return Ok(None);
                }
                ctors[0]
            },
            _ => {
                return Ok(None);
            },
        };
        let (lps, typ, cnp) = match self.env.get(cname) {
            Some(ConstantInfo::Constructor { level_params, typ, num_params, .. }) => (
                level_params,
                typ,
                *num_params,
            ),
            _ => {
                return Ok(None);
            },
        };
        let mt = self.infer_at(g, m, ctx, major)?;
        let mtw = self.whnf_at(g, m, ctx, &mt)?;
        let (head, targs) = unfold_apps(&mtw);
        match head.data() {
            ExprData::Const(n, us) => {
                if *n != all[0] {
                    return Ok(None);
                }
                let ct0 = instantiate_level_params(typ, lps, us);
                let ct = match self.apply_type(g, m, ctx, &ct0, params) {
                    Ok(t) => t,
                    Err(_) => {
                        return Ok(None);
                    },
                };
                let (_, cargs) = unfold_apps(&ct);
                if !self.pairwise_args(g, m, ctx, &targs, &cargs)? {
                    return Ok(None);
                }
                Ok(
                    Some(
                        CtorApp {
                            ctor: cname,
                            num_params: cnp,
                            args: clone_exprs(params),
                            levels: None,
                        },
                    ),
                )
            },
            _ => Ok(None),
        }
    }

    fn eta_structure_at(
        &self,
        n: u32,
        us: &Vec<Level>,
        targs: &Vec<Expr>,
        major: &Expr,
    ) -> (r: Option<CtorApp>)
        requires
            is_structure(self@.env, n),
        ensures
            r.deep_view() == eta_structure(
                self@,
                n,
                us.deep_view(),
                targs.deep_view(),
                major@,
            ),
    {
        assert(targs.len() == targs.deep_view().len());
        let (cname, np) = match self.env.get(n) {
            Some(ConstantInfo::InductiveType { ctors, num_params, .. }) => (ctors[0], *num_params),
            _ => {
                return None;
            },
        };
        let nf: u32 = match self.env.get(cname) {
            Some(ConstantInfo::Constructor { num_fields, .. }) => *num_fields,
            _ => {
                return None;
            },
        };
        if (targs.len() as u64) < (np as u64) {
            return None;
        }
        let mut args = exprs_between(targs, 0, np as usize);
        let ghost start = args.deep_view();
        assert(start =~= targs.deep_view().take(np as int));
        let mut i: u32 = 0;
        while i < nf
            invariant
                i <= nf,
                push_projs(n, major@, args.deep_view(), i, nf) == push_projs(
                    n,
                    major@,
                    start,
                    0,
                    nf,
                ),
            decreases nf - i,
        {
            let ghost before = args.deep_view();
            let p = proj(n, i, major.clone());
            args.push(p);
            assert(args.deep_view() =~= before.push(p@));
            i = i + 1;
        }
        let levels = crate::expr::clone_levels(us);
        Some(CtorApp { ctor: cname, num_params: np, args, levels: Some(levels) })
    }

    /// A value of a structure that holds data, as its constructor applied to its
    /// projections.
    pub fn to_ctor_when_structure(&self, g: Budget, m: Mode, ctx: &Ctx, major: &Expr) -> (r: R<
        Option<CtorApp>,
    >)
        ensures
            res(r) == structure_ctor(self@, sem_at(self@, g), m, ctx@, major@),
        decreases g.total(), 1int, 0int,
    {
        proof {
            reveal(structure_ctor);
        }
        let mt = self.infer_at(g, m, ctx, major)?;
        let mtw = self.whnf_at(g, m, ctx, &mt)?;
        if self.is_prop_at(g, m, ctx, &mtw)? {
            return Ok(None);
        }
        let (head, targs) = unfold_apps(&mtw);
        match head.data() {
            ExprData::Const(n, us) => {
                if !self.is_non_rec_structure(*n) {
                    return Ok(None);
                }
                Ok(self.eta_structure_at(*n, us, &targs, major))
            },
            _ => Ok(None),
        }
    }

    pub(crate) fn ctor_owner(&self, c: u32) -> (r: Option<u32>)
        ensures
            r == ctor_type(self@, c),
    {
        match self.env.get(c) {
            Some(ConstantInfo::Constructor { induct, .. }) => Some(*induct),
            _ => None,
        }
    }

    fn show_ctor(&self, all: &Vec<u32>, rules: &Vec<RecRule>, major: &Expr) -> (r: R<
        Option<CtorApp>,
    >)
        ensures
            res(r) == shown_ctor(self@, all@, crate::env::rule_ctors(rules@), major@),
    {
        let (head, args) = unfold_apps(major);
        match head.data() {
            ExprData::Const(c, us) => match self.env.get(*c) {
                Some(ConstantInfo::Constructor { induct, num_params, .. }) => {
                    if !has_id(all, *induct) && first_rule(rules, *c).is_none() {
                        return Ok(None);
                    }
                    let levels = crate::expr::clone_levels(us);
                    Ok(
                        Some(
                            CtorApp { ctor: *c, num_params: *num_params, args, levels: Some(levels) },
                        ),
                    )
                },
                _ => Ok(None),
            },
            ExprData::Lit(Lit::Nat(n)) => {
                let (z, sc) = match self.nat_ctors() {
                    Some(p) => p,
                    None => {
                        return Ok(None);
                    },
                };
                let owned = match self.ctor_owner(z) {
                    Some(i) => has_id(all, i),
                    None => false,
                };
                if !owned && first_rule(rules, z).is_none() {
                    return Ok(None);
                }
                if n.is_zero() {
                    let none: Vec<Expr> = Vec::new();
                    assert(none.deep_view() =~= Seq::<Term>::empty());
                    return Ok(Some(CtorApp { ctor: z, num_params: 0, args: none, levels: None }));
                }
                let bits: u64 = n.bits();
                proof {
                    lemma_bit_cap(n@, bits);
                }
                if bits > LITERAL_BITS {
                    return decline("Nat literal exceeds byte cap");
                }
                let pred = lit_nat(n.minus(&Natural::from_u64(1)));
                let ghost pv = pred@;
                let one = vec![pred];
                assert(one.deep_view() =~= seq![pv]);
                Ok(Some(CtorApp { ctor: sc, num_params: 0, args: one, levels: None }))
            },
            _ => Ok(None),
        }
    }

    fn major_ctor_at(
        &self,
        g: Budget,
        m: Mode,
        ctx: &Ctx,
        all: &Vec<u32>,
        rules: &Vec<RecRule>,
        params: &Vec<Expr>,
        major: &Expr,
        major_w: &Expr,
    ) -> (r: R<Option<CtorApp>>)
        ensures
            res(r) == major_ctor(
                self@,
                sem_at(self@, g),
                m,
                ctx@,
                all@,
                crate::env::rule_ctors(rules@),
                params.deep_view(),
                major@,
                major_w@,
            ),
        decreases g.total(), 5int, 0int,
    {
        proof {
            reveal(major_ctor);
        }
        match self.show_ctor(all, rules, major_w)? {
            Some(c) => {
                return Ok(Some(c));
            },
            None => {},
        }
        match self.to_ctor_when_structure(g, m, ctx, major_w)? {
            Some(c) => {
                return Ok(Some(c));
            },
            None => {},
        }
        if self.is_k_like(g, m, all) {
            assert(all.len() == 1) by {
                reveal(k_like);
            }
            self.k_like_ctor(g, m, ctx, all, params, major)
        } else {
            Ok(None)
        }
    }

    /// The position of the minor premise for a constructor, as the recursor's
    /// type shows it.
    pub fn minor_index_from_type(
        &self,
        rname: u32,
        us: &Vec<Level>,
        params: &Vec<Expr>,
        c: u32,
        ctor_params: &Vec<Expr>,
    ) -> (r: Option<u32>)
        ensures
            match minor_by_type(
                self@,
                rname,
                us.deep_view(),
                params.deep_view(),
                c,
                ctor_params.deep_view(),
            ) {
                Some(p) => r matches Some(q) && q as nat == p,
                None => r is None,
            },
    {
        proof {
            reveal(minor_by_type);
        }
        assert(us.len() == us.deep_view().len() && params.len() == params.deep_view().len());
        match self.env.get(rname) {
            Some(
                ConstantInfo::Recursor {
                    level_params,
                    typ,
                    num_params,
                    num_motives,
                    num_minors,
                    ..
                },
            ) => {
                if level_params.len() != us.len() || *num_params as u64 != params.len() as u64 {
                    return None;
                }
                let t0 = instantiate(
                    &instantiate_level_params(typ, level_params, us),
                    &reversed_exprs(params),
                );
                match behind_pis(&t0, *num_params as u64 + *num_motives as u64) {
                    None => None,
                    Some(t) => find_minor(&t, *num_minors, c, ctor_params),
                }
            },
            _ => None,
        }
    }

    fn find_group_minor(&self, group: &Vec<u32>, only: Option<u32>, c: u32) -> (r: Option<u128>)
        ensures
            match group_minor(self@, group@, only, c, 0, 0) {
                Some(p) => r matches Some(q) && q as nat == p,
                None => r is None,
            },
    {
        let mut i: usize = 0;
        let mut idx: u128 = 0;
        while i < group.len()
            invariant
                i <= group.len(),
                idx <= i * 0x1_0000_0000_0000_0000,
                group_minor(self@, group@, only, c, i as nat, idx as nat) == group_minor(
                    self@,
                    group@,
                    only,
                    c,
                    0,
                    0,
                ),
            decreases group.len() - i,
        {
            match self.env.get(group[i]) {
                Some(ConstantInfo::Recursor { rules, .. }) => {
                    let here = match only {
                        Some(r) => r == group[i],
                        None => true,
                    };
                    match first_rule(rules, c) {
                        Some(l) => {
                            if here {
                                return Some(idx + l as u128);
                            }
                        },
                        None => {},
                    }
                    idx = idx + rules.len() as u128;
                },
                _ => {},
            }
            i = i + 1;
        }
        None
    }

    fn find_types_minor(&self, all: &Vec<u32>, c: u32) -> (r: u128)
        ensures
            r as nat == types_minor(self@, all@, c, 0, 0),
    {
        let mut i: usize = 0;
        let mut idx: u128 = 0;
        while i < all.len()
            invariant
                i <= all.len(),
                idx <= i * 0x1_0000_0000_0000_0000,
                types_minor(self@, all@, c, i as nat, idx as nat) == types_minor(
                    self@,
                    all@,
                    c,
                    0,
                    0,
                ),
            decreases all.len() - i,
        {
            match self.env.get(all[i]) {
                Some(ConstantInfo::InductiveType { ctors, .. }) => {
                    match first_id(ctors, c) {
                        Some(l) => {
                            return idx + l as u128;
                        },
                        None => {},
                    }
                    idx = idx + ctors.len() as u128;
                },
                _ => {},
            }
            i = i + 1;
        }
        idx
    }

    /// The position of the minor premise for a constructor, by the rules of the
    /// group: those of the recursor itself first, then those of the group, then
    /// the constructors of the types.
    pub fn ctor_minor_index(&self, c: u32, rname: u32, all: &Vec<u32>) -> (r: u128)
        ensures
            r as nat == minor_by_group(self@, c, rname, all@),
    {
        let group = self.env.recursor_group(rname);
        match self.find_group_minor(&group, Some(rname), c) {
            Some(i) => i,
            None => match self.find_group_minor(&group, None, c) {
                Some(i) => i,
                None => self.find_types_minor(all, c),
            },
        }
    }

    pub(crate) fn minor_position(
        &self,
        rname: u32,
        us: &Vec<Level>,
        params: &Vec<Expr>,
        c: u32,
        ctor_params: &Vec<Expr>,
        all: &Vec<u32>,
    ) -> (r: u128)
        ensures
            r as nat == minor_index(
                self@,
                rname,
                us.deep_view(),
                params.deep_view(),
                c,
                ctor_params.deep_view(),
                all@,
            ),
    {
        match self.minor_index_from_type(rname, us, params, c, ctor_params) {
            Some(i) => i as u128,
            None => self.ctor_minor_index(c, rname, all),
        }
    }

    fn recursor_recurses(&self, rname: u32) -> (r: bool)
        ensures
            r == rec_recurses(self@, rname),
    {
        match self.env.get(rname) {
            Some(ConstantInfo::Recursor { all, .. }) => {
                let mut i: usize = 0;
                while i < all.len()
                    invariant
                        i <= all.len(),
                        find(self@.env, rname) matches Some(Info::Recursor { all: a, .. }) && a
                            == all@,
                        forall|j: int| 0 <= j < i ==> !#[trigger] type_recurses(self@, all@[j]),
                    decreases all.len() - i,
                {
                    match self.env.get(all[i]) {
                        Some(ConstantInfo::InductiveType { is_rec, .. }) => {
                            if *is_rec {
                                assert(type_recurses(self@, all@[i as int]));
                                return true;
                            }
                        },
                        _ => {},
                    }
                    i = i + 1;
                }
                false
            },
            _ => true,
        }
    }

    fn whnf_or_self(&self, g: Budget, m: Mode, ctx: &Ctx, e: &Expr) -> (r: Expr)
        ensures
            r@ == whnf_or(sem_at(self@, g), m, ctx@, e@),
        decreases g.total(), 1int, 0int,
    {
        match self.whnf_at(g, m, ctx, e) {
            Ok(w) => w,
            Err(_) => e.clone(),
        }
    }

    fn open_field(&self, g: Budget, m: Mode, ctx: &Ctx, ty: &Expr) -> (r: R<(Vec<Expr>, Ctx, Expr)>)
        ensures
            match r {
                Ok((bs, c, t)) => field_binders(
                    sem_at(self@, g),
                    m,
                    ctx@,
                    ty@,
                    Seq::empty(),
                    STEP_LIMIT as nat,
                ) == Ok::<(Seq<Term>, Term), Fault>((bs.deep_view(), t@)) && c@ == ctx@
                    + bs.deep_view() && bs.len() <= STEP_LIMIT,
                Err(e) => field_binders(
                    sem_at(self@, g),
                    m,
                    ctx@,
                    ty@,
                    Seq::empty(),
                    STEP_LIMIT as nat,
                ) == Err::<(Seq<Term>, Term), Fault>(e@),
            },
        decreases g.total(), 2int, 0int,
    {
        let ghost s = sem_at(self@, g);
        let mut c = ctx.clone();
        let mut binders: Vec<Expr> = Vec::new();
        let mut cur = ty.clone();
        let mut left: u32 = STEP_LIMIT;
        assert(binders.deep_view() =~= Seq::<Term>::empty());
        assert(c@ =~= ctx@ + binders.deep_view());
        loop
            invariant
                left <= STEP_LIMIT,
                binders.len() == STEP_LIMIT - left,
                c@ == ctx@ + binders.deep_view(),
                s == sem_at(self@, g),
                field_binders(s, m, ctx@, cur@, binders.deep_view(), left as nat) == field_binders(
                    s,
                    m,
                    ctx@,
                    ty@,
                    Seq::empty(),
                    STEP_LIMIT as nat,
                ),
            decreases left,
        {
            let next = match cur.data() {
                ExprData::Pi(_, dom, body) => Some((dom.clone(), body.clone())),
                _ => None,
            };
            match next {
                Some((dom, body)) => {
                    if left == 0 {
                        return decline("WHNF step limit");
                    }
                    let ghost before = binders.deep_view();
                    binders.push(dom.clone());
                    assert(binders.deep_view() =~= before.push(dom@));
                    c.push(dom);
                    assert(c@ =~= ctx@ + binders.deep_view());
                    cur = self.whnf_or_self(g, m, &c, &body);
                    left = left - 1;
                },
                None => {
                    return Ok((binders, c, cur));
                },
            }
        }
    }

    fn matching_args(&self, g: Budget, m: Mode, ctx: &Ctx, have: &Vec<Expr>, want: &Vec<Expr>) -> (r:
        bool)
        requires
            have.len() >= want.len(),
        ensures
            r == args_match(
                sem_at(self@, g),
                m,
                ctx@,
                have.deep_view(),
                want.deep_view(),
                0,
            ),
        decreases g.total(), 1int, 0int,
    {
        let ghost s = sem_at(self@, g);
        let ghost hv = have.deep_view();
        let ghost wv = want.deep_view();
        let mut i: usize = 0;
        while i < want.len()
            invariant
                i <= want.len() <= have.len(),
                hv == have.deep_view(),
                wv == want.deep_view(),
                s == sem_at(self@, g),
                args_match(s, m, ctx@, hv, wv, i as nat) == args_match(s, m, ctx@, hv, wv, 0),
            decreases want.len() - i,
        {
            if !rec_expr_eq(&have[i], &want[i]) {
                let same = match self.defeq_at(g, m, ctx, &have[i], &want[i]) {
                    Ok(b) => b,
                    Err(_) => false,
                };
                if !same {
                    return false;
                }
            }
            i = i + 1;
        }
        true
    }

    fn recursor_is_for(
        &self,
        g: Budget,
        m: Mode,
        ctx: &Ctx,
        rec: u32,
        us: &Vec<Level>,
        params: &Vec<Expr>,
        target: u32,
        targs: &Vec<Expr>,
    ) -> (r: bool)
        ensures
            r == rec_is_for_type(
                self@,
                sem_at(self@, g),
                m,
                ctx@,
                rec,
                us.deep_view(),
                params.deep_view(),
                target,
                targs.deep_view(),
            ),
        decreases g.total(), 2int, 0int,
    {
        assert(us.len() == us.deep_view().len() && params.len() == params.deep_view().len()
            && targs.len() == targs.deep_view().len());
        match self.env.get(rec) {
            Some(
                ConstantInfo::Recursor {
                    level_params,
                    typ,
                    num_params,
                    num_motives,
                    num_minors,
                    num_indices,
                    ..
                },
            ) => {
                if level_params.len() != us.len() || *num_params as u64 != params.len() as u64 {
                    return false;
                }
                let t0 = instantiate(
                    &instantiate_level_params(typ, level_params, us),
                    &reversed_exprs(params),
                );
                let n: u64 = *num_params as u64 + *num_motives as u64 + *num_minors as u64
                    + *num_indices as u64;
                match behind_pis(&t0, n) {
                    None => false,
                    Some(t) => match t.data() {
                        ExprData::Pi(_, dom, _) => {
                            let (head, have) = unfold_apps(dom);
                            assert(have.len() == have.deep_view().len());
                            match head.data() {
                                ExprData::Const(c, _) => *c == target && have.len() >= targs.len()
                                    && self.matching_args(g, m, ctx, &have, targs),
                                _ => false,
                            }
                        },
                        _ => false,
                    },
                }
            },
            _ => false,
        }
    }

    /// The first recursor of a group whose major premise has the given type.
    pub fn nested_rec_for_type(
        &self,
        g: Budget,
        m: Mode,
        ctx: &Ctx,
        rname: u32,
        us: &Vec<Level>,
        params: &Vec<Expr>,
        target: u32,
        targs: &Vec<Expr>,
    ) -> (r: Option<u32>)
        ensures
            r == nested_by_type(
                self@,
                sem_at(self@, g),
                m,
                ctx@,
                group_of(self@.env, rname),
                us.deep_view(),
                params.deep_view(),
                target,
                targs.deep_view(),
                0,
            ),
        decreases g.total(), 3int, 0int,
    {
        let ghost s = sem_at(self@, g);
        let ghost uv = us.deep_view();
        let ghost pv = params.deep_view();
        let ghost tv = targs.deep_view();
        let group = self.env.recursor_group(rname);
        let mut i: usize = 0;
        while i < group.len()
            invariant
                i <= group.len(),
                group@ == group_of(self@.env, rname),
                uv == us.deep_view(),
                pv == params.deep_view(),
                tv == targs.deep_view(),
                s == sem_at(self@, g),
                nested_by_type(self@, s, m, ctx@, group@, uv, pv, target, tv, i as nat)
                    == nested_by_type(self@, s, m, ctx@, group@, uv, pv, target, tv, 0),
            decreases group.len() - i,
        {
            if self.recursor_is_for(g, m, ctx, group[i], us, params, target, targs) {
                return Some(group[i]);
            }
            i = i + 1;
        }
        None
    }

    /// The first recursor of a group with a rule for a constructor.
    pub fn rec_for_ctor_in_group(&self, c: u32, rname: u32) -> (r: Option<u32>)
        ensures
            r == rec_for_ctor(self@, group_of(self@.env, rname), c, 0),
    {
        let group = self.env.recursor_group(rname);
        let mut i: usize = 0;
        while i < group.len()
            invariant
                i <= group.len(),
                group@ == group_of(self@.env, rname),
                rec_for_ctor(self@, group@, c, i as nat) == rec_for_ctor(self@, group@, c, 0),
            decreases group.len() - i,
        {
            match self.env.get(group[i]) {
                Some(ConstantInfo::Recursor { rules, .. }) => {
                    if first_rule(rules, c).is_some() {
                        return Some(group[i]);
                    }
                },
                _ => {},
            }
            i = i + 1;
        }
        None
    }

    /// The recursor of a group with a rule for a constructor of a type.
    pub fn nested_rec_for(&self, target: u32, rname: u32) -> (r: Option<u32>)
        ensures
            r == nested_by_ctor(self@, target, rname),
    {
        let ctors = match self.env.get(target) {
            Some(ConstantInfo::InductiveType { ctors, .. }) => ctors,
            _ => {
                return None;
            },
        };
        let ghost group = group_of(self@.env, rname);
        let mut i: usize = 0;
        while i < ctors.len()
            invariant
                i <= ctors.len(),
                group == group_of(self@.env, rname),
                rec_for_ctors(self@, group, ctors@, i as nat) == nested_by_ctor(
                    self@,
                    target,
                    rname,
                ),
            decreases ctors.len() - i,
        {
            match self.rec_for_ctor_in_group(ctors[i], rname) {
                Some(r) => {
                    return Some(r);
                },
                None => {},
            }
            i = i + 1;
        }
        None
    }

    fn field_target(
        &self,
        g: Budget,
        m: Mode,
        tctx: &Ctx,
        ra: &RecArgs,
        ty: &Expr,
        by: i64,
    ) -> (r: R<Option<(u32, Vec<Expr>, Vec<Expr>)>>)
        ensures
            res(r) == rec_target(
                self@,
                sem_at(self@, g),
                m,
                tctx@,
                ra.rname,
                ra@.us,
                ra@.all,
                ra@.params,
                ty@,
                by as int,
            ),
        decreases g.total(), 4int, 0int,
    {
        proof {
            reveal(rec_target);
        }
        let (head, iargs) = unfold_apps(ty);
        assert(iargs.len() == iargs.deep_view().len());
        assert(ra.params.len() == ra@.params.len());
        let target = match head.data() {
            ExprData::Const(n, _) => *n,
            _ => {
                return Ok(None);
            },
        };
        let lifted = shift_exprs(&ra.params, by);
        if has_id(&ra.all, target) {
            let rec = match self.env.recursor_of(target) {
                Some(r) => r,
                None => ra.rname,
            };
            let np: u64 = match self.env.get(rec) {
                Some(ConstantInfo::Recursor { num_params, .. }) => *num_params as u64,
                _ => ra.params.len() as u64,
            };
            if (iargs.len() as u64) < np || np != ra.params.len() as u64 {
                return Ok(None);
            }
            let front = exprs_between(&iargs, 0, np as usize);
            assert(front.deep_view() =~= iargs.deep_view().take(np as int));
            if !self.pairwise_args(g, m, tctx, &front, &lifted)? {
                return Ok(None);
            }
            let ixs = exprs_from(&iargs, np as usize);
            return Ok(Some((rec, front, ixs)));
        }
        let nested = self.nested_rec_for_type(
            g,
            m,
            tctx,
            ra.rname,
            &ra.us,
            &ra.params,
            target,
            &iargs,
        );
        let found = match nested {
            Some(r) => Some(r),
            None => {
                if occurs_any(ty, &ra.all) {
                    self.nested_rec_for(target, ra.rname)
                } else {
                    None
                }
            },
        };
        match found {
            Some(r) => {
                let none: Vec<Expr> = Vec::new();
                assert(none.deep_view() =~= Seq::<Term>::empty());
                Ok(Some((r, lifted, none)))
            },
            None => Ok(None),
        }
    }

    /// The recursive call for a field, if the field is recursive.
    pub fn mk_rec_call(
        &self,
        g: Budget,
        m: Mode,
        ctx: &Ctx,
        ra: &RecArgs,
        field: &Expr,
        field_ty: &Expr,
    ) -> (r: R<Option<Expr>>)
        ensures
            res(r) == field_call(
                self@,
                sem_at(self@, g),
                m,
                ctx@,
                ra@,
                field@,
                field_ty@,
            ),
        decreases g.total(), 5int, 0int,
    {
        proof {
            reveal(field_call);
        }
        if !self.recursor_recurses(ra.rname) {
            return Ok(None);
        }
        let start = self.whnf_or_self(g, m, ctx, field_ty);
        let (binders, tctx, ty) = self.open_field(g, m, ctx, &start)?;
        assert(binders.len() == binders.deep_view().len());
        let by: i64 = binders.len() as i64;
        match self.field_target(g, m, &tctx, ra, &ty, by)? {
            None => Ok(None),
            Some((rec, rps, ixs)) => {
                let us = crate::expr::clone_levels(&ra.us);
                let f0 = apps(const_(rec, us), &rps);
                let f1 = apps(f0, &shift_exprs(&ra.motives, by));
                let f2 = apps(f1, &shift_exprs(&ra.minors, by));
                let f3 = apps(f2, &ixs);
                let arg = apply_bvars(shift(field, by, 0), binders.len() as u32);
                Ok(Some(mk_lams(&binders, app(f3, arg))))
            },
        }
    }

    fn apply_fields_at(
        &self,
        g: Budget,
        m: Mode,
        ctx: &Ctx,
        ra: &RecArgs,
        ct: &Expr,
        fields: &Vec<Expr>,
        minor: Expr,
    ) -> (r: R<Expr>)
        ensures
            res(r) == apply_fields(
                self@,
                sem_at(self@, g),
                m,
                ctx@,
                ra@,
                ct@,
                fields.deep_view(),
                0,
                minor@,
                Seq::empty(),
            ),
        decreases g.total(), 6int, 0int,
    {
        let ghost s = sem_at(self@, g);
        let ghost fv = fields.deep_view();
        let mut cur = ct.clone();
        let mut out = minor;
        let mut calls: Vec<Expr> = Vec::new();
        let mut i: usize = 0;
        assert(calls.deep_view() =~= Seq::<Term>::empty());
        while i < fields.len()
            invariant
                i <= fields.len(),
                fv == fields.deep_view(),
                s == sem_at(self@, g),
                apply_fields(
                    self@,
                    s,
                    m,
                    ctx@,
                    ra@,
                    cur@,
                    fv,
                    i as nat,
                    out@,
                    calls.deep_view(),
                ) == apply_fields(self@, s, m, ctx@, ra@, ct@, fv, 0, minor@, Seq::empty()),
            decreases fields.len() - i,
        {
            let (_, dom, body) = match self.ensure_pi_at(g, m, ctx, &cur) {
                Ok(x) => x,
                Err(_) => {
                    return Ok(apps(out, &calls));
                },
            };
            match self.mk_rec_call(g, m, ctx, ra, &fields[i], &dom)? {
                Some(call) => {
                    let ghost before = calls.deep_view();
                    let ghost cv = call@;
                    calls.push(call);
                    assert(calls.deep_view() =~= before.push(cv));
                },
                None => {},
            }
            out = app(out, fields[i].clone());
            cur = instantiate1(&body, &fields[i]);
            i = i + 1;
        }
        Ok(apps(out, &calls))
    }

    /// The right-hand side of a recursor's rule, computed from the types of the
    /// constructor and of the recursor alone.
    pub fn iota_from_first_principles(
        &self,
        g: Budget,
        m: Mode,
        ctx: &Ctx,
        ra: &RecArgs,
        c: &CtorApp,
        minor: Expr,
    ) -> (r: R<Expr>)
        requires
            c.num_params <= c.args.len(),
        ensures
            res(r) == iota_rhs(
                self@,
                sem_at(self@, g),
                m,
                ctx@,
                ra@,
                c.deep_view(),
                minor@,
            ),
        decreases g.total(), 7int, 0int,
    {
        proof {
            reveal(iota_rhs);
        }
        let (lps, typ) = match self.env.get(c.ctor) {
            Some(ConstantInfo::Constructor { level_params, typ, .. }) => (level_params, typ),
            _ => {
                return Ok(minor);
            },
        };
        let ct0 = match &c.levels {
            Some(l) => instantiate_level_params(typ, lps, l),
            None => instantiate_level_params(typ, lps, &ra.us),
        };
        let np: usize = c.num_params as usize;
        let front = exprs_between(&c.args, 0, np);
        assert(front.deep_view() =~= c.args.deep_view().take(np as int));
        let ct = self.apply_type(g, m, ctx, &ct0, &front)?;
        let fields = exprs_from(&c.args, np);
        self.apply_fields_at(g, m, ctx, ra, &ct, &fields, minor)
    }

    fn iota_on_at(
        &self,
        g: Budget,
        m: Mode,
        ctx: &Ctx,
        rname: u32,
        us: &Vec<Level>,
        all: &Vec<u32>,
        rules: &Vec<RecRule>,
        sh: RecShape,
        args: &Vec<Expr>,
    ) -> (r: R<Option<Expr>>)
        requires
            args.len() > major_at(sh),
        ensures
            res(r) == iota_on(
                self@,
                sem_at(self@, g),
                m,
                ctx@,
                rname,
                us.deep_view(),
                all@,
                crate::env::rule_ctors(rules@),
                sh,
                args.deep_view(),
            ),
        decreases g.total(), 8int, 0int,
    {
        proof {
            reveal(iota_on);
        }
        let p1: usize = sh.num_params as usize;
        let p2: usize = p1 + sh.num_motives as usize;
        let p3: usize = p2 + sh.num_minors as usize;
        let at: usize = p3 + sh.num_indices as usize;
        let params = exprs_between(args, 0, p1);
        let motives = exprs_between(args, p1, p2);
        let minors = exprs_between(args, p2, p3);
        let all2 = copy_ids(all);
        let ra = RecArgs {
            rname,
            us: crate::expr::clone_levels(us),
            all: all2,
            params,
            motives,
            minors,
        };
        let w = self.whnf_major(g, m, ctx, &args[at], rname)?;
        let c = match self.major_ctor_at(g, m, ctx, all, rules, &ra.params, &args[at], &w)? {
            Some(c) => c,
            None => {
                return Ok(None);
            },
        };
        assert(c.args.len() == c.args.deep_view().len());
        if (c.args.len() as u64) < (c.num_params as u64) {
            return Ok(None);
        }
        let np: usize = c.num_params as usize;
        let cps = exprs_between(&c.args, 0, np);
        assert(cps.deep_view() =~= c.args.deep_view().take(np as int));
        let i: u128 = self.minor_position(rname, us, &ra.params, c.ctor, &cps, all);
        assert(ra.minors.len() == ra@.minors.len());
        if i >= ra.minors.len() as u128 {
            return Ok(None);
        }
        let minor = ra.minors[i as usize].clone();
        let rhs = self.iota_from_first_principles(g, m, ctx, &ra, &c, minor)?;
        Ok(Some(apps_from(rhs, args, at + 1)))
    }

    /// The reduction of a recursor applied to arguments.
    pub fn try_iota(&self, g: Budget, m: Mode, ctx: &Ctx, head: &Expr, args: &Vec<Expr>) -> (r: R<
        Option<Expr>,
    >)
        ensures
            res(r) == iota_spec(
                self@,
                sem_at(self@, g),
                m,
                ctx@,
                head@,
                args.deep_view(),
            ),
        decreases g.total(), 9int, 0int,
    {
        proof {
            reveal(iota_spec);
        }
        assert(args.len() == args.deep_view().len());
        match head.data() {
            ExprData::Const(rname, us) => match self.env.get(*rname) {
                Some(
                    ConstantInfo::Recursor {
                        all,
                        num_params,
                        num_motives,
                        num_minors,
                        num_indices,
                        rules,
                        ..
                    },
                ) => {
                    let sh = RecShape {
                        num_params: *num_params,
                        num_motives: *num_motives,
                        num_minors: *num_minors,
                        num_indices: *num_indices,
                    };
                    let at: u64 = *num_params as u64 + *num_motives as u64 + *num_minors as u64
                        + *num_indices as u64;
                    if args.len() as u64 <= at {
                        return Ok(None);
                    }
                    self.iota_on_at(g, m, ctx, *rname, us, all, rules, sh, args)
                },
                _ => Ok(None),
            },
            _ => Ok(None),
        }
    }

    fn quot_class_at(&self, head: &Expr) -> (r: Option<usize>)
        ensures
            match quot_position(self@, head@) {
                Some(p) => r matches Some(q) && q as nat == p,
                None => r is None,
            },
    {
        match head.data() {
            ExprData::Const(n, _) => match self.env.get(*n) {
                Some(ConstantInfo::Quot { kind, .. }) => match kind {
                    QuotKind::Lift => Some(5),
                    QuotKind::Ind => Some(4),
                    _ => None,
                },
                _ => None,
            },
            _ => None,
        }
    }

    /// The reduction of a quotient's lift or induction on a class.
    pub fn try_quot(&self, g: Budget, m: Mode, ctx: &Ctx, head: &Expr, args: &Vec<Expr>) -> (r: R<
        Option<Expr>,
    >)
        ensures
            res(r) == quot_spec(
                self@,
                sem_at(self@, g),
                m,
                ctx@,
                head@,
                args.deep_view(),
            ),
        decreases g.total(), 1int, 0int,
    {
        proof {
            reveal(quot_spec);
        }
        assert(args.len() == args.deep_view().len());
        let at: usize = match self.quot_class_at(head) {
            Some(p) => p,
            None => {
                return Ok(None);
            },
        };
        if args.len() <= at {
            return Ok(None);
        }
        let q = self.whnf_at(g, m, ctx, &args[at])?;
        let (qhead, qargs) = unfold_apps(&q);
        assert(qargs.len() == qargs.deep_view().len());
        let is_class = match qhead.data() {
            ExprData::Const(n, _) => match self.env.get(*n) {
                Some(ConstantInfo::Quot { kind, .. }) => match kind {
                    QuotKind::Ctor => true,
                    _ => false,
                },
                _ => false,
            },
            _ => false,
        };
        if !is_class || qargs.len() < 3 {
            return Ok(None);
        }
        let out = app(args[3].clone(), qargs[2].clone());
        Ok(Some(apps_from(out, args, at + 1)))
    }
}

fn copy_ids(v: &Vec<u32>) -> (r: Vec<u32>)
    ensures
        r@ == v@,
{
    let r = v.clone();
    assert(r@ =~= v@);
    r
}

pub(crate) proof fn lemma_bit_cap(n: nat, bits: u64)
    requires
        bits > 0,
        pow2((bits - 1) as nat) <= n < pow2(bits as nat),
    ensures
        bits > LITERAL_BITS <==> n >= pow2(LITERAL_BITS as nat),
{
    if bits > LITERAL_BITS {
        if bits - 1 > LITERAL_BITS {
            vstd::arithmetic::power2::lemma_pow2_strictly_increases(
                LITERAL_BITS as nat,
                (bits - 1) as nat,
            );
        }
    } else if bits < LITERAL_BITS {
        vstd::arithmetic::power2::lemma_pow2_strictly_increases(bits as nat, LITERAL_BITS as nat);
    }
}

/// The number of the fields from position `i` on that a constructor's type shows.
pub open spec fn shown_fields(
    k: K,
    s: Sem,
    m: Mode,
    ctx: Seq<Term>,
    ct: Term,
    fields: Seq<Term>,
    i: nat,
) -> nat
    decreases fields.len() - i,
{
    if i >= fields.len() {
        0
    } else {
        match ensure_pi_spec(k, s, m, ctx, ct) {
            Err(_) => 0,
            Ok((_, _, body)) => 1 + shown_fields(
                k,
                s,
                m,
                ctx,
                plug1(body, fields[i as int]),
                fields,
                i + 1,
            ),
        }
    }
}

/// The recursive calls for the fields from position `i` on that a constructor's
/// type shows, in the order of the fields.
pub open spec fn calls_for(
    k: K,
    s: Sem,
    m: Mode,
    ctx: Seq<Term>,
    ra: RecArgsT,
    ct: Term,
    fields: Seq<Term>,
    i: nat,
) -> Seq<Term>
    decreases fields.len() - i,
{
    if i >= fields.len() {
        Seq::empty()
    } else {
        match ensure_pi_spec(k, s, m, ctx, ct) {
            Err(_) => Seq::empty(),
            Ok((_, dom, body)) => {
                let f = fields[i as int];
                let rest = calls_for(k, s, m, ctx, ra, plug1(body, f), fields, i + 1);
                match field_call(k, s, m, ctx, ra, f, dom) {
                    Ok(Some(c)) => seq![c] + rest,
                    _ => rest,
                }
            },
        }
    }
}

proof fn lemma_apply_first(f: Term, a: Term, rest: Seq<Term>)
    ensures
        mk_apps(app1(f, a), rest) == mk_apps(f, seq![a] + rest),
    decreases rest.len(),
{
    if rest.len() == 0 {
        assert(seq![a] + rest =~= seq![a]);
        assert(seq![a].drop_last() =~= Seq::<Term>::empty());
        reveal_with_fuel(mk_apps, 2);
    } else {
        lemma_apply_first(f, a, rest.drop_last());
        assert((seq![a] + rest).drop_last() =~= seq![a] + rest.drop_last());
        assert((seq![a] + rest).last() == rest.last());
    }
}

proof fn lemma_fields_then_calls(
    k: K,
    s: Sem,
    m: Mode,
    ctx: Seq<Term>,
    ra: RecArgsT,
    ct: Term,
    fields: Seq<Term>,
    i: nat,
    out: Term,
    calls: Seq<Term>,
)
    requires
        i <= fields.len(),
    ensures
        i + shown_fields(k, s, m, ctx, ct, fields, i) <= fields.len(),
        apply_fields(k, s, m, ctx, ra, ct, fields, i, out, calls) matches Ok(t) ==> t == mk_apps(
            mk_apps(
                out,
                fields.subrange(i as int, (i + shown_fields(k, s, m, ctx, ct, fields, i)) as int),
            ),
            calls + calls_for(k, s, m, ctx, ra, ct, fields, i),
        ),
    decreases fields.len() - i,
{
    assert(fields.subrange(i as int, i as int) =~= Seq::<Term>::empty());
    assert(mk_apps(out, Seq::<Term>::empty()) == out);
    assert(calls + Seq::<Term>::empty() =~= calls);
    if i < fields.len() {
        match ensure_pi_spec(k, s, m, ctx, ct) {
            Err(_) => {},
            Ok((_, dom, body)) => {
                let f = fields[i as int];
                let next = plug1(body, f);
                let call = field_call(k, s, m, ctx, ra, f, dom);
                let calls2 = match call {
                    Ok(Some(c)) => calls.push(c),
                    _ => calls,
                };
                let rest = calls_for(k, s, m, ctx, ra, next, fields, i + 1);
                let n = shown_fields(k, s, m, ctx, next, fields, i + 1);
                lemma_fields_then_calls(
                    k,
                    s,
                    m,
                    ctx,
                    ra,
                    next,
                    fields,
                    i + 1,
                    app1(out, f),
                    calls2,
                );
                lemma_apply_first(out, f, fields.subrange(i as int + 1, (i + 1 + n) as int));
                assert(seq![f] + fields.subrange(i as int + 1, (i + 1 + n) as int) =~= fields.subrange(
                    i as int,
                    (i + 1 + n) as int,
                ));
                match call {
                    Ok(Some(c)) => {
                        assert(calls.push(c) + rest =~= calls + (seq![c] + rest));
                    },
                    _ => {},
                }
            },
        }
    }
}

/// The right-hand side of a recursor's rule is the minor premise applied to the
/// fields that the constructor's type shows, and after all of them to the
/// recursive calls for these fields, in the order of the fields.
pub proof fn law_fields_before_calls(
    k: K,
    s: Sem,
    m: Mode,
    ctx: Seq<Term>,
    ra: RecArgsT,
    c: CtorAppT,
    minor: Term,
    ct: Term,
    t: Term,
)
    requires
        c.num_params <= c.args.len(),
        find(k.env, c.ctor) matches Some(Info::Constructor { level_params, typ, .. })
            && apply_type_spec(
            k,
            s,
            m,
            ctx,
            subst_params(
                typ,
                level_params,
                match c.levels {
                    Some(l) => l,
                    None => ra.us,
                },
            ),
            c.args.take(c.num_params as int),
            0,
        ) == Ok::<Term, Fault>(ct),
        iota_rhs(k, s, m, ctx, ra, c, minor) == Ok::<Term, Fault>(t),
    ensures
        ({
            let fields = c.args.skip(c.num_params as int);
            let n = shown_fields(k, s, m, ctx, ct, fields, 0);
            n <= fields.len() && t == mk_apps(
                mk_apps(minor, fields.take(n as int)),
                calls_for(k, s, m, ctx, ra, ct, fields, 0),
            )
        }),
{
    reveal(iota_rhs);
    let fields = c.args.skip(c.num_params as int);
    let none = Seq::<Term>::empty();
    let n = shown_fields(k, s, m, ctx, ct, fields, 0);
    let calls = calls_for(k, s, m, ctx, ra, ct, fields, 0);
    lemma_fields_then_calls(k, s, m, ctx, ra, ct, fields, 0, minor, none);
    assert(fields.subrange(0, n as int) =~= fields.take(n as int));
    assert(none + calls =~= calls);
}

/// The eliminators of a quotient compute on classes: applied to the class of an
/// element, the function that they are given is applied to the element, and then
/// to whatever follows.
pub proof fn law_quotient_computes(
    k: K,
    s: Sem,
    m: Mode,
    ctx: Seq<Term>,
    head: Term,
    args: Seq<Term>,
    at: nat,
    q: Term,
)
    requires
        quot_position(k, head) == Some(at),
        at < args.len(),
        (s.whnf)(m, ctx, args[at as int]) == Ok::<Term, Fault>(q),
        is_quot_class(k, q),
        spine_args(q).len() >= 3,
    ensures
        quot_spec(k, s, m, ctx, head, args) == Ok::<Option<Term>, Fault>(
            Some(mk_apps(app1(args[3], spine_args(q)[2]), args.skip(at as int + 1))),
        ),
{
    reveal(quot_spec);
}

} // verus!
