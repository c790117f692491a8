//! Reduction to head normal form.

use crate::ctx::Ctx;
use crate::env::{find, ConstantInfo, Info};
use crate::errors::{decline, reject, res, Fault, R};
use crate::expr::{
    apps, apps_from, instantiate, instantiate1, mk_apps, plug, plug1, proj, rec_expr_eq, spine_args,
    spine_head, unfold_apps, BinderInfo, Expr, ExprData, Lit, LitT, Term,
};
use crate::judge::sem_at;
use crate::kernel::{Budget, Checker, K, Mode, REDUCTION_LIMIT, Res, Sem};
use crate::level::{Level, Univ};
use crate::lookup::{
    cheap_zeta, cheap_zeta_spec, ctor_headed, eager_unfolds, name_of, unfold_def_spec,
    unfold_delta_spec, unfold_head_spec, unfolds_thm_major,
};
use crate::names::string_bytes_spec;
use crate::pp::term_text;
use crate::text::join;
use vstd::prelude::*;

verus! {

/// The outcome of one reduction step.
pub enum Step<T> {
    /// Nothing more to reduce here.
    Done(T),
    /// Reduction goes on with this.
    Next(T),
}

impl<T: DeepView> DeepView for Step<T> {
    type V = Step<T::V>;

    open spec fn deep_view(&self) -> Step<T::V> {
        match self {
            Step::Done(t) => Step::Done(t.deep_view()),
            Step::Next(t) => Step::Next(t.deep_view()),
        }
    }
}

/// The number of unfoldings that are tried to expose a sort or a function type.
pub const ENSURE_LIMIT: u32 = 2048;

/// Unfolds the head until a sort or a function type shows, or nothing changes.
pub open spec fn ensure_loop(k: K, s: Sem, m: Mode, ctx: Seq<Term>, w: Term, n: nat) -> Res<Term>
    decreases n,
{
    if n == 0 {
        Err(Fault::Decline("ensure reduction depth limit"@))
    } else {
        match w {
            Term::Pi(_, _, _) => Ok(w),
            Term::Sort(_) => Ok(w),
            _ => match spine_head(w) {
                Term::Const(c, us) => match unfold_def_spec(k, c, us) {
                    None => Ok(w),
                    Some(u) => match (s.core)(m, ctx, mk_apps(u, spine_args(w))) {
                        Err(f) => Err(f),
                        Ok(next) => if next == w {
                            Ok(w)
                        } else {
                            ensure_loop(k, s, m, ctx, next, (n - 1) as nat)
                        },
                    },
                },
                _ => Ok(w),
            },
        }
    }
}

/// The term reduced so far that a sort or a function type shows, if it can.
#[verifier::opaque]
pub open spec fn ensure_spec(k: K, s: Sem, m: Mode, ctx: Seq<Term>, e: Term) -> Res<Term> {
    match (s.whnf)(m, ctx, e) {
        Err(f) => Err(f),
        Ok(w) => ensure_loop(k, s, m, ctx, w, ENSURE_LIMIT as nat),
    }
}

/// The level of a term that reduces to a sort.
pub open spec fn ensure_sort_spec(k: K, s: Sem, m: Mode, ctx: Seq<Term>, e: Term) -> Res<Univ> {
    match ensure_spec(k, s, m, ctx, e) {
        Err(f) => Err(f),
        Ok(Term::Sort(l)) => Ok(l),
        Ok(_) => Err(Fault::Reject("expected a sort"@)),
    }
}

/// The parts of a term that reduces to a function type.
pub open spec fn ensure_pi_spec(k: K, s: Sem, m: Mode, ctx: Seq<Term>, e: Term) -> Res<
    (BinderInfo, Term, Term),
> {
    match ensure_spec(k, s, m, ctx, e) {
        Err(f) => Err(f),
        Ok(Term::Pi(bi, ty, body)) => Ok((bi, *ty, *body)),
        Ok(_) => Err(Fault::Reject("expected a function type"@)),
    }
}

/// The context and the type behind `n` binders, each made to show.
pub open spec fn open_spec(k: K, s: Sem, m: Mode, ctx: Seq<Term>, t: Term, n: nat) -> Res<
    (Seq<Term>, Term),
>
    decreases n,
{
    if n == 0 {
        Ok((ctx, t))
    } else {
        match ensure_pi_spec(k, s, m, ctx, t) {
            Err(f) => Err(f),
            Ok((_, dom, body)) => open_spec(k, s, m, ctx.push(dom), body, (n - 1) as nat),
        }
    }
}

/// The type of a function applied to arguments, from position `i` on.
pub open spec fn apply_type_spec(
    k: K,
    s: Sem,
    m: Mode,
    ctx: Seq<Term>,
    t: Term,
    args: Seq<Term>,
    i: nat,
) -> Res<Term>
    decreases args.len() - i,
{
    if i >= args.len() {
        Ok(t)
    } else {
        match ensure_pi_spec(k, s, m, ctx, t) {
            Err(f) => Err(f),
            Ok((_, _, body)) => apply_type_spec(
                k,
                s,
                m,
                ctx,
                plug1(body, args[i as int]),
                args,
                i + 1,
            ),
        }
    }
}

/// Alternates core reduction and unfolding of the head.
pub open spec fn whnf_loop(k: K, s: Sem, m: Mode, ctx: Seq<Term>, e: Term, n: nat) -> Res<Term>
    decreases n,
{
    if n == 0 {
        Err(Fault::Decline("WHNF step limit"@))
    } else {
        match (s.core)(m, ctx, e) {
            Err(f) => Err(f),
            Ok(c) => match spine_head(c) {
                Term::Const(h, us) => if eager_unfolds(k, h) {
                    match unfold_delta_spec(k, h, us, true) {
                        None => Ok(c),
                        Some(u) => {
                            let next = mk_apps(u, spine_args(c));
                            if next == e {
                                Ok(c)
                            } else {
                                whnf_loop(k, s, m, ctx, next, (n - 1) as nat)
                            }
                        },
                    }
                } else {
                    Ok(c)
                },
                _ => Ok(c),
            },
        }
    }
}

/// One judgement of head normal form.
#[verifier::opaque]
pub open spec fn whnf_step(k: K, s: Sem, m: Mode, ctx: Seq<Term>, e: Term) -> Res<Term> {
    whnf_loop(k, s, m, ctx, e, REDUCTION_LIMIT as nat)
}

/// The body of a function applied to the arguments from `i` on, as far as it has
/// binders for them.
pub open spec fn beta_seq(body: Term, args: Seq<Term>, i: nat) -> Term
    decreases args.len() - i,
{
    if i >= args.len() {
        mk_apps(body, args.skip(i as int))
    } else {
        match body {
            Term::Lam(_, _, b) => beta_seq(plug1(*b, args[i as int]), args, i + 1),
            _ => mk_apps(body, args.skip(i as int)),
        }
    }
}

/// Reduces the major premise of a recursor.
pub open spec fn major_loop(
    k: K,
    s: Sem,
    m: Mode,
    ctx: Seq<Term>,
    e: Term,
    thm: bool,
    n: nat,
) -> Res<Term>
    decreases n,
{
    if n == 0 {
        Err(Fault::Decline("WHNF step limit"@))
    } else {
        match (s.core)(m, ctx, e) {
            Err(f) => Err(f),
            Ok(c) => match spine_head(c) {
                Term::Const(h, us) => match unfold_def_spec(k, h, us) {
                    Some(u) => major_loop(
                        k,
                        s,
                        m,
                        ctx,
                        mk_apps(u, spine_args(c)),
                        thm,
                        (n - 1) as nat,
                    ),
                    None => if thm {
                        match unfold_delta_spec(k, h, us, true) {
                            Some(u) => {
                                let next = beta_seq(u, spine_args(c), 0);
                                if ctor_headed(k.env, next) {
                                    major_loop(k, s, m, ctx, next, thm, (n - 1) as nat)
                                } else {
                                    Ok(c)
                                }
                            },
                            None => Ok(c),
                        }
                    } else {
                        Ok(c)
                    },
                },
                _ => Ok(c),
            },
        }
    }
}

/// The major premise of a recursor, reduced: definitions unfold, and theorems do
/// where the recursor is on a recursive proposition and the theorem's body shows
/// a constructor.
#[verifier::opaque]
pub open spec fn whnf_major_spec(k: K, s: Sem, m: Mode, ctx: Seq<Term>, e: Term, rec: u32) -> Res<
    Term,
> {
    major_loop(k, s, m, ctx, e, unfolds_thm_major(k.env, rec), REDUCTION_LIMIT as nat)
}

/// The number of leading abstractions, `n` at most.
pub open spec fn lam_count(t: Term, n: nat) -> nat
    decreases n,
{
    if n == 0 {
        0
    } else {
        match t {
            Term::Lam(_, _, b) => 1 + lam_count(*b, (n - 1) as nat),
            _ => 0,
        }
    }
}

/// The term behind `n` abstractions.
pub open spec fn lam_body(t: Term, n: nat) -> Term
    decreases n,
{
    if n == 0 {
        t
    } else {
        match t {
            Term::Lam(_, _, b) => lam_body(*b, (n - 1) as nat),
            _ => t,
        }
    }
}

/// An abstraction applied to arguments: as many binders as there are arguments
/// for are replaced at once.
pub open spec fn beta_spec(f: Term, args: Seq<Term>) -> Term {
    let i = lam_count(f, args.len());
    mk_apps(plug(lam_body(f, i), args.take(i as int).reverse(), 0), args.skip(i as int))
}

/// The value that a projection looks into, reduced.
pub open spec fn proj_value(k: K, s: Sem, m: Mode, ctx: Seq<Term>, v: Term) -> Res<Term> {
    match (s.whnf)(m, ctx, v) {
        Err(f) => Err(f),
        Ok(w) => match unfold_head_spec(k, w) {
            Some(u) => (s.core)(m, ctx, u),
            None => Ok(w),
        },
    }
}

/// The field that a projection selects from a constructor application, or the
/// bytes of a string literal.
pub open spec fn proj_field(k: K, sname: u32, idx: u32, w: Term) -> Option<Term> {
    let args = spine_args(w);
    let selected = match spine_head(w) {
        Term::Const(c, _) => match find(k.env, c) {
            Some(Info::Constructor { num_params, induct, .. }) => if induct == sname
                && num_params + idx < args.len() {
                Some(args[num_params + idx])
            } else {
                None
            },
            _ => None,
        },
        _ => None,
    };
    match selected {
        Some(t) => Some(t),
        None => match w {
            Term::Lit(LitT::Str(text)) => if name_of(k, sname) == "String"@ && idx == 0 {
                string_bytes_spec(k, text)
            } else {
                None
            },
            _ => None,
        },
    }
}

/// Whether the value that a projection looks into could not be reduced for want
/// of budget.
pub open spec fn proj_capped(k: K, s: Sem, m: Mode, ctx: Seq<Term>, v: Term) -> bool {
    s.core_spent && ((s.whnf)(m, ctx, v) matches Ok(w) && unfold_head_spec(k, w) is Some)
}

/// What is said of a term at which core reduction runs out of budget.
pub open spec fn core_limit_text(k: K, e: Term) -> Seq<char> {
    "WHNF core depth limit: "@ + term_text(k, e, 12)
}

/// One step of a projection, with what it is applied to. One that stays for want
/// of budget is not reduced, and there is no verdict on it.
pub open spec fn proj_once(
    k: K,
    s: Sem,
    m: Mode,
    ctx: Seq<Term>,
    cur: Term,
    sname: u32,
    idx: u32,
    v: Term,
    args: Seq<Term>,
) -> Res<Step<Term>> {
    match proj_value(k, s, m, ctx, v) {
        Err(f) => Err(f),
        Ok(w) => match proj_field(k, sname, idx, w) {
            Some(t) => Ok(Step::Next(mk_apps(t, args))),
            None => {
                let stuck = if w == v {
                    cur
                } else {
                    mk_apps(Term::Proj(sname, idx, Box::new(w)), args)
                };
                if proj_capped(k, s, m, ctx, v) {
                    Err(Fault::Decline(core_limit_text(k, stuck)))
                } else {
                    Ok(Step::Done(stuck))
                }
            },
        },
    }
}

/// One step of core reduction.
#[verifier::opaque]
pub open spec fn core_once(k: K, s: Sem, m: Mode, ctx: Seq<Term>, cur: Term) -> Res<Step<Term>> {
    match cur {
        Term::App(_, _) => {
            let head = spine_head(cur);
            let args = spine_args(cur);
            match head {
                Term::Let(_, _, _) => Ok(Step::Next(mk_apps(cheap_zeta_spec(head), args))),
                Term::Lam(_, _, _) => Ok(Step::Next(beta_spec(head, args))),
                Term::Proj(sname, idx, v) => proj_once(k, s, m, ctx, cur, sname, idx, *v, args),
                Term::Const(_, _) => match crate::ext::extension_spec(k, s, m, ctx, head, args) {
                    Err(f) => Err(f),
                    Ok(Some(t)) => Ok(Step::Next(t)),
                    Ok(None) => Ok(Step::Done(cur)),
                },
                _ => Ok(Step::Done(cur)),
            }
        },
        Term::Let(_, v, b) => Ok(Step::Next(plug1(*b, *v))),
        Term::Proj(sname, idx, v) => proj_once(k, s, m, ctx, cur, sname, idx, *v, Seq::empty()),
        _ => Ok(Step::Done(cur)),
    }
}

/// Core reduction, at most `n` steps.
pub open spec fn core_loop(k: K, s: Sem, m: Mode, ctx: Seq<Term>, e: Term, n: nat) -> Res<Term>
    decreases n,
{
    if n == 0 {
        Err(Fault::Decline("WHNF core step limit"@))
    } else {
        match core_once(k, s, m, ctx, e) {
            Err(f) => Err(f),
            Ok(Step::Done(t)) => Ok(t),
            Ok(Step::Next(t)) => core_loop(k, s, m, ctx, t, (n - 1) as nat),
        }
    }
}

/// One judgement of core reduction: everything but the unfolding of constants.
#[verifier::opaque]
pub open spec fn core_step(k: K, s: Sem, m: Mode, ctx: Seq<Term>, e: Term) -> Res<Term> {
    core_loop(k, s, m, ctx, cheap_zeta_spec(e), REDUCTION_LIMIT as nat)
}

fn reversed(v: &Vec<Expr>, n: usize) -> (r: Vec<Expr>)
    requires
        n <= v.len(),
    ensures
        r.deep_view() == v.deep_view().take(n as int).reverse(),
{
    let mut out: Vec<Expr> = Vec::new();
    let mut i: usize = n;
    while i > 0
        invariant
            i <= n <= v.len(),
            out.len() == n - i,
            forall|j: int| 0 <= j < out.len() ==> (#[trigger] out@[j])@ == v@[n - 1 - j]@,
        decreases i,
    {
        i = i - 1;
        out.push(v[i].clone());
    }
    assert(out.deep_view() =~= v.deep_view().take(n as int).reverse());
    out
}

/// The terms of a list, the last one first.
pub fn reversed_exprs(v: &Vec<Expr>) -> (r: Vec<Expr>)
    ensures
        r.deep_view() == v.deep_view().reverse(),
{
    let r = reversed(v, v.len());
    assert(v.deep_view().take(v.len() as int) =~= v.deep_view());
    r
}

fn strip_lams(t: &Expr, n: usize) -> (r: (&Expr, usize))
    ensures
        r.1 as nat == lam_count(t@, n as nat),
        r.0@ == lam_body(t@, r.1 as nat),
        r.1 <= n,
    decreases n,
{
    if n == 0 {
        return (t, 0);
    }
    match t.data() {
        ExprData::Lam(_, _, b) => {
            let (body, i) = strip_lams(b, n - 1);
            (body, i + 1)
        },
        _ => (t, 0),
    }
}

/// An abstraction applied to arguments.
pub fn beta(f: &Expr, args: &Vec<Expr>) -> (r: Expr)
    ensures
        r@ == beta_spec(f@, args.deep_view()),
{
    let (body, i) = strip_lams(f, args.len());
    let rev = reversed(args, i);
    apps_from(instantiate(body, &rev), args, i)
}

/// The body of a function applied to arguments, as far as it has binders for
/// them.
pub fn beta_args(body: &Expr, args: &Vec<Expr>) -> (r: Expr)
    ensures
        r@ == beta_seq(body@, args.deep_view(), 0),
{
    let mut cur = body.clone();
    let mut i: usize = 0;
    let ghost av = args.deep_view();
    while i < args.len()
        invariant
            i <= args.len(),
            av == args.deep_view(),
            beta_seq(cur@, av, i as nat) == beta_seq(body@, av, 0),
        decreases args.len() - i,
    {
        let next = match cur.data() {
            ExprData::Lam(_, _, b) => instantiate1(b, &args[i]),
            _ => {
                return apps_from(cur, args, i);
            },
        };
        cur = next;
        i = i + 1;
    }
    apps_from(cur, args, i)
}

impl<'e> Checker<'e> {
    /// The term reduced so far that a sort or a function type shows, if it can.
    pub fn reduce_for_ensure(&self, g: Budget, m: Mode, ctx: &Ctx, e: &Expr) -> (r: R<Expr>)
        ensures
            res(r) == ensure_spec(self@, sem_at(self@, g), m, ctx@, e@),
        decreases g.total(), 1int, 0int,
    {
        proof {
            reveal(ensure_spec);
        }
        let ghost s = sem_at(self@, g);
        let start = self.whnf_at(g, m, ctx, e)?;
        let mut w = start.clone();
        let mut left: u32 = ENSURE_LIMIT;
        while left > 0
            invariant
                left <= ENSURE_LIMIT,
                s == sem_at(self@, g),
                ensure_loop(self@, s, m, ctx@, w@, left as nat) == ensure_spec(
                    self@,
                    s,
                    m,
                    ctx@,
                    e@,
                ),
            decreases left,
        {
            match w.data() {
                ExprData::Pi(_, _, _) => {
                    return Ok(w);
                },
                ExprData::Sort(_) => {
                    return Ok(w);
                },
                _ => {},
            }
            let (head, args) = unfold_apps(&w);
            let unfolded = match head.data() {
                ExprData::Const(n, us) => self.unfold_def(*n, us),
                _ => {
                    return Ok(w);
                },
            };
            match unfolded {
                None => {
                    return Ok(w);
                },
                Some(u) => {
                    let core = self.core_at(g, m, ctx, &apps(u, &args))?;
                    if rec_expr_eq(&core, &w) {
                        return Ok(w);
                    }
                    w = core;
                },
            }
            left = left - 1;
        }
        decline("ensure reduction depth limit")
    }

    /// The level of a term that reduces to a sort.
    pub fn ensure_sort_at(&self, g: Budget, m: Mode, ctx: &Ctx, e: &Expr) -> (r: R<Level>)
        ensures
            res(r) == ensure_sort_spec(self@, sem_at(self@, g), m, ctx@, e@),
        decreases g.total(), 2int, 0int,
    {
        let w = self.reduce_for_ensure(g, m, ctx, e)?;
        match w.data() {
            ExprData::Sort(l) => Ok(l.clone()),
            _ => reject("expected a sort"),
        }
    }

    /// The parts of a term that reduces to a function type.
    pub fn ensure_pi_at(&self, g: Budget, m: Mode, ctx: &Ctx, e: &Expr) -> (r: R<
        (BinderInfo, Expr, Expr),
    >)
        ensures
            res(r) == ensure_pi_spec(self@, sem_at(self@, g), m, ctx@, e@),
        decreases g.total(), 2int, 0int,
    {
        let w = self.reduce_for_ensure(g, m, ctx, e)?;
        match w.data() {
            ExprData::Pi(bi, ty, body) => Ok((*bi, ty.clone(), body.clone())),
            _ => reject("expected a function type"),
        }
    }

    /// The context and the type behind `n` binders.
    pub fn open_binders(&self, g: Budget, m: Mode, ctx: &Ctx, t: &Expr, n: u32) -> (r: R<(Ctx, Expr)>)
        ensures
            res(r) == open_spec(self@, sem_at(self@, g), m, ctx@, t@, n as nat),
        decreases g.total(), 3int, 0int,
    {
        let ghost s = sem_at(self@, g);
        let mut c = ctx.clone();
        let mut cur = t.clone();
        let mut left: u32 = n;
        while left > 0
            invariant
                left <= n,
                s == sem_at(self@, g),
                open_spec(self@, s, m, c@, cur@, left as nat) == open_spec(
                    self@,
                    s,
                    m,
                    ctx@,
                    t@,
                    n as nat,
                ),
            decreases left,
        {
            let (_, dom, body) = self.ensure_pi_at(g, m, &c, &cur)?;
            c.push(dom);
            cur = body;
            left = left - 1;
        }
        Ok((c, cur))
    }

    /// The type of a function applied to arguments.
    pub fn apply_type(&self, g: Budget, m: Mode, ctx: &Ctx, t: &Expr, args: &Vec<Expr>) -> (r: R<Expr>)
        ensures
            res(r) == apply_type_spec(
                self@,
                sem_at(self@, g),
                m,
                ctx@,
                t@,
                args.deep_view(),
                0,
            ),
        decreases g.total(), 3int, 0int,
    {
        let ghost s = sem_at(self@, g);
        let ghost av = args.deep_view();
        let mut cur = t.clone();
        let mut i: usize = 0;
        while i < args.len()
            invariant
                i <= args.len(),
                av == args.deep_view(),
                s == sem_at(self@, g),
                apply_type_spec(self@, s, m, ctx@, cur@, av, i as nat) == apply_type_spec(
                    self@,
                    s,
                    m,
                    ctx@,
                    t@,
                    av,
                    0,
                ),
            decreases args.len() - i,
        {
            let (_, _, body) = self.ensure_pi_at(g, m, ctx, &cur)?;
            cur = instantiate1(&body, &args[i]);
            i = i + 1;
        }
        Ok(cur)
    }

    pub(crate) fn whnf_once(&self, g: Budget, m: Mode, ctx: &Ctx, e: &Expr) -> (r: R<Expr>)
        ensures
            res(r) == whnf_step(self@, sem_at(self@, g), m, ctx@, e@),
        decreases g.total(), 1int, 0int,
    {
        proof {
            reveal(whnf_step);
        }
        let ghost s = sem_at(self@, g);
        let mut cur = e.clone();
        let mut left: u64 = REDUCTION_LIMIT;
        while left > 0
            invariant
                left <= REDUCTION_LIMIT,
                s == sem_at(self@, g),
                whnf_loop(self@, s, m, ctx@, cur@, left as nat) == whnf_step(
                    self@,
                    s,
                    m,
                    ctx@,
                    e@,
                ),
            decreases left,
        {
            let core = self.core_at(g, m, ctx, &cur)?;
            let (head, args) = unfold_apps(&core);
            let unfolded = match head.data() {
                ExprData::Const(n, us) => {
                    if !self.eager_whnf_unfolds(*n) {
                        return Ok(core);
                    }
                    self.unfold_delta(*n, us, true)
                },
                _ => {
                    return Ok(core);
                },
            };
            match unfolded {
                None => {
                    return Ok(core);
                },
                Some(u) => {
                    let next = apps(u, &args);
                    if rec_expr_eq(&next, &cur) {
                        return Ok(core);
                    }
                    cur = next;
                },
            }
            left = left - 1;
        }
        decline("WHNF step limit")
    }

    /// The major premise of a recursor, reduced.
    pub fn whnf_major(&self, g: Budget, m: Mode, ctx: &Ctx, e: &Expr, rec: u32) -> (r: R<Expr>)
        ensures
            res(r) == whnf_major_spec(self@, sem_at(self@, g), m, ctx@, e@, rec),
        decreases g.total(), 1int, 0int,
    {
        proof {
            reveal(whnf_major_spec);
        }
        let ghost s = sem_at(self@, g);
        let thm = self.recursor_unfolds_thm_major(rec);
        let mut cur = e.clone();
        let mut left: u64 = REDUCTION_LIMIT;
        while left > 0
            invariant
                left <= REDUCTION_LIMIT,
                s == sem_at(self@, g),
                major_loop(self@, s, m, ctx@, cur@, thm, left as nat) == whnf_major_spec(
                    self@,
                    s,
                    m,
                    ctx@,
                    e@,
                    rec,
                ),
            decreases left,
        {
            let core = self.core_at(g, m, ctx, &cur)?;
            let (head, args) = unfold_apps(&core);
            match head.data() {
                ExprData::Const(n, us) => match self.unfold_def(*n, us) {
                    Some(u) => {
                        cur = apps(u, &args);
                    },
                    None => {
                        if !thm {
                            return Ok(core);
                        }
                        match self.unfold_delta(*n, us, true) {
                            None => {
                                return Ok(core);
                            },
                            Some(u) => {
                                let next = beta_args(&u, &args);
                                if !self.is_ctor_or_nat_lit_head(&next) {
                                    return Ok(core);
                                }
                                cur = next;
                            },
                        }
                    },
                },
                _ => {
                    return Ok(core);
                },
            }
            left = left - 1;
        }
        decline("WHNF step limit")
    }

    fn reduce_proj_value(&self, g: Budget, m: Mode, ctx: &Ctx, v: &Expr) -> (r: R<(Expr, bool)>)
        ensures
            match r {
                Ok((w, capped)) => proj_value(self@, sem_at(self@, g), m, ctx@, v@) == Ok::<
                    Term,
                    Fault,
                >(w@) && capped == proj_capped(self@, sem_at(self@, g), m, ctx@, v@),
                Err(f) => proj_value(self@, sem_at(self@, g), m, ctx@, v@) == Err::<Term, Fault>(
                    f@,
                ),
            },
        decreases g.total(), 1int, 0int,
    {
        proof {
            reveal(sem_at);
        }
        let w = self.whnf_at(g, m, ctx, v)?;
        match self.try_unfold_const_head(&w) {
            Some(u) => {
                let c = self.core_at(g, m, ctx, &u)?;
                Ok((c, g.core == 0))
            },
            None => Ok((w, false)),
        }
    }

    /// Gives up on a term at which core reduction runs out of budget.
    pub(crate) fn core_limit<T>(&self, e: &Expr) -> (r: R<T>)
        ensures
            r matches Err(f) && f@ == Fault::Decline(core_limit_text(self@, e@)),
    {
        let msg = join("WHNF core depth limit: ", self.pp_budget(e, 12).as_str());
        decline(msg.as_str())
    }

    fn select_field(&self, sname: u32, idx: u32, w: &Expr) -> (r: Option<Expr>)
        ensures
            r.deep_view() == proj_field(self@, sname, idx, w@),
    {
        let (head, args) = unfold_apps(w);
        assert(args.len() == args.deep_view().len());
        match head.data() {
            ExprData::Const(c, _) => match self.env.get(*c) {
                Some(ConstantInfo::Constructor { num_params, induct, .. }) => {
                    let at: u64 = *num_params as u64 + idx as u64;
                    if *induct == sname && at < args.len() as u64 {
                        return Some(args[at as usize].clone());
                    }
                },
                _ => {},
            },
            _ => {},
        }
        match w.data() {
            ExprData::Lit(Lit::Str(text)) => {
                if crate::text::str_same(self.name_str(sname), "String") && idx == 0 {
                    self.string_to_byte_array(text.as_str())
                } else {
                    None
                }
            },
            _ => None,
        }
    }

    fn project_once(
        &self,
        g: Budget,
        m: Mode,
        ctx: &Ctx,
        cur: &Expr,
        sname: u32,
        idx: u32,
        v: &Expr,
        args: &Vec<Expr>,
    ) -> (r: R<Step<Expr>>)
        ensures
            res(r) == proj_once(
                self@,
                sem_at(self@, g),
                m,
                ctx@,
                cur@,
                sname,
                idx,
                v@,
                args.deep_view(),
            ),
        decreases g.total(), 2int, 0int,
    {
        let (w, capped) = self.reduce_proj_value(g, m, ctx, v)?;
        match self.select_field(sname, idx, &w) {
            Some(t) => Ok(Step::Next(apps(t, args))),
            None => {
                let stuck = if rec_expr_eq(&w, v) {
                    cur.clone()
                } else {
                    apps(proj(sname, idx, w), args)
                };
                if capped {
                    return self.core_limit(&stuck);
                }
                Ok(Step::Done(stuck))
            },
        }
    }

    fn reduce_core_once(&self, g: Budget, m: Mode, ctx: &Ctx, cur: &Expr) -> (r: R<Step<Expr>>)
        ensures
            res(r) == core_once(self@, sem_at(self@, g), m, ctx@, cur@),
        decreases g.total(), 20int, 0int,
    {
        proof {
            reveal(core_once);
        }
        match cur.data() {
            ExprData::App(_, _) => {
                let (head, args) = unfold_apps(cur);
                match head.data() {
                    ExprData::Let(_, _, _) => Ok(Step::Next(apps(cheap_zeta(&head), &args))),
                    ExprData::Lam(_, _, _) => Ok(Step::Next(beta(&head, &args))),
                    ExprData::Proj(sname, idx, v) => self.project_once(
                        g,
                        m,
                        ctx,
                        cur,
                        *sname,
                        *idx,
                        v,
                        &args,
                    ),
                    ExprData::Const(_, _) => match self.try_extensions(g, m, ctx, &head, &args)? {
                        Some(t) => Ok(Step::Next(t)),
                        None => Ok(Step::Done(cur.clone())),
                    },
                    _ => Ok(Step::Done(cur.clone())),
                }
            },
            ExprData::Let(_, v, b) => Ok(Step::Next(instantiate1(b, v))),
            ExprData::Proj(sname, idx, v) => {
                let none: Vec<Expr> = Vec::new();
                assert(none.deep_view() =~= Seq::<Term>::empty());
                self.project_once(g, m, ctx, cur, *sname, *idx, v, &none)
            },
            _ => Ok(Step::Done(cur.clone())),
        }
    }

    pub(crate) fn core_reduce(&self, g: Budget, m: Mode, ctx: &Ctx, e: &Expr) -> (r: R<Expr>)
        ensures
            res(r) == core_step(self@, sem_at(self@, g), m, ctx@, e@),
        decreases g.total(), 21int, 0int,
    {
        proof {
            reveal(core_step);
        }
        let ghost s = sem_at(self@, g);
        let start = cheap_zeta(e);
        let mut cur = start.clone();
        let mut left: u64 = REDUCTION_LIMIT;
        while left > 0
            invariant
                left <= REDUCTION_LIMIT,
                s == sem_at(self@, g),
                core_loop(self@, s, m, ctx@, cur@, left as nat) == core_step(
                    self@,
                    s,
                    m,
                    ctx@,
                    e@,
                ),
            decreases left,
        {
            match self.reduce_core_once(g, m, ctx, &cur)? {
                Step::Done(t) => {
                    return Ok(t);
                },
                Step::Next(t) => {
                    cur = t;
                },
            }
            left = left - 1;
        }
        decline("WHNF core step limit")
    }
}

/// A function applied to one argument reduces to its body with the argument in
/// place of the variable.
pub proof fn law_beta(k: K, s: Sem, m: Mode, ctx: Seq<Term>, bi: BinderInfo, ty: Term, b: Term, a: Term)
    ensures
        core_once(
            k,
            s,
            m,
            ctx,
            Term::App(Box::new(Term::Lam(bi, Box::new(ty), Box::new(b))), Box::new(a)),
        ) == Ok::<Step<Term>, Fault>(Step::Next(plug1(b, a))),
{
    reveal(core_once);
    let f = Term::Lam(bi, Box::new(ty), Box::new(b));
    let e = Term::App(Box::new(f), Box::new(a));
    let args = spine_args(e);
    reveal_with_fuel(spine_args, 2);
    reveal_with_fuel(spine_head, 2);
    reveal_with_fuel(lam_count, 3);
    reveal_with_fuel(lam_body, 3);
    assert(args =~= seq![a]);
    assert(lam_count(f, 1) == 1);
    assert(lam_body(f, 1) == b);
    assert(args.take(1).reverse() =~= seq![a]);
    assert(args.skip(1) =~= Seq::<Term>::empty());
}

/// A local definition reduces to its body with the value in place of the
/// variable.
pub proof fn law_zeta(k: K, s: Sem, m: Mode, ctx: Seq<Term>, ty: Term, v: Term, b: Term)
    ensures
        core_once(
            k,
            s,
            m,
            ctx,
            Term::Let(Box::new(ty), Box::new(v), Box::new(b)),
        ) == Ok::<Step<Term>, Fault>(Step::Next(plug1(b, v))),
{
    reveal(core_once);
}

/// A projection of a value that reduces to the structure's constructor, applied,
/// reduces to the field.
pub proof fn law_projection(
    k: K,
    s: Sem,
    m: Mode,
    ctx: Seq<Term>,
    sname: u32,
    idx: u32,
    v: Term,
    w: Term,
)
    requires
        proj_value(k, s, m, ctx, v) == Ok::<Term, Fault>(w),
        spine_head(w) matches Term::Const(c, _) && (find(k.env, c) matches Some(
            Info::Constructor { num_params, induct, .. },
        ) && induct == sname && num_params + idx < spine_args(w).len()),
    ensures
        spine_head(w) matches Term::Const(c, _) && (find(k.env, c) matches Some(
            Info::Constructor { num_params, .. },
        ) && core_once(k, s, m, ctx, Term::Proj(sname, idx, Box::new(v))) == Ok::<
            Step<Term>,
            Fault,
        >(Step::Next(spine_args(w)[num_params + idx]))),
{
    reveal(core_once);
    reveal_with_fuel(mk_apps, 2);
}

} // verus!
