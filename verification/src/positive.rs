//! Strict positivity of constructor arguments.

use crate::conv::pairwise;
use crate::ctx::Ctx;
use crate::env::{find, ConstantInfo, Info};
use crate::errors::{decline, reject, res, Fault, TcError, R};
use crate::expr::{
    bvar, clone_exprs, exprs_between, exprs_from, instantiate1, instantiate_level_params,
    law_lift_zero, plug1, spine_args, spine_head, subst_params, tree_size, unfold_apps, Expr,
    ExprData, Term,
};
use crate::iota::{has_id, lift_all, occurs_any, occurs_any_spec, shift_exprs};
use crate::judge::sem_at;
use crate::kernel::{Checker, Mode, Res, Sem, K, STEP_LIMIT};
use crate::level::{Level, Univ};
use crate::nbe::depth_of;
use vstd::prelude::*;

verus! {

/// The types under way: each with the parameters it is at.
pub type Visiting = Seq<(u32, Seq<Term>)>;

/// The types under way, seen from under `by` more binders.
pub open spec fn lift_visiting(v: Visiting, by: int) -> Visiting {
    Seq::new(v.len(), |i: int| (v[i].0, lift_all(v[i].1, by)))
}

/// The types under way, seen from under `by` more binders, so that what was noted
/// at one depth keeps its meaning at another.
pub fn shift_visiting(v: &Vec<(u32, Vec<Expr>)>, by: i64) -> (r: Vec<(u32, Vec<Expr>)>)
    ensures
        r.deep_view() == lift_visiting(v.deep_view(), by as int),
{
    let mut out: Vec<(u32, Vec<Expr>)> = Vec::new();
    let mut i: usize = 0;
    while i < v.len()
        invariant
            i <= v.len(),
            out.len() == i,
            forall|j: int|
                0 <= j < i ==> (#[trigger] out@[j]).0 == v@[j].0 && out@[j].1.deep_view()
                    == lift_all(v@[j].1.deep_view(), by as int),
        decreases v.len() - i,
    {
        out.push((v[i].0, shift_exprs(&v[i].1, by)));
        i = i + 1;
    }
    assert(out.deep_view() =~= lift_visiting(v.deep_view(), by as int));
    out
}

/// Seen from under no more binders, the types under way are as they were.
pub proof fn law_shift_visiting_zero(v: Visiting)
    ensures
        lift_visiting(v, 0) == v,
{
    assert forall|i: int| 0 <= i < v.len() implies lift_visiting(v, 0)[i] == v[i] by {
        assert forall|j: int| 0 <= j < v[i].1.len() implies lift_all(v[i].1, 0)[j] == v[i].1[j] by {
            law_lift_zero(v[i].1[j], 0);
        }
        assert(lift_all(v[i].1, 0) =~= v[i].1);
    }
    assert(lift_visiting(v, 0) =~= v);
}

/// Whether one of the names occurs in one of the terms.
pub open spec fn occurs_in_any(ts: Seq<Term>, names: Seq<u32>) -> bool {
    exists|i: int| 0 <= i < ts.len() && occurs_any_spec(#[trigger] ts[i], names)
}

fn occurs_in(ts: &Vec<Expr>, names: &Vec<u32>) -> (r: bool)
    ensures
        r == occurs_in_any(ts.deep_view(), names@),
{
    let mut i: usize = 0;
    while i < ts.len()
        invariant
            i <= ts.len(),
            forall|j: int| 0 <= j < i ==> !occurs_any_spec(#[trigger] ts.deep_view()[j], names@),
        decreases ts.len() - i,
    {
        if occurs_any(&ts[i], names) {
            assert(occurs_any_spec(ts.deep_view()[i as int], names@));
            return true;
        }
        i = i + 1;
    }
    false
}

/// The head normal form of an argument type. A budget that runs out stays what it
/// is; any other fault means that positivity cannot be shown.
pub open spec fn positive_whnf(s: Sem, m: Mode, ctx: Seq<Term>, e: Term) -> Res<Term> {
    match (s.whnf)(m, ctx, e) {
        Ok(w) => Ok(w),
        Err(Fault::Decline(msg)) => Err(Fault::Decline(msg)),
        Err(_) => Err(Fault::Reject("cannot prove constructor argument is positive"@)),
    }
}

/// The type behind the domains of an argument type, in none of which the group
/// may occur, with the scope it is in and the number of domains.
pub open spec fn peel_domains(
    s: Sem,
    m: Mode,
    ctx: Seq<Term>,
    t: Term,
    bound: Seq<u32>,
    peeled: nat,
    n: nat,
) -> Res<(Seq<Term>, Term, nat)>
    decreases n,
{
    match t {
        Term::Pi(_, dom, body) => if occurs_any_spec(*dom, bound) {
            Err(Fault::Reject("non-positive (negative) occurrence in constructor argument"@))
        } else {
            match positive_whnf(s, m, ctx.push(*dom), *body) {
                Err(f) => Err(f),
                Ok(w) => if n == 0 {
                    Err(Fault::Decline("WHNF step limit"@))
                } else {
                    peel_domains(s, m, ctx.push(*dom), w, bound, peeled + 1, (n - 1) as nat)
                },
            }
        },
        _ => Ok((ctx, t, peeled)),
    }
}

/// The variable that stands for parameter `i` in a scope.
pub open spec fn param_var(len: nat, i: nat) -> Term {
    let d = depth_of(len);
    Term::BVar(
        if d >= 1 + i {
            (d - 1 - i) as u32
        } else {
            0
        },
    )
}

/// Whether arguments are the parameters of the scope, from position `i` on.
pub open spec fn are_params(s: Sem, m: Mode, ctx: Seq<Term>, args: Seq<Term>, i: nat, n: nat) -> Res<
    bool,
>
    decreases n - i,
{
    if i >= n {
        Ok(true)
    } else {
        match (s.defeq)(m, ctx, args[i as int], param_var(ctx.len(), i)) {
            Err(f) => Err(f),
            Ok(false) => Ok(false),
            Ok(true) => are_params(s, m, ctx, args, i + 1, n),
        }
    }
}

/// A recursive occurrence: at the group's own parameters, and nowhere inside.
pub open spec fn uniform_spec(
    s: Sem,
    m: Mode,
    ctx: Seq<Term>,
    args: Seq<Term>,
    bound: Seq<u32>,
    np: u32,
) -> Res<()> {
    if occurs_in_any(args, bound) {
        Err(Fault::Reject("nested inductive occurrence in an index"@))
    } else if args.len() < np {
        Err(Fault::Reject("nested inductive applied to too few parameters"@))
    } else {
        match are_params(s, m, ctx, args, 0, np as nat) {
            Err(f) => Err(f),
            Ok(false) => Err(Fault::Reject("non-uniform nested inductive parameter"@)),
            Ok(true) => Ok(()),
        }
    }
}

/// Whether a type at the given parameters is under way already, from position `i`
/// on.
pub open spec fn is_visited(
    s: Sem,
    m: Mode,
    ctx: Seq<Term>,
    v: Visiting,
    f: u32,
    params: Seq<Term>,
    i: nat,
) -> Res<bool>
    decreases v.len() - i,
{
    if i >= v.len() {
        Ok(false)
    } else if v[i as int].0 == f {
        match pairwise(s, m, ctx, v[i as int].1, params, 0) {
            Err(x) => Err(x),
            Ok(true) => Ok(true),
            Ok(false) => is_visited(s, m, ctx, v, f, params, i + 1),
        }
    } else {
        is_visited(s, m, ctx, v, f, params, i + 1)
    }
}

/// What stays the same through one check of positivity.
pub struct PositiveFor {
    /// The types being defined.
    pub bound: Seq<u32>,
    /// The number of their parameters.
    pub num_params: u32,
}

/// Whether an argument type is positive, through at most `n` nested types.
pub open spec fn arg_positive(
    k: K,
    s: Sem,
    m: Mode,
    ctx: Seq<Term>,
    ty: Term,
    p: PositiveFor,
    v: Visiting,
    n: nat,
) -> Res<()>
    decreases n, 6nat, 0nat,
{
    match positive_whnf(s, m, ctx, ty) {
        Err(f) => Err(f),
        Ok(w) => match peel_domains(s, m, ctx, w, p.bound, 0, STEP_LIMIT as nat) {
            Err(f) => Err(f),
            Ok((ctx2, t, peeled)) => spine_positive(
                k,
                s,
                m,
                ctx2,
                t,
                p,
                lift_visiting(v, peeled as int),
                n,
            ),
        },
    }
}

/// Whether the type behind the domains of an argument type is positive.
pub open spec fn spine_positive(
    k: K,
    s: Sem,
    m: Mode,
    ctx: Seq<Term>,
    e: Term,
    p: PositiveFor,
    v: Visiting,
    n: nat,
) -> Res<()>
    decreases n, 5nat, 0nat,
{
    if !occurs_any_spec(e, p.bound) {
        Ok(())
    } else {
        match spine_head(e) {
            Term::Const(c, us) => if p.bound.contains(c) {
                uniform_spec(s, m, ctx, spine_args(e), p.bound, p.num_params)
            } else {
                nested_positive(k, s, m, ctx, c, us, spine_args(e), p, v, n)
            },
            _ => Err(Fault::Reject("occurrence of inductive type in unsupported position"@)),
        }
    }
}

/// Whether the group occurs positively inside another inductive type.
pub open spec fn nested_positive(
    k: K,
    s: Sem,
    m: Mode,
    ctx: Seq<Term>,
    f: u32,
    us: Seq<Univ>,
    args: Seq<Term>,
    p: PositiveFor,
    v: Visiting,
    n: nat,
) -> Res<()>
    decreases n, 4nat, 0nat,
{
    match find(k.env, f) {
        Some(Info::InductiveType { num_params, all, level_params, .. }) => if args.len()
            < num_params {
            Err(Fault::Reject("nested inductive applied to too few parameters"@))
        } else if level_params.len() != us.len() {
            Err(Fault::Reject("nested inductive universe mismatch"@))
        } else {
            let params = args.take(num_params as int);
            let indices = args.skip(num_params as int);
            match is_visited(s, m, ctx, v, f, params, 0) {
                Err(x) => Err(x),
                Ok(seen) => if !seen && !occurs_in_any(params, p.bound) {
                    Err(Fault::Reject("occurrence of inductive type in unsupported position"@))
                } else if occurs_in_any(indices, p.bound) {
                    Err(Fault::Reject("nested inductive occurrence in an index"@))
                } else if seen {
                    Ok(())
                } else {
                    let group = if all.len() == 0 {
                        seq![f]
                    } else {
                        all
                    };
                    types_positive(
                        k,
                        s,
                        m,
                        ctx,
                        group,
                        0,
                        us,
                        params,
                        p,
                        v + Seq::new(group.len(), |i: int| (group[i], params)),
                        n,
                    )
                },
            }
        },
        _ => Err(Fault::Reject("occurrence of inductive type in unsupported position"@)),
    }
}

/// Whether the constructors of the types from position `i` on are positive.
pub open spec fn types_positive(
    k: K,
    s: Sem,
    m: Mode,
    ctx: Seq<Term>,
    group: Seq<u32>,
    i: nat,
    us: Seq<Univ>,
    params: Seq<Term>,
    p: PositiveFor,
    v: Visiting,
    n: nat,
) -> Res<()>
    decreases n, 3nat, group.len() - i,
{
    if i >= group.len() {
        Ok(())
    } else {
        match find(k.env, group[i as int]) {
            Some(Info::InductiveType { ctors, .. }) => match ctors_positive(
                k,
                s,
                m,
                ctx,
                ctors,
                0,
                us,
                params,
                p,
                v,
                n,
            ) {
                Err(f) => Err(f),
                Ok(()) => types_positive(k, s, m, ctx, group, i + 1, us, params, p, v, n),
            },
            _ => types_positive(k, s, m, ctx, group, i + 1, us, params, p, v, n),
        }
    }
}

/// Whether the constructors from position `i` on are positive.
pub open spec fn ctors_positive(
    k: K,
    s: Sem,
    m: Mode,
    ctx: Seq<Term>,
    ctors: Seq<u32>,
    i: nat,
    us: Seq<Univ>,
    params: Seq<Term>,
    p: PositiveFor,
    v: Visiting,
    n: nat,
) -> Res<()>
    decreases n, 2nat, ctors.len() - i,
{
    if i >= ctors.len() {
        Ok(())
    } else {
        match ctor_positive(k, s, m, ctx, ctors[i as int], us, params, p, v, n) {
            Err(f) => Err(f),
            Ok(()) => ctors_positive(k, s, m, ctx, ctors, i + 1, us, params, p, v, n),
        }
    }
}

/// A type applied to parameters, where it shows a function type for each.
pub open spec fn apply_shown(t: Term, params: Seq<Term>, i: nat) -> Option<Term>
    decreases params.len() - i,
{
    if i >= params.len() {
        Some(t)
    } else {
        match t {
            Term::Pi(_, _, body) => apply_shown(plug1(*body, params[i as int]), params, i + 1),
            _ => None,
        }
    }
}

/// Whether a constructor of another type, at the parameters it is used at, has
/// positive fields.
pub open spec fn ctor_positive(
    k: K,
    s: Sem,
    m: Mode,
    ctx: Seq<Term>,
    c: u32,
    us: Seq<Univ>,
    params: Seq<Term>,
    p: PositiveFor,
    v: Visiting,
    n: nat,
) -> Res<()>
    decreases n, 1nat, 0nat,
{
    match find(k.env, c) {
        Some(Info::Constructor { level_params, typ, num_params, .. }) => if num_params
            != params.len() {
            Err(Fault::Reject("nested inductive constructor numParams mismatch"@))
        } else if level_params.len() != us.len() {
            Err(Fault::Reject("nested inductive constructor universe mismatch"@))
        } else {
            match apply_shown(subst_params(typ, level_params, us), params, 0) {
                None => Err(
                    Fault::Reject(
                        "nested inductive constructor is not a function of its parameters"@,
                    ),
                ),
                Some(t) => match fields_positive(k, s, m, ctx, t, p, v, n) {
                    Err(f) => Err(f),
                    Ok(concl) => conclusion_positive(k, concl, p.bound),
                },
            }
        },
        _ => Err(Fault::Reject("nested inductive constructor is missing"@)),
    }
}

/// The conclusion of a constructor's type, where all the fields before it are
/// positive.
pub open spec fn fields_positive(
    k: K,
    s: Sem,
    m: Mode,
    ctx: Seq<Term>,
    t: Term,
    p: PositiveFor,
    v: Visiting,
    n: nat,
) -> Res<Term>
    decreases n, 0nat, tree_size(t),
{
    match t {
        Term::Pi(_, dom, body) => if n == 0 {
            Err(Fault::Decline("positivity depth limit"@))
        } else {
            match arg_positive(k, s, m, ctx, *dom, p, v, (n - 1) as nat) {
                Err(f) => Err(f),
                Ok(()) => fields_positive(
                    k,
                    s,
                    m,
                    ctx.push(*dom),
                    *body,
                    p,
                    lift_visiting(v, 1),
                    n,
                ),
            }
        },
        _ => Ok(t),
    }
}

/// Whether the group does not occur in the conclusion of another type's
/// constructor but in its parameters.
pub open spec fn conclusion_positive(k: K, e: Term, bound: Seq<u32>) -> Res<()> {
    let args = spine_args(e);
    match conclusion_params(k, e) {
        Some(np) => if np <= args.len() && occurs_in_any(args.skip(np as int), bound) {
            Err(Fault::Reject("nested inductive occurrence in an index"@))
        } else {
            Ok(())
        },
        None => if occurs_any_spec(e, bound) {
            Err(Fault::Reject("occurrence of inductive type in unsupported position"@))
        } else {
            Ok(())
        },
    }
}

/// The number of parameters of the inductive type that a term is headed by.
pub open spec fn conclusion_params(k: K, e: Term) -> Option<u32> {
    match spine_head(e) {
        Term::Const(c, _) => match find(k.env, c) {
            Some(Info::InductiveType { num_params, .. }) => Some(num_params),
            _ => None,
        },
        _ => None,
    }
}

/// A group's type does not occur to the left of an arrow: where an argument type
/// is positive, none of the domains that it shows mentions the group.
pub proof fn law_no_negative_occurrence(
    k: K,
    s: Sem,
    m: Mode,
    ctx: Seq<Term>,
    ty: Term,
    p: PositiveFor,
    v: Visiting,
    n: nat,
)
    requires
        arg_positive(k, s, m, ctx, ty, p, v, n) is Ok,
    ensures
        (s.whnf)(m, ctx, ty) matches Ok(w) && (w matches Term::Pi(_, dom, _) ==> !occurs_any_spec(
            *dom,
            p.bound,
        )),
{
}

/// A recursive occurrence that is accepted is at the group's own parameters, and
/// the group occurs in none of its arguments.
pub proof fn law_uniform_occurrence(
    k: K,
    s: Sem,
    m: Mode,
    ctx: Seq<Term>,
    e: Term,
    p: PositiveFor,
    v: Visiting,
    n: nat,
)
    requires
        spine_positive(k, s, m, ctx, e, p, v, n) is Ok,
        spine_head(e) matches Term::Const(c, _) && p.bound.contains(c),
        occurs_any_spec(e, p.bound),
    ensures
        spine_args(e).len() >= p.num_params,
        are_params(s, m, ctx, spine_args(e), 0, p.num_params as nat) == Ok::<bool, Fault>(true),
        !occurs_in_any(spine_args(e), p.bound),
{
}

/// An argument type that shows no function type and does not mention the group is
/// positive.
pub proof fn law_absent_is_positive(
    k: K,
    s: Sem,
    m: Mode,
    ctx: Seq<Term>,
    ty: Term,
    w: Term,
    p: PositiveFor,
    v: Visiting,
    n: nat,
)
    requires
        (s.whnf)(m, ctx, ty) == Ok::<Term, Fault>(w),
        !(w is Pi),
        !occurs_any_spec(w, p.bound),
    ensures
        arg_positive(k, s, m, ctx, ty, p, v, n) == Ok::<(), Fault>(()),
{
}

fn mk_param_var(len: usize, i: u32) -> (r: Expr)
    ensures
        r@ == param_var(len as nat, i as nat),
{
    let d: u32 = (len as u64 % 0x1_0000_0000) as u32;
    let need: u64 = 1 + i as u64;
    if d as u64 >= need {
        bvar((d as u64 - need) as u32)
    } else {
        bvar(0)
    }
}

/// What stays the same through one check of positivity.
pub struct Bound {
    pub names: Vec<u32>,
    pub num_params: u32,
}

impl View for Bound {
    type V = PositiveFor;

    open spec fn view(&self) -> PositiveFor {
        PositiveFor { bound: self.names@, num_params: self.num_params }
    }
}

fn apply_to_params(t: &Expr, params: &Vec<Expr>) -> (r: Option<Expr>)
    ensures
        r.deep_view() == apply_shown(t@, params.deep_view(), 0),
{
    let ghost pv = params.deep_view();
    let mut cur = t.clone();
    let mut i: usize = 0;
    while i < params.len()
        invariant
            i <= params.len(),
            pv == params.deep_view(),
            apply_shown(cur@, pv, i as nat) == apply_shown(t@, pv, 0),
        decreases params.len() - i,
    {
        let next = match cur.data() {
            ExprData::Pi(_, _, body) => instantiate1(body, &params[i]),
            _ => {
                return None;
            },
        };
        cur = next;
        i = i + 1;
    }
    Some(cur)
}

impl<'e> Checker<'e> {
    fn positivity_whnf(&self, m: Mode, ctx: &Ctx, e: &Expr) -> (r: R<Expr>)
        ensures
            res(r) == positive_whnf(sem_at(self@, self.budget), m, ctx@, e@),
    {
        match self.whnf_at(self.budget, m, ctx, e) {
            Ok(w) => Ok(w),
            Err(f) => match f {
                TcError::Decline(msg) => Err(TcError::Decline(msg)),
                _ => reject("cannot prove constructor argument is positive"),
            },
        }
    }

    fn peel_arg_domains(&self, m: Mode, ctx: &Ctx, t: &Expr, bound: &Vec<u32>) -> (r: R<
        (Ctx, Expr, u32),
    >)
        ensures
            match r {
                Ok((c, e, n)) => peel_domains(
                    sem_at(self@, self.budget),
                    m,
                    ctx@,
                    t@,
                    bound@,
                    0,
                    STEP_LIMIT as nat,
                ) == Ok::<(Seq<Term>, Term, nat), Fault>((c@, e@, n as nat)),
                Err(f) => peel_domains(
                    sem_at(self@, self.budget),
                    m,
                    ctx@,
                    t@,
                    bound@,
                    0,
                    STEP_LIMIT as nat,
                ) == Err::<(Seq<Term>, Term, nat), Fault>(f@),
            },
    {
        let ghost s = sem_at(self@, self.budget);
        let mut c = ctx.clone();
        let mut cur = t.clone();
        let mut peeled: u32 = 0;
        loop
            invariant
                peeled <= STEP_LIMIT,
                s == sem_at(self@, self.budget),
                peel_domains(
                    s,
                    m,
                    c@,
                    cur@,
                    bound@,
                    peeled as nat,
                    (STEP_LIMIT - peeled) as nat,
                ) == peel_domains(s, m, ctx@, t@, bound@, 0, STEP_LIMIT as nat),
            decreases STEP_LIMIT - peeled,
        {
            let next = match cur.data() {
                ExprData::Pi(_, dom, body) => Some((dom.clone(), body.clone())),
                _ => None,
            };
            match next {
                None => {
                    return Ok((c, cur, peeled));
                },
                Some((dom, body)) => {
                    if occurs_any(&dom, bound) {
                        return reject("non-positive (negative) occurrence in constructor argument");
                    }
                    c.push(dom);
                    let w = self.positivity_whnf(m, &c, &body)?;
                    if peeled == STEP_LIMIT {
                        return decline("WHNF step limit");
                    }
                    cur = w;
                    peeled = peeled + 1;
                },
            }
        }
    }

    /// Whether arguments are the parameters of the scope.
    pub(crate) fn args_are_params(&self, m: Mode, ctx: &Ctx, args: &Vec<Expr>, n: u32) -> (r: R<
        bool,
    >)
        requires
            n <= args.len(),
        ensures
            res(r) == are_params(
                sem_at(self@, self.budget),
                m,
                ctx@,
                args.deep_view(),
                0,
                n as nat,
            ),
    {
        let ghost s = sem_at(self@, self.budget);
        let ghost av = args.deep_view();
        let mut i: u32 = 0;
        while i < n
            invariant
                i <= n <= args.len(),
                av == args.deep_view(),
                s == sem_at(self@, self.budget),
                are_params(s, m, ctx@, av, i as nat, n as nat) == are_params(
                    s,
                    m,
                    ctx@,
                    av,
                    0,
                    n as nat,
                ),
            decreases n - i,
        {
            let want = mk_param_var(ctx.len(), i);
            if !self.defeq_at(self.budget, m, ctx, &args[i as usize], &want)? {
                return Ok(false);
            }
            i = i + 1;
        }
        Ok(true)
    }

    /// A recursive occurrence: at the group's own parameters, and nowhere inside.
    pub fn check_uniform_i(&self, m: Mode, ctx: &Ctx, args: &Vec<Expr>, p: &Bound) -> (r: R<()>)
        ensures
            res(r) == uniform_spec(
                sem_at(self@, self.budget),
                m,
                ctx@,
                args.deep_view(),
                p@.bound,
                p.num_params,
            ),
    {
        assert(args.len() == args.deep_view().len());
        if occurs_in(args, &p.names) {
            return reject("nested inductive occurrence in an index");
        }
        if (args.len() as u64) < (p.num_params as u64) {
            return reject("nested inductive applied to too few parameters");
        }
        if !self.args_are_params(m, ctx, args, p.num_params)? {
            return reject("non-uniform nested inductive parameter");
        }
        Ok(())
    }

    fn visited(
        &self,
        m: Mode,
        ctx: &Ctx,
        v: &Vec<(u32, Vec<Expr>)>,
        f: u32,
        params: &Vec<Expr>,
    ) -> (r: R<bool>)
        ensures
            res(r) == is_visited(
                sem_at(self@, self.budget),
                m,
                ctx@,
                v.deep_view(),
                f,
                params.deep_view(),
                0,
            ),
    {
        let ghost s = sem_at(self@, self.budget);
        let ghost vv = v.deep_view();
        let ghost pv = params.deep_view();
        let mut i: usize = 0;
        while i < v.len()
            invariant
                i <= v.len(),
                vv == v.deep_view(),
                pv == params.deep_view(),
                s == sem_at(self@, self.budget),
                is_visited(s, m, ctx@, vv, f, pv, i as nat) == is_visited(
                    s,
                    m,
                    ctx@,
                    vv,
                    f,
                    pv,
                    0,
                ),
            decreases v.len() - i,
        {
            assert(vv[i as int] == (v@[i as int].0, v@[i as int].1.deep_view()));
            if v[i].0 == f {
                if self.pairwise_args(self.budget, m, ctx, &v[i].1, params)? {
                    return Ok(true);
                }
            }
            i = i + 1;
        }
        Ok(false)
    }

    /// Whether an argument type is positive, through at most `n` nested types.
    pub fn check_arg_positive_in(
        &self,
        m: Mode,
        ctx: &Ctx,
        ty: &Expr,
        p: &Bound,
        v: &Vec<(u32, Vec<Expr>)>,
        n: u32,
    ) -> (r: R<()>)
        ensures
            res(r) == arg_positive(
                self@,
                sem_at(self@, self.budget),
                m,
                ctx@,
                ty@,
                p@,
                v.deep_view(),
                n as nat,
            ),
        decreases n, 6int,
    {
        let w = self.positivity_whnf(m, ctx, ty)?;
        let (c, t, peeled) = self.peel_arg_domains(m, ctx, &w, &p.names)?;
        let v2 = shift_visiting(v, peeled as i64);
        self.check_positive_spine(m, &c, &t, p, &v2, n)
    }

    /// Whether the type behind the domains of an argument type is positive.
    pub fn check_positive_spine(
        &self,
        m: Mode,
        ctx: &Ctx,
        e: &Expr,
        p: &Bound,
        v: &Vec<(u32, Vec<Expr>)>,
        n: u32,
    ) -> (r: R<()>)
        ensures
            res(r) == spine_positive(
                self@,
                sem_at(self@, self.budget),
                m,
                ctx@,
                e@,
                p@,
                v.deep_view(),
                n as nat,
            ),
        decreases n, 5int,
    {
        if !occurs_any(e, &p.names) {
            return Ok(());
        }
        let (head, args) = unfold_apps(e);
        match head.data() {
            ExprData::Const(c, us) => {
                if has_id(&p.names, *c) {
                    self.check_uniform_i(m, ctx, &args, p)
                } else {
                    self.check_nested_functor(m, ctx, *c, us, &args, p, v, n)
                }
            },
            _ => reject("occurrence of inductive type in unsupported position"),
        }
    }

    /// Whether the group occurs positively inside another inductive type.
    pub fn check_nested_functor(
        &self,
        m: Mode,
        ctx: &Ctx,
        f: u32,
        us: &Vec<Level>,
        args: &Vec<Expr>,
        p: &Bound,
        v: &Vec<(u32, Vec<Expr>)>,
        n: u32,
    ) -> (r: R<()>)
        ensures
            res(r) == nested_positive(
                self@,
                sem_at(self@, self.budget),
                m,
                ctx@,
                f,
                us.deep_view(),
                args.deep_view(),
                p@,
                v.deep_view(),
                n as nat,
            ),
        decreases n, 4int,
    {
        assert(args.len() == args.deep_view().len() && us.len() == us.deep_view().len());
        let (np, all, lps) = match self.env.get(f) {
            Some(ConstantInfo::InductiveType { num_params, all, level_params, .. }) => (
                *num_params,
                all,
                level_params,
            ),
            _ => {
                return reject("occurrence of inductive type in unsupported position");
            },
        };
        if (args.len() as u64) < (np as u64) {
            return reject("nested inductive applied to too few parameters");
        }
        if lps.len() != us.len() {
            return reject("nested inductive universe mismatch");
        }
        let params = exprs_between(args, 0, np as usize);
        assert(params.deep_view() =~= args.deep_view().take(np as int));
        let indices = exprs_from(args, np as usize);
        let seen = self.visited(m, ctx, v, f, &params)?;
        if !seen && !occurs_in(&params, &p.names) {
            return reject("occurrence of inductive type in unsupported position");
        }
        if occurs_in(&indices, &p.names) {
            return reject("nested inductive occurrence in an index");
        }
        if seen {
            return Ok(());
        }
        let group: Vec<u32> = if all.len() == 0 {
            let one = vec![f];
            assert(one@ =~= seq![f]);
            one
        } else {
            let copy = all.clone();
            assert(copy@ =~= all@);
            copy
        };
        let v2 = with_group(v, &group, &params);
        self.check_group_positive(m, ctx, &group, us, &params, p, &v2, n)
    }

    fn check_group_positive(
        &self,
        m: Mode,
        ctx: &Ctx,
        group: &Vec<u32>,
        us: &Vec<Level>,
        params: &Vec<Expr>,
        p: &Bound,
        v: &Vec<(u32, Vec<Expr>)>,
        n: u32,
    ) -> (r: R<()>)
        ensures
            res(r) == types_positive(
                self@,
                sem_at(self@, self.budget),
                m,
                ctx@,
                group@,
                0,
                us.deep_view(),
                params.deep_view(),
                p@,
                v.deep_view(),
                n as nat,
            ),
        decreases n, 3int,
    {
        let ghost s = sem_at(self@, self.budget);
        let ghost uv = us.deep_view();
        let ghost pv = params.deep_view();
        let ghost vv = v.deep_view();
        let mut i: usize = 0;
        while i < group.len()
            invariant
                i <= group.len(),
                s == sem_at(self@, self.budget),
                uv == us.deep_view(),
                pv == params.deep_view(),
                vv == v.deep_view(),
                types_positive(
                    self@,
                    s,
                    m,
                    ctx@,
                    group@,
                    i as nat,
                    uv,
                    pv,
                    p@,
                    vv,
                    n as nat,
                ) == types_positive(self@, s, m, ctx@, group@, 0, uv, pv, p@, vv, n as nat),
            decreases group.len() - i,
        {
            match self.env.get(group[i]) {
                Some(ConstantInfo::InductiveType { ctors, .. }) => {
                    self.check_ctors_positive(m, ctx, ctors, us, params, p, v, n)?;
                },
                _ => {},
            }
            i = i + 1;
        }
        Ok(())
    }

    fn check_ctors_positive(
        &self,
        m: Mode,
        ctx: &Ctx,
        ctors: &Vec<u32>,
        us: &Vec<Level>,
        params: &Vec<Expr>,
        p: &Bound,
        v: &Vec<(u32, Vec<Expr>)>,
        n: u32,
    ) -> (r: R<()>)
        ensures
            res(r) == ctors_positive(
                self@,
                sem_at(self@, self.budget),
                m,
                ctx@,
                ctors@,
                0,
                us.deep_view(),
                params.deep_view(),
                p@,
                v.deep_view(),
                n as nat,
            ),
        decreases n, 2int,
    {
        let ghost s = sem_at(self@, self.budget);
        let ghost uv = us.deep_view();
        let ghost pv = params.deep_view();
        let ghost vv = v.deep_view();
        let mut i: usize = 0;
        while i < ctors.len()
            invariant
                i <= ctors.len(),
                s == sem_at(self@, self.budget),
                uv == us.deep_view(),
                pv == params.deep_view(),
                vv == v.deep_view(),
                ctors_positive(
                    self@,
                    s,
                    m,
                    ctx@,
                    ctors@,
                    i as nat,
                    uv,
                    pv,
                    p@,
                    vv,
                    n as nat,
                ) == ctors_positive(self@, s, m, ctx@, ctors@, 0, uv, pv, p@, vv, n as nat),
            decreases ctors.len() - i,
        {
            self.check_specialized_ctor_positive(m, ctx, ctors[i], us, params, p, v, n)?;
            i = i + 1;
        }
        Ok(())
    }

    /// Whether a constructor of another type, at the parameters it is used at,
    /// has positive fields.
    pub fn check_specialized_ctor_positive(
        &self,
        m: Mode,
        ctx: &Ctx,
        c: u32,
        us: &Vec<Level>,
        params: &Vec<Expr>,
        p: &Bound,
        v: &Vec<(u32, Vec<Expr>)>,
        n: u32,
    ) -> (r: R<()>)
        ensures
            res(r) == ctor_positive(
                self@,
                sem_at(self@, self.budget),
                m,
                ctx@,
                c,
                us.deep_view(),
                params.deep_view(),
                p@,
                v.deep_view(),
                n as nat,
            ),
        decreases n, 1int,
    {
        assert(us.len() == us.deep_view().len() && params.len() == params.deep_view().len());
        let (lps, typ, np) = match self.env.get(c) {
            Some(ConstantInfo::Constructor { level_params, typ, num_params, .. }) => (
                level_params,
                typ,
                *num_params,
            ),
            _ => {
                return reject("nested inductive constructor is missing");
            },
        };
        if np as u64 != params.len() as u64 {
            return reject("nested inductive constructor numParams mismatch");
        }
        if lps.len() != us.len() {
            return reject("nested inductive constructor universe mismatch");
        }
        match apply_to_params(&instantiate_level_params(typ, lps, us), params) {
            None => reject("nested inductive constructor is not a function of its parameters"),
            Some(t) => {
                let concl = self.check_fields_positive(m, ctx, &t, p, v, n)?;
                self.check_conclusion(&concl, &p.names)
            },
        }
    }

    fn check_fields_positive(
        &self,
        m: Mode,
        ctx: &Ctx,
        t: &Expr,
        p: &Bound,
        v: &Vec<(u32, Vec<Expr>)>,
        n: u32,
    ) -> (r: R<Expr>)
        ensures
            res(r) == fields_positive(
                self@,
                sem_at(self@, self.budget),
                m,
                ctx@,
                t@,
                p@,
                v.deep_view(),
                n as nat,
            ),
        decreases n, 0int,
    {
        let ghost s = sem_at(self@, self.budget);
        let mut c = ctx.clone();
        let mut cur = t.clone();
        let mut under = shift_visiting(v, 0);
        proof {
            law_shift_visiting_zero(v.deep_view());
        }
        loop
            invariant
                s == sem_at(self@, self.budget),
                fields_positive(self@, s, m, c@, cur@, p@, under.deep_view(), n as nat)
                    == fields_positive(self@, s, m, ctx@, t@, p@, v.deep_view(), n as nat),
            decreases tree_size(cur@),
        {
            let next = match cur.data() {
                ExprData::Pi(_, dom, body) => Some((dom.clone(), body.clone())),
                _ => None,
            };
            match next {
                None => {
                    return Ok(cur);
                },
                Some((dom, body)) => {
                    if n == 0 {
                        return decline("positivity depth limit");
                    }
                    self.check_arg_positive_in(m, &c, &dom, p, &under, n - 1)?;
                    c.push(dom);
                    under = shift_visiting(&under, 1);
                    cur = body;
                },
            }
        }
    }

    fn check_conclusion(&self, e: &Expr, bound: &Vec<u32>) -> (r: R<()>)
        ensures
            res(r) == conclusion_positive(self@, e@, bound@),
    {
        let (head, args) = unfold_apps(e);
        assert(args.len() == args.deep_view().len());
        let np = match head.data() {
            ExprData::Const(c, _) => match self.env.get(*c) {
                Some(ConstantInfo::InductiveType { num_params, .. }) => Some(*num_params),
                _ => None,
            },
            _ => None,
        };
        match np {
            Some(k) => {
                if k as u64 <= args.len() as u64 && occurs_in(
                    &exprs_from(&args, k as usize),
                    bound,
                ) {
                    return reject("nested inductive occurrence in an index");
                }
                Ok(())
            },
            None => {
                if occurs_any(e, bound) {
                    return reject("occurrence of inductive type in unsupported position");
                }
                Ok(())
            },
        }
    }
}

fn with_group(v: &Vec<(u32, Vec<Expr>)>, group: &Vec<u32>, params: &Vec<Expr>) -> (r: Vec<
    (u32, Vec<Expr>),
>)
    ensures
        r.deep_view() == v.deep_view() + Seq::new(
            group@.len(),
            |i: int| (group@[i], params.deep_view()),
        ),
{
    let ghost pv = params.deep_view();
    let mut out = shift_visiting(v, 0);
    proof {
        law_shift_visiting_zero(v.deep_view());
    }
    let mut i: usize = 0;
    assert(out.deep_view() =~= v.deep_view() + Seq::new(0, |j: int| (group@[j], pv)));
    while i < group.len()
        invariant
            i <= group.len(),
            pv == params.deep_view(),
            out.deep_view() == v.deep_view() + Seq::new(i as nat, |j: int| (group@[j], pv)),
        decreases group.len() - i,
    {
        let ghost before = out.deep_view();
        let ps = clone_exprs(params);
        out.push((group[i], ps));
        assert(out.deep_view() =~= before.push((group@[i as int], pv)));
        assert(out.deep_view() =~= v.deep_view() + Seq::new(
            (i + 1) as nat,
            |j: int| (group@[j], pv),
        ));
        i = i + 1;
    }
    out
}

} // verus!
