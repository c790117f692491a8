//! The members of a reconstructed recursor group: the types being defined, and
//! the instances of earlier types that they are nested in.

use crate::conv::pairwise;
use crate::ctx::Ctx;
use crate::env::{find, ConstantInfo, Info};
use crate::errors::{decline, reject, res, Fault, R};
use crate::expr::{
    bvar, clone_exprs, clone_levels, exprs_between, exprs_from, has_bvar_in_range, instantiate,
    instantiate_level_params, pi, plug, rec_exprs_eq, spine_args, spine_head, subst_params,
    unfold_apps, uses_between, BinderInfo, Expr, ExprData, Term,
};
use crate::inductive::same_ids;
use crate::iota::{has_id, lift_all, shift_exprs};
use crate::judge::sem_at;
use crate::kernel::{Checker, Mode, Res, Sem, K, STEP_LIMIT};
use crate::level::{levels_def_eq, levels_same, univs_eq, Level, Univ};
use crate::lookup::name_of;
use crate::reduce::{ensure_pi_spec, open_spec, reversed_exprs};
use crate::text::join;
use vstd::prelude::*;

verus! {

/// A binder of a telescope.
pub struct RecBinder {
    pub info: BinderInfo,
    pub typ: Expr,
}

/// The mathematical reading of a [`RecBinder`].
pub struct BinderT {
    pub info: BinderInfo,
    pub typ: Term,
}

impl DeepView for RecBinder {
    type V = BinderT;

    open spec fn deep_view(&self) -> BinderT {
        BinderT { info: self.info, typ: self.typ@ }
    }
}

/// A constructor of a member.
pub struct RecConstructor {
    pub name: u32,
    pub levels: Vec<Level>,
    pub typ: Expr,
}

/// The mathematical reading of a [`RecConstructor`].
pub struct RecCtorT {
    pub name: u32,
    pub levels: Seq<Univ>,
    pub typ: Term,
}

impl DeepView for RecConstructor {
    type V = RecCtorT;

    open spec fn deep_view(&self) -> RecCtorT {
        RecCtorT { name: self.name, levels: self.levels.deep_view(), typ: self.typ@ }
    }
}

/// A member of a recursor group: a type at fixed levels and parameters.
pub struct RecMember {
    pub source_name: u32,
    pub source_levels: Vec<Level>,
    pub fixed_params: Vec<Expr>,
    pub typ: Expr,
    pub num_indices: u32,
    pub ctors: Vec<RecConstructor>,
}

/// The mathematical reading of a [`RecMember`].
pub struct MemberT {
    pub source_name: u32,
    pub source_levels: Seq<Univ>,
    pub fixed_params: Seq<Term>,
    pub typ: Term,
    pub num_indices: u32,
    pub ctors: Seq<RecCtorT>,
}

impl DeepView for RecMember {
    type V = MemberT;

    open spec fn deep_view(&self) -> MemberT {
        MemberT {
            source_name: self.source_name,
            source_levels: self.source_levels.deep_view(),
            fixed_params: self.fixed_params.deep_view(),
            typ: self.typ@,
            num_indices: self.num_indices,
            ctors: self.ctors.deep_view(),
        }
    }
}

/// A function type over the binders, the first one outermost.
pub open spec fn close_pis(binders: Seq<BinderT>, result: Term) -> Term
    decreases binders.len(),
{
    if binders.len() == 0 {
        result
    } else {
        close_pis(
            binders.drop_last(),
            Term::Pi(binders.last().info, Box::new(binders.last().typ), Box::new(result)),
        )
    }
}

/// A function type over the binders, the first one outermost.
pub fn close_rec_telescope(binders: &Vec<RecBinder>, result: Expr) -> (r: Expr)
    ensures
        r@ == close_pis(binders.deep_view(), result@),
{
    let ghost bv = binders.deep_view();
    let mut out = result;
    let mut i: usize = binders.len();
    assert(bv.take(i as int) =~= bv);
    while i > 0
        invariant
            i <= binders.len(),
            bv == binders.deep_view(),
            close_pis(bv.take(i as int), out@) == close_pis(bv, result@),
        decreases i,
    {
        i = i - 1;
        assert(bv.take(i + 1).drop_last() =~= bv.take(i as int));
        out = pi(binders[i].info, binders[i].typ.clone(), out);
    }
    out
}

/// The first binder of a closed telescope is the outermost one.
pub proof fn law_close_telescope(binders: Seq<BinderT>, result: Term)
    requires
        binders.len() > 0,
    ensures
        close_pis(binders, result) == Term::Pi(
            binders[0].info,
            Box::new(binders[0].typ),
            Box::new(close_pis(binders.skip(1), result)),
        ),
    decreases binders.len(),
{
    let inner = Term::Pi(binders.last().info, Box::new(binders.last().typ), Box::new(result));
    if binders.len() == 1 {
        assert(binders.drop_last() =~= Seq::<BinderT>::empty());
        assert(binders.skip(1) =~= Seq::<BinderT>::empty());
        assert(close_pis(Seq::<BinderT>::empty(), inner) == inner);
    } else {
        law_close_telescope(binders.drop_last(), inner);
        assert(binders.drop_last().skip(1) =~= binders.skip(1).drop_last());
        assert(binders.skip(1).last() == binders.last());
    }
}

/// The binders of the parameters, behind those collected.
pub open spec fn param_binders(
    k: K,
    s: Sem,
    m: Mode,
    ctx: Seq<Term>,
    t: Term,
    n: nat,
    acc: Seq<BinderT>,
) -> Res<Seq<BinderT>>
    decreases n,
{
    if n == 0 {
        Ok(acc)
    } else {
        match ensure_pi_spec(k, s, m, ctx, t) {
            Err(f) => Err(f),
            Ok((bi, dom, body)) => param_binders(
                k,
                s,
                m,
                ctx.push(dom),
                body,
                (n - 1) as nat,
                acc.push(BinderT { info: bi, typ: dom }),
            ),
        }
    }
}

/// The innermost `n` variables, the outermost of them first.
pub open spec fn down_vars(n: nat) -> Seq<Term> {
    Seq::new(n, |i: int| Term::BVar(crate::expr::clamp_index(n - 1 - i)))
}

/// The constructors from position `i` on as those of a member, behind those
/// collected.
pub open spec fn own_ctors(
    k: K,
    ctors: Seq<u32>,
    lps: Seq<u32>,
    levels: Seq<Univ>,
    i: nat,
    acc: Seq<RecCtorT>,
) -> Res<Seq<RecCtorT>>
    decreases ctors.len() - i,
{
    if i >= ctors.len() {
        Ok(acc)
    } else {
        match find(k.env, ctors[i as int]) {
            Some(Info::Constructor { typ, .. }) => own_ctors(
                k,
                ctors,
                lps,
                levels,
                i + 1,
                acc.push(
                    RecCtorT { name: ctors[i as int], levels, typ: subst_params(typ, lps, levels) },
                ),
            ),
            _ => Err(
                Fault::Reject("missing original constructor during recursor reconstruction"@),
            ),
        }
    }
}

/// The types of a group from position `i` on as members, behind those collected.
pub open spec fn own_members(
    k: K,
    all: Seq<u32>,
    num_params: u32,
    lps: Seq<u32>,
    levels: Seq<Univ>,
    i: nat,
    acc: Seq<MemberT>,
) -> Res<Seq<MemberT>>
    decreases all.len() - i,
{
    if i >= all.len() {
        Ok(acc)
    } else {
        match find(k.env, all[i as int]) {
            Some(Info::InductiveType { typ, num_indices, ctors, .. }) => match own_ctors(
                k,
                ctors,
                lps,
                levels,
                0,
                Seq::empty(),
            ) {
                Err(f) => Err(f),
                Ok(cs) => own_members(
                    k,
                    all,
                    num_params,
                    lps,
                    levels,
                    i + 1,
                    acc.push(
                        MemberT {
                            source_name: all[i as int],
                            source_levels: levels,
                            fixed_params: down_vars(num_params as nat),
                            typ: subst_params(typ, lps, levels),
                            num_indices,
                            ctors: cs,
                        },
                    ),
                ),
            },
            _ => Err(
                Fault::Reject("missing original inductive during recursor reconstruction"@),
            ),
        }
    }
}

/// A type of an earlier group at fixed levels and parameters, under the current
/// parameters.
#[verifier::opaque]
pub open spec fn specialized(
    k: K,
    s: Sem,
    m: Mode,
    typ: Term,
    lps: Seq<u32>,
    levels: Seq<Univ>,
    num_params: u32,
    fixed: Seq<Term>,
    current: Seq<BinderT>,
) -> Res<Term> {
    if lps.len() != levels.len() || fixed.len() != num_params {
        Err(Fault::Reject("nested inductive specialization has the wrong arity"@))
    } else {
        match open_spec(
            k,
            s,
            m,
            Seq::empty(),
            subst_params(typ, lps, levels),
            num_params as nat,
        ) {
            Err(f) => Err(f),
            Ok((_, t)) => Ok(close_pis(current, plug(t, fixed.reverse(), 0))),
        }
    }
}

/// The indices of a term that is a member, applied, in a scope of the given
/// depth.
#[verifier::opaque]
pub open spec fn prefix_match(mb: MemberT, e: Term, np: u32, depth: nat) -> Option<Seq<Term>> {
    let args = spine_args(e);
    let n = mb.fixed_params.len();
    match spine_head(e) {
        Term::Const(c, us) => if c == mb.source_name && us == mb.source_levels && args.len() >= n
            && depth >= np && args.take(n as int) == lift_all(mb.fixed_params, depth - np) {
            Some(args.skip(n as int))
        } else {
            None
        },
        _ => None,
    }
}

/// The first member from position `i` on that a term is, with the indices.
pub open spec fn member_target(members: Seq<MemberT>, e: Term, np: u32, depth: nat, i: nat) -> Option<
    (nat, Seq<Term>),
>
    decreases members.len() - i,
{
    if i >= members.len() {
        None
    } else {
        match prefix_match(members[i as int], e, np, depth) {
            Some(ixs) => if ixs.len() == members[i as int].num_indices {
                Some((i, ixs))
            } else {
                member_target(members, e, np, depth, i + 1)
            },
            None => member_target(members, e, np, depth, i + 1),
        }
    }
}

/// The first member from position `i` on that an applied constant is the same as,
/// with the indices.
pub open spec fn member_same(
    s: Sem,
    m: Mode,
    ctx: Seq<Term>,
    members: Seq<MemberT>,
    name: u32,
    us: Seq<Univ>,
    args: Seq<Term>,
    by: int,
    i: nat,
) -> Res<Option<(nat, Seq<Term>)>>
    decreases members.len() - i,
{
    if i >= members.len() {
        Ok(None)
    } else {
        let mb = members[i as int];
        let n = mb.fixed_params.len() as int;
        if name == mb.source_name && univs_eq(us, mb.source_levels) && args.len() == n
            + mb.num_indices {
            match pairwise(s, m, ctx, args.take(n), lift_all(mb.fixed_params, by), 0) {
                Err(f) => Err(f),
                Ok(true) => Ok(Some((i, args.skip(n)))),
                Ok(false) => member_same(s, m, ctx, members, name, us, args, by, i + 1),
            }
        } else {
            member_same(s, m, ctx, members, name, us, args, by, i + 1)
        }
    }
}

/// The first member that a term reduces to, with the indices.
#[verifier::opaque]
pub open spec fn target_same(
    s: Sem,
    m: Mode,
    ctx: Seq<Term>,
    members: Seq<MemberT>,
    e: Term,
    np: u32,
) -> Res<Option<(nat, Seq<Term>)>> {
    match (s.whnf)(m, ctx, e) {
        Err(f) => Err(f),
        Ok(w) => match spine_head(w) {
            Term::Const(c, us) => member_same(
                s,
                m,
                ctx,
                members,
                c,
                us,
                spine_args(w),
                ctx.len() - np,
                0,
            ),
            _ => Ok(None),
        },
    }
}

/// One binder further down.
pub open spec fn deeper(d: u32) -> u32 {
    if d == u32::MAX {
        d
    } else {
        (d + 1) as u32
    }
}

/// Whether a term is one of the members, applied.
pub open spec fn is_some_member(members: Seq<MemberT>, e: Term, np: u32, depth: nat) -> bool {
    exists|i: int| 0 <= i < members.len() && prefix_match(#[trigger] members[i], e, np, depth) is Some
}

/// Whether a type being defined or a member occurs in a term.
pub open spec fn mentions_member(
    e: Term,
    local: u32,
    np: u32,
    names: Seq<u32>,
    members: Seq<MemberT>,
) -> bool
    decreases e,
{
    ||| (e matches Term::Const(n, _) && names.contains(n))
    ||| is_some_member(members, e, np, (np + local) as nat)
    ||| match e {
        Term::App(f, a) => mentions_member(*f, local, np, names, members) || mentions_member(
            *a,
            local,
            np,
            names,
            members,
        ),
        Term::Lam(_, t, b) => mentions_member(*t, local, np, names, members) || mentions_member(
            *b,
            deeper(local),
            np,
            names,
            members,
        ),
        Term::Pi(_, t, b) => mentions_member(*t, local, np, names, members) || mentions_member(
            *b,
            deeper(local),
            np,
            names,
            members,
        ),
        Term::Let(t, v, b) => mentions_member(*t, local, np, names, members) || mentions_member(
            *v,
            local,
            np,
            names,
            members,
        ) || mentions_member(*b, deeper(local), np, names, members),
        Term::Proj(_, _, v) => mentions_member(*v, local, np, names, members),
        _ => false,
    }
}

/// Whether a member occurs in one of the terms.
pub open spec fn some_mentions(
    ts: Seq<Term>,
    local: u32,
    np: u32,
    names: Seq<u32>,
    members: Seq<MemberT>,
) -> bool {
    exists|i: int|
        0 <= i < ts.len() && mentions_member(#[trigger] ts[i], local, np, names, members)
}

/// Whether one of the terms uses a variable bound inside the constructor.
pub open spec fn some_local(ts: Seq<Term>, local: u32) -> bool {
    exists|i: int| 0 <= i < ts.len() && uses_between(#[trigger] ts[i], 0, local as nat, 0)
}

/// An instance of an earlier type with a member among its parameters.
pub struct NestedT {
    pub levels: Seq<Univ>,
    pub fixed: Seq<Term>,
    pub name: u32,
    pub all: Seq<u32>,
    pub num_params: u32,
}

/// What is said of an instance whose parameters are not fixed.
pub open spec fn local_params_text(name: Seq<char>) -> Seq<char> {
    "invalid nested inductive datatype `"@ + name
        + "`: parameters contain constructor-local variables"@
}

/// The instance of an earlier type that a term is, where a member is among its
/// parameters.
#[verifier::opaque]
pub open spec fn nested_instance(
    k: K,
    e: Term,
    local: u32,
    np: u32,
    names: Seq<u32>,
    members: Seq<MemberT>,
) -> Res<Option<NestedT>> {
    if !(e is App) {
        Ok(None)
    } else {
        match spine_head(e) {
            Term::Const(c, us) => match find(k.env, c) {
                Some(Info::InductiveType { all, num_params, .. }) => if names.contains(c)
                    || spine_args(e).len() < num_params {
                    Ok(None)
                } else {
                    let ps = spine_args(e).take(num_params as int);
                    if !some_mentions(ps, local, np, names, members) {
                        Ok(None)
                    } else if some_local(ps, local) {
                        Err(Fault::Reject(local_params_text(name_of(k, c))))
                    } else {
                        Ok(
                            Some(
                                NestedT {
                                    levels: us,
                                    fixed: lift_all(ps, -(local as int)),
                                    name: c,
                                    all,
                                    num_params,
                                },
                            ),
                        )
                    }
                },
                _ => Ok(None),
            },
            _ => Ok(None),
        }
    }
}

/// Whether an instance is among the members already.
pub open spec fn is_known(members: Seq<MemberT>, o: NestedT) -> bool {
    exists|i: int|
        0 <= i < members.len() && #[trigger] members[i].source_name == o.name
            && members[i].source_levels == o.levels && members[i].fixed_params == o.fixed
}

/// The constructors from position `i` on at an instance, behind those collected.
pub open spec fn nested_ctors(
    k: K,
    s: Sem,
    m: Mode,
    ctors: Seq<u32>,
    num_params: u32,
    o: NestedT,
    current: Seq<BinderT>,
    i: nat,
    acc: Seq<RecCtorT>,
) -> Res<Seq<RecCtorT>>
    decreases ctors.len() - i,
{
    if i >= ctors.len() {
        Ok(acc)
    } else {
        match find(k.env, ctors[i as int]) {
            Some(Info::Constructor { level_params, typ, num_params: cnp, .. }) => if cnp
                != num_params {
                Err(Fault::Reject("prior nested constructor has inconsistent parameters"@))
            } else {
                match specialized(
                    k,
                    s,
                    m,
                    typ,
                    level_params,
                    o.levels,
                    num_params,
                    o.fixed,
                    current,
                ) {
                    Err(f) => Err(f),
                    Ok(t) => nested_ctors(
                        k,
                        s,
                        m,
                        ctors,
                        num_params,
                        o,
                        current,
                        i + 1,
                        acc.push(RecCtorT { name: ctors[i as int], levels: o.levels, typ: t }),
                    ),
                }
            },
            _ => Err(Fault::Reject("missing prior constructor during nested reconstruction"@)),
        }
    }
}

/// A type of an earlier group at an instance.
#[verifier::opaque]
pub open spec fn nested_member(
    k: K,
    s: Sem,
    m: Mode,
    name: u32,
    o: NestedT,
    current: Seq<BinderT>,
) -> Res<MemberT> {
    match find(k.env, name) {
        Some(
            Info::InductiveType { level_params, typ, num_params, num_indices, ctors, all, .. },
        ) => if all != o.all {
            Err(Fault::Reject("invalid prior mutual group during nested reconstruction"@))
        } else if num_params != o.num_params {
            Err(Fault::Reject("inconsistent parameter count in prior nested mutual group"@))
        } else {
            match specialized(
                k,
                s,
                m,
                typ,
                level_params,
                o.levels,
                num_params,
                o.fixed,
                current,
            ) {
                Err(f) => Err(f),
                Ok(t) => match nested_ctors(
                    k,
                    s,
                    m,
                    ctors,
                    num_params,
                    o,
                    current,
                    0,
                    Seq::empty(),
                ) {
                    Err(f) => Err(f),
                    Ok(cs) => Ok(
                        MemberT {
                            source_name: name,
                            source_levels: o.levels,
                            fixed_params: o.fixed,
                            typ: t,
                            num_indices,
                            ctors: cs,
                        },
                    ),
                },
            }
        },
        _ => Err(Fault::Reject("invalid prior mutual group during nested reconstruction"@)),
    }
}

/// The members with the types of an instance's group from position `i` on.
pub open spec fn push_nested(
    k: K,
    s: Sem,
    m: Mode,
    o: NestedT,
    current: Seq<BinderT>,
    i: nat,
    members: Seq<MemberT>,
) -> Res<Seq<MemberT>>
    decreases o.all.len() - i,
{
    if i >= o.all.len() {
        Ok(members)
    } else {
        match nested_member(k, s, m, o.all[i as int], o, current) {
            Err(f) => Err(f),
            Ok(mb) => push_nested(k, s, m, o, current, i + 1, members.push(mb)),
        }
    }
}

/// The members with those of an instance's group, unless it is known.
pub open spec fn with_nested(
    k: K,
    s: Sem,
    m: Mode,
    o: NestedT,
    current: Seq<BinderT>,
    members: Seq<MemberT>,
) -> Res<Seq<MemberT>> {
    if is_known(members, o) {
        Ok(members)
    } else {
        push_nested(k, s, m, o, current, 0, members)
    }
}

/// What stays the same through the search for nested instances.
pub struct ScanT {
    pub np: u32,
    pub current: Seq<BinderT>,
    pub names: Seq<u32>,
}

/// The members with those of the instances that a term shows.
pub open spec fn scan(
    k: K,
    s: Sem,
    m: Mode,
    e: Term,
    local: u32,
    sc: ScanT,
    members: Seq<MemberT>,
) -> Res<Seq<MemberT>>
    decreases e,
{
    match nested_instance(k, e, local, sc.np, sc.names, members) {
        Err(f) => Err(f),
        Ok(Some(o)) => with_nested(k, s, m, o, sc.current, members),
        Ok(None) => match e {
            Term::App(f, a) => match scan(k, s, m, *f, local, sc, members) {
                Err(x) => Err(x),
                Ok(m1) => scan(k, s, m, *a, local, sc, m1),
            },
            Term::Lam(_, t, b) => match scan(k, s, m, *t, local, sc, members) {
                Err(x) => Err(x),
                Ok(m1) => scan(k, s, m, *b, deeper(local), sc, m1),
            },
            Term::Pi(_, t, b) => match scan(k, s, m, *t, local, sc, members) {
                Err(x) => Err(x),
                Ok(m1) => scan(k, s, m, *b, deeper(local), sc, m1),
            },
            Term::Let(t, v, b) => match scan(k, s, m, *t, local, sc, members) {
                Err(x) => Err(x),
                Ok(m1) => match scan(k, s, m, *v, local, sc, m1) {
                    Err(x) => Err(x),
                    Ok(m2) => scan(k, s, m, *b, deeper(local), sc, m2),
                },
            },
            Term::Proj(_, _, v) => scan(k, s, m, *v, local, sc, members),
            _ => Ok(members),
        },
    }
}

/// The members with those of the instances that the constructors from position
/// `i` on show.
pub open spec fn scan_ctors(
    k: K,
    s: Sem,
    m: Mode,
    ctors: Seq<RecCtorT>,
    i: nat,
    sc: ScanT,
    members: Seq<MemberT>,
) -> Res<Seq<MemberT>>
    decreases ctors.len() - i,
{
    if i >= ctors.len() {
        Ok(members)
    } else {
        match open_spec(k, s, m, Seq::empty(), ctors[i as int].typ, sc.np as nat) {
            Err(f) => Err(f),
            Ok((_, t)) => match scan(k, s, m, t, 0, sc, members) {
                Err(f) => Err(f),
                Ok(m1) => scan_ctors(k, s, m, ctors, i + 1, sc, m1),
            },
        }
    }
}

/// The members with those of all the instances that the members from position `q`
/// on show, those that come in on the way among them.
pub open spec fn expand(k: K, s: Sem, m: Mode, q: nat, sc: ScanT, members: Seq<MemberT>, n: nat) -> Res<
    Seq<MemberT>,
>
    decreases n,
{
    if q >= members.len() {
        Ok(members)
    } else if n == 0 {
        Err(Fault::Decline("nested recursor expansion limit"@))
    } else {
        match scan_ctors(k, s, m, members[q as int].ctors, 0, sc, members) {
            Err(f) => Err(f),
            Ok(m1) => expand(k, s, m, q + 1, sc, m1, (n - 1) as nat),
        }
    }
}

fn mk_down_vars(n: u32) -> (r: Vec<Expr>)
    ensures
        r.deep_view() == down_vars(n as nat),
        r.len() == n,
{
    let mut out: Vec<Expr> = Vec::new();
    let mut i: u32 = 0;
    while i < n
        invariant
            i <= n,
            out.len() == i,
            forall|j: int|
                0 <= j < i ==> (#[trigger] out@[j])@ == Term::BVar(
                    crate::expr::clamp_index(n - 1 - j),
                ),
        decreases n - i,
    {
        out.push(bvar(n - 1 - i));
        i = i + 1;
    }
    assert(out.deep_view() =~= down_vars(n as nat));
    out
}

/// The innermost `n` variables, the outermost of them first.
pub(crate) fn vars_down(n: u32) -> (r: Vec<Expr>)
    ensures
        r.deep_view() == down_vars(n as nat),
        r.len() == n,
{
    mk_down_vars(n)
}

impl RecConstructor {
    fn copy(&self) -> (r: RecConstructor)
        ensures
            r.deep_view() == self.deep_view(),
    {
        RecConstructor {
            name: self.name,
            levels: clone_levels(&self.levels),
            typ: self.typ.clone(),
        }
    }
}

fn copy_ctors(v: &Vec<RecConstructor>) -> (r: Vec<RecConstructor>)
    ensures
        r.deep_view() == v.deep_view(),
{
    let mut out: Vec<RecConstructor> = Vec::new();
    let mut i: usize = 0;
    while i < v.len()
        invariant
            i <= v.len(),
            out.len() == i,
            forall|j: int| 0 <= j < i ==> (#[trigger] out@[j]).deep_view() == v@[j].deep_view(),
        decreases v.len() - i,
    {
        out.push(v[i].copy());
        i = i + 1;
    }
    assert(out.deep_view() =~= v.deep_view());
    out
}

/// The indices of a term that is a member, applied, in a scope of the given
/// depth.
pub fn member_prefix_matches_at_depth(mb: &RecMember, e: &Expr, np: u32, depth: u64) -> (r: Option<
    Vec<Expr>,
>)
    requires
        depth <= 0x3_0000_0000,
    ensures
        r.deep_view() == prefix_match(mb.deep_view(), e@, np, depth as nat),
{
    proof {
        reveal(prefix_match);
    }
    let (head, args) = unfold_apps(e);
    assert(args.len() == args.deep_view().len());
    assert(mb.fixed_params.len() == mb.fixed_params.deep_view().len());
    let n: usize = mb.fixed_params.len();
    match head.data() {
        ExprData::Const(c, us) => {
            if *c != mb.source_name || !levels_same(us, &mb.source_levels) || args.len() < n
                || depth < np as u64 {
                return None;
            }
            let front = exprs_between(&args, 0, n);
            assert(front.deep_view() =~= args.deep_view().take(n as int));
            let want = shift_exprs(&mb.fixed_params, (depth - np as u64) as i64);
            if !rec_exprs_eq(&front, &want) {
                return None;
            }
            Some(exprs_from(&args, n))
        },
        _ => None,
    }
}

/// The first member that a term is, with the indices.
pub fn find_member_target(members: &Vec<RecMember>, e: &Expr, np: u32, depth: u64) -> (r: Option<
    (usize, Vec<Expr>),
>)
    requires
        depth <= 0x3_0000_0000,
    ensures
        match member_target(members.deep_view(), e@, np, depth as nat, 0) {
            Some((i, ixs)) => r matches Some((j, v)) && j as nat == i && v.deep_view() == ixs && i
                < members.len(),
            None => r is None,
        },
{
    let ghost mv = members.deep_view();
    let mut i: usize = 0;
    while i < members.len()
        invariant
            i <= members.len(),
            depth <= 0x3_0000_0000,
            mv == members.deep_view(),
            member_target(mv, e@, np, depth as nat, i as nat) == member_target(
                mv,
                e@,
                np,
                depth as nat,
                0,
            ),
        decreases members.len() - i,
    {
        assert(mv[i as int] == members@[i as int].deep_view());
        match member_prefix_matches_at_depth(&members[i], e, np, depth) {
            Some(ixs) => {
                assert(ixs.len() == ixs.deep_view().len());
                if ixs.len() as u64 == members[i].num_indices as u64 {
                    return Some((i, ixs));
                }
            },
            None => {},
        }
        i = i + 1;
    }
    None
}

fn some_member_matches(members: &Vec<RecMember>, e: &Expr, np: u32, depth: u64) -> (r: bool)
    requires
        depth <= 0x3_0000_0000,
    ensures
        r == is_some_member(members.deep_view(), e@, np, depth as nat),
{
    let ghost mv = members.deep_view();
    let mut i: usize = 0;
    while i < members.len()
        invariant
            i <= members.len(),
            depth <= 0x3_0000_0000,
            mv == members.deep_view(),
            forall|j: int| 0 <= j < i ==> prefix_match(#[trigger] mv[j], e@, np, depth as nat) is None,
        decreases members.len() - i,
    {
        assert(mv[i as int] == members@[i as int].deep_view());
        if member_prefix_matches_at_depth(&members[i], e, np, depth).is_some() {
            assert(prefix_match(mv[i as int], e@, np, depth as nat) is Some);
            return true;
        }
        i = i + 1;
    }
    false
}

fn one_deeper(d: u32) -> (r: u32)
    ensures
        r == deeper(d),
{
    if d == u32::MAX {
        d
    } else {
        d + 1
    }
}

/// Whether a type being defined or a member occurs in a term.
pub fn contains_current_member(
    e: &Expr,
    local: u32,
    np: u32,
    names: &Vec<u32>,
    members: &Vec<RecMember>,
) -> (r: bool)
    ensures
        r == mentions_member(e@, local, np, names@, members.deep_view()),
    decreases e,
{
    match e.data() {
        ExprData::Const(n, _) => {
            if has_id(names, *n) {
                return true;
            }
        },
        _ => {},
    }
    if some_member_matches(members, e, np, np as u64 + local as u64) {
        return true;
    }
    let down = one_deeper(local);
    match e.data() {
        ExprData::App(f, a) => contains_current_member(f, local, np, names, members)
            || contains_current_member(a, local, np, names, members),
        ExprData::Lam(_, t, b) => contains_current_member(t, local, np, names, members)
            || contains_current_member(b, down, np, names, members),
        ExprData::Pi(_, t, b) => contains_current_member(t, local, np, names, members)
            || contains_current_member(b, down, np, names, members),
        ExprData::Let(t, v, b) => contains_current_member(t, local, np, names, members)
            || contains_current_member(v, local, np, names, members) || contains_current_member(
            b,
            down,
            np,
            names,
            members,
        ),
        ExprData::Proj(_, _, v) => contains_current_member(v, local, np, names, members),
        _ => false,
    }
}

fn any_mentions(
    ts: &Vec<Expr>,
    local: u32,
    np: u32,
    names: &Vec<u32>,
    members: &Vec<RecMember>,
) -> (r: bool)
    ensures
        r == some_mentions(ts.deep_view(), local, np, names@, members.deep_view()),
{
    let ghost tv = ts.deep_view();
    let ghost mv = members.deep_view();
    let mut i: usize = 0;
    while i < ts.len()
        invariant
            i <= ts.len(),
            tv == ts.deep_view(),
            mv == members.deep_view(),
            forall|j: int|
                0 <= j < i ==> !mentions_member(#[trigger] tv[j], local, np, names@, mv),
        decreases ts.len() - i,
    {
        if contains_current_member(&ts[i], local, np, names, members) {
            assert(mentions_member(tv[i as int], local, np, names@, mv));
            return true;
        }
        i = i + 1;
    }
    false
}

fn any_local(ts: &Vec<Expr>, local: u32) -> (r: bool)
    ensures
        r == some_local(ts.deep_view(), local),
{
    let ghost tv = ts.deep_view();
    let mut i: usize = 0;
    while i < ts.len()
        invariant
            i <= ts.len(),
            tv == ts.deep_view(),
            forall|j: int| 0 <= j < i ==> !uses_between(#[trigger] tv[j], 0, local as nat, 0),
        decreases ts.len() - i,
    {
        if has_bvar_in_range(&ts[i], 0, local, 0) {
            assert(uses_between(tv[i as int], 0, local as nat, 0));
            return true;
        }
        i = i + 1;
    }
    false
}

/// An instance of an earlier type with a member among its parameters.
pub struct NestedOccurrence {
    pub levels: Vec<Level>,
    pub fixed: Vec<Expr>,
    pub name: u32,
    pub all: Vec<u32>,
    pub num_params: u32,
}

impl DeepView for NestedOccurrence {
    type V = NestedT;

    open spec fn deep_view(&self) -> NestedT {
        NestedT {
            levels: self.levels.deep_view(),
            fixed: self.fixed.deep_view(),
            name: self.name,
            all: self.all@,
            num_params: self.num_params,
        }
    }
}

fn knows(members: &Vec<RecMember>, o: &NestedOccurrence) -> (r: bool)
    ensures
        r == is_known(members.deep_view(), o.deep_view()),
{
    let ghost mv = members.deep_view();
    let ghost ov = o.deep_view();
    let mut i: usize = 0;
    while i < members.len()
        invariant
            i <= members.len(),
            mv == members.deep_view(),
            ov == o.deep_view(),
            forall|j: int|
                0 <= j < i ==> !(#[trigger] mv[j].source_name == ov.name && mv[j].source_levels
                    == ov.levels && mv[j].fixed_params == ov.fixed),
        decreases members.len() - i,
    {
        assert(mv[i as int] == members@[i as int].deep_view());
        if members[i].source_name == o.name && levels_same(&members[i].source_levels, &o.levels)
            && rec_exprs_eq(&members[i].fixed_params, &o.fixed) {
            assert(mv[i as int].source_name == ov.name);
            return true;
        }
        i = i + 1;
    }
    false
}

/// What stays the same through the search for nested instances.
pub struct Scan {
    pub np: u32,
    pub current: Vec<RecBinder>,
    pub names: Vec<u32>,
}

impl View for Scan {
    type V = ScanT;

    open spec fn view(&self) -> ScanT {
        ScanT { np: self.np, current: self.current.deep_view(), names: self.names@ }
    }
}

impl<'e> Checker<'e> {
    /// The binders of the parameters of a type.
    pub fn rec_params(&self, m: Mode, typ: &Expr, num_params: u32) -> (r: R<Vec<RecBinder>>)
        ensures
            res(r) == param_binders(
                self@,
                sem_at(self@, self.budget),
                m,
                Seq::empty(),
                typ@,
                num_params as nat,
                Seq::empty(),
            ),
            r matches Ok(v) ==> v.len() == num_params,
    {
        let ghost s = sem_at(self@, self.budget);
        let mut c = Ctx::new();
        let mut cur = typ.clone();
        let mut out: Vec<RecBinder> = Vec::new();
        let mut i: u32 = 0;
        assert(c@ =~= Seq::<Term>::empty());
        assert(out.deep_view() =~= Seq::<BinderT>::empty());
        while i < num_params
            invariant
                i <= num_params,
                out.len() == i,
                s == sem_at(self@, self.budget),
                param_binders(
                    self@,
                    s,
                    m,
                    c@,
                    cur@,
                    (num_params - i) as nat,
                    out.deep_view(),
                ) == param_binders(
                    self@,
                    s,
                    m,
                    Seq::empty(),
                    typ@,
                    num_params as nat,
                    Seq::empty(),
                ),
            decreases num_params - i,
        {
            let (bi, dom, body) = self.ensure_pi_at(self.budget, m, &c, &cur)?;
            let ghost before = out.deep_view();
            out.push(RecBinder { info: bi, typ: dom.clone() });
            assert(out.deep_view() =~= before.push(BinderT { info: bi, typ: dom@ }));
            c.push(dom);
            cur = body;
            i = i + 1;
        }
        Ok(out)
    }

    fn original_ctors(&self, ctors: &Vec<u32>, lps: &Vec<u32>, levels: &Vec<Level>) -> (r: R<
        Vec<RecConstructor>,
    >)
        ensures
            res(r) == own_ctors(self@, ctors@, lps@, levels.deep_view(), 0, Seq::empty()),
    {
        let ghost lv = levels.deep_view();
        let mut out: Vec<RecConstructor> = Vec::new();
        let mut i: usize = 0;
        assert(out.deep_view() =~= Seq::<RecCtorT>::empty());
        while i < ctors.len()
            invariant
                i <= ctors.len(),
                lv == levels.deep_view(),
                own_ctors(self@, ctors@, lps@, lv, i as nat, out.deep_view()) == own_ctors(
                    self@,
                    ctors@,
                    lps@,
                    lv,
                    0,
                    Seq::empty(),
                ),
            decreases ctors.len() - i,
        {
            match self.env.get(ctors[i]) {
                Some(ConstantInfo::Constructor { typ, .. }) => {
                    let c = RecConstructor {
                        name: ctors[i],
                        levels: clone_levels(levels),
                        typ: instantiate_level_params(typ, lps, levels),
                    };
                    let ghost before = out.deep_view();
                    let ghost cv = c.deep_view();
                    out.push(c);
                    assert(out.deep_view() =~= before.push(cv));
                },
                _ => {
                    return reject("missing original constructor during recursor reconstruction");
                },
            }
            i = i + 1;
        }
        Ok(out)
    }

    /// The types of a group as members.
    pub fn original_rec_members(
        &self,
        all: &Vec<u32>,
        num_params: u32,
        lps: &Vec<u32>,
        levels: &Vec<Level>,
    ) -> (r: R<Vec<RecMember>>)
        ensures
            res(r) == own_members(
                self@,
                all@,
                num_params,
                lps@,
                levels.deep_view(),
                0,
                Seq::empty(),
            ),
    {
        let ghost lv = levels.deep_view();
        let mut out: Vec<RecMember> = Vec::new();
        let mut i: usize = 0;
        assert(out.deep_view() =~= Seq::<MemberT>::empty());
        while i < all.len()
            invariant
                i <= all.len(),
                lv == levels.deep_view(),
                own_members(
                    self@,
                    all@,
                    num_params,
                    lps@,
                    lv,
                    i as nat,
                    out.deep_view(),
                ) == own_members(self@, all@, num_params, lps@, lv, 0, Seq::empty()),
            decreases all.len() - i,
        {
            match self.env.get(all[i]) {
                Some(ConstantInfo::InductiveType { typ, num_indices, ctors, .. }) => {
                    let cs = self.original_ctors(ctors, lps, levels)?;
                    let mb = RecMember {
                        source_name: all[i],
                        source_levels: clone_levels(levels),
                        fixed_params: mk_down_vars(num_params),
                        typ: instantiate_level_params(typ, lps, levels),
                        num_indices: *num_indices,
                        ctors: cs,
                    };
                    let ghost before = out.deep_view();
                    let ghost mv = mb.deep_view();
                    out.push(mb);
                    assert(out.deep_view() =~= before.push(mv));
                },
                _ => {
                    return reject("missing original inductive during recursor reconstruction");
                },
            }
            i = i + 1;
        }
        Ok(out)
    }

    /// A type of an earlier group at fixed levels and parameters, under the
    /// current parameters.
    pub fn specialize_prior_telescope(
        &self,
        m: Mode,
        typ: &Expr,
        lps: &Vec<u32>,
        levels: &Vec<Level>,
        num_params: u32,
        fixed: &Vec<Expr>,
        current: &Vec<RecBinder>,
    ) -> (r: R<Expr>)
        ensures
            res(r) == specialized(
                self@,
                sem_at(self@, self.budget),
                m,
                typ@,
                lps@,
                levels.deep_view(),
                num_params,
                fixed.deep_view(),
                current.deep_view(),
            ),
    {
        proof {
            reveal(specialized);
        }
        assert(levels.len() == levels.deep_view().len() && fixed.len() == fixed.deep_view().len());
        if lps.len() != levels.len() || fixed.len() as u64 != num_params as u64 {
            return reject("nested inductive specialization has the wrong arity");
        }
        let empty = Ctx::new();
        assert(empty@ =~= Seq::<Term>::empty());
        let start = instantiate_level_params(typ, lps, levels);
        let (_, t) = self.open_binders(self.budget, m, &empty, &start, num_params)?;
        Ok(close_rec_telescope(current, instantiate(&t, &reversed_exprs(fixed))))
    }

    /// The first member that a term reduces to, with the indices.
    pub fn find_member_target_defeq(
        &self,
        m: Mode,
        members: &Vec<RecMember>,
        e: &Expr,
        np: u32,
        ctx: &Ctx,
    ) -> (r: R<Option<(usize, Vec<Expr>)>>)
        requires
            np <= ctx@.len() <= 0x3_0000_0000,
        ensures
            match target_same(
                sem_at(self@, self.budget),
                m,
                ctx@,
                members.deep_view(),
                e@,
                np,
            ) {
                Ok(Some((i, ixs))) => r matches Ok(Some((j, v))) && j as nat == i && v.deep_view()
                    == ixs && i < members.len(),
                Ok(None) => r matches Ok(None),
                Err(f) => r matches Err(x) && x@ == f,
            },
    {
        proof {
            reveal(target_same);
        }
        let ghost s = sem_at(self@, self.budget);
        let ghost mv = members.deep_view();
        let w = self.whnf_at(self.budget, m, ctx, e)?;
        let (head, args) = unfold_apps(&w);
        let ghost av = args.deep_view();
        assert(args.len() == av.len());
        let (c, us) = match head.data() {
            ExprData::Const(c, us) => (*c, us),
            _ => {
                return Ok(None);
            },
        };
        let by: i64 = (ctx.len() as u64 - np as u64) as i64;
        let ghost uv = (**us).deep_view();
        let mut i: usize = 0;
        while i < members.len()
            invariant
                i <= members.len(),
                s == sem_at(self@, self.budget),
                mv == members.deep_view(),
                av == args.deep_view(),
                args.len() == av.len(),
                uv == (**us).deep_view(),
                by == ctx@.len() - np,
                member_same(s, m, ctx@, mv, c, uv, av, by as int, i as nat) == target_same(
                    s,
                    m,
                    ctx@,
                    mv,
                    e@,
                    np,
                ),
            decreases members.len() - i,
        {
            let mb = &members[i];
            assert(mv[i as int] == mb.deep_view());
            assert(mb.fixed_params.len() == mb.fixed_params.deep_view().len());
            let n: usize = mb.fixed_params.len();
            if c == mb.source_name && levels_def_eq(us, &mb.source_levels) && args.len() as u128
                == n as u128 + mb.num_indices as u128 {
                let front = exprs_between(&args, 0, n);
                assert(front.deep_view() =~= av.take(n as int));
                let want = shift_exprs(&mb.fixed_params, by);
                if self.pairwise_args(self.budget, m, ctx, &front, &want)? {
                    return Ok(Some((i, exprs_from(&args, n))));
                }
            }
            i = i + 1;
        }
        Ok(None)
    }

    /// The instance of an earlier type that a term is, where a member is among
    /// its parameters.
    pub fn nested_occurrence(
        &self,
        e: &Expr,
        local: u32,
        np: u32,
        names: &Vec<u32>,
        members: &Vec<RecMember>,
    ) -> (r: R<Option<NestedOccurrence>>)
        ensures
            res(r) == nested_instance(self@, e@, local, np, names@, members.deep_view()),
    {
        proof {
            reveal(nested_instance);
        }
        match e.data() {
            ExprData::App(_, _) => {},
            _ => {
                return Ok(None);
            },
        }
        let (head, args) = unfold_apps(e);
        assert(args.len() == args.deep_view().len());
        match head.data() {
            ExprData::Const(c, us) => match self.env.get(*c) {
                Some(ConstantInfo::InductiveType { all, num_params, .. }) => {
                    if has_id(names, *c) || (args.len() as u64) < (*num_params as u64) {
                        return Ok(None);
                    }
                    let ps = exprs_between(&args, 0, *num_params as usize);
                    assert(ps.deep_view() =~= args.deep_view().take(*num_params as int));
                    if !any_mentions(&ps, local, np, names, members) {
                        return Ok(None);
                    }
                    if any_local(&ps, local) {
                        let front = join("invalid nested inductive datatype `", self.name_str(*c));
                        let msg = join(
                            front.as_str(),
                            "`: parameters contain constructor-local variables",
                        );
                        return reject(msg.as_str());
                    }
                    let group = all.clone();
                    assert(group@ =~= all@);
                    Ok(
                        Some(
                            NestedOccurrence {
                                levels: clone_levels(us),
                                fixed: shift_exprs(&ps, -(local as i64)),
                                name: *c,
                                all: group,
                                num_params: *num_params,
                            },
                        ),
                    )
                },
                _ => Ok(None),
            },
            _ => Ok(None),
        }
    }

    fn instance_ctors(
        &self,
        m: Mode,
        ctors: &Vec<u32>,
        num_params: u32,
        o: &NestedOccurrence,
        current: &Vec<RecBinder>,
    ) -> (r: R<Vec<RecConstructor>>)
        ensures
            res(r) == nested_ctors(
                self@,
                sem_at(self@, self.budget),
                m,
                ctors@,
                num_params,
                o.deep_view(),
                current.deep_view(),
                0,
                Seq::empty(),
            ),
    {
        let ghost s = sem_at(self@, self.budget);
        let ghost ov = o.deep_view();
        let ghost cv = current.deep_view();
        let mut out: Vec<RecConstructor> = Vec::new();
        let mut i: usize = 0;
        assert(out.deep_view() =~= Seq::<RecCtorT>::empty());
        while i < ctors.len()
            invariant
                i <= ctors.len(),
                s == sem_at(self@, self.budget),
                ov == o.deep_view(),
                cv == current.deep_view(),
                nested_ctors(
                    self@,
                    s,
                    m,
                    ctors@,
                    num_params,
                    ov,
                    cv,
                    i as nat,
                    out.deep_view(),
                ) == nested_ctors(self@, s, m, ctors@, num_params, ov, cv, 0, Seq::empty()),
            decreases ctors.len() - i,
        {
            match self.env.get(ctors[i]) {
                Some(ConstantInfo::Constructor { level_params, typ, num_params: cnp, .. }) => {
                    if *cnp != num_params {
                        return reject("prior nested constructor has inconsistent parameters");
                    }
                    let t = self.specialize_prior_telescope(
                        m,
                        typ,
                        level_params,
                        &o.levels,
                        num_params,
                        &o.fixed,
                        current,
                    )?;
                    let c = RecConstructor {
                        name: ctors[i],
                        levels: clone_levels(&o.levels),
                        typ: t,
                    };
                    let ghost before = out.deep_view();
                    let ghost x = c.deep_view();
                    out.push(c);
                    assert(out.deep_view() =~= before.push(x));
                },
                _ => {
                    return reject("missing prior constructor during nested reconstruction");
                },
            }
            i = i + 1;
        }
        Ok(out)
    }

    fn instance_member(&self, m: Mode, name: u32, o: &NestedOccurrence, current: &Vec<RecBinder>) -> (r:
        R<RecMember>)
        ensures
            res(r) == nested_member(
                self@,
                sem_at(self@, self.budget),
                m,
                name,
                o.deep_view(),
                current.deep_view(),
            ),
    {
        proof {
            reveal(nested_member);
        }
        match self.env.get(name) {
            Some(
                ConstantInfo::InductiveType {
                    level_params,
                    typ,
                    num_params,
                    num_indices,
                    ctors,
                    all,
                    ..
                },
            ) => {
                if !same_ids(all, &o.all) {
                    return reject("invalid prior mutual group during nested reconstruction");
                }
                if *num_params != o.num_params {
                    return reject("inconsistent parameter count in prior nested mutual group");
                }
                let t = self.specialize_prior_telescope(
                    m,
                    typ,
                    level_params,
                    &o.levels,
                    *num_params,
                    &o.fixed,
                    current,
                )?;
                let cs = self.instance_ctors(m, ctors, *num_params, o, current)?;
                Ok(
                    RecMember {
                        source_name: name,
                        source_levels: clone_levels(&o.levels),
                        fixed_params: clone_exprs(&o.fixed),
                        typ: t,
                        num_indices: *num_indices,
                        ctors: cs,
                    },
                )
            },
            _ => reject("invalid prior mutual group during nested reconstruction"),
        }
    }

    /// Adds the types of an instance's group to the members, unless it is known.
    pub fn add_nested_specialization(
        &self,
        m: Mode,
        o: &NestedOccurrence,
        current: &Vec<RecBinder>,
        members: Vec<RecMember>,
    ) -> (r: R<Vec<RecMember>>)
        ensures
            res(r) == with_nested(
                self@,
                sem_at(self@, self.budget),
                m,
                o.deep_view(),
                current.deep_view(),
                members.deep_view(),
            ),
    {
        let ghost s = sem_at(self@, self.budget);
        let ghost ov = o.deep_view();
        let ghost cv = current.deep_view();
        let ghost start = members.deep_view();
        if knows(&members, o) {
            return Ok(members);
        }
        let mut out = members;
        let mut i: usize = 0;
        while i < o.all.len()
            invariant
                i <= o.all.len(),
                s == sem_at(self@, self.budget),
                ov == o.deep_view(),
                cv == current.deep_view(),
                start == members.deep_view(),
                push_nested(self@, s, m, ov, cv, i as nat, out.deep_view()) == with_nested(
                    self@,
                    s,
                    m,
                    ov,
                    cv,
                    start,
                ),
            decreases o.all.len() - i,
        {
            let mb = self.instance_member(m, o.all[i], o, current)?;
            let ghost before = out.deep_view();
            let ghost x = mb.deep_view();
            out.push(mb);
            assert(out.deep_view() =~= before.push(x));
            i = i + 1;
        }
        Ok(out)
    }

    /// Adds the groups of the instances that a term shows to the members.
    pub fn scan_nested_expr(
        &self,
        m: Mode,
        e: &Expr,
        local: u32,
        sc: &Scan,
        members: Vec<RecMember>,
    ) -> (r: R<Vec<RecMember>>)
        ensures
            res(r) == scan(
                self@,
                sem_at(self@, self.budget),
                m,
                e@,
                local,
                sc@,
                members.deep_view(),
            ),
        decreases e,
    {
        match self.nested_occurrence(e, local, sc.np, &sc.names, &members)? {
            Some(o) => {
                return self.add_nested_specialization(m, &o, &sc.current, members);
            },
            None => {},
        }
        let down = one_deeper(local);
        match e.data() {
            ExprData::App(f, a) => {
                let m1 = self.scan_nested_expr(m, f, local, sc, members)?;
                self.scan_nested_expr(m, a, local, sc, m1)
            },
            ExprData::Lam(_, t, b) => {
                let m1 = self.scan_nested_expr(m, t, local, sc, members)?;
                self.scan_nested_expr(m, b, down, sc, m1)
            },
            ExprData::Pi(_, t, b) => {
                let m1 = self.scan_nested_expr(m, t, local, sc, members)?;
                self.scan_nested_expr(m, b, down, sc, m1)
            },
            ExprData::Let(t, v, b) => {
                let m1 = self.scan_nested_expr(m, t, local, sc, members)?;
                let m2 = self.scan_nested_expr(m, v, local, sc, m1)?;
                self.scan_nested_expr(m, b, down, sc, m2)
            },
            ExprData::Proj(_, _, v) => self.scan_nested_expr(m, v, local, sc, members),
            _ => Ok(members),
        }
    }

    fn scan_member_ctors(
        &self,
        m: Mode,
        ctors: &Vec<RecConstructor>,
        sc: &Scan,
        members: Vec<RecMember>,
    ) -> (r: R<Vec<RecMember>>)
        ensures
            res(r) == scan_ctors(
                self@,
                sem_at(self@, self.budget),
                m,
                ctors.deep_view(),
                0,
                sc@,
                members.deep_view(),
            ),
    {
        let ghost s = sem_at(self@, self.budget);
        let ghost cv = ctors.deep_view();
        let ghost start = members.deep_view();
        let mut out = members;
        let mut i: usize = 0;
        while i < ctors.len()
            invariant
                i <= ctors.len(),
                s == sem_at(self@, self.budget),
                cv == ctors.deep_view(),
                start == members.deep_view(),
                scan_ctors(self@, s, m, cv, i as nat, sc@, out.deep_view()) == scan_ctors(
                    self@,
                    s,
                    m,
                    cv,
                    0,
                    sc@,
                    start,
                ),
            decreases ctors.len() - i,
        {
            assert(cv[i as int] == ctors@[i as int].deep_view());
            let empty = Ctx::new();
            assert(empty@ =~= Seq::<Term>::empty());
            let (_, t) = self.open_binders(self.budget, m, &empty, &ctors[i].typ, sc.np)?;
            out = self.scan_nested_expr(m, &t, 0, sc, out)?;
            i = i + 1;
        }
        Ok(out)
    }

    /// Adds the groups of all the instances that the members show, those that
    /// come in on the way among them.
    pub fn expand_nested_members(&self, m: Mode, sc: &Scan, members: Vec<RecMember>) -> (r: R<
        Vec<RecMember>,
    >)
        ensures
            res(r) == expand(
                self@,
                sem_at(self@, self.budget),
                m,
                0,
                sc@,
                members.deep_view(),
                STEP_LIMIT as nat,
            ),
    {
        let ghost s = sem_at(self@, self.budget);
        let ghost start = members.deep_view();
        let mut out = members;
        let mut q: u32 = 0;
        while (q as u64) < (out.len() as u64)
            invariant
                q <= STEP_LIMIT,
                s == sem_at(self@, self.budget),
                start == members.deep_view(),
                expand(
                    self@,
                    s,
                    m,
                    q as nat,
                    sc@,
                    out.deep_view(),
                    (STEP_LIMIT - q) as nat,
                ) == expand(self@, s, m, 0, sc@, start, STEP_LIMIT as nat),
            decreases STEP_LIMIT - q,
        {
            assert(out.deep_view().len() == out.len());
            if q == STEP_LIMIT {
                return decline("nested recursor expansion limit");
            }
            assert(out.deep_view()[q as int] == out@[q as int].deep_view());
            let ctors = copy_ctors(&out[q as usize].ctors);
            out = self.scan_member_ctors(m, &ctors, sc, out)?;
            q = q + 1;
        }
        Ok(out)
    }
}

proof fn lemma_push_nested_grows(
    k: K,
    s: Sem,
    m: Mode,
    o: NestedT,
    current: Seq<BinderT>,
    i: nat,
    members: Seq<MemberT>,
)
    ensures
        push_nested(k, s, m, o, current, i, members) matches Ok(r) ==> members.len() <= r.len(),
    decreases o.all.len() - i,
{
    if i < o.all.len() {
        match nested_member(k, s, m, o.all[i as int], o, current) {
            Err(_) => {},
            Ok(mb) => lemma_push_nested_grows(k, s, m, o, current, i + 1, members.push(mb)),
        }
    }
}

proof fn lemma_scan_grows(
    k: K,
    s: Sem,
    m: Mode,
    e: Term,
    local: u32,
    sc: ScanT,
    members: Seq<MemberT>,
)
    ensures
        scan(k, s, m, e, local, sc, members) matches Ok(r) ==> members.len() <= r.len(),
    decreases e,
{
    match nested_instance(k, e, local, sc.np, sc.names, members) {
        Err(_) => {},
        Ok(Some(o)) => lemma_push_nested_grows(k, s, m, o, sc.current, 0, members),
        Ok(None) => match e {
            Term::App(f, a) => {
                lemma_scan_grows(k, s, m, *f, local, sc, members);
                match scan(k, s, m, *f, local, sc, members) {
                    Ok(m1) => lemma_scan_grows(k, s, m, *a, local, sc, m1),
                    Err(_) => {},
                }
            },
            Term::Lam(_, t, b) => {
                lemma_scan_grows(k, s, m, *t, local, sc, members);
                match scan(k, s, m, *t, local, sc, members) {
                    Ok(m1) => lemma_scan_grows(k, s, m, *b, deeper(local), sc, m1),
                    Err(_) => {},
                }
            },
            Term::Pi(_, t, b) => {
                lemma_scan_grows(k, s, m, *t, local, sc, members);
                match scan(k, s, m, *t, local, sc, members) {
                    Ok(m1) => lemma_scan_grows(k, s, m, *b, deeper(local), sc, m1),
                    Err(_) => {},
                }
            },
            Term::Let(t, v, b) => {
                lemma_scan_grows(k, s, m, *t, local, sc, members);
                match scan(k, s, m, *t, local, sc, members) {
                    Ok(m1) => {
                        lemma_scan_grows(k, s, m, *v, local, sc, m1);
                        match scan(k, s, m, *v, local, sc, m1) {
                            Ok(m2) => lemma_scan_grows(k, s, m, *b, deeper(local), sc, m2),
                            Err(_) => {},
                        }
                    },
                    Err(_) => {},
                }
            },
            Term::Proj(_, _, v) => lemma_scan_grows(k, s, m, *v, local, sc, members),
            _ => {},
        },
    }
}

proof fn lemma_scan_ctors_grows(
    k: K,
    s: Sem,
    m: Mode,
    ctors: Seq<RecCtorT>,
    i: nat,
    sc: ScanT,
    members: Seq<MemberT>,
)
    ensures
        scan_ctors(k, s, m, ctors, i, sc, members) matches Ok(r) ==> members.len() <= r.len(),
    decreases ctors.len() - i,
{
    if i < ctors.len() {
        match open_spec(k, s, m, Seq::empty(), ctors[i as int].typ, sc.np as nat) {
            Err(_) => {},
            Ok((_, t)) => {
                lemma_scan_grows(k, s, m, t, 0, sc, members);
                match scan(k, s, m, t, 0, sc, members) {
                    Ok(m1) => lemma_scan_ctors_grows(k, s, m, ctors, i + 1, sc, m1),
                    Err(_) => {},
                }
            },
        }
    }
}

pub(crate) proof fn lemma_expand_grows(
    k: K,
    s: Sem,
    m: Mode,
    q: nat,
    sc: ScanT,
    members: Seq<MemberT>,
    n: nat,
)
    ensures
        expand(k, s, m, q, sc, members, n) matches Ok(r) ==> members.len() <= r.len(),
    decreases n,
{
    if q < members.len() && n > 0 {
        lemma_scan_ctors_grows(k, s, m, members[q as int].ctors, 0, sc, members);
        match scan_ctors(k, s, m, members[q as int].ctors, 0, sc, members) {
            Ok(m1) => lemma_expand_grows(k, s, m, q + 1, sc, m1, (n - 1) as nat),
            Err(_) => {},
        }
    }
}

pub(crate) proof fn lemma_own_count(
    k: K,
    all: Seq<u32>,
    num_params: u32,
    lps: Seq<u32>,
    levels: Seq<Univ>,
    i: nat,
    acc: Seq<MemberT>,
)
    requires
        i <= all.len(),
    ensures
        own_members(k, all, num_params, lps, levels, i, acc) matches Ok(r) ==> r.len() == acc.len()
            + all.len() - i,
    decreases all.len() - i,
{
    if i < all.len() {
        match find(k.env, all[i as int]) {
            Some(Info::InductiveType { typ, num_indices, ctors, .. }) => match own_ctors(
                k,
                ctors,
                lps,
                levels,
                0,
                Seq::empty(),
            ) {
                Err(_) => {},
                Ok(cs) => lemma_own_count(
                    k,
                    all,
                    num_params,
                    lps,
                    levels,
                    i + 1,
                    acc.push(
                        MemberT {
                            source_name: all[i as int],
                            source_levels: levels,
                            fixed_params: down_vars(num_params as nat),
                            typ: subst_params(typ, lps, levels),
                            num_indices,
                            ctors: cs,
                        },
                    ),
                ),
            },
            _ => {},
        }
    }
}

} // verus!
