//! The types that the recursors of an inductive group must have, built from the
//! declarations of the group alone.

use crate::ctx::Ctx;
use crate::env::{find, ConstantInfo, Info};
use crate::errors::{decline, other, reject, res, Fault, R};
use crate::expr::{
    apps, bvar, clamp_index, clone_exprs, clone_levels, collect_level_ids_expr, const_,
    instantiate_level_params, is_closed, lift, loose, mk_apps, pi, shift, sort, subst_params,
    term_ids, BinderInfo, Expr, Term,
};
use crate::inductive::{elim_only_spec, has_repeats, param_levels, repeats, same_ids};
use crate::infer::sort_of;
use crate::iota::{has_id, k_like, lift_all, shift_exprs};
use crate::judge::sem_at;
use crate::kernel::{start_mode, Budget, Checker, Mode, Res, Sem, K, STEP_LIMIT};
use crate::level::{is_def_eq, is_not_zero, param, univ_eq, univ_positive, zero, Level, Univ};
use crate::members::{
    close_pis, close_rec_telescope, contains_current_member, down_vars, expand, find_member_target,
    lemma_expand_grows, lemma_own_count, member_target, mentions_member, own_members, param_binders,
    target_same, vars_down, BinderT, MemberT, RecBinder, RecConstructor, RecCtorT, RecMember, Scan,
    ScanT,
};
use crate::reduce::{ensure_pi_spec, ensure_sort_spec, open_spec};
use vstd::prelude::*;

verus! {

/// The number of binders that a recursor's type may have: as many as variables can
/// be told apart.
pub const SIZE_LIMIT: u32 = 4_294_967_295;

/// Whether no number is named twice.
pub fn ids_are_pairwise_distinct(ids: &Vec<u32>) -> (r: bool)
    ensures
        r == !repeats(ids@),
{
    !has_repeats(ids)
}

/// The binders of the next indices of a member, lifted over what comes before
/// them, behind those collected.
pub open spec fn index_binders(
    k: K,
    s: Sem,
    m: Mode,
    ctx: Seq<Term>,
    t: Term,
    i: nat,
    n: nat,
    by: int,
    acc: Seq<BinderT>,
) -> Res<Seq<BinderT>>
    decreases n - i,
{
    if i >= n {
        Ok(acc)
    } else {
        match ensure_pi_spec(k, s, m, ctx, t) {
            Err(f) => Err(f),
            Ok((bi, dom, body)) => index_binders(
                k,
                s,
                m,
                ctx.push(dom),
                body,
                i + 1,
                n,
                by,
                acc.push(BinderT { info: bi, typ: lift(dom, by, i) }),
            ),
        }
    }
}

/// A member applied to indices in a scope of the given depth.
pub open spec fn member_app_spec(mb: MemberT, np: u32, depth: nat, indices: Seq<Term>) -> Term {
    mk_apps(
        Term::Const(mb.source_name, mb.source_levels),
        lift_all(mb.fixed_params, depth - np) + indices,
    )
}

/// What is said of a motive behind fewer binders than there are parameters: its
/// first index cannot be lifted, or the member where it has none.
pub open spec fn motive_underflow(k: K, s: Sem, m: Mode, mb: MemberT, ctx: Seq<Term>, t: Term) -> Res<
    BinderT,
> {
    if mb.num_indices == 0 {
        Err(Fault::Other("recursor member context underflow"@))
    } else {
        match ensure_pi_spec(k, s, m, ctx, t) {
            Err(f) => Err(f),
            Ok(_) => Err(Fault::Other("motive context underflow"@)),
        }
    }
}

/// The binder of a member's motive, behind `base` other binders.
#[verifier::opaque]
pub open spec fn motive_binder(
    k: K,
    s: Sem,
    m: Mode,
    mb: MemberT,
    np: u32,
    elim: Univ,
    base: nat,
) -> Res<BinderT> {
    if base > SIZE_LIMIT {
        Err(Fault::Decline("recursor is too large"@))
    } else {
        match open_spec(k, s, m, Seq::empty(), mb.typ, np as nat) {
            Err(f) => Err(f),
            Ok((c, t)) => if base < np {
                motive_underflow(k, s, m, mb, c, t)
            } else {
                match index_binders(
                    k,
                    s,
                    m,
                    c,
                    t,
                    0,
                    mb.num_indices as nat,
                    base - np,
                    Seq::empty(),
                ) {
                    Err(f) => Err(f),
                    Ok(ixs) => {
                        let major = member_app_spec(
                            mb,
                            np,
                            base + mb.num_indices as nat,
                            down_vars(mb.num_indices as nat),
                        );
                        let result = Term::Pi(
                            BinderInfo::Default,
                            Box::new(major),
                            Box::new(Term::Sort(elim)),
                        );
                        Ok(BinderT { info: BinderInfo::Default, typ: close_pis(ixs, result) })
                    },
                }
            },
        }
    }
}

/// The binders of the motives from position `i` on, behind those collected.
pub open spec fn motive_binders(
    k: K,
    s: Sem,
    m: Mode,
    members: Seq<MemberT>,
    np: u32,
    elim: Univ,
    i: nat,
    acc: Seq<BinderT>,
) -> Res<Seq<BinderT>>
    decreases members.len() - i,
{
    if i >= members.len() {
        Ok(acc)
    } else {
        match motive_binder(k, s, m, members[i as int], np, elim, acc.len()) {
            Err(f) => Err(f),
            Ok(b) => motive_binders(k, s, m, members, np, elim, i + 1, acc.push(b)),
        }
    }
}

/// A field of a constructor, with the scope it is in.
pub struct FieldT {
    pub info: BinderInfo,
    pub dom: Term,
    pub ctx: Seq<Term>,
}

/// The fields that a constructor's type shows, behind those collected, with the
/// scope behind them and the conclusion.
pub open spec fn ctor_fields(
    k: K,
    s: Sem,
    m: Mode,
    ctx: Seq<Term>,
    t: Term,
    acc: Seq<FieldT>,
    n: nat,
) -> Res<(Seq<FieldT>, Seq<Term>, Term)>
    decreases n,
{
    match ensure_pi_spec(k, s, m, ctx, t) {
        Err(_) => Ok((acc, ctx, t)),
        Ok((bi, dom, body)) => if n == 0 {
            Err(Fault::Decline("WHNF step limit"@))
        } else {
            ctor_fields(
                k,
                s,
                m,
                ctx.push(dom),
                body,
                acc.push(FieldT { info: bi, dom, ctx }),
                (n - 1) as nat,
            )
        },
    }
}

/// The binders of the fields of a minor premise.
pub open spec fn field_telescope(fields: Seq<FieldT>, by: int) -> Seq<BinderT> {
    Seq::new(
        fields.len(),
        |i: int| BinderT { info: fields[i].info, typ: lift(fields[i].dom, by, i as nat) },
    )
}

/// A term moved from under a constructor's fields and arguments into the scope of
/// an induction hypothesis.
pub open spec fn into_hypothesis(t: Term, outer: int, inner: int, pos: nat, args: nat) -> Term {
    lift(lift(t, outer, args + pos), inner, args)
}

/// The binders of the arguments of a recursive field, behind those collected,
/// with the scope behind them and the target.
pub open spec fn hypothesis_args(
    k: K,
    s: Sem,
    m: Mode,
    ctx: Seq<Term>,
    t: Term,
    outer: int,
    inner: int,
    pos: nat,
    acc: Seq<BinderT>,
    n: nat,
) -> Res<(Seq<BinderT>, Seq<Term>, Term)>
    decreases n,
{
    match ensure_pi_spec(k, s, m, ctx, t) {
        Err(_) => Ok((acc, ctx, t)),
        Ok((bi, dom, body)) => if n == 0 {
            Err(Fault::Decline("WHNF step limit"@))
        } else {
            hypothesis_args(
                k,
                s,
                m,
                ctx.push(dom),
                body,
                outer,
                inner,
                pos,
                acc.push(
                    BinderT {
                        info: bi,
                        typ: into_hypothesis(dom, outer, inner, pos, acc.len()),
                    },
                ),
                (n - 1) as nat,
            )
        },
    }
}

/// The member that a recursive field ends in, as it stands or reduced.
pub open spec fn recursive_target(
    s: Sem,
    m: Mode,
    ctx: Seq<Term>,
    members: Seq<MemberT>,
    t: Term,
    np: u32,
) -> Res<Option<(nat, Seq<Term>)>> {
    match member_target(members, t, np, ctx.len(), 0) {
        Some(x) => Ok(Some(x)),
        None => target_same(s, m, ctx, members, t, np),
    }
}

/// The indices of a recursive field in the scope of its induction hypothesis.
pub open spec fn hypothesis_indices(
    ixs: Seq<Term>,
    outer: int,
    inner: int,
    pos: nat,
    args: nat,
) -> Seq<Term> {
    Seq::new(ixs.len(), |i: int| into_hypothesis(ixs[i], outer, inner, pos, args))
}

/// The induction hypothesis for the field at position `pos`, given how many
/// fields and earlier hypotheses there are.
pub open spec fn hypothesis(
    binders: Seq<BinderT>,
    np: u32,
    member: nat,
    ixs: Seq<Term>,
    outer_depth: nat,
    fields: nat,
    earlier: nat,
    pos: nat,
) -> BinderT {
    let outer = outer_depth - np;
    let inner = fields - pos + earlier;
    let args = binders.len();
    let depth = outer_depth + fields + earlier + args;
    let motive = Term::BVar(clamp_index(depth - 1 - (np + member)));
    let value = Term::BVar(clamp_index(fields + earlier + args - 1 - pos));
    let on = mk_apps(value, down_vars(args));
    BinderT {
        info: BinderInfo::Default,
        typ: close_pis(
            binders,
            mk_apps(motive, hypothesis_indices(ixs, outer, inner, pos, args).push(on)),
        ),
    }
}

/// What stays the same through the building of one minor premise.
pub struct MinorT {
    pub names: Seq<u32>,
    pub members: Seq<MemberT>,
    pub np: u32,
    pub outer_depth: nat,
}

/// The binders of a minor premise with the hypothesis for one field, if the field
/// is recursive.
#[verifier::opaque]
pub open spec fn with_hypothesis(
    k: K,
    s: Sem,
    m: Mode,
    mi: MinorT,
    fields: Seq<FieldT>,
    pos: nat,
    acc: Seq<BinderT>,
) -> Res<Seq<BinderT>> {
    let f = fields[pos as int];
    let earlier = (acc.len() - fields.len()) as nat;
    let outer = mi.outer_depth - mi.np;
    let inner = fields.len() - pos + earlier;
    match (s.whnf)(m, f.ctx, f.dom) {
        Err(x) => Err(x),
        Ok(w) => match hypothesis_args(
            k,
            s,
            m,
            f.ctx,
            w,
            outer,
            inner,
            pos,
            Seq::empty(),
            STEP_LIMIT as nat,
        ) {
            Err(x) => Err(x),
            Ok((binders, c, t)) => match recursive_target(s, m, c, mi.members, t, mi.np) {
                Err(x) => Err(x),
                Ok(Some((member, ixs))) => Ok(
                    acc.push(
                        hypothesis(
                            binders,
                            mi.np,
                            member,
                            ixs,
                            mi.outer_depth,
                            fields.len(),
                            earlier,
                            pos,
                        ),
                    ),
                ),
                Ok(None) => if mentions_member(
                    t,
                    clamp_index(c.len() - mi.np),
                    mi.np,
                    mi.names,
                    mi.members,
                ) {
                    Err(
                        Fault::Reject(
                            "recursive field does not exactly match a reconstructed member specialization"@,
                        ),
                    )
                } else {
                    Ok(acc)
                },
            },
        },
    }
}

/// The binders of a minor premise with the hypotheses for the fields from
/// position `pos` on.
pub open spec fn with_hypotheses(
    k: K,
    s: Sem,
    m: Mode,
    mi: MinorT,
    fields: Seq<FieldT>,
    pos: nat,
    acc: Seq<BinderT>,
) -> Res<Seq<BinderT>>
    decreases fields.len() - pos,
{
    if pos >= fields.len() {
        Ok(acc)
    } else {
        match with_hypothesis(k, s, m, mi, fields, pos, acc) {
            Err(f) => Err(f),
            Ok(acc2) => with_hypotheses(k, s, m, mi, fields, pos + 1, acc2),
        }
    }
}

/// The indices of a constructor's conclusion in the scope of the minor premise.
pub open spec fn conclusion_indices(ixs: Seq<Term>, outer: int, fields: nat, earlier: nat) -> Seq<
    Term,
> {
    Seq::new(ixs.len(), |i: int| lift(lift(ixs[i], outer, fields), earlier as int, 0))
}

/// The fields as variables in the scope of the minor premise.
pub open spec fn field_vars(fields: nat, earlier: nat) -> Seq<Term> {
    Seq::new(fields, |i: int| Term::BVar(clamp_index(fields + earlier - 1 - i)))
}

/// The conclusion of a minor premise: the motive on the constructor applied to
/// its fields.
pub open spec fn minor_conclusion(
    owner: MemberT,
    owner_pos: nat,
    ctor: RecCtorT,
    ixs: Seq<Term>,
    np: u32,
    outer_depth: nat,
    fields: nat,
    earlier: nat,
) -> Term {
    let depth = outer_depth + fields + earlier;
    let motive = Term::BVar(clamp_index(depth - 1 - (np + owner_pos)));
    let built = mk_apps(
        Term::Const(ctor.name, ctor.levels),
        lift_all(owner.fixed_params, depth - np) + field_vars(fields, earlier),
    );
    mk_apps(motive, conclusion_indices(ixs, outer_depth - np, fields, earlier).push(built))
}

/// The type of the minor premise for a constructor.
#[verifier::opaque]
pub open spec fn minor_type(
    k: K,
    s: Sem,
    m: Mode,
    mi: MinorT,
    owner_pos: nat,
    ctor: RecCtorT,
) -> Res<Term> {
    if mi.outer_depth > SIZE_LIMIT {
        Err(Fault::Decline("recursor is too large"@))
    } else {
        match open_spec(k, s, m, Seq::empty(), ctor.typ, mi.np as nat) {
            Err(f) => Err(f),
            Ok((c0, t0)) => match ctor_fields(k, s, m, c0, t0, Seq::empty(), STEP_LIMIT as nat) {
                Err(f) => Err(f),
                Ok((fields, c1, concl)) => if mi.outer_depth < mi.np {
                    Err(Fault::Other("minor context underflow"@))
                } else {
                    match member_target(
                        mi.members,
                        concl,
                        mi.np,
                        (mi.np + fields.len()) as nat,
                        0,
                    ) {
                        None => Err(
                            Fault::Reject(
                                "constructor conclusion is outside reconstructed mutual group"@,
                            ),
                        ),
                        Some((owner, ixs)) => if owner != owner_pos {
                            Err(
                                Fault::Reject(
                                    "constructor conclusion has the wrong reconstructed owner"@,
                                ),
                            )
                        } else {
                            match with_hypotheses(
                                k,
                                s,
                                m,
                                mi,
                                fields,
                                0,
                                field_telescope(fields, mi.outer_depth - mi.np),
                            ) {
                                Err(f) => Err(f),
                                Ok(local) => Ok(
                                    close_pis(
                                        local,
                                        minor_conclusion(
                                            mi.members[owner_pos as int],
                                            owner_pos,
                                            ctor,
                                            ixs,
                                            mi.np,
                                            mi.outer_depth,
                                            fields.len(),
                                            (local.len() - fields.len()) as nat,
                                        ),
                                    ),
                                ),
                            }
                        },
                    }
                },
            },
        }
    }
}

/// The binders with those of the minor premises for the constructors from
/// position `j` on.
pub open spec fn ctor_minors(
    k: K,
    s: Sem,
    m: Mode,
    names: Seq<u32>,
    members: Seq<MemberT>,
    np: u32,
    owner: nat,
    ctors: Seq<RecCtorT>,
    j: nat,
    acc: Seq<BinderT>,
) -> Res<Seq<BinderT>>
    decreases ctors.len() - j,
{
    if j >= ctors.len() {
        Ok(acc)
    } else {
        match minor_type(
            k,
            s,
            m,
            MinorT { names, members, np, outer_depth: acc.len() },
            owner,
            ctors[j as int],
        ) {
            Err(f) => Err(f),
            Ok(t) => ctor_minors(
                k,
                s,
                m,
                names,
                members,
                np,
                owner,
                ctors,
                j + 1,
                acc.push(BinderT { info: BinderInfo::Default, typ: t }),
            ),
        }
    }
}

/// The binders with those of the minor premises of the members from position `i`
/// on.
pub open spec fn minor_binders(
    k: K,
    s: Sem,
    m: Mode,
    names: Seq<u32>,
    members: Seq<MemberT>,
    np: u32,
    i: nat,
    acc: Seq<BinderT>,
) -> Res<Seq<BinderT>>
    decreases members.len() - i,
{
    if i >= members.len() {
        Ok(acc)
    } else {
        match ctor_minors(k, s, m, names, members, np, i, members[i as int].ctors, 0, acc) {
            Err(f) => Err(f),
            Ok(acc2) => minor_binders(k, s, m, names, members, np, i + 1, acc2),
        }
    }
}

/// The type of the recursor for one member, behind the binders of its parameters,
/// motives and minor premises.
#[verifier::opaque]
pub open spec fn close_recursor(
    k: K,
    s: Sem,
    m: Mode,
    target: MemberT,
    target_pos: nat,
    np: u32,
    binders: Seq<BinderT>,
) -> Res<Term> {
    if binders.len() > SIZE_LIMIT {
        Err(Fault::Decline("recursor is too large"@))
    } else {
        match open_spec(k, s, m, Seq::empty(), target.typ, np as nat) {
            Err(f) => Err(f),
            Ok((c, t)) => match index_binders(
                k,
                s,
                m,
                c,
                t,
                0,
                target.num_indices as nat,
                binders.len() - np,
                binders,
            ) {
                Err(f) => Err(f),
                Ok(b1) => {
                    let major = member_app_spec(
                        target,
                        np,
                        b1.len(),
                        down_vars(target.num_indices as nat),
                    );
                    let b2 = b1.push(BinderT { info: BinderInfo::Default, typ: major });
                    let motive = Term::BVar(clamp_index(b2.len() - 1 - (np + target_pos)));
                    Ok(
                        close_pis(
                            b2,
                            mk_apps(motive, down_vars((target.num_indices + 1) as nat)),
                        ),
                    )
                },
            },
        }
    }
}

/// The type of the recursor for the member at a position.
#[verifier::opaque]
pub open spec fn recursor_type(
    k: K,
    s: Sem,
    m: Mode,
    names: Seq<u32>,
    members: Seq<MemberT>,
    target: nat,
    np: u32,
    params: Seq<BinderT>,
    elim: Univ,
) -> Res<Term> {
    match motive_binders(k, s, m, members, np, elim, 0, params) {
        Err(f) => Err(f),
        Ok(b1) => match minor_binders(k, s, m, names, members, np, 0, b1) {
            Err(f) => Err(f),
            Ok(b2) => close_recursor(k, s, m, members[target as int], target, np, b2),
        },
    }
}

/// The level that all the members from position `i` on have, which must be the
/// one found so far.
pub open spec fn common_level(
    k: K,
    s: Sem,
    m: Mode,
    members: Seq<MemberT>,
    np: u32,
    i: nat,
    found: Option<Univ>,
) -> Res<Option<Univ>>
    decreases members.len() - i,
{
    if i >= members.len() {
        Ok(found)
    } else {
        let mb = members[i as int];
        match open_spec(k, s, m, Seq::empty(), mb.typ, (np + mb.num_indices) as nat) {
            Err(f) => Err(f),
            Ok((c, t)) => match ensure_sort_spec(k, s, m, c, t) {
                Err(f) => Err(f),
                Ok(l) => match found {
                    None => common_level(k, s, m, members, np, i + 1, Some(l)),
                    Some(l0) => if univ_eq(l0, l) {
                        common_level(k, s, m, members, np, i + 1, found)
                    } else {
                        Err(
                            Fault::Reject(
                                "nested auxiliary member has a different result universe"@,
                            ),
                        )
                    },
                },
            },
        }
    }
}

/// Whether the recursors of an expanded group eliminate into propositions alone.
#[verifier::opaque]
pub open spec fn prop_only_spec(
    k: K,
    s: Sem,
    m: Mode,
    names: Seq<u32>,
    members: Seq<MemberT>,
    np: u32,
) -> Res<bool> {
    match common_level(k, s, m, members, np, 0, None) {
        Err(f) => Err(f),
        Ok(found) => if members.len() == names.len() {
            elim_only_spec(k, s, m, names)
        } else {
            match found {
                None => Err(Fault::Other("expanded recursor group is empty"@)),
                Some(l) => Ok(!univ_positive(l)),
            }
        },
    }
}

/// The number of constructors of the members from position `i` on.
pub open spec fn count_ctors(members: Seq<MemberT>, i: nat) -> nat
    decreases members.len() - i,
{
    if i >= members.len() {
        0
    } else {
        members[i as int].ctors.len() + count_ctors(members, i + 1)
    }
}

/// A recursor as the declarations of its group determine it.
pub struct DerivedRecursor {
    pub typ: Expr,
    pub level_params: Vec<u32>,
    pub all: Vec<u32>,
    pub num_params: u32,
    pub num_indices: u32,
    pub num_motives: u32,
    pub num_minors: u32,
    pub k: bool,
}

/// The mathematical reading of a [`DerivedRecursor`].
pub struct DerivedT {
    pub typ: Term,
    pub level_params: Seq<u32>,
    pub all: Seq<u32>,
    pub num_params: u32,
    pub num_indices: u32,
    pub num_motives: u32,
    pub num_minors: u32,
    pub k: bool,
}

impl DeepView for DerivedRecursor {
    type V = DerivedT;

    open spec fn deep_view(&self) -> DerivedT {
        DerivedT {
            typ: self.typ@,
            level_params: self.level_params@,
            all: self.all@,
            num_params: self.num_params,
            num_indices: self.num_indices,
            num_motives: self.num_motives,
            num_minors: self.num_minors,
            k: self.k,
        }
    }
}

/// What the recursors of a group have in common.
pub struct GroupT {
    pub names: Seq<u32>,
    pub members: Seq<MemberT>,
    pub np: u32,
    pub params: Seq<BinderT>,
    pub elim: Univ,
    pub level_params: Seq<u32>,
    pub k: bool,
}

/// The recursors for the members from position `i` on, behind those collected.
pub open spec fn derive_from(k: K, s: Sem, m: Mode, g: GroupT, i: nat, acc: Seq<DerivedT>) -> Res<
    Seq<DerivedT>,
>
    decreases g.members.len() - i,
{
    if i >= g.members.len() {
        Ok(acc)
    } else {
        match recursor_type(k, s, m, g.names, g.members, i, g.np, g.params, g.elim) {
            Err(f) => Err(f),
            Ok(t) => derive_from(
                k,
                s,
                m,
                g,
                i + 1,
                acc.push(
                    DerivedT {
                        typ: t,
                        level_params: g.level_params,
                        all: g.names,
                        num_params: g.np,
                        num_indices: g.members[i as int].num_indices,
                        num_motives: clamp_index(g.members.len() as int),
                        num_minors: clamp_index(count_ctors(g.members, 0) as int),
                        k: g.k,
                    },
                ),
            ),
        }
    }
}

/// Whether a type belongs to a group with the given parameters.
pub open spec fn belongs(k: K, t: u32, all: Seq<u32>, np: u32, lps: Seq<u32>) -> bool {
    match find(k.env, t) {
        Some(
            Info::InductiveType { all: a, num_params, level_params, .. },
        ) => a == all && num_params == np && level_params == lps,
        _ => false,
    }
}

/// Whether all the types of a group agree about it.
pub open spec fn all_belong(k: K, all: Seq<u32>, np: u32, lps: Seq<u32>) -> bool {
    forall|i: int| 0 <= i < all.len() ==> #[trigger] belongs(k, all[i], all, np, lps)
}

/// The parameters and the expanded members of a group at given levels.
#[verifier::opaque]
pub open spec fn members_at(
    k: K,
    s: Sem,
    m: Mode,
    typ: Term,
    all: Seq<u32>,
    np: u32,
    lps: Seq<u32>,
    levels: Seq<Univ>,
) -> Res<(Seq<BinderT>, Seq<MemberT>)> {
    match param_binders(
        k,
        s,
        m,
        Seq::empty(),
        subst_params(typ, lps, levels),
        np as nat,
        Seq::empty(),
    ) {
        Err(f) => Err(f),
        Ok(params) => match own_members(k, all, np, lps, levels, 0, Seq::empty()) {
            Err(f) => Err(f),
            Ok(own) => match expand(
                k,
                s,
                m,
                0,
                ScanT { np, current: params, names: all },
                own,
                STEP_LIMIT as nat,
            ) {
                Err(f) => Err(f),
                Ok(members) => Ok((params, members)),
            },
        },
    }
}

/// Whether the universe parameters of a recursor have the right shape: those of
/// the group, with one in front for what it eliminates into where that may be
/// anything.
pub open spec fn level_shape(prop_only: bool, supplied: Seq<u32>, shared: nat) -> Res<()> {
    if repeats(supplied) {
        Err(Fault::Reject("recursor has duplicate universe parameters"@))
    } else if prop_only && supplied.len() != shared {
        Err(Fault::Reject("Prop-only recursor has the wrong universe-parameter shape"@))
    } else if !prop_only && supplied.len() != shared + 1 {
        Err(Fault::Reject("recursor is missing its fresh elimination universe parameter"@))
    } else {
        Ok(())
    }
}

/// The recursors of a group whose types agree about it.
#[verifier::opaque]
pub open spec fn derive_group(
    k: K,
    s: Sem,
    m: Mode,
    typ: Term,
    all: Seq<u32>,
    np: u32,
    lps: Seq<u32>,
    supplied: Seq<u32>,
) -> Res<Seq<DerivedT>> {
    match members_at(k, s, m, typ, all, np, lps, param_levels(lps)) {
        Err(f) => Err(f),
        Ok((_, found)) => match prop_only_spec(k, s, m, all, found, np) {
            Err(f) => Err(f),
            Ok(prop_only) => match level_shape(prop_only, supplied, lps.len()) {
                Err(f) => Err(f),
                Ok(()) => {
                    let own = if prop_only {
                        supplied
                    } else {
                        supplied.skip(1)
                    };
                    let elim = if prop_only {
                        Univ::Zero
                    } else {
                        Univ::Param(supplied[0])
                    };
                    match members_at(k, s, m, typ, all, np, lps, param_levels(own)) {
                        Err(f) => Err(f),
                        Ok((params, members)) => if members.len() != found.len() {
                            Err(
                                Fault::Other(
                                    "nested recursor discovery changed under universe alpha-renaming"@,
                                ),
                            )
                        } else {
                            derive_from(
                                k,
                                s,
                                m,
                                GroupT {
                                    names: all,
                                    members,
                                    np,
                                    params,
                                    elim,
                                    level_params: supplied,
                                    k: members.len() == 1 && k_like(k, s, m, all),
                                },
                                0,
                                Seq::empty(),
                            )
                        },
                    }
                },
            },
        },
    }
}

/// The recursors of a group of inductive types.
#[verifier::opaque]
pub open spec fn recursors_spec(k: K, s: Sem, m: Mode, names: Seq<u32>, supplied: Seq<u32>) -> Res<
    Seq<DerivedT>,
> {
    if names.len() == 0 {
        Err(Fault::Reject("cannot reconstruct recursors for an empty inductive group"@))
    } else {
        match find(k.env, names[0]) {
            Some(Info::InductiveType { all, num_params, level_params, typ, .. }) => if all
                != names {
                Err(
                    Fault::Reject(
                        "recursor reconstruction group is not the inductive declaration order"@,
                    ),
                )
            } else if !all_belong(k, all, num_params, level_params) {
                Err(
                    Fault::Reject(
                        "inconsistent mutual inductive group during recursor reconstruction"@,
                    ),
                )
            } else {
                derive_group(k, s, m, typ, all, num_params, level_params, supplied)
            },
            _ => Err(Fault::Reject("recursor reconstruction requires an inductive type"@)),
        }
    }
}

/// The largest number from `next` down that is not used.
pub open spec fn unused_from(used: Seq<u32>, next: u32) -> Option<u32>
    decreases next,
{
    if !used.contains(next) {
        Some(next)
    } else if next == 0 {
        None
    } else {
        unused_from(used, (next - 1) as u32)
    }
}

/// The next `n` numbers from `next` down that are not used, behind those
/// collected.
pub open spec fn fresh_ids(used: Seq<u32>, next: u32, n: nat, acc: Seq<u32>) -> Res<Seq<u32>>
    decreases n,
{
    if n == 0 {
        Ok(acc)
    } else {
        match unused_from(used, next) {
            None => Err(Fault::Other("cannot allocate canonical universe parameter"@)),
            Some(x) => if x == 0 {
                Err(Fault::Other("cannot allocate canonical universe parameter"@))
            } else {
                fresh_ids(used.push(x), (x - 1) as u32, (n - 1) as nat, acc.push(x))
            },
        }
    }
}

/// The numbers of a second list that a first one lacks, behind it.
pub open spec fn join_ids(a: Seq<u32>, b: Seq<u32>) -> Seq<u32>
    decreases b.len(),
{
    if b.len() == 0 {
        a
    } else {
        let front = join_ids(a, b.drop_last());
        if front.contains(b.last()) {
            front
        } else {
            front.push(b.last())
        }
    }
}

/// Whether one list names something that another does not.
pub open spec fn names_more(a: Seq<u32>, b: Seq<u32>) -> bool {
    exists|i: int| 0 <= i < a.len() && !b.contains(#[trigger] a[i])
}

/// Whether two types with positionally matching universe parameters are the same
/// type, their parameters renamed to common ones.
#[verifier::opaque]
pub open spec fn validate_spec(
    k: K,
    s: Sem,
    m: Mode,
    a: Term,
    aps: Seq<u32>,
    b: Term,
    bps: Seq<u32>,
) -> Res<()> {
    if loose(a) != 0 || loose(b) != 0 {
        Err(Fault::Reject("recursor type is not closed"@))
    } else if aps.len() != bps.len() || repeats(aps) || repeats(bps) {
        Err(Fault::Reject("recursor universe parameters do not match positionally"@))
    } else if names_more(term_ids(a, Seq::empty()), aps) {
        Err(Fault::Reject("recursor type uses an undeclared universe parameter"@))
    } else if names_more(term_ids(b, Seq::empty()), bps) {
        Err(Fault::Other("reconstructed recursor uses an undeclared universe parameter"@))
    } else {
        let used = join_ids(
            join_ids(join_ids(aps, bps), term_ids(a, Seq::empty())),
            term_ids(b, Seq::empty()),
        );
        match fresh_ids(used, u32::MAX, aps.len(), Seq::empty()) {
            Err(f) => Err(f),
            Ok(ids) => same_types(
                k,
                s,
                m,
                subst_params(a, aps, param_levels(ids)),
                subst_params(b, bps, param_levels(ids)),
            ),
        }
    }
}

/// Whether two closed terms are types and the same.
pub open spec fn same_types(k: K, s: Sem, m: Mode, a: Term, b: Term) -> Res<()> {
    match sort_of(k, s, m, Seq::empty(), a) {
        Err(f) => Err(f),
        Ok(_) => match sort_of(k, s, m, Seq::empty(), b) {
            Err(f) => Err(f),
            Ok(_) => match (s.defeq)(m, Seq::empty(), a, b) {
                Err(f) => Err(f),
                Ok(true) => Ok(()),
                Ok(false) => Err(
                    Fault::Reject("recursor type does not match reconstructed type"@),
                ),
            },
        },
    }
}

/// Fresh parameters are none of those used, and no two are the same.
pub proof fn law_fresh_ids(used: Seq<u32>, next: u32, n: nat, acc: Seq<u32>)
    requires
        forall|i: int| 0 <= i < acc.len() ==> used.contains(#[trigger] acc[i]),
        !repeats(acc),
    ensures
        fresh_ids(used, next, n, acc) matches Ok(ids) ==> {
            &&& ids.len() == acc.len() + n
            &&& !repeats(ids)
            &&& forall|i: int| acc.len() <= i < ids.len() ==> !used.contains(#[trigger] ids[i])
        },
    decreases n,
{
    if n > 0 {
        lemma_unused(used, next);
        match unused_from(used, next) {
            None => {},
            Some(x) => if x != 0 {
                let used2 = used.push(x);
                let acc2 = acc.push(x);
                assert forall|i: int| 0 <= i < acc2.len() implies used2.contains(
                    #[trigger] acc2[i],
                ) by {
                    if i < acc.len() {
                        let j = choose|j: int| 0 <= j < used.len() && used[j] == acc[i];
                        assert(used2[j] == acc2[i]);
                    } else {
                        assert(used2[used.len() as int] == x);
                    }
                }
                assert(!repeats(acc2)) by {
                    assert forall|i: int, j: int| 0 <= i < j < acc2.len() implies #[trigger] acc2[i]
                        != #[trigger] acc2[j] by {
                        if j < acc.len() {
                            assert(acc[i] != acc[j]);
                        } else {
                            assert(used.contains(acc[i]));
                        }
                    }
                }
                law_fresh_ids(used2, (x - 1) as u32, (n - 1) as nat, acc2);
                match fresh_ids(used2, (x - 1) as u32, (n - 1) as nat, acc2) {
                    Ok(ids) => {
                        lemma_fresh_prefix(used2, (x - 1) as u32, (n - 1) as nat, acc2);
                        assert forall|i: int| acc.len() <= i < ids.len() implies !used.contains(
                            #[trigger] ids[i],
                        ) by {
                            if i == acc.len() {
                                assert(ids[i] == acc2[i]);
                            } else {
                                assert(!used2.contains(ids[i]));
                                if used.contains(ids[i]) {
                                    let j = choose|j: int| 0 <= j < used.len() && used[j] == ids[i];
                                    assert(used2[j] == ids[i]);
                                }
                            }
                        }
                    },
                    Err(_) => {},
                }
            },
        }
    }
}

proof fn lemma_unused(used: Seq<u32>, next: u32)
    ensures
        unused_from(used, next) matches Some(x) ==> !used.contains(x),
    decreases next,
{
    if used.contains(next) && next > 0 {
        lemma_unused(used, (next - 1) as u32);
    }
}

proof fn lemma_fresh_prefix(used: Seq<u32>, next: u32, n: nat, acc: Seq<u32>)
    ensures
        fresh_ids(used, next, n, acc) matches Ok(ids) ==> ids.len() >= acc.len() && forall|i: int|
            0 <= i < acc.len() ==> #[trigger] ids[i] == acc[i],
    decreases n,
{
    if n > 0 {
        match unused_from(used, next) {
            None => {},
            Some(x) => if x != 0 {
                lemma_fresh_prefix(used.push(x), (x - 1) as u32, (n - 1) as nat, acc.push(x));
                match fresh_ids(used.push(x), (x - 1) as u32, (n - 1) as nat, acc.push(x)) {
                    Ok(ids) => {
                        assert forall|i: int| 0 <= i < acc.len() implies #[trigger] ids[i]
                            == acc[i] by {
                            assert(ids[i] == acc.push(x)[i]);
                        }
                    },
                    Err(_) => {},
                }
            },
        }
    }
}

fn mk_var(x: i128) -> (r: Expr)
    ensures
        r@ == Term::BVar(clamp_index(x as int)),
{
    bvar(crate::expr::clamp(x))
}

fn member_app(mb: &RecMember, np: u32, depth: u64, indices: &Vec<Expr>) -> (r: Expr)
    requires
        np <= depth <= 0x3_0000_0000,
    ensures
        r@ == member_app_spec(mb.deep_view(), np, depth as nat, indices.deep_view()),
{
    let mut args = shift_exprs(&mb.fixed_params, (depth - np as u64) as i64);
    let ghost front = args.deep_view();
    let mut rest = clone_exprs(indices);
    args.append(&mut rest);
    assert(args.deep_view() =~= front + indices.deep_view());
    apps(const_(mb.source_name, clone_levels(&mb.source_levels)), &args)
}

/// A field of a constructor, with the scope it is in.
struct Field {
    info: BinderInfo,
    dom: Expr,
    ctx: Ctx,
}

impl DeepView for Field {
    type V = FieldT;

    closed spec fn deep_view(&self) -> FieldT {
        FieldT { info: self.info, dom: self.dom@, ctx: self.ctx@ }
    }
}

fn mk_field_telescope(fields: &Vec<Field>, by: i64) -> (r: Vec<RecBinder>)
    ensures
        r.deep_view() == field_telescope(fields.deep_view(), by as int),
        r.len() == fields.len(),
{
    let ghost fv = fields.deep_view();
    let mut out: Vec<RecBinder> = Vec::new();
    let mut i: usize = 0;
    while i < fields.len()
        invariant
            i <= fields.len(),
            fv == fields.deep_view(),
            out.len() == i,
            forall|j: int|
                0 <= j < i ==> (#[trigger] out@[j]).deep_view() == (BinderT {
                    info: fv[j].info,
                    typ: lift(fv[j].dom, by as int, j as nat),
                }),
        decreases fields.len() - i,
    {
        assert(fv[i as int] == fields@[i as int].deep_view());
        out.push(
            RecBinder { info: fields[i].info, typ: shift(&fields[i].dom, by, i as u64) },
        );
        i = i + 1;
    }
    assert(out.deep_view() =~= field_telescope(fv, by as int));
    out
}

fn move_into_hypothesis(t: &Expr, outer: i64, inner: i64, pos: u64, args: u64) -> (r: Expr)
    requires
        pos <= STEP_LIMIT,
        args <= STEP_LIMIT,
    ensures
        r@ == into_hypothesis(t@, outer as int, inner as int, pos as nat, args as nat),
{
    shift(&shift(t, outer, args + pos), inner, args)
}

fn move_indices(ixs: &Vec<Expr>, outer: i64, inner: i64, pos: u64, args: u64) -> (r: Vec<Expr>)
    requires
        pos <= STEP_LIMIT,
        args <= STEP_LIMIT,
    ensures
        r.deep_view() == hypothesis_indices(
            ixs.deep_view(),
            outer as int,
            inner as int,
            pos as nat,
            args as nat,
        ),
{
    let ghost iv = ixs.deep_view();
    let mut out: Vec<Expr> = Vec::new();
    let mut i: usize = 0;
    while i < ixs.len()
        invariant
            i <= ixs.len(),
            pos <= STEP_LIMIT,
            args <= STEP_LIMIT,
            iv == ixs.deep_view(),
            out.len() == i,
            forall|j: int|
                0 <= j < i ==> (#[trigger] out@[j])@ == into_hypothesis(
                    iv[j],
                    outer as int,
                    inner as int,
                    pos as nat,
                    args as nat,
                ),
        decreases ixs.len() - i,
    {
        out.push(move_into_hypothesis(&ixs[i], outer, inner, pos, args));
        i = i + 1;
    }
    assert(out.deep_view() =~= hypothesis_indices(
        iv,
        outer as int,
        inner as int,
        pos as nat,
        args as nat,
    ));
    out
}

fn mk_hypothesis(
    binders: &Vec<RecBinder>,
    np: u32,
    member: usize,
    ixs: &Vec<Expr>,
    outer_depth: u64,
    fields: u64,
    earlier: u64,
    pos: u64,
) -> (r: RecBinder)
    requires
        np <= outer_depth <= SIZE_LIMIT,
        pos < fields <= STEP_LIMIT,
        earlier <= STEP_LIMIT,
        binders.len() <= STEP_LIMIT,
    ensures
        r.deep_view() == hypothesis(
            binders.deep_view(),
            np,
            member as nat,
            ixs.deep_view(),
            outer_depth as nat,
            fields as nat,
            earlier as nat,
            pos as nat,
        ),
{
    assert(binders.len() == binders.deep_view().len());
    let outer: i64 = outer_depth as i64 - np as i64;
    let inner: i64 = (fields - pos + earlier) as i64;
    let args: u64 = binders.len() as u64;
    let depth: u64 = outer_depth + fields + earlier + args;
    let motive = mk_var(depth as i128 - 1 - (np as i128 + member as i128));
    let value = mk_var((fields + earlier + args) as i128 - 1 - pos as i128);
    let on = apps(value, &vars_down(args as u32));
    let mut all = move_indices(ixs, outer, inner, pos, args);
    let ghost front = all.deep_view();
    let ghost ov = on@;
    all.push(on);
    assert(all.deep_view() =~= front.push(ov));
    RecBinder {
        info: BinderInfo::Default,
        typ: close_rec_telescope(binders, apps(motive, &all)),
    }
}

fn mk_field_vars(fields: u64, earlier: u64) -> (r: Vec<Expr>)
    requires
        fields <= STEP_LIMIT,
        earlier <= STEP_LIMIT,
    ensures
        r.deep_view() == field_vars(fields as nat, earlier as nat),
{
    let mut out: Vec<Expr> = Vec::new();
    let mut i: u64 = 0;
    while i < fields
        invariant
            i <= fields <= STEP_LIMIT,
            earlier <= STEP_LIMIT,
            out.len() == i,
            forall|j: int|
                0 <= j < i ==> (#[trigger] out@[j])@ == Term::BVar(
                    clamp_index(fields + earlier - 1 - j),
                ),
        decreases fields - i,
    {
        out.push(mk_var((fields + earlier) as i128 - 1 - i as i128));
        i = i + 1;
    }
    assert(out.deep_view() =~= field_vars(fields as nat, earlier as nat));
    out
}

fn move_conclusion_indices(ixs: &Vec<Expr>, outer: i64, fields: u64, earlier: u64) -> (r: Vec<Expr>)
    requires
        earlier <= STEP_LIMIT,
    ensures
        r.deep_view() == conclusion_indices(
            ixs.deep_view(),
            outer as int,
            fields as nat,
            earlier as nat,
        ),
{
    let ghost iv = ixs.deep_view();
    let mut out: Vec<Expr> = Vec::new();
    let mut i: usize = 0;
    while i < ixs.len()
        invariant
            i <= ixs.len(),
            earlier <= STEP_LIMIT,
            iv == ixs.deep_view(),
            out.len() == i,
            forall|j: int|
                0 <= j < i ==> (#[trigger] out@[j])@ == lift(
                    lift(iv[j], outer as int, fields as nat),
                    earlier as int,
                    0,
                ),
        decreases ixs.len() - i,
    {
        out.push(shift(&shift(&ixs[i], outer, fields), earlier as i64, 0));
        i = i + 1;
    }
    assert(out.deep_view() =~= conclusion_indices(
        iv,
        outer as int,
        fields as nat,
        earlier as nat,
    ));
    out
}

fn mk_minor_conclusion(
    owner: &RecMember,
    owner_pos: usize,
    ctor: &RecConstructor,
    ixs: &Vec<Expr>,
    np: u32,
    outer_depth: u64,
    fields: u64,
    earlier: u64,
) -> (r: Expr)
    requires
        np <= outer_depth <= SIZE_LIMIT,
        fields <= STEP_LIMIT,
        earlier <= STEP_LIMIT,
    ensures
        r@ == minor_conclusion(
            owner.deep_view(),
            owner_pos as nat,
            ctor.deep_view(),
            ixs.deep_view(),
            np,
            outer_depth as nat,
            fields as nat,
            earlier as nat,
        ),
{
    let depth: u64 = outer_depth + fields + earlier;
    let motive = mk_var(depth as i128 - 1 - (np as i128 + owner_pos as i128));
    let mut args = shift_exprs(&owner.fixed_params, depth as i64 - np as i64);
    let ghost front = args.deep_view();
    let mut vars = mk_field_vars(fields, earlier);
    let ghost back = vars.deep_view();
    args.append(&mut vars);
    assert(args.deep_view() =~= front + back);
    let built = apps(const_(ctor.name, clone_levels(&ctor.levels)), &args);
    let mut all = move_conclusion_indices(
        ixs,
        outer_depth as i64 - np as i64,
        fields,
        earlier,
    );
    let ghost front2 = all.deep_view();
    let ghost bv = built@;
    all.push(built);
    assert(all.deep_view() =~= front2.push(bv));
    apps(motive, &all)
}

/// What stays the same through the building of one minor premise.
struct Minor<'m> {
    names: &'m Vec<u32>,
    members: &'m Vec<RecMember>,
    np: u32,
    outer_depth: u64,
}

impl<'m> View for Minor<'m> {
    type V = MinorT;

    closed spec fn view(&self) -> MinorT {
        MinorT {
            names: self.names@,
            members: self.members.deep_view(),
            np: self.np,
            outer_depth: self.outer_depth as nat,
        }
    }
}

fn total_ctors(members: &Vec<RecMember>) -> (r: u32)
    ensures
        r == clamp_index(count_ctors(members.deep_view(), 0) as int),
{
    let ghost mv = members.deep_view();
    let mut i: usize = members.len();
    let mut n: u32 = 0;
    while i > 0
        invariant
            i <= members.len(),
            mv == members.deep_view(),
            n == clamp_index(count_ctors(mv, i as nat) as int),
        decreases i,
    {
        i = i - 1;
        assert(mv[i as int] == members@[i as int].deep_view());
        assert(mv[i as int].ctors.len() == members@[i as int].ctors.len());
        let here: u128 = members[i].ctors.len() as u128 + n as u128;
        n = crate::expr::clamp(here as i128);
    }
    n
}

fn join_lists(a: &Vec<u32>, b: &Vec<u32>) -> (r: Vec<u32>)
    ensures
        r@ == join_ids(a@, b@),
{
    let mut out = a.clone();
    assert(out@ =~= a@);
    let mut i: usize = 0;
    assert(b@.take(0) =~= Seq::<u32>::empty());
    while i < b.len()
        invariant
            i <= b.len(),
            out@ == join_ids(a@, b@.take(i as int)),
        decreases b.len() - i,
    {
        assert(b@.take(i + 1).drop_last() =~= b@.take(i as int));
        assert(b@.take(i + 1).last() == b@[i as int]);
        if !has_id(&out, b[i]) {
            out.push(b[i]);
        }
        i = i + 1;
    }
    assert(b@.take(i as int) =~= b@);
    out
}

fn lists_more(a: &Vec<u32>, b: &Vec<u32>) -> (r: bool)
    ensures
        r == names_more(a@, b@),
{
    let mut i: usize = 0;
    while i < a.len()
        invariant
            i <= a.len(),
            forall|j: int| 0 <= j < i ==> b@.contains(#[trigger] a@[j]),
        decreases a.len() - i,
    {
        if !has_id(b, a[i]) {
            assert(!b@.contains(a@[i as int]));
            return true;
        }
        i = i + 1;
    }
    false
}

fn find_unused(used: &Vec<u32>, next: u32) -> (r: Option<u32>)
    ensures
        r == unused_from(used@, next),
{
    let mut cur: u32 = next;
    loop
        invariant
            cur <= next,
            unused_from(used@, cur) == unused_from(used@, next),
        decreases cur,
    {
        if !has_id(used, cur) {
            return Some(cur);
        }
        if cur == 0 {
            return None;
        }
        cur = cur - 1;
    }
}

fn pick_fresh(used: &Vec<u32>, n: usize) -> (r: R<Vec<u32>>)
    ensures
        match r {
            Ok(v) => fresh_ids(used@, u32::MAX, n as nat, Seq::empty()) == Ok::<Seq<u32>, Fault>(
                v@,
            ),
            Err(e) => fresh_ids(used@, u32::MAX, n as nat, Seq::empty()) == Err::<Seq<u32>, Fault>(
                e@,
            ),
        },
{
    let mut taken = used.clone();
    assert(taken@ =~= used@);
    let mut next: u32 = u32::MAX;
    let mut out: Vec<u32> = Vec::new();
    let mut left: usize = n;
    assert(out@ =~= Seq::<u32>::empty());
    while left > 0
        invariant
            left <= n,
            fresh_ids(taken@, next, left as nat, out@) == fresh_ids(
                used@,
                u32::MAX,
                n as nat,
                Seq::empty(),
            ),
        decreases left,
    {
        match find_unused(&taken, next) {
            None => {
                return other("cannot allocate canonical universe parameter");
            },
            Some(x) => {
                if x == 0 {
                    return other("cannot allocate canonical universe parameter");
                }
                taken.push(x);
                out.push(x);
                next = x - 1;
            },
        }
        left = left - 1;
    }
    Ok(out)
}

impl<'e> Checker<'e> {
    fn build_index_binders(
        &self,
        m: Mode,
        ctx: &Ctx,
        t: &Expr,
        n: u32,
        by: i64,
        acc: Vec<RecBinder>,
    ) -> (r: R<Vec<RecBinder>>)
        ensures
            res(r) == index_binders(
                self@,
                sem_at(self@, self.budget),
                m,
                ctx@,
                t@,
                0,
                n as nat,
                by as int,
                acc.deep_view(),
            ),
            r matches Ok(v) ==> v.len() == acc.len() + n,
    {
        let ghost s = sem_at(self@, self.budget);
        let ghost start = acc.deep_view();
        let ghost count = acc.len();
        let mut c = ctx.clone();
        let mut cur = t.clone();
        let mut out = acc;
        let mut i: u32 = 0;
        while i < n
            invariant
                i <= n,
                s == sem_at(self@, self.budget),
                start == acc.deep_view(),
                count == acc.len(),
                out.len() == count + i,
                index_binders(
                    self@,
                    s,
                    m,
                    c@,
                    cur@,
                    i as nat,
                    n as nat,
                    by as int,
                    out.deep_view(),
                ) == index_binders(self@, s, m, ctx@, t@, 0, n as nat, by as int, start),
            decreases n - i,
        {
            let (bi, dom, body) = self.ensure_pi_at(self.budget, m, &c, &cur)?;
            let b = RecBinder { info: bi, typ: shift(&dom, by, i as u64) };
            let ghost before = out.deep_view();
            let ghost bv = b.deep_view();
            out.push(b);
            assert(out.deep_view() =~= before.push(bv));
            c.push(dom);
            cur = body;
            i = i + 1;
        }
        Ok(out)
    }

    fn build_motive(&self, m: Mode, mb: &RecMember, np: u32, elim: &Level, base: usize) -> (r: R<
        RecBinder,
    >)
        ensures
            res(r) == motive_binder(
                self@,
                sem_at(self@, self.budget),
                m,
                mb.deep_view(),
                np,
                elim@,
                base as nat,
            ),
            r is Ok ==> np <= base,
    {
        proof {
            reveal(motive_binder);
        }
        if base as u64 > SIZE_LIMIT as u64 {
            return decline("recursor is too large");
        }
        let empty = Ctx::new();
        assert(empty@ =~= Seq::<Term>::empty());
        let (c, t) = self.open_binders(self.budget, m, &empty, &mb.typ, np)?;
        if (base as u64) < (np as u64) {
            if mb.num_indices == 0 {
                return other("recursor member context underflow");
            }
            self.ensure_pi_at(self.budget, m, &c, &t)?;
            return other("motive context underflow");
        }
        let none: Vec<RecBinder> = Vec::new();
        assert(none.deep_view() =~= Seq::<BinderT>::empty());
        let by: i64 = base as i64 - np as i64;
        let ixs = self.build_index_binders(m, &c, &t, mb.num_indices, by, none)?;
        let major = member_app(
            mb,
            np,
            base as u64 + mb.num_indices as u64,
            &vars_down(mb.num_indices),
        );
        let result = pi(BinderInfo::Default, major, sort(elim.clone()));
        Ok(RecBinder { info: BinderInfo::Default, typ: close_rec_telescope(&ixs, result) })
    }

    fn build_motives(
        &self,
        m: Mode,
        members: &Vec<RecMember>,
        np: u32,
        elim: &Level,
        params: Vec<RecBinder>,
    ) -> (r: R<Vec<RecBinder>>)
        ensures
            res(r) == motive_binders(
                self@,
                sem_at(self@, self.budget),
                m,
                members.deep_view(),
                np,
                elim@,
                0,
                params.deep_view(),
            ),
            r matches Ok(v) ==> members.len() > 0 ==> np <= v.len(),
    {
        let ghost s = sem_at(self@, self.budget);
        let ghost mv = members.deep_view();
        let ghost start = params.deep_view();
        let mut out = params;
        let mut i: usize = 0;
        while i < members.len()
            invariant
                i <= members.len(),
                s == sem_at(self@, self.budget),
                mv == members.deep_view(),
                start == params.deep_view(),
                i > 0 ==> np <= out.len(),
                motive_binders(self@, s, m, mv, np, elim@, i as nat, out.deep_view())
                    == motive_binders(self@, s, m, mv, np, elim@, 0, start),
            decreases members.len() - i,
        {
            assert(mv[i as int] == members@[i as int].deep_view());
            assert(out.deep_view().len() == out.len());
            let b = self.build_motive(m, &members[i], np, elim, out.len())?;
            let ghost before = out.deep_view();
            let ghost bv = b.deep_view();
            out.push(b);
            assert(out.deep_view() =~= before.push(bv));
            i = i + 1;
        }
        Ok(out)
    }

    fn read_fields(&self, m: Mode, ctx: &Ctx, t: &Expr) -> (r: R<(Vec<Field>, Ctx, Expr)>)
        ensures
            match r {
                Ok((fs, c, e)) => ctor_fields(
                    self@,
                    sem_at(self@, self.budget),
                    m,
                    ctx@,
                    t@,
                    Seq::empty(),
                    STEP_LIMIT as nat,
                ) == Ok::<(Seq<FieldT>, Seq<Term>, Term), Fault>((fs.deep_view(), c@, e@))
                    && fs.len() <= STEP_LIMIT && forall|j: int|
                    0 <= j < fs.len() ==> (#[trigger] fs.deep_view()[j]).ctx.len() == ctx@.len()
                        + j,
                Err(f) => ctor_fields(
                    self@,
                    sem_at(self@, self.budget),
                    m,
                    ctx@,
                    t@,
                    Seq::empty(),
                    STEP_LIMIT as nat,
                ) == Err::<(Seq<FieldT>, Seq<Term>, Term), Fault>(f@),
            },
    {
        let ghost s = sem_at(self@, self.budget);
        let mut c = ctx.clone();
        let mut cur = t.clone();
        let mut out: Vec<Field> = Vec::new();
        let mut left: u32 = STEP_LIMIT;
        assert(out.deep_view() =~= Seq::<FieldT>::empty());
        loop
            invariant
                left <= STEP_LIMIT,
                out.len() == STEP_LIMIT - left,
                c@.len() == ctx@.len() + out.len(),
                forall|j: int|
                    0 <= j < out.len() ==> (#[trigger] out.deep_view()[j]).ctx.len() == ctx@.len()
                        + j,
                s == sem_at(self@, self.budget),
                ctor_fields(self@, s, m, c@, cur@, out.deep_view(), left as nat) == ctor_fields(
                    self@,
                    s,
                    m,
                    ctx@,
                    t@,
                    Seq::empty(),
                    STEP_LIMIT as nat,
                ),
            decreases left,
        {
            match self.ensure_pi_at(self.budget, m, &c, &cur) {
                Err(_) => {
                    return Ok((out, c, cur));
                },
                Ok((bi, dom, body)) => {
                    if left == 0 {
                        return decline("WHNF step limit");
                    }
                    let f = Field { info: bi, dom: dom.clone(), ctx: c.clone() };
                    let ghost before = out.deep_view();
                    let ghost fv = f.deep_view();
                    out.push(f);
                    assert(out.deep_view() =~= before.push(fv));
                    c.push(dom);
                    cur = body;
                    left = left - 1;
                },
            }
        }
    }

    fn read_hypothesis_args(
        &self,
        m: Mode,
        ctx: &Ctx,
        t: &Expr,
        outer: i64,
        inner: i64,
        pos: u64,
    ) -> (r: R<(Vec<RecBinder>, Ctx, Expr)>)
        requires
            pos <= STEP_LIMIT,
        ensures
            match r {
                Ok((bs, c, e)) => hypothesis_args(
                    self@,
                    sem_at(self@, self.budget),
                    m,
                    ctx@,
                    t@,
                    outer as int,
                    inner as int,
                    pos as nat,
                    Seq::empty(),
                    STEP_LIMIT as nat,
                ) == Ok::<(Seq<BinderT>, Seq<Term>, Term), Fault>((bs.deep_view(), c@, e@))
                    && bs.len() <= STEP_LIMIT && c@.len() == ctx@.len() + bs.len(),
                Err(f) => hypothesis_args(
                    self@,
                    sem_at(self@, self.budget),
                    m,
                    ctx@,
                    t@,
                    outer as int,
                    inner as int,
                    pos as nat,
                    Seq::empty(),
                    STEP_LIMIT as nat,
                ) == Err::<(Seq<BinderT>, Seq<Term>, Term), Fault>(f@),
            },
    {
        let ghost s = sem_at(self@, self.budget);
        let mut c = ctx.clone();
        let mut cur = t.clone();
        let mut out: Vec<RecBinder> = Vec::new();
        let mut left: u32 = STEP_LIMIT;
        assert(out.deep_view() =~= Seq::<BinderT>::empty());
        loop
            invariant
                left <= STEP_LIMIT,
                pos <= STEP_LIMIT,
                out.len() == STEP_LIMIT - left,
                c@.len() == ctx@.len() + out.len(),
                s == sem_at(self@, self.budget),
                hypothesis_args(
                    self@,
                    s,
                    m,
                    c@,
                    cur@,
                    outer as int,
                    inner as int,
                    pos as nat,
                    out.deep_view(),
                    left as nat,
                ) == hypothesis_args(
                    self@,
                    s,
                    m,
                    ctx@,
                    t@,
                    outer as int,
                    inner as int,
                    pos as nat,
                    Seq::empty(),
                    STEP_LIMIT as nat,
                ),
            decreases left,
        {
            match self.ensure_pi_at(self.budget, m, &c, &cur) {
                Err(_) => {
                    return Ok((out, c, cur));
                },
                Ok((bi, dom, body)) => {
                    if left == 0 {
                        return decline("WHNF step limit");
                    }
                    assert(out.deep_view().len() == out.len());
                    let b = RecBinder {
                        info: bi,
                        typ: move_into_hypothesis(&dom, outer, inner, pos, out.len() as u64),
                    };
                    let ghost before = out.deep_view();
                    let ghost bv = b.deep_view();
                    out.push(b);
                    assert(out.deep_view() =~= before.push(bv));
                    c.push(dom);
                    cur = body;
                    left = left - 1;
                },
            }
        }
    }

    fn find_recursive_target(&self, m: Mode, members: &Vec<RecMember>, ctx: &Ctx, t: &Expr, np: u32) -> (r:
        R<Option<(usize, Vec<Expr>)>>)
        requires
            np <= ctx@.len() <= 0x3_0000_0000,
        ensures
            match recursive_target(
                sem_at(self@, self.budget),
                m,
                ctx@,
                members.deep_view(),
                t@,
                np,
            ) {
                Ok(Some((i, ixs))) => r matches Ok(Some((j, v))) && j as nat == i && v.deep_view()
                    == ixs,
                Ok(None) => r matches Ok(None),
                Err(f) => r matches Err(x) && x@ == f,
            },
    {
        match find_member_target(members, t, np, ctx.len() as u64) {
            Some(x) => Ok(Some(x)),
            None => self.find_member_target_defeq(m, members, t, np, ctx),
        }
    }

    fn add_hypothesis(&self, m: Mode, mi: &Minor, fields: &Vec<Field>, pos: usize, acc: Vec<RecBinder>) -> (r:
        R<Vec<RecBinder>>)
        requires
            mi.np <= mi.outer_depth <= SIZE_LIMIT,
            pos < fields.len() <= STEP_LIMIT,
            fields.len() <= acc.len() <= fields.len() + pos,
            fields.deep_view()[pos as int].ctx.len() == mi.np + pos,
        ensures
            res(r) == with_hypothesis(
                self@,
                sem_at(self@, self.budget),
                m,
                mi@,
                fields.deep_view(),
                pos as nat,
                acc.deep_view(),
            ),
            r matches Ok(v) ==> acc.len() <= v.len() <= acc.len() + 1,
    {
        proof {
            reveal(with_hypothesis);
        }
        assert(acc.len() == acc.deep_view().len() && fields.len() == fields.deep_view().len());
        assert(fields.deep_view()[pos as int] == fields@[pos as int].deep_view());
        let earlier: u64 = (acc.len() - fields.len()) as u64;
        let n: u64 = fields.len() as u64;
        let outer: i64 = mi.outer_depth as i64 - mi.np as i64;
        let inner: i64 = (n - pos as u64 + earlier) as i64;
        let f = &fields[pos];
        let w = self.whnf_at(self.budget, m, &f.ctx, &f.dom)?;
        let (binders, c, t) = self.read_hypothesis_args(m, &f.ctx, &w, outer, inner, pos as u64)?;
        match self.find_recursive_target(m, mi.members, &c, &t, mi.np)? {
            Some((member, ixs)) => {
                let h = mk_hypothesis(
                    &binders,
                    mi.np,
                    member,
                    &ixs,
                    mi.outer_depth,
                    n,
                    earlier,
                    pos as u64,
                );
                let ghost before = acc.deep_view();
                let ghost hv = h.deep_view();
                let mut out = acc;
                out.push(h);
                assert(out.deep_view() =~= before.push(hv));
                Ok(out)
            },
            None => {
                let local: u32 = crate::expr::clamp(c.len() as i128 - mi.np as i128);
                if contains_current_member(&t, local, mi.np, mi.names, mi.members) {
                    return reject(
                        "recursive field does not exactly match a reconstructed member specialization",
                    );
                }
                Ok(acc)
            },
        }
    }

    fn add_hypotheses(&self, m: Mode, mi: &Minor, fields: &Vec<Field>, start: Vec<RecBinder>) -> (r:
        R<Vec<RecBinder>>)
        requires
            mi.np <= mi.outer_depth <= SIZE_LIMIT,
            fields.len() <= STEP_LIMIT,
            start.len() == fields.len(),
            forall|j: int|
                0 <= j < fields.len() ==> (#[trigger] fields.deep_view()[j]).ctx.len() == mi.np + j,
        ensures
            res(r) == with_hypotheses(
                self@,
                sem_at(self@, self.budget),
                m,
                mi@,
                fields.deep_view(),
                0,
                start.deep_view(),
            ),
            r matches Ok(v) ==> fields.len() <= v.len() <= 2 * fields.len(),
    {
        let ghost s = sem_at(self@, self.budget);
        let ghost fv = fields.deep_view();
        let ghost sv = start.deep_view();
        let mut out = start;
        let mut pos: usize = 0;
        while pos < fields.len()
            invariant
                pos <= fields.len(),
                mi.np <= mi.outer_depth <= SIZE_LIMIT,
                fields.len() <= STEP_LIMIT,
                fields.len() <= out.len() <= fields.len() + pos,
                fv == fields.deep_view(),
                sv == start.deep_view(),
                forall|j: int|
                    0 <= j < fields.len() ==> (#[trigger] fields.deep_view()[j]).ctx.len() == mi.np
                        + j,
                s == sem_at(self@, self.budget),
                with_hypotheses(self@, s, m, mi@, fv, pos as nat, out.deep_view())
                    == with_hypotheses(self@, s, m, mi@, fv, 0, sv),
            decreases fields.len() - pos,
        {
            assert(fields.deep_view()[pos as int].ctx.len() == mi.np + pos);
            out = self.add_hypothesis(m, mi, fields, pos, out)?;
            pos = pos + 1;
        }
        Ok(out)
    }

    fn build_minor(&self, m: Mode, mi: &Minor, owner_pos: usize, ctor: &RecConstructor) -> (r: R<
        Expr,
    >)
        ensures
            res(r) == minor_type(
                self@,
                sem_at(self@, self.budget),
                m,
                mi@,
                owner_pos as nat,
                ctor.deep_view(),
            ),
    {
        proof {
            reveal(minor_type);
        }
        if mi.outer_depth > SIZE_LIMIT as u64 {
            return decline("recursor is too large");
        }
        let empty = Ctx::new();
        assert(empty@ =~= Seq::<Term>::empty());
        proof {
            crate::inductive::lemma_open_count(
                self@,
                sem_at(self@, self.budget),
                m,
                empty@,
                ctor.typ@,
                mi.np as nat,
            );
        }
        let (c0, t0) = self.open_binders(self.budget, m, &empty, &ctor.typ, mi.np)?;
        let (fields, _c1, concl) = self.read_fields(m, &c0, &t0)?;
        assert(fields.len() == fields.deep_view().len());
        let n: u64 = fields.len() as u64;
        if mi.outer_depth < mi.np as u64 {
            return other("minor context underflow");
        }
        let (owner, ixs) = match find_member_target(mi.members, &concl, mi.np, mi.np as u64 + n) {
            Some(x) => x,
            None => {
                return reject("constructor conclusion is outside reconstructed mutual group");
            },
        };
        if owner != owner_pos {
            return reject("constructor conclusion has the wrong reconstructed owner");
        }
        let by: i64 = mi.outer_depth as i64 - mi.np as i64;
        let start = mk_field_telescope(&fields, by);
        let local = self.add_hypotheses(m, mi, &fields, start)?;
        assert(local.len() == local.deep_view().len());
        let earlier: u64 = local.len() as u64 - n;
        assert(mi.members.deep_view()[owner_pos as int] == mi.members@[owner_pos as int].deep_view());
        let e = mk_minor_conclusion(
            &mi.members[owner_pos],
            owner_pos,
            ctor,
            &ixs,
            mi.np,
            mi.outer_depth,
            n,
            earlier,
        );
        Ok(close_rec_telescope(&local, e))
    }

    /// The type of the minor premise for a constructor, behind `outer_depth`
    /// other binders.
    pub fn build_minor_type(
        &self,
        m: Mode,
        names: &Vec<u32>,
        members: &Vec<RecMember>,
        owner_pos: usize,
        ctor: &RecConstructor,
        np: u32,
        outer_depth: usize,
    ) -> (r: R<Expr>)
        ensures
            res(r) == minor_type(
                self@,
                sem_at(self@, self.budget),
                m,
                (MinorT {
                    names: names@,
                    members: members.deep_view(),
                    np,
                    outer_depth: outer_depth as nat,
                }),
                owner_pos as nat,
                ctor.deep_view(),
            ),
    {
        let mi = Minor { names, members, np, outer_depth: outer_depth as u64 };
        self.build_minor(m, &mi, owner_pos, ctor)
    }

    fn build_ctor_minors(
        &self,
        m: Mode,
        names: &Vec<u32>,
        members: &Vec<RecMember>,
        np: u32,
        owner: usize,
        acc: Vec<RecBinder>,
    ) -> (r: R<Vec<RecBinder>>)
        requires
            np <= acc.len(),
            owner < members.len(),
        ensures
            res(r) == ctor_minors(
                self@,
                sem_at(self@, self.budget),
                m,
                names@,
                members.deep_view(),
                np,
                owner as nat,
                members.deep_view()[owner as int].ctors,
                0,
                acc.deep_view(),
            ),
            r matches Ok(v) ==> np <= v.len(),
    {
        let ghost s = sem_at(self@, self.budget);
        let ghost mv = members.deep_view();
        let ctors = &members[owner].ctors;
        let ghost cv = ctors.deep_view();
        assert(mv[owner as int] == members@[owner as int].deep_view());
        let ghost start = acc.deep_view();
        let mut out = acc;
        let mut j: usize = 0;
        while j < ctors.len()
            invariant
                j <= ctors.len(),
                owner < members.len(),
                np <= out.len(),
                mv == members.deep_view(),
                cv == ctors.deep_view(),
                start == acc.deep_view(),
                mv[owner as int].ctors == cv,
                s == sem_at(self@, self.budget),
                ctor_minors(
                    self@,
                    s,
                    m,
                    names@,
                    mv,
                    np,
                    owner as nat,
                    cv,
                    j as nat,
                    out.deep_view(),
                ) == ctor_minors(self@, s, m, names@, mv, np, owner as nat, cv, 0, start),
            decreases ctors.len() - j,
        {
            assert(cv[j as int] == ctors@[j as int].deep_view());
            assert(out.deep_view().len() == out.len());
            let t = self.build_minor_type(m, names, members, owner, &ctors[j], np, out.len())?;
            let b = RecBinder { info: BinderInfo::Default, typ: t };
            let ghost before = out.deep_view();
            let ghost bv = b.deep_view();
            out.push(b);
            assert(out.deep_view() =~= before.push(bv));
            j = j + 1;
        }
        Ok(out)
    }

    fn build_minors(
        &self,
        m: Mode,
        names: &Vec<u32>,
        members: &Vec<RecMember>,
        np: u32,
        acc: Vec<RecBinder>,
    ) -> (r: R<Vec<RecBinder>>)
        requires
            np <= acc.len(),
        ensures
            res(r) == minor_binders(
                self@,
                sem_at(self@, self.budget),
                m,
                names@,
                members.deep_view(),
                np,
                0,
                acc.deep_view(),
            ),
            r matches Ok(v) ==> np <= v.len(),
    {
        let ghost s = sem_at(self@, self.budget);
        let ghost mv = members.deep_view();
        let ghost start = acc.deep_view();
        let mut out = acc;
        let mut i: usize = 0;
        while i < members.len()
            invariant
                i <= members.len(),
                np <= out.len(),
                mv == members.deep_view(),
                start == acc.deep_view(),
                s == sem_at(self@, self.budget),
                minor_binders(self@, s, m, names@, mv, np, i as nat, out.deep_view())
                    == minor_binders(self@, s, m, names@, mv, np, 0, start),
            decreases members.len() - i,
        {
            out = self.build_ctor_minors(m, names, members, np, i, out)?;
            i = i + 1;
        }
        Ok(out)
    }

    fn close_recursor_type(
        &self,
        m: Mode,
        target: &RecMember,
        target_pos: usize,
        np: u32,
        binders: Vec<RecBinder>,
    ) -> (r: R<Expr>)
        requires
            np <= binders.len(),
        ensures
            res(r) == close_recursor(
                self@,
                sem_at(self@, self.budget),
                m,
                target.deep_view(),
                target_pos as nat,
                np,
                binders.deep_view(),
            ),
    {
        proof {
            reveal(close_recursor);
        }
        assert(binders.len() == binders.deep_view().len());
        if binders.len() as u64 > SIZE_LIMIT as u64 {
            return decline("recursor is too large");
        }
        let empty = Ctx::new();
        assert(empty@ =~= Seq::<Term>::empty());
        let (c, t) = self.open_binders(self.budget, m, &empty, &target.typ, np)?;
        let by: i64 = binders.len() as i64 - np as i64;
        let mut b1 = self.build_index_binders(m, &c, &t, target.num_indices, by, binders)?;
        assert(b1.len() == b1.deep_view().len());
        let major = member_app(target, np, b1.len() as u64, &vars_down(target.num_indices));
        let b = RecBinder { info: BinderInfo::Default, typ: major };
        let ghost before = b1.deep_view();
        let ghost bv = b.deep_view();
        b1.push(b);
        assert(b1.deep_view() =~= before.push(bv));
        let motive = mk_var(b1.len() as i128 - 1 - (np as i128 + target_pos as i128));
        let vars = raised_vars(target.num_indices);
        assert(vars.deep_view() =~= down_vars((target.num_indices + 1) as nat));
        Ok(close_rec_telescope(&b1, apps(motive, &vars)))
    }

    /// The type of the recursor for the member at a position.
    pub fn build_base_recursor_type(
        &self,
        m: Mode,
        names: &Vec<u32>,
        members: &Vec<RecMember>,
        target_pos: usize,
        np: u32,
        params: &Vec<RecBinder>,
        elim: &Level,
    ) -> (r: R<Expr>)
        requires
            target_pos < members.len(),
        ensures
            res(r) == recursor_type(
                self@,
                sem_at(self@, self.budget),
                m,
                names@,
                members.deep_view(),
                target_pos as nat,
                np,
                params.deep_view(),
                elim@,
            ),
    {
        proof {
            reveal(recursor_type);
        }
        let start = copy_binders(params);
        let b1 = self.build_motives(m, members, np, elim, start)?;
        let b2 = self.build_minors(m, names, members, np, b1)?;
        assert(members.deep_view()[target_pos as int] == members@[target_pos as int].deep_view());
        self.close_recursor_type(m, &members[target_pos], target_pos, np, b2)
    }

    fn find_common_level(&self, m: Mode, members: &Vec<RecMember>, np: u32) -> (r: R<Option<Level>>)
        ensures
            res(r) == common_level(
                self@,
                sem_at(self@, self.budget),
                m,
                members.deep_view(),
                np,
                0,
                None,
            ),
    {
        let ghost s = sem_at(self@, self.budget);
        let ghost mv = members.deep_view();
        let mut found: Option<Level> = None;
        let mut i: usize = 0;
        while i < members.len()
            invariant
                i <= members.len(),
                mv == members.deep_view(),
                s == sem_at(self@, self.budget),
                common_level(self@, s, m, mv, np, i as nat, found.deep_view()) == common_level(
                    self@,
                    s,
                    m,
                    mv,
                    np,
                    0,
                    None,
                ),
            decreases members.len() - i,
        {
            let mb = &members[i];
            assert(mv[i as int] == mb.deep_view());
            let empty = Ctx::new();
            assert(empty@ =~= Seq::<Term>::empty());
            proof {
                crate::inductive::lemma_open_split(
                    self@,
                    s,
                    m,
                    empty@,
                    mb.typ@,
                    np as nat,
                    mb.num_indices as nat,
                );
            }
            let (c1, t1) = self.open_binders(self.budget, m, &empty, &mb.typ, np)?;
            let (c, t) = self.open_binders(self.budget, m, &c1, &t1, mb.num_indices)?;
            let l = self.ensure_sort_at(self.budget, m, &c, &t)?;
            match &found {
                None => {
                    found = Some(l);
                },
                Some(l0) => {
                    if !is_def_eq(l0, &l) {
                        return reject("nested auxiliary member has a different result universe");
                    }
                },
            }
            i = i + 1;
        }
        Ok(found)
    }

    /// Whether the recursors of an expanded group eliminate into propositions
    /// alone.
    pub fn expanded_prop_only(&self, m: Mode, names: &Vec<u32>, members: &Vec<RecMember>, np: u32) -> (r:
        R<bool>)
        requires
            names.len() > 0,
        ensures
            res(r) == prop_only_spec(
                self@,
                sem_at(self@, self.budget),
                m,
                names@,
                members.deep_view(),
                np,
            ),
    {
        proof {
            reveal(prop_only_spec);
        }
        assert(members.len() == members.deep_view().len());
        let found = self.find_common_level(m, members, np)?;
        if members.len() == names.len() {
            return self.elim_only_at_universe_zero(m, names);
        }
        match found {
            None => other("expanded recursor group is empty"),
            Some(l) => Ok(!is_not_zero(&l)),
        }
    }

    fn group_agrees(&self, all: &Vec<u32>, np: u32, lps: &Vec<u32>) -> (r: bool)
        ensures
            r == all_belong(self@, all@, np, lps@),
    {
        let mut i: usize = 0;
        while i < all.len()
            invariant
                i <= all.len(),
                forall|j: int| 0 <= j < i ==> #[trigger] belongs(self@, all@[j], all@, np, lps@),
            decreases all.len() - i,
        {
            let ok = match self.env.get(all[i]) {
                Some(
                    ConstantInfo::InductiveType { all: a, num_params, level_params, .. },
                ) => same_ids(a, all) && *num_params == np && same_ids(level_params, lps),
                _ => false,
            };
            assert(ok == belongs(self@, all@[i as int], all@, np, lps@));
            if !ok {
                return false;
            }
            i = i + 1;
        }
        true
    }

    fn expand_at(
        &self,
        m: Mode,
        typ: &Expr,
        all: &Vec<u32>,
        np: u32,
        lps: &Vec<u32>,
        levels: &Vec<Level>,
    ) -> (r: R<(Vec<RecBinder>, Vec<RecMember>)>)
        ensures
            res(r) == members_at(
                self@,
                sem_at(self@, self.budget),
                m,
                typ@,
                all@,
                np,
                lps@,
                levels.deep_view(),
            ),
            r matches Ok(p) ==> p.0.len() == np,
    {
        proof {
            reveal(members_at);
        }
        let params = self.rec_params(m, &instantiate_level_params(typ, lps, levels), np)?;
        let own = self.original_rec_members(all, np, lps, levels)?;
        let names = all.clone();
        assert(names@ =~= all@);
        let sc = Scan { np, current: params, names };
        let members = self.expand_nested_members(m, &sc, own)?;
        Ok((sc.current, members))
    }

    fn derive_all(
        &self,
        m: Mode,
        names: &Vec<u32>,
        members: &Vec<RecMember>,
        np: u32,
        params: &Vec<RecBinder>,
        elim: &Level,
        level_params: &Vec<u32>,
        k: bool,
    ) -> (r: R<Vec<DerivedRecursor>>)
        requires
            np <= params.len(),
        ensures
            res(r) == derive_from(
                self@,
                sem_at(self@, self.budget),
                m,
                (GroupT {
                    names: names@,
                    members: members.deep_view(),
                    np,
                    params: params.deep_view(),
                    elim: elim@,
                    level_params: level_params@,
                    k,
                }),
                0,
                Seq::empty(),
            ),
    {
        let ghost s = sem_at(self@, self.budget);
        let ghost gr = GroupT {
            names: names@,
            members: members.deep_view(),
            np,
            params: params.deep_view(),
            elim: elim@,
            level_params: level_params@,
            k,
        };
        let minors: u32 = total_ctors(members);
        let motives: u32 = crate::expr::clamp(members.len() as i128);
        let mut out: Vec<DerivedRecursor> = Vec::new();
        let mut i: usize = 0;
        assert(out.deep_view() =~= Seq::<DerivedT>::empty());
        assert(members.len() == members.deep_view().len());
        while i < members.len()
            invariant
                i <= members.len(),
                np <= params.len(),
                gr == (GroupT {
                    names: names@,
                    members: members.deep_view(),
                    np,
                    params: params.deep_view(),
                    elim: elim@,
                    level_params: level_params@,
                    k,
                }),
                gr.members.len() == members.len(),
                minors == clamp_index(count_ctors(gr.members, 0) as int),
                motives == clamp_index(gr.members.len() as int),
                s == sem_at(self@, self.budget),
                derive_from(self@, s, m, gr, i as nat, out.deep_view()) == derive_from(
                    self@,
                    s,
                    m,
                    gr,
                    0,
                    Seq::empty(),
                ),
            decreases members.len() - i,
        {
            assert(gr.members[i as int] == members@[i as int].deep_view());
            let t = self.build_base_recursor_type(m, names, members, i, np, params, elim)?;
            let lps = level_params.clone();
            let all = names.clone();
            assert(lps@ =~= level_params@);
            assert(all@ =~= names@);
            let d = DerivedRecursor {
                typ: t,
                level_params: lps,
                all,
                num_params: np,
                num_indices: members[i].num_indices,
                num_motives: motives,
                num_minors: minors,
                k,
            };
            let ghost before = out.deep_view();
            let ghost dv = d.deep_view();
            out.push(d);
            assert(out.deep_view() =~= before.push(dv));
            i = i + 1;
        }
        Ok(out)
    }

    fn derive_group_at(
        &self,
        m: Mode,
        typ: &Expr,
        all: &Vec<u32>,
        np: u32,
        lps: &Vec<u32>,
        supplied: &Vec<u32>,
    ) -> (r: R<Vec<DerivedRecursor>>)
        requires
            all.len() > 0,
        ensures
            res(r) == derive_group(
                self@,
                sem_at(self@, self.budget),
                m,
                typ@,
                all@,
                np,
                lps@,
                supplied@,
            ),
    {
        proof {
            reveal(derive_group);
        }
        let (_, found) = self.expand_at(
            m,
            typ,
            all,
            np,
            lps,
            &crate::inductive::mk_param_levels(lps),
        )?;
        assert(found.len() == found.deep_view().len());
        let prop_only = self.expanded_prop_only(m, all, &found, np)?;
        if !ids_are_pairwise_distinct(supplied) {
            return reject("recursor has duplicate universe parameters");
        }
        if prop_only && supplied.len() != lps.len() {
            return reject("Prop-only recursor has the wrong universe-parameter shape");
        }
        if !prop_only && supplied.len() as u128 != lps.len() as u128 + 1 {
            return reject("recursor is missing its fresh elimination universe parameter");
        }
        let own = ids_from(
            supplied,
            if prop_only {
                0
            } else {
                1
            },
        );
        assert(supplied@.skip(0) =~= supplied@);
        let elim = if prop_only {
            zero()
        } else {
            param(supplied[0])
        };
        let (params, members) = self.expand_at(
            m,
            typ,
            all,
            np,
            lps,
            &crate::inductive::mk_param_levels(&own),
        )?;
        assert(members.len() == members.deep_view().len());
        if members.len() != found.len() {
            return other("nested recursor discovery changed under universe alpha-renaming");
        }
        let k = members.len() == 1 && self.is_k_like(self.budget, m, all);
        self.derive_all(m, all, &members, np, &params, &elim, supplied, k)
    }

    /// The recursors of a group of inductive types, built from the declarations of
    /// the group alone.
    pub fn reconstruct_recursors(&self, type_names: &Vec<u32>, supplied_level_params: &Vec<u32>) -> (r:
        R<Vec<DerivedRecursor>>)
        ensures
            res(r) == recursors_spec(
                self@,
                sem_at(self@, self.budget),
                start_mode(),
                type_names@,
                supplied_level_params@,
            ),
    {
        proof {
            reveal(recursors_spec);
        }
        if type_names.len() == 0 {
            return reject("cannot reconstruct recursors for an empty inductive group");
        }
        match self.env.get(type_names[0]) {
            Some(ConstantInfo::InductiveType { all, num_params, level_params, typ, .. }) => {
                if !same_ids(all, type_names) {
                    return reject(
                        "recursor reconstruction group is not the inductive declaration order",
                    );
                }
                if !self.group_agrees(all, *num_params, level_params) {
                    return reject(
                        "inconsistent mutual inductive group during recursor reconstruction",
                    );
                }
                self.derive_group_at(
                    Mode::start(),
                    typ,
                    all,
                    *num_params,
                    level_params,
                    supplied_level_params,
                )
            },
            _ => reject("recursor reconstruction requires an inductive type"),
        }
    }

    fn types_same(&self, m: Mode, a: &Expr, b: &Expr) -> (r: R<()>)
        ensures
            res(r) == same_types(self@, sem_at(self@, self.budget), m, a@, b@),
    {
        let empty = Ctx::new();
        assert(empty@ =~= Seq::<Term>::empty());
        self.sort_of_at(self.budget, m, &empty, a)?;
        self.sort_of_at(self.budget, m, &empty, b)?;
        if self.defeq_at(self.budget, m, &empty, a, b)? {
            return Ok(());
        }
        reject("recursor type does not match reconstructed type")
    }

    /// Whether a recursor's type is the one that was built for it, the universe
    /// parameters of both renamed to common ones.
    pub fn validate_reconstructed_type(
        &self,
        supplied: &Expr,
        supplied_level_params: &Vec<u32>,
        reconstructed: &Expr,
        reconstructed_level_params: &Vec<u32>,
    ) -> (r: R<()>)
        ensures
            res(r) == validate_spec(
                self@,
                sem_at(self@, self.budget),
                start_mode(),
                supplied@,
                supplied_level_params@,
                reconstructed@,
                reconstructed_level_params@,
            ),
    {
        proof {
            reveal(validate_spec);
        }
        if !is_closed(supplied) || !is_closed(reconstructed) {
            return reject("recursor type is not closed");
        }
        if supplied_level_params.len() != reconstructed_level_params.len()
            || !ids_are_pairwise_distinct(supplied_level_params) || !ids_are_pairwise_distinct(
            reconstructed_level_params,
        ) {
            return reject("recursor universe parameters do not match positionally");
        }
        let mut in_supplied: Vec<u32> = Vec::new();
        assert(in_supplied@ =~= Seq::<u32>::empty());
        collect_level_ids_expr(supplied, &mut in_supplied);
        if lists_more(&in_supplied, supplied_level_params) {
            return reject("recursor type uses an undeclared universe parameter");
        }
        let mut in_built: Vec<u32> = Vec::new();
        assert(in_built@ =~= Seq::<u32>::empty());
        collect_level_ids_expr(reconstructed, &mut in_built);
        if lists_more(&in_built, reconstructed_level_params) {
            return other("reconstructed recursor uses an undeclared universe parameter");
        }
        let u1 = join_lists(supplied_level_params, reconstructed_level_params);
        let u2 = join_lists(&u1, &in_supplied);
        let used = join_lists(&u2, &in_built);
        let ids = pick_fresh(&used, supplied_level_params.len())?;
        let levels = crate::inductive::mk_param_levels(&ids);
        let a = instantiate_level_params(supplied, supplied_level_params, &levels);
        let b = instantiate_level_params(reconstructed, reconstructed_level_params, &levels);
        self.types_same(Mode::start(), &a, &b)
    }
}

fn ids_from(v: &Vec<u32>, from: usize) -> (r: Vec<u32>)
    requires
        from <= v.len(),
    ensures
        r@ == v@.skip(from as int),
{
    let mut out: Vec<u32> = Vec::new();
    let mut i: usize = from;
    while i < v.len()
        invariant
            from <= i <= v.len(),
            out.len() == i - from,
            forall|j: int| 0 <= j < out.len() ==> out@[j] == v@[from + j],
        decreases v.len() - i,
    {
        out.push(v[i]);
        i = i + 1;
    }
    assert(out@ =~= v@.skip(from as int));
    out
}

fn copy_binders(v: &Vec<RecBinder>) -> (r: Vec<RecBinder>)
    ensures
        r.deep_view() == v.deep_view(),
        r.len() == v.len(),
{
    let mut out: Vec<RecBinder> = Vec::new();
    let mut i: usize = 0;
    while i < v.len()
        invariant
            i <= v.len(),
            out.len() == i,
            forall|j: int| 0 <= j < i ==> (#[trigger] out@[j]).deep_view() == v@[j].deep_view(),
        decreases v.len() - i,
    {
        out.push(RecBinder { info: v[i].info, typ: v[i].typ.clone() });
        i = i + 1;
    }
    assert(out.deep_view() =~= v.deep_view());
    out
}

fn raised_vars(n: u32) -> (r: Vec<Expr>)
    ensures
        r.deep_view() == down_vars((n + 1) as nat),
{
    let mut out: Vec<Expr> = Vec::new();
    let mut i: u32 = 0;
    while i < n
        invariant
            i <= n,
            out.len() == i,
            forall|j: int|
                0 <= j < i ==> (#[trigger] out@[j])@ == Term::BVar(clamp_index(n - j)),
        decreases n - i,
    {
        out.push(bvar(n - i));
        i = i + 1;
    }
    out.push(bvar(0));
    assert(out.deep_view() =~= down_vars((n + 1) as nat));
    out
}

/// Whether recursors belong to one group: they share its types, its universe
/// parameters and its number of parameters, and have a motive for each of them.
pub open spec fn one_group(
    rs: Seq<DerivedT>,
    names: Seq<u32>,
    level_params: Seq<u32>,
    np: u32,
    count: nat,
) -> bool {
    forall|i: int|
        0 <= i < rs.len() ==> (#[trigger] rs[i]).all == names && rs[i].level_params == level_params
            && rs[i].num_params == np && rs[i].num_motives == clamp_index(count as int)
            && rs[i].num_minors == rs[0].num_minors && rs[i].k == rs[0].k
}

proof fn lemma_derived(k: K, s: Sem, m: Mode, g: GroupT, i: nat, acc: Seq<DerivedT>)
    requires
        i == acc.len(),
        i <= g.members.len(),
        one_group(acc, g.names, g.level_params, g.np, g.members.len()),
        acc.len() > 0 ==> acc[0].num_minors == clamp_index(count_ctors(g.members, 0) as int)
            && acc[0].k == g.k,
    ensures
        derive_from(k, s, m, g, i, acc) matches Ok(rs) ==> rs.len() == g.members.len() && one_group(
            rs,
            g.names,
            g.level_params,
            g.np,
            rs.len(),
        ),
    decreases g.members.len() - i,
{
    if i < g.members.len() {
        match recursor_type(k, s, m, g.names, g.members, i, g.np, g.params, g.elim) {
            Err(_) => {},
            Ok(t) => {
                let next = acc.push(
                    DerivedT {
                        typ: t,
                        level_params: g.level_params,
                        all: g.names,
                        num_params: g.np,
                        num_indices: g.members[i as int].num_indices,
                        num_motives: clamp_index(g.members.len() as int),
                        num_minors: clamp_index(count_ctors(g.members, 0) as int),
                        k: g.k,
                    },
                );
                assert forall|j: int| 0 <= j < next.len() implies (#[trigger] next[j]).all
                    == g.names && next[j].level_params == g.level_params && next[j].num_params
                    == g.np && next[j].num_motives == clamp_index(g.members.len() as int)
                    && next[j].num_minors == next[0].num_minors && next[j].k == next[0].k by {
                    if j < acc.len() {
                        assert(next[j] == acc[j]);
                        assert(next[0] == acc[0]);
                    } else if acc.len() > 0 {
                        assert(next[0] == acc[0]);
                    }
                }
                lemma_derived(k, s, m, g, i + 1, next);
            },
        }
    }
}

/// The recursors built for a group are about the group's own types, have the
/// supplied universe parameters, and each has one motive per recursor built. There
/// are at least as many as the group has types.
pub proof fn law_recursors_form_a_group(
    k: K,
    s: Sem,
    m: Mode,
    names: Seq<u32>,
    supplied: Seq<u32>,
)
    ensures
        recursors_spec(k, s, m, names, supplied) matches Ok(rs) ==> names.len() > 0 && !repeats(
            supplied,
        ) && (find(k.env, names[0]) matches Some(
            Info::InductiveType { num_params, level_params, .. },
        ) && one_group(rs, names, supplied, num_params, rs.len()) && rs.len() >= names.len() && (
        supplied.len()
            == level_params.len() || supplied.len() == level_params.len() + 1)),
{
    reveal(recursors_spec);
    reveal(derive_group);
    if names.len() > 0 && recursors_spec(k, s, m, names, supplied) is Ok {
        match find(k.env, names[0]) {
            Some(Info::InductiveType { all, num_params, level_params, typ, .. }) => {
                match members_at(
                    k,
                    s,
                    m,
                    typ,
                    all,
                    num_params,
                    level_params,
                    param_levels(level_params),
                ) {
                    Ok((_, found)) => {
                        let prop_only = prop_only_spec(k, s, m, all, found, num_params)->Ok_0;
                        let own = if prop_only {
                            supplied
                        } else {
                            supplied.skip(1)
                        };
                        let elim = if prop_only {
                            Univ::Zero
                        } else {
                            Univ::Param(supplied[0])
                        };
                        let (params, members) = members_at(
                            k,
                            s,
                            m,
                            typ,
                            all,
                            num_params,
                            level_params,
                            param_levels(own),
                        )->Ok_0;
                        reveal(members_at);
                        let levels = param_levels(own);
                        let own_ones = own_members(
                            k,
                            all,
                            num_params,
                            level_params,
                            levels,
                            0,
                            Seq::empty(),
                        )->Ok_0;
                        lemma_own_count(
                            k,
                            all,
                            num_params,
                            level_params,
                            levels,
                            0,
                            Seq::empty(),
                        );
                        lemma_expand_grows(
                            k,
                            s,
                            m,
                            0,
                            ScanT { np: num_params, current: params, names: all },
                            own_ones,
                            STEP_LIMIT as nat,
                        );
                        lemma_derived(
                            k,
                            s,
                            m,
                            GroupT {
                                names: all,
                                members,
                                np: num_params,
                                params,
                                elim,
                                level_params: supplied,
                                k: members.len() == 1 && k_like(k, s, m, all),
                            },
                            0,
                            Seq::empty(),
                        );
                    },
                    Err(_) => {},
                }
            },
            _ => {},
        }
    }
}

/// A recursor type is accepted only if it is closed, its universe parameters
/// match those of the built one by position, and it mentions no others.
pub proof fn law_accepted_recursor_type(
    k: K,
    s: Sem,
    m: Mode,
    a: Term,
    aps: Seq<u32>,
    b: Term,
    bps: Seq<u32>,
)
    requires
        validate_spec(k, s, m, a, aps, b, bps) is Ok,
    ensures
        loose(a) == 0,
        aps.len() == bps.len(),
        !repeats(aps),
        !names_more(term_ids(a, Seq::empty()), aps),
        exists|ids: Seq<u32>|
            ids.len() == aps.len() && #[trigger] same_types(
                k,
                s,
                m,
                subst_params(a, aps, param_levels(ids)),
                subst_params(b, bps, param_levels(ids)),
            ) is Ok,
{
    reveal(validate_spec);
    let used = join_ids(
        join_ids(join_ids(aps, bps), term_ids(a, Seq::empty())),
        term_ids(b, Seq::empty()),
    );
    law_fresh_ids(used, u32::MAX, aps.len(), Seq::empty());
    let ids = fresh_ids(used, u32::MAX, aps.len(), Seq::empty())->Ok_0;
    assert(same_types(
        k,
        s,
        m,
        subst_params(a, aps, param_levels(ids)),
        subst_params(b, bps, param_levels(ids)),
    ) is Ok);
}

/// A closed type that mentions only its own universe parameters matches itself,
/// where it is a type at fresh ones.
pub proof fn law_recursor_type_matches_itself(
    k: K,
    g: Budget,
    m: Mode,
    t: Term,
    ps: Seq<u32>,
    ids: Seq<u32>,
)
    requires
        g.defeq > 0,
        loose(t) == 0,
        !repeats(ps),
        !names_more(term_ids(t, Seq::empty()), ps),
        fresh_ids(
            join_ids(
                join_ids(join_ids(ps, ps), term_ids(t, Seq::empty())),
                term_ids(t, Seq::empty()),
            ),
            u32::MAX,
            ps.len(),
            Seq::empty(),
        ) == Ok::<Seq<u32>, Fault>(ids),
        sort_of(
            k,
            sem_at(k, g),
            m,
            Seq::empty(),
            subst_params(t, ps, param_levels(ids)),
        ) is Ok,
    ensures
        validate_spec(k, sem_at(k, g), m, t, ps, t, ps) is Ok,
{
    reveal(validate_spec);
    crate::decl::law_defeq_reflexive(
        k,
        g,
        m,
        Seq::empty(),
        subst_params(t, ps, param_levels(ids)),
    );
}

} // verus!
