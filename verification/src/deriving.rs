//! What the recursors that are built for a group look like.

use crate::admission::{law_opened, opens};
use crate::conv::pairwise;
use crate::env::{find, Info};
use crate::errors::Fault;
use crate::expr::{
    law_apps, lift, mk_apps, plug, spine_args, spine_head, subst_params, term_ids, BinderInfo, Term,
};
use crate::inductive::{elim_only_spec, param_levels, pi_doms, repeats};
use crate::iota::{k_like, lift_all, pi_target};
use crate::kernel::{K, Mode, STEP_LIMIT, Sem};
use crate::level::{univ_eq, univ_positive, univs_eq, Univ};
use crate::members::{
    close_pis, down_vars, member_same, member_target, mentions_member, own_ctors, own_members,
    prefix_match, specialized, target_same, BinderT, MemberT, RecCtorT,
};
use crate::recursor::{
    close_recursor, common_level, conclusion_indices, count_ctors, ctor_fields, ctor_minors,
    derive_from, derive_group, field_telescope, field_vars, fresh_ids, hypothesis, hypothesis_args,
    hypothesis_indices, index_binders, join_ids, law_fresh_ids, member_app_spec, members_at,
    minor_binders, minor_type, motive_binder, motive_binders, prop_only_spec, recursive_target,
    recursor_type, same_types, validate_spec, with_hypotheses, with_hypothesis, DerivedT, FieldT,
    GroupT, MinorT,
};
use crate::reduce::{ensure_pi_spec, open_spec};
use crate::sameness::{convert_all, lemma_pairwise};
use crate::typing::{converts, is_reject, is_type_at, law_showing, reduces, shows_pi};
use vstd::prelude::*;

verus! {

/// The types of binders.
pub open spec fn types_of(bs: Seq<BinderT>) -> Seq<Term> {
    Seq::new(bs.len(), |i: int| bs[i].typ)
}

/// A telescope closed over binders has their types as its domains, in order, then
/// those of what it is closed over.
pub proof fn law_closed_telescope(bs: Seq<BinderT>, r: Term)
    ensures
        pi_doms(close_pis(bs, r)) == types_of(bs) + pi_doms(r),
        pi_target(close_pis(bs, r)) == pi_target(r),
    decreases bs.len(),
{
    if bs.len() == 0 {
        assert(types_of(bs) + pi_doms(r) =~= pi_doms(r));
    } else {
        let b = bs.last();
        let inner = Term::Pi(b.info, Box::new(b.typ), Box::new(r));
        law_closed_telescope(bs.drop_last(), inner);
        assert(types_of(bs.drop_last()) + pi_doms(inner) =~= types_of(bs) + pi_doms(r));
    }
}

/// The term is the variable that the binder at the position is, seen from behind as
/// many binders.
pub open spec fn is_var(e: Term, depth: int, pos: int) -> bool {
    0 <= pos < depth <= 0x1_0000_0000 ==> e == Term::BVar((depth - 1 - pos) as u32)
}

proof fn lemma_apps_no_pi(f: Term, args: Seq<Term>)
    requires
        !(f is Pi),
    ensures
        pi_doms(mk_apps(f, args)) == Seq::<Term>::empty(),
        pi_target(mk_apps(f, args)) == mk_apps(f, args),
{
    if args.len() > 0 {
        assert(mk_apps(f, args) is App);
    }
}

proof fn lemma_opens_prefix(k: K, s: Sem, m: Mode, ctx: Seq<Term>, t: Term, n: nat, c1: Seq<Term>, t1: Term)
    requires
        opens(k, s, m, ctx, t, n, c1, t1),
    ensures
        c1.len() == ctx.len() + n,
        c1.take(ctx.len() as int) == ctx,
    decreases n,
{
    if n > 0 {
        let (bi, d, b) = choose|bi: BinderInfo, d: Term, b: Term| #[trigger]
            shows_pi(k, s, m, ctx, t, bi, d, b) && opens(
                k,
                s,
                m,
                ctx.push(d),
                b,
                (n - 1) as nat,
                c1,
                t1,
            );
        lemma_opens_prefix(k, s, m, ctx.push(d), b, (n - 1) as nat, c1, t1);
        assert(c1.take(ctx.len() as int) =~= c1.take(ctx.len() as int + 1).take(ctx.len() as int));
        assert(ctx.push(d).take(ctx.len() as int) =~= ctx);
    } else {
        assert(ctx.take(ctx.len() as int) =~= ctx);
    }
}

/// From a position on, the binders have the types of the context from its own
/// position on, each moved out of its telescope.
pub open spec fn moved_types(
    bs: Seq<BinderT>,
    at: int,
    c: Seq<Term>,
    from: int,
    by: int,
    i: int,
) -> bool {
    forall|p: int|
        at <= p < bs.len() ==> (#[trigger] bs[p]).typ == lift(
            c[p - at + from],
            by,
            (p - at + i) as nat,
        )
}

proof fn lemma_index_binders(
    k: K,
    s: Sem,
    m: Mode,
    ctx: Seq<Term>,
    t: Term,
    i: nat,
    n: nat,
    by: int,
    acc: Seq<BinderT>,
    bs: Seq<BinderT>,
)
    requires
        i <= n,
        index_binders(k, s, m, ctx, t, i, n, by, acc) == Ok::<Seq<BinderT>, Fault>(bs),
    ensures
        bs.len() == acc.len() + (n - i),
        forall|j: int| 0 <= j < acc.len() ==> #[trigger] bs[j] == acc[j],
        exists|c2: Seq<Term>, t2: Term| #[trigger]
            opens(k, s, m, ctx, t, (n - i) as nat, c2, t2) && moved_types(
                bs,
                acc.len() as int,
                c2,
                ctx.len() as int,
                by,
                i as int,
            ),
    decreases n - i,
{
    if i < n {
        law_showing(k, s, m, ctx, t, t);
        let (bi, d, b) = ensure_pi_spec(k, s, m, ctx, t)->Ok_0;
        assert(shows_pi(k, s, m, ctx, t, bi, d, b));
        let acc2 = acc.push(BinderT { info: bi, typ: lift(d, by, i) });
        lemma_index_binders(k, s, m, ctx.push(d), b, i + 1, n, by, acc2, bs);
        let (c2, t2) = choose|c2: Seq<Term>, t2: Term| #[trigger]
            opens(k, s, m, ctx.push(d), b, (n - (i + 1)) as nat, c2, t2) && moved_types(
                bs,
                acc2.len() as int,
                c2,
                ctx.push(d).len() as int,
                by,
                (i + 1) as int,
            );
        lemma_opens_prefix(k, s, m, ctx.push(d), b, (n - (i + 1)) as nat, c2, t2);
        assert(c2[ctx.len() as int] == c2.take(ctx.len() as int + 1)[ctx.len() as int]);
        assert(opens(k, s, m, ctx, t, (n - i) as nat, c2, t2));
        assert forall|j: int| 0 <= j < acc.len() implies #[trigger] bs[j] == acc[j] by {
            assert(bs[j] == acc2[j]);
        }
        assert(moved_types(bs, acc.len() as int, c2, ctx.len() as int, by, i as int)) by {
            assert(bs[acc.len() as int] == acc2[acc.len() as int]);
        }
    } else {
        assert(opens(k, s, m, ctx, t, (n - i) as nat, ctx, t));
        assert(moved_types(bs, acc.len() as int, ctx, ctx.len() as int, by, i as int));
    }
}

/// The term is the member at its fixed parameters, seen from as many binders
/// further on, applied to the indices.
pub open spec fn is_member_app(mb: MemberT, by: int, ixs: Seq<Term>, e: Term) -> bool {
    &&& spine_head(e) == Term::Const(mb.source_name, mb.source_levels)
    &&& spine_args(e).len() == mb.fixed_params.len() + ixs.len()
    &&& forall|i: int|
        0 <= i < mb.fixed_params.len() ==> #[trigger] spine_args(e)[i] == lift(
            mb.fixed_params[i],
            by,
            0,
        )
    &&& forall|i: int|
        0 <= i < ixs.len() ==> #[trigger] spine_args(e)[mb.fixed_params.len() + i] == ixs[i]
}

proof fn lemma_member_app(mb: MemberT, np: u32, depth: nat, ixs: Seq<Term>)
    ensures
        is_member_app(mb, depth - np, ixs, member_app_spec(mb, np, depth, ixs)),
{
    let h = Term::Const(mb.source_name, mb.source_levels);
    let args = lift_all(mb.fixed_params, depth - np) + ixs;
    law_apps(h, args);
}

/// The motive of a member: a function type over the member's indices and over the
/// member at them, into the sort that is eliminated into.
pub proof fn law_motive(
    k: K,
    s: Sem,
    m: Mode,
    mb: MemberT,
    np: u32,
    elim: Univ,
    base: nat,
    b: BinderT,
)
    requires
        motive_binder(k, s, m, mb, np, elim, base) == Ok::<BinderT, Fault>(b),
    ensures
        np <= base,
        pi_target(b.typ) == Term::Sort(elim),
        pi_doms(b.typ).len() == mb.num_indices + 1,
        exists|c: Seq<Term>, t: Term, c2: Seq<Term>, t2: Term|
            #![trigger opens(k, s, m, Seq::empty(), mb.typ, np as nat, c, t), opens(k, s, m, c, t, mb.num_indices as nat, c2, t2)]
            opens(k, s, m, Seq::empty(), mb.typ, np as nat, c, t) && opens(
                k,
                s,
                m,
                c,
                t,
                mb.num_indices as nat,
                c2,
                t2,
            ) && forall|j: int|
                0 <= j < mb.num_indices ==> #[trigger] pi_doms(b.typ)[j] == lift(
                    c2[np + j],
                    base - np,
                    j as nat,
                ),
        is_member_app(
            mb,
            base + mb.num_indices - np,
            down_vars(mb.num_indices as nat),
            pi_doms(b.typ).last(),
        ),
{
    reveal(motive_binder);
    let (c, t) = open_spec(k, s, m, Seq::empty(), mb.typ, np as nat)->Ok_0;
    law_opened(k, s, m, Seq::empty(), mb.typ, np as nat, c, t);
    let n = mb.num_indices as nat;
    let none = Seq::<BinderT>::empty();
    let ixs = index_binders(k, s, m, c, t, 0, n, base - np, none)->Ok_0;
    lemma_index_binders(k, s, m, c, t, 0, n, base - np, none, ixs);
    let major = member_app_spec(mb, np, base + n, down_vars(n));
    lemma_member_app(mb, np, base + n, down_vars(n));
    let result = Term::Pi(BinderInfo::Default, Box::new(major), Box::new(Term::Sort(elim)));
    law_closed_telescope(ixs, result);
    assert(pi_doms(Term::Sort(elim)) =~= Seq::<Term>::empty());
    assert(pi_target(Term::Sort(elim)) == Term::Sort(elim));
    assert(pi_doms(result) =~= seq![major]);
    let (c2, t2) = choose|c2: Seq<Term>, t2: Term| #[trigger]
        opens(k, s, m, c, t, n, c2, t2) && moved_types(
            ixs,
            none.len() as int,
            c2,
            c.len() as int,
            base - np,
            0,
        );
    lemma_opens_prefix(k, s, m, Seq::empty(), mb.typ, np as nat, c, t);
    assert forall|j: int| 0 <= j < n implies #[trigger] pi_doms(b.typ)[j] == lift(
        c2[np + j],
        base - np,
        j as nat,
    ) by {
        assert(pi_doms(b.typ)[j] == types_of(ixs)[j]);
        assert(ixs[j].typ == lift(c2[np + j], base - np, j as nat));
    }
    assert(opens(k, s, m, c, t, mb.num_indices as nat, c2, t2));
    assert(pi_doms(b.typ).last() == major);
}

/// The variables of the innermost binders, the outermost first.
pub proof fn law_innermost_variables(n: nat, i: int)
    requires
        0 <= i < n,
    ensures
        down_vars(n).len() == n,
        is_var(down_vars(n)[i], n as int, i),
{
}

proof fn lemma_ctor_fields(
    k: K,
    s: Sem,
    m: Mode,
    ctx: Seq<Term>,
    t: Term,
    acc: Seq<FieldT>,
    n: nat,
    fs: Seq<FieldT>,
    c1: Seq<Term>,
    e: Term,
)
    requires
        ctor_fields(k, s, m, ctx, t, acc, n) == Ok::<(Seq<FieldT>, Seq<Term>, Term), Fault>(
            (fs, c1, e),
        ),
    ensures
        fs.len() >= acc.len(),
        forall|j: int| 0 <= j < acc.len() ==> #[trigger] fs[j] == acc[j],
        opens(k, s, m, ctx, t, (fs.len() - acc.len()) as nat, c1, e),
        ensure_pi_spec(k, s, m, c1, e) is Err,
        forall|j: int|
            acc.len() <= j < fs.len() ==> (#[trigger] fs[j]).dom == c1[ctx.len() + j - acc.len()]
                && fs[j].ctx == c1.take(ctx.len() + j - acc.len()),
    decreases n,
{
    match ensure_pi_spec(k, s, m, ctx, t) {
        Err(_) => {
            assert(opens(k, s, m, ctx, t, 0, ctx, t));
        },
        Ok((bi, d, b)) => {
            law_showing(k, s, m, ctx, t, t);
            assert(shows_pi(k, s, m, ctx, t, bi, d, b));
            let f = FieldT { info: bi, dom: d, ctx };
            lemma_ctor_fields(k, s, m, ctx.push(d), b, acc.push(f), (n - 1) as nat, fs, c1, e);
            let x = (fs.len() - acc.len()) as nat;
            lemma_opens_prefix(k, s, m, ctx.push(d), b, (x - 1) as nat, c1, e);
            assert(opens(k, s, m, ctx, t, x, c1, e));
            assert forall|j: int| 0 <= j < acc.len() implies #[trigger] fs[j] == acc[j] by {
                assert(fs[j] == acc.push(f)[j]);
            }
            assert forall|j: int| acc.len() <= j < fs.len() implies (#[trigger] fs[j]).dom
                == c1[ctx.len() + j - acc.len()] && fs[j].ctx == c1.take(
                ctx.len() + j - acc.len(),
            ) by {
                if j == acc.len() {
                    assert(fs[j] == acc.push(f)[j]);
                    assert(c1[ctx.len() as int] == c1.take(ctx.len() as int + 1)[ctx.len() as int]);
                    assert(c1.take(ctx.len() as int) =~= c1.take(ctx.len() as int + 1).take(
                        ctx.len() as int,
                    ));
                    assert(ctx.push(d).take(ctx.len() as int) =~= ctx);
                }
            }
        },
    }
}

/// A term is the first member that it is an instance of, with the indices: the
/// member's name at its levels and its fixed parameters, seen from the depth, and
/// as many indices as it has. No member before it is.
pub proof fn law_member_target(members: Seq<MemberT>, e: Term, np: u32, depth: nat, i: nat, r: nat, ixs: Seq<Term>)
    requires
        member_target(members, e, np, depth, i) == Some((r, ixs)),
    ensures
        i <= r < members.len(),
        is_member_app(members[r as int], depth - np, ixs, e),
        ixs.len() == members[r as int].num_indices,
    decreases members.len() - i,
{
    reveal(prefix_match);
    if i < members.len() {
        match prefix_match(members[i as int], e, np, depth) {
            Some(x) => {
                if x.len() == members[i as int].num_indices {
                    let mb = members[i as int];
                    let n = mb.fixed_params.len() as int;
                    let args = spine_args(e);
                    assert forall|j: int| 0 <= j < n implies #[trigger] args[j] == lift(
                        mb.fixed_params[j],
                        depth - np,
                        0,
                    ) by {
                        assert(args.take(n)[j] == lift_all(mb.fixed_params, depth - np)[j]);
                    }
                } else {
                    law_member_target(members, e, np, depth, i + 1, r, ixs);
                }
            },
            None => law_member_target(members, e, np, depth, i + 1, r, ixs),
        }
    }
}

/// The binders are extended by an induction hypothesis for a field exactly where
/// the field's type leads to a member, and not otherwise; then no member is
/// mentioned either.
pub open spec fn hypothesis_step(
    k: K,
    s: Sem,
    m: Mode,
    mi: MinorT,
    fields: Seq<FieldT>,
    pos: nat,
    acc: Seq<BinderT>,
    next: Seq<BinderT>,
) -> bool {
    let n = fields.len();
    let earlier = acc.len() - n;
    exists|w: Term, bs: Seq<BinderT>, c: Seq<Term>, t: Term|
        #![trigger reduces(s, m, fields[pos as int].ctx, fields[pos as int].dom, w), leads_to(k, s, m, fields[pos as int].ctx, w, bs.len(), c, t)]
        reduces(s, m, fields[pos as int].ctx, fields[pos as int].dom, w) && leads_to(
            k,
            s,
            m,
            fields[pos as int].ctx,
            w,
            bs.len(),
            c,
            t,
        ) && (match recursive_target(s, m, c, mi.members, t, mi.np) {
            Err(_) => false,
            Ok(None) => next == acc && !mentions_member(
                t,
                crate::expr::clamp_index(c.len() - mi.np),
                mi.np,
                mi.names,
                mi.members,
            ),
            Ok(Some((member, ixs))) => next.len() == acc.len() + 1 && next.drop_last() == acc
                && is_hypothesis(mi, n, earlier, pos, bs, member, ixs, next.last().typ),
        })
}

/// Behind as many binders, each made to show, stands the type, which shows no more
/// of them.
pub open spec fn leads_to(
    k: K,
    s: Sem,
    m: Mode,
    ctx: Seq<Term>,
    t: Term,
    n: nat,
    c: Seq<Term>,
    e: Term,
) -> bool {
    opens(k, s, m, ctx, t, n, c, e) && ensure_pi_spec(k, s, m, c, e) is Err
}

/// The type is that of the induction hypothesis for the field: over the binders of
/// the field's type, the member's motive is applied to as many indices as there
/// are and, last, to the field applied to these binders.
pub open spec fn is_hypothesis(
    mi: MinorT,
    fields: nat,
    earlier: int,
    pos: nat,
    bs: Seq<BinderT>,
    member: nat,
    ixs: Seq<Term>,
    t: Term,
) -> bool {
    let inner = fields + earlier + bs.len();
    let e = pi_target(t);
    &&& pi_doms(t) == types_of(bs)
    &&& is_var(spine_head(e), mi.outer_depth + inner, mi.np + member)
    &&& spine_args(e).len() == ixs.len() + 1
    &&& spine_args(e).last() == mk_apps(
        spine_head(spine_args(e).last()),
        down_vars(bs.len()),
    )
    &&& is_var(spine_head(spine_args(e).last()), inner, pos as int)
    &&& spine_head(spine_args(e).last()) is BVar
    &&& forall|i: int|
        0 <= i < ixs.len() ==> #[trigger] spine_args(e)[i] == lift(
            lift(ixs[i], mi.outer_depth - mi.np, bs.len() + pos),
            fields - pos + earlier,
            bs.len(),
        )
}

proof fn lemma_hypothesis_args(
    k: K,
    s: Sem,
    m: Mode,
    ctx: Seq<Term>,
    t: Term,
    outer: int,
    inner: int,
    pos: nat,
    acc: Seq<BinderT>,
    n: nat,
    bs: Seq<BinderT>,
    c: Seq<Term>,
    e: Term,
)
    requires
        hypothesis_args(k, s, m, ctx, t, outer, inner, pos, acc, n) == Ok::<
            (Seq<BinderT>, Seq<Term>, Term),
            Fault,
        >((bs, c, e)),
    ensures
        bs.len() >= acc.len(),
        leads_to(k, s, m, ctx, t, (bs.len() - acc.len()) as nat, c, e),
    decreases n,
{
    match ensure_pi_spec(k, s, m, ctx, t) {
        Err(_) => {
            assert(opens(k, s, m, ctx, t, 0, ctx, t));
        },
        Ok((bi, d, b)) => {
            law_showing(k, s, m, ctx, t, t);
            assert(shows_pi(k, s, m, ctx, t, bi, d, b));
            let acc2 = acc.push(
                BinderT {
                    info: bi,
                    typ: crate::recursor::into_hypothesis(d, outer, inner, pos, acc.len()),
                },
            );
            lemma_hypothesis_args(
                k,
                s,
                m,
                ctx.push(d),
                b,
                outer,
                inner,
                pos,
                acc2,
                (n - 1) as nat,
                bs,
                c,
                e,
            );
            assert(opens(k, s, m, ctx, t, (bs.len() - acc.len()) as nat, c, e));
        },
    }
}

/// One step of collecting the induction hypotheses of a minor premise.
pub proof fn law_hypothesis(
    k: K,
    s: Sem,
    m: Mode,
    mi: MinorT,
    fields: Seq<FieldT>,
    pos: nat,
    acc: Seq<BinderT>,
    next: Seq<BinderT>,
)
    requires
        with_hypothesis(k, s, m, mi, fields, pos, acc) == Ok::<Seq<BinderT>, Fault>(next),
        pos < fields.len() <= acc.len(),
    ensures
        hypothesis_step(k, s, m, mi, fields, pos, acc, next),
{
    reveal(with_hypothesis);
    let f = fields[pos as int];
    let n = fields.len();
    let earlier = (acc.len() - n) as nat;
    let outer = mi.outer_depth - mi.np;
    let inner = n - pos + earlier;
    let none = Seq::<BinderT>::empty();
    let w = (s.whnf)(m, f.ctx, f.dom)->Ok_0;
    assert(reduces(s, m, f.ctx, f.dom, w));
    let (bs, c, t) = hypothesis_args(
        k,
        s,
        m,
        f.ctx,
        w,
        outer,
        inner,
        pos,
        none,
        STEP_LIMIT as nat,
    )->Ok_0;
    lemma_hypothesis_args(
        k,
        s,
        m,
        f.ctx,
        w,
        outer,
        inner,
        pos,
        none,
        STEP_LIMIT as nat,
        bs,
        c,
        t,
    );
    assert(leads_to(k, s, m, f.ctx, w, bs.len(), c, t));
    match recursive_target(s, m, c, mi.members, t, mi.np) {
        Ok(Some((member, ixs))) => {
            let b = hypothesis(bs, mi.np, member, ixs, mi.outer_depth, n, earlier, pos);
            assert(next.drop_last() =~= acc);
            let args = bs.len();
            let depth = mi.outer_depth + n + earlier + args;
            let motive = Term::BVar(crate::expr::clamp_index(depth - 1 - (mi.np + member)));
            let value = Term::BVar(crate::expr::clamp_index(n + earlier + args - 1 - pos));
            let on = mk_apps(value, down_vars(args));
            let hi = hypothesis_indices(ixs, outer, inner, pos, args).push(on);
            let e = mk_apps(motive, hi);
            lemma_apps_no_pi(motive, hi);
            law_closed_telescope(bs, e);
            assert(types_of(bs) + Seq::<Term>::empty() =~= types_of(bs));
            law_apps(motive, hi);
            law_apps(value, down_vars(args));
            assert(hi.last() == on);
            assert(is_hypothesis(mi, n, earlier as int, pos, bs, member, ixs, b.typ));
        },
        _ => {},
    }
}

/// The binders of a minor premise grow field by field, each time by the hypothesis
/// for the field, if it has one.
pub open spec fn hypothesis_path(
    k: K,
    s: Sem,
    m: Mode,
    mi: MinorT,
    fields: Seq<FieldT>,
    st: Seq<Seq<BinderT>>,
) -> bool {
    st.len() == fields.len() + 1 && forall|i: int|
        0 <= i < fields.len() ==> hypothesis_step(
            k,
            s,
            m,
            mi,
            fields,
            i as nat,
            #[trigger] st[i],
            st[i + 1],
        )
}

proof fn lemma_hypotheses(
    k: K,
    s: Sem,
    m: Mode,
    mi: MinorT,
    fields: Seq<FieldT>,
    pos: nat,
    acc: Seq<BinderT>,
    st: Seq<Seq<BinderT>>,
    out: Seq<BinderT>,
)
    requires
        pos <= fields.len() <= acc.len(),
        st.len() == pos + 1,
        st.last() == acc,
        forall|i: int|
            0 <= i < pos ==> hypothesis_step(k, s, m, mi, fields, i as nat, #[trigger] st[i], st[i + 1]),
        with_hypotheses(k, s, m, mi, fields, pos, acc) == Ok::<Seq<BinderT>, Fault>(out),
        forall|i: int| 0 <= i < fields.len() ==> #[trigger] acc[i] == st[0][i],
    ensures
        exists|full: Seq<Seq<BinderT>>| #[trigger]
            hypothesis_path(k, s, m, mi, fields, full) && full[0] == st[0] && full.last() == out,
        out.len() >= fields.len(),
        forall|i: int| 0 <= i < fields.len() ==> #[trigger] out[i] == st[0][i],
    decreases fields.len() - pos,
{
    if pos < fields.len() {
        let next = with_hypothesis(k, s, m, mi, fields, pos, acc)->Ok_0;
        law_hypothesis(k, s, m, mi, fields, pos, acc, next);
        let st2 = st.push(next);
        assert forall|i: int| 0 <= i < pos + 1 implies hypothesis_step(
            k,
            s,
            m,
            mi,
            fields,
            i as nat,
            #[trigger] st2[i],
            st2[i + 1],
        ) by {
            if i < pos {
                assert(hypothesis_step(k, s, m, mi, fields, i as nat, st[i], st[i + 1]));
            }
        }
        assert forall|i: int| 0 <= i < fields.len() implies #[trigger] next[i] == st2[0][i] by {
            assert(acc[i] == st[0][i]);
            if next != acc {
                assert(next.drop_last()[i] == acc[i]);
            }
        }
        lemma_hypotheses(k, s, m, mi, fields, pos + 1, next, st2, out);
    } else {
        assert(hypothesis_path(k, s, m, mi, fields, st));
    }
}

/// The type is that of the minor premise for the constructor of the member: over
/// the constructor's fields and then the hypotheses for the recursive ones among
/// them, the motive of the member is applied to the indices of the constructor's
/// conclusion and, last, to the constructor at the member's fixed parameters
/// applied to its fields.
pub open spec fn is_minor(
    k: K,
    s: Sem,
    m: Mode,
    mi: MinorT,
    owner: nat,
    ctor: RecCtorT,
    c1: Seq<Term>,
    concl: Term,
    fields: Seq<FieldT>,
    st: Seq<Seq<BinderT>>,
    ixs: Seq<Term>,
    t: Term,
) -> bool {
    let n = fields.len();
    let depth = mi.outer_depth + pi_doms(t).len();
    let mb = mi.members[owner as int];
    let e = pi_target(t);
    let built = spine_args(e).last();
    &&& owner < mi.members.len()
    &&& c1.len() == mi.np + n
    &&& ensure_pi_spec(k, s, m, c1, concl) is Err
    &&& is_member_app(mb, n as int, ixs, concl)
    &&& ixs.len() == mb.num_indices
    &&& forall|j: int|
        0 <= j < n ==> (#[trigger] fields[j]).dom == c1[mi.np + j] && fields[j].ctx == c1.take(
            mi.np + j,
        )
    &&& hypothesis_path(k, s, m, mi, fields, st)
    &&& st.last().len() == pi_doms(t).len()
    &&& types_of(st.last()) == pi_doms(t)
    &&& pi_doms(t).len() >= n
    &&& forall|j: int|
        0 <= j < n ==> #[trigger] pi_doms(t)[j] == lift(
            c1[mi.np + j],
            mi.outer_depth - mi.np,
            j as nat,
        )
    &&& is_var(spine_head(e), depth as int, mi.np + owner)
    &&& spine_args(e).len() == ixs.len() + 1
    &&& spine_head(built) == Term::Const(ctor.name, ctor.levels)
    &&& spine_args(built).len() == mb.fixed_params.len() + n
    &&& forall|j: int|
        0 <= j < mb.fixed_params.len() ==> #[trigger] spine_args(built)[j] == lift(
            mb.fixed_params[j],
            depth - mi.np,
            0,
        )
    &&& forall|j: int|
        0 <= j < n ==> is_var(
            #[trigger] spine_args(built)[mb.fixed_params.len() + j],
            pi_doms(t).len() as int,
            j,
        )
}

/// The minor premise that is built for a constructor has the shape that its fields
/// and its conclusion give it.
pub proof fn law_minor(
    k: K,
    s: Sem,
    m: Mode,
    mi: MinorT,
    owner: nat,
    ctor: RecCtorT,
    t: Term,
)
    requires
        minor_type(k, s, m, mi, owner, ctor) == Ok::<Term, Fault>(t),
    ensures
        exists|
            c0: Seq<Term>,
            t0: Term,
            c1: Seq<Term>,
            concl: Term,
            fields: Seq<FieldT>,
            st: Seq<Seq<BinderT>>,
            ixs: Seq<Term>,
        |
            #![trigger opens(k, s, m, Seq::empty(), ctor.typ, mi.np as nat, c0, t0), is_minor(k, s, m, mi, owner, ctor, c1, concl, fields, st, ixs, t)]
            opens(k, s, m, Seq::empty(), ctor.typ, mi.np as nat, c0, t0) && opens(
                k,
                s,
                m,
                c0,
                t0,
                fields.len(),
                c1,
                concl,
            ) && is_minor(k, s, m, mi, owner, ctor, c1, concl, fields, st, ixs, t),
{
    reveal(minor_type);
    let (c0, t0) = open_spec(k, s, m, Seq::empty(), ctor.typ, mi.np as nat)->Ok_0;
    law_opened(k, s, m, Seq::empty(), ctor.typ, mi.np as nat, c0, t0);
    let none = Seq::<FieldT>::empty();
    let (fields, c1, concl) = ctor_fields(k, s, m, c0, t0, none, STEP_LIMIT as nat)->Ok_0;
    lemma_ctor_fields(k, s, m, c0, t0, none, STEP_LIMIT as nat, fields, c1, concl);
    let n = fields.len();
    lemma_opens_prefix(k, s, m, c0, t0, n, c1, concl);
    let (r, ixs) = member_target(mi.members, concl, mi.np, (mi.np + n) as nat, 0).unwrap();
    law_member_target(mi.members, concl, mi.np, (mi.np + n) as nat, 0, r, ixs);
    let by = mi.outer_depth - mi.np;
    let start = field_telescope(fields, by);
    let local = with_hypotheses(k, s, m, mi, fields, 0, start)->Ok_0;
    lemma_hypotheses(k, s, m, mi, fields, 0, start, seq![start], local);
    let st = choose|full: Seq<Seq<BinderT>>| #[trigger]
        hypothesis_path(k, s, m, mi, fields, full) && full[0] == seq![start][0] && full.last()
            == local;
    let earlier = (local.len() - n) as nat;
    let mb = mi.members[owner as int];
    let depth = mi.outer_depth + n + earlier;
    let motive = Term::BVar(crate::expr::clamp_index(depth - 1 - (mi.np + owner)));
    let bargs = lift_all(mb.fixed_params, depth - mi.np) + field_vars(n, earlier);
    let h = Term::Const(ctor.name, ctor.levels);
    let built = mk_apps(h, bargs);
    let margs = conclusion_indices(ixs, by, n, earlier).push(built);
    let e = mk_apps(motive, margs);
    lemma_apps_no_pi(motive, margs);
    law_closed_telescope(local, e);
    assert(types_of(local) + Seq::<Term>::empty() =~= types_of(local));
    law_apps(motive, margs);
    law_apps(h, bargs);
    assert(margs.last() == built);
    assert forall|j: int| 0 <= j < n implies #[trigger] pi_doms(t)[j] == lift(
        c1[mi.np + j],
        by,
        j as nat,
    ) by {
        assert(local[j] == seq![start][0][j]);
        assert(fields[j].dom == c1[c0.len() + j - none.len()]);
    }
    assert forall|j: int| 0 <= j < n implies (#[trigger] fields[j]).dom == c1[mi.np + j]
        && fields[j].ctx == c1.take(mi.np + j) by {
        assert(fields[j].dom == c1[c0.len() + j - none.len()]);
    }
    assert forall|j: int| 0 <= j < n implies is_var(
        #[trigger] spine_args(built)[mb.fixed_params.len() + j],
        pi_doms(t).len() as int,
        j,
    ) by {
        assert(bargs[mb.fixed_params.len() + j] == field_vars(n, earlier)[j]);
    }
    assert forall|j: int| 0 <= j < mb.fixed_params.len() implies #[trigger] spine_args(built)[j]
        == lift(mb.fixed_params[j], depth - mi.np, 0) by {
        assert(bargs[j] == lift_all(mb.fixed_params, depth - mi.np)[j]);
    }
    assert(is_minor(k, s, m, mi, owner, ctor, c1, concl, fields, st, ixs, t));
}

proof fn lemma_motive_binders(
    k: K,
    s: Sem,
    m: Mode,
    members: Seq<MemberT>,
    np: u32,
    elim: Univ,
    i: nat,
    acc: Seq<BinderT>,
    bs: Seq<BinderT>,
    j: int,
)
    requires
        i <= members.len(),
        motive_binders(k, s, m, members, np, elim, i, acc) == Ok::<Seq<BinderT>, Fault>(bs),
    ensures
        bs.len() == acc.len() + members.len() - i,
        bs.take(acc.len() as int) == acc,
        i <= j < members.len() ==> motive_binder(
            k,
            s,
            m,
            members[j],
            np,
            elim,
            (acc.len() + j - i) as nat,
        ) == Ok::<BinderT, Fault>(bs[acc.len() + j - i]),
    decreases members.len() - i,
{
    if i < members.len() {
        let b = motive_binder(k, s, m, members[i as int], np, elim, acc.len())->Ok_0;
        lemma_motive_binders(k, s, m, members, np, elim, i + 1, acc.push(b), bs, j);
        assert(bs.take(acc.len() as int) =~= bs.take(acc.len() as int + 1).take(acc.len() as int));
        assert(acc.push(b).take(acc.len() as int) =~= acc);
        assert(bs[acc.len() as int] == bs.take(acc.len() as int + 1)[acc.len() as int]);
    } else {
        assert(bs.take(acc.len() as int) =~= acc);
    }
}

proof fn lemma_ctor_minors(
    k: K,
    s: Sem,
    m: Mode,
    names: Seq<u32>,
    members: Seq<MemberT>,
    np: u32,
    owner: nat,
    ctors: Seq<RecCtorT>,
    j: nat,
    acc: Seq<BinderT>,
    bs: Seq<BinderT>,
    x: int,
)
    requires
        j <= ctors.len(),
        ctor_minors(k, s, m, names, members, np, owner, ctors, j, acc) == Ok::<
            Seq<BinderT>,
            Fault,
        >(bs),
    ensures
        bs.len() == acc.len() + ctors.len() - j,
        bs.take(acc.len() as int) == acc,
        j <= x < ctors.len() ==> minor_type(
            k,
            s,
            m,
            MinorT { names, members, np, outer_depth: (acc.len() + x - j) as nat },
            owner,
            ctors[x],
        ) == Ok::<Term, Fault>(bs[acc.len() + x - j].typ),
    decreases ctors.len() - j,
{
    if j < ctors.len() {
        let t = minor_type(
            k,
            s,
            m,
            MinorT { names, members, np, outer_depth: acc.len() },
            owner,
            ctors[j as int],
        )->Ok_0;
        let b = BinderT { info: BinderInfo::Default, typ: t };
        lemma_ctor_minors(
            k,
            s,
            m,
            names,
            members,
            np,
            owner,
            ctors,
            j + 1,
            acc.push(b),
            bs,
            x,
        );
        assert(bs.take(acc.len() as int) =~= bs.take(acc.len() as int + 1).take(acc.len() as int));
        assert(acc.push(b).take(acc.len() as int) =~= acc);
        assert(bs[acc.len() as int] == bs.take(acc.len() as int + 1)[acc.len() as int]);
    } else {
        assert(bs.take(acc.len() as int) =~= acc);
    }
}

/// The number of constructors of the members in front of a position, from another
/// one on.
pub open spec fn ctors_between(members: Seq<MemberT>, i: nat, o: nat) -> nat
    decreases o - i,
{
    if i >= o {
        0
    } else {
        members[i as int].ctors.len() + ctors_between(members, i + 1, o)
    }
}

proof fn lemma_minor_binders(
    k: K,
    s: Sem,
    m: Mode,
    names: Seq<u32>,
    members: Seq<MemberT>,
    np: u32,
    i: nat,
    acc: Seq<BinderT>,
    bs: Seq<BinderT>,
    o: nat,
    x: int,
)
    requires
        i <= members.len(),
        minor_binders(k, s, m, names, members, np, i, acc) == Ok::<Seq<BinderT>, Fault>(bs),
    ensures
        bs.len() == acc.len() + ctors_between(members, i, members.len()),
        bs.take(acc.len() as int) == acc,
        i <= o < members.len() && 0 <= x < members[o as int].ctors.len() ==> {
            let at = acc.len() + ctors_between(members, i, o) + x;
            0 <= at < bs.len() && minor_type(
                k,
                s,
                m,
                MinorT { names, members, np, outer_depth: at as nat },
                o,
                members[o as int].ctors[x],
            ) == Ok::<Term, Fault>(bs[at].typ)
        },
    decreases members.len() - i,
{
    if i < members.len() {
        let cs = members[i as int].ctors;
        let acc2 = ctor_minors(k, s, m, names, members, np, i, cs, 0, acc)->Ok_0;
        lemma_ctor_minors(k, s, m, names, members, np, i, cs, 0, acc, acc2, x);
        lemma_minor_binders(k, s, m, names, members, np, i + 1, acc2, bs, o, x);
        assert(bs.take(acc.len() as int) =~= bs.take(acc2.len() as int).take(acc.len() as int));
        if o == i && 0 <= x < cs.len() {
            assert(bs[acc.len() + x] == bs.take(acc2.len() as int)[acc.len() + x]);
            assert(ctors_between(members, i, o) == 0);
        }
    } else {
        assert(bs.take(acc.len() as int) =~= acc);
    }
}

/// The type of the recursor for a member: over the parameters, one motive for each
/// member, one minor premise for each constructor of each member, the member's
/// indices and the member at them, in this order, the member's motive is applied
/// to the indices and the major premise.
pub proof fn law_recursor_type(
    k: K,
    s: Sem,
    m: Mode,
    names: Seq<u32>,
    members: Seq<MemberT>,
    target: nat,
    np: u32,
    params: Seq<BinderT>,
    elim: Univ,
    t: Term,
    i: int,
    o: nat,
    x: int,
)
    requires
        target < members.len(),
        recursor_type(k, s, m, names, members, target, np, params, elim) == Ok::<Term, Fault>(t),
    ensures
        ({
            let ds = pi_doms(t);
            let mb = members[target as int];
            let first = params.len() + members.len();
            let behind = first + ctors_between(members, 0, members.len());
            let e = pi_target(t);
            &&& ds.len() == behind + mb.num_indices + 1
            &&& 0 <= i < params.len() ==> ds[i] == params[i].typ
            &&& 0 <= i < members.len() ==> exists|b: BinderT|
                motive_binder(k, s, m, members[i], np, elim, (params.len() + i) as nat) == Ok::<
                    BinderT,
                    Fault,
                >(b) && #[trigger] b.typ == ds[params.len() + i]
            &&& o < members.len() && 0 <= x < members[o as int].ctors.len() ==> {
                let at = first + ctors_between(members, 0, o) + x;
                at < behind && minor_type(
                    k,
                    s,
                    m,
                    MinorT { names, members, np, outer_depth: at as nat },
                    o,
                    members[o as int].ctors[x],
                ) == Ok::<Term, Fault>(ds[at])
            }
            &&& is_member_app(
                mb,
                behind + mb.num_indices - np,
                down_vars(mb.num_indices as nat),
                ds.last(),
            )
            &&& is_var(spine_head(e), ds.len() as int, np + target)
            &&& spine_args(e) == down_vars((mb.num_indices + 1) as nat)
        }),
{
    reveal(recursor_type);
    reveal(close_recursor);
    let b1 = motive_binders(k, s, m, members, np, elim, 0, params)->Ok_0;
    lemma_motive_binders(k, s, m, members, np, elim, 0, params, b1, i);
    let b2 = minor_binders(k, s, m, names, members, np, 0, b1)->Ok_0;
    lemma_minor_binders(k, s, m, names, members, np, 0, b1, b2, o, x);
    let mb = members[target as int];
    let n = mb.num_indices as nat;
    let (c, t0) = open_spec(k, s, m, Seq::empty(), mb.typ, np as nat)->Ok_0;
    let b3 = index_binders(k, s, m, c, t0, 0, n, b2.len() - np, b2)->Ok_0;
    lemma_index_binders(k, s, m, c, t0, 0, n, b2.len() - np, b2, b3);
    let major = member_app_spec(mb, np, b3.len(), down_vars(n));
    lemma_member_app(mb, np, b3.len(), down_vars(n));
    let b4 = b3.push(BinderT { info: BinderInfo::Default, typ: major });
    let motive = Term::BVar(crate::expr::clamp_index(b4.len() - 1 - (np + target)));
    let vars = down_vars((mb.num_indices + 1) as nat);
    let e = mk_apps(motive, vars);
    lemma_apps_no_pi(motive, vars);
    law_closed_telescope(b4, e);
    assert(types_of(b4) + Seq::<Term>::empty() =~= types_of(b4));
    law_apps(motive, vars);
    let ds = pi_doms(t);
    assert(ds == types_of(b4));
    assert(ds.last() == major);
    assert forall|j: int| 0 <= j < b2.len() implies #[trigger] ds[j] == b2[j].typ by {
        assert(b3[j] == b2[j]);
    }
    assert forall|j: int| 0 <= j < b1.len() implies #[trigger] b2[j] == b1[j] by {
        assert(b2.take(b1.len() as int)[j] == b1[j]);
    }
    assert forall|j: int| 0 <= j < params.len() implies #[trigger] b1[j] == params[j] by {
        assert(b1.take(params.len() as int)[j] == params[j]);
    }
    if 0 <= i < params.len() {
        assert(ds[i] == b2[i].typ);
        assert(b2[i] == b1[i]);
    }
    if 0 <= i < members.len() {
        let b = b1[params.len() + i];
        assert(ds[params.len() + i] == b2[params.len() + i].typ);
        assert(b2[params.len() + i] == b1[params.len() + i]);
        assert(b.typ == ds[params.len() + i]);
    }
    if o < members.len() && 0 <= x < members[o as int].ctors.len() {
        let at = b1.len() + ctors_between(members, 0, o) + x;
        assert(ds[at] == b2[at].typ);
    }
}

proof fn lemma_count_ctors(members: Seq<MemberT>, i: nat)
    ensures
        count_ctors(members, i) == ctors_between(members, i, members.len()),
    decreases members.len() - i,
{
    if i < members.len() {
        lemma_count_ctors(members, i + 1);
    }
}

/// The recursors that are built for a group stand for its members one by one; each
/// has the type of the recursor for its member, as many motives as there are
/// members and as many minor premises as these have constructors.
pub proof fn law_derived_recursors(k: K, s: Sem, m: Mode, g: GroupT, i: nat, acc: Seq<DerivedT>, rs: Seq<DerivedT>, j: int)
    requires
        i == acc.len(),
        i <= g.members.len(),
        derive_from(k, s, m, g, i, acc) == Ok::<Seq<DerivedT>, Fault>(rs),
    ensures
        rs.len() == g.members.len(),
        rs.take(acc.len() as int) == acc,
        i <= j < rs.len() ==> recursor_type(
            k,
            s,
            m,
            g.names,
            g.members,
            j as nat,
            g.np,
            g.params,
            g.elim,
        ) == Ok::<Term, Fault>(rs[j].typ) && rs[j].num_indices == g.members[j].num_indices
            && rs[j].level_params == g.level_params && rs[j].all == g.names && rs[j].num_params
            == g.np && rs[j].k == g.k && (g.members.len() <= u32::MAX ==> rs[j].num_motives
            == g.members.len()) && (ctors_between(g.members, 0, g.members.len()) <= u32::MAX
            ==> rs[j].num_minors == ctors_between(g.members, 0, g.members.len())),
    decreases g.members.len() - i,
{
    if i < g.members.len() {
        let t = recursor_type(k, s, m, g.names, g.members, i, g.np, g.params, g.elim)->Ok_0;
        let d = DerivedT {
            typ: t,
            level_params: g.level_params,
            all: g.names,
            num_params: g.np,
            num_indices: g.members[i as int].num_indices,
            num_motives: crate::expr::clamp_index(g.members.len() as int),
            num_minors: crate::expr::clamp_index(count_ctors(g.members, 0) as int),
            k: g.k,
        };
        lemma_count_ctors(g.members, 0);
        law_derived_recursors(k, s, m, g, i + 1, acc.push(d), rs, j);
        assert(rs.take(acc.len() as int) =~= rs.take(acc.len() as int + 1).take(acc.len() as int));
        assert(acc.push(d).take(acc.len() as int) =~= acc);
        assert(rs[i as int] == rs.take(acc.len() as int + 1)[i as int]);
    } else {
        assert(rs.take(acc.len() as int) =~= acc);
    }
}

/// The level that recursors eliminate into, and their universe parameters: where
/// the group may be eliminated into propositions alone, level zero and the
/// parameters supplied, as many as the group has; else the first of those
/// supplied, of which there is one more than the group has.
pub proof fn law_elimination_level(
    k: K,
    s: Sem,
    m: Mode,
    typ: Term,
    all: Seq<u32>,
    np: u32,
    lps: Seq<u32>,
    supplied: Seq<u32>,
    rs: Seq<DerivedT>,
)
    requires
        derive_group(k, s, m, typ, all, np, lps, supplied) == Ok::<Seq<DerivedT>, Fault>(rs),
    ensures
        exists|found: Seq<MemberT>, prop_only: bool, params: Seq<BinderT>, members: Seq<MemberT>|
            #![trigger prop_only_spec(k, s, m, all, found, np), derived_at(k, s, m, all, np, supplied, prop_only, params, members, rs)]
            prop_only_spec(k, s, m, all, found, np) == Ok::<bool, Fault>(prop_only)
                && supplied.len() == lps.len() + (if prop_only {
                0int
            } else {
                1int
            }) && derived_at(k, s, m, all, np, supplied, prop_only, params, members, rs),
{
    reveal(derive_group);
    let (_, found) = members_at(k, s, m, typ, all, np, lps, param_levels(lps))->Ok_0;
    let prop_only = prop_only_spec(k, s, m, all, found, np)->Ok_0;
    let own = if prop_only {
        supplied
    } else {
        supplied.skip(1)
    };
    let (params, members) = members_at(k, s, m, typ, all, np, lps, param_levels(own))->Ok_0;
    assert(derived_at(k, s, m, all, np, supplied, prop_only, params, members, rs));
}

/// The recursors are those of the members, eliminating into the level that is
/// allowed.
pub open spec fn derived_at(
    k: K,
    s: Sem,
    m: Mode,
    all: Seq<u32>,
    np: u32,
    supplied: Seq<u32>,
    prop_only: bool,
    params: Seq<BinderT>,
    members: Seq<MemberT>,
    rs: Seq<DerivedT>,
) -> bool {
    exists|g: GroupT| #[trigger]
        derive_from(k, s, m, g, 0, Seq::empty()) == Ok::<Seq<DerivedT>, Fault>(rs) && g.names == all
            && g.members == members && g.np == np && g.params == params && g.level_params
            == supplied && g.elim == (if prop_only {
            Univ::Zero
        } else {
            Univ::Param(supplied[0])
        }) && (g.k ==> members.len() == 1 && k_like(k, s, m, all))
}

/// A recursor's type is accepted only where it and the built one, with their
/// universe parameters renamed alike, are types and are the same; it is rejected
/// where they are types that are denied to be the same.
pub proof fn law_recursor_types_agree(k: K, s: Sem, m: Mode, a: Term, b: Term)
    ensures
        same_types(k, s, m, a, b) is Ok ==> converts(s, m, Seq::empty(), a, b) && (exists|
            x: Univ,
        | #[trigger] is_type_at(k, s, m, Seq::empty(), a, x)) && exists|y: Univ| #[trigger]
            is_type_at(k, s, m, Seq::empty(), b, y),
        crate::infer::sort_of(k, s, m, Seq::empty(), a) is Ok && crate::infer::sort_of(
            k,
            s,
            m,
            Seq::empty(),
            b,
        ) is Ok && (s.defeq)(m, Seq::empty(), a, b) == Ok::<bool, Fault>(false) ==> is_reject(
            same_types(k, s, m, a, b),
        ),
{
    let none = Seq::<Term>::empty();
    match crate::infer::sort_of(k, s, m, none, a) {
        Ok(x) => crate::typing::law_sort_of_type(k, s, m, none, a, a, x),
        Err(_) => {},
    }
    match crate::infer::sort_of(k, s, m, none, b) {
        Ok(y) => crate::typing::law_sort_of_type(k, s, m, none, b, b, y),
        Err(_) => {},
    }
}

proof fn lemma_join_ids(a: Seq<u32>, b: Seq<u32>, x: u32)
    ensures
        a.contains(x) || b.contains(x) ==> join_ids(a, b).contains(x),
    decreases b.len(),
{
    if b.len() > 0 {
        let front = join_ids(a, b.drop_last());
        lemma_join_ids(a, b.drop_last(), x);
        if b.contains(x) && x != b.last() {
            let i = b.index_of(x);
            assert(b.drop_last()[i] == x);
        }
        if front.contains(x) {
            let i = front.index_of(x);
            assert(front.push(b.last())[i] == x);
        }
        assert(front.push(b.last())[front.len() as int] == b.last());
    }
}

/// A type is accepted for a recursor only where it and the built one are types and
/// the same at common universe parameters that stand in neither.
pub proof fn law_accepted_type(
    k: K,
    s: Sem,
    m: Mode,
    a: Term,
    aps: Seq<u32>,
    b: Term,
    bps: Seq<u32>,
)
    requires
        validate_spec(k, s, m, a, aps, b, bps) is Ok,
    ensures
        exists|ids: Seq<u32>| #[trigger]
            accepted_at(k, s, m, a, aps, b, bps, ids) && ids.len() == aps.len() && !repeats(ids)
                && forall|i: int|
                0 <= i < ids.len() ==> !aps.contains(#[trigger] ids[i]) && !bps.contains(ids[i])
                    && !term_ids(a, Seq::empty()).contains(ids[i]) && !term_ids(
                    b,
                    Seq::empty(),
                ).contains(ids[i]),
{
    reveal(validate_spec);
    let none = Seq::<u32>::empty();
    let ta = term_ids(a, none);
    let tb = term_ids(b, none);
    let u1 = join_ids(aps, bps);
    let u2 = join_ids(u1, ta);
    let used = join_ids(u2, tb);
    law_fresh_ids(used, u32::MAX, aps.len(), none);
    let ids = fresh_ids(used, u32::MAX, aps.len(), none)->Ok_0;
    let a1 = subst_params(a, aps, param_levels(ids));
    let b1 = subst_params(b, bps, param_levels(ids));
    law_recursor_types_agree(k, s, m, a1, b1);
    assert(accepted_at(k, s, m, a, aps, b, bps, ids));
    assert forall|i: int| 0 <= i < ids.len() implies !aps.contains(#[trigger] ids[i])
        && !bps.contains(ids[i]) && !ta.contains(ids[i]) && !tb.contains(ids[i]) by {
        lemma_join_ids(aps, bps, ids[i]);
        lemma_join_ids(u1, ta, ids[i]);
        lemma_join_ids(u2, tb, ids[i]);
        assert(!used.contains(ids[i]));
    }
}

/// At the common universe parameters the two are types and the same.
pub open spec fn accepted_at(
    k: K,
    s: Sem,
    m: Mode,
    a: Term,
    aps: Seq<u32>,
    b: Term,
    bps: Seq<u32>,
    ids: Seq<u32>,
) -> bool {
    let a1 = subst_params(a, aps, param_levels(ids));
    let b1 = subst_params(b, bps, param_levels(ids));
    &&& converts(s, m, Seq::empty(), a1, b1)
    &&& exists|x: Univ| #[trigger] is_type_at(k, s, m, Seq::empty(), a1, x)
    &&& exists|y: Univ| #[trigger] is_type_at(k, s, m, Seq::empty(), b1, y)
}

/// The type of a field leads to a member where it is the member, or reduces to it up
/// to what converts: the same name, the same levels, and the fixed parameters.
pub proof fn law_recursive_target_member(
    s: Sem,
    m: Mode,
    ctx: Seq<Term>,
    members: Seq<MemberT>,
    t: Term,
    np: u32,
    r: nat,
    ixs: Seq<Term>,
)
    requires
        recursive_target(s, m, ctx, members, t, np) == Ok::<Option<(nat, Seq<Term>)>, Fault>(
            Some((r, ixs)),
        ),
    ensures
        r < members.len(),
        ixs.len() == members[r as int].num_indices,
        is_member_app(members[r as int], ctx.len() - np, ixs, t) || exists|w: Term| #[trigger]
            reduces(s, m, ctx, t, w) && is_like_member(
                s,
                m,
                ctx,
                members[r as int],
                ctx.len() - np,
                ixs,
                w,
            ),
{
    match member_target(members, t, np, ctx.len(), 0) {
        Some(_) => law_member_target(members, t, np, ctx.len(), 0, r, ixs),
        None => {
            reveal(target_same);
            let w = (s.whnf)(m, ctx, t)->Ok_0;
            assert(reduces(s, m, ctx, t, w));
            match spine_head(w) {
                Term::Const(c, us) => {
                    let args = spine_args(w);
                    lemma_member_same(s, m, ctx, members, c, us, args, ctx.len() - np, 0, r, ixs);
                },
                _ => {},
            }
        },
    }
}

/// The term is an instance of the member up to what converts.
pub open spec fn is_like_member(
    s: Sem,
    m: Mode,
    ctx: Seq<Term>,
    mb: MemberT,
    by: int,
    ixs: Seq<Term>,
    w: Term,
) -> bool {
    let n = mb.fixed_params.len() as int;
    &&& (spine_head(w) matches Term::Const(c, us) && c == mb.source_name && univs_eq(
        us,
        mb.source_levels,
    ))
    &&& spine_args(w).len() == n + ixs.len()
    &&& convert_all(s, m, ctx, spine_args(w).take(n), lift_all(mb.fixed_params, by))
    &&& spine_args(w).skip(n) == ixs
}

proof fn lemma_member_same(
    s: Sem,
    m: Mode,
    ctx: Seq<Term>,
    members: Seq<MemberT>,
    name: u32,
    us: Seq<Univ>,
    args: Seq<Term>,
    by: int,
    i: nat,
    r: nat,
    ixs: Seq<Term>,
)
    requires
        member_same(s, m, ctx, members, name, us, args, by, i) == Ok::<
            Option<(nat, Seq<Term>)>,
            Fault,
        >(Some((r, ixs))),
    ensures
        r < members.len(),
        ({
            let mb = members[r as int];
            let n = mb.fixed_params.len() as int;
            &&& ixs.len() == mb.num_indices
            &&& name == mb.source_name
            &&& univs_eq(us, mb.source_levels)
            &&& args.len() == n + ixs.len()
            &&& args.skip(n) == ixs
            &&& convert_all(s, m, ctx, args.take(n), lift_all(mb.fixed_params, by))
        }),
    decreases members.len() - i,
{
    if i < members.len() {
        let mb = members[i as int];
        let n = mb.fixed_params.len() as int;
        if name == mb.source_name && univs_eq(us, mb.source_levels) && args.len() == n
            + mb.num_indices {
            match pairwise(s, m, ctx, args.take(n), lift_all(mb.fixed_params, by), 0) {
                Ok(true) => lemma_pairwise(
                    s,
                    m,
                    ctx,
                    args.take(n),
                    lift_all(mb.fixed_params, by),
                    0,
                ),
                _ => lemma_member_same(s, m, ctx, members, name, us, args, by, i + 1, r, ixs),
            }
        } else {
            lemma_member_same(s, m, ctx, members, name, us, args, by, i + 1, r, ixs);
        }
    }
}

proof fn lemma_own_ctors(
    k: K,
    ctors: Seq<u32>,
    lps: Seq<u32>,
    levels: Seq<Univ>,
    i: nat,
    acc: Seq<RecCtorT>,
    cs: Seq<RecCtorT>,
)
    requires
        i == acc.len() <= ctors.len(),
        own_ctors(k, ctors, lps, levels, i, acc) == Ok::<Seq<RecCtorT>, Fault>(cs),
    ensures
        cs.len() == ctors.len(),
        cs.take(i as int) == acc,
        forall|j: int|
            i <= j < cs.len() ==> is_ctor_at(k, ctors[j], lps, levels, #[trigger] cs[j]),
    decreases ctors.len() - i,
{
    if i < ctors.len() {
        match find(k.env, ctors[i as int]) {
            Some(Info::Constructor { typ, .. }) => {
                let c = RecCtorT {
                    name: ctors[i as int],
                    levels,
                    typ: subst_params(typ, lps, levels),
                };
                lemma_own_ctors(k, ctors, lps, levels, i + 1, acc.push(c), cs);
                assert(cs[i as int] == cs.take((i + 1) as int)[i as int]);
                assert(cs.take(i as int) =~= cs.take((i + 1) as int).take(i as int));
                assert(acc.push(c).take(i as int) =~= acc);
            },
            _ => {},
        }
    } else {
        assert(cs.take(i as int) =~= acc);
    }
}

/// The constructor is the declared one of that name, at the levels.
pub open spec fn is_ctor_at(k: K, name: u32, lps: Seq<u32>, levels: Seq<Univ>, c: RecCtorT) -> bool {
    c.name == name && c.levels == levels && (find(k.env, name) matches Some(
        Info::Constructor { typ, .. },
    ) && c.typ == subst_params(typ, lps, levels))
}

/// The member is the declared type of that name, at the levels and the parameters,
/// with its constructors in order.
pub open spec fn is_own_member(
    k: K,
    name: u32,
    np: u32,
    lps: Seq<u32>,
    levels: Seq<Univ>,
    mb: MemberT,
) -> bool {
    mb.source_name == name && mb.source_levels == levels && mb.fixed_params == down_vars(np as nat)
        && (find(k.env, name) matches Some(Info::InductiveType { typ, num_indices, ctors, .. })
        && mb.typ == subst_params(typ, lps, levels) && mb.num_indices == num_indices
        && mb.ctors.len() == ctors.len() && forall|j: int|
        0 <= j < ctors.len() ==> is_ctor_at(k, ctors[j], lps, levels, #[trigger] mb.ctors[j]))
}

/// The members that stand for the types of a group are the declared ones, in order.
pub proof fn law_own_members(
    k: K,
    all: Seq<u32>,
    np: u32,
    lps: Seq<u32>,
    levels: Seq<Univ>,
    i: nat,
    acc: Seq<MemberT>,
    ms: Seq<MemberT>,
    j: int,
)
    requires
        i == acc.len() <= all.len(),
        own_members(k, all, np, lps, levels, i, acc) == Ok::<Seq<MemberT>, Fault>(ms),
    ensures
        ms.len() == all.len(),
        ms.take(i as int) == acc,
        i <= j < ms.len() ==> is_own_member(k, all[j], np, lps, levels, ms[j]),
    decreases all.len() - i,
{
    if i < all.len() {
        match find(k.env, all[i as int]) {
            Some(Info::InductiveType { typ, num_indices, ctors, .. }) => {
                let cs = own_ctors(k, ctors, lps, levels, 0, Seq::empty())->Ok_0;
                lemma_own_ctors(k, ctors, lps, levels, 0, Seq::empty(), cs);
                let mb = MemberT {
                    source_name: all[i as int],
                    source_levels: levels,
                    fixed_params: down_vars(np as nat),
                    typ: subst_params(typ, lps, levels),
                    num_indices,
                    ctors: cs,
                };
                law_own_members(k, all, np, lps, levels, i + 1, acc.push(mb), ms, j);
                assert(ms[i as int] == ms.take((i + 1) as int)[i as int]);
                assert(ms.take(i as int) =~= ms.take((i + 1) as int).take(i as int));
                assert(acc.push(mb).take(i as int) =~= acc);
            },
            _ => {},
        }
    } else {
        assert(ms.take(i as int) =~= acc);
    }
}

/// A type of an earlier group at fixed parameters: behind its own parameters, the
/// declared type at the levels with the fixed ones in place of them, under the
/// current parameters.
pub proof fn law_specialized(
    k: K,
    s: Sem,
    m: Mode,
    typ: Term,
    lps: Seq<u32>,
    levels: Seq<Univ>,
    np: u32,
    fixed: Seq<Term>,
    current: Seq<BinderT>,
    t: Term,
)
    requires
        specialized(k, s, m, typ, lps, levels, np, fixed, current) == Ok::<Term, Fault>(t),
    ensures
        lps.len() == levels.len(),
        fixed.len() == np,
        exists|c: Seq<Term>, e: Term|
            #![trigger opens(k, s, m, Seq::empty(), subst_params(typ, lps, levels), np as nat, c, e)]
            opens(k, s, m, Seq::empty(), subst_params(typ, lps, levels), np as nat, c, e)
                && pi_doms(t) == types_of(current) + pi_doms(plug(e, fixed.reverse(), 0))
                && pi_target(t) == pi_target(plug(e, fixed.reverse(), 0)),
{
    reveal(specialized);
    let d = subst_params(typ, lps, levels);
    let (c, e) = open_spec(k, s, m, Seq::empty(), d, np as nat)->Ok_0;
    law_opened(k, s, m, Seq::empty(), d, np as nat, c, e);
    law_closed_telescope(current, plug(e, fixed.reverse(), 0));
}

/// The sort of the member behind its parameters and indices.
pub open spec fn member_sort(k: K, s: Sem, m: Mode, mb: MemberT, np: u32, l: Univ) -> bool {
    exists|c: Seq<Term>, t: Term| #[trigger]
        opens(k, s, m, Seq::empty(), mb.typ, (np + mb.num_indices) as nat, c, t)
            && crate::typing::shows(k, s, m, c, t, Term::Sort(l))
}

/// Members have the same sort; one that is found beforehand is theirs too.
pub proof fn law_common_sort(
    k: K,
    s: Sem,
    m: Mode,
    members: Seq<MemberT>,
    np: u32,
    i: nat,
    found: Option<Univ>,
    r: Option<Univ>,
)
    requires
        common_level(k, s, m, members, np, i, found) == Ok::<Option<Univ>, Fault>(r),
    ensures
        found is Some ==> r == found,
        i < members.len() ==> r is Some,
        r matches Some(l) ==> forall|j: int|
            i <= j < members.len() ==> exists|x: Univ|
                member_sort(k, s, m, #[trigger] members[j], np, x) && #[trigger] same_sort(l, x),
    decreases members.len() - i,
{
    if i < members.len() {
        let mb = members[i as int];
        let n = (np + mb.num_indices) as nat;
        let (c, t) = open_spec(k, s, m, Seq::empty(), mb.typ, n)->Ok_0;
        law_opened(k, s, m, Seq::empty(), mb.typ, n, c, t);
        law_showing(k, s, m, c, t, t);
        let x = crate::reduce::ensure_sort_spec(k, s, m, c, t)->Ok_0;
        assert(member_sort(k, s, m, mb, np, x));
        let next = match found {
            None => Some(x),
            Some(l0) => found,
        };
        assert(same_sort(next.unwrap(), x));
        law_common_sort(k, s, m, members, np, i + 1, next, r);
    }
}

/// The levels are equal.
pub open spec fn same_sort(a: Univ, b: Univ) -> bool {
    univ_eq(a, b)
}

/// Where earlier groups stand among the members, the recursors eliminate into
/// propositions alone exactly where the members' sort may be that of propositions.
pub proof fn law_nested_elimination(
    k: K,
    s: Sem,
    m: Mode,
    names: Seq<u32>,
    members: Seq<MemberT>,
    np: u32,
    r: bool,
)
    requires
        prop_only_spec(k, s, m, names, members, np) == Ok::<bool, Fault>(r),
    ensures
        members.len() == names.len() ==> elim_only_spec(k, s, m, names) == Ok::<bool, Fault>(r),
        members.len() != names.len() ==> exists|l: Univ|
            r == !univ_positive(l) && forall|j: int|
                0 <= j < members.len() ==> exists|x: Univ|
                    member_sort(k, s, m, #[trigger] members[j], np, x) && #[trigger] same_sort(
                        l,
                        x,
                    ),
{
    reveal(prop_only_spec);
    let found = common_level(k, s, m, members, np, 0, None)->Ok_0;
    law_common_sort(k, s, m, members, np, 0, None, found);
    if members.len() != names.len() {
        let l = found.unwrap();
        assert(r == !univ_positive(l));
    }
}

} // verus!
