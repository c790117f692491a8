//! What reduction does: how a recursor, a quotient, a function or a projection
//! computes, and what a head normal form has to do with the term.

use crate::admission::{law_opened, opens};
use crate::closed::lemma_found;
use crate::conv::pairwise;
use crate::env::{find, group_of, rec_of, Info, QuotKind};
use crate::errors::Fault;
use crate::expr::{
    law_apps, lift, mk_apps, plug, plug1, spine_args, spine_head, subst_params, BinderInfo, LitT,
    Term,
};
use crate::ext::extension_spec;
use crate::iota::{
    app_bvars, apply_fields, calls_for, field_binders, field_call, first_at, group_minor, iota_on,
    iota_rhs, iota_spec, k_ctor, k_like, law_fields_before_calls, lift_all, major_at, major_ctor,
    minor_by_type, minor_from, minor_index, minor_is_for, open_all, pi_count, pi_target, push_projs,
    quot_position, quot_spec, rec_target, rec_type_at, shown_ctor, shown_fields, skip_pis,
    structure_ctor, whnf_or, wrap_lams, CtorAppT, RecArgsT, RecShape,
};
use crate::kernel::{K, Mode, REDUCTION_LIMIT, STEP_LIMIT, Sem};
use crate::level::Univ;
use crate::lookup::{
    cheap_zeta_spec, ctor_headed, eager_unfolds, name_of, unfold_def_spec, unfold_delta_spec,
    unfolds_thm_major, zeta,
};
use crate::names::{
    app1, byte_term, bytes_list, find_name_spec, head_name, headed_by, nat_lit, plain,
};
use crate::natext::decision;
use crate::ratio::dite_spec;
use crate::reduce::{
    apply_type_spec, beta_seq, core_loop, core_once, core_step, ensure_pi_spec, lam_body, lam_count,
    major_loop, proj_field, proj_once, proj_value, whnf_loop, whnf_major_spec, whnf_step, Step,
};
use crate::sameness::convert_all;
use crate::typing::{
    converts, has_type, instantiates, is_zero, law_applied_type, law_showing, projections, reduces,
    shows, shows_pi, unfolds,
};
use vstd::prelude::*;

verus! {

proof fn lemma_apps_append(f: Term, a: Seq<Term>, b: Seq<Term>)
    ensures
        mk_apps(mk_apps(f, a), b) == mk_apps(f, a + b),
    decreases b.len(),
{
    if b.len() == 0 {
        assert(a + b =~= a);
    } else {
        lemma_apps_append(f, a, b.drop_last());
        assert((a + b).drop_last() =~= a + b.drop_last());
        assert((a + b).last() == b.last());
    }
}

/// Applying a term to some arguments and then to more is applying it to all of
/// them, in order.
pub proof fn law_apps_append(f: Term, a: Seq<Term>, b: Seq<Term>)
    ensures
        mk_apps(mk_apps(f, a), b) == mk_apps(f, a + b),
{
    lemma_apps_append(f, a, b);
}

/// What follows the major premise of a recursor stays behind what the recursor
/// computes: reducing it with more arguments gives what it gives without them,
/// applied to them.
pub proof fn law_iota_behind(
    k: K,
    s: Sem,
    m: Mode,
    ctx: Seq<Term>,
    head: Term,
    args: Seq<Term>,
    rest: Seq<Term>,
)
    ensures
        iota_spec(k, s, m, ctx, head, args) matches Ok(Some(t)) ==> iota_spec(
            k,
            s,
            m,
            ctx,
            head,
            args + rest,
        ) == Ok::<Option<Term>, Fault>(Some(mk_apps(t, rest))),
        iota_spec(k, s, m, ctx, head, args) matches Err(f) ==> iota_spec(
            k,
            s,
            m,
            ctx,
            head,
            args + rest,
        ) == Err::<Option<Term>, Fault>(f),
{
    reveal(iota_spec);
    reveal(iota_on);
    match head {
        Term::Const(rname, us) => match find(k.env, rname) {
            Some(
                Info::Recursor { num_params, num_motives, num_minors, num_indices, .. },
            ) => {
                let sh = RecShape { num_params, num_motives, num_minors, num_indices };
                let at = major_at(sh);
                if args.len() > at {
                    let all = args + rest;
                    let p1 = num_params as int;
                    let p2 = p1 + num_motives;
                    let p3 = p2 + num_minors;
                    assert(all[at] == args[at]);
                    assert(all.subrange(0, p1) =~= args.subrange(0, p1));
                    assert(all.subrange(p1, p2) =~= args.subrange(p1, p2));
                    assert(all.subrange(p2, p3) =~= args.subrange(p2, p3));
                    assert(all.skip(at + 1) =~= args.skip(at + 1) + rest);
                    match iota_spec(k, s, m, ctx, head, args + rest) {
                        Ok(Some(_)) => {
                            assert forall|r: Term| #[trigger]
                                mk_apps(r, all.skip(at + 1)) == mk_apps(
                                    mk_apps(r, args.skip(at + 1)),
                                    rest,
                                ) by {
                                lemma_apps_append(r, args.skip(at + 1), rest);
                            }
                        },
                        _ => {},
                    }
                }
            },
            _ => {},
        },
        _ => {},
    }
}

/// The major premise is a constructor application that shows: a constructor that the
/// recursor takes, or a numeral in the place of one.
pub open spec fn is_shown(k: K, all: Seq<u32>, ctors: Seq<u32>, w: Term, c: CtorAppT) -> bool {
    ||| (spine_head(w) == Term::Const(c.ctor, c.levels.unwrap()) && c.levels is Some && c.args
        == spine_args(w) && (find(k.env, c.ctor) matches Some(
        Info::Constructor { induct, num_params, .. },
    ) && c.num_params == num_params && (all.contains(induct) || ctors.contains(c.ctor))))
    ||| (spine_head(w) matches Term::Lit(LitT::Nat(n)) && c.num_params == 0 && (k.nat_ref matches Some(t) && (
    find(k.env, t) matches Some(Info::InductiveType { ctors: cs, .. }) && cs.len() == 2 && (if n
        == 0 {
        c.ctor == cs[0] && c.args.len() == 0
    } else {
        c.ctor == cs[1] && c.args == seq![Term::Lit(LitT::Nat((n - 1) as nat))]
    }))))
}

/// The major premise is a value of a structure that is no proposition, and stands
/// for the constructor applied to the parameters of its type and to its own
/// projections.
pub open spec fn is_expanded(k: K, s: Sem, m: Mode, ctx: Seq<Term>, w: Term, c: CtorAppT) -> bool {
    exists|wt: Term, tw: Term|
        #![trigger has_type(s, m, ctx, w, wt), reduces(s, m, ctx, wt, tw)]
        has_type(s, m, ctx, w, wt) && reduces(s, m, ctx, wt, tw) && (s.is_prop)(m, ctx, tw)
            == Ok::<bool, Fault>(false) && (spine_head(tw) matches Term::Const(n, us) && c.levels
            == Some(us) && (find(k.env, n) matches Some(
            Info::InductiveType { ctors, num_params, num_indices, is_rec, .. },
        ) && ctors.len() == 1 && num_indices == 0 && !is_rec && c.ctor == ctors[0] && c.num_params
            == num_params && num_params <= spine_args(tw).len() && (find(
            k.env,
            ctors[0],
        ) matches Some(Info::Constructor { num_fields, .. }) && c.args == spine_args(tw).take(
            num_params as int,
        ) + projections(n, w, num_fields as nat))))
}

/// The recursor is on a single type of propositions with one constructor, which has
/// no fields, and the type of the major premise has the indices that the
/// constructor has at the recursor's parameters. So the premise stands for the
/// constructor.
pub open spec fn is_the_one_proof(
    k: K,
    s: Sem,
    m: Mode,
    ctx: Seq<Term>,
    all: Seq<u32>,
    params: Seq<Term>,
    major: Term,
    c: CtorAppT,
) -> bool {
    all.len() == 1 && c.args == params && (find(k.env, all[0]) matches Some(
        Info::InductiveType { ctors, num_params, .. },
    ) && ctors == seq![c.ctor] && (find(k.env, c.ctor) matches Some(
        Info::Constructor { typ, level_params, num_params: np, .. },
    ) && c.num_params == np && pi_count(typ) == num_params && exists|mt: Term, w: Term, ct: Term|
        #![trigger has_type(s, m, ctx, major, mt), reduces(s, m, ctx, mt, w), convert_all(s, m, ctx, spine_args(w), spine_args(ct))]
        has_type(s, m, ctx, major, mt) && reduces(s, m, ctx, mt, w) && (spine_head(
            w,
        ) matches Term::Const(n, us) && n == all[0] && instantiates(
            k,
            s,
            m,
            ctx,
            subst_params(typ, level_params, us),
            params,
            ct,
        )) && convert_all(s, m, ctx, spine_args(w), spine_args(ct)))) && ends_at_zero(
        k,
        s,
        m,
        all[0],
    )
}

/// Each term is a function type over the domain, and its codomain reduces to the
/// next.
pub open spec fn codomains(s: Sem, m: Mode, ctx: Seq<Term>, ws: Seq<Term>, ds: Seq<Term>) -> bool {
    &&& ws.len() == ds.len() + 1
    &&& forall|i: int|
        0 <= i < ds.len() ==> ((#[trigger] ws[i]) matches Term::Pi(_, d, b) && *d == ds[i]
            && reduces(s, m, ctx + ds.take(i + 1), *b, ws[i + 1]))
}

proof fn lemma_open_all(
    s: Sem,
    m: Mode,
    ctx: Seq<Term>,
    t: Term,
    n: nat,
    c2: Seq<Term>,
    e: Term,
)
    requires
        open_all(s, m, ctx, t, n) == Ok::<(Seq<Term>, Term), Fault>((c2, e)),
    ensures
        exists|ws: Seq<Term>, ds: Seq<Term>| #[trigger]
            codomains(s, m, ctx, ws, ds) && reduces(s, m, ctx, t, ws[0]) && ws.last() == e && c2
                == ctx + ds && !(e is Pi),
    decreases n,
{
    let w = (s.whnf)(m, ctx, t)->Ok_0;
    match w {
        Term::Pi(_, dom, body) => {
            let d = *dom;
            lemma_open_all(s, m, ctx.push(d), *body, (n - 1) as nat, c2, e);
            let (ws, ds) = choose|ws: Seq<Term>, ds: Seq<Term>| #[trigger]
                codomains(s, m, ctx.push(d), ws, ds) && reduces(s, m, ctx.push(d), *body, ws[0])
                    && ws.last() == e && c2 == ctx.push(d) + ds && !(e is Pi);
            let ws2 = seq![w] + ws;
            let ds2 = seq![d] + ds;
            assert forall|i: int| 0 <= i < ds2.len() implies ((#[trigger] ws2[i]) matches Term::Pi(
                _,
                x,
                b,
            ) && *x == ds2[i] && reduces(s, m, ctx + ds2.take(i + 1), *b, ws2[i + 1])) by {
                if i == 0 {
                    assert(ctx + ds2.take(1) =~= ctx.push(d));
                } else {
                    assert(ws2[i] == ws[i - 1]);
                    assert(ws2[i + 1] == ws[i]);
                    assert(ctx + ds2.take(i + 1) =~= ctx.push(d) + ds.take(i));
                }
            }
            assert(codomains(s, m, ctx, ws2, ds2));
            assert(ctx + ds2 =~= ctx.push(d) + ds);
        },
        _ => {
            let ws = seq![w];
            let ds = Seq::<Term>::empty();
            assert(codomains(s, m, ctx, ws, ds));
            assert(ctx + ds =~= ctx);
        },
    }
}

/// The type comes to a sort of level zero behind its parameters and all the other
/// binders that it shows.
pub open spec fn ends_at_zero(k: K, s: Sem, m: Mode, t: u32) -> bool {
    find(k.env, t) matches Some(Info::InductiveType { typ, num_params, .. }) && exists|
        c1: Seq<Term>,
        t1: Term,
        ws: Seq<Term>,
        ds: Seq<Term>,
        l: Univ,
    |
        #![trigger opens(k, s, m, Seq::empty(), typ, num_params as nat, c1, t1), codomains(s, m, c1, ws, ds), is_zero(l)]
        opens(k, s, m, Seq::empty(), typ, num_params as nat, c1, t1) && codomains(s, m, c1, ws, ds)
            && reduces(s, m, c1, t1, ws[0]) && shows(k, s, m, c1 + ds, ws.last(), Term::Sort(l))
            && is_zero(l)
}

proof fn lemma_push_projs(sname: u32, v: Term, acc: Seq<Term>, i: u32, n: u32)
    requires
        i <= n,
    ensures
        push_projs(sname, v, acc, i, n) == acc + Seq::new(
            (n - i) as nat,
            |j: int| Term::Proj(sname, (i + j) as u32, Box::new(v)),
        ),
    decreases n - i,
{
    if i < n {
        let acc2 = acc.push(Term::Proj(sname, i, Box::new(v)));
        lemma_push_projs(sname, v, acc2, (i + 1) as u32, n);
        assert(push_projs(sname, v, acc, i, n) =~= acc + Seq::new(
            (n - i) as nat,
            |j: int| Term::Proj(sname, (i + j) as u32, Box::new(v)),
        ));
    } else {
        assert(acc + Seq::new(
            0,
            |j: int| Term::Proj(sname, (i + j) as u32, Box::new(v)),
        ) =~= acc);
    }
}

proof fn lemma_pairs(s: Sem, m: Mode, ctx: Seq<Term>, a1: Seq<Term>, a2: Seq<Term>, i: nat)
    requires
        pairwise(s, m, ctx, a1, a2, i) == Ok::<bool, Fault>(true),
    ensures
        a1.len() == a2.len(),
        forall|j: int| i <= j < a1.len() ==> #[trigger] converts(s, m, ctx, a1[j], a2[j]),
    decreases a1.len() - i,
{
    if i < a1.len() {
        lemma_pairs(s, m, ctx, a1, a2, i + 1);
    }
}

/// The constructor application that a major premise is taken for: one that it
/// shows, its own expansion as a value of a structure, or the one proof that a
/// proposition without content has.
pub proof fn law_major_premise(
    k: K,
    s: Sem,
    m: Mode,
    ctx: Seq<Term>,
    all: Seq<u32>,
    ctors: Seq<u32>,
    params: Seq<Term>,
    major: Term,
    w: Term,
    c: CtorAppT,
)
    requires
        major_ctor(k, s, m, ctx, all, ctors, params, major, w) == Ok::<Option<CtorAppT>, Fault>(
            Some(c),
        ),
    ensures
        is_shown(k, all, ctors, w, c) || is_expanded(k, s, m, ctx, w, c) || is_the_one_proof(
            k,
            s,
            m,
            ctx,
            all,
            params,
            major,
            c,
        ),
{
    reveal(major_ctor);
    match shown_ctor(k, all, ctors, w) {
        Ok(Some(_)) => {},
        _ => {
            match structure_ctor(k, s, m, ctx, w) {
                Ok(Some(_)) => {
                    reveal(structure_ctor);
                    let wt = (s.infer)(m, ctx, w)->Ok_0;
                    let tw = (s.whnf)(m, ctx, wt)->Ok_0;
                    assert(has_type(s, m, ctx, w, wt) && reduces(s, m, ctx, wt, tw));
                    match spine_head(tw) {
                        Term::Const(n, _) => match find(k.env, n) {
                            Some(Info::InductiveType { ctors: cs, num_params, .. }) => match find(
                                k.env,
                                cs[0],
                            ) {
                                Some(Info::Constructor { num_fields, .. }) => {
                                    lemma_push_projs(
                                        n,
                                        w,
                                        spine_args(tw).take(num_params as int),
                                        0,
                                        num_fields,
                                    );
                                    assert(Seq::new(
                                        (num_fields - 0) as nat,
                                        |j: int| Term::Proj(n, (0 + j) as u32, Box::new(w)),
                                    ) =~= projections(n, w, num_fields as nat));
                                },
                                _ => {},
                            },
                            _ => {},
                        },
                        _ => {},
                    }
                },
                _ => {
                    reveal(k_like);
                    reveal(k_ctor);
                    match find(k.env, all[0]) {
                        Some(Info::InductiveType { ctors: cs, typ: it, num_params: ip, .. }) => {
                            assert(cs =~= seq![cs[0]]);
                            let (c1, t1) = crate::reduce::open_spec(
                                k,
                                s,
                                m,
                                Seq::empty(),
                                it,
                                ip as nat,
                            )->Ok_0;
                            let (c2, t2) = open_all(s, m, c1, t1, STEP_LIMIT as nat)->Ok_0;
                            law_showing(k, s, m, c2, t2, t2);
                            let l = crate::reduce::ensure_sort_spec(k, s, m, c2, t2)->Ok_0;
                            law_opened(k, s, m, Seq::empty(), it, ip as nat, c1, t1);
                            lemma_open_all(s, m, c1, t1, STEP_LIMIT as nat, c2, t2);
                            let (ws, ds) = choose|ws: Seq<Term>, ds: Seq<Term>| #[trigger]
                                codomains(s, m, c1, ws, ds) && reduces(s, m, c1, t1, ws[0])
                                    && ws.last() == t2 && c2 == c1 + ds && !(t2 is Pi);
                            assert(shows(k, s, m, c1 + ds, ws.last(), Term::Sort(l)));
                            assert forall|rho: spec_fn(u32) -> nat| #[trigger]
                                crate::level::univ_value(l, rho) == 0 by {
                                assert(crate::level::univ_value(l, rho)
                                    == crate::level::univ_value(Univ::Zero, rho));
                            }
                            assert(is_zero(l));
                            assert(ends_at_zero(k, s, m, all[0]));
                            match find(k.env, cs[0]) {
                                Some(Info::Constructor { typ, level_params, .. }) => {
                                    let mt = (s.infer)(m, ctx, major)->Ok_0;
                                    let mtw = (s.whnf)(m, ctx, mt)->Ok_0;
                                    assert(has_type(s, m, ctx, major, mt) && reduces(
                                        s,
                                        m,
                                        ctx,
                                        mt,
                                        mtw,
                                    ));
                                    match spine_head(mtw) {
                                        Term::Const(_, us) => {
                                            let st = subst_params(typ, level_params, us);
                                            let ct = apply_type_spec(
                                                k,
                                                s,
                                                m,
                                                ctx,
                                                st,
                                                params,
                                                0,
                                            )->Ok_0;
                                            law_applied_type(k, s, m, ctx, st, params, 0, ct);
                                            assert(params.skip(0) =~= params);
                                            lemma_pairs(
                                                s,
                                                m,
                                                ctx,
                                                spine_args(mtw),
                                                spine_args(ct),
                                                0,
                                            );
                                            assert(convert_all(
                                                s,
                                                m,
                                                ctx,
                                                spine_args(mtw),
                                                spine_args(ct),
                                            ));
                                        },
                                        _ => {},
                                    }
                                },
                                _ => {},
                            }
                        },
                        _ => {},
                    }
                },
            }
        },
    }
}

/// The recursive calls for the first fields from position `i` on, in the order of the
/// fields: each field is looked at with the type that the constructor's type gives
/// it, with the fields before it put in. No field is left out while that type shows
/// a function type.
pub open spec fn gives_calls(
    k: K,
    s: Sem,
    m: Mode,
    ctx: Seq<Term>,
    ra: RecArgsT,
    ct: Term,
    fields: Seq<Term>,
    i: nat,
    n: nat,
    calls: Seq<Term>,
) -> bool
    decreases n,
{
    if n == 0 {
        calls.len() == 0 && (i >= fields.len() || ensure_pi_spec(k, s, m, ctx, ct) is Err)
    } else {
        i < fields.len() && exists|bi: BinderInfo, d: Term, b: Term|
            #![trigger shows_pi(k, s, m, ctx, ct, bi, d, b)]
            shows_pi(k, s, m, ctx, ct, bi, d, b) && (match field_call(
                k,
                s,
                m,
                ctx,
                ra,
                fields[i as int],
                d,
            ) {
                Err(_) => false,
                Ok(None) => gives_calls(
                    k,
                    s,
                    m,
                    ctx,
                    ra,
                    plug1(b, fields[i as int]),
                    fields,
                    i + 1,
                    (n - 1) as nat,
                    calls,
                ),
                Ok(Some(c)) => calls.len() > 0 && calls[0] == c && gives_calls(
                    k,
                    s,
                    m,
                    ctx,
                    ra,
                    plug1(b, fields[i as int]),
                    fields,
                    i + 1,
                    (n - 1) as nat,
                    calls.drop_first(),
                ),
            })
    }
}

proof fn lemma_gives_calls(
    k: K,
    s: Sem,
    m: Mode,
    ctx: Seq<Term>,
    ra: RecArgsT,
    ct: Term,
    fields: Seq<Term>,
    i: nat,
    out: Term,
    calls: Seq<Term>,
)
    requires
        i <= fields.len(),
        apply_fields(k, s, m, ctx, ra, ct, fields, i, out, calls) is Ok,
    ensures
        gives_calls(
            k,
            s,
            m,
            ctx,
            ra,
            ct,
            fields,
            i,
            shown_fields(k, s, m, ctx, ct, fields, i),
            calls_for(k, s, m, ctx, ra, ct, fields, i),
        ),
    decreases fields.len() - i,
{
    if i < fields.len() {
        match ensure_pi_spec(k, s, m, ctx, ct) {
            Err(_) => {},
            Ok((bi, d, b)) => {
                law_showing(k, s, m, ctx, ct, ct);
                assert(shows_pi(k, s, m, ctx, ct, bi, d, b));
                let f = fields[i as int];
                let call = field_call(k, s, m, ctx, ra, f, d);
                let calls2 = match call {
                    Ok(Some(c)) => calls.push(c),
                    _ => calls,
                };
                lemma_gives_calls(
                    k,
                    s,
                    m,
                    ctx,
                    ra,
                    plug1(b, f),
                    fields,
                    i + 1,
                    app1(out, f),
                    calls2,
                );
                let rest = calls_for(k, s, m, ctx, ra, plug1(b, f), fields, i + 1);
                match call {
                    Ok(Some(c)) => {
                        assert((seq![c] + rest).drop_first() =~= rest);
                        assert((seq![c] + rest)[0] == c);
                    },
                    _ => {},
                }
            },
        }
    }
}

/// What a recursor computes: the arguments in front of the major premise are, in
/// order, its parameters, motives, minor premises and indices; the major premise
/// is reduced and taken for a constructor application; and the result is the minor
/// premise for that constructor, applied to the fields that the constructor's type
/// shows, to the recursive calls for them, and to all that follows the premise.
pub open spec fn computes_to(
    k: K,
    s: Sem,
    m: Mode,
    ctx: Seq<Term>,
    rname: u32,
    us: Seq<Univ>,
    args: Seq<Term>,
    w: Term,
    c: CtorAppT,
    calls: Seq<Term>,
    shown: nat,
    t: Term,
) -> bool {
    find(k.env, rname) matches Some(
        Info::Recursor { all, num_params, num_motives, num_minors, num_indices, ctors, .. },
    ) && {
        let p2 = num_params + num_motives;
        let at = p2 + num_minors + num_indices;
        let params = args.take(num_params as int);
        let ra = RecArgsT {
            rname,
            us,
            all,
            params,
            motives: args.subrange(num_params as int, p2),
            minors: args.subrange(p2, p2 + num_minors),
        };
        let fields = c.args.skip(c.num_params as int);
        let cps = c.args.take(c.num_params as int);
        let i = minor_index(k, rname, us, params, c.ctor, cps, all);
        &&& at < args.len()
        &&& whnf_major_spec(k, s, m, ctx, args[at], rname) == Ok::<Term, Fault>(w)
        &&& is_shown(k, all, ctors, w, c) || is_expanded(k, s, m, ctx, w, c) || is_the_one_proof(
            k,
            s,
            m,
            ctx,
            all,
            params,
            args[at],
            c,
        )
        &&& c.num_params <= c.args.len()
        &&& i < num_minors
        &&& shown <= fields.len()
        &&& match find(k.env, c.ctor) {
            Some(Info::Constructor { level_params, typ, .. }) => exists|ct: Term| #[trigger]
                gives_calls(k, s, m, ctx, ra, ct, fields, 0, shown, calls) && instantiates(
                    k,
                    s,
                    m,
                    ctx,
                    subst_params(
                        typ,
                        level_params,
                        match c.levels {
                            Some(l) => l,
                            None => us,
                        },
                    ),
                    cps,
                    ct,
                ),
            _ => shown == 0 && calls.len() == 0,
        }
        &&& t == mk_apps(
            args[p2 + i],
            fields.take(shown as int) + calls + args.skip(at + 1),
        )
    }
}

/// Whatever a recursor reduces to is what its rule computes.
pub proof fn law_iota(
    k: K,
    s: Sem,
    m: Mode,
    ctx: Seq<Term>,
    rname: u32,
    us: Seq<Univ>,
    args: Seq<Term>,
    t: Term,
)
    requires
        iota_spec(k, s, m, ctx, Term::Const(rname, us), args) == Ok::<Option<Term>, Fault>(Some(t)),
    ensures
        exists|w: Term, c: CtorAppT, calls: Seq<Term>, shown: nat| #[trigger]
            computes_to(k, s, m, ctx, rname, us, args, w, c, calls, shown, t),
{
    reveal(iota_spec);
    reveal(iota_on);
    match find(k.env, rname) {
        Some(
            Info::Recursor { all, num_params, num_motives, num_minors, num_indices, ctors, .. },
        ) => {
            let sh = RecShape { num_params, num_motives, num_minors, num_indices };
            let at = major_at(sh);
            let p1 = num_params as int;
            let p2 = p1 + num_motives;
            let p3 = p2 + num_minors;
            let ra = RecArgsT {
                rname,
                us,
                all,
                params: args.subrange(0, p1),
                motives: args.subrange(p1, p2),
                minors: args.subrange(p2, p3),
            };
            assert(args.subrange(0, p1) =~= args.take(p1));
            let w = whnf_major_spec(k, s, m, ctx, args[at], rname)->Ok_0;
            let c = major_ctor(k, s, m, ctx, all, ctors, ra.params, args[at], w)->Ok_0.unwrap();
            law_major_premise(k, s, m, ctx, all, ctors, ra.params, args[at], w, c);
            let cp = c.args.take(c.num_params as int);
            let i = minor_index(k, rname, us, ra.params, c.ctor, cp, all);
            let minor = ra.minors[i as int];
            assert(minor == args[p2 + i]);
            let rhs = iota_rhs(k, s, m, ctx, ra, c, minor)->Ok_0;
            let fields = c.args.skip(c.num_params as int);
            let none = Seq::<Term>::empty();
            let behind = args.skip(at + 1);
            match find(k.env, c.ctor) {
                Some(Info::Constructor { level_params, typ, .. }) => {
                    reveal(iota_rhs);
                    let levels = match c.levels {
                        Some(l) => l,
                        None => ra.us,
                    };
                    let start = subst_params(typ, level_params, levels);
                    let ct = apply_type_spec(k, s, m, ctx, start, cp, 0)->Ok_0;
                    law_applied_type(k, s, m, ctx, start, cp, 0, ct);
                    assert(cp.skip(0) =~= cp);
                    law_fields_before_calls(k, s, m, ctx, ra, c, minor, ct, rhs);
                    lemma_gives_calls(k, s, m, ctx, ra, ct, fields, 0, minor, none);
                    let n = shown_fields(k, s, m, ctx, ct, fields, 0);
                    let calls = calls_for(k, s, m, ctx, ra, ct, fields, 0);
                    lemma_apps_append(minor, fields.take(n as int), calls);
                    lemma_apps_append(minor, fields.take(n as int) + calls, behind);
                    assert(gives_calls(k, s, m, ctx, ra, ct, fields, 0, n, calls));
                    assert(computes_to(k, s, m, ctx, rname, us, args, w, c, calls, n, t));
                },
                _ => {
                    reveal(iota_rhs);
                    assert(fields.take(0) + none + behind =~= behind);
                    assert(computes_to(k, s, m, ctx, rname, us, args, w, c, none, 0, t));
                },
            }
        },
        _ => {},
    }
}

/// A recursor without its major premise does not reduce, and neither does anything
/// that is no recursor; a recursor whose major premise is taken for nothing stays.
pub proof fn law_iota_stays(k: K, s: Sem, m: Mode, ctx: Seq<Term>, head: Term, args: Seq<Term>, w: Term)
    ensures
        !(head matches Term::Const(r, _) && (find(k.env, r) matches Some(Info::Recursor { .. })))
            ==> iota_spec(k, s, m, ctx, head, args) == Ok::<Option<Term>, Fault>(None),
        (head matches Term::Const(r, _) && (find(k.env, r) matches Some(
            Info::Recursor { all, ctors, num_params, num_motives, num_minors, num_indices, .. },
        ) && (args.len() <= num_params + num_motives + num_minors + num_indices || (
        whnf_major_spec(
            k,
            s,
            m,
            ctx,
            args[num_params + num_motives + num_minors + num_indices],
            r,
        ) == Ok::<Term, Fault>(w) && major_ctor(
            k,
            s,
            m,
            ctx,
            all,
            ctors,
            args.take(num_params as int),
            args[num_params + num_motives + num_minors + num_indices],
            w,
        ) == Ok::<Option<CtorAppT>, Fault>(None))))) ==> iota_spec(k, s, m, ctx, head, args)
            == Ok::<Option<Term>, Fault>(None),
{
    reveal(iota_spec);
    reveal(iota_on);
    match head {
        Term::Const(r, _) => match find(k.env, r) {
            Some(Info::Recursor { num_params, .. }) => {
                if num_params <= args.len() {
                    assert(args.subrange(0, num_params as int) =~= args.take(num_params as int));
                }
            },
            _ => {},
        },
        _ => {},
    }
}

/// A constructor application that the recursor takes is taken as it stands, and a
/// numeral as the constructor that it is built with.
pub proof fn law_shown_constructor(
    k: K,
    s: Sem,
    m: Mode,
    ctx: Seq<Term>,
    all: Seq<u32>,
    ctors: Seq<u32>,
    params: Seq<Term>,
    major: Term,
    w: Term,
    c: u32,
    us: Seq<Univ>,
)
    requires
        spine_head(w) == Term::Const(c, us),
        find(k.env, c) matches Some(Info::Constructor { induct, .. }) && (all.contains(induct)
            || ctors.contains(c)),
    ensures
        major_ctor(k, s, m, ctx, all, ctors, params, major, w) matches Ok(Some(r)) && r.ctor == c
            && r.args == spine_args(w) && r.levels == Some(us) && (find(k.env, c) matches Some(
            Info::Constructor { num_params, .. },
        ) && r.num_params == num_params),
{
    reveal(major_ctor);
}

proof fn lemma_minor_from(t: Term, p: nat, n: nat, c: u32, ps: Seq<Term>, i: nat)
    requires
        minor_from(t, p, n, c, ps) == Some(i),
    ensures
        p <= i < p + n,
        minor_at(t, (i - p) as nat) matches Some(d) && minor_is_for(d, c, ps),
        forall|j: nat|
            j < i - p ==> ((#[trigger] minor_at(t, j)) matches Some(d) && !minor_is_for(d, c, ps)),
    decreases n,
{
    match t {
        Term::Pi(_, dom, body) => {
            if !minor_is_for(*dom, c, ps) {
                lemma_minor_from(*body, p + 1, (n - 1) as nat, c, ps, i);
                assert forall|j: nat| j < i - p implies ((#[trigger] minor_at(t, j)) matches Some(d)
                    && !minor_is_for(d, c, ps)) by {
                    if j > 0 {
                        assert(minor_at(t, j) == minor_at(*body, (j - 1) as nat));
                    }
                }
            }
        },
        _ => {},
    }
}

/// The domain of a telescope at a position.
pub open spec fn minor_at(t: Term, j: nat) -> Option<Term>
    decreases j,
{
    match t {
        Term::Pi(_, d, b) => if j == 0 {
            Some(*d)
        } else {
            minor_at(*b, (j - 1) as nat)
        },
        _ => None,
    }
}

/// A type is that of the minor premise for a constructor at some parameters: the
/// last argument of its conclusion is the constructor applied to these parameters
/// first.
pub proof fn law_minor_is_for(d: Term, c: u32, ps: Seq<Term>)
    ensures
        minor_is_for(d, c, ps) <==> (crate::sameness::behind(d) matches Term::App(_, x) && (
        spine_head(*x) matches Term::Const(n, _) && n == c) && spine_args(*x).len() >= ps.len()
            && forall|i: int| 0 <= i < ps.len() ==> #[trigger] spine_args(*x)[i] == ps[i]),
{
    lemma_behind(d);
    let e = pi_target(d);
    match e {
        Term::App(_, x) => {
            assert(spine_args(e).last() == *x);
            let a = spine_args(*x);
            if a.len() >= ps.len() {
                if forall|i: int| 0 <= i < ps.len() ==> #[trigger] a[i] == ps[i] {
                    assert(a.take(ps.len() as int) =~= ps);
                }
                if a.take(ps.len() as int) == ps {
                    assert forall|i: int| 0 <= i < ps.len() implies #[trigger] a[i] == ps[i] by {
                        assert(a.take(ps.len() as int)[i] == ps[i]);
                    }
                }
            }
        },
        _ => {},
    }
}

proof fn lemma_behind(t: Term)
    ensures
        pi_target(t) == crate::sameness::behind(t),
    decreases t,
{
    match t {
        Term::Pi(_, _, b) => lemma_behind(*b),
        _ => {},
    }
}

/// The minor premise that the recursor's type shows for a constructor is the first
/// one that is for it, counted behind the parameters and motives.
pub proof fn law_minor_by_type(
    k: K,
    rname: u32,
    us: Seq<Univ>,
    params: Seq<Term>,
    c: u32,
    ps: Seq<Term>,
    i: nat,
)
    requires
        minor_by_type(k, rname, us, params, c, ps) == Some(i),
    ensures
        find(k.env, rname) matches Some(
            Info::Recursor { level_params, typ, num_params, num_motives, num_minors, .. },
        ) && i < num_minors && level_params.len() == us.len() && num_params == params.len() && (
        skip_pis(
            plug(subst_params(typ, level_params, us), params.reverse(), 0),
            (num_params + num_motives) as nat,
        ) matches Some(t) && (minor_at(t, i) matches Some(d) && minor_is_for(d, c, ps)) && forall|
            j: nat,
        | j < i ==> ((#[trigger] minor_at(t, j)) matches Some(d) && !minor_is_for(d, c, ps))),
{
    reveal(minor_by_type);
    match find(k.env, rname) {
        Some(Info::Recursor { level_params, typ, num_params, num_motives, num_minors, .. }) => {
            let t = skip_pis(
                rec_type_at(typ, level_params, us, params),
                (num_params + num_motives) as nat,
            ).unwrap();
            lemma_minor_from(t, 0, num_minors as nat, c, ps, i);
        },
        _ => {},
    }
}

/// The number of rules of the recursors of a group in front of a position.
pub open spec fn rules_before(k: K, group: Seq<u32>, i: nat) -> nat
    decreases i,
{
    if i == 0 {
        0
    } else {
        rules_before(k, group, (i - 1) as nat) + (match find(k.env, group[i - 1]) {
            Some(Info::Recursor { ctors, .. }) => ctors.len(),
            _ => 0,
        })
    }
}

proof fn lemma_first_at(v: Seq<u32>, x: u32, i: nat)
    ensures
        first_at(v, x, i) matches Some(l) ==> i <= l < v.len() && v[l as int] == x && forall|j: int|
            i <= j < l ==> v[j] != x,
        first_at(v, x, i) is None ==> forall|j: int| i <= j < v.len() ==> v[j] != x,
    decreases v.len() - i,
{
    if i < v.len() && v[i as int] != x {
        lemma_first_at(v, x, i + 1);
    }
}

proof fn lemma_group_minor(
    k: K,
    group: Seq<u32>,
    only: Option<u32>,
    c: u32,
    i: nat,
    idx: nat,
    p: nat,
)
    requires
        i <= group.len(),
        idx == rules_before(k, group, i),
        group_minor(k, group, only, c, i, idx) == Some(p),
    ensures
        exists|j: nat, l: nat| #[trigger]
            rule_at(k, group, j, l, c) && p == rules_before(k, group, j) + l && (only matches Some(
                r,
            ) ==> group[j as int] == r),
    decreases group.len() - i,
{
    if i < group.len() {
        match find(k.env, group[i as int]) {
            Some(Info::Recursor { ctors, .. }) => {
                lemma_first_at(ctors, c, 0);
                let here = match only {
                    Some(r) => r == group[i as int],
                    None => true,
                };
                match first_at(ctors, c, 0) {
                    Some(l) => {
                        if here {
                            assert(rule_at(k, group, i, l, c));
                        } else {
                            lemma_group_minor(k, group, only, c, i + 1, idx + ctors.len(), p);
                        }
                    },
                    None => {
                        lemma_group_minor(k, group, only, c, i + 1, idx + ctors.len(), p);
                    },
                }
            },
            _ => {
                lemma_group_minor(k, group, only, c, i + 1, idx, p);
            },
        }
    }
}

/// The recursor at the position of the group has its rule number `l` for the
/// constructor, and none before it.
pub open spec fn rule_at(k: K, group: Seq<u32>, j: nat, l: nat, c: u32) -> bool {
    j < group.len() && (find(k.env, group[j as int]) matches Some(Info::Recursor { ctors, .. }) && l
        < ctors.len() && ctors[l as int] == c && forall|x: int| 0 <= x < l ==> ctors[x] != c)
}

/// The minor premise that the rules of a group give for a constructor: as many
/// places on as there are rules before the rule for it, where the group has one.
pub proof fn law_minor_by_group(k: K, c: u32, rname: u32, only: Option<u32>, p: nat)
    requires
        group_minor(k, group_of(k.env, rname), only, c, 0, 0) == Some(p),
    ensures
        exists|j: nat, l: nat| #[trigger]
            rule_at(k, group_of(k.env, rname), j, l, c) && p == rules_before(
                k,
                group_of(k.env, rname),
                j,
            ) + l && (only matches Some(r) ==> group_of(k.env, rname)[j as int] == r),
{
    lemma_group_minor(k, group_of(k.env, rname), only, c, 0, 0, p);
}

proof fn lemma_lam_body(tys: Seq<Term>, e: Term)
    ensures
        lam_body(wrap_lams(tys, e), tys.len()) == e,
    decreases tys.len(),
{
    if tys.len() > 0 {
        let inner = Term::Lam(BinderInfo::Default, Box::new(tys.last()), Box::new(e));
        lemma_lam_body(tys.drop_last(), inner);
        lemma_lam_body_more(wrap_lams(tys.drop_last(), inner), tys.drop_last().len());
    }
}

proof fn lemma_lam_body_more(t: Term, n: nat)
    ensures
        lam_body(t, n) matches Term::Lam(_, _, b) ==> lam_body(t, n + 1) == *b,
    decreases n,
{
    if n > 0 {
        match t {
            Term::Lam(_, _, b) => lemma_lam_body_more(*b, (n - 1) as nat),
            _ => {},
        }
    } else {
        reveal_with_fuel(lam_body, 2);
    }
}

/// The types of the binders that a field's type shows one after the other, each
/// codomain reduced as far as it goes, and what stands behind them.
pub open spec fn field_walk(
    s: Sem,
    m: Mode,
    ctx: Seq<Term>,
    ws: Seq<Term>,
    bs: Seq<Term>,
    target: Term,
) -> bool {
    &&& ws.len() == bs.len() + 1
    &&& ws.last() == target
    &&& !(target is Pi)
    &&& forall|i: int|
        0 <= i < bs.len() ==> ((#[trigger] ws[i]) matches Term::Pi(_, d, b) && *d == bs[i] && ws[i
            + 1] == (match (s.whnf)(m, ctx + bs.take(i + 1), *b) {
            Ok(w) => w,
            Err(_) => *b,
        }))
}

proof fn lemma_field_walk(
    s: Sem,
    m: Mode,
    ctx: Seq<Term>,
    ty: Term,
    acc: Seq<Term>,
    n: nat,
    bs: Seq<Term>,
    target: Term,
    ws: Seq<Term>,
)
    requires
        field_binders(s, m, ctx, ty, acc, n) == Ok::<(Seq<Term>, Term), Fault>((bs, target)),
        ws.len() == acc.len() + 1,
        ws.last() == ty,
        forall|i: int|
            0 <= i < acc.len() ==> ((#[trigger] ws[i]) matches Term::Pi(_, d, b) && *d == acc[i]
                && ws[i + 1] == whnf_or(s, m, ctx + acc.take(i + 1), *b)),
    ensures
        exists|vs: Seq<Term>| #[trigger]
            field_walk(s, m, ctx, vs, bs, target) && vs[0] == ws[0],
    decreases n,
{
    match ty {
        Term::Pi(_, dom, body) => {
            let acc2 = acc.push(*dom);
            let next = whnf_or(s, m, ctx + acc2, *body);
            let ws2 = ws.push(next);
            assert forall|i: int| 0 <= i < acc2.len() implies ((#[trigger] ws2[i]) matches Term::Pi(
                _,
                d,
                b,
            ) && *d == acc2[i] && ws2[i + 1] == whnf_or(s, m, ctx + acc2.take(i + 1), *b)) by {
                assert(ws2[i] == ws[i]);
                if i < acc.len() {
                    assert(acc2.take(i + 1) =~= acc.take(i + 1));
                } else {
                    assert(acc2.take(i + 1) =~= acc2);
                }
            }
            lemma_field_walk(s, m, ctx, next, acc2, (n - 1) as nat, bs, target, ws2);
        },
        _ => {
            assert(field_walk(s, m, ctx, ws, bs, target));
        },
    }
}

/// Below abstractions over the binders, a recursor at the levels is applied to its
/// parameters, to all the motives and minor premises lifted over the binders, to
/// the indices, and to the field applied to the binders.
pub open spec fn is_call(
    ra: RecArgsT,
    field: Term,
    bs: Seq<Term>,
    rec: u32,
    rps: Seq<Term>,
    ixs: Seq<Term>,
    call: Term,
) -> bool {
    let by = bs.len() as int;
    let e = lam_body(call, bs.len());
    &&& spine_head(e) == Term::Const(rec, ra.us)
    &&& spine_args(e) == rps + lift_all(ra.motives, by) + lift_all(ra.minors, by) + ixs + seq![
        app_bvars(lift(field, by, 0), bs.len()),
    ]
}

/// The recursive call for a field is made with the recursor that the target of the
/// field's type leads to, at the same levels, with the same motives and minor
/// premises, on the field applied to the binders of its type.
pub proof fn law_recursive_call(
    k: K,
    s: Sem,
    m: Mode,
    ctx: Seq<Term>,
    ra: RecArgsT,
    field: Term,
    ty: Term,
    call: Term,
)
    requires
        field_call(k, s, m, ctx, ra, field, ty) == Ok::<Option<Term>, Fault>(Some(call)),
    ensures
        exists|
            ws: Seq<Term>,
            bs: Seq<Term>,
            target: Term,
            rec: u32,
            rps: Seq<Term>,
            ixs: Seq<Term>,
        |
            #![trigger field_walk(s, m, ctx, ws, bs, target), is_call(ra, field, bs, rec, rps, ixs, call)]
            field_walk(s, m, ctx, ws, bs, target) && ws[0] == (match (s.whnf)(m, ctx, ty) {
                Ok(w) => w,
                Err(_) => ty,
            }) && rec_target(
                k,
                s,
                m,
                ctx + bs,
                ra.rname,
                ra.us,
                ra.all,
                ra.params,
                target,
                bs.len() as int,
            ) == Ok::<Option<(u32, Seq<Term>, Seq<Term>)>, Fault>(Some((rec, rps, ixs))) && is_call(
                ra,
                field,
                bs,
                rec,
                rps,
                ixs,
                call,
            ),
{
    reveal(field_call);
    let none = Seq::<Term>::empty();
    let w0 = whnf_or(s, m, ctx, ty);
    let (bs, target) = field_binders(s, m, ctx, w0, none, STEP_LIMIT as nat)->Ok_0;
    lemma_field_walk(s, m, ctx, w0, none, STEP_LIMIT as nat, bs, target, seq![w0]);
    let ws = choose|ws: Seq<Term>| #[trigger]
        field_walk(s, m, ctx, ws, bs, target) && ws[0] == seq![w0][0];
    let by = bs.len() as int;
    let (rec, rps, ixs) = rec_target(
        k,
        s,
        m,
        ctx + bs,
        ra.rname,
        ra.us,
        ra.all,
        ra.params,
        target,
        by,
    )->Ok_0.unwrap();
    let h = Term::Const(rec, ra.us);
    let ms = lift_all(ra.motives, by);
    let ns = lift_all(ra.minors, by);
    let f = app_bvars(lift(field, by, 0), bs.len());
    let all = rps + ms + ns + ixs + seq![f];
    lemma_apps_append(h, rps, ms);
    lemma_apps_append(h, rps + ms, ns);
    lemma_apps_append(h, rps + ms + ns, ixs);
    assert(all.drop_last() =~= rps + ms + ns + ixs);
    assert(all.last() == f);
    let e = mk_apps(h, all);
    assert(e == app1(mk_apps(h, rps + ms + ns + ixs), f));
    law_apps(h, all);
    lemma_lam_body(bs, e);
    assert(is_call(ra, field, bs, rec, rps, ixs, call));
}

/// The recursor that is called on a field whose type is a type of the group is the
/// one of that type; the field's type has the recursor's own parameters, and the
/// indices are what follows them.
pub proof fn law_recursive_target(
    k: K,
    s: Sem,
    m: Mode,
    tctx: Seq<Term>,
    rname: u32,
    us: Seq<Univ>,
    all: Seq<u32>,
    params: Seq<Term>,
    ty: Term,
    by: int,
    rec: u32,
    rps: Seq<Term>,
    ixs: Seq<Term>,
)
    requires
        rec_target(k, s, m, tctx, rname, us, all, params, ty, by) == Ok::<
            Option<(u32, Seq<Term>, Seq<Term>)>,
            Fault,
        >(Some((rec, rps, ixs))),
    ensures
        spine_head(ty) matches Term::Const(t, _) && (all.contains(t) ==> rec == (match rec_of(
            k.env,
            t,
        ) {
            Some(r) => r,
            None => rname,
        }) && rps + ixs == spine_args(ty) && rps.len() == params.len() && convert_all(
            s,
            m,
            tctx,
            rps,
            lift_all(params, by),
        )) && (!all.contains(t) ==> group_of(k.env, rname).contains(rec) && rps == lift_all(
            params,
            by,
        ) && ixs.len() == 0),
{
    reveal(rec_target);
    match spine_head(ty) {
        Term::Const(t, _) => {
            let iargs = spine_args(ty);
            if all.contains(t) {
                let np = params.len();
                assert(iargs.take(np as int) + iargs.skip(np as int) =~= iargs);
                lemma_pairs(s, m, tctx, iargs.take(np as int), lift_all(params, by), 0);
            } else {
                let group = group_of(k.env, rname);
                lemma_nested_by_type(k, s, m, tctx, group, us, params, t, iargs, 0);
                match find(k.env, t) {
                    Some(Info::InductiveType { ctors, .. }) => {
                        lemma_rec_for_ctors(k, group, ctors, 0);
                    },
                    _ => {},
                }
            }
        },
        _ => {},
    }
}

proof fn lemma_nested_by_type(
    k: K,
    s: Sem,
    m: Mode,
    ctx: Seq<Term>,
    group: Seq<u32>,
    us: Seq<Univ>,
    params: Seq<Term>,
    target: u32,
    targs: Seq<Term>,
    i: nat,
)
    ensures
        crate::iota::nested_by_type(
            k,
            s,
            m,
            ctx,
            group,
            us,
            params,
            target,
            targs,
            i,
        ) matches Some(r) ==> group.contains(r),
    decreases group.len() - i,
{
    if i < group.len() {
        lemma_nested_by_type(k, s, m, ctx, group, us, params, target, targs, i + 1);
    }
}

proof fn lemma_rec_for_ctor(k: K, group: Seq<u32>, c: u32, i: nat)
    ensures
        crate::iota::rec_for_ctor(k, group, c, i) matches Some(r) ==> group.contains(r),
    decreases group.len() - i,
{
    if i < group.len() {
        lemma_rec_for_ctor(k, group, c, i + 1);
    }
}

proof fn lemma_rec_for_ctors(k: K, group: Seq<u32>, ctors: Seq<u32>, i: nat)
    ensures
        crate::iota::rec_for_ctors(k, group, ctors, i) matches Some(r) ==> group.contains(r),
    decreases ctors.len() - i,
{
    if i < ctors.len() {
        lemma_rec_for_ctor(k, group, ctors[i as int], 0);
        lemma_rec_for_ctors(k, group, ctors, i + 1);
    }
}

/// What follows the class in an eliminator of a quotient stays behind what it
/// computes.
pub proof fn law_quotient_behind(
    k: K,
    s: Sem,
    m: Mode,
    ctx: Seq<Term>,
    head: Term,
    args: Seq<Term>,
    rest: Seq<Term>,
)
    ensures
        quot_spec(k, s, m, ctx, head, args) matches Ok(Some(t)) ==> quot_spec(
            k,
            s,
            m,
            ctx,
            head,
            args + rest,
        ) == Ok::<Option<Term>, Fault>(Some(mk_apps(t, rest))),
{
    reveal(quot_spec);
    match quot_position(k, head) {
        Some(at) => {
            if args.len() > at {
                let all = args + rest;
                assert(all[at as int] == args[at as int]);
                assert(all[3] == args[3]);
                assert(all.skip(at as int + 1) =~= args.skip(at as int + 1) + rest);
                match (s.whnf)(m, ctx, args[at as int]) {
                    Ok(q) => {
                        lemma_apps_append(
                            app1(args[3], spine_args(q)[2]),
                            args.skip(at as int + 1),
                            rest,
                        );
                    },
                    Err(_) => {},
                }
            }
        },
        None => {},
    }
}

/// The position of the argument that an eliminator of a quotient looks at: the
/// lift has the quotient's type and relation, the target, the function and its
/// proof before it, the induction no proof.
pub open spec fn class_at(kind: QuotKind) -> int {
    match kind {
        QuotKind::Lift => 5,
        _ => 4,
    }
}

/// A quotient's lift looks at its sixth argument and its induction at the fifth;
/// both compute only where that reduces to a class, and then apply the fourth
/// argument to the element.
pub proof fn law_quotient(
    k: K,
    s: Sem,
    m: Mode,
    ctx: Seq<Term>,
    n: u32,
    us: Seq<Univ>,
    args: Seq<Term>,
    t: Term,
)
    requires
        quot_spec(k, s, m, ctx, Term::Const(n, us), args) == Ok::<Option<Term>, Fault>(Some(t)),
    ensures
        find(k.env, n) matches Some(Info::Quot { kind, .. }) && (kind is Lift || kind is Ind)
            && class_at(kind) < args.len() && exists|q: Term| #[trigger]
            reduces(s, m, ctx, args[class_at(kind)], q) && (spine_head(q) matches Term::Const(c, _)
                && (find(k.env, c) matches Some(Info::Quot { kind: kc, .. }) && kc is Ctor))
                && spine_args(q).len() >= 3 && t == mk_apps(
                Term::App(Box::new(args[3]), Box::new(spine_args(q)[2])),
                args.skip(class_at(kind) + 1),
            ),
{
    reveal(quot_spec);
    let at = quot_position(k, Term::Const(n, us)).unwrap();
    let q = (s.whnf)(m, ctx, args[at as int])->Ok_0;
    assert(reduces(s, m, ctx, args[at as int], q));
}

proof fn lemma_walk_binders(
    s: Sem,
    m: Mode,
    ctx: Seq<Term>,
    ws: Seq<Term>,
    bs: Seq<Term>,
    target: Term,
    i: nat,
    n: nat,
)
    requires
        field_walk(s, m, ctx, ws, bs, target),
        i <= bs.len(),
        n >= bs.len() - i,
    ensures
        field_binders(s, m, ctx, ws[i as int], bs.take(i as int), n) == Ok::<
            (Seq<Term>, Term),
            Fault,
        >((bs, target)),
    decreases bs.len() - i,
{
    if i < bs.len() {
        assert(ws[i as int] is Pi);
        lemma_walk_binders(s, m, ctx, ws, bs, target, i + 1, (n - 1) as nat);
        assert(bs.take(i as int).push(bs[i as int]) =~= bs.take(i as int + 1));
    } else {
        assert(bs.take(i as int) =~= bs);
    }
}

proof fn lemma_pairs_true(s: Sem, m: Mode, ctx: Seq<Term>, a1: Seq<Term>, a2: Seq<Term>, i: nat)
    requires
        convert_all(s, m, ctx, a1, a2),
    ensures
        pairwise(s, m, ctx, a1, a2, i) == Ok::<bool, Fault>(true),
    decreases a1.len() - i,
{
    if i < a1.len() {
        assert(converts(s, m, ctx, a1[i as int], a2[i as int]));
        lemma_pairs_true(s, m, ctx, a1, a2, i + 1);
    }
}

/// A field of a type of the group, behind whatever binders, at the recursor's own
/// parameters, has a recursive call, where the recursor is on a type that is
/// recursive. The call is made with the recursor of the field's type.
pub proof fn law_recursive_field(
    k: K,
    s: Sem,
    m: Mode,
    ctx: Seq<Term>,
    ra: RecArgsT,
    field: Term,
    ty: Term,
    ws: Seq<Term>,
    bs: Seq<Term>,
    target: Term,
    t: u32,
    ls: Seq<Univ>,
    x: int,
)
    requires
        find(k.env, ra.rname) matches Some(Info::Recursor { all, .. }) && 0 <= x < all.len() && (
        find(k.env, all[x]) matches Some(Info::InductiveType { is_rec, .. }) && is_rec),
        ws[0] == (match (s.whnf)(m, ctx, ty) {
            Ok(w) => w,
            Err(_) => ty,
        }),
        field_walk(s, m, ctx, ws, bs, target),
        bs.len() <= STEP_LIMIT,
        spine_head(target) == Term::Const(t, ls),
        ra.all.contains(t),
        spine_args(target).len() >= ra.params.len(),
        convert_all(
            s,
            m,
            ctx + bs,
            spine_args(target).take(ra.params.len() as int),
            lift_all(ra.params, bs.len() as int),
        ),
        ({
            let rec = match rec_of(k.env, t) {
                Some(r) => r,
                None => ra.rname,
            };
            find(k.env, rec) matches Some(Info::Recursor { num_params, .. }) && num_params
                == ra.params.len()
        }),
    ensures
        field_call(k, s, m, ctx, ra, field, ty) matches Ok(Some(call)) && is_call(
            ra,
            field,
            bs,
            match rec_of(k.env, t) {
                Some(r) => r,
                None => ra.rname,
            },
            spine_args(target).take(ra.params.len() as int),
            spine_args(target).skip(ra.params.len() as int),
            call,
        ),
{
    reveal(field_call);
    reveal(rec_target);
    let none = Seq::<Term>::empty();
    match find(k.env, ra.rname) {
        Some(Info::Recursor { all, .. }) => {
            assert(crate::iota::type_recurses(k, all[x]));
        },
        _ => {},
    }
    assert(bs.take(0) =~= none);
    lemma_walk_binders(s, m, ctx, ws, bs, target, 0, STEP_LIMIT as nat);
    let np = ra.params.len() as int;
    let iargs = spine_args(target);
    lemma_pairs_true(s, m, ctx + bs, iargs.take(np), lift_all(ra.params, bs.len() as int), 0);
    let call = field_call(k, s, m, ctx, ra, field, ty)->Ok_0.unwrap();
    law_recursive_call(k, s, m, ctx, ra, field, ty, call);
    let by = bs.len() as int;
    let rec = match rec_of(k.env, t) {
        Some(r) => r,
        None => ra.rname,
    };
    let h = Term::Const(rec, ra.us);
    let ms = lift_all(ra.motives, by);
    let ns = lift_all(ra.minors, by);
    let f = app_bvars(lift(field, by, 0), bs.len());
    let rps = iargs.take(np);
    let ixs = iargs.skip(np);
    let args = rps + ms + ns + ixs + seq![f];
    lemma_apps_append(h, rps, ms);
    lemma_apps_append(h, rps + ms, ns);
    lemma_apps_append(h, rps + ms + ns, ixs);
    assert(args.drop_last() =~= rps + ms + ns + ixs);
    assert(args.last() == f);
    let e = mk_apps(h, args);
    assert(e == app1(mk_apps(h, rps + ms + ns + ixs), f));
    law_apps(h, args);
    lemma_lam_body(bs, e);
}

/// The innermost variables, the outermost first.
pub proof fn law_applied_to_variables(f: Term, n: nat)
    ensures
        app_bvars(f, n) == mk_apps(f, Seq::new(n, |i: int| Term::BVar((n - 1 - i) as u32))),
    decreases n,
{
    if n > 0 {
        let x = Term::BVar((n - 1) as u32);
        law_applied_to_variables(app1(f, x), (n - 1) as nat);
        let rest = Seq::new((n - 1) as nat, |i: int| Term::BVar(((n - 1) - 1 - i) as u32));
        let all = Seq::new(n, |i: int| Term::BVar((n - 1 - i) as u32));
        assert(seq![x].drop_last() =~= Seq::<Term>::empty());
        reveal_with_fuel(mk_apps, 2);
        assert(mk_apps(f, seq![x]) == app1(f, x));
        lemma_apps_append(f, seq![x], rest);
        assert(seq![x] + rest =~= all);
    } else {
        assert(Seq::new(0, |i: int| Term::BVar((0 - 1 - i) as u32)) =~= Seq::<Term>::empty());
    }
}

/// One step of reduction: a local definition with its value put in, at the head or
/// as the whole term; a function applied to arguments, as many of which are put in
/// as it has binders for; a projection of a constructor's field, or of the bytes of
/// a string literal; or what a constant computes on its arguments.
pub open spec fn steps_to(k: K, s: Sem, m: Mode, ctx: Seq<Term>, a: Term, b: Term) -> bool {
    let h = spine_head(a);
    let args = spine_args(a);
    ||| (h matches Term::Let(_, v, body) && exists|n: nat|
        b == mk_apps(#[trigger] zeta(plug1(*body, *v), n), args))
    ||| (h matches Term::Lam(_, _, _) && exists|n: nat| #[trigger]
        is_lam_nest(h, n) && 0 < n <= args.len() && b == mk_apps(
            plug(lam_body(h, n), args.take(n as int).reverse(), 0),
            args.skip(n as int),
        ))
    ||| (h matches Term::Proj(sname, i, v) && exists|w: Term| #[trigger]
        looks_into(k, s, m, ctx, *v, w) && ((spine_head(w) matches Term::Const(c, _) && (find(
            k.env,
            c,
        ) matches Some(Info::Constructor { num_params, induct, .. }) && induct == sname
            && num_params + i < spine_args(w).len() && b == mk_apps(
            spine_args(w)[num_params + i],
            args,
        ))) || (w matches Term::Lit(LitT::Str(_)) && i == 0)))
    ||| (h is Const && args.len() > 0 && extension_spec(k, s, m, ctx, h, args) == Ok::<
        Option<Term>,
        Fault,
    >(Some(b)))
}

/// The term has as many leading abstractions.
pub open spec fn is_lam_nest(t: Term, n: nat) -> bool
    decreases n,
{
    n == 0 || (t matches Term::Lam(_, _, b) && is_lam_nest(*b, (n - 1) as nat))
}

/// What a projection looks into: the head normal form of its value, with a
/// definition at its head unfolded once more.
pub open spec fn looks_into(k: K, s: Sem, m: Mode, ctx: Seq<Term>, v: Term, w: Term) -> bool {
    reduces(s, m, ctx, v, w) || exists|u: Term|
        #![trigger reduces(s, m, ctx, v, u)]
        reduces(s, m, ctx, v, u) && unfolds(k, s, m, ctx, u, w)
}

proof fn lemma_lam_count(t: Term, n: nat)
    ensures
        lam_count(t, n) <= n,
        is_lam_nest(t, lam_count(t, n)),
        lam_count(t, n) < n ==> !is_lam_nest(t, (lam_count(t, n) + 1) as nat),
        n > 0 && t is Lam ==> lam_count(t, n) > 0,
    decreases n,
{
    if n > 0 {
        match t {
            Term::Lam(_, _, b) => lemma_lam_count(*b, (n - 1) as nat),
            _ => {},
        }
    }
}

proof fn lemma_proj_once(
    k: K,
    s: Sem,
    m: Mode,
    ctx: Seq<Term>,
    cur: Term,
    sname: u32,
    idx: u32,
    v: Term,
    args: Seq<Term>,
    t: Term,
)
    requires
        proj_once(k, s, m, ctx, cur, sname, idx, v, args) == Ok::<Step<Term>, Fault>(
            Step::Next(t),
        ),
    ensures
        exists|w: Term| #[trigger]
            looks_into(k, s, m, ctx, v, w) && ((spine_head(w) matches Term::Const(c, _) && (find(
                k.env,
                c,
            ) matches Some(Info::Constructor { num_params, induct, .. }) && induct == sname
                && num_params + idx < spine_args(w).len() && t == mk_apps(
                spine_args(w)[num_params + idx],
                args,
            ))) || (w matches Term::Lit(LitT::Str(_)) && idx == 0)),
{
    let h = (s.whnf)(m, ctx, v)->Ok_0;
    assert(reduces(s, m, ctx, v, h));
    let w = proj_value(k, s, m, ctx, v)->Ok_0;
    assert(looks_into(k, s, m, ctx, v, w));
}

/// Every step of core reduction is one of the steps.
pub proof fn law_steps(k: K, s: Sem, m: Mode, ctx: Seq<Term>, a: Term, b: Term)
    requires
        core_once(k, s, m, ctx, a) == Ok::<Step<Term>, Fault>(Step::Next(b)),
    ensures
        steps_to(k, s, m, ctx, a, b),
{
    reveal(core_once);
    crate::expr::law_spine(a);
    let h = spine_head(a);
    let args = spine_args(a);
    match a {
        Term::App(_, _) => match h {
            Term::Let(_, v, body) => {
                assert(b == mk_apps(zeta(plug1(*body, *v), (STEP_LIMIT - 1) as nat), args));
            },
            Term::Lam(_, _, _) => {
                let n = lam_count(h, args.len());
                lemma_lam_count(h, args.len());
                assert(args.len() > 0);
                assert(is_lam_nest(h, n));
            },
            Term::Proj(sname, i, v) => {
                lemma_proj_once(k, s, m, ctx, a, sname, i, *v, args, b);
            },
            _ => {},
        },
        Term::Let(_, v, body) => {
            assert(args.len() == 0);
            assert(zeta(plug1(*body, *v), 0) == plug1(*body, *v));
            assert(b == mk_apps(zeta(plug1(*body, *v), 0), args));
        },
        Term::Proj(sname, i, v) => {
            assert(args =~= Seq::<Term>::empty());
            lemma_proj_once(k, s, m, ctx, a, sname, i, *v, args, b);
        },
        _ => {},
    }
}

/// Each term of the path comes to the next by one step.
pub open spec fn step_path(k: K, s: Sem, m: Mode, ctx: Seq<Term>, p: Seq<Term>) -> bool {
    forall|i: int| 0 <= i < p.len() - 1 ==> steps_to(k, s, m, ctx, #[trigger] p[i], p[i + 1])
}

proof fn lemma_core_loop(
    k: K,
    s: Sem,
    m: Mode,
    ctx: Seq<Term>,
    e: Term,
    n: nat,
    p: Seq<Term>,
    t: Term,
)
    requires
        core_loop(k, s, m, ctx, e, n) == Ok::<Term, Fault>(t),
        p.len() > 0,
        p.last() == e,
        step_path(k, s, m, ctx, p),
    ensures
        exists|q: Seq<Term>|
            q.len() > 0 && q[0] == p[0] && #[trigger] step_path(k, s, m, ctx, q) && core_once(
                k,
                s,
                m,
                ctx,
                q.last(),
            ) == Ok::<Step<Term>, Fault>(Step::Done(t)),
    decreases n,
{
    match core_once(k, s, m, ctx, e) {
        Ok(Step::Done(_)) => {
            assert(step_path(k, s, m, ctx, p));
        },
        Ok(Step::Next(b)) => {
            law_steps(k, s, m, ctx, e, b);
            let q = p.push(b);
            assert forall|i: int| 0 <= i < q.len() - 1 implies steps_to(
                k,
                s,
                m,
                ctx,
                #[trigger] q[i],
                q[i + 1],
            ) by {
                if i < p.len() - 1 {
                    assert(steps_to(k, s, m, ctx, p[i], p[i + 1]));
                }
            }
            lemma_core_loop(k, s, m, ctx, b, (n - 1) as nat, q, t);
        },
        Err(_) => {},
    }
}

/// What is left when no step applies: the term itself, or a projection, with what it
/// is applied to, of the value that it looks into.
pub proof fn law_stuck(k: K, s: Sem, m: Mode, ctx: Seq<Term>, e: Term, t: Term)
    requires
        core_once(k, s, m, ctx, e) == Ok::<Step<Term>, Fault>(Step::Done(t)),
    ensures
        !(e is Let),
        !(e is App && (spine_head(e) is Lam || spine_head(e) is Let)),
        t == e || (spine_head(e) matches Term::Proj(sname, i, v) && exists|w: Term| #[trigger]
            looks_into(k, s, m, ctx, *v, w) && t == mk_apps(
                Term::Proj(sname, i, Box::new(w)),
                spine_args(e),
            )),
        e is App && spine_head(e) is Const ==> extension_spec(
            k,
            s,
            m,
            ctx,
            spine_head(e),
            spine_args(e),
        ) == Ok::<Option<Term>, Fault>(None),
{
    reveal(core_once);
    match spine_head(e) {
        Term::Proj(_, _, v) => {
            let h = (s.whnf)(m, ctx, *v)->Ok_0;
            assert(reduces(s, m, ctx, *v, h));
            let w = proj_value(k, s, m, ctx, *v)->Ok_0;
            assert(looks_into(k, s, m, ctx, *v, w));
            if !(e is App) {
                assert(spine_args(e) =~= Seq::<Term>::empty());
            }
        },
        _ => {},
    }
}

/// Core reduction goes from the term, with its leading local definitions put in, by
/// single steps to a term at which no step applies.
pub proof fn law_core_reduction(k: K, s: Sem, m: Mode, ctx: Seq<Term>, e: Term, t: Term)
    requires
        core_step(k, s, m, ctx, e) == Ok::<Term, Fault>(t),
    ensures
        exists|q: Seq<Term>|
            q.len() > 0 && q[0] == cheap_zeta_spec(e) && #[trigger] step_path(k, s, m, ctx, q)
                && core_once(k, s, m, ctx, q.last()) == Ok::<Step<Term>, Fault>(Step::Done(t)),
{
    reveal(core_step);
    let z = cheap_zeta_spec(e);
    assert(step_path(k, s, m, ctx, seq![z]));
    lemma_core_loop(k, s, m, ctx, z, REDUCTION_LIMIT as nat, seq![z], t);
}

/// Putting in leading local definitions: a term that is none stays, and one that is
/// becomes its body with the value put in, and so on.
pub proof fn law_leading_definitions(e: Term, ty: Term, v: Term, b: Term, n: nat)
    ensures
        !(e is Let) ==> zeta(e, n) == e && cheap_zeta_spec(e) == e,
        zeta(Term::Let(Box::new(ty), Box::new(v), Box::new(b)), n + 1) == zeta(plug1(b, v), n),
{
}

/// The head of the first term is a definition in sight, and the second is its value
/// at the same levels, applied to the same arguments.
pub open spec fn replaces_head(k: K, a: Term, b: Term) -> bool {
    spine_head(a) matches Term::Const(c, us) && k.declaring != Some(c) && (find(
        k.env,
        c,
    ) matches Some(Info::Def { level_params, value, .. }) && b == mk_apps(
        subst_params(value, level_params, us),
        spine_args(a),
    ))
}

/// Core reduction and unfolding of the head take turns along the path.
pub open spec fn turns(k: K, s: Sem, m: Mode, ctx: Seq<Term>, es: Seq<Term>, cs: Seq<Term>) -> bool {
    &&& es.len() == cs.len()
    &&& es.len() > 0
    &&& forall|i: int|
        0 <= i < es.len() ==> (s.core)(m, ctx, #[trigger] es[i]) == Ok::<Term, Fault>(cs[i])
    &&& forall|i: int| 0 <= i < es.len() - 1 ==> replaces_head(k, #[trigger] cs[i], es[i + 1])
}

proof fn lemma_whnf_loop(
    k: K,
    s: Sem,
    m: Mode,
    ctx: Seq<Term>,
    e: Term,
    n: nat,
    t: Term,
)
    requires
        whnf_loop(k, s, m, ctx, e, n) == Ok::<Term, Fault>(t),
    ensures
        exists|es: Seq<Term>, cs: Seq<Term>| #[trigger]
            turns(k, s, m, ctx, es, cs) && es[0] == e && cs.last() == t && (forall|u: Term|
                replaces_head(k, t, u) ==> u == es.last()),
    decreases n,
{
    let c = (s.core)(m, ctx, e)->Ok_0;
    let one = seq![e];
    let one_c = seq![c];
    assert(turns(k, s, m, ctx, one, one_c));
    match spine_head(c) {
        Term::Const(h, us) => {
            if eager_unfolds(k, h) {
                match unfold_delta_spec(k, h, us, true) {
                    None => {},
                    Some(u) => {
                        let next = mk_apps(u, spine_args(c));
                        if next != e {
                            lemma_whnf_loop(k, s, m, ctx, next, (n - 1) as nat, t);
                            let (es, cs) = choose|es: Seq<Term>, cs: Seq<Term>| #[trigger]
                                turns(k, s, m, ctx, es, cs) && es[0] == next && cs.last() == t && (
                                forall|u2: Term| replaces_head(k, t, u2) ==> u2 == es.last());
                            let es2 = one + es;
                            let cs2 = one_c + cs;
                            assert forall|i: int| 0 <= i < es2.len() implies (s.core)(
                                m,
                                ctx,
                                #[trigger] es2[i],
                            ) == Ok::<Term, Fault>(cs2[i]) by {
                                if i > 0 {
                                    assert(es2[i] == es[i - 1]);
                                }
                            }
                            assert forall|i: int| 0 <= i < es2.len() - 1 implies replaces_head(
                                k,
                                #[trigger] cs2[i],
                                es2[i + 1],
                            ) by {
                                if i > 0 {
                                    assert(cs2[i] == cs[i - 1]);
                                    assert(es2[i + 1] == es[i]);
                                }
                            }
                            assert(turns(k, s, m, ctx, es2, cs2));
                        }
                    },
                }
            }
        },
        _ => {},
    }
}

/// A head normal form is reached by core reduction and unfolding of definitions at
/// the head in turn, and has no definition left at its head, unless unfolding it
/// gives back the term that it was just reduced from.
pub proof fn law_head_normal_form(k: K, s: Sem, m: Mode, ctx: Seq<Term>, e: Term, t: Term)
    requires
        whnf_step(k, s, m, ctx, e) == Ok::<Term, Fault>(t),
    ensures
        exists|es: Seq<Term>, cs: Seq<Term>| #[trigger]
            turns(k, s, m, ctx, es, cs) && es[0] == e && cs.last() == t && (forall|u: Term|
                replaces_head(k, t, u) ==> u == es.last()),
{
    reveal(whnf_step);
    lemma_whnf_loop(k, s, m, ctx, e, REDUCTION_LIMIT as nat, t);
}

/// A function with as many binders as it is given arguments, or more arguments and
/// no further binder, takes them all at once: the body has the arguments put in,
/// the last one for the innermost variable.
pub proof fn law_beta_many(k: K, s: Sem, m: Mode, ctx: Seq<Term>, tys: Seq<Term>, body: Term, args: Seq<Term>)
    requires
        0 < tys.len() <= args.len(),
        !(body is Lam) || tys.len() == args.len(),
    ensures
        core_once(k, s, m, ctx, mk_apps(wrap_lams(tys, body), args)) == Ok::<Step<Term>, Fault>(
            Step::Next(
                mk_apps(
                    plug(body, args.take(tys.len() as int).reverse(), 0),
                    args.skip(tys.len() as int),
                ),
            ),
        ),
{
    reveal(core_once);
    let f = wrap_lams(tys, body);
    lemma_wrap_lams(tys, body);
    law_apps(f, args);
    lemma_lam_body(tys, body);
    lemma_lam_count(f, args.len());
    lemma_nest_exact(f, tys.len(), lam_count(f, args.len()));
    assert(mk_apps(f, args) is App);
}

proof fn lemma_wrap_lams(tys: Seq<Term>, body: Term)
    ensures
        is_lam_nest(wrap_lams(tys, body), tys.len()),
        tys.len() > 0 ==> wrap_lams(tys, body) is Lam,
    decreases tys.len(),
{
    if tys.len() > 0 {
        let inner = Term::Lam(BinderInfo::Default, Box::new(tys.last()), Box::new(body));
        lemma_wrap_lams(tys.drop_last(), inner);
        lemma_lam_body(tys.drop_last(), inner);
        lemma_nest_more(wrap_lams(tys.drop_last(), inner), (tys.len() - 1) as nat);
        if tys.len() == 1 {
            assert(tys.drop_last() =~= Seq::<Term>::empty());
        }
    }
}

proof fn lemma_nest_more(t: Term, n: nat)
    requires
        is_lam_nest(t, n),
        lam_body(t, n) is Lam,
    ensures
        is_lam_nest(t, n + 1),
    decreases n,
{
    if n > 0 {
        match t {
            Term::Lam(_, _, b) => lemma_nest_more(*b, (n - 1) as nat),
            _ => {},
        }
    } else {
        reveal_with_fuel(is_lam_nest, 2);
    }
}

proof fn lemma_nest_less(t: Term, n: nat, i: nat)
    requires
        is_lam_nest(t, n),
        i < n,
    ensures
        is_lam_nest(t, i + 1),
        lam_body(t, i) is Lam,
    decreases i,
{
    match t {
        Term::Lam(_, _, b) => {
            if i > 0 {
                lemma_nest_less(*b, (n - 1) as nat, (i - 1) as nat);
            } else {
                reveal_with_fuel(is_lam_nest, 2);
            }
        },
        _ => {},
    }
}

proof fn lemma_nest_exact(t: Term, n: nat, c: nat)
    requires
        is_lam_nest(t, n),
        is_lam_nest(t, c),
    ensures
        c > n ==> lam_body(t, n) is Lam,
        c < n ==> is_lam_nest(t, c + 1),
{
    if c > n {
        lemma_nest_less(t, c, n);
    } else if c < n {
        lemma_nest_less(t, n, c);
    }
}

/// A conditional whose decision reduces to a shown one is the branch decided for,
/// with whatever stands behind it; one that hands on the decision applies the branch
/// to the proof that the decision holds.
pub proof fn law_conditional(
    k: K,
    s: Sem,
    m: Mode,
    ctx: Seq<Term>,
    c: u32,
    head: Term,
    args: Seq<Term>,
    d: u32,
    us: Seq<Univ>,
    proofs: Seq<Term>,
)
    requires
        head matches Term::Const(n, _) && n == c,
        args.len() >= 5,
        proofs.len() > 0,
        reduces(s, m, ctx, args[2], mk_apps(Term::Const(d, us), proofs)),
    ensures
        ({
            let r = dite_spec(k, s, m, ctx, head, args);
            let rest = args.skip(5);
            let proved = proofs.last();
            let yes = name_of(k, d) == "Decidable.isTrue"@ || name_of(k, d) == "isTrue"@;
            let no = name_of(k, d) == "Decidable.isFalse"@ || name_of(k, d) == "isFalse"@;
            &&& name_of(k, c) == "ite"@ && yes ==> r == Ok::<Option<Term>, Fault>(
                Some(mk_apps(args[3], rest)),
            )
            &&& name_of(k, c) == "ite"@ && no ==> r == Ok::<Option<Term>, Fault>(
                Some(mk_apps(args[4], rest)),
            )
            &&& name_of(k, c) == "dite"@ && yes ==> r == Ok::<Option<Term>, Fault>(
                Some(mk_apps(Term::App(Box::new(args[3]), Box::new(proved)), rest)),
            )
            &&& name_of(k, c) == "dite"@ && no ==> r == Ok::<Option<Term>, Fault>(
                Some(mk_apps(Term::App(Box::new(args[4]), Box::new(proved)), rest)),
            )
        }),
{
    reveal(dite_spec);
    reveal_strlit("ite");
    reveal_strlit("dite");
    reveal_strlit("Decidable.isTrue");
    reveal_strlit("Decidable.isFalse");
    reveal_strlit("isTrue");
    reveal_strlit("isFalse");
    law_apps(Term::Const(d, us), proofs);
    let inst = mk_apps(Term::Const(d, us), proofs);
    let name = name_of(k, d);
    assert(spine_args(inst) == proofs);
    assert(head_name(k, inst) == Some(name));
    assert("ite"@.len() == 3 && "dite"@.len() == 4);
    assert("Decidable.isTrue"@.len() == 16 && "Decidable.isFalse"@.len() == 17);
    assert("isTrue"@.len() == 6 && "isFalse"@.len() == 7);
    assert(name == "Decidable.isTrue"@ || name == "isTrue"@ ==> decision(k, inst) == Some(true));
    assert(name == "Decidable.isFalse"@ || name == "isFalse"@ ==> decision(k, inst) == Some(false));
    assert((s.whnf)(m, ctx, args[2]) == Ok::<Term, Fault>(inst));
}

/// The term is the list of the bytes from a position on.
pub open spec fn is_byte_list(k: K, t: Term, bytes: Seq<u8>, i: int) -> bool
    decreases bytes.len() - i,
{
    if i >= bytes.len() {
        headed_by(k, t, "List.nil"@)
    } else {
        let args = spine_args(t);
        &&& headed_by(k, t, "List.cons"@)
        &&& args.len() == 3
        &&& spine_args(args[1]).len() <= 1
        &&& (args[1] == nat_lit(bytes[i] as nat) || headed_by(k, args[1], "UInt8.ofNat"@)
            && spine_args(args[1]).last() == nat_lit(bytes[i] as nat))
        &&& is_byte_list(k, args[2], bytes, i + 1)
    }
}

proof fn lemma_byte_list(k: K, nil: u32, cons: u32, ty: Term, bytes: Seq<u8>, i: nat)
    requires
        find_name_spec(k, "List.nil"@) == Some(nil),
        find_name_spec(k, "List.cons"@) == Some(cons),
    ensures
        is_byte_list(k, bytes_list(k, nil, cons, ty, bytes, i), bytes, i as int),
    decreases bytes.len() - i,
{
    reveal_with_fuel(spine_head, 4);
    reveal_with_fuel(spine_args, 4);
    reveal_strlit("List.nil");
    reveal_strlit("List.cons");
    reveal_strlit("UInt8.ofNat");
    lemma_found(k, "List.nil"@, 0);
    lemma_found(k, "List.cons"@, 0);
    lemma_found(k, "UInt8.ofNat"@, 0);
    if i < bytes.len() {
        lemma_byte_list(k, nil, cons, ty, bytes, i + 1);
        let t = bytes_list(k, nil, cons, ty, bytes, i);
        let b = byte_term(k, bytes[i as int]);
        let rest = bytes_list(k, nil, cons, ty, bytes, i + 1);
        assert(spine_args(t) =~= seq![ty, b, rest]);
        assert(spine_args(b).len() <= 1);
    }
}

/// The field of a string literal is the array of the bytes of its encoding.
pub proof fn law_string_field(k: K, sname: u32, text: Seq<char>, t: Term)
    requires
        name_of(k, sname) == "String"@,
        proj_field(k, sname, 0, Term::Lit(LitT::Str(text))) == Some(t),
    ensures
        headed_by(k, t, "ByteArray.mk"@),
        spine_args(t).len() == 1,
        headed_by(k, spine_args(t)[0], "Array.mk"@),
        spine_args(spine_args(t)[0]).len() == 2,
        is_byte_list(k, spine_args(spine_args(t)[0])[1], vstd::utf8::encode_utf8(text), 0),
{
    reveal_with_fuel(spine_head, 3);
    reveal_with_fuel(spine_args, 3);
    reveal_strlit("ByteArray.mk");
    reveal_strlit("Array.mk");
    lemma_found(k, "ByteArray.mk"@, 0);
    lemma_found(k, "Array.mk"@, 0);
    let u8_ty = plain(find_name_spec(k, "UInt8"@).unwrap());
    let nil = find_name_spec(k, "List.nil"@).unwrap();
    let cons = find_name_spec(k, "List.cons"@).unwrap();
    let bytes = vstd::utf8::encode_utf8(text);
    lemma_byte_list(k, nil, cons, u8_ty, bytes, 0);
    let list = bytes_list(k, nil, cons, u8_ty, bytes, 0);
    let arr = spine_args(t)[0];
    assert(spine_args(t) =~= seq![arr]);
    assert(spine_args(arr) =~= seq![u8_ty, list]);
}

/// The major premise of a recursor is reduced through core forms: the term ends in
/// the core form of a term that unfolding leads to, and no definition is left to
/// unfold at its head.
pub proof fn law_reduced_major(k: K, s: Sem, m: Mode, ctx: Seq<Term>, e: Term, rec: u32, w: Term)
    requires
        whnf_major_spec(k, s, m, ctx, e, rec) == Ok::<Term, Fault>(w),
    ensures
        exists|n: nat| #[trigger] unfolds_to(k, s, m, ctx, e, unfolds_thm_major(k.env, rec), w, n),
{
    reveal(whnf_major_spec);
    lemma_major(k, s, m, ctx, e, unfolds_thm_major(k.env, rec), REDUCTION_LIMIT as nat, w);
}

/// In as many steps, each the core form of the term with the head unfolded, the
/// term comes to the other. Definitions unfold; theorems do where they may.
pub open spec fn unfolds_to(
    k: K,
    s: Sem,
    m: Mode,
    ctx: Seq<Term>,
    e: Term,
    thm: bool,
    w: Term,
    n: nat,
) -> bool
    decreases n,
{
    exists|c: Term| #[trigger]
        core_form(s, m, ctx, e, c) && (if n == 0 {
            c == w && (spine_head(c) matches Term::Const(h, us) ==> unfold_def_spec(k, h, us)
                is None)
        } else {
            exists|next: Term| #[trigger]
                unfolded_head(k, c, thm, next) && unfolds_to(
                    k,
                    s,
                    m,
                    ctx,
                    next,
                    thm,
                    w,
                    (n - 1) as nat,
                )
        })
}

/// The term has the core form.
pub open spec fn core_form(s: Sem, m: Mode, ctx: Seq<Term>, e: Term, c: Term) -> bool {
    (s.core)(m, ctx, e) == Ok::<Term, Fault>(c)
}

/// The constant at the head is replaced by the definition's value, its arguments
/// left in place; a theorem's value takes them, where it then shows a constructor.
pub open spec fn unfolded_head(k: K, c: Term, thm: bool, next: Term) -> bool {
    spine_head(c) matches Term::Const(h, us) && (match unfold_def_spec(k, h, us) {
        Some(u) => next == mk_apps(u, spine_args(c)),
        None => thm && (unfold_delta_spec(k, h, us, true) matches Some(u) && next == beta_seq(
            u,
            spine_args(c),
            0,
        ) && ctor_headed(k.env, next)),
    })
}

proof fn lemma_major(
    k: K,
    s: Sem,
    m: Mode,
    ctx: Seq<Term>,
    e: Term,
    thm: bool,
    n: nat,
    w: Term,
)
    requires
        major_loop(k, s, m, ctx, e, thm, n) == Ok::<Term, Fault>(w),
    ensures
        exists|i: nat| #[trigger] unfolds_to(k, s, m, ctx, e, thm, w, i),
    decreases n,
{
    let c = (s.core)(m, ctx, e)->Ok_0;
    assert(core_form(s, m, ctx, e, c));
    let next = match spine_head(c) {
        Term::Const(h, us) => match unfold_def_spec(k, h, us) {
            Some(u) => Some(mk_apps(u, spine_args(c))),
            None => match unfold_delta_spec(k, h, us, true) {
                Some(u) => if thm && ctor_headed(k.env, beta_seq(u, spine_args(c), 0)) {
                    Some(beta_seq(u, spine_args(c), 0))
                } else {
                    None
                },
                None => None,
            },
        },
        _ => None,
    };
    match next {
        Some(t) => {
            assert(unfolded_head(k, c, thm, t));
            lemma_major(k, s, m, ctx, t, thm, (n - 1) as nat, w);
            let i = choose|i: nat| #[trigger] unfolds_to(k, s, m, ctx, t, thm, w, i);
            assert(((i + 1) - 1) as nat == i);
            assert(unfolds_to(k, s, m, ctx, e, thm, w, i + 1));
        },
        None => {
            assert(unfolds_to(k, s, m, ctx, e, thm, w, 0));
        },
    }
}

} // verus!
