//! Type inference and the recognition of propositions.

use crate::ctx::{local_ty, local_type, Ctx};
use crate::env::{find, info_type, ConstantInfo, Info};
use crate::errors::{other, reject, res, Fault, R};
use crate::expr::{
    exprs_between, instantiate1, instantiate_level_params, law_lift_zero, lift, pi, plug, plug1,
    proj, rec_expr_eq, shift, sort, spine_args, spine_head, subst_params, unfold_apps, uses_bvar,
    Expr, ExprData, Lit, LitT, Term,
};
use crate::judge::sem_at;
use crate::kernel::{infer_only_mode, Budget, Checker, K, Mode, Res, Sem};
use crate::level::{imax, is_def_eq, succ, univ_eq, zero, Univ};
use crate::lookup::{
    ends_in_prop, ends_in_prop_after, infer_const_spec, nat_type_spec, string_type_spec,
};
use crate::normal::parts;
use crate::reduce::{apply_type_spec, ensure_pi_spec, ensure_sort_spec};
use crate::report::argument_text;
use vstd::prelude::*;

verus! {

/// The indices at which a term projects out of `v`, behind those collected. Below
/// a binder `v` is lifted over it.
pub open spec fn proj_indices(e: Term, sname: u32, v: Term, acc: Seq<u32>) -> Seq<u32>
    decreases e,
{
    match e {
        Term::Proj(s, i, inner) => if s == sname && *inner == v {
            acc.push(i)
        } else {
            proj_indices(*inner, sname, v, acc)
        },
        Term::App(f, a) => proj_indices(*a, sname, v, proj_indices(*f, sname, v, acc)),
        Term::Lam(_, t, b) => proj_indices(
            *b,
            sname,
            lift(v, 1, 0),
            proj_indices(*t, sname, v, acc),
        ),
        Term::Pi(_, t, b) => proj_indices(
            *b,
            sname,
            lift(v, 1, 0),
            proj_indices(*t, sname, v, acc),
        ),
        Term::Let(t, w, b) => proj_indices(
            *b,
            sname,
            lift(v, 1, 0),
            proj_indices(*w, sname, v, proj_indices(*t, sname, v, acc)),
        ),
        _ => acc,
    }
}

/// The indices at which the terms from position `i` on project out of `v`.
pub open spec fn all_proj_indices(es: Seq<Term>, sname: u32, v: Term, acc: Seq<u32>, i: nat) -> Seq<
    u32,
>
    decreases es.len() - i,
{
    if i >= es.len() {
        acc
    } else {
        all_proj_indices(es, sname, v, proj_indices(es[i as int], sname, v, acc), i + 1)
    }
}

/// The types of the fields of a structure value, from field `i` on, behind those
/// collected. Earlier fields stand in later types as projections of the value.
pub open spec fn field_types(
    k: K,
    s: Sem,
    m: Mode,
    ctx: Seq<Term>,
    t: Term,
    sname: u32,
    v: Term,
    i: u32,
    n: u32,
    acc: Seq<Term>,
) -> Res<Seq<Term>>
    decreases n - i,
{
    if i >= n {
        Ok(acc)
    } else {
        match ensure_pi_spec(k, s, m, ctx, t) {
            Err(f) => Err(f),
            Ok((_, dom, body)) => field_types(
                k,
                s,
                m,
                ctx,
                plug1(body, Term::Proj(sname, i, Box::new(v))),
                sname,
                v,
                (i + 1) as u32,
                n,
                acc.push(dom),
            ),
        }
    }
}

/// The first field that holds data and that some field's type depends on, among
/// the given indices from position `i` on.
pub open spec fn data_bound(
    s: Sem,
    m: Mode,
    ctx: Seq<Term>,
    doms: Seq<Term>,
    js: Seq<u32>,
    i: nat,
    best: Option<u32>,
) -> Res<Option<u32>>
    decreases js.len() - i,
{
    if i >= js.len() {
        Ok(best)
    } else {
        let j = js[i as int];
        if j < doms.len() {
            match (s.is_prop)(m, ctx, doms[j as int]) {
                Err(f) => Err(f),
                Ok(p) => {
                    let better = match best {
                        None => true,
                        Some(b) => j < b,
                    };
                    data_bound(
                        s,
                        m,
                        ctx,
                        doms,
                        js,
                        i + 1,
                        if !p && better {
                            Some(j)
                        } else {
                            best
                        },
                    )
                },
            }
        } else {
            data_bound(s, m, ctx, doms, js, i + 1, best)
        }
    }
}

/// Whether a field of a proposition may be projected: it is a proof itself, and
/// does not come after a field of data that some type depends on.
pub open spec fn prop_projection(
    s: Sem,
    m: Mode,
    ctx: Seq<Term>,
    doms: Seq<Term>,
    sname: u32,
    v: Term,
    idx: u32,
) -> Res<()> {
    match (s.is_prop)(m, ctx, doms[idx as int]) {
        Err(f) => Err(f),
        Ok(false) => Err(Fault::Reject("cannot project a Type field from a Prop structure"@)),
        Ok(true) => match data_bound(
            s,
            m,
            ctx,
            doms,
            all_proj_indices(doms, sname, v, Seq::empty(), 0),
            0,
            None,
        ) {
            Err(f) => Err(f),
            Ok(Some(b)) => if idx >= b {
                Err(
                    Fault::Reject(
                        "cannot project a Prop field that comes after a dependent data field"@,
                    ),
                )
            } else {
                Ok(())
            },
            Ok(None) => Ok(()),
        },
    }
}

/// The structure that a projection is out of: its parameter count and its
/// constructor.
pub open spec fn proj_structure(k: K, n: u32) -> Option<(u32, u32)> {
    match find(k.env, n) {
        Some(Info::InductiveType { num_params, ctors, .. }) => if ctors.len() == 1 {
            Some((num_params, ctors[0]))
        } else {
            None
        },
        _ => None,
    }
}

/// The type of a projection.
#[verifier::opaque]
pub open spec fn infer_proj_spec(
    k: K,
    s: Sem,
    m: Mode,
    ctx: Seq<Term>,
    sname: u32,
    idx: u32,
    v: Term,
) -> Res<Term> {
    match (s.infer)(m, ctx, v) {
        Err(f) => Err(f),
        Ok(vt) => match (s.whnf)(m, ctx, vt) {
            Err(f) => Err(f),
            Ok(vtw) => match spine_head(vtw) {
                Term::Const(ind, us) => if ind != sname {
                    Err(Fault::Reject("projection struct name mismatch"@))
                } else {
                    match proj_structure(k, ind) {
                        None => Err(
                            Fault::Reject("projection: not a single-constructor inductive"@),
                        ),
                        Some((num_params, ctor)) => match find(k.env, ctor) {
                            Some(
                                Info::Constructor { level_params, typ, num_fields, .. },
                            ) => infer_field(
                                k,
                                s,
                                m,
                                ctx,
                                sname,
                                idx,
                                v,
                                vtw,
                                subst_params(typ, level_params, us),
                                num_params,
                                num_fields,
                            ),
                            _ => Err(Fault::Reject("projection: bad constructor"@)),
                        },
                    }
                },
                _ => Err(Fault::Reject("projection of non-inductive value"@)),
            },
        },
    }
}

/// The type of a field, given the type of the value and of the constructor.
#[verifier::opaque]
pub open spec fn infer_field(
    k: K,
    s: Sem,
    m: Mode,
    ctx: Seq<Term>,
    sname: u32,
    idx: u32,
    v: Term,
    vtw: Term,
    ctor_typ: Term,
    num_params: u32,
    num_fields: u32,
) -> Res<Term> {
    let args = spine_args(vtw);
    if idx >= num_fields {
        Err(Fault::Reject("projection index out of range"@))
    } else if args.len() < num_params {
        Err(Fault::Reject("projection: too few params"@))
    } else {
        match apply_type_spec(k, s, m, ctx, ctor_typ, args.take(num_params as int), 0) {
            Err(f) => Err(f),
            Ok(ct) => match field_types(k, s, m, ctx, ct, sname, v, 0, num_fields, Seq::empty()) {
                Err(f) => Err(f),
                Ok(doms) => match (s.is_prop)(m, ctx, vtw) {
                    Err(f) => Err(f),
                    Ok(false) => Ok(doms[idx as int]),
                    Ok(true) => match prop_projection(s, m, ctx, doms, sname, v, idx) {
                        Err(f) => Err(f),
                        Ok(()) => Ok(doms[idx as int]),
                    },
                },
            },
        }
    }
}

/// The type of an application, given that of its function.
pub open spec fn infer_app(
    k: K,
    s: Sem,
    m: Mode,
    ctx: Seq<Term>,
    ft: Term,
    f: Term,
    a: Term,
) -> Res<Term> {
    match ensure_pi_spec(k, s, m, ctx, ft) {
        Err(x) => Err(x),
        Ok((_, dom, body)) => if m.infer_only {
            Ok(plug1(body, a))
        } else {
            match (s.infer)(m, ctx, a) {
                Err(x) => Err(x),
                Ok(at) => match (s.defeq)(m, ctx, at, dom) {
                    Err(x) => Err(x),
                    Ok(false) => Err(Fault::Reject(argument_text(k, s, m, ctx, f, a, at, dom))),
                    Ok(true) => Ok(plug1(body, a)),
                },
            }
        },
    }
}

/// The level of the sort that a type's own type reduces to.
pub open spec fn sort_of(k: K, s: Sem, m: Mode, ctx: Seq<Term>, ty: Term) -> Res<Univ> {
    match (s.infer)(m, ctx, ty) {
        Err(f) => Err(f),
        Ok(tt) => ensure_sort_spec(k, s, m, ctx, tt),
    }
}

/// One judgement of inference by substitution.
#[verifier::opaque]
pub open spec fn infer_eager(k: K, s: Sem, m: Mode, ctx: Seq<Term>, e: Term) -> Res<Term> {
    match e {
        Term::BVar(i) => match local_type(ctx, i) {
            Some(t) => Ok(t),
            None => Err(Fault::Other("bvar out of range"@)),
        },
        Term::Sort(l) => Ok(Term::Sort(Univ::Succ(Box::new(l)))),
        Term::Const(n, us) => infer_const_spec(k, n, us),
        Term::App(f, a) => match (s.infer)(m, ctx, *f) {
            Err(x) => Err(x),
            Ok(ft) => infer_app(k, s, m, ctx, ft, *f, *a),
        },
        Term::Lam(bi, ty, body) => match sort_of(k, s, m, ctx, *ty) {
            Err(x) => Err(x),
            Ok(_) => match (s.infer)(m, ctx.push(*ty), *body) {
                Err(x) => Err(x),
                Ok(bt) => Ok(Term::Pi(bi, ty, Box::new(bt))),
            },
        },
        Term::Pi(_, ty, body) => match sort_of(k, s, m, ctx, *ty) {
            Err(x) => Err(x),
            Ok(s1) => match sort_of(k, s, m, ctx.push(*ty), *body) {
                Err(x) => Err(x),
                Ok(s2) => Ok(Term::Sort(Univ::IMax(Box::new(s1), Box::new(s2)))),
            },
        },
        Term::Let(ty, val, body) => match sort_of(k, s, m, ctx, *ty) {
            Err(x) => Err(x),
            Ok(_) => match (s.infer)(m, ctx, *val) {
                Err(x) => Err(x),
                Ok(vt) => match (s.defeq)(m, ctx, vt, *ty) {
                    Err(x) => Err(x),
                    Ok(false) => Err(Fault::Reject("let value type mismatch"@)),
                    Ok(true) => (s.infer)(m, ctx, plug1(*body, *val)),
                },
            },
        },
        Term::Proj(sname, idx, v) => infer_proj_spec(k, s, m, ctx, sname, idx, *v),
        Term::Lit(LitT::Nat(_)) => nat_type_spec(k),
        Term::Lit(LitT::Str(_)) => string_type_spec(k),
    }
}

/// Whether the type of a type is the sort of propositions; where it cannot be
/// found, it is taken not to be.
pub open spec fn prop_by_infer(k: K, s: Sem, m: Mode, ctx: Seq<Term>, ty: Term) -> bool {
    let q = infer_only_mode(m);
    match sort_of(k, s, q, ctx, ty) {
        Ok(l) => univ_eq(l, Univ::Zero),
        Err(_) => false,
    }
}

/// Whether an applied constant is a proposition.
pub open spec fn const_app_is_prop(k: K, s: Sem, m: Mode, ctx: Seq<Term>, n: u32, w: Term) -> bool {
    let args = spine_args(w);
    match find(k.env, n) {
        None => prop_by_infer(k, s, m, ctx, w),
        Some(i) => {
            ||| (i matches Info::InductiveType { typ, num_params, num_indices, .. } && args.len()
                >= num_params + num_indices && ends_in_prop(typ))
            ||| ends_in_prop_after(info_type(i), args.len())
            ||| prop_by_infer(k, s, m, ctx, w)
        },
    }
}

/// One judgement of whether a type is a proposition.
#[verifier::opaque]
pub open spec fn is_prop_step(k: K, s: Sem, m: Mode, ctx: Seq<Term>, ty: Term) -> Res<bool> {
    match (s.whnf)(m, ctx, ty) {
        Err(_) => Ok(false),
        Ok(w) => match w {
            Term::Sort(_) => Ok(false),
            Term::BVar(i) => match local_type(ctx, i) {
                None => Ok(false),
                Some(t) => match (s.whnf)(m, ctx, t) {
                    Ok(Term::Sort(l)) => Ok(univ_eq(l, Univ::Zero)),
                    _ => Ok(false),
                },
            },
            Term::Pi(_, dom, body) => (s.is_prop)(m, ctx.push(*dom), *body),
            _ => match spine_head(w) {
                Term::Const(n, _) => Ok(const_app_is_prop(k, s, m, ctx, n, w)),
                _ => Ok(prop_by_infer(k, s, m, ctx, w)),
            },
        },
    }
}

/// Collects the indices at which a term projects out of `v`, lifted over the
/// binders in between.
pub fn collect_proj_indices(e: &Expr, sname: u32, v: &Expr, out: &mut Vec<u32>)
    ensures
        final(out)@ == proj_indices(e@, sname, v@, old(out)@),
    decreases e,
{
    match e.data() {
        ExprData::Proj(s, i, inner) => {
            if *s == sname && rec_expr_eq(inner, v) {
                out.push(*i);
            } else {
                collect_proj_indices(inner, sname, v, out);
            }
        },
        ExprData::App(f, a) => {
            collect_proj_indices(f, sname, v, out);
            collect_proj_indices(a, sname, v, out);
        },
        ExprData::Lam(_, t, b) => {
            collect_proj_indices(t, sname, v, out);
            collect_proj_indices(b, sname, &shift(v, 1, 0), out);
        },
        ExprData::Pi(_, t, b) => {
            collect_proj_indices(t, sname, v, out);
            collect_proj_indices(b, sname, &shift(v, 1, 0), out);
        },
        ExprData::Let(t, w, b) => {
            collect_proj_indices(t, sname, v, out);
            collect_proj_indices(w, sname, v, out);
            collect_proj_indices(b, sname, &shift(v, 1, 0), out);
        },
        _ => {},
    }
}

fn collect_all_proj_indices(es: &Vec<Expr>, sname: u32, v: &Expr) -> (r: Vec<u32>)
    ensures
        r@ == all_proj_indices(es.deep_view(), sname, v@, Seq::empty(), 0),
{
    let mut out: Vec<u32> = Vec::new();
    let mut i: usize = 0;
    let ghost ev = es.deep_view();
    assert(out@ =~= Seq::<u32>::empty());
    while i < es.len()
        invariant
            i <= es.len(),
            ev == es.deep_view(),
            all_proj_indices(ev, sname, v@, out@, i as nat) == all_proj_indices(
                ev,
                sname,
                v@,
                Seq::empty(),
                0,
            ),
        decreases es.len() - i,
    {
        collect_proj_indices(&es[i], sname, v, &mut out);
        i = i + 1;
    }
    out
}

impl<'e> Checker<'e> {
    fn infer_field_types(
        &self,
        g: Budget,
        m: Mode,
        ctx: &Ctx,
        t: &Expr,
        sname: u32,
        v: &Expr,
        n: u32,
    ) -> (r: R<Vec<Expr>>)
        ensures
            res(r) == field_types(
                self@,
                sem_at(self@, g),
                m,
                ctx@,
                t@,
                sname,
                v@,
                0,
                n,
                Seq::empty(),
            ),
            r matches Ok(d) ==> d.len() == n,
        decreases g.total(), 3int, 0int,
    {
        let ghost s = sem_at(self@, g);
        let mut doms: Vec<Expr> = Vec::new();
        let mut cur = t.clone();
        let mut i: u32 = 0;
        assert(doms.deep_view() =~= Seq::<Term>::empty());
        while i < n
            invariant
                i <= n,
                doms.len() == i,
                s == sem_at(self@, g),
                field_types(self@, s, m, ctx@, cur@, sname, v@, i, n, doms.deep_view())
                    == field_types(self@, s, m, ctx@, t@, sname, v@, 0, n, Seq::empty()),
            decreases n - i,
        {
            let (_, dom, body) = self.ensure_pi_at(g, m, ctx, &cur)?;
            let ghost before = doms.deep_view();
            doms.push(dom);
            assert(doms.deep_view() =~= before.push(dom@));
            cur = instantiate1(&body, &proj(sname, i, v.clone()));
            i = i + 1;
        }
        Ok(doms)
    }

    fn find_data_bound(&self, g: Budget, m: Mode, ctx: &Ctx, doms: &Vec<Expr>, js: &Vec<u32>) -> (r: R<
        Option<u32>,
    >)
        ensures
            match r {
                Ok(b) => data_bound(
                    sem_at(self@, g),
                    m,
                    ctx@,
                    doms.deep_view(),
                    js@,
                    0,
                    None,
                ) == Ok::<Option<u32>, Fault>(b),
                Err(e) => data_bound(
                    sem_at(self@, g),
                    m,
                    ctx@,
                    doms.deep_view(),
                    js@,
                    0,
                    None,
                ) == Err::<Option<u32>, Fault>(e@),
            },
        decreases g.total(), 1int, 0int,
    {
        let ghost s = sem_at(self@, g);
        let ghost dv = doms.deep_view();
        let mut best: Option<u32> = None;
        let mut i: usize = 0;
        while i < js.len()
            invariant
                i <= js.len(),
                dv == doms.deep_view(),
                s == sem_at(self@, g),
                data_bound(s, m, ctx@, dv, js@, i as nat, best) == data_bound(
                    s,
                    m,
                    ctx@,
                    dv,
                    js@,
                    0,
                    None,
                ),
            decreases js.len() - i,
        {
            let j: u32 = js[i];
            if (j as u64) < (doms.len() as u64) {
                let p = self.is_prop_at(g, m, ctx, &doms[j as usize])?;
                let better = match best {
                    None => true,
                    Some(b) => j < b,
                };
                if !p && better {
                    best = Some(j);
                }
            }
            i = i + 1;
        }
        Ok(best)
    }

    fn check_prop_projection(
        &self,
        g: Budget,
        m: Mode,
        ctx: &Ctx,
        doms: &Vec<Expr>,
        sname: u32,
        v: &Expr,
        idx: u32,
    ) -> (r: R<()>)
        requires
            idx < doms.len(),
        ensures
            res(r) == prop_projection(
                sem_at(self@, g),
                m,
                ctx@,
                doms.deep_view(),
                sname,
                v@,
                idx,
            ),
        decreases g.total(), 2int, 0int,
    {
        if !self.is_prop_at(g, m, ctx, &doms[idx as usize])? {
            return reject("cannot project a Type field from a Prop structure");
        }
        let js = collect_all_proj_indices(doms, sname, v);
        match self.find_data_bound(g, m, ctx, doms, &js)? {
            Some(b) => {
                if idx >= b {
                    return reject(
                        "cannot project a Prop field that comes after a dependent data field",
                    );
                }
                Ok(())
            },
            None => Ok(()),
        }
    }

    fn infer_field_at(
        &self,
        g: Budget,
        m: Mode,
        ctx: &Ctx,
        sname: u32,
        idx: u32,
        v: &Expr,
        vtw: &Expr,
        ctor_typ: &Expr,
        num_params: u32,
        num_fields: u32,
    ) -> (r: R<Expr>)
        ensures
            res(r) == infer_field(
                self@,
                sem_at(self@, g),
                m,
                ctx@,
                sname,
                idx,
                v@,
                vtw@,
                ctor_typ@,
                num_params,
                num_fields,
            ),
        decreases g.total(), 4int, 0int,
    {
        proof {
            reveal(infer_field);
        }
        let (_, args) = unfold_apps(vtw);
        assert(args.len() == args.deep_view().len());
        if idx >= num_fields {
            return reject("projection index out of range");
        }
        if (args.len() as u64) < (num_params as u64) {
            return reject("projection: too few params");
        }
        let params = exprs_between(&args, 0, num_params as usize);
        let ct = self.apply_type(g, m, ctx, ctor_typ, &params)?;
        let doms = self.infer_field_types(g, m, ctx, &ct, sname, v, num_fields)?;
        if self.is_prop_at(g, m, ctx, vtw)? {
            self.check_prop_projection(g, m, ctx, &doms, sname, v, idx)?;
        }
        Ok(doms[idx as usize].clone())
    }

    /// The type of a projection.
    pub fn infer_proj_at(
        &self,
        g: Budget,
        m: Mode,
        ctx: &Ctx,
        sname: u32,
        idx: u32,
        v: &Expr,
    ) -> (r: R<Expr>)
        ensures
            res(r) == infer_proj_spec(self@, sem_at(self@, g), m, ctx@, sname, idx, v@),
        decreases g.total(), 5int, 0int,
    {
        proof {
            reveal(infer_proj_spec);
        }
        let vt = self.infer_at(g, m, ctx, v)?;
        let vtw = self.whnf_at(g, m, ctx, &vt)?;
        let (head, _) = unfold_apps(&vtw);
        match head.data() {
            ExprData::Const(ind, us) => {
                if *ind != sname {
                    return reject("projection struct name mismatch");
                }
                let (num_params, ctor) = match self.env.get(*ind) {
                    Some(ConstantInfo::InductiveType { num_params, ctors, .. }) => {
                        if ctors.len() != 1 {
                            return reject("projection: not a single-constructor inductive");
                        }
                        (*num_params, ctors[0])
                    },
                    _ => {
                        return reject("projection: not a single-constructor inductive");
                    },
                };
                match self.env.get(ctor) {
                    Some(ConstantInfo::Constructor { level_params, typ, num_fields, .. }) => {
                        let ct = instantiate_level_params(typ, level_params, us);
                        self.infer_field_at(
                            g,
                            m,
                            ctx,
                            sname,
                            idx,
                            v,
                            &vtw,
                            &ct,
                            num_params,
                            *num_fields,
                        )
                    },
                    _ => reject("projection: bad constructor"),
                }
            },
            _ => reject("projection of non-inductive value"),
        }
    }

    fn infer_app_at(
        &self,
        g: Budget,
        m: Mode,
        ctx: &Ctx,
        ft: &Expr,
        f: &Expr,
        a: &Expr,
    ) -> (r: R<Expr>)
        ensures
            res(r) == infer_app(self@, sem_at(self@, g), m, ctx@, ft@, f@, a@),
        decreases g.total(), 3int, 0int,
    {
        let (_, dom, body) = self.ensure_pi_at(g, m, ctx, ft)?;
        if !m.infer_only {
            let at = self.infer_at(g, m, ctx, a)?;
            if !self.defeq_at(g, m, ctx, &at, &dom)? {
                return reject(self.argument_message(g, m, ctx, f, a, &at, &dom).as_str());
            }
        }
        Ok(instantiate1(&body, a))
    }

    /// The level of the sort that a type's own type reduces to.
    pub(crate) fn sort_of_at(&self, g: Budget, m: Mode, ctx: &Ctx, ty: &Expr) -> (r: R<
        crate::level::Level,
    >)
        ensures
            res(r) == sort_of(self@, sem_at(self@, g), m, ctx@, ty@),
        decreases g.total(), 3int, 0int,
    {
        let tt = self.infer_at(g, m, ctx, ty)?;
        self.ensure_sort_at(g, m, ctx, &tt)
    }

    pub(crate) fn infer_eager_at(&self, g: Budget, m: Mode, ctx: &Ctx, e: &Expr) -> (r: R<Expr>)
        ensures
            res(r) == infer_eager(self@, sem_at(self@, g), m, ctx@, e@),
        decreases g.total(), 6int, 0int,
    {
        proof {
            reveal(infer_eager);
        }
        match e.data() {
            ExprData::BVar(i) => match local_ty(ctx, *i) {
                Some(t) => Ok(t),
                None => other("bvar out of range"),
            },
            ExprData::Sort(l) => Ok(sort(succ(l.clone()))),
            ExprData::Const(n, us) => self.infer_const(*n, us),
            ExprData::App(f, a) => {
                let ft = self.infer_at(g, m, ctx, f)?;
                self.infer_app_at(g, m, ctx, &ft, f, a)
            },
            ExprData::Lam(bi, ty, body) => {
                self.sort_of_at(g, m, ctx, ty)?;
                let bt = self.infer_at(g, m, &ctx.extended(ty), body)?;
                Ok(pi(*bi, ty.clone(), bt))
            },
            ExprData::Pi(_, ty, body) => {
                let s1 = self.sort_of_at(g, m, ctx, ty)?;
                let s2 = self.sort_of_at(g, m, &ctx.extended(ty), body)?;
                Ok(sort(imax(s1, s2)))
            },
            ExprData::Let(ty, val, body) => {
                self.sort_of_at(g, m, ctx, ty)?;
                let vt = self.infer_at(g, m, ctx, val)?;
                if !self.defeq_at(g, m, ctx, &vt, ty)? {
                    return reject("let value type mismatch");
                }
                self.infer_at(g, m, ctx, &instantiate1(body, val))
            },
            ExprData::Proj(sname, idx, v) => self.infer_proj_at(g, m, ctx, *sname, *idx, v),
            ExprData::Lit(Lit::Nat(_)) => self.nat_type(),
            ExprData::Lit(Lit::Str(_)) => self.string_type(),
        }
    }

    /// Whether the type of a type is the sort of propositions.
    pub fn is_prop_by_infer(&self, g: Budget, m: Mode, ctx: &Ctx, ty: &Expr) -> (r: bool)
        ensures
            r == prop_by_infer(self@, sem_at(self@, g), m, ctx@, ty@),
        decreases g.total(), 4int, 0int,
    {
        match self.sort_of_at(g, m.inferring(), ctx, ty) {
            Ok(l) => is_def_eq(&l, &zero()),
            Err(_) => false,
        }
    }

    fn const_app_is_prop_at(&self, g: Budget, m: Mode, ctx: &Ctx, n: u32, w: &Expr) -> (r: bool)
        ensures
            r == const_app_is_prop(self@, sem_at(self@, g), m, ctx@, n, w@),
        decreases g.total(), 5int, 0int,
    {
        let (_, args) = unfold_apps(w);
        assert(args.len() == args.deep_view().len());
        match self.env.get(n) {
            Some(ci) => {
                match ci {
                    ConstantInfo::InductiveType { typ, num_params, num_indices, .. } => {
                        if args.len() as u64 >= *num_params as u64 + *num_indices as u64
                            && self.sort_codomain_is_prop(typ) {
                            return true;
                        }
                    },
                    _ => {},
                }
                if self.telescope_codomain_is_prop(ci.typ(), args.len()) {
                    return true;
                }
                self.is_prop_by_infer(g, m, ctx, w)
            },
            None => self.is_prop_by_infer(g, m, ctx, w),
        }
    }

    pub(crate) fn is_prop_once(&self, g: Budget, m: Mode, ctx: &Ctx, ty: &Expr) -> (r: R<bool>)
        ensures
            res(r) == is_prop_step(self@, sem_at(self@, g), m, ctx@, ty@),
        decreases g.total(), 6int, 0int,
    {
        proof {
            reveal(is_prop_step);
        }
        let w = match self.whnf_at(g, m, ctx, ty) {
            Ok(w) => w,
            Err(_) => {
                return Ok(false);
            },
        };
        match w.data() {
            ExprData::Sort(_) => Ok(false),
            ExprData::BVar(i) => match local_ty(ctx, *i) {
                None => Ok(false),
                Some(t) => match self.whnf_at(g, m, ctx, &t) {
                    Ok(tw) => match tw.data() {
                        ExprData::Sort(l) => Ok(is_def_eq(l, &zero())),
                        _ => Ok(false),
                    },
                    Err(_) => Ok(false),
                },
            },
            ExprData::Pi(_, dom, body) => self.is_prop_at(g, m, &ctx.extended(dom), body),
            _ => {
                let (head, _) = unfold_apps(&w);
                match head.data() {
                    ExprData::Const(n, _) => Ok(self.const_app_is_prop_at(g, m, ctx, *n, &w)),
                    _ => Ok(self.is_prop_by_infer(g, m, ctx, &w)),
                }
            },
        }
    }
}

/// Whether a term mentions the projection of field `i` of `v`, which is lifted
/// over the binders that it stands below.
pub open spec fn mentions_field(e: Term, sname: u32, i: u32, v: Term) -> bool
    decreases e,
{
    match e {
        Term::Proj(s, j, inner) => (s == sname && j == i && *inner == v) || mentions_field(
            *inner,
            sname,
            i,
            v,
        ),
        Term::App(f, a) => mentions_field(*f, sname, i, v) || mentions_field(*a, sname, i, v),
        Term::Lam(_, t, b) => mentions_field(*t, sname, i, v) || mentions_field(
            *b,
            sname,
            i,
            lift(v, 1, 0),
        ),
        Term::Pi(_, t, b) => mentions_field(*t, sname, i, v) || mentions_field(
            *b,
            sname,
            i,
            lift(v, 1, 0),
        ),
        Term::Let(t, w, b) => mentions_field(*t, sname, i, v) || mentions_field(*w, sname, i, v)
            || mentions_field(*b, sname, i, lift(v, 1, 0)),
        _ => false,
    }
}

proof fn lemma_lift_parts(t: Term, by: int, cut: nat)
    ensures
        parts(lift(t, by, cut)) == parts(t),
    decreases t,
{
    match t {
        Term::App(f, a) => {
            lemma_lift_parts(*f, by, cut);
            lemma_lift_parts(*a, by, cut);
        },
        Term::Lam(_, ty, b) => {
            lemma_lift_parts(*ty, by, cut);
            lemma_lift_parts(*b, by, cut + 1);
        },
        Term::Pi(_, ty, b) => {
            lemma_lift_parts(*ty, by, cut);
            lemma_lift_parts(*b, by, cut + 1);
        },
        Term::Let(ty, w, b) => {
            lemma_lift_parts(*ty, by, cut);
            lemma_lift_parts(*w, by, cut);
            lemma_lift_parts(*b, by, cut + 1);
        },
        Term::Proj(_, _, w) => lemma_lift_parts(*w, by, cut),
        _ => {},
    }
}

proof fn lemma_mention_is_larger(e: Term, sname: u32, i: u32, v: Term)
    requires
        mentions_field(e, sname, i, v),
    ensures
        parts(v) < parts(e),
    decreases e,
{
    lemma_lift_parts(v, 1, 0);
    match e {
        Term::Proj(s, j, inner) => if !(s == sname && j == i && *inner == v) {
            lemma_mention_is_larger(*inner, sname, i, v);
        },
        Term::App(f, a) => if mentions_field(*f, sname, i, v) {
            lemma_mention_is_larger(*f, sname, i, v);
        } else {
            lemma_mention_is_larger(*a, sname, i, v);
        },
        Term::Lam(_, t, b) => if mentions_field(*t, sname, i, v) {
            lemma_mention_is_larger(*t, sname, i, v);
        } else {
            lemma_mention_is_larger(*b, sname, i, lift(v, 1, 0));
        },
        Term::Pi(_, t, b) => if mentions_field(*t, sname, i, v) {
            lemma_mention_is_larger(*t, sname, i, v);
        } else {
            lemma_mention_is_larger(*b, sname, i, lift(v, 1, 0));
        },
        Term::Let(t, w, b) => if mentions_field(*t, sname, i, v) {
            lemma_mention_is_larger(*t, sname, i, v);
        } else if mentions_field(*w, sname, i, v) {
            lemma_mention_is_larger(*w, sname, i, v);
        } else {
            lemma_mention_is_larger(*b, sname, i, lift(v, 1, 0));
        },
        _ => {},
    }
}

/// An index is collected exactly where it was there before, or where the term
/// mentions the projection of that field of the value, lifted over the binders in
/// between.
pub proof fn law_collected_fields(e: Term, sname: u32, i: u32, v: Term, acc: Seq<u32>)
    ensures
        proj_indices(e, sname, v, acc).contains(i) <==> acc.contains(i) || mentions_field(
            e,
            sname,
            i,
            v,
        ),
    decreases e,
{
    match e {
        Term::Proj(s, j, inner) => if s == sname && *inner == v {
            if mentions_field(*inner, sname, i, v) {
                lemma_mention_is_larger(*inner, sname, i, v);
            }
            let r = acc.push(j);
            assert(r[acc.len() as int] == j);
            if acc.contains(i) {
                let x = choose|x: int| 0 <= x < acc.len() && acc[x] == i;
                assert(r[x] == i);
            }
        } else {
            law_collected_fields(*inner, sname, i, v, acc);
        },
        Term::App(f, a) => {
            law_collected_fields(*f, sname, i, v, acc);
            law_collected_fields(*a, sname, i, v, proj_indices(*f, sname, v, acc));
        },
        Term::Lam(_, t, b) => {
            law_collected_fields(*t, sname, i, v, acc);
            law_collected_fields(*b, sname, i, lift(v, 1, 0), proj_indices(*t, sname, v, acc));
        },
        Term::Pi(_, t, b) => {
            law_collected_fields(*t, sname, i, v, acc);
            law_collected_fields(*b, sname, i, lift(v, 1, 0), proj_indices(*t, sname, v, acc));
        },
        Term::Let(t, w, b) => {
            let r1 = proj_indices(*t, sname, v, acc);
            law_collected_fields(*t, sname, i, v, acc);
            law_collected_fields(*w, sname, i, v, r1);
            law_collected_fields(
                *b,
                sname,
                i,
                lift(v, 1, 0),
                proj_indices(*w, sname, v, r1),
            );
        },
        _ => {},
    }
}

proof fn lemma_lift_once_more(t: Term, d: nat, cut: nat)
    ensures
        lift(lift(t, d as int, cut), 1, cut) == lift(t, (d + 1) as int, cut),
    decreases t,
{
    match t {
        Term::App(f, a) => {
            lemma_lift_once_more(*f, d, cut);
            lemma_lift_once_more(*a, d, cut);
        },
        Term::Lam(_, ty, b) => {
            lemma_lift_once_more(*ty, d, cut);
            lemma_lift_once_more(*b, d, cut + 1);
        },
        Term::Pi(_, ty, b) => {
            lemma_lift_once_more(*ty, d, cut);
            lemma_lift_once_more(*b, d, cut + 1);
        },
        Term::Let(ty, w, b) => {
            lemma_lift_once_more(*ty, d, cut);
            lemma_lift_once_more(*w, d, cut);
            lemma_lift_once_more(*b, d, cut + 1);
        },
        Term::Proj(_, _, w) => lemma_lift_once_more(*w, d, cut),
        _ => {},
    }
}

proof fn lemma_plugged_mention(t: Term, sname: u32, i: u32, v: Term, d: nat)
    requires
        uses_bvar(t, d),
    ensures
        mentions_field(
            plug(t, seq![Term::Proj(sname, i, Box::new(v))], d),
            sname,
            i,
            lift(v, d as int, 0),
        ),
    decreases t,
{
    lemma_lift_once_more(v, d, 0);
    match t {
        Term::App(f, a) => if uses_bvar(*f, d) {
            lemma_plugged_mention(*f, sname, i, v, d);
        } else {
            lemma_plugged_mention(*a, sname, i, v, d);
        },
        Term::Lam(_, ty, b) => if uses_bvar(*ty, d) {
            lemma_plugged_mention(*ty, sname, i, v, d);
        } else {
            lemma_plugged_mention(*b, sname, i, v, d + 1);
        },
        Term::Pi(_, ty, b) => if uses_bvar(*ty, d) {
            lemma_plugged_mention(*ty, sname, i, v, d);
        } else {
            lemma_plugged_mention(*b, sname, i, v, d + 1);
        },
        Term::Let(ty, w, b) => if uses_bvar(*ty, d) {
            lemma_plugged_mention(*ty, sname, i, v, d);
        } else if uses_bvar(*w, d) {
            lemma_plugged_mention(*w, sname, i, v, d);
        } else {
            lemma_plugged_mention(*b, sname, i, v, d + 1);
        },
        Term::Proj(_, _, w) => lemma_plugged_mention(*w, sname, i, v, d),
        _ => {},
    }
}

/// A type that uses the variable of an earlier field mentions the projection of
/// that field once it stands for the variable, however deep it is used.
pub proof fn law_used_field_is_mentioned(t: Term, sname: u32, i: u32, v: Term)
    requires
        uses_bvar(t, 0),
    ensures
        mentions_field(plug1(t, Term::Proj(sname, i, Box::new(v))), sname, i, v),
{
    lemma_plugged_mention(t, sname, i, v, 0);
    law_lift_zero(v, 0);
}

/// Whether some of the types mentions the projection of field `i` of `v`.
pub open spec fn some_mentions(doms: Seq<Term>, sname: u32, i: u32, v: Term, from: nat) -> bool {
    exists|x: int| from <= x < doms.len() && mentions_field(#[trigger] doms[x], sname, i, v)
}

proof fn lemma_all_collected(doms: Seq<Term>, sname: u32, i: u32, v: Term, acc: Seq<u32>, n: nat)
    ensures
        all_proj_indices(doms, sname, v, acc, n).contains(i) <==> acc.contains(i) || some_mentions(
            doms,
            sname,
            i,
            v,
            n,
        ),
    decreases doms.len() - n,
{
    if n < doms.len() {
        let acc2 = proj_indices(doms[n as int], sname, v, acc);
        law_collected_fields(doms[n as int], sname, i, v, acc);
        lemma_all_collected(doms, sname, i, v, acc2, n + 1);
        if some_mentions(doms, sname, i, v, n) {
            let x = choose|x: int|
                n <= x < doms.len() && mentions_field(#[trigger] doms[x], sname, i, v);
            assert(x == n || some_mentions(doms, sname, i, v, n + 1));
        }
        if some_mentions(doms, sname, i, v, n + 1) {
            let x = choose|x: int|
                n + 1 <= x < doms.len() && mentions_field(#[trigger] doms[x], sname, i, v);
            assert(mentions_field(doms[x], sname, i, v));
        }
        if mentions_field(doms[n as int], sname, i, v) {
            assert(some_mentions(doms, sname, i, v, n));
        }
    }
}

/// Whether field `j` holds data, as far as its type says.
pub open spec fn is_data_field(s: Sem, m: Mode, ctx: Seq<Term>, doms: Seq<Term>, j: u32) -> bool {
    j < doms.len() && (s.is_prop)(m, ctx, doms[j as int]) == Ok::<bool, Fault>(false)
}

proof fn lemma_data_bound(
    s: Sem,
    m: Mode,
    ctx: Seq<Term>,
    doms: Seq<Term>,
    js: Seq<u32>,
    i: nat,
    best: Option<u32>,
)
    requires
        forall|x: int| 0 <= x < doms.len() ==> (s.is_prop)(m, ctx, #[trigger] doms[x]) is Ok,
    ensures
        data_bound(s, m, ctx, doms, js, i, best) matches Ok(r) && {
            &&& r is None <==> best is None && forall|x: int|
                i <= x < js.len() ==> !is_data_field(s, m, ctx, doms, #[trigger] js[x])
            &&& r matches Some(b) ==> best == Some(b) || exists|x: int|
                i <= x < js.len() && #[trigger] js[x] == b && is_data_field(s, m, ctx, doms, b)
            &&& r matches Some(b) ==> (best matches Some(c) ==> b <= c) && forall|x: int|
                i <= x < js.len() && is_data_field(s, m, ctx, doms, #[trigger] js[x]) ==> b <= js[x]
        },
    decreases js.len() - i,
{
    if i < js.len() {
        let j = js[i as int];
        let next = if is_data_field(s, m, ctx, doms, j) && (match best {
            None => true,
            Some(b) => j < b,
        }) {
            Some(j)
        } else {
            best
        };
        if j < doms.len() {
            assert((s.is_prop)(m, ctx, doms[j as int]) is Ok);
        }
        lemma_data_bound(s, m, ctx, doms, js, i + 1, next);
        assert(data_bound(s, m, ctx, doms, js, i, best) == data_bound(
            s,
            m,
            ctx,
            doms,
            js,
            i + 1,
            next,
        ));
        let r = data_bound(s, m, ctx, doms, js, i, best)->Ok_0;
        if r is None {
            assert forall|x: int| i <= x < js.len() implies !is_data_field(
                s,
                m,
                ctx,
                doms,
                #[trigger] js[x],
            ) by {
                if x > i {
                    assert(i + 1 <= x);
                }
            }
        } else {
            let b = r.unwrap();
            assert forall|x: int|
                i <= x < js.len() && is_data_field(
                    s,
                    m,
                    ctx,
                    doms,
                    #[trigger] js[x],
                ) implies b <= js[x] by {
                if x > i {
                    assert(i + 1 <= x);
                }
            }
            if best != Some(b) {
                if next == Some(b) {
                    assert(js[i as int] == b);
                } else {
                    let x = choose|x: int|
                        i + 1 <= x < js.len() && #[trigger] js[x] == b && is_data_field(
                            s,
                            m,
                            ctx,
                            doms,
                            b,
                        );
                    assert(js[x] == b);
                }
            }
        }
    }
}

/// A field of a proposition may be projected exactly where it is a proof, and no
/// field up to it holds data that the type of some field mentions.
pub proof fn law_prop_projection(
    s: Sem,
    m: Mode,
    ctx: Seq<Term>,
    doms: Seq<Term>,
    sname: u32,
    v: Term,
    idx: u32,
)
    requires
        idx < doms.len(),
        forall|x: int| 0 <= x < doms.len() ==> (s.is_prop)(m, ctx, #[trigger] doms[x]) is Ok,
    ensures
        prop_projection(s, m, ctx, doms, sname, v, idx) is Ok <==> !is_data_field(
            s,
            m,
            ctx,
            doms,
            idx,
        ) && !(exists|j: u32|
            j <= idx && #[trigger] is_data_field(s, m, ctx, doms, j) && some_mentions(
                doms,
                sname,
                j,
                v,
                0,
            )),
        prop_projection(s, m, ctx, doms, sname, v, idx) is Err ==> prop_projection(
            s,
            m,
            ctx,
            doms,
            sname,
            v,
            idx,
        ) matches Err(Fault::Reject(_)),
{
    let js = all_proj_indices(doms, sname, v, Seq::empty(), 0);
    lemma_data_bound(s, m, ctx, doms, js, 0, None);
    let r = data_bound(s, m, ctx, doms, js, 0, None)->Ok_0;
    assert((s.is_prop)(m, ctx, doms[idx as int]) is Ok);
    assert forall|j: u32| #[trigger]
        is_data_field(s, m, ctx, doms, j) && some_mentions(doms, sname, j, v, 0) implies (
    r matches Some(b) && b <= j) by {
        lemma_all_collected(doms, sname, j, v, Seq::empty(), 0);
        let x = choose|x: int| 0 <= x < js.len() && js[x] == j;
        assert(is_data_field(s, m, ctx, doms, js[x]));
    }
    match r {
        Some(b) => {
            let x = choose|x: int|
                0 <= x < js.len() && #[trigger] js[x] == b && is_data_field(s, m, ctx, doms, b);
            assert(js.contains(b));
            lemma_all_collected(doms, sname, b, v, Seq::empty(), 0);
            assert(is_data_field(s, m, ctx, doms, b) && some_mentions(doms, sname, b, v, 0));
        },
        None => {},
    }
}

proof fn lemma_least_data(
    s: Sem,
    m: Mode,
    ctx: Seq<Term>,
    doms: Seq<Term>,
    js: Seq<u32>,
    i: nat,
    best: Option<u32>,
    x: int,
)
    requires
        data_bound(s, m, ctx, doms, js, i, best) is Ok,
    ensures
        data_bound(s, m, ctx, doms, js, i, best) matches Ok(r) && {
            &&& best matches Some(c) ==> (r matches Some(b) && b <= c)
            &&& i <= x < js.len() && is_data_field(s, m, ctx, doms, js[x]) ==> (r matches Some(b)
                && b <= js[x])
        },
    decreases js.len() - i,
{
    if i < js.len() {
        let j = js[i as int];
        let next = if is_data_field(s, m, ctx, doms, j) && (match best {
            None => true,
            Some(b) => j < b,
        }) {
            Some(j)
        } else {
            best
        };
        assert(data_bound(s, m, ctx, doms, js, i, best) == data_bound(
            s,
            m,
            ctx,
            doms,
            js,
            i + 1,
            next,
        ));
        lemma_least_data(s, m, ctx, doms, js, i + 1, next, x);
    }
}

/// A field of a proposition that may be projected is a proof, and no field of data
/// up to it is mentioned in the type of any field.
pub proof fn law_no_data_before(
    s: Sem,
    m: Mode,
    ctx: Seq<Term>,
    doms: Seq<Term>,
    sname: u32,
    v: Term,
    idx: u32,
    j: u32,
)
    requires
        prop_projection(s, m, ctx, doms, sname, v, idx) is Ok,
        j <= idx,
    ensures
        (s.is_prop)(m, ctx, doms[idx as int]) == Ok::<bool, Fault>(true),
        is_data_field(s, m, ctx, doms, j) ==> !some_mentions(doms, sname, j, v, 0),
{
    let js = all_proj_indices(doms, sname, v, Seq::empty(), 0);
    lemma_all_collected(doms, sname, j, v, Seq::empty(), 0);
    if is_data_field(s, m, ctx, doms, j) && some_mentions(doms, sname, j, v, 0) {
        let x = choose|x: int| 0 <= x < js.len() && js[x] == j;
        lemma_least_data(s, m, ctx, doms, js, 0, None, x);
    }
}

} // verus!
