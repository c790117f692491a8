//! Evaluation leaves normal forms alone.

use crate::env::{find, Info};
use crate::errors::Fault;
use crate::expr::Term;
use crate::judge::sem_at;
use crate::kernel::{Budget, Mode, K};
use crate::lookup::eager_unfolds;
use crate::nbe::{
    apply_spec, env_vars, eval_step, fresh, iota_value_spec, neu_head, quote_neutral_spec,
    quote_step, shown_field,
};
use crate::value::{Neu, Thk, Val};
use vstd::prelude::*;

verus! {

/// What a term applies in the end.
pub open spec fn stuck_head(e: Term) -> Term
    decreases e,
{
    match e {
        Term::App(f, _) => stuck_head(*f),
        _ => e,
    }
}

/// Whether a term under `d` binders is stuck on a variable or a constant that
/// computes nothing.
pub open spec fn is_neutral(k: K, e: Term, d: u32) -> bool
    decreases e, 0nat,
{
    match e {
        Term::BVar(i) => i < d,
        Term::Const(n, _) => !eager_unfolds(k, n) && !(find(k.env, n) matches Some(
            Info::Recursor { .. },
        )),
        Term::App(f, a) => is_neutral(k, *f, d) && is_normal(k, *a, d),
        Term::Proj(_, _, v) => is_neutral(k, *v, d) && !(stuck_head(*v) matches Term::Const(
            c,
            _,
        ) && (find(k.env, c) matches Some(Info::Constructor { .. }))),
        _ => false,
    }
}

/// Whether a term under `d` binders has nothing left to compute.
pub open spec fn is_normal(k: K, e: Term, d: u32) -> bool
    decreases e, 1nat,
{
    match e {
        Term::Sort(_) => true,
        Term::Lit(_) => true,
        Term::Lam(_, ty, body) => d < u32::MAX && is_normal(k, *ty, d) && is_normal(
            k,
            *body,
            (d + 1) as u32,
        ),
        Term::Pi(_, ty, body) => d < u32::MAX && is_normal(k, *ty, d) && is_normal(
            k,
            *body,
            (d + 1) as u32,
        ),
        _ => is_neutral(k, e, d),
    }
}

/// The number of parts of a term.
pub open spec fn parts(e: Term) -> nat
    decreases e,
{
    match e {
        Term::App(f, a) => 1 + parts(*f) + parts(*a),
        Term::Lam(_, t, b) => 1 + parts(*t) + parts(*b),
        Term::Pi(_, t, b) => 1 + parts(*t) + parts(*b),
        Term::Let(t, v, b) => 1 + parts(*t) + parts(*v) + parts(*b),
        Term::Proj(_, _, v) => 1 + parts(*v),
        _ => 1,
    }
}

/// The value of a neutral term under `d` binders.
pub open spec fn neutral_value(e: Term, d: u32) -> Neu
    decreases e,
{
    match e {
        Term::BVar(i) => Neu::Var((d - 1 - i) as u32),
        Term::Const(n, us) => Neu::Const(n, us),
        Term::App(f, a) => Neu::App(
            Box::new(neutral_value(*f, d)),
            Box::new(Thk::Deferred(env_vars(d as nat), *a)),
        ),
        Term::Proj(s, i, v) => Neu::Proj(s, i, Box::new(neutral_value(*v, d))),
        _ => Neu::Var(0),
    }
}

proof fn lemma_neutral_head(k: K, e: Term, d: u32)
    requires
        is_neutral(k, e, d),
    ensures
        neu_head(neutral_value(e, d)) == neutral_value(stuck_head(e), d),
        is_neutral(k, stuck_head(e), d),
        !(stuck_head(e) is App),
    decreases e,
{
    match e {
        Term::App(f, _) => lemma_neutral_head(k, *f, d),
        _ => {},
    }
}

proof fn lemma_eval_neutral(k: K, m: Mode, d: u32, e: Term, g: Budget)
    requires
        is_neutral(k, e, d),
        parts(e) < g.rest,
    ensures
        (sem_at(k, g).eval)(m, env_vars(d as nat), e) == Ok::<Val, Fault>(
            Val::Neutral(neutral_value(e, d)),
        ),
    decreases e,
{
    reveal(sem_at);
    reveal(eval_step);
    let env = env_vars(d as nat);
    let h = g.in_rest();
    let s = sem_at(k, h);
    assert((sem_at(k, g).eval)(m, env, e) == eval_step(k, s, m, env, e));
    match e {
        Term::BVar(i) => {
            assert(env[env.len() - 1 - i] == fresh((d - 1 - i) as u32));
        },
        Term::Const(_, _) => {},
        Term::App(f, a) => {
            lemma_eval_neutral(k, m, d, *f, h);
            lemma_neutral_head(k, e, d);
            reveal(apply_spec);
            reveal(iota_value_spec);
        },
        Term::Proj(sname, idx, v) => {
            lemma_eval_neutral(k, m, d, *v, h);
            lemma_neutral_head(k, *v, d);
            assert(shown_field(k, sname, idx, neutral_value(*v, d)) is None);
        },
        _ => {},
    }
}

proof fn lemma_quote_neutral(k: K, m: Mode, d: u32, e: Term, h: Budget)
    requires
        is_neutral(k, e, d),
        parts(e) <= h.rest,
    ensures
        quote_neutral_spec(sem_at(k, h), m, d, neutral_value(e, d)) == Ok::<Term, Fault>(e),
    decreases e, 0nat,
{
    match e {
        Term::App(f, a) => {
            lemma_quote_neutral(k, m, d, *f, h);
            law_normal_forms_stay(k, m, d, *a, h);
        },
        Term::Proj(_, _, v) => lemma_quote_neutral(k, m, d, *v, h),
        _ => {},
    }
}

/// A term with nothing left to compute, evaluated under as many variables as
/// there are binders around it and read back, is the same term, as long as the
/// budget for it exceeds the number of its parts.
pub proof fn law_normal_forms_stay(k: K, m: Mode, d: u32, e: Term, g: Budget)
    requires
        is_normal(k, e, d),
        parts(e) < g.rest,
    ensures
        (sem_at(k, g).eval)(m, env_vars(d as nat), e) matches Ok(v) && (sem_at(k, g).quote)(m, d, v)
            == Ok::<Term, Fault>(e),
    decreases e, 1nat,
{
    reveal(sem_at);
    reveal(eval_step);
    reveal(quote_step);
    let env = env_vars(d as nat);
    let h = g.in_rest();
    let s = sem_at(k, h);
    assert((sem_at(k, g).eval)(m, env, e) == eval_step(k, s, m, env, e));
    match e {
        Term::Sort(_) => {},
        Term::Lit(_) => {},
        Term::Lam(_, ty, body) => {
            law_normal_forms_stay(k, m, d, *ty, h);
            law_normal_forms_stay(k, m, (d + 1) as u32, *body, h);
            assert(env.push(fresh(d)) =~= env_vars((d + 1) as nat));
        },
        Term::Pi(_, ty, body) => {
            law_normal_forms_stay(k, m, d, *ty, h);
            law_normal_forms_stay(k, m, (d + 1) as u32, *body, h);
            assert(env.push(fresh(d)) =~= env_vars((d + 1) as nat));
        },
        _ => {
            lemma_eval_neutral(k, m, d, e, g);
            lemma_quote_neutral(k, m, d, e, h);
        },
    }
}

} // verus!
