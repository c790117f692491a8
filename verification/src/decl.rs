//! The checker's judgements as its callers see them, and the checking of
//! declarations.

use crate::conv::defeq_eager;
use crate::ctx::Ctx;
use crate::env::{find, info_params, info_type, info_value};
use crate::errors::{other, reject, res, Fault, R};
use crate::expr::{Expr, Term};
use crate::inductive::{has_repeats, repeats};
use crate::infer::{infer_eager, sort_of};
use crate::judge::sem_at;
use crate::kernel::{by_value, eager_mode, start_mode, Budget, Checker, Mode, Res, Sem, K};
use crate::level::{is_def_eq, univ_eq, zero, Univ};
use crate::lookup::cheap_zeta_spec;
use crate::nbe::{defeq_step, depth_of, env_vars, evaluated_same, infer_step};
use crate::num::{decimal, Natural};
use crate::reduce::{core_loop, core_once, core_step, whnf_step};
use crate::report::sides_text;
use crate::text::{join, str_same};
use vstd::prelude::*;

verus! {

/// The checker while a constant's own declaration is checked: the constant is not
/// there to be referred to.
pub open spec fn while_declaring(k: K, name: u32) -> K {
    K { declaring: Some(name), ..k }
}

/// What is said of a declaration.
pub open spec fn decl_text(kind: Seq<char>, name: u32, what: Seq<char>) -> Seq<char> {
    kind + " "@ + decimal(name as nat) + what
}

/// Whether a value has the declared type: by the judgements as they are, or by
/// reduction alone.
pub open spec fn value_fits(k: K, s: Sem, m: Mode, value: Term, typ: Term) -> Res<bool> {
    match (s.infer)(m, Seq::empty(), value) {
        Err(f) => Err(f),
        Ok(vt) => match (s.defeq)(m, Seq::empty(), vt, typ) {
            Err(f) => Err(f),
            Ok(true) => Ok(true),
            Ok(false) => match infer_eager(k, s, eager_mode(m), Seq::empty(), value) {
                Err(_) => Ok(false),
                Ok(et) => defeq_eager(k, s, eager_mode(m), Seq::empty(), et, typ),
            },
        },
    }
}

/// What is added of a value that does not have the declared type.
pub open spec fn value_text(k: K, s: Sem, m: Mode, value: Term, typ: Term) -> Seq<char> {
    match (s.infer)(m, Seq::empty(), value) {
        Ok(vt) => sides_text(k, s, m, value, vt, typ),
        Err(_) => Seq::empty(),
    }
}

/// Whether a declaration is well formed: its type is a type, a theorem's a
/// proposition, and its value, if there is one, has that type.
#[verifier::opaque]
pub open spec fn decl_body_ok(
    k: K,
    s: Sem,
    m: Mode,
    name: u32,
    kind: Seq<char>,
    typ: Term,
    value: Option<Term>,
) -> Res<()> {
    match sort_of(k, s, m, Seq::empty(), typ) {
        Err(f) => Err(f),
        Ok(l) => if kind == "theorem"@ && !univ_eq(l, Univ::Zero) {
            Err(Fault::Reject(decl_text(kind, name, ": theorem type is not a Prop"@)))
        } else {
            match value {
                None => Ok(()),
                Some(v) => match value_fits(k, s, m, v, typ) {
                    Err(f) => Err(f),
                    Ok(true) => Ok(()),
                    Ok(false) => Err(
                        Fault::Reject(
                            decl_text(
                                kind,
                                name,
                                ": value type does not match declared type"@,
                            ) + value_text(k, s, m, v, typ),
                        ),
                    ),
                },
            }
        },
    }
}

/// Whether the declaration of a constant is well formed.
#[verifier::opaque]
pub open spec fn decl_spec(k: K, g: Budget, name: u32, kind: Seq<char>) -> Res<()> {
    match find(k.env, name) {
        None => Err(Fault::Other("missing const "@ + decimal(name as nat))),
        Some(i) => if repeats(info_params(i)) {
            Err(Fault::Reject(decl_text(kind, name, ": duplicate universe parameter"@)))
        } else {
            let d = while_declaring(k, name);
            decl_body_ok(
                d,
                sem_at(d, g),
                start_mode(),
                name,
                kind,
                info_type(i),
                info_value(i),
            )
        },
    }
}

/// A declaration that is accepted names no universe parameter twice, its type is
/// a type, and where it is a theorem its type is a proposition.
pub proof fn law_accepted_declaration(k: K, g: Budget, name: u32, kind: Seq<char>)
    requires
        decl_spec(k, g, name, kind) is Ok,
    ensures
        find(k.env, name) matches Some(i) && !repeats(info_params(i)) && (sort_of(
            while_declaring(k, name),
            sem_at(while_declaring(k, name), g),
            start_mode(),
            Seq::empty(),
            info_type(i),
        ) matches Ok(l) && (kind == "theorem"@ ==> univ_eq(l, Univ::Zero))),
{
    reveal(decl_spec);
    reveal(decl_body_ok);
}

/// The value of a declaration that is accepted has the declared type.
pub proof fn law_accepted_value(k: K, g: Budget, name: u32, kind: Seq<char>, value: Term)
    requires
        decl_spec(k, g, name, kind) is Ok,
        find(k.env, name) matches Some(i) && info_value(i) == Some(value),
    ensures
        find(k.env, name) matches Some(i) && value_fits(
            while_declaring(k, name),
            sem_at(while_declaring(k, name), g),
            start_mode(),
            value,
            info_type(i),
        ) == Ok::<bool, Fault>(true),
{
    reveal(decl_spec);
    reveal(decl_body_ok);
}

/// Every term is the same as itself, as long as there is any budget.
pub proof fn law_defeq_reflexive(k: K, g: Budget, m: Mode, ctx: Seq<Term>, e: Term)
    requires
        g.defeq > 0,
    ensures
        (sem_at(k, g).defeq)(m, ctx, e, e) == Ok::<bool, Fault>(true),
{
    reveal(sem_at);
    reveal(defeq_step);
    reveal(defeq_eager);
}

/// A sort is its own head normal form.
pub proof fn law_sort_is_normal(k: K, g: Budget, m: Mode, ctx: Seq<Term>, l: Univ)
    requires
        g.whnf > 0,
        g.core > 0,
    ensures
        (sem_at(k, g).whnf)(m, ctx, Term::Sort(l)) == Ok::<Term, Fault>(Term::Sort(l)),
{
    reveal(sem_at);
    reveal(whnf_step);
    reveal(core_step);
    reveal(core_once);
    let s1 = sem_at(k, g.in_whnf());
    let s2 = sem_at(k, g.in_whnf().in_core());
    assert(cheap_zeta_spec(Term::Sort(l)) == Term::Sort(l));
    assert((s1.core)(m, ctx, Term::Sort(l)) == core_step(k, s2, m, ctx, Term::Sort(l)));
    assert(core_loop(k, s2, m, ctx, Term::Sort(l), crate::kernel::REDUCTION_LIMIT as nat) == Ok::<
        Term,
        Fault,
    >(Term::Sort(l)));
}

/// The type of a sort is the next one.
pub proof fn law_sort_type(k: K, g: Budget, m: Mode, ctx: Seq<Term>, l: Univ)
    requires
        g.rest > 0,
        !by_value(k, m),
    ensures
        (sem_at(k, g).infer)(m, ctx, Term::Sort(l)) == Ok::<Term, Fault>(
            Term::Sort(Univ::Succ(Box::new(l))),
        ),
{
    reveal(sem_at);
    reveal(infer_step);
    reveal(infer_eager);
}

impl<'e> Checker<'e> {
    /// The head normal form of a term.
    pub fn whnf(&self, ctx: &Ctx, e: &Expr) -> (r: R<Expr>)
        ensures
            res(r) == (sem_at(self@, self.budget).whnf)(start_mode(), ctx@, e@),
    {
        self.whnf_at(self.budget, Mode::start(), ctx, e)
    }

    /// The type of a term.
    pub fn infer_type(&self, ctx: &Ctx, e: &Expr) -> (r: R<Expr>)
        ensures
            res(r) == (sem_at(self@, self.budget).infer)(start_mode(), ctx@, e@),
    {
        self.infer_at(self.budget, Mode::start(), ctx, e)
    }

    /// Whether two terms stand for the same thing.
    pub fn is_def_eq(&self, ctx: &Ctx, a: &Expr, b: &Expr) -> (r: R<bool>)
        ensures
            res(r) == (sem_at(self@, self.budget).defeq)(start_mode(), ctx@, a@, b@),
    {
        self.defeq_at(self.budget, Mode::start(), ctx, a, b)
    }

    fn declaring(&self, name: u32) -> (r: Checker<'e>)
        ensures
            r@ == while_declaring(self@, name),
            r.budget == self.budget,
    {
        Checker {
            env: self.env,
            names: self.names,
            nat_ref: self.nat_ref,
            string_ref: self.string_ref,
            declaring: Some(name),
            nbe: self.nbe,
            theorem_delta: self.theorem_delta,
            theorem_scope: self.theorem_scope,
            verbose: self.verbose,
            print_budget: self.print_budget,
            budget: self.budget,
        }
    }

    fn value_type_ok(&self, m: Mode, value: &Expr, typ: &Expr) -> (r: R<bool>)
        ensures
            res(r) == value_fits(self@, sem_at(self@, self.budget), m, value@, typ@),
    {
        let empty = Ctx::new();
        assert(empty@ =~= Seq::<Term>::empty());
        let vt = self.infer_at(self.budget, m, &empty, value)?;
        if self.defeq_at(self.budget, m, &empty, &vt, typ)? {
            return Ok(true);
        }
        match self.infer_eager_at(self.budget, m.eagerly(), &empty, value) {
            Err(_) => Ok(false),
            Ok(et) => self.defeq_eager_at(self.budget, m.eagerly(), &empty, &et, typ),
        }
    }

    fn value_message(&self, m: Mode, value: &Expr, typ: &Expr) -> (r: String)
        ensures
            r@ == value_text(self@, sem_at(self@, self.budget), m, value@, typ@),
    {
        let empty = Ctx::new();
        assert(empty@ =~= Seq::<Term>::empty());
        match self.infer_at(self.budget, m, &empty, value) {
            Ok(vt) => self.sides_message(m, value, &vt, typ),
            Err(_) => {
                let s = String::new();
                assert(s@ =~= Seq::<char>::empty());
                s
            },
        }
    }

    fn check_decl_body(&self, name: u32, kind: &str, typ: &Expr, value: Option<&Expr>) -> (r: R<()>)
        ensures
            res(r) == decl_body_ok(
                self@,
                sem_at(self@, self.budget),
                start_mode(),
                name,
                kind@,
                typ@,
                (match value {
                    Some(v) => Some(v@),
                    None => None,
                }),
            ),
    {
        proof {
            reveal(decl_body_ok);
        }
        let m = Mode::start();
        let empty = Ctx::new();
        assert(empty@ =~= Seq::<Term>::empty());
        let l = self.sort_of_at(self.budget, m, &empty, typ)?;
        if str_same(kind, "theorem") && !is_def_eq(&l, &zero()) {
            return reject(mk_decl_text(kind, name, ": theorem type is not a Prop").as_str());
        }
        match value {
            None => Ok(()),
            Some(v) => {
                if self.value_type_ok(m, v, typ)? {
                    return Ok(());
                }
                let front = mk_decl_text(kind, name, ": value type does not match declared type");
                let more = self.value_message(m, v, typ);
                reject(join(front.as_str(), more.as_str()).as_str())
            },
        }
    }

    /// Whether the declaration of a constant is well formed.
    pub fn check_decl(&self, name: u32, kind: &str) -> (r: R<()>)
        ensures
            res(r) == decl_spec(self@, self.budget, name, kind@),
    {
        proof {
            reveal(decl_spec);
        }
        match self.env.get(name) {
            None => other(
                join("missing const ", Natural::from_u64(name as u64).show().as_str()).as_str(),
            ),
            Some(ci) => {
                if has_repeats(ci.level_params()) {
                    return reject(
                        mk_decl_text(kind, name, ": duplicate universe parameter").as_str(),
                    );
                }
                self.declaring(name).check_decl_body(name, kind, ci.typ(), ci.value())
            },
        }
    }
}

fn mk_decl_text(kind: &str, name: u32, what: &str) -> (r: String)
    ensures
        r@ == decl_text(kind@, name, what@),
{
    let front = join(kind, " ");
    let number = Natural::from_u64(name as u64).show();
    let head = join(front.as_str(), number.as_str());
    join(head.as_str(), what)
}

/// Conversion by evaluation goes back to conversion by reduction wherever the
/// values do not show the terms to be the same, a failure to evaluate among them.
/// So it never denies what reduction confirms, and what it denies or leaves open
/// reduction does too.
pub proof fn law_evaluation_falls_back(k: K, g: Budget, m: Mode, ctx: Seq<Term>, a: Term, b: Term)
    requires
        g.defeq > 0,
    ensures
        ({
            let s = sem_at(k, g.in_defeq());
            let eager = defeq_eager(k, s, m, ctx, a, b);
            let verdict = (sem_at(k, g).defeq)(m, ctx, a, b);
            let d = depth_of(ctx.len());
            &&& evaluated_same(s, m, d, env_vars(d as nat), a, b) != Ok::<bool, Fault>(true)
                ==> verdict == eager
            &&& eager == Ok::<bool, Fault>(true) ==> verdict == eager
            &&& verdict != Ok::<bool, Fault>(true) ==> verdict == eager
            &&& !by_value(k, m) ==> verdict == eager
        }),
{
    reveal(sem_at);
    reveal(defeq_step);
}

} // verus!
