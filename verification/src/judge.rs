//! The judgements, tied together.

use crate::closed::closed_int_step;
use crate::conv::defeq_core_step;
use crate::ctx::Ctx;
use crate::errors::{decline, res, Fault, R};
use crate::expr::{Expr, Term};
use crate::infer::is_prop_step;
use crate::kernel::{by_value, Budget, Checker, K, Mode, Res, Sem};
use crate::lookup::{cheap_zeta, cheap_zeta_spec, is_core_redex, is_whnf_core_redex};
use crate::nbe::{defeq_step, eval_step, infer_step, infer_val_step, quote_step, val_eq_step};
use crate::num::Integer;
use crate::reduce::{core_limit_text, core_step, whnf_step};
use crate::value::{Thk, VEnv, Val, Value};
use vstd::prelude::*;

verus! {

/// Core reduction without budget: a term that shows no redex stands for itself.
pub open spec fn core_stop(k: K, e: Term) -> Res<Term> {
    let z = cheap_zeta_spec(e);
    if is_core_redex(z) {
        Err(Fault::Decline(core_limit_text(k, z)))
    } else {
        Ok(z)
    }
}

/// The judgements with a budget of nested ones.
#[verifier::opaque]
pub open spec fn sem_at(k: K, g: Budget) -> Sem
    decreases g.total(),
{
    Sem {
        core_spent: g.core == 0,
        whnf: |m: Mode, ctx: Seq<Term>, e: Term|
            if g.whnf == 0 {
                Err(Fault::Decline("WHNF depth limit"@))
            } else {
                whnf_step(k, sem_at(k, g.in_whnf()), m, ctx, e)
            },
        core: |m: Mode, ctx: Seq<Term>, e: Term|
            if g.core == 0 {
                core_stop(k, e)
            } else {
                core_step(k, sem_at(k, g.in_core()), m, ctx, e)
            },
        infer: |m: Mode, ctx: Seq<Term>, e: Term|
            if by_value(k, m) {
                if g.infer == 0 {
                    Err(Fault::Decline("infer_type depth limit"@))
                } else {
                    infer_step(k, sem_at(k, g.in_infer()), m, ctx, e)
                }
            } else if g.rest == 0 {
                Err(Fault::Decline("infer_type depth limit"@))
            } else {
                infer_step(k, sem_at(k, g.in_rest()), m, ctx, e)
            },
        defeq: |m: Mode, ctx: Seq<Term>, a: Term, b: Term|
            if g.defeq == 0 {
                Err(Fault::Decline("defeq depth limit"@))
            } else {
                defeq_step(k, sem_at(k, g.in_defeq()), m, ctx, a, b)
            },
        defeq_core: |m: Mode, ctx: Seq<Term>, a: Term, b: Term|
            if g.rest == 0 {
                Err(Fault::Decline("defeq depth limit"@))
            } else {
                defeq_core_step(k, sem_at(k, g.in_rest()), m, ctx, a, b)
            },
        is_prop: |m: Mode, ctx: Seq<Term>, e: Term|
            if g.rest == 0 {
                Err(Fault::Decline("is_prop depth limit"@))
            } else {
                is_prop_step(k, sem_at(k, g.in_rest()), m, ctx, e)
            },
        closed_int: |m: Mode, ctx: Seq<Term>, e: Term|
            if g.rest == 0 {
                Err(Fault::Decline("closed integer depth limit"@))
            } else {
                closed_int_step(k, sem_at(k, g.in_rest()), m, ctx, e)
            },
        eval: |m: Mode, env: Seq<Thk>, e: Term|
            if g.rest == 0 {
                Err(Fault::Decline("evaluation depth limit"@))
            } else {
                eval_step(k, sem_at(k, g.in_rest()), m, env, e)
            },
        quote: |m: Mode, depth: u32, v: Val|
            if g.rest == 0 {
                Err(Fault::Decline("evaluation depth limit"@))
            } else {
                quote_step(sem_at(k, g.in_rest()), m, depth, v)
            },
        val_eq: |m: Mode, depth: u32, a: Val, b: Val|
            if g.rest == 0 {
                Err(Fault::Decline("evaluation depth limit"@))
            } else {
                val_eq_step(sem_at(k, g.in_rest()), m, depth, a, b)
            },
        infer_val: |m: Mode, ctx: Seq<Term>, tys: Seq<Thk>, env: Seq<Thk>, e: Term|
            if g.rest == 0 {
                Err(Fault::Decline("infer_type depth limit"@))
            } else {
                infer_val_step(k, sem_at(k, g.in_rest()), m, ctx, tys, env, e)
            },
    }
}

impl<'e> Checker<'e> {
    /// Head normal form, with a budget.
    pub fn whnf_at(&self, g: Budget, m: Mode, ctx: &Ctx, e: &Expr) -> (r: R<Expr>)
        ensures
            res(r) == (sem_at(self@, g).whnf)(m, ctx@, e@),
        decreases g.total(), 0int, 0int,
    {
        proof {
            reveal(sem_at);
        }
        if g.whnf == 0 {
            return decline("WHNF depth limit");
        }
        self.whnf_once(Budget { whnf: g.whnf - 1, ..g }, m, ctx, e)
    }

    /// Core reduction, with a budget.
    pub fn core_at(&self, g: Budget, m: Mode, ctx: &Ctx, e: &Expr) -> (r: R<Expr>)
        ensures
            res(r) == (sem_at(self@, g).core)(m, ctx@, e@),
        decreases g.total(), 0int, 0int,
    {
        proof {
            reveal(sem_at);
        }
        if g.core == 0 {
            let z = cheap_zeta(e);
            if is_whnf_core_redex(&z) {
                return self.core_limit(&z);
            }
            return Ok(z);
        }
        self.core_reduce(Budget { core: g.core - 1, ..g }, m, ctx, e)
    }

    /// Inference, with a budget.
    pub fn infer_at(&self, g: Budget, m: Mode, ctx: &Ctx, e: &Expr) -> (r: R<Expr>)
        ensures
            res(r) == (sem_at(self@, g).infer)(m, ctx@, e@),
        decreases g.total(), 0int, 0int,
    {
        proof {
            reveal(sem_at);
        }
        if self.nbe && !m.eager {
            if g.infer == 0 {
                return decline("infer_type depth limit");
            }
            return self.infer_once(Budget { infer: g.infer - 1, ..g }, m, ctx, e);
        }
        if g.rest == 0 {
            return decline("infer_type depth limit");
        }
        self.infer_once(g.take_rest(), m, ctx, e)
    }

    /// Conversion, with a budget.
    pub fn defeq_at(&self, g: Budget, m: Mode, ctx: &Ctx, a: &Expr, b: &Expr) -> (r: R<bool>)
        ensures
            res(r) == (sem_at(self@, g).defeq)(m, ctx@, a@, b@),
        decreases g.total(), 0int, 0int,
    {
        proof {
            reveal(sem_at);
        }
        if g.defeq == 0 {
            return decline("defeq depth limit");
        }
        self.defeq_once(Budget { defeq: g.defeq - 1, ..g }, m, ctx, a, b)
    }

    /// Conversion between reduced terms, with a budget.
    pub fn defeq_core_at(&self, g: Budget, m: Mode, ctx: &Ctx, a: &Expr, b: &Expr) -> (r: R<bool>)
        ensures
            res(r) == (sem_at(self@, g).defeq_core)(m, ctx@, a@, b@),
        decreases g.total(), 0int, 0int,
    {
        proof {
            reveal(sem_at);
        }
        if g.rest == 0 {
            return decline("defeq depth limit");
        }
        self.defeq_core_once(g.take_rest(), m, ctx, a, b)
    }

    /// The value of a closed integer, with a budget.
    pub fn closed_int_at(&self, g: Budget, m: Mode, ctx: &Ctx, e: &Expr) -> (r: R<Option<Integer>>)
        ensures
            res(r) == (sem_at(self@, g).closed_int)(m, ctx@, e@),
        decreases g.total(), 0int, 0int,
    {
        proof {
            reveal(sem_at);
        }
        if g.rest == 0 {
            return decline("closed integer depth limit");
        }
        self.closed_int_value(g.take_rest(), m, ctx, e)
    }

    /// Whether a type is a proposition, with a budget.
    pub fn is_prop_at(&self, g: Budget, m: Mode, ctx: &Ctx, e: &Expr) -> (r: R<bool>)
        ensures
            res(r) == (sem_at(self@, g).is_prop)(m, ctx@, e@),
        decreases g.total(), 0int, 0int,
    {
        proof {
            reveal(sem_at);
        }
        if g.rest == 0 {
            return decline("is_prop depth limit");
        }
        self.is_prop_once(g.take_rest(), m, ctx, e)
    }

    /// Evaluation, with a budget.
    pub fn eval_at(&self, g: Budget, m: Mode, env: &VEnv, e: &Expr) -> (r: R<Value>)
        ensures
            res(r) == (sem_at(self@, g).eval)(m, env@, e@),
        decreases g.total(), 0int, 0int,
    {
        proof {
            reveal(sem_at);
        }
        if g.rest == 0 {
            return decline("evaluation depth limit");
        }
        self.eval(g.take_rest(), m, env, e)
    }

    /// A value as a term, with a budget.
    pub fn quote_at(&self, g: Budget, m: Mode, depth: u32, v: &Value) -> (r: R<Expr>)
        ensures
            res(r) == (sem_at(self@, g).quote)(m, depth, v@),
        decreases g.total(), 0int, 0int,
    {
        proof {
            reveal(sem_at);
        }
        if g.rest == 0 {
            return decline("evaluation depth limit");
        }
        self.quote(g.take_rest(), m, depth, v)
    }

    /// Whether two values are the same, with a budget.
    pub fn values_eq_at(&self, g: Budget, m: Mode, depth: u32, a: &Value, b: &Value) -> (r: R<bool>)
        ensures
            res(r) == (sem_at(self@, g).val_eq)(m, depth, a@, b@),
        decreases g.total(), 0int, 0int,
    {
        proof {
            reveal(sem_at);
        }
        if g.rest == 0 {
            return decline("evaluation depth limit");
        }
        self.values_def_eq(g.take_rest(), m, depth, a, b)
    }

    /// The type of a term as a value, with a budget.
    pub fn infer_value_at(&self, g: Budget, m: Mode, ctx: &Ctx, tys: &VEnv, env: &VEnv, e: &Expr) -> (r:
        R<Value>)
        ensures
            res(r) == (sem_at(self@, g).infer_val)(m, ctx@, tys@, env@, e@),
        decreases g.total(), 0int, 0int,
    {
        proof {
            reveal(sem_at);
        }
        if g.rest == 0 {
            return decline("infer_type depth limit");
        }
        self.infer_type_value(g.take_rest(), m, ctx, tys, env, e)
    }
}

/// Without budget the judgements give up, and say so: reduction to head normal
/// form, inference and conversion decline, whatever they are asked.
pub proof fn law_no_budget_declines(k: K, g: Budget, m: Mode, ctx: Seq<Term>, a: Term, b: Term)
    ensures
        g.whnf == 0 ==> (sem_at(k, g).whnf)(m, ctx, a) matches Err(Fault::Decline(_)),
        (if by_value(k, m) {
            g.infer == 0
        } else {
            g.rest == 0
        }) ==> (sem_at(k, g).infer)(m, ctx, a) matches Err(Fault::Decline(_)),
        g.defeq == 0 ==> (sem_at(k, g).defeq)(m, ctx, a, b) matches Err(Fault::Decline(_)),
        g.core == 0 && is_core_redex(cheap_zeta_spec(a)) ==> (sem_at(k, g).core)(m, ctx, a) matches Err(
            Fault::Decline(_),
        ),
{
    reveal(sem_at);
}

} // verus!
