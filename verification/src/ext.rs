//! Reductions of applied constants.

use crate::commring::comm_ring_spec;
use crate::ctx::Ctx;
use crate::errors::{res, R};
use crate::expr::{mk_apps, Expr, Term};
use crate::intlinear::int_linear_spec;
use crate::iota::{iota_spec, quot_spec};
use crate::judge::sem_at;
use crate::kernel::{Budget, Checker, K, Mode, Res, Sem};
use crate::natext::nat_extension_spec;
use crate::omega::{intlist_spec, omega_combo_spec, omega_constraint_spec};
use crate::ratio::{dite_spec, rat_spec};
use vstd::prelude::*;

verus! {

/// The first reduction that applies to a constant with its arguments.
#[verifier::opaque]
pub open spec fn extension_spec(
    k: K,
    s: Sem,
    m: Mode,
    ctx: Seq<Term>,
    head: Term,
    args: Seq<Term>,
) -> Res<Option<Term>> {
    or_try(
        iota_spec(k, s, m, ctx, head, args),
        or_try(
            quot_spec(k, s, m, ctx, head, args),
            or_try(
                nat_extension_spec(k, s, m, ctx, head, args),
                or_try(
                    omega_combo_spec(k, s, m, ctx, head, args),
                    or_try(
                        omega_constraint_spec(k, s, m, ctx, head, args),
                        or_try(
                            intlist_spec(k, s, m, ctx, head, args),
                            or_try(
                                int_linear_spec(k, s, m, ctx, head, args),
                                or_try(
                                    comm_ring_spec(k, s, m, ctx, head, args),
                                    or_try(
                                        rat_spec(k, s, m, ctx, head, args),
                                        dite_spec(k, s, m, ctx, head, args),
                                    ),
                                ),
                            ),
                        ),
                    ),
                ),
            ),
        ),
    )
}

/// Goes on to the next reduction where the first does not apply.
pub open spec fn or_try(first: Res<Option<Term>>, second: Res<Option<Term>>) -> Res<Option<Term>> {
    match first {
        Err(f) => Err(f),
        Ok(Some(t)) => Ok(Some(t)),
        Ok(None) => second,
    }
}

/// A result applied to the arguments that are left.
pub open spec fn with_rest(r: Res<Option<Term>>, args: Seq<Term>, from: nat) -> Res<Option<Term>> {
    match r {
        Err(f) => Err(f),
        Ok(None) => Ok(None),
        Ok(Some(t)) => Ok(Some(mk_apps(t, args.skip(from as int)))),
    }
}

impl<'e> Checker<'e> {
    /// The first reduction that applies to a constant with its arguments.
    pub fn try_extensions(&self, g: Budget, m: Mode, ctx: &Ctx, head: &Expr, args: &Vec<Expr>) -> (r:
        R<Option<Expr>>)
        ensures
            res(r) == extension_spec(
                self@,
                sem_at(self@, g),
                m,
                ctx@,
                head@,
                args.deep_view(),
            ),
        decreases g.total(), 19int, 0int,
    {
        proof {
            reveal(extension_spec);
        }
        match self.try_iota(g, m, ctx, head, args)? {
            Some(t) => {
                return Ok(Some(t));
            },
            None => {},
        }
        match self.try_quot(g, m, ctx, head, args)? {
            Some(t) => {
                return Ok(Some(t));
            },
            None => {},
        }
        match self.try_nat_extension(g, m, ctx, head, args)? {
            Some(t) => {
                return Ok(Some(t));
            },
            None => {},
        }
        match self.try_omega_combo(g, m, ctx, head, args)? {
            Some(t) => {
                return Ok(Some(t));
            },
            None => {},
        }
        match self.try_omega_constraint(g, m, ctx, head, args)? {
            Some(t) => {
                return Ok(Some(t));
            },
            None => {},
        }
        match self.try_intlist(g, m, ctx, head, args)? {
            Some(t) => {
                return Ok(Some(t));
            },
            None => {},
        }
        match self.try_int_linear(g, m, ctx, head, args)? {
            Some(t) => {
                return Ok(Some(t));
            },
            None => {},
        }
        match self.try_comm_ring(g, m, ctx, head, args)? {
            Some(t) => {
                return Ok(Some(t));
            },
            None => {},
        }
        match self.try_rat(g, m, ctx, head, args)? {
            Some(t) => {
                return Ok(Some(t));
            },
            None => {},
        }
        self.try_dite(g, m, ctx, head, args)
    }
}

} // verus!
