//! The checker and the meaning of its judgements.
//!
//! Reduction, inference and conversion call one another. Each judgement has a
//! step function that says what it does in terms of the judgements it calls, and
//! [`sem_at`](crate::judge::sem_at) ties the knot: with a budget of nested
//! judgements of each sort, a judgement is its step with the judgements at a
//! budget of one less of its own sort. A judgement without budget gives up.

use crate::env::{Env, Environment};
use crate::errors::Fault;
use crate::expr::Term;
use crate::value::{Thk, Val};
use std::rc::Rc;
use vstd::prelude::*;

verus! {

/// The number of nested judgements of one sort that a checker allows by default.
pub const CONV_DEPTH: u32 = 8_192;

/// The number of binders, or of other parts in a row, that one walk goes through:
/// as many as variables can be told apart.
pub const STEP_LIMIT: u32 = 4_294_967_295;

/// The number of reductions of one term to the next that are made in a row.
pub const REDUCTION_LIMIT: u64 = 18_446_744_073_709_551_615;

/// The number of nested parts that one walk over a term allows.
pub const NEST_LIMIT: u32 = 4_294_967_295;

/// How much of a term a message shows by default.
pub const PRINT_BUDGET: u32 = 24;

/// A checker over an environment.
pub struct Checker<'e> {
    pub env: &'e Environment,
    pub names: &'e [Rc<String>],
    pub nat_ref: Option<u32>,
    pub string_ref: Option<u32>,
    /// The constant whose own declaration is being checked; it is not yet there
    /// to be referred to.
    pub declaring: Option<u32>,
    /// Whether conversion and inference go by evaluation first.
    pub nbe: bool,
    /// Whether theorems unfold at all.
    pub theorem_delta: bool,
    /// Whether theorems unfold when two terms are compared.
    pub theorem_scope: bool,
    /// Whether messages show the types that do not match.
    pub verbose: bool,
    /// How much of a term a message shows.
    pub print_budget: u32,
    /// The numbers of nested judgements allowed.
    pub budget: Budget,
}

/// The mathematical reading of a [`Checker`].
pub struct K {
    pub env: Env,
    pub names: Seq<Seq<char>>,
    pub nat_ref: Option<u32>,
    pub string_ref: Option<u32>,
    pub declaring: Option<u32>,
    pub nbe: bool,
    pub theorem_delta: bool,
    pub theorem_scope: bool,
    pub verbose: bool,
    pub print_budget: u32,
}

impl<'e> View for Checker<'e> {
    type V = K;

    open spec fn view(&self) -> K {
        K {
            env: self.env@,
            names: self.names.deep_view(),
            nat_ref: self.nat_ref,
            string_ref: self.string_ref,
            declaring: self.declaring,
            nbe: self.nbe,
            theorem_delta: self.theorem_delta,
            theorem_scope: self.theorem_scope,
            verbose: self.verbose,
            print_budget: self.print_budget,
        }
    }
}

/// How many judgements of each sort may still be nested.
#[derive(Clone, Copy, Debug, PartialEq, Eq, Structural)]
pub struct Budget {
    /// Reductions to head normal form.
    pub whnf: u32,
    /// Core reductions.
    pub core: u32,
    /// Inferences by evaluation.
    pub infer: u32,
    /// Conversions.
    pub defeq: u32,
    /// All the others.
    pub rest: u32,
}

/// The budget of a new checker.
pub open spec fn full_budget() -> Budget {
    Budget {
        whnf: CONV_DEPTH,
        core: CONV_DEPTH,
        infer: CONV_DEPTH,
        defeq: CONV_DEPTH,
        rest: NEST_LIMIT,
    }
}

impl Budget {
    /// The number of judgements that may still be nested.
    pub open spec fn total(self) -> nat {
        (self.whnf + self.core + self.infer + self.defeq + self.rest) as nat
    }

    /// The budget of a new checker.
    pub fn full() -> (r: Budget)
        ensures
            r == full_budget(),
    {
        Budget {
            whnf: CONV_DEPTH,
            core: CONV_DEPTH,
            infer: CONV_DEPTH,
            defeq: CONV_DEPTH,
            rest: NEST_LIMIT,
        }
    }

    /// What is left within a reduction to head normal form.
    pub open spec fn in_whnf(self) -> Budget {
        Budget { whnf: (self.whnf - 1) as u32, ..self }
    }

    /// What is left within a core reduction.
    pub open spec fn in_core(self) -> Budget {
        Budget { core: (self.core - 1) as u32, ..self }
    }

    /// What is left within an inference by evaluation.
    pub open spec fn in_infer(self) -> Budget {
        Budget { infer: (self.infer - 1) as u32, ..self }
    }

    /// What is left within a conversion.
    pub open spec fn in_defeq(self) -> Budget {
        Budget { defeq: (self.defeq - 1) as u32, ..self }
    }

    /// What is left within any other judgement.
    pub open spec fn in_rest(self) -> Budget {
        Budget { rest: (self.rest - 1) as u32, ..self }
    }

    /// What is left within any other judgement.
    pub fn take_rest(self) -> (r: Budget)
        requires
            self.rest > 0,
        ensures
            r == self.in_rest(),
    {
        Budget { rest: self.rest - 1, ..self }
    }
}

/// How a judgement is to be carried out.
#[derive(Clone, Copy, Debug)]
pub struct Mode {
    /// Terms are known to be well typed: arguments are not checked again.
    pub infer_only: bool,
    /// Evaluation is not to be used.
    pub eager: bool,
    /// Evaluation leaves recursors on proofs of recursive propositions alone.
    pub keep_prop_major: bool,
}

/// Whether conversion and inference go by evaluation first.
pub open spec fn by_value(k: K, m: Mode) -> bool {
    k.nbe && !m.eager
}

/// The mode in which every check starts.
pub open spec fn start_mode() -> Mode {
    Mode { infer_only: false, eager: false, keep_prop_major: false }
}

/// The mode with checked arguments taken for granted.
pub open spec fn infer_only_mode(m: Mode) -> Mode {
    Mode { infer_only: true, ..m }
}

/// The mode in which evaluation is not used.
pub open spec fn eager_mode(m: Mode) -> Mode {
    Mode { eager: true, ..m }
}

/// The mode in which evaluation leaves recursors on proofs of recursive
/// propositions alone.
pub open spec fn keep_major_mode(m: Mode) -> Mode {
    Mode { keep_prop_major: true, ..m }
}

impl Mode {
    /// The mode in which every check starts.
    pub fn start() -> (r: Mode)
        ensures
            r == start_mode(),
    {
        Mode { infer_only: false, eager: false, keep_prop_major: false }
    }

    /// The mode with checked arguments taken for granted.
    pub fn inferring(self) -> (r: Mode)
        ensures
            r == infer_only_mode(self),
    {
        Mode { infer_only: true, eager: self.eager, keep_prop_major: self.keep_prop_major }
    }

    /// The mode in which evaluation is not used.
    pub fn eagerly(self) -> (r: Mode)
        ensures
            r == eager_mode(self),
    {
        Mode { infer_only: self.infer_only, eager: true, keep_prop_major: self.keep_prop_major }
    }

    /// The mode in which evaluation leaves recursors on proofs of recursive
    /// propositions alone.
    pub fn keeping_majors(self) -> (r: Mode)
        ensures
            r == keep_major_mode(self),
    {
        Mode { infer_only: self.infer_only, eager: self.eager, keep_prop_major: true }
    }
}

/// The mathematical reading of a fallible result.
pub type Res<T> = Result<T, Fault>;

/// The judgements at some budget.
pub struct Sem {
    /// Whether there is no budget left for core reduction.
    pub core_spent: bool,
    pub whnf: spec_fn(Mode, Seq<Term>, Term) -> Res<Term>,
    pub core: spec_fn(Mode, Seq<Term>, Term) -> Res<Term>,
    pub infer: spec_fn(Mode, Seq<Term>, Term) -> Res<Term>,
    pub defeq: spec_fn(Mode, Seq<Term>, Term, Term) -> Res<bool>,
    pub defeq_core: spec_fn(Mode, Seq<Term>, Term, Term) -> Res<bool>,
    pub is_prop: spec_fn(Mode, Seq<Term>, Term) -> Res<bool>,
    pub closed_int: spec_fn(Mode, Seq<Term>, Term) -> Res<Option<int>>,
    pub eval: spec_fn(Mode, Seq<Thk>, Term) -> Res<Val>,
    pub quote: spec_fn(Mode, u32, Val) -> Res<Term>,
    pub val_eq: spec_fn(Mode, u32, Val, Val) -> Res<bool>,
    pub infer_val: spec_fn(Mode, Seq<Term>, Seq<Thk>, Seq<Thk>, Term) -> Res<Val>,
}

impl<'e> Checker<'e> {
    /// A checker over an environment, with the names of its constants and those
    /// of the types that literals have.
    pub fn new(
        env: &'e Environment,
        names: &'e [Rc<String>],
        nat_ref: Option<u32>,
        string_ref: Option<u32>,
    ) -> (r: Checker<'e>)
        ensures
            r@ == (K {
                env: env@,
                names: names.deep_view(),
                nat_ref,
                string_ref,
                declaring: None,
                nbe: false,
                theorem_delta: true,
                theorem_scope: true,
                verbose: false,
                print_budget: PRINT_BUDGET,
            }),
            r.budget == full_budget(),
    {
        Checker {
            env,
            names,
            nat_ref,
            string_ref,
            declaring: None,
            nbe: false,
            theorem_delta: true,
            theorem_scope: true,
            verbose: false,
            print_budget: PRINT_BUDGET,
            budget: Budget::full(),
        }
    }
}

} // verus!
