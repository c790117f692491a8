//! Declarations and the environment that holds them.

use crate::expr::{Expr, Term};
use std::collections::HashMap;
use vstd::prelude::*;
use vstd::std_specs::hash::*;

verus! {

/// How eagerly a definition unfolds.
#[derive(Clone, Copy, Debug, PartialEq, Eq, Structural)]
pub enum ReducibilityHints {
    Opaque,
    Abbrev,
    Regular(u32),
}

/// Which of the quotient primitives a constant is.
#[derive(Clone, Copy, Debug, PartialEq, Eq, Structural)]
pub enum QuotKind {
    Type,
    Ctor,
    Lift,
    Ind,
}

/// A reduction rule as an export states it. The right-hand side is carried along
/// and never consulted.
pub struct RecRule {
    pub ctor: u32,
    pub nfields: u32,
    pub rhs: Expr,
}

/// A declared constant.
pub enum ConstantInfo {
    Axiom { level_params: Vec<u32>, typ: Expr, is_unsafe: bool },
    Def {
        level_params: Vec<u32>,
        typ: Expr,
        value: Expr,
        hints: ReducibilityHints,
        is_unsafe: bool,
    },
    Theorem { level_params: Vec<u32>, typ: Expr, value: Expr },
    Opaque { level_params: Vec<u32>, typ: Expr, value: Expr, is_unsafe: bool },
    Quot { level_params: Vec<u32>, typ: Expr, kind: QuotKind },
    InductiveType {
        level_params: Vec<u32>,
        typ: Expr,
        num_params: u32,
        num_indices: u32,
        all: Vec<u32>,
        ctors: Vec<u32>,
        is_rec: bool,
        is_unsafe: bool,
    },
    Constructor {
        level_params: Vec<u32>,
        typ: Expr,
        induct: u32,
        cidx: u32,
        num_params: u32,
        num_fields: u32,
        is_unsafe: bool,
    },
    Recursor {
        level_params: Vec<u32>,
        typ: Expr,
        all: Vec<u32>,
        num_params: u32,
        num_indices: u32,
        num_motives: u32,
        num_minors: u32,
        rules: Vec<RecRule>,
        k: bool,
        is_unsafe: bool,
    },
}

/// The mathematical reading of a [`ConstantInfo`]: what the judgements read of
/// it. A recursor's rules come down to the constructors that they are for.
pub enum Info {
    Axiom { level_params: Seq<u32>, typ: Term },
    Def { level_params: Seq<u32>, typ: Term, value: Term, hints: ReducibilityHints },
    Theorem { level_params: Seq<u32>, typ: Term, value: Term },
    Opaque { level_params: Seq<u32>, typ: Term, value: Term },
    Quot { level_params: Seq<u32>, typ: Term, kind: QuotKind },
    InductiveType {
        level_params: Seq<u32>,
        typ: Term,
        num_params: u32,
        num_indices: u32,
        all: Seq<u32>,
        ctors: Seq<u32>,
        is_rec: bool,
    },
    Constructor {
        level_params: Seq<u32>,
        typ: Term,
        induct: u32,
        num_params: u32,
        num_fields: u32,
    },
    Recursor {
        level_params: Seq<u32>,
        typ: Term,
        all: Seq<u32>,
        num_params: u32,
        num_indices: u32,
        num_motives: u32,
        num_minors: u32,
        ctors: Seq<u32>,
    },
}

/// The constructors that a recursor has rules for, in order.
pub open spec fn rule_ctors(rules: Seq<RecRule>) -> Seq<u32> {
    Seq::new(rules.len(), |i: int| rules[i].ctor)
}

impl View for ConstantInfo {
    type V = Info;

    open spec fn view(&self) -> Info {
        match self {
            ConstantInfo::Axiom { level_params, typ, .. } => Info::Axiom {
                level_params: level_params@,
                typ: typ@,
            },
            ConstantInfo::Def { level_params, typ, value, hints, .. } => Info::Def {
                level_params: level_params@,
                typ: typ@,
                value: value@,
                hints: *hints,
            },
            ConstantInfo::Theorem { level_params, typ, value } => Info::Theorem {
                level_params: level_params@,
                typ: typ@,
                value: value@,
            },
            ConstantInfo::Opaque { level_params, typ, value, .. } => Info::Opaque {
                level_params: level_params@,
                typ: typ@,
                value: value@,
            },
            ConstantInfo::Quot { level_params, typ, kind } => Info::Quot {
                level_params: level_params@,
                typ: typ@,
                kind: *kind,
            },
            ConstantInfo::InductiveType {
                level_params,
                typ,
                num_params,
                num_indices,
                all,
                ctors,
                is_rec,
                ..
            } => Info::InductiveType {
                level_params: level_params@,
                typ: typ@,
                num_params: *num_params,
                num_indices: *num_indices,
                all: all@,
                ctors: ctors@,
                is_rec: *is_rec,
            },
            ConstantInfo::Constructor {
                level_params,
                typ,
                induct,
                num_params,
                num_fields,
                ..
            } => Info::Constructor {
                level_params: level_params@,
                typ: typ@,
                induct: *induct,
                num_params: *num_params,
                num_fields: *num_fields,
            },
            ConstantInfo::Recursor {
                level_params,
                typ,
                all,
                num_params,
                num_indices,
                num_motives,
                num_minors,
                rules,
                ..
            } => Info::Recursor {
                level_params: level_params@,
                typ: typ@,
                all: all@,
                num_params: *num_params,
                num_indices: *num_indices,
                num_motives: *num_motives,
                num_minors: *num_minors,
                ctors: rule_ctors(rules@),
            },
        }
    }
}

/// The universe parameters of a declaration.
pub open spec fn info_params(i: Info) -> Seq<u32> {
    match i {
        Info::Axiom { level_params, .. } => level_params,
        Info::Def { level_params, .. } => level_params,
        Info::Theorem { level_params, .. } => level_params,
        Info::Opaque { level_params, .. } => level_params,
        Info::Quot { level_params, .. } => level_params,
        Info::InductiveType { level_params, .. } => level_params,
        Info::Constructor { level_params, .. } => level_params,
        Info::Recursor { level_params, .. } => level_params,
    }
}

/// The type of a declaration.
pub open spec fn info_type(i: Info) -> Term {
    match i {
        Info::Axiom { typ, .. } => typ,
        Info::Def { typ, .. } => typ,
        Info::Theorem { typ, .. } => typ,
        Info::Opaque { typ, .. } => typ,
        Info::Quot { typ, .. } => typ,
        Info::InductiveType { typ, .. } => typ,
        Info::Constructor { typ, .. } => typ,
        Info::Recursor { typ, .. } => typ,
    }
}

/// The value of a declaration that has one.
pub open spec fn info_value(i: Info) -> Option<Term> {
    match i {
        Info::Def { value, .. } => Some(value),
        Info::Theorem { value, .. } => Some(value),
        Info::Opaque { value, .. } => Some(value),
        _ => None,
    }
}

impl ConstantInfo {
    /// The universe parameters.
    pub fn level_params(&self) -> (r: &Vec<u32>)
        ensures
            r@ == info_params(self@),
    {
        match self {
            ConstantInfo::Axiom { level_params, .. } => level_params,
            ConstantInfo::Def { level_params, .. } => level_params,
            ConstantInfo::Theorem { level_params, .. } => level_params,
            ConstantInfo::Opaque { level_params, .. } => level_params,
            ConstantInfo::Quot { level_params, .. } => level_params,
            ConstantInfo::InductiveType { level_params, .. } => level_params,
            ConstantInfo::Constructor { level_params, .. } => level_params,
            ConstantInfo::Recursor { level_params, .. } => level_params,
        }
    }

    /// The type.
    pub fn typ(&self) -> (r: &Expr)
        ensures
            r@ == info_type(self@),
    {
        match self {
            ConstantInfo::Axiom { typ, .. } => typ,
            ConstantInfo::Def { typ, .. } => typ,
            ConstantInfo::Theorem { typ, .. } => typ,
            ConstantInfo::Opaque { typ, .. } => typ,
            ConstantInfo::Quot { typ, .. } => typ,
            ConstantInfo::InductiveType { typ, .. } => typ,
            ConstantInfo::Constructor { typ, .. } => typ,
            ConstantInfo::Recursor { typ, .. } => typ,
        }
    }

    /// The value, if there is one.
    pub fn value(&self) -> (r: Option<&Expr>)
        ensures
            match r {
                Some(v) => info_value(self@) == Some(v@),
                None => info_value(self@) is None,
            },
    {
        match self {
            ConstantInfo::Def { value, .. } => Some(value),
            ConstantInfo::Theorem { value, .. } => Some(value),
            ConstantInfo::Opaque { value, .. } => Some(value),
            _ => None,
        }
    }
}

/// The mathematical reading of an [`Environment`].
pub struct Env {
    pub consts: Map<u32, Info>,
    pub rec_of: Map<u32, u32>,
    pub rec_group: Map<u32, Seq<u32>>,
}

/// What an environment declares under a name.
pub open spec fn find(env: Env, n: u32) -> Option<Info> {
    if env.consts.contains_key(n) {
        Some(env.consts[n])
    } else {
        None
    }
}

/// The recursor that belongs to an inductive type, if one is registered.
pub open spec fn rec_of(env: Env, n: u32) -> Option<u32> {
    if env.rec_of.contains_key(n) {
        Some(env.rec_of[n])
    } else {
        None
    }
}

/// The recursors that were declared together with a recursor: itself alone
/// where nothing is registered.
pub open spec fn group_of(env: Env, n: u32) -> Seq<u32> {
    if env.rec_group.contains_key(n) {
        env.rec_group[n]
    } else {
        seq![n]
    }
}

/// The declared constants, with what ties recursors to their types.
pub struct Environment {
    consts: HashMap<u32, ConstantInfo>,
    rec_of: HashMap<u32, u32>,
    rec_group: HashMap<u32, Vec<u32>>,
}

impl View for Environment {
    type V = Env;

    closed spec fn view(&self) -> Env {
        Env {
            consts: self.consts@.map_values(|c: ConstantInfo| c@),
            rec_of: self.rec_of@,
            rec_group: self.rec_group@.map_values(|g: Vec<u32>| g@),
        }
    }
}

impl Environment {
    /// The environment without declarations.
    pub fn new() -> (r: Environment)
        ensures
            r@.consts =~= (Map::<u32, Info>::empty()),
            r@.rec_of =~= (Map::<u32, u32>::empty()),
            r@.rec_group =~= (Map::<u32, Seq<u32>>::empty()),
    {
        broadcast use group_hash_axioms;

        Environment { consts: HashMap::new(), rec_of: HashMap::new(), rec_group: HashMap::new() }
    }

    /// Declares a constant.
    pub fn insert(&mut self, n: u32, info: ConstantInfo)
        ensures
            final(self)@.consts =~= old(self)@.consts.insert(n, info@),
            final(self)@.rec_of == old(self)@.rec_of,
            final(self)@.rec_group == old(self)@.rec_group,
    {
        broadcast use group_hash_axioms;

        self.consts.insert(n, info);
    }

    /// Registers the recursor of an inductive type.
    pub fn set_rec_of(&mut self, ind: u32, rec: u32)
        ensures
            final(self)@.consts == old(self)@.consts,
            final(self)@.rec_of =~= old(self)@.rec_of.insert(ind, rec),
            final(self)@.rec_group == old(self)@.rec_group,
    {
        broadcast use group_hash_axioms;

        self.rec_of.insert(ind, rec);
    }

    /// Registers the recursors that were declared together with a recursor.
    pub fn set_rec_group(&mut self, rec: u32, group: Vec<u32>)
        ensures
            final(self)@.consts == old(self)@.consts,
            final(self)@.rec_of == old(self)@.rec_of,
            final(self)@.rec_group =~= old(self)@.rec_group.insert(rec, group@),
    {
        broadcast use group_hash_axioms;

        self.rec_group.insert(rec, group);
    }

    /// What is declared under a name.
    pub fn get(&self, n: u32) -> (r: Option<&ConstantInfo>)
        ensures
            match r {
                Some(i) => find(self@, n) == Some(i@),
                None => find(self@, n) is None,
            },
    {
        broadcast use group_hash_axioms;

        self.consts.get(&n)
    }

    /// The recursor that belongs to an inductive type.
    pub fn recursor_of(&self, n: u32) -> (r: Option<u32>)
        ensures
            r == rec_of(self@, n),
    {
        broadcast use group_hash_axioms;

        match self.rec_of.get(&n) {
            Some(r) => Some(*r),
            None => None,
        }
    }

    /// The recursors that were declared together with a recursor.
    pub fn recursor_group(&self, n: u32) -> (r: Vec<u32>)
        ensures
            r@ == group_of(self@, n),
    {
        broadcast use group_hash_axioms;

        match self.rec_group.get(&n) {
            Some(g) => {
                let r = g.clone();
                assert(r@ =~= g@);
                r
            },
            None => {
                let mut r: Vec<u32> = Vec::new();
                r.push(n);
                assert(r@ =~= seq![n]);
                r
            },
        }
    }
}

impl Default for Environment {
    fn default() -> (r: Environment)
        ensures
            r@.consts =~= (Map::<u32, Info>::empty()),
            r@.rec_of =~= (Map::<u32, u32>::empty()),
            r@.rec_group =~= (Map::<u32, Seq<u32>>::empty()),
    {
        Environment::new()
    }
}

/// The `k` flag of a recursor and the right-hand sides and field counts of its
/// rules have no bearing on what a recursor is taken to be: two that differ in
/// nothing else have the same meaning, and so does every judgement.
pub proof fn law_recursor_metadata_ignored(a: ConstantInfo, b: ConstantInfo)
    requires
        a matches ConstantInfo::Recursor {
            level_params: lp1,
            typ: t1,
            all: all1,
            num_params: np1,
            num_indices: ni1,
            num_motives: nm1,
            num_minors: nn1,
            rules: r1,
            ..
        } && b matches ConstantInfo::Recursor {
            level_params: lp2,
            typ: t2,
            all: all2,
            num_params: np2,
            num_indices: ni2,
            num_motives: nm2,
            num_minors: nn2,
            rules: r2,
            ..
        } && lp1@ == lp2@ && t1@ == t2@ && all1@ == all2@ && np1 == np2 && ni1 == ni2 && nm1 == nm2
            && nn1 == nn2 && rule_ctors(r1@) == rule_ctors(r2@),
    ensures
        a@ == b@,
{
}

} // verus!
