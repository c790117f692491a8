//! What can be read off the environment alone: shapes of declarations,
//! unfolding, and the types of constants and literals.

use crate::env::{find, info_params, info_type, ConstantInfo, Env, Info, ReducibilityHints};
use crate::errors::{decline, other, reject, res, Fault, R};
use crate::expr::{
    app_head, apps, const_, instantiate1, instantiate_level_params, mk_apps, plug1, spine_args,
    spine_head, subst_params, unfold_apps, Expr, ExprData, Lit, LitT, Term,
};
use crate::kernel::{Checker, Res, K, STEP_LIMIT};
use crate::level::{
    is_def_eq, is_not_zero, subst, univ_eq, univ_positive, univ_subst, zero, Level, Univ,
};
use crate::num::{decimal, Natural};
use crate::text::join;
use std::rc::Rc;
use vstd::prelude::*;

verus! {

/// The name of a constant, or a question mark where it has none.
pub open spec fn name_of(k: K, n: u32) -> Seq<char> {
    if n < k.names.len() && k.names[n as int].len() > 0 {
        k.names[n as int]
    } else {
        "?"@
    }
}

/// The constructors of the type of naturals.
pub open spec fn nat_ctors_spec(k: K) -> Option<(u32, u32)> {
    match k.nat_ref {
        None => None,
        Some(n) => match find(k.env, n) {
            Some(Info::InductiveType { ctors, .. }) => if ctors.len() == 2 {
                Some((ctors[0], ctors[1]))
            } else {
                None
            },
            _ => None,
        },
    }
}

/// Whether a type is a structure: one constructor, no indices, no recursion.
pub open spec fn is_structure(env: Env, n: u32) -> bool {
    match find(env, n) {
        Some(Info::InductiveType { ctors, num_indices, is_rec, .. }) => ctors.len() == 1
            && num_indices == 0 && !is_rec,
        _ => false,
    }
}

/// The number of fields of a type with one constructor.
pub open spec fn structure_fields(env: Env, n: u32) -> Option<u32> {
    match find(env, n) {
        Some(Info::InductiveType { ctors, .. }) => if ctors.len() == 1 {
            match find(env, ctors[0]) {
                Some(Info::Constructor { num_fields, .. }) => Some(num_fields),
                _ => None,
            }
        } else {
            None
        },
        _ => None,
    }
}

/// Whether a telescope ends in the universe of propositions.
pub open spec fn ends_in_prop(t: Term) -> bool
    decreases t,
{
    match t {
        Term::Pi(_, _, b) => ends_in_prop(*b),
        Term::Sort(l) => univ_eq(l, Univ::Zero),
        _ => false,
    }
}

/// Whether a telescope, at the given levels, ends in a universe that is not that
/// of propositions, whatever the parameters left are.
pub open spec fn ends_in_data(t: Term, ps: Seq<u32>, us: Seq<Univ>) -> bool
    decreases t,
{
    match t {
        Term::Pi(_, _, b) => ends_in_data(*b, ps, us),
        Term::Sort(l) => univ_positive(univ_subst(l, ps, us)),
        _ => false,
    }
}

/// Whether a telescope of exactly `n` binders ends in the universe of
/// propositions.
pub open spec fn ends_in_prop_after(t: Term, n: nat) -> bool
    decreases n,
{
    if n == 0 {
        match t {
            Term::Sort(l) => univ_eq(l, Univ::Zero),
            _ => false,
        }
    } else {
        match t {
            Term::Pi(_, _, b) => ends_in_prop_after(*b, (n - 1) as nat),
            _ => false,
        }
    }
}

/// Whether a term is seen not to be a proof without any inference.
pub open spec fn never_proof(env: Env, e: Term) -> bool {
    match e {
        Term::Sort(_) => true,
        Term::Pi(_, _, _) => true,
        Term::Lit(_) => true,
        _ => match spine_head(e) {
            Term::Const(n, us) => match find(env, n) {
                Some(Info::InductiveType { typ, num_params, .. }) => spine_args(e).len()
                    >= num_params && !ends_in_prop(typ),
                Some(Info::Constructor { induct, .. }) => match find(env, induct) {
                    Some(Info::InductiveType { typ, level_params, .. }) => ends_in_data(
                        typ,
                        level_params,
                        us,
                    ),
                    _ => false,
                },
                _ => false,
            },
            _ => false,
        },
    }
}

/// The value of a definition at the given levels. The constant under check has
/// none yet.
pub open spec fn unfold_def_spec(k: K, n: u32, us: Seq<Univ>) -> Option<Term> {
    if k.declaring == Some(n) {
        None
    } else {
        match find(k.env, n) {
            Some(Info::Def { level_params, value, .. }) => Some(
                subst_params(value, level_params, us),
            ),
            _ => None,
        }
    }
}

/// The value of a definition, or of a theorem where those unfold too. The constant
/// under check has none yet.
pub open spec fn unfold_delta_spec(k: K, n: u32, us: Seq<Univ>, theorems: bool) -> Option<Term> {
    match unfold_def_spec(k, n, us) {
        Some(v) => Some(v),
        None => if theorems && k.theorem_delta && k.declaring != Some(n) {
            match find(k.env, n) {
                Some(Info::Theorem { level_params, value, .. }) => Some(
                    subst_params(value, level_params, us),
                ),
                _ => None,
            }
        } else {
            None
        },
    }
}

/// How late a constant unfolds: the larger one of two goes first.
pub open spec fn def_height_spec(env: Env, n: u32) -> int {
    match find(env, n) {
        Some(Info::Def { hints, .. }) => match hints {
            ReducibilityHints::Opaque => -2,
            ReducibilityHints::Abbrev => i64::MAX - 1,
            ReducibilityHints::Regular(h) => h as int,
        },
        Some(Info::Theorem { .. }) => -1,
        _ => -2,
    }
}

/// Whether reduction to head normal form unfolds the constant: definitions alone
/// do. Theorems unfold where two terms are compared, and where a recursor looks at
/// its major premise.
pub open spec fn eager_unfolds(k: K, n: u32) -> bool {
    find(k.env, n) matches Some(Info::Def { .. })
}

/// Whether comparison unfolds the constant: it has a value that is there to be
/// unfolded.
pub open spec fn delta_reducible(k: K, n: u32) -> bool {
    k.declaring != Some(n) && match find(k.env, n) {
        Some(Info::Def { .. }) => true,
        Some(Info::Theorem { .. }) => k.theorem_delta && k.theorem_scope,
        _ => false,
    }
}

/// The type behind at most `n` binders.
pub open spec fn peel_pis(t: Term, n: nat) -> Term
    decreases n,
{
    if n == 0 {
        t
    } else {
        match t {
            Term::Pi(_, _, b) => peel_pis(*b, (n - 1) as nat),
            _ => t,
        }
    }
}

/// The number of binders that a type's target is looked for behind.
pub const PEEL_LIMIT: u32 = 64;

/// The inductive type that a telescope ends in.
pub open spec fn target_inductive(env: Env, typ: Term) -> Option<u32> {
    match spine_head(peel_pis(typ, PEEL_LIMIT as nat)) {
        Term::Const(n, _) => match find(env, n) {
            Some(Info::InductiveType { .. }) => Some(n),
            _ => None,
        },
        _ => None,
    }
}

/// Whether a telescope ends in a proposition with one constructor and no indices.
pub open spec fn targets_unit_prop(env: Env, typ: Term) -> bool {
    match target_inductive(env, typ) {
        Some(n) => match find(env, n) {
            Some(Info::InductiveType { ctors, num_indices, typ, .. }) => ctors.len() == 1
                && num_indices == 0 && ends_in_prop(typ),
            _ => false,
        },
        None => false,
    }
}

/// Whether a telescope ends in a proposition-valued class: one constructor with
/// at least two fields, no indices, at least five parameters.
pub open spec fn targets_class_prop(env: Env, typ: Term) -> bool {
    match target_inductive(env, typ) {
        Some(n) => match find(env, n) {
            Some(Info::InductiveType { ctors, num_indices, num_params, typ, .. }) => ctors.len()
                == 1 && num_indices == 0 && num_params >= 5 && ends_in_prop(typ) && (match find(
                env,
                ctors[0],
            ) {
                Some(Info::Constructor { num_fields, .. }) => num_fields >= 2,
                _ => false,
            }),
            _ => false,
        },
        None => false,
    }
}

/// Whether a telescope ends in a structure with at least three parameters and one
/// field.
pub open spec fn targets_packed(env: Env, typ: Term) -> bool {
    match target_inductive(env, typ) {
        Some(n) => match find(env, n) {
            Some(Info::InductiveType { ctors, num_indices, num_params, .. }) => ctors.len() == 1
                && num_indices == 0 && num_params >= 3 && (match find(env, ctors[0]) {
                Some(Info::Constructor { num_fields, .. }) => num_fields >= 1,
                _ => false,
            }),
            _ => false,
        },
        None => false,
    }
}

/// Whether a telescope ends in a proposition.
pub open spec fn targets_prop(env: Env, typ: Term) -> bool {
    match target_inductive(env, typ) {
        Some(n) => match find(env, n) {
            Some(Info::InductiveType { typ, .. }) => ends_in_prop(typ),
            _ => false,
        },
        None => false,
    }
}

/// Whether the head of a term is a constructor or a natural literal.
pub open spec fn ctor_headed(env: Env, e: Term) -> bool {
    match spine_head(e) {
        Term::Lit(LitT::Nat(_)) => true,
        Term::Const(n, _) => match find(env, n) {
            Some(Info::Constructor { .. }) => true,
            _ => false,
        },
        _ => false,
    }
}

/// Whether a recursor looks through theorems at its major premise: it belongs to
/// a recursive proposition.
pub open spec fn unfolds_thm_major(env: Env, rec: u32) -> bool {
    match find(env, rec) {
        Some(Info::Recursor { all, .. }) => if all.len() == 0 {
            false
        } else {
            match find(env, all[0]) {
                Some(Info::InductiveType { typ, is_rec, .. }) => is_rec && ends_in_prop(typ),
                _ => false,
            }
        },
        _ => false,
    }
}

/// Whether a term shows a redex that needs no unfolding.
pub open spec fn is_core_redex(e: Term) -> bool {
    match e {
        Term::Let(_, _, _) => true,
        Term::Proj(_, _, _) => true,
        Term::App(_, _) => match spine_head(e) {
            Term::Lam(_, _, _) => true,
            Term::Let(_, _, _) => true,
            Term::Proj(_, _, _) => true,
            _ => false,
        },
        _ => false,
    }
}

/// The term with its leading local definitions substituted, `n` at most.
pub open spec fn zeta(e: Term, n: nat) -> Term
    decreases n,
{
    match e {
        Term::Let(_, v, b) => if n == 0 {
            e
        } else {
            zeta(plug1(*b, *v), (n - 1) as nat)
        },
        _ => e,
    }
}

/// The term with its leading local definitions substituted.
pub open spec fn cheap_zeta_spec(e: Term) -> Term {
    zeta(e, STEP_LIMIT as nat)
}

/// The term with the definition at its head unfolded.
pub open spec fn unfold_head_spec(k: K, e: Term) -> Option<Term> {
    match spine_head(e) {
        Term::Const(n, us) => match unfold_def_spec(k, n, us) {
            Some(v) => Some(mk_apps(v, spine_args(e))),
            None => None,
        },
        _ => None,
    }
}

/// The term with the constant at its head unfolded for comparison.
pub open spec fn delta_step_spec(k: K, e: Term) -> Term {
    match spine_head(e) {
        Term::Const(n, us) => match unfold_delta_spec(k, n, us, k.theorem_scope) {
            Some(v) => mk_apps(v, spine_args(e)),
            None => e,
        },
        _ => e,
    }
}

/// The type of a constant at the given levels. The constant under check cannot
/// be referred to.
pub open spec fn infer_const_spec(k: K, n: u32, us: Seq<Univ>) -> Res<Term> {
    if k.declaring == Some(n) {
        Err(
            Fault::Reject(
                "`"@ + name_of(k, n)
                    + "` refers to itself; it is not in the environment until it is checked"@,
            ),
        )
    } else {
        match find(k.env, n) {
            None => Err(Fault::Other("unknown const "@ + decimal(n as nat))),
            Some(i) => if info_params(i).len() != us.len() {
                Err(Fault::Reject("universe param count mismatch"@))
            } else {
                Ok(subst_params(info_type(i), info_params(i), us))
            },
        }
    }
}

/// The type of natural literals.
pub open spec fn nat_type_spec(k: K) -> Res<Term> {
    match k.nat_ref {
        Some(n) => Ok(Term::Const(n, Seq::empty())),
        None => Err(Fault::Decline("Nat literal used but Nat type unavailable"@)),
    }
}

/// The type of string literals.
pub open spec fn string_type_spec(k: K) -> Res<Term> {
    match k.string_ref {
        Some(n) => Ok(Term::Const(n, Seq::empty())),
        None => Err(Fault::Decline("String literal used but String type unavailable"@)),
    }
}

/// A constant without universe arguments.
pub fn plain_const(n: u32) -> (r: Expr)
    ensures
        r@ == Term::Const(n, Seq::empty()),
{
    let us: Vec<Level> = Vec::new();
    assert(us.deep_view() =~= Seq::<Univ>::empty());
    const_(n, us)
}

fn type_ends_in_prop(t: &Expr) -> (r: bool)
    ensures
        r == ends_in_prop(t@),
    decreases t,
{
    match t.data() {
        ExprData::Pi(_, _, b) => type_ends_in_prop(b),
        ExprData::Sort(l) => is_def_eq(l, &zero()),
        _ => false,
    }
}

fn type_ends_in_data(t: &Expr, ps: &Vec<u32>, us: &Vec<Level>) -> (r: bool)
    ensures
        r == ends_in_data(t@, ps@, us.deep_view()),
    decreases t,
{
    match t.data() {
        ExprData::Pi(_, _, b) => type_ends_in_data(b, ps, us),
        ExprData::Sort(l) => is_not_zero(&subst(l, ps, us)),
        _ => false,
    }
}

fn type_ends_in_prop_after(t: &Expr, n: usize) -> (r: bool)
    ensures
        r == ends_in_prop_after(t@, n as nat),
    decreases n,
{
    if n == 0 {
        match t.data() {
            ExprData::Sort(l) => is_def_eq(l, &zero()),
            _ => false,
        }
    } else {
        match t.data() {
            ExprData::Pi(_, _, b) => type_ends_in_prop_after(b, n - 1),
            _ => false,
        }
    }
}

fn peel_binders(t: &Expr, n: u32) -> (r: &Expr)
    ensures
        r@ == peel_pis(t@, n as nat),
    decreases n,
{
    if n == 0 {
        t
    } else {
        match t.data() {
            ExprData::Pi(_, _, b) => peel_binders(b, n - 1),
            _ => t,
        }
    }
}

/// The term with its leading local definitions substituted.
pub fn cheap_zeta(e: &Expr) -> (r: Expr)
    ensures
        r@ == cheap_zeta_spec(e@),
{
    let mut cur = e.clone();
    let mut left: u32 = STEP_LIMIT;
    while left > 0
        invariant
            left <= STEP_LIMIT,
            zeta(cur@, left as nat) == zeta(e@, STEP_LIMIT as nat),
        decreases left,
    {
        let next = match cur.data() {
            ExprData::Let(_, v, b) => instantiate1(b, v),
            _ => {
                return cur;
            },
        };
        cur = next;
        left = left - 1;
    }
    cur
}

/// Whether a term shows a redex that needs no unfolding.
pub fn is_whnf_core_redex(e: &Expr) -> (r: bool)
    ensures
        r == is_core_redex(e@),
{
    match e.data() {
        ExprData::Let(_, _, _) => true,
        ExprData::Proj(_, _, _) => true,
        ExprData::App(_, _) => match app_head(e).data() {
            ExprData::Lam(_, _, _) => true,
            ExprData::Let(_, _, _) => true,
            ExprData::Proj(_, _, _) => true,
            _ => false,
        },
        _ => false,
    }
}

impl<'e> Checker<'e> {
    /// The name of a constant.
    pub fn name_str(&self, n: u32) -> (r: &str)
        ensures
            r@ == name_of(self@, n),
    {
        if (n as usize) < self.names.len() {
            let s: &Rc<String> = &self.names[n as usize];
            assert(self@.names[n as int] == (**s)@);
            let t: &str = s.as_str();
            if !t.is_empty() {
                return t;
            }
        }
        "?"
    }

    /// The constructors of the type of naturals.
    pub fn nat_ctors(&self) -> (r: Option<(u32, u32)>)
        ensures
            r == nat_ctors_spec(self@),
    {
        match self.nat_ref {
            None => None,
            Some(n) => match self.env.get(n) {
                Some(ConstantInfo::InductiveType { ctors, .. }) => if ctors.len() == 2 {
                    Some((ctors[0], ctors[1]))
                } else {
                    None
                },
                _ => None,
            },
        }
    }

    /// Whether a type is a structure.
    pub fn is_non_rec_structure(&self, n: u32) -> (r: bool)
        ensures
            r == is_structure(self@.env, n),
    {
        match self.env.get(n) {
            Some(ConstantInfo::InductiveType { ctors, num_indices, is_rec, .. }) => ctors.len()
                == 1 && *num_indices == 0 && !*is_rec,
            _ => false,
        }
    }

    /// The number of fields of a type with one constructor.
    pub fn structure_num_fields(&self, n: u32) -> (r: Option<u32>)
        ensures
            r == structure_fields(self@.env, n),
    {
        match self.env.get(n) {
            Some(ConstantInfo::InductiveType { ctors, .. }) => if ctors.len() == 1 {
                match self.env.get(ctors[0]) {
                    Some(ConstantInfo::Constructor { num_fields, .. }) => Some(*num_fields),
                    _ => None,
                }
            } else {
                None
            },
            _ => None,
        }
    }

    /// Whether a telescope of exactly `args` binders ends in the universe of
    /// propositions.
    pub fn telescope_codomain_is_prop(&self, typ: &Expr, args: usize) -> (r: bool)
        ensures
            r == ends_in_prop_after(typ@, args as nat),
    {
        type_ends_in_prop_after(typ, args)
    }

    /// Whether a telescope ends in the universe of propositions.
    pub fn sort_codomain_is_prop(&self, ty: &Expr) -> (r: bool)
        ensures
            r == ends_in_prop(ty@),
    {
        type_ends_in_prop(ty)
    }

    /// The declared type of a constant.
    pub fn const_typ(&self, n: u32) -> (r: Option<&Expr>)
        ensures
            match r {
                Some(t) => find(self@.env, n) matches Some(i) && info_type(i) == t@,
                None => find(self@.env, n) is None,
            },
    {
        match self.env.get(n) {
            Some(ci) => Some(ci.typ()),
            None => None,
        }
    }

    /// Whether a term is seen not to be a proof without any inference.
    pub fn obviously_not_proof(&self, e: &Expr) -> (r: bool)
        ensures
            r == never_proof(self@.env, e@),
    {
        match e.data() {
            ExprData::Sort(_) => true,
            ExprData::Pi(_, _, _) => true,
            ExprData::Lit(_) => true,
            _ => {
                let (h, args) = unfold_apps(e);
                assert(args.len() == args.deep_view().len());
                match h.data() {
                    ExprData::Const(n, us) => match self.env.get(*n) {
                        Some(ConstantInfo::InductiveType { typ, num_params, .. }) => args.len()
                            as u64 >= *num_params as u64 && !type_ends_in_prop(typ),
                        Some(ConstantInfo::Constructor { induct, .. }) => match self.env.get(
                            *induct,
                        ) {
                            Some(
                                ConstantInfo::InductiveType { typ, level_params, .. },
                            ) => type_ends_in_data(typ, level_params, us),
                            _ => false,
                        },
                        _ => false,
                    },
                    _ => false,
                }
            },
        }
    }

    fn is_declaring(&self, n: u32) -> (r: bool)
        ensures
            r == (self@.declaring == Some(n)),
    {
        match self.declaring {
            Some(d) => d == n,
            None => false,
        }
    }

    /// The value of a definition at the given levels.
    pub fn unfold_def(&self, n: u32, us: &Vec<Level>) -> (r: Option<Expr>)
        ensures
            r.deep_view() == unfold_def_spec(self@, n, us.deep_view()),
    {
        if self.is_declaring(n) {
            return None;
        }
        match self.env.get(n) {
            Some(ConstantInfo::Def { level_params, value, .. }) => Some(
                instantiate_level_params(value, level_params, us),
            ),
            _ => None,
        }
    }

    /// The value of a definition, or of a theorem where those unfold too. The constant
/// under check has none yet.
    pub fn unfold_delta(&self, n: u32, us: &Vec<Level>, theorems: bool) -> (r: Option<Expr>)
        ensures
            r.deep_view() == unfold_delta_spec(self@, n, us.deep_view(), theorems),
    {
        match self.unfold_def(n, us) {
            Some(v) => Some(v),
            None => {
                if !theorems || !self.theorem_delta || self.is_declaring(n) {
                    return None;
                }
                match self.env.get(n) {
                    Some(ConstantInfo::Theorem { level_params, value, .. }) => Some(
                        instantiate_level_params(value, level_params, us),
                    ),
                    _ => None,
                }
            },
        }
    }

    /// How late a constant unfolds.
    pub fn def_height(&self, n: u32) -> (r: i64)
        ensures
            r as int == def_height_spec(self@.env, n),
    {
        match self.env.get(n) {
            Some(ConstantInfo::Def { hints, .. }) => match hints {
                ReducibilityHints::Opaque => -2,
                ReducibilityHints::Abbrev => i64::MAX - 1,
                ReducibilityHints::Regular(h) => *h as i64,
            },
            Some(ConstantInfo::Theorem { .. }) => -1,
            _ => -2,
        }
    }

    /// Whether a constant's body may unfold where two terms have it as a head:
    /// its size never stands in the way.
    pub fn delta_body_is_small(&self, _n: u32) -> (r: bool)
        ensures
            r,
    {
        true
    }

    /// The inductive type that a telescope ends in.
    pub fn peel_to_inductive_head(&self, typ: &Expr) -> (r: Option<u32>)
        ensures
            r == target_inductive(self@.env, typ@),
    {
        match app_head(peel_binders(typ, PEEL_LIMIT)).data() {
            ExprData::Const(n, _) => match self.env.get(*n) {
                Some(ConstantInfo::InductiveType { .. }) => Some(*n),
                _ => None,
            },
            _ => None,
        }
    }

    /// Whether a telescope ends in a proposition with one constructor and no
    /// indices.
    pub fn type_is_unit_ctor_zero_index_prop(&self, typ: &Expr) -> (r: bool)
        ensures
            r == targets_unit_prop(self@.env, typ@),
    {
        match self.peel_to_inductive_head(typ) {
            None => false,
            Some(n) => match self.env.get(n) {
                Some(ConstantInfo::InductiveType { ctors, num_indices, typ, .. }) => ctors.len()
                    == 1 && *num_indices == 0 && type_ends_in_prop(typ),
                _ => false,
            },
        }
    }

    /// Whether a telescope ends in a proposition-valued class.
    pub fn type_is_multiarg_prop_structure(&self, typ: &Expr) -> (r: bool)
        ensures
            r == targets_class_prop(self@.env, typ@),
    {
        match self.peel_to_inductive_head(typ) {
            None => false,
            Some(n) => match self.env.get(n) {
                Some(ConstantInfo::InductiveType { ctors, num_indices, num_params, typ, .. }) => {
                    if ctors.len() != 1 || *num_indices != 0 || *num_params < 5 {
                        return false;
                    }
                    if !type_ends_in_prop(typ) {
                        return false;
                    }
                    match self.env.get(ctors[0]) {
                        Some(ConstantInfo::Constructor { num_fields, .. }) => *num_fields >= 2,
                        _ => false,
                    }
                },
                _ => false,
            },
        }
    }

    /// Whether a telescope ends in a structure with parameters and fields.
    pub fn type_is_packed_structure(&self, typ: &Expr) -> (r: bool)
        ensures
            r == targets_packed(self@.env, typ@),
    {
        match self.peel_to_inductive_head(typ) {
            None => false,
            Some(n) => match self.env.get(n) {
                Some(ConstantInfo::InductiveType { ctors, num_indices, num_params, .. }) => {
                    if ctors.len() != 1 || *num_indices != 0 || *num_params < 3 {
                        return false;
                    }
                    match self.env.get(ctors[0]) {
                        Some(ConstantInfo::Constructor { num_fields, .. }) => *num_fields >= 1,
                        _ => false,
                    }
                },
                _ => false,
            },
        }
    }

    /// Whether the type of a constant ends in a structure with parameters and
    /// fields.
    pub fn def_is_packed_structure(&self, n: u32) -> (r: bool)
        ensures
            r == match find(self@.env, n) {
                Some(i) => targets_packed(self@.env, info_type(i)),
                None => false,
            },
    {
        match self.env.get(n) {
            Some(ci) => self.type_is_packed_structure(ci.typ()),
            None => false,
        }
    }

    /// Whether a telescope ends in a proposition.
    pub fn type_targets_prop(&self, typ: &Expr) -> (r: bool)
        ensures
            r == targets_prop(self@.env, typ@),
    {
        match self.peel_to_inductive_head(typ) {
            None => false,
            Some(n) => match self.env.get(n) {
                Some(ConstantInfo::InductiveType { typ, .. }) => type_ends_in_prop(typ),
                _ => false,
            },
        }
    }

    /// Whether reduction to head normal form unfolds the constant.
    pub fn eager_whnf_unfolds(&self, n: u32) -> (r: bool)
        ensures
            r == eager_unfolds(self@, n),
    {
        match self.env.get(n) {
            Some(ConstantInfo::Def { .. }) => true,
            _ => false,
        }
    }

    /// Whether comparison unfolds the constant.
    pub fn is_delta_reducible(&self, n: u32) -> (r: bool)
        ensures
            r == delta_reducible(self@, n),
    {
        if self.is_declaring(n) {
            return false;
        }
        match self.env.get(n) {
            Some(ConstantInfo::Def { .. }) => true,
            Some(ConstantInfo::Theorem { .. }) => self.theorem_delta && self.theorem_scope
                && self.delta_body_is_small(n),
            _ => false,
        }
    }

    /// Whether the head of a term is a constructor or a natural literal.
    pub fn is_ctor_or_nat_lit_head(&self, e: &Expr) -> (r: bool)
        ensures
            r == ctor_headed(self@.env, e@),
    {
        match app_head(e).data() {
            ExprData::Lit(Lit::Nat(_)) => true,
            ExprData::Const(n, _) => match self.env.get(*n) {
                Some(ConstantInfo::Constructor { .. }) => true,
                _ => false,
            },
            _ => false,
        }
    }

    /// Whether a recursor looks through theorems at its major premise.
    pub fn recursor_unfolds_thm_major(&self, rec: u32) -> (r: bool)
        ensures
            r == unfolds_thm_major(self@.env, rec),
    {
        match self.env.get(rec) {
            Some(ConstantInfo::Recursor { all, .. }) => {
                if all.len() == 0 {
                    return false;
                }
                match self.env.get(all[0]) {
                    Some(ConstantInfo::InductiveType { typ, is_rec, .. }) => *is_rec
                        && type_ends_in_prop(typ),
                    _ => false,
                }
            },
            _ => false,
        }
    }

    /// The term with the definition at its head unfolded.
    pub fn try_unfold_const_head(&self, e: &Expr) -> (r: Option<Expr>)
        ensures
            r.deep_view() == unfold_head_spec(self@, e@),
    {
        let (h, args) = unfold_apps(e);
        match h.data() {
            ExprData::Const(n, us) => match self.unfold_def(*n, us) {
                Some(v) => Some(apps(v, &args)),
                None => None,
            },
            _ => None,
        }
    }

    /// The term with the constant at its head unfolded for comparison.
    pub fn delta_step(&self, e: &Expr) -> (r: Expr)
        ensures
            r@ == delta_step_spec(self@, e@),
    {
        let (h, args) = unfold_apps(e);
        match h.data() {
            ExprData::Const(n, us) => match self.unfold_delta(
                *n,
                us,
                self.theorem_scope && self.delta_body_is_small(*n),
            ) {
                Some(v) => apps(v, &args),
                None => e.clone(),
            },
            _ => e.clone(),
        }
    }

    /// The type of a constant at the given levels.
    pub fn infer_const(&self, n: u32, us: &Vec<Level>) -> (r: R<Expr>)
        ensures
            res(r) == infer_const_spec(self@, n, us.deep_view()),
    {
        match self.declaring {
            Some(d) => if d == n {
                let msg = join(
                    join("`", self.name_str(n)).as_str(),
                    "` refers to itself; it is not in the environment until it is checked",
                );
                return reject(msg.as_str());
            },
            None => {},
        }
        match self.env.get(n) {
            None => {
                let msg = join("unknown const ", Natural::from_u64(n as u64).show().as_str());
                other(msg.as_str())
            },
            Some(ci) => {
                let lp = ci.level_params();
                if lp.len() != us.len() {
                    return reject("universe param count mismatch");
                }
                Ok(instantiate_level_params(ci.typ(), lp, us))
            },
        }
    }

    /// The type of natural literals.
    pub fn nat_type(&self) -> (r: R<Expr>)
        ensures
            res(r) == nat_type_spec(self@),
    {
        match self.nat_ref {
            Some(n) => Ok(plain_const(n)),
            None => decline("Nat literal used but Nat type unavailable"),
        }
    }

    /// The type of string literals.
    pub fn string_type(&self) -> (r: R<Expr>)
        ensures
            res(r) == string_type_spec(self@),
    {
        match self.string_ref {
            Some(n) => Ok(plain_const(n)),
            None => decline("String literal used but String type unavailable"),
        }
    }
}

/// A declaration cannot refer to the constant that it declares: whatever the
/// levels, inferring the constant's type rejects, and it does not unfold.
pub proof fn law_no_self_reference(k: K, n: u32, us: Seq<Univ>)
    requires
        k.declaring == Some(n),
    ensures
        infer_const_spec(k, n, us) matches Err(Fault::Reject(_)),
        unfold_def_spec(k, n, us) is None,
        unfold_delta_spec(k, n, us, true) is None,
        !delta_reducible(k, n),
{
}

/// Definitions unfold to their value at the given levels, and so do theorems
/// where they are asked to and the checker lets them, unless the constant is
/// being declared.
pub proof fn law_unfolding(k: K, n: u32, us: Seq<Univ>)
    requires
        k.declaring != Some(n),
    ensures
        find(k.env, n) matches Some(Info::Def { level_params, value, .. }) ==> unfold_def_spec(
            k,
            n,
            us,
        ) == Some(subst_params(value, level_params, us)),
        find(k.env, n) matches Some(Info::Theorem { level_params, value, .. }) ==> (
        k.theorem_delta ==> unfold_delta_spec(k, n, us, true) == Some(
            subst_params(value, level_params, us),
        )),
{
}

/// A constant that comparison unfolds does have a value to unfold to.
pub proof fn law_reducible_unfolds(k: K, n: u32, us: Seq<Univ>)
    requires
        delta_reducible(k, n),
    ensures
        unfold_delta_spec(k, n, us, true) is Some,
{
}

} // verus!
