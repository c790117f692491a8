//! How moving variables, replacing variables and replacing universe parameters go
//! together.

use crate::expr::{lift, names_param, plug, plug1, subst_params, uses_bvar, Term};
use crate::level::{last_index, subst_domain, univ_mentions, univ_subst, univs_subst, Univ};
use vstd::prelude::*;

verus! {

/// Every variable in the term, bound or loose, can be moved up by as many places.
pub open spec fn has_room(t: Term, n: nat) -> bool
    decreases t,
{
    match t {
        Term::BVar(i) => i + n <= u32::MAX,
        Term::App(f, a) => has_room(*f, n) && has_room(*a, n),
        Term::Lam(_, ty, b) => has_room(*ty, n) && has_room(*b, n),
        Term::Pi(_, ty, b) => has_room(*ty, n) && has_room(*b, n),
        Term::Let(ty, v, b) => has_room(*ty, n) && has_room(*v, n) && has_room(*b, n),
        Term::Proj(_, _, v) => has_room(*v, n),
        _ => true,
    }
}

/// Replacing variables that were just made room for gives the term back.
pub proof fn law_plug_undoes_lift(t: Term, args: Seq<Term>, d: nat)
    requires
        has_room(t, args.len()),
    ensures
        plug(lift(t, args.len() as int, d), args, d) == t,
    decreases t,
{
    match t {
        Term::App(f, a) => {
            law_plug_undoes_lift(*f, args, d);
            law_plug_undoes_lift(*a, args, d);
        },
        Term::Lam(_, ty, b) => {
            law_plug_undoes_lift(*ty, args, d);
            law_plug_undoes_lift(*b, args, d + 1);
        },
        Term::Pi(_, ty, b) => {
            law_plug_undoes_lift(*ty, args, d);
            law_plug_undoes_lift(*b, args, d + 1);
        },
        Term::Let(ty, v, b) => {
            law_plug_undoes_lift(*ty, args, d);
            law_plug_undoes_lift(*v, args, d);
            law_plug_undoes_lift(*b, args, d + 1);
        },
        Term::Proj(_, _, v) => law_plug_undoes_lift(*v, args, d),
        _ => {},
    }
}

/// Moving variables twice is moving them by the sum.
pub proof fn law_lift_twice(t: Term, x: nat, y: nat, d: nat)
    requires
        has_room(t, x + y),
    ensures
        lift(lift(t, x as int, d), y as int, d) == lift(t, (x + y) as int, d),
    decreases t,
{
    match t {
        Term::App(f, a) => {
            law_lift_twice(*f, x, y, d);
            law_lift_twice(*a, x, y, d);
        },
        Term::Lam(_, ty, b) => {
            law_lift_twice(*ty, x, y, d);
            law_lift_twice(*b, x, y, d + 1);
        },
        Term::Pi(_, ty, b) => {
            law_lift_twice(*ty, x, y, d);
            law_lift_twice(*b, x, y, d + 1);
        },
        Term::Let(ty, v, b) => {
            law_lift_twice(*ty, x, y, d);
            law_lift_twice(*v, x, y, d);
            law_lift_twice(*b, x, y, d + 1);
        },
        Term::Proj(_, _, v) => law_lift_twice(*v, x, y, d),
        _ => {},
    }
}

/// Which variables a moved term has: those below the cut as they were, and the
/// others so many places further on.
pub proof fn law_lifted_variables(t: Term, by: nat, cut: nat, j: nat)
    requires
        has_room(t, by),
    ensures
        uses_bvar(lift(t, by as int, cut), j) <==> (j < cut && uses_bvar(t, j)) || (j >= cut + by
            && uses_bvar(t, (j - by) as nat)),
    decreases t,
{
    match t {
        Term::App(f, a) => {
            law_lifted_variables(*f, by, cut, j);
            law_lifted_variables(*a, by, cut, j);
        },
        Term::Lam(_, ty, b) => {
            law_lifted_variables(*ty, by, cut, j);
            law_lifted_variables(*b, by, cut + 1, j + 1);
        },
        Term::Pi(_, ty, b) => {
            law_lifted_variables(*ty, by, cut, j);
            law_lifted_variables(*b, by, cut + 1, j + 1);
        },
        Term::Let(ty, v, b) => {
            law_lifted_variables(*ty, by, cut, j);
            law_lifted_variables(*v, by, cut, j);
            law_lifted_variables(*b, by, cut + 1, j + 1);
        },
        Term::Proj(_, _, v) => law_lifted_variables(*v, by, cut, j),
        _ => {},
    }
}

/// The number of binders that the term has nested.
pub open spec fn nesting(t: Term) -> nat
    decreases t,
{
    match t {
        Term::App(f, a) => larger(nesting(*f), nesting(*a)),
        Term::Lam(_, ty, b) => larger(nesting(*ty), nesting(*b) + 1),
        Term::Pi(_, ty, b) => larger(nesting(*ty), nesting(*b) + 1),
        Term::Let(ty, v, b) => larger(larger(nesting(*ty), nesting(*v)), nesting(*b) + 1),
        Term::Proj(_, _, v) => nesting(*v),
        _ => 0,
    }
}

/// The larger of two numbers.
pub open spec fn larger(a: nat, b: nat) -> nat {
    if a >= b {
        a
    } else {
        b
    }
}

proof fn lemma_less_room(t: Term, n: nat, k: nat)
    requires
        has_room(t, n),
        k <= n,
    ensures
        has_room(t, k),
    decreases t,
{
    match t {
        Term::App(f, a) => {
            lemma_less_room(*f, n, k);
            lemma_less_room(*a, n, k);
        },
        Term::Lam(_, ty, b) => {
            lemma_less_room(*ty, n, k);
            lemma_less_room(*b, n, k);
        },
        Term::Pi(_, ty, b) => {
            lemma_less_room(*ty, n, k);
            lemma_less_room(*b, n, k);
        },
        Term::Let(ty, v, b) => {
            lemma_less_room(*ty, n, k);
            lemma_less_room(*v, n, k);
            lemma_less_room(*b, n, k);
        },
        Term::Proj(_, _, v) => lemma_less_room(*v, n, k),
        _ => {},
    }
}

/// Which variables a term has once a variable is replaced: those that were below it
/// stay, those beyond it are one place nearer, and where it occurred, the
/// variables of the argument are there, so many places further on as there are
/// binders in between.
pub proof fn law_replaced_variables(t: Term, a: Term, d: nat, j: nat)
    requires
        has_room(a, d + nesting(t)),
    ensures
        uses_bvar(plug(t, seq![a], d), j) <==> (j < d && uses_bvar(t, j)) || (j >= d && uses_bvar(
            t,
            j + 1,
        )) || (uses_bvar(t, d) && j >= d && uses_bvar(a, (j - d) as nat)),
    decreases t,
{
    match t {
        Term::BVar(i) => {
            if i as nat == d {
                lemma_less_room(a, d + nesting(t), d);
                law_lifted_variables(a, d, 0, j);
                assert(seq![a][i - d] == a);
            }
        },
        Term::App(f, x) => {
            lemma_less_room(a, d + nesting(t), d + nesting(*f));
            lemma_less_room(a, d + nesting(t), d + nesting(*x));
            law_replaced_variables(*f, a, d, j);
            law_replaced_variables(*x, a, d, j);
        },
        Term::Lam(_, ty, b) => {
            lemma_less_room(a, d + nesting(t), d + nesting(*ty));
            lemma_less_room(a, d + nesting(t), d + 1 + nesting(*b));
            law_replaced_variables(*ty, a, d, j);
            law_replaced_variables(*b, a, d + 1, j + 1);
        },
        Term::Pi(_, ty, b) => {
            lemma_less_room(a, d + nesting(t), d + nesting(*ty));
            lemma_less_room(a, d + nesting(t), d + 1 + nesting(*b));
            law_replaced_variables(*ty, a, d, j);
            law_replaced_variables(*b, a, d + 1, j + 1);
        },
        Term::Let(ty, v, b) => {
            lemma_less_room(a, d + nesting(t), d + nesting(*ty));
            lemma_less_room(a, d + nesting(t), d + nesting(*v));
            lemma_less_room(a, d + nesting(t), d + 1 + nesting(*b));
            law_replaced_variables(*ty, a, d, j);
            law_replaced_variables(*v, a, d, j);
            law_replaced_variables(*b, a, d + 1, j + 1);
        },
        Term::Proj(_, _, v) => law_replaced_variables(*v, a, d, j),
        _ => {},
    }
}

/// Replacing the variable of a body that is nothing but that variable gives the
/// argument.
pub proof fn law_replaced_variable(a: Term)
    ensures
        plug1(Term::BVar(0), a) == a,
{
    crate::expr::law_lift_zero(a, 0);
    assert(seq![a][0] == a);
}

/// The universe parameters as levels.
pub open spec fn as_levels(ps: Seq<u32>) -> Seq<Univ> {
    Seq::new(ps.len(), |i: int| Univ::Param(ps[i]))
}

proof fn lemma_last_index(ps: Seq<u32>, p: u32)
    ensures
        last_index(ps, p) matches Some(i) ==> 0 <= i < ps.len() && ps[i] == p,
        last_index(ps, p) is None ==> !ps.contains(p),
    decreases ps.len(),
{
    if ps.len() > 0 {
        lemma_last_index(ps.drop_last(), p);
        if ps.contains(p) && ps.last() != p {
            let i = choose|i: int| 0 <= i < ps.len() && ps[i] == p;
            assert(ps.drop_last()[i] == p);
        }
    }
}

proof fn lemma_same_levels(l: Univ, ps: Seq<u32>)
    ensures
        univ_subst(l, ps, as_levels(ps)) == l,
    decreases l,
{
    match l {
        Univ::Succ(a) => lemma_same_levels(*a, ps),
        Univ::Max(a, b) => {
            lemma_same_levels(*a, ps);
            lemma_same_levels(*b, ps);
        },
        Univ::IMax(a, b) => {
            lemma_same_levels(*a, ps);
            lemma_same_levels(*b, ps);
        },
        Univ::Param(p) => {
            lemma_last_index(subst_domain(ps, as_levels(ps)), p);
            assert(subst_domain(ps, as_levels(ps)) =~= ps);
        },
        _ => {},
    }
}

proof fn lemma_same_level_list(us: Seq<Univ>, ps: Seq<u32>)
    ensures
        univs_subst(us, ps, as_levels(ps)) == us,
{
    assert forall|i: int| 0 <= i < us.len() implies univ_subst(us[i], ps, as_levels(ps)) == us[i] by {
        lemma_same_levels(us[i], ps);
    }
    assert(univs_subst(us, ps, as_levels(ps)) =~= us);
}

/// Replacing universe parameters by themselves leaves a term alone.
pub proof fn law_same_parameters(t: Term, ps: Seq<u32>)
    ensures
        subst_params(t, ps, as_levels(ps)) == t,
    decreases t,
{
    match t {
        Term::Sort(l) => lemma_same_levels(l, ps),
        Term::Const(_, us) => lemma_same_level_list(us, ps),
        Term::App(f, a) => {
            law_same_parameters(*f, ps);
            law_same_parameters(*a, ps);
        },
        Term::Lam(_, ty, b) => {
            law_same_parameters(*ty, ps);
            law_same_parameters(*b, ps);
        },
        Term::Pi(_, ty, b) => {
            law_same_parameters(*ty, ps);
            law_same_parameters(*b, ps);
        },
        Term::Let(ty, v, b) => {
            law_same_parameters(*ty, ps);
            law_same_parameters(*v, ps);
            law_same_parameters(*b, ps);
        },
        Term::Proj(_, _, v) => law_same_parameters(*v, ps),
        _ => {},
    }
}

/// The parameter occurs in one of the levels.
pub open spec fn some_mentions(us: Seq<Univ>, p: u32) -> bool {
    exists|i: int| 0 <= i < us.len() && univ_mentions(#[trigger] us[i], p)
}

proof fn lemma_replaced_in_level(l: Univ, ps: Seq<u32>, us: Seq<Univ>, p: u32)
    requires
        ps.len() == us.len(),
        ps.contains(p),
        !some_mentions(us, p),
    ensures
        !univ_mentions(univ_subst(l, ps, us), p),
    decreases l,
{
    match l {
        Univ::Succ(a) => lemma_replaced_in_level(*a, ps, us, p),
        Univ::Max(a, b) => {
            lemma_replaced_in_level(*a, ps, us, p);
            lemma_replaced_in_level(*b, ps, us, p);
        },
        Univ::IMax(a, b) => {
            lemma_replaced_in_level(*a, ps, us, p);
            lemma_replaced_in_level(*b, ps, us, p);
        },
        Univ::Param(q) => {
            assert(subst_domain(ps, us) =~= ps);
            lemma_last_index(ps, q);
            match last_index(ps, q) {
                Some(i) => {
                    assert(!univ_mentions(us[i], p));
                },
                None => {},
            }
        },
        _ => {},
    }
}

/// A universe parameter that is replaced by levels without it does not occur in the
/// term any more.
pub proof fn law_replaced_parameter(t: Term, ps: Seq<u32>, us: Seq<Univ>, p: u32)
    requires
        ps.len() == us.len(),
        ps.contains(p),
        !some_mentions(us, p),
    ensures
        !names_param(subst_params(t, ps, us), p),
    decreases t,
{
    match t {
        Term::Sort(l) => lemma_replaced_in_level(l, ps, us, p),
        Term::Const(_, ls) => {
            let r = univs_subst(ls, ps, us);
            assert forall|i: int| 0 <= i < r.len() implies !univ_mentions(#[trigger] r[i], p) by {
                lemma_replaced_in_level(ls[i], ps, us, p);
            }
        },
        Term::App(f, a) => {
            law_replaced_parameter(*f, ps, us, p);
            law_replaced_parameter(*a, ps, us, p);
        },
        Term::Lam(_, ty, b) => {
            law_replaced_parameter(*ty, ps, us, p);
            law_replaced_parameter(*b, ps, us, p);
        },
        Term::Pi(_, ty, b) => {
            law_replaced_parameter(*ty, ps, us, p);
            law_replaced_parameter(*b, ps, us, p);
        },
        Term::Let(ty, v, b) => {
            law_replaced_parameter(*ty, ps, us, p);
            law_replaced_parameter(*v, ps, us, p);
            law_replaced_parameter(*b, ps, us, p);
        },
        Term::Proj(_, _, v) => law_replaced_parameter(*v, ps, us, p),
        _ => {},
    }
}

} // verus!
