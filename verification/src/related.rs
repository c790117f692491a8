//! The definitions that a theorem's statement speaks of.

use crate::env::{find, ConstantInfo, Info};
use crate::expr::{
    expr_size_capped, spine_args, spine_head, tree_size, unfold_apps, Expr, ExprData, Term,
};
use crate::iota::has_id;
use crate::kernel::{Checker, K};
use crate::lookup::{ends_in_prop, peel_pis};
use vstd::prelude::*;

verus! {

/// The number of parts of a term that are looked at.
pub const RELATED_STEPS: u32 = 200_000;

/// The number of function types that are looked through for a statement.
pub const RELATED_BINDERS: usize = 64;

/// The size from which on a definition is left out.
pub const RELATED_SIZE: u32 = 4_000;

/// Whether a constant is a definition.
pub open spec fn is_definition(k: K, n: u32) -> bool {
    find(k.env, n) matches Some(Info::Def { .. })
}

/// The list with a number at its end, unless it is there already.
pub open spec fn push_new(v: Seq<u32>, x: u32) -> Seq<u32> {
    if v.contains(x) {
        v
    } else {
        v.push(x)
    }
}

/// The definitions in the terms of a stack, the topmost first, behind those
/// collected; at most `n` parts are looked at.
pub open spec fn defs_in(k: K, stack: Seq<Term>, out: Seq<u32>, n: nat) -> Seq<u32>
    decreases n,
{
    if n == 0 || stack.len() == 0 {
        out
    } else {
        let rest = stack.drop_last();
        let n1 = (n - 1) as nat;
        match stack.last() {
            Term::Const(c, _) => defs_in(
                k,
                rest,
                if is_definition(k, c) {
                    push_new(out, c)
                } else {
                    out
                },
                n1,
            ),
            Term::App(f, a) => defs_in(k, rest.push(*f).push(*a), out, n1),
            Term::Lam(_, t, b) => defs_in(k, rest.push(*t).push(*b), out, n1),
            Term::Pi(_, t, b) => defs_in(k, rest.push(*t).push(*b), out, n1),
            Term::Let(t, v, b) => defs_in(k, rest.push(*t).push(*v).push(*b), out, n1),
            Term::Proj(_, _, v) => defs_in(k, rest.push(*v), out, n1),
            _ => defs_in(k, rest, out, n1),
        }
    }
}

/// The definitions in a term.
pub open spec fn defs_of(k: K, e: Term) -> Seq<u32> {
    defs_in(k, seq![e], Seq::empty(), RELATED_STEPS as nat)
}

/// Whether a constant is not a definition of a large body.
pub open spec fn is_small_def(k: K, n: u32) -> bool {
    match find(k.env, n) {
        Some(Info::Def { value, .. }) => tree_size(value) < RELATED_SIZE,
        _ => true,
    }
}

/// The list with the small ones of others from position `i` on at its end.
pub open spec fn with_small(k: K, out: Seq<u32>, more: Seq<u32>, i: nat) -> Seq<u32>
    decreases more.len() - i,
{
    if i >= more.len() {
        out
    } else {
        with_small(
            k,
            if is_small_def(k, more[i as int]) {
                push_new(out, more[i as int])
            } else {
                out
            },
            more,
            i + 1,
        )
    }
}

/// The list with the small definitions in the bodies of others from position `i`
/// on at its end.
pub open spec fn with_bodies(k: K, out: Seq<u32>, heads: Seq<u32>, i: nat) -> Seq<u32>
    decreases heads.len() - i,
{
    if i >= heads.len() {
        out
    } else {
        match find(k.env, heads[i as int]) {
            Some(Info::Def { value, .. }) => with_bodies(
                k,
                with_small(k, out, defs_of(k, value), 0),
                heads,
                i + 1,
            ),
            _ => with_bodies(k, out, heads, i + 1),
        }
    }
}

/// The definitions that head the arguments from position `i` on, behind those
/// collected.
pub open spec fn argument_heads(k: K, args: Seq<Term>, i: nat, out: Seq<u32>) -> Seq<u32>
    decreases args.len() - i,
{
    if i >= args.len() {
        out
    } else {
        match spine_head(args[i as int]) {
            Term::Const(c, _) => argument_heads(
                k,
                args,
                i + 1,
                if is_definition(k, c) {
                    push_new(out, c)
                } else {
                    out
                },
            ),
            _ => argument_heads(k, args, i + 1, out),
        }
    }
}

/// Whether a statement is an instance of an indexed proposition with one
/// constructor, as an equation is.
pub open spec fn is_equation(k: K, t: Term) -> bool {
    match spine_head(t) {
        Term::Const(c, _) => match find(k.env, c) {
            Some(Info::InductiveType { ctors, num_indices, typ, .. }) => ctors.len() == 1
                && num_indices != 0 && ends_in_prop(typ),
            _ => false,
        },
        _ => false,
    }
}

/// The definitions that head the sides of an equation, and those together with
/// the small ones that the statement and their bodies mention.
pub open spec fn related_spec(k: K, typ: Term, out: Seq<u32>) -> (Seq<u32>, Seq<u32>) {
    let t = peel_pis(typ, RELATED_BINDERS as nat);
    if is_equation(k, t) {
        let heads = argument_heads(k, spine_args(t), 0, out);
        let near = with_small(k, heads, defs_of(k, typ), 0);
        (heads, with_bodies(k, near, near, 0))
    } else {
        (Seq::empty(), out)
    }
}

fn peel_binders(t: &Expr, n: usize) -> (r: &Expr)
    ensures
        r@ == peel_pis(t@, n as nat),
    decreases n,
{
    if n == 0 {
        return t;
    }
    match t.data() {
        ExprData::Pi(_, _, b) => peel_binders(b, n - 1),
        _ => t,
    }
}

fn add_new(v: &mut Vec<u32>, x: u32)
    ensures
        final(v)@ == push_new(old(v)@, x),
{
    if !has_id(v, x) {
        v.push(x);
    }
}

impl<'e> Checker<'e> {
    fn is_def(&self, n: u32) -> (r: bool)
        ensures
            r == is_definition(self@, n),
    {
        match self.env.get(n) {
            Some(ConstantInfo::Def { .. }) => true,
            _ => false,
        }
    }

    /// The definitions in a term.
    pub fn collect_def_consts(&self, e: &Expr) -> (r: Vec<u32>)
        ensures
            r@ == defs_of(self@, e@),
    {
        let mut stack = vec![e.clone()];
        let mut out: Vec<u32> = Vec::new();
        let mut left: u32 = RELATED_STEPS;
        assert(stack.deep_view() =~= seq![e@]);
        assert(out@ =~= Seq::<u32>::empty());
        while left > 0
            invariant
                left <= RELATED_STEPS,
                defs_in(self@, stack.deep_view(), out@, left as nat) == defs_of(self@, e@),
            decreases left,
        {
            let ghost before = stack.deep_view();
            assert(before.len() == stack.len());
            let x = match stack.pop() {
                Some(x) => x,
                None => {
                    return out;
                },
            };
            let ghost rest = before.drop_last();
            assert(stack.deep_view() =~= rest);
            assert(before.last() == x@);
            match x.data() {
                ExprData::Const(c, _) => {
                    if self.is_def(*c) {
                        add_new(&mut out, *c);
                    }
                },
                ExprData::App(f, a) => {
                    stack.push(f.clone());
                    stack.push(a.clone());
                    assert(stack.deep_view() =~= rest.push(f@).push(a@));
                },
                ExprData::Lam(_, t, b) => {
                    stack.push(t.clone());
                    stack.push(b.clone());
                    assert(stack.deep_view() =~= rest.push(t@).push(b@));
                },
                ExprData::Pi(_, t, b) => {
                    stack.push(t.clone());
                    stack.push(b.clone());
                    assert(stack.deep_view() =~= rest.push(t@).push(b@));
                },
                ExprData::Let(t, v, b) => {
                    stack.push(t.clone());
                    stack.push(v.clone());
                    stack.push(b.clone());
                    assert(stack.deep_view() =~= rest.push(t@).push(v@).push(b@));
                },
                ExprData::Proj(_, _, v) => {
                    stack.push(v.clone());
                    assert(stack.deep_view() =~= rest.push(v@));
                },
                _ => {},
            }
            left = left - 1;
        }
        out
    }

    fn is_small(&self, n: u32) -> (r: bool)
        ensures
            r == is_small_def(self@, n),
    {
        match self.env.get(n) {
            Some(ConstantInfo::Def { value, .. }) => expr_size_capped(value, RELATED_SIZE)
                < RELATED_SIZE,
            _ => true,
        }
    }

    fn add_small(&self, out: &mut Vec<u32>, more: &Vec<u32>)
        ensures
            final(out)@ == with_small(self@, old(out)@, more@, 0),
    {
        let ghost start = out@;
        let mut i: usize = 0;
        while i < more.len()
            invariant
                i <= more.len(),
                with_small(self@, out@, more@, i as nat) == with_small(self@, start, more@, 0),
            decreases more.len() - i,
        {
            if self.is_small(more[i]) {
                add_new(out, more[i]);
            }
            i = i + 1;
        }
    }

    fn find_argument_heads(&self, args: &Vec<Expr>, out: &mut Vec<u32>)
        ensures
            final(out)@ == argument_heads(self@, args.deep_view(), 0, old(out)@),
    {
        let ghost start = out@;
        let ghost av = args.deep_view();
        let mut i: usize = 0;
        while i < args.len()
            invariant
                i <= args.len(),
                av == args.deep_view(),
                argument_heads(self@, av, i as nat, out@) == argument_heads(self@, av, 0, start),
            decreases args.len() - i,
        {
            let (head, _) = unfold_apps(&args[i]);
            match head.data() {
                ExprData::Const(c, _) => {
                    if self.is_def(*c) {
                        add_new(out, *c);
                    }
                },
                _ => {},
            }
            i = i + 1;
        }
    }

    /// Adds to a list the definitions that head the sides of an equation and the
    /// small ones that the statement and their bodies mention; what heads the
    /// sides is returned.
    pub fn fill_eq_related_defs(&self, typ: &Expr, out: &mut Vec<u32>) -> (r: Vec<u32>)
        ensures
            (r@, final(out)@) == related_spec(self@, typ@, old(out)@),
    {
        let t = peel_binders(typ, RELATED_BINDERS);
        let (head, args) = unfold_apps(t);
        let equation = match head.data() {
            ExprData::Const(c, _) => match self.env.get(*c) {
                Some(
                    ConstantInfo::InductiveType { ctors, num_indices, typ: ity, .. },
                ) => ctors.len() == 1 && *num_indices != 0 && self.sort_codomain_is_prop(ity),
                _ => false,
            },
            _ => false,
        };
        if !equation {
            let none: Vec<u32> = Vec::new();
            assert(none@ =~= Seq::<u32>::empty());
            return none;
        }
        self.find_argument_heads(&args, out);
        let heads = out.clone();
        assert(heads@ =~= out@);
        let mentioned = self.collect_def_consts(typ);
        self.add_small(out, &mentioned);
        let near = out.clone();
        assert(near@ =~= out@);
        let ghost start = out@;
        let mut i: usize = 0;
        while i < near.len()
            invariant
                i <= near.len(),
                with_bodies(self@, out@, near@, i as nat) == with_bodies(self@, start, near@, 0),
            decreases near.len() - i,
        {
            match self.env.get(near[i]) {
                Some(ConstantInfo::Def { value, .. }) => {
                    let nested = self.collect_def_consts(value);
                    self.add_small(out, &nested);
                },
                _ => {},
            }
            i = i + 1;
        }
        heads
    }
}

} // verus!
