//! A printer for messages. It elides what lies deeper than its budget.

use crate::expr::{
    spine_args, spine_head, unfold_apps, Expr, ExprData, Lit, LitT, Term,
};
use crate::kernel::{Checker, K};
use crate::level::{Level, LevelData, Univ};
use crate::lookup::name_of;
use crate::num::{decimal, Natural};
use crate::text::{is_infix, join, str_contains};
use vstd::prelude::*;
use vstd::string::*;

verus! {

/// What `Debug` prints for a string: the string in double quotes, escaped.
pub uninterp spec fn quoted(s: Seq<char>) -> Seq<char>;

/// `Debug` of `str`: the quoted and escaped string, under a name of its own.
#[verifier::external_body]
pub(crate) fn debug_text(s: &str) -> (r: String)
    ensures
        r@ == quoted(s@),
{
    format!("{s:?}")
}

/// The printed form of a level.
pub open spec fn level_text(l: Univ) -> Seq<char>
    decreases l,
{
    match l {
        Univ::Zero => "0"@,
        Univ::Succ(a) => level_text(*a) + "+1"@,
        Univ::Max(a, b) => "max("@ + level_text(*a) + ","@ + level_text(*b) + ")"@,
        Univ::IMax(a, b) => "imax("@ + level_text(*a) + ","@ + level_text(*b) + ")"@,
        Univ::Param(p) => "u"@ + decimal(p as nat),
    }
}

/// The printed forms of the first `n` levels of a list, with commas between.
pub open spec fn levels_text(us: Seq<Univ>, n: nat) -> Seq<char>
    decreases n,
{
    if n == 0 {
        Seq::empty()
    } else if n == 1 {
        level_text(us[0])
    } else {
        levels_text(us, (n - 1) as nat) + ","@ + level_text(us[n - 1])
    }
}

/// The printed form of a term.
pub open spec fn term_text(k: K, e: Term, budget: nat) -> Seq<char>
    decreases budget, 0nat,
{
    if budget == 0 {
        "…"@
    } else {
        let b = (budget - 1) as nat;
        match e {
            Term::BVar(i) => "#"@ + decimal(i as nat),
            Term::Sort(l) => "Sort("@ + level_text(l) + ")"@,
            Term::Const(n, us) => if us.len() == 0 {
                name_of(k, n)
            } else {
                name_of(k, n) + " .{"@ + levels_text(us, us.len()) + "}"@
            },
            Term::App(_, _) => term_text(k, spine_head(e), b) + args_text(
                k,
                spine_args(e),
                spine_args(e).len(),
                b,
            ),
            Term::Lam(_, ty, body) => "(λ "@ + term_text(k, *ty, b) + ". "@ + term_text(
                k,
                *body,
                b,
            ) + ")"@,
            Term::Pi(_, ty, body) => "(Π "@ + term_text(k, *ty, b) + ". "@ + term_text(
                k,
                *body,
                b,
            ) + ")"@,
            Term::Let(ty, v, body) => "(let "@ + term_text(k, *ty, b) + " := "@ + term_text(
                k,
                *v,
                b,
            ) + "; "@ + term_text(k, *body, b) + ")"@,
            Term::Proj(s, i, v) => term_text(k, *v, b) + "."@ + decimal(i as nat) + "["@ + name_of(
                k,
                s,
            ) + "]"@,
            Term::Lit(LitT::Nat(n)) => decimal(n),
            Term::Lit(LitT::Str(s)) => quoted(s),
        }
    }
}

/// The printed forms of the first `n` arguments, each behind a space, in
/// brackets where they hold a space themselves.
pub open spec fn args_text(k: K, args: Seq<Term>, n: nat, budget: nat) -> Seq<char>
    decreases budget, n + 1,
{
    if n == 0 {
        Seq::empty()
    } else {
        let inner = term_text(k, args[n - 1], budget);
        args_text(k, args, (n - 1) as nat, budget) + (if is_infix(inner, " "@) {
            " ("@ + inner + ")"@
        } else {
            " "@ + inner
        })
    }
}

fn show_u32(n: u32) -> (r: String)
    ensures
        r@ == decimal(n as nat),
{
    Natural::from_u64(n as u64).show()
}

/// The printed form of a level.
pub fn pp_level(l: &Level) -> (r: String)
    ensures
        r@ == level_text(l@),
    decreases l,
{
    match l.data() {
        LevelData::Zero => "0".to_owned(),
        LevelData::Succ(a) => {
            let mut s = pp_level(a);
            s.append("+1");
            s
        },
        LevelData::Max(a, b) => {
            let mut s = join("max(", pp_level(a).as_str());
            s.append(",");
            s.append(pp_level(b).as_str());
            s.append(")");
            s
        },
        LevelData::IMax(a, b) => {
            let mut s = join("imax(", pp_level(a).as_str());
            s.append(",");
            s.append(pp_level(b).as_str());
            s.append(")");
            s
        },
        LevelData::Param(p) => join("u", show_u32(*p).as_str()),
    }
}

fn pp_levels(us: &Vec<Level>) -> (r: String)
    ensures
        r@ == levels_text(us.deep_view(), us.len() as nat),
{
    let mut s = String::new();
    let mut i: usize = 0;
    let ghost uv = us.deep_view();
    while i < us.len()
        invariant
            i <= us.len(),
            uv == us.deep_view(),
            s@ == levels_text(uv, i as nat),
        decreases us.len() - i,
    {
        let t = pp_level(&us[i]);
        if i == 0 {
            s = t;
        } else {
            s.append(",");
            s.append(t.as_str());
        }
        i = i + 1;
    }
    s
}

impl<'e> Checker<'e> {
    /// The printed form of a term.
    pub fn pp(&self, e: &Expr) -> (r: String)
        ensures
            r@ == term_text(self@, e@, self.print_budget as nat),
    {
        self.pp_budget(e, self.print_budget)
    }

    /// The printed form of a term, elided below the budget.
    pub fn pp_budget(&self, e: &Expr, budget: u32) -> (r: String)
        ensures
            r@ == term_text(self@, e@, budget as nat),
        decreases budget, 0nat,
    {
        if budget == 0 {
            return "…".to_owned();
        }
        match e.data() {
            ExprData::BVar(i) => join("#", show_u32(*i).as_str()),
            ExprData::Sort(l) => {
                let mut s = join("Sort(", pp_level(l).as_str());
                s.append(")");
                s
            },
            ExprData::Const(n, us) => {
                if us.len() == 0 {
                    self.name_str(*n).to_owned()
                } else {
                    let mut s = join(self.name_str(*n), " .{");
                    s.append(pp_levels(us).as_str());
                    s.append("}");
                    s
                }
            },
            ExprData::App(_, _) => {
                let (h, args) = unfold_apps(e);
                let mut s = self.pp_budget(&h, budget - 1);
                s.append(self.pp_args(&args, budget - 1).as_str());
                s
            },
            ExprData::Lam(_, ty, body) => {
                let mut s = join("(λ ", self.pp_budget(ty, budget - 1).as_str());
                s.append(". ");
                s.append(self.pp_budget(body, budget - 1).as_str());
                s.append(")");
                s
            },
            ExprData::Pi(_, ty, body) => {
                let mut s = join("(Π ", self.pp_budget(ty, budget - 1).as_str());
                s.append(". ");
                s.append(self.pp_budget(body, budget - 1).as_str());
                s.append(")");
                s
            },
            ExprData::Let(ty, v, body) => {
                let mut s = join("(let ", self.pp_budget(ty, budget - 1).as_str());
                s.append(" := ");
                s.append(self.pp_budget(v, budget - 1).as_str());
                s.append("; ");
                s.append(self.pp_budget(body, budget - 1).as_str());
                s.append(")");
                s
            },
            ExprData::Proj(n, i, v) => {
                let mut s = self.pp_budget(v, budget - 1);
                s.append(".");
                s.append(show_u32(*i).as_str());
                s.append("[");
                s.append(self.name_str(*n));
                s.append("]");
                s
            },
            ExprData::Lit(Lit::Nat(n)) => n.show(),
            ExprData::Lit(Lit::Str(t)) => debug_text(t.as_str()),
        }
    }

    fn pp_args(&self, args: &Vec<Expr>, budget: u32) -> (r: String)
        ensures
            r@ == args_text(self@, args.deep_view(), args.len() as nat, budget as nat),
        decreases budget, 1nat,
    {
        let mut s = String::new();
        let mut i: usize = 0;
        let ghost av = args.deep_view();
        while i < args.len()
            invariant
                i <= args.len(),
                av == args.deep_view(),
                s@ == args_text(self@, av, i as nat, budget as nat),
            decreases args.len() - i,
        {
            let inner = self.pp_budget(&args[i], budget);
            if str_contains(inner.as_str(), " ") {
                let mut t = join(" (", inner.as_str());
                t.append(")");
                s.append(t.as_str());
            } else {
                let t = join(" ", inner.as_str());
                s.append(t.as_str());
            }
            i = i + 1;
        }
        s
    }
}

} // verus!
