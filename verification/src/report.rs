//! The messages for types that do not match. A verbose checker shows both sides.

use crate::ctx::Ctx;
use crate::errors::{Fault, TcError};
use crate::expr::{Expr, Term};
use crate::infer::infer_eager;
use crate::judge::sem_at;
use crate::kernel::{Budget, Checker, K, Mode, Res, Sem};
use crate::pp::{debug_text, quoted, term_text};
use crate::text::join;
use crate::value::{Val, Value};
use vstd::prelude::*;
use vstd::string::*;

verus! {

/// How much of a declaration's types a message shows.
pub const DECL_BUDGET: u32 = 40;

/// The head normal form of a term, or the term where it has none.
pub open spec fn reduced_or_self(s: Sem, m: Mode, ctx: Seq<Term>, e: Term) -> Term {
    match (s.whnf)(m, ctx, e) {
        Ok(w) => w,
        Err(_) => e,
    }
}

/// A value as a term, or else another term.
pub open spec fn quoted_or(s: Sem, m: Mode, depth: u32, v: Val, e: Term) -> Term {
    match (s.quote)(m, depth, v) {
        Ok(t) => t,
        Err(_) => e,
    }
}

/// The printed form of a fault.
pub open spec fn fault_text(f: Fault) -> Seq<char> {
    match f {
        Fault::Reject(t) => "Reject("@ + quoted(t) + ")"@,
        Fault::Decline(t) => "Decline("@ + quoted(t) + ")"@,
        Fault::Other(t) => "Other("@ + quoted(t) + ")"@,
    }
}

/// The printed form of a type that reduction alone infers.
pub open spec fn eager_text(k: K, t: Res<Term>, budget: nat) -> Seq<char> {
    match t {
        Ok(e) => term_text(k, e, budget),
        Err(f) => "<eager infer failed: "@ + fault_text(f) + ">"@,
    }
}

/// What is said of an argument whose type is not the domain.
#[verifier::opaque]
pub open spec fn argument_text(
    k: K,
    s: Sem,
    m: Mode,
    ctx: Seq<Term>,
    f: Term,
    a: Term,
    at: Term,
    dom: Term,
) -> Seq<char> {
    let b = k.print_budget as nat;
    if k.verbose {
        "application argument type mismatch"@ + "\n  got:      "@ + term_text(k, at, b)
            + "\n  expected: "@ + term_text(k, dom, b) + "\n  got_whnf: "@ + term_text(
            k,
            reduced_or_self(s, m, ctx, at),
            b,
        ) + "\n  exp_whnf: "@ + term_text(k, reduced_or_self(s, m, ctx, dom), b)
            + "\n  fun:      "@ + term_text(k, f, b) + "\n  arg:      "@ + term_text(k, a, b)
    } else {
        "application argument type mismatch"@
    }
}

/// What is said of an argument whose type, as a value, is not the domain.
#[verifier::opaque]
pub open spec fn value_argument_text(
    k: K,
    s: Sem,
    m: Mode,
    ctx: Seq<Term>,
    depth: u32,
    f: Term,
    a: Term,
    at: Val,
    dom: Val,
) -> Seq<char> {
    let b = k.print_budget as nat;
    if k.verbose {
        "application argument type mismatch (nbe)"@ + "\n  got:      "@ + term_text(
            k,
            quoted_or(s, m, depth, at, a),
            b,
        ) + "\n  expected: "@ + term_text(k, quoted_or(s, m, depth, dom, a), b)
            + "\n  eager_at: "@ + eager_text(k, infer_eager(k, s, m, ctx, a), b)
            + "\n  fun:      "@ + term_text(k, f, b) + "\n  arg:      "@ + term_text(k, a, b)
    } else {
        "application argument type mismatch (nbe)"@
    }
}

/// What a message about a value of the wrong type goes on with.
#[verifier::opaque]
pub open spec fn sides_text(k: K, s: Sem, m: Mode, value: Term, vt: Term, typ: Term) -> Seq<char> {
    let b = DECL_BUDGET as nat;
    let none = Seq::<Term>::empty();
    if k.verbose {
        "\n  got:      "@ + term_text(k, vt, b) + "\n  expected: "@ + term_text(k, typ, b)
            + "\n  got_whnf: "@ + term_text(k, reduced_or_self(s, m, none, vt), b)
            + "\n  exp_whnf: "@ + term_text(k, reduced_or_self(s, m, none, typ), b)
            + "\n  eager_vt: "@ + eager_text(k, infer_eager(k, s, m, none, value), b)
    } else {
        Seq::empty()
    }
}

fn show_fault(e: &TcError) -> (r: String)
    ensures
        r@ == fault_text(e@),
{
    let (name, text) = match e {
        TcError::Reject(t) => ("Reject(", t),
        TcError::Decline(t) => ("Decline(", t),
        TcError::Other(t) => ("Other(", t),
    };
    let mut s = join(name, debug_text(text.as_str()).as_str());
    s.append(")");
    s
}

impl<'e> Checker<'e> {
    fn reduced_or_same(&self, g: Budget, m: Mode, ctx: &Ctx, e: &Expr) -> (r: Expr)
        ensures
            r@ == reduced_or_self(sem_at(self@, g), m, ctx@, e@),
        decreases g.total(), 1int, 0int,
    {
        match self.whnf_at(g, m, ctx, e) {
            Ok(w) => w,
            Err(_) => e.clone(),
        }
    }

    fn quoted_or_same(&self, g: Budget, m: Mode, depth: u32, v: &Value, e: &Expr) -> (r: Expr)
        ensures
            r@ == quoted_or(sem_at(self@, g), m, depth, v@, e@),
        decreases g.total(), 1int, 0int,
    {
        match self.quote_at(g, m, depth, v) {
            Ok(t) => t,
            Err(_) => e.clone(),
        }
    }

    fn show_eager(&self, g: Budget, m: Mode, ctx: &Ctx, e: &Expr, budget: u32) -> (r: String)
        ensures
            r@ == eager_text(
                self@,
                infer_eager(self@, sem_at(self@, g), m, ctx@, e@),
                budget as nat,
            ),
        decreases g.total(), 7int, 0int,
    {
        match self.infer_eager_at(g, m, ctx, e) {
            Ok(t) => self.pp_budget(&t, budget),
            Err(f) => {
                let mut s = join("<eager infer failed: ", show_fault(&f).as_str());
                s.append(">");
                s
            },
        }
    }

    /// What is said of an argument whose type is not the domain.
    pub(crate) fn argument_message(
        &self,
        g: Budget,
        m: Mode,
        ctx: &Ctx,
        f: &Expr,
        a: &Expr,
        at: &Expr,
        dom: &Expr,
    ) -> (r: String)
        ensures
            r@ == argument_text(
                self@,
                sem_at(self@, g),
                m,
                ctx@,
                f@,
                a@,
                at@,
                dom@,
            ),
        decreases g.total(), 2int, 0int,
    {
        proof {
            reveal(argument_text);
        }
        if !self.verbose {
            return "application argument type mismatch".to_owned();
        }
        let mut s = join("application argument type mismatch", "\n  got:      ");
        s.append(self.pp(at).as_str());
        s.append("\n  expected: ");
        s.append(self.pp(dom).as_str());
        s.append("\n  got_whnf: ");
        s.append(self.pp(&self.reduced_or_same(g, m, ctx, at)).as_str());
        s.append("\n  exp_whnf: ");
        s.append(self.pp(&self.reduced_or_same(g, m, ctx, dom)).as_str());
        s.append("\n  fun:      ");
        s.append(self.pp(f).as_str());
        s.append("\n  arg:      ");
        s.append(self.pp(a).as_str());
        s
    }

    /// What is said of an argument whose type, as a value, is not the domain.
    pub(crate) fn value_argument_message(
        &self,
        g: Budget,
        m: Mode,
        ctx: &Ctx,
        depth: u32,
        f: &Expr,
        a: &Expr,
        at: &Value,
        dom: &Value,
    ) -> (r: String)
        ensures
            r@ == value_argument_text(
                self@,
                sem_at(self@, g),
                m,
                ctx@,
                depth,
                f@,
                a@,
                at@,
                dom@,
            ),
        decreases g.total(), 8int, 0int,
    {
        proof {
            reveal(value_argument_text);
        }
        if !self.verbose {
            return "application argument type mismatch (nbe)".to_owned();
        }
        let mut s = join("application argument type mismatch (nbe)", "\n  got:      ");
        s.append(self.pp(&self.quoted_or_same(g, m, depth, at, a)).as_str());
        s.append("\n  expected: ");
        s.append(self.pp(&self.quoted_or_same(g, m, depth, dom, a)).as_str());
        s.append("\n  eager_at: ");
        s.append(self.show_eager(g, m, ctx, a, self.print_budget).as_str());
        s.append("\n  fun:      ");
        s.append(self.pp(f).as_str());
        s.append("\n  arg:      ");
        s.append(self.pp(a).as_str());
        s
    }

    /// What a message about a value of the wrong type goes on with.
    pub(crate) fn sides_message(&self, m: Mode, value: &Expr, vt: &Expr, typ: &Expr) -> (r: String)
        ensures
            r@ == sides_text(
                self@,
                sem_at(self@, self.budget),
                m,
                value@,
                vt@,
                typ@,
            ),
    {
        proof {
            reveal(sides_text);
        }
        if !self.verbose {
            let s = String::new();
            assert(s@ =~= Seq::<char>::empty());
            return s;
        }
        let g = self.budget;
        let empty = Ctx::new();
        assert(empty@ =~= Seq::<Term>::empty());
        let mut s = join("\n  got:      ", self.pp_budget(vt, DECL_BUDGET).as_str());
        s.append("\n  expected: ");
        s.append(self.pp_budget(typ, DECL_BUDGET).as_str());
        s.append("\n  got_whnf: ");
        s.append(self.pp_budget(&self.reduced_or_same(g, m, &empty, vt), DECL_BUDGET).as_str());
        s.append("\n  exp_whnf: ");
        s.append(self.pp_budget(&self.reduced_or_same(g, m, &empty, typ), DECL_BUDGET).as_str());
        s.append("\n  eager_vt: ");
        s.append(self.show_eager(g, m, &empty, value, DECL_BUDGET).as_str());
        s
    }
}

} // verus!
