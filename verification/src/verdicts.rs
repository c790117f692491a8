//! A memory of verdicts. What one checker has said of two terms in a scope it says
//! again, in whichever order it is asked.

use crate::ctx::Ctx;
use crate::errors::{res, Fault, R};
use crate::expr::{rec_expr_eq, Expr, Term};
use crate::judge::sem_at;
use crate::kernel::{start_mode, Budget, Checker, K};
use vstd::prelude::*;

verus! {

/// A verdict on two terms in a scope.
pub struct Verdict {
    pub ctx: Ctx,
    pub a: Expr,
    pub b: Expr,
    pub same: bool,
}

/// The mathematical reading of a [`Verdict`].
pub struct VerdictT {
    pub ctx: Seq<Term>,
    pub a: Term,
    pub b: Term,
    pub same: bool,
}

impl DeepView for Verdict {
    type V = VerdictT;

    open spec fn deep_view(&self) -> VerdictT {
        VerdictT { ctx: self.ctx@, a: self.a@, b: self.b@, same: self.same }
    }
}

/// The verdicts of one checker, in the order in which they came.
pub struct Verdicts {
    entries: Vec<Verdict>,
}

impl View for Verdicts {
    type V = Seq<VerdictT>;

    closed spec fn view(&self) -> Seq<VerdictT> {
        self.entries.deep_view()
    }
}

/// Whether a verdict is on the two terms, in either order, in the scope.
pub open spec fn is_about(v: VerdictT, ctx: Seq<Term>, a: Term, b: Term) -> bool {
    v.ctx == ctx && ((v.a == a && v.b == b) || (v.a == b && v.b == a))
}

/// The first verdict on two terms from position `i` on.
pub open spec fn recalled(vs: Seq<VerdictT>, ctx: Seq<Term>, a: Term, b: Term, i: nat) -> Option<bool>
    decreases vs.len() - i,
{
    if i >= vs.len() {
        None
    } else if is_about(vs[i as int], ctx, a, b) {
        Some(vs[i as int].same)
    } else {
        recalled(vs, ctx, a, b, i + 1)
    }
}

proof fn lemma_recalled_swap(vs: Seq<VerdictT>, ctx: Seq<Term>, a: Term, b: Term, i: nat)
    ensures
        recalled(vs, ctx, a, b, i) == recalled(vs, ctx, b, a, i),
    decreases vs.len() - i,
{
    if i < vs.len() {
        lemma_recalled_swap(vs, ctx, a, b, i + 1);
    }
}

proof fn lemma_recalled_later(
    vs: Seq<VerdictT>,
    more: Seq<VerdictT>,
    ctx: Seq<Term>,
    a: Term,
    b: Term,
    i: nat,
)
    requires
        i <= vs.len(),
    ensures
        recalled(vs, ctx, a, b, i) is Some ==> recalled(vs + more, ctx, a, b, i) == recalled(
            vs,
            ctx,
            a,
            b,
            i,
        ),
        recalled(vs, ctx, a, b, i) is None ==> recalled(vs + more, ctx, a, b, i) == recalled(
            vs + more,
            ctx,
            a,
            b,
            vs.len(),
        ),
    decreases vs.len() - i,
{
    if i < vs.len() {
        assert((vs + more)[i as int] == vs[i as int]);
        lemma_recalled_later(vs, more, ctx, a, b, i + 1);
    }
}

/// Verdicts do not depend on the order in which the terms are given, and one that
/// is there stays, whatever comes in behind it.
pub proof fn law_verdicts_symmetric(
    vs: Seq<VerdictT>,
    more: Seq<VerdictT>,
    ctx: Seq<Term>,
    a: Term,
    b: Term,
    r: bool,
)
    requires
        recalled(vs, ctx, a, b, 0) == Some(r),
    ensures
        recalled(vs, ctx, b, a, 0) == Some(r),
        recalled(vs + more, ctx, a, b, 0) == Some(r),
        recalled(vs + more, ctx, b, a, 0) == Some(r),
{
    lemma_recalled_later(vs, more, ctx, a, b, 0);
    lemma_recalled_swap(vs, ctx, a, b, 0);
    lemma_recalled_swap(vs + more, ctx, a, b, 0);
}

/// Whether each verdict is the one that the judgement gives on its two terms, in
/// the order in which they came.
pub open spec fn verdicts_hold(k: K, g: Budget, vs: Seq<VerdictT>) -> bool {
    forall|i: int|
        0 <= i < vs.len() ==> (sem_at(k, g).defeq)(
            start_mode(),
            (#[trigger] vs[i]).ctx,
            vs[i].a,
            vs[i].b,
        ) == Ok::<bool, Fault>(vs[i].same)
}

/// A verdict that is recalled is one that the judgement gives on the two terms, in
/// one order or the other.
pub proof fn law_recalled_verdict(
    k: K,
    g: Budget,
    vs: Seq<VerdictT>,
    ctx: Seq<Term>,
    a: Term,
    b: Term,
    i: nat,
)
    requires
        verdicts_hold(k, g, vs),
    ensures
        recalled(vs, ctx, a, b, i) matches Some(same) ==> ((sem_at(k, g).defeq)(
            start_mode(),
            ctx,
            a,
            b,
        ) == Ok::<bool, Fault>(same) || (sem_at(k, g).defeq)(start_mode(), ctx, b, a) == Ok::<
            bool,
            Fault,
        >(same)),
    decreases vs.len() - i,
{
    if i < vs.len() {
        law_recalled_verdict(k, g, vs, ctx, a, b, i + 1);
    }
}

fn is_same_scope(a: &Ctx, b: &Ctx) -> (r: bool)
    ensures
        r == (a@ == b@),
{
    if a.len() != b.len() {
        return false;
    }
    let mut i: usize = 0;
    while i < a.len()
        invariant
            i <= a@.len(),
            a@.len() == b@.len(),
            forall|j: int| 0 <= j < i ==> a@[j] == b@[j],
        decreases a@.len() - i,
    {
        if !rec_expr_eq(a.at(i), b.at(i)) {
            return false;
        }
        i = i + 1;
    }
    assert(a@ =~= b@);
    true
}

impl Verdicts {
    /// A memory without verdicts.
    pub fn new() -> (r: Verdicts)
        ensures
            r@ == Seq::<VerdictT>::empty(),
    {
        let r = Verdicts { entries: Vec::new() };
        assert(r@ =~= Seq::<VerdictT>::empty());
        r
    }

    /// The verdict on two terms, if there is one.
    pub fn defeq_cache_get(&self, ctx: &Ctx, a: &Expr, b: &Expr) -> (r: Option<bool>)
        ensures
            r == recalled(self@, ctx@, a@, b@, 0),
    {
        let mut i: usize = 0;
        while i < self.entries.len()
            invariant
                i <= self.entries.len(),
                recalled(self@, ctx@, a@, b@, i as nat) == recalled(self@, ctx@, a@, b@, 0),
            decreases self.entries.len() - i,
        {
            let v = &self.entries[i];
            assert(self@[i as int] == v.deep_view());
            let straight = rec_expr_eq(&v.a, a) && rec_expr_eq(&v.b, b);
            let crossed = rec_expr_eq(&v.a, b) && rec_expr_eq(&v.b, a);
            if is_same_scope(&v.ctx, ctx) && (straight || crossed) {
                return Some(v.same);
            }
            i = i + 1;
        }
        None
    }

    /// Puts a verdict behind the others.
    pub fn defeq_cache_insert(&mut self, ctx: &Ctx, a: &Expr, b: &Expr, same: bool)
        ensures
            final(self)@ == old(self)@.push(VerdictT { ctx: ctx@, a: a@, b: b@, same }),
    {
        let ghost before = self@;
        self.entries.push(Verdict { ctx: ctx.clone(), a: a.clone(), b: b.clone(), same });
        assert(self@ =~= before.push(VerdictT { ctx: ctx@, a: a@, b: b@, same }));
    }
}

impl<'e> Checker<'e> {
    /// Whether two terms stand for the same thing, by an earlier verdict where
    /// there is one. A verdict that comes in is remembered.
    pub fn is_def_eq_recalling(&self, seen: &mut Verdicts, ctx: &Ctx, a: &Expr, b: &Expr) -> (r: R<
        bool,
    >)
        ensures
            match recalled(old(seen)@, ctx@, a@, b@, 0) {
                Some(same) => res(r) == Ok::<bool, Fault>(same) && final(seen)@ == old(seen)@,
                None => res(r) == (sem_at(self@, self.budget).defeq)(start_mode(), ctx@, a@, b@)
                    && final(seen)@ == (match r {
                    Ok(same) => old(seen)@.push(VerdictT { ctx: ctx@, a: a@, b: b@, same }),
                    Err(_) => old(seen)@,
                }),
            },
            r matches Ok(same) ==> recalled(final(seen)@, ctx@, a@, b@, 0) == Some(same)
                && recalled(final(seen)@, ctx@, b@, a@, 0) == Some(same),
            verdicts_hold(self@, self.budget, old(seen)@) ==> verdicts_hold(
                self@,
                self.budget,
                final(seen)@,
            ) && (res(r) == (sem_at(self@, self.budget).defeq)(start_mode(), ctx@, a@, b@) || res(
                r,
            ) == (sem_at(self@, self.budget).defeq)(start_mode(), ctx@, b@, a@)),
    {
        let ghost before = seen@;
        proof {
            lemma_recalled_swap(before, ctx@, a@, b@, 0);
            if verdicts_hold(self@, self.budget, before) {
                law_recalled_verdict(self@, self.budget, before, ctx@, a@, b@, 0);
            }
        }
        match seen.defeq_cache_get(ctx, a, b) {
            Some(same) => {
                return Ok(same);
            },
            None => {},
        }
        let same = self.is_def_eq(ctx, a, b)?;
        seen.defeq_cache_insert(ctx, a, b, same);
        proof {
            let v = VerdictT { ctx: ctx@, a: a@, b: b@, same };
            assert(before.push(v) =~= before + seq![v]);
            lemma_recalled_later(before, seq![v], ctx@, a@, b@, 0);
            lemma_recalled_swap(seen@, ctx@, a@, b@, 0);
            assert(is_about(seen@[before.len() as int], ctx@, a@, b@));
        }
        Ok(same)
    }
}

} // verus!
