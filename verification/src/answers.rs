//! A memory of answers: the head normal forms and the types that one checker has
//! found. What is found again in the same scope is not worked out again.

use crate::ctx::{Ctx, CtxIds};
use crate::errors::{res, Fault, R};
use crate::expr::{rec_expr_eq, Expr, Term};
use crate::judge::sem_at;
use crate::kernel::{Budget, Checker, Mode, K};
use vstd::prelude::*;

verus! {

/// An answer about a term, under the identity of the scope.
struct Answer {
    scope: u64,
    mode: Mode,
    term: Expr,
    result: Expr,
    checked: bool,
}

/// The mathematical reading of an answer. The mode is that of the question, and
/// `checked` says whether arguments were looked into on the way.
pub struct AnswerT {
    pub ctx: Seq<Term>,
    pub mode: Mode,
    pub term: Term,
    pub result: Term,
    pub checked: bool,
}

/// Answers in the order in which they came, with the identities of their scopes.
struct Answers {
    ids: CtxIds,
    entries: Vec<Answer>,
}

impl Answers {
    spec fn read(&self, i: int) -> AnswerT {
        let a = self.entries@[i];
        AnswerT {
            ctx: self.ids.types_of(a.scope),
            mode: a.mode,
            term: a.term@,
            result: a.result@,
            checked: a.checked,
        }
    }

    spec fn all(&self) -> Seq<AnswerT> {
        Seq::new(self.entries@.len(), |i: int| self.read(i))
    }

    spec fn wf(&self) -> bool {
        &&& self.ids.wf()
        &&& forall|i: int|
            0 <= i < self.entries@.len() ==> self.ids.known(#[trigger] self.entries@[i].scope)
    }
}

/// Whether an answer is about the term, in the scope and the mode.
pub open spec fn answers(a: AnswerT, m: Mode, ctx: Seq<Term>, e: Term) -> bool {
    a.ctx == ctx && a.mode == m && a.term == e
}

/// The position of the first answer about a term, from `i` on.
pub open spec fn answer_at(
    known: Seq<AnswerT>,
    m: Mode,
    ctx: Seq<Term>,
    e: Term,
    i: nat,
) -> Option<nat>
    decreases known.len() - i,
{
    if i >= known.len() {
        None
    } else if answers(known[i as int], m, ctx, e) {
        Some(i)
    } else {
        answer_at(known, m, ctx, e, i + 1)
    }
}

proof fn lemma_answer_at(known: Seq<AnswerT>, m: Mode, ctx: Seq<Term>, e: Term, i: nat)
    ensures
        answer_at(known, m, ctx, e, i) matches Some(j) ==> i <= j < known.len() && answers(
            known[j as int],
            m,
            ctx,
            e,
        ),
    decreases known.len() - i,
{
    if i < known.len() && !answers(known[i as int], m, ctx, e) {
        lemma_answer_at(known, m, ctx, e, i + 1);
    }
}

proof fn lemma_pushed_answer(known: Seq<AnswerT>, a: AnswerT, i: nat)
    requires
        i <= known.len(),
        answer_at(known, a.mode, a.ctx, a.term, i) is None,
    ensures
        answer_at(known.push(a), a.mode, a.ctx, a.term, i) == Some(known.len()),
    decreases known.len() - i,
{
    if i < known.len() {
        assert(known.push(a)[i as int] == known[i as int]);
        lemma_pushed_answer(known, a, i + 1);
    }
}

proof fn lemma_replaced_answer(known: Seq<AnswerT>, at: nat, a: AnswerT, i: nat)
    requires
        i <= at < known.len(),
        answer_at(known, a.mode, a.ctx, a.term, i) == Some(at),
    ensures
        answer_at(known.update(at as int, a), a.mode, a.ctx, a.term, i) == Some(at),
    decreases known.len() - i,
{
    if i < at {
        assert(known.update(at as int, a)[i as int] == known[i as int]);
        lemma_answer_at(known, a.mode, a.ctx, a.term, i + 1);
        lemma_replaced_answer(known, at, a, i + 1);
    }
}

/// The mode of the question to which inference gave an answer: an answer that is
/// checked is one with arguments looked into, whatever is asked.
pub open spec fn asked(m: Mode, checked: bool) -> Mode {
    Mode { infer_only: !checked, ..m }
}

fn is_same_mode(a: Mode, b: Mode) -> (r: bool)
    ensures
        r == (a == b),
{
    a.infer_only == b.infer_only && a.eager == b.eager && a.keep_prop_major == b.keep_prop_major
}

impl Answers {
    fn empty() -> (r: Answers)
        ensures
            r.wf(),
            r.all() == Seq::<AnswerT>::empty(),
    {
        let r = Answers { ids: CtxIds::new(), entries: Vec::new() };
        assert(r.all() =~= Seq::<AnswerT>::empty());
        r
    }

    fn scope(&mut self, ctx: &Ctx) -> (r: Option<u64>)
        requires
            old(self).wf(),
        ensures
            final(self).wf(),
            final(self).all() == old(self).all(),
            final(self).entries == old(self).entries,
            r matches Some(id) ==> final(self).ids.known(id) && final(self).ids.types_of(id)
                == ctx@,
            r is None <==> old(self).ids.count() + ctx@.len() > u64::MAX,
    {
        if !self.ids.has_room(ctx.len()) {
            return None;
        }
        let ghost before = *self;
        let id = ctx.id(&mut self.ids);
        assert forall|i: int| 0 <= i < self.entries@.len() implies #[trigger] self.ids.known(
            self.entries@[i].scope,
        ) && self.read(i) == before.read(i) by {
            assert(before.ids.known(before.entries@[i].scope));
        }
        assert(self.all() =~= before.all());
        Some(id)
    }

    fn find(&self, m: Mode, scope: u64, ctx: Ghost<Seq<Term>>, e: &Expr) -> (r: Option<usize>)
        requires
            self.wf(),
            self.ids.known(scope),
            self.ids.types_of(scope) == ctx@,
        ensures
            match r {
                Some(i) => answer_at(self.all(), m, ctx@, e@, 0) == Some(i as nat) && i
                    < self.entries.len(),
                None => answer_at(self.all(), m, ctx@, e@, 0) is None,
            },
    {
        let mut i: usize = 0;
        while i < self.entries.len()
            invariant
                i <= self.entries.len(),
                self.wf(),
                self.ids.known(scope),
                self.ids.types_of(scope) == ctx@,
                answer_at(self.all(), m, ctx@, e@, i as nat) == answer_at(
                    self.all(),
                    m,
                    ctx@,
                    e@,
                    0,
                ),
            decreases self.entries.len() - i,
        {
            let a = &self.entries[i];
            proof {
                assert(self.all()[i as int] == self.read(i as int));
                crate::ctx::law_ids_identify(self.ids, a.scope, scope);
            }
            if a.scope == scope && is_same_mode(a.mode, m) && rec_expr_eq(&a.term, e) {
                return Some(i);
            }
            i = i + 1;
        }
        None
    }

    fn add(&mut self, m: Mode, scope: u64, e: &Expr, result: &Expr, checked: bool)
        requires
            old(self).wf(),
            old(self).ids.known(scope),
        ensures
            final(self).wf(),
            final(self).all() == old(self).all().push(
                AnswerT {
                    ctx: old(self).ids.types_of(scope),
                    mode: m,
                    term: e@,
                    result: result@,
                    checked,
                },
            ),
    {
        let ghost before = *self;
        self.entries.push(
            Answer { scope, mode: m, term: e.clone(), result: result.clone(), checked },
        );
        assert(forall|i: int|
            0 <= i < before.entries@.len() ==> self.entries@[i] == before.entries@[i]);
        assert(self.all() =~= before.all().push(self.read(before.entries@.len() as int)));
    }

    fn replace(&mut self, at: usize, result: &Expr, checked: bool)
        requires
            old(self).wf(),
            at < old(self).entries.len(),
        ensures
            final(self).wf(),
            final(self).all() == old(self).all().update(
                at as int,
                AnswerT { result: result@, checked, ..old(self).all()[at as int] },
            ),
    {
        let ghost before = *self;
        let a = &self.entries[at];
        let next = Answer {
            scope: a.scope,
            mode: a.mode,
            term: a.term.clone(),
            result: result.clone(),
            checked,
        };
        self.entries.set(at, next);
        assert forall|i: int| 0 <= i < self.entries@.len() implies #[trigger] self.ids.known(
            self.entries@[i].scope,
        ) by {
            assert(before.ids.known(before.entries@[i].scope));
        }
        assert(self.all() =~= before.all().update(
            at as int,
            AnswerT { result: result@, checked, ..before.all()[at as int] },
        ));
    }
}

/// What one checker has found.
pub struct Memory {
    forms: Answers,
    types: Answers,
}

impl Memory {
    /// The head normal forms that are known.
    pub closed spec fn forms(&self) -> Seq<AnswerT> {
        self.forms.all()
    }

    /// The types that are known.
    pub closed spec fn types(&self) -> Seq<AnswerT> {
        self.types.all()
    }

    /// The invariant of the memory.
    pub closed spec fn wf(&self) -> bool {
        self.forms.wf() && self.types.wf()
    }

    /// Whether a head normal form in the scope can be kept.
    pub closed spec fn keeps_forms(&self, ctx: Seq<Term>) -> bool {
        self.forms.ids.count() + ctx.len() <= u64::MAX
    }

    /// Whether a type in the scope can be kept.
    pub closed spec fn keeps_types(&self, ctx: Seq<Term>) -> bool {
        self.types.ids.count() + ctx.len() <= u64::MAX
    }

    /// A memory without answers.
    pub fn new() -> (r: Memory)
        ensures
            r.wf(),
            r.forms() == Seq::<AnswerT>::empty(),
            r.types() == Seq::<AnswerT>::empty(),
    {
        Memory { forms: Answers::empty(), types: Answers::empty() }
    }
}

/// Whether each head normal form is the one that the judgement gives.
pub open spec fn forms_hold(k: K, g: Budget, known: Seq<AnswerT>) -> bool {
    forall|i: int|
        0 <= i < known.len() ==> (sem_at(k, g).whnf)(
            (#[trigger] known[i]).mode,
            known[i].ctx,
            known[i].term,
        ) == Ok::<Term, Fault>(known[i].result)
}

/// Whether each type is the one that the judgement gives.
pub open spec fn types_hold(k: K, g: Budget, known: Seq<AnswerT>) -> bool {
    forall|i: int|
        0 <= i < known.len() ==> (sem_at(k, g).infer)(
            asked((#[trigger] known[i]).mode, known[i].checked),
            known[i].ctx,
            known[i].term,
        ) == Ok::<Term, Fault>(known[i].result)
}

/// The head normal form that is remembered for a term.
pub open spec fn form_recalled(known: Seq<AnswerT>, m: Mode, ctx: Seq<Term>, e: Term) -> Option<
    Term,
> {
    match answer_at(known, m, ctx, e, 0) {
        Some(i) => Some(known[i as int].result),
        None => None,
    }
}

/// The type that is remembered for a term. One that was found with arguments
/// taken for granted does not answer a question that has them looked into.
pub open spec fn type_recalled(known: Seq<AnswerT>, m: Mode, ctx: Seq<Term>, e: Term) -> Option<
    Term,
> {
    match answer_at(known, asked(m, true), ctx, e, 0) {
        Some(i) => if m.infer_only || known[i as int].checked {
            Some(known[i as int].result)
        } else {
            None
        },
        None => None,
    }
}

/// The types that are known once one more is found. It takes the place of one
/// that was found with arguments taken for granted.
pub open spec fn with_type(
    known: Seq<AnswerT>,
    m: Mode,
    ctx: Seq<Term>,
    e: Term,
    result: Term,
) -> Seq<AnswerT> {
    match answer_at(known, asked(m, true), ctx, e, 0) {
        Some(i) => known.update(
            i as int,
            AnswerT { result, checked: !m.infer_only, ..known[i as int] },
        ),
        None => known.push(
            AnswerT { ctx, mode: asked(m, true), term: e, result, checked: !m.infer_only },
        ),
    }
}

impl<'e> Checker<'e> {
    /// Head normal form, by an earlier answer where there is one. An answer that
    /// comes in is remembered. Where the memory is right, so is the answer, and
    /// the memory stays right.
    pub fn whnf_recalling(&self, seen: &mut Memory, m: Mode, ctx: &Ctx, e: &Expr) -> (r: R<Expr>)
        requires
            old(seen).wf(),
        ensures
            final(seen).wf(),
            final(seen).types() == old(seen).types(),
            old(seen).keeps_forms(ctx@) ==> (match form_recalled(old(seen).forms(), m, ctx@, e@) {
                Some(t) => res(r) == Ok::<Term, Fault>(t) && final(seen).forms()
                    == old(seen).forms(),
                None => res(r) == (sem_at(self@, self.budget).whnf)(m, ctx@, e@)
                    && final(seen).forms() == (match r {
                    Ok(t) => old(seen).forms().push(
                        AnswerT { ctx: ctx@, mode: m, term: e@, result: t@, checked: true },
                    ),
                    Err(_) => old(seen).forms(),
                }),
            }),
            !old(seen).keeps_forms(ctx@) ==> res(r) == (sem_at(self@, self.budget).whnf)(
                m,
                ctx@,
                e@,
            ) && final(seen).forms() == old(seen).forms(),
            old(seen).keeps_forms(ctx@) && r is Ok ==> form_recalled(
                final(seen).forms(),
                m,
                ctx@,
                e@,
            ) == Some(r->Ok_0@),
            forms_hold(self@, self.budget, old(seen).forms()) ==> res(r) == (sem_at(
                self@,
                self.budget,
            ).whnf)(m, ctx@, e@) && forms_hold(self@, self.budget, final(seen).forms()),
    {
        let ghost known = seen.forms();
        let scope = match seen.forms.scope(ctx) {
            Some(id) => id,
            None => {
                return self.whnf_at(self.budget, m, ctx, e);
            },
        };
        proof {
            lemma_answer_at(known, m, ctx@, e@, 0);
        }
        match seen.forms.find(m, scope, Ghost(ctx@), e) {
            Some(i) => {
                assert(known[i as int] == seen.forms.read(i as int));
                return Ok(seen.forms.entries[i].result.clone());
            },
            None => {},
        }
        let t = self.whnf_at(self.budget, m, ctx, e)?;
        seen.forms.add(m, scope, e, &t, true);
        proof {
            lemma_pushed_answer(
                known,
                AnswerT { ctx: ctx@, mode: m, term: e@, result: t@, checked: true },
                0,
            );
        }
        Ok(t)
    }

    /// The type of a term, by an earlier answer where there is one. An answer that
    /// comes in is remembered. Where the memory is right, the answer is that of
    /// inference in the mode asked for, or of inference with arguments looked
    /// into, and the memory stays right.
    pub fn infer_type_cached(&self, seen: &mut Memory, m: Mode, ctx: &Ctx, e: &Expr) -> (r: R<Expr>)
        requires
            old(seen).wf(),
        ensures
            final(seen).wf(),
            final(seen).forms() == old(seen).forms(),
            old(seen).keeps_types(ctx@) ==> (match type_recalled(old(seen).types(), m, ctx@, e@) {
                Some(t) => res(r) == Ok::<Term, Fault>(t) && final(seen).types()
                    == old(seen).types(),
                None => res(r) == (sem_at(self@, self.budget).infer)(m, ctx@, e@)
                    && final(seen).types() == (match r {
                    Ok(t) => with_type(old(seen).types(), m, ctx@, e@, t@),
                    Err(_) => old(seen).types(),
                }),
            }),
            !old(seen).keeps_types(ctx@) ==> res(r) == (sem_at(self@, self.budget).infer)(
                m,
                ctx@,
                e@,
            ) && final(seen).types() == old(seen).types(),
            old(seen).keeps_types(ctx@) && r is Ok ==> type_recalled(
                final(seen).types(),
                m,
                ctx@,
                e@,
            ) == Some(r->Ok_0@),
            types_hold(self@, self.budget, old(seen).types()) ==> (res(r) == (sem_at(
                self@,
                self.budget,
            ).infer)(m, ctx@, e@) || res(r) == (sem_at(self@, self.budget).infer)(
                asked(m, true),
                ctx@,
                e@,
            )) && types_hold(self@, self.budget, final(seen).types()),
            types_hold(self@, self.budget, old(seen).types()) && !m.infer_only ==> res(r) == (
            sem_at(self@, self.budget).infer)(m, ctx@, e@),
    {
        let ghost known = seen.types();
        let scope = match seen.types.scope(ctx) {
            Some(id) => id,
            None => {
                return self.infer_at(self.budget, m, ctx, e);
            },
        };
        let tag = Mode { infer_only: false, ..m };
        proof {
            lemma_answer_at(known, tag, ctx@, e@, 0);
        }
        let found = seen.types.find(tag, scope, Ghost(ctx@), e);
        match found {
            Some(i) => {
                assert(known[i as int] == seen.types.read(i as int));
                if m.infer_only || seen.types.entries[i].checked {
                    return Ok(seen.types.entries[i].result.clone());
                }
            },
            None => {},
        }
        let t = self.infer_at(self.budget, m, ctx, e)?;
        match found {
            Some(i) => {
                seen.types.replace(i, &t, !m.infer_only);
                proof {
                    lemma_replaced_answer(known, i as nat, seen.types()[i as int], 0);
                }
            },
            None => {
                seen.types.add(tag, scope, e, &t, !m.infer_only);
                proof {
                    lemma_pushed_answer(known, seen.types()[known.len() as int], 0);
                }
            },
        }
        Ok(t)
    }
}

} // verus!
