//! Terms: their representation, substitution and measures.
//!
//! Variables are de Bruijn indices. Every node remembers how far its loose
//! variables reach and whether it mentions a universe parameter, so that
//! substitution can leave alone what it cannot change.

use crate::level::{
    collect_level_ids_level, goes_on_fresh, law_goes_on_further, law_level_ids_append, level_ids, level_same,
    levels_same, subst, subst_all, univ_mentions, univ_subst, univs_subst, Level, LevelData, Univ,
};
use crate::num::Natural;
use crate::share::same_node;
use std::rc::Rc;
use vstd::prelude::*;

verus! {

/// How a binder's argument is supplied.
#[derive(Clone, Copy, Debug, PartialEq, Eq, Structural)]
pub enum BinderInfo {
    Default,
    Implicit,
    StrictImplicit,
    InstImplicit,
}

impl DeepView for BinderInfo {
    type V = BinderInfo;

    open spec fn deep_view(&self) -> BinderInfo {
        *self
    }
}

/// A literal.
pub enum Lit {
    Nat(Natural),
    Str(Rc<String>),
}

/// The mathematical reading of a [`Lit`].
pub enum LitT {
    Nat(nat),
    Str(Seq<char>),
}

impl View for Lit {
    type V = LitT;

    open spec fn view(&self) -> LitT {
        match self {
            Lit::Nat(n) => LitT::Nat(n@),
            Lit::Str(s) => LitT::Str((**s)@),
        }
    }
}

impl DeepView for Lit {
    type V = LitT;

    open spec fn deep_view(&self) -> LitT {
        self@
    }
}

impl Clone for Lit {
    fn clone(&self) -> (r: Self)
        ensures
            r@ == self@,
    {
        match self {
            Lit::Nat(n) => Lit::Nat(n.clone()),
            Lit::Str(s) => Lit::Str(s.clone()),
        }
    }
}

/// The shape of a term.
pub enum ExprData {
    BVar(u32),
    Sort(Level),
    Const(u32, Rc<Vec<Level>>),
    App(Expr, Expr),
    Lam(BinderInfo, Expr, Expr),
    Pi(BinderInfo, Expr, Expr),
    Let(Expr, Expr, Expr),
    Proj(u32, u32, Expr),
    Lit(Lit),
}

/// A node of a term, with its cached measures.
pub struct ExprNode {
    data: ExprData,
    loose: u64,
    params: bool,
}

/// A term.
pub struct Expr {
    node: Rc<ExprNode>,
}

/// The mathematical reading of an [`Expr`].
pub enum Term {
    BVar(u32),
    Sort(Univ),
    Const(u32, Seq<Univ>),
    App(Box<Term>, Box<Term>),
    Lam(BinderInfo, Box<Term>, Box<Term>),
    Pi(BinderInfo, Box<Term>, Box<Term>),
    Let(Box<Term>, Box<Term>, Box<Term>),
    Proj(u32, u32, Box<Term>),
    Lit(LitT),
}

impl ExprData {
    /// The mathematical reading.
    pub open spec fn model(self) -> Term
        decreases self,
    {
        match self {
            ExprData::BVar(i) => Term::BVar(i),
            ExprData::Sort(l) => Term::Sort(l@),
            ExprData::Const(n, us) => Term::Const(n, (*us).deep_view()),
            ExprData::App(f, a) => Term::App(Box::new(f.model()), Box::new(a.model())),
            ExprData::Lam(bi, t, b) => Term::Lam(bi, Box::new(t.model()), Box::new(b.model())),
            ExprData::Pi(bi, t, b) => Term::Pi(bi, Box::new(t.model()), Box::new(b.model())),
            ExprData::Let(t, v, b) => Term::Let(
                Box::new(t.model()),
                Box::new(v.model()),
                Box::new(b.model()),
            ),
            ExprData::Proj(s, i, v) => Term::Proj(s, i, Box::new(v.model())),
            ExprData::Lit(l) => Term::Lit(l@),
        }
    }
}

impl Expr {
    /// The mathematical reading.
    pub closed spec fn model(self) -> Term
        decreases self,
    {
        self.node.data.model()
    }
}

impl View for Expr {
    type V = Term;

    open spec fn view(&self) -> Term {
        self.model()
    }
}

impl DeepView for Expr {
    type V = Term;

    open spec fn deep_view(&self) -> Term {
        self.model()
    }
}

impl Clone for Expr {
    fn clone(&self) -> (r: Self)
        ensures
            r == *self,
    {
        Expr { node: self.node.clone() }
    }
}

/// The larger of two naturals.
pub open spec fn max_nat(a: nat, b: nat) -> nat {
    if a >= b {
        a
    } else {
        b
    }
}

/// One less, but not below zero.
pub open spec fn pred_nat(a: nat) -> nat {
    if a == 0 {
        0
    } else {
        (a - 1) as nat
    }
}

/// The least number above every loose variable of a term.
pub open spec fn loose(t: Term) -> nat
    decreases t,
{
    match t {
        Term::BVar(i) => i as nat + 1,
        Term::Sort(_) => 0,
        Term::Const(_, _) => 0,
        Term::App(f, a) => max_nat(loose(*f), loose(*a)),
        Term::Lam(_, ty, b) => max_nat(loose(*ty), pred_nat(loose(*b))),
        Term::Pi(_, ty, b) => max_nat(loose(*ty), pred_nat(loose(*b))),
        Term::Let(ty, v, b) => max_nat(max_nat(loose(*ty), loose(*v)), pred_nat(loose(*b))),
        Term::Proj(_, _, v) => loose(*v),
        Term::Lit(_) => 0,
    }
}

/// Whether a level mentions a parameter.
pub open spec fn univ_has_params(l: Univ) -> bool
    decreases l,
{
    match l {
        Univ::Zero => false,
        Univ::Succ(a) => univ_has_params(*a),
        Univ::Max(a, b) => univ_has_params(*a) || univ_has_params(*b),
        Univ::IMax(a, b) => univ_has_params(*a) || univ_has_params(*b),
        Univ::Param(_) => true,
    }
}

/// Whether some level of a list mentions a parameter.
pub open spec fn univs_have_params(us: Seq<Univ>) -> bool {
    exists|i: int| 0 <= i < us.len() && #[trigger] univ_has_params(us[i])
}

/// Whether a term mentions a universe parameter.
pub open spec fn has_params(t: Term) -> bool
    decreases t,
{
    match t {
        Term::BVar(_) => false,
        Term::Sort(l) => univ_has_params(l),
        Term::Const(_, us) => univs_have_params(us),
        Term::App(f, a) => has_params(*f) || has_params(*a),
        Term::Lam(_, ty, b) => has_params(*ty) || has_params(*b),
        Term::Pi(_, ty, b) => has_params(*ty) || has_params(*b),
        Term::Let(ty, v, b) => has_params(*ty) || has_params(*v) || has_params(*b),
        Term::Proj(_, _, v) => has_params(*v),
        Term::Lit(_) => false,
    }
}

impl ExprNode {
    #[verifier::type_invariant]
    spec fn measured(self) -> bool {
        &&& self.loose as nat == loose(self.data.model())
        &&& self.loose <= 0x1_0000_0000
        &&& self.params == has_params(self.data.model())
    }
}

fn max_u64(a: u64, b: u64) -> (r: u64)
    ensures
        r as nat == max_nat(a as nat, b as nat),
        r == a || r == b,
{
    if a >= b {
        a
    } else {
        b
    }
}

fn pred_u64(a: u64) -> (r: u64)
    ensures
        r as nat == pred_nat(a as nat),
        r <= a,
{
    if a == 0 {
        0
    } else {
        a - 1
    }
}

fn level_has_params(l: &Level) -> (r: bool)
    ensures
        r == univ_has_params(l@),
    decreases l,
{
    match l.data() {
        LevelData::Zero => false,
        LevelData::Succ(a) => level_has_params(a),
        LevelData::Max(a, b) => level_has_params(a) || level_has_params(b),
        LevelData::IMax(a, b) => level_has_params(a) || level_has_params(b),
        LevelData::Param(_) => true,
    }
}

fn levels_have_params(us: &Vec<Level>) -> (r: bool)
    ensures
        r == univs_have_params(us.deep_view()),
{
    let ghost uv = us.deep_view();
    let mut i: usize = 0;
    while i < us.len()
        invariant
            i <= us.len(),
            uv == us.deep_view(),
            forall|j: int| 0 <= j < i ==> !#[trigger] univ_has_params(uv[j]),
        decreases us.len() - i,
    {
        if level_has_params(&us[i]) {
            assert(univ_has_params(uv[i as int]));
            return true;
        }
        i = i + 1;
    }
    false
}

impl Expr {
    /// The shape of the term.
    pub fn data(&self) -> (r: &ExprData)
        ensures
            r.model() == self@,
            decreases_to!(self => r),
    {
        &self.node.data
    }

    /// The least number above every loose variable.
    pub fn loose_range(&self) -> (r: u64)
        ensures
            r as nat == loose(self@),
            r <= 0x1_0000_0000,
    {
        proof {
            use_type_invariant(&*self.node);
        }
        self.node.loose
    }

    /// Whether the term mentions a universe parameter.
    pub fn mentions_params(&self) -> (r: bool)
        ensures
            r == has_params(self@),
    {
        proof {
            use_type_invariant(&*self.node);
        }
        self.node.params
    }
}

/// A bound variable.
pub fn bvar(i: u32) -> (r: Expr)
    ensures
        r@ == Term::BVar(i),
{
    Expr { node: Rc::new(ExprNode { data: ExprData::BVar(i), loose: i as u64 + 1, params: false }) }
}

/// A universe.
pub fn sort(l: Level) -> (r: Expr)
    ensures
        r@ == Term::Sort(l@),
{
    let params = level_has_params(&l);
    Expr { node: Rc::new(ExprNode { data: ExprData::Sort(l), loose: 0, params }) }
}

/// A constant at the given levels.
pub fn const_(n: u32, us: Vec<Level>) -> (r: Expr)
    ensures
        r@ == Term::Const(n, us.deep_view()),
{
    let params = levels_have_params(&us);
    Expr { node: Rc::new(ExprNode { data: ExprData::Const(n, Rc::new(us)), loose: 0, params }) }
}

/// A constant at shared levels.
pub fn const_shared(n: u32, us: Rc<Vec<Level>>) -> (r: Expr)
    ensures
        r@ == Term::Const(n, (*us).deep_view()),
{
    let params = levels_have_params(&us);
    Expr { node: Rc::new(ExprNode { data: ExprData::Const(n, us), loose: 0, params }) }
}

/// An application.
pub fn app(f: Expr, a: Expr) -> (r: Expr)
    ensures
        r@ == Term::App(Box::new(f@), Box::new(a@)),
{
    let loose: u64 = max_u64(f.loose_range(), a.loose_range());
    let params = f.mentions_params() || a.mentions_params();
    Expr { node: Rc::new(ExprNode { data: ExprData::App(f, a), loose, params }) }
}

/// An abstraction.
pub fn lam(bi: BinderInfo, ty: Expr, body: Expr) -> (r: Expr)
    ensures
        r@ == Term::Lam(bi, Box::new(ty@), Box::new(body@)),
{
    let loose: u64 = max_u64(ty.loose_range(), pred_u64(body.loose_range()));
    let params = ty.mentions_params() || body.mentions_params();
    Expr { node: Rc::new(ExprNode { data: ExprData::Lam(bi, ty, body), loose, params }) }
}

/// A function type.
pub fn pi(bi: BinderInfo, ty: Expr, body: Expr) -> (r: Expr)
    ensures
        r@ == Term::Pi(bi, Box::new(ty@), Box::new(body@)),
{
    let loose: u64 = max_u64(ty.loose_range(), pred_u64(body.loose_range()));
    let params = ty.mentions_params() || body.mentions_params();
    Expr { node: Rc::new(ExprNode { data: ExprData::Pi(bi, ty, body), loose, params }) }
}

/// A local definition.
pub fn let_(ty: Expr, val: Expr, body: Expr) -> (r: Expr)
    ensures
        r@ == Term::Let(Box::new(ty@), Box::new(val@), Box::new(body@)),
{
    let loose: u64 = max_u64(
        max_u64(ty.loose_range(), val.loose_range()),
        pred_u64(body.loose_range()),
    );
    let params = ty.mentions_params() || val.mentions_params() || body.mentions_params();
    Expr { node: Rc::new(ExprNode { data: ExprData::Let(ty, val, body), loose, params }) }
}

/// A projection out of a structure.
pub fn proj(s: u32, i: u32, v: Expr) -> (r: Expr)
    ensures
        r@ == Term::Proj(s, i, Box::new(v@)),
{
    let loose: u64 = v.loose_range();
    let params = v.mentions_params();
    Expr { node: Rc::new(ExprNode { data: ExprData::Proj(s, i, v), loose, params }) }
}

/// A literal.
pub fn lit(l: Lit) -> (r: Expr)
    ensures
        r@ == Term::Lit(l@),
{
    Expr { node: Rc::new(ExprNode { data: ExprData::Lit(l), loose: 0, params: false }) }
}

/// A natural number literal.
pub fn lit_nat(n: Natural) -> (r: Expr)
    ensures
        r@ == Term::Lit(LitT::Nat(n@)),
{
    lit(Lit::Nat(n))
}

/// A string literal.
pub fn lit_str(s: String) -> (r: Expr)
    ensures
        r@ == Term::Lit(LitT::Str(s@)),
{
    lit(Lit::Str(Rc::new(s)))
}

/// The least number above every loose variable of a term.
pub fn loose_bvar_range(e: &Expr) -> (r: u64)
    ensures
        r as nat == loose(e@),
        r <= 0x1_0000_0000,
{
    e.loose_range()
}

/// Whether a term has no loose variables.
pub fn is_closed(e: &Expr) -> (r: bool)
    ensures
        r == (loose(e@) == 0),
{
    e.loose_range() == 0
}

/// Whether two literals are the same.
pub fn lit_same(a: &Lit, b: &Lit) -> (r: bool)
    ensures
        r == (a@ == b@),
{
    match a {
        Lit::Nat(x) => match b {
            Lit::Nat(y) => x.same(y),
            Lit::Str(_) => false,
        },
        Lit::Str(x) => match b {
            Lit::Nat(_) => false,
            Lit::Str(y) => crate::text::str_same(x.as_str(), y.as_str()),
        },
    }
}

/// Whether two terms are the same.
pub fn rec_expr_eq(a: &Expr, b: &Expr) -> (r: bool)
    ensures
        r == (a@ == b@),
    decreases a,
{
    if same_node(&a.node, &b.node) {
        return true;
    }
    if a.loose_range() != b.loose_range() {
        return false;
    }
    match a.data() {
        ExprData::BVar(i) => match b.data() {
            ExprData::BVar(j) => *i == *j,
            _ => false,
        },
        ExprData::Sort(u) => match b.data() {
            ExprData::Sort(v) => level_same(u, v),
            _ => false,
        },
        ExprData::Const(n, us) => match b.data() {
            ExprData::Const(m, vs) => *n == *m && levels_same(us, vs),
            _ => false,
        },
        ExprData::App(f, x) => match b.data() {
            ExprData::App(g, y) => rec_expr_eq(f, g) && rec_expr_eq(x, y),
            _ => false,
        },
        ExprData::Lam(bi, ty, body) => match b.data() {
            ExprData::Lam(bj, ty2, body2) => *bi == *bj && rec_expr_eq(ty, ty2) && rec_expr_eq(
                body,
                body2,
            ),
            _ => false,
        },
        ExprData::Pi(bi, ty, body) => match b.data() {
            ExprData::Pi(bj, ty2, body2) => *bi == *bj && rec_expr_eq(ty, ty2) && rec_expr_eq(
                body,
                body2,
            ),
            _ => false,
        },
        ExprData::Let(ty, val, body) => match b.data() {
            ExprData::Let(ty2, val2, body2) => rec_expr_eq(ty, ty2) && rec_expr_eq(val, val2)
                && rec_expr_eq(body, body2),
            _ => false,
        },
        ExprData::Proj(s, i, v) => match b.data() {
            ExprData::Proj(t, j, w) => *s == *t && *i == *j && rec_expr_eq(v, w),
            _ => false,
        },
        ExprData::Lit(x) => match b.data() {
            ExprData::Lit(y) => lit_same(x, y),
            _ => false,
        },
    }
}

/// Whether two lists of terms are the same.
pub fn rec_exprs_eq(a: &Vec<Expr>, b: &Vec<Expr>) -> (r: bool)
    ensures
        r == (a.deep_view() == b.deep_view()),
{
    if a.len() != b.len() {
        assert(a.deep_view().len() != b.deep_view().len());
        return false;
    }
    let mut i: usize = 0;
    while i < a.len()
        invariant
            i <= a.len(),
            a.len() == b.len(),
            forall|j: int| 0 <= j < i ==> a@[j]@ == b@[j]@,
        decreases a.len() - i,
    {
        if !rec_expr_eq(&a[i], &b[i]) {
            assert(a.deep_view()[i as int] != b.deep_view()[i as int]);
            return false;
        }
        i = i + 1;
    }
    assert(a.deep_view() =~= b.deep_view());
    true
}

/// A copy of a list of terms.
pub fn clone_exprs(v: &Vec<Expr>) -> (r: Vec<Expr>)
    ensures
        r.deep_view() == v.deep_view(),
{
    let r = v.clone();
    assert(r.deep_view() =~= v.deep_view());
    r
}

/// A copy of a list of levels.
pub fn clone_levels(v: &Vec<Level>) -> (r: Vec<Level>)
    ensures
        r.deep_view() == v.deep_view(),
{
    let r = v.clone();
    assert(r.deep_view() =~= v.deep_view());
    r
}

/// The terms of a list from a position on.
pub fn exprs_from(v: &Vec<Expr>, from: usize) -> (r: Vec<Expr>)
    requires
        from <= v.len(),
    ensures
        r.deep_view() == v.deep_view().skip(from as int),
{
    exprs_between(v, from, v.len())
}

/// The terms of a list between two positions.
pub fn exprs_between(v: &Vec<Expr>, from: usize, to: usize) -> (r: Vec<Expr>)
    requires
        from <= to <= v.len(),
    ensures
        r.deep_view() == v.deep_view().subrange(from as int, to as int),
        from as int == 0 ==> r.deep_view() == v.deep_view().take(to as int),
        to == v.len() ==> r.deep_view() == v.deep_view().skip(from as int),
{
    let mut out: Vec<Expr> = Vec::new();
    let mut i: usize = from;
    while i < to
        invariant
            from <= i <= to <= v.len(),
            out.len() == i - from,
            forall|j: int| 0 <= j < out.len() ==> (#[trigger] out@[j])@ == v@[from + j]@,
        decreases to - i,
    {
        out.push(v[i].clone());
        i = i + 1;
    }
    assert(out.deep_view() =~= v.deep_view().subrange(from as int, to as int));
    assert(from as int == 0 ==> out.deep_view() =~= v.deep_view().take(to as int));
    assert(to == v.len() ==> out.deep_view() =~= v.deep_view().skip(from as int));
    out
}

/// The head of an application spine.
pub open spec fn spine_head(t: Term) -> Term
    decreases t,
{
    match t {
        Term::App(f, _) => spine_head(*f),
        _ => t,
    }
}

/// The arguments of an application spine.
pub open spec fn spine_args(t: Term) -> Seq<Term>
    decreases t,
{
    match t {
        Term::App(f, a) => spine_args(*f).push(*a),
        _ => Seq::empty(),
    }
}

/// A head applied to arguments.
pub open spec fn mk_apps(f: Term, args: Seq<Term>) -> Term
    decreases args.len(),
{
    if args.len() == 0 {
        f
    } else {
        Term::App(Box::new(mk_apps(f, args.drop_last())), Box::new(args.last()))
    }
}

/// The head and the arguments of an application spine.
pub fn unfold_apps(e: &Expr) -> (r: (Expr, Vec<Expr>))
    ensures
        r.0@ == spine_head(e@),
        r.1.deep_view() == spine_args(e@),
    decreases e,
{
    match e.data() {
        ExprData::App(f, a) => {
            let (h, mut args) = unfold_apps(f);
            let ghost before = args.deep_view();
            args.push(a.clone());
            assert(args.deep_view() =~= before.push(a@));
            (h, args)
        },
        _ => {
            let args: Vec<Expr> = Vec::new();
            assert(args.deep_view() =~= Seq::<Term>::empty());
            (e.clone(), args)
        },
    }
}

/// The head of an application spine.
pub fn app_head(e: &Expr) -> (r: &Expr)
    ensures
        r@ == spine_head(e@),
    decreases e,
{
    match e.data() {
        ExprData::App(f, _) => app_head(f),
        _ => e,
    }
}

/// A head applied to arguments.
pub fn apps(f: Expr, args: &Vec<Expr>) -> (r: Expr)
    ensures
        r@ == mk_apps(f@, args.deep_view()),
{
    let mut out = f;
    let mut i: usize = 0;
    let ghost all = args.deep_view();
    while i < args.len()
        invariant
            i <= args.len(),
            all == args.deep_view(),
            out@ == mk_apps(f@, all.take(i as int)),
        decreases args.len() - i,
    {
        out = app(out, args[i].clone());
        i = i + 1;
        assert(all.take(i as int).drop_last() =~= all.take(i - 1));
    }
    assert(all.take(i as int) =~= all);
    out
}

/// A head applied to the arguments from a position on.
pub fn apps_from(f: Expr, args: &Vec<Expr>, from: usize) -> (r: Expr)
    requires
        from <= args.len(),
    ensures
        r@ == mk_apps(f@, args.deep_view().skip(from as int)),
{
    let rest = exprs_from(args, from);
    apps(f, &rest)
}

/// Taking a spine apart and applying the head to the arguments gives the term
/// back.
pub proof fn law_spine(t: Term)
    ensures
        mk_apps(spine_head(t), spine_args(t)) == t,
        !(spine_head(t) is App),
    decreases t,
{
    match t {
        Term::App(f, a) => {
            law_spine(*f);
            assert(spine_args(t).drop_last() =~= spine_args(*f));
        },
        _ => {},
    }
}

/// Applying a head that is no application and taking the spine apart gives the
/// head and the arguments back.
pub proof fn law_apps(f: Term, args: Seq<Term>)
    requires
        !(f is App),
    ensures
        spine_head(mk_apps(f, args)) == f,
        spine_args(mk_apps(f, args)) == args,
    decreases args.len(),
{
    if args.len() > 0 {
        law_apps(f, args.drop_last());
        assert(args.drop_last().push(args.last()) =~= args);
    } else {
        assert(spine_args(f) =~= args);
    }
}

/// The index nearest to a number that may be negative or too large.
pub open spec fn clamp_index(x: int) -> u32 {
    if x < 0 {
        0
    } else if x > u32::MAX {
        u32::MAX
    } else {
        x as u32
    }
}

/// The term with every loose variable from `cut` on moved by `by`.
pub open spec fn lift(t: Term, by: int, cut: nat) -> Term
    decreases t,
{
    match t {
        Term::BVar(i) => if (i as nat) < cut {
            t
        } else {
            Term::BVar(clamp_index(i + by))
        },
        Term::Sort(_) => t,
        Term::Const(_, _) => t,
        Term::App(f, a) => Term::App(Box::new(lift(*f, by, cut)), Box::new(lift(*a, by, cut))),
        Term::Lam(bi, ty, b) => Term::Lam(
            bi,
            Box::new(lift(*ty, by, cut)),
            Box::new(lift(*b, by, cut + 1)),
        ),
        Term::Pi(bi, ty, b) => Term::Pi(
            bi,
            Box::new(lift(*ty, by, cut)),
            Box::new(lift(*b, by, cut + 1)),
        ),
        Term::Let(ty, v, b) => Term::Let(
            Box::new(lift(*ty, by, cut)),
            Box::new(lift(*v, by, cut)),
            Box::new(lift(*b, by, cut + 1)),
        ),
        Term::Proj(s, i, v) => Term::Proj(s, i, Box::new(lift(*v, by, cut))),
        Term::Lit(_) => t,
    }
}

/// A term whose loose variables all lie below the cut is left alone.
pub proof fn law_lift_below(t: Term, by: int, cut: nat)
    requires
        loose(t) <= cut,
    ensures
        lift(t, by, cut) == t,
    decreases t,
{
    match t {
        Term::App(f, a) => {
            law_lift_below(*f, by, cut);
            law_lift_below(*a, by, cut);
        },
        Term::Lam(_, ty, b) => {
            law_lift_below(*ty, by, cut);
            law_lift_below(*b, by, cut + 1);
        },
        Term::Pi(_, ty, b) => {
            law_lift_below(*ty, by, cut);
            law_lift_below(*b, by, cut + 1);
        },
        Term::Let(ty, v, b) => {
            law_lift_below(*ty, by, cut);
            law_lift_below(*v, by, cut);
            law_lift_below(*b, by, cut + 1);
        },
        Term::Proj(_, _, v) => law_lift_below(*v, by, cut),
        _ => {},
    }
}

/// Moving by nothing leaves the term alone.
pub proof fn law_lift_zero(t: Term, cut: nat)
    ensures
        lift(t, 0, cut) == t,
    decreases t,
{
    match t {
        Term::App(f, a) => {
            law_lift_zero(*f, cut);
            law_lift_zero(*a, cut);
        },
        Term::Lam(_, ty, b) => {
            law_lift_zero(*ty, cut);
            law_lift_zero(*b, cut + 1);
        },
        Term::Pi(_, ty, b) => {
            law_lift_zero(*ty, cut);
            law_lift_zero(*b, cut + 1);
        },
        Term::Let(ty, v, b) => {
            law_lift_zero(*ty, cut);
            law_lift_zero(*v, cut);
            law_lift_zero(*b, cut + 1);
        },
        Term::Proj(_, _, v) => law_lift_zero(*v, cut),
        _ => {},
    }
}

pub(crate) fn clamp(x: i128) -> (r: u32)
    ensures
        r == clamp_index(x as int),
{
    if x < 0 {
        0
    } else if x > 0xffff_ffff {
        u32::MAX
    } else {
        x as u32
    }
}

/// The term with every loose variable from `cut` on moved by `by`.
pub fn shift(e: &Expr, by: i64, cut: u64) -> (r: Expr)
    ensures
        r@ == lift(e@, by as int, cut as nat),
    decreases e,
{
    if by == 0 {
        proof {
            law_lift_zero(e@, cut as nat);
        }
        return e.clone();
    }
    if e.loose_range() <= cut {
        proof {
            law_lift_below(e@, by as int, cut as nat);
        }
        return e.clone();
    }
    match e.data() {
        ExprData::BVar(i) => bvar(clamp(*i as i128 + by as i128)),
        ExprData::Sort(_) => e.clone(),
        ExprData::Const(_, _) => e.clone(),
        ExprData::App(f, a) => app(shift(f, by, cut), shift(a, by, cut)),
        ExprData::Lam(bi, ty, b) => lam(*bi, shift(ty, by, cut), shift(b, by, cut + 1)),
        ExprData::Pi(bi, ty, b) => pi(*bi, shift(ty, by, cut), shift(b, by, cut + 1)),
        ExprData::Let(ty, v, b) => let_(
            shift(ty, by, cut),
            shift(v, by, cut),
            shift(b, by, cut + 1),
        ),
        ExprData::Proj(s, i, v) => proj(*s, *i, shift(v, by, cut)),
        ExprData::Lit(_) => e.clone(),
    }
}

/// The term with the loose variables from `depth` on replaced, the `i`-th by
/// `args[i]`; those beyond the replaced ones move down.
pub open spec fn plug(t: Term, args: Seq<Term>, depth: nat) -> Term
    decreases t,
{
    match t {
        Term::BVar(i) => if (i as nat) < depth {
            t
        } else if i - depth < args.len() {
            lift(args[i - depth], depth as int, 0)
        } else {
            Term::BVar((i - args.len()) as u32)
        },
        Term::Sort(_) => t,
        Term::Const(_, _) => t,
        Term::App(f, a) => Term::App(
            Box::new(plug(*f, args, depth)),
            Box::new(plug(*a, args, depth)),
        ),
        Term::Lam(bi, ty, b) => Term::Lam(
            bi,
            Box::new(plug(*ty, args, depth)),
            Box::new(plug(*b, args, depth + 1)),
        ),
        Term::Pi(bi, ty, b) => Term::Pi(
            bi,
            Box::new(plug(*ty, args, depth)),
            Box::new(plug(*b, args, depth + 1)),
        ),
        Term::Let(ty, v, b) => Term::Let(
            Box::new(plug(*ty, args, depth)),
            Box::new(plug(*v, args, depth)),
            Box::new(plug(*b, args, depth + 1)),
        ),
        Term::Proj(s, i, v) => Term::Proj(s, i, Box::new(plug(*v, args, depth))),
        Term::Lit(_) => t,
    }
}

/// The body of a binder with its variable replaced.
pub open spec fn plug1(body: Term, a: Term) -> Term {
    plug(body, seq![a], 0)
}

/// A term whose loose variables all lie below the depth has nothing to replace.
pub proof fn law_plug_below(t: Term, args: Seq<Term>, depth: nat)
    requires
        loose(t) <= depth,
    ensures
        plug(t, args, depth) == t,
    decreases t,
{
    match t {
        Term::App(f, a) => {
            law_plug_below(*f, args, depth);
            law_plug_below(*a, args, depth);
        },
        Term::Lam(_, ty, b) => {
            law_plug_below(*ty, args, depth);
            law_plug_below(*b, args, depth + 1);
        },
        Term::Pi(_, ty, b) => {
            law_plug_below(*ty, args, depth);
            law_plug_below(*b, args, depth + 1);
        },
        Term::Let(ty, v, b) => {
            law_plug_below(*ty, args, depth);
            law_plug_below(*v, args, depth);
            law_plug_below(*b, args, depth + 1);
        },
        Term::Proj(_, _, v) => law_plug_below(*v, args, depth),
        _ => {},
    }
}

fn instantiate_at(e: &Expr, args: &Vec<Expr>, depth: u64) -> (r: Expr)
    ensures
        r@ == plug(e@, args.deep_view(), depth as nat),
    decreases e,
{
    if e.loose_range() <= depth {
        proof {
            law_plug_below(e@, args.deep_view(), depth as nat);
        }
        return e.clone();
    }
    match e.data() {
        ExprData::BVar(i) => {
            let k: u64 = *i as u64 - depth;
            if k < args.len() as u64 {
                shift(&args[k as usize], depth as i64, 0)
            } else {
                bvar((*i as u64 - args.len() as u64) as u32)
            }
        },
        ExprData::Sort(_) => e.clone(),
        ExprData::Const(_, _) => e.clone(),
        ExprData::App(f, a) => app(
            instantiate_at(f, args, depth),
            instantiate_at(a, args, depth),
        ),
        ExprData::Lam(bi, ty, b) => lam(
            *bi,
            instantiate_at(ty, args, depth),
            instantiate_at(b, args, depth + 1),
        ),
        ExprData::Pi(bi, ty, b) => pi(
            *bi,
            instantiate_at(ty, args, depth),
            instantiate_at(b, args, depth + 1),
        ),
        ExprData::Let(ty, v, b) => let_(
            instantiate_at(ty, args, depth),
            instantiate_at(v, args, depth),
            instantiate_at(b, args, depth + 1),
        ),
        ExprData::Proj(s, i, v) => proj(*s, *i, instantiate_at(v, args, depth)),
        ExprData::Lit(_) => e.clone(),
    }
}

/// The term with the loose variables `0, 1, ..` replaced by the arguments.
pub fn instantiate(e: &Expr, args: &Vec<Expr>) -> (r: Expr)
    ensures
        r@ == plug(e@, args.deep_view(), 0),
{
    instantiate_at(e, args, 0)
}

/// The body of a binder with its variable replaced.
pub fn instantiate1(body: &Expr, a: &Expr) -> (r: Expr)
    ensures
        r@ == plug1(body@, a@),
{
    let mut args: Vec<Expr> = Vec::new();
    args.push(a.clone());
    assert(args.deep_view() =~= seq![a@]);
    instantiate_at(body, &args, 0)
}

/// The term with each universe parameter `ps[i]` replaced by `us[i]`.
pub open spec fn subst_params(t: Term, ps: Seq<u32>, us: Seq<Univ>) -> Term
    decreases t,
{
    match t {
        Term::BVar(_) => t,
        Term::Sort(l) => Term::Sort(univ_subst(l, ps, us)),
        Term::Const(n, ls) => Term::Const(n, univs_subst(ls, ps, us)),
        Term::App(f, a) => Term::App(
            Box::new(subst_params(*f, ps, us)),
            Box::new(subst_params(*a, ps, us)),
        ),
        Term::Lam(bi, ty, b) => Term::Lam(
            bi,
            Box::new(subst_params(*ty, ps, us)),
            Box::new(subst_params(*b, ps, us)),
        ),
        Term::Pi(bi, ty, b) => Term::Pi(
            bi,
            Box::new(subst_params(*ty, ps, us)),
            Box::new(subst_params(*b, ps, us)),
        ),
        Term::Let(ty, v, b) => Term::Let(
            Box::new(subst_params(*ty, ps, us)),
            Box::new(subst_params(*v, ps, us)),
            Box::new(subst_params(*b, ps, us)),
        ),
        Term::Proj(s, i, v) => Term::Proj(s, i, Box::new(subst_params(*v, ps, us))),
        Term::Lit(_) => t,
    }
}

proof fn lemma_univ_no_params(l: Univ, ps: Seq<u32>, us: Seq<Univ>)
    requires
        !univ_has_params(l),
    ensures
        univ_subst(l, ps, us) == l,
    decreases l,
{
    match l {
        Univ::Succ(a) => lemma_univ_no_params(*a, ps, us),
        Univ::Max(a, b) => {
            lemma_univ_no_params(*a, ps, us);
            lemma_univ_no_params(*b, ps, us);
        },
        Univ::IMax(a, b) => {
            lemma_univ_no_params(*a, ps, us);
            lemma_univ_no_params(*b, ps, us);
        },
        _ => {},
    }
}

/// A term without universe parameters is left alone by their substitution.
pub proof fn law_subst_no_params(t: Term, ps: Seq<u32>, us: Seq<Univ>)
    requires
        !has_params(t),
    ensures
        subst_params(t, ps, us) == t,
    decreases t,
{
    match t {
        Term::Sort(l) => lemma_univ_no_params(l, ps, us),
        Term::Const(n, ls) => {
            assert forall|i: int| 0 <= i < ls.len() implies univ_subst(
                #[trigger] ls[i],
                ps,
                us,
            ) == ls[i] by {
                assert(!univ_has_params(ls[i]));
                lemma_univ_no_params(ls[i], ps, us);
            }
            assert(univs_subst(ls, ps, us) =~= ls);
        },
        Term::App(f, a) => {
            law_subst_no_params(*f, ps, us);
            law_subst_no_params(*a, ps, us);
        },
        Term::Lam(_, ty, b) => {
            law_subst_no_params(*ty, ps, us);
            law_subst_no_params(*b, ps, us);
        },
        Term::Pi(_, ty, b) => {
            law_subst_no_params(*ty, ps, us);
            law_subst_no_params(*b, ps, us);
        },
        Term::Let(ty, v, b) => {
            law_subst_no_params(*ty, ps, us);
            law_subst_no_params(*v, ps, us);
            law_subst_no_params(*b, ps, us);
        },
        Term::Proj(_, _, v) => law_subst_no_params(*v, ps, us),
        _ => {},
    }
}

/// The term with each universe parameter `ps[i]` replaced by `us[i]`.
pub fn instantiate_level_params(e: &Expr, ps: &Vec<u32>, us: &Vec<Level>) -> (r: Expr)
    ensures
        r@ == subst_params(e@, ps@, us.deep_view()),
    decreases e,
{
    if !e.mentions_params() {
        proof {
            law_subst_no_params(e@, ps@, us.deep_view());
        }
        return e.clone();
    }
    match e.data() {
        ExprData::BVar(_) => e.clone(),
        ExprData::Sort(l) => sort(subst(l, ps, us)),
        ExprData::Const(n, ls) => const_(*n, subst_all(ls, ps, us)),
        ExprData::App(f, a) => app(
            instantiate_level_params(f, ps, us),
            instantiate_level_params(a, ps, us),
        ),
        ExprData::Lam(bi, ty, b) => lam(
            *bi,
            instantiate_level_params(ty, ps, us),
            instantiate_level_params(b, ps, us),
        ),
        ExprData::Pi(bi, ty, b) => pi(
            *bi,
            instantiate_level_params(ty, ps, us),
            instantiate_level_params(b, ps, us),
        ),
        ExprData::Let(ty, v, b) => let_(
            instantiate_level_params(ty, ps, us),
            instantiate_level_params(v, ps, us),
            instantiate_level_params(b, ps, us),
        ),
        ExprData::Proj(s, i, v) => proj(*s, *i, instantiate_level_params(v, ps, us)),
        ExprData::Lit(_) => e.clone(),
    }
}

/// Whether the loose variable `j` occurs in a term.
pub open spec fn uses_bvar(t: Term, j: nat) -> bool
    decreases t,
{
    match t {
        Term::BVar(i) => i as nat == j,
        Term::Sort(_) => false,
        Term::Const(_, _) => false,
        Term::App(f, a) => uses_bvar(*f, j) || uses_bvar(*a, j),
        Term::Lam(_, ty, b) => uses_bvar(*ty, j) || uses_bvar(*b, j + 1),
        Term::Pi(_, ty, b) => uses_bvar(*ty, j) || uses_bvar(*b, j + 1),
        Term::Let(ty, v, b) => uses_bvar(*ty, j) || uses_bvar(*v, j) || uses_bvar(*b, j + 1),
        Term::Proj(_, _, v) => uses_bvar(*v, j),
        Term::Lit(_) => false,
    }
}

/// A variable occurs only below the range of the loose variables.
pub proof fn law_uses_below_loose(t: Term, j: nat)
    requires
        loose(t) <= j,
    ensures
        !uses_bvar(t, j),
    decreases t,
{
    match t {
        Term::App(f, a) => {
            law_uses_below_loose(*f, j);
            law_uses_below_loose(*a, j);
        },
        Term::Lam(_, ty, b) => {
            law_uses_below_loose(*ty, j);
            law_uses_below_loose(*b, j + 1);
        },
        Term::Pi(_, ty, b) => {
            law_uses_below_loose(*ty, j);
            law_uses_below_loose(*b, j + 1);
        },
        Term::Let(ty, v, b) => {
            law_uses_below_loose(*ty, j);
            law_uses_below_loose(*v, j);
            law_uses_below_loose(*b, j + 1);
        },
        Term::Proj(_, _, v) => law_uses_below_loose(*v, j),
        _ => {},
    }
}

/// The range of the loose variables is tight: the variable just below it occurs.
pub proof fn law_loose_is_used(t: Term)
    requires
        loose(t) > 0,
    ensures
        uses_bvar(t, (loose(t) - 1) as nat),
    decreases t,
{
    match t {
        Term::App(f, a) => {
            if loose(*f) == loose(t) {
                law_loose_is_used(*f);
            } else {
                law_loose_is_used(*a);
            }
        },
        Term::Lam(_, ty, b) => {
            if loose(*ty) == loose(t) {
                law_loose_is_used(*ty);
            } else {
                law_loose_is_used(*b);
            }
        },
        Term::Pi(_, ty, b) => {
            if loose(*ty) == loose(t) {
                law_loose_is_used(*ty);
            } else {
                law_loose_is_used(*b);
            }
        },
        Term::Let(ty, v, b) => {
            if loose(*ty) == loose(t) {
                law_loose_is_used(*ty);
            } else if loose(*v) == loose(t) {
                law_loose_is_used(*v);
            } else {
                law_loose_is_used(*b);
            }
        },
        Term::Proj(_, _, v) => law_loose_is_used(*v),
        _ => {},
    }
}

/// Whether the loose variable `j` occurs in a term.
pub fn occurs_bvar(e: &Expr, j: u64) -> (r: bool)
    ensures
        r == uses_bvar(e@, j as nat),
    decreases e,
{
    if e.loose_range() <= j {
        proof {
            law_uses_below_loose(e@, j as nat);
        }
        return false;
    }
    match e.data() {
        ExprData::BVar(i) => *i as u64 == j,
        ExprData::Sort(_) => false,
        ExprData::Const(_, _) => false,
        ExprData::App(f, a) => occurs_bvar(f, j) || occurs_bvar(a, j),
        ExprData::Lam(_, ty, b) => occurs_bvar(ty, j) || occurs_bvar(b, j + 1),
        ExprData::Pi(_, ty, b) => occurs_bvar(ty, j) || occurs_bvar(b, j + 1),
        ExprData::Let(ty, v, b) => occurs_bvar(ty, j) || occurs_bvar(v, j) || occurs_bvar(b, j + 1),
        ExprData::Proj(_, _, v) => occurs_bvar(v, j),
        ExprData::Lit(_) => false,
    }
}

/// Whether a loose variable from `lo` up to below `hi` occurs, counted outside
/// `inner` binders.
pub open spec fn uses_between(t: Term, lo: nat, hi: nat, inner: nat) -> bool {
    exists|j: nat| lo <= j < hi && #[trigger] uses_bvar(t, (inner + j) as nat)
}

proof fn lemma_between_step(t: Term, lo: nat, hi: nat, inner: nat)
    ensures
        uses_between(t, lo, hi, inner) <==> match t {
            Term::BVar(i) => inner + lo <= i < inner + hi,
            Term::Sort(_) => false,
            Term::Const(_, _) => false,
            Term::App(f, a) => uses_between(*f, lo, hi, inner) || uses_between(*a, lo, hi, inner),
            Term::Lam(_, ty, b) => uses_between(*ty, lo, hi, inner) || uses_between(
                *b,
                lo,
                hi,
                inner + 1,
            ),
            Term::Pi(_, ty, b) => uses_between(*ty, lo, hi, inner) || uses_between(
                *b,
                lo,
                hi,
                inner + 1,
            ),
            Term::Let(ty, v, b) => uses_between(*ty, lo, hi, inner) || uses_between(
                *v,
                lo,
                hi,
                inner,
            ) || uses_between(*b, lo, hi, inner + 1),
            Term::Proj(_, _, v) => uses_between(*v, lo, hi, inner),
            Term::Lit(_) => false,
        },
{
    if uses_between(t, lo, hi, inner) {
        let j = choose|j: nat| lo <= j < hi && #[trigger] uses_bvar(t, (inner + j) as nat);
        match t {
            Term::App(f, a) => {
                assert(uses_bvar(*f, (inner + j) as nat) || uses_bvar(*a, (inner + j) as nat));
            },
            Term::Lam(_, ty, b) => {
                assert(uses_bvar(*ty, (inner + j) as nat) || uses_bvar(
                    *b,
                    (inner + 1 + j) as nat,
                ));
            },
            Term::Pi(_, ty, b) => {
                assert(uses_bvar(*ty, (inner + j) as nat) || uses_bvar(
                    *b,
                    (inner + 1 + j) as nat,
                ));
            },
            Term::Let(ty, v, b) => {
                assert(uses_bvar(*ty, (inner + j) as nat) || uses_bvar(*v, (inner + j) as nat)
                    || uses_bvar(*b, (inner + 1 + j) as nat));
            },
            Term::Proj(_, _, v) => {
                assert(uses_bvar(*v, (inner + j) as nat));
            },
            _ => {},
        }
    }
    match t {
        Term::BVar(i) => {
            if inner + lo <= i < inner + hi {
                assert(uses_bvar(t, (inner + (i - inner) as nat) as nat));
            }
        },
        Term::App(f, a) => {
            lemma_between_up(*f, t, lo, hi, inner, inner);
            lemma_between_up(*a, t, lo, hi, inner, inner);
        },
        Term::Lam(_, ty, b) => {
            lemma_between_up(*ty, t, lo, hi, inner, inner);
            lemma_between_up(*b, t, lo, hi, inner + 1, inner);
        },
        Term::Pi(_, ty, b) => {
            lemma_between_up(*ty, t, lo, hi, inner, inner);
            lemma_between_up(*b, t, lo, hi, inner + 1, inner);
        },
        Term::Let(ty, v, b) => {
            lemma_between_up(*ty, t, lo, hi, inner, inner);
            lemma_between_up(*v, t, lo, hi, inner, inner);
            lemma_between_up(*b, t, lo, hi, inner + 1, inner);
        },
        Term::Proj(_, _, v) => lemma_between_up(*v, t, lo, hi, inner, inner),
        _ => {},
    }
}

proof fn lemma_between_up(part: Term, t: Term, lo: nat, hi: nat, low: nat, inner: nat)
    requires
        forall|j: nat| #[trigger]
            uses_bvar(part, (low + j) as nat) ==> uses_bvar(t, (inner + j) as nat),
    ensures
        uses_between(part, lo, hi, low) ==> uses_between(t, lo, hi, inner),
{
    if uses_between(part, lo, hi, low) {
        let j = choose|j: nat| lo <= j < hi && #[trigger] uses_bvar(part, (low + j) as nat);
        assert(uses_bvar(t, (inner + j) as nat));
    }
}

/// Whether a loose variable from `lo` up to below `hi` occurs, counted outside
/// `inner` binders.
pub fn has_bvar_in_range(e: &Expr, lo: u32, hi: u32, inner: u32) -> (r: bool)
    ensures
        r == uses_between(e@, lo as nat, hi as nat, inner as nat),
{
    bvar_between(e, lo, hi, inner as u64)
}

fn bvar_between(e: &Expr, lo: u32, hi: u32, inner: u64) -> (r: bool)
    ensures
        r == uses_between(e@, lo as nat, hi as nat, inner as nat),
    decreases e,
{
    proof {
        lemma_between_step(e@, lo as nat, hi as nat, inner as nat);
    }
    if e.loose_range() <= inner {
        proof {
            if uses_between(e@, lo as nat, hi as nat, inner as nat) {
                let j = choose|j: nat|
                    lo <= j < hi && #[trigger] uses_bvar(e@, (inner + j) as nat);
                law_uses_below_loose(e@, (inner + j) as nat);
            }
        }
        return false;
    }
    match e.data() {
        ExprData::BVar(i) => {
            let k: u64 = *i as u64 - inner;
            k >= lo as u64 && k < hi as u64
        },
        ExprData::Sort(_) => false,
        ExprData::Const(_, _) => false,
        ExprData::App(f, a) => bvar_between(f, lo, hi, inner) || bvar_between(a, lo, hi, inner),
        ExprData::Lam(_, ty, b) => bvar_between(ty, lo, hi, inner) || bvar_between(
            b,
            lo,
            hi,
            inner + 1,
        ),
        ExprData::Pi(_, ty, b) => bvar_between(ty, lo, hi, inner) || bvar_between(
            b,
            lo,
            hi,
            inner + 1,
        ),
        ExprData::Let(ty, v, b) => bvar_between(ty, lo, hi, inner) || bvar_between(
            v,
            lo,
            hi,
            inner,
        ) || bvar_between(b, lo, hi, inner + 1),
        ExprData::Proj(_, _, v) => bvar_between(v, lo, hi, inner),
        ExprData::Lit(_) => false,
    }
}

/// The distinct universe parameters of a list of levels, behind those already
/// collected.
pub open spec fn levels_ids(us: Seq<Univ>, seen: Seq<u32>) -> Seq<u32>
    decreases us.len(),
{
    if us.len() == 0 {
        seen
    } else {
        level_ids(us.last(), levels_ids(us.drop_last(), seen))
    }
}

/// The distinct universe parameters of a term in order of first occurrence,
/// behind those already collected.
pub open spec fn term_ids(t: Term, seen: Seq<u32>) -> Seq<u32>
    decreases t,
{
    match t {
        Term::BVar(_) => seen,
        Term::Lit(_) => seen,
        Term::Sort(l) => level_ids(l, seen),
        Term::Const(_, us) => levels_ids(us, seen),
        Term::App(f, a) => term_ids(*a, term_ids(*f, seen)),
        Term::Lam(_, ty, b) => term_ids(*b, term_ids(*ty, seen)),
        Term::Pi(_, ty, b) => term_ids(*b, term_ids(*ty, seen)),
        Term::Let(ty, v, b) => term_ids(*b, term_ids(*v, term_ids(*ty, seen))),
        Term::Proj(_, _, v) => term_ids(*v, seen),
    }
}

/// Collects the distinct universe parameters of a term in order of first
/// occurrence.
pub fn collect_level_ids_expr(e: &Expr, out: &mut Vec<u32>)
    ensures
        final(out)@ == term_ids(e@, old(out)@),
    decreases e,
{
    match e.data() {
        ExprData::BVar(_) => {},
        ExprData::Lit(_) => {},
        ExprData::Sort(l) => collect_level_ids_level(l, out),
        ExprData::Const(_, ls) => {
            let ghost before = out@;
            let ghost all = (**ls).deep_view();
            let mut i: usize = 0;
            while i < ls.len()
                invariant
                    i <= ls.len(),
                    all == (**ls).deep_view(),
                    out@ == levels_ids(all.take(i as int), before),
                decreases ls.len() - i,
            {
                collect_level_ids_level(&ls[i], out);
                i = i + 1;
                assert(all.take(i as int).drop_last() =~= all.take(i - 1));
            }
            assert(all.take(i as int) =~= all);
        },
        ExprData::App(f, a) => {
            collect_level_ids_expr(f, out);
            collect_level_ids_expr(a, out);
        },
        ExprData::Lam(_, ty, b) => {
            collect_level_ids_expr(ty, out);
            collect_level_ids_expr(b, out);
        },
        ExprData::Pi(_, ty, b) => {
            collect_level_ids_expr(ty, out);
            collect_level_ids_expr(b, out);
        },
        ExprData::Let(ty, v, b) => {
            collect_level_ids_expr(ty, out);
            collect_level_ids_expr(v, out);
            collect_level_ids_expr(b, out);
        },
        ExprData::Proj(_, _, v) => collect_level_ids_expr(v, out),
    }
}

/// The number of nodes of a term, counted as a tree.
pub open spec fn tree_size(t: Term) -> nat
    decreases t,
{
    match t {
        Term::App(f, a) => 1 + tree_size(*f) + tree_size(*a),
        Term::Lam(_, ty, b) => 1 + tree_size(*ty) + tree_size(*b),
        Term::Pi(_, ty, b) => 1 + tree_size(*ty) + tree_size(*b),
        Term::Let(ty, v, b) => 1 + tree_size(*ty) + tree_size(*v) + tree_size(*b),
        Term::Proj(_, _, v) => 1 + tree_size(*v),
        _ => 1,
    }
}

fn size_up_to(e: &Expr, room: u32) -> (r: u32)
    requires
        room > 0,
    ensures
        r as nat == (if tree_size(e@) >= room {
            room as nat
        } else {
            tree_size(e@)
        }),
        r > 0,
    decreases e,
{
    if room == 1 {
        return 1;
    }
    match e.data() {
        ExprData::App(f, a) => {
            let n: u32 = 1 + size_up_to(f, room - 1);
            if n >= room {
                return room;
            }
            n + size_up_to(a, room - n)
        },
        ExprData::Lam(_, ty, b) => {
            let n: u32 = 1 + size_up_to(ty, room - 1);
            if n >= room {
                return room;
            }
            n + size_up_to(b, room - n)
        },
        ExprData::Pi(_, ty, b) => {
            let n: u32 = 1 + size_up_to(ty, room - 1);
            if n >= room {
                return room;
            }
            n + size_up_to(b, room - n)
        },
        ExprData::Let(ty, v, b) => {
            let n: u32 = 1 + size_up_to(ty, room - 1);
            if n >= room {
                return room;
            }
            let m: u32 = n + size_up_to(v, room - n);
            if m >= room {
                return room;
            }
            m + size_up_to(b, room - m)
        },
        ExprData::Proj(_, _, v) => 1 + size_up_to(v, room - 1),
        _ => 1,
    }
}

/// The number of nodes of a term counted as a tree, but no more than the cap.
pub fn expr_size_capped(e: &Expr, cap: u32) -> (r: u32)
    ensures
        r as nat == (if tree_size(e@) >= cap {
            cap as nat
        } else {
            tree_size(e@)
        }),
{
    if cap == 0 {
        return 0;
    }
    size_up_to(e, cap)
}

/// Moving variables up by `by` raises their range by no more than that.
pub proof fn law_lift_loose(t: Term, by: nat, cut: nat, n: nat)
    requires
        loose(t) <= cut + n,
    ensures
        loose(lift(t, by as int, cut)) <= cut + n + by,
    decreases t,
{
    match t {
        Term::App(f, a) => {
            law_lift_loose(*f, by, cut, n);
            law_lift_loose(*a, by, cut, n);
        },
        Term::Lam(_, ty, b) => {
            law_lift_loose(*ty, by, cut, n);
            law_lift_loose(*b, by, cut + 1, n);
        },
        Term::Pi(_, ty, b) => {
            law_lift_loose(*ty, by, cut, n);
            law_lift_loose(*b, by, cut + 1, n);
        },
        Term::Let(ty, v, b) => {
            law_lift_loose(*ty, by, cut, n);
            law_lift_loose(*v, by, cut, n);
            law_lift_loose(*b, by, cut + 1, n);
        },
        Term::Proj(_, _, v) => law_lift_loose(*v, by, cut, n),
        _ => {},
    }
}

/// Replacing variables discharges them: what is left reaches no further than the
/// term did behind the replaced variables, or than the arguments do.
pub proof fn law_plug_loose(t: Term, args: Seq<Term>, depth: nat, n: nat)
    requires
        loose(t) <= depth + args.len() + n,
        forall|i: int| 0 <= i < args.len() ==> loose(#[trigger] args[i]) <= n,
    ensures
        loose(plug(t, args, depth)) <= depth + n,
    decreases t,
{
    match t {
        Term::BVar(i) => {
            if depth <= i && i - depth < args.len() {
                law_lift_loose(args[i - depth], depth, 0, n);
            }
        },
        Term::App(f, a) => {
            law_plug_loose(*f, args, depth, n);
            law_plug_loose(*a, args, depth, n);
        },
        Term::Lam(_, ty, b) => {
            law_plug_loose(*ty, args, depth, n);
            law_plug_loose(*b, args, depth + 1, n);
        },
        Term::Pi(_, ty, b) => {
            law_plug_loose(*ty, args, depth, n);
            law_plug_loose(*b, args, depth + 1, n);
        },
        Term::Let(ty, v, b) => {
            law_plug_loose(*ty, args, depth, n);
            law_plug_loose(*v, args, depth, n);
            law_plug_loose(*b, args, depth + 1, n);
        },
        Term::Proj(_, _, v) => law_plug_loose(*v, args, depth, n),
        _ => {},
    }
}

/// Peeling a binder and replacing its variable leaves a term at the depth of the
/// binder: no loose variable beyond those of the whole term and the argument.
pub proof fn law_instantiate_keeps_depth(body: Term, a: Term, n: nat)
    requires
        pred_nat(loose(body)) <= n,
        loose(a) <= n,
    ensures
        loose(plug1(body, a)) <= n,
{
    law_plug_loose(body, seq![a], 0, n);
}

/// Whether a universe parameter occurs in a term.
pub open spec fn names_param(t: Term, p: u32) -> bool
    decreases t,
{
    match t {
        Term::BVar(_) => false,
        Term::Lit(_) => false,
        Term::Sort(l) => univ_mentions(l, p),
        Term::Const(_, us) => exists|i: int| 0 <= i < us.len() && univ_mentions(#[trigger] us[i], p),
        Term::App(f, a) => names_param(*f, p) || names_param(*a, p),
        Term::Lam(_, ty, b) => names_param(*ty, p) || names_param(*b, p),
        Term::Pi(_, ty, b) => names_param(*ty, p) || names_param(*b, p),
        Term::Let(ty, v, b) => names_param(*ty, p) || names_param(*v, p) || names_param(*b, p),
        Term::Proj(_, _, v) => names_param(*v, p),
    }
}

spec fn is_collection(r: Seq<u32>, seen: Seq<u32>, occurs: spec_fn(u32) -> bool) -> bool {
    &&& goes_on_fresh(r, seen)
    &&& forall|p: u32| #[trigger] r.contains(p) <==> seen.contains(p) || occurs(p)
    &&& (forall|p: u32| #[trigger] occurs(p) ==> seen.contains(p)) ==> r == seen
}

proof fn lemma_collect_both(
    seen: Seq<u32>,
    mid: Seq<u32>,
    r: Seq<u32>,
    f: spec_fn(u32) -> bool,
    g: spec_fn(u32) -> bool,
    both: spec_fn(u32) -> bool,
)
    requires
        is_collection(mid, seen, f),
        is_collection(r, mid, g),
        forall|p: u32| #[trigger] both(p) <==> f(p) || g(p),
    ensures
        is_collection(r, seen, both),
{
    law_goes_on_further(r, mid, seen);
    assert forall|p: u32| #[trigger] r.contains(p) <==> seen.contains(p) || both(p) by {
        assert(both(p) <==> f(p) || g(p));
        assert(mid.contains(p) <==> seen.contains(p) || f(p));
    }
    if forall|p: u32| #[trigger] both(p) ==> seen.contains(p) {
        assert forall|p: u32| #[trigger] f(p) implies seen.contains(p) by {
            assert(both(p));
        }
        assert forall|p: u32| #[trigger] g(p) implies mid.contains(p) by {
            assert(both(p));
        }
    }
}

proof fn lemma_levels_collected(us: Seq<Univ>, seen: Seq<u32>)
    ensures
        is_collection(
            levels_ids(us, seen),
            seen,
            |p: u32| exists|i: int| 0 <= i < us.len() && univ_mentions(#[trigger] us[i], p),
        ),
    decreases us.len(),
{
    let occurs = |p: u32|
        exists|i: int| 0 <= i < us.len() && univ_mentions(#[trigger] us[i], p);
    if us.len() == 0 {
        assert(seen.take(seen.len() as int) =~= seen);
    } else {
        let front = us.drop_last();
        let mid = levels_ids(front, seen);
        let f = |p: u32|
            exists|i: int| 0 <= i < front.len() && univ_mentions(#[trigger] front[i], p);
        let g = |p: u32| univ_mentions(us.last(), p);
        lemma_levels_collected(front, seen);
        lemma_level_collected(us.last(), mid);
        assert forall|p: u32| #[trigger] occurs(p) <==> f(p) || g(p) by {
            if occurs(p) {
                let i = choose|i: int| 0 <= i < us.len() && univ_mentions(#[trigger] us[i], p);
                if i < front.len() {
                    assert(univ_mentions(front[i], p));
                }
            }
            if f(p) {
                let i = choose|i: int|
                    0 <= i < front.len() && univ_mentions(#[trigger] front[i], p);
                assert(univ_mentions(us[i], p));
            }
            if g(p) {
                assert(univ_mentions(us[us.len() - 1], p));
            }
        }
        lemma_collect_both(seen, mid, levels_ids(us, seen), f, g, occurs);
    }
}

proof fn lemma_level_collected(l: Univ, seen: Seq<u32>)
    ensures
        is_collection(level_ids(l, seen), seen, |p: u32| univ_mentions(l, p)),
{
    let occurs = |p: u32| univ_mentions(l, p);
    law_level_ids_append(l, seen);
    assert forall|p: u32| #[trigger] level_ids(l, seen).contains(p) <==> seen.contains(p) || occurs(
        p,
    ) by {
        assert(occurs(p) == univ_mentions(l, p));
    }
    if forall|p: u32| #[trigger] occurs(p) ==> seen.contains(p) {
        assert forall|p: u32| #[trigger] univ_mentions(l, p) implies seen.contains(p) by {
            assert(occurs(p));
        }
    }
}

proof fn lemma_term_collected(t: Term, seen: Seq<u32>)
    ensures
        is_collection(term_ids(t, seen), seen, |p: u32| names_param(t, p)),
    decreases t, 1nat,
{
    let occurs = |p: u32| names_param(t, p);
    match t {
        Term::BVar(_) => {
            assert(seen.take(seen.len() as int) =~= seen);
        },
        Term::Lit(_) => {
            assert(seen.take(seen.len() as int) =~= seen);
        },
        Term::Sort(l) => {
            lemma_level_collected(l, seen);
            let f = |p: u32| univ_mentions(l, p);
            assert(forall|p: u32| #[trigger] occurs(p) <==> f(p));
            assert(occurs =~= f);
        },
        Term::Const(_, us) => {
            lemma_levels_collected(us, seen);
            let f = |p: u32| exists|i: int| 0 <= i < us.len() && univ_mentions(#[trigger] us[i], p);
            assert(forall|p: u32| #[trigger] occurs(p) <==> f(p));
            assert(occurs =~= f);
        },
        Term::App(a, b) => lemma_two_collected(t, *a, *b, seen),
        Term::Lam(_, a, b) => lemma_two_collected(t, *a, *b, seen),
        Term::Pi(_, a, b) => lemma_two_collected(t, *a, *b, seen),
        Term::Let(a, v, b) => {
            let m1 = term_ids(*a, seen);
            let m2 = term_ids(*v, m1);
            let fa = |p: u32| names_param(*a, p);
            let fv = |p: u32| names_param(*v, p);
            let fb = |p: u32| names_param(*b, p);
            let fav = |p: u32| names_param(*a, p) || names_param(*v, p);
            lemma_term_collected(*a, seen);
            lemma_term_collected(*v, m1);
            lemma_term_collected(*b, m2);
            lemma_collect_both(seen, m1, m2, fa, fv, fav);
            lemma_collect_both(seen, m2, term_ids(t, seen), fav, fb, occurs);
        },
        Term::Proj(_, _, v) => {
            lemma_term_collected(*v, seen);
            let f = |p: u32| names_param(*v, p);
            assert(forall|p: u32| #[trigger] occurs(p) <==> f(p));
            assert(occurs =~= f);
        },
    }
}

proof fn lemma_two_collected(t: Term, a: Term, b: Term, seen: Seq<u32>)
    requires
        decreases_to!(t => a),
        decreases_to!(t => b),
        term_ids(t, seen) == term_ids(b, term_ids(a, seen)),
        forall|p: u32| #[trigger] names_param(t, p) <==> names_param(a, p) || names_param(b, p),
    ensures
        is_collection(term_ids(t, seen), seen, |p: u32| names_param(t, p)),
    decreases t, 0nat,
{
    lemma_term_collected(a, seen);
    lemma_term_collected(b, term_ids(a, seen));
    lemma_collect_both(
        seen,
        term_ids(a, seen),
        term_ids(t, seen),
        |p: u32| names_param(a, p),
        |p: u32| names_param(b, p),
        |p: u32| names_param(t, p),
    );
}

/// Collecting the universe parameters of a term leaves those collected before in
/// their places and appends those that occur and are not there, none twice.
/// Collecting a second time appends nothing.
pub proof fn law_term_ids(t: Term, seen: Seq<u32>)
    ensures
        goes_on_fresh(term_ids(t, seen), seen),
        seen.no_duplicates() ==> term_ids(t, seen).no_duplicates(),
        forall|p: u32| #[trigger]
            term_ids(t, seen).contains(p) <==> seen.contains(p) || names_param(t, p),
        term_ids(t, term_ids(t, seen)) == term_ids(t, seen),
{
    let occurs = |p: u32| names_param(t, p);
    let r = term_ids(t, seen);
    lemma_term_collected(t, seen);
    lemma_term_collected(t, r);
    assert forall|p: u32| #[trigger] r.contains(p) <==> seen.contains(p) || names_param(t, p) by {
        assert(occurs(p) == names_param(t, p));
    }
    assert forall|p: u32| #[trigger] occurs(p) implies r.contains(p) by {}
    if seen.no_duplicates() {
        assert forall|i: int, j: int|
            0 <= i < r.len() && 0 <= j < r.len() && i != j implies r[i] != r[j] by {
            if i < seen.len() && j < seen.len() {
                assert(r.take(seen.len() as int)[i] == r[i]);
                assert(r.take(seen.len() as int)[j] == r[j]);
            } else if i < j {
                assert(r[j] != r[i]);
            }
        }
    }
}

} // verus!
