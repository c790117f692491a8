//! Linear constraints with integer coefficients, as the omega procedure keeps
//! them.

use crate::closed::{both, closed_int_term};
use crate::ctx::Ctx;
use crate::errors::{res, R};
use crate::expr::{
    app, apps_from, lit_nat, mk_apps, proj, spine_args, unfold_apps, Expr, ExprData, Term,
};
use crate::ext::with_rest;
use crate::ints::{divides, ediv, gcd, int_ediv, law_euclidean_division, law_gcd};
use crate::judge::sem_at;
use crate::kernel::{Budget, Checker, K, Mode, Res, Sem};
use crate::lists::{
    at_or_zero, combine_coeffs, combine_lists, gcd_all, gcd_from, gcd_of, int_list_term,
    is_int_list, list_gcd_spec, list_values_spec, magnitude,
};
use crate::lookup::{name_of, plain_const};
use crate::names::{
    app1, app2, at_zero, const_at_zero, find_name_ending_spec, find_name_spec, headed_by, mk_app2,
    nat_lit, plain,
};
use crate::num::Integer;
use crate::text::{is_infix, is_named, named, str_contains};
use vstd::prelude::*;

verus! {

/// A constraint: a combination of unknowns with bounds on its value.
pub struct Constraint {
    pub lo: Option<Integer>,
    pub hi: Option<Integer>,
    pub coeffs: Vec<Integer>,
}

/// The mathematical reading of a [`Constraint`].
pub struct Ineq {
    pub lo: Option<int>,
    pub hi: Option<int>,
    pub coeffs: Seq<int>,
}

impl View for Constraint {
    type V = Ineq;

    open spec fn view(&self) -> Ineq {
        Ineq {
            lo: self.lo.deep_view(),
            hi: self.hi.deep_view(),
            coeffs: self.coeffs.deep_view(),
        }
    }
}

/// Whether a value lies within bounds.
pub open spec fn in_bounds(lo: Option<int>, hi: Option<int>, t: int) -> bool {
    (lo matches Some(l) ==> l <= t) && (hi matches Some(h) ==> t <= h)
}

/// The value of a combination of unknowns, from position `i` on.
pub open spec fn dot_from(c: Seq<int>, v: Seq<int>, i: nat) -> int
    decreases c.len() - i,
{
    if i >= c.len() {
        0
    } else {
        c[i as int] * at_or_zero(v, i as int) + dot_from(c, v, i + 1)
    }
}

/// Whether unknowns of the given values meet a constraint.
pub open spec fn meets(q: Ineq, v: Seq<int>) -> bool {
    in_bounds(q.lo, q.hi, dot_from(q.coeffs, v, 0))
}

/// A bound negated.
pub open spec fn neg_bound(b: Option<int>) -> Option<int> {
    match b {
        Some(x) => Some(-x),
        None => None,
    }
}

/// The values negated.
pub open spec fn negate_all(vs: Seq<int>) -> Seq<int> {
    Seq::new(vs.len(), |i: int| -vs[i])
}

/// The first value that is not zero, from position `i` on.
pub open spec fn leading_from(vs: Seq<int>, i: nat) -> int
    decreases vs.len() - i,
{
    if i >= vs.len() {
        0
    } else if vs[i as int] != 0 {
        vs[i as int]
    } else {
        leading_from(vs, i + 1)
    }
}

/// A constraint whose leading coefficient is not negative.
pub open spec fn positive_spec(q: Ineq) -> Ineq {
    if leading_from(q.coeffs, 0) < 0 {
        Ineq { lo: neg_bound(q.hi), hi: neg_bound(q.lo), coeffs: negate_all(q.coeffs) }
    } else {
        q
    }
}

/// The least integer that a bound divided by `g` leaves.
pub open spec fn lower_quotient(b: Option<int>, g: int) -> Option<int> {
    match b {
        Some(x) => Some(-ediv(-x, g)),
        None => None,
    }
}

/// The greatest integer that a bound divided by `g` leaves.
pub open spec fn upper_quotient(b: Option<int>, g: int) -> Option<int> {
    match b {
        Some(x) => Some(ediv(x, g)),
        None => None,
    }
}

/// The values divided by `g`.
pub open spec fn divide_all(vs: Seq<int>, g: int) -> Seq<int> {
    Seq::new(vs.len(), |i: int| ediv(vs[i], g))
}

/// A constraint divided by the common divisor of its coefficients. One without
/// unknowns either says nothing or cannot be met.
pub open spec fn reduced_spec(q: Ineq) -> Ineq {
    let g = gcd_all(q.coeffs);
    if g == 0 {
        if in_bounds(q.lo, q.hi, 0) {
            Ineq { lo: None, hi: None, coeffs: q.coeffs }
        } else {
            Ineq { lo: Some(1), hi: Some(0), coeffs: q.coeffs }
        }
    } else if g == 1 {
        q
    } else {
        Ineq {
            lo: lower_quotient(q.lo, g as int),
            hi: upper_quotient(q.hi, g as int),
            coeffs: divide_all(q.coeffs, g as int),
        }
    }
}

/// A constraint in normal form.
pub open spec fn tidy_spec(q: Ineq) -> Ineq {
    reduced_spec(positive_spec(q))
}

/// The bounds of a multiple.
pub open spec fn scaled_bounds(k: int, lo: Option<int>, hi: Option<int>) -> (
    Option<int>,
    Option<int>,
) {
    if k == 0 {
        if (lo matches Some(l) && (hi matches Some(h) && h < l)) {
            (lo, hi)
        } else {
            (Some(0), Some(0))
        }
    } else if k > 0 {
        (times_bound(k, lo), times_bound(k, hi))
    } else {
        (times_bound(k, hi), times_bound(k, lo))
    }
}

/// A multiple of a bound.
pub open spec fn times_bound(k: int, b: Option<int>) -> Option<int> {
    match b {
        Some(x) => Some(k * x),
        None => None,
    }
}

/// The sum of two bounds.
pub open spec fn plus_bound(a: Option<int>, b: Option<int>) -> Option<int> {
    match (a, b) {
        (Some(x), Some(y)) => Some(x + y),
        _ => None,
    }
}

proof fn lemma_dot_negate(c: Seq<int>, v: Seq<int>, i: nat)
    ensures
        dot_from(negate_all(c), v, i) == -dot_from(c, v, i),
    decreases c.len() - i,
{
    if i < c.len() {
        lemma_dot_negate(c, v, i + 1);
        let x = c[i as int];
        let y = at_or_zero(v, i as int);
        assert((-x) * y == -(x * y)) by (nonlinear_arith);
    }
}

proof fn lemma_gcd_divides(vs: Seq<int>, i: nat, g: nat)
    ensures
        divides(gcd_from(vs, i, g), g),
        forall|j: int| i <= j < vs.len() ==> divides(gcd_from(vs, i, g), magnitude(#[trigger] vs[j])),
    decreases vs.len() - i,
{
    if i >= vs.len() {
        assert(g == g * 1nat);
    } else {
        let h = gcd(g, magnitude(vs[i as int]));
        let d = gcd_from(vs, i, g);
        lemma_gcd_divides(vs, i + 1, h);
        law_gcd(g, magnitude(vs[i as int]));
        lemma_divides_trans(d, h, g);
        lemma_divides_trans(d, h, magnitude(vs[i as int]));
    }
}

proof fn lemma_divides_trans(a: nat, b: nat, c: nat)
    requires
        divides(a, b),
        divides(b, c),
    ensures
        divides(a, c),
{
    let p = choose|q: nat| b == #[trigger] (a * q);
    let r = choose|q: nat| c == #[trigger] (b * q);
    assert(c == a * (p * r)) by (nonlinear_arith)
        requires
            b == a * p,
            c == b * r,
    ;
}

proof fn lemma_exact_quotient(x: int, g: int)
    requires
        g > 0,
        divides(g as nat, magnitude(x)),
    ensures
        x == g * ediv(x, g),
{
    let q = choose|q: nat| magnitude(x) == #[trigger] (g as nat * q);
    law_euclidean_division(x, g);
    let s: int = if x < 0 {
        -(q as int)
    } else {
        q as int
    };
    assert(x == g * s) by (nonlinear_arith)
        requires
            x == g * q as int || x == -(g * q as int),
            x < 0 ==> x == -(g * q as int),
            x >= 0 ==> x == g * q as int,
            s == (if x < 0 {
                -(q as int)
            } else {
                q as int
            }),
    ;
    let d = ediv(x, g);
    let r = x - g * d;
    assert(0 <= r < g);
    assert(g * (s - d) == r) by (nonlinear_arith)
        requires
            x == g * s,
            r == x - g * d,
    ;
    assert(s - d == 0) by (nonlinear_arith)
        requires
            g * (s - d) == r,
            0 <= r < g,
            g > 0,
    ;
}

proof fn lemma_dot_divide(c: Seq<int>, v: Seq<int>, i: nat, g: int)
    requires
        g > 0,
        forall|j: int| 0 <= j < c.len() ==> divides(g as nat, magnitude(#[trigger] c[j])),
    ensures
        dot_from(c, v, i) == g * dot_from(divide_all(c, g), v, i),
    decreases c.len() - i,
{
    if i < c.len() {
        lemma_dot_divide(c, v, i + 1, g);
        let x = c[i as int];
        lemma_exact_quotient(x, g);
        let d = ediv(x, g);
        let y = at_or_zero(v, i as int);
        let rest = dot_from(divide_all(c, g), v, i + 1);
        assert(x * y + g * rest == g * (d * y + rest)) by (nonlinear_arith)
            requires
                x == g * d,
        ;
    } else {
        assert(g * 0 == 0) by (nonlinear_arith);
    }
}

proof fn lemma_bound_quotients(x: int, g: int, t: int)
    requires
        g > 0,
    ensures
        x <= g * t <==> -ediv(-x, g) <= t,
        g * t <= x <==> t <= ediv(x, g),
{
    law_euclidean_division(x, g);
    law_euclidean_division(-x, g);
    let d = ediv(x, g);
    let e = ediv(-x, g);
    assert(g * t <= x <==> t <= d) by (nonlinear_arith)
        requires
            g > 0,
            0 <= x - g * d < g,
    ;
    assert(x <= g * t <==> -e <= t) by (nonlinear_arith)
        requires
            g > 0,
            0 <= -x - g * e < g,
    ;
}

proof fn lemma_dot_zero(c: Seq<int>, v: Seq<int>, i: nat)
    requires
        forall|j: int| 0 <= j < c.len() ==> #[trigger] c[j] == 0,
    ensures
        dot_from(c, v, i) == 0,
    decreases c.len() - i,
{
    if i < c.len() {
        lemma_dot_zero(c, v, i + 1);
        let y = at_or_zero(v, i as int);
        assert(0 * y == 0) by (nonlinear_arith);
    }
}

/// The normal form of a constraint is met by exactly the values that meet the
/// constraint.
pub proof fn law_tidy_keeps_solutions(q: Ineq, v: Seq<int>)
    ensures
        meets(tidy_spec(q), v) == meets(q, v),
{
    let p = positive_spec(q);
    lemma_dot_negate(q.coeffs, v, 0);
    assert(meets(p, v) == meets(q, v));
    let g = gcd_all(p.coeffs);
    lemma_gcd_divides(p.coeffs, 0, 0);
    if g == 0 {
        assert forall|j: int| 0 <= j < p.coeffs.len() implies #[trigger] p.coeffs[j] == 0 by {
            let w = choose|w: nat| magnitude(p.coeffs[j]) == #[trigger] (0nat * w);
            assert(0nat * w == 0) by (nonlinear_arith);
        }
        lemma_dot_zero(p.coeffs, v, 0);
    } else if g != 1 {
        let t = dot_from(divide_all(p.coeffs, g as int), v, 0);
        lemma_dot_divide(p.coeffs, v, 0, g as int);
        match p.lo {
            Some(l) => lemma_bound_quotients(l, g as int, t),
            None => {},
        }
        match p.hi {
            Some(h) => lemma_bound_quotients(h, g as int, t),
            None => {},
        }
    }
}

/// A value within bounds, multiplied, is within the bounds of the multiple.
pub proof fn law_scaled_bounds(k: int, lo: Option<int>, hi: Option<int>, t: int)
    requires
        in_bounds(lo, hi, t),
    ensures
        in_bounds(scaled_bounds(k, lo, hi).0, scaled_bounds(k, lo, hi).1, k * t),
{
    if k == 0 {
        assert(k * t == 0) by (nonlinear_arith)
            requires
                k == 0,
        ;
    } else {
        match lo {
            Some(l) => {
                assert((k > 0 ==> k * l <= k * t) && (k < 0 ==> k * t <= k * l)) by (nonlinear_arith)
                    requires
                        l <= t,
                ;
            },
            None => {},
        }
        match hi {
            Some(h) => {
                assert((k > 0 ==> k * t <= k * h) && (k < 0 ==> k * h <= k * t)) by (nonlinear_arith)
                    requires
                        t <= h,
                ;
            },
            None => {},
        }
    }
}

/// Values within bounds, combined, are within the bounds of the combination.
pub proof fn law_combined_bounds(
    a: int,
    xlo: Option<int>,
    xhi: Option<int>,
    x: int,
    b: int,
    ylo: Option<int>,
    yhi: Option<int>,
    y: int,
)
    requires
        in_bounds(xlo, xhi, x),
        in_bounds(ylo, yhi, y),
    ensures
        in_bounds(
            plus_bound(scaled_bounds(a, xlo, xhi).0, scaled_bounds(b, ylo, yhi).0),
            plus_bound(scaled_bounds(a, xlo, xhi).1, scaled_bounds(b, ylo, yhi).1),
            a * x + b * y,
        ),
{
    law_scaled_bounds(a, xlo, xhi, x);
    law_scaled_bounds(b, ylo, yhi, y);
}

fn is_within(lo: &Option<Integer>, hi: &Option<Integer>, t: &Integer) -> (r: bool)
    ensures
        r == in_bounds(lo.deep_view(), hi.deep_view(), t@),
{
    let above = match lo {
        Some(l) => !t.less(l),
        None => true,
    };
    let below = match hi {
        Some(h) => !h.less(t),
        None => true,
    };
    above && below
}

fn negate_bound(b: &Option<Integer>) -> (r: Option<Integer>)
    ensures
        r.deep_view() == neg_bound(b.deep_view()),
{
    match b {
        Some(x) => Some(x.negate()),
        None => None,
    }
}

fn leading_is_negative(vs: &Vec<Integer>) -> (r: bool)
    ensures
        r == (leading_from(vs.deep_view(), 0) < 0),
{
    let ghost vv = vs.deep_view();
    let mut i: usize = 0;
    while i < vs.len()
        invariant
            i <= vs.len(),
            vv == vs.deep_view(),
            leading_from(vv, i as nat) == leading_from(vv, 0),
        decreases vs.len() - i,
    {
        if !vs[i].is_zero() {
            return vs[i].is_negative();
        }
        i = i + 1;
    }
    false
}

fn negated_list(vs: &Vec<Integer>) -> (r: Vec<Integer>)
    ensures
        r.deep_view() == negate_all(vs.deep_view()),
{
    let mut out: Vec<Integer> = Vec::new();
    let mut i: usize = 0;
    while i < vs.len()
        invariant
            i <= vs.len(),
            out.len() == i,
            forall|j: int| 0 <= j < i ==> (#[trigger] out@[j])@ == -vs@[j]@,
        decreases vs.len() - i,
    {
        out.push(vs[i].negate());
        i = i + 1;
    }
    assert(out.deep_view() =~= negate_all(vs.deep_view()));
    out
}

fn divided_list(vs: &Vec<Integer>, g: &Integer) -> (r: Vec<Integer>)
    ensures
        r.deep_view() == divide_all(vs.deep_view(), g@),
{
    let mut out: Vec<Integer> = Vec::new();
    let mut i: usize = 0;
    while i < vs.len()
        invariant
            i <= vs.len(),
            out.len() == i,
            forall|j: int| 0 <= j < i ==> (#[trigger] out@[j])@ == ediv(vs@[j]@, g@),
        decreases vs.len() - i,
    {
        out.push(int_ediv(&vs[i], g));
        i = i + 1;
    }
    assert(out.deep_view() =~= divide_all(vs.deep_view(), g@));
    out
}

impl Constraint {
    fn positive(self) -> (r: Constraint)
        ensures
            r@ == positive_spec(self@),
    {
        if leading_is_negative(&self.coeffs) {
            Constraint {
                lo: negate_bound(&self.hi),
                hi: negate_bound(&self.lo),
                coeffs: negated_list(&self.coeffs),
            }
        } else {
            self
        }
    }

    fn reduced(self) -> (r: Constraint)
        ensures
            r@ == reduced_spec(self@),
    {
        let g = gcd_of(&self.coeffs);
        if g.is_zero() {
            if is_within(&self.lo, &self.hi, &Integer::from_i64(0)) {
                return Constraint { lo: None, hi: None, coeffs: self.coeffs };
            }
            return Constraint {
                lo: Some(Integer::from_i64(1)),
                hi: Some(Integer::from_i64(0)),
                coeffs: self.coeffs,
            };
        }
        let gi = Integer::from_natural(&g);
        if gi.same(&Integer::from_i64(1)) {
            return self;
        }
        let lo = match &self.lo {
            Some(x) => Some(int_ediv(&x.negate(), &gi).negate()),
            None => None,
        };
        let hi = match &self.hi {
            Some(x) => Some(int_ediv(x, &gi)),
            None => None,
        };
        Constraint { lo, hi, coeffs: divided_list(&self.coeffs, &gi) }
    }

    /// A constraint in normal form: the leading coefficient is not negative, and
    /// the coefficients have no common divisor.
    pub fn tidy(self) -> (r: Constraint)
        ensures
            r@ == tidy_spec(self@),
    {
        self.positive().reduced()
    }
}

fn multiple(k: &Integer, b: &Option<Integer>) -> (r: Option<Integer>)
    ensures
        r.deep_view() == times_bound(k@, b.deep_view()),
{
    match b {
        Some(x) => Some(k.times(x)),
        None => None,
    }
}

/// The bounds of a multiple.
pub fn scale_constraint_bounds(k: &Integer, lo: &Option<Integer>, hi: &Option<Integer>) -> (r: (
    Option<Integer>,
    Option<Integer>,
))
    ensures
        (r.0.deep_view(), r.1.deep_view()) == scaled_bounds(k@, lo.deep_view(), hi.deep_view()),
{
    if k.is_zero() {
        match (lo, hi) {
            (Some(l), Some(h)) => {
                if h.less(l) {
                    return (Some(l.clone()), Some(h.clone()));
                }
            },
            _ => {},
        }
        return (Some(Integer::from_i64(0)), Some(Integer::from_i64(0)));
    }
    if !k.is_negative() {
        (multiple(k, lo), multiple(k, hi))
    } else {
        (multiple(k, hi), multiple(k, lo))
    }
}

fn sum_bounds(a: &Option<Integer>, b: &Option<Integer>) -> (r: Option<Integer>)
    ensures
        r.deep_view() == plus_bound(a.deep_view(), b.deep_view()),
{
    match (a, b) {
        (Some(x), Some(y)) => Some(x.plus(y)),
        _ => None,
    }
}

/// What a term of an option type shows.
pub open spec fn option_shown(k: K, e: Term) -> Option<Option<Term>> {
    if headed_by(k, e, "Option.none"@) {
        Some(None)
    } else if headed_by(k, e, "Option.some"@) && spine_args(e).len() > 0 {
        Some(Some(spine_args(e).last()))
    } else {
        None
    }
}

/// The bounds of a constraint that shows them.
pub open spec fn constraint_fields(k: K, e: Term) -> Option<(Term, Term)> {
    let args = spine_args(e);
    if headed_by(k, e, "Constraint.mk"@) && args.len() >= 2 {
        Some((args[0], args[1]))
    } else {
        None
    }
}

/// The tighter one of two bounds, as a term.
#[verifier::opaque]
pub open spec fn merged_bound(
    k: K,
    s: Sem,
    m: Mode,
    ctx: Seq<Term>,
    a: Term,
    b: Term,
    take_max: bool,
) -> Res<Option<Term>> {
    match (s.whnf)(m, ctx, a) {
        Err(f) => Err(f),
        Ok(aw) => match (s.whnf)(m, ctx, b) {
            Err(f) => Err(f),
            Ok(bw) => match (option_shown(k, aw), option_shown(k, bw)) {
                (Some(None), Some(None)) => Ok(Some(aw)),
                (Some(Some(_)), Some(None)) => Ok(Some(aw)),
                (Some(None), Some(Some(_))) => Ok(Some(bw)),
                (Some(Some(x)), Some(Some(y))) => match both(
                    (s.closed_int)(m, ctx, x),
                    (s.closed_int)(m, ctx, y),
                ) {
                    Err(f) => Err(f),
                    Ok(None) => Ok(None),
                    Ok(Some((xv, yv))) => Ok(
                        Some(
                            if (take_max && xv >= yv) || (!take_max && xv <= yv) {
                                aw
                            } else {
                                bw
                            },
                        ),
                    ),
                },
                _ => Ok(None),
            },
        },
    }
}

/// The value of a bound.
pub open spec fn closed_bound(k: K, s: Sem, m: Mode, ctx: Seq<Term>, e: Term) -> Res<
    Option<Option<int>>,
> {
    match (s.whnf)(m, ctx, e) {
        Err(f) => Err(f),
        Ok(w) => match option_shown(k, w) {
            Some(None) => Ok(Some(None)),
            Some(Some(x)) => match (s.closed_int)(m, ctx, x) {
                Err(f) => Err(f),
                Ok(Some(v)) => Ok(Some(Some(v))),
                Ok(None) => Ok(None),
            },
            None => Ok(None),
        },
    }
}

/// A bound as a term.
pub open spec fn bound_term(k: K, v: Option<int>) -> Option<Term> {
    match find_name_ending_spec(k, "Int"@) {
        None => None,
        Some(ty) => match v {
            None => match find_name_spec(k, "Option.none"@) {
                Some(c) => Some(app1(at_zero(c), plain(ty))),
                None => None,
            },
            Some(n) => match (find_name_spec(k, "Option.some"@), closed_int_term(k, n)) {
                (Some(c), Some(x)) => Some(app2(at_zero(c), plain(ty), x)),
                _ => None,
            },
        },
    }
}

/// Bounds as a constraint.
pub open spec fn constraint_term(k: K, lo: Option<int>, hi: Option<int>) -> Option<Term> {
    match (find_name_ending_spec(k, "Constraint.mk"@), bound_term(k, lo), bound_term(k, hi)) {
        (Some(c), Some(l), Some(h)) => Some(app2(plain(c), l, h)),
        _ => None,
    }
}

/// The bounds of a reduced constraint with closed bounds.
pub open spec fn closed_bounds(k: K, s: Sem, m: Mode, ctx: Seq<Term>, e: Term) -> Res<
    Option<(Option<int>, Option<int>)>,
> {
    match constraint_fields(k, e) {
        None => Ok(None),
        Some((lo, hi)) => both(closed_bound(k, s, m, ctx, lo), closed_bound(k, s, m, ctx, hi)),
    }
}

/// The normal form of a constraint, as terms.
#[verifier::opaque]
pub open spec fn omega_tidy_spec(k: K, s: Sem, m: Mode, ctx: Seq<Term>, c: Term, xs: Term) -> Res<
    Option<(Term, Term)>,
> {
    match (s.whnf)(m, ctx, c) {
        Err(f) => Err(f),
        Ok(w) => match constraint_fields(k, w) {
            None => Ok(None),
            Some((lo_e, hi_e)) => match closed_bound(k, s, m, ctx, lo_e) {
                Err(f) => Err(f),
                Ok(None) => Ok(None),
                Ok(Some(lo)) => match closed_bound(k, s, m, ctx, hi_e) {
                    Err(f) => Err(f),
                    Ok(None) => Ok(None),
                    Ok(Some(hi)) => match list_values_spec(k, s, m, ctx, xs) {
                        Err(f) => Err(f),
                        Ok(None) => Ok(None),
                        Ok(Some(coeffs)) => {
                            let q = tidy_spec(Ineq { lo, hi, coeffs });
                            match (constraint_term(k, q.lo, q.hi), int_list_term(k, q.coeffs)) {
                                (Some(t), Some(l)) => Ok(Some((t, l))),
                                _ => Ok(None),
                            }
                        },
                    },
                },
            },
        },
    }
}

/// A combination of two constraints with closed bounds.
#[verifier::opaque]
pub open spec fn constraint_combo_spec(
    k: K,
    s: Sem,
    m: Mode,
    ctx: Seq<Term>,
    a: Term,
    x: Term,
    b: Term,
    y: Term,
) -> Res<Option<Term>> {
    match both((s.closed_int)(m, ctx, a), (s.closed_int)(m, ctx, b)) {
        Err(f) => Err(f),
        Ok(None) => Ok(None),
        Ok(Some((av, bv))) => match (s.whnf)(m, ctx, x) {
            Err(f) => Err(f),
            Ok(xw) => match (s.whnf)(m, ctx, y) {
                Err(f) => Err(f),
                Ok(yw) => if constraint_fields(k, xw) is None || constraint_fields(k, yw) is None {
                    Ok(None)
                } else {
                    match both(closed_bounds(k, s, m, ctx, xw), closed_bounds(k, s, m, ctx, yw)) {
                        Err(f) => Err(f),
                        Ok(None) => Ok(None),
                        Ok(Some((xb, yb))) => {
                            let p = scaled_bounds(av, xb.0, xb.1);
                            let q = scaled_bounds(bv, yb.0, yb.1);
                            Ok(constraint_term(k, plus_bound(p.0, q.0), plus_bound(p.1, q.1)))
                        },
                    }
                },
            },
        },
    }
}

/// The conjunction of two constraints on one combination.
#[verifier::opaque]
pub open spec fn constraint_combine_spec(k: K, s: Sem, m: Mode, ctx: Seq<Term>, a: Term, b: Term) -> Res<
    Option<Term>,
> {
    match (s.whnf)(m, ctx, a) {
        Err(f) => Err(f),
        Ok(aw) => match (s.whnf)(m, ctx, b) {
            Err(f) => Err(f),
            Ok(bw) => match (constraint_fields(k, aw), constraint_fields(k, bw)) {
                (Some((alo, ahi)), Some((blo, bhi))) => match merged_bound(
                    k,
                    s,
                    m,
                    ctx,
                    alo,
                    blo,
                    true,
                ) {
                    Err(f) => Err(f),
                    Ok(None) => Ok(None),
                    Ok(Some(lo)) => match merged_bound(k, s, m, ctx, ahi, bhi, false) {
                        Err(f) => Err(f),
                        Ok(None) => Ok(None),
                        Ok(Some(hi)) => match find_name_ending_spec(k, "Constraint.mk"@) {
                            Some(c) => Ok(Some(app2(plain(c), lo, hi))),
                            None => Ok(None),
                        },
                    },
                },
                _ => Ok(None),
            },
        },
    }
}

/// The reduction of an operation on constraints, by its name.
#[verifier::opaque]
pub open spec fn omega_constraint_spec(
    k: K,
    s: Sem,
    m: Mode,
    ctx: Seq<Term>,
    head: Term,
    args: Seq<Term>,
) -> Res<Option<Term>> {
    match head {
        Term::Const(n, _) => {
            let name = name_of(k, n);
            let bounds = is_named(name, "tidyConstraint"@);
            if bounds || is_named(name, "tidyCoeffs"@) {
                if args.len() < 2 {
                    Ok(None)
                } else {
                    match omega_tidy_spec(k, s, m, ctx, args[0], args[1]) {
                        Err(f) => Err(f),
                        Ok(None) => Ok(None),
                        Ok(Some((c, xs))) => Ok(
                            Some(
                                mk_apps(
                                    if bounds {
                                        c
                                    } else {
                                        xs
                                    },
                                    args.skip(2),
                                ),
                            ),
                        ),
                    }
                }
            } else if !is_infix(name, "Constraint"@) {
                Ok(None)
            } else if is_named(name, "Constraint.combine"@) && args.len() >= 2 {
                with_rest(constraint_combine_spec(k, s, m, ctx, args[0], args[1]), args, 2)
            } else if is_named(name, "Constraint.combo"@) && args.len() >= 4 {
                with_rest(
                    constraint_combo_spec(k, s, m, ctx, args[0], args[1], args[2], args[3]),
                    args,
                    4,
                )
            } else {
                Ok(None)
            }
        },
        _ => Ok(None),
    }
}

/// A combination of two lists of closed coefficients.
#[verifier::opaque]
pub open spec fn coeffs_combo_spec(
    k: K,
    s: Sem,
    m: Mode,
    ctx: Seq<Term>,
    a: Term,
    xs: Term,
    b: Term,
    ys: Term,
) -> Res<Option<Term>> {
    match both((s.closed_int)(m, ctx, a), (s.closed_int)(m, ctx, b)) {
        Err(f) => Err(f),
        Ok(None) => Ok(None),
        Ok(Some((av, bv))) => match both(
            list_values_spec(k, s, m, ctx, xs),
            list_values_spec(k, s, m, ctx, ys),
        ) {
            Err(f) => Err(f),
            Ok(None) => Ok(None),
            Ok(Some((xv, yv))) => Ok(int_list_term(k, combine_coeffs(av, xv, bv, yv))),
        },
    }
}

/// The difference of two lists of numerals, of which the second is empty.
pub open spec fn list_sub_spec(k: K, s: Sem, m: Mode, ctx: Seq<Term>, a: Term, b: Term) -> Res<
    Option<Term>,
> {
    match (s.whnf)(m, ctx, a) {
        Err(f) => Err(f),
        Ok(aw) => match (s.whnf)(m, ctx, b) {
            Err(f) => Err(f),
            Ok(bw) => if is_int_list(k, aw) && headed_by(k, bw, "List.nil"@) {
                Ok(Some(aw))
            } else {
                Ok(None)
            },
        },
    }
}

/// The reduction of an operation on lists of coefficients, by its name.
#[verifier::opaque]
pub open spec fn intlist_spec(k: K, s: Sem, m: Mode, ctx: Seq<Term>, head: Term, args: Seq<Term>) -> Res<
    Option<Term>,
> {
    match head {
        Term::Const(n, _) => {
            let name = name_of(k, n);
            if !is_infix(name, "IntList"@) && !is_infix(name, "Coeffs"@) {
                Ok(None)
            } else if (is_named(name, "IntList.sub"@) || is_named(name, "Coeffs.sub"@))
                && args.len() >= 2 {
                with_rest(list_sub_spec(k, s, m, ctx, args[0], args[1]), args, 2)
            } else if (is_named(name, "IntList.gcd"@) || is_named(name, "Coeffs.gcd"@))
                && args.len() >= 1 {
                match list_gcd_spec(k, s, m, ctx, args[0]) {
                    Err(f) => Err(f),
                    Ok(None) => Ok(None),
                    Ok(Some(g)) => Ok(Some(mk_apps(nat_lit(g), args.skip(1)))),
                }
            } else if (is_named(name, "IntList.combo"@) || is_named(name, "Coeffs.combo"@))
                && args.len() >= 4 {
                with_rest(
                    coeffs_combo_spec(k, s, m, ctx, args[0], args[1], args[2], args[3]),
                    args,
                    4,
                )
            } else {
                Ok(None)
            }
        },
        _ => Ok(None),
    }
}

/// The constant and the coefficients of a linear combination that shows them.
pub open spec fn combo_parts(k: K, e: Term) -> Option<(Term, Term)> {
    let args = spine_args(e);
    let n = args.len();
    if headed_by(k, e, "LinearCombo.mk"@) && n >= 2 {
        Some((args[n - 2], args[n - 1]))
    } else {
        None
    }
}

/// The sum or difference of two closed linear combinations.
#[verifier::opaque]
pub open spec fn closed_combo_spec(
    k: K,
    s: Sem,
    m: Mode,
    ctx: Seq<Term>,
    a: Term,
    b: Term,
    is_sub: bool,
) -> Res<Option<Term>> {
    let sign: int = if is_sub {
        -1
    } else {
        1
    };
    match (combo_parts(k, a), combo_parts(k, b)) {
        (Some((c1, cs1)), Some((c2, cs2))) => match both(
            (s.closed_int)(m, ctx, c1),
            (s.closed_int)(m, ctx, c2),
        ) {
            Err(f) => Err(f),
            Ok(None) => Ok(None),
            Ok(Some((k1, k2))) => match both(
                list_values_spec(k, s, m, ctx, cs1),
                list_values_spec(k, s, m, ctx, cs2),
            ) {
                Err(f) => Err(f),
                Ok(None) => Ok(None),
                Ok(Some((xs, ys))) => match (
                    find_name_ending_spec(k, "LinearCombo.mk"@),
                    closed_int_term(k, k1 + sign * k2),
                    int_list_term(k, combine_coeffs(1, xs, sign, ys)),
                ) {
                    (Some(c), Some(ck), Some(cl)) => Ok(Some(app2(plain(c), ck, cl))),
                    _ => Ok(None),
                },
            },
        },
        _ => Ok(None),
    }
}

/// The names of the operations that the constants and the coefficients of two
/// linear combinations are combined by.
pub open spec fn combo_ops(k: K, is_sub: bool) -> Option<(u32, u32)> {
    let on_const = find_name_ending_spec(
        k,
        if is_sub {
            "Int.sub"@
        } else {
            "Int.add"@
        },
    );
    let first = find_name_ending_spec(
        k,
        if is_sub {
            "Coeffs.sub"@
        } else {
            "Coeffs.add"@
        },
    );
    let second = find_name_ending_spec(
        k,
        if is_sub {
            "IntList.sub"@
        } else {
            "IntList.add"@
        },
    );
    let third = find_name_ending_spec(
        k,
        if is_sub {
            "HSub.hSub"@
        } else {
            "HAdd.hAdd"@
        },
    );
    let on_coeffs = match first {
        Some(c) => Some(c),
        None => match second {
            Some(c) => Some(c),
            None => third,
        },
    };
    match (on_const, on_coeffs) {
        (Some(a), Some(b)) => Some((a, b)),
        _ => None,
    }
}

/// A field of a linear combination.
pub open spec fn combo_field(combo: u32, i: u32, e: Term) -> Term {
    Term::Proj(combo, i, Box::new(e))
}

/// The sum or difference of two linear combinations.
#[verifier::opaque]
pub open spec fn combo_binary_spec(
    k: K,
    s: Sem,
    m: Mode,
    ctx: Seq<Term>,
    combo: u32,
    a: Term,
    b: Term,
    is_sub: bool,
) -> Res<Option<Term>> {
    match (s.whnf)(m, ctx, a) {
        Err(f) => Err(f),
        Ok(aw) => match (s.whnf)(m, ctx, b) {
            Err(f) => Err(f),
            Ok(bw) => match closed_combo_spec(k, s, m, ctx, aw, bw, is_sub) {
                Err(f) => Err(f),
                Ok(Some(t)) => Ok(Some(t)),
                Ok(None) => match (
                    find_name_ending_spec(k, "LinearCombo.mk"@),
                    combo_ops(k, is_sub),
                ) {
                    (Some(c), Some((f1, f2))) => Ok(
                        Some(
                            app2(
                                plain(c),
                                app2(
                                    plain(f1),
                                    combo_field(combo, 0, aw),
                                    combo_field(combo, 0, bw),
                                ),
                                app2(
                                    plain(f2),
                                    combo_field(combo, 1, aw),
                                    combo_field(combo, 1, bw),
                                ),
                            ),
                        ),
                    ),
                    _ => Ok(None),
                },
            },
        },
    }
}

/// The value of a linear combination: its constant, plus the product of its
/// coefficients with the values where there are any.
#[verifier::opaque]
pub open spec fn combo_eval_spec(
    k: K,
    s: Sem,
    m: Mode,
    ctx: Seq<Term>,
    combo: u32,
    lc: Term,
    values: Term,
) -> Res<Option<Term>> {
    match (s.whnf)(m, ctx, lc) {
        Err(f) => Err(f),
        Ok(w) => {
            let largs = spine_args(w);
            let (cnst, coeffs) = if headed_by(k, w, "LinearCombo.mk"@) && largs.len() >= 2 {
                (largs[0], largs[1])
            } else {
                (combo_field(combo, 0, w), combo_field(combo, 1, w))
            };
            match (s.whnf)(m, ctx, coeffs) {
                Err(f) => Err(f),
                Ok(cw) => if headed_by(k, cw, "List.nil"@) {
                    Ok(Some(cnst))
                } else {
                    match (
                        find_name_ending_spec(k, "Coeffs.dot"@),
                        find_name_ending_spec(k, "Int.add"@),
                    ) {
                        (Some(dot), Some(iadd)) => Ok(
                            Some(app2(plain(iadd), cnst, app2(plain(dot), coeffs, values))),
                        ),
                        _ => Ok(None),
                    }
                },
            }
        },
    }
}

/// The reduction of an operation on linear combinations, by its name.
#[verifier::opaque]
pub open spec fn omega_combo_spec(
    k: K,
    s: Sem,
    m: Mode,
    ctx: Seq<Term>,
    head: Term,
    args: Seq<Term>,
) -> Res<Option<Term>> {
    match head {
        Term::Const(n, _) => {
            let name = name_of(k, n);
            if !is_infix(name, "LinearCombo"@) || args.len() < 2 {
                Ok(None)
            } else {
                match find_name_ending_spec(k, "LinearCombo"@) {
                    None => Ok(None),
                    Some(combo) => if is_named(name, "LinearCombo.eval"@) {
                        with_rest(combo_eval_spec(k, s, m, ctx, combo, args[0], args[1]), args, 2)
                    } else if is_named(name, "LinearCombo.sub"@) {
                        with_rest(
                            combo_binary_spec(k, s, m, ctx, combo, args[0], args[1], true),
                            args,
                            2,
                        )
                    } else if is_named(name, "LinearCombo.add"@) {
                        with_rest(
                            combo_binary_spec(k, s, m, ctx, combo, args[0], args[1], false),
                            args,
                            2,
                        )
                    } else {
                        Ok(None)
                    },
                }
            }
        },
        _ => Ok(None),
    }
}

impl<'e> Checker<'e> {
    /// What a term of an option type shows.
    pub fn option_view(&self, e: &Expr) -> (r: Option<Option<Expr>>)
        ensures
            r.deep_view() == option_shown(self@, e@),
    {
        if self.head_is(e, "Option.none") {
            return Some(None);
        }
        if !self.head_is(e, "Option.some") {
            return None;
        }
        let (_, args) = unfold_apps(e);
        assert(args.len() == args.deep_view().len());
        if args.len() == 0 {
            return None;
        }
        Some(Some(args[args.len() - 1].clone()))
    }

    /// The bounds of a constraint that shows them.
    pub fn constraint_mk_fields(&self, e: &Expr) -> (r: Option<(Expr, Expr)>)
        ensures
            r.deep_view() == constraint_fields(self@, e@),
    {
        let (_, args) = unfold_apps(e);
        assert(args.len() == args.deep_view().len());
        if self.head_is(e, "Constraint.mk") && args.len() >= 2 {
            return Some((args[0].clone(), args[1].clone()));
        }
        None
    }

    /// The tighter one of two bounds, as a term.
    pub fn option_merge_closed(
        &self,
        g: Budget,
        m: Mode,
        ctx: &Ctx,
        a: &Expr,
        b: &Expr,
        take_max: bool,
    ) -> (r: R<Option<Expr>>)
        ensures
            res(r) == merged_bound(
                self@,
                sem_at(self@, g),
                m,
                ctx@,
                a@,
                b@,
                take_max,
            ),
        decreases g.total(), 2int, 0int,
    {
        proof {
            reveal(merged_bound);
        }
        let aw = self.whnf_at(g, m, ctx, a)?;
        let bw = self.whnf_at(g, m, ctx, b)?;
        match (self.option_view(&aw), self.option_view(&bw)) {
            (Some(None), Some(None)) => Ok(Some(aw)),
            (Some(Some(_)), Some(None)) => Ok(Some(aw)),
            (Some(None), Some(Some(_))) => Ok(Some(bw)),
            (Some(Some(x)), Some(Some(y))) => match self.closed_int_pair(g, m, ctx, &x, &y)? {
                None => Ok(None),
                Some((xv, yv)) => {
                    let pick_a = if take_max {
                        !xv.less(&yv)
                    } else {
                        !yv.less(&xv)
                    };
                    if pick_a {
                        Ok(Some(aw))
                    } else {
                        Ok(Some(bw))
                    }
                },
            },
            _ => Ok(None),
        }
    }

    /// The value of a bound.
    pub fn closed_option_int(&self, g: Budget, m: Mode, ctx: &Ctx, e: &Expr) -> (r: R<
        Option<Option<Integer>>,
    >)
        ensures
            res(r) == closed_bound(self@, sem_at(self@, g), m, ctx@, e@),
        decreases g.total(), 1int, 0int,
    {
        let w = self.whnf_at(g, m, ctx, e)?;
        match self.option_view(&w) {
            Some(None) => Ok(Some(None)),
            Some(Some(x)) => match self.closed_int_at(g, m, ctx, &x)? {
                Some(v) => Ok(Some(Some(v))),
                None => Ok(None),
            },
            None => Ok(None),
        }
    }

    /// A bound as a term.
    pub fn mk_option_int(&self, v: &Option<Integer>) -> (r: Option<Expr>)
        ensures
            r.deep_view() == bound_term(self@, v.deep_view()),
    {
        let ty = self.find_name_ending("Int")?;
        match v {
            None => {
                let c = self.find_name("Option.none")?;
                Some(app(const_at_zero(c), plain_const(ty)))
            },
            Some(n) => {
                let c = self.find_name("Option.some")?;
                let x = self.mk_closed_int(n)?;
                Some(mk_app2(const_at_zero(c), plain_const(ty), x))
            },
        }
    }

    fn mk_constraint(&self, lo: &Option<Integer>, hi: &Option<Integer>) -> (r: Option<Expr>)
        ensures
            r.deep_view() == constraint_term(self@, lo.deep_view(), hi.deep_view()),
    {
        let c = self.find_name_ending("Constraint.mk")?;
        let l = self.mk_option_int(lo)?;
        let h = self.mk_option_int(hi)?;
        Some(mk_app2(plain_const(c), l, h))
    }

    /// The normal form of a constraint, as terms.
    pub fn omega_tidy(&self, g: Budget, m: Mode, ctx: &Ctx, c: &Expr, xs: &Expr) -> (r: R<
        Option<(Expr, Expr)>,
    >)
        ensures
            res(r) == omega_tidy_spec(self@, sem_at(self@, g), m, ctx@, c@, xs@),
        decreases g.total(), 3int, 0int,
    {
        proof {
            reveal(omega_tidy_spec);
        }
        let w = self.whnf_at(g, m, ctx, c)?;
        let (lo_e, hi_e) = match self.constraint_mk_fields(&w) {
            Some(p) => p,
            None => {
                return Ok(None);
            },
        };
        let lo = match self.closed_option_int(g, m, ctx, &lo_e)? {
            Some(v) => v,
            None => {
                return Ok(None);
            },
        };
        let hi = match self.closed_option_int(g, m, ctx, &hi_e)? {
            Some(v) => v,
            None => {
                return Ok(None);
            },
        };
        let coeffs = match self.closed_int_list_values(g, m, ctx, xs)? {
            Some(v) => v,
            None => {
                return Ok(None);
            },
        };
        let q = Constraint { lo, hi, coeffs }.tidy();
        match (self.mk_constraint(&q.lo, &q.hi), self.mk_closed_int_list(&q.coeffs)) {
            (Some(t), Some(l)) => Ok(Some((t, l))),
            _ => Ok(None),
        }
    }

    fn read_bounds(&self, g: Budget, m: Mode, ctx: &Ctx, e: &Expr) -> (r: R<
        Option<(Option<Integer>, Option<Integer>)>,
    >)
        ensures
            res(r) == closed_bounds(self@, sem_at(self@, g), m, ctx@, e@),
        decreases g.total(), 2int, 0int,
    {
        match self.constraint_mk_fields(e) {
            None => Ok(None),
            Some((lo, hi)) => {
                let l = self.closed_option_int(g, m, ctx, &lo)?;
                let h = self.closed_option_int(g, m, ctx, &hi)?;
                match (l, h) {
                    (Some(p), Some(q)) => Ok(Some((p, q))),
                    _ => Ok(None),
                }
            },
        }
    }

    /// A combination of two constraints with closed bounds.
    pub fn closed_constraint_combo(
        &self,
        g: Budget,
        m: Mode,
        ctx: &Ctx,
        a: &Expr,
        x: &Expr,
        b: &Expr,
        y: &Expr,
    ) -> (r: R<Option<Expr>>)
        ensures
            res(r) == constraint_combo_spec(
                self@,
                sem_at(self@, g),
                m,
                ctx@,
                a@,
                x@,
                b@,
                y@,
            ),
        decreases g.total(), 3int, 0int,
    {
        proof {
            reveal(constraint_combo_spec);
        }
        let (av, bv) = match self.closed_int_pair(g, m, ctx, a, b)? {
            Some(p) => p,
            None => {
                return Ok(None);
            },
        };
        let xw = self.whnf_at(g, m, ctx, x)?;
        let yw = self.whnf_at(g, m, ctx, y)?;
        if self.constraint_mk_fields(&xw).is_none() || self.constraint_mk_fields(&yw).is_none() {
            return Ok(None);
        }
        let xb = self.read_bounds(g, m, ctx, &xw)?;
        let yb = self.read_bounds(g, m, ctx, &yw)?;
        match (xb, yb) {
            (Some((xlo, xhi)), Some((ylo, yhi))) => {
                let (slo, shi) = scale_constraint_bounds(&av, &xlo, &xhi);
                let (tlo, thi) = scale_constraint_bounds(&bv, &ylo, &yhi);
                Ok(self.mk_constraint(&sum_bounds(&slo, &tlo), &sum_bounds(&shi, &thi)))
            },
            _ => Ok(None),
        }
    }

    fn combine_constraints(&self, g: Budget, m: Mode, ctx: &Ctx, a: &Expr, b: &Expr) -> (r: R<
        Option<Expr>,
    >)
        ensures
            res(r) == constraint_combine_spec(self@, sem_at(self@, g), m, ctx@, a@, b@),
        decreases g.total(), 3int, 0int,
    {
        proof {
            reveal(constraint_combine_spec);
        }
        let aw = self.whnf_at(g, m, ctx, a)?;
        let bw = self.whnf_at(g, m, ctx, b)?;
        match (self.constraint_mk_fields(&aw), self.constraint_mk_fields(&bw)) {
            (Some((alo, ahi)), Some((blo, bhi))) => {
                let lo = match self.option_merge_closed(g, m, ctx, &alo, &blo, true)? {
                    Some(t) => t,
                    None => {
                        return Ok(None);
                    },
                };
                let hi = match self.option_merge_closed(g, m, ctx, &ahi, &bhi, false)? {
                    Some(t) => t,
                    None => {
                        return Ok(None);
                    },
                };
                match self.find_name_ending("Constraint.mk") {
                    Some(c) => Ok(Some(mk_app2(plain_const(c), lo, hi))),
                    None => Ok(None),
                }
            },
            _ => Ok(None),
        }
    }

    /// The reduction of an operation on constraints, by its name.
    pub fn try_omega_constraint(&self, g: Budget, m: Mode, ctx: &Ctx, head: &Expr, args: &Vec<Expr>) -> (r:
        R<Option<Expr>>)
        ensures
            res(r) == omega_constraint_spec(
                self@,
                sem_at(self@, g),
                m,
                ctx@,
                head@,
                args.deep_view(),
            ),
        decreases g.total(), 4int, 0int,
    {
        proof {
            reveal(omega_constraint_spec);
        }
        assert(args.len() == args.deep_view().len());
        let name = match head.data() {
            ExprData::Const(n, _) => self.name_str(*n),
            _ => {
                return Ok(None);
            },
        };
        let bounds = named(name, "tidyConstraint");
        if bounds || named(name, "tidyCoeffs") {
            if args.len() < 2 {
                return Ok(None);
            }
            return match self.omega_tidy(g, m, ctx, &args[0], &args[1])? {
                Some((c, xs)) => {
                    if bounds {
                        Ok(Some(apps_from(c, args, 2)))
                    } else {
                        Ok(Some(apps_from(xs, args, 2)))
                    }
                },
                None => Ok(None),
            };
        }
        if !str_contains(name, "Constraint") {
            return Ok(None);
        }
        if named(name, "Constraint.combine") && args.len() >= 2 {
            return match self.combine_constraints(g, m, ctx, &args[0], &args[1])? {
                Some(t) => Ok(Some(apps_from(t, args, 2))),
                None => Ok(None),
            };
        }
        if named(name, "Constraint.combo") && args.len() >= 4 {
            return match self.closed_constraint_combo(
                g,
                m,
                ctx,
                &args[0],
                &args[1],
                &args[2],
                &args[3],
            )? {
                Some(t) => Ok(Some(apps_from(t, args, 4))),
                None => Ok(None),
            };
        }
        Ok(None)
    }

    /// A combination of two lists of closed coefficients.
    pub fn closed_coeffs_combo(
        &self,
        g: Budget,
        m: Mode,
        ctx: &Ctx,
        a: &Expr,
        xs: &Expr,
        b: &Expr,
        ys: &Expr,
    ) -> (r: R<Option<Expr>>)
        ensures
            res(r) == coeffs_combo_spec(
                self@,
                sem_at(self@, g),
                m,
                ctx@,
                a@,
                xs@,
                b@,
                ys@,
            ),
        decreases g.total(), 4int, 0int,
    {
        proof {
            reveal(coeffs_combo_spec);
        }
        let (av, bv) = match self.closed_int_pair(g, m, ctx, a, b)? {
            Some(p) => p,
            None => {
                return Ok(None);
            },
        };
        match self.closed_list_pair(g, m, ctx, xs, ys)? {
            Some((xv, yv)) => Ok(self.mk_closed_int_list(&combine_lists(&av, &xv, &bv, &yv))),
            None => Ok(None),
        }
    }

    fn subtract_lists(&self, g: Budget, m: Mode, ctx: &Ctx, a: &Expr, b: &Expr) -> (r: R<Option<Expr>>)
        ensures
            res(r) == list_sub_spec(self@, sem_at(self@, g), m, ctx@, a@, b@),
        decreases g.total(), 1int, 0int,
    {
        let aw = self.whnf_at(g, m, ctx, a)?;
        let bw = self.whnf_at(g, m, ctx, b)?;
        if self.is_closed_int_list(&aw) && self.is_list_nil(&bw) {
            Ok(Some(aw))
        } else {
            Ok(None)
        }
    }

    /// The reduction of an operation on lists of coefficients, by its name.
    pub fn try_intlist(&self, g: Budget, m: Mode, ctx: &Ctx, head: &Expr, args: &Vec<Expr>) -> (r: R<
        Option<Expr>,
    >)
        ensures
            res(r) == intlist_spec(
                self@,
                sem_at(self@, g),
                m,
                ctx@,
                head@,
                args.deep_view(),
            ),
        decreases g.total(), 5int, 0int,
    {
        proof {
            reveal(intlist_spec);
        }
        assert(args.len() == args.deep_view().len());
        let name = match head.data() {
            ExprData::Const(n, _) => self.name_str(*n),
            _ => {
                return Ok(None);
            },
        };
        if !str_contains(name, "IntList") && !str_contains(name, "Coeffs") {
            return Ok(None);
        }
        if (named(name, "IntList.sub") || named(name, "Coeffs.sub")) && args.len() >= 2 {
            return match self.subtract_lists(g, m, ctx, &args[0], &args[1])? {
                Some(t) => Ok(Some(apps_from(t, args, 2))),
                None => Ok(None),
            };
        }
        if (named(name, "IntList.gcd") || named(name, "Coeffs.gcd")) && args.len() >= 1 {
            return match self.closed_int_list_gcd(g, m, ctx, &args[0])? {
                Some(d) => Ok(Some(apps_from(lit_nat(d), args, 1))),
                None => Ok(None),
            };
        }
        if (named(name, "IntList.combo") || named(name, "Coeffs.combo")) && args.len() >= 4 {
            return match self.closed_coeffs_combo(
                g,
                m,
                ctx,
                &args[0],
                &args[1],
                &args[2],
                &args[3],
            )? {
                Some(t) => Ok(Some(apps_from(t, args, 4))),
                None => Ok(None),
            };
        }
        Ok(None)
    }

    /// The constant and the coefficients of a linear combination that shows them.
    pub fn linear_combo_mk_parts(&self, e: &Expr) -> (r: Option<(Expr, Expr)>)
        ensures
            r.deep_view() == combo_parts(self@, e@),
    {
        let (_, args) = unfold_apps(e);
        assert(args.len() == args.deep_view().len());
        let n: usize = args.len();
        if self.head_is(e, "LinearCombo.mk") && n >= 2 {
            return Some((args[n - 2].clone(), args[n - 1].clone()));
        }
        None
    }

    /// The sum or difference of two closed linear combinations.
    pub fn closed_linear_combo_add_sub(
        &self,
        g: Budget,
        m: Mode,
        ctx: &Ctx,
        a: &Expr,
        b: &Expr,
        is_sub: bool,
    ) -> (r: R<Option<Expr>>)
        ensures
            res(r) == closed_combo_spec(
                self@,
                sem_at(self@, g),
                m,
                ctx@,
                a@,
                b@,
                is_sub,
            ),
        decreases g.total(), 4int, 0int,
    {
        proof {
            reveal(closed_combo_spec);
        }
        let (c1, cs1) = match self.linear_combo_mk_parts(a) {
            Some(p) => p,
            None => {
                return Ok(None);
            },
        };
        let (c2, cs2) = match self.linear_combo_mk_parts(b) {
            Some(p) => p,
            None => {
                return Ok(None);
            },
        };
        let (k1, k2) = match self.closed_int_pair(g, m, ctx, &c1, &c2)? {
            Some(p) => p,
            None => {
                return Ok(None);
            },
        };
        let (xs, ys) = match self.closed_list_pair(g, m, ctx, &cs1, &cs2)? {
            Some(p) => p,
            None => {
                return Ok(None);
            },
        };
        let one = Integer::from_i64(1);
        let sign = if is_sub {
            Integer::from_i64(-1)
        } else {
            Integer::from_i64(1)
        };
        let c = match self.find_name_ending("LinearCombo.mk") {
            Some(c) => c,
            None => {
                return Ok(None);
            },
        };
        let ck = self.mk_closed_int(&k1.plus(&sign.times(&k2)));
        let cl = self.mk_closed_int_list(&combine_lists(&one, &xs, &sign, &ys));
        match (ck, cl) {
            (Some(p), Some(q)) => Ok(Some(mk_app2(plain_const(c), p, q))),
            _ => Ok(None),
        }
    }

    fn find_combo_ops(&self, is_sub: bool) -> (r: Option<(u32, u32)>)
        ensures
            r == combo_ops(self@, is_sub),
    {
        let (on_const, first, second, third) = if is_sub {
            (
                self.find_name_ending("Int.sub"),
                self.find_name_ending("Coeffs.sub"),
                self.find_name_ending("IntList.sub"),
                self.find_name_ending("HSub.hSub"),
            )
        } else {
            (
                self.find_name_ending("Int.add"),
                self.find_name_ending("Coeffs.add"),
                self.find_name_ending("IntList.add"),
                self.find_name_ending("HAdd.hAdd"),
            )
        };
        let on_coeffs = match first {
            Some(c) => Some(c),
            None => match second {
                Some(c) => Some(c),
                None => third,
            },
        };
        match (on_const, on_coeffs) {
            (Some(a), Some(b)) => Some((a, b)),
            _ => None,
        }
    }

    fn combine_combos(
        &self,
        g: Budget,
        m: Mode,
        ctx: &Ctx,
        combo: u32,
        a: &Expr,
        b: &Expr,
        is_sub: bool,
    ) -> (r: R<Option<Expr>>)
        ensures
            res(r) == combo_binary_spec(
                self@,
                sem_at(self@, g),
                m,
                ctx@,
                combo,
                a@,
                b@,
                is_sub,
            ),
        decreases g.total(), 5int, 0int,
    {
        proof {
            reveal(combo_binary_spec);
        }
        let aw = self.whnf_at(g, m, ctx, a)?;
        let bw = self.whnf_at(g, m, ctx, b)?;
        match self.closed_linear_combo_add_sub(g, m, ctx, &aw, &bw, is_sub)? {
            Some(t) => {
                return Ok(Some(t));
            },
            None => {},
        }
        match (self.find_name_ending("LinearCombo.mk"), self.find_combo_ops(is_sub)) {
            (Some(c), Some((f1, f2))) => {
                let cnst = mk_app2(
                    plain_const(f1),
                    proj(combo, 0, aw.clone()),
                    proj(combo, 0, bw.clone()),
                );
                let coeffs = mk_app2(plain_const(f2), proj(combo, 1, aw), proj(combo, 1, bw));
                Ok(Some(mk_app2(plain_const(c), cnst, coeffs)))
            },
            _ => Ok(None),
        }
    }

    fn eval_combo(&self, g: Budget, m: Mode, ctx: &Ctx, combo: u32, lc: &Expr, values: &Expr) -> (r: R<
        Option<Expr>,
    >)
        ensures
            res(r) == combo_eval_spec(
                self@,
                sem_at(self@, g),
                m,
                ctx@,
                combo,
                lc@,
                values@,
            ),
        decreases g.total(), 1int, 0int,
    {
        proof {
            reveal(combo_eval_spec);
        }
        let w = self.whnf_at(g, m, ctx, lc)?;
        let (_, largs) = unfold_apps(&w);
        assert(largs.len() == largs.deep_view().len());
        let (cnst, coeffs) = if self.head_is(&w, "LinearCombo.mk") && largs.len() >= 2 {
            (largs[0].clone(), largs[1].clone())
        } else {
            (proj(combo, 0, w.clone()), proj(combo, 1, w))
        };
        let cw = self.whnf_at(g, m, ctx, &coeffs)?;
        if self.is_list_nil(&cw) {
            return Ok(Some(cnst));
        }
        match (self.find_name_ending("Coeffs.dot"), self.find_name_ending("Int.add")) {
            (Some(dot), Some(iadd)) => {
                let dotted = mk_app2(plain_const(dot), coeffs, values.clone());
                Ok(Some(mk_app2(plain_const(iadd), cnst, dotted)))
            },
            _ => Ok(None),
        }
    }

    /// The reduction of an operation on linear combinations, by its name.
    pub fn try_omega_combo(&self, g: Budget, m: Mode, ctx: &Ctx, head: &Expr, args: &Vec<Expr>) -> (r:
        R<Option<Expr>>)
        ensures
            res(r) == omega_combo_spec(
                self@,
                sem_at(self@, g),
                m,
                ctx@,
                head@,
                args.deep_view(),
            ),
        decreases g.total(), 6int, 0int,
    {
        proof {
            reveal(omega_combo_spec);
        }
        assert(args.len() == args.deep_view().len());
        let name = match head.data() {
            ExprData::Const(n, _) => self.name_str(*n),
            _ => {
                return Ok(None);
            },
        };
        if !str_contains(name, "LinearCombo") || args.len() < 2 {
            return Ok(None);
        }
        let combo = match self.find_name_ending("LinearCombo") {
            Some(c) => c,
            None => {
                return Ok(None);
            },
        };
        let r = if named(name, "LinearCombo.eval") {
            self.eval_combo(g, m, ctx, combo, &args[0], &args[1])?
        } else if named(name, "LinearCombo.sub") {
            self.combine_combos(g, m, ctx, combo, &args[0], &args[1], true)?
        } else if named(name, "LinearCombo.add") {
            self.combine_combos(g, m, ctx, combo, &args[0], &args[1], false)?
        } else {
            None
        };
        match r {
            Some(t) => Ok(Some(apps_from(t, args, 2))),
            None => Ok(None),
        }
    }
}

} // verus!
