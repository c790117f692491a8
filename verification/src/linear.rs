//! Linear integer polynomials and the expressions that normalise to them.
//!
//! A polynomial is a spine of coefficient and variable pairs that ends in a
//! constant. Normal forms list each variable once, the larger one first.

use crate::ints::{cdiv, ediv, emod, int_cdiv, int_ediv, int_emod};
use crate::num::{Integer, Natural};
use vstd::prelude::*;

verus! {

/// A closed linear polynomial.
#[derive(Debug, PartialEq, Eq)]
pub enum LinearPoly {
    Num(Integer),
    Add(Integer, Natural, Box<LinearPoly>),
}

/// The mathematical reading of a [`LinearPoly`].
pub enum Lin {
    Num(int),
    Add(int, nat, Box<Lin>),
}

impl View for LinearPoly {
    type V = Lin;

    open spec fn view(&self) -> Lin
        decreases self,
    {
        match self {
            LinearPoly::Num(k) => Lin::Num(k@),
            LinearPoly::Add(k, v, p) => Lin::Add(k@, v@, Box::new((**p).view())),
        }
    }
}

impl DeepView for LinearPoly {
    type V = Lin;

    open spec fn deep_view(&self) -> Lin {
        self@
    }
}

/// The value of a polynomial where the variables have the given values.
pub open spec fn lin_value(p: Lin, rho: spec_fn(nat) -> int) -> int
    decreases p,
{
    match p {
        Lin::Num(k) => k,
        Lin::Add(k, v, q) => k * rho(v) + lin_value(*q, rho),
    }
}

/// The coefficient of the first occurrence of a variable.
pub open spec fn lin_coeff(p: Lin, x: nat) -> int
    decreases p,
{
    match p {
        Lin::Num(_) => 0,
        Lin::Add(k, v, q) => if v == x {
            k
        } else {
            lin_coeff(*q, x)
        },
    }
}

/// Every coefficient and the constant, multiplied.
pub open spec fn lin_scale(p: Lin, k: int) -> Lin
    decreases p,
{
    match p {
        Lin::Num(c) => Lin::Num(k * c),
        Lin::Add(a, v, q) => Lin::Add(k * a, v, Box::new(lin_scale(*q, k))),
    }
}

/// The product with a number; zero leaves the zero constant alone.
pub open spec fn lin_mul(p: Lin, k: int) -> Lin {
    if k == 0 {
        Lin::Num(0)
    } else {
        lin_scale(p, k)
    }
}

/// The polynomial with its constant raised.
pub open spec fn lin_add_const(p: Lin, k: int) -> Lin
    decreases p,
{
    match p {
        Lin::Num(c) => Lin::Num(c + k),
        Lin::Add(a, v, q) => Lin::Add(a, v, Box::new(lin_add_const(*q, k))),
    }
}

/// The two spines merged by variable, scaled by `a` and `b`.
pub open spec fn lin_merge(a: int, b: int, p1: Lin, p2: Lin) -> Lin
    decreases p1, p2,
{
    match (p1, p2) {
        (Lin::Num(k1), Lin::Num(k2)) => Lin::Num(a * k1 + b * k2),
        (Lin::Num(_), Lin::Add(a2, x2, q2)) => Lin::Add(
            b * a2,
            x2,
            Box::new(lin_merge(a, b, p1, *q2)),
        ),
        (Lin::Add(a1, x1, q1), Lin::Num(_)) => Lin::Add(
            a * a1,
            x1,
            Box::new(lin_merge(a, b, *q1, p2)),
        ),
        (Lin::Add(a1, x1, q1), Lin::Add(a2, x2, q2)) => if x1 == x2 {
            if a * a1 + b * a2 == 0 {
                lin_merge(a, b, *q1, *q2)
            } else {
                Lin::Add(a * a1 + b * a2, x1, Box::new(lin_merge(a, b, *q1, *q2)))
            }
        } else if x2 < x1 {
            Lin::Add(a * a1, x1, Box::new(lin_merge(a, b, *q1, p2)))
        } else {
            Lin::Add(b * a2, x2, Box::new(lin_merge(a, b, p1, *q2)))
        },
    }
}

/// `a * p1 + b * p2`.
pub open spec fn lin_combine(a: int, b: int, p1: Lin, p2: Lin) -> Lin {
    if a == 0 {
        lin_mul(p2, b)
    } else if b == 0 {
        lin_mul(p1, a)
    } else {
        lin_merge(a, b, p1, p2)
    }
}

/// The polynomial with the monomial `k * v` put in its place.
pub open spec fn lin_insert(p: Lin, k: int, v: nat) -> Lin
    decreases p,
{
    match p {
        Lin::Num(c) => Lin::Add(k, v, Box::new(p)),
        Lin::Add(k2, v2, q) => if v2 < v {
            Lin::Add(k, v, Box::new(p))
        } else if v == v2 {
            if k + k2 == 0 {
                *q
            } else {
                Lin::Add(k + k2, v2, q)
            }
        } else {
            Lin::Add(k2, v2, Box::new(lin_insert(*q, k, v)))
        },
    }
}

/// The leading coefficient; that of a constant is one.
pub open spec fn lin_lead(p: Lin) -> int {
    match p {
        Lin::Add(a, _, _) => a,
        Lin::Num(_) => 1,
    }
}

/// The constant at the end of the spine.
pub open spec fn lin_const(p: Lin) -> int
    decreases p,
{
    match p {
        Lin::Num(k) => k,
        Lin::Add(_, _, q) => lin_const(*q),
    }
}

/// Whether every coefficient, but not the constant, is a multiple of a nonzero
/// number.
pub open spec fn lin_divisible(p: Lin, k: int) -> bool
    decreases p,
{
    k != 0 && match p {
        Lin::Num(_) => true,
        Lin::Add(a, _, q) => emod(a, k) == 0 && lin_divisible(*q, k),
    }
}

/// The coefficients divided, and the constant divided and rounded up.
pub open spec fn lin_div(p: Lin, k: int) -> Lin
    decreases p,
{
    match p {
        Lin::Num(c) => Lin::Num(cdiv(c, k)),
        Lin::Add(a, v, q) => Lin::Add(ediv(a, k), v, Box::new(lin_div(*q, k))),
    }
}

/// The spine sorted by insertion.
pub open spec fn lin_normalize(p: Lin) -> Lin
    decreases p,
{
    match p {
        Lin::Num(_) => p,
        Lin::Add(k, v, q) => lin_insert(lin_normalize(*q), k, v),
    }
}

/// Whether the variables of the spine strictly decrease.
pub open spec fn lin_sorted(p: Lin) -> bool
    decreases p,
{
    match p {
        Lin::Num(_) => true,
        Lin::Add(_, v, q) => lin_sorted(*q) && (*q matches Lin::Add(_, w, _) ==> w < v),
    }
}

impl Clone for LinearPoly {
    fn clone(&self) -> (r: Self)
        ensures
            r@ == self@,
        decreases self,
    {
        match self {
            LinearPoly::Num(k) => LinearPoly::Num(k.clone()),
            LinearPoly::Add(k, v, p) => LinearPoly::Add(
                k.clone(),
                v.clone(),
                Box::new((&**p).clone()),
            ),
        }
    }
}

impl LinearPoly {
    /// The coefficient of a variable.
    pub fn coeff(&self, x: &Natural) -> (r: Integer)
        ensures
            r@ == lin_coeff(self@, x@),
        decreases self,
    {
        match self {
            LinearPoly::Num(_) => Integer::from_i64(0),
            LinearPoly::Add(k, v, p) => {
                if v.same(x) {
                    k.clone()
                } else {
                    p.coeff(x)
                }
            },
        }
    }

    /// The product with a number.
    pub fn mul(&self, k: &Integer) -> (r: Self)
        ensures
            r@ == lin_mul(self@, k@),
    {
        if k.is_zero() {
            return LinearPoly::Num(Integer::from_i64(0));
        }
        self.mul_nz(k)
    }

    /// The product with a number, term by term.
    pub fn mul_nz(&self, k: &Integer) -> (r: Self)
        ensures
            r@ == lin_scale(self@, k@),
        decreases self,
    {
        match self {
            LinearPoly::Num(c) => LinearPoly::Num(k.times(c)),
            LinearPoly::Add(a, v, p) => LinearPoly::Add(
                k.times(a),
                v.clone(),
                Box::new(p.mul_nz(k)),
            ),
        }
    }

    /// The polynomial with its constant raised.
    pub fn add_const(&self, k: &Integer) -> (r: Self)
        ensures
            r@ == lin_add_const(self@, k@),
        decreases self,
    {
        match self {
            LinearPoly::Num(c) => LinearPoly::Num(c.plus(k)),
            LinearPoly::Add(a, v, p) => LinearPoly::Add(
                a.clone(),
                v.clone(),
                Box::new(p.add_const(k)),
            ),
        }
    }

    /// `a * p1 + b * p2`.
    pub fn combine_mul_k(a: &Integer, b: &Integer, p1: &Self, p2: &Self) -> (r: Self)
        ensures
            r@ == lin_combine(a@, b@, p1@, p2@),
    {
        if a.is_zero() {
            return p2.mul(b);
        }
        if b.is_zero() {
            return p1.mul(a);
        }
        Self::merge(a, b, p1, p2)
    }

    /// The two spines merged by variable, scaled by `a` and `b`.
    pub fn merge(a: &Integer, b: &Integer, p1: &Self, p2: &Self) -> (r: Self)
        ensures
            r@ == lin_merge(a@, b@, p1@, p2@),
        decreases p1, p2,
    {
        match p1 {
            LinearPoly::Num(k1) => match p2 {
                LinearPoly::Num(k2) => LinearPoly::Num(a.times(k1).plus(&b.times(k2))),
                LinearPoly::Add(a2, x2, q2) => LinearPoly::Add(
                    b.times(a2),
                    x2.clone(),
                    Box::new(Self::merge(a, b, p1, q2)),
                ),
            },
            LinearPoly::Add(a1, x1, q1) => match p2 {
                LinearPoly::Num(_) => LinearPoly::Add(
                    a.times(a1),
                    x1.clone(),
                    Box::new(Self::merge(a, b, q1, p2)),
                ),
                LinearPoly::Add(a2, x2, q2) => {
                    if x1.same(x2) {
                        let c = a.times(a1).plus(&b.times(a2));
                        if c.is_zero() {
                            Self::merge(a, b, q1, q2)
                        } else {
                            LinearPoly::Add(c, x1.clone(), Box::new(Self::merge(a, b, q1, q2)))
                        }
                    } else if x2.less(x1) {
                        LinearPoly::Add(
                            a.times(a1),
                            x1.clone(),
                            Box::new(Self::merge(a, b, q1, p2)),
                        )
                    } else {
                        LinearPoly::Add(
                            b.times(a2),
                            x2.clone(),
                            Box::new(Self::merge(a, b, p1, q2)),
                        )
                    }
                },
            },
        }
    }

    /// The polynomial with the monomial `k * v` put in its place.
    pub fn insert(&self, k: &Integer, v: &Natural) -> (r: Self)
        ensures
            r@ == lin_insert(self@, k@, v@),
        decreases self,
    {
        match self {
            LinearPoly::Num(_) => LinearPoly::Add(k.clone(), v.clone(), Box::new(self.clone())),
            LinearPoly::Add(k2, v2, p) => {
                if v2.less(v) {
                    LinearPoly::Add(k.clone(), v.clone(), Box::new(self.clone()))
                } else if v.same(v2) {
                    let s = k.plus(k2);
                    if s.is_zero() {
                        (&**p).clone()
                    } else {
                        LinearPoly::Add(s, v2.clone(), Box::new((&**p).clone()))
                    }
                } else {
                    LinearPoly::Add(k2.clone(), v2.clone(), Box::new(p.insert(k, v)))
                }
            },
        }
    }

    /// Whether the two spines are the same.
    pub fn beq(&self, other: &Self) -> (r: bool)
        ensures
            r == (self@ == other@),
        decreases self,
    {
        match self {
            LinearPoly::Num(a) => match other {
                LinearPoly::Num(b) => a.same(b),
                LinearPoly::Add(_, _, _) => false,
            },
            LinearPoly::Add(k1, v1, p1) => match other {
                LinearPoly::Num(_) => false,
                LinearPoly::Add(k2, v2, p2) => k1.same(k2) && v1.same(v2) && p1.beq(p2),
            },
        }
    }

    /// The leading coefficient.
    pub fn lead_coeff(&self) -> (r: Integer)
        ensures
            r@ == lin_lead(self@),
    {
        match self {
            LinearPoly::Add(a, _, _) => a.clone(),
            LinearPoly::Num(_) => Integer::from_i64(1),
        }
    }

    /// The constant.
    pub fn get_const(&self) -> (r: Integer)
        ensures
            r@ == lin_const(self@),
        decreases self,
    {
        match self {
            LinearPoly::Num(k) => k.clone(),
            LinearPoly::Add(_, _, p) => p.get_const(),
        }
    }

    /// Whether every coefficient is a multiple of `k`.
    pub fn div_coeffs(&self, k: &Integer) -> (r: bool)
        ensures
            r == lin_divisible(self@, k@),
        decreases self,
    {
        if k.is_zero() {
            return false;
        }
        match self {
            LinearPoly::Num(_) => true,
            LinearPoly::Add(a, _, p) => int_emod(a, k).is_zero() && p.div_coeffs(k),
        }
    }

    /// The coefficients divided, and the constant divided and rounded up.
    pub fn div(&self, k: &Integer) -> (r: Self)
        ensures
            r@ == lin_div(self@, k@),
        decreases self,
    {
        match self {
            LinearPoly::Num(c) => LinearPoly::Num(int_cdiv(c, k)),
            LinearPoly::Add(a, v, p) => LinearPoly::Add(
                int_ediv(a, k),
                v.clone(),
                Box::new(p.div(k)),
            ),
        }
    }

    /// The absolute value of a coefficient.
    pub fn nat_abs(k: &Integer) -> (r: Integer)
        ensures
            r@ == (if k@ < 0 {
                -k@
            } else {
                k@
            }),
    {
        Integer::from_natural(&k.magnitude())
    }

    /// The spine sorted by insertion.
    pub fn normalize(&self) -> (r: Self)
        ensures
            r@ == lin_normalize(self@),
        decreases self,
    {
        match self {
            LinearPoly::Num(k) => LinearPoly::Num(k.clone()),
            LinearPoly::Add(k, v, p) => p.normalize().insert(k, v),
        }
    }
}

/// A closed linear expression.
#[derive(Debug)]
pub enum LinearExpr {
    Num(Integer),
    Var(Natural),
    Add(Box<LinearExpr>, Box<LinearExpr>),
    Sub(Box<LinearExpr>, Box<LinearExpr>),
    Neg(Box<LinearExpr>),
    MulL(Integer, Box<LinearExpr>),
    MulR(Box<LinearExpr>, Integer),
}

/// The mathematical reading of a [`LinearExpr`].
pub enum LinExp {
    Num(int),
    Var(nat),
    Add(Box<LinExp>, Box<LinExp>),
    Sub(Box<LinExp>, Box<LinExp>),
    Neg(Box<LinExp>),
    MulL(int, Box<LinExp>),
    MulR(Box<LinExp>, int),
}

impl View for LinearExpr {
    type V = LinExp;

    open spec fn view(&self) -> LinExp
        decreases self,
    {
        match self {
            LinearExpr::Num(k) => LinExp::Num(k@),
            LinearExpr::Var(v) => LinExp::Var(v@),
            LinearExpr::Add(a, b) => LinExp::Add(Box::new((**a).view()), Box::new((**b).view())),
            LinearExpr::Sub(a, b) => LinExp::Sub(Box::new((**a).view()), Box::new((**b).view())),
            LinearExpr::Neg(a) => LinExp::Neg(Box::new((**a).view())),
            LinearExpr::MulL(k, a) => LinExp::MulL(k@, Box::new((**a).view())),
            LinearExpr::MulR(a, k) => LinExp::MulR(Box::new((**a).view()), k@),
        }
    }
}

impl DeepView for LinearExpr {
    type V = LinExp;

    open spec fn deep_view(&self) -> LinExp {
        self@
    }
}

/// The value of an expression where the variables have the given values.
pub open spec fn linexp_value(e: LinExp, rho: spec_fn(nat) -> int) -> int
    decreases e,
{
    match e {
        LinExp::Num(k) => k,
        LinExp::Var(v) => rho(v),
        LinExp::Add(a, b) => linexp_value(*a, rho) + linexp_value(*b, rho),
        LinExp::Sub(a, b) => linexp_value(*a, rho) - linexp_value(*b, rho),
        LinExp::Neg(a) => -linexp_value(*a, rho),
        LinExp::MulL(k, a) => k * linexp_value(*a, rho),
        LinExp::MulR(a, k) => linexp_value(*a, rho) * k,
    }
}

/// `acc` with `coeff` times the expression put in front.
pub open spec fn linexp_go(e: LinExp, coeff: int, acc: Lin) -> Lin
    decreases e,
{
    match e {
        LinExp::Num(k) => if k == 0 {
            acc
        } else {
            lin_add_const(acc, coeff * k)
        },
        LinExp::Var(v) => Lin::Add(coeff, v, Box::new(acc)),
        LinExp::Add(a, b) => linexp_go(*a, coeff, linexp_go(*b, coeff, acc)),
        LinExp::Sub(a, b) => linexp_go(*a, coeff, linexp_go(*b, -coeff, acc)),
        LinExp::Neg(a) => linexp_go(*a, -coeff, acc),
        LinExp::MulL(k, a) => if k == 0 {
            acc
        } else {
            linexp_go(*a, coeff * k, acc)
        },
        LinExp::MulR(a, k) => if k == 0 {
            acc
        } else {
            linexp_go(*a, coeff * k, acc)
        },
    }
}

/// The spine of an expression, not yet sorted.
pub open spec fn linexp_to_poly(e: LinExp) -> Lin {
    linexp_go(e, 1, Lin::Num(0))
}

/// The normal form of an expression.
pub open spec fn linexp_norm(e: LinExp) -> Lin {
    lin_normalize(linexp_to_poly(e))
}

impl LinearExpr {
    /// The spine of the expression, not yet sorted.
    pub fn to_poly(&self) -> (r: LinearPoly)
        ensures
            r@ == linexp_to_poly(self@),
    {
        self.go(&Integer::from_i64(1), LinearPoly::Num(Integer::from_i64(0)))
    }

    /// `acc` with `coeff` times the expression put in front.
    pub fn go(&self, coeff: &Integer, acc: LinearPoly) -> (r: LinearPoly)
        ensures
            r@ == linexp_go(self@, coeff@, acc@),
        decreases self,
    {
        match self {
            LinearExpr::Num(k) => {
                if k.is_zero() {
                    acc
                } else {
                    acc.add_const(&coeff.times(k))
                }
            },
            LinearExpr::Var(v) => LinearPoly::Add(coeff.clone(), v.clone(), Box::new(acc)),
            LinearExpr::Add(a, b) => a.go(coeff, b.go(coeff, acc)),
            LinearExpr::Sub(a, b) => a.go(coeff, b.go(&coeff.negate(), acc)),
            LinearExpr::Neg(a) => a.go(&coeff.negate(), acc),
            LinearExpr::MulL(k, a) => {
                if k.is_zero() {
                    acc
                } else {
                    a.go(&coeff.times(k), acc)
                }
            },
            LinearExpr::MulR(a, k) => {
                if k.is_zero() {
                    acc
                } else {
                    a.go(&coeff.times(k), acc)
                }
            },
        }
    }

    /// The normal form of the expression.
    pub fn norm(&self) -> (r: LinearPoly)
        ensures
            r@ == linexp_norm(self@),
    {
        self.to_poly().normalize()
    }
}

/// Scaling a polynomial scales its value.
pub proof fn law_scale_value(p: Lin, k: int, rho: spec_fn(nat) -> int)
    ensures
        lin_value(lin_scale(p, k), rho) == k * lin_value(p, rho),
        lin_value(lin_mul(p, k), rho) == k * lin_value(p, rho),
    decreases p,
{
    match p {
        Lin::Num(_) => {},
        Lin::Add(a, v, q) => {
            law_scale_value(*q, k, rho);
            let x = rho(v);
            let y = lin_value(*q, rho);
            assert((k * a) * x + k * y == k * (a * x + y)) by (nonlinear_arith);
        },
    }
    if k == 0 {
        assert(k * lin_value(p, rho) == 0) by (nonlinear_arith)
            requires
                k == 0,
        ;
    }
}

/// Raising the constant raises the value.
pub proof fn law_add_const_value(p: Lin, k: int, rho: spec_fn(nat) -> int)
    ensures
        lin_value(lin_add_const(p, k), rho) == lin_value(p, rho) + k,
    decreases p,
{
    match p {
        Lin::Num(_) => {},
        Lin::Add(_, _, q) => law_add_const_value(*q, k, rho),
    }
}

proof fn lemma_merge_value(a: int, b: int, p1: Lin, p2: Lin, rho: spec_fn(nat) -> int)
    ensures
        lin_value(lin_merge(a, b, p1, p2), rho) == a * lin_value(p1, rho) + b * lin_value(p2, rho),
    decreases p1, p2,
{
    match (p1, p2) {
        (Lin::Num(_), Lin::Num(_)) => {},
        (Lin::Num(_), Lin::Add(a2, x2, q2)) => {
            lemma_merge_value(a, b, p1, *q2, rho);
            let x = rho(x2);
            let y = lin_value(*q2, rho);
            assert((b * a2) * x + b * y == b * (a2 * x + y)) by (nonlinear_arith);
        },
        (Lin::Add(a1, x1, q1), Lin::Num(_)) => {
            lemma_merge_value(a, b, *q1, p2, rho);
            let x = rho(x1);
            let y = lin_value(*q1, rho);
            assert((a * a1) * x + a * y == a * (a1 * x + y)) by (nonlinear_arith);
        },
        (Lin::Add(a1, x1, q1), Lin::Add(a2, x2, q2)) => {
            let u = rho(x1);
            let w = rho(x2);
            let y1 = lin_value(*q1, rho);
            let y2 = lin_value(*q2, rho);
            assert((a * a1) * u + a * y1 == a * (a1 * u + y1)) by (nonlinear_arith);
            assert((b * a2) * w + b * y2 == b * (a2 * w + y2)) by (nonlinear_arith);
            if x1 == x2 {
                lemma_merge_value(a, b, *q1, *q2, rho);
                let c = a * a1 + b * a2;
                assert(c * u == (a * a1) * u + (b * a2) * u) by (nonlinear_arith)
                    requires
                        c == a * a1 + b * a2,
                ;
                if c == 0 {
                    assert(c * u == 0) by (nonlinear_arith)
                        requires
                            c == 0,
                    ;
                }
            } else if x2 < x1 {
                lemma_merge_value(a, b, *q1, p2, rho);
            } else {
                lemma_merge_value(a, b, p1, *q2, rho);
            }
        },
    }
}

/// Combining two polynomials combines their values.
pub proof fn law_combine_value(a: int, b: int, p1: Lin, p2: Lin, rho: spec_fn(nat) -> int)
    ensures
        lin_value(lin_combine(a, b, p1, p2), rho) == a * lin_value(p1, rho) + b * lin_value(
            p2,
            rho,
        ),
{
    law_scale_value(p2, b, rho);
    law_scale_value(p1, a, rho);
    lemma_merge_value(a, b, p1, p2, rho);
    if a == 0 {
        assert(a * lin_value(p1, rho) == 0) by (nonlinear_arith)
            requires
                a == 0,
        ;
    }
    if b == 0 {
        assert(b * lin_value(p2, rho) == 0) by (nonlinear_arith)
            requires
                b == 0,
        ;
    }
}

/// Inserting a monomial adds it to the value.
pub proof fn law_insert_value(p: Lin, k: int, v: nat, rho: spec_fn(nat) -> int)
    ensures
        lin_value(lin_insert(p, k, v), rho) == k * rho(v) + lin_value(p, rho),
    decreases p,
{
    match p {
        Lin::Num(_) => {},
        Lin::Add(k2, v2, q) => {
            if v2 > v {
                law_insert_value(*q, k, v, rho);
            } else if v == v2 {
                let x = rho(v);
                assert((k + k2) * x == k * x + k2 * x) by (nonlinear_arith);
                if k + k2 == 0 {
                    assert((k + k2) * x == 0) by (nonlinear_arith)
                        requires
                            k + k2 == 0,
                    ;
                }
            }
        },
    }
}

proof fn lemma_insert_sorted(p: Lin, k: int, v: nat)
    requires
        lin_sorted(p),
    ensures
        lin_sorted(lin_insert(p, k, v)),
        lin_insert(p, k, v) matches Lin::Add(_, w, _) ==> w <= v || (p matches Lin::Add(_, u, _)
            && w <= u),
    decreases p,
{
    match p {
        Lin::Num(_) => {},
        Lin::Add(k2, v2, q) => {
            if v2 > v {
                lemma_insert_sorted(*q, k, v);
            }
        },
    }
}

/// Normalising keeps the value, and leaves each variable once, larger first.
pub proof fn law_normalize(p: Lin, rho: spec_fn(nat) -> int)
    ensures
        lin_value(lin_normalize(p), rho) == lin_value(p, rho),
        lin_sorted(lin_normalize(p)),
    decreases p,
{
    match p {
        Lin::Num(_) => {},
        Lin::Add(k, v, q) => {
            law_normalize(*q, rho);
            law_insert_value(lin_normalize(*q), k, v, rho);
            lemma_insert_sorted(lin_normalize(*q), k, v);
        },
    }
}

proof fn lemma_go_value(e: LinExp, coeff: int, acc: Lin, rho: spec_fn(nat) -> int)
    ensures
        lin_value(linexp_go(e, coeff, acc), rho) == coeff * linexp_value(e, rho) + lin_value(
            acc,
            rho,
        ),
    decreases e,
{
    match e {
        LinExp::Num(k) => {
            law_add_const_value(acc, coeff * k, rho);
            if k == 0 {
                assert(coeff * k == 0) by (nonlinear_arith)
                    requires
                        k == 0,
                ;
            }
        },
        LinExp::Var(_) => {},
        LinExp::Add(a, b) => {
            lemma_go_value(*b, coeff, acc, rho);
            lemma_go_value(*a, coeff, linexp_go(*b, coeff, acc), rho);
            let x = linexp_value(*a, rho);
            let y = linexp_value(*b, rho);
            assert(coeff * (x + y) == coeff * x + coeff * y) by (nonlinear_arith);
        },
        LinExp::Sub(a, b) => {
            lemma_go_value(*b, -coeff, acc, rho);
            lemma_go_value(*a, coeff, linexp_go(*b, -coeff, acc), rho);
            let x = linexp_value(*a, rho);
            let y = linexp_value(*b, rho);
            assert(coeff * (x - y) == coeff * x + (-coeff) * y) by (nonlinear_arith);
        },
        LinExp::Neg(a) => {
            lemma_go_value(*a, -coeff, acc, rho);
            let x = linexp_value(*a, rho);
            assert(coeff * (-x) == (-coeff) * x) by (nonlinear_arith);
        },
        LinExp::MulL(k, a) => {
            lemma_go_value(*a, coeff * k, acc, rho);
            let x = linexp_value(*a, rho);
            assert(coeff * (k * x) == (coeff * k) * x) by (nonlinear_arith);
            if k == 0 {
                assert((coeff * k) * x == 0) by (nonlinear_arith)
                    requires
                        k == 0,
                ;
            }
        },
        LinExp::MulR(a, k) => {
            lemma_go_value(*a, coeff * k, acc, rho);
            let x = linexp_value(*a, rho);
            assert(coeff * (x * k) == (coeff * k) * x) by (nonlinear_arith);
            if k == 0 {
                assert((coeff * k) * x == 0) by (nonlinear_arith)
                    requires
                        k == 0,
                ;
            }
        },
    }
}

/// The normal form of an expression has the value of the expression, and its
/// variables strictly decrease.
pub proof fn law_norm_value(e: LinExp, rho: spec_fn(nat) -> int)
    ensures
        lin_value(linexp_to_poly(e), rho) == linexp_value(e, rho),
        lin_value(linexp_norm(e), rho) == linexp_value(e, rho),
        lin_sorted(linexp_norm(e)),
{
    lemma_go_value(e, 1, Lin::Num(0), rho);
    law_normalize(linexp_to_poly(e), rho);
}

/// Where every coefficient is a multiple of `k` and so is the constant, dividing
/// by `k` undoes a multiplication by it.
pub proof fn law_div_exact(p: Lin, k: int, rho: spec_fn(nat) -> int)
    requires
        lin_divisible(p, k),
        emod(lin_const(p), k) == 0,
    ensures
        k * lin_value(lin_div(p, k), rho) == lin_value(p, rho),
    decreases p,
{
    match p {
        Lin::Num(c) => {
            crate::ints::law_euclidean_division(c, k);
            crate::ints::law_ceiling_division(c, k);
            crate::ints::law_euclidean_division(-c, k);
            let q = ediv(c, k);
            assert(k * (-q) == -c) by (nonlinear_arith)
                requires
                    k * q == c,
            ;
            lemma_zero_remainder(-c, k, -q);
        },
        Lin::Add(a, v, q) => {
            law_div_exact(*q, k, rho);
            crate::ints::law_euclidean_division(a, k);
            let x = rho(v);
            let y = lin_value(lin_div(*q, k), rho);
            let d = ediv(a, k);
            assert(k * (d * x + y) == a * x + k * y) by (nonlinear_arith)
                requires
                    k * d == a,
            ;
        },
    }
}

proof fn lemma_zero_remainder(a: int, k: int, q: int)
    requires
        k != 0,
        k * q == a,
    ensures
        emod(a, k) == 0,
{
    crate::ints::law_euclidean_division(a, k);
    let d = ediv(a, k);
    let r = emod(a, k);
    assert(k * (q - d) == r) by (nonlinear_arith)
        requires
            k * q == a,
            k * d + r == a,
    ;
    let t = q - d;
    assert(r == 0) by (nonlinear_arith)
        requires
            k * t == r,
            k != 0,
            0 <= r,
            k > 0 ==> r < k,
            k < 0 ==> r < -k,
    ;
}

/// Whether no coefficient of the spine is zero.
pub open spec fn lin_nonzero(p: Lin) -> bool
    decreases p,
{
    match p {
        Lin::Num(_) => true,
        Lin::Add(k, _, q) => k != 0 && lin_nonzero(*q),
    }
}

proof fn lemma_insert_nonzero(p: Lin, k: int, v: nat)
    requires
        k != 0,
        lin_nonzero(p),
    ensures
        lin_nonzero(lin_insert(p, k, v)),
    decreases p,
{
    match p {
        Lin::Num(_) => {},
        Lin::Add(_, v2, q) => if v < v2 {
            lemma_insert_nonzero(*q, k, v);
        },
    }
}

proof fn lemma_normalize_nonzero(p: Lin)
    requires
        lin_nonzero(p),
    ensures
        lin_nonzero(lin_normalize(p)),
    decreases p,
{
    match p {
        Lin::Num(_) => {},
        Lin::Add(k, v, q) => {
            lemma_normalize_nonzero(*q);
            lemma_insert_nonzero(lin_normalize(*q), k, v);
        },
    }
}

proof fn lemma_add_const_nonzero(p: Lin, k: int)
    requires
        lin_nonzero(p),
    ensures
        lin_nonzero(lin_add_const(p, k)),
    decreases p,
{
    match p {
        Lin::Num(_) => {},
        Lin::Add(_, _, q) => lemma_add_const_nonzero(*q, k),
    }
}

proof fn lemma_go_nonzero(e: LinExp, coeff: int, acc: Lin)
    requires
        coeff != 0,
        lin_nonzero(acc),
    ensures
        lin_nonzero(linexp_go(e, coeff, acc)),
    decreases e,
{
    match e {
        LinExp::Num(k) => lemma_add_const_nonzero(acc, coeff * k),
        LinExp::Var(_) => {},
        LinExp::Add(a, b) => {
            lemma_go_nonzero(*b, coeff, acc);
            lemma_go_nonzero(*a, coeff, linexp_go(*b, coeff, acc));
        },
        LinExp::Sub(a, b) => {
            lemma_go_nonzero(*b, -coeff, acc);
            lemma_go_nonzero(*a, coeff, linexp_go(*b, -coeff, acc));
        },
        LinExp::Neg(a) => lemma_go_nonzero(*a, -coeff, acc),
        LinExp::MulL(k, a) => if k != 0 {
            assert(coeff * k != 0) by (nonlinear_arith)
                requires
                    coeff != 0,
                    k != 0,
            ;
            lemma_go_nonzero(*a, coeff * k, acc);
        },
        LinExp::MulR(a, k) => if k != 0 {
            assert(coeff * k != 0) by (nonlinear_arith)
                requires
                    coeff != 0,
                    k != 0,
            ;
            lemma_go_nonzero(*a, coeff * k, acc);
        },
    }
}

/// The variables of a normal form strictly decrease, and none of its coefficients
/// is zero.
pub proof fn law_norm_is_canonical(e: LinExp)
    ensures
        lin_sorted(linexp_norm(e)),
        lin_nonzero(linexp_norm(e)),
{
    law_norm_value(e, |x: nat| 0int);
    lemma_go_nonzero(e, 1, Lin::Num(0));
    lemma_normalize_nonzero(linexp_to_poly(e));
}

/// The assignment of one to a variable and of zero to all the others.
pub open spec fn only(x: nat) -> spec_fn(nat) -> int {
    |y: nat|
        if y == x {
            1int
        } else {
            0int
        }
}

proof fn lemma_no_coeff(p: Lin, x: nat)
    requires
        lin_sorted(p),
        p matches Lin::Add(_, v, _) ==> v < x,
    ensures
        lin_coeff(p, x) == 0,
        lin_value(p, only(x)) == lin_const(p),
    decreases p,
{
    match p {
        Lin::Num(_) => {},
        Lin::Add(k, v, q) => {
            lemma_no_coeff(*q, x);
            assert(only(x)(v) == 0);
            assert(k * 0 == 0) by (nonlinear_arith);
        },
    }
}

proof fn lemma_value_at(p: Lin, x: nat)
    requires
        lin_sorted(p),
    ensures
        lin_value(p, only(x)) == lin_const(p) + lin_coeff(p, x),
    decreases p,
{
    match p {
        Lin::Num(_) => {},
        Lin::Add(k, v, q) => {
            if v == x {
                lemma_no_coeff(*q, x);
                assert(only(x)(v) == 1);
            } else {
                lemma_value_at(*q, x);
                assert(only(x)(v) == 0);
                assert(k * 0 == 0) by (nonlinear_arith);
            }
        },
    }
}

proof fn lemma_value_at_zero(p: Lin)
    ensures
        lin_value(p, |y: nat| 0int) == lin_const(p),
    decreases p,
{
    match p {
        Lin::Num(_) => {},
        Lin::Add(k, _, q) => {
            lemma_value_at_zero(*q);
            assert(k * 0 == 0) by (nonlinear_arith);
        },
    }
}

proof fn lemma_same_coeffs(p: Lin, q: Lin)
    requires
        lin_sorted(p),
        lin_nonzero(p),
        lin_sorted(q),
        lin_nonzero(q),
        lin_const(p) == lin_const(q),
        forall|x: nat| #[trigger] lin_coeff(p, x) == lin_coeff(q, x),
    ensures
        p == q,
    decreases p,
{
    match (p, q) {
        (Lin::Num(_), Lin::Num(_)) => {},
        (Lin::Num(_), Lin::Add(_, y, _)) => {
            assert(lin_coeff(p, y) == lin_coeff(q, y));
        },
        (Lin::Add(_, x, _), Lin::Num(_)) => {
            assert(lin_coeff(p, x) == lin_coeff(q, x));
        },
        (Lin::Add(_, x, p1), Lin::Add(_, y, q1)) => {
            if x < y {
                lemma_no_coeff(p, y);
                assert(lin_coeff(p, y) == lin_coeff(q, y));
            } else if y < x {
                lemma_no_coeff(q, x);
                assert(lin_coeff(p, x) == lin_coeff(q, x));
            } else {
                assert(lin_coeff(p, x) == lin_coeff(q, x));
                lemma_no_coeff(*p1, x);
                lemma_no_coeff(*q1, x);
                assert forall|z: nat| #[trigger] lin_coeff(*p1, z) == lin_coeff(*q1, z) by {
                    assert(lin_coeff(p, z) == lin_coeff(q, z));
                }
                lemma_same_coeffs(*p1, *q1);
            }
        },
    }
}

/// Polynomials whose variables strictly decrease and whose coefficients are not
/// zero are the same where they have the same value at every assignment.
pub proof fn law_canonical_forms_unique(p: Lin, q: Lin)
    requires
        lin_sorted(p),
        lin_nonzero(p),
        lin_sorted(q),
        lin_nonzero(q),
        forall|rho: spec_fn(nat) -> int| #[trigger] lin_value(p, rho) == lin_value(q, rho),
    ensures
        p == q,
{
    lemma_value_at_zero(p);
    lemma_value_at_zero(q);
    assert(lin_value(p, |y: nat| 0int) == lin_value(q, |y: nat| 0int));
    assert forall|x: nat| #[trigger] lin_coeff(p, x) == lin_coeff(q, x) by {
        lemma_value_at(p, x);
        lemma_value_at(q, x);
        assert(lin_value(p, only(x)) == lin_value(q, only(x)));
    }
    lemma_same_coeffs(p, q);
}

/// Two expressions have the same normal form exactly where they have the same
/// value at every assignment.
pub proof fn law_norm_decides(e1: LinExp, e2: LinExp)
    ensures
        linexp_norm(e1) == linexp_norm(e2) <==> (forall|rho: spec_fn(nat) -> int| #[trigger]
            linexp_value(e1, rho) == linexp_value(e2, rho)),
{
    let p = linexp_norm(e1);
    let q = linexp_norm(e2);
    law_norm_is_canonical(e1);
    law_norm_is_canonical(e2);
    if p == q {
        assert forall|rho: spec_fn(nat) -> int| #[trigger]
            linexp_value(e1, rho) == linexp_value(e2, rho) by {
            law_norm_value(e1, rho);
            law_norm_value(e2, rho);
        }
    }
    if forall|rho: spec_fn(nat) -> int| #[trigger]
        linexp_value(e1, rho) == linexp_value(e2, rho) {
        assert forall|rho: spec_fn(nat) -> int| #[trigger] lin_value(p, rho) == lin_value(q, rho) by {
            law_norm_value(e1, rho);
            law_norm_value(e2, rho);
            assert(linexp_value(e1, rho) == linexp_value(e2, rho));
        }
        law_canonical_forms_unique(p, q);
    }
}

/// Whether a variable stands in the spine.
pub open spec fn lin_has(p: Lin, x: nat) -> bool
    decreases p,
{
    match p {
        Lin::Num(_) => false,
        Lin::Add(_, v, q) => v == x || lin_has(*q, x),
    }
}

spec fn heads_below(p: Lin, x: nat) -> bool {
    p matches Lin::Add(_, v, _) ==> v < x
}

proof fn lemma_merge_sorted(a: int, b: int, p1: Lin, p2: Lin)
    requires
        lin_sorted(p1),
        lin_sorted(p2),
    ensures
        lin_sorted(lin_merge(a, b, p1, p2)),
        forall|x: nat|
            heads_below(p1, x) && heads_below(p2, x) ==> #[trigger] heads_below(
                lin_merge(a, b, p1, p2),
                x,
            ),
    decreases p1, p2,
{
    match (p1, p2) {
        (Lin::Num(_), Lin::Num(_)) => {},
        (Lin::Num(_), Lin::Add(_, x2, q2)) => {
            lemma_merge_sorted(a, b, p1, *q2);
            assert(heads_below(lin_merge(a, b, p1, *q2), x2));
        },
        (Lin::Add(_, x1, q1), Lin::Num(_)) => {
            lemma_merge_sorted(a, b, *q1, p2);
            assert(heads_below(lin_merge(a, b, *q1, p2), x1));
        },
        (Lin::Add(_, x1, q1), Lin::Add(_, x2, q2)) => {
            if x1 == x2 {
                lemma_merge_sorted(a, b, *q1, *q2);
                assert(heads_below(lin_merge(a, b, *q1, *q2), x1));
                assert forall|x: nat|
                    heads_below(p1, x) && heads_below(p2, x) implies #[trigger] heads_below(
                    lin_merge(a, b, p1, p2),
                    x,
                ) by {
                    assert(heads_below(lin_merge(a, b, *q1, *q2), x));
                }
            } else if x2 < x1 {
                lemma_merge_sorted(a, b, *q1, p2);
                assert(heads_below(lin_merge(a, b, *q1, p2), x1));
            } else {
                lemma_merge_sorted(a, b, p1, *q2);
                assert(heads_below(lin_merge(a, b, p1, *q2), x2));
            }
        },
    }
}

proof fn lemma_merge_nonzero(a: int, b: int, p1: Lin, p2: Lin)
    requires
        a != 0,
        b != 0,
        lin_nonzero(p1),
        lin_nonzero(p2),
    ensures
        lin_nonzero(lin_merge(a, b, p1, p2)),
    decreases p1, p2,
{
    match (p1, p2) {
        (Lin::Num(_), Lin::Num(_)) => {},
        (Lin::Num(_), Lin::Add(a2, _, q2)) => {
            lemma_merge_nonzero(a, b, p1, *q2);
            assert(b * a2 != 0) by (nonlinear_arith)
                requires
                    b != 0,
                    a2 != 0,
            ;
        },
        (Lin::Add(a1, _, q1), Lin::Num(_)) => {
            lemma_merge_nonzero(a, b, *q1, p2);
            assert(a * a1 != 0) by (nonlinear_arith)
                requires
                    a != 0,
                    a1 != 0,
            ;
        },
        (Lin::Add(a1, x1, q1), Lin::Add(a2, x2, q2)) => {
            assert(b * a2 != 0) by (nonlinear_arith)
                requires
                    b != 0,
                    a2 != 0,
            ;
            assert(a * a1 != 0) by (nonlinear_arith)
                requires
                    a != 0,
                    a1 != 0,
            ;
            if x1 == x2 {
                lemma_merge_nonzero(a, b, *q1, *q2);
            } else if x2 < x1 {
                lemma_merge_nonzero(a, b, *q1, p2);
            } else {
                lemma_merge_nonzero(a, b, p1, *q2);
            }
        },
    }
}

proof fn lemma_merge_vars(a: int, b: int, p1: Lin, p2: Lin, x: nat)
    ensures
        lin_has(lin_merge(a, b, p1, p2), x) ==> lin_has(p1, x) || lin_has(p2, x),
    decreases p1, p2,
{
    match (p1, p2) {
        (Lin::Num(_), Lin::Num(_)) => {},
        (Lin::Num(_), Lin::Add(_, _, q2)) => lemma_merge_vars(a, b, p1, *q2, x),
        (Lin::Add(_, _, q1), Lin::Num(_)) => lemma_merge_vars(a, b, *q1, p2, x),
        (Lin::Add(_, x1, q1), Lin::Add(_, x2, q2)) => {
            if x1 == x2 {
                lemma_merge_vars(a, b, *q1, *q2, x);
            } else if x2 < x1 {
                lemma_merge_vars(a, b, *q1, p2, x);
            } else {
                lemma_merge_vars(a, b, p1, *q2, x);
            }
        },
    }
}

/// Merging two spines adds their values, each times its factor. The result is in
/// order where both are, has no zero coefficient where neither has one and the
/// factors are not zero, and has no variable that neither of them has.
pub proof fn law_merge(a: int, b: int, p1: Lin, p2: Lin, rho: spec_fn(nat) -> int)
    ensures
        lin_value(lin_merge(a, b, p1, p2), rho) == a * lin_value(p1, rho) + b * lin_value(p2, rho),
        lin_sorted(p1) && lin_sorted(p2) ==> lin_sorted(lin_merge(a, b, p1, p2)),
        a != 0 && b != 0 && lin_nonzero(p1) && lin_nonzero(p2) ==> lin_nonzero(
            lin_merge(a, b, p1, p2),
        ),
        forall|x: nat| #[trigger]
            lin_has(lin_merge(a, b, p1, p2), x) ==> lin_has(p1, x) || lin_has(p2, x),
{
    lemma_merge_value(a, b, p1, p2, rho);
    if lin_sorted(p1) && lin_sorted(p2) {
        lemma_merge_sorted(a, b, p1, p2);
    }
    if a != 0 && b != 0 && lin_nonzero(p1) && lin_nonzero(p2) {
        lemma_merge_nonzero(a, b, p1, p2);
    }
    assert forall|x: nat| #[trigger] lin_has(lin_merge(a, b, p1, p2), x) implies lin_has(p1, x)
        || lin_has(p2, x) by {
        lemma_merge_vars(a, b, p1, p2, x);
    }
}

} // verus!
