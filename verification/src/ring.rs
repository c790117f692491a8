//! Polynomials over a commutative ring, and the expressions that normalise to
//! them.
//!
//! A monomial lists its powers, smaller variable first. A polynomial lists its
//! monomials in decreasing graded reverse lexicographic order and ends in a
//! constant.

use crate::ints::{bounded_pow, int_pow, small_exponent, POWER_BITS};
use crate::num::{Integer, Natural};
use vstd::arithmetic::power::pow;
use vstd::arithmetic::power2::pow2;
use vstd::prelude::*;

verus! {

/// The outcome of a comparison.
#[derive(Clone, Copy, Debug, PartialEq, Eq, Structural)]
pub enum Rank {
    Less,
    Same,
    Greater,
}

/// A variable raised to a power.
#[derive(Debug, PartialEq, Eq)]
pub struct CrPower {
    pub x: Natural,
    pub k: Natural,
}

/// A closed monomial.
#[derive(Debug, PartialEq, Eq)]
pub enum CrMon {
    Unit,
    Mult(CrPower, Box<CrMon>),
}

/// The mathematical reading of a [`CrMon`]: variables with their exponents.
pub enum Mon {
    Unit,
    Mult(nat, nat, Box<Mon>),
}

impl View for CrMon {
    type V = Mon;

    open spec fn view(&self) -> Mon
        decreases self,
    {
        match self {
            CrMon::Unit => Mon::Unit,
            CrMon::Mult(pw, m) => Mon::Mult(pw.x@, pw.k@, Box::new((**m).view())),
        }
    }
}

impl DeepView for CrMon {
    type V = Mon;

    open spec fn deep_view(&self) -> Mon {
        self@
    }
}

/// The first of two comparisons that tells its sides apart.
pub open spec fn rank_or(a: Rank, b: Rank) -> Rank {
    if a == Rank::Same {
        b
    } else {
        a
    }
}

/// The order of two naturals.
pub open spec fn nat_rank(a: nat, b: nat) -> Rank {
    if a < b {
        Rank::Less
    } else if b < a {
        Rank::Greater
    } else {
        Rank::Same
    }
}

/// The sum of the exponents.
pub open spec fn mon_degree(m: Mon) -> nat
    decreases m,
{
    match m {
        Mon::Unit => 0,
        Mon::Mult(_, k, q) => k + mon_degree(*q),
    }
}

/// The reverse lexicographic order of two monomials.
pub open spec fn mon_revlex(m1: Mon, m2: Mon) -> Rank
    decreases m1, m2,
{
    match (m1, m2) {
        (Mon::Unit, Mon::Unit) => Rank::Same,
        (Mon::Unit, Mon::Mult(_, _, _)) => Rank::Greater,
        (Mon::Mult(_, _, _), Mon::Unit) => Rank::Less,
        (Mon::Mult(x1, k1, q1), Mon::Mult(x2, k2, q2)) => if x1 == x2 {
            rank_or(mon_revlex(*q1, *q2), nat_rank(k2, k1))
        } else if x1 < x2 {
            rank_or(mon_revlex(*q1, m2), Rank::Less)
        } else {
            rank_or(mon_revlex(m1, *q2), Rank::Greater)
        },
    }
}

/// The graded reverse lexicographic order of two monomials.
pub open spec fn mon_grevlex(m1: Mon, m2: Mon) -> Rank {
    rank_or(nat_rank(mon_degree(m1), mon_degree(m2)), mon_revlex(m1, m2))
}

/// The powers of the first monomial in front of those of the second.
pub open spec fn mon_concat(m1: Mon, m2: Mon) -> Mon
    decreases m1,
{
    match m1 {
        Mon::Unit => m2,
        Mon::Mult(x, k, q) => Mon::Mult(x, k, Box::new(mon_concat(*q, m2))),
    }
}

/// The product of two monomials.
pub open spec fn mon_mul(m1: Mon, m2: Mon) -> Mon
    decreases m1, m2,
{
    match (m1, m2) {
        (_, Mon::Unit) => m1,
        (Mon::Unit, _) => m2,
        (Mon::Mult(x1, k1, q1), Mon::Mult(x2, k2, q2)) => if x1 < x2 {
            Mon::Mult(x1, k1, Box::new(mon_mul(*q1, m2)))
        } else if x2 < x1 {
            Mon::Mult(x2, k2, Box::new(mon_mul(m1, *q2)))
        } else {
            Mon::Mult(x1, k1 + k2, Box::new(mon_mul(*q1, *q2)))
        },
    }
}

/// The value of a monomial where the variables have the given values.
pub open spec fn mon_value(m: Mon, rho: spec_fn(nat) -> int) -> int
    decreases m,
{
    match m {
        Mon::Unit => 1,
        Mon::Mult(x, k, q) => pow(rho(x), k) * mon_value(*q, rho),
    }
}

impl Clone for CrPower {
    fn clone(&self) -> (r: Self)
        ensures
            r.x@ == self.x@,
            r.k@ == self.k@,
    {
        CrPower { x: self.x.clone(), k: self.k.clone() }
    }
}

impl Clone for CrMon {
    fn clone(&self) -> (r: Self)
        ensures
            r@ == self@,
        decreases self,
    {
        match self {
            CrMon::Unit => CrMon::Unit,
            CrMon::Mult(pw, m) => CrMon::Mult(pw.clone(), Box::new((&**m).clone())),
        }
    }
}

fn rank_naturals(a: &Natural, b: &Natural) -> (r: Rank)
    ensures
        r == nat_rank(a@, b@),
{
    if a.less(b) {
        Rank::Less
    } else if b.less(a) {
        Rank::Greater
    } else {
        Rank::Same
    }
}

fn first_rank(a: Rank, b: Rank) -> (r: Rank)
    ensures
        r == rank_or(a, b),
{
    if a == Rank::Same {
        b
    } else {
        a
    }
}

impl CrMon {
    /// A variable as a monomial.
    pub fn of_var(x: Natural) -> (r: Self)
        ensures
            r@ == Mon::Mult(x@, 1, Box::new(Mon::Unit)),
    {
        Self::of_pow(x, Natural::from_u64(1))
    }

    /// A power of a variable as a monomial.
    pub fn of_pow(x: Natural, k: Natural) -> (r: Self)
        ensures
            r@ == Mon::Mult(x@, k@, Box::new(Mon::Unit)),
    {
        let unit = CrMon::Unit;
        assert(unit@ == Mon::Unit);
        CrMon::Mult(CrPower { x, k }, Box::new(unit))
    }

    /// The sum of the exponents.
    pub fn degree(&self) -> (r: Natural)
        ensures
            r@ == mon_degree(self@),
        decreases self,
    {
        match self {
            CrMon::Unit => Natural::zero(),
            CrMon::Mult(pw, m) => pw.k.plus(&m.degree()),
        }
    }

    /// Whether the first power's variable is the smaller one.
    pub fn var_lt(a: &CrPower, b: &CrPower) -> (r: bool)
        ensures
            r == (a.x@ < b.x@),
    {
        a.x.less(&b.x)
    }

    /// The order of two exponents, reversed.
    pub fn power_revlex(k1: &Natural, k2: &Natural) -> (r: Rank)
        ensures
            r == nat_rank(k2@, k1@),
    {
        rank_naturals(k2, k1)
    }

    /// The reverse lexicographic order.
    pub fn revlex(&self, other: &Self) -> (r: Rank)
        ensures
            r == mon_revlex(self@, other@),
        decreases self, other,
    {
        match self {
            CrMon::Unit => match other {
                CrMon::Unit => Rank::Same,
                CrMon::Mult(_, _) => Rank::Greater,
            },
            CrMon::Mult(pw1, m1) => match other {
                CrMon::Unit => Rank::Less,
                CrMon::Mult(pw2, m2) => {
                    if pw1.x.same(&pw2.x) {
                        first_rank(m1.revlex(m2), Self::power_revlex(&pw1.k, &pw2.k))
                    } else if pw1.x.less(&pw2.x) {
                        first_rank(m1.revlex(other), Rank::Less)
                    } else {
                        first_rank(self.revlex(m2), Rank::Greater)
                    }
                },
            },
        }
    }

    /// The graded reverse lexicographic order.
    pub fn grevlex(&self, other: &Self) -> (r: Rank)
        ensures
            r == mon_grevlex(self@, other@),
    {
        first_rank(rank_naturals(&self.degree(), &other.degree()), self.revlex(other))
    }

    /// The powers of this monomial in front of those of the other.
    pub fn concat(&self, other: &Self) -> (r: Self)
        ensures
            r@ == mon_concat(self@, other@),
        decreases self,
    {
        match self {
            CrMon::Unit => other.clone(),
            CrMon::Mult(pw, m) => CrMon::Mult(pw.clone(), Box::new(m.concat(other))),
        }
    }

    /// The product.
    pub fn mul(&self, other: &Self) -> (r: Self)
        ensures
            r@ == mon_mul(self@, other@),
        decreases self, other,
    {
        match other {
            CrMon::Unit => self.clone(),
            CrMon::Mult(pw2, m2) => match self {
                CrMon::Unit => other.clone(),
                CrMon::Mult(pw1, m1) => {
                    if Self::var_lt(pw1, pw2) {
                        CrMon::Mult(pw1.clone(), Box::new(m1.mul(other)))
                    } else if Self::var_lt(pw2, pw1) {
                        CrMon::Mult(pw2.clone(), Box::new(self.mul(m2)))
                    } else {
                        CrMon::Mult(
                            CrPower { x: pw1.x.clone(), k: pw1.k.plus(&pw2.k) },
                            Box::new(m1.mul(m2)),
                        )
                    }
                },
            },
        }
    }

    /// Whether the two monomials are the same.
    pub fn beq(&self, other: &Self) -> (r: bool)
        ensures
            r == (self@ == other@),
        decreases self,
    {
        match self {
            CrMon::Unit => match other {
                CrMon::Unit => true,
                CrMon::Mult(_, _) => false,
            },
            CrMon::Mult(p1, m1) => match other {
                CrMon::Unit => false,
                CrMon::Mult(p2, m2) => p1.x.same(&p2.x) && p1.k.same(&p2.k) && m1.beq(m2),
            },
        }
    }
}

/// A closed polynomial.
#[derive(Debug, PartialEq, Eq)]
pub enum CrPoly {
    Num(Integer),
    Add(Integer, CrMon, Box<CrPoly>),
}

/// The mathematical reading of a [`CrPoly`].
pub enum Poly {
    Num(int),
    Add(int, Mon, Box<Poly>),
}

impl View for CrPoly {
    type V = Poly;

    open spec fn view(&self) -> Poly
        decreases self,
    {
        match self {
            CrPoly::Num(k) => Poly::Num(k@),
            CrPoly::Add(k, m, p) => Poly::Add(k@, m@, Box::new((**p).view())),
        }
    }
}

impl DeepView for CrPoly {
    type V = Poly;

    open spec fn deep_view(&self) -> Poly {
        self@
    }
}

/// The value of a polynomial where the variables have the given values.
pub open spec fn poly_value(p: Poly, rho: spec_fn(nat) -> int) -> int
    decreases p,
{
    match p {
        Poly::Num(k) => k,
        Poly::Add(k, m, q) => k * mon_value(m, rho) + poly_value(*q, rho),
    }
}

/// A monomial as a polynomial.
pub open spec fn poly_of_mon(m: Mon) -> Poly {
    Poly::Add(1, m, Box::new(Poly::Num(0)))
}

/// The polynomial with its constant raised.
pub open spec fn poly_add_const(p: Poly, k: int) -> Poly
    decreases p,
{
    if k == 0 {
        p
    } else {
        match p {
            Poly::Num(c) => Poly::Num(c + k),
            Poly::Add(a, m, q) => Poly::Add(a, m, Box::new(poly_add_const(*q, k))),
        }
    }
}

/// The product with a number.
pub open spec fn poly_mul_const(p: Poly, k: int) -> Poly
    decreases p,
{
    if k == 0 {
        Poly::Num(0)
    } else if k == 1 {
        p
    } else {
        match p {
            Poly::Num(c) => Poly::Num(k * c),
            Poly::Add(a, m, q) => Poly::Add(k * a, m, Box::new(poly_mul_const(*q, k))),
        }
    }
}

/// The polynomial with the term `k * m` put in its place among the monomials.
pub open spec fn poly_insert_go(p: Poly, k: int, m: Mon) -> Poly
    decreases p,
{
    match p {
        Poly::Num(_) => Poly::Add(k, m, Box::new(p)),
        Poly::Add(k2, m2, q) => match mon_grevlex(m, m2) {
            Rank::Same => if k + k2 == 0 {
                *q
            } else {
                Poly::Add(k + k2, m, q)
            },
            Rank::Greater => Poly::Add(k, m, Box::new(p)),
            Rank::Less => Poly::Add(k2, m2, Box::new(poly_insert_go(*q, k, m))),
        },
    }
}

/// The polynomial plus the term `k * m`.
pub open spec fn poly_insert(p: Poly, k: int, m: Mon) -> Poly {
    if k == 0 {
        p
    } else if m == Mon::Unit {
        poly_add_const(p, k)
    } else {
        poly_insert_go(p, k, m)
    }
}

/// The terms of the first polynomial in front of those of the second.
pub open spec fn poly_concat(p1: Poly, p2: Poly) -> Poly
    decreases p1,
{
    match p1 {
        Poly::Num(k) => poly_add_const(p2, k),
        Poly::Add(k, m, q) => Poly::Add(k, m, Box::new(poly_concat(*q, p2))),
    }
}

/// The sum of two polynomials, merged by monomial.
pub open spec fn poly_combine(p1: Poly, p2: Poly) -> Poly
    decreases p1, p2,
{
    match (p1, p2) {
        (Poly::Num(k1), Poly::Num(k2)) => Poly::Num(k1 + k2),
        (Poly::Num(k1), Poly::Add(_, _, _)) => poly_add_const(p2, k1),
        (Poly::Add(_, _, _), Poly::Num(k2)) => poly_add_const(p1, k2),
        (Poly::Add(k1, m1, r1), Poly::Add(k2, m2, r2)) => match mon_grevlex(m1, m2) {
            Rank::Same => if k1 + k2 == 0 {
                poly_combine(*r1, *r2)
            } else {
                Poly::Add(k1 + k2, m1, Box::new(poly_combine(*r1, *r2)))
            },
            Rank::Greater => Poly::Add(k1, m1, Box::new(poly_combine(*r1, p2))),
            Rank::Less => Poly::Add(k2, m2, Box::new(poly_combine(p1, *r2))),
        },
    }
}

/// The product with the term `k * m`.
pub open spec fn poly_mul_mon(p: Poly, k: int, m: Mon) -> Poly
    decreases p,
{
    if k == 0 {
        Poly::Num(0)
    } else if m == Mon::Unit {
        poly_mul_const(p, k)
    } else {
        match p {
            Poly::Num(c) => if c == 0 {
                Poly::Num(0)
            } else {
                Poly::Add(k * c, m, Box::new(Poly::Num(0)))
            },
            Poly::Add(c, m2, q) => Poly::Add(
                k * c,
                mon_mul(m, m2),
                Box::new(poly_mul_mon(*q, k, m)),
            ),
        }
    }
}

/// `acc` plus the product of two polynomials.
pub open spec fn poly_mul_go(p: Poly, other: Poly, acc: Poly) -> Poly
    decreases p,
{
    match p {
        Poly::Num(k) => poly_combine(acc, poly_mul_const(other, k)),
        Poly::Add(k, m, q) => poly_mul_go(
            *q,
            other,
            poly_combine(acc, poly_mul_mon(other, k, m)),
        ),
    }
}

/// The product of two polynomials.
pub open spec fn poly_mul(p: Poly, other: Poly) -> Poly {
    poly_mul_go(p, other, Poly::Num(0))
}

/// The power of a polynomial with a positive exponent, by repeated products.
pub open spec fn poly_pow_go(p: Poly, k: nat) -> Poly
    decreases k,
{
    if k == 0 {
        Poly::Num(1)
    } else if k == 1 {
        p
    } else {
        poly_mul(p, poly_pow_go(p, (k - 1) as nat))
    }
}

/// The power of a polynomial, or nothing where the exponent is too large.
pub open spec fn poly_pow(p: Poly, k: nat) -> Option<Poly> {
    if k < pow2(POWER_BITS as nat) {
        Some(poly_pow_go(p, k))
    } else {
        None
    }
}

impl Clone for CrPoly {
    fn clone(&self) -> (r: Self)
        ensures
            r@ == self@,
        decreases self,
    {
        match self {
            CrPoly::Num(k) => CrPoly::Num(k.clone()),
            CrPoly::Add(k, m, p) => CrPoly::Add(k.clone(), m.clone(), Box::new((&**p).clone())),
        }
    }
}

impl CrPoly {
    /// A number as a polynomial.
    pub fn of_num(k: Integer) -> (r: Self)
        ensures
            r@ == Poly::Num(k@),
    {
        CrPoly::Num(k)
    }

    /// A monomial as a polynomial.
    pub fn of_mon(m: CrMon) -> (r: Self)
        ensures
            r@ == poly_of_mon(m@),
    {
        CrPoly::Add(Integer::from_i64(1), m, Box::new(Self::of_num(Integer::from_i64(0))))
    }

    /// A variable as a polynomial.
    pub fn of_var(x: Natural) -> (r: Self)
        ensures
            r@ == poly_of_mon(Mon::Mult(x@, 1, Box::new(Mon::Unit))),
    {
        Self::of_mon(CrMon::of_var(x))
    }

    /// The polynomial with its constant raised.
    pub fn add_const(&self, k: &Integer) -> (r: Self)
        ensures
            r@ == poly_add_const(self@, k@),
        decreases self,
    {
        if k.is_zero() {
            return self.clone();
        }
        match self {
            CrPoly::Num(c) => CrPoly::Num(c.plus(k)),
            CrPoly::Add(a, m, p) => CrPoly::Add(a.clone(), m.clone(), Box::new(p.add_const(k))),
        }
    }

    /// The product with a number.
    pub fn mul_const(&self, k: &Integer) -> (r: Self)
        ensures
            r@ == poly_mul_const(self@, k@),
        decreases self,
    {
        if k.is_zero() {
            return CrPoly::Num(Integer::from_i64(0));
        }
        if k.same(&Integer::from_i64(1)) {
            return self.clone();
        }
        match self {
            CrPoly::Num(c) => CrPoly::Num(k.times(c)),
            CrPoly::Add(a, m, p) => CrPoly::Add(k.times(a), m.clone(), Box::new(p.mul_const(k))),
        }
    }

    /// The polynomial plus the term `k * m`.
    pub fn insert(&self, k: &Integer, m: &CrMon) -> (r: Self)
        ensures
            r@ == poly_insert(self@, k@, m@),
    {
        if k.is_zero() {
            return self.clone();
        }
        match m {
            CrMon::Unit => self.add_const(k),
            CrMon::Mult(_, _) => self.insert_go(k, m),
        }
    }

    /// The polynomial with the term `k * m` put in its place.
    pub fn insert_go(&self, k: &Integer, m: &CrMon) -> (r: Self)
        ensures
            r@ == poly_insert_go(self@, k@, m@),
        decreases self,
    {
        match self {
            CrPoly::Num(_) => CrPoly::Add(k.clone(), m.clone(), Box::new(self.clone())),
            CrPoly::Add(k2, m2, p) => match m.grevlex(m2) {
                Rank::Same => {
                    let s = k.plus(k2);
                    if s.is_zero() {
                        (&**p).clone()
                    } else {
                        CrPoly::Add(s, m.clone(), Box::new((&**p).clone()))
                    }
                },
                Rank::Greater => CrPoly::Add(k.clone(), m.clone(), Box::new(self.clone())),
                Rank::Less => CrPoly::Add(k2.clone(), m2.clone(), Box::new(p.insert_go(k, m))),
            },
        }
    }

    /// The terms of this polynomial in front of those of the other.
    pub fn concat(&self, other: &Self) -> (r: Self)
        ensures
            r@ == poly_concat(self@, other@),
        decreases self,
    {
        match self {
            CrPoly::Num(k) => other.add_const(k),
            CrPoly::Add(k, m, p) => CrPoly::Add(k.clone(), m.clone(), Box::new(p.concat(other))),
        }
    }

    /// The sum, merged by monomial.
    pub fn combine(p1: &Self, p2: &Self) -> (r: Self)
        ensures
            r@ == poly_combine(p1@, p2@),
        decreases p1, p2,
    {
        match p1 {
            CrPoly::Num(k1) => match p2 {
                CrPoly::Num(k2) => CrPoly::Num(k1.plus(k2)),
                CrPoly::Add(_, _, _) => p2.add_const(k1),
            },
            CrPoly::Add(k1, m1, r1) => match p2 {
                CrPoly::Num(k2) => p1.add_const(k2),
                CrPoly::Add(k2, m2, r2) => match m1.grevlex(m2) {
                    Rank::Same => {
                        let k = k1.plus(k2);
                        let rest = Self::combine(r1, r2);
                        if k.is_zero() {
                            rest
                        } else {
                            CrPoly::Add(k, m1.clone(), Box::new(rest))
                        }
                    },
                    Rank::Greater => CrPoly::Add(
                        k1.clone(),
                        m1.clone(),
                        Box::new(Self::combine(r1, p2)),
                    ),
                    Rank::Less => CrPoly::Add(
                        k2.clone(),
                        m2.clone(),
                        Box::new(Self::combine(p1, r2)),
                    ),
                },
            },
        }
    }

    /// The product with the term `k * m`.
    pub fn mul_mon(&self, k: &Integer, m: &CrMon) -> (r: Self)
        ensures
            r@ == poly_mul_mon(self@, k@, m@),
        decreases self,
    {
        if k.is_zero() {
            return CrPoly::Num(Integer::from_i64(0));
        }
        match m {
            CrMon::Unit => self.mul_const(k),
            CrMon::Mult(_, _) => match self {
                CrPoly::Num(c) => {
                    let zero = Self::of_num(Integer::from_i64(0));
                    if c.is_zero() {
                        zero
                    } else {
                        CrPoly::Add(k.times(c), m.clone(), Box::new(zero))
                    }
                },
                CrPoly::Add(c, m2, p) => CrPoly::Add(
                    k.times(c),
                    m.mul(m2),
                    Box::new(p.mul_mon(k, m)),
                ),
            },
        }
    }

    /// The product.
    pub fn mul(&self, other: &Self) -> (r: Self)
        ensures
            r@ == poly_mul(self@, other@),
    {
        self.mul_go(other, &Self::of_num(Integer::from_i64(0)))
    }

    /// `acc` plus the product.
    pub fn mul_go(&self, other: &Self, acc: &Self) -> (r: Self)
        ensures
            r@ == poly_mul_go(self@, other@, acc@),
        decreases self,
    {
        match self {
            CrPoly::Num(k) => Self::combine(acc, &other.mul_const(k)),
            CrPoly::Add(k, m, p) => p.mul_go(other, &Self::combine(acc, &other.mul_mon(k, m))),
        }
    }

    fn pow_go(&self, k: u32) -> (r: Self)
        ensures
            r@ == poly_pow_go(self@, k as nat),
    {
        if k == 0 {
            return Self::of_num(Integer::from_i64(1));
        }
        let mut acc = self.clone();
        let mut done: u32 = 1;
        while done < k
            invariant
                1 <= done <= k,
                acc@ == poly_pow_go(self@, done as nat),
            decreases k - done,
        {
            acc = self.mul(&acc);
            done = done + 1;
        }
        acc
    }

    /// The power, or nothing where the exponent is too large.
    pub fn pow(&self, k: &Natural) -> (r: Option<Self>)
        ensures
            r.deep_view() == poly_pow(self@, k@),
    {
        match small_exponent(k) {
            None => None,
            Some(e) => Some(self.pow_go(e)),
        }
    }

    /// Whether the two polynomials are the same.
    pub fn beq(&self, other: &Self) -> (r: bool)
        ensures
            r == (self@ == other@),
        decreases self,
    {
        match self {
            CrPoly::Num(a) => match other {
                CrPoly::Num(b) => a.same(b),
                CrPoly::Add(_, _, _) => false,
            },
            CrPoly::Add(k1, m1, p1) => match other {
                CrPoly::Num(_) => false,
                CrPoly::Add(k2, m2, p2) => k1.same(k2) && m1.beq(m2) && p1.beq(p2),
            },
        }
    }
}

/// A closed ring expression.
#[derive(Debug)]
pub enum CrExpr {
    Num(Integer),
    NatCast(Natural),
    IntCast(Integer),
    Var(Natural),
    Neg(Box<CrExpr>),
    Add(Box<CrExpr>, Box<CrExpr>),
    Sub(Box<CrExpr>, Box<CrExpr>),
    Mul(Box<CrExpr>, Box<CrExpr>),
    Pow(Box<CrExpr>, Natural),
}

/// The mathematical reading of a [`CrExpr`].
pub enum RingExp {
    Num(int),
    NatCast(nat),
    IntCast(int),
    Var(nat),
    Neg(Box<RingExp>),
    Add(Box<RingExp>, Box<RingExp>),
    Sub(Box<RingExp>, Box<RingExp>),
    Mul(Box<RingExp>, Box<RingExp>),
    Pow(Box<RingExp>, nat),
}

impl View for CrExpr {
    type V = RingExp;

    open spec fn view(&self) -> RingExp
        decreases self,
    {
        match self {
            CrExpr::Num(k) => RingExp::Num(k@),
            CrExpr::NatCast(k) => RingExp::NatCast(k@),
            CrExpr::IntCast(k) => RingExp::IntCast(k@),
            CrExpr::Var(x) => RingExp::Var(x@),
            CrExpr::Neg(a) => RingExp::Neg(Box::new((**a).view())),
            CrExpr::Add(a, b) => RingExp::Add(Box::new((**a).view()), Box::new((**b).view())),
            CrExpr::Sub(a, b) => RingExp::Sub(Box::new((**a).view()), Box::new((**b).view())),
            CrExpr::Mul(a, b) => RingExp::Mul(Box::new((**a).view()), Box::new((**b).view())),
            CrExpr::Pow(a, k) => RingExp::Pow(Box::new((**a).view()), k@),
        }
    }
}

impl DeepView for CrExpr {
    type V = RingExp;

    open spec fn deep_view(&self) -> RingExp {
        self@
    }
}

/// The value of an expression where the variables have the given values.
pub open spec fn ringexp_value(e: RingExp, rho: spec_fn(nat) -> int) -> int
    decreases e,
{
    match e {
        RingExp::Num(k) => k,
        RingExp::NatCast(k) => k as int,
        RingExp::IntCast(k) => k,
        RingExp::Var(x) => rho(x),
        RingExp::Neg(a) => -ringexp_value(*a, rho),
        RingExp::Add(a, b) => ringexp_value(*a, rho) + ringexp_value(*b, rho),
        RingExp::Sub(a, b) => ringexp_value(*a, rho) - ringexp_value(*b, rho),
        RingExp::Mul(a, b) => ringexp_value(*a, rho) * ringexp_value(*b, rho),
        RingExp::Pow(a, k) => pow(ringexp_value(*a, rho), k),
    }
}

/// A computed power as a constant polynomial.
pub open spec fn const_power(base: int, exp: nat) -> Option<Poly> {
    match bounded_pow(base, exp) {
        Some(v) => Some(Poly::Num(v)),
        None => None,
    }
}

/// The normal form of an expression, or nothing where an exponent is too large.
pub open spec fn ringexp_to_poly(e: RingExp) -> Option<Poly>
    decreases e,
{
    match e {
        RingExp::Num(k) => Some(Poly::Num(k)),
        RingExp::IntCast(k) => Some(Poly::Num(k)),
        RingExp::NatCast(k) => Some(Poly::Num(k as int)),
        RingExp::Var(x) => Some(poly_of_mon(Mon::Mult(x, 1, Box::new(Mon::Unit)))),
        RingExp::Add(a, b) => match (ringexp_to_poly(*a), ringexp_to_poly(*b)) {
            (Some(pa), Some(pb)) => Some(poly_combine(pa, pb)),
            _ => None,
        },
        RingExp::Mul(a, b) => match (ringexp_to_poly(*a), ringexp_to_poly(*b)) {
            (Some(pa), Some(pb)) => Some(poly_mul(pa, pb)),
            _ => None,
        },
        RingExp::Neg(a) => match ringexp_to_poly(*a) {
            Some(pa) => Some(poly_mul_const(pa, -1)),
            None => None,
        },
        RingExp::Sub(a, b) => match (ringexp_to_poly(*a), ringexp_to_poly(*b)) {
            (Some(pa), Some(pb)) => Some(poly_combine(pa, poly_mul_const(pb, -1))),
            _ => None,
        },
        RingExp::Pow(a, k) => if k == 0 {
            Some(Poly::Num(1))
        } else {
            match *a {
                RingExp::Num(n) => const_power(n, k),
                RingExp::IntCast(n) => const_power(n, k),
                RingExp::NatCast(n) => const_power(n as int, k),
                RingExp::Var(x) => Some(poly_of_mon(Mon::Mult(x, k, Box::new(Mon::Unit)))),
                _ => match ringexp_to_poly(*a) {
                    Some(p) => poly_pow(p, k),
                    None => None,
                },
            }
        },
    }
}

fn power_poly(base: &Integer, exp: &Natural) -> (r: Option<CrPoly>)
    ensures
        r.deep_view() == const_power(base@, exp@),
{
    match int_pow(base, exp) {
        Some(v) => Some(CrPoly::Num(v)),
        None => None,
    }
}

impl CrExpr {
    /// The normal form, or nothing where an exponent is too large.
    pub fn to_poly(&self) -> (r: Option<CrPoly>)
        ensures
            r.deep_view() == ringexp_to_poly(self@),
        decreases self,
    {
        match self {
            CrExpr::Num(k) => Some(CrPoly::Num(k.clone())),
            CrExpr::IntCast(k) => Some(CrPoly::Num(k.clone())),
            CrExpr::NatCast(k) => Some(CrPoly::Num(Integer::from_natural(k))),
            CrExpr::Var(x) => Some(CrPoly::of_var(x.clone())),
            CrExpr::Add(a, b) => {
                let pa = a.to_poly()?;
                let pb = b.to_poly()?;
                Some(CrPoly::combine(&pa, &pb))
            },
            CrExpr::Mul(a, b) => {
                let pa = a.to_poly()?;
                let pb = b.to_poly()?;
                Some(pa.mul(&pb))
            },
            CrExpr::Neg(a) => {
                let pa = a.to_poly()?;
                Some(pa.mul_const(&Integer::from_i64(-1)))
            },
            CrExpr::Sub(a, b) => {
                let pa = a.to_poly()?;
                let pb = b.to_poly()?;
                Some(CrPoly::combine(&pa, &pb.mul_const(&Integer::from_i64(-1))))
            },
            CrExpr::Pow(a, k) => {
                if k.is_zero() {
                    return Some(CrPoly::Num(Integer::from_i64(1)));
                }
                match &**a {
                    CrExpr::Num(n) => power_poly(n, k),
                    CrExpr::IntCast(n) => power_poly(n, k),
                    CrExpr::NatCast(n) => power_poly(&Integer::from_natural(n), k),
                    CrExpr::Var(x) => Some(CrPoly::of_mon(CrMon::of_pow(x.clone(), k.clone()))),
                    _ => {
                        let p = a.to_poly()?;
                        p.pow(k)
                    },
                }
            },
        }
    }
}

/// Monomials that compare the same are the same.
pub proof fn law_grevlex_same(m1: Mon, m2: Mon)
    ensures
        mon_grevlex(m1, m2) == Rank::Same <==> m1 == m2,
{
    lemma_revlex_same(m1, m2);
}

pub(crate) proof fn lemma_revlex_same(m1: Mon, m2: Mon)
    ensures
        mon_revlex(m1, m2) == Rank::Same <==> m1 == m2,
    decreases m1, m2,
{
    match (m1, m2) {
        (Mon::Mult(x1, k1, q1), Mon::Mult(x2, k2, q2)) => {
            if x1 == x2 {
                lemma_revlex_same(*q1, *q2);
            }
        },
        _ => {},
    }
}

/// The value of a product of monomials is the product of their values.
pub proof fn law_mon_mul_value(m1: Mon, m2: Mon, rho: spec_fn(nat) -> int)
    ensures
        mon_value(mon_mul(m1, m2), rho) == mon_value(m1, rho) * mon_value(m2, rho),
    decreases m1, m2,
{
    match (m1, m2) {
        (Mon::Mult(x1, k1, q1), Mon::Mult(x2, k2, q2)) => {
            let a = pow(rho(x1), k1);
            let b = pow(rho(x2), k2);
            let y1 = mon_value(*q1, rho);
            let y2 = mon_value(*q2, rho);
            if x1 < x2 {
                law_mon_mul_value(*q1, m2, rho);
                assert(a * (y1 * (b * y2)) == (a * y1) * (b * y2)) by (nonlinear_arith);
            } else if x2 < x1 {
                law_mon_mul_value(m1, *q2, rho);
                assert(b * ((a * y1) * y2) == (a * y1) * (b * y2)) by (nonlinear_arith);
            } else {
                law_mon_mul_value(*q1, *q2, rho);
                vstd::arithmetic::power::lemma_pow_adds(rho(x1), k1, k2);
                assert((a * b) * (y1 * y2) == (a * y1) * (b * y2)) by (nonlinear_arith);
            }
        },
        _ => {},
    }
}

/// Raising the constant raises the value.
pub proof fn law_poly_add_const_value(p: Poly, k: int, rho: spec_fn(nat) -> int)
    ensures
        poly_value(poly_add_const(p, k), rho) == poly_value(p, rho) + k,
    decreases p,
{
    if k != 0 {
        match p {
            Poly::Num(_) => {},
            Poly::Add(_, _, q) => law_poly_add_const_value(*q, k, rho),
        }
    }
}

/// The product with a number multiplies the value.
pub proof fn law_poly_mul_const_value(p: Poly, k: int, rho: spec_fn(nat) -> int)
    ensures
        poly_value(poly_mul_const(p, k), rho) == k * poly_value(p, rho),
    decreases p,
{
    if k == 0 {
        assert(k * poly_value(p, rho) == 0) by (nonlinear_arith)
            requires
                k == 0,
        ;
    } else if k != 1 {
        match p {
            Poly::Num(_) => {},
            Poly::Add(a, m, q) => {
                law_poly_mul_const_value(*q, k, rho);
                let x = mon_value(m, rho);
                let y = poly_value(*q, rho);
                assert((k * a) * x + k * y == k * (a * x + y)) by (nonlinear_arith);
            },
        }
    }
}

/// Inserting a term adds it to the value.
pub proof fn law_poly_insert_value(p: Poly, k: int, m: Mon, rho: spec_fn(nat) -> int)
    ensures
        poly_value(poly_insert(p, k, m), rho) == k * mon_value(m, rho) + poly_value(p, rho),
{
    law_poly_add_const_value(p, k, rho);
    lemma_insert_go_value(p, k, m, rho);
    if k == 0 {
        assert(k * mon_value(m, rho) == 0) by (nonlinear_arith)
            requires
                k == 0,
        ;
    }
}

proof fn lemma_insert_go_value(p: Poly, k: int, m: Mon, rho: spec_fn(nat) -> int)
    ensures
        poly_value(poly_insert_go(p, k, m), rho) == k * mon_value(m, rho) + poly_value(p, rho),
    decreases p,
{
    match p {
        Poly::Num(_) => {},
        Poly::Add(k2, m2, q) => {
            law_grevlex_same(m, m2);
            lemma_insert_go_value(*q, k, m, rho);
            let x = mon_value(m, rho);
            assert((k + k2) * x == k * x + k2 * x) by (nonlinear_arith);
            if k + k2 == 0 {
                assert((k + k2) * x == 0) by (nonlinear_arith)
                    requires
                        k + k2 == 0,
                ;
            }
        },
    }
}

/// Concatenating polynomials adds their values.
pub proof fn law_poly_concat_value(p1: Poly, p2: Poly, rho: spec_fn(nat) -> int)
    ensures
        poly_value(poly_concat(p1, p2), rho) == poly_value(p1, rho) + poly_value(p2, rho),
    decreases p1,
{
    match p1 {
        Poly::Num(k) => law_poly_add_const_value(p2, k, rho),
        Poly::Add(_, _, q) => law_poly_concat_value(*q, p2, rho),
    }
}

/// Merging polynomials adds their values.
pub proof fn law_poly_combine_value(p1: Poly, p2: Poly, rho: spec_fn(nat) -> int)
    ensures
        poly_value(poly_combine(p1, p2), rho) == poly_value(p1, rho) + poly_value(p2, rho),
    decreases p1, p2,
{
    match (p1, p2) {
        (Poly::Num(_), Poly::Num(_)) => {},
        (Poly::Num(k1), Poly::Add(_, _, _)) => law_poly_add_const_value(p2, k1, rho),
        (Poly::Add(_, _, _), Poly::Num(k2)) => law_poly_add_const_value(p1, k2, rho),
        (Poly::Add(k1, m1, r1), Poly::Add(k2, m2, r2)) => {
            law_grevlex_same(m1, m2);
            let x = mon_value(m1, rho);
            match mon_grevlex(m1, m2) {
                Rank::Same => {
                    law_poly_combine_value(*r1, *r2, rho);
                    assert((k1 + k2) * x == k1 * x + k2 * x) by (nonlinear_arith);
                    if k1 + k2 == 0 {
                        assert((k1 + k2) * x == 0) by (nonlinear_arith)
                            requires
                                k1 + k2 == 0,
                        ;
                    }
                },
                Rank::Greater => law_poly_combine_value(*r1, p2, rho),
                Rank::Less => law_poly_combine_value(p1, *r2, rho),
            }
        },
    }
}

proof fn lemma_mul_mon_value(p: Poly, k: int, m: Mon, rho: spec_fn(nat) -> int)
    ensures
        poly_value(poly_mul_mon(p, k, m), rho) == (k * mon_value(m, rho)) * poly_value(p, rho),
    decreases p,
{
    let x = mon_value(m, rho);
    let v = poly_value(p, rho);
    if k == 0 {
        assert((k * x) * v == 0) by (nonlinear_arith)
            requires
                k == 0,
        ;
    } else if m == Mon::Unit {
        law_poly_mul_const_value(p, k, rho);
        assert(k * x == k) by (nonlinear_arith)
            requires
                x == 1,
        ;
    } else {
        match p {
            Poly::Num(c) => {
                assert(poly_value(Poly::Num(0), rho) == 0);
                assert((k * c) * x == (k * x) * c) by (nonlinear_arith);
                if c == 0 {
                    assert((k * x) * c == 0) by (nonlinear_arith)
                        requires
                            c == 0,
                    ;
                }
            },
            Poly::Add(c, m2, q) => {
                lemma_mul_mon_value(*q, k, m, rho);
                law_mon_mul_value(m, m2, rho);
                let z = mon_value(m2, rho);
                let y = poly_value(*q, rho);
                assert((k * c) * (x * z) + (k * x) * y == (k * x) * (c * z + y))
                    by (nonlinear_arith);
            },
        }
    }
}

proof fn lemma_mul_go_value(p: Poly, other: Poly, acc: Poly, rho: spec_fn(nat) -> int)
    ensures
        poly_value(poly_mul_go(p, other, acc), rho) == poly_value(acc, rho) + poly_value(p, rho)
            * poly_value(other, rho),
    decreases p,
{
    match p {
        Poly::Num(k) => {
            law_poly_mul_const_value(other, k, rho);
            law_poly_combine_value(acc, poly_mul_const(other, k), rho);
        },
        Poly::Add(k, m, q) => {
            let next = poly_combine(acc, poly_mul_mon(other, k, m));
            lemma_mul_mon_value(other, k, m, rho);
            law_poly_combine_value(acc, poly_mul_mon(other, k, m), rho);
            lemma_mul_go_value(*q, other, next, rho);
            let t = k * mon_value(m, rho);
            let y = poly_value(*q, rho);
            let o = poly_value(other, rho);
            assert((t + y) * o == t * o + y * o) by (nonlinear_arith);
        },
    }
}

/// The value of a product is the product of the values.
pub proof fn law_poly_mul_value(p: Poly, other: Poly, rho: spec_fn(nat) -> int)
    ensures
        poly_value(poly_mul(p, other), rho) == poly_value(p, rho) * poly_value(other, rho),
{
    lemma_mul_go_value(p, other, Poly::Num(0), rho);
}

proof fn lemma_pow_go_value(p: Poly, k: nat, rho: spec_fn(nat) -> int)
    ensures
        poly_value(poly_pow_go(p, k), rho) == pow(poly_value(p, rho), k),
    decreases k,
{
    reveal(pow);
    if k == 1 {
        vstd::arithmetic::power::lemma_pow1(poly_value(p, rho));
    } else if k > 1 {
        lemma_pow_go_value(p, (k - 1) as nat, rho);
        law_poly_mul_value(p, poly_pow_go(p, (k - 1) as nat), rho);
    }
}

proof fn lemma_single_power(x: nat, k: nat, rho: spec_fn(nat) -> int)
    ensures
        poly_value(poly_of_mon(Mon::Mult(x, k, Box::new(Mon::Unit))), rho) == pow(rho(x), k),
{
    let m = Mon::Mult(x, k, Box::new(Mon::Unit));
    assert(mon_value(Mon::Unit, rho) == 1);
    assert(mon_value(m, rho) == pow(rho(x), k));
    assert(poly_value(Poly::Num(0), rho) == 0);
}

proof fn lemma_power_value(a: RingExp, k: nat, rho: spec_fn(nat) -> int)
    requires
        k > 0,
        ringexp_to_poly(RingExp::Pow(Box::new(a), k)) is Some,
        ringexp_to_poly(a) matches Some(p) ==> poly_value(p, rho) == ringexp_value(a, rho),
    ensures
        poly_value(ringexp_to_poly(RingExp::Pow(Box::new(a), k))->Some_0, rho) == pow(
            ringexp_value(a, rho),
            k,
        ),
{
    match a {
        RingExp::Num(_) => {},
        RingExp::IntCast(_) => {},
        RingExp::NatCast(_) => {},
        RingExp::Var(x) => lemma_single_power(x, k, rho),
        _ => lemma_pow_go_value(ringexp_to_poly(a)->Some_0, k, rho),
    }
}

/// Where an expression has a normal form, the two have the same value.
pub proof fn law_to_poly_value(e: RingExp, rho: spec_fn(nat) -> int)
    requires
        ringexp_to_poly(e) is Some,
    ensures
        poly_value(ringexp_to_poly(e)->Some_0, rho) == ringexp_value(e, rho),
    decreases e,
{
    match e {
        RingExp::Num(_) => {},
        RingExp::IntCast(_) => {},
        RingExp::NatCast(_) => {},
        RingExp::Var(x) => {
            lemma_single_power(x, 1, rho);
            vstd::arithmetic::power::lemma_pow1(rho(x));
        },
        RingExp::Add(a, b) => {
            law_to_poly_value(*a, rho);
            law_to_poly_value(*b, rho);
            law_poly_combine_value(
                ringexp_to_poly(*a)->Some_0,
                ringexp_to_poly(*b)->Some_0,
                rho,
            );
        },
        RingExp::Mul(a, b) => {
            law_to_poly_value(*a, rho);
            law_to_poly_value(*b, rho);
            law_poly_mul_value(ringexp_to_poly(*a)->Some_0, ringexp_to_poly(*b)->Some_0, rho);
        },
        RingExp::Neg(a) => {
            law_to_poly_value(*a, rho);
            law_poly_mul_const_value(ringexp_to_poly(*a)->Some_0, -1, rho);
        },
        RingExp::Sub(a, b) => {
            law_to_poly_value(*a, rho);
            law_to_poly_value(*b, rho);
            let pb = ringexp_to_poly(*b)->Some_0;
            law_poly_mul_const_value(pb, -1, rho);
            law_poly_combine_value(ringexp_to_poly(*a)->Some_0, poly_mul_const(pb, -1), rho);
        },
        RingExp::Pow(a, k) => {
            if k == 0 {
                vstd::arithmetic::power::lemma_pow0(ringexp_value(*a, rho));
            } else {
                if ringexp_to_poly(*a) is Some {
                    law_to_poly_value(*a, rho);
                }
                lemma_power_value(*a, k, rho);
            }
        },
    }
}

} // verus!
