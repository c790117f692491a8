//! Normal forms of ring expressions: they are ordered, they have no vanishing
//! terms, and they are determined by the values that they take.

use crate::ring::{
    law_grevlex_same, law_poly_combine_value, law_poly_mul_const_value, law_to_poly_value,
    lemma_revlex_same, mon_degree, mon_grevlex, mon_mul, mon_revlex, mon_value, poly_add_const, poly_combine,
    poly_mul_const, poly_mul_go, poly_mul_mon, poly_pow_go, poly_value, ringexp_to_poly,
    ringexp_value, Mon, Poly, Rank, RingExp,
};
use vstd::arithmetic::power::{
    lemma_pow_adds, lemma_pow_increases, lemma_pow_multiplies, lemma_pow_positive, pow,
};
use vstd::prelude::*;

verus! {

/// Whether the variables of a monomial strictly increase from `lo` on, and none
/// of its exponents is zero.
pub open spec fn mon_ordered(m: Mon, lo: nat) -> bool
    decreases m,
{
    match m {
        Mon::Unit => true,
        Mon::Mult(x, k, q) => lo <= x && k > 0 && mon_ordered(*q, x + 1),
    }
}

/// Whether the monomials of a polynomial strictly decrease, each of them ordered
/// and none the empty one, and none of its coefficients is zero.
pub open spec fn poly_canonical(p: Poly) -> bool
    decreases p,
{
    match p {
        Poly::Num(_) => true,
        Poly::Add(k, m, q) => k != 0 && m != Mon::Unit && mon_ordered(m, 0) && poly_canonical(*q)
            && leads_below(*q, m),
    }
}

/// Whether a monomial is greater than the leading one of a polynomial.
pub open spec fn leads_below(p: Poly, m: Mon) -> bool {
    p matches Poly::Add(_, m2, _) ==> mon_grevlex(m, m2) == Rank::Greater
}

/// The exponents of a monomial read as digits to the base `d`.
pub open spec fn mon_code(m: Mon, d: nat) -> int
    decreases m,
{
    match m {
        Mon::Unit => 0,
        Mon::Mult(x, k, q) => k * pow(d as int, x) + mon_code(*q, d),
    }
}

spec fn flip(r: Rank) -> Rank {
    match r {
        Rank::Less => Rank::Greater,
        Rank::Same => Rank::Same,
        Rank::Greater => Rank::Less,
    }
}

proof fn lemma_revlex_swap(m1: Mon, m2: Mon)
    ensures
        mon_revlex(m1, m2) == flip(mon_revlex(m2, m1)),
    decreases m1, m2,
{
    match (m1, m2) {
        (Mon::Mult(x1, _, q1), Mon::Mult(x2, _, q2)) => {
            if x1 == x2 {
                lemma_revlex_swap(*q1, *q2);
            } else if x1 < x2 {
                lemma_revlex_swap(*q1, m2);
            } else {
                lemma_revlex_swap(m1, *q2);
            }
        },
        _ => {},
    }
}

proof fn lemma_base_powers(d: nat, lo: nat, x: nat)
    requires
        d >= 1,
        lo <= x,
    ensures
        1 <= pow(d as int, lo) <= pow(d as int, x),
        pow(d as int, x + 1) == d * pow(d as int, x),
{
    lemma_pow_positive(d as int, lo);
    lemma_pow_increases(d, lo, x);
    reveal(pow);
}

proof fn lemma_less_code(m1: Mon, m2: Mon, lo: nat, d: nat)
    requires
        mon_ordered(m1, lo),
        mon_ordered(m2, lo),
        mon_degree(m1) < d,
        mon_degree(m2) < d,
        mon_revlex(m1, m2) == Rank::Less,
    ensures
        mon_code(m1, d) >= mon_code(m2, d) + pow(d as int, lo),
    decreases m1, m2,
{
    match (m1, m2) {
        (Mon::Mult(x1, k1, q1), Mon::Unit) => {
            lemma_base_powers(d, lo, x1);
            lemma_code_nonnegative(*q1, d);
            let b = pow(d as int, x1);
            assert(k1 * b >= b) by (nonlinear_arith)
                requires
                    k1 >= 1,
                    b >= 1,
            ;
        },
        (Mon::Mult(x1, k1, q1), Mon::Mult(x2, k2, q2)) => {
            if x1 == x2 {
                let b = pow(d as int, x1);
                lemma_base_powers(d, lo, x1);
                if mon_revlex(*q1, *q2) == Rank::Less {
                    lemma_less_code(*q1, *q2, x1 + 1, d);
                    assert(k1 * b + d * b >= k2 * b + b) by (nonlinear_arith)
                        requires
                            k1 >= 1,
                            k2 < d,
                            b >= 1,
                    ;
                } else {
                    lemma_revlex_same(*q1, *q2);
                    assert(k1 * b >= k2 * b + b) by (nonlinear_arith)
                        requires
                            k1 >= k2 + 1,
                            b >= 1,
                    ;
                }
            } else if x1 < x2 {
                let b = pow(d as int, x1);
                lemma_base_powers(d, lo, x1);
                assert(k1 * b >= b) by (nonlinear_arith)
                    requires
                        k1 >= 1,
                        b >= 1,
                ;
                if mon_revlex(*q1, m2) == Rank::Less {
                    lemma_less_code(*q1, m2, x1 + 1, d);
                    assert(d * b >= 0) by (nonlinear_arith)
                        requires
                            d >= 1,
                            b >= 1,
                    ;
                } else {
                    lemma_revlex_same(*q1, m2);
                }
            } else {
                let b = pow(d as int, x2);
                lemma_base_powers(d, lo, x2);
                lemma_less_code(m1, *q2, x2 + 1, d);
                assert(d * b >= k2 * b + b) by (nonlinear_arith)
                    requires
                        k2 < d,
                        b >= 1,
                ;
            }
        },
        _ => {},
    }
}

proof fn lemma_code_nonnegative(m: Mon, d: nat)
    requires
        d >= 1,
    ensures
        mon_code(m, d) >= 0,
    decreases m,
{
    match m {
        Mon::Unit => {},
        Mon::Mult(x, k, q) => {
            lemma_code_nonnegative(*q, d);
            lemma_pow_positive(d as int, x);
            let b = pow(d as int, x);
            assert(k * b >= 0) by (nonlinear_arith)
                requires
                    k >= 0,
                    b >= 0,
            ;
        },
    }
}

proof fn lemma_code_positive(m: Mon, d: nat)
    requires
        d >= 1,
        mon_ordered(m, 0),
        m != Mon::Unit,
    ensures
        mon_code(m, d) >= 1,
{
    match m {
        Mon::Unit => {},
        Mon::Mult(x, k, q) => {
            lemma_code_nonnegative(*q, d);
            lemma_pow_positive(d as int, x);
            let b = pow(d as int, x);
            assert(k * b >= 1) by (nonlinear_arith)
                requires
                    k >= 1,
                    b >= 1,
            ;
        },
    }
}

proof fn lemma_code_order(m1: Mon, m2: Mon, d: nat)
    requires
        mon_ordered(m1, 0),
        mon_ordered(m2, 0),
        mon_degree(m1) < d,
        mon_degree(m2) < d,
    ensures
        mon_revlex(m1, m2) == Rank::Less <==> mon_code(m1, d) > mon_code(m2, d),
        mon_revlex(m1, m2) == Rank::Greater <==> mon_code(m1, d) < mon_code(m2, d),
        mon_code(m1, d) == mon_code(m2, d) <==> m1 == m2,
{
    lemma_revlex_swap(m1, m2);
    lemma_revlex_same(m1, m2);
    lemma_pow_positive(d as int, 0);
    if mon_revlex(m1, m2) == Rank::Less {
        lemma_less_code(m1, m2, 0, d);
    } else if mon_revlex(m1, m2) == Rank::Greater {
        lemma_less_code(m2, m1, 0, d);
    }
}

proof fn lemma_greater(m1: Mon, m2: Mon, d: nat)
    requires
        mon_ordered(m1, 0),
        mon_ordered(m2, 0),
        mon_degree(m1) < d,
        mon_degree(m2) < d,
    ensures
        mon_grevlex(m1, m2) == Rank::Greater <==> mon_degree(m1) > mon_degree(m2) || (mon_degree(m1)
            == mon_degree(m2) && mon_code(m1, d) < mon_code(m2, d)),
        mon_grevlex(m1, m2) == Rank::Less <==> mon_grevlex(m2, m1) == Rank::Greater,
{
    lemma_code_order(m1, m2, d);
    lemma_revlex_swap(m1, m2);
}

/// The order of ordered monomials is transitive.
pub proof fn law_grevlex_transitive(m1: Mon, m2: Mon, m3: Mon)
    requires
        mon_ordered(m1, 0),
        mon_ordered(m2, 0),
        mon_ordered(m3, 0),
        mon_grevlex(m1, m2) == Rank::Greater,
        mon_grevlex(m2, m3) == Rank::Greater,
    ensures
        mon_grevlex(m1, m3) == Rank::Greater,
{
    let d = mon_degree(m1) + mon_degree(m2) + mon_degree(m3) + 1;
    lemma_greater(m1, m2, d);
    lemma_greater(m2, m3, d);
    lemma_greater(m1, m3, d);
}

proof fn lemma_mul_mon(m1: Mon, m2: Mon, lo: nat, d: nat)
    requires
        mon_ordered(m1, lo),
        mon_ordered(m2, lo),
    ensures
        mon_ordered(mon_mul(m1, m2), lo),
        mon_degree(mon_mul(m1, m2)) == mon_degree(m1) + mon_degree(m2),
        mon_code(mon_mul(m1, m2), d) == mon_code(m1, d) + mon_code(m2, d),
        m1 != Mon::Unit ==> mon_mul(m1, m2) != Mon::Unit,
    decreases m1, m2,
{
    match (m1, m2) {
        (Mon::Mult(x1, k1, q1), Mon::Mult(x2, k2, q2)) => {
            if x1 < x2 {
                lemma_mul_mon(*q1, m2, x1 + 1, d);
            } else if x2 < x1 {
                lemma_mul_mon(m1, *q2, x2 + 1, d);
            } else {
                lemma_mul_mon(*q1, *q2, x1 + 1, d);
                let b = pow(d as int, x1);
                assert((k1 + k2) * b == k1 * b + k2 * b) by (nonlinear_arith);
            }
        },
        _ => {},
    }
}

/// Multiplication by a monomial keeps the order.
pub proof fn law_grevlex_mul(m: Mon, m1: Mon, m2: Mon)
    requires
        mon_ordered(m, 0),
        mon_ordered(m1, 0),
        mon_ordered(m2, 0),
        mon_grevlex(m1, m2) == Rank::Greater,
    ensures
        mon_grevlex(mon_mul(m, m1), mon_mul(m, m2)) == Rank::Greater,
{
    let d = mon_degree(m) + mon_degree(m1) + mon_degree(m2) + 1;
    lemma_mul_mon(m, m1, 0, d);
    lemma_mul_mon(m, m2, 0, d);
    lemma_greater(m1, m2, d);
    lemma_greater(mon_mul(m, m1), mon_mul(m, m2), d);
}

proof fn lemma_above_unit(m: Mon)
    requires
        mon_ordered(m, 0),
        m != Mon::Unit,
    ensures
        mon_grevlex(m, Mon::Unit) == Rank::Greater,
{
}

proof fn lemma_add_const(p: Poly, k: int)
    requires
        poly_canonical(p),
    ensures
        poly_canonical(poly_add_const(p, k)),
        forall|m: Mon| leads_below(p, m) ==> #[trigger] leads_below(poly_add_const(p, k), m),
        p is Add <==> poly_add_const(p, k) is Add,
    decreases p,
{
    match p {
        Poly::Num(_) => {},
        Poly::Add(_, m, q) => {
            lemma_add_const(*q, k);
            assert(leads_below(poly_add_const(*q, k), m));
        },
    }
}

proof fn lemma_mul_const(p: Poly, k: int)
    requires
        poly_canonical(p),
    ensures
        poly_canonical(poly_mul_const(p, k)),
        forall|m: Mon| leads_below(p, m) ==> #[trigger] leads_below(poly_mul_const(p, k), m),
    decreases p,
{
    match p {
        Poly::Num(_) => {},
        Poly::Add(a, m, q) => {
            lemma_mul_const(*q, k);
            assert(leads_below(poly_mul_const(*q, k), m));
            if k != 0 {
                assert(k * a != 0) by (nonlinear_arith)
                    requires
                        k != 0,
                        a != 0,
                ;
            }
        },
    }
}

proof fn lemma_combine(p1: Poly, p2: Poly)
    requires
        poly_canonical(p1),
        poly_canonical(p2),
    ensures
        poly_canonical(poly_combine(p1, p2)),
        forall|m: Mon|
            mon_ordered(m, 0) && leads_below(p1, m) && leads_below(p2, m)
                ==> #[trigger] leads_below(poly_combine(p1, p2), m),
    decreases p1, p2,
{
    match (p1, p2) {
        (Poly::Num(_), Poly::Num(_)) => {},
        (Poly::Num(k1), Poly::Add(_, _, _)) => lemma_add_const(p2, k1),
        (Poly::Add(_, _, _), Poly::Num(k2)) => lemma_add_const(p1, k2),
        (Poly::Add(k1, m1, r1), Poly::Add(k2, m2, r2)) => {
            law_grevlex_same(m1, m2);
            let d = mon_degree(m1) + mon_degree(m2) + 1;
            lemma_greater(m1, m2, d);
            match mon_grevlex(m1, m2) {
                Rank::Same => {
                    lemma_combine(*r1, *r2);
                    assert(leads_below(poly_combine(*r1, *r2), m1));
                    assert forall|m: Mon|
                        mon_ordered(m, 0) && leads_below(p1, m) && leads_below(
                            p2,
                            m,
                        ) implies #[trigger] leads_below(poly_combine(p1, p2), m) by {
                        lemma_tail_below(p1, m);
                        lemma_tail_below(p2, m);
                        assert(leads_below(poly_combine(*r1, *r2), m));
                    }
                },
                Rank::Greater => {
                    lemma_combine(*r1, p2);
                    assert(leads_below(poly_combine(*r1, p2), m1));
                },
                Rank::Less => {
                    lemma_combine(p1, *r2);
                    assert(leads_below(poly_combine(p1, *r2), m2));
                },
            }
        },
    }
}

proof fn lemma_tail_below(p: Poly, m: Mon)
    requires
        poly_canonical(p),
        mon_ordered(m, 0),
        leads_below(p, m),
    ensures
        p matches Poly::Add(_, _, q) ==> leads_below(*q, m),
{
    reveal_with_fuel(poly_canonical, 2);
    match p {
        Poly::Num(_) => {},
        Poly::Add(_, m1, q) => match *q {
            Poly::Num(_) => {},
            Poly::Add(_, m2, _) => law_grevlex_transitive(m, m1, m2),
        },
    }
}

proof fn lemma_mul_by_term(p: Poly, k: int, m: Mon)
    requires
        poly_canonical(p),
        mon_ordered(m, 0),
    ensures
        poly_canonical(poly_mul_mon(p, k, m)),
        forall|m1: Mon|
            mon_ordered(m1, 0) && m1 != Mon::Unit && leads_below(p, m1)
                ==> #[trigger] leads_below(poly_mul_mon(p, k, m), mon_mul(m, m1)),
    decreases p,
{
    if k != 0 && m != Mon::Unit {
        match p {
            Poly::Num(c) => {
                if c != 0 {
                    reveal_with_fuel(poly_canonical, 2);
                    assert(k * c != 0) by (nonlinear_arith)
                        requires
                            k != 0,
                            c != 0,
                    ;
                    assert forall|m1: Mon|
                        mon_ordered(m1, 0) && m1 != Mon::Unit && leads_below(
                            p,
                            m1,
                        ) implies #[trigger] leads_below(
                        poly_mul_mon(p, k, m),
                        mon_mul(m, m1),
                    ) by {
                        lemma_above_unit(m1);
                        law_grevlex_mul(m, m1, Mon::Unit);
                    }
                }
            },
            Poly::Add(c, m2, q) => {
                lemma_mul_by_term(*q, k, m);
                lemma_mul_mon(m, m2, 0, 1);
                assert(leads_below(poly_mul_mon(*q, k, m), mon_mul(m, m2)));
                assert(k * c != 0) by (nonlinear_arith)
                    requires
                        k != 0,
                        c != 0,
                ;
                assert forall|m1: Mon|
                    mon_ordered(m1, 0) && m1 != Mon::Unit && leads_below(
                        p,
                        m1,
                    ) implies #[trigger] leads_below(poly_mul_mon(p, k, m), mon_mul(m, m1)) by {
                    law_grevlex_mul(m, m1, m2);
                }
            },
        }
    } else if k != 0 {
        lemma_mul_const(p, k);
        assert forall|m1: Mon|
            mon_ordered(m1, 0) && m1 != Mon::Unit && leads_below(
                p,
                m1,
            ) implies #[trigger] leads_below(poly_mul_mon(p, k, m), mon_mul(m, m1)) by {
            assert(mon_mul(m, m1) == m1);
            assert(leads_below(poly_mul_const(p, k), m1));
        }
    }
}

proof fn lemma_mul_go(p: Poly, other: Poly, acc: Poly)
    requires
        poly_canonical(p),
        poly_canonical(other),
        poly_canonical(acc),
    ensures
        poly_canonical(poly_mul_go(p, other, acc)),
    decreases p,
{
    match p {
        Poly::Num(k) => {
            lemma_mul_const(other, k);
            lemma_combine(acc, poly_mul_const(other, k));
        },
        Poly::Add(k, m, q) => {
            lemma_mul_by_term(other, k, m);
            lemma_combine(acc, poly_mul_mon(other, k, m));
            lemma_mul_go(*q, other, poly_combine(acc, poly_mul_mon(other, k, m)));
        },
    }
}

proof fn lemma_pow_go(p: Poly, k: nat)
    requires
        poly_canonical(p),
    ensures
        poly_canonical(poly_pow_go(p, k)),
    decreases k,
{
    if k > 1 {
        lemma_pow_go(p, (k - 1) as nat);
        lemma_mul_go(p, poly_pow_go(p, (k - 1) as nat), Poly::Num(0));
    }
}

/// The monomials of a normal form strictly decrease, each with its variables in
/// order, and none of its coefficients is zero.
pub proof fn law_to_poly_is_canonical(e: RingExp)
    ensures
        ringexp_to_poly(e) matches Some(p) ==> poly_canonical(p),
    decreases e,
{
    match e {
        RingExp::Add(a, b) => {
            law_to_poly_is_canonical(*a);
            law_to_poly_is_canonical(*b);
            match (ringexp_to_poly(*a), ringexp_to_poly(*b)) {
                (Some(pa), Some(pb)) => lemma_combine(pa, pb),
                _ => {},
            }
        },
        RingExp::Sub(a, b) => {
            law_to_poly_is_canonical(*a);
            law_to_poly_is_canonical(*b);
            match (ringexp_to_poly(*a), ringexp_to_poly(*b)) {
                (Some(pa), Some(pb)) => {
                    lemma_mul_const(pb, -1);
                    lemma_combine(pa, poly_mul_const(pb, -1));
                },
                _ => {},
            }
        },
        RingExp::Mul(a, b) => {
            law_to_poly_is_canonical(*a);
            law_to_poly_is_canonical(*b);
            match (ringexp_to_poly(*a), ringexp_to_poly(*b)) {
                (Some(pa), Some(pb)) => lemma_mul_go(pa, pb, Poly::Num(0)),
                _ => {},
            }
        },
        RingExp::Neg(a) => {
            law_to_poly_is_canonical(*a);
            match ringexp_to_poly(*a) {
                Some(pa) => lemma_mul_const(pa, -1),
                None => {},
            }
        },
        RingExp::Pow(a, k) => {
            law_to_poly_is_canonical(*a);
            match ringexp_to_poly(*a) {
                Some(pa) => lemma_pow_go(pa, k),
                None => {},
            }
            reveal_with_fuel(poly_canonical, 3);
            reveal_with_fuel(mon_ordered, 3);
        },
        _ => {
            reveal_with_fuel(poly_canonical, 3);
            reveal_with_fuel(mon_ordered, 3);
        },
    }
}

spec fn mag(x: int) -> int {
    if x < 0 {
        -x
    } else {
        x
    }
}

/// The sum of the magnitudes of the coefficients and of the constant.
spec fn weight(p: Poly) -> int
    decreases p,
{
    match p {
        Poly::Num(c) => mag(c),
        Poly::Add(k, _, q) => mag(k) + weight(*q),
    }
}

/// The greatest code of the monomials.
spec fn top_code(p: Poly, d: nat) -> int
    decreases p,
{
    match p {
        Poly::Num(_) => 0,
        Poly::Add(_, m, q) => if mon_code(m, d) > top_code(*q, d) {
            mon_code(m, d)
        } else {
            top_code(*q, d)
        },
    }
}

spec fn degrees_below(p: Poly, d: nat) -> bool
    decreases p,
{
    match p {
        Poly::Num(_) => true,
        Poly::Add(_, m, q) => mon_degree(m) < d && degrees_below(*q, d),
    }
}

spec fn degree_bound(p: Poly) -> nat
    decreases p,
{
    match p {
        Poly::Num(_) => 1,
        Poly::Add(_, m, q) => mon_degree(m) + degree_bound(*q),
    }
}

proof fn lemma_degree_bound(p: Poly, d: nat)
    requires
        degree_bound(p) <= d,
    ensures
        degrees_below(p, d),
        degree_bound(p) >= 1,
    decreases p,
{
    match p {
        Poly::Num(_) => {},
        Poly::Add(_, m, q) => {
            lemma_degree_bound(*q, d);
        },
    }
}

/// The assignment at which a monomial is the power of `b` that its code says.
spec fn point(b: int, d: nat) -> spec_fn(nat) -> int {
    |x: nat| pow(b, pow(d as int, x) as nat)
}

proof fn lemma_mon_at(m: Mon, b: int, d: nat)
    requires
        d >= 1,
    ensures
        mon_code(m, d) >= 0,
        mon_value(m, point(b, d)) == pow(b, mon_code(m, d) as nat),
    decreases m,
{
    match m {
        Mon::Unit => {
            reveal(pow);
        },
        Mon::Mult(x, k, q) => {
            lemma_mon_at(*q, b, d);
            lemma_pow_positive(d as int, x);
            let e = pow(d as int, x) as nat;
            let c = mon_code(*q, d) as nat;
            lemma_pow_multiplies(b, e, k);
            assert(e * k == k * pow(d as int, x)) by (nonlinear_arith)
                requires
                    e == pow(d as int, x),
            ;
            lemma_pow_adds(b, (e * k) as nat, c);
            assert(point(b, d)(x) == pow(b, e));
            assert((e * k) as nat + c == mon_code(m, d));
        },
    }
}

proof fn lemma_weight(p: Poly)
    ensures
        weight(p) >= 0,
    decreases p,
{
    match p {
        Poly::Num(_) => {},
        Poly::Add(_, _, q) => lemma_weight(*q),
    }
}

proof fn lemma_top_code(p: Poly, d: nat)
    requires
        d >= 1,
    ensures
        top_code(p, d) >= 0,
    decreases p,
{
    match p {
        Poly::Num(_) => {},
        Poly::Add(_, m, q) => {
            lemma_top_code(*q, d);
        },
    }
}

proof fn lemma_upper(p: Poly, b: int, d: nat)
    requires
        b >= 1,
        d >= 1,
    ensures
        mag(poly_value(p, point(b, d))) <= weight(p) * pow(b, top_code(p, d) as nat),
    decreases p,
{
    let rho = point(b, d);
    match p {
        Poly::Num(c) => {
            reveal(pow);
        },
        Poly::Add(k, m, q) => {
            lemma_upper(*q, b, d);
            lemma_mon_at(m, b, d);
            lemma_top_code(*q, d);
            lemma_weight(*q);
            let e = mon_code(m, d) as nat;
            let f = top_code(*q, d) as nat;
            let t = top_code(p, d) as nat;
            lemma_pow_increases(b as nat, e, t);
            lemma_pow_increases(b as nat, f, t);
            let x = pow(b, e);
            let y = pow(b, f);
            let z = pow(b, t);
            lemma_pow_positive(b, e);
            let v = poly_value(*q, rho);
            let w = weight(*q);
            assert(mag(k * x) == mag(k) * x) by (nonlinear_arith)
                requires
                    x > 0,
            ;
            assert(mag(k) * x <= mag(k) * z) by (nonlinear_arith)
                requires
                    x <= z,
                    mag(k) >= 0,
            ;
            assert(w * y <= w * z) by (nonlinear_arith)
                requires
                    y <= z,
                    w >= 0,
            ;
            assert((mag(k) + w) * z == mag(k) * z + w * z) by (nonlinear_arith);
        },
    }
}

proof fn lemma_not_top(q: Poly, m: Mon, d: nat)
    requires
        poly_canonical(q),
        q is Add,
        mon_ordered(m, 0),
        leads_below(q, m),
        degrees_below(q, d),
        mon_degree(m) < d,
    ensures
        top_code(q, d) != mon_code(m, d),
        top_code(q, d) >= 1,
    decreases q,
{
    match q {
        Poly::Num(_) => {},
        Poly::Add(_, m2, r) => {
            law_grevlex_same(m, m2);
            lemma_code_order(m, m2, d);
            lemma_code_positive(m2, d);
            lemma_tail_below(q, m);
            if *r is Add {
                lemma_not_top(*r, m, d);
            }
        },
    }
}

proof fn lemma_lower(p: Poly, b: int, d: nat)
    requires
        poly_canonical(p),
        p is Add,
        degrees_below(p, d),
        b >= 1,
    ensures
        top_code(p, d) >= 1,
        mag(poly_value(p, point(b, d))) >= pow(b, top_code(p, d) as nat) - (weight(p) - 1) * pow(
            b,
            (top_code(p, d) - 1) as nat,
        ),
    decreases p,
{
    let rho = point(b, d);
    match p {
        Poly::Num(_) => {},
        Poly::Add(k, m, q) => {
            lemma_mon_at(m, b, d);
            lemma_code_positive(m, d);
            lemma_weight(*q);
            lemma_top_code(*q, d);
            let e = mon_code(m, d) as nat;
            let x = pow(b, e);
            lemma_pow_positive(b, e);
            assert(mag(k * x) == mag(k) * x) by (nonlinear_arith)
                requires
                    x > 0,
            ;
            let v = poly_value(*q, rho);
            let w = weight(*q);
            lemma_upper(*q, b, d);
            let f = top_code(*q, d) as nat;
            if *q is Add {
                lemma_not_top(*q, m, d);
            }
            if e > f {
                let y = pow(b, f);
                let z = pow(b, (e - 1) as nat);
                lemma_pow_increases(b as nat, f, (e - 1) as nat);
                lemma_pow_positive(b, (e - 1) as nat);
                assert(w * y <= w * z) by (nonlinear_arith)
                    requires
                        y <= z,
                        w >= 0,
                ;
                assert(mag(k) * x >= x) by (nonlinear_arith)
                    requires
                        mag(k) >= 1,
                        x > 0,
                ;
                assert((mag(k) + w - 1) * z >= w * z) by (nonlinear_arith)
                    requires
                        mag(k) >= 1,
                        z > 0,
                ;
            } else {
                lemma_lower(*q, b, d);
                let y = pow(b, f);
                let z = pow(b, (f - 1) as nat);
                lemma_pow_increases(b as nat, e, (f - 1) as nat);
                assert(mag(k) * x <= mag(k) * z) by (nonlinear_arith)
                    requires
                        x <= z,
                        mag(k) >= 0,
                ;
                assert((mag(k) + w - 1) * z == mag(k) * z + (w - 1) * z) by (nonlinear_arith);
            }
        },
    }
}

proof fn lemma_nonvanishing(p: Poly) -> (rho: spec_fn(nat) -> int)
    requires
        poly_canonical(p),
        p != Poly::Num(0),
    ensures
        poly_value(p, rho) != 0,
{
    let d = degree_bound(p);
    let b = weight(p) + 1;
    lemma_degree_bound(p, d);
    lemma_weight(p);
    let rho = point(b, d);
    if p is Add {
        lemma_lower(p, b, d);
        let t = top_code(p, d);
        let z = pow(b, (t - 1) as nat);
        lemma_pow_positive(b, (t - 1) as nat);
        assert(pow(b, t as nat) == b * z) by {
            reveal(pow);
        }
        let w = weight(p);
        assert(b * z - (w - 1) * z > 0) by (nonlinear_arith)
            requires
                b == w + 1,
                z > 0,
        ;
    }
    rho
}

proof fn lemma_difference_vanishes(p: Poly, q: Poly)
    requires
        poly_combine(p, poly_mul_const(q, -1)) == Poly::Num(0),
    ensures
        p == q,
    decreases p, q,
{
    let n = poly_mul_const(q, -1);
    match (p, q) {
        (Poly::Num(_), Poly::Num(_)) => {},
        (Poly::Num(k1), Poly::Add(_, _, _)) => {
            assert(poly_add_const(n, k1) is Add);
        },
        (Poly::Add(_, _, _), Poly::Num(k2)) => {
            assert(poly_add_const(p, -1 * k2) is Add);
        },
        (Poly::Add(_, m1, r1), Poly::Add(_, m2, r2)) => {
            law_grevlex_same(m1, m2);
            lemma_difference_vanishes(*r1, *r2);
        },
    }
}

/// Polynomials in normal form are the same where they have the same value at
/// every assignment of integers.
pub proof fn law_canonical_polys_unique(p: Poly, q: Poly)
    requires
        poly_canonical(p),
        poly_canonical(q),
        forall|rho: spec_fn(nat) -> int| #[trigger] poly_value(p, rho) == poly_value(q, rho),
    ensures
        p == q,
{
    let n = poly_mul_const(q, -1);
    let diff = poly_combine(p, n);
    lemma_mul_const(q, -1);
    lemma_combine(p, n);
    if diff != Poly::Num(0) {
        let rho = lemma_nonvanishing(diff);
        law_poly_combine_value(p, n, rho);
        law_poly_mul_const_value(q, -1, rho);
        assert(poly_value(p, rho) == poly_value(q, rho));
    }
    lemma_difference_vanishes(p, q);
}

/// Two expressions that have normal forms have the same one exactly where they
/// have the same value at every assignment of integers.
pub proof fn law_to_poly_decides(e1: RingExp, e2: RingExp, p1: Poly, p2: Poly)
    requires
        ringexp_to_poly(e1) == Some(p1),
        ringexp_to_poly(e2) == Some(p2),
    ensures
        p1 == p2 <==> (forall|rho: spec_fn(nat) -> int| #[trigger]
            ringexp_value(e1, rho) == ringexp_value(e2, rho)),
{
    law_to_poly_is_canonical(e1);
    law_to_poly_is_canonical(e2);
    if p1 == p2 {
        assert forall|rho: spec_fn(nat) -> int| #[trigger]
            ringexp_value(e1, rho) == ringexp_value(e2, rho) by {
            law_to_poly_value(e1, rho);
            law_to_poly_value(e2, rho);
        }
    }
    if forall|rho: spec_fn(nat) -> int| #[trigger]
        ringexp_value(e1, rho) == ringexp_value(e2, rho) {
        assert forall|rho: spec_fn(nat) -> int| #[trigger]
            poly_value(p1, rho) == poly_value(p2, rho) by {
            law_to_poly_value(e1, rho);
            law_to_poly_value(e2, rho);
            assert(ringexp_value(e1, rho) == ringexp_value(e2, rho));
        }
        law_canonical_polys_unique(p1, p2);
    }
}

} // verus!
