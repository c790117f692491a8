//! Integer division, remainders, powers and greatest common divisors.

use crate::num::{trunc_div, Integer, Natural};
use vstd::arithmetic::power::pow;
use vstd::arithmetic::power2::pow2;
use vstd::prelude::*;

verus! {

/// Euclidean division; nothing divided by zero is zero.
pub open spec fn ediv(a: int, b: int) -> int {
    if b == 0 {
        0
    } else {
        a / b
    }
}

/// Euclidean remainder; a remainder by zero is the dividend.
pub open spec fn emod(a: int, b: int) -> int {
    if b == 0 {
        a
    } else {
        a % b
    }
}

/// The remainder by `m` that lies closest to zero.
pub open spec fn bmod(x: int, m: int) -> int {
    if m == 0 {
        x
    } else if x % m < (m + 1) / 2 {
        x % m
    } else {
        x % m - m
    }
}

/// Division rounded up, for a positive divisor.
pub open spec fn cdiv(a: int, b: int) -> int {
    -ediv(-a, b)
}

/// What [`cdiv`] leaves.
pub open spec fn cmod(a: int, b: int) -> int {
    -emod(-a, b)
}

/// The greatest common divisor.
pub open spec fn gcd(a: nat, b: nat) -> nat
    decreases b,
{
    if b == 0 {
        a
    } else {
        gcd(b, a % b)
    }
}

/// Whether `d` divides `n`.
pub open spec fn divides(d: nat, n: nat) -> bool {
    exists|q: nat| n == #[trigger] (d * q)
}

/// The largest exponent bit-length that powers are computed for.
pub const POWER_BITS: u64 = 16;

/// A power, or nothing where the exponent is too large to compute with.
pub open spec fn bounded_pow(base: int, exp: nat) -> Option<int> {
    if exp < pow2(POWER_BITS as nat) {
        Some(pow(base, exp))
    } else {
        None
    }
}

proof fn lemma_bits_bound(n: nat, bits: u64)
    requires
        bits == 0 <==> n == 0,
        bits > 0 ==> pow2((bits - 1) as nat) <= n < pow2(bits as nat),
    ensures
        bits > POWER_BITS <==> n >= pow2(POWER_BITS as nat),
{
    vstd::arithmetic::power2::lemma2_to64();
    if bits > POWER_BITS {
        if bits - 1 > POWER_BITS {
            vstd::arithmetic::power2::lemma_pow2_strictly_increases(
                POWER_BITS as nat,
                (bits - 1) as nat,
            );
        }
    } else if bits > 0 && bits < POWER_BITS {
        vstd::arithmetic::power2::lemma_pow2_strictly_increases(bits as nat, POWER_BITS as nat);
    }
}

proof fn lemma_pow_sign(m: int, e: nat)
    ensures
        pow(-m, e) == (if e % 2 == 0 {
            pow(m, e)
        } else {
            -pow(m, e)
        }),
    decreases e,
{
    reveal(pow);
    if e > 0 {
        lemma_pow_sign(m, (e - 1) as nat);
        let p = pow(m, (e - 1) as nat);
        assert((-m) * p == -(m * p)) by (nonlinear_arith);
        assert((-m) * (-p) == m * p) by (nonlinear_arith);
    }
}

proof fn lemma_small_exponent(e: nat)
    requires
        e < pow2(POWER_BITS as nat),
    ensures
        e <= u32::MAX,
{
    vstd::arithmetic::power2::lemma2_to64();
}

/// The exponent as a machine word, where powers of it are computed.
pub fn small_exponent(exp: &Natural) -> (r: Option<u32>)
    ensures
        r == (if exp@ < pow2(POWER_BITS as nat) {
            Some(exp@ as u32)
        } else {
            None
        }),
        r matches Some(e) ==> e as nat == exp@,
{
    let bits: u64 = exp.bits();
    proof {
        lemma_bits_bound(exp@, bits);
    }
    if bits > POWER_BITS {
        return None;
    }
    proof {
        lemma_small_exponent(exp@);
    }
    exp.to_u32()
}

/// The power of an integer: the power of its magnitude, with its sign.
pub fn int_pow(base: &Integer, exp: &Natural) -> (r: Option<Integer>)
    ensures
        r.deep_view() == bounded_pow(base@, exp@),
{
    match small_exponent(exp) {
        None => None,
        Some(e) => {
            let mag = Integer::from_natural(&base.magnitude().power(e));
            proof {
                lemma_pow_sign(-base@, e as nat);
            }
            if !base.is_negative() || e % 2 == 0 {
                Some(mag)
            } else {
                Some(mag.negate())
            }
        },
    }
}

proof fn lemma_trunc_rem(a: int, m: int)
    requires
        m > 0,
    ensures
        a >= 0 ==> a - m * trunc_div(a, m) == a % m,
        a < 0 ==> a - m * trunc_div(a, m) == (if a % m == 0 {
            0
        } else {
            a % m - m
        }),
{
    if a >= 0 {
        vstd::arithmetic::div_mod::lemma_fundamental_div_mod(a, m);
    } else {
        let q = (-a) / m;
        let r = (-a) % m;
        vstd::arithmetic::div_mod::lemma_fundamental_div_mod(-a, m);
        assert(m * (-q) == -(m * q)) by (nonlinear_arith);
        if r == 0 {
            vstd::arithmetic::div_mod::lemma_fundamental_div_mod_converse(a, m, -q, 0);
        } else {
            assert(m * (-q - 1) == -(m * q) - m) by (nonlinear_arith);
            vstd::arithmetic::div_mod::lemma_fundamental_div_mod_converse(a, m, -q - 1, m - r);
        }
    }
}

/// The remainder by a natural, never negative.
pub fn int_emod_nat(a: &Integer, m: &Natural) -> (r: Integer)
    ensures
        r@ == emod(a@, m@ as int),
{
    if m.is_zero() {
        return a.clone();
    }
    let mi = Integer::from_natural(m);
    let r = a.trunc_rem(&mi);
    proof {
        lemma_trunc_rem(a@, m@ as int);
    }
    if r.is_negative() {
        r.plus(&mi)
    } else {
        r
    }
}

/// The balanced remainder by a natural.
pub fn int_bmod(x: &Integer, m: &Natural) -> (r: Integer)
    ensures
        r@ == bmod(x@, m@ as int),
{
    if m.is_zero() {
        return x.clone();
    }
    let r = int_emod_nat(x, m);
    let half = Integer::from_natural(&m.plus(&Natural::from_u64(1)).quot(&Natural::from_u64(2)));
    if r.less(&half) {
        r
    } else {
        r.minus(&Integer::from_natural(m))
    }
}

proof fn lemma_ediv(a: int, b: int)
    requires
        b != 0,
    ensures
        a >= 0 && b > 0 ==> a / b == trunc_div(a, b),
        a >= 0 && b < 0 ==> a / b == -trunc_div(a, -b),
        a < 0 && b > 0 ==> a / b == -(trunc_div(-a - 1, b) + 1),
        a < 0 && b < 0 ==> a / b == trunc_div(-a - 1, -b) + 1,
{
    if a >= 0 && b < 0 {
        lemma_div_neg(a, -b);
    } else if a < 0 {
        let c = if b > 0 {
            b
        } else {
            -b
        };
        let q = (-a - 1) / c;
        let r = (-a - 1) % c;
        vstd::arithmetic::div_mod::lemma_fundamental_div_mod(-a - 1, c);
        assert(c * (-(q + 1)) == -(c * q) - c) by (nonlinear_arith);
        vstd::arithmetic::div_mod::lemma_fundamental_div_mod_converse(a, c, -(q + 1), c - 1 - r);
        if b < 0 {
            lemma_div_neg(a, c);
        }
    }
}

proof fn lemma_div_neg(a: int, c: int)
    requires
        c > 0,
    ensures
        a / (-c) == -(a / c),
        a % (-c) == a % c,
{
    let q = a / c;
    let r = a % c;
    let q2 = a / (-c);
    let r2 = a % (-c);
    vstd::arithmetic::div_mod::lemma_fundamental_div_mod(a, c);
    assert(a == (-c) * q2 + r2 && 0 <= r2 < c) by (nonlinear_arith)
        requires
            c > 0,
            q2 == a / (-c),
            r2 == a % (-c),
    ;
    assert(c * (-q2) == (-c) * q2) by (nonlinear_arith);
    vstd::arithmetic::div_mod::lemma_fundamental_div_mod_converse(a, c, -q2, r2);
}

/// Euclidean division.
pub fn int_ediv(a: &Integer, b: &Integer) -> (r: Integer)
    ensures
        r@ == ediv(a@, b@),
{
    if b.is_zero() {
        return Integer::from_i64(0);
    }
    proof {
        lemma_ediv(a@, b@);
    }
    let a_neg = a.is_negative();
    let b_neg = b.is_negative();
    let babs = Integer::from_natural(&b.magnitude());
    let one = Integer::from_i64(1);
    if !a_neg && !b_neg {
        a.trunc_quot(b)
    } else if !a_neg && b_neg {
        a.trunc_quot(&babs).negate()
    } else if a_neg && !b_neg {
        let m = a.negate().minus(&one);
        m.trunc_quot(b).plus(&one).negate()
    } else {
        let m = a.negate().minus(&one);
        m.trunc_quot(&babs).plus(&one)
    }
}

/// Euclidean remainder.
pub fn int_emod(a: &Integer, b: &Integer) -> (r: Integer)
    ensures
        r@ == emod(a@, b@),
{
    if b.is_zero() {
        return a.clone();
    }
    proof {
        if b@ < 0 {
            lemma_div_neg(a@, -b@);
        }
    }
    int_emod_nat(a, &b.magnitude())
}

/// Division rounded up, for a positive divisor.
pub fn int_cdiv(a: &Integer, b: &Integer) -> (r: Integer)
    ensures
        r@ == cdiv(a@, b@),
{
    int_ediv(&a.negate(), b).negate()
}

/// What [`int_cdiv`] leaves.
pub fn int_cmod(a: &Integer, b: &Integer) -> (r: Integer)
    ensures
        r@ == cmod(a@, b@),
{
    int_emod(&a.negate(), b).negate()
}

/// The greatest common divisor, by Euclid's algorithm.
pub fn num_bigint_gcd(a: &Natural, b: &Natural) -> (r: Natural)
    ensures
        r@ == gcd(a@, b@),
{
    let mut x = a.clone();
    let mut y = b.clone();
    while !y.is_zero()
        invariant
            gcd(x@, y@) == gcd(a@, b@),
        decreases y@,
    {
        let r = x.modulo(&y);
        x = y;
        y = r;
    }
    x
}

/// Quotient and remainder rebuild the dividend, and the remainder is neither
/// negative nor as large as the divisor.
pub proof fn law_euclidean_division(a: int, b: int)
    ensures
        b * ediv(a, b) + emod(a, b) == a,
        b != 0 ==> 0 <= emod(a, b) < (if b < 0 {
            -b
        } else {
            b
        }),
{
    if b > 0 {
        vstd::arithmetic::div_mod::lemma_fundamental_div_mod(a, b);
    } else if b < 0 {
        lemma_div_neg(a, -b);
        vstd::arithmetic::div_mod::lemma_fundamental_div_mod(a, -b);
        let q = a / (-b);
        assert(b * (-q) == (-b) * q) by (nonlinear_arith);
    } else {
        assert(b * ediv(a, b) == 0) by (nonlinear_arith)
            requires
                b == 0,
        ;
    }
}

/// The rounded-up quotient and what it leaves rebuild the dividend.
pub proof fn law_ceiling_division(a: int, b: int)
    ensures
        b * cdiv(a, b) + cmod(a, b) == a,
{
    law_euclidean_division(-a, b);
    let q = ediv(-a, b);
    assert(b * (-q) == -(b * q)) by (nonlinear_arith);
}

/// The balanced remainder is congruent to the dividend and lies in the balanced
/// range around zero, of which the lower end is part and the upper end is not.
pub proof fn law_balanced_remainder(x: int, m: int)
    requires
        m > 0,
    ensures
        exists|q: int| x - bmod(x, m) == #[trigger] (m * q),
        -m <= 2 * bmod(x, m) < m,
{
    vstd::arithmetic::div_mod::lemma_fundamental_div_mod(x, m);
    let q = x / m;
    assert(m * (q + 1) == m * q + m) by (nonlinear_arith);
    if x % m < (m + 1) / 2 {
        assert(x - bmod(x, m) == m * q);
    } else {
        assert(x - bmod(x, m) == m * (q + 1));
    }
}

proof fn lemma_divides_step(d: nat, a: nat, b: nat)
    requires
        b > 0,
    ensures
        divides(d, a) && divides(d, b) <==> divides(d, b) && divides(d, a % b),
{
    vstd::arithmetic::div_mod::lemma_fundamental_div_mod(a as int, b as int);
    let k = a / b;
    if divides(d, b) {
        let q = choose|q: nat| b == #[trigger] (d * q);
        assert(b * k == d * (q * k)) by (nonlinear_arith)
            requires
                b == d * q,
        ;
        if divides(d, a) {
            let p = choose|p: nat| a == #[trigger] (d * p);
            assert(d * p - d * (q * k) == d * (p - q * k)) by (nonlinear_arith);
            let t = p - q * k;
            if t < 0 {
                assert(d * t <= 0) by (nonlinear_arith)
                    requires
                        t < 0,
                        d >= 0,
                ;
                assert(a % b == 0);
                assert(0 == d * 0nat);
            } else {
                assert(a % b == d * (t as nat));
            }
        }
        if divides(d, a % b) {
            let p = choose|p: nat| a % b == #[trigger] (d * p);
            assert(d * (q * k) + d * p == d * (q * k + p)) by (nonlinear_arith);
            assert(a == d * ((q * k + p) as nat));
        }
    }
}

/// The greatest common divisor divides both numbers, and every common divisor
/// divides it.
pub proof fn law_gcd(a: nat, b: nat)
    ensures
        divides(gcd(a, b), a),
        divides(gcd(a, b), b),
        forall|d: nat| divides(d, a) && divides(d, b) ==> divides(d, gcd(a, b)),
    decreases b,
{
    if b == 0 {
        assert(a == a * 1nat);
        assert(0nat == a * 0nat);
    } else {
        law_gcd(b, a % b);
        lemma_divides_step(gcd(a, b), a, b);
        assert forall|d: nat| divides(d, a) && divides(d, b) implies divides(d, gcd(a, b)) by {
            lemma_divides_step(d, a, b);
        }
    }
}

} // verus!
