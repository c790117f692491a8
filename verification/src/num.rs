//! Arbitrary-precision naturals and integers.
//!
//! A number is kept as its base 2^32 digits, least significant first. The
//! arithmetic itself is done by `num_bigint`; every call into that crate sits
//! behind one of the small trusted functions below, whose contracts speak of
//! the values that the digits stand for.

use num_bigint::{BigInt, BigUint, Sign};
use vstd::arithmetic::power::pow;
use vstd::arithmetic::power2::pow2;
use vstd::prelude::*;

verus! {

/// The value of a little-endian sequence of base 2^32 digits.
pub open spec fn digits_value(d: Seq<u32>) -> nat
    decreases d.len(),
{
    if d.len() == 0 {
        0
    } else {
        d[0] as nat + 0x1_0000_0000 * digits_value(d.skip(1))
    }
}

/// The integer that a sign and a magnitude stand for.
pub open spec fn signed_value(negative: bool, magnitude: nat) -> int {
    if negative {
        -(magnitude as int)
    } else {
        magnitude as int
    }
}

/// Division that rounds towards zero.
pub open spec fn trunc_div(a: int, b: int) -> int {
    if a >= 0 && b > 0 {
        a / b
    } else if a < 0 && b > 0 {
        -((-a) / b)
    } else if a >= 0 {
        -(a / (-b))
    } else {
        (-a) / (-b)
    }
}

/// The bitwise conjunction of two naturals.
pub open spec fn bit_and(a: nat, b: nat) -> nat
    decreases a,
{
    if a == 0 {
        0
    } else {
        2 * bit_and(a / 2, b / 2) + (if a % 2 == 1 && b % 2 == 1 {
            1nat
        } else {
            0nat
        })
    }
}

/// The bitwise disjunction of two naturals.
pub open spec fn bit_or(a: nat, b: nat) -> nat
    decreases a + b,
{
    if a == 0 && b == 0 {
        0
    } else {
        2 * bit_or(a / 2, b / 2) + (if a % 2 == 1 || b % 2 == 1 {
            1nat
        } else {
            0nat
        })
    }
}

/// The bitwise exclusive disjunction of two naturals.
pub open spec fn bit_xor(a: nat, b: nat) -> nat
    decreases a + b,
{
    if a == 0 && b == 0 {
        0
    } else {
        2 * bit_xor(a / 2, b / 2) + (if a % 2 != b % 2 {
            1nat
        } else {
            0nat
        })
    }
}

/// The decimal digits of a natural, most significant first; `0` is one digit.
pub open spec fn decimal(n: nat) -> Seq<char>
    decreases n,
{
    if n < 10 {
        seq![digit_char(n)]
    } else {
        decimal(n / 10).push(digit_char(n % 10))
    }
}

/// The character of a decimal digit.
pub open spec fn digit_char(d: nat) -> char {
    if d == 0 {
        '0'
    } else if d == 1 {
        '1'
    } else if d == 2 {
        '2'
    } else if d == 3 {
        '3'
    } else if d == 4 {
        '4'
    } else if d == 5 {
        '5'
    } else if d == 6 {
        '6'
    } else if d == 7 {
        '7'
    } else if d == 8 {
        '8'
    } else {
        '9'
    }
}

/// `BigUint + BigUint`: the sum of the two values.
#[verifier::external_body]
fn digits_add(a: &Vec<u32>, b: &Vec<u32>) -> (r: Vec<u32>)
    ensures
        digits_value(r@) == digits_value(a@) + digits_value(b@),
{
    (BigUint::from_slice(a) + BigUint::from_slice(b)).to_u32_digits()
}

/// `BigUint - BigUint`: the difference. The call panics below zero, so the
/// subtrahend may not be the larger one.
#[verifier::external_body]
fn digits_sub(a: &Vec<u32>, b: &Vec<u32>) -> (r: Vec<u32>)
    requires
        digits_value(b@) <= digits_value(a@),
    ensures
        digits_value(r@) == digits_value(a@) - digits_value(b@),
{
    (BigUint::from_slice(a) - BigUint::from_slice(b)).to_u32_digits()
}

/// `BigUint * BigUint`: the product of the two values.
#[verifier::external_body]
fn digits_mul(a: &Vec<u32>, b: &Vec<u32>) -> (r: Vec<u32>)
    ensures
        digits_value(r@) == digits_value(a@) * digits_value(b@),
{
    (BigUint::from_slice(a) * BigUint::from_slice(b)).to_u32_digits()
}

/// `BigUint / BigUint`: the quotient rounded down. The call panics on a zero
/// divisor.
#[verifier::external_body]
fn digits_div(a: &Vec<u32>, b: &Vec<u32>) -> (r: Vec<u32>)
    requires
        digits_value(b@) > 0,
    ensures
        digits_value(r@) == digits_value(a@) / digits_value(b@),
{
    (BigUint::from_slice(a) / BigUint::from_slice(b)).to_u32_digits()
}

/// `BigUint % BigUint`: the remainder. The call panics on a zero divisor.
#[verifier::external_body]
fn digits_rem(a: &Vec<u32>, b: &Vec<u32>) -> (r: Vec<u32>)
    requires
        digits_value(b@) > 0,
    ensures
        digits_value(r@) == digits_value(a@) % digits_value(b@),
{
    (BigUint::from_slice(a) % BigUint::from_slice(b)).to_u32_digits()
}

/// `BigUint::pow`: the power with a machine-sized exponent.
#[verifier::external_body]
fn digits_pow(a: &Vec<u32>, e: u32) -> (r: Vec<u32>)
    ensures
        digits_value(r@) as int == pow(digits_value(a@) as int, e as nat),
{
    BigUint::from_slice(a).pow(e).to_u32_digits()
}

/// `BigUint << u32`: multiplication by a power of two.
#[verifier::external_body]
fn digits_shl(a: &Vec<u32>, by: u32) -> (r: Vec<u32>)
    ensures
        digits_value(r@) == digits_value(a@) * pow2(by as nat),
{
    (BigUint::from_slice(a) << by).to_u32_digits()
}

/// `BigUint >> u32`: division by a power of two, rounded down.
#[verifier::external_body]
fn digits_shr(a: &Vec<u32>, by: u32) -> (r: Vec<u32>)
    ensures
        digits_value(r@) == digits_value(a@) / pow2(by as nat),
{
    (BigUint::from_slice(a) >> by).to_u32_digits()
}

/// `BigUint & BigUint`: the bitwise conjunction.
#[verifier::external_body]
fn digits_and(a: &Vec<u32>, b: &Vec<u32>) -> (r: Vec<u32>)
    ensures
        digits_value(r@) == bit_and(digits_value(a@), digits_value(b@)),
{
    (BigUint::from_slice(a) & BigUint::from_slice(b)).to_u32_digits()
}

/// `BigUint | BigUint`: the bitwise disjunction.
#[verifier::external_body]
fn digits_or(a: &Vec<u32>, b: &Vec<u32>) -> (r: Vec<u32>)
    ensures
        digits_value(r@) == bit_or(digits_value(a@), digits_value(b@)),
{
    (BigUint::from_slice(a) | BigUint::from_slice(b)).to_u32_digits()
}

/// `BigUint ^ BigUint`: the bitwise exclusive disjunction.
#[verifier::external_body]
fn digits_xor(a: &Vec<u32>, b: &Vec<u32>) -> (r: Vec<u32>)
    ensures
        digits_value(r@) == bit_xor(digits_value(a@), digits_value(b@)),
{
    (BigUint::from_slice(a) ^ BigUint::from_slice(b)).to_u32_digits()
}

/// `BigUint < BigUint`: the order of the two values.
#[verifier::external_body]
fn digits_lt(a: &Vec<u32>, b: &Vec<u32>) -> (r: bool)
    ensures
        r == (digits_value(a@) < digits_value(b@)),
{
    BigUint::from_slice(a) < BigUint::from_slice(b)
}

/// `BigUint == BigUint`: whether the two values agree.
#[verifier::external_body]
fn digits_eq(a: &Vec<u32>, b: &Vec<u32>) -> (r: bool)
    ensures
        r == (digits_value(a@) == digits_value(b@)),
{
    BigUint::from_slice(a) == BigUint::from_slice(b)
}

/// `BigUint::bits`: the fewest bits that hold the value, none for zero.
#[verifier::external_body]
fn digits_bits(a: &Vec<u32>) -> (r: u64)
    ensures
        r == 0 <==> digits_value(a@) == 0,
        r > 0 ==> pow2((r - 1) as nat) <= digits_value(a@) < pow2(r as nat),
{
    BigUint::from_slice(a).bits()
}

/// `BigUint` as `Display` prints it: its decimal digits.
#[verifier::external_body]
fn digits_show(a: &Vec<u32>) -> (r: String)
    ensures
        r@ == decimal(digits_value(a@)),
{
    BigUint::from_slice(a).to_string()
}

/// `BigInt + BigInt`: the sum of the two values.
#[verifier::external_body]
fn signed_add(a: &Integer, b: &Integer) -> (r: Integer)
    ensures
        r@ == a@ + b@,
{
    let x = BigInt::from_slice(if a.negative { Sign::Minus } else { Sign::Plus }, &a.digits);
    let y = BigInt::from_slice(if b.negative { Sign::Minus } else { Sign::Plus }, &b.digits);
    let (sign, digits) = (x + y).to_u32_digits();
    Integer { negative: sign == Sign::Minus, digits }
}

/// `BigInt - BigInt`: the difference of the two values.
#[verifier::external_body]
fn signed_sub(a: &Integer, b: &Integer) -> (r: Integer)
    ensures
        r@ == a@ - b@,
{
    let x = BigInt::from_slice(if a.negative { Sign::Minus } else { Sign::Plus }, &a.digits);
    let y = BigInt::from_slice(if b.negative { Sign::Minus } else { Sign::Plus }, &b.digits);
    let (sign, digits) = (x - y).to_u32_digits();
    Integer { negative: sign == Sign::Minus, digits }
}

/// `BigInt * BigInt`: the product of the two values.
#[verifier::external_body]
fn signed_mul(a: &Integer, b: &Integer) -> (r: Integer)
    ensures
        r@ == a@ * b@,
{
    let x = BigInt::from_slice(if a.negative { Sign::Minus } else { Sign::Plus }, &a.digits);
    let y = BigInt::from_slice(if b.negative { Sign::Minus } else { Sign::Plus }, &b.digits);
    let (sign, digits) = (x * y).to_u32_digits();
    Integer { negative: sign == Sign::Minus, digits }
}

/// `BigInt / BigInt`: the quotient rounded towards zero. The call panics on a
/// zero divisor.
#[verifier::external_body]
fn signed_div(a: &Integer, b: &Integer) -> (r: Integer)
    requires
        b@ != 0,
    ensures
        r@ == trunc_div(a@, b@),
{
    let x = BigInt::from_slice(if a.negative { Sign::Minus } else { Sign::Plus }, &a.digits);
    let y = BigInt::from_slice(if b.negative { Sign::Minus } else { Sign::Plus }, &b.digits);
    let (sign, digits) = (x / y).to_u32_digits();
    Integer { negative: sign == Sign::Minus, digits }
}

/// `BigInt % BigInt`: what rounding the quotient towards zero leaves. The call
/// panics on a zero divisor.
#[verifier::external_body]
fn signed_rem(a: &Integer, b: &Integer) -> (r: Integer)
    requires
        b@ != 0,
    ensures
        r@ == a@ - b@ * trunc_div(a@, b@),
{
    let x = BigInt::from_slice(if a.negative { Sign::Minus } else { Sign::Plus }, &a.digits);
    let y = BigInt::from_slice(if b.negative { Sign::Minus } else { Sign::Plus }, &b.digits);
    let (sign, digits) = (x % y).to_u32_digits();
    Integer { negative: sign == Sign::Minus, digits }
}

/// `BigInt < BigInt`: the order of the two values.
#[verifier::external_body]
fn signed_lt(a: &Integer, b: &Integer) -> (r: bool)
    ensures
        r == (a@ < b@),
{
    let x = BigInt::from_slice(if a.negative { Sign::Minus } else { Sign::Plus }, &a.digits);
    let y = BigInt::from_slice(if b.negative { Sign::Minus } else { Sign::Plus }, &b.digits);
    x < y
}

/// `BigInt == BigInt`: whether the two values agree.
#[verifier::external_body]
fn signed_eq(a: &Integer, b: &Integer) -> (r: bool)
    ensures
        r == (a@ == b@),
{
    let x = BigInt::from_slice(if a.negative { Sign::Minus } else { Sign::Plus }, &a.digits);
    let y = BigInt::from_slice(if b.negative { Sign::Minus } else { Sign::Plus }, &b.digits);
    x == y
}

/// A natural number.
#[derive(Debug, PartialEq, Eq)]
pub struct Natural {
    digits: Vec<u32>,
}

impl View for Natural {
    type V = nat;

    closed spec fn view(&self) -> nat {
        digits_value(self.digits@)
    }
}

impl DeepView for Natural {
    type V = nat;

    open spec fn deep_view(&self) -> nat {
        self@
    }
}

impl Clone for Natural {
    fn clone(&self) -> (r: Self)
        ensures
            r@ == self@,
    {
        let digits = self.digits.clone();
        assert(digits@ =~= self.digits@);
        Natural { digits }
    }
}

proof fn lemma_one_digit(d: u32)
    ensures
        digits_value(seq![d]) == d,
{
    reveal_with_fuel(digits_value, 2);
    assert(seq![d].skip(1) =~= Seq::<u32>::empty());
}

proof fn lemma_two_digits(lo: u32, hi: u32)
    ensures
        digits_value(seq![lo, hi]) == lo as nat + 0x1_0000_0000 * hi as nat,
{
    lemma_one_digit(hi);
    assert(seq![lo, hi].skip(1) =~= seq![hi]);
}

proof fn lemma_zero_digits(d: Seq<u32>)
    requires
        forall|i: int| 0 <= i < d.len() ==> d[i] == 0,
    ensures
        digits_value(d) == 0,
    decreases d.len(),
{
    if d.len() > 0 {
        lemma_zero_digits(d.skip(1));
    }
}

proof fn lemma_high_digit(d: Seq<u32>, i: int)
    requires
        0 <= i < d.len(),
        d[i] > 0,
    ensures
        digits_value(d) > 0,
        i > 0 ==> digits_value(d) >= 0x1_0000_0000,
    decreases d.len(),
{
    if i > 0 {
        assert(d.skip(1)[i - 1] == d[i]);
        lemma_high_digit(d.skip(1), i - 1);
    }
}

impl Natural {
    /// Zero.
    pub fn zero() -> (r: Natural)
        ensures
            r@ == 0,
    {
        Natural { digits: Vec::new() }
    }

    /// The natural of a machine word.
    pub fn from_u64(v: u64) -> (r: Natural)
        ensures
            r@ == v,
    {
        let lo: u32 = (v % 0x1_0000_0000) as u32;
        let hi: u32 = (v / 0x1_0000_0000) as u32;
        let mut digits: Vec<u32> = Vec::new();
        if hi != 0 {
            digits.push(lo);
            digits.push(hi);
            proof {
                assert(digits@ =~= seq![lo, hi]);
                lemma_two_digits(lo, hi);
            }
        } else if lo != 0 {
            digits.push(lo);
            proof {
                assert(digits@ =~= seq![lo]);
                lemma_one_digit(lo);
            }
        }
        Natural { digits }
    }

    /// The value as a machine word, where it fits one.
    pub fn to_u32(&self) -> (r: Option<u32>)
        ensures
            r == (if self@ <= u32::MAX {
                Some(self@ as u32)
            } else {
                None
            }),
    {
        if self.digits.len() == 0 {
            return Some(0);
        }
        let mut i: usize = 1;
        while i < self.digits.len()
            invariant
                1 <= i <= self.digits.len(),
                forall|j: int| 1 <= j < i ==> self.digits@[j] == 0,
            decreases self.digits.len() - i,
        {
            if self.digits[i] != 0 {
                proof {
                    lemma_high_digit(self.digits@, i as int);
                }
                return None;
            }
            i = i + 1;
        }
        proof {
            lemma_zero_digits(self.digits@.skip(1));
        }
        Some(self.digits[0])
    }

    pub fn plus(&self, other: &Natural) -> (r: Natural)
        ensures
            r@ == self@ + other@,
    {
        Natural { digits: digits_add(&self.digits, &other.digits) }
    }

    /// Subtraction that stops at zero.
    pub fn minus(&self, other: &Natural) -> (r: Natural)
        ensures
            r@ == (if other@ <= self@ {
                (self@ - other@) as nat
            } else {
                0
            }),
    {
        if digits_lt(&self.digits, &other.digits) {
            Natural::zero()
        } else {
            Natural { digits: digits_sub(&self.digits, &other.digits) }
        }
    }

    pub fn times(&self, other: &Natural) -> (r: Natural)
        ensures
            r@ == self@ * other@,
    {
        Natural { digits: digits_mul(&self.digits, &other.digits) }
    }

    /// Division; nothing divided by zero is zero.
    pub fn quot(&self, other: &Natural) -> (r: Natural)
        ensures
            r@ == (if other@ == 0 {
                0
            } else {
                self@ / other@
            }),
    {
        if other.is_zero() {
            Natural::zero()
        } else {
            Natural { digits: digits_div(&self.digits, &other.digits) }
        }
    }

    /// Remainder; a remainder by zero is the dividend.
    pub fn modulo(&self, other: &Natural) -> (r: Natural)
        ensures
            r@ == (if other@ == 0 {
                self@
            } else {
                self@ % other@
            }),
    {
        if other.is_zero() {
            self.clone()
        } else {
            Natural { digits: digits_rem(&self.digits, &other.digits) }
        }
    }

    pub fn power(&self, e: u32) -> (r: Natural)
        ensures
            r@ as int == pow(self@ as int, e as nat),
    {
        Natural { digits: digits_pow(&self.digits, e) }
    }

    pub fn shift_left(&self, by: u32) -> (r: Natural)
        ensures
            r@ == self@ * pow2(by as nat),
    {
        Natural { digits: digits_shl(&self.digits, by) }
    }

    pub fn shift_right(&self, by: u32) -> (r: Natural)
        ensures
            r@ == self@ / pow2(by as nat),
    {
        Natural { digits: digits_shr(&self.digits, by) }
    }

    pub fn and(&self, other: &Natural) -> (r: Natural)
        ensures
            r@ == bit_and(self@, other@),
    {
        Natural { digits: digits_and(&self.digits, &other.digits) }
    }

    pub fn or(&self, other: &Natural) -> (r: Natural)
        ensures
            r@ == bit_or(self@, other@),
    {
        Natural { digits: digits_or(&self.digits, &other.digits) }
    }

    pub fn xor(&self, other: &Natural) -> (r: Natural)
        ensures
            r@ == bit_xor(self@, other@),
    {
        Natural { digits: digits_xor(&self.digits, &other.digits) }
    }

    pub fn less(&self, other: &Natural) -> (r: bool)
        ensures
            r == (self@ < other@),
    {
        digits_lt(&self.digits, &other.digits)
    }

    pub fn same(&self, other: &Natural) -> (r: bool)
        ensures
            r == (self@ == other@),
    {
        digits_eq(&self.digits, &other.digits)
    }

    pub fn is_zero(&self) -> (r: bool)
        ensures
            r == (self@ == 0),
    {
        let zero: Natural = Natural::zero();
        digits_eq(&self.digits, &zero.digits)
    }

    /// The fewest bits that hold the value.
    pub fn bits(&self) -> (r: u64)
        ensures
            r == 0 <==> self@ == 0,
            r > 0 ==> pow2((r - 1) as nat) <= self@ < pow2(r as nat),
    {
        digits_bits(&self.digits)
    }

    /// The decimal digits.
    pub fn show(&self) -> (r: String)
        ensures
            r@ == decimal(self@),
    {
        digits_show(&self.digits)
    }
}

/// An integer.
#[derive(Debug, PartialEq, Eq)]
pub struct Integer {
    negative: bool,
    digits: Vec<u32>,
}

impl View for Integer {
    type V = int;

    closed spec fn view(&self) -> int {
        signed_value(self.negative, digits_value(self.digits@))
    }
}

impl DeepView for Integer {
    type V = int;

    open spec fn deep_view(&self) -> int {
        self@
    }
}

impl Clone for Integer {
    fn clone(&self) -> (r: Self)
        ensures
            r@ == self@,
    {
        let digits = self.digits.clone();
        assert(digits@ =~= self.digits@);
        Integer { negative: self.negative, digits }
    }
}

impl Integer {
    /// The integer of a machine word.
    pub fn from_i64(v: i64) -> (r: Integer)
        ensures
            r@ == v,
    {
        if v == i64::MIN {
            Integer { negative: true, digits: Natural::from_u64(0x8000_0000_0000_0000).digits }
        } else if v < 0 {
            Integer { negative: true, digits: Natural::from_u64((-v) as u64).digits }
        } else {
            Integer { negative: false, digits: Natural::from_u64(v as u64).digits }
        }
    }

    /// A natural as an integer.
    pub fn from_natural(n: &Natural) -> (r: Integer)
        ensures
            r@ == n@,
    {
        let n = n.clone();
        Integer { negative: false, digits: n.digits }
    }

    pub fn plus(&self, other: &Integer) -> (r: Integer)
        ensures
            r@ == self@ + other@,
    {
        signed_add(self, other)
    }

    pub fn minus(&self, other: &Integer) -> (r: Integer)
        ensures
            r@ == self@ - other@,
    {
        signed_sub(self, other)
    }

    pub fn times(&self, other: &Integer) -> (r: Integer)
        ensures
            r@ == self@ * other@,
    {
        signed_mul(self, other)
    }

    /// Division that rounds towards zero.
    pub fn trunc_quot(&self, other: &Integer) -> (r: Integer)
        requires
            other@ != 0,
        ensures
            r@ == trunc_div(self@, other@),
    {
        signed_div(self, other)
    }

    /// The remainder that goes with [`Integer::trunc_quot`].
    pub fn trunc_rem(&self, other: &Integer) -> (r: Integer)
        requires
            other@ != 0,
        ensures
            r@ == self@ - other@ * trunc_div(self@, other@),
    {
        signed_rem(self, other)
    }

    pub fn less(&self, other: &Integer) -> (r: bool)
        ensures
            r == (self@ < other@),
    {
        signed_lt(self, other)
    }

    pub fn same(&self, other: &Integer) -> (r: bool)
        ensures
            r == (self@ == other@),
    {
        signed_eq(self, other)
    }

    pub fn is_zero(&self) -> (r: bool)
        ensures
            r == (self@ == 0),
    {
        self.same(&Integer::from_i64(0))
    }

    pub fn is_negative(&self) -> (r: bool)
        ensures
            r == (self@ < 0),
    {
        self.less(&Integer::from_i64(0))
    }

    pub fn negate(&self) -> (r: Integer)
        ensures
            r@ == -self@,
    {
        Integer::from_i64(0).minus(self)
    }

    /// The absolute value.
    pub fn magnitude(&self) -> (r: Natural)
        ensures
            r@ == (if self@ < 0 {
                -self@
            } else {
                self@
            }),
    {
        let digits = self.digits.clone();
        assert(digits@ =~= self.digits@);
        Natural { digits }
    }
}

} // verus!
