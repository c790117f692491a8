use kiota::ints::{
    int_bmod, int_cdiv, int_cmod, int_ediv, int_emod, int_emod_nat, int_pow, num_bigint_gcd,
};
use kiota::linear::{LinearExpr, LinearPoly};
use kiota::num::{Integer, Natural};
use kiota::ring::CrExpr;

fn i(v: i64) -> Integer {
    Integer::from_i64(v)
}

fn n(v: u64) -> Natural {
    Natural::from_u64(v)
}

fn two_pow(e: u32) -> Integer {
    Integer::from_natural(&n(1).shift_left(e))
}

#[test]
fn ediv_matches_lean_tidy_div() {
    let big = Integer::from_natural(&n(4294967296));
    let k = i(64);
    assert!(int_ediv(&big.negate(), &k).same(&i(-67108864)));
    assert!(int_ediv(&big.negate(), &k).negate().same(&i(67108864)));
    assert!(int_ediv(&big, &k).same(&i(67108864)));
    assert!(int_ediv(&i(-12), &i(7)).same(&i(-2)));
    assert!(int_ediv(&i(12), &i(-7)).same(&i(-1)));
    assert!(int_ediv(&i(12), &i(0)).same(&i(0)));
}

#[test]
fn pow_matches_lean_int_pow() {
    assert!(int_pow(&i(2), &n(63)).unwrap().same(&two_pow(63)));
    assert!(int_pow(&i(-2), &n(3)).unwrap().same(&i(-8)));
    assert!(int_pow(&i(-2), &n(4)).unwrap().same(&i(16)));
    assert!(int_pow(&i(5), &n(0)).unwrap().same(&i(1)));
}

#[test]
fn bmod_two_pow_31_is_min_int32() {
    let p31 = two_pow(31);
    let p32 = n(1).shift_left(32);
    assert!(int_bmod(&p31, &p32).same(&p31.negate()));
    assert!(int_emod_nat(&i(-5), &n(3)).same(&i(1)));
}

#[test]
fn gcd_64_then_0() {
    assert!(num_bigint_gcd(&n(64), &n(0)).same(&n(64)));
}

#[test]
fn tidy_int64_add_omega_payload() {
    let p63 = two_pow(63);
    let p64 = two_pow(64);
    let lo = i(1).minus(&p63);
    let hi = p64.minus(&i(1));
    let leading = p64.negate();
    assert!(leading.is_negative());
    let lo2 = hi.negate();
    let hi2 = lo.negate();
    let coeffs = vec![i(0), i(0), p64.clone(), p64.negate()];
    let gk = Integer::from_natural(&p64.magnitude());
    let lo3 = int_ediv(&lo2.negate(), &gk).negate();
    let hi3 = int_ediv(&hi2, &gk);
    assert!(lo3.same(&i(0)));
    assert!(hi3.same(&i(0)));
    let want = vec![i(0), i(0), i(1), i(-1)];
    for j in 0..4 {
        assert!(int_ediv(&coeffs[j], &gk).same(&want[j]));
    }
}

#[test]
fn combine_mul_k_cancels_diseq_subst_payload() {
    let p = LinearPoly::Add(
        i(-1),
        n(1),
        Box::new(LinearPoly::Add(i(1), n(0), Box::new(LinearPoly::Num(i(0))))),
    );
    let a = p.coeff(&n(1));
    let b = p.coeff(&n(1));
    assert!(a.same(&i(-1)));
    let r = LinearPoly::combine_mul_k(&b, &a.negate(), &p, &p);
    assert!(r.beq(&LinearPoly::Num(i(0))));
    assert!(!a.is_zero() && LinearPoly::Num(i(0)).beq(&r));
}

#[test]
fn commring_norm_cnstr_char_ordinal_payload() {
    let p32 = two_pow(32);
    let lhs = CrExpr::Num(p32.clone());
    let rhs = CrExpr::Var(n(0));
    let lhs2 = CrExpr::Num(i(0));
    let rhs2 = CrExpr::Add(
        Box::new(CrExpr::Var(n(0))),
        Box::new(CrExpr::IntCast(p32.negate())),
    );
    let a = CrExpr::Sub(Box::new(rhs), Box::new(lhs)).to_poly().unwrap();
    let b = CrExpr::Sub(Box::new(rhs2), Box::new(lhs2)).to_poly().unwrap();
    assert!(a.beq(&b));
}

#[test]
fn linear_norm_eq_cert_char_ordinal_payload() {
    let k = two_pow(32).minus(&i(1));
    let lhs = LinearExpr::Add(
        Box::new(LinearExpr::Var(n(0))),
        Box::new(LinearExpr::Neg(Box::new(LinearExpr::Num(k.clone())))),
    );
    let rhs = LinearExpr::Num(i(0));
    let want = LinearPoly::Add(i(1), n(0), Box::new(LinearPoly::Num(k.negate())));
    let got = LinearExpr::Sub(Box::new(lhs), Box::new(rhs)).norm();
    assert!(want.beq(&got));
}

#[test]
fn natural_arithmetic() {
    let big = n(1).shift_left(100);
    assert_eq!(big.show(), "1267650600228229401496703205376");
    assert_eq!(big.plus(&n(4)).show(), "1267650600228229401496703205380");
    assert_eq!(big.minus(&n(6)).show(), "1267650600228229401496703205370");
    assert_eq!(n(6).minus(&big).show(), "0");
    assert_eq!(n(1_000_000_007).times(&n(1_000_000_009)).show(), "1000000016000000063");
    assert_eq!(big.quot(&n(10)).show(), "126765060022822940149670320537");
    assert_eq!(big.modulo(&n(10)).show(), "6");
    assert!(big.quot(&n(0)).is_zero());
    assert!(big.modulo(&n(0)).same(&big));
    assert_eq!(n(3).power(40).show(), "12157665459056928801");
    assert_eq!(big.shift_right(98).show(), "4");
    assert_eq!(n(0b1100).and(&n(0b1010)).show(), "8");
    assert_eq!(n(0b1100).or(&n(0b1010)).show(), "14");
    assert_eq!(n(0b1100).xor(&n(0b1010)).show(), "6");
    assert_eq!(big.bits(), 101);
    assert_eq!(n(0).bits(), 0);
    assert!(n(3).less(&big) && !big.less(&n(3)));
    assert!(!n(3).same(&n(4)));
    assert_eq!(n(77).to_u32(), Some(77));
    assert_eq!(big.to_u32(), None);
}

#[test]
fn integer_arithmetic() {
    let big = two_pow(70);
    assert!(big.minus(&big).is_zero());
    assert!(big.negate().is_negative());
    assert!(big.negate().plus(&big).is_zero());
    assert!(big.negate().times(&i(-1)).same(&big));
    assert!(i(-7).trunc_quot(&i(2)).same(&i(-3)));
    assert!(i(-7).trunc_rem(&i(2)).same(&i(-1)));
    assert!(i(-7).less(&i(2)) && !i(2).less(&i(-7)));
    assert!(!i(2).same(&i(-2)));
    assert_eq!(big.negate().magnitude().bits(), 71);
}

#[test]
fn divisions_agree_with_their_remainders() {
    for a in [-9i64, -8, -1, 0, 1, 7, 8] {
        for b in [-4i64, -3, 3, 4] {
            let q = int_ediv(&i(a), &i(b));
            let r = int_emod(&i(a), &i(b));
            assert!(q.times(&i(b)).plus(&r).same(&i(a)));
            assert!(!r.is_negative());
            let cq = int_cdiv(&i(a), &i(b));
            let cr = int_cmod(&i(a), &i(b));
            assert!(cq.times(&i(b)).plus(&cr).same(&i(a)));
        }
    }
}

#[test]
fn a_power_with_a_large_exponent_is_not_computed() {
    assert!(int_pow(&i(2), &n(65_535)).is_some());
    assert!(int_pow(&i(2), &n(65_536)).is_none());
}

#[test]
fn a_product_of_sums_is_expanded() {
    let x = CrExpr::Var(n(0));
    let sum = CrExpr::Add(Box::new(x), Box::new(CrExpr::Num(i(1))));
    let square = CrExpr::Pow(Box::new(sum), n(2)).to_poly().unwrap();
    let y = CrExpr::Var(n(0));
    let want = CrExpr::Add(
        Box::new(CrExpr::Pow(Box::new(CrExpr::Var(n(0))), n(2))),
        Box::new(CrExpr::Add(
            Box::new(CrExpr::Mul(Box::new(CrExpr::Num(i(2))), Box::new(y))),
            Box::new(CrExpr::Num(i(1))),
        )),
    )
    .to_poly()
    .unwrap();
    assert!(square.beq(&want));
}

#[test]
fn equal_linear_expressions_have_one_normal_form() {
    let x = || LinearExpr::Var(n(0));
    let y = || LinearExpr::Var(n(1));
    let twice = |e: LinearExpr| LinearExpr::MulL(i(2), Box::new(e));
    let a = twice(LinearExpr::Add(Box::new(x()), Box::new(y())));
    let b = LinearExpr::Add(
        Box::new(LinearExpr::MulR(Box::new(y()), i(2))),
        Box::new(LinearExpr::Sub(Box::new(twice(twice(x()))), Box::new(twice(x())))),
    );
    assert!(a.norm().beq(&b.norm()));
    let zero = LinearExpr::Sub(Box::new(x()), Box::new(x()));
    assert!(zero.norm().beq(&LinearPoly::Num(i(0))));
    assert!(!a.norm().beq(&twice(x()).norm()));
}

#[test]
fn equal_ring_expressions_have_one_normal_form() {
    let x = || Box::new(CrExpr::Var(n(0)));
    let y = || Box::new(CrExpr::Var(n(1)));
    let sum = || Box::new(CrExpr::Add(x(), y()));
    let difference = || Box::new(CrExpr::Sub(x(), y()));
    let squares = CrExpr::Sub(
        Box::new(CrExpr::Pow(x(), n(2))),
        Box::new(CrExpr::Pow(y(), n(2))),
    );
    let product = CrExpr::Mul(sum(), difference());
    assert!(product.to_poly().unwrap().beq(&squares.to_poly().unwrap()));
    let swapped = CrExpr::Mul(difference(), sum());
    assert!(swapped.to_poly().unwrap().beq(&product.to_poly().unwrap()));
    let other = CrExpr::Pow(sum(), n(2));
    assert!(!other.to_poly().unwrap().beq(&product.to_poly().unwrap()));
}

#[test]
fn balanced_remainders_reach_the_lower_end_and_not_the_upper() {
    assert!(int_bmod(&i(5), &n(10)).same(&i(-5)));
    assert!(int_bmod(&i(4), &n(10)).same(&i(4)));
    assert!(int_bmod(&i(-5), &n(10)).same(&i(-5)));
    assert!(int_bmod(&i(3), &n(7)).same(&i(3)));
    assert!(int_bmod(&i(4), &n(7)).same(&i(-3)));
    assert!(int_bmod(&i(9), &n(1)).same(&i(0)));
}

#[test]
fn merged_spines_keep_their_order_and_drop_what_cancels() {
    let add = |k: i64, x: u64, p: LinearPoly| LinearPoly::Add(i(k), n(x), Box::new(p));
    let p = add(3, 2, add(1, 0, LinearPoly::Num(i(5))));
    let q = add(-1, 2, add(4, 1, LinearPoly::Num(i(7))));
    let want = add(24, 1, add(2, 0, LinearPoly::Num(i(52))));
    assert!(LinearPoly::merge(&i(2), &i(6), &p, &q).beq(&want));
    let sum = add(2, 2, add(4, 1, add(1, 0, LinearPoly::Num(i(12)))));
    assert!(LinearPoly::merge(&i(1), &i(1), &p, &q).beq(&sum));
}
