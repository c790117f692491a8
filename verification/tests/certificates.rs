use kiota::certs::{arity_of, check_cert, named_cert, Input};
use kiota::linear::{LinearExpr, LinearPoly};
use kiota::num::{Integer, Natural};

fn i(v: i64) -> Integer {
    Integer::from_i64(v)
}

fn n(v: u64) -> Natural {
    Natural::from_u64(v)
}

fn poly(summands: &[(i64, u64)], c: i64) -> LinearPoly {
    let mut out = LinearPoly::Num(i(c));
    for (k, x) in summands.iter().rev() {
        out = LinearPoly::Add(i(*k), n(*x), Box::new(out));
    }
    out
}

fn p(summands: &[(i64, u64)], c: i64) -> Input {
    Input::Poly(poly(summands, c))
}

fn x(v: u64) -> Input {
    Input::Nat(n(v))
}

fn k(v: i64) -> Input {
    Input::Int(i(v))
}

fn var(v: u64) -> LinearExpr {
    LinearExpr::Var(n(v))
}

fn exp(e: LinearExpr) -> Input {
    Input::Exp(e)
}

fn holds(name: &str, ins: Vec<Input>) -> bool {
    let c = named_cert(name).unwrap();
    assert_eq!(arity_of(c), ins.len());
    check_cert(c, &ins)
}

#[test]
fn names_stand_for_certificates() {
    assert!(named_cert("Int.Linear.le_neg_cert").is_some());
    assert!(named_cert("le_neg_cert").is_some());
    assert!(named_cert("le_neg_certs").is_none());
}

#[test]
fn substitution_certificates() {
    let p1 = || p(&[(2, 1), (1, 0)], 3);
    let p2 = || p(&[(3, 1)], -1);
    let good = || p(&[(3, 0)], 11);
    for name in ["diseq_eq_subst_cert", "eq_eq_subst_cert"] {
        assert!(holds(name, vec![x(1), p1(), p2(), good()]));
        assert!(!holds(name, vec![x(1), p1(), p2(), p1()]));
    }
    assert!(holds("eq_eq_subst'_cert", vec![k(2), k(3), p1(), p2(), good()]));
    assert!(!holds("eq_eq_subst'_cert", vec![k(2), k(4), p1(), p2(), good()]));
    let absent = || p(&[(1, 0)], 3);
    let scaled = || p(&[(3, 0)], 9);
    assert!(!holds("diseq_eq_subst_cert", vec![x(1), absent(), p2(), scaled()]));
    assert!(holds("eq_eq_subst_cert", vec![x(1), absent(), p2(), scaled()]));
}

#[test]
fn order_certificates() {
    let a = || p(&[(2, 1)], 4);
    assert!(holds("eq_of_le_ge_cert", vec![a(), p(&[(-2, 1)], -4)]));
    assert!(!holds("eq_of_le_ge_cert", vec![a(), a()]));
    assert!(holds("le_of_le_diseq_cert", vec![a(), a(), p(&[(2, 1)], 5)]));
    assert!(holds("le_of_le_diseq_cert", vec![a(), p(&[(-2, 1)], -4), p(&[(2, 1)], 5)]));
    assert!(!holds("le_of_le_diseq_cert", vec![a(), p(&[(2, 1)], 5), p(&[(2, 1)], 5)]));
    assert!(holds("diseq_split_cert", vec![a(), p(&[(2, 1)], 5), p(&[(-2, 1)], -3)]));
    assert!(!holds("diseq_split_cert", vec![a(), p(&[(2, 1)], 5), p(&[(-2, 1)], -4)]));
    assert!(holds("le_neg_cert", vec![a(), p(&[(-2, 1)], -3)]));
    assert!(!holds("le_neg_cert", vec![a(), p(&[(-2, 1)], -4)]));
    assert!(holds("le_coeff_cert", vec![p(&[(2, 1)], 3), p(&[(1, 1)], 2), k(2)]));
    assert!(!holds("le_coeff_cert", vec![p(&[(2, 1)], 3), p(&[(1, 1)], 1), k(2)]));
    assert!(!holds("le_coeff_cert", vec![p(&[(3, 1)], 3), p(&[(1, 1)], 2), k(2)]));
    assert!(!holds("le_coeff_cert", vec![a(), a(), k(0)]));
    let b = || p(&[(-3, 1), (1, 0)], 1);
    assert!(holds("le_combine_cert", vec![a(), b(), p(&[(2, 0)], 14)]));
    assert!(!holds("le_combine_cert", vec![a(), b(), p(&[(1, 0)], 7)]));
    assert!(holds("le_combine_coeff_cert", vec![a(), b(), p(&[(1, 0)], 7), k(2)]));
    assert!(!holds("le_combine_coeff_cert", vec![a(), b(), p(&[(1, 0)], 7), k(3)]));
}

#[test]
fn equation_certificates() {
    let a = || p(&[(2, 1)], 4);
    assert!(holds("eq_of_core_cert", vec![a(), p(&[(2, 1)], 1), p(&[], 3)]));
    assert!(!holds("eq_of_core_cert", vec![a(), p(&[(2, 1)], 1), p(&[], 4)]));
    assert!(holds("eq_coeff_cert", vec![a(), p(&[(1, 1)], 2), k(2)]));
    assert!(!holds("eq_coeff_cert", vec![a(), p(&[(-1, 1)], -2), k(-2)]));
    assert!(holds("eq_unsat_coeff_cert", vec![p(&[(2, 1)], 5), k(2)]));
    assert!(!holds("eq_unsat_coeff_cert", vec![a(), k(2)]));
    assert!(!holds("eq_unsat_coeff_cert", vec![p(&[(3, 1)], 5), k(2)]));
    assert!(holds("var_eq_cert", vec![x(1), k(-2), a()]));
    assert!(!holds("var_eq_cert", vec![x(1), k(2), a()]));
    assert!(!holds("var_eq_cert", vec![x(0), k(-2), a()]));
}

#[test]
fn divisibility_certificates() {
    let a = || p(&[(-2, 1), (1, 0)], 4);
    assert!(holds("dvd_of_eq_cert", vec![x(1), a(), k(2), p(&[(1, 0)], 4)]));
    assert!(!holds("dvd_of_eq_cert", vec![x(1), a(), k(-2), p(&[(1, 0)], 4)]));
    let b = || p(&[(3, 1)], 1);
    let want = || p(&[(-3, 0)], -14);
    assert!(holds("eq_dvd_subst_cert", vec![x(1), a(), k(5), b(), k(10), want()]));
    assert!(!holds("eq_dvd_subst_cert", vec![x(1), a(), k(5), b(), k(5), want()]));
}

#[test]
fn certificates_from_variables() {
    assert!(holds("of_var_eq_cert", vec![x(3), k(7), p(&[(1, 3)], -7)]));
    assert!(!holds("of_var_eq_cert", vec![x(3), k(7), p(&[(1, 3)], 7)]));
    assert!(holds("of_var_eq_mul_cert", vec![x(3), k(7), x(1), p(&[(1, 3), (-7, 1)], 0)]));
    assert!(!holds("of_var_eq_mul_cert", vec![x(3), k(7), x(1), p(&[(1, 3), (7, 1)], 0)]));
    assert!(holds("of_var_eq_var_cert", vec![x(3), x(1), p(&[(1, 3), (-1, 1)], 0)]));
    assert!(!holds("of_var_eq_var_cert", vec![x(3), x(1), p(&[(-1, 3), (1, 1)], 0)]));
}

#[test]
fn certificates_of_normal_forms() {
    let double = || LinearExpr::MulL(i(2), Box::new(var(1)));
    let six = || LinearExpr::Num(i(6));
    assert!(holds("norm_eq_cert", vec![exp(double()), exp(six()), p(&[(2, 1)], -6)]));
    assert!(!holds("norm_eq_cert", vec![exp(double()), exp(six()), p(&[(2, 1)], 6)]));
    assert!(holds("norm_eq_coeff_cert", vec![exp(double()), exp(six()), p(&[(1, 1)], -3), k(2)]));
    assert!(!holds("norm_eq_coeff_cert", vec![exp(double()), exp(six()), p(&[(1, 1)], -3), k(3)]));
    assert!(holds("norm_eq_var_cert", vec![exp(var(1)), exp(var(0)), x(1), x(0)]));
    assert!(!holds("norm_eq_var_cert", vec![exp(var(1)), exp(var(0)), x(0), x(1)]));
    assert!(holds("norm_eq_var_const_cert", vec![exp(var(1)), exp(six()), x(1), k(6)]));
    assert!(!holds("norm_eq_var_const_cert", vec![exp(var(1)), exp(six()), x(1), k(7)]));
}
