use kiota::ctx::Ctx;
use kiota::env::{ConstantInfo, Environment};
use kiota::errors::{TcError, R};
use kiota::expr::{rec_expr_eq, BinderInfo, Expr};
use kiota::expr;
use kiota::kernel::{Checker, Mode};
use kiota::level;
use kiota::num::{Integer, Natural};
use kiota::omega::{scale_constraint_bounds, Constraint};
use std::rc::Rc;

/// An environment together with the names of its constants.
struct World {
    env: Environment,
    names: Vec<Rc<String>>,
}

impl World {
    fn new() -> World {
        World { env: Environment::new(), names: vec![] }
    }

    fn id(&mut self, text: &str) -> u32 {
        for (i, n) in self.names.iter().enumerate() {
            if n.as_str() == text {
                return i as u32;
            }
        }
        self.names.push(Rc::new(text.to_string()));
        (self.names.len() - 1) as u32
    }

    fn con(&mut self, text: &str) -> Expr {
        let n = self.id(text);
        expr::const_(n, vec![])
    }

    fn given(&mut self, text: &str, typ: Expr) -> Expr {
        let n = self.id(text);
        self.env.insert(n, ConstantInfo::Axiom { level_params: vec![], typ, is_unsafe: false });
        expr::const_(n, vec![])
    }

    fn inductive(
        &mut self,
        text: &str,
        typ: Expr,
        num_params: u32,
        num_indices: u32,
        ctors: &[(&str, u32, Expr)],
        is_rec: bool,
    ) -> u32 {
        let n = self.id(text);
        let mut ids: Vec<u32> = vec![];
        for (i, (c, fields, ct)) in ctors.iter().enumerate() {
            let cid = self.id(c);
            self.env.insert(
                cid,
                ConstantInfo::Constructor {
                    level_params: vec![],
                    typ: ct.clone(),
                    induct: n,
                    cidx: i as u32,
                    num_params,
                    num_fields: *fields,
                    is_unsafe: false,
                },
            );
            ids.push(cid);
        }
        self.env.insert(
            n,
            ConstantInfo::InductiveType {
                level_params: vec![],
                typ,
                num_params,
                num_indices,
                all: vec![n],
                ctors: ids,
                is_rec,
                is_unsafe: false,
            },
        );
        n
    }

    fn checker(&self) -> Checker<'_> {
        let mut nat_id: Option<u32> = None;
        let mut string_id: Option<u32> = None;
        for (i, n) in self.names.iter().enumerate() {
            if n.as_str() == "Nat" {
                nat_id = Some(i as u32);
            }
            if n.as_str() == "String" {
                string_id = Some(i as u32);
            }
        }
        Checker::new(&self.env, &self.names, nat_id, string_id)
    }
}

fn type0() -> Expr {
    expr::sort(level::succ(level::zero()))
}

fn arrow(a: Expr, b: Expr) -> Expr {
    expr::pi(BinderInfo::Default, a, b)
}

fn v(i: u32) -> Expr {
    expr::bvar(i)
}

fn call(f: &Expr, args: &[Expr]) -> Expr {
    expr::apps(f.clone(), &args.to_vec())
}

fn rejected<T>(r: R<T>, text: &str) {
    match r {
        Err(TcError::Reject(m)) => assert_eq!(m, text),
        Err(TcError::Decline(m)) => panic!("declined: {}", m),
        Err(TcError::Other(m)) => panic!("malformed: {}", m),
        Ok(_) => panic!("accepted, not rejected for: {}", text),
    }
}

fn declined<T>(r: R<T>, text: &str) {
    match r {
        Err(TcError::Decline(m)) => assert_eq!(m, text),
        Err(TcError::Reject(m)) => panic!("rejected: {}", m),
        Err(TcError::Other(m)) => panic!("malformed: {}", m),
        Ok(_) => panic!("accepted, not declined for: {}", text),
    }
}

fn malformed<T>(r: R<T>, text: &str) {
    match r {
        Err(TcError::Other(m)) => assert_eq!(m, text),
        Err(TcError::Reject(m)) => panic!("rejected: {}", m),
        Err(TcError::Decline(m)) => panic!("declined: {}", m),
        Ok(_) => panic!("accepted, not refused for: {}", text),
    }
}

/// The names that arithmetic reduces by, over natural numbers.
fn arith() -> World {
    let mut w = World::new();
    let t = w.con("Nat");
    w.inductive(
        "Nat",
        type0(),
        0,
        0,
        &[("Nat.zero", 0, t.clone()), ("Nat.succ", 1, arrow(t.clone(), t))],
        true,
    );
    for text in [
        "Int", "Int.ofNat", "Int.negSucc", "Int.neg", "Int.add", "Int.sub", "Int.mul", "Int.pow",
        "OfNat.ofNat", "instOfNat", "Bool.true", "Bool.false", "True", "True.intro",
        "Decidable.isTrue", "Decidable.isFalse", "Nat.add", "Nat.mul", "Nat.sub", "Nat.pow",
        "Nat.div", "Nat.mod", "Nat.shiftLeft", "Nat.shiftRight", "List.nil", "List.cons",
        "Option.none", "Option.some", "Constraint.mk", "LinearCombo", "LinearCombo.mk",
        "LinearCombo.add", "LinearCombo.sub", "Rat", "HAdd.hAdd", "HSub.hSub", "HMul.hMul",
        "instHAdd", "instHSub", "instHMul", "Int.instAdd", "Int.instSub", "Int.instMul",
        "Neg.neg", "Int.instNegInt", "Int.Linear.Poly.num", "Int.Linear.Poly.add",
    ] {
        w.id(text);
    }
    w
}

fn lit(v: u64) -> Expr {
    expr::lit_nat(Natural::from_u64(v))
}

fn num(w: &mut World, v: i64) -> Expr {
    if v >= 0 {
        let f = w.con("Int.ofNat");
        call(&f, &[lit(v as u64)])
    } else {
        let f = w.con("Int.negSucc");
        call(&f, &[lit((-v - 1) as u64)])
    }
}

fn literal(w: &World, v: i64) -> Expr {
    w.checker().mk_closed_int(&Integer::from_i64(v)).unwrap()
}

fn list(w: &mut World, vs: &[i64]) -> Expr {
    let (nil, cons) = (w.id("List.nil"), w.id("List.cons"));
    let ty = w.con("Int");
    let mut out = call(&expr::const_(nil, vec![level::zero()]), &[ty.clone()]);
    for x in vs.iter().rev() {
        let x = literal(w, *x);
        out = call(&expr::const_(cons, vec![level::zero()]), &[ty.clone(), x, out]);
    }
    out
}

fn bound(w: &mut World, v: Option<i64>) -> Expr {
    let ty = w.con("Int");
    match v {
        None => {
            let c = w.id("Option.none");
            call(&expr::const_(c, vec![level::zero()]), &[ty])
        },
        Some(x) => {
            let c = w.id("Option.some");
            let x = literal(w, x);
            call(&expr::const_(c, vec![level::zero()]), &[ty, x])
        },
    }
}

fn constraint(w: &mut World, lo: Option<i64>, hi: Option<i64>) -> Expr {
    let c = w.con("Constraint.mk");
    let (lo, hi) = (bound(w, lo), bound(w, hi));
    call(&c, &[lo, hi])
}

fn shows(w: &World, e: &Expr, want: &Expr) {
    let tc = w.checker();
    let got = tc.whnf(&Ctx::new(), e).unwrap();
    assert!(rec_expr_eq(&got, want), "{} is not {}", tc.pp(&got), tc.pp(want));
}

fn nat_case(f: &str, a: u64, b: u64, want: u64) {
    let mut w = arith();
    let e = call(&w.con(f), &[lit(a), lit(b)]);
    shows(&w, &e, &lit(want));
}

fn int_case(f: &str, a: i64, b: i64, want: i64) {
    let mut w = arith();
    let (x, y) = (num(&mut w, a), num(&mut w, b));
    let e = call(&w.con(f), &[x, y]);
    let want = num(&mut w, want);
    shows(&w, &e, &want);
}

fn truth(w: &mut World, b: bool) -> Expr {
    w.con(if b { "Bool.true" } else { "Bool.false" })
}

#[test]
fn natural_operations_compute() {
    nat_case("Nat.add", 40, 2, 42);
    nat_case("Nat.mul", 6, 7, 42);
    nat_case("Nat.sub", 50, 8, 42);
    nat_case("Nat.sub", 8, 50, 0);
    nat_case("Nat.pow", 3, 5, 243);
    nat_case("Nat.pow", 0, 0, 1);
    nat_case("Nat.div", 17, 5, 3);
    nat_case("Nat.div", 17, 0, 0);
    nat_case("Nat.mod", 17, 5, 2);
    nat_case("Nat.mod", 17, 0, 17);
    nat_case("Nat.modCore", 17, 5, 2);
    nat_case("Nat.shiftLeft", 5, 4, 80);
    nat_case("Nat.shiftRight", 80, 4, 5);
    nat_case("Nat.shiftRight", 80, 400, 0);
    nat_case("Nat.land", 12, 10, 8);
    nat_case("Nat.lor", 12, 10, 14);
    nat_case("Nat.xor", 12, 10, 6);
    nat_case("Nat.gcd", 84, 36, 12);
}

#[test]
fn large_naturals_compute() {
    let mut w = arith();
    let big = expr::lit_nat(Natural::from_u64(1).shift_left(200));
    let f = w.con("Nat.shiftRight");
    shows(&w, &call(&f, &[big.clone(), lit(190)]), &lit(1024));
    let f = w.con("Nat.sub");
    shows(&w, &call(&f, &[big.clone(), big]), &lit(0));
}

#[test]
fn a_power_too_large_to_compute_unfolds_one_step() {
    let mut w = arith();
    let pow = w.con("Nat.pow");
    let mul = w.con("Nat.mul");
    let tc = w.checker();
    let args = vec![lit(7), lit(1 << 20)];
    let got = tc.try_nat_extension(tc.budget, Mode::start(), &Ctx::new(), &pow, &args).unwrap();
    let want = call(&mul, &[call(&pow, &[lit(7), lit((1 << 20) - 1)]), lit(7)]);
    assert!(rec_expr_eq(&got.unwrap(), &want));
}

#[test]
fn naturals_are_compared() {
    for (f, a, b, want) in [
        ("Nat.ble", 3, 4, true),
        ("Nat.ble", 4, 4, true),
        ("Nat.ble", 5, 4, false),
        ("Nat.beq", 4, 4, true),
        ("Nat.beq", 5, 4, false),
    ] {
        let mut w = arith();
        let e = call(&w.con(f), &[lit(a), lit(b)]);
        let want = truth(&mut w, want);
        shows(&w, &e, &want);
    }
}

#[test]
fn successors_and_literals_agree() {
    let mut w = arith();
    let succ = w.con("Nat.succ");
    let zero = w.con("Nat.zero");
    shows(&w, &call(&succ, &[lit(41)]), &lit(42));
    let two = call(&succ, &[call(&succ, &[zero.clone()])]);
    let tc = w.checker();
    let empty = Ctx::new();
    assert!(tc.is_def_eq(&empty, &two, &lit(2)).unwrap());
    assert!(tc.is_def_eq(&empty, &zero, &lit(0)).unwrap());
    assert!(!tc.is_def_eq(&empty, &two, &lit(3)).unwrap());
}

#[test]
fn a_sum_with_a_variable_shows_its_successors() {
    let mut w = arith();
    let x = {
        let t = w.con("Nat");
        w.given("x", t)
    };
    let add = w.con("Nat.add");
    let succ = w.con("Nat.succ");
    shows(&w, &call(&add, &[x.clone(), lit(0)]), &x);
    shows(&w, &call(&add, &[lit(0), x.clone()]), &x);
    shows(&w, &call(&add, &[x.clone(), lit(1)]), &call(&succ, &[x.clone()]));
    shows(
        &w,
        &call(&add, &[x.clone(), lit(3)]),
        &call(&succ, &[call(&add, &[x.clone(), lit(2)])]),
    );
    let mul = w.con("Nat.mul");
    shows(&w, &call(&mul, &[x.clone(), lit(0)]), &lit(0));
    let sub = w.con("Nat.sub");
    shows(&w, &call(&sub, &[x.clone(), lit(0)]), &x);
}

#[test]
fn integer_operations_compute() {
    int_case("Int.add", 40, -50, -10);
    int_case("Int.sub", -3, 4, -7);
    int_case("Int.mul", -6, 7, -42);
    int_case("Int.ediv", -7, 2, -4);
    int_case("Int.ediv", 7, 0, 0);
    int_case("Int.emod", -7, 2, 1);
}

#[test]
fn integers_by_naturals_compute() {
    let mut w = arith();
    let a = num(&mut w, -3);
    let e = call(&w.con("Int.pow"), &[a.clone(), lit(3)]);
    let want = num(&mut w, -27);
    shows(&w, &e, &want);
    let b = num(&mut w, 5);
    let e = call(&w.con("Int.bmod"), &[b, lit(8)]);
    let want = num(&mut w, -3);
    shows(&w, &e, &want);
    let e = call(&w.con("Int.natAbs"), &[a.clone()]);
    shows(&w, &e, &lit(3));
    let e = call(&w.con("Int.neg"), &[a]);
    let want = num(&mut w, 3);
    shows(&w, &e, &want);
}

#[test]
fn integer_orders_are_decided() {
    for (f, a, b, yes) in [
        ("Int.decLe", -2, -2, true),
        ("Int.decLt", -2, -2, false),
        ("Int.decLt", -3, -2, true),
        ("Int.decLe", 4, -2, false),
    ] {
        let mut w = arith();
        let (x, y) = (num(&mut w, a), num(&mut w, b));
        let e = call(&w.con(f), &[x, y]);
        let p = w.con("P");
        let decide = w.con("Decidable.decide");
        let got = w.checker().whnf(&Ctx::new(), &e).unwrap();
        let want = if yes { "Decidable.isTrue" } else { "Decidable.isFalse" };
        assert!(w.checker().head_is(&got, want));
        let want = truth(&mut w, yes);
        shows(&w, &call(&decide, &[p, e]), &want);
    }
}

#[test]
fn overloads_are_resolved_by_their_type() {
    let mut w = arith();
    let nat_ty = w.con("Nat");
    let int_ty = w.con("Int");
    let inst = w.con("inst");
    let hadd = w.con("HAdd.hAdd");
    let e = call(&hadd, &[nat_ty.clone(), nat_ty.clone(), nat_ty, inst.clone(), lit(2), lit(3)]);
    shows(&w, &e, &lit(5));
    let (x, y) = (num(&mut w, -2), num(&mut w, -3));
    let e = call(&hadd, &[int_ty.clone(), int_ty.clone(), int_ty.clone(), inst.clone(), x.clone(), y.clone()]);
    let want = num(&mut w, -5);
    shows(&w, &e, &want);
    let e = call(&w.con("Mul.mul"), &[int_ty, inst, x, y]);
    let want = num(&mut w, 6);
    shows(&w, &e, &want);
}

#[test]
fn casts_and_truth_values_compute() {
    let mut w = arith();
    let int_ty = w.con("Int");
    let inst = w.con("inst");
    let e = call(&w.con("Nat.cast"), &[int_ty.clone(), inst, lit(7)]);
    let want = num(&mut w, 7);
    shows(&w, &e, &want);
    let (t, f) = (truth(&mut w, true), truth(&mut w, false));
    let and = w.con("Bool.and'");
    shows(&w, &call(&and, &[t.clone(), t.clone()]), &t);
    shows(&w, &call(&and, &[t.clone(), f.clone()]), &f);
    let (x, y) = (num(&mut w, -7), num(&mut w, 7));
    let beq = w.con("Int.beq'");
    shows(&w, &call(&beq, &[x.clone(), x.clone()]), &t);
    shows(&w, &call(&beq, &[x, y]), &f);
}

#[test]
fn closed_integers_read_back() {
    let w = arith();
    let tc = w.checker();
    let empty = Ctx::new();
    for v in [-70000, -1, 0, 1, 12] {
        let v = Integer::from_i64(v);
        for e in [tc.mk_int_canonical(&v).unwrap(), tc.mk_closed_int(&v).unwrap()] {
            let back = tc.closed_int_value(tc.budget, Mode::start(), &empty, &e).unwrap().unwrap();
            assert!(back.same(&v));
            assert!(tc.is_closed_int_numeral(&e));
        }
    }
}

#[test]
fn constraints_are_tidied() {
    let i = |v: i64| Integer::from_i64(v);
    let c = Constraint { lo: Some(i(1)), hi: Some(i(7)), coeffs: vec![i(0), i(-2), i(4)] }.tidy();
    assert!(c.lo.unwrap().same(&i(-3)));
    assert!(c.hi.unwrap().same(&i(-1)));
    assert!(c.coeffs[0].same(&i(0)) && c.coeffs[1].same(&i(1)) && c.coeffs[2].same(&i(-2)));
    let c = Constraint { lo: Some(i(1)), hi: None, coeffs: vec![i(0)] }.tidy();
    assert!(c.lo.unwrap().same(&i(1)) && c.hi.unwrap().same(&i(0)));
    let c = Constraint { lo: Some(i(-1)), hi: None, coeffs: vec![] }.tidy();
    assert!(c.lo.is_none() && c.hi.is_none());
    let (lo, hi) = scale_constraint_bounds(&i(-2), &Some(i(3)), &None);
    assert!(lo.is_none() && hi.unwrap().same(&i(-6)));
    let (lo, hi) = scale_constraint_bounds(&i(0), &Some(i(3)), &Some(i(4)));
    assert!(lo.unwrap().same(&i(0)) && hi.unwrap().same(&i(0)));
}

#[test]
fn tidied_constraints_are_terms() {
    let mut w = arith();
    let c = constraint(&mut w, Some(1), Some(7));
    let xs = list(&mut w, &[0, -2, 4]);
    let e = call(&w.con("tidyConstraint"), &[c.clone(), xs.clone()]);
    let want = constraint(&mut w, Some(-3), Some(-1));
    shows(&w, &e, &want);
    let e = call(&w.con("tidyCoeffs"), &[c, xs]);
    let want = list(&mut w, &[0, 1, -2]);
    shows(&w, &e, &want);
}

#[test]
fn constraints_are_combined() {
    let mut w = arith();
    let a = constraint(&mut w, Some(1), None);
    let b = constraint(&mut w, Some(-4), Some(7));
    let e = call(&w.con("Constraint.combine"), &[a.clone(), b.clone()]);
    let want = constraint(&mut w, Some(1), Some(7));
    shows(&w, &e, &want);
    let (two, minus) = (num(&mut w, 2), num(&mut w, -1));
    let e = call(&w.con("Constraint.combo"), &[two, a, minus, b]);
    let want = constraint(&mut w, Some(-5), None);
    shows(&w, &e, &want);
}

#[test]
fn coefficient_lists_compute() {
    let mut w = arith();
    let (xs, ys) = (list(&mut w, &[1, 2]), list(&mut w, &[0, -4, 6]));
    let (two, three) = (num(&mut w, 2), num(&mut w, 3));
    let e = call(&w.con("IntList.combo"), &[two, xs.clone(), three, ys.clone()]);
    let want = list(&mut w, &[2, -8, 18]);
    shows(&w, &e, &want);
    let e = call(&w.con("IntList.gcd"), &[ys.clone()]);
    shows(&w, &e, &lit(2));
    let nil = list(&mut w, &[]);
    let e = call(&w.con("Coeffs.sub"), &[xs.clone(), nil]);
    shows(&w, &e, &xs);
}

#[test]
fn linear_combinations_are_added() {
    let mut w = arith();
    let mk = w.con("LinearCombo.mk");
    let (c1, c2) = (num(&mut w, 5), num(&mut w, -7));
    let (xs, ys) = (list(&mut w, &[1, 2]), list(&mut w, &[3]));
    let (a, b) = (call(&mk, &[c1, xs]), call(&mk, &[c2, ys]));
    let e = call(&w.con("LinearCombo.add"), &[a.clone(), b.clone()]);
    let (c, zs) = (literal(&w, -2), list(&mut w, &[4, 2]));
    shows(&w, &e, &call(&mk, &[c, zs]));
    let e = call(&w.con("LinearCombo.sub"), &[a, b]);
    let (c, zs) = (literal(&w, 12), list(&mut w, &[-2, 2]));
    shows(&w, &e, &call(&mk, &[c, zs]));
}

#[test]
fn rationals_show_their_parts() {
    let mut w = arith();
    let mk = w.con("Rat.mk'");
    let (p, q) = (w.con("p"), w.con("q"));
    let n = num(&mut w, -3);
    let r = call(&mk, &[n, lit(4), p.clone(), q.clone()]);
    let e = call(&w.con("Rat.num"), &[r.clone()]);
    let want = {
        let v = literal(&w, -3);
        w.checker().whnf(&Ctx::new(), &v).unwrap()
    };
    shows(&w, &e, &want);
    let e = call(&w.con("Rat.den"), &[r]);
    shows(&w, &e, &lit(4));
    let n = num(&mut w, -1);
    let unit = call(&mk, &[n, lit(1), p, q]);
    let e = call(&w.con("Rat.inv"), &[unit.clone()]);
    shows(&w, &e, &unit);
}

#[test]
fn conditionals_go_by_their_decision() {
    let mut w = arith();
    let (c, h, a, t, e) = (w.con("c"), w.con("h"), w.con("A"), w.con("t"), w.con("e"));
    let yes = call(&w.con("Decidable.isTrue"), &[c.clone(), h.clone()]);
    let no = call(&w.con("Decidable.isFalse"), &[c.clone(), h.clone()]);
    let ite = w.con("ite");
    let dite = w.con("dite");
    shows(&w, &call(&ite, &[a.clone(), c.clone(), yes.clone(), t.clone(), e.clone()]), &t);
    shows(&w, &call(&ite, &[a.clone(), c.clone(), no.clone(), t.clone(), e.clone()]), &e);
    shows(
        &w,
        &call(&dite, &[a.clone(), c.clone(), yes, t.clone(), e.clone()]),
        &call(&t, &[h.clone()]),
    );
    shows(&w, &call(&dite, &[a, c, no, t, e.clone()]), &call(&e, &[h]));
}

fn poly(w: &mut World, summands: &[(i64, u64)], c: i64) -> Expr {
    let (f, g) = (w.con("Int.Linear.Poly.num"), w.con("Int.Linear.Poly.add"));
    let k = num(w, c);
    let mut out = call(&f, &[k]);
    for (k, x) in summands.iter().rev() {
        let k = num(w, *k);
        out = call(&g, &[k, lit(*x), out]);
    }
    out
}

#[test]
fn reflected_polynomials_are_combined() {
    let mut w = arith();
    let p = poly(&mut w, &[(2, 1), (1, 0)], 3);
    let q = poly(&mut w, &[(-2, 1)], 4);
    let e = call(&w.con("Int.Linear.Poly.combine"), &[p.clone(), q.clone()]);
    let want = poly(&mut w, &[(1, 0)], 7);
    shows(&w, &e, &want);
    let (two, three) = (num(&mut w, 2), num(&mut w, 3));
    let e = call(&w.con("Int.Linear.Poly.combine_mul_k"), &[two, three, p, q]);
    let want = poly(&mut w, &[(-2, 1), (2, 0)], 18);
    shows(&w, &e, &want);
}

#[test]
fn certificates_compute_to_truth_values() {
    let mut w = arith();
    let (t, f) = (truth(&mut w, true), truth(&mut w, false));
    let p = poly(&mut w, &[(2, 1)], 4);
    let minus = poly(&mut w, &[(-2, 1)], -4);
    let half = poly(&mut w, &[(1, 1)], 2);
    let more = poly(&mut w, &[(2, 1)], 5);
    let two = num(&mut w, 2);
    let c = w.con("Int.Linear.eq_of_le_ge_cert");
    shows(&w, &call(&c, &[p.clone(), minus.clone()]), &t);
    shows(&w, &call(&c, &[p.clone(), half.clone()]), &f);
    let c = w.con("Int.Linear.eq_coeff_cert");
    shows(&w, &call(&c, &[p.clone(), half.clone(), two.clone()]), &t);
    shows(&w, &call(&c, &[more.clone(), half.clone(), two.clone()]), &f);
    let c = w.con("Int.Linear.le_coeff_cert");
    shows(&w, &call(&c, &[p.clone(), half.clone(), two.clone()]), &t);
    let c = w.con("Int.Linear.eq_unsat_coeff_cert");
    shows(&w, &call(&c, &[more.clone(), two.clone()]), &t);
    shows(&w, &call(&c, &[p.clone(), two]), &f);
    let c = w.con("Int.Linear.le_neg_cert");
    let below = poly(&mut w, &[(-2, 1)], -3);
    shows(&w, &call(&c, &[p.clone(), below]), &t);
    shows(&w, &call(&c, &[p, minus]), &f);
}

#[test]
fn reflected_expressions_denote_integers() {
    let mut w = arith();
    let (x, y) = (w.con("x"), w.con("y"));
    let leaf = w.con("RArray.leaf");
    let branch = w.con("RArray.branch");
    let arr = call(
        &branch,
        &[lit(1), call(&leaf, &[x.clone()]), call(&leaf, &[y.clone()])],
    );
    let var = w.con("Int.Linear.Expr.var");
    let add = w.con("Int.Linear.Expr.add");
    let denote = w.con("Int.Linear.Expr.denote");
    shows(&w, &call(&denote, &[arr.clone(), call(&var, &[lit(0)])]), &x);
    shows(&w, &call(&denote, &[arr.clone(), call(&var, &[lit(1)])]), &y);
    let get = w.con("RArray.get");
    shows(&w, &call(&get, &[arr.clone(), lit(1)]), &y);
    let sum = call(&add, &[call(&var, &[lit(0)]), call(&var, &[lit(1)])]);
    let tc = w.checker();
    let want = tc.mk_hadd(x, y).unwrap();
    let m = Mode::start();
    let got = tc.linear_expr_denote(tc.budget, m, &Ctx::new(), &arr, &sum, 9).unwrap().unwrap();
    assert!(rec_expr_eq(&got, &want));
    declined(
        tc.linear_expr_denote(tc.budget, m, &Ctx::new(), &arr, &sum, 0),
        "reflected expression depth limit",
    );
}

#[test]
fn ring_certificates_compare_normal_forms() {
    let mut w = arith();
    let (t, f) = (truth(&mut w, true), truth(&mut w, false));
    let var = w.con("CommRing.Expr.var");
    let add = w.con("CommRing.Expr.add");
    let mul = w.con("CommRing.Expr.mul");
    let pow = w.con("CommRing.Expr.pow");
    let number = w.con("CommRing.Expr.num");
    let k = num(&mut w, 2);
    let two = call(&number, &[k]);
    let k = num(&mut w, 0);
    let zero = call(&number, &[k]);
    let (x, y) = (call(&var, &[lit(0)]), call(&var, &[lit(1)]));
    let sum = call(&add, &[x.clone(), y.clone()]);
    let square = call(&pow, &[sum, lit(2)]);
    let xy = call(&mul, &[two, call(&mul, &[x.clone(), y.clone()])]);
    let expanded = call(
        &add,
        &[call(&add, &[call(&pow, &[x.clone(), lit(2)]), xy]), call(&pow, &[y.clone(), lit(2)])],
    );
    let c = w.con("CommRing.norm_eq_cert");
    let good = [square.clone(), zero.clone(), expanded.clone(), zero.clone()];
    shows(&w, &call(&c, &good), &t);
    let c2 = w.con("CommRing.norm_cnstr_cert");
    shows(&w, &call(&c2, &good), &t);
    shows(&w, &call(&c, &[square, zero.clone(), x, zero]), &f);
}
