use kiota::answers::Memory;
use kiota::ctx::Ctx;
use kiota::env::{ConstantInfo, Environment, QuotKind, RecRule, ReducibilityHints};
use kiota::errors::{TcError, R};
use kiota::expr::{rec_expr_eq, BinderInfo, Expr};
use kiota::expr;
use kiota::kernel::{Checker, Mode};
use kiota::level::{leq, Level};
use kiota::level;
use kiota::nbe::generic_env;
use kiota::num::Natural;
use kiota::pp::pp_level;
use kiota::text::{ends_qualified, is_commring_ident, is_int_linear_ident, join, named};
use kiota::verdicts::Verdicts;
use std::rc::Rc;

/// An environment together with the names of its constants.
struct World {
    env: Environment,
    names: Vec<Rc<String>>,
}

impl World {
    fn new() -> World {
        World { env: Environment::new(), names: vec![] }
    }

    fn id(&mut self, text: &str) -> u32 {
        for (i, n) in self.names.iter().enumerate() {
            if n.as_str() == text {
                return i as u32;
            }
        }
        self.names.push(Rc::new(text.to_string()));
        (self.names.len() - 1) as u32
    }

    fn con(&mut self, text: &str) -> Expr {
        let n = self.id(text);
        expr::const_(n, vec![])
    }

    fn given(&mut self, text: &str, typ: Expr) -> Expr {
        let n = self.id(text);
        self.env.insert(n, ConstantInfo::Axiom { level_params: vec![], typ, is_unsafe: false });
        expr::const_(n, vec![])
    }

    fn define(&mut self, text: &str, typ: Expr, value: Expr) -> Expr {
        let n = self.id(text);
        self.env.insert(
            n,
            ConstantInfo::Def {
                level_params: vec![],
                typ,
                value,
                hints: ReducibilityHints::Regular(1),
                is_unsafe: false,
            },
        );
        expr::const_(n, vec![])
    }

    fn theorem(&mut self, text: &str, typ: Expr, value: Expr) -> Expr {
        let n = self.id(text);
        self.env.insert(n, ConstantInfo::Theorem { level_params: vec![], typ, value });
        expr::const_(n, vec![])
    }

    fn inductive(
        &mut self,
        text: &str,
        typ: Expr,
        num_params: u32,
        num_indices: u32,
        ctors: &[(&str, u32, Expr)],
        is_rec: bool,
    ) -> u32 {
        let n = self.id(text);
        let mut ids: Vec<u32> = vec![];
        for (i, (c, fields, ct)) in ctors.iter().enumerate() {
            let cid = self.id(c);
            self.env.insert(
                cid,
                ConstantInfo::Constructor {
                    level_params: vec![],
                    typ: ct.clone(),
                    induct: n,
                    cidx: i as u32,
                    num_params,
                    num_fields: *fields,
                    is_unsafe: false,
                },
            );
            ids.push(cid);
        }
        self.env.insert(
            n,
            ConstantInfo::InductiveType {
                level_params: vec![],
                typ,
                num_params,
                num_indices,
                all: vec![n],
                ctors: ids,
                is_rec,
                is_unsafe: false,
            },
        );
        n
    }

    fn checker(&self) -> Checker<'_> {
        let mut nat_id: Option<u32> = None;
        let mut string_id: Option<u32> = None;
        for (i, n) in self.names.iter().enumerate() {
            if n.as_str() == "Nat" {
                nat_id = Some(i as u32);
            }
            if n.as_str() == "String" {
                string_id = Some(i as u32);
            }
        }
        Checker::new(&self.env, &self.names, nat_id, string_id)
    }
}

fn prop() -> Expr {
    expr::sort(level::zero())
}

fn type0() -> Expr {
    expr::sort(level::succ(level::zero()))
}

fn arrow(a: Expr, b: Expr) -> Expr {
    expr::pi(BinderInfo::Default, a, b)
}

fn fun(a: Expr, b: Expr) -> Expr {
    expr::lam(BinderInfo::Default, a, b)
}

fn v(i: u32) -> Expr {
    expr::bvar(i)
}

fn call(f: &Expr, args: &[Expr]) -> Expr {
    expr::apps(f.clone(), &args.to_vec())
}

fn rejected<T>(r: R<T>, text: &str) {
    match r {
        Err(TcError::Reject(m)) => assert_eq!(m, text),
        Err(TcError::Decline(m)) => panic!("declined: {}", m),
        Err(TcError::Other(m)) => panic!("malformed: {}", m),
        Ok(_) => panic!("accepted, not rejected for: {}", text),
    }
}

fn declined<T>(r: R<T>, text: &str) {
    match r {
        Err(TcError::Decline(m)) => assert_eq!(m, text),
        Err(TcError::Reject(m)) => panic!("rejected: {}", m),
        Err(TcError::Other(m)) => panic!("malformed: {}", m),
        Ok(_) => panic!("accepted, not declined for: {}", text),
    }
}

fn malformed<T>(r: R<T>, text: &str) {
    match r {
        Err(TcError::Other(m)) => assert_eq!(m, text),
        Err(TcError::Reject(m)) => panic!("rejected: {}", m),
        Err(TcError::Decline(m)) => panic!("declined: {}", m),
        Ok(_) => panic!("accepted, not refused for: {}", text),
    }
}

fn u(p: u32) -> Level {
    level::param(p)
}

#[test]
fn levels_are_ordered_by_their_values() {
    let one = level::succ(level::zero());
    assert!(leq(&level::zero(), &u(0)));
    assert!(!leq(&u(0), &level::zero()));
    assert!(leq(&u(0), &level::max(u(0), u(1))));
    assert!(!leq(&level::max(u(0), u(1)), &u(0)));
    assert!(leq(&level::imax(u(0), u(1)), &level::max(u(0), u(1))));
    assert!(!leq(&level::max(u(0), u(1)), &level::imax(u(0), u(1))));
    assert!(level::is_def_eq(&level::imax(u(0), level::zero()), &level::zero()));
    assert!(level::is_def_eq(&level::imax(u(0), one.clone()), &level::max(u(0), one.clone())));
    assert!(level::is_def_eq(&level::max(u(0), u(1)), &level::max(u(1), u(0))));
    assert!(!level::is_def_eq(&level::succ(u(0)), &u(0)));
    assert!(level::is_not_zero(&one));
    assert!(!level::is_not_zero(&u(0)));
    assert!(!level::is_not_zero(&level::imax(one, u(0))));
}

#[test]
fn levels_are_substituted_and_printed() {
    let l = level::imax(level::succ(u(3)), level::max(u(4), u(5)));
    assert_eq!(pp_level(&l), "imax(u3+1,max(u4,u5))");
    let got = level::subst(&l, &vec![3, 4], &vec![level::zero(), u(9)]);
    assert_eq!(pp_level(&got), "imax(0+1,max(u9,u5))");
    let mut ids: Vec<u32> = vec![];
    level::collect_level_ids_level(&l, &mut ids);
    assert_eq!(ids, vec![3, 4, 5]);
}

#[test]
fn terms_are_printed() {
    let mut w = World::new();
    let f = w.con("f");
    let c = w.id("c");
    let tc = w.checker();
    let e = call(&f, &[v(0), call(&f, &[v(1)]), prop()]);
    assert_eq!(tc.pp(&e), "f #0 (f #1) Sort(0)");
    assert_eq!(tc.pp(&fun(prop(), v(0))), "(λ Sort(0). #0)");
    assert_eq!(tc.pp(&arrow(prop(), type0())), "(Π Sort(0). Sort(0+1))");
    assert_eq!(tc.pp(&expr::const_(c, vec![u(1), level::zero()])), "c .{u1,0}");
    assert_eq!(tc.pp(&expr::let_(prop(), v(1), v(0))), "(let Sort(0) := #1; #0)");
    assert_eq!(tc.pp(&expr::proj(c, 2, v(0))), "#0.2[c]");
    assert_eq!(tc.pp(&expr::lit_nat(Natural::from_u64(42))), "42");
    assert_eq!(tc.pp(&expr::lit_str("a\"b\n".to_string())), "\"a\\\"b\\n\"");
    assert_eq!(tc.pp_budget(&e, 1), "… … … …");
    assert_eq!(tc.pp_budget(&e, 0), "…");
    assert_eq!(tc.pp(&expr::const_(77, vec![])), "?");
}

#[test]
fn names_are_compared_by_their_last_parts() {
    assert!(named("Int.add", "Int.add"));
    assert!(named("Lean.Int.add", "Int.add"));
    assert!(!named("MyInt.add", "Int.add"));
    assert!(!named("Int.add'", "Int.add"));
    assert!(ends_qualified("A.b", "b"));
    assert!(!ends_qualified("b", "b"));
    assert_eq!(join("ab", "cd"), "abcd");
    assert!(is_int_linear_ident("Int.Linear.Poly.add", "Poly.add"));
    assert!(is_int_linear_ident("Poly.add", "Poly.add"));
    assert!(!is_int_linear_ident("Ring.Poly.add", "Poly.add"));
    assert!(is_commring_ident("Lean.Grind.CommRing.Expr.add", "Expr.add"));
    assert!(!is_commring_ident("Expr.add", "Expr.add"));
}

#[test]
fn variables_move_with_binders() {
    let e = fun(v(0), call(&v(0), &[v(1), v(2)]));
    let up = expr::shift(&e, 3, 0);
    assert!(rec_expr_eq(&up, &fun(v(3), call(&v(0), &[v(4), v(5)]))));
    let down = expr::shift(&up, -3, 0);
    assert!(rec_expr_eq(&down, &e));
    let above = expr::shift(&e, 3, 1);
    assert!(rec_expr_eq(&above, &fun(v(0), call(&v(0), &[v(1), v(5)]))));
    assert_eq!(expr::loose_bvar_range(&e), 2);
    assert!(!expr::is_closed(&e));
    assert!(expr::is_closed(&fun(prop(), v(0))));
    assert!(expr::occurs_bvar(&e, 0));
    assert!(expr::occurs_bvar(&e, 1));
    assert!(!expr::occurs_bvar(&e, 2));
    assert!(expr::has_bvar_in_range(&e, 1, 2, 0));
    assert!(!expr::has_bvar_in_range(&e, 2, 9, 0));
}

#[test]
fn a_variable_is_replaced() {
    let body = fun(prop(), call(&v(1), &[v(0), v(2)]));
    let got = expr::instantiate1(&body, &v(5));
    assert!(rec_expr_eq(&got, &fun(prop(), call(&v(6), &[v(0), v(1)]))));
    let closed = expr::instantiate1(&v(0), &prop());
    assert!(rec_expr_eq(&closed, &prop()));
    let same = expr::instantiate1(&prop(), &v(3));
    assert!(rec_expr_eq(&same, &prop()));
}

#[test]
fn spines_come_apart_and_together() {
    let f = fun(prop(), v(0));
    let args = vec![v(0), prop(), type0()];
    let e = expr::apps(f.clone(), &args);
    let (h, back) = expr::unfold_apps(&e);
    assert!(rec_expr_eq(&h, &f));
    assert_eq!(back.len(), 3);
    for i in 0..3 {
        assert!(rec_expr_eq(&back[i], &args[i]));
    }
    assert!(rec_expr_eq(expr::app_head(&e), &f));
}

#[test]
fn universe_parameters_are_instantiated() {
    let e = arrow(expr::sort(u(1)), expr::const_(3, vec![u(2), u(1)]));
    let got = expr::instantiate_level_params(&e, &vec![1], &vec![level::zero()]);
    assert!(rec_expr_eq(&got, &arrow(prop(), expr::const_(3, vec![u(2), level::zero()]))));
    let mut ids: Vec<u32> = vec![];
    expr::collect_level_ids_expr(&e, &mut ids);
    assert_eq!(ids, vec![1, 2]);
    let same = expr::instantiate_level_params(&e, &vec![], &vec![]);
    assert!(rec_expr_eq(&same, &e));
}

#[test]
fn applications_and_lets_reduce() {
    let mut w = World::new();
    let a = w.given("a", prop());
    let b = w.given("b", prop());
    let tc = w.checker();
    let empty = Ctx::new();
    let first = fun(prop(), fun(prop(), v(1)));
    assert!(rec_expr_eq(&tc.whnf(&empty, &call(&first, &[a.clone(), b.clone()])).unwrap(), &a));
    let e = expr::let_(prop(), b.clone(), v(0));
    assert!(rec_expr_eq(&tc.whnf(&empty, &e).unwrap(), &b));
}

#[test]
fn quotients_compute_on_classes() {
    let mut w = World::new();
    for (text, kind) in [
        ("Quot", QuotKind::Type),
        ("Quot.mk", QuotKind::Ctor),
        ("Quot.lift", QuotKind::Lift),
        ("Quot.ind", QuotKind::Ind),
    ] {
        let n = w.id(text);
        w.env.insert(n, ConstantInfo::Quot { level_params: vec![], typ: prop(), kind });
    }
    let (ty, r, x, b, f, h) = (w.con("A"), w.con("r"), w.con("x"), w.con("B"), w.con("f"), w.con("h"));
    let class = call(&w.con("Quot.mk"), &[ty.clone(), r.clone(), x.clone()]);
    let lift = w.con("Quot.lift");
    let ind = w.con("Quot.ind");
    let tc = w.checker();
    let empty = Ctx::new();
    let fx = call(&f, &[x.clone()]);
    let args = [ty.clone(), r.clone(), b.clone(), f.clone(), h.clone(), class.clone()];
    assert!(rec_expr_eq(&tc.whnf(&empty, &call(&lift, &args)).unwrap(), &fx));
    let more = call(&call(&lift, &args), &[h.clone()]);
    assert!(rec_expr_eq(&tc.whnf(&empty, &more).unwrap(), &call(&fx, &[h.clone()])));
    let e = call(&ind, &[ty.clone(), r.clone(), b.clone(), f.clone(), class]);
    assert!(rec_expr_eq(&tc.whnf(&empty, &e).unwrap(), &fx));
    let stuck = call(&lift, &[ty, r, b, f, h, x]);
    assert!(rec_expr_eq(&tc.whnf(&empty, &stuck).unwrap(), &stuck));
}

#[test]
fn structures_are_equal_to_their_fields() {
    let mut w = World::new();
    let a = w.given("A", type0());
    let pair = w.con("Pair");
    w.inductive(
        "Pair",
        type0(),
        0,
        0,
        &[("Pair.mk", 2, arrow(a.clone(), arrow(a, pair.clone())))],
        false,
    );
    let unit = w.con("Unit");
    w.inductive("Unit", type0(), 0, 0, &[("Unit.mk", 0, unit.clone())], false);
    let p = w.given("p", pair.clone());
    let q = w.given("q", pair);
    let s = w.given("s", unit.clone());
    let t = w.given("t", unit);
    let n = w.id("Pair");
    let mk = w.con("Pair.mk");
    let tc = w.checker();
    let empty = Ctx::new();
    let built = call(&mk, &[expr::proj(n, 0, p.clone()), expr::proj(n, 1, p.clone())]);
    assert!(tc.is_def_eq(&empty, &built, &p).unwrap());
    assert!(tc.is_def_eq(&empty, &p, &built).unwrap());
    assert!(!tc.is_def_eq(&empty, &q, &built).unwrap());
    assert!(!tc.is_def_eq(&empty, &p, &q).unwrap());
    assert!(tc.is_def_eq(&empty, &s, &t).unwrap());
}

#[test]
fn a_recursor_counts_a_literal_down() {
    let mut w = World::new();
    let t = w.con("Nat");
    w.inductive(
        "Nat",
        type0(),
        0,
        0,
        &[("Nat.zero", 0, t.clone()), ("Nat.succ", 1, arrow(t.clone(), t.clone()))],
        true,
    );
    let r = w.id("Nat.rec");
    let (zero, succ) = (w.id("Nat.zero"), w.id("Nat.succ"));
    let rule = |ctor: u32, nfields: u32| RecRule { ctor, nfields, rhs: v(0) };
    w.env.insert(
        r,
        ConstantInfo::Recursor {
            level_params: vec![],
            typ: type0(),
            all: vec![0],
            num_params: 0,
            num_indices: 0,
            num_motives: 1,
            num_minors: 2,
            rules: vec![rule(zero, 0), rule(succ, 1)],
            k: false,
            is_unsafe: false,
        },
    );
    w.env.set_rec_of(0, r);
    let lit = |n: u64| expr::lit_nat(Natural::from_u64(n));
    let motive = fun(t.clone(), t.clone());
    let step = fun(t.clone(), fun(t, call(&expr::const_(succ, vec![]), &[v(0)])));
    let next = |n: u64| {
        call(&expr::const_(r, vec![]), &[motive.clone(), lit(1), step.clone(), lit(n)])
    };
    let tc = w.checker();
    let empty = Ctx::new();
    assert!(tc.is_def_eq(&empty, &next(10), &lit(11)).unwrap());
    assert!(tc.is_def_eq(&empty, &next(7), &lit(8)).unwrap());
    assert!(!tc.is_def_eq(&empty, &next(7), &lit(9)).unwrap());
}

#[test]
fn definitions_near_an_equation_are_found() {
    let mut w = World::new();
    let eq = w.con("Eq");
    w.inductive(
        "Eq",
        arrow(type0(), arrow(v(0), arrow(v(1), prop()))),
        2,
        1,
        &[("Eq.refl", 0, arrow(type0(), arrow(v(0), call(&eq, &[v(1), v(0), v(0)]))))],
        false,
    );
    let a = w.given("A", type0());
    let base = w.given("base", a.clone());
    let deep = w.define("deep", a.clone(), base);
    let left = w.define("left", a.clone(), deep.clone());
    let right = w.given("right", a.clone());
    let (dn, ln) = (w.id("deep"), w.id("left"));
    let tc = w.checker();
    let mut out: Vec<u32> = vec![];
    let heads = tc.fill_eq_related_defs(&call(&eq, &[a.clone(), left.clone(), right.clone()]), &mut out);
    assert_eq!(heads, vec![ln]);
    assert_eq!(out, vec![ln, dn]);
    let mut out: Vec<u32> = vec![];
    assert!(tc.fill_eq_related_defs(&a, &mut out).is_empty());
    assert!(out.is_empty());
    assert_eq!(tc.collect_def_consts(&call(&left, &[deep, right])), vec![dn, ln]);
}

#[test]
fn normal_forms_come_back_from_evaluation() {
    let mut w = World::new();
    let f = w.given("f", arrow(prop(), arrow(prop(), prop())));
    let s = w.id("S");
    let tc = w.checker();
    let m = Mode::start();
    let inner = arrow(prop(), call(&v(0), &[v(1), v(3)]));
    let e = fun(prop(), call(&f, &[expr::proj(s, 1, v(0)), inner]));
    let value = tc.eval_at(tc.budget, m, &generic_env(2), &e).unwrap();
    let back = tc.quote_at(tc.budget, m, 2, &value).unwrap();
    assert!(rec_expr_eq(&back, &e));
    let redex = call(&fun(prop(), v(0)), &[v(1)]);
    let value = tc.eval_at(tc.budget, m, &generic_env(2), &redex).unwrap();
    let back = tc.quote_at(tc.budget, m, 2, &value).unwrap();
    assert!(rec_expr_eq(&back, &v(1)));
    malformed(tc.eval_at(tc.budget, m, &generic_env(2), &v(2)), "nbe: bvar out of range");
}

#[test]
fn the_environment_gives_back_what_it_was_given() {
    let mut w = World::new();
    let p = w.given("P", prop());
    let d = w.define("d", type0(), prop());
    assert!(rec_expr_eq(w.env.get(0).unwrap().typ(), &prop()));
    assert!(w.env.get(0).unwrap().value().is_none());
    assert!(rec_expr_eq(w.env.get(1).unwrap().value().unwrap(), &prop()));
    assert!(w.env.get(2).is_none());
    w.env.set_rec_group(5, vec![5, 6]);
    w.env.set_rec_of(0, 5);
    assert_eq!(w.env.recursor_group(5), vec![5, 6]);
    assert_eq!(w.env.recursor_of(0), Some(5));
    assert_eq!(w.env.recursor_of(1), None);
    let tc = w.checker();
    assert!(rec_expr_eq(tc.const_typ(1).unwrap(), &type0()));
    assert!(tc.const_typ(9).is_none());
    assert!(!tc.def_is_packed_structure(1));
    assert!(rec_expr_eq(&tc.unfold_def(1, &vec![]).unwrap(), &prop()));
    assert!(tc.is_def_eq(&Ctx::new(), &d, &prop()).unwrap());
    assert!(!tc.is_def_eq(&Ctx::new(), &p, &d).unwrap());
}

#[test]
fn a_fieldless_constructor_is_not_a_term_of_another_type() {
    let mut w = World::new();
    let unit = w.con("U");
    w.inductive("U", type0(), 0, 0, &[("unit", 0, unit.clone())], false);
    let a = w.given("A", type0());
    let c = w.given("c", a);
    let d = w.given("d", unit);
    let made = w.con("unit");
    let tc = w.checker();
    let empty = Ctx::new();
    let m = Mode::start();
    assert!(!tc.try_struct_eta(tc.budget, m, &empty, &made, &c).unwrap());
    assert!(tc.try_struct_eta(tc.budget, m, &empty, &made, &d).unwrap());
    assert!(!tc.is_def_eq(&empty, &made, &c).unwrap());
    assert!(tc.is_def_eq(&empty, &made, &d).unwrap());
}

#[test]
fn a_verdict_is_given_again_in_either_order() {
    let mut w = World::new();
    let p = w.given("P", prop());
    let a = w.given("a", p.clone());
    let b = w.given("b", p.clone());
    let tc = w.checker();
    let empty = Ctx::new();
    let mut seen = Verdicts::new();
    assert_eq!(seen.defeq_cache_get(&empty, &a, &b), None);
    assert!(tc.is_def_eq_recalling(&mut seen, &empty, &a, &b).unwrap());
    assert_eq!(seen.defeq_cache_get(&empty, &b, &a), Some(true));
    assert!(tc.is_def_eq_recalling(&mut seen, &empty, &b, &a).unwrap());
    assert!(!tc.is_def_eq_recalling(&mut seen, &empty, &a, &p).unwrap());
    assert_eq!(seen.defeq_cache_get(&empty, &p, &a), Some(false));
    let mut inner = Ctx::new();
    inner.push(p.clone());
    assert_eq!(seen.defeq_cache_get(&inner, &a, &b), None);
    seen.defeq_cache_insert(&inner, &a, &b, false);
    assert!(!tc.is_def_eq_recalling(&mut seen, &inner, &b, &a).unwrap());
}

#[test]
fn universe_parameters_are_collected_once() {
    let e = arrow(expr::sort(u(4)), expr::const_(3, vec![u(2), u(4), level::max(u(7), u(2))]));
    let mut ids: Vec<u32> = vec![7];
    expr::collect_level_ids_expr(&e, &mut ids);
    assert_eq!(ids, vec![7, 4, 2]);
    expr::collect_level_ids_expr(&e, &mut ids);
    assert_eq!(ids, vec![7, 4, 2]);
    let mut twice: Vec<u32> = vec![9, 9];
    expr::collect_level_ids_expr(&e, &mut twice);
    assert_eq!(twice, vec![9, 9, 4, 2, 7]);
}

#[test]
fn applications_of_a_variable_into_a_unit_type_are_the_same() {
    let mut w = World::new();
    let unit = w.con("Unit");
    w.inductive("Unit", type0(), 0, 0, &[("Unit.mk", 0, unit.clone())], false);
    let a = w.given("A", type0());
    let x = w.given("x", a.clone());
    let y = w.given("y", a.clone());
    let tc = w.checker();
    let mut ctx = Ctx::new();
    ctx.push(arrow(a.clone(), unit));
    assert!(tc.is_def_eq(&ctx, &call(&v(0), &[x.clone()]), &call(&v(0), &[y.clone()])).unwrap());
    let mut data = Ctx::new();
    data.push(arrow(a.clone(), a));
    let (fx, fy) = (call(&v(0), &[x]), call(&v(0), &[y]));
    assert!(!tc.is_def_eq(&data, &fx, &fy).unwrap());
    let m = Mode::start();
    assert_eq!(tc.iterated_app_congruent(tc.budget, m, &data, &fx, &fy).unwrap(), None);
    assert_eq!(tc.iterated_app_congruent(tc.budget, m, &data, &fx, &fx).unwrap(), Some(true));
}

#[test]
fn a_constructor_may_be_a_proof_at_the_lowest_universe() {
    let mut w = World::new();
    let (n, c) = (w.id("PUnit"), w.id("PUnit.unit"));
    w.env.insert(
        n,
        ConstantInfo::InductiveType {
            level_params: vec![4],
            typ: expr::sort(u(4)),
            num_params: 0,
            num_indices: 0,
            all: vec![n],
            ctors: vec![c],
            is_rec: false,
            is_unsafe: false,
        },
    );
    w.env.insert(
        c,
        ConstantInfo::Constructor {
            level_params: vec![4],
            typ: expr::const_(n, vec![u(4)]),
            induct: n,
            cidx: 0,
            num_params: 0,
            num_fields: 0,
            is_unsafe: false,
        },
    );
    let tc = w.checker();
    assert!(!tc.obviously_not_proof(&expr::const_(c, vec![level::zero()])));
    assert!(!tc.obviously_not_proof(&expr::const_(c, vec![u(9)])));
    assert!(tc.obviously_not_proof(&expr::const_(c, vec![level::succ(u(9))])));
    assert!(tc.obviously_not_proof(&expr::const_(n, vec![level::zero()])));
}

#[test]
fn a_constant_under_declaration_does_not_unfold() {
    let mut w = World::new();
    let p = w.given("P", prop());
    let h = w.given("h", p.clone());
    w.theorem("t", p.clone(), h);
    w.define("d", prop(), p);
    let mut tc = w.checker();
    for n in [2, 3] {
        assert!(tc.is_delta_reducible(n));
        assert!(tc.unfold_delta(n, &vec![], true).is_some());
        tc.declaring = Some(n);
        assert!(!tc.is_delta_reducible(n));
        assert!(tc.unfold_delta(n, &vec![], true).is_none());
        tc.declaring = None;
    }
}

#[test]
fn head_normal_forms_are_remembered_by_scope_and_mode() {
    let mut w = World::new();
    let a = w.given("A", type0());
    let x = w.given("x", a.clone());
    let y = w.given("y", a.clone());
    let b = w.define("b", a.clone(), x.clone());
    let other = {
        let mut o = World::new();
        let a2 = o.given("A", type0());
        o.given("x", a2.clone());
        o.given("y", a2.clone());
        o.define("b", a2, y.clone());
        o
    };
    let tc = w.checker();
    let m = Mode::start();
    let empty = Ctx::new();
    let mut seen = Memory::new();
    assert!(rec_expr_eq(&tc.whnf_recalling(&mut seen, m, &empty, &b).unwrap(), &x));
    let elsewhere = other.checker();
    assert!(rec_expr_eq(&elsewhere.whnf(&empty, &b).unwrap(), &y));
    assert!(rec_expr_eq(&elsewhere.whnf_recalling(&mut seen, m, &empty, &b).unwrap(), &x));
    let mut inner = Ctx::new();
    inner.push(a);
    assert!(rec_expr_eq(&elsewhere.whnf_recalling(&mut seen, m, &inner, &b).unwrap(), &y));
    let eager = Mode { eager: true, ..m };
    assert!(rec_expr_eq(&elsewhere.whnf_recalling(&mut seen, eager, &empty, &b).unwrap(), &y));
    assert!(rec_expr_eq(&elsewhere.whnf_recalling(&mut seen, eager, &empty, &b).unwrap(), &y));
}

#[test]
fn an_unchecked_type_does_not_answer_a_checking_question() {
    let mut w = World::new();
    let a = w.given("A", type0());
    let p = w.given("P", type0());
    let f = w.given("f", arrow(a.clone(), a.clone()));
    let x = w.given("x", a.clone());
    let h = w.given("h", p);
    let tc = w.checker();
    let m = Mode::start();
    let empty = Ctx::new();
    let mut seen = Memory::new();
    let bad = call(&f, &[h]);
    let quick = m.inferring();
    assert!(rec_expr_eq(&tc.infer_type_cached(&mut seen, quick, &empty, &bad).unwrap(), &a));
    assert!(tc.infer_type_cached(&mut seen, m, &empty, &bad).is_err());
    assert!(rec_expr_eq(&tc.infer_type_cached(&mut seen, quick, &empty, &bad).unwrap(), &a));
    let good = call(&f, &[x]);
    assert!(rec_expr_eq(&tc.infer_type_cached(&mut seen, quick, &empty, &good).unwrap(), &a));
    assert!(rec_expr_eq(&tc.infer_type_cached(&mut seen, m, &empty, &good).unwrap(), &a));
    let blank = World::new();
    let nothing = blank.checker();
    assert!(nothing.infer_type(&empty, &good).is_err());
    assert!(rec_expr_eq(&nothing.infer_type_cached(&mut seen, m, &empty, &good).unwrap(), &a));
    assert!(nothing.infer_type_cached(&mut seen, m, &empty, &bad).is_err());
}
