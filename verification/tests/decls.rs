use kiota::ctx::Ctx;
use kiota::env::{ConstantInfo, Environment, ReducibilityHints};
use kiota::errors::{TcError, R};
use kiota::expr::{rec_expr_eq, BinderInfo, Expr, ExprData};
use kiota::expr;
use kiota::infer::collect_proj_indices;
use kiota::kernel::{Budget, Checker, Mode};
use kiota::level;
use kiota::num::Natural;
use std::rc::Rc;

/// An environment together with the names of its constants.
struct World {
    env: Environment,
    names: Vec<Rc<String>>,
}

impl World {
    fn new() -> World {
        World { env: Environment::new(), names: vec![] }
    }

    fn id(&mut self, text: &str) -> u32 {
        for (i, n) in self.names.iter().enumerate() {
            if n.as_str() == text {
                return i as u32;
            }
        }
        self.names.push(Rc::new(text.to_string()));
        (self.names.len() - 1) as u32
    }

    fn con(&mut self, text: &str) -> Expr {
        let n = self.id(text);
        expr::const_(n, vec![])
    }

    fn given(&mut self, text: &str, typ: Expr) -> Expr {
        let n = self.id(text);
        self.env.insert(n, ConstantInfo::Axiom { level_params: vec![], typ, is_unsafe: false });
        expr::const_(n, vec![])
    }

    fn define(&mut self, text: &str, typ: Expr, value: Expr) -> Expr {
        let n = self.id(text);
        self.env.insert(
            n,
            ConstantInfo::Def {
                level_params: vec![],
                typ,
                value,
                hints: ReducibilityHints::Regular(1),
                is_unsafe: false,
            },
        );
        expr::const_(n, vec![])
    }

    fn theorem(&mut self, text: &str, typ: Expr, value: Expr) -> Expr {
        let n = self.id(text);
        self.env.insert(n, ConstantInfo::Theorem { level_params: vec![], typ, value });
        expr::const_(n, vec![])
    }

    fn inductive(
        &mut self,
        text: &str,
        typ: Expr,
        num_params: u32,
        num_indices: u32,
        ctors: &[(&str, u32, Expr)],
        is_rec: bool,
    ) -> u32 {
        let n = self.id(text);
        let mut ids: Vec<u32> = vec![];
        for (i, (c, fields, ct)) in ctors.iter().enumerate() {
            let cid = self.id(c);
            self.env.insert(
                cid,
                ConstantInfo::Constructor {
                    level_params: vec![],
                    typ: ct.clone(),
                    induct: n,
                    cidx: i as u32,
                    num_params,
                    num_fields: *fields,
                    is_unsafe: false,
                },
            );
            ids.push(cid);
        }
        self.env.insert(
            n,
            ConstantInfo::InductiveType {
                level_params: vec![],
                typ,
                num_params,
                num_indices,
                all: vec![n],
                ctors: ids,
                is_rec,
                is_unsafe: false,
            },
        );
        n
    }

    fn checker(&self) -> Checker<'_> {
        let mut nat_id: Option<u32> = None;
        let mut string_id: Option<u32> = None;
        for (i, n) in self.names.iter().enumerate() {
            if n.as_str() == "Nat" {
                nat_id = Some(i as u32);
            }
            if n.as_str() == "String" {
                string_id = Some(i as u32);
            }
        }
        Checker::new(&self.env, &self.names, nat_id, string_id)
    }
}

fn prop() -> Expr {
    expr::sort(level::zero())
}

fn type0() -> Expr {
    expr::sort(level::succ(level::zero()))
}

fn arrow(a: Expr, b: Expr) -> Expr {
    expr::pi(BinderInfo::Default, a, b)
}

fn fun(a: Expr, b: Expr) -> Expr {
    expr::lam(BinderInfo::Default, a, b)
}

fn v(i: u32) -> Expr {
    expr::bvar(i)
}

fn call(f: &Expr, args: &[Expr]) -> Expr {
    expr::apps(f.clone(), &args.to_vec())
}

fn rejected<T>(r: R<T>, text: &str) {
    match r {
        Err(TcError::Reject(m)) => assert_eq!(m, text),
        Err(TcError::Decline(m)) => panic!("declined: {}", m),
        Err(TcError::Other(m)) => panic!("malformed: {}", m),
        Ok(_) => panic!("accepted, not rejected for: {}", text),
    }
}

fn declined<T>(r: R<T>, text: &str) {
    match r {
        Err(TcError::Decline(m)) => assert_eq!(m, text),
        Err(TcError::Reject(m)) => panic!("rejected: {}", m),
        Err(TcError::Other(m)) => panic!("malformed: {}", m),
        Ok(_) => panic!("accepted, not declined for: {}", text),
    }
}

fn malformed<T>(r: R<T>, text: &str) {
    match r {
        Err(TcError::Other(m)) => assert_eq!(m, text),
        Err(TcError::Reject(m)) => panic!("rejected: {}", m),
        Err(TcError::Decline(m)) => panic!("declined: {}", m),
        Ok(_) => panic!("accepted, not refused for: {}", text),
    }
}

#[test]
fn a_polymorphic_identity_is_accepted() {
    let mut w = World::new();
    let n = w.id("id");
    let u = expr::sort(level::param(0));
    w.env.insert(
        n,
        ConstantInfo::Def {
            level_params: vec![0],
            typ: arrow(u.clone(), arrow(v(0), v(1))),
            value: fun(u, fun(v(0), v(0))),
            hints: ReducibilityHints::Abbrev,
            is_unsafe: false,
        },
    );
    let tc = w.checker();
    assert!(tc.check_decl(n, "def").is_ok());
    let id_prop = expr::const_(n, vec![level::succ(level::zero())]);
    let t = tc.infer_type(&Ctx::new(), &id_prop).unwrap();
    assert!(rec_expr_eq(&t, &arrow(type0(), arrow(v(0), v(1)))));
}

#[test]
fn a_missing_constant_is_malformed() {
    let w = World::new();
    malformed(w.checker().check_decl(7, "def"), "missing const 7");
    malformed(
        w.checker().infer_type(&Ctx::new(), &expr::const_(12, vec![])),
        "unknown const 12",
    );
}

#[test]
fn a_repeated_universe_parameter_is_rejected() {
    let mut w = World::new();
    let n = w.id("a");
    w.env.insert(
        n,
        ConstantInfo::Axiom { level_params: vec![3, 4, 3], typ: prop(), is_unsafe: false },
    );
    rejected(w.checker().check_decl(n, "axiom"), "axiom 0: duplicate universe parameter");
}

#[test]
fn a_theorem_states_a_proposition() {
    let mut w = World::new();
    let p = w.given("P", prop());
    w.given("h", p.clone());
    w.theorem("good", p.clone(), expr::const_(1, vec![]));
    w.theorem("bad", prop(), p);
    let tc = w.checker();
    assert!(tc.check_decl(2, "theorem").is_ok());
    rejected(tc.check_decl(3, "theorem"), "theorem 3: theorem type is not a Prop");
    assert!(tc.check_decl(3, "def").is_ok());
}

#[test]
fn a_value_has_the_declared_type() {
    let mut w = World::new();
    w.define("x", prop(), prop());
    rejected(
        w.checker().check_decl(0, "def"),
        "def 0: value type does not match declared type",
    );
    let mut w = World::new();
    w.define("x", type0(), prop());
    assert!(w.checker().check_decl(0, "def").is_ok());
}

#[test]
fn a_declaration_cannot_refer_to_itself() {
    let mut w = World::new();
    let x = w.con("loop");
    w.define("loop", prop(), x.clone());
    rejected(
        w.checker().check_decl(0, "def"),
        "`loop` refers to itself; it is not in the environment until it is checked",
    );
    let t = w.checker().infer_type(&Ctx::new(), &x).unwrap();
    assert!(rec_expr_eq(&t, &prop()));
}

#[test]
fn universe_arguments_are_counted() {
    let mut w = World::new();
    w.given("P", prop());
    rejected(
        w.checker().infer_type(&Ctx::new(), &expr::const_(0, vec![level::zero()])),
        "universe param count mismatch",
    );
}

#[test]
fn literals_need_their_types() {
    let w = World::new();
    let tc = w.checker();
    let empty = Ctx::new();
    declined(
        tc.infer_type(&empty, &expr::lit_nat(Natural::from_u64(3))),
        "Nat literal used but Nat type unavailable",
    );
    declined(
        tc.infer_type(&empty, &expr::lit_str("a".to_string())),
        "String literal used but String type unavailable",
    );
    let mut w = World::new();
    let nat_ty = w.given("Nat", type0());
    let string_ty = w.given("String", type0());
    let tc = w.checker();
    let a = tc.infer_type(&empty, &expr::lit_nat(Natural::from_u64(3))).unwrap();
    let b = tc.infer_type(&empty, &expr::lit_str("a".to_string())).unwrap();
    assert!(rec_expr_eq(&a, &nat_ty));
    assert!(rec_expr_eq(&b, &string_ty));
}

#[test]
fn a_type_is_needed_where_a_type_stands() {
    let mut w = World::new();
    let p = w.given("P", prop());
    let h = w.given("h", p.clone());
    w.given("bad", h.clone());
    let tc = w.checker();
    rejected(tc.check_decl(2, "axiom"), "expected a sort");
    rejected(tc.infer_type(&Ctx::new(), &fun(h, v(0))), "expected a sort");
    rejected(tc.infer_type(&Ctx::new(), &call(&p, &[prop()])), "expected a function type");
}

#[test]
fn arguments_and_let_values_are_checked() {
    let mut w = World::new();
    let p = w.given("P", prop());
    let h = w.given("h", p.clone());
    let tc = w.checker();
    let empty = Ctx::new();
    let id_prop = fun(prop(), v(0));
    assert!(rec_expr_eq(&tc.infer_type(&empty, &call(&id_prop, &[p.clone()])).unwrap(), &prop()));
    rejected(
        tc.infer_type(&empty, &call(&id_prop, &[h.clone()])),
        "application argument type mismatch",
    );
    let fine = expr::let_(prop(), p.clone(), fun(v(0), v(0)));
    let t = tc.infer_type(&empty, &fine).unwrap();
    assert!(rec_expr_eq(&t, &arrow(p.clone(), p.clone())));
    rejected(
        tc.infer_type(&empty, &expr::let_(prop(), h, v(0))),
        "let value type mismatch",
    );
    malformed(tc.infer_type(&empty, &v(0)), "bvar out of range");
}

#[test]
fn a_product_into_propositions_is_a_proposition() {
    let mut w = World::new();
    let p = w.given("P", prop());
    let tc = w.checker();
    let empty = Ctx::new();
    let t = tc.infer_type(&empty, &arrow(type0(), p.clone())).unwrap();
    let ExprData::Sort(l) = t.data() else { panic!("not a sort") };
    assert!(level::is_def_eq(l, &level::zero()));
    let t = tc.infer_type(&empty, &arrow(p, prop())).unwrap();
    let ExprData::Sort(l) = t.data() else { panic!("not a sort") };
    assert!(level::is_def_eq(l, &level::succ(level::zero())));
}

#[test]
fn projections_are_checked() {
    let mut w = World::new();
    let a = w.given("A", type0());
    let x = w.given("x", a.clone());
    let pair = w.con("Pair");
    w.inductive(
        "Pair",
        type0(),
        0,
        0,
        &[("Pair.mk", 2, arrow(a.clone(), arrow(a.clone(), pair.clone())))],
        false,
    );
    let two = w.con("Two");
    w.inductive("Two", type0(), 0, 0, &[("Two.a", 0, two.clone()), ("Two.b", 0, two.clone())], false);
    let p = w.id("Pair");
    let t2 = w.id("Two");
    let mk = w.con("Pair.mk");
    let b = w.con("Two.a");
    let tc = w.checker();
    let empty = Ctx::new();
    let it = call(&mk, &[x.clone(), x.clone()]);
    let t = tc.infer_type(&empty, &expr::proj(p, 1, it.clone())).unwrap();
    assert!(rec_expr_eq(&t, &a));
    assert!(rec_expr_eq(&tc.whnf(&empty, &expr::proj(p, 1, it.clone())).unwrap(), &x));
    rejected(
        tc.infer_type(&empty, &expr::proj(p, 2, it.clone())),
        "projection index out of range",
    );
    rejected(
        tc.infer_type(&empty, &expr::proj(t2, 0, it)),
        "projection struct name mismatch",
    );
    rejected(
        tc.infer_type(&empty, &expr::proj(t2, 0, b)),
        "projection: not a single-constructor inductive",
    );
    rejected(
        tc.infer_type(&empty, &expr::proj(p, 0, x)),
        "projection struct name mismatch",
    );
    rejected(
        tc.infer_type(&empty, &expr::proj(p, 0, fun(a.clone(), v(0)))),
        "projection of non-inductive value",
    );
}

#[test]
fn data_is_not_projected_out_of_a_proposition() {
    let mut w = World::new();
    let a = w.given("A", type0());
    let q = w.given("Q", arrow(a.clone(), prop()));
    let ex = w.con("Ex");
    w.inductive(
        "Ex",
        prop(),
        0,
        0,
        &[("Ex.mk", 2, arrow(a.clone(), arrow(call(&q, &[v(0)]), ex.clone())))],
        false,
    );
    let h = w.given("h", ex);
    let n = w.id("Ex");
    let tc = w.checker();
    let empty = Ctx::new();
    rejected(
        tc.infer_type(&empty, &expr::proj(n, 0, h.clone())),
        "cannot project a Type field from a Prop structure",
    );
    rejected(
        tc.infer_type(&empty, &expr::proj(n, 1, h)),
        "cannot project a Prop field that comes after a dependent data field",
    );
}

#[test]
fn proofs_of_one_proposition_are_the_same_and_data_is_not() {
    let mut w = World::new();
    let p = w.given("P", prop());
    let a = w.given("A", type0());
    let h = w.given("h", p.clone());
    let g = w.given("g", p);
    let x = w.given("x", a.clone());
    let y = w.given("y", a);
    let tc = w.checker();
    let empty = Ctx::new();
    assert!(tc.is_def_eq(&empty, &h, &g).unwrap());
    assert!(!tc.is_def_eq(&empty, &x, &y).unwrap());
    assert!(!tc.is_def_eq(&empty, &h, &x).unwrap());
}

#[test]
fn functions_are_equal_to_their_expansions() {
    let mut w = World::new();
    let a = w.given("A", type0());
    let f = w.given("f", arrow(a.clone(), a.clone()));
    let g = w.given("g", arrow(a.clone(), a.clone()));
    let tc = w.checker();
    let empty = Ctx::new();
    let expanded = fun(a.clone(), call(&f, &[v(0)]));
    assert!(tc.is_def_eq(&empty, &f, &expanded).unwrap());
    assert!(tc.is_def_eq(&empty, &expanded, &f).unwrap());
    assert!(!tc.is_def_eq(&empty, &g, &expanded).unwrap());
}

#[test]
fn sorts_compare_by_their_levels() {
    let w = World::new();
    let tc = w.checker();
    let empty = Ctx::new();
    let u = level::param(0);
    let a = expr::sort(level::max(u.clone(), level::zero()));
    let b = expr::sort(u.clone());
    assert!(tc.is_def_eq(&empty, &a, &b).unwrap());
    assert!(!tc.is_def_eq(&empty, &a, &expr::sort(level::succ(u))).unwrap());
}

#[test]
fn without_budget_every_judgement_declines() {
    let w = World::new();
    let mut tc = w.checker();
    tc.budget = Budget { whnf: 0, core: 0, infer: 0, defeq: 0, rest: 0 };
    let empty = Ctx::new();
    declined(tc.whnf(&empty, &prop()), "WHNF depth limit");
    declined(tc.infer_type(&empty, &prop()), "infer_type depth limit");
    declined(tc.is_def_eq(&empty, &prop(), &prop()), "defeq depth limit");
}

#[test]
fn theorems_unfold_only_where_they_may() {
    let mut w = World::new();
    let p = w.given("P", prop());
    let h = w.given("h", p.clone());
    let t = w.theorem("t", p, h.clone());
    let mut tc = w.checker();
    let empty = Ctx::new();
    assert!(rec_expr_eq(&tc.whnf(&empty, &t).unwrap(), &t));
    assert!(!tc.eager_whnf_unfolds(2));
    assert!(tc.is_delta_reducible(2));
    let got = tc.unfold_delta(2, &vec![], true).unwrap();
    assert!(rec_expr_eq(&got, &h));
    assert!(tc.unfold_delta(2, &vec![], false).is_none());
    tc.theorem_delta = false;
    assert!(!tc.is_delta_reducible(2));
    assert!(tc.unfold_delta(2, &vec![], true).is_none());
}

#[test]
fn evaluation_and_reduction_agree_on_a_declaration() {
    let mut w = World::new();
    let p = w.given("P", prop());
    let h = w.given("h", p.clone());
    let twice = fun(prop(), fun(arrow(v(0), v(1)), fun(v(1), call(&v(1), &[call(&v(1), &[v(0)])]))));
    let typ = arrow(prop(), arrow(arrow(v(0), v(1)), arrow(v(1), v(2))));
    w.define("twice", typ, twice);
    let value = call(&w.con("twice"), &[p.clone(), fun(p.clone(), v(0)), h]);
    w.define("use", p, value);
    let mut tc = w.checker();
    assert!(tc.check_decl(2, "def").is_ok());
    assert!(tc.check_decl(3, "def").is_ok());
    tc.nbe = true;
    assert!(tc.check_decl(2, "def").is_ok());
    assert!(tc.check_decl(3, "def").is_ok());
}

#[test]
fn a_verbose_checker_shows_both_sides() {
    let mut w = World::new();
    let p = w.given("P", prop());
    let h = w.given("h", p.clone());
    let q = w.define("Q", prop(), p);
    w.define("x", q, prop());
    let mut tc = w.checker();
    tc.verbose = true;
    let bad = call(&fun(prop(), v(0)), &[h]);
    rejected(
        tc.infer_type(&Ctx::new(), &bad),
        "application argument type mismatch\n  got:      P\n  expected: Sort(0)\n  got_whnf: P\n  exp_whnf: Sort(0)\n  fun:      (λ Sort(0). #0)\n  arg:      h",
    );
    rejected(
        tc.check_decl(3, "def"),
        "def 3: value type does not match declared type\n  got:      Sort(0+1)\n  expected: Q\n  got_whnf: Sort(0+1)\n  exp_whnf: P\n  eager_vt: Sort(0+1)",
    );
    tc.print_budget = 1;
    tc.nbe = true;
    rejected(
        tc.infer_type(&Ctx::new(), &bad),
        "application argument type mismatch (nbe)\n  got:      P\n  expected: Sort(0)\n  eager_at: P\n  fun:      (λ …. …)\n  arg:      h",
    );
}

#[test]
fn the_budget_for_inference_is_for_evaluation() {
    let mut w = World::new();
    let p = w.given("P", prop());
    let mut tc = w.checker();
    tc.budget.infer = 0;
    let empty = Ctx::new();
    assert!(rec_expr_eq(&tc.infer_type(&empty, &p).unwrap(), &prop()));
    tc.nbe = true;
    declined(tc.infer_type(&empty, &p), "infer_type depth limit");
}

#[test]
fn evaluation_leaves_the_verdict_to_reduction() {
    let mut w = World::new();
    let a = w.given("A", type0());
    let f = w.given("f", arrow(a.clone(), a.clone()));
    let g = w.given("g", arrow(a.clone(), a.clone()));
    let mut tc = w.checker();
    tc.nbe = true;
    let empty = Ctx::new();
    let expanded = fun(a, call(&f, &[v(0)]));
    assert!(tc.is_def_eq(&empty, &f, &expanded).unwrap());
    assert!(!tc.is_def_eq(&empty, &g, &expanded).unwrap());
}

#[test]
fn an_indexed_proposition_lacking_an_index_is_none() {
    let mut w = World::new();
    let a = w.given("A", type0());
    let x = w.given("x", a.clone());
    let eq = w.con("Eq");
    w.inductive(
        "Eq",
        arrow(type0(), arrow(v(0), arrow(v(1), prop()))),
        2,
        1,
        &[("Eq.refl", 0, arrow(type0(), arrow(v(0), call(&eq, &[v(1), v(0), v(0)]))))],
        false,
    );
    let tc = w.checker();
    let empty = Ctx::new();
    let m = Mode::start();
    let full = call(&eq, &[a.clone(), x.clone(), x.clone()]);
    assert!(tc.is_prop_at(tc.budget, m, &empty, &full).unwrap());
    assert!(!tc.is_prop_at(tc.budget, m, &empty, &call(&eq, &[a, x])).unwrap());
}

#[test]
fn a_data_field_counts_where_it_is_used_below_a_binder() {
    let mut w = World::new();
    let n = w.given("N", type0());
    let p = w.given("P", arrow(n.clone(), prop()));
    let s = w.con("S");
    let below = arrow(n.clone(), call(&p, &[v(1)]));
    w.inductive(
        "S",
        prop(),
        0,
        0,
        &[("S.mk", 2, arrow(n.clone(), arrow(below, s.clone())))],
        false,
    );
    let free = w.con("F");
    let unused = arrow(n.clone(), call(&p, &[v(0)]));
    w.inductive(
        "F",
        prop(),
        0,
        0,
        &[("F.mk", 2, arrow(n.clone(), arrow(unused.clone(), free.clone())))],
        false,
    );
    let (sid, fid) = (w.id("S"), w.id("F"));
    let tc = w.checker();
    let mut ctx = Ctx::new();
    ctx.push(s);
    rejected(
        tc.infer_type(&ctx, &expr::proj(sid, 1, v(0))),
        "cannot project a Prop field that comes after a dependent data field",
    );
    ctx.push(free);
    rejected(
        tc.infer_type(&ctx, &expr::proj(sid, 1, v(1))),
        "cannot project a Prop field that comes after a dependent data field",
    );
    let t = tc.infer_type(&ctx, &expr::proj(fid, 1, v(0))).unwrap();
    assert!(rec_expr_eq(&t, &unused));
}

#[test]
fn projections_of_a_value_are_found_below_binders() {
    let mut w = World::new();
    let n = w.con("N");
    let found = |e: &Expr, val: &Expr| {
        let mut out: Vec<u32> = vec![];
        collect_proj_indices(e, 7, val, &mut out);
        out
    };
    let none: Vec<u32> = vec![];
    assert_eq!(found(&expr::proj(7, 2, v(0)), &v(0)), vec![2]);
    assert_eq!(found(&expr::proj(8, 2, v(0)), &v(0)), none);
    for wrap in [arrow as fn(Expr, Expr) -> Expr, fun] {
        assert_eq!(found(&wrap(n.clone(), expr::proj(7, 3, v(1))), &v(0)), vec![3]);
        assert_eq!(found(&wrap(n.clone(), expr::proj(7, 3, v(0))), &v(0)), none);
        assert_eq!(found(&wrap(expr::proj(7, 1, v(0)), v(0)), &v(0)), vec![1]);
        let twice = wrap(n.clone(), wrap(n.clone(), expr::proj(7, 4, v(2))));
        assert_eq!(found(&twice, &v(0)), vec![4]);
    }
    let local = expr::let_(n.clone(), expr::proj(7, 5, v(0)), expr::proj(7, 6, v(1)));
    assert_eq!(found(&local, &v(0)), vec![5, 6]);
    let own = expr::let_(n.clone(), n.clone(), expr::proj(7, 6, v(0)));
    assert_eq!(found(&own, &v(0)), none);
    assert_eq!(found(&arrow(n.clone(), expr::proj(7, 1, n.clone())), &n), vec![1]);
}

#[test]
fn a_projection_that_stays_for_want_of_budget_has_no_verdict() {
    let mut w = World::new();
    let a = w.given("A", type0());
    let s = w.con("S");
    w.inductive("S", type0(), 0, 0, &[("S.mk", 1, arrow(a.clone(), s.clone()))], false);
    let c = w.con("c");
    w.define("c", s, c.clone());
    let sid = w.id("S");
    let mut tc = w.checker();
    let empty = Ctx::new();
    let e = expr::proj(sid, 0, c);
    assert!(rec_expr_eq(&tc.whnf(&empty, &e).unwrap(), &e));
    tc.budget = Budget { core: 1, ..tc.budget };
    declined(tc.whnf(&empty, &e), "WHNF core depth limit: c.0[S]");
}
