use kiota::ctx::Ctx;
use kiota::env::{ConstantInfo, Environment, RecRule, ReducibilityHints};
use kiota::errors::{TcError, R};
use kiota::expr;
use kiota::expr::{expr_size_capped, Expr, ExprData, Lit};
use kiota::kernel::{Checker, Mode};
use kiota::level;
use kiota::nbe::generic_env;
use kiota::num::Natural;
use kiota::value::{Neutral, Thunk, VEnv, Value};
use std::rc::Rc;

fn eval(tc: &Checker, env: &VEnv, e: &Expr) -> R<Value> {
    tc.eval_at(tc.budget, Mode::start(), env, e)
}

fn quote(tc: &Checker, depth: u32, v: &Value) -> R<Expr> {
    tc.quote_at(tc.budget, Mode::start(), depth, v)
}

fn infer_value(tc: &Checker, ctx: &Ctx, tys: &VEnv, env: &VEnv, e: &Expr) -> R<Value> {
    tc.infer_value_at(tc.budget, Mode::start(), ctx, tys, env, e)
}

fn via_nbe(tc: &Checker, ctx: &Ctx, a: &Expr, b: &Expr) -> R<bool> {
    let mut by_value = Checker::new(tc.env, tc.names, tc.nat_ref, tc.string_ref);
    by_value.nbe = true;
    by_value.is_def_eq(ctx, a, b)
}

fn nest_apps(base: Expr, n: u32) -> Expr {
    let mut e = base.clone();
    for _ in 0..n {
        e = expr::app(e, base.clone());
    }
    e
}

fn bush(base: Expr, depth: u32) -> Expr {
    let mut e = base;
    for _ in 0..depth {
        e = expr::app(e.clone(), e.clone());
    }
    e
}

#[test]
fn large_regular_def_unfolds_in_whnf() {
    let mut env = Environment::default();
    let sort0 = expr::sort(level::zero());
    let dummy = expr::const_(0, vec![]);
    env.insert(
        0,
        ConstantInfo::Axiom {
            level_params: vec![],
            typ: sort0.clone(),
            is_unsafe: false,
        },
    );
    let small_body = dummy.clone();
    env.insert(
        1,
        ConstantInfo::Def {
            level_params: vec![],
            typ: sort0.clone(),
            value: small_body.clone(),
            hints: ReducibilityHints::Abbrev,
            is_unsafe: false,
        },
    );
    let large_body = bush(dummy.clone(), 16);
    env.insert(
        2,
        ConstantInfo::Def {
            level_params: vec![],
            typ: sort0.clone(),
            value: large_body.clone(),
            hints: ReducibilityHints::Regular(1),
            is_unsafe: false,
        },
    );
    let medium = bush(dummy.clone(), 12);
    env.insert(
        3,
        ConstantInfo::Def {
            level_params: vec![],
            typ: sort0.clone(),
            value: medium,
            hints: ReducibilityHints::Regular(1),
            is_unsafe: false,
        },
    );
    let big = bush(dummy.clone(), 14);
    env.insert(
        4,
        ConstantInfo::Def {
            level_params: vec![],
            typ: sort0.clone(),
            value: big,
            hints: ReducibilityHints::Regular(1),
            is_unsafe: false,
        },
    );
    let names = [
        Rc::new("Dummy".into()),
        Rc::new("smallAbbrev".into()),
        Rc::new("largeRegular".into()),
        Rc::new("mediumRegular".into()),
        Rc::new("midRegular".into()),
    ];
    let tc = Checker::new(&env, &names, None, None);
    let ctx = Ctx::new();
    assert!(
        tc.delta_body_is_small(1),
        "abbrev is small for same-head delta"
    );
    assert!(
        tc.delta_body_is_small(2),
        "same-head delta has no size cap"
    );
    let w_small = tc.whnf(&ctx, &expr::const_(1, vec![])).unwrap();
    assert!(
        expr::rec_expr_eq(&w_small, &small_body),
        "abbrev still unfolds in WHNF"
    );
    let w_large = tc.whnf(&ctx, &expr::const_(2, vec![])).unwrap();
    assert!(
        expr::rec_expr_eq(&w_large, &large_body),
        "large Regular unfolds in WHNF (has_value); size is not a skip"
    );
}

#[test]
fn large_regular_converts_without_eq_head_table() {
    let mut env = Environment::default();
    let sort0 = expr::sort(level::zero());
    let dummy = expr::const_(0, vec![]);
    env.insert(
        0,
        ConstantInfo::Axiom {
            level_params: vec![],
            typ: sort0.clone(),
            is_unsafe: false,
        },
    );
    let body = bush(dummy.clone(), 13);
    assert!(
        expr_size_capped(&body, 10_000) >= 4_096,
        "body must exceed the WHNF Regular size band"
    );
    env.insert(
        1,
        ConstantInfo::Def {
            level_params: vec![],
            typ: sort0,
            value: body.clone(),
            hints: ReducibilityHints::Regular(1),
            is_unsafe: false,
        },
    );
    let names = test_names(&["Dummy", "bigReg"]);
    let tc = Checker::new(&env, &names, None, None);
    assert!(
        tc.eager_whnf_unfolds(1),
        "has_value Regular unfolds regardless of Eq-head tables"
    );
    assert!(
        tc.is_delta_reducible(1),
        "lazy delta still has_value for the large Regular"
    );
    let eq = tc
        .is_def_eq(&Ctx::new(), &expr::const_(1, vec![]), &body)
        .unwrap_or(false);
    assert!(eq, "large Regular converts without related-def / Eq-heads");
}

#[test]
fn ensure_pi_one_step_unfolds_large_regular() {
    let mut env = Environment::default();
    let sort0 = expr::sort(level::zero());
    let dummy = expr::const_(0, vec![]);
    env.insert(
        0,
        ConstantInfo::Axiom {
            level_params: vec![],
            typ: sort0.clone(),
            is_unsafe: false,
        },
    );
    let huge_dom = bush(dummy, 16);
    let body = expr::pi(expr::BinderInfo::Default, huge_dom, sort0.clone());
    env.insert(
        1,
        ConstantInfo::Def {
            level_params: vec![],
            typ: expr::sort(level::succ(level::zero())),
            value: body,
            hints: ReducibilityHints::Regular(1),
            is_unsafe: false,
        },
    );
    let names = [
        Rc::new("Dummy".into()),
        Rc::new("largePiType".into()),
    ];
    let tc = Checker::new(&env, &names, None, None);
    let got = tc.ensure_pi_at(tc.budget, Mode::start(), &Ctx::new(), &expr::const_(1, vec![]));
    assert!(
        got.is_ok(),
        "ensure_pi one-step unfolds a large Regular wrapping a Pi"
    );
}

#[test]
fn large_theorem_still_checks_app_args() {
    let sort0 = expr::sort(level::zero());
    let mut env = Environment::default();
    env.insert(
        0,
        ConstantInfo::Axiom {
            level_params: vec![],
            typ: sort0.clone(),
            is_unsafe: false,
        },
    );
    env.insert(
        1,
        ConstantInfo::Axiom {
            level_params: vec![],
            typ: sort0.clone(),
            is_unsafe: false,
        },
    );
    let false_ty = expr::const_(0, vec![]);
    let true_ty = expr::const_(1, vec![]);
    env.insert(
        2,
        ConstantInfo::Axiom {
            level_params: vec![],
            typ: expr::pi(expr::BinderInfo::Default, false_ty, true_ty.clone()),
            is_unsafe: false,
        },
    );
    env.insert(
        3,
        ConstantInfo::Axiom {
            level_params: vec![],
            typ: expr::pi(
                expr::BinderInfo::Default,
                true_ty.clone(),
                expr::pi(expr::BinderInfo::Default, true_ty.clone(), true_ty.clone()),
            ),
            is_unsafe: false,
        },
    );
    env.insert(
        4,
        ConstantInfo::Axiom {
            level_params: vec![],
            typ: true_ty.clone(),
            is_unsafe: false,
        },
    );
    let and_t = expr::const_(3, vec![]);
    let mut junk = expr::const_(4, vec![]);
    for _ in 0..16 {
        junk = expr::app(expr::app(and_t.clone(), junk.clone()), junk);
    }
    assert!(
        expr_size_capped(&junk, 20_000) >= 10_000,
        "the junk is large"
    );
    env.insert(
        5,
        ConstantInfo::Theorem {
            level_params: vec![],
            typ: true_ty,
            value: expr::app(expr::const_(2, vec![]), junk),
        },
    );
    let names = [
        Rc::new("False".into()),
        Rc::new("True".into()),
        Rc::new("exfalso".into()),
        Rc::new("andT".into()),
        Rc::new("intro".into()),
        Rc::new("bad".into()),
    ];
    let tc = Checker::new(&env, &names, None, None);
    match tc.check_decl(5, "theorem") {
        Err(TcError::Reject(msg)) => assert!(
            msg.contains("application argument type mismatch"),
            "expected app-arg reject, got {msg}"
        ),
        _ => panic!("large ill-typed theorem must reject"),
    }
}

fn test_names(ss: &[&str]) -> Vec<Rc<String>> {
    ss.iter().map(|s| Rc::new((*s).into())).collect()
}

fn insert_false_true(env: &mut Environment) {
    let sort0 = expr::sort(level::zero());
    env.insert(
        0,
        ConstantInfo::InductiveType {
            level_params: vec![],
            typ: sort0.clone(),
            num_params: 0,
            num_indices: 0,
            all: vec![0],
            ctors: vec![],
            is_rec: false,
            is_unsafe: false,
        },
    );
    env.insert(
        1,
        ConstantInfo::InductiveType {
            level_params: vec![],
            typ: sort0.clone(),
            num_params: 0,
            num_indices: 0,
            all: vec![1],
            ctors: vec![2],
            is_rec: false,
            is_unsafe: false,
        },
    );
    env.insert(
        2,
        ConstantInfo::Constructor {
            level_params: vec![],
            typ: expr::const_(1, vec![]),
            induct: 1,
            cidx: 0,
            num_params: 0,
            num_fields: 0,
            is_unsafe: false,
        },
    );
}

fn assert_app_mismatch(r: R<()>) {
    match r {
        Err(TcError::Reject(msg)) => assert!(
            msg.contains("application argument type mismatch"),
            "expected app-arg reject, got {msg}"
        ),
        _ => panic!("ill-typed theorem must reject"),
    }
}

#[test]
fn idt_false_elim_true_intro_rejects() {
    let mut env = Environment::default();
    insert_false_true(&mut env);
    let false_ty = expr::const_(0, vec![]);
    let true_ty = expr::const_(1, vec![]);
    env.insert(
        3,
        ConstantInfo::Axiom {
            level_params: vec![],
            typ: expr::pi(expr::BinderInfo::Default, false_ty, true_ty.clone()),
            is_unsafe: false,
        },
    );
    env.insert(
        4,
        ConstantInfo::Def {
            level_params: vec![],
            typ: expr::pi(
                expr::BinderInfo::Default,
                true_ty.clone(),
                true_ty.clone(),
            ),
            value: expr::lam(expr::BinderInfo::Default, true_ty.clone(), expr::bvar(0)),
            hints: ReducibilityHints::Abbrev,
            is_unsafe: false,
        },
    );
    let junk = expr::app(expr::const_(3, vec![]), expr::const_(2, vec![]));
    env.insert(
        5,
        ConstantInfo::Theorem {
            level_params: vec![],
            typ: true_ty,
            value: expr::app(expr::const_(4, vec![]), junk),
        },
    );
    let names = test_names(&["False", "True", "True.intro", "elim", "idT", "bad"]);
    let tc = Checker::new(&env, &names, None, None);
    assert_app_mismatch(tc.check_decl(5, "theorem"));
}

#[test]
fn true_and_false_are_not_proof_irrelevant() {
    let mut env = Environment::default();
    insert_false_true(&mut env);
    let names = test_names(&["False", "True", "True.intro"]);
    let tc = Checker::new(&env, &names, None, None);
    let eq = tc
        .is_def_eq(&Ctx::new(), &expr::const_(1, vec![]), &expr::const_(0, vec![]))
        .expect("defeq");
    assert!(!eq, "True and False must not convert by PI of Prop");
}

#[test]
fn prop_ctor_apps_convert_by_pi_not_field_tree() {
    let mut env = Environment::default();
    insert_false_true(&mut env);
    let true_ty = expr::const_(1, vec![]);
    let intro = expr::const_(2, vec![]);
    env.insert(
        3,
        ConstantInfo::Def {
            level_params: vec![],
            typ: expr::pi(
                expr::BinderInfo::Default,
                true_ty.clone(),
                true_ty.clone(),
            ),
            value: expr::lam(expr::BinderInfo::Default, true_ty.clone(), expr::bvar(0)),
            hints: ReducibilityHints::Abbrev,
            is_unsafe: false,
        },
    );
    let sort0 = expr::sort(level::zero());
    env.insert(
        4,
        ConstantInfo::InductiveType {
            level_params: vec![],
            typ: sort0.clone(),
            num_params: 0,
            num_indices: 0,
            all: vec![4],
            ctors: vec![5],
            is_rec: false,
            is_unsafe: false,
        },
    );
    let mut mk_ty = expr::const_(4, vec![]);
    for _ in 0..7 {
        mk_ty = expr::pi(expr::BinderInfo::Default, true_ty.clone(), mk_ty);
    }
    env.insert(
        5,
        ConstantInfo::Constructor {
            level_params: vec![],
            typ: mk_ty,
            induct: 4,
            cidx: 0,
            num_params: 0,
            num_fields: 7,
            is_unsafe: false,
        },
    );
    let id_intro = expr::app(expr::const_(3, vec![]), intro.clone());
    let mk = expr::const_(5, vec![]);
    let mut left = mk.clone();
    let mut right = mk.clone();
    for _ in 0..7 {
        left = expr::app(left, intro.clone());
        right = expr::app(right, id_intro.clone());
    }
    let names = test_names(&["False", "True", "True.intro", "idTrue", "Cl", "Cl.mk"]);
    let tc = Checker::new(&env, &names, None, None);
    let ctx = Ctx::new();
    let ok = tc.is_def_eq(&ctx, &left, &right).expect("defeq");
    assert!(ok, "distinct True proofs of the same Cl must convert by PI");
    let mut nest_l = left.clone();
    let mut nest_r = right.clone();
    for _ in 0..4 {
        let mut l = mk.clone();
        let mut r = mk.clone();
        for i in 0..7 {
            l = expr::app(l, if i == 0 { nest_l.clone() } else { intro.clone() });
            r = expr::app(r, if i == 0 { nest_r.clone() } else { id_intro.clone() });
        }
        nest_l = l;
        nest_r = r;
    }
    let ok = tc.is_def_eq(&ctx, &nest_l, &nest_r).expect("nested defeq");
    assert!(ok, "nested Cl.mk spines must convert by Prop-ctor skip / PI");
}

#[test]
fn large_prop_regulars_convert_by_pi() {
    let mut env = Environment::default();
    insert_false_true(&mut env);
    let true_ty = expr::const_(1, vec![]);
    let intro = expr::const_(2, vec![]);
    let sort1 = expr::sort(level::succ(level::zero()));
    env.insert(
        3,
        ConstantInfo::Def {
            level_params: vec![],
            typ: expr::pi(
                expr::BinderInfo::Default,
                true_ty.clone(),
                true_ty.clone(),
            ),
            value: expr::lam(expr::BinderInfo::Default, true_ty.clone(), expr::bvar(0)),
            hints: ReducibilityHints::Opaque,
            is_unsafe: false,
        },
    );
    let pad = bush(true_ty.clone(), 13);
    assert!(
        expr_size_capped(&pad, 10_000) >= 4_096,
        "pad must exceed the WHNF Regular cap"
    );
    env.insert(
        4,
        ConstantInfo::Def {
            level_params: vec![],
            typ: true_ty.clone(),
            value: expr::let_(sort1.clone(), pad.clone(), intro.clone()),
            hints: ReducibilityHints::Regular(2),
            is_unsafe: false,
        },
    );
    env.insert(
        5,
        ConstantInfo::Def {
            level_params: vec![],
            typ: true_ty,
            value: expr::let_(
                sort1,
                pad,
                expr::app(expr::const_(3, vec![]), intro),
            ),
            hints: ReducibilityHints::Regular(2),
            is_unsafe: false,
        },
    );
    let names = test_names(&["False", "True", "True.intro", "idT", "pA", "pB"]);
    let tc = Checker::new(&env, &names, None, None);
    let ctx = Ctx::new();
    let ok = tc
        .is_def_eq(&ctx, &expr::const_(4, vec![]), &expr::const_(5, vec![]))
        .expect("defeq");
    assert!(
        ok,
        "True.intro vs opaque idT True.intro, both large Regulars, must PI"
    );
}

#[test]
fn lam_proofs_of_pi_prop_convert_by_pi() {
    let mut env = Environment::default();
    insert_false_true(&mut env);
    let true_ty = expr::const_(1, vec![]);
    let intro = expr::const_(2, vec![]);
    let names = test_names(&["False", "True", "True.intro"]);
    let tc = Checker::new(&env, &names, None, None);
    let const_intro = expr::lam(expr::BinderInfo::Default, true_ty.clone(), intro);
    let identity = expr::lam(expr::BinderInfo::Default, true_ty, expr::bvar(0));
    let ok = tc
        .is_def_eq(&Ctx::new(), &const_intro, &identity)
        .expect("defeq");
    assert!(
        ok,
        "fun _ => True.intro and fun x => x must PI as proofs of True → True"
    );
}

#[test]
fn idp_elimp_true_intro_sort0_rejects() {
    let mut env = Environment::default();
    insert_false_true(&mut env);
    let false_ty = expr::const_(0, vec![]);
    let true_ty = expr::const_(1, vec![]);
    let sort0 = expr::sort(level::zero());
    env.insert(
        3,
        ConstantInfo::Axiom {
            level_params: vec![],
            typ: expr::pi(expr::BinderInfo::Default, false_ty, sort0.clone()),
            is_unsafe: false,
        },
    );
    env.insert(
        4,
        ConstantInfo::Axiom {
            level_params: vec![],
            typ: expr::pi(expr::BinderInfo::Default, sort0, true_ty.clone()),
            is_unsafe: false,
        },
    );
    let junk = expr::app(expr::const_(3, vec![]), expr::const_(2, vec![]));
    env.insert(
        5,
        ConstantInfo::Theorem {
            level_params: vec![],
            typ: true_ty,
            value: expr::app(expr::const_(4, vec![]), junk),
        },
    );
    let names = test_names(&["False", "True", "True.intro", "elimP", "idP", "bad"]);
    let tc = Checker::new(&env, &names, None, None);
    assert_app_mismatch(tc.check_decl(5, "theorem"));
}

#[test]
fn and_intro_false_elim_rejects() {
    let mut env = Environment::default();
    insert_false_true(&mut env);
    let sort0 = expr::sort(level::zero());
    let and_ty = expr::pi(
        expr::BinderInfo::Default,
        sort0.clone(),
        expr::pi(expr::BinderInfo::Default, sort0.clone(), sort0.clone()),
    );
    env.insert(
        3,
        ConstantInfo::InductiveType {
            level_params: vec![],
            typ: and_ty,
            num_params: 2,
            num_indices: 0,
            all: vec![3],
            ctors: vec![4],
            is_rec: false,
            is_unsafe: false,
        },
    );
    let and_a_b = expr::app(
        expr::app(expr::const_(3, vec![]), expr::bvar(3)),
        expr::bvar(2),
    );
    let intro_ty = expr::pi(
        expr::BinderInfo::Default,
        sort0.clone(),
        expr::pi(
            expr::BinderInfo::Default,
            sort0.clone(),
            expr::pi(
                expr::BinderInfo::Default,
                expr::bvar(1),
                expr::pi(expr::BinderInfo::Default, expr::bvar(1), and_a_b),
            ),
        ),
    );
    env.insert(
        4,
        ConstantInfo::Constructor {
            level_params: vec![],
            typ: intro_ty,
            induct: 3,
            cidx: 0,
            num_params: 2,
            num_fields: 2,
            is_unsafe: false,
        },
    );
    env.insert(
        5,
        ConstantInfo::Axiom {
            level_params: vec![],
            typ: expr::pi(
                expr::BinderInfo::Default,
                expr::const_(0, vec![]),
                expr::const_(1, vec![]),
            ),
            is_unsafe: false,
        },
    );
    let t = expr::const_(1, vec![]);
    let intro = expr::const_(2, vec![]);
    let junk = expr::app(expr::const_(5, vec![]), intro.clone());
    let value = expr::apps(expr::const_(4, vec![]), &vec![t.clone(), t.clone(), intro, junk]);
    env.insert(
        6,
        ConstantInfo::Theorem {
            level_params: vec![],
            typ: expr::app(expr::app(expr::const_(3, vec![]), t.clone()), t),
            value,
        },
    );
    let names = test_names(&[
        "False",
        "True",
        "True.intro",
        "And",
        "And.intro",
        "elim",
        "bad",
    ]);
    let tc = Checker::new(&env, &names, None, None);
    assert_app_mismatch(tc.check_decl(6, "theorem"));
}

#[test]
fn heq_nat_vs_int_numeral_not_defeq() {
    let mut env = Environment::default();
    let sort1 = expr::sort(level::succ(level::zero()));
    env.insert(
        0,
        ConstantInfo::Axiom {
            level_params: vec![],
            typ: sort1.clone(),
            is_unsafe: false,
        },
    );
    env.insert(
        1,
        ConstantInfo::Axiom {
            level_params: vec![],
            typ: sort1.clone(),
            is_unsafe: false,
        },
    );
    env.insert(
        2,
        ConstantInfo::Axiom {
            level_params: vec![],
            typ: expr::pi(
                expr::BinderInfo::Default,
                sort1.clone(),
                expr::pi(
                    expr::BinderInfo::Default,
                    expr::const_(0, vec![]),
                    expr::pi(
                        expr::BinderInfo::Default,
                        expr::sort(level::zero()),
                        expr::bvar(2),
                    ),
                ),
            ),
            is_unsafe: false,
        },
    );
    env.insert(
        3,
        ConstantInfo::Axiom {
            level_params: vec![],
            typ: expr::sort(level::zero()),
            is_unsafe: false,
        },
    );
    let names = test_names(&["Nat", "Int", "OfNat.ofNat", "inst"]);
    let tc = Checker::new(&env, &names, None, None);
    let n3 = expr::lit_nat(Natural::from_u64(3));
    let int3 = expr::apps(
        expr::const_(2, vec![]),
        &vec![
            expr::const_(1, vec![]),
            n3.clone(),
            expr::const_(3, vec![]),
        ],
    );
    let eq = tc.is_def_eq(&Ctx::new(), &n3, &int3).unwrap();
    assert!(
        !eq,
        "Nat literal 3 must not defeq OfNat.ofNat Int 3 inst"
    );
}

#[test]
fn nat_cast_nat_vs_int_not_defeq() {
    let mut env = Environment::default();
    let sort1 = expr::sort(level::succ(level::zero()));
    env.insert(
        0,
        ConstantInfo::Axiom {
            level_params: vec![],
            typ: sort1.clone(),
            is_unsafe: false,
        },
    );
    env.insert(
        1,
        ConstantInfo::Axiom {
            level_params: vec![],
            typ: sort1.clone(),
            is_unsafe: false,
        },
    );
    env.insert(
        2,
        ConstantInfo::Axiom {
            level_params: vec![],
            typ: expr::pi(
                expr::BinderInfo::Default,
                sort1.clone(),
                expr::pi(
                    expr::BinderInfo::Default,
                    expr::sort(level::zero()),
                    expr::pi(
                        expr::BinderInfo::Default,
                        expr::const_(0, vec![]),
                        expr::bvar(2),
                    ),
                ),
            ),
            is_unsafe: false,
        },
    );
    env.insert(
        3,
        ConstantInfo::Axiom {
            level_params: vec![],
            typ: expr::sort(level::zero()),
            is_unsafe: false,
        },
    );
    let names = test_names(&["Nat", "Int", "Nat.cast", "inst"]);
    let tc = Checker::new(&env, &names, None, None);
    let n3 = expr::lit_nat(Natural::from_u64(3));
    let cast = |ty: u32| {
        expr::apps(
            expr::const_(2, vec![]),
            &vec![
                expr::const_(ty, vec![]),
                expr::const_(3, vec![]),
                n3.clone(),
            ],
        )
    };
    let eq = tc
        .is_def_eq(&Ctx::new(), &cast(0), &cast(1))
        .unwrap();
    assert!(!eq, "Nat.cast Nat 3 must not defeq Nat.cast Int 3");
}

#[test]
fn proj_wrong_inductive_does_not_iota() {
    let mut env = Environment::default();
    let sort1 = expr::sort(level::succ(level::zero()));
    env.insert(
        0,
        ConstantInfo::Axiom {
            level_params: vec![],
            typ: sort1.clone(),
            is_unsafe: false,
        },
    );
    env.insert(
        1,
        ConstantInfo::InductiveType {
            level_params: vec![],
            typ: sort1.clone(),
            num_params: 0,
            num_indices: 0,
            all: vec![1],
            ctors: vec![2],
            is_rec: false,
            is_unsafe: false,
        },
    );
    env.insert(
        2,
        ConstantInfo::Constructor {
            level_params: vec![],
            typ: expr::pi(
                expr::BinderInfo::Default,
                expr::const_(0, vec![]),
                expr::const_(1, vec![]),
            ),
            induct: 1,
            cidx: 0,
            num_params: 0,
            num_fields: 1,
            is_unsafe: false,
        },
    );
    env.insert(
        3,
        ConstantInfo::InductiveType {
            level_params: vec![],
            typ: sort1,
            num_params: 0,
            num_indices: 0,
            all: vec![3],
            ctors: vec![4],
            is_rec: false,
            is_unsafe: false,
        },
    );
    env.insert(
        4,
        ConstantInfo::Constructor {
            level_params: vec![],
            typ: expr::pi(
                expr::BinderInfo::Default,
                expr::const_(0, vec![]),
                expr::const_(3, vec![]),
            ),
            induct: 3,
            cidx: 0,
            num_params: 0,
            num_fields: 1,
            is_unsafe: false,
        },
    );
    let names = test_names(&["Nat", "A", "A.mk", "B", "B.mk"]);
    let tc = Checker::new(&env, &names, None, None);
    let n3 = expr::lit_nat(Natural::from_u64(3));
    let amk = expr::app(expr::const_(2, vec![]), n3.clone());
    let w = tc
        .whnf(&Ctx::new(), &expr::proj(3, 0, amk))
        .expect("WHNF");
    assert!(
        !expr::rec_expr_eq(&w, &n3) && !matches!(w.data(), ExprData::Lit(_)),
        "proj B 0 (A.mk 3) must not ι to 3, got {}",
        tc.pp(&w)
    );
}

#[test]
fn lam_domains_must_defeq() {
    let mut env = Environment::default();
    let sort1 = expr::sort(level::succ(level::zero()));
    env.insert(
        0,
        ConstantInfo::Axiom {
            level_params: vec![],
            typ: sort1.clone(),
            is_unsafe: false,
        },
    );
    env.insert(
        1,
        ConstantInfo::Axiom {
            level_params: vec![],
            typ: sort1.clone(),
            is_unsafe: false,
        },
    );
    env.insert(
        2,
        ConstantInfo::Axiom {
            level_params: vec![],
            typ: expr::const_(0, vec![]),
            is_unsafe: false,
        },
    );
    let names = test_names(&["Nat", "Bool", "star"]);
    let tc = Checker::new(&env, &names, None, None);
    let star = expr::const_(2, vec![]);
    let f_nat = expr::lam(
        expr::BinderInfo::Default,
        expr::const_(0, vec![]),
        star.clone(),
    );
    let f_bool = expr::lam(
        expr::BinderInfo::Default,
        expr::const_(1, vec![]),
        star,
    );
    let eq = tc.is_def_eq(&Ctx::new(), &f_nat, &f_bool).unwrap();
    assert!(!eq, "lambda domains must convert, like Pi");
}

#[test]
fn app_of_let_zetas_then_beta() {
    let mut env = Environment::default();
    let sort1 = expr::sort(level::succ(level::zero()));
    env.insert(
        0,
        ConstantInfo::Axiom {
            level_params: vec![],
            typ: sort1.clone(),
            is_unsafe: false,
        },
    );
    env.insert(
        1,
        ConstantInfo::Axiom {
            level_params: vec![],
            typ: expr::const_(0, vec![]),
            is_unsafe: false,
        },
    );
    let names = test_names(&["A", "a"]);
    let tc = Checker::new(&env, &names, None, None);
    let a_ty = expr::const_(0, vec![]);
    let id = expr::lam(expr::BinderInfo::Default, a_ty.clone(), expr::bvar(0));
    let arg = expr::const_(1, vec![]);
    let e = expr::app(
        expr::let_(
            expr::pi(expr::BinderInfo::Default, a_ty.clone(), a_ty),
            id,
            expr::bvar(0),
        ),
        arg.clone(),
    );
    let w = tc.whnf(&Ctx::new(), &e).expect("WHNF App(Let, arg)");
    assert!(
        expr::rec_expr_eq(&w, &arg),
        "(let f := id; f) a must be a, got {}",
        tc.pp(&w)
    );
}

#[test]
fn eq_rec_whnf_cache_is_context_sensitive() {
    let mut env = Environment::default();
    insert_false_true(&mut env);
    let true_ty = expr::const_(1, vec![]);
    let sort0 = expr::sort(level::zero());
    let mot_ty = expr::pi(expr::BinderInfo::Default, true_ty.clone(), sort0.clone());
    let rec_ty = expr::pi(
        expr::BinderInfo::Default,
        mot_ty,
        expr::pi(
            expr::BinderInfo::Default,
            expr::app(expr::bvar(0), expr::const_(2, vec![])),
            expr::pi(
                expr::BinderInfo::Default,
                true_ty.clone(),
                expr::app(expr::bvar(2), expr::bvar(0)),
            ),
        ),
    );
    env.insert(
        3,
        ConstantInfo::Recursor {
            level_params: vec![],
            typ: rec_ty,
            all: vec![1],
            num_params: 0,
            num_indices: 0,
            num_motives: 1,
            num_minors: 1,
            rules: vec![RecRule {
                ctor: 2,
                nfields: 0,
                rhs: expr::bvar(0),
            }],
            k: true,
            is_unsafe: false,
        },
    );
    env.insert(
        4,
        ConstantInfo::Axiom {
            level_params: vec![],
            typ: sort0.clone(),
            is_unsafe: false,
        },
    );
    env.set_rec_of(1, 3);
    let names = test_names(&["False", "True", "True.intro", "True.rec", "star"]);
    let tc = Checker::new(&env, &names, None, None);
    let motive = expr::lam(expr::BinderInfo::Default, true_ty, sort0);
    let star = expr::const_(4, vec![]);
    let rec_app = expr::apps(expr::const_(3, vec![]), &vec![motive, star.clone(), expr::bvar(0)]);
    let mut ctx_true = Ctx::new();
    ctx_true.push(expr::const_(1, vec![]));
    let mut ctx_false = Ctx::new();
    ctx_false.push(expr::const_(0, vec![]));
    let w_true = tc.whnf(&ctx_true, &rec_app).expect("WHNF True context");
    assert!(
        expr::rec_expr_eq(&w_true, &star),
        "K-like True.rec under #0 : True must reduce to the minor, got {}",
        tc.pp(&w_true)
    );
    let w_false = tc.whnf(&ctx_false, &rec_app).expect("WHNF False context");
    assert!(
        !expr::rec_expr_eq(&w_false, &star),
        "WHNF of the same rec app under #0 : False must not reuse the True-context K-reduction"
    );
}

fn insert_mini_psigma(env: &mut Environment) {
    let sort1 = expr::sort(level::succ(level::zero()));
    let psigma = expr::const_(0, vec![]);
    env.insert(
        0,
        ConstantInfo::InductiveType {
            level_params: vec![],
            typ: expr::pi(
                expr::BinderInfo::Default,
                sort1.clone(),
                expr::pi(expr::BinderInfo::Default, sort1.clone(), sort1.clone()),
            ),
            num_params: 2,
            num_indices: 0,
            all: vec![0],
            ctors: vec![1],
            is_rec: false,
            is_unsafe: false,
        },
    );
    let mk_ty = expr::pi(
        expr::BinderInfo::Default,
        sort1.clone(),
        expr::pi(
            expr::BinderInfo::Default,
            sort1.clone(),
            expr::pi(
                expr::BinderInfo::Default,
                expr::bvar(1),
                expr::pi(
                    expr::BinderInfo::Default,
                    expr::bvar(1),
                    expr::apps(psigma, &vec![expr::bvar(3), expr::bvar(2)]),
                ),
            ),
        ),
    );
    env.insert(
        1,
        ConstantInfo::Constructor {
            level_params: vec![],
            typ: mk_ty,
            induct: 0,
            cidx: 0,
            num_params: 2,
            num_fields: 2,
            is_unsafe: false,
        },
    );
    env.insert(
        2,
        ConstantInfo::Recursor {
            level_params: vec![],
            typ: sort1.clone(),
            all: vec![0],
            num_params: 2,
            num_indices: 0,
            num_motives: 1,
            num_minors: 1,
            rules: vec![RecRule {
                ctor: 1,
                nfields: 2,
                rhs: expr::bvar(0),
            }],
            k: false,
            is_unsafe: false,
        },
    );
    env.insert(
        3,
        ConstantInfo::Axiom {
            level_params: vec![],
            typ: sort1.clone(),
            is_unsafe: false,
        },
    );
    env.insert(
        4,
        ConstantInfo::Axiom {
            level_params: vec![],
            typ: sort1,
            is_unsafe: false,
        },
    );
    env.set_rec_of(0, 2);
}

#[test]
fn psigma_rec_iotas_ctor_major() {
    let mut env = Environment::default();
    insert_mini_psigma(&mut env);
    let names = test_names(&["PSigma", "PSigma.mk", "PSigma.rec", "A", "B"]);
    let tc = Checker::new(&env, &names, None, None);
    let a = expr::const_(3, vec![]);
    let b = expr::const_(4, vec![]);
    let psigma_ab = expr::apps(expr::const_(0, vec![]), &vec![a.clone(), b.clone()]);
    let sort1 = expr::sort(level::succ(level::zero()));
    let motive = expr::lam(expr::BinderInfo::Default, psigma_ab, sort1);
    let minor = expr::lam(
        expr::BinderInfo::Default,
        a.clone(),
        expr::lam(expr::BinderInfo::Default, b.clone(), expr::bvar(1)),
    );
    let x = expr::const_(3, vec![]); // A : Type used as a dummy value of type A (ill-typed but WHNF-only)
    let y = expr::const_(4, vec![]);
    let mk = expr::apps(expr::const_(1, vec![]), &vec![a.clone(), b, x.clone(), y]);
    let rec_app = expr::apps(
        expr::const_(2, vec![]),
        &vec![a, expr::const_(4, vec![]), motive, minor, mk],
    );
    let w = tc.whnf(&Ctx::new(), &rec_app).expect("WHNF ctor major");
    assert!(
        expr::rec_expr_eq(&w, &x),
        "PSigma.rec of mk x y must iota to minor x y = x, got {}",
        tc.pp(&w)
    );
}

#[test]
fn psigma_rec_iotas_bvar_major() {
    let mut env = Environment::default();
    insert_mini_psigma(&mut env);
    let names = test_names(&["PSigma", "PSigma.mk", "PSigma.rec", "A", "B"]);
    let tc = Checker::new(&env, &names, None, None);
    let a = expr::const_(3, vec![]);
    let b = expr::const_(4, vec![]);
    let psigma_ab = expr::apps(expr::const_(0, vec![]), &vec![a.clone(), b.clone()]);
    let sort1 = expr::sort(level::succ(level::zero()));
    let motive = expr::lam(expr::BinderInfo::Default, psigma_ab.clone(), sort1);
    let minor = expr::lam(
        expr::BinderInfo::Default,
        a.clone(),
        expr::lam(expr::BinderInfo::Default, b.clone(), expr::bvar(1)),
    );
    let rec_app = expr::apps(
        expr::const_(2, vec![]),
        &vec![a, b, motive, minor, expr::bvar(0)],
    );
    let mut ctx = Ctx::new();
    ctx.push(psigma_ab);
    let w = tc.whnf(&ctx, &rec_app).expect("WHNF bvar major");
    let expected = expr::proj(0, 0, expr::bvar(0));
    assert!(
        tc.is_def_eq(&ctx, &w, &expected).unwrap_or(false),
        "PSigma.rec of a PSigma bvar must iota to minor (proj 0) (proj 1) = proj 0, got {}",
        tc.pp(&w)
    );
}

#[test]
fn pi_body_beta_converts() {
    let mut env = Environment::default();
    let sort1 = expr::sort(level::succ(level::zero()));
    env.insert(
        0,
        ConstantInfo::Axiom {
            level_params: vec![],
            typ: sort1.clone(),
            is_unsafe: false,
        },
    );
    env.insert(
        1,
        ConstantInfo::Axiom {
            level_params: vec![],
            typ: sort1,
            is_unsafe: false,
        },
    );
    let names = test_names(&["A", "T"]);
    let tc = Checker::new(&env, &names, None, None);
    let a = expr::const_(0, vec![]);
    let t = expr::const_(1, vec![]);
    let redex = expr::pi(
        expr::BinderInfo::Default,
        a.clone(),
        expr::app(
            expr::lam(expr::BinderInfo::Default, a.clone(), t.clone()),
            expr::bvar(0),
        ),
    );
    let nf = expr::pi(expr::BinderInfo::Default, a, t);
    let eq = tc.is_def_eq(&Ctx::new(), &redex, &nf).unwrap();
    assert!(eq, "Pi body must beta: (λ y, T) x ≡ T");
}

#[test]
fn core_depth_abort_declines_not_stuck_whnf() {
    let mut env = Environment::default();
    let sort1 = expr::sort(level::succ(level::zero()));
    env.insert(
        0,
        ConstantInfo::Axiom {
            level_params: vec![],
            typ: sort1.clone(),
            is_unsafe: false,
        },
    );
    env.insert(
        1,
        ConstantInfo::Axiom {
            level_params: vec![],
            typ: expr::const_(0, vec![]),
            is_unsafe: false,
        },
    );
    let a_ty = expr::const_(0, vec![]);
    env.insert(
        2,
        ConstantInfo::Def {
            level_params: vec![],
            typ: expr::pi(
                expr::BinderInfo::Default,
                a_ty.clone(),
                a_ty.clone(),
            ),
            value: expr::lam(expr::BinderInfo::Default, a_ty, expr::bvar(0)),
            hints: ReducibilityHints::Abbrev,
            is_unsafe: false,
        },
    );
    let names = test_names(&["A", "a", "id"]);
    let mut tc = Checker::new(&env, &names, None, None);
    let id_a = expr::app(expr::const_(2, vec![]), expr::const_(1, vec![]));
    tc.budget.core = 0;
    let wh = tc.whnf(&Ctx::new(), &id_a);
    let eq = tc.is_def_eq(&Ctx::new(), &id_a, &expr::const_(1, vec![]));
    match wh {
        Err(TcError::Decline(_)) => {}
        _ => panic!("a core budget that runs out must decline unreduced `id a`"),
    }
    match eq {
        Err(TcError::Decline(_)) => {}
        _ => panic!("a core budget that runs out must decline defeq"),
    }
}

#[test]
fn let_zetas_in_defeq() {
    let mut env = Environment::default();
    let sort1 = expr::sort(level::succ(level::zero()));
    env.insert(
        0,
        ConstantInfo::Axiom {
            level_params: vec![],
            typ: sort1.clone(),
            is_unsafe: false,
        },
    );
    env.insert(
        1,
        ConstantInfo::Axiom {
            level_params: vec![],
            typ: expr::const_(0, vec![]),
            is_unsafe: false,
        },
    );
    let names = test_names(&["A", "v"]);
    let tc = Checker::new(&env, &names, None, None);
    let a = expr::const_(0, vec![]);
    let v = expr::const_(1, vec![]);
    let let_e = expr::let_(a, v.clone(), expr::bvar(0));
    let eq = tc.is_def_eq(&Ctx::new(), &let_e, &v).unwrap();
    assert!(eq, "let x := v; x must convert to v");
    let w = tc.whnf(&Ctx::new(), &let_e).unwrap();
    assert!(
        expr::rec_expr_eq(&w, &v),
        "WHNF of let x := v; x must be v, got {}",
        tc.pp(&w)
    );
}

#[test]
fn pi_body_beta_decrements_outer_bvars() {
    let mut env = Environment::default();
    let sort1 = expr::sort(level::succ(level::zero()));
    env.insert(
        0,
        ConstantInfo::Axiom {
            level_params: vec![],
            typ: sort1.clone(),
            is_unsafe: false,
        },
    );
    env.insert(
        1,
        ConstantInfo::Axiom {
            level_params: vec![],
            typ: expr::pi(expr::BinderInfo::Default, sort1.clone(), sort1),
            is_unsafe: false,
        },
    );
    let names = test_names(&["A", "F"]);
    let tc = Checker::new(&env, &names, None, None);
    let a = expr::const_(0, vec![]);
    let f = expr::const_(1, vec![]);
    let redex = expr::pi(
        expr::BinderInfo::Default,
        a.clone(),
        expr::app(
            expr::lam(
                expr::BinderInfo::Default,
                a.clone(),
                expr::app(f.clone(), expr::bvar(2)),
            ),
            expr::bvar(0),
        ),
    );
    let nf = expr::pi(
        expr::BinderInfo::Default,
        a,
        expr::app(f, expr::bvar(1)),
    );
    let eq = tc.is_def_eq(&Ctx::new(), &redex, &nf).unwrap();
    assert!(
        eq,
        "Pi-body beta must decrement outer bvars: got {} vs {}",
        tc.pp(&redex),
        tc.pp(&nf)
    );
}

#[test]
fn lam_domain_beta_redex_converts() {
    let mut env = Environment::default();
    let sort1 = expr::sort(level::succ(level::zero()));
    env.insert(
        0,
        ConstantInfo::Axiom {
            level_params: vec![],
            typ: sort1.clone(),
            is_unsafe: false,
        },
    );
    env.insert(
        1,
        ConstantInfo::Axiom {
            level_params: vec![],
            typ: sort1,
            is_unsafe: false,
        },
    );
    let names = test_names(&["A", "B"]);
    let tc = Checker::new(&env, &names, None, None);
    let a = expr::const_(0, vec![]);
    let b = expr::const_(1, vec![]);
    let redex = expr::lam(
        expr::BinderInfo::Default,
        a.clone(),
        expr::lam(
            expr::BinderInfo::Default,
            expr::app(
                expr::lam(expr::BinderInfo::Default, a.clone(), b.clone()),
                expr::bvar(0),
            ),
            expr::bvar(0),
        ),
    );
    let nf = expr::lam(
        expr::BinderInfo::Default,
        a,
        expr::lam(expr::BinderInfo::Default, b, expr::bvar(0)),
    );
    let eq = tc.is_def_eq(&Ctx::new(), &redex, &nf).unwrap();
    assert!(
        eq,
        "lambda domain beta must convert: got {} vs {}",
        tc.pp(&redex),
        tc.pp(&nf)
    );
}

#[test]
fn psigma_rec_defeq_proj_applied_minor() {
    let mut env = Environment::default();
    insert_mini_psigma(&mut env);
    let names = test_names(&["PSigma", "PSigma.mk", "PSigma.rec", "A", "B"]);
    let tc = Checker::new(&env, &names, None, None);
    let a = expr::const_(3, vec![]);
    let b = expr::const_(4, vec![]);
    let psigma_ab = expr::apps(expr::const_(0, vec![]), &vec![a.clone(), b.clone()]);
    let sort1 = expr::sort(level::succ(level::zero()));
    let motive = expr::lam(expr::BinderInfo::Default, psigma_ab.clone(), sort1);
    let minor = expr::lam(
        expr::BinderInfo::Default,
        a.clone(),
        expr::lam(expr::BinderInfo::Default, b.clone(), expr::bvar(1)),
    );
    let rec_app = expr::apps(
        expr::const_(2, vec![]),
        &vec![a, b, motive, minor, expr::bvar(0)],
    );
    let mut ctx = Ctx::new();
    ctx.push(psigma_ab);
    let applied = expr::proj(0, 0, expr::bvar(0));
    assert!(
        tc.is_def_eq(&ctx, &rec_app, &applied).unwrap_or(false),
        "rec on a PSigma bvar must convert to the minor of projections, got {} vs {}",
        tc.pp(&tc.whnf(&ctx, &rec_app).unwrap_or_else(|_| rec_app.clone())),
        tc.pp(&applied)
    );
}

#[test]
fn bind_match_abbrev_iotas_then_defeq_unpacked_vs_proj() {
    let mut env = Environment::default();
    insert_mini_psigma(&mut env);
    let a_ty = expr::const_(3, vec![]);
    let b_ty = expr::const_(4, vec![]);
    let psigma_ab = expr::apps(expr::const_(0, vec![]), &vec![a_ty.clone(), b_ty.clone()]);
    let sort1 = expr::sort(level::succ(level::zero()));
    let motive = expr::lam(expr::BinderInfo::Default, psigma_ab.clone(), sort1);
    let minor_ty = expr::pi(
        expr::BinderInfo::Default,
        a_ty.clone(),
        expr::pi(expr::BinderInfo::Default, b_ty.clone(), a_ty.clone()),
    );
    let match_val = expr::lam(
        expr::BinderInfo::Default,
        psigma_ab.clone(),
        expr::lam(
            expr::BinderInfo::Default,
            minor_ty.clone(),
            expr::apps(
                expr::const_(2, vec![]),
                &vec![
                    a_ty.clone(),
                    b_ty.clone(),
                    motive,
                    expr::lam(
                        expr::BinderInfo::Default,
                        a_ty.clone(),
                        expr::lam(
                            expr::BinderInfo::Default,
                            b_ty.clone(),
                            expr::apps(expr::bvar(2), &vec![expr::bvar(1), expr::bvar(0)]),
                        ),
                    ),
                    expr::bvar(1),
                ],
            ),
        ),
    );
    env.insert(
        5,
        ConstantInfo::Def {
            level_params: vec![],
            typ: expr::pi(
                expr::BinderInfo::Default,
                psigma_ab.clone(),
                expr::pi(expr::BinderInfo::Default, minor_ty, a_ty.clone()),
            ),
            value: match_val,
            hints: ReducibilityHints::Abbrev,
            is_unsafe: false,
        },
    );
    let names = test_names(&[
        "PSigma",
        "PSigma.mk",
        "PSigma.rec",
        "A",
        "B",
        "match_1",
    ]);
    let tc = Checker::new(&env, &names, None, None);
    let mut ctx = Ctx::new();
    ctx.push(psigma_ab);
    let unpacked = expr::lam(
        expr::BinderInfo::Default,
        a_ty.clone(),
        expr::lam(expr::BinderInfo::Default, b_ty, expr::bvar(1)),
    );
    let via_proj = expr::lam(
        expr::BinderInfo::Default,
        a_ty.clone(),
        expr::lam(
            expr::BinderInfo::Default,
            expr::const_(4, vec![]),
            expr::proj(0, 0, expr::bvar(2)),
        ),
    );
    let m_unpacked = expr::apps(expr::const_(5, vec![]), &vec![expr::bvar(0), unpacked]);
    let m_proj = expr::apps(expr::const_(5, vec![]), &vec![expr::bvar(0), via_proj]);
    let w = tc.whnf(&ctx, &m_unpacked).expect("WHNF match_1 unpacked");
    let expected = expr::proj(0, 0, expr::bvar(0));
    assert!(
        tc.is_def_eq(&ctx, &w, &expected).unwrap_or(false),
        "match_1 Abbrev must ι to minor of projs, WHNF got {}",
        tc.pp(&w)
    );
    assert!(
        tc.is_def_eq(&ctx, &m_unpacked, &m_proj).unwrap_or(false),
        "match_1 (λ a b, a) must convert to match_1 (λ a b, p.1) after ι, left={} right={}",
        tc.pp(&tc.whnf(&ctx, &m_unpacked).unwrap_or_else(|_| m_unpacked.clone())),
        tc.pp(&tc.whnf(&ctx, &m_proj).unwrap_or_else(|_| m_proj.clone()))
    );
    let via_let = expr::lam(
        expr::BinderInfo::Default,
        a_ty.clone(),
        expr::lam(
            expr::BinderInfo::Default,
            expr::const_(4, vec![]),
            expr::let_(a_ty.clone(), expr::bvar(1), expr::bvar(0)),
        ),
    );
    let m_let = expr::apps(expr::const_(5, vec![]), &vec![expr::bvar(0), via_let]);
    let wlet = tc.whnf(&ctx, &m_let).expect("WHNF match_1 let-minor");
    assert!(
        !matches!(wlet.data(), ExprData::Let(_, _, _)),
        "WHNF of match_1 with a let-minor must ζ, got {}",
        tc.pp(&wlet)
    );
    assert!(
        tc.is_def_eq(&ctx, &wlet, &expected).unwrap_or(false),
        "let-minor match_1 must convert to p.1, got {}",
        tc.pp(&wlet)
    );
}

#[test]
fn cases_on_lambda_converts_to_rec_lambda() {
    let mut env = Environment::default();
    insert_mini_psigma(&mut env);
    let a_ty = expr::const_(3, vec![]);
    let b_ty = expr::const_(4, vec![]);
    let psigma_ab = expr::apps(expr::const_(0, vec![]), &vec![a_ty.clone(), b_ty.clone()]);
    let sort1 = expr::sort(level::succ(level::zero()));
    let motive = expr::lam(expr::BinderInfo::Default, psigma_ab.clone(), a_ty.clone());
    let minor_ty = expr::pi(
        expr::BinderInfo::Default,
        a_ty.clone(),
        expr::pi(expr::BinderInfo::Default, b_ty.clone(), a_ty.clone()),
    );
    let cases_val = expr::lam(
        expr::BinderInfo::Default,
        sort1.clone(),
        expr::lam(
            expr::BinderInfo::Default,
            sort1.clone(),
            expr::lam(
                expr::BinderInfo::Default,
                expr::pi(expr::BinderInfo::Default, psigma_ab.clone(), sort1.clone()),
                expr::lam(
                    expr::BinderInfo::Default,
                    psigma_ab.clone(),
                    expr::lam(
                        expr::BinderInfo::Default,
                        minor_ty.clone(),
                        expr::apps(
                            expr::const_(2, vec![]),
                            &vec![
                                expr::bvar(4),
                                expr::bvar(3),
                                expr::bvar(2),
                                expr::lam(
                                    expr::BinderInfo::Default,
                                    a_ty.clone(),
                                    expr::lam(
                                        expr::BinderInfo::Default,
                                        b_ty.clone(),
                                        expr::apps(
                                            expr::bvar(2),
                                            &vec![expr::bvar(1), expr::bvar(0)],
                                        ),
                                    ),
                                ),
                                expr::bvar(1),
                            ],
                        ),
                    ),
                ),
            ),
        ),
    );
    env.insert(
        5,
        ConstantInfo::Def {
            level_params: vec![],
            typ: sort1,
            value: cases_val,
            hints: ReducibilityHints::Abbrev,
            is_unsafe: false,
        },
    );
    let names = test_names(&[
        "PSigma",
        "PSigma.mk",
        "PSigma.rec",
        "A",
        "B",
        "PSigma.casesOn",
    ]);
    let tc = Checker::new(&env, &names, None, None);
    let minor = expr::lam(
        expr::BinderInfo::Default,
        a_ty.clone(),
        expr::lam(expr::BinderInfo::Default, b_ty.clone(), expr::bvar(1)),
    );
    let cases_app = expr::apps(
        expr::const_(5, vec![]),
        &vec![
            a_ty.clone(),
            b_ty.clone(),
            motive.clone(),
            expr::bvar(0),
            minor.clone(),
        ],
    );
    let rec_app = expr::apps(
        expr::const_(2, vec![]),
        &vec![a_ty, b_ty, motive, minor, expr::bvar(0)],
    );
    let lam_cases = expr::lam(
        expr::BinderInfo::Default,
        psigma_ab.clone(),
        cases_app,
    );
    let lam_rec = expr::lam(expr::BinderInfo::Default, psigma_ab, rec_app);
    let eq = tc.is_def_eq(&Ctx::new(), &lam_cases, &lam_rec).unwrap_or(false);
    assert!(
        eq,
        "λ p, casesOn p minor must convert to λ p, rec (λ a b, minor a b) p"
    );
}

#[test]
fn large_regular_defeq_via_lazy_delta() {
    let mut env = Environment::default();
    let sort1 = expr::sort(level::succ(level::zero()));
    let dummy = expr::const_(0, vec![]);
    env.insert(
        0,
        ConstantInfo::Axiom {
            level_params: vec![],
            typ: sort1.clone(),
            is_unsafe: false,
        },
    );
    let pad = bush(dummy.clone(), 13);
    assert!(
        expr_size_capped(&pad, 10_000) >= 4_096,
        "pad must exceed the WHNF Regular cap"
    );
    let value = expr::lam(
        expr::BinderInfo::Default,
        sort1.clone(),
        expr::app(
            expr::lam(expr::BinderInfo::Default, sort1.clone(), expr::bvar(1)),
            pad,
        ),
    );
    env.insert(
        1,
        ConstantInfo::Def {
            level_params: vec![],
            typ: expr::pi(expr::BinderInfo::Default, sort1.clone(), sort1.clone()),
            value,
            hints: ReducibilityHints::Regular(1),
            is_unsafe: false,
        },
    );
    let names = test_names(&["A", "hugeId"]);
    let tc = Checker::new(&env, &names, None, None);
    let arg = dummy;
    let lhs = expr::app(expr::const_(1, vec![]), arg.clone());
    let eq = tc.is_def_eq(&Ctx::new(), &lhs, &arg).unwrap_or(false);
    assert!(
        eq,
        "lazy delta must unfold a large Regular: {} vs {}",
        tc.pp(&lhs),
        tc.pp(&arg)
    );
}


fn insert_mini_nat0(env: &mut Environment) {
    let sort1 = expr::sort(level::succ(level::zero()));
    let nat0 = expr::const_(0, vec![]);
    env.insert(
        0,
        ConstantInfo::InductiveType {
            level_params: vec![],
            typ: sort1.clone(),
            num_params: 0,
            num_indices: 0,
            all: vec![0],
            ctors: vec![1, 2],
            is_rec: true,
            is_unsafe: false,
        },
    );
    env.insert(
        1,
        ConstantInfo::Constructor {
            level_params: vec![],
            typ: nat0.clone(),
            induct: 0,
            cidx: 0,
            num_params: 0,
            num_fields: 0,
            is_unsafe: false,
        },
    );
    env.insert(
        2,
        ConstantInfo::Constructor {
            level_params: vec![],
            typ: expr::pi(expr::BinderInfo::Default, nat0.clone(), nat0.clone()),
            induct: 0,
            cidx: 1,
            num_params: 0,
            num_fields: 1,
            is_unsafe: false,
        },
    );
    env.insert(
        3,
        ConstantInfo::Recursor {
            level_params: vec![],
            typ: sort1,
            all: vec![0],
            num_params: 0,
            num_indices: 0,
            num_motives: 1,
            num_minors: 2,
            rules: vec![
                RecRule {
                    ctor: 1,
                    nfields: 0,
                    rhs: expr::bvar(0),
                },
                RecRule {
                    ctor: 2,
                    nfields: 1,
                    rhs: expr::bvar(0),
                },
            ],
            k: false,
            is_unsafe: false,
        },
    );
    env.set_rec_of(0, 3);
}

fn nat0_lit(n: u32) -> Expr {
    let z = expr::const_(1, vec![]);
    let s = expr::const_(2, vec![]);
    let mut cur = z;
    for _ in 0..n {
        cur = expr::app(s.clone(), cur);
    }
    cur
}

#[test]
fn nbe_nat0_rec_add_matches_eager() {
    let mut env = Environment::default();
    insert_mini_nat0(&mut env);
    let names = test_names(&["Nat0", "Nat0.Z", "Nat0.S", "Nat0.rec"]);
    let tc = Checker::new(&env, &names, None, None);

    let nat0 = expr::const_(0, vec![]);
    let s = expr::const_(2, vec![]);
    let rec_ = expr::const_(3, vec![]);
    let motive = expr::lam(expr::BinderInfo::Default, nat0.clone(), nat0.clone());
    let base = nat0_lit(1); // add's `m`
    let step = expr::lam(
        expr::BinderInfo::Default,
        nat0.clone(),
        expr::lam(
            expr::BinderInfo::Default,
            nat0,
            expr::app(s, expr::bvar(0)),
        ),
    );
    let two = nat0_lit(2);
    let rec_app = expr::apps(rec_, &vec![motive, base, step, two.clone()]);
    let three = nat0_lit(3);

    let ctx = Ctx::new();
    assert!(
        tc.is_def_eq(&ctx, &rec_app, &three).unwrap(),
        "eager: add 2 1 must convert to 3"
    );
    assert!(
        via_nbe(&tc, &ctx, &rec_app, &three).unwrap(),
        "nbe: add 2 1 must convert to 3"
    );
    assert!(
        !tc.is_def_eq(&ctx, &rec_app, &two).unwrap(),
        "eager: add 2 1 must not convert to 2"
    );
    assert!(
        !via_nbe(&tc, &ctx, &rec_app, &two).unwrap(),
        "nbe: add 2 1 must not convert to 2"
    );

    let v = eval(&tc, &generic_env(0), &rec_app).unwrap();
    let q = quote(&tc, 0, &v).unwrap();
    assert!(
        tc.is_def_eq(&ctx, &q, &three).unwrap(),
        "quoted NbE normal form must eager-convert to 3, got {}",
        tc.pp(&q)
    );
    assert!(!tc.is_def_eq(&ctx, &q, &two).unwrap());
}

#[test]
fn nbe_beta_matches_eager_on_axioms() {
    let mut env = Environment::default();
    let sort1 = expr::sort(level::succ(level::zero()));
    env.insert(
        0,
        ConstantInfo::Axiom {
            level_params: vec![],
            typ: sort1.clone(),
            is_unsafe: false,
        },
    );
    env.insert(
        1,
        ConstantInfo::Axiom {
            level_params: vec![],
            typ: expr::const_(0, vec![]),
            is_unsafe: false,
        },
    );
    env.insert(
        2,
        ConstantInfo::Axiom {
            level_params: vec![],
            typ: expr::const_(0, vec![]),
            is_unsafe: false,
        },
    );
    let names = test_names(&["A", "a", "star"]);
    let tc = Checker::new(&env, &names, None, None);
    let a_ty = expr::const_(0, vec![]);
    let a = expr::const_(1, vec![]);
    let star = expr::const_(2, vec![]);
    let redex = expr::app(
        expr::lam(expr::BinderInfo::Default, a_ty, a.clone()),
        star,
    );
    let ctx = Ctx::new();
    assert!(tc.is_def_eq(&ctx, &redex, &a).unwrap());
    assert!(via_nbe(&tc, &ctx, &redex, &a).unwrap());
    assert!(!tc.is_def_eq(&ctx, &redex, &expr::const_(2, vec![])).unwrap());
    assert!(!via_nbe(&tc, &ctx, &redex, &expr::const_(2, vec![]))
        .unwrap());

    let v = eval(&tc, &generic_env(0), &redex).unwrap();
    let q = quote(&tc, 0, &v).unwrap();
    assert!(expr::rec_expr_eq(&q, &a), "quoted beta-redex must be `a` itself, got {}", tc.pp(&q));
}

#[test]
fn nbe_never_confirms_true_when_eager_says_false() {
    let mut env = Environment::default();
    insert_mini_nat0(&mut env);
    let names = test_names(&["Nat0", "Nat0.Z", "Nat0.S", "Nat0.rec"]);
    let tc = Checker::new(&env, &names, None, None);
    let ctx = Ctx::new();
    for i in 0..5u32 {
        for j in 0..5u32 {
            let a = nat0_lit(i);
            let b = nat0_lit(j);
            let eager = tc.is_def_eq(&ctx, &a, &b).unwrap();
            let nbe = via_nbe(&tc, &ctx, &a, &b).unwrap();
            assert_eq!(eager, i == j);
            assert_eq!(nbe, eager, "nbe/eager disagree on Nat0 {i} vs {j}");
        }
    }
}


fn insert_mini_natlit(env: &mut Environment) {
    insert_mini_nat0(env);
}

fn add_one_rec_app(motive: &Expr, step: &Expr, n: u32) -> Expr {
    let rec_ = expr::const_(3, vec![]);
    let base = expr::lit_nat(Natural::from_u64(1));
    expr::apps(
        rec_,
        &vec![
            motive.clone(),
            base,
            step.clone(),
            expr::lit_nat(Natural::from_u64(n as u64)),
        ],
    )
}

#[test]
fn overlapping_literal_countdowns_convert() {
    let mut env = Environment::default();
    insert_mini_natlit(&mut env);
    let names = test_names(&["Nat0", "Nat0.Z", "Nat0.S", "Nat0.rec"]);
    let tc = Checker::new(&env, &names, Some(0), None);
    let ctx = Ctx::new();

    let nat0 = expr::const_(0, vec![]);
    let motive = expr::lam(expr::BinderInfo::Default, nat0.clone(), nat0.clone());
    let s = expr::const_(2, vec![]);
    let step = expr::lam(
        expr::BinderInfo::Default,
        nat0.clone(),
        expr::lam(expr::BinderInfo::Default, nat0, expr::app(s, expr::bvar(0))),
    );

    let ten = add_one_rec_app(&motive, &step, 10);
    let eleven = nat0_lit(11);
    assert!(tc.is_def_eq(&ctx, &ten, &eleven).unwrap(), "add 10 1 must convert to 11");

    let seven = add_one_rec_app(&motive, &step, 7);
    let eight = nat0_lit(8);
    assert!(tc.is_def_eq(&ctx, &seven, &eight).unwrap(), "add 7 1 must convert to 8");
}

#[test]
fn a_literal_countdown_converts_whatever_came_before() {
    let mut env = Environment::default();
    insert_mini_natlit(&mut env);
    let names = test_names(&["Nat0", "Nat0.Z", "Nat0.S", "Nat0.rec"]);
    let tc = Checker::new(&env, &names, Some(0), None);
    let ctx = Ctx::new();
    let nat0 = expr::const_(0, vec![]);
    let motive = expr::lam(expr::BinderInfo::Default, nat0.clone(), nat0.clone());
    let s = expr::const_(2, vec![]);
    let step = expr::lam(
        expr::BinderInfo::Default,
        nat0.clone(),
        expr::lam(expr::BinderInfo::Default, nat0, expr::app(s, expr::bvar(0))),
    );
    let ten = add_one_rec_app(&motive, &step, 10);
    let eleven = nat0_lit(11);
    assert!(tc.is_def_eq(&ctx, &ten, &eleven).unwrap());
    let seven = add_one_rec_app(&motive, &step, 7);
    let eight = nat0_lit(8);
    assert!(tc.is_def_eq(&ctx, &seven, &eight).unwrap());
}

#[test]
fn infer_type_value_matches_eager_on_lam_pi_app_let() {
    let mut env = Environment::default();
    let sort1 = expr::sort(level::succ(level::zero()));
    env.insert(
        0,
        ConstantInfo::Axiom {
            level_params: vec![],
            typ: sort1,
            is_unsafe: false,
        },
    );
    let a_ty = expr::const_(0, vec![]);
    env.insert(
        1,
        ConstantInfo::Axiom {
            level_params: vec![],
            typ: a_ty.clone(),
            is_unsafe: false,
        },
    );
    let names = test_names(&["A", "a"]);
    let tc = Checker::new(&env, &names, None, None);
    let a_val = expr::const_(1, vec![]);

    let inner_let = expr::let_(a_ty.clone(), a_val.clone(), expr::bvar(1));
    let f = expr::lam(expr::BinderInfo::Default, a_ty.clone(), inner_let);

    let (tys, venv) = (VEnv::empty(), VEnv::empty());
    let ctx = Ctx::new();
    let ft_v = infer_value(&tc, &ctx, &tys, &venv, &f).unwrap();
    let ft_q = quote(&tc, 0, &ft_v).unwrap();
    let ft_eager = tc.infer_type(&ctx, &f).unwrap();
    assert!(
        tc.is_def_eq(&ctx, &ft_q, &ft_eager).unwrap(),
        "infer_type_value(f) = {} must eager-convert to infer_type(f) = {}",
        tc.pp(&ft_q),
        tc.pp(&ft_eager)
    );
    assert!(matches!(&ft_v, Value::Pi(..)));

    let app = expr::app(f, a_val);
    let at_v = infer_value(&tc, &ctx, &tys, &venv, &app).unwrap();
    let at_q = quote(&tc, 0, &at_v).unwrap();
    assert!(
        tc.is_def_eq(&ctx, &at_q, &a_ty).unwrap(),
        "infer_type_value(f a) must be A, got {}",
        tc.pp(&at_q)
    );

    let bad_app = expr::app(
        expr::lam(expr::BinderInfo::Default, a_ty.clone(), expr::bvar(0)),
        a_ty,
    );
    assert!(infer_value(&tc, &ctx, &tys, &venv, &bad_app).is_err());
}

#[test]
fn infer_type_value_matches_eager_on_proj() {
    let mut env = Environment::default();
    insert_mini_psigma(&mut env);
    let names = test_names(&["PSigma", "PSigma.mk", "PSigma.rec", "A", "B"]);
    let tc = Checker::new(&env, &names, None, None);
    let a = expr::const_(3, vec![]);
    let b = expr::const_(4, vec![]);
    let psigma_ab = expr::apps(expr::const_(0, vec![]), &vec![a.clone(), b]);

    let (tys0, venv0) = (VEnv::empty(), VEnv::empty());
    let ctx0 = Ctx::new();
    let psigma_ty_v = infer_value(&tc, &ctx0, &tys0, &venv0, &psigma_ab).unwrap();
    assert!(matches!(&psigma_ty_v, Value::Sort(_)));
    let psigma_ty_val = eval(&tc, &venv0, &psigma_ab).unwrap();
    let mut ctx = Ctx::new();
    ctx.push(psigma_ab.clone());
    let tys = tys0.bind(Rc::new(Thunk::Forced(Rc::new(psigma_ty_val))));
    let venv = venv0.bind(Rc::new(Thunk::Forced(Rc::new(Value::Neutral(Neutral::Var(0))))));

    let proj0 = expr::proj(0, 0, expr::bvar(0));
    let t_v = infer_value(&tc, &ctx, &tys, &venv, &proj0).unwrap();
    let t_q = quote(&tc, 1, &t_v).unwrap();

    let t_eager = tc.infer_proj_at(tc.budget, Mode::start(), &ctx, 0, 0, &expr::bvar(0)).unwrap();
    assert!(
        tc.is_def_eq(&ctx, &t_q, &t_eager).unwrap(),
        "infer_type_value(proj 0 0 #0) = {} must eager-convert to infer_proj = {}",
        tc.pp(&t_q),
        tc.pp(&t_eager)
    );
    assert!(expr::rec_expr_eq(&t_q, &a), "first field of PSigma A B must infer to A, got {}", tc.pp(&t_q));
}

fn insert_mini_acc(env: &mut Environment) {
    let sort0 = expr::sort(level::zero());
    let sort1 = expr::sort(level::succ(level::zero()));
    let nat = expr::const_(0, vec![]);
    let myacc_ty = expr::pi(expr::BinderInfo::Default, nat.clone(), sort0.clone());
    env.insert(
        1,
        ConstantInfo::InductiveType {
            level_params: vec![],
            typ: myacc_ty.clone(),
            num_params: 0,
            num_indices: 1,
            all: vec![1],
            ctors: vec![2],
            is_rec: true,
            is_unsafe: false,
        },
    );
    let field_ty = expr::pi(expr::BinderInfo::Default, nat.clone(), expr::app(expr::const_(1, vec![]), expr::bvar(0)));
    let intro_ty = expr::pi(
        expr::BinderInfo::Default,
        nat.clone(),
        expr::pi(
            expr::BinderInfo::Default,
            field_ty,
            expr::app(expr::const_(1, vec![]), expr::bvar(1)),
        ),
    );
    env.insert(
        2,
        ConstantInfo::Constructor {
            level_params: vec![],
            typ: intro_ty,
            induct: 1,
            cidx: 0,
            num_params: 0,
            num_fields: 2,
            is_unsafe: false,
        },
    );
    env.insert(
        3,
        ConstantInfo::Recursor {
            level_params: vec![],
            typ: sort1,
            all: vec![1],
            num_params: 0,
            num_indices: 1,
            num_motives: 1,
            num_minors: 1,
            rules: vec![RecRule {
                ctor: 2,
                nfields: 2,
                rhs: expr::bvar(0),
            }],
            k: false,
            is_unsafe: false,
        },
    );
    env.set_rec_of(1, 3);
}

fn mini_acc_motive_and_minor() -> (Expr, Expr) {
    let nat = expr::const_(0, vec![]);
    let motive = expr::lam(
        expr::BinderInfo::Default,
        nat.clone(),
        expr::lam(
            expr::BinderInfo::Default,
            expr::app(expr::const_(1, vec![]), expr::bvar(0)),
            nat.clone(),
        ),
    );
    let minor = expr::lam(
        expr::BinderInfo::Default,
        nat.clone(),
        expr::lam(
            expr::BinderInfo::Default,
            expr::pi(
                expr::BinderInfo::Default,
                nat.clone(),
                expr::app(expr::const_(1, vec![]), expr::bvar(0)),
            ),
            expr::lam(
                expr::BinderInfo::Default,
                expr::pi(expr::BinderInfo::Default, nat.clone(), nat.clone()),
                expr::bvar(2),
            ),
        ),
    );
    (motive, minor)
}

#[test]
fn try_iota_value_reduces_indexed_higher_order_ctor_major() {
    let mut env = Environment::default();
    insert_mini_acc(&mut env);
    let names = test_names(&["Nat0", "MyAcc", "MyAcc.intro", "MyAcc.rec"]);
    let tc = Checker::new(&env, &names, None, None);

    let nat = expr::const_(0, vec![]);
    let x = expr::lit_nat(Natural::from_u64(7));
    let (motive, minor) = mini_acc_motive_and_minor();
    let g = expr::lam(expr::BinderInfo::Default, nat, x.clone());
    let intro = expr::apps(expr::const_(2, vec![]), &vec![x.clone(), g]);
    let rec_app = expr::apps(expr::const_(3, vec![]), &vec![motive, minor, x.clone(), intro]);

    let v = eval(&tc, &generic_env(0), &rec_app).unwrap();
    match &v {
        Value::Lit(Lit::Nat(n)) => {
            assert!(n.same(&Natural::from_u64(7)));
        }
        other => panic!(
            "MyAcc.rec on a literal MyAcc.intro major must reduce to the index (7), got {}",
            tc.pp(&quote(&tc, 0, other).unwrap())
        ),
    }
}

#[test]
fn try_iota_value_still_declines_when_major_is_not_a_ctor() {
    let mut env = Environment::default();
    insert_mini_acc(&mut env);
    let names = test_names(&["Nat0", "MyAcc", "MyAcc.intro", "MyAcc.rec"]);
    let tc = Checker::new(&env, &names, None, None);

    let x = expr::lit_nat(Natural::from_u64(7));
    let (motive, minor) = mini_acc_motive_and_minor();
    let major_var = expr::bvar(0);
    let rec_app = expr::apps(expr::const_(3, vec![]), &vec![motive, minor, x, major_var]);

    let env1 = generic_env(1);
    let v = eval(&tc, &env1, &rec_app).unwrap();
    assert!(
        matches!(&v, Value::Neutral(_)),
        "a non-constructor major must stay neutral (declined, not reduced), got {}",
        tc.pp(&quote(&tc, 1, &v).unwrap())
    );
}
