use kiota::ctx::{intern_ctx_id, local_ty, Ctx, CtxIds};
use kiota::expr;
use kiota::expr::{Expr, ExprData};
use kiota::level;

fn ty(n: u32) -> Expr {
    expr::const_(n, vec![])
}

fn ctx_of(ns: &[u32]) -> Ctx {
    let mut c = Ctx::new();
    for n in ns {
        c.push(ty(*n));
    }
    c
}

#[test]
fn instantiate1_keeps_the_type_at_the_same_depth() {
    let s0 = expr::sort(level::zero());
    let inner = expr::pi(
        expr::BinderInfo::Default,
        s0.clone(),
        expr::app(expr::bvar(1), expr::bvar(0)),
    );
    let ct = expr::pi(expr::BinderInfo::Default, s0.clone(), inner);
    let field = expr::const_(7, vec![]);
    let body = match ct.data() {
        ExprData::Pi(_, _, b) => b.clone(),
        _ => unreachable!(),
    };
    let next = expr::instantiate1(&body, &field);
    assert_eq!(
        expr::loose_bvar_range(&next),
        expr::loose_bvar_range(&ct),
        "instantiating the peeled binder must not deepen the residual type"
    );
}

#[test]
fn ctx_id_identifies_the_binding_sequence() {
    let mut ids = CtxIds::new();
    assert_eq!(Ctx::new().id(&mut ids), 0, "the empty context is the zero id");
    assert_ne!(ctx_of(&[1]).id(&mut ids), 0, "a non-empty context is never the zero id");

    assert_eq!(ctx_of(&[1, 2, 3]).id(&mut ids), ctx_of(&[1, 2, 3]).id(&mut ids));
    let mut grown = ctx_of(&[1, 2]);
    grown.push(ty(3));
    assert_eq!(grown.id(&mut ids), ctx_of(&[1, 2, 3]).id(&mut ids));

    assert_ne!(ctx_of(&[1, 2]).id(&mut ids), ctx_of(&[2, 1]).id(&mut ids));
    assert_ne!(ctx_of(&[1, 2]).id(&mut ids), ctx_of(&[1, 3]).id(&mut ids));
    assert_ne!(ctx_of(&[1, 2]).id(&mut ids), ctx_of(&[1, 2, 3]).id(&mut ids));
    assert_ne!(ctx_of(&[1]).id(&mut ids), ctx_of(&[2]).id(&mut ids));
}

#[test]
fn suffix_ctx_key_uses_innermost_k_binders() {
    let mut ids = CtxIds::new();
    let a = ctx_of(&[1, 2, 3]);
    let b = ctx_of(&[9, 2, 3]);
    assert_ne!(a.id(&mut ids), b.id(&mut ids), "full telescopes differ at the outer binder");
    let e = expr::bvar(0);
    assert_eq!(
        a.term_ctx_key(&mut ids, &e),
        b.term_ctx_key(&mut ids, &e),
        "loose=1 keys on the innermost binder only"
    );
    let e1 = expr::app(expr::bvar(1), expr::bvar(0));
    assert_eq!(
        a.term_ctx_key(&mut ids, &e1),
        b.term_ctx_key(&mut ids, &e1),
        "loose=2 keys on the two innermost binders"
    );
    let e2 = expr::bvar(2);
    assert_ne!(
        a.term_ctx_key(&mut ids, &e2),
        b.term_ctx_key(&mut ids, &e2),
        "loose=3 sees the outer binder"
    );
    assert_eq!(a.term_ctx_key(&mut ids, &ty(0)), 0, "closed terms keep ctx_key 0");
}

#[test]
fn ctx_key_uses_actual_bvar_types_not_unused_inner() {
    let mut ids = CtxIds::new();
    let a = ctx_of(&[1, 2, 3]);
    let b = ctx_of(&[1, 9, 3]);
    assert_ne!(a.id(&mut ids), b.id(&mut ids), "middle binder differs");
    let e = expr::bvar(2);
    assert_eq!(
        a.term_ctx_key(&mut ids, &e),
        b.term_ctx_key(&mut ids, &e),
        "bvar 2 keys on that binder's type only, not unused inner binders"
    );
    let mk = expr::app(expr::app(ty(5), expr::bvar(2)), expr::bvar(2));
    assert_eq!(
        a.pair_ctx_key(&mut ids, &mk, &mk),
        b.pair_ctx_key(&mut ids, &mk, &mk),
        "structure-ctor apps that only mention bvar 2 share a pair key"
    );
    assert_ne!(
        a.term_ctx_key(&mut ids, &expr::bvar(1)),
        b.term_ctx_key(&mut ids, &expr::bvar(1)),
        "a term that uses the middle binder still sees the difference"
    );
}

#[test]
fn suffix_ctx_key_shares_open_innermost_binder() {
    let mut ids = CtxIds::new();
    let vec0 = expr::app(ty(99), expr::bvar(0));
    assert!(expr::loose_bvar_range(&vec0) > 0);
    let mut a = Ctx::new();
    a.push(ty(1));
    a.push(vec0.clone());
    let mut b = Ctx::new();
    b.push(ty(2));
    b.push(vec0);
    let e = expr::bvar(0);
    assert_eq!(
        a.term_ctx_key(&mut ids, &e),
        b.term_ctx_key(&mut ids, &e),
        "loose=1 keys on the raw innermost type, even when that type mentions the parent"
    );
    assert_ne!(a.id(&mut ids), b.id(&mut ids));
}

#[test]
fn ctx_id_tracks_every_push() {
    let mut ids = CtxIds::new();
    let mut c = Ctx::new();
    let mut seen = vec![c.id(&mut ids)];
    for n in 0..8u32 {
        c.push(ty(n));
        assert_eq!(c.len(), n as usize + 1);
        let id = c.id(&mut ids);
        assert!(!seen.contains(&id), "push must not reuse an ancestor's id");
        seen.push(id);
    }
}

#[test]
fn ctx_indexes_from_the_bottom() {
    let c = ctx_of(&[7, 8, 9]);
    assert!(expr::rec_expr_eq(c.at(0), &ty(7)));
    assert!(expr::rec_expr_eq(c.at(2), &ty(9)));
    let t0 = local_ty(&c, 0).unwrap();
    assert!(expr::rec_expr_eq(&t0, &ty(9)), "bvar 0 is the innermost binder");
    let t2 = local_ty(&c, 2).unwrap();
    assert!(expr::rec_expr_eq(&t2, &ty(7)));
    assert!(local_ty(&c, 3).is_none());
}

#[test]
fn ctx_id_is_insensitive_to_cloning() {
    let mut ids = CtxIds::new();
    let a = ctx_of(&[1, 2]);
    let b = a.clone();
    assert_eq!(a.id(&mut ids), b.id(&mut ids));
    let mut c = b.clone();
    c.push(expr::sort(level::zero()));
    assert_eq!(
        a.id(&mut ids),
        b.id(&mut ids),
        "extending a clone must not disturb the original"
    );
    assert_ne!(c.id(&mut ids), a.id(&mut ids));
}

#[test]
fn an_interned_step_is_found_again() {
    let mut ids = CtxIds::new();
    let one = intern_ctx_id(&mut ids, 0, &ty(4));
    let two = intern_ctx_id(&mut ids, one, &ty(4));
    assert_ne!(one, two);
    assert_eq!(intern_ctx_id(&mut ids, 0, &ty(4)), one);
    assert_eq!(intern_ctx_id(&mut ids, one, &ty(4)), two);
    assert_ne!(intern_ctx_id(&mut ids, 0, &ty(5)), one);
}

#[test]
fn a_local_type_is_lifted_over_what_follows_it() {
    let mut c = Ctx::new();
    c.push(ty(1));
    c.push(expr::app(ty(2), expr::bvar(0)));
    c.push(ty(3));
    let t = local_ty(&c, 1).unwrap();
    assert!(expr::rec_expr_eq(&t, &expr::app(ty(2), expr::bvar(2))));
}

#[test]
fn equality_of_terms_is_structural() {
    let a = expr::app(ty(1), expr::bvar(0));
    assert!(expr::rec_expr_eq(&a, &a.clone()));
    assert!(expr::rec_expr_eq(&a, &expr::app(ty(1), expr::bvar(0))));
    assert!(!expr::rec_expr_eq(&a, &expr::app(ty(1), expr::bvar(1))));
    let l = expr::lam(expr::BinderInfo::Default, ty(0), expr::bvar(0));
    let p = expr::pi(expr::BinderInfo::Default, ty(0), expr::bvar(0));
    assert!(!expr::rec_expr_eq(&l, &p));
}

#[test]
fn sizes_are_capped() {
    let mut e = ty(0);
    for _ in 0..10 {
        e = expr::app(e.clone(), e.clone());
    }
    assert_eq!(expr::expr_size_capped(&e, 100_000), 2047);
    assert_eq!(expr::expr_size_capped(&e, 500), 500);
}
