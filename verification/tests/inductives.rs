use kiota::ctx::Ctx;
use kiota::env::{ConstantInfo, Environment};
use kiota::errors::{TcError, R};
use kiota::expr::{rec_expr_eq, BinderInfo, Expr};
use kiota::expr;
use kiota::kernel::{Checker, Mode};
use kiota::level;
use kiota::members::{RecConstructor, RecMember};
use kiota::positive::{shift_visiting, Bound};
use std::rc::Rc;

/// An environment together with the names of its constants.
struct World {
    env: Environment,
    names: Vec<Rc<String>>,
}

impl World {
    fn new() -> World {
        World { env: Environment::new(), names: vec![] }
    }

    fn id(&mut self, text: &str) -> u32 {
        for (i, n) in self.names.iter().enumerate() {
            if n.as_str() == text {
                return i as u32;
            }
        }
        self.names.push(Rc::new(text.to_string()));
        (self.names.len() - 1) as u32
    }

    fn con(&mut self, text: &str) -> Expr {
        let n = self.id(text);
        expr::const_(n, vec![])
    }

    fn given(&mut self, text: &str, typ: Expr) -> Expr {
        let n = self.id(text);
        self.env.insert(n, ConstantInfo::Axiom { level_params: vec![], typ, is_unsafe: false });
        expr::const_(n, vec![])
    }

    fn inductive(
        &mut self,
        text: &str,
        typ: Expr,
        num_params: u32,
        num_indices: u32,
        ctors: &[(&str, u32, Expr)],
        is_rec: bool,
    ) -> u32 {
        let n = self.id(text);
        let mut ids: Vec<u32> = vec![];
        for (i, (c, fields, ct)) in ctors.iter().enumerate() {
            let cid = self.id(c);
            self.env.insert(
                cid,
                ConstantInfo::Constructor {
                    level_params: vec![],
                    typ: ct.clone(),
                    induct: n,
                    cidx: i as u32,
                    num_params,
                    num_fields: *fields,
                    is_unsafe: false,
                },
            );
            ids.push(cid);
        }
        self.env.insert(
            n,
            ConstantInfo::InductiveType {
                level_params: vec![],
                typ,
                num_params,
                num_indices,
                all: vec![n],
                ctors: ids,
                is_rec,
                is_unsafe: false,
            },
        );
        n
    }

    fn checker(&self) -> Checker<'_> {
        let mut nat_id: Option<u32> = None;
        let mut string_id: Option<u32> = None;
        for (i, n) in self.names.iter().enumerate() {
            if n.as_str() == "Nat" {
                nat_id = Some(i as u32);
            }
            if n.as_str() == "String" {
                string_id = Some(i as u32);
            }
        }
        Checker::new(&self.env, &self.names, nat_id, string_id)
    }
}

fn prop() -> Expr {
    expr::sort(level::zero())
}

fn type0() -> Expr {
    expr::sort(level::succ(level::zero()))
}

fn arrow(a: Expr, b: Expr) -> Expr {
    expr::pi(BinderInfo::Default, a, b)
}

fn v(i: u32) -> Expr {
    expr::bvar(i)
}

fn call(f: &Expr, args: &[Expr]) -> Expr {
    expr::apps(f.clone(), &args.to_vec())
}

fn rejected<T>(r: R<T>, text: &str) {
    match r {
        Err(TcError::Reject(m)) => assert_eq!(m, text),
        Err(TcError::Decline(m)) => panic!("declined: {}", m),
        Err(TcError::Other(m)) => panic!("malformed: {}", m),
        Ok(_) => panic!("accepted, not rejected for: {}", text),
    }
}

fn declined<T>(r: R<T>, text: &str) {
    match r {
        Err(TcError::Decline(m)) => assert_eq!(m, text),
        Err(TcError::Reject(m)) => panic!("rejected: {}", m),
        Err(TcError::Other(m)) => panic!("malformed: {}", m),
        Ok(_) => panic!("accepted, not declined for: {}", text),
    }
}

fn malformed<T>(r: R<T>, text: &str) {
    match r {
        Err(TcError::Other(m)) => assert_eq!(m, text),
        Err(TcError::Reject(m)) => panic!("rejected: {}", m),
        Err(TcError::Decline(m)) => panic!("declined: {}", m),
        Ok(_) => panic!("accepted, not refused for: {}", text),
    }
}

fn nat_world() -> World {
    let mut w = World::new();
    let t = w.con("Nat");
    w.inductive(
        "Nat",
        type0(),
        0,
        0,
        &[("Nat.zero", 0, t.clone()), ("Nat.succ", 1, arrow(t.clone(), t))],
        true,
    );
    w
}

fn one_ctor(typ: Expr, fields: u32, of: fn(&Expr) -> Expr) -> World {
    let mut w = World::new();
    w.given("A", type0());
    let t = w.con("T");
    let ct = of(&t);
    w.inductive("T", typ, 0, 0, &[("T.mk", fields, ct)], true);
    w
}

fn group(w: &mut World, name: &str) -> R<()> {
    let n = w.id(name);
    w.checker().check_inductive_group(n)
}

fn list_into(w: &mut World) -> Expr {
    let l = w.con("List");
    let nil = arrow(type0(), call(&l, &[v(0)]));
    let cons = arrow(
        type0(),
        arrow(v(0), arrow(call(&l, &[v(1)]), call(&l, &[v(2)]))),
    );
    w.inductive(
        "List",
        arrow(type0(), type0()),
        1,
        0,
        &[("List.nil", 0, nil), ("List.cons", 2, cons)],
        true,
    );
    l
}

#[test]
fn natural_numbers_are_accepted() {
    let mut w = nat_world();
    assert!(group(&mut w, "Nat").is_ok());
    assert!(group(&mut w, "Nat.zero").is_ok());
    malformed(group(&mut w, "Int"), "missing inductive");
}

#[test]
fn lists_are_accepted() {
    let mut w = World::new();
    list_into(&mut w);
    assert!(group(&mut w, "List").is_ok());
}

#[test]
fn a_repeated_universe_parameter_of_a_group_is_rejected() {
    let mut w = World::new();
    let n = w.id("T");
    w.env.insert(
        n,
        ConstantInfo::InductiveType {
            level_params: vec![1, 1],
            typ: type0(),
            num_params: 0,
            num_indices: 0,
            all: vec![n],
            ctors: vec![],
            is_rec: false,
            is_unsafe: false,
        },
    );
    rejected(group(&mut w, "T"), "inductive type: duplicate universe parameter");
}

#[test]
fn a_negative_occurrence_is_rejected() {
    let mut w = one_ctor(type0(), 1, |t| arrow(arrow(t.clone(), expr::const_(0, vec![])), t.clone()));
    rejected(group(&mut w, "T"), "non-positive (negative) occurrence in constructor argument");
    let mut w = one_ctor(type0(), 1, |t| arrow(arrow(expr::const_(0, vec![]), t.clone()), t.clone()));
    assert!(group(&mut w, "T").is_ok());
}

#[test]
fn a_field_fits_into_the_universe_of_its_type() {
    let mut w = one_ctor(type0(), 1, |t| arrow(type0(), t.clone()));
    rejected(
        group(&mut w, "T"),
        "constructor field universe is too big for the inductive type",
    );
    let mut w = one_ctor(expr::sort(level::succ(level::succ(level::zero()))), 1, |t| {
        arrow(type0(), t.clone())
    });
    assert!(group(&mut w, "T").is_ok());
    let mut w = one_ctor(prop(), 1, |t| arrow(type0(), t.clone()));
    assert!(group(&mut w, "T").is_ok());
}

#[test]
fn a_constructor_returns_its_own_type() {
    let mut w = one_ctor(type0(), 0, |_| expr::const_(0, vec![]));
    rejected(
        group(&mut w, "T"),
        "constructor conclusion is not the inductive type being defined",
    );
    let mut w = World::new();
    let n = w.con("Nat");
    w.inductive("Nat", type0(), 0, 0, &[("Nat.zero", 0, n.clone())], false);
    let f = w.con("F");
    let zero = w.con("Nat.zero");
    w.inductive(
        "F",
        arrow(n.clone(), type0()),
        0,
        1,
        &[("F.mk", 0, call(&f, &[zero.clone()]))],
        false,
    );
    assert!(group(&mut w, "F").is_ok());
}

#[test]
fn a_constructor_applies_its_type_to_the_shared_parameters() {
    let mut w = World::new();
    let a = w.given("A", type0());
    let t = w.con("T");
    w.inductive(
        "T",
        arrow(type0(), type0()),
        1,
        0,
        &[("T.mk", 0, arrow(type0(), call(&t, &[a])))],
        false,
    );
    rejected(
        group(&mut w, "T"),
        "constructor does not apply the inductive type to its own shared parameters",
    );
}

#[test]
fn a_group_agrees_about_its_parameters() {
    let mut w = World::new();
    w.inductive("T", type0(), 0, 0, &[], false);
    let (t, u) = (w.id("T"), w.id("U"));
    for (n, np, typ) in [(t, 0, type0()), (u, 1, arrow(type0(), type0()))] {
        w.env.insert(
            n,
            ConstantInfo::InductiveType {
                level_params: vec![],
                typ,
                num_params: np,
                num_indices: 0,
                all: vec![t, u],
                ctors: vec![],
                is_rec: false,
                is_unsafe: false,
            },
        );
    }
    rejected(group(&mut w, "T"), "inconsistent numParams across mutual inductive group");
}

#[test]
fn a_constructor_agrees_with_its_type_about_the_parameters() {
    let mut w = World::new();
    let t = w.con("T");
    w.inductive("T", type0(), 0, 0, &[("T.mk", 0, t.clone())], false);
    let c = w.id("T.mk");
    let entry = |levels: Vec<u32>, np: u32| ConstantInfo::Constructor {
        level_params: levels,
        typ: t.clone(),
        induct: 0,
        cidx: 0,
        num_params: np,
        num_fields: 0,
        is_unsafe: false,
    };
    w.env.insert(c, entry(vec![], 1));
    rejected(group(&mut w, "T"), "constructor numParams does not match inductive type");
    w.env.insert(c, entry(vec![8], 0));
    rejected(
        group(&mut w, "T"),
        "constructor universe parameters do not match inductive type",
    );
}

#[test]
fn a_nested_type_is_accepted_through_a_positive_container() {
    let mut w = World::new();
    let l = list_into(&mut w);
    let t = w.con("Tree");
    w.inductive(
        "Tree",
        type0(),
        0,
        0,
        &[("Tree.node", 1, arrow(call(&l, &[t.clone()]), t.clone()))],
        true,
    );
    assert!(group(&mut w, "Tree").is_ok());
}

#[test]
fn a_nested_type_is_rejected_through_a_negative_container() {
    let mut w = World::new();
    let a = w.given("A", type0());
    let c = w.con("Cont");
    w.inductive(
        "Cont",
        arrow(type0(), type0()),
        1,
        0,
        &[("Cont.mk", 1, arrow(type0(), arrow(arrow(v(0), a.clone()), call(&c, &[v(1)]))))],
        false,
    );
    let t = w.con("Tree");
    w.inductive(
        "Tree",
        type0(),
        0,
        0,
        &[("Tree.node", 1, arrow(call(&c, &[t.clone()]), t.clone()))],
        true,
    );
    assert!(group(&mut w, "Cont").is_ok());
    rejected(
        group(&mut w, "Tree"),
        "non-positive (negative) occurrence in constructor argument",
    );
}

#[test]
fn an_occurrence_under_an_unknown_constant_is_rejected() {
    let mut w = World::new();
    let f = w.given("F", arrow(type0(), type0()));
    let t = w.con("T");
    w.inductive(
        "T",
        type0(),
        0,
        0,
        &[("T.mk", 1, arrow(call(&f, &[t.clone()]), t.clone()))],
        true,
    );
    rejected(group(&mut w, "T"), "occurrence of inductive type in unsupported position");
}

#[test]
fn a_type_that_does_not_mention_the_group_is_positive() {
    let mut w = World::new();
    let a = w.given("A", type0());
    let t = w.given("T", type0());
    let n = w.id("T");
    let tc = w.checker();
    let p = Bound { names: vec![n], num_params: 0 };
    let empty = Ctx::new();
    let m = Mode::start();
    let fine = arrow(arrow(a.clone(), a.clone()), a.clone());
    assert!(tc.check_arg_positive_in(m, &empty, &fine, &p, &vec![], 3).is_ok());
    assert!(tc.check_arg_positive_in(m, &empty, &arrow(a.clone(), t.clone()), &p, &vec![], 3).is_ok());
    rejected(
        tc.check_arg_positive_in(m, &empty, &arrow(t, a), &p, &vec![], 3),
        "non-positive (negative) occurrence in constructor argument",
    );
}

#[test]
fn instances_on_the_way_move_with_the_binders() {
    let seen = vec![(4, vec![v(0), v(3)])];
    let moved = shift_visiting(&seen, 2);
    assert_eq!(moved.len(), 1);
    assert_eq!(moved[0].0, 4);
    assert!(rec_expr_eq(&moved[0].1[0], &v(2)));
    assert!(rec_expr_eq(&moved[0].1[1], &v(5)));
    let still = shift_visiting(&seen, 0);
    assert!(rec_expr_eq(&still[0].1[1], &v(3)));
}

fn or_world(motive_sort: Expr) -> World {
    let mut w = World::new();
    let p = w.given("P", prop());
    let o = w.con("Or");
    w.inductive(
        "Or",
        prop(),
        0,
        0,
        &[
            ("Or.inl", 1, arrow(p.clone(), o.clone())),
            ("Or.inr", 1, arrow(p.clone(), o.clone())),
        ],
        false,
    );
    let r = w.id("Or.rec");
    let motive = arrow(o.clone(), motive_sort);
    w.env.insert(
        r,
        ConstantInfo::Recursor {
            level_params: vec![],
            typ: arrow(motive, arrow(o, call(&v(1), &[v(0)]))),
            all: vec![1],
            num_params: 0,
            num_indices: 0,
            num_motives: 1,
            num_minors: 2,
            rules: vec![],
            k: false,
            is_unsafe: false,
        },
    );
    w.env.set_rec_of(1, r);
    w
}

#[test]
fn a_choice_of_proofs_is_eliminated_into_propositions_alone() {
    let mut w = or_world(prop());
    assert!(group(&mut w, "Or").is_ok());
    assert!(w.checker().elim_only_at_universe_zero(Mode::start(), &vec![1]).unwrap());
    let mut w = or_world(type0());
    rejected(
        group(&mut w, "Or"),
        "recursor `Or.rec` allows large elimination out of a Prop-valued inductive that is not a subsingleton",
    );
}

#[test]
fn data_and_single_proofs_are_eliminated_into_anything() {
    let w = nat_world();
    assert!(!w.checker().elim_only_at_universe_zero(Mode::start(), &vec![0]).unwrap());
    let mut w = World::new();
    let p = w.given("P", prop());
    let t = w.con("Box");
    let a = w.given("A", type0());
    w.inductive("Box", prop(), 0, 0, &[("Box.mk", 1, arrow(p, t.clone()))], false);
    let b = w.id("Box");
    assert!(!w.checker().elim_only_at_universe_zero(Mode::start(), &vec![b]).unwrap());
    w.inductive("Box", prop(), 0, 0, &[("Box.mk", 1, arrow(a, t))], false);
    assert!(w.checker().elim_only_at_universe_zero(Mode::start(), &vec![b]).unwrap());
    w.inductive("False", prop(), 0, 0, &[], false);
    let f = w.id("False");
    assert!(!w.checker().elim_only_at_universe_zero(Mode::start(), &vec![f]).unwrap());
}

fn nat_rec_type(w: &mut World, u: u32) -> Expr {
    let t = w.con("Nat");
    let zero = w.con("Nat.zero");
    let succ = w.con("Nat.succ");
    let motive = arrow(t.clone(), expr::sort(level::param(u)));
    let step = arrow(
        t.clone(),
        arrow(call(&v(2), &[v(0)]), call(&v(3), &[call(&succ, &[v(1)])])),
    );
    arrow(
        motive,
        arrow(call(&v(0), &[zero]), arrow(step, arrow(t, call(&v(3), &[v(0)])))),
    )
}

#[test]
fn the_recursor_of_the_natural_numbers_is_built() {
    let mut w = nat_world();
    let want = nat_rec_type(&mut w, 5);
    let same = nat_rec_type(&mut w, 9);
    let tc = w.checker();
    let rs = tc.reconstruct_recursors(&vec![0], &vec![5]).unwrap();
    assert_eq!(rs.len(), 1);
    assert_eq!(rs[0].level_params, vec![5]);
    assert_eq!(rs[0].all, vec![0]);
    assert_eq!(rs[0].num_params, 0);
    assert_eq!(rs[0].num_indices, 0);
    assert_eq!(rs[0].num_motives, 1);
    assert_eq!(rs[0].num_minors, 2);
    assert!(!rs[0].k);
    assert!(tc.is_def_eq(&Ctx::new(), &rs[0].typ, &want).unwrap());
    assert!(tc.validate_reconstructed_type(&rs[0].typ, &vec![5], &rs[0].typ, &vec![5]).is_ok());
    assert!(tc.validate_reconstructed_type(&same, &vec![9], &rs[0].typ, &vec![5]).is_ok());
}

#[test]
fn a_recursor_type_that_differs_is_rejected() {
    let mut w = nat_world();
    let good = nat_rec_type(&mut w, 5);
    let t = w.con("Nat");
    let tc = w.checker();
    let built = tc.reconstruct_recursors(&vec![0], &vec![5]).unwrap();
    let typ = &built[0].typ;
    rejected(
        tc.validate_reconstructed_type(&arrow(t.clone(), t.clone()), &vec![5], typ, &vec![5]),
        "recursor type does not match reconstructed type",
    );
    rejected(
        tc.validate_reconstructed_type(&v(0), &vec![5], typ, &vec![5]),
        "recursor type is not closed",
    );
    rejected(
        tc.validate_reconstructed_type(&good, &vec![5, 6], typ, &vec![5]),
        "recursor universe parameters do not match positionally",
    );
    rejected(
        tc.validate_reconstructed_type(&good, &vec![6], typ, &vec![5]),
        "recursor type uses an undeclared universe parameter",
    );
    malformed(
        tc.validate_reconstructed_type(&good, &vec![5], typ, &vec![6]),
        "reconstructed recursor uses an undeclared universe parameter",
    );
}

#[test]
fn recursors_need_a_group_and_their_universe_parameters() {
    let w = nat_world();
    let tc = w.checker();
    rejected(
        tc.reconstruct_recursors(&vec![], &vec![5]),
        "cannot reconstruct recursors for an empty inductive group",
    );
    rejected(
        tc.reconstruct_recursors(&vec![1], &vec![5]),
        "recursor reconstruction requires an inductive type",
    );
    rejected(
        tc.reconstruct_recursors(&vec![0, 0], &vec![5]),
        "recursor reconstruction group is not the inductive declaration order",
    );
    rejected(
        tc.reconstruct_recursors(&vec![0], &vec![]),
        "recursor is missing its fresh elimination universe parameter",
    );
    rejected(
        tc.reconstruct_recursors(&vec![0], &vec![5, 5]),
        "recursor has duplicate universe parameters",
    );
    let w = or_world(prop());
    let tc = w.checker();
    rejected(
        tc.reconstruct_recursors(&vec![1], &vec![5]),
        "Prop-only recursor has the wrong universe-parameter shape",
    );
    let rs = tc.reconstruct_recursors(&vec![1], &vec![]).unwrap();
    assert_eq!(rs.len(), 1);
    assert_eq!(rs[0].num_minors, 2);
}

#[test]
fn a_nested_type_has_a_recursor_for_the_container_too() {
    let mut w = World::new();
    let l = list_into(&mut w);
    let t = w.con("Tree");
    w.inductive(
        "Tree",
        type0(),
        0,
        0,
        &[("Tree.node", 1, arrow(call(&l, &[t.clone()]), t.clone()))],
        true,
    );
    let n = w.id("Tree");
    let nil = w.con("List.nil");
    let cons = w.con("List.cons");
    let node = w.con("Tree.node");
    let tc = w.checker();
    let rs = tc.reconstruct_recursors(&vec![n], &vec![0]).unwrap();
    assert_eq!(rs.len(), 2);
    for r in &rs {
        assert_eq!(r.num_motives, 2);
        assert_eq!(r.num_minors, 3);
        assert_eq!(r.all, vec![n]);
        assert!(!r.k);
    }
    let u = expr::sort(level::param(0));
    let lt = call(&l, &[t.clone()]);
    let rest = |last: Expr, result: Expr| {
        arrow(
            arrow(t.clone(), u.clone()),
            arrow(
                arrow(lt.clone(), u.clone()),
                arrow(
                    arrow(
                        lt.clone(),
                        arrow(call(&v(1), &[v(0)]), call(&v(3), &[call(&node, &[v(1)])])),
                    ),
                    arrow(
                        call(&v(1), &[call(&nil, &[t.clone()])]),
                        arrow(
                            arrow(
                                t.clone(),
                                arrow(
                                    lt.clone(),
                                    arrow(
                                        call(&v(5), &[v(1)]),
                                        arrow(
                                            call(&v(5), &[v(1)]),
                                            call(
                                                &v(6),
                                                &[call(&cons, &[t.clone(), v(3), v(2)])],
                                            ),
                                        ),
                                    ),
                                ),
                            ),
                            arrow(last, result),
                        ),
                    ),
                ),
            ),
        )
    };
    let first = rest(t.clone(), call(&v(5), &[v(0)]));
    let second = rest(lt.clone(), call(&v(4), &[v(0)]));
    let ps = vec![0];
    assert!(tc.validate_reconstructed_type(&first, &ps, &rs[0].typ, &ps).is_ok());
    assert!(tc.validate_reconstructed_type(&second, &ps, &rs[1].typ, &ps).is_ok());
    rejected(
        tc.validate_reconstructed_type(&first, &ps, &rs[1].typ, &ps),
        "recursor type does not match reconstructed type",
    );
}

#[test]
fn a_mutual_group_has_a_recursor_for_each_type() {
    let mut w = World::new();
    let even = w.con("Even");
    let odd = w.con("Odd");
    w.inductive(
        "Even",
        type0(),
        0,
        0,
        &[("Even.zero", 0, even.clone()), ("Even.succ", 1, arrow(odd.clone(), even.clone()))],
        true,
    );
    w.inductive("Odd", type0(), 0, 0, &[("Odd.succ", 1, arrow(even.clone(), odd.clone()))], true);
    let (e, o) = (w.id("Even"), w.id("Odd"));
    let ctors = [vec![w.id("Even.zero"), w.id("Even.succ")], vec![w.id("Odd.succ")]];
    for (n, cs) in [(e, ctors[0].clone()), (o, ctors[1].clone())] {
        w.env.insert(
            n,
            ConstantInfo::InductiveType {
                level_params: vec![],
                typ: type0(),
                num_params: 0,
                num_indices: 0,
                all: vec![e, o],
                ctors: cs,
                is_rec: true,
                is_unsafe: false,
            },
        );
    }
    let tc = w.checker();
    assert!(tc.check_inductive_group(e).is_ok());
    let rs = tc.reconstruct_recursors(&vec![e, o], &vec![3]).unwrap();
    assert_eq!(rs.len(), 2);
    for r in &rs {
        assert_eq!(r.num_motives, 2);
        assert_eq!(r.num_minors, 3);
        assert!(tc.infer_type(&Ctx::new(), &r.typ).is_ok());
    }
    rejected(
        tc.reconstruct_recursors(&vec![o, e], &vec![3]),
        "recursor reconstruction group is not the inductive declaration order",
    );
}

#[test]
fn an_equality_type_has_a_recursor_that_ignores_its_proof() {
    let mut w = World::new();
    let eq = w.con("Eq");
    w.inductive(
        "Eq",
        arrow(type0(), arrow(v(0), arrow(v(1), prop()))),
        2,
        1,
        &[("Eq.refl", 0, arrow(type0(), arrow(v(0), call(&eq, &[v(1), v(0), v(0)]))))],
        false,
    );
    let n = w.id("Eq");
    let tc = w.checker();
    assert!(tc.check_inductive_group(n).is_ok());
    let rs = tc.reconstruct_recursors(&vec![n], &vec![0]).unwrap();
    assert_eq!(rs.len(), 1);
    assert_eq!(rs[0].num_params, 2);
    assert_eq!(rs[0].num_indices, 1);
    assert_eq!(rs[0].num_motives, 1);
    assert_eq!(rs[0].num_minors, 1);
    assert!(rs[0].k);
}

#[test]
fn a_field_of_any_sort_is_data_unless_the_conclusion_shows_it() {
    let mut w = World::new();
    let u = level::param(9);
    let (n, c) = (w.id("Nonempty"), w.id("Nonempty.intro"));
    w.env.insert(
        n,
        ConstantInfo::InductiveType {
            level_params: vec![9],
            typ: arrow(expr::sort(u.clone()), prop()),
            num_params: 1,
            num_indices: 0,
            all: vec![n],
            ctors: vec![c],
            is_rec: false,
            is_unsafe: false,
        },
    );
    let concl = expr::app(expr::const_(n, vec![u.clone()]), v(1));
    w.env.insert(
        c,
        ConstantInfo::Constructor {
            level_params: vec![9],
            typ: arrow(expr::sort(u), arrow(v(0), concl)),
            induct: n,
            cidx: 0,
            num_params: 1,
            num_fields: 1,
            is_unsafe: false,
        },
    );
    let tc = w.checker();
    assert!(tc.elim_only_at_universe_zero(Mode::start(), &vec![n]).unwrap());
}

fn member(name: u32, typ: Expr, num_indices: u32) -> RecMember {
    RecMember {
        source_name: name,
        source_levels: vec![],
        fixed_params: vec![],
        typ,
        num_indices,
        ctors: vec![],
    }
}

#[test]
fn a_minor_premise_needs_its_parameters_and_its_owner() {
    let mut w = nat_world();
    let a = w.given("A", type0());
    let t = w.con("Nat");
    let succ = w.id("Nat.succ");
    let tc = w.checker();
    let m = Mode::start();
    let members = vec![member(0, type0(), 0), member(1, type0(), 0)];
    let typ = arrow(t.clone(), t.clone());
    let ctor = RecConstructor { name: succ, levels: vec![], typ: typ.clone() };
    malformed(
        tc.build_minor_type(m, &vec![0], &members, 0, &ctor, 1, 0),
        "minor context underflow",
    );
    rejected(
        tc.build_minor_type(m, &vec![0], &members, 1, &ctor, 0, 2),
        "constructor conclusion has the wrong reconstructed owner",
    );
    let stray = RecConstructor { name: succ, levels: vec![], typ: arrow(t, a) };
    rejected(
        tc.build_minor_type(m, &vec![0], &members, 0, &stray, 0, 2),
        "constructor conclusion is outside reconstructed mutual group",
    );
    assert!(tc.build_minor_type(m, &vec![0], &members, 0, &ctor, 0, 2).is_ok());
}

#[test]
fn a_recursor_type_needs_its_parameters() {
    let mut w = nat_world();
    let a = w.given("A", type0());
    let tc = w.checker();
    let m = Mode::start();
    let (names, none, elim) = (vec![0], vec![], level::zero());
    let plain = vec![member(0, arrow(a.clone(), type0()), 0)];
    malformed(
        tc.build_base_recursor_type(m, &names, &plain, 0, 1, &none, &elim),
        "recursor member context underflow",
    );
    let indexed = vec![member(0, arrow(a.clone(), arrow(a, type0())), 1)];
    malformed(
        tc.build_base_recursor_type(m, &names, &indexed, 0, 1, &none, &elim),
        "motive context underflow",
    );
}
