//! Closed rationals, and decided conditionals.

use crate::closed::{closed_int_term, closed_nat};
use crate::ctx::Ctx;
use crate::errors::{res, R};
use crate::expr::{
    app, app_head, apps_from, lit_nat, mk_apps, spine_args, spine_head, unfold_apps, Expr, ExprData,
    Term,
};
use crate::judge::sem_at;
use crate::kernel::{Budget, Checker, K, Mode, Res, Sem};
use crate::lookup::name_of;
use crate::names::{app1, headed_by, nat_lit};
use crate::natext::decision;
use crate::num::{Integer, Natural};
use crate::text::{is_infix, is_named, named, str_contains, str_same};
use vstd::prelude::*;

verus! {

/// Where a term of rational type keeps its numerator and its denominator.
pub enum RatForm<T> {
    /// Nowhere.
    Opaque,
    /// An integer and a natural.
    Parts(T, T),
    /// An integer.
    Whole(T),
    /// A natural.
    Natural(T),
}

impl<T: DeepView> DeepView for RatForm<T> {
    type V = RatForm<T::V>;

    open spec fn deep_view(&self) -> RatForm<T::V> {
        match self {
            RatForm::Opaque => RatForm::Opaque,
            RatForm::Parts(a, b) => RatForm::Parts(a.deep_view(), b.deep_view()),
            RatForm::Whole(a) => RatForm::Whole(a.deep_view()),
            RatForm::Natural(a) => RatForm::Natural(a.deep_view()),
        }
    }
}

/// Where a reduced term of rational type keeps its parts.
pub open spec fn rat_form(k: K, e: Term) -> RatForm<Term> {
    let args = spine_args(e);
    let n = args.len();
    match spine_head(e) {
        Term::Const(c, _) => {
            let name = name_of(k, c);
            if is_named(name, "mk'"@) && is_infix(name, "Rat"@) && n >= 4 {
                RatForm::Parts(args[n - 4], args[n - 3])
            } else if is_named(name, "ofInt"@) && is_infix(name, "Rat"@) && n >= 1 {
                RatForm::Whole(args[n - 1])
            } else if n < 2 || !headed_by(k, args[0], "Rat"@) {
                RatForm::Opaque
            } else if name == "OfNat.ofNat"@ {
                RatForm::Natural(args[1])
            } else if is_named(name, "natCast"@) {
                RatForm::Natural(args[n - 1])
            } else if is_named(name, "intCast"@) {
                RatForm::Whole(args[n - 1])
            } else {
                RatForm::Opaque
            }
        },
        _ => RatForm::Opaque,
    }
}

/// The numerator and the denominator of a reduced closed rational.
#[verifier::opaque]
pub open spec fn rat_parts(k: K, s: Sem, m: Mode, ctx: Seq<Term>, w: Term) -> Res<
    Option<(int, nat)>,
> {
    match rat_form(k, w) {
        RatForm::Opaque => Ok(None),
        RatForm::Parts(a, b) => match (s.closed_int)(m, ctx, a) {
            Err(f) => Err(f),
            Ok(None) => Ok(None),
            Ok(Some(num)) => match closed_nat(k, s, m, ctx, b) {
                Err(f) => Err(f),
                Ok(None) => Ok(None),
                Ok(Some(den)) => Ok(Some((num, den))),
            },
        },
        RatForm::Whole(a) => match (s.closed_int)(m, ctx, a) {
            Err(f) => Err(f),
            Ok(None) => Ok(None),
            Ok(Some(num)) => Ok(Some((num, 1))),
        },
        RatForm::Natural(a) => match closed_nat(k, s, m, ctx, a) {
            Err(f) => Err(f),
            Ok(None) => Ok(None),
            Ok(Some(n)) => Ok(Some((n as int, 1))),
        },
    }
}

/// Whether a rational is its own inverse: it is zero, or its numerator and its
/// denominator have the same magnitude.
pub open spec fn self_inverse(num: int, den: nat) -> bool {
    num == 0 || num == den || num == -(den as int)
}

/// What is taken of a rational.
#[derive(Clone, Copy, Debug, PartialEq, Eq, Structural)]
pub enum RatOp {
    Inv,
    Num,
    Den,
}

/// What a name takes of a rational.
pub open spec fn rat_op_named(name: Seq<char>) -> Option<RatOp> {
    if is_named(name, "num"@) && is_infix(name, "Rat"@) {
        Some(RatOp::Num)
    } else if is_named(name, "den"@) && is_infix(name, "Rat"@) {
        Some(RatOp::Den)
    } else if is_named(name, "inv"@) && (is_infix(name, "Rat"@) || is_infix(name, "Inv"@)) {
        Some(RatOp::Inv)
    } else {
        None
    }
}

/// The reduction of an operation on closed rationals, by its name.
#[verifier::opaque]
pub open spec fn rat_spec(k: K, s: Sem, m: Mode, ctx: Seq<Term>, head: Term, args: Seq<Term>) -> Res<
    Option<Term>,
> {
    match head {
        Term::Const(n, _) => match rat_op_named(name_of(k, n)) {
            None => Ok(None),
            Some(op) => if args.len() == 0 {
                Ok(None)
            } else {
                match (s.whnf)(m, ctx, args.last()) {
                    Err(f) => Err(f),
                    Ok(w) => match rat_parts(k, s, m, ctx, w) {
                        Err(f) => Err(f),
                        Ok(None) => Ok(None),
                        Ok(Some((num, den))) => match op {
                            RatOp::Num => Ok(closed_int_term(k, num)),
                            RatOp::Den => Ok(Some(nat_lit(den))),
                            RatOp::Inv => if self_inverse(num, den) {
                                Ok(Some(w))
                            } else {
                                Ok(None)
                            },
                        },
                    },
                }
            },
        },
        _ => Ok(None),
    }
}

/// A conditional whose condition is decided.
#[verifier::opaque]
pub open spec fn dite_spec(k: K, s: Sem, m: Mode, ctx: Seq<Term>, head: Term, args: Seq<Term>) -> Res<
    Option<Term>,
> {
    match head {
        Term::Const(n, _) => {
            let dependent = name_of(k, n) == "dite"@;
            if (dependent || name_of(k, n) == "ite"@) && args.len() >= 5 {
                match (s.whnf)(m, ctx, args[2]) {
                    Err(f) => Err(f),
                    Ok(inst) => match decision(k, inst) {
                        None => Ok(None),
                        Some(yes) => if spine_args(inst).len() == 0 {
                            Ok(None)
                        } else {
                            let branch = if yes {
                                args[3]
                            } else {
                                args[4]
                            };
                            let out = if dependent {
                                app1(branch, spine_args(inst).last())
                            } else {
                                branch
                            };
                            Ok(Some(mk_apps(out, args.skip(5))))
                        },
                    },
                }
            } else {
                Ok(None)
            }
        },
        _ => Ok(None),
    }
}

fn named_rat_op(name: &str) -> (r: Option<RatOp>)
    ensures
        r == rat_op_named(name@),
{
    if named(name, "num") && str_contains(name, "Rat") {
        Some(RatOp::Num)
    } else if named(name, "den") && str_contains(name, "Rat") {
        Some(RatOp::Den)
    } else if named(name, "inv") && (str_contains(name, "Rat") || str_contains(name, "Inv")) {
        Some(RatOp::Inv)
    } else {
        None
    }
}

impl<'e> Checker<'e> {
    /// Whether the head of a type is the type of rationals.
    pub fn is_rat_const(&self, e: &Expr) -> (r: bool)
        ensures
            r == headed_by(self@, e@, "Rat"@),
    {
        self.head_is(e, "Rat")
    }

    fn read_rat_form(&self, e: &Expr) -> (r: RatForm<Expr>)
        ensures
            r.deep_view() == rat_form(self@, e@),
    {
        let (head, args) = unfold_apps(e);
        assert(args.len() == args.deep_view().len());
        let n: usize = args.len();
        match head.data() {
            ExprData::Const(c, _) => {
                let name = self.name_str(*c);
                if named(name, "mk'") && str_contains(name, "Rat") && n >= 4 {
                    return RatForm::Parts(args[n - 4].clone(), args[n - 3].clone());
                }
                if named(name, "ofInt") && str_contains(name, "Rat") && n >= 1 {
                    return RatForm::Whole(args[n - 1].clone());
                }
                if n < 2 || !self.is_rat_const(&args[0]) {
                    return RatForm::Opaque;
                }
                if str_same(name, "OfNat.ofNat") {
                    return RatForm::Natural(args[1].clone());
                }
                if named(name, "natCast") {
                    return RatForm::Natural(args[n - 1].clone());
                }
                if named(name, "intCast") {
                    return RatForm::Whole(args[n - 1].clone());
                }
                RatForm::Opaque
            },
            _ => RatForm::Opaque,
        }
    }

    /// The numerator and the denominator of a reduced closed rational.
    pub fn rat_closed_parts(&self, g: Budget, m: Mode, ctx: &Ctx, w: &Expr) -> (r: R<
        Option<(Integer, Natural)>,
    >)
        ensures
            res(r) == rat_parts(self@, sem_at(self@, g), m, ctx@, w@),
        decreases g.total(), 3int, 0int,
    {
        proof {
            reveal(rat_parts);
        }
        match self.read_rat_form(w) {
            RatForm::Opaque => Ok(None),
            RatForm::Parts(a, b) => match self.closed_int_at(g, m, ctx, &a)? {
                None => Ok(None),
                Some(num) => match self.closed_nat_value(g, m, ctx, &b)? {
                    None => Ok(None),
                    Some(den) => Ok(Some((num, den))),
                },
            },
            RatForm::Whole(a) => match self.closed_int_at(g, m, ctx, &a)? {
                None => Ok(None),
                Some(num) => Ok(Some((num, Natural::from_u64(1)))),
            },
            RatForm::Natural(a) => match self.closed_nat_value(g, m, ctx, &a)? {
                None => Ok(None),
                Some(n) => Ok(Some((Integer::from_natural(&n), Natural::from_u64(1)))),
            },
        }
    }

    /// The reduction of an operation on closed rationals, by its name.
    pub fn try_rat(&self, g: Budget, m: Mode, ctx: &Ctx, head: &Expr, args: &Vec<Expr>) -> (r: R<
        Option<Expr>,
    >)
        ensures
            res(r) == rat_spec(
                self@,
                sem_at(self@, g),
                m,
                ctx@,
                head@,
                args.deep_view(),
            ),
        decreases g.total(), 4int, 0int,
    {
        proof {
            reveal(rat_spec);
        }
        assert(args.len() == args.deep_view().len());
        let op = match head.data() {
            ExprData::Const(n, _) => match named_rat_op(self.name_str(*n)) {
                Some(op) => op,
                None => {
                    return Ok(None);
                },
            },
            _ => {
                return Ok(None);
            },
        };
        if args.len() == 0 {
            return Ok(None);
        }
        let w = self.whnf_at(g, m, ctx, &args[args.len() - 1])?;
        let (num, den) = match self.rat_closed_parts(g, m, ctx, &w)? {
            Some(p) => p,
            None => {
                return Ok(None);
            },
        };
        match op {
            RatOp::Num => Ok(self.mk_closed_int(&num)),
            RatOp::Den => Ok(Some(lit_nat(den))),
            RatOp::Inv => {
                if num.is_zero() || num.magnitude().same(&den) {
                    Ok(Some(w))
                } else {
                    Ok(None)
                }
            },
        }
    }

    fn shown_decision(&self, inst: &Expr) -> (r: Option<bool>)
        ensures
            r == decision(self@, inst@),
    {
        match app_head(inst).data() {
            ExprData::Const(n, _) => {
                let name = self.name_str(*n);
                if str_same(name, "Decidable.isTrue") || str_same(name, "isTrue") {
                    Some(true)
                } else if str_same(name, "Decidable.isFalse") || str_same(name, "isFalse") {
                    Some(false)
                } else {
                    None
                }
            },
            _ => None,
        }
    }

    /// A conditional whose condition is decided.
    pub fn try_dite(&self, g: Budget, m: Mode, ctx: &Ctx, head: &Expr, args: &Vec<Expr>) -> (r: R<
        Option<Expr>,
    >)
        ensures
            res(r) == dite_spec(
                self@,
                sem_at(self@, g),
                m,
                ctx@,
                head@,
                args.deep_view(),
            ),
        decreases g.total(), 1int, 0int,
    {
        proof {
            reveal(dite_spec);
        }
        assert(args.len() == args.deep_view().len());
        let name = match head.data() {
            ExprData::Const(n, _) => self.name_str(*n),
            _ => {
                return Ok(None);
            },
        };
        let dependent = str_same(name, "dite");
        if !(dependent || str_same(name, "ite")) || args.len() < 5 {
            return Ok(None);
        }
        let inst = self.whnf_at(g, m, ctx, &args[2])?;
        let yes = match self.shown_decision(&inst) {
            Some(b) => b,
            None => {
                return Ok(None);
            },
        };
        let (_, iargs) = unfold_apps(&inst);
        assert(iargs.len() == iargs.deep_view().len());
        if iargs.len() == 0 {
            return Ok(None);
        }
        let branch = if yes {
            args[3].clone()
        } else {
            args[4].clone()
        };
        let out = if dependent {
            app(branch, iargs[iargs.len() - 1].clone())
        } else {
            branch
        };
        Ok(Some(apps_from(out, args, 5)))
    }
}

} // verus!
