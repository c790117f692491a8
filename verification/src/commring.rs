//! Reflected arithmetic of commutative rings.

use crate::closed::bool_term;
use crate::ctx::Ctx;
use crate::errors::{decline, res, Fault, R};
use crate::expr::{
    apps_from, spine_args, spine_head, unfold_apps, Expr, ExprData, Term,
};
use crate::ext::with_rest;
use crate::intlinear::{reduced_int, reduced_nat};
use crate::judge::sem_at;
use crate::kernel::{Budget, NEST_LIMIT, Checker, K, Mode, Res, Sem};
use crate::lookup::name_of;
use crate::ring::{law_to_poly_value, ringexp_to_poly, ringexp_value, CrExpr, Poly, RingExp};
use crate::text::{
    commring_ident, is_commring_ident, is_infix, is_named, named, str_contains,
};
use vstd::prelude::*;

verus! {

/// The shape of a reflected ring expression.
pub enum RingForm<T> {
    Opaque,
    Num(T),
    NatCast(T),
    IntCast(T),
    Var(T),
    Neg(T),
    Plus(T, T),
    Minus(T, T),
    Times(T, T),
    Power(T, T),
}

impl<T: DeepView> DeepView for RingForm<T> {
    type V = RingForm<T::V>;

    open spec fn deep_view(&self) -> RingForm<T::V> {
        match self {
            RingForm::Opaque => RingForm::Opaque,
            RingForm::Num(a) => RingForm::Num(a.deep_view()),
            RingForm::NatCast(a) => RingForm::NatCast(a.deep_view()),
            RingForm::IntCast(a) => RingForm::IntCast(a.deep_view()),
            RingForm::Var(a) => RingForm::Var(a.deep_view()),
            RingForm::Neg(a) => RingForm::Neg(a.deep_view()),
            RingForm::Plus(a, b) => RingForm::Plus(a.deep_view(), b.deep_view()),
            RingForm::Minus(a, b) => RingForm::Minus(a.deep_view(), b.deep_view()),
            RingForm::Times(a, b) => RingForm::Times(a.deep_view(), b.deep_view()),
            RingForm::Power(a, b) => RingForm::Power(a.deep_view(), b.deep_view()),
        }
    }
}

/// The shape of a reflected ring expression.
pub open spec fn ring_form(k: K, e: Term) -> RingForm<Term> {
    let args = spine_args(e);
    let n = args.len();
    match spine_head(e) {
        Term::Const(c, _) => {
            let name = name_of(k, c);
            if n < 1 {
                RingForm::Opaque
            } else if commring_ident(name, "Expr.num"@) {
                RingForm::Num(args[n - 1])
            } else if commring_ident(name, "Expr.natCast"@) {
                RingForm::NatCast(args[n - 1])
            } else if commring_ident(name, "Expr.intCast"@) {
                RingForm::IntCast(args[n - 1])
            } else if commring_ident(name, "Expr.var"@) {
                RingForm::Var(args[n - 1])
            } else if commring_ident(name, "Expr.neg"@) {
                RingForm::Neg(args[n - 1])
            } else if n < 2 {
                RingForm::Opaque
            } else if commring_ident(name, "Expr.add"@) {
                RingForm::Plus(args[n - 2], args[n - 1])
            } else if commring_ident(name, "Expr.sub"@) {
                RingForm::Minus(args[n - 2], args[n - 1])
            } else if commring_ident(name, "Expr.mul"@) {
                RingForm::Times(args[n - 2], args[n - 1])
            } else if commring_ident(name, "Expr.pow"@) {
                RingForm::Power(args[n - 2], args[n - 1])
            } else {
                RingForm::Opaque
            }
        },
        _ => RingForm::Opaque,
    }
}

/// Both parts of a ring expression.
pub open spec fn ring_pair(a: Res<Option<RingExp>>, b: Res<Option<RingExp>>) -> Res<
    Option<(RingExp, RingExp)>,
> {
    match a {
        Err(f) => Err(f),
        Ok(None) => Ok(None),
        Ok(Some(x)) => match b {
            Err(f) => Err(f),
            Ok(None) => Ok(None),
            Ok(Some(y)) => Ok(Some((x, y))),
        },
    }
}

/// The reflected ring expression that a term is, with at most `n` nested parts.
pub open spec fn read_ring(k: K, s: Sem, m: Mode, ctx: Seq<Term>, e: Term, n: nat) -> Res<
    Option<RingExp>,
>
    decreases n,
{
    if n == 0 {
        Err(Fault::Decline("reflected expression depth limit"@))
    } else {
        let n1 = (n - 1) as nat;
        match (s.whnf)(m, ctx, e) {
            Err(f) => Err(f),
            Ok(w) => match ring_form(k, w) {
                RingForm::Opaque => Ok(None),
                RingForm::Num(t) => match reduced_int(s, m, ctx, t) {
                    Err(f) => Err(f),
                    Ok(None) => Ok(None),
                    Ok(Some(v)) => Ok(Some(RingExp::Num(v))),
                },
                RingForm::NatCast(t) => match reduced_nat(k, s, m, ctx, t) {
                    Err(f) => Err(f),
                    Ok(None) => Ok(None),
                    Ok(Some(v)) => Ok(Some(RingExp::NatCast(v))),
                },
                RingForm::IntCast(t) => match reduced_int(s, m, ctx, t) {
                    Err(f) => Err(f),
                    Ok(None) => Ok(None),
                    Ok(Some(v)) => Ok(Some(RingExp::IntCast(v))),
                },
                RingForm::Var(t) => match reduced_nat(k, s, m, ctx, t) {
                    Err(f) => Err(f),
                    Ok(None) => Ok(None),
                    Ok(Some(v)) => Ok(Some(RingExp::Var(v))),
                },
                RingForm::Neg(t) => match read_ring(k, s, m, ctx, t, n1) {
                    Err(f) => Err(f),
                    Ok(None) => Ok(None),
                    Ok(Some(a)) => Ok(Some(RingExp::Neg(Box::new(a)))),
                },
                RingForm::Plus(t, u) => match ring_pair(
                    read_ring(k, s, m, ctx, t, n1),
                    read_ring(k, s, m, ctx, u, n1),
                ) {
                    Err(f) => Err(f),
                    Ok(None) => Ok(None),
                    Ok(Some((a, b))) => Ok(Some(RingExp::Add(Box::new(a), Box::new(b)))),
                },
                RingForm::Minus(t, u) => match ring_pair(
                    read_ring(k, s, m, ctx, t, n1),
                    read_ring(k, s, m, ctx, u, n1),
                ) {
                    Err(f) => Err(f),
                    Ok(None) => Ok(None),
                    Ok(Some((a, b))) => Ok(Some(RingExp::Sub(Box::new(a), Box::new(b)))),
                },
                RingForm::Times(t, u) => match ring_pair(
                    read_ring(k, s, m, ctx, t, n1),
                    read_ring(k, s, m, ctx, u, n1),
                ) {
                    Err(f) => Err(f),
                    Ok(None) => Ok(None),
                    Ok(Some((a, b))) => Ok(Some(RingExp::Mul(Box::new(a), Box::new(b)))),
                },
                RingForm::Power(t, u) => match read_ring(k, s, m, ctx, t, n1) {
                    Err(f) => Err(f),
                    Ok(None) => Ok(None),
                    Ok(Some(a)) => match reduced_nat(k, s, m, ctx, u) {
                        Err(f) => Err(f),
                        Ok(None) => Ok(None),
                        Ok(Some(v)) => Ok(Some(RingExp::Pow(Box::new(a), v))),
                    },
                },
            },
        }
    }
}

/// The reflected ring expression that a term is.
pub open spec fn ring_of(k: K, s: Sem, m: Mode, ctx: Seq<Term>, e: Term) -> Res<Option<RingExp>> {
    read_ring(k, s, m, ctx, e, NEST_LIMIT as nat)
}

/// The normal form of the difference of two ring expressions.
pub open spec fn ring_difference(a: RingExp, b: RingExp) -> Option<Poly> {
    ringexp_to_poly(RingExp::Sub(Box::new(a), Box::new(b)))
}

/// Whether two pairs of ring expressions have the same difference, where it can
/// be computed. For constraints the differences are taken the other way round.
pub open spec fn ring_cert(a: RingExp, b: RingExp, c: RingExp, d: RingExp, flipped: bool) -> Option<
    bool,
> {
    let (p, q) = if flipped {
        (ring_difference(b, a), ring_difference(d, c))
    } else {
        (ring_difference(a, b), ring_difference(c, d))
    };
    match (p, q) {
        (Some(x), Some(y)) => Some(x == y),
        _ => None,
    }
}

/// Where the certificate holds, the two equations hold together, and so do the
/// two inequations, whatever the values of the variables.
pub proof fn law_ring_cert(
    a: RingExp,
    b: RingExp,
    c: RingExp,
    d: RingExp,
    flipped: bool,
    rho: spec_fn(nat) -> int,
)
    requires
        ring_cert(a, b, c, d, flipped) == Some(true),
    ensures
        ringexp_value(a, rho) - ringexp_value(b, rho) == ringexp_value(c, rho) - ringexp_value(
            d,
            rho,
        ),
{
    if flipped {
        law_to_poly_value(RingExp::Sub(Box::new(b), Box::new(a)), rho);
        law_to_poly_value(RingExp::Sub(Box::new(d), Box::new(c)), rho);
    } else {
        law_to_poly_value(RingExp::Sub(Box::new(a), Box::new(b)), rho);
        law_to_poly_value(RingExp::Sub(Box::new(c), Box::new(d)), rho);
    }
}

/// The result of a certificate on four reflected ring expressions.
#[verifier::opaque]
pub open spec fn ring_cert_spec(
    k: K,
    s: Sem,
    m: Mode,
    ctx: Seq<Term>,
    args: Seq<Term>,
    flipped: bool,
) -> Res<Option<Term>> {
    match ring_of(k, s, m, ctx, args[0]) {
        Err(f) => Err(f),
        Ok(None) => Ok(None),
        Ok(Some(a)) => match ring_of(k, s, m, ctx, args[1]) {
            Err(f) => Err(f),
            Ok(None) => Ok(None),
            Ok(Some(b)) => match ring_of(k, s, m, ctx, args[2]) {
                Err(f) => Err(f),
                Ok(None) => Ok(None),
                Ok(Some(c)) => match ring_of(k, s, m, ctx, args[3]) {
                    Err(f) => Err(f),
                    Ok(None) => Ok(None),
                    Ok(Some(d)) => match ring_cert(a, b, c, d, flipped) {
                        Some(v) => Ok(bool_term(k, v)),
                        None => Ok(None),
                    },
                },
            },
        },
    }
}

/// The reduction of a certificate of ring arithmetic, by its name.
#[verifier::opaque]
pub open spec fn comm_ring_spec(
    k: K,
    s: Sem,
    m: Mode,
    ctx: Seq<Term>,
    head: Term,
    args: Seq<Term>,
) -> Res<Option<Term>> {
    match head {
        Term::Const(c, _) => {
            let name = name_of(k, c);
            if !is_infix(name, "CommRing"@) || args.len() < 4 {
                Ok(None)
            } else if is_named(name, "norm_cnstr_cert"@) {
                with_rest(ring_cert_spec(k, s, m, ctx, args, true), args, 4)
            } else if is_named(name, "norm_eq_cert"@) {
                with_rest(ring_cert_spec(k, s, m, ctx, args, false), args, 4)
            } else {
                Ok(None)
            }
        },
        _ => Ok(None),
    }
}

fn check_ring_cert(a: CrExpr, b: CrExpr, c: CrExpr, d: CrExpr, flipped: bool) -> (r: Option<bool>)
    ensures
        r == ring_cert(a@, b@, c@, d@, flipped),
{
    let (p, q) = if flipped {
        (
            CrExpr::Sub(Box::new(b), Box::new(a)).to_poly(),
            CrExpr::Sub(Box::new(d), Box::new(c)).to_poly(),
        )
    } else {
        (
            CrExpr::Sub(Box::new(a), Box::new(b)).to_poly(),
            CrExpr::Sub(Box::new(c), Box::new(d)).to_poly(),
        )
    };
    match (p, q) {
        (Some(x), Some(y)) => Some(x.beq(&y)),
        _ => None,
    }
}

impl<'e> Checker<'e> {
    fn read_ring_form(&self, e: &Expr) -> (r: RingForm<Expr>)
        ensures
            r.deep_view() == ring_form(self@, e@),
    {
        let (head, args) = unfold_apps(e);
        assert(args.len() == args.deep_view().len());
        let n: usize = args.len();
        match head.data() {
            ExprData::Const(c, _) => {
                let name = self.name_str(*c);
                if n < 1 {
                    return RingForm::Opaque;
                }
                if is_commring_ident(name, "Expr.num") {
                    return RingForm::Num(args[n - 1].clone());
                }
                if is_commring_ident(name, "Expr.natCast") {
                    return RingForm::NatCast(args[n - 1].clone());
                }
                if is_commring_ident(name, "Expr.intCast") {
                    return RingForm::IntCast(args[n - 1].clone());
                }
                if is_commring_ident(name, "Expr.var") {
                    return RingForm::Var(args[n - 1].clone());
                }
                if is_commring_ident(name, "Expr.neg") {
                    return RingForm::Neg(args[n - 1].clone());
                }
                if n < 2 {
                    return RingForm::Opaque;
                }
                if is_commring_ident(name, "Expr.add") {
                    return RingForm::Plus(args[n - 2].clone(), args[n - 1].clone());
                }
                if is_commring_ident(name, "Expr.sub") {
                    return RingForm::Minus(args[n - 2].clone(), args[n - 1].clone());
                }
                if is_commring_ident(name, "Expr.mul") {
                    return RingForm::Times(args[n - 2].clone(), args[n - 1].clone());
                }
                if is_commring_ident(name, "Expr.pow") {
                    return RingForm::Power(args[n - 2].clone(), args[n - 1].clone());
                }
                RingForm::Opaque
            },
            _ => RingForm::Opaque,
        }
    }

    fn parse_ring_pair(&self, g: Budget, m: Mode, ctx: &Ctx, t: &Expr, u: &Expr, n: u32) -> (r: R<
        Option<(CrExpr, CrExpr)>,
    >)
        ensures
            res(r) == ring_pair(
                read_ring(self@, sem_at(self@, g), m, ctx@, t@, n as nat),
                read_ring(self@, sem_at(self@, g), m, ctx@, u@, n as nat),
            ),
        decreases g.total(), 4int, 2 * n + 1,
    {
        match self.parse_commring_expr(g, m, ctx, t, n)? {
            None => Ok(None),
            Some(a) => match self.parse_commring_expr(g, m, ctx, u, n)? {
                None => Ok(None),
                Some(b) => Ok(Some((a, b))),
            },
        }
    }

    /// The reflected ring expression that a term is, with at most `n` nested
    /// parts.
    pub fn parse_commring_expr(&self, g: Budget, m: Mode, ctx: &Ctx, e: &Expr, n: u32) -> (r: R<
        Option<CrExpr>,
    >)
        ensures
            res(r) == read_ring(self@, sem_at(self@, g), m, ctx@, e@, n as nat),
        decreases g.total(), 4int, 2 * n,
    {
        if n == 0 {
            return decline("reflected expression depth limit");
        }
        let w = self.whnf_at(g, m, ctx, e)?;
        match self.read_ring_form(&w) {
            RingForm::Opaque => Ok(None),
            RingForm::Num(t) => match self.reduced_int_value(g, m, ctx, &t)? {
                Some(v) => Ok(Some(CrExpr::Num(v))),
                None => Ok(None),
            },
            RingForm::NatCast(t) => match self.reduced_nat_value(g, m, ctx, &t)? {
                Some(v) => Ok(Some(CrExpr::NatCast(v))),
                None => Ok(None),
            },
            RingForm::IntCast(t) => match self.reduced_int_value(g, m, ctx, &t)? {
                Some(v) => Ok(Some(CrExpr::IntCast(v))),
                None => Ok(None),
            },
            RingForm::Var(t) => match self.reduced_nat_value(g, m, ctx, &t)? {
                Some(v) => Ok(Some(CrExpr::Var(v))),
                None => Ok(None),
            },
            RingForm::Neg(t) => match self.parse_commring_expr(g, m, ctx, &t, n - 1)? {
                Some(a) => Ok(Some(CrExpr::Neg(Box::new(a)))),
                None => Ok(None),
            },
            RingForm::Plus(t, u) => match self.parse_ring_pair(g, m, ctx, &t, &u, n - 1)? {
                Some((a, b)) => Ok(Some(CrExpr::Add(Box::new(a), Box::new(b)))),
                None => Ok(None),
            },
            RingForm::Minus(t, u) => match self.parse_ring_pair(g, m, ctx, &t, &u, n - 1)? {
                Some((a, b)) => Ok(Some(CrExpr::Sub(Box::new(a), Box::new(b)))),
                None => Ok(None),
            },
            RingForm::Times(t, u) => match self.parse_ring_pair(g, m, ctx, &t, &u, n - 1)? {
                Some((a, b)) => Ok(Some(CrExpr::Mul(Box::new(a), Box::new(b)))),
                None => Ok(None),
            },
            RingForm::Power(t, u) => match self.parse_commring_expr(g, m, ctx, &t, n - 1)? {
                Some(a) => match self.reduced_nat_value(g, m, ctx, &u)? {
                    Some(v) => Ok(Some(CrExpr::Pow(Box::new(a), v))),
                    None => Ok(None),
                },
                None => Ok(None),
            },
        }
    }

    fn ring_cert_result(&self, g: Budget, m: Mode, ctx: &Ctx, args: &Vec<Expr>, flipped: bool) -> (r:
        R<Option<Expr>>)
        requires
            args.len() >= 4,
        ensures
            res(r) == ring_cert_spec(
                self@,
                sem_at(self@, g),
                m,
                ctx@,
                args.deep_view(),
                flipped,
            ),
        decreases g.total(), 5int, 0int,
    {
        proof {
            reveal(ring_cert_spec);
        }
        let a = match self.parse_commring_expr(g, m, ctx, &args[0], NEST_LIMIT)? {
            Some(x) => x,
            None => {
                return Ok(None);
            },
        };
        let b = match self.parse_commring_expr(g, m, ctx, &args[1], NEST_LIMIT)? {
            Some(x) => x,
            None => {
                return Ok(None);
            },
        };
        let c = match self.parse_commring_expr(g, m, ctx, &args[2], NEST_LIMIT)? {
            Some(x) => x,
            None => {
                return Ok(None);
            },
        };
        let d = match self.parse_commring_expr(g, m, ctx, &args[3], NEST_LIMIT)? {
            Some(x) => x,
            None => {
                return Ok(None);
            },
        };
        match check_ring_cert(a, b, c, d, flipped) {
            Some(v) => Ok(self.mk_bool_const(v)),
            None => Ok(None),
        }
    }

    /// The reduction of a certificate of ring arithmetic, by its name.
    pub fn try_comm_ring(&self, g: Budget, m: Mode, ctx: &Ctx, head: &Expr, args: &Vec<Expr>) -> (r: R<
        Option<Expr>,
    >)
        ensures
            res(r) == comm_ring_spec(
                self@,
                sem_at(self@, g),
                m,
                ctx@,
                head@,
                args.deep_view(),
            ),
        decreases g.total(), 6int, 0int,
    {
        proof {
            reveal(comm_ring_spec);
        }
        assert(args.len() == args.deep_view().len());
        let name = match head.data() {
            ExprData::Const(c, _) => self.name_str(*c),
            _ => {
                return Ok(None);
            },
        };
        if !str_contains(name, "CommRing") || args.len() < 4 {
            return Ok(None);
        }
        let r = if named(name, "norm_cnstr_cert") {
            self.ring_cert_result(g, m, ctx, args, true)?
        } else if named(name, "norm_eq_cert") {
            self.ring_cert_result(g, m, ctx, args, false)?
        } else {
            None
        };
        match r {
            Some(t) => Ok(Some(apps_from(t, args, 4))),
            None => Ok(None),
        }
    }
}

} // verus!
