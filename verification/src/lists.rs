//! Lists of integers as terms.

use crate::closed::{both, closed_int_term, int_numeral};
use crate::ctx::Ctx;
use crate::errors::{decline, res, Fault, R};
use crate::expr::{app, spine_args, spine_head, unfold_apps, Expr, ExprData, Term};
use crate::ints::{gcd, num_bigint_gcd};
use crate::judge::sem_at;
use crate::kernel::{Budget, Checker, K, Mode, Res, STEP_LIMIT, Sem};
use crate::lookup::{name_of, plain_const};
use crate::names::{
    app1, app3, at_zero, const_at_zero, find_name_ending_spec, find_name_spec, headed_by, mk_app3,
    plain,
};
use crate::num::{Integer, Natural};
use crate::text::{is_infix, str_contains};
use vstd::prelude::*;

verus! {

/// The head and the tail of a list that shows them.
pub open spec fn cons_parts(k: K, e: Term) -> Option<(Term, Term)> {
    let args = spine_args(e);
    let n = args.len();
    if !headed_by(k, e, "List.cons"@) {
        None
    } else if n >= 2 {
        Some((args[n - 2], args[n - 1]))
    } else {
        None
    }
}

/// Whether a term is a list of integer numerals as it stands.
pub open spec fn is_int_list(k: K, e: Term) -> bool
    decreases e,
{
    if headed_by(k, e, "List.nil"@) {
        true
    } else {
        match e {
            Term::App(_, xs) => match cons_parts(k, e) {
                Some((x, _)) => int_numeral(k, x) && is_int_list(k, *xs),
                None => false,
            },
            _ => false,
        }
    }
}

/// The values of a list of closed integers, behind those collected.
pub open spec fn int_list(
    k: K,
    s: Sem,
    m: Mode,
    ctx: Seq<Term>,
    e: Term,
    acc: Seq<int>,
    n: nat,
) -> Res<Option<Seq<int>>>
    decreases n,
{
    if headed_by(k, e, "List.nil"@) {
        Ok(Some(acc))
    } else {
        match cons_parts(k, e) {
            None => Ok(None),
            Some((x, xs)) => match (s.closed_int)(m, ctx, x) {
                Err(f) => Err(f),
                Ok(None) => Ok(None),
                Ok(Some(v)) => match (s.whnf)(m, ctx, xs) {
                    Err(f) => Err(f),
                    Ok(t) => if n == 0 {
                        Err(Fault::Decline("WHNF step limit"@))
                    } else {
                        int_list(k, s, m, ctx, t, acc.push(v), (n - 1) as nat)
                    },
                },
            },
        }
    }
}

/// The values of a reduced list of closed integers.
pub open spec fn int_list_of(k: K, s: Sem, m: Mode, ctx: Seq<Term>, e: Term) -> Res<
    Option<Seq<int>>,
> {
    int_list(k, s, m, ctx, e, Seq::empty(), STEP_LIMIT as nat)
}

/// The greatest common divisor of the values from position `i` on and `g`.
pub open spec fn gcd_from(vs: Seq<int>, i: nat, g: nat) -> nat
    decreases vs.len() - i,
{
    if i >= vs.len() {
        g
    } else {
        gcd_from(vs, i + 1, gcd(g, magnitude(vs[i as int])))
    }
}

/// The greatest common divisor of some integers; zero where all are zero.
pub open spec fn gcd_all(vs: Seq<int>) -> nat {
    gcd_from(vs, 0, 0)
}

/// The absolute value.
pub open spec fn magnitude(v: int) -> nat {
    (if v < 0 {
        -v
    } else {
        v
    }) as nat
}

/// The greatest common divisor of a list of closed integers.
pub open spec fn list_gcd_spec(k: K, s: Sem, m: Mode, ctx: Seq<Term>, e: Term) -> Res<Option<nat>> {
    match (s.whnf)(m, ctx, e) {
        Err(f) => Err(f),
        Ok(w) => match int_list_of(k, s, m, ctx, w) {
            Err(f) => Err(f),
            Ok(None) => Ok(None),
            Ok(Some(vs)) => Ok(Some(gcd_all(vs))),
        },
    }
}

/// Whether a list is wrapped by a conversion from lists.
pub open spec fn from_list(k: K, e: Term) -> bool {
    match spine_head(e) {
        Term::Const(n, _) => is_infix(name_of(k, n), "ofList"@) && spine_args(e).len() > 0,
        _ => false,
    }
}

/// The values of a list of closed integers, which may be wrapped by a conversion
/// from lists.
#[verifier::opaque]
pub open spec fn list_values_spec(k: K, s: Sem, m: Mode, ctx: Seq<Term>, e: Term) -> Res<
    Option<Seq<int>>,
> {
    match (s.whnf)(m, ctx, e) {
        Err(f) => Err(f),
        Ok(w) => if from_list(k, w) {
            match (s.whnf)(m, ctx, spine_args(w).last()) {
                Err(f) => Err(f),
                Ok(w2) => int_list_of(k, s, m, ctx, w2),
            }
        } else {
            int_list_of(k, s, m, ctx, w)
        },
    }
}

/// The values from position `i` on as a list, given the names it is built of.
pub open spec fn list_term_from(
    k: K,
    nil: u32,
    cons: u32,
    ty: Term,
    vs: Seq<int>,
    i: nat,
) -> Option<Term>
    decreases vs.len() - i,
{
    if i >= vs.len() {
        Some(app1(at_zero(nil), ty))
    } else {
        match (list_term_from(k, nil, cons, ty, vs, i + 1), closed_int_term(k, vs[i as int])) {
            (Some(rest), Some(x)) => Some(app3(at_zero(cons), ty, x, rest)),
            _ => None,
        }
    }
}

/// Integers as a list.
pub open spec fn int_list_term(k: K, vs: Seq<int>) -> Option<Term> {
    match (
        find_name_ending_spec(k, "Int"@),
        find_name_spec(k, "List.nil"@),
        find_name_spec(k, "List.cons"@),
    ) {
        (Some(ty), Some(nil), Some(cons)) => list_term_from(k, nil, cons, plain(ty), vs, 0),
        _ => None,
    }
}

/// The value at a position, zero behind the end.
pub open spec fn at_or_zero(vs: Seq<int>, i: int) -> int {
    if 0 <= i < vs.len() {
        vs[i]
    } else {
        0
    }
}

/// The longer of two lengths.
pub open spec fn longer(xs: Seq<int>, ys: Seq<int>) -> nat {
    if xs.len() >= ys.len() {
        xs.len()
    } else {
        ys.len()
    }
}

/// The combination of two lists of coefficients, the shorter one filled up with
/// zeros.
pub open spec fn combine_coeffs(a: int, xs: Seq<int>, b: int, ys: Seq<int>) -> Seq<int> {
    Seq::new(longer(xs, ys), |i: int| a * at_or_zero(xs, i) + b * at_or_zero(ys, i))
}

/// The combination of two lists of coefficients.
pub fn combine_lists(a: &Integer, xs: &Vec<Integer>, b: &Integer, ys: &Vec<Integer>) -> (r: Vec<
    Integer,
>)
    ensures
        r.deep_view() == combine_coeffs(a@, xs.deep_view(), b@, ys.deep_view()),
{
    let ghost xv = xs.deep_view();
    let ghost yv = ys.deep_view();
    let n: usize = if xs.len() >= ys.len() {
        xs.len()
    } else {
        ys.len()
    };
    let mut out: Vec<Integer> = Vec::new();
    let mut i: usize = 0;
    while i < n
        invariant
            i <= n,
            n as nat == longer(xv, yv),
            xv == xs.deep_view(),
            yv == ys.deep_view(),
            out.len() == i,
            forall|j: int|
                0 <= j < i ==> (#[trigger] out@[j])@ == a@ * at_or_zero(xv, j) + b@ * at_or_zero(
                    yv,
                    j,
                ),
        decreases n - i,
    {
        assert(xv.len() == xs.len() && yv.len() == ys.len());
        let x = if i < xs.len() {
            xs[i].clone()
        } else {
            Integer::from_i64(0)
        };
        let y = if i < ys.len() {
            ys[i].clone()
        } else {
            Integer::from_i64(0)
        };
        assert(x@ == at_or_zero(xv, i as int));
        assert(y@ == at_or_zero(yv, i as int));
        out.push(a.times(&x).plus(&b.times(&y)));
        i = i + 1;
    }
    assert(out.deep_view() =~= combine_coeffs(a@, xv, b@, yv));
    out
}

/// The greatest common divisor of some integers.
pub fn gcd_of(vs: &Vec<Integer>) -> (r: Natural)
    ensures
        r@ == gcd_all(vs.deep_view()),
{
    let ghost vv = vs.deep_view();
    let mut g = Natural::zero();
    let mut i: usize = 0;
    while i < vs.len()
        invariant
            i <= vs.len(),
            vv == vs.deep_view(),
            gcd_from(vv, i as nat, g@) == gcd_all(vv),
        decreases vs.len() - i,
    {
        g = num_bigint_gcd(&g, &vs[i].magnitude());
        i = i + 1;
    }
    g
}

impl<'e> Checker<'e> {
    /// Whether a term is the empty list.
    pub fn is_list_nil(&self, e: &Expr) -> (r: bool)
        ensures
            r == headed_by(self@, e@, "List.nil"@),
    {
        self.head_is(e, "List.nil")
    }

    /// The head and the tail of a list that shows them.
    pub fn list_cons_parts(&self, e: &Expr) -> (r: Option<(Expr, Expr)>)
        ensures
            r.deep_view() == cons_parts(self@, e@),
    {
        if !self.head_is(e, "List.cons") {
            return None;
        }
        let (_, args) = unfold_apps(e);
        assert(args.len() == args.deep_view().len());
        let n: usize = args.len();
        if n >= 2 {
            Some((args[n - 2].clone(), args[n - 1].clone()))
        } else {
            None
        }
    }

    /// Whether a term is a list of integer numerals as it stands.
    pub fn is_closed_int_list(&self, e: &Expr) -> (r: bool)
        ensures
            r == is_int_list(self@, e@),
        decreases e,
    {
        if self.is_list_nil(e) {
            return true;
        }
        match e.data() {
            ExprData::App(_, xs) => match self.list_cons_parts(e) {
                Some((x, _)) => self.is_closed_int_numeral(&x) && self.is_closed_int_list(xs),
                None => false,
            },
            _ => false,
        }
    }

    fn read_int_list(&self, g: Budget, m: Mode, ctx: &Ctx, e: &Expr) -> (r: R<Option<Vec<Integer>>>)
        ensures
            res(r) == int_list_of(self@, sem_at(self@, g), m, ctx@, e@),
        decreases g.total(), 1int, 0int,
    {
        let ghost s = sem_at(self@, g);
        let mut cur = e.clone();
        let mut out: Vec<Integer> = Vec::new();
        let mut left: u32 = STEP_LIMIT;
        assert(out.deep_view() =~= Seq::<int>::empty());
        loop
            invariant
                left <= STEP_LIMIT,
                s == sem_at(self@, g),
                int_list(self@, s, m, ctx@, cur@, out.deep_view(), left as nat) == int_list_of(
                    self@,
                    s,
                    m,
                    ctx@,
                    e@,
                ),
            decreases left,
        {
            if self.is_list_nil(&cur) {
                return Ok(Some(out));
            }
            let (x, xs) = match self.list_cons_parts(&cur) {
                Some(p) => p,
                None => {
                    return Ok(None);
                },
            };
            let v = match self.closed_int_at(g, m, ctx, &x)? {
                Some(v) => v,
                None => {
                    return Ok(None);
                },
            };
            let t = self.whnf_at(g, m, ctx, &xs)?;
            if left == 0 {
                return decline("WHNF step limit");
            }
            let ghost before = out.deep_view();
            let ghost vv = v@;
            out.push(v);
            assert(out.deep_view() =~= before.push(vv));
            cur = t;
            left = left - 1;
        }
    }

    /// The greatest common divisor of a list of closed integers.
    pub fn closed_int_list_gcd(&self, g: Budget, m: Mode, ctx: &Ctx, e: &Expr) -> (r: R<
        Option<Natural>,
    >)
        ensures
            res(r) == list_gcd_spec(self@, sem_at(self@, g), m, ctx@, e@),
        decreases g.total(), 2int, 0int,
    {
        let w = self.whnf_at(g, m, ctx, e)?;
        match self.read_int_list(g, m, ctx, &w)? {
            Some(vs) => Ok(Some(gcd_of(&vs))),
            None => Ok(None),
        }
    }

    /// The values of a list of closed integers, which may be wrapped by a
    /// conversion from lists.
    pub fn closed_int_list_values(&self, g: Budget, m: Mode, ctx: &Ctx, e: &Expr) -> (r: R<
        Option<Vec<Integer>>,
    >)
        ensures
            res(r) == list_values_spec(self@, sem_at(self@, g), m, ctx@, e@),
        decreases g.total(), 2int, 0int,
    {
        proof {
            reveal(list_values_spec);
        }
        let w = self.whnf_at(g, m, ctx, e)?;
        let (head, args) = unfold_apps(&w);
        assert(args.len() == args.deep_view().len());
        let wrapped = match head.data() {
            ExprData::Const(n, _) => str_contains(self.name_str(*n), "ofList") && args.len() > 0,
            _ => false,
        };
        if wrapped {
            let w2 = self.whnf_at(g, m, ctx, &args[args.len() - 1])?;
            return self.read_int_list(g, m, ctx, &w2);
        }
        self.read_int_list(g, m, ctx, &w)
    }

    /// The values of two lists of closed integers.
    pub fn closed_list_pair(&self, g: Budget, m: Mode, ctx: &Ctx, a: &Expr, b: &Expr) -> (r: R<
        Option<(Vec<Integer>, Vec<Integer>)>,
    >)
        ensures
            res(r) == both(
                list_values_spec(self@, sem_at(self@, g), m, ctx@, a@),
                list_values_spec(self@, sem_at(self@, g), m, ctx@, b@),
            ),
        decreases g.total(), 3int, 0int,
    {
        let x = self.closed_int_list_values(g, m, ctx, a)?;
        let y = self.closed_int_list_values(g, m, ctx, b)?;
        match (x, y) {
            (Some(p), Some(q)) => Ok(Some((p, q))),
            _ => Ok(None),
        }
    }

    /// Integers as a list.
    pub fn mk_closed_int_list(&self, vs: &Vec<Integer>) -> (r: Option<Expr>)
        ensures
            r.deep_view() == int_list_term(self@, vs.deep_view()),
    {
        let int_ty = self.find_name_ending("Int")?;
        let nil = self.find_name("List.nil")?;
        let cons = self.find_name("List.cons")?;
        let ty = plain_const(int_ty);
        let ghost vv = vs.deep_view();
        let mut list = app(const_at_zero(nil), ty.clone());
        let mut i: usize = vs.len();
        while i > 0
            invariant
                i <= vs.len(),
                vv == vs.deep_view(),
                ty@ == plain(int_ty),
                int_list_term(self@, vv) == list_term_from(self@, nil, cons, ty@, vv, 0),
                list_term_from(self@, nil, cons, ty@, vv, i as nat) == Some(list@),
            decreases i,
        {
            i = i - 1;
            let x = match self.mk_closed_int(&vs[i]) {
                Some(x) => x,
                None => {
                    proof {
                        lemma_no_list(self@, nil, cons, ty@, vv, 0, i as nat);
                    }
                    return None;
                },
            };
            list = mk_app3(const_at_zero(cons), ty.clone(), x, list);
        }
        Some(list)
    }
}

proof fn lemma_no_list(k: K, nil: u32, cons: u32, ty: Term, vs: Seq<int>, i: nat, j: nat)
    requires
        i <= j < vs.len(),
        closed_int_term(k, vs[j as int]) is None,
    ensures
        list_term_from(k, nil, cons, ty, vs, i) is None,
    decreases j - i,
{
    if i < j {
        lemma_no_list(k, nil, cons, ty, vs, i + 1, j);
    }
}

} // verus!
