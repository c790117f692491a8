//! The values of closed natural and integer terms, and terms for values.

use crate::ctx::Ctx;
use crate::errors::{res, Fault, R};
use crate::expr::{
    app, lit_nat, spine_args, spine_head, unfold_apps, Expr, ExprData, Lit, LitT, Term,
};
use crate::ints::{bmod, bounded_pow, ediv, int_bmod, int_ediv, int_pow};
use crate::judge::sem_at;
use crate::kernel::{Budget, Checker, K, Mode, Res, Sem};
use crate::lookup::{name_of, nat_ctors_spec, plain_const};
use crate::names::{
    app1, app2, app3, at_zero, const_at_zero, find_name_ending_spec, find_name_spec, headed_by,
    mk_app2, mk_app3, nat_lit, plain,
};
use crate::num::{Integer, Natural};
use crate::numeral::{as_lit, lit_value, numeral_spec, numeral_value};
use crate::text::{is_named, named, str_same};
use vstd::prelude::*;

verus! {

/// Both values, where both are known.
pub open spec fn both<A, B>(a: Res<Option<A>>, b: Res<Option<B>>) -> Res<Option<(A, B)>> {
    match (a, b) {
        (Err(f), _) => Err(f),
        (_, Err(f)) => Err(f),
        (Ok(Some(x)), Ok(Some(y))) => Ok(Some((x, y))),
        _ => Ok(None),
    }
}

/// A natural argument, reduced unless it is a literal.
pub open spec fn nat_arg(s: Sem, m: Mode, ctx: Seq<Term>, e: Term) -> Res<Term> {
    if lit_value(e) is Some {
        Ok(e)
    } else {
        (s.whnf)(m, ctx, e)
    }
}

/// The number that a reduced term stands for.
pub open spec fn nat_value(k: K, e: Term) -> Option<nat> {
    match lit_value(e) {
        Some(v) => Some(v),
        None => match nat_ctors_spec(k) {
            Some((zero, succ)) => numeral_spec(e, zero, succ),
            None => None,
        },
    }
}

/// The number that a term stands for.
pub open spec fn closed_nat(k: K, s: Sem, m: Mode, ctx: Seq<Term>, e: Term) -> Res<Option<nat>> {
    match nat_arg(s, m, ctx, e) {
        Err(f) => Err(f),
        Ok(a) => Ok(nat_value(k, a)),
    }
}

/// Integer operations on two integers.
#[derive(Clone, Copy, Debug, PartialEq, Eq, Structural)]
pub enum IntOp {
    Plus,
    Minus,
    Times,
    Div,
}

/// The value of an operation on two integers.
pub open spec fn int_op(op: IntOp, a: int, b: int) -> int {
    match op {
        IntOp::Plus => a + b,
        IntOp::Minus => a - b,
        IntOp::Times => a * b,
        IntOp::Div => ediv(a, b),
    }
}

/// The value of an operation on two integers.
pub fn apply_int_op(op: IntOp, a: &Integer, b: &Integer) -> (r: Integer)
    ensures
        r@ == int_op(op, a@, b@),
{
    match op {
        IntOp::Plus => a.plus(b),
        IntOp::Minus => a.minus(b),
        IntOp::Times => a.times(b),
        IntOp::Div => int_ediv(a, b),
    }
}

/// How a term denotes an integer.
pub enum IntForm<T> {
    /// It does not.
    Opaque,
    /// A natural.
    FromNat(T),
    /// One less than the negative of a natural.
    NegSucc(T),
    /// The negative of an integer.
    Neg(T),
    /// An operation on two integers.
    Binary(IntOp, T, T),
    /// An integer to the power of a natural.
    Power(T, T),
    /// The balanced remainder of an integer by a natural.
    Balanced(T, T),
}

impl<T: DeepView> DeepView for IntForm<T> {
    type V = IntForm<T::V>;

    open spec fn deep_view(&self) -> IntForm<T::V> {
        match self {
            IntForm::Opaque => IntForm::Opaque,
            IntForm::FromNat(t) => IntForm::FromNat(t.deep_view()),
            IntForm::NegSucc(t) => IntForm::NegSucc(t.deep_view()),
            IntForm::Neg(t) => IntForm::Neg(t.deep_view()),
            IntForm::Binary(op, a, b) => IntForm::Binary(*op, a.deep_view(), b.deep_view()),
            IntForm::Power(a, b) => IntForm::Power(a.deep_view(), b.deep_view()),
            IntForm::Balanced(a, b) => IntForm::Balanced(a.deep_view(), b.deep_view()),
        }
    }
}

/// The integer operation that a name without a type stands for.
pub open spec fn plain_int_op(name: Seq<char>) -> Option<IntOp> {
    if is_named(name, "Int.ediv"@) || name == "Int.div"@ {
        Some(IntOp::Div)
    } else if is_named(name, "Int.add"@) {
        Some(IntOp::Plus)
    } else if is_named(name, "Int.sub"@) {
        Some(IntOp::Minus)
    } else if is_named(name, "Int.mul"@) {
        Some(IntOp::Times)
    } else {
        None
    }
}

/// The integer operation that an overloaded name between any types stands for.
pub open spec fn hetero_int_op(name: Seq<char>) -> Option<IntOp> {
    if name == "HDiv.hDiv"@ {
        Some(IntOp::Div)
    } else if name == "HAdd.hAdd"@ {
        Some(IntOp::Plus)
    } else if name == "HSub.hSub"@ {
        Some(IntOp::Minus)
    } else if name == "HMul.hMul"@ {
        Some(IntOp::Times)
    } else {
        None
    }
}

/// The integer operation that an overloaded name on one type stands for.
pub open spec fn homo_int_op(name: Seq<char>) -> Option<IntOp> {
    if name == "Add.add"@ {
        Some(IntOp::Plus)
    } else if name == "Sub.sub"@ {
        Some(IntOp::Minus)
    } else if name == "Mul.mul"@ {
        Some(IntOp::Times)
    } else {
        None
    }
}

/// How a function that is about integers by its own name, on arguments, denotes
/// an integer.
pub open spec fn named_int_form(name: Seq<char>, args: Seq<Term>) -> IntForm<Term> {
    if is_named(name, "Int.ofNat"@) {
        if args.len() >= 1 {
            IntForm::FromNat(args[0])
        } else {
            IntForm::Opaque
        }
    } else if is_named(name, "Int.negSucc"@) {
        if args.len() >= 1 {
            IntForm::NegSucc(args[0])
        } else {
            IntForm::Opaque
        }
    } else if is_named(name, "Int.neg"@) {
        if args.len() >= 1 {
            IntForm::Neg(args[0])
        } else {
            IntForm::Opaque
        }
    } else if args.len() < 2 {
        IntForm::Opaque
    } else if is_named(name, "Int.pow"@) {
        IntForm::Power(args[0], args[1])
    } else if is_named(name, "Int.bmod"@) {
        IntForm::Balanced(args[0], args[1])
    } else {
        match plain_int_op(name) {
            Some(op) => IntForm::Binary(op, args[0], args[1]),
            None => IntForm::Opaque,
        }
    }
}

/// How an overloaded function at the type of integers, on arguments, denotes an
/// integer.
pub open spec fn typed_int_form(name: Seq<char>, args: Seq<Term>) -> IntForm<Term> {
    if name == "OfNat.ofNat"@ && args.len() >= 2 {
        IntForm::FromNat(args[1])
    } else if name == "Neg.neg"@ && args.len() >= 3 {
        IntForm::Neg(args[2])
    } else if (name == "Nat.cast"@ || name == "NatCast.natCast"@) && args.len() >= 3 {
        IntForm::FromNat(args[2])
    } else if name == "NatCast.natCast"@ && args.len() >= 2 {
        IntForm::FromNat(args[1])
    } else if name == "HPow.hPow"@ && args.len() >= 6 {
        IntForm::Power(args[4], args[5])
    } else if hetero_int_op(name) is Some && args.len() >= 6 {
        IntForm::Binary(hetero_int_op(name).unwrap(), args[4], args[5])
    } else if homo_int_op(name) is Some && args.len() >= 4 {
        IntForm::Binary(homo_int_op(name).unwrap(), args[2], args[3])
    } else {
        IntForm::Opaque
    }
}

/// How a term denotes an integer.
#[verifier::opaque]
pub open spec fn int_form(k: K, e: Term) -> IntForm<Term> {
    match spine_head(e) {
        Term::Const(n, _) => {
            let name = name_of(k, n);
            let args = spine_args(e);
            match typed_int_form(name, args) {
                IntForm::Opaque => named_int_form(name, args),
                f => if headed_by(k, args[0], "Int"@) {
                    f
                } else {
                    IntForm::Opaque
                },
            }
        },
        _ => IntForm::Opaque,
    }
}

/// One judgement of the value of a closed integer.
#[verifier::opaque]
pub open spec fn closed_int_step(k: K, s: Sem, m: Mode, ctx: Seq<Term>, e: Term) -> Res<
    Option<int>,
> {
    match int_form(k, e) {
        IntForm::Opaque => Ok(None),
        IntForm::FromNat(t) => match closed_nat(k, s, m, ctx, t) {
            Err(f) => Err(f),
            Ok(Some(n)) => Ok(Some(n as int)),
            Ok(None) => Ok(None),
        },
        IntForm::NegSucc(t) => match closed_nat(k, s, m, ctx, t) {
            Err(f) => Err(f),
            Ok(Some(n)) => Ok(Some(-(n as int) - 1)),
            Ok(None) => Ok(None),
        },
        IntForm::Neg(t) => match (s.closed_int)(m, ctx, t) {
            Err(f) => Err(f),
            Ok(Some(v)) => Ok(Some(-v)),
            Ok(None) => Ok(None),
        },
        IntForm::Binary(op, a, b) => match both(
            (s.closed_int)(m, ctx, a),
            (s.closed_int)(m, ctx, b),
        ) {
            Err(f) => Err(f),
            Ok(Some((x, y))) => Ok(Some(int_op(op, x, y))),
            Ok(None) => Ok(None),
        },
        IntForm::Power(a, b) => match both(
            (s.closed_int)(m, ctx, a),
            closed_nat(k, s, m, ctx, b),
        ) {
            Err(f) => Err(f),
            Ok(Some((x, y))) => Ok(bounded_pow(x, y)),
            Ok(None) => Ok(None),
        },
        IntForm::Balanced(a, b) => match both(
            (s.closed_int)(m, ctx, a),
            closed_nat(k, s, m, ctx, b),
        ) {
            Err(f) => Err(f),
            Ok(Some((x, y))) => Ok(Some(bmod(x, y as int))),
            Ok(None) => Ok(None),
        },
    }
}

/// Whether a term is an integer numeral as it stands.
pub open spec fn int_numeral(k: K, e: Term) -> bool
    decreases e,
{
    match e {
        Term::Lit(LitT::Nat(_)) => true,
        _ => match spine_head(e) {
            Term::Const(n, _) => {
                let name = name_of(k, n);
                let args = spine_args(e);
                if name == "OfNat.ofNat"@ && args.len() >= 2 {
                    lit_value(args[1]) is Some
                } else if is_named(name, "Int.ofNat"@) || is_named(name, "Int.negSucc"@) {
                    args.len() >= 1 && lit_value(args[0]) is Some
                } else if is_named(name, "Int.neg"@) || name == "Neg.neg"@ {
                    match e {
                        Term::App(_, a) => int_numeral(k, *a),
                        _ => false,
                    }
                } else {
                    false
                }
            },
            _ => false,
        },
    }
}

/// What a term that is a negation negates.
pub open spec fn negated(k: K, e: Term) -> Option<Term> {
    match spine_head(e) {
        Term::Const(n, _) => {
            let name = name_of(k, n);
            let args = spine_args(e);
            if is_named(name, "Int.neg"@) {
                if args.len() >= 1 {
                    Some(args[0])
                } else {
                    None
                }
            } else if name == "Neg.neg"@ && args.len() >= 3 {
                Some(args[2])
            } else {
                None
            }
        },
        _ => None,
    }
}

/// An integer by its constructors.
pub open spec fn canonical_int(k: K, v: int) -> Option<Term> {
    if v >= 0 {
        match find_name_ending_spec(k, "Int.ofNat"@) {
            Some(c) => Some(app1(plain(c), nat_lit(v as nat))),
            None => None,
        }
    } else {
        match find_name_ending_spec(k, "Int.negSucc"@) {
            Some(c) => Some(app1(plain(c), nat_lit((-v - 1) as nat))),
            None => None,
        }
    }
}

/// The instance by which literals are integers.
pub open spec fn int_instance(k: K) -> Option<u32> {
    match find_name_spec(k, "instOfNat"@) {
        Some(i) => Some(i),
        None => find_name_ending_spec(k, "instOfNatInt"@),
    }
}

/// A natural as an integer literal.
pub open spec fn int_literal(k: K, n: nat) -> Option<Term> {
    match (
        find_name_spec(k, "OfNat.ofNat"@),
        find_name_ending_spec(k, "Int"@),
        int_instance(k),
    ) {
        (Some(f), Some(ty), Some(inst)) => Some(
            app3(at_zero(f), plain(ty), nat_lit(n), app1(plain(inst), nat_lit(n))),
        ),
        _ => None,
    }
}

/// An integer as a literal, negated where it is negative.
pub open spec fn closed_int_term(k: K, v: int) -> Option<Term> {
    if v >= 0 {
        int_literal(k, v as nat)
    } else {
        match (int_literal(k, (-v) as nat), find_name_ending_spec(k, "Int.neg"@)) {
            (Some(pos), Some(neg)) => Some(app1(plain(neg), pos)),
            _ => None,
        }
    }
}

/// A decision as a term.
pub open spec fn decidable_term(k: K, yes: bool) -> Option<Term> {
    let ctor = match find_name_spec(
        k,
        if yes {
            "Decidable.isTrue"@
        } else {
            "Decidable.isFalse"@
        },
    ) {
        Some(c) => Some(c),
        None => find_name_ending_spec(
            k,
            if yes {
                "isTrue"@
            } else {
                "isFalse"@
            },
        ),
    };
    match (ctor, find_name_spec(k, "True"@), find_name_spec(k, "True.intro"@)) {
        (Some(c), Some(t), Some(i)) => Some(app2(at_zero(c), plain(t), plain(i))),
        _ => None,
    }
}

/// The truth value that a term shows.
pub open spec fn shown_bool(k: K, e: Term) -> Option<bool> {
    if headed_by(k, e, "Bool.true"@) {
        Some(true)
    } else if headed_by(k, e, "Bool.false"@) {
        Some(false)
    } else {
        None
    }
}

/// A truth value as a term.
pub open spec fn bool_term(k: K, b: bool) -> Option<Term> {
    match find_name_spec(
        k,
        if b {
            "Bool.true"@
        } else {
            "Bool.false"@
        },
    ) {
        Some(c) => Some(plain(c)),
        None => None,
    }
}

fn is_plain_int_op(name: &str) -> (r: Option<IntOp>)
    ensures
        r == plain_int_op(name@),
{
    if named(name, "Int.ediv") || str_same(name, "Int.div") {
        Some(IntOp::Div)
    } else if named(name, "Int.add") {
        Some(IntOp::Plus)
    } else if named(name, "Int.sub") {
        Some(IntOp::Minus)
    } else if named(name, "Int.mul") {
        Some(IntOp::Times)
    } else {
        None
    }
}

fn is_hetero_int_op(name: &str) -> (r: Option<IntOp>)
    ensures
        r == hetero_int_op(name@),
{
    if str_same(name, "HDiv.hDiv") {
        Some(IntOp::Div)
    } else if str_same(name, "HAdd.hAdd") {
        Some(IntOp::Plus)
    } else if str_same(name, "HSub.hSub") {
        Some(IntOp::Minus)
    } else if str_same(name, "HMul.hMul") {
        Some(IntOp::Times)
    } else {
        None
    }
}

fn is_homo_int_op(name: &str) -> (r: Option<IntOp>)
    ensures
        r == homo_int_op(name@),
{
    if str_same(name, "Add.add") {
        Some(IntOp::Plus)
    } else if str_same(name, "Sub.sub") {
        Some(IntOp::Minus)
    } else if str_same(name, "Mul.mul") {
        Some(IntOp::Times)
    } else {
        None
    }
}

fn read_named_form(name: &str, args: &Vec<Expr>) -> (r: IntForm<Expr>)
    ensures
        r.deep_view() == named_int_form(name@, args.deep_view()),
{
    assert(args.len() == args.deep_view().len());
    if named(name, "Int.ofNat") {
        if args.len() >= 1 {
            IntForm::FromNat(args[0].clone())
        } else {
            IntForm::Opaque
        }
    } else if named(name, "Int.negSucc") {
        if args.len() >= 1 {
            IntForm::NegSucc(args[0].clone())
        } else {
            IntForm::Opaque
        }
    } else if named(name, "Int.neg") {
        if args.len() >= 1 {
            IntForm::Neg(args[0].clone())
        } else {
            IntForm::Opaque
        }
    } else if args.len() < 2 {
        IntForm::Opaque
    } else if named(name, "Int.pow") {
        IntForm::Power(args[0].clone(), args[1].clone())
    } else if named(name, "Int.bmod") {
        IntForm::Balanced(args[0].clone(), args[1].clone())
    } else {
        match is_plain_int_op(name) {
            Some(op) => IntForm::Binary(op, args[0].clone(), args[1].clone()),
            None => IntForm::Opaque,
        }
    }
}

fn read_typed_form(name: &str, args: &Vec<Expr>) -> (r: IntForm<Expr>)
    ensures
        r.deep_view() == typed_int_form(name@, args.deep_view()),
        !(r is Opaque) ==> args.len() >= 2,
{
    assert(args.len() == args.deep_view().len());
    if str_same(name, "OfNat.ofNat") && args.len() >= 2 {
        return IntForm::FromNat(args[1].clone());
    }
    if str_same(name, "Neg.neg") && args.len() >= 3 {
        return IntForm::Neg(args[2].clone());
    }
    if (str_same(name, "Nat.cast") || str_same(name, "NatCast.natCast")) && args.len() >= 3 {
        return IntForm::FromNat(args[2].clone());
    }
    if str_same(name, "NatCast.natCast") && args.len() >= 2 {
        return IntForm::FromNat(args[1].clone());
    }
    if str_same(name, "HPow.hPow") && args.len() >= 6 {
        return IntForm::Power(args[4].clone(), args[5].clone());
    }
    if args.len() >= 6 {
        match is_hetero_int_op(name) {
            Some(op) => {
                return IntForm::Binary(op, args[4].clone(), args[5].clone());
            },
            None => {},
        }
    }
    if args.len() >= 4 {
        match is_homo_int_op(name) {
            Some(op) => {
                return IntForm::Binary(op, args[2].clone(), args[3].clone());
            },
            None => {},
        }
    }
    IntForm::Opaque
}

impl<'e> Checker<'e> {
    fn read_int_form(&self, e: &Expr) -> (r: IntForm<Expr>)
        ensures
            r.deep_view() == int_form(self@, e@),
    {
        proof {
            reveal(int_form);
        }
        let (head, args) = unfold_apps(e);
        match head.data() {
            ExprData::Const(n, _) => {
                let name = self.name_str(*n);
                match read_typed_form(name, &args) {
                    IntForm::Opaque => read_named_form(name, &args),
                    f => {
                        if self.type_head_is_int(&args[0]) {
                            f
                        } else {
                            IntForm::Opaque
                        }
                    },
                }
            },
            _ => IntForm::Opaque,
        }
    }

    /// Whether the head of a type is the type of integers.
    pub fn type_head_is_int(&self, e: &Expr) -> (r: bool)
        ensures
            r == headed_by(self@, e@, "Int"@),
    {
        self.head_is(e, "Int")
    }

    /// A natural argument, reduced unless it is a literal.
    pub fn reduce_nat_arg(&self, g: Budget, m: Mode, ctx: &Ctx, e: &Expr) -> (r: R<Expr>)
        ensures
            res(r) == nat_arg(sem_at(self@, g), m, ctx@, e@),
        decreases g.total(), 1int, 0int,
    {
        if as_lit(e).is_some() {
            return Ok(e.clone());
        }
        self.whnf_at(g, m, ctx, e)
    }

    /// The number that a reduced term stands for.
    pub fn value_of_nat(&self, e: &Expr) -> (r: Option<Natural>)
        ensures
            r.deep_view() == nat_value(self@, e@),
    {
        match as_lit(e) {
            Some(v) => Some(v),
            None => match self.nat_ctors() {
                Some((zero, succ)) => numeral_value(e, zero, succ),
                None => None,
            },
        }
    }

    /// The number that a term stands for.
    pub fn closed_nat_value(&self, g: Budget, m: Mode, ctx: &Ctx, e: &Expr) -> (r: R<Option<Natural>>)
        ensures
            res(r) == closed_nat(self@, sem_at(self@, g), m, ctx@, e@),
        decreases g.total(), 2int, 0int,
    {
        let a = self.reduce_nat_arg(g, m, ctx, e)?;
        Ok(self.value_of_nat(&a))
    }

    /// The values of two closed integers.
    pub fn closed_int_pair(&self, g: Budget, m: Mode, ctx: &Ctx, a: &Expr, b: &Expr) -> (r: R<
        Option<(Integer, Integer)>,
    >)
        ensures
            res(r) == both(
                (sem_at(self@, g).closed_int)(m, ctx@, a@),
                (sem_at(self@, g).closed_int)(m, ctx@, b@),
            ),
        decreases g.total(), 1int, 0int,
    {
        let x = self.closed_int_at(g, m, ctx, a)?;
        let y = self.closed_int_at(g, m, ctx, b)?;
        match (x, y) {
            (Some(p), Some(q)) => Ok(Some((p, q))),
            _ => Ok(None),
        }
    }

    /// The values of a closed integer and of a closed natural.
    pub fn closed_int_nat_pair(&self, g: Budget, m: Mode, ctx: &Ctx, a: &Expr, b: &Expr) -> (r: R<
        Option<(Integer, Natural)>,
    >)
        ensures
            res(r) == both(
                (sem_at(self@, g).closed_int)(m, ctx@, a@),
                closed_nat(self@, sem_at(self@, g), m, ctx@, b@),
            ),
        decreases g.total(), 3int, 0int,
    {
        let x = self.closed_int_at(g, m, ctx, a)?;
        let y = self.closed_nat_value(g, m, ctx, b)?;
        match (x, y) {
            (Some(p), Some(q)) => Ok(Some((p, q))),
            _ => Ok(None),
        }
    }

    /// The values of two closed naturals.
    pub fn closed_nat_pair(&self, g: Budget, m: Mode, ctx: &Ctx, a: &Expr, b: &Expr) -> (r: R<
        Option<(Natural, Natural)>,
    >)
        ensures
            res(r) == both(
                closed_nat(self@, sem_at(self@, g), m, ctx@, a@),
                closed_nat(self@, sem_at(self@, g), m, ctx@, b@),
            ),
        decreases g.total(), 3int, 0int,
    {
        let x = self.closed_nat_value(g, m, ctx, a)?;
        let y = self.closed_nat_value(g, m, ctx, b)?;
        match (x, y) {
            (Some(p), Some(q)) => Ok(Some((p, q))),
            _ => Ok(None),
        }
    }

    /// The value of a closed integer.
    pub fn closed_int_value(&self, g: Budget, m: Mode, ctx: &Ctx, e: &Expr) -> (r: R<Option<Integer>>)
        ensures
            res(r) == closed_int_step(self@, sem_at(self@, g), m, ctx@, e@),
        decreases g.total(), 4int, 0int,
    {
        proof {
            reveal(closed_int_step);
        }
        match self.read_int_form(e) {
            IntForm::Opaque => Ok(None),
            IntForm::FromNat(t) => match self.closed_nat_value(g, m, ctx, &t)? {
                Some(n) => Ok(Some(Integer::from_natural(&n))),
                None => Ok(None),
            },
            IntForm::NegSucc(t) => match self.closed_nat_value(g, m, ctx, &t)? {
                Some(n) => Ok(
                    Some(Integer::from_natural(&n).negate().minus(&Integer::from_i64(1))),
                ),
                None => Ok(None),
            },
            IntForm::Neg(t) => match self.closed_int_at(g, m, ctx, &t)? {
                Some(v) => Ok(Some(v.negate())),
                None => Ok(None),
            },
            IntForm::Binary(op, a, b) => match self.closed_int_pair(g, m, ctx, &a, &b)? {
                Some((x, y)) => Ok(Some(apply_int_op(op, &x, &y))),
                None => Ok(None),
            },
            IntForm::Power(a, b) => match self.closed_int_nat_pair(g, m, ctx, &a, &b)? {
                Some((x, y)) => Ok(int_pow(&x, &y)),
                None => Ok(None),
            },
            IntForm::Balanced(a, b) => match self.closed_int_nat_pair(g, m, ctx, &a, &b)? {
                Some((x, y)) => Ok(Some(int_bmod(&x, &y))),
                None => Ok(None),
            },
        }
    }

    /// Whether a term is an integer numeral as it stands.
    pub fn is_closed_int_numeral(&self, e: &Expr) -> (r: bool)
        ensures
            r == int_numeral(self@, e@),
        decreases e,
    {
        if as_lit(e).is_some() {
            return true;
        }
        let (head, args) = unfold_apps(e);
        assert(args.len() == args.deep_view().len());
        match head.data() {
            ExprData::Const(n, _) => {
                let name = self.name_str(*n);
                if str_same(name, "OfNat.ofNat") && args.len() >= 2 {
                    return as_lit(&args[1]).is_some();
                }
                if named(name, "Int.ofNat") || named(name, "Int.negSucc") {
                    return args.len() >= 1 && as_lit(&args[0]).is_some();
                }
                if named(name, "Int.neg") || str_same(name, "Neg.neg") {
                    match e.data() {
                        ExprData::App(_, a) => {
                            return self.is_closed_int_numeral(a);
                        },
                        _ => {
                            return false;
                        },
                    }
                }
                false
            },
            _ => false,
        }
    }

    /// What a term that is a negation negates.
    pub fn peel_int_neg(&self, e: &Expr) -> (r: Option<Expr>)
        ensures
            r.deep_view() == negated(self@, e@),
    {
        let (head, args) = unfold_apps(e);
        assert(args.len() == args.deep_view().len());
        match head.data() {
            ExprData::Const(n, _) => {
                let name = self.name_str(*n);
                if named(name, "Int.neg") {
                    if args.len() >= 1 {
                        Some(args[0].clone())
                    } else {
                        None
                    }
                } else if str_same(name, "Neg.neg") && args.len() >= 3 {
                    Some(args[2].clone())
                } else {
                    None
                }
            },
            _ => None,
        }
    }

    /// An integer by its constructors.
    pub fn mk_int_canonical(&self, v: &Integer) -> (r: Option<Expr>)
        ensures
            r.deep_view() == canonical_int(self@, v@),
    {
        if !v.is_negative() {
            let c = self.find_name_ending("Int.ofNat")?;
            return Some(app(plain_const(c), lit_nat(v.magnitude())));
        }
        let c = self.find_name_ending("Int.negSucc")?;
        Some(app(plain_const(c), lit_nat(v.magnitude().minus(&Natural::from_u64(1)))))
    }

    fn mk_int_literal(&self, n: &Natural) -> (r: Option<Expr>)
        ensures
            r.deep_view() == int_literal(self@, n@),
    {
        let f = self.find_name("OfNat.ofNat")?;
        let ty = self.find_name_ending("Int")?;
        let inst = match self.find_name("instOfNat") {
            Some(i) => i,
            None => self.find_name_ending("instOfNatInt")?,
        };
        Some(
            mk_app3(
                const_at_zero(f),
                plain_const(ty),
                lit_nat(n.clone()),
                app(plain_const(inst), lit_nat(n.clone())),
            ),
        )
    }

    /// An integer as a literal, negated where it is negative.
    pub fn mk_closed_int(&self, v: &Integer) -> (r: Option<Expr>)
        ensures
            r.deep_view() == closed_int_term(self@, v@),
    {
        if !v.is_negative() {
            return self.mk_int_literal(&v.magnitude());
        }
        let pos = self.mk_int_literal(&v.magnitude())?;
        let neg = self.find_name_ending("Int.neg")?;
        Some(app(plain_const(neg), pos))
    }

    /// A decision as a term.
    pub fn mk_decidable_bool(&self, yes: bool) -> (r: Option<Expr>)
        ensures
            r.deep_view() == decidable_term(self@, yes),
    {
        let first = if yes {
            self.find_name("Decidable.isTrue")
        } else {
            self.find_name("Decidable.isFalse")
        };
        let c = match first {
            Some(c) => c,
            None => {
                if yes {
                    self.find_name_ending("isTrue")?
                } else {
                    self.find_name_ending("isFalse")?
                }
            },
        };
        let t = self.find_name("True")?;
        let i = self.find_name("True.intro")?;
        Some(mk_app2(const_at_zero(c), plain_const(t), plain_const(i)))
    }

    /// The truth value that a term shows.
    pub fn bool_const_val(&self, e: &Expr) -> (r: Option<bool>)
        ensures
            r == shown_bool(self@, e@),
    {
        if self.head_is(e, "Bool.true") {
            Some(true)
        } else if self.head_is(e, "Bool.false") {
            Some(false)
        } else {
            None
        }
    }

    /// A truth value as a term.
    pub fn mk_bool_const(&self, b: bool) -> (r: Option<Expr>)
        ensures
            r.deep_view() == bool_term(self@, b),
    {
        let c = if b {
            self.find_name("Bool.true")?
        } else {
            self.find_name("Bool.false")?
        };
        Some(plain_const(c))
    }
}

proof fn lemma_found_ending(k: K, text: Seq<char>, i: nat)
    requires
        text.len() > 0,
    ensures
        crate::names::name_ending_from(k.names, text, i) matches Some(c) ==> is_named(
            name_of(k, c),
            text,
        ),
    decreases k.names.len() - i,
{
    if i < k.names.len() && i <= u32::MAX {
        if is_named(k.names[i as int], text) {
            lemma_last_char(k.names[i as int], text);
            assert(name_of(k, i as u32) == k.names[i as int]);
        } else {
            lemma_found_ending(k, text, i + 1);
        }
    }
}

pub(crate) proof fn lemma_found(k: K, text: Seq<char>, i: nat)
    requires
        text.len() > 0,
    ensures
        crate::names::name_from(k.names, text, i) matches Some(c) ==> name_of(k, c) == text,
    decreases k.names.len() - i,
{
    if i < k.names.len() && i <= u32::MAX {
        if k.names[i as int] == text {
            assert(name_of(k, i as u32) == k.names[i as int]);
        } else {
            lemma_found(k, text, i + 1);
        }
    }
}

proof fn lemma_last_char(name: Seq<char>, text: Seq<char>)
    requires
        text.len() > 0,
        is_named(name, text),
    ensures
        name.len() > 0,
        name.last() == text.last(),
{
    let dotted = seq!['.'] + text;
    if name != text {
        assert(crate::text::is_suffix(name, dotted));
        assert(dotted.last() == text.last());
    }
}

proof fn lemma_names_apart(name: Seq<char>)
    ensures
        is_named(name, "Int.negSucc"@) ==> !is_named(name, "Int.ofNat"@),
        is_named(name, "Int.neg"@) ==> !is_named(name, "Int.ofNat"@) && !is_named(
            name,
            "Int.negSucc"@,
        ),
{
    reveal_strlit("Int.negSucc");
    reveal_strlit("Int.ofNat");
    reveal_strlit("Int.neg");
    if is_named(name, "Int.negSucc"@) {
        lemma_last_char(name, "Int.negSucc"@);
    }
    if is_named(name, "Int.ofNat"@) {
        lemma_last_char(name, "Int.ofNat"@);
    }
    if is_named(name, "Int.neg"@) {
        lemma_last_char(name, "Int.neg"@);
    }
}

/// An integer written by its constructors is read back.
pub proof fn law_canonical_reads_back(k: K, s: Sem, m: Mode, ctx: Seq<Term>, v: int, t: Term)
    requires
        canonical_int(k, v) == Some(t),
    ensures
        closed_int_step(k, s, m, ctx, t) == Ok::<Option<int>, Fault>(Some(v)),
{
    reveal(closed_int_step);
    reveal(int_form);
    reveal_with_fuel(spine_args, 2);
    reveal_with_fuel(spine_head, 2);
    reveal_strlit("Int.ofNat");
    reveal_strlit("Int.negSucc");
    lemma_found_ending(k, "Int.ofNat"@, 0);
    lemma_found_ending(k, "Int.negSucc"@, 0);
    match spine_head(t) {
        Term::Const(c, _) => {
            lemma_names_apart(name_of(k, c));
            assert(spine_args(t).len() == 1);
        },
        _ => {},
    }
}

/// A natural written as an integer literal is read back.
pub proof fn law_literal_reads_back(k: K, s: Sem, m: Mode, ctx: Seq<Term>, n: nat, t: Term)
    requires
        int_literal(k, n) == Some(t),
    ensures
        closed_int_step(k, s, m, ctx, t) == Ok::<Option<int>, Fault>(Some(n as int)),
{
    reveal(closed_int_step);
    reveal(int_form);
    reveal_with_fuel(spine_args, 4);
    reveal_with_fuel(spine_head, 4);
    reveal_strlit("OfNat.ofNat");
    reveal_strlit("Int");
    lemma_found(k, "OfNat.ofNat"@, 0);
    lemma_found_ending(k, "Int"@, 0);
    assert(spine_args(t).len() == 3);
    assert(spine_args(t)[1] == nat_lit(n));
    match find_name_ending_spec(k, "Int"@) {
        Some(ty) => {
            assert(spine_args(t)[0] == plain(ty));
        },
        None => {},
    }
}

/// An integer written as a literal, negated where it is negative, is read back
/// with a budget for the negation.
pub proof fn law_closed_int_reads_back(k: K, g: Budget, m: Mode, ctx: Seq<Term>, v: int, t: Term)
    requires
        g.rest >= 2,
        closed_int_term(k, v) == Some(t),
    ensures
        (sem_at(k, g).closed_int)(m, ctx, t) == Ok::<Option<int>, Fault>(Some(v)),
{
    reveal(sem_at);
    let s1 = sem_at(k, g.in_rest());
    let s2 = sem_at(k, g.in_rest().in_rest());
    if v >= 0 {
        law_literal_reads_back(k, s1, m, ctx, v as nat, t);
    } else {
        let pos = int_literal(k, (-v) as nat).unwrap();
        law_literal_reads_back(k, s2, m, ctx, (-v) as nat, pos);
        assert((s1.closed_int)(m, ctx, pos) == Ok::<Option<int>, Fault>(Some(-v)));
        reveal(closed_int_step);
        reveal(int_form);
        reveal_with_fuel(spine_args, 2);
        reveal_with_fuel(spine_head, 2);
        reveal_strlit("Int.neg");
        lemma_found_ending(k, "Int.neg"@, 0);
        match spine_head(t) {
            Term::Const(c, _) => {
                lemma_names_apart(name_of(k, c));
                assert(spine_args(t).len() == 1);
                assert(spine_args(t)[0] == pos);
            },
            _ => {},
        }
    }
}

/// A natural literal alone is no integer.
pub proof fn law_bare_literal_is_no_integer(k: K, s: Sem, m: Mode, ctx: Seq<Term>, n: nat)
    ensures
        closed_int_step(k, s, m, ctx, nat_lit(n)) == Ok::<Option<int>, Fault>(None),
{
    reveal(closed_int_step);
    reveal(int_form);
}

} // verus!
