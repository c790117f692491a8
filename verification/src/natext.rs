//! Arithmetic on natural and integer literals.

use crate::closed::{
    apply_int_op, bool_term, both, canonical_int, closed_int_term, closed_nat, decidable_term,
    int_numeral, int_op, nat_arg, nat_value, negated, shown_bool, IntOp,
};
use crate::ctx::Ctx;
use crate::errors::{res, R};
use crate::expr::{app, app_head, apps_from, lit_nat, Expr, ExprData, Term};
use crate::ext::with_rest;
use crate::ints::{
    bmod, ediv, emod, gcd, int_bmod, int_emod_nat, int_pow, bounded_pow, num_bigint_gcd,
    small_exponent, POWER_BITS,
};
use crate::judge::sem_at;
use crate::kernel::{Budget, Checker, K, Mode, Res, Sem};
use crate::lookup::{name_of, nat_ctors_spec, plain_const};
use crate::names::{
    app1, app2, find_name_ending_spec, find_name_spec, head_name, is_const_named, mk_app2, nat_lit,
    plain,
};
use crate::num::{bit_and, bit_or, bit_xor, Integer, Natural};
use crate::numeral::{
    as_lit, is_one, is_one_spec, is_zero, is_zero_spec, lit_value, of_nat_spec, of_nat_value, pred,
    pred_spec,
};
use crate::text::{is_named, named, str_same};
use vstd::arithmetic::power::pow;
use vstd::arithmetic::power2::pow2;
use vstd::prelude::*;

verus! {

/// The number of bits from which on a literal is not taken apart in a sum or a
/// product with a term that is not a numeral.
pub const LARGE_BITS: u64 = 16;

/// Operations on two naturals that give a natural.
#[derive(Clone, Copy, Debug, PartialEq, Eq, Structural)]
pub enum NatOp {
    Plus,
    Minus,
    Times,
    Pow,
    Div,
    Mod,
    Shl,
    Shr,
    And,
    Or,
    Xor,
}

/// What an applied constant is reduced as.
#[derive(Clone, Copy, Debug, PartialEq, Eq, Structural)]
pub enum NatRule {
    Succ,
    Binary(NatOp),
    /// An overloaded operation; `true` where it is between any types.
    Overload(NatOp, bool),
    Ble,
    Beq,
    IntBinary(IntOp),
    IntPow,
    IntBmod,
    IntEmod,
    /// A decision of an order; `true` where it is strict.
    IntDecide(bool),
    Decide,
    IntNeg,
    NatAbs,
    Gcd,
    Neg,
    Cast,
    OfNat,
    IntBeq,
    BoolAnd,
}

/// The operation on naturals that a name stands for.
pub open spec fn nat_op_named(name: Seq<char>) -> Option<NatOp> {
    if name == "Nat.add"@ {
        Some(NatOp::Plus)
    } else if name == "Nat.mul"@ {
        Some(NatOp::Times)
    } else if name == "Nat.sub"@ {
        Some(NatOp::Minus)
    } else if name == "Nat.pow"@ {
        Some(NatOp::Pow)
    } else if name == "Nat.div"@ {
        Some(NatOp::Div)
    } else if name == "Nat.mod"@ || name == "Nat.modCore"@ {
        Some(NatOp::Mod)
    } else if name == "Nat.shiftLeft"@ {
        Some(NatOp::Shl)
    } else if name == "Nat.shiftRight"@ {
        Some(NatOp::Shr)
    } else if name == "Nat.land"@ {
        Some(NatOp::And)
    } else if name == "Nat.lor"@ {
        Some(NatOp::Or)
    } else if name == "Nat.xor"@ {
        Some(NatOp::Xor)
    } else {
        None
    }
}

/// The operation that an overloaded name between any types stands for.
pub open spec fn hetero_op_named(name: Seq<char>) -> Option<NatOp> {
    if name == "HAdd.hAdd"@ {
        Some(NatOp::Plus)
    } else if name == "HMul.hMul"@ {
        Some(NatOp::Times)
    } else if name == "HPow.hPow"@ {
        Some(NatOp::Pow)
    } else if name == "HSub.hSub"@ {
        Some(NatOp::Minus)
    } else if name == "HMod.hMod"@ {
        Some(NatOp::Mod)
    } else if name == "HDiv.hDiv"@ {
        Some(NatOp::Div)
    } else if name == "HShiftLeft.hShiftLeft"@ {
        Some(NatOp::Shl)
    } else if name == "HShiftRight.hShiftRight"@ {
        Some(NatOp::Shr)
    } else {
        None
    }
}

/// The operation that an overloaded name on one type stands for.
pub open spec fn homo_op_named(name: Seq<char>) -> Option<NatOp> {
    if name == "Add.add"@ {
        Some(NatOp::Plus)
    } else if name == "Mul.mul"@ {
        Some(NatOp::Times)
    } else if name == "Pow.pow"@ {
        Some(NatOp::Pow)
    } else if name == "Sub.sub"@ {
        Some(NatOp::Minus)
    } else if name == "Mod.mod"@ {
        Some(NatOp::Mod)
    } else if name == "Div.div"@ {
        Some(NatOp::Div)
    } else if name == "ShiftLeft.shiftLeft"@ {
        Some(NatOp::Shl)
    } else if name == "ShiftRight.shiftRight"@ {
        Some(NatOp::Shr)
    } else {
        None
    }
}

/// The rule for a function on integers or truth values.
pub open spec fn int_rule_named(name: Seq<char>) -> Option<NatRule> {
    if name == "Int.add"@ {
        Some(NatRule::IntBinary(IntOp::Plus))
    } else if name == "Int.sub"@ {
        Some(NatRule::IntBinary(IntOp::Minus))
    } else if name == "Int.mul"@ {
        Some(NatRule::IntBinary(IntOp::Times))
    } else if name == "Int.ediv"@ || name == "Int.div"@ {
        Some(NatRule::IntBinary(IntOp::Div))
    } else if name == "Int.pow"@ {
        Some(NatRule::IntPow)
    } else if name == "Int.bmod"@ {
        Some(NatRule::IntBmod)
    } else if name == "Int.emod"@ {
        Some(NatRule::IntEmod)
    } else if name == "Int.decLe"@ {
        Some(NatRule::IntDecide(false))
    } else if name == "Int.decLt"@ {
        Some(NatRule::IntDecide(true))
    } else if name == "Decidable.decide"@ || name == "decide"@ {
        Some(NatRule::Decide)
    } else if name == "Int.neg"@ {
        Some(NatRule::IntNeg)
    } else if name == "Int.natAbs"@ {
        Some(NatRule::NatAbs)
    } else if name == "Neg.neg"@ {
        Some(NatRule::Neg)
    } else if name == "Nat.cast"@ || name == "NatCast.natCast"@ {
        Some(NatRule::Cast)
    } else if name == "OfNat.ofNat"@ {
        Some(NatRule::OfNat)
    } else if is_named(name, "Int.beq'"@) {
        Some(NatRule::IntBeq)
    } else if is_named(name, "Bool.and'"@) {
        Some(NatRule::BoolAnd)
    } else {
        None
    }
}

/// The rule that a name stands for.
#[verifier::opaque]
pub open spec fn rule_named(name: Seq<char>) -> Option<NatRule> {
    if name == "Nat.succ"@ {
        Some(NatRule::Succ)
    } else if name == "Nat.ble"@ {
        Some(NatRule::Ble)
    } else if name == "Nat.beq"@ {
        Some(NatRule::Beq)
    } else if name == "Nat.gcd"@ {
        Some(NatRule::Gcd)
    } else {
        match nat_op_named(name) {
            Some(op) => Some(NatRule::Binary(op)),
            None => match hetero_op_named(name) {
                Some(op) => Some(NatRule::Overload(op, true)),
                None => match homo_op_named(name) {
                    Some(op) => Some(NatRule::Overload(op, false)),
                    None => int_rule_named(name),
                },
            },
        }
    }
}

/// The number of arguments that a rule needs.
pub open spec fn rule_arity(r: NatRule) -> nat {
    match r {
        NatRule::Succ => 1,
        NatRule::IntNeg => 1,
        NatRule::NatAbs => 1,
        NatRule::Neg => 3,
        NatRule::Cast => 3,
        NatRule::OfNat => 3,
        NatRule::Overload(_, hetero) => if hetero {
            6
        } else {
            4
        },
        _ => 2,
    }
}

/// A power with an exponent that is computed, else nothing.
pub open spec fn nat_pow(x: nat, y: nat) -> Option<nat> {
    if y < pow2(POWER_BITS as nat) {
        Some(pow(x as int, y) as nat)
    } else {
        None
    }
}

/// A number shifted by a distance that is computed, else nothing.
pub open spec fn nat_shl(x: nat, y: nat) -> Option<nat> {
    if y < pow2(POWER_BITS as nat) {
        Some(x * pow2(y))
    } else {
        None
    }
}

/// The difference of two naturals, zero where there is none.
pub open spec fn nat_sub(x: nat, y: nat) -> nat {
    if y <= x {
        (x - y) as nat
    } else {
        0
    }
}

/// The value of an operation on two naturals. A quotient by zero is zero, and a
/// remainder by zero is the number itself.
pub open spec fn nat_op_value(op: NatOp, x: nat, y: nat) -> Option<nat> {
    match op {
        NatOp::Plus => Some(x + y),
        NatOp::Minus => Some(nat_sub(x, y)),
        NatOp::Times => Some(x * y),
        NatOp::Pow => nat_pow(x, y),
        NatOp::Div => Some(
            if y == 0 {
                0
            } else {
                x / y
            },
        ),
        NatOp::Mod => Some(
            if y == 0 {
                x
            } else {
                x % y
            },
        ),
        NatOp::Shl => nat_shl(x, y),
        NatOp::Shr => Some(x / pow2(y)),
        NatOp::And => Some(bit_and(x, y)),
        NatOp::Or => Some(bit_or(x, y)),
        NatOp::Xor => Some(bit_xor(x, y)),
    }
}

/// Whether a term is a literal that is not taken apart.
pub open spec fn large_literal(e: Term) -> bool {
    match lit_value(e) {
        Some(v) => v >= pow2((LARGE_BITS - 1) as nat),
        None => false,
    }
}

/// A sum of which not both sides are numerals.
pub open spec fn open_sum(n: u32, zero: u32, succ: u32, a: Term, b: Term) -> Option<Term> {
    if is_zero_spec(b, zero) {
        Some(a)
    } else if is_zero_spec(a, zero) {
        Some(b)
    } else if is_one_spec(b, zero, succ) {
        Some(app1(plain(succ), a))
    } else if large_literal(a) || large_literal(b) {
        None
    } else {
        match pred_spec(b, succ) {
            Some(p) => Some(app1(plain(succ), app2(plain(n), a, p))),
            None => match pred_spec(a, succ) {
                Some(p) => Some(app1(plain(succ), app2(plain(n), p, b))),
                None => None,
            },
        }
    }
}

/// A product of which not both sides are numerals.
pub open spec fn open_product(k: K, n: u32, zero: u32, succ: u32, a: Term, b: Term) -> Option<Term> {
    if is_zero_spec(a, zero) || is_zero_spec(b, zero) {
        Some(nat_lit(0))
    } else if large_literal(a) || large_literal(b) {
        None
    } else {
        match find_name_spec(k, "Nat.add"@) {
            None => None,
            Some(sum) => match pred_spec(b, succ) {
                Some(p) => Some(app2(plain(sum), app2(plain(n), a, p), a)),
                None => match pred_spec(a, succ) {
                    Some(p) => Some(app2(plain(sum), app2(plain(n), p, b), b)),
                    None => None,
                },
            },
        }
    }
}

/// A difference of which not both sides are literals.
pub open spec fn open_difference(n: u32, zero: u32, succ: u32, a: Term, b: Term) -> Option<Term> {
    if is_zero_spec(b, zero) {
        Some(a)
    } else if is_zero_spec(a, zero) {
        Some(nat_lit(0))
    } else {
        match (pred_spec(a, succ), pred_spec(b, succ)) {
            (Some(p), Some(q)) => Some(app2(plain(n), p, q)),
            _ => None,
        }
    }
}

/// A power that is not computed.
pub open spec fn open_power(k: K, n: u32, zero: u32, succ: u32, a: Term, b: Term) -> Option<Term> {
    if is_zero_spec(b, zero) {
        Some(nat_lit(1))
    } else {
        match pred_spec(b, succ) {
            Some(p) => match find_name_spec(k, "Nat.mul"@) {
                Some(mul) => Some(app2(plain(mul), app2(plain(n), a, p), a)),
                None => None,
            },
            None => None,
        }
    }
}

/// One step of an operation on naturals that has no value yet.
pub open spec fn open_op(k: K, op: NatOp, n: u32, a: Term, b: Term) -> Option<Term> {
    match nat_ctors_spec(k) {
        None => None,
        Some((zero, succ)) => match op {
            NatOp::Plus => open_sum(n, zero, succ, a, b),
            NatOp::Times => open_product(k, n, zero, succ, a, b),
            NatOp::Minus => open_difference(n, zero, succ, a, b),
            NatOp::Pow => open_power(k, n, zero, succ, a, b),
            _ => None,
        },
    }
}

/// The numbers that an operation computes with: a difference goes by literals
/// alone, the others by numerals too.
pub open spec fn op_numbers(k: K, op: NatOp, a: Term, b: Term) -> Option<(nat, nat)> {
    if op == NatOp::Minus {
        match (lit_value(a), lit_value(b)) {
            (Some(x), Some(y)) => Some((x, y)),
            _ => None,
        }
    } else {
        match (nat_value(k, a), nat_value(k, b)) {
            (Some(x), Some(y)) => Some((x, y)),
            _ => None,
        }
    }
}

/// An operation on two reduced naturals.
pub open spec fn nat_op_term(k: K, op: NatOp, n: u32, a: Term, b: Term) -> Option<Term> {
    let computed = match op_numbers(k, op, a, b) {
        Some((x, y)) => nat_op_value(op, x, y),
        None => None,
    };
    match computed {
        Some(v) => Some(nat_lit(v)),
        None => open_op(k, op, n, a, b),
    }
}

/// The name of the operation that an overloaded one is on linear combinations.
pub open spec fn combo_op_name(op: NatOp) -> Option<Seq<char>> {
    match op {
        NatOp::Plus => Some("LinearCombo.add"@),
        NatOp::Minus => Some("LinearCombo.sub"@),
        _ => None,
    }
}

/// The name of the operation that an overloaded one is on integers.
pub open spec fn int_op_name(op: NatOp) -> Option<Seq<char>> {
    match op {
        NatOp::Plus => Some("Int.add"@),
        NatOp::Minus => Some("Int.sub"@),
        NatOp::Times => Some("Int.mul"@),
        NatOp::Pow => Some("Int.pow"@),
        _ => None,
    }
}

/// The name of the operation that an overloaded one is on naturals.
pub open spec fn nat_op_name(op: NatOp) -> Option<Seq<char>> {
    match op {
        NatOp::Plus => Some("Nat.add"@),
        NatOp::Times => Some("Nat.mul"@),
        NatOp::Pow => Some("Nat.pow"@),
        NatOp::Minus => Some("Nat.sub"@),
        NatOp::Mod => Some("Nat.mod"@),
        NatOp::Div => Some("Nat.div"@),
        NatOp::Shl => Some("Nat.shiftLeft"@),
        NatOp::Shr => Some("Nat.shiftRight"@),
        _ => None,
    }
}

/// Whether an overloaded operation between any types is on integers only where
/// all three types are integers.
pub open spec fn needs_all_types(op: NatOp) -> bool {
    match op {
        NatOp::Plus => true,
        NatOp::Minus => true,
        NatOp::Times => true,
        NatOp::Div => true,
        NatOp::Mod => true,
        _ => false,
    }
}

/// Whether an overloaded operation is on integers.
pub open spec fn on_ints(
    k: K,
    s: Sem,
    m: Mode,
    ctx: Seq<Term>,
    op: NatOp,
    hetero: bool,
    ty: Term,
    args: Seq<Term>,
) -> Res<bool> {
    if hetero && needs_all_types(op) {
        match (s.whnf)(m, ctx, args[1]) {
            Err(f) => Err(f),
            Ok(t1) => match (s.whnf)(m, ctx, args[2]) {
                Err(f) => Err(f),
                Ok(t2) => Ok(
                    is_const_named(k, ty, "Int"@) && is_const_named(k, t1, "Int"@)
                        && is_const_named(k, t2, "Int"@),
                ),
            },
        }
    } else {
        Ok(is_const_named(k, ty, "Int"@))
    }
}

/// The name of the operation that an overloaded one is at a type.
pub open spec fn overload_name(k: K, op: NatOp, ty: Term, is_int: bool) -> Option<Seq<char>> {
    if is_const_named(k, ty, "LinearCombo"@) {
        combo_op_name(op)
    } else if is_int {
        int_op_name(op)
    } else if (ty matches Term::Const(t, _) && k.nat_ref == Some(t)) {
        nat_op_name(op)
    } else {
        None
    }
}

/// An overloaded operation at a type it is known for.
#[verifier::opaque]
pub open spec fn overload_spec(
    k: K,
    s: Sem,
    m: Mode,
    ctx: Seq<Term>,
    op: NatOp,
    hetero: bool,
    args: Seq<Term>,
) -> Res<Option<Term>> {
    let lhs: int = if hetero {
        4
    } else {
        2
    };
    match (s.whnf)(m, ctx, args[0]) {
        Err(f) => Err(f),
        Ok(ty) => if !(ty is Const) {
            Ok(None)
        } else {
            match on_ints(k, s, m, ctx, op, hetero, ty, args) {
                Err(f) => Err(f),
                Ok(is_int) => match overload_name(k, op, ty, is_int) {
                    None => Ok(None),
                    Some(text) => match find_name_ending_spec(k, text) {
                        None => Ok(None),
                        Some(c) => Ok(Some(app2(plain(c), args[lhs], args[lhs + 1]))),
                    },
                },
            }
        },
    }
}

/// The remainder of an integer by a natural, or by an integer that is not
/// negative.
pub open spec fn emod_spec(k: K, s: Sem, m: Mode, ctx: Seq<Term>, a: Term, b: Term) -> Res<
    Option<Term>,
> {
    match (s.closed_int)(m, ctx, a) {
        Err(f) => Err(f),
        Ok(None) => Ok(None),
        Ok(Some(x)) => match closed_nat(k, s, m, ctx, b) {
            Err(f) => Err(f),
            Ok(Some(n)) => Ok(canonical_int(k, emod(x, n as int))),
            Ok(None) => match (s.closed_int)(m, ctx, b) {
                Err(f) => Err(f),
                Ok(Some(y)) => if y >= 0 {
                    Ok(canonical_int(k, emod(x, y)))
                } else {
                    Ok(None)
                },
                Ok(None) => Ok(None),
            },
        },
    }
}

/// A decision of an order of integers.
pub open spec fn int_decide_spec(
    k: K,
    s: Sem,
    m: Mode,
    ctx: Seq<Term>,
    strict: bool,
    a: Term,
    b: Term,
) -> Res<Option<Term>> {
    match (s.whnf)(m, ctx, a) {
        Err(f) => Err(f),
        Ok(aw) => match (s.whnf)(m, ctx, b) {
            Err(f) => Err(f),
            Ok(bw) => match both((s.closed_int)(m, ctx, aw), (s.closed_int)(m, ctx, bw)) {
                Err(f) => Err(f),
                Ok(None) => Ok(None),
                Ok(Some((x, y))) => Ok(
                    decidable_term(
                        k,
                        if strict {
                            x < y
                        } else {
                            x <= y
                        },
                    ),
                ),
            },
        },
    }
}

/// The truth value that a decision shows.
pub open spec fn decision(k: K, inst: Term) -> Option<bool> {
    match head_name(k, inst) {
        None => None,
        Some(name) => if name == "Decidable.isTrue"@ || name == "isTrue"@ {
            Some(true)
        } else if name == "Decidable.isFalse"@ || name == "isFalse"@ {
            Some(false)
        } else {
            None
        },
    }
}

/// A double negation of a numeral.
pub open spec fn double_negation(k: K, s: Sem, m: Mode, ctx: Seq<Term>, e: Term) -> Res<
    Option<Term>,
> {
    match negated(k, e) {
        None => Ok(None),
        Some(inner) => match (s.whnf)(m, ctx, inner) {
            Err(f) => Err(f),
            Ok(w) => if int_numeral(k, w) {
                Ok(Some(w))
            } else {
                Ok(None)
            },
        },
    }
}

/// The negative of an integer.
pub open spec fn int_neg_spec(k: K, s: Sem, m: Mode, ctx: Seq<Term>, e: Term) -> Res<Option<Term>> {
    match (s.closed_int)(m, ctx, e) {
        Err(f) => Err(f),
        Ok(Some(v)) => match canonical_int(k, -v) {
            Some(t) => Ok(Some(t)),
            None => double_negation(k, s, m, ctx, e),
        },
        Ok(None) => double_negation(k, s, m, ctx, e),
    }
}

/// An overloaded negation at the type of integers.
pub open spec fn neg_spec(k: K, s: Sem, m: Mode, ctx: Seq<Term>, ty: Term, e: Term) -> Res<
    Option<Term>,
> {
    match (s.whnf)(m, ctx, ty) {
        Err(f) => Err(f),
        Ok(t) => if !is_const_named(k, t, "Int"@) {
            Ok(None)
        } else {
            match double_negation(k, s, m, ctx, e) {
                Err(f) => Err(f),
                Ok(Some(w)) => Ok(Some(w)),
                Ok(None) => match find_name_ending_spec(k, "Int.neg"@) {
                    Some(c) => Ok(Some(app1(plain(c), e))),
                    None => Ok(None),
                },
            }
        },
    }
}

/// A natural cast to the type of integers.
pub open spec fn cast_spec(k: K, s: Sem, m: Mode, ctx: Seq<Term>, ty: Term, e: Term) -> Res<
    Option<Term>,
> {
    match (s.whnf)(m, ctx, ty) {
        Err(f) => Err(f),
        Ok(t) => if !is_const_named(k, t, "Int"@) {
            Ok(None)
        } else {
            match closed_nat(k, s, m, ctx, e) {
                Err(f) => Err(f),
                Ok(Some(n)) => Ok(closed_int_term(k, n as int)),
                Ok(None) => Ok(None),
            }
        },
    }
}

/// A literal at a type.
pub open spec fn of_nat_rule(k: K, s: Sem, m: Mode, ctx: Seq<Term>, ty: Term, e: Term) -> Res<
    Option<Term>,
> {
    match k.nat_ref {
        None => Ok(None),
        Some(nat_ty) => match (s.whnf)(m, ctx, ty) {
            Err(f) => Err(f),
            Ok(t) => match of_nat_spec(t, e, nat_ty) {
                Some(v) => Ok(Some(v)),
                None => match of_nat_spec(ty, e, nat_ty) {
                    Some(v) => Ok(Some(v)),
                    None => if !is_const_named(k, t, "Int"@) {
                        Ok(None)
                    } else {
                        match closed_nat(k, s, m, ctx, e) {
                            Err(f) => Err(f),
                            Ok(None) => Ok(None),
                            Ok(Some(n)) => match find_name_ending_spec(k, "Int.ofNat"@) {
                                Some(c) => Ok(Some(app1(plain(c), nat_lit(n)))),
                                None => Ok(None),
                            },
                        }
                    },
                },
            },
        },
    }
}

/// The conjunction of two truth values.
pub open spec fn bool_and_spec(k: K, s: Sem, m: Mode, ctx: Seq<Term>, a: Term, b: Term) -> Res<
    Option<Term>,
> {
    match (s.whnf)(m, ctx, a) {
        Err(f) => Err(f),
        Ok(aw) => match (s.whnf)(m, ctx, b) {
            Err(f) => Err(f),
            Ok(bw) => match (shown_bool(k, aw), shown_bool(k, bw)) {
                (Some(x), Some(y)) => Ok(bool_term(k, x && y)),
                _ => Ok(None),
            },
        },
    }
}

/// A comparison of two naturals.
pub open spec fn nat_test_spec(
    k: K,
    s: Sem,
    m: Mode,
    ctx: Seq<Term>,
    equal: bool,
    a: Term,
    b: Term,
) -> Res<Option<Term>> {
    match both(closed_nat(k, s, m, ctx, a), closed_nat(k, s, m, ctx, b)) {
        Err(f) => Err(f),
        Ok(None) => Ok(None),
        Ok(Some((x, y))) => Ok(
            bool_term(
                k,
                if equal {
                    x == y
                } else {
                    x <= y
                },
            ),
        ),
    }
}

/// An operation on two naturals.
pub open spec fn nat_binary_spec(
    k: K,
    s: Sem,
    m: Mode,
    ctx: Seq<Term>,
    op: NatOp,
    n: u32,
    a: Term,
    b: Term,
) -> Res<Option<Term>> {
    match nat_arg(s, m, ctx, a) {
        Err(f) => Err(f),
        Ok(aw) => match nat_arg(s, m, ctx, b) {
            Err(f) => Err(f),
            Ok(bw) => Ok(nat_op_term(k, op, n, aw, bw)),
        },
    }
}

/// What a rule makes of its arguments.
#[verifier::opaque]
pub open spec fn rule_value(
    k: K,
    s: Sem,
    m: Mode,
    ctx: Seq<Term>,
    rule: NatRule,
    n: u32,
    args: Seq<Term>,
) -> Res<Option<Term>> {
    match rule {
        NatRule::Succ => match closed_nat(k, s, m, ctx, args[0]) {
            Err(f) => Err(f),
            Ok(Some(v)) => Ok(Some(nat_lit(v + 1))),
            Ok(None) => Ok(None),
        },
        NatRule::Binary(op) => nat_binary_spec(k, s, m, ctx, op, n, args[0], args[1]),
        NatRule::Overload(op, hetero) => overload_spec(k, s, m, ctx, op, hetero, args),
        NatRule::Ble => nat_test_spec(k, s, m, ctx, false, args[0], args[1]),
        NatRule::Beq => nat_test_spec(k, s, m, ctx, true, args[0], args[1]),
        NatRule::IntBinary(op) => match both(
            (s.closed_int)(m, ctx, args[0]),
            (s.closed_int)(m, ctx, args[1]),
        ) {
            Err(f) => Err(f),
            Ok(Some((x, y))) => Ok(closed_int_term(k, int_op(op, x, y))),
            Ok(None) => Ok(None),
        },
        NatRule::IntPow => match both(
            (s.closed_int)(m, ctx, args[0]),
            closed_nat(k, s, m, ctx, args[1]),
        ) {
            Err(f) => Err(f),
            Ok(Some((x, y))) => match bounded_pow(x, y) {
                Some(v) => Ok(closed_int_term(k, v)),
                None => Ok(None),
            },
            Ok(None) => Ok(None),
        },
        NatRule::IntBmod => match both(
            (s.closed_int)(m, ctx, args[0]),
            closed_nat(k, s, m, ctx, args[1]),
        ) {
            Err(f) => Err(f),
            Ok(Some((x, y))) => Ok(canonical_int(k, bmod(x, y as int))),
            Ok(None) => Ok(None),
        },
        NatRule::IntEmod => emod_spec(k, s, m, ctx, args[0], args[1]),
        NatRule::IntDecide(strict) => int_decide_spec(k, s, m, ctx, strict, args[0], args[1]),
        NatRule::Decide => match (s.whnf)(m, ctx, args[1]) {
            Err(f) => Err(f),
            Ok(inst) => match decision(k, inst) {
                Some(b) => Ok(bool_term(k, b)),
                None => Ok(None),
            },
        },
        NatRule::IntNeg => int_neg_spec(k, s, m, ctx, args[0]),
        NatRule::NatAbs => match (s.closed_int)(m, ctx, args[0]) {
            Err(f) => Err(f),
            Ok(Some(v)) => Ok(
                Some(
                    nat_lit(
                        (if v < 0 {
                            -v
                        } else {
                            v
                        }) as nat,
                    ),
                ),
            ),
            Ok(None) => Ok(None),
        },
        NatRule::Gcd => match both(
            closed_nat(k, s, m, ctx, args[0]),
            closed_nat(k, s, m, ctx, args[1]),
        ) {
            Err(f) => Err(f),
            Ok(Some((x, y))) => Ok(Some(nat_lit(gcd(x, y)))),
            Ok(None) => Ok(None),
        },
        NatRule::Neg => neg_spec(k, s, m, ctx, args[0], args[2]),
        NatRule::Cast => cast_spec(k, s, m, ctx, args[0], args[2]),
        NatRule::OfNat => of_nat_rule(k, s, m, ctx, args[0], args[1]),
        NatRule::IntBeq => match both(
            (s.closed_int)(m, ctx, args[0]),
            (s.closed_int)(m, ctx, args[1]),
        ) {
            Err(f) => Err(f),
            Ok(Some((x, y))) => Ok(bool_term(k, x == y)),
            Ok(None) => Ok(None),
        },
        NatRule::BoolAnd => bool_and_spec(k, s, m, ctx, args[0], args[1]),
    }
}

/// The arithmetic that an applied constant carries out, by its name.
#[verifier::opaque]
pub open spec fn nat_extension_spec(
    k: K,
    s: Sem,
    m: Mode,
    ctx: Seq<Term>,
    head: Term,
    args: Seq<Term>,
) -> Res<Option<Term>> {
    match head {
        Term::Const(n, _) => match rule_named(name_of(k, n)) {
            None => Ok(None),
            Some(rule) => if args.len() < rule_arity(rule) {
                Ok(None)
            } else {
                with_rest(rule_value(k, s, m, ctx, rule, n, args), args, rule_arity(rule))
            },
        },
        _ => Ok(None),
    }
}

fn named_nat_op(name: &str) -> (r: Option<NatOp>)
    ensures
        r == nat_op_named(name@),
{
    if str_same(name, "Nat.add") {
        Some(NatOp::Plus)
    } else if str_same(name, "Nat.mul") {
        Some(NatOp::Times)
    } else if str_same(name, "Nat.sub") {
        Some(NatOp::Minus)
    } else if str_same(name, "Nat.pow") {
        Some(NatOp::Pow)
    } else if str_same(name, "Nat.div") {
        Some(NatOp::Div)
    } else if str_same(name, "Nat.mod") || str_same(name, "Nat.modCore") {
        Some(NatOp::Mod)
    } else if str_same(name, "Nat.shiftLeft") {
        Some(NatOp::Shl)
    } else if str_same(name, "Nat.shiftRight") {
        Some(NatOp::Shr)
    } else if str_same(name, "Nat.land") {
        Some(NatOp::And)
    } else if str_same(name, "Nat.lor") {
        Some(NatOp::Or)
    } else if str_same(name, "Nat.xor") {
        Some(NatOp::Xor)
    } else {
        None
    }
}

fn named_hetero_op(name: &str) -> (r: Option<NatOp>)
    ensures
        r == hetero_op_named(name@),
{
    if str_same(name, "HAdd.hAdd") {
        Some(NatOp::Plus)
    } else if str_same(name, "HMul.hMul") {
        Some(NatOp::Times)
    } else if str_same(name, "HPow.hPow") {
        Some(NatOp::Pow)
    } else if str_same(name, "HSub.hSub") {
        Some(NatOp::Minus)
    } else if str_same(name, "HMod.hMod") {
        Some(NatOp::Mod)
    } else if str_same(name, "HDiv.hDiv") {
        Some(NatOp::Div)
    } else if str_same(name, "HShiftLeft.hShiftLeft") {
        Some(NatOp::Shl)
    } else if str_same(name, "HShiftRight.hShiftRight") {
        Some(NatOp::Shr)
    } else {
        None
    }
}

fn named_homo_op(name: &str) -> (r: Option<NatOp>)
    ensures
        r == homo_op_named(name@),
{
    if str_same(name, "Add.add") {
        Some(NatOp::Plus)
    } else if str_same(name, "Mul.mul") {
        Some(NatOp::Times)
    } else if str_same(name, "Pow.pow") {
        Some(NatOp::Pow)
    } else if str_same(name, "Sub.sub") {
        Some(NatOp::Minus)
    } else if str_same(name, "Mod.mod") {
        Some(NatOp::Mod)
    } else if str_same(name, "Div.div") {
        Some(NatOp::Div)
    } else if str_same(name, "ShiftLeft.shiftLeft") {
        Some(NatOp::Shl)
    } else if str_same(name, "ShiftRight.shiftRight") {
        Some(NatOp::Shr)
    } else {
        None
    }
}

fn named_int_rule(name: &str) -> (r: Option<NatRule>)
    ensures
        r == int_rule_named(name@),
{
    if str_same(name, "Int.add") {
        Some(NatRule::IntBinary(IntOp::Plus))
    } else if str_same(name, "Int.sub") {
        Some(NatRule::IntBinary(IntOp::Minus))
    } else if str_same(name, "Int.mul") {
        Some(NatRule::IntBinary(IntOp::Times))
    } else if str_same(name, "Int.ediv") || str_same(name, "Int.div") {
        Some(NatRule::IntBinary(IntOp::Div))
    } else if str_same(name, "Int.pow") {
        Some(NatRule::IntPow)
    } else if str_same(name, "Int.bmod") {
        Some(NatRule::IntBmod)
    } else if str_same(name, "Int.emod") {
        Some(NatRule::IntEmod)
    } else if str_same(name, "Int.decLe") {
        Some(NatRule::IntDecide(false))
    } else if str_same(name, "Int.decLt") {
        Some(NatRule::IntDecide(true))
    } else if str_same(name, "Decidable.decide") || str_same(name, "decide") {
        Some(NatRule::Decide)
    } else if str_same(name, "Int.neg") {
        Some(NatRule::IntNeg)
    } else if str_same(name, "Int.natAbs") {
        Some(NatRule::NatAbs)
    } else if str_same(name, "Neg.neg") {
        Some(NatRule::Neg)
    } else if str_same(name, "Nat.cast") || str_same(name, "NatCast.natCast") {
        Some(NatRule::Cast)
    } else if str_same(name, "OfNat.ofNat") {
        Some(NatRule::OfNat)
    } else if named(name, "Int.beq'") {
        Some(NatRule::IntBeq)
    } else if named(name, "Bool.and'") {
        Some(NatRule::BoolAnd)
    } else {
        None
    }
}

fn named_rule(name: &str) -> (r: Option<NatRule>)
    ensures
        r == rule_named(name@),
{
    proof {
        reveal(rule_named);
    }
    if str_same(name, "Nat.succ") {
        return Some(NatRule::Succ);
    }
    if str_same(name, "Nat.ble") {
        return Some(NatRule::Ble);
    }
    if str_same(name, "Nat.beq") {
        return Some(NatRule::Beq);
    }
    if str_same(name, "Nat.gcd") {
        return Some(NatRule::Gcd);
    }
    match named_nat_op(name) {
        Some(op) => Some(NatRule::Binary(op)),
        None => match named_hetero_op(name) {
            Some(op) => Some(NatRule::Overload(op, true)),
            None => match named_homo_op(name) {
                Some(op) => Some(NatRule::Overload(op, false)),
                None => named_int_rule(name),
            },
        },
    }
}

fn args_needed(rule: NatRule) -> (r: usize)
    ensures
        r as nat == rule_arity(rule),
{
    match rule {
        NatRule::Succ => 1,
        NatRule::IntNeg => 1,
        NatRule::NatAbs => 1,
        NatRule::Neg => 3,
        NatRule::Cast => 3,
        NatRule::OfNat => 3,
        NatRule::Overload(_, hetero) => if hetero {
            6
        } else {
            4
        },
        _ => 2,
    }
}

/// A power, where the exponent is small enough to compute it.
pub fn pow_values(x: &Natural, y: &Natural) -> (r: Option<Natural>)
    ensures
        r.deep_view() == nat_pow(x@, y@),
{
    match small_exponent(y) {
        Some(e) => Some(x.power(e)),
        None => None,
    }
}

/// A number shifted to the left, where the distance is small enough to compute
/// it.
pub fn shift_left_values(x: &Natural, y: &Natural) -> (r: Option<Natural>)
    ensures
        r.deep_view() == nat_shl(x@, y@),
{
    match small_exponent(y) {
        Some(e) => Some(x.shift_left(e)),
        None => None,
    }
}

proof fn lemma_shift_split(x: nat, a: nat, b: nat)
    ensures
        x / pow2(a + b) == (x / pow2(a)) / pow2(b),
{
    vstd::arithmetic::power2::lemma_pow2_adds(a, b);
    vstd::arithmetic::power2::lemma_pow2_pos(a);
    vstd::arithmetic::power2::lemma_pow2_pos(b);
    vstd::arithmetic::div_mod::lemma_div_denominator(x as int, pow2(a) as int, pow2(b) as int);
}

/// A number shifted to the right.
pub fn shift_right_values(x: &Natural, y: &Natural) -> (r: Natural)
    ensures
        r@ == x@ / pow2(y@),
    decreases y@,
{
    match y.to_u32() {
        Some(d) => x.shift_right(d),
        None => {
            proof {
                vstd::arithmetic::power2::lemma_pow2_pos(y@);
            }
            if x.is_zero() {
                assert(0nat / pow2(y@) == 0) by (nonlinear_arith)
                    requires
                        pow2(y@) > 0,
                ;
                return Natural::zero();
            }
            let part = x.shift_right(u32::MAX);
            let left = y.minus(&Natural::from_u64(u32::MAX as u64));
            proof {
                lemma_shift_split(x@, u32::MAX as nat, left@);
            }
            shift_right_values(&part, &left)
        },
    }
}

/// The value of an operation on two naturals.
pub fn apply_nat_op(op: NatOp, x: &Natural, y: &Natural) -> (r: Option<Natural>)
    ensures
        r.deep_view() == nat_op_value(op, x@, y@),
{
    match op {
        NatOp::Plus => Some(x.plus(y)),
        NatOp::Minus => Some(x.minus(y)),
        NatOp::Times => Some(x.times(y)),
        NatOp::Pow => pow_values(x, y),
        NatOp::Div => Some(x.quot(y)),
        NatOp::Mod => Some(x.modulo(y)),
        NatOp::Shl => shift_left_values(x, y),
        NatOp::Shr => Some(shift_right_values(x, y)),
        NatOp::And => Some(x.and(y)),
        NatOp::Or => Some(x.or(y)),
        NatOp::Xor => Some(x.xor(y)),
    }
}

fn is_large(e: &Expr) -> (r: bool)
    ensures
        r == large_literal(e@),
{
    match as_lit(e) {
        Some(v) => {
            let bits: u64 = v.bits();
            proof {
                lemma_large(v@, bits);
            }
            bits >= LARGE_BITS
        },
        None => false,
    }
}

proof fn lemma_large(n: nat, bits: u64)
    requires
        bits == 0 <==> n == 0,
        bits > 0 ==> pow2((bits - 1) as nat) <= n < pow2(bits as nat),
    ensures
        bits >= LARGE_BITS <==> n >= pow2((LARGE_BITS - 1) as nat),
{
    vstd::arithmetic::power2::lemma_pow2_pos((LARGE_BITS - 1) as nat);
    if bits > LARGE_BITS {
        vstd::arithmetic::power2::lemma_pow2_strictly_increases(
            (LARGE_BITS - 1) as nat,
            (bits - 1) as nat,
        );
    } else if bits < LARGE_BITS && bits > 0 {
        if bits < LARGE_BITS - 1 {
            vstd::arithmetic::power2::lemma_pow2_strictly_increases(
                bits as nat,
                (LARGE_BITS - 1) as nat,
            );
        }
    }
}

fn step_sum(n: u32, zero: u32, succ: u32, a: &Expr, b: &Expr) -> (r: Option<Expr>)
    ensures
        r.deep_view() == open_sum(n, zero, succ, a@, b@),
{
    if is_zero(b, zero) {
        return Some(a.clone());
    }
    if is_zero(a, zero) {
        return Some(b.clone());
    }
    if is_one(b, zero, succ) {
        return Some(app(plain_const(succ), a.clone()));
    }
    if is_large(a) || is_large(b) {
        return None;
    }
    match pred(b, succ) {
        Some(p) => Some(app(plain_const(succ), mk_app2(plain_const(n), a.clone(), p))),
        None => match pred(a, succ) {
            Some(p) => Some(app(plain_const(succ), mk_app2(plain_const(n), p, b.clone()))),
            None => None,
        },
    }
}

fn step_difference(n: u32, zero: u32, succ: u32, a: &Expr, b: &Expr) -> (r: Option<Expr>)
    ensures
        r.deep_view() == open_difference(n, zero, succ, a@, b@),
{
    if is_zero(b, zero) {
        return Some(a.clone());
    }
    if is_zero(a, zero) {
        return Some(lit_nat(Natural::zero()));
    }
    match (pred(a, succ), pred(b, succ)) {
        (Some(p), Some(q)) => Some(mk_app2(plain_const(n), p, q)),
        _ => None,
    }
}

impl<'e> Checker<'e> {
    fn step_product(&self, n: u32, zero: u32, succ: u32, a: &Expr, b: &Expr) -> (r: Option<Expr>)
        ensures
            r.deep_view() == open_product(self@, n, zero, succ, a@, b@),
    {
        if is_zero(a, zero) || is_zero(b, zero) {
            return Some(lit_nat(Natural::zero()));
        }
        if is_large(a) || is_large(b) {
            return None;
        }
        let sum = self.find_name("Nat.add")?;
        match pred(b, succ) {
            Some(p) => Some(
                mk_app2(plain_const(sum), mk_app2(plain_const(n), a.clone(), p), a.clone()),
            ),
            None => match pred(a, succ) {
                Some(p) => Some(
                    mk_app2(plain_const(sum), mk_app2(plain_const(n), p, b.clone()), b.clone()),
                ),
                None => None,
            },
        }
    }

    fn step_power(&self, n: u32, zero: u32, succ: u32, a: &Expr, b: &Expr) -> (r: Option<Expr>)
        ensures
            r.deep_view() == open_power(self@, n, zero, succ, a@, b@),
    {
        if is_zero(b, zero) {
            return Some(lit_nat(Natural::from_u64(1)));
        }
        let p = pred(b, succ)?;
        let mul = self.find_name("Nat.mul")?;
        Some(mk_app2(plain_const(mul), mk_app2(plain_const(n), a.clone(), p), a.clone()))
    }

    fn step_op(&self, op: NatOp, n: u32, a: &Expr, b: &Expr) -> (r: Option<Expr>)
        ensures
            r.deep_view() == open_op(self@, op, n, a@, b@),
    {
        let (zero, succ) = self.nat_ctors()?;
        match op {
            NatOp::Plus => step_sum(n, zero, succ, a, b),
            NatOp::Times => self.step_product(n, zero, succ, a, b),
            NatOp::Minus => step_difference(n, zero, succ, a, b),
            NatOp::Pow => self.step_power(n, zero, succ, a, b),
            _ => None,
        }
    }

    fn numbers_for(&self, op: NatOp, a: &Expr, b: &Expr) -> (r: Option<(Natural, Natural)>)
        ensures
            r.deep_view() == op_numbers(self@, op, a@, b@),
    {
        let (x, y) = match op {
            NatOp::Minus => (as_lit(a), as_lit(b)),
            _ => (self.value_of_nat(a), self.value_of_nat(b)),
        };
        match (x, y) {
            (Some(p), Some(q)) => Some((p, q)),
            _ => None,
        }
    }

    fn reduce_nat_op(&self, op: NatOp, n: u32, a: &Expr, b: &Expr) -> (r: Option<Expr>)
        ensures
            r.deep_view() == nat_op_term(self@, op, n, a@, b@),
    {
        match self.numbers_for(op, a, b) {
            Some((x, y)) => match apply_nat_op(op, &x, &y) {
                Some(v) => {
                    return Some(lit_nat(v));
                },
                None => {},
            },
            None => {},
        }
        self.step_op(op, n, a, b)
    }

    fn nat_binary(&self, g: Budget, m: Mode, ctx: &Ctx, op: NatOp, n: u32, a: &Expr, b: &Expr) -> (r:
        R<Option<Expr>>)
        ensures
            res(r) == nat_binary_spec(self@, sem_at(self@, g), m, ctx@, op, n, a@, b@),
        decreases g.total(), 2int, 0int,
    {
        let aw = self.reduce_nat_arg(g, m, ctx, a)?;
        let bw = self.reduce_nat_arg(g, m, ctx, b)?;
        Ok(self.reduce_nat_op(op, n, &aw, &bw))
    }

    fn is_on_ints(
        &self,
        g: Budget,
        m: Mode,
        ctx: &Ctx,
        op: NatOp,
        hetero: bool,
        ty: &Expr,
        args: &Vec<Expr>,
    ) -> (r: R<bool>)
        requires
            hetero ==> args.len() >= 3,
        ensures
            res(r) == on_ints(
                self@,
                sem_at(self@, g),
                m,
                ctx@,
                op,
                hetero,
                ty@,
                args.deep_view(),
            ),
        decreases g.total(), 1int, 0int,
    {
        let all = match op {
            NatOp::Plus => true,
            NatOp::Minus => true,
            NatOp::Times => true,
            NatOp::Div => true,
            NatOp::Mod => true,
            _ => false,
        };
        if hetero && all {
            let t1 = self.whnf_at(g, m, ctx, &args[1])?;
            let t2 = self.whnf_at(g, m, ctx, &args[2])?;
            return Ok(
                self.const_is(ty, "Int") && self.const_is(&t1, "Int") && self.const_is(&t2, "Int"),
            );
        }
        Ok(self.const_is(ty, "Int"))
    }

    fn name_of_overload(&self, op: NatOp, ty: &Expr, is_int: bool) -> (r: Option<&'static str>)
        ensures
            match r {
                Some(t) => overload_name(self@, op, ty@, is_int) == Some(t@),
                None => overload_name(self@, op, ty@, is_int) is None,
            },
    {
        if self.const_is(ty, "LinearCombo") {
            return match op {
                NatOp::Plus => Some("LinearCombo.add"),
                NatOp::Minus => Some("LinearCombo.sub"),
                _ => None,
            };
        }
        if is_int {
            return match op {
                NatOp::Plus => Some("Int.add"),
                NatOp::Minus => Some("Int.sub"),
                NatOp::Times => Some("Int.mul"),
                NatOp::Pow => Some("Int.pow"),
                _ => None,
            };
        }
        let is_nat = match ty.data() {
            ExprData::Const(t, _) => match self.nat_ref {
                Some(n) => n == *t,
                None => false,
            },
            _ => false,
        };
        if !is_nat {
            return None;
        }
        match op {
            NatOp::Plus => Some("Nat.add"),
            NatOp::Times => Some("Nat.mul"),
            NatOp::Pow => Some("Nat.pow"),
            NatOp::Minus => Some("Nat.sub"),
            NatOp::Mod => Some("Nat.mod"),
            NatOp::Div => Some("Nat.div"),
            NatOp::Shl => Some("Nat.shiftLeft"),
            NatOp::Shr => Some("Nat.shiftRight"),
            _ => None,
        }
    }

    /// An overloaded operation at a type it is known for.
    pub fn try_hbin_nat(
        &self,
        g: Budget,
        m: Mode,
        ctx: &Ctx,
        op: NatOp,
        hetero: bool,
        args: &Vec<Expr>,
    ) -> (r: R<Option<Expr>>)
        requires
            args.len() >= (if hetero {
                6int
            } else {
                4int
            }),
        ensures
            res(r) == overload_spec(
                self@,
                sem_at(self@, g),
                m,
                ctx@,
                op,
                hetero,
                args.deep_view(),
            ),
        decreases g.total(), 2int, 0int,
    {
        proof {
            reveal(overload_spec);
        }
        let ty = self.whnf_at(g, m, ctx, &args[0])?;
        match ty.data() {
            ExprData::Const(_, _) => {},
            _ => {
                return Ok(None);
            },
        }
        let is_int = self.is_on_ints(g, m, ctx, op, hetero, &ty, args)?;
        let lhs: usize = if hetero {
            4
        } else {
            2
        };
        match self.name_of_overload(op, &ty, is_int) {
            None => Ok(None),
            Some(text) => match self.find_name_ending(text) {
                None => Ok(None),
                Some(c) => Ok(
                    Some(mk_app2(plain_const(c), args[lhs].clone(), args[lhs + 1].clone())),
                ),
            },
        }
    }

    fn int_emod_rule(&self, g: Budget, m: Mode, ctx: &Ctx, a: &Expr, b: &Expr) -> (r: R<Option<Expr>>)
        ensures
            res(r) == emod_spec(self@, sem_at(self@, g), m, ctx@, a@, b@),
        decreases g.total(), 3int, 0int,
    {
        let x = match self.closed_int_at(g, m, ctx, a)? {
            Some(x) => x,
            None => {
                return Ok(None);
            },
        };
        match self.closed_nat_value(g, m, ctx, b)? {
            Some(n) => {
                return Ok(self.mk_int_canonical(&int_emod_nat(&x, &n)));
            },
            None => {},
        }
        match self.closed_int_at(g, m, ctx, b)? {
            Some(y) => {
                if y.is_negative() {
                    return Ok(None);
                }
                Ok(self.mk_int_canonical(&int_emod_nat(&x, &y.magnitude())))
            },
            None => Ok(None),
        }
    }

    fn int_decide_rule(
        &self,
        g: Budget,
        m: Mode,
        ctx: &Ctx,
        strict: bool,
        a: &Expr,
        b: &Expr,
    ) -> (r: R<Option<Expr>>)
        ensures
            res(r) == int_decide_spec(self@, sem_at(self@, g), m, ctx@, strict, a@, b@),
        decreases g.total(), 2int, 0int,
    {
        let aw = self.whnf_at(g, m, ctx, a)?;
        let bw = self.whnf_at(g, m, ctx, b)?;
        match self.closed_int_pair(g, m, ctx, &aw, &bw)? {
            None => Ok(None),
            Some((x, y)) => {
                let yes = if strict {
                    x.less(&y)
                } else {
                    !y.less(&x)
                };
                Ok(self.mk_decidable_bool(yes))
            },
        }
    }

    fn decide_rule(&self, g: Budget, m: Mode, ctx: &Ctx, inst: &Expr) -> (r: R<Option<Expr>>)
        ensures
            res(r) == (match (sem_at(self@, g).whnf)(m, ctx@, inst@) {
                Err(f) => Err(f),
                Ok(w) => match decision(self@, w) {
                    Some(b) => Ok(bool_term(self@, b)),
                    None => Ok(None),
                },
            }),
        decreases g.total(), 1int, 0int,
    {
        let w = self.whnf_at(g, m, ctx, inst)?;
        match app_head(&w).data() {
            ExprData::Const(n, _) => {
                let name = self.name_str(*n);
                if str_same(name, "Decidable.isTrue") || str_same(name, "isTrue") {
                    Ok(self.mk_bool_const(true))
                } else if str_same(name, "Decidable.isFalse") || str_same(name, "isFalse") {
                    Ok(self.mk_bool_const(false))
                } else {
                    Ok(None)
                }
            },
            _ => Ok(None),
        }
    }

    fn cancel_negations(&self, g: Budget, m: Mode, ctx: &Ctx, e: &Expr) -> (r: R<Option<Expr>>)
        ensures
            res(r) == double_negation(self@, sem_at(self@, g), m, ctx@, e@),
        decreases g.total(), 1int, 0int,
    {
        match self.peel_int_neg(e) {
            None => Ok(None),
            Some(inner) => {
                let w = self.whnf_at(g, m, ctx, &inner)?;
                if self.is_closed_int_numeral(&w) {
                    Ok(Some(w))
                } else {
                    Ok(None)
                }
            },
        }
    }

    fn int_neg_rule(&self, g: Budget, m: Mode, ctx: &Ctx, e: &Expr) -> (r: R<Option<Expr>>)
        ensures
            res(r) == int_neg_spec(self@, sem_at(self@, g), m, ctx@, e@),
        decreases g.total(), 2int, 0int,
    {
        match self.closed_int_at(g, m, ctx, e)? {
            Some(v) => match self.mk_int_canonical(&v.negate()) {
                Some(t) => {
                    return Ok(Some(t));
                },
                None => {},
            },
            None => {},
        }
        self.cancel_negations(g, m, ctx, e)
    }

    fn neg_rule(&self, g: Budget, m: Mode, ctx: &Ctx, ty: &Expr, e: &Expr) -> (r: R<Option<Expr>>)
        ensures
            res(r) == neg_spec(self@, sem_at(self@, g), m, ctx@, ty@, e@),
        decreases g.total(), 2int, 0int,
    {
        let t = self.whnf_at(g, m, ctx, ty)?;
        if !self.const_is(&t, "Int") {
            return Ok(None);
        }
        match self.cancel_negations(g, m, ctx, e)? {
            Some(w) => {
                return Ok(Some(w));
            },
            None => {},
        }
        match self.find_name_ending("Int.neg") {
            Some(c) => Ok(Some(app(plain_const(c), e.clone()))),
            None => Ok(None),
        }
    }

    fn cast_rule(&self, g: Budget, m: Mode, ctx: &Ctx, ty: &Expr, e: &Expr) -> (r: R<Option<Expr>>)
        ensures
            res(r) == cast_spec(self@, sem_at(self@, g), m, ctx@, ty@, e@),
        decreases g.total(), 3int, 0int,
    {
        let t = self.whnf_at(g, m, ctx, ty)?;
        if !self.const_is(&t, "Int") {
            return Ok(None);
        }
        match self.closed_nat_value(g, m, ctx, e)? {
            Some(n) => Ok(self.mk_closed_int(&Integer::from_natural(&n))),
            None => Ok(None),
        }
    }

    fn literal_rule(&self, g: Budget, m: Mode, ctx: &Ctx, ty: &Expr, e: &Expr) -> (r: R<Option<Expr>>)
        ensures
            res(r) == of_nat_rule(self@, sem_at(self@, g), m, ctx@, ty@, e@),
        decreases g.total(), 3int, 0int,
    {
        let nat_ty = match self.nat_ref {
            Some(n) => n,
            None => {
                return Ok(None);
            },
        };
        let t = self.whnf_at(g, m, ctx, ty)?;
        match of_nat_value(&t, e, nat_ty) {
            Some(v) => {
                return Ok(Some(v));
            },
            None => {},
        }
        match of_nat_value(ty, e, nat_ty) {
            Some(v) => {
                return Ok(Some(v));
            },
            None => {},
        }
        if !self.const_is(&t, "Int") {
            return Ok(None);
        }
        match self.closed_nat_value(g, m, ctx, e)? {
            Some(n) => match self.find_name_ending("Int.ofNat") {
                Some(c) => Ok(Some(app(plain_const(c), lit_nat(n)))),
                None => Ok(None),
            },
            None => Ok(None),
        }
    }

    fn bool_and_rule(&self, g: Budget, m: Mode, ctx: &Ctx, a: &Expr, b: &Expr) -> (r: R<Option<Expr>>)
        ensures
            res(r) == bool_and_spec(self@, sem_at(self@, g), m, ctx@, a@, b@),
        decreases g.total(), 1int, 0int,
    {
        let aw = self.whnf_at(g, m, ctx, a)?;
        let bw = self.whnf_at(g, m, ctx, b)?;
        match (self.bool_const_val(&aw), self.bool_const_val(&bw)) {
            (Some(x), Some(y)) => Ok(self.mk_bool_const(x && y)),
            _ => Ok(None),
        }
    }

    fn nat_test(&self, g: Budget, m: Mode, ctx: &Ctx, equal: bool, a: &Expr, b: &Expr) -> (r: R<
        Option<Expr>,
    >)
        ensures
            res(r) == nat_test_spec(self@, sem_at(self@, g), m, ctx@, equal, a@, b@),
        decreases g.total(), 4int, 0int,
    {
        match self.closed_nat_pair(g, m, ctx, a, b)? {
            None => Ok(None),
            Some((x, y)) => {
                let yes = if equal {
                    x.same(&y)
                } else {
                    !y.less(&x)
                };
                Ok(self.mk_bool_const(yes))
            },
        }
    }

    fn apply_rule(
        &self,
        g: Budget,
        m: Mode,
        ctx: &Ctx,
        rule: NatRule,
        n: u32,
        args: &Vec<Expr>,
    ) -> (r: R<Option<Expr>>)
        requires
            args.len() >= rule_arity(rule),
        ensures
            res(r) == rule_value(
                self@,
                sem_at(self@, g),
                m,
                ctx@,
                rule,
                n,
                args.deep_view(),
            ),
        decreases g.total(), 5int, 0int,
    {
        proof {
            reveal(rule_value);
        }
        match rule {
            NatRule::Succ => match self.closed_nat_value(g, m, ctx, &args[0])? {
                Some(v) => Ok(Some(lit_nat(v.plus(&Natural::from_u64(1))))),
                None => Ok(None),
            },
            NatRule::Binary(op) => self.nat_binary(g, m, ctx, op, n, &args[0], &args[1]),
            NatRule::Overload(op, hetero) => self.try_hbin_nat(g, m, ctx, op, hetero, args),
            NatRule::Ble => self.nat_test(g, m, ctx, false, &args[0], &args[1]),
            NatRule::Beq => self.nat_test(g, m, ctx, true, &args[0], &args[1]),
            NatRule::IntBinary(op) => match self.closed_int_pair(g, m, ctx, &args[0], &args[1])? {
                Some((x, y)) => Ok(self.mk_closed_int(&apply_int_op(op, &x, &y))),
                None => Ok(None),
            },
            NatRule::IntPow => match self.closed_int_nat_pair(g, m, ctx, &args[0], &args[1])? {
                Some((x, y)) => match int_pow(&x, &y) {
                    Some(v) => Ok(self.mk_closed_int(&v)),
                    None => Ok(None),
                },
                None => Ok(None),
            },
            NatRule::IntBmod => match self.closed_int_nat_pair(g, m, ctx, &args[0], &args[1])? {
                Some((x, y)) => Ok(self.mk_int_canonical(&int_bmod(&x, &y))),
                None => Ok(None),
            },
            NatRule::IntEmod => self.int_emod_rule(g, m, ctx, &args[0], &args[1]),
            NatRule::IntDecide(strict) => self.int_decide_rule(
                g,
                m,
                ctx,
                strict,
                &args[0],
                &args[1],
            ),
            NatRule::Decide => self.decide_rule(g, m, ctx, &args[1]),
            NatRule::IntNeg => self.int_neg_rule(g, m, ctx, &args[0]),
            NatRule::NatAbs => match self.closed_int_at(g, m, ctx, &args[0])? {
                Some(v) => Ok(Some(lit_nat(v.magnitude()))),
                None => Ok(None),
            },
            NatRule::Gcd => match self.closed_nat_pair(g, m, ctx, &args[0], &args[1])? {
                Some((x, y)) => Ok(Some(lit_nat(num_bigint_gcd(&x, &y)))),
                None => Ok(None),
            },
            NatRule::Neg => self.neg_rule(g, m, ctx, &args[0], &args[2]),
            NatRule::Cast => self.cast_rule(g, m, ctx, &args[0], &args[2]),
            NatRule::OfNat => self.literal_rule(g, m, ctx, &args[0], &args[1]),
            NatRule::IntBeq => match self.closed_int_pair(g, m, ctx, &args[0], &args[1])? {
                Some((x, y)) => Ok(self.mk_bool_const(x.same(&y))),
                None => Ok(None),
            },
            NatRule::BoolAnd => self.bool_and_rule(g, m, ctx, &args[0], &args[1]),
        }
    }

    /// The arithmetic that an applied constant carries out, by its name.
    pub fn try_nat_extension(&self, g: Budget, m: Mode, ctx: &Ctx, head: &Expr, args: &Vec<Expr>) -> (r:
        R<Option<Expr>>)
        ensures
            res(r) == nat_extension_spec(
                self@,
                sem_at(self@, g),
                m,
                ctx@,
                head@,
                args.deep_view(),
            ),
        decreases g.total(), 6int, 0int,
    {
        proof {
            reveal(nat_extension_spec);
        }
        assert(args.len() == args.deep_view().len());
        match head.data() {
            ExprData::Const(n, _) => match named_rule(self.name_str(*n)) {
                None => Ok(None),
                Some(rule) => {
                    let need: usize = args_needed(rule);
                    if args.len() < need {
                        return Ok(None);
                    }
                    match self.apply_rule(g, m, ctx, rule, *n, args)? {
                        Some(t) => Ok(Some(apps_from(t, args, need))),
                        None => Ok(None),
                    }
                },
            },
            _ => Ok(None),
        }
    }
}

/// An operation on two literals is the literal of the value, where it is
/// computed.
pub proof fn law_literal_arithmetic(k: K, op: NatOp, n: u32, x: nat, y: nat)
    ensures
        nat_op_value(op, x, y) matches Some(v) ==> nat_op_term(k, op, n, nat_lit(x), nat_lit(y))
            == Some(nat_lit(v)),
{
}

/// Zero is neutral for sums and absorbs products, whatever the other side is.
pub proof fn law_zero_arithmetic(k: K, n: u32, zero: u32, succ: u32, e: Term)
    ensures
        open_sum(n, zero, succ, e, nat_lit(0)) == Some(e),
        open_product(k, n, zero, succ, e, nat_lit(0)) == Some(nat_lit(0)),
        open_power(k, n, zero, succ, e, nat_lit(0)) == Some(nat_lit(1)),
{
}

} // verus!
