//! What arithmetic by name on numerals computes.

use crate::closed::{canonical_int, closed_int_term, closed_nat, decidable_term, nat_arg, IntOp};
use crate::errors::Fault;
use crate::expr::{mk_apps, LitT, Term};
use crate::ints::{gcd, law_euclidean_division, POWER_BITS};
use crate::kernel::{K, Mode, Sem};
use crate::lookup::{name_of, nat_ctors_spec};
use crate::names::{app2, find_name_ending_spec, find_name_spec, is_const_named, nat_lit, plain};
use crate::natext::{
    nat_extension_spec, nat_op_term, nat_op_value, on_ints, overload_name, overload_spec,
    rule_named, rule_value, NatOp, NatRule,
};
use crate::num::{bit_and, bit_or, bit_xor};
use crate::numeral::numeral_spec;
use crate::typing::reduces;
use vstd::arithmetic::div_mod::{lemma_div_denominator, lemma_fundamental_div_mod};
use vstd::arithmetic::power::pow;
use vstd::arithmetic::power2::{lemma_pow2_pos, lemma_pow2_unfold, pow2};
use vstd::prelude::*;

verus! {

/// The binary digit of a number at a position, the last one first.
pub open spec fn digit(x: nat, i: nat) -> bool {
    (x / pow2(i)) % 2 == 1
}

proof fn lemma_digit(x: nat, i: nat)
    ensures
        i == 0 ==> digit(x, i) == (x % 2 == 1),
        i > 0 ==> digit(x, i) == digit(x / 2, (i - 1) as nat),
{
    if i == 0 {
        vstd::arithmetic::power2::lemma2_to64();
    } else {
        let j = (i - 1) as nat;
        lemma_pow2_unfold(i);
        lemma_pow2_pos(j);
        lemma_div_denominator(x as int, 2, pow2(j) as int);
    }
}

/// The digits of bitwise conjunctions and disjunctions are those of the digits.
pub proof fn law_binary_digits(x: nat, y: nat, i: nat)
    ensures
        digit(bit_and(x, y), i) == (digit(x, i) && digit(y, i)),
        digit(bit_or(x, y), i) == (digit(x, i) || digit(y, i)),
        digit(bit_xor(x, y), i) == (digit(x, i) != digit(y, i)),
    decreases i,
{
    lemma_digit(x, i);
    lemma_digit(y, i);
    lemma_digit(bit_and(x, y), i);
    lemma_digit(bit_or(x, y), i);
    lemma_digit(bit_xor(x, y), i);
    assert(bit_and(0, (y / 2) as nat) == 0);
    assert(bit_or(0, 0) == 0);
    assert(bit_xor(0, 0) == 0);
    if i > 0 {
        law_binary_digits(x / 2, y / 2, (i - 1) as nat);
    }
}

/// What it is for a number to be the result of an operation on two others.
pub open spec fn is_result(op: NatOp, x: nat, y: nat, v: nat) -> bool {
    match op {
        NatOp::Plus => v == x + y,
        NatOp::Minus => if x >= y {
            v + y == x
        } else {
            v == 0
        },
        NatOp::Times => v == x * y,
        NatOp::Pow => v as int == pow(x as int, y),
        NatOp::Div => if y == 0 {
            v == 0
        } else {
            v * y <= x < v * y + y
        },
        NatOp::Mod => if y == 0 {
            v == x
        } else {
            v < y && exists|q: nat| #[trigger] (q * y) + v == x
        },
        NatOp::Shl => v == x * pow2(y),
        NatOp::Shr => v * pow2(y) <= x < v * pow2(y) + pow2(y),
        NatOp::And => forall|i: nat| #[trigger] digit(v, i) == (digit(x, i) && digit(y, i)),
        NatOp::Or => forall|i: nat| #[trigger] digit(v, i) == (digit(x, i) || digit(y, i)),
        NatOp::Xor => forall|i: nat| #[trigger] digit(v, i) == (digit(x, i) != digit(y, i)),
    }
}

proof fn lemma_pow_nonnegative(x: nat, y: nat)
    ensures
        pow(x as int, y) >= 0,
    decreases y,
{
    reveal(pow);
    if y > 0 {
        lemma_pow_nonnegative(x, (y - 1) as nat);
        let p = pow(x as int, (y - 1) as nat);
        assert(x * p >= 0) by (nonlinear_arith)
            requires
                p >= 0,
        ;
    }
}

/// An operation on numbers gives its result, and it gives one but for powers and
/// shifts whose exponent has too many digits.
pub proof fn law_result(op: NatOp, x: nat, y: nat)
    ensures
        nat_op_value(op, x, y) matches Some(v) ==> is_result(op, x, y, v),
        nat_op_value(op, x, y) is None <==> (op == NatOp::Pow || op == NatOp::Shl) && y >= pow2(
            POWER_BITS as nat,
        ),
{
    match nat_op_value(op, x, y) {
        None => {},
        Some(v) => {
            if (op == NatOp::Div || op == NatOp::Mod) && y > 0 {
                lemma_fundamental_div_mod(x as int, y as int);
                let q = x / y;
                assert(y * q == q * y) by (nonlinear_arith);
                assert((q * y) + x % y == x);
            }
            if op == NatOp::Pow {
                lemma_pow_nonnegative(x, y);
            }
            if op == NatOp::Shr {
                let d = pow2(y);
                lemma_pow2_pos(y);
                lemma_fundamental_div_mod(x as int, d as int);
                assert(d * v == v * d) by (nonlinear_arith);
            }
            assert forall|i: nat| op == NatOp::And implies #[trigger] digit(v, i) == (digit(x, i)
                && digit(y, i)) by {
                law_binary_digits(x, y, i);
            }
            assert forall|i: nat| op == NatOp::Or implies #[trigger] digit(v, i) == (digit(x, i)
                || digit(y, i)) by {
                law_binary_digits(x, y, i);
            }
            assert forall|i: nat| op == NatOp::Xor implies #[trigger] digit(v, i) == (digit(x, i)
                != digit(y, i)) by {
                law_binary_digits(x, y, i);
            }
        },
    }
}

/// The constants by which terms on naturals are read.
pub struct Reading {
    pub zero: u32,
    pub succ: u32,
    pub sum: u32,
    pub difference: u32,
    pub product: u32,
    pub power: u32,
}

/// The number that a term on naturals is, given what its unknown parts are.
pub open spec fn worth(r: Reading, e: Term, rho: spec_fn(Term) -> nat) -> nat
    decreases e,
{
    match e {
        Term::Lit(LitT::Nat(n)) => n,
        Term::Const(c, _) => if c == r.zero {
            0
        } else {
            rho(e)
        },
        Term::App(f, b) => match *f {
            Term::Const(c, _) => if c == r.succ {
                worth(r, *b, rho) + 1
            } else {
                rho(e)
            },
            Term::App(g, a) => match *g {
                Term::Const(c, _) => {
                    let x = worth(r, *a, rho);
                    let y = worth(r, *b, rho);
                    if c == r.sum {
                        x + y
                    } else if c == r.difference {
                        (if x >= y {
                            x - y
                        } else {
                            0
                        }) as nat
                    } else if c == r.product {
                        x * y
                    } else if c == r.power {
                        pow(x as int, y) as nat
                    } else {
                        rho(e)
                    }
                },
                _ => rho(e),
            },
            _ => rho(e),
        },
        _ => rho(e),
    }
}

/// The constants are those of the environment, and no two operations share one.
pub open spec fn reads(k: K, r: Reading) -> bool {
    &&& nat_ctors_spec(k) == Some((r.zero, r.succ))
    &&& find_name_spec(k, "Nat.add"@) == Some(r.sum)
    &&& find_name_spec(k, "Nat.mul"@) == Some(r.product)
    &&& r.sum != r.difference && r.sum != r.product && r.sum != r.power
    &&& r.difference != r.product && r.difference != r.power && r.product != r.power
}

/// The operation that the constant is.
pub open spec fn is_op(r: Reading, op: NatOp, n: u32) -> bool {
    match op {
        NatOp::Plus => n == r.sum,
        NatOp::Minus => n == r.difference,
        NatOp::Times => n == r.product,
        NatOp::Pow => n == r.power,
        _ => true,
    }
}

proof fn lemma_numeral_worth(r: Reading, e: Term, rho: spec_fn(Term) -> nat)
    ensures
        numeral_spec(e, r.zero, r.succ) matches Some(v) ==> worth(r, e, rho) == v,
    decreases e,
{
    match e {
        Term::App(f, a) => match *f {
            Term::Const(c, _) => if c == r.succ {
                lemma_numeral_worth(r, *a, rho);
            },
            _ => {},
        },
        _ => {},
    }
}

/// A step of arithmetic keeps the number, whatever the unknown parts are.
pub proof fn law_arithmetic_step(
    k: K,
    r: Reading,
    op: NatOp,
    n: u32,
    a: Term,
    b: Term,
    t: Term,
    rho: spec_fn(Term) -> nat,
)
    requires
        reads(k, r),
        is_op(r, op, n),
        nat_op_term(k, op, n, a, b) == Some(t),
    ensures
        is_result(op, worth(r, a, rho), worth(r, b, rho), worth(r, t, rho)),
{
    reveal_with_fuel(worth, 4);
    lemma_numeral_worth(r, a, rho);
    lemma_numeral_worth(r, b, rho);
    let x = worth(r, a, rho);
    let y = worth(r, b, rho);
    law_result(op, x, y);
    lemma_pow_nonnegative(x, y);
    if op == NatOp::Pow {
        reveal(pow);
        if y > 0 {
            let p = (y - 1) as nat;
            lemma_pow_nonnegative(x, p);
            assert(pow(x as int, y) == x * pow(x as int, p));
            assert(pow(x as int, p) * x == x * pow(x as int, p)) by (nonlinear_arith);
        }
    }
    if op == NatOp::Times {
        assert(y > 0 ==> x * (y - 1) + x == x * y) by (nonlinear_arith);
        assert(x > 0 ==> (x - 1) * y + y == x * y) by (nonlinear_arith);
        assert(x == 0 || y == 0 ==> x * y == 0) by (nonlinear_arith);
    }
}

/// The names of the operations on naturals.
pub open spec fn natural_name(op: NatOp) -> Seq<char> {
    match op {
        NatOp::Plus => "Nat.add"@,
        NatOp::Minus => "Nat.sub"@,
        NatOp::Times => "Nat.mul"@,
        NatOp::Pow => "Nat.pow"@,
        NatOp::Div => "Nat.div"@,
        NatOp::Mod => "Nat.mod"@,
        NatOp::Shl => "Nat.shiftLeft"@,
        NatOp::Shr => "Nat.shiftRight"@,
        NatOp::And => "Nat.land"@,
        NatOp::Or => "Nat.lor"@,
        NatOp::Xor => "Nat.xor"@,
    }
}

proof fn lemma_natural_names(op: NatOp)
    ensures
        rule_named(natural_name(op)) == Some(NatRule::Binary(op)),
        rule_named("Nat.succ"@) == Some(NatRule::Succ),
        rule_named("Nat.ble"@) == Some(NatRule::Ble),
        rule_named("Nat.beq"@) == Some(NatRule::Beq),
        rule_named("Nat.gcd"@) == Some(NatRule::Gcd),
{
    reveal(rule_named);
    reveal_strlit("Nat.add");
    reveal_strlit("Nat.sub");
    reveal_strlit("Nat.mul");
    reveal_strlit("Nat.pow");
    reveal_strlit("Nat.div");
    reveal_strlit("Nat.mod");
    reveal_strlit("Nat.modCore");
    reveal_strlit("Nat.shiftLeft");
    reveal_strlit("Nat.shiftRight");
    reveal_strlit("Nat.land");
    reveal_strlit("Nat.lor");
    reveal_strlit("Nat.xor");
    reveal_strlit("Nat.succ");
    reveal_strlit("Nat.ble");
    reveal_strlit("Nat.beq");
    reveal_strlit("Nat.gcd");
    let name = natural_name(op);
    assert(name[4] == name[4] && name[5] == name[5]);
    assert("Nat.add"@[4] == 'a' && "Nat.add"@[5] == 'd');
    assert("Nat.sub"@[4] == 's' && "Nat.sub"@[5] == 'u');
    assert("Nat.mul"@[4] == 'm' && "Nat.mul"@[5] == 'u');
    assert("Nat.pow"@[4] == 'p' && "Nat.pow"@[5] == 'o');
    assert("Nat.div"@[4] == 'd' && "Nat.div"@[5] == 'i');
    assert("Nat.mod"@[4] == 'm' && "Nat.mod"@[5] == 'o');
    assert("Nat.land"@[4] == 'l' && "Nat.land"@[5] == 'a');
    assert("Nat.lor"@[4] == 'l' && "Nat.lor"@[5] == 'o');
    assert("Nat.xor"@[4] == 'x');
    assert("Nat.succ"@[4] == 's');
    assert("Nat.ble"@[4] == 'b' && "Nat.ble"@[5] == 'l');
    assert("Nat.beq"@[4] == 'b' && "Nat.beq"@[5] == 'e');
    assert("Nat.gcd"@[4] == 'g');
}

/// A named operation on two naturals, with whatever arguments stand behind them:
/// the literal of its result. A difference goes by literals; the other operations
/// by numerals too.
pub proof fn law_natural_arithmetic(
    k: K,
    s: Sem,
    m: Mode,
    ctx: Seq<Term>,
    c: u32,
    head: Term,
    args: Seq<Term>,
    op: NatOp,
    x: nat,
    y: nat,
)
    requires
        head matches Term::Const(n, _) && n == c,
        name_of(k, c) == natural_name(op),
        args.len() >= 2,
        closed_nat(k, s, m, ctx, args[0]) == Ok::<Option<nat>, Fault>(Some(x)),
        closed_nat(k, s, m, ctx, args[1]) == Ok::<Option<nat>, Fault>(Some(y)),
        op == NatOp::Minus ==> nat_arg(s, m, ctx, args[0]) == Ok::<Term, Fault>(nat_lit(x))
            && nat_arg(s, m, ctx, args[1]) == Ok::<Term, Fault>(nat_lit(y)),
        (op == NatOp::Pow || op == NatOp::Shl) ==> y < pow2(POWER_BITS as nat),
    ensures
        exists|v: nat| #[trigger]
            is_result(op, x, y, v) && nat_extension_spec(k, s, m, ctx, head, args) == Ok::<
                Option<Term>,
                Fault,
            >(Some(mk_apps(nat_lit(v), args.skip(2)))),
{
    reveal(nat_extension_spec);
    reveal(rule_value);
    lemma_natural_names(op);
    law_result(op, x, y);
    let v = nat_op_value(op, x, y).unwrap();
    assert(is_result(op, x, y, v));
}

/// Successors, comparisons and common divisors of naturals.
pub proof fn law_natural_tests(
    k: K,
    s: Sem,
    m: Mode,
    ctx: Seq<Term>,
    c: u32,
    head: Term,
    args: Seq<Term>,
    x: nat,
    y: nat,
)
    requires
        head matches Term::Const(n, _) && n == c,
        args.len() >= 1,
        closed_nat(k, s, m, ctx, args[0]) == Ok::<Option<nat>, Fault>(Some(x)),
        args.len() >= 2 ==> closed_nat(k, s, m, ctx, args[1]) == Ok::<Option<nat>, Fault>(Some(y)),
    ensures
        ({
            let r = nat_extension_spec(k, s, m, ctx, head, args);
            &&& name_of(k, c) == "Nat.succ"@ ==> r == Ok::<Option<Term>, Fault>(
                Some(mk_apps(nat_lit(x + 1), args.skip(1))),
            )
            &&& name_of(k, c) == "Nat.ble"@ && args.len() >= 2 ==> is_truth(
                k,
                x <= y,
                args.skip(2),
                r,
            )
            &&& name_of(k, c) == "Nat.beq"@ && args.len() >= 2 ==> is_truth(
                k,
                x == y,
                args.skip(2),
                r,
            )
            &&& name_of(k, c) == "Nat.gcd"@ && args.len() >= 2 ==> r == Ok::<Option<Term>, Fault>(
                Some(mk_apps(nat_lit(gcd(x, y)), args.skip(2))),
            )
        }),
{
    reveal(nat_extension_spec);
    reveal(rule_value);
    lemma_natural_names(NatOp::Plus);
}

/// The outcome is the truth value's constructor, applied to what is left, where the
/// environment has it, and nothing else.
pub open spec fn is_truth(
    k: K,
    b: bool,
    rest: Seq<Term>,
    r: Result<Option<Term>, Fault>,
) -> bool {
    let yes = find_name_spec(k, "Bool.true"@);
    let no = find_name_spec(k, "Bool.false"@);
    &&& b ==> r == Ok::<Option<Term>, Fault>(
        match yes {
            Some(c) => Some(mk_apps(plain(c), rest)),
            None => None,
        },
    )
    &&& !b ==> r == Ok::<Option<Term>, Fault>(
        match no {
            Some(c) => Some(mk_apps(plain(c), rest)),
            None => None,
        },
    )
}

proof fn lemma_integer_names()
    ensures
        rule_named("Int.add"@) == Some(NatRule::IntBinary(IntOp::Plus)),
        rule_named("Int.sub"@) == Some(NatRule::IntBinary(IntOp::Minus)),
        rule_named("Int.mul"@) == Some(NatRule::IntBinary(IntOp::Times)),
        rule_named("Int.ediv"@) == Some(NatRule::IntBinary(IntOp::Div)),
        rule_named("Int.div"@) == Some(NatRule::IntBinary(IntOp::Div)),
        rule_named("Int.pow"@) == Some(NatRule::IntPow),
        rule_named("Int.bmod"@) == Some(NatRule::IntBmod),
        rule_named("Int.emod"@) == Some(NatRule::IntEmod),
        rule_named("Int.decLe"@) == Some(NatRule::IntDecide(false)),
        rule_named("Int.decLt"@) == Some(NatRule::IntDecide(true)),
        rule_named("Int.neg"@) == Some(NatRule::IntNeg),
        rule_named("Int.natAbs"@) == Some(NatRule::NatAbs),
{
    reveal(rule_named);
    reveal_strlit("Nat.add");
    reveal_strlit("Nat.sub");
    reveal_strlit("Nat.mul");
    reveal_strlit("Nat.pow");
    reveal_strlit("Nat.div");
    reveal_strlit("Nat.mod");
    reveal_strlit("Nat.modCore");
    reveal_strlit("Nat.shiftLeft");
    reveal_strlit("Nat.shiftRight");
    reveal_strlit("Nat.land");
    reveal_strlit("Nat.lor");
    reveal_strlit("Nat.xor");
    reveal_strlit("Nat.succ");
    reveal_strlit("Nat.ble");
    reveal_strlit("Nat.beq");
    reveal_strlit("Nat.gcd");
    reveal_strlit("HAdd.hAdd");
    reveal_strlit("HMul.hMul");
    reveal_strlit("HPow.hPow");
    reveal_strlit("HSub.hSub");
    reveal_strlit("HMod.hMod");
    reveal_strlit("HDiv.hDiv");
    reveal_strlit("HShiftLeft.hShiftLeft");
    reveal_strlit("HShiftRight.hShiftRight");
    reveal_strlit("Add.add");
    reveal_strlit("Mul.mul");
    reveal_strlit("Pow.pow");
    reveal_strlit("Sub.sub");
    reveal_strlit("Mod.mod");
    reveal_strlit("Div.div");
    reveal_strlit("ShiftLeft.shiftLeft");
    reveal_strlit("ShiftRight.shiftRight");
    reveal_strlit("Int.add");
    reveal_strlit("Int.sub");
    reveal_strlit("Int.mul");
    reveal_strlit("Int.ediv");
    reveal_strlit("Int.div");
    reveal_strlit("Int.pow");
    reveal_strlit("Int.bmod");
    reveal_strlit("Int.emod");
    reveal_strlit("Int.decLe");
    reveal_strlit("Int.decLt");
    reveal_strlit("Int.neg");
    reveal_strlit("Int.natAbs");
    reveal_strlit("Decidable.decide");
    reveal_strlit("decide");
    assert("Nat.add"@[0] == 'N');
    assert("Nat.sub"@[0] == 'N');
    assert("Nat.mul"@[0] == 'N');
    assert("Nat.pow"@[0] == 'N');
    assert("Nat.div"@[0] == 'N');
    assert("Nat.mod"@[0] == 'N');
    assert("Nat.modCore"@[0] == 'N');
    assert("Nat.shiftLeft"@[0] == 'N');
    assert("Nat.shiftRight"@[0] == 'N');
    assert("Nat.land"@[0] == 'N');
    assert("Nat.lor"@[0] == 'N');
    assert("Nat.xor"@[0] == 'N');
    assert("Nat.succ"@[0] == 'N');
    assert("Nat.ble"@[0] == 'N');
    assert("Nat.beq"@[0] == 'N');
    assert("Nat.gcd"@[0] == 'N');
    assert("HAdd.hAdd"@[0] == 'H');
    assert("HMul.hMul"@[0] == 'H');
    assert("HPow.hPow"@[0] == 'H');
    assert("HSub.hSub"@[0] == 'H');
    assert("HMod.hMod"@[0] == 'H');
    assert("HDiv.hDiv"@[0] == 'H');
    assert("HShiftLeft.hShiftLeft"@[0] == 'H');
    assert("HShiftRight.hShiftRight"@[0] == 'H');
    assert("Add.add"@[0] == 'A');
    assert("Mul.mul"@[0] == 'M');
    assert("Pow.pow"@[0] == 'P');
    assert("Sub.sub"@[0] == 'S');
    assert("Mod.mod"@[0] == 'M');
    assert("Div.div"@[0] == 'D');
    assert("ShiftLeft.shiftLeft"@[0] == 'S');
    assert("ShiftRight.shiftRight"@[0] == 'S');
    assert("Int.add"@[0] == 'I' && "Int.add"@[4] == 'a' && "Int.add"@[5] == 'd');
    assert("Int.sub"@[0] == 'I' && "Int.sub"@[4] == 's' && "Int.sub"@[5] == 'u');
    assert("Int.mul"@[0] == 'I' && "Int.mul"@[4] == 'm' && "Int.mul"@[5] == 'u');
    assert("Int.ediv"@[0] == 'I' && "Int.ediv"@[4] == 'e' && "Int.ediv"@[5] == 'd');
    assert("Int.div"@[0] == 'I' && "Int.div"@[4] == 'd' && "Int.div"@[5] == 'i');
    assert("Int.pow"@[0] == 'I' && "Int.pow"@[4] == 'p' && "Int.pow"@[5] == 'o');
    assert("Int.bmod"@[0] == 'I' && "Int.bmod"@[4] == 'b' && "Int.bmod"@[5] == 'm');
    assert("Int.emod"@[0] == 'I' && "Int.emod"@[4] == 'e' && "Int.emod"@[5] == 'm');
    assert("Int.decLe"@[0] == 'I' && "Int.decLe"@[4] == 'd' && "Int.decLe"@[5] == 'e' && "Int.decLe"@[8] == 'e');
    assert("Int.decLt"@[0] == 'I' && "Int.decLt"@[4] == 'd' && "Int.decLt"@[5] == 'e' && "Int.decLt"@[8] == 't');
    assert("Int.neg"@[0] == 'I' && "Int.neg"@[4] == 'n' && "Int.neg"@[5] == 'e');
    assert("Int.natAbs"@[0] == 'I' && "Int.natAbs"@[4] == 'n' && "Int.natAbs"@[5] == 'a' && "Int.natAbs"@[8] == 'b');
    assert("Decidable.decide"@[0] == 'D');
    assert("decide"@[0] == 'd');
}

/// The names of the operations that are overloaded between any types.
pub open spec fn mixed_name(op: NatOp) -> Option<Seq<char>> {
    match op {
        NatOp::Plus => Some("HAdd.hAdd"@),
        NatOp::Minus => Some("HSub.hSub"@),
        NatOp::Times => Some("HMul.hMul"@),
        NatOp::Pow => Some("HPow.hPow"@),
        NatOp::Div => Some("HDiv.hDiv"@),
        NatOp::Mod => Some("HMod.hMod"@),
        NatOp::Shl => Some("HShiftLeft.hShiftLeft"@),
        NatOp::Shr => Some("HShiftRight.hShiftRight"@),
        _ => None,
    }
}

/// The names of the operations that are overloaded on one type.
pub open spec fn single_name(op: NatOp) -> Option<Seq<char>> {
    match op {
        NatOp::Plus => Some("Add.add"@),
        NatOp::Minus => Some("Sub.sub"@),
        NatOp::Times => Some("Mul.mul"@),
        NatOp::Pow => Some("Pow.pow"@),
        NatOp::Div => Some("Div.div"@),
        NatOp::Mod => Some("Mod.mod"@),
        NatOp::Shl => Some("ShiftLeft.shiftLeft"@),
        NatOp::Shr => Some("ShiftRight.shiftRight"@),
        _ => None,
    }
}

proof fn lemma_overloaded_names(op: NatOp)
    ensures
        mixed_name(op) matches Some(name) ==> rule_named(name) == Some(
            NatRule::Overload(op, true),
        ),
        single_name(op) matches Some(name) ==> rule_named(name) == Some(
            NatRule::Overload(op, false),
        ),
{
    reveal(rule_named);
    reveal_strlit("Nat.add");
    reveal_strlit("Nat.sub");
    reveal_strlit("Nat.mul");
    reveal_strlit("Nat.pow");
    reveal_strlit("Nat.div");
    reveal_strlit("Nat.mod");
    reveal_strlit("Nat.modCore");
    reveal_strlit("Nat.shiftLeft");
    reveal_strlit("Nat.shiftRight");
    reveal_strlit("Nat.land");
    reveal_strlit("Nat.lor");
    reveal_strlit("Nat.xor");
    reveal_strlit("Nat.succ");
    reveal_strlit("Nat.ble");
    reveal_strlit("Nat.beq");
    reveal_strlit("Nat.gcd");
    reveal_strlit("HAdd.hAdd");
    reveal_strlit("HMul.hMul");
    reveal_strlit("HPow.hPow");
    reveal_strlit("HSub.hSub");
    reveal_strlit("HMod.hMod");
    reveal_strlit("HDiv.hDiv");
    reveal_strlit("HShiftLeft.hShiftLeft");
    reveal_strlit("HShiftRight.hShiftRight");
    reveal_strlit("Add.add");
    reveal_strlit("Mul.mul");
    reveal_strlit("Pow.pow");
    reveal_strlit("Sub.sub");
    reveal_strlit("Mod.mod");
    reveal_strlit("Div.div");
    reveal_strlit("ShiftLeft.shiftLeft");
    reveal_strlit("ShiftRight.shiftRight");
    assert("Nat.add"@[0] == 'N');
    assert("Nat.sub"@[0] == 'N');
    assert("Nat.mul"@[0] == 'N');
    assert("Nat.pow"@[0] == 'N');
    assert("Nat.div"@[0] == 'N');
    assert("Nat.mod"@[0] == 'N');
    assert("Nat.modCore"@[0] == 'N');
    assert("Nat.shiftLeft"@[0] == 'N');
    assert("Nat.shiftRight"@[0] == 'N');
    assert("Nat.land"@[0] == 'N');
    assert("Nat.lor"@[0] == 'N');
    assert("Nat.xor"@[0] == 'N');
    assert("Nat.succ"@[0] == 'N');
    assert("Nat.ble"@[0] == 'N');
    assert("Nat.beq"@[0] == 'N');
    assert("Nat.gcd"@[0] == 'N');
    assert("HAdd.hAdd"@[0] == 'H' && "HAdd.hAdd"@[1] == 'A' && "HAdd.hAdd"@[2] == 'd');
    assert("HMul.hMul"@[0] == 'H' && "HMul.hMul"@[1] == 'M' && "HMul.hMul"@[2] == 'u');
    assert("HPow.hPow"@[0] == 'H' && "HPow.hPow"@[1] == 'P' && "HPow.hPow"@[2] == 'o');
    assert("HSub.hSub"@[0] == 'H' && "HSub.hSub"@[1] == 'S' && "HSub.hSub"@[2] == 'u');
    assert("HMod.hMod"@[0] == 'H' && "HMod.hMod"@[1] == 'M' && "HMod.hMod"@[2] == 'o');
    assert("HDiv.hDiv"@[0] == 'H' && "HDiv.hDiv"@[1] == 'D' && "HDiv.hDiv"@[2] == 'i');
    assert("HShiftLeft.hShiftLeft"@[0] == 'H' && "HShiftLeft.hShiftLeft"@[1] == 'S' && "HShiftLeft.hShiftLeft"@[2] == 'h');
    assert("HShiftRight.hShiftRight"@[0] == 'H' && "HShiftRight.hShiftRight"@[1] == 'S' && "HShiftRight.hShiftRight"@[2] == 'h');
    assert("Add.add"@[0] == 'A' && "Add.add"@[1] == 'd');
    assert("Mul.mul"@[0] == 'M' && "Mul.mul"@[1] == 'u');
    assert("Pow.pow"@[0] == 'P' && "Pow.pow"@[1] == 'o');
    assert("Sub.sub"@[0] == 'S' && "Sub.sub"@[1] == 'u');
    assert("Mod.mod"@[0] == 'M' && "Mod.mod"@[1] == 'o');
    assert("Div.div"@[0] == 'D' && "Div.div"@[1] == 'i');
    assert("ShiftLeft.shiftLeft"@[0] == 'S' && "ShiftLeft.shiftLeft"@[1] == 'h');
    assert("ShiftRight.shiftRight"@[0] == 'S' && "ShiftRight.shiftRight"@[1] == 'h');
}

/// What it is for an integer to be a quotient rounded so that the remainder is not
/// negative; a quotient by zero is zero.
pub open spec fn is_quotient(x: int, y: int, v: int) -> bool {
    if y == 0 {
        v == 0
    } else {
        exists|rest: int| #[trigger] leaves(x, y, v, rest)
    }
}

/// The remainder is what the quotient leaves of the number.
pub open spec fn leaves(x: int, y: int, v: int, rest: int) -> bool {
    v * y + rest == x && 0 <= rest && (rest < y || rest < -y)
}

/// The outcome is the term for the integer, applied to what is left, where the
/// environment has what it takes.
pub open spec fn is_integer(w: Option<Term>, rest: Seq<Term>, r: Result<Option<Term>, Fault>) -> bool {
    r == Ok::<Option<Term>, Fault>(
        match w {
            Some(t) => Some(mk_apps(t, rest)),
            None => None,
        },
    )
}

/// Named operations on two integers, with whatever arguments stand behind them:
/// sums, differences, products and quotients.
pub proof fn law_integer_arithmetic(
    k: K,
    s: Sem,
    m: Mode,
    ctx: Seq<Term>,
    c: u32,
    head: Term,
    args: Seq<Term>,
    x: int,
    y: int,
)
    requires
        head matches Term::Const(n, _) && n == c,
        args.len() >= 2,
        (s.closed_int)(m, ctx, args[0]) == Ok::<Option<int>, Fault>(Some(x)),
        (s.closed_int)(m, ctx, args[1]) == Ok::<Option<int>, Fault>(Some(y)),
    ensures
        ({
            let r = nat_extension_spec(k, s, m, ctx, head, args);
            let rest = args.skip(2);
            &&& name_of(k, c) == "Int.add"@ ==> is_integer(closed_int_term(k, x + y), rest, r)
            &&& name_of(k, c) == "Int.sub"@ ==> is_integer(closed_int_term(k, x - y), rest, r)
            &&& name_of(k, c) == "Int.mul"@ ==> is_integer(closed_int_term(k, x * y), rest, r)
            &&& name_of(k, c) == "Int.div"@ || name_of(k, c) == "Int.ediv"@ ==> exists|v: int|
                #[trigger] is_quotient(x, y, v) && is_integer(closed_int_term(k, v), rest, r)
        }),
{
    reveal(nat_extension_spec);
    reveal(rule_value);
    lemma_integer_names();
    law_euclidean_division(x, y);
    let v = crate::ints::ediv(x, y);
    assert(y != 0 ==> leaves(x, y, v, crate::ints::emod(x, y))) by {
        if y != 0 {
            lemma_fundamental_div_mod(x, y);
            assert(y * v == v * y) by (nonlinear_arith);
        }
    }
    assert(is_quotient(x, y, v));
}

/// Powers and remainders of an integer by a natural.
pub proof fn law_integer_remainders(
    k: K,
    s: Sem,
    m: Mode,
    ctx: Seq<Term>,
    c: u32,
    head: Term,
    args: Seq<Term>,
    x: int,
    y: nat,
)
    requires
        head matches Term::Const(n, _) && n == c,
        args.len() >= 2,
        (s.closed_int)(m, ctx, args[0]) == Ok::<Option<int>, Fault>(Some(x)),
        closed_nat(k, s, m, ctx, args[1]) == Ok::<Option<nat>, Fault>(Some(y)),
    ensures
        ({
            let r = nat_extension_spec(k, s, m, ctx, head, args);
            let rest = args.skip(2);
            &&& name_of(k, c) == "Int.pow"@ && y < pow2(POWER_BITS as nat) ==> is_integer(
                closed_int_term(k, pow(x, y)),
                rest,
                r,
            )
            &&& name_of(k, c) == "Int.emod"@ && y > 0 ==> exists|q: int, v: int| #[trigger]
                leaves(x, y as int, q, v) && is_integer(canonical_int(k, v), rest, r)
            &&& name_of(k, c) == "Int.emod"@ && y == 0 ==> is_integer(canonical_int(k, x), rest, r)
            &&& name_of(k, c) == "Int.bmod"@ && y > 0 ==> exists|q: int, v: int| #[trigger]
                balances(x, y as int, q, v) && is_integer(canonical_int(k, v), rest, r)
        }),
{
    reveal(nat_extension_spec);
    reveal(rule_value);
    lemma_integer_names();
    let d = y as int;
    if y > 0 {
        lemma_fundamental_div_mod(x, d);
        let q = x / d;
        assert(d * q == q * d) by (nonlinear_arith);
        assert(leaves(x, d, q, x % d));
        assert((q + 1) * d == q * d + d) by (nonlinear_arith);
        let v = crate::ints::bmod(x, d);
        if v == x % d {
            assert(balances(x, d, q, v));
        } else {
            assert(balances(x, d, q + 1, v));
        }
    }
}

/// The remainder is what a multiple leaves of the number, and lies around zero.
pub open spec fn balances(x: int, y: int, q: int, v: int) -> bool {
    q * y + v == x && -y <= 2 * v < y
}

/// Magnitudes, negatives and decisions of order of integers.
pub proof fn law_integer_tests(
    k: K,
    s: Sem,
    m: Mode,
    ctx: Seq<Term>,
    c: u32,
    head: Term,
    args: Seq<Term>,
    x: int,
    y: int,
    a: Term,
    b: Term,
)
    requires
        head matches Term::Const(n, _) && n == c,
        args.len() >= 1,
        (s.closed_int)(m, ctx, args[0]) == Ok::<Option<int>, Fault>(Some(x)),
        args.len() >= 2 ==> reduces(s, m, ctx, args[0], a) && reduces(s, m, ctx, args[1], b)
            && (s.closed_int)(m, ctx, a) == Ok::<Option<int>, Fault>(Some(x)) && (s.closed_int)(
            m,
            ctx,
            b,
        ) == Ok::<Option<int>, Fault>(Some(y)),
    ensures
        ({
            let r = nat_extension_spec(k, s, m, ctx, head, args);
            &&& name_of(k, c) == "Int.natAbs"@ && x >= 0 ==> r == Ok::<Option<Term>, Fault>(
                Some(mk_apps(nat_lit(x as nat), args.skip(1))),
            )
            &&& name_of(k, c) == "Int.natAbs"@ && x < 0 ==> r == Ok::<Option<Term>, Fault>(
                Some(mk_apps(nat_lit((-x) as nat), args.skip(1))),
            )
            &&& name_of(k, c) == "Int.neg"@ && canonical_int(k, -x) is Some ==> is_integer(
                canonical_int(k, -x),
                args.skip(1),
                r,
            )
            &&& name_of(k, c) == "Int.decLe"@ && args.len() >= 2 ==> is_integer(
                decidable_term(k, x <= y),
                args.skip(2),
                r,
            )
            &&& name_of(k, c) == "Int.decLt"@ && args.len() >= 2 ==> is_integer(
                decidable_term(k, x < y),
                args.skip(2),
                r,
            )
        }),
{
    reveal(nat_extension_spec);
    reveal(rule_value);
    lemma_integer_names();
}

/// The operation that an overloaded one is at a type, by name: on naturals at the
/// type of naturals, on integers at the type of integers, and on linear
/// combinations at theirs.
pub open spec fn is_known_at(k: K, op: NatOp, ty: Term, text: Seq<char>) -> bool {
    ||| is_const_named(k, ty, "LinearCombo"@) && (op == NatOp::Plus && text == "LinearCombo.add"@
        || op == NatOp::Minus && text == "LinearCombo.sub"@)
    ||| is_const_named(k, ty, "Int"@) && (op == NatOp::Plus && text == "Int.add"@ || op
        == NatOp::Minus && text == "Int.sub"@ || op == NatOp::Times && text == "Int.mul"@ || op
        == NatOp::Pow && text == "Int.pow"@)
    ||| (ty matches Term::Const(t, _) && k.nat_ref == Some(t)) && text == natural_name(op)
}

/// An overloaded operation goes over into the one on the type that its first
/// argument reduces to, on the two last of its own arguments, with whatever stands
/// behind them.
pub proof fn law_overloaded(
    k: K,
    s: Sem,
    m: Mode,
    ctx: Seq<Term>,
    c: u32,
    head: Term,
    args: Seq<Term>,
    op: NatOp,
    mixed: bool,
    t: Term,
)
    requires
        head matches Term::Const(n, _) && n == c,
        if mixed {
            mixed_name(op) == Some(name_of(k, c))
        } else {
            single_name(op) == Some(name_of(k, c))
        },
        nat_extension_spec(k, s, m, ctx, head, args) == Ok::<Option<Term>, Fault>(Some(t)),
    ensures
        exists|ty: Term, text: Seq<char>, f: u32| #[trigger]
            reduces(s, m, ctx, args[0], ty) && #[trigger] is_known_at(k, op, ty, text)
                && #[trigger] is_found(k, text, f) && (if mixed {
                args.len() >= 6 && t == mk_apps(app2(plain(f), args[4], args[5]), args.skip(6))
            } else {
                args.len() >= 4 && t == mk_apps(app2(plain(f), args[2], args[3]), args.skip(4))
            }),
{
    reveal(nat_extension_spec);
    reveal(rule_value);
    reveal(overload_spec);
    lemma_overloaded_names(op);
    let ty = (s.whnf)(m, ctx, args[0])->Ok_0;
    assert(reduces(s, m, ctx, args[0], ty));
    let is_int = on_ints(k, s, m, ctx, op, mixed, ty, args)->Ok_0;
    let text = overload_name(k, op, ty, is_int).unwrap();
    assert(is_known_at(k, op, ty, text));
    let f = find_name_ending_spec(k, text).unwrap();
    assert(is_found(k, text, f));
}

/// The constant is the first of that name, bare or qualified.
pub open spec fn is_found(k: K, text: Seq<char>, f: u32) -> bool {
    find_name_ending_spec(k, text) == Some(f)
}

} // verus!
