//! Constants found by their names, and the terms built from them.

use crate::expr::{app, app_head, const_, lit_nat, spine_head, Expr, ExprData, Lit, LitT, Term};
use crate::kernel::{Checker, K};
use crate::level::{zero, Level, Univ};
use crate::lookup::{name_of, plain_const};
use crate::num::Natural;
use crate::text::{is_named, named, str_same};
use vstd::prelude::*;
use vstd::utf8::encode_utf8;

verus! {

/// The first name from position `i` on that is the given text. Names beyond the
/// range of the constants' numbers belong to none.
pub open spec fn name_from(names: Seq<Seq<char>>, text: Seq<char>, i: nat) -> Option<u32>
    decreases names.len() - i,
{
    if i >= names.len() || i > u32::MAX {
        None
    } else if names[i as int] == text {
        Some(i as u32)
    } else {
        name_from(names, text, i + 1)
    }
}

/// The constant with the given name.
pub open spec fn find_name_spec(k: K, text: Seq<char>) -> Option<u32> {
    name_from(k.names, text, 0)
}

/// The first name from position `i` on that is the given text, bare or
/// qualified. Names beyond the range of the constants' numbers belong to none.
pub open spec fn name_ending_from(names: Seq<Seq<char>>, text: Seq<char>, i: nat) -> Option<u32>
    decreases names.len() - i,
{
    if i >= names.len() || i > u32::MAX {
        None
    } else if is_named(names[i as int], text) {
        Some(i as u32)
    } else {
        name_ending_from(names, text, i + 1)
    }
}

/// The constant with the given name, bare or qualified.
pub open spec fn find_name_ending_spec(k: K, text: Seq<char>) -> Option<u32> {
    name_ending_from(k.names, text, 0)
}

/// A constant without universe arguments.
pub open spec fn plain(n: u32) -> Term {
    Term::Const(n, Seq::empty())
}

/// A constant at the lowest universe.
pub open spec fn at_zero(n: u32) -> Term {
    Term::Const(n, seq![Univ::Zero])
}

/// A natural literal.
pub open spec fn nat_lit(n: nat) -> Term {
    Term::Lit(LitT::Nat(n))
}

/// An application.
pub open spec fn app1(f: Term, a: Term) -> Term {
    Term::App(Box::new(f), Box::new(a))
}

/// An application to two arguments.
pub open spec fn app2(f: Term, a: Term, b: Term) -> Term {
    app1(app1(f, a), b)
}

/// An application to three arguments.
pub open spec fn app3(f: Term, a: Term, b: Term, c: Term) -> Term {
    app1(app2(f, a, b), c)
}

/// The name of the constant at the head of a term.
pub open spec fn head_name(k: K, e: Term) -> Option<Seq<char>> {
    match spine_head(e) {
        Term::Const(n, _) => Some(name_of(k, n)),
        _ => None,
    }
}

/// Whether the head of a term is a constant of the given name, bare or
/// qualified.
pub open spec fn headed_by(k: K, e: Term, text: Seq<char>) -> bool {
    match spine_head(e) {
        Term::Const(n, _) => is_named(name_of(k, n), text),
        _ => false,
    }
}

/// Whether a term is a constant, unapplied, of the given name, bare or
/// qualified.
pub open spec fn is_const_named(k: K, e: Term, text: Seq<char>) -> bool {
    match e {
        Term::Const(n, _) => is_named(name_of(k, n), text),
        _ => false,
    }
}

/// One byte as a term.
pub open spec fn byte_term(k: K, b: u8) -> Term {
    match find_name_spec(k, "UInt8.ofNat"@) {
        Some(f) => app1(plain(f), nat_lit(b as nat)),
        None => nat_lit(b as nat),
    }
}

/// The bytes from position `i` on as a list.
pub open spec fn bytes_list(k: K, nil: u32, cons: u32, ty: Term, bytes: Seq<u8>, i: nat) -> Term
    decreases bytes.len() - i,
{
    if i >= bytes.len() {
        app1(at_zero(nil), ty)
    } else {
        app3(
            at_zero(cons),
            ty,
            byte_term(k, bytes[i as int]),
            bytes_list(k, nil, cons, ty, bytes, i + 1),
        )
    }
}

/// A string literal as an array of its bytes.
pub open spec fn string_bytes_spec(k: K, text: Seq<char>) -> Option<Term> {
    match (
        find_name_spec(k, "ByteArray.mk"@),
        find_name_spec(k, "Array.mk"@),
        find_name_spec(k, "UInt8"@),
        find_name_spec(k, "List.nil"@),
        find_name_spec(k, "List.cons"@),
    ) {
        (Some(ba), Some(arr), Some(u8), Some(nil), Some(cons)) => {
            let ty = plain(u8);
            let list = bytes_list(k, nil, cons, ty, encode_utf8(text), 0);
            Some(app1(plain(ba), app2(at_zero(arr), ty, list)))
        },
        _ => None,
    }
}

/// A constant at the lowest universe.
pub fn const_at_zero(n: u32) -> (r: Expr)
    ensures
        r@ == at_zero(n),
{
    let mut us: Vec<Level> = Vec::new();
    us.push(zero());
    assert(us.deep_view() =~= seq![Univ::Zero]);
    const_(n, us)
}

/// An application to two arguments.
pub fn mk_app2(f: Expr, a: Expr, b: Expr) -> (r: Expr)
    ensures
        r@ == app2(f@, a@, b@),
{
    app(app(f, a), b)
}

/// An application to three arguments.
pub fn mk_app3(f: Expr, a: Expr, b: Expr, c: Expr) -> (r: Expr)
    ensures
        r@ == app3(f@, a@, b@, c@),
{
    app(app(app(f, a), b), c)
}

impl<'e> Checker<'e> {
    /// The constant with the given name.
    pub fn find_name(&self, text: &str) -> (r: Option<u32>)
        ensures
            r == find_name_spec(self@, text@),
    {
        let mut i: usize = 0;
        let ghost names = self@.names;
        while i < self.names.len()
            invariant
                i <= self.names.len(),
                names == self@.names,
                name_from(names, text@, i as nat) == name_from(names, text@, 0),
            decreases self.names.len() - i,
        {
            if i as u64 > u32::MAX as u64 {
                return None;
            }
            assert(names[i as int] == (*self.names@[i as int])@);
            if str_same(self.names[i].as_str(), text) {
                return Some(i as u32);
            }
            i = i + 1;
        }
        None
    }

    /// The constant with the given name, bare or qualified.
    pub fn find_name_ending(&self, text: &str) -> (r: Option<u32>)
        ensures
            r == find_name_ending_spec(self@, text@),
    {
        let mut i: usize = 0;
        let ghost names = self@.names;
        while i < self.names.len()
            invariant
                i <= self.names.len(),
                names == self@.names,
                name_ending_from(names, text@, i as nat) == name_ending_from(names, text@, 0),
            decreases self.names.len() - i,
        {
            if i as u64 > u32::MAX as u64 {
                return None;
            }
            assert(names[i as int] == (*self.names@[i as int])@);
            if named(self.names[i].as_str(), text) {
                return Some(i as u32);
            }
            i = i + 1;
        }
        None
    }

    /// Whether the head of a term is a constant of the given name, bare or
    /// qualified.
    pub fn head_is(&self, e: &Expr, text: &str) -> (r: bool)
        ensures
            r == headed_by(self@, e@, text@),
    {
        match app_head(e).data() {
            ExprData::Const(n, _) => named(self.name_str(*n), text),
            _ => false,
        }
    }

    /// Whether a term is a constant of the given name, bare or qualified.
    pub fn const_is(&self, e: &Expr, text: &str) -> (r: bool)
        ensures
            r == is_const_named(self@, e@, text@),
    {
        match e.data() {
            ExprData::Const(n, _) => named(self.name_str(*n), text),
            _ => false,
        }
    }

    /// A string literal as an array of its bytes.
    pub fn string_to_byte_array(&self, text: &str) -> (r: Option<Expr>)
        ensures
            r.deep_view() == string_bytes_spec(self@, text@),
    {
        let ba = self.find_name("ByteArray.mk")?;
        let arr = self.find_name("Array.mk")?;
        let u8n = self.find_name("UInt8")?;
        let nil = self.find_name("List.nil")?;
        let cons = self.find_name("List.cons")?;
        let of_nat = self.find_name("UInt8.ofNat");
        let ty = plain_const(u8n);
        let bytes = text.as_bytes();
        let ghost bv = bytes@;
        let mut list = app(const_at_zero(nil), ty.clone());
        let mut i: usize = bytes.len();
        while i > 0
            invariant
                i <= bytes.len(),
                bv == bytes@,
                ty@ == plain(u8n),
                of_nat == find_name_spec(self@, "UInt8.ofNat"@),
                list@ == bytes_list(self@, nil, cons, ty@, bv, i as nat),
            decreases i,
        {
            i = i - 1;
            let n = lit_nat(Natural::from_u64(bytes[i] as u64));
            let v = match of_nat {
                Some(f) => app(plain_const(f), n),
                None => n,
            };
            list = mk_app3(const_at_zero(cons), ty.clone(), v, list);
        }
        Some(app(plain_const(ba), mk_app2(const_at_zero(arr), ty, list)))
    }
}

} // verus!
