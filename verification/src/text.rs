//! Comparisons of names.

use vstd::prelude::*;
use vstd::string::*;

verus! {

/// Whether `text` ends in `tail`.
pub open spec fn is_suffix(text: Seq<char>, tail: Seq<char>) -> bool {
    text.len() >= tail.len() && text.skip(text.len() - tail.len()) == tail
}

/// Whether `part` occurs in `text`.
pub open spec fn is_infix(text: Seq<char>, part: Seq<char>) -> bool {
    exists|i: int|
        0 <= i && i + part.len() <= text.len() && #[trigger] text.subrange(i, i + part.len())
            == part
}

/// `str == str`: whether the two strings hold the same characters.
#[verifier::external_body]
pub(crate) fn str_same(a: &str, b: &str) -> (r: bool)
    ensures
        r == (a@ == b@),
{
    a == b
}

/// `str::ends_with` with a string pattern: whether it is a suffix.
#[verifier::external_body]
pub(crate) fn str_ends_with(text: &str, tail: &str) -> (r: bool)
    ensures
        r == is_suffix(text@, tail@),
{
    text.ends_with(tail)
}

/// `str::contains` with a string pattern: whether it occurs.
#[verifier::external_body]
pub(crate) fn str_contains(text: &str, part: &str) -> (r: bool)
    ensures
        r == is_infix(text@, part@),
{
    text.contains(part)
}

/// The two strings, one behind the other.
pub fn join(a: &str, b: &str) -> (r: String)
    ensures
        r@ == a@ + b@,
{
    let mut s = a.to_owned();
    s.append(b);
    s
}

/// Whether `name` lies under some namespace as `ident`.
pub open spec fn is_qualified(name: Seq<char>, ident: Seq<char>) -> bool {
    is_suffix(name, seq!['.'] + ident)
}

/// Whether `name` lies under some namespace as `ident`.
pub fn ends_qualified(name: &str, ident: &str) -> (r: bool)
    ensures
        r == is_qualified(name@, ident@),
{
    let dotted = join(".", ident);
    proof {
        reveal_strlit(".");
        assert("."@ =~= seq!['.']);
    }
    str_ends_with(name, dotted.as_str())
}

/// Whether a name is the given identifier, bare or qualified.
pub open spec fn is_named(name: Seq<char>, ident: Seq<char>) -> bool {
    name == ident || is_qualified(name, ident)
}

/// Whether a name is the given identifier, bare or qualified.
pub fn named(name: &str, ident: &str) -> (r: bool)
    ensures
        r == is_named(name@, ident@),
{
    str_same(name, ident) || ends_qualified(name, ident)
}

/// The names that the linear integer arithmetic rules answer to as `ident`.
pub open spec fn int_linear_ident(name: Seq<char>, ident: Seq<char>) -> bool {
    name == ident || (is_qualified(name, ident) && is_infix(name, "Int.Linear"@))
}

/// Whether `name` is `ident`, bare or qualified inside `Int.Linear`.
pub fn is_int_linear_ident(name: &str, ident: &str) -> (r: bool)
    ensures
        r == int_linear_ident(name@, ident@),
{
    if str_same(name, ident) {
        return true;
    }
    ends_qualified(name, ident) && str_contains(name, "Int.Linear")
}

/// The names that the commutative ring rules answer to as `ident`.
pub open spec fn commring_ident(name: Seq<char>, ident: Seq<char>) -> bool {
    is_infix(name, "CommRing"@) && (name == ident || is_qualified(name, ident))
}

/// Whether `name` is `ident`, bare or qualified, and speaks of `CommRing`.
pub fn is_commring_ident(name: &str, ident: &str) -> (r: bool)
    ensures
        r == commring_ident(name@, ident@),
{
    if !str_contains(name, "CommRing") {
        return false;
    }
    if str_same(name, ident) {
        return true;
    }
    ends_qualified(name, ident)
}

} // verus!
