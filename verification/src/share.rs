//! Shared values.

use std::rc::Rc;
use vstd::prelude::*;

verus! {

/// `Rc::ptr_eq`: two handles on one allocation hold the same value. Nothing is
/// said where the allocations differ.
#[verifier::external_body]
pub(crate) fn same_node<T>(a: &Rc<T>, b: &Rc<T>) -> (r: bool)
    ensures
        r ==> a == b,
{
    Rc::ptr_eq(a, b)
}

} // verus!
