//! Random identifiers that tell apart otherwise equal entries of the sorted
//! containers, and the shared strings that hold them.
use vstd::prelude::*;
use std::rc::Rc;
use std::sync::Arc;

verus! {

/// `nanoid::format` with the default random source, the URL-safe alphabet
/// and length 21, which is what `nanoid!()` expands to. The contract claims
/// a string of 21 characters; which characters is left to chance.
#[verifier::external_body]
fn nanoid_string() -> (id: String)
    ensures
        id@.len() == 21,
{
    nanoid::format(nanoid::rngs::default, &nanoid::alphabet::SAFE, 21)
}

/// `Rc::<str>::from(String)`: the contract claims the same characters.
#[verifier::external_body]
fn rc_str_from(s: String) -> (r: Rc<str>)
    ensures
        r@ == s@,
{
    Rc::from(s)
}

/// `Arc::<str>::from(String)`: the contract claims the same characters.
#[verifier::external_body]
fn arc_str_from(s: String) -> (r: Arc<str>)
    ensures
        r@ == s@,
{
    Arc::from(s)
}

/// `Rc::clone`: the contract claims a pointer to the same value.
#[verifier::external_body]
pub(crate) fn share_rc<T: ?Sized>(r: &Rc<T>) -> (c: Rc<T>)
    ensures
        c == *r,
{
    Rc::clone(r)
}

/// `Arc::clone`: the contract claims a pointer to the same value.
#[verifier::external_body]
pub(crate) fn share_arc<T: ?Sized>(r: &Arc<T>) -> (c: Arc<T>)
    ensures
        c == *r,
{
    Arc::clone(r)
}

/// A fresh random identifier of 21 characters.
pub(crate) fn fresh_rc_id() -> (id: Rc<str>)
    ensures
        id@.len() == 21,
{
    rc_str_from(nanoid_string())
}

/// A fresh random identifier of 21 characters, shareable across threads.
pub(crate) fn fresh_arc_id() -> (id: Arc<str>)
    ensures
        id@.len() == 21,
{
    arc_str_from(nanoid_string())
}

} // verus!
