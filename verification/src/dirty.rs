//! The dirty set used by partial relayout.
//!
//! Changed nodes and their ancestors are collected into a compact set of
//! arena indices; the filtered walks consult it to decide which cached
//! layout state is stale.  The set itself is `tinyset::SetUsize`, used
//! through the trusted declarations below; `set_usize_elems` names its
//! contents.

use vstd::prelude::*;

verus! {

#[verifier::external_type_specification]
#[verifier::external_body]
pub struct ExSetUsize(tinyset::SetUsize);

/// The mathematical contents of a `tinyset::SetUsize`.
pub uninterp spec fn set_usize_elems(s: tinyset::SetUsize) -> Set<usize>;

/// Relies on tinyset's `SetUsize::new`: creates an empty set.
#[verifier::external_body]
pub fn set_new() -> (r: tinyset::SetUsize)
    ensures
        set_usize_elems(r) == Set::<usize>::empty(),
{
    tinyset::SetUsize::new()
}

/// Relies on tinyset's `SetUsize::insert`: adds a value to the set and
/// returns true exactly when the value was not yet present.
#[verifier::external_body]
pub fn set_insert(s: &mut tinyset::SetUsize, v: usize) -> (r: bool)
    ensures
        set_usize_elems(*final(s)) == set_usize_elems(*old(s)).insert(v),
        r == !set_usize_elems(*old(s)).contains(v),
{
    s.insert(v)
}

/// Relies on tinyset's `SetUsize::contains`: membership in the set.
#[verifier::external_body]
pub fn set_contains(s: &tinyset::SetUsize, v: usize) -> (r: bool)
    ensures
        r == set_usize_elems(*s).contains(v),
{
    s.contains(v)
}

} // verus!
