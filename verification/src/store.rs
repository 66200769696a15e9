//! Index-addressed slot storage for the tree's nodes, backed by `slab::Slab`.
//!
//! The slab is kept behind a small set of trusted wrappers; its contents are
//! named by the uninterpreted function [`node_slots`], a finite map from live
//! handles to the nodes stored under them.

use crate::Node;
use crate::EMPTY_PTR;
use vstd::prelude::*;

verus! {

#[verifier::external_type_specification]
#[verifier::external_body]
#[verifier::reject_recursive_types(T)]
pub struct ExSlab<T>(slab::Slab<T>);

/// The contents of a node slab: which handles are live, and what node each
/// live handle stores.
pub uninterp spec fn node_slots(s: slab::Slab<Node>) -> Map<usize, Node>;

/// Relies on `slab::Slab::new`; nothing is assumed of the result, which is
/// only a placeholder to be overwritten by [`store_init`].
#[verifier::external_body]
pub(crate) fn store_empty() -> slab::Slab<Node> {
    slab::Slab::new()
}

/// Relies on `slab::Slab::new` and `slab::Slab::insert`: a newly created slab
/// is empty, and its first insertion stores the value under key 0 (`next`
/// starts at 0 and the first insertion goes to the vacant slot it names).
#[verifier::external_body]
pub(crate) fn store_init(s: &mut slab::Slab<Node>, n: Node)
    ensures
        node_slots(*final(s)) == map![0usize => n],
{
    let mut fresh = slab::Slab::new();
    fresh.insert(n);
    *s = fresh;
}

/// Relies on `slab::Slab::insert`: the value is stored under a key that was
/// not in use, existing entries are untouched, and the key indexes the slab's
/// entry vector, so it is below `usize::MAX`.
#[verifier::external_body]
pub(crate) fn store_alloc(s: &mut slab::Slab<Node>, n: Node) -> (k: usize)
    ensures
        !node_slots(*old(s)).dom().contains(k),
        k != EMPTY_PTR,
        node_slots(*final(s)) == node_slots(*old(s)).insert(k, n),
{
    s.insert(n)
}

/// Relies on `slab::Slab::remove`: removes the entry under a live key and
/// returns its value; other entries are untouched.
#[verifier::external_body]
pub(crate) fn store_remove(s: &mut slab::Slab<Node>, k: usize) -> (n: Node)
    requires
        node_slots(*old(s)).dom().contains(k),
    ensures
        n == node_slots(*old(s))[k],
        node_slots(*final(s)) == node_slots(*old(s)).remove(k),
{
    s.remove(k)
}

/// Relies on slab's `Index` impl: returns the value stored under a live key.
#[verifier::external_body]
pub(crate) fn store_read(s: &slab::Slab<Node>, k: usize) -> (n: Node)
    requires
        node_slots(*s).dom().contains(k),
    ensures
        n == node_slots(*s)[k],
{
    s[k]
}

/// Relies on slab's `IndexMut` impl: overwrites the value stored under a live
/// key in place; other entries are untouched.
#[verifier::external_body]
pub(crate) fn store_write(s: &mut slab::Slab<Node>, k: usize, n: Node)
    requires
        node_slots(*old(s)).dom().contains(k),
    ensures
        node_slots(*final(s)) == node_slots(*old(s)).insert(k, n),
{
    s[k] = n;
}

} // verus!
