//! Fixed-capacity stacks of hashes and parent payloads, held in `ArrayVec`.
use vstd::prelude::*;
use arrayvec::ArrayVec;
use crate::hash::{ParentNode, MAX_DEPTH};

verus! {

#[verifier::external_type_specification]
#[verifier::external_body]
#[verifier::reject_recursive_types(T)]
pub struct ExArrayVec<T, const CAP: usize>(ArrayVec<T, CAP>);

/// Relies on `ArrayVec`'s `Clone`: a copy of the vector; nothing is assumed
/// about what it holds.
pub assume_specification<T: Clone, const CAP: usize>[ <ArrayVec<T, CAP> as Clone>::clone ](
    v: &ArrayVec<T, CAP>,
) -> ArrayVec<T, CAP>;

/// The hashes held by a stack of subtree hashes, bottom first.
pub uninterp spec fn hash_stack_items(v: ArrayVec<crate::hash::Hash, MAX_DEPTH>) -> Seq<crate::hash::Hash>;

/// The payloads held by a stack of parent nodes, bottom first.
pub uninterp spec fn parent_stack_items(v: ArrayVec<ParentNode, MAX_DEPTH>) -> Seq<ParentNode>;

/// Relies on `ArrayVec::new`: a new vector holds nothing.
#[verifier::external_body]
pub(crate) fn hash_stack_new() -> (r: ArrayVec<crate::hash::Hash, MAX_DEPTH>)
    ensures
        hash_stack_items(r) == Seq::<crate::hash::Hash>::empty(),
{
    ArrayVec::new()
}

/// Relies on `ArrayVec::len`: the number of items held, never above the capacity.
#[verifier::external_body]
pub(crate) fn hash_stack_len(v: &ArrayVec<crate::hash::Hash, MAX_DEPTH>) -> (r: usize)
    ensures
        r == hash_stack_items(*v).len(),
        r <= MAX_DEPTH,
{
    v.len()
}

/// Relies on `ArrayVec::push`: below capacity, the item is placed on top.
#[verifier::external_body]
pub(crate) fn hash_stack_push(v: &mut ArrayVec<crate::hash::Hash, MAX_DEPTH>, x: crate::hash::Hash)
    requires
        hash_stack_items(*old(v)).len() < MAX_DEPTH,
    ensures
        hash_stack_items(*final(v)) == hash_stack_items(*old(v)).push(x),
{
    v.push(x)
}

/// Relies on `ArrayVec::pop`: removes and returns the top item, or `None` when empty.
#[verifier::external_body]
pub(crate) fn hash_stack_pop(v: &mut ArrayVec<crate::hash::Hash, MAX_DEPTH>) -> (r: Option<crate::hash::Hash>)
    ensures
        hash_stack_items(*old(v)).len() == 0 ==> r.is_none() && hash_stack_items(*final(v))
            == hash_stack_items(*old(v)),
        hash_stack_items(*old(v)).len() > 0 ==> r == Some(hash_stack_items(*old(v)).last())
            && hash_stack_items(*final(v)) == hash_stack_items(*old(v)).drop_last(),
{
    v.pop()
}

/// Relies on `ArrayVec::new`: a new vector holds nothing.
#[verifier::external_body]
pub(crate) fn parent_stack_new() -> (r: ArrayVec<ParentNode, MAX_DEPTH>)
    ensures
        parent_stack_items(r) == Seq::<ParentNode>::empty(),
{
    ArrayVec::new()
}

/// Relies on `ArrayVec::len`: the number of items held, never above the capacity.
#[verifier::external_body]
pub(crate) fn parent_stack_len(v: &ArrayVec<ParentNode, MAX_DEPTH>) -> (r: usize)
    ensures
        r == parent_stack_items(*v).len(),
        r <= MAX_DEPTH,
{
    v.len()
}

/// Relies on `ArrayVec::push`: below capacity, the item is placed on top.
#[verifier::external_body]
pub(crate) fn parent_stack_push(v: &mut ArrayVec<ParentNode, MAX_DEPTH>, x: ParentNode)
    requires
        parent_stack_items(*old(v)).len() < MAX_DEPTH,
    ensures
        parent_stack_items(*final(v)) == parent_stack_items(*old(v)).push(x),
{
    v.push(x)
}

/// Relies on `ArrayVec::pop`: removes and returns the top item, or `None` when empty.
#[verifier::external_body]
pub(crate) fn parent_stack_pop(v: &mut ArrayVec<ParentNode, MAX_DEPTH>) -> (r: Option<ParentNode>)
    ensures
        parent_stack_items(*old(v)).len() == 0 ==> r.is_none() && parent_stack_items(*final(v))
            == parent_stack_items(*old(v)),
        parent_stack_items(*old(v)).len() > 0 ==> r == Some(parent_stack_items(*old(v)).last())
            && parent_stack_items(*final(v)) == parent_stack_items(*old(v)).drop_last(),
{
    v.pop()
}

} // verus!
