//! The `slab` arena that owns the document's nodes, and the trusted wrappers
//! through which verified code uses it.

use slab::Slab;
use vstd::prelude::*;
use crate::node::DomNode;

verus! {

#[verifier::external_type_specification]
#[verifier::external_body]
#[verifier::reject_recursive_types(T)]
pub struct ExSlab<T>(Slab<T>);

/// The occupied entries of a node arena, by key.
pub uninterp spec fn arena_nodes(s: Slab<DomNode>) -> Map<usize, DomNode>;

/// The key that the arena's next insertion will use (the head of the
/// slab's free list, or the end of its entries when none is vacant).
pub uninterp spec fn arena_next_key(s: Slab<DomNode>) -> usize;

/// How many entries (occupied or vacant) the arena holds.
pub uninterp spec fn arena_slot_count(s: Slab<DomNode>) -> nat;

/// Facts that hold of every slab: the next key is a vacant entry or the end
/// of the entries, and the entries fit in memory.
pub open spec fn arena_shape_ok(s: Slab<DomNode>) -> bool {
    &&& arena_next_key(s) <= arena_slot_count(s)
    &&& arena_slot_count(s) < isize::MAX
    &&& forall|k: usize| #[trigger] arena_nodes(s).contains_key(k) ==> k < arena_slot_count(s)
}

/// Calls `Slab::new`: an empty arena, whose first key is 0.
#[verifier::external_body]
pub(crate) fn arena_new() -> (s: Slab<DomNode>)
    ensures
        arena_nodes(s).dom().is_empty(),
        arena_next_key(s) == 0,
        arena_slot_count(s) == 0,
{
    Slab::new()
}

/// Calls `Slab::vacant_key`: the key the next insertion will use, which is
/// not occupied.
#[verifier::external_body]
pub(crate) fn arena_vacant_key(s: &Slab<DomNode>) -> (k: usize)
    ensures
        k == arena_next_key(*s),
        !arena_nodes(*s).contains_key(k),
{
    s.vacant_key()
}

/// Calls `Slab::insert`: stores `v` under the vacant key and returns that
/// key. When no entry was vacant the value is pushed at the end and the next
/// key is the new end; otherwise the entry count stays the same.
#[verifier::external_body]
pub(crate) fn arena_insert(s: &mut Slab<DomNode>, v: DomNode) -> (k: usize)
    ensures
        k == arena_next_key(*old(s)),
        !arena_nodes(*old(s)).contains_key(k),
        arena_nodes(*final(s)) == arena_nodes(*old(s)).insert(k, v),
        arena_shape_ok(*old(s)) && arena_shape_ok(*final(s)),
        arena_next_key(*old(s)) == arena_slot_count(*old(s)) ==> arena_next_key(*final(s)) == k + 1
            && arena_slot_count(*final(s)) == arena_slot_count(*old(s)) + 1,
        arena_next_key(*old(s)) < arena_slot_count(*old(s)) ==> arena_slot_count(*final(s)) == arena_slot_count(*old(s)),
{
    s.insert(v)
}

/// Calls `Slab::get`: the node stored under `k`, if any.
#[verifier::external_body]
pub(crate) fn arena_get(s: &Slab<DomNode>, k: usize) -> (r: Option<&DomNode>)
    ensures
        match r {
            Some(n) => arena_nodes(*s).contains_key(k) && *n == arena_nodes(*s)[k],
            None => !arena_nodes(*s).contains_key(k),
        },
{
    s.get(k)
}

/// Calls `Slab::contains`: whether `k` is occupied.
#[verifier::external_body]
pub(crate) fn arena_contains(s: &Slab<DomNode>, k: usize) -> (r: bool)
    ensures
        r == arena_nodes(*s).contains_key(k),
{
    s.contains(k)
}

/// Calls `Slab`'s `IndexMut`: a mutable reference to the occupied entry `k`.
#[verifier::external_body]
pub(crate) fn arena_get_mut(s: &mut Slab<DomNode>, k: usize) -> (r: &mut DomNode)
    requires
        arena_nodes(*old(s)).contains_key(k),
    ensures
        *r == arena_nodes(*old(s))[k],
        arena_nodes(*final(s)) == arena_nodes(*old(s)).insert(k, *final(r)),
        arena_next_key(*final(s)) == arena_next_key(*old(s)),
        arena_slot_count(*final(s)) == arena_slot_count(*old(s)),
{
    &mut s[k]
}

/// Calls `Slab::remove`: takes the node out of the occupied entry `k`,
/// which becomes vacant and the head of the free list.
#[verifier::external_body]
pub(crate) fn arena_remove(s: &mut Slab<DomNode>, k: usize) -> (r: DomNode)
    requires
        arena_nodes(*old(s)).contains_key(k),
    ensures
        r == arena_nodes(*old(s))[k],
        arena_nodes(*final(s)) == arena_nodes(*old(s)).remove(k),
        arena_next_key(*final(s)) == k,
        arena_slot_count(*final(s)) == arena_slot_count(*old(s)),
{
    s.remove(k)
}

} // verus!
