//! The arena of `la_arena` that holds the parsed directives, reached through
//! trusted items whose contracts restate what `la_arena`'s source does.

use crate::ast::{Directive, DirectiveId};
use la_arena::{Arena, Idx, RawIdx};
use vstd::prelude::*;

verus! {

#[verifier::external_type_specification]
#[verifier::external_body]
#[verifier::reject_recursive_types(T)]
pub struct ExArena<T>(Arena<T>);

/// `Clone for Arena`: the derived clone of a configuration copies its arena
/// with it. Nothing is stated of the copy.
pub assume_specification<T: Clone>[ <Arena<T> as Clone>::clone ](a: &Arena<T>) -> Arena<T>;

/// The directives an arena holds, in the order in which they were allocated.
pub uninterp spec fn arena_items(arena: Arena<Directive<'_>>) -> Seq<Directive<'_>>;

/// `Arena::new`: an arena that holds nothing.
#[verifier::external_body]
pub(crate) fn arena_new<'s>() -> (arena: Arena<Directive<'s>>)
    ensures
        arena_items(arena) == Seq::<Directive<'s>>::empty(),
{
    Arena::new()
}

/// `Arena::alloc`: appends the directive and returns the index it was stored at,
/// which is the length of the arena before the call (exact while that length
/// fits in the `u32` that `la_arena` keeps as an index).
#[verifier::external_body]
pub(crate) fn arena_alloc<'s>(arena: &mut Arena<Directive<'s>>, value: Directive<'s>) -> (id: DirectiveId)
    requires
        arena_items(*old(arena)).len() < u32::MAX,
    ensures
        arena_items(*final(arena)) == arena_items(*old(arena)).push(value),
        id.index() == arena_items(*old(arena)).len(),
{
    DirectiveId(u32::from(arena.alloc(value).into_raw()))
}

/// `Index<Idx<T>> for Arena<T>`: the directive stored at the index.
#[verifier::external_body]
pub(crate) fn arena_get<'a, 's>(arena: &'a Arena<Directive<'s>>, id: DirectiveId) -> (d: &'a Directive<'s>)
    requires
        id.index() < arena_items(*arena).len(),
    ensures
        *d == arena_items(*arena)[id.index() as int],
{
    &arena[Idx::from_raw(RawIdx::from_u32(id.0))]
}

/// `IndexMut<Idx<T>> for Arena<T>`: the directive stored at the index, to be
/// changed in place.
#[verifier::external_body]
pub(crate) fn arena_get_mut<'a, 's>(arena: &'a mut Arena<Directive<'s>>, id: DirectiveId) -> (d: &'a mut Directive<'s>)
    requires
        id.index() < arena_items(*old(arena)).len(),
    ensures
        *d == arena_items(*old(arena))[id.index() as int],
        arena_items(*final(arena)) == arena_items(*old(arena)).update(id.index() as int, *final(d)),
{
    &mut arena[Idx::from_raw(RawIdx::from_u32(id.0))]
}

} // verus!
