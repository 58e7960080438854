//! A small tag component for identifying entities, and its lookup.

use std::marker::PhantomData;
use vstd::prelude::*;
use crate::ecs::Entity;

verus! {

/// Tag component that can be used with a custom type to tag entities for processing.
#[derive(Debug)]
pub struct Tag<T> {
    _m: PhantomData<T>,
}

impl<T> Tag<T> {
    /// A tag.
    pub fn new() -> (r: Self) {
        Tag { _m: PhantomData }
    }
}

impl<T> Default for Tag<T> {
    fn default() -> (r: Self) {
        Tag::new()
    }
}

/// Utility lookup for tag components.
#[derive(Debug)]
pub struct TagFinder<T> {
    _m: PhantomData<T>,
}

/// The position of the first tagged entity among `entities`, in the store's
/// order, if there is one.
pub open spec fn first_tagged<T>(entities: Seq<(Entity, Option<Tag<T>>)>, k: int) -> bool {
    &&& 0 <= k < entities.len()
    &&& entities[k].1 is Some
    &&& forall|j: int| 0 <= j < k ==> (#[trigger] entities[j]).1 is None
}

impl<T> TagFinder<T> {
    /// A lookup for the tag `Tag<T>`.
    pub fn new() -> (r: Self) {
        TagFinder { _m: PhantomData }
    }

    /// Returns the first entity found with the tag in question. `entities`
    /// lists the entities of the world in the store's order, each with its
    /// tag component, if it has one.
    pub fn find(&self, entities: &Vec<(Entity, Option<Tag<T>>)>) -> (r: Option<Entity>)
        ensures
            r is None <==> forall|j: int| 0 <= j < entities@.len() ==> (#[trigger] entities@[j]).1 is None,
            r is Some ==> exists|k: int| first_tagged(entities@, k) && entities@[k].0 == r->Some_0,
    {
        let mut i: usize = 0;
        while i < entities.len()
            invariant
                i <= entities@.len(),
                forall|j: int| 0 <= j < i ==> (#[trigger] entities@[j]).1 is None,
            decreases entities@.len() - i,
        {
            if entities[i].1.is_some() {
                assert(first_tagged(entities@, i as int));
                return Some(entities[i].0);
            }
            i = i + 1;
        }
        None
    }
}

} // verus!
