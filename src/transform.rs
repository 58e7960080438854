//! The transform bundle: the hierarchy and transform systems of the host.

use vstd::prelude::*;
use crate::dispatcher::{BuildSystem, DispatcherBuilder, Error, SystemBundle, systems_of_kinds};

verus! {

/// The systems that the transform bundle registers.
#[derive(Debug, Clone, Copy, PartialEq, Eq, Structural)]
pub enum TransformSystem {
    /// Tracks entities whose previous parent was removed.
    MissingPreviousParent,
    /// Keeps the parent hierarchy up to date.
    ParentUpdate,
    /// Computes global transforms.
    Transform,
}

/// Transform bundle.
#[derive(Debug, Clone, Copy, PartialEq, Eq, Structural)]
pub struct TransformBundle;

/// The kinds of the transform systems, in the order they are added.
pub open spec fn transform_system_order() -> Seq<TransformSystem> {
    seq![
        TransformSystem::MissingPreviousParent,
        TransformSystem::ParentUpdate,
        TransformSystem::Transform,
    ]
}

/// The kinds of the transform systems, in the order they are added.
pub fn transform_systems() -> (r: Vec<TransformSystem>)
    ensures
        r@ == transform_system_order(),
{
    let r = vec![
        TransformSystem::MissingPreviousParent,
        TransformSystem::ParentUpdate,
        TransformSystem::Transform,
    ];
    assert(r@ =~= seq![
        TransformSystem::MissingPreviousParent,
        TransformSystem::ParentUpdate,
        TransformSystem::Transform,
    ]);
    r
}

impl<W, R, S: BuildSystem<TransformSystem>, L, F> SystemBundle<W, R, S, L, F> for TransformBundle {
    fn load(
        &mut self,
        world: &mut W,
        resources: &mut R,
        builder: &mut DispatcherBuilder<S, L, F, Self>,
    ) -> (r: Result<(), Error>)
        ensures
            r is Ok,
            systems_of_kinds(final(builder)@, 0, transform_system_order()),
    {
        let kinds = transform_systems();
        builder.add_systems(&kinds);
        assert forall|i: int| 0 <= i < builder@.len() implies (#[trigger] builder@[i]) is System by {
            assert(builder@[0 + i] is System);
        }
        Ok(())
    }

    fn unload(&mut self, world: &mut W, resources: &mut R) -> (r: Result<(), Error>) {
        Ok(())
    }
}

} // verus!
