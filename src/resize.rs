//! The resize system: decides whose resize callback runs in a frame. The
//! callbacks themselves are the host's.

use vstd::prelude::*;
use crate::ecs::Entity;

verus! {

/// A change to an entity's resize component, as the store reports it.
#[derive(Debug, Clone, Copy, PartialEq, Eq, Structural)]
pub enum ComponentEvent {
    /// The component was inserted.
    Inserted(Entity),
    /// The component was modified.
    Modified(Entity),
    /// The component was removed.
    Removed(Entity),
}

/// Calls resize callbacks whenever the screen is resized, and for the
/// components inserted or modified since the previous frame.
#[derive(Debug)]
pub struct ResizeSystem {
    screen_size: (u32, u32),
}

/// The event inserts or modifies the component of `e`.
pub open spec fn touches(ev: ComponentEvent, e: Entity) -> bool {
    ev == ComponentEvent::Inserted(e) || ev == ComponentEvent::Modified(e)
}

/// The component of `e` was inserted or modified by one of the events.
pub open spec fn modified(events: Seq<ComponentEvent>, e: Entity) -> bool {
    exists|k: int| 0 <= k < events.len() && touches(#[trigger] events[k], e)
}

/// Whether the callback of `e` runs this frame.
pub open spec fn needs_resize(changed: bool, events: Seq<ComponentEvent>, e: Entity) -> bool {
    changed || modified(events, e)
}

impl ResizeSystem {
    /// A system that has seen no screen yet: the size it remembers is zero
    /// by zero.
    pub fn new() -> (r: Self)
        ensures
            r.last_screen_size() == (0u32, 0u32),
    {
        ResizeSystem { screen_size: (0, 0) }
    }

    /// The last screen size seen. Each dimension is an exact encoding of the
    /// host's value: two sizes are the same exactly when the encodings are.
    pub closed spec fn last_screen_size(&self) -> (u32, u32) {
        self.screen_size
    }

    /// One frame: `entities` are those with a resize component and a UI
    /// transform, `events` the changes to resize components since the
    /// previous frame, other than those the callbacks made. When the screen
    /// size changed, every callback runs; otherwise only those of entities
    /// whose component was inserted or modified. The result lists the
    /// entities whose callback runs, in the order of `entities`.
    pub fn run(&mut self, screen_size: (u32, u32), entities: &Vec<Entity>, events: &Vec<ComponentEvent>) -> (r: Vec<Entity>)
        ensures
            final(self).last_screen_size() == screen_size,
            r@ == entities@.filter(
                |e: Entity| needs_resize(old(self).last_screen_size() != screen_size, events@, e),
            ),
    {
        let changed = self.screen_size.0 != screen_size.0 || self.screen_size.1 != screen_size.1;
        self.screen_size = screen_size;
        let ghost pred = |e: Entity| needs_resize(changed, events@, e);
        let mut out: Vec<Entity> = Vec::new();
        let mut i: usize = 0;
        while i < entities.len()
            invariant
                i <= entities@.len(),
                out@ == entities@.take(i as int).filter(pred),
                pred == (|e: Entity| needs_resize(changed, events@, e)),
            decreases entities@.len() - i,
        {
            let e = entities[i];
            let run = changed || was_modified(events, e);
            proof {
                reveal(Seq::filter);
                assert(entities@.take(i + 1).drop_last() =~= entities@.take(i as int));
                assert(entities@.take(i + 1).last() == e);
            }
            if run {
                out.push(e);
            }
            i = i + 1;
        }
        proof {
            assert(entities@.take(entities@.len() as int) =~= entities@);
        }
        out
    }
}

fn was_modified(events: &Vec<ComponentEvent>, e: Entity) -> (r: bool)
    ensures
        r == modified(events@, e),
{
    let mut i: usize = 0;
    while i < events.len()
        invariant
            i <= events@.len(),
            forall|k: int| 0 <= k < i ==> !touches(#[trigger] events@[k], e),
        decreases events@.len() - i,
    {
        let hit = match events[i] {
            ComponentEvent::Inserted(x) => x == e,
            ComponentEvent::Modified(x) => x == e,
            ComponentEvent::Removed(_) => false,
        };
        if hit {
            assert(touches(events@[i as int], e));
            return true;
        }
        i = i + 1;
    }
    false
}

} // verus!
