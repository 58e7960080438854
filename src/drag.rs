//! Dragging of UI widgets: which entities are being dragged, and which are
//! dropped, as clicks arrive and entities get hidden. The mouse positions
//! and the moves of the transforms are the host's.

use vstd::prelude::*;
use crate::ecs::Entity;

verus! {

/// Component that denotes whether a given UI widget is draggable.
#[derive(Debug, Clone, Copy, PartialEq, Eq, Structural)]
pub struct Draggable;

/// Whether a click started or stopped.
#[derive(Debug, Clone, Copy, PartialEq, Eq, Structural)]
pub enum ClickKind {
    /// The mouse button went down on the target.
    Start,
    /// The mouse button went up on the target.
    Stop,
}

/// A click event of the UI, as the drag system reads it.
#[derive(Debug, Clone, Copy, PartialEq, Eq, Structural)]
pub struct Click {
    /// Start or stop.
    pub kind: ClickKind,
    /// The entity clicked.
    pub target: Entity,
    /// Whether the target has a [`Draggable`] component.
    pub draggable: bool,
}

/// What the drag system does in one frame.
#[derive(Debug)]
pub struct DragFrame {
    /// Entities whose drag starts, in event order: their initial and last
    /// mouse positions become the current one.
    pub started: Vec<Entity>,
    /// Entities dragged this frame, each once: each gets a `Dragging` event
    /// and follows the mouse.
    pub dragged: Vec<Entity>,
    /// Entities dropped this frame, in drag order: each gets a `Dropped`
    /// event and is no longer dragged.
    pub released: Vec<Entity>,
}

/// Records the entities being dragged, in the order their drag started.
#[derive(Debug)]
pub struct DragWidgetSystem {
    ui_reader_id: u64,
    recorded: Vec<Entity>,
}

pub open spec fn is_drag_start(c: Click) -> bool {
    c.kind is Start && c.draggable
}

/// The recorded entities after one click: a click starting on a draggable
/// entity tracks it, once.
pub open spec fn track(recorded: Seq<Entity>, c: Click) -> Seq<Entity> {
    if is_drag_start(c) && !recorded.contains(c.target) {
        recorded.push(c.target)
    } else {
        recorded
    }
}

/// The recorded entities after the clicks, in order.
pub open spec fn recorded_after(recorded: Seq<Entity>, clicks: Seq<Click>) -> Seq<Entity>
    decreases clicks.len(),
{
    if clicks.len() == 0 {
        recorded
    } else {
        track(recorded_after(recorded, clicks.drop_last()), clicks.last())
    }
}

/// The entities whose click stopped while they were recorded.
pub open spec fn stopped_after(recorded: Seq<Entity>, clicks: Seq<Click>) -> Set<Entity>
    decreases clicks.len(),
{
    if clicks.len() == 0 {
        Set::empty()
    } else {
        let before = recorded_after(recorded, clicks.drop_last());
        let s = stopped_after(recorded, clicks.drop_last());
        let c = clicks.last();
        if c.kind is Stop && before.contains(c.target) {
            s.insert(c.target)
        } else {
            s
        }
    }
}

/// The targets of the clicks that start a drag, in order.
pub open spec fn drag_starts(clicks: Seq<Click>) -> Seq<Entity>
    decreases clicks.len(),
{
    if clicks.len() == 0 {
        Seq::empty()
    } else if is_drag_start(clicks.last()) {
        drag_starts(clicks.drop_last()).push(clicks.last().target)
    } else {
        drag_starts(clicks.drop_last())
    }
}

/// A recorded entity is released when its click stopped or it is hidden.
pub open spec fn is_released(stopped: Set<Entity>, hidden: Seq<Entity>, e: Entity) -> bool {
    stopped.contains(e) || hidden.contains(e)
}

fn contains(v: &Vec<Entity>, e: Entity) -> (r: bool)
    ensures
        r == v@.contains(e),
{
    let mut i: usize = 0;
    while i < v.len()
        invariant
            i <= v@.len(),
            forall|j: int| 0 <= j < i ==> v@[j] != e,
        decreases v@.len() - i,
    {
        if v[i] == e {
            return true;
        }
        i = i + 1;
    }
    false
}

impl DragWidgetSystem {
    /// A system reading UI events from the reader position `ui_reader_id`,
    /// dragging nothing yet.
    pub fn new(ui_reader_id: u64) -> (r: Self)
        ensures
            r.reader_position() == ui_reader_id,
            r.recorded().len() == 0,
    {
        DragWidgetSystem { ui_reader_id, recorded: Vec::new() }
    }

    /// The entities being dragged.
    pub closed spec fn recorded(&self) -> Seq<Entity> {
        self.recorded@
    }

    /// The position of this system in the UI event channel.
    pub closed spec fn reader_position(&self) -> u64 {
        self.ui_reader_id
    }

    /// The position of this system in the UI event channel.
    pub fn reader_id(&self) -> (r: u64)
        ensures
            r == self.reader_position(),
    {
        self.ui_reader_id
    }

    /// Advances the position in the UI event channel past `count` events.
    pub fn advance_reader(&mut self, count: u64)
        requires
            old(self).reader_position() + count <= u64::MAX,
        ensures
            final(self).reader_position() == old(self).reader_position() + count,
            final(self).recorded() == old(self).recorded(),
    {
        self.ui_reader_id = self.ui_reader_id + count;
    }

    /// The entities being dragged, in the order their drag started.
    pub fn dragging(&self) -> (r: &Vec<Entity>)
        ensures
            r@ == self.recorded(),
    {
        &self.recorded
    }

    /// Handles one frame: the clicks read this frame, in order, and the
    /// entities that are hidden, directly or through a parent. Every entity
    /// recorded after the clicks is dragged; those whose click stopped while
    /// recorded, or that are hidden, are then released and no longer recorded.
    pub fn update(&mut self, clicks: &Vec<Click>, hidden: &Vec<Entity>) -> (r: DragFrame)
        ensures
            r.started@ == drag_starts(clicks@),
            r.dragged@ == recorded_after(old(self).recorded(), clicks@),
            r.released@ == r.dragged@.filter(
                |e: Entity| is_released(stopped_after(old(self).recorded(), clicks@), hidden@, e),
            ),
            final(self).recorded() == r.dragged@.filter(
                |e: Entity| !is_released(stopped_after(old(self).recorded(), clicks@), hidden@, e),
            ),
            final(self).reader_position() == old(self).reader_position(),
    {
        let ghost t0 = self.recorded@;
        let mut stopped: Vec<Entity> = Vec::new();
        let mut started: Vec<Entity> = Vec::new();
        let mut i: usize = 0;
        while i < clicks.len()
            invariant
                i <= clicks@.len(),
                self.recorded@ == recorded_after(t0, clicks@.take(i as int)),
                started@ == drag_starts(clicks@.take(i as int)),
                forall|e: Entity| stopped@.contains(e) <==> stopped_after(t0, clicks@.take(i as int)).contains(e),
                self.ui_reader_id == old(self).ui_reader_id,
            decreases clicks@.len() - i,
        {
            let c = clicks[i];
            let ghost stopped0 = stopped@;
            proof {
                assert(clicks@.take(i + 1).drop_last() =~= clicks@.take(i as int));
                assert(clicks@.take(i + 1).last() == c);
            }
            let known = contains(&self.recorded, c.target);
            match c.kind {
                ClickKind::Start => {
                    if c.draggable {
                        if !known {
                            self.recorded.push(c.target);
                        }
                        started.push(c.target);
                    }
                },
                ClickKind::Stop => {
                    if known {
                        stopped.push(c.target);
                    }
                },
            }
            proof {
                assert forall|e: Entity| stopped@.contains(e) <==> stopped_after(
                    t0,
                    clicks@.take(i + 1),
                ).contains(e) by {
                    if stopped@ != stopped0 {
                        assert(stopped@ == stopped0.push(c.target));
                        if stopped@.contains(e) && e != c.target {
                            let j = choose|j: int| 0 <= j < stopped@.len() && stopped@[j] == e;
                            assert(stopped0[j] == e);
                        }
                        if stopped0.contains(e) {
                            let j = choose|j: int| 0 <= j < stopped0.len() && stopped0[j] == e;
                            assert(stopped@[j] == e);
                        }
                        assert(stopped@[stopped0.len() as int] == c.target);
                    }
                }
            }
            i = i + 1;
        }
        proof {
            assert(clicks@.take(clicks@.len() as int) =~= clicks@);
        }
        let ghost s = stopped_after(t0, clicks@);
        let ghost dragged_seq = self.recorded@;
        let ghost keep_pred = |e: Entity| !is_released(s, hidden@, e);
        let ghost drop_pred = |e: Entity| is_released(s, hidden@, e);
        let mut dragged: Vec<Entity> = Vec::new();
        let mut released: Vec<Entity> = Vec::new();
        let mut kept: Vec<Entity> = Vec::new();
        let n = self.recorded.len();
        let mut k: usize = 0;
        while k < n
            invariant
                k <= n == dragged_seq.len(),
                self.recorded@ == dragged_seq,
                dragged@ == dragged_seq.take(k as int),
                released@ == dragged_seq.take(k as int).filter(drop_pred),
                kept@ == dragged_seq.take(k as int).filter(keep_pred),
                forall|e: Entity| stopped@.contains(e) <==> s.contains(e),
                keep_pred == (|e: Entity| !is_released(s, hidden@, e)),
                drop_pred == (|e: Entity| is_released(s, hidden@, e)),
            decreases n - k,
        {
            let e = self.recorded[k];
            let gone = contains(&stopped, e) || contains(hidden, e);
            proof {
                reveal(Seq::filter);
                assert(dragged_seq.take(k + 1).drop_last() =~= dragged_seq.take(k as int));
                assert(dragged_seq.take(k + 1).last() == e);
                assert(gone == drop_pred(e));
            }
            dragged.push(e);
            if gone {
                released.push(e);
            } else {
                kept.push(e);
            }
            k = k + 1;
            proof {
                assert(dragged@ =~= dragged_seq.take(k as int));
            }
        }
        proof {
            assert(dragged_seq.take(n as int) =~= dragged_seq);
        }
        self.recorded = kept;
        DragFrame { started, dragged, released }
    }
}

} // verus!
