//! The Blink component and the blink system: an entity is periodically
//! shown and hidden.

use vstd::prelude::*;

verus! {

/// Periodically adds and removes a `Hidden` marker on the entity it is
/// attached to. Durations are in nanoseconds.
///
/// During the first half period, `[0, delay/2[`, the entity is visible;
/// during the second half, `[delay/2, delay]`, it is hidden.
#[derive(Debug, Clone, Copy, PartialEq, Eq, Structural)]
pub struct Blink {
    /// Period of a full blink cycle.
    pub delay: u64,
    /// Timer value keeping track of the time during the blink cycle.
    pub timer: u64,
    /// Whether to use the unscaled (real) time rather than the scaled one.
    pub absolute_time: bool,
}

/// What the blink system does to an entity's `Hidden` marker.
#[derive(Debug, Clone, Copy, PartialEq, Eq, Structural)]
pub enum HiddenChange {
    /// Add the marker: the entity becomes hidden.
    Add,
    /// Remove the marker: the entity becomes visible.
    Remove,
    /// Leave the marker as it is.
    Keep,
}

/// System updating the [`Blink`] component.
#[derive(Debug, Clone, Copy, PartialEq, Eq, Structural)]
pub struct BlinkSystem;

/// The frame time that a blink advances by: the unscaled one when it uses
/// absolute time, the scaled one otherwise.
pub open spec fn blink_delta(b: Blink, delta: u64, delta_real: u64) -> int {
    if b.absolute_time {
        delta_real as int
    } else {
        delta as int
    }
}

/// The timer after one frame: advanced, and brought back by one period when
/// the cycle ended, keeping the overflow.
pub open spec fn next_timer(b: Blink, delta: u64, delta_real: u64) -> int {
    let t = b.timer + blink_delta(b, delta, delta_real);
    if t > b.delay {
        t - b.delay
    } else {
        t
    }
}

/// The entity is visible in the first half of the period.
pub open spec fn blink_visible(timer: int, delay: int) -> bool {
    2 * timer < delay
}

/// The change that makes the marker reflect the visibility, with no
/// redundant write.
pub open spec fn hidden_change(visible: bool, hidden: bool) -> HiddenChange {
    if visible && hidden {
        HiddenChange::Remove
    } else if !visible && !hidden {
        HiddenChange::Add
    } else {
        HiddenChange::Keep
    }
}

/// The advanced timer fits in its type.
pub open spec fn fits(b: Blink, delta: u64, delta_real: u64) -> bool {
    b.timer + blink_delta(b, delta, delta_real) <= u64::MAX
}

/// Creates the blink system.
pub fn build_blink_system() -> (r: BlinkSystem)
    ensures
        r == BlinkSystem,
{
    BlinkSystem
}

impl BlinkSystem {
    /// Advances one blink by a frame of `delta` (scaled) or `delta_real`
    /// (unscaled) nanoseconds, and returns what to do with the entity's
    /// `Hidden` marker, which is present when `hidden` holds.
    pub fn update(&self, blink: &mut Blink, delta: u64, delta_real: u64, hidden: bool) -> (r: HiddenChange)
        requires
            fits(*old(blink), delta, delta_real),
        ensures
            final(blink).timer == next_timer(*old(blink), delta, delta_real),
            final(blink).delay == old(blink).delay,
            final(blink).absolute_time == old(blink).absolute_time,
            r == hidden_change(blink_visible(final(blink).timer as int, final(blink).delay as int), hidden),
    {
        let step = if blink.absolute_time {
            delta_real
        } else {
            delta
        };
        blink.timer = blink.timer + step;
        if blink.timer > blink.delay {
            blink.timer = blink.timer - blink.delay;
        }
        let visible = (blink.timer as u128) * 2 < blink.delay as u128;
        if visible && hidden {
            HiddenChange::Remove
        } else if !visible && !hidden {
            HiddenChange::Add
        } else {
            HiddenChange::Keep
        }
    }

    /// Runs the system over every blinking entity: `blinks[i]` is advanced and
    /// `r[i]` is the change to its marker, present when `hidden[i]` holds.
    pub fn run(&self, blinks: &mut Vec<Blink>, hidden: &Vec<bool>, delta: u64, delta_real: u64) -> (r: Vec<HiddenChange>)
        requires
            old(blinks)@.len() == hidden@.len(),
            forall|i: int| 0 <= i < old(blinks)@.len() ==> fits(#[trigger] old(blinks)@[i], delta, delta_real),
        ensures
            final(blinks)@.len() == old(blinks)@.len(),
            r@.len() == old(blinks)@.len(),
            forall|i: int| 0 <= i < r@.len() ==> {
                &&& (#[trigger] final(blinks)@[i]).timer == next_timer(old(blinks)@[i], delta, delta_real)
                &&& final(blinks)@[i].delay == old(blinks)@[i].delay
                &&& final(blinks)@[i].absolute_time == old(blinks)@[i].absolute_time
                &&& r@[i] == hidden_change(
                    blink_visible(final(blinks)@[i].timer as int, final(blinks)@[i].delay as int),
                    hidden@[i],
                )
            },
    {
        let n = blinks.len();
        let mut changes: Vec<HiddenChange> = Vec::new();
        let mut i: usize = 0;
        while i < n
            invariant
                n == blinks@.len() == old(blinks)@.len() == hidden@.len(),
                i <= n,
                changes@.len() == i,
                forall|k: int| i <= k < n ==> #[trigger] blinks@[k] == old(blinks)@[k],
                forall|k: int| 0 <= k < n ==> fits(#[trigger] old(blinks)@[k], delta, delta_real),
                forall|k: int| 0 <= k < i ==> {
                    &&& (#[trigger] blinks@[k]).timer == next_timer(old(blinks)@[k], delta, delta_real)
                    &&& blinks@[k].delay == old(blinks)@[k].delay
                    &&& blinks@[k].absolute_time == old(blinks)@[k].absolute_time
                    &&& changes@[k] == hidden_change(
                        blink_visible(blinks@[k].timer as int, blinks@[k].delay as int),
                        hidden@[k],
                    )
                },
            decreases n - i,
        {
            let mut b = blinks[i];
            let change = self.update(&mut b, delta, delta_real, hidden[i]);
            blinks.set(i, b);
            changes.push(change);
            i = i + 1;
        }
        changes
    }
}

} // verus!
