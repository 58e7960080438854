use glyph_brush::{HorizontalAlign, VerticalAlign};
use amethyst::blink::{build_blink_system, Blink, BlinkSystem, HiddenChange};
use amethyst::ecs::Entity;
use amethyst::layout::{layout_order, Anchor, ScaleMode};
use amethyst::tag::{Tag, TagFinder};

const SECOND: u64 = 1_000_000_000;

#[test]
fn anchor_offsets_in_half_units() {
    assert_eq!(Anchor::TopLeft.norm_offset(), (-1, 1));
    assert_eq!(Anchor::TopMiddle.norm_offset(), (0, 1));
    assert_eq!(Anchor::TopRight.norm_offset(), (1, 1));
    assert_eq!(Anchor::MiddleLeft.norm_offset(), (-1, 0));
    assert_eq!(Anchor::Middle.norm_offset(), (0, 0));
    assert_eq!(Anchor::MiddleRight.norm_offset(), (1, 0));
    assert_eq!(Anchor::BottomLeft.norm_offset(), (-1, -1));
    assert_eq!(Anchor::BottomMiddle.norm_offset(), (0, -1));
    assert_eq!(Anchor::BottomRight.norm_offset(), (1, -1));
    assert_ne!(ScaleMode::Pixel, ScaleMode::Percent);
}

#[test]
fn layout_order_puts_parents_first() {
    // 0 <- 2 <- 1, and 3 is a root.
    let parents = vec![None, Some(2), Some(0), None];
    assert_eq!(layout_order(&parents), vec![0, 3, 2, 1]);
}

#[test]
fn layout_order_skips_missing_parents_and_cycles() {
    // 1 has a parent with no layout entry, 2 is its child, 3 and 4 form a cycle.
    let parents = vec![None, Some(9), Some(1), Some(4), Some(3), Some(0)];
    assert_eq!(layout_order(&parents), vec![0, 5]);
    assert_eq!(layout_order(&vec![]), Vec::<usize>::new());
    assert_eq!(layout_order(&vec![Some(0)]), Vec::<usize>::new());
}

#[test]
fn blink_toggles_after_half_period() {
    let system: BlinkSystem = build_blink_system();
    let mut blink = Blink { delay: SECOND, timer: 4 * SECOND / 10, absolute_time: false };
    // Visible: the marker, absent, stays absent.
    assert_eq!(system.update(&mut blink, 0, 123, false), HiddenChange::Keep);
    assert_eq!(blink.timer, 4 * SECOND / 10);
    // Advancing by 0.2 s crosses the half period: the entity is hidden.
    assert_eq!(system.update(&mut blink, 2 * SECOND / 10, 0, false), HiddenChange::Add);
    assert_eq!(blink.timer, 6 * SECOND / 10);
    // Already hidden: no redundant write.
    assert_eq!(system.update(&mut blink, 0, 0, true), HiddenChange::Keep);
}

#[test]
fn blink_wraps_and_keeps_overflow() {
    let system = build_blink_system();
    let mut blink = Blink { delay: SECOND, timer: 9 * SECOND / 10, absolute_time: true };
    // Absolute time uses the unscaled delta.
    assert_eq!(system.update(&mut blink, 0, 3 * SECOND / 10, true), HiddenChange::Remove);
    assert_eq!(blink.timer, 2 * SECOND / 10);
    // Exactly the delay does not wrap, and the second half is hidden.
    let mut edge = Blink { delay: 10, timer: 0, absolute_time: false };
    assert_eq!(system.update(&mut edge, 10, 0, false), HiddenChange::Add);
    assert_eq!(edge.timer, 10);
    // Exactly half the delay is hidden.
    let mut half = Blink { delay: 10, timer: 0, absolute_time: false };
    assert_eq!(system.update(&mut half, 5, 0, false), HiddenChange::Add);
}

#[test]
fn blink_run_updates_every_entity() {
    let system = build_blink_system();
    let mut blinks = vec![
        Blink { delay: 10, timer: 0, absolute_time: false },
        Blink { delay: 10, timer: 3, absolute_time: true },
    ];
    let changes = system.run(&mut blinks, &vec![true, false], 2, 6);
    assert_eq!(changes, vec![HiddenChange::Remove, HiddenChange::Add]);
    assert_eq!(blinks[0].timer, 2);
    assert_eq!(blinks[1].timer, 9);
}

struct Player;

#[test]
fn tag_finder_returns_first_tagged_entity() {
    let finder: TagFinder<Player> = TagFinder::new();
    let entities = vec![
        (Entity { id: 4 }, None),
        (Entity { id: 7 }, Some(Tag::<Player>::new())),
        (Entity { id: 9 }, Some(Tag::<Player>::default())),
    ];
    assert_eq!(finder.find(&entities), Some(Entity { id: 7 }));
    let none: Vec<(Entity, Option<Tag<Player>>)> = vec![(Entity { id: 1 }, None)];
    assert_eq!(finder.find(&none), None);
    assert_eq!(finder.find(&Vec::new()), None);
}

#[test]
fn anchors_align_text() {
    assert_eq!(Anchor::TopLeft.vertical_align(), VerticalAlign::Top);
    assert_eq!(Anchor::TopLeft.horizontal_align(), HorizontalAlign::Left);
    assert_eq!(Anchor::Middle.vertical_align(), VerticalAlign::Center);
    assert_eq!(Anchor::Middle.horizontal_align(), HorizontalAlign::Center);
    assert_eq!(Anchor::BottomRight.vertical_align(), VerticalAlign::Bottom);
    assert_eq!(Anchor::BottomRight.horizontal_align(), HorizontalAlign::Right);
    assert_eq!(Anchor::MiddleRight.vertical_align(), VerticalAlign::Center);
    assert_eq!(Anchor::BottomMiddle.horizontal_align(), HorizontalAlign::Center);
}
