use amethyst::drag::{Click, ClickKind, DragWidgetSystem};
use amethyst::ecs::Entity;
use amethyst::resize::{ComponentEvent, ResizeSystem};

fn e(id: u64) -> Entity {
    Entity { id }
}

fn start(id: u64, draggable: bool) -> Click {
    Click { kind: ClickKind::Start, target: e(id), draggable }
}

fn stop(id: u64) -> Click {
    Click { kind: ClickKind::Stop, target: e(id), draggable: true }
}

#[test]
fn drag_starts_on_draggable_and_drops_on_click_stop() {
    let mut system = DragWidgetSystem::new(3);
    assert_eq!(system.reader_id(), 3);
    let frame = system.update(&vec![start(1, true), start(2, false)], &vec![]);
    assert_eq!(frame.started, vec![e(1)]);
    assert_eq!(frame.dragged, vec![e(1)]);
    assert!(frame.released.is_empty());
    assert_eq!(system.dragging(), &vec![e(1)]);

    // Still dragged while the button is held.
    let frame = system.update(&vec![], &vec![]);
    assert_eq!(frame.dragged, vec![e(1)]);

    // A stop on an entity that is not dragged does nothing; the stop on the
    // dragged one drops it after a last drag.
    let frame = system.update(&vec![stop(2), stop(1)], &vec![]);
    assert_eq!(frame.dragged, vec![e(1)]);
    assert_eq!(frame.released, vec![e(1)]);
    assert!(system.dragging().is_empty());
}

#[test]
fn hidden_entities_are_dropped() {
    let mut system = DragWidgetSystem::new(0);
    system.update(&vec![start(1, true), start(2, true), start(1, true)], &vec![]);
    assert_eq!(system.dragging(), &vec![e(1), e(2)]);
    let frame = system.update(&vec![], &vec![e(2), e(9)]);
    assert_eq!(frame.dragged, vec![e(1), e(2)]);
    assert_eq!(frame.released, vec![e(2)]);
    assert_eq!(system.dragging(), &vec![e(1)]);
    system.advance_reader(5);
    assert_eq!(system.reader_id(), 5);
}

#[test]
fn stop_then_restart_in_one_frame_still_drops() {
    let mut system = DragWidgetSystem::new(0);
    system.update(&vec![start(4, true)], &vec![]);
    let frame = system.update(&vec![stop(4), start(4, true)], &vec![]);
    assert_eq!(frame.started, vec![e(4)]);
    assert_eq!(frame.released, vec![e(4)]);
    assert!(system.dragging().is_empty());
}

#[test]
fn resize_runs_all_callbacks_when_screen_changes() {
    let mut system = ResizeSystem::new();
    let entities = vec![e(1), e(2), e(3)];
    let size = (800.0f32.to_bits(), 600.0f32.to_bits());
    assert_eq!(system.run(size, &entities, &vec![]), entities);
    // Same size: only the inserted or modified components.
    let events = vec![
        ComponentEvent::Modified(e(3)),
        ComponentEvent::Removed(e(1)),
        ComponentEvent::Inserted(e(7)),
    ];
    assert_eq!(system.run(size, &entities, &events), vec![e(3)]);
    assert_eq!(system.run(size, &entities, &vec![]), Vec::<Entity>::new());
    // A new size runs every callback again.
    let bigger = (1024.0f32.to_bits(), 600.0f32.to_bits());
    assert_eq!(system.run(bigger, &entities, &vec![]), entities);
}
