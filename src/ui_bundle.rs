//! The UI bundle: every system that the UI needs, in an order that runs
//! each one after those whose results it reads.

use std::marker::PhantomData;
use vstd::prelude::*;
use crate::dispatcher::{BuildSystem, DispatcherBuilder, Error, SystemBundle, systems_of_kinds};

verus! {

/// The systems that the UI bundle registers.
#[derive(Debug, Clone, Copy, PartialEq, Eq, Structural)]
pub enum UiSystem {
    /// Loads UI definitions.
    Loader,
    /// Resolves the layout of UI transforms.
    Transform,
    /// Turns mouse input into UI events.
    Mouse,
    /// Processes font assets.
    FontProcessor,
    /// Caches the selection order.
    SelectionOrderCache,
    /// Selects elements with the mouse.
    MouseSelection,
    /// Selects elements with the keyboard.
    KeyboardSelection,
    /// Edits text with the mouse.
    TextEditingMouse,
    /// Edits text with the keyboard.
    TextEditingInput,
    /// Calls resize callbacks.
    Resize,
    /// Drives buttons.
    Button,
    /// Drags draggable widgets.
    Drag,
    /// Re-triggers button actions.
    ButtonActionRetrigger,
    /// Plays UI sounds.
    Sound,
    /// Re-triggers UI sounds.
    SoundRetrigger,
    /// Makes the text cursor blink.
    Blink,
}

/// The kinds of the UI systems, in the order they are added: each comes
/// after the systems it depends on.
pub open spec fn ui_system_order() -> Seq<UiSystem> {
    seq![
        UiSystem::Loader,
        UiSystem::Transform,
        UiSystem::Mouse,
        UiSystem::FontProcessor,
        UiSystem::SelectionOrderCache,
        UiSystem::MouseSelection,
        UiSystem::KeyboardSelection,
        UiSystem::TextEditingMouse,
        UiSystem::TextEditingInput,
        UiSystem::Resize,
        UiSystem::Button,
        UiSystem::Drag,
        UiSystem::ButtonActionRetrigger,
        UiSystem::Sound,
        UiSystem::SoundRetrigger,
        UiSystem::Blink,
    ]
}

/// The kinds of the UI systems, in the order they are added.
pub fn ui_systems() -> (r: Vec<UiSystem>)
    ensures
        r@ == ui_system_order(),
{
    let r = vec![
        UiSystem::Loader,
        UiSystem::Transform,
        UiSystem::Mouse,
        UiSystem::FontProcessor,
        UiSystem::SelectionOrderCache,
        UiSystem::MouseSelection,
        UiSystem::KeyboardSelection,
        UiSystem::TextEditingMouse,
        UiSystem::TextEditingInput,
        UiSystem::Resize,
        UiSystem::Button,
        UiSystem::Drag,
        UiSystem::ButtonActionRetrigger,
        UiSystem::Sound,
        UiSystem::SoundRetrigger,
        UiSystem::Blink,
    ];
    assert(r@ =~= ui_system_order());
    r
}

/// UI bundle: registers all the systems needed for UI. `C` is the custom
/// widget type, `I` the widget identifier and `G` the selection group.
#[derive(Debug)]
pub struct UiBundle<C, I, G> {
    _marker: PhantomData<(C, I, G)>,
}

impl<C, I, G> UiBundle<C, I, G> {
    /// A UI bundle.
    pub fn new() -> (r: Self) {
        UiBundle { _marker: PhantomData }
    }
}

impl<C, I, G, Wd, Rs, S: BuildSystem<UiSystem>, L, F> SystemBundle<Wd, Rs, S, L, F> for UiBundle<
    C,
    I,
    G,
> {
    fn load(
        &mut self,
        world: &mut Wd,
        resources: &mut Rs,
        builder: &mut DispatcherBuilder<S, L, F, Self>,
    ) -> (r: Result<(), Error>)
        ensures
            r is Ok,
            systems_of_kinds(final(builder)@, 0, ui_system_order()),
    {
        let kinds = ui_systems();
        builder.add_systems(&kinds);
        assert forall|i: int| 0 <= i < builder@.len() implies (#[trigger] builder@[i]) is System by {
            assert(builder@[0 + i] is System);
        }
        Ok(())
    }

    fn unload(&mut self, world: &mut Wd, resources: &mut Rs) -> (r: Result<(), Error>) {
        Ok(())
    }
}

} // verus!
