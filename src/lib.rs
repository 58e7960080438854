//! Dispatcher scheduling and UI layout logic of a small game-engine core.

pub mod layout;
pub mod dispatcher;
pub mod ecs;
pub mod blink;
pub mod tag;
pub mod transform;
pub mod ui_bundle;
pub mod drag;
pub mod resize;
