//! The requests that the desktop panel menu sends over the session bus.
use vstd::prelude::*;

verus! {

/// A request for the running program.
#[derive(Debug, Clone, Copy, PartialEq, Eq, Structural)]
pub enum UiEvent {
    OpenSettings,
    Quit,
}

/// The object exported on the session bus.
pub struct Service;

impl Service {
    /// The panel's "Settings…" item asks for the settings.
    pub fn open_settings(&self) -> (e: UiEvent)
        ensures
            e == UiEvent::OpenSettings,
    {
        UiEvent::OpenSettings
    }

    /// The panel's "Quit" item asks the program to quit.
    pub fn quit(&self) -> (e: UiEvent)
        ensures
            e == UiEvent::Quit,
    {
        UiEvent::Quit
    }
}

} // verus!
