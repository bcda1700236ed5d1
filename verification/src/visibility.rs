//! The window visibility state machine.
//!
//! A single window is either `Visible` or `Hidden`. The initial state is a
//! pure function of the persisted start-minimized preference and a
//! command-line marker; afterwards the state changes only through the two
//! transitions: a close request hides the window (it never terminates the
//! process), and a tray activation restores it.

use vstd::prelude::*;

verus! {

/// Whether the main window is currently shown or hidden.
#[derive(Clone, Copy, Debug, PartialEq, Eq, Structural)]
pub enum WindowVisibilityState {
    Visible,
    Hidden,
}

/// A fire-and-forget request handed to the window collaborator after a
/// transition; the collaborator's failure to apply it is ignored.
#[derive(Clone, Copy, Debug, PartialEq, Eq, Structural)]
pub enum WindowAction {
    /// Show the window and give it input focus.
    ShowAndFocus,
    /// Hide the window without destroying it.
    Hide,
}

/// The initial visibility: hidden when either the persisted preference or the
/// process-start marker asks for it, visible only when neither does.
pub open spec fn spec_initial_state(start_minimized: bool, minimized_marker: bool) -> WindowVisibilityState {
    if start_minimized || minimized_marker {
        WindowVisibilityState::Hidden
    } else {
        WindowVisibilityState::Visible
    }
}

/// Owns the visibility state of the single main window.
pub struct VisibilityController {
    pub state: WindowVisibilityState,
}

impl VisibilityController {
    /// Computes the initial state once at startup. Either signal alone is
    /// sufficient to suppress the initial show.
    pub fn initialize(start_minimized: bool, minimized_marker: bool) -> (c: Self)
        ensures
            c.state == spec_initial_state(start_minimized, minimized_marker),
            c.state is Hidden <==> (start_minimized || minimized_marker),
    {
        if start_minimized || minimized_marker {
            VisibilityController { state: WindowVisibilityState::Hidden }
        } else {
            VisibilityController { state: WindowVisibilityState::Visible }
        }
    }

    /// Intercepts the window's native close intent: whatever the prior state,
    /// the window ends up hidden and the process keeps running; the returned
    /// action asks the collaborator to hide, never to terminate.
    pub fn on_close_requested(&mut self) -> (a: WindowAction)
        ensures
            final(self).state is Hidden,
            a is Hide,
    {
        self.state = WindowVisibilityState::Hidden;
        WindowAction::Hide
    }

    /// Restores the window on tray activation: the state becomes `Visible`
    /// even when it already was, so a second activation is harmless.
    pub fn restore(&mut self) -> (a: WindowAction)
        ensures
            final(self).state is Visible,
            a is ShowAndFocus,
    {
        self.state = WindowVisibilityState::Visible;
        WindowAction::ShowAndFocus
    }
}

} // verus!
