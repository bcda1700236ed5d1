use pingvoice_shell::visibility::{VisibilityController, WindowAction, WindowVisibilityState};

#[test]
fn initial_visibility_all_four_combinations() {
    // Hidden iff the preference or the marker asks for it.
    let c = VisibilityController::initialize(false, false);
    assert_eq!(c.state, WindowVisibilityState::Visible);
    let c = VisibilityController::initialize(true, false);
    assert_eq!(c.state, WindowVisibilityState::Hidden);
    let c = VisibilityController::initialize(false, true);
    assert_eq!(c.state, WindowVisibilityState::Hidden);
    let c = VisibilityController::initialize(true, true);
    assert_eq!(c.state, WindowVisibilityState::Hidden);
}

#[test]
fn close_requested_hides_whatever_the_prior_state() {
    let mut c = VisibilityController::initialize(false, false);
    assert_eq!(c.state, WindowVisibilityState::Visible);
    let a = c.on_close_requested();
    assert_eq!(c.state, WindowVisibilityState::Hidden);
    assert_eq!(a, WindowAction::Hide);

    // Already hidden: still hidden, still only a hide request.
    let a = c.on_close_requested();
    assert_eq!(c.state, WindowVisibilityState::Hidden);
    assert_eq!(a, WindowAction::Hide);
}

#[test]
fn restore_shows_and_is_idempotent() {
    let mut c = VisibilityController::initialize(true, false);
    assert_eq!(c.state, WindowVisibilityState::Hidden);
    let a = c.restore();
    assert_eq!(c.state, WindowVisibilityState::Visible);
    assert_eq!(a, WindowAction::ShowAndFocus);

    // Restoring while already visible keeps the window visible.
    let a = c.restore();
    assert_eq!(c.state, WindowVisibilityState::Visible);
    assert_eq!(a, WindowAction::ShowAndFocus);
}

#[test]
fn close_then_restore_cycles() {
    let mut c = VisibilityController::initialize(false, false);
    c.on_close_requested();
    assert_eq!(c.state, WindowVisibilityState::Hidden);
    c.restore();
    assert_eq!(c.state, WindowVisibilityState::Visible);
    c.on_close_requested();
    assert_eq!(c.state, WindowVisibilityState::Hidden);
}
