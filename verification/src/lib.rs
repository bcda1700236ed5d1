//! Core of a desktop launcher shell: the persisted configuration lifecycle
//! and the window visibility state machine.
//!
//! The shell loads a small user configuration (dashboard URL, autostart flag,
//! start-minimized flag), decides whether the main window starts visible or
//! hidden, and hides the window instead of quitting when a close is requested.
//! The webview, tray icon and OS autostart registration are external
//! collaborators; this crate only computes what to ask of them.

pub mod codec;
pub mod config;
pub mod startup;
pub mod visibility;
