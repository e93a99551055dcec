//! A fine-grained reactive dataflow core.
//!
//! Mutable state cells ("signals"), derived cached computations ("memos") and
//! side-effecting subscribers ("effects") are wired together by automatic
//! dependency tracking: reading a cell while a subscriber is on the tracking
//! stack registers a dependency edge, and writing a signal re-runs exactly the
//! computations that depend on it. Every cell is owned by a scope; disposing a
//! scope permanently severs the reactivity of everything created under it, in
//! all descendant scopes.

pub mod value;
pub mod handles;
pub mod slots;
pub mod state;
pub mod runtime;
pub mod scope;
pub mod engine;
pub mod signal;
pub mod memo;
pub mod effect;
pub mod context;
