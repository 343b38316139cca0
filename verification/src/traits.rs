//! Plain data of the signal traits: lifecycle phases and the closure and
//! mapping wrappers.

use vstd::prelude::*;

verus! {

/// Universal phase model for lifecycle-aware signal evaluation.
#[derive(Debug, Clone, Copy, PartialEq, Eq, Default)]
pub enum Phase {
    /// Beginning, initialization or fade-in.
    Start,
    /// Main active or steady-state phase.
    #[default]
    Active,
    /// Ending, cleanup or fade-out.
    End,
    /// Completed, terminal state.
    Done,
    /// Application-defined phase.
    Custom(u8),
}

/// Wrapper that lets a closure of time be used as a signal.
#[derive(Clone, Copy)]
pub struct Fn1<F>(pub F);

/// Wrapper for closures of time and signal context.
#[derive(Clone, Copy)]
pub struct Fn2<F>(pub F);

/// A signal with a mapping function applied to its output.
#[derive(Debug, Clone)]
pub struct MapSignal<S, F> {
    pub signal: S,
    pub f: F,
}

} // verus!
