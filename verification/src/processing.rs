//! Signal-processing operators: the wrappers and modes that the floating-point
//! signal layer evaluates.

use vstd::prelude::*;

verus! {

/// Takes the absolute value of a signal.
#[derive(Debug, Clone)]
pub struct Abs<S> {
    pub signal: S,
}

impl<S> Abs<S> {
    /// Wraps `signal`.
    pub fn new(signal: S) -> (r: Self)
        ensures
            r.signal == signal,
    {
        Abs { signal }
    }
}

/// Negates a signal.
#[derive(Debug, Clone)]
pub struct Invert<S> {
    pub signal: S,
}

impl<S> Invert<S> {
    /// Wraps `signal`.
    pub fn new(signal: S) -> (r: Self)
        ensures
            r.signal == signal,
    {
        Invert { signal }
    }
}

/// Quantizes a signal to discrete levels within its range.
#[derive(Debug, Clone)]
pub struct Quantize<S> {
    pub signal: S,
    /// Number of discrete levels (at least 2).
    pub levels: u8,
}

impl<S> Quantize<S> {
    /// Wraps `signal` with `levels` levels; fewer than 2 levels become 2.
    pub fn new(signal: S, levels: u8) -> (r: Self)
        ensures
            r.signal == signal,
            r.levels == (if levels >= 2 {
                levels
            } else {
                2
            }),
            r.levels >= 2,
    {
        let levels = if levels >= 2 {
            levels
        } else {
            2
        };
        Quantize { signal, levels }
    }
}

/// Wraps a signal and normalizes its output to `[0, 1]`.
#[derive(Debug, Clone)]
pub struct Normalized<S> {
    signal: S,
}

impl<S> Normalized<S> {
    /// The wrapped signal.
    pub closed spec fn wrapped(&self) -> S {
        self.signal
    }

    /// Wraps `signal`.
    pub fn new(signal: S) -> (r: Self)
        ensures
            r.wrapped() == signal,
    {
        Normalized { signal }
    }

    /// A reference to the wrapped signal.
    pub fn inner(&self) -> (r: &S)
        ensures
            *r == self.wrapped(),
    {
        &self.signal
    }

    /// Unwraps and returns the wrapped signal.
    pub fn into_inner(self) -> (r: S)
        ensures
            r == self.wrapped(),
    {
        self.signal
    }
}

/// Response of a biquad filter.
#[derive(Debug, Clone, Copy, PartialEq)]
pub enum BiquadMode {
    /// Passes frequencies below the cutoff.
    LowPass,
    /// Passes frequencies above the cutoff.
    HighPass,
    /// Passes frequencies around the cutoff.
    BandPass,
    /// Attenuates frequencies around the cutoff.
    Notch,
}

/// Clipping curve of a clipper.
#[derive(Debug, Clone, Copy, PartialEq)]
pub enum ClipMode {
    /// Values beyond the threshold are clamped.
    Hard,
    /// Smooth saturation curve.
    Soft,
}

/// Output of a state-variable filter.
#[derive(Debug, Clone, Copy, PartialEq)]
pub enum SvfMode {
    /// Low-pass output.
    LowPass,
    /// High-pass output.
    HighPass,
    /// Band-pass output.
    BandPass,
}

} // verus!
