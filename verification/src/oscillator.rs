//! Oscillator waveform shapes.
use vstd::prelude::*;

verus! {

/// The shape produced by an oscillator.
#[derive(Debug, Clone, Copy, PartialEq, Eq)]
pub enum Waveform {
    /// Sinusoid.
    Sine,
    /// Ramp from -1 to +1 (wraps to -1).
    Sawtooth,
    /// +1 for the first half of the period, -1 for the second.
    Square,
    /// Triangle ranging -1..+1 with the peak at the midpoint.
    Triangle,
}

impl Default for Waveform {
    fn default() -> (r: Self)
        ensures
            r == Waveform::Sine,
    {
        Waveform::Sine
    }
}

} // verus!
