//! Segments of an ADSR amplitude envelope.
use vstd::prelude::*;

verus! {

/// The current segment an ADSR envelope is in.
#[derive(Debug, Clone, Copy, PartialEq, Eq)]
pub enum EnvelopeState {
    /// Idle — output is zero.
    Idle,
    /// Rising towards 1.0 over the attack time.
    Attack,
    /// Falling from 1.0 to the sustain level over the decay time.
    Decay,
    /// Held at the sustain level.
    Sustain,
    /// Falling from the current level to zero over the release time.
    Release,
}

} // verus!
