//! Filter response shapes shared by the biquad designs.
use vstd::prelude::*;

verus! {

/// Which response shape a biquad should have (RBJ audio EQ cookbook).
#[derive(Debug, Clone, Copy, PartialEq, Eq)]
pub enum BiquadType {
    /// Low-pass with `Q` controlling resonance at the cutoff.
    LowPass,
    /// High-pass.
    HighPass,
    /// Band-pass with constant 0 dB peak gain.
    BandPass,
    /// Notch (band-reject).
    Notch,
    /// All-pass (phase shifter).
    AllPass,
    /// Peaking EQ with `gain_db` boost/cut.
    Peaking,
    /// Low-shelf EQ.
    LowShelf,
    /// High-shelf EQ.
    HighShelf,
}

} // verus!
