//! Kinds of spectral window.
use vstd::prelude::*;

verus! {

/// The kind of spectral window to generate.
#[derive(Debug, Clone, Copy, PartialEq, Eq)]
pub enum WindowType {
    /// Hann (raised cosine).
    Hann,
    /// Hamming.
    Hamming,
    /// Blackman (α = 0.16).
    Blackman,
}

} // verus!
