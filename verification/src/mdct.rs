//! Block-size validation for the Modified Discrete Cosine Transform.
//!
//! The transform itself works on floating-point samples; what is exact is
//! the choice of supported block sizes, which a plan validates once at
//! setup rather than on every call.
use vstd::prelude::*;

verus! {

/// A half-size `N` is one of the MDCT block sizes used by the codecs.
pub open spec fn is_supported_size(n: int) -> bool {
    n == 128 || n == 256 || n == 512 || n == 1024 || n == 2048 || n == 4096
}

/// A reusable MDCT/IMDCT plan for a fixed, validated block size.
#[derive(Copy, Clone, Debug, PartialEq, Eq)]
pub struct MdctPlan {
    n: usize,
}

impl MdctPlan {
    /// Supported MDCT half-sizes (`N`, giving a `2N`-sample analysis
    /// window), matching the block sizes used by the Pulse/Aura codecs.
    pub const SUPPORTED_SIZES: [usize; 6] = [128, 256, 512, 1024, 2048, 4096];

    /// The plan's half-size.
    pub closed spec fn spec_n(&self) -> int {
        self.n as int
    }

    /// Build a plan for half-size `n` (the analysis window is `2n` samples).
    ///
    /// Returns `None` if `n` is not one of [`Self::SUPPORTED_SIZES`].
    pub fn new(n: usize) -> (r: Option<Self>)
        ensures
            r is Some <==> is_supported_size(n as int),
            r matches Some(p) ==> p.spec_n() == n,
    {
        let sizes = Self::SUPPORTED_SIZES;
        let mut i: usize = 0;
        while i < 6
            invariant
                0 <= i <= 6,
                sizes@ == seq![128usize, 256, 512, 1024, 2048, 4096],
                forall|k: int| 0 <= k < i ==> sizes@[k] != n,
            decreases 6 - i,
        {
            if sizes[i] == n {
                return Some(MdctPlan { n });
            }
            i = i + 1;
        }
        None
    }

    /// Half-size `N` (the spectral coefficient count).
    pub fn n(&self) -> (r: usize)
        ensures
            r == self.spec_n(),
            is_supported_size(r as int),
    {
        proof { use_type_invariant(self); }
        self.n
    }

    /// Analysis/synthesis window length (`2N` time-domain samples).
    pub fn window_len(&self) -> (r: usize)
        ensures
            r == 2 * self.spec_n(),
    {
        proof { use_type_invariant(self); }
        2 * self.n
    }

    /// A plan only ever holds a supported size.
    #[verifier::type_invariant]
    spec fn supported(self) -> bool {
        is_supported_size(self.n as int)
    }
}

} // verus!
