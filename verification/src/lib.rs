//! Verified core of the tpt-dsp signal-processing framework.
//!
//! The modules here hold the parts of the framework whose behaviour is
//! exact: the fixed-capacity ring buffer, the spectrogram's ring of frames,
//! power-of-two and bit-reversal helpers of the radix-2 FFT, MDCT plan
//! validation, the phase bookkeeping of integer decimation, vector
//! quantisation and noise shaping over integer samples,
//! the crossbeam-backed SPSC queue, the command line's effect-spec grammar,
//! and the small enumerations shared with the floating-point code.
pub mod cli;
pub mod envelope;
pub mod fft;
pub mod filters;
pub mod mdct;
pub mod noise_shaping;
pub mod oscillator;
pub mod resample;
pub mod ring;
pub mod spectrogram;
pub mod spsc;
pub mod vq;
pub mod windows;
