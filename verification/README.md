# tpt_dsp

The exact core of the tpt-dsp signal-processing framework, written in Verus
and verified against its contracts, with the floating-point rest of the
framework and the command-line tool around it.

## Layout

- `src/` — the verified library:
  - `ring` — fixed-capacity FIFO over caller storage (`RingBuffer`, with the
    `RingRead` / `RingWrite` traits); its view is the sequence of buffered
    items, oldest first.
  - `spectrogram` — ring of the most recent frames of a waterfall display,
    generic over the bin type.
  - `fft` — `is_power_of_two`, `next_power_of_two` and the bit-reversal
    permutation of the radix-2 FFT, with the law that reversing twice
    restores a buffer.
  - `mdct` — validated MDCT block sizes (`MdctPlan`).
  - `resample` — the phase bookkeeping of integer decimation: how many
    outputs a block produces, the phase step, and the law that splitting a
    block does not change the count.
  - `vq` — vector quantisation over `i32` samples with exact `u128`
    distances: lowest-index nearest search, its early-exit variant (proved
    to agree), encode, decode, and the re-encoding law.
  - `noise_shaping` — error-feedback noise shaping over `i64` samples and
    fixed-point feedback coefficients (16 fractional bits), with any
    quantizer closure, the stability run, and the telescoping law of the
    first-order shaper.
  - `spsc` — crossbeam-backed single-producer/single-consumer queue.
  - `cli` — the effect-spec grammar of the command line (with the number
    syntax that float parsing accepts), biquad type names and window
    choices.
  - `filters`, `windows`, `oscillator`, `envelope` — shared enumerations.
- `tests/` — tests of the library.
- `app/` — the floating-point DSP modules (transforms, filters, synthesis,
  analysis, control, and the floating-point forms of vector quantisation
  and noise shaping) and the `tpt-dsp-cli` program, which call the library
  for the exact parts.
