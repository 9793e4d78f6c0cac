//! Phase bookkeeping of integer-factor decimation.
//!
//! A decimator by `factor` keeps one input sample in `factor`: the sample
//! it is given while its phase is zero. The phase advances by one with
//! every input sample and wraps at `factor`, and it carries over from one
//! block to the next, so blocks may have any length.
use vstd::prelude::*;

verus! {

/// The first position in a block at which a sample is kept, given the
/// phase at the start of the block.
pub open spec fn first_kept(phase: int, factor: int) -> int {
    if phase == 0 {
        0
    } else {
        factor - phase
    }
}

/// How many of the `n` samples of a block starting at `phase` are kept:
/// the positions `t < n` with `(phase + t) % factor == 0`.
pub open spec fn kept_count(phase: int, factor: int, n: int) -> int
    decreases n,
{
    if n <= 0 {
        0
    } else {
        kept_count(phase, factor, n - 1) + if (phase + n - 1) % factor == 0 {
            1int
        } else {
            0int
        }
    }
}

/// Going from `x - 1` to `x`, floor division by `m` grows by one exactly
/// when `m` divides `x`.
proof fn lemma_div_step(x: int, m: int)
    requires
        x >= 1,
        m > 0,
    ensures
        x / m - (x - 1) / m == (if x % m == 0 {
            1int
        } else {
            0int
        }),
{
    vstd::arithmetic::div_mod::lemma_fundamental_div_mod(x, m);
    vstd::arithmetic::div_mod::lemma_mod_bound(x, m);
    let q = x / m;
    let r = x % m;
    assert(x == q * m + r) by (nonlinear_arith)
        requires
            x == m * q + r,
    ;
    if r >= 1 {
        vstd::arithmetic::div_mod::lemma_fundamental_div_mod_converse(x - 1, m, q, r - 1);
    } else {
        assert(x - 1 == (q - 1) * m + (m - 1)) by (nonlinear_arith)
            requires
                x == q * m + r,
                r == 0,
        ;
        vstd::arithmetic::div_mod::lemma_fundamental_div_mod_converse(x - 1, m, q - 1, m - 1);
    }
}

/// Adding `factor` does not change a remainder modulo `factor`.
proof fn lemma_mod_plus_modulus(x: int, m: int)
    requires
        x >= 0,
        m > 0,
    ensures
        (x + m) % m == x % m,
{
    vstd::arithmetic::div_mod::lemma_fundamental_div_mod(x, m);
    vstd::arithmetic::div_mod::lemma_mod_bound(x, m);
    let q = x / m;
    let r = x % m;
    assert(x + m == (q + 1) * m + r) by (nonlinear_arith)
        requires
            x == m * q + r,
    ;
    vstd::arithmetic::div_mod::lemma_fundamental_div_mod_converse(x + m, m, q + 1, r);
}

/// The closed form of the kept count.
proof fn lemma_kept_count_closed(phase: int, factor: int, n: int)
    requires
        factor > 0,
        0 <= phase < factor,
        n >= 0,
    ensures
        kept_count(phase, factor, n) == (if first_kept(phase, factor) >= n {
            0
        } else {
            (n - first_kept(phase, factor) - 1) / factor + 1
        }),
    decreases n,
{
    if n > 0 {
        lemma_kept_count_closed(phase, factor, n - 1);
        let first = first_kept(phase, factor);
        let j = n - 1;
        if j < first {
            vstd::arithmetic::div_mod::lemma_small_mod((phase + j) as nat, factor as nat);
        } else if j == first {
            if phase == 0 {
                vstd::arithmetic::div_mod::lemma_small_mod(0, factor as nat);
            } else {
                vstd::arithmetic::div_mod::lemma_mod_self_0(factor);
            }
            assert(0int / factor == 0);
        } else {
            let x = j - first;
            lemma_div_step(x, factor);
            if phase != 0 {
                lemma_mod_plus_modulus(x, factor);
            }
            assert((phase + j) % factor == x % factor);
        }
    }
}

/// Splitting a block in two, with the phase carried over between the
/// halves, keeps as many samples as the whole block.
pub proof fn lemma_kept_count_splits(phase: int, factor: int, a: int, b: int)
    requires
        factor > 0,
        0 <= phase < factor,
        a >= 0,
        b >= 0,
    ensures
        kept_count(phase, factor, a + b) == kept_count(phase, factor, a) + kept_count(
            (phase + a) % factor,
            factor,
            b,
        ),
    decreases b,
{
    if b > 0 {
        lemma_kept_count_splits(phase, factor, a, b - 1);
        vstd::arithmetic::div_mod::lemma_add_mod_noop_right(b - 1, phase + a, factor);
        assert((b - 1) + (phase + a) == phase + (a + b) - 1);
        assert(((phase + a) % factor + b - 1) == (b - 1) + (phase + a) % factor);
    }
}

/// How many output samples a block of `input_len` samples produces when
/// decimating by `factor` from `phase`.
pub fn decimated_len(phase: usize, factor: usize, input_len: usize) -> (r: usize)
    requires
        factor > 0,
        phase < factor,
    ensures
        r == kept_count(phase as int, factor as int, input_len as int),
{
    proof {
        lemma_kept_count_closed(phase as int, factor as int, input_len as int);
    }
    let first = if phase == 0 {
        0
    } else {
        factor - phase
    };
    if first >= input_len {
        0
    } else {
        let y = input_len - first - 1;
        let q = y / factor;
        assert(q <= y) by {
            vstd::arithmetic::div_mod::lemma_div_is_ordered_by_denominator(y as int, 1, factor as int);
        }
        q + 1
    }
}

/// The phase after one more input sample.
pub fn next_phase(phase: usize, factor: usize) -> (r: usize)
    requires
        phase < factor,
    ensures
        r == (phase + 1) % (factor as int),
        r < factor,
{
    if phase + 1 == factor {
        proof { vstd::arithmetic::div_mod::lemma_mod_self_0(factor as int); }
        0
    } else {
        proof { vstd::arithmetic::div_mod::lemma_small_mod((phase + 1) as nat, factor as nat); }
        phase + 1
    }
}

} // verus!
