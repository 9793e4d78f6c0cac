//! Noise-shaping quantization: an error-feedback filter that reshapes the
//! spectrum of quantization noise, in fixed point.
//!
//! Samples and errors are integers in a unit of the caller's choosing (the
//! quantizer's step is a whole number of units). Feedback coefficients are
//! fixed-point numbers with 16 fractional bits: the coefficient `h` is
//! written as the integer `h · FEEDBACK_ONE`, so `0.5` is `32768` and `1.0`
//! is [`FEEDBACK_ONE`].
//!
//! For input `x[n]`, feedback coefficients `h[0..order]` and error history
//! `e[n-1], e[n-2], ..., e[n-order]` (most recent first):
//!
//! ```text
//! shaped[n]  = x[n] - round(Σ_k h[k]·e[n-1-k])
//! y[n]       = quantize(shaped[n])
//! e[n]       = y[n] - shaped[n]
//! ```
//!
//! where the predicted error `Σ_k h[k]·e[n-1-k]` is rounded to the nearest
//! sample unit (halves upward); with whole-number coefficients it is exact.
//! For the first-order shaper `h = [1]` the output error telescopes:
//! `Σ(y[n]-x[n]) = e[N-1] - e[-1]`, bounded however long the run is.
use vstd::prelude::*;

verus! {

/// The fixed-point value of a feedback coefficient of one: coefficients
/// carry 16 fractional bits.
pub const FEEDBACK_ONE: i64 = 65536;

/// `Σ_{k < count} feedback[k] * history[k]`, in units of `1 / FEEDBACK_ONE`
/// of a sample unit.
pub open spec fn feedback_sum(feedback: Seq<i64>, history: Seq<i64>, count: int) -> int
    decreases count,
{
    if count <= 0 {
        0
    } else {
        feedback_sum(feedback, history, count - 1) + feedback[count - 1] * history[count - 1]
    }
}

/// The predicted error in sample units: the feedback sum rounded to the
/// nearest unit, halves upward.
pub open spec fn predicted_error(feedback: Seq<i64>, history: Seq<i64>) -> int {
    (feedback_sum(feedback, history, feedback.len() as int) + FEEDBACK_ONE / 2) / (FEEDBACK_ONE as int)
}

/// The value handed to the quantizer: the input minus the predicted error.
pub open spec fn shaped_value(input: i64, feedback: Seq<i64>, history: Seq<i64>) -> int {
    input - predicted_error(feedback, history)
}

/// The history after a step: the new error in front, the oldest dropped.
pub open spec fn next_history(history: Seq<i64>, error: int) -> Seq<i64> {
    if history.len() == 0 {
        history
    } else {
        seq![error as i64] + history.subrange(0, history.len() - 1)
    }
}

/// The arithmetic of one step stays within machine integers: every partial
/// feedback sum fits in `i128`, so does the full sum plus half a unit, and
/// the shaped value fits in `i64`.
pub open spec fn step_fits(input: i64, feedback: Seq<i64>, history: Seq<i64>) -> bool {
    &&& forall|k: int|
        0 <= k <= feedback.len() ==> i128::MIN <= #[trigger] feedback_sum(feedback, history, k)
            <= i128::MAX
    &&& feedback_sum(feedback, history, feedback.len() as int) + FEEDBACK_ONE / 2 <= i128::MAX
    &&& i64::MIN <= shaped_value(input, feedback, history) <= i64::MAX
}

/// Floor division by `FEEDBACK_ONE` brackets its argument.
proof fn lemma_div_one_brackets(v: int)
    ensures
        FEEDBACK_ONE * (v / (FEEDBACK_ONE as int)) <= v < FEEDBACK_ONE * (v / (FEEDBACK_ONE as int))
            + FEEDBACK_ONE,
{
    vstd::arithmetic::div_mod::lemma_fundamental_div_mod(v, FEEDBACK_ONE as int);
    vstd::arithmetic::div_mod::lemma_mod_bound(v, FEEDBACK_ONE as int);
}

/// `v / FEEDBACK_ONE`, rounded toward negative infinity.
fn floor_div_one(v: i128) -> (q: i128)
    requires
        v > i128::MIN,
    ensures
        q == (v as int) / (FEEDBACK_ONE as int),
{
    proof { lemma_div_one_brackets(v as int); }
    if v >= 0 {
        let a = v as u128;
        let q = (a / 65536u128) as i128;
        proof { lemma_div_one_brackets(v as int); }
        assert(q == (v as int) / (FEEDBACK_ONE as int));
        q
    } else {
        let a = (-v - 1) as u128;
        let t = (a / 65536u128) as i128;
        proof {
            lemma_div_one_brackets(a as int);
            let r = a - 65536 * t;
            vstd::arithmetic::div_mod::lemma_fundamental_div_mod_converse(
                v as int,
                FEEDBACK_ONE as int,
                -t - 1,
                65535 - r,
            );
        }
        -t - 1
    }
}

/// The quantizer accepts every `i64` and its residual `quantize(s) - s` fits
/// in an `i64`.
pub open spec fn quantizer_ok<Q: Fn(i64) -> i64>(quantize: &Q) -> bool {
    &&& forall|s: i64| call_requires(*quantize, (s,))
    &&& forall|s: i64, y: i64| #[trigger]
        call_ensures(*quantize, (s,), y) ==> i64::MIN <= y - s <= i64::MAX
}

fn shape_step<Q: Fn(i64) -> i64>(
    input: i64,
    feedback: &[i64],
    error_history: &mut [i64],
    quantize: &Q,
) -> (r: i64)
    requires
        feedback@.len() == old(error_history)@.len(),
        step_fits(input, feedback@, old(error_history)@),
        quantizer_ok(quantize),
    ensures
        call_ensures(*quantize, (shaped_value(input, feedback@, old(error_history)@) as i64,), r),
        final(error_history)@ == next_history(
            old(error_history)@,
            r - shaped_value(input, feedback@, old(error_history)@),
        ),
{
    let n = feedback.len();
    let mut predicted: i128 = 0;
    let mut k: usize = 0;
    while k < n
        invariant
            n == feedback@.len(),
            n == error_history@.len(),
            0 <= k <= n,
            predicted == feedback_sum(feedback@, error_history@, k as int),
            forall|m: int|
                0 <= m <= n ==> i128::MIN <= #[trigger] feedback_sum(feedback@, error_history@, m)
                    <= i128::MAX,
        decreases n - k,
    {
        let h = feedback[k] as i128;
        let e = error_history[k] as i128;
        assert(feedback_sum(feedback@, error_history@, k + 1) == predicted + h * e);
        assert(i128::MIN <= feedback_sum(feedback@, error_history@, k + 1) <= i128::MAX);
        assert(-0x8000_0000_0000_0000 <= h < 0x8000_0000_0000_0000);
        assert(-0x8000_0000_0000_0000 <= e < 0x8000_0000_0000_0000);
        assert(-0x4000_0000_0000_0000_0000_0000_0000_0000 <= h * e <= 0x4000_0000_0000_0000_0000_0000_0000_0000)
            by (nonlinear_arith)
            requires
                -0x8000_0000_0000_0000 <= h < 0x8000_0000_0000_0000,
                -0x8000_0000_0000_0000 <= e < 0x8000_0000_0000_0000,
        ;
        predicted = predicted + h * e;
        k = k + 1;
    }
    let predicted = floor_div_one(predicted + 32768);
    let shaped_wide: i128 = input as i128 - predicted;
    let shaped: i64 = shaped_wide as i64;
    let output = quantize(shaped);
    let error: i64 = (output as i128 - shaped_wide) as i64;
    let ghost old_history = error_history@;
    let mut i: usize = n;
    while i > 1
        invariant
            n == error_history@.len(),
            n == old_history.len(),
            1 <= i <= n || n == 0,
            n == 0 ==> i == 0,
            forall|m: int| 0 <= m < i ==> #[trigger] error_history@[m] == old_history[m],
            forall|m: int| i <= m < n ==> #[trigger] error_history@[m] == old_history[m - 1],
        decreases i,
    {
        error_history[i - 1] = error_history[i - 2];
        i = i - 1;
    }
    if n > 0 {
        error_history[0] = error;
    }
    assert(error_history@ =~= next_history(old_history, output - shaped_wide));
    output
}

/// Process one sample through an order-`feedback.len()` noise-shaping
/// filter whose coefficients are fixed point (`FEEDBACK_ONE` is one).
/// `error_history[0]` must be the most recent past quantization error. Returns the quantized output and shifts `error_history` in place,
/// inserting this step's new error at index 0.
pub fn noise_shape_step<Q: Fn(i64) -> i64>(
    input: i64,
    feedback: &[i64],
    error_history: &mut [i64],
    quantize: Q,
) -> (r: i64)
    requires
        feedback@.len() == old(error_history)@.len(),
        step_fits(input, feedback@, old(error_history)@),
        quantizer_ok(&quantize),
    ensures
        call_ensures(quantize, (shaped_value(input, feedback@, old(error_history)@) as i64,), r),
        final(error_history)@ == next_history(
            old(error_history)@,
            r - shaped_value(input, feedback@, old(error_history)@),
        ),
{
    shape_step(input, feedback, error_history, &quantize)
}

/// `Σ_{k < count} |feedback[k]|`.
pub open spec fn abs_feedback_sum(feedback: Seq<i64>, count: int) -> int
    decreases count,
{
    if count <= 0 {
        0
    } else {
        abs_feedback_sum(feedback, count - 1) + (if feedback[count - 1] >= 0 {
            feedback[count - 1] as int
        } else {
            -feedback[count - 1]
        })
    }
}

/// Every error in `history` lies within `[-bound, bound]`.
pub open spec fn within_bound(history: Seq<i64>, bound: i64) -> bool {
    forall|i: int| 0 <= i < history.len() ==> -bound <= #[trigger] history[i] <= bound
}

/// An all-zero error history of length `n`.
pub open spec fn zero_history(n: nat) -> Seq<i64> {
    Seq::new(n, |i: int| 0i64)
}

/// `after` is a history that one step of the shaper can produce from
/// `before`, for some output the quantizer may give.
pub open spec fn is_step<Q: Fn(i64) -> i64>(
    quantize: &Q,
    input: i64,
    feedback: Seq<i64>,
    before: Seq<i64>,
    after: Seq<i64>,
) -> bool {
    exists|y: i64|
        #![trigger call_ensures(*quantize, (shaped_value(input, feedback, before) as i64,), y)]
        call_ensures(*quantize, (shaped_value(input, feedback, before) as i64,), y) && after
            == next_history(before, y - shaped_value(input, feedback, before))
}

/// `runs` is a sequence of error histories that the shaper passes through,
/// starting from silence, with constant input.
pub open spec fn is_run<Q: Fn(i64) -> i64>(
    quantize: &Q,
    input: i64,
    feedback: Seq<i64>,
    runs: Seq<Seq<i64>>,
) -> bool {
    &&& runs.len() >= 1
    &&& runs[0] == zero_history(feedback.len())
    &&& forall|t: int|
        0 <= t < runs.len() - 1 ==> is_step(quantize, input, feedback, #[trigger] runs[t], runs[t + 1])
}

/// An arithmetic bound under which every step of a stability run fits in
/// machine integers: the worst-case predicted error plus the input stays
/// within `i64`.
pub open spec fn stability_run_fits(feedback: Seq<i64>, input: i64, bound: i64) -> bool {
    let b = if bound < 0 { 0 } else { bound as int };
    let x = if input < 0 { -(input as int) } else { input as int };
    abs_feedback_sum(feedback, feedback.len() as int) * b + FEEDBACK_ONE / 2 <= (i64::MAX - x)
        * FEEDBACK_ONE
}

proof fn lemma_feedback_sum_bounded(feedback: Seq<i64>, history: Seq<i64>, bound: int, k: int)
    requires
        0 <= k <= feedback.len(),
        feedback.len() == history.len(),
        bound >= 0,
        forall|i: int| 0 <= i < history.len() ==> -bound <= #[trigger] history[i] <= bound,
    ensures
        -(abs_feedback_sum(feedback, k) * bound) <= feedback_sum(feedback, history, k)
            <= abs_feedback_sum(feedback, k) * bound,
        abs_feedback_sum(feedback, k) >= 0,
    decreases k,
{
    if k > 0 {
        lemma_feedback_sum_bounded(feedback, history, bound, k - 1);
        let h = feedback[k - 1] as int;
        let e = history[k - 1] as int;
        let a = if h >= 0 { h } else { -h };
        assert(-(a * bound) <= h * e <= a * bound) by (nonlinear_arith)
            requires
                -bound <= e <= bound,
                a == (if h >= 0 { h } else { -h }),
                bound >= 0,
        ;
        let s = abs_feedback_sum(feedback, k - 1);
        assert(abs_feedback_sum(feedback, k) == s + a);
        assert(feedback_sum(feedback, history, k) == feedback_sum(feedback, history, k - 1) + h * e);
        assert((s + a) * bound == s * bound + a * bound) by (nonlinear_arith);
    }
}

proof fn lemma_run_step_fits(feedback: Seq<i64>, history: Seq<i64>, input: i64, bound: i64)
    requires
        feedback.len() == history.len(),
        stability_run_fits(feedback, input, bound),
        within_bound(history, bound) || history == zero_history(feedback.len()),
    ensures
        step_fits(input, feedback, history),
{
    let b: int = if bound < 0 { 0 } else { bound as int };
    assert forall|i: int| 0 <= i < history.len() implies -b <= #[trigger] history[i] <= b by {
        if !within_bound(history, bound) {
            assert(history[i] == zero_history(feedback.len())[i]);
        }
    }
    let total = abs_feedback_sum(feedback, feedback.len() as int);
    lemma_abs_sum_monotone(feedback, 0, feedback.len() as int);
    assert(total * b >= 0) by (nonlinear_arith)
        requires
            total >= 0,
            b >= 0,
    ;
    assert(total * b <= i64::MAX * 65536);
    assert forall|k: int| 0 <= k <= feedback.len() implies i128::MIN <= #[trigger] feedback_sum(
        feedback,
        history,
        k,
    ) <= i128::MAX by {
        lemma_feedback_sum_bounded(feedback, history, b, k);
        lemma_abs_sum_monotone(feedback, k, feedback.len() as int);
        assert(abs_feedback_sum(feedback, k) * b <= total * b) by (nonlinear_arith)
            requires
                0 <= abs_feedback_sum(feedback, k) <= total,
                b >= 0,
        ;
    }
    lemma_feedback_sum_bounded(feedback, history, b, feedback.len() as int);
    let v = feedback_sum(feedback, history, feedback.len() as int) + 32768;
    lemma_div_one_brackets(v);
    assert(predicted_error(feedback, history) == v / 65536);
}

proof fn lemma_abs_sum_monotone(feedback: Seq<i64>, k: int, m: int)
    requires
        0 <= k <= m <= feedback.len(),
    ensures
        0 <= abs_feedback_sum(feedback, k) <= abs_feedback_sum(feedback, m),
    decreases m,
{
    if k < m {
        lemma_abs_sum_monotone(feedback, k, m - 1);
    } else if k > 0 {
        lemma_abs_sum_monotone(feedback, k - 1, k - 1);
    }
}

/// Check whether an order-`feedback.len()` noise-shaping filter stays
/// stable with a particular `quantize` function: simulate `steps`
/// iterations against a constant worst-case input and confirm every
/// resulting error stays within `bound`.
///
/// Whatever the quantizer returns, the result describes a run of the
/// shaper that starts from silence: `true` when the run completes all
/// `steps` steps with every error within `bound`, `false` when the last
/// step of the run is the first to leave it. `scratch` holds the last
/// error history of the run.
pub fn noise_shaper_is_stable<Q: Fn(i64) -> i64>(
    feedback: &[i64],
    scratch: &mut [i64],
    worst_case_input: i64,
    quantize: Q,
    steps: usize,
    bound: i64,
) -> (r: bool)
    requires
        old(scratch)@.len() == feedback@.len(),
        quantizer_ok(&quantize),
        stability_run_fits(feedback@, worst_case_input, bound),
    ensures
        exists|runs: Seq<Seq<i64>>|
            #[trigger] is_run(&quantize, worst_case_input, feedback@, runs) && final(scratch)@
                == runs.last() && (forall|t: int|
                1 <= t < runs.len() - 1 ==> within_bound(#[trigger] runs[t], bound)) && (r ==> runs.len()
                == steps + 1 && (steps > 0 ==> within_bound(runs.last(), bound))) && (!r ==> runs.len()
                >= 2 && runs.len() <= steps + 1 && !within_bound(runs.last(), bound)),
{
    let n = scratch.len();
    let mut i: usize = 0;
    while i < n
        invariant
            n == scratch@.len(),
            0 <= i <= n,
            forall|m: int| 0 <= m < i ==> #[trigger] scratch@[m] == 0i64,
        decreases n - i,
    {
        scratch[i] = 0;
        i = i + 1;
    }
    let ghost mut runs: Seq<Seq<i64>> = seq![scratch@];
    assert(scratch@ =~= zero_history(feedback@.len()));
    let mut step: usize = 0;
    while step < steps
        invariant
            n == scratch@.len(),
            n == feedback@.len(),
            quantizer_ok(&quantize),
            stability_run_fits(feedback@, worst_case_input, bound),
            0 <= step <= steps,
            runs.len() == step + 1,
            is_run(&quantize, worst_case_input, feedback@, runs),
            scratch@ == runs.last(),
            forall|t: int| 1 <= t < runs.len() ==> within_bound(#[trigger] runs[t], bound),
        decreases steps - step,
    {
        let ghost before = scratch@;
        proof {
            if step > 0 {
                assert(within_bound(runs[runs.len() - 1], bound));
            }
            lemma_run_step_fits(feedback@, before, worst_case_input, bound);
        }
        let y = shape_step(worst_case_input, feedback, scratch, &quantize);
        proof {
            let old_runs = runs;
            runs = runs.push(scratch@);
            assert(is_step(&quantize, worst_case_input, feedback@, before, scratch@));
            assert forall|t: int| 0 <= t < runs.len() - 1 implies is_step(
                &quantize,
                worst_case_input,
                feedback@,
                #[trigger] runs[t],
                runs[t + 1],
            ) by {
                if t < old_runs.len() - 1 {
                    assert(runs[t] == old_runs[t]);
                    assert(runs[t + 1] == old_runs[t + 1]);
                }
            }
        }
        let mut k: usize = 0;
        let mut exceeded = false;
        while k < n
            invariant
                n == scratch@.len(),
                0 <= k <= n,
                !exceeded <==> forall|m: int| 0 <= m < k ==> -bound <= #[trigger] scratch@[m] <= bound,
            decreases n - k,
        {
            let e = scratch[k];
            if (e as i128) < -(bound as i128) || (e as i128) > bound as i128 {
                exceeded = true;
            }
            k = k + 1;
        }
        proof {
            assert forall|t: int| 1 <= t < runs.len() - 1 implies within_bound(
                #[trigger] runs[t],
                bound,
            ) by {
                assert(runs[t] == runs.drop_last()[t]);
            }
        }
        if exceeded {
            proof {
                assert(!within_bound(runs.last(), bound));
                assert(is_run(&quantize, worst_case_input, feedback@, runs));
            }
            return false;
        }
        proof {
            assert(within_bound(runs.last(), bound));
        }
        step = step + 1;
    }
    proof {
        assert(is_run(&quantize, worst_case_input, feedback@, runs));
        if steps > 0 {
            assert(within_bound(runs[runs.len() - 1], bound));
        }
    }
    true
}

/// Owning convenience wrapper around [`noise_shape_step`]: owns the
/// feedback coefficients and the error history, reused across calls.
pub struct NoiseShaper {
    feedback: Vec<i64>,
    error_history: Vec<i64>,
}

impl NoiseShaper {
    /// The history always has one slot per feedback tap.
    #[verifier::type_invariant]
    spec fn well_formed(self) -> bool {
        self.feedback@.len() == self.error_history@.len()
    }

    /// The feedback coefficients.
    pub closed spec fn feedback(&self) -> Seq<i64> {
        self.feedback@
    }

    /// The error history, most recent first.
    pub closed spec fn history(&self) -> Seq<i64> {
        self.error_history@
    }

    /// Build a shaper for the given feedback coefficients (its length is
    /// the filter order), with a silent error history.
    pub fn new(feedback: Vec<i64>) -> (r: Self)
        ensures
            r.feedback() == feedback@,
            r.history() == zero_history(feedback@.len()),
    {
        let order = feedback.len();
        let error_history = vec![0i64; order];
        assert(error_history@ =~= zero_history(feedback@.len()));
        NoiseShaper { feedback, error_history }
    }

    /// Filter order (number of feedback taps).
    pub fn order(&self) -> (r: usize)
        ensures
            r == self.feedback().len(),
            r == self.history().len(),
    {
        proof { use_type_invariant(self); }
        self.feedback.len()
    }

    /// Clear the error history (e.g. between independent streams).
    pub fn reset(&mut self)
        ensures
            final(self).feedback() == old(self).feedback(),
            final(self).history() == zero_history(old(self).feedback().len()),
    {
        proof { use_type_invariant(&*self); }
        let mut taken = NoiseShaper { feedback: Vec::new(), error_history: Vec::new() };
        std::mem::swap(&mut taken, self);
        proof { use_type_invariant(&taken); }
        let NoiseShaper { feedback, error_history: mut history } = taken;
        let n = history.len();
        let mut i: usize = 0;
        while i < n
            invariant
                n == history@.len(),
                0 <= i <= n,
                forall|m: int| 0 <= m < i ==> #[trigger] history@[m] == 0i64,
            decreases n - i,
        {
            history[i] = 0;
            i = i + 1;
        }
        assert(history@ =~= zero_history(feedback@.len()));
        *self = NoiseShaper { feedback, error_history: history };
    }

    /// See [`noise_shape_step`].
    pub fn process<Q: Fn(i64) -> i64>(&mut self, input: i64, quantize: Q) -> (r: i64)
        requires
            step_fits(input, old(self).feedback(), old(self).history()),
            quantizer_ok(&quantize),
        ensures
            final(self).feedback() == old(self).feedback(),
            call_ensures(
                quantize,
                (shaped_value(input, old(self).feedback(), old(self).history()) as i64,),
                r,
            ),
            final(self).history() == next_history(
                old(self).history(),
                r - shaped_value(input, old(self).feedback(), old(self).history()),
            ),
    {
        proof { use_type_invariant(&*self); }
        let mut taken = NoiseShaper { feedback: Vec::new(), error_history: Vec::new() };
        std::mem::swap(&mut taken, self);
        proof { use_type_invariant(&taken); }
        let NoiseShaper { feedback, error_history: mut history } = taken;
        let r = shape_step(input, feedback.as_slice(), history.as_mut_slice(), &quantize);
        *self = NoiseShaper { feedback, error_history: history };
        r
    }
}

/// Sum of the per-sample output errors `Σ_{t < count} (outputs[t] - inputs[t])`.
pub open spec fn total_output_error(inputs: Seq<i64>, outputs: Seq<i64>, count: int) -> int
    decreases count,
{
    if count <= 0 {
        0
    } else {
        total_output_error(inputs, outputs, count - 1) + (outputs[count - 1] - inputs[count - 1])
    }
}

/// With first-order feedback `h = [1]` (written `[FEEDBACK_ONE]`), the cumulative output error of any
/// run telescopes to the last error minus the initial one: it stays
/// bounded however long the run is.
pub proof fn lemma_first_order_error_telescopes(
    inputs: Seq<i64>,
    outputs: Seq<i64>,
    errors: Seq<i64>,
)
    requires
        outputs.len() == inputs.len(),
        errors.len() == inputs.len() + 1,
        forall|t: int|
            0 <= t < inputs.len() ==> i64::MIN <= #[trigger] outputs[t] - shaped_value(
                inputs[t],
                seq![FEEDBACK_ONE],
                seq![errors[t]],
            ) <= i64::MAX,
        forall|t: int|
            0 <= t < inputs.len() ==> next_history(
                seq![errors[t]],
                #[trigger] outputs[t] - shaped_value(inputs[t], seq![FEEDBACK_ONE], seq![errors[t]]),
            ) == seq![errors[t + 1]],
    ensures
        total_output_error(inputs, outputs, inputs.len() as int) == errors.last() - errors[0],
    decreases inputs.len(),
{
    let n = inputs.len() as int;
    if n > 0 {
        let t = n - 1;
        lemma_first_order_error_telescopes(
            inputs.subrange(0, t),
            outputs.subrange(0, t),
            errors.subrange(0, t + 1),
        );
        lemma_total_prefix(inputs, outputs, t, t);
        assert(errors.subrange(0, t + 1).last() == errors[t]);
        assert(errors.subrange(0, t + 1)[0] == errors[0]);
        let sv = shaped_value(inputs[t], seq![FEEDBACK_ONE], seq![errors[t]]);
        assert(predicted_error(seq![FEEDBACK_ONE], seq![errors[t]]) == errors[t] as int) by {
            let f = seq![FEEDBACK_ONE];
            let h = seq![errors[t]];
            assert(f[0] == FEEDBACK_ONE);
            assert(h[0] == errors[t]);
            assert(feedback_sum(f, h, 0) == 0);
            assert(feedback_sum(f, h, 1) == feedback_sum(f, h, 0) + f[0] * h[0]);
            let x = h[0];
            assert(FEEDBACK_ONE * x == x * 65536) by (nonlinear_arith);
            vstd::arithmetic::div_mod::lemma_fundamental_div_mod_converse(
                x * 65536 + 32768,
                65536,
                x as int,
                32768,
            );
        }
        assert(next_history(seq![errors[t]], outputs[t] - sv)[0] == errors[t + 1]);
        assert(errors[t + 1] == outputs[t] - inputs[t] + errors[t]);
    }
}

proof fn lemma_total_prefix(inputs: Seq<i64>, outputs: Seq<i64>, t: int, u: int)
    requires
        0 <= u <= t <= inputs.len(),
        t <= outputs.len(),
    ensures
        total_output_error(inputs.subrange(0, t), outputs.subrange(0, t), u) == total_output_error(
            inputs,
            outputs,
            u,
        ),
    decreases u,
{
    if u > 0 {
        lemma_total_prefix(inputs, outputs, t, u - 1);
    }
}

/// With a quantizer whose residual `quantize(s) - s` never exceeds `bound`
/// in magnitude (such as round-to-nearest with `bound` half a step), a step
/// keeps every error of the history within `bound`, whatever the feedback
/// coefficients are.
pub proof fn lemma_bounded_residual_keeps_errors_bounded<Q: Fn(i64) -> i64>(
    quantize: &Q,
    input: i64,
    feedback: Seq<i64>,
    before: Seq<i64>,
    after: Seq<i64>,
    bound: i64,
)
    requires
        feedback.len() == before.len(),
        step_fits(input, feedback, before),
        is_step(quantize, input, feedback, before, after),
        within_bound(before, bound),
        forall|s: i64, y: i64| #[trigger] call_ensures(*quantize, (s,), y) ==> -bound <= y - s <= bound,
    ensures
        within_bound(after, bound),
{
    let sv = shaped_value(input, feedback, before);
    let y = choose|y: i64|
        #![trigger call_ensures(*quantize, (sv as i64,), y)]
        call_ensures(*quantize, (sv as i64,), y) && after == next_history(before, y - sv);
    assert(call_ensures(*quantize, (sv as i64,), y));
    assert(-bound <= y - (sv as i64) <= bound);
    if before.len() > 0 {
        assert forall|i: int| 0 <= i < after.len() implies -bound <= #[trigger] after[i] <= bound by {
            if i > 0 {
                assert(after[i] == before[i - 1]);
            }
        }
    }
}

} // verus!
