use tpt_dsp::noise_shaping::{noise_shape_step, noise_shaper_is_stable, NoiseShaper, FEEDBACK_ONE};

/// Round to the nearest multiple of `step` (ties away from zero).
fn round_to_step(step: i64) -> impl Fn(i64) -> i64 {
    move |x: i64| {
        let half = step / 2;
        if x >= 0 {
            ((x + half) / step) * step
        } else {
            -(((-x) + half) / step) * step
        }
    }
}

#[test]
fn shaping_tracks_a_dc_value_far_more_accurately_on_average_than_plain_quantization() {
    // Samples in tenths: the step is 10 (1.0) and the input 3 (0.3).
    let quantize = round_to_step(10);
    let x = 3i64;
    let n = 200;
    let plain_avg_error = (quantize(x) - x).abs() * n;

    let mut history = [0i64; 1];
    let feedback = [FEEDBACK_ONE]; // h = [1.0]
    let shaped_sum: i64 = (0..n).map(|_| noise_shape_step(x, &feedback, &mut history, &quantize)).sum();
    let shaped_avg_error = (shaped_sum - x * n).abs();
    assert!(shaped_avg_error < plain_avg_error);
    assert_eq!(shaped_avg_error, 0, "a whole number of periods recovers 0.3 exactly");
}

#[test]
fn cumulative_error_stays_bounded_unlike_plain_quantization() {
    let quantize = round_to_step(10);
    let x = 3i64;
    let n = 200;
    let plain_cumulative: i64 = (0..n).map(|_| quantize(x) - x).sum();
    assert!(plain_cumulative.abs() > 500);

    let mut history = [0i64];
    let feedback = [FEEDBACK_ONE];
    let shaped_cumulative: i64 =
        (0..n).map(|_| noise_shape_step(x, &feedback, &mut history, &quantize) - x).sum();
    assert!(shaped_cumulative.abs() < 10);
    // The telescoping identity: the sum is the last error minus the first (zero) one.
    assert_eq!(shaped_cumulative, history[0]);
}

#[test]
fn error_history_updates_and_shifts_correctly() {
    // Samples in tenths (step 1.0 is 10); feedback 0.5 and 0.25.
    let feedback = [FEEDBACK_ONE / 2, FEEDBACK_ONE / 4];
    let mut history = [0i64, 0];
    let quantize = round_to_step(10);

    // Step 1: input 0.6, predicted error 0 -> shaped 0.6 -> y = 1.0 -> e = 0.4.
    let y1 = noise_shape_step(6, &feedback, &mut history, &quantize);
    assert_eq!(y1, 10);
    assert_eq!(history, [4, 0]);

    // Step 2: predicted error 0.5*0.4 + 0.25*0 = 0.2 -> shaped 0.4 -> y = 0.0 -> e = -0.4.
    let y2 = noise_shape_step(6, &feedback, &mut history, &quantize);
    assert_eq!(y2, 0);
    assert_eq!(history, [-4, 4], "previous e shifted into slot 1");
}

#[test]
fn predicted_error_rounds_to_the_nearest_unit() {
    // 0.25 * 6 = 1.5 rounds up to 2; 0.25 * 5 = 1.25 rounds down to 1.
    let identity = |x: i64| x;
    let mut history = [6i64];
    assert_eq!(noise_shape_step(10, &[FEEDBACK_ONE / 4], &mut history, identity), 8);
    assert_eq!(history, [0]);
    let mut history = [5i64];
    assert_eq!(noise_shape_step(10, &[FEEDBACK_ONE / 4], &mut history, identity), 9);
    let mut history = [-6i64];
    // -1.5 rounds up to -1.
    assert_eq!(noise_shape_step(10, &[FEEDBACK_ONE / 4], &mut history, identity), 11);
}

#[test]
fn order_zero_step_just_quantizes() {
    let mut history: [i64; 0] = [];
    let y = noise_shape_step(17, &[], &mut history, round_to_step(10));
    assert_eq!(y, 20);
}

#[test]
fn error_is_bounded_regardless_of_feedback_gain_for_round_to_nearest() {
    // Samples in tenths: input 0.5, step 1.0, bound half a step.
    let mut scratch = [0i64];
    for &gain in &[1i64, 3, 1000] {
        assert!(
            noise_shaper_is_stable(&[gain * FEEDBACK_ONE], &mut scratch, 5, round_to_step(10), 500, 5),
            "gain={gain} should stay within half a step regardless"
        );
    }
}

#[test]
fn stability_check_catches_a_quantizer_without_a_bounded_error_property() {
    // bad_quantize(x) = 1.5x, with samples in thousandths: input 0.5, bound 100.
    let bad_quantize = |x: i64| x + x / 2;
    let mut scratch = [0i64];
    // h = 0.2 (as near as 16 fractional bits allow) converges; h = 3 diverges.
    assert!(noise_shaper_is_stable(&[13107i64], &mut scratch, 500, bad_quantize, 40, 100_000));
    assert!(!noise_shaper_is_stable(&[3 * FEEDBACK_ONE], &mut scratch, 500, bad_quantize, 40, 100_000));
}

#[test]
fn zero_steps_is_stable() {
    let mut scratch = [7i64, 7];
    assert!(noise_shaper_is_stable(&[FEEDBACK_ONE, FEEDBACK_ONE], &mut scratch, 1, |x: i64| x, 0, -1));
    assert_eq!(scratch, [0, 0]);
}

#[test]
fn wrapper_matches_free_function_and_reset_clears_state() {
    let mut shaper = NoiseShaper::new(vec![FEEDBACK_ONE]);
    assert_eq!(shaper.order(), 1);
    let quantize = round_to_step(10);

    let mut history = [0i64];
    for _ in 0..5 {
        let wrapped = shaper.process(3, &quantize);
        let free = noise_shape_step(3, &[FEEDBACK_ONE], &mut history, &quantize);
        assert_eq!(wrapped, free);
    }

    shaper.reset();
    let mut history = [0i64];
    let a = shaper.process(6, &quantize);
    let c = noise_shape_step(6, &[FEEDBACK_ONE], &mut history, &quantize);
    assert_eq!(a, c, "after reset, behavior must match a fresh call");
}
