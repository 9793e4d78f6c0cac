use tpt_dsp::resample::{decimated_len, next_phase};

fn brute_kept(phase: usize, factor: usize, n: usize) -> usize {
    (0..n).filter(|t| (phase + t) % factor == 0).count()
}

#[test]
fn decimated_len_counts_kept_samples() {
    for factor in 1..6 {
        for phase in 0..factor {
            for n in 0..20 {
                assert_eq!(decimated_len(phase, factor, n), brute_kept(phase, factor, n), "{phase} {factor} {n}");
            }
        }
    }
    assert_eq!(decimated_len(0, 3, 7), 3);
    assert_eq!(decimated_len(1, 3, 7), 2);
    assert_eq!(decimated_len(2, 3, 1), 0);
    assert_eq!(decimated_len(2, 3, 2), 1);
}

#[test]
fn next_phase_wraps_at_the_factor() {
    assert_eq!(next_phase(0, 3), 1);
    assert_eq!(next_phase(1, 3), 2);
    assert_eq!(next_phase(2, 3), 0);
    assert_eq!(next_phase(0, 1), 0);
}

#[test]
fn splitting_a_block_keeps_the_same_count() {
    let (factor, phase) = (4usize, 1usize);
    let (a, b) = (6usize, 9usize);
    let mut p = phase;
    for _ in 0..a {
        p = next_phase(p, factor);
    }
    assert_eq!(p, (phase + a) % factor);
    assert_eq!(decimated_len(phase, factor, a + b), decimated_len(phase, factor, a) + decimated_len(p, factor, b));
}
