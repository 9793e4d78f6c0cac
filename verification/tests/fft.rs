use tpt_dsp::fft::{bit_reverse, is_power_of_two, next_power_of_two};

#[test]
fn power_of_two_helpers() {
    assert!(is_power_of_two(1) && is_power_of_two(1024));
    assert!(!is_power_of_two(0) && !is_power_of_two(6));
    assert_eq!(next_power_of_two(5), 8);
    assert_eq!(next_power_of_two(0), 1);
    assert_eq!(next_power_of_two(1024), 1024);
}

#[test]
fn next_power_of_two_edges() {
    assert_eq!(next_power_of_two(1), 1);
    assert_eq!(next_power_of_two(2), 2);
    assert_eq!(next_power_of_two(3), 4);
    assert_eq!(next_power_of_two(1025), 2048);
    assert_eq!(next_power_of_two(usize::MAX / 2 + 1), usize::MAX / 2 + 1);
    assert!(is_power_of_two(usize::MAX / 2 + 1));
    assert!(!is_power_of_two(usize::MAX));
}

#[test]
fn bit_reverse_of_eight_indices() {
    let mut buf: Vec<u32> = (0..8).collect();
    bit_reverse(&mut buf);
    assert_eq!(buf, vec![0, 4, 2, 6, 1, 5, 3, 7]);
}

#[test]
fn bit_reverse_twice_restores_buffer() {
    let start: Vec<i64> = (0..64).map(|i| i * 7 - 3).collect();
    let mut buf = start.clone();
    bit_reverse(&mut buf);
    assert_ne!(buf, start);
    bit_reverse(&mut buf);
    assert_eq!(buf, start);
}

#[test]
fn bit_reverse_small_lengths() {
    let mut one = [9u8];
    bit_reverse(&mut one);
    assert_eq!(one, [9]);
    let mut two = [1u8, 2];
    bit_reverse(&mut two);
    assert_eq!(two, [1, 2]);
    let mut four = [10u8, 11, 12, 13];
    bit_reverse(&mut four);
    assert_eq!(four, [10, 12, 11, 13]);
}
