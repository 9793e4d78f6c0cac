use tpt_dsp::spectrogram::Spectrogram;

#[test]
fn rows_are_chrono_ordered() {
    let mut s = Spectrogram::new(3, 2);
    s.push_row(&[1.0f32, 2.0]);
    s.push_row(&[3.0, 4.0]);
    s.push_row(&[5.0, 6.0]);
    let mut out = [0.0f32; 2];
    s.row(0, &mut out);
    assert_eq!(out, [1.0, 2.0]);
    s.row(2, &mut out);
    assert_eq!(out, [5.0, 6.0]);
}

#[test]
fn ring_overwrites_oldest() {
    let mut s = Spectrogram::new(2, 1);
    s.push_row(&[1.0f32]);
    s.push_row(&[2.0]);
    s.push_row(&[3.0]);
    assert_eq!(s.filled(), 2);
    let mut out = [0.0f32; 1];
    s.row(0, &mut out);
    assert_eq!(out[0], 2.0);
    s.latest(&mut out);
    assert_eq!(out[0], 3.0);
}

#[test]
fn as_image_flattens_in_order() {
    let mut s = Spectrogram::new(2, 2);
    s.push_row(&[1.0f32, 2.0]);
    s.push_row(&[3.0, 4.0]);
    let mut img = vec![0.0f32; 4];
    s.as_image(&mut img);
    assert_eq!(img, vec![1.0, 2.0, 3.0, 4.0]);
}

#[test]
fn long_run_keeps_the_last_rows_in_order() {
    let mut s = Spectrogram::<u32>::new(3, 2);
    assert_eq!((s.rows(), s.cols(), s.filled()), (3, 2, 0));
    for t in 0..10u32 {
        s.push_row(&[t, 100 + t]);
    }
    assert_eq!(s.filled(), 3);
    let mut img = vec![0u32; 8];
    s.as_image(&mut img);
    assert_eq!(img, vec![7, 107, 8, 108, 9, 109, 0, 0]);
    let mut out = [0u32; 2];
    s.latest(&mut out);
    assert_eq!(out, [9, 109]);
    s.row(1, &mut out);
    assert_eq!(out, [8, 108]);
}

#[test]
fn partial_image_leaves_tail_untouched() {
    let mut s = Spectrogram::<i16>::new(4, 1);
    s.push_row(&[5]);
    s.push_row(&[6]);
    let mut img = vec![-1i16; 4];
    s.as_image(&mut img);
    assert_eq!(img, vec![5, 6, -1, -1]);
}
