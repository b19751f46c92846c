use ogg_reducer::resample::{resample, shorten, DegenerateRateError, LEAST_RATE};

#[test]
fn short_stereo_input_stays_in_bounds() {
    let r = resample(&vec![10, 20, 30, 40], 2, 16000, 8000);
    assert_eq!(r, Ok(vec![50]));
}

#[test]
fn target_above_rate_is_degenerate() {
    let r = resample(&vec![1, 2, 3, 4], 1, 8000, 16000);
    assert_eq!(r, Err(DegenerateRateError { rate: 8000, target_rate: 16000 }));
}

#[test]
fn stereo_frames_average_in_pairs() {
    let r = resample(&vec![1, 2, 3, 4, 5, 6, 7, 8], 2, 16000, 8000);
    assert_eq!(r, Ok(vec![5, 13]));
}

#[test]
fn output_length_is_floor_of_ratio() {
    let samples: Vec<i16> = (0..300).map(|x| x as i16).collect();
    let r = resample(&samples, 3, 44100, 8000).unwrap();
    assert_eq!(r.len(), (300 * 8000) / (3 * 44100));
    assert_eq!(r.len(), 18);
    let r = resample(&vec![0; 7], 1, 16000, 8000).unwrap();
    assert_eq!(r.len(), 3);
    let r = resample(&Vec::new(), 2, 48000, 8000).unwrap();
    assert!(r.is_empty());
}

#[test]
fn uneven_ratio_windows() {
    let samples: Vec<i16> = (0..17).collect();
    let r = resample(&samples, 1, 44100, 8000).unwrap();
    assert_eq!(r, vec![2, 7, 13]);
}

#[test]
fn constant_mono_signal_stays_constant() {
    let r = resample(&vec![-7; 441], 1, 44100, 8000).unwrap();
    assert_eq!(r.len(), 80);
    assert!(r.iter().all(|&x| x == -7));
}

#[test]
fn constant_stereo_signal_sums_channels() {
    let r = resample(&vec![7; 400], 2, 16000, 8000).unwrap();
    assert_eq!(r.len(), 100);
    assert!(r.iter().all(|&x| x == 14));
}

#[test]
fn equal_rates_mono_is_identity() {
    let samples = vec![5, -3, 32767, -32768, 0, 12];
    assert_eq!(resample(&samples, 1, 22050, 22050), Ok(samples.clone()));
    assert_eq!(resample(&samples, 1, 8000, 8000), Ok(samples));
}

#[test]
fn negative_average_rounds_toward_zero() {
    assert_eq!(resample(&vec![-3, -4], 1, 16000, 8000), Ok(vec![-3]));
    assert_eq!(resample(&vec![3, 4], 1, 16000, 8000), Ok(vec![3]));
}

#[test]
fn mixed_channels_wrap_to_sixteen_bits() {
    assert_eq!(resample(&vec![30000, 30000], 2, 8000, 8000), Ok(vec![-5536]));
}

#[test]
fn trailing_partial_window_is_dropped() {
    assert_eq!(resample(&vec![2, 4, 6, 8, 100], 1, 16000, 8000), Ok(vec![3, 7]));
}

#[test]
fn shorten_uses_least_rate() {
    assert_eq!(LEAST_RATE, 8000);
    assert_eq!(shorten(&vec![1, 3, 5, 7], 1, 16000), vec![2, 6]);
    assert_eq!(shorten(&vec![1, 2, 3, 4, 5, 6, 7, 8], 2, 16000), vec![5, 13]);
}
