use ogg_reducer::application::Application;
use ogg_reducer::pipeline::{
    accumulate, FrameDecodeError, PcmFrame, TranscodeError,
};
use ogg_reducer::resample::DegenerateRateError;

fn frame(samples: Vec<i16>, channels: u16, rate: u64) -> Result<PcmFrame, FrameDecodeError> {
    Ok(PcmFrame { samples, channels, rate })
}

#[test]
fn one_corrupt_packet_among_ten_is_skipped() {
    let mut units = Vec::new();
    for k in 0..10i16 {
        if k == 4 {
            units.push(Err(FrameDecodeError));
        } else {
            units.push(frame(vec![k, k + 2, 10 * k, 10 * k + 2], 1, 16000));
        }
    }
    let acc = accumulate(&units, 8000).unwrap();
    assert_eq!(acc.skipped, 1);
    let mut expected = Vec::new();
    for k in 0..10i16 {
        if k != 4 {
            expected.push(k + 1);
            expected.push(10 * k + 1);
        }
    }
    assert_eq!(acc.samples.len(), 18);
    assert_eq!(acc.samples, expected);
}

#[test]
fn frames_keep_their_own_parameters() {
    let units = vec![
        frame(vec![1, 2, 3, 4, 5, 6, 7, 8], 2, 16000),
        frame(vec![9, 11], 1, 8000),
        frame(vec![1, 1, 1, 1, 1, 1], 1, 24000),
    ];
    let acc = accumulate(&units, 8000).unwrap();
    assert_eq!(acc.samples, vec![5, 13, 9, 11, 1, 1]);
    assert_eq!(acc.skipped, 0);
}

#[test]
fn frame_without_channels_is_skipped() {
    let units = vec![frame(vec![1, 2], 0, 16000), frame(vec![4, 6], 1, 16000)];
    let acc = accumulate(&units, 8000).unwrap();
    assert_eq!(acc.samples, vec![5]);
    assert_eq!(acc.skipped, 1);
}

#[test]
fn empty_stream_accumulates_nothing() {
    let acc = accumulate(&Vec::new(), 8000).unwrap();
    assert!(acc.samples.is_empty());
    assert_eq!(acc.skipped, 0);
}

#[test]
fn low_rate_frame_aborts_accumulation() {
    let units = vec![
        frame(vec![1, 2], 1, 16000),
        Err(FrameDecodeError),
        frame(vec![1, 2], 1, 4000),
        frame(vec![1, 2], 1, 2000),
    ];
    let r = accumulate(&units, 8000);
    assert_eq!(
        r.unwrap_err(),
        TranscodeError::DegenerateRate(DegenerateRateError { rate: 4000, target_rate: 8000 })
    );
}

#[test]
fn new_application_has_empty_text() {
    let app = Application::new();
    assert!(app.text.is_empty());
}
