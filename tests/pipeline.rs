use virtual_mic::decoder::{
    pad_silence, AudioDecoder, DecodeError, ReadAction, ReadEvent, TrackInfo, SAMPLE_RATE,
};
use virtual_mic::pcm::{clamp_gain, downmix_block, floor_div, resample, MAX_GAIN, UNITY_GAIN};

const HALF_SCALE: i32 = 1 << 30;

fn track(rate: u32) -> TrackInfo {
    TrackInfo { id: 1, codec_is_null: false, sample_rate: Some(rate) }
}

fn to_float(x: i64) -> f64 {
    x as f64 / 2147483648.0
}

#[test]
fn floor_division_rounds_down() {
    assert_eq!(floor_div(7, 2), 3);
    assert_eq!(floor_div(-7, 2), -4);
    assert_eq!(floor_div(-8, 2), -4);
    assert_eq!(floor_div(0, 5), 0);
}

#[test]
fn gain_is_clamped() {
    assert_eq!(clamp_gain(-5), 0);
    assert_eq!(clamp_gain(200000), MAX_GAIN);
    assert_eq!(clamp_gain(65536), UNITY_GAIN);
}

#[test]
fn stereo_frames_average() {
    let block = vec![3, 4, -3, -4, 100, 200];
    assert_eq!(downmix_block(&block, 2, UNITY_GAIN), vec![3, -4, 150]);
    assert_eq!(downmix_block(&block, 2, MAX_GAIN), vec![6, -8, 300]);
}

#[test]
fn partial_last_frame_counts() {
    let block = vec![10, 20, 30];
    assert_eq!(downmix_block(&block, 2, UNITY_GAIN), vec![15, 15]);
}

#[test]
fn half_volume_halves_samples() {
    let block = vec![1000, 3000, -4000, 0];
    let unity = downmix_block(&block, 2, UNITY_GAIN);
    let half = downmix_block(&block, 2, UNITY_GAIN / 2);
    assert_eq!(unity, vec![2000, -2000]);
    assert_eq!(half, vec![1000, -1000]);
}

#[test]
fn linear_interpolation_upsamples() {
    assert_eq!(resample(&vec![0, 100], 1, 2), vec![0, 50, 100, 100]);
    assert_eq!(resample(&vec![0, 100, 200, 300], 2, 1), vec![0, 200]);
}

#[test]
fn first_real_track_is_selected() {
    let mut dec = AudioDecoder::new(false, 65536);
    let tracks = vec![
        TrackInfo { id: 5, codec_is_null: true, sample_rate: None },
        TrackInfo { id: 7, codec_is_null: false, sample_rate: Some(44100) },
        TrackInfo { id: 9, codec_is_null: false, sample_rate: Some(8000) },
    ];
    assert_eq!(dec.select_track(&tracks), Ok(7));
    assert_eq!(dec.track_id(), Some(7));
    assert_eq!(dec.source_sample_rate(), Some(44100));
}

#[test]
fn no_real_track_is_an_error() {
    let mut dec = AudioDecoder::new(false, 65536);
    let tracks = vec![TrackInfo { id: 5, codec_is_null: true, sample_rate: None }];
    assert_eq!(dec.select_track(&tracks), Err(DecodeError::NoAudioTrack));
    assert_eq!(dec.select_track(&vec![]), Err(DecodeError::NoAudioTrack));
    assert_eq!(dec.track_id(), None);
}

#[test]
fn reads_are_routed() {
    let mut dec = AudioDecoder::new(false, 65536);
    assert_eq!(dec.next_action(ReadEvent::EndOfStream), ReadAction::Fail(DecodeError::NotOpened));
    dec.select_track(&vec![track(48000)]).unwrap();
    assert_eq!(dec.next_action(ReadEvent::Packet { track_id: 1 }), ReadAction::Decode);
    assert_eq!(dec.next_action(ReadEvent::Packet { track_id: 2 }), ReadAction::Skip);
    assert_eq!(dec.next_action(ReadEvent::EndOfStream), ReadAction::Exhausted);
    assert_eq!(dec.next_action(ReadEvent::Failed), ReadAction::Fail(DecodeError::ReadFailed));
}

#[test]
fn fill_always_returns_requested_count() {
    let mut dec = AudioDecoder::new(false, 65536);
    dec.select_track(&vec![track(48000)]).unwrap();
    dec.push_block(&vec![1, 2, 3], 1);
    let mut out = Vec::new();
    assert!(!dec.fill_from_buffer(&mut out, 10));
    assert_eq!(out, vec![1, 2, 3]);
    assert_eq!(dec.next_action(ReadEvent::EndOfStream), ReadAction::Exhausted);
    pad_silence(&mut out, 10);
    assert_eq!(out, vec![1, 2, 3, 0, 0, 0, 0, 0, 0, 0]);

    let mut empty = Vec::new();
    assert!(!dec.fill_from_buffer(&mut empty, 4));
    pad_silence(&mut empty, 4);
    assert_eq!(empty, vec![0, 0, 0, 0]);
}

#[test]
fn fill_keeps_the_rest_buffered() {
    let mut dec = AudioDecoder::new(false, 65536);
    dec.select_track(&vec![track(48000)]).unwrap();
    dec.push_block(&vec![1, 2, 3, 4, 5], 1);
    let mut out = Vec::new();
    assert!(dec.fill_from_buffer(&mut out, 2));
    assert_eq!(out, vec![1, 2]);
    assert_eq!(dec.pending_len(), 3);
    let mut next = Vec::new();
    assert!(dec.fill_from_buffer(&mut next, 3));
    assert_eq!(next, vec![3, 4, 5]);
}

#[test]
fn looping_source_restarts() {
    let mut dec = AudioDecoder::new(true, 65536);
    dec.select_track(&vec![track(48000)]).unwrap();
    dec.push_block(&vec![HALF_SCALE; 4], 1);
    let mut out = Vec::new();
    assert!(dec.fill_from_buffer(&mut out, 4));
    assert_eq!(dec.next_action(ReadEvent::EndOfStream), ReadAction::Restart);
    assert_eq!(dec.select_track(&vec![track(48000)]), Ok(1));
    dec.push_block(&vec![HALF_SCALE; 4], 1);
    let mut again = Vec::new();
    assert!(dec.fill_from_buffer(&mut again, 4));
    assert!(again.iter().all(|&x| x == HALF_SCALE as i64));
}

#[test]
fn constant_source_resampled_end_to_end() {
    let mut dec = AudioDecoder::new(false, 65536);
    dec.select_track(&vec![track(44100)]).unwrap();
    dec.push_block(&vec![HALF_SCALE; 44100], 1);
    assert_eq!(dec.pending_len(), SAMPLE_RATE as usize);
    let mut out = Vec::new();
    assert!(dec.fill_from_buffer(&mut out, 4800));
    assert_eq!(out.len(), 4800);
    assert!(out.iter().all(|&x| (to_float(x) - 0.5).abs() <= 0.01));

    let mut rest = Vec::new();
    assert!(dec.fill_from_buffer(&mut rest, 43200));
    let mut after = Vec::new();
    assert!(!dec.fill_from_buffer(&mut after, 4800));
    assert_eq!(dec.next_action(ReadEvent::EndOfStream), ReadAction::Exhausted);
    pad_silence(&mut after, 4800);
    assert_eq!(after.len(), 4800);
    assert!(after.iter().all(|&x| x == 0));
}

#[test]
fn volume_scales_resampled_output() {
    let mut loud = AudioDecoder::new(false, 2 * 65536);
    let mut unity = AudioDecoder::new(false, 65536);
    loud.select_track(&vec![track(44100)]).unwrap();
    unity.select_track(&vec![track(44100)]).unwrap();
    let block: Vec<i32> = (0..441).map(|i| (i * 1000) as i32).collect();
    loud.push_block(&block, 1);
    unity.push_block(&block, 1);
    let mut a = Vec::new();
    let mut b = Vec::new();
    assert!(loud.fill_from_buffer(&mut a, 480));
    assert!(unity.fill_from_buffer(&mut b, 480));
    for (x, y) in a.iter().zip(b.iter()) {
        assert!((x - 2 * y).abs() <= 2);
    }
}
