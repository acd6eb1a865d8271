//! Cutting sound into turns.

use classagent::json::Json;
use classagent::schema::Real;
use classagent::vad::downmix;
use classagent::vad::frame_peak;
use classagent::vad::frame_samples_for;
use classagent::vad::FrameStream;
use classagent::vad::Segment;
use classagent::vad::Vad;
use classagent::vad::VadConfig;

const SR: u32 = 16_000;

/// A sine as loud as somebody who speaks.
fn tone(ms: u64, amp: f64, freq: f64) -> Vec<i16> {
    let n = (ms * SR as u64 / 1_000) as usize;
    (0..n)
        .map(|i| (amp * (2.0 * std::f64::consts::PI * freq * i as f64 / SR as f64).sin()) as i16)
        .collect()
}

/// The noise floor of a class room, which is not all zeros.
fn silence(ms: u64) -> Vec<i16> {
    let n = (ms * SR as u64 / 1_000) as usize;
    (0..n).map(|i| ((i % 7) as f64 * 3.0 - 9.0) as i16).collect()
}

fn frame_rms(frame: &[i16]) -> f64 {
    if frame.is_empty() {
        return 0.0;
    }
    let acc: f64 = frame.iter().map(|s| (*s as f64) * (*s as f64)).sum();
    (acc / frame.len() as f64).sqrt()
}

fn level(frame: &[i16]) -> Real {
    Real { bits: frame_rms(frame).to_bits() }
}

fn float(r: Real) -> f64 {
    f64::from_bits(r.bits)
}

/// The turns that are kept of a stream that comes frame by frame.
fn run(cfg: VadConfig, stream: &[i16]) -> Vec<Segment> {
    let fs = frame_samples_for(&cfg, SR, 1);
    let mut vad = Vad::new(cfg, SR, 1);
    let mut out = Vec::new();
    for chunk in stream.chunks(fs) {
        if let Some(s) = vad.push(chunk, level(chunk)) {
            if vad.accept(&s) {
                out.push(s);
            }
        }
    }
    if let Some(s) = vad.flush() {
        if vad.accept(&s) {
            out.push(s);
        }
    }
    out
}

#[test]
fn stereo_is_averaged_not_summed() {
    assert_eq!(downmix(&[100, -100, 200, 400, 0, 0], 2), vec![0, 300, 0]);
}

#[test]
fn quad_stream_downmixes_frame_by_frame() {
    assert_eq!(downmix(&[10i16, 20, 30, 40, -10, -20, -30, -40], 4), vec![25, -25]);
}

#[test]
fn mono_passes_through_and_zero_channels_does_not_panic() {
    let v = [1i16, -2, 3];
    assert_eq!(downmix(&v, 1), v.to_vec());
    assert_eq!(downmix(&v, 0), v.to_vec(), "no channel counts as one");
}

#[test]
fn one_burst_becomes_one_segment_with_tails() {
    let mut s = silence(500);
    s.extend(tone(700, 9_000.0, 220.0));
    s.extend(silence(1_000));
    let segs = run(VadConfig::default(), &s);
    assert_eq!(segs.len(), 1, "{segs:?}");
    let g = &segs[0];
    assert!(g.t0_ms >= 380 && g.t0_ms <= 500, "t0={}ms", g.t0_ms);
    assert!(g.dur_ms >= 700 && g.dur_ms <= 1_200, "{}", g.dur_ms);
    assert!(g.speech_ms >= 600, "{}", g.speech_ms);
}

#[test]
fn a_short_pause_inside_speech_does_not_split_the_turn() {
    let mut s = silence(300);
    s.extend(tone(600, 9_000.0, 180.0));
    s.extend(silence(150));
    s.extend(tone(600, 9_000.0, 180.0));
    s.extend(silence(1_200));
    let segs = run(VadConfig::default(), &s);
    assert_eq!(segs.len(), 1, "{segs:?}");
    assert!(segs[0].speech_ms >= 1_100, "{}", segs[0].speech_ms);
}

#[test]
fn a_real_pause_splits_turns() {
    let mut s = silence(300);
    s.extend(tone(600, 9_000.0, 180.0));
    s.extend(silence(1_200));
    s.extend(tone(600, 9_000.0, 180.0));
    s.extend(silence(1_200));
    let segs = run(VadConfig::default(), &s);
    assert_eq!(segs.len(), 2, "{segs:?}");
    assert!(segs[1].t0_ms > segs[0].t0_ms + 1_000);
}

#[test]
fn door_slam_is_dropped_and_counted() {
    let mut s = silence(1_000);
    s.extend(tone(80, 20_000.0, 90.0));
    s.extend(silence(1_000));
    let cfg = VadConfig::default();
    let fs = frame_samples_for(&cfg, SR, 1);
    let mut vad = Vad::new(cfg, SR, 1);
    let mut kept = Vec::new();
    for chunk in s.chunks(fs) {
        if let Some(seg) = vad.push(chunk, level(chunk)) {
            if vad.accept(&seg) {
                kept.push(seg);
            }
        }
    }
    if let Some(seg) = vad.flush() {
        if vad.accept(&seg) {
            kept.push(seg);
        }
    }
    assert!(kept.is_empty(), "{kept:?}");
    assert_eq!(vad.dropped_short(), 1);
}

#[test]
fn continuous_speech_is_capped_by_max_segment() {
    let s = tone(25_000, 9_000.0, 200.0);
    let segs = run(VadConfig::default(), &s);
    assert!(segs.len() >= 3, "{}", segs.len());
    for g in &segs {
        assert!(g.dur_ms <= 8_500, "{}", g.dur_ms);
    }
    let covered: u64 = segs.iter().map(|g| g.dur_ms).sum();
    assert!(covered > 24_000, "{covered}ms");
}

#[test]
fn flush_returns_the_tail_sentence() {
    let s = tone(1_000, 9_000.0, 200.0);
    let cfg = VadConfig::default();
    let fs = frame_samples_for(&cfg, SR, 1);
    let mut vad = Vad::new(cfg, SR, 1);
    for chunk in s.chunks(fs) {
        vad.push(chunk, level(chunk));
    }
    let tail = vad.flush().expect("the turn that is still open");
    assert!(tail.dur_ms >= 900, "{}", tail.dur_ms);
    assert!(vad.flush().is_none());
}

#[test]
fn levels_and_peaks_are_reported() {
    let segs = run(VadConfig::default(), &tone(900, 12_000.0, 150.0));
    assert_eq!(segs.len(), 1);
    assert!(segs[0].peak > 11_000, "{}", segs[0].peak);
    let rms = frame_rms(&segs[0].samples);
    let expected = segs[0].peak as f64 / 2f64.sqrt();
    assert!((rms - expected).abs() / expected < 0.15, "rms={rms} expected={expected}");
}

#[test]
fn inverted_thresholds_are_clamped_instead_of_hanging_open() {
    let j = Json::parse(r#"{ "rms_open": 400.0, "rms_close": 900.0 }"#).unwrap();
    let c = VadConfig::from_json(Some(&j));
    assert!(float(c.rms_close) < float(c.rms_open));
    assert_eq!(float(c.rms_open), 400.0);
    assert_eq!(float(c.rms_close), 400.0 * 0.6);
}

#[test]
fn timing_is_derived_from_the_actual_stream_format() {
    let vad = Vad::new(VadConfig::default(), 44_100, 2);
    assert_eq!(vad.ms(882), 10);
    assert_eq!(vad.samples_for(20), 44_100 * 2 * 20 / 1_000);
}

#[test]
fn onset_samples_are_not_counted_twice() {
    let mut stream = silence(300);
    stream.extend(tone(400, 9_000.0, 200.0));
    let segs = run(VadConfig::default(), &stream);
    assert_eq!(segs.len(), 1);
    let g = &segs[0];
    assert_eq!(g.dur_ms, 520);
    assert_eq!(g.samples.len(), (520 * SR as u64 / 1_000) as usize);
    assert_eq!(g.speech_ms, 400);
    assert_eq!(g.t0_ms, 180);
}

#[test]
fn pure_silence_produces_nothing() {
    let segs = run(VadConfig::default(), &silence(5_000));
    assert!(segs.is_empty(), "{segs:?}");
}

#[test]
fn frames_are_reassembled_from_arbitrary_device_buffers() {
    let mut fs = FrameStream::new(20);
    assert_eq!(fs.frame_samples(16_000, 1), 320);
    fs.feed(&vec![1i16; 300]);
    assert!(fs.take(320).is_none());
    assert_eq!(fs.buffered(), 300);
    fs.feed(&vec![1i16; 50]);
    let f = fs.take(320).expect("a whole frame");
    assert_eq!(f.len(), 320);
    assert_eq!(fs.buffered(), 30);
}

#[test]
fn frame_sizing_follows_the_real_stream_format() {
    let fs = FrameStream::new(20);
    assert_eq!(fs.frame_samples(48_000, 1), 960);
    assert_eq!(fs.frame_samples(48_000, 2), 1_920);
    assert_eq!(fs.frame_samples(0, 0), 1);
}

#[test]
fn consumed_ms_tracks_the_audio_not_the_wall_clock() {
    let cfg = VadConfig::default();
    let fs = frame_samples_for(&cfg, SR, 1);
    let mut vad = Vad::new(cfg, SR, 1);
    assert_eq!(vad.consumed_ms(), 0);
    for _ in 0..50 {
        let s = silence(20);
        vad.push(&s, level(&s));
    }
    assert_eq!(vad.consumed_ms(), 50 * fs as u64 * 1_000 / SR as u64);
    assert_eq!(vad.consumed_ms(), 1_000);
}

#[test]
fn a_peak_is_the_largest_height() {
    assert_eq!(frame_peak(&[3, -700, 12, 699]), 700);
    assert_eq!(frame_peak(&[]), 0);
    assert_eq!(frame_peak(&[i16::MAX, -1]), i16::MAX);
}

#[test]
fn settings_out_of_range_fall_back() {
    let d = VadConfig::default();
    let c = VadConfig::from_json(None);
    assert_eq!((c.frame_ms, c.hangover_ms, c.preroll_ms), (d.frame_ms, d.hangover_ms, d.preroll_ms));
    assert_eq!((float(c.rms_open), float(c.rms_close)), (500.0, 300.0));
    let j = Json::parse(r#"{ "rms_open": 45, "rms_close": 35, "hangover_ms": 500, "max_segment_ms": 10000 }"#).unwrap();
    let c = VadConfig::from_json(Some(&j));
    assert_eq!((float(c.rms_open), float(c.rms_close)), (45.0, 35.0));
    assert_eq!((c.hangover_ms, c.max_segment_ms, c.min_speech_ms), (500, 10_000, d.min_speech_ms));
}

#[test]
fn a_turn_is_a_piece_of_the_stream() {
    let mut s = silence(300);
    s.extend(tone(600, 9_000.0, 180.0));
    s.extend(silence(1_200));
    let segs = run(VadConfig::default(), &s);
    assert_eq!(segs.len(), 1);
    let from = (segs[0].t0_ms * SR as u64 / 1_000) as usize;
    assert_eq!(segs[0].samples.as_slice(), &s[from..from + segs[0].samples.len()]);
}

#[test]
fn it_is_known_which_frame_closes_a_turn() {
    let mut stream = tone(600, 8_000.0, 440.0);
    stream.extend(silence(1_200));
    let cfg = VadConfig::default();
    let n = frame_samples_for(&cfg, SR, 1);
    let mut vad = Vad::new(cfg, SR, 1);
    let mut closed = 0;
    for chunk in stream.chunks(n) {
        let told = vad.closes(chunk, level(chunk));
        assert_eq!(vad.push(chunk, level(chunk)).is_some(), told);
        closed += told as usize;
    }
    assert_eq!(closed, 1);
    assert!(!vad.closes(&[], Real { bits: 0 }));
}

#[test]
fn the_lowest_sample_does_no_harm_in_silence() {
    let mut vad = Vad::new(VadConfig::default(), SR, 1);
    let mut frame = vec![0i16; 8_000];
    frame[0] = i16::MIN;
    assert!(frame_rms(&frame) < 500.0);
    assert!(!vad.closes(&frame, level(&frame)));
    assert!(vad.push(&frame, level(&frame)).is_none());
    assert!(!vad.open);
    assert_eq!(vad.consumed_ms(), 500);
}
