//! Recording, and sources that are no microphone.

use classagent::audio::device_note;
use classagent::audio::fixture_note;
use classagent::audio::Fate;
use classagent::audio::Replay;
use classagent::audio::Session;
use classagent::audio::Settings;
use classagent::audiofile::plan;
use classagent::audiofile::Mute;
use classagent::audiofile::Progress;
use classagent::fake::closing;
use classagent::fake::crashes;
use classagent::fake::event_ms;
use classagent::fake::tick;
use classagent::fake::Mock;
use classagent::fake::Pub;
use classagent::json::to_value;
use classagent::json::Json;
use classagent::vad::FrameStream;
use classagent::vad::Segment;
use classagent::wav::parse;

fn doc(text: &str) -> Json {
    Json::parse(text).expect("a document")
}

fn value(text: &str) -> serde_json::Value {
    serde_json::from_str(text).expect("a document")
}

fn segment(speech_ms: u64) -> Segment {
    Segment { t0_ms: 1_500, dur_ms: 3, speech_ms, peak: 7, samples: vec![1, -7, 3] }
}

fn session(params: &str) -> Session {
    Session::start("L1", &Settings::from_params(&doc(params)), 16_000, None)
}

#[test]
fn settings_have_defaults() {
    let s = Settings::from_params(&doc("{}"));
    assert_eq!((s.frame_ms, s.want_rate, s.emit_silence, s.use_fixture), (20, 16_000, false, false));
    let s = Settings::from_params(&doc(r#"{"fixture": "x.wav", "emit_silence": true}"#));
    assert!(s.use_fixture && s.emit_silence && s.fixture.as_deref() == Some("x.wav"));
    assert!(!Settings::from_params(&doc(r#"{"fixture": "x.wav", "source": "device"}"#)).use_fixture);
}

#[test]
fn turns_become_files() {
    let mut s = session("{}");
    let seg = segment(300);
    let Fate::Kept { name, bytes, voiced } = s.judge(&seg) else { panic!("a turn is kept") };
    assert_eq!((name.as_str(), voiced), ("audio-000000001500ms.wav", true));
    assert_eq!(parse(&bytes).unwrap().samples, vec![1, -7, 3]);
    let j = s.kept(&seg, &name, bytes.len() as u64, voiced, doc("5.0"));
    assert_eq!(
        to_value(&j),
        value(
            r#"{"blob": "audio-000000001500ms.wav", "len": 50, "codec": "pcm_s16le", "sample_rate": 16000, "channels": 1,
                "t0_ms": 1500, "dur_ms": 3, "silent": false, "rms": 5.0, "peak": 7, "speech_ms": 300,
                "trigger": "vad", "source": "a-audio"}"#
        )
    );
    assert_eq!((s.chunks, s.bytes, s.voiced_ms, s.silent_chunks), (1, 50, 300, 0));
    let j = to_value(&s.finish(8, 1).unwrap());
    assert_eq!((j["chunks"].as_u64(), j["voiced_ms"].as_u64(), j["stream_errors"].as_u64()), (Some(1), Some(300), Some(1)));
    assert_eq!(s.farewell(1), "收课 L1：1 段 / 50 字节，语音 300ms（静音段 0，短促丢弃 0，流错误 1）");
}

#[test]
fn noise_is_kept_only_where_it_is_asked_for() {
    let mut s = session("{}");
    assert!(matches!(s.judge(&segment(10)), Fate::Dropped));
    assert_eq!((s.vad.dropped_short, s.voiced_ms), (1, 0));
    let mut s = session(r#"{"emit_silence": true}"#);
    assert!(matches!(s.judge(&segment(10)), Fate::Kept { voiced: false, .. }));
}

#[test]
fn a_session_ends_when_asked() {
    let mut s = session("{}");
    assert!(s.end_if_due(true).is_none() && !s.done);
    s.request_stop();
    assert!(s.end_if_due(true).is_none() && s.done);
    let mut s = session("{}");
    assert!(s.end_if_due(false).is_none() && s.done);
    let mut dead = Session::start("L1", &Settings::from_params(&doc("{}")), 16_000, Some("no device".to_string()));
    assert!(dead.done && dead.finish(0, 0).is_none());
    s.write_failed("full");
    assert_eq!(s.farewell(0), "本节课未产出音频（写 blob 失败：full）");
}

#[test]
fn a_session_tells_where_sound_comes_from() {
    let s = session("{}");
    let note = device_note("麦克风", "I16", 2, 48_000, 16_000);
    let j = to_value(&s.opening(note, 20, doc("{}")));
    assert_eq!(
        j,
        value(
            r#"{"input": "device", "device": "麦克风", "sample_format": "I16", "device_channels": 2, "sample_rate": 48000,
                "wanted_sample_rate": 16000, "source": "a-audio", "lesson_id": "L1", "channels": 1,
                "codec": "pcm_s16le(wav)", "frame_ms": 20, "vad": {}}"#
        )
    );
    let j = to_value(&fixture_note("x.wav", 2, 8_000, 16_000, doc("200.0"), 9));
    assert_eq!(
        j,
        value(
            r#"{"input": "fixture", "path": "x.wav", "file_channels": 2, "sample_rate": 8000, "wanted_sample_rate": 16000,
                "speed": 200.0, "file_samples": 9}"#
        )
    );
}

#[test]
fn a_recording_is_played_to_its_end() {
    let mut r = Replay { pcm: vec![1, 2, 3], pos: 0 };
    let mut f = FrameStream::new(1);
    assert!(r.fill(&mut f, 2) && f.buffered() == 2);
    assert!(r.fill(&mut f, 2) && f.buffered() == 3);
    assert!(!r.fill(&mut f, 2));
    assert_eq!(f.take(3), Some(vec![1, 2, 3]));
}

#[test]
fn a_file_is_taken_apart() {
    assert_eq!(plan(&doc("{}"), "b").unwrap_err(), Mute::NoPath);
    assert_eq!(plan(&doc(r#"{"path": "p"}"#), "").unwrap_err(), Mute::NoBlobDir);
    let huge = doc(r#"{"path": "p", "sample_rate": 4000000000, "chunk_ms": 18446744073709551615}"#);
    assert_eq!(plan(&huge, "b").unwrap_err(), Mute::TooLarge);
    let p = plan(&doc(r#"{"path": "p", "chunk_ms": 500}"#), "b").unwrap();
    assert_eq!((p.bytes_per_chunk, p.ext.as_str(), p.codec.as_str()), (16_000, "pcm", "pcm_s16le"));
    assert_eq!(plan(&doc(r#"{"path": "p", "codec": "opus"}"#), "b").unwrap().ext, "bin");
    assert_eq!(
        to_value(&p.opening()),
        value(r#"{"source": "a-audiofile", "path": "p", "codec": "pcm_s16le", "sample_rate": 16000, "channels": 1, "chunk_ms": 500}"#)
    );
    let mut g = Progress::new();
    let name = g.name(&p.ext);
    assert_eq!(name, "audio-000000000000ms.pcm");
    let j = g.piece(&p, &name, 16_000, 500);
    assert_eq!(
        to_value(&j),
        value(
            r#"{"blob": "audio-000000000000ms.pcm", "len": 16000, "codec": "pcm_s16le", "sample_rate": 16000,
                "channels": 1, "t0_ms": 0, "dur_ms": 500, "silent": false}"#
        )
    );
    assert_eq!(g.name("pcm"), "audio-000000000500ms.pcm");
    g.piece(&p, "x", 1, 0);
    assert_eq!(g, Progress { t_ms: 501, total_bytes: 16_001, chunks: 2 });
    assert_eq!(to_value(&g.closing(doc("1.5"))), value(r#"{"source": "a-audiofile", "chunks": 2, "bytes": 16001, "wall_s": 1.5}"#));
}

#[test]
fn made_up_lessons_have_holes_where_asked() {
    let mut p = Pub::new(&doc(r#"{"skip_seq_at": [2, 3, "x", 5]}"#));
    assert_eq!((p.next_seq(), p.next_seq(), p.next_seq()), (Some(1), Some(4), Some(6)));
    assert!(crashes(5, 5) && !crashes(4, 5) && !crashes(9, 0));
}

#[test]
fn made_up_lessons_keep_their_beat() {
    let v = tick(0, 0, "三班", "数学");
    assert_eq!(v.len(), 2);
    assert!(matches!(&v[0], Mock::Speech { t1_ms: 1_800, speaker, text, .. }
        if speaker == "student" && text == "模拟句 0：三班 的 数学 课，这里是第 1 段讲解。"));
    assert!(matches!(&v[1], Mock::Page { page_id, index: 0 } if page_id == "p-0000"));
    assert!(matches!(&tick(3, 900, "c", "s")[0], Mock::Stroke { stroke_id, tool, .. } if stroke_id == "s-3" && tool == "highlighter"));
    assert!(matches!(&tick(97, 0, "c", "s")[0], Mock::Undo { stroke_id, page_id } if stroke_id == "s-96" && page_id == "p-0001"));
    assert!(tick(1, 0, "c", "s").is_empty());
}

#[test]
fn made_up_strokes_are_taken_back_later() {
    let v = tick(97, 29_100, "c", "s");
    let undo = v.iter().find(|m| matches!(m, Mock::Undo { .. })).unwrap();
    assert_eq!(event_ms(undo, 29_100), 29_300);
    assert_eq!(event_ms(&tick(0, 0, "c", "s")[0], 7), 7);
    assert_eq!(to_value(&closing(600, 2)), value(r#"{"source": "a-fake", "simulated_ms": 600, "ticks": 2}"#));
}
