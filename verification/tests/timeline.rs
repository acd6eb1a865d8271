//! Folding a lesson.

use classagent::health::health;
use classagent::health::SourceHealth;
use classagent::json::to_value;
use classagent::json::Json;
use classagent::kinds;
use classagent::schema::AudioChunk;
use classagent::schema::Envelope;
use classagent::schema::Keyframe;
use classagent::schema::LessonInfo;
use classagent::schema::LessonMeta;
use classagent::schema::RecordStatus;
use classagent::schema::StoredRecord;
use classagent::timeline::build;
use classagent::timeline::longest_silence;
use classagent::timeline::overlap_ms;
use classagent::timeline::AiPayload;
use classagent::track::pick;
use classagent::track::target_of;
use classagent::track::Body;
use classagent::track::Entry;
use classagent::track::Target;

fn doc(text: &str) -> Json {
    Json::parse(text).expect("a document")
}

fn meta() -> LessonMeta {
    LessonMeta {
        info: LessonInfo {
            lesson_id: "L-test".into(),
            prev_lesson_id: None,
            subject: None,
            class: None,
            teacher: None,
            started_at_utc_ms: 0,
            courseware: vec![],
            blob_dir: "data/lessons/L-test/blobs".into(),
            params: doc("{}"),
        },
        started_core_mono_us: 0,
        ended_core_mono_us: Some(60_000_000),
        stop_reason: None,
    }
}

/// A payload in its type.
fn body(kind: &str, p: &Json) -> Body {
    match target_of(kind) {
        Target::Audio => Body::Audio(AudioChunk {
            blob: p.str_at("blob").unwrap().to_string(),
            len: p.u64_at("len").unwrap(),
            codec: p.str_at("codec").unwrap().to_string(),
            sample_rate: p.u64_at("sample_rate").unwrap() as u32,
            channels: p.u64_at("channels").unwrap() as u16,
            t0_ms: p.u64_at("t0_ms").unwrap(),
            dur_ms: p.u64_at("dur_ms").unwrap(),
            silent: p.get("silent").and_then(|v| v.as_bool()).unwrap_or(false),
        }),
        Target::Picture => Body::Picture(Keyframe {
            blob: p.str_at("blob").unwrap().to_string(),
            len: p.u64_at("len").unwrap(),
            t_ms: p.u64_at("t_ms").unwrap(),
            trigger: p.str_at("trigger").unwrap().to_string(),
            matched_doc_id: None,
            matched_page_id: None,
            matched_confidence: None,
        }),
        Target::Close => {
            let wall_s = p.bits_at("wall_s").map(f64::from_bits).unwrap_or(0.0);
            Body::Close { wall_s_ms: (wall_s * 1000.0) as u64 }
        }
        _ => Body::Plain,
    }
}

fn rec(id: &str, seq: u64, kind: &str, t_ms: u64, payload: &str) -> Entry {
    let payload = doc(payload);
    let body = body(kind, &payload);
    Entry {
        record: StoredRecord {
            global_seq: seq,
            adapter_id: id.into(),
            t_core_utc_ms: 0,
            t_core_mono_us: t_ms * 1_000,
            status: RecordStatus::Accepted,
            gap: None,
            envelope: Envelope::new(seq, kind, Some(t_ms), payload, 0, 0),
            raw: None,
        },
        body,
    }
}

fn open() -> Entry {
    rec(
        "a-audio",
        1,
        kinds::SESSION_OPEN,
        0,
        r#"{
            "input": "device", "device": "麦克风", "sample_rate": 48000,
            "vad": {"frame_ms": 20, "rms_open": 45.0, "rms_close": 35.0, "hangover_ms": 500,
                     "preroll_ms": 150, "min_speech_ms": 300, "max_segment_ms": 10000}
        }"#,
    )
}

/// A piece of sound, with more members that its source reported.
fn chunk(seq: u64, t0: u64, extra: &str) -> Entry {
    let more = if extra.is_empty() { String::new() } else { format!(", {extra}") };
    let p = format!(
        "{{\"blob\": \"audio-{t0:012}ms.wav\", \"len\": 130604, \"codec\": \"pcm_s16le\", \
         \"sample_rate\": 48000, \"channels\": 1, \"t0_ms\": {t0}, \"dur_ms\": 2000, \"silent\": false{more}}}"
    );
    rec("a-audio", seq, kinds::AUDIO_CHUNK, t0, &p)
}

fn fold(es: Vec<Entry>) -> AiPayload {
    build(&meta(), &es, 0).expect("times in range")
}

fn source<'a>(p: &'a AiPayload, id: &str) -> &'a SourceHealth {
    &p.sources.iter().find(|s| s.0 == id).expect("a source").1
}

#[test]
fn close_is_no_longer_an_unrecognized_event() {
    let p = fold(vec![
        open(),
        chunk(2, 1_000, r#""rms": 117.0, "peak": 1193, "speech_ms": 1360, "trigger": "vad""#),
        rec(
            "a-audio",
            3,
            kinds::SESSION_CLOSE,
            8_000_000,
            r#"{"chunks": 1, "bytes": 130604, "voiced_ms": 1360, "dropped_short": 1,
                "stream_errors": 0, "audio_ms": 7900, "wall_ms": 8000, "error": null}"#,
        ),
    ]);
    assert!(
        !p.track.iter().any(|i| i.text.contains("未识别事件")),
        "{:?}",
        p.track.iter().map(|i| i.text.clone()).collect::<Vec<_>>()
    );
    let h = source(&p, "a-audio");
    let c = h.close.clone().expect("what was reported at the end");
    assert_eq!((c.closes, c.chunks, c.bytes, c.voiced_ms, c.dropped_short), (1, 1, 130604, 1360, 1));
    assert_eq!(c.stream_errors, 0);
    assert_eq!(p.stats.stream_errors, 0);
    assert_eq!(p.stats.audio_speech_ms, 1360);
    assert_eq!(p.stats.duration_ms, 3_000);
    let v = h.vad.as_ref().expect("what was reported at the start");
    assert_eq!(
        (f64::from_bits(v.rms_open.bits), f64::from_bits(v.rms_close.bits), v.max_segment_ms),
        (45.0, 35.0, 10000)
    );
    assert_eq!(v.sample_rate, Some(48000));
}

#[test]
fn a_sparse_close_from_another_adapter_reads_as_zeros() {
    let p = fold(vec![rec(
        "a-audiofile",
        1,
        kinds::SESSION_CLOSE,
        5_000,
        r#"{"source": "a-audiofile", "chunks": 7, "bytes": 220500, "wall_s": 12.34}"#,
    )]);
    let c = source(&p, "a-audiofile").close.clone().expect("few members are a report too");
    assert_eq!((c.chunks, c.bytes, c.wall_ms, c.voiced_ms, c.stream_errors), (7, 220500, 12340, 0, 0));
    assert!(p.warnings.is_empty(), "{:?}", p.warnings);
}

#[test]
fn several_generations_in_one_lesson_add_up() {
    let close = |seq: u64, chunks: u64, errs: u64| {
        rec(
            "a-audio",
            seq,
            kinds::SESSION_CLOSE,
            seq * 1000,
            &format!(
                "{{\"chunks\": {chunks}, \"bytes\": {}, \"voiced_ms\": {}, \"dropped_short\": 1, \
                 \"stream_errors\": {errs}, \"audio_ms\": 1000, \"wall_ms\": 1000}}",
                chunks * 100,
                chunks * 900
            ),
        )
    };
    let p = fold(vec![close(1, 2, 1), close(2, 3, 2)]);
    let c = source(&p, "a-audio").close.clone().unwrap();
    assert_eq!((c.closes, c.chunks, c.voiced_ms, c.stream_errors), (2, 5, 4500, 3));
    assert_eq!(p.stats.stream_errors, 3);
    assert!(
        p.warnings.iter().any(|w| w.contains("a-audio") && w.contains("报过 3 次采集流错误")),
        "{:?}",
        p.warnings
    );
}

#[test]
fn audio_detail_only_carries_reported_fields() {
    let with = fold(vec![chunk(1, 1_000, r#""rms": 251.0, "speech_ms": 8820"#)]);
    let d = with.track[0].detail.clone().expect("a level was reported");
    assert_eq!(to_value(&d)["rms"], serde_json::Value::from(251.0));
    assert!(d.get("peak").is_none());

    let without = fold(vec![chunk(1, 1_000, "")]);
    assert!(without.track[0].detail.is_none());
    assert_eq!(without.stats.audio_speech_ms, 0);
}

#[test]
fn screen_source_reports_backend_params_and_detail() {
    let open = rec(
        "a-screen",
        1,
        kinds::SESSION_OPEN,
        0,
        r#"{
            "source": "a-screen", "lesson_id": "L-test", "input": "device",
            "backend": "gdi", "monitor": 0, "width": 1920, "height": 1080, "dpi_aware": true,
            "screen": { "poll_ms": 200, "min_dist": 6, "min_mad": 4 }
        }"#,
    );
    let kf = rec(
        "a-screen",
        2,
        kinds::SCREEN_KEYFRAME,
        4_000,
        r#"{
            "blob": "screen-000000004000ms-00002.png", "len": 4096, "t_ms": 4000,
            "trigger": "phash", "dist": 11, "mad": 7, "width": 1920, "height": 1080,
            "dirty": [120, 40, 800, 600], "source": "a-screen"
        }"#,
    );
    let close = rec(
        "a-screen",
        3,
        kinds::SESSION_CLOSE,
        9_000,
        r#"{
            "source": "a-screen", "chunks": 1, "bytes": 4096, "wall_ms": 9000,
            "polls": 45, "unchanged": 40, "throttled": 3, "capped": 0, "stream_errors": 2
        }"#,
    );
    let p = fold(vec![open, kf, close]);
    let h = source(&p, "a-screen");
    let s = h.screen.clone().expect("what was reported at the start");
    let sv = to_value(&s);
    assert_eq!(sv["backend"], "gdi");
    assert_eq!(sv["screen"]["min_dist"], 6);
    assert!(s.get("source").is_none());
    let x = to_value(&h.close_extra.clone().expect("members of its own"));
    assert_eq!(x["polls"], serde_json::Value::from(45));
    assert_eq!(x["unchanged"], serde_json::Value::from(40));
    assert_eq!(x["throttled"], serde_json::Value::from(3));
    assert_eq!(p.stats.keyframes, 1);
    assert_eq!(p.stats.keyframe_bytes, 4096);
    let d = p.track.iter().find(|t| t.kind == kinds::SCREEN_KEYFRAME).unwrap().detail.clone().unwrap();
    let d = to_value(&d);
    assert_eq!(d["dist"], serde_json::Value::from(11));
    assert_eq!(d["trigger"], serde_json::Value::from("phash"));
    assert_eq!(d["dirty"], serde_json::Value::from(vec![120, 40, 800, 600]));
    assert!(p.warnings.iter().any(|w| w.contains("采集流错误") && w.contains("a-screen")), "{:?}", p.warnings);
    assert!(!p.warnings.iter().any(|w| w.contains("录音")), "{:?}", p.warnings);
}

#[test]
fn an_unmeasured_field_stays_null_instead_of_becoming_zero() {
    let v = doc(r#"{ "trigger": "open", "dist": null, "mad": null }"#);
    let d = pick(&v, &["trigger", "dist", "mad"]).unwrap();
    let m = to_value(&d);
    let o = m.as_object().unwrap();
    assert!(o.contains_key("dist") && o["dist"].is_null(), "{m}");
    assert!(o.contains_key("mad") && o["mad"].is_null(), "{m}");
    assert_eq!(m["trigger"], "open");
}

#[test]
fn audio_only_close_has_no_extra_and_no_screen_block() {
    let p = fold(vec![chunk(1, 1_000, r#""rms": 300.0"#)]);
    let h = source(&p, "a-audio");
    assert!(h.screen.is_none());
    assert!(h.close_extra.is_none());
    assert_eq!(p.stats.keyframes, 0);
}

#[test]
fn non_audio_rows_keep_their_exact_shape() {
    let p = fold(vec![rec("a-fake", 1, kinds::INK_STROKE_DELETE, 10, r#"{"reason": "undo"}"#)]);
    let item = &p.track[0];
    assert!(item.detail.is_none());
    let s = format!("{item:?}");
    assert!(!s.contains("close"), "{s}");
}

#[test]
fn repeats_take_part_in_nothing() {
    let mut again = chunk(1, 1_000, "");
    again.record.status = RecordStatus::Duplicate;
    let p = fold(vec![chunk(1, 1_000, ""), again]);
    assert_eq!(p.stats.audio_chunks, 1);
    assert_eq!(p.track.len(), 1);
    assert_eq!(source(&p, "a-audio").duplicates, 1);
}

#[test]
fn the_track_is_in_order() {
    let p = fold(vec![chunk(1, 9_000, ""), chunk(2, 1_000, ""), chunk(3, 5_000, "")]);
    let t: Vec<u64> = p.track.iter().map(|i| i.t0_ms).collect();
    assert_eq!(t, vec![1_000, 5_000, 9_000]);
}

#[test]
fn a_source_that_sent_nothing_is_not_listed() {
    let p = fold(vec![admission()]);
    assert_eq!(p.sources.iter().map(|s| s.0.as_str()).collect::<Vec<_>>(), vec!["core"]);
}

#[test]
fn a_source_of_which_anything_came_is_not_silent() {
    let mut bad = rec("a-screen", 1, kinds::SCREEN_KEYFRAME, 0, r#"{"blob": "b", "len": 1, "t_ms": 0, "trigger": "open"}"#);
    bad.record.status = RecordStatus::Rejected;
    let p = fold(vec![admission(), bad]);
    let h = source(&p, "a-screen");
    assert!(!h.silent && h.events == 1 && h.rejected == 1);
    assert_eq!(h.declared, vec!["screen.keyframe"]);
    let mut late = rec("a-screen", 3, kinds::SCREEN_KEYFRAME, 0, r#"{"blob": "b", "len": 1, "t_ms": 0, "trigger": "open"}"#);
    late.record.status = RecordStatus::GapBefore;
    late.record.gap = Some(2);
    let p = fold(vec![admission(), late]);
    let h = source(&p, "a-screen");
    assert_eq!((h.events, h.accepted, h.gaps, h.lost_events, h.silent), (1, 0, 1, 2, false));
}

#[test]
fn a_source_that_promised_and_sent_nothing_is_silent() {
    let h = health(&[admission()], "a-screen").unwrap();
    assert!(h.silent && h.events == 0);
    assert_eq!(h.declared, vec!["screen.keyframe"]);
    assert!(!health(&[admission()], "a-audio").unwrap().silent);
}

fn admission() -> Entry {
    rec(
        "core",
        1,
        kinds::CORE_ADMIT,
        0,
        r#"{"adapter_id": "a-screen", "manifest": {"produces": ["screen.keyframe"]}}"#,
    )
}

#[test]
fn a_second_life_comes_after_the_first() {
    let first = chunk(1, 5_000, "");
    let back = rec("core", 1, kinds::CORE_RESPAWN, 60_000, r#"{"adapter_id": "a-audio"}"#);
    let mut second = chunk(1, 0, "");
    second.record.t_core_mono_us = 61_000_000;
    let p = fold(vec![first, back, second]);
    assert_eq!(source(&p, "a-audio").restarts, 1);
    let t: Vec<u64> = p.track.iter().filter(|i| i.kind == kinds::AUDIO_CHUNK).map(|i| i.t0_ms).collect();
    assert_eq!(t.len(), 2);
    assert!(t[1] >= t[0] + 3_000, "{t:?}");
}

#[test]
fn times_out_of_range_are_refused() {
    let mut e = chunk(1, 1_000, "");
    if let Body::Audio(a) = &mut e.body {
        a.t0_ms = u64::MAX;
    }
    assert!(build(&meta(), &[e], 0).is_none());
}

#[test]
fn overlaps_and_silences_are_measured() {
    assert_eq!(overlap_ms(&[(0, 10), (20, 30)], &[(5, 25)]), Some(10));
    assert_eq!(overlap_ms(&[], &[(5, 25)]), Some(0));
    assert_eq!(overlap_ms(&[(5, 25)], &[(0, 10), (20, 30)]), Some(10));
    assert_eq!(overlap_ms(&[(20, 30), (0, 10)], &[(5, 25)]), Some(10));
    assert_eq!(overlap_ms(&[(0, u64::MAX), (0, 1)], &[(0, u64::MAX)]), None);
    assert_eq!(longest_silence(&[(0, 10), (15, 20), (50, 60)]), 30);
    assert_eq!(longest_silence(&[]), 0);
}
