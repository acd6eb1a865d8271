//! Pictures of the screen.

use classagent::capture::Frame;
use classagent::json::to_value;
use classagent::json::Json;
use classagent::pngio::decode;
use classagent::screen::file_name;
use classagent::screen::no_frames;
use classagent::screen::playlist;
use classagent::screen::replays;
use classagent::screen::Cfg;
use classagent::screen::Session;
use classagent::screen::Step;
use classagent::screen::Verdict;

fn doc(text: &str) -> Json {
    Json::parse(text).expect("a document")
}

fn value(text: &str) -> serde_json::Value {
    serde_json::from_str(text).expect("a document")
}

/// A picture whose left part is bright.
fn frame(w: usize, h: usize, bright: usize) -> Frame {
    let mut rgb = Vec::new();
    for _ in 0..h {
        for x in 0..w {
            let v = if x < bright { 250 } else { 0 };
            rgb.extend_from_slice(&[v, v, v]);
        }
    }
    Frame { width: w, height: h, rgb }
}

fn session(params: &str) -> Session {
    Session::start("L1", Cfg::from_params(&doc(params)), None)
}

/// Shows a frame to a session and keeps it if it is to be kept.
fn show(s: &mut Session, f: Frame, at_ms: u64, last: bool) -> String {
    match s.consider(&f, at_ms, last) {
        Verdict::Skip => "skip".to_string(),
        Verdict::Unchanged => "unchanged".to_string(),
        Verdict::Throttled => "throttled".to_string(),
        Verdict::Capped => "capped".to_string(),
        Verdict::Keep(shot) => {
            let t = shot.trigger.clone();
            let (w, h) = (f.width, f.height);
            let blob = s.prepare(&shot, f, 0).expect("a picture");
            s.kept(shot, &blob, w, h);
            t
        }
    }
}

#[test]
fn parameters_are_clamped() {
    let c = Cfg::from_params(&doc(r#"{"capture": "gdi", "screen": {"min_dist": 999, "min_mad": 999, "poll_ms": 0}}"#));
    assert_eq!((c.capture.as_str(), c.min_dist, c.min_mad, c.poll_ms), ("gdi", 64, 255, 1));
    assert_eq!(
        to_value(&Cfg::default().json()),
        value(
            r#"{"poll_ms": 200, "min_interval_ms": 500, "min_dist": 6, "min_mad": 4, "max_width": 0,
                "max_frames_per_lesson": 0, "max_bytes_per_lesson": 0, "emit_dirty": true, "bbox": "16x9"}"#
        )
    );
}

#[test]
fn a_recording_is_played_where_one_is_named() {
    assert_eq!(replays(&doc("{}")), (false, None));
    assert_eq!(replays(&doc(r#"{"fixture_dir": "d"}"#)), (true, Some("d".to_string())));
    assert_eq!(replays(&doc(r#"{"fixture": "d", "source": "device"}"#)), (false, Some("d".to_string())));
    assert_eq!(replays(&doc(r#"{"source": "fixture"}"#)), (true, None));
    let names = ["0002.png", "a.txt", "0001.PNG"].iter().map(|s| s.to_string()).collect();
    assert_eq!(playlist(&names), vec!["0001.PNG", "0002.png"]);
    assert!(no_frames("why").contains("why"));
}

#[test]
fn only_changes_are_kept() {
    let mut s = session("{}");
    assert_eq!(show(&mut s, frame(64, 36, 0), 0, false), "open");
    assert_eq!(show(&mut s, frame(64, 36, 0), 1_000, false), "unchanged");
    assert_eq!(show(&mut s, frame(64, 36, 32), 1_200, false), "mass");
    assert_eq!(show(&mut s, frame(64, 36, 0), 1_300, false), "throttled");
    assert_eq!(show(&mut s, frame(64, 36, 0), 1_300, true), "close");
    assert_eq!((s.frames, s.unchanged, s.throttled), (3, 1, 1));
    assert_eq!(show(&mut s, frame(0, 0, 0), 9_000, false), "skip");
}

#[test]
fn limits_end_a_session() {
    let mut s = session(r#"{"screen": {"max_frames_per_lesson": 1}}"#);
    assert_eq!(s.pump(), Step::Look { due_ms: 0 });
    s.looked(false, false);
    assert_eq!(show(&mut s, frame(64, 36, 0), 0, false), "open");
    assert_eq!(show(&mut s, frame(64, 36, 32), 5_000, false), "capped");
    assert_eq!(s.pump(), Step::Nothing);
    assert!(s.done);
}

#[test]
fn a_session_takes_a_last_look() {
    let mut s = session("{}");
    s.looked(false, false);
    assert_eq!(s.pump(), Step::Look { due_ms: 200 });
    s.request_stop();
    assert_eq!(s.pump(), Step::Last);
    assert_eq!(s.pump(), Step::Nothing);
    let mut s = session("{}");
    s.looked(true, true);
    assert!(s.done && s.skipped == 1);
}

#[test]
fn a_kept_frame_tells_of_itself() {
    let mut s = session(r#"{"screen": {"max_width": 32}}"#);
    let f = frame(64, 36, 0);
    let Verdict::Keep(shot) = s.consider(&f, 0, false) else { panic!("the first frame is kept") };
    let blob = s.prepare(&shot, f, 0).unwrap();
    assert_eq!(blob.name, "screen-000000000000ms-00001.png");
    let back = decode(&blob.bytes).unwrap();
    assert_eq!((back.width, back.height, back.rgb), (32, 18, vec![0; 32 * 18 * 3]));
    let j = s.kept(shot, &blob, 64, 36);
    let len = blob.bytes.len();
    assert_eq!(
        to_value(&j),
        value(&format!(
            "{{\"blob\": \"screen-000000000000ms-00001.png\", \"len\": {len}, \"t_ms\": 0, \"trigger\": \"open\", \
             \"matched_doc_id\": null, \"matched_page_id\": null, \"matched_confidence\": null, \"dist\": null, \
             \"mad\": null, \"width\": 32, \"height\": 18, \"source_width\": 64, \"source_height\": 36, \
             \"source\": \"a-screen\"}}"
        ))
    );
    let f = frame(64, 36, 32);
    let Verdict::Keep(shot) = s.consider(&f, 700, false) else { panic!("a change is kept") };
    assert_eq!(shot.dist, Some(0));
    assert_eq!(shot.dirty, Some([0, 0, 32, 36]));
}

#[test]
fn a_session_that_never_opened_tells_nothing() {
    let mut s = Session::start("L1", Cfg::default(), Some("no desktop".to_string()));
    assert!(s.done && !s.opened);
    assert!(s.finish(1, 0).is_none());
    let mut s = session("{}");
    assert_eq!(to_value(&s.opening(doc(r#"{"input": "device"}"#)))["source"], "a-screen");
    s.write_failed("full");
    let j = to_value(&s.finish(9, 2).unwrap());
    assert_eq!((j["error"].as_str(), j["wall_ms"].as_u64(), j["stream_errors"].as_u64()), (Some("写 blob 失败：full"), Some(9), Some(2)));
    assert!(s.finish(9, 2).is_none());
    assert_eq!(s.farewell(2), "本节课未产出关键帧（写 blob 失败：full）");
}

#[test]
fn files_are_named_by_time_and_number() {
    assert_eq!(file_name(1_500, 7), "screen-000000001500ms-00007.png");
    assert_eq!(file_name(u64::MAX, 123_456), "screen-18446744073709551615ms-123456.png");
}
