//! What the local page may read and change.

use classagent::board::adapters;
use classagent::board::bare_line;
use classagent::board::health_row;
use classagent::board::is_local;
use classagent::board::lesson_lines;
use classagent::board::lesson_row;
use classagent::board::page;
use classagent::board::stats_row;
use classagent::json::to_value;
use classagent::json::Json;
use classagent::schema::LessonInfo;
use classagent::schema::LessonMeta;
use classagent::serve::deep_merge;
use classagent::serve::err;
use classagent::serve::handle;
use classagent::serve::merge_decl;
use classagent::serve::merge_decl_into;
use classagent::serve::mime_of;
use classagent::serve::patch_adapter;
use classagent::serve::patch_file;
use classagent::serve::patch_reply;
use classagent::serve::path_of;
use classagent::serve::toggle_adapter;
use classagent::serve::toggle_decl;
use classagent::serve::vad_is_sane;
use classagent::serve::Config;
use classagent::serve::Part;
use classagent::serve::Route;
use classagent::serve::Verb;
use classagent::serve::MAX_PARAMS_BYTES;

fn doc(text: &str) -> Json {
    Json::parse(text).expect("a document")
}

fn value(text: &str) -> serde_json::Value {
    serde_json::from_str(text).expect("a document")
}

const DECL: &str = r#"{
    "id": "a-audio",
    "enabled": true,
    "argv": ["$TARGET_DIR/a-audio"],
    "params": {
        "source": "fixture", "fixture": "x/一节课.wav", "speed": 20,
        "vad": { "rms_open": 500, "rms_close": 300, "min_speech_ms": 250 },
        "tuning": "现场调门限的指引，不属于本次提交"
    }
}"#;

#[test]
fn params_merge_is_deep_and_surgical() {
    let text = serde_json::to_string(&value(DECL)).unwrap();
    let patch = merge_decl("a-audio.adapter.json", &doc(r#"{ "params": { "vad": { "rms_open": 45.0 } } }"#))
        .expect("one member alone");
    let (out, enabled, changed) = merge_decl_into(&text, &patch).unwrap();
    assert!(changed);
    assert!(enabled.is_none());
    let v: serde_json::Value = serde_json::from_str(&out).unwrap();
    assert_eq!(v["params"]["vad"]["rms_open"], value("45.0"));
    assert_eq!(v["params"]["vad"]["rms_close"], value("300"));
    assert_eq!(v["params"]["source"], value("\"fixture\""));
    assert_eq!(v["params"]["fixture"], value("\"x/一节课.wav\""));
    assert_eq!(v["params"]["tuning"], value(DECL)["params"]["tuning"]);
    assert_eq!(v["argv"], value(DECL)["argv"]);
    assert_eq!(v["enabled"], value("true"));
}

#[test]
fn argv_and_unknown_keys_are_refused() {
    for body in [
        r#"{ "argv": ["calc.exe"] }"#,
        r#"{ "params": {}, "cwd": "C:\\Windows" }"#,
        r#"{ "id": "other" }"#,
        r#"{ "platforms": ["windows", "linux"] }"#,
        r#"{ "enabled": true, "argv": [] }"#,
    ] {
        let err = merge_decl("a.adapter.json", &doc(body)).expect_err(body);
        assert!(err.contains("只能改 enabled/params"), "{err}");
    }
}

#[test]
fn types_are_checked_before_writing() {
    assert!(merge_decl("a.adapter.json", &doc(r#"{ "enabled": "yes" }"#)).is_err());
    assert!(merge_decl("a.adapter.json", &doc(r#"{ "params": "x" }"#)).is_err());
    assert!(merge_decl("a.adapter.json", &doc(r#"{ "params": { "vad": 3 } }"#)).is_err());
    assert!(merge_decl("a.adapter.json", &doc("{}")).is_err());
    assert!(merge_decl("a.adapter.json", &doc("\"x\"")).is_err());
    assert!(merge_decl("a.adapter.json", &doc(r#"{ "enabled": false }"#)).is_ok());
}

#[test]
fn reversed_hysteresis_is_refused_but_partial_updates_are_not() {
    assert!(vad_is_sane(&doc(r#"{ "rms_open": 400.0, "rms_close": 900.0 }"#)).is_err());
    assert!(vad_is_sane(&doc(r#"{ "rms_open": 400.0, "rms_close": 400.0 }"#)).is_err());
    assert!(vad_is_sane(&doc(r#"{ "rms_open": -1.0 }"#)).is_err());
    assert!(vad_is_sane(&doc(r#"{ "rms_close": -5 }"#)).is_err());
    assert!(vad_is_sane(&doc(r#"{ "rms_open": 45.0 }"#)).is_ok());
    assert!(vad_is_sane(&doc(r#"{ "min_speech_ms": 0 }"#)).is_ok());
    assert!(vad_is_sane(&doc(r#"{ "frame_ms": 1, "max_segment_ms": 10 }"#)).is_ok());
}

#[test]
fn oversized_params_is_refused() {
    let big = doc(&format!("{{ \"params\": {{ \"note\": \"{}\" }} }}", "x".repeat(MAX_PARAMS_BYTES + 10)));
    let err = merge_decl("a.adapter.json", &big).expect_err("too large");
    assert!(err.contains("上限"), "{err}");
}

#[test]
fn a_broken_declaration_is_not_overwritten() {
    let err = merge_decl_into("{ not json", &doc(r#"{ "enabled": false }"#)).unwrap_err();
    assert!(err.contains("不是合法 JSON"), "{err}");
    assert!(merge_decl_into("[1,2]", &doc(r#"{ "enabled": false }"#)).unwrap_err().contains("对象"));
}

#[test]
fn patches_touch_nothing_else() {
    let mut d = doc(r#"{"a": {"b": 1, "c": {"d": 2}}, "e": 3}"#);
    deep_merge(&mut d, &doc(r#"{"a": {"c": {"f": 4}, "b": {"g": 5}}, "h": 6}"#));
    assert_eq!(to_value(&d), value(r#"{"a": {"b": {"g": 5}, "c": {"d": 2, "f": 4}}, "e": 3, "h": 6}"#));
    let mut d = doc("1");
    deep_merge(&mut d, &doc("[2]"));
    assert_eq!(to_value(&d), value("[2]"));
}

#[test]
fn thresholds_say_what_is_wrong_with_them() {
    assert_eq!(vad_is_sane(&doc("3")).unwrap_err(), "params.vad 必须是个对象");
    assert_eq!(vad_is_sane(&doc(r#"{"rms_open": -1.5}"#)).unwrap_err(), "vad.rms_open 不能是负数：-1.5");
    assert!(vad_is_sane(&doc(r#"{"rms_open": 400, "rms_close": 900}"#))
        .unwrap_err()
        .contains("vad.rms_close（900）必须低于 vad.rms_open（400）"));
}

#[test]
fn requests_are_told_apart() {
    let get = |p: &str| handle(Verb::Get, p, false);
    assert!(matches!(get("/"), Route::Page));
    assert!(matches!(get("/index.html"), Route::Page));
    assert!(matches!(get("/api/health"), Route::Health));
    assert!(matches!(get("/api/lessons"), Route::Lessons));
    assert!(matches!(get("/api/adapters"), Route::Adapters));
    assert!(matches!(get("/api/lesson/L1"), Route::Lesson { id, part: Part::Whole } if id == "L1"));
    assert!(matches!(get("/api/lesson/L1/stats"), Route::Lesson { part: Part::Stats, .. }));
    assert!(matches!(get("/api/lesson/L1/digest"), Route::Lesson { part: Part::Digest, .. }));
    assert!(matches!(get("/api/lesson/L1/blob/a.wav"), Route::Lesson { part: Part::Blob { name }, .. } if name == "a.wav"));
    assert!(matches!(get("/api/lesson/L1/blob/../x"), Route::Lesson { part: Part::BadBlob, .. }));
    assert!(matches!(get("/api/lesson/L1/blob"), Route::Lesson { part: Part::BadBlob, .. }));
    assert!(matches!(get("/api/lesson/L1/x"), Route::Lesson { part: Part::Unknown, .. }));
    assert!(matches!(get("/api/lesson/../x"), Route::Refuse { code: 400, .. }));
    assert!(matches!(get("/nothing"), Route::Refuse { code: 404, .. }));
    assert_eq!(path_of("/api/health?x=1?y"), "/api/health");
}

#[test]
fn writing_has_to_be_switched_on() {
    assert!(matches!(handle(Verb::Post, "/api/adapter/a.adapter.json", false), Route::Refuse { code: 403, .. }));
    assert!(matches!(handle(Verb::Post, "/api/adapter/a.adapter.json", true), Route::Patch { .. }));
    assert!(matches!(handle(Verb::Post, "/api/x", true), Route::Refuse { code: 404, .. }));
    assert!(matches!(handle(Verb::Other, "/", true), Route::Refuse { code: 405, .. }));
}

#[test]
fn only_declarations_are_changed() {
    assert_eq!(patch_file("/api/adapter/a.adapter.json").unwrap(), "a.adapter.json");
    assert_eq!(patch_file("/api/adapter/a.json").unwrap_err().code, 400);
    assert_eq!(patch_file("/api/adapter/../a.adapter.json").unwrap_err().code, 400);
    assert_eq!(patch_file("/api/x").unwrap_err().code, 404);
    let e = patch_adapter("a.adapter.json", "{ bad").unwrap_err();
    assert!(e.code == 400 && e.msg.starts_with("请求体不是 JSON："));
    assert!(patch_adapter("a.adapter.json", r#"{"argv": []}"#).unwrap_err().msg.contains("argv"));
    let p = patch_adapter("a.adapter.json", r#"{"enabled": false}"#).unwrap();
    assert_eq!(to_value(&p), value(r#"{"enabled": false}"#));
    let (out, enabled, changed) = merge_decl_into(DECL, &p).unwrap();
    assert_eq!((enabled, changed), (Some(false), false));
    assert_eq!(serde_json::from_str::<serde_json::Value>(&out).unwrap()["enabled"], value("false"));
    assert!(patch_reply("f", Some(true), true).str_at("note").unwrap().contains("下一节课生效"));
    assert!(patch_reply("f", None, false).get("enabled").is_none());
}

#[test]
fn a_switch_is_a_strict_switch() {
    assert_eq!(toggle_adapter(r#"{"enabled": true}"#).unwrap(), true);
    assert_eq!(toggle_adapter(r#"{"enabled": 1}"#).unwrap_err().code, 400);
    assert_eq!(toggle_adapter("{ bad").unwrap_err().code, 400);
    let out = toggle_decl("a.adapter.json", DECL, false).unwrap();
    assert_eq!(serde_json::from_str::<serde_json::Value>(&out).unwrap()["enabled"], value("false"));
    assert_eq!(serde_json::from_str::<serde_json::Value>(&out).unwrap()["argv"], value(DECL)["argv"]);
    assert!(toggle_decl("a", "[]", false).unwrap_err().msg.contains("对象"));
    assert!(toggle_decl("a", "{", false).unwrap_err().msg.contains("a 本身不是合法 JSON"));
}

#[test]
fn files_have_types() {
    assert_eq!(mime_of("a.PNG"), "image/png");
    assert_eq!(mime_of("a.jpeg"), "image/jpeg");
    assert_eq!(mime_of("a.wav"), "audio/wav");
    assert_eq!(mime_of("a.json"), "application/json; charset=utf-8");
    assert_eq!(mime_of("a.vtt"), "text/plain; charset=utf-8");
    assert_eq!(mime_of("a"), "application/octet-stream");
    assert_eq!(err("行\""), r#"{"error":"行\""}"#);
}

fn meta() -> LessonMeta {
    LessonMeta {
        info: LessonInfo {
            lesson_id: "L1".into(),
            prev_lesson_id: None,
            subject: Some("数学".into()),
            class: None,
            teacher: None,
            started_at_utc_ms: 9,
            courseware: vec![],
            blob_dir: "b".into(),
            params: Json::Null,
        },
        started_core_mono_us: 1_000_000,
        ended_core_mono_us: Some(4_500_000),
        stop_reason: Some("console".into()),
    }
}

#[test]
fn lessons_are_listed() {
    let j = to_value(&lesson_row("L1", &meta(), 2048, doc("[]")));
    assert_eq!(
        j,
        value(
            r#"{"lesson_id": "L1", "subject": "数学", "class": null, "teacher": null, "prev_lesson_id": null,
                "started_at_utc_ms": 9, "stop_reason": "console", "wall_ms": 3500, "events_bytes": 2048, "courseware": []}"#
        )
    );
    let (a, b) = lesson_lines("L1", &meta(), 2048);
    assert_eq!(a, "L1  数学 -     2KB  停止=console");
    assert_eq!(b, "   时长=3s 课件=0 blob=b");
    assert_eq!(bare_line("L2", 5), "L2 缺 meta.json（事件 5B）");
}

#[test]
fn adapters_are_listed_by_name() {
    let files = vec![
        ("b.adapter.json".to_string(), Ok("{\"id\": \"b\", \"argv\": [1]}".to_string())),
        ("note.txt".to_string(), Ok("x".to_string())),
        ("a.adapter.json".to_string(), Ok("{ bad".to_string())),
        ("c.adapter.json".to_string(), Err("locked".to_string())),
    ];
    let rows = adapters(&files);
    assert_eq!(rows.iter().map(|r| r.file.as_str()).collect::<Vec<_>>(), vec!["a.adapter.json", "b.adapter.json", "c.adapter.json"]);
    assert!(rows[0].json.str_at("error").unwrap().starts_with("声明解析失败："));
    assert_eq!(
        to_value(&rows[1].json),
        value(r#"{"file": "b.adapter.json", "id": "b", "enabled": true, "platforms": [], "argv": [1], "params": {}}"#)
    );
    assert_eq!(rows[2].json.str_at("error"), Some("读不到：locked"));
}

#[test]
fn the_service_tells_its_state() {
    let cfg = Config { data: "d".into(), adapters: "a".into(), listen: "127.0.0.1:8786".into(), allow_write: false };
    assert_eq!(
        to_value(&health_row(&cfg, 3)),
        value(
            r#"{"server": "classagent-client serve", "proto": 1, "listen": "127.0.0.1:8786", "data_dir": "d",
                "adapters_dir": "a", "allow_write": false, "lessons": 3}"#
        )
    );
    assert!(is_local("127.0.0.1:1") && is_local("localhost:1") && !is_local("0.0.0.0:1"));
}

#[test]
fn a_broken_page_is_not_shown() {
    let own = b"own".to_vec();
    assert_eq!(page(None, own.clone()), own);
    assert_eq!(page(Some(vec![b'x'; 500]), own.clone()), own);
    assert_eq!(page(Some(vec![b'x'; 501]), own), vec![b'x'; 501]);
}

#[test]
fn the_figures_of_a_lesson_stand_together() {
    let row = stats_row("L1", Json::uint(1), Json::Null, &vec!["w".to_string(), "v".to_string()], 3);
    assert_eq!(row.to_text(), r#"{"lesson_id":"L1","sources":null,"stats":1,"track_len":3,"warnings":["w","v"]}"#);
}
