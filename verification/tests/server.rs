//! The upload server.

use classagent::json::to_value;
use classagent::json::Json;
use classagent::schema::LessonUpload;
use classagent::serve::Verb;
use classagent::server::ack;
use classagent::server::authorized;
use classagent::server::handle;
use classagent::server::health;
use classagent::server::ingest;
use classagent::server::lessons;
use classagent::server::parse_args;
use classagent::server::payload_lesson;
use classagent::server::payload_name;
use classagent::server::request_name;
use classagent::server::Route;

fn strings(v: &[&str]) -> Vec<String> {
    v.iter().map(|s| s.to_string()).collect()
}

fn upload(proto: u8, id: &str) -> LessonUpload {
    LessonUpload {
        proto,
        lesson_id: id.to_string(),
        uploaded_at_utc_ms: 1,
        source: "classagent-client 0.1.0".to_string(),
        ai_payload: Json::parse(r#"{"stats": {"strokes": 2}, "sources": {"b": {}, "a": {}}}"#).unwrap(),
    }
}

#[test]
fn arguments_are_taken() {
    let c = parse_args(&strings(&["--listen", "0.0.0.0:1", "x", "--token", "s", "--data", "d"]));
    assert_eq!((c.listen.as_str(), c.data.as_str(), c.token.as_deref()), ("0.0.0.0:1", "d", Some("s")));
    assert_eq!(c.ignored, vec!["x"]);
    assert!(!c.help);
    let c = parse_args(&strings(&["--listen"]));
    assert_eq!((c.listen.as_str(), c.data.as_str()), ("127.0.0.1:8790", "server-data"));
    assert!(parse_args(&strings(&["-h"])).help);
}

#[test]
fn requests_find_their_way() {
    let get = |p: &str| handle(Verb::Get, p, true);
    assert!(matches!(get("/"), Route::Health));
    assert!(matches!(get("/health"), Route::Health));
    assert!(matches!(get("/api/lessons"), Route::Lessons));
    assert!(matches!(get("/api/lesson/L1"), Route::Payload { id } if id == "L1"));
    assert!(matches!(get("/api/lesson/L1/payload"), Route::Payload { .. }));
    assert!(matches!(get("/api/lesson/L1/ai-request"), Route::AiRequest { id } if id == "L1"));
    assert!(matches!(get("/api/lesson/L1/x"), Route::Refuse { code: 404, .. }));
    assert!(matches!(get("/api/lesson/..%2f"), Route::Refuse { code: 400, .. }));
    assert!(matches!(get("/x"), Route::Refuse { code: 404, .. }));
    assert!(matches!(handle(Verb::Post, "/api/ingest", true), Route::Ingest));
    assert!(matches!(handle(Verb::Post, "/api/ingest", false), Route::Refuse { code: 401, .. }));
    assert!(matches!(handle(Verb::Post, "/x", true), Route::Refuse { code: 404, .. }));
    assert!(matches!(handle(Verb::Other, "/", true), Route::Refuse { code: 405, .. }));
}

#[test]
fn the_token_has_to_fit() {
    let h = |k: &str, v: &str| vec![(k.to_string(), v.to_string())];
    assert!(authorized(None, &vec![]));
    assert!(authorized(Some("s"), &h("x-CLASSAGENT-token", "s")));
    assert!(!authorized(Some("s"), &h("X-ClassAgent-Token", "t")));
    assert!(!authorized(Some("s"), &vec![]));
}

#[test]
fn the_same_upload_is_stored_once() {
    let up = upload(1, "L1");
    let first = ingest(&up, None, 7).unwrap();
    assert!(first.stored && !first.deduped);
    let again = ingest(&up, Some(first.payload.as_bytes()), 8).unwrap();
    assert!(!again.stored && again.deduped);
    assert_eq!(again.payload, first.payload);
    // Another time of receipt is the one thing in which the orders differ.
    assert_eq!(again.order, first.order.replace("\"received_at_utc_ms\": 7", "\"received_at_utc_ms\": 8"));
    assert_eq!(ingest(&up, None, 7).unwrap().order, first.order);
    let other = ingest(&up, Some(b"{}"), 8).unwrap();
    assert!(other.stored);
    assert_eq!(first.payload, up.ai_payload.to_pretty());
    let o: serde_json::Value = serde_json::from_str(&first.order).unwrap();
    assert_eq!(o["lesson_id"], "L1");
    assert_eq!(o["received_at_utc_ms"], 7);
    assert_eq!(o["payload_ref"], "inbox/L1.ai_payload.json");
    assert_eq!(o["sources"], serde_json::Value::from(vec!["a", "b"]));
    assert_eq!(o["stats"]["strokes"], 2);
    assert!(o["prev_lesson_id"].is_null());
    assert_eq!(o["projections"].as_array().unwrap().len(), 4);
    assert_eq!(o["projections"][0]["name"], "observe_log");
    let a = ack(&up, &first, 9, "ai/L1.ai_request.json".to_string());
    assert!(a.ok && a.stored && !a.deduped);
    assert_eq!((a.received_at_utc_ms, a.ai_request.as_str()), (9, "ai/L1.ai_request.json"));
}

#[test]
fn bad_uploads_are_refused() {
    let e = ingest(&upload(2, "L1"), None, 0).unwrap_err();
    assert_eq!((e.code, e.msg.as_str()), (400, "协议版本不符：客户端报 v2，服务端 v1"));
    let e = ingest(&upload(1, "../L1"), None, 0).unwrap_err();
    assert_eq!((e.code, e.msg.as_str()), (400, "课程 id 不合法"));
}

#[test]
fn received_lessons_are_listed_by_name() {
    assert_eq!(payload_name("L1"), "L1.ai_payload.json");
    assert_eq!(request_name("L1"), "L1.ai_request.json");
    assert_eq!(payload_lesson("L1.ai_payload.json").as_deref(), Some("L1"));
    assert_eq!(payload_lesson("L1.json"), None);
    let files = vec![("L2.ai_payload.json".to_string(), 5), ("x".to_string(), 1), ("L1.ai_payload.json".to_string(), 6)];
    let rows = lessons(&files);
    let out: Vec<String> = rows.iter().map(|r| r.json.to_text()).collect();
    assert_eq!(out, vec![r#"{"bytes":6,"lesson_id":"L1"}"#, r#"{"bytes":5,"lesson_id":"L2"}"#]);
    let c = parse_args(&vec![]);
    assert_eq!(
        to_value(&health(&c, rows.len())),
        serde_json::from_str::<serde_json::Value>(
            r#"{"server": "classagent-server", "proto": 1, "listen": "127.0.0.1:8790", "data_dir": "server-data",
                "auth": false, "received": 2}"#
        )
        .unwrap()
    );
}
