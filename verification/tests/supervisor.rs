//! Adapters and their lives.

use classagent::json::to_value;
use classagent::json::Json;
use classagent::schema::AdapterDecl;
use classagent::schema::Admit;
use classagent::schema::Command;
use classagent::schema::Manifest;
use classagent::schema::RestartPolicy;
use classagent::schema::PROTO;
use classagent::supervisor::after_line;
use classagent::supervisor::discover;
use classagent::supervisor::is_declaration;
use classagent::supervisor::placeholder;
use classagent::supervisor::skip_reason;
use classagent::supervisor::AdapterSpec;
use classagent::supervisor::Status;
use classagent::supervisor::Supervisor;
use classagent::supervisor::MAX_BAD_LINES;

/// A declaration as it is read from its file; none where the text is none.
fn decl(text: &str) -> Option<AdapterDecl> {
    let j = Json::parse(text).ok()?;
    Some(AdapterDecl {
        id: j.str_at("id")?.to_string(),
        argv: j.get("argv")?.as_array()?.iter().map(|a| a.as_str().unwrap_or("").to_string()).collect(),
        cwd: j.str_at("cwd").map(|s| s.to_string()),
        enabled: j.get("enabled").and_then(|v| v.as_bool()).unwrap_or(true),
        platforms: match j.get("platforms").and_then(|v| v.as_array()) {
            Some(a) => a.iter().map(|p| p.as_str().unwrap_or("").to_string()).collect(),
            None => vec![],
        },
        params: j.get("params").map(|p| p.copy()).unwrap_or(Json::Null),
    })
}

fn spec(text: &str) -> AdapterSpec {
    let d = decl(text).expect("a declaration");
    AdapterSpec { decl_path: format!("adapters/{}.adapter.json", d.id), decl: d }
}

#[test]
fn reload_picks_up_params_but_never_argv() {
    let mut h = placeholder(spec(r#"{"id":"a-x","argv":["true"],"params":{"vad":{"rms_open":500}}}"#));

    assert!(h.refresh_params(decl(r#"{"id":"a-x","argv":["true"],"params":{"vad":{"rms_open":45}}}"#)));
    assert_eq!(to_value(&h.spec.decl.params)["vad"]["rms_open"], serde_json::Value::from(45));

    assert!(h.refresh_params(decl(r#"{"id":"a-x","argv":["calc.exe"],"params":{"vad":{"rms_open":45}}}"#)));
    assert_eq!(h.spec.decl.argv, vec!["true"]);

    assert!(!h.refresh_params(decl("{ not json")));
    assert_eq!(to_value(&h.spec.decl.params)["vad"]["rms_open"], serde_json::Value::from(45));
}

fn hello(id: &str, max_retries: u32, backoff_ms: u64) -> Admit {
    let mut manifest = Manifest::default();
    manifest.restart = RestartPolicy { max_retries, backoff_ms };
    Admit { proto: PROTO, adapter_id: id.to_string(), version: "0.1.0".to_string(), manifest }
}

fn one(id: &str) -> Supervisor {
    let mut s = Supervisor::new();
    let text = format!("{{\"id\":\"{id}\",\"argv\":[\"true\"],\"params\":{{\"n\":1}}}}");
    s.launch(spec(&text), Ok(())).unwrap();
    s
}

fn exit() -> Vec<Option<String>> {
    vec![Some("exit status: 7".to_string())]
}

#[test]
fn pauses_double_until_the_limit() {
    let mut s = one("a-x");
    assert!(s.handles[0].accept(hello("a-x", 2, 500), "linux").is_ok());
    assert_eq!(s.reap(&exit(), 1_000), vec!["a-x"]);
    assert_eq!(s.handles[0].status, Status::Backoff);
    assert_eq!(s.handles[0].note.as_deref(), Some("进程退出 exit status: 7，500ms 后重启"));
    assert!(s.respawn_due(1_499).is_empty());
    assert_eq!(s.respawn_due(1_500), vec![0]);
    s.handles[0].restarted();
    assert_eq!((s.handles[0].status, s.handles[0].restarts), (Status::Pending, 1));
    assert!(s.handles[0].accept(hello("a-x", 2, 500), "linux").is_ok());
    s.reap(&exit(), 2_000);
    assert!(s.respawn_due(2_999).is_empty());
    assert_eq!(s.respawn_due(3_000), vec![0]);
    s.handles[0].restarted();
    assert!(s.handles[0].accept(hello("a-x", 2, 500), "linux").is_ok());
    s.reap(&exit(), 4_000);
    assert_eq!(s.handles[0].status, Status::Dead);
    assert!(s.respawn_due(u64::MAX).is_empty());
    // One that is gone is reaped once.
    assert!(s.reap(&exit(), 5_000).is_empty());
}

#[test]
fn a_killed_adapter_is_not_started_again() {
    let mut s = one("a-x");
    assert!(s.handles[0].accept(hello("a-x", 9, 1), "linux").is_ok());
    s.handles[0].kill("超出预算");
    assert_eq!(s.handles[0].note.as_deref(), Some("超出预算"));
    s.reap(&exit(), 0);
    assert_eq!(s.handles[0].status, Status::Stopped);
    assert!(s.respawn_due(u64::MAX).is_empty());
}

#[test]
fn commands_go_where_they_can_be_written() {
    let mut s = one("a-x");
    let stop = Command::Stop { reason: "r".to_string() };
    let end = Command::StopLesson { lesson_id: "L".to_string(), reason: "r".to_string() };
    assert_eq!(s.send("a-y", &end).unwrap_err(), "无适配器 a-y");
    assert_eq!(s.send("a-x", &end).unwrap(), Some(0));
    assert_eq!(s.send("a-x", &stop).unwrap(), Some(0));
    assert!(!s.handles[0].asked_to_stop);
    s.sent(0, &stop);
    assert!(s.handles[0].asked_to_stop && !s.handles[0].piped);
    assert_eq!(s.send("a-x", &end).unwrap(), None);
    s.reap(&exit(), 0);
    assert_eq!(s.handles[0].status, Status::Stopped);
}

#[test]
fn an_adapter_without_a_pipe_is_still_told_to_stop() {
    let mut s = Supervisor::new();
    let e = s.launch(spec(r#"{"id":"a-x","argv":["true"]}"#), Err("no such file".to_string())).unwrap_err();
    assert_eq!(e, "no such file");
    assert_eq!(s.handles[0].status, Status::Dead);
    assert_eq!(s.send("a-x", &Command::Stop { reason: "r".to_string() }).unwrap(), None);
    assert!(s.handles[0].asked_to_stop);
}

#[test]
fn another_version_is_refused() {
    let mut s = one("a-x");
    let mut a = hello("a-x", 1, 1);
    a.proto = 9;
    let e = s.handles[0].accept(a, "linux").unwrap_err();
    assert_eq!(e, "协议版本不符：适配器报 v9，核心是 v1");
    assert_eq!(s.handles[0].status, Status::Dead);
    assert_eq!(s.handles[0].note, Some(e));
    assert!(s.manifest_of("a-x").is_none() && s.manifest_of("a-y").is_none());
}

#[test]
fn all_adapters_are_listed() {
    let mut s = one("a-x");
    assert!(s.handles[0].accept(hello("a-x", 4, 1), "linux").is_ok());
    assert_eq!(s.manifest_of("a-x").unwrap().restart.max_retries, 4);
    let rows = s.status_table();
    assert_eq!(rows.len(), 1);
    let (id, status, note, manifest, restarts) = &rows[0];
    assert_eq!((id.as_str(), *status, note.as_deref(), *restarts), ("a-x", Status::Ready, None, 0));
    assert_eq!(manifest.unwrap().restart.max_retries, 4);
    assert_eq!(s.ids(), vec!["a-x"]);
    assert!(s.find("a-y").is_none());
}

#[test]
fn parameters_are_read_anew_for_each() {
    let mut s = one("a-x");
    s.launch(spec(r#"{"id":"a-y","argv":["true"],"params":1}"#), Ok(())).unwrap();
    let reads = vec![decl(r#"{"id":"a-x","argv":["calc.exe"],"params":{"n":2}}"#), decl("{ not json")];
    assert_eq!(s.reload_params(reads), vec![true, false]);
    assert_eq!(s.handles[0].spec.decl.params.to_text(), "{\"n\":2}");
    assert_eq!(s.handles[0].spec.decl.argv, vec!["true"]);
    assert_eq!(s.handles[1].spec.decl.params.to_text(), "1");
}

#[test]
fn a_restart_that_fails_is_the_end() {
    let mut s = one("a-x");
    s.reap(&exit(), 0);
    s.handles[0].restart_failed("e");
    assert_eq!(s.handles[0].status, Status::Dead);
    assert_eq!(s.handles[0].note.as_deref(), Some("重启失败：e"));
}

#[test]
fn declarations_are_found_by_name() {
    assert!(is_declaration("a-x.adapter.json") && !is_declaration("a-x.json"));
    let mut v = Vec::new();
    for id in ["b", "a", "c"] {
        discover(&mut v, spec(&format!("{{\"id\":\"{id}\",\"argv\":[]}}")));
    }
    assert_eq!(v.iter().map(|s| s.decl.id.as_str()).collect::<Vec<_>>(), vec!["a", "b", "c"]);
    let off = decl(r#"{"id":"a","argv":[],"enabled":false}"#).unwrap();
    assert_eq!(skip_reason(&off, "linux").as_deref(), Some("a: enabled=false"));
    let other = decl(r#"{"id":"a","argv":[],"platforms":["windows"]}"#).unwrap();
    assert_eq!(skip_reason(&other, "linux").as_deref(), Some("a: 本平台 linux 未启用"));
    assert_eq!(skip_reason(&other, "windows"), None);
}

#[test]
fn too_many_bad_lines_end_the_reading() {
    let mut streak = 0;
    for _ in 0..MAX_BAD_LINES {
        let (n, on) = after_line(streak, false);
        assert!(on);
        streak = n;
    }
    assert_eq!(after_line(streak, true), (0, true));
    assert_eq!(after_line(streak, false), (MAX_BAD_LINES + 1, false));
}

#[test]
fn an_adapter_has_the_last_word_on_where_it_runs() {
    let mut here = hello("a-x", 1, 1);
    here.manifest.platforms = vec!["windows".to_string(), "linux".to_string()];
    let mut s = one("a-x");
    assert!(s.handles[0].accept(here.clone(), "linux").is_ok());
    let mut s = one("a-x");
    assert_eq!(s.handles[0].accept(here, "macos").unwrap_err(), "本平台 macos 未启用");
    assert_eq!(s.handles[0].status, Status::Disabled);
    assert_eq!(s.handles[0].note.as_deref(), Some("本平台 macos 未启用"));
    assert!(s.handles[0].manifest.is_none());
    // It is not started again.
    s.reap(&exit(), 0);
    assert_eq!(s.handles[0].status, Status::Stopped);
}
