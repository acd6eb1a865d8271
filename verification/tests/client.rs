//! The recording core.

use classagent::client::upload;
use classagent::client::upload_of;
use classagent::client::drain_wait;
use classagent::client::lesson_from_value;
use classagent::client::print_status;
use classagent::client::read_order;
use classagent::client::start_value;
use classagent::client::turn;
use classagent::client::Action;
use classagent::client::Core;
use classagent::client::Order;
use classagent::client::Turn;
use classagent::json::Json;
use classagent::kinds;
use classagent::schema::AdapterDecl;
use classagent::schema::Admit;
use classagent::schema::Command;
use classagent::schema::Envelope;
use classagent::schema::Manifest;
use classagent::schema::RecordStatus;
use classagent::store::Outcome;
use classagent::store::State;
use classagent::store::Store;
use classagent::supervisor::AdapterSpec;
use classagent::supervisor::Status;
use classagent::supervisor::Supervisor;
use classagent::table::Table;

fn fresh() -> Core {
    let state = State { next_global_seq: 0, core_seq: 0, last_seq: Table::new(), active_lesson: None };
    let mut sup = Supervisor::new();
    let decl = AdapterDecl {
        id: "a-x".to_string(),
        argv: vec![],
        cwd: None,
        enabled: true,
        platforms: vec![],
        params: Json::parse("{\"n\":1}").unwrap(),
    };
    sup.launch(AdapterSpec { decl, decl_path: "p".to_string() }, Ok(())).unwrap();
    Core { store: Store::open(state, None), sup }
}

fn hello(proto: u8) -> Admit {
    let mut manifest = Manifest::default();
    manifest.produces = vec!["a".to_string(), "b".to_string()];
    manifest.needs_lesson = true;
    Admit { proto, adapter_id: "a-x".to_string(), version: "0".to_string(), manifest }
}

fn said(a: &Action) -> &str {
    match a {
        Action::Say { text } => text,
        _ => panic!("{a:?}"),
    }
}

#[test]
fn an_admission_is_noted_and_answered() {
    let mut c = fresh();
    assert!(c.expects_admission("a-x") && !c.expects_admission("a-y"));
    let acts = c.on_admission("a-x", hello(1), Json::Null, "linux", 1, 2);
    assert_eq!(acts.len(), 2);
    assert!(matches!(&acts[0], Action::Note { envelope } if envelope.kind == kinds::CORE_ADMIT
        && envelope.payload.str_at("adapter_id") == Some("a-x")));
    assert!(matches!(&acts[1], Action::Ready { produces, needs_lesson: true, .. } if produces == "a,b"));
    assert_eq!(c.sup.handles[0].status, Status::Ready);
    assert!(!c.expects_admission("a-x"));

    let mut c = fresh();
    let acts = c.on_admission("a-x", hello(3), Json::Null, "linux", 1, 2);
    assert_eq!(said(&acts[1]), "a-x 拒绝装载：协议版本不符：适配器报 v3，核心是 v1");
    let acts = c.on_admission("a-y", hello(1), Json::Null, "linux", 1, 2);
    assert_eq!(said(&acts[1]), "a-y 报了 Admit 但没有对应句柄，忽略");
    assert_eq!(said(&Core::on_bad_admission("a-x", "e")), "a-x 首行不是 Admit：e");

    let mut c = fresh();
    let mut elsewhere = hello(1);
    elsewhere.manifest.platforms = vec!["windows".to_string()];
    let acts = c.on_admission("a-x", elsewhere, Json::Null, "linux", 1, 2);
    assert_eq!(acts.len(), 2);
    assert_eq!(said(&acts[1]), "a-x 拒绝装载：本平台 linux 未启用");
    assert_eq!(c.sup.handles[0].status, Status::Disabled);
}

#[test]
fn uploads_carry_the_exported_payload() {
    let u = upload("L1", "{\"b\": 1, \"a\": [2]}", 7, "0.1.0").unwrap();
    assert_eq!((u.proto, u.lesson_id.as_str(), u.uploaded_at_utc_ms), (1, "L1", 7));
    assert_eq!(u.source, "classagent-client 0.1.0");
    assert_eq!(u.ai_payload.to_text(), "{\"a\":[2],\"b\":1}");
    assert!(upload("L1", "{ bad", 7, "0.1.0").is_err());
    assert_eq!(upload_of("L2", Json::Null, 8, "x").source, "classagent-client x");
}

#[test]
fn a_late_adapter_is_told_of_the_lesson() {
    let mut c = fresh();
    let info = c.next_lesson(&start_value("{\"lesson_id\": \"L1\"}"), 5_000, vec![]);
    c.store.begin_lesson(info, "b".to_string(), 0);
    let acts = c.on_admission("a-x", hello(1), Json::Null, "linux", 1, 2);
    assert!(matches!(&acts[2], Action::Send { id, command: Command::StartLesson { lesson } }
        if id == "a-x" && lesson.lesson_id == "L1" && lesson.blob_dir == "b"));
}

#[test]
fn holes_are_told_and_greed_is_ended() {
    let mut c = fresh();
    let acts = c.after_event("a-x", Outcome { status: RecordStatus::GapBefore, gap: Some(4), kill: false });
    assert_eq!(acts.len(), 1);
    assert_eq!(said(&acts[0]), "a-x seq 空洞：丢 4 条（status=GapBefore）");
    let acts = c.after_event("a-x", Outcome { status: RecordStatus::OverBudget, gap: None, kill: true });
    assert_eq!(said(&acts[0]), "a-x 超出预算，已终止且不再拉起");
    assert!(matches!(&acts[1], Action::Kill { id } if id == "a-x"));
    assert_eq!(c.sup.handles[0].status, Status::Killed);
    assert!(c.after_event("a-x", Outcome { status: RecordStatus::Accepted, gap: None, kill: false }).is_empty());
}

#[test]
fn a_crash_is_noted_before_the_restart() {
    let mut c = fresh();
    c.store.state.last_seq.set("a-x", 9);
    c.sup.reap(&vec![Some("7".to_string())], 0);
    let acts = c.after_exit("a-x", "7", 1, 2);
    assert_eq!(said(&acts[0]), "a-x 退出（7），退避后重启");
    assert!(matches!(&acts[1], Action::Note { envelope } if envelope.kind == kinds::CORE_RESPAWN
        && envelope.payload.to_text() == "{\"adapter_id\":\"a-x\"}"
        && (envelope.t_mono_us, envelope.t_utc_ms, envelope.t_event_ms) == (1, Some(2), None)));
    assert_eq!(c.store.last_seq("a-x"), 0);
    assert_eq!(said(&c.after_exit("a-y", "0", 1, 2)[0]), "a-y 退出（0）");
    assert_eq!(said(&Core::on_eof("a-x")), "a-x 关闭了 stdout");
    assert_eq!(said(&Core::on_fault("a-x", "m")), "a-x 读取错误：m");
}

#[test]
fn lines_become_records() {
    let env = Envelope::new(3, "k", None, Json::Null, 0, 0);
    let r = Core::on_event("a-x", Ok(env), Json::Null, 1, 2);
    assert_eq!((r.status, r.envelope.seq), (RecordStatus::Accepted, 3));
    let r = Core::on_event("a-x", Err("e".to_string()), Json::uint(8), 1, 2);
    assert_eq!((r.status, r.raw.as_deref()), (RecordStatus::Rejected, Some("8")));
    assert_eq!(r.envelope.payload.as_u64(), Some(8));
    assert_eq!(said(&Core::on_bad_event("a-x")), "a-x 一条事件解析失败，已原样保留");
    let mut old = Envelope::new(3, "k", None, Json::Null, 0, 0);
    old.proto = 2;
    let r = Core::on_event("a-x", Ok(old), Json::uint(9), 1, 2);
    assert_eq!((r.status, r.raw.as_deref(), r.envelope.seq), (RecordStatus::Rejected, Some("9"), 0));
}

#[test]
fn parameters_go_out_before_the_lesson() {
    let mut c = fresh();
    assert!(c.start_commands(&vec![true], "d").is_empty());
    let info = c.next_lesson(&start_value("{\"lesson_id\": \"L1\"}"), 0, vec![]);
    c.store.begin_lesson(info, "b".to_string(), 0);
    let acts = c.start_commands(&vec![true], "d");
    assert_eq!(acts.len(), 2);
    assert!(matches!(&acts[0], Action::Send { command: Command::Configure { data_dir, params }, .. }
        if data_dir == "d" && params.to_text() == "{\"n\":1}"));
    assert!(matches!(&acts[1], Action::Send { command: Command::StartLesson { .. }, .. }));
    assert_eq!(c.start_commands(&vec![false], "d").len(), 1);
    let acts = c.stop_commands("console");
    assert!(matches!(&acts[0], Action::Send { command: Command::StopLesson { lesson_id, reason }, .. }
        if lesson_id == "L1" && reason == "console"));
    assert_eq!(c.farewell().as_deref(), Some("收课 L1：0 条事件，0 字节；导出用 --lesson L1"));
}

#[test]
fn a_lesson_needs_no_description() {
    let l = lesson_from_value(&start_value("{ bad"), Some("L0".to_string()), 1_700_000_000_999, vec![]);
    assert_eq!((l.lesson_id.as_str(), l.prev_lesson_id.as_deref()), ("L1700000000", Some("L0")));
    assert_eq!((l.subject, l.started_at_utc_ms), (None, 1_700_000_000_999));
    let v = start_value(r#"{"subject": "数学", "prev_lesson_id": "L9", "started_at_utc_ms": 5, "params": [1]}"#);
    let l = lesson_from_value(&v, Some("L0".to_string()), 9, vec![]);
    assert_eq!((l.subject.as_deref(), l.prev_lesson_id.as_deref(), l.started_at_utc_ms), (Some("数学"), Some("L9"), 5));
    assert_eq!(l.params.to_text(), "[1]");
}

#[test]
fn orders_are_read() {
    assert!(matches!(read_order("  "), Order::Nothing));
    assert!(matches!(read_order(" start {\"a\": 1} "), Order::Start { rest } if rest == "{\"a\": 1}"));
    assert!(matches!(read_order("start"), Order::Start { rest } if rest.is_empty()));
    assert!(matches!(read_order("stop now"), Order::Stop));
    assert!(matches!(read_order("status"), Order::Status));
    assert!(matches!(read_order("quit"), Order::Quit));
    assert!(matches!(read_order("exit"), Order::Quit));
    assert!(matches!(read_order("help me"), Order::Unknown { word } if word == "help"));
}

#[test]
fn waiting_has_two_limits() {
    assert_eq!(drain_wait(0, 3_000), Some(400));
    assert_eq!(drain_wait(2_900, 3_000), Some(100));
    assert_eq!(drain_wait(3_000, 3_000), None);
    assert_eq!(turn(5_000, Some(5_000), 0), Turn { expire: true, report: true });
    assert_eq!(turn(4_999, None, 0), Turn { expire: false, report: false });
}

#[test]
fn the_report_shows_silence() {
    let mut c = fresh();
    let lines = print_status(&c, 3_661_000, 0);
    assert_eq!(lines[0], "[client] 01:01:01Z 课=— proto=v1");
    assert_eq!(lines[1], "  a-x              Pending ");
    assert_eq!(lines.len(), 2);
    let info = c.next_lesson(&start_value("{\"lesson_id\": \"L1\"}"), 0, vec![]);
    c.store.begin_lesson(info, "b".to_string(), 0);
    let lines = print_status(&c, 0, 6_000_000);
    assert!(lines[2].contains("开课 6 秒仍收到 0 条事件"));
    let env = Envelope::new(1, "k", None, Json::Null, 0, 0);
    let t = c.store.write_rec("a-x", Store::append("a-x", env, 0, 0), 10, 0);
    c.store.wrote("a-x", 10, 2048, t.over, t.outcome.gap, 0);
    let lines = print_status(&c, 0, 6_000_000);
    assert_eq!(lines[1], format!("  {:<16} {:<9} ev={:<8} {:>7} 丢失={} 超预算={} {}", "a-x", "Pending", 1, "2KB", 0, 0, ""));
    assert_eq!(lines.len(), 2);
}
