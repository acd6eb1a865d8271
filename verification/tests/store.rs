//! What is stored, and how it is taken.

use classagent::json::Json;
use classagent::kinds;
use classagent::schema::Budget;
use classagent::schema::Envelope;
use classagent::schema::Exceed;
use classagent::schema::LessonInfo;
use classagent::schema::RecordStatus;
use classagent::store::lesson_ids;
use classagent::store::Outcome;
use classagent::store::State;
use classagent::store::Store;
use classagent::table::Table;

fn store() -> Store {
    Store::open(State { next_global_seq: 0, core_seq: 0, last_seq: Table::new(), active_lesson: None }, None)
}

fn info(id: &str) -> LessonInfo {
    LessonInfo {
        lesson_id: id.to_string(),
        prev_lesson_id: None,
        subject: None,
        class: None,
        teacher: None,
        started_at_utc_ms: 5,
        courseware: vec![],
        blob_dir: String::new(),
        params: Json::Null,
    }
}

/// Takes an event of a hundred bytes.
fn take(s: &mut Store, id: &str, seq: u64, now_us: u64) -> (u64, Outcome) {
    let env = Envelope::new(seq, "x", None, Json::Null, now_us, 0);
    let rec = Store::append(id, env, now_us, 0);
    let t = s.write_rec(id, rec, 100, now_us);
    assert!(s.room_for(id, 100, 100, t.outcome.gap, now_us));
    s.wrote(id, 100, 100, t.over, t.outcome.gap, now_us);
    assert_eq!(t.record.status, t.outcome.status);
    (t.record.global_seq, t.outcome)
}

#[test]
fn gaps_and_repeats_are_told_apart() {
    let mut s = store();
    assert_eq!(take(&mut s, "a", 1, 0), (1, Outcome { status: RecordStatus::Accepted, gap: None, kill: false }));
    assert_eq!(take(&mut s, "a", 5, 0), (2, Outcome { status: RecordStatus::GapBefore, gap: Some(3), kill: false }));
    assert_eq!(take(&mut s, "a", 5, 0), (3, Outcome { status: RecordStatus::Duplicate, gap: None, kill: false }));
    assert_eq!(take(&mut s, "a", 2, 0).1.status, RecordStatus::Duplicate);
    assert_eq!(s.last_seq("a"), 5);
    // Another adapter has numbers of its own.
    assert_eq!(take(&mut s, "b", 1, 0), (5, Outcome { status: RecordStatus::Accepted, gap: None, kill: false }));
    let st = s.stats();
    assert_eq!(st[0].0, "a");
    assert_eq!((st[0].1.events, st[0].1.bytes, st[0].1.lost_events), (4, 400, 3));
    assert!(s.known_source("b") && !s.known_source("c"));
}

fn with_budget(e: Exceed) -> Store {
    let mut s = store();
    s.register_adapter("a", Budget { max_events_per_s: 2, max_bytes_per_s: 10_000, on_exceed: e }, 0);
    take(&mut s, "a", 1, 0);
    take(&mut s, "a", 2, 0);
    s
}

#[test]
fn budgets_are_held_to_by_the_second() {
    let mut s = with_budget(Exceed::Degrade);
    assert_eq!(take(&mut s, "a", 3, 999_999).1, Outcome { status: RecordStatus::OverBudget, gap: None, kill: false });
    assert_eq!(take(&mut s, "a", 4, 1_000_000).1.status, RecordStatus::Accepted);
    assert_eq!(s.stats()[0].1.exceeded, 1);

    let mut s = with_budget(Exceed::Log);
    assert_eq!(take(&mut s, "a", 3, 0).1, Outcome { status: RecordStatus::Accepted, gap: None, kill: false });
    assert_eq!(s.stats()[0].1.exceeded, 1);

    let mut s = with_budget(Exceed::Kill);
    assert_eq!(take(&mut s, "a", 3, 0).1, Outcome { status: RecordStatus::OverBudget, gap: None, kill: true });
}

#[test]
fn bytes_count_too() {
    let mut s = store();
    s.register_adapter("a", Budget { max_events_per_s: 100, max_bytes_per_s: 150, on_exceed: Exceed::Degrade }, 0);
    assert_eq!(take(&mut s, "a", 1, 0).1.status, RecordStatus::Accepted);
    assert_eq!(take(&mut s, "a", 2, 0).1.status, RecordStatus::OverBudget);
}

#[test]
fn a_new_life_begins_at_one() {
    let mut s = store();
    take(&mut s, "a", 1, 0);
    take(&mut s, "a", 2, 0);
    let e = s.note_respawn("a", 7, 8);
    assert_eq!((e.seq, e.kind.as_str(), e.payload.str_at("adapter_id")), (1, kinds::CORE_RESPAWN, Some("a")));
    assert_eq!(take(&mut s, "a", 1, 0).1.status, RecordStatus::Accepted);
}

#[test]
fn what_is_no_event_is_kept_whole() {
    let v = Json::parse("{\"k\": 1}").unwrap();
    let rec = Store::append_rejected("a", v, 1, 2);
    let mut s = store();
    let t = s.write_rec("a", rec, 10, 1);
    assert_eq!(t.outcome.status, RecordStatus::Rejected);
    assert_eq!(t.record.raw, Some("{\"k\":1}".to_string()));
    assert_eq!(t.outcome.gap, None);
    assert_eq!(t.record.envelope.kind, "core.parse_error");
    assert_eq!(t.record.envelope.payload.to_text(), "{\"k\":1}");
    assert_eq!(s.last_seq("a"), 0);
}

#[test]
fn a_lesson_begins_and_ends() {
    let mut s = store();
    assert_eq!(s.target_key(), "misc");
    assert!(s.begin_lesson(info("L1"), "d/blobs".to_string(), 10).is_none());
    assert_eq!(s.target_key(), "L1");
    assert_eq!(s.active_lesson_id(), Some("L1"));
    assert_eq!(s.active_lesson().unwrap().info.blob_dir, "d/blobs");
    assert_eq!(s.state.active_lesson, Some("L1".to_string()));
    s.end_lesson("console", 20);
    let m = s.active_lesson().unwrap();
    assert_eq!((m.started_core_mono_us, m.ended_core_mono_us, m.stop_reason.as_deref()), (10, Some(20), Some("console")));
    s.close_lesson();
    assert!(s.active_lesson().is_none() && s.state.active_lesson.is_none());
}

#[test]
fn lessons_come_by_name() {
    let names = ["L2", "L1", "L10"].iter().map(|s| s.to_string()).collect();
    assert_eq!(lesson_ids(&names), vec!["L1", "L10", "L2"]);
}

#[test]
fn a_new_lesson_ends_the_one_before() {
    let mut s = store();
    s.begin_lesson(info("L1"), "a".to_string(), 10);
    let m = s.begin_lesson(info("L2"), "b".to_string(), 30).unwrap();
    assert_eq!(m.info.lesson_id, "L1");
    assert_eq!((m.started_core_mono_us, m.ended_core_mono_us, m.stop_reason.as_deref()), (10, Some(30), Some("replaced")));
    assert_eq!(s.active_lesson_id(), Some("L2"));
    assert_eq!(s.active_lesson().unwrap().ended_core_mono_us, None);
    assert_eq!(s.state.active_lesson, Some("L2".to_string()));
}

#[test]
fn a_budget_counts_events_not_lines() {
    let mut s = store();
    s.register_adapter("a", Budget { max_events_per_s: 100, max_bytes_per_s: 1_000, on_exceed: Exceed::Degrade }, 0);
    for seq in 1..=3 {
        let rec = Store::append("a", Envelope::new(seq, "x", None, Json::Null, 0, 0), 0, 0);
        let t = s.write_rec("a", rec, 400, 0);
        let fits = seq < 3;
        assert_eq!(t.outcome.status == RecordStatus::Accepted, fits);
        assert_eq!(t.over, !fits);
        s.wrote("a", 400, 700, t.over, t.outcome.gap, 0);
    }
    assert_eq!(s.stats()[0].1.bytes, 2_100);
}
