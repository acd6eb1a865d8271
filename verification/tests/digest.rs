//! The page of a lesson.

use classagent::digest::buckets;
use classagent::digest::page_summary;
use classagent::digest::render;
use classagent::digest::render_with;
use classagent::json::Json;
use classagent::kinds;
use classagent::schema::Envelope;
use classagent::schema::LessonInfo;
use classagent::schema::LessonMeta;
use classagent::schema::PageActivate;
use classagent::schema::Real;
use classagent::schema::RecordStatus;
use classagent::schema::StoredRecord;
use classagent::schema::StrokeCommit;
use classagent::schema::Utterance;
use classagent::timeline::build;
use classagent::timeline::AiPayload;
use classagent::track::Body;
use classagent::track::Entry;

fn entry(seq: u64, kind: &str, t_ms: u64, payload: &str, body: Body) -> Entry {
    Entry {
        record: StoredRecord {
            global_seq: seq,
            adapter_id: "a-fake".into(),
            t_core_utc_ms: 0,
            t_core_mono_us: t_ms * 1_000,
            status: RecordStatus::Accepted,
            gap: None,
            envelope: Envelope::new(seq, kind, Some(t_ms), Json::parse(payload).unwrap(), 0, 0),
            raw: None,
        },
        body,
    }
}

fn speech(seq: u64, t0_ms: u64, t1_ms: u64, speaker: &str) -> Entry {
    let u = Utterance { t0_ms, t1_ms, speaker: speaker.into(), text: "好".into(), confidence: None, words: vec![] };
    entry(seq, kinds::ASR_UTTERANCE, t0_ms, "{}", Body::Speech(u))
}

fn stroke(seq: u64, t_ms: u64, page: &str) -> Entry {
    let s = StrokeCommit {
        stroke_id: format!("s-{seq}"),
        page_id: page.into(),
        tool: "pen".into(),
        color: "#111111".into(),
        width: Real { bits: 3f64.to_bits() },
        layer: None,
        duration_ms: 2_000,
        points: vec![],
        bbox: None,
        decimation: None,
        viewport: None,
    };
    entry(seq, kinds::INK_STROKE_COMMIT, t_ms, "{}", Body::Stroke { stroke: s, region: "左上".into() })
}

fn page(seq: u64, t_ms: u64, page: &str) -> Entry {
    let p = PageActivate { page_id: page.into(), index: 0, doc_id: None };
    entry(seq, kinds::INK_PAGE_ACTIVATE, t_ms, "{}", Body::Page(p))
}

fn lesson() -> AiPayload {
    let meta = LessonMeta {
        info: LessonInfo {
            lesson_id: "L1".into(),
            prev_lesson_id: Some("L0".into()),
            subject: Some("数学".into()),
            class: Some("三班".into()),
            teacher: None,
            started_at_utc_ms: 0,
            courseware: vec![],
            blob_dir: "b".into(),
            params: Json::Null,
        },
        started_core_mono_us: 0,
        ended_core_mono_us: Some(120_000_000),
        stop_reason: None,
    };
    let es = vec![
        page(1, 0, "p-1"),
        speech(2, 1_000, 31_000, "teacher"),
        stroke(3, 2_000, "p-1"),
        stroke(4, 61_000, "p-2"),
        entry(5, kinds::INK_STROKE_DELETE, 62_000, "{\"reason\": \"undo\"}", Body::Plain),
        speech(6, 70_000, 76_000, "student"),
    ];
    build(&meta, &es, 0).unwrap()
}

#[test]
fn rows_count_what_falls_into_them() {
    let rows = buckets(&lesson(), 60_000);
    assert_eq!(rows.len(), 2);
    assert_eq!((rows[0].t0_ms, rows[0].speech_ms, rows[0].strokes, rows[0].erases), (0, 30_000, 1, 0));
    assert_eq!((rows[1].t0_ms, rows[1].speech_ms, rows[1].strokes, rows[1].erases), (60_000, 6_000, 1, 1));
    assert_eq!(rows[0].pages, vec!["p-1", "p-1"]);
    // No row is narrower than a second.
    assert_eq!(buckets(&lesson(), 1).len(), buckets(&lesson(), 1_000).len());
}

#[test]
fn pages_are_summed_up() {
    let list = |v: &[&str]| v.iter().map(|s| s.to_string()).collect::<Vec<_>>();
    assert_eq!(page_summary(&list(&[])), "—");
    assert_eq!(page_summary(&list(&["a", "a"])), "a");
    assert_eq!(page_summary(&list(&["a", "b", "a", "c"])), "a…(+2)");
}

#[test]
fn a_lesson_fits_on_a_page() {
    let text = render(&lesson(), "50%", &[(6, 50), (1, 10)]);
    let want = "三班 · 数学
教师 -   课次 L1   开始 1970-01-01 00:00Z
上一节 L0（摘要会接续该链）
课堂时间轴 01:16   采集进程 02:00   事件总量 4

一、量的分布
  讲话 00:36（教师 00:30 / 学生 00:06），最长一次静默 00:39
  板书 2 笔 / 00:04，其中 00:02（50%）是边讲边写
  板面出现 2 页，撤销或擦除 1 次；屏幕证据帧 0 张
  音频 0 段 / 0B；评估记录 0 条

二、逐 60 秒一格（说话% · 笔 · 擦 · 页）
  00:00 ######       说话 50% 笔   1 擦  0  p-1
  01:00 #            说话 10% 笔   1 擦  1  p-2

三、板面轨迹（首次出现时间 · 该页笔数）
  p-1                00:00 ·    1 笔
  p-2                01:01 ·    1 笔

四、采集健康（这一节的数据能支撑到哪一步）
  a-fake                6 条  收下      6  正常
";
    assert!(text.starts_with(want), "{text}");
    assert!(text.contains("五、按本轮采集，以下结论不能下\n  · 没有录音"));
    assert!(text.contains("  · 没有课件文件"));
    assert!(!text.contains("没有笔迹"));
    assert_eq!(render_with(&lesson(), 60_000, "50%", &[(6, 50), (1, 10)]), text);
}
