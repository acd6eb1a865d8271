//! A lesson folded into one payload: a track of sentences on one axis, figures, the health of each
//! source, and what must not be concluded from it.

use vstd::prelude::*;
use crate::fold::collect;
use crate::fold::count;
use crate::fold::lemma_take_all;
use crate::fold::lemma_take_more;
use crate::fold::lemma_total_bound;
use crate::fold::lemma_total_grows;
use crate::fold::total;
use crate::health;
use crate::health::close_view;
use crate::health::health_fits;
use crate::health::health_view;
use crate::health::num;
use crate::health::strings_in;
use crate::health::strings_of;
use crate::health::SourceHealth;
use crate::json::field;
use crate::json::uint_of;
use crate::kinds;
use crate::schema::LessonInfo;
use crate::schema::LessonMeta;
use crate::schema::RecordStatus;
use crate::schema::StrokeCommit;
use crate::schema::Utterance;
use crate::schema::PROTO;
use crate::text;
use crate::text::begins;
use crate::text::dec;
use crate::text::lists;
use crate::text::opt_view;
use crate::text::push_text;
use crate::text::same;
use crate::text::views;
use crate::track;
use crate::track::base_of;
use crate::track::item_fits;
use crate::track::item_views;
use crate::track::is_live;
use crate::track::less_by;
use crate::track::lines_fit;
use crate::track::live;
use crate::track::places;
use crate::track::spots_fit;
use crate::track::time_of;
use crate::track::track_of;
use crate::track::Body;
use crate::track::Entry;
use crate::track::ItemView;
use crate::track::Spot;
use crate::track::TrackItem;

verus! {

/// Figures of a lesson.
#[derive(Debug, Clone, Copy, PartialEq, Eq, Structural)]
pub struct LessonStats {
    /// Length of the time axis: the latest end on the track.
    pub duration_ms: u64,
    /// How long the recording process itself ran.
    pub wall_ms: u64,
    pub utterances: usize,
    pub teacher_ms: u64,
    pub student_ms: u64,
    pub longest_silence_ms: u64,
    pub strokes: usize,
    pub ink_time_ms: u64,
    pub erases: usize,
    pub pages_touched: usize,
    pub writing_while_speaking_ms: u64,
    pub keyframes: usize,
    pub keyframe_bytes: u64,
    pub audio_chunks: usize,
    pub audio_bytes: u64,
    /// Time that really was speech, from the pieces themselves.
    pub audio_speech_ms: u64,
    /// Errors of the recording streams, as the sources reported them on closing.
    pub stream_errors: u64,
    pub eval_records: usize,
}

/// A lesson folded.
#[derive(Debug, Clone)]
pub struct AiPayload {
    pub proto: u8,
    pub generated_at_utc_ms: u64,
    pub lesson: LessonInfo,
    pub prev_lesson_id: Option<String>,
    /// Every source that has a record, in the order of its first one.
    pub sources: Vec<(String, SourceHealth)>,
    pub stats: LessonStats,
    pub track: Vec<TrackItem>,
    pub warnings: Vec<String>,
    pub notes: Vec<String>,
}

// ---------------------------------------------------------------------------------------------
// Figures of single records
// ---------------------------------------------------------------------------------------------

/// Records of something said.
pub open spec fn is_speech() -> spec_fn(Entry) -> bool {
    |e: Entry| live(e) && e.record.envelope.kind@ == kinds::ASR_UTTERANCE@ && e.body is Speech
}

/// Records of a stroke.
pub open spec fn is_stroke() -> spec_fn(Entry) -> bool {
    |e: Entry| live(e) && e.record.envelope.kind@ == kinds::INK_STROKE_COMMIT@ && e.body is Stroke
}

/// Records of a stroke taken back.
pub open spec fn is_erase() -> spec_fn(Entry) -> bool {
    |e: Entry| live(e) && e.record.envelope.kind@ == kinds::INK_STROKE_DELETE@
}

/// Records of a piece of sound.
pub open spec fn is_audio() -> spec_fn(Entry) -> bool {
    |e: Entry| live(e) && e.record.envelope.kind@ == kinds::AUDIO_CHUNK@ && e.body is Audio
}

/// Records of a picture.
pub open spec fn is_picture() -> spec_fn(Entry) -> bool {
    |e: Entry| live(e) && e.record.envelope.kind@ == kinds::SCREEN_KEYFRAME@ && e.body is Picture
}

/// Records of a questionnaire.
pub open spec fn is_eval() -> spec_fn(Entry) -> bool {
    |e: Entry| live(e) && e.record.envelope.kind@ == kinds::EVAL_RECORD@ && e.body is Eval
}

/// How long a teacher (`true`) or somebody else (`false`) speaks in a record.
pub open spec fn spoken_ms(teacher: bool) -> spec_fn(Entry) -> int {
    |e: Entry|
        if is_speech()(e) {
            match e.body {
                Body::Speech(u) => if begins(u.speaker@, "teacher"@) == teacher {
                    less_by(u.t1_ms as int, u.t0_ms as int)
                } else {
                    0
                },
                _ => 0,
            }
        } else {
            0
        }
}

/// How long the stroke of a record took.
pub open spec fn ink_ms() -> spec_fn(Entry) -> int {
    |e: Entry|
        if is_stroke()(e) {
            match e.body {
                Body::Stroke { stroke, region } => stroke.duration_ms as int,
                _ => 0,
            }
        } else {
            0
        }
}

/// The size of the piece of sound in a record.
pub open spec fn audio_len() -> spec_fn(Entry) -> int {
    |e: Entry|
        if is_audio()(e) {
            match e.body {
                Body::Audio(c) => c.len as int,
                _ => 0,
            }
        } else {
            0
        }
}

/// How much of the piece of sound in a record is speech, where the source says.
pub open spec fn audio_speech() -> spec_fn(Entry) -> int {
    |e: Entry|
        if is_audio()(e) {
            num(e.record.envelope.payload@, "speech_ms"@)
        } else {
            0
        }
}

/// The size of the picture in a record.
pub open spec fn picture_len() -> spec_fn(Entry) -> int {
    |e: Entry|
        if is_picture()(e) {
            match e.body {
                Body::Picture(k) => k.len as int,
                _ => 0,
            }
        } else {
            0
        }
}

/// The stream errors that a closing record reports.
pub open spec fn stream_errors_in() -> spec_fn(Entry) -> int {
    |e: Entry|
        if live(e) && e.record.envelope.kind@ == kinds::SESSION_CLOSE@ {
            num(e.record.envelope.payload@, "stream_errors"@)
        } else {
            0
        }
}

/// The board page that a record touches.
pub open spec fn page_touched() -> spec_fn(Entry) -> Option<Seq<char>> {
    |e: Entry|
        if live(e) && e.record.envelope.kind@ == kinds::INK_PAGE_ACTIVATE@ {
            match e.body {
                Body::Page(p) => Some(p.page_id@),
                _ => None,
            }
        } else if is_stroke()(e) {
            match e.body {
                Body::Stroke { stroke, region } => Some(stroke.page_id@),
                _ => None,
            }
        } else {
            None
        }
}

/// The pages touched in a lesson.
pub open spec fn pages(es: Seq<Entry>) -> Set<Seq<char>> {
    collect(es, page_touched()).to_set()
}

// ---------------------------------------------------------------------------------------------
// Spans
// ---------------------------------------------------------------------------------------------

/// Start and end of everything said, among the first `n` records.
pub open spec fn speech_spans(start_us: int, es: Seq<Entry>, n: int) -> Seq<(int, int)>
    decreases n,
{
    if n <= 0 {
        Seq::empty()
    } else {
        let rest = speech_spans(start_us, es, n - 1);
        match es[n - 1].body {
            Body::Speech(u) => if is_speech()(es[n - 1]) {
                let b = base_of(start_us, es, n - 1);
                rest.push((u.t0_ms + b, u.t1_ms + b))
            } else {
                rest
            },
            _ => rest,
        }
    }
}

/// Start and end of every stroke, among the first `n` records.
pub open spec fn ink_spans(start_us: int, es: Seq<Entry>, n: int) -> Seq<(int, int)>
    decreases n,
{
    if n <= 0 {
        Seq::empty()
    } else {
        let rest = ink_spans(start_us, es, n - 1);
        match es[n - 1].body {
            Body::Stroke { stroke, region } => if is_stroke()(es[n - 1]) {
                let t = time_of(start_us, es, n - 1);
                rest.push((t, t + stroke.duration_ms))
            } else {
                rest
            },
            _ => rest,
        }
    }
}

/// How long two spans run side by side.
pub open spec fn meet(a: (int, int), b: (int, int)) -> int {
    less_by(
        if a.1 < b.1 {
            a.1
        } else {
            b.1
        },
        if a.0 > b.0 {
            a.0
        } else {
            b.0
        },
    )
}

/// How long a span runs side by side with `a`.
pub open spec fn meeting(a: (int, int)) -> spec_fn((int, int)) -> int {
    |b: (int, int)| meet(a, b)
}

/// How long `a` runs side by side with each of `bs`, added up.
pub open spec fn meeting_all(bs: Seq<(int, int)>) -> spec_fn((int, int)) -> int {
    |a: (int, int)| total(bs, meeting(a))
}

/// How long each of `xs` runs side by side with each of `ys`, added up over all pairs.
pub open spec fn overlap(xs: Seq<(int, int)>, ys: Seq<(int, int)>) -> int {
    total(xs, meeting_all(ys))
}

/// The latest end among spans.
pub open spec fn latest(s: Seq<(int, int)>) -> int
    decreases s.len(),
{
    if s.len() == 0 {
        0
    } else {
        let m = latest(s.drop_last());
        if s.len() > 1 && m > s.last().1 {
            m
        } else {
            s.last().1
        }
    }
}

/// The longest time between the start of a span and the latest end before it in the sequence.
pub open spec fn silence(s: Seq<(int, int)>) -> int
    decreases s.len(),
{
    if s.len() <= 1 {
        0
    } else {
        let m = silence(s.drop_last());
        let gap = less_by(s.last().0, latest(s.drop_last()));
        if gap > m {
            gap
        } else {
            m
        }
    }
}

/// Spans of integers.
pub open spec fn span_view(v: Seq<(u64, u64)>) -> Seq<(int, int)> {
    v.map_values(|p: (u64, u64)| (p.0 as int, p.1 as int))
}

/// How long each of `a` runs side by side with each of `b`, added up over all pairs; none where
/// the sum leaves the range.
pub fn overlap_ms(a: &[(u64, u64)], b: &[(u64, u64)]) -> (r: Option<u64>)
    ensures
        match r {
            Some(t) => t == overlap(span_view(a@), span_view(b@)),
            None => overlap(span_view(a@), span_view(b@)) > u64::MAX,
        },
{
    let ghost x = span_view(a@);
    let ghost y = span_view(b@);
    let mut sum: u64 = 0;
    let mut i: usize = 0;
    assert(x.take(0) =~= Seq::empty());
    while i < a.len()
        invariant
            i <= a@.len(),
            x == span_view(a@),
            y == span_view(b@),
            sum == total(x.take(i as int), meeting_all(y)),
        decreases a@.len() - i,
    {
        proof {
            lemma_take_more(x, i as int);
        }
        let (s, e): (u64, u64) = a[i];
        let mut inner: u128 = 0;
        let mut j: usize = 0;
        let ghost me = x[i as int];
        assert(y.take(0) =~= Seq::empty());
        while j < b.len()
            invariant
                j <= b@.len(),
                y == span_view(b@),
                me == (s as int, e as int),
                inner <= j * u64::MAX,
                inner == total(y.take(j as int), meeting(me)),
            decreases b@.len() - j,
        {
            proof {
                lemma_take_more(y, j as int);
            }
            let (bs, be): (u64, u64) = b[j];
            let end: u64 = if e < be {
                e
            } else {
                be
            };
            let start: u64 = if s > bs {
                s
            } else {
                bs
            };
            if end > start {
                inner += (end - start) as u128;
            }
            j += 1;
        }
        proof {
            lemma_take_all(y);
        }
        if inner > (u64::MAX - sum) as u128 {
            proof {
                assert forall|q: (int, int)| 0 <= #[trigger] meeting_all(y)(q) by {
                    lemma_meet_all(y, q);
                }
                lemma_total_grows(x, meeting_all(y), i + 1);
            }
            return None;
        }
        sum += inner as u64;
        i += 1;
    }
    proof {
        lemma_take_all(x);
    }
    Some(sum)
}

proof fn lemma_meet_all(y: Seq<(int, int)>, q: (int, int))
    ensures
        0 <= total(y, meeting(q)),
    decreases y.len(),
{
    if y.len() > 0 {
        lemma_meet_all(y.drop_last(), q);
    }
}

/// The longest time between the start of a span and the latest end before it in the sequence.
pub fn longest_silence(s: &[(u64, u64)]) -> (r: u64)
    ensures
        r == silence(span_view(s@)),
{
    let ghost x = span_view(s@);
    let mut longest: u64 = 0;
    let mut last: Option<u64> = None;
    let mut i: usize = 0;
    while i < s.len()
        invariant
            i <= s@.len(),
            x == span_view(s@),
            longest == silence(x.take(i as int)),
            last is None <==> i == 0,
            last matches Some(l) ==> l == latest(x.take(i as int)),
        decreases s@.len() - i,
    {
        proof {
            lemma_take_more(x, i as int);
        }
        let (t0, t1): (u64, u64) = s[i];
        match last {
            Some(l) => {
                let gap: u64 = if t0 > l {
                    t0 - l
                } else {
                    0
                };
                if gap > longest {
                    longest = gap;
                }
                last = Some(
                    if l > t1 {
                        l
                    } else {
                        t1
                    },
                );
            },
            None => {
                last = Some(t1);
            },
        }
        i += 1;
    }
    proof {
        lemma_take_all(x);
    }
    longest
}

proof fn lemma_kind(kind: Seq<char>)
    ensures
        kind == kinds::ASR_UTTERANCE@ || kind == kinds::INK_STROKE_COMMIT@ ==> kind != kinds::CORE_ADMIT@ && kind
            != kinds::CORE_RESPAWN@ && kind != kinds::SESSION_OPEN@ && kind != kinds::INK_PAGE_ACTIVATE@
            && kind != kinds::INK_STROKE_DELETE@,
        kind == kinds::ASR_UTTERANCE@ ==> kind != kinds::INK_STROKE_COMMIT@,
{
    kinds::kinds_are_distinct();
    let k = kinds::all_kinds();
    assert(k[0] != k[8] && k[1] != k[8] && k[2] != k[8] && k[4] != k[8] && k[6] != k[8] && k[5] != k[8]);
    assert(k[0] != k[5] && k[1] != k[5] && k[2] != k[5] && k[4] != k[5] && k[6] != k[5]);
}

/// Whether `spots` are the places of the records.
pub open spec fn placed(start_us: int, es: Seq<Entry>, spots: Seq<Spot>) -> bool {
    &&& spots.len() == es.len()
    &&& forall|i: int|
        0 <= i < es.len() ==> (#[trigger] spots[i]).base == base_of(start_us, es, i) && spots[i].t == time_of(
            start_us,
            es,
            i,
        )
}

fn speech_spans_of(start_us: u64, es: &[Entry], spots: &Vec<Spot>) -> (r: Vec<(u64, u64)>)
    requires
        placed(start_us as int, es@, spots@),
        lines_fit(start_us as int, es@),
    ensures
        span_view(r@) == speech_spans(start_us as int, es@, es@.len() as int),
{
    let mut out: Vec<(u64, u64)> = Vec::new();
    let mut i: usize = 0;
    assert(span_view(out@) =~= Seq::empty());
    while i < es.len()
        invariant
            i <= es@.len(),
            placed(start_us as int, es@, spots@),
            lines_fit(start_us as int, es@),
            span_view(out@) == speech_spans(start_us as int, es@, i as int),
        decreases es@.len() - i,
    {
        proof {
            lemma_kind(es@[i as int].record.envelope.kind@);
            assert(item_fits(
                es@[i as int],
                base_of(start_us as int, es@, i as int),
                time_of(start_us as int, es@, i as int),
            ));
        }
        let b: u64 = spots[i].base;
        if is_live(&es[i]) && same(es[i].record.envelope.kind.as_str(), kinds::ASR_UTTERANCE) {
            match &es[i].body {
                Body::Speech(u) => {
                    let ghost before = out@;
                    let p: (u64, u64) = (u.t0_ms + b, u.t1_ms + b);
                    out.push(p);
                    assert(span_view(out@) =~= span_view(before).push((p.0 as int, p.1 as int)));
                },
                _ => {},
            }
        }
        i += 1;
    }
    out
}

fn ink_spans_of(start_us: u64, es: &[Entry], spots: &Vec<Spot>) -> (r: Vec<(u64, u64)>)
    requires
        placed(start_us as int, es@, spots@),
        lines_fit(start_us as int, es@),
    ensures
        span_view(r@) == ink_spans(start_us as int, es@, es@.len() as int),
{
    let mut out: Vec<(u64, u64)> = Vec::new();
    let mut i: usize = 0;
    assert(span_view(out@) =~= Seq::empty());
    while i < es.len()
        invariant
            i <= es@.len(),
            placed(start_us as int, es@, spots@),
            lines_fit(start_us as int, es@),
            span_view(out@) == ink_spans(start_us as int, es@, i as int),
        decreases es@.len() - i,
    {
        proof {
            lemma_kind(es@[i as int].record.envelope.kind@);
            assert(item_fits(
                es@[i as int],
                base_of(start_us as int, es@, i as int),
                time_of(start_us as int, es@, i as int),
            ));
        }
        let t: u64 = spots[i].t;
        if is_live(&es[i]) && same(es[i].record.envelope.kind.as_str(), kinds::INK_STROKE_COMMIT) {
            match &es[i].body {
                Body::Stroke { stroke, region } => {
                    let ghost before = out@;
                    let p: (u64, u64) = (t, t + stroke.duration_ms);
                    out.push(p);
                    assert(span_view(out@) =~= span_view(before).push((p.0 as int, p.1 as int)));
                },
                _ => {},
            }
        }
        i += 1;
    }
    out
}

// ---------------------------------------------------------------------------------------------
// Sources
// ---------------------------------------------------------------------------------------------

/// The sources that have a record, in the order of their first one.
pub open spec fn sources(es: Seq<Entry>) -> Seq<Seq<char>>
    decreases es.len(),
{
    if es.len() == 0 {
        Seq::empty()
    } else {
        let r = sources(es.drop_last());
        let id = es.last().record.adapter_id@;
        if r.contains(id) {
            r
        } else {
            r.push(id)
        }
    }
}

/// The sources that have a record, in the order of their first one.
pub fn sources_of(es: &[Entry]) -> (r: Vec<String>)
    ensures
        views(r@) == sources(es@),
{
    let mut out: Vec<String> = Vec::new();
    let mut i: usize = 0;
    assert(views(out@) =~= Seq::<Seq<char>>::empty());
    while i < es.len()
        invariant
            i <= es@.len(),
            views(out@) == sources(es@.take(i as int)),
        decreases es@.len() - i,
    {
        proof {
            lemma_take_more(es@, i as int);
        }
        let id = es[i].record.adapter_id.as_str();
        if !lists(&out, id) {
            let ghost before = out@;
            out.push(id.to_owned());
            assert(views(out@) =~= views(before).push(id@));
        }
        i += 1;
    }
    proof {
        lemma_take_all(es@);
    }
    out
}

// ---------------------------------------------------------------------------------------------
// Warnings
// ---------------------------------------------------------------------------------------------

/// What the closing figures of `id` forbid to conclude.
pub open spec fn close_warning(es: Seq<Entry>, id: Seq<char>) -> Seq<Seq<char>> {
    match close_view(es, id) {
        Some(c) => {
            let a = if c.stream_errors > 0 {
                seq![
                    id + " 报过 "@ + dec(c.stream_errors)
                        + " 次采集流错误（掉帧 / 后端重建）：跨过这些时刻的时长与时机类结论不成立"@,
                ]
            } else {
                Seq::empty()
            };
            match c.error {
                Some(e) => a.push(id + " 收课时报了错："@ + e),
                None => a,
            }
        },
        None => Seq::empty(),
    }
}

/// What the closing figures of the sources forbid to conclude, source by source.
pub open spec fn close_warnings(es: Seq<Entry>, ids: Seq<Seq<char>>) -> Seq<Seq<char>>
    decreases ids.len(),
{
    if ids.len() == 0 {
        Seq::empty()
    } else {
        close_warnings(es, ids.drop_last()) + close_warning(es, ids.last())
    }
}

/// The warning that axis and clock disagree.
pub open spec fn clock_warning(duration: int, wall: int) -> Seq<Seq<char>> {
    if wall > 0 && duration > wall * 3 / 2 {
        seq![
            "课堂时间轴 "@ + dec(duration / 1000) + "s 比采集进程墙钟 "@ + dec(wall / 1000)
                + "s 长：源是加速的，或采集曾经停过——两个数不能混用"@,
        ]
    } else {
        Seq::empty()
    }
}

/// The warnings about expected sources that have no record.
pub open spec fn missing_warnings(expected: Seq<Seq<char>>, present: Seq<Seq<char>>) -> Seq<Seq<char>>
    decreases expected.len(),
{
    if expected.len() == 0 {
        Seq::empty()
    } else {
        let r = missing_warnings(expected.drop_last(), present);
        if present.contains(expected.last()) {
            r
        } else {
            r.push("期望的适配器 "@ + expected.last() + " 全程没有产出任何事件"@)
        }
    }
}

fn add_close_warning(out: &mut Vec<String>, es: &[Entry], id: &str, h: &SourceHealth)
    requires
        h@ == health_view(es@, id@),
    ensures
        views(final(out)@) == views(old(out)@) + close_warning(es@, id@),
{
    let ghost before = views(out@);
    match &h.close {
        Some(c) => {
            assert(close_view(es@, id@) == Some(c@));
            if c.stream_errors > 0 {
                let mut s = id.to_owned();
                s.append(" 报过 ");
                text::push_dec(&mut s, c.stream_errors);
                s.append(" 次采集流错误（掉帧 / 后端重建）：跨过这些时刻的时长与时机类结论不成立");
                push_text(out, s);
            }
            match &c.error {
                Some(e) => {
                    let mut s = id.to_owned();
                    s.append(" 收课时报了错：");
                    s.append(e.as_str());
                    push_text(out, s);
                },
                None => {},
            }
        },
        None => {
            assert(close_view(es@, id@) is None);
        },
    }
    assert(views(out@) =~= before + close_warning(es@, id@));
}

fn add_missing(out: &mut Vec<String>, expected: &Vec<String>, present: &Vec<String>)
    ensures
        views(final(out)@) == views(old(out)@) + missing_warnings(views(expected@), views(present@)),
{
    let ghost before = views(out@);
    let ghost x = views(expected@);
    let mut i: usize = 0;
    assert(views(out@) =~= before + missing_warnings(x.take(0), views(present@)));
    while i < expected.len()
        invariant
            i <= expected@.len(),
            x == views(expected@),
            views(out@) == before + missing_warnings(x.take(i as int), views(present@)),
        decreases expected@.len() - i,
    {
        proof {
            lemma_take_more(x, i as int);
        }
        let id = expected[i].as_str();
        assert(x[i as int] == id@);
        if !lists(present, id) {
            let mut s = "期望的适配器 ".to_owned();
            s.append(id);
            s.append(" 全程没有产出任何事件");
            push_text(out, s);
        }
        i += 1;
        assert(views(out@) =~= before + missing_warnings(x.take(i as int), views(present@)));
    }
    proof {
        lemma_take_all(x);
    }
}

// ---------------------------------------------------------------------------------------------
// Totals
// ---------------------------------------------------------------------------------------------

/// The latest end on a track.
pub open spec fn latest_end(s: Seq<ItemView>) -> int
    decreases s.len(),
{
    if s.len() == 0 {
        0
    } else {
        let m = latest_end(s.drop_last());
        if s.last().t1 > m {
            s.last().t1
        } else {
            m
        }
    }
}

fn duration_of(v: &Vec<TrackItem>) -> (r: u64)
    ensures
        r == latest_end(item_views(v@)),
{
    let ghost x = item_views(v@);
    let mut m: u64 = 0;
    let mut i: usize = 0;
    while i < v.len()
        invariant
            i <= v@.len(),
            x == item_views(v@),
            m == latest_end(x.take(i as int)),
        decreases v@.len() - i,
    {
        proof {
            lemma_take_more(x, i as int);
        }
        if v[i].t1_ms > m {
            m = v[i].t1_ms;
        }
        i += 1;
    }
    proof {
        lemma_take_all(x);
    }
    m
}

/// How long the recording process ran, in milliseconds: 0 while the lesson is still open.
pub open spec fn wall(meta: LessonMeta) -> int {
    match meta.ended_core_mono_us {
        Some(e) => less_by(e as int, meta.started_core_mono_us as int) / 1000,
        None => 0,
    }
}

struct Sums {
    utterances: usize,
    teacher: u128,
    student: u128,
    strokes: usize,
    ink: u128,
    erases: usize,
    keyframes: usize,
    keyframe_bytes: u128,
    audio_chunks: usize,
    audio_bytes: u128,
    audio_speech: u128,
    stream_errors: u128,
    evals: usize,
}

spec fn sums_are(s: Sums, es: Seq<Entry>) -> bool {
    &&& s.utterances == count(es, is_speech())
    &&& s.teacher == total(es, spoken_ms(true))
    &&& s.student == total(es, spoken_ms(false))
    &&& s.strokes == count(es, is_stroke())
    &&& s.ink == total(es, ink_ms())
    &&& s.erases == count(es, is_erase())
    &&& s.keyframes == count(es, is_picture())
    &&& s.keyframe_bytes == total(es, picture_len())
    &&& s.audio_chunks == count(es, is_audio())
    &&& s.audio_bytes == total(es, audio_len())
    &&& s.audio_speech == total(es, audio_speech())
    &&& s.stream_errors == total(es, stream_errors_in())
    &&& s.evals == count(es, is_eval())
}

spec fn sums_bounded(s: Sums, i: int) -> bool {
    &&& s.utterances <= i
    &&& s.strokes <= i
    &&& s.erases <= i
    &&& s.keyframes <= i
    &&& s.audio_chunks <= i
    &&& s.evals <= i
    &&& s.teacher <= i * u64::MAX
    &&& s.student <= i * u64::MAX
    &&& s.ink <= i * u64::MAX
    &&& s.keyframe_bytes <= i * u64::MAX
    &&& s.audio_bytes <= i * u64::MAX
    &&& s.audio_speech <= i * u64::MAX
    &&& s.stream_errors <= i * u64::MAX
}

fn sums_of(es: &[Entry]) -> (r: Sums)
    ensures
        sums_are(r, es@),
{
    let mut s = Sums {
        utterances: 0,
        teacher: 0,
        student: 0,
        strokes: 0,
        ink: 0,
        erases: 0,
        keyframes: 0,
        keyframe_bytes: 0,
        audio_chunks: 0,
        audio_bytes: 0,
        audio_speech: 0,
        stream_errors: 0,
        evals: 0,
    };
    let mut i: usize = 0;
    while i < es.len()
        invariant
            i <= es@.len(),
            sums_are(s, es@.take(i as int)),
            sums_bounded(s, i as int),
        decreases es@.len() - i,
    {
        proof {
            lemma_take_more(es@, i as int);
        }
        let kind = es[i].record.envelope.kind.as_str();
        let payload = &es[i].record.envelope.payload;
        let live = is_live(&es[i]);
        let close = live && same(kind, kinds::SESSION_CLOSE);
        let erase = live && same(kind, kinds::INK_STROKE_DELETE);
        let speech = live && same(kind, kinds::ASR_UTTERANCE);
        let stroke = live && same(kind, kinds::INK_STROKE_COMMIT);
        let audio = live && same(kind, kinds::AUDIO_CHUNK);
        let picture = live && same(kind, kinds::SCREEN_KEYFRAME);
        let eval = live && same(kind, kinds::EVAL_RECORD);
        if close {
            match payload.u64_at("stream_errors") {
                Some(n) => {
                    s.stream_errors = s.stream_errors + n as u128;
                },
                None => {},
            }
        }
        if erase {
            s.erases = s.erases + 1;
        }
        match &es[i].body {
            Body::Speech(u) => {
                if speech {
                    s.utterances = s.utterances + 1;
                    let dur: u64 = if u.t1_ms > u.t0_ms {
                        u.t1_ms - u.t0_ms
                    } else {
                        0
                    };
                    if text::starts_with(u.speaker.as_str(), "teacher") {
                        s.teacher = s.teacher + dur as u128;
                    } else {
                        s.student = s.student + dur as u128;
                    }
                }
            },
            Body::Stroke { stroke: st, region } => {
                if stroke {
                    s.strokes = s.strokes + 1;
                    s.ink = s.ink + st.duration_ms as u128;
                }
            },
            Body::Audio(c) => {
                if audio {
                    s.audio_chunks = s.audio_chunks + 1;
                    s.audio_bytes = s.audio_bytes + c.len as u128;
                    match payload.u64_at("speech_ms") {
                        Some(n) => {
                            s.audio_speech = s.audio_speech + n as u128;
                        },
                        None => {},
                    }
                }
            },
            Body::Picture(k) => {
                if picture {
                    s.keyframes = s.keyframes + 1;
                    s.keyframe_bytes = s.keyframe_bytes + k.len as u128;
                }
            },
            Body::Eval(v) => {
                if eval {
                    s.evals = s.evals + 1;
                }
            },
            _ => {},
        }
        i += 1;
    }
    proof {
        lemma_take_all(es@);
    }
    s
}

fn pages_of(es: &[Entry]) -> (r: usize)
    ensures
        r == pages(es@).len(),
{
    let mut out: Vec<String> = Vec::new();
    let mut i: usize = 0;
    assert(views(out@) =~= Seq::<Seq<char>>::empty());
    assert(views(out@).to_set() =~= pages(es@.take(0)));
    while i < es.len()
        invariant
            i <= es@.len(),
            views(out@).no_duplicates(),
            views(out@).to_set() == pages(es@.take(i as int)),
        decreases es@.len() - i,
    {
        proof {
            lemma_take_more(es@, i as int);
        }
        let kind = es[i].record.envelope.kind.as_str();
        let page: Option<&str> = match &es[i].body {
            Body::Page(p) => if is_live(&es[i]) && same(kind, kinds::INK_PAGE_ACTIVATE) {
                Some(p.page_id.as_str())
            } else {
                None
            },
            Body::Stroke { stroke, region } => if is_live(&es[i]) && same(kind, kinds::INK_STROKE_COMMIT) && !same(
                kind,
                kinds::INK_PAGE_ACTIVATE,
            ) {
                Some(stroke.page_id.as_str())
            } else {
                None
            },
            _ => None,
        };
        proof {
            assert(crate::json::ref_str(page) == page_touched()(es@[i as int]));
        }
        match page {
            Some(p) => {
                let ghost before = views(out@);
                let ghost old_pages = collect(es@.take(i as int), page_touched());
                let known = lists(&out, p);
                if !known {
                    push_text(&mut out, p.to_owned());
                }
                proof {
                    let now = collect(es@.take(i + 1), page_touched());
                    assert(now == old_pages.push(p@));
                    assert(now.to_set() =~= old_pages.to_set().insert(p@)) by {
                        lemma_push_set(old_pages, p@);
                    }
                    if known {
                        assert(views(out@).to_set().contains(p@));
                        assert(old_pages.to_set().insert(p@) =~= old_pages.to_set());
                    } else {
                        lemma_push_set(before, p@);
                        assert(views(out@) == before.push(p@));
                    }
                }
            },
            None => {},
        }
        i += 1;
    }
    proof {
        lemma_take_all(es@);
        views(out@).unique_seq_to_set();
    }
    out.len()
}

proof fn lemma_push_set(s: Seq<Seq<char>>, x: Seq<char>)
    ensures
        s.push(x).to_set() == s.to_set().insert(x),
        s.no_duplicates() && !s.contains(x) ==> s.push(x).no_duplicates(),
{
    assert forall|y: Seq<char>| #[trigger] s.push(x).contains(y) <==> s.contains(y) || y == x by {
        if s.push(x).contains(y) {
            let n = choose|n: int| 0 <= n < s.push(x).len() && s.push(x)[n] == y;
            if n < s.len() {
                assert(s[n] == y);
            }
        }
        if s.contains(y) {
            let n = choose|n: int| 0 <= n < s.len() && s[n] == y;
            assert(s.push(x)[n] == y);
        }
        if y == x {
            assert(s.push(x)[s.len() as int] == y);
        }
    }
    assert(s.push(x).to_set() =~= s.to_set().insert(x));
}

// ---------------------------------------------------------------------------------------------
// The payload
// ---------------------------------------------------------------------------------------------

/// Whether `s` holds the figures of the lesson.
pub open spec fn stats_are(s: LessonStats, meta: LessonMeta, es: Seq<Entry>) -> bool {
    let st = meta.started_core_mono_us as int;
    let n = es.len() as int;
    &&& s.duration_ms == latest_end(track::track(st, es))
    &&& s.wall_ms == wall(meta)
    &&& s.utterances == count(es, is_speech())
    &&& s.teacher_ms == total(es, spoken_ms(true))
    &&& s.student_ms == total(es, spoken_ms(false))
    &&& s.longest_silence_ms == silence(speech_spans(st, es, n))
    &&& s.strokes == count(es, is_stroke())
    &&& s.ink_time_ms == total(es, ink_ms())
    &&& s.erases == count(es, is_erase())
    &&& s.pages_touched == pages(es).len()
    &&& s.writing_while_speaking_ms == overlap(ink_spans(st, es, n), speech_spans(st, es, n))
    &&& s.keyframes == count(es, is_picture())
    &&& s.keyframe_bytes == total(es, picture_len())
    &&& s.audio_chunks == count(es, is_audio())
    &&& s.audio_bytes == total(es, audio_len())
    &&& s.audio_speech_ms == total(es, audio_speech())
    &&& s.stream_errors == total(es, stream_errors_in())
    &&& s.eval_records == count(es, is_eval())
}

/// Whether the sums among the figures stay in range.
pub open spec fn stats_fit(meta: LessonMeta, es: Seq<Entry>) -> bool {
    let st = meta.started_core_mono_us as int;
    let n = es.len() as int;
    &&& total(es, spoken_ms(true)) + total(es, spoken_ms(false)) <= u64::MAX
    &&& total(es, ink_ms()) <= u64::MAX
    &&& total(es, picture_len()) <= u64::MAX
    &&& total(es, audio_len()) <= u64::MAX
    &&& total(es, audio_speech()) <= u64::MAX
    &&& total(es, stream_errors_in()) <= u64::MAX
    &&& overlap(ink_spans(st, es, n), speech_spans(st, es, n)) <= u64::MAX
}

/// Whether a lesson can be folded: every time and every sum in it stays in range.
pub open spec fn foldable(meta: LessonMeta, es: Seq<Entry>) -> bool {
    let st = meta.started_core_mono_us as int;
    &&& spots_fit(st, es)
    &&& lines_fit(st, es)
    &&& stats_fit(meta, es)
    &&& forall|k: int| 0 <= k < sources(es).len() ==> health_fits(es, #[trigger] sources(es)[k])
}

fn stats_of(meta: &LessonMeta, es: &[Entry], spots: &Vec<Spot>, track: &Vec<TrackItem>) -> (r: Option<LessonStats>)
    requires
        placed(meta.started_core_mono_us as int, es@, spots@),
        lines_fit(meta.started_core_mono_us as int, es@),
        item_views(track@) == track::track(meta.started_core_mono_us as int, es@),
    ensures
        r is Some <==> stats_fit(*meta, es@),
        r matches Some(s) ==> stats_are(s, *meta, es@),
{
    let start: u64 = meta.started_core_mono_us;
    let s = sums_of(es);
    let max: u128 = u64::MAX as u128;
    let speech = speech_spans_of(start, es, spots);
    let ink = ink_spans_of(start, es, spots);
    proof {
        lemma_total_bound(es@, spoken_ms(true), u64::MAX as int);
        lemma_total_bound(es@, spoken_ms(false), u64::MAX as int);
    }
    if s.teacher > max || s.student > max - s.teacher || s.ink > max || s.keyframe_bytes > max || s.audio_bytes > max
        || s.audio_speech > max || s.stream_errors > max {
        return None;
    }
    let both: u64 = match overlap_ms(ink.as_slice(), speech.as_slice()) {
        Some(x) => x,
        None => {
            return None;
        },
    };
    let wall_ms: u64 = match meta.ended_core_mono_us {
        Some(e) => if e > start {
            (e - start) / 1000
        } else {
            0
        },
        None => 0,
    };
    Some(
        LessonStats {
            duration_ms: duration_of(track),
            wall_ms,
            utterances: s.utterances,
            teacher_ms: s.teacher as u64,
            student_ms: s.student as u64,
            longest_silence_ms: longest_silence(speech.as_slice()),
            strokes: s.strokes,
            ink_time_ms: s.ink as u64,
            erases: s.erases,
            pages_touched: pages_of(es),
            writing_while_speaking_ms: both,
            keyframes: s.keyframes,
            keyframe_bytes: s.keyframe_bytes as u64,
            audio_chunks: s.audio_chunks,
            audio_bytes: s.audio_bytes as u64,
            audio_speech_ms: s.audio_speech as u64,
            stream_errors: s.stream_errors as u64,
            eval_records: s.evals,
        },
    )
}

/// Whether `v` holds the health of every source, in order.
pub open spec fn sources_are(v: Seq<(String, SourceHealth)>, es: Seq<Entry>) -> bool {
    &&& v.len() == sources(es).len()
    &&& forall|k: int|
        0 <= k < v.len() ==> (#[trigger] v[k]).0@ == sources(es)[k] && v[k].1@ == health_view(es, sources(es)[k])
}

fn healths_of(es: &[Entry], ids: &Vec<String>, warnings: &mut Vec<String>) -> (r: Option<Vec<(String, SourceHealth)>>)
    requires
        views(ids@) == sources(es@),
    ensures
        r is Some <==> (forall|k: int| 0 <= k < sources(es@).len() ==> health_fits(es@, #[trigger] sources(es@)[k])),
        r matches Some(v) ==> sources_are(v@, es@) && views(final(warnings)@) == views(old(warnings)@) + close_warnings(
            es@,
            sources(es@),
        ),
{
    let ghost before = views(warnings@);
    let ghost names = sources(es@);
    let mut out: Vec<(String, SourceHealth)> = Vec::new();
    let mut k: usize = 0;
    assert(views(warnings@) =~= before + close_warnings(es@, names.take(0)));
    while k < ids.len()
        invariant
            k <= ids@.len(),
            names == sources(es@),
            views(ids@) == names,
            out@.len() == k,
            forall|q: int|
                0 <= q < k ==> (#[trigger] out@[q]).0@ == names[q] && out@[q].1@ == health_view(es@, names[q]),
            forall|q: int| 0 <= q < k ==> health_fits(es@, #[trigger] names[q]),
            views(warnings@) == before + close_warnings(es@, names.take(k as int)),
        decreases ids@.len() - k,
    {
        let id = ids[k].as_str();
        assert(names[k as int] == id@);
        proof {
            lemma_take_more(names, k as int);
        }
        match health::health(es, id) {
            Some(h) => {
                add_close_warning(warnings, es, id, &h);
                assert(views(warnings@) =~= before + close_warnings(es@, names.take(k + 1)));
                out.push((id.to_owned(), h));
            },
            None => {
                return None;
            },
        }
        k += 1;
    }
    proof {
        lemma_take_all(names);
    }
    Some(out)
}

/// The two remarks that go with every payload.
pub open spec fn remarks() -> Seq<Seq<char>> {
    seq![
        "track 里的 ink 条目是折叠后的描述，原始点列仍在 events.ndjson。"@,
        "若要做 FIAC/iFIAS 式 3 秒编码，请对 track 做规则采样后再交模型判类，不要让模型自己数时间。"@,
    ]
}

/// Whether `p` is the lesson folded.
pub open spec fn folded(p: AiPayload, meta: LessonMeta, es: Seq<Entry>) -> bool {
    let st = meta.started_core_mono_us as int;
    &&& p.proto == PROTO
    &&& p.lesson@ == meta.info@
    &&& opt_view(p.prev_lesson_id) == opt_view(meta.info.prev_lesson_id)
    &&& sources_are(p.sources@, es)
    &&& stats_are(p.stats, meta, es)
    &&& item_views(p.track@) == track::track(st, es)
    &&& views(p.warnings@) == close_warnings(es, sources(es)) + clock_warning(
        latest_end(track::track(st, es)),
        wall(meta),
    ) + missing_warnings(strings_of(field(meta.info.params@, "expected_adapters"@)), sources(es))
    &&& views(p.notes@) == remarks()
}

/// Folds a lesson; none where one of its times or sums leaves the range.
pub fn build(meta: &LessonMeta, es: &[Entry], now_utc_ms: u64) -> (r: Option<AiPayload>)
    ensures
        r is Some <==> foldable(*meta, es@),
        r matches Some(p) ==> folded(p, *meta, es@) && p.generated_at_utc_ms == now_utc_ms,
{
    let start: u64 = meta.started_core_mono_us;
    let spots = match places(start, es) {
        Some(s) => s,
        None => {
            return None;
        },
    };
    let track = match track_of(start, es, &spots) {
        Some(t) => t,
        None => {
            return None;
        },
    };
    let stats = match stats_of(meta, es, &spots, &track) {
        Some(s) => s,
        None => {
            return None;
        },
    };
    let ids = sources_of(es);
    let mut warnings: Vec<String> = Vec::new();
    assert(views(warnings@) =~= Seq::<Seq<char>>::empty());
    let sources = match healths_of(es, &ids, &mut warnings) {
        Some(v) => v,
        None => {
            return None;
        },
    };
    let ghost w1 = views(warnings@);
    assert(w1 =~= close_warnings(es@, self::sources(es@)));
    if stats.wall_ms > 0 && stats.duration_ms > stats.wall_ms * 3 / 2 {
        let mut s = "课堂时间轴 ".to_owned();
        text::push_dec(&mut s, stats.duration_ms / 1000);
        s.append("s 比采集进程墙钟 ");
        text::push_dec(&mut s, stats.wall_ms / 1000);
        s.append("s 长：源是加速的，或采集曾经停过——两个数不能混用");
        push_text(&mut warnings, s);
    }
    assert(views(warnings@) =~= w1 + clock_warning(stats.duration_ms as int, stats.wall_ms as int));
    let expected = strings_in(meta.info.params.get("expected_adapters"));
    add_missing(&mut warnings, &expected, &ids);
    let mut notes: Vec<String> = Vec::new();
    notes.push("track 里的 ink 条目是折叠后的描述，原始点列仍在 events.ndjson。".to_owned());
    notes.push(
        "若要做 FIAC/iFIAS 式 3 秒编码，请对 track 做规则采样后再交模型判类，不要让模型自己数时间。".to_owned(),
    );
    assert(views(notes@) =~= remarks());
    Some(
        AiPayload {
            proto: PROTO,
            generated_at_utc_ms: now_utc_ms,
            lesson: meta.info.copy(),
            prev_lesson_id: text::copy_opt(&meta.info.prev_lesson_id),
            sources,
            stats,
            track,
            warnings,
            notes,
        },
    )
}

proof fn lemma_sources(es: Seq<Entry>, i: int)
    requires
        0 <= i < es.len(),
    ensures
        sources(es).contains(es[i].record.adapter_id@),
    decreases es.len(),
{
    let r = sources(es.drop_last());
    let id = es.last().record.adapter_id@;
    if i < es.len() - 1 {
        lemma_sources(es.drop_last(), i);
        let x = es[i].record.adapter_id@;
        let k = choose|k: int| 0 <= k < r.len() && r[k] == x;
        assert(sources(es)[k] == x);
    } else if !r.contains(id) {
        assert(sources(es)[r.len() as int] == id);
    }
}

/// How long two lists of spans run side by side is the same both ways.
pub proof fn overlap_is_mutual(x: Seq<(int, int)>, y: Seq<(int, int)>)
    ensures
        overlap(x, y) == overlap(y, x),
    decreases x.len(),
{
    if x.len() == 0 {
        assert forall|b: (int, int)| #[trigger] meeting_all(x)(b) == 0 + 0 by {}
        let zero = |b: (int, int)| 0int;
        crate::fold::lemma_total_sums(y, meeting_all(x), zero, zero);
        lemma_total_bound(y, zero, 0);
    } else {
        let r = x.drop_last();
        let a = x.last();
        overlap_is_mutual(r, y);
        assert forall|b: (int, int)| #[trigger] meeting_all(x)(b) == meeting_all(r)(b) + meeting(a)(b) by {
            assert(meeting(b)(a) == meeting(a)(b));
        }
        crate::fold::lemma_total_sums(y, meeting_all(x), meeting_all(r), meeting(a));
    }
}

/// How long two lists of spans run side by side does not depend on the order of either.
pub proof fn overlap_has_no_order(x: Seq<(int, int)>, y: Seq<(int, int)>, x2: Seq<(int, int)>, y2: Seq<(int, int)>)
    requires
        x.to_multiset() == x2.to_multiset(),
        y.to_multiset() == y2.to_multiset(),
    ensures
        overlap(x, y) == overlap(x2, y2),
{
    crate::fold::lemma_total_any_order(x, x2, meeting_all(y));
    overlap_is_mutual(x2, y);
    crate::fold::lemma_total_any_order(y, y2, meeting_all(x2));
    overlap_is_mutual(y2, x2);
}

/// How long a span is.
pub open spec fn length() -> spec_fn((int, int)) -> int {
    |a: (int, int)| less_by(a.1, a.0)
}

/// Whether no two spans run side by side.
pub open spec fn apart(s: Seq<(int, int)>) -> bool {
    forall|i: int, j: int| 0 <= i < j < s.len() ==> meet(#[trigger] s[i], #[trigger] s[j]) == 0
}

proof fn lemma_meets_within(a: (int, int), y: Seq<(int, int)>)
    requires
        apart(y),
    ensures
        total(y, meeting(a)) <= length()(a),
    decreases y.len(),
{
    if y.len() > 0 {
        let r = y.drop_last();
        let b = y.last();
        assert forall|i: int, j: int| 0 <= i < j < r.len() implies meet(#[trigger] r[i], #[trigger] r[j]) == 0 by {
            assert(r[i] == y[i] && r[j] == y[j]);
        }
        if meet(a, b) == 0 {
            lemma_meets_within(a, r);
        } else {
            // What is left of `a` on either side of `b`.
            let before = (a.0, b.0);
            let behind = (b.1, a.1);
            assert forall|i: int| 0 <= i < r.len() implies meeting(a)(#[trigger] r[i]) <= meeting(before)(r[i]) + meeting(
                behind,
            )(r[i]) by {
                assert(r[i] == y[i]);
                assert(meet(y[i], y[y.len() - 1]) == 0);
            }
            crate::fold::lemma_total_within(r, meeting(a), meeting(before), meeting(behind));
            lemma_meets_within(before, r);
            lemma_meets_within(behind, r);
        }
    }
}

/// Spans run side by side with spans that are apart for no longer than they last themselves.
pub proof fn overlap_is_bounded(x: Seq<(int, int)>, y: Seq<(int, int)>)
    requires
        apart(y),
    ensures
        0 <= overlap(x, y) <= total(x, length()),
    decreases x.len(),
{
    if x.len() > 0 {
        overlap_is_bounded(x.drop_last(), y);
        lemma_meets_within(x.last(), y);
        lemma_meet_all(y, x.last());
    }
}

/// No source is passed over: one that has a record is listed.
pub proof fn no_source_is_passed_over(es: Seq<Entry>, i: int)
    requires
        0 <= i < es.len(),
    ensures
        sources(es).contains(es[i].record.adapter_id@),
{
    lemma_sources(es, i);
}

/// A source that has no record is not listed, whatever it said it would send.
pub proof fn absent_sources_stay_absent(es: Seq<Entry>, id: Seq<char>)
    requires
        forall|i: int| 0 <= i < es.len() ==> (#[trigger] es[i]).record.adapter_id@ != id,
    ensures
        !sources(es).contains(id),
    decreases es.len(),
{
    if es.len() > 0 {
        assert forall|i: int| 0 <= i < es.len() - 1 implies (#[trigger] es.drop_last()[i]).record.adapter_id@ != id by {
            assert(es.drop_last()[i] == es[i]);
        }
        absent_sources_stay_absent(es.drop_last(), id);
        let r = sources(es.drop_last());
        let last = es.last().record.adapter_id@;
        assert(es[es.len() - 1].record.adapter_id@ != id);
        if sources(es).contains(id) {
            let k = choose|k: int| 0 <= k < sources(es).len() && sources(es)[k] == id;
            if k < r.len() {
                assert(r[k] == id);
            }
        }
    }
}

/// Closing a session changes neither the length of a lesson nor its track.
pub proof fn closing_does_not_lengthen_a_lesson(start_us: int, es: Seq<Entry>, e: Entry)
    requires
        e.record.envelope.kind@ == kinds::SESSION_CLOSE@,
    ensures
        latest_end(track::track(start_us, es.push(e))) == latest_end(track::track(start_us, es)),
{
    track::closing_changes_nothing_on_the_track(start_us, es, e);
}

/// Whether `p` is the time from the latest end among the spans before span `i` to its start.
pub open spec fn pause_before(s: Seq<(int, int)>, i: int, p: int) -> bool {
    &&& forall|j: int| 0 <= j < i ==> (#[trigger] s[j]).1 <= s[i].0 - p
    &&& exists|j: int| 0 <= j < i && (#[trigger] s[j]).1 == s[i].0 - p
}

proof fn lemma_latest(s: Seq<(int, int)>) -> (k: int)
    requires
        s.len() > 0,
    ensures
        0 <= k < s.len(),
        s[k].1 == latest(s),
        forall|j: int| 0 <= j < s.len() ==> (#[trigger] s[j]).1 <= latest(s),
    decreases s.len(),
{
    let r = s.drop_last();
    if r.len() == 0 {
        0
    } else {
        let k = lemma_latest(r);
        assert forall|j: int| 0 <= j < s.len() implies (#[trigger] s[j]).1 <= latest(s) by {
            if j < r.len() {
                assert(r[j] == s[j]);
            }
        }
        if latest(r) > s.last().1 {
            assert(r[k] == s[k]);
            k
        } else {
            s.len() - 1
        }
    }
}

proof fn lemma_pause_at(s: Seq<(int, int)>, i: int)
    requires
        1 <= i < s.len(),
    ensures
        s[i].0 - latest(s.take(i)) <= silence(s),
    decreases s.len(),
{
    if i < s.len() - 1 {
        lemma_pause_at(s.drop_last(), i);
        assert(s.drop_last().take(i) =~= s.take(i));
    } else {
        assert(s.drop_last() =~= s.take(i));
    }
}

proof fn lemma_pause_found(s: Seq<(int, int)>) -> (i: int)
    ensures
        0 <= silence(s),
        silence(s) > 0 ==> 1 <= i < s.len() && s[i].0 - latest(s.take(i)) == silence(s),
    decreases s.len(),
{
    if s.len() <= 1 {
        0
    } else {
        let n = s.len() - 1;
        let i = lemma_pause_found(s.drop_last());
        if silence(s) > silence(s.drop_last()) {
            assert(s.drop_last() =~= s.take(n));
            n
        } else {
            if silence(s) > 0 {
                assert(s.drop_last().take(i) =~= s.take(i));
            }
            i
        }
    }
}

proof fn lemma_pause_before(s: Seq<(int, int)>, i: int) -> (k: int)
    requires
        1 <= i < s.len(),
    ensures
        0 <= k < i,
        s[k].1 == latest(s.take(i)),
        pause_before(s, i, s[i].0 - latest(s.take(i))),
{
    let h = s.take(i);
    let k = lemma_latest(h);
    assert(s[k] == h[k]);
    assert forall|j: int| 0 <= j < i implies (#[trigger] s[j]).1 <= latest(h) by {
        assert(s[j] == h[j]);
    }
    k
}

/// The longest pause is as long as every pause, and is one of them: the pause before any span but
/// the first is no longer (it is less than none where the span begins before the latest end), and
/// where the figure is more than 0, it is the pause before some span.
pub proof fn longest_pause_is_longest(s: Seq<(int, int)>)
    ensures
        0 <= silence(s),
        forall|i: int|
            #![trigger s[i]]
            1 <= i < s.len() ==> exists|j: int| 0 <= j < i && s[i].0 - (#[trigger] s[j]).1 <= silence(s),
        forall|i: int, p: int| 1 <= i < s.len() && #[trigger] pause_before(s, i, p) ==> p <= silence(s),
        silence(s) > 0 ==> exists|i: int| 1 <= i < s.len() && #[trigger] pause_before(s, i, silence(s)),
{
    assert forall|i: int|
        #![trigger s[i]]
        1 <= i < s.len() implies exists|j: int| 0 <= j < i && s[i].0 - (#[trigger] s[j]).1 <= silence(s) by {
        let k = lemma_pause_before(s, i);
        lemma_pause_at(s, i);
        assert(s[i].0 - s[k].1 <= silence(s));
    }
    assert forall|i: int, p: int| 1 <= i < s.len() && #[trigger] pause_before(s, i, p) implies p <= silence(s) by {
        let k = lemma_pause_before(s, i);
        lemma_pause_at(s, i);
        assert(s[k].1 <= s[i].0 - p);
    }
    let i = lemma_pause_found(s);
    if silence(s) > 0 {
        lemma_pause_before(s, i);
    }
}

/// One more record adds to its own figures and to no others: something said adds its length to the
/// teacher's time or to the others', a stroke its duration, a piece of sound its size and its speech,
/// a picture its size, a closing record its stream errors. What came a second time adds nothing.
pub proof fn records_add_to_their_own_figures(es: Seq<Entry>, e: Entry)
    ensures
        ({
            let more = es.push(e);
            let counts = e.record.status != RecordStatus::Duplicate;
            let kind = e.record.envelope.kind@;
            let p = e.record.envelope.payload@;
            let one = |b: bool|
                if b {
                    1int
                } else {
                    0int
                };
            &&& count(more, is_speech()) == count(es, is_speech()) + one(
                counts && kind == "asr.utterance"@ && e.body is Speech,
            )
            &&& count(more, is_stroke()) == count(es, is_stroke()) + one(
                counts && kind == "ink.stroke_commit"@ && e.body is Stroke,
            )
            &&& count(more, is_erase()) == count(es, is_erase()) + one(counts && kind == "ink.stroke_delete"@)
            &&& count(more, is_audio()) == count(es, is_audio()) + one(counts && kind == "audio.chunk"@ && e.body is Audio)
            &&& count(more, is_picture()) == count(es, is_picture()) + one(
                counts && kind == "screen.keyframe"@ && e.body is Picture,
            )
            &&& count(more, is_eval()) == count(es, is_eval()) + one(counts && kind == "eval.record"@ && e.body is Eval)
            &&& total(more, spoken_ms(true)) - total(es, spoken_ms(true)) == (match e.body {
                Body::Speech(u) => if counts && kind == "asr.utterance"@ && begins(u.speaker@, "teacher"@) && u.t1_ms >= u.t0_ms {
                    u.t1_ms - u.t0_ms
                } else {
                    0
                },
                _ => 0,
            })
            &&& total(more, spoken_ms(false)) - total(es, spoken_ms(false)) == (match e.body {
                Body::Speech(u) => if counts && kind == "asr.utterance"@ && !begins(u.speaker@, "teacher"@) && u.t1_ms
                    >= u.t0_ms {
                    u.t1_ms - u.t0_ms
                } else {
                    0
                },
                _ => 0,
            })
            &&& total(more, ink_ms()) - total(es, ink_ms()) == (match e.body {
                Body::Stroke { stroke, region } => if counts && kind == "ink.stroke_commit"@ {
                    stroke.duration_ms as int
                } else {
                    0
                },
                _ => 0,
            })
            &&& total(more, audio_len()) - total(es, audio_len()) == (match e.body {
                Body::Audio(c) => if counts && kind == "audio.chunk"@ {
                    c.len as int
                } else {
                    0
                },
                _ => 0,
            })
            &&& total(more, audio_speech()) - total(es, audio_speech()) == (match uint_of(field(p, "speech_ms"@)) {
                Some(n) => if counts && kind == "audio.chunk"@ && e.body is Audio {
                    n as int
                } else {
                    0
                },
                None => 0,
            })
            &&& total(more, picture_len()) - total(es, picture_len()) == (match e.body {
                Body::Picture(k) => if counts && kind == "screen.keyframe"@ {
                    k.len as int
                } else {
                    0
                },
                _ => 0,
            })
            &&& total(more, stream_errors_in()) - total(es, stream_errors_in()) == (match uint_of(field(p, "stream_errors"@)) {
                Some(n) => if counts && kind == "session.close"@ {
                    n as int
                } else {
                    0
                },
                None => 0,
            })
        }),
{
    assert(es.push(e).drop_last() =~= es);
}

/// The figures of an empty lesson are all 0.
pub proof fn empty_lessons_have_no_figures(s: LessonStats, meta: LessonMeta)
    requires
        stats_are(s, meta, Seq::empty()),
    ensures
        s.duration_ms == 0,
        s.utterances == 0,
        s.teacher_ms == 0,
        s.student_ms == 0,
        s.longest_silence_ms == 0,
        s.strokes == 0,
        s.ink_time_ms == 0,
        s.erases == 0,
        s.pages_touched == 0,
        s.writing_while_speaking_ms == 0,
        s.keyframes == 0,
        s.keyframe_bytes == 0,
        s.audio_chunks == 0,
        s.audio_bytes == 0,
        s.audio_speech_ms == 0,
        s.stream_errors == 0,
        s.eval_records == 0,
{
    assert(pages(Seq::empty()) =~= Set::empty());
}

proof fn lemma_latest_end(s: Seq<ItemView>)
    ensures
        0 <= latest_end(s),
        forall|i: int| 0 <= i < s.len() ==> (#[trigger] s[i]).t1 <= latest_end(s),
        latest_end(s) == 0 || exists|i: int| 0 <= i < s.len() && (#[trigger] s[i]).t1 == latest_end(s),
    decreases s.len(),
{
    if s.len() > 0 {
        let r = s.drop_last();
        lemma_latest_end(r);
        assert forall|i: int| 0 <= i < s.len() implies (#[trigger] s[i]).t1 <= latest_end(s) by {
            if i < r.len() {
                assert(r[i] == s[i]);
            }
        }
        if latest_end(s) != 0 {
            if latest_end(s) == latest_end(r) {
                let i = choose|i: int| 0 <= i < r.len() && (#[trigger] r[i]).t1 == latest_end(r);
                assert(s[i].t1 == latest_end(s));
            } else {
                assert(s[s.len() - 1].t1 == latest_end(s));
            }
        }
    }
}

/// A lesson lasts as long as its track: no line ends later, and some line ends then.
pub proof fn lessons_last_as_long_as_their_track(p: AiPayload, meta: LessonMeta, es: Seq<Entry>)
    requires
        folded(p, meta, es),
    ensures
        forall|i: int| 0 <= i < p.track@.len() ==> (#[trigger] p.track@[i]).t1_ms <= p.stats.duration_ms,
        p.stats.duration_ms == 0 || exists|i: int| 0 <= i < p.track@.len() && (#[trigger] p.track@[i]).t1_ms == p.stats.duration_ms,
{
    let s = item_views(p.track@);
    lemma_latest_end(s);
    assert forall|i: int| 0 <= i < p.track@.len() implies (#[trigger] p.track@[i]).t1_ms <= p.stats.duration_ms by {
        assert(s[i].t1 <= latest_end(s));
    }
    if p.stats.duration_ms != 0 {
        let i = choose|i: int| 0 <= i < s.len() && (#[trigger] s[i]).t1 == latest_end(s);
        assert(p.track@[i].t1_ms == p.stats.duration_ms);
    }
}

/// The clock of the recording runs from the start of a lesson to its end, in whole milliseconds.
pub proof fn walls_are_whole_milliseconds(meta: LessonMeta, end_us: u64)
    requires
        meta.ended_core_mono_us == Some(end_us),
        meta.started_core_mono_us <= end_us,
    ensures
        wall(meta) * 1000 <= end_us - meta.started_core_mono_us < wall(meta) * 1000 + 1000,
{
}

/// The moments, in milliseconds, that a span covers.
pub open spec fn moments(a: (int, int)) -> Set<int> {
    Set::new(|t: int| a.0 <= t < a.1)
}

/// Two spans run side by side for as many moments as they have in common.
pub proof fn spans_meet_in_common_moments(a: (int, int), b: (int, int))
    ensures
        moments(a).intersect(moments(b)).finite(),
        moments(a).intersect(moments(b)).len() == meet(a, b),
{
    let lo = if a.0 > b.0 {
        a.0
    } else {
        b.0
    };
    let hi = if a.1 < b.1 {
        a.1
    } else {
        b.1
    };
    let both = moments(a).intersect(moments(b));
    if lo < hi {
        vstd::set_lib::lemma_int_range(lo, hi);
        assert(both =~= vstd::set_lib::set_int_range(lo, hi));
    } else {
        assert(both =~= Set::empty());
    }
}

/// How long lists of spans run side by side is added up over all pairs: for one span of each list it
/// is the time that the two share, and a list is worth what its parts are.
pub proof fn overlaps_add_up(a: (int, int), b: (int, int), x: Seq<(int, int)>, z: Seq<(int, int)>, y: Seq<(int, int)>)
    ensures
        overlap(seq![a], seq![b]) == moments(a).intersect(moments(b)).len(),
        overlap(x + z, y) == overlap(x, y) + overlap(z, y),
        overlap(y, x + z) == overlap(y, x) + overlap(y, z),
        overlap(Seq::empty(), y) == 0,
{
    spans_meet_in_common_moments(a, b);
    assert(seq![a].drop_last() =~= Seq::empty());
    assert(seq![b].drop_last() =~= Seq::empty());
    assert(total(seq![b], meeting(a)) == total(seq![b].drop_last(), meeting(a)) + meet(a, b));
    assert(total(seq![a], meeting_all(seq![b])) == total(seq![a].drop_last(), meeting_all(seq![b])) + total(
        seq![b],
        meeting(a),
    ));
    crate::fold::lemma_join(x, z, meeting_all(y), |q: (int, int)| true);
    overlap_is_mutual(y, x + z);
    overlap_is_mutual(y, x);
    overlap_is_mutual(y, z);
}

/// Everything that was said has its span: for each such record, its beginning and its end on the
/// axis, as many spans as records.
pub proof fn everything_said_has_its_span(start_us: int, es: Seq<Entry>, n: int, i: int, u: Utterance)
    requires
        0 <= i < n <= es.len(),
        es[i].record.status != RecordStatus::Duplicate,
        es[i].record.envelope.kind@ == "asr.utterance"@,
        es[i].body == Body::Speech(u),
    ensures
        speech_spans(start_us, es, n).contains((u.t0_ms + base_of(start_us, es, i), u.t1_ms + base_of(start_us, es, i))),
        speech_spans(start_us, es, n).len() == count(es.take(n), is_speech()),
    decreases n,
{
    lemma_span_count(start_us, es, n);
    let x = (u.t0_ms + base_of(start_us, es, i), u.t1_ms + base_of(start_us, es, i));
    let r = speech_spans(start_us, es, n - 1);
    let s = speech_spans(start_us, es, n);
    if i < n - 1 {
        everything_said_has_its_span(start_us, es, n - 1, i, u);
        let k = choose|k: int| 0 <= k < r.len() && r[k] == x;
        assert(s[k] == x);
    } else {
        assert(s[r.len() as int] == x);
    }
}

proof fn lemma_span_count(start_us: int, es: Seq<Entry>, n: int)
    requires
        0 <= n <= es.len(),
    ensures
        speech_spans(start_us, es, n).len() == count(es.take(n), is_speech()),
        ink_spans(start_us, es, n).len() == count(es.take(n), is_stroke()),
    decreases n,
{
    if n > 0 {
        lemma_span_count(start_us, es, n - 1);
        lemma_take_more(es, n - 1);
    }
}

/// Every stroke has its span: from its time on the axis for as long as it took, as many spans as
/// strokes.
pub proof fn every_stroke_has_its_span(start_us: int, es: Seq<Entry>, n: int, i: int, stroke: StrokeCommit, region: String)
    requires
        0 <= i < n <= es.len(),
        es[i].record.status != RecordStatus::Duplicate,
        es[i].record.envelope.kind@ == "ink.stroke_commit"@,
        es[i].body == (Body::Stroke { stroke, region }),
    ensures
        ink_spans(start_us, es, n).contains((time_of(start_us, es, i), time_of(start_us, es, i) + stroke.duration_ms)),
        ink_spans(start_us, es, n).len() == count(es.take(n), is_stroke()),
    decreases n,
{
    lemma_span_count(start_us, es, n);
    let x = (time_of(start_us, es, i), time_of(start_us, es, i) + stroke.duration_ms);
    let r = ink_spans(start_us, es, n - 1);
    let s = ink_spans(start_us, es, n);
    if i < n - 1 {
        every_stroke_has_its_span(start_us, es, n - 1, i, stroke, region);
        let k = choose|k: int| 0 <= k < r.len() && r[k] == x;
        assert(s[k] == x);
    } else {
        assert(s[r.len() as int] == x);
    }
}

/// The pages touched are those that a record turned to or that a stroke was written on, each once.
pub proof fn pages_are_those_touched(es: Seq<Entry>, page: Seq<char>)
    ensures
        pages(es).contains(page) <==> exists|i: int|
            0 <= i < es.len() && (#[trigger] es[i]).record.status != RecordStatus::Duplicate && match es[i].body {
                Body::Page(p) => es[i].record.envelope.kind@ == "ink.page_activate"@ && p.page_id@ == page,
                Body::Stroke { stroke, region } => es[i].record.envelope.kind@ == "ink.stroke_commit"@ && stroke.page_id@ == page,
                _ => false,
            },
{
    kinds::kinds_are_distinct();
    let k = kinds::all_kinds();
    assert(k[4] != k[5]);
    crate::fold::lemma_collected(es, page_touched(), page);
    assert forall|i: int| 0 <= i < es.len() implies (page_touched()(#[trigger] es[i]) == Some(page) <==> es[i].record.status
        != RecordStatus::Duplicate && match es[i].body {
        Body::Page(p) => es[i].record.envelope.kind@ == "ink.page_activate"@ && p.page_id@ == page,
        Body::Stroke { stroke, region } => es[i].record.envelope.kind@ == "ink.stroke_commit"@ && stroke.page_id@ == page,
        _ => false,
    }) by {}
}

/// Sources are listed once each, and in the order of their first records: what a longer record adds
/// comes behind what was listed before.
pub proof fn sources_come_in_order(es: Seq<Entry>, n: int)
    requires
        0 <= n <= es.len(),
    ensures
        sources(es).no_duplicates(),
        sources(es.take(n)).len() <= sources(es).len(),
        sources(es).take(sources(es.take(n)).len() as int) == sources(es.take(n)),
    decreases es.len(),
{
    if es.len() == 0 {
        assert(es.take(n) =~= es);
        assert(sources(es).take(0) =~= sources(es));
    } else {
        let r = es.drop_last();
        if n == es.len() {
            sources_come_in_order(r, n - 1);
            assert(es.take(n) =~= es);
            assert(sources(es).take(sources(es).len() as int) =~= sources(es));
        } else {
            sources_come_in_order(r, n);
            assert(r.take(n) =~= es.take(n));
            let a = sources(es.take(n));
            assert(sources(es).take(a.len() as int) =~= sources(r).take(a.len() as int));
        }
    }
}

proof fn lemma_missing(expected: Seq<Seq<char>>, present: Seq<Seq<char>>, id: Seq<char>)
    requires
        expected.contains(id),
        !present.contains(id),
    ensures
        missing_warnings(expected, present).contains("期望的适配器 "@ + id + " 全程没有产出任何事件"@),
    decreases expected.len(),
{
    let w = "期望的适配器 "@ + id + " 全程没有产出任何事件"@;
    let n = choose|n: int| 0 <= n < expected.len() && expected[n] == id;
    let r = missing_warnings(expected.drop_last(), present);
    let s = missing_warnings(expected, present);
    if n < expected.len() - 1 {
        assert(expected.drop_last()[n] == id);
        lemma_missing(expected.drop_last(), present, id);
        let k = choose|k: int| 0 <= k < r.len() && r[k] == w;
        assert(s[k] == w);
    } else {
        assert(s[r.len() as int] == w);
    }
}

proof fn lemma_none_missing(expected: Seq<Seq<char>>, present: Seq<Seq<char>>)
    requires
        forall|i: int| 0 <= i < expected.len() ==> present.contains(#[trigger] expected[i]),
    ensures
        missing_warnings(expected, present).len() == 0,
    decreases expected.len(),
{
    if expected.len() > 0 {
        let r = expected.drop_last();
        assert forall|i: int| 0 <= i < r.len() implies present.contains(#[trigger] r[i]) by {
            assert(r[i] == expected[i]);
        }
        lemma_none_missing(r, present);
        assert(present.contains(expected[expected.len() - 1]));
    }
}

proof fn lemma_close_warned(es: Seq<Entry>, ids: Seq<Seq<char>>, k: int, w: Seq<char>)
    requires
        0 <= k < ids.len(),
        close_warning(es, ids[k]).contains(w),
    ensures
        close_warnings(es, ids).contains(w),
    decreases ids.len(),
{
    let r = close_warnings(es, ids.drop_last());
    let last = close_warning(es, ids.last());
    let all = close_warnings(es, ids);
    if k < ids.len() - 1 {
        assert(ids.drop_last()[k] == ids[k]);
        lemma_close_warned(es, ids.drop_last(), k, w);
        let n = choose|n: int| 0 <= n < r.len() && r[n] == w;
        assert(all[n] == w);
    } else {
        let n = choose|n: int| 0 <= n < last.len() && last[n] == w;
        assert(all[r.len() + n] == w);
    }
}

proof fn lemma_in_sum(a: Seq<Seq<char>>, b: Seq<Seq<char>>, c: Seq<Seq<char>>, w: Seq<char>)
    requires
        a.contains(w) || b.contains(w) || c.contains(w),
    ensures
        (a + b + c).contains(w),
{
    if a.contains(w) {
        let n = choose|n: int| 0 <= n < a.len() && a[n] == w;
        assert((a + b + c)[n] == w);
    } else if b.contains(w) {
        let n = choose|n: int| 0 <= n < b.len() && b[n] == w;
        assert((a + b + c)[a.len() + n] == w);
    } else {
        let n = choose|n: int| 0 <= n < c.len() && c[n] == w;
        assert((a + b + c)[a.len() + b.len() + n] == w);
    }
}

/// A source that was expected and has not one record is warned about by name.
pub proof fn missing_sources_are_warned_about(p: AiPayload, meta: LessonMeta, es: Seq<Entry>, id: Seq<char>)
    requires
        folded(p, meta, es),
        strings_of(field(meta.info.params@, "expected_adapters"@)).contains(id),
        forall|i: int| 0 <= i < es.len() ==> (#[trigger] es[i]).record.adapter_id@ != id,
    ensures
        views(p.warnings@).contains("期望的适配器 "@ + id + " 全程没有产出任何事件"@),
{
    absent_sources_stay_absent(es, id);
    let expected = strings_of(field(meta.info.params@, "expected_adapters"@));
    lemma_missing(expected, sources(es), id);
    lemma_in_sum(
        close_warnings(es, sources(es)),
        clock_warning(latest_end(track::track(meta.started_core_mono_us as int, es)), wall(meta)),
        missing_warnings(expected, sources(es)),
        "期望的适配器 "@ + id + " 全程没有产出任何事件"@,
    );
}

/// A source that reported stream errors or a failure on closing is warned about, with what it said.
pub proof fn failing_sources_are_warned_about(p: AiPayload, meta: LessonMeta, es: Seq<Entry>, i: int)
    requires
        folded(p, meta, es),
        0 <= i < es.len(),
    ensures
        ({
            let id = es[i].record.adapter_id@;
            &&& close_view(es, id) matches Some(c) ==> (c.stream_errors > 0 ==> views(p.warnings@).contains(
                id + " 报过 "@ + dec(c.stream_errors)
                    + " 次采集流错误（掉帧 / 后端重建）：跨过这些时刻的时长与时机类结论不成立"@,
            ))
            &&& close_view(es, id) matches Some(c) ==> (c.error matches Some(e) ==> views(p.warnings@).contains(
                id + " 收课时报了错："@ + e,
            ))
        }),
{
    let id = es[i].record.adapter_id@;
    no_source_is_passed_over(es, i);
    let k = choose|k: int| 0 <= k < sources(es).len() && sources(es)[k] == id;
    let a = close_warnings(es, sources(es));
    let b = clock_warning(latest_end(track::track(meta.started_core_mono_us as int, es)), wall(meta));
    let m = missing_warnings(strings_of(field(meta.info.params@, "expected_adapters"@)), sources(es));
    match close_view(es, id) {
        Some(c) => {
            let w = close_warning(es, id);
            if c.stream_errors > 0 {
                let x = id + " 报过 "@ + dec(c.stream_errors)
                    + " 次采集流错误（掉帧 / 后端重建）：跨过这些时刻的时长与时机类结论不成立"@;
                assert(w[0] == x);
                lemma_close_warned(es, sources(es), k, x);
                lemma_in_sum(a, b, m, x);
            }
            match c.error {
                Some(e) => {
                    let x = id + " 收课时报了错："@ + e;
                    assert(w[w.len() - 1] == x);
                    lemma_close_warned(es, sources(es), k, x);
                    lemma_in_sum(a, b, m, x);
                },
                None => {},
            }
        },
        None => {},
    }
}

/// An axis that is longer than the recording ran by more than half is warned about, with both
/// lengths, and no other is.
pub proof fn clocks_that_disagree_are_warned_about(duration: int, wall_ms: int)
    requires
        0 <= duration,
        0 <= wall_ms,
    ensures
        clock_warning(duration, wall_ms).len() == 1 <==> wall_ms > 0 && 2 * duration >= 3 * wall_ms + 2 - (3 * wall_ms) % 2,
        clock_warning(duration, wall_ms).len() <= 1,
        clock_warning(duration, wall_ms).len() == 1 ==> clock_warning(duration, wall_ms)[0] == "课堂时间轴 "@ + dec(
            duration / 1000,
        ) + "s 比采集进程墙钟 "@ + dec(wall_ms / 1000) + "s 长：源是加速的，或采集曾经停过——两个数不能混用"@,
{
}

proof fn lemma_no_close_warnings(es: Seq<Entry>, ids: Seq<Seq<char>>)
    requires
        forall|k: int| 0 <= k < ids.len() ==> close_warning(es, #[trigger] ids[k]).len() == 0,
    ensures
        close_warnings(es, ids).len() == 0,
    decreases ids.len(),
{
    if ids.len() > 0 {
        let r = ids.drop_last();
        assert forall|k: int| 0 <= k < r.len() implies close_warning(es, #[trigger] r[k]).len() == 0 by {
            assert(r[k] == ids[k]);
        }
        lemma_no_close_warnings(es, r);
        assert(close_warning(es, ids[ids.len() - 1]).len() == 0);
    }
}

/// Where nothing is wrong nothing is warned about: every source that was expected has a record, none
/// reported errors or a failure, and the lesson is no longer than the recording ran.
pub proof fn sound_lessons_have_no_warnings(p: AiPayload, meta: LessonMeta, es: Seq<Entry>)
    requires
        folded(p, meta, es),
        p.stats.duration_ms <= p.stats.wall_ms,
        forall|k: int|
            0 <= k < p.sources@.len() ==> ((#[trigger] p.sources@[k]).1.close matches Some(c) ==> c.stream_errors == 0
                && c.error is None),
        forall|k: int|
            0 <= k < strings_of(field(meta.info.params@, "expected_adapters"@)).len() ==> sources(es).contains(
                #[trigger] strings_of(field(meta.info.params@, "expected_adapters"@))[k],
            ),
    ensures
        p.warnings@.len() == 0,
{
    let ids = sources(es);
    assert forall|k: int| 0 <= k < ids.len() implies close_warning(es, #[trigger] ids[k]).len() == 0 by {
        let h = p.sources@[k].1;
        assert(h@ == health_view(es, ids[k]));
        assert(h@.close == close_view(es, ids[k]));
    }
    lemma_no_close_warnings(es, ids);
    lemma_none_missing(strings_of(field(meta.info.params@, "expected_adapters"@)), ids);
    assert(views(p.warnings@).len() == p.warnings@.len());
}

/// A lesson is folded wherever its times and sums stay within what a figure can hold, and the empty
/// lesson always is.
pub proof fn lessons_in_range_are_folded(meta: LessonMeta, es: Seq<Entry>)
    ensures
        es.len() == 0 ==> foldable(meta, es),
        ({
            let max = 0xffff_ffff_ffff_ffffint;
            let st = meta.started_core_mono_us as int;
            let n = es.len() as int;
            &&& total(es, spoken_ms(true)) + total(es, spoken_ms(false)) <= max
            &&& total(es, ink_ms()) <= max
            &&& total(es, picture_len()) <= max
            &&& total(es, audio_len()) <= max
            &&& total(es, audio_speech()) <= max
            &&& total(es, stream_errors_in()) <= max
            &&& overlap(ink_spans(st, es, n), speech_spans(st, es, n)) <= max
        }) ==> stats_fit(meta, es),
{
    if es.len() == 0 {
        assert(sources(es).len() == 0);
    }
}

/// The figures of a lesson grow with its records, each by what the record adds to it: what is said, by a
/// teacher or by somebody else, strokes and their time, erasures, sound and its speech, pictures, stream
/// errors and evaluations. A record that came a second time adds nothing to any.
pub proof fn figures_grow_with_records(a: LessonStats, b: LessonStats, meta: LessonMeta, es: Seq<Entry>, e: Entry)
    requires
        stats_are(a, meta, es),
        stats_are(b, meta, es.push(e)),
    ensures
        ({
            let counts = e.record.status != RecordStatus::Duplicate;
            let kind = e.record.envelope.kind@;
            let p = e.record.envelope.payload@;
            let one = |yes: bool|
                if yes {
                    1int
                } else {
                    0int
                };
            &&& b.utterances == a.utterances + one(counts && kind == "asr.utterance"@ && e.body is Speech)
            &&& b.strokes == a.strokes + one(counts && kind == "ink.stroke_commit"@ && e.body is Stroke)
            &&& b.erases == a.erases + one(counts && kind == "ink.stroke_delete"@)
            &&& b.audio_chunks == a.audio_chunks + one(counts && kind == "audio.chunk"@ && e.body is Audio)
            &&& b.keyframes == a.keyframes + one(counts && kind == "screen.keyframe"@ && e.body is Picture)
            &&& b.eval_records == a.eval_records + one(counts && kind == "eval.record"@ && e.body is Eval)
            &&& counts && kind == "asr.utterance"@ ==> (e.body matches Body::Speech(u) ==> (u.t1_ms >= u.t0_ms ==> if begins(
                u.speaker@,
                "teacher"@,
            ) {
                b.teacher_ms == a.teacher_ms + (u.t1_ms - u.t0_ms) && b.student_ms == a.student_ms
            } else {
                b.student_ms == a.student_ms + (u.t1_ms - u.t0_ms) && b.teacher_ms == a.teacher_ms
            }))
            &&& !counts || kind != "asr.utterance"@ ==> b.teacher_ms == a.teacher_ms && b.student_ms == a.student_ms
            &&& counts && kind == "ink.stroke_commit"@ ==> (e.body matches Body::Stroke { stroke, region } ==> b.ink_time_ms
                == a.ink_time_ms + stroke.duration_ms)
            &&& !counts || kind != "ink.stroke_commit"@ ==> b.ink_time_ms == a.ink_time_ms
            &&& counts && kind == "audio.chunk"@ ==> (e.body matches Body::Audio(c) ==> b.audio_bytes == a.audio_bytes + c.len
                && (uint_of(field(p, "speech_ms"@)) matches Some(n) ==> b.audio_speech_ms == a.audio_speech_ms + n))
            &&& !counts || kind != "audio.chunk"@ ==> b.audio_bytes == a.audio_bytes && b.audio_speech_ms == a.audio_speech_ms
            &&& counts && kind == "screen.keyframe"@ ==> (e.body matches Body::Picture(k) ==> b.keyframe_bytes == a.keyframe_bytes
                + k.len)
            &&& !counts || kind != "screen.keyframe"@ ==> b.keyframe_bytes == a.keyframe_bytes
            &&& counts && kind == "session.close"@ ==> (uint_of(field(p, "stream_errors"@)) matches Some(n) ==> b.stream_errors
                == a.stream_errors + n)
            &&& !counts || kind != "session.close"@ ==> b.stream_errors == a.stream_errors
        }),
{
    records_add_to_their_own_figures(es, e);
}

/// The other figures are what they say: the longest silence is the longest pause between things said, the
/// time of writing while speaking is the time that strokes and things said share, and the pages are those
/// touched.
pub proof fn figures_are_what_they_say(s: LessonStats, meta: LessonMeta, es: Seq<Entry>)
    requires
        stats_are(s, meta, es),
    ensures
        ({
            let st = meta.started_core_mono_us as int;
            let said = speech_spans(st, es, es.len() as int);
            let written = ink_spans(st, es, es.len() as int);
            &&& forall|i: int, p: int| 1 <= i < said.len() && #[trigger] pause_before(said, i, p) ==> p <= s.longest_silence_ms
            &&& s.longest_silence_ms > 0 ==> exists|i: int|
                1 <= i < said.len() && #[trigger] pause_before(said, i, s.longest_silence_ms as int)
            &&& s.writing_while_speaking_ms == overlap(said, written)
            &&& s.pages_touched == pages(es).len()
            &&& meta.ended_core_mono_us is None ==> s.wall_ms == 0
            &&& meta.ended_core_mono_us matches Some(e) ==> (e >= meta.started_core_mono_us ==> s.wall_ms == (e
                - meta.started_core_mono_us) / 1000)
        }),
{
    let st = meta.started_core_mono_us as int;
    let said = speech_spans(st, es, es.len() as int);
    longest_pause_is_longest(said);
    overlap_is_mutual(ink_spans(st, es, es.len() as int), said);
}

/// A folded lesson is the lesson that was recorded: its description, the one before it, every source with
/// what it did, and all lines of its track.
pub proof fn folded_lessons_are_whole(p: AiPayload, meta: LessonMeta, es: Seq<Entry>, i: int)
    requires
        folded(p, meta, es),
        0 <= i < es.len(),
    ensures
        p.lesson.lesson_id@ == meta.info.lesson_id@,
        opt_view(p.lesson.subject) == opt_view(meta.info.subject),
        opt_view(p.lesson.class) == opt_view(meta.info.class),
        opt_view(p.lesson.teacher) == opt_view(meta.info.teacher),
        p.lesson.started_at_utc_ms == meta.info.started_at_utc_ms,
        opt_view(p.prev_lesson_id) == opt_view(meta.info.prev_lesson_id),
        exists|k: int|
            0 <= k < p.sources@.len() && (#[trigger] p.sources@[k]).0@ == es[i].record.adapter_id@ && p.sources@[k].1@
                == health_view(es, es[i].record.adapter_id@),
        ({
            let st = meta.started_core_mono_us as int;
            track::item(es[i], base_of(st, es, i), time_of(st, es, i)) matches Some(x) ==> exists|k: int|
                0 <= k < p.track@.len() && (#[trigger] p.track@[k])@ == x
        }),
{
    let id = es[i].record.adapter_id@;
    assert(p.lesson@.lesson_id == meta.info@.lesson_id);
    no_source_is_passed_over(es, i);
    let k = choose|k: int| 0 <= k < sources(es).len() && sources(es)[k] == id;
    assert(p.sources@[k].0@ == id);
    let st = meta.started_core_mono_us as int;
    match track::item(es[i], base_of(st, es, i), time_of(st, es, i)) {
        Some(x) => {
            track::every_line_is_on_the_track(st, es, i);
            let v = item_views(p.track@);
            let n = choose|n: int| 0 <= n < v.len() && v[n] == x;
            assert(p.track@[n]@ == x);
        },
        None => {},
    }
}

} // verus!
