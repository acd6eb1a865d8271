//! Where records of a lesson fall on its time axis, and what they say there.

use vstd::prelude::*;
use crate::fold::collect;
use crate::fold::first_some;
use crate::fold::lemma_take_all;
use crate::fold::lemma_take_more;
use crate::json::compact;
use crate::json::field;
use crate::json::opt_json;
use crate::json::str_of;
use crate::json::uint_of;
use crate::json::Json;
use crate::json::JsonView;
use crate::kinds;
use crate::schema::AudioChunk;
use crate::schema::EvalRecord;
use crate::schema::Keyframe;
use crate::schema::PageActivate;
use crate::schema::RecordStatus;
use crate::schema::StoredRecord;
use crate::schema::StrokeCommit;
use crate::schema::Utterance;
use crate::text;
use crate::text::dec;
use crate::text::same;
use crate::text::text_le;
use crate::text::views;

verus! {

/// Space left on the axis between the end of one life of an adapter and the start of the next.
pub const RESUME_GAP_MS: u64 = 3_000;

/// Longest piece of an unknown payload that is shown.
pub const SHORT_CHARS: usize = 160;

/// A payload read into its type, with what only floating point can say of it.
#[derive(Debug, Clone)]
pub enum Body {
    /// No type of its own, or a payload that does not fit its type.
    Plain,
    Page(PageActivate),
    /// A stroke, and where on the board it lies.
    Stroke { stroke: StrokeCommit, region: String },
    Speech(Utterance),
    Audio(AudioChunk),
    Picture(Keyframe),
    Eval(EvalRecord),
    /// A closing record, and its `wall_s` member in whole milliseconds (0 where it has none).
    Close { wall_s_ms: u64 },
}

/// A stored record with its payload read.
#[derive(Debug, Clone)]
pub struct Entry {
    pub record: StoredRecord,
    pub body: Body,
}

/// The types that payloads are read into.
#[derive(Debug, Clone, Copy, PartialEq, Eq, Structural)]
pub enum Target {
    Plain,
    Page,
    Stroke,
    Speech,
    Audio,
    Picture,
    Eval,
    Close,
}

/// The type that the payload of a kind is read into.
pub open spec fn target(kind: Seq<char>) -> Target {
    if kind == kinds::INK_PAGE_ACTIVATE@ {
        Target::Page
    } else if kind == kinds::INK_STROKE_COMMIT@ {
        Target::Stroke
    } else if kind == kinds::ASR_UTTERANCE@ {
        Target::Speech
    } else if kind == kinds::AUDIO_CHUNK@ {
        Target::Audio
    } else if kind == kinds::SCREEN_KEYFRAME@ {
        Target::Picture
    } else if kind == kinds::EVAL_RECORD@ {
        Target::Eval
    } else if kind == kinds::SESSION_CLOSE@ {
        Target::Close
    } else {
        Target::Plain
    }
}

/// The type that the payload of a kind is read into.
pub fn target_of(kind: &str) -> (r: Target)
    ensures
        r == target(kind@),
{
    if same(kind, kinds::INK_PAGE_ACTIVATE) {
        Target::Page
    } else if same(kind, kinds::INK_STROKE_COMMIT) {
        Target::Stroke
    } else if same(kind, kinds::ASR_UTTERANCE) {
        Target::Speech
    } else if same(kind, kinds::AUDIO_CHUNK) {
        Target::Audio
    } else if same(kind, kinds::SCREEN_KEYFRAME) {
        Target::Picture
    } else if same(kind, kinds::EVAL_RECORD) {
        Target::Eval
    } else if same(kind, kinds::SESSION_CLOSE) {
        Target::Close
    } else {
        Target::Plain
    }
}

// ---------------------------------------------------------------------------------------------
// Time
// ---------------------------------------------------------------------------------------------

/// Whether a record counts: one that came a second time is kept, and takes part in nothing.
pub open spec fn live(e: Entry) -> bool {
    e.record.status != RecordStatus::Duplicate
}

/// Whether a record counts.
pub fn is_live(e: &Entry) -> (r: bool)
    ensures
        r == live(*e),
{
    e.record.status != RecordStatus::Duplicate
}

/// The adapter whose restart a record notes.
pub open spec fn respawned(e: Entry) -> Option<Seq<char>> {
    if live(e) && e.record.envelope.kind@ == kinds::CORE_RESPAWN@ {
        str_of(field(e.record.envelope.payload@, "adapter_id"@))
    } else {
        None
    }
}

/// The core's clock at a restart of `id`.
pub open spec fn respawn_time(id: Seq<char>) -> spec_fn(Entry) -> Option<u64> {
    |e: Entry|
        if respawned(e) == Some(id) {
            Some(e.record.t_core_mono_us)
        } else {
            None
        }
}

/// The core's clock at each restart of `id`, in the order of the records.
pub open spec fn boundaries(es: Seq<Entry>, id: Seq<char>) -> Seq<u64> {
    collect(es, respawn_time(id))
}

/// The reading of `id`'s own clock, where that clock is all that the record has.
pub open spec fn own_clock(id: Seq<char>) -> spec_fn(Entry) -> Option<u64> {
    |e: Entry|
        if live(e) && e.record.adapter_id@ == id && e.record.envelope.t_event_ms is None
            && e.record.envelope.t_mono_us > 0 {
            Some(e.record.envelope.t_mono_us)
        } else {
            None
        }
}

/// `a - b`, but not below 0.
pub open spec fn less_by(a: int, b: int) -> int {
    if a > b {
        a - b
    } else {
        0
    }
}

/// The time of record `i` in milliseconds, and whether it is the adapter's own. The lesson time
/// that the event carries comes first, then the adapter's clock since its first such reading,
/// then the core's clock since the start of the lesson.
pub open spec fn local(start_us: int, es: Seq<Entry>, i: int) -> (int, bool) {
    let r = es[i].record;
    match r.envelope.t_event_ms {
        Some(t) => (t as int, true),
        None => if r.envelope.t_mono_us > 0 {
            let first = first_some(es.take(i + 1), own_clock(r.adapter_id@));
            (less_by(r.envelope.t_mono_us as int, first->0 as int) / 1000, true)
        } else {
            (less_by(r.t_core_mono_us as int, start_us) / 1000, false)
        },
    }
}

/// How far an adapter has got on the axis: restarts passed, where its present life begins, and
/// the furthest time seen.
pub struct CursorView {
    pub next: int,
    pub base: int,
    pub seen: int,
}

/// The number of restarts passed at time `t`, `next` having been passed before.
pub open spec fn passed(b: Seq<u64>, next: int, t: u64) -> int
    decreases b.len() - next,
{
    if 0 <= next < b.len() && b[next] <= t {
        passed(b, next + 1, t)
    } else {
        next
    }
}

/// A cursor after one more record of its adapter. A new life begins behind all that was seen.
pub open spec fn advance(c: CursorView, b: Seq<u64>, t_core: u64, at: (int, bool)) -> CursorView {
    let next = passed(b, c.next, t_core);
    let base = if next > c.next {
        c.seen + RESUME_GAP_MS
    } else {
        c.base
    };
    let seen = if at.1 && base + at.0 > c.seen {
        base + at.0
    } else {
        c.seen
    };
    CursorView { next, base, seen }
}

/// The cursor of adapter `id` after the first `n` records.
pub open spec fn cursor(start_us: int, es: Seq<Entry>, id: Seq<char>, n: int) -> CursorView
    decreases n,
{
    if n <= 0 {
        CursorView { next: 0, base: 0, seen: 0 }
    } else if live(es[n - 1]) && es[n - 1].record.adapter_id@ == id {
        advance(
            cursor(start_us, es, id, n - 1),
            boundaries(es, id),
            es[n - 1].record.t_core_mono_us,
            local(start_us, es, n - 1),
        )
    } else {
        cursor(start_us, es, id, n - 1)
    }
}

/// The offset of record `i`'s own times on the axis: 0 where the time is the core's.
pub open spec fn base_of(start_us: int, es: Seq<Entry>, i: int) -> int {
    if live(es[i]) && local(start_us, es, i).1 {
        cursor(start_us, es, es[i].record.adapter_id@, i + 1).base
    } else {
        0
    }
}

/// The time of record `i` on the axis.
pub open spec fn time_of(start_us: int, es: Seq<Entry>, i: int) -> int {
    if live(es[i]) {
        base_of(start_us, es, i) + local(start_us, es, i).0
    } else {
        0
    }
}

/// Whether the cursor that placed record `i` stays in range.
pub open spec fn spot_fits(start_us: int, es: Seq<Entry>, i: int) -> bool {
    let c = cursor(start_us, es, es[i].record.adapter_id@, i + 1);
    live(es[i]) ==> c.base <= u64::MAX && c.seen <= u64::MAX
}

/// Whether every record has its place in range.
pub open spec fn spots_fit(start_us: int, es: Seq<Entry>) -> bool {
    forall|i: int| 0 <= i < es.len() ==> #[trigger] spot_fits(start_us, es, i)
}

/// Where a record falls on the axis.
#[derive(Debug, Clone, Copy, PartialEq, Eq, Structural)]
pub struct Spot {
    /// Offset of the adapter's own times.
    pub base: u64,
    /// The time of the record itself.
    pub t: u64,
}

#[derive(Debug, Clone, Copy, PartialEq, Eq, Structural)]
struct Cursor {
    next: usize,
    base: u64,
    seen: u64,
}

/// The position of `id` in a list of names.
pub fn index_of(ids: &Vec<String>, id: &str) -> (r: Option<usize>)
    ensures
        match r {
            Some(i) => i < ids@.len() && ids@[i as int]@ == id@,
            None => forall|j: int| 0 <= j < ids@.len() ==> (#[trigger] ids@[j])@ != id@,
        },
{
    let mut i: usize = 0;
    while i < ids.len()
        invariant
            i <= ids@.len(),
            forall|j: int| 0 <= j < i ==> (#[trigger] ids@[j])@ != id@,
        decreases ids@.len() - i,
    {
        if same(ids[i].as_str(), id) {
            return Some(i);
        }
        i += 1;
    }
    None
}

fn boundaries_of(es: &[Entry], id: &str) -> (r: Vec<u64>)
    ensures
        r@ == boundaries(es@, id@),
{
    let mut out: Vec<u64> = Vec::new();
    let mut i: usize = 0;
    while i < es.len()
        invariant
            i <= es@.len(),
            out@ == boundaries(es@.take(i as int), id@),
        decreases es@.len() - i,
    {
        proof {
            lemma_take_more(es@, i as int);
        }
        let r = &es[i].record;
        if is_live(&es[i]) && same(r.envelope.kind.as_str(), kinds::CORE_RESPAWN) {
            match r.envelope.payload.str_at("adapter_id") {
                Some(t) => {
                    if same(t, id) {
                        out.push(r.t_core_mono_us);
                    }
                },
                None => {},
            }
        }
        i += 1;
    }
    proof {
        lemma_take_all(es@);
    }
    out
}

fn local_of(start_us: u64, es: &[Entry], i: usize, first: Option<u64>) -> (r: (u64, bool))
    requires
        i < es@.len(),
        live(es@[i as int]),
        first == first_some(es@.take(i + 1), own_clock(es@[i as int].record.adapter_id@)),
    ensures
        r.0 == local(start_us as int, es@, i as int).0,
        r.1 == local(start_us as int, es@, i as int).1,
{
    let r = &es[i].record;
    match r.envelope.t_event_ms {
        Some(t) => (t, true),
        None => {
            if r.envelope.t_mono_us > 0 {
                let f: u64 = match first {
                    Some(x) => x,
                    None => 0,
                };
                proof {
                    lemma_take_more(es@, i as int);
                }
                let d: u64 = if r.envelope.t_mono_us > f {
                    r.envelope.t_mono_us - f
                } else {
                    0
                };
                (d / 1000, true)
            } else {
                let d: u64 = if r.t_core_mono_us > start_us {
                    r.t_core_mono_us - start_us
                } else {
                    0
                };
                (d / 1000, false)
            }
        },
    }
}

proof fn lemma_unseen(start_us: int, es: Seq<Entry>, id: Seq<char>, n: int)
    requires
        0 <= n <= es.len(),
        forall|j: int| 0 <= j < n && live(#[trigger] es[j]) ==> es[j].record.adapter_id@ != id,
    ensures
        cursor(start_us, es, id, n) == (CursorView { next: 0, base: 0, seen: 0 }),
        first_some(es.take(n), own_clock(id)) is None,
    decreases n,
{
    if n > 0 {
        lemma_unseen(start_us, es, id, n - 1);
        lemma_take_more(es, n - 1);
        assert(live(es[n - 1]) ==> es[n - 1].record.adapter_id@ != id);
    }
}

/// One step of a cursor; none where it leaves the range.
fn advance_of(c: Cursor, b: &Vec<u64>, t_core: u64, at: (u64, bool)) -> (r: Option<Cursor>)
    requires
        c.next <= b@.len(),
    ensures
        ({
            let v = advance(
                CursorView { next: c.next as int, base: c.base as int, seen: c.seen as int },
                b@,
                t_core,
                (at.0 as int, at.1),
            );
            match r {
                Some(n) => n.next == v.next && n.base == v.base && n.seen == v.seen && n.next <= b@.len(),
                None => v.base > u64::MAX || v.seen > u64::MAX,
            }
        }),
{
    let mut next: usize = c.next;
    while next < b.len() && b[next] <= t_core
        invariant
            c.next <= next <= b@.len(),
            passed(b@, next as int, t_core) == passed(b@, c.next as int, t_core),
        decreases b@.len() - next,
    {
        next += 1;
    }
    let base: u64 = if next > c.next {
        match c.seen.checked_add(RESUME_GAP_MS) {
            Some(x) => x,
            None => {
                return None;
            },
        }
    } else {
        c.base
    };
    let seen: u64 = if at.1 {
        match base.checked_add(at.0) {
            Some(e) => if e > c.seen {
                e
            } else {
                c.seen
            },
            None => {
                return None;
            },
        }
    } else {
        c.seen
    };
    Some(Cursor { next, base, seen })
}

/// The place of every record; none where a place leaves the range.
pub fn places(start_us: u64, es: &[Entry]) -> (r: Option<Vec<Spot>>)
    ensures
        r is Some <==> spots_fit(start_us as int, es@),
        r matches Some(v) ==> v@.len() == es@.len() && forall|i: int|
            0 <= i < es@.len() ==> (#[trigger] v@[i]).base == base_of(start_us as int, es@, i)
                && v@[i].t == time_of(start_us as int, es@, i),
{
    let mut out: Vec<Spot> = Vec::new();
    let mut ids: Vec<String> = Vec::new();
    let mut cursors: Vec<Cursor> = Vec::new();
    let mut firsts: Vec<Option<u64>> = Vec::new();
    let mut bounds: Vec<Vec<u64>> = Vec::new();
    let ghost st = start_us as int;
    let mut i: usize = 0;
    while i < es.len()
        invariant
            i <= es@.len(),
            st == start_us,
            out@.len() == i,
            ids@.len() == cursors@.len(),
            ids@.len() == firsts@.len(),
            ids@.len() == bounds@.len(),
            forall|j: int|
                0 <= j < i ==> (#[trigger] out@[j]).base == base_of(st, es@, j) && out@[j].t == time_of(st, es@, j),
            forall|j: int| 0 <= j < i ==> #[trigger] spot_fits(st, es@, j),
            forall|j: int| 0 <= j < i && live(#[trigger] es@[j]) ==> exists|k: int|
                0 <= k < ids@.len() && (#[trigger] ids@[k])@ == es@[j].record.adapter_id@,
            forall|k: int| #![trigger ids@[k]] #![trigger cursors@[k]]
                0 <= k < ids@.len() ==> {
                    let c = cursor(st, es@, ids@[k]@, i as int);
                    &&& cursors@[k].next == c.next
                    &&& cursors@[k].base == c.base
                    &&& cursors@[k].seen == c.seen
                    &&& cursors@[k].next <= bounds@[k]@.len()
                    &&& bounds@[k]@ == boundaries(es@, ids@[k]@)
                    &&& firsts@[k] == first_some(es@.take(i as int), own_clock(ids@[k]@))
                },
            forall|k: int, l: int|
                0 <= k < l < ids@.len() ==> (#[trigger] ids@[k])@ != (#[trigger] ids@[l])@,
        decreases es@.len() - i,
    {
        if !is_live(&es[i]) {
            proof {
                lemma_take_more(es@, i as int);
            }
            out.push(Spot { base: 0, t: 0 });
            i += 1;
            continue;
        }
        let id = es[i].record.adapter_id.as_str();
        let k: usize = match index_of(&ids, id) {
            Some(k) => k,
            None => {
                proof {
                    assert forall|j: int| 0 <= j < i && live(#[trigger] es@[j]) implies es@[j].record.adapter_id@ != id@ by {
                        let k = choose|k: int|
                            0 <= k < ids@.len() && (#[trigger] ids@[k])@ == es@[j].record.adapter_id@;
                        assert(ids@[k]@ != id@);
                    }
                    lemma_unseen(st, es@, id@, i as int);
                }
                let b = boundaries_of(es, id);
                let ghost before = ids@;
                ids.push(id.to_owned());
                cursors.push(Cursor { next: 0, base: 0, seen: 0 });
                firsts.push(None);
                bounds.push(b);
                proof {
                    assert forall|j: int| 0 <= j < i && live(#[trigger] es@[j]) implies exists|k: int|
                        0 <= k < ids@.len() && (#[trigger] ids@[k])@ == es@[j].record.adapter_id@ by {
                        let k = choose|k: int|
                            0 <= k < before.len() && (#[trigger] before[k])@ == es@[j].record.adapter_id@;
                        assert(ids@[k]@ == es@[j].record.adapter_id@);
                    }
                }
                ids.len() - 1
            },
        };
        proof {
            lemma_take_more(es@, i as int);
        }
        let first: Option<u64> = match firsts[k] {
            Some(x) => Some(x),
            None => {
                if es[i].record.envelope.t_event_ms.is_none() && es[i].record.envelope.t_mono_us > 0 {
                    Some(es[i].record.envelope.t_mono_us)
                } else {
                    None
                }
            },
        };
        let at = local_of(start_us, es, i, first);
        let c: Cursor = cursors[k];
        let n: Cursor = match advance_of(c, &bounds[k], es[i].record.t_core_mono_us, at) {
            Some(n) => n,
            None => {
                assert(!spot_fits(st, es@, i as int));
                return None;
            },
        };
        let base: u64 = if at.1 {
            n.base
        } else {
            0
        };
        assert(spot_fits(st, es@, i as int));
        assert(at.1 ==> base + at.0 <= n.seen);
        out.push(Spot { base, t: base + at.0 });
        let ghost was = cursors@;
        let ghost wasf = firsts@;
        cursors.set(k, n);
        firsts.set(k, first);
        proof {
            assert forall|q: int| 0 <= q < ids@.len() implies {
                let c = cursor(st, es@, (#[trigger] ids@[q])@, i + 1);
                &&& cursors@[q].next == c.next
                &&& cursors@[q].base == c.base
                &&& cursors@[q].seen == c.seen
                &&& cursors@[q].next <= bounds@[q]@.len()
                &&& firsts@[q] == first_some(es@.take(i + 1), own_clock(ids@[q]@))
            } by {
                if q != k {
                    assert(ids@[q]@ != ids@[k as int]@) by {
                        if q < k {
                        } else {
                        }
                    }
                    assert(cursors@[q] == was[q]);
                    assert(firsts@[q] == wasf[q]);
                }
            }
            assert forall|j: int| 0 <= j < i + 1 && live(#[trigger] es@[j]) implies exists|k: int|
                0 <= k < ids@.len() && (#[trigger] ids@[k])@ == es@[j].record.adapter_id@ by {
                if j == i {
                    assert(ids@[k as int]@ == es@[j].record.adapter_id@);
                }
            }
        }
        i += 1;
    }
    Some(out)
}

// ---------------------------------------------------------------------------------------------
// What a record says
// ---------------------------------------------------------------------------------------------

/// One line of the track.
#[derive(Debug, Clone)]
pub struct TrackItem {
    pub t0_ms: u64,
    pub t1_ms: u64,
    pub source: String,
    pub kind: String,
    /// The event in a sentence.
    pub text: String,
    pub refs: Vec<String>,
    /// What the source itself reported beside the sentence; absent where it reported nothing.
    pub detail: Option<Json>,
}

/// What a line of the track holds.
pub struct ItemView {
    pub t0: int,
    pub t1: int,
    pub source: Seq<char>,
    pub kind: Seq<char>,
    pub text: Seq<char>,
    pub refs: Seq<Seq<char>>,
    pub detail: Option<JsonView>,
}

impl View for TrackItem {
    type V = ItemView;

    open spec fn view(&self) -> ItemView {
        ItemView {
            t0: self.t0_ms as int,
            t1: self.t1_ms as int,
            source: self.source@,
            kind: self.kind@,
            text: self.text@,
            refs: views(self.refs@),
            detail: opt_json(self.detail),
        }
    }
}

/// The sentence on a stroke.
pub open spec fn stroke_text(s: StrokeCommit, region: Seq<char>) -> Seq<char> {
    let body = s.page_id@ + " 页写下一笔："@ + s.tool@ + "，"@ + dec(s.points@.len() as int) + " 点，用时 "@
        + dec(s.duration_ms as int) + "ms，位于"@ + region;
    match s.decimation {
        Some(d) => body + "；抽稀="@ + d@,
        None => body,
    }
}

/// The sentence on a stroke: page, tool, number of points, duration, where on the board.
pub fn describe_stroke(s: &StrokeCommit, region: &str) -> (r: String)
    ensures
        r@ == stroke_text(*s, region@),
{
    let mut out = s.page_id.clone();
    out.append(" 页写下一笔：");
    out.append(s.tool.as_str());
    out.append("，");
    text::push_dec(&mut out, s.points.len() as u64);
    out.append(" 点，用时 ");
    text::push_dec(&mut out, s.duration_ms);
    out.append("ms，位于");
    out.append(region);
    match &s.decimation {
        Some(d) => {
            out.append("；抽稀=");
            out.append(d.as_str());
        },
        None => {},
    }
    out
}

/// The text of a payload, cut after `SHORT_CHARS` characters.
pub open spec fn shortened(j: JsonView) -> Seq<char> {
    let s = compact(j);
    if s.len() > SHORT_CHARS {
        s.take(SHORT_CHARS as int).push('…')
    } else {
        s
    }
}

/// The text of a payload, cut after `SHORT_CHARS` characters.
pub fn short(j: &Json) -> (r: String)
    ensures
        r@ == shortened(j@),
{
    let s = j.to_text();
    cut(s)
}

/// A text cut after `SHORT_CHARS` characters, with a sign of the cut.
pub fn cut(s: String) -> (r: String)
    ensures
        r@ == (if s@.len() > SHORT_CHARS {
            s@.take(SHORT_CHARS as int).push('…')
        } else {
            s@
        }),
{
    let v = text::chars_of(s.as_str());
    if v.len() > SHORT_CHARS {
        let mut out = text::text_of(v.as_slice(), 0, SHORT_CHARS);
        assert(out@ =~= s@.take(SHORT_CHARS as int));
        out.push('…');
        out
    } else {
        s
    }
}

/// The names in a list.
pub open spec fn names(keys: Seq<&str>) -> Seq<Seq<char>> {
    keys.map_values(|k: &str| k@)
}

/// Those of the named members that a document has.
pub open spec fn picked(j: JsonView, keys: Seq<Seq<char>>) -> Map<Seq<char>, JsonView> {
    Map::new(|k: Seq<char>| keys.contains(k) && field(j, k) is Some, |k: Seq<char>| field(j, k)->0)
}

/// An object of these members; none where there are none.
pub open spec fn unless_empty(m: Map<Seq<char>, JsonView>) -> Option<JsonView> {
    if m == Map::<Seq<char>, JsonView>::empty() {
        None
    } else {
        Some(JsonView::Obj(m))
    }
}

/// Those of the named members that the source did report. One that is missing stays missing, and
/// one that is `null` stays `null`.
pub fn pick(src: &Json, keys: &[&str]) -> (r: Option<Json>)
    ensures
        opt_json(r) == unless_empty(picked(src@, names(keys@))),
{
    let mut out: Vec<(String, Json)> = Vec::new();
    let mut i: usize = 0;
    assert(crate::json::object_view(out@) =~= picked(src@, names(keys@.take(0))));
    while i < keys.len()
        invariant
            i <= keys@.len(),
            crate::json::object_view(out@) == picked(src@, names(keys@.take(i as int))),
        decreases keys@.len() - i,
    {
        proof {
            let a = names(keys@.take(i as int));
            let b = names(keys@.take(i + 1));
            assert(b =~= a.push(keys@[i as int]@));
            assert forall|k: Seq<char>| #[trigger] b.contains(k) <==> a.contains(k) || k == keys@[i as int]@ by {
                if b.contains(k) {
                    let n = choose|n: int| 0 <= n < b.len() && b[n] == k;
                    if n < a.len() {
                        assert(a[n] == k);
                    }
                }
                if a.contains(k) {
                    let n = choose|n: int| 0 <= n < a.len() && a[n] == k;
                    assert(b[n] == k);
                }
                if k == keys@[i as int]@ {
                    assert(b[a.len() as int] == k);
                }
            }
        }
        match src.get(keys[i]) {
            Some(v) => {
                crate::json::put(&mut out, keys[i], v.copy());
            },
            None => {},
        }
        i += 1;
        assert(crate::json::object_view(out@) =~= picked(src@, names(keys@.take(i as int))));
    }
    proof {
        lemma_take_all(keys@);
    }
    object_unless_empty(out)
}

/// An object of these members; none where there are none.
pub fn object_unless_empty(o: Vec<(String, Json)>) -> (r: Option<Json>)
    ensures
        opt_json(r) == unless_empty(crate::json::object_view(o@)),
{
    if o.len() == 0 {
        None
    } else {
        proof {
            assert(crate::json::object_view(o@).contains_key(o@[0].0@));
        }
        Some(Json::object(o))
    }
}

/// What an audio source may report of a piece.
pub open spec fn audio_names() -> Seq<Seq<char>> {
    seq!["rms"@, "peak"@, "speech_ms"@, "trigger"@, "source"@]
}

/// What a screen source may report of a picture.
pub open spec fn picture_names() -> Seq<Seq<char>> {
    seq!["trigger"@, "source"@, "dist"@, "mad"@, "width"@, "height"@, "dirty"@]
}

/// `s`, or `d` in its place where it is missing.
pub open spec fn or_else(s: Option<Seq<char>>, d: Seq<char>) -> Seq<char> {
    match s {
        Some(x) => x,
        None => d,
    }
}

/// The line of a record in the track, given the offset of its adapter's times and its own time.
/// Records about the recording itself (admission, restart, opening and closing) have none; nor
/// have records whose payload does not fit the type of their kind, or that came a second time.
pub open spec fn item(e: Entry, base: int, t: int) -> Option<ItemView> {
    let kind = e.record.envelope.kind@;
    let p = e.record.envelope.payload@;
    let line = |t0: int, t1: int, text: Seq<char>, refs: Seq<Seq<char>>, detail: Option<JsonView>|
        Some(ItemView { t0, t1, source: e.record.adapter_id@, kind, text, refs, detail });
    if !live(e) || kind == kinds::CORE_ADMIT@ || kind == kinds::CORE_RESPAWN@ || kind == kinds::SESSION_OPEN@ {
        None
    } else if kind == kinds::INK_PAGE_ACTIVATE@ {
        match e.body {
            Body::Page(b) => line(
                t,
                t,
                "切到第 "@ + dec(b.index + 1) + " 页（page_id="@ + b.page_id@ + "）"@,
                seq![b.page_id@],
                None,
            ),
            _ => None,
        }
    } else if kind == kinds::INK_STROKE_COMMIT@ {
        match e.body {
            Body::Stroke { stroke, region } => line(
                t,
                t + stroke.duration_ms,
                stroke_text(stroke, region@),
                seq![stroke.stroke_id@, stroke.page_id@],
                None,
            ),
            _ => None,
        }
    } else if kind == kinds::INK_STROKE_DELETE@ {
        let reason = or_else(str_of(field(p, "reason"@)), "write"@);
        let sid = or_else(str_of(field(p, "stroke_id"@)), "?"@);
        line(t, t, "撤销/擦除一笔（"@ + reason + "）："@ + sid, seq![sid], None)
    } else if kind == kinds::ASR_UTTERANCE@ {
        match e.body {
            Body::Speech(u) => line(
                u.t0_ms + base,
                u.t1_ms + base,
                u.speaker@ + "："@ + u.text@,
                Seq::empty(),
                None,
            ),
            _ => None,
        }
    } else if kind == kinds::AUDIO_CHUNK@ {
        match e.body {
            Body::Audio(c) => line(
                c.t0_ms + base,
                c.t0_ms + base + c.dur_ms,
                "音频分段 "@ + dec(c.dur_ms as int) + "ms（"@ + c.codec@ + "，"@ + dec(c.len as int) + " 字节）"@,
                seq![c.blob@],
                unless_empty(picked(p, audio_names())),
            ),
            _ => None,
        }
    } else if kind == kinds::SCREEN_KEYFRAME@ {
        match e.body {
            Body::Picture(k) => line(
                k.t_ms + base,
                k.t_ms + base,
                "屏幕关键帧（触发="@ + k.trigger@ + "，"@ + or_else(
                    text::opt_view(k.matched_page_id),
                    "未匹配到课件页"@,
                ) + "）"@,
                seq![k.blob@],
                unless_empty(picked(p, picture_names())),
            ),
            _ => None,
        }
    } else if kind == kinds::COURSEWARE_PAGE@ {
        let page = match uint_of(field(p, "page_index"@)) {
            Some(n) => dec(n as int),
            None => "?"@,
        };
        line(t, t, "课件翻到第 "@ + page + " 页"@, Seq::empty(), None)
    } else if kind == kinds::EVAL_RECORD@ {
        match e.body {
            Body::Eval(v) => line(
                v.t_ms + base,
                v.t_ms + base,
                "评估记录（"@ + v.instrument@ + "）："@ + compact(v.answers@),
                Seq::empty(),
                None,
            ),
            _ => None,
        }
    } else if kind == kinds::SESSION_CLOSE@ {
        None
    } else {
        line(t, t, "未识别事件 "@ + kind + "："@ + shortened(p), Seq::empty(), None)
    }
}

/// Whether a line stays in range: its times, and the page number that is shown counting from 1.
pub open spec fn item_fits(e: Entry, base: int, t: int) -> bool {
    item(e, base, t) matches Some(i) ==> {
        &&& i.t0 <= u64::MAX
        &&& i.t1 <= u64::MAX
        &&& e.record.envelope.kind@ == kinds::INK_PAGE_ACTIVATE@ ==> (e.body matches Body::Page(b)
            ==> b.index < u32::MAX)
    }
}

fn one(s: &str) -> (r: Vec<String>)
    ensures
        views(r@) == seq![s@],
        r@.len() == 1,
        r@[0]@ == s@,
{
    let mut v: Vec<String> = Vec::new();
    v.push(s.to_owned());
    assert(views(v@) =~= seq![s@]);
    v
}

fn none() -> (r: Vec<String>)
    ensures
        views(r@) == Seq::<Seq<char>>::empty(),
{
    let v: Vec<String> = Vec::new();
    assert(views(v@) =~= Seq::<Seq<char>>::empty());
    v
}

fn line(e: &Entry, t0: u64, t1: u64, text: String, refs: Vec<String>, detail: Option<Json>) -> (r: Option<Option<TrackItem>>)
    ensures
        r matches Some(Some(i)) && i@ == (ItemView {
            t0: t0 as int,
            t1: t1 as int,
            source: e.record.adapter_id@,
            kind: e.record.envelope.kind@,
            text: text@,
            refs: views(refs@),
            detail: opt_json(detail),
        }),
{
    Some(
        Some(
            TrackItem {
                t0_ms: t0,
                t1_ms: t1,
                source: e.record.adapter_id.clone(),
                kind: e.record.envelope.kind.clone(),
                text,
                refs,
                detail,
            },
        ),
    )
}

/// The view of a line, if there is one.
pub open spec fn opt_item(i: Option<TrackItem>) -> Option<ItemView> {
    match i {
        Some(x) => Some(x@),
        None => None,
    }
}

/// The line of a record in the track; none where it leaves the range.
pub fn item_of(e: &Entry, spot: Spot) -> (r: Option<Option<TrackItem>>)
    ensures
        r is Some <==> item_fits(*e, spot.base as int, spot.t as int),
        r matches Some(i) ==> opt_item(i) == item(*e, spot.base as int, spot.t as int),
{
    let base: u64 = spot.base;
    let t: u64 = spot.t;
    let kind = e.record.envelope.kind.as_str();
    let p = &e.record.envelope.payload;
    if !is_live(e) || same(kind, kinds::CORE_ADMIT) || same(kind, kinds::CORE_RESPAWN) || same(kind, kinds::SESSION_OPEN) {
        Some(None)
    } else if same(kind, kinds::INK_PAGE_ACTIVATE) {
        match &e.body {
            Body::Page(b) => {
                if b.index == u32::MAX {
                    return None;
                }
                let mut s = "切到第 ".to_owned();
                text::push_dec(&mut s, b.index as u64 + 1);
                s.append(" 页（page_id=");
                s.append(b.page_id.as_str());
                s.append("）");
                line(e, t, t, s, one(b.page_id.as_str()), None)
            },
            _ => Some(None),
        }
    } else if same(kind, kinds::INK_STROKE_COMMIT) {
        match &e.body {
            Body::Stroke { stroke, region } => {
                let t1: u64 = match t.checked_add(stroke.duration_ms) {
                    Some(x) => x,
                    None => {
                        return None;
                    },
                };
                let mut refs = one(stroke.stroke_id.as_str());
                refs.push(stroke.page_id.clone());
                assert(views(refs@) =~= seq![stroke.stroke_id@, stroke.page_id@]);
                line(e, t, t1, describe_stroke(stroke, region.as_str()), refs, None)
            },
            _ => Some(None),
        }
    } else if same(kind, kinds::INK_STROKE_DELETE) {
        let reason = match p.str_at("reason") {
            Some(x) => x,
            None => "write",
        };
        let sid = match p.str_at("stroke_id") {
            Some(x) => x,
            None => "?",
        };
        let mut s = "撤销/擦除一笔（".to_owned();
        s.append(reason);
        s.append("）：");
        s.append(sid);
        line(e, t, t, s, one(sid), None)
    } else if same(kind, kinds::ASR_UTTERANCE) {
        match &e.body {
            Body::Speech(u) => {
                let t0: u64 = match u.t0_ms.checked_add(base) {
                    Some(x) => x,
                    None => {
                        return None;
                    },
                };
                let t1: u64 = match u.t1_ms.checked_add(base) {
                    Some(x) => x,
                    None => {
                        return None;
                    },
                };
                let mut s = u.speaker.clone();
                s.append("：");
                s.append(u.text.as_str());
                line(e, t0, t1, s, none(), None)
            },
            _ => Some(None),
        }
    } else if same(kind, kinds::AUDIO_CHUNK) {
        match &e.body {
            Body::Audio(c) => {
                let t0: u64 = match c.t0_ms.checked_add(base) {
                    Some(x) => x,
                    None => {
                        return None;
                    },
                };
                let t1: u64 = match t0.checked_add(c.dur_ms) {
                    Some(x) => x,
                    None => {
                        return None;
                    },
                };
                let mut s = "音频分段 ".to_owned();
                text::push_dec(&mut s, c.dur_ms);
                s.append("ms（");
                s.append(c.codec.as_str());
                s.append("，");
                text::push_dec(&mut s, c.len);
                s.append(" 字节）");
                let keys = ["rms", "peak", "speech_ms", "trigger", "source"];
                let detail = pick(p, keys.as_slice());
                assert(names(keys@) =~= audio_names());
                line(e, t0, t1, s, one(c.blob.as_str()), detail)
            },
            _ => Some(None),
        }
    } else if same(kind, kinds::SCREEN_KEYFRAME) {
        match &e.body {
            Body::Picture(k) => {
                let t0: u64 = match k.t_ms.checked_add(base) {
                    Some(x) => x,
                    None => {
                        return None;
                    },
                };
                let mut s = "屏幕关键帧（触发=".to_owned();
                s.append(k.trigger.as_str());
                s.append("，");
                match &k.matched_page_id {
                    Some(page) => s.append(page.as_str()),
                    None => s.append("未匹配到课件页"),
                }
                s.append("）");
                let keys = ["trigger", "source", "dist", "mad", "width", "height", "dirty"];
                let detail = pick(p, keys.as_slice());
                assert(names(keys@) =~= picture_names());
                line(e, t0, t0, s, one(k.blob.as_str()), detail)
            },
            _ => Some(None),
        }
    } else if same(kind, kinds::COURSEWARE_PAGE) {
        let mut s = "课件翻到第 ".to_owned();
        match p.u64_at("page_index") {
            Some(n) => text::push_dec(&mut s, n),
            None => s.append("?"),
        }
        s.append(" 页");
        line(e, t, t, s, none(), None)
    } else if same(kind, kinds::EVAL_RECORD) {
        match &e.body {
            Body::Eval(v) => {
                let t0: u64 = match v.t_ms.checked_add(base) {
                    Some(x) => x,
                    None => {
                        return None;
                    },
                };
                let mut s = "评估记录（".to_owned();
                s.append(v.instrument.as_str());
                s.append("）：");
                s.append(v.answers.to_text().as_str());
                line(e, t0, t0, s, none(), None)
            },
            _ => Some(None),
        }
    } else if same(kind, kinds::SESSION_CLOSE) {
        Some(None)
    } else {
        let mut s = "未识别事件 ".to_owned();
        s.append(kind);
        s.append("：");
        s.append(short(p).as_str());
        line(e, t, t, s, none(), None)
    }
}

// ---------------------------------------------------------------------------------------------
// The track
// ---------------------------------------------------------------------------------------------

/// The lines of the first `n` records, in the order of the records.
pub open spec fn lines(start_us: int, es: Seq<Entry>, n: int) -> Seq<ItemView>
    decreases n,
{
    if n <= 0 {
        Seq::empty()
    } else {
        match item(es[n - 1], base_of(start_us, es, n - 1), time_of(start_us, es, n - 1)) {
            Some(i) => lines(start_us, es, n - 1).push(i),
            None => lines(start_us, es, n - 1),
        }
    }
}

/// Whether every line stays in range.
pub open spec fn lines_fit(start_us: int, es: Seq<Entry>) -> bool {
    forall|i: int|
        0 <= i < es.len() ==> item_fits(
            #[trigger] es[i],
            base_of(start_us, es, i),
            time_of(start_us, es, i),
        )
}

/// The order of the track: by start, then by kind.
pub open spec fn item_le(a: ItemView, b: ItemView) -> bool {
    a.t0 < b.t0 || (a.t0 == b.t0 && text_le(a.kind, b.kind))
}

/// Where `x` goes into an ordered `s`: behind everything that may stand before it.
pub open spec fn slot(s: Seq<ItemView>, x: ItemView) -> int
    decreases s.len(),
{
    if s.len() == 0 {
        0
    } else if item_le(s.last(), x) {
        s.len() as int
    } else {
        slot(s.drop_last(), x)
    }
}

/// `s` in the order of the track; lines that neither precedes keep the order they came in.
pub open spec fn ordered(s: Seq<ItemView>) -> Seq<ItemView>
    decreases s.len(),
{
    if s.len() == 0 {
        Seq::empty()
    } else {
        let r = ordered(s.drop_last());
        r.insert(slot(r, s.last()), s.last())
    }
}

/// The track of a lesson.
pub open spec fn track(start_us: int, es: Seq<Entry>) -> Seq<ItemView> {
    ordered(lines(start_us, es, es.len() as int))
}

/// The views of a list of lines.
pub open spec fn item_views(v: Seq<TrackItem>) -> Seq<ItemView> {
    v.map_values(|i: TrackItem| i@)
}

proof fn lemma_slot(s: Seq<ItemView>, x: ItemView)
    ensures
        0 <= slot(s, x) <= s.len(),
        slot(s, x) > 0 ==> item_le(s[slot(s, x) - 1], x),
        forall|j: int| slot(s, x) <= j < s.len() ==> !item_le(#[trigger] s[j], x),
    decreases s.len(),
{
    if s.len() > 0 && !item_le(s.last(), x) {
        lemma_slot(s.drop_last(), x);
        assert forall|j: int| slot(s, x) <= j < s.len() implies !item_le(#[trigger] s[j], x) by {
            if j < s.len() - 1 {
                assert(s[j] == s.drop_last()[j]);
            }
        }
    }
}

fn item_not_after(a: &TrackItem, b: &TrackItem) -> (r: bool)
    ensures
        r == item_le(a@, b@),
{
    a.t0_ms < b.t0_ms || (a.t0_ms == b.t0_ms && text::not_after(a.kind.as_str(), b.kind.as_str()))
}

/// Puts one more line into an ordered track.
pub fn insert_item(v: &mut Vec<TrackItem>, x: TrackItem)
    ensures
        item_views(final(v)@) == item_views(old(v)@).insert(slot(item_views(old(v)@), x@), x@),
{
    let ghost s = item_views(v@);
    let mut k: usize = v.len();
    assert(s.take(s.len() as int) =~= s);
    while k > 0 && !item_not_after(&v[k - 1], &x)
        invariant
            k <= v@.len(),
            s == item_views(v@),
            slot(s, x@) == slot(s.take(k as int), x@),
        decreases k,
    {
        proof {
            assert(s.take(k as int).drop_last() =~= s.take(k - 1));
            assert(s.take(k as int).last() == v@[k - 1]@);
        }
        k -= 1;
    }
    proof {
        if k > 0 {
            assert(s.take(k as int).last() == v@[k - 1]@);
        }
        assert(slot(s, x@) == k);
    }
    v.insert(k, x);
    assert(item_views(v@) =~= s.insert(k as int, x@));
}

/// The track of a lesson, given the places of its records; none where a line leaves the range.
pub fn track_of(start_us: u64, es: &[Entry], spots: &Vec<Spot>) -> (r: Option<Vec<TrackItem>>)
    requires
        spots@.len() == es@.len(),
        forall|i: int|
            0 <= i < es@.len() ==> (#[trigger] spots@[i]).base == base_of(start_us as int, es@, i)
                && spots@[i].t == time_of(start_us as int, es@, i),
    ensures
        r is Some <==> lines_fit(start_us as int, es@),
        r matches Some(v) ==> item_views(v@) == track(start_us as int, es@),
{
    let mut out: Vec<TrackItem> = Vec::new();
    let mut i: usize = 0;
    let ghost st = start_us as int;
    assert(item_views(out@) =~= ordered(lines(st, es@, 0)));
    while i < es.len()
        invariant
            i <= es@.len(),
            st == start_us,
            spots@.len() == es@.len(),
            forall|i: int|
                0 <= i < es@.len() ==> (#[trigger] spots@[i]).base == base_of(st, es@, i)
                    && spots@[i].t == time_of(st, es@, i),
            forall|j: int|
                0 <= j < i ==> item_fits(#[trigger] es@[j], base_of(st, es@, j), time_of(st, es@, j)),
            item_views(out@) == ordered(lines(st, es@, i as int)),
        decreases es@.len() - i,
    {
        let s: Spot = spots[i];
        match item_of(&es[i], s) {
            Some(Some(x)) => {
                proof {
                    let l = lines(st, es@, i + 1);
                    assert(l.drop_last() =~= lines(st, es@, i as int));
                }
                insert_item(&mut out, x);
            },
            Some(None) => {},
            None => {
                assert(!item_fits(es@[i as int], base_of(st, es@, i as int), time_of(st, es@, i as int)));
                return None;
            },
        }
        i += 1;
    }
    Some(out)
}

/// The track comes in order: no line starts after a later one, and of lines with the same start
/// the kinds come in order.
pub proof fn track_is_ordered(s: Seq<ItemView>)
    ensures
        forall|i: int, j: int|
            0 <= i < j < ordered(s).len() ==> item_le(#[trigger] ordered(s)[i], #[trigger] ordered(s)[j]),
        ordered(s).len() == s.len(),
    decreases s.len(),
{
    if s.len() > 0 {
        let r = ordered(s.drop_last());
        let x = s.last();
        track_is_ordered(s.drop_last());
        lemma_slot(r, x);
        let k = slot(r, x);
        let n = ordered(s);
        assert forall|i: int, j: int| 0 <= i < j < n.len() implies item_le(
            #[trigger] n[i],
            #[trigger] n[j],
        ) by {
            if j == k {
                assert(n[i] == r[i]);
                lemma_item_le_transitive(r[i], r[k - 1], x);
            } else if i == k {
                assert(n[j] == r[j - 1]);
                assert(!item_le(r[j - 1], x));
                lemma_item_le_total(r[j - 1], x);
            } else {
                let a = if i < k {
                    i
                } else {
                    i - 1
                };
                let b = if j < k {
                    j
                } else {
                    j - 1
                };
                assert(n[i] == r[a] && n[j] == r[b]);
            }
        }
    }
}

proof fn lemma_item_le_total(a: ItemView, b: ItemView)
    ensures
        item_le(a, b) || item_le(b, a),
{
    text::text_le_total(a.kind, b.kind);
}

proof fn lemma_item_le_transitive(a: ItemView, b: ItemView, c: ItemView)
    requires
        a == b || item_le(a, b),
        item_le(b, c),
    ensures
        item_le(a, c),
{
    if a != b && a.t0 == b.t0 && b.t0 == c.t0 {
        text::text_le_transitive(a.kind, b.kind, c.kind);
    }
}

/// Ordering the track neither loses a line nor makes one up.
pub proof fn track_keeps_lines(s: Seq<ItemView>)
    ensures
        ordered(s).to_multiset() == s.to_multiset(),
    decreases s.len(),
{
    broadcast use vstd::seq_lib::group_to_multiset_ensures;

    if s.len() > 0 {
        track_keeps_lines(s.drop_last());
        let r = ordered(s.drop_last());
        lemma_slot(r, s.last());
        let k = slot(r, s.last());
        let n = r.insert(k, s.last());
        assert(n.remove(k) =~= r);
        assert(n[k] == s.last());
        assert(n.to_multiset().remove(s.last()) =~= r.to_multiset());
        assert(n.contains(s.last()));
        assert(n.to_multiset() =~= r.to_multiset().insert(s.last()));
        assert(s =~= s.drop_last().push(s.last()));
    } else {
        assert(ordered(s) =~= s);
    }
}

/// Lines with the same start and the same kind.
pub open spec fn at_key(t0: int, kind: Seq<char>) -> spec_fn(ItemView) -> bool {
    |i: ItemView| i.t0 == t0 && i.kind == kind
}

/// Lines with the same start and the same kind stay in the order of their records.
pub proof fn track_is_stable(s: Seq<ItemView>, t0: int, kind: Seq<char>)
    ensures
        ordered(s).filter(at_key(t0, kind)) == s.filter(at_key(t0, kind)),
    decreases s.len(),
{
    reveal(Seq::filter);
    let p = at_key(t0, kind);
    if s.len() > 0 {
        let r = ordered(s.drop_last());
        let x = s.last();
        let k = slot(r, x);
        track_is_stable(s.drop_last(), t0, kind);
        lemma_slot(r, x);
        let a = r.take(k);
        let b = r.skip(k);
        assert(r =~= a + b);
        assert(ordered(s) =~= a.push(x) + b);
        Seq::filter_distributes_over_add(a, b, p);
        Seq::filter_distributes_over_add(a.push(x), b, p);
        assert(a.push(x).drop_last() =~= a);
        if p(x) {
            assert forall|j: int| 0 <= j < b.len() implies !p(#[trigger] b[j]) by {
                assert(b[j] == r[k + j]);
                text::text_le_reflexive(x.kind);
            }
            lemma_filter_none(b, p);
            assert(ordered(s).filter(p) =~= r.filter(p).push(x));
        } else {
            assert(ordered(s).filter(p) =~= r.filter(p));
        }
    }
}

proof fn lemma_filter_none(s: Seq<ItemView>, p: spec_fn(ItemView) -> bool)
    requires
        forall|j: int| 0 <= j < s.len() ==> !p(#[trigger] s[j]),
    ensures
        s.filter(p) == Seq::<ItemView>::empty(),
    decreases s.len(),
{
    reveal(Seq::filter);
    if s.len() > 0 {
        assert forall|j: int| 0 <= j < s.drop_last().len() implies !p(#[trigger] s.drop_last()[j]) by {
            assert(s.drop_last()[j] == s[j]);
        }
        lemma_filter_none(s.drop_last(), p);
        assert(!p(s[s.len() - 1]));
    }
}

/// Records about the recording itself are not on the track.
pub proof fn recordings_stay_off_the_track(e: Entry, base: int, t: int)
    requires
        ({
            let kind = e.record.envelope.kind@;
            kind == kinds::CORE_ADMIT@ || kind == kinds::CORE_RESPAWN@ || kind == kinds::SESSION_OPEN@ || kind
                == kinds::SESSION_CLOSE@
        }),
    ensures
        item(e, base, t) is None,
{
    kinds::kinds_are_distinct();
}

/// What a source did not report stays missing, and what it did report stays as it was.
pub proof fn picks_keep_what_was_reported(j: JsonView, keys: Seq<Seq<char>>, k: Seq<char>)
    requires
        keys.contains(k),
    ensures
        picked(j, keys).contains_key(k) <==> field(j, k) is Some,
        field(j, k) matches Some(v) ==> picked(j, keys)[k] == v,
{
}

proof fn lemma_local(start_us: int, es: Seq<Entry>, i: int)
    ensures
        local(start_us, es, i).0 >= 0,
{
}

/// Nothing that an adapter said before lies behind what its cursor has seen.
proof fn lemma_seen(start_us: int, es: Seq<Entry>, id: Seq<char>, j: int, n: int)
    requires
        0 <= j < n <= es.len(),
        live(es[j]),
        es[j].record.adapter_id@ == id,
        local(start_us, es, j).1,
    ensures
        time_of(start_us, es, j) <= cursor(start_us, es, id, n).seen,
    decreases n,
{
    if j < n - 1 {
        lemma_seen(start_us, es, id, j, n - 1);
    }
}

/// The lives of an adapter do not overlap: where it was restarted between two records that carry
/// its own time, the later one lies behind the earlier one by at least the gap that is left.
pub proof fn lives_do_not_overlap(start_us: int, es: Seq<Entry>, j: int, i: int)
    requires
        0 <= j < i < es.len(),
        live(es[j]),
        live(es[i]),
        es[j].record.adapter_id@ == es[i].record.adapter_id@,
        local(start_us, es, j).1,
        local(start_us, es, i).1,
        cursor(start_us, es, es[i].record.adapter_id@, i + 1).next > cursor(
            start_us,
            es,
            es[i].record.adapter_id@,
            i,
        ).next,
    ensures
        time_of(start_us, es, i) >= time_of(start_us, es, j) + RESUME_GAP_MS,
{
    let id = es[i].record.adapter_id@;
    lemma_seen(start_us, es, id, j, i);
    lemma_local(start_us, es, i);
}

proof fn lemma_boundaries(es: Seq<Entry>, e: Entry, id: Seq<char>)
    requires
        e.record.envelope.kind@ == kinds::SESSION_CLOSE@,
    ensures
        boundaries(es.push(e), id) == boundaries(es, id),
{
    kinds::kinds_are_distinct();
    assert(es.push(e).drop_last() =~= es);
}

proof fn lemma_same_cursor(start_us: int, es: Seq<Entry>, e: Entry, id: Seq<char>, n: int)
    requires
        e.record.envelope.kind@ == kinds::SESSION_CLOSE@,
        0 <= n <= es.len(),
    ensures
        cursor(start_us, es.push(e), id, n) == cursor(start_us, es, id, n),
    decreases n,
{
    if n > 0 {
        lemma_same_cursor(start_us, es, e, id, n - 1);
        lemma_boundaries(es, e, id);
        assert(es.push(e).take(n) =~= es.take(n));
    }
}

proof fn lemma_same_lines(start_us: int, es: Seq<Entry>, e: Entry, n: int)
    requires
        e.record.envelope.kind@ == kinds::SESSION_CLOSE@,
        0 <= n <= es.len(),
    ensures
        lines(start_us, es.push(e), n) == lines(start_us, es, n),
    decreases n,
{
    if n > 0 {
        lemma_same_lines(start_us, es, e, n - 1);
        lemma_same_cursor(start_us, es, e, es[n - 1].record.adapter_id@, n);
        assert(es.push(e).take(n) =~= es.take(n));
    }
}

/// A closing record does not lengthen the axis, nor change anything on it, whatever its own time:
/// that is how long a process ran, not how long the lesson was.
pub proof fn closing_changes_nothing_on_the_track(start_us: int, es: Seq<Entry>, e: Entry)
    requires
        e.record.envelope.kind@ == kinds::SESSION_CLOSE@,
    ensures
        track(start_us, es.push(e)) == track(start_us, es),
{
    let n = es.len() as int;
    lemma_same_lines(start_us, es, e, n);
    recordings_stay_off_the_track(e, base_of(start_us, es.push(e), n), time_of(start_us, es.push(e), n));
}

/// The time that an event carries comes first: it is the time of the record within its adapter's life,
/// whatever the clocks say.
pub proof fn event_times_come_first(start_us: int, es: Seq<Entry>, i: int, t: u64)
    requires
        es[i].record.envelope.t_event_ms == Some(t),
    ensures
        local(start_us, es, i) == (t as int, true),
{
}

/// Where an event carries no time, its adapter's clock tells it, counted from the adapter's first
/// such reading, `j`: that one is at 0, and later ones as much later as the clock went on.
pub proof fn own_clocks_start_at_their_first_reading(start_us: int, es: Seq<Entry>, j: int, i: int)
    requires
        0 <= j <= i < es.len(),
        es[i].record.envelope.t_event_ms is None,
        es[i].record.envelope.t_mono_us > 0,
        es[j].record.status != RecordStatus::Duplicate,
        es[j].record.adapter_id@ == es[i].record.adapter_id@,
        es[j].record.envelope.t_event_ms is None,
        es[j].record.envelope.t_mono_us > 0,
        forall|q: int|
            0 <= q < j ==> (#[trigger] es[q]).record.status == RecordStatus::Duplicate || es[q].record.adapter_id@
                != es[i].record.adapter_id@ || es[q].record.envelope.t_event_ms is Some || es[q].record.envelope.t_mono_us == 0,
    ensures
        local(start_us, es, i).1,
        i == j ==> local(start_us, es, i).0 == 0,
        ({
            let us = es[i].record.envelope.t_mono_us - es[j].record.envelope.t_mono_us;
            let ms = local(start_us, es, i).0;
            if us >= 0 {
                ms * 1000 <= us < ms * 1000 + 1000
            } else {
                ms == 0
            }
        }),
{
    let s = es.take(i + 1);
    let f = own_clock(es[i].record.adapter_id@);
    assert forall|q: int| 0 <= q < j implies f(#[trigger] s[q]) is None by {
        assert(s[q] == es[q]);
    }
    assert(s[j] == es[j]);
    crate::fold::lemma_first(s, f, j);
}

/// A record without any time of its own is placed by the core's clock, counted from the start of the
/// lesson, and no restart moves it.
pub proof fn the_core_places_the_rest(start_us: int, es: Seq<Entry>, i: int)
    requires
        es[i].record.status != RecordStatus::Duplicate,
        es[i].record.envelope.t_event_ms is None,
        es[i].record.envelope.t_mono_us == 0,
        start_us <= es[i].record.t_core_mono_us,
    ensures
        base_of(start_us, es, i) == 0,
        time_of(start_us, es, i) * 1000 <= es[i].record.t_core_mono_us - start_us < time_of(start_us, es, i) * 1000 + 1000,
{
}

proof fn lemma_one_life(start_us: int, es: Seq<Entry>, id: Seq<char>, n: int)
    requires
        boundaries(es, id).len() == 0,
    ensures
        cursor(start_us, es, id, n).base == 0,
        cursor(start_us, es, id, n).next == 0,
    decreases n,
{
    if n > 0 {
        lemma_one_life(start_us, es, id, n - 1);
    }
}

/// Whether a record notes a restart of an adapter.
pub open spec fn notes_restart(e: Entry, id: Seq<char>) -> bool {
    &&& e.record.status != RecordStatus::Duplicate
    &&& e.record.envelope.kind@ == "core.respawn"@
    &&& str_of(field(e.record.envelope.payload@, "adapter_id"@)) == Some(id)
}

/// An adapter that was never started again keeps its times as they are.
pub proof fn one_life_keeps_its_times(start_us: int, es: Seq<Entry>, i: int)
    requires
        0 <= i < es.len(),
        es[i].record.status != RecordStatus::Duplicate,
        forall|q: int| 0 <= q < es.len() ==> !notes_restart(#[trigger] es[q], es[i].record.adapter_id@),
    ensures
        base_of(start_us, es, i) == 0,
        time_of(start_us, es, i) == local(start_us, es, i).0,
        es[i].record.envelope.t_event_ms matches Some(t) ==> time_of(start_us, es, i) == t,
{
    let id = es[i].record.adapter_id@;
    let b = boundaries(es, id);
    if b.len() > 0 {
        assert(b.contains(b[0]));
        crate::fold::lemma_collected(es, respawn_time(id), b[0]);
        let q = choose|q: int| 0 <= q < es.len() && respawn_time(id)(#[trigger] es[q]) == Some(b[0]);
        assert(!notes_restart(es[q], id));
    }
    lemma_one_life(start_us, es, id, i + 1);
}

/// Whether records came in the order of the core's clock.
pub open spec fn in_order(es: Seq<Entry>) -> bool {
    forall|a: int, b: int|
        0 <= a < b < es.len() ==> (#[trigger] es[a]).record.t_core_mono_us <= (#[trigger] es[b]).record.t_core_mono_us
}

/// The place of the restart that record `q` notes among the restarts of `id`: those before it are not
/// later than it, and those behind it not earlier.
proof fn lemma_boundary(es: Seq<Entry>, id: Seq<char>, q: int) -> (k: int)
    requires
        0 <= q < es.len(),
        in_order(es),
        notes_restart(es[q], id),
    ensures
        0 <= k < boundaries(es, id).len(),
        boundaries(es, id)[k] == es[q].record.t_core_mono_us,
        forall|x: int|
            0 <= x < boundaries(es, id).len() ==> (#[trigger] boundaries(es, id)[x]) <= es[es.len() - 1].record.t_core_mono_us,
        forall|x: int| 0 <= x <= k ==> (#[trigger] boundaries(es, id)[x]) <= es[q].record.t_core_mono_us,
    decreases es.len(),
{
    let r = es.drop_last();
    let n = es.len() - 1;
    assert forall|a: int, b: int| 0 <= a < b < r.len() implies (#[trigger] r[a]).record.t_core_mono_us <= (
    #[trigger] r[b]).record.t_core_mono_us by {
        assert(r[a] == es[a] && r[b] == es[b]);
    }
    lemma_boundaries_within(r, id);
    if n > 0 {
        assert(r[n - 1] == es[n - 1]);
        assert(es[n - 1].record.t_core_mono_us <= es[n].record.t_core_mono_us);
    }
    let bs = boundaries(es, id);
    let br = boundaries(r, id);
    assert forall|x: int| 0 <= x < bs.len() implies (#[trigger] bs[x]) <= es[n].record.t_core_mono_us by {
        if x < br.len() {
            assert(bs[x] == br[x]);
        }
    }
    if q == n {
        br.len() as int
    } else {
        assert(r[q] == es[q]);
        let k = lemma_boundary(r, id, q);
        assert forall|x: int| 0 <= x <= k implies (#[trigger] bs[x]) <= es[q].record.t_core_mono_us by {
            assert(bs[x] == br[x]);
        }
        k
    }
}

proof fn lemma_boundaries_within(es: Seq<Entry>, id: Seq<char>)
    requires
        in_order(es),
    ensures
        es.len() == 0 ==> boundaries(es, id).len() == 0,
        es.len() > 0 ==> forall|x: int|
            0 <= x < boundaries(es, id).len() ==> (#[trigger] boundaries(es, id)[x]) <= es[es.len() - 1].record.t_core_mono_us,
    decreases es.len(),
{
    if es.len() > 0 {
        let r = es.drop_last();
        let n = es.len() - 1;
        assert forall|a: int, b: int| 0 <= a < b < r.len() implies (#[trigger] r[a]).record.t_core_mono_us <= (
        #[trigger] r[b]).record.t_core_mono_us by {
            assert(r[a] == es[a] && r[b] == es[b]);
        }
        lemma_boundaries_within(r, id);
        let bs = boundaries(es, id);
        let br = boundaries(r, id);
        if n > 0 {
            assert(r[n - 1] == es[n - 1]);
            assert(es[n - 1].record.t_core_mono_us <= es[n].record.t_core_mono_us);
        }
        assert forall|x: int| 0 <= x < bs.len() implies (#[trigger] bs[x]) <= es[n].record.t_core_mono_us by {
            if x < br.len() {
                assert(bs[x] == br[x]);
            }
        }
    }
}

proof fn lemma_passed(b: Seq<u64>, next: int, t: u64, k: int)
    requires
        0 <= next <= b.len(),
        0 <= k < b.len(),
    ensures
        next <= passed(b, next, t) <= b.len(),
        b[k] > t && next <= k ==> passed(b, next, t) <= k,
        (forall|x: int| 0 <= x <= k ==> #[trigger] b[x] <= t) ==> passed(b, next, t) > k,
    decreases b.len() - next,
{
    if next < b.len() && b[next] <= t {
        lemma_passed(b, next + 1, t, k);
    }
}

proof fn lemma_not_passed(start_us: int, es: Seq<Entry>, id: Seq<char>, k: int, n: int)
    requires
        0 <= n <= es.len(),
        0 <= k < boundaries(es, id).len(),
        forall|x: int| 0 <= x < n ==> (#[trigger] es[x]).record.t_core_mono_us < boundaries(es, id)[k],
    ensures
        0 <= cursor(start_us, es, id, n).next <= k,
    decreases n,
{
    if n > 0 {
        lemma_not_passed(start_us, es, id, k, n - 1);
        lemma_passed(
            boundaries(es, id),
            cursor(start_us, es, id, n - 1).next,
            es[n - 1].record.t_core_mono_us,
            k,
        );
    }
}

/// Once a restart was passed, all that comes lies behind what was seen before it.
proof fn lemma_behind(start_us: int, es: Seq<Entry>, id: Seq<char>, k: int, j: int, n: int)
    requires
        0 <= j < n <= es.len(),
        0 <= k < boundaries(es, id).len(),
        live(es[j]),
        es[j].record.adapter_id@ == id,
        local(start_us, es, j).1,
        0 <= cursor(start_us, es, id, j + 1).next <= k,
    ensures
        0 <= cursor(start_us, es, id, n).next <= boundaries(es, id).len(),
        cursor(start_us, es, id, n).next > k ==> cursor(start_us, es, id, n).base >= time_of(start_us, es, j) + RESUME_GAP_MS,
    decreases n,
{
    if n > j + 1 {
        lemma_behind(start_us, es, id, k, j, n - 1);
        lemma_seen(start_us, es, id, j, n - 1);
        lemma_passed(
            boundaries(es, id),
            cursor(start_us, es, id, n - 1).next,
            es[n - 1].record.t_core_mono_us,
            k,
        );
    }
}

/// A restart opens a new life: what an adapter says behind the record of its restart (`q`) lies at
/// least three seconds after all that it said before (`j`), though its own clock began anew.
pub proof fn restarts_open_new_lives(start_us: int, es: Seq<Entry>, j: int, q: int, i: int)
    requires
        in_order(es),
        0 <= j < q < i < es.len(),
        notes_restart(es[q], es[i].record.adapter_id@),
        es[j].record.adapter_id@ == es[i].record.adapter_id@,
        es[j].record.t_core_mono_us < es[q].record.t_core_mono_us,
        es[j].record.status != RecordStatus::Duplicate,
        es[i].record.status != RecordStatus::Duplicate,
        es[j].record.envelope.t_event_ms is Some || es[j].record.envelope.t_mono_us > 0,
        es[i].record.envelope.t_event_ms is Some || es[i].record.envelope.t_mono_us > 0,
    ensures
        time_of(start_us, es, i) >= time_of(start_us, es, j) + 3_000,
{
    let id = es[i].record.adapter_id@;
    let b = boundaries(es, id);
    let k = lemma_boundary(es, id, q);
    assert forall|x: int| 0 <= x < j + 1 implies (#[trigger] es[x]).record.t_core_mono_us < b[k] by {
        assert(es[x].record.t_core_mono_us <= es[j].record.t_core_mono_us);
    }
    lemma_not_passed(start_us, es, id, k, j + 1);
    lemma_behind(start_us, es, id, k, j, i);
    lemma_behind(start_us, es, id, k, j, i + 1);
    assert(es[q].record.t_core_mono_us <= es[i].record.t_core_mono_us);
    assert forall|x: int| 0 <= x <= k implies #[trigger] b[x] <= es[i].record.t_core_mono_us by {}
    lemma_passed(b, cursor(start_us, es, id, i).next, es[i].record.t_core_mono_us, k);
    lemma_local(start_us, es, i);
}

proof fn lemma_bases(start_us: int, es: Seq<Entry>, id: Seq<char>, n: int)
    requires
        0 <= n <= es.len(),
    ensures
        ({
            let c = cursor(start_us, es, id, n);
            &&& c.seen == 0 || exists|j: int|
                0 <= j < n && live(#[trigger] es[j]) && es[j].record.adapter_id@ == id && local(start_us, es, j).1 && c.seen
                    == time_of(start_us, es, j)
            &&& c.base == 0 || c.base == RESUME_GAP_MS || exists|j: int|
                0 <= j < n && live(#[trigger] es[j]) && es[j].record.adapter_id@ == id && local(start_us, es, j).1 && c.base
                    == time_of(start_us, es, j) + RESUME_GAP_MS
        }),
    decreases n,
{
    if n > 0 {
        lemma_bases(start_us, es, id, n - 1);
        let p = cursor(start_us, es, id, n - 1);
        let c = cursor(start_us, es, id, n);
        if live(es[n - 1]) && es[n - 1].record.adapter_id@ == id {
            if c.seen != p.seen {
                assert(c.seen == time_of(start_us, es, n - 1));
                assert(live(es[n - 1]));
            }
        }
    }
}

/// No time is made up between lives: each life begins where the adapter's record began, or three
/// seconds after the time of a record of an earlier one.
pub proof fn lives_begin_three_seconds_later(start_us: int, es: Seq<Entry>, i: int)
    requires
        0 <= i < es.len(),
    ensures
        base_of(start_us, es, i) == 0 || base_of(start_us, es, i) == 3_000 || exists|j: int|
            0 <= j <= i && (#[trigger] es[j]).record.adapter_id@ == es[i].record.adapter_id@ && base_of(start_us, es, i)
                == time_of(start_us, es, j) + 3_000,
{
    lemma_bases(start_us, es, es[i].record.adapter_id@, i + 1);
}

/// A record that came a second time has no line and moves nothing: neither the places of its adapter
/// nor where its lives begin.
pub proof fn repeats_leave_no_trace(start_us: int, es: Seq<Entry>, n: int, id: Seq<char>, base: int, t: int)
    requires
        0 < n <= es.len(),
        es[n - 1].record.status == RecordStatus::Duplicate,
    ensures
        item(es[n - 1], base, t) is None,
        cursor(start_us, es, id, n) == cursor(start_us, es, id, n - 1),
        lines(start_us, es, n) == lines(start_us, es, n - 1),
        respawned(es[n - 1]) is None,
{
}

/// Lines move with their life: where a life begins later, every line of it lies as much later, with
/// the same length, the same words and the same references.
pub proof fn lines_move_with_their_life(e: Entry, base: int, t: int, by: int)
    ensures
        match item(e, base, t) {
            Some(a) => item(e, base + by, t + by) matches Some(b) && b.t0 == a.t0 + by && b.t1 == a.t1 + by && b.source == a.source
                && b.kind == a.kind && b.text == a.text && b.refs == a.refs && b.detail == a.detail,
            None => item(e, base + by, t + by) is None,
        },
{
}

/// What each kind of record puts on the track: speech from its beginning to its end as it tells them,
/// a stroke from its time for as long as it took, sound and pictures from the time they tell; all of
/// it under the name of its source and its own kind.
pub proof fn lines_tell_their_times(e: Entry, t: int)
    requires
        e.record.status != RecordStatus::Duplicate,
    ensures
        ({
            let kind = e.record.envelope.kind@;
            let i = item(e, 0, t);
            &&& i matches Some(x) ==> x.source == e.record.adapter_id@ && x.kind == kind
            &&& kind == "asr.utterance"@ ==> (e.body matches Body::Speech(u) ==> (i matches Some(x) && x.t0 == u.t0_ms && x.t1
                == u.t1_ms && x.text == u.speaker@ + "："@ + u.text@))
            &&& kind == "ink.stroke_commit"@ ==> (e.body matches Body::Stroke { stroke, region } ==> (i matches Some(x) && x.t0
                == t && x.t1 == t + stroke.duration_ms && x.refs == seq![stroke.stroke_id@, stroke.page_id@]))
            &&& kind == "ink.page_activate"@ ==> (e.body matches Body::Page(p) ==> (i matches Some(x) && x.t0 == t && x.t1 == t
                && x.refs == seq![p.page_id@]))
            &&& kind == "audio.chunk"@ ==> (e.body matches Body::Audio(c) ==> (i matches Some(x) && x.t0 == c.t0_ms && x.t1
                == c.t0_ms + c.dur_ms && x.refs == seq![c.blob@]))
            &&& kind == "screen.keyframe"@ ==> (e.body matches Body::Picture(k) ==> (i matches Some(x) && x.t0 == k.t_ms && x.t1
                == k.t_ms && x.refs == seq![k.blob@]))
            &&& kind == "eval.record"@ ==> (e.body matches Body::Eval(v) ==> (i matches Some(x) && x.t0 == v.t_ms && x.t1
                == v.t_ms))
            &&& kind == "ink.stroke_delete"@ || kind == "courseware.page"@ ==> (i matches Some(x) && x.t0 == t && x.t1 == t)
        }),
{
    kinds::kinds_are_distinct();
    let k = kinds::all_kinds();
    assert(k[0] != k[4] && k[1] != k[4] && k[2] != k[4]);
    assert(k[0] != k[5] && k[1] != k[5] && k[2] != k[5] && k[4] != k[5]);
    assert(k[0] != k[6] && k[1] != k[6] && k[2] != k[6] && k[4] != k[6] && k[5] != k[6]);
    assert(k[0] != k[7] && k[1] != k[7] && k[2] != k[7] && k[4] != k[7] && k[5] != k[7] && k[6] != k[7] && k[8] != k[7]);
    assert(k[0] != k[8] && k[1] != k[8] && k[2] != k[8] && k[4] != k[8] && k[5] != k[8] && k[6] != k[8]);
    assert(k[0] != k[9] && k[1] != k[9] && k[2] != k[9] && k[4] != k[9] && k[5] != k[9] && k[6] != k[9] && k[7] != k[9]
        && k[8] != k[9]);
    assert(k[0] != k[10] && k[1] != k[10] && k[2] != k[10] && k[4] != k[10] && k[5] != k[10] && k[6] != k[10] && k[7] != k[10]
        && k[8] != k[10] && k[9] != k[10]);
    assert(k[0] != k[11] && k[1] != k[11] && k[2] != k[11] && k[4] != k[11] && k[5] != k[11] && k[6] != k[11] && k[7] != k[11]
        && k[8] != k[11] && k[9] != k[11] && k[10] != k[11]);
}

/// What is not understood is kept: an event of a kind that the library does not know has its line, at
/// its time, with its kind and the beginning of what it said.
pub proof fn unknown_kinds_are_kept(e: Entry, base: int, t: int)
    requires
        e.record.status != RecordStatus::Duplicate,
        !kinds::all_kinds().contains(e.record.envelope.kind@),
    ensures
        item(e, base, t) matches Some(x) && x.t0 == t && x.t1 == t && x.source == e.record.adapter_id@ && x.kind
            == e.record.envelope.kind@ && x.text == "未识别事件 "@ + x.kind + "："@ + shortened(e.record.envelope.payload@),
        shortened(e.record.envelope.payload@).len() <= 161,
        compact(e.record.envelope.payload@).len() <= 160 ==> shortened(e.record.envelope.payload@) == compact(
            e.record.envelope.payload@,
        ),
        compact(e.record.envelope.payload@).len() > 160 ==> shortened(e.record.envelope.payload@).take(160) == compact(
            e.record.envelope.payload@,
        ).take(160),
{
    let k = kinds::all_kinds();
    let kind = e.record.envelope.kind@;
    assert(k.contains(k[0]) && k.contains(k[1]) && k.contains(k[2]) && k.contains(k[3]) && k.contains(k[4]) && k.contains(k[5])
        && k.contains(k[6]) && k.contains(k[7]) && k.contains(k[8]) && k.contains(k[9]) && k.contains(k[10])
        && k.contains(k[11]));
    let s = compact(e.record.envelope.payload@);
    if s.len() > 160 {
        assert(shortened(e.record.envelope.payload@).take(160) =~= s.take(160));
    }
}

proof fn lemma_line_at(start_us: int, es: Seq<Entry>, n: int, i: int)
    requires
        0 <= i < n <= es.len(),
        item(es[i], base_of(start_us, es, i), time_of(start_us, es, i)) is Some,
    ensures
        lines(start_us, es, n).contains(item(es[i], base_of(start_us, es, i), time_of(start_us, es, i))->0),
    decreases n,
{
    let x = item(es[i], base_of(start_us, es, i), time_of(start_us, es, i))->0;
    let l = lines(start_us, es, n - 1);
    if i < n - 1 {
        lemma_line_at(start_us, es, n - 1, i);
        let k = choose|k: int| 0 <= k < l.len() && l[k] == x;
        assert(lines(start_us, es, n)[k] == x);
    } else {
        assert(lines(start_us, es, n)[l.len() as int] == x);
    }
}

/// Every record that has a line is on the track with it.
pub proof fn every_line_is_on_the_track(start_us: int, es: Seq<Entry>, i: int)
    requires
        0 <= i < es.len(),
        item(es[i], base_of(start_us, es, i), time_of(start_us, es, i)) is Some,
    ensures
        track(start_us, es).contains(item(es[i], base_of(start_us, es, i), time_of(start_us, es, i))->0),
{
    broadcast use vstd::seq_lib::group_to_multiset_ensures;

    let l = lines(start_us, es, es.len() as int);
    let x = item(es[i], base_of(start_us, es, i), time_of(start_us, es, i))->0;
    lemma_line_at(start_us, es, es.len() as int, i);
    track_keeps_lines(l);
    assert(l.to_multiset().count(x) > 0);
}

/// A line says what happened in words: which page was turned to, counted from one, what was written
/// and for how long, what was taken back, which sound and which picture there is, and what an
/// evaluation found.
pub proof fn lines_say_what_happened(e: Entry, base: int, t: int)
    requires
        e.record.status != RecordStatus::Duplicate,
    ensures
        ({
            let kind = e.record.envelope.kind@;
            let p = e.record.envelope.payload@;
            let i = item(e, base, t);
            &&& kind == "ink.page_activate"@ ==> (e.body matches Body::Page(b) ==> (i matches Some(x) && x.text == "切到第 "@
                + dec(b.index + 1) + " 页（page_id="@ + b.page_id@ + "）"@))
            &&& kind == "ink.stroke_commit"@ ==> (e.body matches Body::Stroke { stroke, region } ==> (i matches Some(x)
                && text::begins(
                x.text,
                stroke.page_id@ + " 页写下一笔："@ + stroke.tool@ + "，"@ + dec(stroke.points@.len() as int) + " 点，用时 "@ + dec(
                    stroke.duration_ms as int,
                ) + "ms，位于"@ + region@,
            )))
            &&& kind == "ink.stroke_delete"@ ==> (i matches Some(x) && (str_of(field(p, "stroke_id"@)) matches Some(s) ==> x.refs
                == seq![s]))
            &&& kind == "audio.chunk"@ ==> (e.body matches Body::Audio(c) ==> (i matches Some(x) && x.text == "音频分段 "@ + dec(
                c.dur_ms as int,
            ) + "ms（"@ + c.codec@ + "，"@ + dec(c.len as int) + " 字节）"@))
            &&& kind == "screen.keyframe"@ ==> (e.body matches Body::Picture(k) ==> (i matches Some(x) && text::begins(
                x.text,
                "屏幕关键帧（触发="@ + k.trigger@ + "，"@,
            )))
            &&& kind == "courseware.page"@ ==> (uint_of(field(p, "page_index"@)) matches Some(n) ==> (i matches Some(x) && x.text
                == "课件翻到第 "@ + dec(n as int) + " 页"@))
            &&& kind == "eval.record"@ ==> (e.body matches Body::Eval(v) ==> (i matches Some(x) && x.text == "评估记录（"@
                + v.instrument@ + "）："@ + compact(v.answers@)))
        }),
{
    kinds::kinds_are_distinct();
    let k = kinds::all_kinds();
    assert(k[0] != k[4] && k[1] != k[4] && k[2] != k[4]);
    assert(k[0] != k[5] && k[1] != k[5] && k[2] != k[5] && k[4] != k[5]);
    assert(k[0] != k[6] && k[1] != k[6] && k[2] != k[6] && k[4] != k[6] && k[5] != k[6]);
    assert(k[0] != k[7] && k[1] != k[7] && k[2] != k[7] && k[4] != k[7] && k[5] != k[7] && k[6] != k[7] && k[8] != k[7]);
    assert(k[0] != k[9] && k[1] != k[9] && k[2] != k[9] && k[4] != k[9] && k[5] != k[9] && k[6] != k[9] && k[7] != k[9]
        && k[8] != k[9]);
    assert(k[0] != k[10] && k[1] != k[10] && k[2] != k[10] && k[4] != k[10] && k[5] != k[10] && k[6] != k[10] && k[7] != k[10]
        && k[8] != k[10] && k[9] != k[10]);
    assert(k[0] != k[11] && k[1] != k[11] && k[2] != k[11] && k[4] != k[11] && k[5] != k[11] && k[6] != k[11] && k[7] != k[11]
        && k[8] != k[11] && k[9] != k[11] && k[10] != k[11]);
    match e.body {
        Body::Stroke { stroke, region } => {
            let body = stroke.page_id@ + " 页写下一笔："@ + stroke.tool@ + "，"@ + dec(stroke.points@.len() as int) + " 点，用时 "@ + dec(
                stroke.duration_ms as int,
            ) + "ms，位于"@ + region@;
            let s = stroke_text(stroke, region@);
            assert(s.subrange(0, body.len() as int) =~= body);
        },
        Body::Picture(p) => {
            let front = "屏幕关键帧（触发="@ + p.trigger@ + "，"@;
            let page = or_else(text::opt_view(p.matched_page_id), "未匹配到课件页"@);
            let s = front + page + "）"@;
            assert(s.subrange(0, front.len() as int) =~= front);
        },
        _ => {},
    }
}

/// Of two lines of a track the later one does not start earlier, and where both start at once it does
/// not have a kind that comes before the other's.
pub proof fn tracks_run_forward(start_us: int, es: Seq<Entry>, i: int, j: int)
    requires
        0 <= i < j < track(start_us, es).len(),
    ensures
        track(start_us, es)[i].t0 <= track(start_us, es)[j].t0,
        track(start_us, es)[i].t0 == track(start_us, es)[j].t0 ==> text_le(
            track(start_us, es)[i].kind,
            track(start_us, es)[j].kind,
        ),
{
    track_is_ordered(lines(start_us, es, es.len() as int));
    assert(item_le(track(start_us, es)[i], track(start_us, es)[j]));
}

/// Payloads are read into the type of their kind, and into no other.
pub proof fn kinds_have_their_types(kind: Seq<char>)
    ensures
        target(kind) == Target::Page <==> kind == "ink.page_activate"@,
        target(kind) == Target::Stroke <==> kind == "ink.stroke_commit"@,
        target(kind) == Target::Speech <==> kind == "asr.utterance"@,
        target(kind) == Target::Audio <==> kind == "audio.chunk"@,
        target(kind) == Target::Picture <==> kind == "screen.keyframe"@,
        target(kind) == Target::Eval <==> kind == "eval.record"@,
        target(kind) == Target::Close <==> kind == "session.close"@,
{
    kinds::kinds_are_distinct();
    let k = kinds::all_kinds();
    assert(k[3] != k[4] && k[3] != k[5] && k[3] != k[7] && k[3] != k[8] && k[3] != k[9] && k[3] != k[11]);
    assert(k[4] != k[5] && k[4] != k[7] && k[4] != k[8] && k[4] != k[9] && k[4] != k[11]);
    assert(k[5] != k[7] && k[5] != k[8] && k[5] != k[9] && k[5] != k[11]);
    assert(k[7] != k[8] && k[7] != k[9] && k[7] != k[11] && k[8] != k[9] && k[8] != k[11] && k[9] != k[11]);
}

/// What a source reports beside a piece of sound or a picture stays with its line, as it was reported:
/// level, peak, speech, cause and source of a piece; cause, source, both distances, size and place of
/// change of a picture.
pub proof fn reported_details_stay(e: Entry, base: int, t: int, k: Seq<char>, v: JsonView)
    requires
        e.record.status != RecordStatus::Duplicate,
        field(e.record.envelope.payload@, k) == Some(v),
    ensures
        ({
            let kind = e.record.envelope.kind@;
            let i = item(e, base, t);
            &&& kind == "audio.chunk"@ && e.body is Audio && (k == "rms"@ || k == "peak"@ || k == "speech_ms"@ || k == "trigger"@
                || k == "source"@) ==> (i matches Some(x) && (x.detail matches Some(d) && field(d, k) == Some(v)))
            &&& kind == "screen.keyframe"@ && e.body is Picture && (k == "trigger"@ || k == "source"@ || k == "dist"@ || k
                == "mad"@ || k == "width"@ || k == "height"@ || k == "dirty"@) ==> (i matches Some(x) && (x.detail matches Some(d)
                && field(d, k) == Some(v)))
        }),
{
    kinds::kinds_are_distinct();
    let n = kinds::all_kinds();
    assert(n[0] != n[7] && n[1] != n[7] && n[2] != n[7] && n[4] != n[7] && n[5] != n[7] && n[6] != n[7] && n[8] != n[7]);
    assert(n[0] != n[9] && n[1] != n[9] && n[2] != n[9] && n[4] != n[9] && n[5] != n[9] && n[6] != n[9] && n[7] != n[9]
        && n[8] != n[9]);
    let p = e.record.envelope.payload@;
    let a = audio_names();
    assert(a.contains(a[0]) && a.contains(a[1]) && a.contains(a[2]) && a.contains(a[3]) && a.contains(a[4]));
    let b = picture_names();
    assert(b.contains(b[0]) && b.contains(b[1]) && b.contains(b[2]) && b.contains(b[3]) && b.contains(b[4]) && b.contains(b[5])
        && b.contains(b[6]));
    if a.contains(k) {
        assert(picked(p, a).contains_key(k));
        assert(picked(p, a) != Map::<Seq<char>, JsonView>::empty());
    }
    if b.contains(k) {
        assert(picked(p, b).contains_key(k));
        assert(picked(p, b) != Map::<Seq<char>, JsonView>::empty());
    }
}

} // verus!
