//! What each source of a lesson did: how its records were taken, and what it reported of itself.

use vstd::prelude::*;
use crate::double;
use crate::fold::collect;
use crate::fold::count;
use crate::fold::first_some;
use crate::fold::last_some;
use crate::fold::lemma_count_bound;
use crate::fold::lemma_take_all;
use crate::fold::lemma_take_more;
use crate::fold::total;
use crate::json::array_of;
use crate::json::bits_of;
use crate::json::field;
use crate::json::json_views;
use crate::json::lemma_json_views;
use crate::json::object_of;
use crate::json::object_view;
use crate::json::opt_json;
use crate::json::str_of;
use crate::json::uint_of;
use crate::json::Json;
use crate::json::JsonView;
use crate::kinds;
use crate::schema::Real;
use crate::schema::RecordStatus;
use crate::text::opt_view;
use crate::text::same;
use crate::text::views;
use crate::track::names;
use crate::track::object_unless_empty;
use crate::track::or_else;
use crate::track::unless_empty;
use crate::track::Body;
use crate::track::is_live;
use crate::track::live;
use crate::track::Entry;

verus! {

/// What a source reported on closing, over all of its closing records in the lesson.
#[derive(Debug, Clone)]
pub struct CloseStats {
    /// How many closing records there were.
    pub closes: u32,
    pub chunks: u64,
    pub bytes: u64,
    pub silent_chunks: u64,
    pub voiced_ms: u64,
    pub dropped_short: u64,
    pub stream_errors: u64,
    pub audio_ms: u64,
    pub wall_ms: u64,
    /// The first failure reported.
    pub error: Option<String>,
}

/// What `CloseStats` holds.
pub struct CloseView {
    pub closes: int,
    pub chunks: int,
    pub bytes: int,
    pub silent_chunks: int,
    pub voiced_ms: int,
    pub dropped_short: int,
    pub stream_errors: int,
    pub audio_ms: int,
    pub wall_ms: int,
    pub error: Option<Seq<char>>,
}

impl View for CloseStats {
    type V = CloseView;

    open spec fn view(&self) -> CloseView {
        CloseView {
            closes: self.closes as int,
            chunks: self.chunks as int,
            bytes: self.bytes as int,
            silent_chunks: self.silent_chunks as int,
            voiced_ms: self.voiced_ms as int,
            dropped_short: self.dropped_short as int,
            stream_errors: self.stream_errors as int,
            audio_ms: self.audio_ms as int,
            wall_ms: self.wall_ms as int,
            error: opt_view(self.error),
        }
    }
}

/// The recording parameters that were in force, as the source stated them on opening.
#[derive(Debug, Clone)]
pub struct VadSnapshot {
    pub input: Option<String>,
    pub device: Option<String>,
    pub sample_rate: Option<u64>,
    pub frame_ms: u64,
    pub rms_open: Real,
    pub rms_close: Real,
    pub hangover_ms: u64,
    pub preroll_ms: u64,
    pub min_speech_ms: u64,
    pub max_segment_ms: u64,
}

/// What `VadSnapshot` holds.
pub struct VadView {
    pub input: Option<Seq<char>>,
    pub device: Option<Seq<char>>,
    pub sample_rate: Option<u64>,
    pub frame_ms: int,
    pub rms_open: u64,
    pub rms_close: u64,
    pub hangover_ms: int,
    pub preroll_ms: int,
    pub min_speech_ms: int,
    pub max_segment_ms: int,
}

impl View for VadSnapshot {
    type V = VadView;

    open spec fn view(&self) -> VadView {
        VadView {
            input: opt_view(self.input),
            device: opt_view(self.device),
            sample_rate: self.sample_rate,
            frame_ms: self.frame_ms as int,
            rms_open: self.rms_open.bits,
            rms_close: self.rms_close.bits,
            hangover_ms: self.hangover_ms as int,
            preroll_ms: self.preroll_ms as int,
            min_speech_ms: self.min_speech_ms as int,
            max_segment_ms: self.max_segment_ms as int,
        }
    }
}

/// What one source did in a lesson.
#[derive(Debug, Clone)]
pub struct SourceHealth {
    /// The kinds it said it would send.
    pub declared: Vec<String>,
    pub events: u64,
    pub accepted: u64,
    pub gaps: u64,
    pub lost_events: u64,
    pub over_budget: u64,
    pub rejected: u64,
    pub duplicates: u64,
    pub restarts: u64,
    /// It said it would send something, and not one record of it came.
    pub silent: bool,
    pub close: Option<CloseStats>,
    pub vad: Option<VadSnapshot>,
    /// What a screen source said on opening, as it said it.
    pub screen: Option<Json>,
    /// Members of the last closing record that `CloseStats` has no place for.
    pub close_extra: Option<Json>,
}

/// What `SourceHealth` holds.
pub struct HealthView {
    pub declared: Seq<Seq<char>>,
    pub events: int,
    pub accepted: int,
    pub gaps: int,
    pub lost_events: int,
    pub over_budget: int,
    pub rejected: int,
    pub duplicates: int,
    pub restarts: int,
    pub silent: bool,
    pub close: Option<CloseView>,
    pub vad: Option<VadView>,
    pub screen: Option<JsonView>,
    pub close_extra: Option<JsonView>,
}

/// The view of optional closing figures.
pub open spec fn opt_close(c: Option<CloseStats>) -> Option<CloseView> {
    match c {
        Some(x) => Some(x@),
        None => None,
    }
}

/// The view of an optional snapshot.
pub open spec fn opt_vad(v: Option<VadSnapshot>) -> Option<VadView> {
    match v {
        Some(x) => Some(x@),
        None => None,
    }
}

impl View for SourceHealth {
    type V = HealthView;

    open spec fn view(&self) -> HealthView {
        HealthView {
            declared: views(self.declared@),
            events: self.events as int,
            accepted: self.accepted as int,
            gaps: self.gaps as int,
            lost_events: self.lost_events as int,
            over_budget: self.over_budget as int,
            rejected: self.rejected as int,
            duplicates: self.duplicates as int,
            restarts: self.restarts as int,
            silent: self.silent,
            close: opt_close(self.close),
            vad: opt_vad(self.vad),
            screen: opt_json(self.screen),
            close_extra: opt_json(self.close_extra),
        }
    }
}

// ---------------------------------------------------------------------------------------------
// Counting records
// ---------------------------------------------------------------------------------------------

/// Records of source `id`.
pub open spec fn of_source(id: Seq<char>) -> spec_fn(Entry) -> bool {
    |e: Entry| e.record.adapter_id@ == id
}

/// Records of source `id` that were taken as `st`.
pub open spec fn with_status(id: Seq<char>, st: RecordStatus) -> spec_fn(Entry) -> bool {
    |e: Entry| e.record.adapter_id@ == id && e.record.status == st
}

/// Records that note a restart of `id`.
pub open spec fn restart_of(id: Seq<char>) -> spec_fn(Entry) -> bool {
    |e: Entry| crate::track::respawned(e) == Some(id)
}

/// The sequence numbers found missing before a record of `id`.
pub open spec fn lost_before(id: Seq<char>) -> spec_fn(Entry) -> int {
    |e: Entry|
        if e.record.adapter_id@ == id && e.record.status == RecordStatus::GapBefore {
            match e.record.gap {
                Some(g) => g as int,
                None => 0,
            }
        } else {
            0
        }
}

/// How many records `id` has.
pub fn count_events(es: &[Entry], id: &str) -> (r: u64)
    ensures
        r == count(es@, of_source(id@)),
{
    let mut n: u64 = 0;
    let mut i: usize = 0;
    while i < es.len()
        invariant
            i <= es@.len(),
            n <= i,
            n == count(es@.take(i as int), of_source(id@)),
        decreases es@.len() - i,
    {
        proof {
            lemma_take_more(es@, i as int);
        }
        if same(es[i].record.adapter_id.as_str(), id) {
            n += 1;
        }
        i += 1;
    }
    proof {
        lemma_take_all(es@);
    }
    n
}

/// How many records of `id` were taken as `st`.
pub fn count_status(es: &[Entry], id: &str, st: RecordStatus) -> (r: u64)
    ensures
        r == count(es@, with_status(id@, st)),
{
    let mut n: u64 = 0;
    let mut i: usize = 0;
    while i < es.len()
        invariant
            i <= es@.len(),
            n <= i,
            n == count(es@.take(i as int), with_status(id@, st)),
        decreases es@.len() - i,
    {
        proof {
            lemma_take_more(es@, i as int);
        }
        if same(es[i].record.adapter_id.as_str(), id) && es[i].record.status == st {
            n += 1;
        }
        i += 1;
    }
    proof {
        lemma_take_all(es@);
    }
    n
}

/// How often `id` was started again.
pub fn count_restarts(es: &[Entry], id: &str) -> (r: u64)
    ensures
        r == count(es@, restart_of(id@)),
{
    let mut n: u64 = 0;
    let mut i: usize = 0;
    while i < es.len()
        invariant
            i <= es@.len(),
            n <= i,
            n == count(es@.take(i as int), restart_of(id@)),
        decreases es@.len() - i,
    {
        proof {
            lemma_take_more(es@, i as int);
        }
        if is_live(&es[i]) && same(es[i].record.envelope.kind.as_str(), kinds::CORE_RESPAWN) {
            match es[i].record.envelope.payload.str_at("adapter_id") {
                Some(t) => {
                    if same(t, id) {
                        n += 1;
                    }
                },
                None => {},
            }
        }
        i += 1;
    }
    proof {
        lemma_take_all(es@);
    }
    n
}

/// How many events of `id` were lost in all.
pub fn sum_lost(es: &[Entry], id: &str) -> (r: u128)
    ensures
        r == total(es@, lost_before(id@)),
{
    let mut n: u128 = 0;
    let mut i: usize = 0;
    while i < es.len()
        invariant
            i <= es@.len(),
            n <= i * u64::MAX,
            n == total(es@.take(i as int), lost_before(id@)),
        decreases es@.len() - i,
    {
        proof {
            lemma_take_more(es@, i as int);
        }
        if same(es[i].record.adapter_id.as_str(), id) && es[i].record.status == RecordStatus::GapBefore {
            match es[i].record.gap {
                Some(g) => {
                    n += g as u128;
                },
                None => {},
            }
        }
        i += 1;
    }
    proof {
        lemma_take_all(es@);
    }
    n
}

// ---------------------------------------------------------------------------------------------
// Declarations
// ---------------------------------------------------------------------------------------------

/// The text of a document that is a string.
pub open spec fn as_text() -> spec_fn(JsonView) -> Option<Seq<char>> {
    |j: JsonView| str_of(Some(j))
}

/// The strings among the elements of an array; none of a document that is no array.
pub open spec fn strings_of(j: Option<JsonView>) -> Seq<Seq<char>> {
    match array_of(j) {
        Some(a) => collect(a, as_text()),
        None => Seq::empty(),
    }
}

/// The kinds that an admission record says its source will send.
pub open spec fn produces(p: JsonView) -> Seq<Seq<char>> {
    match field(p, "manifest"@) {
        Some(m) => strings_of(field(m, "produces"@)),
        None => Seq::empty(),
    }
}

/// What an admission record of `id` declares. The core writes these records, so the payload names
/// the source.
pub open spec fn declared_by(id: Seq<char>) -> spec_fn(Entry) -> Option<Seq<Seq<char>>> {
    |e: Entry|
        {
            let p = e.record.envelope.payload@;
            if live(e) && e.record.envelope.kind@ == kinds::CORE_ADMIT@ && or_else(
                str_of(field(p, "adapter_id"@)),
                e.record.adapter_id@,
            ) == id {
                Some(produces(p))
            } else {
                None
            }
        }
}

/// What `id` last declared.
pub open spec fn declared(es: Seq<Entry>, id: Seq<char>) -> Seq<Seq<char>> {
    match last_some(es, declared_by(id)) {
        Some(d) => d,
        None => Seq::empty(),
    }
}

/// The strings among the elements of a document that is an array.
pub fn strings_in(j: Option<&Json>) -> (r: Vec<String>)
    ensures
        views(r@) == strings_of(crate::json::ref_json(j)),
{
    let mut out: Vec<String> = Vec::new();
    assert(views(out@) =~= Seq::<Seq<char>>::empty());
    let arr = match j {
        Some(x) => x.as_array(),
        None => None,
    };
    match arr {
        Some(v) => {
            let ghost a = json_views(v@);
            proof {
                lemma_json_views(v@);
            }
            let mut i: usize = 0;
            assert(a.take(0) =~= Seq::empty());
            while i < v.len()
                invariant
                    i <= v@.len(),
                    a == json_views(v@),
                    a.len() == v@.len(),
                    forall|q: int| 0 <= q < v@.len() ==> #[trigger] a[q] == v@[q]@,
                    views(out@) == collect(a.take(i as int), as_text()),
                decreases v@.len() - i,
            {
                proof {
                    lemma_take_more(a, i as int);
                }
                match v[i].as_str() {
                    Some(s) => {
                        let ghost before = out@;
                        out.push(s.to_owned());
                        assert(views(out@) =~= views(before).push(s@));
                    },
                    None => {},
                }
                i += 1;
            }
            proof {
                lemma_take_all(a);
            }
        },
        None => {},
    }
    out
}

/// What `id` last declared.
pub fn declared_of(es: &[Entry], id: &str) -> (r: Vec<String>)
    ensures
        views(r@) == declared(es@, id@),
{
    let mut i: usize = es.len();
    proof {
        lemma_take_all(es@);
    }
    while i > 0
        invariant
            i <= es@.len(),
            last_some(es@, declared_by(id@)) == last_some(es@.take(i as int), declared_by(id@)),
        decreases i,
    {
        i -= 1;
        proof {
            lemma_take_more(es@, i as int);
        }
        let r = &es[i].record;
        if is_live(&es[i]) && same(r.envelope.kind.as_str(), kinds::CORE_ADMIT) {
            let p = &r.envelope.payload;
            let target = match p.str_at("adapter_id") {
                Some(t) => t,
                None => r.adapter_id.as_str(),
            };
            if same(target, id) {
                let list = match p.get("manifest") {
                    Some(m) => strings_in(m.get("produces")),
                    None => strings_in(None),
                };
                return list;
            }
        }
    }
    strings_in(None)
}

// ---------------------------------------------------------------------------------------------
// Opening
// ---------------------------------------------------------------------------------------------

/// The recording parameters of an opening record: none unless it has a `vad` object with all of
/// the numbers.
pub open spec fn vad_view(p: JsonView) -> Option<VadView> {
    match field(p, "vad"@) {
        Some(v) => match (
            bits_of(field(v, "frame_ms"@)),
            bits_of(field(v, "rms_open"@)),
            bits_of(field(v, "rms_close"@)),
            bits_of(field(v, "hangover_ms"@)),
            bits_of(field(v, "preroll_ms"@)),
            bits_of(field(v, "min_speech_ms"@)),
            bits_of(field(v, "max_segment_ms"@)),
        ) {
            (Some(f), Some(o), Some(c), Some(h), Some(pr), Some(mi), Some(ma)) => Some(
                VadView {
                    input: str_of(field(p, "input"@)),
                    device: str_of(field(p, "device"@)),
                    sample_rate: uint_of(field(p, "sample_rate"@)),
                    frame_ms: double::truncated(f),
                    rms_open: o,
                    rms_close: c,
                    hangover_ms: double::truncated(h),
                    preroll_ms: double::truncated(pr),
                    min_speech_ms: double::truncated(mi),
                    max_segment_ms: double::truncated(ma),
                },
            ),
            _ => None,
        },
        None => None,
    }
}

fn owned(s: Option<&str>) -> (r: Option<String>)
    ensures
        opt_view(r) == crate::json::ref_str(s),
{
    match s {
        Some(x) => Some(x.to_owned()),
        None => None,
    }
}

/// The recording parameters of an opening record.
pub fn vad_snapshot(p: &Json) -> (r: Option<VadSnapshot>)
    ensures
        opt_vad(r) == vad_view(p@),
{
    match p.get("vad") {
        Some(v) => {
            match (
                v.bits_at("frame_ms"),
                v.bits_at("rms_open"),
                v.bits_at("rms_close"),
                v.bits_at("hangover_ms"),
                v.bits_at("preroll_ms"),
                v.bits_at("min_speech_ms"),
                v.bits_at("max_segment_ms"),
            ) {
                (Some(f), Some(o), Some(c), Some(h), Some(pr), Some(mi), Some(ma)) => Some(
                    VadSnapshot {
                        input: owned(p.str_at("input")),
                        device: owned(p.str_at("device")),
                        sample_rate: p.u64_at("sample_rate"),
                        frame_ms: double::trunc(f),
                        rms_open: Real { bits: o },
                        rms_close: Real { bits: c },
                        hangover_ms: double::trunc(h),
                        preroll_ms: double::trunc(pr),
                        min_speech_ms: double::trunc(mi),
                        max_segment_ms: double::trunc(ma),
                    },
                ),
                _ => None,
            }
        },
        None => None,
    }
}

/// What a screen source said on opening: the whole payload but for the names of source and lesson.
/// None unless there is a `screen` object that is not empty.
pub open spec fn screen_view(p: JsonView) -> Option<JsonView> {
    match (object_of(field(p, "screen"@)), object_of(Some(p))) {
        (Some(s), Some(m)) => if s == Map::<Seq<char>, JsonView>::empty() {
            None
        } else {
            Some(JsonView::Obj(m.remove("source"@).remove("lesson_id"@)))
        },
        _ => None,
    }
}

/// What a screen source said on opening.
pub fn screen_snapshot(p: &Json) -> (r: Option<Json>)
    ensures
        opt_json(r) == screen_view(p@),
{
    let s = match p.get("screen") {
        Some(x) => x.as_object(),
        None => None,
    };
    match (s, p.as_object()) {
        (Some(s), Some(m)) => {
            if s.len() == 0 {
                return None;
            }
            proof {
                assert(object_view(s@).contains_key(s@[0].0@));
            }
            let out = crate::json::copy_object(m);
            let out = crate::json::without(out, "source");
            let out = crate::json::without(out, "lesson_id");
            Some(Json::object(out))
        },
        _ => None,
    }
}

/// The recording parameters that an opening record of `id` states.
pub open spec fn vad_of(id: Seq<char>) -> spec_fn(Entry) -> Option<VadView> {
    |e: Entry|
        if live(e) && e.record.adapter_id@ == id && e.record.envelope.kind@ == kinds::SESSION_OPEN@ {
            vad_view(e.record.envelope.payload@)
        } else {
            None
        }
}

/// What an opening record of `id` says of the screen.
pub open spec fn screen_of(id: Seq<char>) -> spec_fn(Entry) -> Option<JsonView> {
    |e: Entry|
        if live(e) && e.record.adapter_id@ == id && e.record.envelope.kind@ == kinds::SESSION_OPEN@ {
            screen_view(e.record.envelope.payload@)
        } else {
            None
        }
}

/// The recording parameters that `id` last stated.
pub fn last_vad(es: &[Entry], id: &str) -> (r: Option<VadSnapshot>)
    ensures
        opt_vad(r) == last_some(es@, vad_of(id@)),
{
    let mut i: usize = es.len();
    proof {
        lemma_take_all(es@);
    }
    while i > 0
        invariant
            i <= es@.len(),
            last_some(es@, vad_of(id@)) == last_some(es@.take(i as int), vad_of(id@)),
        decreases i,
    {
        i -= 1;
        proof {
            lemma_take_more(es@, i as int);
        }
        let r = &es[i].record;
        if is_live(&es[i]) && same(r.adapter_id.as_str(), id) && same(
            r.envelope.kind.as_str(),
            kinds::SESSION_OPEN,
        ) {
            let v = vad_snapshot(&r.envelope.payload);
            if v.is_some() {
                return v;
            }
        }
    }
    None
}

/// What `id` last said of the screen.
pub fn last_screen(es: &[Entry], id: &str) -> (r: Option<Json>)
    ensures
        opt_json(r) == last_some(es@, screen_of(id@)),
{
    let mut i: usize = es.len();
    proof {
        lemma_take_all(es@);
    }
    while i > 0
        invariant
            i <= es@.len(),
            last_some(es@, screen_of(id@)) == last_some(es@.take(i as int), screen_of(id@)),
        decreases i,
    {
        i -= 1;
        proof {
            lemma_take_more(es@, i as int);
        }
        let r = &es[i].record;
        if is_live(&es[i]) && same(r.adapter_id.as_str(), id) && same(
            r.envelope.kind.as_str(),
            kinds::SESSION_OPEN,
        ) {
            let v = screen_snapshot(&r.envelope.payload);
            if v.is_some() {
                return v;
            }
        }
    }
    None
}

// ---------------------------------------------------------------------------------------------
// Closing
// ---------------------------------------------------------------------------------------------

/// Whether a record closes a session of `id`.
pub open spec fn closes(e: Entry, id: Seq<char>) -> bool {
    live(e) && e.record.adapter_id@ == id && e.record.envelope.kind@ == kinds::SESSION_CLOSE@
}

/// Closing records of `id`.
pub open spec fn closing(id: Seq<char>) -> spec_fn(Entry) -> bool {
    |e: Entry| closes(e, id)
}

/// An unsigned member of a payload, 0 where it is missing or something else.
pub open spec fn num(p: JsonView, k: Seq<char>) -> int {
    match uint_of(field(p, k)) {
        Some(u) => u as int,
        None => 0,
    }
}

/// A figure of a closing record of `id`.
pub open spec fn close_num(id: Seq<char>, k: Seq<char>) -> spec_fn(Entry) -> int {
    |e: Entry|
        if closes(e, id) {
            num(e.record.envelope.payload@, k)
        } else {
            0
        }
}

/// How long a closing record says the session ran. Sources give it in milliseconds or in seconds.
pub open spec fn wall_of(e: Entry) -> int {
    let a = num(e.record.envelope.payload@, "wall_ms"@);
    let b = match e.body {
        Body::Close { wall_s_ms } => wall_s_ms as int,
        _ => 0,
    };
    if a > b {
        a
    } else {
        b
    }
}

/// How long a closing record of `id` says the session ran.
pub open spec fn close_wall(id: Seq<char>) -> spec_fn(Entry) -> int {
    |e: Entry|
        if closes(e, id) {
            wall_of(e)
        } else {
            0
        }
}

/// The failure that a closing record of `id` reports.
pub open spec fn close_error(id: Seq<char>) -> spec_fn(Entry) -> Option<Seq<char>> {
    |e: Entry|
        if closes(e, id) {
            str_of(field(e.record.envelope.payload@, "error"@))
        } else {
            None
        }
}

/// All closing records of `id` added up; the first failure is kept. None where there is no such
/// record.
pub open spec fn close_view(es: Seq<Entry>, id: Seq<char>) -> Option<CloseView> {
    if count(es, closing(id)) == 0 {
        None
    } else {
        Some(
            CloseView {
                closes: count(es, closing(id)),
                chunks: total(es, close_num(id, "chunks"@)),
                bytes: total(es, close_num(id, "bytes"@)),
                silent_chunks: total(es, close_num(id, "silent_chunks"@)),
                voiced_ms: total(es, close_num(id, "voiced_ms"@)),
                dropped_short: total(es, close_num(id, "dropped_short"@)),
                stream_errors: total(es, close_num(id, "stream_errors"@)),
                audio_ms: total(es, close_num(id, "audio_ms"@)),
                wall_ms: total(es, close_wall(id)),
                error: first_some(es, close_error(id)),
            },
        )
    }
}

/// Whether closing figures stay in range.
pub open spec fn close_in_range(c: CloseView) -> bool {
    &&& c.closes <= u32::MAX
    &&& c.chunks <= u64::MAX
    &&& c.bytes <= u64::MAX
    &&& c.silent_chunks <= u64::MAX
    &&& c.voiced_ms <= u64::MAX
    &&& c.dropped_short <= u64::MAX
    &&& c.stream_errors <= u64::MAX
    &&& c.audio_ms <= u64::MAX
    &&& c.wall_ms <= u64::MAX
}

/// Whether the closing figures of `id` stay in range.
pub open spec fn close_fits(es: Seq<Entry>, id: Seq<char>) -> bool {
    close_view(es, id) matches Some(c) ==> close_in_range(c)
}

fn is_close(e: &Entry, id: &str) -> (r: bool)
    ensures
        r == closes(*e, id@),
{
    is_live(e) && same(e.record.adapter_id.as_str(), id) && same(
        e.record.envelope.kind.as_str(),
        kinds::SESSION_CLOSE,
    )
}

fn count_closes(es: &[Entry], id: &str) -> (r: u64)
    ensures
        r == count(es@, closing(id@)),
{
    let mut n: u64 = 0;
    let mut i: usize = 0;
    while i < es.len()
        invariant
            i <= es@.len(),
            n <= i,
            n == count(es@.take(i as int), closing(id@)),
        decreases es@.len() - i,
    {
        proof {
            lemma_take_more(es@, i as int);
        }
        if is_close(&es[i], id) {
            n += 1;
        }
        i += 1;
    }
    proof {
        lemma_take_all(es@);
    }
    n
}

fn sum_close(es: &[Entry], id: &str, k: &str) -> (r: u128)
    ensures
        r == total(es@, close_num(id@, k@)),
{
    let mut n: u128 = 0;
    let mut i: usize = 0;
    while i < es.len()
        invariant
            i <= es@.len(),
            n <= i * u64::MAX,
            n == total(es@.take(i as int), close_num(id@, k@)),
        decreases es@.len() - i,
    {
        proof {
            lemma_take_more(es@, i as int);
        }
        if is_close(&es[i], id) {
            match es[i].record.envelope.payload.u64_at(k) {
                Some(u) => {
                    n += u as u128;
                },
                None => {},
            }
        }
        i += 1;
    }
    proof {
        lemma_take_all(es@);
    }
    n
}

fn sum_wall(es: &[Entry], id: &str) -> (r: u128)
    ensures
        r == total(es@, close_wall(id@)),
{
    let mut n: u128 = 0;
    let mut i: usize = 0;
    while i < es.len()
        invariant
            i <= es@.len(),
            n <= i * u64::MAX,
            n == total(es@.take(i as int), close_wall(id@)),
        decreases es@.len() - i,
    {
        proof {
            lemma_take_more(es@, i as int);
        }
        if is_close(&es[i], id) {
            let a: u64 = match es[i].record.envelope.payload.u64_at("wall_ms") {
                Some(u) => u,
                None => 0,
            };
            let b: u64 = match es[i].body {
                Body::Close { wall_s_ms } => wall_s_ms,
                _ => 0,
            };
            n += (if a > b {
                a
            } else {
                b
            }) as u128;
        }
        i += 1;
    }
    proof {
        lemma_take_all(es@);
    }
    n
}

fn first_error(es: &[Entry], id: &str) -> (r: Option<String>)
    ensures
        opt_view(r) == first_some(es@, close_error(id@)),
{
    let mut out: Option<String> = None;
    let mut i: usize = 0;
    while i < es.len()
        invariant
            i <= es@.len(),
            opt_view(out) == first_some(es@.take(i as int), close_error(id@)),
        decreases es@.len() - i,
    {
        proof {
            lemma_take_more(es@, i as int);
        }
        if out.is_none() && is_close(&es[i], id) {
            out = owned(es[i].record.envelope.payload.str_at("error"));
        }
        i += 1;
    }
    proof {
        lemma_take_all(es@);
    }
    out
}

/// All closing records of `id` added up; none where a figure leaves the range.
pub fn close_of(es: &[Entry], id: &str) -> (r: Option<Option<CloseStats>>)
    ensures
        r is Some <==> close_fits(es@, id@),
        r matches Some(c) ==> opt_close(c) == close_view(es@, id@),
{
    let n: u64 = count_closes(es, id);
    if n == 0 {
        return Some(None);
    }
    let max: u128 = u64::MAX as u128;
    let chunks: u128 = sum_close(es, id, "chunks");
    let bytes: u128 = sum_close(es, id, "bytes");
    let silent_chunks: u128 = sum_close(es, id, "silent_chunks");
    let voiced_ms: u128 = sum_close(es, id, "voiced_ms");
    let dropped_short: u128 = sum_close(es, id, "dropped_short");
    let stream_errors: u128 = sum_close(es, id, "stream_errors");
    let audio_ms: u128 = sum_close(es, id, "audio_ms");
    let wall_ms: u128 = sum_wall(es, id);
    if n > u32::MAX as u64 || chunks > max || bytes > max || silent_chunks > max || voiced_ms > max
        || dropped_short > max || stream_errors > max || audio_ms > max || wall_ms > max {
        return None;
    }
    Some(
        Some(
            CloseStats {
                closes: n as u32,
                chunks: chunks as u64,
                bytes: bytes as u64,
                silent_chunks: silent_chunks as u64,
                voiced_ms: voiced_ms as u64,
                dropped_short: dropped_short as u64,
                stream_errors: stream_errors as u64,
                audio_ms: audio_ms as u64,
                wall_ms: wall_ms as u64,
                error: first_error(es, id),
            },
        ),
    )
}

/// The names of closing figures that `CloseStats` has a place for, or that say nothing new.
pub open spec fn close_known() -> Seq<Seq<char>> {
    seq![
        "source"@,
        "lesson_id"@,
        "chunks"@,
        "bytes"@,
        "silent_chunks"@,
        "voiced_ms"@,
        "dropped_short"@,
        "stream_errors"@,
        "audio_ms"@,
        "wall_ms"@,
        "wall_s"@,
        "error"@,
    ]
}

/// The members of `m` without those named in `known`.
pub open spec fn leaving(m: Map<Seq<char>, JsonView>, known: Seq<Seq<char>>) -> Map<Seq<char>, JsonView> {
    Map::new(|k: Seq<char>| m.contains_key(k) && !known.contains(k), |k: Seq<char>| m[k])
}

/// What a closing payload says that `CloseStats` has no place for.
pub open spec fn extras(p: JsonView) -> Option<JsonView> {
    match object_of(Some(p)) {
        Some(m) => unless_empty(leaving(m, close_known())),
        None => None,
    }
}

/// What a closing payload says that `CloseStats` has no place for.
pub fn close_extras(p: &Json) -> (r: Option<Json>)
    ensures
        opt_json(r) == extras(p@),
{
    match p.as_object() {
        Some(m) => {
            let mut out = crate::json::copy_object(m);
            let known = [
                "source",
                "lesson_id",
                "chunks",
                "bytes",
                "silent_chunks",
                "voiced_ms",
                "dropped_short",
                "stream_errors",
                "audio_ms",
                "wall_ms",
                "wall_s",
                "error",
            ];
            let ghost ks = names(known@);
            let ghost mv = object_view(m@);
            assert(ks =~= close_known());
            let mut i: usize = 0;
            assert(object_view(out@) =~= leaving(mv, ks.take(0)));
            while i < 12
                invariant
                    i <= 12,
                    ks == names(known@),
                    ks.len() == 12,
                    object_view(out@) == leaving(mv, ks.take(i as int)),
                decreases 12 - i,
            {
                let k = known[i];
                proof {
                    lemma_take_more(ks, i as int);
                    let a = ks.take(i as int);
                    let b = ks.take(i + 1);
                    assert(b =~= a.push(k@));
                    assert forall|q: Seq<char>| #[trigger] b.contains(q) <==> a.contains(q) || q == k@ by {
                        if b.contains(q) {
                            let n = choose|n: int| 0 <= n < b.len() && b[n] == q;
                            if n < a.len() {
                                assert(a[n] == q);
                            }
                        }
                        if a.contains(q) {
                            let n = choose|n: int| 0 <= n < a.len() && a[n] == q;
                            assert(b[n] == q);
                        }
                        if q == k@ {
                            assert(b[a.len() as int] == q);
                        }
                    }
                }
                out = crate::json::without(out, k);
                i += 1;
                assert(object_view(out@) =~= leaving(mv, ks.take(i as int)));
            }
            proof {
                lemma_take_all(ks);
            }
            object_unless_empty(out)
        },
        None => None,
    }
}

/// What a closing record of `id` says beside the figures.
pub open spec fn extras_of(id: Seq<char>) -> spec_fn(Entry) -> Option<JsonView> {
    |e: Entry|
        if closes(e, id) {
            extras(e.record.envelope.payload@)
        } else {
            None
        }
}

fn last_extras(es: &[Entry], id: &str) -> (r: Option<Json>)
    ensures
        opt_json(r) == last_some(es@, extras_of(id@)),
{
    let mut i: usize = es.len();
    proof {
        lemma_take_all(es@);
    }
    while i > 0
        invariant
            i <= es@.len(),
            last_some(es@, extras_of(id@)) == last_some(es@.take(i as int), extras_of(id@)),
        decreases i,
    {
        i -= 1;
        proof {
            lemma_take_more(es@, i as int);
        }
        if is_close(&es[i], id) {
            let v = close_extras(&es[i].record.envelope.payload);
            if v.is_some() {
                return v;
            }
        }
    }
    None
}

// ---------------------------------------------------------------------------------------------
// One source
// ---------------------------------------------------------------------------------------------

/// What source `id` did in a lesson.
pub open spec fn health_view(es: Seq<Entry>, id: Seq<char>) -> HealthView {
    HealthView {
        declared: declared(es, id),
        events: count(es, of_source(id)),
        accepted: count(es, with_status(id, RecordStatus::Accepted)),
        gaps: count(es, with_status(id, RecordStatus::GapBefore)),
        lost_events: total(es, lost_before(id)),
        over_budget: count(es, with_status(id, RecordStatus::OverBudget)),
        rejected: count(es, with_status(id, RecordStatus::Rejected)),
        duplicates: count(es, with_status(id, RecordStatus::Duplicate)),
        restarts: count(es, restart_of(id)),
        silent: declared(es, id).len() > 0 && count(es, of_source(id)) == 0,
        close: close_view(es, id),
        vad: last_some(es, vad_of(id)),
        screen: last_some(es, screen_of(id)),
        close_extra: last_some(es, extras_of(id)),
    }
}

/// Whether the sums in it stay in range.
pub open spec fn health_fits(es: Seq<Entry>, id: Seq<char>) -> bool {
    total(es, lost_before(id)) <= u64::MAX && close_fits(es, id)
}

/// What source `id` did in a lesson; none where a sum leaves the range.
pub fn health(es: &[Entry], id: &str) -> (r: Option<SourceHealth>)
    ensures
        r is Some <==> health_fits(es@, id@),
        r matches Some(h) ==> h@ == health_view(es@, id@),
{
    let lost: u128 = sum_lost(es, id);
    if lost > u64::MAX as u128 {
        return None;
    }
    let close = match close_of(es, id) {
        Some(c) => c,
        None => {
            return None;
        },
    };
    let declared = declared_of(es, id);
    let events: u64 = count_events(es, id);
    let silent = declared.len() > 0 && events == 0;
    assert(views(declared@).len() == declared@.len());
    Some(
        SourceHealth {
            declared,
            events,
            accepted: count_status(es, id, RecordStatus::Accepted),
            gaps: count_status(es, id, RecordStatus::GapBefore),
            lost_events: lost as u64,
            over_budget: count_status(es, id, RecordStatus::OverBudget),
            rejected: count_status(es, id, RecordStatus::Rejected),
            duplicates: count_status(es, id, RecordStatus::Duplicate),
            restarts: count_restarts(es, id),
            silent,
            close,
            vad: last_vad(es, id),
            screen: last_screen(es, id),
            close_extra: last_extras(es, id),
        },
    )
}

// ---------------------------------------------------------------------------------------------
// What holds of every lesson
// ---------------------------------------------------------------------------------------------

/// A source that was closed several times in a lesson is added up: its figures over a lesson are
/// those over its first part and those over its second part together.
pub proof fn closes_add_up(a: Seq<Entry>, b: Seq<Entry>, id: Seq<char>, k: Seq<char>)
    ensures
        count(a + b, closing(id)) == count(a, closing(id)) + count(b, closing(id)),
        total(a + b, close_num(id, k)) == total(a, close_num(id, k)) + total(b, close_num(id, k)),
        total(a + b, close_wall(id)) == total(a, close_wall(id)) + total(b, close_wall(id)),
{
    crate::fold::lemma_join(a, b, close_num(id, k), closing(id));
    crate::fold::lemma_join(a, b, close_wall(id), closing(id));
}

/// Nothing that a closing record says is lost: a member either has a place of its own among the
/// figures, or is kept as it is.
pub proof fn closing_facts_are_kept(m: Map<Seq<char>, JsonView>, k: Seq<char>)
    requires
        m.contains_key(k),
    ensures
        close_known().contains(k) || (extras(JsonView::Obj(m)) matches Some(JsonView::Obj(x)) && x.contains_key(k) && x[k]
            == m[k]),
{
    let x = leaving(m, close_known());
    if !close_known().contains(k) {
        assert(x.contains_key(k));
        assert(x != Map::<Seq<char>, JsonView>::empty());
    }
}

/// A source that declared something and has not one record is called silent, and only such a
/// source.
pub proof fn silence_is_told(es: Seq<Entry>, id: Seq<char>)
    ensures
        health_view(es, id).silent <==> declared(es, id).len() > 0 && (forall|i: int|
            0 <= i < es.len() ==> !(of_source(id)(#[trigger] es[i]))),
{
    lemma_none_counted(es, of_source(id));
}

proof fn lemma_none_counted(es: Seq<Entry>, p: spec_fn(Entry) -> bool)
    ensures
        count(es, p) == 0 <==> forall|i: int| 0 <= i < es.len() ==> !(p(#[trigger] es[i])),
    decreases es.len(),
{
    crate::fold::lemma_count_bound(es, p);
    if es.len() > 0 {
        let r = es.drop_last();
        lemma_none_counted(r, p);
        crate::fold::lemma_count_bound(r, p);
        if count(es, p) == 0 {
            assert forall|i: int| 0 <= i < es.len() implies !(p(#[trigger] es[i])) by {
                if i < es.len() - 1 {
                    assert(r[i] == es[i]);
                }
            }
        }
        if forall|i: int| 0 <= i < es.len() ==> !(p(#[trigger] es[i])) {
            assert forall|i: int| 0 <= i < r.len() implies !(p(#[trigger] r[i])) by {
                assert(r[i] == es[i]);
            }
            assert(!p(es[es.len() - 1]));
        }
    }
}

/// Every record of a source counts once, under the one way in which it was taken.
pub proof fn records_count_once(es: Seq<Entry>, id: Seq<char>)
    ensures
        ({
            let h = health_view(es, id);
            h.events == h.accepted + h.gaps + h.over_budget + h.rejected + h.duplicates
        }),
    decreases es.len(),
{
    if es.len() > 0 {
        records_count_once(es.drop_last(), id);
    }
}

/// One more record moves the figures of its own source and of no other: by one among its records, by
/// one under the way in which it was taken, and by the gap found before it among those lost. A
/// restart is counted for the source that was started again.
pub proof fn records_move_their_own_figures(es: Seq<Entry>, e: Entry, id: Seq<char>)
    ensures
        ({
            let a = health_view(es, id);
            let b = health_view(es.push(e), id);
            let own = e.record.adapter_id@ == id;
            let st = e.record.status;
            &&& b.events == a.events + (if own {
                1int
            } else {
                0
            })
            &&& b.accepted == a.accepted + (if own && st == RecordStatus::Accepted {
                1int
            } else {
                0
            })
            &&& b.gaps == a.gaps + (if own && st == RecordStatus::GapBefore {
                1int
            } else {
                0
            })
            &&& b.over_budget == a.over_budget + (if own && st == RecordStatus::OverBudget {
                1int
            } else {
                0
            })
            &&& b.rejected == a.rejected + (if own && st == RecordStatus::Rejected {
                1int
            } else {
                0
            })
            &&& b.duplicates == a.duplicates + (if own && st == RecordStatus::Duplicate {
                1int
            } else {
                0
            })
            &&& own && st == RecordStatus::GapBefore ==> (e.record.gap matches Some(g) ==> b.lost_events == a.lost_events + g)
            &&& !own || st != RecordStatus::GapBefore || e.record.gap is None ==> b.lost_events == a.lost_events
            &&& b.restarts == a.restarts + (if st != RecordStatus::Duplicate && e.record.envelope.kind@ == "core.respawn"@ && str_of(
                field(e.record.envelope.payload@, "adapter_id"@),
            ) == Some(id) {
                1int
            } else {
                0
            })
        }),
{
    assert(es.push(e).drop_last() =~= es);
}

/// What closing records of a source say is added up, name by name; a closing record adds its own
/// figures, and any other record none. The first failure that was reported stays.
pub proof fn closing_records_add_their_figures(es: Seq<Entry>, e: Entry, id: Seq<char>)
    requires
        e.record.status != RecordStatus::Duplicate,
        e.record.adapter_id@ == id,
        e.record.envelope.kind@ == "session.close"@,
    ensures
        ({
            let p = e.record.envelope.payload@;
            let told = |k: Seq<char>|
                match uint_of(field(p, k)) {
                    Some(n) => n as int,
                    None => 0,
                };
            let a = match close_view(es, id) {
                Some(c) => c,
                None => CloseView {
                    closes: 0,
                    chunks: 0,
                    bytes: 0,
                    silent_chunks: 0,
                    voiced_ms: 0,
                    dropped_short: 0,
                    stream_errors: 0,
                    audio_ms: 0,
                    wall_ms: 0,
                    error: None,
                },
            };
            close_view(es.push(e), id) matches Some(b) && {
                &&& b.closes == a.closes + 1
                &&& b.chunks == a.chunks + told("chunks"@)
                &&& b.bytes == a.bytes + told("bytes"@)
                &&& b.silent_chunks == a.silent_chunks + told("silent_chunks"@)
                &&& b.voiced_ms == a.voiced_ms + told("voiced_ms"@)
                &&& b.dropped_short == a.dropped_short + told("dropped_short"@)
                &&& b.stream_errors == a.stream_errors + told("stream_errors"@)
                &&& b.audio_ms == a.audio_ms + told("audio_ms"@)
                &&& b.wall_ms >= a.wall_ms + told("wall_ms"@)
                &&& e.body matches Body::Close { wall_s_ms } ==> b.wall_ms >= a.wall_ms + wall_s_ms && (b.wall_ms == a.wall_ms
                    + told("wall_ms"@) || b.wall_ms == a.wall_ms + wall_s_ms)
                &&& b.error == (match a.error {
                    Some(x) => Some(x),
                    None => str_of(field(p, "error"@)),
                })
            }
        }),
{
    assert(es.push(e).drop_last() =~= es);
    lemma_count_bound(es, closing(id));
    if count(es, closing(id)) == 0 {
        lemma_none_counted(es, closing(id));
        assert forall|i: int| 0 <= i < es.len() implies !closes(#[trigger] es[i], id) by {
            assert(!closing(id)(es[i]));
        }
        lemma_no_closes(es, id, "chunks"@);
        lemma_no_closes(es, id, "bytes"@);
        lemma_no_closes(es, id, "silent_chunks"@);
        lemma_no_closes(es, id, "voiced_ms"@);
        lemma_no_closes(es, id, "dropped_short"@);
        lemma_no_closes(es, id, "stream_errors"@);
        lemma_no_closes(es, id, "audio_ms"@);
    }
}

proof fn lemma_no_closes(es: Seq<Entry>, id: Seq<char>, k: Seq<char>)
    requires
        forall|i: int| 0 <= i < es.len() ==> !closes(#[trigger] es[i], id),
    ensures
        total(es, close_num(id, k)) == 0,
        total(es, close_wall(id)) == 0,
        first_some(es, close_error(id)) is None,
    decreases es.len(),
{
    if es.len() > 0 {
        let r = es.drop_last();
        assert forall|i: int| 0 <= i < r.len() implies !closes(#[trigger] r[i], id) by {
            assert(r[i] == es[i]);
        }
        lemma_no_closes(r, id, k);
        assert(!closes(es[es.len() - 1], id));
    }
}

/// Records of other sources, records of other kinds and repeats close nothing.
pub proof fn only_closing_records_close(es: Seq<Entry>, e: Entry, id: Seq<char>)
    requires
        e.record.status == RecordStatus::Duplicate || e.record.adapter_id@ != id || e.record.envelope.kind@ != "session.close"@,
    ensures
        close_view(es.push(e), id) == close_view(es, id),
        health_view(es.push(e), id).close_extra == health_view(es, id).close_extra,
{
    assert(es.push(e).drop_last() =~= es);
}

/// What a source declared last is what it declared: its later admission replaces what an earlier one
/// said, and nothing but an admission that names it changes that.
pub proof fn declarations_are_the_last(es: Seq<Entry>, e: Entry, id: Seq<char>)
    ensures
        ({
            let p = e.record.envelope.payload@;
            let named = match str_of(field(p, "adapter_id"@)) {
                Some(x) => x,
                None => e.record.adapter_id@,
            };
            let admits = e.record.status != RecordStatus::Duplicate && e.record.envelope.kind@ == "core.admit"@ && named == id;
            &&& !admits ==> declared(es.push(e), id) == declared(es, id)
            &&& admits ==> (field(p, "manifest"@) matches Some(m) ==> declared(es.push(e), id) == strings_of(
                field(m, "produces"@),
            ))
        }),
{
    assert(es.push(e).drop_last() =~= es);
}

/// Of what is listed in an array its strings are told, and nothing else.
pub proof fn listed_strings_are_told(a: Seq<JsonView>, s: Seq<char>)
    ensures
        strings_of(Some(JsonView::Arr(a))).contains(s) <==> exists|i: int| 0 <= i < a.len() && #[trigger] a[i] == JsonView::Str(s),
{
    crate::fold::lemma_collected(a, as_text(), s);
    if strings_of(Some(JsonView::Arr(a))).contains(s) {
        let i = choose|i: int| 0 <= i < a.len() && as_text()(#[trigger] a[i]) == Some(s);
        assert(a[i] == JsonView::Str(s));
    }
    if exists|i: int| 0 <= i < a.len() && #[trigger] a[i] == JsonView::Str(s) {
        let i = choose|i: int| 0 <= i < a.len() && #[trigger] a[i] == JsonView::Str(s);
        assert(as_text()(a[i]) == Some(s));
    }
}

/// What a source said on opening last is what is told of its recording: an opening record that states
/// it in full replaces what was stated before, and any other record leaves that as it is.
pub proof fn openings_are_the_last(es: Seq<Entry>, e: Entry, id: Seq<char>)
    ensures
        ({
            let a = health_view(es, id);
            let b = health_view(es.push(e), id);
            let p = e.record.envelope.payload@;
            let opens = e.record.status != RecordStatus::Duplicate && e.record.adapter_id@ == id && e.record.envelope.kind@
                == "session.open"@;
            &&& !opens || vad_view(p) is None ==> b.vad == a.vad
            &&& opens && vad_view(p) is Some ==> b.vad == vad_view(p)
            &&& !opens || screen_view(p) is None ==> b.screen == a.screen
            &&& opens && screen_view(p) is Some ==> b.screen == screen_view(p)
        }),
{
    assert(es.push(e).drop_last() =~= es);
}

/// What a source states of its recording is told as stated, each number under its own name; where one of
/// them is missing nothing is told.
pub proof fn recordings_are_told_as_stated(p: JsonView, v: JsonView)
    requires
        field(p, "vad"@) == Some(v),
    ensures
        vad_view(p) is Some <==> bits_of(field(v, "frame_ms"@)) is Some && bits_of(field(v, "rms_open"@)) is Some && bits_of(
            field(v, "rms_close"@),
        ) is Some && bits_of(field(v, "hangover_ms"@)) is Some && bits_of(field(v, "preroll_ms"@)) is Some && bits_of(
            field(v, "min_speech_ms"@),
        ) is Some && bits_of(field(v, "max_segment_ms"@)) is Some,
        vad_view(p) matches Some(x) ==> {
            &&& x.frame_ms == double::truncated(bits_of(field(v, "frame_ms"@))->0)
            &&& x.rms_open == bits_of(field(v, "rms_open"@))->0
            &&& x.rms_close == bits_of(field(v, "rms_close"@))->0
            &&& x.hangover_ms == double::truncated(bits_of(field(v, "hangover_ms"@))->0)
            &&& x.preroll_ms == double::truncated(bits_of(field(v, "preroll_ms"@))->0)
            &&& x.min_speech_ms == double::truncated(bits_of(field(v, "min_speech_ms"@))->0)
            &&& x.max_segment_ms == double::truncated(bits_of(field(v, "max_segment_ms"@))->0)
            &&& x.input == str_of(field(p, "input"@))
            &&& x.device == str_of(field(p, "device"@))
            &&& x.sample_rate == uint_of(field(p, "sample_rate"@))
        },
{
}

/// What a screen source says on opening is told as it says it, but for the names of source and lesson.
pub proof fn screens_are_told_as_stated(m: Map<Seq<char>, JsonView>, s: Map<Seq<char>, JsonView>, k: Seq<char>)
    requires
        field(JsonView::Obj(m), "screen"@) == Some(JsonView::Obj(s)),
        s != Map::<Seq<char>, JsonView>::empty(),
    ensures
        screen_view(JsonView::Obj(m)) matches Some(r) && {
            &&& k != "source"@ && k != "lesson_id"@ ==> field(r, k) == field(JsonView::Obj(m), k)
            &&& k == "source"@ || k == "lesson_id"@ ==> field(r, k) is None
        },
{
}

/// A member of a closing record stays as it is unless it is one of the figures that are added up, the
/// failure, or the names of source and lesson.
pub proof fn other_closing_facts_stay(m: Map<Seq<char>, JsonView>, k: Seq<char>)
    requires
        m.contains_key(k),
        k != "source"@ && k != "lesson_id"@ && k != "chunks"@ && k != "bytes"@ && k != "silent_chunks"@ && k != "voiced_ms"@ && k
            != "dropped_short"@ && k != "stream_errors"@ && k != "audio_ms"@ && k != "wall_ms"@ && k != "wall_s"@ && k
            != "error"@,
    ensures
        extras(JsonView::Obj(m)) matches Some(x) && field(x, k) == Some(m[k]),
{
    let c = close_known();
    if c.contains(k) {
        let i = choose|i: int| 0 <= i < c.len() && c[i] == k;
        assert(c.len() == 12);
        assert(k == c[0] || k == c[1] || k == c[2] || k == c[3] || k == c[4] || k == c[5] || k == c[6] || k == c[7] || k == c[8]
            || k == c[9] || k == c[10] || k == c[11]);
    }
    closing_facts_are_kept(m, k);
}

} // verus!
