//! The record of a recording: sequence numbers, budgets and the lesson in progress.
//!
//! Nothing here touches a disk. What is to be written is handed out, and what was written is
//! reported back.

use vstd::prelude::*;
use crate::fold::count;
use crate::fold::total;
use crate::json::Json;
use crate::kinds;
use crate::schema::Budget;
use crate::schema::Envelope;
use crate::schema::Exceed;
use crate::schema::LessonInfo;
use crate::schema::LessonMeta;
use crate::schema::RecordStatus;
use crate::schema::StoredRecord;
use crate::table::Table;
use crate::text;
use crate::text::insert_name;
use crate::text::name_list;
use crate::text::opt_view;
use crate::text::views;

verus! {

/// Length of the window over which budgets are held.
pub const WINDOW_US: u64 = 1_000_000;

/// What survives a restart of the core.
#[derive(Debug, Clone)]
pub struct State {
    pub next_global_seq: u64,
    pub core_seq: u64,
    pub last_seq: Table<u64>,
    pub active_lesson: Option<String>,
}

/// What an adapter has sent.
#[derive(Debug, Clone, Copy, PartialEq, Eq, Structural)]
pub struct Rate {
    /// When the present window began.
    pub win_start_us: u64,
    pub win_events: u32,
    pub win_bytes: u64,
    pub total_events: u64,
    pub total_bytes: u64,
    pub exceeded: u64,
    pub lost: u64,
}

/// How a record was taken.
#[derive(Debug, Clone, Copy, PartialEq, Eq, Structural)]
pub struct Outcome {
    pub status: RecordStatus,
    /// How many sequence numbers are missing before it.
    pub gap: Option<u64>,
    /// The adapter is to be killed at once, and not started again.
    pub kill: bool,
}

/// The figures of an adapter.
#[derive(Debug, Clone, Copy, PartialEq, Eq, Structural)]
pub struct AdapterStat {
    pub events: u64,
    pub bytes: u64,
    pub exceeded: u64,
    /// Events known to be lost, not the number of holes.
    pub lost_events: u64,
}

/// The record of a recording.
#[derive(Debug, Clone)]
pub struct Store {
    pub state: State,
    pub meta: Option<LessonMeta>,
    pub rates: Table<Rate>,
    pub budgets: Table<Budget>,
}

impl Rate {
    /// A rate with nothing in it, its window beginning now.
    pub open spec fn fresh(now_us: u64) -> Rate {
        Rate {
            win_start_us: now_us,
            win_events: 0,
            win_bytes: 0,
            total_events: 0,
            total_bytes: 0,
            exceeded: 0,
            lost: 0,
        }
    }

    fn start(now_us: u64) -> (r: Rate)
        ensures
            r == Rate::fresh(now_us),
    {
        Rate {
            win_start_us: now_us,
            win_events: 0,
            win_bytes: 0,
            total_events: 0,
            total_bytes: 0,
            exceeded: 0,
            lost: 0,
        }
    }

    /// Whether the window has run out.
    pub open spec fn stale(self, now_us: u64) -> bool {
        now_us - self.win_start_us >= WINDOW_US
    }
}

/// The last sequence number taken from an adapter, 0 before the first.
pub open spec fn last_of(m: Map<Seq<char>, u64>, id: Seq<char>) -> u64 {
    if m.contains_key(id) {
        m[id]
    } else {
        0
    }
}

/// How a sequence number stands to the last one: status, and how many are missing between.
pub open spec fn judged(last: u64, seq: u64) -> (RecordStatus, Option<u64>) {
    if seq <= last {
        (RecordStatus::Duplicate, None)
    } else if seq > last + 1 {
        (RecordStatus::GapBefore, Some((seq - last - 1) as u64))
    } else {
        (RecordStatus::Accepted, None)
    }
}

/// Whether one more event of `est` bytes goes over a budget.
pub open spec fn over_budget(rate: Option<Rate>, budget: Option<Budget>, est: u64, now_us: u64) -> bool {
    let (we, wb) = match rate {
        Some(r) => if r.stale(now_us) {
            (0int, 0int)
        } else {
            (r.win_events as int, r.win_bytes as int)
        },
        None => (0int, 0int),
    };
    match budget {
        Some(b) => we + 1 > b.max_events_per_s || wb + est > b.max_bytes_per_s,
        None => false,
    }
}

/// What is noted of an adapter that was started again.
pub open spec fn respawn_view(id: Seq<char>) -> crate::json::JsonView {
    crate::json::JsonView::Obj(
        Map::<Seq<char>, crate::json::JsonView>::empty().insert("adapter_id"@, crate::json::JsonView::Str(id)),
    )
}

/// The value of a map under a name, if there is one.
pub open spec fn at<V>(m: Map<Seq<char>, V>, k: Seq<char>) -> Option<V> {
    if m.contains_key(k) {
        Some(m[k])
    } else {
        None
    }
}

/// How a record of adapter `id` is taken that came as `status` with number `seq`. A record over
/// budget is marked, unless the budget is there for counting only.
pub open spec fn outcome(s: Store, id: Seq<char>, status: RecordStatus, seq: u64, est: u64, now_us: u64) -> Outcome {
    let (st, gap) = if status == RecordStatus::Accepted {
        judged(last_of(s.state.last_seq@, id), seq)
    } else {
        (status, None)
    };
    let over = over_budget(at(s.rates@, id), at(s.budgets@, id), est, now_us);
    let marks = at(s.budgets@, id) matches Some(b) && b.on_exceed != Exceed::Log;
    Outcome {
        status: if over && marks && st == RecordStatus::Accepted {
            RecordStatus::OverBudget
        } else {
            st
        },
        gap,
        kill: over && (at(s.budgets@, id) matches Some(b) && b.on_exceed == Exceed::Kill),
    }
}

/// The last sequence numbers after such a record.
pub open spec fn last_after(m: Map<Seq<char>, u64>, id: Seq<char>, status: RecordStatus, seq: u64) -> Map<Seq<char>, u64> {
    if status == RecordStatus::Accepted && seq > last_of(m, id) {
        m.insert(id, seq)
    } else {
        m
    }
}

/// The number that the next record gets: numbers begin at 1.
pub open spec fn next_number(s: Store) -> u64 {
    if s.state.next_global_seq == 0 {
        1
    } else {
        s.state.next_global_seq
    }
}

/// Figures after one more event of `est` bytes, which was stored in `wrote` bytes. The window counts
/// the event itself: what is stored around it is not the adapter's doing.
pub open spec fn grown(r: Rate, est: u64, wrote: u64, over: bool, gap: Option<u64>, now_us: u64) -> Rate {
    let (start, we, wb) = if r.stale(now_us) {
        (now_us, 0int, 0int)
    } else {
        (r.win_start_us, r.win_events as int, r.win_bytes as int)
    };
    Rate {
        win_start_us: start,
        win_events: (we + 1) as u32,
        win_bytes: (wb + est) as u64,
        total_events: (r.total_events + 1) as u64,
        total_bytes: (r.total_bytes + wrote) as u64,
        exceeded: if over {
            (r.exceeded + 1) as u64
        } else {
            r.exceeded
        },
        lost: match gap {
            Some(g) => (r.lost + g) as u64,
            None => r.lost,
        },
    }
}

/// Whether the figures of an adapter have room for one more event.
pub open spec fn has_room(r: Rate, est: u64, wrote: u64, gap: Option<u64>) -> bool {
    &&& r.win_events < u32::MAX
    &&& r.win_bytes + est <= u64::MAX
    &&& r.total_events < u64::MAX
    &&& r.total_bytes + wrote <= u64::MAX
    &&& r.exceeded < u64::MAX
    &&& r.lost + (match gap {
        Some(g) => g as int,
        None => 0,
    }) <= u64::MAX
}

/// The figures that an adapter has at this moment.
pub open spec fn rate_at(m: Map<Seq<char>, Rate>, id: Seq<char>, now_us: u64) -> Rate {
    match at(m, id) {
        Some(r) => r,
        None => Rate::fresh(now_us),
    }
}

/// Whether `n` is lesson `m` once it was ended.
pub open spec fn ended_by(m: LessonMeta, n: LessonMeta, reason: Seq<char>, now_us: u64) -> bool {
    &&& n.info == m.info
    &&& n.started_core_mono_us == m.started_core_mono_us
    &&& n.ended_core_mono_us == Some(now_us)
    &&& opt_view(n.stop_reason) == Some(reason)
}

/// A record taken: what is to be written, and how it was taken.
#[derive(Debug, Clone)]
pub struct Taken {
    pub record: StoredRecord,
    pub outcome: Outcome,
    /// Whether it went over its budget.
    pub over: bool,
}

/// Whether a record is another one but for its number, status and gap.
pub open spec fn same_event(a: StoredRecord, b: StoredRecord) -> bool {
    &&& a.adapter_id == b.adapter_id
    &&& a.t_core_utc_ms == b.t_core_utc_ms
    &&& a.t_core_mono_us == b.t_core_mono_us
    &&& a.envelope == b.envelope
    &&& a.raw == b.raw
}

impl Store {
    /// The store as it was left: its state, and the lesson that was in progress.
    pub fn open(state: State, meta: Option<LessonMeta>) -> (r: Store)
        ensures
            r.state == state,
            r.meta == meta,
            r.rates@ == Map::<Seq<char>, Rate>::empty(),
            r.budgets@ == Map::<Seq<char>, Budget>::empty(),
    {
        Store { state, meta, rates: Table::new(), budgets: Table::new() }
    }

    /// Takes note of an adapter and its budget.
    pub fn register_adapter(&mut self, id: &str, budget: Budget, now_us: u64)
        ensures
            final(self).budgets@ == old(self).budgets@.insert(id@, budget),
            final(self).rates@ == old(self).rates@.insert(id@, rate_at(old(self).rates@, id@, now_us)),
            final(self).state == old(self).state,
            final(self).meta == old(self).meta,
    {
        self.budgets.set(id, budget);
        if !self.rates.contains(id) {
            self.rates.set(id, Rate::start(now_us));
        }
        assert(self.rates@ =~= old(self).rates@.insert(id@, rate_at(old(self).rates@, id@, now_us)));
    }

    /// The lesson in progress.
    pub fn active_lesson(&self) -> (r: Option<&LessonMeta>)
        ensures
            match r {
                Some(m) => self.meta == Some(*m),
                None => self.meta is None,
            },
    {
        match &self.meta {
            Some(m) => Some(m),
            None => None,
        }
    }

    /// The name of the lesson in progress.
    pub fn active_lesson_id(&self) -> (r: Option<&str>)
        ensures
            match r {
                Some(s) => self.meta matches Some(m) && s@ == m.info.lesson_id@,
                None => self.meta is None,
            },
    {
        match &self.meta {
            Some(m) => Some(m.info.lesson_id.as_str()),
            None => None,
        }
    }

    /// Starts a lesson. The one in progress, if there is one, is ended by that, and given back.
    pub fn begin_lesson(&mut self, info: LessonInfo, blob_dir: String, now_us: u64) -> (r: Option<LessonMeta>)
        ensures
            match old(self).meta {
                Some(m) => r matches Some(n) && ended_by(m, n, "replaced"@, now_us),
                None => r is None,
            },
            final(self).meta matches Some(m) && m.info@ == (crate::schema::LessonView {
                blob_dir: blob_dir@,
                ..info@
            }) && m.started_core_mono_us == now_us && m.ended_core_mono_us is None && m.stop_reason is None,
            opt_view(final(self).state.active_lesson) == Some(info.lesson_id@),
            final(self).state.next_global_seq == old(self).state.next_global_seq,
            final(self).state.core_seq == old(self).state.core_seq,
            final(self).state.last_seq == old(self).state.last_seq,
            final(self).rates == old(self).rates,
            final(self).budgets == old(self).budgets,
    {
        self.end_lesson("replaced", now_us);
        let ended = self.meta.take();
        let id = info.lesson_id.clone();
        let mut info = info;
        info.blob_dir = blob_dir;
        self.meta = Some(
            LessonMeta { info, started_core_mono_us: now_us, ended_core_mono_us: None, stop_reason: None },
        );
        self.state.active_lesson = Some(id);
        ended
    }

    /// Marks the lesson in progress as ended. It stays in progress until `close_lesson`.
    pub fn end_lesson(&mut self, reason: &str, now_us: u64)
        ensures
            match old(self).meta {
                Some(m) => final(self).meta matches Some(n) && ended_by(m, n, reason@, now_us),
                None => final(self).meta is None,
            },
            final(self).state == old(self).state,
            final(self).rates == old(self).rates,
            final(self).budgets == old(self).budgets,
    {
        match self.meta.take() {
            Some(m) => {
                self.meta = Some(
                    LessonMeta {
                        info: m.info,
                        started_core_mono_us: m.started_core_mono_us,
                        ended_core_mono_us: Some(now_us),
                        stop_reason: Some(reason.to_owned()),
                    },
                );
            },
            None => {},
        }
    }

    /// Leaves the lesson: from now on there is none in progress.
    pub fn close_lesson(&mut self)
        ensures
            final(self).meta is None,
            final(self).state.active_lesson is None,
            final(self).state.next_global_seq == old(self).state.next_global_seq,
            final(self).state.core_seq == old(self).state.core_seq,
            final(self).state.last_seq == old(self).state.last_seq,
            final(self).rates == old(self).rates,
            final(self).budgets == old(self).budgets,
    {
        self.meta = None;
        self.state.active_lesson = None;
    }

    /// Takes a record: gives it its number, judges its sequence number and holds it to the budget.
    /// `est` is the size of the event itself.
    pub fn write_rec(&mut self, adapter_id: &str, rec: StoredRecord, est: u64, now_us: u64) -> (r: Taken)
        requires
            old(self).state.next_global_seq < u64::MAX,
        ensures
            r.outcome == outcome(*old(self), adapter_id@, rec.status, rec.envelope.seq, est, now_us),
            r.over == over_budget(at(old(self).rates@, adapter_id@), at(old(self).budgets@, adapter_id@), est, now_us),
            same_event(r.record, rec),
            r.record.global_seq == next_number(*old(self)),
            r.record.status == r.outcome.status,
            r.record.gap == (match r.outcome.gap {
                Some(g) => Some(g),
                None => rec.gap,
            }),
            final(self).state.next_global_seq == next_number(*old(self)) + 1,
            final(self).state.last_seq@ == last_after(
                old(self).state.last_seq@,
                adapter_id@,
                rec.status,
                rec.envelope.seq,
            ),
            final(self).state.core_seq == old(self).state.core_seq,
            final(self).state.active_lesson == old(self).state.active_lesson,
            final(self).meta == old(self).meta,
            final(self).rates == old(self).rates,
            final(self).budgets == old(self).budgets,
    {
        let last: u64 = self.last_seq(adapter_id);
        let mut rec = rec;
        let mut gap: Option<u64> = None;
        if rec.status == RecordStatus::Accepted {
            let seq: u64 = rec.envelope.seq;
            if seq <= last {
                rec.status = RecordStatus::Duplicate;
            } else {
                if seq > last + 1 {
                    gap = Some(seq - last - 1);
                    rec.status = RecordStatus::GapBefore;
                    rec.gap = gap;
                }
                self.state.last_seq.set(adapter_id, seq);
            }
        }
        rec.global_seq = if self.state.next_global_seq == 0 {
            1
        } else {
            self.state.next_global_seq
        };
        self.state.next_global_seq = rec.global_seq + 1;
        let mut we: u32 = 0;
        let mut wb: u64 = 0;
        match self.rates.get(adapter_id) {
            Some(r) => {
                if !(now_us >= r.win_start_us && now_us - r.win_start_us >= WINDOW_US) {
                    we = r.win_events;
                    wb = r.win_bytes;
                }
            },
            None => {},
        }
        let (over, marks, kill) = match self.budgets.get(adapter_id) {
            Some(b) => (
                we as u64 + 1 > b.max_events_per_s as u64 || wb as u128 + est as u128 > b.max_bytes_per_s as u128,
                b.on_exceed != Exceed::Log,
                b.on_exceed == Exceed::Kill,
            ),
            None => (false, false, false),
        };
        if over && marks && rec.status == RecordStatus::Accepted {
            rec.status = RecordStatus::OverBudget;
        }
        let outcome = Outcome { status: rec.status, gap, kill: over && kill };
        Taken { record: rec, outcome, over }
    }

    /// Whether the figures of an adapter have room for one more event.
    pub fn room_for(&self, adapter_id: &str, est: u64, wrote: u64, gap: Option<u64>, now_us: u64) -> (r: bool)
        ensures
            r == has_room(rate_at(self.rates@, adapter_id@, now_us), est, wrote, gap),
    {
        let r: Rate = match self.rates.get(adapter_id) {
            Some(r) => *r,
            None => Rate::start(now_us),
        };
        let g: u64 = match gap {
            Some(g) => g,
            None => 0,
        };
        r.win_events < u32::MAX && r.win_bytes <= u64::MAX - est && r.total_events < u64::MAX && r.total_bytes
            <= u64::MAX - wrote && r.exceeded < u64::MAX && r.lost <= u64::MAX - g
    }

    /// Counts a record that was written: `est` bytes of the event itself, `wrote` bytes in all.
    pub fn wrote(&mut self, adapter_id: &str, est: u64, wrote: u64, over: bool, gap: Option<u64>, now_us: u64)
        requires
            has_room(rate_at(old(self).rates@, adapter_id@, now_us), est, wrote, gap),
        ensures
            final(self).rates@ == old(self).rates@.insert(
                adapter_id@,
                grown(rate_at(old(self).rates@, adapter_id@, now_us), est, wrote, over, gap, now_us),
            ),
            final(self).state == old(self).state,
            final(self).meta == old(self).meta,
            final(self).budgets == old(self).budgets,
    {
        let mut r: Rate = match self.rates.get(adapter_id) {
            Some(r) => *r,
            None => Rate::start(now_us),
        };
        if now_us >= r.win_start_us && now_us - r.win_start_us >= WINDOW_US {
            r.win_start_us = now_us;
            r.win_events = 0;
            r.win_bytes = 0;
        }
        r.win_events = r.win_events + 1;
        r.win_bytes = r.win_bytes + est;
        r.total_events = r.total_events + 1;
        r.total_bytes = r.total_bytes + wrote;
        if over {
            r.exceeded = r.exceeded + 1;
        }
        match gap {
            Some(g) => {
                r.lost = r.lost + g;
            },
            None => {},
        }
        self.rates.set(adapter_id, r);
    }

    /// The last sequence number taken from an adapter, 0 before the first.
    pub fn last_seq(&self, adapter_id: &str) -> (r: u64)
        ensures
            r == last_of(self.state.last_seq@, adapter_id@),
    {
        match self.state.last_seq.get(adapter_id) {
            Some(x) => *x,
            None => 0,
        }
    }

    /// Whether anything is known of an adapter.
    pub fn known_source(&self, id: &str) -> (r: bool)
        ensures
            r == self.rates@.contains_key(id@),
    {
        self.rates.contains(id)
    }

    /// The figures of every adapter, by name.
    pub fn stats(&self) -> (r: Vec<(String, AdapterStat)>)
        ensures
            crate::table::entry_names(r@) == name_list(self.rates.names()),
            forall|i: int|
                0 <= i < r@.len() ==> self.rates@.contains_key((#[trigger] r@[i]).0@) && r@[i].1 == (AdapterStat {
                    events: self.rates@[r@[i].0@].total_events,
                    bytes: self.rates@[r@[i].0@].total_bytes,
                    exceeded: self.rates@[r@[i].0@].exceeded,
                    lost_events: self.rates@[r@[i].0@].lost,
                }),
    {
        let keys = self.rates.keys();
        let ghost x = views(keys@);
        let mut names: Vec<String> = Vec::new();
        let mut i: usize = 0;
        assert(views(names@) =~= Seq::<Seq<char>>::empty());
        while i < keys.len()
            invariant
                i <= keys@.len(),
                x == views(keys@),
                views(names@) == name_list(x.take(i as int)),
            decreases keys@.len() - i,
        {
            proof {
                crate::fold::lemma_take_more(x, i as int);
            }
            insert_name(&mut names, keys[i].as_str());
            i += 1;
        }
        proof {
            crate::fold::lemma_take_all(x);
            text::name_list_is_sorted(x);
        }
        let ghost all = views(names@);
        let mut out: Vec<(String, AdapterStat)> = Vec::new();
        let mut k: usize = 0;
        while k < names.len()
            invariant
                k <= names@.len(),
                all == views(names@),
                all == name_list(self.rates.names()),
                out@.len() == k,
                forall|q: Seq<char>| #[trigger] all.contains(q) ==> self.rates.names().contains(q),
                forall|j: int| 0 <= j < k ==> (#[trigger] out@[j]).0@ == all[j],
                forall|i: int|
                    0 <= i < k ==> self.rates@.contains_key((#[trigger] out@[i]).0@) && out@[i].1 == (AdapterStat {
                        events: self.rates@[out@[i].0@].total_events,
                        bytes: self.rates@[out@[i].0@].total_bytes,
                        exceeded: self.rates@[out@[i].0@].exceeded,
                        lost_events: self.rates@[out@[i].0@].lost,
                    }),
            decreases names@.len() - k,
        {
            let id = names[k].as_str();
            proof {
                assert(all[k as int] == id@);
                assert(all.contains(id@));
                self.rates.names_are_keys(id@);
            }
            let r: Rate = match self.rates.get(id) {
                Some(r) => *r,
                None => Rate::start(0),
            };
            out.push(
                (
                    id.to_owned(),
                    AdapterStat { events: r.total_events, bytes: r.total_bytes, exceeded: r.exceeded, lost_events: r.lost },
                ),
            );
            k += 1;
        }
        assert(crate::table::entry_names(out@) =~= all);
        out
    }

    /// The event by which the core notes something of its own.
    pub fn note(&mut self, kind: &str, payload: Json, now_us: u64, now_utc_ms: u64) -> (r: Envelope)
        requires
            old(self).state.core_seq < u64::MAX,
        ensures
            final(self).state.core_seq == old(self).state.core_seq + 1,
            r.seq == final(self).state.core_seq,
            r.kind@ == kind@,
            r.t_event_ms is None,
            r.payload == payload,
            r.proto == crate::schema::PROTO,
            r.t_mono_us == now_us,
            r.t_utc_ms == Some(now_utc_ms),
            final(self).state.next_global_seq == old(self).state.next_global_seq,
            final(self).state.last_seq == old(self).state.last_seq,
            final(self).state.active_lesson == old(self).state.active_lesson,
            final(self).meta == old(self).meta,
            final(self).rates == old(self).rates,
            final(self).budgets == old(self).budgets,
    {
        self.state.core_seq = self.state.core_seq + 1;
        Envelope::new(self.state.core_seq, kind, None, payload, now_us, now_utc_ms)
    }

    /// Forgets the last sequence number of an adapter that was started again, and gives the event
    /// that notes it.
    pub fn note_respawn(&mut self, adapter_id: &str, now_us: u64, now_utc_ms: u64) -> (r: Envelope)
        requires
            old(self).state.core_seq < u64::MAX,
        ensures
            final(self).state.last_seq@ == old(self).state.last_seq@.insert(adapter_id@, 0),
            final(self).state.core_seq == old(self).state.core_seq + 1,
            r.seq == final(self).state.core_seq,
            r.kind@ == kinds::CORE_RESPAWN@,
            r.t_event_ms is None,
            r.payload@ == respawn_view(adapter_id@),
            r.proto == crate::schema::PROTO,
            r.t_mono_us == now_us,
            r.t_utc_ms == Some(now_utc_ms),
            final(self).state.next_global_seq == old(self).state.next_global_seq,
            final(self).state.active_lesson == old(self).state.active_lesson,
            final(self).meta == old(self).meta,
            final(self).rates == old(self).rates,
            final(self).budgets == old(self).budgets,
    {
        self.state.last_seq.set(adapter_id, 0);
        let mut o: Vec<(String, Json)> = Vec::new();
        crate::json::put(&mut o, "adapter_id", Json::text(adapter_id));
        self.note(kinds::CORE_RESPAWN, Json::object(o), now_us, now_utc_ms)
    }

    /// The name of the file that records go to: the lesson's, or the one for what comes outside of
    /// lessons.
    pub fn target_key(&self) -> (r: String)
        ensures
            r@ == (match self.meta {
                Some(m) => m.info.lesson_id@,
                None => "misc"@,
            }),
    {
        match &self.meta {
            Some(m) => m.info.lesson_id.clone(),
            None => "misc".to_owned(),
        }
    }

    /// An event as it is stored, before it is judged.
    pub fn append(adapter_id: &str, env: Envelope, now_us: u64, now_utc_ms: u64) -> (r: StoredRecord)
        ensures
            r.global_seq == 0,
            r.adapter_id@ == adapter_id@,
            r.t_core_utc_ms == now_utc_ms,
            r.t_core_mono_us == now_us,
            r.status == RecordStatus::Accepted,
            r.gap is None,
            r.envelope == env,
            r.raw is None,
    {
        StoredRecord {
            global_seq: 0,
            adapter_id: adapter_id.to_owned(),
            t_core_utc_ms: now_utc_ms,
            t_core_mono_us: now_us,
            status: RecordStatus::Accepted,
            gap: None,
            envelope: env,
            raw: None,
        }
    }

    /// A message that is no event, as it is stored: whole, marked as rejected, and with its text.
    pub fn append_rejected(adapter_id: &str, value: Json, now_us: u64, now_utc_ms: u64) -> (r: StoredRecord)
        ensures
            r.global_seq == 0,
            r.adapter_id@ == adapter_id@,
            r.t_core_utc_ms == now_utc_ms,
            r.t_core_mono_us == now_us,
            r.status == RecordStatus::Rejected,
            r.gap is None,
            r.envelope.proto == 0,
            r.envelope.seq == 0,
            r.envelope.kind@ == "core.parse_error"@,
            r.envelope.t_mono_us == 0,
            r.envelope.t_event_ms is None,
            r.envelope.t_utc_ms is None,
            r.envelope.payload == value,
            opt_view(r.raw) == Some(crate::json::compact(value@)),
            crate::json::whole(value@, crate::json::DEPTH as int) ==> crate::json::reads_as(r.raw->0@, value@),
    {
        let raw = value.to_text();
        StoredRecord {
            global_seq: 0,
            adapter_id: adapter_id.to_owned(),
            t_core_utc_ms: now_utc_ms,
            t_core_mono_us: now_us,
            status: RecordStatus::Rejected,
            gap: None,
            envelope: Envelope {
                proto: 0,
                seq: 0,
                kind: "core.parse_error".to_owned(),
                t_mono_us: 0,
                t_event_ms: None,
                t_utc_ms: None,
                payload: value,
            },
            raw: Some(raw),
        }
    }
}

/// The lessons among the directories of a store, by name.
pub fn lesson_ids(names: &Vec<String>) -> (r: Vec<String>)
    ensures
        views(r@) == crate::text::name_list(views(names@)),
{
    let mut out: Vec<String> = Vec::new();
    let mut i: usize = 0;
    let ghost all = views(names@);
    assert(views(out@) =~= crate::text::name_list(all.take(0)));
    while i < names.len()
        invariant
            i <= names@.len(),
            all == views(names@),
            views(out@) == crate::text::name_list(all.take(i as int)),
        decreases names@.len() - i,
    {
        proof {
            crate::fold::lemma_take_more(all, i as int);
        }
        crate::text::insert_name(&mut out, names[i].as_str());
        i += 1;
    }
    proof {
        crate::fold::lemma_take_all(all);
    }
    out
}

// ---------------------------------------------------------------------------------------------
// What holds of every recording
// ---------------------------------------------------------------------------------------------

/// Numbers begin at 1 and grow: where a record took the number of `before`, the next one gets the
/// next number. So no two records have the same.
pub proof fn numbers_grow(before: Store, after: Store)
    requires
        before.state.next_global_seq < u64::MAX,
        after.state.next_global_seq == next_number(before) + 1,
    ensures
        next_number(before) >= 1,
        next_number(after) == next_number(before) + 1,
{
}

/// What came once is known when it comes again: once a number was taken, it and all before it are
/// repeats, and the next one follows without a gap.
pub proof fn repeats_are_known(m: Map<Seq<char>, u64>, id: Seq<char>, seq: u64, again: u64)
    requires
        0 < seq,
        again <= seq,
    ensures
        judged(last_of(last_after(m, id, RecordStatus::Accepted, seq), id), again).0 == RecordStatus::Duplicate,
        last_of(m, id) < seq < u64::MAX ==> judged(
            last_of(last_after(m, id, RecordStatus::Accepted, seq), id),
            (seq + 1) as u64,
        ) == (RecordStatus::Accepted, None::<u64>),
{
}

/// Adapters do not get into each other's way: what one sends changes nothing for another.
pub proof fn adapters_are_apart(m: Map<Seq<char>, u64>, id: Seq<char>, other: Seq<char>, status: RecordStatus, seq: u64)
    requires
        other != id,
    ensures
        last_of(last_after(m, id, status, seq), other) == last_of(m, other),
{
}

/// Every number is either taken or counted as lost: where so many were taken and so many lost up to
/// the last one, the same is true once a further record was taken.
pub proof fn losses_are_counted(last: u64, seq: u64, taken: int, lost: int)
    requires
        taken + lost == last,
    ensures
        ({
            let (status, gap) = judged(last, seq);
            let g = match gap {
                Some(g) => g as int,
                None => 0,
            };
            if status == RecordStatus::Duplicate {
                g == 0 && seq <= last
            } else {
                (taken + 1) + (lost + g) == seq && (status == RecordStatus::GapBefore <==> g > 0)
            }
        }),
{
}

/// A restart begins anew: the first number of a new life is taken, whatever the last life came to.
pub proof fn restarts_begin_anew(m: Map<Seq<char>, u64>, id: Seq<char>)
    ensures
        judged(last_of(m.insert(id, 0), id), 1) == (RecordStatus::Accepted, None::<u64>),
{
}

/// A budget of bytes counts the events themselves: of two events within one second the second goes
/// over it exactly where the sizes of both, with what came before, are more than it allows, however
/// many bytes they were stored in.
pub proof fn budgets_count_events_alone(
    r: Rate,
    b: Budget,
    first: u64,
    second: u64,
    wrote: u64,
    over: bool,
    gap: Option<u64>,
    at_us: u64,
    now_us: u64,
)
    requires
        has_room(r, first, wrote, gap),
        !r.stale(at_us),
        !r.stale(now_us),
    ensures
        over_budget(Some(grown(r, first, wrote, over, gap, at_us)), Some(b), second, now_us) == (r.win_events + 2
            > b.max_events_per_s || r.win_bytes + first + second > b.max_bytes_per_s),
{
}

/// Two events within one second that together keep within the bytes and the number that a budget
/// allows are both accepted, and nobody is killed for them, however many bytes they were stored in.
/// `mid` is the store once the first one was taken and written.
pub proof fn small_events_are_accepted(
    s: Store,
    mid: Store,
    id: Seq<char>,
    b: Budget,
    first: u64,
    second: u64,
    wrote: u64,
    start_us: u64,
    at_us: u64,
    now_us: u64,
)
    requires
        at(s.rates@, id) == Some(Rate::fresh(start_us)),
        at(s.budgets@, id) == Some(b),
        last_of(s.state.last_seq@, id) == 0,
        b.max_events_per_s >= 2,
        first + second <= b.max_bytes_per_s,
        at_us - start_us < WINDOW_US,
        now_us - start_us < WINDOW_US,
        mid.rates@ == s.rates@.insert(id, grown(Rate::fresh(start_us), first, wrote, false, None, at_us)),
        mid.budgets == s.budgets,
        mid.state.last_seq@ == last_after(s.state.last_seq@, id, RecordStatus::Accepted, 1),
    ensures
        !over_budget(at(s.rates@, id), at(s.budgets@, id), first, at_us),
        outcome(s, id, RecordStatus::Accepted, 1, first, at_us) == (Outcome {
            status: RecordStatus::Accepted,
            gap: None,
            kill: false,
        }),
        !over_budget(at(mid.rates@, id), at(mid.budgets@, id), second, now_us),
        outcome(mid, id, RecordStatus::Accepted, 2, second, now_us) == (Outcome {
            status: RecordStatus::Accepted,
            gap: None,
            kill: false,
        }),
{
}

/// Records that could not be read, and repeats, do not move the last number.
pub proof fn bad_records_move_nothing(m: Map<Seq<char>, u64>, id: Seq<char>, status: RecordStatus, seq: u64)
    requires
        status != RecordStatus::Accepted || seq <= last_of(m, id),
    ensures
        last_after(m, id, status, seq) == m,
{
}

/// A new second begins anew: where the window has run out when an event is counted, the new one holds
/// that event alone and begins with it; within a window the event is added to what it holds. The
/// totals grow by the event either way.
pub proof fn seconds_begin_anew(r: Rate, est: u64, wrote: u64, over: bool, gap: Option<u64>, now_us: u64)
    requires
        has_room(r, est, wrote, gap),
    ensures
        ({
            let g = grown(r, est, wrote, over, gap, now_us);
            let lost = match gap {
                Some(n) => n as int,
                None => 0,
            };
            &&& now_us >= r.win_start_us + 1_000_000 ==> g.win_events == 1 && g.win_bytes == est && g.win_start_us == now_us
            &&& now_us < r.win_start_us + 1_000_000 ==> g.win_events == r.win_events + 1 && g.win_bytes == r.win_bytes + est
                && g.win_start_us == r.win_start_us
            &&& g.total_events == r.total_events + 1
            &&& g.total_bytes == r.total_bytes + wrote
            &&& g.lost == r.lost + lost
            &&& over ==> g.exceeded == r.exceeded + 1
            &&& !over ==> g.exceeded == r.exceeded
        }),
{
}

/// An event that was written: when, its size, the bytes it was stored in, whether it went over its
/// budget, and the gap before it.
pub struct Sent {
    pub at_us: u64,
    pub est: u64,
    pub wrote: u64,
    pub over: bool,
    pub gap: Option<u64>,
}

/// The figures of an adapter once events were counted, one after the other.
pub open spec fn rate_after(r: Rate, sent: Seq<Sent>) -> Rate
    decreases sent.len(),
{
    if sent.len() == 0 {
        r
    } else {
        let e = sent.last();
        grown(rate_after(r, sent.drop_last()), e.est, e.wrote, e.over, e.gap, e.at_us)
    }
}

/// Whether there was room for each event when it was counted.
pub open spec fn roomy(r: Rate, sent: Seq<Sent>) -> bool {
    forall|i: int|
        0 <= i < sent.len() ==> has_room(
            rate_after(r, sent.take(i)),
            (#[trigger] sent[i]).est,
            sent[i].wrote,
            sent[i].gap,
        )
}

/// Whether events came one after the other, none before `start_us` and none after `now_us`.
pub open spec fn in_time(sent: Seq<Sent>, start_us: u64, now_us: u64) -> bool {
    &&& start_us <= now_us
    &&& forall|i: int| 0 <= i < sent.len() ==> start_us <= (#[trigger] sent[i]).at_us <= now_us
    &&& forall|i: int, j: int| 0 <= i < j < sent.len() ==> (#[trigger] sent[i]).at_us <= (#[trigger] sent[j]).at_us
}

/// Events from a moment on.
pub open spec fn since(from_us: int) -> spec_fn(Sent) -> bool {
    |e: Sent| e.at_us >= from_us
}

/// The sizes of events from a moment on.
pub open spec fn bytes_since(from_us: int) -> spec_fn(Sent) -> int {
    |e: Sent|
        if e.at_us >= from_us {
            e.est as int
        } else {
            0
        }
}

proof fn lemma_since(sent: Seq<Sent>, a: int, b: int)
    requires
        b <= a,
    ensures
        0 <= count(sent, since(a)) <= count(sent, since(b)),
        0 <= total(sent, bytes_since(a)) <= total(sent, bytes_since(b)),
    decreases sent.len(),
{
    if sent.len() > 0 {
        lemma_since(sent.drop_last(), a, b);
    }
}

proof fn lemma_window(start_us: u64, sent: Seq<Sent>, now_us: u64)
    requires
        in_time(sent, start_us, now_us),
        roomy(Rate::fresh(start_us), sent),
    ensures
        ({
            let r = rate_after(Rate::fresh(start_us), sent);
            &&& start_us <= r.win_start_us
            &&& sent.len() > 0 ==> r.win_start_us <= sent.last().at_us
            &&& sent.len() == 0 ==> r == Rate::fresh(start_us)
            &&& r.win_events <= count(sent, since(r.win_start_us as int))
            &&& r.win_bytes <= total(sent, bytes_since(r.win_start_us as int))
        }),
    decreases sent.len(),
{
    if sent.len() > 0 {
        let p = sent.drop_last();
        let n = sent.len() - 1;
        let e = sent.last();
        let r0 = Rate::fresh(start_us);
        assert forall|i: int| 0 <= i < p.len() implies has_room(
            rate_after(r0, p.take(i)),
            (#[trigger] p[i]).est,
            p[i].wrote,
            p[i].gap,
        ) by {
            assert(p[i] == sent[i]);
            assert(p.take(i) =~= sent.take(i));
        }
        assert(in_time(p, start_us, now_us)) by {
            assert forall|i: int| 0 <= i < p.len() implies start_us <= (#[trigger] p[i]).at_us <= now_us by {
                assert(p[i] == sent[i]);
            }
            assert forall|i: int, j: int| 0 <= i < j < p.len() implies (#[trigger] p[i]).at_us <= (#[trigger] p[j]).at_us by {
                assert(p[i] == sent[i] && p[j] == sent[j]);
            }
        }
        lemma_window(start_us, p, now_us);
        assert(p =~= sent.take(n));
        assert(sent[n] == e);
        assert(has_room(rate_after(r0, p), e.est, e.wrote, e.gap));
        if n > 0 {
            assert(p.last() == sent[n - 1]);
            assert(sent[n - 1].at_us <= sent[n].at_us);
        }
        let w = rate_after(r0, sent).win_start_us as int;
        lemma_since(p, w, w);
    }
}

/// Whoever keeps to the budget in every second is never over it, however long a lesson lasts: an
/// event goes over only where it and those of the second before it are more than the budget allows,
/// in number or in size.
pub proof fn steady_senders_stay_within(start_us: u64, sent: Seq<Sent>, est: u64, now_us: u64, b: Budget)
    requires
        in_time(sent, start_us, now_us),
        roomy(Rate::fresh(start_us), sent),
        over_budget(Some(rate_after(Rate::fresh(start_us), sent)), Some(b), est, now_us),
    ensures
        count(sent, since(now_us - 999_999)) + 1 > b.max_events_per_s || total(sent, bytes_since(now_us - 999_999)) + est
            > b.max_bytes_per_s,
{
    lemma_window(start_us, sent, now_us);
    let r = rate_after(Rate::fresh(start_us), sent);
    lemma_since(sent, now_us - 999_999, now_us - 999_999);
    if !r.stale(now_us) {
        lemma_since(sent, r.win_start_us as int, now_us - 999_999);
    }
}

/// A burst is noticed: where so many events came within one window of the first that they are more
/// than the budget allows, one more is over it.
pub proof fn bursts_go_over(r: Rate, b: Budget, est: u64, now_us: u64)
    requires
        now_us < r.win_start_us + 1_000_000,
    ensures
        r.win_events >= b.max_events_per_s ==> over_budget(Some(r), Some(b), est, now_us),
        r.win_bytes + est > b.max_bytes_per_s ==> over_budget(Some(r), Some(b), est, now_us),
        !over_budget(Some(r), None, est, now_us),
{
}

/// What becomes of an event that is over its budget is for the budget to say: one that only logs
/// leaves the event as it is, the others mark it unless it is marked already, and one that kills has
/// the adapter killed. Within the budget nobody is killed and nothing is marked.
pub proof fn budgets_decide(s: Store, id: Seq<char>, b: Budget, status: RecordStatus, seq: u64, est: u64, now_us: u64)
    requires
        at(s.budgets@, id) == Some(b),
    ensures
        ({
            let over = over_budget(at(s.rates@, id), Some(b), est, now_us);
            let o = outcome(s, id, status, seq, est, now_us);
            let plain = if status == RecordStatus::Accepted {
                judged(last_of(s.state.last_seq@, id), seq).0
            } else {
                status
            };
            &&& o.kill <==> over && b.on_exceed == Exceed::Kill
            &&& !over ==> o.status == plain
            &&& over && b.on_exceed == Exceed::Log ==> o.status == plain
            &&& plain != RecordStatus::Accepted ==> o.status == plain
            &&& over && b.on_exceed != Exceed::Log && plain == RecordStatus::Accepted ==> o.status == RecordStatus::OverBudget
        }),
{
}

/// A number is a repeat, or follows the last one, or comes after a gap that is told in full.
pub proof fn numbers_are_judged(last: u64, seq: u64)
    ensures
        judged(last, seq).0 == RecordStatus::Duplicate <==> seq <= last,
        judged(last, seq).0 == RecordStatus::Accepted <==> seq == last + 1,
        judged(last, seq).0 == RecordStatus::GapBefore <==> seq > last + 1,
        seq > last + 1 ==> (judged(last, seq).1 matches Some(g) && last + g + 1 == seq),
        seq <= last + 1 ==> judged(last, seq).1 is None,
{
}

/// A lesson that is ended stays what it was, and tells when and why it ended.
pub proof fn ended_lessons_keep_what_they_were(m: LessonMeta, n: LessonMeta, reason: Seq<char>, now_us: u64)
    requires
        ended_by(m, n, reason, now_us),
    ensures
        n.info == m.info,
        n.started_core_mono_us == m.started_core_mono_us,
        n.ended_core_mono_us == Some(now_us),
        n.stop_reason matches Some(r) && r@ == reason,
{
}

/// An adapter that registers again keeps its figures, and one that registers for the first time has none.
pub proof fn registering_again_forgets_nothing(m: Map<Seq<char>, Rate>, id: Seq<char>, now_us: u64)
    ensures
        m.contains_key(id) ==> rate_at(m, id, now_us) == m[id],
        !m.contains_key(id) ==> {
            let r = rate_at(m, id, now_us);
            r.win_start_us == now_us && r.win_events == 0 && r.win_bytes == 0 && r.total_events == 0 && r.total_bytes == 0
                && r.exceeded == 0 && r.lost == 0
        },
{
}

/// A record that is taken is the event that came, from whom it came and when, with all that it says.
pub proof fn taking_changes_no_event(a: StoredRecord, b: StoredRecord)
    requires
        same_event(a, b),
    ensures
        a.adapter_id@ == b.adapter_id@,
        a.t_core_utc_ms == b.t_core_utc_ms,
        a.t_core_mono_us == b.t_core_mono_us,
        a.envelope.seq == b.envelope.seq,
        a.envelope.kind@ == b.envelope.kind@,
        a.envelope.t_event_ms == b.envelope.t_event_ms,
        a.envelope.payload@ == b.envelope.payload@,
        opt_view(a.raw) == opt_view(b.raw),
{
}

} // verus!
