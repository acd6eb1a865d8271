//! The recording core: what follows from each thing that happens to it.
//!
//! Lines come in, processes leave, time passes. Each function here takes one such happening and
//! says what is to be done; doing it is left to the caller.

use vstd::prelude::*;
use crate::json::compact;
use crate::json::field;
use crate::json::parsed;
use crate::json::put;
use crate::json::str_of;
use crate::json::uint_of;
use crate::json::Json;
use crate::json::JsonView;
use crate::kinds;
use crate::protocol::shorten;
use crate::protocol::shortened;
use crate::readable;
use crate::readable::day_time;
use crate::readable::size_text;
use crate::schema::Admit;
use crate::schema::Command;
use crate::schema::CoursewareRef;
use crate::schema::Envelope;
use crate::schema::LessonInfo;
use crate::schema::LessonUpload;
use crate::schema::RecordStatus;
use crate::schema::StoredRecord;
use crate::schema::PROTO;
use crate::store::rate_at;
use crate::store::respawn_view;
use crate::store::AdapterStat;
use crate::store::Outcome;
use crate::store::Store;
use crate::supervisor::admitted;
use crate::supervisor::killed;
use crate::supervisor::place_of;
use crate::supervisor::refusal;
use crate::supervisor::AdapterHandle;
use crate::supervisor::Status;
use crate::supervisor::Supervisor;
use crate::text;
use crate::text::dec;
use crate::text::head_of;
use crate::text::opt_view;
use crate::text::pad_left;
use crate::text::pad_right;
use crate::text::same;
use crate::text::tail_of;
use crate::text::trimmed;
use crate::text::views;
use crate::track::or_else;

verus! {

/// How long silence must last before the rest of a lesson is taken to be in.
pub const QUIET_MS: u64 = 400;

/// How long the rest of a lesson is waited for at most.
pub const DRAIN_MS: u64 = 3_000;

/// How often the state is reported.
pub const REPORT_MS: u64 = 5_000;

/// After how long an open lesson without any event is reported.
pub const SILENT_S: u64 = 5;

/// Something that is to be done.
#[derive(Debug, Clone)]
pub enum Action {
    /// Tell the operator.
    Say { text: String },
    /// Store this event, which the core notes of its own.
    Note { envelope: Envelope },
    /// Tell the operator that an adapter is ready.
    Ready { id: String, produces: String, needs_lesson: bool },
    /// Write a command to an adapter.
    Send { id: String, command: Command },
    /// Kill the process of an adapter.
    Kill { id: String },
}

/// The recording core.
#[derive(Debug, Clone)]
pub struct Core {
    pub store: Store,
    pub sup: Supervisor,
}

/// The name of a status.
pub open spec fn status_word(s: Status) -> Seq<char> {
    match s {
        Status::Pending => "Pending"@,
        Status::Ready => "Ready"@,
        Status::Backoff => "Backoff"@,
        Status::Dead => "Dead"@,
        Status::Killed => "Killed"@,
        Status::Disabled => "Disabled"@,
        Status::Stopped => "Stopped"@,
    }
}

/// The name of a status.
pub fn status_name(s: Status) -> (r: &'static str)
    ensures
        r@ == status_word(s),
{
    match s {
        Status::Pending => "Pending",
        Status::Ready => "Ready",
        Status::Backoff => "Backoff",
        Status::Dead => "Dead",
        Status::Killed => "Killed",
        Status::Disabled => "Disabled",
        Status::Stopped => "Stopped",
    }
}

/// The name of how a record was taken.
pub open spec fn taken_word(s: RecordStatus) -> Seq<char> {
    match s {
        RecordStatus::Accepted => "Accepted"@,
        RecordStatus::GapBefore => "GapBefore"@,
        RecordStatus::OverBudget => "OverBudget"@,
        RecordStatus::Duplicate => "Duplicate"@,
        RecordStatus::Rejected => "Rejected"@,
    }
}

/// The name of how a record was taken.
pub fn taken_name(s: RecordStatus) -> (r: &'static str)
    ensures
        r@ == taken_word(s),
{
    match s {
        RecordStatus::Accepted => "Accepted",
        RecordStatus::GapBefore => "GapBefore",
        RecordStatus::OverBudget => "OverBudget",
        RecordStatus::Duplicate => "Duplicate",
        RecordStatus::Rejected => "Rejected",
    }
}

/// Whether an action tells the operator just this.
pub open spec fn says(a: Action, s: Seq<char>) -> bool {
    a matches Action::Say { text } && text@ == s
}

fn say3(a: &str, b: &str, c: &str) -> (r: Action)
    ensures
        says(r, a@ + b@ + c@),
{
    let mut s = a.to_owned();
    s.append(b);
    s.append(c);
    Action::Say { text: s }
}

// ---------------------------------------------------------------------------------------------
// Lessons
// ---------------------------------------------------------------------------------------------

/// A lesson out of whatever its description says; what it leaves out is filled in.
pub open spec fn lesson_of(
    v: JsonView,
    prev: Option<Seq<char>>,
    now_ms: u64,
    courseware: Seq<crate::schema::CoursewareView>,
) -> crate::schema::LessonView {
    crate::schema::LessonView {
        lesson_id: or_else(str_of(field(v, "lesson_id"@)), "L"@ + dec(now_ms as int / 1000)),
        prev_lesson_id: match str_of(field(v, "prev_lesson_id"@)) {
            Some(p) => Some(p),
            None => prev,
        },
        subject: str_of(field(v, "subject"@)),
        class: str_of(field(v, "class"@)),
        teacher: str_of(field(v, "teacher"@)),
        started_at_utc_ms: match uint_of(field(v, "started_at_utc_ms"@)) {
            Some(t) => t,
            None => now_ms,
        },
        courseware,
        blob_dir: Seq::empty(),
        params: match field(v, "params"@) {
            Some(p) => p,
            None => JsonView::Null,
        },
    }
}

fn owned_at(v: &Json, k: &str) -> (r: Option<String>)
    ensures
        opt_view(r) == str_of(field(v@, k@)),
{
    match v.str_at(k) {
        Some(s) => Some(s.to_owned()),
        None => None,
    }
}

/// A lesson out of whatever its description says; what it leaves out is filled in. `courseware`
/// is what could be read of the member of that name.
pub fn lesson_from_value(v: &Json, prev: Option<String>, now_ms: u64, courseware: Vec<CoursewareRef>) -> (r: LessonInfo)
    ensures
        r@ == lesson_of(v@, opt_view(prev), now_ms, courseware@.map_values(|c: CoursewareRef| c@)),
{
    let lesson_id = match owned_at(v, "lesson_id") {
        Some(s) => s,
        None => {
            let mut s = "L".to_owned();
            text::push_dec(&mut s, now_ms / 1000);
            s
        },
    };
    let prev_lesson_id = match owned_at(v, "prev_lesson_id") {
        Some(s) => Some(s),
        None => prev,
    };
    LessonInfo {
        lesson_id,
        prev_lesson_id,
        subject: owned_at(v, "subject"),
        class: owned_at(v, "class"),
        teacher: owned_at(v, "teacher"),
        started_at_utc_ms: match v.u64_at("started_at_utc_ms") {
            Some(t) => t,
            None => now_ms,
        },
        courseware,
        blob_dir: String::new(),
        params: match v.get("params") {
            Some(p) => p.copy(),
            None => Json::Null,
        },
    }
}

// ---------------------------------------------------------------------------------------------
// The console
// ---------------------------------------------------------------------------------------------

/// What a line on the console asks for.
#[derive(Debug, Clone)]
pub enum Order {
    Nothing,
    Start { rest: String },
    Stop,
    Status,
    Quit,
    Unknown { word: String },
}

/// What a line on the console asks for.
pub open spec fn is_order(o: Order, line: Seq<char>) -> bool {
    let l = trimmed(line);
    let word = head_of(l, ' ');
    let rest = match tail_of(l, ' ') {
        Some(r) => r,
        None => Seq::empty(),
    };
    if l.len() == 0 {
        o is Nothing
    } else if word == "start"@ {
        o matches Order::Start { rest: r } && r@ == rest
    } else if word == "stop"@ {
        o is Stop
    } else if word == "status"@ {
        o is Status
    } else if word == "quit"@ || word == "exit"@ {
        o is Quit
    } else {
        o matches Order::Unknown { word: w } && w@ == word
    }
}

/// What a line on the console asks for.
pub fn read_order(line: &str) -> (r: Order)
    ensures
        is_order(r, line@),
{
    let l = text::trim(line);
    if l.as_str().is_empty() {
        return Order::Nothing;
    }
    let (word, tail) = text::split_once(l.as_str(), ' ');
    let w = word.as_str();
    if same(w, "start") {
        Order::Start {
            rest: match tail {
                Some(r) => r,
                None => String::new(),
            },
        }
    } else if same(w, "stop") {
        Order::Stop
    } else if same(w, "status") {
        Order::Status
    } else if same(w, "quit") || same(w, "exit") {
        Order::Quit
    } else {
        Order::Unknown { word }
    }
}

/// The description that an order to start comes with: an empty object where it has none.
pub fn start_value(rest: &str) -> (r: Json)
    ensures
        match parsed(rest@) {
            Ok(v) => r@ == v,
            Err(_) => r@ == JsonView::Obj(Map::<Seq<char>, JsonView>::empty()),
        },
{
    match Json::parse(rest) {
        Ok(v) => v,
        Err(_) => {
            let o: Vec<(String, Json)> = Vec::new();
            Json::object(o)
        },
    }
}

// ---------------------------------------------------------------------------------------------
// Adapters speaking
// ---------------------------------------------------------------------------------------------

/// Whether two lists of commands to start a lesson say the same.
pub open spec fn starts(a: Action, id: Seq<char>, lesson: crate::schema::LessonView) -> bool {
    a matches Action::Send { id: i, command: Command::StartLesson { lesson: l } } && i@ == id && l@ == lesson
}

/// Whether `e` is an event of the core itself: number `seq`, and nothing but this in it.
pub open spec fn is_note(e: Envelope, seq: int, kind: Seq<char>, payload: JsonView, now_us: u64, now_utc_ms: u64) -> bool {
    &&& e.proto == PROTO
    &&& e.seq == seq
    &&& e.kind@ == kind
    &&& e.t_mono_us == now_us
    &&& e.t_event_ms is None
    &&& e.t_utc_ms == Some(now_utc_ms)
    &&& e.payload@ == payload
}

/// What is noted of an admission.
pub open spec fn admission_view(id: Seq<char>, manifest: JsonView) -> JsonView {
    JsonView::Obj(
        Map::<Seq<char>, JsonView>::empty().insert("adapter_id"@, JsonView::Str(id)).insert("manifest"@, manifest),
    )
}

/// What follows from an adapter's first line that could be read: its admission is noted, and then
/// either the refusal is told, or it is ready and, where a lesson is in progress, started.
pub open spec fn admission(
    acts: Seq<Action>,
    before: Core,
    id: Seq<char>,
    a: Admit,
    manifest: JsonView,
    os: Seq<char>,
    now_us: u64,
    now_utc_ms: u64,
) -> bool {
    let k = place_of(before.sup.handles@, id);
    let known = k < before.sup.handles@.len();
    &&& acts.len() >= 1
    &&& acts[0] matches Action::Note { envelope } && is_note(
        envelope,
        before.store.state.core_seq + 1,
        kinds::CORE_ADMIT@,
        admission_view(id, manifest),
        now_us,
        now_utc_ms,
    )
    &&& if !known {
        acts.len() == 2 && says(acts[1], id + " 报了 Admit 但没有对应句柄，忽略"@)
    } else if refusal(a, os) is Some {
        acts.len() == 2 && says(acts[1], id + " 拒绝装载："@ + refusal(a, os)->0)
    } else {
        &&& acts.len() >= 2
        &&& acts[1] matches Action::Ready { id: i, produces, needs_lesson } && i@ == id && produces@ == text::join(
            views(a.manifest.produces@),
            ","@,
        ) && needs_lesson == a.manifest.needs_lesson
        &&& match before.store.meta {
            Some(m) => acts.len() == 3 && starts(acts[2], id, m.info@),
            None => acts.len() == 2,
        }
    }
}

impl Core {
    /// Whether the next line of an adapter has to be its admission.
    pub fn expects_admission(&self, id: &str) -> (r: bool)
        ensures
            r == ({
                let k = place_of(self.sup.handles@, id@);
                k < self.sup.handles@.len() && self.sup.handles@[k].status == Status::Pending
            }),
    {
        match self.sup.find(id) {
            Some(h) => h.status == Status::Pending,
            None => false,
        }
    }

    /// Takes an adapter's admission on platform `os`. `manifest` is its manifest as a document.
    pub fn on_admission(
        &mut self,
        id: &str,
        a: Admit,
        manifest: Json,
        os: &str,
        now_us: u64,
        now_utc_ms: u64,
    ) -> (r: Vec<Action>)
        requires
            old(self).store.state.core_seq < u64::MAX,
        ensures
            admission(r@, *old(self), id@, a, manifest@, os@, now_us, now_utc_ms),
            final(self).store.budgets@ == old(self).store.budgets@.insert(id@, a.manifest.budget),
            final(self).store.rates@ == old(self).store.rates@.insert(id@, rate_at(old(self).store.rates@, id@, now_us)),
            final(self).store.state.core_seq == old(self).store.state.core_seq + 1,
            final(self).store.state.last_seq == old(self).store.state.last_seq,
            final(self).store.state.next_global_seq == old(self).store.state.next_global_seq,
            final(self).store.state.active_lesson == old(self).store.state.active_lesson,
            final(self).store.meta == old(self).store.meta,
            final(self).sup.handles@.len() == old(self).sup.handles@.len(),
            forall|j: int| #![trigger final(self).sup.handles@[j]]
                0 <= j < old(self).sup.handles@.len() ==> if j == place_of(old(self).sup.handles@, id@) {
                    admitted(old(self).sup.handles@[j], final(self).sup.handles@[j], a, os@)
                } else {
                    final(self).sup.handles@[j] == old(self).sup.handles@[j]
                },
    {
        let mut acts: Vec<Action> = Vec::new();
        self.store.register_adapter(id, a.manifest.budget, now_us);
        let mut o: Vec<(String, Json)> = Vec::new();
        put(&mut o, "adapter_id", Json::text(id));
        put(&mut o, "manifest", manifest);
        let payload = Json::object(o);
        let envelope = self.store.note(kinds::CORE_ADMIT, payload, now_us, now_utc_ms);
        acts.push(Action::Note { envelope });
        let needs = a.manifest.needs_lesson;
        let produces = text::join_of(&a.manifest.produces, ",");
        match self.sup.position(id) {
            Some(k) => {
                let h = &mut self.sup.handles[k];
                match h.accept(a, os) {
                    Err(e) => {
                        acts.push(say3(id, " 拒绝装载：", e.as_str()));
                    },
                    Ok(_) => {
                        acts.push(Action::Ready { id: id.to_owned(), produces, needs_lesson: needs });
                        match &self.store.meta {
                            Some(m) => {
                                acts.push(
                                    Action::Send {
                                        id: id.to_owned(),
                                        command: Command::StartLesson { lesson: m.info.copy() },
                                    },
                                );
                            },
                            None => {},
                        }
                    },
                }
            },
            None => {
                let a = say3(id, " 报了 Admit 但没有对应句柄，忽略", "");
                proof {
                    reveal_strlit("");
                    assert(id@ + " 报了 Admit 但没有对应句柄，忽略"@ + ""@ =~= id@ + " 报了 Admit 但没有对应句柄，忽略"@);
                }
                acts.push(a);
            },
        }
        acts
    }

    /// What is told of a first line that is no admission.
    pub fn on_bad_admission(id: &str, e: &str) -> (r: Action)
        ensures
            says(r, id@ + " 首行不是 Admit："@ + shortened(e@, 200)),
    {
        say3(id, " 首行不是 Admit：", shorten(e, 200).as_str())
    }

    /// What follows once an event was stored: a hole is told, and an adapter that has to go is
    /// killed.
    pub fn after_event(&mut self, id: &str, out: Outcome) -> (r: Vec<Action>)
        ensures
            event_actions(r@, id@, out, place_of(old(self).sup.handles@, id@) < old(self).sup.handles@.len()),
            final(self).store == old(self).store,
            final(self).sup.handles@.len() == old(self).sup.handles@.len(),
            forall|j: int| #![trigger final(self).sup.handles@[j]]
                0 <= j < old(self).sup.handles@.len() ==> if out.kill && j == place_of(old(self).sup.handles@, id@) {
                    killed(old(self).sup.handles@[j], final(self).sup.handles@[j], "超出预算"@)
                } else {
                    final(self).sup.handles@[j] == old(self).sup.handles@[j]
                },
    {
        let mut acts: Vec<Action> = Vec::new();
        match out.gap {
            Some(lost) => {
                let mut s = id.to_owned();
                s.append(" seq 空洞：丢 ");
                text::push_dec(&mut s, lost);
                s.append(" 条（status=");
                s.append(taken_name(out.status));
                s.append("）");
                acts.push(Action::Say { text: s });
            },
            None => {},
        }
        if out.kill {
            let mut s = id.to_owned();
            s.append(" 超出预算，已终止且不再拉起");
            acts.push(Action::Say { text: s });
            match self.sup.position(id) {
                Some(k) => {
                    let h = &mut self.sup.handles[k];
                    h.kill("超出预算");
                    acts.push(Action::Kill { id: id.to_owned() });
                },
                None => {},
            }
        }
        acts
    }

    /// The record of an adapter's line: the event, or, where it is none or of another version of the
    /// protocol, the line as it came.
    pub fn on_event(id: &str, read: Result<Envelope, String>, value: Json, now_us: u64, now_utc_ms: u64) -> (r: StoredRecord)
        ensures
            r.adapter_id@ == id@,
            r.global_seq == 0,
            r.t_core_mono_us == now_us,
            r.t_core_utc_ms == now_utc_ms,
            r.gap is None,
            if read matches Ok(env) && env.proto == PROTO {
                r.status == RecordStatus::Accepted && r.envelope == read->Ok_0 && r.raw is None
            } else {
                &&& r.status == RecordStatus::Rejected
                &&& r.envelope.proto == 0
                &&& r.envelope.seq == 0
                &&& r.envelope.kind@ == "core.parse_error"@
                &&& r.envelope.t_mono_us == 0
                &&& r.envelope.t_event_ms is None
                &&& r.envelope.t_utc_ms is None
                &&& r.envelope.payload == value
                &&& opt_view(r.raw) == Some(compact(value@))
            },
    {
        match read {
            Ok(env) => {
                if env.proto == PROTO {
                    return Store::append(id, env, now_us, now_utc_ms);
                }
            },
            Err(_) => {},
        }
        Store::append_rejected(id, value, now_us, now_utc_ms)
    }

    /// What is told of a line that was rejected.
    pub fn on_bad_event(id: &str) -> (r: Action)
        ensures
            says(r, id@ + " 一条事件解析失败，已原样保留"@),
    {
        let mut s = id.to_owned();
        s.append(" 一条事件解析失败，已原样保留");
        Action::Say { text: s }
    }

    /// What follows from the exit of an adapter's process, after it was reaped: the exit is told,
    /// and where the adapter is to be started again that is noted.
    pub fn after_exit(&mut self, id: &str, code: &str, now_us: u64, now_utc_ms: u64) -> (r: Vec<Action>)
        requires
            old(self).store.state.core_seq < u64::MAX,
        ensures
            final(self).sup == old(self).sup,
            final(self).store.meta == old(self).store.meta,
            final(self).store.rates == old(self).store.rates,
            final(self).store.budgets == old(self).store.budgets,
            final(self).store.state.next_global_seq == old(self).store.state.next_global_seq,
            final(self).store.state.active_lesson == old(self).store.state.active_lesson,
            ({
                let k = place_of(old(self).sup.handles@, id@);
                let again = k < old(self).sup.handles@.len() && old(self).sup.handles@[k].status == Status::Backoff;
                if again {
                    &&& r@.len() == 2
                    &&& says(r@[0], id@ + " 退出（"@ + code@ + "）"@ + "，退避后重启"@)
                    &&& r@[1] matches Action::Note { envelope } && is_note(
                        envelope,
                        old(self).store.state.core_seq + 1,
                        kinds::CORE_RESPAWN@,
                        respawn_view(id@),
                        now_us,
                        now_utc_ms,
                    )
                    &&& final(self).store.state.last_seq@ == old(self).store.state.last_seq@.insert(id@, 0)
                    &&& final(self).store.state.core_seq == old(self).store.state.core_seq + 1
                } else {
                    &&& r@.len() == 1
                    &&& says(r@[0], id@ + " 退出（"@ + code@ + "）"@)
                    &&& final(self).store == old(self).store
                }
            }),
    {
        let mut acts: Vec<Action> = Vec::new();
        let again = match self.sup.find(id) {
            Some(h) => h.status == Status::Backoff,
            None => false,
        };
        let mut s = id.to_owned();
        s.append(" 退出（");
        s.append(code);
        s.append("）");
        if again {
            s.append("，退避后重启");
        }
        acts.push(Action::Say { text: s });
        if again {
            let envelope = self.store.note_respawn(id, now_us, now_utc_ms);
            acts.push(Action::Note { envelope });
        }
        acts
    }

    /// What is told of an adapter that closed its output.
    pub fn on_eof(id: &str) -> (r: Action)
        ensures
            says(r, id@ + " 关闭了 stdout"@),
    {
        let mut s = id.to_owned();
        s.append(" 关闭了 stdout");
        Action::Say { text: s }
    }

    /// What is told of a line that could not be read.
    pub fn on_fault(id: &str, msg: &str) -> (r: Action)
        ensures
            says(r, id@ + " 读取错误："@ + shortened(msg@, 200)),
    {
        say3(id, " 读取错误：", shorten(msg, 200).as_str())
    }

    /// The lesson that an order to start begins: it follows the one in progress, if there is one.
    pub fn next_lesson(&self, v: &Json, now_ms: u64, courseware: Vec<CoursewareRef>) -> (r: LessonInfo)
        ensures
            r@ == lesson_of(
                v@,
                match self.store.meta {
                    Some(m) => if m.info.lesson_id@.len() > 0 {
                        Some(m.info.lesson_id@)
                    } else {
                        None
                    },
                    None => None,
                },
                now_ms,
                courseware@.map_values(|c: CoursewareRef| c@),
            ),
    {
        let prev = match self.store.active_lesson_id() {
            Some(p) => if p.is_empty() {
                None
            } else {
                Some(p.to_owned())
            },
            None => None,
        };
        lesson_from_value(v, prev, now_ms, courseware)
    }

    /// The commands by which all adapters are told of a new lesson: first the parameters that were
    /// read anew, then the lesson itself.
    pub fn start_commands(&self, refreshed: &Vec<bool>, data_dir: &str) -> (r: Vec<Action>)
        requires
            refreshed@.len() == self.sup.handles@.len(),
        ensures
            match self.store.meta {
                Some(m) => start_actions(
                    r@,
                    self.sup.handles@,
                    refreshed@,
                    data_dir@,
                    m.info@,
                    self.sup.handles@.len() as int,
                ),
                None => r@.len() == 0,
            },
    {
        let mut acts: Vec<Action> = Vec::new();
        let m = match &self.store.meta {
            Some(m) => m,
            None => {
                return acts;
            },
        };
        let mut i: usize = 0;
        while i < self.sup.handles.len()
            invariant
                i <= self.sup.handles@.len(),
                refreshed@.len() == self.sup.handles@.len(),
                self.store.meta == Some(*m),
                configure_actions(acts@, self.sup.handles@, refreshed@, data_dir@, i as int),
            decreases self.sup.handles@.len() - i,
        {
            let h = &self.sup.handles[i];
            let ghost before = acts@;
            if refreshed[i] && h.piped {
                acts.push(
                    Action::Send {
                        id: h.id.clone(),
                        command: Command::Configure { data_dir: data_dir.to_owned(), params: h.spec.decl.params.copy() },
                    },
                );
                assert(acts@.drop_last() =~= before);
            }
            i += 1;
        }
        let ghost first = acts@;
        let mut k: usize = 0;
        assert(acts@.skip(first.len() as int) =~= Seq::empty());
        assert(acts@.take(first.len() as int) =~= first);
        while k < self.sup.handles.len()
            invariant
                k <= self.sup.handles@.len(),
                self.store.meta == Some(*m),
                acts@.len() == first.len() + k,
                acts@.take(first.len() as int) == first,
                forall|j: int|
                    0 <= j < k ==> starts(#[trigger] acts@[first.len() + j], self.sup.handles@[j].id@, m.info@),
            decreases self.sup.handles@.len() - k,
        {
            let ghost before = acts@;
            acts.push(
                Action::Send {
                    id: self.sup.handles[k].id.clone(),
                    command: Command::StartLesson { lesson: m.info.copy() },
                },
            );
            assert(acts@.take(first.len() as int) =~= before.take(first.len() as int));
            k += 1;
        }
        acts
    }

    /// The commands by which all adapters are told that the lesson is over; none without a lesson.
    pub fn stop_commands(&self, reason: &str) -> (r: Vec<Action>)
        ensures
            match self.store.meta {
                Some(m) => r@.len() == self.sup.handles@.len() && forall|j: int|
                    0 <= j < r@.len() ==> stops(#[trigger] r@[j], self.sup.handles@[j].id@, m.info.lesson_id@, reason@),
                None => r@.len() == 0,
            },
    {
        let mut acts: Vec<Action> = Vec::new();
        let m = match &self.store.meta {
            Some(m) => m,
            None => {
                return acts;
            },
        };
        let mut k: usize = 0;
        while k < self.sup.handles.len()
            invariant
                k <= self.sup.handles@.len(),
                self.store.meta == Some(*m),
                acts@.len() == k,
                forall|j: int|
                    0 <= j < k ==> stops(#[trigger] acts@[j], self.sup.handles@[j].id@, m.info.lesson_id@, reason@),
            decreases self.sup.handles@.len() - k,
        {
            acts.push(
                Action::Send {
                    id: self.sup.handles[k].id.clone(),
                    command: Command::StopLesson { lesson_id: m.info.lesson_id.clone(), reason: reason.to_owned() },
                },
            );
            k += 1;
        }
        acts
    }

    /// How many events and bytes there are in all.
    pub fn totals(&self) -> (r: (u128, u128))
        ensures
            r.0 == events_sum(self.store, self.store.rates.names(), crate::text::name_list(self.store.rates.names()).len() as int),
            r.1 == bytes_sum(self.store, self.store.rates.names(), crate::text::name_list(self.store.rates.names()).len() as int),
    {
        let st = self.store.stats();
        let ghost ns = crate::text::name_list(self.store.rates.names());
        let mut ev: u128 = 0;
        let mut by: u128 = 0;
        let mut i: usize = 0;
        assert(crate::table::entry_names(st@).len() == st@.len());
        while i < st.len()
            invariant
                i <= st@.len(),
                ns == crate::text::name_list(self.store.rates.names()),
                crate::table::entry_names(st@) == ns,
                st@.len() == ns.len(),
                forall|q: int|
                    0 <= q < st@.len() ==> self.store.rates@.contains_key((#[trigger] st@[q]).0@) && st@[q].1 == (AdapterStat {
                        events: self.store.rates@[st@[q].0@].total_events,
                        bytes: self.store.rates@[st@[q].0@].total_bytes,
                        exceeded: self.store.rates@[st@[q].0@].exceeded,
                        lost_events: self.store.rates@[st@[q].0@].lost,
                    }),
                ev <= i * u64::MAX,
                by <= i * u64::MAX,
                ev == events_sum(self.store, self.store.rates.names(), i as int),
                by == bytes_sum(self.store, self.store.rates.names(), i as int),
            decreases st@.len() - i,
        {
            assert(ns[i as int] == st@[i as int].0@);
            ev += st[i].1.events as u128;
            by += st[i].1.bytes as u128;
            i += 1;
        }
        (ev, by)
    }

    /// What is told on the end of a lesson.
    pub fn farewell(&self) -> (r: Option<String>)
        ensures
            match self.store.meta {
                Some(m) => r matches Some(s) && s@ == "收课 "@ + m.info.lesson_id@ + "："@ + dec(
                    events_sum(self.store, self.store.rates.names(), crate::text::name_list(self.store.rates.names()).len() as int),
                ) + " 条事件，"@ + dec(
                    bytes_sum(self.store, self.store.rates.names(), crate::text::name_list(self.store.rates.names()).len() as int),
                ) + " 字节；导出用 --lesson "@ + m.info.lesson_id@,
                None => r is None,
            },
    {
        match &self.store.meta {
            Some(m) => {
                let (ev, by): (u128, u128) = self.totals();
                let mut s = "收课 ".to_owned();
                s.append(m.info.lesson_id.as_str());
                s.append("：");
                text::push_dec_wide(&mut s, ev);
                s.append(" 条事件，");
                text::push_dec_wide(&mut s, by);
                s.append(" 字节；导出用 --lesson ");
                s.append(m.info.lesson_id.as_str());
                Some(s)
            },
            None => None,
        }
    }
}

/// Events of the first `n` sources, by name.
pub open spec fn events_sum(s: Store, names: Seq<Seq<char>>, n: int) -> int
    decreases n,
{
    if n <= 0 {
        0
    } else {
        events_sum(s, names, n - 1) + s.rates@[text::name_list(names)[n - 1]].total_events
    }
}

/// Bytes of the first `n` sources, by name.
pub open spec fn bytes_sum(s: Store, names: Seq<Seq<char>>, n: int) -> int
    decreases n,
{
    if n <= 0 {
        0
    } else {
        bytes_sum(s, names, n - 1) + s.rates@[text::name_list(names)[n - 1]].total_bytes
    }
}

/// Whether an action tells an adapter that a lesson is over.
pub open spec fn stops(a: Action, id: Seq<char>, lesson: Seq<char>, reason: Seq<char>) -> bool {
    a matches Action::Send { id: i, command: Command::StopLesson { lesson_id, reason: r } } && i@ == id && lesson_id@ == lesson
        && r@ == reason
}

/// Whether an action hands an adapter its parameters.
pub open spec fn configures(a: Action, h: AdapterHandle, data_dir: Seq<char>) -> bool {
    a matches Action::Send { id: i, command: Command::Configure { data_dir: d, params } } && i@ == h.id@ && d@ == data_dir
        && params@ == h.spec.decl.params@
}

/// Parameters for those of the first `n` adapters that were read anew and can be written to.
pub open spec fn configure_actions(
    acts: Seq<Action>,
    hs: Seq<AdapterHandle>,
    refreshed: Seq<bool>,
    data_dir: Seq<char>,
    n: int,
) -> bool
    decreases n,
{
    if n <= 0 {
        acts.len() == 0
    } else if refreshed[n - 1] && hs[n - 1].piped {
        acts.len() > 0 && configures(acts.last(), hs[n - 1], data_dir) && configure_actions(
            acts.drop_last(),
            hs,
            refreshed,
            data_dir,
            n - 1,
        )
    } else {
        configure_actions(acts, hs, refreshed, data_dir, n - 1)
    }
}

/// Parameters first, then the lesson for every adapter.
pub open spec fn start_actions(
    acts: Seq<Action>,
    hs: Seq<AdapterHandle>,
    refreshed: Seq<bool>,
    data_dir: Seq<char>,
    lesson: crate::schema::LessonView,
    n: int,
) -> bool {
    let c = acts.len() - n;
    &&& c >= 0
    &&& configure_actions(acts.take(c), hs, refreshed, data_dir, n)
    &&& forall|j: int| 0 <= j < n ==> starts(#[trigger] acts[c + j], hs[j].id@, lesson)
}

/// What follows once an event was stored.
pub open spec fn event_actions(acts: Seq<Action>, id: Seq<char>, out: Outcome, known: bool) -> bool {
    let a = match out.gap {
        Some(lost) => 1int,
        None => 0int,
    };
    &&& out.gap matches Some(lost) ==> acts.len() > 0 && says(
        acts[0],
        id + " seq 空洞：丢 "@ + dec(lost as int) + " 条（status="@ + taken_word(out.status) + "）"@,
    )
    &&& if out.kill {
        &&& acts.len() == a + (if known {
            2int
        } else {
            1int
        })
        &&& says(acts[a], id + " 超出预算，已终止且不再拉起"@)
        &&& known ==> (acts[a + 1] matches Action::Kill { id: i } && i@ == id)
    } else {
        acts.len() == a
    }
}

// ---------------------------------------------------------------------------------------------
// Uploads
// ---------------------------------------------------------------------------------------------

/// Whether `u` is the upload of a lesson's payload.
pub open spec fn is_upload(u: LessonUpload, id: Seq<char>, now_utc_ms: u64, version: Seq<char>, payload: JsonView) -> bool {
    &&& u.proto == PROTO
    &&& u.lesson_id@ == id
    &&& u.uploaded_at_utc_ms == now_utc_ms
    &&& u.source@ == "classagent-client "@ + version
    &&& u.ai_payload@ == payload
}

/// The upload of a lesson that was just folded.
pub fn upload_of(id: &str, payload: Json, now_utc_ms: u64, version: &str) -> (r: LessonUpload)
    ensures
        is_upload(r, id@, now_utc_ms, version@, payload@),
{
    let mut source = "classagent-client ".to_owned();
    source.append(version);
    LessonUpload {
        proto: PROTO,
        lesson_id: id.to_owned(),
        uploaded_at_utc_ms: now_utc_ms,
        source,
        ai_payload: payload,
    }
}

/// The upload of a lesson whose payload was exported before, or why its text is no document.
pub fn upload(id: &str, exported: &str, now_utc_ms: u64, version: &str) -> (r: Result<LessonUpload, String>)
    ensures
        match parsed(exported@) {
            Ok(v) => r matches Ok(u) && is_upload(u, id@, now_utc_ms, version@, v),
            Err(e) => r matches Err(m) && m@ == e,
        },
{
    match Json::parse(exported) {
        Ok(v) => Ok(upload_of(id, v, now_utc_ms, version)),
        Err(e) => Err(e),
    }
}

// ---------------------------------------------------------------------------------------------
// Time
// ---------------------------------------------------------------------------------------------

/// How long to wait for the next message while the rest of a lesson comes in: not past the limit,
/// and not longer than a silence. None where the time is up.
pub fn drain_wait(now_ms: u64, limit_ms: u64) -> (r: Option<u64>)
    ensures
        match r {
            Some(w) => now_ms < limit_ms && w == (if limit_ms - now_ms < QUIET_MS {
                limit_ms - now_ms
            } else {
                QUIET_MS as int
            }),
            None => now_ms >= limit_ms,
        },
{
    if now_ms >= limit_ms {
        None
    } else if limit_ms - now_ms < QUIET_MS {
        Some(limit_ms - now_ms)
    } else {
        Some(QUIET_MS)
    }
}

/// What is due at a turn of the loop.
#[derive(Debug, Clone, Copy, PartialEq, Eq, Structural)]
pub struct Turn {
    /// The time given to the run is up.
    pub expire: bool,
    /// The state is to be reported.
    pub report: bool,
}

/// What is due at a turn of the loop.
pub fn turn(now_ms: u64, deadline_ms: Option<u64>, last_report_ms: u64) -> (r: Turn)
    ensures
        r.expire == (deadline_ms matches Some(d) && now_ms >= d),
        r.report == (now_ms - last_report_ms >= REPORT_MS),
{
    Turn {
        expire: match deadline_ms {
            Some(d) => now_ms >= d,
            None => false,
        },
        report: now_ms >= last_report_ms && now_ms - last_report_ms >= REPORT_MS,
    }
}

// ---------------------------------------------------------------------------------------------
// Reports
// ---------------------------------------------------------------------------------------------

/// The status of a source in a report. The core itself is no process.
pub open spec fn shown_status(hs: Seq<AdapterHandle>, id: Seq<char>) -> Seq<char> {
    let k = place_of(hs, id);
    if id == "core"@ {
        "自身"@
    } else if k < hs.len() {
        status_word(hs[k].status)
    } else {
        "未装载"@
    }
}

/// The note on a source in a report.
pub open spec fn shown_note(hs: Seq<AdapterHandle>, id: Seq<char>) -> Seq<char> {
    let k = place_of(hs, id);
    if k < hs.len() {
        or_else(opt_view(hs[k].note), Seq::empty())
    } else {
        Seq::empty()
    }
}

/// A source in a report.
pub open spec fn source_line(hs: Seq<AdapterHandle>, id: Seq<char>, st: AdapterStat) -> Seq<char> {
    "  "@ + pad_right(id, 16, ' ') + " "@ + pad_right(shown_status(hs, id), 9, ' ') + " ev="@ + pad_right(
        dec(st.events as int),
        8,
        ' ',
    ) + " "@ + pad_left(size_text(st.bytes as int), 7, ' ') + " 丢失="@ + dec(st.lost_events as int) + " 超预算="@ + dec(
        st.exceeded as int,
    ) + " "@ + shown_note(hs, id)
}

/// A source in a report.
pub fn status_line(sup: &Supervisor, id: &str, st: AdapterStat) -> (r: String)
    ensures
        r@ == source_line(sup.handles@, id@, st),
{
    let mut s = "  ".to_owned();
    text::push_pad_right(&mut s, id, 16, ' ');
    s.append(" ");
    let found = sup.find(id);
    let word = if same(id, "core") {
        "自身"
    } else {
        match found {
            Some(h) => status_name(h.status),
            None => "未装载",
        }
    };
    text::push_pad_right(&mut s, word, 9, ' ');
    s.append(" ev=");
    text::push_pad_right(&mut s, text::dec_text(st.events).as_str(), 8, ' ');
    s.append(" ");
    text::push_pad_left(&mut s, readable::human_bytes(st.bytes).as_str(), 7, ' ');
    s.append(" 丢失=");
    text::push_dec(&mut s, st.lost_events);
    s.append(" 超预算=");
    text::push_dec(&mut s, st.exceeded);
    s.append(" ");
    let note = match found {
        Some(h) => match &h.note {
            Some(n) => n.clone(),
            None => String::new(),
        },
        None => String::new(),
    };
    assert(note@ =~= shown_note(sup.handles@, id@));
    s.append(note.as_str());
    s
}

/// The head of a report.
pub fn report_head(store: &Store, now_utc_ms: u64) -> (r: String)
    ensures
        r@ == "[client] "@ + day_time(now_utc_ms as int) + " 课="@ + (match store.meta {
            Some(m) => m.info.lesson_id@,
            None => "—"@,
        }) + " proto=v"@ + dec(PROTO as int),
{
    let mut s = "[client] ".to_owned();
    s.append(readable::hhmmss(now_utc_ms).as_str());
    s.append(" 课=");
    match &store.meta {
        Some(m) => s.append(m.info.lesson_id.as_str()),
        None => s.append("—"),
    }
    s.append(" proto=v");
    text::push_dec(&mut s, PROTO as u64);
    s
}

/// An adapter of which nothing came in yet, in a report.
pub fn unknown_line(h: &AdapterHandle) -> (r: String)
    ensures
        r@ == "  "@ + pad_right(h.id@, 16, ' ') + " "@ + status_word(h.status) + " "@ + or_else(
            opt_view(h.note),
            Seq::empty(),
        ),
{
    let mut s = "  ".to_owned();
    text::push_pad_right(&mut s, h.id.as_str(), 16, ' ');
    s.append(" ");
    s.append(status_name(h.status));
    s.append(" ");
    match &h.note {
        Some(n) => s.append(n.as_str()),
        None => {
            assert(s@ + Seq::<char>::empty() =~= s@);
        },
    }
    s
}

/// The alarm that a lesson has been open for a while and nothing came in.
pub open spec fn alarm(store: Store, total: int, now_us: u64) -> Option<Seq<char>> {
    match store.meta {
        Some(m) => {
            let age = crate::track::less_by(now_us as int, m.started_core_mono_us as int) / 1_000_000;
            if age >= SILENT_S && total == 0 {
                Some("  ！开课 "@ + dec(age) + " 秒仍收到 0 条事件：检查 --adapters 目录是否存在、里面的程序能不能起来"@)
            } else {
                None
            }
        },
        None => None,
    }
}

/// The alarm that a lesson has been open for a while and nothing came in.
pub fn silence_alarm(store: &Store, total: u128, now_us: u64) -> (r: Option<String>)
    ensures
        opt_view(r) == alarm(*store, total as int, now_us),
{
    match &store.meta {
        Some(m) => {
            let age: u64 = if now_us > m.started_core_mono_us {
                (now_us - m.started_core_mono_us) / 1_000_000
            } else {
                0
            };
            if age >= SILENT_S && total == 0 {
                let mut s = "  ！开课 ".to_owned();
                text::push_dec(&mut s, age);
                s.append(" 秒仍收到 0 条事件：检查 --adapters 目录是否存在、里面的程序能不能起来");
                Some(s)
            } else {
                None
            }
        },
        None => None,
    }
}

/// The report on the whole.
pub fn print_status(core: &Core, now_utc_ms: u64, now_us: u64) -> (r: Vec<String>)
    ensures
        is_report(views(r@), *core, now_utc_ms, now_us),
{
    let mut out: Vec<String> = Vec::new();
    let st = core.store.stats();
    let ghost ns = text::name_list(core.store.rates.names());
    let head = report_head(&core.store, now_utc_ms);
    text::push_text(&mut out, head);
    let ghost h = views(out@);
    assert(h.len() == 1);
    let mut i: usize = 0;
    assert(crate::table::entry_names(st@).len() == st@.len());
    assert(views(out@) =~= h + source_lines(*core, 0));
    while i < st.len()
        invariant
            i <= st@.len(),
            ns == text::name_list(core.store.rates.names()),
            crate::table::entry_names(st@) == ns,
            st@.len() == ns.len(),
            forall|q: int|
                0 <= q < st@.len() ==> self::stat_of(core.store, (#[trigger] st@[q]).0@) == st@[q].1,
            views(out@) == h + source_lines(*core, i as int),
        decreases st@.len() - i,
    {
        let ghost before = views(out@);
        assert(ns[i as int] == st@[i as int].0@);
        text::push_text(&mut out, status_line(&core.sup, st[i].0.as_str(), st[i].1));
        i += 1;
        assert(views(out@) =~= h + source_lines(*core, i as int));
    }
    let ghost mid = views(out@);
    let mut k: usize = 0;
    assert(views(out@) =~= mid + unknown_lines(*core, 0));
    while k < core.sup.handles.len()
        invariant
            k <= core.sup.handles@.len(),
            views(out@) == mid + unknown_lines(*core, k as int),
        decreases core.sup.handles@.len() - k,
    {
        if !core.store.known_source(core.sup.handles[k].id.as_str()) {
            text::push_text(&mut out, unknown_line(&core.sup.handles[k]));
        }
        k += 1;
        assert(views(out@) =~= mid + unknown_lines(*core, k as int));
    }
    let (total, bytes): (u128, u128) = core.totals();
    match silence_alarm(&core.store, total, now_us) {
        Some(s) => text::push_text(&mut out, s),
        None => {},
    }
    proof {
        let tail = match alarm(core.store, total as int, now_us) {
            Some(s) => seq![s],
            None => Seq::empty(),
        };
        assert(views(out@) =~= h + source_lines(*core, ns.len() as int) + unknown_lines(
            *core,
            core.sup.handles@.len() as int,
        ) + tail);
        assert(h[0] == head@);
        assert(h =~= seq![head@]);
    }
    out
}

/// The figures of a source.
pub open spec fn stat_of(s: Store, id: Seq<char>) -> AdapterStat {
    AdapterStat {
        events: s.rates@[id].total_events,
        bytes: s.rates@[id].total_bytes,
        exceeded: s.rates@[id].exceeded,
        lost_events: s.rates@[id].lost,
    }
}

/// The first `n` sources in a report.
pub open spec fn source_lines(c: Core, n: int) -> Seq<Seq<char>>
    decreases n,
{
    if n <= 0 {
        Seq::empty()
    } else {
        let id = text::name_list(c.store.rates.names())[n - 1];
        source_lines(c, n - 1).push(source_line(c.sup.handles@, id, stat_of(c.store, id)))
    }
}

/// Those of the first `n` adapters in a report of which nothing came in yet.
pub open spec fn unknown_lines(c: Core, n: int) -> Seq<Seq<char>>
    decreases n,
{
    if n <= 0 {
        Seq::empty()
    } else {
        let h = c.sup.handles@[n - 1];
        let r = unknown_lines(c, n - 1);
        if c.store.rates@.contains_key(h.id@) {
            r
        } else {
            r.push(
                "  "@ + pad_right(h.id@, 16, ' ') + " "@ + status_word(h.status) + " "@ + or_else(
                    opt_view(h.note),
                    Seq::empty(),
                ),
            )
        }
    }
}

/// Whether `r` is the report on the whole: a head, the sources by name, the adapters of which
/// nothing came in yet, and the alarm if there is one.
pub open spec fn is_report(r: Seq<Seq<char>>, c: Core, now_utc_ms: u64, now_us: u64) -> bool {
    let n = text::name_list(c.store.rates.names()).len() as int;
    let head = "[client] "@ + day_time(now_utc_ms as int) + " 课="@ + (match c.store.meta {
        Some(m) => m.info.lesson_id@,
        None => "—"@,
    }) + " proto=v"@ + dec(PROTO as int);
    let tail = match alarm(c.store, events_sum(c.store, c.store.rates.names(), n), now_us) {
        Some(s) => seq![s],
        None => Seq::empty(),
    };
    r == seq![head] + source_lines(c, n) + unknown_lines(c, c.sup.handles@.len() as int) + tail
}

/// An open lesson of which nothing came in is reported from its fifth second on, and no other is: as
/// soon as there is one event, or none is in progress, there is no alarm.
pub proof fn silent_lessons_are_reported(store: Store, total: int, now_us: u64)
    ensures
        alarm(store, total, now_us) is Some <==> (store.meta matches Some(m) && now_us >= m.started_core_mono_us + 5_000_000
            && total == 0),
{
}

proof fn lemma_sums(s: Store, names: Seq<Seq<char>>, n: int, i: int)
    requires
        0 <= i < n,
    ensures
        events_sum(s, names, n) >= s.rates@[text::name_list(names)[i]].total_events,
        bytes_sum(s, names, n) >= s.rates@[text::name_list(names)[i]].total_bytes,
    decreases n,
{
    lemma_sums_positive(s, names, n - 1);
    if i < n - 1 {
        lemma_sums(s, names, n - 1, i);
    }
}

proof fn lemma_sums_positive(s: Store, names: Seq<Seq<char>>, n: int)
    ensures
        events_sum(s, names, n) >= 0,
        bytes_sum(s, names, n) >= 0,
    decreases n,
{
    if n > 0 {
        lemma_sums_positive(s, names, n - 1);
    }
}

proof fn lemma_sums_nothing(s: Store, names: Seq<Seq<char>>, n: int)
    requires
        forall|i: int| 0 <= i < n ==> s.rates@[#[trigger] text::name_list(names)[i]].total_events == 0,
    ensures
        events_sum(s, names, n) == 0,
    decreases n,
{
    if n > 0 {
        lemma_sums_nothing(s, names, n - 1);
        assert(s.rates@[text::name_list(names)[n - 1]].total_events == 0);
    }
}

/// No source is left out of the totals: where one has sent something the totals are as much at least,
/// and where none has they are 0.
pub proof fn totals_have_every_source(s: Store, id: Seq<char>)
    requires
        s.rates.names().contains(id),
    ensures
        ({
            let names = s.rates.names();
            let n = text::name_list(names).len() as int;
            &&& events_sum(s, names, n) >= s.rates@[id].total_events
            &&& bytes_sum(s, names, n) >= s.rates@[id].total_bytes
            &&& (forall|k: Seq<char>| #[trigger] names.contains(k) ==> s.rates@[k].total_events == 0) ==> events_sum(s, names, n)
                == 0
        }),
{
    let names = s.rates.names();
    let l = text::name_list(names);
    text::name_list_is_sorted(names);
    assert(l.contains(id));
    let i = choose|i: int| 0 <= i < l.len() && l[i] == id;
    lemma_sums(s, names, l.len() as int, i);
    if forall|k: Seq<char>| #[trigger] names.contains(k) ==> s.rates@[k].total_events == 0 {
        assert forall|i: int| 0 <= i < l.len() implies s.rates@[#[trigger] l[i]].total_events == 0 by {
            assert(l.contains(l[i]));
            assert(names.contains(l[i]));
        }
        lemma_sums_nothing(s, names, l.len() as int);
    }
}

proof fn lemma_configured(acts: Seq<Action>, hs: Seq<AdapterHandle>, refreshed: Seq<bool>, data_dir: Seq<char>, n: int, i: int) -> (k: int)
    requires
        configure_actions(acts, hs, refreshed, data_dir, n),
        0 <= i < n,
        refreshed[i],
        hs[i].piped,
    ensures
        0 <= k < acts.len(),
        configures(acts[k], hs[i], data_dir),
    decreases n,
{
    if refreshed[n - 1] && hs[n - 1].piped {
        if i == n - 1 {
            acts.len() - 1
        } else {
            let k = lemma_configured(acts.drop_last(), hs, refreshed, data_dir, n - 1, i);
            assert(acts.drop_last()[k] == acts[k]);
            k
        }
    } else {
        lemma_configured(acts, hs, refreshed, data_dir, n - 1, i)
    }
}

/// Every adapter is told of a new lesson, and one whose parameters were read anew and that can be
/// written to is handed them before.
pub proof fn parameters_come_before_lessons(
    acts: Seq<Action>,
    hs: Seq<AdapterHandle>,
    refreshed: Seq<bool>,
    data_dir: Seq<char>,
    lesson: crate::schema::LessonView,
    i: int,
)
    requires
        start_actions(acts, hs, refreshed, data_dir, lesson, hs.len() as int),
        0 <= i < hs.len(),
    ensures
        exists|b: int| 0 <= b < acts.len() && #[trigger] starts(acts[b], hs[i].id@, lesson),
        refreshed[i] && hs[i].piped ==> exists|a: int, b: int|
            0 <= a < b < acts.len() && #[trigger] configures(acts[a], hs[i], data_dir) && #[trigger] starts(
                acts[b],
                hs[i].id@,
                lesson,
            ),
{
    let c = acts.len() - hs.len();
    assert(starts(acts[c + i], hs[i].id@, lesson));
    if refreshed[i] && hs[i].piped {
        let a = lemma_configured(acts.take(c), hs, refreshed, data_dir, hs.len() as int, i);
        assert(acts.take(c)[a] == acts[a]);
        assert(configures(acts[a], hs[i], data_dir));
    }
}

proof fn lemma_source_line_at(c: Core, n: int, i: int)
    requires
        0 <= i < n,
    ensures
        source_lines(c, n).len() == n,
        ({
            let id = text::name_list(c.store.rates.names())[i];
            source_lines(c, n)[i] == source_line(c.sup.handles@, id, stat_of(c.store, id))
        }),
    decreases n,
{
    if n > 1 {
        if i < n - 1 {
            lemma_source_line_at(c, n - 1, i);
        } else {
            lemma_source_line_at(c, n - 1, 0);
        }
    } else {
        assert(source_lines(c, 0).len() == 0);
    }
}

proof fn lemma_unknown_line_at(c: Core, n: int, j: int) -> (k: int)
    requires
        0 <= j < n <= c.sup.handles@.len(),
        !c.store.rates@.contains_key(c.sup.handles@[j].id@),
    ensures
        0 <= k < unknown_lines(c, n).len(),
        ({
            let h = c.sup.handles@[j];
            unknown_lines(c, n)[k] == "  "@ + pad_right(h.id@, 16, ' ') + " "@ + status_word(h.status) + " "@ + or_else(
                opt_view(h.note),
                Seq::empty(),
            )
        }),
    decreases n,
{
    if j < n - 1 {
        lemma_unknown_line_at(c, n - 1, j)
    } else {
        unknown_lines(c, n - 1).len() as int
    }
}

/// No source and no adapter is left out of a report: every source of which something is known has its
/// line with its figures, and every adapter of which nothing came in yet has one too.
pub proof fn reports_leave_nobody_out(r: Seq<Seq<char>>, c: Core, now_utc_ms: u64, now_us: u64, id: Seq<char>, j: int)
    requires
        is_report(r, c, now_utc_ms, now_us),
        c.store.rates.names().contains(id),
        0 <= j < c.sup.handles@.len(),
    ensures
        r.contains(source_line(c.sup.handles@, id, stat_of(c.store, id))),
        !c.store.rates@.contains_key(c.sup.handles@[j].id@) ==> r.contains(
            "  "@ + pad_right(c.sup.handles@[j].id@, 16, ' ') + " "@ + status_word(c.sup.handles@[j].status) + " "@ + or_else(
                opt_view(c.sup.handles@[j].note),
                Seq::empty(),
            ),
        ),
{
    let names = c.store.rates.names();
    let l = text::name_list(names);
    let n = l.len() as int;
    text::name_list_is_sorted(names);
    assert(l.contains(id));
    let i = choose|i: int| 0 <= i < l.len() && l[i] == id;
    lemma_source_line_at(c, n, i);
    assert(r[1 + i] == source_lines(c, n)[i]);
    if !c.store.rates@.contains_key(c.sup.handles@[j].id@) {
        let k = lemma_unknown_line_at(c, c.sup.handles@.len() as int, j);
        assert(r[1 + n + k] == unknown_lines(c, c.sup.handles@.len() as int)[k]);
    }
}

/// A lesson follows the one that its description names, and where it names none the one before it.
pub proof fn lessons_form_a_chain(v: JsonView, prev: Seq<char>, now_ms: u64, cw: Seq<crate::schema::CoursewareView>)
    ensures
        str_of(field(v, "prev_lesson_id"@)) matches Some(p) ==> lesson_of(v, Some(prev), now_ms, cw).prev_lesson_id == Some(p),
        str_of(field(v, "prev_lesson_id"@)) is None ==> lesson_of(v, Some(prev), now_ms, cw).prev_lesson_id == Some(prev),
        str_of(field(v, "lesson_id"@)) matches Some(id) ==> lesson_of(v, Some(prev), now_ms, cw).lesson_id == id,
        uint_of(field(v, "started_at_utc_ms"@)) is None ==> lesson_of(v, Some(prev), now_ms, cw).started_at_utc_ms == now_ms,
        lesson_of(v, Some(prev), now_ms, cw).courseware == cw,
        field(v, "params"@) matches Some(p) ==> lesson_of(v, Some(prev), now_ms, cw).params == p,
{
}

/// What follows from an event is told and done: a hole by its size, and whoever is to be killed is
/// killed; where there is neither nothing follows.
pub proof fn events_have_their_consequences(acts: Seq<Action>, id: Seq<char>, out: Outcome)
    requires
        event_actions(acts, id, out, true),
    ensures
        out.kill <==> exists|k: int| 0 <= k < acts.len() && (#[trigger] acts[k] matches Action::Kill { id: i } && i@ == id),
        out.gap is None && !out.kill ==> acts.len() == 0,
        out.gap matches Some(lost) ==> says(
            acts[0],
            id + " seq 空洞：丢 "@ + dec(lost as int) + " 条（status="@ + taken_word(out.status) + "）"@,
        ),
{
    let a = if out.gap is Some {
        1int
    } else {
        0int
    };
    if out.kill {
        assert(acts[a + 1] matches Action::Kill { id: i } && i@ == id);
    }
}

/// An adapter that is admitted joins the lesson in progress, if there is one, and one that is refused is
/// told no lesson; either way its admission is noted first.
pub proof fn late_adapters_join_the_lesson(
    acts: Seq<Action>,
    before: Core,
    id: Seq<char>,
    a: Admit,
    manifest: JsonView,
    os: Seq<char>,
    now_us: u64,
    now_utc_ms: u64,
)
    requires
        admission(acts, before, id, a, manifest, os, now_us, now_utc_ms),
        place_of(before.sup.handles@, id) < before.sup.handles@.len(),
    ensures
        acts[0] matches Action::Note { envelope } && envelope.kind@ == "core.admit"@ && field(envelope.payload@, "manifest"@)
            == Some(manifest),
        refusal(a, os) is None ==> (before.store.meta matches Some(m) ==> exists|k: int|
            0 <= k < acts.len() && #[trigger] starts(acts[k], id, m.info@)),
        refusal(a, os) is Some || before.store.meta is None ==> forall|k: int|
            0 <= k < acts.len() ==> !(#[trigger] acts[k] is Send),
        refusal(a, os) matches Some(why) ==> says(acts[1], id + " 拒绝装载："@ + why),
{
    if refusal(a, os) is None {
        match before.store.meta {
            Some(m) => {
                assert(starts(acts[2], id, m.info@));
            },
            None => {},
        }
    }
}

/// A line on the console is an order by its first word, whatever white space stands around it.
pub proof fn words_are_orders(o: Order, line: Seq<char>)
    requires
        is_order(o, line),
    ensures
        ({
            let l = trimmed(line);
            let w = head_of(l, ' ');
            &&& o is Nothing <==> l.len() == 0
            &&& l.len() > 0 ==> (o is Start <==> w == "start"@)
            &&& l.len() > 0 && w == "stop"@ ==> o is Stop
            &&& l.len() > 0 && w == "status"@ ==> o is Status
            &&& l.len() > 0 && (w == "quit"@ || w == "exit"@) ==> o is Quit
            &&& o is Stop ==> w == "stop"@
            &&& o is Status ==> w == "status"@
            &&& o is Quit ==> w == "quit"@ || w == "exit"@
            &&& o matches Order::Start { rest } ==> (tail_of(l, ' ') matches Some(t) ==> rest@ == t)
        }),
{
    reveal_strlit("start");
    reveal_strlit("stop");
    reveal_strlit("status");
    reveal_strlit("quit");
    reveal_strlit("exit");
    assert("start"@.len() == 5 && "stop"@.len() == 4 && "status"@.len() == 6 && "quit"@.len() == 4 && "exit"@.len() == 4);
    assert("stop"@[0] != "quit"@[0] && "stop"@[0] != "exit"@[0]);
    assert("stop"@ != "quit"@);
    assert("stop"@ != "exit"@);
}

} // verus!
