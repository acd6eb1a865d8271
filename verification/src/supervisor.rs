//! The lives of adapter processes: admission, exit, restart with growing pauses, and stopping.
//!
//! Processes and pipes are somebody else's. This module decides what happens to an adapter when
//! one of them does something.

use vstd::prelude::*;
use crate::json::Json;
use crate::schema::AdapterDecl;
use crate::schema::Command;
use crate::schema::Admit;
use crate::schema::Manifest;
use crate::schema::RestartPolicy;
use crate::schema::PROTO;
use crate::text;
use crate::text::dec;
use crate::text::ends;
use crate::text::opt_view;
use crate::text::same;
use crate::text::text_le;
use crate::text::views;

verus! {

/// How many bad lines in a row are put up with.
pub const MAX_BAD_LINES: usize = 50;

/// A message to the core.
#[derive(Debug, Clone)]
pub enum Inbound {
    /// A line from an adapter.
    Line { adapter_id: String, value: Json },
    /// An adapter closed its output.
    Eof { adapter_id: String },
    Fault { adapter_id: String, msg: String },
    /// A line from the console.
    Console { line: String },
}

/// A declaration and where it came from.
#[derive(Debug, Clone)]
pub struct AdapterSpec {
    pub decl: AdapterDecl,
    pub decl_path: String,
}

/// Where an adapter is in its life.
#[derive(Debug, Clone, Copy, PartialEq, Eq, Structural)]
pub enum Status {
    /// Started, not yet admitted.
    Pending,
    Ready,
    /// Gone, to be started again.
    Backoff,
    Dead,
    /// Killed for going over its budget.
    Killed,
    Disabled,
    /// Gone as asked.
    Stopped,
}

/// An adapter.
#[derive(Debug, Clone)]
pub struct AdapterHandle {
    pub id: String,
    pub spec: AdapterSpec,
    pub status: Status,
    pub manifest: Option<Manifest>,
    pub restarts: u32,
    pub note: Option<String>,
    /// Whether it has a process.
    pub running: bool,
    /// Whether its process can be written to.
    pub piped: bool,
    /// When it may be started again.
    pub not_before_ms: Option<u128>,
    pub asked_to_stop: bool,
}

/// Whether an adapter says of itself that it does not run on platform `os`. One that names no
/// platform runs on all.
pub open spec fn runs_elsewhere(m: Manifest, os: Seq<char>) -> bool {
    m.platforms@.len() > 0 && !views(m.platforms@).contains(os)
}

/// Why an adapter is not admitted on platform `os`; none where it is.
pub open spec fn refusal(a: Admit, os: Seq<char>) -> Option<Seq<char>> {
    if a.proto != PROTO {
        Some(version_note(a.proto))
    } else if runs_elsewhere(a.manifest, os) {
        Some("本平台 "@ + os + " 未启用"@)
    } else {
        None
    }
}

/// What is changed in an adapter by admitting `a` on platform `os`.
pub open spec fn admitted(before: AdapterHandle, after: AdapterHandle, a: Admit, os: Seq<char>) -> bool {
    &&& after.id == before.id
    &&& after.spec == before.spec
    &&& after.restarts == before.restarts
    &&& after.running == before.running
    &&& after.piped == before.piped
    &&& after.not_before_ms == before.not_before_ms
    &&& after.asked_to_stop == before.asked_to_stop
    &&& opt_view(after.note) == refusal(a, os)
    &&& after.manifest == (if refusal(a, os) is None {
        Some(a.manifest)
    } else {
        before.manifest
    })
    &&& after.status == (if a.proto != PROTO {
        Status::Dead
    } else if runs_elsewhere(a.manifest, os) {
        Status::Disabled
    } else {
        Status::Ready
    })
}

/// The complaint about a protocol version.
pub open spec fn version_note(v: u8) -> Seq<char> {
    "协议版本不符：适配器报 v"@ + dec(v as int) + "，核心是 v"@ + dec(PROTO as int)
}

/// The restart policy of an adapter: its own, or the default until it has said.
pub open spec fn policy(m: Option<Manifest>) -> RestartPolicy {
    match m {
        Some(m) => m.restart,
        None => RestartPolicy { max_retries: 3, backoff_ms: 1_000 },
    }
}

/// Two to the power of the number of restarts, but not more than 32.
pub open spec fn growth(restarts: u32) -> int {
    if restarts == 0 {
        1
    } else if restarts == 1 {
        2
    } else if restarts == 2 {
        4
    } else if restarts == 3 {
        8
    } else if restarts == 4 {
        16
    } else {
        32
    }
}

/// The pause before the next start, in milliseconds.
pub open spec fn pause(p: RestartPolicy, restarts: u32) -> int {
    if p.backoff_ms * growth(restarts) > u64::MAX {
        u64::MAX as int
    } else {
        p.backoff_ms * growth(restarts)
    }
}

/// Where an adapter is after its process is gone.
pub open spec fn after_exit(h: AdapterHandle) -> Status {
    if h.asked_to_stop || h.status == Status::Killed || h.status == Status::Disabled {
        Status::Stopped
    } else if h.restarts < policy(h.manifest).max_retries {
        Status::Backoff
    } else {
        Status::Dead
    }
}

/// What is noted of an exit.
pub open spec fn exit_note(h: AdapterHandle, code: Seq<char>) -> Seq<char> {
    let s = "进程退出 "@ + code;
    if after_exit(h) == Status::Backoff {
        s + "，"@ + dec(pause(policy(h.manifest), h.restarts)) + "ms 后重启"@
    } else {
        s
    }
}

/// What is changed in an adapter by the exit of its process.
pub open spec fn gone(before: AdapterHandle, after: AdapterHandle, code: Seq<char>, now_ms: u64) -> bool {
    &&& after.id == before.id
    &&& after.spec == before.spec
    &&& after.manifest == before.manifest
    &&& after.restarts == before.restarts
    &&& after.asked_to_stop == before.asked_to_stop
    &&& !after.running
    &&& !after.piped
    &&& after.status == after_exit(before)
    &&& opt_view(after.note) == Some(exit_note(before, code))
    &&& after.not_before_ms == (if after_exit(before) == Status::Backoff {
        Some((now_ms + pause(policy(before.manifest), before.restarts)) as u128)
    } else {
        before.not_before_ms
    })
}

/// Whether an adapter is to be started again now.
pub open spec fn due(h: AdapterHandle, now_ms: u64) -> bool {
    h.status == Status::Backoff && (h.not_before_ms matches Some(at) && now_ms >= at)
}

impl AdapterHandle {
    /// An adapter whose process was started and has not said anything yet.
    pub fn pending(spec: AdapterSpec) -> (r: AdapterHandle)
        ensures
            r.id@ == spec.decl.id@,
            r.spec == spec,
            r.status == Status::Pending,
            r.manifest is None,
            r.restarts == 0,
            r.note is None,
            r.running,
            r.piped,
            r.not_before_ms is None,
            !r.asked_to_stop,
    {
        AdapterHandle {
            id: spec.decl.id.clone(),
            spec,
            status: Status::Pending,
            manifest: None,
            restarts: 0,
            note: None,
            running: true,
            piped: true,
            not_before_ms: None,
            asked_to_stop: false,
        }
    }

    /// Takes an adapter's word for what it is, on platform `os`. The refusal says why.
    pub fn accept(&mut self, a: Admit, os: &str) -> (r: Result<(), String>)
        ensures
            admitted(*old(self), *final(self), a, os@),
            match r {
                Ok(_) => refusal(a, os@) is None,
                Err(e) => refusal(a, os@) == Some(e@),
            },
    {
        if a.proto != PROTO {
            self.status = Status::Dead;
            let mut s = "协议版本不符：适配器报 v".to_owned();
            text::push_dec(&mut s, a.proto as u64);
            s.append("，核心是 v");
            text::push_dec(&mut s, PROTO as u64);
            self.note = Some(s.clone());
            return Err(s);
        }
        if a.manifest.platforms.len() > 0 && !text::lists(&a.manifest.platforms, os) {
            self.status = Status::Disabled;
            let mut s = "本平台 ".to_owned();
            s.append(os);
            s.append(" 未启用");
            self.note = Some(s.clone());
            return Err(s);
        }
        self.manifest = Some(a.manifest);
        self.status = Status::Ready;
        self.note = None;
        Ok(())
    }

    /// The restart policy: its own, or the default until it has said.
    pub fn restart_policy(&self) -> (r: RestartPolicy)
        ensures
            r == policy(self.manifest),
    {
        match &self.manifest {
            Some(m) => m.restart,
            None => RestartPolicy::default(),
        }
    }

    /// Takes note that the process is gone, and decides what follows.
    pub fn exited(&mut self, code: &str, now_ms: u64)
        ensures
            gone(*old(self), *final(self), code@, now_ms),
    {
        let mut note = "进程退出 ".to_owned();
        note.append(code);
        let p: RestartPolicy = self.restart_policy();
        self.running = false;
        self.piped = false;
        if self.asked_to_stop || self.status == Status::Killed || self.status == Status::Disabled {
            self.status = Status::Stopped;
        } else if self.restarts < p.max_retries {
            let delay: u64 = pause_of(p, self.restarts);
            self.not_before_ms = Some(now_ms as u128 + delay as u128);
            self.status = Status::Backoff;
            note.append("，");
            text::push_dec(&mut note, delay);
            note.append("ms 后重启");
        } else {
            self.status = Status::Dead;
        }
        self.note = Some(note);
    }

    /// Whether it is to be started again now.
    pub fn is_due(&self, now_ms: u64) -> (r: bool)
        ensures
            r == due(*self, now_ms),
    {
        match self.not_before_ms {
            Some(at) => self.status == Status::Backoff && now_ms as u128 >= at,
            None => false,
        }
    }

    /// Takes the place of a life that ended: one more restart.
    pub fn restarted(&mut self)
        requires
            old(self).restarts < u32::MAX,
        ensures
            final(self).id@ == old(self).spec.decl.id@,
            final(self).spec == old(self).spec,
            final(self).status == Status::Pending,
            final(self).manifest is None,
            final(self).restarts == old(self).restarts + 1,
            final(self).note is None,
            final(self).running,
            final(self).piped,
            final(self).not_before_ms is None,
            !final(self).asked_to_stop,
    {
        self.id = self.spec.decl.id.clone();
        self.status = Status::Pending;
        self.manifest = None;
        self.restarts = self.restarts + 1;
        self.note = None;
        self.running = true;
        self.piped = true;
        self.not_before_ms = None;
        self.asked_to_stop = false;
    }

    /// Takes note that it could not be started again.
    pub fn restart_failed(&mut self, e: &str)
        ensures
            final(self).status == Status::Dead,
            opt_view(final(self).note) == Some("重启失败："@ + e@),
            final(self).id == old(self).id,
            final(self).spec == old(self).spec,
            final(self).manifest == old(self).manifest,
            final(self).restarts == old(self).restarts,
            final(self).running == old(self).running,
            final(self).piped == old(self).piped,
            final(self).not_before_ms == old(self).not_before_ms,
            final(self).asked_to_stop == old(self).asked_to_stop,
    {
        self.status = Status::Dead;
        let mut s = "重启失败：".to_owned();
        s.append(e);
        self.note = Some(s);
    }

    /// Whether a command is to be written to it: not once it was asked to stop, and not without a
    /// pipe.
    pub fn takes_commands(&self) -> (r: bool)
        ensures
            r == (!self.asked_to_stop && self.piped),
    {
        !self.asked_to_stop && self.piped
    }

    /// Takes note that it was asked to stop; its pipe is closed with that.
    pub fn stopping(&mut self)
        ensures
            stopped(*old(self), *final(self)),
    {
        self.asked_to_stop = true;
        self.piped = false;
    }

    /// Takes note that it is being killed.
    pub fn kill(&mut self, why: &str)
        ensures
            killed(*old(self), *final(self), why@),
    {
        self.status = Status::Killed;
        self.note = Some(why.to_owned());
        self.piped = false;
    }

    /// Takes the parameters, and nothing else, out of a declaration read anew. Where it could not
    /// be read everything stays as it is. Says whether it could.
    pub fn refresh_params(&mut self, read: Option<AdapterDecl>) -> (r: bool)
        ensures
            r == (read is Some),
            refreshed(*old(self), *final(self), read),
    {
        match read {
            Some(d) => {
                self.spec.decl.params = d.params;
                true
            },
            None => false,
        }
    }
}

/// What is changed in an adapter by asking it to stop.
pub open spec fn stopped(before: AdapterHandle, after: AdapterHandle) -> bool {
    after == (AdapterHandle { asked_to_stop: true, piped: false, ..before })
}

/// What is changed in an adapter by killing it.
pub open spec fn killed(before: AdapterHandle, after: AdapterHandle, why: Seq<char>) -> bool {
    &&& after == (AdapterHandle { status: Status::Killed, note: after.note, piped: false, ..before })
    &&& opt_view(after.note) == Some(why)
}

/// What is changed in an adapter by reading its declaration anew: its parameters, where it could be
/// read, and nothing else.
pub open spec fn refreshed(before: AdapterHandle, after: AdapterHandle, read: Option<AdapterDecl>) -> bool {
    &&& after.spec.decl.params == (match read {
        Some(d) => d.params,
        None => before.spec.decl.params,
    })
    &&& after == (AdapterHandle { spec: after.spec, ..before })
    &&& after.spec == (AdapterSpec { decl: after.spec.decl, ..before.spec })
    &&& after.spec.decl == (AdapterDecl { params: after.spec.decl.params, ..before.spec.decl })
}

/// An adapter that could not be started.
pub fn placeholder(spec: AdapterSpec) -> (r: AdapterHandle)
    ensures
        r.id@ == spec.decl.id@,
        r.spec == spec,
        r.status == Status::Dead,
        r.manifest is None,
        r.restarts == 0,
        r.note is None,
        !r.running,
        !r.piped,
        r.not_before_ms is None,
        !r.asked_to_stop,
{
    AdapterHandle {
        id: spec.decl.id.clone(),
        spec,
        status: Status::Dead,
        manifest: None,
        restarts: 0,
        note: None,
        running: false,
        piped: false,
        not_before_ms: None,
        asked_to_stop: false,
    }
}

fn pause_of(p: RestartPolicy, restarts: u32) -> (r: u64)
    ensures
        r == pause(p, restarts),
{
    let g: u64 = if restarts == 0 {
        1
    } else if restarts == 1 {
        2
    } else if restarts == 2 {
        4
    } else if restarts == 3 {
        8
    } else if restarts == 4 {
        16
    } else {
        32
    };
    let x: u128 = p.backoff_ms as u128 * g as u128;
    if x > u64::MAX as u128 {
        u64::MAX
    } else {
        x as u64
    }
}

/// All adapters.
#[derive(Debug, Clone)]
pub struct Supervisor {
    pub handles: Vec<AdapterHandle>,
}

/// The position of the first adapter with a name, or their number if there is none.
pub open spec fn place_of(hs: Seq<AdapterHandle>, id: Seq<char>) -> int
    decreases hs.len(),
{
    if hs.len() == 0 || hs[0].id@ == id {
        0
    } else {
        1 + place_of(hs.drop_first(), id)
    }
}

/// The positions of the adapters among the first `n` that are to be started again now.
pub open spec fn due_places(hs: Seq<AdapterHandle>, now_ms: u64, n: int) -> Seq<int>
    decreases n,
{
    if n <= 0 {
        Seq::empty()
    } else if due(hs[n - 1], now_ms) {
        due_places(hs, now_ms, n - 1).push(n - 1)
    } else {
        due_places(hs, now_ms, n - 1)
    }
}

/// The names of those among the first `n` adapters whose process is gone.
pub open spec fn gone_names(hs: Seq<AdapterHandle>, exits: Seq<Option<String>>, n: int) -> Seq<Seq<char>>
    decreases n,
{
    if n <= 0 {
        Seq::empty()
    } else if hs[n - 1].running && exits[n - 1] is Some {
        gone_names(hs, exits, n - 1).push(hs[n - 1].id@)
    } else {
        gone_names(hs, exits, n - 1)
    }
}

/// Whether `r` refers to what `m` holds, if it holds anything.
pub open spec fn shows(r: Option<&Manifest>, m: Option<Manifest>) -> bool {
    match m {
        Some(x) => r == Some(&x),
        None => r is None,
    }
}

impl Supervisor {
    /// No adapters.
    pub fn new() -> (r: Supervisor)
        ensures
            r.handles@.len() == 0,
    {
        Supervisor { handles: Vec::new() }
    }

    /// Takes in an adapter: its start, or the reason why it failed.
    pub fn launch(&mut self, spec: AdapterSpec, started: Result<(), String>) -> (r: Result<(), String>)
        ensures
            final(self).handles@.len() == old(self).handles@.len() + 1,
            final(self).handles@.drop_last() == old(self).handles@,
            ({
                let h = final(self).handles@.last();
                &&& h.id@ == spec.decl.id@
                &&& h.spec == spec
                &&& h.manifest is None
                &&& h.restarts == 0
                &&& h.not_before_ms is None
                &&& !h.asked_to_stop
                &&& h.running == started is Ok
                &&& h.piped == started is Ok
                &&& match started {
                    Ok(_) => h.status == Status::Pending && h.note is None,
                    Err(e) => h.status == Status::Dead && opt_view(h.note) == Some(e@),
                }
            }),
            match started {
                Ok(_) => r is Ok,
                Err(e) => r matches Err(m) && m@ == e@,
            },
    {
        match started {
            Ok(_) => {
                self.handles.push(AdapterHandle::pending(spec));
                assert(self.handles@.drop_last() =~= old(self).handles@);
                Ok(())
            },
            Err(e) => {
                let mut h = placeholder(spec);
                h.note = Some(e.clone());
                self.handles.push(h);
                assert(self.handles@.drop_last() =~= old(self).handles@);
                Err(e)
            },
        }
    }

    /// The position of the first adapter with a name.
    pub fn position(&self, id: &str) -> (r: Option<usize>)
        ensures
            match r {
                Some(i) => i < self.handles@.len() && i == place_of(self.handles@, id@) && self.handles@[i as int].id@
                    == id@,
                None => place_of(self.handles@, id@) == self.handles@.len() && (forall|j: int|
                    0 <= j < self.handles@.len() ==> (#[trigger] self.handles@[j]).id@ != id@),
            },
    {
        let hs = &self.handles;
        let mut i: usize = 0;
        assert(hs@.skip(0) =~= hs@);
        while i < hs.len()
            invariant
                i <= hs@.len(),
                *hs == self.handles,
                place_of(hs@, id@) == i + place_of(hs@.skip(i as int), id@),
                forall|j: int| 0 <= j < i ==> (#[trigger] hs@[j]).id@ != id@,
            decreases hs@.len() - i,
        {
            if same(hs[i].id.as_str(), id) {
                assert(hs@.skip(i as int)[0] == hs@[i as int]);
                return Some(i);
            }
            assert(hs@.skip(i as int).drop_first() =~= hs@.skip(i + 1));
            i += 1;
        }
        None
    }

    /// The first adapter with a name.
    pub fn find(&self, id: &str) -> (r: Option<&AdapterHandle>)
        ensures
            match r {
                Some(h) => place_of(self.handles@, id@) < self.handles@.len() && *h == self.handles@[place_of(
                    self.handles@,
                    id@,
                )],
                None => place_of(self.handles@, id@) == self.handles@.len(),
            },
    {
        match self.position(id) {
            Some(i) => Some(&self.handles[i]),
            None => None,
        }
    }

    /// The names of all adapters.
    pub fn ids(&self) -> (r: Vec<String>)
        ensures
            r@.len() == self.handles@.len(),
            forall|i: int| 0 <= i < r@.len() ==> (#[trigger] r@[i])@ == self.handles@[i].id@,
    {
        let mut out: Vec<String> = Vec::new();
        let mut i: usize = 0;
        while i < self.handles.len()
            invariant
                i <= self.handles@.len(),
                out@.len() == i,
                forall|j: int| 0 <= j < i ==> (#[trigger] out@[j])@ == self.handles@[j].id@,
            decreases self.handles@.len() - i,
        {
            out.push(self.handles[i].id.clone());
            i += 1;
        }
        out
    }

    /// Where a command is to be written. Nowhere for an adapter that was asked to stop, or that
    /// cannot be written to; one that is asked to stop without being written to is noted at once.
    pub fn send(&mut self, id: &str, cmd: &Command) -> (r: Result<Option<usize>, String>)
        ensures
            ({
                let hs = old(self).handles@;
                let k = place_of(hs, id@);
                if k == hs.len() {
                    (r matches Err(e) && e@ == "无适配器 "@ + id@) && *final(self) == *old(self)
                } else if !hs[k].asked_to_stop && hs[k].piped {
                    (r matches Ok(Some(i)) && i == k) && *final(self) == *old(self)
                } else {
                    &&& r matches Ok(None)
                    &&& final(self).handles@.len() == hs.len()
                    &&& forall|j: int| 0 <= j < hs.len() && j != k ==> #[trigger] final(self).handles@[j] == hs[j]
                    &&& if cmd is Stop && !hs[k].asked_to_stop {
                        stopped(hs[k], final(self).handles@[k])
                    } else {
                        final(self).handles@[k] == hs[k]
                    }
                }
            }),
    {
        match self.position(id) {
            Some(k) => {
                if self.handles[k].takes_commands() {
                    return Ok(Some(k));
                }
                let asked = self.handles[k].asked_to_stop;
                if !asked {
                    self.sent(k, cmd);
                }
                Ok(None)
            },
            None => {
                let mut s = "无适配器 ".to_owned();
                s.append(id);
                Err(s)
            },
        }
    }

    /// Notes that a command was written: an adapter that was told to stop gets no other one.
    pub fn sent(&mut self, k: usize, cmd: &Command)
        requires
            k < old(self).handles@.len(),
        ensures
            final(self).handles@.len() == old(self).handles@.len(),
            forall|j: int|
                0 <= j < old(self).handles@.len() && j != k ==> #[trigger] final(self).handles@[j] == old(self).handles@[j],
            if cmd is Stop {
                stopped(old(self).handles@[k as int], final(self).handles@[k as int])
            } else {
                final(self).handles@[k as int] == old(self).handles@[k as int]
            },
    {
        match cmd {
            Command::Stop { reason } => {
                let h = &mut self.handles[k];
                h.stopping();
            },
            _ => {},
        }
    }

    /// The manifest of an adapter, once it has sent one.
    pub fn manifest_of(&self, id: &str) -> (r: Option<&Manifest>)
        ensures
            ({
                let k = place_of(self.handles@, id@);
                match r {
                    Some(m) => k < self.handles@.len() && self.handles@[k].manifest == Some(*m),
                    None => k == self.handles@.len() || self.handles@[k].manifest is None,
                }
            }),
    {
        match self.find(id) {
            Some(h) => match &h.manifest {
                Some(m) => Some(m),
                None => None,
            },
            None => None,
        }
    }

    /// All adapters with their status, their notes, what they said of themselves, and how often they
    /// were started again.
    pub fn status_table(&self) -> (r: Vec<(String, Status, Option<String>, Option<&Manifest>, u32)>)
        ensures
            r@.len() == self.handles@.len(),
            forall|i: int|
                0 <= i < r@.len() ==> (#[trigger] r@[i]).0@ == self.handles@[i].id@ && r@[i].1 == self.handles@[i].status
                    && opt_view(r@[i].2) == opt_view(self.handles@[i].note) && shows(r@[i].3, self.handles@[i].manifest)
                    && r@[i].4 == self.handles@[i].restarts,
    {
        let mut out: Vec<(String, Status, Option<String>, Option<&Manifest>, u32)> = Vec::new();
        let mut i: usize = 0;
        while i < self.handles.len()
            invariant
                i <= self.handles@.len(),
                out@.len() == i,
                forall|j: int|
                    0 <= j < i ==> (#[trigger] out@[j]).0@ == self.handles@[j].id@ && out@[j].1 == self.handles@[j].status
                        && opt_view(out@[j].2) == opt_view(self.handles@[j].note) && shows(
                        out@[j].3,
                        self.handles@[j].manifest,
                    ) && out@[j].4 == self.handles@[j].restarts,
            decreases self.handles@.len() - i,
        {
            let h = &self.handles[i];
            out.push((h.id.clone(), h.status, text::copy_opt(&h.note), h.manifest.as_ref(), h.restarts));
            i += 1;
        }
        out
    }

    /// Takes the parameters, and nothing else, out of declarations read anew; says of which adapters
    /// they could be read.
    pub fn reload_params(&mut self, reads: Vec<Option<AdapterDecl>>) -> (r: Vec<bool>)
        requires
            reads@.len() == old(self).handles@.len(),
        ensures
            r@.len() == reads@.len(),
            final(self).handles@.len() == old(self).handles@.len(),
            forall|i: int|
                #![trigger final(self).handles@[i]]
                0 <= i < reads@.len() ==> r@[i] == (reads@[i] is Some) && refreshed(
                    old(self).handles@[i],
                    final(self).handles@[i],
                    reads@[i],
                ),
    {
        let ghost all = reads@;
        let ghost before = self.handles@;
        let mut left = reads;
        let mut back: Vec<bool> = Vec::new();
        while left.len() > 0
            invariant
                left@.len() <= all.len(),
                left@ == all.take(left@.len() as int),
                all.len() == before.len(),
                self.handles@.len() == before.len(),
                back@.len() == all.len() - left@.len(),
                forall|i: int| 0 <= i < left@.len() ==> #[trigger] self.handles@[i] == before[i],
                forall|i: int|
                    #![trigger self.handles@[i]]
                    left@.len() <= i < all.len() ==> refreshed(before[i], self.handles@[i], all[i]),
                forall|j: int| 0 <= j < back@.len() ==> #[trigger] back@[j] == (all[all.len() - 1 - j] is Some),
            decreases left@.len(),
        {
            let k: usize = left.len() - 1;
            assert(left@[k as int] == all[k as int]);
            let read = left.pop();
            match read {
                Some(d) => {
                    let h = &mut self.handles[k];
                    let ok = h.refresh_params(d);
                    back.push(ok);
                },
                None => {},
            }
            assert(left@ =~= all.take(k as int));
        }
        let mut out: Vec<bool> = Vec::new();
        while back.len() > 0
            invariant
                back@.len() + out@.len() == all.len(),
                forall|j: int| 0 <= j < back@.len() ==> #[trigger] back@[j] == (all[all.len() - 1 - j] is Some),
                forall|j: int| 0 <= j < out@.len() ==> #[trigger] out@[j] == (all[j] is Some),
            decreases back@.len(),
        {
            let ghost n = back@.len();
            match back.pop() {
                Some(b) => out.push(b),
                None => {},
            }
        }
        out
    }

    /// Takes note of the processes that are gone; `exits` has the exit code of each. Gives the
    /// names of their adapters.
    pub fn reap(&mut self, exits: &Vec<Option<String>>, now_ms: u64) -> (r: Vec<String>)
        requires
            exits@.len() == old(self).handles@.len(),
        ensures
            final(self).handles@.len() == old(self).handles@.len(),
            forall|i: int| #![trigger final(self).handles@[i]]
                0 <= i < final(self).handles@.len() ==> match exits@[i] {
                    Some(code) => if old(self).handles@[i].running {
                        gone(old(self).handles@[i], final(self).handles@[i], code@, now_ms)
                    } else {
                        final(self).handles@[i] == old(self).handles@[i]
                    },
                    None => final(self).handles@[i] == old(self).handles@[i],
                },
            views(r@) == gone_names(old(self).handles@, exits@, exits@.len() as int),
    {
        let ghost before = self.handles@;
        let mut out: Vec<String> = Vec::new();
        let mut i: usize = 0;
        assert(views(out@) =~= Seq::<Seq<char>>::empty());
        while i < self.handles.len()
            invariant
                i <= self.handles@.len(),
                before == old(self).handles@,
                exits@.len() == before.len(),
                self.handles@.len() == before.len(),
                views(out@) == gone_names(before, exits@, i as int),
                forall|j: int| i <= j < before.len() ==> #[trigger] self.handles@[j] == before[j],
                forall|j: int| #![trigger self.handles@[j]]
                    0 <= j < i ==> match exits@[j] {
                        Some(code) => if before[j].running {
                            gone(before[j], self.handles@[j], code@, now_ms)
                        } else {
                            self.handles@[j] == before[j]
                        },
                        None => self.handles@[j] == before[j],
                    },
            decreases self.handles@.len() - i,
        {
            if self.handles[i].running {
                match &exits[i] {
                    Some(code) => {
                        let h = &mut self.handles[i];
                        h.exited(code.as_str(), now_ms);
                        text::push_text(&mut out, self.handles[i].id.clone());
                    },
                    None => {},
                }
            }
            i += 1;
        }
        out
    }

    /// The positions of the adapters that are to be started again now.
    pub fn respawn_due(&self, now_ms: u64) -> (r: Vec<usize>)
        ensures
            r@.map_values(|x: usize| x as int) == due_places(self.handles@, now_ms, self.handles@.len() as int),
    {
        let mut out: Vec<usize> = Vec::new();
        let mut i: usize = 0;
        assert(out@.map_values(|x: usize| x as int) =~= Seq::<int>::empty());
        while i < self.handles.len()
            invariant
                i <= self.handles@.len(),
                out@.map_values(|x: usize| x as int) == due_places(self.handles@, now_ms, i as int),
            decreases self.handles@.len() - i,
        {
            if self.handles[i].is_due(now_ms) {
                let ghost b = out@;
                out.push(i);
                assert(out@.map_values(|x: usize| x as int) =~= b.map_values(|x: usize| x as int).push(i as int));
            }
            i += 1;
        }
        out
    }
}

// ---------------------------------------------------------------------------------------------
// Declarations
// ---------------------------------------------------------------------------------------------

/// Whether a file name is that of a declaration.
pub fn is_declaration(name: &str) -> (r: bool)
    ensures
        r == ends(name@, ".adapter.json"@),
{
    text::ends_with(name, ".adapter.json")
}

/// Why a declaration is passed over; none where it is used.
pub open spec fn passed_over(d: AdapterDecl, os: Seq<char>) -> Option<Seq<char>> {
    if !d.enabled {
        Some(d.id@ + ": enabled=false"@)
    } else if d.platforms@.len() > 0 && !views(d.platforms@).contains(os) {
        Some(d.id@ + ": 本平台 "@ + os + " 未启用"@)
    } else {
        None
    }
}

/// Why a declaration is passed over: it is switched off, or names other platforms only.
pub fn skip_reason(d: &AdapterDecl, os: &str) -> (r: Option<String>)
    ensures
        opt_view(r) == passed_over(*d, os@),
{
    if !d.enabled {
        let mut s = d.id.clone();
        s.append(": enabled=false");
        return Some(s);
    }
    if d.platforms.len() > 0 && !text::lists(&d.platforms, os) {
        let mut s = d.id.clone();
        s.append(": 本平台 ");
        s.append(os);
        s.append(" 未启用");
        return Some(s);
    }
    None
}

/// Where a declaration goes among others that come by name.
pub open spec fn spec_slot(s: Seq<AdapterSpec>, id: Seq<char>) -> int
    decreases s.len(),
{
    if s.len() == 0 {
        0
    } else if text_le(s.last().decl.id@, id) {
        s.len() as int
    } else {
        spec_slot(s.drop_last(), id)
    }
}

/// Puts one more declaration among others that come by name.
pub fn discover(v: &mut Vec<AdapterSpec>, x: AdapterSpec)
    ensures
        final(v)@ == old(v)@.insert(spec_slot(old(v)@, x.decl.id@), x),
{
    let ghost s = v@;
    let mut k: usize = v.len();
    assert(s.take(s.len() as int) =~= s);
    while k > 0 && !text::not_after(v[k - 1].decl.id.as_str(), x.decl.id.as_str())
        invariant
            k <= v@.len(),
            s == v@,
            spec_slot(s, x.decl.id@) == spec_slot(s.take(k as int), x.decl.id@),
        decreases k,
    {
        proof {
            assert(s.take(k as int).drop_last() =~= s.take(k - 1));
            assert(s.take(k as int).last() == v@[k - 1]);
        }
        k -= 1;
    }
    proof {
        if k > 0 {
            assert(s.take(k as int).last() == v@[k - 1]);
        }
        assert(spec_slot(s, x.decl.id@) == k);
    }
    v.insert(k, x);
}

/// How many bad lines came in a row, and whether reading goes on: a good line starts the count
/// anew, and too many bad ones end it.
pub fn after_line(streak: usize, good: bool) -> (r: (usize, bool))
    requires
        streak <= MAX_BAD_LINES,
    ensures
        r.0 == (if good {
            0
        } else {
            streak + 1
        }),
        r.1 == (r.0 <= MAX_BAD_LINES),
{
    if good {
        (0, true)
    } else {
        (streak + 1, streak + 1 <= MAX_BAD_LINES)
    }
}

// ---------------------------------------------------------------------------------------------
// Laws
// ---------------------------------------------------------------------------------------------

/// An adapter that was killed, or asked to stop, is never started again: its exit leaves it
/// stopped, and a stopped adapter is never due.
pub proof fn stopped_stays_stopped(before: AdapterHandle, after: AdapterHandle, code: Seq<char>, now_ms: u64, later_ms: u64)
    requires
        gone(before, after, code, now_ms),
        before.asked_to_stop || before.status == Status::Killed || before.status == Status::Disabled,
    ensures
        after.status == Status::Stopped,
        !due(after, later_ms),
{
}

/// An adapter is started again at most as often as its policy allows: at the limit its exit
/// leaves it dead, and a dead adapter is never due.
pub proof fn restarts_are_bounded(before: AdapterHandle, after: AdapterHandle, code: Seq<char>, now_ms: u64, later_ms: u64)
    requires
        gone(before, after, code, now_ms),
        before.restarts >= policy(before.manifest).max_retries,
    ensures
        after.status == Status::Dead || after.status == Status::Stopped,
        !due(after, later_ms),
{
}

/// An adapter that is to be started again waits out its pause first.
pub proof fn pauses_are_kept(before: AdapterHandle, after: AdapterHandle, code: Seq<char>, now_ms: u64, later_ms: u64)
    requires
        gone(before, after, code, now_ms),
        after.status == Status::Backoff,
        now_ms + pause(policy(before.manifest), before.restarts) <= u64::MAX,
    ensures
        due(after, later_ms) <==> later_ms >= now_ms + pause(policy(before.manifest), before.restarts),
{
}

/// Pauses double with each restart, up to thirty-two times the first.
pub proof fn pauses_double(p: RestartPolicy, restarts: u32)
    requires
        restarts < u32::MAX,
        p.backoff_ms * 64 <= u64::MAX,
    ensures
        pause(p, 0) == p.backoff_ms,
        restarts < 5 ==> pause(p, (restarts + 1) as u32) == 2 * pause(p, restarts),
        restarts >= 5 ==> pause(p, restarts) == 32 * p.backoff_ms,
{
}

/// Whether declarations come by name.
pub open spec fn by_name(s: Seq<AdapterSpec>) -> bool {
    forall|i: int, j: int| 0 <= i <= j < s.len() ==> text_le(#[trigger] s[i].decl.id@, #[trigger] s[j].decl.id@)
}

proof fn lemma_spec_slot(s: Seq<AdapterSpec>, id: Seq<char>)
    requires
        by_name(s),
    ensures
        0 <= spec_slot(s, id) <= s.len(),
        forall|i: int| 0 <= i < spec_slot(s, id) ==> text_le(#[trigger] s[i].decl.id@, id),
        forall|i: int| spec_slot(s, id) <= i < s.len() ==> text_le(id, #[trigger] s[i].decl.id@),
    decreases s.len(),
{
    if s.len() > 0 {
        let l = s.last().decl.id@;
        if text_le(l, id) {
            assert forall|i: int| 0 <= i < s.len() implies text_le(#[trigger] s[i].decl.id@, id) by {
                assert(text_le(s[i].decl.id@, s[s.len() - 1].decl.id@));
                text::text_le_transitive(s[i].decl.id@, l, id);
            }
        } else {
            let t = s.drop_last();
            assert forall|i: int, j: int| 0 <= i <= j < t.len() implies text_le(
                #[trigger] t[i].decl.id@,
                #[trigger] t[j].decl.id@,
            ) by {
                assert(text_le(s[i].decl.id@, s[j].decl.id@));
            }
            lemma_spec_slot(t, id);
            text::text_le_total(l, id);
            assert forall|i: int| 0 <= i < spec_slot(s, id) implies text_le(#[trigger] s[i].decl.id@, id) by {
                assert(t[i] == s[i]);
            }
            assert forall|i: int| spec_slot(s, id) <= i < s.len() implies text_le(id, #[trigger] s[i].decl.id@) by {
                if i < t.len() {
                    assert(t[i] == s[i]);
                }
            }
        }
    }
}

/// Declarations stay in the order of their names, whatever order they are found in.
pub proof fn declarations_come_by_name(s: Seq<AdapterSpec>, x: AdapterSpec)
    requires
        by_name(s),
    ensures
        by_name(s.insert(spec_slot(s, x.decl.id@), x)),
{
    let id = x.decl.id@;
    lemma_spec_slot(s, id);
    let k = spec_slot(s, id);
    let t = s.insert(k, x);
    text::text_le_reflexive(id);
    assert forall|i: int, j: int| 0 <= i <= j < t.len() implies text_le(
        #[trigger] t[i].decl.id@,
        #[trigger] t[j].decl.id@,
    ) by {
        let a = if i < k {
            i
        } else {
            i - 1
        };
        let b = if j < k {
            j
        } else {
            j - 1
        };
        if i != k {
            assert(t[i] == s[a]);
        }
        if j != k {
            assert(t[j] == s[b]);
        }
        if i != k && j != k {
            assert(text_le(s[a].decl.id@, s[b].decl.id@));
        }
    }
}

/// A process that fails is started again: unless its adapter was asked to stop, was killed or is not
/// for this platform, its exit leaves it waiting as long as its policy allows one more start, and the
/// wait ends. Every time it is started the policy allows one start less.
pub proof fn failures_are_started_again(before: AdapterHandle, after: AdapterHandle, code: Seq<char>, now_ms: u64)
    requires
        gone(before, after, code, now_ms),
        !before.asked_to_stop,
        before.status != Status::Killed,
        before.status != Status::Disabled,
        before.manifest matches Some(m) ==> before.restarts < m.restart.max_retries,
        before.manifest is None ==> before.restarts < 3,
    ensures
        after.status == Status::Backoff,
        after.restarts == before.restarts,
        before.manifest is None && before.restarts == 0 ==> after.not_before_ms == Some((now_ms + 1_000) as u128),
        before.manifest matches Some(m) ==> (before.restarts == 0 ==> after.not_before_ms == Some(
            (now_ms + m.restart.backoff_ms) as u128,
        )),
        forall|later_ms: u64|
            after.not_before_ms matches Some(at) && (#[trigger] due(after, later_ms) <==> later_ms >= at),
{
}

/// An adapter is admitted exactly where it speaks this protocol and either names no platform or names
/// this one; only then is it ready and its word taken. The others are told why not, and their word is
/// not taken.
pub proof fn admissions_are_earned(before: AdapterHandle, after: AdapterHandle, a: Admit, os: Seq<char>)
    requires
        admitted(before, after, a, os),
    ensures
        ({
            let speaks = a.proto == PROTO;
            let here = a.manifest.platforms@.len() == 0 || views(a.manifest.platforms@).contains(os);
            &&& after.status == Status::Ready <==> speaks && here
            &&& after.status == Status::Dead <==> !speaks
            &&& after.status == Status::Disabled <==> speaks && !here
            &&& refusal(a, os) is None <==> speaks && here
            &&& speaks && here ==> after.manifest == Some(a.manifest) && after.note is None
            &&& !(speaks && here) ==> after.manifest == before.manifest && opt_view(after.note) == refusal(a, os)
        }),
{
}

/// A declaration is used exactly where it is switched on and either names no platform or names this
/// one.
pub proof fn declarations_are_used(d: AdapterDecl, os: Seq<char>)
    ensures
        passed_over(d, os) is None <==> d.enabled && (d.platforms@.len() == 0 || views(d.platforms@).contains(os)),
{
}

proof fn lemma_due_places(hs: Seq<AdapterHandle>, now_ms: u64, n: int, i: int)
    requires
        0 <= n <= hs.len(),
    ensures
        due_places(hs, now_ms, n).contains(i) <==> 0 <= i < n && due(hs[i], now_ms),
        forall|a: int, b: int|
            0 <= a < b < due_places(hs, now_ms, n).len() ==> #[trigger] due_places(hs, now_ms, n)[a] < #[trigger] due_places(
                hs,
                now_ms,
                n,
            )[b],
        forall|a: int| 0 <= a < due_places(hs, now_ms, n).len() ==> 0 <= #[trigger] due_places(hs, now_ms, n)[a] < n,
    decreases n,
{
    if n > 0 {
        lemma_due_places(hs, now_ms, n - 1, i);
        let r = due_places(hs, now_ms, n - 1);
        let s = due_places(hs, now_ms, n);
        if r.contains(i) {
            let k = choose|k: int| 0 <= k < r.len() && r[k] == i;
            assert(s[k] == i);
        }
        if s.contains(i) {
            let k = choose|k: int| 0 <= k < s.len() && s[k] == i;
            if k < r.len() {
                assert(r[k] == i);
            }
        }
        if i == n - 1 && due(hs[i], now_ms) {
            assert(s[r.len() as int] == i);
        }
    }
}

/// The adapters that are started now are those that are gone, waiting, and have waited long enough:
/// each of them once, and no other.
pub proof fn those_due_are_started(hs: Seq<AdapterHandle>, now_ms: u64, i: int)
    requires
        0 <= i < hs.len(),
    ensures
        due_places(hs, now_ms, hs.len() as int).contains(i) <==> hs[i].status == Status::Backoff && (hs[i].not_before_ms matches Some(
            at,
        ) && at <= now_ms),
        due_places(hs, now_ms, hs.len() as int).no_duplicates(),
{
    lemma_due_places(hs, now_ms, hs.len() as int, i);
}

/// The first adapter with a name is the one that is meant by it.
pub proof fn names_mean_the_first(hs: Seq<AdapterHandle>, id: Seq<char>, i: int)
    requires
        0 <= i <= hs.len(),
        i < hs.len() ==> hs[i].id@ == id,
        forall|j: int| 0 <= j < i ==> (#[trigger] hs[j]).id@ != id,
    ensures
        place_of(hs, id) == i,
    decreases hs.len(),
{
    if hs.len() > 0 && i > 0 {
        let t = hs.drop_first();
        assert(hs[0].id@ != id);
        assert forall|j: int| 0 <= j < i - 1 implies (#[trigger] t[j]).id@ != id by {
            assert(t[j] == hs[j + 1]);
        }
        if i < hs.len() {
            assert(t[i - 1] == hs[i]);
        }
        names_mean_the_first(t, id, i - 1);
    }
}

proof fn lemma_gone_names(hs: Seq<AdapterHandle>, exits: Seq<Option<String>>, n: int, i: int)
    requires
        0 <= i < n <= hs.len(),
        hs[i].running,
        exits[i] is Some,
    ensures
        gone_names(hs, exits, n).contains(hs[i].id@),
    decreases n,
{
    let r = gone_names(hs, exits, n - 1);
    let s = gone_names(hs, exits, n);
    if i < n - 1 {
        lemma_gone_names(hs, exits, n - 1, i);
        let k = choose|k: int| 0 <= k < r.len() && r[k] == hs[i].id@;
        assert(s[k] == hs[i].id@);
    } else {
        assert(s[r.len() as int] == hs[i].id@);
    }
}

/// No exit is passed over: an adapter whose process ran and is gone is named.
pub proof fn exits_are_told(hs: Seq<AdapterHandle>, exits: Seq<Option<String>>, i: int)
    requires
        0 <= i < hs.len(),
        hs[i].running,
        exits[i] is Some,
    ensures
        gone_names(hs, exits, hs.len() as int).contains(hs[i].id@),
{
    lemma_gone_names(hs, exits, hs.len() as int, i);
}

/// What is noted of an exit says when the adapter is started again, where it is.
pub proof fn exits_are_noted(h: AdapterHandle, code: Seq<char>)
    ensures
        h.asked_to_stop ==> exit_note(h, code) == "进程退出 "@ + code,
        !h.asked_to_stop && h.status == Status::Ready && h.restarts < policy(h.manifest).max_retries ==> exit_note(h, code)
            == "进程退出 "@ + code + "，"@ + dec(pause(policy(h.manifest), h.restarts)) + "ms 后重启"@,
{
}

/// An adapter that is killed or asked to stop gets no more commands, and nothing else of it changes but
/// what is noted.
pub proof fn dismissed_adapters_are_cut_off(before: AdapterHandle, asked: AdapterHandle, shot: AdapterHandle, why: Seq<char>)
    requires
        stopped(before, asked),
        killed(before, shot, why),
    ensures
        asked.asked_to_stop,
        !asked.piped,
        asked.status == before.status && asked.running == before.running && asked.restarts == before.restarts,
        shot.status == Status::Killed,
        !shot.piped,
        opt_view(shot.note) == Some(why),
        shot.running == before.running && shot.restarts == before.restarts && shot.manifest == before.manifest,
{
}

/// Reading a declaration anew changes the parameters of an adapter, and nothing of how it is started: not
/// its name, its command line, its platforms or its switch. One that could not be read changes nothing.
pub proof fn declarations_change_parameters_alone(before: AdapterHandle, after: AdapterHandle, read: Option<AdapterDecl>)
    requires
        refreshed(before, after, read),
    ensures
        read matches Some(d) ==> after.spec.decl.params == d.params,
        read is None ==> after == before,
        after.id == before.id,
        after.status == before.status,
        after.spec.decl.id == before.spec.decl.id,
        after.spec.decl.argv == before.spec.decl.argv,
        after.spec.decl.platforms == before.spec.decl.platforms,
        after.spec.decl.enabled == before.spec.decl.enabled,
        after.spec.decl_path == before.spec.decl_path,
{
}

} // verus!
