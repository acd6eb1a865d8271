//! The contract between the core, its adapters and the upload server: messages, payloads and the
//! records on disk.

use vstd::prelude::*;
use crate::json::Json;
use crate::json::JsonView;
use crate::text;
use crate::text::ascii_alnum;
use crate::text::chars_of;

verus! {

/// Version of the protocol that this library speaks.
pub const PROTO: u8 = 1;

/// A double, by its bit pattern.
#[derive(Debug, Clone, Copy, PartialEq, Eq, Structural)]
pub struct Real {
    pub bits: u64,
}

/// One event from an adapter.
#[derive(Debug, Clone)]
pub struct Envelope {
    pub proto: u8,
    /// Counts up from 1 within one life of the adapter.
    pub seq: u64,
    pub kind: String,
    /// The adapter's own monotonic clock.
    pub t_mono_us: u64,
    /// Start of the event on the lesson's own axis, in milliseconds.
    pub t_event_ms: Option<u64>,
    /// The adapter's idea of wall-clock time: kept, never trusted.
    pub t_utc_ms: Option<u64>,
    pub payload: Json,
}

/// The first thing an adapter says.
#[derive(Debug, Clone)]
pub struct Admit {
    pub proto: u8,
    pub adapter_id: String,
    pub version: String,
    pub manifest: Manifest,
}

/// What an adapter says of itself.
#[derive(Debug, Clone)]
pub struct Manifest {
    /// The kinds of event that it will send.
    pub produces: Vec<String>,
    /// The platforms it runs on.
    pub platforms: Vec<String>,
    /// Whether it waits for a lesson to start.
    pub needs_lesson: bool,
    pub budget: Budget,
    pub restart: RestartPolicy,
    pub notes: Vec<String>,
}

/// What happens to an adapter that sends more than its budget.
#[derive(Debug, Clone, Copy, PartialEq, Eq, Structural)]
pub enum Exceed {
    /// Only counted.
    Log,
    /// The record is marked, nothing is lost.
    Degrade,
    /// The adapter is killed and stays so.
    Kill,
}

/// How much an adapter may send in a second.
#[derive(Debug, Clone, Copy, PartialEq, Eq, Structural)]
pub struct Budget {
    pub max_events_per_s: u32,
    pub max_bytes_per_s: u64,
    pub on_exceed: Exceed,
}

/// How often, and how soon, a dead adapter is started again.
#[derive(Debug, Clone, Copy, PartialEq, Eq, Structural)]
pub struct RestartPolicy {
    pub max_retries: u32,
    pub backoff_ms: u64,
}

/// What the core says to an adapter.
#[derive(Debug, Clone)]
pub enum Command {
    Configure { data_dir: String, params: Json },
    StartLesson { lesson: LessonInfo },
    /// The lesson is over: the adapter sends what it still holds, closing record included.
    StopLesson { lesson_id: String, reason: String },
    /// The adapter is to leave by itself.
    Stop { reason: String },
}

/// One lesson, as adapters are told of it.
#[derive(Debug, Clone)]
pub struct LessonInfo {
    pub lesson_id: String,
    pub prev_lesson_id: Option<String>,
    pub subject: Option<String>,
    pub class: Option<String>,
    pub teacher: Option<String>,
    pub started_at_utc_ms: u64,
    pub courseware: Vec<CoursewareRef>,
    /// Where adapters put large binary pieces; events name the files only.
    pub blob_dir: String,
    pub params: Json,
}

/// One document of the lesson's courseware.
#[derive(Debug, Clone)]
pub struct CoursewareRef {
    pub doc_id: String,
    pub path: String,
    pub format: String,
    pub sha256: Option<String>,
}

/// A finished stroke of ink.
#[derive(Debug, Clone)]
pub struct StrokeCommit {
    pub stroke_id: String,
    pub page_id: String,
    pub tool: String,
    pub color: String,
    pub width: Real,
    pub layer: Option<String>,
    pub duration_ms: u64,
    /// `[x, y, pressure, dt_ms]` each.
    pub points: Vec<[Real; 4]>,
    pub bbox: Option<[Real; 4]>,
    /// How the board thinned the points out.
    pub decimation: Option<String>,
    /// `[scale, tx, ty]` of the page at that moment.
    pub viewport: Option<[Real; 3]>,
}

/// A stroke taken back.
#[derive(Debug, Clone)]
pub struct StrokeDelete {
    pub stroke_id: String,
    pub page_id: String,
    pub reason: String,
}

/// A board page coming to the front.
#[derive(Debug, Clone)]
pub struct PageActivate {
    pub page_id: String,
    pub index: u32,
    pub doc_id: Option<String>,
}

/// Something said.
#[derive(Debug, Clone)]
pub struct Utterance {
    pub t0_ms: u64,
    pub t1_ms: u64,
    pub speaker: String,
    pub text: String,
    pub confidence: Option<Real>,
    /// `[word, t0_ms, t1_ms]` each.
    pub words: Vec<[String; 3]>,
}

/// A piece of recorded sound, in a file of its own.
#[derive(Debug, Clone)]
pub struct AudioChunk {
    pub blob: String,
    pub len: u64,
    pub codec: String,
    pub sample_rate: u32,
    pub channels: u16,
    pub t0_ms: u64,
    pub dur_ms: u64,
    pub silent: bool,
}

/// A picture of the screen, in a file of its own.
#[derive(Debug, Clone)]
pub struct Keyframe {
    pub blob: String,
    pub len: u64,
    pub t_ms: u64,
    pub trigger: String,
    pub matched_doc_id: Option<String>,
    pub matched_page_id: Option<String>,
    pub matched_confidence: Option<Real>,
}

/// The answers to a questionnaire.
#[derive(Debug, Clone)]
pub struct EvalRecord {
    pub instrument: String,
    pub t_ms: u64,
    pub answers: Json,
}

/// How the core took a record.
#[derive(Debug, Clone, Copy, PartialEq, Eq, Structural)]
pub enum RecordStatus {
    Accepted,
    /// Sequence numbers are missing right before it; `gap` says how many.
    GapBefore,
    OverBudget,
    /// Its sequence number is not above the last one: the same event once more.
    Duplicate,
    /// Not understood; kept as it came in `raw`.
    Rejected,
}

/// One line of a lesson's event file.
#[derive(Debug, Clone)]
pub struct StoredRecord {
    /// Unique over all adapters.
    pub global_seq: u64,
    pub adapter_id: String,
    pub t_core_utc_ms: u64,
    pub t_core_mono_us: u64,
    pub status: RecordStatus,
    pub gap: Option<u64>,
    pub envelope: Envelope,
    /// The line itself, where it could not be read as an event.
    pub raw: Option<String>,
}

/// A lesson with its clock readings.
#[derive(Debug, Clone)]
pub struct LessonMeta {
    pub info: LessonInfo,
    pub started_core_mono_us: u64,
    pub ended_core_mono_us: Option<u64>,
    pub stop_reason: Option<String>,
}

/// What this place has installed: one adapter's declaration.
#[derive(Debug, Clone)]
pub struct AdapterDecl {
    pub id: String,
    pub argv: Vec<String>,
    pub cwd: Option<String>,
    pub enabled: bool,
    pub platforms: Vec<String>,
    pub params: Json,
}

/// One lesson on its way to the server.
#[derive(Debug, Clone)]
pub struct LessonUpload {
    pub proto: u8,
    pub lesson_id: String,
    pub uploaded_at_utc_ms: u64,
    pub source: String,
    pub ai_payload: Json,
}

/// The server's answer to an upload.
#[derive(Debug, Clone)]
pub struct IngestAck {
    pub ok: bool,
    pub proto: u8,
    pub lesson_id: String,
    /// Whether something was written.
    pub stored: bool,
    /// Whether the stored bytes were the same already.
    pub deduped: bool,
    pub received_at_utc_ms: u64,
    pub ai_request: String,
}

/// The action taken where a budget names none.
pub fn default_exceed() -> (r: Exceed)
    ensures
        r == Exceed::Degrade,
{
    Exceed::Degrade
}

/// An adapter is enabled where its declaration does not say.
pub fn default_true() -> (r: bool)
    ensures
        r,
{
    true
}

impl Default for Budget {
    fn default() -> (r: Self)
        ensures
            r == (Budget { max_events_per_s: 2_000, max_bytes_per_s: 8_000_000, on_exceed: Exceed::Degrade }),
    {
        Budget { max_events_per_s: 2_000, max_bytes_per_s: 8_000_000, on_exceed: Exceed::Degrade }
    }
}

impl Default for RestartPolicy {
    fn default() -> (r: Self)
        ensures
            r == (RestartPolicy { max_retries: 3, backoff_ms: 1_000 }),
    {
        RestartPolicy { max_retries: 3, backoff_ms: 1_000 }
    }
}

impl Default for Manifest {
    fn default() -> (r: Self)
        ensures
            r.produces@.len() == 0,
            r.platforms@.len() == 0,
            !r.needs_lesson,
            r.budget == (Budget { max_events_per_s: 2_000, max_bytes_per_s: 8_000_000, on_exceed: Exceed::Degrade }),
            r.restart == (RestartPolicy { max_retries: 3, backoff_ms: 1_000 }),
            r.notes@.len() == 0,
    {
        Manifest {
            produces: Vec::new(),
            platforms: Vec::new(),
            needs_lesson: false,
            budget: Budget::default(),
            restart: RestartPolicy::default(),
            notes: Vec::new(),
        }
    }
}

/// Microseconds since the process began, from the full-width reading of a monotonic clock.
pub fn mono_us(elapsed_us: u128) -> (r: u64)
    ensures
        r == elapsed_us % 0x1_0000_0000_0000_0000,
{
    (elapsed_us % 0x1_0000_0000_0000_0000) as u64
}

/// Milliseconds since the epoch, from a wall clock that may stand before it.
pub fn utc_ms(since_epoch_ms: Option<u128>) -> (r: u64)
    ensures
        r == (match since_epoch_ms {
            Some(ms) => ms % 0x1_0000_0000_0000_0000,
            None => 0,
        }),
{
    match since_epoch_ms {
        Some(ms) => (ms % 0x1_0000_0000_0000_0000) as u64,
        None => 0,
    }
}

impl Envelope {
    /// An event of this library's protocol, stamped with the two clocks.
    pub fn new(
        seq: u64,
        kind: &str,
        t_event_ms: Option<u64>,
        payload: Json,
        t_mono_us: u64,
        t_utc_ms: u64,
    ) -> (r: Envelope)
        ensures
            r.proto == PROTO,
            r.seq == seq,
            r.kind@ == kind@,
            r.t_mono_us == t_mono_us,
            r.t_event_ms == t_event_ms,
            r.t_utc_ms == Some(t_utc_ms),
            r.payload == payload,
    {
        Envelope {
            proto: PROTO,
            seq,
            kind: kind.to_owned(),
            t_mono_us,
            t_event_ms,
            t_utc_ms: Some(t_utc_ms),
            payload,
        }
    }
}

/// Whether `c` may stand in a file name that came from outside.
pub open spec fn safe_char(c: char) -> bool {
    ascii_alnum(c) || c == '-' || c == '_' || c == '.'
}

/// Whether a name from outside can be used as one component of a path.
pub open spec fn safe_name(s: Seq<char>) -> bool {
    &&& 0 < s.len() < 128
    &&& s != seq!['.']
    &&& s != seq!['.', '.']
    &&& forall|i: int| 0 <= i < s.len() ==> safe_char(#[trigger] s[i])
}

/// Whether a name from outside can be used as one component of a path: not empty, shorter than
/// 128 bytes, not a dot entry, and made of ASCII letters, digits, `-`, `_` and `.` only.
pub fn safe_component(s: &str) -> (r: bool)
    ensures
        r == safe_name(s@),
{
    let v = chars_of(s);
    let n: usize = v.len();
    if n == 0 || n >= 128 {
        return false;
    }
    let mut i: usize = 0;
    while i < n
        invariant
            i <= n == v@.len(),
            v@ == s@,
            forall|j: int| 0 <= j < i ==> safe_char(#[trigger] v@[j]),
        decreases n - i,
    {
        let c = v[i];
        if !(text::is_ascii_alnum(c) || c == '-' || c == '_' || c == '.') {
            return false;
        }
        i += 1;
    }
    if n == 1 && v[0] == '.' {
        assert(v@ =~= seq!['.']);
        return false;
    }
    if n == 2 && v[0] == '.' && v[1] == '.' {
        assert(v@ =~= seq!['.', '.']);
        return false;
    }
    proof {
        if s@ == seq!['.'] {
            assert(v@[0] == '.');
        }
        if s@ == seq!['.', '.'] {
            assert(v@[0] == '.' && v@[1] == '.');
        }
    }
    true
}

/// A safe name cannot leave the directory it is joined to: it is no dot entry and holds neither a
/// separator, nor a drive colon, nor a NUL.
pub proof fn safe_name_stays_inside(s: Seq<char>)
    requires
        safe_name(s),
    ensures
        s != seq!['.', '.'],
        s != seq!['.'],
        s.len() > 0,
        forall|i: int|
            0 <= i < s.len() ==> (#[trigger] s[i]) != '/' && s[i] != '\\' && s[i] != ':' && s[i] != '\0'
                && s[i] != '%',
{
    assert forall|i: int| 0 <= i < s.len() implies (#[trigger] s[i]) != '/' && s[i] != '\\' && s[i] != ':'
        && s[i] != '\0' && s[i] != '%' by {
        assert(safe_char(s[i]));
    }
}

/// What a courseware reference holds.
pub struct CoursewareView {
    pub doc_id: Seq<char>,
    pub path: Seq<char>,
    pub format: Seq<char>,
    pub sha256: Option<Seq<char>>,
}

/// What a lesson's description holds.
pub struct LessonView {
    pub lesson_id: Seq<char>,
    pub prev_lesson_id: Option<Seq<char>>,
    pub subject: Option<Seq<char>>,
    pub class: Option<Seq<char>>,
    pub teacher: Option<Seq<char>>,
    pub started_at_utc_ms: u64,
    pub courseware: Seq<CoursewareView>,
    pub blob_dir: Seq<char>,
    pub params: JsonView,
}

impl View for CoursewareRef {
    type V = CoursewareView;

    open spec fn view(&self) -> CoursewareView {
        CoursewareView {
            doc_id: self.doc_id@,
            path: self.path@,
            format: self.format@,
            sha256: text::opt_view(self.sha256),
        }
    }
}

impl View for LessonInfo {
    type V = LessonView;

    open spec fn view(&self) -> LessonView {
        LessonView {
            lesson_id: self.lesson_id@,
            prev_lesson_id: text::opt_view(self.prev_lesson_id),
            subject: text::opt_view(self.subject),
            class: text::opt_view(self.class),
            teacher: text::opt_view(self.teacher),
            started_at_utc_ms: self.started_at_utc_ms,
            courseware: self.courseware@.map_values(|c: CoursewareRef| c@),
            blob_dir: self.blob_dir@,
            params: self.params@,
        }
    }
}

impl LessonInfo {
    /// A copy of the description.
    pub fn copy(&self) -> (r: LessonInfo)
        ensures
            r@ == self@,
    {
        let mut courseware: Vec<CoursewareRef> = Vec::new();
        let mut i: usize = 0;
        while i < self.courseware.len()
            invariant
                i <= self.courseware@.len(),
                courseware@.len() == i,
                forall|j: int| 0 <= j < i ==> (#[trigger] courseware@[j])@ == self.courseware@[j]@,
            decreases self.courseware@.len() - i,
        {
            let c = &self.courseware[i];
            courseware.push(
                CoursewareRef {
                    doc_id: c.doc_id.clone(),
                    path: c.path.clone(),
                    format: c.format.clone(),
                    sha256: text::copy_opt(&c.sha256),
                },
            );
            i += 1;
        }
        assert(courseware@.map_values(|c: CoursewareRef| c@) =~= self.courseware@.map_values(
            |c: CoursewareRef| c@,
        ));
        LessonInfo {
            lesson_id: self.lesson_id.clone(),
            prev_lesson_id: text::copy_opt(&self.prev_lesson_id),
            subject: text::copy_opt(&self.subject),
            class: text::copy_opt(&self.class),
            teacher: text::copy_opt(&self.teacher),
            started_at_utc_ms: self.started_at_utc_ms,
            courseware,
            blob_dir: self.blob_dir.clone(),
            params: self.params.copy(),
        }
    }
}

/// One argument with the build directory put in, and `.exe` behind it where asked for.
pub open spec fn argument(a: Seq<char>, target: Seq<char>, exe: bool) -> Seq<char> {
    let s = text::replaced(a, "$TARGET_DIR"@, target);
    if exe && !text::ends(s, ".exe"@) {
        s + ".exe"@
    } else {
        s
    }
}

/// One argument with the build directory put in.
pub fn expand_arg(a: &str, target: &str) -> (r: String)
    ensures
        r@ == text::replaced(a@, "$TARGET_DIR"@, target@),
{
    proof {
        reveal_strlit("$TARGET_DIR");
    }
    text::replace(a, "$TARGET_DIR", target)
}

/// A command line with the build directory put in. On Windows a program whose path has no
/// extension gets `.exe`.
pub fn resolve_argv(argv: &[String], target: &str, windows: bool, bare: bool) -> (r: Vec<String>)
    ensures
        r@.len() == argv@.len(),
        forall|i: int|
            0 <= i < r@.len() ==> (#[trigger] r@[i])@ == argument(argv@[i]@, target@, i == 0 && windows && bare),
{
    let mut out: Vec<String> = Vec::new();
    let mut i: usize = 0;
    while i < argv.len()
        invariant
            i <= argv@.len(),
            out@.len() == i,
            forall|j: int|
                0 <= j < i ==> (#[trigger] out@[j])@ == argument(argv@[j]@, target@, j == 0 && windows && bare),
        decreases argv@.len() - i,
    {
        let mut s = expand_arg(argv[i].as_str(), target);
        if i == 0 && windows && bare && !text::ends_with(s.as_str(), ".exe") {
            s.append(".exe");
        }
        out.push(s);
        i += 1;
    }
    out
}

/// A program gets the extension that it lacks, where one is asked for, and no second one; an argument
/// without the name of the build directory stays as it is otherwise.
pub proof fn programs_get_their_extension(a: Seq<char>, target: Seq<char>)
    ensures
        text::ends(argument(a, target, true), ".exe"@),
        argument(a, target, false) == text::replaced(a, "$TARGET_DIR"@, target),
        text::ends(argument(a, target, false), ".exe"@) ==> argument(a, target, true) == argument(a, target, false),
{
    let s = text::replaced(a, "$TARGET_DIR"@, target);
    let e = ".exe"@;
    let t = s + e;
    assert(t.subrange(t.len() - e.len(), t.len() as int) =~= e);
}

/// The name of the build directory gives way to the directory wherever it stands, and what does not
/// hold it stays as it is.
pub proof fn build_directories_are_put_in(front: Seq<char>, rest: Seq<char>, target: Seq<char>)
    requires
        !front.contains('$'),
    ensures
        text::replaced(front + "$TARGET_DIR"@ + rest, "$TARGET_DIR"@, target) == front + target + text::replaced(
            rest,
            "$TARGET_DIR"@,
            target,
        ),
        text::replaced(front, "$TARGET_DIR"@, target) == front,
    decreases front.len(),
{
    reveal_strlit("$TARGET_DIR");
    let pat = "$TARGET_DIR"@;
    let s = front + pat + rest;
    if front.len() == 0 {
        assert(s =~= pat + rest);
        assert(s.subrange(0, pat.len() as int) =~= pat);
        assert(s.skip(pat.len() as int) =~= rest);
        assert(front + target + text::replaced(rest, pat, target) =~= target + text::replaced(rest, pat, target));
    } else {
        let f = front.drop_first();
        assert(front.contains(front[0]));
        if f.contains('$') {
            let i = choose|i: int| 0 <= i < f.len() && f[i] == '$';
            assert(front[i + 1] == '$');
            assert(front.contains('$'));
        }
        build_directories_are_put_in(f, rest, target);
        assert(s.drop_first() =~= f + pat + rest);
        if text::begins(s, pat) {
            assert(s.subrange(0, pat.len() as int)[0] == s[0]);
        }
        if text::begins(front, pat) {
            assert(front.subrange(0, pat.len() as int)[0] == front[0]);
        }
        assert(seq![front[0]] + f =~= front);
        assert(seq![s[0]] + (f + target + text::replaced(rest, pat, target)) =~= front + target + text::replaced(
            rest,
            pat,
            target,
        ));
    }
}

/// A name is safe exactly where it has one to a hundred and twenty-seven characters, all of them ASCII
/// letters, digits, hyphens, underscores or dots, and is not one of the two dot entries.
pub proof fn safe_names_are_plain(s: Seq<char>)
    ensures
        safe_name(s) <==> {
            &&& 1 <= s.len() <= 127
            &&& s != seq!['.']
            &&& s != seq!['.', '.']
            &&& forall|i: int|
                0 <= i < s.len() ==> ('a' <= #[trigger] s[i] <= 'z' || 'A' <= s[i] <= 'Z' || '0' <= s[i] <= '9' || s[i] == '-'
                    || s[i] == '_' || s[i] == '.')
        },
{
    assert forall|c: char| #[trigger] safe_char(c) <==> ('a' <= c <= 'z' || 'A' <= c <= 'Z' || '0' <= c <= '9' || c == '-' || c
        == '_' || c == '.') by {}
}

} // verus!
