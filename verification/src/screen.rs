//! Key frames of a lesson: what of a screen is kept, and what is told of it.
//!
//! Only change is kept. Two thresholds catch what the other one misses, a pause keeps a scrolling
//! page from filling a lesson, and limits keep a lesson from filling a disk.

use vstd::prelude::*;
use crate::capture::Frame;
use crate::gray;
use crate::gray::fits_words;
use crate::gray::fitted_size;
use crate::gray::grid_of;
use crate::gray::half;
use crate::gray::half_plane;
use crate::gray::most;
use crate::gray::resized;
use crate::gray::too_large;
use crate::json::bool_of;
use crate::json::field;
use crate::json::json_views;
use crate::json::put;
use crate::json::str_of;
use crate::json::uint_of;
use crate::json::Json;
use crate::json::JsonView;
use crate::json::NumberView;
use crate::phash;
use crate::phash::border;
use crate::phash::changed;
use crate::phash::distance;
use crate::phash::is_bbox;
use crate::phash::mean_apart;
use crate::phash::rises;
use crate::pngio;
use crate::text;
use crate::text::dec;
use crate::text::opt_view;
use crate::text::pad_left;
use crate::track::or_else;

verus! {

/// The name of this source.
pub const ID: &'static str = "a-screen";

/// Columns of the grid that tells where a screen changed.
pub const BBOX_COLS: usize = 16;

/// Rows of that grid.
pub const BBOX_ROWS: usize = 9;

/// By how much a cell of that grid may differ without having changed.
pub const BBOX_TOL: u8 = 8;

/// How a lesson is captured.
#[derive(Debug, Clone)]
pub struct Cfg {
    pub capture: String,
    pub monitor: usize,
    pub poll_ms: u64,
    pub min_interval_ms: u64,
    pub min_dist: u32,
    pub min_mad: u32,
    pub max_width: usize,
    pub max_frames: u64,
    pub max_bytes: u64,
    pub emit_dirty: bool,
}

/// A number out of the parameters, or what stands in for it.
pub open spec fn num(p: JsonView, k: Seq<char>, d: u64) -> u64 {
    match field(p, "screen"@) {
        Some(s) => match uint_of(field(s, k)) {
            Some(v) => v,
            None => d,
        },
        None => d,
    }
}

/// Whether a configuration is the one that parameters ask for.
pub open spec fn is_cfg(c: Cfg, p: JsonView) -> bool {
    &&& c.capture@ == or_else(str_of(field(p, "capture"@)), "auto"@)
    &&& c.monitor == (match uint_of(field(p, "monitor"@)) {
        Some(m) => m as usize,
        None => 0,
    })
    &&& c.poll_ms == most(num(p, "poll_ms"@, 200) as int, 1)
    &&& c.min_interval_ms == num(p, "min_interval_ms"@, 500)
    &&& c.min_dist == gray::least(num(p, "min_dist"@, 6) as int, 64)
    &&& c.min_mad == gray::least(num(p, "min_mad"@, 4) as int, 255)
    &&& c.max_width == num(p, "max_width"@, 0) as usize
    &&& c.max_frames == num(p, "max_frames_per_lesson"@, 0)
    &&& c.max_bytes == num(p, "max_bytes_per_lesson"@, 0)
    &&& c.emit_dirty == (match field(p, "screen"@) {
        Some(s) => match bool_of(field(s, "emit_dirty"@)) {
            Some(b) => b,
            None => true,
        },
        None => true,
    })
}

impl Default for Cfg {
    /// As dense as it gets: no limits, no scaling.
    fn default() -> (r: Cfg)
        ensures
            r.capture@ == "auto"@,
            r.monitor == 0,
            r.poll_ms == 200,
            r.min_interval_ms == 500,
            r.min_dist == 6,
            r.min_mad == 4,
            r.max_width == 0,
            r.max_frames == 0,
            r.max_bytes == 0,
            r.emit_dirty,
    {
        Cfg {
            capture: "auto".to_owned(),
            monitor: 0,
            poll_ms: 200,
            min_interval_ms: 500,
            min_dist: 6,
            min_mad: 4,
            max_width: 0,
            max_frames: 0,
            max_bytes: 0,
            emit_dirty: true,
        }
    }
}

fn num_at(p: &Json, k: &str, d: u64) -> (r: u64)
    ensures
        r == num(p@, k@, d),
{
    match p.get("screen") {
        Some(s) => match s.u64_at(k) {
            Some(v) => v,
            None => d,
        },
        None => d,
    }
}

impl Cfg {
    /// How parameters ask for a lesson to be captured. What they leave out is as by default, and
    /// thresholds past what can be are held to it.
    pub fn from_params(p: &Json) -> (r: Cfg)
        ensures
            is_cfg(r, p@),
    {
        let d = Cfg::default();
        let poll: u64 = num_at(p, "poll_ms", d.poll_ms);
        let dist: u64 = num_at(p, "min_dist", d.min_dist as u64);
        let mad: u64 = num_at(p, "min_mad", d.min_mad as u64);
        Cfg {
            capture: match p.str_at("capture") {
                Some(s) => s.to_owned(),
                None => "auto".to_owned(),
            },
            monitor: match p.u64_at("monitor") {
                Some(m) => m as usize,
                None => 0,
            },
            poll_ms: if poll < 1 {
                1
            } else {
                poll
            },
            min_interval_ms: num_at(p, "min_interval_ms", d.min_interval_ms),
            min_dist: if dist < 64 {
                dist as u32
            } else {
                64
            },
            min_mad: if mad < 255 {
                mad as u32
            } else {
                255
            },
            max_width: num_at(p, "max_width", d.max_width as u64) as usize,
            max_frames: num_at(p, "max_frames_per_lesson", d.max_frames),
            max_bytes: num_at(p, "max_bytes_per_lesson", d.max_bytes),
            emit_dirty: match p.get("screen") {
                Some(s) => match s.get("emit_dirty") {
                    Some(b) => match b.as_bool() {
                        Some(b) => b,
                        None => d.emit_dirty,
                    },
                    None => d.emit_dirty,
                },
                None => d.emit_dirty,
            },
        }
    }

    /// What a session tells of its configuration.
    pub fn json(&self) -> (r: Json)
        ensures
            r@ == cfg_view(*self),
    {
        let mut o: Vec<(String, Json)> = Vec::new();
        put(&mut o, "poll_ms", Json::uint(self.poll_ms));
        put(&mut o, "min_interval_ms", Json::uint(self.min_interval_ms));
        put(&mut o, "min_dist", Json::uint(self.min_dist as u64));
        put(&mut o, "min_mad", Json::uint(self.min_mad as u64));
        put(&mut o, "max_width", Json::uint(self.max_width as u64));
        put(&mut o, "max_frames_per_lesson", Json::uint(self.max_frames));
        put(&mut o, "max_bytes_per_lesson", Json::uint(self.max_bytes));
        put(&mut o, "emit_dirty", Json::Bool(self.emit_dirty));
        put(&mut o, "bbox", Json::text("16x9"));
        Json::object(o)
    }
}

/// The document of a number.
pub open spec fn number(n: int) -> JsonView {
    JsonView::Number(NumberView::Pos(n as u64))
}

/// What a session tells of its configuration.
pub open spec fn cfg_view(c: Cfg) -> JsonView {
    JsonView::Obj(
        Map::<Seq<char>, JsonView>::empty().insert("poll_ms"@, number(c.poll_ms as int)).insert(
            "min_interval_ms"@,
            number(c.min_interval_ms as int),
        ).insert("min_dist"@, number(c.min_dist as int)).insert("min_mad"@, number(c.min_mad as int)).insert(
            "max_width"@,
            number(c.max_width as int),
        ).insert("max_frames_per_lesson"@, number(c.max_frames as int)).insert(
            "max_bytes_per_lesson"@,
            number(c.max_bytes as int),
        ).insert("emit_dirty"@, JsonView::Bool(c.emit_dirty)).insert("bbox"@, JsonView::Str("16x9"@)),
    )
}

// ---------------------------------------------------------------------------------------------
// Where frames come from
// ---------------------------------------------------------------------------------------------

/// Whether parameters ask for recorded frames, and where those are.
pub open spec fn replay(p: JsonView) -> (bool, Option<Seq<char>>) {
    let dir = match field(p, "fixture_dir"@) {
        Some(d) => str_of(Some(d)),
        None => str_of(field(p, "fixture"@)),
    };
    let source = str_of(field(p, "source"@));
    (
        if source == Some("device"@) {
            false
        } else if source == Some("fixture"@) {
            true
        } else {
            dir is Some
        },
        dir,
    )
}

/// Whether parameters ask for recorded frames, and where those are.
pub fn replays(p: &Json) -> (r: (bool, Option<String>))
    ensures
        (r.0, opt_view(r.1)) == replay(p@),
{
    let dir = match p.get("fixture_dir") {
        Some(d) => match d.as_str() {
            Some(s) => Some(s.to_owned()),
            None => None,
        },
        None => match p.str_at("fixture") {
            Some(s) => Some(s.to_owned()),
            None => None,
        },
    };
    let source = match p.str_at("source") {
        Some(s) => if text::same(s, "device") {
            false
        } else if text::same(s, "fixture") {
            true
        } else {
            dir.is_some()
        },
        None => dir.is_some(),
    };
    (source, dir)
}

/// Whether a file is a recorded frame, by its name.
pub open spec fn is_recorded(name: Seq<char>) -> bool {
    let tail = text::behind_last(name, '.');
    tail.len() + 1 < name.len() && text::lowered(tail) == "png"@
}

/// Those of the first `n` names that are recorded frames.
pub open spec fn recorded(names: Seq<Seq<char>>, n: int) -> Seq<Seq<char>>
    decreases n,
{
    if n <= 0 {
        Seq::empty()
    } else if is_recorded(names[n - 1]) {
        recorded(names, n - 1).push(names[n - 1])
    } else {
        recorded(names, n - 1)
    }
}

/// The recorded frames among the files of a directory, by name: that is their order in time.
pub fn playlist(names: &Vec<String>) -> (r: Vec<String>)
    ensures
        text::views(r@) == text::name_list(recorded(text::views(names@), names@.len() as int)),
{
    let mut out: Vec<String> = Vec::new();
    let mut i: usize = 0;
    let ghost all = text::views(names@);
    assert(text::views(out@) =~= text::name_list(recorded(all, 0)));
    while i < names.len()
        invariant
            i <= names@.len(),
            all == text::views(names@),
            text::views(out@) == text::name_list(recorded(all, i as int)),
        decreases names@.len() - i,
    {
        let name = names[i].as_str();
        assert(all[i as int] == name@);
        let tail = text::after_last(name, '.');
        let long = text::chars_of(name).len();
        let short = text::chars_of(tail.as_str()).len();
        if short < long && long - short > 1 && text::same(text::to_lower(tail.as_str()).as_str(), "png") {
            text::insert_name(&mut out, name);
        }
        proof {
            let before = recorded(all, i as int);
            let after = recorded(all, i + 1);
            if is_recorded(all[i as int]) {
                assert(after.drop_last() =~= before);
            }
        }
        i += 1;
    }
    out
}

/// What is told where recorded frames cannot be had.
pub fn no_frames(why: &str) -> (r: String)
    ensures
        r@ == "读不到 fixture："@ + why@,
{
    let mut s = "读不到 fixture：".to_owned();
    s.append(why);
    s
}

// ---------------------------------------------------------------------------------------------
// Sessions
// ---------------------------------------------------------------------------------------------

/// The capture of one lesson.
#[derive(Debug, Clone)]
pub struct Session {
    pub lesson_id: String,
    pub cfg: Cfg,
    /// The grids and the hash of the last frame that was kept, and of no other: a page that
    /// changes bit by bit has to add up.
    pub prev: Option<Seen>,
    pub last_emit_ms: i64,
    pub frames: u64,
    pub bytes: u64,
    pub polls: u64,
    pub unchanged: u64,
    pub throttled: u64,
    pub capped: u64,
    pub skipped: u64,
    pub failed: Option<String>,
    pub request_stop: bool,
    pub done: bool,
    pub closed: bool,
    pub opened: bool,
}

/// What is remembered of a frame.
#[derive(Debug, Clone)]
pub struct Seen {
    pub grid: Vec<u8>,
    pub bbox: Vec<u8>,
    pub hash: u64,
}

/// A frame that is to be kept.
#[derive(Debug, Clone)]
pub struct Shot {
    pub at_ms: u64,
    pub trigger: String,
    /// How far it is from the last one, in bits; nothing for the first.
    pub dist: Option<u32>,
    /// How far it is from the last one, in brightness; nothing for the first.
    pub mad: Option<u32>,
    /// Where it differs from the last one.
    pub dirty: Option<[u32; 4]>,
    pub seen: Seen,
}

/// What becomes of a frame.
#[derive(Debug, Clone)]
pub enum Verdict {
    /// There is nothing to see.
    Skip,
    /// Too little changed.
    Unchanged,
    /// It comes too soon.
    Throttled,
    /// The lesson is full.
    Capped,
    Keep(Shot),
}

/// Whether the grids of a frame can be had: its sides are not beyond all measure.
pub open spec fn gridable(f: Frame) -> bool {
    f.wf() && 16 * half(f.width as int) <= usize::MAX && 9 * half(f.height as int) <= usize::MAX
}

/// The grid of `cols` by `rows` cells of a frame.
pub open spec fn grid(f: Frame, cols: int, rows: int) -> Seq<u8> {
    grid_of(half_plane(f.rgb@, f.width as int, f.height as int), half(f.width as int), half(f.height as int), cols, rows)
}

/// Whether `s` is what is remembered of a frame.
pub open spec fn sees(s: Seen, f: Frame) -> bool {
    &&& s.grid@ == grid(f, 9, 8)
    &&& s.bbox@ == grid(f, 16, 9)
    &&& forall|i: int| 0 <= i < 64 ==> #[trigger] phash::bit(s.hash, i) == rises(s.grid@, i)
}

/// Whether a lesson is full.
pub open spec fn full(s: Session) -> bool {
    (s.cfg.max_frames > 0 && s.frames >= s.cfg.max_frames) || (s.cfg.max_bytes > 0 && s.bytes >= s.cfg.max_bytes)
}

/// A word read as a signed number.
pub open spec fn signed(v: u64) -> int {
    if v <= i64::MAX {
        v as int
    } else {
        v - 0x1_0000_0000_0000_0000
    }
}

/// Whether too little changed since the last frame that was kept.
pub open spec fn same_screen(s: Session, now: Seen) -> bool {
    match s.prev {
        Some(p) => distance(p.hash, now.hash) < s.cfg.min_dist && mean_apart(p.grid@, now.grid@) < s.cfg.min_mad,
        None => false,
    }
}

/// Whether a frame comes too soon after the last one that was kept.
pub open spec fn too_soon(s: Session, at_ms: u64, final_tick: bool) -> bool {
    s.prev is Some && !final_tick && signed(at_ms) - s.last_emit_ms < signed(s.cfg.min_interval_ms)
}

/// Why a frame is kept.
pub open spec fn trigger(s: Session, now: Seen, final_tick: bool) -> Seq<char> {
    match s.prev {
        None => "open"@,
        Some(p) => if final_tick {
            "close"@
        } else if distance(p.hash, now.hash) >= s.cfg.min_dist {
            "phash"@
        } else {
            "mass"@
        },
    }
}

/// Whether `d` is where a frame differs from the last one that was kept.
pub open spec fn is_dirty(d: Option<[u32; 4]>, s: Session, f: Frame, now: Seen) -> bool {
    match s.prev {
        None => d is None,
        Some(p) => if !s.cfg.emit_dirty {
            d is None
        } else {
            match d {
                None => forall|x: int, y: int|
                    0 <= x < 16 && 0 <= y < 9 ==> !#[trigger] changed(p.bbox@, now.bbox@, 16, 8, x, y),
                Some(px) => exists|b: (usize, usize, usize, usize)|
                    #![trigger is_bbox(b, p.bbox@, now.bbox@, 16, 9, 8)]
                    is_bbox(b, p.bbox@, now.bbox@, 16, 9, 8) && is_px(px, b, f),
            }
        },
    }
}

/// Whether `px` is a rectangle of cells in pixels: left, top, width, height.
pub open spec fn is_px(px: [u32; 4], b: (usize, usize, usize, usize), f: Frame) -> bool {
    let x0 = border(b.0 as int, 16, f.width as int) % 0x1_0000_0000;
    let y0 = border(b.1 as int, 9, f.height as int) % 0x1_0000_0000;
    let x1 = border(b.2 as int, 16, f.width as int) % 0x1_0000_0000;
    let y1 = border(b.3 as int, 9, f.height as int) % 0x1_0000_0000;
    px@[0] == x0 && px@[1] == y0 && px@[2] == most(x1 - x0, 0) && px@[3] == most(y1 - y0, 0)
}

/// Whether a shot tells of a frame what it has to.
pub open spec fn is_shot(shot: Shot, s: Session, f: Frame, at_ms: u64, final_tick: bool) -> bool {
    &&& sees(shot.seen, f)
    &&& shot.at_ms == at_ms
    &&& shot.trigger@ == trigger(s, shot.seen, final_tick)
    &&& match s.prev {
        Some(p) => shot.dist == Some(distance(p.hash, shot.seen.hash) as u32) && shot.mad == Some(
            mean_apart(p.grid@, shot.seen.grid@) as u32,
        ),
        None => shot.dist is None && shot.mad is None,
    }
    &&& is_dirty(shot.dirty, s, f, shot.seen)
}

/// Whether `v` is what becomes of a frame: it is passed over where there is nothing to see, where
/// too little changed, where it comes too soon, and where the lesson is full, in that order.
pub open spec fn is_verdict(v: Verdict, s: Session, f: Frame, at_ms: u64, final_tick: bool, now: Seen) -> bool {
    if f.width == 0 || f.height == 0 {
        v is Skip
    } else {
        &&& sees(now, f)
        &&& if same_screen(s, now) {
            v is Unchanged
        } else if too_soon(s, at_ms, final_tick) {
            v is Throttled
        } else if full(s) {
            v is Capped
        } else {
            v matches Verdict::Keep(shot) && shot.seen == now && is_shot(shot, s, f, at_ms, final_tick)
        }
    }
}

/// What a session has counted, once something became of a frame.
pub open spec fn counted(before: Session, after: Session, v: Verdict) -> bool {
    &&& after.unchanged == before.unchanged + (if v is Unchanged {
        1int
    } else {
        0
    })
    &&& after.throttled == before.throttled + (if v is Throttled {
        1int
    } else {
        0
    })
    &&& after.capped == before.capped + (if v is Capped {
        1int
    } else {
        0
    })
    &&& after.skipped == before.skipped + (if v is Skip {
        1int
    } else {
        0
    })
    &&& Session {
        unchanged: before.unchanged,
        throttled: before.throttled,
        capped: before.capped,
        skipped: before.skipped,
        ..after
    } == before
}

/// What a session does next.
#[derive(Debug, Clone, Copy, PartialEq, Eq, Structural)]
pub enum Step {
    /// It is over.
    Nothing,
    /// It takes a last look, and is over then.
    Last,
    /// It takes a look, as soon as the given time since its start has passed.
    Look { due_ms: u64 },
}

/// The product of two words, held to their range.
pub open spec fn product(a: u64, b: u64) -> int {
    if a * b > u64::MAX {
        u64::MAX as int
    } else {
        a * b
    }
}

impl Session {
    /// A session that has seen nothing yet. One that could not start is over at once.
    pub fn start(lesson_id: &str, cfg: Cfg, failed: Option<String>) -> (r: Session)
        ensures
            r.lesson_id@ == lesson_id@,
            r.cfg == cfg,
            r.prev is None,
            r.last_emit_ms == -1,
            r.frames == 0,
            r.bytes == 0,
            r.polls == 0,
            r.unchanged == 0,
            r.throttled == 0,
            r.capped == 0,
            r.skipped == 0,
            r.failed == failed,
            !r.request_stop,
            r.done == (failed is Some),
            !r.closed,
            r.opened == (failed is None),
    {
        let dead = failed.is_some();
        Session {
            lesson_id: lesson_id.to_owned(),
            cfg,
            prev: None,
            last_emit_ms: -1,
            frames: 0,
            bytes: 0,
            polls: 0,
            unchanged: 0,
            throttled: 0,
            capped: 0,
            skipped: 0,
            failed,
            request_stop: false,
            done: dead,
            closed: false,
            opened: !dead,
        }
    }

    /// What is told when a session opens: what is known of the source, and how it captures.
    pub fn opening(&self, note: Json) -> (r: Json)
        ensures
            r@ == (match note@ {
                JsonView::Obj(m) => JsonView::Obj(
                    m.insert("source"@, JsonView::Str("a-screen"@)).insert("lesson_id"@, JsonView::Str(self.lesson_id@)).insert(
                        "screen"@,
                        cfg_view(self.cfg),
                    ),
                ),
                j => j,
            }),
    {
        match note {
            Json::Obj(o) => {
                let mut o = o;
                put(&mut o, "source", Json::text("a-screen"));
                put(&mut o, "lesson_id", Json::text(self.lesson_id.as_str()));
                put(&mut o, "screen", self.cfg.json());
                Json::object(o)
            },
            j => j,
        }
    }

    /// Asks a session to come to its end.
    pub fn request_stop(&mut self)
        ensures
            *final(self) == (Session { request_stop: true, ..*old(self) }),
    {
        self.request_stop = true;
    }

    /// What a session does next. One that is full is over.
    pub fn pump(&mut self) -> (r: Step)
        ensures
            ({
                let over = old(self).done || old(self).request_stop || full(*old(self));
                &&& *final(self) == (Session { done: over, ..*old(self) })
                &&& if old(self).done {
                    r == Step::Nothing
                } else if old(self).request_stop {
                    r == Step::Last
                } else if full(*old(self)) {
                    r == Step::Nothing
                } else {
                    r matches Step::Look { due_ms } && due_ms == product(old(self).polls, old(self).cfg.poll_ms)
                }
            }),
    {
        if self.done {
            return Step::Nothing;
        }
        if self.request_stop {
            self.done = true;
            return Step::Last;
        }
        if self.is_full() {
            self.done = true;
            return Step::Nothing;
        }
        proof {
            assert(self.polls * self.cfg.poll_ms >= 0) by (nonlinear_arith);
        }
        Step::Look {
            due_ms: match self.polls.checked_mul(self.cfg.poll_ms) {
                Some(p) => p,
                None => u64::MAX,
            },
        }
    }

    fn is_full(&self) -> (r: bool)
        ensures
            r == full(*self),
    {
        (self.cfg.max_frames > 0 && self.frames >= self.cfg.max_frames) || (self.cfg.max_bytes > 0 && self.bytes
            >= self.cfg.max_bytes)
    }

    /// Notes that a look was taken. A frame that could not be read is passed over, and a source
    /// that has no more frames ends the session.
    pub fn looked(&mut self, bad: bool, ended: bool)
        requires
            old(self).polls < u64::MAX,
            bad ==> old(self).skipped < u64::MAX,
        ensures
            *final(self) == (Session {
                polls: (old(self).polls + 1) as u64,
                skipped: (if bad {
                    old(self).skipped + 1
                } else {
                    old(self).skipped as int
                }) as u64,
                done: old(self).done || ended,
                ..*old(self)
            }),
    {
        self.polls = self.polls + 1;
        if bad {
            self.skipped = self.skipped + 1;
        }
        if ended {
            self.done = true;
        }
    }

    /// Decides what becomes of a frame.
    pub fn consider(&mut self, frame: &Frame, at_ms: u64, final_tick: bool) -> (r: Verdict)
        requires
            gridable(*frame),
            frame.width * 16 <= u64::MAX,
            frame.height * 9 <= u64::MAX,
            old(self).unchanged < u64::MAX,
            old(self).throttled < u64::MAX,
            old(self).capped < u64::MAX,
            old(self).skipped < u64::MAX,
            i64::MIN <= signed(at_ms) - old(self).last_emit_ms <= i64::MAX,
        ensures
            exists|now: Seen| is_verdict(r, *old(self), *frame, at_ms, final_tick, now),
            counted(*old(self), *final(self), r),
    {
        let (plane, pw, ph): (Vec<u8>, usize, usize) = gray::gray_half(frame.rgb.as_slice(), frame.width, frame.height);
        let ghost nothing: Seen = arbitrary();
        if pw == 0 || ph == 0 {
            self.skipped = self.skipped + 1;
            assert(is_verdict(Verdict::Skip, *old(self), *frame, at_ms, final_tick, nothing));
            return Verdict::Skip;
        }
        let small = gray::grid_from_plane(plane.as_slice(), pw, ph, 9, 8);
        let fine = gray::grid_from_plane(plane.as_slice(), pw, ph, 16, 9);
        let hash: u64 = phash::dhash(small.as_slice());
        let now = Seen { grid: small, bbox: fine, hash };
        assert(sees(now, *frame));
        let (dist, mad): (Option<u32>, Option<u32>) = match &self.prev {
            Some(p) => (
                Some(phash::hamming(p.hash, hash)),
                Some(phash::mean_abs_diff(p.grid.as_slice(), now.grid.as_slice())),
            ),
            None => (None, None),
        };
        let first = self.prev.is_none();
        let few = match dist {
            Some(d) => d < self.cfg.min_dist,
            None => false,
        };
        let dim = match mad {
            Some(m) => m < self.cfg.min_mad,
            None => false,
        };
        if !first && few && dim {
            self.unchanged = self.unchanged + 1;
            assert(is_verdict(Verdict::Unchanged, *old(self), *frame, at_ms, final_tick, now));
            return Verdict::Unchanged;
        }
        let since: i128 = as_signed(at_ms) - self.last_emit_ms as i128;
        if !first && !final_tick && since < as_signed(self.cfg.min_interval_ms) {
            self.throttled = self.throttled + 1;
            assert(is_verdict(Verdict::Throttled, *old(self), *frame, at_ms, final_tick, now));
            return Verdict::Throttled;
        }
        if self.is_full() {
            self.capped = self.capped + 1;
            assert(is_verdict(Verdict::Capped, *old(self), *frame, at_ms, final_tick, now));
            return Verdict::Capped;
        }
        let mut dirty: Option<[u32; 4]> = None;
        if self.cfg.emit_dirty {
            match &self.prev {
                Some(p) => {
                    match phash::changed_bbox(p.bbox.as_slice(), now.bbox.as_slice(), 16, 9, 8) {
                        Some(b) => {
                            proof {
                                lemma_cells(b.0 as int, 16, frame.width as int);
                                lemma_cells(b.2 as int, 16, frame.width as int);
                                lemma_cells(b.1 as int, 9, frame.height as int);
                                lemma_cells(b.3 as int, 9, frame.height as int);
                            }
                            let px: [u32; 4] = phash::bbox_to_px(b, 16, 9, frame.width, frame.height);
                            assert(is_px(px, b, *frame));
                            dirty = Some(px);
                        },
                        None => {},
                    }
                },
                None => {},
            }
        }
        let trigger = if first {
            "open"
        } else if final_tick {
            "close"
        } else if !few {
            "phash"
        } else {
            "mass"
        };
        let shot = Shot { at_ms, trigger: trigger.to_owned(), dist, mad, dirty, seen: now };
        assert(is_shot(shot, *old(self), *frame, at_ms, final_tick));
        assert(is_verdict(Verdict::Keep(shot), *old(self), *frame, at_ms, final_tick, now));
        Verdict::Keep(shot)
    }
}

proof fn lemma_cells(v: int, n: int, size: int)
    requires
        0 <= v <= n,
        0 <= size,
    ensures
        v * size <= size * n,
{
    assert(v * size <= size * n) by (nonlinear_arith)
        requires
            0 <= v <= n,
            0 <= size,
    ;
}

/// A word read as a signed number.
fn as_signed(v: u64) -> (r: i128)
    ensures
        r == signed(v),
{
    if v <= 0x7fff_ffff_ffff_ffff {
        v as i128
    } else {
        v as i128 - 0x1_0000_0000_0000_0000
    }
}

// ---------------------------------------------------------------------------------------------
// Frames that are kept
// ---------------------------------------------------------------------------------------------

/// A file that is to be written.
#[derive(Debug, Clone)]
pub struct Blob {
    pub name: String,
    pub bytes: Vec<u8>,
    pub width: usize,
    pub height: usize,
}

/// The name of the file of a frame: when it was seen, and which event tells of it.
pub open spec fn blob_name(at_ms: u64, event: int) -> Seq<char> {
    "screen-"@ + pad_left(dec(at_ms as int), 12, '0') + "ms-"@ + pad_left(dec(event), 5, '0') + ".png"@
}

/// Names the file of a frame.
pub fn file_name(at_ms: u64, event: u64) -> (r: String)
    ensures
        r@ == blob_name(at_ms, event as int),
{
    let mut name = "screen-".to_owned();
    text::push_pad_left(&mut name, text::dec_text(at_ms).as_str(), 12, '0');
    name.append("ms-");
    text::push_pad_left(&mut name, text::dec_text(event).as_str(), 5, '0');
    name.append(".png");
    name
}

/// The size and the bytes of a frame, once its long edge is no longer than allowed.
pub open spec fn fitted(f: Frame, max_width: int) -> (int, int, Seq<u8>) {
    let (w, h) = fitted_size(f.width as int, f.height as int, max_width);
    if too_large(f.width as int, f.height as int, max_width) {
        (w, h, resized(f.rgb@, f.width as int, f.height as int, w, h))
    } else {
        (w, h, f.rgb@)
    }
}

/// Whether a frame can be scaled within the range of machine words.
pub open spec fn scalable(f: Frame, max_width: int) -> bool {
    &&& too_large(f.width as int, f.height as int, max_width) ==> f.width * f.height * 3 <= f.rgb@.len()
    &&& fits_words(f.width as int, f.height as int, max_width)
}

/// The document of a number that may be missing.
fn null_or(v: Option<u32>) -> (r: Json)
    ensures
        r@ == shown(v),
{
    match v {
        Some(n) => Json::uint(n as u64),
        None => Json::Null,
    }
}

/// The document of a number that may be missing.
pub open spec fn shown(v: Option<u32>) -> JsonView {
    match v {
        Some(n) => number(n as int),
        None => JsonView::Null,
    }
}

/// What is told of a frame that was kept.
pub open spec fn shot_view(shot: Shot, b: Blob, sw: usize, sh: usize) -> JsonView {
    let m = Map::<Seq<char>, JsonView>::empty().insert("blob"@, JsonView::Str(b.name@)).insert(
        "len"@,
        number(b.bytes@.len() as int),
    ).insert("t_ms"@, number(shot.at_ms as int)).insert("trigger"@, JsonView::Str(shot.trigger@)).insert(
        "matched_doc_id"@,
        JsonView::Null,
    ).insert("matched_page_id"@, JsonView::Null).insert("matched_confidence"@, JsonView::Null).insert(
        "dist"@,
        shown(shot.dist),
    ).insert("mad"@, shown(shot.mad)).insert("width"@, number(b.width as int)).insert("height"@, number(b.height as int)).insert(
        "source_width"@,
        number(sw as int),
    ).insert("source_height"@, number(sh as int)).insert("source"@, JsonView::Str("a-screen"@));
    JsonView::Obj(
        match shot.dirty {
            Some(d) => m.insert(
                "dirty"@,
                JsonView::Arr(
                    seq![number(d@[0] as int), number(d@[1] as int), number(d@[2] as int), number(d@[3] as int)],
                ),
            ),
            None => m,
        },
    )
}

/// A session once it has kept a frame.
pub open spec fn after_keep(s: Session, shot: Shot, len: int) -> Session {
    Session {
        prev: Some(shot.seen),
        last_emit_ms: signed(shot.at_ms) as i64,
        frames: (s.frames + 1) as u64,
        bytes: (s.bytes + len) as u64,
        ..s
    }
}

/// What is told when a session closes.
pub open spec fn close_view(s: Session, wall_ms: u64, errors: u64) -> JsonView {
    JsonView::Obj(
        Map::<Seq<char>, JsonView>::empty().insert("source"@, JsonView::Str("a-screen"@)).insert(
            "lesson_id"@,
            JsonView::Str(s.lesson_id@),
        ).insert("chunks"@, number(s.frames as int)).insert("bytes"@, number(s.bytes as int)).insert(
            "polls"@,
            number(s.polls as int),
        ).insert("unchanged"@, number(s.unchanged as int)).insert("throttled"@, number(s.throttled as int)).insert(
            "capped"@,
            number(s.capped as int),
        ).insert("skipped"@, number(s.skipped as int)).insert("stream_errors"@, number(errors as int)).insert(
            "wall_ms"@,
            number(wall_ms as int),
        ).insert(
            "error"@,
            match s.failed {
                Some(e) => JsonView::Str(e@),
                None => JsonView::Null,
            },
        ),
    )
}

impl Session {
    /// The file of a frame that is to be kept; `seq` is the number of the last event.
    pub fn prepare(&self, shot: &Shot, frame: Frame, seq: u64) -> (r: Result<Blob, String>)
        requires
            scalable(frame, self.cfg.max_width as int),
            seq < u64::MAX,
        ensures
            ({
                let (w, h, rgb) = fitted(frame, self.cfg.max_width as int);
                match r {
                    Ok(b) => {
                        &&& b.name@ == blob_name(shot.at_ms, seq + 1)
                        &&& b.width == w
                        &&& b.height == h
                        &&& pngio::fits(w, h, rgb.len() as int)
                        &&& pngio::screen_file(w as u32, h as u32, rgb) == Ok::<Seq<u8>, Seq<char>>(b.bytes@)
                        &&& w * 3 <= pngio::ROW_LIMIT ==> pngio::unpacked(b.bytes@, (w as usize, h as usize, rgb))
                    },
                    Err(e) => if pngio::fits(w, h, rgb.len() as int) {
                        pngio::screen_file(w as u32, h as u32, rgb) == Err::<Seq<u8>, Seq<char>>(e@)
                    } else {
                        e@ == pngio::misfit(w, h, rgb.len() as int)
                    },
                }
            }),
    {
        let (rgb, w, h): (Vec<u8>, usize, usize) = gray::fit_width(
            frame.rgb,
            frame.width,
            frame.height,
            self.cfg.max_width,
        );
        match pngio::encode(w, h, rgb.as_slice()) {
            Ok(bytes) => Ok(Blob { name: file_name(shot.at_ms, seq + 1), bytes, width: w, height: h }),
            Err(e) => Err(e),
        }
    }

    /// Notes that the file of a frame was written, and says what is told of it.
    pub fn kept(&mut self, shot: Shot, blob: &Blob, source_width: usize, source_height: usize) -> (r: Json)
        requires
            old(self).frames < u64::MAX,
            old(self).bytes + blob.bytes@.len() <= u64::MAX,
        ensures
            r@ == shot_view(shot, *blob, source_width, source_height),
            *final(self) == after_keep(*old(self), shot, blob.bytes@.len() as int),
    {
        let len: u64 = blob.bytes.len() as u64;
        let mut o: Vec<(String, Json)> = Vec::new();
        put(&mut o, "blob", Json::text(blob.name.as_str()));
        put(&mut o, "len", Json::uint(len));
        put(&mut o, "t_ms", Json::uint(shot.at_ms));
        put(&mut o, "trigger", Json::text(shot.trigger.as_str()));
        put(&mut o, "matched_doc_id", Json::Null);
        put(&mut o, "matched_page_id", Json::Null);
        put(&mut o, "matched_confidence", Json::Null);
        put(&mut o, "dist", null_or(shot.dist));
        put(&mut o, "mad", null_or(shot.mad));
        put(&mut o, "width", Json::uint(blob.width as u64));
        put(&mut o, "height", Json::uint(blob.height as u64));
        put(&mut o, "source_width", Json::uint(source_width as u64));
        put(&mut o, "source_height", Json::uint(source_height as u64));
        put(&mut o, "source", Json::text("a-screen"));
        match shot.dirty {
            Some(d) => {
                let mut v: Vec<Json> = Vec::new();
                v.push(Json::uint(d[0] as u64));
                v.push(Json::uint(d[1] as u64));
                v.push(Json::uint(d[2] as u64));
                v.push(Json::uint(d[3] as u64));
                proof {
                    reveal_with_fuel(json_views, 5);
                    let s = v@;
                    assert(s.drop_last().drop_last().drop_last().drop_last() =~= Seq::empty());
                    assert(json_views(s) =~= seq![
                        number(d@[0] as int),
                        number(d@[1] as int),
                        number(d@[2] as int),
                        number(d@[3] as int),
                    ]);
                }
                put(&mut o, "dirty", Json::array(v));
            },
            None => {},
        }
        self.prev = Some(shot.seen);
        self.last_emit_ms = to_signed(shot.at_ms);
        self.frames = self.frames + 1;
        self.bytes = self.bytes + len;
        Json::object(o)
    }

    /// Notes that the file of a frame could not be written: the session is over.
    pub fn write_failed(&mut self, e: &str)
        ensures
            opt_view(final(self).failed) == Some("写 blob 失败："@ + e@),
            *final(self) == (Session { failed: final(self).failed, done: true, ..*old(self) }),
    {
        let mut s = "写 blob 失败：".to_owned();
        s.append(e);
        self.failed = Some(s);
        self.done = true;
    }

    /// Closes a session and says what is told of it; nothing where it never opened, or is closed.
    pub fn finish(&mut self, wall_ms: u64, errors: usize) -> (r: Option<Json>)
        ensures
            *final(self) == (Session { closed: true, ..*old(self) }),
            if old(self).closed || !old(self).opened {
                r is None
            } else {
                r matches Some(j) && j@ == close_view(*old(self), wall_ms, errors as u64)
            },
    {
        let told = !self.closed && self.opened;
        self.closed = true;
        if !told {
            return None;
        }
        let mut o: Vec<(String, Json)> = Vec::new();
        put(&mut o, "source", Json::text("a-screen"));
        put(&mut o, "lesson_id", Json::text(self.lesson_id.as_str()));
        put(&mut o, "chunks", Json::uint(self.frames));
        put(&mut o, "bytes", Json::uint(self.bytes));
        put(&mut o, "polls", Json::uint(self.polls));
        put(&mut o, "unchanged", Json::uint(self.unchanged));
        put(&mut o, "throttled", Json::uint(self.throttled));
        put(&mut o, "capped", Json::uint(self.capped));
        put(&mut o, "skipped", Json::uint(self.skipped));
        put(&mut o, "stream_errors", Json::uint(errors as u64));
        put(&mut o, "wall_ms", Json::uint(wall_ms));
        put(
            &mut o,
            "error",
            match &self.failed {
                Some(e) => Json::text(e.as_str()),
                None => Json::Null,
            },
        );
        Some(Json::object(o))
    }

    /// What the operator is told of a session that closed.
    pub fn farewell(&self, errors: usize) -> (r: String)
        ensures
            r@ == (match self.failed {
                Some(e) => "本节课未产出关键帧（"@ + e@ + "）"@,
                None => "收课 "@ + self.lesson_id@ + "："@ + dec(self.frames as int) + " 帧 / "@ + dec(self.bytes as int)
                    + " 字节；问 "@ + dec(self.polls as int) + " 次（无变化 "@ + dec(self.unchanged as int) + "、节流 "@ + dec(
                    self.throttled as int,
                ) + "、触顶 "@ + dec(self.capped as int) + "、跳过 "@ + dec(self.skipped as int) + "、后端出错 "@ + dec(
                    errors as int,
                ) + "）"@,
            }),
    {
        match &self.failed {
            Some(e) => {
                let mut s = "本节课未产出关键帧（".to_owned();
                s.append(e.as_str());
                s.append("）");
                s
            },
            None => {
                let mut s = "收课 ".to_owned();
                s.append(self.lesson_id.as_str());
                s.append("：");
                text::push_dec(&mut s, self.frames);
                s.append(" 帧 / ");
                text::push_dec(&mut s, self.bytes);
                s.append(" 字节；问 ");
                text::push_dec(&mut s, self.polls);
                s.append(" 次（无变化 ");
                text::push_dec(&mut s, self.unchanged);
                s.append("、节流 ");
                text::push_dec(&mut s, self.throttled);
                s.append("、触顶 ");
                text::push_dec(&mut s, self.capped);
                s.append("、跳过 ");
                text::push_dec(&mut s, self.skipped);
                s.append("、后端出错 ");
                text::push_dec(&mut s, errors as u64);
                s.append("）");
                s
            },
        }
    }
}

fn to_signed(v: u64) -> (r: i64)
    ensures
        r == signed(v),
{
    as_signed(v) as i64
}

// ---------------------------------------------------------------------------------------------
// What holds of every session
// ---------------------------------------------------------------------------------------------

/// A frame is kept only where it is the first one, or differs from the last one that was kept by
/// as much as one of the thresholds asks, comes late enough unless it is the last look, and finds
/// room in the lesson.
pub proof fn kept_frames_earn_it(s: Session, f: Frame, at_ms: u64, final_tick: bool, v: Verdict, now: Seen)
    requires
        is_verdict(v, s, f, at_ms, final_tick, now),
        v is Keep,
    ensures
        !full(s),
        s.prev matches Some(p) ==> distance(p.hash, now.hash) >= s.cfg.min_dist || mean_apart(p.grid@, now.grid@)
            >= s.cfg.min_mad,
        s.prev is Some && !final_tick ==> signed(at_ms) - s.last_emit_ms >= signed(s.cfg.min_interval_ms),
{
}

/// What a session compares with is the last frame that it kept: one that it did not keep leaves no
/// trace but in the counts.
pub proof fn passed_frames_leave_no_trace(before: Session, after: Session, v: Verdict)
    requires
        counted(before, after, v),
    ensures
        after.prev == before.prev,
        after.last_emit_ms == before.last_emit_ms,
        after.frames == before.frames,
        after.bytes == before.bytes,
        v is Keep ==> after == before,
{
}

/// Whether a lesson holds no more frames than allowed.
pub open spec fn within(s: Session) -> bool {
    s.cfg.max_frames > 0 ==> s.frames <= s.cfg.max_frames
}

/// A lesson never holds more frames than allowed, and once it is full it stays as it is.
pub proof fn limits_are_kept(s: Session, f: Frame, at_ms: u64, final_tick: bool, v: Verdict, now: Seen, len: int)
    requires
        within(s),
        is_verdict(v, s, f, at_ms, final_tick, now),
        s.frames < u64::MAX,
        0 <= len,
        s.bytes + len <= u64::MAX,
    ensures
        v matches Verdict::Keep(shot) ==> within(after_keep(s, shot, len)),
        full(s) ==> !(v is Keep),
{
}

/// An unchanged screen is kept once: with thresholds above zero, a frame that looks like the last
/// one that was kept is passed over.
pub proof fn still_screens_are_kept_once(s: Session, f: Frame, at_ms: u64, final_tick: bool, v: Verdict, now: Seen)
    requires
        is_verdict(v, s, f, at_ms, final_tick, now),
        s.prev is Some,
        sees(s.prev->0, f),
        s.cfg.min_dist > 0,
        s.cfg.min_mad > 0,
        f.width > 0,
        f.height > 0,
    ensures
        v is Unchanged,
{
    let p = s.prev->0;
    assert forall|i: int| 0 <= i < 64 implies #[trigger] rises(p.grid@, i) == rises(now.grid@, i) by {}
    phash::hashes_tell_rises(p.grid@, now.grid@, p.hash, now.hash);
    phash::distances_are_distances(p.hash, now.hash, now.hash);
    phash::differences_are_mutual(p.grid@, p.grid@);
}

/// Each frame meets the one fate that it has earned. Of a frame with something to see, `moved` says
/// whether it differs from the last one that was kept by as much as either threshold asks (the first
/// frame always does), `late` whether the pause has passed or is waived, `room` whether the lesson
/// may hold one more.
pub proof fn frames_get_what_they_earn(s: Session, f: Frame, at_ms: u64, final_tick: bool, v: Verdict, now: Seen)
    requires
        is_verdict(v, s, f, at_ms, final_tick, now),
        f.width > 0,
        f.height > 0,
    ensures
        ({
            let moved = match s.prev {
                Some(p) => distance(p.hash, now.hash) >= s.cfg.min_dist || mean_apart(p.grid@, now.grid@) >= s.cfg.min_mad,
                None => true,
            };
            let late = s.prev is None || final_tick || signed(at_ms) >= s.last_emit_ms + signed(s.cfg.min_interval_ms);
            let room = (s.cfg.max_frames == 0 || s.frames < s.cfg.max_frames) && (s.cfg.max_bytes == 0 || s.bytes
                < s.cfg.max_bytes);
            &&& v is Unchanged <==> !moved
            &&& v is Throttled <==> moved && !late
            &&& v is Capped <==> moved && late && !room
            &&& v is Keep <==> moved && late && room
        }),
{
}

/// A change of either kind is enough: where a frame was kept before and this one differs from it by
/// as many bits as asked, or by as much brightness, it is not passed over as unchanged; with the
/// pause past and room in the lesson it is kept, and told to be kept for its bits wherever those are
/// enough.
pub proof fn changes_are_kept(s: Session, f: Frame, at_ms: u64, final_tick: bool, v: Verdict, now: Seen)
    requires
        is_verdict(v, s, f, at_ms, final_tick, now),
        f.width > 0,
        f.height > 0,
        s.prev matches Some(p) && (distance(p.hash, now.hash) >= s.cfg.min_dist || mean_apart(p.grid@, now.grid@)
            >= s.cfg.min_mad),
    ensures
        !(v is Unchanged),
        signed(at_ms) - s.last_emit_ms >= signed(s.cfg.min_interval_ms) && s.cfg.max_frames == 0 && s.cfg.max_bytes == 0
            ==> v is Keep,
        v matches Verdict::Keep(shot) ==> {
            let p = s.prev->0;
            &&& shot.dist == Some(distance(p.hash, now.hash) as u32)
            &&& shot.mad == Some(mean_apart(p.grid@, now.grid@) as u32)
            &&& !final_tick && distance(p.hash, now.hash) >= s.cfg.min_dist ==> shot.trigger@ == "phash"@
            &&& !final_tick && distance(p.hash, now.hash) < s.cfg.min_dist ==> shot.trigger@ == "mass"@
            &&& final_tick ==> shot.trigger@ == "close"@
        },
{
}

/// The last frame that was kept is the one to compare with: once a frame was kept, the same frame
/// again is no change, the clock starts from it, and frames and bytes count it.
pub proof fn kept_frames_are_remembered(s: Session, shot: Shot, len: int)
    requires
        s.frames < u64::MAX,
        0 <= len,
        s.bytes + len <= u64::MAX,
    ensures
        ({
            let t = after_keep(s, shot, len);
            &&& t.prev == Some(shot.seen)
            &&& t.last_emit_ms == signed(shot.at_ms)
            &&& t.frames == s.frames + 1
            &&& t.bytes == s.bytes + len
            &&& t.cfg == s.cfg
        }),
{
}

/// What a session tells on closing is what it counted, under the names by which the figures of a lesson
/// are added up.
pub proof fn closing_tells_what_was_counted(s: Session, wall_ms: u64, errors: u64)
    ensures
        ({
            let p = close_view(s, wall_ms, errors);
            &&& uint_of(field(p, "chunks"@)) == Some(s.frames)
            &&& uint_of(field(p, "bytes"@)) == Some(s.bytes)
            &&& uint_of(field(p, "polls"@)) == Some(s.polls)
            &&& uint_of(field(p, "unchanged"@)) == Some(s.unchanged)
            &&& uint_of(field(p, "throttled"@)) == Some(s.throttled)
            &&& uint_of(field(p, "capped"@)) == Some(s.capped)
            &&& uint_of(field(p, "skipped"@)) == Some(s.skipped)
            &&& uint_of(field(p, "wall_ms"@)) == Some(wall_ms)
            &&& uint_of(field(p, "stream_errors"@)) == Some(errors)
            &&& str_of(field(p, "error"@)) == opt_view(s.failed)
        }),
{
    reveal_strlit("source");
    reveal_strlit("lesson_id");
    reveal_strlit("chunks");
    reveal_strlit("bytes");
    reveal_strlit("polls");
    reveal_strlit("unchanged");
    reveal_strlit("throttled");
    reveal_strlit("capped");
    reveal_strlit("skipped");
    reveal_strlit("stream_errors");
    reveal_strlit("wall_ms");
    reveal_strlit("error");
    assert("source"@.len() == 6);
    assert("lesson_id"@.len() == 9);
    assert("chunks"@.len() == 6);
    assert("bytes"@.len() == 5);
    assert("polls"@.len() == 5);
    assert("unchanged"@.len() == 9);
    assert("throttled"@.len() == 9);
    assert("capped"@.len() == 6);
    assert("skipped"@.len() == 7);
    assert("stream_errors"@.len() == 13);
    assert("wall_ms"@.len() == 7);
    assert("error"@.len() == 5);
    assert("source"@[0] != "chunks"@[0]);
    assert("source"@ != "chunks"@);
    assert("source"@[0] != "capped"@[0]);
    assert("source"@ != "capped"@);
    assert("lesson_id"@[0] != "unchanged"@[0]);
    assert("lesson_id"@ != "unchanged"@);
    assert("lesson_id"@[0] != "throttled"@[0]);
    assert("lesson_id"@ != "throttled"@);
    assert("chunks"@[1] != "capped"@[1]);
    assert("chunks"@ != "capped"@);
    assert("bytes"@[0] != "polls"@[0]);
    assert("bytes"@ != "polls"@);
    assert("bytes"@[0] != "error"@[0]);
    assert("bytes"@ != "error"@);
    assert("polls"@[0] != "error"@[0]);
    assert("polls"@ != "error"@);
    assert("unchanged"@[0] != "throttled"@[0]);
    assert("unchanged"@ != "throttled"@);
    assert("skipped"@[0] != "wall_ms"@[0]);
    assert("skipped"@ != "wall_ms"@);
}

/// What a session tells of a frame that it kept is what the frame is: when it was seen, why it was kept,
/// how far it is from the one before, which file holds it, and how large it is and was.
pub proof fn frames_are_told_as_they_are(shot: Shot, b: Blob, sw: usize, sh: usize)
    ensures
        ({
            let p = shot_view(shot, b, sw, sh);
            &&& str_of(field(p, "blob"@)) == Some(b.name@)
            &&& uint_of(field(p, "len"@)) == Some(b.bytes@.len() as u64)
            &&& uint_of(field(p, "t_ms"@)) == Some(shot.at_ms)
            &&& str_of(field(p, "trigger"@)) == Some(shot.trigger@)
            &&& shot.dist matches Some(d) ==> uint_of(field(p, "dist"@)) == Some(d as u64)
            &&& shot.dist is None ==> field(p, "dist"@) == Some(JsonView::Null)
            &&& shot.mad matches Some(d) ==> uint_of(field(p, "mad"@)) == Some(d as u64)
            &&& shot.mad is None ==> field(p, "mad"@) == Some(JsonView::Null)
            &&& uint_of(field(p, "width"@)) == Some(b.width as u64)
            &&& uint_of(field(p, "height"@)) == Some(b.height as u64)
            &&& uint_of(field(p, "source_width"@)) == Some(sw as u64)
            &&& uint_of(field(p, "source_height"@)) == Some(sh as u64)
            &&& field(p, "dirty"@) is Some <==> shot.dirty is Some
        }),
{
    reveal_strlit("blob");
    reveal_strlit("len");
    reveal_strlit("t_ms");
    reveal_strlit("trigger");
    reveal_strlit("matched_doc_id");
    reveal_strlit("matched_page_id");
    reveal_strlit("matched_confidence");
    reveal_strlit("dist");
    reveal_strlit("mad");
    reveal_strlit("width");
    reveal_strlit("height");
    reveal_strlit("source_width");
    reveal_strlit("source_height");
    reveal_strlit("source");
    reveal_strlit("dirty");
    assert("blob"@.len() == 4);
    assert("len"@.len() == 3);
    assert("t_ms"@.len() == 4);
    assert("trigger"@.len() == 7);
    assert("matched_doc_id"@.len() == 14);
    assert("matched_page_id"@.len() == 15);
    assert("matched_confidence"@.len() == 18);
    assert("dist"@.len() == 4);
    assert("mad"@.len() == 3);
    assert("width"@.len() == 5);
    assert("height"@.len() == 6);
    assert("source_width"@.len() == 12);
    assert("source_height"@.len() == 13);
    assert("source"@.len() == 6);
    assert("dirty"@.len() == 5);
    assert("blob"@[0] != "t_ms"@[0]);
    assert("blob"@ != "t_ms"@);
    assert("blob"@[0] != "dist"@[0]);
    assert("blob"@ != "dist"@);
    assert("len"@[0] != "mad"@[0]);
    assert("len"@ != "mad"@);
    assert("t_ms"@[0] != "dist"@[0]);
    assert("t_ms"@ != "dist"@);
    assert("width"@[0] != "dirty"@[0]);
    assert("width"@ != "dirty"@);
    assert("height"@[0] != "source"@[0]);
    assert("height"@ != "source"@);
}

/// Where a frame that is kept says that it changed, all of the change lies: every cell of the finer
/// grid whose brightness went by more than eight lies within the rectangle told, and where none is
/// told there is no such cell.
pub proof fn changes_lie_where_told(s: Session, f: Frame, at_ms: u64, final_tick: bool, shot: Shot, x: int, y: int)
    requires
        is_shot(shot, s, f, at_ms, final_tick),
        s.cfg.emit_dirty,
        s.prev is Some,
        f.width < 0x1_0000_0000,
        f.height < 0x1_0000_0000,
        0 <= x < 16,
        0 <= y < 9,
        ({
            let a = phash::cell((s.prev->0).bbox@, y * 16 + x);
            let b = phash::cell(shot.seen.bbox@, y * 16 + x);
            a > b + 8 || b > a + 8
        }),
    ensures
        shot.dirty matches Some(px) && {
            &&& px@[0] <= x * f.width / 16
            &&& (x + 1) * f.width / 16 <= px@[0] + px@[2]
            &&& px@[1] <= y * f.height / 9
            &&& (y + 1) * f.height / 9 <= px@[1] + px@[3]
            &&& px@[0] + px@[2] <= f.width
            &&& px@[1] + px@[3] <= f.height
        },
{
    let p = s.prev->0;
    let now = shot.seen;
    assert(changed(p.bbox@, now.bbox@, 16, 8, x, y));
    let px = shot.dirty->0;
    let b = choose|b: (usize, usize, usize, usize)|
        #![trigger is_bbox(b, p.bbox@, now.bbox@, 16, 9, 8)]
        is_bbox(b, p.bbox@, now.bbox@, 16, 9, 8) && is_px(px, b, f);
    assert(b.0 <= x < b.2 && b.1 <= y < b.3);
    lemma_side(b.0 as int, x, b.2 as int, 16, f.width as int);
    lemma_side(b.1 as int, y, b.3 as int, 9, f.height as int);
}

proof fn lemma_side(from: int, x: int, to: int, n: int, size: int)
    requires
        0 <= from <= x < to <= n,
        0 <= size < 0x1_0000_0000,
    ensures
        ({
            let a = border(from, n, size) % 0x1_0000_0000;
            let b = border(to, n, size) % 0x1_0000_0000;
            &&& a <= x * size / n
            &&& (x + 1) * size / n <= a + most(b - a, 0) <= size
        }),
{
    lemma_borders(from, x, n, size);
    lemma_borders(x + 1, to, n, size);
    lemma_borders(from, to, n, size);
    assert(from * size / n >= 0) by (nonlinear_arith)
        requires
            0 <= from,
            0 <= size,
            0 < n,
    ;
}

proof fn lemma_borders(a: int, b: int, n: int, size: int)
    requires
        0 <= a <= b <= n,
        1 <= n,
        0 <= size,
    ensures
        border(a, n, size) == a * size / n,
        border(b, n, size) == b * size / n,
        a * size / n <= b * size / n <= size,
{
    let p = a * size;
    let q = b * size;
    assert(0 <= p <= q <= n * size) by (nonlinear_arith)
        requires
            0 <= a <= b <= n,
            0 <= size,
            p == a * size,
            q == b * size,
    ;
    assert(p / n <= q / n <= size) by (nonlinear_arith)
        requires
            0 <= p <= q <= n * size,
            n >= 1,
    ;
}

proof fn lemma_recorded(names: Seq<Seq<char>>, n: int, x: Seq<char>)
    requires
        0 <= n <= names.len(),
    ensures
        recorded(names, n).contains(x) <==> is_recorded(x) && names.take(n).contains(x),
    decreases n,
{
    if n > 0 {
        lemma_recorded(names, n - 1, x);
        let r = recorded(names, n - 1);
        let s = recorded(names, n);
        let before = names.take(n - 1);
        let all = names.take(n);
        if before.contains(x) {
            let i = choose|i: int| 0 <= i < before.len() && before[i] == x;
            assert(all[i] == x);
        }
        if all.contains(x) {
            let i = choose|i: int| 0 <= i < all.len() && all[i] == x;
            if i < n - 1 {
                assert(before[i] == x);
            }
        }
        if names[n - 1] == x {
            assert(all[n - 1] == x);
        }
        if r.contains(x) {
            let i = choose|i: int| 0 <= i < r.len() && r[i] == x;
            assert(s[i] == x);
        }
        if s.contains(x) {
            let i = choose|i: int| 0 <= i < s.len() && s[i] == x;
            if i < r.len() {
                assert(r[i] == x);
            }
        }
        if names[n - 1] == x && is_recorded(x) {
            assert(s[r.len() as int] == x);
        }
    }
}

/// What is played are the recorded frames of a directory, all of them and nothing else, by name and each
/// once; a file is one where something stands in front of its ending and the ending is that of a
/// picture, in small letters or in large ones.
pub proof fn recordings_are_played_by_name(names: Seq<Seq<char>>, x: Seq<char>, stem: Seq<char>, ext: Seq<char>)
    requires
        !ext.contains('.'),
    ensures
        ({
            let list = text::name_list(recorded(names, names.len() as int));
            &&& list.contains(x) <==> is_recorded(x) && names.contains(x)
            &&& forall|i: int, j: int|
                0 <= i < j < list.len() ==> text::text_le(#[trigger] list[i], #[trigger] list[j]) && list[i] != list[j]
        }),
        is_recorded(stem + seq!['.'] + ext) <==> stem.len() > 0 && text::lowered(ext) == "png"@,
{
    let n = names.len() as int;
    lemma_recorded(names, n, x);
    assert(names.take(n) =~= names);
    text::name_list_is_sorted(recorded(names, n));
    text::lemma_behind_mark(stem, '.', ext);
}

/// Every pixel of a frame is seen, both for the hash and for where a screen changed: in each of the two
/// grids there is a cell at the place of the pixel that is at least as bright as a quarter of its share.
pub proof fn every_pixel_is_seen(f: Frame, s: Seen, x: int, y: int) -> (c: ((int, int), (int, int)))
    requires
        f.wf(),
        sees(s, f),
        0 <= x < f.width,
        0 <= y < f.height,
    ensures
        ({
            let (w, h) = (half(f.width as int), half(f.height as int));
            let light = gray::lumas(f.rgb@, f.width as int)(x, y);
            let ((ax, ay), (bx, by)) = c;
            let (ax0, ax1) = (gray::cut(ax, w, 9), gray::cut_end(ax, w, 9));
            let (ay0, ay1) = (gray::cut(ay, h, 8), gray::cut_end(ay, h, 8));
            let (bx0, bx1) = (gray::cut(bx, w, 16), gray::cut_end(bx, w, 16));
            let (by0, by1) = (gray::cut(by, h, 9), gray::cut_end(by, h, 9));
            &&& s.grid@.len() == 72 && s.bbox@.len() == 144
            &&& 0 <= ax < 9 && 0 <= ay < 8 && 0 <= bx < 16 && 0 <= by < 9
            &&& 2 * ax0 <= x < 2 * ax1 && 2 * ay0 <= y < 2 * ay1
            &&& 2 * bx0 <= x < 2 * bx1 && 2 * by0 <= y < 2 * by1
            &&& s.grid@[ay * 9 + ax] >= light / 4 / ((ax1 - ax0) * (ay1 - ay0))
            &&& s.bbox@[by * 16 + bx] >= light / 4 / ((bx1 - bx0) * (by1 - by0))
        }),
{
    let fw = f.width as int;
    let fh = f.height as int;
    let w = half(fw);
    let h = half(fh);
    let plane = half_plane(f.rgb@, fw, fh);
    gray::every_pixel_counts(f.rgb@, fw, fh, x, y);
    assert(w * h >= 0) by (nonlinear_arith)
        requires
            w >= 0,
            h >= 0,
    ;
    let a = gray::every_point_counts(plane, w, h, 9, 8, x / 2, y / 2);
    let b = gray::every_point_counts(plane, w, h, 16, 9, x / 2, y / 2);
    let light = gray::lumas(f.rgb@, fw)(x, y);
    let v = plane[(y / 2) * w + x / 2] as int;
    lemma_share(light / 4, v, gray::cut_end(a.0, w, 9) - gray::cut(a.0, w, 9), gray::cut_end(a.1, h, 8) - gray::cut(a.1, h, 8));
    lemma_share(light / 4, v, gray::cut_end(b.0, w, 16) - gray::cut(b.0, w, 16), gray::cut_end(b.1, h, 9) - gray::cut(b.1, h, 9));
    (a, b)
}

proof fn lemma_share(a: int, b: int, p: int, q: int)
    requires
        a <= b,
        p > 0,
        q > 0,
    ensures
        a / (p * q) <= b / (p * q),
{
    let n = p * q;
    assert(n > 0) by (nonlinear_arith)
        requires
            p > 0,
            q > 0,
            n == p * q,
    ;
    assert(a / n <= b / n) by (nonlinear_arith)
        requires
            a <= b,
            n > 0,
    ;
}

/// Settings are used as asked: what parameters name under their screen is taken, thresholds held to the
/// largest distance that can be and to the largest brightness.
pub proof fn settings_are_used_as_asked(c: Cfg, p: JsonView, s: JsonView, v: u64)
    requires
        is_cfg(c, p),
        field(p, "screen"@) == Some(s),
    ensures
        uint_of(field(s, "min_dist"@)) == Some(v) ==> c.min_dist == (if v < 64 {
            v
        } else {
            64
        }),
        uint_of(field(s, "min_mad"@)) == Some(v) ==> c.min_mad == (if v < 255 {
            v
        } else {
            255
        }),
        uint_of(field(s, "min_interval_ms"@)) == Some(v) ==> c.min_interval_ms == v,
        uint_of(field(s, "poll_ms"@)) == Some(v) && v > 0 ==> c.poll_ms == v,
        uint_of(field(s, "max_frames_per_lesson"@)) == Some(v) ==> c.max_frames == v,
        uint_of(field(s, "max_bytes_per_lesson"@)) == Some(v) ==> c.max_bytes == v,
        uint_of(field(s, "max_width"@)) == Some(v) ==> c.max_width == v as usize,
        bool_of(field(s, "emit_dirty"@)) matches Some(b) ==> c.emit_dirty == b,
        str_of(field(p, "capture"@)) matches Some(w) ==> c.capture@ == w,
        c.poll_ms >= 1,
{
}

/// Looks come at even times: one more each time the interval has passed, and where a time is beyond all
/// that can be told, the last one that can.
pub proof fn looks_come_at_even_times(polls: u64, poll_ms: u64)
    requires
        polls < u64::MAX,
    ensures
        product(0, poll_ms) == 0,
        product((polls + 1) as u64, poll_ms) == (if product(polls, poll_ms) + poll_ms > u64::MAX {
            u64::MAX as int
        } else {
            product(polls, poll_ms) + poll_ms
        }),
{
    assert((polls + 1) * poll_ms == polls * poll_ms + poll_ms) by (nonlinear_arith);
    assert(0 * poll_ms == 0) by (nonlinear_arith);
    assert(polls * poll_ms >= 0) by (nonlinear_arith);
}

/// The first frame with something to see is kept where there is room, as the one that opens the lesson,
/// with no distance to any other; and a frame that is kept is told with its time and what was seen of it.
pub proof fn first_frames_open_lessons(s: Session, f: Frame, at_ms: u64, final_tick: bool, v: Verdict, now: Seen)
    requires
        is_verdict(v, s, f, at_ms, final_tick, now),
        f.width > 0,
        f.height > 0,
    ensures
        v matches Verdict::Keep(shot) ==> shot.at_ms == at_ms && shot.seen == now,
        s.prev is None && s.cfg.max_frames == 0 && s.cfg.max_bytes == 0 ==> v is Keep,
        s.prev is None ==> (v matches Verdict::Keep(shot) ==> shot.trigger@ == "open"@ && shot.dist is None && shot.mad is None
            && shot.dirty is None),
{
}

/// Every look at a frame that is not kept is counted under its reason, and under no other.
pub proof fn looks_are_counted(before: Session, after: Session, v: Verdict)
    requires
        counted(before, after, v),
    ensures
        v is Unchanged ==> after.unchanged == before.unchanged + 1 && after.throttled == before.throttled && after.capped
            == before.capped && after.skipped == before.skipped,
        v is Throttled ==> after.throttled == before.throttled + 1 && after.unchanged == before.unchanged && after.capped
            == before.capped && after.skipped == before.skipped,
        v is Capped ==> after.capped == before.capped + 1 && after.unchanged == before.unchanged && after.throttled
            == before.throttled && after.skipped == before.skipped,
        v is Skip ==> after.skipped == before.skipped + 1 && after.unchanged == before.unchanged && after.throttled
            == before.throttled && after.capped == before.capped,
{
}

/// A frame without pixels is passed over, whatever came before it.
pub proof fn empty_frames_are_skipped(s: Session, f: Frame, at_ms: u64, final_tick: bool, v: Verdict, now: Seen)
    requires
        is_verdict(v, s, f, at_ms, final_tick, now),
    ensures
        v is Skip <==> f.width == 0 || f.height == 0,
{
}

} // verus!
