//! A made-up lesson: events by a fixed rule, with holes and crashes on request.

use vstd::prelude::*;
use crate::json::array_of;
use crate::json::field;
use crate::json::put;
use crate::json::uint_of;
use crate::json::Json;
use crate::json::JsonView;
use crate::screen::number;
use crate::text;
use crate::text::dec;
use crate::text::pad_left;

verus! {

/// The name of this source.
pub const ID: &'static str = "a-fake";

/// The time between two ticks.
pub const STEP_MS: u64 = 300;

/// Numbers events, leaving out those that are to be missed.
#[derive(Debug, Clone)]
pub struct Pub {
    pub seq: u64,
    pub skip: Vec<u64>,
}

/// The numbers in the first `n` elements.
pub open spec fn numbers(v: Seq<JsonView>, n: int) -> Seq<u64>
    decreases n,
{
    if n <= 0 {
        Seq::empty()
    } else {
        match uint_of(Some(v[n - 1])) {
            Some(u) => numbers(v, n - 1).push(u),
            None => numbers(v, n - 1),
        }
    }
}

/// The numbers that parameters ask to leave out.
pub open spec fn skipped(p: JsonView) -> Seq<u64> {
    match array_of(field(p, "skip_seq_at"@)) {
        Some(a) => numbers(a, a.len() as int),
        None => Seq::empty(),
    }
}

proof fn lemma_views(v: Seq<Json>, i: int)
    requires
        0 <= i < v.len(),
    ensures
        crate::json::json_views(v).len() == v.len(),
        crate::json::json_views(v)[i] == v[i]@,
    decreases v.len(),
{
    lemma_views_len(v);
    lemma_views_len(v.drop_last());
    if i < v.len() - 1 {
        lemma_views(v.drop_last(), i);
    }
}

proof fn lemma_views_len(v: Seq<Json>)
    ensures
        crate::json::json_views(v).len() == v.len(),
    decreases v.len(),
{
    if v.len() > 0 {
        lemma_views_len(v.drop_last());
    }
}

impl Pub {
    /// A fresh numbering, with the holes that parameters ask for.
    pub fn new(p: &Json) -> (r: Pub)
        ensures
            r.seq == 0,
            r.skip@ == skipped(p@),
    {
        let mut skip: Vec<u64> = Vec::new();
        match p.get("skip_seq_at") {
            Some(j) => match j.as_array() {
                Some(a) => {
                    let ghost all = crate::json::json_views(a@);
                    proof {
                        lemma_views_len(a@);
                    }
                    let mut i: usize = 0;
                    while i < a.len()
                        invariant
                            i <= a@.len(),
                            all == crate::json::json_views(a@),
                            all.len() == a@.len(),
                            skip@ == numbers(all, i as int),
                        decreases a@.len() - i,
                    {
                        proof {
                            lemma_views(a@, i as int);
                        }
                        match a[i].as_u64() {
                            Some(u) => skip.push(u),
                            None => {},
                        }
                        i += 1;
                    }
                },
                None => {},
            },
            None => {},
        }
        Pub { seq: 0, skip }
    }

    fn skips(&self, n: u64) -> (r: bool)
        ensures
            r == self.skip@.contains(n),
    {
        let mut i: usize = 0;
        while i < self.skip.len()
            invariant
                i <= self.skip@.len(),
                forall|j: int| 0 <= j < i ==> #[trigger] self.skip@[j] != n,
            decreases self.skip@.len() - i,
        {
            if self.skip[i] == n {
                return true;
            }
            i += 1;
        }
        false
    }

    /// The next number that is not left out; none where all that are left are.
    pub fn next_seq(&mut self) -> (r: Option<u64>)
        ensures
            final(self).skip == old(self).skip,
            match r {
                Some(n) => {
                    &&& old(self).seq < n
                    &&& !old(self).skip@.contains(n)
                    &&& forall|k: u64| old(self).seq < k < n ==> #[trigger] old(self).skip@.contains(k)
                    &&& final(self).seq == n
                },
                None => forall|k: u64| old(self).seq < k ==> #[trigger] old(self).skip@.contains(k),
            },
    {
        let start: u64 = self.seq;
        while self.seq < u64::MAX
            invariant
                start <= self.seq,
                self.skip == old(self).skip,
                start == old(self).seq,
                forall|k: u64| start < k <= self.seq ==> #[trigger] self.skip@.contains(k),
            decreases u64::MAX - self.seq,
        {
            self.seq = self.seq + 1;
            if !self.skips(self.seq) {
                return Some(self.seq);
            }
        }
        None
    }
}

/// Something that happens in a made-up lesson.
#[derive(Debug, Clone)]
pub enum Mock {
    Speech { t0_ms: u64, t1_ms: u64, speaker: String, text: String },
    Page { page_id: String, index: u32 },
    Stroke { stroke_id: String, page_id: String, tool: String },
    Undo { stroke_id: String, page_id: String },
}

/// The page of a tick: every 65 ticks another one.
pub open spec fn page_name(n: u64) -> Seq<char> {
    "p-"@ + pad_left(dec(n as int / 65), 4, '0')
}

/// Whether something is what is said at a tick.
pub open spec fn is_speech(m: Mock, n: u64, t: u64, class: Seq<char>, subject: Seq<char>) -> bool {
    m matches Mock::Speech { t0_ms, t1_ms, speaker, text } && t0_ms == t && t1_ms == t + 1800 && speaker@ == (if n % 56
        == 0 {
        "student"@
    } else {
        "teacher"@
    }) && text@ == "模拟句 "@ + dec(n as int) + "："@ + class + " 的 "@ + subject + " 课，这里是第 "@ + dec(n as int / 65 + 1)
        + " 段讲解。"@
}

/// Whether something is the page that is turned to at a tick.
pub open spec fn is_page(m: Mock, n: u64) -> bool {
    m matches Mock::Page { page_id, index } && page_id@ == page_name(n) && index == (n / 65) as u32
}

/// Whether something is the stroke that is drawn at a tick.
pub open spec fn is_stroke(m: Mock, n: u64) -> bool {
    m matches Mock::Stroke { stroke_id, page_id, tool } && stroke_id@ == "s-"@ + dec(n as int) && page_id@ == page_name(n)
        && tool@ == (if n % 143 == 3 {
        "highlighter"@
    } else {
        "pen"@
    })
}

/// Whether something is the stroke that is taken back at a tick.
pub open spec fn is_undo(m: Mock, n: u64) -> bool {
    m matches Mock::Undo { stroke_id, page_id } && stroke_id@ == "s-"@ + dec(n - 1) && page_id@ == page_name(n)
}

/// How many of two things happen.
pub open spec fn one_if(b: bool) -> int {
    if b {
        1
    } else {
        0
    }
}

/// Whether `v` is what happens at a tick, in this order: speech at every 8th, a page at every 13th,
/// a stroke three after that, and one taken back at every 97th but the first.
pub open spec fn is_tick(v: Seq<Mock>, n: u64, t: u64, class: Seq<char>, subject: Seq<char>) -> bool {
    let a = one_if(n % 8 == 0);
    let b = a + one_if(n % 13 == 0);
    let c = b + one_if(n % 13 == 3);
    let d = c + one_if(n % 97 == 0 && n > 0);
    &&& v.len() == d
    &&& n % 8 == 0 ==> is_speech(v[0], n, t, class, subject)
    &&& n % 13 == 0 ==> is_page(v[a], n)
    &&& n % 13 == 3 ==> is_stroke(v[b], n)
    &&& n % 97 == 0 && n > 0 ==> is_undo(v[c], n)
}

fn page_of(n: u64) -> (r: String)
    ensures
        r@ == page_name(n),
{
    let mut s = "p-".to_owned();
    text::push_pad_left(&mut s, text::dec_text(n / 65).as_str(), 4, '0');
    s
}

fn stroke_of(n: u64) -> (r: String)
    ensures
        r@ == "s-"@ + dec(n as int),
{
    let mut s = "s-".to_owned();
    text::push_dec(&mut s, n);
    s
}

fn sentence(n: u64, class: &str, subject: &str) -> (s: String)
    ensures
        s@ == "模拟句 "@ + dec(n as int) + "："@ + class@ + " 的 "@ + subject@ + " 课，这里是第 "@ + dec(n as int / 65 + 1)
            + " 段讲解。"@,
{
    let mut s = "模拟句 ".to_owned();
    text::push_dec(&mut s, n);
    s.append("：");
    s.append(class);
    s.append(" 的 ");
    s.append(subject);
    s.append(" 课，这里是第 ");
    text::push_dec(&mut s, n / 65 + 1);
    s.append(" 段讲解。");
    s
}

/// What happens at a tick.
pub fn tick(n: u64, t: u64, class: &str, subject: &str) -> (r: Vec<Mock>)
    requires
        t + 1800 <= u64::MAX,
    ensures
        is_tick(r@, n, t, class@, subject@),
{
    let mut v: Vec<Mock> = Vec::new();
    if n % 8 == 0 {
        let speaker = if n % 56 == 0 {
            "student".to_owned()
        } else {
            "teacher".to_owned()
        };
        v.push(Mock::Speech { t0_ms: t, t1_ms: t + 1_800, speaker, text: sentence(n, class, subject) });
    }
    if n % 13 == 0 {
        v.push(Mock::Page { page_id: page_of(n), index: (n / 65) as u32 });
    }
    if n % 13 == 3 {
        let tool = if n % 143 == 3 {
            "highlighter".to_owned()
        } else {
            "pen".to_owned()
        };
        v.push(Mock::Stroke { stroke_id: stroke_of(n), page_id: page_of(n), tool });
    }
    if n % 97 == 0 && n > 0 {
        v.push(Mock::Undo { stroke_id: stroke_of(n - 1), page_id: page_of(n) });
    }
    v
}

/// When an event of a tick happens: a stroke is taken back a little later.
pub fn event_ms(m: &Mock, t: u64) -> (r: u64)
    requires
        m is Undo ==> t + 200 <= u64::MAX,
    ensures
        r == (if m is Undo {
            t + 200
        } else {
            t as int
        }),
{
    match m {
        Mock::Undo { .. } => t + 200,
        _ => t,
    }
}

/// What is told when a lesson is over that took `total_ms` and `ticks` ticks.
pub fn closing(total_ms: u64, ticks: u64) -> (r: Json)
    ensures
        r@ == JsonView::Obj(
            Map::<Seq<char>, JsonView>::empty().insert("source"@, JsonView::Str("a-fake"@)).insert(
                "simulated_ms"@,
                number(total_ms as int),
            ).insert("ticks"@, number(ticks as int)),
        ),
{
    let mut o: Vec<(String, Json)> = Vec::new();
    put(&mut o, "source", Json::text("a-fake"));
    put(&mut o, "simulated_ms", Json::uint(total_ms));
    put(&mut o, "ticks", Json::uint(ticks));
    Json::object(o)
}

/// Whether the source crashes at a tick, where it was asked to.
pub fn crashes(n: u64, after: u64) -> (r: bool)
    ensures
        r == (after > 0 && n >= after),
{
    after > 0 && n >= after
}

} // verus!
