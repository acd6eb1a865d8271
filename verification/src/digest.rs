//! A lesson on one page, readable without a model: what was recorded, and what must not be
//! concluded from it.

use vstd::prelude::*;
use crate::fold::collect;
use crate::fold::count;
use crate::fold::first_some;
use crate::fold::lemma_take_all;
use crate::fold::lemma_take_more;
use crate::fold::total;
use crate::readable;
use crate::readable::clock;
use crate::readable::moment;
use crate::readable::size_text;
use crate::health::SourceHealth;
use crate::kinds;
use crate::text;
use crate::text::dec;
use crate::text::distinct;
use crate::text::insert_name;
use crate::text::join;
use crate::text::lists;
use crate::text::name_list;
use crate::text::opt_view;
use crate::text::pad_left;
use crate::text::pad_right;
use crate::text::push_text;
use crate::text::repeat;
use crate::text::same;
use crate::text::views;
use crate::timeline::AiPayload;
use crate::timeline::LessonStats;
use crate::track::item;
use crate::track::item_views;
use crate::track::less_by;
use crate::track::or_else;
use crate::track::Body;
use crate::track::Entry;
use crate::track::ItemView;
use crate::track::TrackItem;

verus! {

/// Width of a row of the time table, where nothing else is asked for.
pub const DEFAULT_BUCKET_MS: u64 = 60_000;

/// One row of the time table.
#[derive(Debug, Clone)]
pub struct Bucket {
    pub t0_ms: u64,
    pub speech_ms: u128,
    pub strokes: usize,
    pub erases: usize,
    pub keyframes: usize,
    /// The pages touched, in order, with repetitions.
    pub pages: Vec<String>,
    /// Length of the bar that shows the share of speech.
    pub bar: usize,
    /// The share of speech in percent.
    pub percent: u32,
}

// ---------------------------------------------------------------------------------------------
// The time table
// ---------------------------------------------------------------------------------------------

/// The start of the row that a moment falls into.
pub open spec fn row_of(t: int, width: int) -> int {
    t / width * width
}

/// Whether a line falls into the row at `k`.
pub open spec fn in_row(i: ItemView, width: int, k: int) -> bool {
    row_of(i.t0, width) == k
}

/// How much is said in a line of the row at `k`.
pub open spec fn speech_in(width: int, k: int) -> spec_fn(ItemView) -> int {
    |i: ItemView|
        if in_row(i, width, k) && i.kind == kinds::ASR_UTTERANCE@ {
            less_by(i.t1, i.t0)
        } else {
            0
        }
}

/// Lines of a kind in the row at `k`.
pub open spec fn kind_in(width: int, k: int, kind: Seq<char>) -> spec_fn(ItemView) -> bool {
    |i: ItemView| in_row(i, width, k) && i.kind == kind
}

/// The page that a line touches.
pub open spec fn page_ref(i: ItemView) -> Option<Seq<char>> {
    if i.kind == kinds::INK_STROKE_COMMIT@ {
        if i.refs.len() > 1 {
            Some(i.refs[1])
        } else {
            None
        }
    } else if i.kind == kinds::INK_PAGE_ACTIVATE@ {
        if i.refs.len() > 0 {
            Some(i.refs[0])
        } else {
            None
        }
    } else {
        None
    }
}

/// The page that a line of the row at `k` touches.
pub open spec fn page_in(width: int, k: int) -> spec_fn(ItemView) -> Option<Seq<char>> {
    |i: ItemView|
        if in_row(i, width, k) {
            page_ref(i)
        } else {
            None
        }
}

/// `x` put into an ascending list, unless it is there already.
pub open spec fn with_key(s: Seq<int>, x: int) -> Seq<int>
    decreases s.len(),
{
    if s.len() == 0 {
        seq![x]
    } else if s.last() == x {
        s
    } else if s.last() < x {
        s.push(x)
    } else {
        with_key(s.drop_last(), x).push(s.last())
    }
}

/// The starts of the rows that have a line, ascending.
pub open spec fn row_starts(s: Seq<ItemView>, width: int) -> Seq<int>
    decreases s.len(),
{
    if s.len() == 0 {
        Seq::empty()
    } else {
        with_key(row_starts(s.drop_last(), width), row_of(s.last().t0, width))
    }
}

/// Whether `b` counts the row at `k`, its share of speech still open.
pub open spec fn counts_row(b: Bucket, s: Seq<ItemView>, width: int, k: int) -> bool {
    &&& b.t0_ms == k
    &&& b.speech_ms == total(s, speech_in(width, k))
    &&& b.strokes == count(s, kind_in(width, k, kinds::INK_STROKE_COMMIT@))
    &&& b.erases == count(s, kind_in(width, k, kinds::INK_STROKE_DELETE@))
    &&& b.keyframes == count(s, kind_in(width, k, kinds::SCREEN_KEYFRAME@))
    &&& views(b.pages@) == collect(s, page_in(width, k))
    &&& b.bar == 0
    &&& b.percent == 0
}

/// The width of a row, not less than a second.
pub open spec fn width_of(bucket_ms: u64) -> int {
    if bucket_ms < 1_000 {
        1_000
    } else {
        bucket_ms as int
    }
}

fn insert_key(v: &mut Vec<u64>, x: u64)
    ensures
        keys(final(v)@) == with_key(keys(old(v)@), x as int),
{
    let ghost s = keys(v@);
    let mut k: usize = v.len();
    assert(s.take(s.len() as int) =~= s);
    assert(with_key(s, x as int) =~= with_key(s.take(k as int), x as int) + s.skip(k as int));
    while k > 0 && v[k - 1] > x
        invariant
            k <= v@.len(),
            s == keys(v@),
            with_key(s, x as int) == with_key(s.take(k as int), x as int) + s.skip(k as int),
        decreases k,
    {
        proof {
            let t = s.take(k as int);
            assert(t.last() == v@[k - 1]);
            assert(t.drop_last() =~= s.take(k - 1));
            assert(s.skip(k - 1) =~= seq![s[k - 1]] + s.skip(k as int));
            assert(with_key(s, x as int) =~= with_key(s.take(k - 1), x as int) + s.skip(k - 1));
        }
        k -= 1;
    }
    let ghost t = s.take(k as int);
    if k > 0 && v[k - 1] == x {
        proof {
            assert(t.last() == x);
            assert(keys(v@) =~= with_key(s, x as int));
        }
    } else {
        proof {
            if k > 0 {
                assert(t.last() == v@[k - 1]);
            }
            assert(with_key(t, x as int) =~= t.push(x as int));
        }
        v.insert(k, x);
        assert(keys(v@) =~= with_key(s, x as int));
    }
}

spec fn keys(v: Seq<u64>) -> Seq<int> {
    v.map_values(|x: u64| x as int)
}

fn page_of(i: &TrackItem) -> (r: Option<&str>)
    ensures
        crate::json::ref_str(r) == page_ref(i@),
{
    if same(i.kind.as_str(), kinds::INK_STROKE_COMMIT) {
        if i.refs.len() > 1 {
            assert(views(i.refs@)[1] == i.refs@[1]@);
            Some(i.refs[1].as_str())
        } else {
            None
        }
    } else if same(i.kind.as_str(), kinds::INK_PAGE_ACTIVATE) {
        if i.refs.len() > 0 {
            assert(views(i.refs@)[0] == i.refs@[0]@);
            Some(i.refs[0].as_str())
        } else {
            None
        }
    } else {
        None
    }
}

fn count_row(v: &Vec<TrackItem>, width: u64, k: u64) -> (r: Bucket)
    requires
        width > 0,
    ensures
        counts_row(r, item_views(v@), width as int, k as int),
{
    let ghost s = item_views(v@);
    let ghost w = width as int;
    let ghost q = k as int;
    let mut speech: u128 = 0;
    let mut strokes: usize = 0;
    let mut erases: usize = 0;
    let mut keyframes: usize = 0;
    let mut pages: Vec<String> = Vec::new();
    let mut i: usize = 0;
    assert(views(pages@) =~= Seq::<Seq<char>>::empty());
    while i < v.len()
        invariant
            i <= v@.len(),
            width > 0,
            s == item_views(v@),
            w == width,
            q == k,
            speech <= i * u64::MAX,
            strokes <= i,
            erases <= i,
            keyframes <= i,
            speech == total(s.take(i as int), speech_in(w, q)),
            strokes == count(s.take(i as int), kind_in(w, q, kinds::INK_STROKE_COMMIT@)),
            erases == count(s.take(i as int), kind_in(w, q, kinds::INK_STROKE_DELETE@)),
            keyframes == count(s.take(i as int), kind_in(w, q, kinds::SCREEN_KEYFRAME@)),
            views(pages@) == collect(s.take(i as int), page_in(w, q)),
        decreases v@.len() - i,
    {
        proof {
            lemma_take_more(s, i as int);
        }
        let it = &v[i];
        assert(s[i as int] == it@);
        let start: u64 = start_of(it.t0_ms, width);
        if start == k {
            if same(it.kind.as_str(), kinds::ASR_UTTERANCE) && it.t1_ms > it.t0_ms {
                speech += (it.t1_ms - it.t0_ms) as u128;
            }
            if same(it.kind.as_str(), kinds::INK_STROKE_COMMIT) {
                strokes += 1;
            }
            if same(it.kind.as_str(), kinds::INK_STROKE_DELETE) {
                erases += 1;
            }
            if same(it.kind.as_str(), kinds::SCREEN_KEYFRAME) {
                keyframes += 1;
            }
            match page_of(it) {
                Some(p) => push_text(&mut pages, p.to_owned()),
                None => {},
            }
        }
        i += 1;
    }
    proof {
        lemma_take_all(s);
    }
    Bucket { t0_ms: k, speech_ms: speech, strokes, erases, keyframes, pages, bar: 0, percent: 0 }
}

fn start_of(t: u64, width: u64) -> (r: u64)
    requires
        width > 0,
    ensures
        r == row_of(t as int, width as int),
{
    proof {
        assert((t as int / width as int) * width as int <= t as int) by (nonlinear_arith)
            requires
                width > 0,
        ;
        assert((t as int / width as int) * width as int >= 0) by (nonlinear_arith)
            requires
                width > 0,
                t >= 0,
        ;
    }
    t / width * width
}

/// The time table of a lesson, the shares of speech still open.
pub fn buckets(p: &AiPayload, bucket_ms: u64) -> (r: Vec<Bucket>)
    ensures
        r@.len() == row_starts(item_views(p.track@), width_of(bucket_ms)).len(),
        forall|j: int|
            0 <= j < r@.len() ==> counts_row(
                #[trigger] r@[j],
                item_views(p.track@),
                width_of(bucket_ms),
                row_starts(item_views(p.track@), width_of(bucket_ms))[j],
            ),
{
    let width: u64 = if bucket_ms < 1_000 {
        1_000
    } else {
        bucket_ms
    };
    let ghost s = item_views(p.track@);
    let mut starts: Vec<u64> = Vec::new();
    let mut i: usize = 0;
    assert(keys(starts@) =~= row_starts(s.take(0), width as int));
    while i < p.track.len()
        invariant
            i <= p.track@.len(),
            width > 0,
            s == item_views(p.track@),
            keys(starts@) == row_starts(s.take(i as int), width as int),
        decreases p.track@.len() - i,
    {
        proof {
            lemma_take_more(s, i as int);
        }
        let k: u64 = start_of(p.track[i].t0_ms, width);
        insert_key(&mut starts, k);
        i += 1;
    }
    proof {
        lemma_take_all(s);
    }
    let mut out: Vec<Bucket> = Vec::new();
    let mut j: usize = 0;
    while j < starts.len()
        invariant
            j <= starts@.len(),
            width > 0,
            out@.len() == j,
            s == item_views(p.track@),
            keys(starts@) == row_starts(s, width as int),
            forall|q: int|
                0 <= q < j ==> counts_row(#[trigger] out@[q], s, width as int, row_starts(s, width as int)[q]),
        decreases starts@.len() - j,
    {
        assert(keys(starts@)[j as int] == starts@[j as int]);
        out.push(count_row(&p.track, width, starts[j]));
        j += 1;
    }
    assert(keys(starts@).len() == starts@.len());
    out
}

/// The pages of a row in short: the first one, and how many others.
pub open spec fn summary(pages: Seq<Seq<char>>) -> Seq<char> {
    let d = distinct(pages);
    if d.len() == 0 {
        "—"@
    } else if d.len() == 1 {
        d[0]
    } else {
        d[0] + "…(+"@ + dec(d.len() - 1) + ")"@
    }
}

/// The pages of a row in short.
pub fn page_summary(pages: &Vec<String>) -> (r: String)
    ensures
        r@ == summary(views(pages@)),
{
    let ghost x = views(pages@);
    let mut seen: Vec<String> = Vec::new();
    let mut i: usize = 0;
    assert(views(seen@) =~= Seq::<Seq<char>>::empty());
    while i < pages.len()
        invariant
            i <= pages@.len(),
            x == views(pages@),
            views(seen@) == distinct(x.take(i as int)),
        decreases pages@.len() - i,
    {
        proof {
            lemma_take_more(x, i as int);
        }
        if !lists(&seen, pages[i].as_str()) {
            push_text(&mut seen, pages[i].clone());
        }
        i += 1;
    }
    proof {
        lemma_take_all(x);
        assert(views(seen@).len() == seen@.len());
    }
    let n: usize = seen.len();
    if n == 0 {
        "—".to_owned()
    } else {
        let mut out = seen[0].clone();
        assert(views(seen@)[0] == seen@[0]@);
        if n > 1 {
            out.append("…(+");
            text::push_dec(&mut out, (n - 1) as u64);
            out.append(")");
        }
        out
    }
}

/// A row of the time table in text.
pub open spec fn row_text(b: Bucket, frames: bool) -> Seq<char> {
    "  "@ + clock(b.t0_ms as int / 1000) + " "@ + pad_right(repeat('#', b.bar as int), 12, ' ') + " 说话"@ + pad_left(
        dec(b.percent as int),
        3,
        ' ',
    ) + "% 笔"@ + pad_left(dec(b.strokes as int), 4, ' ') + " 擦"@ + pad_left(dec(b.erases as int), 3, ' ') + (if frames {
        " 帧"@ + pad_left(dec(b.keyframes as int), 3, ' ')
    } else {
        Seq::empty()
    }) + "  "@ + summary(views(b.pages@)) + "\n"@
}

/// The rows of the time table in text.
pub open spec fn rows_text(rows: Seq<Bucket>, frames: bool) -> Seq<char>
    decreases rows.len(),
{
    if rows.len() == 0 {
        Seq::empty()
    } else {
        rows_text(rows.drop_last(), frames) + row_text(rows.last(), frames)
    }
}

fn push_padded(out: &mut String, n: u64, w: usize)
    ensures
        final(out)@ == old(out)@ + pad_left(dec(n as int), w as int, ' '),
{
    text::push_pad_left(out, text::dec_text(n).as_str(), w, ' ');
}

fn push_row(out: &mut String, b: &Bucket, frames: bool)
    ensures
        final(out)@ == old(out)@ + row_text(*b, frames),
{
    let mut bar = String::new();
    text::push_repeat(&mut bar, '#', b.bar);
    assert(bar@ =~= repeat('#', b.bar as int));
    let shots = if frames {
        let mut s = " 帧".to_owned();
        push_padded(&mut s, b.keyframes as u64, 3);
        s
    } else {
        String::new()
    };
    assert(!frames ==> shots@ =~= Seq::<char>::empty());
    let mut row = "  ".to_owned();
    readable::push_clock(&mut row, b.t0_ms / 1000);
    row.append(" ");
    text::push_pad_right(&mut row, bar.as_str(), 12, ' ');
    row.append(" 说话");
    push_padded(&mut row, b.percent as u64, 3);
    row.append("% 笔");
    push_padded(&mut row, b.strokes as u64, 4);
    row.append(" 擦");
    push_padded(&mut row, b.erases as u64, 3);
    row.append(shots.as_str());
    row.append("  ");
    row.append(page_summary(&b.pages).as_str());
    row.append("\n");
    out.append(row.as_str());
}

// ---------------------------------------------------------------------------------------------
// The pages of the board
// ---------------------------------------------------------------------------------------------

/// The pages that lines touch.
pub open spec fn page_refs() -> spec_fn(ItemView) -> Option<Seq<char>> {
    |i: ItemView| page_ref(i)
}

/// The pages of the board, by name.
pub open spec fn board(s: Seq<ItemView>) -> Seq<Seq<char>> {
    name_list(collect(s, page_refs()))
}

/// When a line touches page `p`.
pub open spec fn touched_at(p: Seq<char>) -> spec_fn(ItemView) -> Option<int> {
    |i: ItemView|
        if page_ref(i) == Some(p) {
            Some(i.t0)
        } else {
            None
        }
}

/// Strokes on page `p`.
pub open spec fn stroke_on(p: Seq<char>) -> spec_fn(ItemView) -> bool {
    |i: ItemView| i.kind == kinds::INK_STROKE_COMMIT@ && page_ref(i) == Some(p)
}

/// A page in text: its name, when it first appears, and its strokes.
pub open spec fn page_text(s: Seq<ItemView>, p: Seq<char>) -> Seq<char> {
    let t = match first_some(s, touched_at(p)) {
        Some(t) => t,
        None => 0,
    };
    "  "@ + pad_right(p, 16, ' ') + " "@ + pad_left(clock(t / 1000), 7, ' ') + " · "@ + pad_left(
        dec(count(s, stroke_on(p))),
        4,
        ' ',
    ) + " 笔\n"@
}

/// The pages in text.
pub open spec fn pages_text(s: Seq<ItemView>, ps: Seq<Seq<char>>) -> Seq<char>
    decreases ps.len(),
{
    if ps.len() == 0 {
        Seq::empty()
    } else {
        pages_text(s, ps.drop_last()) + page_text(s, ps.last())
    }
}

fn board_of(v: &Vec<TrackItem>) -> (r: Vec<String>)
    ensures
        views(r@) == board(item_views(v@)),
{
    let ghost s = item_views(v@);
    let mut out: Vec<String> = Vec::new();
    let mut i: usize = 0;
    assert(views(out@) =~= Seq::<Seq<char>>::empty());
    while i < v.len()
        invariant
            i <= v@.len(),
            s == item_views(v@),
            views(out@) == board(s.take(i as int)),
        decreases v@.len() - i,
    {
        proof {
            lemma_take_more(s, i as int);
            assert(s[i as int] == v@[i as int]@);
        }
        match page_of(&v[i]) {
            Some(p) => {
                proof {
                    let a = collect(s.take(i as int), page_refs());
                    assert(collect(s.take(i + 1), page_refs()) == a.push(p@));
                    assert(a.push(p@).drop_last() =~= a);
                }
                insert_name(&mut out, p);
            },
            None => {},
        }
        i += 1;
    }
    proof {
        lemma_take_all(s);
    }
    out
}

fn push_page(out: &mut String, v: &Vec<TrackItem>, p: &str)
    ensures
        final(out)@ == old(out)@ + page_text(item_views(v@), p@),
{
    let ghost s = item_views(v@);
    let ghost before = out@;
    let mut first: Option<u64> = None;
    let mut n: usize = 0;
    let mut i: usize = 0;
    while i < v.len()
        invariant
            i <= v@.len(),
            s == item_views(v@),
            n <= i,
            n == count(s.take(i as int), stroke_on(p@)),
            (match first {
                Some(t) => Some(t as int),
                None => None,
            }) == first_some(s.take(i as int), touched_at(p@)),
        decreases v@.len() - i,
    {
        proof {
            lemma_take_more(s, i as int);
            assert(s[i as int] == v@[i as int]@);
        }
        match page_of(&v[i]) {
            Some(q) => {
                if same(q, p) {
                    if first.is_none() {
                        first = Some(v[i].t0_ms);
                    }
                    if same(v[i].kind.as_str(), kinds::INK_STROKE_COMMIT) {
                        n += 1;
                    }
                }
            },
            None => {},
        }
        i += 1;
    }
    proof {
        lemma_take_all(s);
    }
    let t: u64 = match first {
        Some(t) => t,
        None => 0,
    };
    out.append("  ");
    text::push_pad_right(out, p, 16, ' ');
    out.append(" ");
    let mut at = String::new();
    readable::push_clock(&mut at, t / 1000);
    assert(at@ =~= clock(t as int / 1000));
    text::push_pad_left(out, at.as_str(), 7, ' ');
    out.append(" · ");
    push_padded(out, n as u64, 4);
    out.append(" 笔\n");
    assert(out@ =~= before + page_text(s, p@));
}

// ---------------------------------------------------------------------------------------------
// The sources
// ---------------------------------------------------------------------------------------------

/// What is wrong with a source.
pub open spec fn flags(s: SourceHealth) -> Seq<Seq<char>> {
    let a: Seq<Seq<char>> = Seq::empty();
    let a = if s.gaps > 0 {
        a.push("缺口 "@ + dec(s.gaps as int) + " 处/丢 "@ + dec(s.lost_events as int) + " 条"@)
    } else {
        a
    };
    let a = if s.restarts > 0 {
        a.push("重启 "@ + dec(s.restarts as int) + " 次"@)
    } else {
        a
    };
    let a = if s.over_budget > 0 {
        a.push("超预算 "@ + dec(s.over_budget as int) + " 条"@)
    } else {
        a
    };
    let a = if s.duplicates > 0 {
        a.push("重复 "@ + dec(s.duplicates as int) + " 条"@)
    } else {
        a
    };
    let a = if s.rejected > 0 {
        a.push("解析失败 "@ + dec(s.rejected as int) + " 条"@)
    } else {
        a
    };
    if s.silent {
        a.push("声明了产出却全程无事件"@)
    } else {
        a
    }
}

/// A source in text.
pub open spec fn source_text(id: Seq<char>, s: SourceHealth) -> Seq<char> {
    "  "@ + pad_right(id, 16, ' ') + " "@ + pad_left(dec(s.events as int), 6, ' ') + " 条  收下 "@ + pad_left(
        dec(s.accepted as int),
        6,
        ' ',
    ) + "  "@ + (if flags(s).len() == 0 {
        "正常"@
    } else {
        join(flags(s), "，"@)
    }) + "\n"@
}

/// The names of the sources.
pub open spec fn source_names(v: Seq<(String, SourceHealth)>) -> Seq<Seq<char>> {
    v.map_values(|p: (String, SourceHealth)| p.0@)
}

/// The sources named `id` in text, the first one only.
pub open spec fn source_lines(v: Seq<(String, SourceHealth)>, id: Seq<char>) -> Seq<char>
    decreases v.len(),
{
    if v.len() == 0 {
        Seq::empty()
    } else if v[0].0@ == id {
        source_text(id, v[0].1)
    } else {
        source_lines(v.drop_first(), id)
    }
}

/// The sources in text, by name.
pub open spec fn sources_text(v: Seq<(String, SourceHealth)>, ids: Seq<Seq<char>>) -> Seq<char>
    decreases ids.len(),
{
    if ids.len() == 0 {
        Seq::empty()
    } else {
        sources_text(v, ids.drop_last()) + source_lines(v, ids.last())
    }
}

/// The warnings in text.
pub open spec fn warnings_text(w: Seq<Seq<char>>) -> Seq<char>
    decreases w.len(),
{
    if w.len() == 0 {
        Seq::empty()
    } else {
        warnings_text(w.drop_last()) + "  ！"@ + w.last() + "\n"@
    }
}

fn phrase(a: &str, n: u64, b: &str) -> (r: String)
    ensures
        r@ == a@ + dec(n as int) + b@,
{
    let mut s = a.to_owned();
    text::push_dec(&mut s, n);
    s.append(b);
    s
}

fn flags_of(s: &SourceHealth) -> (r: Vec<String>)
    ensures
        views(r@) == flags(*s),
{
    let mut v: Vec<String> = Vec::new();
    assert(views(v@) =~= Seq::<Seq<char>>::empty());
    if s.gaps > 0 {
        let mut t = phrase("缺口 ", s.gaps, " 处/丢 ");
        text::push_dec(&mut t, s.lost_events);
        t.append(" 条");
        push_text(&mut v, t);
    }
    if s.restarts > 0 {
        push_text(&mut v, phrase("重启 ", s.restarts, " 次"));
    }
    if s.over_budget > 0 {
        push_text(&mut v, phrase("超预算 ", s.over_budget, " 条"));
    }
    if s.duplicates > 0 {
        push_text(&mut v, phrase("重复 ", s.duplicates, " 条"));
    }
    if s.rejected > 0 {
        push_text(&mut v, phrase("解析失败 ", s.rejected, " 条"));
    }
    if s.silent {
        push_text(&mut v, "声明了产出却全程无事件".to_owned());
    }
    v
}

fn push_source(out: &mut String, id: &str, s: &SourceHealth)
    ensures
        final(out)@ == old(out)@ + source_text(id@, *s),
{
    let ghost before = out@;
    let f = flags_of(s);
    assert(views(f@).len() == f@.len());
    out.append("  ");
    text::push_pad_right(out, id, 16, ' ');
    out.append(" ");
    push_padded(out, s.events, 6);
    out.append(" 条  收下 ");
    push_padded(out, s.accepted, 6);
    out.append("  ");
    if f.len() == 0 {
        out.append("正常");
    } else {
        out.append(text::join_of(&f, "，").as_str());
    }
    out.append("\n");
    assert(out@ =~= before + source_text(id@, *s));
}

fn push_source_named(out: &mut String, v: &Vec<(String, SourceHealth)>, id: &str)
    ensures
        final(out)@ == old(out)@ + source_lines(v@, id@),
{
    let mut i: usize = 0;
    assert(v@.skip(0) =~= v@);
    while i < v.len()
        invariant
            i <= v@.len(),
            source_lines(v@, id@) == source_lines(v@.skip(i as int), id@),
            out@ == old(out)@,
        decreases v@.len() - i,
    {
        proof {
            assert(v@.skip(i as int).drop_first() =~= v@.skip(i + 1));
        }
        if same(v[i].0.as_str(), id) {
            push_source(out, id, &v[i].1);
            return;
        }
        i += 1;
    }
    assert(out@ =~= old(out)@ + source_lines(v@, id@));
}

fn ids_of(v: &Vec<(String, SourceHealth)>) -> (r: Vec<String>)
    ensures
        views(r@) == name_list(source_names(v@)),
{
    let ghost x = source_names(v@);
    let mut out: Vec<String> = Vec::new();
    let mut i: usize = 0;
    assert(views(out@) =~= Seq::<Seq<char>>::empty());
    while i < v.len()
        invariant
            i <= v@.len(),
            x == source_names(v@),
            views(out@) == name_list(x.take(i as int)),
        decreases v@.len() - i,
    {
        proof {
            lemma_take_more(x, i as int);
        }
        insert_name(&mut out, v[i].0.as_str());
        i += 1;
    }
    proof {
        lemma_take_all(x);
    }
    out
}

// ---------------------------------------------------------------------------------------------
// The page
// ---------------------------------------------------------------------------------------------

/// The number of events in the figures.
pub open spec fn event_sum(st: LessonStats) -> int {
    st.strokes + st.utterances + st.keyframes + st.audio_chunks + st.eval_records
}

/// Class and subject.
pub open spec fn title_line(p: AiPayload) -> Seq<char> {
    or_else(opt_view(p.lesson.class), "班级未知"@) + " · "@ + or_else(opt_view(p.lesson.subject), "学科未知"@) + "\n"@
}

/// Teacher, lesson and start.
pub open spec fn lesson_line(p: AiPayload) -> Seq<char> {
    "教师 "@ + or_else(opt_view(p.lesson.teacher), "-"@) + "   课次 "@ + p.lesson.lesson_id@ + "   开始 "@ + moment(
        p.lesson.started_at_utc_ms as int,
    ) + "\n"@
}

/// The lesson before.
pub open spec fn prev_line(p: AiPayload) -> Seq<char> {
    match p.prev_lesson_id {
        Some(prev) => "上一节 "@ + prev@ + "（摘要会接续该链）\n"@,
        None => "上一节 未指定（本节是这条链的第一节，无法接续前情）\n"@,
    }
}

/// Axis, clock and number of events.
pub open spec fn axis_line(st: LessonStats) -> Seq<char> {
    "课堂时间轴 "@ + clock(
        (if st.duration_ms > 1 {
            st.duration_ms as int
        } else {
            1
        }) / 1000,
    ) + "   采集进程 "@ + clock(st.wall_ms as int / 1000) + "   事件总量 "@ + dec(event_sum(st)) + "\n\n"@
}

/// The head of the page.
pub open spec fn head_text(p: AiPayload) -> Seq<char> {
    title_line(p) + lesson_line(p) + prev_line(p) + axis_line(p.stats)
}

/// How long was spoken.
pub open spec fn speech_line(st: LessonStats) -> Seq<char> {
    "  讲话 "@ + clock((st.teacher_ms + st.student_ms) / 1000) + "（教师 "@ + clock(st.teacher_ms as int / 1000)
        + " / 学生 "@ + clock(st.student_ms as int / 1000) + "），最长一次静默 "@ + clock(
        st.longest_silence_ms as int / 1000,
    ) + "\n"@
}

/// How much was written, and how much of it while speaking.
pub open spec fn ink_line(st: LessonStats, pct: Seq<char>) -> Seq<char> {
    "  板书 "@ + dec(st.strokes as int) + " 笔 / "@ + clock(st.ink_time_ms as int / 1000) + "，其中 "@ + clock(
        st.writing_while_speaking_ms as int / 1000,
    ) + "（"@ + pct + "）是边讲边写\n"@
}

/// Pages, erasures and pictures.
pub open spec fn board_line(st: LessonStats) -> Seq<char> {
    "  板面出现 "@ + dec(st.pages_touched as int) + " 页，撤销或擦除 "@ + dec(st.erases as int) + " 次；屏幕证据帧 "@ + dec(
        st.keyframes as int,
    ) + " 张\n"@
}

/// Sound and questionnaires.
pub open spec fn audio_line(st: LessonStats) -> Seq<char> {
    "  音频 "@ + dec(st.audio_chunks as int) + " 段 / "@ + size_text(st.audio_bytes as int) + "；评估记录 "@ + dec(
        st.eval_records as int,
    ) + " 条\n\n"@
}

/// The amounts.
pub open spec fn amounts_text(st: LessonStats, pct: Seq<char>) -> Seq<char> {
    "一、量的分布\n"@ + speech_line(st) + ink_line(st, pct) + board_line(st) + audio_line(st)
}

/// The time table.
pub open spec fn table_text(st: LessonStats, width: int, rows: Seq<Bucket>) -> Seq<char> {
    let frames = st.keyframes > 0;
    "二、逐 "@ + dec(width / 1000) + " 秒一格（"@ + (if frames {
        "说话% · 笔 · 擦 · 帧 · 页"@
    } else {
        "说话% · 笔 · 擦 · 页"@
    }) + "）\n"@ + rows_text(rows, frames) + "\n"@
}

/// The pages of the board.
pub open spec fn board_text(s: Seq<ItemView>) -> Seq<char> {
    "三、板面轨迹（首次出现时间 · 该页笔数）\n"@ + (if board(s).len() == 0 {
        "  本节没有任何笔迹事件\n"@
    } else {
        pages_text(s, board(s)) + "\n"@
    })
}

/// The sources and the warnings.
pub open spec fn health_text(p: AiPayload) -> Seq<char> {
    "四、采集健康（这一节的数据能支撑到哪一步）\n"@ + sources_text(p.sources@, name_list(source_names(p.sources@)))
        + warnings_text(views(p.warnings@)) + "\n"@
}

/// What cannot be concluded, for want of data.
pub open spec fn gaps(p: AiPayload) -> Seq<Seq<char>> {
    let a: Seq<Seq<char>> = Seq::empty();
    let a = if p.stats.audio_chunks == 0 {
        a.push("没有录音：任何师生言语互动、提问层次、讲授占比都不成立"@)
    } else {
        a
    };
    let a = if p.stats.utterances == 0 {
        a.push("没有转写：有录音但还没出文字，话语类结论要等云端转写回灌"@)
    } else {
        a
    };
    let a = if p.stats.strokes == 0 {
        a.push("没有笔迹：板书结构、书写流畅性、板面留存都无依据"@)
    } else {
        a
    };
    let a = if p.stats.keyframes == 0 {
        a.push("没有屏幕证据：希沃课件那一页讲了什么无法回溯，只能靠课件原文件"@)
    } else {
        a
    };
    let a = if p.stats.eval_records == 0 {
        a.push("没有评估数据：达成度、错因、分层建议一律不做"@)
    } else {
        a
    };
    if p.lesson.courseware@.len() == 0 {
        a.push("没有课件文件：讲到的内容只能靠板面与转写推断，无法对齐教学进度"@)
    } else {
        a
    }
}

/// Lines with a dot in front.
pub open spec fn dotted(v: Seq<Seq<char>>) -> Seq<char>
    decreases v.len(),
{
    if v.len() == 0 {
        Seq::empty()
    } else {
        dotted(v.drop_last()) + "  · "@ + v.last() + "\n"@
    }
}

/// What cannot be concluded.
pub open spec fn gaps_text(p: AiPayload) -> Seq<char> {
    "五、按本轮采集，以下结论不能下\n"@ + (if gaps(p).len() == 0 {
        "  （无：本轮五类数据齐备）\n"@
    } else {
        dotted(gaps(p))
    })
}

/// The page of a lesson, given the share of writing that is spoken over and the rows of the time
/// table.
pub open spec fn page(p: AiPayload, width: int, pct: Seq<char>, rows: Seq<Bucket>) -> Seq<char> {
    head_text(p) + amounts_text(p.stats, pct) + table_text(p.stats, width, rows) + board_text(item_views(p.track@))
        + health_text(p) + gaps_text(p)
}

fn push_opt(out: &mut String, s: &Option<String>, d: &str)
    ensures
        final(out)@ == old(out)@ + or_else(opt_view(*s), d@),
{
    match s {
        Some(x) => out.append(x.as_str()),
        None => out.append(d),
    }
}

fn push_ms(out: &mut String, ms: u64)
    ensures
        final(out)@ == old(out)@ + clock(ms as int / 1000),
{
    readable::push_clock(out, ms / 1000);
}

fn head(p: &AiPayload) -> (r: String)
    ensures
        r@ == head_text(*p),
{
    let st = &p.stats;
    let mut title = String::new();
    push_opt(&mut title, &p.lesson.class, "班级未知");
    assert(title@ =~= or_else(opt_view(p.lesson.class), "班级未知"@));
    title.append(" · ");
    push_opt(&mut title, &p.lesson.subject, "学科未知");
    title.append("\n");
    let mut lesson = "教师 ".to_owned();
    push_opt(&mut lesson, &p.lesson.teacher, "-");
    lesson.append("   课次 ");
    lesson.append(p.lesson.lesson_id.as_str());
    lesson.append("   开始 ");
    lesson.append(readable::utc_text(p.lesson.started_at_utc_ms).as_str());
    lesson.append("\n");
    let prev = match &p.prev_lesson_id {
        Some(prev) => {
            let mut s = "上一节 ".to_owned();
            s.append(prev.as_str());
            s.append("（摘要会接续该链）\n");
            s
        },
        None => "上一节 未指定（本节是这条链的第一节，无法接续前情）\n".to_owned(),
    };
    let mut axis = "课堂时间轴 ".to_owned();
    push_ms(
        &mut axis,
        if st.duration_ms > 1 {
            st.duration_ms
        } else {
            1
        },
    );
    axis.append("   采集进程 ");
    push_ms(&mut axis, st.wall_ms);
    axis.append("   事件总量 ");
    text::push_dec_wide(
        &mut axis,
        st.strokes as u128 + st.utterances as u128 + st.keyframes as u128 + st.audio_chunks as u128 + st.eval_records as u128,
    );
    axis.append("\n\n");
    title.append(lesson.as_str());
    title.append(prev.as_str());
    title.append(axis.as_str());
    title
}

fn amounts(st: &LessonStats, pct: &str) -> (r: String)
    ensures
        r@ == amounts_text(*st, pct@),
{
    let mut speech = "  讲话 ".to_owned();
    readable::push_clock(&mut speech, ((st.teacher_ms as u128 + st.student_ms as u128) / 1000) as u64);
    speech.append("（教师 ");
    push_ms(&mut speech, st.teacher_ms);
    speech.append(" / 学生 ");
    push_ms(&mut speech, st.student_ms);
    speech.append("），最长一次静默 ");
    push_ms(&mut speech, st.longest_silence_ms);
    speech.append("\n");
    let mut ink = "  板书 ".to_owned();
    text::push_dec(&mut ink, st.strokes as u64);
    ink.append(" 笔 / ");
    push_ms(&mut ink, st.ink_time_ms);
    ink.append("，其中 ");
    push_ms(&mut ink, st.writing_while_speaking_ms);
    ink.append("（");
    ink.append(pct);
    ink.append("）是边讲边写\n");
    let mut board = "  板面出现 ".to_owned();
    text::push_dec(&mut board, st.pages_touched as u64);
    board.append(" 页，撤销或擦除 ");
    text::push_dec(&mut board, st.erases as u64);
    board.append(" 次；屏幕证据帧 ");
    text::push_dec(&mut board, st.keyframes as u64);
    board.append(" 张\n");
    let mut audio = "  音频 ".to_owned();
    text::push_dec(&mut audio, st.audio_chunks as u64);
    audio.append(" 段 / ");
    audio.append(readable::human(st.audio_bytes).as_str());
    audio.append("；评估记录 ");
    text::push_dec(&mut audio, st.eval_records as u64);
    audio.append(" 条\n\n");
    let mut out = "一、量的分布\n".to_owned();
    out.append(speech.as_str());
    out.append(ink.as_str());
    out.append(board.as_str());
    out.append(audio.as_str());
    out
}

fn push_table(out: &mut String, st: &LessonStats, width: u64, rows: &[Bucket])
    ensures
        final(out)@ == old(out)@ + table_text(*st, width as int, rows@),
{
    let ghost before = out@;
    let frames = st.keyframes > 0;
    out.append("二、逐 ");
    text::push_dec(out, width / 1000);
    out.append(" 秒一格（");
    if frames {
        out.append("说话% · 笔 · 擦 · 帧 · 页");
    } else {
        out.append("说话% · 笔 · 擦 · 页");
    }
    out.append("）\n");
    let ghost mid = out@;
    let mut i: usize = 0;
    assert(out@ =~= mid + rows_text(rows@.take(0), frames));
    while i < rows.len()
        invariant
            i <= rows@.len(),
            out@ == mid + rows_text(rows@.take(i as int), frames),
        decreases rows@.len() - i,
    {
        proof {
            lemma_take_more(rows@, i as int);
        }
        push_row(out, &rows[i], frames);
        i += 1;
        assert(out@ =~= mid + rows_text(rows@.take(i as int), frames));
    }
    proof {
        lemma_take_all(rows@);
    }
    out.append("\n");
    assert(out@ =~= before + table_text(*st, width as int, rows@));
}

fn push_board(out: &mut String, v: &Vec<TrackItem>)
    ensures
        final(out)@ == old(out)@ + board_text(item_views(v@)),
{
    let ghost before = out@;
    let ghost s = item_views(v@);
    let names = board_of(v);
    let ghost x = views(names@);
    assert(x.len() == names@.len());
    out.append("三、板面轨迹（首次出现时间 · 该页笔数）\n");
    if names.len() == 0 {
        out.append("  本节没有任何笔迹事件\n");
    } else {
        let ghost mid = out@;
        let mut i: usize = 0;
        assert(out@ =~= mid + pages_text(s, x.take(0)));
        while i < names.len()
            invariant
                i <= names@.len(),
                x == views(names@),
                s == item_views(v@),
                out@ == mid + pages_text(s, x.take(i as int)),
            decreases names@.len() - i,
        {
            proof {
                lemma_take_more(x, i as int);
                assert(x[i as int] == names@[i as int]@);
            }
            push_page(out, v, names[i].as_str());
            i += 1;
            assert(out@ =~= mid + pages_text(s, x.take(i as int)));
        }
        proof {
            lemma_take_all(x);
        }
        out.append("\n");
    }
    assert(out@ =~= before + board_text(s));
}

fn push_health(out: &mut String, p: &AiPayload)
    ensures
        final(out)@ == old(out)@ + health_text(*p),
{
    let ghost before = out@;
    out.append("四、采集健康（这一节的数据能支撑到哪一步）\n");
    let ids = ids_of(&p.sources);
    let ghost x = views(ids@);
    let ghost mid = out@;
    let mut i: usize = 0;
    assert(out@ =~= mid + sources_text(p.sources@, x.take(0)));
    while i < ids.len()
        invariant
            i <= ids@.len(),
            x == views(ids@),
            out@ == mid + sources_text(p.sources@, x.take(i as int)),
        decreases ids@.len() - i,
    {
        proof {
            lemma_take_more(x, i as int);
            assert(x[i as int] == ids@[i as int]@);
        }
        push_source_named(out, &p.sources, ids[i].as_str());
        i += 1;
        assert(out@ =~= mid + sources_text(p.sources@, x.take(i as int)));
    }
    proof {
        lemma_take_all(x);
    }
    let ghost w = views(p.warnings@);
    let ghost mid2 = out@;
    let mut j: usize = 0;
    assert(out@ =~= mid2 + warnings_text(w.take(0)));
    while j < p.warnings.len()
        invariant
            j <= p.warnings@.len(),
            w == views(p.warnings@),
            out@ == mid2 + warnings_text(w.take(j as int)),
        decreases p.warnings@.len() - j,
    {
        proof {
            lemma_take_more(w, j as int);
            assert(w[j as int] == p.warnings@[j as int]@);
        }
        out.append("  ！");
        out.append(p.warnings[j].as_str());
        out.append("\n");
        j += 1;
        assert(out@ =~= mid2 + warnings_text(w.take(j as int)));
    }
    proof {
        lemma_take_all(w);
    }
    out.append("\n");
    assert(out@ =~= before + health_text(*p));
}

fn gaps_of(p: &AiPayload) -> (r: Vec<String>)
    ensures
        views(r@) == gaps(*p),
{
    let mut v: Vec<String> = Vec::new();
    assert(views(v@) =~= Seq::<Seq<char>>::empty());
    if p.stats.audio_chunks == 0 {
        push_text(&mut v, "没有录音：任何师生言语互动、提问层次、讲授占比都不成立".to_owned());
    }
    if p.stats.utterances == 0 {
        push_text(&mut v, "没有转写：有录音但还没出文字，话语类结论要等云端转写回灌".to_owned());
    }
    if p.stats.strokes == 0 {
        push_text(&mut v, "没有笔迹：板书结构、书写流畅性、板面留存都无依据".to_owned());
    }
    if p.stats.keyframes == 0 {
        push_text(&mut v, "没有屏幕证据：希沃课件那一页讲了什么无法回溯，只能靠课件原文件".to_owned());
    }
    if p.stats.eval_records == 0 {
        push_text(&mut v, "没有评估数据：达成度、错因、分层建议一律不做".to_owned());
    }
    if p.lesson.courseware.len() == 0 {
        push_text(&mut v, "没有课件文件：讲到的内容只能靠板面与转写推断，无法对齐教学进度".to_owned());
    }
    v
}

fn push_gaps(out: &mut String, p: &AiPayload)
    ensures
        final(out)@ == old(out)@ + gaps_text(*p),
{
    let ghost before = out@;
    let v = gaps_of(p);
    let ghost x = views(v@);
    assert(x.len() == v@.len());
    out.append("五、按本轮采集，以下结论不能下\n");
    if v.len() == 0 {
        out.append("  （无：本轮五类数据齐备）\n");
    } else {
        let ghost mid = out@;
        let mut i: usize = 0;
        assert(out@ =~= mid + dotted(x.take(0)));
        while i < v.len()
            invariant
                i <= v@.len(),
                x == views(v@),
                out@ == mid + dotted(x.take(i as int)),
            decreases v@.len() - i,
        {
            proof {
                lemma_take_more(x, i as int);
                assert(x[i as int] == v@[i as int]@);
            }
            out.append("  · ");
            out.append(v[i].as_str());
            out.append("\n");
            i += 1;
            assert(out@ =~= mid + dotted(x.take(i as int)));
        }
        proof {
            lemma_take_all(x);
        }
    }
    assert(out@ =~= before + gaps_text(*p));
}

/// Whether rows are the time table of a lesson, with these bars and percentages for the shares of
/// speech.
pub open spec fn is_table(rows: Seq<Bucket>, track: Seq<ItemView>, width: int, shares: Seq<(usize, u32)>) -> bool {
    let starts = row_starts(track, width);
    &&& rows.len() == starts.len()
    &&& shares.len() == starts.len()
    &&& forall|j: int|
        0 <= j < rows.len() ==> counts_row(
            Bucket { bar: 0, percent: 0, ..#[trigger] rows[j] },
            track,
            width,
            starts[j],
        ) && rows[j].bar == shares[j].0 && rows[j].percent == shares[j].1
}

fn fill_rows(p: &AiPayload, bucket_ms: u64, shares: &[(usize, u32)]) -> (r: Vec<Bucket>)
    requires
        shares@.len() == row_starts(item_views(p.track@), width_of(bucket_ms)).len(),
    ensures
        is_table(r@, item_views(p.track@), width_of(bucket_ms), shares@),
{
    let mut rows = buckets(p, bucket_ms);
    let ghost plain = rows@;
    let ghost track = item_views(p.track@);
    let ghost width = width_of(bucket_ms);
    let mut i: usize = 0;
    while i < rows.len()
        invariant
            i <= rows@.len(),
            rows@.len() == plain.len(),
            shares@.len() == plain.len(),
            plain.len() == row_starts(track, width).len(),
            forall|j: int| 0 <= j < plain.len() ==> counts_row(#[trigger] plain[j], track, width, row_starts(track, width)[j]),
            forall|j: int| i <= j < rows@.len() ==> #[trigger] rows@[j] == plain[j],
            forall|j: int|
                0 <= j < i ==> #[trigger] rows@[j] == (Bucket { bar: shares@[j].0, percent: shares@[j].1, ..plain[j] }),
        decreases rows@.len() - i,
    {
        let b = &mut rows[i];
        b.bar = shares[i].0;
        b.percent = shares[i].1;
        i += 1;
    }
    proof {
        assert forall|j: int| 0 <= j < rows@.len() implies counts_row(
            Bucket { bar: 0, percent: 0, ..#[trigger] rows@[j] },
            track,
            width,
            row_starts(track, width)[j],
        ) by {
            assert(Bucket { bar: 0, percent: 0, ..rows@[j] } == plain[j]);
        }
    }
    rows
}

/// The page of a lesson. `pct` is the share of writing that is spoken over, and `shares` has the
/// bar and the percentage for the share of speech in each row of the time table.
pub fn render_with(p: &AiPayload, bucket_ms: u64, pct: &str, shares: &[(usize, u32)]) -> (r: String)
    requires
        shares@.len() == row_starts(item_views(p.track@), width_of(bucket_ms)).len(),
    ensures
        exists|rows: Seq<Bucket>|
            is_table(rows, item_views(p.track@), width_of(bucket_ms), shares@) && r@ == #[trigger] page(
                *p,
                width_of(bucket_ms),
                pct@,
                rows,
            ),
{
    let width: u64 = if bucket_ms < 1_000 {
        1_000
    } else {
        bucket_ms
    };
    let rows = fill_rows(p, bucket_ms, shares);
    let mut out = head(p);
    out.append(amounts(&p.stats, pct).as_str());
    push_table(&mut out, &p.stats, width, rows.as_slice());
    push_board(&mut out, &p.track);
    push_health(&mut out, p);
    push_gaps(&mut out, p);
    assert(out@ == page(*p, width_of(bucket_ms), pct@, rows@));
    out
}

/// The page of a lesson, with rows of the default width.
pub fn render(p: &AiPayload, pct: &str, shares: &[(usize, u32)]) -> (r: String)
    requires
        shares@.len() == row_starts(item_views(p.track@), DEFAULT_BUCKET_MS as int).len(),
    ensures
        exists|rows: Seq<Bucket>|
            is_table(rows, item_views(p.track@), DEFAULT_BUCKET_MS as int, shares@) && r@ == #[trigger] page(
                *p,
                DEFAULT_BUCKET_MS as int,
                pct@,
                rows,
            ),
{
    render_with(p, DEFAULT_BUCKET_MS, pct, shares)
}

// ---------------------------------------------------------------------------------------------
// What holds of every page
// ---------------------------------------------------------------------------------------------

/// What cannot be concluded without a kind of data: sound, transcript, ink, pictures, questionnaires,
/// courseware, in that order.
pub open spec fn caveats() -> Seq<Seq<char>> {
    seq![
        "没有录音：任何师生言语互动、提问层次、讲授占比都不成立"@,
        "没有转写：有录音但还没出文字，话语类结论要等云端转写回灌"@,
        "没有笔迹：板书结构、书写流畅性、板面留存都无依据"@,
        "没有屏幕证据：希沃课件那一页讲了什么无法回溯，只能靠课件原文件"@,
        "没有评估数据：达成度、错因、分层建议一律不做"@,
        "没有课件文件：讲到的内容只能靠板面与转写推断，无法对齐教学进度"@,
    ]
}

/// How much there is of each kind of data, in the same order.
pub open spec fn amounts_had(p: AiPayload) -> Seq<int> {
    seq![
        p.stats.audio_chunks as int,
        p.stats.utterances as int,
        p.stats.strokes as int,
        p.stats.keyframes as int,
        p.stats.eval_records as int,
        p.lesson.courseware@.len() as int,
    ]
}

proof fn lemma_caveats()
    ensures
        caveats().len() == 6,
        forall|i: int, j: int| 0 <= i < j < 6 ==> #[trigger] caveats()[i] != #[trigger] caveats()[j],
{
    reveal_strlit("没有录音：任何师生言语互动、提问层次、讲授占比都不成立");
    reveal_strlit("没有转写：有录音但还没出文字，话语类结论要等云端转写回灌");
    reveal_strlit("没有笔迹：板书结构、书写流畅性、板面留存都无依据");
    reveal_strlit("没有屏幕证据：希沃课件那一页讲了什么无法回溯，只能靠课件原文件");
    reveal_strlit("没有评估数据：达成度、错因、分层建议一律不做");
    reveal_strlit("没有课件文件：讲到的内容只能靠板面与转写推断，无法对齐教学进度");
    let c = caveats();
    assert(c[0][2] == '录');
    assert(c[1][2] == '转');
    assert(c[2][2] == '笔');
    assert(c[3][2] == '屏');
    assert(c[4][2] == '评');
    assert(c[5][2] == '课');
    assert forall|i: int, j: int| 0 <= i < j < 6 implies #[trigger] c[i] != #[trigger] c[j] by {
        assert(c[i][2] != c[j][2]);
    }
}

proof fn lemma_push_has(s: Seq<Seq<char>>, x: Seq<char>, y: Seq<char>)
    ensures
        s.push(x).contains(y) <==> s.contains(y) || y == x,
{
    if s.contains(y) {
        let n = choose|n: int| 0 <= n < s.len() && s[n] == y;
        assert(s.push(x)[n] == y);
    }
    if y == x {
        assert(s.push(x)[s.len() as int] == y);
    }
    if s.push(x).contains(y) {
        let n = choose|n: int| 0 <= n < s.push(x).len() && s.push(x)[n] == y;
        if n < s.len() {
            assert(s[n] == y);
        }
    }
}

/// For each kind of data, what cannot be concluded without it is listed exactly where there is none
/// of it, whatever there is of the others; and nothing else is listed.
pub proof fn missing_data_is_told(p: AiPayload, k: int)
    requires
        0 <= k < 6,
    ensures
        gaps(p).contains(caveats()[k]) <==> amounts_had(p)[k] == 0,
        forall|i: int| 0 <= i < gaps(p).len() ==> caveats().contains(#[trigger] gaps(p)[i]),
{
    lemma_caveats();
    let c = caveats();
    let had = amounts_had(p);
    let a0: Seq<Seq<char>> = Seq::empty();
    let a1 = if had[0] == 0 {
        a0.push(c[0])
    } else {
        a0
    };
    let a2 = if had[1] == 0 {
        a1.push(c[1])
    } else {
        a1
    };
    let a3 = if had[2] == 0 {
        a2.push(c[2])
    } else {
        a2
    };
    let a4 = if had[3] == 0 {
        a3.push(c[3])
    } else {
        a3
    };
    let a5 = if had[4] == 0 {
        a4.push(c[4])
    } else {
        a4
    };
    let a6 = if had[5] == 0 {
        a5.push(c[5])
    } else {
        a5
    };
    assert(a6 == gaps(p));
    lemma_push_has(a0, c[0], c[k]);
    lemma_push_has(a1, c[1], c[k]);
    lemma_push_has(a2, c[2], c[k]);
    lemma_push_has(a3, c[3], c[k]);
    lemma_push_has(a4, c[4], c[k]);
    lemma_push_has(a5, c[5], c[k]);
    assert forall|q: int| 0 <= q < a6.len() implies c.contains(#[trigger] a6[q]) by {
        let x = a6[q];
        assert(a6.contains(x));
        lemma_push_has(a0, c[0], x);
        lemma_push_has(a1, c[1], x);
        lemma_push_has(a2, c[2], x);
        lemma_push_has(a3, c[3], x);
        lemma_push_has(a4, c[4], x);
        lemma_push_has(a5, c[5], x);
        assert(x == c[0] || x == c[1] || x == c[2] || x == c[3] || x == c[4] || x == c[5]);
    }
}

/// Whether a text has a piece.
pub open spec fn has_piece(t: Seq<char>, piece: Seq<char>) -> bool {
    exists|a: Seq<char>, b: Seq<char>| t == #[trigger] (a + piece + b)
}

proof fn lemma_piece_in_front(t: Seq<char>, piece: Seq<char>, behind: Seq<char>)
    requires
        has_piece(t, piece),
    ensures
        has_piece(t + behind, piece),
{
    let (a, b) = choose|a: Seq<char>, b: Seq<char>| t == #[trigger] (a + piece + b);
    assert(t + behind =~= a + piece + (b + behind));
}

proof fn lemma_piece_behind(before: Seq<char>, t: Seq<char>, piece: Seq<char>)
    requires
        has_piece(t, piece),
    ensures
        has_piece(before + t, piece),
{
    let (a, b) = choose|a: Seq<char>, b: Seq<char>| t == #[trigger] (a + piece + b);
    assert(before + t =~= (before + a) + piece + b);
}

proof fn lemma_whole_piece(piece: Seq<char>)
    ensures
        has_piece(piece, piece),
{
    assert(piece =~= Seq::<char>::empty() + piece + Seq::<char>::empty());
}

proof fn lemma_dotted(v: Seq<Seq<char>>, x: Seq<char>)
    requires
        v.contains(x),
    ensures
        has_piece(dotted(v), "  · "@ + x + "\n"@),
    decreases v.len(),
{
    let line = "  · "@ + x + "\n"@;
    let n = choose|n: int| 0 <= n < v.len() && v[n] == x;
    let r = dotted(v.drop_last());
    if n == v.len() - 1 {
        lemma_whole_piece(line);
        lemma_piece_behind(r, line, line);
        assert(dotted(v) =~= r + line);
    } else {
        assert(v.drop_last()[n] == x);
        lemma_dotted(v.drop_last(), x);
        lemma_piece_in_front(r, line, "  · "@);
        lemma_piece_in_front(r + "  · "@, line, v.last());
        lemma_piece_in_front(r + "  · "@ + v.last(), line, "\n"@);
    }
}

/// The page of a lesson has the line on what cannot be concluded without a kind of data wherever there
/// is none of it: a lesson that was recorded and not written out does not pass for one that was.
pub proof fn pages_tell_missing_data(p: AiPayload, width: int, pct: Seq<char>, rows: Seq<Bucket>, k: int)
    requires
        0 <= k < 6,
        amounts_had(p)[k] == 0,
    ensures
        has_piece(page(p, width, pct, rows), "  · "@ + caveats()[k] + "\n"@),
{
    missing_data_is_told(p, k);
    let line = "  · "@ + caveats()[k] + "\n"@;
    lemma_dotted(gaps(p), caveats()[k]);
    lemma_piece_behind("五、按本轮采集，以下结论不能下\n"@, dotted(gaps(p)), line);
    lemma_piece_behind(
        head_text(p) + amounts_text(p.stats, pct) + table_text(p.stats, width, rows) + board_text(item_views(p.track@))
            + health_text(p),
        gaps_text(p),
        line,
    );
}

proof fn lemma_row(t: int, width: int)
    requires
        width > 0,
        0 <= t,
    ensures
        row_of(t, width) <= t < row_of(t, width) + width,
        row_of(t, width) % width == 0,
        row_of(t, width) >= 0,
{
    let q = t / width;
    assert(q * width <= t < q * width + width && q * width >= 0) by (nonlinear_arith)
        requires
            width > 0,
            0 <= t,
            q == t / width,
    ;
    vstd::arithmetic::div_mod::lemma_mod_multiples_basic(q, width);
}

/// Whether keys ascend, each once.
pub open spec fn ascending(s: Seq<int>) -> bool {
    forall|i: int, j: int| 0 <= i < j < s.len() ==> #[trigger] s[i] < #[trigger] s[j]
}

proof fn lemma_with_key(s: Seq<int>, x: int)
    requires
        ascending(s),
    ensures
        ascending(with_key(s, x)),
        forall|y: int| #[trigger] with_key(s, x).contains(y) <==> s.contains(y) || y == x,
        s.len() > 0 && x < s.last() ==> with_key(s, x).last() == s.last(),
        s.len() == 0 || x >= s.last() ==> with_key(s, x).last() == x,
        with_key(s, x).len() > 0,
    decreases s.len(),
{
    let w = with_key(s, x);
    if s.len() == 0 {
        assert forall|y: int| #[trigger] w.contains(y) <==> s.contains(y) || y == x by {
            assert(w[0] == x);
        }
    } else if s.last() == x {
        assert(s[s.len() - 1] == x);
    } else if s.last() < x {
        assert forall|y: int| #[trigger] w.contains(y) <==> s.contains(y) || y == x by {
            if s.contains(y) {
                let n = choose|n: int| 0 <= n < s.len() && s[n] == y;
                assert(w[n] == y);
            }
            if y == x {
                assert(w[s.len() as int] == y);
            }
            if w.contains(y) {
                let n = choose|n: int| 0 <= n < w.len() && w[n] == y;
                if n < s.len() {
                    assert(s[n] == y);
                }
            }
        }
        assert forall|i: int, j: int| 0 <= i < j < w.len() implies #[trigger] w[i] < #[trigger] w[j] by {
            if j == s.len() {
                assert(i == s.len() - 1 || s[i] < s[s.len() - 1]);
            }
        }
    } else {
        let r = s.drop_last();
        assert forall|i: int, j: int| 0 <= i < j < r.len() implies #[trigger] r[i] < #[trigger] r[j] by {
            assert(s[i] < s[j]);
        }
        lemma_with_key(r, x);
        let v = with_key(r, x);
        assert(w == v.push(s.last()));
        if r.len() > 0 {
            assert(s[s.len() - 2] < s[s.len() - 1]);
        }
        assert forall|i: int, j: int| 0 <= i < j < w.len() implies #[trigger] w[i] < #[trigger] w[j] by {
            if j == v.len() {
                assert(i == v.len() - 1 || v[i] < v[v.len() - 1]);
            }
        }
        assert forall|y: int| #[trigger] w.contains(y) <==> s.contains(y) || y == x by {
            if w.contains(y) {
                let n = choose|n: int| 0 <= n < w.len() && w[n] == y;
                if n < v.len() {
                    assert(v[n] == y);
                    assert(v.contains(y));
                    if r.contains(y) {
                        let m = choose|m: int| 0 <= m < r.len() && r[m] == y;
                        assert(s[m] == y);
                    }
                } else {
                    assert(s[s.len() - 1] == y);
                }
            }
            if s.contains(y) {
                let n = choose|n: int| 0 <= n < s.len() && s[n] == y;
                if n < r.len() {
                    assert(r[n] == y);
                    assert(v.contains(y));
                    let m = choose|m: int| 0 <= m < v.len() && v[m] == y;
                    assert(w[m] == y);
                } else {
                    assert(w[v.len() as int] == y);
                }
            }
            if y == x {
                assert(v.contains(y));
                let m = choose|m: int| 0 <= m < v.len() && v[m] == y;
                assert(w[m] == y);
            }
        }
    }
}

/// The rows of the time table come in order, each once; each has a line in it, and every line of the
/// track falls into a row that is there: one that begins on a multiple of its width, not after the
/// line and less than its width before it.
pub proof fn every_line_has_its_row(s: Seq<ItemView>, width: int, i: int)
    requires
        width > 0,
        0 <= i < s.len(),
        0 <= s[i].t0,
    ensures
        ascending(row_starts(s, width)),
        row_starts(s, width).contains(row_of(s[i].t0, width)),
        row_of(s[i].t0, width) % width == 0,
        row_of(s[i].t0, width) <= s[i].t0 < row_of(s[i].t0, width) + width,
{
    lemma_row(s[i].t0, width);
    lemma_row_starts(s, width);
    assert(exists|n: int| 0 <= n < s.len() && row_of((#[trigger] s[n]).t0, width) == row_of(s[i].t0, width));
}

proof fn lemma_row_starts(s: Seq<ItemView>, width: int)
    ensures
        ascending(row_starts(s, width)),
        forall|k: int| #[trigger]
            row_starts(s, width).contains(k) <==> exists|i: int| 0 <= i < s.len() && row_of((#[trigger] s[i]).t0, width) == k,
    decreases s.len(),
{
    if s.len() > 0 {
        let r = s.drop_last();
        lemma_row_starts(r, width);
        lemma_with_key(row_starts(r, width), row_of(s.last().t0, width));
        assert forall|k: int| #[trigger]
            row_starts(s, width).contains(k) <==> exists|i: int|
                0 <= i < s.len() && row_of((#[trigger] s[i]).t0, width) == k by {
            if row_starts(s, width).contains(k) {
                if row_starts(r, width).contains(k) {
                    let i = choose|i: int| 0 <= i < r.len() && row_of((#[trigger] r[i]).t0, width) == k;
                    assert(row_of(s[i].t0, width) == k);
                } else {
                    assert(row_of(s[s.len() - 1].t0, width) == k);
                }
            }
            if exists|i: int| 0 <= i < s.len() && row_of((#[trigger] s[i]).t0, width) == k {
                let i = choose|i: int| 0 <= i < s.len() && row_of((#[trigger] s[i]).t0, width) == k;
                if i < r.len() {
                    assert(row_of(r[i].t0, width) == k);
                }
            }
        }
    }
}

/// No row is made up: each has a line that falls into it.
pub proof fn rows_are_not_made_up(s: Seq<ItemView>, width: int, j: int)
    requires
        0 <= j < row_starts(s, width).len(),
    ensures
        exists|i: int| 0 <= i < s.len() && row_of((#[trigger] s[i]).t0, width) == row_starts(s, width)[j],
{
    lemma_row_starts(s, width);
    assert(row_starts(s, width).contains(row_starts(s, width)[j]));
}

/// Lines of a kind.
pub open spec fn of_kind(kind: Seq<char>) -> spec_fn(ItemView) -> bool {
    |i: ItemView| i.kind == kind
}

/// How many lines of a kind are in the row at a key.
pub open spec fn kind_counts(s: Seq<ItemView>, width: int, kind: Seq<char>) -> spec_fn(int) -> int {
    |k: int| count(s, kind_in(width, k, kind))
}

/// Whether a key is `x`, as a number.
pub open spec fn one_at(x: int, yes: bool) -> spec_fn(int) -> int {
    |k: int|
        if yes && k == x {
            1int
        } else {
            0int
        }
}

proof fn lemma_one_at(keys: Seq<int>, x: int, yes: bool)
    requires
        ascending(keys),
    ensures
        total(keys, one_at(x, yes)) == (if yes && keys.contains(x) {
            1int
        } else {
            0int
        }),
    decreases keys.len(),
{
    if keys.len() > 0 {
        let r = keys.drop_last();
        assert forall|i: int, j: int| 0 <= i < j < r.len() implies #[trigger] r[i] < #[trigger] r[j] by {
            assert(keys[i] < keys[j]);
        }
        lemma_one_at(r, x, yes);
        if keys.contains(x) {
            let n = choose|n: int| 0 <= n < keys.len() && keys[n] == x;
            if n < r.len() {
                assert(r[n] == x);
                assert(keys[n] < keys[keys.len() - 1]);
            }
        }
        if r.contains(x) {
            let n = choose|n: int| 0 <= n < r.len() && r[n] == x;
            assert(keys[n] == x);
            assert(keys[n] < keys[keys.len() - 1]);
        }
        if keys.last() == x {
            assert(keys[keys.len() - 1] == x);
        }
    }
}

proof fn lemma_rows_total(s: Seq<ItemView>, keys: Seq<int>, width: int, kind: Seq<char>)
    requires
        ascending(keys),
        forall|i: int| 0 <= i < s.len() ==> keys.contains(row_of((#[trigger] s[i]).t0, width)),
    ensures
        total(keys, kind_counts(s, width, kind)) == count(s, of_kind(kind)),
    decreases s.len(),
{
    if s.len() == 0 {
        assert forall|k: int| #[trigger] kind_counts(s, width, kind)(k) == 0 by {}
        let zero = |k: int| 0int;
        crate::fold::lemma_total_sums(keys, kind_counts(s, width, kind), zero, zero);
        crate::fold::lemma_total_bound(keys, zero, 0);
    } else {
        let r = s.drop_last();
        let x = s.last();
        let at = row_of(x.t0, width);
        let yes = x.kind == kind;
        assert forall|i: int| 0 <= i < r.len() implies keys.contains(row_of((#[trigger] r[i]).t0, width)) by {
            assert(r[i] == s[i]);
        }
        lemma_rows_total(r, keys, width, kind);
        assert forall|k: int| #[trigger] kind_counts(s, width, kind)(k) == kind_counts(r, width, kind)(k) + one_at(at, yes)(k) by {}
        crate::fold::lemma_total_sums(keys, kind_counts(s, width, kind), kind_counts(r, width, kind), one_at(at, yes));
        lemma_one_at(keys, at, yes);
        assert(keys.contains(row_of(s[s.len() - 1].t0, width)));
    }
}

/// The time table loses nothing and counts nothing twice: of every kind, the lines in all of its rows
/// are together those of the track.
pub proof fn rows_add_up_to_the_track(s: Seq<ItemView>, width: int, kind: Seq<char>)
    ensures
        total(row_starts(s, width), kind_counts(s, width, kind)) == count(s, of_kind(kind)),
{
    lemma_row_starts(s, width);
    lemma_rows_total(s, row_starts(s, width), width, kind);
}

/// What is wrong with a source is told, each kind of trouble where there is any of it, and a source
/// without any is called sound.
pub proof fn troubles_are_told(s: SourceHealth)
    ensures
        s.gaps > 0 ==> flags(s).contains("缺口 "@ + dec(s.gaps as int) + " 处/丢 "@ + dec(s.lost_events as int) + " 条"@),
        s.restarts > 0 ==> flags(s).contains("重启 "@ + dec(s.restarts as int) + " 次"@),
        s.over_budget > 0 ==> flags(s).contains("超预算 "@ + dec(s.over_budget as int) + " 条"@),
        s.duplicates > 0 ==> flags(s).contains("重复 "@ + dec(s.duplicates as int) + " 条"@),
        s.rejected > 0 ==> flags(s).contains("解析失败 "@ + dec(s.rejected as int) + " 条"@),
        s.silent ==> flags(s).contains("声明了产出却全程无事件"@),
        flags(s).len() == (if s.gaps > 0 {
            1int
        } else {
            0
        }) + (if s.restarts > 0 {
            1int
        } else {
            0
        }) + (if s.over_budget > 0 {
            1int
        } else {
            0
        }) + (if s.duplicates > 0 {
            1int
        } else {
            0
        }) + (if s.rejected > 0 {
            1int
        } else {
            0
        }) + (if s.silent {
            1int
        } else {
            0
        }),
{
    let f0: Seq<Seq<char>> = Seq::empty();
    let t1 = "缺口 "@ + dec(s.gaps as int) + " 处/丢 "@ + dec(s.lost_events as int) + " 条"@;
    let t2 = "重启 "@ + dec(s.restarts as int) + " 次"@;
    let t3 = "超预算 "@ + dec(s.over_budget as int) + " 条"@;
    let t4 = "重复 "@ + dec(s.duplicates as int) + " 条"@;
    let t5 = "解析失败 "@ + dec(s.rejected as int) + " 条"@;
    let t6 = "声明了产出却全程无事件"@;
    let f1 = if s.gaps > 0 {
        f0.push(t1)
    } else {
        f0
    };
    let f2 = if s.restarts > 0 {
        f1.push(t2)
    } else {
        f1
    };
    let f3 = if s.over_budget > 0 {
        f2.push(t3)
    } else {
        f2
    };
    let f4 = if s.duplicates > 0 {
        f3.push(t4)
    } else {
        f3
    };
    let f5 = if s.rejected > 0 {
        f4.push(t5)
    } else {
        f4
    };
    let f6 = if s.silent {
        f5.push(t6)
    } else {
        f5
    };
    assert(f6 == flags(s));
    lemma_push_has(f0, t1, t1);
    lemma_push_has(f1, t2, t1);
    lemma_push_has(f2, t3, t1);
    lemma_push_has(f3, t4, t1);
    lemma_push_has(f4, t5, t1);
    lemma_push_has(f5, t6, t1);
    lemma_push_has(f1, t2, t2);
    lemma_push_has(f2, t3, t2);
    lemma_push_has(f3, t4, t2);
    lemma_push_has(f4, t5, t2);
    lemma_push_has(f5, t6, t2);
    lemma_push_has(f2, t3, t3);
    lemma_push_has(f3, t4, t3);
    lemma_push_has(f4, t5, t3);
    lemma_push_has(f5, t6, t3);
    lemma_push_has(f3, t4, t4);
    lemma_push_has(f4, t5, t4);
    lemma_push_has(f5, t6, t4);
    lemma_push_has(f4, t5, t5);
    lemma_push_has(f5, t6, t5);
    lemma_push_has(f5, t6, t6);
}

proof fn lemma_warning_line(w: Seq<Seq<char>>, i: int)
    requires
        0 <= i < w.len(),
    ensures
        has_piece(warnings_text(w), "  ！"@ + w[i] + "\n"@),
    decreases w.len(),
{
    let line = "  ！"@ + w[i] + "\n"@;
    let r = warnings_text(w.drop_last());
    if i == w.len() - 1 {
        lemma_whole_piece(line);
        lemma_piece_behind(r, line, line);
        assert(warnings_text(w) =~= r + line);
    } else {
        assert(w.drop_last()[i] == w[i]);
        lemma_warning_line(w.drop_last(), i);
        lemma_piece_in_front(r, line, "  ！"@);
        lemma_piece_in_front(r + "  ！"@, line, w.last());
        lemma_piece_in_front(r + "  ！"@ + w.last(), line, "\n"@);
    }
}

proof fn lemma_health_on_page(p: AiPayload, width: int, pct: Seq<char>, rows: Seq<Bucket>, piece: Seq<char>)
    requires
        has_piece(health_text(p), piece),
    ensures
        has_piece(page(p, width, pct, rows), piece),
{
    let front = head_text(p) + amounts_text(p.stats, pct) + table_text(p.stats, width, rows) + board_text(
        item_views(p.track@),
    );
    lemma_piece_behind(front, health_text(p), piece);
    lemma_piece_in_front(front + health_text(p), piece, gaps_text(p));
}

/// Every warning of a lesson is on its page.
pub proof fn pages_tell_every_warning(p: AiPayload, width: int, pct: Seq<char>, rows: Seq<Bucket>, i: int)
    requires
        0 <= i < p.warnings@.len(),
    ensures
        has_piece(page(p, width, pct, rows), "  ！"@ + p.warnings@[i]@ + "\n"@),
{
    let w = views(p.warnings@);
    let line = "  ！"@ + w[i] + "\n"@;
    let front = "四、采集健康（这一节的数据能支撑到哪一步）\n"@ + sources_text(p.sources@, name_list(source_names(p.sources@)));
    lemma_warning_line(w, i);
    assert(w[i] == p.warnings@[i]@);
    lemma_piece_behind(front, warnings_text(w), line);
    lemma_piece_in_front(front + warnings_text(w), line, "\n"@);
    lemma_health_on_page(p, width, pct, rows, line);
}

proof fn lemma_source_line(v: Seq<(String, SourceHealth)>, ids: Seq<Seq<char>>, k: int)
    requires
        0 <= k < ids.len(),
    ensures
        has_piece(sources_text(v, ids), source_lines(v, ids[k])),
    decreases ids.len(),
{
    let line = source_lines(v, ids[k]);
    let r = sources_text(v, ids.drop_last());
    if k == ids.len() - 1 {
        lemma_whole_piece(line);
        lemma_piece_behind(r, line, line);
    } else {
        assert(ids.drop_last()[k] == ids[k]);
        lemma_source_line(v, ids.drop_last(), k);
        lemma_piece_in_front(r, line, source_lines(v, ids.last()));
    }
}

proof fn lemma_first_named(v: Seq<(String, SourceHealth)>, i: int)
    requires
        0 <= i < v.len(),
        forall|j: int| 0 <= j < i ==> (#[trigger] v[j]).0@ != v[i].0@,
    ensures
        source_lines(v, v[i].0@) == source_text(v[i].0@, v[i].1),
    decreases v.len(),
{
    if i > 0 {
        assert(v[0].0@ != v[i].0@);
        let t = v.drop_first();
        assert(t[i - 1] == v[i]);
        assert forall|j: int| 0 <= j < i - 1 implies (#[trigger] t[j]).0@ != t[i - 1].0@ by {
            assert(t[j] == v[j + 1]);
        }
        lemma_first_named(t, i - 1);
    }
}

/// Every source of a lesson is on its page, with how many records it has, how many were taken, and
/// what is wrong with it.
pub proof fn pages_tell_every_source(p: AiPayload, width: int, pct: Seq<char>, rows: Seq<Bucket>, i: int)
    requires
        0 <= i < p.sources@.len(),
        forall|j: int| 0 <= j < i ==> (#[trigger] p.sources@[j]).0@ != p.sources@[i].0@,
    ensures
        has_piece(page(p, width, pct, rows), source_text(p.sources@[i].0@, p.sources@[i].1)),
{
    let v = p.sources@;
    let x = source_names(v);
    let ids = name_list(x);
    let id = v[i].0@;
    assert(x[i] == id);
    text::name_list_is_sorted(x);
    assert(ids.contains(id));
    let k = choose|k: int| 0 <= k < ids.len() && ids[k] == id;
    lemma_first_named(v, i);
    lemma_source_line(v, ids, k);
    let line = source_text(id, v[i].1);
    let title = "四、采集健康（这一节的数据能支撑到哪一步）\n"@;
    let w = warnings_text(views(p.warnings@));
    lemma_piece_behind(title, sources_text(v, ids), line);
    lemma_piece_in_front(title + sources_text(v, ids), line, w);
    lemma_piece_in_front(title + sources_text(v, ids) + w, line, "\n"@);
    lemma_health_on_page(p, width, pct, rows, line);
}

/// A page of the board is told with when a line first touches it, and with how many strokes are on it.
pub proof fn board_pages_tell_their_first_touch(s: Seq<ItemView>, page: Seq<char>, i: int)
    requires
        0 <= i < s.len(),
        page_ref(s[i]) == Some(page),
        forall|j: int| 0 <= j < i ==> page_ref(#[trigger] s[j]) != Some(page),
    ensures
        board(s).contains(page),
        page_text(s, page) == "  "@ + pad_right(page, 16, ' ') + " "@ + pad_left(clock(s[i].t0 / 1000), 7, ' ') + " · "@
            + pad_left(dec(count(s, stroke_on(page))), 4, ' ') + " 笔\n"@,
{
    crate::fold::lemma_collected(s, page_refs(), page);
    assert(page_refs()(s[i]) == Some(page));
    text::name_list_is_sorted(collect(s, page_refs()));
    assert forall|j: int| 0 <= j < i implies touched_at(page)(#[trigger] s[j]) is None by {
        assert(page_ref(s[j]) != Some(page));
    }
    crate::fold::lemma_first(s, touched_at(page), i);
}

/// The pages of a row in short name the page touched first and tell how many other pages there are; a
/// row without any says so.
pub proof fn rows_tell_their_pages(pages: Seq<Seq<char>>)
    ensures
        pages.len() == 0 ==> summary(pages) == "—"@,
        pages.len() > 0 && (forall|i: int| 0 <= i < pages.len() ==> #[trigger] pages[i] == pages[0]) ==> summary(pages) == pages[0],
        pages.len() > 0 && pages.to_set().len() > 1 ==> summary(pages) == pages[0] + "…(+"@ + dec(pages.to_set().len() - 1)
            + ")"@,
{
    let d = distinct(pages);
    if pages.len() > 0 {
        text::repetitions_are_left_out(pages, pages[0]);
        assert forall|x: Seq<char>| #[trigger] d.contains(x) <==> pages.contains(x) by {
            text::repetitions_are_left_out(pages, x);
        }
        assert(d.to_set() =~= pages.to_set());
        d.unique_seq_to_set();
        if forall|i: int| 0 <= i < pages.len() ==> #[trigger] pages[i] == pages[0] {
            if d.len() > 1 {
                assert(d.contains(d[1]));
                let i = choose|i: int| 0 <= i < pages.len() && pages[i] == d[1];
                assert(d[1] == pages[0]);
            }
        }
    }
}

proof fn lemma_piece_between(before: Seq<char>, t: Seq<char>, behind: Seq<char>, piece: Seq<char>)
    requires
        has_piece(t, piece),
    ensures
        has_piece(before + t + behind, piece),
{
    lemma_piece_behind(before, t, piece);
    lemma_piece_in_front(before + t, piece, behind);
}

proof fn lemma_amounts_on_page(p: AiPayload, width: int, pct: Seq<char>, rows: Seq<Bucket>, piece: Seq<char>)
    requires
        has_piece(amounts_text(p.stats, pct), piece),
    ensures
        has_piece(page(p, width, pct, rows), piece),
{
    let a = head_text(p);
    let b = amounts_text(p.stats, pct);
    let c = table_text(p.stats, width, rows);
    let d = board_text(item_views(p.track@));
    lemma_piece_behind(a, b, piece);
    lemma_piece_in_front(a + b, piece, c);
    lemma_piece_in_front(a + b + c, piece, d);
    lemma_piece_in_front(a + b + c + d, piece, health_text(p));
    lemma_piece_in_front(a + b + c + d + health_text(p), piece, gaps_text(p));
}

/// The page tells the amounts: how long was spoken, by whom, and the longest silence; how much was
/// written, and how much of that while speaking; pages, erasures and pictures; sound and evaluations.
pub proof fn pages_tell_the_amounts(p: AiPayload, width: int, pct: Seq<char>, rows: Seq<Bucket>)
    ensures
        ({
            let st = p.stats;
            let t = page(p, width, pct, rows);
            &&& has_piece(
                t,
                "  讲话 "@ + clock((st.teacher_ms + st.student_ms) / 1000) + "（教师 "@ + clock(st.teacher_ms as int / 1000)
                    + " / 学生 "@ + clock(st.student_ms as int / 1000) + "），最长一次静默 "@ + clock(
                    st.longest_silence_ms as int / 1000,
                ) + "\n"@,
            )
            &&& has_piece(
                t,
                "  板书 "@ + dec(st.strokes as int) + " 笔 / "@ + clock(st.ink_time_ms as int / 1000) + "，其中 "@ + clock(
                    st.writing_while_speaking_ms as int / 1000,
                ) + "（"@ + pct + "）是边讲边写\n"@,
            )
            &&& has_piece(
                t,
                "  板面出现 "@ + dec(st.pages_touched as int) + " 页，撤销或擦除 "@ + dec(st.erases as int) + " 次；屏幕证据帧 "@ + dec(
                    st.keyframes as int,
                ) + " 张\n"@,
            )
            &&& has_piece(
                t,
                "  音频 "@ + dec(st.audio_chunks as int) + " 段 / "@ + size_text(st.audio_bytes as int) + "；评估记录 "@ + dec(
                    st.eval_records as int,
                ) + " 条\n\n"@,
            )
        }),
{
    let st = p.stats;
    let title = "一、量的分布\n"@;
    let a = speech_line(st);
    let b = ink_line(st, pct);
    let c = board_line(st);
    let d = audio_line(st);
    lemma_whole_piece(a);
    lemma_piece_behind(title, a, a);
    lemma_piece_in_front(title + a, a, b);
    lemma_piece_in_front(title + a + b, a, c);
    lemma_piece_in_front(title + a + b + c, a, d);
    lemma_whole_piece(b);
    lemma_piece_behind(title + a, b, b);
    lemma_piece_in_front(title + a + b, b, c);
    lemma_piece_in_front(title + a + b + c, b, d);
    lemma_whole_piece(c);
    lemma_piece_behind(title + a + b, c, c);
    lemma_piece_in_front(title + a + b + c, c, d);
    lemma_whole_piece(d);
    lemma_piece_behind(title + a + b + c, d, d);
    lemma_amounts_on_page(p, width, pct, rows, a);
    lemma_amounts_on_page(p, width, pct, rows, b);
    lemma_amounts_on_page(p, width, pct, rows, c);
    lemma_amounts_on_page(p, width, pct, rows, d);
}

proof fn lemma_head_on_page(p: AiPayload, width: int, pct: Seq<char>, rows: Seq<Bucket>, piece: Seq<char>)
    requires
        has_piece(head_text(p), piece),
    ensures
        has_piece(page(p, width, pct, rows), piece),
{
    let a = head_text(p);
    let b = amounts_text(p.stats, pct);
    let c = table_text(p.stats, width, rows);
    let d = board_text(item_views(p.track@));
    lemma_piece_in_front(a, piece, b);
    lemma_piece_in_front(a + b, piece, c);
    lemma_piece_in_front(a + b + c, piece, d);
    lemma_piece_in_front(a + b + c + d, piece, health_text(p));
    lemma_piece_in_front(a + b + c + d + health_text(p), piece, gaps_text(p));
}

/// The page begins with whose lesson it is, which one and when, names the lesson before where there is
/// one and says where there is none, and tells the length of the axis, of the recording, and how many
/// events there are.
pub proof fn pages_tell_their_lesson(p: AiPayload, width: int, pct: Seq<char>, rows: Seq<Bucket>)
    ensures
        ({
            let t = page(p, width, pct, rows);
            let st = p.stats;
            &&& has_piece(t, "   课次 "@ + p.lesson.lesson_id@ + "   开始 "@ + moment(p.lesson.started_at_utc_ms as int))
            &&& p.prev_lesson_id matches Some(prev) ==> has_piece(t, "上一节 "@ + prev@ + "（摘要会接续该链）\n"@)
            &&& p.prev_lesson_id is None ==> has_piece(t, "上一节 未指定（本节是这条链的第一节，无法接续前情）\n"@)
            &&& st.duration_ms > 0 ==> has_piece(
                t,
                "课堂时间轴 "@ + clock(st.duration_ms as int / 1000) + "   采集进程 "@ + clock(st.wall_ms as int / 1000)
                    + "   事件总量 "@ + dec(st.strokes + st.utterances + st.keyframes + st.audio_chunks + st.eval_records) + "\n\n"@,
            )
        }),
{
    let a = title_line(p);
    let b = lesson_line(p);
    let c = prev_line(p);
    let d = axis_line(p.stats);
    let who = "教师 "@ + or_else(opt_view(p.lesson.teacher), "-"@);
    let which = "   课次 "@ + p.lesson.lesson_id@ + "   开始 "@ + moment(p.lesson.started_at_utc_ms as int);
    lemma_whole_piece(which);
    lemma_piece_between(who, which, "\n"@, which);
    assert(b =~= who + which + "\n"@);
    lemma_piece_behind(a, b, which);
    lemma_piece_in_front(a + b, which, c);
    lemma_piece_in_front(a + b + c, which, d);
    lemma_head_on_page(p, width, pct, rows, which);
    lemma_whole_piece(c);
    lemma_piece_behind(a + b, c, c);
    lemma_piece_in_front(a + b + c, c, d);
    lemma_head_on_page(p, width, pct, rows, c);
    lemma_whole_piece(d);
    lemma_piece_behind(a + b + c, d, d);
    lemma_head_on_page(p, width, pct, rows, d);
}

proof fn lemma_row_line(rows: Seq<Bucket>, frames: bool, j: int)
    requires
        0 <= j < rows.len(),
    ensures
        has_piece(rows_text(rows, frames), row_text(rows[j], frames)),
    decreases rows.len(),
{
    let line = row_text(rows[j], frames);
    let r = rows_text(rows.drop_last(), frames);
    if j == rows.len() - 1 {
        lemma_whole_piece(line);
        lemma_piece_behind(r, line, line);
    } else {
        assert(rows.drop_last()[j] == rows[j]);
        lemma_row_line(rows.drop_last(), frames, j);
        lemma_piece_in_front(r, line, row_text(rows.last(), frames));
    }
}

/// Every row of the time table is on the page: when it begins, its bar and its share of speech, its
/// strokes and erasures, its pictures where the lesson has any, and its pages.
pub proof fn pages_tell_every_row(p: AiPayload, width: int, pct: Seq<char>, rows: Seq<Bucket>, j: int)
    requires
        0 <= j < rows.len(),
    ensures
        ({
            let b = rows[j];
            has_piece(
                page(p, width, pct, rows),
                "  "@ + clock(b.t0_ms as int / 1000) + " "@ + pad_right(repeat('#', b.bar as int), 12, ' ') + " 说话"@ + pad_left(
                    dec(b.percent as int),
                    3,
                    ' ',
                ) + "% 笔"@ + pad_left(dec(b.strokes as int), 4, ' ') + " 擦"@ + pad_left(dec(b.erases as int), 3, ' ') + (if p.stats.keyframes
                    > 0 {
                    " 帧"@ + pad_left(dec(b.keyframes as int), 3, ' ')
                } else {
                    Seq::empty()
                }) + "  "@ + summary(views(b.pages@)) + "\n"@,
            )
        }),
{
    let frames = p.stats.keyframes > 0;
    let line = row_text(rows[j], frames);
    lemma_row_line(rows, frames, j);
    let cols = if frames {
        "说话% · 笔 · 擦 · 帧 · 页"@
    } else {
        "说话% · 笔 · 擦 · 页"@
    };
    let front = "二、逐 "@ + dec(width / 1000) + " 秒一格（"@ + cols + "）\n"@;
    lemma_piece_behind(front, rows_text(rows, frames), line);
    lemma_piece_in_front(front + rows_text(rows, frames), line, "\n"@);
    let c = table_text(p.stats, width, rows);
    let ab = head_text(p) + amounts_text(p.stats, pct);
    let d = board_text(item_views(p.track@));
    lemma_piece_behind(ab, c, line);
    lemma_piece_in_front(ab + c, line, d);
    lemma_piece_in_front(ab + c + d, line, health_text(p));
    lemma_piece_in_front(ab + c + d + health_text(p), line, gaps_text(p));
}

/// What one more line of the track adds to a row: its length where something is said, one stroke, one
/// erasure or one picture by its kind, and its page; nothing where it falls into another row.
pub proof fn lines_count_in_their_row(a: Bucket, b: Bucket, s: Seq<ItemView>, x: ItemView, width: int, k: int)
    requires
        width > 0,
        0 <= x.t0,
        k % width == 0,
        counts_row(a, s, width, k),
        counts_row(b, s.push(x), width, k),
    ensures
        ({
            let here = k <= x.t0 < k + width;
            let one = |yes: bool|
                if yes {
                    1int
                } else {
                    0int
                };
            &&& b.strokes == a.strokes + one(here && x.kind == "ink.stroke_commit"@)
            &&& b.erases == a.erases + one(here && x.kind == "ink.stroke_delete"@)
            &&& b.keyframes == a.keyframes + one(here && x.kind == "screen.keyframe"@)
            &&& here && x.kind == "asr.utterance"@ && x.t1 >= x.t0 ==> b.speech_ms == a.speech_ms + (x.t1 - x.t0)
            &&& !here || x.kind != "asr.utterance"@ ==> b.speech_ms == a.speech_ms
            &&& !here || page_ref(x) is None ==> views(b.pages@) == views(a.pages@)
            &&& here ==> (page_ref(x) matches Some(p) ==> views(b.pages@) == views(a.pages@).push(p))
        }),
{
    assert(s.push(x).drop_last() =~= s);
    lemma_row(x.t0, width);
    let r = row_of(x.t0, width);
    if k <= x.t0 < k + width && r != k {
        lemma_multiples_apart(r, k, width);
    }
}

proof fn lemma_multiples_apart(a: int, b: int, n: int)
    requires
        n > 0,
        a % n == 0,
        b % n == 0,
        a != b,
    ensures
        a <= b - n || b <= a - n,
{
    vstd::arithmetic::div_mod::lemma_fundamental_div_mod(a, n);
    vstd::arithmetic::div_mod::lemma_fundamental_div_mod(b, n);
    let p = a / n;
    let q = b / n;
    if p < q {
        assert(n * p <= n * q - n) by (nonlinear_arith)
            requires
                p + 1 <= q,
                n > 0,
        ;
    } else if q < p {
        assert(n * q <= n * p - n) by (nonlinear_arith)
            requires
                q + 1 <= p,
                n > 0,
        ;
    }
}

/// A row counts nothing where the track has nothing.
pub proof fn empty_tracks_count_nothing(b: Bucket, width: int, k: int)
    requires
        counts_row(b, Seq::empty(), width, k),
    ensures
        b.speech_ms == 0,
        b.strokes == 0,
        b.erases == 0,
        b.keyframes == 0,
        b.pages@.len() == 0,
{
    assert(views(b.pages@).len() == b.pages@.len());
}

/// A line touches the page that its record names: a stroke the page it was written on, a turn of the
/// page the one turned to; nothing else touches a page.
pub proof fn lines_touch_their_pages(e: Entry, base: int, t: int, x: ItemView)
    requires
        item(e, base, t) == Some(x),
    ensures
        x.kind == "ink.stroke_commit"@ ==> (e.body matches Body::Stroke { stroke, region } && page_ref(x) == Some(
            stroke.page_id@,
        )),
        x.kind == "ink.page_activate"@ ==> (e.body matches Body::Page(p) && page_ref(x) == Some(p.page_id@)),
        x.kind != "ink.stroke_commit"@ && x.kind != "ink.page_activate"@ ==> page_ref(x) is None,
{
    kinds::kinds_are_distinct();
    let k = kinds::all_kinds();
    assert(k[4] != k[5]);
}

/// A page of the board has as many strokes as were written on it: one more with each, and no more with
/// anything else.
pub proof fn strokes_count_on_their_page(s: Seq<ItemView>, x: ItemView, page: Seq<char>)
    ensures
        count(s.push(x), stroke_on(page)) == count(s, stroke_on(page)) + (if x.kind == "ink.stroke_commit"@ && x.refs.len() > 1
            && x.refs[1] == page {
            1int
        } else {
            0int
        }),
        count(Seq::<ItemView>::empty(), stroke_on(page)) == 0,
{
    kinds::kinds_are_distinct();
    let k = kinds::all_kinds();
    assert(k[4] != k[5]);
    assert(s.push(x).drop_last() =~= s);
}

proof fn lemma_board_line(s: Seq<ItemView>, ps: Seq<Seq<char>>, k: int)
    requires
        0 <= k < ps.len(),
    ensures
        has_piece(pages_text(s, ps), page_text(s, ps[k])),
    decreases ps.len(),
{
    let line = page_text(s, ps[k]);
    let r = pages_text(s, ps.drop_last());
    if k == ps.len() - 1 {
        lemma_whole_piece(line);
        lemma_piece_behind(r, line, line);
    } else {
        assert(ps.drop_last()[k] == ps[k]);
        lemma_board_line(s, ps.drop_last(), k);
        lemma_piece_in_front(r, line, page_text(s, ps.last()));
    }
}

/// Every page of the board that a line of the track touches is on the page of the lesson.
pub proof fn pages_tell_every_board_page(p: AiPayload, width: int, pct: Seq<char>, rows: Seq<Bucket>, i: int, name: Seq<char>)
    requires
        0 <= i < p.track@.len(),
        page_ref(p.track@[i]@) == Some(name),
    ensures
        has_piece(page(p, width, pct, rows), page_text(item_views(p.track@), name)),
{
    let s = item_views(p.track@);
    let ps = board(s);
    assert(s[i] == p.track@[i]@);
    crate::fold::lemma_collected(s, page_refs(), name);
    assert(page_refs()(s[i]) == Some(name));
    text::name_list_is_sorted(collect(s, page_refs()));
    assert(ps.contains(name));
    let k = choose|k: int| 0 <= k < ps.len() && ps[k] == name;
    let line = page_text(s, name);
    lemma_board_line(s, ps, k);
    let title = "三、板面轨迹（首次出现时间 · 该页笔数）\n"@;
    lemma_piece_in_front(pages_text(s, ps), line, "\n"@);
    lemma_piece_behind(title, pages_text(s, ps) + "\n"@, line);
    let front = head_text(p) + amounts_text(p.stats, pct) + table_text(p.stats, width, rows);
    lemma_piece_behind(front, board_text(s), line);
    lemma_piece_in_front(front + board_text(s), line, health_text(p));
    lemma_piece_in_front(front + board_text(s) + health_text(p), line, gaps_text(p));
}

/// Rows are as wide as asked for, but not less than a second.
pub proof fn rows_are_as_wide_as_asked(bucket_ms: u64)
    ensures
        bucket_ms >= 1_000 ==> width_of(bucket_ms) == bucket_ms,
        bucket_ms < 1_000 ==> width_of(bucket_ms) == 1_000,
{
}

} // verus!
