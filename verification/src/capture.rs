//! Capturing screens: which way to capture, which monitor, and how its bytes become frames.

use vstd::prelude::*;
use crate::gray::least;
use crate::json::put;
use crate::json::Json;
use crate::json::JsonView;
use crate::json::NumberView;
use crate::text;
use crate::text::dec;
use crate::text::quoted;
use crate::text::same;

verus! {

/// A frame.
#[derive(Debug, Clone)]
pub struct Frame {
    pub width: usize,
    pub height: usize,
    /// Three bytes for each pixel, row by row.
    pub rgb: Vec<u8>,
}

impl Frame {
    /// Whether there are the bytes that the size asks for.
    pub open spec fn wf(self) -> bool {
        self.rgb@.len() == self.width * self.height * 3
    }
}

/// The ways to capture that can be asked for.
pub const BACKENDS: [&'static str; 3] = ["auto", "gdi", "dxgi"];

/// What is to be tried.
#[derive(Debug, Clone, Copy, PartialEq, Eq, Structural)]
pub enum Way {
    Gdi,
    Dxgi,
    /// First one, then the other.
    Auto,
}

/// What is to be tried, or why nothing can be.
pub open spec fn way(want: Seq<char>, windows: bool) -> Result<Way, Seq<char>> {
    if !windows {
        Err("本机不是 Windows：抓屏后端只有 gdi / dxgi 两条，X11 / PipeWire 尚未实现"@)
    } else if want == "gdi"@ {
        Ok(Way::Gdi)
    } else if want == "dxgi"@ {
        Ok(Way::Dxgi)
    } else if want == "auto"@ {
        Ok(Way::Auto)
    } else {
        Err("params.capture 只认 auto / gdi / dxgi，收到 "@ + quoted(want))
    }
}

/// What is to be tried: only a way that is known, and none but on Windows.
pub fn open(want: &str, windows: bool) -> (r: Result<Way, String>)
    ensures
        match r {
            Ok(w) => way(want@, windows) == Ok::<Way, Seq<char>>(w),
            Err(e) => way(want@, windows) == Err::<Way, Seq<char>>(e@),
        },
{
    if !windows {
        return Err("本机不是 Windows：抓屏后端只有 gdi / dxgi 两条，X11 / PipeWire 尚未实现".to_owned());
    }
    if same(want, "gdi") {
        Ok(Way::Gdi)
    } else if same(want, "dxgi") {
        Ok(Way::Dxgi)
    } else if same(want, "auto") {
        Ok(Way::Auto)
    } else {
        let mut s = "params.capture 只认 auto / gdi / dxgi，收到 ".to_owned();
        s.append(text::quote(want).as_str());
        Err(s)
    }
}

/// What is told where one way failed and the other did not.
pub fn fallback_note(e: &str) -> (r: String)
    ensures
        r@ == "DXGI 不可用，退回 GDI："@ + e@,
{
    let mut s = "DXGI 不可用，退回 GDI：".to_owned();
    s.append(e);
    s
}

/// What is told where both ways failed.
pub fn both_failed(dxgi: &str, gdi: &str) -> (r: String)
    ensures
        r@ == "两条路都不通：dxgi="@ + dxgi@ + "；gdi="@ + gdi@,
{
    let mut s = "两条路都不通：dxgi=".to_owned();
    s.append(dxgi);
    s.append("；gdi=");
    s.append(gdi);
    s
}

/// The first `n` pixels of blue, green, red and alpha as red, green and blue.
pub open spec fn unrolled(src: Seq<u8>, n: int) -> Seq<u8>
    decreases n,
{
    if n <= 0 {
        Seq::empty()
    } else {
        unrolled(src, n - 1).push(src[(n - 1) * 4 + 2]).push(src[(n - 1) * 4 + 1]).push(src[(n - 1) * 4])
    }
}

/// Blue, green, red and alpha as red, green and blue. Bytes that make no pixel are left out.
pub fn bgra_to_rgb(src: &[u8]) -> (r: Vec<u8>)
    ensures
        r@ == unrolled(src@, src@.len() as int / 4),
{
    let len: usize = src.len();
    let n: usize = len / 4;
    let mut out: Vec<u8> = Vec::new();
    let mut i: usize = 0;
    while i < n
        invariant
            i <= n,
            n == len / 4,
            len == src@.len(),
            out@ == unrolled(src@, i as int),
        decreases n - i,
    {
        out.push(src[i * 4 + 2]);
        out.push(src[i * 4 + 1]);
        out.push(src[i * 4]);
        i += 1;
    }
    out
}

proof fn lemma_unrolled(src: Seq<u8>, n: int, i: int)
    requires
        0 <= i < n,
    ensures
        unrolled(src, n).len() == n * 3,
        unrolled(src, n)[i * 3] == src[i * 4 + 2],
        unrolled(src, n)[i * 3 + 1] == src[i * 4 + 1],
        unrolled(src, n)[i * 3 + 2] == src[i * 4],
    decreases n,
{
    lemma_unrolled_len(src, n);
    lemma_unrolled_len(src, n - 1);
    if i < n - 1 {
        lemma_unrolled(src, n - 1, i);
    }
}

proof fn lemma_unrolled_len(src: Seq<u8>, n: int)
    requires
        0 <= n,
    ensures
        unrolled(src, n).len() == n * 3,
    decreases n,
{
    if n > 0 {
        lemma_unrolled_len(src, n - 1);
    }
}

/// Every pixel keeps its place and its colours; only alpha goes.
pub proof fn colors_keep_their_places(src: Seq<u8>, i: int)
    requires
        0 <= i < src.len() as int / 4,
    ensures
        unrolled(src, src.len() as int / 4).len() == src.len() as int / 4 * 3,
        unrolled(src, src.len() as int / 4)[i * 3] == src[i * 4 + 2],
        unrolled(src, src.len() as int / 4)[i * 3 + 1] == src[i * 4 + 1],
        unrolled(src, src.len() as int / 4)[i * 3 + 2] == src[i * 4],
{
    lemma_unrolled(src, src.len() as int / 4, i);
}

// ---------------------------------------------------------------------------------------------
// Rows with a pitch
// ---------------------------------------------------------------------------------------------

/// The first `n` rows of `line` bytes, which stand `pitch` bytes apart.
pub open spec fn tight_rows(src: Seq<u8>, pitch: int, line: int, n: int) -> Seq<u8>
    decreases n,
{
    if n <= 0 {
        Seq::empty()
    } else {
        tight_rows(src, pitch, line, n - 1) + src.subrange((n - 1) * pitch, (n - 1) * pitch + line)
    }
}

/// The frame in rows of four bytes for each pixel that stand `pitch` bytes apart; an error where
/// a row does not fit between two.
pub fn pitched_frame(src: &[u8], pitch: usize, w: usize, h: usize) -> (r: Result<Frame, String>)
    requires
        w * 4 <= usize::MAX,
        pitch * h <= src@.len(),
    ensures
        match r {
            Ok(f) => {
                &&& pitch >= w * 4
                &&& f.width == w
                &&& f.height == h
                &&& f.rgb@ == unrolled(
                    tight_rows(src@, pitch as int, w * 4, h as int),
                    tight_rows(src@, pitch as int, w * 4, h as int).len() as int / 4,
                )
                &&& f.wf()
            },
            Err(e) => pitch < w * 4 && e@ == "staging 行距 "@ + dec(pitch as int) + " 装不下 "@ + dec(w as int)
                + " 像素（或 pData 为空）"@,
        },
{
    let line: usize = w * 4;
    if pitch < line {
        let mut s = "staging 行距 ".to_owned();
        text::push_dec(&mut s, pitch as u64);
        s.append(" 装不下 ");
        text::push_dec(&mut s, w as u64);
        s.append(" 像素（或 pData 为空）");
        return Err(s);
    }
    let mut out: Vec<u8> = Vec::new();
    let mut y: usize = 0;
    let all: usize = src.len();
    proof {
        assert(0 * line == 0);
    }
    while y < h
        invariant
            y <= h,
            line <= pitch,
            pitch * h <= all == src@.len(),
            out@ == tight_rows(src@, pitch as int, line as int, y as int),
            out@.len() == y * line,
        decreases h - y,
    {
        proof {
            assert(0 <= y * pitch && y * pitch + pitch <= pitch * h) by (nonlinear_arith)
                requires
                    y + 1 <= h,
            ;
        }
        let from: usize = y * pitch;
        let mut x: usize = 0;
        let ghost before = out@;
        while x < line
            invariant
                x <= line,
                from + line <= all == src@.len(),
                out@ == before + src@.subrange(from as int, from + x),
            decreases line - x,
        {
            out.push(src[from + x]);
            x += 1;
            assert(out@ =~= before + src@.subrange(from as int, from + x));
        }
        proof {
            assert((y + 1) * line == y * line + line) by (nonlinear_arith);
        }
        y += 1;
    }
    let rgb = bgra_to_rgb(out.as_slice());
    proof {
        assert(h * line == (w * h) * 4) by (nonlinear_arith)
            requires
                line == w * 4,
        ;
        lemma_unrolled_len(out@, out@.len() as int / 4);
    }
    Ok(Frame { width: w, height: h, rgb })
}

// ---------------------------------------------------------------------------------------------
// Monitors
// ---------------------------------------------------------------------------------------------

/// A rectangle on the desktop.
#[derive(Debug, Clone, Copy, PartialEq, Eq, Structural)]
pub struct Rect {
    pub x: i32,
    pub y: i32,
    pub w: i32,
    pub h: i32,
}

/// A monitor that is captured.
#[derive(Debug, Clone)]
pub struct Gdi {
    pub r: Rect,
    pub monitor: usize,
    pub primary: bool,
    pub dpi_aware: bool,
    pub errs: usize,
}

/// Those of the first `n` monitors that are primary, or those that are not, in their order.
pub open spec fn of_kind(ms: Seq<(Rect, bool)>, primary: bool, n: int) -> Seq<(Rect, bool)>
    decreases n,
{
    if n <= 0 {
        Seq::empty()
    } else if ms[n - 1].1 == primary {
        of_kind(ms, primary, n - 1).push(ms[n - 1])
    } else {
        of_kind(ms, primary, n - 1)
    }
}

/// The primary monitor first, the others in their order.
pub open spec fn arranged(ms: Seq<(Rect, bool)>) -> Seq<(Rect, bool)> {
    of_kind(ms, true, ms.len() as int) + of_kind(ms, false, ms.len() as int)
}

/// The primary monitor first, the others in their order.
pub fn monitors(ms: &Vec<(Rect, bool)>) -> (r: Vec<(Rect, bool)>)
    ensures
        r@ == arranged(ms@),
{
    let mut out: Vec<(Rect, bool)> = Vec::new();
    let mut i: usize = 0;
    while i < ms.len()
        invariant
            i <= ms@.len(),
            out@ == of_kind(ms@, true, i as int),
        decreases ms@.len() - i,
    {
        if ms[i].1 {
            out.push(ms[i]);
        }
        i += 1;
    }
    let ghost first = out@;
    let mut k: usize = 0;
    assert(out@ =~= first + of_kind(ms@, false, 0));
    while k < ms.len()
        invariant
            k <= ms@.len(),
            out@ == first + of_kind(ms@, false, k as int),
        decreases ms@.len() - k,
    {
        if !ms[k].1 {
            out.push(ms[k]);
        }
        k += 1;
        assert(out@ =~= first + of_kind(ms@, false, k as int));
    }
    out
}

proof fn lemma_of_kind(ms: Seq<(Rect, bool)>, n: int)
    requires
        0 <= n <= ms.len(),
    ensures
        of_kind(ms, true, n).len() + of_kind(ms, false, n).len() == n,
        forall|b: bool, i: int| 0 <= i < of_kind(ms, b, n).len() ==> (#[trigger] of_kind(ms, b, n)[i]).1 == b,
        forall|i: int| 0 <= i < n && (#[trigger] ms[i]).1 ==> of_kind(ms, true, n).len() > 0,
    decreases n,
{
    if n > 0 {
        lemma_of_kind(ms, n - 1);
    }
}

/// No monitor is lost, and where there is a primary one it comes first, whatever else is plugged in.
pub proof fn primary_comes_first(ms: Seq<(Rect, bool)>)
    ensures
        arranged(ms).len() == ms.len(),
        (exists|i: int| 0 <= i < ms.len() && (#[trigger] ms[i]).1) ==> arranged(ms)[0].1,
{
    lemma_of_kind(ms, ms.len() as int);
}

impl Gdi {
    /// The monitor that is captured: the one that is asked for, or the last one where there are
    /// fewer.
    pub fn open(found: &Vec<(Rect, bool)>, monitor: usize, dpi_aware: bool) -> (r: Result<Gdi, String>)
        ensures
            ({
                let ms = arranged(found@);
                let i = least(monitor as int, ms.len() - 1);
                if ms.len() == 0 {
                    r matches Err(e) && e@ == "EnumDisplayMonitors 一个显示器都没枚举到（没有桌面？）。"@
                } else if ms[i].0.w <= 0 || ms[i].0.h <= 0 {
                    r matches Err(e) && e@ == "显示器 "@ + dec(i) + " 的矩形是 "@ + int_text(ms[i].0.w as int) + "x"@
                        + int_text(ms[i].0.h as int) + "，不可用"@
                } else {
                    r matches Ok(g) && g.r == ms[i].0 && g.monitor == i && g.primary == ms[i].1 && g.dpi_aware
                        == dpi_aware && g.errs == 0
                }
            }),
    {
        let ms = monitors(found);
        if ms.len() == 0 {
            return Err("EnumDisplayMonitors 一个显示器都没枚举到（没有桌面？）。".to_owned());
        }
        let i: usize = if monitor < ms.len() - 1 {
            monitor
        } else {
            ms.len() - 1
        };
        let (r, primary) = ms[i];
        if r.w <= 0 || r.h <= 0 {
            let mut s = "显示器 ".to_owned();
            text::push_dec(&mut s, i as u64);
            s.append(" 的矩形是 ");
            s.append(int_of(r.w).as_str());
            s.append("x");
            s.append(int_of(r.h).as_str());
            s.append("，不可用");
            return Err(s);
        }
        Ok(Gdi { r, monitor: i, primary, dpi_aware, errs: 0 })
    }

    /// What is told of the capture when a session opens.
    pub fn describe(&self) -> (j: Json)
        ensures
            j@ == JsonView::Obj(
                Map::<Seq<char>, JsonView>::empty().insert("backend"@, JsonView::Str("gdi"@)).insert(
                    "monitor"@,
                    JsonView::Number(NumberView::Pos(self.monitor as u64)),
                ).insert("primary"@, JsonView::Bool(self.primary)).insert(
                    "width"@,
                    JsonView::Number(NumberView::Pos(upward(self.r.w))),
                ).insert("height"@, JsonView::Number(NumberView::Pos(upward(self.r.h)))).insert(
                    "dpi_aware"@,
                    JsonView::Bool(self.dpi_aware),
                ),
            ),
    {
        let mut o: Vec<(String, Json)> = Vec::new();
        put(&mut o, "backend", Json::text("gdi"));
        put(&mut o, "monitor", Json::uint(self.monitor as u64));
        put(&mut o, "primary", Json::Bool(self.primary));
        put(&mut o, "width", Json::uint(from_zero(self.r.w)));
        put(&mut o, "height", Json::uint(from_zero(self.r.h)));
        put(&mut o, "dpi_aware", Json::Bool(self.dpi_aware));
        Json::object(o)
    }
}

/// A number, 0 where it is negative.
pub open spec fn upward(v: i32) -> u64 {
    if v < 0 {
        0
    } else {
        v as u64
    }
}

fn from_zero(v: i32) -> (r: u64)
    ensures
        r == upward(v),
{
    if v < 0 {
        0
    } else {
        v as u64
    }
}

/// How an integer is told.
pub open spec fn int_text(v: int) -> Seq<char> {
    if v < 0 {
        "-"@ + dec(-v)
    } else {
        dec(v)
    }
}

/// How an integer is told.
pub fn int_of(v: i32) -> (r: String)
    ensures
        r@ == int_text(v as int),
{
    if v < 0 {
        let mut s = "-".to_owned();
        text::push_dec(&mut s, (-(v as i64)) as u64);
        s
    } else {
        text::dec_text(v as u64)
    }
}

proof fn lemma_tight_len(src: Seq<u8>, pitch: int, line: int, n: int)
    requires
        0 <= n,
        0 <= line <= pitch,
        n * pitch <= src.len(),
    ensures
        tight_rows(src, pitch, line, n).len() == n * line,
    decreases n,
{
    if n > 0 {
        assert(n * pitch == (n - 1) * pitch + pitch && n * line == (n - 1) * line + line && (n - 1) * pitch >= 0) by (nonlinear_arith)
            requires
                n > 0,
                0 <= pitch,
        ;
        lemma_tight_len(src, pitch, line, n - 1);
    } else {
        assert(n * line == 0) by (nonlinear_arith)
            requires
                n == 0,
        ;
    }
}

/// Rows that stand apart are put together row by row: byte `i` of row `y` is the one at that place of
/// the row, and what stands between rows is left out.
pub proof fn rows_are_put_together(src: Seq<u8>, pitch: int, line: int, n: int, y: int, i: int)
    requires
        0 <= y < n,
        0 <= i < line <= pitch,
        n * pitch <= src.len(),
    ensures
        tight_rows(src, pitch, line, n).len() == n * line,
        0 <= y * line + i < n * line,
        tight_rows(src, pitch, line, n)[y * line + i] == src[y * pitch + i],
    decreases n,
{
    lemma_tight_len(src, pitch, line, n);
    assert(n * pitch == (n - 1) * pitch + pitch && n * line == (n - 1) * line + line && (n - 1) * pitch >= 0) by (nonlinear_arith)
        requires
            n > 0,
            0 <= pitch,
    ;
    assert(0 <= y * line && y * line + line <= n * line) by (nonlinear_arith)
        requires
            0 <= y < n,
            0 <= line,
    ;
    lemma_tight_len(src, pitch, line, n - 1);
    if y < n - 1 {
        rows_are_put_together(src, pitch, line, n - 1, y, i);
    }
}

proof fn lemma_kind_kept(ms: Seq<(Rect, bool)>, n: int, i: int)
    requires
        0 <= i < n <= ms.len(),
    ensures
        of_kind(ms, ms[i].1, n).contains(ms[i]),
    decreases n,
{
    let b = ms[i].1;
    let r = of_kind(ms, b, n - 1);
    let s = of_kind(ms, b, n);
    if i < n - 1 {
        lemma_kind_kept(ms, n - 1, i);
        let k = choose|k: int| 0 <= k < r.len() && r[k] == ms[i];
        assert(s[k] == ms[i]);
    } else {
        assert(s[r.len() as int] == ms[i]);
    }
}

/// Every monitor that was found is among those that can be asked for, the primary ones before the
/// others.
pub proof fn monitors_are_kept(ms: Seq<(Rect, bool)>, i: int, a: int, b: int)
    requires
        0 <= i < ms.len(),
        0 <= a < b < arranged(ms).len(),
    ensures
        arranged(ms).contains(ms[i]),
        arranged(ms)[b].1 ==> arranged(ms)[a].1,
{
    let n = ms.len() as int;
    let p = of_kind(ms, true, n);
    let q = of_kind(ms, false, n);
    lemma_of_kind(ms, n);
    lemma_kind_kept(ms, n, i);
    if ms[i].1 {
        let k = choose|k: int| 0 <= k < p.len() && p[k] == ms[i];
        assert(arranged(ms)[k] == ms[i]);
    } else {
        let k = choose|k: int| 0 <= k < q.len() && q[k] == ms[i];
        assert(arranged(ms)[p.len() + k] == ms[i]);
    }
    if b >= p.len() {
        assert(arranged(ms)[b] == q[b - p.len()]);
        assert(!q[b - p.len()].1);
    } else {
        assert(arranged(ms)[a] == p[a]);
        assert(p[a].1);
    }
}

} // verus!
