//! The sound of a lesson out of a file: pieces of one length, by reference.

use vstd::prelude::*;
use crate::fold::lemma_total_grows;
use crate::fold::total;
use crate::gray::most;
use crate::json::field;
use crate::json::put;
use crate::json::str_of;
use crate::json::uint_of;
use crate::json::Json;
use crate::json::JsonView;
use crate::screen::number;
use crate::text;
use crate::text::dec;
use crate::text::pad_left;
use crate::track::or_else;

verus! {

/// The name of this source.
pub const ID: &'static str = "a-audiofile";

/// How a file is taken apart.
#[derive(Debug, Clone)]
pub struct Plan {
    pub path: String,
    pub codec: String,
    pub sample_rate: u32,
    pub channels: u16,
    pub chunk_ms: u64,
    pub bytes_per_chunk: usize,
    pub ext: String,
}

/// Why a lesson gets no sound.
#[derive(Debug, Clone, PartialEq, Eq, Structural)]
pub enum Mute {
    /// No file is named.
    NoPath,
    /// There is nowhere to write to.
    NoBlobDir,
    /// A piece has more bytes than a machine word can count.
    TooLarge,
}

/// A number out of the parameters, or what stands in for it.
pub open spec fn num(p: JsonView, k: Seq<char>, d: u64) -> u64 {
    match uint_of(field(p, k)) {
        Some(v) => v,
        None => d,
    }
}

/// How many bytes a piece has: as asked for, or as the format makes it.
pub open spec fn piece(p: JsonView) -> int {
    let rate = num(p, "sample_rate"@, 16_000) as u32;
    let channels = num(p, "channels"@, 1) as u16;
    let ms = most(num(p, "chunk_ms"@, 1_000) as int, 1);
    match uint_of(field(p, "bytes_per_chunk"@)) {
        Some(v) => most(v as int, 1),
        None => most((rate * channels) * 2 * ms / 1000, 1),
    }
}

/// Whether the number of bytes of a piece, and what it is computed from, can be counted.
pub open spec fn piece_fits(p: JsonView) -> bool {
    let rate = num(p, "sample_rate"@, 16_000) as u32;
    let channels = num(p, "channels"@, 1) as u16;
    let ms = most(num(p, "chunk_ms"@, 1_000) as int, 1);
    &&& uint_of(field(p, "bytes_per_chunk"@)) is None ==> (rate * channels) * 2 * ms <= u64::MAX
    &&& piece(p) <= usize::MAX
}

/// Whether a plan is the one that parameters ask for.
pub open spec fn is_plan(r: Plan, p: JsonView) -> bool {
    let codec = or_else(str_of(field(p, "codec"@)), "pcm_s16le"@);
    &&& str_of(field(p, "path"@)) == Some(r.path@)
    &&& r.codec@ == codec
    &&& r.sample_rate == num(p, "sample_rate"@, 16_000) as u32
    &&& r.channels == num(p, "channels"@, 1) as u16
    &&& r.chunk_ms == most(num(p, "chunk_ms"@, 1_000) as int, 1)
    &&& r.bytes_per_chunk == piece(p)
    &&& r.ext@ == or_else(
        str_of(field(p, "ext"@)),
        if text::begins(codec, "pcm"@) {
            "pcm"@
        } else {
            "bin"@
        },
    )
}

fn num_at(p: &Json, k: &str, d: u64) -> (r: u64)
    ensures
        r == num(p@, k@, d),
{
    match p.u64_at(k) {
        Some(v) => v,
        None => d,
    }
}

/// How parameters ask for a file to be taken apart, or why it is not.
pub fn plan(p: &Json, blob_dir: &str) -> (r: Result<Plan, Mute>)
    ensures
        match r {
            Ok(x) => is_plan(x, p@) && blob_dir@.len() > 0,
            Err(Mute::NoPath) => str_of(field(p@, "path"@)) is None,
            Err(Mute::NoBlobDir) => str_of(field(p@, "path"@)) is Some && blob_dir@.len() == 0,
            Err(Mute::TooLarge) => str_of(field(p@, "path"@)) is Some && blob_dir@.len() > 0 && !piece_fits(p@),
        },
        piece_fits(p@) && str_of(field(p@, "path"@)) is Some && blob_dir@.len() > 0 ==> r is Ok,
{
    let path = match p.str_at("path") {
        Some(s) => s.to_owned(),
        None => {
            return Err(Mute::NoPath);
        },
    };
    if blob_dir.is_empty() {
        return Err(Mute::NoBlobDir);
    }
    let codec = match p.str_at("codec") {
        Some(s) => s.to_owned(),
        None => "pcm_s16le".to_owned(),
    };
    let sample_rate: u32 = num_at(p, "sample_rate", 16_000) as u32;
    let channels: u16 = num_at(p, "channels", 1) as u16;
    let mut chunk_ms: u64 = num_at(p, "chunk_ms", 1_000);
    if chunk_ms < 1 {
        chunk_ms = 1;
    }
    let bytes: u64 = match p.u64_at("bytes_per_chunk") {
        Some(v) => v,
        None => {
            proof {
                assert(0 <= sample_rate * channels <= 0xffff_ffff * 0xffff) by (nonlinear_arith);
            }
            let per: u64 = sample_rate as u64 * channels as u64 * 2;
            proof {
                assert(per * chunk_ms >= 0) by (nonlinear_arith);
            }
            match per.checked_mul(chunk_ms) {
                Some(v) => v / 1_000,
                None => {
                    return Err(Mute::TooLarge);
                },
            }
        },
    };
    let bytes: u64 = if bytes < 1 {
        1
    } else {
        bytes
    };
    if bytes > usize::MAX as u64 {
        return Err(Mute::TooLarge);
    }
    let ext = match p.str_at("ext") {
        Some(e) => e.to_owned(),
        None => if text::starts_with(codec.as_str(), "pcm") {
            "pcm".to_owned()
        } else {
            "bin".to_owned()
        },
    };
    Ok(Plan { path, codec, sample_rate, channels, chunk_ms, bytes_per_chunk: bytes as usize, ext })
}

impl Plan {
    /// What is told when the file is opened.
    pub fn opening(&self) -> (r: Json)
        ensures
            r@ == JsonView::Obj(
                Map::<Seq<char>, JsonView>::empty().insert("source"@, JsonView::Str("a-audiofile"@)).insert(
                    "path"@,
                    JsonView::Str(self.path@),
                ).insert("codec"@, JsonView::Str(self.codec@)).insert("sample_rate"@, number(self.sample_rate as int)).insert(
                    "channels"@,
                    number(self.channels as int),
                ).insert("chunk_ms"@, number(self.chunk_ms as int)),
            ),
    {
        let mut o: Vec<(String, Json)> = Vec::new();
        put(&mut o, "source", Json::text("a-audiofile"));
        put(&mut o, "path", Json::text(self.path.as_str()));
        put(&mut o, "codec", Json::text(self.codec.as_str()));
        put(&mut o, "sample_rate", Json::uint(self.sample_rate as u64));
        put(&mut o, "channels", Json::uint(self.channels as u64));
        put(&mut o, "chunk_ms", Json::uint(self.chunk_ms));
        Json::object(o)
    }
}

/// How far a file was taken apart.
#[derive(Debug, Clone, Copy, PartialEq, Eq, Structural)]
pub struct Progress {
    pub t_ms: u64,
    pub total_bytes: u64,
    pub chunks: u64,
}

/// The name of the next piece.
pub open spec fn piece_name(t_ms: u64, ext: Seq<char>) -> Seq<char> {
    "audio-"@ + pad_left(dec(t_ms as int), 12, '0') + "ms."@ + ext
}

/// What is told of a piece.
pub open spec fn piece_view(p: Plan, t_ms: u64, name: Seq<char>, filled: usize, dur_ms: u64) -> JsonView {
    JsonView::Obj(
        Map::<Seq<char>, JsonView>::empty().insert("blob"@, JsonView::Str(name)).insert("len"@, number(filled as int)).insert(
            "codec"@,
            JsonView::Str(p.codec@),
        ).insert("sample_rate"@, number(p.sample_rate as int)).insert("channels"@, number(p.channels as int)).insert(
            "t0_ms"@,
            number(t_ms as int),
        ).insert("dur_ms"@, number(dur_ms as int)).insert("silent"@, JsonView::Bool(false)),
    )
}

/// Progress after a piece: time goes on by at least a millisecond.
pub open spec fn advanced(p: Progress, filled: usize, dur_ms: u64) -> Progress {
    Progress {
        t_ms: (p.t_ms + most(dur_ms as int, 1)) as u64,
        total_bytes: (p.total_bytes + filled) as u64,
        chunks: (p.chunks + 1) as u64,
    }
}

impl Progress {
    /// Nothing yet.
    pub fn new() -> (r: Progress)
        ensures
            r == (Progress { t_ms: 0, total_bytes: 0, chunks: 0 }),
    {
        Progress { t_ms: 0, total_bytes: 0, chunks: 0 }
    }

    /// The name of the next piece.
    pub fn name(&self, ext: &str) -> (r: String)
        ensures
            r@ == piece_name(self.t_ms, ext@),
    {
        let mut s = "audio-".to_owned();
        text::push_pad_left(&mut s, text::dec_text(self.t_ms).as_str(), 12, '0');
        s.append("ms.");
        s.append(ext);
        s
    }

    /// Notes that a piece was written, and says what is told of it. `dur_ms` is how long it lasts.
    pub fn piece(&mut self, plan: &Plan, name: &str, filled: usize, dur_ms: u64) -> (r: Json)
        requires
            old(self).t_ms + most(dur_ms as int, 1) <= u64::MAX,
            old(self).total_bytes + filled <= u64::MAX,
            old(self).chunks < u64::MAX,
        ensures
            r@ == piece_view(*plan, old(self).t_ms, name@, filled, dur_ms),
            *final(self) == advanced(*old(self), filled, dur_ms),
    {
        let mut o: Vec<(String, Json)> = Vec::new();
        put(&mut o, "blob", Json::text(name));
        put(&mut o, "len", Json::uint(filled as u64));
        put(&mut o, "codec", Json::text(plan.codec.as_str()));
        put(&mut o, "sample_rate", Json::uint(plan.sample_rate as u64));
        put(&mut o, "channels", Json::uint(plan.channels as u64));
        put(&mut o, "t0_ms", Json::uint(self.t_ms));
        put(&mut o, "dur_ms", Json::uint(dur_ms));
        put(&mut o, "silent", Json::Bool(false));
        self.total_bytes = self.total_bytes + filled as u64;
        self.chunks = self.chunks + 1;
        self.t_ms = self.t_ms + (if dur_ms < 1 {
            1
        } else {
            dur_ms
        });
        Json::object(o)
    }

    /// What is told when the file is done. `wall_s` is how long that took.
    pub fn closing(&self, wall_s: Json) -> (r: Json)
        ensures
            r@ == JsonView::Obj(
                Map::<Seq<char>, JsonView>::empty().insert("source"@, JsonView::Str("a-audiofile"@)).insert(
                    "chunks"@,
                    number(self.chunks as int),
                ).insert("bytes"@, number(self.total_bytes as int)).insert("wall_s"@, wall_s@),
            ),
    {
        let mut o: Vec<(String, Json)> = Vec::new();
        put(&mut o, "source", Json::text("a-audiofile"));
        put(&mut o, "chunks", Json::uint(self.chunks));
        put(&mut o, "bytes", Json::uint(self.total_bytes));
        put(&mut o, "wall_s", wall_s);
        Json::object(o)
    }
}

/// Pieces follow each other in time: the next one begins later, and no earlier than the last one ends.
pub proof fn pieces_follow_each_other(p: Progress, filled: usize, dur_ms: u64)
    requires
        p.t_ms + most(dur_ms as int, 1) <= u64::MAX,
        p.total_bytes + filled <= u64::MAX,
        p.chunks < u64::MAX,
    ensures
        advanced(p, filled, dur_ms).t_ms > p.t_ms,
        advanced(p, filled, dur_ms).t_ms >= p.t_ms + dur_ms,
{
}

/// Progress after pieces, each with its bytes and its time.
pub open spec fn after_pieces(pieces: Seq<(usize, u64)>) -> Progress
    decreases pieces.len(),
{
    if pieces.len() == 0 {
        Progress { t_ms: 0, total_bytes: 0, chunks: 0 }
    } else {
        advanced(after_pieces(pieces.drop_last()), pieces.last().0, pieces.last().1)
    }
}

/// The bytes of a piece.
pub open spec fn piece_bytes() -> spec_fn((usize, u64)) -> int {
    |p: (usize, u64)| p.0 as int
}

/// By how much time goes on with a piece.
pub open spec fn piece_time() -> spec_fn((usize, u64)) -> int {
    |p: (usize, u64)| most(p.1 as int, 1)
}

/// Nothing is lost count of: after any pieces, what is told at the end is how many they were and how
/// many bytes they had together, and the time is theirs together.
pub proof fn pieces_add_up(pieces: Seq<(usize, u64)>)
    requires
        pieces.len() <= u64::MAX,
        total(pieces, piece_bytes()) <= u64::MAX,
        total(pieces, piece_time()) <= u64::MAX,
    ensures
        after_pieces(pieces).chunks == pieces.len(),
        after_pieces(pieces).total_bytes == total(pieces, piece_bytes()),
        after_pieces(pieces).t_ms == total(pieces, piece_time()),
    decreases pieces.len(),
{
    if pieces.len() > 0 {
        let r = pieces.drop_last();
        lemma_total_grows(r, piece_bytes(), 0);
        lemma_total_grows(r, piece_time(), 0);
        pieces_add_up(r);
    }
}

/// A piece has as many bytes as are asked for; where nothing is asked for, as many as its time takes of
/// sound with two bytes to a sample, rounded down; one at least.
pub proof fn pieces_have_their_size(p: JsonView)
    ensures
        ({
            let rate = num(p, "sample_rate"@, 16_000) as u32;
            let channels = num(p, "channels"@, 1) as u16;
            let ms = num(p, "chunk_ms"@, 1_000);
            &&& piece(p) >= 1
            &&& uint_of(field(p, "bytes_per_chunk"@)) matches Some(v) ==> (v > 0 ==> piece(p) == v)
            &&& uint_of(field(p, "bytes_per_chunk"@)) is None && ms > 0 && piece(p) > 1 ==> piece(p) * 1000 <= (rate * channels) * 2
                * ms < (piece(p) + 1) * 1000
        }),
{
}

} // verus!
