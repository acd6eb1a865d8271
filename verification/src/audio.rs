//! The sound of a lesson: which turns of speech become files, and what is told of them.

use vstd::prelude::*;
use crate::gray::least;
use crate::gray::most;
use crate::json::bool_of;
use crate::json::field;
use crate::json::put;
use crate::json::str_of;
use crate::json::uint_of;
use crate::json::Json;
use crate::json::JsonView;
use crate::screen::number;
use crate::text;
use crate::text::dec;
use crate::text::opt_view;
use crate::text::pad_left;
use crate::vad::config_of;
use crate::vad::times_fit;
use crate::vad::FrameStream;
use crate::vad::Segment;
use crate::vad::Vad;
use crate::vad::VadConfig;
use crate::wav;

verus! {

/// The name of this source.
pub const ID: &'static str = "a-audio";

/// How a lesson is recorded.
#[derive(Debug, Clone)]
pub struct Settings {
    pub vad: VadConfig,
    pub frame_ms: u64,
    /// The sample rate that is asked for; the stream has its own.
    pub want_rate: u32,
    pub emit_silence: bool,
    /// A recording that is played instead of a microphone.
    pub fixture: Option<String>,
    pub use_fixture: bool,
}

/// Whether settings are those that parameters ask for.
pub open spec fn are_settings(s: Settings, p: JsonView) -> bool {
    &&& s.vad == config_of(field(p, "vad"@))
    &&& s.frame_ms == (match uint_of(field(p, "frame_ms"@)) {
        Some(v) => v,
        None => 20,
    })
    &&& s.want_rate == (match uint_of(field(p, "sample_rate"@)) {
        Some(v) => v as u32,
        None => 16_000,
    })
    &&& s.emit_silence == (match bool_of(field(p, "emit_silence"@)) {
        Some(b) => b,
        None => false,
    })
    &&& opt_view(s.fixture) == str_of(field(p, "fixture"@))
    &&& s.use_fixture == ({
        let source = str_of(field(p, "source"@));
        if source == Some("device"@) {
            false
        } else if source == Some("fixture"@) {
            true
        } else {
            str_of(field(p, "fixture"@)) is Some
        }
    })
}

impl Settings {
    /// How parameters ask for a lesson to be recorded.
    pub fn from_params(p: &Json) -> (r: Settings)
        ensures
            are_settings(r, p@),
    {
        let fixture = match p.str_at("fixture") {
            Some(s) => Some(s.to_owned()),
            None => None,
        };
        let use_fixture = match p.str_at("source") {
            Some(s) => if text::same(s, "device") {
                false
            } else if text::same(s, "fixture") {
                true
            } else {
                fixture.is_some()
            },
            None => fixture.is_some(),
        };
        Settings {
            vad: VadConfig::from_json(p.get("vad")),
            frame_ms: match p.u64_at("frame_ms") {
                Some(v) => v,
                None => 20,
            },
            want_rate: match p.u64_at("sample_rate") {
                Some(v) => v as u32,
                None => 16_000,
            },
            emit_silence: match p.get("emit_silence") {
                Some(b) => match b.as_bool() {
                    Some(b) => b,
                    None => false,
                },
                None => false,
            },
            fixture,
            use_fixture,
        }
    }
}

/// What is told of a microphone when a session opens.
pub fn device_note(device: &str, format: &str, channels: u16, rate: u32, want_rate: u32) -> (r: Json)
    ensures
        r@ == JsonView::Obj(
            Map::<Seq<char>, JsonView>::empty().insert("input"@, JsonView::Str("device"@)).insert(
                "device"@,
                JsonView::Str(device@),
            ).insert("sample_format"@, JsonView::Str(format@)).insert("device_channels"@, number(channels as int)).insert(
                "sample_rate"@,
                number(rate as int),
            ).insert("wanted_sample_rate"@, number(want_rate as int)),
        ),
{
    let mut o: Vec<(String, Json)> = Vec::new();
    put(&mut o, "input", Json::text("device"));
    put(&mut o, "device", Json::text(device));
    put(&mut o, "sample_format", Json::text(format));
    put(&mut o, "device_channels", Json::uint(channels as u64));
    put(&mut o, "sample_rate", Json::uint(rate as u64));
    put(&mut o, "wanted_sample_rate", Json::uint(want_rate as u64));
    Json::object(o)
}

/// What is told of a recording when a session opens. `speed` is how fast it is played.
pub fn fixture_note(path: &str, channels: u16, rate: u32, want_rate: u32, speed: Json, samples: usize) -> (r: Json)
    ensures
        r@ == JsonView::Obj(
            Map::<Seq<char>, JsonView>::empty().insert("input"@, JsonView::Str("fixture"@)).insert(
                "path"@,
                JsonView::Str(path@),
            ).insert("file_channels"@, number(channels as int)).insert("sample_rate"@, number(rate as int)).insert(
                "wanted_sample_rate"@,
                number(want_rate as int),
            ).insert("speed"@, speed@).insert("file_samples"@, number(samples as int)),
        ),
{
    let mut o: Vec<(String, Json)> = Vec::new();
    put(&mut o, "input", Json::text("fixture"));
    put(&mut o, "path", Json::text(path));
    put(&mut o, "file_channels", Json::uint(channels as u64));
    put(&mut o, "sample_rate", Json::uint(rate as u64));
    put(&mut o, "wanted_sample_rate", Json::uint(want_rate as u64));
    put(&mut o, "speed", speed);
    put(&mut o, "file_samples", Json::uint(samples as u64));
    Json::object(o)
}

/// A recording that is being played.
#[derive(Debug, Clone)]
pub struct Replay {
    pub pcm: Vec<i16>,
    pub pos: usize,
}

impl Replay {
    /// Puts up to `want` samples into the stream; false where none are left.
    pub fn fill(&mut self, frames: &mut FrameStream, want: usize) -> (r: bool)
        requires
            old(self).pos + want <= usize::MAX,
        ensures
            r == (old(self).pos < old(self).pcm@.len()),
            final(self).pcm == old(self).pcm,
            final(frames).frame_ms == old(frames).frame_ms,
            if r {
                let end = least(old(self).pos + want, old(self).pcm@.len() as int);
                final(self).pos == end && final(frames)@ == old(frames)@ + old(self).pcm@.subrange(
                    old(self).pos as int,
                    end,
                )
            } else {
                final(self).pos == old(self).pos && final(frames)@ == old(frames)@
            },
    {
        if self.pos >= self.pcm.len() {
            return false;
        }
        let end: usize = if self.pos + want < self.pcm.len() {
            self.pos + want
        } else {
            self.pcm.len()
        };
        let piece = vstd::slice::slice_subrange(self.pcm.as_slice(), self.pos, end);
        frames.feed(piece);
        self.pos = end;
        true
    }
}

/// The recording of one lesson.
#[derive(Debug, Clone)]
pub struct Session {
    pub lesson_id: String,
    pub rate: u32,
    pub frames: FrameStream,
    pub vad: Vad,
    pub emit_silence: bool,
    pub chunks: u64,
    pub bytes: u64,
    pub voiced_ms: u64,
    pub silent_chunks: u64,
    pub failed: Option<String>,
    pub request_stop: bool,
    pub done: bool,
    pub closed: bool,
    pub opened: bool,
}

/// What becomes of a turn.
#[derive(Debug, Clone)]
pub enum Fate {
    /// It is not kept.
    Dropped,
    /// It becomes a file.
    Kept { name: String, bytes: Vec<u8>, voiced: bool },
}

/// The name of the file of a turn.
pub open spec fn blob_name(t0_ms: u64) -> Seq<char> {
    "audio-"@ + pad_left(dec(t0_ms as int), 12, '0') + "ms.wav"@
}

/// What is told of a turn that became a file. `rms` is its level.
pub open spec fn chunk_view(s: Session, seg: Segment, name: Seq<char>, len: u64, voiced: bool, rms: JsonView) -> JsonView {
    JsonView::Obj(
        Map::<Seq<char>, JsonView>::empty().insert("blob"@, JsonView::Str(name)).insert("len"@, number(len as int)).insert(
            "codec"@,
            JsonView::Str("pcm_s16le"@),
        ).insert("sample_rate"@, number(s.rate as int)).insert("channels"@, number(1)).insert(
            "t0_ms"@,
            number(seg.t0_ms as int),
        ).insert("dur_ms"@, number(seg.dur_ms as int)).insert("silent"@, JsonView::Bool(!voiced)).insert("rms"@, rms).insert(
            "peak"@,
            number(seg.peak as int),
        ).insert("speech_ms"@, number(seg.speech_ms as int)).insert("trigger"@, JsonView::Str("vad"@)).insert(
            "source"@,
            JsonView::Str("a-audio"@),
        ),
    )
}

/// What is told when a session closes.
pub open spec fn close_view(s: Session, wall_ms: u64, errors: u64) -> JsonView {
    JsonView::Obj(
        Map::<Seq<char>, JsonView>::empty().insert("source"@, JsonView::Str("a-audio"@)).insert(
            "lesson_id"@,
            JsonView::Str(s.lesson_id@),
        ).insert("chunks"@, number(s.chunks as int)).insert("bytes"@, number(s.bytes as int)).insert(
            "silent_chunks"@,
            number(s.silent_chunks as int),
        ).insert("voiced_ms"@, number(s.voiced_ms as int)).insert("dropped_short"@, number(s.vad.dropped_short as int)).insert(
            "audio_ms"@,
            number(crate::vad::ms_of(s.vad.rate(), s.vad.consumed as int)),
        ).insert("wall_ms"@, number(wall_ms as int)).insert("stream_errors"@, number(errors as int)).insert(
            "error"@,
            match s.failed {
                Some(e) => JsonView::Str(e@),
                None => JsonView::Null,
            },
        ),
    )
}

impl Session {
    /// A session that has heard nothing yet. One that could not start is over at once.
    pub fn start(lesson_id: &str, set: &Settings, rate: u32, failed: Option<String>) -> (r: Session)
        requires
            times_fit(set.vad, rate, 1),
        ensures
            r.lesson_id@ == lesson_id@,
            r.rate == rate,
            r.frames@ == Seq::<i16>::empty(),
            r.frames.frame_ms == most(set.frame_ms as int, 1),
            r.vad.wf(),
            r.vad.cfg == set.vad,
            r.vad.sample_rate == rate,
            r.vad.channels == 1,
            r.vad.dropped_short == 0,
            r.vad.consumed == 0,
            !r.vad.open,
            r.emit_silence == set.emit_silence,
            r.chunks == 0,
            r.bytes == 0,
            r.voiced_ms == 0,
            r.silent_chunks == 0,
            r.failed == failed,
            !r.request_stop,
            r.done == (failed is Some),
            !r.closed,
            r.opened == (failed is None),
    {
        let dead = failed.is_some();
        let cfg = VadConfig {
            frame_ms: set.vad.frame_ms,
            rms_open: set.vad.rms_open,
            rms_close: set.vad.rms_close,
            hangover_ms: set.vad.hangover_ms,
            preroll_ms: set.vad.preroll_ms,
            min_speech_ms: set.vad.min_speech_ms,
            max_segment_ms: set.vad.max_segment_ms,
        };
        let vad = Vad::new(cfg, rate, 1);
        assert(!vad@.open && vad@.consumed == 0);
        Session {
            lesson_id: lesson_id.to_owned(),
            rate,
            frames: FrameStream::new(set.frame_ms),
            vad,
            emit_silence: set.emit_silence,
            chunks: 0,
            bytes: 0,
            voiced_ms: 0,
            silent_chunks: 0,
            failed,
            request_stop: false,
            done: dead,
            closed: false,
            opened: !dead,
        }
    }

    /// What is told when a session opens: what is known of the source, and how it is cut.
    pub fn opening(&self, note: Json, frame_ms: u64, vad: Json) -> (r: Json)
        ensures
            r@ == (match note@ {
                JsonView::Obj(m) => JsonView::Obj(
                    m.insert("source"@, JsonView::Str("a-audio"@)).insert("lesson_id"@, JsonView::Str(self.lesson_id@)).insert(
                        "channels"@,
                        number(1),
                    ).insert("codec"@, JsonView::Str("pcm_s16le(wav)"@)).insert("frame_ms"@, number(frame_ms as int)).insert(
                        "vad"@,
                        vad@,
                    ),
                ),
                j => j,
            }),
    {
        match note {
            Json::Obj(o) => {
                let mut o = o;
                put(&mut o, "source", Json::text("a-audio"));
                put(&mut o, "lesson_id", Json::text(self.lesson_id.as_str()));
                put(&mut o, "channels", Json::uint(1));
                put(&mut o, "codec", Json::text("pcm_s16le(wav)"));
                put(&mut o, "frame_ms", Json::uint(frame_ms));
                put(&mut o, "vad", vad);
                Json::object(o)
            },
            j => j,
        }
    }

    /// Asks a session to come to its end.
    pub fn request_stop(&mut self)
        ensures
            *final(self) == (Session { request_stop: true, ..*old(self) }),
    {
        self.request_stop = true;
    }

    /// Whether a session comes to its end now: the source has no more sound, or it was asked to.
    /// It gives the turn that is still open then.
    pub fn end_if_due(&mut self, alive: bool) -> (r: Option<Segment>)
        requires
            old(self).vad.wf(),
            (!alive || old(self).request_stop) && old(self).vad.open ==> crate::vad::even_range(old(self).vad.pending@),
        ensures
            final(self).vad.wf(),
            final(self).vad.dropped_short == old(self).vad.dropped_short,
            ({
                let ends = !alive || old(self).request_stop;
                &&& final(self).done == (old(self).done || ends)
                &&& if ends && old(self).vad.open {
                    &&& r matches Some(g) && crate::vad::is_segment(g, crate::vad::turn(old(self).vad@), old(self).vad.rate())
                    &&& final(self).vad@ == crate::vad::closed(old(self).vad@)
                } else {
                    r is None && final(self).vad == old(self).vad
                }
                &&& *final(self) == (Session { vad: final(self).vad, done: final(self).done, ..*old(self) })
            }),
    {
        if !alive || self.request_stop {
            let r = self.vad.flush();
            self.done = true;
            return r;
        }
        None
    }

    /// Decides what becomes of a turn. One with too little speech is counted, and kept only where
    /// that is asked for.
    pub fn judge(&mut self, seg: &Segment) -> (r: Fate)
        requires
            seg.speech_ms < old(self).vad.cfg.min_speech_ms ==> old(self).vad.dropped_short < u64::MAX,
            seg.speech_ms >= old(self).vad.cfg.min_speech_ms ==> old(self).voiced_ms + seg.speech_ms <= u64::MAX,
            (seg.speech_ms >= old(self).vad.cfg.min_speech_ms || old(self).emit_silence) && seg.samples@.len() > 0
                ==> wav::writable(old(self).rate, 1, seg.samples@.len() as int),
        ensures
            ({
                let voiced = seg.speech_ms >= old(self).vad.cfg.min_speech_ms;
                let keeps = (voiced || old(self).emit_silence) && seg.samples@.len() > 0;
                &&& if keeps {
                    r matches Fate::Kept { name, bytes, voiced: v } && name@ == blob_name(seg.t0_ms) && bytes@ == wav::file(
                        old(self).rate,
                        1,
                        seg.samples@,
                    ) && v == voiced
                } else {
                    r is Dropped
                }
                &&& *final(self) == (Session {
                    vad: Vad {
                        dropped_short: if voiced {
                            old(self).vad.dropped_short
                        } else {
                            (old(self).vad.dropped_short + 1) as u64
                        },
                        ..old(self).vad
                    },
                    voiced_ms: if voiced {
                        (old(self).voiced_ms + seg.speech_ms) as u64
                    } else {
                        old(self).voiced_ms
                    },
                    ..*old(self)
                })
            }),
    {
        let voiced = self.vad.accept(seg);
        if voiced {
            self.voiced_ms = self.voiced_ms + seg.speech_ms;
        } else if !self.emit_silence {
            return Fate::Dropped;
        }
        if seg.samples.len() == 0 {
            return Fate::Dropped;
        }
        let mut name = "audio-".to_owned();
        text::push_pad_left(&mut name, text::dec_text(seg.t0_ms).as_str(), 12, '0');
        name.append("ms.wav");
        let bytes = wav::encode(self.rate, 1, seg.samples.as_slice());
        Fate::Kept { name, bytes, voiced }
    }

    /// Notes that the file of a turn was written, and says what is told of it.
    pub fn kept(&mut self, seg: &Segment, name: &str, len: u64, voiced: bool, rms: Json) -> (r: Json)
        requires
            old(self).chunks < u64::MAX,
            !voiced ==> old(self).silent_chunks < u64::MAX,
            old(self).bytes + len <= u64::MAX,
            seg.peak >= 0,
        ensures
            r@ == chunk_view(*old(self), *seg, name@, len, voiced, rms@),
            *final(self) == (Session {
                chunks: (old(self).chunks + 1) as u64,
                bytes: (old(self).bytes + len) as u64,
                silent_chunks: if voiced {
                    old(self).silent_chunks
                } else {
                    (old(self).silent_chunks + 1) as u64
                },
                ..*old(self)
            }),
    {
        let mut o: Vec<(String, Json)> = Vec::new();
        put(&mut o, "blob", Json::text(name));
        put(&mut o, "len", Json::uint(len));
        put(&mut o, "codec", Json::text("pcm_s16le"));
        put(&mut o, "sample_rate", Json::uint(self.rate as u64));
        put(&mut o, "channels", Json::uint(1));
        put(&mut o, "t0_ms", Json::uint(seg.t0_ms));
        put(&mut o, "dur_ms", Json::uint(seg.dur_ms));
        put(&mut o, "silent", Json::Bool(!voiced));
        put(&mut o, "rms", rms);
        put(&mut o, "peak", Json::uint(seg.peak as u64));
        put(&mut o, "speech_ms", Json::uint(seg.speech_ms));
        put(&mut o, "trigger", Json::text("vad"));
        put(&mut o, "source", Json::text("a-audio"));
        self.chunks = self.chunks + 1;
        self.bytes = self.bytes + len;
        if !voiced {
            self.silent_chunks = self.silent_chunks + 1;
        }
        Json::object(o)
    }

    /// Notes that the file of a turn could not be written: the session is over.
    pub fn write_failed(&mut self, e: &str)
        ensures
            opt_view(final(self).failed) == Some("写 blob 失败："@ + e@),
            *final(self) == (Session { failed: final(self).failed, done: true, ..*old(self) }),
    {
        let mut s = "写 blob 失败：".to_owned();
        s.append(e);
        self.failed = Some(s);
        self.done = true;
    }

    /// Closes a session and says what is told of it; nothing where it never opened, or is closed.
    pub fn finish(&mut self, wall_ms: u64, errors: usize) -> (r: Option<Json>)
        requires
            old(self).vad.wf(),
        ensures
            *final(self) == (Session { closed: true, ..*old(self) }),
            if old(self).closed || !old(self).opened {
                r is None
            } else {
                r matches Some(j) && j@ == close_view(*old(self), wall_ms, errors as u64)
            },
    {
        let told = !self.closed && self.opened;
        self.closed = true;
        if !told {
            return None;
        }
        let mut o: Vec<(String, Json)> = Vec::new();
        put(&mut o, "source", Json::text("a-audio"));
        put(&mut o, "lesson_id", Json::text(self.lesson_id.as_str()));
        put(&mut o, "chunks", Json::uint(self.chunks));
        put(&mut o, "bytes", Json::uint(self.bytes));
        put(&mut o, "silent_chunks", Json::uint(self.silent_chunks));
        put(&mut o, "voiced_ms", Json::uint(self.voiced_ms));
        put(&mut o, "dropped_short", Json::uint(self.vad.dropped_short()));
        put(&mut o, "audio_ms", Json::uint(self.vad.consumed_ms()));
        put(&mut o, "wall_ms", Json::uint(wall_ms));
        put(&mut o, "stream_errors", Json::uint(errors as u64));
        put(
            &mut o,
            "error",
            match &self.failed {
                Some(e) => Json::text(e.as_str()),
                None => Json::Null,
            },
        );
        Some(Json::object(o))
    }

    /// What the operator is told of a session that closed.
    pub fn farewell(&self, errors: usize) -> (r: String)
        ensures
            r@ == (match self.failed {
                Some(e) => "本节课未产出音频（"@ + e@ + "）"@,
                None => "收课 "@ + self.lesson_id@ + "："@ + dec(self.chunks as int) + " 段 / "@ + dec(self.bytes as int)
                    + " 字节，语音 "@ + dec(self.voiced_ms as int) + "ms（静音段 "@ + dec(self.silent_chunks as int)
                    + "，短促丢弃 "@ + dec(self.vad.dropped_short as int) + "，流错误 "@ + dec(errors as int) + "）"@,
            }),
    {
        match &self.failed {
            Some(e) => {
                let mut s = "本节课未产出音频（".to_owned();
                s.append(e.as_str());
                s.append("）");
                s
            },
            None => {
                let mut s = "收课 ".to_owned();
                s.append(self.lesson_id.as_str());
                s.append("：");
                text::push_dec(&mut s, self.chunks);
                s.append(" 段 / ");
                text::push_dec(&mut s, self.bytes);
                s.append(" 字节，语音 ");
                text::push_dec(&mut s, self.voiced_ms);
                s.append("ms（静音段 ");
                text::push_dec(&mut s, self.silent_chunks);
                s.append("，短促丢弃 ");
                text::push_dec(&mut s, self.vad.dropped_short());
                s.append("，流错误 ");
                text::push_dec(&mut s, errors as u64);
                s.append("）");
                s
            },
        }
    }
}

// ---------------------------------------------------------------------------------------------
// What holds of every session
// ---------------------------------------------------------------------------------------------

/// What a session tells on closing is what it counted, under the names by which the figures of a lesson
/// are added up.
pub proof fn closing_tells_what_was_counted(s: Session, wall_ms: u64, errors: u64)
    requires
        crate::vad::ms_of(s.vad.rate(), s.vad.consumed as int) <= u64::MAX,
        0 <= crate::vad::ms_of(s.vad.rate(), s.vad.consumed as int),
    ensures
        ({
            let p = close_view(s, wall_ms, errors);
            &&& uint_of(field(p, "chunks"@)) == Some(s.chunks)
            &&& uint_of(field(p, "bytes"@)) == Some(s.bytes)
            &&& uint_of(field(p, "silent_chunks"@)) == Some(s.silent_chunks)
            &&& uint_of(field(p, "voiced_ms"@)) == Some(s.voiced_ms)
            &&& uint_of(field(p, "dropped_short"@)) == Some(s.vad.dropped_short)
            &&& uint_of(field(p, "wall_ms"@)) == Some(wall_ms)
            &&& uint_of(field(p, "stream_errors"@)) == Some(errors)
            &&& uint_of(field(p, "audio_ms"@)) == Some(crate::vad::ms_of(s.vad.rate(), s.vad.consumed as int) as u64)
            &&& str_of(field(p, "error"@)) == opt_view(s.failed)
        }),
{
    reveal_strlit("source");
    reveal_strlit("lesson_id");
    reveal_strlit("chunks");
    reveal_strlit("bytes");
    reveal_strlit("silent_chunks");
    reveal_strlit("voiced_ms");
    reveal_strlit("dropped_short");
    reveal_strlit("audio_ms");
    reveal_strlit("wall_ms");
    reveal_strlit("stream_errors");
    reveal_strlit("error");
    assert("source"@.len() == 6);
    assert("lesson_id"@.len() == 9);
    assert("chunks"@.len() == 6);
    assert("bytes"@.len() == 5);
    assert("silent_chunks"@.len() == 13);
    assert("voiced_ms"@.len() == 9);
    assert("dropped_short"@.len() == 13);
    assert("audio_ms"@.len() == 8);
    assert("wall_ms"@.len() == 7);
    assert("stream_errors"@.len() == 13);
    assert("error"@.len() == 5);
    assert("source"@[0] != "chunks"@[0]);
    assert("source"@ != "chunks"@);
    assert("lesson_id"@[0] != "voiced_ms"@[0]);
    assert("lesson_id"@ != "voiced_ms"@);
    assert("bytes"@[0] != "error"@[0]);
    assert("bytes"@ != "error"@);
    assert("silent_chunks"@[0] != "dropped_short"@[0]);
    assert("silent_chunks"@ != "dropped_short"@);
    assert("silent_chunks"@[1] != "stream_errors"@[1]);
    assert("silent_chunks"@ != "stream_errors"@);
    assert("dropped_short"@[0] != "stream_errors"@[0]);
    assert("dropped_short"@ != "stream_errors"@);
}

/// What a session tells of a turn is what the turn is: where it begins, how long it is, how much of it is
/// speech, whether it counts as silence, and which file holds it.
pub proof fn turns_are_told_as_they_are(s: Session, seg: Segment, name: Seq<char>, len: u64, voiced: bool, rms: JsonView)
    requires
        seg.peak >= 0,
    ensures
        ({
            let p = chunk_view(s, seg, name, len, voiced, rms);
            &&& str_of(field(p, "blob"@)) == Some(name)
            &&& uint_of(field(p, "len"@)) == Some(len)
            &&& uint_of(field(p, "sample_rate"@)) == Some(s.rate as u64)
            &&& uint_of(field(p, "t0_ms"@)) == Some(seg.t0_ms)
            &&& uint_of(field(p, "dur_ms"@)) == Some(seg.dur_ms)
            &&& uint_of(field(p, "speech_ms"@)) == Some(seg.speech_ms)
            &&& uint_of(field(p, "peak"@)) == Some(seg.peak as u64)
            &&& bool_of(field(p, "silent"@)) == Some(!voiced)
            &&& field(p, "rms"@) == Some(rms)
        }),
{
    reveal_strlit("blob");
    reveal_strlit("len");
    reveal_strlit("codec");
    reveal_strlit("sample_rate");
    reveal_strlit("channels");
    reveal_strlit("t0_ms");
    reveal_strlit("dur_ms");
    reveal_strlit("silent");
    reveal_strlit("rms");
    reveal_strlit("peak");
    reveal_strlit("speech_ms");
    reveal_strlit("trigger");
    reveal_strlit("source");
    assert("blob"@.len() == 4);
    assert("len"@.len() == 3);
    assert("codec"@.len() == 5);
    assert("sample_rate"@.len() == 11);
    assert("channels"@.len() == 8);
    assert("t0_ms"@.len() == 5);
    assert("dur_ms"@.len() == 6);
    assert("silent"@.len() == 6);
    assert("rms"@.len() == 3);
    assert("peak"@.len() == 4);
    assert("speech_ms"@.len() == 9);
    assert("trigger"@.len() == 7);
    assert("source"@.len() == 6);
    assert("blob"@[0] != "peak"@[0]);
    assert("blob"@ != "peak"@);
    assert("len"@[0] != "rms"@[0]);
    assert("len"@ != "rms"@);
    assert("codec"@[0] != "t0_ms"@[0]);
    assert("codec"@ != "t0_ms"@);
    assert("dur_ms"@[0] != "silent"@[0]);
    assert("dur_ms"@ != "silent"@);
    assert("dur_ms"@[0] != "source"@[0]);
    assert("dur_ms"@ != "source"@);
    assert("silent"@[1] != "source"@[1]);
    assert("silent"@ != "source"@);
}

/// Settings are used as asked: sound is taken from a recording where one is named or asked for and from
/// the microphone where that is asked for; silence is kept only where that is asked for.
pub proof fn settings_are_used_as_asked(s: Settings, p: JsonView)
    requires
        are_settings(s, p),
    ensures
        bool_of(field(p, "emit_silence"@)) matches Some(b) ==> s.emit_silence == b,
        bool_of(field(p, "emit_silence"@)) is None ==> !s.emit_silence,
        str_of(field(p, "source"@)) is None ==> s.use_fixture == (str_of(field(p, "fixture"@)) is Some),
        str_of(field(p, "source"@)) == Some("device"@) ==> !s.use_fixture,
        uint_of(field(p, "frame_ms"@)) matches Some(v) ==> s.frame_ms == v,
        uint_of(field(p, "sample_rate"@)) matches Some(v) ==> s.want_rate == v as u32,
        s.vad == config_of(field(p, "vad"@)),
        opt_view(s.fixture) == str_of(field(p, "fixture"@)),
{
}

} // verus!
