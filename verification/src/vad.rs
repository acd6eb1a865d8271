//! Cutting sound into turns of speech, by its level.
//!
//! A turn opens above one level and closes below a lower one, so that a short breath does not
//! break it; it keeps a little of what came before, and does not grow without limit.

use vstd::prelude::*;
use crate::double;
use crate::double::order_key;
use crate::double::six_tenths_of;
use crate::double::truncated;
use crate::gray::most;
use crate::json::bits_of;
use crate::json::field;
use crate::json::Json;
use crate::json::JsonView;
use crate::schema::Real;

verus! {

/// The pattern of 5.
pub const FIVE: u64 = 0x4014_0000_0000_0000;

/// The pattern of 300.
pub const THREE_HUNDRED: u64 = 0x4072_c000_0000_0000;

/// The pattern of 500.
pub const FIVE_HUNDRED: u64 = 0x407f_4000_0000_0000;

/// How sound is cut.
#[derive(Debug, Clone)]
pub struct VadConfig {
    pub frame_ms: u64,
    /// The level at which a turn opens.
    pub rms_open: Real,
    /// The level below which it is silent.
    pub rms_close: Real,
    /// How long silence lasts until a turn closes.
    pub hangover_ms: u64,
    /// How much of what came before a turn is kept with it.
    pub preroll_ms: u64,
    /// Turns with less speech are not kept.
    pub min_speech_ms: u64,
    /// How long a turn gets.
    pub max_segment_ms: u64,
}

impl Default for VadConfig {
    fn default() -> (r: VadConfig)
        ensures
            r == default_config(),
    {
        VadConfig {
            frame_ms: 20,
            rms_open: Real { bits: FIVE_HUNDRED },
            rms_close: Real { bits: THREE_HUNDRED },
            hangover_ms: 350,
            preroll_ms: 120,
            min_speech_ms: 250,
            max_segment_ms: 8_000,
        }
    }
}

/// How sound is cut where nothing else is asked for.
pub open spec fn default_config() -> VadConfig {
    VadConfig {
        frame_ms: 20,
        rms_open: Real { bits: FIVE_HUNDRED },
        rms_close: Real { bits: THREE_HUNDRED },
        hangover_ms: 350,
        preroll_ms: 120,
        min_speech_ms: 250,
        max_segment_ms: 8_000,
    }
}

/// A time out of the parameters: its whole milliseconds, where it is at least `least`.
pub open spec fn time_at(o: JsonView, k: Seq<char>, least: u64, d: u64) -> int {
    match bits_of(field(o, k)) {
        Some(b) => if order_key(b) >= order_key(least) {
            truncated(b)
        } else {
            d as int
        },
        None => d as int,
    }
}

/// A time out of the parameters: its whole milliseconds, none where it is negative.
pub open spec fn any_time_at(o: JsonView, k: Seq<char>, d: u64) -> int {
    match bits_of(field(o, k)) {
        Some(b) => truncated(b),
        None => d as int,
    }
}

/// A level out of the parameters, where it is positive.
pub open spec fn level_at(o: JsonView, k: Seq<char>, d: u64) -> u64 {
    match bits_of(field(o, k)) {
        Some(b) => if order_key(b) > 0 {
            b
        } else {
            d
        },
        None => d,
    }
}

/// How parameters ask for sound to be cut. A level to close that is not below the level to open is
/// replaced by six tenths of that.
pub open spec fn config_of(v: Option<JsonView>) -> VadConfig {
    match v {
        None => default_config(),
        Some(o) => {
            let open = level_at(o, "rms_open"@, FIVE_HUNDRED);
            let close = level_at(o, "rms_close"@, THREE_HUNDRED);
            VadConfig {
                frame_ms: time_at(o, "frame_ms"@, FIVE, 20) as u64,
                rms_open: Real { bits: open },
                rms_close: Real {
                    bits: if order_key(close) >= order_key(open) {
                        six_tenths_of(open) as u64
                    } else {
                        close
                    },
                },
                hangover_ms: any_time_at(o, "hangover_ms"@, 350) as u64,
                preroll_ms: any_time_at(o, "preroll_ms"@, 120) as u64,
                min_speech_ms: any_time_at(o, "min_speech_ms"@, 250) as u64,
                max_segment_ms: time_at(o, "max_segment_ms"@, FIVE_HUNDRED, 8_000) as u64,
            }
        },
    }
}

fn read_time(o: &Json, k: &str, least: u64, d: u64) -> (r: u64)
    ensures
        r == time_at(o@, k@, least, d),
{
    match o.bits_at(k) {
        Some(b) => if double::less(b, least) {
            d
        } else {
            double::trunc(b)
        },
        None => d,
    }
}

fn read_any_time(o: &Json, k: &str, d: u64) -> (r: u64)
    ensures
        r == any_time_at(o@, k@, d),
{
    match o.bits_at(k) {
        Some(b) => double::trunc(b),
        None => d,
    }
}

fn read_level(o: &Json, k: &str, d: u64) -> (r: u64)
    requires
        double::finite(d),
    ensures
        r == level_at(o@, k@, d),
        double::finite(r),
{
    match o.bits_at(k) {
        Some(b) => if double::less(0, b) {
            b
        } else {
            d
        },
        None => d,
    }
}

impl VadConfig {
    /// How parameters ask for sound to be cut.
    pub fn from_json(v: Option<&Json>) -> (r: VadConfig)
        ensures
            r == config_of(crate::json::ref_json(v)),
    {
        let o = match v {
            Some(o) => o,
            None => {
                return VadConfig::default();
            },
        };
        let open: u64 = read_level(o, "rms_open", FIVE_HUNDRED);
        let close: u64 = read_level(o, "rms_close", THREE_HUNDRED);
        VadConfig {
            frame_ms: read_time(o, "frame_ms", FIVE, 20),
            rms_open: Real { bits: open },
            rms_close: Real {
                bits: if double::less(close, open) {
                    close
                } else {
                    double::six_tenths(open)
                },
            },
            hangover_ms: read_any_time(o, "hangover_ms", 350),
            preroll_ms: read_any_time(o, "preroll_ms", 120),
            min_speech_ms: read_any_time(o, "min_speech_ms", 250),
            max_segment_ms: read_time(o, "max_segment_ms", FIVE_HUNDRED, 8_000),
        }
    }
}

/// Whatever the parameters are, a turn closes below the level at which it opens. The level to open
/// must not be the smallest of all numbers, which is its own six tenths.
pub proof fn turns_can_close(v: Option<JsonView>)
    requires
        v matches Some(o) ==> level_at(o, "rms_open"@, FIVE_HUNDRED) != 1 && double::finite(
            level_at(o, "rms_open"@, FIVE_HUNDRED),
        ),
    ensures
        order_key(config_of(v).rms_close.bits) < order_key(config_of(v).rms_open.bits),
{
    match v {
        Some(o) => {
            let open = level_at(o, "rms_open"@, FIVE_HUNDRED);
            double::six_tenths_are_less(open);
        },
        None => {},
    }
}

// ---------------------------------------------------------------------------------------------
// Levels
// ---------------------------------------------------------------------------------------------

/// How far a sample is from silence.
pub open spec fn height(s: i16) -> int {
    if s < 0 {
        -s
    } else {
        s as int
    }
}

/// The largest height of the first `n` samples.
pub open spec fn peak(s: Seq<i16>, n: int) -> int
    decreases n,
{
    if n <= 0 {
        0
    } else {
        most(peak(s, n - 1), height(s[n - 1]))
    }
}

/// Whether no sample is so low that its height is not a sample.
pub open spec fn even_range(s: Seq<i16>) -> bool {
    forall|i: int| 0 <= i < s.len() ==> #[trigger] s[i] != i16::MIN
}

/// The largest height in a frame.
pub fn frame_peak(frame: &[i16]) -> (r: i16)
    requires
        even_range(frame@),
    ensures
        r == peak(frame@, frame@.len() as int),
{
    let mut m: i16 = 0;
    let mut i: usize = 0;
    while i < frame.len()
        invariant
            i <= frame@.len(),
            even_range(frame@),
            m == peak(frame@, i as int),
        decreases frame@.len() - i,
    {
        let s: i16 = frame[i];
        assert(frame@[i as int] != i16::MIN);
        let h: i16 = if s < 0 {
            -s
        } else {
            s
        };
        if h > m {
            m = h;
        }
        i += 1;
    }
    m
}

proof fn lemma_peak(s: Seq<i16>, n: int, i: int)
    requires
        0 <= i < n <= s.len(),
    ensures
        peak(s, n) >= height(s[i]),
    decreases n,
{
    if i < n - 1 {
        lemma_peak(s, n - 1, i);
    }
}

/// No sample is higher than the peak.
pub proof fn peaks_are_highest(s: Seq<i16>, i: int)
    requires
        0 <= i < s.len(),
    ensures
        height(s[i]) <= peak(s, s.len() as int),
{
    lemma_peak(s, s.len() as int, i);
}

// ---------------------------------------------------------------------------------------------
// Time
// ---------------------------------------------------------------------------------------------

/// Samples in a second, of all channels.
pub open spec fn per_second(sample_rate: u32, channels: u16) -> int {
    most(sample_rate as int, 1) * most(channels as int, 1)
}

/// The length of a frame in samples.
pub open spec fn frame_len(frame_ms: u64, sample_rate: u32, channels: u16) -> int {
    most(frame_ms * sample_rate * most(channels as int, 1) / 1000, 1)
}

/// The length of a frame in samples, by the format of the stream.
pub fn frame_samples_for(cfg: &VadConfig, sample_rate: u32, channels: u16) -> (r: usize)
    requires
        cfg.frame_ms * sample_rate * most(channels as int, 1) <= u64::MAX,
    ensures
        r == frame_len(cfg.frame_ms, sample_rate, channels) as u64 as usize,
{
    let ch: u64 = if channels > 1 {
        channels as u64
    } else {
        1
    };
    proof {
        let a = cfg.frame_ms * sample_rate;
        assert(a >= 0) by (nonlinear_arith)
            requires
                a == cfg.frame_ms * sample_rate,
        ;
        assert(a <= a * ch) by (nonlinear_arith)
            requires
                a >= 0,
                ch >= 1,
        ;
    }
    let n: u64 = cfg.frame_ms * sample_rate as u64 * ch / 1_000;
    if n > 1 {
        n as usize
    } else {
        1
    }
}

/// A turn of speech.
#[derive(Debug, Clone)]
pub struct Segment {
    pub t0_ms: u64,
    pub dur_ms: u64,
    /// Without what came before and the silence that ends it.
    pub speech_ms: u64,
    pub peak: i16,
    pub samples: Vec<i16>,
}

/// Cuts sound into turns, frame by frame.
#[derive(Debug, Clone)]
pub struct Vad {
    pub cfg: VadConfig,
    pub sample_rate: u32,
    pub channels: u16,
    pub frame_samples: usize,
    /// Samples that came in.
    pub consumed: usize,
    pub open: bool,
    pub pending: Vec<i16>,
    /// Where in the stream the open turn begins.
    pub pending_t0: usize,
    pub speech_samples: usize,
    pub silence_samples: usize,
    pub preroll: Vec<i16>,
    pub dropped_short: u64,
}

/// What a cutter has in hand.
#[verifier::ext_equal]
pub struct VadView {
    pub consumed: int,
    pub open: bool,
    pub pending: Seq<i16>,
    pub pending_t0: int,
    pub speech: int,
    pub silence: int,
    pub preroll: Seq<i16>,
}

/// A turn of speech.
#[verifier::ext_equal]
pub struct SegmentView {
    /// Where in the stream it begins.
    pub t0: int,
    pub speech: int,
    pub samples: Seq<i16>,
}

impl View for Vad {
    type V = VadView;

    open spec fn view(&self) -> VadView {
        VadView {
            consumed: self.consumed as int,
            open: self.open,
            pending: self.pending@,
            pending_t0: self.pending_t0 as int,
            speech: self.speech_samples as int,
            silence: self.silence_samples as int,
            preroll: self.preroll@,
        }
    }
}

/// The time that samples take, in whole milliseconds.
pub open spec fn ms_of(rate: int, samples: int) -> int {
    samples * 1000 / rate
}

/// The samples of a time.
pub open spec fn samples_of(rate: int, ms: int) -> int {
    ms * rate / 1000
}

/// The end of a sequence.
pub open spec fn tail(s: Seq<i16>, n: int) -> Seq<i16> {
    if n >= s.len() {
        s
    } else {
        s.skip(s.len() - n)
    }
}

/// A cutter once a turn was closed.
pub open spec fn closed(v: VadView) -> VadView {
    VadView { open: false, pending: Seq::empty(), speech: 0, silence: 0, preroll: Seq::empty(), ..v }
}

/// The turn that a cutter has in hand.
pub open spec fn turn(v: VadView) -> SegmentView {
    SegmentView { t0: v.pending_t0, speech: v.speech, samples: v.pending }
}

/// What a frame that is not empty makes of a cutter, and the turn that it closes, if it does.
/// `loud` says whether it is loud enough to open a turn, `silent` whether it is silent.
pub open spec fn fed(v: VadView, c: VadConfig, rate: int, frame: Seq<i16>, loud: bool, silent: bool) -> (
    VadView,
    Option<SegmentView>,
) {
    let consumed = v.consumed + frame.len();
    if v.open {
        let next = VadView {
            consumed,
            pending: v.pending + frame,
            speech: if silent {
                v.speech
            } else {
                v.speech + frame.len()
            },
            silence: if silent {
                v.silence + frame.len()
            } else {
                0
            },
            ..v
        };
        if next.silence >= samples_of(rate, c.hangover_ms as int) || ms_of(rate, next.pending.len() as int)
            >= c.max_segment_ms {
            (closed(next), Some(turn(next)))
        } else {
            (next, None)
        }
    } else if loud {
        (
            VadView {
                consumed,
                open: true,
                pending: v.preroll + frame,
                pending_t0: most(v.consumed - v.preroll.len(), 0),
                speech: frame.len() as int,
                silence: 0,
                preroll: Seq::empty(),
            },
            None,
        )
    } else {
        (
            VadView {
                consumed,
                preroll: tail(v.preroll + frame, samples_of(rate, c.preroll_ms as int)),
                ..v
            },
            None,
        )
    }
}

/// Whether a segment is a turn, in milliseconds.
pub open spec fn is_segment(s: Segment, v: SegmentView, rate: int) -> bool {
    &&& s.samples@ == v.samples
    &&& s.t0_ms == ms_of(rate, v.t0)
    &&& s.dur_ms == ms_of(rate, v.samples.len() as int)
    &&& s.speech_ms == ms_of(rate, v.speech)
    &&& s.peak == peak(v.samples, v.samples.len() as int)
}

/// Whether times of a configuration stay within the range of machine words.
pub open spec fn times_fit(c: VadConfig, sample_rate: u32, channels: u16) -> bool {
    &&& c.frame_ms * sample_rate * most(channels as int, 1) <= u64::MAX
    &&& c.hangover_ms * per_second(sample_rate, channels) <= u64::MAX
    &&& c.preroll_ms * per_second(sample_rate, channels) <= u64::MAX
    &&& samples_of(per_second(sample_rate, channels), c.hangover_ms as int) <= usize::MAX
    &&& samples_of(per_second(sample_rate, channels), c.preroll_ms as int) <= usize::MAX
}

impl Vad {
    /// Samples in a second, of all channels.
    pub open spec fn rate(self) -> int {
        per_second(self.sample_rate, self.channels)
    }

    /// What is kept of a cutter at all times.
    pub open spec fn wf(self) -> bool {
        &&& times_fit(self.cfg, self.sample_rate, self.channels)
        &&& self.consumed * 1000 <= u64::MAX
        &&& self.pending@.len() <= self.consumed
        &&& self.preroll@.len() <= self.consumed
        &&& self.pending_t0 <= self.consumed
        &&& self.speech_samples <= self.consumed
        &&& self.silence_samples <= self.consumed
    }

    /// A cutter for a stream of a format.
    pub fn new(cfg: VadConfig, sample_rate: u32, channels: u16) -> (r: Vad)
        requires
            times_fit(cfg, sample_rate, channels),
        ensures
            r.wf(),
            r.cfg == cfg,
            r.sample_rate == sample_rate,
            r.channels == most(channels as int, 1),
            r.frame_samples == frame_len(cfg.frame_ms, sample_rate, channels) as u64 as usize,
            r.dropped_short == 0,
            r@ == fresh(),
    {
        let frame_samples: usize = frame_samples_for(&cfg, sample_rate, channels);
        let ch: u16 = if channels > 1 {
            channels
        } else {
            1
        };
        Vad {
            cfg,
            sample_rate,
            channels: ch,
            frame_samples,
            consumed: 0,
            open: false,
            pending: Vec::new(),
            pending_t0: 0,
            speech_samples: 0,
            silence_samples: 0,
            preroll: Vec::new(),
            dropped_short: 0,
        }
    }

    /// How many turns were too short.
    pub fn dropped_short(&self) -> (r: u64)
        ensures
            r == self.dropped_short,
    {
        self.dropped_short
    }

    /// How much sound came in, on the clock of the stream.
    pub fn consumed_ms(&self) -> (r: u64)
        requires
            self.wf(),
        ensures
            r == ms_of(self.rate(), self.consumed as int),
    {
        self.ms(self.consumed)
    }

    fn rate_of(&self) -> (r: u64)
        ensures
            r == self.rate(),
            r >= 1,
    {
        let a: u64 = if self.sample_rate > 1 {
            self.sample_rate as u64
        } else {
            1
        };
        let b: u64 = if self.channels > 1 {
            self.channels as u64
        } else {
            1
        };
        proof {
            assert(1 <= a * b <= 0xffff_ffff * 0xffff) by (nonlinear_arith)
                requires
                    1 <= a <= 0xffff_ffff,
                    1 <= b <= 0xffff,
            ;
        }
        a * b
    }

    /// The time that samples take: multiplied first, then divided, so that nothing drifts.
    pub fn ms(&self, samples: usize) -> (r: u64)
        requires
            samples * 1000 <= u64::MAX,
        ensures
            r == ms_of(self.rate(), samples as int),
    {
        samples as u64 * 1_000 / self.rate_of()
    }

    /// The samples of a time.
    pub fn samples_for(&self, ms: u64) -> (r: usize)
        requires
            ms * self.rate() <= u64::MAX,
            samples_of(self.rate(), ms as int) <= usize::MAX,
        ensures
            r == samples_of(self.rate(), ms as int),
    {
        let rate: u64 = self.rate_of();
        proof {
            assert(ms * rate >= 0) by (nonlinear_arith);
        }
        (ms * rate / 1_000) as usize
    }

    /// The turn that a frame would close.
    pub open spec fn closing(self, frame: Seq<i16>, rms: Real) -> Option<SegmentView> {
        if frame.len() == 0 {
            None
        } else {
            fed(
                self@,
                self.cfg,
                self.rate(),
                frame,
                order_key(rms.bits) >= order_key(self.cfg.rms_open.bits),
                order_key(rms.bits) < order_key(self.cfg.rms_close.bits),
            ).1
        }
    }

    /// Whether a frame would close the turn in hand.
    pub fn closes(&self, frame: &[i16], rms: Real) -> (r: bool)
        requires
            self.wf(),
            (self.consumed + frame@.len()) * 1000 <= u64::MAX,
            self.consumed + frame@.len() <= usize::MAX,
        ensures
            r == (self.closing(frame@, rms) is Some),
    {
        if frame.len() == 0 || !self.open {
            return false;
        }
        let silence: usize = if double::less(rms.bits, self.cfg.rms_close.bits) {
            self.silence_samples + frame.len()
        } else {
            0
        };
        silence >= self.samples_for(self.cfg.hangover_ms) || self.ms(self.pending.len() + frame.len())
            >= self.cfg.max_segment_ms
    }

    /// Takes a frame of any length with its level, and gives the turn that it closes.
    pub fn push(&mut self, frame: &[i16], rms: Real) -> (r: Option<Segment>)
        requires
            old(self).wf(),
            old(self).closing(frame@, rms) matches Some(s) ==> even_range(s.samples),
            (old(self).consumed + frame@.len()) * 1000 <= u64::MAX,
            old(self).consumed + frame@.len() <= usize::MAX,
        ensures
            final(self).wf(),
            final(self).cfg == old(self).cfg,
            final(self).sample_rate == old(self).sample_rate,
            final(self).channels == old(self).channels,
            final(self).frame_samples == old(self).frame_samples,
            final(self).dropped_short == old(self).dropped_short,
            frame@.len() == 0 ==> r is None && *final(self) == *old(self),
            frame@.len() > 0 ==> ({
                let (next, out) = fed(
                    old(self)@,
                    old(self).cfg,
                    old(self).rate(),
                    frame@,
                    order_key(rms.bits) >= order_key(old(self).cfg.rms_open.bits),
                    order_key(rms.bits) < order_key(old(self).cfg.rms_close.bits),
                );
                &&& final(self)@ == next
                &&& match out {
                    Some(s) => r matches Some(g) && is_segment(g, s, old(self).rate()),
                    None => r is None,
                }
            }),
    {
        if frame.len() == 0 {
            return None;
        }
        let start: usize = self.consumed;
        self.consumed = self.consumed + frame.len();
        if self.open {
            append(&mut self.pending, frame);
            if double::less(rms.bits, self.cfg.rms_close.bits) {
                self.silence_samples = self.silence_samples + frame.len();
            } else {
                self.silence_samples = 0;
                self.speech_samples = self.speech_samples + frame.len();
            }
            let hung = self.silence_samples >= self.samples_for(self.cfg.hangover_ms);
            let too_long = self.ms(self.pending.len()) >= self.cfg.max_segment_ms;
            if hung || too_long {
                return Some(self.finish());
            }
            return None;
        }
        if !double::less(rms.bits, self.cfg.rms_open.bits) {
            self.open = true;
            self.pending_t0 = if start > self.preroll.len() {
                start - self.preroll.len()
            } else {
                0
            };
            let mut pending: Vec<i16> = Vec::new();
            append(&mut pending, self.preroll.as_slice());
            assert(pending@ =~= self.preroll@);
            append(&mut pending, frame);
            self.pending = pending;
            self.preroll = Vec::new();
            self.speech_samples = frame.len();
            self.silence_samples = 0;
            return None;
        }
        let keep: usize = self.samples_for(self.cfg.preroll_ms);
        let mut all: Vec<i16> = Vec::new();
        append(&mut all, self.preroll.as_slice());
        assert(all@ =~= self.preroll@);
        append(&mut all, frame);
        self.preroll = last_of(&all, keep);
        None
    }

    /// Gives the turn that is still open, so that the last sentence is not lost.
    pub fn flush(&mut self) -> (r: Option<Segment>)
        requires
            old(self).wf(),
            old(self).open ==> even_range(old(self).pending@),
        ensures
            final(self).wf(),
            final(self).cfg == old(self).cfg,
            final(self).sample_rate == old(self).sample_rate,
            final(self).channels == old(self).channels,
            final(self).frame_samples == old(self).frame_samples,
            final(self).dropped_short == old(self).dropped_short,
            if old(self).open {
                &&& final(self)@ == closed(old(self)@)
                &&& r matches Some(g) && is_segment(g, turn(old(self)@), old(self).rate())
            } else {
                *final(self) == *old(self) && r is None
            },
    {
        if self.open {
            Some(self.finish())
        } else {
            None
        }
    }

    fn finish(&mut self) -> (r: Segment)
        requires
            old(self).wf(),
            even_range(old(self).pending@),
        ensures
            final(self).wf(),
            final(self).cfg == old(self).cfg,
            final(self).sample_rate == old(self).sample_rate,
            final(self).channels == old(self).channels,
            final(self).frame_samples == old(self).frame_samples,
            final(self).dropped_short == old(self).dropped_short,
            final(self)@ == closed(old(self)@),
            is_segment(r, turn(old(self)@), old(self).rate()),
    {
        let mut samples: Vec<i16> = Vec::new();
        append(&mut samples, self.pending.as_slice());
        assert(samples@ =~= self.pending@);
        let t0_ms: u64 = self.ms(self.pending_t0);
        let speech_ms: u64 = self.ms(self.speech_samples);
        let dur_ms: u64 = self.ms(samples.len());
        let peak: i16 = frame_peak(samples.as_slice());
        self.open = false;
        self.pending = Vec::new();
        self.speech_samples = 0;
        self.silence_samples = 0;
        self.preroll = Vec::new();
        Segment { t0_ms, dur_ms, speech_ms, peak, samples }
    }

    /// Whether a turn has enough speech to be kept; one that has not is counted.
    pub fn accept(&mut self, seg: &Segment) -> (r: bool)
        requires
            seg.speech_ms < old(self).cfg.min_speech_ms ==> old(self).dropped_short < u64::MAX,
        ensures
            r == (seg.speech_ms >= old(self).cfg.min_speech_ms),
            *final(self) == (Vad {
                dropped_short: if r {
                    old(self).dropped_short
                } else {
                    (old(self).dropped_short + 1) as u64
                },
                ..*old(self)
            }),
    {
        if seg.speech_ms >= self.cfg.min_speech_ms {
            return true;
        }
        self.dropped_short = self.dropped_short + 1;
        false
    }
}

/// Appends samples.
pub fn append(v: &mut Vec<i16>, s: &[i16])
    ensures
        final(v)@ == old(v)@ + s@,
{
    let ghost start = v@;
    let mut i: usize = 0;
    assert(v@ =~= start + s@.take(0));
    while i < s.len()
        invariant
            i <= s@.len(),
            v@ == start + s@.take(i as int),
        decreases s@.len() - i,
    {
        v.push(s[i]);
        i += 1;
        assert(v@ =~= start + s@.take(i as int));
    }
    assert(s@.take(s@.len() as int) =~= s@);
}

/// The last samples.
fn last_of(v: &Vec<i16>, n: usize) -> (r: Vec<i16>)
    ensures
        r@ == tail(v@, n as int),
{
    let from: usize = if n >= v.len() {
        0
    } else {
        v.len() - n
    };
    let mut out: Vec<i16> = Vec::new();
    let mut i: usize = from;
    while i < v.len()
        invariant
            from <= i <= v@.len(),
            out@ == v@.subrange(from as int, i as int),
        decreases v@.len() - i,
    {
        out.push(v[i]);
        i += 1;
        assert(out@ =~= v@.subrange(from as int, i as int));
    }
    assert(out@ =~= tail(v@, n as int));
    out
}

// ---------------------------------------------------------------------------------------------
// Frames
// ---------------------------------------------------------------------------------------------

/// Puts samples that come in any number into frames of one length.
#[derive(Debug, Clone)]
pub struct FrameStream {
    pub buf: Vec<i16>,
    pub frame_ms: u64,
}

impl View for FrameStream {
    type V = Seq<i16>;

    open spec fn view(&self) -> Seq<i16> {
        self.buf@
    }
}

impl FrameStream {
    /// A stream without samples.
    pub fn new(frame_ms: u64) -> (r: FrameStream)
        ensures
            r@ == Seq::<i16>::empty(),
            r.frame_ms == most(frame_ms as int, 1),
    {
        FrameStream {
            buf: Vec::new(),
            frame_ms: if frame_ms > 1 {
                frame_ms
            } else {
                1
            },
        }
    }

    /// The length of a frame in samples; never 0.
    pub fn frame_samples(&self, sample_rate: u32, channels: u16) -> (r: usize)
        requires
            self.frame_ms * most(sample_rate as int, 1) * most(channels as int, 1) <= u64::MAX,
        ensures
            r == most(self.frame_ms * most(sample_rate as int, 1) * most(channels as int, 1) / 1000, 1) as u64 as usize,
    {
        let sr: u64 = if sample_rate > 1 {
            sample_rate as u64
        } else {
            1
        };
        let ch: u64 = if channels > 1 {
            channels as u64
        } else {
            1
        };
        proof {
            let a = self.frame_ms * sr;
            assert(a >= 0) by (nonlinear_arith)
                requires
                    a == self.frame_ms * sr,
            ;
            assert(a <= a * ch) by (nonlinear_arith)
                requires
                    a >= 0,
                    ch >= 1,
            ;
        }
        let n: u64 = self.frame_ms * sr * ch / 1_000;
        if n > 1 {
            n as usize
        } else {
            1
        }
    }

    /// Takes samples in.
    pub fn feed(&mut self, samples: &[i16])
        ensures
            final(self)@ == old(self)@ + samples@,
            final(self).frame_ms == old(self).frame_ms,
    {
        append(&mut self.buf, samples);
    }

    /// How many samples are waiting.
    pub fn buffered(&self) -> (r: usize)
        ensures
            r == self@.len(),
    {
        self.buf.len()
    }

    /// The next frame, as soon as there are samples enough for it.
    pub fn take(&mut self, n: usize) -> (r: Option<Vec<i16>>)
        ensures
            final(self).frame_ms == old(self).frame_ms,
            match r {
                Some(f) => n <= old(self)@.len() && f@ == old(self)@.take(n as int) && final(self)@ == old(self)@.skip(
                    n as int,
                ),
                None => old(self)@.len() < n && final(self)@ == old(self)@,
            },
    {
        if self.buf.len() < n {
            return None;
        }
        let rest = self.buf.split_off(n);
        let mut head: Vec<i16> = Vec::new();
        append(&mut head, self.buf.as_slice());
        assert(head@ =~= self.buf@);
        self.buf = rest;
        assert(head@ =~= old(self)@.take(n as int));
        assert(self@ =~= old(self)@.skip(n as int));
        Some(head)
    }
}

/// Frames hold what came in, in its order, and nothing is lost between them: what was taken out
/// and what is waiting are together what was fed.
pub proof fn frames_keep_all_samples(fed: Seq<i16>, taken: Seq<i16>, waiting: Seq<i16>, more: Seq<i16>, n: int)
    requires
        fed == taken + waiting,
        0 <= n <= waiting.len(),
    ensures
        fed + more == taken + (waiting + more),
        fed == (taken + waiting.take(n)) + waiting.skip(n),
{
    assert(fed + more =~= taken + (waiting + more));
    assert(fed =~= (taken + waiting.take(n)) + waiting.skip(n));
}

// ---------------------------------------------------------------------------------------------
// Channels
// ---------------------------------------------------------------------------------------------

/// The sum of `n` samples from `at`.
pub open spec fn sum(s: Seq<i16>, at: int, n: int) -> int
    decreases n,
{
    if n <= 0 {
        0
    } else {
        sum(s, at, n - 1) + s[at + n - 1]
    }
}

/// A quotient rounded towards zero.
pub open spec fn toward_zero(a: int, b: int) -> int {
    if a < 0 {
        -((-a) / b)
    } else {
        a / b
    }
}

/// One sample for each group of `ch` channels: their mean.
pub open spec fn mixed(s: Seq<i16>, ch: int) -> Seq<i16> {
    if ch <= 1 {
        s
    } else {
        Seq::new((s.len() as int / ch) as nat, |i: int| toward_zero(sum(s, i * ch, ch), ch) as i16)
    }
}

proof fn lemma_mean(a: int, b: int)
    requires
        b >= 1,
        -32768 * b <= a <= 32767 * b,
    ensures
        -32768 <= toward_zero(a, b) <= 32767,
{
    if a < 0 {
        let p = -a;
        assert(0 <= p / b <= 32768) by (nonlinear_arith)
            requires
                0 <= p <= 32768 * b,
                b >= 1,
        ;
    } else {
        assert(0 <= a / b <= 32767) by (nonlinear_arith)
            requires
                0 <= a <= 32767 * b,
                b >= 1,
        ;
    }
}

/// Interleaved channels as one: the mean of each group. No channel counts as one, and samples at
/// the end that make no group are left out.
pub fn downmix(data: &[i16], channels: u16) -> (r: Vec<i16>)
    ensures
        r@ == mixed(data@, channels as int),
{
    if channels <= 1 {
        let mut v: Vec<i16> = Vec::new();
        append(&mut v, data);
        assert(v@ =~= data@);
        return v;
    }
    let ch: usize = channels as usize;
    let len: usize = data.len();
    let n: usize = len / ch;
    let mut out: Vec<i16> = Vec::new();
    let mut i: usize = 0;
    while i < n
        invariant
            i <= n,
            n == len / ch,
            len == data@.len(),
            2 <= ch <= 0xffff,
            out@.len() == i,
            forall|j: int| 0 <= j < i ==> #[trigger] out@[j] == toward_zero(sum(data@, j * ch, ch as int), ch as int) as i16,
        decreases n - i,
    {
        proof {
            assert(i * ch + ch <= len) by (nonlinear_arith)
                requires
                    i + 1 <= n,
                    n == len / ch,
                    ch >= 1,
            ;
            assert(i * ch >= 0) by (nonlinear_arith);
        }
        let at: usize = i * ch;
        let mut acc: i64 = 0;
        let mut k: usize = 0;
        while k < ch
            invariant
                k <= ch,
                2 <= ch <= 0xffff,
                at + ch <= len == data@.len(),
                acc == sum(data@, at as int, k as int),
                -32768 * k <= acc <= 32767 * k,
            decreases ch - k,
        {
            acc = acc + data[at + k] as i64;
            k += 1;
        }
        proof {
            lemma_mean(acc as int, ch as int);
            if acc < 0 {
                let p = -acc;
                assert(0 <= p / (ch as int) <= p) by (nonlinear_arith)
                    requires
                        p >= 0,
                        ch >= 1,
                ;
            }
        }
        let m: i64 = if acc < 0 {
            -((-acc) / ch as i64)
        } else {
            acc / ch as i64
        };
        out.push(m as i16);
        i += 1;
    }
    assert(out@ =~= mixed(data@, channels as int));
    out
}

/// Mixing never makes sound louder: no sample is higher than the highest of its group.
pub proof fn mixing_is_a_mean(s: Seq<i16>, ch: int, i: int, hi: int)
    requires
        ch >= 2,
        0 <= i < s.len() as int / ch,
        0 <= hi <= 32767,
        forall|k: int| 0 <= k < s.len() ==> -hi <= #[trigger] s[k] <= hi,
    ensures
        -hi <= mixed(s, ch)[i] <= hi,
{
    assert(0 <= i * ch && i * ch + ch <= s.len()) by (nonlinear_arith)
        requires
            0 <= i < s.len() as int / ch,
            ch >= 2,
    ;
    lemma_sum_within(s, i * ch, ch, hi);
    let a = sum(s, i * ch, ch);
    assert(-hi * ch == -(hi * ch)) by (nonlinear_arith);
    if a < 0 {
        let p = -a;
        assert(0 <= p / ch <= hi) by (nonlinear_arith)
            requires
                0 <= p <= hi * ch,
                ch >= 1,
        ;
    } else {
        assert(0 <= a / ch <= hi) by (nonlinear_arith)
            requires
                0 <= a <= hi * ch,
                ch >= 1,
        ;
    }
}

proof fn lemma_sum_within(s: Seq<i16>, at: int, n: int, hi: int)
    requires
        0 <= at,
        0 <= n,
        at + n <= s.len(),
        forall|k: int| 0 <= k < s.len() ==> -hi <= #[trigger] s[k] <= hi,
    ensures
        -hi * n <= sum(s, at, n) <= hi * n,
    decreases n,
{
    if n > 0 {
        lemma_sum_within(s, at, n - 1, hi);
        assert(-hi <= s[at + n - 1] <= hi);
        assert(hi * n == hi * (n - 1) + hi) by (nonlinear_arith);
        assert(-hi * n == -hi * (n - 1) - hi) by (nonlinear_arith);
    } else {
        assert(hi * n == 0 && -hi * n == 0) by (nonlinear_arith)
            requires
                n == 0,
        ;
    }
}

// ---------------------------------------------------------------------------------------------
// What holds of every stream
// ---------------------------------------------------------------------------------------------

/// Whether what a cutter has in hand is a piece of the stream that came in, no part of it before
/// `from`.
pub open spec fn follows(v: VadView, stream: Seq<i16>, from: int) -> bool {
    &&& v.consumed == stream.len()
    &&& 0 <= from <= v.consumed
    &&& if v.open {
        from <= v.pending_t0 <= v.consumed && v.pending == stream.subrange(v.pending_t0, v.consumed)
    } else {
        v.preroll.len() <= v.consumed - from && v.preroll == stream.skip(v.consumed - v.preroll.len())
    }
}

/// Turns are pieces of the stream, sample for sample, where they say they are; they come in order
/// and none reaches into the one before it. So no sample is told twice.
pub proof fn turns_are_pieces_of_the_stream(
    v: VadView,
    c: VadConfig,
    rate: int,
    frame: Seq<i16>,
    loud: bool,
    silent: bool,
    stream: Seq<i16>,
    from: int,
)
    requires
        follows(v, stream, from),
        rate >= 1,
        frame.len() > 0,
    ensures
        ({
            let (next, out) = fed(v, c, rate, frame, loud, silent);
            let all = stream + frame;
            match out {
                Some(s) => {
                    &&& from <= s.t0
                    &&& s.t0 + s.samples.len() == all.len()
                    &&& s.samples == all.subrange(s.t0, s.t0 + s.samples.len())
                    &&& follows(next, all, all.len() as int)
                },
                None => follows(next, all, from),
            }
        }),
{
    let (next, out) = fed(v, c, rate, frame, loud, silent);
    let all = stream + frame;
    if v.open {
        assert(v.pending + frame =~= all.subrange(v.pending_t0, all.len() as int));
        assert(Seq::<i16>::empty() =~= all.skip(all.len() as int));
    } else if loud {
        assert(v.preroll + frame =~= all.subrange(v.consumed - v.preroll.len(), all.len() as int));
    } else {
        let keep = samples_of(rate, c.preroll_ms as int);
        assert(keep >= 0) by {
            assert(c.preroll_ms * rate >= 0) by (nonlinear_arith)
                requires
                    rate >= 1,
            ;
        }
        assert(next.preroll =~= all.skip(all.len() - next.preroll.len()));
    }
}

/// The turn that is left at the end is a piece of the stream too, and asking again gives nothing.
pub proof fn last_turns_are_pieces_of_the_stream(v: VadView, stream: Seq<i16>, from: int)
    requires
        follows(v, stream, from),
        v.open,
    ensures
        from <= turn(v).t0,
        turn(v).samples == stream.subrange(turn(v).t0, stream.len() as int),
        !closed(v).open,
        follows(closed(v), stream, stream.len() as int),
{
    assert(Seq::<i16>::empty() =~= stream.skip(stream.len() as int));
}

/// What a cutter is given: a frame, with how loud it is, or the word that no more is to come.
pub enum Given {
    Frame { samples: Seq<i16>, loud: bool, silent: bool },
    Flush,
}

/// A cutter in the course of a stream: what it has in hand, all that came in, and the turns it gave.
pub struct Course {
    pub at: VadView,
    pub stream: Seq<i16>,
    pub turns: Seq<SegmentView>,
}

/// A cutter that nothing was given yet.
pub open spec fn fresh() -> VadView {
    VadView {
        consumed: 0,
        open: false,
        pending: Seq::empty(),
        pending_t0: 0,
        speech: 0,
        silence: 0,
        preroll: Seq::empty(),
    }
}

/// The course of a stream, from the first thing that was given to the last.
pub open spec fn course(c: VadConfig, rate: int, given: Seq<Given>) -> Course
    decreases given.len(),
{
    if given.len() == 0 {
        Course { at: fresh(), stream: Seq::empty(), turns: Seq::empty() }
    } else {
        let p = course(c, rate, given.drop_last());
        match given.last() {
            Given::Frame { samples, loud, silent } => if samples.len() == 0 {
                p
            } else {
                let (next, out) = fed(p.at, c, rate, samples, loud, silent);
                Course {
                    at: next,
                    stream: p.stream + samples,
                    turns: match out {
                        Some(s) => p.turns.push(s),
                        None => p.turns,
                    },
                }
            },
            Given::Flush => if p.at.open {
                Course { at: closed(p.at), stream: p.stream, turns: p.turns.push(turn(p.at)) }
            } else {
                p
            },
        }
    }
}

/// Where a turn ends in its stream.
pub open spec fn ends_at(s: SegmentView) -> int {
    s.t0 + s.samples.len()
}

/// Where the last turn ends; 0 before the first.
pub open spec fn last_end(turns: Seq<SegmentView>) -> int {
    if turns.len() == 0 {
        0
    } else {
        ends_at(turns.last())
    }
}

/// Whether a turn is a piece of a stream, sample for sample.
pub open spec fn is_piece(s: SegmentView, stream: Seq<i16>) -> bool {
    0 <= s.t0 && ends_at(s) <= stream.len() && s.samples == stream.subrange(s.t0, ends_at(s))
}

proof fn lemma_course(c: VadConfig, rate: int, given: Seq<Given>)
    requires
        rate >= 1,
    ensures
        ({
            let k = course(c, rate, given);
            &&& follows(k.at, k.stream, last_end(k.turns))
            &&& forall|i: int| 0 <= i < k.turns.len() ==> is_piece(#[trigger] k.turns[i], k.stream)
            &&& forall|i: int, j: int|
                0 <= i < j < k.turns.len() ==> ends_at(#[trigger] k.turns[i]) <= (#[trigger] k.turns[j]).t0
        }),
    decreases given.len(),
{
    if given.len() == 0 {
        assert(Seq::<i16>::empty() =~= Seq::<i16>::empty().skip(0));
    } else {
        lemma_course(c, rate, given.drop_last());
        let p = course(c, rate, given.drop_last());
        let k = course(c, rate, given);
        let from = last_end(p.turns);
        match given.last() {
            Given::Frame { samples, loud, silent } => {
                if samples.len() > 0 {
                    turns_are_pieces_of_the_stream(p.at, c, rate, samples, loud, silent, p.stream, from);
                }
            },
            Given::Flush => {
                if p.at.open {
                    last_turns_are_pieces_of_the_stream(p.at, p.stream, from);
                }
            },
        }
        assert forall|i: int| 0 <= i < k.turns.len() implies is_piece(#[trigger] k.turns[i], k.stream) by {
            if i < p.turns.len() {
                let s = p.turns[i];
                assert(k.turns[i] == s);
                assert(is_piece(s, p.stream));
                assert(k.stream.subrange(s.t0, ends_at(s)) =~= p.stream.subrange(s.t0, ends_at(s)));
            }
        }
        assert forall|i: int, j: int| 0 <= i < j < k.turns.len() implies ends_at(#[trigger] k.turns[i]) <= (
        #[trigger] k.turns[j]).t0 by {
            assert(k.turns[i] == p.turns[i]);
            if j < p.turns.len() {
                assert(k.turns[j] == p.turns[j]);
            } else if i < p.turns.len() - 1 {
                assert(ends_at(p.turns[i]) <= p.turns[p.turns.len() - 1].t0);
            }
        }
    }
}

/// Of any stream, in whatever frames it comes and however often it is flushed, every turn is a piece
/// of it, sample for sample, and no turn reaches into a later one.
pub proof fn turns_never_overlap(c: VadConfig, rate: int, given: Seq<Given>, i: int, j: int)
    requires
        rate >= 1,
        0 <= i < j < course(c, rate, given).turns.len(),
    ensures
        ({
            let k = course(c, rate, given);
            &&& is_piece(k.turns[i], k.stream)
            &&& is_piece(k.turns[j], k.stream)
            &&& ends_at(k.turns[i]) <= k.turns[j].t0
        }),
{
    lemma_course(c, rate, given);
}

/// Of any stream, every segment that was given for a turn holds a piece of it, sample for sample, and
/// tells where that piece begins and how long it is.
pub proof fn every_turn_is_a_piece(c: VadConfig, rate: int, given: Seq<Given>, i: int, g: Segment)
    requires
        rate >= 1,
        0 <= i < course(c, rate, given).turns.len(),
        is_segment(g, course(c, rate, given).turns[i], rate),
    ensures
        ({
            let k = course(c, rate, given);
            let a = k.turns[i].t0;
            &&& is_piece(k.turns[i], k.stream)
            &&& 0 <= a && a + g.samples@.len() <= k.stream.len()
            &&& g.samples@ == k.stream.subrange(a, a + g.samples@.len())
            &&& g.t0_ms == a * 1000 / rate
            &&& g.dur_ms == (g.samples@.len() as int) * 1000 / rate
        }),
{
    lemma_course(c, rate, given);
}

/// What is given to a cutter by a frame and its level.
pub open spec fn frame_given(c: VadConfig, frame: Seq<i16>, rms: Real) -> Given {
    Given::Frame {
        samples: frame,
        loud: order_key(rms.bits) >= order_key(c.rms_open.bits),
        silent: order_key(rms.bits) < order_key(c.rms_close.bits),
    }
}

/// A cutter keeps to the course of its stream: where it stood at one point of it, one more frame, of
/// any length, or the word that no more is to come brings it to the next point, and the turn that
/// closes is the next of the course.
pub proof fn cutters_keep_their_course(v: Vad, given: Seq<Given>, frame: Seq<i16>, rms: Real)
    requires
        v@ == course(v.cfg, v.rate(), given).at,
    ensures
        ({
            let k = course(v.cfg, v.rate(), given);
            let next = course(v.cfg, v.rate(), given.push(frame_given(v.cfg, frame, rms)));
            let last = course(v.cfg, v.rate(), given.push(Given::Flush));
            &&& next.stream == k.stream + frame
            &&& next.turns == (match v.closing(frame, rms) {
                Some(s) => k.turns.push(s),
                None => k.turns,
            })
            &&& next.at == (if frame.len() == 0 {
                v@
            } else {
                fed(
                    v@,
                    v.cfg,
                    v.rate(),
                    frame,
                    order_key(rms.bits) >= order_key(v.cfg.rms_open.bits),
                    order_key(rms.bits) < order_key(v.cfg.rms_close.bits),
                ).0
            })
            &&& last.stream == k.stream
            &&& last.at == (if v.open {
                closed(v@)
            } else {
                v@
            })
            &&& last.turns == (if v.open {
                k.turns.push(turn(v@))
            } else {
                k.turns
            })
        }),
{
    let f = frame_given(v.cfg, frame, rms);
    assert(given.push(f).drop_last() =~= given);
    assert(given.push(Given::Flush).drop_last() =~= given);
    assert(course(v.cfg, v.rate(), given).stream + Seq::<i16>::empty() =~= course(v.cfg, v.rate(), given).stream);
    if frame.len() == 0 {
        assert(frame =~= Seq::<i16>::empty());
    }
}

/// Turns do not grow without limit: a turn within the limit either stays within it or closes with
/// this frame.
pub proof fn turns_are_bounded(v: VadView, c: VadConfig, rate: int, frame: Seq<i16>, loud: bool, silent: bool)
    requires
        v.open,
        rate >= 1,
        frame.len() > 0,
    ensures
        ({
            let (next, out) = fed(v, c, rate, frame, loud, silent);
            match out {
                Some(s) => s.samples.len() == v.pending.len() + frame.len(),
                None => ms_of(rate, next.pending.len() as int) < c.max_segment_ms,
            }
        }),
{
}

/// A breath shorter than the hangover does not break a turn that is within its limit.
pub proof fn short_breaths_do_not_break_turns(v: VadView, c: VadConfig, rate: int, frame: Seq<i16>, loud: bool)
    requires
        v.open,
        v.silence + frame.len() < samples_of(rate, c.hangover_ms as int),
        ms_of(rate, (v.pending.len() + frame.len()) as int) < c.max_segment_ms,
        frame.len() > 0,
    ensures
        fed(v, c, rate, frame, loud, true).1 is None,
        fed(v, c, rate, frame, loud, true).0.open,
{
}

/// Below the level to open, a stream gives nothing.
pub proof fn silence_gives_nothing(v: VadView, c: VadConfig, rate: int, frame: Seq<i16>, silent: bool)
    requires
        !v.open,
        frame.len() > 0,
    ensures
        fed(v, c, rate, frame, false, silent).1 is None,
        !fed(v, c, rate, frame, false, silent).0.open,
{
}

/// How many samples came in.
pub open spec fn sound(given: Seq<Given>) -> int
    decreases given.len(),
{
    if given.len() == 0 {
        0
    } else {
        sound(given.drop_last()) + (match given.last() {
            Given::Frame { samples, .. } => samples.len() as int,
            Given::Flush => 0,
        })
    }
}

/// Whether nothing but silence was given.
pub open spec fn all_silent(given: Seq<Given>) -> bool {
    forall|i: int|
        0 <= i < given.len() ==> (#[trigger] given[i] matches Given::Frame { samples, silent, .. } && (silent || samples.len()
            == 0))
}

proof fn lemma_sound(a: Seq<Given>, g: Given)
    ensures
        sound(a.push(g)) == sound(a) + (match g {
            Given::Frame { samples, .. } => samples.len() as int,
            Given::Flush => 0,
        }),
        sound(a) >= 0,
    decreases a.len(),
{
    assert(a.push(g).drop_last() =~= a);
    if a.len() > 0 {
        lemma_sound(a.drop_last(), a.last());
        assert(a.drop_last().push(a.last()) =~= a);
    }
}

/// The silence that an open turn ends with so far is one unbroken run of silent frames at the end of
/// what was given.
proof fn lemma_silence(c: VadConfig, rate: int, given: Seq<Given>) -> (k: int)
    ensures
        course(c, rate, given).at.open ==> {
            &&& 0 <= k <= given.len()
            &&& all_silent(given.skip(k))
            &&& sound(given.skip(k)) == course(c, rate, given).at.silence
        },
    decreases given.len(),
{
    if given.len() == 0 {
        0
    } else {
        let p = given.drop_last();
        let n = given.len() as int;
        let j = lemma_silence(c, rate, p);
        let before = course(c, rate, p).at;
        assert(given.skip(n) =~= Seq::empty());
        match given.last() {
            Given::Frame { samples, loud, silent } => {
                if before.open && (samples.len() == 0 || silent) {
                    assert(given.skip(j) =~= p.skip(j).push(given.last()));
                    lemma_sound(p.skip(j), given.last());
                    j
                } else if !before.open && samples.len() == 0 {
                    j
                } else {
                    n
                }
            },
            Given::Flush => j,
        }
    }
}

/// Only silence without a break closes a turn: where a frame closes one that is still within its
/// limit, silent frames that follow each other at the end of what was given, up to that frame, last
/// as long as the hangover. What was silent before the last sound does not count.
pub proof fn only_unbroken_silence_closes_turns(c: VadConfig, rate: int, given: Seq<Given>, frame: Given)
    requires
        frame is Frame,
        course(c, rate, given.push(frame)).turns.len() > course(c, rate, given).turns.len(),
        ms_of(rate, course(c, rate, given.push(frame)).turns.last().samples.len() as int) < c.max_segment_ms,
    ensures
        exists|k: int|
            0 <= k <= given.len() + 1 && all_silent(given.push(frame).skip(k)) && #[trigger] sound(
                given.push(frame).skip(k),
            ) >= samples_of(rate, c.hangover_ms as int),
{
    let all = given.push(frame);
    assert(all.drop_last() =~= given);
    let p = course(c, rate, given);
    let j = lemma_silence(c, rate, given);
    match frame {
        Given::Frame { samples, loud, silent } => {
            if silent {
                assert(all.skip(j) =~= given.skip(j).push(frame));
                lemma_sound(given.skip(j), frame);
                assert(sound(all.skip(j)) >= samples_of(rate, c.hangover_ms as int));
            } else {
                assert(all.skip(all.len() as int) =~= Seq::empty());
                assert(sound(all.skip(all.len() as int)) >= samples_of(rate, c.hangover_ms as int));
            }
        },
        Given::Flush => {},
    }
}

/// Sound ends a silence: after a frame that is not silent, no silence is counted in an open turn.
pub proof fn sound_ends_silence(c: VadConfig, rate: int, given: Seq<Given>, samples: Seq<i16>, loud: bool)
    requires
        samples.len() > 0,
    ensures
        ({
            let next = course(c, rate, given.push(Given::Frame { samples, loud, silent: false })).at;
            next.open ==> next.silence == 0
        }),
{
    let f = Given::Frame { samples, loud, silent: false };
    assert(given.push(f).drop_last() =~= given);
}

proof fn lemma_silence_adds_up(c: VadConfig, rate: int, given: Seq<Given>, more: Seq<Given>)
    requires
        course(c, rate, given).at.open,
        course(c, rate, given).at.silence >= 0,
        all_silent(more),
    ensures
        course(c, rate, given + more).turns.len() >= course(c, rate, given).turns.len(),
        course(c, rate, given + more).turns.len() == course(c, rate, given).turns.len() ==> {
            let at = course(c, rate, given + more).at;
            at.open && at.silence == course(c, rate, given).at.silence + sound(more)
        },
        course(c, rate, given + more).turns.len() == course(c, rate, given).turns.len() && sound(more) > 0 ==> course(
            c,
            rate,
            given + more,
        ).at.silence < samples_of(rate, c.hangover_ms as int),
    decreases more.len(),
{
    if more.len() == 0 {
        assert(given + more =~= given);
    } else {
        let r = more.drop_last();
        assert forall|i: int| 0 <= i < r.len() implies (#[trigger] r[i] matches Given::Frame { samples, silent, .. } && (silent
            || samples.len() == 0)) by {
            assert(r[i] == more[i]);
        }
        lemma_silence_adds_up(c, rate, given, r);
        assert((given + more).drop_last() =~= given + r);
        assert((given + more).last() == more.last());
        assert(more[more.len() - 1] == more.last());
        lemma_sound(r, more.last());
        assert(r.push(more.last()) =~= more);
    }
}

/// Silence as long as the hangover closes a turn: where one is open and nothing but silence follows,
/// it is closed by the time that this silence has lasted that long.
pub proof fn long_silence_closes_turns(c: VadConfig, rate: int, given: Seq<Given>, more: Seq<Given>)
    requires
        course(c, rate, given).at.open,
        all_silent(more),
        sound(more) > 0,
        sound(more) >= samples_of(rate, c.hangover_ms as int),
    ensures
        course(c, rate, given + more).turns.len() > course(c, rate, given).turns.len(),
{
    let k = lemma_silence(c, rate, given);
    lemma_sound(given.skip(k), Given::Flush);
    lemma_silence_adds_up(c, rate, given, more);
}

/// How many samples came in that were not silent.
pub open spec fn spoken(given: Seq<Given>) -> int
    decreases given.len(),
{
    if given.len() == 0 {
        0
    } else {
        spoken(given.drop_last()) + (match given.last() {
            Given::Frame { samples, silent, .. } => if silent {
                0int
            } else {
                samples.len() as int
            },
            Given::Flush => 0,
        })
    }
}

/// Whether an open turn began with frame `k` of what was given: before it none was open, it was loud,
/// and from it on the turn holds everything, with nothing but what is not silent counted as speech
/// besides the frame itself.
pub open spec fn began_with(c: VadConfig, rate: int, given: Seq<Given>, k: int) -> bool {
    let before = course(c, rate, given.take(k));
    let at = course(c, rate, given).at;
    &&& !before.at.open
    &&& given[k] matches Given::Frame { samples, loud, .. } && loud && samples.len() > 0 && at.speech == samples.len()
        + spoken(given.skip(k + 1))
    &&& at.pending.len() == before.at.preroll.len() + sound(given.skip(k))
    &&& course(c, rate, given).turns == before.turns
}

proof fn lemma_began(c: VadConfig, rate: int, given: Seq<Given>) -> (k: int)
    ensures
        course(c, rate, given).at.open ==> 0 <= k < given.len() && began_with(c, rate, given, k),
    decreases given.len(),
{
    if given.len() == 0 {
        0
    } else {
        let p = given.drop_last();
        let n = given.len() - 1;
        let g = given.last();
        let j = lemma_began(c, rate, p);
        let before = course(c, rate, p).at;
        assert(given.take(n) =~= p);
        match g {
            Given::Frame { samples, loud, silent } => {
                if before.open {
                    assert(given.take(j) =~= p.take(j));
                    assert(given.skip(j) =~= p.skip(j).push(g));
                    assert(given.skip(j + 1) =~= p.skip(j + 1).push(g));
                    lemma_sound(p.skip(j), g);
                    assert(p.skip(j + 1).push(g).drop_last() =~= p.skip(j + 1));
                    assert(given[j] == p[j]);
                    assert(course(c, rate, given).at.open ==> began_with(c, rate, given, j));
                    j
                } else {
                    assert(given.skip(n) =~= Seq::empty().push(g));
                    lemma_sound(Seq::empty(), g);
                    assert(given.skip(n + 1) =~= Seq::empty());
                    assert(course(c, rate, given).at.open ==> began_with(c, rate, given, n));
                    n
                }
            },
            Given::Flush => j,
        }
    }
}

/// An open turn began with a loud frame, holds all that came since with a little of what came before,
/// and counts as speech that frame and all that was not silent since.
pub proof fn turns_count_their_speech(c: VadConfig, rate: int, given: Seq<Given>)
    requires
        course(c, rate, given).at.open,
    ensures
        exists|k: int| 0 <= k < given.len() && #[trigger] began_with(c, rate, given, k),
{
    let k = lemma_began(c, rate, given);
}

/// A turn opens with the first loud frame and with no other, and opening one gives none.
pub proof fn loud_frames_open_turns(c: VadConfig, rate: int, given: Seq<Given>, samples: Seq<i16>, loud: bool, silent: bool)
    requires
        !course(c, rate, given).at.open,
        samples.len() > 0,
    ensures
        ({
            let next = course(c, rate, given.push(Given::Frame { samples, loud, silent }));
            &&& next.at.open <==> loud
            &&& next.turns == course(c, rate, given).turns
        }),
{
    let f = Given::Frame { samples, loud, silent };
    assert(given.push(f).drop_last() =~= given);
}

proof fn lemma_preroll(c: VadConfig, rate: int, given: Seq<Given>)
    requires
        rate >= 1,
    ensures
        ({
            let k = course(c, rate, given);
            let keep = samples_of(rate, c.preroll_ms as int);
            &&& k.at.open ==> k.at.preroll.len() == 0
            &&& !k.at.open ==> k.at.preroll.len() == (if k.at.consumed - last_end(k.turns) < keep {
                k.at.consumed - last_end(k.turns)
            } else {
                keep
            })
        }),
    decreases given.len(),
{
    let keep = samples_of(rate, c.preroll_ms as int);
    assert(keep >= 0) by {
        assert(c.preroll_ms * rate >= 0) by (nonlinear_arith)
            requires
                rate >= 1,
        ;
    }
    if given.len() > 0 {
        let p = given.drop_last();
        lemma_preroll(c, rate, p);
        lemma_course(c, rate, p);
        lemma_course(c, rate, given);
    }
}

/// A turn keeps what came before it, as far back as asked: it begins that long before the frame that
/// opened it, or where the turn before ended, whichever is later.
pub proof fn turns_reach_back(c: VadConfig, rate: int, given: Seq<Given>, samples: Seq<i16>, silent: bool)
    requires
        rate >= 1,
        samples.len() > 0,
        !course(c, rate, given).at.open,
    ensures
        ({
            let k = course(c, rate, given);
            let next = course(c, rate, given.push(Given::Frame { samples, loud: true, silent })).at;
            let back = k.stream.len() - samples_of(rate, c.preroll_ms as int);
            &&& next.pending_t0 == most(back, last_end(k.turns))
            &&& next.pending == (k.stream + samples).skip(next.pending_t0)
        }),
{
    let f = Given::Frame { samples, loud: true, silent };
    assert(given.push(f).drop_last() =~= given);
    lemma_preroll(c, rate, given);
    lemma_course(c, rate, given);
    lemma_course(c, rate, given.push(f));
    let k = course(c, rate, given);
    let next = course(c, rate, given.push(f));
    assert(next.at.pending =~= next.stream.skip(next.at.pending_t0));
}

/// Times are whole milliseconds, rounded down: what they leave over is less than one.
pub proof fn times_round_down(rate: int, samples: int, ms: int)
    requires
        rate >= 1,
        samples >= 0,
        ms >= 0,
    ensures
        ms_of(rate, samples) * rate <= samples * 1000 < (ms_of(rate, samples) + 1) * rate,
        samples_of(rate, ms) * 1000 <= ms * rate < (samples_of(rate, ms) + 1) * 1000,
{
    let a = samples * 1000;
    assert(a / rate * rate <= a < (a / rate + 1) * rate) by (nonlinear_arith)
        requires
            rate >= 1,
    ;
}

proof fn lemma_peak_met(s: Seq<i16>, n: int)
    requires
        0 < n <= s.len(),
    ensures
        exists|i: int| 0 <= i < n && height(#[trigger] s[i]) == peak(s, n),
    decreases n,
{
    if n == 1 {
        assert(peak(s, 0) == 0);
        assert(height(s[0]) == peak(s, n));
    } else {
        lemma_peak_met(s, n - 1);
        if peak(s, n) == peak(s, n - 1) {
            let i = choose|i: int| 0 <= i < n - 1 && height(#[trigger] s[i]) == peak(s, n - 1);
            assert(height(s[i]) == peak(s, n));
        } else {
            assert(height(s[n - 1]) == peak(s, n));
        }
    }
}

/// The peak is the height of some sample, on whichever side of silence it lies.
pub proof fn peaks_are_met(s: Seq<i16>)
    requires
        s.len() > 0,
    ensures
        exists|i: int| 0 <= i < s.len() && (#[trigger] s[i] == peak(s, s.len() as int) || -s[i] == peak(s, s.len() as int)),
{
    lemma_peak_met(s, s.len() as int);
    let i = choose|i: int| 0 <= i < s.len() && height(#[trigger] s[i]) == peak(s, s.len() as int);
    assert(s[i] == peak(s, s.len() as int) || -s[i] == peak(s, s.len() as int));
}

proof fn lemma_sum_of_equals(s: Seq<i16>, at: int, n: int, v: i16)
    requires
        0 <= n,
        forall|k: int| at <= k < at + n ==> #[trigger] s[k] == v,
    ensures
        sum(s, at, n) == v * n,
    decreases n,
{
    if n > 0 {
        lemma_sum_of_equals(s, at, n - 1, v);
        assert(s[at + n - 1] == v);
        assert(v * n == v * (n - 1) + v) by (nonlinear_arith);
    } else {
        assert(v * n == 0) by (nonlinear_arith)
            requires
                n == 0,
        ;
    }
}

/// Channels that agree are mixed to what they agree on, one sample for each group.
pub proof fn mixing_keeps_what_agrees(s: Seq<i16>, ch: int, i: int, v: i16)
    requires
        ch >= 1,
        0 <= i < s.len() as int / ch,
        forall|k: int| i * ch <= k < i * ch + ch ==> #[trigger] s[k] == v,
    ensures
        mixed(s, ch).len() == s.len() as int / ch,
        mixed(s, ch)[i] == v,
{
    if ch == 1 {
        assert(i * ch == i) by (nonlinear_arith)
            requires
                ch == 1,
        ;
        assert(s[i] == v);
    } else {
        lemma_sum_of_equals(s, i * ch, ch, v);
        let a = v * ch;
        if v < 0 {
            let p = -v as int;
            assert(-a == p * ch && a < 0) by (nonlinear_arith)
                requires
                    a == v * ch,
                    p == -v,
                    v < 0,
                    ch > 0,
            ;
            assert(p * ch / ch == p) by (nonlinear_arith)
                requires
                    ch > 0,
            ;
        } else {
            assert(a >= 0 && a / ch == v) by (nonlinear_arith)
                requires
                    a == v * ch,
                    v >= 0,
                    ch > 0,
            ;
        }
    }
}

/// A segment tells its turn: how much of it is speech, in whole milliseconds, and how high its highest
/// sample is; all that was speech lies within it.
pub proof fn segments_tell_their_turn(g: Segment, v: SegmentView, rate: int)
    requires
        rate >= 1,
        is_segment(g, v, rate),
        0 <= v.speech <= v.samples.len(),
    ensures
        g.speech_ms * rate <= v.speech * 1000 < (g.speech_ms + 1) * rate,
        g.speech_ms <= g.dur_ms,
        forall|i: int| 0 <= i < g.samples@.len() ==> -g.peak <= #[trigger] g.samples@[i] <= g.peak,
        g.samples@.len() > 0 ==> exists|i: int|
            0 <= i < g.samples@.len() && (#[trigger] g.samples@[i] == g.peak || -g.samples@[i] == g.peak),
{
    times_round_down(rate, v.speech, 0);
    let a = v.speech * 1000;
    let b = v.samples.len() as int * 1000;
    assert(a / rate <= b / rate) by (nonlinear_arith)
        requires
            a <= b,
            rate >= 1,
    ;
    assert forall|i: int| 0 <= i < g.samples@.len() implies -g.peak <= #[trigger] g.samples@[i] <= g.peak by {
        peaks_are_highest(v.samples, i);
    }
    if v.samples.len() > 0 {
        peaks_are_met(v.samples);
        let i = choose|i: int|
            0 <= i < v.samples.len() && (#[trigger] v.samples[i] == peak(v.samples, v.samples.len() as int) || -v.samples[i]
                == peak(v.samples, v.samples.len() as int));
        assert(g.samples@[i] == g.peak || -g.samples@[i] == g.peak);
    }
}

proof fn lemma_spoken(given: Seq<Given>)
    ensures
        0 <= spoken(given) <= sound(given),
    decreases given.len(),
{
    if given.len() > 0 {
        lemma_spoken(given.drop_last());
    }
}

/// An open turn never counts more speech than it holds.
pub proof fn turns_hold_their_speech(c: VadConfig, rate: int, given: Seq<Given>)
    requires
        course(c, rate, given).at.open,
    ensures
        0 <= course(c, rate, given).at.speech <= course(c, rate, given).at.pending.len(),
{
    let k = lemma_began(c, rate, given);
    lemma_spoken(given.skip(k + 1));
    let rest = given.skip(k + 1);
    assert(given.skip(k) =~= seq![given[k]] + rest);
    lemma_sound_joined(seq![given[k]], rest);
    assert(seq![given[k]].drop_last() =~= Seq::empty());
    assert(sound(seq![given[k]]) == sound(seq![given[k]].drop_last()) + (match given[k] {
        Given::Frame { samples, .. } => samples.len() as int,
        Given::Flush => 0,
    }));
}

proof fn lemma_sound_joined(a: Seq<Given>, b: Seq<Given>)
    ensures
        sound(a + b) == sound(a) + sound(b),
    decreases b.len(),
{
    if b.len() == 0 {
        assert(a + b =~= a);
    } else {
        lemma_sound_joined(a, b.drop_last());
        assert((a + b).drop_last() =~= a + b.drop_last());
        assert((a + b).last() == b.last());
    }
}

/// A frame has as many samples as its time takes at the rate of the stream, of all channels, rounded
/// down; one at least.
pub proof fn frames_have_their_length(frame_ms: u64, sample_rate: u32, channels: u16)
    ensures
        ({
            let n = frame_len(frame_ms, sample_rate, channels);
            let ch = if channels == 0 {
                1int
            } else {
                channels as int
            };
            &&& n >= 1
            &&& n > 1 ==> n * 1000 <= frame_ms * sample_rate * ch < (n + 1) * 1000
            &&& n == 1 ==> frame_ms * sample_rate * ch < 2000
        }),
{
}

/// What is asked for is used: times as they are given, in whole milliseconds, the length of frames
/// from five milliseconds on and the limit of turns from five hundred, levels where they are positive;
/// what is not asked for is as by default.
pub proof fn settings_are_used_as_asked(o: JsonView, b: u64)
    ensures
        ({
            let c = config_of(Some(o));
            let d = config_of(None);
            &&& bits_of(field(o, "hangover_ms"@)) == Some(b) ==> c.hangover_ms == truncated(b) as u64
            &&& bits_of(field(o, "hangover_ms"@)) is None ==> c.hangover_ms == d.hangover_ms
            &&& bits_of(field(o, "preroll_ms"@)) == Some(b) ==> c.preroll_ms == truncated(b) as u64
            &&& bits_of(field(o, "preroll_ms"@)) is None ==> c.preroll_ms == d.preroll_ms
            &&& bits_of(field(o, "min_speech_ms"@)) == Some(b) ==> c.min_speech_ms == truncated(b) as u64
            &&& bits_of(field(o, "min_speech_ms"@)) is None ==> c.min_speech_ms == d.min_speech_ms
            &&& bits_of(field(o, "frame_ms"@)) == Some(b) && order_key(b) >= order_key(0x4014_0000_0000_0000) ==> c.frame_ms
                == truncated(b) as u64
            &&& bits_of(field(o, "frame_ms"@)) is None ==> c.frame_ms == d.frame_ms
            &&& bits_of(field(o, "frame_ms"@)) == Some(b) && order_key(b) < order_key(0x4014_0000_0000_0000) ==> c.frame_ms
                == d.frame_ms
            &&& bits_of(field(o, "max_segment_ms"@)) == Some(b) && order_key(b) >= order_key(0x407f_4000_0000_0000)
                ==> c.max_segment_ms == truncated(b) as u64
            &&& bits_of(field(o, "max_segment_ms"@)) == Some(b) && order_key(b) < order_key(0x407f_4000_0000_0000)
                ==> c.max_segment_ms == d.max_segment_ms
            &&& bits_of(field(o, "max_segment_ms"@)) is None ==> c.max_segment_ms == d.max_segment_ms
            &&& bits_of(field(o, "rms_open"@)) == Some(b) && order_key(b) > 0 ==> c.rms_open.bits == b
            &&& bits_of(field(o, "rms_open"@)) == Some(b) && order_key(b) <= 0 ==> c.rms_open.bits == d.rms_open.bits
            &&& bits_of(field(o, "rms_open"@)) is None ==> c.rms_open.bits == d.rms_open.bits
            &&& bits_of(field(o, "rms_close"@)) == Some(b) && 0 < order_key(b) < order_key(c.rms_open.bits) ==> c.rms_close.bits
                == b
        }),
{
}

/// A second of a stream has as many samples as its rate, for each of its channels.
pub proof fn seconds_have_their_samples(sample_rate: u32, channels: u16)
    requires
        sample_rate > 0,
        channels > 0,
    ensures
        per_second(sample_rate, channels) == sample_rate * channels,
        ms_of(per_second(sample_rate, channels), per_second(sample_rate, channels)) == 1000,
        samples_of(per_second(sample_rate, channels), 1000) == sample_rate * channels,
{
    let n = sample_rate * channels;
    assert(n > 0) by (nonlinear_arith)
        requires
            sample_rate > 0,
            channels > 0,
            n == sample_rate * channels,
    ;
    assert(n * 1000 / n == 1000) by (nonlinear_arith)
        requires
            n > 0,
    ;
}

} // verus!
