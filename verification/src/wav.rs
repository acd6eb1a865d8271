//! Sound in and out of WAV files: 16-bit PCM of one or two channels, and nothing else.

use vstd::prelude::*;
use crate::text;
use crate::text::dec;

verus! {

/// Sound: interleaved samples, and how to read them.
#[derive(Debug, Clone)]
pub struct Pcm {
    pub sample_rate: u32,
    pub channels: u16,
    pub samples: Vec<i16>,
}

/// What sound holds.
#[verifier::ext_equal]
pub struct PcmView {
    pub sample_rate: u32,
    pub channels: u16,
    pub samples: Seq<i16>,
}

impl View for Pcm {
    type V = PcmView;

    open spec fn view(&self) -> PcmView {
        PcmView { sample_rate: self.sample_rate, channels: self.channels, samples: self.samples@ }
    }
}

/// The length of the head of a file.
pub const HEADER_LEN: usize = 44;

// ---------------------------------------------------------------------------------------------
// Numbers as bytes, the low byte first
// ---------------------------------------------------------------------------------------------

/// Two bytes.
pub open spec fn two(v: int) -> Seq<u8> {
    seq![(v % 256) as u8, (v / 256 % 256) as u8]
}

/// Four bytes.
pub open spec fn four(v: int) -> Seq<u8> {
    seq![(v % 256) as u8, (v / 256 % 256) as u8, (v / 65536 % 256) as u8, (v / 16777216 % 256) as u8]
}

/// The number in two bytes at `i`.
pub open spec fn two_at(b: Seq<u8>, i: int) -> int {
    b[i] + b[i + 1] * 256
}

/// The number in four bytes at `i`.
pub open spec fn four_at(b: Seq<u8>, i: int) -> int {
    b[i] + b[i + 1] * 256 + b[i + 2] * 65536 + b[i + 3] * 16777216
}

/// A sample as a number that is not negative.
pub open spec fn unsigned(s: i16) -> int {
    if s < 0 {
        s + 65536
    } else {
        s as int
    }
}

/// A number as a sample.
pub open spec fn signed(v: int) -> int {
    if v >= 32768 {
        v - 65536
    } else {
        v
    }
}

fn get_two(b: &[u8], i: usize) -> (r: u16)
    requires
        i + 2 <= b@.len(),
        i + 2 <= usize::MAX,
    ensures
        r == two_at(b@, i as int),
{
    b[i] as u16 + b[i + 1] as u16 * 256
}

fn get_four(b: &[u8], i: usize) -> (r: u32)
    requires
        i + 4 <= b@.len(),
        i + 4 <= usize::MAX,
    ensures
        r == four_at(b@, i as int),
{
    b[i] as u32 + b[i + 1] as u32 * 256 + b[i + 2] as u32 * 65536 + b[i + 3] as u32 * 16777216
}

/// One byte of a number.
fn byte(v: u32, d: u32) -> (r: u8)
    requires
        d > 0,
    ensures
        r == (v as int / d as int % 256) as u8,
{
    (v / d % 256) as u8
}

// ---------------------------------------------------------------------------------------------
// Writing
// ---------------------------------------------------------------------------------------------

/// The bytes of "RIFF".
pub open spec fn riff() -> Seq<u8> {
    seq![0x52u8, 0x49, 0x46, 0x46]
}

/// The bytes of "WAVE".
pub open spec fn wave() -> Seq<u8> {
    seq![0x57u8, 0x41, 0x56, 0x45]
}

/// The bytes of "fmt ".
pub open spec fn fmt() -> Seq<u8> {
    seq![0x66u8, 0x6d, 0x74, 0x20]
}

/// The bytes of "data".
pub open spec fn data() -> Seq<u8> {
    seq![0x64u8, 0x61, 0x74, 0x61]
}

/// Byte `i` of the head of a file with `len` bytes of samples.
pub open spec fn header_byte(sample_rate: u32, channels: u16, len: int, i: int) -> u8 {
    if i < 4 {
        riff()[i]
    } else if i < 8 {
        four(36 + len)[i - 4]
    } else if i < 12 {
        wave()[i - 8]
    } else if i < 16 {
        fmt()[i - 12]
    } else if i < 20 {
        four(16)[i - 16]
    } else if i < 22 {
        two(1)[i - 20]
    } else if i < 24 {
        two(channels as int)[i - 22]
    } else if i < 28 {
        four(sample_rate as int)[i - 24]
    } else if i < 32 {
        four(sample_rate * (channels * 2))[i - 28]
    } else if i < 34 {
        two(channels * 2)[i - 32]
    } else if i < 36 {
        two(16)[i - 34]
    } else if i < 40 {
        data()[i - 36]
    } else {
        four(len)[i - 40]
    }
}

/// The head of a file with `len` bytes of samples.
pub open spec fn header(sample_rate: u32, channels: u16, len: int) -> Seq<u8> {
    Seq::new(44, |i: int| header_byte(sample_rate, channels, len, i))
}

/// The head of a file with `data_len` bytes of samples.
pub fn make_header(sample_rate: u32, channels: u16, data_len: u32) -> (h: [u8; HEADER_LEN])
    requires
        channels * 16 <= u16::MAX,
        sample_rate * (channels * 2) <= u32::MAX,
        36 + data_len <= u32::MAX,
    ensures
        h@ == header(sample_rate, channels, data_len as int),
{
    let align: u32 = channels as u32 * 2;
    let rate: u32 = sample_rate * align;
    let all: u32 = 36 + data_len;
    let ch: u32 = channels as u32;
    let h: [u8; HEADER_LEN] = [
        0x52,
        0x49,
        0x46,
        0x46,
        byte(all, 1),
        byte(all, 256),
        byte(all, 65536),
        byte(all, 16777216),
        0x57,
        0x41,
        0x56,
        0x45,
        0x66,
        0x6d,
        0x74,
        0x20,
        16,
        0,
        0,
        0,
        1,
        0,
        byte(ch, 1),
        byte(ch, 256),
        byte(sample_rate, 1),
        byte(sample_rate, 256),
        byte(sample_rate, 65536),
        byte(sample_rate, 16777216),
        byte(rate, 1),
        byte(rate, 256),
        byte(rate, 65536),
        byte(rate, 16777216),
        byte(align, 1),
        byte(align, 256),
        16,
        0,
        0x64,
        0x61,
        0x74,
        0x61,
        byte(data_len, 1),
        byte(data_len, 256),
        byte(data_len, 65536),
        byte(data_len, 16777216),
    ];
    assert(h@ =~= header(sample_rate, channels, data_len as int));
    h
}

/// The bytes of the first `n` samples.
pub open spec fn sample_bytes(s: Seq<i16>, n: int) -> Seq<u8>
    decreases n,
{
    if n <= 0 {
        Seq::empty()
    } else {
        sample_bytes(s, n - 1) + two(unsigned(s[n - 1]))
    }
}

/// The bytes of samples.
pub fn samples_to_bytes(samples: &[i16]) -> (r: Vec<u8>)
    ensures
        r@ == sample_bytes(samples@, samples@.len() as int),
{
    let mut v: Vec<u8> = Vec::new();
    let mut i: usize = 0;
    while i < samples.len()
        invariant
            i <= samples@.len(),
            v@ == sample_bytes(samples@, i as int),
        decreases samples@.len() - i,
    {
        let s: i16 = samples[i];
        let w: u32 = if s < 0 {
            (s as i32 + 65536) as u32
        } else {
            s as u32
        };
        v.push(byte(w, 1));
        v.push(byte(w, 256));
        i += 1;
        assert(v@ =~= sample_bytes(samples@, i as int));
    }
    v
}

/// Whether sound can be written: the numbers of the head stay within its fields.
pub open spec fn writable(sample_rate: u32, channels: u16, n: int) -> bool {
    channels * 16 <= u16::MAX && sample_rate * (channels * 2) <= u32::MAX && 36 + n * 2 <= u32::MAX
}

/// The bytes of a file.
pub open spec fn file(sample_rate: u32, channels: u16, samples: Seq<i16>) -> Seq<u8> {
    header(sample_rate, channels, samples.len() as int * 2) + sample_bytes(samples, samples.len() as int)
}

proof fn lemma_bytes_len(s: Seq<i16>, n: int)
    requires
        0 <= n,
    ensures
        sample_bytes(s, n).len() == n * 2,
    decreases n,
{
    if n > 0 {
        lemma_bytes_len(s, n - 1);
    }
}

/// The file of sound: the head, then the samples.
pub fn encode(sample_rate: u32, channels: u16, samples: &[i16]) -> (r: Vec<u8>)
    requires
        writable(sample_rate, channels, samples@.len() as int),
    ensures
        r@ == file(sample_rate, channels, samples@),
        r@.len() == 44 + samples@.len() * 2,
{
    let body = samples_to_bytes(samples);
    proof {
        lemma_bytes_len(samples@, samples@.len() as int);
    }
    let head: [u8; HEADER_LEN] = make_header(sample_rate, channels, body.len() as u32);
    let mut out: Vec<u8> = Vec::new();
    let mut i: usize = 0;
    while i < 44
        invariant
            i <= 44,
            out@ == head@.take(i as int),
        decreases 44 - i,
    {
        out.push(head[i]);
        i += 1;
        assert(out@ =~= head@.take(i as int));
    }
    assert(head@.take(44) =~= head@);
    let mut k: usize = 0;
    assert(out@ =~= head@ + body@.take(0));
    while k < body.len()
        invariant
            k <= body@.len(),
            out@ == head@ + body@.take(k as int),
        decreases body@.len() - k,
    {
        out.push(body[k]);
        k += 1;
        assert(out@ =~= head@ + body@.take(k as int));
    }
    assert(body@.take(body@.len() as int) =~= body@);
    out
}

// ---------------------------------------------------------------------------------------------
// Reading
// ---------------------------------------------------------------------------------------------

/// What a format chunk says.
#[derive(Debug, Clone, Copy, PartialEq, Eq, Structural)]
pub struct Format {
    pub tag: u16,
    pub channels: u16,
    pub rate: u32,
    pub bits: u16,
}

/// What was found so far: the last format chunk, and where the last samples begin and end.
pub struct Found {
    pub format: Option<Format>,
    pub data: Option<(int, int)>,
}

/// What a format chunk that begins at `start` says.
pub open spec fn format_at(b: Seq<u8>, start: int) -> Format {
    Format {
        tag: two_at(b, start) as u16,
        channels: two_at(b, start + 2) as u16,
        rate: four_at(b, start + 4) as u32,
        bits: two_at(b, start + 14) as u16,
    }
}

/// Where a chunk that begins at `start` ends: where it says, or at the end of the file.
pub open spec fn chunk_end(b: Seq<u8>, start: int, len: int) -> int {
    if start + len <= b.len() {
        start + len
    } else {
        b.len() as int
    }
}

/// What is found from `pos` on, chunk by chunk; chunks of other names are passed over, and a chunk
/// of odd length is followed by one byte that belongs to none.
pub open spec fn scan(b: Seq<u8>, pos: int, found: Found) -> Result<Found, Seq<char>>
    decreases b.len() - pos,
{
    if pos < 0 || pos + 8 > b.len() {
        Ok(found)
    } else {
        let id = b.subrange(pos, pos + 4);
        let len = four_at(b, pos + 4);
        let start = pos + 8;
        let end = chunk_end(b, start, len);
        let next = end + (end - start) % 2;
        if id == fmt() && (len < 16 || start + 16 > b.len()) {
            Err("fmt 块不完整"@)
        } else {
            let more = if id == fmt() {
                Found { format: Some(format_at(b, start)), ..found }
            } else if id == data() {
                Found { data: Some((start, end)), ..found }
            } else {
                found
            };
            if end == b.len() {
                Ok(more)
            } else {
                scan(b, next, more)
            }
        }
    }
}

/// The samples in the first `n` pairs of bytes from `at`.
pub open spec fn samples_at(b: Seq<u8>, at: int, n: int) -> Seq<i16> {
    Seq::new(n as nat, |i: int| signed(two_at(b, at + 2 * i)) as i16)
}

/// What a file holds, or why it is refused.
pub open spec fn contents(b: Seq<u8>) -> Result<PcmView, Seq<char>> {
    if b.len() < 12 || b.subrange(0, 4) != riff() || b.subrange(8, 12) != wave() {
        Err("不是 RIFF/WAVE 文件"@)
    } else {
        match scan(b, 12, Found { format: None, data: None }) {
            Err(e) => Err(e),
            Ok(found) => match found.format {
                None => Err("缺 fmt 块"@),
                Some(f) => if f.tag != 1 {
                    Err("只支持 PCM，format tag="@ + dec(f.tag as int) + "（浮点/压缩音轨请先转成 s16le）"@)
                } else if f.bits != 16 {
                    Err("只支持 16 bit，实际 "@ + dec(f.bits as int) + " bit"@)
                } else if f.channels == 0 || f.channels > 2 {
                    Err("只支持单/立体声，实际 "@ + dec(f.channels as int) + " 声道"@)
                } else {
                    match found.data {
                        None => Err("缺 data 块"@),
                        Some((s, e)) => if (e - s) % 2 != 0 {
                            Err("data 块长度是奇数："@ + dec(e - s) + " 字节"@)
                        } else {
                            Ok(
                                PcmView {
                                    sample_rate: f.rate,
                                    channels: f.channels,
                                    samples: samples_at(b, s, (e - s) / 2),
                                },
                            )
                        },
                    }
                },
            },
        }
    }
}

/// Whether four bytes at `i` are these.
fn is_at(b: &[u8], i: usize, w: u8, x: u8, y: u8, z: u8) -> (r: bool)
    requires
        i + 4 <= b@.len(),
        i + 4 <= usize::MAX,
    ensures
        r == (b@.subrange(i as int, i + 4) == seq![w, x, y, z]),
{
    let r = b[i] == w && b[i + 1] == x && b[i + 2] == y && b[i + 3] == z;
    proof {
        let s = b@.subrange(i as int, i + 4);
        if r {
            assert(s =~= seq![w, x, y, z]);
        } else if s == seq![w, x, y, z] {
            assert(s[0] == b@[i as int] && s[1] == b@[i + 1] && s[2] == b@[i + 2] && s[3] == b@[i + 3]);
        }
    }
    r
}

/// Reads samples.
fn read_samples(b: &[u8], start: usize, end: usize) -> (r: Vec<i16>)
    requires
        start <= end <= b@.len(),
    ensures
        r@ == samples_at(b@, start as int, (end - start) / 2),
{
    let n: usize = (end - start) / 2;
    let mut v: Vec<i16> = Vec::new();
    let mut i: usize = 0;
    let len: usize = b.len();
    while i < n
        invariant
            i <= n,
            n == (end - start) / 2,
            start <= end <= len == b@.len(),
            v@ == samples_at(b@, start as int, i as int),
        decreases n - i,
    {
        let w: u16 = get_two(b, start + 2 * i);
        let s: i16 = if w >= 32768 {
            (w as i32 - 65536) as i16
        } else {
            w as i16
        };
        v.push(s);
        i += 1;
        assert(v@ =~= samples_at(b@, start as int, i as int));
    }
    v
}

/// Where chunks were found.
struct Places {
    format: Option<Format>,
    data: Option<(usize, usize)>,
}

spec fn found_view(p: Places) -> Found {
    Found {
        format: p.format,
        data: match p.data {
            Some((s, e)) => Some((s as int, e as int)),
            None => None,
        },
    }
}

/// Looks for the chunks that matter.
fn find_chunks(b: &[u8]) -> (r: Result<Places, String>)
    requires
        b@.len() >= 12,
    ensures
        match r {
            Ok(p) => scan(b@, 12, Found { format: None, data: None }) == Ok::<Found, Seq<char>>(found_view(p)) && (
            p.data matches Some((s, e)) ==> s <= e <= b@.len()),
            Err(e) => scan(b@, 12, Found { format: None, data: None }) == Err::<Found, Seq<char>>(e@),
        },
{
    let mut p = Places { format: None, data: None };
    let mut pos: usize = 12;
    let all: usize = b.len();
    let ghost start_found = Found { format: None, data: None };
    while pos <= all && all - pos >= 8
        invariant_except_break
            12 <= pos <= all + 1,
            all == b@.len(),
            scan(b@, 12, start_found) == scan(b@, pos as int, found_view(p)),
        invariant
            all == b@.len(),
            start_found == (Found { format: None, data: None }),
            p.data matches Some((s, e)) ==> s <= e <= b@.len(),
        ensures
            scan(b@, 12, start_found) == Ok::<Found, Seq<char>>(found_view(p)),
        decreases all + 1 - pos,
    {
        let len: u32 = get_four(b, pos + 4);
        let start: usize = pos + 8;
        let end: usize = if len as u64 <= (all - start) as u64 {
            start + len as usize
        } else {
            all
        };
        if is_at(b, pos, 0x66, 0x6d, 0x74, 0x20) {
            if len < 16 || all - start < 16 {
                return Err("fmt 块不完整".to_owned());
            }
            p.format = Some(
                Format {
                    tag: get_two(b, start),
                    channels: get_two(b, start + 2),
                    rate: get_four(b, start + 4),
                    bits: get_two(b, start + 14),
                },
            );
        } else if is_at(b, pos, 0x64, 0x61, 0x74, 0x61) {
            p.data = Some((start, end));
        }
        if end == all {
            break;
        }
        pos = end + (end - start) % 2;
    }
    Ok(p)
}

/// What a file holds, or why it is refused.
pub fn parse(b: &[u8]) -> (r: Result<Pcm, String>)
    ensures
        match r {
            Ok(p) => contents(b@) == Ok::<PcmView, Seq<char>>(p@),
            Err(e) => contents(b@) == Err::<PcmView, Seq<char>>(e@),
        },
{
    if b.len() < 12 || !is_at(b, 0, 0x52, 0x49, 0x46, 0x46) || !is_at(b, 8, 0x57, 0x41, 0x56, 0x45) {
        return Err("不是 RIFF/WAVE 文件".to_owned());
    }
    let p = match find_chunks(b) {
        Ok(p) => p,
        Err(e) => {
            return Err(e);
        },
    };
    let f = match p.format {
        Some(f) => f,
        None => {
            return Err("缺 fmt 块".to_owned());
        },
    };
    if f.tag != 1 {
        let mut s = "只支持 PCM，format tag=".to_owned();
        text::push_dec(&mut s, f.tag as u64);
        s.append("（浮点/压缩音轨请先转成 s16le）");
        return Err(s);
    }
    if f.bits != 16 {
        let mut s = "只支持 16 bit，实际 ".to_owned();
        text::push_dec(&mut s, f.bits as u64);
        s.append(" bit");
        return Err(s);
    }
    if f.channels == 0 || f.channels > 2 {
        let mut s = "只支持单/立体声，实际 ".to_owned();
        text::push_dec(&mut s, f.channels as u64);
        s.append(" 声道");
        return Err(s);
    }
    match p.data {
        Some((start, end)) => {
            if (end - start) % 2 != 0 {
                let mut s = "data 块长度是奇数：".to_owned();
                text::push_dec(&mut s, (end - start) as u64);
                s.append(" 字节");
                return Err(s);
            }
            let samples = read_samples(b, start, end);
            Ok(Pcm { sample_rate: f.rate, channels: f.channels, samples })
        },
        None => Err("缺 data 块".to_owned()),
    }
}

// ---------------------------------------------------------------------------------------------
// What was written is what is read
// ---------------------------------------------------------------------------------------------

proof fn lemma_four(v: int)
    requires
        0 <= v <= u32::MAX,
    ensures
        four_at(four(v), 0) == v,
{
}

proof fn lemma_two(v: int)
    requires
        0 <= v <= u16::MAX,
    ensures
        two_at(two(v), 0) == v,
{
}

proof fn lemma_sample(s: Seq<i16>, n: int, i: int)
    requires
        0 <= i < n <= s.len(),
    ensures
        sample_bytes(s, n).len() == n * 2,
        signed(two_at(sample_bytes(s, n), 2 * i)) == s[i],
    decreases n,
{
    lemma_bytes_len(s, n);
    lemma_bytes_len(s, n - 1);
    if i < n - 1 {
        lemma_sample(s, n - 1, i);
    }
}

/// What is written is what is read: the file of sound of one or two channels holds that sound.
pub proof fn files_hold_their_sound(sample_rate: u32, channels: u16, samples: Seq<i16>)
    requires
        channels == 1 || channels == 2,
        writable(sample_rate, channels, samples.len() as int),
    ensures
        contents(file(sample_rate, channels, samples)) == Ok::<PcmView, Seq<char>>(
            PcmView { sample_rate, channels, samples },
        ),
{
    let n = samples.len() as int;
    let h = header(sample_rate, channels, n * 2);
    let body = sample_bytes(samples, n);
    let b = file(sample_rate, channels, samples);
    lemma_bytes_len(samples, n);
    assert(h.len() == 44);
    assert forall|i: int| 0 <= i < 44 implies b[i] == h[i] by {}
    assert(b.subrange(0, 4) =~= riff());
    assert(b.subrange(8, 12) =~= wave());
    assert(b.subrange(12, 16) =~= fmt());
    assert(b.subrange(36, 40) =~= data());
    lemma_four(16);
    assert(four_at(b, 16) == 16);
    let nothing = Found { format: None, data: None };
    let f = format_at(b, 20);
    lemma_two(1);
    lemma_two(channels as int);
    lemma_four(sample_rate as int);
    lemma_two(16);
    lemma_four(n * 2);
    assert(two_at(b, 20) == 1);
    assert(two_at(b, 22) == channels);
    assert(four_at(b, 24) == sample_rate);
    assert(two_at(b, 34) == 16);
    assert(four_at(b, 40) == n * 2);
    assert(fmt() != data()) by {
        assert(fmt()[0] != data()[0]);
    }
    let one = Found { format: Some(f), data: None };
    let both = Found { format: Some(f), data: Some((44, b.len() as int)) };
    assert(scan(b, 36, one) == Ok::<Found, Seq<char>>(both));
    assert(scan(b, 12, nothing) == scan(b, 36, one));
    assert(samples_at(b, 44, n) =~= samples) by {
        assert forall|i: int| 0 <= i < n implies samples_at(b, 44, n)[i] == samples[i] by {
            lemma_sample(samples, n, i);
            assert(b[44 + 2 * i] == body[2 * i]);
            assert(b[44 + 2 * i + 1] == body[2 * i + 1]);
        }
    }
}

/// The head of a file tells how long the file is, how many bytes a second of it takes, and how many a
/// sample of all channels; the samples are two bytes each, the low one first, negative ones as their
/// complement.
pub proof fn heads_tell_of_their_files(sample_rate: u32, channels: u16, samples: Seq<i16>, i: int)
    requires
        writable(sample_rate, channels, samples.len() as int),
        0 <= i < samples.len(),
    ensures
        ({
            let b = file(sample_rate, channels, samples);
            &&& b.len() == 44 + 2 * samples.len()
            &&& four_at(b, 4) == b.len() - 8
            &&& four_at(b, 28) == sample_rate * (channels * 2)
            &&& two_at(b, 32) == channels * 2
            &&& four_at(b, 40) == b.len() - 44
            &&& two_at(b, 44 + 2 * i) == (if samples[i] < 0 {
                samples[i] + 65536
            } else {
                samples[i] as int
            })
        }),
{
    let n = samples.len() as int;
    let b = file(sample_rate, channels, samples);
    let h = header(sample_rate, channels, n * 2);
    let body = sample_bytes(samples, n);
    lemma_bytes_len(samples, n);
    assert forall|k: int| 0 <= k < 44 implies b[k] == h[k] by {}
    lemma_four(36 + n * 2);
    assert(0 <= sample_rate * (channels * 2)) by (nonlinear_arith);
    lemma_four(sample_rate * (channels * 2));
    lemma_two(channels * 2);
    lemma_four(n * 2);
    lemma_sample_word(samples, n, i);
    assert(b[44 + 2 * i] == body[2 * i]);
    assert(b[44 + 2 * i + 1] == body[2 * i + 1]);
}

proof fn lemma_sample_word(s: Seq<i16>, n: int, i: int)
    requires
        0 <= i < n <= s.len(),
    ensures
        sample_bytes(s, n).len() == n * 2,
        two_at(sample_bytes(s, n), 2 * i) == (if s[i] < 0 {
            s[i] + 65536
        } else {
            s[i] as int
        }),
    decreases n,
{
    lemma_bytes_len(s, n);
    lemma_bytes_len(s, n - 1);
    if i < n - 1 {
        lemma_sample_word(s, n - 1, i);
    }
}

/// Chunks that mean nothing here are passed over, with the byte that fills up those of odd length:
/// what is found behind one is what would be found if reading began there.
pub proof fn other_chunks_are_passed_over(b: Seq<u8>, pos: int, found: Found)
    requires
        0 <= pos,
        pos + 8 <= b.len(),
        b.subrange(pos, pos + 4) != fmt(),
        b.subrange(pos, pos + 4) != data(),
        pos + 8 + four_at(b, pos + 4) < b.len(),
    ensures
        ({
            let len = four_at(b, pos + 4);
            scan(b, pos, found) == scan(
                b,
                if len % 2 == 0 {
                    pos + 8 + len
                } else {
                    pos + 9 + len
                },
                found,
            )
        }),
{
}

/// Sound that says it goes on behind the end of its file is taken up to that end.
pub proof fn cut_files_give_what_they_have(b: Seq<u8>, pos: int, found: Found)
    requires
        0 <= pos,
        pos + 8 <= b.len(),
        b.subrange(pos, pos + 4) == data(),
        pos + 8 + four_at(b, pos + 4) >= b.len(),
    ensures
        scan(b, pos, found) == Ok::<Found, Seq<char>>(Found { data: Some((pos + 8, b.len() as int)), ..found }),
{
    assert(fmt()[0] != data()[0]);
}

/// Nothing but sound of sixteen bits and one or two channels is taken.
pub proof fn other_sound_is_refused(b: Seq<u8>)
    ensures
        contents(b) matches Ok(p) ==> (p.channels == 1 || p.channels == 2) && b.len() >= 12 && b.subrange(0, 4) == riff()
            && b.subrange(8, 12) == wave(),
        contents(b) is Ok ==> (scan(b, 12, Found { format: None, data: None }) matches Ok(f) && (f.format matches Some(x) && x.tag
            == 1 && x.bits == 16)),
{
}

} // verus!
