//! Pictures in and out of PNG.
//!
//! What is read was written by others, so each kind of picture either becomes RGB or is refused
//! with a reason.

use vstd::prelude::*;
use crate::text;
use crate::text::dec;

verus! {

/// A picture.
#[derive(Debug, Clone)]
pub struct Pixmap {
    pub width: usize,
    pub height: usize,
    /// Three bytes for each pixel, row by row.
    pub rgb: Vec<u8>,
}

/// How colours are stored.
#[derive(Debug, Clone, Copy, PartialEq, Eq, Structural)]
pub enum ColorType {
    Grayscale,
    Rgb,
    Indexed,
    GrayscaleAlpha,
    Rgba,
}

/// What the head of a PNG file says.
#[derive(Debug, Clone)]
pub struct Head {
    pub width: u32,
    pub height: u32,
    pub interlaced: bool,
    /// Bits of each sample.
    pub bits: u8,
    /// The number that stands for the colour type in a file.
    pub color: u8,
    pub palette: Option<Vec<u8>>,
}

/// What the head of a PNG file says.
pub struct HeadView {
    pub width: u32,
    pub height: u32,
    pub interlaced: bool,
    pub bits: u8,
    pub color: u8,
    pub palette: Option<Seq<u8>>,
}

impl View for Head {
    type V = HeadView;

    open spec fn view(&self) -> HeadView {
        HeadView {
            width: self.width,
            height: self.height,
            interlaced: self.interlaced,
            bits: self.bits,
            color: self.color,
            palette: match self.palette {
                Some(p) => Some(p@),
                None => None,
            },
        }
    }
}

/// The rows of a picture, one behind the other, as far as they could be read.
#[derive(Debug, Clone)]
pub struct Rows {
    pub data: Vec<u8>,
    /// The length of a row.
    pub line: usize,
    /// Why no more could be read.
    pub fault: Option<String>,
}

impl View for Rows {
    type V = (Seq<u8>, usize, Option<Seq<char>>);

    open spec fn view(&self) -> (Seq<u8>, usize, Option<Seq<char>>) {
        (self.data@, self.line, text::opt_view(self.fault))
    }
}

/// What `png` reads as the head of a file, or the message of its refusal.
pub uninterp spec fn png_head(bytes: Seq<u8>) -> Result<HeadView, Seq<char>>;

/// What `png` makes of the rows of a file in a buffer whose bytes were all `fill` before: the buffer,
/// the length of a row, and the message of what stopped it, if anything did; or the message of its
/// refusal to begin.
pub uninterp spec fn png_rows(bytes: Seq<u8>, fill: u8) -> Result<(Seq<u8>, usize, Option<Seq<char>>), Seq<char>>;

/// How much work goes into making a file small.
#[derive(Debug, Clone, Copy, PartialEq, Eq, Structural)]
pub enum Packing {
    Fast,
    Balanced,
}

/// How rows are prepared before they are packed.
#[derive(Debug, Clone, Copy, PartialEq, Eq, Structural)]
pub enum RowFilter {
    Off,
    Adaptive,
}

/// The file that `png` writes for a picture, or the message of its refusal.
pub uninterp spec fn png_file(
    width: u32,
    height: u32,
    rgb: Seq<u8>,
    packing: Packing,
    filter: RowFilter,
) -> Result<Seq<u8>, Seq<char>>;

/// The file of a picture as it is written here: packed quickly, its rows as they are. Screens have
/// large plain areas, on which more work gains little.
pub open spec fn screen_file(width: u32, height: u32, rgb: Seq<u8>) -> Result<Seq<u8>, Seq<char>> {
    png_file(width, height, rgb, Packing::Fast, RowFilter::Off)
}

/// The eight bytes that every PNG file begins with.
pub open spec fn signature() -> Seq<u8> {
    seq![0x89u8, 0x50, 0x4e, 0x47, 0x0d, 0x0a, 0x1a, 0x0a]
}

/// How many bytes `png` puts up with in a row when it reads.
pub const ROW_LIMIT: u32 = 67_108_864;

/// Whether `png` reads a file as a picture of eight bits of red, green and blue with these bytes.
pub open spec fn holds(bytes: Seq<u8>, width: u32, height: u32, rgb: Seq<u8>) -> bool {
    &&& png_head(bytes) == Ok::<HeadView, Seq<char>>(
        HeadView { width, height, interlaced: false, bits: 8, color: 2, palette: None },
    )
    &&& png_rows(bytes, 0) == Ok::<(Seq<u8>, usize, Option<Seq<char>>), Seq<char>>((rgb, (width * 3) as usize, None))
}

/// `png::Decoder::read_info` and the fields of its `Info`.
#[verifier::external_body]
fn read_head(bytes: &[u8]) -> (r: Result<Head, String>)
    ensures
        match r {
            Ok(h) => png_head(bytes@) == Ok::<HeadView, Seq<char>>(h@),
            Err(e) => png_head(bytes@) == Err::<HeadView, Seq<char>>(e@),
        },
{
    let reader = png::Decoder::new(std::io::Cursor::new(bytes)).read_info().map_err(|e| e.to_string())?;
    let i = reader.info();
    Ok(
        Head {
            width: i.width,
            height: i.height,
            interlaced: i.interlaced,
            bits: i.bit_depth as u8,
            color: i.color_type as u8,
            palette: i.palette.as_ref().map(|p| p.to_vec()),
        },
    )
}

/// `png::Reader::next_frame`, into a buffer filled with `fill`: the rows of the picture without any
/// conversion as far as they were read, how long each is, and what stopped it.
#[verifier::external_body]
fn read_rows(bytes: &[u8], fill: u8) -> (r: Result<Rows, String>)
    ensures
        match r {
            Ok(d) => png_rows(bytes@, fill) == Ok::<(Seq<u8>, usize, Option<Seq<char>>), Seq<char>>(d@),
            Err(e) => png_rows(bytes@, fill) == Err::<(Seq<u8>, usize, Option<Seq<char>>), Seq<char>>(e@),
        },
{
    let mut reader = png::Decoder::new(std::io::Cursor::new(bytes)).read_info().map_err(|e| e.to_string())?;
    let line = reader.output_line_size(reader.info().width).unwrap_or(0);
    let mut data = Vec::new();
    data.resize(reader.output_buffer_size().unwrap_or(0), fill);
    let fault = reader.next_frame(&mut data).err().map(|e| e.to_string());
    Ok(Rows { data, line, fault })
}

/// `png::Encoder`, for eight bits of red, green and blue, with the compression and the filter that
/// are asked for. The file begins with the signature; where a row is not too long to be read,
/// reading gives back what was written.
#[verifier::external_body]
fn write_file(width: u32, height: u32, rgb: &[u8], packing: Packing, filter: RowFilter) -> (r: Result<Vec<u8>, String>)
    requires
        width > 0,
        height > 0,
        rgb@.len() == width * height * 3,
    ensures
        match r {
            Ok(b) => png_file(width, height, rgb@, packing, filter) == Ok::<Seq<u8>, Seq<char>>(b@),
            Err(e) => png_file(width, height, rgb@, packing, filter) == Err::<Seq<u8>, Seq<char>>(e@),
        },
        r is Ok ==> r->Ok_0@.len() >= 8 && r->Ok_0@.take(8) == signature(),
        r is Ok && width * 3 <= ROW_LIMIT ==> holds(r->Ok_0@, width, height, rgb@),
{
    let mut bytes = Vec::new();
    let mut enc = png::Encoder::new(&mut bytes, width, height);
    enc.set_color(png::ColorType::Rgb);
    enc.set_depth(png::BitDepth::Eight);
    enc.set_compression(match packing { Packing::Fast => png::Compression::Fast, Packing::Balanced => png::Compression::Balanced });
    enc.set_filter(match filter { RowFilter::Off => png::Filter::NoFilter, RowFilter::Adaptive => png::Filter::Adaptive });
    let mut w = enc.write_header().map_err(|e| e.to_string())?;
    w.write_image_data(rgb).map_err(|e| e.to_string())?;
    w.finish().map_err(|e| e.to_string())?;
    Ok(bytes)
}

// ---------------------------------------------------------------------------------------------
// Writing
// ---------------------------------------------------------------------------------------------

/// Width and height, as they are told.
pub open spec fn size_words(w: int, h: int) -> Seq<char> {
    dec(w) + "x"@ + dec(h)
}

fn push_size(s: &mut String, w: usize, h: usize)
    ensures
        final(s)@ == old(s)@ + size_words(w as int, h as int),
{
    let ghost start = s@;
    text::push_dec(s, w as u64);
    s.append("x");
    text::push_dec(s, h as u64);
    assert(s@ =~= start + size_words(w as int, h as int));
}

/// Whether a picture can be written: it has pixels, and exactly the bytes for them.
pub open spec fn fits(w: int, h: int, len: int) -> bool {
    w > 0 && h > 0 && len == w * h * 3 && w <= u32::MAX && h <= u32::MAX
}

/// Why a picture is not written.
pub open spec fn misfit(w: int, h: int, len: int) -> Seq<char> {
    if w == 0 || h == 0 {
        "空图像 "@ + size_words(w, h)
    } else {
        "像素缓冲 "@ + dec(len) + " 字节，不匹配 "@ + size_words(w, h)
    }
}

/// The PNG file of a picture.
pub fn encode(width: usize, height: usize, rgb: &[u8]) -> (r: Result<Vec<u8>, String>)
    ensures
        !fits(width as int, height as int, rgb@.len() as int) ==> (r matches Err(e) && e@ == misfit(
            width as int,
            height as int,
            rgb@.len() as int,
        )),
        fits(width as int, height as int, rgb@.len() as int) ==> match r {
            Ok(b) => screen_file(width as u32, height as u32, rgb@) == Ok::<Seq<u8>, Seq<char>>(b@),
            Err(e) => screen_file(width as u32, height as u32, rgb@) == Err::<Seq<u8>, Seq<char>>(e@),
        },
        r matches Ok(b) ==> b@.len() >= 8 && b@.take(8) == signature(),
        r is Ok && width * 3 <= ROW_LIMIT ==> unpacked(r->Ok_0@, (width, height, rgb@)),
{
    if width == 0 || height == 0 {
        let mut s = "空图像 ".to_owned();
        push_size(&mut s, width, height);
        return Err(s);
    }
    let mut ok = width <= 0xffff_ffff && height <= 0xffff_ffff;
    if ok {
        proof {
            assert(0 <= width * height * 3 <= 0xffff_ffff * 0xffff_ffff * 3) by (nonlinear_arith)
                requires
                    0 <= width <= 0xffff_ffff,
                    0 <= height <= 0xffff_ffff,
            ;
            assert(0 <= width * height <= 0xffff_ffff * 0xffff_ffff) by (nonlinear_arith)
                requires
                    0 <= width <= 0xffff_ffff,
                    0 <= height <= 0xffff_ffff,
            ;
        }
        let area: u128 = width as u128 * height as u128;
        ok = rgb.len() as u128 == area * 3;
    }
    if !ok {
        let mut s = "像素缓冲 ".to_owned();
        text::push_dec(&mut s, rgb.len() as u64);
        s.append(" 字节，不匹配 ");
        push_size(&mut s, width, height);
        return Err(s);
    }
    let r = write_file(width as u32, height as u32, rgb, Packing::Fast, RowFilter::Off);
    proof {
        if r is Ok && width * 3 <= ROW_LIMIT {
            lemma_plain_rows(rgb@, width as int, height as int);
        }
    }
    r
}

// ---------------------------------------------------------------------------------------------
// Reading
// ---------------------------------------------------------------------------------------------

/// The colour type that a number in a file stands for.
pub open spec fn color_of(n: u8) -> Option<ColorType> {
    if n == 0 {
        Some(ColorType::Grayscale)
    } else if n == 2 {
        Some(ColorType::Rgb)
    } else if n == 3 {
        Some(ColorType::Indexed)
    } else if n == 4 {
        Some(ColorType::GrayscaleAlpha)
    } else if n == 6 {
        Some(ColorType::Rgba)
    } else {
        None
    }
}

/// The name of a colour type.
pub open spec fn color_word(c: ColorType) -> Seq<char> {
    match c {
        ColorType::Grayscale => "Grayscale"@,
        ColorType::Rgb => "Rgb"@,
        ColorType::Indexed => "Indexed"@,
        ColorType::GrayscaleAlpha => "GrayscaleAlpha"@,
        ColorType::Rgba => "Rgba"@,
    }
}

fn color_name(c: ColorType) -> (r: &'static str)
    ensures
        r@ == color_word(c),
{
    match c {
        ColorType::Grayscale => "Grayscale",
        ColorType::Rgb => "Rgb",
        ColorType::Indexed => "Indexed",
        ColorType::GrayscaleAlpha => "GrayscaleAlpha",
        ColorType::Rgba => "Rgba",
    }
}

/// The name of a number of bits.
pub open spec fn depth_word(bits: u8) -> Seq<char> {
    if bits == 1 {
        "One"@
    } else if bits == 2 {
        "Two"@
    } else if bits == 4 {
        "Four"@
    } else if bits == 8 {
        "Eight"@
    } else {
        "Sixteen"@
    }
}

/// How many bytes a pixel takes with eight bits for each sample.
pub open spec fn pixel_bytes(c: ColorType) -> int {
    match c {
        ColorType::Grayscale => 1,
        ColorType::Rgb => 3,
        ColorType::Indexed => 1,
        ColorType::GrayscaleAlpha => 2,
        ColorType::Rgba => 4,
    }
}

/// Byte `k` of the red, green and blue of a pixel at `at`.
pub open spec fn sample(row: Seq<u8>, at: int, c: ColorType, palette: Seq<u8>, k: int) -> u8 {
    match c {
        ColorType::Grayscale => row[at],
        ColorType::Rgb => row[at + k],
        ColorType::Indexed => palette[row[at] * 3 + k],
        ColorType::GrayscaleAlpha => row[at],
        ColorType::Rgba => row[at + k],
    }
}

/// The first `n` pixels of a row as red, green and blue.
pub open spec fn expanded(row: Seq<u8>, n: int, c: ColorType, palette: Seq<u8>) -> Seq<u8>
    decreases n,
{
    if n <= 0 {
        Seq::empty()
    } else {
        let at = (n - 1) * pixel_bytes(c);
        expanded(row, n - 1, c, palette).push(sample(row, at, c, palette, 0)).push(sample(row, at, c, palette, 1)).push(
            sample(row, at, c, palette, 2),
        )
    }
}

/// Whether an index has no colour in a palette.
pub open spec fn off_palette(row: Seq<u8>, palette: Seq<u8>, i: int) -> bool {
    row[i] * 3 + 2 >= palette.len()
}

/// The first index of a row that has no colour in the palette, or the length of the row.
pub open spec fn first_off(row: Seq<u8>, palette: Seq<u8>, i: int) -> int
    decreases row.len() - i,
{
    if i >= row.len() || off_palette(row, palette, i) {
        i
    } else {
        first_off(row, palette, i + 1)
    }
}

/// The colours of a palette, none where there is none.
pub open spec fn colors(palette: Option<Seq<u8>>) -> Seq<u8> {
    match palette {
        Some(p) => p,
        None => Seq::empty(),
    }
}

/// What is wrong with a row, if anything is.
pub open spec fn row_fault(row: Seq<u8>, bpp: int, c: ColorType, palette: Option<Seq<u8>>) -> Option<Seq<char>> {
    if bpp != pixel_bytes(c) {
        Some("颜色类型 "@ + color_word(c) + "（"@ + dec(bpp) + " 字节/像素）不支持"@)
    } else if c == ColorType::Indexed && palette is None {
        Some("调色板 PNG 但没带 PLTE 块"@)
    } else if c == ColorType::Indexed && first_off(row, colors(palette), 0) < row.len() {
        Some(
            "调色板索引 "@ + dec(row[first_off(row, colors(palette), 0)] as int) + " 越界（PLTE 只有 "@ + dec(
                colors(palette).len() as int / 3,
            ) + " 项）"@,
        )
    } else {
        None
    }
}

/// What a palette holds.
pub open spec fn palette_view(p: Option<&Vec<u8>>) -> Option<Seq<u8>> {
    match p {
        Some(v) => Some(v@),
        None => None,
    }
}

proof fn lemma_first_off(row: Seq<u8>, palette: Seq<u8>, i: int, n: int)
    requires
        0 <= i <= n <= row.len(),
        forall|j: int| i <= j < n ==> !#[trigger] off_palette(row, palette, j),
    ensures
        first_off(row, palette, i) == first_off(row, palette, n),
    decreases n - i,
{
    if i < n {
        assert(!off_palette(row, palette, i));
        lemma_first_off(row, palette, i + 1, n);
    }
}

/// Appends a row as red, green and blue. Bytes at the end that make no pixel are left out.
pub fn expand_row(out: &mut Vec<u8>, row: &[u8], bpp: usize, ct: ColorType, palette: Option<&Vec<u8>>) -> (r: Result<(), String>)
    ensures
        match row_fault(row@, bpp as int, ct, palette_view(palette)) {
            Some(e) => r matches Err(s) && s@ == e,
            None => r is Ok && final(out)@ == old(out)@ + expanded(
                row@,
                row@.len() as int / pixel_bytes(ct),
                ct,
                colors(palette_view(palette)),
            ),
        },
        r is Err ==> old(out)@.is_prefix_of(final(out)@),
{
    let step: usize = match ct {
        ColorType::Grayscale => 1,
        ColorType::Rgb => 3,
        ColorType::Indexed => 1,
        ColorType::GrayscaleAlpha => 2,
        ColorType::Rgba => 4,
    };
    let ghost start = out@;
    if bpp != step {
        let mut s = "颜色类型 ".to_owned();
        s.append(color_name(ct));
        s.append("（");
        text::push_dec(&mut s, bpp as u64);
        s.append(" 字节/像素）不支持");
        return Err(s);
    }
    let none: Vec<u8> = Vec::new();
    let pal: &Vec<u8> = match palette {
        Some(p) => p,
        None => {
            if ct == ColorType::Indexed {
                return Err("调色板 PNG 但没带 PLTE 块".to_owned());
            }
            &none
        },
    };
    let ghost p = colors(palette_view(palette));
    assert(pal@ =~= p);
    let n: usize = row.len() / step;
    let len: usize = row.len();
    let mut i: usize = 0;
    assert(out@ =~= start + expanded(row@, 0, ct, p));
    while i < n
        invariant
            i <= n,
            n == len / step,
            len == row@.len(),
            step == pixel_bytes(ct),
            bpp == step,
            pal@ == p,
            p == colors(palette_view(palette)),
            ct == ColorType::Indexed ==> palette is Some,
            ct == ColorType::Indexed ==> forall|j: int| 0 <= j < i ==> !#[trigger] off_palette(row@, p, j),
            out@ == start + expanded(row@, i as int, ct, p),
            start == old(out)@,
        decreases n - i,
    {
        proof {
            assert(i * step + step <= len) by (nonlinear_arith)
                requires
                    i + 1 <= n,
                    n == len / step,
                    step >= 1,
            ;
            assert(i * step >= 0) by (nonlinear_arith);
        }
        let at: usize = i * step;
        let (a, b, c): (u8, u8, u8) = match ct {
            ColorType::Grayscale => (row[at], row[at], row[at]),
            ColorType::Rgb => (row[at], row[at + 1], row[at + 2]),
            ColorType::Indexed => {
                let s: usize = row[at] as usize * 3;
                if s + 2 >= pal.len() {
                    proof {
                        assert(i * 1 == i);
                        assert(off_palette(row@, p, i as int));
                        lemma_first_off(row@, p, 0, i as int);
                    }
                    let mut e = "调色板索引 ".to_owned();
                    text::push_dec(&mut e, row[at] as u64);
                    e.append(" 越界（PLTE 只有 ");
                    text::push_dec(&mut e, (pal.len() / 3) as u64);
                    e.append(" 项）");
                    return Err(e);
                }
                assert(i * 1 == i);
                (pal[s], pal[s + 1], pal[s + 2])
            },
            ColorType::GrayscaleAlpha => (row[at], row[at], row[at]),
            ColorType::Rgba => (row[at], row[at + 1], row[at + 2]),
        };
        let ghost before = out@;
        out.push(a);
        out.push(b);
        out.push(c);
        i += 1;
        proof {
            assert(out@ =~= start + expanded(row@, i as int, ct, p));
        }
    }
    proof {
        if ct == ColorType::Indexed {
            assert(n == len);
            lemma_first_off(row@, p, 0, len as int);
        }
    }
    Ok(())
}

/// Row `y` of rows of `line` bytes.
pub open spec fn row_of(data: Seq<u8>, line: int, y: int) -> Seq<u8> {
    data.subrange(y * line, y * line + line)
}

/// The first `n` rows as red, green and blue.
pub open spec fn rows_expanded(data: Seq<u8>, line: int, n: int, c: ColorType, palette: Seq<u8>) -> Seq<u8>
    decreases n,
{
    if n <= 0 {
        Seq::empty()
    } else {
        rows_expanded(data, line, n - 1, c, palette) + expanded(
            row_of(data, line, n - 1),
            line / pixel_bytes(c),
            c,
            palette,
        )
    }
}

/// The first row that something is wrong with, or `n`.
pub open spec fn first_fault(data: Seq<u8>, line: int, n: int, bpp: int, c: ColorType, palette: Option<Seq<u8>>, y: int) -> int
    decreases n - y,
{
    if y >= n || row_fault(row_of(data, line, y), bpp, c, palette) is Some {
        y
    } else {
        first_fault(data, line, n, bpp, c, palette, y + 1)
    }
}

/// What is wrong with the head of a file, if anything is.
pub open spec fn head_fault(h: HeadView) -> Option<Seq<char>> {
    if h.width == 0 || h.height == 0 {
        Some("PNG 声明的尺寸是 0"@)
    } else if h.interlaced {
        Some("不支持隔行（Adam7）PNG：请让导出方存非隔行"@)
    } else if h.bits != 8 {
        Some("只支持 8 bit/通道，这张是 "@ + depth_word(h.bits))
    } else {
        None
    }
}

/// How many rows of `line` bytes there are in so many bytes.
pub open spec fn row_count(len: int, line: int) -> int {
    if line == 0 {
        0
    } else {
        len / line
    }
}

/// What is wrong with one of the first `n` rows of a file, if anything is: it does not divide into
/// pixels, or it cannot be expanded.
pub open spec fn early_fault(h: HeadView, data: Seq<u8>, line: int, n: int) -> Option<Seq<char>> {
    let w = h.width as int;
    match color_of(h.color) {
        None => Some("颜色类型不支持"@),
        Some(c) => {
            let bad = first_fault(data, line, n, line / w, c, h.palette, 0);
            if n > 0 && line % w != 0 {
                Some("行长度 "@ + dec(line) + " 不能被宽度 "@ + dec(w) + " 整除"@)
            } else if bad < n {
                row_fault(row_of(data, line, bad), line / w, c, h.palette)
            } else {
                None
            }
        },
    }
}

/// What is wrong with the rows of a file, if anything is: something is wrong with one of them, or
/// there is another number of rows than the head says.
pub open spec fn rows_fault(h: HeadView, data: Seq<u8>, line: int) -> Option<Seq<char>> {
    let n = row_count(data.len() as int, line);
    if early_fault(h, data, line, n) is Some {
        early_fault(h, data, line, n)
    } else if n != h.height {
        Some("只解出 "@ + dec(n) + " 行，声明有 "@ + dec(h.height as int) + " 行"@)
    } else {
        None
    }
}

/// The first of `n` rows in which two buffers differ, from row `y` on, or `n`.
pub open spec fn first_differing(a: Seq<u8>, b: Seq<u8>, line: int, n: int, y: int) -> int
    decreases n - y,
{
    if y >= n || row_of(a, line, y) != row_of(b, line, y) {
        y
    } else {
        first_differing(a, b, line, n, y + 1)
    }
}

/// How many rows two buffers have in common before they differ.
pub open spec fn common_rows(a: Seq<u8>, b: Seq<u8>, line: int) -> int {
    if a.len() != b.len() {
        0
    } else {
        first_differing(a, b, line, row_count(a.len() as int, line), 0)
    }
}

/// Why a file is refused whose rows could not all be read. The rows before the damage come first.
/// Rows are written one after the other, and the rest of the buffer is left as it was: so they are
/// those that come out the same whatever was in the buffer before.
pub open spec fn damage(bytes: Seq<u8>, h: HeadView, data: Seq<u8>, line: int, fault: Seq<char>) -> Seq<char> {
    let n = match png_rows(bytes, 255) {
        Ok(d) => common_rows(data, d.0, line),
        Err(_) => 0,
    };
    match early_fault(h, data, line, n) {
        Some(e) => e,
        None => "解码失败："@ + fault,
    }
}

/// Whether a file holds this picture.
pub open spec fn unpacked(bytes: Seq<u8>, p: (usize, usize, Seq<u8>)) -> bool {
    &&& png_head(bytes) matches Ok(h)
    &&& head_fault(h) is None
    &&& p.0 == h.width
    &&& p.1 == h.height
    &&& png_rows(bytes, 0) matches Ok(d)
    &&& d.2 is None
    &&& rows_fault(h, d.0, d.1 as int) is None
    &&& color_of(h.color) matches Some(c)
    &&& p.2 == rows_expanded(d.0, d.1 as int, h.height as int, c, colors(h.palette))
}

/// Why a file is refused.
pub open spec fn is_refusal(bytes: Seq<u8>, e: Seq<char>) -> bool {
    match png_head(bytes) {
        Err(m) => e == "不是合法 PNG："@ + m,
        Ok(h) => match head_fault(h) {
            Some(m) => e == m,
            None => match png_rows(bytes, 0) {
                Err(m) => e == "解码失败："@ + m,
                Ok(d) => match d.2 {
                    Some(m) => e == damage(bytes, h, d.0, d.1 as int, m),
                    None => rows_fault(h, d.0, d.1 as int) == Some(e),
                },
            },
        },
    }
}

fn color_from(n: u8) -> (r: Option<ColorType>)
    ensures
        r == color_of(n),
{
    if n == 0 {
        Some(ColorType::Grayscale)
    } else if n == 2 {
        Some(ColorType::Rgb)
    } else if n == 3 {
        Some(ColorType::Indexed)
    } else if n == 4 {
        Some(ColorType::GrayscaleAlpha)
    } else if n == 6 {
        Some(ColorType::Rgba)
    } else {
        None
    }
}

proof fn lemma_first_fault(data: Seq<u8>, line: int, n: int, bpp: int, c: ColorType, palette: Option<Seq<u8>>, y: int, m: int)
    requires
        0 <= y <= m <= n,
        forall|j: int| y <= j < m ==> row_fault(#[trigger] row_of(data, line, j), bpp, c, palette) is None,
    ensures
        first_fault(data, line, n, bpp, c, palette, y) == first_fault(data, line, n, bpp, c, palette, m),
    decreases m - y,
{
    if y < m {
        assert(row_fault(row_of(data, line, y), bpp, c, palette) is None);
        lemma_first_fault(data, line, n, bpp, c, palette, y + 1, m);
    }
}

/// A part of a list.
fn part(data: &[u8], from: usize, len: usize) -> (r: Vec<u8>)
    requires
        from + len <= data@.len(),
    ensures
        r@ == data@.subrange(from as int, from + len),
{
    let mut v: Vec<u8> = Vec::new();
    let mut i: usize = 0;
    let all: usize = data.len();
    while i < len
        invariant
            i <= len,
            from + len <= all == data@.len(),
            v@ == data@.subrange(from as int, from + i),
        decreases len - i,
    {
        v.push(data[from + i]);
        i += 1;
        assert(v@ =~= data@.subrange(from as int, from + i));
    }
    v
}

/// How many rows of `line` bytes there are in so many bytes.
fn count_rows(len: usize, line: usize) -> (r: usize)
    ensures
        r == row_count(len as int, line as int),
{
    if line == 0 {
        0
    } else {
        len / line
    }
}

/// How many rows two buffers have in common before they differ.
fn count_common(a: &[u8], b: &[u8], line: usize) -> (r: usize)
    ensures
        r == common_rows(a@, b@, line as int),
        r <= row_count(a@.len() as int, line as int),
{
    if a.len() != b.len() {
        return 0;
    }
    let n: usize = count_rows(a.len(), line);
    let len: usize = a.len();
    let mut y: usize = 0;
    while y < n
        invariant
            y <= n,
            n == row_count(len as int, line as int),
            len == a@.len(),
            len == b@.len(),
            first_differing(a@, b@, line as int, n as int, 0) == first_differing(
                a@,
                b@,
                line as int,
                n as int,
                y as int,
            ),
        decreases n - y,
    {
        proof {
            assert(y * line + line <= len) by (nonlinear_arith)
                requires
                    y + 1 <= n,
                    n == len as int / line as int,
                    line > 0,
            ;
            assert(y * line >= 0) by (nonlinear_arith);
        }
        let at: usize = y * line;
        let mut i: usize = 0;
        let mut alike = true;
        while i < line && alike
            invariant
                i <= line,
                at + line <= len,
                len == a@.len(),
                len == b@.len(),
                at == y * line,
                alike ==> forall|k: int| 0 <= k < i ==> a@[at + k] == #[trigger] b@[at + k],
                !alike ==> exists|k: int| 0 <= k < line && a@[at + k] != #[trigger] b@[at + k],
            decreases line - i + (if alike { 1int } else { 0int }),
        {
            if a[at + i] == b[at + i] {
                i += 1;
            } else {
                alike = false;
                assert(a@[at + i] != b@[at + i]);
            }
        }
        proof {
            let p = row_of(a@, line as int, y as int);
            let q = row_of(b@, line as int, y as int);
            if alike {
                assert forall|k: int| 0 <= k < line implies p[k] == q[k] by {
                    assert(a@[at + k] == b@[at + k]);
                }
                assert(p =~= q);
            } else {
                let k = choose|k: int| 0 <= k < line && a@[at + k] != #[trigger] b@[at + k];
                assert(p[k] == a@[at + k] && q[k] == b@[at + k]);
            }
        }
        if !alike {
            return y;
        }
        y += 1;
    }
    n
}

/// The picture that the first `n` rows of a file make.
fn expand_rows(h: &Head, data: &[u8], line: usize, n: usize) -> (r: Result<Vec<u8>, String>)
    requires
        h.width > 0,
        n <= row_count(data@.len() as int, line as int),
    ensures
        match early_fault(h@, data@, line as int, n as int) {
            Some(e) => r matches Err(s) && s@ == e,
            None => {
                &&& color_of(h.color) matches Some(c)
                &&& r matches Ok(v)
                &&& v@ == rows_expanded(data@, line as int, n as int, c, colors(h@.palette))
            },
        },
{
    let c = match color_from(h.color) {
        Some(c) => c,
        None => {
            return Err("颜色类型不支持".to_owned());
        },
    };
    let w: usize = h.width as usize;
    if n > 0 && line % w != 0 {
        let mut s = "行长度 ".to_owned();
        text::push_dec(&mut s, line as u64);
        s.append(" 不能被宽度 ");
        text::push_dec(&mut s, w as u64);
        s.append(" 整除");
        return Err(s);
    }
    let bpp: usize = line / w;
    let len: usize = data.len();
    let pal = h.palette.as_ref();
    assert(palette_view(pal) == h@.palette);
    let mut out: Vec<u8> = Vec::new();
    let mut y: usize = 0;
    assert(out@ =~= rows_expanded(data@, line as int, 0, c, colors(h@.palette)));
    while y < n
        invariant
            y <= n,
            w > 0,
            n <= row_count(len as int, line as int),
            len == data@.len(),
            bpp == line / w,
            palette_view(pal) == h@.palette,
            out@ == rows_expanded(data@, line as int, y as int, c, colors(h@.palette)),
            forall|j: int|
                0 <= j < y ==> row_fault(#[trigger] row_of(data@, line as int, j), bpp as int, c, h@.palette) is None,
            h.width == w,
            color_of(h.color) == Some(c),
            n > 0 ==> line % w == 0,
        decreases n - y,
    {
        proof {
            assert(y * line + line <= len) by (nonlinear_arith)
                requires
                    y + 1 <= n,
                    n <= len as int / line as int,
                    line > 0,
            ;
            assert(y * line >= 0) by (nonlinear_arith);
        }
        let row = part(data, y * line, line);
        let ghost before = out@;
        match expand_row(&mut out, row.as_slice(), bpp, c, pal) {
            Err(e) => {
                proof {
                    lemma_first_fault(data@, line as int, n as int, bpp as int, c, h@.palette, 0, y as int);
                }
                return Err(e);
            },
            Ok(_) => {},
        }
        y += 1;
        assert(out@ =~= rows_expanded(data@, line as int, y as int, c, colors(h@.palette)));
    }
    proof {
        lemma_first_fault(data@, line as int, n as int, bpp as int, c, h@.palette, 0, n as int);
    }
    Ok(out)
}

/// The picture that the rows of a file make, whatever they are.
pub fn assemble(h: &Head, data: &[u8], line: usize) -> (r: Result<Vec<u8>, String>)
    requires
        h.width > 0,
    ensures
        match rows_fault(h@, data@, line as int) {
            Some(e) => r matches Err(s) && s@ == e,
            None => {
                &&& color_of(h.color) matches Some(c)
                &&& r matches Ok(v)
                &&& v@ == rows_expanded(data@, line as int, h.height as int, c, colors(h@.palette))
            },
        },
{
    let n: usize = count_rows(data.len(), line);
    let out = match expand_rows(h, data, line, n) {
        Ok(v) => v,
        Err(e) => {
            return Err(e);
        },
    };
    if n != h.height as usize {
        let mut s = "只解出 ".to_owned();
        text::push_dec(&mut s, n as u64);
        s.append(" 行，声明有 ");
        text::push_dec(&mut s, h.height as u64);
        s.append(" 行");
        return Err(s);
    }
    Ok(out)
}

/// What is wrong with the head of a file, if anything is.
pub fn check_head(h: &Head) -> (r: Option<String>)
    ensures
        text::opt_view(r) == head_fault(h@),
{
    if h.width == 0 || h.height == 0 {
        return Some("PNG 声明的尺寸是 0".to_owned());
    }
    if h.interlaced {
        return Some("不支持隔行（Adam7）PNG：请让导出方存非隔行".to_owned());
    }
    if h.bits != 8 {
        let mut s = "只支持 8 bit/通道，这张是 ".to_owned();
        if h.bits == 1 {
            s.append("One");
        } else if h.bits == 2 {
            s.append("Two");
        } else if h.bits == 4 {
            s.append("Four");
        } else {
            s.append("Sixteen");
        }
        return Some(s);
    }
    None
}

/// The picture that a PNG file holds, as RGB, or why it is refused.
pub fn decode(bytes: &[u8]) -> (r: Result<Pixmap, String>)
    ensures
        match r {
            Ok(p) => unpacked(bytes@, (p.width, p.height, p.rgb@)),
            Err(e) => is_refusal(bytes@, e@),
        },
{
    let h = match read_head(bytes) {
        Ok(h) => h,
        Err(e) => {
            let mut s = "不是合法 PNG：".to_owned();
            s.append(e.as_str());
            return Err(s);
        },
    };
    match check_head(&h) {
        Some(e) => {
            return Err(e);
        },
        None => {},
    }
    let rows = match read_rows(bytes, 0) {
        Ok(d) => d,
        Err(e) => {
            let mut s = "解码失败：".to_owned();
            s.append(e.as_str());
            return Err(s);
        },
    };
    match &rows.fault {
        Some(m) => {
            let n: usize = match read_rows(bytes, 255) {
                Ok(d) => count_common(rows.data.as_slice(), d.data.as_slice(), rows.line),
                Err(_) => 0,
            };
            return match expand_rows(&h, rows.data.as_slice(), rows.line, n) {
                Err(e) => Err(e),
                Ok(_) => {
                    let mut s = "解码失败：".to_owned();
                    s.append(m.as_str());
                    Err(s)
                },
            };
        },
        None => {},
    }
    match assemble(&h, rows.data.as_slice(), rows.line) {
        Ok(rgb) => Ok(Pixmap { width: h.width as usize, height: h.height as usize, rgb }),
        Err(e) => Err(e),
    }
}

// ---------------------------------------------------------------------------------------------
// What holds of every picture
// ---------------------------------------------------------------------------------------------

proof fn lemma_expanded_plain(row: Seq<u8>, n: int, palette: Seq<u8>)
    requires
        0 <= n,
        n * 3 <= row.len(),
    ensures
        expanded(row, n, ColorType::Rgb, palette) == row.take(n * 3),
    decreases n,
{
    if n > 0 {
        lemma_expanded_plain(row, n - 1, palette);
        assert(expanded(row, n, ColorType::Rgb, palette) =~= row.take(n * 3));
    } else {
        assert(expanded(row, n, ColorType::Rgb, palette) =~= row.take(0));
    }
}

proof fn lemma_rows_plain(data: Seq<u8>, w: int, n: int, palette: Seq<u8>)
    requires
        w > 0,
        0 <= n,
        n * (w * 3) <= data.len(),
    ensures
        rows_expanded(data, w * 3, n, ColorType::Rgb, palette) == data.take(n * (w * 3)),
    decreases n,
{
    let line = w * 3;
    if n > 0 {
        assert(n * line == (n - 1) * line + line && (n - 1) * line >= 0) by (nonlinear_arith)
            requires
                n >= 1,
                line > 0,
        ;
        lemma_rows_plain(data, w, n - 1, palette);
        lemma_expanded_plain(row_of(data, line, n - 1), w, palette);
        assert(line / 3 == w);
        assert(rows_expanded(data, line, n, ColorType::Rgb, palette) =~= data.take(n * line));
    } else {
        assert(n * line == 0) by (nonlinear_arith)
            requires
                n == 0,
        ;
        assert(rows_expanded(data, line, n, ColorType::Rgb, palette) =~= data.take(0));
    }
}

proof fn lemma_no_fault(data: Seq<u8>, line: int, n: int, y: int)
    requires
        0 <= y <= n,
    ensures
        first_fault(data, line, n, 3, ColorType::Rgb, None, y) == n,
    decreases n - y,
{
    if y < n {
        lemma_no_fault(data, line, n, y + 1);
    }
}

proof fn lemma_plain_rows(rgb: Seq<u8>, w: int, h: int)
    requires
        0 < w <= u32::MAX,
        0 < h <= u32::MAX,
        rgb.len() == w * h * 3,
    ensures
        rows_fault(
            HeadView { width: w as u32, height: h as u32, interlaced: false, bits: 8, color: 2, palette: None },
            rgb,
            w * 3,
        ) is None,
        rows_expanded(rgb, w * 3, h, ColorType::Rgb, Seq::empty()) == rgb,
{
    let line = w * 3;
    assert(h * line == w * h * 3) by (nonlinear_arith)
        requires
            line == w * 3,
    ;
    assert(rgb.len() as int / line == h) by {
        vstd::arithmetic::div_mod::lemma_fundamental_div_mod_converse(rgb.len() as int, line, h, 0);
    }
    assert(line / w == 3 && line % w == 0) by {
        assert(line == 3 * w + 0);
        vstd::arithmetic::div_mod::lemma_fundamental_div_mod_converse(line, w, 3, 0);
    }
    lemma_no_fault(rgb, line, h, 0);
    lemma_rows_plain(rgb, w, h, Seq::empty());
    assert(rgb.take(h * line) =~= rgb);
}

proof fn lemma_expanded_len(row: Seq<u8>, n: int, c: ColorType, palette: Seq<u8>)
    requires
        0 <= n,
    ensures
        expanded(row, n, c, palette).len() == n * 3,
    decreases n,
{
    if n > 0 {
        lemma_expanded_len(row, n - 1, c, palette);
    }
}

proof fn lemma_rows_len(data: Seq<u8>, line: int, n: int, c: ColorType, palette: Seq<u8>)
    requires
        0 <= n,
        0 <= line,
    ensures
        rows_expanded(data, line, n, c, palette).len() == n * (line / pixel_bytes(c) * 3),
    decreases n,
{
    let k = line / pixel_bytes(c);
    if n > 0 {
        lemma_rows_len(data, line, n - 1, c, palette);
        lemma_expanded_len(row_of(data, line, n - 1), k, c, palette);
        assert(n * (k * 3) == (n - 1) * (k * 3) + k * 3) by (nonlinear_arith);
    } else {
        assert(n * (k * 3) == 0) by (nonlinear_arith)
            requires
                n == 0,
        ;
    }
}

proof fn lemma_first_fault_bound(data: Seq<u8>, line: int, n: int, bpp: int, c: ColorType, palette: Option<Seq<u8>>, y: int)
    requires
        0 <= y <= n,
    ensures
        ({
            let bad = first_fault(data, line, n, bpp, c, palette, y);
            bad < n ==> row_fault(row_of(data, line, bad), bpp, c, palette) is Some
        }),
    decreases n - y,
{
    if y < n && row_fault(row_of(data, line, y), bpp, c, palette) is None {
        lemma_first_fault_bound(data, line, n, bpp, c, palette, y + 1);
    }
}

/// A file holds at most one picture, and one that holds a picture is not refused. So what was
/// written is what is read.
pub proof fn files_hold_one_picture(bytes: Seq<u8>, p: (usize, usize, Seq<u8>), q: (usize, usize, Seq<u8>), e: Seq<char>)
    requires
        unpacked(bytes, p),
    ensures
        unpacked(bytes, q) ==> p == q,
        !is_refusal(bytes, e),
{
}

/// A picture that was read has three bytes for each of its pixels.
pub proof fn pictures_are_whole(bytes: Seq<u8>, p: (usize, usize, Seq<u8>))
    requires
        unpacked(bytes, p),
    ensures
        p.0 > 0,
        p.1 > 0,
        p.2.len() == p.0 * p.1 * 3,
{
    let h = png_head(bytes)->Ok_0;
    let d = png_rows(bytes, 0)->Ok_0;
    let c = color_of(h.color)->0;
    let line = d.1 as int;
    let w = h.width as int;
    let n = h.height as int;
    assert(line > 0);
    lemma_first_fault_bound(d.0, line, n, line / w, c, h.palette, 0);
    lemma_rows_len(d.0, line, n, c, colors(h.palette));
    let k = pixel_bytes(c);
    assert(line == k * w) by {
        vstd::arithmetic::div_mod::lemma_fundamental_div_mod(line, w);
        assert(w * (line / w) == (line / w) * w) by (nonlinear_arith);
    }
    assert(line / k == w) by {
        assert(line == w * k) by (nonlinear_arith)
            requires
                line == k * w,
        ;
        vstd::arithmetic::div_mod::lemma_fundamental_div_mod_converse(line, k, w, 0);
    }
    assert(n * (w * 3) == w * n * 3) by (nonlinear_arith);
}

/// Every pixel becomes its colour, in its place: colours stay as they are, alpha goes, gray is red,
/// green and blue alike, and an index stands for its colour in the palette.
pub proof fn pixels_become_colours(row: Seq<u8>, n: int, c: ColorType, palette: Seq<u8>, i: int, k: int)
    requires
        0 <= i < n,
        0 <= k < 3,
    ensures
        expanded(row, n, c, palette).len() == n * 3,
        expanded(row, n, c, palette)[i * 3 + k] == (match c {
            ColorType::Grayscale => row[i],
            ColorType::Rgb => row[i * 3 + k],
            ColorType::Indexed => palette[row[i] * 3 + k],
            ColorType::GrayscaleAlpha => row[i * 2],
            ColorType::Rgba => row[i * 4 + k],
        }),
    decreases n,
{
    lemma_expanded_len(row, n, c, palette);
    lemma_expanded_len(row, n - 1, c, palette);
    if i < n - 1 {
        pixels_become_colours(row, n - 1, c, palette, i, k);
    }
}

/// A head is taken exactly where it has pixels, comes row by row, and has eight bits for each sample.
pub proof fn plain_heads_are_taken(h: HeadView)
    ensures
        head_fault(h) is None <==> h.width > 0 && h.height > 0 && !h.interlaced && h.bits == 8,
{
}

/// Rows come one behind the other, each with its own colours: row `y` of what comes out is row `y` of the
/// file.
pub proof fn rows_keep_their_order(data: Seq<u8>, line: int, n: int, c: ColorType, palette: Seq<u8>, y: int)
    requires
        0 <= y < n,
        0 <= line,
    ensures
        ({
            let k = line / pixel_bytes(c) * 3;
            &&& rows_expanded(data, line, n, c, palette).len() == n * k
            &&& 0 <= y * k && y * k + k <= n * k
            &&& rows_expanded(data, line, n, c, palette).subrange(y * k, y * k + k) == expanded(
                data.subrange(y * line, y * line + line),
                line / pixel_bytes(c),
                c,
                palette,
            )
        }),
    decreases n,
{
    let k = line / pixel_bytes(c) * 3;
    lemma_rows_len(data, line, n, c, palette);
    lemma_rows_len(data, line, n - 1, c, palette);
    lemma_expanded_len(row_of(data, line, y), line / pixel_bytes(c), c, palette);
    assert(0 <= y * k && y * k + k <= n * k && n * k == (n - 1) * k + k) by (nonlinear_arith)
        requires
            0 <= y < n,
            0 <= k,
    ;
    let all = rows_expanded(data, line, n, c, palette);
    let rest = rows_expanded(data, line, n - 1, c, palette);
    if y < n - 1 {
        rows_keep_their_order(data, line, n - 1, c, palette, y);
        assert(y * k + k <= (n - 1) * k) by (nonlinear_arith)
            requires
                y + 1 <= n - 1,
                0 <= k,
        ;
        assert(all.subrange(y * k, y * k + k) =~= rest.subrange(y * k, y * k + k));
    } else {
        assert(all.subrange(y * k, y * k + k) =~= expanded(row_of(data, line, y), line / pixel_bytes(c), c, palette));
    }
}

/// A row of a picture with a palette is refused exactly where an index in it has no colour.
pub proof fn indices_need_their_colours(row: Seq<u8>, palette: Seq<u8>)
    ensures
        row_fault(row, 1, ColorType::Indexed, Some(palette)) is None <==> forall|i: int|
            0 <= i < row.len() ==> #[trigger] row[i] * 3 + 2 < palette.len(),
        row_fault(row, 1, ColorType::Indexed, None) is Some,
{
    lemma_first_found(row, palette, 0);
    let k = first_off(row, palette, 0);
    if k < row.len() {
        assert(off_palette(row, palette, k));
        assert(!(row[k] * 3 + 2 < palette.len()));
    } else {
        assert forall|i: int| 0 <= i < row.len() implies #[trigger] row[i] * 3 + 2 < palette.len() by {
            assert(!off_palette(row, palette, i));
        }
    }
}

proof fn lemma_first_found(row: Seq<u8>, palette: Seq<u8>, i: int)
    requires
        0 <= i <= row.len(),
    ensures
        i <= first_off(row, palette, i) <= row.len(),
        first_off(row, palette, i) < row.len() ==> off_palette(row, palette, first_off(row, palette, i)),
        forall|j: int| i <= j < first_off(row, palette, i) ==> !#[trigger] off_palette(row, palette, j),
    decreases row.len() - i,
{
    if i < row.len() && !off_palette(row, palette, i) {
        lemma_first_found(row, palette, i + 1);
    }
}

} // verus!
