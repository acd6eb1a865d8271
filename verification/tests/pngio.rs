//! Picture files.

use classagent::pngio::check_head;
use classagent::pngio::decode;
use classagent::pngio::encode;
use classagent::pngio::expand_row;
use classagent::pngio::ColorType;
use classagent::pngio::Head;

fn ramp(w: usize, h: usize) -> Vec<u8> {
    let mut v = Vec::with_capacity(w * h * 3);
    for y in 0..h {
        for x in 0..w {
            v.push(((x * 37) % 256) as u8);
            v.push(((y * 53) % 256) as u8);
            v.push(((x + y) as u8).wrapping_mul(11));
        }
    }
    v
}

#[test]
fn round_trip_keeps_every_byte() {
    let (w, h) = (17usize, 9usize);
    let rgb = ramp(w, h);
    let file = encode(w, h, &rgb).expect("a picture that fits");
    let n = file.len();
    assert!(n > 100, "{n}");
    let got = decode(&file).expect("a file of our own");
    assert_eq!((got.width, got.height, got.rgb.as_slice()), (w, h, rgb.as_slice()));
}

#[test]
fn the_file_is_actually_a_png() {
    let head = encode(2, 2, &ramp(2, 2)).unwrap();
    assert_eq!(&head[..8], &[0x89, b'P', b'N', b'G', 0x0d, 0x0a, 0x1a, 0x0a]);
}

#[test]
fn mismatched_pixel_buffer_is_refused_not_truncated() {
    let e = encode(4, 4, &ramp(3, 4)).expect_err("the sizes differ");
    assert!(e.contains("不匹配"), "{e}");
}

#[test]
fn rgba_grayscale_and_indexed_all_expand_to_rgb() {
    let mut out = Vec::new();
    expand_row(&mut out, &[1, 2, 3, 9, 4, 5, 6, 0], 4, ColorType::Rgba, None).unwrap();
    assert_eq!(out, vec![1, 2, 3, 4, 5, 6]);
    let mut out = Vec::new();
    expand_row(&mut out, &[7, 8], 1, ColorType::Grayscale, None).unwrap();
    assert_eq!(out, vec![7, 7, 7, 8, 8, 8]);
    let mut out = Vec::new();
    expand_row(&mut out, &[0, 1], 1, ColorType::Indexed, Some(&vec![255, 0, 0, 0, 255, 0])).unwrap();
    assert_eq!(out, vec![255, 0, 0, 0, 255, 0]);
    let mut out = Vec::new();
    let e = expand_row(&mut out, &[9], 1, ColorType::Indexed, Some(&vec![1, 2, 3])).unwrap_err();
    assert!(e.contains("越界"), "{e}");
    let mut out = Vec::new();
    assert!(expand_row(&mut out, &[1, 2, 3, 4], 4, ColorType::Rgb, None).is_err());
}

/// A file of another layout, by the encoder itself.
fn file(w: u32, h: u32, color: png::ColorType, bits: png::BitDepth, palette: Option<Vec<u8>>, data: &[u8]) -> Vec<u8> {
    let mut out = Vec::new();
    {
        let mut e = png::Encoder::new(&mut out, w, h);
        e.set_color(color);
        e.set_depth(bits);
        if let Some(p) = palette {
            e.set_palette(p);
        }
        let mut w = e.write_header().unwrap();
        w.write_image_data(data).unwrap();
    }
    out
}

#[test]
fn other_layouts_are_read_as_rgb() {
    let f = file(2, 1, png::ColorType::Rgba, png::BitDepth::Eight, None, &[1, 2, 3, 9, 4, 5, 6, 0]);
    let p = decode(&f).unwrap();
    assert_eq!((p.width, p.height, p.rgb), (2, 1, vec![1, 2, 3, 4, 5, 6]));
    let f = file(1, 2, png::ColorType::Grayscale, png::BitDepth::Eight, None, &[7, 8]);
    let p = decode(&f).unwrap();
    assert_eq!((p.width, p.height, p.rgb), (1, 2, vec![7, 7, 7, 8, 8, 8]));
    let f = file(2, 1, png::ColorType::Indexed, png::BitDepth::Eight, Some(vec![255, 0, 0, 0, 255, 0]), &[1, 0]);
    assert_eq!(decode(&f).unwrap().rgb, vec![0, 255, 0, 255, 0, 0]);
}

#[test]
fn deep_and_broken_files_are_refused() {
    let f = file(1, 1, png::ColorType::Grayscale, png::BitDepth::Sixteen, None, &[7, 8]);
    let e = decode(&f).unwrap_err();
    assert!(e.contains("bit"), "{e}");
    assert!(decode(b"not a picture").is_err());
    let whole = encode(17, 9, &ramp(17, 9)).unwrap();
    assert!(decode(&whole[..whole.len() / 2]).is_err());
}

#[test]
fn interlaced_files_are_refused() {
    let h = Head { width: 4, height: 4, interlaced: true, bits: 8, color: 2, palette: None };
    assert!(check_head(&h).is_some());
    let h = Head { width: 4, height: 4, interlaced: false, bits: 8, color: 2, palette: None };
    assert!(check_head(&h).is_none());
}

#[test]
fn rows_before_the_damage_are_judged_first() {
    let mut seed = 1u32;
    let mut data: Vec<u8> = (0..64 * 400)
        .map(|_| {
            seed = seed.wrapping_mul(1_664_525).wrapping_add(1_013_904_223);
            (seed >> 24) as u8 % 200
        })
        .collect();
    let palette = vec![7u8; 600];
    let whole = file(64, 400, png::ColorType::Indexed, png::BitDepth::Eight, Some(palette.clone()), &data);
    assert_eq!(decode(&whole).unwrap().rgb, vec![7u8; 64 * 400 * 3]);
    let cut = &whole[..whole.len() * 3 / 4];
    assert!(decode(cut).err().unwrap().starts_with("解码失败："));
    data[70] = 250;
    let wrong = file(64, 400, png::ColorType::Indexed, png::BitDepth::Eight, Some(palette.clone()), &data);
    assert_eq!(decode(&wrong).err().unwrap(), "调色板索引 250 越界（PLTE 只有 200 项）");
    let cut = &wrong[..wrong.len() * 3 / 4];
    assert_eq!(decode(cut).err().unwrap(), "调色板索引 250 越界（PLTE 只有 200 项）");
    // A bad index behind the damage is never seen.
    data[70] = 0;
    data[64 * 399] = 250;
    let late = file(64, 400, png::ColorType::Indexed, png::BitDepth::Eight, Some(palette), &data);
    assert!(decode(&late[..late.len() / 2]).err().unwrap().starts_with("解码失败："));
}
