//! Sound files.

use classagent::wav::encode;
use classagent::wav::make_header;
use classagent::wav::parse;
use classagent::wav::samples_to_bytes;
use classagent::wav::HEADER_LEN;

#[test]
fn header_describes_the_payload() {
    let h = make_header(16_000, 1, 3_200);
    assert_eq!(&h[0..4], b"RIFF");
    assert_eq!(&h[8..12], b"WAVE");
    assert_eq!(u32::from_le_bytes([h[4], h[5], h[6], h[7]]), 36 + 3_200);
    assert_eq!(u16::from_le_bytes([h[20], h[21]]), 1);
    assert_eq!(u32::from_le_bytes([h[24], h[25], h[26], h[27]]), 16_000);
    assert_eq!(u16::from_le_bytes([h[32], h[33]]), 2);
    assert_eq!(u32::from_le_bytes([h[28], h[29], h[30], h[31]]), 32_000);
}

#[test]
fn write_then_read_round_trips() {
    let src: Vec<i16> = (0..800).map(|i| (i as i16) * 7 - 2000).collect();
    let file = encode(44_100, 2, &src);
    assert_eq!(file.len(), HEADER_LEN + src.len() * 2);
    let back = parse(&file).unwrap();
    assert_eq!(back.sample_rate, 44_100);
    assert_eq!(back.channels, 2);
    assert_eq!(back.samples, src);
}

#[test]
fn float_track_is_refused_not_misread() {
    let mut bytes = make_header(16_000, 1, 4).to_vec();
    bytes.extend_from_slice(&[0, 0, 0, 0]);
    bytes[20] = 3;
    let e = parse(&bytes).unwrap_err();
    assert!(e.contains("PCM"), "{e}");
}

#[test]
fn garbage_and_truncated_files_error_cleanly() {
    assert!(parse(b"not a wav at all").is_err());
    let back = parse(&make_header(16_000, 1, 999_999)).unwrap();
    assert!(back.samples.is_empty());
}

#[test]
fn unknown_chunks_are_skipped_and_odd_lengths_stay_aligned() {
    let mut full = Vec::new();
    full.extend_from_slice(b"RIFF");
    full.extend_from_slice(&0u32.to_le_bytes());
    full.extend_from_slice(b"WAVE");
    full.extend_from_slice(b"fmt ");
    full.extend_from_slice(&16u32.to_le_bytes());
    full.extend_from_slice(&1u16.to_le_bytes());
    full.extend_from_slice(&1u16.to_le_bytes());
    full.extend_from_slice(&8_000u32.to_le_bytes());
    full.extend_from_slice(&16_000u32.to_le_bytes());
    full.extend_from_slice(&2u16.to_le_bytes());
    full.extend_from_slice(&16u16.to_le_bytes());
    full.extend_from_slice(b"LIST");
    full.extend_from_slice(&3u32.to_le_bytes());
    full.extend_from_slice(b"abc");
    full.push(0);
    full.extend_from_slice(b"data");
    full.extend_from_slice(&4u32.to_le_bytes());
    full.extend_from_slice(&(-2i16).to_le_bytes());
    full.extend_from_slice(&300i16.to_le_bytes());

    let back = parse(&full).expect("other chunks do not matter");
    assert_eq!(back.sample_rate, 8_000);
    assert_eq!(back.channels, 1);
    assert_eq!(back.samples, vec![-2, 300]);
}

#[test]
fn samples_are_little_endian() {
    assert_eq!(samples_to_bytes(&[1, -2, 256]), vec![1, 0, 0xfe, 0xff, 0, 1]);
}

fn with(at: usize, value: u8) -> String {
    let mut bytes = encode(16_000, 1, &[1, 2]);
    bytes[at] = value;
    parse(&bytes).unwrap_err()
}

#[test]
fn every_unfit_sound_has_its_message() {
    assert!(with(34, 8).contains("16 bit"));
    assert!(with(22, 0).contains("声道"));
    assert!(with(22, 3).contains("声道"));
    assert!(with(12, b'x').contains("fmt"));
    assert!(with(36, b'x').contains("data"));
    assert!(with(0, b'x') != "");
    // A format chunk that is cut short is refused.
    let short = encode(16_000, 1, &[]);
    assert!(parse(&short[..30]).is_err());
}

#[test]
fn half_a_sample_is_refused() {
    let mut odd = make_header(16_000, 1, 3).to_vec();
    odd.extend_from_slice(&[1, 2, 3]);
    assert_eq!(parse(&odd).err().unwrap(), "data 块长度是奇数：3 字节");
    let mut cut = make_header(16_000, 1, 4).to_vec();
    cut.extend_from_slice(&[1, 2, 3]);
    assert!(parse(&cut).is_err());
    let mut even = make_header(16_000, 1, 2).to_vec();
    even.extend_from_slice(&[1, 2]);
    assert_eq!(parse(&even).unwrap().samples, vec![513]);
}
