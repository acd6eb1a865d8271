//! Telling pictures apart.

use classagent::phash::bbox_to_px;
use classagent::phash::changed_bbox;
use classagent::phash::dhash;
use classagent::phash::hamming;
use classagent::phash::mean_abs_diff;
use classagent::phash::GRID_COLS;
use classagent::phash::GRID_ROWS;
use classagent::phash::MAX_DIST;

fn flat(v: u8) -> Vec<u8> {
    vec![v; GRID_COLS * GRID_ROWS]
}

fn idx(y: usize, x: usize) -> usize {
    y * GRID_COLS + x
}

#[test]
fn identical_frames_hash_equal() {
    let (a, b) = (flat(77), flat(77));
    assert_eq!(dhash(&a), dhash(&b));
    assert_eq!(hamming(dhash(&a), dhash(&b)), 0);
}

#[test]
fn rising_gradient_sets_every_bit() {
    let mut g = flat(0);
    for y in 0..GRID_ROWS {
        for x in 0..GRID_COLS {
            g[idx(y, x)] = (x * 20) as u8;
        }
    }
    assert_eq!(dhash(&g), u64::MAX);
}

#[test]
fn falling_gradient_clears_every_bit() {
    let mut g = flat(200);
    for y in 0..GRID_ROWS {
        for x in 0..GRID_COLS {
            g[idx(y, x)] = (200u16 - x as u16 * 20) as u8;
        }
    }
    assert_eq!(dhash(&g), 0);
    assert_eq!(hamming(0, u64::MAX), MAX_DIST);
}

#[test]
fn a_page_turn_moves_many_bits() {
    let mut left = flat(0);
    let mut right = flat(0);
    for y in 0..GRID_ROWS {
        for x in 0..GRID_COLS {
            let bright = if x % 2 == 0 { 240 } else { 10 };
            left[idx(y, x)] = bright;
            right[idx(y, x)] = if bright == 240 { 10 } else { 240 };
        }
    }
    let d = hamming(dhash(&left), dhash(&right));
    assert!(d >= 24, "{d}");
    assert!(d <= MAX_DIST);
}

#[test]
fn bbox_finds_where_the_change_is() {
    let cols = 10;
    let rows = 8;
    let prev = vec![50u8; cols * rows];
    let mut cur = prev.clone();
    for y in 4..6 {
        for x in 7..9 {
            cur[y * cols + x] = 220;
        }
    }
    let b = changed_bbox(&prev, &cur, cols, rows, 8).expect("a change at the lower right");
    assert_eq!(b, (7, 4, 9, 6));
    let px = bbox_to_px(b, cols, rows, 1920, 1080);
    assert!(px[0] >= 1200 && px[1] >= 400 && px[0] + px[2] <= 1920 && px[1] + px[3] <= 1080, "{px:?}");
    assert_eq!(px, [1344, 540, 384, 270]);
}

#[test]
fn nothing_changed_yields_no_bbox_not_a_zero_rect() {
    let g = vec![3u8; 80];
    assert!(changed_bbox(&g, &g, 10, 8, 8).is_none());
    let mut h = g.clone();
    h[0] = 3 + 6;
    assert!(changed_bbox(&g, &h, 10, 8, 8).is_none());
}

#[test]
fn a_bright_bar_invisible_to_dhash_alone_still_moves_the_mad() {
    let prev = vec![0u8; GRID_COLS * GRID_ROWS];
    let mut cur = prev.clone();
    for y in 0..GRID_ROWS {
        for x in 0..GRID_COLS / 2 {
            cur[idx(y, x)] = 250;
        }
    }
    assert_eq!(hamming(dhash(&prev), dhash(&cur)), 0);
    assert!(mean_abs_diff(&prev, &cur) > 60);
    let mut blink = prev.clone();
    blink[idx(3, 4)] = 30;
    assert!(mean_abs_diff(&prev, &blink) < 4);
}

#[test]
fn short_grid_does_not_panic() {
    assert_eq!(dhash(&[9u8; 3]), dhash(&[9u8; 3]));
    assert_eq!(hamming(dhash(&[]), dhash(&[])), 0);
}

#[test]
fn distances_count_bits() {
    assert_eq!(hamming(0b1011, 0b0010), 2);
    assert_eq!(hamming(7, 7), 0);
    assert_eq!(hamming(1 << 63, 0), hamming(0, 1 << 63));
}

#[test]
fn mean_differences_are_whole() {
    assert_eq!(mean_abs_diff(&[0, 10], &[5, 0]), 7);
    assert_eq!(mean_abs_diff(&[5, 0], &[0, 10]), 7);
    assert_eq!(mean_abs_diff(&[], &[]), 0);
}
