//! Brightness and size.

use classagent::gray::box_resize_rgb;
use classagent::gray::copy_bytes;
use classagent::gray::fit_width;
use classagent::gray::gray_grid;
use classagent::gray::gray_half;
use classagent::gray::grid_from_plane;
use classagent::gray::luma;

fn solid(w: usize, h: usize, c: [u8; 3]) -> Vec<u8> {
    let mut v = Vec::with_capacity(w * h * 3);
    for _ in 0..w * h {
        v.extend_from_slice(&c);
    }
    v
}

#[test]
fn luma_is_not_pure_average() {
    assert!(luma(0, 255, 0) > luma(255, 0, 0));
    assert_eq!(luma(255, 255, 255), 255);
    assert_eq!(luma(0, 0, 0), 0);
}

#[test]
fn uniform_frame_grids_to_that_value() {
    let g = gray_grid(&solid(64, 40, [12, 34, 56]), 64, 40, 10, 8);
    assert_eq!(g.len(), 80);
    let want = luma(12, 34, 56) as u8;
    assert!(g.iter().all(|&x| x == want), "{g:?}");
}

#[test]
fn no_source_pixel_is_skipped() {
    let (w, h) = (23usize, 17usize);
    for y in 0..h {
        for x in 0..w {
            let mut px = solid(w, h, [0, 0, 0]);
            let i = (y * w + x) * 3;
            px[i] = 200;
            px[i + 1] = 200;
            px[i + 2] = 200;
            let (plane, pw, ph) = gray_half(&px, w, h);
            assert_eq!((pw, ph), (12, 9));
            assert!(plane.iter().any(|&v| v > 0), "({x},{y}): {plane:?}");
        }
    }
}

#[test]
fn grid_handles_odd_sizes_without_panicking() {
    let g = gray_grid(&solid(7, 5, [200, 100, 50]), 7, 5, 10, 8);
    assert_eq!(g.len(), 80);
    let (p, pw, ph) = gray_half(&solid(7, 5, [200, 100, 50]), 7, 5);
    assert_eq!((pw, ph), (4, 3));
    assert_eq!(p.len(), 12);
}

#[test]
fn resize_keeps_a_uniform_frame_uniform() {
    let r = box_resize_rgb(&solid(60, 40, [9, 9, 9]), 60, 40, 20, 13);
    assert_eq!(r.len(), 20 * 13 * 3);
    assert!(r.chunks(3).all(|p| p == [9, 9, 9]));
}

#[test]
fn fit_width_scales_the_long_edge_and_keeps_aspect() {
    let (px, w, h) = fit_width(solid(1920, 1080, [1, 2, 3]), 1920, 1080, 1280);
    assert_eq!((w, h), (1280, 720));
    assert_eq!(px.len(), w * h * 3);
    assert_eq!(fit_width(solid(8, 8, [1, 2, 3]), 8, 8, 0).1, 8);
    assert_eq!(fit_width(solid(8, 8, [1, 2, 3]), 8, 8, 64).1, 8);
}

#[test]
fn brightness_is_weighed() {
    for (r, g, b) in [(1u8, 2u8, 3u8), (200, 100, 50), (12, 34, 56)] {
        assert_eq!(luma(r, g, b), (299 * r as u32 + 587 * g as u32 + 114 * b as u32) / 1000);
    }
}

#[test]
fn a_grid_takes_the_mean_of_each_cell() {
    let plane = [0, 10, 20, 30, 40, 50, 60, 70];
    assert_eq!(grid_from_plane(&plane, 4, 2, 2, 1), vec![25, 45]);
    assert_eq!(grid_from_plane(&plane, 4, 2, 4, 2), plane.to_vec());
}

#[test]
fn bytes_are_copied() {
    assert_eq!(copy_bytes(&[1, 2, 3]), vec![1, 2, 3]);
}

#[test]
fn the_long_edge_is_scaled_whichever_it_is() {
    let (px, w, h) = fit_width(vec![0u8; 96], 4, 8, 2);
    assert_eq!((w, h, px.len()), (1, 2, 6));
    let (px, w, h) = fit_width(solid(1080, 1920, [1, 2, 3]), 1080, 1920, 1280);
    assert_eq!((w, h), (720, 1280));
    assert!(px.chunks(3).all(|p| p == [1, 2, 3]));
    // A side never vanishes.
    assert_eq!(fit_width(solid(100, 1, [9, 9, 9]), 100, 1, 10).2, 1);
}

#[test]
fn a_frame_that_fits_comes_back_as_it_is() {
    assert_eq!(fit_width(vec![7], 4, 3, 0), (vec![7], 4, 3));
    assert_eq!(fit_width(vec![7], 4, 3, 4), (vec![7], 4, 3));
    assert_eq!(fit_width(vec![], 0, 9, 2), (vec![], 0, 9));
}
