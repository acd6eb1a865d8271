//! Ways to capture a screen.

use classagent::capture::bgra_to_rgb;
use classagent::capture::both_failed;
use classagent::capture::fallback_note;
use classagent::capture::int_of;
use classagent::capture::monitors;
use classagent::capture::open;
use classagent::capture::pitched_frame;
use classagent::capture::Gdi;
use classagent::capture::Rect;
use classagent::capture::Way;
use classagent::capture::BACKENDS;

#[test]
fn backend_list_is_the_contract_the_ui_copies() {
    assert_eq!(BACKENDS, ["auto", "gdi", "dxgi"]);
}

#[test]
fn an_unknown_capture_is_refused_not_silently_switched() {
    let e = open("x11", true).err().expect("a way that is not on the list");
    assert!(e.contains("capture"), "{e}");
    let e = open("x11", false).err().expect("no way at all here");
    assert!(e.contains("不是 Windows"), "{e}");
}

#[test]
fn bgra_is_unrolled_to_rgb() {
    assert_eq!(bgra_to_rgb(&[10, 20, 30, 255, 40, 50, 60, 0]), vec![30, 20, 10, 60, 50, 40]);
    assert_eq!(bgra_to_rgb(&[0, 0, 0, 0, 0, 0]), vec![0, 0, 0]);
    assert!(bgra_to_rgb(&[0, 0, 0]).is_empty());
}

#[test]
fn every_way_on_the_list_is_tried() {
    assert_eq!(open("gdi", true), Ok(Way::Gdi));
    assert_eq!(open("dxgi", true), Ok(Way::Dxgi));
    assert_eq!(open("auto", true), Ok(Way::Auto));
    assert_eq!(open("x\"y", true).unwrap_err(), format!("params.capture 只认 auto / gdi / dxgi，收到 {:?}", "x\"y"));
    assert!(fallback_note("E").contains("E"));
    assert!(both_failed("A", "B").contains("dxgi=A；gdi=B"));
}

#[test]
fn rows_are_taken_out_of_a_wider_picture() {
    let src = [1, 2, 3, 0, 9, 9, 9, 9, 4, 5, 6, 0, 9, 9, 9, 9];
    let f = pitched_frame(&src, 8, 1, 2).unwrap();
    assert_eq!((f.width, f.height, f.rgb), (1, 2, vec![3, 2, 1, 6, 5, 4]));
    assert!(pitched_frame(&src, 3, 1, 2).is_err());
}

#[test]
fn the_primary_screen_comes_first() {
    let a = Rect { x: 0, y: 0, w: 10, h: 10 };
    let b = Rect { x: 10, y: 0, w: 20, h: 20 };
    let c = Rect { x: 30, y: 0, w: 0, h: 5 };
    let found = vec![(a, false), (b, true), (c, false)];
    assert_eq!(monitors(&found), vec![(b, true), (a, false), (c, false)]);
    let g = Gdi::open(&found, 0, true).unwrap();
    assert_eq!((g.r, g.monitor, g.primary), (b, 0, true));
    assert_eq!(g.describe().str_at("backend"), Some("gdi"));
    assert_eq!(g.describe().u64_at("width"), Some(20));
    // A screen that is not there is the last one, and that one cannot be used.
    assert!(Gdi::open(&found, 9, true).unwrap_err().contains("0x5"));
    assert!(Gdi::open(&vec![], 0, true).is_err());
    assert_eq!(int_of(-17), "-17");
    assert_eq!(int_of(i32::MIN), i32::MIN.to_string());
}
