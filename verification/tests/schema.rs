//! Names from outside, clocks and arguments.

use classagent::schema::default_true;
use classagent::schema::mono_us;
use classagent::schema::resolve_argv;
use classagent::schema::safe_component;
use classagent::schema::utc_ms;
use classagent::schema::Exceed;
use classagent::schema::Manifest;

#[test]
fn serve_path_traversal_is_rejected() {
    for bad in [
        "..",
        "../../etc/passwd",
        "a/b",
        "a\\b",
        "/etc/passwd",
        "C:\\Windows\\system32\\config\\sam",
        "a\0b",
        "",
        ".",
        "%2e%2e%2fsecret",
        "....//....//x",
    ] {
        assert!(!safe_component(bad), "{bad:?}");
    }
    for ok in ["audio-000000000900ms.pcm", "L-demo-0001", "a-fake.adapter.json"] {
        assert!(safe_component(ok), "{ok:?}");
    }
}

#[test]
fn main_path_traversal_is_rejected() {
    for bad in ["..", "../../etc/passwd", "a/b", "a\\b", "/etc/passwd", "a\0b", "", ".", "%2e%2e"] {
        assert!(!safe_component(bad), "{bad:?}");
    }
    for ok in ["L-demo-0001", "lesson_1.json", "a-b_c"] {
        assert!(safe_component(ok), "{ok:?}");
    }
}

fn strings(v: &[&str]) -> Vec<String> {
    v.iter().map(|s| s.to_string()).collect()
}

#[test]
fn arguments_are_expanded() {
    let argv = strings(&["$TARGET_DIR/a-audio", "--dir=$TARGET_DIR"]);
    assert_eq!(resolve_argv(&argv, "t/d", false, true), strings(&["t/d/a-audio", "--dir=t/d"]));
    assert_eq!(resolve_argv(&argv, "t/d", true, true), strings(&["t/d/a-audio.exe", "--dir=t/d"]));
    assert_eq!(resolve_argv(&argv, "t/d", true, false), strings(&["t/d/a-audio", "--dir=t/d"]));
    assert_eq!(resolve_argv(&strings(&["x.exe"]), "t", true, true), strings(&["x.exe"]));
}

#[test]
fn clocks_are_whole_words() {
    assert_eq!(mono_us(1_000_000), 1_000_000);
    assert_eq!(mono_us((1u128 << 64) + 5), 5);
    assert_eq!(utc_ms(Some(1_700_000_000_000)), 1_700_000_000_000);
    assert_eq!(utc_ms(None), 0);
}

#[test]
fn defaults_are_the_stated_ones() {
    let m = Manifest::default();
    assert_eq!((m.budget.max_events_per_s, m.budget.max_bytes_per_s), (2_000, 8_000_000));
    assert!(m.budget.on_exceed == Exceed::Degrade);
    assert_eq!((m.restart.max_retries, m.restart.backoff_ms), (3, 1_000));
    assert!(!m.needs_lesson && m.produces.is_empty());
    assert!(default_true());
}

#[test]
fn a_name_has_at_most_127_bytes() {
    assert!(safe_component(&"a".repeat(127)));
    assert!(!safe_component(&"a".repeat(128)));
    assert!(!safe_component("课"));
}
