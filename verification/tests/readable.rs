//! Figures for people.

use classagent::readable::civil_from_days;
use classagent::readable::hhmmss;
use classagent::readable::human;
use classagent::readable::human_bytes;
use classagent::readable::mmss;
use classagent::readable::utc_text;

fn size(b: u64) -> String {
    if b < 1024 {
        format!("{b}B")
    } else if b < 1024 * 1024 {
        format!("{:.0}KB", b as f64 / 1024.0)
    } else {
        format!("{:.1}MB", b as f64 / 1048576.0)
    }
}

#[test]
fn sizes_are_rounded_as_std_rounds() {
    for b in [0, 1, 1023, 1024, 1535, 1536, 1537, 2560, 3584, 1048575, 1048576, 1101004, 1101005, 1153434, 10485760,
              1u64 << 40, (1 << 40) + 52428, (1 << 53) + 1, u64::MAX]
    {
        assert_eq!(human_bytes(b), size(b), "{b}");
        assert_eq!(human(b), size(b), "{b}");
    }
    for i in 0..4000u64 {
        let b = 1024 + i * 263;
        assert_eq!(human_bytes(b), size(b), "{b}");
    }
}

#[test]
fn times_are_padded() {
    assert_eq!(mmss(0), "00:00");
    assert_eq!(mmss(61_999), "01:01");
    assert_eq!(mmss(3_600_000), "01:00:00");
    assert_eq!(mmss(360_000_000), "100:00:00");
    assert_eq!(hhmmss(86_399_999), "23:59:59Z");
    assert_eq!(hhmmss(86_400_000), "00:00:00Z");
}

#[test]
fn days_become_dates() {
    assert_eq!(civil_from_days(0), (1970, 1, 1));
    assert_eq!(civil_from_days(59), (1970, 3, 1));
    assert_eq!(civil_from_days(11_016), (2000, 2, 29));
    assert_eq!(civil_from_days(19_675), (2023, 11, 14));
    assert_eq!(civil_from_days(-1), (1969, 12, 31));
    assert_eq!(utc_text(1_700_000_000_000), "2023-11-14 22:13Z");
    assert_eq!(utc_text(0), "1970-01-01 00:00Z");
}
