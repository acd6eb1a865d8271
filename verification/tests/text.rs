//! Text, tables and doubles.

use classagent::double::less;
use classagent::double::six_tenths;
use classagent::double::trunc;
use classagent::table::Table;
use classagent::text::after_last;
use classagent::text::chomp;
use classagent::text::insert_name;
use classagent::text::lines_of;
use classagent::text::not_after;
use classagent::text::parse_uint;
use classagent::text::replace;
use classagent::text::second_word_of;
use classagent::text::split_once;
use classagent::text::to_lower;
use classagent::text::trim;

#[test]
fn text_is_cut_as_std_cuts_it() {
    for s in ["", " a ", "\t课 堂\u{3000}", "a b", "\r\n", "x\n", "x\r\n\n"] {
        assert_eq!(trim(s), s.trim());
        assert_eq!(chomp(s), s.trim_end_matches(['\n', '\r']));
        assert_eq!(lines_of(s), s.lines().map(|l| l.to_string()).collect::<Vec<_>>());
        assert_eq!(second_word_of(s), s.split_whitespace().nth(1).map(|w| w.to_string()));
        assert_eq!(to_lower(s), s.to_ascii_lowercase());
    }
    assert_eq!(lines_of("a\nb\r\nc"), vec!["a", "b", "c"]);
    assert_eq!(second_word_of("HTTP/1.1  200 OK"), Some("200".to_string()));
    assert_eq!(split_once("a:b:c", ':'), ("a".to_string(), Some("b:c".to_string())));
    assert_eq!(split_once("abc", ':'), ("abc".to_string(), None));
    assert_eq!(after_last("a.tar.GZ", '.'), "GZ");
    assert_eq!(after_last("plain", '.'), "plain");
    assert_eq!(replace("$T/$T", "$T", "x"), "x/x");
}

#[test]
fn numbers_are_read_as_std_reads_them() {
    for s in ["0", "+7", "007", "65535", "65536", "", "+", "-1", "1x", "18446744073709551615"] {
        assert_eq!(parse_uint(s, 65535), s.parse::<u16>().ok().map(|n| n as u64), "{s}");
        assert_eq!(parse_uint(s, u64::MAX), s.parse::<u64>().ok(), "{s}");
    }
}

#[test]
fn names_are_kept_in_order_and_once() {
    let mut v = Vec::new();
    for s in ["b", "a", "课", "b", "ab", "Z"] {
        insert_name(&mut v, s);
    }
    assert_eq!(v, vec!["Z", "a", "ab", "b", "课"]);
    for a in ["", "a", "ab", "b", "课", "讲"] {
        for b in ["", "a", "ab", "b", "课", "讲"] {
            assert_eq!(not_after(a, b), a <= b);
        }
    }
}

#[test]
fn a_table_keeps_the_last_value_of_a_name() {
    let mut t: Table<u64> = Table::new();
    t.set("b", 1);
    t.set("a", 2);
    t.set("b", 3);
    assert_eq!(t.get("b"), Some(&3));
    assert_eq!(t.get("c"), None);
    assert!(t.contains("a"));
    assert_eq!(t.keys(), vec!["b", "a"]);
}

#[test]
fn doubles_are_ordered_by_their_bits() {
    let v = [f64::NEG_INFINITY, -2.5, -0.0, 0.0, 5e-324, 1.0, 1.5, 400.0, f64::MAX];
    for a in v {
        for b in v {
            assert_eq!(less(a.to_bits(), b.to_bits()), a < b, "{a} {b}");
        }
    }
}

#[test]
fn doubles_are_cut_to_whole_numbers() {
    for x in [0.0, 0.9, 1.0, 1.99, 12340.000000000002, 1e15, 9e18, 1.8446744073709552e19, -3.0, 5e-324] {
        assert_eq!(trunc(f64::to_bits(x)), x as u64, "{x}");
    }
}

#[test]
fn six_tenths_are_those_of_the_machine() {
    for x in [1.0, 45.0, 400.0, 0.1, 3.0, 7.77, 1e-300, 5e-324, 2.2250738585072014e-308, 1e308, 123456.789] {
        assert_eq!(f64::from_bits(six_tenths(f64::to_bits(x))), x * 0.6, "{x}");
    }
}
