//! Times, dates and sizes as people read them.

use vstd::prelude::*;
use crate::text;
use crate::text::dec;
use crate::text::pad_left;

verus! {

/// `n` with at least two digits.
pub open spec fn two(n: int) -> Seq<char> {
    pad_left(dec(n), 2, '0')
}

/// `n` with at least four digits.
pub open spec fn four(n: int) -> Seq<char> {
    pad_left(dec(n), 4, '0')
}

/// Appends `n` with at least two digits.
pub fn push_two(out: &mut String, n: u64)
    ensures
        final(out)@ == old(out)@ + two(n as int),
{
    text::push_pad_left(out, text::dec_text(n).as_str(), 2, '0');
}

/// Seconds as minutes and seconds, with hours in front from one hour on.
pub open spec fn clock(t: int) -> Seq<char> {
    if t >= 3600 {
        two(t / 3600) + ":"@ + two((t / 60) % 60) + ":"@ + two(t % 60)
    } else {
        two(t / 60) + ":"@ + two(t % 60)
    }
}

/// Appends seconds as minutes and seconds.
pub fn push_clock(out: &mut String, t: u64)
    ensures
        final(out)@ == old(out)@ + clock(t as int),
{
    let ghost before = out@;
    if t >= 3600 {
        push_two(out, t / 3600);
        out.append(":");
        push_two(out, (t / 60) % 60);
        out.append(":");
        push_two(out, t % 60);
    } else {
        push_two(out, t / 60);
        out.append(":");
        push_two(out, t % 60);
    }
    assert(out@ =~= before + clock(t as int));
}

/// Milliseconds as minutes and seconds, with hours in front from one hour on.
pub fn mmss(ms: u64) -> (r: String)
    ensures
        r@ == clock(ms as int / 1000),
{
    let mut out = String::new();
    push_clock(&mut out, ms / 1000);
    assert(out@ =~= clock(ms as int / 1000));
    out
}

/// The time of day of a moment.
pub open spec fn day_time(utc_ms: int) -> Seq<char> {
    let s = (utc_ms / 1000) % 86_400;
    two(s / 3600) + ":"@ + two((s / 60) % 60) + ":"@ + two(s % 60) + "Z"@
}

/// The time of day of a moment.
pub fn hhmmss(utc_ms: u64) -> (r: String)
    ensures
        r@ == day_time(utc_ms as int),
{
    let s: u64 = (utc_ms / 1000) % 86_400;
    let mut out = String::new();
    push_two(&mut out, s / 3600);
    out.append(":");
    push_two(&mut out, (s / 60) % 60);
    out.append(":");
    push_two(&mut out, s % 60);
    out.append("Z");
    assert(out@ =~= day_time(utc_ms as int));
    out
}

// ---------------------------------------------------------------------------------------------
// Sizes
// ---------------------------------------------------------------------------------------------

/// The integer nearest to `n / d`, the even one of two that are equally near.
pub open spec fn half_even(n: int, d: int) -> int {
    let q = n / d;
    let r = n % d;
    if 2 * r < d || (2 * r == d && q % 2 == 0) {
        q
    } else {
        q + 1
    }
}

/// The distance between doubles around `n`.
pub open spec fn grain(n: int) -> int
    decreases n,
{
    if n < 0x20_0000_0000_0000 {
        1
    } else {
        2 * grain(n / 2)
    }
}

/// The double nearest to an integer, which is an integer too.
pub open spec fn as_double(n: int) -> int {
    half_even(n, grain(n)) * grain(n)
}

/// A number of bytes as people read it: bytes, whole kilobytes, or megabytes with one decimal.
pub open spec fn size_text(b: int) -> Seq<char> {
    if b < 1024 {
        dec(b) + "B"@
    } else if b < 1024 * 1024 {
        dec(half_even(b, 1024)) + "KB"@
    } else {
        let tenths = half_even(as_double(b) * 10, 1_048_576);
        dec(tenths / 10) + "."@ + dec(tenths % 10) + "MB"@
    }
}

fn half_even_of(n: u128, d: u128) -> (r: u128)
    requires
        0 < d < 0x1_0000_0000_0000_0000,
        n < 0x1000_0000_0000_0000_0000_0000_0000_0000,
    ensures
        r == half_even(n as int, d as int),
{
    let q: u128 = n / d;
    let m: u128 = n % d;
    proof {
        assert(q <= n) by (nonlinear_arith)
            requires
                q == n / d,
                d > 0,
        ;
    }
    if 2 * m < d || (2 * m == d && q % 2 == 0) {
        q
    } else {
        q + 1
    }
}

fn grain_of(n: u64) -> (r: u64)
    ensures
        r == grain(n as int),
        1 <= r <= 4096,
        n >= 0x20_0000_0000_0000 ==> r * 0x10_0000_0000_0000 <= n,
        n < r * 0x20_0000_0000_0000,
    decreases n,
{
    if n < 0x20_0000_0000_0000 {
        1
    } else {
        let h: u64 = grain_of(n / 2);
        assert(h <= 2048);
        2 * h
    }
}

/// A number of bytes as people read it.
pub fn human(b: u64) -> (r: String)
    ensures
        r@ == size_text(b as int),
{
    let mut out = String::new();
    if b < 1024 {
        text::push_dec(&mut out, b);
        out.append("B");
    } else if b < 1024 * 1024 {
        text::push_dec_wide(&mut out, half_even_of(b as u128, 1024));
        out.append("KB");
    } else {
        let g: u64 = grain_of(b);
        let h: u128 = half_even_of(b as u128, g as u128);
        proof {
            assert(b as int / g as int <= b) by (nonlinear_arith)
                requires
                    g >= 1,
            ;
            assert(h * g < 0x100_0000_0000_0000_0000_0000) by (nonlinear_arith)
                requires
                    h <= b + 1,
                    b <= 0xffff_ffff_ffff_ffff,
                    g <= 4096,
            ;
        }
        let v: u128 = h * g as u128;
        let tenths: u128 = half_even_of(v * 10, 1_048_576);
        text::push_dec_wide(&mut out, tenths / 10);
        out.append(".");
        text::push_dec_wide(&mut out, tenths % 10);
        out.append("MB");
    }
    assert(out@ =~= size_text(b as int));
    out
}

/// A number of bytes as people read it.
pub fn human_bytes(b: u64) -> (r: String)
    ensures
        r@ == size_text(b as int),
{
    human(b)
}

// ---------------------------------------------------------------------------------------------
// Dates
// ---------------------------------------------------------------------------------------------

/// Whether a year has a 29th of February.
pub open spec fn leap(y: int) -> bool {
    y % 4 == 0 && (y % 100 != 0 || y % 400 == 0)
}

/// The days of a year in front of a month.
pub open spec fn days_before_month(y: int, m: int) -> int {
    let l = if leap(y) {
        1int
    } else {
        0int
    };
    if m <= 1 {
        0
    } else if m == 2 {
        31
    } else if m == 3 {
        59 + l
    } else if m == 4 {
        90 + l
    } else if m == 5 {
        120 + l
    } else if m == 6 {
        151 + l
    } else if m == 7 {
        181 + l
    } else if m == 8 {
        212 + l
    } else if m == 9 {
        243 + l
    } else if m == 10 {
        273 + l
    } else if m == 11 {
        304 + l
    } else if m == 12 {
        334 + l
    } else {
        365 + l
    }
}

/// Whether there is such a date in the Gregorian calendar.
pub open spec fn valid_date(y: int, m: int, d: int) -> bool {
    1 <= m <= 12 && 1 <= d <= days_before_month(y, m + 1) - days_before_month(y, m)
}

/// The leap years from year 1 to the one before `y`.
pub open spec fn leaps_before(y: int) -> int {
    (y - 1) / 4 - (y - 1) / 100 + (y - 1) / 400
}

/// The days from the first of January 1970 to a date.
pub open spec fn day_number(y: int, m: int, d: int) -> int {
    365 * (y - 1970) + leaps_before(y) - leaps_before(1970) + days_before_month(y, m) + d - 1
}

/// The first day of year `k` of an era, years beginning in March.
spec fn year_start(k: int) -> int {
    365 * k + k / 4 - k / 100
}

proof fn lemma_year_of_era(doe: int, yoe: int)
    requires
        0 <= doe < 146_097,
        yoe == (doe - doe / 1460 + doe / 36524 - doe / 146_096) / 365,
    ensures
        0 <= yoe < 400,
        year_start(yoe) <= doe,
        doe - year_start(yoe) <= 365,
        doe - year_start(yoe) == 365 ==> leap(yoe + 1),
{
    let c = doe / 36524;
    assert(0 <= c <= 4);
    if c == 0 {
        assert(doe / 146_096 == 0);
    } else if c == 1 {
        assert(doe / 146_096 == 0);
    } else if c == 2 {
        assert(doe / 146_096 == 0);
    } else if c == 3 {
        assert(doe / 146_096 == 0);
    } else {
        assert(doe == 146_096);
    }
}

proof fn lemma_months(doy: int, mp: int)
    requires
        0 <= doy <= 365,
        mp == (5 * doy + 2) / 153,
    ensures
        0 <= mp <= 11,
        1 <= doy - (153 * mp + 2) / 5 + 1 <= 31,
        mp == 0 || mp == 2 || mp == 4 || mp == 5 || mp == 7 || mp == 9 || mp == 10 || mp == 11 || doy - (153 * mp + 2)
            / 5 + 1 <= 30,
        mp == 11 ==> doy - 337 + 1 <= 29 && (doy < 365 ==> doy - 337 + 1 <= 28),
        mp == 11 ==> (153 * mp + 2) / 5 == 337,
{
}

#[verifier::spinoff_prover]
#[verifier::rlimit(50)]
proof fn lemma_civil(era: int, yoe: int, doy: int, mp: int, y: int, m: int, d: int)
    requires
        0 <= yoe < 400,
        0 <= doy <= 365,
        doy == 365 ==> leap(yoe + 1),
        mp == (5 * doy + 2) / 153,
        d == doy - (153 * mp + 2) / 5 + 1,
        m == (if mp < 10 {
            mp + 3
        } else {
            mp - 9
        }),
        y == yoe + era * 400 + (if m <= 2 {
            1int
        } else {
            0int
        }),
    ensures
        valid_date(y, m, d),
        day_number(y, m, d) + 719_468 == era * 146_097 + year_start(yoe) + doy,
{
    lemma_months(doy, mp);
    let y0 = yoe + era * 400;
    assert(leap(y0 + 1) == leap(yoe + 1)) by {
        assert((yoe + 1 + era * 400) % 4 == (yoe + 1) % 4);
        assert((yoe + 1 + era * 400) % 100 == (yoe + 1) % 100);
        assert((yoe + 1 + era * 400) % 400 == (yoe + 1) % 400);
    }
    assert(y0 / 4 == 100 * era + yoe / 4);
    assert(y0 / 100 == 4 * era + yoe / 100);
    assert(y0 / 400 == era);
    assert(leaps_before(1970) == 477);
    assert(y0 / 4 - y0 / 100 + y0 / 400 - leaps_before(y0) == (if leap(y0) {
        1int
    } else {
        0int
    }));
    if mp == 0 {
    } else if mp == 1 {
    } else if mp == 2 {
    } else if mp == 3 {
    } else if mp == 4 {
    } else if mp == 5 {
    } else if mp == 6 {
    } else if mp == 7 {
    } else if mp == 8 {
    } else if mp == 9 {
    } else if mp == 10 {
    } else {
    }
}

/// The date of a day counted from the first of January 1970.
pub fn civil_from_days(z: i64) -> (r: (i64, u64, u64))
    requires
        z <= i64::MAX - 719_468,
    ensures
        valid_date(r.0 as int, r.1 as int, r.2 as int),
        day_number(r.0 as int, r.1 as int, r.2 as int) == z,
{
    let z2: i64 = z + 719_468;
    let era: i64 = if z2 >= 0 {
        (z2 as u64 / 146_097) as i64
    } else {
        -(((-(z2 + 1)) as u64 / 146_097) as i64) - 1
    };
    let doe: u64 = (z2 - era * 146_097) as u64;
    let yoe: u64 = (doe - doe / 1460 + doe / 36524 - doe / 146_096) / 365;
    proof {
        lemma_year_of_era(doe as int, yoe as int);
    }
    let y: i64 = yoe as i64 + era * 400;
    let doy: u64 = doe - (365 * yoe + yoe / 4 - yoe / 100);
    let mp: u64 = (5 * doy + 2) / 153;
    proof {
        lemma_months(doy as int, mp as int);
    }
    let d: u64 = doy - (153 * mp + 2) / 5 + 1;
    let m: u64 = if mp < 10 {
        mp + 3
    } else {
        mp - 9
    };
    let year: i64 = if m <= 2 {
        y + 1
    } else {
        y
    };
    proof {
        lemma_civil(era as int, yoe as int, doy as int, mp as int, year as int, m as int, d as int);
    }
    (year, m, d)
}

/// A day has one date only.
pub proof fn dates_are_unique(y1: int, m1: int, d1: int, y2: int, m2: int, d2: int)
    requires
        valid_date(y1, m1, d1),
        valid_date(y2, m2, d2),
        day_number(y1, m1, d1) == day_number(y2, m2, d2),
    ensures
        y1 == y2,
        m1 == m2,
        d1 == d2,
{
    if y1 < y2 {
        lemma_year_apart(y1, m1, d1, y2, m2, d2);
    }
    if y2 < y1 {
        lemma_year_apart(y2, m2, d2, y1, m1, d1);
    }
    assert(y1 == y2);
    if m1 < m2 {
        lemma_month_apart(y1, m1, d1, m2, d2);
    }
    if m2 < m1 {
        lemma_month_apart(y1, m2, d2, m1, d1);
    }
}

proof fn lemma_month_apart(y: int, m1: int, d1: int, m2: int, d2: int)
    requires
        valid_date(y, m1, d1),
        valid_date(y, m2, d2),
        m1 < m2,
    ensures
        days_before_month(y, m1) + d1 < days_before_month(y, m2) + d2,
{
}

proof fn lemma_year_apart(y1: int, m1: int, d1: int, y2: int, m2: int, d2: int)
    requires
        valid_date(y1, m1, d1),
        valid_date(y2, m2, d2),
        y1 < y2,
    ensures
        day_number(y1, m1, d1) < day_number(y2, m2, d2),
{
    lemma_leap_step(y1);
    lemma_in_year(y1, m1, d1);
    lemma_years_grow(y1 + 1, y2);
}

proof fn lemma_in_year(y: int, m: int, d: int)
    requires
        valid_date(y, m, d),
    ensures
        0 <= days_before_month(y, m) + d - 1 < 365 + (if leap(y) {
            1int
        } else {
            0int
        }),
        days_before_month(y, m) >= 0,
{
}

#[verifier::spinoff_prover]
proof fn lemma_leap_step(y: int)
    ensures
        leaps_before(y + 1) - leaps_before(y) == (if leap(y) {
            1int
        } else {
            0int
        }),
{
}

proof fn lemma_years_grow(a: int, b: int)
    requires
        a <= b,
    ensures
        365 * a + leaps_before(a) <= 365 * b + leaps_before(b),
    decreases b - a,
{
    if a < b {
        lemma_leap_step(b - 1);
        lemma_years_grow(a, b - 1);
    }
}

/// Whether `t` is the date of a day counted from the first of January 1970.
pub open spec fn is_date(t: (int, int, int), day: int) -> bool {
    valid_date(t.0, t.1, t.2) && day_number(t.0, t.1, t.2) == day
}

/// The date of a day counted from the first of January 1970.
pub open spec fn date_of(day: int) -> (int, int, int) {
    choose|t: (int, int, int)| is_date(t, day)
}

/// A moment as date and time of day.
pub open spec fn moment(utc_ms: int) -> Seq<char> {
    let t = date_of(utc_ms / 86_400_000);
    let secs = (utc_ms / 1000) % 86_400;
    four(t.0) + "-"@ + two(t.1) + "-"@ + two(t.2) + " "@ + two(secs / 3600) + ":"@ + two((secs / 60) % 60) + "Z"@
}

/// A moment as date and time of day.
pub fn utc_text(utc_ms: u64) -> (r: String)
    ensures
        r@ == moment(utc_ms as int),
{
    let days: u64 = utc_ms / 86_400_000;
    let secs: u64 = (utc_ms / 1000) % 86_400;
    let (y, m, d): (i64, u64, u64) = civil_from_days(days as i64);
    proof {
        lemma_year_positive(y as int, m as int, d as int);
        assert(is_date((y as int, m as int, d as int), days as int));
        let t = date_of(days as int);
        assert(is_date(t, days as int));
        dates_are_unique(y as int, m as int, d as int, t.0, t.1, t.2);
    }
    let mut out = String::new();
    text::push_pad_left(&mut out, text::dec_text(y as u64).as_str(), 4, '0');
    out.append("-");
    push_two(&mut out, m);
    out.append("-");
    push_two(&mut out, d);
    out.append(" ");
    push_two(&mut out, secs / 3600);
    out.append(":");
    push_two(&mut out, (secs / 60) % 60);
    out.append("Z");
    assert(out@ =~= moment(utc_ms as int));
    out
}

proof fn lemma_year_positive(y: int, m: int, d: int)
    requires
        valid_date(y, m, d),
        day_number(y, m, d) >= 0,
    ensures
        y >= 1970,
{
    if y < 1970 {
        lemma_year_apart(y, m, d, 1970, 1, 1);
        assert(day_number(1970, 1, 1) == 0);
    }
}

/// A clock reading tells the seconds in full: hours, minutes and seconds are together the time, with
/// less than sixty of each of the smaller ones; without hours below one hour.
pub proof fn clocks_tell_the_time(t: int)
    requires
        0 <= t,
    ensures
        exists|h: int, m: int, s: int|
            #![trigger two(h), two(m), two(s)]
            h * 3600 + m * 60 + s == t && 0 <= h && 0 <= m < 60 && 0 <= s < 60 && clock(t) == (if h > 0 {
                two(h) + ":"@ + two(m) + ":"@ + two(s)
            } else {
                two(m) + ":"@ + two(s)
            }),
{
    let h = t / 3600;
    let m = (t / 60) % 60;
    let s = t % 60;
    assert(h * 3600 + m * 60 + s == t);
    assert(two(h).len() >= 0 && two(m).len() >= 0 && two(s).len() >= 0);
    if h == 0 {
        assert(t / 60 == m);
    }
}

/// Rounding gives the nearest whole number, and of two that are equally near the even one.
pub proof fn rounding_is_to_the_nearest(n: int, d: int)
    requires
        0 < d,
        0 <= n,
    ensures
        -d <= 2 * (half_even(n, d) * d - n) <= d,
        2 * (half_even(n, d) * d - n) == d || 2 * (half_even(n, d) * d - n) == -d ==> half_even(n, d) % 2 == 0,
{
    let q = n / d;
    let r = n % d;
    vstd::arithmetic::div_mod::lemma_fundamental_div_mod(n, d);
    assert(q * d == d * q) by (nonlinear_arith);
    assert((q + 1) * d == q * d + d) by (nonlinear_arith);
}

/// Sizes are told in bytes below one kilobyte, in whole kilobytes below one megabyte, and in tenths
/// of megabytes from there on.
pub proof fn sizes_have_their_units(b: int)
    requires
        0 <= b < 0x20_0000_0000_0000,
    ensures
        b < 1024 ==> size_text(b) == dec(b) + "B"@,
        1024 <= b < 1_048_576 ==> exists|k: int| #[trigger] dec(k) + "KB"@ == size_text(b) && -512 <= k * 1024 - b <= 512,
        b >= 1_048_576 ==> exists|k: int|
            #[trigger] dec(k / 10) + "."@ + dec(k % 10) + "MB"@ == size_text(b) && -1_048_576 <= 2 * (k * 1_048_576 - b * 10)
                <= 1_048_576,
{
    if 1024 <= b < 1_048_576 {
        let k = half_even(b, 1024);
        rounding_is_to_the_nearest(b, 1024);
        assert(dec(k) + "KB"@ == size_text(b));
    }
    if b >= 1_048_576 {
        assert(grain(b) == 1);
        assert(half_even(b, 1) == b) by {
            assert(b / 1 == b && b % 1 == 0);
        }
        assert(as_double(b) == b);
        let k = half_even(b * 10, 1_048_576);
        rounding_is_to_the_nearest(b * 10, 1_048_576);
        assert(dec(k / 10) + "."@ + dec(k % 10) + "MB"@ == size_text(b));
    }
}

/// Days follow each other: the day after a date is the next one of its month, or the first of the
/// next month, or the first of the next year; counting begins with the first of January 1970.
pub proof fn days_follow_each_other(y: int, m: int, d: int)
    requires
        valid_date(y, m, d),
    ensures
        day_number(1970, 1, 1) == 0,
        valid_date(y, m, d + 1) ==> day_number(y, m, d + 1) == day_number(y, m, d) + 1,
        !valid_date(y, m, d + 1) && m < 12 ==> valid_date(y, m + 1, 1) && day_number(y, m + 1, 1) == day_number(y, m, d) + 1,
        !valid_date(y, m, d + 1) && m == 12 ==> valid_date(y + 1, 1, 1) && day_number(y + 1, 1, 1) == day_number(y, m, d) + 1,
{
    lemma_leap_step(y);
}

/// Months have their lengths: thirty days in four of them, twenty-eight in February, twenty-nine in
/// leap years, thirty-one in the others.
pub proof fn months_have_their_lengths(y: int, m: int, d: int)
    ensures
        valid_date(y, m, d) <==> 1 <= m <= 12 && 1 <= d <= (if m == 2 {
            if y % 4 == 0 && (y % 100 != 0 || y % 400 == 0) {
                29int
            } else {
                28int
            }
        } else if m == 4 || m == 6 || m == 9 || m == 11 {
            30
        } else {
            31
        }),
{
}

/// The time of day tells the seconds since midnight in full.
pub proof fn days_have_their_hours(utc_ms: int)
    requires
        0 <= utc_ms,
    ensures
        exists|h: int, m: int, s: int|
            #![trigger two(h), two(m), two(s)]
            h * 3600 + m * 60 + s == (utc_ms / 1000) % 86_400 && 0 <= h < 24 && 0 <= m < 60 && 0 <= s < 60 && day_time(utc_ms)
                == two(h) + ":"@ + two(m) + ":"@ + two(s) + "Z"@,
{
    let t = (utc_ms / 1000) % 86_400;
    let h = t / 3600;
    let m = (t / 60) % 60;
    let s = t % 60;
    assert(h * 3600 + m * 60 + s == t);
    assert(two(h).len() >= 0 && two(m).len() >= 0 && two(s).len() >= 0);
}

proof fn lemma_has_date(day: int) -> (t: (int, int, int))
    requires
        0 <= day,
    ensures
        is_date(t, day),
{
    let z = day + 719_468;
    let era = z / 146_097;
    let doe = z % 146_097;
    let yoe = (doe - doe / 1460 + doe / 36524 - doe / 146_096) / 365;
    lemma_year_of_era(doe, yoe);
    let doy = doe - year_start(yoe);
    let mp = (5 * doy + 2) / 153;
    lemma_months(doy, mp);
    let d = doy - (153 * mp + 2) / 5 + 1;
    let m = if mp < 10 {
        mp + 3
    } else {
        mp - 9
    };
    let y = yoe + era * 400 + (if m <= 2 {
        1int
    } else {
        0int
    });
    lemma_civil(era, yoe, doy, mp, y, m, d);
    (y, m, d)
}

#[verifier::spinoff_prover]
proof fn lemma_minute(utc_ms: int)
    requires
        0 <= utc_ms,
    ensures
        ({
            let day = utc_ms / 86_400_000;
            let secs = (utc_ms / 1000) % 86_400;
            let start = day * 86_400_000 + (secs / 3600) * 3_600_000 + ((secs / 60) % 60) * 60_000;
            &&& 0 <= secs / 3600 < 24
            &&& 0 <= (secs / 60) % 60 < 60
            &&& start <= utc_ms < start + 60_000
        }),
{
    let day = utc_ms / 86_400_000;
    let r = utc_ms % 86_400_000;
    assert(utc_ms == day * 86_400_000 + r);
    assert(utc_ms / 1000 == day * 86_400 + r / 1000);
    let secs = r / 1000;
    assert((day * 86_400 + secs) % 86_400 == secs);
    let m = secs / 60;
    assert(m / 60 == secs / 3600);
    assert(m == (m / 60) * 60 + m % 60);
    assert(m * 60 <= secs < m * 60 + 60);
}

/// A moment is told by its date and its time of day: the minute that is told is the one in which it lies.
#[verifier::spinoff_prover]
pub proof fn moments_are_told_to_the_minute(utc_ms: int) -> (t: (int, int, int, int, int))
    requires
        0 <= utc_ms,
    ensures
        valid_date(t.0, t.1, t.2),
        0 <= t.3 < 24,
        0 <= t.4 < 60,
        ({
            let start = day_number(t.0, t.1, t.2) * 86_400_000 + t.3 * 3_600_000 + t.4 * 60_000;
            start <= utc_ms < start + 60_000
        }),
        moment(utc_ms) == four(t.0) + "-"@ + two(t.1) + "-"@ + two(t.2) + " "@ + two(t.3) + ":"@ + two(t.4) + "Z"@,
{
    let day = utc_ms / 86_400_000;
    let w = lemma_has_date(day);
    let t = date_of(day);
    assert(is_date(t, day));
    lemma_minute(utc_ms);
    let secs = (utc_ms / 1000) % 86_400;
    (t.0, t.1, t.2, secs / 3600, (secs / 60) % 60)
}

} // verus!
