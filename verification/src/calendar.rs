//! Dates and times of day of Unix times, in the Gregorian calendar.
use crate::number::{
    dec, dec_zeros, digit, int_text, int_zeros, is_digit, lemma_dec_reads_back,
    lemma_zeros_read_back, zero_padded, zero_padded_int,
};
use crate::text::fill;
use vstd::prelude::*;
use vstd::utf8::is_ascii_chars;

verus! {

/// Whether the year `y` has a 29th of February.
pub open spec fn is_leap(y: int) -> bool {
    y % 4 == 0 && (y % 100 != 0 || y % 400 == 0)
}

/// The days of the month `m` in the year `y`.
pub open spec fn month_days(y: int, m: int) -> int {
    if m == 2 {
        if is_leap(y) {
            29
        } else {
            28
        }
    } else if m == 4 || m == 6 || m == 9 || m == 11 {
        30
    } else {
        31
    }
}

/// The days of the year `y` before the month `m` begins.
pub open spec fn days_before_month(y: int, m: int) -> int
    decreases m,
{
    if m <= 1 {
        0
    } else {
        days_before_month(y, m - 1) + month_days(y, m - 1)
    }
}

/// The days from the first of January of the year 1 to that of the year `y`.
pub open spec fn days_before_year(y: int) -> int {
    365 * (y - 1) + (y - 1) / 4 - (y - 1) / 100 + (y - 1) / 400
}

/// Whether there is a day `d` in the month `m` of the year `y`.
pub open spec fn is_date(y: int, m: int, d: int) -> bool {
    1 <= m <= 12 && 1 <= d <= month_days(y, m)
}

/// The days from the first of January 1970 to the given day.
pub open spec fn day_number(y: int, m: int, d: int) -> int {
    days_before_year(y) - days_before_year(1970) + days_before_month(y, m) + d - 1
}

/// A year is as long as its months: 365 days, or 366 with a 29th of February.
pub proof fn lemma_year_length(y: int)
    ensures
        days_before_year(y + 1) - days_before_year(y) == if is_leap(y) {
            366int
        } else {
            365
        },
        days_before_month(y, 13) == days_before_year(y + 1) - days_before_year(y),
{
    reveal_with_fuel(days_before_month, 14);
}

proof fn lemma_month_starts(y: int)
    ensures
        days_before_month(y, 1) == 0,
        days_before_month(y, 2) == 31,
        forall|mp: int|
            0 <= mp <= 9 ==> #[trigger] days_before_month(y, mp + 3) == 59 + (if is_leap(y) {
                1int
            } else {
                0
            }) + (153 * mp + 2) / 5,
{
    reveal_with_fuel(days_before_month, 13);
}

/// The days from the first of March of a year divisible by 400 to the first of March `n` years
/// later, for `n` below 400.
spec fn march_years(n: int) -> int {
    365 * n + n / 4 - n / 100
}

spec fn year_of_era(doe: int) -> int {
    (doe - doe / 1460 + doe / 36524 - doe / 146096) / 365
}

proof fn lemma_year_of_era(doe: int)
    requires
        0 <= doe <= 146096,
    ensures
        0 <= year_of_era(doe) <= 399,
        march_years(year_of_era(doe)) <= doe,
        doe < march_years(year_of_era(doe) + 1) || doe == 146096,
{
    let c = if doe / 36524 < 3 { doe / 36524 } else { 3 };
    let r = doe - 36524 * c;
    let q = if r / 1461 < 24 { r / 1461 } else { 24 };
    let s = r - 1461 * q;
    let k = if s / 365 < 3 { s / 365 } else { 3 };
    let t = s - 365 * k;
    let y = 100 * c + 4 * q + k;
    assert(0 <= r <= 36524);
    assert(0 <= s <= 1460);
    assert(0 <= t <= 365 && (t == 365 ==> k == 3));
    assert(y / 4 == 25 * c + q);
    assert(y / 100 == c);
    assert(march_years(y) == 36524 * c + 1461 * q + 365 * k);
    let x = 24 * c + q + 365 * k + t;
    let e: int = if x < 1460 { 0 } else { 1 };
    assert(0 <= x < 2920);
    assert(doe == 1460 * (25 * c + q) + x);
    assert(doe / 1460 == 25 * c + q + e);
    assert(doe / 36524 - doe / 146096 == c);
    assert(doe - doe / 1460 + doe / 36524 - doe / 146096 == 365 * y + (t - e));
    assert(0 <= t - e < 365);
    assert(year_of_era(doe) == y);
    assert(doe == march_years(y) + t);
    if t == 365 && doe != 146096 {
        assert(y % 4 == 3);
        assert((y + 1) / 4 == 25 * c + q + 1);
        assert(q < 24) by {
            if q == 24 {
                assert(r == 1461 * 24 + 1095 + 365);
                assert(c == 3);
            }
        }
        assert((y + 1) / 100 == c);
    }
    assert((y + 1) / 4 >= y / 4);
    assert(doe < march_years(y + 1) || doe == 146096) by {
        if t < 365 {
            if (y + 1) / 100 > c {
                assert(q == 24 && k == 3);
                assert((y + 1) / 4 == 25 * c + q + 1);
            }
        }
    }
}

/// No two dates have the same number.
pub proof fn lemma_day_number_injective(y1: int, m1: int, d1: int, y2: int, m2: int, d2: int)
    requires
        is_date(y1, m1, d1),
        is_date(y2, m2, d2),
        day_number(y1, m1, d1) == day_number(y2, m2, d2),
    ensures
        y1 == y2,
        m1 == m2,
        d1 == d2,
{
    lemma_in_year(y1, m1, d1);
    lemma_in_year(y2, m2, d2);
    if y1 < y2 {
        lemma_years_ascend(y1 + 1, y2);
    } else if y2 < y1 {
        lemma_years_ascend(y2 + 1, y1);
    } else {
        if m1 < m2 {
            lemma_months_ascend(y1, m1 + 1, m2);
        } else if m2 < m1 {
            lemma_months_ascend(y1, m2 + 1, m1);
        }
    }
}

/// `a / b`, rounded down.
fn floor_div(a: i64, b: i64) -> (q: i64)
    requires
        1 < b,
    ensures
        q == a as int / b as int,
        q * b <= a < q * b + b,
        -0x4000_0000_0000_0000 <= q < 0x4000_0000_0000_0000,
{
    let q: i64 = if a >= 0 {
        a / b
    } else {
        let m: i64 = -(a + 1);
        proof {
            let r = m as int % b as int;
            vstd::arithmetic::div_mod::lemma_fundamental_div_mod(m as int, b as int);
            assert(b * (-(m as int / b as int) - 1) == -(b * (m as int / b as int)) - b)
                by (nonlinear_arith);
            vstd::arithmetic::div_mod::lemma_fundamental_div_mod_converse(
                a as int,
                b as int,
                -(m as int / b as int) - 1,
                b - 1 - r,
            );
            vstd::arithmetic::div_mod::lemma_div_pos_is_pos(m as int, b as int);
            vstd::arithmetic::div_mod::lemma_div_is_ordered_by_denominator(m as int, 2, b as int);
        }
        -(m / b) - 1
    };
    proof {
        vstd::arithmetic::div_mod::lemma_fundamental_div_mod(a as int, b as int);
        vstd::arithmetic::mul::lemma_mul_is_commutative(q as int, b as int);
        if a >= 0 {
            vstd::arithmetic::div_mod::lemma_div_pos_is_pos(a as int, b as int);
            vstd::arithmetic::div_mod::lemma_div_is_ordered_by_denominator(a as int, 2, b as int);
        }
    }
    q
}

/// The day `doy` of the year that begins with March of `g` is a date, and which one.
proof fn lemma_march_date(g: int, doy: int, mp: int, d: int, m: int, year: int)
    requires
        0 <= doy <= 365,
        doy == 365 ==> is_leap(g + 1),
        mp == (5 * doy + 2) / 153,
        d == doy - (153 * mp + 2) / 5 + 1,
        m == if mp < 10 { mp + 3 } else { mp - 9 },
        year == if m <= 2 { g + 1 } else { g },
    ensures
        0 <= mp <= 11,
        is_date(year, m, d),
        day_number(year, m, d) == 365 * g + g / 4 - g / 100 + g / 400 + doy - 719468,
{
    lemma_month_starts(year);
    lemma_year_length(g);
    assert(0 <= mp <= 11);
    assert(days_before_year(1970) == 719162);
    assert(days_before_year(g + 1) == 365 * g + g / 4 - g / 100 + g / 400);
    if m > 2 {
        assert(days_before_month(g, mp + 3) == days_before_month(g, m));
    }
}

proof fn lemma_era_year(era: int, n: int)
    requires
        0 <= n < 400,
    ensures
        (n + era * 400) / 4 == n / 4 + 100 * era,
        (n + era * 400) / 100 == n / 100 + 4 * era,
        (n + era * 400) / 400 == era,
        is_leap(n + era * 400 + 1) == (n == 399 || ((n + 1) % 4 == 0 && (n + 1) % 100 != 0)),
{
}

/// The date of the day `z`, counted from the first of January 1970.
pub fn civil_from_days(z: i64) -> (r: (i64, u32, u32))
    requires
        z <= i64::MAX - 719468,
    ensures
        is_date(r.0 as int, r.1 as int, r.2 as int),
        day_number(r.0 as int, r.1 as int, r.2 as int) == z,
{
    let w: i64 = z + 719468;
    let era: i64 = floor_div(w, 146097);
    let doe: i64 = w - era * 146097;
    proof {
        lemma_year_of_era(doe as int);
    }
    let yoe: i64 = (doe - doe / 1460 + doe / 36524 - doe / 146096) / 365;
    assert(yoe == year_of_era(doe as int));
    assert(-70_000_000_000_000 <= era <= 70_000_000_000_000);
    let y: i64 = yoe + era * 400;
    let doy: i64 = doe - (365 * yoe + yoe / 4 - yoe / 100);
    assert(doy == doe - march_years(yoe as int));
    proof {
        lemma_era_year(era as int, yoe as int);
        assert(0 <= doy <= 365 && (doy == 365 ==> is_leap(y + 1))) by {
            let n = yoe as int;
            if doe == 146096 {
                assert(year_of_era(146096) == 399);
            }
            assert(march_years(n + 1) - march_years(n) == 365 + (n + 1) / 4 - n / 4 - (n + 1) / 100
                + n / 100);
        }
    }
    let mp: i64 = (5 * doy + 2) / 153;
    let d: i64 = doy - (153 * mp + 2) / 5 + 1;
    let m: i64 = if mp < 10 { mp + 3 } else { mp - 9 };
    let year: i64 = if m <= 2 { y + 1 } else { y };
    proof {
        lemma_march_date(y as int, doy as int, mp as int, d as int, m as int, year as int);
        assert(365 * y + y as int / 4 - y as int / 100 + y as int / 400 == 146097 * era
            + march_years(yoe as int));
    }
    (year, m as u32, d as u32)
}

proof fn lemma_years_ascend(a: int, b: int)
    requires
        a <= b,
    ensures
        days_before_year(a) <= days_before_year(b),
    decreases b - a,
{
    if a < b {
        lemma_years_ascend(a, b - 1);
        lemma_year_length(b - 1);
    }
}

proof fn lemma_months_ascend(y: int, a: int, b: int)
    requires
        1 <= a <= b,
    ensures
        days_before_month(y, a) <= days_before_month(y, b),
    decreases b - a,
{
    if a < b {
        lemma_months_ascend(y, a, b - 1);
    }
}

proof fn lemma_in_year(y: int, m: int, d: int)
    requires
        is_date(y, m, d),
    ensures
        0 <= days_before_month(y, m) + d - 1 < days_before_year(y + 1) - days_before_year(y),
        days_before_month(y, m) + d - 1 < days_before_month(y, m + 1),
{
    lemma_year_length(y);
    lemma_months_ascend(y, 1, m);
    lemma_months_ascend(y, m + 1, 13);
}

/// The date of the day `z`: its year, month and day.
pub open spec fn date_of_day(z: int) -> (int, int, int) {
    choose|r: (int, int, int)| is_date(r.0, r.1, r.2) && day_number(r.0, r.1, r.2) == z
}

/// Whether the Unix time `secs` can be moved by `offset` seconds.
pub open spec fn time_fits(secs: i64, offset: i64) -> bool {
    i64::MIN <= secs + offset <= i64::MAX
}

/// The date at the Unix time `secs` where clocks are `offset` seconds ahead: `YYYY-MM-DD`.
pub open spec fn date_text(secs: int, offset: int) -> Seq<char> {
    let (y, m, d) = date_of_day((secs + offset) / 86400);
    int_zeros(y, 4) + "-"@ + dec_zeros(m as nat, 2) + "-"@ + dec_zeros(d as nat, 2)
}

/// The time of day at the Unix time `secs` where clocks are `offset` seconds ahead: `HH:MM`.
pub open spec fn time_text(secs: int, offset: int) -> Seq<char> {
    let rem = (secs + offset) % 86400;
    dec_zeros((rem / 3600) as nat, 2) + ":"@ + dec_zeros((rem % 3600 / 60) as nat, 2)
}

/// The date and the time of day at `secs`.
pub fn fmt_date_time(secs: i64, offset: i64) -> (r: (String, String))
    requires
        time_fits(secs, offset),
    ensures
        r.0@ == date_text(secs as int, offset as int),
        r.1@ == time_text(secs as int, offset as int),
{
    let t: i64 = secs + offset;
    let days: i64 = floor_div(t, 86400);
    let rem: i64 = if t >= 0 {
        t % 86400
    } else {
        let m: i64 = -(t + 1);
        86399 - m % 86400
    };
    assert(rem == t as int % 86400);
    let (y, m, d) = civil_from_days(days);
    proof {
        let c = date_of_day(days as int);
        let w = (y as int, m as int, d as int);
        assert(is_date(w.0, w.1, w.2) && day_number(w.0, w.1, w.2) == days);
        lemma_day_number_injective(c.0, c.1, c.2, w.0, w.1, w.2);
    }
    let mut date = zero_padded_int(y, 4);
    date.append("-");
    date.append(zero_padded(m as u64, 2).as_str());
    date.append("-");
    date.append(zero_padded(d as u64, 2).as_str());
    let mut time = zero_padded((rem / 3600) as u64, 2);
    time.append(":");
    time.append(zero_padded((rem % 3600 / 60) as u64, 2).as_str());
    (date, time)
}

/// The date at `secs`.
pub fn fmt_date(secs: i64, offset: i64) -> (r: String)
    requires
        time_fits(secs, offset),
    ensures
        r@ == date_text(secs as int, offset as int),
{
    fmt_date_time(secs, offset).0
}

/// The time of day at `secs`.
pub fn fmt_time(secs: i64, offset: i64) -> (r: String)
    requires
        time_fits(secs, offset),
    ensures
        r@ == time_text(secs as int, offset as int),
{
    fmt_date_time(secs, offset).1
}

/// Each day has a date, whose number is that of the day; no other date has that number.
pub proof fn lemma_date_of_day(z: int)
    ensures
        is_date(date_of_day(z).0, date_of_day(z).1, date_of_day(z).2),
        day_number(date_of_day(z).0, date_of_day(z).1, date_of_day(z).2) == z,
{
    let w = z + 719468;
    let era = w / 146097;
    let doe = w - era * 146097;
    lemma_year_of_era(doe);
    let yoe = year_of_era(doe);
    let y = yoe + era * 400;
    let doy = doe - march_years(yoe);
    lemma_era_year(era, yoe);
    assert(0 <= doy <= 365 && (doy == 365 ==> is_leap(y + 1))) by {
        if doe == 146096 {
            assert(year_of_era(146096) == 399);
        }
        assert(march_years(yoe + 1) - march_years(yoe) == 365 + (yoe + 1) / 4 - yoe / 4 - (yoe + 1)
            / 100 + yoe / 100);
    }
    let mp = (5 * doy + 2) / 153;
    let d = doy - (153 * mp + 2) / 5 + 1;
    let m = if mp < 10 {
        mp + 3
    } else {
        mp - 9
    };
    let year = if m <= 2 {
        y + 1
    } else {
        y
    };
    lemma_march_date(y, doy, mp, d, m, year);
    assert(365 * y + y / 4 - y / 100 + y / 400 == 146097 * era + march_years(yoe));
    let r = (year, m, d);
    assert(is_date(r.0, r.1, r.2) && day_number(r.0, r.1, r.2) == z);
}

proof fn lemma_dec_shape(n: nat)
    requires
        n < 10000,
    ensures
        is_ascii_chars(dec(n)),
        dec(n).len() <= 4,
        n < 100 ==> dec(n).len() <= 2,
{
    reveal_with_fuel(dec, 5);
    lemma_dec_reads_back(n);
    assert forall|i: int| 0 <= i < dec(n).len() implies '\0' <= #[trigger] dec(n)[i] <= '\u{7f}' by {
        assert(is_digit(dec(n)[i]));
    }
}

proof fn lemma_zeros_shape(n: nat, w: int)
    requires
        n < 10000,
        dec(n).len() <= w,
    ensures
        is_ascii_chars(dec_zeros(n, w)),
        dec_zeros(n, w).len() == w,
{
    lemma_dec_shape(n);
}

/// In years of four digits a date has ten ASCII characters.
pub proof fn lemma_date_shape(secs: int, offset: int)
    requires
        ({
            let (y, m, d) = date_of_day((secs + offset) / 86400);
            0 <= y <= 9999
        }),
    ensures
        is_ascii_chars(date_text(secs, offset)),
        date_text(secs, offset).len() == 10,
{
    let day = (secs + offset) / 86400;
    let (y, m, d) = date_of_day(day);
    lemma_date_of_day(day);
    lemma_dec_shape(y as nat);
    lemma_dec_shape(m as nat);
    lemma_dec_shape(d as nat);
    lemma_zeros_shape(y as nat, 4);
    lemma_zeros_shape(m as nat, 2);
    lemma_zeros_shape(d as nat, 2);
    reveal_strlit("-");
    let t = date_text(secs, offset);
    let a = dec_zeros(y as nat, 4);
    let b = dec_zeros(m as nat, 2);
    let c = dec_zeros(d as nat, 2);
    assert(int_zeros(y, 4) == a);
    assert(t == a + "-"@ + b + "-"@ + c);
    assert forall|i: int| 0 <= i < t.len() implies '\0' <= #[trigger] t[i] <= '\u{7f}' by {
        if i < 4 {
            assert(t[i] == a[i]);
        } else if i == 4 || i == 7 {
            assert(t[i] == '-');
        } else if i < 7 {
            assert(t[i] == b[i - 5]);
        } else {
            assert(t[i] == c[i - 8]);
        }
    }
}

/// Day 0 is the first of January 1970.
pub proof fn lemma_first_day()
    ensures
        date_of_day(0) == (1970int, 1int, 1int),
{
    lemma_date_of_day(0);
    let (y, m, d) = date_of_day(0);
    reveal_with_fuel(days_before_month, 2);
    assert(day_number(1970, 1, 1) == 0);
    lemma_day_number_injective(y, m, d, 1970, 1, 1);
}

/// Behind a day comes the next of its month, or else the first of the next month, or of the next
/// year behind the 31st of December; a month has at least 28 days.
pub proof fn lemma_next_day(z: int)
    ensures
        ({
            let (y, m, d) = date_of_day(z);
            let next = date_of_day(z + 1);
            ||| next == (y, m, d + 1) && d <= 30
            ||| next == (y, m + 1, 1int) && d >= 28 && m <= 11
            ||| next == (y + 1, 1int, 1int) && m == 12 && d == 31
        }),
{
    lemma_date_of_day(z);
    lemma_date_of_day(z + 1);
    let (y, m, d) = date_of_day(z);
    let (a, b, c) = date_of_day(z + 1);
    if d < month_days(y, m) {
        lemma_day_number_injective(a, b, c, y, m, d + 1);
    } else if m < 12 {
        assert(days_before_month(y, m + 1) == days_before_month(y, m) + month_days(y, m));
        lemma_day_number_injective(a, b, c, y, m + 1, 1);
    } else {
        lemma_year_length(y);
        assert(days_before_month(y, 13) == days_before_month(y, 12) + month_days(y, 12));
        assert(days_before_month(y + 1, 1) == 0);
        lemma_day_number_injective(a, b, c, y + 1, 1, 1);
    }
}

proof fn lemma_months_alike(y: int, m: int)
    requires
        m <= 13,
    ensures
        days_before_month(y + 400, m) == days_before_month(y, m),
        month_days(y + 400, m) == month_days(y, m),
    decreases m,
{
    assert((y + 400) % 4 == y % 4 && (y + 400) % 100 == y % 100 && (y + 400) % 400 == y % 400);
    if m > 1 {
        lemma_months_alike(y, m - 1);
    }
}

/// Every 400 years, which have 146097 days, the dates come again.
pub proof fn lemma_dates_come_again(z: int)
    ensures
        ({
            let (y, m, d) = date_of_day(z);
            date_of_day(z + 146097) == (y + 400, m, d)
        }),
{
    lemma_date_of_day(z);
    lemma_date_of_day(z + 146097);
    let (y, m, d) = date_of_day(z);
    let (a, b, c) = date_of_day(z + 146097);
    lemma_months_alike(y, m);
    assert((y + 400 - 1) / 4 == (y - 1) / 4 + 100);
    assert((y + 400 - 1) / 100 == (y - 1) / 100 + 4);
    assert((y + 400 - 1) / 400 == (y - 1) / 400 + 1);
    lemma_day_number_injective(a, b, c, y + 400, m, d);
}

/// The two digits of `n`.
pub open spec fn two_digits(n: int) -> Seq<char> {
    seq![(48 + n / 10) as char, (48 + n % 10) as char]
}

proof fn lemma_two_digits(n: nat)
    requires
        n < 100,
    ensures
        dec_zeros(n, 2) == two_digits(n as int),
{
    reveal_with_fuel(dec, 3);
    if n < 10 {
        assert(fill('0', 1) == seq!['0']);
        assert(dec_zeros(n, 2) == two_digits(n as int));
    } else {
        assert(fill('0', 0) == Seq::<char>::empty());
        assert(dec(n) == seq![digit(n / 10)].push(digit(n % 10)));
        assert(dec_zeros(n, 2) == two_digits(n as int));
    }
}

proof fn lemma_four_digits(n: nat)
    requires
        n < 10000,
    ensures
        dec_zeros(n, 4) == two_digits(n as int / 100) + two_digits(n as int % 100),
{
    reveal_with_fuel(dec, 5);
    let r = two_digits(n as int / 100) + two_digits(n as int % 100);
    let a = n / 1000;
    let b = n / 100 % 10;
    let c = n / 10 % 10;
    let e = n % 10;
    assert(r == seq![digit(a), digit(b), digit(c), digit(e)]);
    if n < 10 {
        assert(dec(n) == seq![digit(e)]);
        assert(fill('0', 3) == seq!['0', '0', '0']);
    } else if n < 100 {
        assert(dec(n) == seq![digit(c), digit(e)]);
        assert(fill('0', 2) == seq!['0', '0']);
    } else if n < 1000 {
        assert(dec(n) == seq![digit(b), digit(c), digit(e)]);
        assert(fill('0', 1) == seq!['0']);
    } else {
        assert(dec(n) == seq![digit(a), digit(b), digit(c), digit(e)]);
        assert(fill('0', 0) == Seq::<char>::empty());
    }
    assert(dec_zeros(n, 4) == r);
}

/// A clock that is `offset` seconds ahead shows, `h` hours, `n` minutes and `s` seconds into a
/// day, those hours and minutes, and the date of that day: two digits each, and four of the year.
pub proof fn lemma_clock(secs: int, offset: int, day: int, h: int, n: int, s: int)
    requires
        secs + offset == 86400 * day + 3600 * h + 60 * n + s,
        0 <= h < 24,
        0 <= n < 60,
        0 <= s < 60,
    ensures
        time_text(secs, offset) == two_digits(h) + ":"@ + two_digits(n),
        ({
            let (y, m, d) = date_of_day(day);
            0 <= y <= 9999 ==> date_text(secs, offset) == two_digits(y / 100) + two_digits(y % 100)
                + "-"@ + two_digits(m) + "-"@ + two_digits(d)
        }),
{
    let t = secs + offset;
    assert(t / 86400 == day && t % 86400 == 3600 * h + 60 * n + s);
    let rem = t % 86400;
    assert(rem / 3600 == h);
    assert(rem % 3600 / 60 == n);
    lemma_two_digits(h as nat);
    lemma_two_digits(n as nat);
    lemma_date_of_day(day);
    let (y, m, d) = date_of_day(day);
    lemma_two_digits(m as nat);
    lemma_two_digits(d as nat);
    if 0 <= y <= 9999 {
        lemma_four_digits(y as nat);
    }
}

/// Also in years of other lengths a date is its year, which can be read back, its month and its
/// day, with hyphens between them.
pub proof fn lemma_any_year(secs: int, offset: int)
    ensures
        exists|year: Seq<char>|
            {
                let (y, m, d) = date_of_day((secs + offset) / 86400);
                &&& int_text(year) == Some(y)
                &&& year.len() >= 4
                &&& date_text(secs, offset) == #[trigger] (year + "-"@) + two_digits(m) + "-"@
                    + two_digits(d)
            },
{
    let (y, m, d) = date_of_day((secs + offset) / 86400);
    lemma_date_of_day((secs + offset) / 86400);
    lemma_two_digits(m as nat);
    lemma_two_digits(d as nat);
    lemma_zeros_read_back(y, 4);
    let year = int_zeros(y, 4);
    assert(date_text(secs, offset) == (year + "-"@) + two_digits(m) + "-"@ + two_digits(d));
}

} // verus!
