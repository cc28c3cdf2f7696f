//! Measurements and timestamps of bench events.

use crate::clock::unix_seconds;
use crate::text::{
    after_prefix, dec, dec_padded, lemma_dec_padded, lemma_numeral_order, lemma_order_of_beginnings,
    lemma_order_of_ends, lines, lines_from, number_of, parse_u64, push_dec_padded, strip_prefix,
    text_before, words, words_of,
};
use vstd::prelude::*;
use vstd::string::*;

verus! {

/// Whether `y` is a leap year of the Gregorian calendar.
pub open spec fn is_leap(y: int) -> bool {
    y % 4 == 0 && (y % 100 != 0 || y % 400 == 0)
}

/// The number of days of the year `y`.
pub open spec fn year_len(y: int) -> int {
    if is_leap(y) {
        366
    } else {
        365
    }
}

/// The number of days of the month `m` of the year `y`.
pub open spec fn month_len(y: int, m: int) -> int {
    if m == 2 {
        if is_leap(y) {
            29
        } else {
            28
        }
    } else if m == 4 || m == 6 || m == 9 || m == 11 {
        30
    } else {
        31
    }
}

/// Days from the start of 1970 to the start of the year `y`.
pub open spec fn days_to_year(y: int) -> int
    decreases y - 1970,
{
    if y <= 1970 {
        0
    } else {
        days_to_year(y - 1) + year_len(y - 1)
    }
}

/// Days from the start of the year `y` to the start of its month `m`.
pub open spec fn days_to_month(y: int, m: int) -> int
    decreases m,
{
    if m <= 1 {
        0
    } else {
        days_to_month(y, m - 1) + month_len(y, m - 1)
    }
}

/// Whether `y-m-d` is a date of 1970 or later.
pub open spec fn is_date(y: int, m: int, d: int) -> bool {
    y >= 1970 && 1 <= m <= 12 && 1 <= d <= month_len(y, m)
}

/// Days from 1970-01-01 to the date `y-m-d`.
pub open spec fn day_number(y: int, m: int, d: int) -> int {
    days_to_year(y) + days_to_month(y, m) + d - 1
}

/// The leap years from year 1 up to and including `n`.
spec fn leaps(n: int) -> int {
    n / 4 - n / 100 + n / 400
}

proof fn lemma_leaps_step(n: int)
    requires
        n >= 1,
    ensures
        leaps(n) == leaps(n - 1) + if is_leap(n) {
            1int
        } else {
            0int
        },
{
    assert(n / 4 == (n - 1) / 4 + if n % 4 == 0 {
        1int
    } else {
        0int
    });
    assert(n / 100 == (n - 1) / 100 + if n % 100 == 0 {
        1int
    } else {
        0int
    });
    assert(n / 400 == (n - 1) / 400 + if n % 400 == 0 {
        1int
    } else {
        0int
    });
    assert(n % 100 == 0 ==> n % 4 == 0);
    assert(n % 400 == 0 ==> n % 100 == 0);
}

proof fn lemma_days_to_year(y: int)
    requires
        y >= 1970,
    ensures
        days_to_year(y) == 365 * (y - 1970) + leaps(y - 1) - 477,
    decreases y,
{
    if y > 1970 {
        lemma_days_to_year(y - 1);
        lemma_leaps_step(y - 1);
    }
}

proof fn lemma_days_to_month(y: int)
    ensures
        days_to_month(y, 1) == 0,
        days_to_month(y, 2) == 31,
        forall|m: int|
            3 <= m <= 12 ==> #[trigger] days_to_month(y, m) == month_start(m - 3) + if is_leap(y) {
                60int
            } else {
                59int
            },
{
    reveal_with_fuel(days_to_month, 13);
}

/// Days from the first of March to the start of the month that comes `mp` months
/// after it.
spec fn month_start(mp: int) -> int {
    if mp == 0 {
        0
    } else if mp == 1 {
        31
    } else if mp == 2 {
        61
    } else if mp == 3 {
        92
    } else if mp == 4 {
        122
    } else if mp == 5 {
        153
    } else if mp == 6 {
        184
    } else if mp == 7 {
        214
    } else if mp == 8 {
        245
    } else if mp == 9 {
        275
    } else if mp == 10 {
        306
    } else {
        337
    }
}

proof fn lemma_month_formula(doy: int)
    requires
        0 <= doy <= 365,
    ensures
        ({
            let mp = (5 * doy + 2) / 153;
            &&& 0 <= mp <= 11
            &&& (153 * mp + 2) / 5 == month_start(mp)
            &&& month_start(mp) <= doy
            &&& mp < 11 ==> doy < month_start(mp + 1)
        }),
{
    let mp = (5 * doy + 2) / 153;
    assert(153 * mp <= 5 * doy + 2 < 153 * mp + 153);
    assert(0 <= mp <= 11);
}

/// A date by year, month and day.
#[derive(Debug, Clone, Copy, PartialEq, Eq, Structural)]
pub struct CivilDate {
    pub year: u64,
    pub month: u64,
    pub day: u64,
}

/// Days from 0000-03-01 to the first of March of the year `y`.
spec fn march_days(y: int) -> int {
    365 * y + leaps(y)
}

/// Cuts days since 0000-03-01 into a year that starts in March and a day of it.
fn march_year(z: u64) -> (r: (u64, u64))
    ensures
        march_days(r.0 as int) + r.1 == z,
        0 <= r.1 <= 365,
        r.1 == 365 ==> is_leap(r.0 + 1),
        r.0 <= z / 365,
{
    let era: u64 = z / 146_097;
    let doe: u64 = z % 146_097;
    // Centuries of 36524 days; the fourth is a day longer.
    let c: u64 = if doe / 36_524 < 4 {
        doe / 36_524
    } else {
        3
    };
    let r1: u64 = doe - 36_524 * c;
    // Four-year spans of 1461 days; the last of a century is a day shorter, but
    // for the last of the fourth.
    let q: u64 = r1 / 1_461;
    let r2: u64 = r1 - 1_461 * q;
    let k: u64 = if r2 / 365 < 4 {
        r2 / 365
    } else {
        3
    };
    let doy: u64 = r2 - 365 * k;
    let y: u64 = 400 * era + 100 * c + 4 * q + k;
    proof {
        lemma_march_year(z as int, era as int, c as int, q as int, k as int, doy as int);
    }
    (y, doy)
}

proof fn lemma_march_year(z: int, era: int, c: int, q: int, k: int, doy: int)
    requires
        z == 146_097 * era + 36_524 * c + 1_461 * q + 365 * k + doy,
        0 <= era,
        0 <= c <= 3,
        0 <= q <= 24,
        0 <= k <= 3,
        0 <= doy <= 365,
        k < 3 ==> doy < 365,
        c < 3 && q == 24 ==> 365 * k + doy < 1460,
    ensures
        march_days(400 * era + 100 * c + 4 * q + k) + doy == z,
        doy == 365 ==> is_leap(400 * era + 100 * c + 4 * q + k + 1),
        400 * era + 100 * c + 4 * q + k <= z / 365,
{
    let y = 400 * era + 100 * c + 4 * q + k;
    assert(y / 4 == 100 * era + 25 * c + q);
    assert(y / 100 == 4 * era + c);
    assert(y / 400 == era);
    assert(leaps(y) == 97 * era + 24 * c + q);
    assert(march_days(y) == 146_097 * era + 36_524 * c + 1_461 * q + 365 * k);
    if doy == 365 {
        assert(k == 3);
        assert((y + 1) % 4 == 0);
        if q == 24 {
            assert(c == 3);
            assert((y + 1) % 400 == 0);
        } else {
            assert((y + 1) % 100 == 4 * (q + 1));
        }
    }
    assert(365 * y <= z);
}

/// The date `days` after 1970-01-01.
pub fn civil_from_days(days: u64) -> (r: CivilDate)
    requires
        days <= u64::MAX - 719_468,
    ensures
        is_date(r.year as int, r.month as int, r.day as int),
        day_number(r.year as int, r.month as int, r.day as int) == days,
{
    let z: u64 = days + 719_468;
    let (y, doy): (u64, u64) = march_year(z);
    proof {
        lemma_month_formula(doy as int);
    }
    let mp: u64 = (5 * doy + 2) / 153;
    let d: u64 = doy - (153 * mp + 2) / 5 + 1;
    let m: u64 = if mp < 10 {
        mp + 3
    } else {
        mp - 9
    };
    let year: u64 = if m <= 2 {
        y + 1
    } else {
        y
    };
    proof {
        assert(y >= 1969) by {
            if y <= 1968 {
                lemma_march_days_mono(y as int, 1968);
                assert(leaps(1968) == 492 - 19 + 4);
            }
        }
        lemma_days_to_month(year as int);
        if mp < 10 {
            if y == 1969 {
                assert(leaps(1969) == 492 - 19 + 4);
                assert(march_days(1969) == 719_162);
            }
            assert(y >= 1970);
            lemma_days_to_year(y as int);
            lemma_leaps_step(y as int);
            assert(days_to_month(y as int, m as int) == month_start(mp as int) + if is_leap(y as int) {
                60int
            } else {
                59int
            });
        } else {
            lemma_days_to_year(y + 1);
            assert(mp == 10 ==> m == 1);
            assert(mp == 11 ==> m == 2);
        }
    }
    CivilDate { year, month: m, day: d }
}

proof fn lemma_march_days_mono(a: int, b: int)
    requires
        0 <= a <= b,
    ensures
        march_days(a) <= march_days(b),
    decreases b - a,
{
    if a < b {
        lemma_leaps_step(b);
        lemma_march_days_mono(a, b - 1);
    }
}

/// A moment in the form `YYYY-MM-DDTHH:MM:SSZ`.
pub open spec fn iso_text(y: nat, m: nat, d: nat, hour: nat, minute: nat, second: nat) -> Seq<char> {
    dec_padded(y, 4) + "-"@ + dec_padded(m, 2) + "-"@ + dec_padded(d, 2) + "T"@ + dec_padded(
        hour,
        2,
    ) + ":"@ + dec_padded(minute, 2) + ":"@ + dec_padded(second, 2) + "Z"@
}

/// Whether `text` is the moment `secs` seconds after the start of 1970.
pub open spec fn is_moment(text: Seq<char>, secs: nat) -> bool {
    exists|y: nat, m: nat, d: nat|
        #![trigger is_date(y as int, m as int, d as int)]
        is_date(y as int, m as int, d as int) && day_number(y as int, m as int, d as int) == secs
            / 86_400 && text == iso_text(
            y,
            m,
            d,
            secs % 86_400 / 3_600,
            secs % 3_600 / 60,
            secs % 60,
        )
}

/// The moment `secs` seconds after the start of 1970, in UTC.
pub fn format_iso8601_utc(secs: u64) -> (r: String)
    ensures
        is_moment(r@, secs as nat),
{
    let days: u64 = secs / 86_400;
    let rem: u64 = secs % 86_400;
    let hour: u64 = rem / 3_600;
    let minute: u64 = (rem % 3_600) / 60;
    let second: u64 = rem % 60;
    let date: CivilDate = civil_from_days(days);
    proof {
        assert(rem % 3_600 == secs % 3_600);
        assert(rem % 60 == secs % 60);
        assert(is_date(date.year as nat as int, date.month as nat as int, date.day as nat as int));
    }
    let mut r = String::new();
    push_dec_padded(&mut r, date.year, 4);
    assert(r@ =~= dec_padded(date.year as nat, 4));
    r.append("-");
    push_dec_padded(&mut r, date.month, 2);
    r.append("-");
    push_dec_padded(&mut r, date.day, 2);
    r.append("T");
    push_dec_padded(&mut r, hour, 2);
    r.append(":");
    push_dec_padded(&mut r, minute, 2);
    r.append(":");
    push_dec_padded(&mut r, second, 2);
    r.append("Z");
    assert(r@ == iso_text(
        date.year as nat,
        date.month as nat,
        date.day as nat,
        secs as nat % 86_400 / 3_600,
        secs as nat % 3_600 / 60,
        secs as nat % 60,
    ));
    r
}

proof fn lemma_month_bounds(y: int, m: int)
    requires
        1 <= m <= 12,
    ensures
        0 <= days_to_month(y, m),
        days_to_month(y, m) + month_len(y, m) <= year_len(y),
        m < 12 ==> days_to_month(y, m + 1) == days_to_month(y, m) + month_len(y, m),
{
    lemma_days_to_month(y);
}

proof fn lemma_year_order(a: int, b: int)
    requires
        1970 <= a < b,
    ensures
        days_to_year(a) + year_len(a) <= days_to_year(b),
    decreases b - a,
{
    if a < b - 1 {
        lemma_year_order(a, b - 1);
    }
}

/// A day has one date only.
pub proof fn civil_date_is_unique(y1: int, m1: int, d1: int, y2: int, m2: int, d2: int)
    requires
        is_date(y1, m1, d1),
        is_date(y2, m2, d2),
        day_number(y1, m1, d1) == day_number(y2, m2, d2),
    ensures
        y1 == y2,
        m1 == m2,
        d1 == d2,
{
    lemma_month_bounds(y1, m1);
    lemma_month_bounds(y2, m2);
    if y1 < y2 {
        lemma_year_order(y1, y2);
    } else if y2 < y1 {
        lemma_year_order(y2, y1);
    } else {
        lemma_days_to_month(y1);
    }
}

/// Dates of ascending days ascend by year, then by month, then by day.
proof fn lemma_dates_ascend(y1: int, m1: int, d1: int, y2: int, m2: int, d2: int)
    requires
        is_date(y1, m1, d1),
        is_date(y2, m2, d2),
        day_number(y1, m1, d1) < day_number(y2, m2, d2),
    ensures
        y1 <= y2,
        y1 == y2 ==> m1 <= m2,
        y1 == y2 && m1 == m2 ==> d1 < d2,
{
    lemma_month_bounds(y1, m1);
    lemma_month_bounds(y2, m2);
    if y2 < y1 {
        lemma_year_order(y2, y1);
    } else if y1 == y2 {
        lemma_days_to_month(y1);
    }
}

/// The first second after the year 9999.
pub const END_OF_YEAR_9999: u64 = 253_402_300_800;

proof fn lemma_four_digit_year(y: int, m: int, d: int)
    requires
        is_date(y, m, d),
        day_number(y, m, d) < END_OF_YEAR_9999 / 86_400,
    ensures
        y <= 9_999,
{
    lemma_month_bounds(y, m);
    if y > 9_999 {
        lemma_days_to_year(10_000);
        assert(leaps(9_999) == 2_499 - 99 + 24);
        if y > 10_000 {
            lemma_year_order(10_000, y);
        }
    }
}

proof fn lemma_field_width(n: nat, width: nat)
    requires
        width == 2 && n < 100 || width == 4 && n < 10_000,
    ensures
        dec(n).len() <= width,
{
    reveal_with_fuel(dec, 5);
}

/// Within a day, hour, minute and second ascend one after the other.
proof fn lemma_clock_ascends(s: nat, t: nat)
    requires
        s < t,
        s / 86_400 == t / 86_400,
    ensures
        ({
            let (h1, i1, s1) = (s % 86_400 / 3_600, s % 3_600 / 60, s % 60);
            let (h2, i2, s2) = (t % 86_400 / 3_600, t % 3_600 / 60, t % 60);
            h1 < h2 || h1 == h2 && (i1 < i2 || i1 == i2 && s1 < s2)
        }),
{
    assert(s % 86_400 < t % 86_400);
    let (u, v) = (s % 86_400, t % 86_400);
    assert(s % 3_600 == u % 3_600 && t % 3_600 == v % 3_600);
    assert(s % 60 == u % 3_600 % 60 && t % 60 == v % 3_600 % 60);
}

/// Whether `a` comes before `b`, or is the same where `less` is not given.
spec fn in_order(a: Seq<char>, b: Seq<char>, less: bool) -> bool {
    a.len() == b.len() && if less {
        text_before(a, b)
    } else {
        a == b
    }
}

/// One more field keeps the order of two texts, and decides it where they are the
/// same so far.
proof fn lemma_field_order(
    a: Seq<char>,
    b: Seq<char>,
    less: bool,
    sep: Seq<char>,
    m: nat,
    n: nat,
)
    requires
        in_order(a, b, less),
        less || m <= n,
        m < 100,
        n < 100,
    ensures
        in_order(a + sep + dec_padded(m, 2), b + sep + dec_padded(n, 2), less || m < n),
        (a + sep + dec_padded(m, 2)).len() == a.len() + sep.len() + 2,
{
    lemma_field_width(m, 2);
    lemma_field_width(n, 2);
    lemma_dec_padded(m, 2);
    lemma_dec_padded(n, 2);
    if less {
        lemma_order_of_beginnings(a, b, sep, sep);
        lemma_order_of_beginnings(a + sep, b + sep, dec_padded(m, 2), dec_padded(n, 2));
    } else if m < n {
        lemma_numeral_order(dec_padded(m, 2), dec_padded(n, 2));
        lemma_order_of_ends(a + sep, dec_padded(m, 2), dec_padded(n, 2));
    }
}

/// A smaller date has the smaller beginning.
proof fn lemma_date_texts(y1: nat, m1: nat, d1: nat, y2: nat, m2: nat, d2: nat, less: bool)
    requires
        y1 < 10_000,
        m1 < 100,
        d1 < 100,
        y2 < 10_000,
        m2 < 100,
        d2 < 100,
        less ==> y1 < y2 || y1 == y2 && (m1 < m2 || m1 == m2 && d1 < d2),
        !less ==> y1 == y2 && m1 == m2 && d1 == d2,
    ensures
        in_order(
            dec_padded(y1, 4) + "-"@ + dec_padded(m1, 2) + "-"@ + dec_padded(d1, 2),
            dec_padded(y2, 4) + "-"@ + dec_padded(m2, 2) + "-"@ + dec_padded(d2, 2),
            less,
        ),
        (dec_padded(y1, 4) + "-"@ + dec_padded(m1, 2) + "-"@ + dec_padded(d1, 2)).len() == 10,
{
    reveal_strlit("-");
    lemma_field_width(y1, 4);
    lemma_field_width(y2, 4);
    lemma_dec_padded(y1, 4);
    lemma_dec_padded(y2, 4);
    let (a0, b0) = (dec_padded(y1, 4), dec_padded(y2, 4));
    lemma_numeral_order(a0, b0);
    lemma_field_order(a0, b0, y1 < y2, "-"@, m1, m2);
    let (a1, b1) = (a0 + "-"@ + dec_padded(m1, 2), b0 + "-"@ + dec_padded(m2, 2));
    lemma_field_order(a1, b1, y1 < y2 || m1 < m2, "-"@, d1, d2);
}

/// A smaller time of day makes the smaller text where the date is the same.
proof fn lemma_clock_texts(
    a: Seq<char>,
    b: Seq<char>,
    less: bool,
    h1: nat,
    i1: nat,
    s1: nat,
    h2: nat,
    i2: nat,
    s2: nat,
)
    requires
        in_order(a, b, less),
        less || h1 < h2 || h1 == h2 && (i1 < i2 || i1 == i2 && s1 < s2),
        h1 < 100,
        i1 < 100,
        s1 < 100,
        h2 < 100,
        i2 < 100,
        s2 < 100,
    ensures
        ({
            let x = a + "T"@ + dec_padded(h1, 2) + ":"@ + dec_padded(i1, 2) + ":"@ + dec_padded(s1, 2)
                + "Z"@;
            let y = b + "T"@ + dec_padded(h2, 2) + ":"@ + dec_padded(i2, 2) + ":"@ + dec_padded(s2, 2)
                + "Z"@;
            x.len() == y.len() == a.len() + 10 && text_before(x, y)
        }),
{
    reveal_strlit("T");
    reveal_strlit(":");
    reveal_strlit("Z");
    lemma_field_order(a, b, less, "T"@, h1, h2);
    let (a1, b1) = (a + "T"@ + dec_padded(h1, 2), b + "T"@ + dec_padded(h2, 2));
    let less1 = less || h1 < h2;
    lemma_field_order(a1, b1, less1, ":"@, i1, i2);
    let (a2, b2) = (a1 + ":"@ + dec_padded(i1, 2), b1 + ":"@ + dec_padded(i2, 2));
    let less2 = less1 || i1 < i2;
    lemma_field_order(a2, b2, less2, ":"@, s1, s2);
    let (a3, b3) = (a2 + ":"@ + dec_padded(s1, 2), b2 + ":"@ + dec_padded(s2, 2));
    lemma_order_of_beginnings(a3, b3, "Z"@, "Z"@);
}

/// Up to the end of the year 9999, moments sort as their texts do: all texts have
/// the same length, and an earlier moment has the smaller text.
pub proof fn moments_sort_as_texts(a: Seq<char>, b: Seq<char>, s: nat, t: nat)
    requires
        is_moment(a, s),
        is_moment(b, t),
        s < t,
        t < END_OF_YEAR_9999,
    ensures
        a.len() == 20,
        b.len() == 20,
        text_before(a, b),
{
    let (h1, i1, s1) = (s % 86_400 / 3_600, s % 3_600 / 60, s % 60);
    let (h2, i2, s2) = (t % 86_400 / 3_600, t % 3_600 / 60, t % 60);
    let (y1, m1, d1) = choose|y: nat, m: nat, d: nat|
        #![trigger is_date(y as int, m as int, d as int)]
        is_date(y as int, m as int, d as int) && day_number(y as int, m as int, d as int) == s / 86_400
            && a == iso_text(y, m, d, h1, i1, s1);
    let (y2, m2, d2) = choose|y: nat, m: nat, d: nat|
        #![trigger is_date(y as int, m as int, d as int)]
        is_date(y as int, m as int, d as int) && day_number(y as int, m as int, d as int) == t / 86_400
            && b == iso_text(y, m, d, h2, i2, s2);
    lemma_four_digit_year(y1 as int, m1 as int, d1 as int);
    lemma_four_digit_year(y2 as int, m2 as int, d2 as int);
    let less = s / 86_400 < t / 86_400;
    if less {
        lemma_dates_ascend(y1 as int, m1 as int, d1 as int, y2 as int, m2 as int, d2 as int);
    } else {
        civil_date_is_unique(y1 as int, m1 as int, d1 as int, y2 as int, m2 as int, d2 as int);
        lemma_clock_ascends(s, t);
    }
    lemma_date_texts(y1, m1, d1, y2, m2, d2, less);
    let (x, y) = (
        dec_padded(y1, 4) + "-"@ + dec_padded(m1, 2) + "-"@ + dec_padded(d1, 2),
        dec_padded(y2, 4) + "-"@ + dec_padded(m2, 2) + "-"@ + dec_padded(d2, 2),
    );
    lemma_clock_texts(x, y, less, h1, i1, s1, h2, i2, s2);
}

/// The second that a reading of the clock stands for. A clock that is set to a time
/// before 1970 reads nothing, and counts as the start of 1970.
pub open spec fn second_read(reading: Option<u64>) -> nat {
    match reading {
        Some(secs) => secs as nat,
        None => 0,
    }
}

/// The moment that a reading of the clock stands for, in UTC.
pub fn reading_iso8601(reading: Option<u64>) -> (r: String)
    ensures
        is_moment(r@, second_read(reading)),
{
    match reading {
        Some(secs) => format_iso8601_utc(secs),
        None => format_iso8601_utc(0),
    }
}

/// The present moment in UTC.
pub fn now_iso8601() -> (r: String)
    ensures
        exists|reading: Option<u64>| #[trigger] is_moment(r@, second_read(reading)),
{
    let reading: Option<u64> = unix_seconds();
    let r: String = reading_iso8601(reading);
    assert(is_moment(r@, second_read(reading)));
    r
}

/// Whole mebibytes of `kb` kibibytes.
pub fn kb_to_mb(kb: u64) -> (r: u64)
    ensures
        r == kb as int / 1024,
{
    kb / 1024
}

/// The number that follows `field` in the first of the lines that starts with it.
pub open spec fn field_kb(rows: Seq<Seq<char>>, field: Seq<char>, i: int) -> Option<u64>
    decreases rows.len() - i,
{
    if i < 0 || i >= rows.len() {
        None
    } else {
        match after_prefix(rows[i], field) {
            Some(rest) => if words_of(rest).len() > 0 {
                number_of(words_of(rest)[0])
            } else {
                None
            },
            None => field_kb(rows, field, i + 1),
        }
    }
}

/// The number that a process status gives for `field`, in kibibytes.
pub fn read_proc_status_kb(content: &str, field: &str) -> (r: Option<u64>)
    ensures
        r == field_kb(lines_from(content@, 0), field@, 0),
{
    let rows: Vec<String> = lines(content);
    let ghost texts = rows@.map_values(|w: String| w@);
    let n: usize = rows.len();
    let mut i: usize = 0;
    while i < n
        invariant
            i <= n == rows@.len(),
            texts == rows@.map_values(|w: String| w@),
            texts == lines_from(content@, 0),
            field_kb(texts, field@, 0) == field_kb(texts, field@, i as int),
        decreases n - i,
    {
        assert(texts[i as int] == rows@[i as int]@);
        match strip_prefix(rows[i].as_str(), field) {
            Some(rest) => {
                let ws: Vec<String> = words(rest);
                assert(words_of(rest@).len() == ws@.len());
                if ws.len() == 0 {
                    return None;
                }
                assert(words_of(rest@)[0] == ws@[0]@);
                return parse_u64(ws[0].as_str());
            },
            None => {},
        }
        i = i + 1;
    }
    None
}

/// The peak resident size in mebibytes, from the text of `/proc/self/status`.
pub fn peak_rss_mb(status: &str) -> (r: Option<u64>)
    ensures
        r == match field_kb(lines_from(status@, 0), "VmHWM:"@, 0) {
            Some(kb) => Some((kb as int / 1024) as u64),
            None => None,
        },
{
    match read_proc_status_kb(status, "VmHWM:") {
        Some(kb) => Some(kb_to_mb(kb)),
        None => None,
    }
}

/// The resident size in mebibytes, from the text of `/proc/self/status`.
pub fn current_rss_mb(status: &str) -> (r: Option<u64>)
    ensures
        r == match field_kb(lines_from(status@, 0), "VmRSS:"@, 0) {
            Some(kb) => Some((kb as int / 1024) as u64),
            None => None,
        },
{
    match read_proc_status_kb(status, "VmRSS:") {
        Some(kb) => Some(kb_to_mb(kb)),
        None => None,
    }
}

/// User and system time together, in milliseconds; none where it is negative.
/// Each is given as seconds and microseconds.
pub fn cpu_time_ms(user_sec: i64, user_usec: i64, sys_sec: i64, sys_usec: i64) -> (r: Option<u64>)
    requires
        i64::MIN <= user_sec * 1_000_000 + user_usec <= i64::MAX,
        i64::MIN <= sys_sec * 1_000_000 + sys_usec <= i64::MAX,
        i64::MIN <= user_sec * 1_000_000 <= i64::MAX,
        i64::MIN <= sys_sec * 1_000_000 <= i64::MAX,
    ensures
        ({
            let sum = user_sec * 1_000_000 + user_usec + sys_sec * 1_000_000 + sys_usec;
            let total = if sum > i64::MAX {
                i64::MAX as int
            } else {
                sum
            };
            r == if total < 0 {
                None::<u64>
            } else {
                Some((total / 1_000) as u64)
            }
        }),
{
    let user_us: i64 = user_sec * 1_000_000 + user_usec;
    let sys_us: i64 = sys_sec * 1_000_000 + sys_usec;
    let total_us: i64 = match user_us.checked_add(sys_us) {
        Some(t) => t,
        None => {
            if user_us < 0 {
                return None;
            }
            i64::MAX
        },
    };
    if total_us < 0 {
        return None;
    }
    Some((total_us as u64) / 1_000)
}

/// An event's line on the output: its JSON behind a fixed mark.
pub fn event_line(json: &str) -> (r: String)
    ensures
        r@ == "BENCH_EVENT "@ + json@ + "\n"@,
{
    let mut r = String::from_str("BENCH_EVENT ");
    r.append(json);
    r.append("\n");
    r
}

/// Resident and peak virtual size in kibibytes, from the text of a process
/// status. Of several lines for one field the last that has a number column
/// counts; what is no number counts as 0.
pub fn get_memory_stats_kb(content: &str) -> (r: (u64, u64))
    ensures
        r.0 == last_column(lines_from(content@, 0), "VmRSS:"@),
        r.1 == last_peak(lines_from(content@, 0)),
{
    let rows: Vec<String> = lines(content);
    let ghost texts = rows@.map_values(|w: String| w@);
    let n: usize = rows.len();
    let mut rss: u64 = 0;
    let mut peak: u64 = 0;
    let mut i: usize = 0;
    assert(texts.take(0) =~= Seq::<Seq<char>>::empty());
    while i < n
        invariant
            i <= n == rows@.len(),
            texts == rows@.map_values(|w: String| w@),
            rss == last_column(texts.take(i as int), "VmRSS:"@),
            peak == last_peak(texts.take(i as int)),
        decreases n - i,
    {
        assert(texts[i as int] == rows@[i as int]@);
        assert(texts.take(i + 1).drop_last() =~= texts.take(i as int));
        assert(texts.take(i + 1).last() == texts[i as int]);
        let line: &str = rows[i].as_str();
        if strip_prefix(line, "VmRSS:").is_some() {
            let ws: Vec<String> = words(line);
            assert(words_of(line@).len() == ws@.len());
            if ws.len() >= 2 {
                assert(words_of(line@)[1] == ws@[1]@);
                rss = match parse_u64(ws[1].as_str()) {
                    Some(v) => v,
                    None => 0,
                };
            }
        } else if strip_prefix(line, "VmPeak:").is_some() {
            let ws: Vec<String> = words(line);
            assert(words_of(line@).len() == ws@.len());
            if ws.len() >= 2 {
                assert(words_of(line@)[1] == ws@[1]@);
                peak = match parse_u64(ws[1].as_str()) {
                    Some(v) => v,
                    None => 0,
                };
            }
        }
        i = i + 1;
    }
    assert(texts.take(n as int) =~= texts);
    (rss, peak)
}

/// The number column of a line, where it has one.
pub open spec fn number_column(line: Seq<char>) -> Option<u64> {
    if words_of(line).len() < 2 {
        None
    } else {
        match number_of(words_of(line)[1]) {
            Some(v) => Some(v),
            None => Some(0),
        }
    }
}

/// The number column of the last line for `field` that has one, 0 if none has.
pub open spec fn last_column(rows: Seq<Seq<char>>, field: Seq<char>) -> u64
    decreases rows.len(),
{
    if rows.len() == 0 {
        0
    } else if after_prefix(rows.last(), field) is Some && number_column(rows.last()) is Some {
        number_column(rows.last())->0
    } else {
        last_column(rows.drop_last(), field)
    }
}

/// The same for the peak size, of the lines that are not for the resident size.
pub open spec fn last_peak(rows: Seq<Seq<char>>) -> u64
    decreases rows.len(),
{
    if rows.len() == 0 {
        0
    } else if after_prefix(rows.last(), "VmRSS:"@) is None && after_prefix(rows.last(), "VmPeak:"@) is Some
        && number_column(rows.last()) is Some {
        number_column(rows.last())->0
    } else {
        last_peak(rows.drop_last())
    }
}

/// A figure is read from the first line for it, wherever that stands: lines before it
/// are for others, and lines behind it do not count.
pub proof fn figures_are_read_from_their_line(
    before: Seq<Seq<char>>,
    field: Seq<char>,
    rest: Seq<char>,
    after: Seq<Seq<char>>,
)
    requires
        forall|i: int|
            0 <= i < before.len() ==> after_prefix(#[trigger] before[i], field) is None,
        words_of(rest).len() > 0,
    ensures
        field_kb(before.push(field + rest) + after, field, 0) == number_of(words_of(rest)[0]),
        field_kb(before, field, 0) is None,
{
    let rows = before.push(field + rest) + after;
    let line = field + rest;
    assert(line.take(field.len() as int) =~= field);
    assert(line.skip(field.len() as int) =~= rest);
    assert(rows[before.len() as int] == line);
    lemma_skip_rows(rows, before, field, 0);
    lemma_skip_rows(before, before, field, 0);
}

proof fn lemma_skip_rows(rows: Seq<Seq<char>>, before: Seq<Seq<char>>, field: Seq<char>, i: int)
    requires
        0 <= i <= before.len() <= rows.len(),
        forall|j: int| 0 <= j < before.len() ==> #[trigger] rows[j] == before[j],
        forall|j: int|
            0 <= j < before.len() ==> after_prefix(#[trigger] before[j], field) is None,
    ensures
        field_kb(rows, field, i) == field_kb(rows, field, before.len() as int),
    decreases before.len() - i,
{
    if i < before.len() {
        assert(rows[i] == before[i]);
        lemma_skip_rows(rows, before, field, i + 1);
    }
}

/// Of several lines for the resident size the last one with a number counts, and lines
/// for anything else do not matter.
pub proof fn the_last_figure_counts(rows: Seq<Seq<char>>, line: Seq<char>, field: Seq<char>)
    ensures
        after_prefix(line, field) is None ==> last_column(rows.push(line), field) == last_column(
            rows,
            field,
        ),
        after_prefix(line, field) is Some && words_of(line).len() >= 2 ==> last_column(
            rows.push(line),
            field,
        ) == match number_of(words_of(line)[1]) {
            Some(v) => v,
            None => 0,
        },
        after_prefix(line, "VmPeak:"@) is None ==> last_peak(rows.push(line)) == last_peak(rows),
        last_column(Seq::<Seq<char>>::empty(), field) == 0,
{
    assert(rows.push(line).drop_last() =~= rows);
    assert(rows.push(line).last() == line);
}

/// Days are counted one by one from the first of 1970: a day further in a month is one
/// more, the first of a month follows the last of the month before, and the first of a
/// year the last of December.
pub proof fn days_are_counted_from_1970(y: int, m: int, d: int)
    requires
        y >= 1970,
        1 <= m <= 12,
    ensures
        day_number(1970, 1, 1) == 0,
        day_number(y, m, d + 1) == day_number(y, m, d) + 1,
        m < 12 ==> day_number(y, m + 1, 1) == day_number(y, m, month_len(y, m)) + 1,
        day_number(y + 1, 1, 1) == day_number(y, 12, 31) + 1,
{
    reveal_with_fuel(days_to_month, 13);
}

} // verus!
