//! Instants as seconds since the Unix epoch and as calendar text.

use vstd::prelude::*;
use crate::text;

verus! {

/// Whether a year of the Gregorian calendar has a leap day.
pub open spec fn is_leap(year: int) -> bool {
    year % 4 == 0 && (year % 100 != 0 || year % 400 == 0)
}

/// The number of days of a month.
pub open spec fn month_len(year: int, mon: int) -> int {
    if mon == 2 {
        if is_leap(year) {
            29
        } else {
            28
        }
    } else if mon == 4 || mon == 6 || mon == 9 || mon == 11 {
        30
    } else {
        31
    }
}

/// Whether year, month and day are a date of the Gregorian calendar.
pub open spec fn valid_date(year: int, mon: int, day: int) -> bool {
    1 <= mon <= 12 && 1 <= day <= month_len(year, mon)
}

/// The number of a day, counted from the first of January 1970. Years are
/// counted from March on, so that the leap day is the last of its year. The
/// formula also gives a number to days and months that no calendar has.
pub open spec fn day_number(year: int, mon: int, day: int) -> int {
    let y = if mon <= 2 {
        year - 1
    } else {
        year
    };
    let month = if mon <= 2 {
        mon + 9
    } else {
        mon - 3
    };
    let day_of_year = (153 * month + 2) / 5 + day - 1;
    (y / 400) * 146097 + (y % 400) * 365 + (y % 400) / 4 - (y % 400) / 100 + day_of_year - 719468
}

/// Year, month and day are the date of the day with a given number.
pub open spec fn is_date_of(days: int, year: int, mon: int, day: int) -> bool {
    valid_date(year, mon, day) && day_number(year, mon, day) == days
}

/// The instant that calendar fields stand for, in seconds since the epoch.
pub open spec fn instant(
    year: int,
    mon: int,
    day: int,
    hour: int,
    min: int,
    sec: int,
) -> int {
    day_number(year, mon, day) * 86400 + hour * 3600 + min * 60 + sec
}

/// The day after a date.
pub open spec fn next_day(year: int, mon: int, day: int) -> (int, int, int) {
    if day < month_len(year, mon) {
        (year, mon, day + 1)
    } else if mon < 12 {
        (year, mon + 1, 1)
    } else {
        (year + 1, 1, 1)
    }
}

// ---------------------------------------------------------------------------
// The calendar
// ---------------------------------------------------------------------------

/// Days are numbered from the epoch.
pub proof fn law_epoch_is_day_zero()
    ensures
        day_number(1970, 1, 1) == 0,
{
}

/// Days are numbered without gaps: each date's number is one more than that of
/// the day before.
pub proof fn law_days_are_consecutive(year: int, mon: int, day: int)
    requires
        valid_date(year, mon, day),
    ensures
        ({
            let (y, m, d) = next_day(year, mon, day);
            valid_date(y, m, d) && day_number(y, m, d) == day_number(year, mon, day) + 1
        }),
{
    if mon == 2 && day == month_len(year, mon) {
        lemma_year_turn(year - 1);
    }
}

/// How the numbers of two March-based years meet.
proof fn lemma_year_turn(y: int)
    ensures
        ((y + 1) / 400) * 146097 + ((y + 1) % 400) * 365 + ((y + 1) % 400) / 4 - ((y + 1) % 400)
            / 100 == (y / 400) * 146097 + (y % 400) * 365 + (y % 400) / 4 - (y % 400) / 100 + (
        if is_leap(y + 1) {
            366int
        } else {
            365
        }),
{
    let e = y / 400;
    let r = y % 400;
    lemma_leap_in_era(y + 1, e, r + 1);
    if r == 399 {
        assert((y + 1) / 400 == e + 1 && (y + 1) % 400 == 0);
    } else {
        assert((y + 1) / 400 == e && (y + 1) % 400 == r + 1);
        lemma_turn_in_era(r);
    }
}

proof fn lemma_turn_in_era(r: int)
    requires
        0 <= r < 399,
    ensures
        (r + 1) / 4 - (r + 1) / 100 == r / 4 - r / 100 + (if is_leap(r + 1) {
            1int
        } else {
            0
        }),
{
}

/// Leap years repeat with every era of four hundred years.
proof fn lemma_leap_in_era(year: int, era: int, r: int)
    requires
        year == era * 400 + r,
    ensures
        is_leap(year) == is_leap(r),
{
    vstd::arithmetic::div_mod::lemma_mod_multiples_vanish(100 * era, r, 4);
    vstd::arithmetic::div_mod::lemma_mod_multiples_vanish(4 * era, r, 100);
    vstd::arithmetic::div_mod::lemma_mod_multiples_vanish(era, r, 400);
}

/// The day of the era in terms of century, four-year cycle, year and day.
proof fn lemma_year_of_era(c: int, q: int, k: int, doy: int)
    requires
        0 <= c <= 3,
        0 <= q <= 24,
        0 <= k <= 3,
        0 <= doy <= 365,
        doy == 365 ==> k == 3 && (q < 24 || c == 3),
    ensures
        ({
            let doe = 36524 * c + 1461 * q + 365 * k + doy;
            let yoe = 100 * c + 4 * q + k;
            &&& 0 <= doe <= 146096
            &&& (doe - doe / 1460 + doe / 36524 - doe / 146096) / 365 == yoe
            &&& 365 * yoe + yoe / 4 - yoe / 100 + doy == doe
        }),
{
    let doe = 36524 * c + 1461 * q + 365 * k + doy;
    let yoe = 100 * c + 4 * q + k;
    let rest = 24 * c + q + 365 * k + doy;
    let carry = if rest >= 1460 {
        1int
    } else {
        0
    };
    assert(doe == 1460 * (25 * c + q) + rest);
    assert(doe / 1460 == 25 * c + q + carry);
    if q == 24 && k == 3 && doy == 365 {
        assert(doe == 146096);
    } else {
        assert(1461 * q + 365 * k + doy < 36524);
        assert(doe / 36524 == c);
        assert(doe < 146096);
    }
    assert(doe - doe / 1460 + doe / 36524 - doe / 146096 == 365 * yoe + doy - carry);
    assert(0 <= doy - carry < 365);
    assert(yoe / 4 == 25 * c + q);
    assert(yoe / 100 == c);
}

/// Every day of an era has a century, a four-year cycle, a year and a day.
proof fn lemma_split_era(doe: int) -> (parts: (int, int, int, int))
    requires
        0 <= doe <= 146096,
    ensures
        ({
            let (c, q, k, doy) = parts;
            &&& 0 <= c <= 3 && 0 <= q <= 24 && 0 <= k <= 3 && 0 <= doy <= 365
            &&& doy == 365 ==> k == 3 && (q < 24 || c == 3)
            &&& doe == 36524 * c + 1461 * q + 365 * k + doy
        }),
{
    let c = if doe == 146096 {
        3
    } else {
        doe / 36524
    };
    let r = doe - 36524 * c;
    assert(0 <= r <= 36524 && (r == 36524 ==> c == 3));
    let q = if r / 1461 > 24 {
        24
    } else {
        r / 1461
    };
    let s = r - 1461 * q;
    assert(r < 36525 == 1461 * 25);
    assert(0 <= s <= 1460);
    let k = if s == 1460 {
        3
    } else {
        s / 365
    };
    (c, q, k, s - 365 * k)
}

/// Months of a March-based year.
proof fn lemma_month_of_year(doy: int)
    requires
        0 <= doy <= 365,
    ensures
        ({
            let mp = (5 * doy + 2) / 153;
            let day = doy - (153 * mp + 2) / 5 + 1;
            &&& 0 <= mp <= 11
            &&& 1 <= day
            &&& day <= (if mp == 1 || mp == 3 || mp == 6 || mp == 8 {
                30int
            } else {
                31
            })
            &&& mp == 11 ==> day <= 29 && (day == 29 ==> doy == 365)
        }),
{
}

/// The date that the inverse formula gives to a day, and that it is the date.
proof fn lemma_date_formula(days: int)
    ensures
        ({
            let z = days + 719468;
            let era = z / 146097;
            let doe = z % 146097;
            let yoe = (doe - doe / 1460 + doe / 36524 - doe / 146096) / 365;
            let doy = doe - (365 * yoe + yoe / 4 - yoe / 100);
            let mp = (5 * doy + 2) / 153;
            let day = doy - (153 * mp + 2) / 5 + 1;
            let mon = if mp < 10 {
                mp + 3
            } else {
                mp - 9
            };
            let year = yoe + era * 400 + if mon <= 2 {
                1int
            } else {
                0
            };
            &&& 0 <= doe <= 146096 && 0 <= yoe <= 399 && 0 <= doy <= 365 && 0 <= mp <= 11
            &&& is_date_of(days, year, mon, day)
        }),
{
    let z = days + 719468;
    let era = z / 146097;
    let doe = z % 146097;
    let (c, q, k, doy) = lemma_split_era(doe);
    lemma_year_of_era(c, q, k, doy);
    lemma_month_of_year(doy);
    let yoe = 100 * c + 4 * q + k;
    let y = yoe + era * 400;
    assert(y / 400 == era && y % 400 == yoe);
    if doy == 365 {
        lemma_leap_in_era(y + 1, era, yoe + 1);
    }
}

/// A date is the only one with its number.
pub proof fn law_dates_are_distinct(
    year: int,
    mon: int,
    day: int,
    other_year: int,
    other_mon: int,
    other_day: int,
)
    requires
        valid_date(year, mon, day),
        valid_date(other_year, other_mon, other_day),
        day_number(year, mon, day) == day_number(other_year, other_mon, other_day),
    ensures
        year == other_year && mon == other_mon && day == other_day,
{
    lemma_parts_of_date(year, mon, day);
    lemma_parts_of_date(other_year, other_mon, other_day);
}

/// Days of a March-based year.
proof fn lemma_day_of_year(mp: int, day: int)
    requires
        0 <= mp <= 11,
        1 <= day <= (if mp == 1 || mp == 3 || mp == 6 || mp == 8 {
            30int
        } else {
            31
        }),
        mp == 11 ==> day <= 29,
    ensures
        ({
            let doy = (153 * mp + 2) / 5 + day - 1;
            0 <= doy <= 365 && (5 * doy + 2) / 153 == mp && (doy == 365 <==> mp == 11 && day == 29)
        }),
{
}

/// The inverse formula gives back the date whose number it gets.
proof fn lemma_parts_of_date(year: int, mon: int, day: int)
    requires
        valid_date(year, mon, day),
    ensures
        ({
            let z = day_number(year, mon, day) + 719468;
            let era = z / 146097;
            let doe = z % 146097;
            let yoe = (doe - doe / 1460 + doe / 36524 - doe / 146096) / 365;
            let doy = doe - (365 * yoe + yoe / 4 - yoe / 100);
            let mp = (5 * doy + 2) / 153;
            &&& day == doy - (153 * mp + 2) / 5 + 1
            &&& mon == if mp < 10 {
                mp + 3
            } else {
                mp - 9
            }
            &&& year == yoe + era * 400 + if mon <= 2 {
                1int
            } else {
                0
            }
        }),
{
    let y = if mon <= 2 {
        year - 1
    } else {
        year
    };
    let mp = if mon <= 2 {
        mon + 9
    } else {
        mon - 3
    };
    let doy = (153 * mp + 2) / 5 + day - 1;
    let era = y / 400;
    let yoe = y % 400;
    lemma_day_of_year(mp, day);
    let (c, q, k) = lemma_split_years(yoe);
    if doy == 365 {
        lemma_leap_in_era(y + 1, era, yoe + 1);
    }
    lemma_year_of_era(c, q, k, doy);
    let doe = 36524 * c + 1461 * q + 365 * k + doy;
    let z = day_number(year, mon, day) + 719468;
    assert(z == era * 146097 + doe);
    vstd::arithmetic::div_mod::lemma_fundamental_div_mod_converse(z, 146097, era, doe);
}

/// Every year of an era has a century and a four-year cycle; the last year of
/// a cycle is followed by a leap year but at the end of a century that is not
/// the last.
proof fn lemma_split_years(yoe: int) -> (parts: (int, int, int))
    requires
        0 <= yoe <= 399,
    ensures
        ({
            let (c, q, k) = parts;
            &&& 0 <= c <= 3 && 0 <= q <= 24 && 0 <= k <= 3
            &&& yoe == 100 * c + 4 * q + k
            &&& yoe / 4 == 25 * c + q && yoe / 100 == c
            &&& is_leap(yoe + 1) ==> k == 3 && (q < 24 || c == 3)
        }),
{
    (yoe / 100, (yoe % 100) / 4, yoe % 4)
}

// ---------------------------------------------------------------------------
// Text
// ---------------------------------------------------------------------------

/// Bytes read as characters of the first Unicode block.
pub open spec fn latin(bytes: Seq<u8>) -> Seq<char> {
    bytes.map_values(|b: u8| b as char)
}

/// The characters of a field of a timestamp.
pub open spec fn field(bytes: Seq<u8>, lo: int, hi: int) -> Seq<char> {
    latin(bytes.subrange(lo, hi))
}

/// The instant that a timestamp `YYYY-MM-DDTHH:MM:SS` stands for, in seconds
/// since the epoch. Whatever follows the seconds plays no part, nor do the
/// separators; the numbers are not held to the calendar.
pub open spec fn rfc3339(bytes: Seq<u8>) -> Option<int> {
    if bytes.len() < 19 {
        None
    } else {
        match (
            text::signed(field(bytes, 0, 4)),
            text::unsigned(field(bytes, 5, 7)),
            text::unsigned(field(bytes, 8, 10)),
            text::unsigned(field(bytes, 11, 13)),
            text::unsigned(field(bytes, 14, 16)),
            text::unsigned(field(bytes, 17, 19)),
        ) {
            (Some(year), Some(mon), Some(day), Some(hour), Some(min), Some(sec)) => Some(
                instant(year, mon as int, day as int, hour as int, min as int, sec as int),
            ),
            _ => None,
        }
    }
}

/// The text `YYYY-MM-DDTHH:MM:SSZ` of a date and a second of the day.
pub open spec fn iso_text(year: int, mon: int, day: int, second: int) -> Seq<char> {
    text::zero_padded(year, 4) + seq!['-'] + text::zero_padded(mon, 2) + seq!['-']
        + text::zero_padded(day, 2) + seq!['T'] + text::zero_padded(second / 3600, 2) + seq![':']
        + text::zero_padded((second / 60) % 60, 2) + seq![':'] + text::zero_padded(second % 60, 2)
        + seq!['Z']
}

/// The date of the day with a given number.
pub open spec fn date_of(days: int) -> (int, int, int) {
    choose|date: (int, int, int)| #[trigger] is_date_of(days, date.0, date.1, date.2)
}

/// The text of an instant: that of its date and of its second of the day.
pub open spec fn iso_of(ts: int) -> Seq<char> {
    let (year, mon, day) = date_of(ts / 86400);
    iso_text(year, mon, day, ts % 86400)
}

/// Every day has a date, and only one.
pub proof fn law_every_day_has_one_date(days: int)
    ensures
        is_date_of(days, date_of(days).0, date_of(days).1, date_of(days).2),
        forall|year: int, mon: int, day: int| #[trigger]
            is_date_of(days, year, mon, day) ==> date_of(days) == (year, mon, day),
{
    lemma_date_formula(days);
    let z = days + 719468;
    let era = z / 146097;
    let doe = z % 146097;
    let yoe = (doe - doe / 1460 + doe / 36524 - doe / 146096) / 365;
    let doy = doe - (365 * yoe + yoe / 4 - yoe / 100);
    let mp = (5 * doy + 2) / 153;
    let day = doy - (153 * mp + 2) / 5 + 1;
    let mon = if mp < 10 {
        mp + 3
    } else {
        mp - 9
    };
    let year = yoe + era * 400 + if mon <= 2 {
        1int
    } else {
        0
    };
    let date = (year, mon, day);
    assert(is_date_of(days, date.0, date.1, date.2));
    let d = date_of(days);
    assert forall|a: int, b: int, c: int| #[trigger] is_date_of(days, a, b, c) implies d == (
        a,
        b,
        c,
    ) by {
        law_dates_are_distinct(a, b, c, d.0, d.1, d.2);
    }
}

/// `a / b`, rounded down.
fn floor_div(a: i64, b: i64) -> (r: i64)
    requires
        b > 0,
    ensures
        r == a as int / b as int,
{
    assert(i64::MIN <= a as int / b as int <= i64::MAX) by (nonlinear_arith)
        requires
            b > 0,
            i64::MIN <= a <= i64::MAX,
    ;
    match a.checked_div_euclid(b) {
        Some(q) => q,
        None => 0,
    }
}

/// What `a / b`, rounded down, leaves.
fn floor_rem(a: i64, b: i64) -> (r: i64)
    requires
        b > 0,
    ensures
        r == a as int % b as int,
{
    match a.checked_rem_euclid(b) {
        Some(q) => q,
        None => 0,
    }
}

/// A field of a timestamp as characters.
fn field_chars(bytes: &[u8], lo: usize, hi: usize) -> (r: Vec<char>)
    requires
        lo <= hi <= bytes@.len(),
    ensures
        r@ == field(bytes@, lo as int, hi as int),
{
    let mut out: Vec<char> = Vec::new();
    let mut i: usize = lo;
    assert(field(bytes@, lo as int, lo as int) =~= Seq::<char>::empty());
    while i < hi
        invariant
            lo <= i <= hi <= bytes@.len(),
            out@ == field(bytes@, lo as int, i as int),
        decreases hi - i,
    {
        out.push(bytes[i] as char);
        i = i + 1;
        assert(out@ =~= field(bytes@, lo as int, i as int));
    }
    out
}

proof fn lemma_digits_bound(s: Seq<char>)
    requires
        all_of_digits(s),
        s.len() <= 4,
    ensures
        text::digits_value(s) <= 9999,
        s.len() <= 2 ==> text::digits_value(s) <= 99,
        s.len() <= 3 ==> text::digits_value(s) <= 999,
{
    reveal_with_fuel(text::digits_value, 5);
}

spec fn all_of_digits(s: Seq<char>) -> bool {
    forall|i: int| 0 <= i < s.len() ==> text::is_digit(s[i])
}

/// An unsigned field of two characters.
fn small_field(bytes: &[u8], lo: usize) -> (r: Option<i64>)
    requires
        lo <= 17,
        lo + 2 <= bytes@.len(),
    ensures
        r == (match text::unsigned(field(bytes@, lo as int, lo + 2)) {
            Some(n) => Some(n as i64),
            None => None::<i64>,
        }),
        r matches Some(n) ==> 0 <= n <= 99 && text::unsigned(field(bytes@, lo as int, lo + 2)) == Some(
            n as nat,
        ),
{
    let v = field_chars(bytes, lo, lo + 2);
    let ghost s = v@;
    assert(v@.subrange(0, 2) =~= s);
    proof {
        if text::all_digits(s) {
            lemma_digits_bound(s);
        }
        if text::all_digits(s.drop_first()) {
            lemma_digits_bound(s.drop_first());
        }
    }
    match text::read_unsigned(&v, 0, 2, 99) {
        Some(n) => Some(n as i64),
        None => None,
    }
}

/// The year of a timestamp.
fn year_field(bytes: &[u8]) -> (r: Option<i64>)
    requires
        4 <= bytes@.len(),
    ensures
        r == (match text::signed(field(bytes@, 0, 4)) {
            Some(n) => Some(n as i64),
            None => None::<i64>,
        }),
        r matches Some(n) ==> -9999 <= n <= 9999 && text::signed(field(bytes@, 0, 4)) == Some(
            n as int,
        ),
{
    let v = field_chars(bytes, 0, 4);
    let ghost s = v@;
    assert(v@.subrange(0, 4) =~= s);
    proof {
        if text::all_digits(s) {
            lemma_digits_bound(s);
        }
        if text::all_digits(s.drop_first()) {
            lemma_digits_bound(s.drop_first());
        }
    }
    text::read_signed(&v, 0, 4, 9999)
}

/// The number of a day; see `day_number`.
fn count_days(year: i64, mon: i64, day: i64) -> (r: i64)
    requires
        -9999 <= year <= 9999,
        0 <= mon <= 99,
        0 <= day <= 99,
    ensures
        r == day_number(year as int, mon as int, day as int),
        -10_000_000 <= r <= 10_000_000,
{
    let y: i64 = if mon <= 2 {
        year - 1
    } else {
        year
    };
    let era: i64 = floor_div(y, 400);
    assert(-26 <= era <= 25);
    let yoe: i64 = y - era * 400;
    assert(yoe == y as int % 400);
    let month: i64 = if mon > 2 {
        mon - 3
    } else {
        mon + 9
    };
    let doy: i64 = (153 * month + 2) / 5 + day - 1;
    let doe: i64 = yoe * 365 + yoe / 4 - yoe / 100 + doy;
    era * 146097 + doe - 719468
}

/// Reads a timestamp; see `rfc3339`. Fractional seconds and a trailing `Z` are
/// tolerated, not required.
pub fn parse_rfc3339_to_unix(s: &str) -> (r: Option<i64>)
    ensures
        match r {
            Some(ts) => rfc3339(vstd::utf8::encode_utf8(s@)) == Some(ts as int),
            None => rfc3339(vstd::utf8::encode_utf8(s@)) is None,
        },
        r matches Some(ts) ==> -1_000_000_000_000 <= ts <= 1_000_000_000_000,
{
    let bytes: &[u8] = s.as_bytes();
    if bytes.len() < 19 {
        return None;
    }
    let year: i64 = match year_field(bytes) {
        Some(n) => n,
        None => return None,
    };
    let mon: i64 = match small_field(bytes, 5) {
        Some(n) => n,
        None => return None,
    };
    let day: i64 = match small_field(bytes, 8) {
        Some(n) => n,
        None => return None,
    };
    let hour: i64 = match small_field(bytes, 11) {
        Some(n) => n,
        None => return None,
    };
    let min: i64 = match small_field(bytes, 14) {
        Some(n) => n,
        None => return None,
    };
    let sec: i64 = match small_field(bytes, 17) {
        Some(n) => n,
        None => return None,
    };
    let days: i64 = count_days(year, mon, day);
    Some(days * 86400 + hour * 3600 + min * 60 + sec)
}

/// Renders an instant as `YYYY-MM-DDTHH:MM:SSZ`. Years before the year zero
/// have a minus sign, and years of more than four digits have all of them.
pub fn ts_to_iso(ts: i64) -> (r: String)
    ensures
        r@ == iso_of(ts as int),
        forall|year: int, mon: int, day: int| #[trigger]
            is_date_of(ts as int / 86400, year, mon, day) ==> r@ == iso_text(
                year,
                mon,
                day,
                ts as int % 86400,
            ),
{
    let days: i64 = floor_div(ts, 86400);
    assert(i64::MIN / 86400 <= days <= i64::MAX / 86400);
    let second: i64 = floor_rem(ts, 86400);
    let z: i64 = days + 719468;
    let era: i64 = floor_div(z, 146097);
    assert(i64::MIN / 146097 <= era <= i64::MAX / 146097);
    let doe: i64 = z - era * 146097;
    assert(doe == z as int % 146097);
    proof {
        lemma_date_formula(days as int);
    }
    let yoe: i64 = (doe - doe / 1460 + doe / 36524 - doe / 146096) / 365;
    let doy: i64 = doe - (365 * yoe + yoe / 4 - yoe / 100);
    let mp: i64 = (5 * doy + 2) / 153;
    let day: i64 = doy - (153 * mp + 2) / 5 + 1;
    let mon: i64 = if mp < 10 {
        mp + 3
    } else {
        mp - 9
    };
    let year: i64 = yoe + era * 400 + if mon <= 2 {
        1
    } else {
        0
    };
    let mut out = String::new();
    text::push_zero_padded(&mut out, year, 4);
    assert(out@ =~= text::zero_padded(year as int, 4));
    out.push('-');
    text::push_zero_padded(&mut out, mon, 2);
    out.push('-');
    text::push_zero_padded(&mut out, day, 2);
    out.push('T');
    text::push_zero_padded(&mut out, second / 3600, 2);
    out.push(':');
    text::push_zero_padded(&mut out, (second / 60) % 60, 2);
    out.push(':');
    text::push_zero_padded(&mut out, second % 60, 2);
    out.push('Z');
    assert(out@ =~= iso_text(year as int, mon as int, day as int, second as int));
    proof {
        law_every_day_has_one_date(ts as int / 86400);
        assert(is_date_of(ts as int / 86400, year as int, mon as int, day as int));
    }
    out
}

proof fn lemma_two_digits(n: int)
    requires
        0 <= n <= 99,
    ensures
        text::zero_padded(n, 2).len() == 2,
        text::unsigned(text::zero_padded(n, 2)) == Some(n as nat),
        vstd::utf8::is_ascii_chars(text::zero_padded(n, 2)),
{
    let s = text::dec(n as nat);
    text::lemma_dec_len(n as nat);
    text::lemma_dec_reads_back(n as nat);
    if s.len() < 2 {
        text::lemma_leading_zeros(1, s);
    }
    let t = text::zero_padded(n, 2);
    assert(text::all_digits(t) && text::digits_value(t) == n);
    assert(text::is_digit(t[0]));
    assert forall|i: int| 0 <= i < t.len() implies (0 <= (#[trigger] t[i]) as nat <= 127) by {
        assert(text::is_digit(t[i]));
    }
}

proof fn lemma_year_digits(n: int)
    requires
        -999 <= n <= 9999,
    ensures
        text::zero_padded(n, 4).len() == 4,
        text::signed(text::zero_padded(n, 4)) == Some(n),
        vstd::utf8::is_ascii_chars(text::zero_padded(n, 4)),
{
    let m = (if n < 0 {
        -n
    } else {
        n
    }) as nat;
    let width: nat = if n < 0 {
        3
    } else {
        4
    };
    let s = text::dec(m);
    text::lemma_dec_len(m);
    text::lemma_dec_reads_back(m);
    let t = text::pad_left(s, width, '0');
    if s.len() < width {
        text::lemma_leading_zeros((width - s.len()) as nat, s);
    }
    assert(text::all_digits(t) && text::digits_value(t) == m && t.len() == width);
    assert(text::is_digit(t[0]));
    assert forall|i: int| 0 <= i < t.len() implies (0 <= (#[trigger] t[i]) as nat <= 127) by {
        assert(text::is_digit(t[i]));
    }
    if n < 0 {
        assert(text::zero_padded(n, 4).drop_first() =~= t);
    }
}

/// Reading a timestamp is the inverse of rendering it: the text of an instant
/// reads back as that instant, for every year that four characters hold.
pub proof fn law_iso_text_reads_back(ts: int, year: int, mon: int, day: int)
    requires
        is_date_of(ts / 86400, year, mon, day),
        -999 <= year <= 9999,
    ensures
        rfc3339(vstd::utf8::encode_utf8(iso_text(year, mon, day, ts % 86400))) == Some(ts),
{
    let second = ts % 86400;
    let s = iso_text(year, mon, day, second);
    let (h, mi, se) = (second / 3600, (second / 60) % 60, second % 60);
    lemma_year_digits(year);
    lemma_two_digits(mon);
    lemma_two_digits(day);
    lemma_two_digits(h);
    lemma_two_digits(mi);
    lemma_two_digits(se);
    assert(vstd::utf8::is_ascii_chars(s));
    let b = vstd::utf8::encode_utf8(s);
    vstd::utf8::is_ascii_chars_encode_utf8(s);
    assert(s.len() == 20);
    assert(field(b, 0, 4) =~= text::zero_padded(year, 4));
    assert(field(b, 5, 7) =~= text::zero_padded(mon, 2));
    assert(field(b, 8, 10) =~= text::zero_padded(day, 2));
    assert(field(b, 11, 13) =~= text::zero_padded(h, 2));
    assert(field(b, 14, 16) =~= text::zero_padded(mi, 2));
    assert(field(b, 17, 19) =~= text::zero_padded(se, 2));
    assert(second == h * 3600 + mi * 60 + se);
}

/// Rendering is the inverse of reading: the instant of a date and a time of
/// day renders as that date and that time.
pub proof fn law_instant_renders_its_fields(
    year: int,
    mon: int,
    day: int,
    hour: int,
    min: int,
    sec: int,
)
    requires
        valid_date(year, mon, day),
        0 <= hour < 24,
        0 <= min < 60,
        0 <= sec < 60,
    ensures
        ({
            let ts = instant(year, mon, day, hour, min, sec);
            let second = ts % 86400;
            &&& is_date_of(ts / 86400, year, mon, day)
            &&& second / 3600 == hour && (second / 60) % 60 == min && second % 60 == sec
        }),
{
    let days = day_number(year, mon, day);
    let rest = hour * 3600 + min * 60 + sec;
    let ts = instant(year, mon, day, hour, min, sec);
    vstd::arithmetic::div_mod::lemma_fundamental_div_mod_converse(ts, 86400, days, rest);
}

// ---------------------------------------------------------------------------
// Laws of reading and writing
// ---------------------------------------------------------------------------

/// What follows the seconds of a timestamp plays no part: neither a fraction of
/// any length nor a `Z` changes the instant that is read.
pub proof fn law_timestamp_ignores_what_follows(bytes: Seq<u8>, tail: Seq<u8>)
    requires
        bytes.len() >= 19,
    ensures
        rfc3339(bytes.take(19) + tail) == rfc3339(bytes.take(19)),
        rfc3339(bytes) == rfc3339(bytes.take(19)),
{
    let head = bytes.take(19);
    let all = head + tail;
    assert(all.subrange(0, 4) =~= head.subrange(0, 4));
    assert(all.subrange(5, 7) =~= head.subrange(5, 7));
    assert(all.subrange(8, 10) =~= head.subrange(8, 10));
    assert(all.subrange(11, 13) =~= head.subrange(11, 13));
    assert(all.subrange(14, 16) =~= head.subrange(14, 16));
    assert(all.subrange(17, 19) =~= head.subrange(17, 19));
    assert(bytes.subrange(0, 4) =~= head.subrange(0, 4));
    assert(bytes.subrange(5, 7) =~= head.subrange(5, 7));
    assert(bytes.subrange(8, 10) =~= head.subrange(8, 10));
    assert(bytes.subrange(11, 13) =~= head.subrange(11, 13));
    assert(bytes.subrange(14, 16) =~= head.subrange(14, 16));
    assert(bytes.subrange(17, 19) =~= head.subrange(17, 19));
}

/// Fewer bytes than the seconds need are no timestamp.
pub proof fn law_short_timestamp_is_refused(bytes: Seq<u8>)
    requires
        bytes.len() < 19,
    ensures
        rfc3339(bytes) is None,
{
}

/// The bytes of six fields with one byte between each two, and what follows.
pub open spec fn stamp(
    year: Seq<u8>,
    rest: Seq<Seq<u8>>,
    separators: Seq<u8>,
    tail: Seq<u8>,
) -> Seq<u8> {
    year + seq![separators[0]] + rest[0] + seq![separators[1]] + rest[1] + seq![separators[2]]
        + rest[2] + seq![separators[3]] + rest[3] + seq![separators[4]] + rest[4] + tail
}

/// A timestamp is read field by field, whatever stands between the fields and
/// behind them: a year of four characters, then month, day, hour, minute and
/// second of two each. It is refused where a field is not a number.
pub proof fn law_timestamp_is_its_fields(
    year: Seq<u8>,
    rest: Seq<Seq<u8>>,
    separators: Seq<u8>,
    tail: Seq<u8>,
)
    requires
        year.len() == 4,
        rest.len() == 5,
        separators.len() == 5,
        forall|i: int| 0 <= i < 5 ==> (#[trigger] rest[i]).len() == 2,
    ensures
        ({
            let y = text::signed(latin(year));
            let f = |i: int| text::unsigned(latin(rest[i]));
            rfc3339(stamp(year, rest, separators, tail)) == if y is Some && f(0) is Some && f(
                1,
            ) is Some && f(2) is Some && f(3) is Some && f(4) is Some {
                Some(
                    day_number(y->0, f(0)->0 as int, f(1)->0 as int) * 86400 + f(2)->0 * 3600 + f(
                        3,
                    )->0 * 60 + f(4)->0,
                )
            } else {
                None
            }
        }),
{
    let all = stamp(year, rest, separators, tail);
    assert(rest[0].len() == 2 && rest[1].len() == 2 && rest[2].len() == 2 && rest[3].len() == 2
        && rest[4].len() == 2);
    assert(all.subrange(0, 4) =~= year);
    assert(all.subrange(5, 7) =~= rest[0]);
    assert(all.subrange(8, 10) =~= rest[1]);
    assert(all.subrange(11, 13) =~= rest[2]);
    assert(all.subrange(14, 16) =~= rest[3]);
    assert(all.subrange(17, 19) =~= rest[4]);
}

/// Encoding a text piece by piece encodes the whole.
pub proof fn lemma_encode_joins(a: Seq<char>, b: Seq<char>)
    ensures
        vstd::utf8::encode_utf8(a + b) == vstd::utf8::encode_utf8(a) + vstd::utf8::encode_utf8(b),
    decreases a.len(),
{
    if a.len() == 0 {
        assert(a + b =~= b);
        assert(vstd::utf8::encode_utf8(a) =~= Seq::<u8>::empty());
        assert(vstd::utf8::encode_utf8(a) + vstd::utf8::encode_utf8(b)
            =~= vstd::utf8::encode_utf8(b));
    } else {
        lemma_encode_joins(a.drop_first(), b);
        assert((a + b).drop_first() =~= a.drop_first() + b);
        assert((a + b)[0] == a[0]);
        assert(vstd::utf8::encode_utf8(a + b) =~= vstd::utf8::encode_utf8(a)
            + vstd::utf8::encode_utf8(b));
    }
}

/// Every date and time of day is read from its text `YYYY-MM-DDTHH:MM:SS`,
/// whatever follows: a fraction of any length, a `Z`, both or neither.
pub proof fn law_timestamp_text_reads_its_fields(
    year: int,
    mon: int,
    day: int,
    hour: int,
    min: int,
    sec: int,
    tail: Seq<char>,
)
    requires
        -999 <= year <= 9999,
        0 <= mon <= 99,
        0 <= day <= 99,
        0 <= hour <= 99,
        0 <= min <= 99,
        0 <= sec <= 99,
    ensures
        ({
            let head = text::zero_padded(year, 4) + seq!['-'] + text::zero_padded(mon, 2) + seq!['-']
                + text::zero_padded(day, 2) + seq!['T'] + text::zero_padded(hour, 2) + seq![':']
                + text::zero_padded(min, 2) + seq![':'] + text::zero_padded(sec, 2);
            &&& rfc3339(vstd::utf8::encode_utf8(head + tail)) == Some(
                day_number(year, mon, day) * 86400 + hour * 3600 + min * 60 + sec,
            )
            &&& head.len() == 19
            &&& vstd::utf8::is_ascii_chars(head)
        }),
{
    let head = text::zero_padded(year, 4) + seq!['-'] + text::zero_padded(mon, 2) + seq!['-']
        + text::zero_padded(day, 2) + seq!['T'] + text::zero_padded(hour, 2) + seq![':']
        + text::zero_padded(min, 2) + seq![':'] + text::zero_padded(sec, 2);
    lemma_year_digits(year);
    lemma_two_digits(mon);
    lemma_two_digits(day);
    lemma_two_digits(hour);
    lemma_two_digits(min);
    lemma_two_digits(sec);
    assert(vstd::utf8::is_ascii_chars(head));
    let h = vstd::utf8::encode_utf8(head);
    vstd::utf8::is_ascii_chars_encode_utf8(head);
    assert(head.len() == 19);
    assert(field(h, 0, 4) =~= text::zero_padded(year, 4));
    assert(field(h, 5, 7) =~= text::zero_padded(mon, 2));
    assert(field(h, 8, 10) =~= text::zero_padded(day, 2));
    assert(field(h, 11, 13) =~= text::zero_padded(hour, 2));
    assert(field(h, 14, 16) =~= text::zero_padded(min, 2));
    assert(field(h, 17, 19) =~= text::zero_padded(sec, 2));
    lemma_encode_joins(head, tail);
    let t = vstd::utf8::encode_utf8(tail);
    law_timestamp_ignores_what_follows(h, t);
    assert(h.take(19) =~= h);
    assert(vstd::utf8::encode_utf8(head + tail) =~= h.take(19) + t);
}

/// Days of one month are numbered one after the other, also those that no
/// calendar has.
pub proof fn law_days_count_through_a_month(year: int, mon: int, day: int)
    ensures
        day_number(year, mon, day) == day_number(year, mon, 1) + day - 1,
{
}

/// The text of an instant states its date and time of day: the year as a
/// number of at least four characters, then month, day, hour, minute and second
/// of two digits each, with their separators.
pub proof fn law_iso_text_states_its_fields(ts: int, year: int, mon: int, day: int)
    requires
        is_date_of(ts / 86400, year, mon, day),
    ensures
        ({
            let s = iso_of(ts);
            let n = s.len() - 16;
            let second = ts % 86400;
            &&& n >= 4
            &&& text::signed(s.take(n)) == Some(year)
            &&& s[n] == '-' && s[n + 3] == '-' && s[n + 6] == 'T' && s[n + 9] == ':' && s[n + 12]
                == ':' && s[n + 15] == 'Z'
            &&& text::unsigned(s.subrange(n + 1, n + 3)) == Some(mon as nat)
            &&& text::unsigned(s.subrange(n + 4, n + 6)) == Some(day as nat)
            &&& exists|h: nat, m: nat, x: nat|
                {
                    &&& h < 24 && m < 60 && x < 60
                    &&& h * 3600 + m * 60 + x == second
                    &&& #[trigger] hands(s, n, h, m, x)
                }
        }),
{
    law_every_day_has_one_date(ts / 86400);
    let second = ts % 86400;
    let (h, m, x) = ((second / 3600) as nat, ((second / 60) % 60) as nat, (second % 60) as nat);
    let s = iso_of(ts);
    let y = text::zero_padded(year, 4);
    text::law_zero_padding_keeps_the_number(year, 4);
    lemma_two_digits(mon);
    lemma_two_digits(day);
    lemma_two_digits(h as int);
    lemma_two_digits(m as int);
    lemma_two_digits(x as int);
    assert(s == iso_text(year, mon, day, second));
    let n = s.len() - 16;
    assert(n == y.len());
    assert(s.take(n) =~= y);
    assert(s.subrange(n + 1, n + 3) =~= text::zero_padded(mon, 2));
    assert(s.subrange(n + 4, n + 6) =~= text::zero_padded(day, 2));
    assert(s.subrange(n + 7, n + 9) =~= text::zero_padded(h as int, 2));
    assert(s.subrange(n + 10, n + 12) =~= text::zero_padded(m as int, 2));
    assert(s.subrange(n + 13, n + 15) =~= text::zero_padded(x as int, 2));
    assert(hands(s, n, h, m, x));
    assert(h * 3600 + m * 60 + x == second);
}

/// Hour, minute and second stand behind the date of a text.
pub open spec fn hands(s: Seq<char>, n: int, h: nat, m: nat, x: nat) -> bool {
    text::unsigned(s.subrange(n + 7, n + 9)) == Some(h) && text::unsigned(
        s.subrange(n + 10, n + 12),
    ) == Some(m) && text::unsigned(s.subrange(n + 13, n + 15)) == Some(x)
}

} // verus!
