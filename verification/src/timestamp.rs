//! Minute-precision parsing of ISO 8601 UTC timestamps such as
//! `2026-03-11T18:45:53Z`, with no allocation.
use vstd::prelude::*;
use vstd::string::StringSliceAdditionalSpecFns;

verus! {

/// Truncating integer division, as Rust's `/` computes it on signed integers.
pub open spec fn tdiv(a: int, b: int) -> int {
    if a >= 0 { a / b } else { -((-a) / b) }
}

/// Truncating remainder, as Rust's `%` computes it on signed integers.
pub open spec fn trem(a: int, b: int) -> int {
    if a >= 0 { a % b } else { -((-a) % b) }
}

/// A byte the digit arithmetic takes: not below `'0'`, where `c - b'0'`
/// would underflow. The ASCII digits are such bytes; for a later byte the
/// arithmetic gives a number above 9.
pub open spec fn zero_or_above(c: u8) -> bool {
    48 <= c
}

/// What the digit arithmetic gives for byte `c`: `c - '0'`, the value of an
/// ASCII digit.
pub open spec fn digit_value(c: u8) -> int {
    c - 48
}

/// The bytes in `[at, at + n)` exist and are bytes from '0' up.
pub open spec fn zero_or_above_at(b: Seq<u8>, at: int, n: int) -> bool {
    &&& 0 <= at
    &&& at + n <= b.len()
    &&& forall|k: int| at <= k < at + n ==> zero_or_above(#[trigger] b[k])
}

/// Decimal value of the two digits at `at`.
pub open spec fn two_digits(b: Seq<u8>, at: int) -> int {
    digit_value(b[at]) * 10 + digit_value(b[at + 1])
}

/// Decimal value of the four digits at `at`.
pub open spec fn four_digits(b: Seq<u8>, at: int) -> int {
    digit_value(b[at]) * 1000 + digit_value(b[at + 1]) * 100 + digit_value(b[at + 2]) * 10 + digit_value(b[at + 3])
}

/// Fields of `YYYY-MM-DDTHH:MM`, by byte offset.
pub open spec fn ts_year(b: Seq<u8>) -> int {
    four_digits(b, 0)
}

pub open spec fn ts_month(b: Seq<u8>) -> int {
    two_digits(b, 5)
}

pub open spec fn ts_day(b: Seq<u8>) -> int {
    two_digits(b, 8)
}

pub open spec fn ts_hour(b: Seq<u8>) -> int {
    two_digits(b, 11)
}

pub open spec fn ts_minute(b: Seq<u8>) -> int {
    two_digits(b, 14)
}

/// Year, month, day and hour are bytes from '0' up.
pub open spec fn date_hour_bytes(b: Seq<u8>) -> bool {
    &&& zero_or_above_at(b, 0, 4)
    &&& zero_or_above_at(b, 5, 2)
    &&& zero_or_above_at(b, 8, 2)
    &&& zero_or_above_at(b, 11, 2)
}

/// Year, month, day, hour and minute are bytes from '0' up.
pub open spec fn date_minute_bytes(b: Seq<u8>) -> bool {
    date_hour_bytes(b) && zero_or_above_at(b, 14, 2)
}

/// Rata Die: the day number in the proleptic Gregorian calendar with
/// 0001-01-01 as day 1, for any integer year, month and day. It counts days
/// from 0000-03-01 (the month number shifted so that the year starts in March,
/// the day-of-year term truncated as Rust truncates) and moves the origin 305
/// days on.
pub open spec fn days_from_civil(y: int, m: int, d: int) -> int {
    let yy = if m <= 2 { y - 1 } else { y };
    let era = yy / 400;
    let yoe = yy - era * 400;
    let mp = if m > 2 { m - 3 } else { m + 9 };
    let doy = tdiv(153 * mp + 2, 5) + d - 1;
    let doe = yoe * 365 + yoe / 4 - yoe / 100 + doy;
    era * 146097 + doe - 305
}

/// `x` fits in an `i64`.
pub open spec fn in_i64(x: int) -> bool {
    -0x8000_0000_0000_0000 <= x <= 0x7fff_ffff_ffff_ffff
}

/// No step of `civil_to_days` leaves the range of `i64`: the shift of the
/// year, the floor division of a negative year, each step of the day of the
/// year, the day of the era, the sum and the shift of the origin.
pub open spec fn civil_in_range(y: int, m: int, d: int) -> bool {
    let yy = if m <= 2 { y - 1 } else { y };
    let mp = if m > 2 { m - 3 } else { m + 9 };
    let era = yy / 400;
    let yoe = yy - era * 400;
    let q = tdiv(153 * mp + 2, 5);
    let doe = yoe * 365 + yoe / 4 - yoe / 100 + (q + d - 1);
    &&& in_i64(yy)
    &&& yy < 0 ==> in_i64(yy - 399)
    &&& in_i64(153 * mp)
    &&& in_i64(153 * mp + 2)
    &&& in_i64(q + d)
    &&& in_i64(q + d - 1)
    &&& in_i64(doe)
    &&& in_i64(era * 146097)
    &&& in_i64(era * 146097 + doe)
    &&& in_i64(era * 146097 + doe - 305)
}

/// Minutes since the epoch of `days_from_civil` for a timestamp with at
/// least 16 bytes; 0 for a shorter one.
pub open spec fn epoch_minutes(b: Seq<u8>) -> int {
    if b.len() < 16 {
        0
    } else {
        days_from_civil(ts_year(b), ts_month(b), ts_day(b)) * 1440 + ts_hour(b) * 60 + ts_minute(b)
    }
}

/// Offsets of Sakamoto's weekday method, by month 1..=12.
pub open spec fn month_offset(m: int) -> int {
    if m == 1 { 0 }
    else if m == 2 { 3 }
    else if m == 3 { 2 }
    else if m == 4 { 5 }
    else if m == 5 { 0 }
    else if m == 6 { 3 }
    else if m == 7 { 5 }
    else if m == 8 { 1 }
    else if m == 9 { 4 }
    else if m == 10 { 6 }
    else if m == 11 { 2 }
    else { 4 }
}

/// Sakamoto's weekday sum for a date; its remainder by 7 is the weekday with
/// Sunday as 0.
pub open spec fn sakamoto_sum(y: int, m: int, d: int) -> int {
    let yy = if m < 3 { y - 1 } else { y };
    yy + tdiv(yy, 4) - tdiv(yy, 100) + tdiv(yy, 400) + month_offset(m) + d
}

/// Weekday with Monday as 0 and Sunday as 6, from Sakamoto's method as the
/// parser computes it in 32-bit arithmetic (the remainder truncates, then is
/// cast to a byte).
pub open spec fn weekday_monday_first(y: int, m: int, d: int) -> u8 {
    let sun = trem(sakamoto_sum(y, m, d), 7) as u8;
    if sun == 0 { 6 } else { (sun - 1) as u8 }
}

/// What `parse_timestamp_hour_dow` needs of a timestamp of 19 bytes or more:
/// bytes from '0' up, and a month from 1 to 12 for the table of month offsets.
pub open spec fn hour_dow_readable(b: Seq<u8>) -> bool {
    &&& date_hour_bytes(b)
    &&& 1 <= ts_month(b) <= 12
}

/// Value of two ASCII decimal digits (`10 * (b[0] - '0') + (b[1] - '0')`).
pub fn dec2(b: &[u8]) -> (r: u32)
    requires
        zero_or_above_at(b@, 0, 2),
    ensures
        r == two_digits(b@, 0),
{
    (b[0] - 48u8) as u32 * 10 + (b[1] - 48u8) as u32
}

/// Value of four ASCII decimal digits, by the same arithmetic.
pub fn dec4(b: &[u8]) -> (r: u32)
    requires
        zero_or_above_at(b@, 0, 4),
    ensures
        r == four_digits(b@, 0),
{
    (b[0] - 48u8) as u32 * 1000 + (b[1] - 48u8) as u32 * 100 + (b[2] - 48u8) as u32 * 10 + (b[3]
        - 48u8) as u32
}

/// Two digits at `at` of `b`, through a subslice.
fn dec2_at(b: &[u8], at: usize) -> (r: u32)
    requires
        zero_or_above_at(b@, at as int, 2),
    ensures
        r == two_digits(b@, at as int),
{
    let n = b.len();
    assert(at + 2 <= n);
    let s = &b[at..at + 2];
    assert(s@[0] == b@[at as int] && s@[1] == b@[at + 1]);
    dec2(s)
}

/// Rata Die days from civil date: 0001-01-01 of the proleptic Gregorian
/// calendar is day 1.
pub fn civil_to_days(y: i64, m: i64, d: i64) -> (r: i64)
    requires
        civil_in_range(y as int, m as int, d as int),
    ensures
        r == days_from_civil(y as int, m as int, d as int),
{
    let y = if m <= 2 { y - 1 } else { y };
    let era = if y >= 0 { y } else { y - 399 } / 400;
    proof {
        lemma_floor_div_400(y as int);
    }
    let yoe = y - era * 400;
    let doy = (153 * (if m > 2 { m - 3 } else { m + 9 }) + 2) / 5 + d - 1;
    let doe = yoe * 365 + yoe / 4 - yoe / 100 + doy;
    era * 146_097 + doe - 305
}

/// The era computation of `civil_to_days` is floor division by 400.
proof fn lemma_floor_div_400(y: int)
    ensures
        tdiv(if y >= 0 { y } else { y - 399 }, 400) == y / 400,
        0 <= y - (y / 400) * 400 < 400,
{
    let q = y / 400;
    let r = y % 400;
    vstd::arithmetic::div_mod::lemma_fundamental_div_mod(y, 400);
    assert(0 <= r < 400);
    assert(y == 400 * q + r);
    if y < 0 {
        let a = 399 - y;
        // a == 400 * (-q) + (399 - r), with 0 <= 399 - r < 400
        vstd::arithmetic::div_mod::lemma_fundamental_div_mod_converse(a, 400, -q, 399 - r);
    }
}

/// Minutes since the epoch of `civil_to_days`, from the first 16 bytes of an
/// ISO 8601 timestamp; 0 when the text is shorter than that.
pub fn parse_epoch_minutes(ts: &str) -> (r: i64)
    requires
        ts.spec_bytes().len() >= 16 ==> date_minute_bytes(ts.spec_bytes()),
    ensures
        r == epoch_minutes(ts.spec_bytes()),
{
    let b = ts.as_bytes();
    if b.len() < 16 {
        return 0;
    }
    let year = dec4(&b[0..4]) as i64;
    let month = dec2_at(b, 5) as i64;
    let day = dec2_at(b, 8) as i64;
    let hour = dec2_at(b, 11) as i64;
    let min = dec2_at(b, 14) as i64;
    proof {
        let s = b@.subrange(0, 4);
        assert(s[0] == b@[0] && s[1] == b@[1] && s[2] == b@[2] && s[3] == b@[3]);
    }
    civil_to_days(year, month, day) * 1440 + hour * 60 + min
}

/// Minutes from `prev` to `curr`, or 0 when `curr` is not later.
pub fn minutes_between(prev: &str, curr: &str) -> (r: i64)
    requires
        prev.spec_bytes().len() >= 16 ==> date_minute_bytes(prev.spec_bytes()),
        curr.spec_bytes().len() >= 16 ==> date_minute_bytes(curr.spec_bytes()),
    ensures
        r == if epoch_minutes(curr.spec_bytes()) > epoch_minutes(prev.spec_bytes()) {
            epoch_minutes(curr.spec_bytes()) - epoch_minutes(prev.spec_bytes())
        } else {
            0
        },
{
    let delta = parse_epoch_minutes(curr) - parse_epoch_minutes(prev);
    if delta > 0 {
        delta
    } else {
        0
    }
}

/// Whether the `n` bytes at `at` are bytes from '0' up.
fn zero_or_above_ok(b: &[u8], at: usize, n: usize) -> (r: bool)
    requires
        at + n <= b@.len(),
    ensures
        r == zero_or_above_at(b@, at as int, n as int),
{
    let len = b.len();
    let mut k: usize = 0;
    while k < n
        invariant
            k <= n,
            len == b@.len(),
            at + n <= b@.len(),
            forall|q: int| at <= q < at + k ==> zero_or_above(#[trigger] b@[q]),
        decreases n - k,
    {
        if b[at + k] < 48 {
            return false;
        }
        k = k + 1;
    }
    true
}

/// Whether `parse_timestamp_hour_dow` accepts `ts`: shorter than 19 bytes,
/// or bytes from '0' up for year, month, day and hour with a month from 1 to 12.
pub fn hour_dow_input_ok(ts: &str) -> (r: bool)
    ensures
        r == (ts.spec_bytes().len() >= 19 ==> hour_dow_readable(ts.spec_bytes())),
{
    let b = ts.as_bytes();
    if b.len() < 19 {
        return true;
    }
    if !(zero_or_above_ok(b, 0, 4) && zero_or_above_ok(b, 5, 2) && zero_or_above_ok(b, 8, 2)
        && zero_or_above_ok(b, 11, 2)) {
        return false;
    }
    let month = dec2_at(b, 5);
    1 <= month && month <= 12
}

/// Whether `parse_epoch_minutes` accepts `ts`: shorter than 16 bytes, or
/// bytes from '0' up for year, month, day, hour and minute.
pub fn epoch_minutes_input_ok(ts: &str) -> (r: bool)
    ensures
        r == (ts.spec_bytes().len() >= 16 ==> date_minute_bytes(ts.spec_bytes())),
{
    let b = ts.as_bytes();
    if b.len() < 16 {
        return true;
    }
    zero_or_above_ok(b, 0, 4) && zero_or_above_ok(b, 5, 2) && zero_or_above_ok(b, 8, 2)
        && zero_or_above_ok(b, 11, 2) && zero_or_above_ok(b, 14, 2)
}

/// Sakamoto's month offset.
fn month_offset_of(m: i32) -> (r: i32)
    requires
        1 <= m <= 12,
    ensures
        r == month_offset(m as int),
{
    if m == 1 { 0 }
    else if m == 2 { 3 }
    else if m == 3 { 2 }
    else if m == 4 { 5 }
    else if m == 5 { 0 }
    else if m == 6 { 3 }
    else if m == 7 { 5 }
    else if m == 8 { 1 }
    else if m == 9 { 4 }
    else if m == 10 { 6 }
    else if m == 11 { 2 }
    else { 4 }
}

/// Hour of day and weekday (Monday 0 .. Sunday 6) of an ISO 8601 timestamp;
/// `(0, 0)` when the text is shorter than 19 bytes. The hour is cast to a
/// byte, which changes it only for bytes above `'9'`.
pub fn parse_timestamp_hour_dow(ts: &str) -> (r: (u8, u8))
    requires
        ts.spec_bytes().len() >= 19 ==> hour_dow_readable(ts.spec_bytes()),
    ensures
        ts.spec_bytes().len() < 19 ==> r == (0u8, 0u8),
        ts.spec_bytes().len() >= 19 ==> r.0 == ts_hour(ts.spec_bytes()) as u8 && r.1
            == weekday_monday_first(
            ts_year(ts.spec_bytes()),
            ts_month(ts.spec_bytes()),
            ts_day(ts.spec_bytes()),
        ),
{
    let b = ts.as_bytes();
    if b.len() < 19 {
        return (0, 0);
    }
    let year = dec4(&b[0..4]) as i32;
    let month = dec2_at(b, 5) as i32;
    let day = dec2_at(b, 8) as i32;
    let hour = dec2_at(b, 11) as u8;
    proof {
        let s = b@.subrange(0, 4);
        assert(s[0] == b@[0] && s[1] == b@[1] && s[2] == b@[2] && s[3] == b@[3]);
    }
    let y = if month < 3 { year - 1 } else { year };
    let sum = y + y / 4 - y / 100 + y / 400 + month_offset_of(month) + day;
    let dow_sun = (sum % 7) as u8;
    let dow_mon = if dow_sun == 0 { 6 } else { dow_sun - 1 };
    (hour, dow_mon)
}

/// Gregorian leap year, proleptic for every integer year.
pub open spec fn is_leap(y: int) -> bool {
    y % 4 == 0 && (y % 100 != 0 || y % 400 == 0)
}

/// Number of days of month `m` (1..=12) of year `y`.
pub open spec fn days_in_month(y: int, m: int) -> int {
    if m == 2 {
        if is_leap(y) { 29 } else { 28 }
    } else if m == 4 || m == 6 || m == 9 || m == 11 {
        30
    } else {
        31
    }
}

/// Rata Die of March 1st of year `yy`.
spec fn march_first(yy: int) -> int {
    let era = yy / 400;
    let yoe = yy - era * 400;
    era * 146097 + yoe * 365 + yoe / 4 - yoe / 100 - 305
}

proof fn lemma_march_first_step(yy: int)
    ensures
        march_first(yy + 1) == march_first(yy) + 365 + if is_leap(yy + 1) { 1int } else { 0 },
{
    let era = yy / 400;
    let yoe = yy % 400;
    vstd::arithmetic::div_mod::lemma_fundamental_div_mod(yy, 400);
    assert(yy == 400 * era + yoe);
    assert(0 <= yoe < 400);
    let z = yy + 1;
    if yoe < 399 {
        vstd::arithmetic::div_mod::lemma_fundamental_div_mod_converse(z, 400, era, yoe + 1);
        assert(z / 400 == era);
        let w = yoe + 1;
        assert(z == 400 * era + w);
        vstd::arithmetic::div_mod::lemma_mod_multiples_vanish(100 * era, w, 4);
        vstd::arithmetic::div_mod::lemma_mod_multiples_vanish(4 * era, w, 100);
        vstd::arithmetic::div_mod::lemma_mod_multiples_vanish(era, w, 400);
        assert(4 * (100 * era) + w == z);
        assert(100 * (4 * era) + w == z);
        assert(z % 4 == w % 4);
        assert(z % 100 == w % 100);
        assert(z % 400 == w % 400);
        assert(w % 400 == w);
        assert(w / 4 - yoe / 4 == if w % 4 == 0 { 1int } else { 0 });
        assert(w / 100 - yoe / 100 == if w % 100 == 0 { 1int } else { 0 });
    } else {
        vstd::arithmetic::div_mod::lemma_fundamental_div_mod_converse(z, 400, era + 1, 0);
        assert(z / 400 == era + 1);
        assert(z % 400 == 0);
        vstd::arithmetic::div_mod::lemma_fundamental_div_mod_converse(z, 4, 100 * (era + 1), 0);
        vstd::arithmetic::div_mod::lemma_fundamental_div_mod_converse(z, 100, 4 * (era + 1), 0);
    }
}

/// Law: `days_from_civil` counts days. The first day of the month that
/// follows month `m` of year `y` lies exactly as many days after the first day
/// of month `m` as the month is long (leap years included).
pub proof fn lemma_civil_days_month_length(y: int, m: int)
    requires
        1 <= m <= 12,
    ensures
        days_from_civil(y, m, 1) + days_in_month(y, m) == (if m == 12 {
            days_from_civil(y + 1, 1, 1)
        } else {
            days_from_civil(y, m + 1, 1)
        }),
{
    if m == 2 {
        lemma_march_first_step(y - 1);
        assert(days_from_civil(y, 2, 1) == march_first(y - 1) + 337);
        assert(days_from_civil(y, 3, 1) == march_first(y));
    } else if m == 12 {
        assert(days_from_civil(y, 12, 1) == march_first(y) + 275);
        assert(days_from_civil(y + 1, 1, 1) == march_first(y) + 306);
    } else if m == 1 {
        assert(days_from_civil(y, 1, 1) == march_first(y - 1) + 306);
        assert(days_from_civil(y, 2, 1) == march_first(y - 1) + 337);
    }
}

/// Law: consecutive days of a month get consecutive day numbers.
pub proof fn lemma_civil_days_next_day(y: int, m: int, d: int)
    ensures
        days_from_civil(y, m, d + 1) == days_from_civil(y, m, d) + 1,
{
}

/// Law: the weekday the parser derives by Sakamoto's method agrees with the
/// day count of `civil_to_days`, whose day 1 (0001-01-01) was a Monday:
/// weekday (Monday 0) == (days + 6) mod 7, for any month 1..=12, any
/// non-negative day, and any year from 0 on (January and February of year 0
/// excepted: the March-based year is -1 there and 32-bit division truncates).
pub proof fn lemma_weekday_matches_day_count(y: int, m: int, d: int)
    requires
        1 <= m <= 12,
        0 <= d,
        0 <= y,
        y >= 1 || m >= 3,
    ensures
        weekday_monday_first(y, m, d) as int == (days_from_civil(y, m, d) + 6) % 7,
{
    let yy = if m <= 2 { y - 1 } else { y };
    assert(yy >= 0);
    let era = yy / 400;
    let yoe = yy % 400;
    vstd::arithmetic::div_mod::lemma_fundamental_div_mod(yy, 400);
    assert(yy == 400 * era + yoe);
    assert(era >= 0);
    vstd::arithmetic::div_mod::lemma_fundamental_div_mod_converse(yy, 4, 100 * era + yoe / 4, yoe % 4);
    vstd::arithmetic::div_mod::lemma_fundamental_div_mod_converse(yy, 100, 4 * era + yoe / 100, yoe % 100);
    assert(yy / 4 == 100 * era + yoe / 4);
    assert(yy / 100 == 4 * era + yoe / 100);
    let s = sakamoto_sum(y, m, d);
    assert(s == 497 * era + yoe + yoe / 4 - yoe / 100 + month_offset(m) + d);
    assert(s >= 0);
    let mp = if m > 2 { m - 3 } else { m + 9 };
    let doy = (153 * mp + 2) / 5 + d - 1;
    let days = days_from_civil(y, m, d);
    assert(days == era * 146097 + yoe * 365 + yoe / 4 - yoe / 100 + doy - 305);
    assert(doy + 2 - month_offset(m) - d == 6 + 7 * ((doy + 2 - month_offset(m) - d - 6) / 7));
    let k = 20800 * era + 52 * yoe + (doy + 2 - month_offset(m) - d - 6) / 7 - 43;
    assert(days + 6 == s + 6 + 7 * k);
    vstd::arithmetic::div_mod::lemma_mod_multiples_vanish(k, s + 6, 7);
    assert((days + 6) % 7 == (s + 6) % 7);
    vstd::arithmetic::div_mod::lemma_fundamental_div_mod(s, 7);
    vstd::arithmetic::div_mod::lemma_fundamental_div_mod_converse(s + 6, 7, s / 7 + if s % 7 == 0 { 0int } else { 1 }, if s % 7 == 0 { 6int } else { s % 7 - 1 });
}

/// A valid reading of a clock to the minute: a month from 1 to 12, a day
/// within the month, an hour from 0 to 23 and a minute from 0 to 59.
pub open spec fn valid_reading(y: int, m: int, d: int, h: int, mi: int) -> bool {
    &&& 1 <= m <= 12
    &&& 1 <= d <= days_in_month(y, m)
    &&& 0 <= h <= 23
    &&& 0 <= mi <= 59
}

/// Minutes of a reading since the epoch of `days_from_civil`, as
/// `parse_epoch_minutes` counts them.
pub open spec fn minute_count(y: int, m: int, d: int, h: int, mi: int) -> int {
    days_from_civil(y, m, d) * 1440 + h * 60 + mi
}

/// The reading one minute later.
pub open spec fn next_minute(y: int, m: int, d: int, h: int, mi: int) -> (int, int, int, int, int) {
    if mi < 59 {
        (y, m, d, h, mi + 1)
    } else if h < 23 {
        (y, m, d, h + 1, 0)
    } else if d < days_in_month(y, m) {
        (y, m, d + 1, 0, 0)
    } else if m < 12 {
        (y, m + 1, 1, 0, 0)
    } else {
        (y + 1, 1, 1, 0, 0)
    }
}

/// The reading `k` minutes later.
pub open spec fn minutes_later(t: (int, int, int, int, int), k: nat) -> (int, int, int, int, int)
    decreases k,
{
    if k == 0 {
        t
    } else {
        let u = minutes_later(t, (k - 1) as nat);
        next_minute(u.0, u.1, u.2, u.3, u.4)
    }
}

/// One minute later counts one minute more, and is a valid reading.
proof fn lemma_next_minute(y: int, m: int, d: int, h: int, mi: int)
    requires
        valid_reading(y, m, d, h, mi),
    ensures
        ({
            let t = next_minute(y, m, d, h, mi);
            &&& valid_reading(t.0, t.1, t.2, t.3, t.4)
            &&& minute_count(t.0, t.1, t.2, t.3, t.4) == minute_count(y, m, d, h, mi) + 1
        }),
{
    lemma_civil_days_next_day(y, m, d);
    if mi == 59 && h == 23 && d == days_in_month(y, m) {
        lemma_civil_days_month_length(y, m);
        assert(days_from_civil(y, m, d) == days_from_civil(y, m, 1) + d - 1);
    }
}

/// Law: the count of `parse_epoch_minutes` counts minutes. The reading `k`
/// minutes after a valid reading is valid and counts exactly `k` more.
pub proof fn lemma_minutes_later_count(y: int, m: int, d: int, h: int, mi: int, k: nat)
    requires
        valid_reading(y, m, d, h, mi),
    ensures
        ({
            let t = minutes_later((y, m, d, h, mi), k);
            &&& valid_reading(t.0, t.1, t.2, t.3, t.4)
            &&& minute_count(t.0, t.1, t.2, t.3, t.4) == minute_count(y, m, d, h, mi) + k
        }),
    decreases k,
{
    if k > 0 {
        lemma_minutes_later_count(y, m, d, h, mi, (k - 1) as nat);
        let u = minutes_later((y, m, d, h, mi), (k - 1) as nat);
        lemma_next_minute(u.0, u.1, u.2, u.3, u.4);
    }
}

/// The fields `YYYY-MM-DDTHH:MM` of a timestamp, as numbers.
pub open spec fn ts_reading(b: Seq<u8>) -> (int, int, int, int, int) {
    (ts_year(b), ts_month(b), ts_day(b), ts_hour(b), ts_minute(b))
}

/// Law: differences of `parse_epoch_minutes` are minute counts. When the
/// reading of timestamp `b` lies `k` minutes after the valid reading of
/// timestamp `a`, their minute counts differ by exactly `k`.
pub proof fn lemma_epoch_minutes_difference(a: Seq<u8>, b: Seq<u8>, k: nat)
    requires
        a.len() >= 16,
        b.len() >= 16,
        valid_reading(ts_year(a), ts_month(a), ts_day(a), ts_hour(a), ts_minute(a)),
        minutes_later(ts_reading(a), k) == ts_reading(b),
    ensures
        epoch_minutes(b) - epoch_minutes(a) == k,
{
    lemma_minutes_later_count(ts_year(a), ts_month(a), ts_day(a), ts_hour(a), ts_minute(a), k);
}

/// `days_in_month` is between 28 and 31.
proof fn lemma_month_length_bounds(y: int, m: int)
    ensures
        28 <= days_in_month(y, m) <= 31,
{
}

/// Within a year, later months start at least a month length later.
proof fn lemma_month_starts_increase(y: int, m1: int, m2: int)
    requires
        1 <= m1 < m2 <= 12,
    ensures
        days_from_civil(y, m1, 1) + days_in_month(y, m1) <= days_from_civil(y, m2, 1),
    decreases m2 - m1,
{
    lemma_civil_days_month_length(y, m1);
    if m1 + 1 < m2 {
        lemma_month_starts_increase(y, m1 + 1, m2);
        lemma_month_length_bounds(y, m1 + 1);
    }
}

/// A valid day lies before the first day of the next year.
proof fn lemma_day_before_next_year(y: int, m: int, d: int)
    requires
        1 <= m <= 12,
        1 <= d <= days_in_month(y, m),
    ensures
        days_from_civil(y, 1, 1) <= days_from_civil(y, m, d) < days_from_civil(y + 1, 1, 1),
{
    assert(days_from_civil(y, m, d) == days_from_civil(y, m, 1) + d - 1);
    lemma_civil_days_month_length(y, 12);
    if m < 12 {
        lemma_month_starts_increase(y, m, 12);
    }
    if m > 1 {
        lemma_month_starts_increase(y, 1, m);
        lemma_month_length_bounds(y, 1);
    }
}

/// Later years start later.
proof fn lemma_year_starts_increase(y1: int, y2: int)
    requires
        y1 < y2,
    ensures
        days_from_civil(y1 + 1, 1, 1) <= days_from_civil(y2, 1, 1),
    decreases y2 - y1,
{
    if y1 + 1 < y2 {
        lemma_year_starts_increase(y1 + 1, y2);
        lemma_day_before_next_year(y1 + 1, 1, 1);
    }
}

/// A reading before another in the order of its fields (year, month, day,
/// hour, minute).
pub open spec fn reading_before(a: (int, int, int, int, int), b: (int, int, int, int, int)) -> bool {
    ||| a.0 < b.0
    ||| a.0 == b.0 && a.1 < b.1
    ||| a.0 == b.0 && a.1 == b.1 && a.2 < b.2
    ||| a.0 == b.0 && a.1 == b.1 && a.2 == b.2 && a.3 < b.3
    ||| a.0 == b.0 && a.1 == b.1 && a.2 == b.2 && a.3 == b.3 && a.4 < b.4
}

/// Law: `parse_epoch_minutes` is monotone. Of two timestamps with valid
/// readings, the one whose fields come first counts fewer minutes.
pub proof fn lemma_epoch_minutes_monotone(a: Seq<u8>, b: Seq<u8>)
    requires
        a.len() >= 16,
        b.len() >= 16,
        valid_reading(ts_year(a), ts_month(a), ts_day(a), ts_hour(a), ts_minute(a)),
        valid_reading(ts_year(b), ts_month(b), ts_day(b), ts_hour(b), ts_minute(b)),
        reading_before(ts_reading(a), ts_reading(b)),
    ensures
        epoch_minutes(a) < epoch_minutes(b),
{
    let (y1, m1, d1, h1, i1) = ts_reading(a);
    let (y2, m2, d2, h2, i2) = ts_reading(b);
    let da = days_from_civil(y1, m1, d1);
    let db = days_from_civil(y2, m2, d2);
    if y1 < y2 {
        lemma_day_before_next_year(y1, m1, d1);
        lemma_day_before_next_year(y2, m2, d2);
        lemma_year_starts_increase(y1, y2);
        assert(da < db);
    } else if y1 == y2 && m1 < m2 {
        assert(da == days_from_civil(y1, m1, 1) + d1 - 1);
        assert(db == days_from_civil(y1, m2, 1) + d2 - 1);
        lemma_month_starts_increase(y1, m1, m2);
        assert(da < db);
    } else if y1 == y2 && m1 == m2 && d1 < d2 {
        assert(da == days_from_civil(y1, m1, 1) + d1 - 1);
        assert(db == days_from_civil(y1, m1, 1) + d2 - 1);
    }
}

/// Law: a timestamp whose year, month, day, hour and minute are written in
/// ASCII digits (`YYYY-MM-DDTHH:MM`, any digits, any day of any month) is
/// one `parse_epoch_minutes` reads: `epoch_minutes_input_ok` accepts it.
pub proof fn lemma_digit_timestamps_give_minutes(b: Seq<u8>)
    requires
        b.len() >= 16,
        forall|k: int|
            0 <= k < 16 && k != 4 && k != 7 && k != 10 && k != 13 ==> 48 <= #[trigger] b[k] <= 57,
    ensures
        date_hour_bytes(b),
        date_minute_bytes(b),
{
    assert(b[0] >= 48 && b[1] >= 48 && b[2] >= 48 && b[3] >= 48);
    assert(b[5] >= 48 && b[6] >= 48 && b[8] >= 48 && b[9] >= 48);
    assert(b[11] >= 48 && b[12] >= 48 && b[14] >= 48 && b[15] >= 48);
}

/// Law: a timestamp of 19 bytes or more whose year, month, day and hour are
/// written in ASCII digits, with a month from 01 to 12 (December included),
/// is one `parse_timestamp_hour_dow` reads: `hour_dow_input_ok` accepts it.
/// A month of 00 or above 12 is refused, where the month table has no entry.
pub proof fn lemma_digit_timestamps_give_hour_dow(b: Seq<u8>)
    requires
        b.len() >= 19,
        forall|k: int|
            0 <= k < 13 && k != 4 && k != 7 && k != 10 ==> 48 <= #[trigger] b[k] <= 57,
    ensures
        hour_dow_readable(b) <==> 1 <= (b[5] - 48) * 10 + (b[6] - 48) <= 12,
{
    assert(b[0] >= 48 && b[1] >= 48 && b[2] >= 48 && b[3] >= 48);
    assert(b[5] >= 48 && b[6] >= 48 && b[8] >= 48 && b[9] >= 48);
    assert(b[11] >= 48 && b[12] >= 48);
}

/// Law: a byte below `'0'` in the year, month, day, hour or minute of a
/// timestamp of 16 bytes or more, where `c - b'0'` would underflow, makes
/// `epoch_minutes_input_ok` refuse it (and, in the first 13 bytes,
/// `hour_dow_input_ok` too).
pub proof fn lemma_underflowing_timestamps_refused(b: Seq<u8>, k: int)
    requires
        b.len() >= 16,
        0 <= k < 16,
        k != 4 && k != 7 && k != 10 && k != 13,
        b[k] < 48,
    ensures
        !date_minute_bytes(b),
        k < 13 ==> !hour_dow_readable(b),
{
}

} // verus!
