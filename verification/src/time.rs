//! Parsing of `YYYY-MM-DDTHH:MM:SSZ` UTC timestamps into the fields the
//! fraud vector needs: hour of day, day of week and seconds since the Unix epoch.
use vstd::prelude::*;
use vstd::string::StringSliceAdditionalSpecFns;

verus! {

/// The fields of a UTC timestamp that the vectorizer reads.
#[derive(Debug, Clone, Copy, PartialEq, Eq, Structural)]
pub struct ParsedTimestamp {
    pub hour: u8,
    /// Monday is 0, Sunday is 6.
    pub day_of_week: u8,
    pub epoch_seconds: i64,
}

/// Why a timestamp was rejected; each variant carries the rejected input.
#[derive(Debug)]
pub enum TimestampError {
    /// Not of the form `YYYY-MM-DDTHH:MM:SSZ`.
    InvalidFormat(String),
    /// Of the right form, but a field is outside its calendar range.
    OutOfRange(String),
}

pub open spec fn is_ascii_digit(b: u8) -> bool {
    48 <= b <= 57
}

/// Decimal value of the `len` bytes of `s` that start at `start`.
pub open spec fn decimal_value(s: Seq<u8>, start: int, len: nat) -> int
    decreases len,
{
    if len == 0 {
        0
    } else {
        decimal_value(s, start, (len - 1) as nat) * 10 + (s[start + len - 1] - 48)
    }
}

pub open spec fn all_digits(s: Seq<u8>, start: int, len: int) -> bool {
    forall|k: int| start <= k < start + len ==> is_ascii_digit(#[trigger] s[k])
}

/// `s` has the byte layout `DDDD-DD-DDTDD:DD:DDZ`, where each `D` is an ASCII digit.
pub open spec fn has_timestamp_layout(s: Seq<u8>) -> bool {
    &&& s.len() == 20
    &&& s[4] == 45u8 && s[7] == 45u8 && s[10] == 84u8
    &&& s[13] == 58u8 && s[16] == 58u8 && s[19] == 90u8
    &&& all_digits(s, 0, 4) && all_digits(s, 5, 2) && all_digits(s, 8, 2)
    &&& all_digits(s, 11, 2) && all_digits(s, 14, 2) && all_digits(s, 17, 2)
}

pub open spec fn layout_year(s: Seq<u8>) -> int { decimal_value(s, 0, 4) }
pub open spec fn layout_month(s: Seq<u8>) -> int { decimal_value(s, 5, 2) }
pub open spec fn layout_day(s: Seq<u8>) -> int { decimal_value(s, 8, 2) }
pub open spec fn layout_hour(s: Seq<u8>) -> int { decimal_value(s, 11, 2) }
pub open spec fn layout_minute(s: Seq<u8>) -> int { decimal_value(s, 14, 2) }
pub open spec fn layout_second(s: Seq<u8>) -> int { decimal_value(s, 17, 2) }

/// Gregorian leap year rule.
pub open spec fn is_leap(y: int) -> bool {
    (y % 4 == 0 && y % 100 != 0) || y % 400 == 0
}

/// Number of days of month `m` (1 to 12) of year `y`; 0 for any other `m`.
pub open spec fn month_length(y: int, m: int) -> int {
    if m == 2 {
        if is_leap(y) { 29 } else { 28 }
    } else if m == 4 || m == 6 || m == 9 || m == 11 {
        30
    } else if 1 <= m <= 12 {
        31
    } else {
        0
    }
}

pub open spec fn year_length(y: int) -> int {
    if is_leap(y) { 366 } else { 365 }
}

/// Days from 0000-01-01 to the first day of year `y`.
pub open spec fn days_before_year(y: nat) -> int
    decreases y,
{
    if y == 0 {
        0
    } else {
        days_before_year((y - 1) as nat) + year_length(y - 1)
    }
}

/// Days from the first day of year `y` to the first day of month `m` of that year.
pub open spec fn days_before_month(y: int, m: nat) -> int
    decreases m,
{
    if m <= 1 {
        0
    } else {
        days_before_month(y, (m - 1) as nat) + month_length(y, m - 1)
    }
}

/// Days from 1970-01-01 to the civil date `y`-`m`-`d` (proleptic Gregorian calendar).
pub open spec fn days_since_epoch(y: nat, m: nat, d: int) -> int {
    days_before_year(y) + days_before_month(y as int, m) + d - 1 - days_before_year(1970)
}

pub open spec fn fields_in_range(y: int, m: int, d: int, h: int, mi: int, s: int) -> bool {
    &&& 1 <= m <= 12
    &&& h <= 23 && mi <= 59 && s <= 59
    &&& 1 <= d <= month_length(y, m)
}

pub open spec fn layout_in_range(s: Seq<u8>) -> bool {
    fields_in_range(layout_year(s), layout_month(s), layout_day(s), layout_hour(s),
        layout_minute(s), layout_second(s))
}

pub open spec fn layout_days(s: Seq<u8>) -> int {
    days_since_epoch(layout_year(s) as nat, layout_month(s) as nat, layout_day(s))
}

/// Seconds since 1970-01-01T00:00:00Z of the timestamp written in `s`.
pub open spec fn layout_epoch_seconds(s: Seq<u8>) -> int {
    layout_days(s) * 86400 + layout_hour(s) * 3600 + layout_minute(s) * 60 + layout_second(s)
}

/// Day of the week of the timestamp in `s`, Monday being 0 (1970-01-01 was a Thursday).
pub open spec fn layout_day_of_week(s: Seq<u8>) -> int {
    (layout_days(s) + 3) % 7
}

/// What `parse_utc_timestamp` gives back for a well-formed, in-range input.
pub open spec fn parsed_from_layout(s: Seq<u8>) -> ParsedTimestamp {
    ParsedTimestamp {
        hour: layout_hour(s) as u8,
        day_of_week: layout_day_of_week(s) as u8,
        epoch_seconds: layout_epoch_seconds(s) as i64,
    }
}

/// Day of the week of day number `days` (days since 1970-01-01, a Thursday), Monday being 0.
fn weekday_of(days: i64) -> (r: u8)
    requires
        -1_000_000 <= days <= 3_000_000,
    ensures
        r == (days + 3) % 7,
{
    let shifted: u64 = (days + 7_000_003) as u64;
    assert((days + 7_000_003) % 7 == (days + 3) % 7) by (nonlinear_arith)
        requires -1_000_000 <= days <= 3_000_000;
    (shifted % 7) as u8
}

/// Parses a UTC timestamp of the exact form `YYYY-MM-DDTHH:MM:SSZ`.
pub fn parse_utc_timestamp(input: &str) -> (res: Result<ParsedTimestamp, TimestampError>)
    ensures
        ({
            let s = input.spec_bytes();
            match res {
                Ok(ts) => has_timestamp_layout(s) && layout_in_range(s) && ts == parsed_from_layout(s),
                Err(TimestampError::InvalidFormat(text)) => !has_timestamp_layout(s) && text@ == input@,
                Err(TimestampError::OutOfRange(text)) => has_timestamp_layout(s) && !layout_in_range(s)
                    && text@ == input@,
            }
        }),
        res matches Ok(ts) ==> -86_400_000_000 <= ts.epoch_seconds <= 259_300_000_000,
{
    let bytes = input.as_bytes();
    // '-' is 45, 'T' is 84, ':' is 58 and 'Z' is 90 in ASCII.
    if bytes.len() != 20 || bytes[4] != 45u8 || bytes[7] != 45u8 || bytes[10] != 84u8
        || bytes[13] != 58u8 || bytes[16] != 58u8 || bytes[19] != 90u8 {
        return Err(TimestampError::InvalidFormat(input.to_string()));
    }
    let year = match digits(bytes, 0, 4, input) {
        Ok(v) => v,
        Err(e) => { return Err(e); }
    };
    let month = match digits(bytes, 5, 2, input) {
        Ok(v) => v,
        Err(e) => { return Err(e); }
    };
    let day = match digits(bytes, 8, 2, input) {
        Ok(v) => v,
        Err(e) => { return Err(e); }
    };
    let hour = match digits(bytes, 11, 2, input) {
        Ok(v) => v,
        Err(e) => { return Err(e); }
    };
    let minute = match digits(bytes, 14, 2, input) {
        Ok(v) => v,
        Err(e) => { return Err(e); }
    };
    let second = match digits(bytes, 17, 2, input) {
        Ok(v) => v,
        Err(e) => { return Err(e); }
    };
    proof {
        assert(has_timestamp_layout(bytes@));
    }
    proof {
        reveal_with_fuel(decimal_power, 5);
    }
    let year: i32 = year as i32;
    match validate_date_time(year, month, day, hour, minute, second, input) {
        Ok(()) => {},
        Err(e) => { return Err(e); }
    }
    let days: i64 = days_from_civil(year, month, day);
    let day_of_week: u8 = weekday_of(days);
    let epoch_seconds: i64 = days * 86_400 + ((hour * 3_600 + minute * 60 + second) as i64);
    Ok(ParsedTimestamp { hour: hour as u8, day_of_week, epoch_seconds })
}

fn invalid_format(input_text: &str) -> (e: TimestampError)
    ensures
        e matches TimestampError::InvalidFormat(text) && text@ == input_text@,
{
    TimestampError::InvalidFormat(input_text.to_string())
}

/// Reads the `len` ASCII digits that start at `start` as a decimal number.
fn digits(bytes: &[u8], start: usize, len: usize, input_text: &str) -> (res: Result<u32, TimestampError>)
    requires
        start + len <= bytes@.len(),
        len <= 4,
    ensures
        match res {
            Ok(v) => all_digits(bytes@, start as int, len as int)
                && v == decimal_value(bytes@, start as int, len as nat)
                && v < decimal_power(len as nat),
            Err(e) => !all_digits(bytes@, start as int, len as int)
                && (e matches TimestampError::InvalidFormat(text) && text@ == input_text@),
        },
{
    proof {
        reveal_with_fuel(decimal_power, 5);
    }
    let mut value: u32 = 0;
    let mut i: usize = 0;
    while i < len
        invariant
            i <= len,
            len <= 4,
            start + len <= bytes.len(),
            decimal_power(len as nat) <= 10000,
            all_digits(bytes@, start as int, i as int),
            value == decimal_value(bytes@, start as int, i as nat),
            value < decimal_power(i as nat),
        decreases len - i,
    {
        let digit: u8 = bytes[start + i].wrapping_sub(48u8);
        if digit > 9 {
            assert(!is_ascii_digit(bytes@[start + i]));
            return Err(invalid_format(input_text));
        }
        proof {
            lemma_decimal_power_step(i as nat, len as nat);
        }
        value = value * 10 + digit as u32;
        i = i + 1;
    }
    Ok(value)
}

proof fn lemma_decimal_power_step(i: nat, len: nat)
    requires
        i < len,
        decimal_power(len) <= 10000,
    ensures
        decimal_power(i + 1) == 10 * decimal_power(i),
        decimal_power(i + 1) <= 10000,
        decimal_power(i) >= 1,
    decreases len - i,
{
    lemma_decimal_power_positive(i);
    lemma_decimal_power_monotone(i + 1, len);
}

proof fn lemma_decimal_power_positive(n: nat)
    ensures
        decimal_power(n) >= 1,
    decreases n,
{
    if n > 0 {
        lemma_decimal_power_positive((n - 1) as nat);
    }
}

proof fn lemma_decimal_power_monotone(a: nat, b: nat)
    requires
        a <= b,
    ensures
        decimal_power(a) <= decimal_power(b),
    decreases b - a,
{
    if a < b {
        lemma_decimal_power_monotone(a, (b - 1) as nat);
        lemma_decimal_power_positive((b - 1) as nat);
    }
}

pub open spec fn decimal_power(n: nat) -> int
    decreases n,
{
    if n == 0 { 1 } else { 10 * decimal_power((n - 1) as nat) }
}

fn validate_date_time(
    year: i32,
    month: u32,
    day: u32,
    hour: u32,
    minute: u32,
    second: u32,
    input_text: &str,
) -> (res: Result<(), TimestampError>)
    requires
        0 <= year,
    ensures
        match res {
            Ok(()) => fields_in_range(year as int, month as int, day as int, hour as int,
                minute as int, second as int),
            Err(e) => !fields_in_range(year as int, month as int, day as int, hour as int,
                minute as int, second as int)
                && (e matches TimestampError::OutOfRange(text) && text@ == input_text@),
        },
{
    broadcast use vstd::string::to_string_from_display_ensures_for_str;
    if !(1 <= month && month <= 12) || hour > 23 || minute > 59 || second > 59 {
        return Err(TimestampError::OutOfRange(input_text.to_string()));
    }
    let max_day = days_in_month(year, month);
    if day == 0 || day > max_day {
        return Err(TimestampError::OutOfRange(input_text.to_string()));
    }
    Ok(())
}

fn days_in_month(year: i32, month: u32) -> (r: u32)
    ensures
        r == month_length(year as int, month as int),
{
    match month {
        1 | 3 | 5 | 7 | 8 | 10 | 12 => 31,
        4 | 6 | 9 | 11 => 30,
        2 => if is_leap_year(year) { 29 } else { 28 },
        _ => 0,
    }
}

fn is_leap_year(year: i32) -> (r: bool)
    ensures
        r == is_leap(year as int),
{
    (year % 4 == 0 && year % 100 != 0) || year % 400 == 0
}

/// Closed form of the number of leap years before `y`.
pub open spec fn days_before_year_closed(y: int) -> int {
    365 * y + (y + 3) / 4 - (y + 99) / 100 + (y + 399) / 400
}

proof fn lemma_days_before_year_closed(y: nat)
    ensures
        days_before_year(y) == days_before_year_closed(y as int),
    decreases y,
{
    if y > 0 {
        lemma_days_before_year_closed((y - 1) as nat);
        lemma_closed_step((y - 1) as int);
    }
}

proof fn lemma_closed_step(p: int)
    requires
        p >= 0,
    ensures
        days_before_year_closed(p + 1) == days_before_year_closed(p) + year_length(p),
{
    lemma_count_step_4(p);
    lemma_count_step_100(p);
    lemma_count_step_400(p);
}

proof fn lemma_count_step_4(p: int)
    requires
        p >= 0,
    ensures
        (p + 4) / 4 - (p + 3) / 4 == if p % 4 == 0 { 1int } else { 0int },
{
}

proof fn lemma_count_step_100(p: int)
    requires
        p >= 0,
    ensures
        (p + 100) / 100 - (p + 99) / 100 == if p % 100 == 0 { 1int } else { 0int },
{
}

proof fn lemma_count_step_400(p: int)
    requires
        p >= 0,
    ensures
        (p + 400) / 400 - (p + 399) / 400 == if p % 400 == 0 { 1int } else { 0int },
{
}

proof fn lemma_month_offsets(y: int, m: int)
    requires
        1 <= m <= 12,
    ensures
        m > 2 ==> days_before_month(y, m as nat) == 59 + (if is_leap(y) { 1int } else { 0int })
            + (153 * (m - 3) + 2) / 5,
        m == 1 ==> days_before_month(y, m as nat) == 0,
        m == 2 ==> days_before_month(y, m as nat) == 31,
{
    reveal_with_fuel(days_before_month, 13);
}

/// The day number that the era-based civil algorithm computes (floor division).
spec fn civil_day_number(y: int, m: int, d: int) -> int {
    let yy = if m <= 2 { y - 1 } else { y };
    let era = yy / 400;
    let year_of_era = yy - era * 400;
    let month_prime = if m > 2 { m - 3 } else { m + 9 };
    let day_of_year = (153 * month_prime + 2) / 5 + d - 1;
    let day_of_era = year_of_era * 365 + year_of_era / 4 - year_of_era / 100 + day_of_year;
    era * 146097 + day_of_era - 719468
}

proof fn lemma_era_split(yy: int)
    requires
        -1 <= yy,
    ensures
        ({
            let era = yy / 400;
            let year_of_era = yy - era * 400;
            &&& 0 <= year_of_era < 400
            &&& era * 146097 + year_of_era * 365 + year_of_era / 4 - year_of_era / 100
                == 365 * yy + yy / 4 - yy / 100 + yy / 400
        }),
{
    let era = yy / 400;
    let year_of_era = yy - era * 400;
    assert(yy / 4 == era * 100 + year_of_era / 4);
    assert(yy / 100 == era * 4 + year_of_era / 100);
}

proof fn lemma_closed_shift(y: int)
    requires
        0 <= y,
    ensures
        days_before_year_closed(y) + (if is_leap(y) { 1int } else { 0int })
            == 365 * y + y / 4 - y / 100 + y / 400 + 1,
        days_before_year_closed(y) == 365 * (y - 1) + (y - 1) / 4 - (y - 1) / 100 + (y - 1) / 400 + 366,
{
    lemma_shift_4(y);
    lemma_shift_100(y);
    lemma_shift_400(y);
}

proof fn lemma_shift_4(y: int)
    requires
        0 <= y,
    ensures
        (y + 3) / 4 == (y - 1) / 4 + 1,
        y / 4 == (y - 1) / 4 + (if y % 4 == 0 { 1int } else { 0int }),
{
}

proof fn lemma_shift_100(y: int)
    requires
        0 <= y,
    ensures
        (y + 99) / 100 == (y - 1) / 100 + 1,
        y / 100 == (y - 1) / 100 + (if y % 100 == 0 { 1int } else { 0int }),
{
}

proof fn lemma_shift_400(y: int)
    requires
        0 <= y,
    ensures
        (y + 399) / 400 == (y - 1) / 400 + 1,
        y / 400 == (y - 1) / 400 + (if y % 400 == 0 { 1int } else { 0int }),
{
}

proof fn lemma_civil_day_number(y: int, m: int, d: int)
    requires
        0 <= y <= 9999,
        1 <= m <= 12,
    ensures
        civil_day_number(y, m, d) == days_since_epoch(y as nat, m as nat, d),
{
    lemma_days_before_year_closed(y as nat);
    lemma_days_before_year_closed(1970);
    lemma_month_offsets(y, m);
    lemma_closed_shift(y);
    let yy = if m <= 2 { y - 1 } else { y };
    lemma_era_split(yy);
}

/// Day count of the civil date relative to 1970-01-01.
fn days_from_civil(year: i32, month: u32, day: u32) -> (r: i64)
    requires
        0 <= year <= 9999,
        1 <= month <= 12,
        1 <= day <= 31,
    ensures
        r == days_since_epoch(year as nat, month as nat, day as int),
        -1_000_000 <= r <= 3_000_000,
{
    let ghost y0 = year as int;
    let mut year = year;
    year -= if month <= 2 { 1i32 } else { 0i32 };
    let era: i32 = if year >= 0 { year } else { year - 399 } / 400;
    let year_of_era: i32 = year - era * 400;
    let month_prime: i32 = month as i32 + if month > 2 { -3i32 } else { 9i32 };
    let day_of_year: i32 = (153 * month_prime + 2) / 5 + day as i32 - 1;
    let day_of_era: i32 = year_of_era * 365 + year_of_era / 4 - year_of_era / 100 + day_of_year;
    proof {
        lemma_civil_day_number(y0, month as int, day as int);
    }
    (era * 146_097 + day_of_era - 719_468) as i64
}


/// `a` comes before `b` in byte order, the order of `str`.
pub open spec fn bytes_before(a: Seq<u8>, b: Seq<u8>) -> bool {
    ||| exists|i: int| 0 <= i < a.len() && i < b.len() && a.take(i) == b.take(i) && #[trigger] a[i] < b[i]
    ||| a.len() < b.len() && a == b.take(a.len() as int)
}

/// `s` is a timestamp that `parse_utc_timestamp` accepts.
pub open spec fn accepted_timestamp(s: Seq<u8>) -> bool {
    has_timestamp_layout(s) && layout_in_range(s)
}

proof fn lemma_decimal_equal(a: Seq<u8>, b: Seq<u8>, start: int, n: nat)
    requires
        forall|j: int| start <= j < start + n ==> #[trigger] a[j] == b[j],
    ensures
        decimal_value(a, start, n) == decimal_value(b, start, n),
    decreases n,
{
    if n > 0 {
        lemma_decimal_equal(a, b, start, (n - 1) as nat);
        assert(a[start + n - 1] == b[start + n - 1]);
    }
}

/// In two digit fields of the same width, the first differing digit decides.
proof fn lemma_decimal_first_difference(a: Seq<u8>, b: Seq<u8>, start: int, n: nat, k: int)
    requires
        0 <= k < n,
        all_digits(a, start, n as int),
        all_digits(b, start, n as int),
        forall|j: int| start <= j < start + k ==> #[trigger] a[j] == b[j],
        a[start + k] < b[start + k],
    ensures
        decimal_value(a, start, n) < decimal_value(b, start, n),
    decreases n,
{
    if n == k + 1 {
        lemma_decimal_equal(a, b, start, k as nat);
    } else {
        lemma_decimal_first_difference(a, b, start, (n - 1) as nat, k);
        assert(is_ascii_digit(a[start + n - 1]) && is_ascii_digit(b[start + n - 1]));
    }
}

proof fn lemma_days_before_year_grows(y1: nat, y2: nat)
    requires
        y1 < y2,
    ensures
        days_before_year(y1) + year_length(y1 as int) <= days_before_year(y2),
    decreases y2,
{
    if y1 + 1 < y2 {
        lemma_days_before_year_grows(y1, (y2 - 1) as nat);
    }
}

proof fn lemma_days_before_month_grows(y: int, m1: nat, m2: nat)
    requires
        1 <= m1 < m2,
    ensures
        days_before_month(y, m1) + month_length(y, m1 as int) <= days_before_month(y, m2),
    decreases m2,
{
    if m1 + 1 < m2 {
        lemma_days_before_month_grows(y, m1, (m2 - 1) as nat);
    }
}

/// A valid date lies within its year.
proof fn lemma_date_within_year(y: nat, m: nat, d: int)
    requires
        1 <= m <= 12,
        1 <= d <= month_length(y as int, m as int),
    ensures
        0 <= days_before_month(y as int, m) + d - 1 < year_length(y as int),
{
    reveal_with_fuel(days_before_month, 13);
    if m < 12 {
        lemma_days_before_month_grows(y as int, m, 12);
    }
}

/// Valid dates in calendar order have increasing day numbers.
proof fn lemma_dates_ordered(y1: nat, m1: nat, d1: int, y2: nat, m2: nat, d2: int)
    requires
        1 <= m1 <= 12 && 1 <= d1 <= month_length(y1 as int, m1 as int),
        1 <= m2 <= 12 && 1 <= d2 <= month_length(y2 as int, m2 as int),
        y1 < y2 || (y1 == y2 && m1 < m2) || (y1 == y2 && m1 == m2 && d1 < d2),
    ensures
        days_since_epoch(y1, m1, d1) < days_since_epoch(y2, m2, d2),
{
    lemma_date_within_year(y1, m1, d1);
    lemma_date_within_year(y2, m2, d2);
    if y1 < y2 {
        lemma_days_before_year_grows(y1, y2);
    } else if m1 < m2 {
        lemma_days_before_month_grows(y1 as int, m1, m2);
    }
}

/// The fields of two timestamps, compared in the order they are written.
spec fn fields_before(a: Seq<u8>, b: Seq<u8>) -> bool {
    ||| layout_year(a) < layout_year(b)
    ||| layout_year(a) == layout_year(b) && layout_month(a) < layout_month(b)
    ||| layout_year(a) == layout_year(b) && layout_month(a) == layout_month(b) && layout_day(a) < layout_day(b)
    ||| layout_year(a) == layout_year(b) && layout_month(a) == layout_month(b) && layout_day(a) == layout_day(b)
        && layout_hour(a) < layout_hour(b)
    ||| layout_year(a) == layout_year(b) && layout_month(a) == layout_month(b) && layout_day(a) == layout_day(b)
        && layout_hour(a) == layout_hour(b) && layout_minute(a) < layout_minute(b)
    ||| layout_year(a) == layout_year(b) && layout_month(a) == layout_month(b) && layout_day(a) == layout_day(b)
        && layout_hour(a) == layout_hour(b) && layout_minute(a) == layout_minute(b)
        && layout_second(a) < layout_second(b)
}

proof fn lemma_fields_before_epoch(a: Seq<u8>, b: Seq<u8>)
    requires
        accepted_timestamp(a),
        accepted_timestamp(b),
        fields_before(a, b),
    ensures
        layout_epoch_seconds(a) < layout_epoch_seconds(b),
{
    let ya = layout_year(a);
    let yb = layout_year(b);
    assert(ya >= 0 && yb >= 0) by {
        lemma_decimal_nonneg(a, 0, 4);
        lemma_decimal_nonneg(b, 0, 4);
    }
    lemma_decimal_nonneg(a, 11, 2);
    lemma_decimal_nonneg(b, 11, 2);
    lemma_decimal_nonneg(a, 14, 2);
    lemma_decimal_nonneg(b, 14, 2);
    lemma_decimal_nonneg(a, 17, 2);
    lemma_decimal_nonneg(b, 17, 2);
    let da = layout_days(a);
    let db = layout_days(b);
    if ya < yb || (ya == yb && layout_month(a) < layout_month(b)) || (ya == yb && layout_month(a)
        == layout_month(b) && layout_day(a) < layout_day(b)) {
        lemma_dates_ordered(ya as nat, layout_month(a) as nat, layout_day(a), yb as nat,
            layout_month(b) as nat, layout_day(b));
        assert(da < db);
        assert(da * 86400 + 86400 <= db * 86400) by (nonlinear_arith)
            requires da < db;
    }
}

proof fn lemma_decimal_below(s: Seq<u8>, start: int, n: nat)
    requires
        all_digits(s, start, n as int),
    ensures
        decimal_value(s, start, n) < decimal_power(n),
    decreases n,
{
    if n > 0 {
        lemma_decimal_below(s, start, (n - 1) as nat);
        assert(is_ascii_digit(s[start + n - 1]));
    }
}

proof fn lemma_decimal_nonneg(s: Seq<u8>, start: int, n: nat)
    requires
        all_digits(s, start, n as int),
    ensures
        decimal_value(s, start, n) >= 0,
    decreases n,
{
    if n > 0 {
        lemma_decimal_nonneg(s, start, (n - 1) as nat);
        assert(is_ascii_digit(s[start + n - 1]));
    }
}

/// A timestamp that comes before another in byte order has earlier fields.
proof fn lemma_bytes_before_fields(a: Seq<u8>, b: Seq<u8>)
    requires
        accepted_timestamp(a),
        accepted_timestamp(b),
        bytes_before(a, b),
    ensures
        fields_before(a, b),
{
    let i = choose|i: int| 0 <= i < a.len() && i < b.len() && a.take(i) == b.take(i) && #[trigger] a[i] < b[i];
    assert forall|j: int| 0 <= j < i implies #[trigger] a[j] == b[j] by {
        assert(a.take(i)[j] == b.take(i)[j]);
    }
    if i < 4 {
        lemma_decimal_first_difference(a, b, 0, 4, i);
    } else if i < 7 {
        lemma_decimal_equal(a, b, 0, 4);
        lemma_decimal_first_difference(a, b, 5, 2, i - 5);
    } else if i < 10 {
        lemma_decimal_equal(a, b, 0, 4);
        lemma_decimal_equal(a, b, 5, 2);
        lemma_decimal_first_difference(a, b, 8, 2, i - 8);
    } else if i < 13 {
        lemma_decimal_equal(a, b, 0, 4);
        lemma_decimal_equal(a, b, 5, 2);
        lemma_decimal_equal(a, b, 8, 2);
        lemma_decimal_first_difference(a, b, 11, 2, i - 11);
    } else if i < 16 {
        lemma_decimal_equal(a, b, 0, 4);
        lemma_decimal_equal(a, b, 5, 2);
        lemma_decimal_equal(a, b, 8, 2);
        lemma_decimal_equal(a, b, 11, 2);
        lemma_decimal_first_difference(a, b, 14, 2, i - 14);
    } else {
        lemma_decimal_equal(a, b, 0, 4);
        lemma_decimal_equal(a, b, 5, 2);
        lemma_decimal_equal(a, b, 8, 2);
        lemma_decimal_equal(a, b, 11, 2);
        lemma_decimal_equal(a, b, 14, 2);
        lemma_decimal_first_difference(a, b, 17, 2, i - 17);
    }
}

/// Two different byte strings of the same length differ first at some position.
proof fn lemma_first_difference(a: Seq<u8>, b: Seq<u8>, j: int)
    requires
        a.len() == b.len(),
        0 <= j <= a.len(),
        a.take(j) == b.take(j),
        a != b,
    ensures
        bytes_before(a, b) || bytes_before(b, a),
    decreases a.len() - j,
{
    if j == a.len() {
        assert(a =~= a.take(j));
        assert(b =~= b.take(j));
    } else if a[j] != b[j] {
        if a[j] < b[j] {
            assert(a.take(j) == b.take(j) && a[j] < b[j]);
        } else {
            assert(b.take(j) == a.take(j) && b[j] < a[j]);
        }
    } else {
        assert(a.take(j + 1) =~= a.take(j).push(a[j]));
        assert(b.take(j + 1) =~= b.take(j).push(b[j]));
        lemma_first_difference(a, b, j + 1);
    }
}

/// Accepted timestamps compare in byte order as their instants do: one comes before
/// another exactly when it has fewer seconds since 1970-01-01T00:00:00Z.
pub proof fn law_timestamps_order_by_epoch(a: Seq<u8>, b: Seq<u8>)
    requires
        accepted_timestamp(a),
        accepted_timestamp(b),
    ensures
        bytes_before(a, b) <==> layout_epoch_seconds(a) < layout_epoch_seconds(b),
{
    if bytes_before(a, b) {
        lemma_bytes_before_fields(a, b);
        lemma_fields_before_epoch(a, b);
    }
    if layout_epoch_seconds(a) < layout_epoch_seconds(b) {
        if a == b {
        } else {
            assert(a.take(0) =~= b.take(0));
            lemma_first_difference(a, b, 0);
            if bytes_before(b, a) {
                lemma_bytes_before_fields(b, a);
                lemma_fields_before_epoch(b, a);
            }
        }
    }
}

/// The hour and the weekday of an accepted timestamp follow from its seconds since the
/// epoch: the hour of the day's second count, and the weekday of the day count, 1970-01-01
/// being a Thursday (Monday is 0). The seconds fit an `i64`, so the parsed `epoch_seconds`
/// is that count exactly.
pub proof fn law_clock_fields_follow_epoch(s: Seq<u8>)
    requires
        accepted_timestamp(s),
    ensures
        layout_hour(s) == layout_epoch_seconds(s) % 86400 / 3600,
        layout_day_of_week(s) == (layout_epoch_seconds(s) / 86400 + 3) % 7,
        -86_400_000_000 <= layout_epoch_seconds(s) <= 259_300_000_000,
{
    let y = layout_year(s);
    lemma_decimal_nonneg(s, 0, 4);
    assert(y <= 9999) by {
        lemma_decimal_below(s, 0, 4);
        reveal_with_fuel(decimal_power, 5);
    }
    lemma_days_before_year_closed(y as nat);
    lemma_days_before_year_closed(1970);
    lemma_date_within_year(y as nat, layout_month(s) as nat, layout_day(s));
    assert(0 <= days_before_year_closed(y) <= days_before_year_closed(9999)) by (nonlinear_arith)
        requires 0 <= y <= 9999;
    lemma_decimal_nonneg(s, 11, 2);
    lemma_decimal_nonneg(s, 14, 2);
    lemma_decimal_nonneg(s, 17, 2);
    let days = layout_days(s);
    let sod = layout_hour(s) * 3600 + layout_minute(s) * 60 + layout_second(s);
    assert(0 <= sod < 86400);
    let e = layout_epoch_seconds(s);
    assert(e == days * 86400 + sod);
    assert(e / 86400 == days && e % 86400 == sod) by (nonlinear_arith)
        requires e == days * 86400 + sod, 0 <= sod < 86400;
    assert(sod / 3600 == layout_hour(s));
}

} // verus!
