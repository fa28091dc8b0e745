//! Calendar and clock.

use crate::numbers;
use vstd::prelude::*;

verus! {

/// The first Unix time that the calendar covers.
pub const FIRST_TIME: i64 = -8334601228800;

/// The last Unix time that the calendar covers.
pub const LAST_TIME: i64 = 8210266876799;

/// Date, hour and minute.
pub const MINUTES: &'static str = "%Y-%m-%d %H:%M";

/// Date, hour, minute and second.
pub const SECONDS: &'static str = "%Y-%m-%d %H:%M:%S";

/// A date alone.
pub const DATE: &'static str = "%Y-%m-%d";

// -------------------------------------------------------------------- calendar

/// A day of the Gregorian calendar.
pub struct Date {
    pub year: int,
    pub month: int,
    pub day: int,
}

/// Whether a year has a 29th of February.
pub open spec fn is_leap(year: int) -> bool {
    year % 4 == 0 && (year % 100 != 0 || year % 400 == 0)
}

/// How many days a month has.
pub open spec fn month_days(year: int, month: int) -> int {
    if month == 2 {
        if is_leap(year) {
            29
        } else {
            28
        }
    } else if month == 4 || month == 6 || month == 9 || month == 11 {
        30
    } else {
        31
    }
}

/// Whether there is such a day.
pub open spec fn is_date(d: Date) -> bool {
    1 <= d.month <= 12 && 1 <= d.day <= month_days(d.year, d.month)
}

/// How many days of a year stand before a month.
pub open spec fn days_before_month(year: int, month: int) -> int
    decreases month,
{
    if month <= 1 {
        0
    } else {
        days_before_month(year, month - 1) + month_days(year, month - 1)
    }
}

/// How many leap years stand before a year, counted from the year 1.
pub open spec fn leap_years_before(year: int) -> int {
    (year - 1) / 4 - (year - 1) / 100 + (year - 1) / 400
}

/// How many days stand between the start of 1970 and the start of a year.
pub open spec fn days_before_year(year: int) -> int {
    365 * (year - 1970) + leap_years_before(year) - leap_years_before(1970)
}

/// The number of a day, counted from the first day of 1970.
pub open spec fn day_number(d: Date) -> int {
    days_before_year(d.year) + days_before_month(d.year, d.month) + d.day - 1
}

// --------------------------------------------------------------- written times

/// A number with two digits.
pub open spec fn two(n: int) -> Seq<char> {
    numbers::zero_filled(n as nat, 2)
}

/// A year with at least four digits, and with a sign unless it has four.
pub open spec fn year_text(year: int) -> Seq<char> {
    if 0 <= year <= 9999 {
        numbers::zero_filled(year as nat, 4)
    } else if year > 9999 {
        seq!['+'] + numbers::digits(year as nat)
    } else if year >= -9999 {
        seq!['-'] + numbers::zero_filled((-year) as nat, 4)
    } else {
        seq!['-'] + numbers::digits((-year) as nat)
    }
}

/// A day, written.
pub open spec fn date_text(d: Date) -> Seq<char> {
    year_text(d.year) + seq!['-'] + two(d.month) + seq!['-'] + two(d.day)
}

/// A day and a second of that day, written to the minute.
pub open spec fn minutes_text(d: Date, second: int) -> Seq<char> {
    date_text(d) + seq![' '] + two(second / 3600) + seq![':'] + two(second / 60 % 60)
}

/// Whether `s` writes the time that is `t` seconds behind the start of 1970, to
/// the minute.
pub open spec fn says_minutes(s: Seq<char>, t: int) -> bool {
    exists|d: Date| #[trigger]
        is_date(d) && day_number(d) == t / 86400 && s == minutes_text(d, t % 86400)
}

/// Whether `s` writes the time that is `t` seconds behind the start of 1970, to
/// the second.
pub open spec fn says_seconds(s: Seq<char>, t: int) -> bool {
    exists|m: Seq<char>| #[trigger] says_minutes(m, t) && s == m + seq![':'] + two(t % 60)
}

/// Whether `s` writes a Unix time to the minute, in some time zone: its clocks
/// differ from UTC by less than a day.
pub open spec fn local_minutes(ts: i64, s: Seq<char>) -> bool {
    exists|t: int| ts - 86400 < t < ts + 86400 && #[trigger] says_minutes(s, t)
}

/// Whether `s` writes a Unix time to the second, in some time zone.
pub open spec fn local_seconds(ts: i64, s: Seq<char>) -> bool {
    exists|t: int| ts - 86400 < t < ts + 86400 && #[trigger] says_seconds(s, t)
}

/// Calls `chrono::Local.timestamp_opt` and formats the result. There is one for
/// each time that the calendar covers: it writes the given time, to the minute
/// or to the second, moved by the offset of the machine's time zone. Which
/// offset that is, is left open.
#[verifier::external_body]
pub(crate) fn local_text(ts: i64, format: &str) -> (r: Option<String>)
    requires
        format@ == MINUTES@ || format@ == SECONDS@,
    ensures
        r is Some <==> FIRST_TIME <= ts <= LAST_TIME,
        r matches Some(s) ==> format@ == MINUTES@ ==> local_minutes(ts, s@),
        r matches Some(s) ==> format@ == SECONDS@ ==> local_seconds(ts, s@),
{
    chrono::TimeZone::timestamp_opt(&chrono::Local, ts, 0).single().map(|d| d.format(format).to_string())
}

/// Calls `chrono::Utc::now` and takes its Unix time. All that is known of it is
/// that the epoch has begun and that the calendar covers it: the call does not
/// return on a clock that is set otherwise.
#[verifier::external_body]
pub(crate) fn utc_now() -> (r: i64)
    ensures
        0 <= r <= LAST_TIME,
{
    chrono::Utc::now().timestamp()
}

// ------------------------------------------------------------------ read times

/// Whether `s` has decimal digits from `lo` to `hi`.
pub open spec fn digits_at(s: Seq<char>, lo: int, hi: int) -> bool {
    forall|i: int| lo <= i < hi ==> numbers::is_digit(#[trigger] s[i])
}

/// The number that the digits from `lo` to `hi` denote.
pub open spec fn number_at(s: Seq<char>, lo: int, hi: int) -> int {
    numbers::value(s.subrange(lo, hi)) as int
}

/// Whether a text starts like a date: `YYYY-MM-DD`, in digits.
pub open spec fn starts_with_date(s: Seq<char>) -> bool {
    &&& s.len() >= 10
    &&& digits_at(s, 0, 4)
    &&& s[4] == '-'
    &&& digits_at(s, 5, 7)
    &&& s[7] == '-'
    &&& digits_at(s, 8, 10)
}

/// The date at the start of a text, which may be none of the calendar's.
pub open spec fn date_at(s: Seq<char>) -> Date {
    Date { year: number_at(s, 0, 4), month: number_at(s, 5, 7), day: number_at(s, 8, 10) }
}

/// Whether a text has the form `YYYY-MM-DD`.
pub open spec fn is_plain_date(s: Seq<char>) -> bool {
    s.len() == 10 && starts_with_date(s)
}

/// The Unix time at which the day `YYYY-MM-DD` begins in UTC, if there is such a
/// day.
pub open spec fn plain_date_seconds(s: Seq<char>) -> Option<i64> {
    if is_date(date_at(s)) {
        Some((day_number(date_at(s)) * 86400) as i64)
    } else {
        None
    }
}

/// The Unix time at which a date begins in UTC, as `chrono` reads the text by
/// the format; `None` if it refuses the text.
pub uninterp spec fn date_seconds(s: Seq<char>, format: Seq<char>) -> Option<i64>;

/// Calls `chrono::NaiveDate::parse_from_str` and takes the Unix time of the
/// date's midnight in UTC. It depends on the text and the format alone; a text
/// of the form `YYYY-MM-DD` is read as that day, and refused if there is none.
#[verifier::external_body]
pub(crate) fn read_date(s: &str, format: &str) -> (r: Option<i64>)
    requires
        format@ == DATE@,
    ensures
        r == (if is_plain_date(s@) {
            plain_date_seconds(s@)
        } else {
            date_seconds(s@, format@)
        }),
{
    let date = chrono::NaiveDate::parse_from_str(s, format).ok()?;
    Some(date.and_hms_opt(0, 0, 0)?.and_utc().timestamp())
}

/// The Unix time at which the date that a text denotes begins in UTC.
pub open spec fn date_start(s: Seq<char>) -> Option<i64> {
    if is_plain_date(s) {
        plain_date_seconds(s)
    } else {
        date_seconds(s, DATE@)
    }
}

/// Whether a text has the form `YYYY-MM-DDTHH:MM:SSZ`, with or without decimals
/// of the second.
pub open spec fn is_plain_utc(s: Seq<char>) -> bool {
    &&& s.len() >= 20
    &&& starts_with_date(s)
    &&& s[10] == 'T'
    &&& digits_at(s, 11, 13)
    &&& s[13] == ':'
    &&& digits_at(s, 14, 16)
    &&& s[16] == ':'
    &&& digits_at(s, 17, 19)
    &&& s[s.len() - 1] == 'Z'
    &&& s.len() > 20 ==> s.len() > 21 && s[19] == '.' && digits_at(s, 20, s.len() - 1)
}

/// The Unix time of `YYYY-MM-DDTHH:MM:SSZ`, if there is such a time. A leap
/// second counts as the second before it.
pub open spec fn plain_utc_seconds(s: Seq<char>) -> Option<i64> {
    let hour = number_at(s, 11, 13);
    let minute = number_at(s, 14, 16);
    let second = number_at(s, 17, 19);
    if is_date(date_at(s)) && hour < 24 && minute < 60 && second <= 60 {
        Some(
            (day_number(date_at(s)) * 86400 + hour * 3600 + minute * 60 + (if second == 60 {
                59
            } else {
                second
            })) as i64,
        )
    } else {
        None
    }
}

/// The Unix time, in seconds, of an RFC 3339 time stamp, as `chrono` reads it;
/// `None` if it refuses the text.
pub uninterp spec fn rfc3339_seconds(s: Seq<char>) -> Option<i64>;

/// Calls `chrono::DateTime::parse_from_rfc3339` and takes the Unix time of the
/// result. It depends on the text alone; a time in UTC of the usual form is read
/// as that time, and refused if there is none.
#[verifier::external_body]
pub(crate) fn read_rfc3339(s: &str) -> (r: Option<i64>)
    ensures
        r == (if is_plain_utc(s@) {
            plain_utc_seconds(s@)
        } else {
            rfc3339_seconds(s@)
        }),
{
    chrono::DateTime::parse_from_rfc3339(s).ok().map(|dt| dt.timestamp())
}

/// The Unix time of an RFC 3339 time stamp, if it is one.
pub open spec fn stamp_seconds(s: Seq<char>) -> Option<i64> {
    if is_plain_utc(s) {
        plain_utc_seconds(s)
    } else {
        rfc3339_seconds(s)
    }
}

// ------------------------------------------------------------------------ laws

proof fn year_has_its_days(year: int)
    ensures
        days_before_year(year + 1) == days_before_year(year) + (if is_leap(year) {
            366int
        } else {
            365int
        }),
        days_before_month(year, 12) + 31 == days_before_year(year + 1) - days_before_year(year),
{
    reveal_with_fuel(days_before_month, 13);
}

/// Every day has a date.
pub proof fn every_day_has_a_date(n: int)
    ensures
        exists|d: Date| #[trigger] is_date(d) && day_number(d) == n,
    decreases if n < 0 { -n } else { n },
{
    if n == 0 {
        let d = Date { year: 1970, month: 1, day: 1 };
        assert(is_date(d) && day_number(d) == 0);
    } else if n > 0 {
        every_day_has_a_date(n - 1);
        let d = choose|d: Date| #[trigger] is_date(d) && day_number(d) == n - 1;
        year_has_its_days(d.year);
        let next = if d.day < month_days(d.year, d.month) {
            Date { day: d.day + 1, ..d }
        } else if d.month < 12 {
            Date { month: d.month + 1, day: 1, ..d }
        } else {
            Date { year: d.year + 1, month: 1, day: 1 }
        };
        assert(is_date(next) && day_number(next) == n);
    } else {
        every_day_has_a_date(n + 1);
        let d = choose|d: Date| #[trigger] is_date(d) && day_number(d) == n + 1;
        year_has_its_days(d.year - 1);
        let last = if d.day > 1 {
            Date { day: d.day - 1, ..d }
        } else if d.month > 1 {
            Date { month: d.month - 1, day: month_days(d.year, d.month - 1), ..d }
        } else {
            Date { year: d.year - 1, month: 12, day: 31 }
        };
        assert(is_date(last) && day_number(last) == n);
    }
}

proof fn months_follow(year: int, a: int, b: int)
    requires
        1 <= a < b,
    ensures
        days_before_month(year, a) + month_days(year, a) <= days_before_month(year, b),
    decreases b,
{
    if a < b - 1 {
        months_follow(year, a, b - 1);
    }
}

proof fn years_follow(a: int, b: int)
    requires
        a <= b,
    ensures
        days_before_year(a) <= days_before_year(b),
    decreases b - a,
{
    if a < b {
        years_follow(a, b - 1);
        year_has_its_days(b - 1);
    }
}

proof fn day_lies_in_its_year(d: Date)
    requires
        is_date(d),
    ensures
        days_before_year(d.year) <= day_number(d) < days_before_year(d.year + 1),
{
    year_has_its_days(d.year);
    if d.month < 12 {
        months_follow(d.year, d.month, 12);
    }
    if d.month > 1 {
        months_follow(d.year, 1, d.month);
    }
}

/// No two dates are the same day.
pub proof fn dates_differ_by_day(a: Date, b: Date)
    requires
        is_date(a),
        is_date(b),
        day_number(a) == day_number(b),
    ensures
        a == b,
{
    day_lies_in_its_year(a);
    day_lies_in_its_year(b);
    if a.year < b.year {
        years_follow(a.year + 1, b.year);
    } else if b.year < a.year {
        years_follow(b.year + 1, a.year);
    } else if a.month < b.month {
        months_follow(a.year, a.month, b.month);
    } else if b.month < a.month {
        months_follow(a.year, b.month, a.month);
    }
}

/// The characters of which a written time consists.
pub open spec fn is_stamp_char(c: char) -> bool {
    '0' <= c <= '9' || c == '-' || c == '+' || c == ':' || c == ' '
}

/// Whether a text consists of such characters.
pub open spec fn all_stamp_chars(s: Seq<char>) -> bool {
    forall|i: int| 0 <= i < s.len() ==> is_stamp_char(#[trigger] s[i])
}

proof fn filled_is_plain(n: nat, places: nat)
    ensures
        numbers::zero_filled(n, places).len() == places,
        all_stamp_chars(numbers::zero_filled(n, places)),
    decreases places,
{
    if places > 0 {
        filled_is_plain(n / 10, (places - 1) as nat);
    }
}

proof fn digits_are_plain(n: nat)
    ensures
        numbers::digits(n).len() > 0,
        n >= 10 ==> numbers::digits(n).len() > 1,
        n >= 100 ==> numbers::digits(n).len() > 2,
        n >= 1000 ==> numbers::digits(n).len() > 3,
        n >= 10000 ==> numbers::digits(n).len() > 4,
        all_stamp_chars(numbers::digits(n)),
    decreases n,
{
    if n >= 10 {
        digits_are_plain(n / 10);
    }
}

/// A written time holds at least 16 characters: digits, signs, colons and
/// spaces.
pub proof fn written_times_are_plain(s: Seq<char>, t: int)
    requires
        says_minutes(s, t),
    ensures
        s.len() >= 16,
        all_stamp_chars(s),
{
    let d = choose|d: Date| #[trigger]
        is_date(d) && day_number(d) == t / 86400 && s == minutes_text(d, t % 86400);
    let second = t % 86400;
    filled_is_plain(d.year as nat, 4);
    filled_is_plain((-d.year) as nat, 4);
    digits_are_plain(d.year as nat);
    digits_are_plain((-d.year) as nat);
    filled_is_plain(d.month as nat, 2);
    filled_is_plain(d.day as nat, 2);
    filled_is_plain((second / 3600) as nat, 2);
    filled_is_plain((second / 60 % 60) as nat, 2);
    assert(year_text(d.year).len() >= 4);
    assert(all_stamp_chars(year_text(d.year)));
}

proof fn digit_tells_itself(a: nat, b: nat)
    requires
        a < 10,
        b < 10,
        numbers::digit(a) == numbers::digit(b),
    ensures
        a == b,
{
    assert(numbers::digit(a) as u32 == 48 + a);
    assert(numbers::digit(b) as u32 == 48 + b);
}

proof fn filled_tells_itself(a: nat, b: nat, places: nat, limit: nat)
    requires
        numbers::zero_filled(a, places) == numbers::zero_filled(b, places),
        a < limit,
        b < limit,
        places == 1 && limit == 10 || places == 2 && limit == 100 || places == 3 && limit == 1000
            || places == 4 && limit == 10000,
    ensures
        a == b,
    decreases places,
{
    let p = (places - 1) as nat;
    let x = numbers::zero_filled(a / 10, p);
    let y = numbers::zero_filled(b / 10, p);
    filled_is_plain(a / 10, p);
    filled_is_plain(b / 10, p);
    let z = x.push(numbers::digit(a % 10));
    let w = y.push(numbers::digit(b % 10));
    assert(numbers::zero_filled(a, places) == z);
    assert(numbers::zero_filled(b, places) == w);
    assert(z[p as int] == w[p as int]);
    digit_tells_itself(a % 10, b % 10);
    assert(z.drop_last() =~= x);
    assert(w.drop_last() =~= y);
    if places > 1 {
        filled_tells_itself(a / 10, b / 10, p, limit / 10);
    }
}

proof fn digits_tell_themselves(a: nat, b: nat)
    requires
        numbers::digits(a) == numbers::digits(b),
    ensures
        a == b,
{
    numbers::decimal_is_read_back(a as int);
    numbers::decimal_is_read_back(b as int);
}

proof fn year_tells_itself(a: int, b: int)
    requires
        year_text(a) == year_text(b),
    ensures
        a == b,
{
    let x = year_text(a);
    let y = year_text(b);
    let m = (if a < 0 {
        -a
    } else {
        a
    }) as nat;
    let n = (if b < 0 {
        -b
    } else {
        b
    }) as nat;
    filled_is_plain(m, 4);
    filled_is_plain(n, 4);
    digits_are_plain(m);
    digits_are_plain(n);
    filled_is_unsigned(m);
    filled_is_unsigned(n);
    assert(x[0] == y[0]);
    if 0 <= a <= 9999 {
        filled_tells_itself(m, n, 4, 10000);
    } else {
        assert(x.drop_first() == y.drop_first());
        if m <= 9999 {
            assert(x.drop_first() =~= numbers::zero_filled(m, 4));
        } else {
            assert(x.drop_first() =~= numbers::digits(m));
        }
        if n <= 9999 {
            assert(y.drop_first() =~= numbers::zero_filled(n, 4));
        } else {
            assert(y.drop_first() =~= numbers::digits(n));
        }
        if m <= 9999 && n <= 9999 {
            filled_tells_itself(m, n, 4, 10000);
        } else {
            digits_tell_themselves(m, n);
        }
    }
}

proof fn filled_is_unsigned(n: nat)
    ensures
        numbers::zero_filled(n, 4)[0] != '+',
        numbers::zero_filled(n, 4)[0] != '-',
{
    reveal_with_fuel(numbers::zero_filled, 5);
    let d = numbers::digit(n / 10 / 10 / 10 % 10);
    assert(numbers::zero_filled(n, 4)[0] == d);
    assert(d as u32 == 48 + n / 10 / 10 / 10 % 10);
}

/// What a text says of a time to the minute, it says of no other minute.
pub proof fn written_times_tell_the_minute(s: Seq<char>, t: int, u: int)
    requires
        says_minutes(s, t),
        says_minutes(s, u),
    ensures
        t / 60 == u / 60,
{
    let a = choose|d: Date| #[trigger]
        is_date(d) && day_number(d) == t / 86400 && s == minutes_text(d, t % 86400);
    let b = choose|d: Date| #[trigger]
        is_date(d) && day_number(d) == u / 86400 && s == minutes_text(d, u % 86400);
    parts_of_a_time(s, a, t % 86400);
    parts_of_a_time(s, b, u % 86400);
    year_tells_itself(a.year, b.year);
    filled_tells_itself(a.month as nat, b.month as nat, 2, 100);
    filled_tells_itself(a.day as nat, b.day as nat, 2, 100);
    filled_tells_itself((t % 86400 / 3600) as nat, (u % 86400 / 3600) as nat, 2, 100);
    filled_tells_itself((t % 86400 / 60 % 60) as nat, (u % 86400 / 60 % 60) as nat, 2, 100);
    assert(a == b);
}

proof fn parts_of_a_time(s: Seq<char>, d: Date, second: int)
    requires
        s == minutes_text(d, second),
    ensures
        s.len() >= 12,
        s.take(s.len() - 12) == year_text(d.year),
        s.subrange(s.len() - 11, s.len() - 9) == two(d.month),
        s.subrange(s.len() - 8, s.len() - 6) == two(d.day),
        s.subrange(s.len() - 5, s.len() - 3) == two(second / 3600),
        s.subrange(s.len() - 2, s.len() as int) == two(second / 60 % 60),
{
    filled_is_plain(d.month as nat, 2);
    filled_is_plain(d.day as nat, 2);
    filled_is_plain((second / 3600) as nat, 2);
    filled_is_plain((second / 60 % 60) as nat, 2);
    let n = s.len() as int;
    assert(s.take(n - 12) =~= year_text(d.year));
    assert(s.subrange(n - 11, n - 9) =~= two(d.month));
    assert(s.subrange(n - 8, n - 6) =~= two(d.day));
    assert(s.subrange(n - 5, n - 3) =~= two(second / 3600));
    assert(s.subrange(n - 2, n) =~= two(second / 60 % 60));
}

/// Two times that are written alike, be it in different time zones, are less
/// than two days and a minute apart.
pub proof fn times_written_alike_are_near(s: Seq<char>, ts: i64, other: i64)
    requires
        local_minutes(ts, s),
        local_minutes(other, s),
    ensures
        -172860 < ts - other < 172860,
{
    let t = choose|t: int| ts - 86400 < t < ts + 86400 && #[trigger] says_minutes(s, t);
    let u = choose|u: int| other - 86400 < u < other + 86400 && #[trigger] says_minutes(s, u);
    written_times_tell_the_minute(s, t, u);
}

proof fn filled_is_read_back(n: nat, places: nat, limit: nat)
    requires
        n < limit,
        places == 0 && limit == 1 || places == 1 && limit == 10 || places == 2 && limit == 100
            || places == 3 && limit == 1000 || places == 4 && limit == 10000,
    ensures
        numbers::zero_filled(n, places).len() == places,
        numbers::all_digits(numbers::zero_filled(n, places)),
        numbers::value(numbers::zero_filled(n, places)) == n,
    decreases places,
{
    if places > 0 {
        let p = (places - 1) as nat;
        let s = numbers::zero_filled(n, places);
        let t = numbers::zero_filled(n / 10, p);
        filled_is_read_back(n / 10, p, limit / 10);
        let c = numbers::digit(n % 10);
        assert(s == t.push(c));
        assert(c as u32 == 48 + n % 10);
        assert(s.drop_last() =~= t);
        assert(s.last() == c);
        assert forall|i: int| 0 <= i < s.len() implies numbers::is_digit(#[trigger] s[i]) by {
            if i < t.len() {
                assert(s[i] == t[i]);
            }
        }
    }
}

proof fn part_is_read(s: Seq<char>, lo: int, n: nat, places: nat, limit: nat)
    requires
        0 <= lo,
        lo + places <= s.len(),
        s.subrange(lo, lo + places) == numbers::zero_filled(n, places),
        n < limit,
        places == 2 && limit == 100 || places == 4 && limit == 10000,
    ensures
        digits_at(s, lo, lo + places),
        number_at(s, lo, lo + places) == n,
{
    filled_is_read_back(n, places, limit);
    let t = s.subrange(lo, lo + places);
    assert forall|i: int| lo <= i < lo + places implies numbers::is_digit(#[trigger] s[i]) by {
        assert(numbers::is_digit(t[i - lo]));
        assert(t[i - lo] == s[i]);
    }
}

proof fn date_is_read(s: Seq<char>, d: Date)
    requires
        is_date(d),
        0 <= d.year <= 9999,
        s.len() >= 10,
        s.take(10) == date_text(d),
    ensures
        starts_with_date(s),
        date_at(s) == d,
{
    let t = date_text(d);
    filled_is_plain(d.year as nat, 4);
    filled_is_plain(d.month as nat, 2);
    filled_is_plain(d.day as nat, 2);
    assert(t.len() == 10);
    assert forall|i: int| 0 <= i < 10 implies s[i] == t[i] by {
        assert(s.take(10)[i] == s[i]);
    }
    assert(s.subrange(0, 4) =~= numbers::zero_filled(d.year as nat, 4));
    assert(s.subrange(5, 7) =~= two(d.month));
    assert(s.subrange(8, 10) =~= two(d.day));
    part_is_read(s, 0, d.year as nat, 4, 10000);
    part_is_read(s, 5, d.month as nat, 2, 100);
    part_is_read(s, 8, d.day as nat, 2, 100);
}

proof fn day_number_is_small(d: Date)
    requires
        is_date(d),
        0 <= d.year <= 9999,
    ensures
        -800000 <= day_number(d) <= 4000000,
{
    day_lies_in_its_year(d);
}

/// A written date is read as the start of its day.
pub proof fn dates_are_read_back(d: Date)
    requires
        is_date(d),
        0 <= d.year <= 9999,
    ensures
        is_plain_date(date_text(d)),
        date_start(date_text(d)) == Some((day_number(d) * 86400) as i64),
        (day_number(d) * 86400) as i64 == day_number(d) * 86400,
{
    let s = date_text(d);
    filled_is_plain(d.year as nat, 4);
    filled_is_plain(d.month as nat, 2);
    filled_is_plain(d.day as nat, 2);
    assert(s.take(10) =~= s);
    date_is_read(s, d);
    day_number_is_small(d);
}

/// A day and a second of that day, written as a time stamp in UTC.
pub open spec fn utc_text(d: Date, second: int) -> Seq<char> {
    date_text(d) + seq!['T'] + two(second / 3600) + seq![':'] + two(second / 60 % 60) + seq![':']
        + two(second % 60) + seq!['Z']
}

/// A time stamp in UTC is read as the time that it writes.
pub proof fn utc_stamps_are_read_back(d: Date, second: int)
    requires
        is_date(d),
        0 <= d.year <= 9999,
        0 <= second < 86400,
    ensures
        is_plain_utc(utc_text(d, second)),
        stamp_seconds(utc_text(d, second)) == Some((day_number(d) * 86400 + second) as i64),
        (day_number(d) * 86400 + second) as i64 == day_number(d) * 86400 + second,
{
    let s = utc_text(d, second);
    let hour = second / 3600;
    let minute = second / 60 % 60;
    filled_is_plain(d.year as nat, 4);
    filled_is_plain(d.month as nat, 2);
    filled_is_plain(d.day as nat, 2);
    filled_is_plain(hour as nat, 2);
    filled_is_plain(minute as nat, 2);
    filled_is_plain((second % 60) as nat, 2);
    assert(s.len() == 20);
    assert(s.take(10) =~= date_text(d));
    date_is_read(s, d);
    assert(s.subrange(11, 13) =~= two(hour));
    assert(s.subrange(14, 16) =~= two(minute));
    assert(s.subrange(17, 19) =~= two(second % 60));
    part_is_read(s, 11, hour as nat, 2, 100);
    part_is_read(s, 14, minute as nat, 2, 100);
    part_is_read(s, 17, (second % 60) as nat, 2, 100);
    day_number_is_small(d);
    assert(hour * 3600 + minute * 60 + second % 60 == second);
}

} // verus!
