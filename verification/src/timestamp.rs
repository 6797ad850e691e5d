//! Points in time as text.

use crate::text::{digits, is_digit, lemma_padded_shows, zero_padded};
use vstd::prelude::*;

verus! {

/// How a point in time is shown.
pub open spec fn timestamp_format() -> Seq<char> {
    "%Y-%m-%d %H:%M:%S UTC"@
}

/// The earliest and the latest second that can be shown.
pub const MIN_SECOND: i64 = -377705023201;

pub const MAX_SECOND: i64 = 253402207200;

/// Whether `year` has a leap day.
pub open spec fn is_leap_year(year: int) -> bool {
    year % 4 == 0 && (year % 100 != 0 || year % 400 == 0)
}

/// Days in a month of the Gregorian calendar.
pub open spec fn days_in_month(year: int, month: int) -> int {
    if month == 2 {
        if is_leap_year(year) {
            29
        } else {
            28
        }
    } else if month == 4 || month == 6 || month == 9 || month == 11 {
        30
    } else {
        31
    }
}

/// Whether the Gregorian calendar has the date.
pub open spec fn is_date(year: int, month: int, day: int) -> bool {
    1 <= month <= 12 && 1 <= day <= days_in_month(year, month)
}

/// Days from the first day of the year 1 to the first day of `year`.
pub open spec fn days_before_year(year: int) -> int {
    365 * (year - 1) + (year - 1) / 4 - (year - 1) / 100 + (year - 1) / 400
}

/// Days from the first day of `year` to the first day of `month`.
pub open spec fn days_before_month(year: int, month: int) -> int
    decreases month,
{
    if month <= 1 {
        0
    } else {
        days_before_month(year, month - 1) + days_in_month(year, month - 1)
    }
}

/// Days from the first day of 1970 to the date.
pub open spec fn epoch_day(year: int, month: int, day: int) -> int {
    days_before_year(year) - days_before_year(1970) + days_before_month(year, month) + day - 1
}

/// A year in four places: digits, or a minus sign and digits.
pub open spec fn year_text(year: int) -> Seq<char> {
    if year >= 0 {
        zero_padded(year as nat, 4)
    } else {
        seq!['-'] + zero_padded(-year as nat, 3)
    }
}

/// A date and the second of its day as text.
pub open spec fn date_time_text(year: int, month: int, day: int, second: int) -> Seq<char> {
    year_text(year) + "-"@ + zero_padded(month as nat, 2) + "-"@ + zero_padded(day as nat, 2)
        + " "@ + zero_padded((second / 3600) as nat, 2) + ":"@ + zero_padded(
        (second / 60 % 60) as nat,
        2,
    ) + ":"@ + zero_padded((second % 60) as nat, 2) + " UTC"@
}

/// Whether `text` shows the date and time, in UTC, of the second that lies
/// `second` seconds after the Unix epoch.
pub open spec fn shows_second(text: Seq<char>, second: int) -> bool {
    exists|year: int, month: int, day: int|
        {
            &&& is_date(year, month, day)
            &&& epoch_day(year, month, day) == second / 86400
            &&& text == #[trigger] date_time_text(year, month, day, second % 86400)
        }
}

/// The text that shows the second, of which there is one.
pub open spec fn second_text(second: int) -> Seq<char> {
    choose|text: Seq<char>| shows_second(text, second)
}

/// `jiff::Timestamp::from_second`, and `jiff::Timestamp::strftime` on the
/// timestamp that it gives. There is a timestamp exactly for the seconds from
/// `MIN_SECOND` to `MAX_SECOND`. With the format that this module uses, the text
/// shows the date in the Gregorian calendar and the time of day, in UTC.
#[verifier::external_body]
fn strftime(second: i64, format: &str) -> (r: Option<String>)
    requires
        format@ == timestamp_format(),
    ensures
        r is Some <==> MIN_SECOND <= second <= MAX_SECOND,
        r matches Some(text) ==> shows_second(text@, second as int),
{
    let timestamp = jiff::Timestamp::from_second(second).ok()?;
    Some(timestamp.strftime(format).to_string())
}

/// What is shown for a point in time: the epoch where it is out of range.
pub open spec fn timestamp_text(ts: i64) -> Seq<char> {
    if MIN_SECOND <= ts <= MAX_SECOND {
        second_text(ts as int)
    } else {
        "1970-01-01 00:00:00 UTC"@
    }
}

/// Shows the second that lies `ts` seconds after the Unix epoch, in UTC, and
/// the epoch itself where that second is out of range.
pub fn format_unix_timestamp(ts: i64) -> (text: String)
    ensures
        text@ == timestamp_text(ts),
{
    match strftime(ts, "%Y-%m-%d %H:%M:%S UTC") {
        Some(text) => {
            proof {
                law_every_second_has_a_text(ts as int);
                law_second_has_one_text(ts as int, text@, second_text(ts as int));
            }
            text
        },
        None => "1970-01-01 00:00:00 UTC".to_owned(),
    }
}

/// The text for a point in time that is out of range is that of the epoch.
pub proof fn law_epoch_text()
    ensures
        shows_second("1970-01-01 00:00:00 UTC"@, 0),
{
    reveal_strlit("1970-01-01 00:00:00 UTC");
    reveal_strlit("-");
    reveal_strlit(" ");
    reveal_strlit(":");
    reveal_strlit(" UTC");
    reveal_with_fuel(digits, 5);
    assert(date_time_text(1970, 1, 1, 0int % 86400) =~= "1970-01-01 00:00:00 UTC"@);
    assert(is_date(1970, 1, 1));
    assert(epoch_day(1970, 1, 1) == 0int / 86400);
}

proof fn lemma_day_has_date(n: int) -> (date: (int, int, int))
    ensures
        is_date(date.0, date.1, date.2),
        epoch_day(date.0, date.1, date.2) == n,
    decreases (if n < 0 { -n } else { n }),
{
    reveal_with_fuel(days_before_month, 13);
    if n == 0 {
        (1970, 1, 1)
    } else if n > 0 {
        let (year, month, day) = lemma_day_has_date(n - 1);
        lemma_year_length(year);
        if day < days_in_month(year, month) {
            (year, month, day + 1)
        } else if month < 12 {
            (year, month + 1, 1)
        } else {
            (year + 1, 1, 1)
        }
    } else {
        let (year, month, day) = lemma_day_has_date(n + 1);
        lemma_year_length(year - 1);
        if day > 1 {
            (year, month, day - 1)
        } else if month > 1 {
            (year, month - 1, days_in_month(year, month - 1))
        } else {
            (year - 1, 12, 31)
        }
    }
}

/// Every second is shown by some text.
pub proof fn law_every_second_has_a_text(second: int)
    ensures
        shows_second(second_text(second), second),
{
    let (year, month, day) = lemma_day_has_date(second / 86400);
    assert(shows_second(date_time_text(year, month, day, second % 86400), second));
}

proof fn lemma_quotient_step(n: int, d: int)
    requires
        d == 4 || d == 100 || d == 400,
    ensures
        n / d == (n - 1) / d + (if n % d == 0 {
            1int
        } else {
            0
        }),
{
    if d == 4 {
        assert(n / 4 == (n - 1) / 4 + (if n % 4 == 0 { 1int } else { 0 }));
    } else if d == 100 {
        assert(n / 100 == (n - 1) / 100 + (if n % 100 == 0 { 1int } else { 0 }));
    } else {
        assert(n / 400 == (n - 1) / 400 + (if n % 400 == 0 { 1int } else { 0 }));
    }
}

proof fn lemma_year_length(year: int)
    ensures
        days_before_year(year + 1) == days_before_year(year) + (if is_leap_year(year) {
            366int
        } else {
            365
        }),
{
    lemma_quotient_step(year, 4);
    lemma_quotient_step(year, 100);
    lemma_quotient_step(year, 400);
    let (q4, q100, q400) = ((year - 1) / 4, (year - 1) / 100, (year - 1) / 400);
    assert(days_before_year(year) == 365 * (year - 1) + q4 - q100 + q400);
    assert(days_before_year(year + 1) == 365 * year + year / 4 - year / 100 + year / 400);
    assert(year % 400 == 0 ==> year % 100 == 0);
    assert(year % 100 == 0 ==> year % 4 == 0);
}

proof fn lemma_years_ordered(a: int, b: int)
    requires
        a < b,
    ensures
        days_before_year(a + 1) <= days_before_year(b),
    decreases b - a,
{
    if a + 1 < b {
        lemma_years_ordered(a, b - 1);
        lemma_year_length(b - 1);
    }
}

proof fn lemma_date_within_year(year: int, month: int, day: int)
    requires
        is_date(year, month, day),
    ensures
        days_before_year(year) <= epoch_day(year, month, day) + days_before_year(1970)
            < days_before_year(year + 1),
{
    reveal_with_fuel(days_before_month, 13);
    lemma_year_length(year);
}

proof fn lemma_date_determined(
    year: int,
    month: int,
    day: int,
    other_year: int,
    other_month: int,
    other_day: int,
)
    requires
        is_date(year, month, day),
        is_date(other_year, other_month, other_day),
        epoch_day(year, month, day) == epoch_day(other_year, other_month, other_day),
    ensures
        year == other_year && month == other_month && day == other_day,
{
    lemma_date_within_year(year, month, day);
    lemma_date_within_year(other_year, other_month, other_day);
    if year < other_year {
        lemma_years_ordered(year, other_year);
    } else if other_year < year {
        lemma_years_ordered(other_year, year);
    }
    reveal_with_fuel(days_before_month, 13);
}

/// Whether `c` can stand in the text of a point in time.
pub open spec fn is_timestamp_char(c: char) -> bool {
    is_digit(c) || c == '-' || c == ':' || c == ' ' || c == 'U' || c == 'T' || c == 'C'
}

/// Whether `s` holds nothing but characters of points in time.
#[verifier::opaque]
spec fn is_timestamp_part(s: Seq<char>) -> bool {
    forall|i: int| 0 <= i < s.len() ==> is_timestamp_char(#[trigger] s[i])
}

proof fn lemma_parts_join(a: Seq<char>, b: Seq<char>)
    requires
        is_timestamp_part(a),
        is_timestamp_part(b),
    ensures
        is_timestamp_part(a + b),
{
    reveal(is_timestamp_part);
}

proof fn lemma_padded_is_part(n: nat, width: nat)
    ensures
        is_timestamp_part(zero_padded(n, width)),
{
    reveal(is_timestamp_part);
    lemma_padded_shows(n, width);
    let s = zero_padded(n, width);
    assert forall|i: int| 0 <= i < s.len() implies is_timestamp_char(#[trigger] s[i]) by {
        assert(is_digit(s[i]));
    }
}

proof fn lemma_then_numeral(before: Seq<char>, separator: Seq<char>, n: nat)
    requires
        is_timestamp_part(before),
        is_timestamp_part(separator),
    ensures
        is_timestamp_part(before + separator + zero_padded(n, 2)),
{
    lemma_padded_is_part(n, 2);
    lemma_parts_join(before, separator);
    lemma_parts_join(before + separator, zero_padded(n, 2));
}

proof fn lemma_date_time_is_plain(year: int, month: int, day: int, second: int)
    ensures
        is_timestamp_part(date_time_text(year, month, day, second)),
{
    assert(is_timestamp_part("-"@) && is_timestamp_part(" "@) && is_timestamp_part(":"@)
        && is_timestamp_part(" UTC"@) && is_timestamp_part(seq!['-'])) by {
        reveal(is_timestamp_part);
        reveal_strlit("-");
        reveal_strlit(" ");
        reveal_strlit(":");
        reveal_strlit(" UTC");
    }
    let a = year_text(year);
    if year >= 0 {
        lemma_padded_is_part(year as nat, 4);
    } else {
        lemma_padded_is_part(-year as nat, 3);
        lemma_parts_join(seq!['-'], zero_padded(-year as nat, 3));
    }
    let b = a + "-"@ + zero_padded(month as nat, 2);
    let c = b + "-"@ + zero_padded(day as nat, 2);
    let d = c + " "@ + zero_padded((second / 3600) as nat, 2);
    let e = d + ":"@ + zero_padded((second / 60 % 60) as nat, 2);
    let f = e + ":"@ + zero_padded((second % 60) as nat, 2);
    lemma_then_numeral(a, "-"@, month as nat);
    lemma_then_numeral(b, "-"@, day as nat);
    lemma_then_numeral(c, " "@, (second / 3600) as nat);
    lemma_then_numeral(d, ":"@, (second / 60 % 60) as nat);
    lemma_then_numeral(e, ":"@, (second % 60) as nat);
    lemma_parts_join(f, " UTC"@);
}

/// The text of a point in time is made of digits, dashes, colons, spaces and
/// the letters of `UTC`.
pub proof fn law_timestamp_text_is_plain(ts: i64)
    ensures
        forall|i: int|
            0 <= i < timestamp_text(ts).len() ==> is_timestamp_char(
                #[trigger] timestamp_text(ts)[i],
            ),
{
    let second = if MIN_SECOND <= ts <= MAX_SECOND {
        ts as int
    } else {
        0
    };
    law_epoch_text();
    law_every_second_has_a_text(second);
    assert(shows_second(timestamp_text(ts), second));
    let (y, m, d) = choose|y: int, m: int, d: int|
        {
            &&& is_date(y, m, d)
            &&& epoch_day(y, m, d) == second / 86400
            &&& timestamp_text(ts) == #[trigger] date_time_text(y, m, d, second % 86400)
        };
    lemma_date_time_is_plain(y, m, d, second % 86400);
    reveal(is_timestamp_part);
}

/// A second is shown by one text only.
pub proof fn law_second_has_one_text(second: int, text: Seq<char>, other: Seq<char>)
    requires
        shows_second(text, second),
        shows_second(other, second),
    ensures
        text == other,
{
    let (y, m, d) = choose|y: int, m: int, d: int|
        {
            &&& is_date(y, m, d)
            &&& epoch_day(y, m, d) == second / 86400
            &&& text == #[trigger] date_time_text(y, m, d, second % 86400)
        };
    let (v, w, x) = choose|y: int, m: int, d: int|
        {
            &&& is_date(y, m, d)
            &&& epoch_day(y, m, d) == second / 86400
            &&& other == #[trigger] date_time_text(y, m, d, second % 86400)
        };
    lemma_date_determined(y, m, d, v, w, x);
}

proof fn lemma_padded_length(n: nat, width: nat)
    requires
        n <= 9999,
        2 <= width <= 4,
        width == 2 ==> n <= 99,
    ensures
        zero_padded(n, width).len() <= 4,
        width == 2 ==> zero_padded(n, width).len() == 2,
{
    reveal_with_fuel(digits, 5);
}

proof fn lemma_year_in_range(year: int, month: int, day: int, second: int)
    requires
        is_date(year, month, day),
        epoch_day(year, month, day) == second / 86400,
        MIN_SECOND <= second <= MAX_SECOND,
    ensures
        -9999 <= year <= 9999,
{
    lemma_date_within_year(year, month, day);
    if year > 9999 {
        lemma_years_ordered(9999, year);
    }
    if year < -9999 {
        lemma_years_ordered(year, -9999);
    }
}

/// The text of a point in time has at most 24 characters.
pub proof fn law_timestamp_text_is_short(ts: i64)
    ensures
        timestamp_text(ts).len() <= 24,
{
    let second = if MIN_SECOND <= ts <= MAX_SECOND {
        ts as int
    } else {
        0
    };
    law_epoch_text();
    law_every_second_has_a_text(second);
    let (y, m, d) = choose|y: int, m: int, d: int|
        {
            &&& is_date(y, m, d)
            &&& epoch_day(y, m, d) == second / 86400
            &&& timestamp_text(ts) == #[trigger] date_time_text(y, m, d, second % 86400)
        };
    assert(shows_second(timestamp_text(ts), second));
    lemma_year_in_range(y, m, d, second);
    reveal_strlit("-");
    reveal_strlit(" ");
    reveal_strlit(":");
    reveal_strlit(" UTC");
    let s = second % 86400;
    if y >= 0 {
        lemma_padded_length(y as nat, 4);
    } else {
        lemma_padded_length(-y as nat, 3);
    }
    lemma_padded_length(m as nat, 2);
    lemma_padded_length(d as nat, 2);
    lemma_padded_length((s / 3600) as nat, 2);
    lemma_padded_length((s / 60 % 60) as nat, 2);
    lemma_padded_length((s % 60) as nat, 2);
}

} // verus!
