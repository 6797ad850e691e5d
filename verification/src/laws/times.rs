//! Points in time as text.

use crate::timestamp::{
    date_time_text, days_before_month, days_before_year, days_in_month, epoch_day,
    format_unix_timestamp, is_date, law_every_second_has_a_text, shows_second, timestamp_text,
};
use crate::text::zero_padded;
use vstd::prelude::*;

verus! {

proof fn lemma_day_of_year(year: int, month: int)
    requires
        1 <= month <= 12,
    ensures
        ({
            let leap = year % 4 == 0 && (year % 100 != 0 || year % 400 == 0);
            let offset: int = if month == 1 {
                0
            } else if month == 2 {
                31
            } else if month == 3 {
                59
            } else if month == 4 {
                90
            } else if month == 5 {
                120
            } else if month == 6 {
                151
            } else if month == 7 {
                181
            } else if month == 8 {
                212
            } else if month == 9 {
                243
            } else if month == 10 {
                273
            } else if month == 11 {
                304
            } else {
                334
            };
            days_before_month(year, month) == offset + (if leap && month > 2 {
                1int
            } else {
                0
            })
        }),
{
    reveal_with_fuel(days_before_month, 13);
}

/// A second in range is shown as its date in the Gregorian calendar and its time of
/// day, in UTC: the date is the one whose distance in days from the first day of
/// 1970 the second has. Any other second is shown as the epoch.
pub proof fn law_format_unix_timestamp(ts: i64, text: String)
    requires
        call_ensures(format_unix_timestamp, (ts,), text),
    ensures
        !(-377705023201 <= ts <= 253402207200) ==> text@ == "1970-01-01 00:00:00 UTC"@,
        -377705023201 <= ts <= 253402207200 ==> exists|year: int, month: int, day: int|
            {
                let second = ts as int % 86400;
                let leap = year % 4 == 0 && (year % 100 != 0 || year % 400 == 0);
                let offset: int = if month == 1 {
                    0
                } else if month == 2 {
                    31
                } else if month == 3 {
                    59
                } else if month == 4 {
                    90
                } else if month == 5 {
                    120
                } else if month == 6 {
                    151
                } else if month == 7 {
                    181
                } else if month == 8 {
                    212
                } else if month == 9 {
                    243
                } else if month == 10 {
                    273
                } else if month == 11 {
                    304
                } else {
                    334
                };
                &&& #[trigger] is_date(year, month, day)
                &&& 1 <= month <= 12
                &&& 1 <= day <= 31
                &&& month == 4 || month == 6 || month == 9 || month == 11 ==> day <= 30
                &&& month == 2 ==> day <= 28 || (leap && day == 29)
                &&& ts as int / 86400 == 365 * (year - 1970) + ((year - 1) / 4 - (year - 1) / 100
                    + (year - 1) / 400 - 477) + offset + (if leap && month > 2 {
                    1int
                } else {
                    0
                }) + day - 1
                &&& text@ == (if year >= 0 {
                    zero_padded(year as nat, 4)
                } else {
                    seq!['-'] + zero_padded(-year as nat, 3)
                }) + "-"@ + zero_padded(month as nat, 2) + "-"@ + zero_padded(day as nat, 2)
                    + " "@ + zero_padded((second / 3600) as nat, 2) + ":"@ + zero_padded(
                    (second / 60 % 60) as nat,
                    2,
                ) + ":"@ + zero_padded((second % 60) as nat, 2) + " UTC"@
            },
{
    if -377705023201 <= ts <= 253402207200 {
        law_every_second_has_a_text(ts as int);
        assert(shows_second(timestamp_text(ts), ts as int));
        let (year, month, day) = choose|y: int, m: int, d: int|
            {
                &&& is_date(y, m, d)
                &&& epoch_day(y, m, d) == ts as int / 86400
                &&& timestamp_text(ts) == #[trigger] date_time_text(y, m, d, ts as int % 86400)
            };
        lemma_day_of_year(year, month);
        assert(days_before_year(1970) == 365 * 1969 + 477);
        assert(days_before_year(year) == 365 * (year - 1) + (year - 1) / 4 - (year - 1) / 100 + (
        year - 1) / 400);
        assert(day <= days_in_month(year, month));
        assert(is_date(year, month, day));
    }
}

} // verus!
