//! Days and dates of the Gregorian calendar, and dates as text.

use vstd::prelude::*;

use crate::form::{lemma_pieces_add, lemma_pieces_whole};
use crate::number::{law_number_reads_back, padded, parse_integer, parsed_i64, push_padded};
use crate::refusal::{Reason, Refusal};
use crate::text::{
    chars_of, lemma_pieces_lack, pieces, split_at_chars, string_of, texts, trim, trimmed, Separator,
};
use vstd::slice::slice_subrange;

verus! {

// ---- the calendar ----

pub open spec fn is_leap(y: int) -> bool {
    y % 4 == 0 && (y % 100 != 0 || y % 400 == 0)
}

pub open spec fn days_in_month(y: int, m: int) -> int {
    if m == 2 {
        if is_leap(y) {
            29
        } else {
            28
        }
    } else if m == 4 || m == 6 || m == 9 || m == 11 {
        30
    } else {
        31
    }
}

/// The days of the year `y` before its month `m`.
pub open spec fn days_before_month(y: int, m: int) -> int
    decreases m,
{
    if m <= 1 {
        0
    } else {
        days_before_month(y, m - 1) + days_in_month(y, m - 1)
    }
}

/// The days from the first day of the year 1 to the first day of the year `y`: every year has
/// 365, and every fourth one more, but for the centuries that 400 does not divide.
pub open spec fn days_before_year(y: int) -> int {
    365 * (y - 1) + (y - 1) / 4 - (y - 1) / 100 + (y - 1) / 400
}

/// The number of the day `d` of the month `m` of the year `y`; the first of January 1970 is day 0.
pub open spec fn day_number(y: int, m: int, d: int) -> int {
    days_before_year(y) + days_before_month(y, m) + d - 1 - 719_162
}

/// Whether `y`, `m` and `d` are a date of the calendar.
pub open spec fn is_date(y: int, m: int, d: int) -> bool {
    1 <= m <= 12 && 1 <= d <= days_in_month(y, m)
}

/// The years up to `y` hold one leap year more than the years before it exactly if `y` is one.
proof fn lemma_leap_count(y: int)
    ensures
        y / 4 - y / 100 + y / 400 - ((y - 1) / 4 - (y - 1) / 100 + (y - 1) / 400) == if is_leap(
            y,
        ) {
            1int
        } else {
            0int
        },
{
    assert((y - 1) / 4 == y / 4 - if y % 4 == 0 {
        1int
    } else {
        0int
    });
    assert((y - 1) / 100 == y / 100 - if y % 100 == 0 {
        1int
    } else {
        0int
    });
    assert((y - 1) / 400 == y / 400 - if y % 400 == 0 {
        1int
    } else {
        0int
    });
    assert(y % 400 == 0 ==> y % 100 == 0);
    assert(y % 100 == 0 ==> y % 4 == 0);
}

/// A year has 365 days, a leap year 366.
pub proof fn law_year_length(y: int)
    ensures
        days_before_year(y + 1) - days_before_year(y) == if is_leap(y) {
            366int
        } else {
            365int
        },
        days_before_year(y + 1) == days_before_year(y) + days_before_month(y, 13),
{
    lemma_leap_count(y);
    lemma_month_table(y, 12);
    assert(days_before_month(y, 13) == days_before_month(y, 12) + days_in_month(y, 12));
}

pub proof fn lemma_month_table(y: int, m: int)
    requires
        1 <= m <= 12,
    ensures
        days_before_month(y, m) == {
            let leap = if is_leap(y) {
                1int
            } else {
                0int
            };
            if m == 1 {
                0
            } else if m == 2 {
                31
            } else {
                59 + leap + (153 * (m - 3) + 2) / 5
            }
        },
    decreases m,
{
    reveal_with_fuel(days_before_month, 3);
    if m > 3 {
        lemma_month_table(y, m - 1);
    }
}

/// The days from the first of March of the year 0 to the first of March of the year `y`.
spec fn march_days(y: int) -> int {
    365 * y + y / 4 - y / 100 + y / 400
}

/// A day counted from the first of March: January and February belong to the year before.
proof fn lemma_from_march(y: int, m: int, d: int)
    ensures
        2 < m <= 12 ==> day_number(y, m, d) == march_days(y) + (153 * (m - 3) + 2) / 5 + d - 1
            - 719_468,
        1 <= m <= 2 ==> day_number(y, m, d) == march_days(y - 1) + (153 * (m + 9) + 2) / 5 + d - 1
            - 719_468,
{
    lemma_leap_count(y);
    assert(days_before_year(y) == march_days(y - 1));
    if 1 <= m <= 12 {
        lemma_month_table(y, m);
    }
}

/// Four hundred years have the same days wherever they start.
proof fn lemma_eras(y: int)
    ensures
        march_days(y) == (y / 400) * 146_097 + march_days(y % 400),
        march_days(y % 400) == (y % 400) * 365 + (y % 400) / 4 - (y % 400) / 100,
{
    let era = y / 400;
    let yoe = y % 400;
    assert(y == era * 400 + yoe);
    assert(y / 4 == era * 100 + yoe / 4);
    assert(y / 100 == era * 4 + yoe / 100);
}

/// The number of the given day, in as many bits as it may need.
fn wide_day_number(y: i64, m: i64, d: i64) -> (days: i128)
    requires
        1 <= m <= 12,
        1 <= d <= 31,
    ensures
        days == day_number(y as int, m as int, d as int),
{
    proof {
        lemma_from_march(y as int, m as int, d as int);
        lemma_eras(y as int);
        lemma_eras(y - 1);
    }
    let y: i128 = if m <= 2 {
        y as i128 - 1
    } else {
        y as i128
    };
    let era: i128 = if y >= 0 {
        y / 400
    } else {
        (y - 399) / 400
    };
    assert(era == (y as int) / 400);
    let yoe: i128 = y - era * 400;
    assert(yoe == (y as int) % 400);
    let mp: i128 = if m > 2 {
        m as i128 - 3
    } else {
        m as i128 + 9
    };
    let doy: i128 = (153 * mp + 2) / 5 + d as i128 - 1;
    let doe: i128 = yoe * 365 + yoe / 4 - yoe / 100 + doy;
    era * 146_097 + doe - 719_468
}

/// Whether the number of a day, also counted from the first of March of the year 0, fits in 64
/// bits.
pub open spec fn day_fits(days: int) -> bool {
    i64::MIN <= days && days + 719_468 <= i64::MAX
}

/// The number of the given day.
pub fn days_from_civil(y: i64, m: i64, d: i64) -> (days: i64)
    requires
        1 <= m <= 12,
        1 <= d <= 31,
        day_fits(day_number(y as int, m as int, d as int)),
    ensures
        days == day_number(y as int, m as int, d as int),
{
    wide_day_number(y, m, d) as i64
}

/// The year, counted from March, to which a day of a four hundred year era belongs.
#[verifier::spinoff_prover]
proof fn lemma_year_of_era(doe: int, yoe: int)
    requires
        0 <= doe <= 146_096,
        yoe == (doe - doe / 1460 + doe / 36_524 - doe / 146_096) / 365,
    ensures
        0 <= yoe <= 399,
        march_days(yoe) <= doe,
        yoe < 399 ==> doe < march_days(yoe + 1),
{
}

/// A year from March to March has 365 days, and one more when the February in it is longer.
#[verifier::spinoff_prover]
proof fn lemma_day_of_year(era: int, yoe: int, doe: int)
    requires
        0 <= doe <= 146_096,
        0 <= yoe <= 399,
        march_days(yoe) <= doe,
        yoe < 399 ==> doe < march_days(yoe + 1),
    ensures
        0 <= doe - march_days(yoe) <= 365,
        doe - march_days(yoe) == 365 ==> is_leap(yoe + era * 400 + 1),
{
    assert(is_leap(yoe + era * 400 + 1) == is_leap(yoe + 1)) by {
        let y = yoe + 1;
        assert((y + era * 400) % 4 == y % 4);
        assert((y + era * 400) % 100 == y % 100);
        assert((y + era * 400) % 400 == y % 400);
    }
    lemma_leap_count(yoe + 1);
}

/// The month, counted from March, and the day of the month of a day of the year.
#[verifier::spinoff_prover]
proof fn lemma_month_of_year(y: int, doy: int, mp: int, d: int)
    requires
        0 <= doy <= 365,
        doy == 365 ==> is_leap(y + 1),
        mp == (5 * doy + 2) / 153,
        d == doy - (153 * mp + 2) / 5 + 1,
    ensures
        0 <= mp <= 11,
        mp < 10 ==> is_date(y, mp + 3, d),
        mp >= 10 ==> is_date(y + 1, mp - 9, d),
{
}

/// The date of the day with the given number.
pub open spec fn date_of(z: int) -> (int, int, int) {
    choose|date: (int, int, int)| #[trigger]
        is_date(date.0, date.1, date.2) && day_number(date.0, date.1, date.2) == z
}

proof fn lemma_later_year(y1: int, y2: int)
    requires
        y1 < y2,
    ensures
        days_before_year(y1 + 1) <= days_before_year(y2),
{
    let a = y1;
    let b = y2 - 1;
    assert(a / 4 <= b / 4);
    assert(a / 400 <= b / 400);
    assert(365 * a - a / 100 <= 365 * b - b / 100);
}

proof fn lemma_within_year(y: int, m: int, d: int)
    requires
        is_date(y, m, d),
    ensures
        days_before_year(y) <= day_number(y, m, d) + 719_162 < days_before_year(y + 1),
{
    law_year_length(y);
    lemma_month_table(y, m);
}

/// The year of a day from 1970 on, within what 64 bits can count, fits in 64 bits.
pub proof fn lemma_date_bounds(y: int, m: int, d: int)
    requires
        is_date(y, m, d),
        0 <= day_number(y, m, d) <= i64::MAX - 719_468,
    ensures
        1970 <= y <= i64::MAX,
{
    lemma_within_year(y, m, d);
}

/// Two dates with the same number are one date.
pub proof fn law_one_date_per_day(y1: int, m1: int, d1: int, y2: int, m2: int, d2: int)
    requires
        is_date(y1, m1, d1),
        is_date(y2, m2, d2),
        day_number(y1, m1, d1) == day_number(y2, m2, d2),
    ensures
        y1 == y2,
        m1 == m2,
        d1 == d2,
{
    lemma_within_year(y1, m1, d1);
    lemma_within_year(y2, m2, d2);
    if y1 < y2 {
        lemma_later_year(y1, y2);
    } else if y2 < y1 {
        lemma_later_year(y2, y1);
    }
    lemma_month_table(y1, m1);
    lemma_month_table(y2, m2);
}

/// Every day has a date: taking the date of a day and then its number gives the day back, and
/// taking the number of a date and then its date gives the date back.
pub proof fn law_dates_round_trip(z: int, y: int, m: int, d: int)
    ensures
        is_date(date_of(z).0, date_of(z).1, date_of(z).2),
        day_number(date_of(z).0, date_of(z).1, date_of(z).2) == z,
        is_date(y, m, d) ==> date_of(day_number(y, m, d)) == (y, m, d),
{
    let w = z + 719_468;
    let era = w / 146_097;
    let doe = w - era * 146_097;
    let yoe = (doe - doe / 1460 + doe / 36_524 - doe / 146_096) / 365;
    lemma_year_of_era(doe, yoe);
    lemma_day_of_year(era, yoe, doe);
    let year = yoe + era * 400;
    let doy = doe - march_days(yoe);
    let mp = (5 * doy + 2) / 153;
    let day = doy - (153 * mp + 2) / 5 + 1;
    lemma_month_of_year(year, doy, mp, day);
    lemma_eras(year);
    assert(year / 400 == era && year % 400 == yoe);
    lemma_from_march(year, mp + 3, day);
    lemma_from_march(year + 1, mp - 9, day);
    let date = if mp < 10 {
        (year, mp + 3, day)
    } else {
        (year + 1, mp - 9, day)
    };
    assert(is_date(date.0, date.1, date.2) && day_number(date.0, date.1, date.2) == z);
    if is_date(y, m, d) {
        let back = date_of(day_number(y, m, d));
        assert(is_date((y, m, d).0, (y, m, d).1, (y, m, d).2));
        law_one_date_per_day(back.0, back.1, back.2, y, m, d);
    }
}

/// The date of the day with the given number, as year, month and day of the month.
pub fn civil_from_days(z: i64) -> (date: (i64, i64, i64))
    requires
        z <= i64::MAX - 719_468,
    ensures
        (date.0 as int, date.1 as int, date.2 as int) == date_of(z as int),
        is_date(date.0 as int, date.1 as int, date.2 as int),
        day_number(date.0 as int, date.1 as int, date.2 as int) == z,
{
    let ghost day = z as int;
    let z = z + 719_468;
    let era = if z >= 0 {
        z / 146_097
    } else {
        (z - 146_096) / 146_097
    };
    assert(era == (z as int) / 146_097);
    let doe = z - era * 146_097;
    assert(0 <= doe <= 146_096);
    let yoe = (doe - doe / 1460 + doe / 36_524 - doe / 146_096) / 365;
    proof {
        lemma_year_of_era(doe as int, yoe as int);
        lemma_day_of_year(era as int, yoe as int, doe as int);
    }
    assert(march_days(yoe as int) == 365 * yoe + yoe as int / 4 - yoe as int / 100);
    let y = yoe + era * 400;
    let doy = doe - (365 * yoe + yoe / 4 - yoe / 100);
    let mp = (5 * doy + 2) / 153;
    let d = doy - (153 * mp + 2) / 5 + 1;
    proof {
        lemma_month_of_year(y as int, doy as int, mp as int, d as int);
        lemma_eras(y as int);
        assert((y as int) / 400 == era && (y as int) % 400 == yoe);
        lemma_from_march(y as int, mp + 3, d as int);
        lemma_from_march(y + 1, mp - 9, d as int);
    }
    let m = if mp < 10 {
        mp + 3
    } else {
        mp - 9
    };
    let year = if m <= 2 {
        y + 1
    } else {
        y
    };
    proof {
        law_dates_round_trip(day, year as int, m as int, d as int);
    }
    (year, m, d)
}

// ---- dates as text ----

/// A date as `YYYY-MM-DD`.
pub open spec fn date_text(date: (int, int, int)) -> Seq<char> {
    padded(date.0 as nat, 4) + "-"@ + padded(date.1 as nat, 2) + "-"@ + padded(date.2 as nat, 2)
}

/// The date of a day, as text.
pub fn date_string(days: i64) -> (s: String)
    requires
        0 <= days <= i64::MAX - 719_468,
    ensures
        s@ == date_text(date_of(days as int)),
{
    let (y, m, d) = civil_from_days(days);
    proof {
        lemma_within_year(y as int, m as int, d as int);
    }
    assert(y >= 1970);
    let mut s = String::new();
    push_padded(&mut s, y as u64, 4);
    s.append("-");
    push_padded(&mut s, m as u64, 2);
    s.append("-");
    push_padded(&mut s, d as u64, 2);
    assert(s@ =~= date_text(date_of(days as int)));
    s
}

/// The integers among the parts, in order.
pub open spec fn integers_in(parts: Seq<Seq<char>>) -> Seq<int>
    decreases parts.len(),
{
    if parts.len() == 0 {
        Seq::empty()
    } else {
        let before = integers_in(parts.drop_last());
        match parsed_i64(parts.last()) {
            Some(n) => before.push(n),
            None => before,
        }
    }
}

/// The day that a date stands for. The first of January 1970 stands in for what is no date.
pub open spec fn day_of_text(s: Seq<char>) -> int {
    let n = integers_in(pieces(s, Separator::Is('-')));
    if n.len() == 3 && 1 <= n[1] <= 12 && 1 <= n[2] <= 31 {
        day_number(n[0], n[1], n[2])
    } else {
        0
    }
}

fn integers(parts: &[String]) -> (list: Vec<i64>)
    ensures
        list@.map_values(|n: i64| n as int) == integers_in(texts(parts@)),
{
    let mut list: Vec<i64> = Vec::new();
    let ghost as_int = |n: i64| n as int;
    assert(list@.map_values(as_int) =~= Seq::<int>::empty());
    for i in 0..parts.len()
        invariant
            list@.map_values(as_int) == integers_in(texts(parts@).take(i as int)),
            as_int == (|n: i64| n as int),
    {
        assert(texts(parts@).take(i + 1).drop_last() =~= texts(parts@).take(i as int));
        let ghost before = list@;
        if let Some(n) = parse_integer(&parts[i]) {
            list.push(n);
            assert(list@.map_values(as_int) =~= before.map_values(as_int).push(n as int));
        }
    }
    assert(texts(parts@).take(parts@.len() as int) =~= texts(parts@));
    list
}

/// Whether the day that a date stands for can be computed in 64 bits.
pub fn date_fits(s: &str) -> (fits: bool)
    ensures
        fits == day_fits(day_of_text(s@)),
{
    let n = integers(&split_at_chars(s, &Separator::Is('-')));
    let ghost m = n@.map_values(|n: i64| n as int);
    if n.len() == 3 {
        assert(m[0] == n@[0] && m[1] == n@[1] && m[2] == n@[2]);
        if 1 <= n[1] && n[1] <= 12 && 1 <= n[2] && n[2] <= 31 {
            let days = wide_day_number(n[0], n[1], n[2]);
            return -9_223_372_036_854_775_808 <= days && days
                <= 9_223_372_036_854_775_807 - 719_468;
        }
    }
    true
}

/// The number of the day that a date stands for. What is no date counts as day 0, long ago.
pub fn days_from_ymd(s: &str) -> (days: i64)
    requires
        day_fits(day_of_text(s@)),
    ensures
        days == day_of_text(s@),
{
    let n = integers(&split_at_chars(s, &Separator::Is('-')));
    let ghost m = n@.map_values(|n: i64| n as int);
    if n.len() == 3 {
        assert(m[0] == n@[0] && m[1] == n@[1] && m[2] == n@[2]);
        if 1 <= n[1] && n[1] <= 12 && 1 <= n[2] && n[2] <= 31 {
            return days_from_civil(n[0], n[1], n[2]);
        }
    }
    0
}

proof fn lemma_integers_natural(parts: Seq<Seq<char>>)
    requires
        forall|i: int, j: int|
            0 <= i < parts.len() && 0 <= j < parts[i].len() ==> #[trigger] parts[i][j] != '-',
    ensures
        forall|k: int| 0 <= k < integers_in(parts).len() ==> #[trigger] integers_in(parts)[k] >= 0,
    decreases parts.len(),
{
    if parts.len() > 0 {
        let before = parts.drop_last();
        assert forall|i: int, j: int|
            0 <= i < before.len() && 0 <= j < before[i].len() implies #[trigger] before[i][j]
            != '-' by {
            assert(before[i] == parts[i]);
            assert(parts[i][j] != '-');
        }
        lemma_integers_natural(before);
        let last = parts[parts.len() - 1];
        if last.len() > 0 {
            assert(parts[parts.len() - 1][0] != '-');
        }
        match parsed_i64(last) {
            Some(n) => {
                assert(n >= 0);
                assert(integers_in(parts) =~= integers_in(before).push(n));
            },
            None => {},
        }
    }
}

/// No date is before the year 0: a dash separates and is no sign.
pub proof fn lemma_text_day_bound(s: Seq<char>)
    ensures
        day_of_text(s) >= -719_528,
{
    let parts = pieces(s, Separator::Is('-'));
    assert forall|i: int, j: int|
        0 <= i < parts.len() && 0 <= j < parts[i].len() implies #[trigger] parts[i][j] != '-' by {
        lemma_pieces_lack(s, Separator::Is('-'), i, j);
    }
    lemma_integers_natural(parts);
    let n = integers_in(parts);
    if n.len() == 3 && 1 <= n[1] <= 12 && 1 <= n[2] <= 31 {
        assert(n[0] >= 0);
        lemma_month_table(n[0], n[1]);
        if n[0] > 0 {
            lemma_later_year(0, n[0]);
        }
    }
}

/// `s` without the `d`s at its end.
pub open spec fn without_days_unit(s: Seq<char>) -> Seq<char>
    decreases s.len(),
{
    if s.len() > 0 && s.last() == 'd' {
        without_days_unit(s.drop_last())
    } else {
        s
    }
}

/// The number of days that a text such as `30d` names.
pub open spec fn days_named(s: Seq<char>) -> Result<int, Reason> {
    match parsed_i64(without_days_unit(trimmed(s))) {
        Some(n) => if n >= 0 {
            Ok(n)
        } else {
            Err(Reason::BadStale { value: s })
        },
        None => Err(Reason::BadStale { value: s }),
    }
}

/// Reads a number of days, such as `30d` or `30`.
pub fn parse_days(s: &str) -> (days: Result<i64, Refusal>)
    ensures
        match days {
            Ok(n) => days_named(s@) == Ok::<int, Reason>(n as int),
            Err(e) => days_named(s@) == Err::<int, Reason>(e@),
        },
{
    let t = trim(s);
    let chars = chars_of(&t);
    let mut to: usize = chars.len();
    assert(chars@.take(to as int) =~= chars@);
    while to > 0 && chars[to - 1] == 'd'
        invariant
            to <= chars@.len(),
            without_days_unit(chars@) == without_days_unit(chars@.take(to as int)),
        decreases to,
    {
        assert(chars@.take(to as int).drop_last() =~= chars@.take(to - 1));
        to = to - 1;
    }
    assert(chars@.subrange(0, to as int) =~= chars@.take(to as int));
    let digits = string_of(slice_subrange(chars.as_slice(), 0, to));
    match parse_integer(&digits) {
        Some(n) if n >= 0 => Ok(n),
        _ => Err(Refusal::BadStale { value: s.to_owned() }),
    }
}

/// The date of a day, written as text and read again, gives the day back.
pub proof fn law_date_text_reads_back(z: int)
    requires
        0 <= z <= i64::MAX - 719_468,
    ensures
        day_of_text(date_text(date_of(z))) == z,
{
    reveal_strlit("-");
    law_dates_round_trip(z, 0, 0, 0);
    let (y, m, d) = date_of(z);
    lemma_date_bounds(y, m, d);
    let a = padded(y as nat, 4);
    let b = padded(m as nat, 2);
    let c = padded(d as nat, 2);
    law_number_reads_back(y as nat, 4);
    law_number_reads_back(m as nat, 2);
    law_number_reads_back(d as nat, 2);
    let sep = Separator::Is('-');
    lemma_pieces_whole(a, sep);
    lemma_pieces_whole(b, sep);
    lemma_pieces_whole(c, sep);
    lemma_pieces_add(b, '-', c, sep);
    lemma_pieces_add(a, '-', b.push('-') + c, sep);
    let s = date_text((y, m, d));
    assert(s =~= a.push('-') + (b.push('-') + c));
    let parts = seq![a, b, c];
    assert(pieces(s, sep) =~= parts);
    assert(parts.drop_last() =~= seq![a, b]);
    assert(seq![a, b].drop_last() =~= seq![a]);
    assert(seq![a].drop_last() =~= Seq::<Seq<char>>::empty());
    assert(integers_in(seq![a].drop_last()) =~= Seq::<int>::empty());
    assert(integers_in(seq![a]) =~= seq![y]);
    assert(integers_in(seq![a, b]) =~= seq![y, m]);
    assert(integers_in(parts) =~= seq![y, m, d]);
}

} // verus!
