//! Laws of timestamps: the text and the fields say the same, and seconds and weekdays count the
//! days of the calendar.

use vstd::prelude::*;
use vstd::utf8::encode_utf8;

use crate::datetime::{
    all_digits, day_number, days_before_month, days_before_year, decimal,
    law_day_number_counts_days, law_weekday_follows_day_number, leap, toward_zero, weekday,
    well_shaped, ParseError, Utc,
};

verus! {

/// The byte at a position of the text is an ASCII digit.
pub open spec fn digit_at(b: Seq<u8>, i: int) -> bool {
    48 <= b[i] <= 57
}

/// Twenty bytes, with `-`, `-`, `T`, `:`, `:` and `Z` in their places.
pub open spec fn separated(b: Seq<u8>) -> bool {
    b.len() == 20 && b[4] == 45 && b[7] == 45 && b[10] == 84 && b[13] == 58 && b[16] == 58 && b[19]
        == 90
}

/// The bytes `b` write the timestamp out: `YYYY-MM-DDTHH:MM:SSZ`, with leading zeros.
pub open spec fn spells(b: Seq<u8>, t: Utc) -> bool {
    &&& separated(b)
    &&& t.year <= 9999 && t.month <= 99 && t.day <= 99
    &&& t.hour <= 99 && t.minute <= 99 && t.second <= 99
    &&& b[0] == 48 + t.year / 1000 && b[1] == 48 + t.year / 100 % 10
    &&& b[2] == 48 + t.year / 10 % 10 && b[3] == 48 + t.year % 10
    &&& b[5] == 48 + t.month / 10 && b[6] == 48 + t.month % 10
    &&& b[8] == 48 + t.day / 10 && b[9] == 48 + t.day % 10
    &&& b[11] == 48 + t.hour / 10 && b[12] == 48 + t.hour % 10
    &&& b[14] == 48 + t.minute / 10 && b[15] == 48 + t.minute % 10
    &&& b[17] == 48 + t.second / 10 && b[18] == 48 + t.second % 10
}

proof fn lemma_pair(b: Seq<u8>, at: int, v: int)
    requires
        b.len() == 20,
        0 <= at <= 18,
    ensures
        all_digits(b.subrange(at, at + 2)) <==> digit_at(b, at) && digit_at(b, at + 1),
        all_digits(b.subrange(at, at + 2)) ==> 0 <= decimal(b.subrange(at, at + 2)) <= 99,
        all_digits(b.subrange(at, at + 2)) ==> (v == decimal(b.subrange(at, at + 2)) <==> 0 <= v
            <= 99 && b[at] == 48 + v / 10 && b[at + 1] == 48 + v % 10),
        0 <= v <= 99 && b[at] == 48 + v / 10 && b[at + 1] == 48 + v % 10 ==> all_digits(
            b.subrange(at, at + 2),
        ),
{
    let s = b.subrange(at, at + 2);
    reveal_with_fuel(decimal, 3);
    assert(s[0] == b[at] && s[1] == b[at + 1]);
    assert(decimal(s) == 10 * (b[at] - 48) + (b[at + 1] - 48));
}

proof fn lemma_year(b: Seq<u8>, v: int)
    requires
        b.len() == 20,
    ensures
        all_digits(b.subrange(0, 4)) <==> digit_at(b, 0) && digit_at(b, 1) && digit_at(b, 2)
            && digit_at(b, 3),
        all_digits(b.subrange(0, 4)) ==> 0 <= decimal(b.subrange(0, 4)) <= 9999,
        all_digits(b.subrange(0, 4)) ==> (v == decimal(b.subrange(0, 4)) <==> 0 <= v <= 9999 && b[0]
            == 48 + v / 1000 && b[1] == 48 + v / 100 % 10 && b[2] == 48 + v / 10 % 10 && b[3] == 48
            + v % 10),
        0 <= v <= 9999 && b[0] == 48 + v / 1000 && b[1] == 48 + v / 100 % 10 && b[2] == 48 + v / 10
            % 10 && b[3] == 48 + v % 10 ==> all_digits(b.subrange(0, 4)),
{
    let s = b.subrange(0, 4);
    reveal_with_fuel(decimal, 5);
    assert(s[0] == b[0] && s[1] == b[1] && s[2] == b[2] && s[3] == b[3]);
    assert(s.drop_last().drop_last().drop_last().drop_last() =~= Seq::empty());
    assert(decimal(s) == 1000 * (b[0] - 48) + 100 * (b[1] - 48) + 10 * (b[2] - 48) + (b[3] - 48));
}

/// Parsing gives the timestamp that the text spells, for every timestamp; it gives one for every
/// text with the separators and digits in their places; and the timestamp it gives is the one that
/// the text spells.
pub proof fn law_parse_reads_the_text(s: &str, result: Result<Utc, ParseError>, t: Utc)
    requires
        call_ensures(Utc::parse, (s,), result),
    ensures
        spells(encode_utf8(s@), t) <==> result == Ok::<Utc, ParseError>(t),
        result is Ok <==> separated(encode_utf8(s@)) && (forall|i: int|
            0 <= i < 19 && i != 4 && i != 7 && i != 10 && i != 13 && i != 16 ==> digit_at(
                encode_utf8(s@),
                i,
            )),
{
    let b = encode_utf8(s@);
    assert(well_shaped(b) <==> separated(b));
    if separated(b) {
        lemma_year(b, t.year as int);
        lemma_pair(b, 5, t.month as int);
        lemma_pair(b, 8, t.day as int);
        lemma_pair(b, 11, t.hour as int);
        lemma_pair(b, 14, t.minute as int);
        lemma_pair(b, 17, t.second as int);
        if result is Ok {
            assert forall|i: int|
                0 <= i < 19 && i != 4 && i != 7 && i != 10 && i != 13 && i != 16 implies digit_at(
                b,
                i,
            ) by {}
        }
        if forall|i: int|
            0 <= i < 19 && i != 4 && i != 7 && i != 10 && i != 13 && i != 16 ==> digit_at(b, i) {
            assert(digit_at(b, 0) && digit_at(b, 1) && digit_at(b, 2) && digit_at(b, 3));
            assert(digit_at(b, 5) && digit_at(b, 6) && digit_at(b, 8) && digit_at(b, 9));
            assert(digit_at(b, 11) && digit_at(b, 12) && digit_at(b, 14) && digit_at(b, 15));
            assert(digit_at(b, 17) && digit_at(b, 18));
        }
    }
}

/// A refused text is refused for its shape, or else for the first component that holds something
/// other than digits.
pub proof fn law_parse_names_the_fault(s: &str, result: Result<Utc, ParseError>)
    requires
        call_ensures(Utc::parse, (s,), result),
    ensures
        ({
            let b = encode_utf8(s@);
            let year = digit_at(b, 0) && digit_at(b, 1) && digit_at(b, 2) && digit_at(b, 3);
            let month = digit_at(b, 5) && digit_at(b, 6);
            let day = digit_at(b, 8) && digit_at(b, 9);
            let hour = digit_at(b, 11) && digit_at(b, 12);
            let minute = digit_at(b, 14) && digit_at(b, 15);
            let second = digit_at(b, 17) && digit_at(b, 18);
            &&& !separated(b) <==> result == Err::<Utc, ParseError>(ParseError::Shape)
            &&& separated(b) && !year ==> result == Err::<Utc, ParseError>(
                ParseError::Numeric("year"),
            )
            &&& separated(b) && year && !month ==> result == Err::<Utc, ParseError>(
                ParseError::Numeric("month"),
            )
            &&& separated(b) && year && month && !day ==> result == Err::<Utc, ParseError>(
                ParseError::Numeric("day"),
            )
            &&& separated(b) && year && month && day && !hour ==> result == Err::<Utc, ParseError>(
                ParseError::Numeric("hour"),
            )
            &&& separated(b) && year && month && day && hour && !minute ==> result == Err::<
                Utc,
                ParseError,
            >(ParseError::Numeric("minute"))
            &&& separated(b) && year && month && day && hour && minute && !second ==> result
                == Err::<Utc, ParseError>(ParseError::Numeric("second"))
        }),
{
    let b = encode_utf8(s@);
    assert(well_shaped(b) <==> separated(b));
    if separated(b) {
        lemma_year(b, 0);
        lemma_pair(b, 5, 0);
        lemma_pair(b, 8, 0);
        lemma_pair(b, 11, 0);
        lemma_pair(b, 14, 0);
        lemma_pair(b, 17, 0);
    }
}

/// The calendar: a leap year is a multiple of four that is no century, or a multiple of four
/// hundred; days add up over months and years.
pub proof fn law_calendar(year: int, month: int)
    requires
        0 <= year,
        1 <= month <= 12,
    ensures
        leap(year) <==> year % 400 == 0 || (year % 4 == 0 && year % 100 != 0),
        days_before_year(0) == 0,
        days_before_year(year + 1) - days_before_year(year) == (if leap(year) {
            366int
        } else {
            365
        }),
        days_before_month(year, 1) == 0,
        days_before_month(year, month + 1) - days_before_month(year, month) == (if month == 2 {
            if leap(year) {
                29int
            } else {
                28
            }
        } else if month == 4 || month == 6 || month == 9 || month == 11 {
            30
        } else {
            31
        }),
{
    assert(year % 400 == 0 ==> year % 100 == 0 && year % 4 == 0);
}

/// Seconds count from 1970: days of the calendar, then the time of day. 719528 days lie between
/// the start of year zero and 1970.
pub proof fn law_seconds_count(t: Utc, s: i64)
    requires
        call_ensures(Utc::unix_seconds, (&t,), s),
        t.year <= 0x7FFF_FFFF,
        1 <= t.month <= 12,
        t.day <= 0x7FFF_FFFF,
    ensures
        s == 86_400 * (days_before_year(t.year as int) + days_before_month(
            t.year as int,
            t.month as int,
        ) + t.day - 1 - 719_528) + 3600 * t.hour + 60 * t.minute + t.second,
{
    law_day_number_counts_days(t.year as int, t.month as int, t.day as int);
}

/// Months outside the calendar run on: month zero is as long as December, from March on five
/// months make 153 days, and after the fourteenth month twelve months make a year.
pub proof fn law_seconds_of_odd_months(t: Utc, u: Utc, st: i64, su: i64)
    requires
        call_ensures(Utc::unix_seconds, (&t,), st),
        call_ensures(Utc::unix_seconds, (&u,), su),
        t.year < 0x7FFF_FFFF,
        t.day <= 0x7FFF_FFFF,
        t.month <= 0x7FFF_FF00,
        u.day == t.day && u.hour == t.hour && u.minute == t.minute && u.second == t.second,
    ensures
        u.year == t.year && t.month == 0 && u.month == 1 ==> su - st == 31 * 86_400,
        u.year == t.year && 3 <= t.month <= 20 && u.month == t.month + 5 ==> su - st == 153
            * 86_400,
        u.year == t.year + 1 && 14 <= u.month && t.month == u.month + 12 ==> su == st,
{
    let (y, m, d) = (t.year as int, t.month as int, t.day as int);
    if u.year == t.year && t.month == 0 && u.month == 1 {
        assert(toward_zero(14, 12) == 1 && toward_zero(13, 12) == 1);
        assert(toward_zero(1379, 5) == 275 && toward_zero(1532, 5) == 306);
        assert(day_number(y, 1, d) - day_number(y, 0, d) == 31);
    }
    if u.year == t.year && 3 <= t.month <= 20 && u.month == t.month + 5 {
        assert(toward_zero(14 - m, 12) == 0 && toward_zero(9 - m, 12) == 0);
        assert(toward_zero(153 * (m + 2) + 2, 5) == toward_zero(153 * (m - 3) + 2, 5) + 153);
        assert(day_number(y, m + 5, d) - day_number(y, m, d) == 153);
    }
    if u.year == t.year + 1 && 14 <= u.month && t.month == u.month + 12 {
        let n = u.month as int;
        assert(toward_zero(14 - m, 12) == toward_zero(14 - n, 12) - 1);
        assert(day_number(y, m, d) == day_number(y + 1, n, d));
    }
}

/// The weekday of a calendar date is that of the days counted: 0000-01-01 was a Saturday.
pub proof fn law_weekday_counts(t: Utc, w: u32)
    requires
        call_ensures(Utc::weekday_monday0, (&t,), w),
        1 <= t.month <= 12,
    ensures
        w == (days_before_year(t.year as int) + days_before_month(t.year as int, t.month as int)
            + t.day + 4) % 7,
        w < 7,
{
    lemma_weekday(t.year as int, t.month as int, t.day as int);
}

proof fn lemma_weekday(year: int, month: int, day: int)
    requires
        0 <= year,
        1 <= month <= 12,
    ensures
        weekday(year, month, day) == (days_before_year(year) + days_before_month(year, month) + day
            + 4) % 7,
        0 <= weekday(year, month, day) < 7,
{
    let n = days_before_year(year) + days_before_month(year, month) + day;
    let jdn = day_number(year, month, day);
    assert(jdn == 1_721_059 + n) by {
        law_day_number_counts_days(year, month, day);
    }
    assert(weekday(year, month, day) == jdn % 7) by {
        law_weekday_follows_day_number(year, month, day);
    }
    lemma_week_shift(n);
}

proof fn lemma_week_shift(n: int)
    ensures
        (1_721_059 + n) % 7 == (n + 4) % 7,
        0 <= (n + 4) % 7 < 7,
{
}

/// Months outside the calendar: month zero is the December before, and from March on five months
/// later is six weekdays later.
pub proof fn law_weekday_of_odd_months(t: Utc, u: Utc, wt: u32, wu: u32)
    requires
        call_ensures(Utc::weekday_monday0, (&t,), wt),
        call_ensures(Utc::weekday_monday0, (&u,), wu),
        u.day == t.day,
    ensures
        u.year + 1 == t.year && u.month == 12 && t.month == 0 ==> wu == wt,
        u.year == t.year && 3 <= t.month && u.month == t.month + 5 ==> wu == (wt + 6) % 7,
{
    let (y, m, d) = (t.year as int, t.month as int, t.day as int);
    if u.year == t.year && 3 <= t.month && u.month == t.month + 5 {
        let k = y % 100;
        let j = y / 100;
        assert((13 * (m + 6)) / 5 == (13 * (m + 1)) / 5 + 13);
        let z = d + (13 * (m + 1)) / 5 + k + k / 4 + j / 4 + 5 * j;
        assert(wt == (z % 7 + 5) % 7);
        assert(wu == ((z + 13) % 7 + 5) % 7);
    }
}

} // verus!
