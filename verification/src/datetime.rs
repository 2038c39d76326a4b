//! Timestamps of the form `YYYY-MM-DDTHH:MM:SSZ`: parsing, day numbers and weekdays.

use vstd::prelude::*;
use vstd::string::StringExecFns;
use vstd::utf8::encode_utf8;

verus! {

/// Day number of 1970-01-01.
pub const UNIX_EPOCH_JDN: i64 = 2_440_588;

/// A UTC timestamp, field by field as it was written.
#[derive(Debug, Clone, Copy)]
pub struct Utc {
    pub year: u32,
    pub month: u32,
    pub day: u32,
    pub hour: u32,
    pub minute: u32,
    pub second: u32,
}

/// Why a timestamp was refused.
#[derive(Debug, Clone)]
pub enum ParseError {
    /// The length or a separator is wrong.
    Shape,
    /// The named component holds something other than digits.
    Numeric(&'static str),
}

impl ParseError {
    /// The text of the error.
    pub open spec fn text(self) -> Seq<char> {
        match self {
            ParseError::Shape => "expected 20-byte ISO 8601 timestamp YYYY-MM-DDTHH:MM:SSZ"@,
            ParseError::Numeric(c) => "non-numeric value in "@ + c@,
        }
    }

    /// The text of the error.
    #[must_use]
    pub fn message(&self) -> (text: String)
        ensures
            text@ == self.text(),
    {
        match self {
            ParseError::Shape => {
                "expected 20-byte ISO 8601 timestamp YYYY-MM-DDTHH:MM:SSZ".to_owned()
            },
            ParseError::Numeric(c) => {
                let mut text: String = "non-numeric value in ".to_owned();
                text.append(c);
                text
            },
        }
    }
}

/// All bytes are ASCII digits.
pub open spec fn all_digits(b: Seq<u8>) -> bool {
    forall|i: int| 0 <= i < b.len() ==> 0x30 <= #[trigger] b[i] <= 0x39
}

/// The number that the digits `b` write out.
pub open spec fn decimal(b: Seq<u8>) -> int
    decreases b.len(),
{
    if b.len() == 0 {
        0
    } else {
        10 * decimal(b.drop_last()) + (b.last() - 0x30)
    }
}

/// Twenty bytes with the separators of `YYYY-MM-DDTHH:MM:SSZ` in their places.
pub open spec fn well_shaped(b: Seq<u8>) -> bool {
    &&& b.len() == 20
    &&& b[4] == 0x2D
    &&& b[7] == 0x2D
    &&& b[10] == 0x54
    &&& b[13] == 0x3A
    &&& b[16] == 0x3A
    &&& b[19] == 0x5A
}

/// What parsing the bytes `b` gives: the first component that is not a number decides the error.
pub open spec fn parsed(b: Seq<u8>) -> Result<Utc, ParseError> {
    if !well_shaped(b) {
        Err(ParseError::Shape)
    } else if !all_digits(b.subrange(0, 4)) {
        Err(ParseError::Numeric("year"))
    } else if !all_digits(b.subrange(5, 7)) {
        Err(ParseError::Numeric("month"))
    } else if !all_digits(b.subrange(8, 10)) {
        Err(ParseError::Numeric("day"))
    } else if !all_digits(b.subrange(11, 13)) {
        Err(ParseError::Numeric("hour"))
    } else if !all_digits(b.subrange(14, 16)) {
        Err(ParseError::Numeric("minute"))
    } else if !all_digits(b.subrange(17, 19)) {
        Err(ParseError::Numeric("second"))
    } else {
        Ok(
            Utc {
                year: decimal(b.subrange(0, 4)) as u32,
                month: decimal(b.subrange(5, 7)) as u32,
                day: decimal(b.subrange(8, 10)) as u32,
                hour: decimal(b.subrange(11, 13)) as u32,
                minute: decimal(b.subrange(14, 16)) as u32,
                second: decimal(b.subrange(17, 19)) as u32,
            },
        )
    }
}

/// `a / b` rounded toward zero, for positive `b`.
pub open spec fn toward_zero(a: int, b: int) -> int {
    if a >= 0 {
        a / b
    } else {
        -((-a) / b)
    }
}

/// Julian Day Number of a Gregorian date, by the formula of Fliegel and Van Flandern.
pub open spec fn day_number(year: int, month: int, day: int) -> int {
    let a = toward_zero(14 - month, 12);
    let y = year + 4800 - a;
    let m = month + 12 * a - 3;
    day + toward_zero(153 * m + 2, 5) + 365 * y + toward_zero(y, 4) - toward_zero(y, 100)
        + toward_zero(y, 400) - 32_045
}

/// Weekday by Zeller's congruence, Monday = 0 to Sunday = 6. January and February count as the
/// last months of the year before.
pub open spec fn weekday(year: int, month: int, day: int) -> int {
    let y = if month < 3 {
        year - 1
    } else {
        year
    };
    let m = if month < 3 {
        month + 12
    } else {
        month
    };
    (zeller(day, m, y) + 5) % 7
}

/// Zeller's congruence for a year that begins in March (month 3): Saturday = 0 to Friday = 6.
pub open spec fn zeller(day: int, m: int, y: int) -> int {
    let k = y % 100;
    let j = y / 100;
    (day + (13 * (m + 1)) / 5 + k + k / 4 + j / 4 + 5 * j) % 7
}

impl Utc {
    /// Seconds since 1970-01-01T00:00:00Z. The date fields are read as signed numbers.
    pub open spec fn seconds(self) -> int {
        (day_number(self.year as i32 as int, self.month as i32 as int, self.day as i32 as int)
            - UNIX_EPOCH_JDN) * 86_400 + self.hour * 3600 + self.minute * 60 + self.second
    }

    /// Parse `YYYY-MM-DDTHH:MM:SSZ`. Fractional seconds, and offsets other than `Z`, are refused.
    pub fn parse(s: &str) -> (result: Result<Self, ParseError>)
        ensures
            result == parsed(encode_utf8(s@)),
    {
        let bytes = s.as_bytes();
        if bytes.len() != 20 || bytes[4] != 0x2D || bytes[7] != 0x2D || bytes[10] != 0x54
            || bytes[13] != 0x3A || bytes[16] != 0x3A || bytes[19] != 0x5A {
            return Err(ParseError::Shape);
        }
        let year: u32 = match parse_uint(&bytes[0..4], "year") {
            Ok(v) => v,
            Err(e) => return Err(e),
        };
        let month: u32 = match parse_uint(&bytes[5..7], "month") {
            Ok(v) => v,
            Err(e) => return Err(e),
        };
        let day: u32 = match parse_uint(&bytes[8..10], "day") {
            Ok(v) => v,
            Err(e) => return Err(e),
        };
        let hour: u32 = match parse_uint(&bytes[11..13], "hour") {
            Ok(v) => v,
            Err(e) => return Err(e),
        };
        let minute: u32 = match parse_uint(&bytes[14..16], "minute") {
            Ok(v) => v,
            Err(e) => return Err(e),
        };
        let second: u32 = match parse_uint(&bytes[17..19], "second") {
            Ok(v) => v,
            Err(e) => return Err(e),
        };
        Ok(Self { year, month, day, hour, minute, second })
    }

    /// Seconds since 1970-01-01T00:00:00Z, through the day number, so that the difference of two
    /// timestamps is exact across months and years.
    #[must_use]
    pub fn unix_seconds(&self) -> (seconds: i64)
        ensures
            seconds == self.seconds(),
            -100_000_000_000_000_000 < seconds < 100_000_000_000_000_000,
    {
        let jdn: i64 = julian_day_number(
            #[verifier::truncate] (self.year as i32),
            self.month,
            self.day,
        );
        (jdn - UNIX_EPOCH_JDN) * 86_400 + self.hour as i64 * 3600 + self.minute as i64 * 60
            + self.second as i64
    }

    /// Day of the week, Monday = 0 to Sunday = 6.
    #[must_use]
    pub fn weekday_monday0(&self) -> (w: u32)
        ensures
            w == weekday(self.year as int, self.month as int, self.day as int),
            w < 7,
    {
        // Four hundred years are a whole number of weeks: the shift keeps the year before year
        // zero in unsigned range.
        let y: u64 = if self.month < 3 {
            self.year as u64 + 399
        } else {
            self.year as u64 + 400
        };
        let m: u64 = if self.month < 3 {
            self.month as u64 + 12
        } else {
            self.month as u64
        };
        let k: u64 = y % 100;
        let j: u64 = y / 100;
        let h: u64 = (self.day as u64 + (13 * (m + 1)) / 5 + k + k / 4 + j / 4 + 5 * j) % 7;
        proof {
            lemma_four_centuries(self.day as int, m as int, y as int);
        }
        ((h + 5) % 7) as u32
    }
}

/// Read a number of at most four digits; `component` names it in the error.
fn parse_uint(bytes: &[u8], component: &'static str) -> (result: Result<u32, ParseError>)
    requires
        bytes@.len() <= 4,
    ensures
        match result {
            Ok(v) => {
                &&& all_digits(bytes@)
                &&& v == decimal(bytes@)
            },
            Err(e) => !all_digits(bytes@) && e == ParseError::Numeric(component),
        },
{
    let mut acc: u32 = 0;
    let mut i: usize = 0;
    while i < bytes.len()
        invariant
            i <= bytes@.len() <= 4,
            all_digits(bytes@.take(i as int)),
            acc == decimal(bytes@.take(i as int)),
            i == 0 ==> acc == 0,
            i == 1 ==> acc <= 9,
            i == 2 ==> acc <= 99,
            i == 3 ==> acc <= 999,
            i == 4 ==> acc <= 9999,
        decreases bytes@.len() - i,
    {
        let b: u8 = bytes[i];
        if b < 0x30 || b > 0x39 {
            return Err(ParseError::Numeric(component));
        }
        let ghost done = bytes@.take(i as int);
        let ghost more = bytes@.take(i + 1);
        assert(more.drop_last() =~= done);
        assert forall|x: int| 0 <= x < more.len() implies 0x30 <= #[trigger] more[x] <= 0x39 by {
            if x < done.len() {
                assert(more[x] == done[x]);
            }
        }
        acc = acc * 10 + (b - 0x30) as u32;
        i = i + 1;
    }
    assert(bytes@.take(i as int) =~= bytes@);
    Ok(acc)
}

fn quotient_toward_zero(a: i64, b: i64) -> (q: i64)
    requires
        b > 0,
        a > i64::MIN,
    ensures
        q == toward_zero(a as int, b as int),
{
    if a >= 0 {
        a / b
    } else {
        let q: i64 = (-a) / b;
        assert(0 <= (-a) as int / b as int <= -a) by (nonlinear_arith)
            requires
                a < 0,
                b > 0,
        ;
        -q
    }
}

/// Julian Day Number of the date.
fn julian_day_number(y: i32, m: u32, d: u32) -> (jdn: i64)
    ensures
        jdn == day_number(y as int, m as i32 as int, d as i32 as int),
        -1_000_000_000_000 < jdn < 1_000_000_000_000,
{
    let m: i64 = #[verifier::truncate] (m as i32) as i64;
    let d: i64 = #[verifier::truncate] (d as i32) as i64;
    let a: i64 = quotient_toward_zero(14 - m, 12);
    let y: i64 = y as i64 + 4800 - a;
    let m: i64 = m + 12 * a - 3;
    d + quotient_toward_zero(153 * m + 2, 5) + 365 * y + quotient_toward_zero(y, 4)
        - quotient_toward_zero(y, 100) + quotient_toward_zero(y, 400) - 32_045
}

/// Four hundred years are a whole number of weeks.
proof fn lemma_four_centuries(day: int, m: int, y: int)
    ensures
        zeller(day, m, y) == zeller(day, m, y - 400),
{
    let k = y % 100;
    let j = y / 100;
    assert((y - 400) % 100 == k && (y - 400) / 100 == j - 4);
    assert((j - 4) / 4 == j / 4 - 1);
    let rest = day + (13 * (m + 1)) / 5 + k + k / 4;
    assert((rest + j / 4 + 5 * j) % 7 == (rest + j / 4 + 5 * j - 21) % 7);
}

proof fn lemma_two_digits(b: Seq<u8>)
    requires
        b.len() == 2,
        all_digits(b),
    ensures
        decimal(b) == 10 * (b[0] - 0x30) + (b[1] - 0x30),
        0 <= decimal(b) <= 99,
{
    reveal_with_fuel(decimal, 3);
}

proof fn lemma_four_digits(b: Seq<u8>)
    requires
        b.len() == 4,
        all_digits(b),
    ensures
        decimal(b) == 1000 * (b[0] - 0x30) + 100 * (b[1] - 0x30) + 10 * (b[2] - 0x30) + (b[3]
            - 0x30),
        0 <= decimal(b) <= 9999,
{
    reveal_with_fuel(decimal, 5);
}

/// A parsed year has four digits, and the other fields have two.
pub proof fn law_parsed_fields(b: Seq<u8>)
    ensures
        parsed(b) matches Ok(t) ==> {
            &&& t.year <= 9999
            &&& t.month <= 99
            &&& t.day <= 99
            &&& t.hour <= 99
            &&& t.minute <= 99
            &&& t.second <= 99
        },
{
    if parsed(b) is Ok {
        lemma_four_digits(b.subrange(0, 4));
        lemma_two_digits(b.subrange(5, 7));
        lemma_two_digits(b.subrange(8, 10));
        lemma_two_digits(b.subrange(11, 13));
        lemma_two_digits(b.subrange(14, 16));
        lemma_two_digits(b.subrange(17, 19));
    }
}

/// Leap years of the Gregorian calendar.
pub open spec fn leap(year: int) -> bool {
    year % 4 == 0 && (year % 100 != 0 || year % 400 == 0)
}

/// Days of a month.
pub open spec fn days_in_month(year: int, month: int) -> int {
    if month == 2 {
        if leap(year) {
            29
        } else {
            28
        }
    } else if month == 4 || month == 6 || month == 9 || month == 11 {
        30
    } else {
        31
    }
}

/// Days of the years from year zero up to, not including, `year`.
pub open spec fn days_before_year(year: int) -> int
    decreases year,
{
    if year <= 0 {
        0
    } else if leap(year - 1) {
        days_before_year(year - 1) + 366
    } else {
        days_before_year(year - 1) + 365
    }
}

/// Days of the months of `year` before `month`.
pub open spec fn days_before_month(year: int, month: int) -> int
    decreases month,
{
    if month <= 1 {
        0
    } else {
        days_before_month(year, month - 1) + days_in_month(year, month - 1)
    }
}

/// The day number counts calendar days: from 0000-01-01, which is day 1721060, over every year,
/// month and day in between.
pub proof fn law_day_number_counts_days(year: int, month: int, day: int)
    requires
        0 <= year,
        1 <= month <= 12,
    ensures
        day_number(year, month, day) == 1_721_060 + days_before_year(year) + days_before_month(
            year,
            month,
        ) + day - 1,
{
    lemma_years_closed(year);
    lemma_months_closed(year, month);
    let a: int = if month <= 2 {
        1
    } else {
        0
    };
    assert(toward_zero(14 - month, 12) == a);
    let y = year + 4800 - a;
    lemma_leap_counts(year);
}

/// Days before a year, without recursion.
proof fn lemma_years_closed(year: int)
    requires
        0 <= year,
    ensures
        days_before_year(year) == 365 * year + (year + 3) / 4 - (year + 99) / 100 + (year + 399)
            / 400,
    decreases year,
{
    if year > 0 {
        lemma_years_closed(year - 1);
        lemma_leap_counts(year - 1);
        lemma_leap_counts(year);
    }
}

/// How the counts of multiples of 4, 100 and 400 grow from a year to the next.
proof fn lemma_leap_counts(year: int)
    requires
        0 <= year,
    ensures
        (year + 4) / 4 - (year + 3) / 4 == (if year % 4 == 0 {
            1int
        } else {
            0
        }),
        (year + 100) / 100 - (year + 99) / 100 == (if year % 100 == 0 {
            1int
        } else {
            0
        }),
        (year + 400) / 400 - (year + 399) / 400 == (if year % 400 == 0 {
            1int
        } else {
            0
        }),
        (year + 4800) / 4 == (year + 4) / 4 + 1199,
        (year + 4799) / 4 == (year + 3) / 4 + 1199,
        (year + 4800) / 100 == (year + 100) / 100 + 47,
        (year + 4799) / 100 == (year + 99) / 100 + 47,
        (year + 4800) / 400 == (year + 400) / 400 + 11,
        (year + 4799) / 400 == (year + 399) / 400 + 11,
        year % 400 == 0 ==> year % 100 == 0,
        year % 100 == 0 ==> year % 4 == 0,
{
}

/// Days before a month, month by month.
proof fn lemma_months_closed(year: int, month: int)
    requires
        1 <= month <= 12,
    ensures
        month <= 2 ==> days_before_month(year, month) == (153 * (month + 9) + 2) / 5 - 306,
        month > 2 ==> days_before_month(year, month) == (153 * (month - 3) + 2) / 5 + 59 + (if leap(
            year,
        ) {
            1int
        } else {
            0
        }),
    decreases month,
{
    if month > 1 {
        lemma_months_closed(year, month - 1);
    }
}

/// The weekday is the day number modulo seven.
pub proof fn law_weekday_follows_day_number(year: int, month: int, day: int)
    requires
        0 <= year,
        1 <= month <= 12,
    ensures
        weekday(year, month, day) == day_number(year, month, day) % 7,
{
    let a: int = if month <= 2 {
        1
    } else {
        0
    };
    assert(toward_zero(14 - month, 12) == a);
    let y = year - a;
    let m = month + 12 * a;
    let k = y % 100;
    let j = y / 100;
    assert(y == 100 * j + k);
    assert((y + 4800) / 4 == 1200 + 25 * j + k / 4);
    assert((y + 4800) / 100 == 48 + j);
    assert((y + 4800) / 400 == 12 + j / 4);
    assert((153 * (m - 3) + 2) / 5 == 28 * m - 94 + (13 * (m + 1)) / 5);
    let z = day + (13 * (m + 1)) / 5 + k + k / 4 + j / 4 + 5 * j;
    let jdn = day_number(year, month, day);
    assert(jdn == z + 7 * (52 * k + 5217 * j + 4 * m + 245_860) + 5);
    assert((z % 7 + 5) % 7 == (z + 5) % 7);
    assert((z + 5) % 7 == jdn % 7);
}

impl Utc {
    /// A day of the calendar and a time of day.
    pub open spec fn valid(self) -> bool {
        &&& self.year <= 9999
        &&& 1 <= self.month <= 12
        &&& 1 <= self.day <= days_in_month(self.year as int, self.month as int)
        &&& self.hour <= 23
        &&& self.minute <= 59
        &&& self.second <= 59
    }

    /// Comes before `other`, compared field by field from the year down.
    pub open spec fn earlier(self, other: Utc) -> bool {
        if self.year != other.year {
            self.year < other.year
        } else if self.month != other.month {
            self.month < other.month
        } else if self.day != other.day {
            self.day < other.day
        } else if self.hour != other.hour {
            self.hour < other.hour
        } else if self.minute != other.minute {
            self.minute < other.minute
        } else {
            self.second < other.second
        }
    }
}

proof fn lemma_years_ordered(a: int, b: int)
    requires
        0 <= a <= b,
    ensures
        days_before_year(a) <= days_before_year(b),
    decreases b - a,
{
    if a < b {
        lemma_years_ordered(a, b - 1);
    }
}

proof fn lemma_months_ordered(year: int, a: int, b: int)
    requires
        1 <= a <= b <= 13,
    ensures
        days_before_month(year, a) <= days_before_month(year, b),
    decreases b - a,
{
    if a < b {
        lemma_months_ordered(year, a, b - 1);
    }
}

/// Twelve months make a year.
proof fn lemma_year_length(year: int)
    requires
        0 <= year,
    ensures
        days_before_year(year) + days_before_month(year, 13) == days_before_year(year + 1),
{
    lemma_months_closed(year, 12);
}

/// Of two valid timestamps the later one has more seconds.
pub proof fn law_later_has_more_seconds(a: Utc, b: Utc)
    requires
        a.valid(),
        b.valid(),
        a.earlier(b),
    ensures
        a.seconds() < b.seconds(),
{
    let (ya, ma, da) = (a.year as int, a.month as int, a.day as int);
    let (yb, mb, db) = (b.year as int, b.month as int, b.day as int);
    law_day_number_counts_days(ya, ma, da);
    law_day_number_counts_days(yb, mb, db);
    if ya < yb {
        lemma_year_length(ya);
        lemma_months_ordered(ya, ma + 1, 13);
        lemma_years_ordered(ya + 1, yb);
        lemma_months_ordered(yb, 1, mb);
        assert(day_number(ya, ma, da) < day_number(yb, mb, db));
    } else if ma < mb {
        lemma_months_ordered(ya, ma + 1, mb);
        assert(day_number(ya, ma, da) < day_number(yb, mb, db));
    }
}

} // verus!
