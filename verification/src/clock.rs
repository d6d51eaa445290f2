//! The wall clock and calendar dates.
use crate::number;
use crate::number::padded_text;
use std::time::Duration;
use std::time::SystemTimeError;
use std::time::UNIX_EPOCH;
use vstd::prelude::*;

verus! {

// ── Points in time ───────────────────────────────────────────────────────────

/// A point in time as the span since the Unix epoch.
#[derive(Debug, Clone, Copy, PartialEq, Eq, Structural)]
pub struct UnixTime {
    /// Whole seconds.
    pub secs: u64,
    /// Nanoseconds on top of the whole seconds.
    pub nanos: u32,
}

/// `std::time::SystemTimeError`: the clock stands before the epoch.
#[verifier::external_type_specification]
#[verifier::external_body]
pub struct ExSystemTimeError(SystemTimeError);

/// The span from the Unix epoch to what the clock of the machine shows.
///
/// `SystemTime::elapsed` reads the clock; it fails where the clock stands before the epoch. What
/// the clock shows is left unsaid.
#[verifier::external_body]
fn since_epoch() -> (r: Result<Duration, SystemTimeError>)
{
    UNIX_EPOCH.elapsed()
}

/// `Duration::as_secs` gives the whole seconds of a span. Which number that is rests on the clock
/// and is left unsaid.
pub assume_specification[ Duration::as_secs ](d: &Duration) -> (r: u64)
;

/// `Duration::subsec_nanos` gives the part of a span below a second, in nanoseconds; it is always
/// less than one second.
pub assume_specification[ Duration::subsec_nanos ](d: &Duration) -> (r: u32)
    ensures
        r < 1_000_000_000,
;

impl UnixTime {
    /// The nanoseconds are less than a second.
    pub open spec fn wf(self) -> bool {
        self.nanos < 1_000_000_000
    }

    /// The span in microseconds.
    pub open spec fn total_micros(self) -> nat {
        self.secs as nat * 1_000_000 + self.nanos as nat / 1_000
    }

    /// The span in milliseconds.
    pub open spec fn total_millis(self) -> nat {
        self.secs as nat * 1_000 + self.nanos as nat / 1_000_000
    }

    /// The point in time that a reading of the clock stands for: the whole seconds since the epoch
    /// and the nanoseconds on top. A clock before the epoch gives none and counts as standing at
    /// it.
    pub fn of_reading(reading: Option<(u64, u32)>) -> (r: Self)
        ensures
            match reading {
                Some((secs, nanos)) => r.secs == secs && r.nanos == nanos,
                None => r.secs == 0 && r.nanos == 0,
            },
    {
        match reading {
            Some((secs, nanos)) => UnixTime { secs, nanos },
            None => UnixTime { secs: 0, nanos: 0 },
        }
    }

    /// What the clock shows. Which point in time that is rests on the machine and is left unsaid.
    pub fn now() -> (r: Self)
        ensures
            r.wf(),
    {
        let reading = match since_epoch() {
            Ok(span) => Some((span.as_secs(), span.subsec_nanos())),
            Err(_) => None,
        };
        UnixTime::of_reading(reading)
    }

    /// Microseconds since the epoch, in 64 bits.
    pub fn micros(self) -> (r: u64)
        ensures
            r == self.total_micros() % 0x1_0000_0000_0000_0000,
    {
        let wide: u128 = self.secs as u128 * 1_000_000 + self.nanos as u128 / 1_000;
        (wide % 0x1_0000_0000_0000_0000u128) as u64
    }

    /// Milliseconds since the epoch, in 64 bits.
    pub fn millis(self) -> (r: u64)
        ensures
            r == self.total_millis() % 0x1_0000_0000_0000_0000,
    {
        let wide: u128 = self.secs as u128 * 1_000 + self.nanos as u128 / 1_000_000;
        (wide % 0x1_0000_0000_0000_0000u128) as u64
    }
}

/// Current time in seconds since the Unix epoch.
pub fn now_secs() -> u64 {
    UnixTime::now().secs
}

/// Current time in microseconds since the Unix epoch.
pub fn now_micros() -> u64 {
    UnixTime::now().micros()
}

// ── Calendar ─────────────────────────────────────────────────────────────────

/// A Gregorian leap year.
pub open spec fn is_leap(year: int) -> bool {
    year % 4 == 0 && (year % 100 != 0 || year % 400 == 0)
}

/// The number of days of a month.
pub open spec fn month_days(year: int, month: int) -> int {
    if month == 2 {
        if is_leap(year) {
            29
        } else {
            28
        }
    } else if month == 4 || month == 6 || month == 9 || month == 11 {
        30
    } else {
        31
    }
}

/// The number of days of a year before a month.
pub open spec fn days_before_month(year: int, month: int) -> int
    decreases month,
{
    if month <= 1 {
        0
    } else {
        days_before_month(year, month - 1) + month_days(year, month - 1)
    }
}

/// The number of days before a year, counted from the start of year one.
pub open spec fn days_before_year(year: int) -> int {
    let y = year - 1;
    365 * y + y / 4 - y / 100 + y / 400
}

/// The number of days from the first of January 1970 to a date.
pub open spec fn day_number(year: int, month: int, day: int) -> int {
    days_before_year(year) + days_before_month(year, month) + day - 1 - days_before_year(1970)
}

/// A date of the Gregorian calendar.
pub open spec fn is_date(year: int, month: int, day: int) -> bool {
    year >= 1 && 1 <= month <= 12 && 1 <= day <= month_days(year, month)
}

/// Years are as long as their months together.
pub proof fn lemma_year_length(year: int)
    ensures
        days_before_year(year + 1) == days_before_year(year) + days_before_month(year, 13),
{
    lemma_year_days(year);
    let y = year - 1;
    lemma_next_quotient(y, 4);
    lemma_next_quotient(y, 100);
    lemma_next_quotient(y, 400);
    assert(year % 400 == 0 ==> year % 100 == 0);
    assert(year % 100 == 0 ==> year % 4 == 0);
}

/// A quotient grows by one where the divisor divides the next number.
proof fn lemma_next_quotient(y: int, d: int)
    requires
        d == 4 || d == 100 || d == 400,
    ensures
        (y + 1) / d == y / d + if (y + 1) % d == 0 {
            1int
        } else {
            0
        },
{
}

/// Later months start later.
proof fn lemma_months_grow(year: int, a: int, b: int)
    requires
        1 <= a <= b,
    ensures
        days_before_month(year, a) + (if a < b {
            month_days(year, a)
        } else {
            0
        }) <= days_before_month(year, b),
    decreases b - a,
{
    if a < b {
        lemma_months_grow(year, a, b - 1);
    }
}

/// Later years start later.
proof fn lemma_years_grow(a: int, b: int)
    requires
        a <= b,
    ensures
        days_before_year(a) <= days_before_year(b),
        a < b ==> days_before_year(a + 1) <= days_before_year(b),
    decreases b - a,
{
    if a < b {
        lemma_years_grow(a, b - 1);
        lemma_year_length(b - 1);
        lemma_months_grow(b - 1, 1, 13);
    }
}

/// A date is determined by its day number.
pub proof fn dates_are_unique(y1: int, m1: int, d1: int, y2: int, m2: int, d2: int)
    requires
        is_date(y1, m1, d1),
        is_date(y2, m2, d2),
        day_number(y1, m1, d1) == day_number(y2, m2, d2),
    ensures
        y1 == y2 && m1 == m2 && d1 == d2,
{
    lemma_year_length(y1);
    lemma_year_length(y2);
    lemma_months_grow(y1, m1, 13);
    lemma_months_grow(y2, m2, 13);
    lemma_months_grow(y1, 1, m1);
    lemma_months_grow(y2, 1, m2);
    if y1 < y2 {
        lemma_years_grow(y1, y2);
    } else if y2 < y1 {
        lemma_years_grow(y2, y1);
    } else if m1 < m2 {
        lemma_months_grow(y1, m1, m2);
    } else if m2 < m1 {
        lemma_months_grow(y1, m2, m1);
    }
}

/// Whether a year is a leap year.
fn leap(year: u64) -> (r: bool)
    ensures
        r == is_leap(year as int),
{
    year % 4 == 0 && (year % 100 != 0 || year % 400 == 0)
}

/// The number of days of a month.
fn days_in(year: u64, month: u64) -> (r: u64)
    ensures
        r == month_days(year as int, month as int),
        28 <= r <= 31,
{
    if month == 2 {
        if leap(year) {
            29
        } else {
            28
        }
    } else if month == 4 || month == 6 || month == 9 || month == 11 {
        30
    } else {
        31
    }
}

/// The start of a year that is `y` years after year one, from its parts.
proof fn lemma_year_start(a: int, b: int, c: int, d: int)
    requires
        0 <= a,
        0 <= b <= 3,
        0 <= c <= 24,
        0 <= d <= 3,
    ensures
        ({
            let year = 400 * a + 100 * b + 4 * c + d + 1;
            &&& days_before_year(year) == 146097 * a + 36524 * b + 1461 * c + 365 * d
            &&& is_leap(year) == (d == 3 && (c != 24 || b == 3))
        }),
{
    let y = 400 * a + 100 * b + 4 * c + d;
    assert(y / 4 == 100 * a + 25 * b + c);
    assert(y / 100 == 4 * a + b);
    assert(y / 400 == a);
    let year = y + 1;
    assert(year % 4 == 0 <==> d == 3);
    assert(year % 100 == 0 <==> c == 24 && d == 3);
    assert(year % 400 == 0 <==> b == 3 && c == 24 && d == 3);
}

/// The number of days of a year.
proof fn lemma_year_days(year: int)
    ensures
        days_before_month(year, 13) == if is_leap(year) {
            366int
        } else {
            365
        },
{
    reveal_with_fuel(days_before_month, 14);
}

/// The year and the day of the year, counted from zero, of a day number.
fn year_of(days: u64) -> (r: (u64, u64))
    requires
        days <= 0xffff_ffff_ffff,
    ensures
        r.0 >= 1,
        r.0 <= 0x1_0000_0000_0000,
        days_before_year(r.0 as int) + r.1 == days + days_before_year(1970),
        r.1 < days_before_month(r.0 as int, 13),
{
    let z: u64 = days + 719162;
    let a: u64 = z / 146097;
    let in_a: u64 = z % 146097;
    let b: u64 = if in_a / 36524 > 3 {
        3
    } else {
        in_a / 36524
    };
    let in_b: u64 = in_a - 36524 * b;
    let c: u64 = in_b / 1461;
    let in_c: u64 = in_b % 1461;
    let d: u64 = if in_c / 365 > 3 {
        3
    } else {
        in_c / 365
    };
    let rest: u64 = in_c - 365 * d;
    let y: u64 = 400 * a + 100 * b + 4 * c + d;
    proof {
        assert(c <= 24);
        lemma_year_start(a as int, b as int, c as int, d as int);
        lemma_year_days(y + 1);
        assert(days_before_year(1970) == 719162);
    }
    (y + 1, rest)
}

/// The date with a day number.
pub fn date_of(days: u64) -> (r: (u64, u64, u64))
    requires
        days <= 0xffff_ffff_ffff,
    ensures
        is_date(r.0 as int, r.1 as int, r.2 as int),
        day_number(r.0 as int, r.1 as int, r.2 as int) == days,
{
    let (year, of_year) = year_of(days);
    let mut month: u64 = 1;
    let mut left: u64 = of_year;
    let ghost y = year as int;
    while month < 12 && left >= days_in(year, month)
        invariant
            y == year,
            1 <= month <= 12,
            days_before_month(y, month as int) + left == of_year,
            of_year < days_before_month(y, 13),
        decreases 12 - month,
    {
        left = left - days_in(year, month);
        month = month + 1;
    }
    proof {
        if month == 12 {
            assert(days_before_month(y, 13) == days_before_month(y, 12) + month_days(y, 12));
        }
    }
    (year, month, left + 1)
}

/// `YYYY-MM-DDTHH:MM:SS.ffffffZ` for a date, the seconds since its midnight and the microseconds on
/// top of them.
pub open spec fn stamp(date: (u64, u64, u64), of_day: nat, micros: nat) -> Seq<char> {
    number::padded(date.0 as nat, 4) + seq!['-'] + number::padded(date.1 as nat, 2) + seq!['-']
        + number::padded(date.2 as nat, 2) + seq!['T'] + number::padded(of_day / 3600, 2) + seq![':']
        + number::padded(of_day / 60 % 60, 2) + seq![':'] + number::padded(of_day % 60, 2) + seq![
        '.',
    ] + number::padded(micros, 6) + seq!['Z']
}

/// `s` is the text of a point in time: the date of its day and the time of that day.
pub open spec fn is_stamp_of(s: Seq<char>, t: UnixTime) -> bool {
    exists|date: (u64, u64, u64)|
        {
            &&& is_date(date.0 as int, date.1 as int, date.2 as int)
            &&& day_number(date.0 as int, date.1 as int, date.2 as int) == t.secs / 86400
            &&& s == #[trigger] stamp(date, t.secs as nat % 86400, t.nanos as nat / 1000)
        }
}

/// A point in time as `YYYY-MM-DDTHH:MM:SS.ffffffZ` (UTC, microseconds).
pub fn rfc3339(t: UnixTime) -> (r: String)
    ensures
        is_stamp_of(r@, t),
{
    let of_day: u64 = t.secs % 86400;
    let date = date_of(t.secs / 86400);
    let (year, month, day) = date;
    let mut out = padded_text(year, 4);
    out.push('-');
    out.append(padded_text(month, 2).as_str());
    out.push('-');
    out.append(padded_text(day, 2).as_str());
    out.push('T');
    out.append(padded_text(of_day / 3600, 2).as_str());
    out.push(':');
    out.append(padded_text(of_day / 60 % 60, 2).as_str());
    out.push(':');
    out.append(padded_text(of_day % 60, 2).as_str());
    out.push('.');
    out.append(padded_text(t.nanos as u64 / 1000, 6).as_str());
    out.push('Z');
    assert(out@ =~= stamp(date, t.secs as nat % 86400, t.nanos as nat / 1000));
    out
}

/// A point in time has one text.
pub proof fn stamps_are_unique(a: Seq<char>, b: Seq<char>, t: UnixTime)
    requires
        is_stamp_of(a, t),
        is_stamp_of(b, t),
    ensures
        a == b,
{
    let of_day = t.secs as nat % 86400;
    let micros = t.nanos as nat / 1000;
    let d = choose|date: (u64, u64, u64)|
        {
            &&& is_date(date.0 as int, date.1 as int, date.2 as int)
            &&& day_number(date.0 as int, date.1 as int, date.2 as int) == t.secs / 86400
            &&& a == #[trigger] stamp(date, of_day, micros)
        };
    let e = choose|date: (u64, u64, u64)|
        {
            &&& is_date(date.0 as int, date.1 as int, date.2 as int)
            &&& day_number(date.0 as int, date.1 as int, date.2 as int) == t.secs / 86400
            &&& b == #[trigger] stamp(date, of_day, micros)
        };
    dates_are_unique(
        d.0 as int,
        d.1 as int,
        d.2 as int,
        e.0 as int,
        e.1 as int,
        e.2 as int,
    );
}

/// A reading of the clock is taken as it is; a clock before the epoch counts as standing at it.
pub proof fn readings_are_taken_as_they_are(reading: Option<(u64, u32)>, r: UnixTime)
    requires
        call_ensures(UnixTime::of_reading, (reading,), r),
    ensures
        reading matches Some((secs, nanos)) ==> r == (UnixTime { secs, nanos }),
        reading is None ==> r == (UnixTime { secs: 0, nanos: 0 }),
{
}

/// Micro- and milliseconds count the whole span, as far as it fits, and drop what is smaller.
pub proof fn spans_are_counted_whole(t: UnixTime, micros: u64, millis: u64)
    requires
        t.wf(),
        t.secs < 0x1_0000_0000,
        call_ensures(UnixTime::micros, (t,), micros),
        call_ensures(UnixTime::millis, (t,), millis),
    ensures
        micros / 1_000_000 == t.secs,
        micros % 1_000_000 == t.nanos / 1_000,
        millis / 1_000 == t.secs,
        millis % 1_000 == t.nanos / 1_000_000,
{
    assert(t.total_micros() == t.secs * 1_000_000 + t.nanos / 1_000);
    assert(t.total_millis() == t.secs * 1_000 + t.nanos / 1_000_000);
    assert(t.total_micros() < 0x1_0000_0000_0000_0000);
    assert(t.total_millis() < 0x1_0000_0000_0000_0000);
}

/// The days follow one another: the count starts with the first of January 1970; each next day of a
/// month, the first of the next month and the first of the next year come one day later.
pub proof fn days_follow_one_another(year: int, month: int, day: int)
    requires
        is_date(year, month, day),
    ensures
        day_number(1970, 1, 1) == 0,
        day_number(year, month, day + 1) == day_number(year, month, day) + 1,
        month < 12 && day == month_days(year, month) ==> day_number(year, month + 1, 1)
            == day_number(year, month, day) + 1,
        month == 12 && day == 31 ==> day_number(year + 1, 1, 1) == day_number(year, month, day) + 1,
{
    lemma_year_length(year);
    if month == 12 {
        assert(days_before_month(year, 13) == days_before_month(year, 12) + month_days(year, 12));
    }
}

/// The months are as long as they are, and February has a day more in every fourth year, but for
/// the centuries that four hundred does not divide.
pub proof fn months_have_their_lengths(year: int, month: int)
    ensures
        month == 1 || month == 3 || month == 5 || month == 7 || month == 8 || month == 10 || month
            == 12 ==> month_days(year, month) == 31,
        month == 4 || month == 6 || month == 9 || month == 11 ==> month_days(year, month) == 30,
        month == 2 && year % 4 != 0 ==> month_days(year, month) == 28,
        month == 2 && year % 4 == 0 && year % 100 != 0 ==> month_days(year, month) == 29,
        month == 2 && year % 100 == 0 && year % 400 != 0 ==> month_days(year, month) == 28,
        month == 2 && year % 400 == 0 ==> month_days(year, month) == 29,
{
}

/// Every day has its date.
pub proof fn days_have_their_dates(days: u64, r: (u64, u64, u64))
    requires
        call_ensures(date_of, (days,), r),
    ensures
        1 <= r.1 <= 12,
        1 <= r.2 <= month_days(r.0 as int, r.1 as int),
        day_number(r.0 as int, r.1 as int, r.2 as int) == days,
{
}

/// Ten to a power.
spec fn ten(k: nat) -> nat
    decreases k,
{
    if k == 0 {
        1
    } else {
        10 * ten((k - 1) as nat)
    }
}

proof fn lemma_width(n: nat, k: nat)
    requires
        k > 0,
        n < ten(k),
    ensures
        number::decimal(n).len() <= k,
    decreases k,
{
    reveal_with_fuel(ten, 2);
    if n >= 10 {
        lemma_width(n / 10, (k - 1) as nat);
    }
}

/// The number that a part of a text stands for.
pub open spec fn part(s: Seq<char>, from: int, to: int) -> int {
    number::decimal_value(s.subrange(from, to)) as int
}

/// A time stamp gives the point in time back, to the microsecond: its parts are the year, the month
/// and the day of its date and the hours, minutes, seconds and microseconds of the day.
pub proof fn stamps_give_the_time_back(t: UnixTime, r: String)
    requires
        t.wf(),
        t.secs < 253_402_300_800,
        call_ensures(rfc3339, (t,), r),
    ensures
        ({
            let s = r@;
            &&& s.len() == 27
            &&& s[4] == '-' && s[7] == '-' && s[10] == 'T' && s[13] == ':' && s[16] == ':' && s[19]
                == '.' && s[26] == 'Z'
            &&& is_date(part(s, 0, 4), part(s, 5, 7), part(s, 8, 10))
            &&& part(s, 11, 13) < 24 && part(s, 14, 16) < 60 && part(s, 17, 19) < 60
            &&& day_number(part(s, 0, 4), part(s, 5, 7), part(s, 8, 10)) * 86400 + part(s, 11, 13)
                * 3600 + part(s, 14, 16) * 60 + part(s, 17, 19) == t.secs
            &&& part(s, 20, 26) == t.nanos / 1_000
        }),
{
    let s = r@;
    let of_day = t.secs as nat % 86400;
    let micros = t.nanos as nat / 1000;
    let date = choose|date: (u64, u64, u64)|
        {
            &&& is_date(date.0 as int, date.1 as int, date.2 as int)
            &&& day_number(date.0 as int, date.1 as int, date.2 as int) == t.secs / 86400
            &&& s == #[trigger] stamp(date, of_day, micros)
        };
    let y = date.0 as int;
    assert(y < 10000) by {
        if y >= 10000 {
            lemma_years_grow(10000, y);
            lemma_months_grow(y, 1, date.1 as int);
            assert(days_before_year(10000) == 3652059);
            assert(days_before_year(1970) == 719162);
        }
    }
    reveal_with_fuel(ten, 7);
    assert(ten(2) == 100 && ten(4) == 10000 && ten(6) == 1000000);
    let parts = seq![
        number::padded(date.0 as nat, 4),
        number::padded(date.1 as nat, 2),
        number::padded(date.2 as nat, 2),
        number::padded(of_day / 3600, 2),
        number::padded(of_day / 60 % 60, 2),
        number::padded(of_day % 60, 2),
        number::padded(micros, 6),
    ];
    lemma_part(date.0 as nat, 4);
    lemma_part(date.1 as nat, 2);
    lemma_part(date.2 as nat, 2);
    lemma_part(of_day / 3600, 2);
    lemma_part(of_day / 60 % 60, 2);
    lemma_part(of_day % 60, 2);
    lemma_part(micros, 6);
    assert(s.subrange(0, 4) =~= parts[0]);
    assert(s.subrange(5, 7) =~= parts[1]);
    assert(s.subrange(8, 10) =~= parts[2]);
    assert(s.subrange(11, 13) =~= parts[3]);
    assert(s.subrange(14, 16) =~= parts[4]);
    assert(s.subrange(17, 19) =~= parts[5]);
    assert(s.subrange(20, 26) =~= parts[6]);
    assert(of_day / 3600 * 3600 + of_day / 60 % 60 * 60 + of_day % 60 == of_day);
}

proof fn lemma_part(n: nat, width: nat)
    requires
        width > 0,
        n < ten(width),
    ensures
        number::padded(n, width).len() == width,
        number::decimal_value(number::padded(n, width)) == n,
{
    lemma_width(n, width);
    number::lemma_padded(n, width);
}

} // verus!
