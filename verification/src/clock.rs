//! Calendar time, and the fraction of the day that has passed.
use crate::binary32;
use crate::binary32::Binary32;
use crate::single::Single;
use chrono::{Datelike, Timelike};
use vstd::arithmetic::power2::pow2;
use vstd::prelude::*;

verus! {

/// Seconds from one midnight to the next.
pub const SECONDS_IN_A_DAY: u32 = 86400;

/// How many times the sun goes round the strip in a day.
pub const TIME_SCALE: u32 = 1;

/// A day of the week.
#[derive(Clone, Copy, Debug, PartialEq, Eq, Structural)]
pub enum DayOfWeek {
    Sunday,
    Monday,
    Tuesday,
    Wednesday,
    Thursday,
    Friday,
    Saturday,
}

/// What the real-time clock holds.
#[derive(Clone, Copy, Debug, PartialEq, Eq, Structural)]
pub struct DateTime {
    pub year: u16,
    pub month: u8,
    pub day: u8,
    pub day_of_week: DayOfWeek,
    pub hour: u8,
    pub minute: u8,
    pub second: u8,
}

impl DateTime {
    /// Seconds since midnight, going by hour, minute and second alone.
    pub open spec fn seconds_since_midnight(self) -> nat {
        (self.hour * 3600 + self.minute * 60 + self.second) as nat
    }
}

/// The single-precision fraction of the day after `seconds`.
pub open spec fn time_fraction(seconds: nat) -> (nat, nat) {
    let fraction_of_day = binary32::quotient((seconds, 0), (SECONDS_IN_A_DAY as nat, 0));
    binary32::remainder(binary32::product(fraction_of_day, (TIME_SCALE as nat, 0)), 1)
}

/// A number from 0 up to but not including 1, either 0 or not less than 2^-23, written with a
/// scale of at most 40.
pub open spec fn is_fraction(f: (nat, nat)) -> bool {
    &&& f.0 <= binary32::MANT_MAX
    &&& f.1 <= 40
    &&& f.0 < pow2(f.1)
    &&& f.0 == 0 || f.0 * binary32::MANT_MIN >= pow2(f.1)
}

/// The fraction of the day that has passed at `current_time`.
pub fn calculate_time_fraction(current_time: &DateTime) -> (fraction: Single)
    ensures
        fraction.equals(time_fraction(current_time.seconds_since_midnight())),
        is_fraction(time_fraction(current_time.seconds_since_midnight())),
{
    let seconds_since_midnight: u32 = current_time.hour as u32 * 3600 + current_time.minute as u32
        * 60 + current_time.second as u32;
    let seconds: Binary32 = Binary32::from_integer(seconds_since_midnight);
    let day: Binary32 = Binary32::from_integer(SECONDS_IN_A_DAY);
    proof {
        lemma_time_fraction(seconds_since_midnight as nat);
        vstd::arithmetic::power2::lemma2_to64();
    }
    let fraction_of_day: Binary32 = seconds.over(day);
    Single::encode(fraction_of_day.times(Binary32::from_integer(TIME_SCALE)).modulo(1))
}

/// The bounds that the steps of [`calculate_time_fraction`] keep.
proof fn lemma_time_fraction(seconds: nat)
    requires
        seconds < 0x10_0000,
    ensures
        ({
            let q = binary32::quotient((seconds, 0), (SECONDS_IN_A_DAY as nat, 0));
            let p = binary32::product(q, (TIME_SCALE as nat, 0));
            &&& q.0 <= binary32::MANT_MAX
            &&& q.1 <= 40
            &&& q.0 < binary32::MANT_MAX * pow2(q.1)
            &&& p.0 <= binary32::MANT_MAX
            &&& p.1 <= 40
        }),
        is_fraction(time_fraction(seconds)),
{
    vstd::arithmetic::power2::lemma2_to64();
    vstd::arithmetic::power2::lemma2_to64_rest();
    let q = binary32::quotient((seconds, 0), (SECONDS_IN_A_DAY as nat, 0));
    let p = binary32::product(q, (TIME_SCALE as nat, 0));
    let f = time_fraction(seconds);
    assert(seconds * pow2(0) == seconds);
    assert(86400 * pow2(0) == 86400);
    assert(q == binary32::rounded(seconds, 86400));
    assert(q.0 * 1 == q.0);
    assert(p == binary32::rounded(q.0, pow2(q.1)));
    assert(f == (p.0 % pow2(p.1), p.1));
    if seconds == 0 {
        assert(q == (0nat, 0nat));
        assert(p == (0nat, 0nat));
    } else {
        binary32::lemma_rounded(seconds, 86400);
        binary32::lemma_rounded_scale(seconds, 86400, 17);
        if q.1 == 0 {
            assert(seconds * pow2(q.1) == seconds);
            assert(false);
        }
        vstd::arithmetic::power2::lemma_pow2_unfold(q.1);
        vstd::arithmetic::power2::lemma_pow2_pos((q.1 - 1) as nat);
        binary32::lemma_rounded(q.0, pow2(q.1));
        if q.1 < 23 {
            vstd::arithmetic::power2::lemma_pow2_strictly_increases(q.1, 23);
            assert(q.0 * pow2(0) == q.0);
            binary32::lemma_rounded_scale(q.0, pow2(q.1), 0);
        } else {
            let e = (q.1 - 23) as nat;
            vstd::arithmetic::power2::lemma_pow2_adds(23, e);
            assert(pow2(q.1) <= q.0 * pow2(e)) by (nonlinear_arith)
                requires
                    pow2(q.1) == 0x80_0000 * pow2(e),
                    q.0 >= 0x80_0000,
            ;
            binary32::lemma_rounded_scale(q.0, pow2(q.1), e);
        }
        assert(p.1 <= 40);
        vstd::arithmetic::power2::lemma_pow2_pos(p.1);
        vstd::arithmetic::div_mod::lemma_mod_bound(p.0 as int, pow2(p.1) as int);
        vstd::arithmetic::div_mod::lemma_mod_decreases(p.0, pow2(p.1));
        if p.1 <= 23 {
            if p.1 < 23 {
                vstd::arithmetic::power2::lemma_pow2_strictly_increases(p.1, 23);
            }
        } else {
            if p.1 > 24 {
                vstd::arithmetic::power2::lemma_pow2_strictly_increases(24, p.1);
            }
            if p.1 < 40 {
                vstd::arithmetic::power2::lemma_pow2_strictly_increases(p.1, 40);
            }
            if p.0 == pow2(p.1) {
                vstd::arithmetic::div_mod::lemma_mod_self_0(pow2(p.1) as int);
            } else {
                vstd::arithmetic::div_mod::lemma_small_mod(p.0, pow2(p.1));
            }
        }
    }
}

/// The local date and time of a timestamp, with the weekday counted in days from Sunday.
#[derive(Clone, Copy, Debug, PartialEq, Eq, Structural)]
pub struct CivilTime {
    pub year: i32,
    pub month: u32,
    pub day: u32,
    pub weekday: u32,
    pub hour: u32,
    pub minute: u32,
    pub second: u32,
}

/// Why a timestamp gives no time for the clock.
#[derive(Clone, Copy, Debug, PartialEq, Eq, Structural)]
pub enum TimestampError {
    /// It is not an RFC 3339 date and time.
    Malformed,
}

/// `chrono::ParseError`, which says why a text is no date and time.
#[verifier::external_type_specification]
#[verifier::external_body]
pub struct ExParseError(chrono::ParseError);

/// The local date and time that a text gives by RFC 3339, if it does.
pub uninterp spec fn rfc3339(text: Seq<char>) -> Option<CivilTime>;

/// The number that the decimal digits at `i` and after it write.
pub open spec fn two_digits(text: Seq<char>, i: int) -> int {
    (text[i] as int - '0' as int) * 10 + (text[i + 1] as int - '0' as int)
}

/// The weekday of a date of the Gregorian calendar, in days from Sunday.
pub open spec fn weekday_of(year: int, month: int, day: int) -> int {
    // The year begins with March here, so that the leap day is its last
    let y = if month <= 2 {
        year - 1
    } else {
        year
    };
    let months = (month + 9) % 12;
    (365 * y + y / 4 - y / 100 + y / 400 + (153 * months + 2) / 5 + day + 2) % 7
}

/// The time is the one whose digits are written at the places that RFC 3339 gives them, a leap
/// second counting as the second before it, on the weekday of its date.
pub open spec fn is_written(text: Seq<char>, time: CivilTime) -> bool {
    &&& text.len() >= 20
    &&& time.year == two_digits(text, 0) * 100 + two_digits(text, 2)
    &&& time.month == two_digits(text, 5)
    &&& time.day == two_digits(text, 8)
    &&& time.hour == two_digits(text, 11)
    &&& time.minute == two_digits(text, 14)
    &&& time.second == if two_digits(text, 17) == 60 {
        59
    } else {
        two_digits(text, 17)
    }
    &&& time.weekday == weekday_of(time.year as int, time.month as int, time.day as int)
    &&& 0 <= time.year <= 9999
    &&& 1 <= time.month <= 12
    &&& 1 <= time.day <= 31
    &&& time.hour <= 23
    &&& time.minute <= 59
    &&& time.second <= 59
}

/// `chrono::DateTime::parse_from_rfc3339`, with the result taken apart by the `Datelike` and
/// `Timelike` methods and `Weekday::num_days_from_sunday`. Which texts it accepts has a name,
/// [`rfc3339`]. Of a text that it accepts it is said that the fields are those written in it, and
/// that the weekday is that of the date.
#[verifier::external_body]
pub(crate) fn parse_from_rfc3339(text: &str) -> (time: Result<CivilTime, chrono::ParseError>)
    ensures
        rfc3339(text@) == match time {
            Ok(t) => Some(t),
            Err(_) => None,
        },
        time matches Ok(t) ==> is_written(text@, t),
{
    chrono::DateTime::parse_from_rfc3339(text).map(
        |t|
            CivilTime {
                year: t.year(),
                month: t.month(),
                day: t.day(),
                weekday: t.weekday().num_days_from_sunday(),
                hour: t.hour(),
                minute: t.minute(),
                second: t.second(),
            },
    )
}

impl DayOfWeek {
    /// The day's number, in days from Sunday.
    pub open spec fn number(self) -> int {
        match self {
            DayOfWeek::Sunday => 0,
            DayOfWeek::Monday => 1,
            DayOfWeek::Tuesday => 2,
            DayOfWeek::Wednesday => 3,
            DayOfWeek::Thursday => 4,
            DayOfWeek::Friday => 5,
            DayOfWeek::Saturday => 6,
        }
    }

    /// The day with a number in days from Sunday.
    pub fn from_number(n: u8) -> (day: Option<DayOfWeek>)
        ensures
            day is Some <==> n <= 6,
            day matches Some(d) ==> d.number() == n,
    {
        match n {
            0 => Some(DayOfWeek::Sunday),
            1 => Some(DayOfWeek::Monday),
            2 => Some(DayOfWeek::Tuesday),
            3 => Some(DayOfWeek::Wednesday),
            4 => Some(DayOfWeek::Thursday),
            5 => Some(DayOfWeek::Friday),
            6 => Some(DayOfWeek::Saturday),
            _ => None,
        }
    }
}

impl DateTime {
    /// The fields are in the ranges that a date and a time of day can have.
    pub open spec fn in_range(self) -> bool {
        &&& 1 <= self.month <= 12
        &&& 1 <= self.day <= 31
        &&& self.hour <= 23
        &&& self.minute <= 59
        &&& self.second <= 59
    }

    /// The clock holds this time, each field cut to the bits that the clock has for it.
    pub open spec fn holds(self, time: CivilTime) -> bool {
        &&& self.year as int == time.year as int % 0x1_0000
        &&& self.month as int == time.month as int % 0x100
        &&& self.day as int == time.day as int % 0x100
        &&& self.day_of_week.number() == time.weekday as int % 0x100
        &&& self.hour as int == time.hour as int % 0x100
        &&& self.minute as int == time.minute as int % 0x100
        &&& self.second as int == time.second as int % 0x100
    }

    /// What the clock is set to for a local time; nothing if its weekday is none of the seven.
    pub fn from_civil(time: &CivilTime) -> (datetime: Option<DateTime>)
        ensures
            datetime is Some <==> time.weekday as int % 0x100 <= 6,
            datetime matches Some(d) ==> d.holds(*time),
    {
        let day_of_week_num: u8 = low_byte(time.weekday);
        match DayOfWeek::from_number(day_of_week_num) {
            Some(day_of_week) => Some(
                DateTime {
                    year: low_half(time.year),
                    month: low_byte(time.month),
                    day: low_byte(time.day),
                    day_of_week,
                    hour: low_byte(time.hour),
                    minute: low_byte(time.minute),
                    second: low_byte(time.second),
                },
            ),
            None => None,
        }
    }

    /// What the clock is set to for a timestamp.
    pub fn from_timestamp(text: &str) -> (datetime: Result<DateTime, TimestampError>)
        ensures
            match datetime {
                Ok(d) => rfc3339(text@) matches Some(time) && d.holds(time),
                Err(_) => rfc3339(text@) is None,
            },
            datetime matches Ok(d) ==> {
                &&& d.in_range()
                &&& is_written(text@, rfc3339(text@)->0)
                &&& d.year == two_digits(text@, 0) * 100 + two_digits(text@, 2)
                &&& d.month == two_digits(text@, 5)
                &&& d.day == two_digits(text@, 8)
                &&& d.hour == two_digits(text@, 11)
                &&& d.minute == two_digits(text@, 14)
                &&& d.second == if two_digits(text@, 17) == 60 {
                    59
                } else {
                    two_digits(text@, 17)
                }
                &&& d.day_of_week.number() == weekday_of(
                    d.year as int,
                    d.month as int,
                    d.day as int,
                )
            },
    {
        match parse_from_rfc3339(text) {
            Ok(time) => Ok(DateTime::from_civil(&time).unwrap()),
            Err(_) => Err(TimestampError::Malformed),
        }
    }
}

/// The low eight bits of a number.
fn low_byte(x: u32) -> (r: u8)
    ensures
        r as int == x as int % 0x100,
{
    assert((x & 0xff) == x % 0x100) by (bit_vector);
    (x & 0xff) as u8
}

/// The low sixteen bits of a number in two's complement.
fn low_half(x: i32) -> (r: u16)
    ensures
        r as int == x as int % 0x1_0000,
{
    let wrapped: u16 = #[verifier::truncate]
    (x as u16);
    assert((x as u16) as int == x as int % 0x1_0000) by (bit_vector);
    wrapped
}

} // verus!
