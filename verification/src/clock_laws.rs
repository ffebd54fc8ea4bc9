//! What holds of the clock: the fraction of the day that has passed, the time that a timestamp sets,
//! and the order of the days.
use crate::binary32;
use crate::clock;
use crate::clock::{CivilTime, DateTime, DayOfWeek};
use crate::single;
use crate::single::{Single, Value};
use crate::sky_laws;
use vstd::arithmetic::power2::pow2;
use vstd::prelude::*;

verus! {

/// The fraction of the day that has passed is the number of seconds since midnight over 86400, by
/// the hour, the minute and the second: whole days are left out, and what is left is off by no
/// more than 2^-24 of the whole, and at a time of day by no more than 2^-25.
pub proof fn law_fraction_of_day(t: DateTime, time: Single) -> (days: nat)
    requires
        time.equals(clock::time_fraction(t.seconds_since_midnight())),
    ensures
        ({
            let seconds = t.hour * 3600 + t.minute * 60 + t.second;
            match time.value() {
                Value::Finite { negative, mant, exponent } => {
                    let unit = pow2((-exponent) as nat);
                    let off = (mant + days * unit) * 86400 - seconds * unit;
                    &&& !negative
                    &&& -149 <= exponent <= 0
                    &&& mant < unit
                    &&& -(seconds * unit) <= 0x100_0000 * off <= seconds * unit
                    &&& seconds < 86400 ==> days == 0 && -(86400 * unit) <= 0x200_0000 * off
                        <= 86400 * unit
                },
                _ => false,
            }
        }),
{
    let seconds = t.seconds_since_midnight();
    let f = clock::time_fraction(seconds);
    let days = lemma_fraction(seconds);
    let p = pow2(f.1);
    vstd::arithmetic::power2::lemma_pow2_pos(f.1);
    match time.value() {
        Value::Finite { negative, mant, exponent } => {
            let m = mant as nat;
            let unit = pow2((-exponent) as nat);
            vstd::arithmetic::power2::lemma_pow2_pos((-exponent) as nat);
            assert(m < unit) by (nonlinear_arith)
                requires
                    m * p == f.0 * unit,
                    f.0 < p,
                    unit > 0,
            ;
            lemma_other_unit(f.0, p, m, unit, days, seconds);
        },
        _ => {},
    }
    days
}

/// The fraction, with the whole days, is the quotient of the seconds since midnight and 86400,
/// rounded once to the nearest number of 24 bits.
pub proof fn law_fraction_is_rounded_once(t: DateTime, time: Single) -> (r: ((nat, nat), nat))
    requires
        time.equals(clock::time_fraction(t.seconds_since_midnight())),
    ensures
        ({
            let (quotient, days) = r;
            let seconds = t.hour * 3600 + t.minute * 60 + t.second;
            match time.value() {
                Value::Finite { negative, mant, exponent } => {
                    let unit = pow2((-exponent) as nat);
                    &&& seconds > 0 ==> binary32::is_nearest(quotient, seconds as nat, 86400)
                    &&& seconds == 0 ==> quotient == (0nat, 0nat)
                    &&& (mant + days * unit) * pow2(quotient.1) == quotient.0 * unit
                    &&& mant < unit
                },
                _ => false,
            }
        }),
{
    vstd::arithmetic::power2::lemma2_to64();
    let seconds = t.seconds_since_midnight();
    law_fraction_of_day(t, time);
    let f = clock::time_fraction(seconds);
    let q = binary32::rounded(seconds, 86400);
    binary32::law_rounding(seconds, 86400);
    let d = lemma_fraction_exact(seconds);
    let p = pow2(f.1);
    let u = pow2(q.1);
    vstd::arithmetic::power2::lemma_pow2_pos(f.1);
    match time.value() {
        Value::Finite { negative, mant, exponent } => {
            let m = mant as nat;
            let unit = pow2((-exponent) as nat);
            let g = m + d * unit;
            let h = f.0 + d * p;
            assert(g * p == h * unit) by (nonlinear_arith)
                requires
                    m * p == f.0 * unit,
                    g == m + d * unit,
                    h == f.0 + d * p,
            ;
            let gu = g * u;
            let qu = q.0 * unit;
            assert(gu * p == qu * p) by {
                assert(gu * p == (g * p) * u) by (nonlinear_arith)
                    requires
                        gu == g * u,
                ;
                assert((h * unit) * u == (h * u) * unit) by (nonlinear_arith);
                assert((q.0 * p) * unit == qu * p) by (nonlinear_arith)
                    requires
                        qu == q.0 * unit,
                ;
            }
            assert(gu == qu) by (nonlinear_arith)
                requires
                    gu * p == qu * p,
                    p > 0,
            ;
        },
        _ => {},
    }
    (q, d)
}

/// The fraction, with the whole days, equals the rounded quotient.
proof fn lemma_fraction_exact(seconds: nat) -> (days: nat)
    requires
        seconds < 0x10_0000,
    ensures
        ({
            let f = clock::time_fraction(seconds);
            let q = binary32::rounded(seconds, 86400);
            (f.0 + days * pow2(f.1)) * pow2(q.1) == q.0 * pow2(f.1)
        }),
{
    vstd::arithmetic::power2::lemma2_to64();
    let f = clock::time_fraction(seconds);
    let q = binary32::quotient((seconds, 0), (86400, 0));
    let r = binary32::product(q, (1, 0));
    assert(seconds * pow2(0) == seconds && 86400 * pow2(0) == 86400 && q.0 * 1 == q.0)
        by (nonlinear_arith)
        requires
            pow2(0) == 1,
    ;
    assert(q == binary32::rounded(seconds, 86400));
    assert(r == binary32::rounded(q.0, pow2(q.1)));
    let p = pow2(r.1);
    assert(1 * p == p);
    assert(f == (r.0 % p, r.1));
    vstd::arithmetic::power2::lemma_pow2_pos(r.1);
    vstd::arithmetic::div_mod::lemma_fundamental_div_mod(r.0 as int, p as int);
    let days = r.0 / p;
    assert(f.0 + days * p == r.0) by (nonlinear_arith)
        requires
            r.0 == p * days + f.0,
    ;
    if seconds == 0 {
        assert(q == (0nat, 0nat) && r == (0nat, 0nat));
        assert(0 * pow2(0) == 0) by (nonlinear_arith);
    } else {
        binary32::law_rounding(seconds, 86400);
        if q.1 == 0 {
            assert(false);
        }
        sky_laws::lemma_rounded_exact(q.0, q.1);
    }
    days
}

/// Equal hours, minutes and seconds give the same fraction, whatever the dates.
pub proof fn law_date_does_not_matter(t: DateTime, u: DateTime, of_t: Single, of_u: Single)
    requires
        t.hour == u.hour,
        t.minute == u.minute,
        t.second == u.second,
        of_t.equals(clock::time_fraction(t.seconds_since_midnight())),
        of_u.equals(clock::time_fraction(u.seconds_since_midnight())),
    ensures
        of_t == of_u,
{
    single::law_bits_are_unique(of_t, of_u, clock::time_fraction(t.seconds_since_midnight()));
}

/// The error of a fraction does not depend on how it is written.
proof fn lemma_other_unit(f: nat, p: nat, m: nat, unit: nat, days: nat, seconds: nat)
    requires
        p > 0,
        unit > 0,
        m * p == f * unit,
        -(seconds * p) <= 0x100_0000 * ((f + days * p) * 86400 - seconds * p) <= seconds * p,
    ensures
        -(seconds * unit) <= 0x100_0000 * ((m + days * unit) * 86400 - seconds * unit) <= seconds
            * unit,
        -(86400 * p) <= 0x200_0000 * ((f + days * p) * 86400 - seconds * p) <= 86400 * p
            ==> -(86400 * unit) <= 0x200_0000 * ((m + days * unit) * 86400 - seconds * unit)
            <= 86400 * unit,
{
    let e = (f + days * p) * 86400 - seconds * p;
    let o = (m + days * unit) * 86400 - seconds * unit;
    assert(o * p == e * unit) by (nonlinear_arith)
        requires
            m * p == f * unit,
            e == (f + days * p) * 86400 - seconds * p,
            o == (m + days * unit) * 86400 - seconds * unit,
    ;
    lemma_rescaled(e, p, o, unit, 0x100_0000, seconds);
    if -(86400 * p) <= 0x200_0000 * e <= 86400 * p {
        lemma_rescaled(e, p, o, unit, 0x200_0000, 86400);
    }
}

proof fn lemma_rescaled(e: int, p: nat, o: int, unit: nat, c: nat, s: nat)
    requires
        p > 0,
        o * p == e * unit,
        -(s * p) <= c * e <= s * p,
    ensures
        -(s * unit) <= c * o <= s * unit,
{
    assert((c * o) * p == (c * e) * unit) by (nonlinear_arith)
        requires
            o * p == e * unit,
    ;
    let x = c * o;
    let y = c * e;
    assert(y * unit <= (s * unit) * p && y * unit >= -((s * unit) * p)) by (nonlinear_arith)
        requires
            -(s * p) <= y <= s * p,
    ;
    let z = s * unit;
    assert(-z <= x <= z) by (nonlinear_arith)
        requires
            x * p <= z * p,
            x * p >= -(z * p),
            p > 0,
    ;
}

/// How far the single-precision fraction is off.
proof fn lemma_fraction(seconds: nat) -> (days: nat)
    requires
        seconds < 0x10_0000,
    ensures
        ({
            let f = clock::time_fraction(seconds);
            let p = pow2(f.1);
            let off = (f.0 + days * p) * 86400 - seconds * p;
            &&& f.0 < p
            &&& -(seconds * p) <= 0x100_0000 * off <= seconds * p
            &&& seconds < 86400 ==> days == 0 && -(86400 * p) <= 0x200_0000 * off <= 86400 * p
        }),
{
    vstd::arithmetic::power2::lemma2_to64();
    let f = clock::time_fraction(seconds);
    let q = binary32::quotient((seconds, 0), (86400, 0));
    let r = binary32::product(q, (1, 0));
    assert(seconds * pow2(0) == seconds && 86400 * pow2(0) == 86400 && q.0 * 1 == q.0)
        by (nonlinear_arith)
        requires
            pow2(0) == 1,
    ;
    assert(q == binary32::rounded(seconds, 86400));
    assert(r == binary32::rounded(q.0, pow2(q.1)));
    let p = pow2(r.1);
    assert(1 * p == p);
    assert(f == (r.0 % p, r.1));
    vstd::arithmetic::power2::lemma_pow2_pos(r.1);
    if seconds == 0 {
        assert(r == (0nat, 0nat));
        assert(0nat % p == 0);
        0
    } else {
        binary32::law_rounding(seconds, 86400);
        let u = pow2(q.1);
        vstd::arithmetic::power2::lemma_pow2_pos(q.1);
        if q.1 == 0 {
            assert(false);
        }
        sky_laws::lemma_rounded_exact(q.0, q.1);
        vstd::arithmetic::div_mod::lemma_fundamental_div_mod(r.0 as int, p as int);
        let days = r.0 / p;
        assert(f.0 + days * p == r.0) by (nonlinear_arith)
            requires
                r.0 == p * days + f.0,
        ;
        let e = q.0 * 86400 - seconds * u;
        let o = r.0 * 86400 - seconds * p;
        assert(o * u == e * p) by (nonlinear_arith)
            requires
                r.0 * u == q.0 * p,
                e == q.0 * 86400 - seconds * u,
                o == r.0 * 86400 - seconds * p,
        ;
        lemma_rescaled(e, u, o, p, 0x100_0000, seconds);
        if seconds < 86400 {
            if q.1 < 24 {
                if q.1 < 23 {
                    vstd::arithmetic::power2::lemma_pow2_strictly_increases(q.1, 23);
                }
                assert(seconds * u <= 86399 * 0x80_0000) by (nonlinear_arith)
                    requires
                        seconds <= 86399,
                        u <= 0x80_0000,
                ;
                assert(false);
            }
            if q.1 > 24 {
                vstd::arithmetic::power2::lemma_pow2_strictly_increases(24, q.1);
            }
            lemma_rescaled(e, u, o, p, 0x200_0000, 86400);
            assert(days == 0) by {
                assert(seconds * p <= 86399 * p) by (nonlinear_arith)
                    requires
                        seconds <= 86399,
                ;
                assert(r.0 < p);
                vstd::arithmetic::div_mod::lemma_basic_div(r.0 as int, p as int);
            }
        }
        days
    }
}

/// What the clock holds of a time whose fields fit it is that time, field by field.
pub proof fn law_clock_holds_the_time(d: DateTime, time: CivilTime)
    requires
        d.holds(time),
    ensures
        0 <= time.year < 0x1_0000 ==> d.year == time.year,
        time.month < 0x100 ==> d.month == time.month,
        time.day < 0x100 ==> d.day == time.day,
        time.hour < 0x100 ==> d.hour == time.hour,
        time.minute < 0x100 ==> d.minute == time.minute,
        time.second < 0x100 ==> d.second == time.second,
        time.weekday == 0 ==> d.day_of_week == DayOfWeek::Sunday,
        time.weekday == 1 ==> d.day_of_week == DayOfWeek::Monday,
        time.weekday == 2 ==> d.day_of_week == DayOfWeek::Tuesday,
        time.weekday == 3 ==> d.day_of_week == DayOfWeek::Wednesday,
        time.weekday == 4 ==> d.day_of_week == DayOfWeek::Thursday,
        time.weekday == 5 ==> d.day_of_week == DayOfWeek::Friday,
        time.weekday == 6 ==> d.day_of_week == DayOfWeek::Saturday,
{
}

/// A time sets the clock to one thing only, also where a field is cut.
pub proof fn law_clock_is_set_one_way(d: DateTime, other: DateTime, time: CivilTime)
    requires
        d.holds(time),
        other.holds(time),
    ensures
        d == other,
        (time.year - d.year) % 0x1_0000 == 0,
        (time.month - d.month) % 0x100 == 0,
        (time.day - d.day) % 0x100 == 0,
        (time.hour - d.hour) % 0x100 == 0,
        (time.minute - d.minute) % 0x100 == 0,
        (time.second - d.second) % 0x100 == 0,
{
}

/// A date and time in range has one of twelve months, one of 31 days and a time of day.
pub proof fn law_range_of_date_and_time(d: DateTime)
    ensures
        d.in_range() <==> 1 <= d.month <= 12 && 1 <= d.day <= 31 && d.hour < 24 && d.minute < 60
            && d.second < 60,
{
}

/// The days of the week in their order, from Sunday on.
pub proof fn law_days_of_the_week(day: DayOfWeek)
    ensures
        day.number() == 0 <==> day == DayOfWeek::Sunday,
        day.number() == 1 <==> day == DayOfWeek::Monday,
        day.number() == 2 <==> day == DayOfWeek::Tuesday,
        day.number() == 3 <==> day == DayOfWeek::Wednesday,
        day.number() == 4 <==> day == DayOfWeek::Thursday,
        day.number() == 5 <==> day == DayOfWeek::Friday,
        day.number() == 6 <==> day == DayOfWeek::Saturday,
        0 <= day.number() <= 6,
{
}

/// Two decimal digits write the number of their tens and units.
pub proof fn law_two_digits(text: Seq<char>, i: int, tens: int, units: int)
    requires
        0 <= i < text.len() - 1,
        text[i] as int == 48 + tens,
        text[i + 1] as int == 48 + units,
    ensures
        clock::two_digits(text, i) == 10 * tens + units,
{
}

/// What is written in a timestamp is found at its places: the four digits of the year at 0, and two
/// digits each of the month at 5, the day at 8, the hour at 11, the minute at 14 and the second at
/// 17.
pub proof fn law_written_time(text: Seq<char>, time: CivilTime)
    requires
        clock::is_written(text, time),
    ensures
        text.len() >= 20,
        time.year == clock::two_digits(text, 0) * 100 + clock::two_digits(text, 2),
        time.month == clock::two_digits(text, 5),
        time.day == clock::two_digits(text, 8),
        time.hour == clock::two_digits(text, 11),
        time.minute == clock::two_digits(text, 14),
        clock::two_digits(text, 17) < 60 ==> time.second == clock::two_digits(text, 17),
        clock::two_digits(text, 17) == 60 ==> time.second == 59,
        time.hour < 24 && time.minute < 60 && time.second < 60,
        time.weekday == clock::weekday_of(time.year as int, time.month as int, time.day as int),
{
}

/// The number of days of a month.
pub open spec fn days_of_month(year: int, month: int) -> int {
    if month == 2 {
        if year % 4 == 0 && year % 100 != 0 || year % 400 == 0 {
            29
        } else {
            28
        }
    } else if month == 4 || month == 6 || month == 9 || month == 11 {
        30
    } else {
        31
    }
}

/// Within a month each date has the weekday after that of the date before it.
pub proof fn law_weekdays_follow_each_other(year: int, month: int, day: int)
    requires
        1 <= month <= 12,
    ensures
        0 <= clock::weekday_of(year, month, day) <= 6,
        clock::weekday_of(year, month, day + 1) == (clock::weekday_of(year, month, day) + 1) % 7,
{
    lemma_weekday(year, month, day);
    lemma_weekday(year, month, day + 1);
    reveal(serial);
    lemma_next_weekday(serial(year, month, day));
}

/// The first of a month has the weekday after that of the last of the month before, by the lengths
/// of the months in the Gregorian calendar.
pub proof fn law_weekdays_go_on_from_month_to_month(year: int, month: int)
    requires
        1 <= month < 12,
    ensures
        clock::weekday_of(year, month + 1, 1) == (clock::weekday_of(
            year,
            month,
            days_of_month(year, month),
        ) + 1) % 7,
{
    let last = days_of_month(year, month);
    lemma_weekday(year, month + 1, 1);
    lemma_weekday(year, month, last);
    lemma_next_month(year, month);
    lemma_next_weekday(serial(year, month, last));
}

/// New Year's Day has the weekday after that of New Year's Eve. The first of January 2000 was a
/// Saturday.
pub proof fn law_weekdays_go_on_from_year_to_year(year: int)
    ensures
        clock::weekday_of(year + 1, 1, 1) == (clock::weekday_of(year, 12, 31) + 1) % 7,
        clock::weekday_of(2000, 1, 1) == 6,
{
    lemma_weekday(year + 1, 1, 1);
    lemma_weekday(year, 12, 31);
    assert(serial(year + 1, 1, 1) == serial(year, 12, 31) + 1) by {
        reveal(serial);
        assert((12 + 9) % 12 == 9 && (1 + 9) % 12 == 10);
    }
    lemma_next_weekday(serial(year, 12, 31));
    lemma_weekday(2000, 1, 1);
    assert(serial(2000, 1, 1) % 7 == 6) by {
        reveal(serial);
    }
}

/// The weekday goes by the count of all days.
#[verifier::spinoff_prover]
proof fn lemma_weekday(year: int, month: int, day: int)
    ensures
        clock::weekday_of(year, month, day) == serial(year, month, day) % 7,
        0 <= clock::weekday_of(year, month, day) <= 6,
{
    reveal(serial);
}

/// The number of a date in the count of all days.
#[verifier::opaque]
spec fn serial(year: int, month: int, day: int) -> int {
    let y = if month <= 2 {
        year - 1
    } else {
        year
    };
    365 * y + y / 4 - y / 100 + y / 400 + (153 * ((month + 9) % 12) + 2) / 5 + day + 2
}

proof fn lemma_next_weekday(n: int)
    ensures
        (n + 1) % 7 == (n % 7 + 1) % 7,
{
}

/// The first of a month is the day after the last of the month before.
proof fn lemma_next_month(year: int, month: int)
    requires
        1 <= month < 12,
    ensures
        serial(year, month + 1, 1) == serial(year, month, days_of_month(year, month)) + 1,
{
    reveal(serial);
    if month == 2 {
        assert((3 + 9) % 12 == 0 && (2 + 9) % 12 == 11);
        lemma_leap_year(year);
    } else if month == 1 {
        assert((1 + 9) % 12 == 10 && (2 + 9) % 12 == 11);
    } else {
        assert((month + 9) % 12 == month - 3 && (month + 1 + 9) % 12 == month - 2);
    }
}

/// The leap days up to a year.
proof fn lemma_leap_year(year: int)
    ensures
        ({
            let before = (year - 1) / 4 - (year - 1) / 100 + (year - 1) / 400;
            let up_to = year / 4 - year / 100 + year / 400;
            up_to - before == days_of_month(year, 2) - 28
        }),
{
    let q = year / 400;
    let r = year % 400;
    let c = r / 100;
    let s = r % 100;
    assert(year / 100 == 4 * q + c);
    assert(year / 4 == 100 * q + 25 * c + s / 4);
    assert(year % 100 == s);
    assert(year % 4 == s % 4);
    if r > 0 {
        assert((year - 1) / 400 == q);
    } else {
        assert((year - 1) / 400 == q - 1);
    }
    if s > 0 {
        assert((year - 1) / 100 == 4 * q + c);
    } else {
        assert((year - 1) / 100 == 4 * q + c - 1);
    }
    if s % 4 > 0 {
        assert((year - 1) / 4 == year / 4);
    } else {
        assert((year - 1) / 4 == year / 4 - 1);
    }
}

} // verus!
