//! What holds of the sky as a whole: the course of the sun, which keeps to the clock in spite of
//! rounding, the shades of the sky, and the place of the stars.
use crate::binary32;
use crate::clock;
use crate::clock::DateTime;
use crate::single::{Single, Value};
use crate::sky;
use crate::sky::Sun;
use crate::stars;
use vstd::arithmetic::power2::pow2;
use vstd::prelude::*;

verus! {

/// Seconds that the sun takes from one LED to the next.
pub const SECONDS_PER_LED: u32 = 600;

/// The sun is where the time says, whichever way the time is written as a fraction.
pub proof fn law_sun_goes_by_the_time(time: Single, t: (nat, nat))
    requires
        time.equals(t),
    ensures
        sky::sun_of(time.value()) == sky::sun_at(t),
        sky::sun_of(time.value()).lower_led == sky::lower_led(t),
        sky::sun_of(time.value()).lower_brightness == sky::brightness(
            binary32::difference((1, 0), sky::sun_fraction(t)),
        ),
        sky::sun_of(time.value()).upper_brightness == sky::brightness(sky::sun_fraction(t)),
{
    match time.value() {
        Value::Finite { negative, mant, exponent } => {
            let s = (mant as nat, (-exponent) as nat);
            sky::lemma_same_place(s, t);
            sky::lemma_place(s);
            sky::lemma_fraction(sky::led_index(t));
            sky::lemma_sun_brightness(sky::led_index(t));
        },
        _ => {},
    }
}

/// The time of day is one that a clock shows.
pub open spec fn is_time_of_day(t: DateTime) -> bool {
    t.hour < 24 && t.minute < 60 && t.second < 60
}

/// Rounding a number of 24 significant bits changes nothing.
pub proof fn lemma_rounded_exact(m: nat, s: nat)
    requires
        binary32::MANT_MIN <= m <= binary32::MANT_MAX,
        s > 0,
    ensures
        binary32::rounded(m, pow2(s)).0 * pow2(s) == m * pow2(binary32::rounded(m, pow2(s)).1),
        binary32::rounded(m, pow2(s)).1 <= s,
{
    let a = pow2(s);
    vstd::arithmetic::power2::lemma2_to64();
    vstd::arithmetic::power2::lemma_pow2_unfold(s);
    vstd::arithmetic::power2::lemma_pow2_pos((s - 1) as nat);
    binary32::lemma_rounded(m, a);
    let (n, e) = binary32::rounded(m, a);
    let b = pow2(e);
    if e > s {
        vstd::arithmetic::power2::lemma_pow2_unfold(e);
        if e > s + 1 {
            vstd::arithmetic::power2::lemma_pow2_strictly_increases(s, (e - 1) as nat);
        }
        assert(m * b >= 0x100_0000 * a) by (nonlinear_arith)
            requires
                m >= 0x80_0000,
                b >= 2 * a,
        ;
    }
    if e + 1 < s {
        vstd::arithmetic::power2::lemma_pow2_strictly_increases(e, (s - 1) as nat);
        assert(m * b < 0x80_0000 * a) by (nonlinear_arith)
            requires
                m <= 0x100_0000,
                2 * b < a,
        ;
    }
    if e == s {
        assert(m * b == a * m) by (nonlinear_arith)
            requires
                b == a,
        ;
        vstd::arithmetic::div_mod::lemma_fundamental_div_mod_converse(
            (m * b) as int,
            a as int,
            m as int,
            0,
        );
    } else {
        assert(a == 2 * b);
        assert(m == 0x100_0000) by (nonlinear_arith)
            requires
                0x80_0000 * a <= m * b,
                a == 2 * b,
                b > 0,
                m <= 0x100_0000,
        ;
        assert(m * b == a * 0x80_0000) by (nonlinear_arith)
            requires
                m == 0x100_0000,
                a == 2 * b,
        ;
        vstd::arithmetic::div_mod::lemma_fundamental_div_mod_converse(
            (m * b) as int,
            a as int,
            0x80_0000,
            0,
        );
        assert(n == 0x80_0000);
        assert(n * a == m * b) by (nonlinear_arith)
            requires
                m * b == a * n,
        ;
    }
}

/// The place of the sun lies between the LED that is due and the next, and on the former when it
/// is due exactly.
proof fn lemma_course(seconds: nat)
    requires
        0 < seconds < clock::SECONDS_IN_A_DAY,
    ensures
        ({
            let x = sky::led_index(clock::time_fraction(seconds));
            let k = seconds / 600;
            &&& k * pow2(x.1) <= x.0 < (k + 1) * pow2(x.1)
            &&& seconds % 600 == 0 ==> x.0 == k * pow2(x.1)
        }),
{
    vstd::arithmetic::power2::lemma2_to64();
    let k = seconds / 600;
    let r = seconds % 600;

    // The fraction of the day, before and after the multiplication by one
    let q = binary32::quotient((seconds, 0), (86400, 0));
    assert(seconds * pow2(0) == seconds);
    assert(86400 * pow2(0) == 86400);
    assert(q == binary32::rounded(seconds, 86400));
    binary32::lemma_rounded(seconds, 86400);
    let m1 = q.0;
    let a = pow2(q.1);
    vstd::arithmetic::power2::lemma_pow2_pos(q.1);
    binary32::lemma_nearest_even_error(seconds * a, 86400);
    assert(a > 0x80_0000) by (nonlinear_arith)
        requires
            0x80_0000 * 86400 <= seconds * a,
            seconds < 86400,
    ;
    assert(m1 < a) by (nonlinear_arith)
        requires
            2 * (m1 * 86400 - seconds * a) <= 86400,
            seconds <= 86399,
            a > 0x80_0000,
    ;
    let p = binary32::product(q, (1, 0));
    assert(q.0 * 1 == q.0);
    assert(p == binary32::rounded(m1, a));
    if q.1 == 0 {
        assert(false);
    }
    lemma_rounded_exact(m1, q.1);
    let b = pow2(p.1);
    vstd::arithmetic::power2::lemma_pow2_pos(p.1);
    assert(p.0 < b) by (nonlinear_arith)
        requires
            p.0 * a == m1 * b,
            m1 < a,
            b > 0,
    ;
    let f = clock::time_fraction(seconds);
    assert(f == (p.0 % (1 * b), p.1));
    vstd::arithmetic::div_mod::lemma_small_mod(p.0, b);
    assert(f == p);

    // The place on the strip
    let y = binary32::product(f, (144, 0));
    assert(y == binary32::rounded(p.0 * 144, b));
    assert(p.0 > 0) by (nonlinear_arith)
        requires
            p.0 * a == m1 * b,
            m1 > 0,
            b > 0,
    ;
    binary32::lemma_rounded(p.0 * 144, b);
    let m2 = y.0;
    let d = pow2(y.1);
    vstd::arithmetic::power2::lemma_pow2_pos(y.1);
    let num = (p.0 * 144) * d;
    binary32::lemma_nearest_even_error(num, b);
    assert(d > 58000) by (nonlinear_arith)
        requires
            0x80_0000 * b <= (p.0 * 144) * d,
            p.0 < b,
            b > 0,
    ;
    let w = 144 * m1 * d;
    assert(num * a == w * b) by (nonlinear_arith)
        requires
            num == (p.0 * 144) * d,
            w == 144 * m1 * d,
            p.0 * a == m1 * b,
    ;
    assert(-(a as int) <= 2 * (m2 * a - w) <= a) by (nonlinear_arith)
        requires
            -(b as int) <= 2 * (m2 * b - num) <= b,
            num * a == w * b,
            b > 0,
            a > 0,
    ;
    lemma_course_bounds(seconds, k, r, a, d, m1, m2);
    if r == 0 {
        lemma_course_exact(k, q.1, y.1, m1, p.0, p.1);
    }
    assert(m2 < 144 * d) by (nonlinear_arith)
        requires
            m2 < (k + 1) * d,
            k <= 143,
            d > 0,
    ;
    vstd::arithmetic::div_mod::lemma_small_mod(m2, (144 * d) as nat);
    assert(sky::led_index(f) == (m2 % (144 * d), y.1));
}

/// The two rounding errors together are less than the sun's way in a second.
proof fn lemma_course_bounds(seconds: nat, k: nat, r: nat, a: nat, d: nat, m1: nat, m2: nat)
    requires
        seconds == 600 * k + r,
        r < 600,
        a > 0x80_0000,
        d > 58000,
        -86400 <= 2 * (m1 * 86400 - seconds * a) <= 86400,
        -(a as int) <= 2 * (m2 * a - 144 * m1 * d) <= a,
    ensures
        m2 < (k + 1) * d,
        r > 0 ==> m2 > k * d,
{
    let ad = a * d;
    let x = m1 * d;
    let y = m2 * a;
    let z = seconds * a;
    assert(-86400 * d <= 2 * (86400 * x - z * d) <= 86400 * d) by (nonlinear_arith)
        requires
            -86400 <= 2 * (m1 * 86400 - z) <= 86400,
            x == m1 * d,
            d > 0,
    ;
    assert(144 * m1 * d == 144 * x) by (nonlinear_arith)
        requires
            x == m1 * d,
    ;
    assert(z * d == 600 * (k * ad) + r * ad) by (nonlinear_arith)
        requires
            z == seconds * a,
            seconds == 600 * k + r,
            ad == a * d,
    ;
    assert(86400 * d + 600 * a < 2 * ad) by (nonlinear_arith)
        requires
            ad == a * d,
            a > 0x80_0000,
            d > 58000,
    ;
    assert(r * ad <= 599 * ad) by (nonlinear_arith)
        requires
            r <= 599,
            ad >= 0,
    ;
    assert(y < k * ad + ad);
    assert(m2 < (k + 1) * d) by (nonlinear_arith)
        requires
            m2 * a < k * (a * d) + a * d,
            a > 0,
    ;
    if r > 0 {
        assert(r * ad >= ad) by (nonlinear_arith)
            requires
                r >= 1,
                ad >= 0,
        ;
        assert(y > k * ad);
        assert(m2 > k * d) by (nonlinear_arith)
            requires
                m2 * a > k * (a * d),
                a > 0,
        ;
    }
}

/// Where the sun is due exactly on an LED, the rounding of the product undoes the rounding of the
/// quotient.
proof fn lemma_course_exact(k: nat, s1: nat, s2: nat, m1: nat, m: nat, s: nat)
    requires
        0 < k < 144,
        s1 > 0,
        (m1, s1) == binary32::rounded(600 * k, 86400),
        m * pow2(s1) == m1 * pow2(s),
        m > 0,
        m < pow2(s),
        s2 == binary32::rounded(m * 144, pow2(s)).1,
    ensures
        binary32::rounded(m * 144, pow2(s)).0 == k * pow2(s2),
{
    vstd::arithmetic::power2::lemma2_to64();
    let a = pow2(s1);
    let b = pow2(s);
    let d = pow2(s2);
    vstd::arithmetic::power2::lemma_pow2_pos(s1);
    vstd::arithmetic::power2::lemma_pow2_pos(s);
    vstd::arithmetic::power2::lemma_pow2_pos(s2);

    // The quotient is off by a multiple of 16, and so by at most 64 of its 144 units
    binary32::lemma_rounded(600 * k, 86400);
    binary32::lemma_nearest_even_error((600 * k) * a, 86400);
    assert(a > 0x80_0000) by (nonlinear_arith)
        requires
            0x80_0000 * 86400 <= (600 * k) * a,
            k < 144,
    ;
    if s1 < 4 {
        vstd::arithmetic::power2::lemma_pow2_strictly_increases(s1, 4);
    }
    let a16 = pow2((s1 - 4) as nat);
    vstd::arithmetic::power2::lemma_pow2_adds(4, (s1 - 4) as nat);
    let ka = k * a;
    assert((600 * k) * a == 600 * ka) by (nonlinear_arith)
        requires
            ka == k * a,
    ;
    let e = ka - 144 * m1;
    assert(ka == 16 * (k * a16)) by (nonlinear_arith)
        requires
            ka == k * a,
            a == 16 * a16,
    ;
    assert(-64 <= e <= 64) by {
        let e16 = k * a16 - 9 * m1;
        assert(e == 16 * e16);
        assert(-72 <= e <= 72);
    }

    // The product has seven bits less behind the point
    binary32::lemma_rounded(m * 144, b);
    let num = (m * 144) * d;
    assert(72 * d < a) by (nonlinear_arith)
        requires
            (m * 144) * d < 0x100_0000 * b,
            m * a == m1 * b,
            m1 >= 0x80_0000,
            a > 0,
            b > 0,
            d > 0,
    ;
    if s2 + 6 >= s1 {
        vstd::arithmetic::power2::lemma_pow2_adds(s2, 6);
        if s2 + 6 > s1 {
            vstd::arithmetic::power2::lemma_pow2_strictly_increases(s1, s2 + 6);
        }
        assert(false);
    }
    vstd::arithmetic::power2::lemma_pow2_adds(s2, 7);
    if s2 + 7 < s1 {
        vstd::arithmetic::power2::lemma_pow2_strictly_increases(s2 + 7, s1);
    }
    assert(128 * d <= a);

    // So the nearest number is the whole one
    let kd = k * d;
    assert((kd * b - num) * a == d * (b * e)) by (nonlinear_arith)
        requires
            kd == k * d,
            num == (m * 144) * d,
            m * a == m1 * b,
            e == k * a - 144 * m1,
    ;
    let off = kd * b - num;
    assert(-(b as int) <= 2 * off <= b) by (nonlinear_arith)
        requires
            off * a == d * (b * e),
            -64 <= e <= 64,
            128 * d <= a,
            a > 0,
            b > 0,
            d > 0,
    ;
    assert(d > 58000) by (nonlinear_arith)
        requires
            0x80_0000 * b <= (m * 144) * d,
            m < b,
            b > 0,
    ;
    if s2 == 0 {
        assert(false);
    }
    vstd::arithmetic::power2::lemma_pow2_unfold(s2);
    let half = k * pow2((s2 - 1) as nat);
    assert(kd == 2 * half) by (nonlinear_arith)
        requires
            kd == k * d,
            half == k * pow2((s2 - 1) as nat),
            d == 2 * pow2((s2 - 1) as nat),
    ;
    binary32::lemma_nearest_even_is(num, b, kd);
}

/// The sun goes once round the strip in a day: at each time of day its lower LED is the one that
/// is due, ten minutes for each.
pub proof fn law_sun_keeps_time(t: DateTime, time: Single)
    requires
        is_time_of_day(t),
        time.equals(clock::time_fraction(t.seconds_since_midnight())),
    ensures
        sky::sun_of(time.value()).lower_led == t.seconds_since_midnight() / (
        SECONDS_PER_LED as nat),
{
    law_sun_goes_by_the_time(time, clock::time_fraction(t.seconds_since_midnight()));
    lemma_sun_keeps_time(t);
}

proof fn lemma_sun_keeps_time(t: DateTime)
    requires
        is_time_of_day(t),
    ensures
        sky::lower_led(clock::time_fraction(t.seconds_since_midnight()))
            == t.seconds_since_midnight() / (SECONDS_PER_LED as nat),
{
    let seconds = t.seconds_since_midnight();
    if seconds == 0 {
        lemma_midnight();
    } else {
        lemma_course(seconds);
        let x = sky::led_index(clock::time_fraction(seconds));
        let d = pow2(x.1);
        let k = seconds / 600;
        vstd::arithmetic::power2::lemma_pow2_pos(x.1);
        let r = x.0 - k * d;
        assert(0 <= r < d) by (nonlinear_arith)
            requires
                r == x.0 - k * d,
                k * d <= x.0 < (k + 1) * d,
        ;
        assert(x.0 == k * d + r);
        vstd::arithmetic::div_mod::lemma_fundamental_div_mod_converse(
            x.0 as int,
            d as int,
            k as int,
            r,
        );
    }
}

/// When the sun is due exactly on an LED, that LED has all of its light and the next has none.
pub proof fn law_sun_on_the_mark(t: DateTime, time: Single)
    requires
        is_time_of_day(t),
        time.equals(clock::time_fraction(t.seconds_since_midnight())),
        t.seconds_since_midnight() % (SECONDS_PER_LED as nat) == 0,
    ensures
        sky::sun_of(time.value()).lower_brightness == 127,
        sky::sun_of(time.value()).upper_brightness == 0,
{
    law_sun_goes_by_the_time(time, clock::time_fraction(t.seconds_since_midnight()));
    vstd::arithmetic::power2::lemma2_to64();
    let seconds = t.seconds_since_midnight();
    let x = sky::led_index(clock::time_fraction(seconds));
    let l = sky::lower_led(clock::time_fraction(seconds));
    lemma_sun_keeps_time(t);
    if seconds == 0 {
        lemma_midnight();
    } else {
        lemma_course(seconds);
    }
    assert(x.0 * pow2(0) == x.0) by (nonlinear_arith)
        requires
            pow2(0) == 1,
    ;
    assert(x.0 - l * pow2(x.1) == 0);
    assert(sky::fraction_of(x) == (0nat, 0nat));
    sky::lemma_small_share((0, 0));
    sky::lemma_share((0, 0));
    sky::lemma_near_one(1, 1);
    sky::lemma_full_share(binary32::difference((1, 0), (0, 0)));
}

proof fn lemma_midnight()
    ensures
        sky::led_index(clock::time_fraction(0)) == (0nat, 0nat),
        sky::lower_led(clock::time_fraction(0)) == 0,
{
    vstd::arithmetic::power2::lemma2_to64();
    assert(0 * pow2(0) == 0);
    assert(clock::time_fraction(0) == (0nat, 0nat));
    assert(binary32::product((0, 0), (144, 0)) == (0nat, 0nat));
    assert(144 * pow2(0) == 144);
}

/// The blue of the daylight is `k / 36 * 16` in single precision, cut to an integer, wherever that
/// is not less than 1.
pub proof fn law_sky_gradient(k: nat)
    requires
        k <= 36,
    ensures
        ({
            let ramp = binary32::integer_part(
                binary32::product(binary32::quotient((k, 0), (36, 0)), (16, 0)),
            );
            &&& sky::sky_blue(sky::DAWN + k) == if ramp < 1 {
                1
            } else {
                ramp as int
            }
            &&& sky::sky_blue(sky::DUSK - k) == sky::sky_blue(sky::DAWN + k)
        }),
{
    lemma_ramp(k);
}

/// The ramp in single precision is the ramp in integers.
proof fn lemma_ramp(k: nat)
    requires
        k <= 36,
    ensures
        binary32::integer_part(
            binary32::product(binary32::quotient((k, 0), (36, 0)), (16, 0)),
        ) == k * 16 / 36,
{
    vstd::arithmetic::power2::lemma2_to64();
    let q = binary32::quotient((k, 0), (36, 0));
    assert(k * pow2(0) == k);
    assert(36 * pow2(0) == 36);
    assert(q == binary32::rounded(k, 36));
    let p = binary32::product(q, (16, 0));
    let m = q.0;
    let a = pow2(q.1);
    assert(p == binary32::rounded(m * 16, a));
    if k > 0 {
        binary32::lemma_rounded(k, 36);
        vstd::arithmetic::power2::lemma_pow2_pos(q.1);
        binary32::lemma_nearest_even_error(k * a, 36);
        assert(a >= 0x80_0000) by (nonlinear_arith)
            requires
                0x80_0000 * 36 <= k * a,
                k <= 36,
        ;
        assert(m <= 2 * a) by (nonlinear_arith)
            requires
                2 * (m * 36 - k * a) <= 36,
                k <= 36,
                a >= 0x80_0000,
        ;
        binary32::lemma_rounded(m * 16, a);
        let n = p.0;
        let d = pow2(p.1);
        vstd::arithmetic::power2::lemma_pow2_pos(p.1);
        let num = (m * 16) * d;
        binary32::lemma_nearest_even_error(num, a);
        assert(d >= 0x4_0000) by (nonlinear_arith)
            requires
                0x80_0000 * a <= (m * 16) * d,
                m <= 2 * a,
                a > 0,
        ;
        let c = k * 16 / 36;
        let r = k * 4 % 9;
        assert(k * 4 == 9 * c + r);
        let ad = a * d;
        let x = m * d;
        let ka = k * a;
        assert(-36 * d <= 2 * (36 * x - ka * d) <= 36 * d) by (nonlinear_arith)
            requires
                -36 <= 2 * (m * 36 - ka) <= 36,
                x == m * d,
                d > 0,
        ;
        assert(4 * (ka * d) == 9 * (c * ad) + r * ad) by (nonlinear_arith)
            requires
                k * 4 == 9 * c + r,
                ka == k * a,
                ad == a * d,
        ;
        assert(num == 16 * x) by (nonlinear_arith)
            requires
                num == (m * 16) * d,
                x == m * d,
        ;
        assert(1000 * d + 1000 * a <= ad) by (nonlinear_arith)
            requires
                ad == a * d,
                a >= 0x80_0000,
                d >= 0x4_0000,
        ;
        assert(r * ad <= 8 * ad) by (nonlinear_arith)
            requires
                r <= 8,
                ad >= 0,
        ;
        assert(n * a < c * ad + ad);
        assert(n < (c + 1) * d) by (nonlinear_arith)
            requires
                n * a < c * (a * d) + a * d,
                a > 0,
        ;
        assert(n >= c * d) by {
            if r > 0 {
                assert(r * ad >= ad) by (nonlinear_arith)
                    requires
                        r >= 1,
                        ad >= 0,
                ;
                assert(n * a >= c * ad);
                assert(n >= c * d) by (nonlinear_arith)
                    requires
                        n * a >= c * (a * d),
                        a > 0,
                ;
            } else {
                let j = c / 4;
                assert(k == 9 * j && c == 4 * j);
                if q.1 < 2 {
                    vstd::arithmetic::power2::lemma_pow2_strictly_increases(q.1, 2);
                }
                let a4 = pow2((q.1 - 2) as nat);
                vstd::arithmetic::power2::lemma_pow2_adds(2, (q.1 - 2) as nat);
                let ja = j * a4;
                assert(k * a == ja * 36) by (nonlinear_arith)
                    requires
                        k == 9 * j,
                        a == 4 * a4,
                        ja == j * a4,
                ;
                binary32::lemma_nearest_even_exact(ja, 36);
                assert(m == ja);
                let cd = c * d;
                assert(num == cd * a) by (nonlinear_arith)
                    requires
                        num == (m * 16) * d,
                        m == j * a4,
                        a == 4 * a4,
                        c == 4 * j,
                        cd == c * d,
                ;
                binary32::lemma_nearest_even_exact(cd, a);
            }
        }
        let rest = n - c * d;
        assert(0 <= rest < d) by (nonlinear_arith)
            requires
                rest == n - c * d,
                c * d <= n < (c + 1) * d,
        ;
        vstd::arithmetic::div_mod::lemma_fundamental_div_mod_converse(
            n as int,
            d as int,
            c as int,
            rest,
        );
    } else {
        assert(q == (0nat, 0nat));
        assert(p == (0nat, 0nat));
    }
}

/// The sky is blue from dawn through dusk and black elsewhere.
pub proof fn law_daylight_is_blue(i: int)
    ensures
        sky::DAWN <= i <= sky::DUSK ==> 1 <= sky::sky_blue(i) <= 16,
        i < sky::DAWN || i > sky::DUSK ==> sky::sky_blue(i) == 0,
{
}

/// At each distance from noon the sky is as blue before noon as after.
pub proof fn law_sky_is_symmetric(distance: nat)
    ensures
        sky::sky_blue(sky::NOON - distance) == sky::sky_blue(sky::NOON + distance),
{
}

/// The nearer to noon, the lighter the sky.
pub proof fn law_sky_lightens_towards_noon(near: nat, far: nat)
    requires
        near <= far,
    ensures
        0 <= sky::sky_blue(sky::NOON + far) <= sky::sky_blue(sky::NOON + near) <= 16,
        sky::sky_blue(sky::NOON as int) == 16,
{
}

/// A star never hides the sun.
pub proof fn law_sun_hides_stars(sun: Sun, twinkle: u8, i: int)
    requires
        i == sun.upper_led && sun.upper_brightness > 0 || i == sun.lower_led && i != sun.upper_led
            && sun.lower_brightness > 0,
    ensures
        sky::led_color(sun, twinkle, i) == sky::daylight(sun, i),
{
}

/// No LED between dawn and noon shows a star, whatever the state of the star.
pub proof fn law_no_stars_before_noon(sun: Sun, v: u8, i: int)
    requires
        stars::is_blocked(i),
    ensures
        sky::led_color(sun, stars::glow(v, i) as u8, i) == sky::daylight(sun, i),
{
}

/// The time is not before midnight of the first day.
pub open spec fn is_not_negative(time: Single) -> bool {
    match time.value() {
        Value::Finite { negative, mant, exponent } => !negative,
        _ => true,
    }
}

/// The place of the sun is on the strip.
proof fn lemma_place_is_on_strip(time: Single)
    ensures
        ({
            match time.value() {
                Value::Finite { negative, mant, exponent } => match sky::place(
                    mant as nat,
                    exponent as int,
                ) {
                    Some(p) => p.0 < sky::NUM_LEDS * pow2(p.1),
                    None => true,
                },
                _ => true,
            }
        }),
{
    vstd::arithmetic::power2::lemma2_to64();
    match time.value() {
        Value::Finite { negative, mant, exponent } => {
            if exponent <= 0 {
                sky::lemma_place((mant as nat, (-exponent) as nat));
            }
        },
        _ => {},
    }
}

/// Whatever the time, if it is not negative, and the stars, no colour of an LED is brighter than a
/// star at its peak, which is about half of what an LED can show.
pub proof fn law_frame_is_dim(time: Single, v: u8, i: int)
    requires
        is_not_negative(time),
        0 <= i < sky::NUM_LEDS,
    ensures
        ({
            let color = sky::led_color(sky::sun_of(time.value()), stars::glow(v, i) as u8, i);
            color.r <= stars::PEAK && color.g <= stars::PEAK && color.b <= stars::PEAK
        }),
{
    lemma_place_is_on_strip(time);
    match time.value() {
        Value::Finite { negative, mant, exponent } => match sky::place(
            mant as nat,
            exponent as int,
        ) {
            Some(p) => {
                sky::lemma_sun_brightness(p);
            },
            None => {},
        },
        _ => {},
    }
}

/// Where `x / c` is within `1 / (2 c)` of `v / 2`, a bound of `x / c` from below is nearly one of
/// `v / 2`.
proof fn lemma_from_below(x: nat, c: nat, v: nat, f: nat, u: nat)
    requires
        c >= 60000,
        2 * (x * f) - v * c <= f,
        x >= u * c,
    ensures
        60000 * v >= (2 * u * 60000 - 1) * f,
{
    let uc = u * c;
    assert(v * c >= 2 * (uc * f) - f) by (nonlinear_arith)
        requires
            2 * (x * f) - v * c <= f,
            x >= uc,
    ;
    assert(60000 * v >= (2 * u * 60000 - 1) * f) by (nonlinear_arith)
        requires
            v * c >= 2 * (u * c * f) - f,
            c >= 60000,
    ;
}

/// The same for a bound from above.
proof fn lemma_from_above(x: nat, c: nat, v: nat, f: nat, u: nat)
    requires
        c >= 60000,
        v * c - 2 * (x * f) <= f,
        x < u * c,
    ensures
        60000 * v <= (2 * u * 60000 + 1) * f,
{
    let uc = u * c;
    assert(v * c <= 2 * (uc * f) + f) by (nonlinear_arith)
        requires
            v * c - 2 * (x * f) <= f,
            x <= uc,
    ;
    assert(60000 * v <= (2 * u * 60000 + 1) * f) by (nonlinear_arith)
        requires
            v * c <= 2 * (u * c * f) + f,
            c >= 60000,
    ;
}

/// The brightness for a share of the sun is that share of 127.5, cut to an integer, up to a small
/// error.
pub proof fn lemma_light(f: (nat, nat))
    requires
        sky::is_share(f),
        f.0 > 0,
    ensures
        60000 * (255 * f.0) >= (2 * sky::brightness(f) * 60000 - 1) * pow2(f.1),
        60000 * (255 * f.0) <= (2 * (sky::brightness(f) + 1) * 60000 + 1) * pow2(f.1),
{
    sky::lemma_brightness(f);
    vstd::arithmetic::power2::lemma2_to64();
    let m = f.0;
    let w = pow2(f.1);
    vstd::arithmetic::power2::lemma_pow2_pos(f.1);
    vstd::arithmetic::power2::lemma_pow2_adds(17, f.1);
    let d = pow2(17 + f.1);
    let num = 0xff_0000 * m;
    let p = binary32::product((0xff_0000, 17), f);
    assert(p == binary32::rounded(num, d));
    binary32::lemma_rounded(num, d);
    binary32::law_rounding_error(num, d);
    let x = p.0;
    let c = pow2(p.1);
    vstd::arithmetic::power2::lemma_pow2_pos(p.1);
    let v = 255 * m;
    assert(c >= 60000) by (nonlinear_arith)
        requires
            0x80_0000 * d <= num * c,
            num == 0xff_0000 * m,
            d == 0x2_0000 * w,
            m <= w,
            w > 0,
    ;
    assert(x * d == 0x2_0000 * (x * w)) by (nonlinear_arith)
        requires
            d == 0x2_0000 * w,
    ;
    assert(num * c == 0x1_0000 * (v * c)) by (nonlinear_arith)
        requires
            num == 0xff_0000 * m,
            v == 255 * m,
    ;
    let b = sky::brightness(f);
    assert(b == x / c);
    vstd::arithmetic::div_mod::lemma_fundamental_div_mod(x as int, c as int);
    assert(b * c <= x < (b + 1) * c) by (nonlinear_arith)
        requires
            x == c * b + x % c,
            0 <= x % c < c,
    ;
    lemma_from_below(x, c, v, w, b);
    lemma_from_above(x, c, v, w, b + 1);
}

/// The time is one at which the sun has a place on the strip: it is not negative, and the number
/// of LEDs that the sun has passed is not too great for single precision.
pub open spec fn has_sun(time: Single) -> bool {
    match time.value() {
        Value::Finite { negative, mant, exponent } => !negative && sky::place(
            mant as nat,
            exponent as int,
        ) is Some,
        _ => false,
    }
}

/// The two LEDs share the light of the sun: together they have all of it, but for what cutting
/// their brightness to integers takes away. No other LED shows any red, unless there is a star.
pub proof fn law_sun_light_is_shared(time: Single)
    requires
        has_sun(time),
    ensures
        ({
            let sun = sky::sun_of(time.value());
            let lower = sky::led_color(sun, 0, sun.lower_led as int);
            let upper = sky::led_color(sun, 0, sun.upper_led as int);
            &&& sun.lower_led != sun.upper_led
            &&& lower.r == sun.lower_brightness
            &&& upper.r == sun.upper_brightness
            &&& 126 <= lower.r + upper.r <= 127
            &&& forall|i: int|
                i != sun.lower_led && i != sun.upper_led ==> #[trigger] sky::led_color(
                    sun,
                    0,
                    i,
                ).r == 0
        }),
{
    lemma_place_is_on_strip(time);
    match time.value() {
        Value::Finite { negative, mant, exponent } => match sky::place(
            mant as nat,
            exponent as int,
        ) {
            Some(p) => {
                sky::lemma_fraction(p);
                sky::lemma_sun_brightness(p);
                lemma_light_is_shared(p);
            },
            None => {},
        },
        _ => {},
    }
}

/// The two brightnesses at a place add up to that of the whole sun.
proof fn lemma_light_is_shared(place: (nat, nat))
    requires
        place.0 < sky::NUM_LEDS * pow2(place.1),
    ensures
        126 <= sky::brightness(binary32::difference((1, 0), sky::fraction_of(place)))
            + sky::brightness(sky::fraction_of(place)) <= 127,
{
    sky::lemma_fraction(place);
    let share = sky::fraction_of(place);
    sky::lemma_share(share);
    let rest = binary32::difference((1, 0), share);
    vstd::arithmetic::power2::lemma2_to64();
    let m = share.0;
    let n = rest.0;
    let f = pow2(share.1);
    let e = pow2(rest.1);
    vstd::arithmetic::power2::lemma_pow2_pos(share.1);
    vstd::arithmetic::power2::lemma_pow2_pos(rest.1);
    let num = (f - m) as nat;
    assert(m * pow2(0) == m) by (nonlinear_arith)
        requires
            pow2(0) == 1,
    ;
    assert(rest == binary32::rounded(num, f));
    let u = sky::brightness(share);
    let l = sky::brightness(rest);
    if m > 0 {
        lemma_light(share);
    } else {
        sky::lemma_brightness(share);
        assert(binary32::product((0xff_0000, 17), share) == (0nat, 0nat));
        assert(u == 0);
    }
    if num > 0 {
        binary32::lemma_rounded(num, f);
        binary32::law_rounding_error(num, f);
        lemma_light(rest);
    } else {
        sky::lemma_brightness(rest);
        assert(binary32::product((0xff_0000, 17), rest) == (0nat, 0nat));
        assert(l == 0);
    }
    if m == 0 {
        assert(n == e) by (nonlinear_arith)
            requires
                -(f as int) <= 2 * (n * f - f * e) <= f,
                f > 0,
        ;
        lemma_whole_light(l, e);
    } else if num == 0 {
        lemma_whole_light(u, f);
    } else {
        lemma_shared_light(m, f, n, e, u, l);
    }
}

/// All of the light is a brightness of 127.
proof fn lemma_whole_light(b: nat, w: nat)
    requires
        w > 0,
        60000 * (255 * w) >= (2 * b * 60000 - 1) * w,
        60000 * (255 * w) <= (2 * (b + 1) * 60000 + 1) * w,
    ensures
        b == 127,
{
    assert(2 * b * 60000 - 1 <= 60000 * 255) by (nonlinear_arith)
        requires
            w > 0,
            60000 * (255 * w) >= (2 * b * 60000 - 1) * w,
    ;
    assert(2 * (b + 1) * 60000 + 1 >= 60000 * 255) by (nonlinear_arith)
        requires
            w > 0,
            60000 * (255 * w) <= (2 * (b + 1) * 60000 + 1) * w,
    ;
}

/// Two parts that make up the whole, up to a small error, have the brightness of the whole, up to
/// one for each cut.
proof fn lemma_shared_light(m: nat, f: nat, n: nat, e: nat, u: nat, l: nat)
    requires
        f > 0,
        e >= 0x80_0000,
        m < f,
        -(f as int) <= 2 * (n * f - (f - m) * e) <= f,
        60000 * (255 * m) >= (2 * u * 60000 - 1) * f,
        60000 * (255 * m) <= (2 * (u + 1) * 60000 + 1) * f,
        60000 * (255 * n) >= (2 * l * 60000 - 1) * e,
        60000 * (255 * n) <= (2 * (l + 1) * 60000 + 1) * e,
    ensures
        126 <= u + l <= 127,
{
    let p = n * f;
    let q = m * e;
    let r = e * f;
    let ur = u * r;
    let lr = l * r;
    assert(p + q <= r + f && p + q >= r - f) by (nonlinear_arith)
        requires
            -(f as int) <= 2 * (n * f - (f - m) * e) <= f,
            p == n * f,
            q == m * e,
            r == e * f,
            f > 0,
    ;
    assert(0x80_0000 * f <= r) by (nonlinear_arith)
        requires
            r == e * f,
            e >= 0x80_0000,
    ;
    assert(15300000 * q >= 120000 * ur - r) by (nonlinear_arith)
        requires
            60000 * (255 * m) >= (2 * u * 60000 - 1) * f,
            q == m * e,
            r == e * f,
            ur == u * r,
            e > 0,
    ;
    assert(15300000 * q <= 120000 * ur + 120001 * r) by (nonlinear_arith)
        requires
            60000 * (255 * m) <= (2 * (u + 1) * 60000 + 1) * f,
            q == m * e,
            r == e * f,
            ur == u * r,
            e > 0,
    ;
    assert(15300000 * p >= 120000 * lr - r) by (nonlinear_arith)
        requires
            60000 * (255 * n) >= (2 * l * 60000 - 1) * e,
            p == n * f,
            r == e * f,
            lr == l * r,
            f > 0,
    ;
    assert(15300000 * p <= 120000 * lr + 120001 * r) by (nonlinear_arith)
        requires
            60000 * (255 * n) <= (2 * (l + 1) * 60000 + 1) * e,
            p == n * f,
            r == e * f,
            lr == l * r,
            f > 0,
    ;
    let s = u + l;
    assert(ur + lr == s * r) by (nonlinear_arith)
        requires
            ur == u * r,
            lr == l * r,
            s == u + l,
    ;
    if s >= 128 {
        assert(s * r >= 128 * r) by (nonlinear_arith)
            requires
                s >= 128,
                r >= 0,
        ;
    }
    if s <= 125 {
        assert(s * r <= 125 * r) by (nonlinear_arith)
            requires
                s <= 125,
                r >= 0,
        ;
    }
}

} // verus!
