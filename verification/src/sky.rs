//! What the strip shows: the sky, the sun that crosses it, and the stars.
use crate::binary32;
use crate::binary32::Binary32;
use crate::single::{Single, Value};
use crate::ws2812::RGB8;
use vstd::arithmetic::power2::pow2;
use vstd::prelude::*;

verus! {

/// Number of LEDs on the strip, which stands for one day from midnight to midnight.
pub const NUM_LEDS: usize = 144;

/// First LED of the daylight sky.
pub const DAWN: usize = 36;

/// LED at which the sky is lightest.
pub const NOON: usize = 72;

/// Last LED of the daylight sky.
pub const DUSK: usize = 108;

/// The blue of the sky at the `k`-th LED from the edge of the daylight: a ramp up to 16, but no
/// darker than 1, so that all of the daylight is blue.
pub open spec fn daylight_blue(k: int) -> int {
    if k * 16 / 36 < 1 {
        1
    } else {
        k * 16 / 36
    }
}

/// How blue the sky is at an LED: black at night, lighter up to noon, then symmetrically darker.
pub open spec fn sky_blue(i: int) -> int {
    if i < DAWN || i > DUSK {
        0
    } else if i < NOON {
        daylight_blue(i - DAWN)
    } else {
        daylight_blue(DUSK - i)
    }
}

/// The sky at an LED, without sun and stars: blue from [`DAWN`] through [`DUSK`], black elsewhere.
pub fn sky_color(i: usize) -> (color: RGB8)
    ensures
        color == (RGB8 { r: 0, g: 0, b: sky_blue(i as int) as u8 }),
        DAWN <= i <= DUSK ==> 1 <= color.b <= 16,
        i < DAWN || i > DUSK ==> color.b == 0,
{
    if i < DAWN || i > DUSK {
        RGB8 { r: 0, g: 0, b: 0 }
    } else {
        let ramp: u8 = if i < NOON {
            ((i - DAWN) * 16 / 36) as u8
        } else {
            ((DUSK - i) * 16 / 36) as u8
        };
        let blue: u8 = if ramp < 1 {
            1
        } else {
            ramp
        };
        RGB8 { r: 0, g: 0, b: blue }
    }
}

/// The sun, which lights two neighbouring LEDs.
#[derive(Clone, Copy, Debug, PartialEq, Eq, Structural)]
pub struct Sun {
    pub lower_led: usize,
    pub upper_led: usize,
    pub lower_brightness: u8,
    pub upper_brightness: u8,
}

impl Sun {
    /// Both LEDs are on the strip.
    pub open spec fn wf(self) -> bool {
        self.lower_led < NUM_LEDS && self.upper_led < NUM_LEDS
    }
}

/// How bright the sun is, out of 1.
pub open spec fn global_brightness() -> (nat, nat) {
    (1, 1)
}

/// The place of the sun on the strip, in LEDs, at a time given in days. From 2^24 LEDs on, single
/// precision has integers only.
pub open spec fn led_index(time_scale: (nat, nat)) -> (nat, nat) {
    if time_scale.0 * NUM_LEDS < binary32::MANT_MAX * pow2(time_scale.1) {
        binary32::remainder(binary32::product(time_scale, (NUM_LEDS as nat, 0)), NUM_LEDS as nat)
    } else {
        let leds = binary32::rounded_whole(time_scale.0 * (NUM_LEDS as nat), pow2(time_scale.1));
        (leds % (NUM_LEDS as nat), 0)
    }
}

/// How far the sun has gone from the LED that it has reached to the next.
pub open spec fn fraction_of(place: (nat, nat)) -> (nat, nat) {
    binary32::difference(place, (binary32::integer_part(place), 0))
}

/// The LED that the sun has reached.
pub open spec fn lower_led(time_scale: (nat, nat)) -> nat {
    binary32::integer_part(led_index(time_scale))
}

/// How far the sun has gone from that LED to the next.
pub open spec fn sun_fraction(time_scale: (nat, nat)) -> (nat, nat) {
    fraction_of(led_index(time_scale))
}

/// The brightness of an LED that has the part `share` of the sun.
pub open spec fn brightness(share: (nat, nat)) -> nat {
    let full = binary32::product(global_brightness(), (255, 0));
    binary32::integer_part(binary32::product(full, share))
}

/// A brightness as an LED can show it.
pub open spec fn saturated(b: nat) -> u8 {
    if b < 255 {
        b as u8
    } else {
        255
    }
}

/// The sun at a place on the strip.
pub open spec fn sun_from(place: (nat, nat)) -> Sun {
    let lower_led = binary32::integer_part(place);
    Sun {
        lower_led: lower_led as usize,
        upper_led: ((lower_led + 1) % (NUM_LEDS as nat)) as usize,
        lower_brightness: saturated(brightness(binary32::difference((1, 0), fraction_of(place)))),
        upper_brightness: saturated(brightness(fraction_of(place))),
    }
}

/// The sun at a negative place: it stays on the first LED, the brighter the further away it is.
pub open spec fn sun_before(place: (nat, nat)) -> Sun {
    Sun {
        lower_led: 0,
        upper_led: 1,
        lower_brightness: saturated(brightness(binary32::sum((1, 0), place))),
        upper_brightness: 0,
    }
}

/// The sun at a time, given in days.
pub open spec fn sun_at(time_scale: (nat, nat)) -> Sun {
    sun_from(led_index(time_scale))
}

/// The place of the sun at the time `mant * 2^exponent`; none where the number of LEDs that it has
/// passed is too great for single precision.
pub open spec fn place(mant: nat, exponent: int) -> Option<(nat, nat)> {
    if exponent <= 0 {
        Some(led_index((mant, (-exponent) as nat)))
    } else {
        let leds = binary32::rounded_whole(mant * (NUM_LEDS as nat) * pow2(exponent as nat), 1);
        if leds < pow2(128) {
            Some((leds % (NUM_LEDS as nat), 0))
        } else {
            None
        }
    }
}

/// The sun at any time that single precision knows. At a time without a place it gives no light.
pub open spec fn sun_of(time_scale: Value) -> Sun {
    match time_scale {
        Value::Finite { negative, mant, exponent } => match place(mant as nat, exponent as int) {
            Some(p) => if negative {
                sun_before(p)
            } else {
                sun_from(p)
            },
            None => no_sun(),
        },
        _ => no_sun(),
    }
}

/// Two black LEDs.
pub open spec fn no_sun() -> Sun {
    Sun { lower_led: 0, upper_led: 1, lower_brightness: 0, upper_brightness: 0 }
}

impl Sun {
    /// The sun at a time, given in days.
    pub fn at(time_scale: Single) -> (sun: Self)
        ensures
            sun.wf(),
            sun == sun_of(time_scale.value()),
            sun.upper_led as int == (sun.lower_led + 1) % (NUM_LEDS as int),
    {
        match time_scale.decode() {
            Value::Finite { negative, mant, exponent } => {
                let place: Option<Binary32> = if exponent > 0 {
                    place_of_large(mant, exponent as u32)
                } else {
                    let t: Binary32 = Binary32 { mant, scale: (-exponent) as u32 };
                    if is_tiny(t) {
                        proof {
                            lemma_tiny(t@);
                        }
                        return Sun {
                            lower_led: 0,
                            upper_led: 1,
                            lower_brightness: 127,
                            upper_brightness: 0,
                        };
                    }
                    Some(place_of(t))
                };
                match place {
                    Some(p) => if negative {
                        Sun::before(p)
                    } else {
                        Sun::from_place(p)
                    },
                    None => Sun {
                        lower_led: 0,
                        upper_led: 1,
                        lower_brightness: 0,
                        upper_brightness: 0,
                    },
                }
            },
            _ => Sun { lower_led: 0, upper_led: 1, lower_brightness: 0, upper_brightness: 0 },
        }
    }

    /// The sun at a place on the strip.
    fn from_place(place: Binary32) -> (sun: Self)
        requires
            fits(place@),
        ensures
            sun.wf(),
            sun == sun_from(place@),
            sun.upper_led as int == (sun.lower_led + 1) % (NUM_LEDS as int),
    {
        proof {
            vstd::arithmetic::power2::lemma2_to64();
            lemma_fraction(place@);
            lemma_fits(place@);
        }
        let lower_led: usize = place.truncate() as usize;
        let upper_led: usize = (lower_led + 1) % NUM_LEDS;
        let fraction: Binary32 = place.minus(Binary32::from_integer(lower_led as u32));
        proof {
            lemma_share(fraction@);
        }
        let rest: Binary32 = Binary32::from_integer(1).minus(fraction);
        let lower_brightness: u8 = share_brightness(rest);
        let upper_brightness: u8 = share_brightness(fraction);
        Sun { lower_led, upper_led, lower_brightness, upper_brightness }
    }

    /// The sun at a negative place.
    fn before(place: Binary32) -> (sun: Self)
        requires
            fits(place@),
        ensures
            sun.wf(),
            sun == sun_before(place@),
    {
        proof {
            vstd::arithmetic::power2::lemma2_to64();
            lemma_before(place@);
        }
        let rest: Binary32 = Binary32::from_integer(1).plus(place);
        let lower_brightness: u8 = share_brightness(rest);
        Sun { lower_led: 0, upper_led: 1, lower_brightness, upper_brightness: 0 }
    }
}

/// The time is less than 2^-40 of a day.
fn is_tiny(t: Binary32) -> (r: bool)
    requires
        t.wf(),
    ensures
        r == (t.mant * pow2(40) < pow2(t.scale as nat)),
{
    proof {
        vstd::arithmetic::power2::lemma2_to64();
        vstd::arithmetic::power2::lemma2_to64_rest();
        if t.scale > 64 {
            vstd::arithmetic::power2::lemma_pow2_strictly_increases(64, t.scale as nat);
        }
    }
    t.scale > 64 || t.mant as u128 * 0x100_0000_0000 < binary32::power_of_two(t.scale)
}

/// The place of the sun at a time that is not tiny.
fn place_of(t: Binary32) -> (p: Binary32)
    requires
        t.wf(),
        t.mant * pow2(40) >= pow2(t.scale as nat),
    ensures
        p@ == led_index(t@),
        fits(p@),
{
    proof {
        vstd::arithmetic::power2::lemma2_to64();
        lemma_place_fits(t@);
    }
    let unit: u128 = binary32::power_of_two(t.scale);
    if t.mant as u128 * 144 < 0x100_0000 * unit {
        let leds: Binary32 = Binary32::from_integer(NUM_LEDS as u32);
        t.times(leds).modulo(NUM_LEDS as u32)
    } else {
        let leds: u64 = binary32::round_whole(t.mant as u64 * 144, unit as u64);
        Binary32 { mant: (leds % 144) as u32, scale: 0 }
    }
}

/// The place of the sun at a time of more than 2^23 days.
fn place_of_large(mant: u32, exponent: u32) -> (p: Option<Binary32>)
    requires
        binary32::MANT_MIN <= mant < binary32::MANT_MAX,
        0 < exponent <= 104,
    ensures
        p is Some <==> place(mant as nat, exponent as int) is Some,
        p matches Some(x) ==> place(mant as nat, exponent as int) == Some(x@) && fits(x@),
{
    let leds: u64 = binary32::round_whole(mant as u64 * 144, 1);
    proof {
        vstd::arithmetic::power2::lemma2_to64();
        vstd::arithmetic::power2::lemma2_to64_rest();
        binary32::lemma_rounded_whole_shifts((mant * 144) as nat, exponent as nat);
        lemma_overflow(leds as nat, exponent as nat);
    }
    if exponent >= 95 && leds as u128 >= binary32::power_of_two(128 - exponent) {
        return None;
    }
    let mut r: u64 = leds % 144;
    let mut i: u32 = 0;
    assert(leds * pow2(0) == leds);
    while i < exponent
        invariant
            i <= exponent,
            r == (leds * pow2(i as nat)) as nat % 144,
        decreases exponent - i,
    {
        proof {
            let x = (leds * pow2(i as nat)) as nat;
            vstd::arithmetic::power2::lemma_pow2_unfold((i + 1) as nat);
            assert(leds * pow2((i + 1) as nat) == 2 * x) by (nonlinear_arith)
                requires
                    x == leds * pow2(i as nat),
                    pow2((i + 1) as nat) == 2 * pow2(i as nat),
            ;
            vstd::arithmetic::div_mod::lemma_mul_mod_noop_right(2, x as int, 144);
        }
        r = 2 * r % 144;
        i = i + 1;
    }
    Some(Binary32 { mant: r as u32, scale: 0 })
}

/// The brightness of an LED that has the part `share` of the sun.
fn share_brightness(share: Binary32) -> (b: u8)
    requires
        share.wf(),
        share.scale <= 79,
        share.mant == 0 || share.mant >= binary32::MANT_MIN,
        share.mant <= 145 * pow2(share.scale as nat),
    ensures
        b == saturated(brightness(share@)),
{
    proof {
        vstd::arithmetic::power2::lemma2_to64();
        lemma_brightness(share@);
    }
    let global_brightness: Binary32 = Binary32 { mant: 1, scale: 1 };
    let full: Binary32 = global_brightness.times(Binary32::from_integer(255));
    full.times(share).truncate_to_byte()
}

/// The sun is at most half as bright as an LED can be.
pub proof fn lemma_sun_brightness(place: (nat, nat))
    requires
        place.0 < NUM_LEDS * pow2(place.1),
    ensures
        brightness(binary32::difference((1, 0), fraction_of(place))) <= 127,
        brightness(fraction_of(place)) <= 127,
{
    lemma_fraction(place);
    lemma_share(fraction_of(place));
    lemma_brightness(fraction_of(place));
    lemma_brightness(binary32::difference((1, 0), fraction_of(place)));
}

/// A normalised number from 0 to 1.
pub open spec fn is_share(f: (nat, nat)) -> bool {
    &&& f.0 <= binary32::MANT_MAX
    &&& f.0 <= pow2(f.1)
    &&& f.0 == 0 || f.0 >= binary32::MANT_MIN
}

/// A place on the strip that the integer arithmetic has room for: it is either 0 or not less than
/// 2^-33.
pub open spec fn fits(x: (nat, nat)) -> bool {
    &&& x.0 <= binary32::MANT_MAX
    &&& x.1 <= 56
    &&& x.0 < NUM_LEDS * pow2(x.1)
    &&& x.0 == 0 || x.0 * pow2(33) >= pow2(x.1)
}

/// The place of the sun is on the strip.
pub proof fn lemma_place(t: (nat, nat))
    requires
        t.0 <= binary32::MANT_MAX,
    ensures
        led_index(t).0 <= binary32::MANT_MAX,
        led_index(t).0 < NUM_LEDS * pow2(led_index(t).1),
{
    vstd::arithmetic::power2::lemma2_to64();
    vstd::arithmetic::power2::lemma_pow2_pos(t.1);
    let p = binary32::rounded(t.0 * 144, pow2(t.1));
    if t.0 * 144 < binary32::MANT_MAX * pow2(t.1) {
        assert(binary32::product(t, (144, 0)) == p);
        if t.0 > 0 {
            binary32::lemma_rounded(t.0 * 144, pow2(t.1));
        }
        let d = pow2(p.1);
        vstd::arithmetic::power2::lemma_pow2_pos(p.1);
        vstd::arithmetic::div_mod::lemma_mod_bound(p.0 as int, (144 * d) as int);
        vstd::arithmetic::div_mod::lemma_mod_decreases(p.0, (144 * d) as nat);
    }
}

/// What is left of a place beyond its LED is a share.
pub proof fn lemma_fraction(x: (nat, nat))
    requires
        x.0 < NUM_LEDS * pow2(x.1),
    ensures
        binary32::at_least(x, (binary32::integer_part(x), 0)),
        binary32::integer_part(x) < NUM_LEDS,
        fraction_of(x) == binary32::rounded(x.0 % pow2(x.1), pow2(x.1)),
        is_share(fraction_of(x)),
{
    vstd::arithmetic::power2::lemma2_to64();
    let d = pow2(x.1);
    vstd::arithmetic::power2::lemma_pow2_pos(x.1);
    let l = binary32::integer_part(x);
    let r = x.0 % d;
    vstd::arithmetic::div_mod::lemma_fundamental_div_mod(x.0 as int, d as int);
    assert(l < 144 && x.0 >= l * d) by (nonlinear_arith)
        requires
            x.0 == d * l + r,
            0 <= r < d,
            x.0 < 144 * d,
    ;
    assert(x.0 * pow2(0) == x.0);
    assert(x.0 - l * d == r) by (nonlinear_arith)
        requires
            x.0 == d * l + r,
    ;
    if r > 0 {
        lemma_rounded_share(r, d);
    }
}

/// Rounding keeps a number between 0 and 1 there.
proof fn lemma_rounded_share(num: nat, den: nat)
    requires
        0 < num <= den,
    ensures
        is_share(binary32::rounded(num, den)),
{
    vstd::arithmetic::power2::lemma2_to64();
    binary32::lemma_rounded(num, den);
    assert(num * pow2(0) == num);
    binary32::lemma_rounded_at_most(num, den, 1, 0);
    let f = binary32::rounded(num, den);
    assert(f.0 * pow2(0) == f.0);
}

/// The complement of a share is a share.
pub proof fn lemma_share(f: (nat, nat))
    requires
        is_share(f),
    ensures
        binary32::at_least((1, 0), f),
        binary32::difference((1, 0), f) == binary32::rounded((pow2(f.1) - f.0) as nat, pow2(f.1)),
        is_share(binary32::difference((1, 0), f)),
{
    vstd::arithmetic::power2::lemma2_to64();
    let d = pow2(f.1);
    vstd::arithmetic::power2::lemma_pow2_pos(f.1);
    assert(f.0 * pow2(0) == f.0);
    let num = (d - f.0) as nat;
    if num > 0 {
        lemma_rounded_share(num, d);
    }
}

/// The parts of a place that fits have room, too.
proof fn lemma_fits(x: (nat, nat))
    requires
        fits(x),
    ensures
        fraction_of(x).1 <= 56,
        binary32::difference((1, 0), fraction_of(x)).1 <= 79,
{
    vstd::arithmetic::power2::lemma2_to64();
    vstd::arithmetic::power2::lemma2_to64_rest();
    lemma_fraction(x);
    let d = pow2(x.1);
    vstd::arithmetic::power2::lemma_pow2_pos(x.1);
    let r = x.0 % d;
    let f = fraction_of(x);
    if r > 0 {
        if x.0 < d {
            vstd::arithmetic::div_mod::lemma_small_mod(x.0, d);
        }
        binary32::lemma_rounded_scale(r, d, 33);
    }
    lemma_share(f);
    let num = (pow2(f.1) - f.0) as nat;
    if num > 0 {
        vstd::arithmetic::power2::lemma_pow2_pos(f.1);
        if f.1 < 56 {
            vstd::arithmetic::power2::lemma_pow2_strictly_increases(f.1, 56);
        }
        binary32::lemma_rounded_scale(num, pow2(f.1), 56);
    }
}

/// One more than a place that fits has room, too.
proof fn lemma_before(x: (nat, nat))
    requires
        fits(x),
    ensures
        pow2(x.1) + x.0 * pow2(0) < binary32::MANT_MAX * pow2(x.1),
        ({
            let s = binary32::sum((1, 0), x);
            &&& binary32::MANT_MIN <= s.0 <= binary32::MANT_MAX
            &&& s.1 <= 23
            &&& s.0 <= 145 * pow2(s.1)
        }),
{
    vstd::arithmetic::power2::lemma2_to64();
    let d = pow2(x.1);
    vstd::arithmetic::power2::lemma_pow2_pos(x.1);
    let num = d + x.0;
    assert(x.0 * pow2(0) == x.0 && num * pow2(0) == num) by (nonlinear_arith)
        requires
            pow2(0) == 1,
    ;
    let s = binary32::sum((1, 0), x);
    assert(s == binary32::rounded(num, d));
    binary32::lemma_rounded(num, d);
    binary32::lemma_rounded_scale(num, d, 0);
    binary32::lemma_rounded_at_most(num, d, 145, 0);
    assert(s.0 * pow2(0) == s.0) by (nonlinear_arith)
        requires
            pow2(0) == 1,
    ;
}

/// The place at a time that is not tiny has room.
proof fn lemma_place_fits(t: (nat, nat))
    requires
        t.0 <= binary32::MANT_MAX,
        t.0 * pow2(40) >= pow2(t.1),
    ensures
        t.1 <= 64,
        fits(led_index(t)),
        t.0 * NUM_LEDS < binary32::MANT_MAX * pow2(t.1) ==> binary32::product(
            t,
            (NUM_LEDS as nat, 0),
        ).1 <= 56,
{
    vstd::arithmetic::power2::lemma2_to64();
    vstd::arithmetic::power2::lemma2_to64_rest();
    vstd::arithmetic::power2::lemma_pow2_pos(t.1);
    if t.1 > 64 {
        vstd::arithmetic::power2::lemma_pow2_strictly_increases(64, t.1);
    }
    lemma_place(t);
    if t.0 * 144 < binary32::MANT_MAX * pow2(t.1) {
        let p = binary32::rounded(t.0 * 144, pow2(t.1));
        assert(binary32::product(t, (144, 0)) == p);
        binary32::lemma_rounded(t.0 * 144, pow2(t.1));
        binary32::lemma_rounded_scale(t.0 * 144, pow2(t.1), 33);
        let d = pow2(p.1);
        if p.1 < 56 {
            vstd::arithmetic::power2::lemma_pow2_strictly_increases(p.1, 56);
        }
        if p.0 < 144 * d {
            vstd::arithmetic::div_mod::lemma_small_mod(p.0, (144 * d) as nat);
        }
    }
}

/// When a number of LEDs reaches 2^128.
proof fn lemma_overflow(leds: nat, e: nat)
    requires
        leds < pow2(33),
        0 < e <= 104,
    ensures
        leds * pow2(e) < pow2(128) <==> e < 95 || leds < pow2((128 - e) as nat),
{
    let c = pow2((128 - e) as nat);
    vstd::arithmetic::power2::lemma_pow2_adds(e, (128 - e) as nat);
    vstd::arithmetic::power2::lemma_pow2_pos(e);
    if e < 95 {
        vstd::arithmetic::power2::lemma_pow2_strictly_increases(33, (128 - e) as nat);
    }
    if leds < c {
        assert(leds * pow2(e) < pow2(e) * c) by (nonlinear_arith)
            requires
                leds < c,
                pow2(e) > 0,
        ;
    } else {
        assert(leds * pow2(e) >= pow2(e) * c) by (nonlinear_arith)
            requires
                leds >= c,
        ;
    }
}

/// A share gives at most half of 255, and the computation of a brightness stays in bounds.
pub proof fn lemma_brightness(f: (nat, nat))
    requires
        f.0 <= binary32::MANT_MAX,
        f.0 <= 145 * pow2(f.1),
        f.0 == 0 || f.0 >= binary32::MANT_MIN,
    ensures
        binary32::product(global_brightness(), (255, 0)) == (0xff_0000nat, 17nat),
        0xff_0000 * f.0 < binary32::MANT_MAX * pow2(17 + f.1),
        f.1 <= 79 ==> binary32::product((0xff_0000, 17), f).1 <= binary32::MAX_EXPONENT,
        f.0 <= pow2(f.1) ==> brightness(f) <= 127,
{
    vstd::arithmetic::power2::lemma2_to64();
    vstd::arithmetic::power2::lemma2_to64_rest();
    let full = binary32::product(global_brightness(), (255, 0));
    assert(full == binary32::rounded(255, 2));
    binary32::lemma_scale_is(255, 2, 17);
    let d = pow2(17 + f.1);
    vstd::arithmetic::power2::lemma_pow2_adds(17, f.1);
    vstd::arithmetic::power2::lemma_pow2_pos(f.1);
    let num = 0xff_0000 * f.0;
    let p = binary32::product((0xff_0000, 17), f);
    assert(p == binary32::rounded(num, d));
    if f.0 > 0 {
        binary32::lemma_rounded(num, d);
        if f.1 <= 79 {
            vstd::arithmetic::power2::lemma_pow2_adds(23, 56);
            if f.1 < 79 {
                vstd::arithmetic::power2::lemma_pow2_strictly_increases(f.1, 79);
            }
            assert(d <= num * pow2(56)) by (nonlinear_arith)
                requires
                    num == 0xff_0000 * f.0,
                    f.0 >= 0x80_0000,
                    d == 0x2_0000 * pow2(f.1),
                    pow2(f.1) <= 0x80_0000 * pow2(56),
            ;
            binary32::lemma_rounded_scale(num, d, 56);
        }
        if f.0 <= pow2(f.1) {
            if p.1 == 0 {
                assert(num * pow2(0) == num);
                assert(false);
            }
            binary32::lemma_rounded_at_most(num, d, 255, 1);
            let u = pow2(p.1);
            vstd::arithmetic::power2::lemma_pow2_pos(p.1);
            let b = p.0 / u;
            vstd::arithmetic::div_mod::lemma_fundamental_div_mod(p.0 as int, u as int);
            assert(b <= 127) by (nonlinear_arith)
                requires
                    u > 0,
                    p.0 * 2 <= 255 * u,
                    p.0 == u * b + p.0 % u,
                    p.0 % u >= 0,
            ;
        }
    } else {
        assert(p == (0nat, 0nat));
    }
}

/// All of the sun has a brightness of 127.
pub proof fn lemma_full_share(f: (nat, nat))
    requires
        binary32::MANT_MIN <= f.0 <= binary32::MANT_MAX,
        f.0 == pow2(f.1),
    ensures
        brightness(f) == 127,
{
    vstd::arithmetic::power2::lemma2_to64();
    lemma_brightness(f);
    vstd::arithmetic::power2::lemma_pow2_adds(17, f.1);
    let num = 0xff_0000 * f.0;
    let d = pow2(17 + f.1);
    let p = binary32::product((0xff_0000, 17), f);
    assert(p == binary32::rounded(num, d));
    assert(num * pow2(17) == 0xff_0000 * d);
    binary32::lemma_scale_is(num, d, 17);
    binary32::lemma_nearest_even_exact(0xff_0000, d);
    assert(p == (0xff_0000nat, 17nat));
    assert(brightness(f) == 0xff_0000nat / 0x2_0000nat);
}

/// A small share of the sun gives no light.
pub proof fn lemma_small_share(f: (nat, nat))
    requires
        f.0 == 0 || binary32::MANT_MIN <= f.0 <= binary32::MANT_MAX,
        f.0 * 256 <= pow2(f.1),
    ensures
        brightness(f) == 0,
{
    vstd::arithmetic::power2::lemma2_to64();
    lemma_brightness(f);
    vstd::arithmetic::power2::lemma_pow2_adds(17, f.1);
    let num = 0xff_0000 * f.0;
    let d = pow2(17 + f.1);
    let p = binary32::product((0xff_0000, 17), f);
    assert(p == binary32::rounded(num, d));
    if f.0 > 0 {
        binary32::lemma_rounded(num, d);
        if p.1 == 0 {
            assert(num * pow2(0) == num);
            assert(false);
        }
        binary32::lemma_rounded_at_most(num, d, 1, 1);
        vstd::arithmetic::power2::lemma_pow2_pos(p.1);
        vstd::arithmetic::div_mod::lemma_basic_div(p.0 as int, pow2(p.1) as int);
    }
}

/// What is very near to 1 is rounded to it.
pub proof fn lemma_near_one(num: nat, den: nat)
    requires
        den > 0,
        -(den as int) <= 0x4000_0000 * (num - den) <= den,
    ensures
        ({
            let one = binary32::rounded(num, den);
            &&& binary32::MANT_MIN <= one.0 <= binary32::MANT_MAX
            &&& one.0 == pow2(one.1)
        }),
{
    vstd::arithmetic::power2::lemma2_to64();
    if num < den {
        binary32::lemma_scale_is(num, den, 24);
        binary32::lemma_nearest_even_is(num * pow2(24), den, 0x100_0000);
    } else {
        binary32::lemma_scale_is(num, den, 23);
        binary32::lemma_nearest_even_is(num * pow2(23), den, 0x80_0000);
    }
}

/// Rounding keeps a number below 2^-32 there.
proof fn lemma_rounded_tiny(num: nat, den: nat)
    requires
        0 < num,
        num * pow2(32) <= den,
    ensures
        ({
            let r = binary32::rounded(num, den);
            &&& binary32::MANT_MIN <= r.0 <= binary32::MANT_MAX
            &&& r.0 * pow2(32) <= pow2(r.1)
        }),
{
    vstd::arithmetic::power2::lemma2_to64();
    binary32::lemma_rounded(num, den);
    let r = binary32::rounded(num, den);
    if r.1 < 32 {
        vstd::arithmetic::power2::lemma_pow2_strictly_increases(r.1, 32);
        assert(num * pow2(r.1) <= num * pow2(32)) by (nonlinear_arith)
            requires
                pow2(r.1) <= pow2(32),
        ;
    }
    binary32::lemma_rounded_at_most(num, den, 1, 32);
}

/// At a tiny time, before midnight or after it, all of the sun is on the first LED.
proof fn lemma_tiny(t: (nat, nat))
    requires
        t.0 * pow2(40) < pow2(t.1),
    ensures
        ({
            let sun = Sun {
                lower_led: 0,
                upper_led: 1,
                lower_brightness: 127,
                upper_brightness: 0,
            };
            &&& sun_from(led_index(t)) == sun
            &&& sun_before(led_index(t)) == sun
        }),
{
    vstd::arithmetic::power2::lemma2_to64();
    vstd::arithmetic::power2::lemma2_to64_rest();
    let p = binary32::rounded(t.0 * 144, pow2(t.1));
    assert(binary32::product(t, (144, 0)) == p);
    if t.0 > 0 {
        lemma_rounded_tiny(t.0 * 144, pow2(t.1));
    }
    let d = pow2(p.1);
    vstd::arithmetic::power2::lemma_pow2_pos(p.1);
    vstd::arithmetic::div_mod::lemma_small_mod(p.0, (144 * d) as nat);
    assert(led_index(t) == p);
    vstd::arithmetic::div_mod::lemma_basic_div(p.0 as int, d as int);
    vstd::arithmetic::div_mod::lemma_small_mod(p.0, d);

    lemma_fraction(p);
    let f = fraction_of(p);
    if p.0 > 0 {
        lemma_rounded_tiny(p.0, d);
    }
    lemma_small_share(f);
    lemma_share(f);
    vstd::arithmetic::power2::lemma_pow2_pos(f.1);
    lemma_near_one((pow2(f.1) - f.0) as nat, pow2(f.1));
    lemma_full_share(binary32::difference((1, 0), f));

    assert(p.0 * pow2(0) == p.0) by (nonlinear_arith)
        requires
            pow2(0) == 1,
    ;
    lemma_near_one(d + p.0, d);
    lemma_full_share(binary32::sum((1, 0), p));
}

/// A time has the same place however it is written: both sides of the fraction doubled.
proof fn lemma_place_doubles(t: (nat, nat))
    ensures
        led_index((2 * t.0, t.1 + 1)) == led_index(t),
{
    vstd::arithmetic::power2::lemma2_to64();
    vstd::arithmetic::power2::lemma_pow2_unfold(t.1 + 1);
    vstd::arithmetic::power2::lemma_pow2_pos(t.1);
    let n = t.0 * 144;
    let d = pow2(t.1);
    assert(2 * t.0 * 144 == 2 * n);
    binary32::lemma_rounded_doubles(n, d);
    binary32::lemma_rounded_whole_doubles(n, d);
    assert(binary32::product(t, (144, 0)) == binary32::rounded(n, d));
    assert(binary32::product((2 * t.0, t.1 + 1), (144, 0)) == binary32::rounded(2 * n, 2 * d));
}

/// The same, with both sides multiplied by 2^`k`.
proof fn lemma_place_scales(t: (nat, nat), k: nat)
    ensures
        led_index((t.0 * pow2(k), t.1 + k)) == led_index(t),
    decreases k,
{
    vstd::arithmetic::power2::lemma2_to64();
    if k == 0 {
        assert(t.0 * pow2(0) == t.0) by (nonlinear_arith)
            requires
                pow2(0) == 1,
        ;
    } else {
        let j = (k - 1) as nat;
        lemma_place_scales(t, j);
        lemma_place_doubles((t.0 * pow2(j), t.1 + j));
        vstd::arithmetic::power2::lemma_pow2_unfold(k);
        assert(t.0 * pow2(k) == 2 * (t.0 * pow2(j))) by (nonlinear_arith)
            requires
                pow2(k) == 2 * pow2(j),
        ;
    }
}

/// Equal times have the same place.
pub proof fn lemma_same_place(s: (nat, nat), t: (nat, nat))
    requires
        s.0 * pow2(t.1) == t.0 * pow2(s.1),
    ensures
        led_index(s) == led_index(t),
    decreases
            if s.1 > t.1 {
                1nat
            } else {
                0nat
            },
{
    if s.1 > t.1 {
        lemma_same_place(t, s);
    } else {
        let k = (t.1 - s.1) as nat;
        vstd::arithmetic::power2::lemma_pow2_adds(s.1, k);
        vstd::arithmetic::power2::lemma_pow2_pos(s.1);
        assert(t.0 == s.0 * pow2(k)) by (nonlinear_arith)
            requires
                s.0 * pow2(t.1) == t.0 * pow2(s.1),
                pow2(t.1) == pow2(s.1) * pow2(k),
                pow2(s.1) > 0,
        ;
        lemma_place_scales(s, k);
    }
}

/// The colour that an LED has from the sky and the sun.
pub open spec fn daylight(sun: Sun, i: int) -> RGB8 {
    if i == sun.upper_led {
        RGB8 { r: sun.upper_brightness, g: sun.upper_brightness, b: 0 }
    } else if i == sun.lower_led {
        RGB8 { r: sun.lower_brightness, g: sun.lower_brightness, b: 0 }
    } else {
        RGB8 { r: 0, g: 0, b: sky_blue(i) as u8 }
    }
}

/// The colour of an LED: a star shows in white wherever the sun does not shine.
pub open spec fn led_color(sun: Sun, twinkle: u8, i: int) -> RGB8 {
    if twinkle > 0 && daylight(sun, i).r == 0 {
        RGB8 { r: twinkle, g: twinkle, b: twinkle }
    } else {
        daylight(sun, i)
    }
}

/// Paints one frame.
pub fn render(sun: &Sun, twinkle_values: &[u8; NUM_LEDS]) -> (data: [RGB8; NUM_LEDS])
    requires
        sun.wf(),
    ensures
        forall|i: int|
            0 <= i < NUM_LEDS ==> #[trigger] data[i] == led_color(*sun, twinkle_values[i], i),
{
    let mut data: [RGB8; NUM_LEDS] = [RGB8 { r: 0, g: 0, b: 0 };NUM_LEDS];
    let mut i: usize = 0;
    while i < NUM_LEDS
        invariant
            i <= NUM_LEDS,
            forall|j: int|
                0 <= j < i ==> #[trigger] data[j] == (RGB8 { r: 0, g: 0, b: sky_blue(j) as u8 }),
        decreases NUM_LEDS - i,
    {
        data[i] = sky_color(i);
        i = i + 1;
    }
    data[sun.lower_led] = RGB8 { r: sun.lower_brightness, g: sun.lower_brightness, b: 0 };
    data[sun.upper_led] = RGB8 { r: sun.upper_brightness, g: sun.upper_brightness, b: 0 };
    let mut k: usize = 0;
    while k < NUM_LEDS
        invariant
            k <= NUM_LEDS,
            forall|j: int|
                0 <= j < k ==> #[trigger] data[j] == led_color(*sun, twinkle_values[j], j),
            forall|j: int| k <= j < NUM_LEDS ==> #[trigger] data[j] == daylight(*sun, j),
        decreases NUM_LEDS - k,
    {
        let star: u8 = twinkle_values[k];
        if star > 0 && data[k].r == 0 {
            data[k] = RGB8 { r: star, g: star, b: star };
        }
        k = k + 1;
    }
    data
}

/// The frame for a time, given in days.
pub fn frame(time_scale: Single, twinkle_values: &[u8; NUM_LEDS]) -> (data: [RGB8; NUM_LEDS])
    ensures
        forall|i: int|
            0 <= i < NUM_LEDS ==> #[trigger] data[i] == led_color(
                sun_of(time_scale.value()),
                twinkle_values[i],
                i,
            ),
{
    let sun: Sun = Sun::at(time_scale);
    render(&sun, twinkle_values)
}

} // verus!
