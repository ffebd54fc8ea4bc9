use sky_clock::binary32::{round_ratio, round_whole, Binary32};
use sky_clock::clock::{calculate_time_fraction, DateTime, DayOfWeek};
use sky_clock::single::Single;
use sky_clock::sky::Sun;

fn at(hour: u8, minute: u8, second: u8) -> DateTime {
    DateTime {
        year: 2024,
        month: 5,
        day: 17,
        day_of_week: DayOfWeek::Friday,
        hour,
        minute,
        second,
    }
}

fn to_f32(x: Binary32) -> f32 {
    let mut v = x.mant as f64;
    for _ in 0..x.scale {
        v /= 2.0;
    }
    assert_eq!(v as f32 as f64, v);
    v as f32
}

/// The same formulas, on the hardware's floating-point unit.
fn float_fraction(hour: u8, minute: u8, second: u8) -> f32 {
    let seconds = hour as u32 * 3600 + minute as u32 * 60 + second as u32;
    let fraction_of_day = seconds as f32 / 86400u32 as f32;
    (fraction_of_day * 1u32 as f32) % 1.0
}

fn float_sun(time_scale: f32) -> (usize, u8, u8) {
    let led_index = (time_scale * 144usize as f32) % 144usize as f32;
    let lower_led = (led_index as usize) % 144;
    let fraction = led_index - (lower_led as f32);
    let lower = (0.5f32 * 255.0 * (1.0 - fraction)) as u8;
    let upper = (0.5f32 * 255.0 * fraction) as u8;
    (lower_led, lower, upper)
}

fn compare(hour: u8, minute: u8, second: u8) {
    let f = calculate_time_fraction(&at(hour, minute, second));
    let g = float_fraction(hour, minute, second);
    assert_eq!(f.bits, g.to_bits());
    compare_sun(g);
}

fn sun_at(time_scale: f32) -> Sun {
    Sun::at(Single {
        bits: time_scale.to_bits(),
    })
}

fn compare_sun(time_scale: f32) {
    let sun = sun_at(time_scale);
    let (lower_led, lower, upper) = float_sun(time_scale);
    assert_eq!(sun.lower_led, lower_led);
    assert_eq!(sun.upper_led, (lower_led + 1) % 144);
    assert_eq!(sun.lower_brightness, lower);
    assert_eq!(sun.upper_brightness, upper);
}

fn parts(sun: Sun) -> (usize, usize, u8, u8) {
    (
        sun.lower_led,
        sun.upper_led,
        sun.lower_brightness,
        sun.upper_brightness,
    )
}

#[test]
fn every_second_of_the_day_agrees_with_floating_point() {
    for hour in 0..24u8 {
        for minute in 0..60u8 {
            for second in 0..60u8 {
                compare(hour, minute, second);
            }
        }
    }
}

#[test]
fn times_past_midnight_wrap_around() {
    for hour in 24..=255u8 {
        for minute in [0u8, 1, 59, 60, 200, 255] {
            for second in [0u8, 1, 30, 59, 60, 255] {
                compare(hour, minute, second);
            }
        }
    }
}

#[test]
fn one_third() {
    let x = round_ratio(1, 3);
    assert_eq!(x.mant, 11184811);
    assert_eq!(x.scale, 25);
    assert_eq!(to_f32(x), 1.0f32 / 3.0);
}

#[test]
fn sun_keeps_time() {
    for seconds in 0..86400u32 {
        let t = at(
            (seconds / 3600) as u8,
            (seconds / 60 % 60) as u8,
            (seconds % 60) as u8,
        );
        let sun = Sun::at(calculate_time_fraction(&t));
        assert_eq!(sun.lower_led, seconds as usize / 600);
        let light = sun.lower_brightness as u32 + sun.upper_brightness as u32;
        assert!(light == 126 || light == 127);
        if seconds % 600 == 0 {
            assert_eq!((sun.lower_brightness, sun.upper_brightness), (127, 0));
        }
    }
}

#[test]
fn times_of_more_than_a_day() {
    for time_scale in [
        1.0f32, 3.5, 5.25, 4095.9998, 65535.0, 16384.0, 116508.0, 116509.0, 116510.3, 1234567.9,
        16777215.0, 16777216.0, 33554432.0, 1.0e9, 1.0e20, 1.0e35, 2.36e36,
    ] {
        compare_sun(time_scale);
        compare_sun(-time_scale);
    }
    assert_eq!(parts(sun_at(1.0)), (0, 1, 127, 0));
    assert_eq!(parts(sun_at(3.5)), (72, 73, 127, 0));
    assert_eq!(parts(sun_at(116509.0)), (0, 1, 127, 0));
    // 144 times this is rounded to a multiple of 256, which takes 112 away
    assert_eq!(parts(sun_at(16777215.0)), (32, 33, 127, 0));
}

#[test]
fn times_of_next_to_nothing() {
    let mut time_scale = 1.0f32;
    while time_scale > 0.0 {
        for factor in [1.0f32, 1.1, 1.3333334, 1.5, 1.9999999] {
            compare_sun(time_scale * factor);
            compare_sun(-time_scale * factor);
        }
        time_scale /= 2.0;
    }
    assert_eq!(parts(sun_at(5.9604645e-8)), (0, 1, 127, 0));
    assert_eq!(parts(sun_at(f32::from_bits(1))), (0, 1, 127, 0));
    assert_eq!(parts(sun_at(0.0)), (0, 1, 127, 0));
    assert_eq!(parts(sun_at(-0.0)), (0, 1, 127, 0));
}

#[test]
fn times_before_the_first_day() {
    assert_eq!(parts(sun_at(-0.001)), (0, 1, 145, 0));
    assert_eq!(parts(sun_at(-0.005)), (0, 1, 219, 0));
    assert_eq!(parts(sun_at(-0.25)), (0, 1, 255, 0));
    for k in 0..2000 {
        compare_sun(-(k as f32) / 1999.0);
    }
}

#[test]
fn times_without_a_place() {
    for time_scale in [
        f32::NAN,
        -f32::NAN,
        f32::INFINITY,
        f32::NEG_INFINITY,
        f32::MAX,
        f32::MIN,
        2.4e36,
    ] {
        assert_eq!(parts(sun_at(time_scale)), (0, 1, 0, 0));
        compare_sun(time_scale);
    }
    // The last time with a place, and the first without
    let last = (f32::MAX as f64 / 144.0) as f32;
    for bits in last.to_bits() - 3..=last.to_bits() + 3 {
        compare_sun(f32::from_bits(bits));
        compare_sun(-f32::from_bits(bits));
    }
}

#[test]
fn any_bits_agree_with_floating_point() {
    let mut bits = 0u32;
    loop {
        compare_sun(f32::from_bits(bits));
        bits = match bits.checked_add(40009) {
            Some(next) => next,
            None => return,
        };
    }
}

#[test]
fn light_is_shared_at_any_time_that_is_not_negative() {
    let mut bits = 0u32;
    while bits < f32::MAX.to_bits() {
        let time_scale = f32::from_bits(bits);
        let sun = sun_at(time_scale);
        let light = sun.lower_brightness as u32 + sun.upper_brightness as u32;
        if (time_scale * 144.0).is_finite() {
            assert!(light == 126 || light == 127);
        } else {
            assert_eq!(light, 0);
        }
        bits += 30011;
    }
}

#[test]
fn large_numbers_agree_with_floating_point() {
    for num in [16777216u64, 16777217, 16777219, 33554433, 33554438, 2415919103, 549755813887] {
        assert_eq!(round_whole(num, 1), num as f32 as u64);
    }
    assert_eq!(round_whole(16777217, 1), 16777216);
    assert_eq!(round_whole(16777219, 1), 16777220);
    assert_eq!(round_whole(33554435, 2), 16777218);
}

#[test]
fn arithmetic_agrees_with_floating_point() {
    let numbers = [1u32, 2, 3, 7, 10, 36, 144, 255, 600, 4097, 86399, 16777215];
    for a in numbers {
        for b in numbers {
            let x = Binary32::from_integer(a).over(Binary32::from_integer(b));
            let f = a as f32 / b as f32;
            assert_eq!(to_f32(x), f);
            assert_eq!(x.truncate(), f as u32);
            assert_eq!(x.truncate_to_byte(), f as u8);
            assert_eq!(to_f32(x.modulo(7)), f % 7.0);
            for c in [3u32, 5, 127] {
                let y = Binary32::from_integer(1).over(Binary32::from_integer(c));
                let g = 1.0 / c as f32;
                assert_eq!(to_f32(x.times(y)), f * g);
                if f + g < 16777216.0 {
                    assert_eq!(to_f32(x.plus(y)), f + g);
                }
                if f >= g {
                    assert_eq!(to_f32(x.minus(y)), f - g);
                }
            }
        }
    }
}

#[test]
fn ties_go_to_the_even_significand() {
    assert_eq!(round_ratio(16777217, 2).mant, 8388608);
    assert_eq!(round_ratio(16777219, 2).mant, 8388610);
    let zero = round_ratio(0, 5);
    assert_eq!((zero.mant, zero.scale), (0, 0));
}
