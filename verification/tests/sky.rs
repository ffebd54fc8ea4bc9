use sky_clock::clock::{calculate_time_fraction, DateTime, DayOfWeek};
use sky_clock::single::Single;
use sky_clock::sky::{frame, render, sky_color, Sun, NUM_LEDS};
use sky_clock::stars::StarField;
use sky_clock::ws2812::RGB8;

fn rgb(r: u8, g: u8, b: u8) -> RGB8 {
    RGB8 { r, g, b }
}

fn noon() -> DateTime {
    DateTime {
        year: 2024,
        month: 5,
        day: 17,
        day_of_week: DayOfWeek::Friday,
        hour: 12,
        minute: 0,
        second: 0,
    }
}

#[test]
fn gradient_agrees_with_floating_point() {
    for i in 0..NUM_LEDS {
        let blue = if i < 36 || i > 108 {
            0
        } else if i < 72 {
            (((i - 36) as f32 / 36.0 * 16.0) as u8).max(1)
        } else {
            (((108 - i) as f32 / 36.0 * 16.0) as u8).max(1)
        };
        assert_eq!(sky_color(i), rgb(0, 0, blue));
    }
}

#[test]
fn sky_is_black_at_night_and_lightest_at_noon() {
    assert_eq!(sky_color(0), rgb(0, 0, 0));
    assert_eq!(sky_color(35), rgb(0, 0, 0));
    assert_eq!(sky_color(36), rgb(0, 0, 1));
    assert_eq!(sky_color(38), rgb(0, 0, 1));
    assert_eq!(sky_color(40), rgb(0, 0, 1));
    assert_eq!(sky_color(41), rgb(0, 0, 2));
    assert_eq!(sky_color(39), rgb(0, 0, 1));
    assert_eq!(sky_color(45), rgb(0, 0, 4));
    assert_eq!(sky_color(71), rgb(0, 0, 15));
    assert_eq!(sky_color(72), rgb(0, 0, 16));
    assert_eq!(sky_color(73), rgb(0, 0, 15));
    assert_eq!(sky_color(108), rgb(0, 0, 1));
    assert_eq!(sky_color(109), rgb(0, 0, 0));
    assert_eq!(sky_color(usize::MAX), rgb(0, 0, 0));
    for distance in 0..=72 {
        assert_eq!(sky_color(72 - distance), sky_color(72 + distance));
    }
}

#[test]
fn sky_lightens_towards_noon() {
    for i in 36..72 {
        assert!(sky_color(i).b <= sky_color(i + 1).b);
    }
}

#[test]
fn noon_frame() {
    let data = frame(calculate_time_fraction(&noon()), &[0; NUM_LEDS]);
    assert_eq!(data[71], rgb(0, 0, 15));
    assert_eq!(data[72], rgb(127, 127, 0));
    assert_eq!(data[73], rgb(0, 0, 0));
    assert_eq!(data[74], rgb(0, 0, 15));
    assert_eq!(data[0], rgb(0, 0, 0));
}

#[test]
fn upper_led_wraps_around() {
    let mut t = noon();
    t.hour = 23;
    t.minute = 55;
    let sun = Sun::at(calculate_time_fraction(&t));
    assert_eq!(sun.lower_led, 143);
    assert_eq!(sun.upper_led, 0);
    assert_eq!(sun.lower_brightness, 63);
    assert_eq!(sun.upper_brightness, 63);
    let data = frame(calculate_time_fraction(&t), &[0; NUM_LEDS]);
    assert_eq!(data[143], rgb(63, 63, 0));
    assert_eq!(data[0], rgb(63, 63, 0));
    assert_eq!(data[1], rgb(0, 0, 0));
}

#[test]
fn stars_show_where_the_sun_does_not_shine() {
    let sun = Sun {
        lower_led: 72,
        upper_led: 73,
        lower_brightness: 127,
        upper_brightness: 0,
    };
    let data = render(&sun, &[9; NUM_LEDS]);
    for (i, color) in data.iter().enumerate() {
        if i == 72 {
            assert_eq!(*color, rgb(127, 127, 0));
        } else {
            assert_eq!(*color, rgb(9, 9, 9));
        }
    }
}

#[test]
fn upper_led_is_painted_last() {
    let sun = Sun {
        lower_led: 5,
        upper_led: 5,
        lower_brightness: 10,
        upper_brightness: 20,
    };
    assert_eq!(render(&sun, &[0; NUM_LEDS])[5], rgb(20, 20, 0));
}

#[test]
fn no_stars_between_dawn_and_noon() {
    let mut field = StarField::new(&[Some(100); NUM_LEDS]);
    let twinkle = field.twinkle();
    let data = frame(calculate_time_fraction(&noon()), &twinkle);
    for i in 37..72 {
        assert_eq!(data[i], sky_color(i));
    }
    assert_eq!(data[36], rgb(100, 100, 100));
    assert_eq!(data[100], rgb(100, 100, 100));
    for color in data.iter() {
        assert!(color.r <= 128 && color.g <= 128 && color.b <= 128);
    }
}

#[test]
fn all_of_the_daylight_is_blue_at_midnight() {
    let data = frame(Single { bits: 0 }, &[0; NUM_LEDS]);
    assert_eq!(data[0], rgb(127, 127, 0));
    for i in 1..NUM_LEDS {
        assert_eq!((data[i].r, data[i].g), (0, 0));
        assert_eq!(data[i].b > 0, i >= 36 && i <= 108);
    }
}

#[test]
fn every_time_has_a_frame() {
    // A time, the two LEDs of the sun, and their brightness
    for (time_scale, lower, upper, bright, dim) in [
        (5.9604645e-8f32, 0, 1, 127, 0),
        (116509.0, 0, 1, 127, 0),
        (0.75, 108, 109, 127, 0),
        (-0.001, 0, 1, 145, 0),
        (f32::NAN, 0, 1, 0, 0),
        (f32::INFINITY, 0, 1, 0, 0),
    ] {
        let data = frame(
            Single {
                bits: time_scale.to_bits(),
            },
            &[0; NUM_LEDS],
        );
        for i in 0..NUM_LEDS {
            if i == lower {
                assert_eq!(data[i], rgb(bright, bright, 0));
            } else if i == upper {
                assert_eq!(data[i], rgb(dim, dim, 0));
            } else {
                assert_eq!(data[i], sky_color(i));
            }
        }
    }
}
