//! What each pixel of a frame is: yellow where the sun shines, white where a star does, and the
//! colour of the sky everywhere else.
use crate::single::Single;
use crate::sky;
use crate::sky::Sun;
use crate::stars;
use crate::ws2812::RGB8;
use vstd::prelude::*;

verus! {

/// The sun is yellow: an LED that it lights has as much green as red and no blue, at the
/// brightness that the sun has there, whether there is a star or not. Where both of its LEDs are
/// the same, the upper one counts.
pub proof fn law_sun_is_yellow(sun: Sun, twinkle: u8, i: int)
    ensures
        i == sun.upper_led && sun.upper_brightness > 0 ==> {
            let pixel = sky::led_color(sun, twinkle, i);
            pixel.r == sun.upper_brightness && pixel.g == sun.upper_brightness && pixel.b == 0
        },
        i == sun.lower_led && i != sun.upper_led && sun.lower_brightness > 0 ==> {
            let pixel = sky::led_color(sun, twinkle, i);
            pixel.r == sun.lower_brightness && pixel.g == sun.lower_brightness && pixel.b == 0
        },
{
}

/// An LED of the sun that gets none of its light is black, unless there is a star.
pub proof fn law_sun_leaves_no_blue(sun: Sun, i: int)
    requires
        i == sun.upper_led && sun.upper_brightness == 0 || i == sun.lower_led && i != sun.upper_led
            && sun.lower_brightness == 0,
    ensures
        sky::led_color(sun, 0, i).r == 0,
        sky::led_color(sun, 0, i).g == 0,
        sky::led_color(sun, 0, i).b == 0,
{
}

/// Every pixel has as much green as red; one with red and no star has no blue, and one with red
/// and blue is a white star.
pub proof fn law_pixel_colors(sun: Sun, twinkle: u8, i: int)
    ensures
        ({
            let pixel = sky::led_color(sun, twinkle, i);
            &&& pixel.r == pixel.g
            &&& pixel.r > 0 && twinkle == 0 ==> pixel.b == 0
            &&& pixel.r > 0 && pixel.b > 0 ==> pixel.r == twinkle && pixel.b == twinkle
        }),
{
}

/// A star is white, and as bright as it twinkles, wherever the sun gives no light.
pub proof fn law_star_is_white(sun: Sun, twinkle: u8, i: int)
    requires
        twinkle > 0,
        i != sun.upper_led || sun.upper_brightness == 0,
        i != sun.lower_led || i == sun.upper_led || sun.lower_brightness == 0,
    ensures
        sky::led_color(sun, twinkle, i).r == twinkle,
        sky::led_color(sun, twinkle, i).g == twinkle,
        sky::led_color(sun, twinkle, i).b == twinkle,
{
}

/// The sky does not depend on where the sun is: away from the LEDs of both, two suns leave the
/// same sky. It is black on LEDs 0 to 35 and from 109 on. On LEDs 36 to 108 it is blue only, and as
/// blue as 16/36 of the distance to the nearer end, cut to an integer, but at least 1.
pub proof fn law_sky_behind_the_sun(sun: Sun, other: Sun, i: int)
    requires
        0 <= i < 144,
        i != sun.lower_led,
        i != sun.upper_led,
        i != other.lower_led,
        i != other.upper_led,
    ensures
        sky::led_color(sun, 0, i) == sky::led_color(other, 0, i),
        ({
            let pixel = sky::led_color(sun, 0, i);
            let k = if i <= 72 {
                i - 36
            } else {
                108 - i
            };
            &&& pixel.r == 0
            &&& pixel.g == 0
            &&& i < 36 || i > 108 ==> pixel.b == 0
            &&& 36 <= i <= 108 ==> {
                ||| 36 * pixel.b <= 16 * k < 36 * (pixel.b + 1) && pixel.b >= 1
                ||| 16 * k < 36 && pixel.b == 1
            }
        }),
{
    law_sky_shade(i);
}

/// The sky itself: nothing but blue, on LEDs 36 to 108 only, in a ramp from 1 at the ends to 16 in
/// the middle.
pub proof fn law_sky_shade(i: int)
    ensures
        ({
            let b = sky::sky_blue(i);
            let k = if i <= 72 {
                i - 36
            } else {
                108 - i
            };
            &&& i < 36 || i > 108 ==> b == 0
            &&& 36 <= i <= 108 ==> {
                &&& 1 <= b <= 16
                &&& 36 * b <= 16 * k < 36 * (b + 1) || 16 * k < 36 && b == 1
            }
        }),
{
}

/// A star that is lit shows in every frame in which the sun does not hide it: it rises by one
/// from frame to frame up to 128 and then falls by one, and none shows on LEDs 37 to 71.
pub proof fn law_star_in_frame(sun: Sun, v: u8, i: int)
    requires
        0 <= i < 144,
        i != sun.lower_led,
        i != sun.upper_led,
    ensures
        ({
            let pixel = sky::led_color(sun, stars::glow(v, i) as u8, i);
            let white = |n: int| pixel.r == n && pixel.g == n && pixel.b == n;
            &&& i <= 36 || i >= 72 ==> {
                &&& 1 <= v <= 128 ==> white(v as int)
                &&& v > 128 ==> white(256 - v)
            }
            &&& 36 < i < 72 || v == 0 ==> pixel == sky::led_color(sun, 0, i)
        }),
{
}

/// What a frame shows is one of three things at each LED, whatever the time.
pub proof fn law_frame_pixels(time: Single, twinkle: u8, i: int)
    ensures
        ({
            let sun = sky::sun_of(time.value());
            let pixel = sky::led_color(sun, twinkle, i);
            let yellow = pixel.r > 0 && pixel.g == pixel.r && pixel.b == 0 && (i == sun.lower_led
                || i == sun.upper_led);
            let white = twinkle > 0 && pixel == (RGB8 { r: twinkle, g: twinkle, b: twinkle });
            let sky = twinkle == 0 && pixel.r == 0 && pixel.g == 0;
            yellow || white || sky
        }),
{
}

} // verus!
