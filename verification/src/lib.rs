//! The logic of a sky clock: a strip of LEDs on which the sun crosses the sky once a day, and
//! stars twinkle where there is room for them.
//!
//! - [`clock`]: the time, as the network gives it and as a fraction of the day
//! - [`sky`]: the colours of the strip, with the sun and the stars
//! - [`stars`]: the life of the stars
//! - [`ws2812`]: the driver of the LEDs, with [`pio_program`] and [`fixed_point`] beneath it
//! - [`sync`] and [`wifi`]: what is done next about the clock and about the network
//! - [`binary32`]: single-precision arithmetic in integers
//! - [`single`]: single-precision numbers as they are stored
//! - [`clock_laws`]: what holds of the clock
//! - [`sky_laws`]: what holds of the sky as a whole
//! - [`sun_laws`]: what holds of the place and the light of the sun at each time
//! - [`frame_laws`]: what holds of each pixel of a frame
pub mod binary32;
pub mod clock;
pub mod clock_laws;
pub mod fixed_point;
pub mod frame_laws;
pub mod pio_program;
pub mod single;
pub mod sky;
pub mod sky_laws;
pub mod stars;
pub mod sun_laws;
pub mod sync;
pub mod wifi;
pub mod ws2812;
