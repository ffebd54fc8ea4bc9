# Sky clock

A clock on a strip of 144 WS2812 LEDs, driven by a Raspberry Pi Pico W. The strip stands for one
day from midnight to midnight. The sun crosses it, the sky is blue from LED 36 to LED 108, and
stars twinkle where the sun does not shine. The clock is set from the network once an hour.

## Layout

- `src/` is the verified library. It decides what the strip shows, how the LEDs are driven, what
  the clock is set to and what is done next when something happens on the network.
- `app/` is the firmware around it: the radio, the network, the real-time clock, the random numbers
  and the LEDs themselves.
- `tests/` holds the tests of the library.

## Numbers

The position and the brightness of the sun are single-precision computations, and `src/binary32.rs`
does them in integers, rounding as IEEE 754 asks. `src/single.rs` reads and writes the numbers as
they are stored, so that there is a frame for each of the 2^32 bit patterns: also for a negative
time, for one that is too large to have a place on the strip, and for what is not a number.
`tests/sun.rs` compares the results with floating point, for each second of the day and for bit
patterns from the whole range. `src/sky_laws.rs` proves that the sun keeps time in spite of
rounding: at each time of day it is on the LED that is due, ten minutes for each.

## Trust

The library calls the `pio` crate to assemble the program of the LED driver, the `fixed` crate to
compute its clock divider, and the `chrono` crate to read timestamps. The wrappers around these
calls say what they take from those crates; they are in `src/pio_program.rs`,
`src/fixed_point.rs` and `src/clock.rs`. `src/sync.rs` has one more, around the standard library's
check of UTF-8.

## Firmware of the radio

The program embeds the radio's own firmware and its regulatory table, `43439A0.bin` and
`43439A0_clm.bin`, from `app/cyw43-firmware/`. They are published with the driver of the radio and
have to be put there before the program is built.
