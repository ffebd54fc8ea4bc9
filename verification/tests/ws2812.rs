use sky_clock::pio_program::SideSet;
use sky_clock::ws2812::{FifoJoin, ShiftConfig, ShiftDirection, Ws2812, RGB8};

#[test]
fn program_words() {
    let driver = Ws2812::<144>::new(125_000_000);
    assert_eq!(
        driver.program.code,
        vec![
            0b111_0_0000_100_00001, // set pindirs, 1   side 0
            0b011_0_0010_001_00001, // out x, 1         side 0 [2]
            0b000_1_0001_001_00100, // jmp !x, 4        side 1 [1]
            0b000_1_0100_000_00001, // jmp 1            side 1 [4]
            0b101_0_0100_010_00010, // mov y, y         side 0 [4]
        ]
    );
    assert_eq!(driver.program.wrap_target, 1);
    assert_eq!(driver.program.wrap_source, 4);
    assert_eq!(
        driver.program.side_set,
        SideSet {
            optional: false,
            bits: 1,
            pindirs: false
        }
    );
}

#[test]
fn both_bits_take_ten_cycles() {
    let code = Ws2812::<1>::new(125_000_000).program.code;
    let cycles = |pc: usize| (code[pc] >> 8) % 16 + 1;
    let level = |pc: usize| (code[pc] >> 12) % 2;
    // A one goes through 1, 2, 3, and a zero through 1, 2, 4
    assert_eq!(cycles(1) + cycles(2) + cycles(3), 10);
    assert_eq!(cycles(1) + cycles(2) + cycles(4), 10);
    assert_eq!((level(1), level(2), level(3), level(4)), (0, 1, 1, 0));
}

#[test]
fn clock_divider() {
    assert_eq!(Ws2812::<1>::new(125_000_000).clock_divider, 4000);
    assert_eq!(Ws2812::<1>::new(133_000_000).clock_divider, 4256);
    assert_eq!(Ws2812::<1>::new(12_000_999).clock_divider, 384);
    assert_eq!(Ws2812::<1>::new(999).clock_divider, 0);
    assert_eq!(Ws2812::<1>::new(u32::MAX).clock_divider, 137438);
    for mhz in 1..300u32 {
        let clock = fixed::types::U24F8::from_num(mhz * 1000);
        let divider = clock / (fixed::types::U24F8::from_num(800) * 10u32);
        assert_eq!(
            Ws2812::<1>::new(mhz * 1_000_000).clock_divider,
            divider.to_bits()
        );
    }
}

#[test]
fn fifo_and_shift() {
    let driver = Ws2812::<1>::new(125_000_000);
    assert_eq!(driver.fifo_join, FifoJoin::TxOnly);
    assert_eq!(
        driver.shift_out,
        ShiftConfig {
            threshold: 24,
            direction: ShiftDirection::Left,
            auto_fill: true
        }
    );
}

#[test]
fn words_hold_green_red_blue() {
    let driver = Ws2812::<4>::new(125_000_000);
    let words = driver.write(&[
        RGB8 { r: 1, g: 2, b: 3 },
        RGB8::default(),
        RGB8 {
            r: 255,
            g: 255,
            b: 255,
        },
        RGB8 { r: 0, g: 0, b: 16 },
    ]);
    assert_eq!(words, [0x0201_0300, 0, 0xffff_ff00, 0x1000]);
    let none: [u32; 0] = Ws2812::<0>::new(125_000_000).write(&[]);
    assert_eq!(none.len(), 0);
}
