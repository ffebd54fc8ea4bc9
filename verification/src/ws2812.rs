//! The driver of the LEDs: the program that shifts the bits out, the clock that it runs at, and
//! the words that it is fed.
use crate::fixed_point::{u24f8_div, u24f8_from_num, u24f8_times_integer};
use crate::pio_program::{
    assembler_assemble, assembler_bind, assembler_jmp, assembler_label, assembler_new,
    assembler_nop, assembler_out, assembler_set, JmpCondition, OutDestination, Program,
    SetDestination, SideSet,
};
use vstd::prelude::*;

verus! {

/// A colour of one LED.
#[derive(Clone, Copy, Debug, PartialEq, Eq, Structural)]
pub struct RGB8 {
    pub r: u8,
    pub g: u8,
    pub b: u8,
}

impl Default for RGB8 {
    /// Black.
    fn default() -> (color: Self)
        ensures
            color == (RGB8 { r: 0, g: 0, b: 0 }),
    {
        RGB8 { r: 0, g: 0, b: 0 }
    }
}

/// Cycles of the start of a bit, in which the line is high.
pub const T1: u8 = 2;

/// Cycles of the data part of a bit, in which the line is high for a one and low for a zero.
pub const T2: u8 = 5;

/// Cycles of the end of a bit, in which the line is low.
pub const T3: u8 = 3;

/// Cycles of a bit.
pub const CYCLES_PER_BIT: u32 = T1 as u32 + T2 as u32 + T3 as u32;

/// Bits per millisecond.
pub const WS2812_FREQ_KHZ: u32 = 800;

/// Bits of a word that are shifted out.
pub const BITS_PER_LED: u8 = 24;

/// Microseconds of silence after which the LEDs show what they were sent.
pub const RESET_MICROS: u64 = 55;

/// How the two FIFOs of a state machine are joined.
#[derive(Clone, Copy, Debug, PartialEq, Eq, Structural)]
pub enum FifoJoin {
    Duplex,
    RxOnly,
    TxOnly,
}

/// The end of a word at which shifting starts.
#[derive(Clone, Copy, Debug, PartialEq, Eq, Structural)]
pub enum ShiftDirection {
    Right,
    Left,
}

/// How words are shifted out.
#[derive(Clone, Copy, Debug, PartialEq, Eq, Structural)]
pub struct ShiftConfig {
    pub threshold: u8,
    pub direction: ShiftDirection,
    pub auto_fill: bool,
}

/// The set-up of a state machine that drives `N` LEDs.
#[derive(Debug)]
pub struct Ws2812<const N: usize> {
    pub program: Program,
    /// Cycles of the system clock per cycle of the program, in units of 1/256.
    pub clock_divider: u32,
    pub fifo_join: FifoJoin,
    pub shift_out: ShiftConfig,
}

/// The word for a colour: green, red and blue from the top, and eight bits that are not sent.
pub open spec fn color_word(color: RGB8) -> int {
    color.g * 0x100_0000 + color.r * 0x1_0000 + color.b * 0x100
}

/// A round of the program sends one bit: it shifts the bit into X while the line is low for
/// [`T3`] cycles, sets the line high for [`T1`] cycles, keeps it at the level of the bit for
/// [`T2`] cycles, and is back at the start.
pub open spec fn sends_bit(program: Program, bit: int) -> bool {
    let fetch = program.wrap_target as int;
    let start = program.next(fetch, bit);
    let data = program.next(start, bit);
    &&& program.shifts_into_x(fetch)
    &&& program.level(fetch) == 0
    &&& program.cycles(fetch) == T3
    &&& !program.shifts_into_x(start)
    &&& program.level(start) == 1
    &&& program.cycles(start) == T1
    &&& !program.shifts_into_x(data)
    &&& program.level(data) == bit
    &&& program.cycles(data) == T2
    &&& program.next(data, bit) == fetch
}

impl<const N: usize> Ws2812<N> {
    /// The set-up for a system clock of `clk_sys_freq` Hertz. The program runs at 8000 cycles per
    /// millisecond: 800 bits of 10 cycles.
    pub fn new(clk_sys_freq: u32) -> (driver: Self)
        ensures
            driver.program.code@ == seq![0xe081u16, 0x6221u16, 0x1124u16, 0x1401u16, 0xa442u16],
            sends_bit(driver.program, 0),
            sends_bit(driver.program, 1),
            driver.program.wrap_target == 1,
            driver.program.wrap_source == 4,
            driver.program.side_set == (SideSet { optional: false, bits: 1, pindirs: false }),
            driver.clock_divider as int == (clk_sys_freq as int / 1000) * 256 / 8000,
            driver.fifo_join == FifoJoin::TxOnly,
            driver.shift_out == (ShiftConfig {
                threshold: BITS_PER_LED,
                direction: ShiftDirection::Left,
                auto_fill: true,
            }),
    {
        let mut a = assembler_new(SideSet { optional: false, bits: 1, pindirs: false });
        let mut wrap_target = assembler_label(&mut a);
        let mut wrap_source = assembler_label(&mut a);
        let mut do_zero = assembler_label(&mut a);
        assembler_set(&mut a, SetDestination::Pindirs, 1, 0);
        assembler_bind(&mut a, &mut wrap_target);
        // Do stop bit
        assembler_out(&mut a, OutDestination::X, 1, T3 - 1, 0);
        // Do start bit
        assembler_jmp(&mut a, JmpCondition::XIsZero, &mut do_zero, T1 - 1, 1);
        // Do data bit = 1
        assembler_jmp(&mut a, JmpCondition::Always, &mut wrap_target, T2 - 1, 1);
        assembler_bind(&mut a, &mut do_zero);
        // Do data bit = 0
        assembler_nop(&mut a, T2 - 1, 0);
        assembler_bind(&mut a, &mut wrap_source);
        let program: Program = assembler_assemble(a, wrap_source, wrap_target);

        // In kHz, so that the fixed-point numbers do not overflow
        let clock_freq: u32 = u24f8_from_num(clk_sys_freq / 1000);
        let ws2812_freq: u32 = u24f8_from_num(WS2812_FREQ_KHZ);
        let bit_freq: u32 = u24f8_times_integer(ws2812_freq, CYCLES_PER_BIT);
        let clock_divider: u32 = u24f8_div(clock_freq, bit_freq);
        assert(clock_freq * 256 / 2048000 == (clk_sys_freq as int / 1000) * 256 / 8000);
        Ws2812 {
            program,
            clock_divider,
            fifo_join: FifoJoin::TxOnly,
            shift_out: ShiftConfig {
                threshold: BITS_PER_LED,
                direction: ShiftDirection::Left,
                auto_fill: true,
            },
        }
    }

    /// The words to send for a frame.
    pub fn write(&self, colors: &[RGB8; N]) -> (words: [u32; N])
        ensures
            forall|i: int| 0 <= i < N ==> #[trigger] words[i] == color_word(colors[i]),
    {
        let mut words: [u32; N] = [0u32;N];
        let mut i: usize = 0;
        while i < N
            invariant
                i <= N,
                forall|j: int| 0 <= j < i ==> #[trigger] words[j] == color_word(colors[j]),
            decreases N - i,
        {
            let g: u8 = colors[i].g;
            let r: u8 = colors[i].r;
            let b: u8 = colors[i].b;
            assert(((g as u32) << 24 | (r as u32) << 16 | (b as u32) << 8) == g * 0x100_0000 + r
                * 0x1_0000 + b * 0x100) by (bit_vector);
            words[i] = (g as u32) << 24 | (r as u32) << 16 | (b as u32) << 8;
            i = i + 1;
        }
        words
    }
}

/// The colour can be read back from its word, so that different colours have different words; the
/// bits that are not sent are zero.
pub proof fn law_color_word(color: RGB8)
    ensures
        color_word(color) / 0x100_0000 == color.g,
        color_word(color) / 0x1_0000 % 0x100 == color.r,
        color_word(color) / 0x100 % 0x100 == color.b,
        color_word(color) % 0x100 == 0,
        0 <= color_word(color) <= u32::MAX,
{
}

/// A bit takes the same number of cycles, whatever its value.
pub proof fn law_bits_take_equal_time(program: Program, bit: int)
    requires
        sends_bit(program, bit),
    ensures
        ({
            let fetch = program.wrap_target as int;
            let start = program.next(fetch, bit);
            let data = program.next(start, bit);
            program.cycles(fetch) + program.cycles(start) + program.cycles(data)
        }) == CYCLES_PER_BIT,
{
}

/// Two colours that differ have different words, and each part of a colour has bits of its own:
/// eight for green, which are sent first, then eight for red, then eight for blue.
pub proof fn law_color_parts(color: RGB8, other: RGB8)
    ensures
        color_word(color) == color_word(other) ==> color == other,
        color_word(color) - color_word(RGB8 { g: 0, ..color }) == color.g * 0x100_0000,
        color_word(color) - color_word(RGB8 { r: 0, ..color }) == color.r * 0x1_0000,
        color_word(color) - color_word(RGB8 { b: 0, ..color }) == color.b * 0x100,
{
}

/// A bit takes ten cycles, of which a zero is high for two and a one for seven; 24 bits make a
/// colour, and 800 of them are sent in a millisecond.
pub proof fn law_bit_timing()
    ensures
        T1 == 2,
        T1 + T2 == 7,
        CYCLES_PER_BIT == 10,
        BITS_PER_LED == 24,
        WS2812_FREQ_KHZ == 800,
        RESET_MICROS == 55,
{
}

} // verus!
