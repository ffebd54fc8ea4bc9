//! Programs of the programmable I/O block, assembled with the `pio` crate.
//!
//! The assembler and its labels belong to that crate. What they hold is given names here, and
//! each method that the driver uses has a wrapper which says what the method does to them.
use vstd::prelude::*;

verus! {

/// Condition of a `jmp` instruction.
#[derive(Clone, Copy, Debug, PartialEq, Eq, Structural)]
pub enum JmpCondition {
    Always,
    XIsZero,
}

/// Destination of an `out` instruction.
#[derive(Clone, Copy, Debug, PartialEq, Eq, Structural)]
pub enum OutDestination {
    X,
}

/// Destination of a `set` instruction.
#[derive(Clone, Copy, Debug, PartialEq, Eq, Structural)]
pub enum SetDestination {
    Pindirs,
}

/// What an instruction does.
#[derive(Clone, Copy, Debug, PartialEq, Eq, Structural)]
pub enum Operands {
    JMP { condition: JmpCondition, address: u8 },
    OUT { destination: OutDestination, bit_count: u8 },
    SET { target: SetDestination, data: u8 },
    NOP,
}

/// An instruction with its delay and its side-set value.
#[derive(Clone, Copy, Debug, PartialEq, Eq, Structural)]
pub struct Instruction {
    pub operands: Operands,
    pub delay: u8,
    pub side_set: u8,
}

/// How the side-set bits of the instructions are used.
#[derive(Clone, Copy, Debug, PartialEq, Eq, Structural)]
pub struct SideSet {
    pub optional: bool,
    pub bits: u8,
    pub pindirs: bool,
}

/// A label is bound to an offset, or it remembers the last jump to it, 255 if there is none.
#[derive(Clone, Copy, Debug, PartialEq, Eq, Structural)]
pub enum LabelState {
    Unbound { last_jump: u8 },
    Bound { offset: u8 },
}

impl Operands {
    /// The three bits that tell the instructions apart.
    pub open spec fn opcode(self) -> int {
        match self {
            Operands::JMP { .. } => 0,
            Operands::OUT { .. } => 3,
            Operands::SET { .. } => 7,
            Operands::NOP => 5,
        }
    }

    /// The two operand fields, of three and of five bits.
    pub open spec fn fields(self) -> (int, int) {
        match self {
            Operands::JMP { condition: JmpCondition::Always, address } => (0, address as int),
            Operands::JMP { condition: JmpCondition::XIsZero, address } => (1, address as int),
            Operands::OUT { destination: OutDestination::X, bit_count } => (
                1,
                bit_count as int % 32,
            ),
            Operands::SET { target: SetDestination::Pindirs, data } => (4, data as int),
            Operands::NOP => (2, 2),
        }
    }
}

impl Instruction {
    /// The operands fit their fields, and the delay and the side-set value fit theirs where there
    /// is one mandatory side-set bit.
    pub open spec fn fits(self) -> bool {
        &&& 0 <= self.operands.fields().1 < 32
        &&& self.delay < 16
        &&& self.side_set < 2
    }

    /// The instruction word where there is one mandatory side-set bit.
    pub open spec fn word(self) -> int {
        self.operands.opcode() * 0x2000 + self.side_set * 0x1000 + self.delay * 0x100
            + self.operands.fields().0 * 0x20 + self.operands.fields().1
    }
}

/// An assembled program.
#[derive(Debug)]
pub struct Program {
    /// The instruction words.
    pub code: Vec<u16>,
    /// The instruction after which execution goes on at `wrap_target`.
    pub wrap_source: u8,
    /// The instruction at which execution goes on after `wrap_source`.
    pub wrap_target: u8,
    /// The use of the side-set bits.
    pub side_set: SideSet,
}

impl Program {
    /// The cycles that an instruction takes, with its delay, where there is one mandatory side-set
    /// bit.
    pub open spec fn cycles(self, pc: int) -> int {
        self.code@[pc] as int / 0x100 % 16 + 1
    }

    /// The level to which an instruction sets the pin, where there is one mandatory side-set bit.
    pub open spec fn level(self, pc: int) -> int {
        self.code@[pc] as int / 0x1000 % 2
    }

    /// The instruction shifts one bit into X.
    pub open spec fn shifts_into_x(self, pc: int) -> bool {
        self.code@[pc] as int / 0x2000 == 3 && self.code@[pc] as int % 0x100 == 0x21
    }

    /// The instruction that is executed after the one at `pc`, where X holds `x`.
    pub open spec fn next(self, pc: int, x: int) -> int {
        let w = self.code@[pc] as int;
        let condition = w / 0x20 % 8;
        if w / 0x2000 == 0 && (condition == 0 || condition == 1 && x == 0) {
            w % 0x20
        } else if pc == self.wrap_source {
            self.wrap_target as int
        } else {
            pc + 1
        }
    }
}

/// `pio::Assembler`, which collects instructions.
#[verifier::external_type_specification]
#[verifier::external_body]
pub struct ExAssembler<const PROGRAM_SIZE: usize>(pio::Assembler<PROGRAM_SIZE>);

/// `pio::Label`, a place in a program.
#[verifier::external_type_specification]
#[verifier::external_body]
pub struct ExLabel(pio::Label);

/// The instructions that an assembler holds.
pub uninterp spec fn instructions(a: pio::Assembler<32>) -> Seq<Instruction>;

/// The side-set that an assembler was made with.
pub uninterp spec fn side_set(a: pio::Assembler<32>) -> SideSet;

/// Where a label of an assembler stands.
pub uninterp spec fn label_state(label: pio::Label) -> LabelState;

/// `pio::Assembler::new_with_side_set` on a `pio::SideSet::new`: an assembler without
/// instructions, with that side-set.
#[verifier::external_body]
pub(crate) fn assembler_new(s: SideSet) -> (a: pio::Assembler<32>)
    requires
        s.bits < 5,
    ensures
        instructions(a) == Seq::<Instruction>::empty(),
        side_set(a) == s,
{
    pio::Assembler::new_with_side_set(pio::SideSet::new(s.optional, s.bits, s.pindirs))
}

/// `pio::Assembler::label`: a label that is not bound and to which nothing jumps yet.
#[verifier::external_body]
pub(crate) fn assembler_label(a: &mut pio::Assembler<32>) -> (label: pio::Label)
    ensures
        label_state(label) == (LabelState::Unbound { last_jump: 255 }),
        instructions(*final(a)) == instructions(*old(a)),
        side_set(*final(a)) == side_set(*old(a)),
{
    a.label()
}

/// The label is not bound, and at most one jump waits for it.
pub open spec fn can_bind(code: Seq<Instruction>, label: LabelState) -> bool {
    match label {
        LabelState::Bound { .. } => false,
        LabelState::Unbound { last_jump } => last_jump == 255 || {
            &&& last_jump < code.len()
            &&& code[last_jump as int].operands matches Operands::JMP { address, .. }
            &&& address == 255
        },
    }
}

/// `pio::Assembler::bind`: binds a label to the place after the last instruction. A jump that
/// waits for the label gets that address. The crate panics if the label is bound already; a label
/// for which more than one jump waits is left out too.
#[verifier::external_body]
pub(crate) fn assembler_bind(a: &mut pio::Assembler<32>, label: &mut pio::Label)
    requires
        instructions(*old(a)).len() <= 32,
        can_bind(instructions(*old(a)), label_state(*old(label))),
    ensures
        label_state(*final(label)) == (LabelState::Bound {
            offset: instructions(*old(a)).len() as u8,
        }),
        instructions(*final(a)) == resolved(instructions(*old(a)), label_state(*old(label))),
        side_set(*final(a)) == side_set(*old(a)),
{
    a.bind(label)
}

/// The instructions after a label is bound at their end.
pub open spec fn resolved(code: Seq<Instruction>, label: LabelState) -> Seq<Instruction> {
    match label {
        LabelState::Unbound { last_jump } if last_jump < code.len() => {
            let jump = code[last_jump as int];
            match jump.operands {
                Operands::JMP { condition, .. } => code.update(
                    last_jump as int,
                    Instruction {
                        operands: Operands::JMP { condition, address: code.len() as u8 },
                        ..jump
                    },
                ),
                _ => code,
            }
        },
        _ => code,
    }
}

/// `pio::Assembler::set_with_side_set`: appends a `set` instruction without delay. The crate
/// panics if there is no room.
#[verifier::external_body]
pub(crate) fn assembler_set(
    a: &mut pio::Assembler<32>,
    target: SetDestination,
    data: u8,
    side: u8,
)
    requires
        instructions(*old(a)).len() < 32,
    ensures
        instructions(*final(a)) == instructions(*old(a)).push(
            Instruction {
                operands: Operands::SET { target, data },
                delay: 0,
                side_set: side,
            },
        ),
        side_set(*final(a)) == side_set(*old(a)),
{
    let destination = match target {
        SetDestination::Pindirs => pio::SetDestination::PINDIRS,
    };
    a.set_with_side_set(destination, data, side)
}

/// `pio::Assembler::out_with_delay_and_side_set`: appends an `out` instruction. The crate panics
/// if there is no room.
#[verifier::external_body]
pub(crate) fn assembler_out(
    a: &mut pio::Assembler<32>,
    destination: OutDestination,
    bit_count: u8,
    delay: u8,
    side: u8,
)
    requires
        instructions(*old(a)).len() < 32,
    ensures
        instructions(*final(a)) == instructions(*old(a)).push(
            Instruction {
                operands: Operands::OUT { destination, bit_count },
                delay,
                side_set: side,
            },
        ),
        side_set(*final(a)) == side_set(*old(a)),
{
    let destination = match destination {
        OutDestination::X => pio::OutDestination::X,
    };
    a.out_with_delay_and_side_set(destination, bit_count, delay, side)
}

/// `pio::Assembler::jmp_with_delay_and_side_set`: appends a `jmp` instruction. Its address is
/// that of the label; if the label is not bound, it is what the label remembered, and the label
/// remembers this jump from then on. The crate panics if there is no room.
#[verifier::external_body]
pub(crate) fn assembler_jmp(
    a: &mut pio::Assembler<32>,
    condition: JmpCondition,
    label: &mut pio::Label,
    delay: u8,
    side: u8,
)
    requires
        instructions(*old(a)).len() < 32,
    ensures
        instructions(*final(a)) == instructions(*old(a)).push(
            Instruction {
                operands: Operands::JMP {
                    condition,
                    address: match label_state(*old(label)) {
                        LabelState::Bound { offset } => offset,
                        LabelState::Unbound { last_jump } => last_jump,
                    },
                },
                delay,
                side_set: side,
            },
        ),
        label_state(*final(label)) == match label_state(*old(label)) {
            LabelState::Bound { offset } => LabelState::Bound { offset },
            LabelState::Unbound { last_jump } => LabelState::Unbound {
                last_jump: instructions(*old(a)).len() as u8,
            },
        },
        side_set(*final(a)) == side_set(*old(a)),
{
    let condition = match condition {
        JmpCondition::Always => pio::JmpCondition::Always,
        JmpCondition::XIsZero => pio::JmpCondition::XIsZero,
    };
    a.jmp_with_delay_and_side_set(condition, label, delay, side)
}

/// `pio::Assembler::nop_with_delay_and_side_set`: appends an instruction that moves Y to Y. The
/// crate panics if there is no room.
#[verifier::external_body]
pub(crate) fn assembler_nop(a: &mut pio::Assembler<32>, delay: u8, side: u8)
    requires
        instructions(*old(a)).len() < 32,
    ensures
        instructions(*final(a)) == instructions(*old(a)).push(
            Instruction { operands: Operands::NOP, delay, side_set: side },
        ),
        side_set(*final(a)) == side_set(*old(a)),
{
    a.nop_with_delay_and_side_set(delay, side)
}

/// `pio::Assembler::assemble_with_wrap`: the words of the instructions, the instruction before
/// the `source` label as the end of the loop, and the one at the `target` label as its start. The
/// crate panics if a label is not bound, if the loop is not in the program, or if a delay or a
/// side-set value does not fit; an operand that does not fit is left out too. Stated for one
/// mandatory side-set bit.
#[verifier::external_body]
pub(crate) fn assembler_assemble(
    a: pio::Assembler<32>,
    source: pio::Label,
    target: pio::Label,
) -> (program: Program)
    requires
        !side_set(a).optional,
        side_set(a).bits == 1,
        forall|i: int| 0 <= i < instructions(a).len() ==> (#[trigger] instructions(a)[i]).fits(),
        label_state(source) matches LabelState::Bound { offset } && 0 < offset <= instructions(
            a,
        ).len(),
        label_state(target) matches LabelState::Bound { offset } && offset < instructions(a).len(),
    ensures
        program.code@.len() == instructions(a).len(),
        forall|i: int|
            0 <= i < instructions(a).len() ==> #[trigger] program.code@[i] == instructions(
                a,
            )[i].word(),
        program.wrap_source == label_state(source)->offset - 1,
        program.wrap_target == label_state(target)->offset,
        program.side_set == side_set(a),
{
    let p = a.assemble_with_wrap(source, target);
    let side_set = SideSet {
        optional: p.side_set.optional(),
        bits: p.side_set.bits(),
        pindirs: p.side_set.pindirs(),
    };
    Program {
        code: p.code.to_vec(),
        wrap_source: p.wrap.source,
        wrap_target: p.wrap.target,
        side_set,
    }
}

} // verus!
