//! Bytecode of the stack machine that evaluates constraints.
//!
//! The machine has one stack of base field values and one stack of extension field
//! values.  An instruction takes its operands from the stacks and pushes its result.
//! It is encoded as one opcode byte, followed by its immediate operands, most
//! significant byte first.

use crate::byte_order::{push_be16, push_be32};
use vstd::prelude::*;

verus! {

/// Instruction opcodes.
#[derive(Debug, Clone, Copy, PartialEq, Eq, Structural)]
pub enum Opcode {
    /// Load a base field value from a trace column.
    LoadTraceM31,
    /// Load a base field constant.
    LoadConstM31,
    /// Duplicate the base field value at a depth.
    DupM31,
    /// Pop a base field value.
    PopM31,
    /// Swap two base field values.
    SwapM31,
    /// Pop two values, push their sum.
    AddM31,
    /// Pop `b`, pop `a`, push `a - b`.
    SubM31,
    /// Pop two values, push their product.
    MulM31,
    /// Pop `x`, push `-x`.
    NegM31,
    /// Pop `x`, push `x^2`.
    SquareM31,
    /// Pop `x`, push `1/x`.
    InvM31,
    /// Load an extension field value from trace columns.
    LoadTraceQM31,
    /// Load an extension field constant.
    LoadConstQM31,
    /// Duplicate the extension field value at a depth.
    DupQM31,
    /// Pop an extension field value.
    PopQM31,
    /// Swap two extension field values.
    SwapQM31,
    /// Load a random coefficient.
    LoadRandomCoeff,
    /// Pop two values, push their sum.
    AddQM31,
    /// Pop `b`, pop `a`, push `a - b`.
    SubQM31,
    /// Pop two values, push their product.
    MulQM31,
    /// Pop `x`, push `-x`.
    NegQM31,
    /// Pop `x`, push `x^2`.
    SquareQM31,
    /// Pop `x`, push `1/x`.
    InvQM31,
    /// Pop a base field value, push it as an extension field value.
    M31ToQM31,
    /// Pop four base field values in reverse order, push the value they are coordinates of.
    CombineEF,
    /// Pop a base field value and an extension field value, push their product.
    MulM31QM31,
    /// Pop a base field value and an extension field value, push their sum.
    AddM31QM31,
    /// Pop an extension field value and submit it as a constraint.
    AddConstraint,
    /// Mark an intermediate value; has no effect.
    MarkIntermediate,
    /// Jump if the topmost extension field value is zero.
    JumpIfZero,
    /// Jump.
    Jump,
    /// Pop a denominator and a numerator of a lookup fraction.
    WriteLogupFrac,
    /// Finalize the lookup fractions.
    FinalizeLogup,
    /// End of one program in a batch.
    ProgramEnd,
}

impl Opcode {
    /// The byte that stands for the opcode.
    pub open spec fn spec_byte(self) -> u8 {
        match self {
            Opcode::LoadTraceM31 => 0x00,
            Opcode::LoadConstM31 => 0x01,
            Opcode::DupM31 => 0x02,
            Opcode::PopM31 => 0x03,
            Opcode::SwapM31 => 0x04,
            Opcode::AddM31 => 0x10,
            Opcode::SubM31 => 0x11,
            Opcode::MulM31 => 0x12,
            Opcode::NegM31 => 0x13,
            Opcode::SquareM31 => 0x14,
            Opcode::InvM31 => 0x15,
            Opcode::LoadTraceQM31 => 0x20,
            Opcode::LoadConstQM31 => 0x21,
            Opcode::DupQM31 => 0x22,
            Opcode::PopQM31 => 0x23,
            Opcode::SwapQM31 => 0x24,
            Opcode::LoadRandomCoeff => 0x25,
            Opcode::AddQM31 => 0x30,
            Opcode::SubQM31 => 0x31,
            Opcode::MulQM31 => 0x32,
            Opcode::NegQM31 => 0x33,
            Opcode::SquareQM31 => 0x34,
            Opcode::InvQM31 => 0x35,
            Opcode::M31ToQM31 => 0x40,
            Opcode::CombineEF => 0x41,
            Opcode::MulM31QM31 => 0x42,
            Opcode::AddM31QM31 => 0x43,
            Opcode::AddConstraint => 0x50,
            Opcode::MarkIntermediate => 0x51,
            Opcode::JumpIfZero => 0x60,
            Opcode::Jump => 0x61,
            Opcode::WriteLogupFrac => 0x70,
            Opcode::FinalizeLogup => 0x71,
            Opcode::ProgramEnd => 0xFF,
        }
    }

    /// The byte that stands for the opcode.
    #[verifier::when_used_as_spec(spec_byte)]
    pub fn byte(self) -> (r: u8)
        ensures
            r == self.spec_byte(),
    {
        match self {
            Opcode::LoadTraceM31 => 0x00,
            Opcode::LoadConstM31 => 0x01,
            Opcode::DupM31 => 0x02,
            Opcode::PopM31 => 0x03,
            Opcode::SwapM31 => 0x04,
            Opcode::AddM31 => 0x10,
            Opcode::SubM31 => 0x11,
            Opcode::MulM31 => 0x12,
            Opcode::NegM31 => 0x13,
            Opcode::SquareM31 => 0x14,
            Opcode::InvM31 => 0x15,
            Opcode::LoadTraceQM31 => 0x20,
            Opcode::LoadConstQM31 => 0x21,
            Opcode::DupQM31 => 0x22,
            Opcode::PopQM31 => 0x23,
            Opcode::SwapQM31 => 0x24,
            Opcode::LoadRandomCoeff => 0x25,
            Opcode::AddQM31 => 0x30,
            Opcode::SubQM31 => 0x31,
            Opcode::MulQM31 => 0x32,
            Opcode::NegQM31 => 0x33,
            Opcode::SquareQM31 => 0x34,
            Opcode::InvQM31 => 0x35,
            Opcode::M31ToQM31 => 0x40,
            Opcode::CombineEF => 0x41,
            Opcode::MulM31QM31 => 0x42,
            Opcode::AddM31QM31 => 0x43,
            Opcode::AddConstraint => 0x50,
            Opcode::MarkIntermediate => 0x51,
            Opcode::JumpIfZero => 0x60,
            Opcode::Jump => 0x61,
            Opcode::WriteLogupFrac => 0x70,
            Opcode::FinalizeLogup => 0x71,
            Opcode::ProgramEnd => 0xFF,
        }
    }
}

/// An instruction with its operands.
#[derive(Debug, Clone, Copy, PartialEq)]
pub enum Instruction {
    LoadTraceM31 { interaction: u8, col_idx: u16, offset: i16 },
    LoadConstM31 { value: u32 },
    DupM31 { depth: u8 },
    PopM31,
    SwapM31 { depth1: u8, depth2: u8 },
    AddM31,
    SubM31,
    MulM31,
    NegM31,
    SquareM31,
    InvM31,
    LoadTraceQM31 { interaction: u8, col_idx: u16, offset: i16 },
    LoadConstQM31 { values: [u32; 4] },
    DupQM31 { depth: u8 },
    PopQM31,
    SwapQM31 { depth1: u8, depth2: u8 },
    LoadRandomCoeff { index: u16 },
    AddQM31,
    SubQM31,
    MulQM31,
    NegQM31,
    SquareQM31,
    InvQM31,
    M31ToQM31,
    CombineEF,
    MulM31QM31,
    AddM31QM31,
    AddConstraint,
    MarkIntermediate { is_extension: bool },
    JumpIfZero { offset: i16 },
    Jump { offset: i16 },
    WriteLogupFrac,
    FinalizeLogup,
    ProgramEnd,
}

impl Instruction {
    /// The instruction's opcode.
    pub open spec fn spec_opcode(self) -> Opcode {
        match self {
            Instruction::LoadTraceM31 { .. } => Opcode::LoadTraceM31,
            Instruction::LoadConstM31 { .. } => Opcode::LoadConstM31,
            Instruction::DupM31 { .. } => Opcode::DupM31,
            Instruction::PopM31 => Opcode::PopM31,
            Instruction::SwapM31 { .. } => Opcode::SwapM31,
            Instruction::AddM31 => Opcode::AddM31,
            Instruction::SubM31 => Opcode::SubM31,
            Instruction::MulM31 => Opcode::MulM31,
            Instruction::NegM31 => Opcode::NegM31,
            Instruction::SquareM31 => Opcode::SquareM31,
            Instruction::InvM31 => Opcode::InvM31,
            Instruction::LoadTraceQM31 { .. } => Opcode::LoadTraceQM31,
            Instruction::LoadConstQM31 { .. } => Opcode::LoadConstQM31,
            Instruction::DupQM31 { .. } => Opcode::DupQM31,
            Instruction::PopQM31 => Opcode::PopQM31,
            Instruction::SwapQM31 { .. } => Opcode::SwapQM31,
            Instruction::LoadRandomCoeff { .. } => Opcode::LoadRandomCoeff,
            Instruction::AddQM31 => Opcode::AddQM31,
            Instruction::SubQM31 => Opcode::SubQM31,
            Instruction::MulQM31 => Opcode::MulQM31,
            Instruction::NegQM31 => Opcode::NegQM31,
            Instruction::SquareQM31 => Opcode::SquareQM31,
            Instruction::InvQM31 => Opcode::InvQM31,
            Instruction::M31ToQM31 => Opcode::M31ToQM31,
            Instruction::CombineEF => Opcode::CombineEF,
            Instruction::MulM31QM31 => Opcode::MulM31QM31,
            Instruction::AddM31QM31 => Opcode::AddM31QM31,
            Instruction::AddConstraint => Opcode::AddConstraint,
            Instruction::MarkIntermediate { .. } => Opcode::MarkIntermediate,
            Instruction::JumpIfZero { .. } => Opcode::JumpIfZero,
            Instruction::Jump { .. } => Opcode::Jump,
            Instruction::WriteLogupFrac => Opcode::WriteLogupFrac,
            Instruction::FinalizeLogup => Opcode::FinalizeLogup,
            Instruction::ProgramEnd => Opcode::ProgramEnd,
        }
    }

    /// The bytes of the immediate operands.
    pub open spec fn operand_bytes(self) -> Seq<u8> {
        match self {
            Instruction::LoadTraceM31 { interaction, col_idx, offset } => seq![interaction]
                + crate::byte_order::be16(col_idx) + crate::byte_order::be16(offset as u16),
            Instruction::LoadConstM31 { value } => crate::byte_order::be32(value),
            Instruction::DupM31 { depth } => seq![depth],
            Instruction::SwapM31 { depth1, depth2 } => seq![depth1, depth2],
            Instruction::LoadTraceQM31 { interaction, col_idx, offset } => seq![interaction]
                + crate::byte_order::be16(col_idx) + crate::byte_order::be16(offset as u16),
            Instruction::LoadConstQM31 { values } => crate::byte_order::be32(values[0])
                + crate::byte_order::be32(values[1]) + crate::byte_order::be32(values[2])
                + crate::byte_order::be32(values[3]),
            Instruction::DupQM31 { depth } => seq![depth],
            Instruction::SwapQM31 { depth1, depth2 } => seq![depth1, depth2],
            Instruction::LoadRandomCoeff { index } => crate::byte_order::be16(index),
            Instruction::MarkIntermediate { is_extension } => seq![
                if is_extension {
                    1u8
                } else {
                    0u8
                },
            ],
            Instruction::JumpIfZero { offset } => crate::byte_order::be16(offset as u16),
            Instruction::Jump { offset } => crate::byte_order::be16(offset as u16),
            _ => Seq::empty(),
        }
    }

    /// The instruction's encoding: the opcode byte, then the operands.
    #[verifier::opaque]
    pub open spec fn encoding(self) -> Seq<u8> {
        seq![self.spec_opcode().spec_byte()] + self.operand_bytes()
    }
}

/// The encoding of a sequence of instructions.
pub open spec fn encode_all(instrs: Seq<Instruction>) -> Seq<u8>
    decreases instrs.len(),
{
    if instrs.len() == 0 {
        Seq::empty()
    } else {
        encode_all(instrs.drop_last()) + instrs.last().encoding()
    }
}

/// A bytecode program, with the sizes that a machine needs to run it.
#[derive(Debug)]
pub struct BytecodeProgram {
    /// Raw bytecode.
    pub bytes: Vec<u8>,
    /// Number of constraints in the program.
    pub n_constraints: usize,
    /// Largest number of values on the base field stack.
    pub max_m31_stack_depth: usize,
    /// Largest number of values on the extension field stack.
    pub max_qm31_stack_depth: usize,
}

impl BytecodeProgram {
    /// An empty program.
    pub fn new() -> (r: BytecodeProgram)
        ensures
            r.bytes@ == Seq::<u8>::empty(),
            r.n_constraints == 0,
            r.max_m31_stack_depth == 0,
            r.max_qm31_stack_depth == 0,
    {
        BytecodeProgram {
            bytes: vec![],
            n_constraints: 0,
            max_m31_stack_depth: 0,
            max_qm31_stack_depth: 0,
        }
    }

    /// Appends an instruction to the bytecode, and counts it if it submits a constraint.
    pub fn encode(&mut self, instr: Instruction)
        requires
            instr is AddConstraint ==> old(self).n_constraints < usize::MAX,
        ensures
            final(self).bytes@ == old(self).bytes@ + instr.encoding(),
            final(self).n_constraints == old(self).n_constraints + (if instr is AddConstraint {
                1int
            } else {
                0int
            }),
            final(self).max_m31_stack_depth == old(self).max_m31_stack_depth,
            final(self).max_qm31_stack_depth == old(self).max_qm31_stack_depth,
            final(self).bytes.len() > old(self).bytes.len(),
    {
        reveal(Instruction::encoding);
        match instr {
            Instruction::LoadTraceM31 { interaction, col_idx, offset } => {
                self.bytes.push(Opcode::LoadTraceM31.byte());
                self.bytes.push(interaction);
                push_be16(&mut self.bytes, col_idx);
                push_be16(&mut self.bytes, offset as u16);
            },
            Instruction::LoadConstM31 { value } => {
                self.bytes.push(Opcode::LoadConstM31.byte());
                push_be32(&mut self.bytes, value);
            },
            Instruction::DupM31 { depth } => {
                self.bytes.push(Opcode::DupM31.byte());
                self.bytes.push(depth);
            },
            Instruction::PopM31 => self.bytes.push(Opcode::PopM31.byte()),
            Instruction::SwapM31 { depth1, depth2 } => {
                self.bytes.push(Opcode::SwapM31.byte());
                self.bytes.push(depth1);
                self.bytes.push(depth2);
            },
            Instruction::AddM31 => self.bytes.push(Opcode::AddM31.byte()),
            Instruction::SubM31 => self.bytes.push(Opcode::SubM31.byte()),
            Instruction::MulM31 => self.bytes.push(Opcode::MulM31.byte()),
            Instruction::NegM31 => self.bytes.push(Opcode::NegM31.byte()),
            Instruction::SquareM31 => self.bytes.push(Opcode::SquareM31.byte()),
            Instruction::InvM31 => self.bytes.push(Opcode::InvM31.byte()),
            Instruction::LoadTraceQM31 { interaction, col_idx, offset } => {
                self.bytes.push(Opcode::LoadTraceQM31.byte());
                self.bytes.push(interaction);
                push_be16(&mut self.bytes, col_idx);
                push_be16(&mut self.bytes, offset as u16);
            },
            Instruction::LoadConstQM31 { values } => {
                self.bytes.push(Opcode::LoadConstQM31.byte());
                push_be32(&mut self.bytes, values[0]);
                push_be32(&mut self.bytes, values[1]);
                push_be32(&mut self.bytes, values[2]);
                push_be32(&mut self.bytes, values[3]);
            },
            Instruction::DupQM31 { depth } => {
                self.bytes.push(Opcode::DupQM31.byte());
                self.bytes.push(depth);
            },
            Instruction::PopQM31 => self.bytes.push(Opcode::PopQM31.byte()),
            Instruction::SwapQM31 { depth1, depth2 } => {
                self.bytes.push(Opcode::SwapQM31.byte());
                self.bytes.push(depth1);
                self.bytes.push(depth2);
            },
            Instruction::LoadRandomCoeff { index } => {
                self.bytes.push(Opcode::LoadRandomCoeff.byte());
                push_be16(&mut self.bytes, index);
            },
            Instruction::AddQM31 => self.bytes.push(Opcode::AddQM31.byte()),
            Instruction::SubQM31 => self.bytes.push(Opcode::SubQM31.byte()),
            Instruction::MulQM31 => self.bytes.push(Opcode::MulQM31.byte()),
            Instruction::NegQM31 => self.bytes.push(Opcode::NegQM31.byte()),
            Instruction::SquareQM31 => self.bytes.push(Opcode::SquareQM31.byte()),
            Instruction::InvQM31 => self.bytes.push(Opcode::InvQM31.byte()),
            Instruction::M31ToQM31 => self.bytes.push(Opcode::M31ToQM31.byte()),
            Instruction::CombineEF => self.bytes.push(Opcode::CombineEF.byte()),
            Instruction::MulM31QM31 => self.bytes.push(Opcode::MulM31QM31.byte()),
            Instruction::AddM31QM31 => self.bytes.push(Opcode::AddM31QM31.byte()),
            Instruction::AddConstraint => {
                self.bytes.push(Opcode::AddConstraint.byte());
                self.n_constraints += 1;
            },
            Instruction::MarkIntermediate { is_extension } => {
                self.bytes.push(Opcode::MarkIntermediate.byte());
                self.bytes.push(
                    if is_extension {
                        1
                    } else {
                        0
                    },
                );
            },
            Instruction::JumpIfZero { offset } => {
                self.bytes.push(Opcode::JumpIfZero.byte());
                push_be16(&mut self.bytes, offset as u16);
            },
            Instruction::Jump { offset } => {
                self.bytes.push(Opcode::Jump.byte());
                push_be16(&mut self.bytes, offset as u16);
            },
            Instruction::WriteLogupFrac => self.bytes.push(Opcode::WriteLogupFrac.byte()),
            Instruction::FinalizeLogup => self.bytes.push(Opcode::FinalizeLogup.byte()),
            Instruction::ProgramEnd => self.bytes.push(Opcode::ProgramEnd.byte()),
        }
        assert(self.bytes@ =~= old(self).bytes@ + instr.encoding());
    }

    /// Raises the recorded stack depths to the given ones.
    pub fn update_stack_depth(&mut self, m31_depth: usize, qm31_depth: usize)
        ensures
            final(self).bytes@ == old(self).bytes@,
            final(self).n_constraints == old(self).n_constraints,
            final(self).max_m31_stack_depth == vstd::math::max(
                old(self).max_m31_stack_depth as int,
                m31_depth as int,
            ),
            final(self).max_qm31_stack_depth == vstd::math::max(
                old(self).max_qm31_stack_depth as int,
                qm31_depth as int,
            ),
    {
        if m31_depth > self.max_m31_stack_depth {
            self.max_m31_stack_depth = m31_depth;
        }
        if qm31_depth > self.max_qm31_stack_depth {
            self.max_qm31_stack_depth = qm31_depth;
        }
    }
}

impl Clone for BytecodeProgram {
    fn clone(&self) -> (r: BytecodeProgram)
        ensures
            r.bytes@ == self.bytes@,
            r.n_constraints == self.n_constraints,
            r.max_m31_stack_depth == self.max_m31_stack_depth,
            r.max_qm31_stack_depth == self.max_qm31_stack_depth,
    {
        let bytes = self.bytes.clone();
        assert(bytes@ =~= self.bytes@);
        BytecodeProgram {
            bytes,
            n_constraints: self.n_constraints,
            max_m31_stack_depth: self.max_m31_stack_depth,
            max_qm31_stack_depth: self.max_qm31_stack_depth,
        }
    }
}

impl Default for BytecodeProgram {
    fn default() -> (r: BytecodeProgram)
        ensures
            r.bytes@ == Seq::<u8>::empty(),
            r.n_constraints == 0,
            r.max_m31_stack_depth == 0,
            r.max_qm31_stack_depth == 0,
    {
        BytecodeProgram::new()
    }
}

/// Number of operand bytes that follow an opcode.
pub open spec fn operand_len(op: Opcode) -> nat {
    match op {
        Opcode::LoadTraceM31 | Opcode::LoadTraceQM31 => 5,
        Opcode::LoadConstM31 => 4,
        Opcode::LoadConstQM31 => 16,
        Opcode::SwapM31 | Opcode::SwapQM31 => 2,
        Opcode::LoadRandomCoeff | Opcode::JumpIfZero | Opcode::Jump => 2,
        Opcode::DupM31 | Opcode::DupQM31 | Opcode::MarkIntermediate => 1,
        _ => 0,
    }
}

/// The opcode byte alone tells how many bytes an instruction takes.
pub proof fn lemma_encoding_len(instr: Instruction)
    ensures
        instr.operand_bytes().len() == operand_len(instr.spec_opcode()),
        instr.encoding().len() == 1 + operand_len(instr.spec_opcode()),
{
    reveal(Instruction::encoding);
}

/// Two opcodes with the same byte are the same.
pub proof fn lemma_opcode_byte_injective(a: Opcode, b: Opcode)
    requires
        a.spec_byte() == b.spec_byte(),
    ensures
        a == b,
{
}

proof fn lemma_i16_cast_injective(a: i16, b: i16)
    requires
        a as u16 == b as u16,
    ensures
        a == b,
{
    assert(a as u16 == b as u16 ==> a == b) by (bit_vector);
}

proof fn lemma_trace_operands_injective(
    ia: u8,
    ca: u16,
    oa: i16,
    ib: u8,
    cb: u16,
    ob: i16,
)
    requires
        seq![ia] + crate::byte_order::be16(ca) + crate::byte_order::be16(oa as u16) == seq![ib]
            + crate::byte_order::be16(cb) + crate::byte_order::be16(ob as u16),
    ensures
        ia == ib,
        ca == cb,
        oa == ob,
{
    let x = seq![ia] + crate::byte_order::be16(ca) + crate::byte_order::be16(oa as u16);
    let y = seq![ib] + crate::byte_order::be16(cb) + crate::byte_order::be16(ob as u16);
    assert(x[0] == y[0]);
    assert(x.subrange(1, 3) =~= crate::byte_order::be16(ca));
    assert(y.subrange(1, 3) =~= crate::byte_order::be16(cb));
    assert(x.subrange(3, 5) =~= crate::byte_order::be16(oa as u16));
    assert(y.subrange(3, 5) =~= crate::byte_order::be16(ob as u16));
    crate::byte_order::lemma_be16_injective(ca, cb);
    crate::byte_order::lemma_be16_injective(oa as u16, ob as u16);
    lemma_i16_cast_injective(oa, ob);
}

proof fn lemma_const_operands_injective(a: [u32; 4], b: [u32; 4])
    requires
        (Instruction::LoadConstQM31 { values: a }).operand_bytes() == (
        Instruction::LoadConstQM31 { values: b }).operand_bytes(),
    ensures
        a == b,
{
    let x = (Instruction::LoadConstQM31 { values: a }).operand_bytes();
    let y = (Instruction::LoadConstQM31 { values: b }).operand_bytes();
    assert forall|i: int| 0 <= i < 4 implies a[i] == b[i] by {
        assert(x.subrange(4 * i, 4 * i + 4) =~= crate::byte_order::be32(a[i]));
        assert(y.subrange(4 * i, 4 * i + 4) =~= crate::byte_order::be32(b[i]));
        crate::byte_order::lemma_be32_injective(a[i], b[i]);
    }
    assert(a =~= b);
}

/// Two instructions with the same encoding are the same.
pub proof fn lemma_encoding_injective(a: Instruction, b: Instruction)
    requires
        a.encoding() == b.encoding(),
    ensures
        a == b,
{
    reveal(Instruction::encoding);
    assert(a.encoding()[0] == a.spec_opcode().spec_byte());
    assert(b.encoding()[0] == b.spec_opcode().spec_byte());
    lemma_opcode_byte_injective(a.spec_opcode(), b.spec_opcode());
    assert(a.encoding().skip(1) =~= a.operand_bytes());
    assert(b.encoding().skip(1) =~= b.operand_bytes());
    let x = a.operand_bytes();
    let y = b.operand_bytes();
    assert(forall|i: int| 0 <= i < x.len() ==> x[i] == y[i]);
    match (a, b) {
        (
            Instruction::LoadTraceM31 { interaction: ia, col_idx: ca, offset: oa },
            Instruction::LoadTraceM31 { interaction: ib, col_idx: cb, offset: ob },
        ) => lemma_trace_operands_injective(ia, ca, oa, ib, cb, ob),
        (
            Instruction::LoadTraceQM31 { interaction: ia, col_idx: ca, offset: oa },
            Instruction::LoadTraceQM31 { interaction: ib, col_idx: cb, offset: ob },
        ) => lemma_trace_operands_injective(ia, ca, oa, ib, cb, ob),
        (
            Instruction::LoadConstM31 { value: va },
            Instruction::LoadConstM31 { value: vb },
        ) => crate::byte_order::lemma_be32_injective(va, vb),
        (
            Instruction::LoadConstQM31 { values: va },
            Instruction::LoadConstQM31 { values: vb },
        ) => lemma_const_operands_injective(va, vb),
        (
            Instruction::LoadRandomCoeff { index: ka },
            Instruction::LoadRandomCoeff { index: kb },
        ) => crate::byte_order::lemma_be16_injective(ka, kb),
        (Instruction::JumpIfZero { offset: oa }, Instruction::JumpIfZero { offset: ob }) => {
            crate::byte_order::lemma_be16_injective(oa as u16, ob as u16);
            lemma_i16_cast_injective(oa, ob);
        },
        (Instruction::Jump { offset: oa }, Instruction::Jump { offset: ob }) => {
            crate::byte_order::lemma_be16_injective(oa as u16, ob as u16);
            lemma_i16_cast_injective(oa, ob);
        },
        _ => {
            assert(x.len() > 0 ==> x[0] == y[0]);
            assert(x.len() > 1 ==> x[1] == y[1]);
        },
    }
}

/// An encoding starts with the encoding of the first instruction.
proof fn lemma_encode_all_first(instrs: Seq<Instruction>)
    requires
        instrs.len() > 0,
    ensures
        encode_all(instrs) == instrs[0].encoding() + encode_all(instrs.skip(1)),
    decreases instrs.len(),
{
    reveal_with_fuel(encode_all, 2);
    if instrs.len() == 1 {
        assert(encode_all(instrs) =~= instrs[0].encoding());
        assert(encode_all(instrs.skip(1)) =~= Seq::<u8>::empty());
        assert(encode_all(instrs) =~= instrs[0].encoding() + encode_all(instrs.skip(1)));
    } else {
        lemma_encode_all_first(instrs.drop_last());
        assert(instrs.drop_last().skip(1) =~= instrs.skip(1).drop_last());
        assert(encode_all(instrs) =~= instrs[0].encoding() + encode_all(instrs.skip(1)));
    }
}

/// The encoding of two sequences in a row is the encoding of their concatenation.
pub proof fn lemma_encode_all_concat(a: Seq<Instruction>, b: Seq<Instruction>)
    ensures
        encode_all(a + b) == encode_all(a) + encode_all(b),
    decreases b.len(),
{
    if b.len() == 0 {
        assert(a + b =~= a);
        assert(encode_all(a) + encode_all(b) =~= encode_all(a));
    } else {
        lemma_encode_all_concat(a, b.drop_last());
        assert((a + b).drop_last() =~= a + b.drop_last());
        assert(encode_all(a + b) =~= encode_all(a) + encode_all(b));
    }
}

/// Bytecode can be read back in only one way: two instruction sequences with the same
/// encoding are the same.
pub proof fn law_bytecode_uniquely_decodable(a: Seq<Instruction>, b: Seq<Instruction>)
    requires
        encode_all(a) == encode_all(b),
    ensures
        a == b,
    decreases a.len(),
{
    reveal(Instruction::encoding);
    if a.len() == 0 {
        if b.len() > 0 {
            lemma_encode_all_first(b);
            lemma_encoding_len(b[0]);
            assert(encode_all(b).len() > 0);
        }
        assert(a =~= b);
    } else {
        lemma_encode_all_first(a);
        lemma_encoding_len(a[0]);
        if b.len() == 0 {
            assert(encode_all(a).len() > 0);
        } else {
            lemma_encode_all_first(b);
            lemma_encoding_len(b[0]);
            let bytes = encode_all(a);
            assert(bytes[0] == a[0].spec_opcode().spec_byte());
            assert(bytes[0] == b[0].spec_opcode().spec_byte());
            lemma_opcode_byte_injective(a[0].spec_opcode(), b[0].spec_opcode());
            let n = a[0].encoding().len() as int;
            assert(bytes.take(n) =~= a[0].encoding());
            assert(bytes.take(n) =~= b[0].encoding());
            lemma_encoding_injective(a[0], b[0]);
            assert(bytes.skip(n) =~= encode_all(a.skip(1)));
            assert(bytes.skip(n) =~= encode_all(b.skip(1)));
            law_bytecode_uniquely_decodable(a.skip(1), b.skip(1));
            assert(a =~= seq![a[0]] + a.skip(1));
            assert(b =~= seq![b[0]] + b.skip(1));
        }
    }
}

/// The number that two bytes hold, most significant first.
pub open spec fn number16(bytes: Seq<u8>, at: int) -> int {
    256 * bytes[at] + bytes[at + 1]
}

/// The number that four bytes hold, most significant first.
pub open spec fn number32(bytes: Seq<u8>, at: int) -> int {
    0x1_0000 * number16(bytes, at) + number16(bytes, at + 2)
}

/// The signed number that two bytes hold, in two's complement.
pub open spec fn signed16(bytes: Seq<u8>, at: int) -> int {
    if number16(bytes, at) < 0x8000 {
        number16(bytes, at)
    } else {
        number16(bytes, at) - 0x1_0000
    }
}

/// The instruction that a machine takes from the front of bytecode.
pub open spec fn decoded(bytes: Seq<u8>) -> Option<Instruction> {
    if bytes.len() == 0 {
        None
    } else {
        let high = bytes[0] / 16;
        let low = bytes[0] % 16;
        if high == 0 || high == 2 {
            decoded_stack(bytes, high == 2, low)
        } else if high == 1 || high == 3 {
            decoded_arithmetic(high == 3, low)
        } else if high == 4 {
            if low == 0 {
                Some(Instruction::M31ToQM31)
            } else if low == 1 {
                Some(Instruction::CombineEF)
            } else if low == 2 {
                Some(Instruction::MulM31QM31)
            } else if low == 3 {
                Some(Instruction::AddM31QM31)
            } else {
                None
            }
        } else if high == 5 {
            if low == 0 {
                Some(Instruction::AddConstraint)
            } else if low == 1 {
                Some(Instruction::MarkIntermediate { is_extension: bytes[1] != 0 })
            } else {
                None
            }
        } else if high == 6 {
            let offset = signed16(bytes, 1) as i16;
            if low == 0 {
                Some(Instruction::JumpIfZero { offset })
            } else if low == 1 {
                Some(Instruction::Jump { offset })
            } else {
                None
            }
        } else if high == 7 {
            if low == 0 {
                Some(Instruction::WriteLogupFrac)
            } else if low == 1 {
                Some(Instruction::FinalizeLogup)
            } else {
                None
            }
        } else if high == 15 && low == 15 {
            Some(Instruction::ProgramEnd)
        } else {
            None
        }
    }
}

/// A load, or an instruction that moves values within one stack.
pub open spec fn decoded_stack(bytes: Seq<u8>, extension: bool, low: u8) -> Option<Instruction> {
    if low == 0 {
        let interaction = bytes[1];
        let col_idx = number16(bytes, 2) as u16;
        let offset = signed16(bytes, 4) as i16;
        Some(
            if extension {
                Instruction::LoadTraceQM31 { interaction, col_idx, offset }
            } else {
                Instruction::LoadTraceM31 { interaction, col_idx, offset }
            },
        )
    } else if low == 1 {
        Some(
            if extension {
                Instruction::LoadConstQM31 {
                    values: [
                        number32(bytes, 1) as u32,
                        number32(bytes, 5) as u32,
                        number32(bytes, 9) as u32,
                        number32(bytes, 13) as u32,
                    ],
                }
            } else {
                Instruction::LoadConstM31 { value: number32(bytes, 1) as u32 }
            },
        )
    } else if low == 2 {
        Some(
            if extension {
                Instruction::DupQM31 { depth: bytes[1] }
            } else {
                Instruction::DupM31 { depth: bytes[1] }
            },
        )
    } else if low == 3 {
        Some(
            if extension {
                Instruction::PopQM31
            } else {
                Instruction::PopM31
            },
        )
    } else if low == 4 {
        Some(
            if extension {
                Instruction::SwapQM31 { depth1: bytes[1], depth2: bytes[2] }
            } else {
                Instruction::SwapM31 { depth1: bytes[1], depth2: bytes[2] }
            },
        )
    } else if low == 5 && extension {
        Some(Instruction::LoadRandomCoeff { index: number16(bytes, 1) as u16 })
    } else {
        None
    }
}

/// Arithmetic on one stack.
pub open spec fn decoded_arithmetic(extension: bool, low: u8) -> Option<Instruction> {
    let pair = if low == 0 {
        Some((Instruction::AddM31, Instruction::AddQM31))
    } else if low == 1 {
        Some((Instruction::SubM31, Instruction::SubQM31))
    } else if low == 2 {
        Some((Instruction::MulM31, Instruction::MulQM31))
    } else if low == 3 {
        Some((Instruction::NegM31, Instruction::NegQM31))
    } else if low == 4 {
        Some((Instruction::SquareM31, Instruction::SquareQM31))
    } else if low == 5 {
        Some((Instruction::InvM31, Instruction::InvQM31))
    } else {
        None
    };
    match pair {
        Some((base, ext)) => Some(
            if extension {
                ext
            } else {
                base
            },
        ),
        None => None,
    }
}

/// The two bytes of a number, wherever they stand, hold it.
proof fn lemma_number16_found(bytes: Seq<u8>, at: int, x: u16)
    requires
        0 <= at,
        at + 2 <= bytes.len(),
        bytes.subrange(at, at + 2) == crate::byte_order::be16(x),
    ensures
        number16(bytes, at) == x,
{
    crate::byte_order::law_big_endian_value(x, 0);
    assert(bytes[at] == bytes.subrange(at, at + 2)[0]);
    assert(bytes[at + 1] == bytes.subrange(at, at + 2)[1]);
}

/// The two bytes of a signed number, wherever they stand, hold it.
proof fn lemma_signed16_found(bytes: Seq<u8>, at: int, x: i16)
    requires
        0 <= at,
        at + 2 <= bytes.len(),
        bytes.subrange(at, at + 2) == crate::byte_order::be16(x as u16),
    ensures
        signed16(bytes, at) == x,
{
    lemma_number16_found(bytes, at, x as u16);
    assert(x as u16 == if x < 0 {
        x + 0x1_0000
    } else {
        x as int
    }) by (bit_vector);
}

/// The four bytes of a number, wherever they stand, hold it.
proof fn lemma_number32_found(bytes: Seq<u8>, at: int, x: u32)
    requires
        0 <= at,
        at + 4 <= bytes.len(),
        bytes.subrange(at, at + 4) == crate::byte_order::be32(x),
    ensures
        number32(bytes, at) == x,
{
    crate::byte_order::law_big_endian_value(0, x);
    let part = bytes.subrange(at, at + 4);
    assert(bytes[at] == part[0] && bytes[at + 1] == part[1]);
    assert(bytes[at + 2] == part[2] && bytes[at + 3] == part[3]);
}

/// A machine that reads an encoded instruction gets the instruction, whatever follows.
#[verifier::rlimit(40)]
pub proof fn law_machine_reads_instruction(instr: Instruction, rest: Seq<u8>)
    ensures
        decoded(instr.encoding() + rest) == Some(instr),
{
    reveal(Instruction::encoding);
    lemma_encoding_len(instr);
    let bytes = instr.encoding() + rest;
    let operands = instr.operand_bytes();
    assert(bytes[0] == instr.spec_opcode().spec_byte());
    assert forall|i: int| 0 <= i < operands.len() implies #[trigger] operands[i] == bytes[i
        + 1] by {}
    match instr {
        Instruction::LoadTraceM31 { interaction, col_idx, offset } => {
            assert(operands[0] == interaction);
            assert(bytes.subrange(2, 4) =~= crate::byte_order::be16(col_idx));
            assert(bytes.subrange(4, 6) =~= crate::byte_order::be16(offset as u16));
            lemma_number16_found(bytes, 2, col_idx);
            lemma_signed16_found(bytes, 4, offset);
        },
        Instruction::LoadTraceQM31 { interaction, col_idx, offset } => {
            assert(operands[0] == interaction);
            assert(bytes.subrange(2, 4) =~= crate::byte_order::be16(col_idx));
            assert(bytes.subrange(4, 6) =~= crate::byte_order::be16(offset as u16));
            lemma_number16_found(bytes, 2, col_idx);
            lemma_signed16_found(bytes, 4, offset);
        },
        Instruction::LoadConstM31 { value } => {
            assert(bytes.subrange(1, 5) =~= crate::byte_order::be32(value));
            lemma_number32_found(bytes, 1, value);
        },
        Instruction::LoadConstQM31 { values } => {
            assert(bytes.subrange(1, 5) =~= crate::byte_order::be32(values[0]));
            assert(bytes.subrange(5, 9) =~= crate::byte_order::be32(values[1]));
            assert(bytes.subrange(9, 13) =~= crate::byte_order::be32(values[2]));
            assert(bytes.subrange(13, 17) =~= crate::byte_order::be32(values[3]));
            lemma_number32_found(bytes, 1, values[0]);
            lemma_number32_found(bytes, 5, values[1]);
            lemma_number32_found(bytes, 9, values[2]);
            lemma_number32_found(bytes, 13, values[3]);
            assert([values[0], values[1], values[2], values[3]] =~= values);
        },
        Instruction::LoadRandomCoeff { index } => {
            assert(bytes.subrange(1, 3) =~= crate::byte_order::be16(index));
            lemma_number16_found(bytes, 1, index);
        },
        Instruction::JumpIfZero { offset } => {
            assert(bytes.subrange(1, 3) =~= crate::byte_order::be16(offset as u16));
            lemma_signed16_found(bytes, 1, offset);
        },
        Instruction::Jump { offset } => {
            assert(bytes.subrange(1, 3) =~= crate::byte_order::be16(offset as u16));
            lemma_signed16_found(bytes, 1, offset);
        },
        _ => {
            assert(operands.len() > 0 ==> operands[0] == bytes[1]);
            assert(operands.len() > 1 ==> operands[1] == bytes[2]);
        },
    }
}

} // verus!
