use vstd::prelude::*;

verus! {

/// The closed set of one-byte instruction identifiers. The byte value of
/// each opcode is a stable enumeration starting at 0 for `Return`; see
/// `spec_byte` for the exact encoding.
#[derive(Debug, Clone, Copy, PartialEq, Eq, Structural)]
pub enum OpCode {
    /// Halt the current frame (forces the instruction pointer to end of stream).
    Return,
    /// Unconditional absolute jump; 2-byte big-endian target.
    Goto,
    /// Conditional absolute jump; pops a word, branches when it is nonzero.
    GotoIf,
    /// Push a local slot; 2-byte big-endian index.
    Load,
    /// Pop into a local slot; 2-byte big-endian index. Appends when the
    /// index equals the current slot count.
    Store,
    /// Push an integer constant; 8-byte big-endian two's-complement operand.
    ImmI,
    /// Push a float constant; 8-byte big-endian IEEE-754 bit pattern.
    ImmF,
    /// Push a word constant; 8-byte big-endian operand.
    ImmW,
    /// Integer addition (two's complement, wrapping).
    AddI,
    /// Integer subtraction (two's complement, wrapping).
    SubI,
    /// Integer multiplication (two's complement, wrapping).
    MulI,
    /// Integer division, truncating toward zero; dividing by zero is a
    /// reported error.
    DivI,
    /// Integer equality; pushes the word 1 or 0.
    CmpEqI,
    /// Integer greater-than; pushes the word 1 or 0.
    CmpGtI,
    /// Integer greater-or-equal; pushes the word 1 or 0.
    CmpGeI,
    /// Integer less-than; pushes the word 1 or 0.
    CmpLtI,
    /// Integer less-or-equal; pushes the word 1 or 0.
    CmpLeI,
    /// Push a small integer literal; 1-byte sign-extended operand.
    ImmIByte,
    /// Push a short integer literal; 2-byte big-endian sign-extended operand.
    ImmIShort,
    /// Push a constant-pool entry; 1-byte index.
    LoadConst,
    /// Push a captured/global slot; 2-byte big-endian index.
    LoadGlobal,
    /// Invoke a function-table entry; 1-byte index.
    Call,
    /// Integer negation (two's complement, wrapping).
    NegI,
}

impl OpCode {
    /// The stable one-byte encoding of this opcode.
    pub open spec fn spec_byte(self) -> u8 {
        match self {
            OpCode::Return => 0,
            OpCode::Goto => 1,
            OpCode::GotoIf => 2,
            OpCode::Load => 3,
            OpCode::Store => 4,
            OpCode::ImmI => 5,
            OpCode::ImmF => 6,
            OpCode::ImmW => 7,
            OpCode::AddI => 8,
            OpCode::SubI => 9,
            OpCode::MulI => 10,
            OpCode::DivI => 11,
            OpCode::CmpEqI => 12,
            OpCode::CmpGtI => 13,
            OpCode::CmpGeI => 14,
            OpCode::CmpLtI => 15,
            OpCode::CmpLeI => 16,
            OpCode::ImmIByte => 17,
            OpCode::ImmIShort => 18,
            OpCode::LoadConst => 19,
            OpCode::LoadGlobal => 20,
            OpCode::Call => 21,
            OpCode::NegI => 22,
        }
    }

    /// The opcode a byte stands for, or `None` outside the enumeration.
    pub open spec fn spec_decode(b: u8) -> Option<OpCode> {
        match b {
            0u8 => Some(OpCode::Return),
            1u8 => Some(OpCode::Goto),
            2u8 => Some(OpCode::GotoIf),
            3u8 => Some(OpCode::Load),
            4u8 => Some(OpCode::Store),
            5u8 => Some(OpCode::ImmI),
            6u8 => Some(OpCode::ImmF),
            7u8 => Some(OpCode::ImmW),
            8u8 => Some(OpCode::AddI),
            9u8 => Some(OpCode::SubI),
            10u8 => Some(OpCode::MulI),
            11u8 => Some(OpCode::DivI),
            12u8 => Some(OpCode::CmpEqI),
            13u8 => Some(OpCode::CmpGtI),
            14u8 => Some(OpCode::CmpGeI),
            15u8 => Some(OpCode::CmpLtI),
            16u8 => Some(OpCode::CmpLeI),
            17u8 => Some(OpCode::ImmIByte),
            18u8 => Some(OpCode::ImmIShort),
            19u8 => Some(OpCode::LoadConst),
            20u8 => Some(OpCode::LoadGlobal),
            21u8 => Some(OpCode::Call),
            22u8 => Some(OpCode::NegI),
            _ => None,
        }
    }

    /// The one-byte encoding of this opcode, for stream builders.
    pub fn byte(self) -> (r: u8)
        ensures
            r == self.spec_byte(),
    {
        match self {
            OpCode::Return => 0,
            OpCode::Goto => 1,
            OpCode::GotoIf => 2,
            OpCode::Load => 3,
            OpCode::Store => 4,
            OpCode::ImmI => 5,
            OpCode::ImmF => 6,
            OpCode::ImmW => 7,
            OpCode::AddI => 8,
            OpCode::SubI => 9,
            OpCode::MulI => 10,
            OpCode::DivI => 11,
            OpCode::CmpEqI => 12,
            OpCode::CmpGtI => 13,
            OpCode::CmpGeI => 14,
            OpCode::CmpLtI => 15,
            OpCode::CmpLeI => 16,
            OpCode::ImmIByte => 17,
            OpCode::ImmIShort => 18,
            OpCode::LoadConst => 19,
            OpCode::LoadGlobal => 20,
            OpCode::Call => 21,
            OpCode::NegI => 22,
        }
    }

    /// Decode one byte of the instruction stream.
    pub fn decode(b: u8) -> (r: Option<OpCode>)
        ensures
            r == OpCode::spec_decode(b),
    {
        match b {
            0 => Some(OpCode::Return),
            1 => Some(OpCode::Goto),
            2 => Some(OpCode::GotoIf),
            3 => Some(OpCode::Load),
            4 => Some(OpCode::Store),
            5 => Some(OpCode::ImmI),
            6 => Some(OpCode::ImmF),
            7 => Some(OpCode::ImmW),
            8 => Some(OpCode::AddI),
            9 => Some(OpCode::SubI),
            10 => Some(OpCode::MulI),
            11 => Some(OpCode::DivI),
            12 => Some(OpCode::CmpEqI),
            13 => Some(OpCode::CmpGtI),
            14 => Some(OpCode::CmpGeI),
            15 => Some(OpCode::CmpLtI),
            16 => Some(OpCode::CmpLeI),
            17 => Some(OpCode::ImmIByte),
            18 => Some(OpCode::ImmIShort),
            19 => Some(OpCode::LoadConst),
            20 => Some(OpCode::LoadGlobal),
            21 => Some(OpCode::Call),
            22 => Some(OpCode::NegI),
            _ => None,
        }
    }
}

/// Decoding inverts encoding: every opcode comes back from its own byte.
pub proof fn lemma_decode_byte(op: OpCode)
    ensures
        OpCode::spec_decode(op.spec_byte()) == Some(op),
{
}

} // verus!
