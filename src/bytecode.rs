//! The virtual machine's instruction set: one byte per opcode.
use vstd::prelude::*;

verus! {

/// An instruction of the virtual machine. Its byte is its position in this
/// list: HALT 0x00, PUSH 0x01, ADD 0x02, SUB 0x03.
#[derive(Debug, Clone, Copy, PartialEq, Eq, Structural)]
pub enum OpCode {
    /// Stops and returns the top of the stack.
    Halt,
    /// Pushes the little-endian `i64` held in the next 8 bytes.
    Push,
    /// Pops `b`, pops `a`, pushes `a + b` (wrapping).
    Add,
    /// Pops `b`, pops `a`, pushes `a - b` (wrapping).
    Sub,
}

/// The opcode a byte encodes, if any.
pub open spec fn opcode_of(byte: u8) -> Option<OpCode> {
    if byte == 0 {
        Some(OpCode::Halt)
    } else if byte == 1 {
        Some(OpCode::Push)
    } else if byte == 2 {
        Some(OpCode::Add)
    } else if byte == 3 {
        Some(OpCode::Sub)
    } else {
        None
    }
}

impl OpCode {
    /// The byte that encodes this opcode.
    pub open spec fn spec_byte(self) -> u8 {
        match self {
            OpCode::Halt => 0,
            OpCode::Push => 1,
            OpCode::Add => 2,
            OpCode::Sub => 3,
        }
    }

    /// Decodes a byte; `None` for a byte that is no opcode.
    pub fn from_byte(byte: u8) -> (r: Option<OpCode>)
        ensures
            r == opcode_of(byte),
    {
        match byte {
            0 => Some(OpCode::Halt),
            1 => Some(OpCode::Push),
            2 => Some(OpCode::Add),
            3 => Some(OpCode::Sub),
            _ => None,
        }
    }

    /// The byte that encodes this opcode.
    pub fn to_byte(self) -> (r: u8)
        ensures
            r == self.spec_byte(),
            opcode_of(r) == Some(self),
    {
        match self {
            OpCode::Halt => 0,
            OpCode::Push => 1,
            OpCode::Add => 2,
            OpCode::Sub => 3,
        }
    }
}

} // verus!
