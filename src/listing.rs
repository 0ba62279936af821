//! A listing of a byte program, instruction by instruction, for display.
use crate::machine::is_opcode;
use vstd::prelude::*;

verus! {

/// What a byte of the program is, read from the start.
#[derive(Debug, Clone, Copy, PartialEq, Eq, Structural)]
pub enum Role {
    /// An opcode.
    Instruction,
    /// The operand byte of the instruction before it.
    Operand,
    /// The operand that the instruction before it lacks: the program ends.
    MissingOperand,
    /// A byte that is no opcode.
    Unknown,
}

/// One line of a listing: offset, byte (0 for a missing operand), role.
#[derive(Debug, Clone, Copy, PartialEq, Eq, Structural)]
pub struct Line {
    pub idx: usize,
    pub byte: u8,
    pub role: Role,
}

/// PUSH, JMP and JNZ take an operand byte.
pub open spec fn has_operand(b: u8) -> bool {
    b == 0x20 || b == 0x30 || b == 0x31
}

/// The listing of `code` from offset `i` on.
pub open spec fn listing_from(code: Seq<u8>, i: int) -> Seq<Line>
    decreases code.len() - i,
{
    if i < 0 || i >= code.len() {
        seq![]
    } else {
        let b = code[i];
        if !is_opcode(b) {
            seq![Line { idx: i as usize, byte: b, role: Role::Unknown }] + listing_from(code, i + 1)
        } else if !has_operand(b) {
            seq![Line { idx: i as usize, byte: b, role: Role::Instruction }] + listing_from(code, i + 1)
        } else if i + 1 < code.len() {
            seq![
                Line { idx: i as usize, byte: b, role: Role::Instruction },
                Line { idx: (i + 1) as usize, byte: code[i + 1], role: Role::Operand },
            ] + listing_from(code, i + 2)
        } else {
            seq![
                Line { idx: i as usize, byte: b, role: Role::Instruction },
                Line { idx: (i + 1) as usize, byte: 0, role: Role::MissingOperand },
            ]
        }
    }
}

fn opcode_known(b: u8) -> (r: bool)
    ensures
        r == is_opcode(b),
{
    b <= 0x05 || b == 0x10 || b == 0x11 || b == 0x12 || (0x20 <= b && b <= 0x23) || b == 0x30 || b
        == 0x31 || b == 0xFF
}

/// Decodes `code` from the start into listing lines.
pub fn disassemble(code: &[u8]) -> (r: Vec<Line>)
    ensures
        r@ == listing_from(code@, 0),
{
    let mut lines: Vec<Line> = Vec::new();
    let mut i: usize = 0;
    assert(lines@ + listing_from(code@, 0) =~= listing_from(code@, 0));
    while i < code.len()
        invariant
            i <= code@.len(),
            listing_from(code@, 0) == lines@ + listing_from(code@, i as int),
        decreases code@.len() - i,
    {
        let ghost l0 = lines@;
        let ghost i0 = i;
        let b = code[i];
        if !opcode_known(b) {
            lines.push(Line { idx: i, byte: b, role: Role::Unknown });
            i = i + 1;
        } else if !(b == 0x20 || b == 0x30 || b == 0x31) {
            lines.push(Line { idx: i, byte: b, role: Role::Instruction });
            i = i + 1;
        } else if i + 1 < code.len() {
            lines.push(Line { idx: i, byte: b, role: Role::Instruction });
            lines.push(Line { idx: i + 1, byte: code[i + 1], role: Role::Operand });
            i = i + 2;
        } else {
            lines.push(Line { idx: i, byte: b, role: Role::Instruction });
            lines.push(Line { idx: i + 1, byte: 0, role: Role::MissingOperand });
            assert(lines@ =~= l0 + listing_from(code@, i as int));
            return lines;
        }
        assert(lines@ + listing_from(code@, i as int) =~= l0 + listing_from(code@, i0 as int));
    }
    assert(lines@ + Seq::<Line>::empty() =~= lines@);
    lines
}

} // verus!
