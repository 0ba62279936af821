//! Errors raised while running a byte program.
use std::collections::TryReserveError;
use vstd::prelude::*;

verus! {

/// Relies on `TryReserveError::clone`, which std derives; the value is opaque
/// here, so nothing is claimed of the copy.
pub assume_specification[ <TryReserveError as Clone>::clone ](e: &TryReserveError) -> TryReserveError;

/// Why an execution, or a single stack operation, stopped.
#[derive(Debug, Clone)]
pub enum StackError {
    /// A value was popped from an empty stack, at offset `idx` while running opcode `op`.
    EmptyStack { idx: usize, op: u8 },
    /// The stack could not grow by one element.
    ReserveError { source: TryReserveError },
    /// The byte `byte` at offset `idx` is no opcode.
    UnknownOp { idx: usize, byte: u8 },
}

impl StackError {
    /// The same error with an unknown-opcode position moved one byte on; the
    /// other kinds are kept as they are.
    pub fn step(&self) -> (r: Self)
        requires
            self matches StackError::UnknownOp { idx, .. } ==> idx < usize::MAX,
        ensures
            match (*self, r) {
                (StackError::EmptyStack { idx, op }, StackError::EmptyStack { idx: i, op: o }) =>
                    i == idx && o == op,
                (StackError::ReserveError { .. }, StackError::ReserveError { .. }) => true,
                (StackError::UnknownOp { idx, byte }, StackError::UnknownOp { idx: i, byte: b }) =>
                    i == idx + 1 && b == byte,
                _ => false,
            },
    {
        match self {
            StackError::EmptyStack { idx, op } => StackError::EmptyStack { idx: *idx, op: *op },
            StackError::ReserveError { source } => StackError::ReserveError {
                source: source.clone(),
            },
            StackError::UnknownOp { idx, byte } => StackError::UnknownOp { idx: *idx + 1, byte: *byte },
        }
    }
}

} // verus!
