//! The VM instruction set and its basic classification.

use vstd::prelude::*;

verus! {

/// The VM instruction opcodes.
///
/// A function is a flat, ordered sequence of these. Jump targets are absolute
/// instruction indices in `[0, N]`, where `N` is the instruction count; an
/// index equal to `N` denotes the one-past-the-end exit position.
///
/// The machine has no native float unit of its own: a 32-bit float constant is
/// carried as its IEEE-754 bit pattern, and flows through the stack and the
/// local slots unchanged.
#[derive(Clone, Copy, PartialEq, Eq, Structural, Debug)]
pub enum Opcode {
    /// No operation.
    Nop,
    /// Binary opcodes: pop two values from the stack and push the result.
    Add,
    Subtract,
    Multiply,
    Divide,
    And,
    Or,
    Xor,
    Eq,
    Neq,
    Leq,
    Geq,
    Lt,
    Gt,
    /// Unary opcodes: pop a value from the stack and push the result.
    Negate,
    Not,
    /// Pushes the 32-bit float constant with the given IEEE-754 bit pattern.
    Constf32(u32),
    /// Pushes the given 32-bit integer constant.
    Consti32(i32),
    /// Pops a value from the stack and returns it.
    Ret,
    /// Pops a value from the stack and displays it.
    Disp,
    /// Pops a value from the stack and stores it in the given local slot.
    Store(u32),
    /// Loads the given local slot and pushes it, tagged as a float.
    Loadf32(u32),
    /// Loads the given local slot and pushes it, tagged as an integer.
    Loadi32(u32),
    /// Jumps to the instruction at the given absolute index.
    Jmp(u32),
    /// Pops a value and jumps to the given index if it is nonzero.
    Iftrue(u32),
    /// Pops a value and jumps to the given index if it is zero.
    Iffalse(u32),
}

/// True of the three control-transfer opcodes, which never appear inside a
/// basic block: they become edges of the control-flow graph.
pub open spec fn is_branch(op: Opcode) -> bool {
    match op {
        Opcode::Jmp(_) | Opcode::Iftrue(_) | Opcode::Iffalse(_) => true,
        _ => false,
    }
}

/// The absolute target index of a control-transfer opcode.
pub open spec fn branch_target(op: Opcode) -> u32
    recommends
        is_branch(op),
{
    match op {
        Opcode::Jmp(t) => t,
        Opcode::Iftrue(t) => t,
        Opcode::Iffalse(t) => t,
        _ => 0,
    }
}

/// The local slot referenced by a `Store`/`Loadi32`/`Loadf32` opcode, if any.
pub open spec fn slot_ref(op: Opcode) -> Option<u32> {
    match op {
        Opcode::Store(a) => Some(a),
        Opcode::Loadf32(a) => Some(a),
        Opcode::Loadi32(a) => Some(a),
        _ => None,
    }
}

} // verus!
