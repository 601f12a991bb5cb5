//! Runtime scalar values and the exact semantics of the machine's
//! arithmetic, logical and comparison operations.
//!
//! The engine defines exact semantics over 32-bit signed integers: addition,
//! subtraction, multiplication and negation wrap; division truncates towards
//! zero, wraps on `i32::MIN / -1`, and fails on a zero divisor; comparisons
//! push 0 or 1 as an integer. A 32-bit float is carried as its IEEE-754 bit
//! pattern and flows through loads, stores, returns and conditions unchanged;
//! of the operations, only negation (a sign-bit flip) is defined on it, since
//! the engine has no float unit of its own. Every other operation on a float
//! operand reports [`ExecutionError::UnsupportedFloat`].

use vstd::prelude::*;

use crate::opcode::Opcode;

verus! {

/// A runtime scalar: an exact 32-bit signed integer, or a 32-bit float
/// carried as its IEEE-754 bit pattern.
#[derive(Clone, Copy, PartialEq, Eq, Structural, Debug)]
pub enum Scalar {
    Int(i32),
    Float(u32),
}

/// A fatal error of the interpreter or of the recorded-program evaluator.
#[derive(Clone, Copy, PartialEq, Eq, Structural, Debug)]
pub enum ExecutionError {
    /// An opcode required more operands than the evaluation stack held.
    StackUnderflow,
    /// Integer division by zero.
    DivisionByZero,
    /// An operation that would need the host's float unit was applied to a
    /// float operand.
    UnsupportedFloat,
    /// A branch target, label or slot was unresolvable, or control ran off
    /// the end of the program without returning a value.
    MalformedBytecode,
    /// The step bound was exhausted before the program returned.
    StepLimit,
}

/// The binary operations shared by the instruction set and the code
/// generator's intermediate representation.
#[derive(Clone, Copy, PartialEq, Eq, Structural, Debug)]
pub enum BinaryOp {
    Add,
    Sub,
    Mul,
    Div,
    And,
    Or,
    Xor,
    Eq,
    Neq,
    Leq,
    Geq,
    Lt,
    Gt,
}

/// The unary operations shared by the instruction set and the code
/// generator's intermediate representation.
#[derive(Clone, Copy, PartialEq, Eq, Structural, Debug)]
pub enum UnaryOp {
    Neg,
    Not,
}

/// The binary operation an opcode stands for, if it is a binary opcode.
pub open spec fn spec_binary_op_of(op: Opcode) -> Option<BinaryOp> {
    match op {
        Opcode::Add => Some(BinaryOp::Add),
        Opcode::Subtract => Some(BinaryOp::Sub),
        Opcode::Multiply => Some(BinaryOp::Mul),
        Opcode::Divide => Some(BinaryOp::Div),
        Opcode::And => Some(BinaryOp::And),
        Opcode::Or => Some(BinaryOp::Or),
        Opcode::Xor => Some(BinaryOp::Xor),
        Opcode::Eq => Some(BinaryOp::Eq),
        Opcode::Neq => Some(BinaryOp::Neq),
        Opcode::Leq => Some(BinaryOp::Leq),
        Opcode::Geq => Some(BinaryOp::Geq),
        Opcode::Lt => Some(BinaryOp::Lt),
        Opcode::Gt => Some(BinaryOp::Gt),
        _ => None,
    }
}

/// The unary operation an opcode stands for, if it is a unary opcode.
pub open spec fn spec_unary_op_of(op: Opcode) -> Option<UnaryOp> {
    match op {
        Opcode::Negate => Some(UnaryOp::Neg),
        Opcode::Not => Some(UnaryOp::Not),
        _ => None,
    }
}

/// Executable twin of [`spec_binary_op_of`].
pub fn binary_op_of(op: &Opcode) -> (r: Option<BinaryOp>)
    ensures
        r == spec_binary_op_of(*op),
{
    match *op {
        Opcode::Add => Some(BinaryOp::Add),
        Opcode::Subtract => Some(BinaryOp::Sub),
        Opcode::Multiply => Some(BinaryOp::Mul),
        Opcode::Divide => Some(BinaryOp::Div),
        Opcode::And => Some(BinaryOp::And),
        Opcode::Or => Some(BinaryOp::Or),
        Opcode::Xor => Some(BinaryOp::Xor),
        Opcode::Eq => Some(BinaryOp::Eq),
        Opcode::Neq => Some(BinaryOp::Neq),
        Opcode::Leq => Some(BinaryOp::Leq),
        Opcode::Geq => Some(BinaryOp::Geq),
        Opcode::Lt => Some(BinaryOp::Lt),
        Opcode::Gt => Some(BinaryOp::Gt),
        _ => None,
    }
}

/// Executable twin of [`spec_unary_op_of`].
pub fn unary_op_of(op: &Opcode) -> (r: Option<UnaryOp>)
    ensures
        r == spec_unary_op_of(*op),
{
    match *op {
        Opcode::Negate => Some(UnaryOp::Neg),
        Opcode::Not => Some(UnaryOp::Not),
        _ => None,
    }
}

/// Division truncated towards zero, on mathematical integers.
pub open spec fn div_towards_zero(a: int, b: int) -> int
    recommends
        b != 0,
{
    if a == 0 {
        0
    } else if a > 0 && b > 0 {
        a / b
    } else if a < 0 && b < 0 {
        (a * -1) / (b * -1)
    } else if a < 0 {
        ((a * -1) / b) * -1
    } else {
        (a / (b * -1)) * -1
    }
}

/// The machine's integer division: truncated towards zero, wrapping on the
/// one overflowing case `i32::MIN / -1`.
pub open spec fn wrapping_div_i32(a: i32, b: i32) -> i32
    recommends
        b != 0,
{
    if a == i32::MIN && b == -1 {
        i32::MIN
    } else {
        div_towards_zero(a as int, b as int) as i32
    }
}

/// The result of a binary operation: exact on two integers, a failure on a
/// zero divisor or on any float operand.
pub open spec fn spec_binary(op: BinaryOp, lhs: Scalar, rhs: Scalar) -> Result<
    Scalar,
    ExecutionError,
> {
    match (lhs, rhs) {
        (Scalar::Int(a), Scalar::Int(b)) => match op {
            BinaryOp::Add => Ok(Scalar::Int(vstd::wrapping::i32_specs::wrapping_add(a, b))),
            BinaryOp::Sub => Ok(Scalar::Int(vstd::wrapping::i32_specs::wrapping_sub(a, b))),
            BinaryOp::Mul => Ok(Scalar::Int(vstd::wrapping::i32_specs::wrapping_mul(a, b))),
            BinaryOp::Div => if b == 0 {
                Err(ExecutionError::DivisionByZero)
            } else {
                Ok(Scalar::Int(wrapping_div_i32(a, b)))
            },
            BinaryOp::And => Ok(Scalar::Int(a & b)),
            BinaryOp::Or => Ok(Scalar::Int(a | b)),
            BinaryOp::Xor => Ok(Scalar::Int(a ^ b)),
            BinaryOp::Eq => Ok(Scalar::Int(if a == b { 1 } else { 0 })),
            BinaryOp::Neq => Ok(Scalar::Int(if a != b { 1 } else { 0 })),
            BinaryOp::Leq => Ok(Scalar::Int(if a <= b { 1 } else { 0 })),
            BinaryOp::Geq => Ok(Scalar::Int(if a >= b { 1 } else { 0 })),
            BinaryOp::Lt => Ok(Scalar::Int(if a < b { 1 } else { 0 })),
            BinaryOp::Gt => Ok(Scalar::Int(if a > b { 1 } else { 0 })),
        },
        _ => Err(ExecutionError::UnsupportedFloat),
    }
}

/// The result of a unary operation: exact negation and bitwise complement on
/// an integer; on a float, negation is a sign-bit flip and the complement is
/// a failure.
pub open spec fn spec_unary(op: UnaryOp, v: Scalar) -> Result<Scalar, ExecutionError> {
    match v {
        Scalar::Int(a) => match op {
            UnaryOp::Neg => Ok(Scalar::Int(vstd::wrapping::i32_specs::wrapping_sub(0i32, a))),
            UnaryOp::Not => Ok(Scalar::Int(a ^ -1i32)),
        },
        Scalar::Float(bits) => match op {
            UnaryOp::Neg => Ok(Scalar::Float(bits ^ 0x8000_0000u32)),
            UnaryOp::Not => Err(ExecutionError::UnsupportedFloat),
        },
    }
}

/// A scalar used as a branch condition: an integer is true when nonzero, and
/// a float when it differs from zero, i.e. when its bits besides the sign are
/// not all clear (so both zeros are false, and every NaN is true).
pub open spec fn spec_truthy(v: Scalar) -> bool {
    match v {
        Scalar::Int(a) => a != 0,
        Scalar::Float(bits) => bits & 0x7FFF_FFFFu32 != 0,
    }
}

/// Applies a binary operation, with the left-hand operand first.
pub fn apply_binary(op: BinaryOp, lhs: Scalar, rhs: Scalar) -> (r: Result<Scalar, ExecutionError>)
    ensures
        r == spec_binary(op, lhs, rhs),
{
    match (lhs, rhs) {
        (Scalar::Int(a), Scalar::Int(b)) => match op {
            BinaryOp::Add => Ok(Scalar::Int(a.wrapping_add(b))),
            BinaryOp::Sub => Ok(Scalar::Int(a.wrapping_sub(b))),
            BinaryOp::Mul => Ok(Scalar::Int(a.wrapping_mul(b))),
            BinaryOp::Div => div_int(a, b),
            BinaryOp::And => Ok(Scalar::Int(a & b)),
            BinaryOp::Or => Ok(Scalar::Int(a | b)),
            BinaryOp::Xor => Ok(Scalar::Int(a ^ b)),
            BinaryOp::Eq => Ok(Scalar::Int(if a == b { 1 } else { 0 })),
            BinaryOp::Neq => Ok(Scalar::Int(if a != b { 1 } else { 0 })),
            BinaryOp::Leq => Ok(Scalar::Int(if a <= b { 1 } else { 0 })),
            BinaryOp::Geq => Ok(Scalar::Int(if a >= b { 1 } else { 0 })),
            BinaryOp::Lt => Ok(Scalar::Int(if a < b { 1 } else { 0 })),
            BinaryOp::Gt => Ok(Scalar::Int(if a > b { 1 } else { 0 })),
        },
        _ => Err(ExecutionError::UnsupportedFloat),
    }
}

/// Integer division by sign and magnitude, so that the quotient truncates
/// towards zero.
fn div_int(a: i32, b: i32) -> (r: Result<Scalar, ExecutionError>)
    ensures
        r == (if b == 0 {
            Err::<Scalar, ExecutionError>(ExecutionError::DivisionByZero)
        } else {
            Ok::<Scalar, ExecutionError>(Scalar::Int(wrapping_div_i32(a, b)))
        }),
{
    if b == 0 {
        return Err(ExecutionError::DivisionByZero);
    }
    if a == i32::MIN && b == -1 {
        return Ok(Scalar::Int(i32::MIN));
    }
    let negative = (a < 0) != (b < 0);
    let ua: u64 = if a < 0 {
        (-(a as i64)) as u64
    } else {
        a as u64
    };
    let ub: u64 = if b < 0 {
        (-(b as i64)) as u64
    } else {
        b as u64
    };
    let q: u64 = ua / ub;
    proof {
        assert(q <= ua) by (nonlinear_arith)
            requires
                ub >= 1,
                q == ua / ub,
                ua >= 0,
        ;
    }
    let r: i32 = if negative {
        (-(q as i64)) as i32
    } else {
        proof {
            if ua == 0x8000_0000u64 {
                assert(a == i32::MIN);
                assert(b < 0 && b != -1);
                assert(ub >= 2);
                assert(q < ua) by (nonlinear_arith)
                    requires
                        ub >= 2,
                        q == ua / ub,
                        ua >= 2,
                ;
            }
        }
        q as i32
    };
    proof {
        lemma_div_matches(a, b, q, negative);
    }
    Ok(Scalar::Int(r))
}

/// The magnitude quotient with the sign reapplied is division truncated
/// towards zero.
proof fn lemma_div_matches(a: i32, b: i32, q: u64, negative: bool)
    requires
        b != 0,
        !(a == i32::MIN && b == -1),
        negative == ((a < 0) != (b < 0)),
        q == (if a < 0 {
            -(a as int)
        } else {
            a as int
        }) / (if b < 0 {
            -(b as int)
        } else {
            b as int
        }),
    ensures
        (if negative {
            -(q as int)
        } else {
            q as int
        }) == div_towards_zero(a as int, b as int),
{
    let ai = a as int;
    let bi = b as int;
    let d = if bi < 0 {
        -bi
    } else {
        bi
    };
    if ai == 0 {
        assert(0int / d == 0) by (nonlinear_arith)
            requires
                d >= 1,
        ;
    }
}

/// Executable twin of [`spec_unary`].
pub fn apply_unary(op: UnaryOp, v: Scalar) -> (r: Result<Scalar, ExecutionError>)
    ensures
        r == spec_unary(op, v),
{
    match v {
        Scalar::Int(a) => match op {
            UnaryOp::Neg => Ok(Scalar::Int(0i32.wrapping_sub(a))),
            UnaryOp::Not => Ok(Scalar::Int(a ^ -1i32)),
        },
        Scalar::Float(bits) => match op {
            UnaryOp::Neg => Ok(Scalar::Float(bits ^ 0x8000_0000u32)),
            UnaryOp::Not => Err(ExecutionError::UnsupportedFloat),
        },
    }
}

/// Executable twin of [`spec_truthy`].
pub fn truthy(v: &Scalar) -> (r: bool)
    ensures
        r == spec_truthy(*v),
{
    match *v {
        Scalar::Int(a) => a != 0,
        Scalar::Float(bits) => bits & 0x7FFF_FFFFu32 != 0,
    }
}

} // verus!
