//! End-to-end scenarios for the reference interpreter.

use stackjit::interpret::interpret;
use stackjit::opcode::Opcode;
use stackjit::scalar::{ExecutionError, Scalar};

/// The integer factorial-of-10 loop: two slots, a backward jump, a
/// conditional exit.
fn factorial_10() -> Vec<Opcode> {
    vec![
        Opcode::Consti32(10),
        Opcode::Store(0),
        Opcode::Consti32(1),
        Opcode::Store(1),
        Opcode::Loadi32(0),
        Opcode::Consti32(1),
        Opcode::Leq,
        Opcode::Iftrue(17),
        Opcode::Loadi32(0),
        Opcode::Loadi32(1),
        Opcode::Multiply,
        Opcode::Store(1),
        Opcode::Loadi32(0),
        Opcode::Consti32(1),
        Opcode::Subtract,
        Opcode::Store(0),
        Opcode::Jmp(4),
        Opcode::Loadi32(1),
        Opcode::Ret,
    ]
}

#[test]
fn constant_return_float() {
    let program = vec![Opcode::Constf32(3.5f32.to_bits()), Opcode::Ret];
    assert_eq!(interpret(&program), Ok(Scalar::Float(3.5f32.to_bits())));
}

#[test]
fn factorial_of_ten() {
    assert_eq!(interpret(&factorial_10()), Ok(Scalar::Int(3628800)));
}

#[test]
fn branch_to_exit_falls_through() {
    let program = vec![
        Opcode::Consti32(0),
        Opcode::Iftrue(3),
        Opcode::Consti32(42),
        Opcode::Ret,
    ];
    assert_eq!(interpret(&program), Ok(Scalar::Int(42)));
}

#[test]
fn branch_to_exit_taken_fails() {
    // With a true condition the branch fires, lands on the `Ret`, and the
    // stack is empty: the return has nothing to pop.
    let program = vec![
        Opcode::Consti32(1),
        Opcode::Iftrue(3),
        Opcode::Consti32(42),
        Opcode::Ret,
    ];
    assert_eq!(interpret(&program), Err(ExecutionError::StackUnderflow));
}

#[test]
fn running_off_the_end_is_malformed() {
    let program = vec![Opcode::Consti32(1), Opcode::Nop];
    assert_eq!(interpret(&program), Err(ExecutionError::MalformedBytecode));
}

#[test]
fn branch_target_out_of_range_is_malformed() {
    let program = vec![Opcode::Jmp(5), Opcode::Ret];
    assert_eq!(interpret(&program), Err(ExecutionError::MalformedBytecode));
}

#[test]
fn jump_to_exit_position_runs_off_the_end() {
    // A target equal to the instruction count is the one-past-the-end exit:
    // in range, but leaving without a `Ret` is reported as malformed.
    let program = vec![Opcode::Consti32(1), Opcode::Jmp(2)];
    assert_eq!(interpret(&program), Err(ExecutionError::MalformedBytecode));
}

#[test]
fn stack_underflow_on_binary_opcode() {
    let program = vec![Opcode::Consti32(1), Opcode::Add, Opcode::Ret];
    assert_eq!(interpret(&program), Err(ExecutionError::StackUnderflow));
}

#[test]
fn division_by_zero_fails() {
    let program = vec![
        Opcode::Consti32(1),
        Opcode::Consti32(0),
        Opcode::Divide,
        Opcode::Ret,
    ];
    assert_eq!(interpret(&program), Err(ExecutionError::DivisionByZero));
}

#[test]
fn division_truncates_towards_zero() {
    let program = vec![
        Opcode::Consti32(-7),
        Opcode::Consti32(2),
        Opcode::Divide,
        Opcode::Ret,
    ];
    assert_eq!(interpret(&program), Ok(Scalar::Int(-3)));
}

#[test]
fn division_of_min_by_minus_one_wraps() {
    let program = vec![
        Opcode::Consti32(i32::MIN),
        Opcode::Consti32(-1),
        Opcode::Divide,
        Opcode::Ret,
    ];
    assert_eq!(interpret(&program), Ok(Scalar::Int(i32::MIN)));
}

#[test]
fn addition_wraps_on_overflow() {
    let program = vec![
        Opcode::Consti32(i32::MAX),
        Opcode::Consti32(1),
        Opcode::Add,
        Opcode::Ret,
    ];
    assert_eq!(interpret(&program), Ok(Scalar::Int(i32::MIN)));
}

#[test]
fn subtraction_uses_left_operand_first() {
    // The left-hand operand is pushed first: 10 - 4, not 4 - 10.
    let program = vec![
        Opcode::Consti32(10),
        Opcode::Consti32(4),
        Opcode::Subtract,
        Opcode::Ret,
    ];
    assert_eq!(interpret(&program), Ok(Scalar::Int(6)));
}

#[test]
fn comparison_pushes_zero_or_one() {
    let program = vec![
        Opcode::Consti32(3),
        Opcode::Consti32(5),
        Opcode::Leq,
        Opcode::Ret,
    ];
    assert_eq!(interpret(&program), Ok(Scalar::Int(1)));
    let program = vec![
        Opcode::Consti32(5),
        Opcode::Consti32(3),
        Opcode::Lt,
        Opcode::Ret,
    ];
    assert_eq!(interpret(&program), Ok(Scalar::Int(0)));
}

#[test]
fn bitwise_not_is_complement() {
    let program = vec![Opcode::Consti32(0), Opcode::Not, Opcode::Ret];
    assert_eq!(interpret(&program), Ok(Scalar::Int(-1)));
}

#[test]
fn negate_wraps_and_flips_sign() {
    let program = vec![Opcode::Consti32(7), Opcode::Negate, Opcode::Ret];
    assert_eq!(interpret(&program), Ok(Scalar::Int(-7)));
}

#[test]
fn float_negate_flips_the_sign_bit() {
    let program = vec![
        Opcode::Constf32(3.5f32.to_bits()),
        Opcode::Negate,
        Opcode::Ret,
    ];
    assert_eq!(interpret(&program), Ok(Scalar::Float((-3.5f32).to_bits())));
}

#[test]
fn float_arithmetic_is_unsupported() {
    let program = vec![
        Opcode::Constf32(1.0f32.to_bits()),
        Opcode::Consti32(1),
        Opcode::Add,
        Opcode::Ret,
    ];
    assert_eq!(interpret(&program), Err(ExecutionError::UnsupportedFloat));
}

#[test]
fn float_flows_through_slots_untouched() {
    let bits = 102.25f32.to_bits();
    let program = vec![
        Opcode::Constf32(bits),
        Opcode::Store(0),
        Opcode::Loadf32(0),
        Opcode::Ret,
    ];
    assert_eq!(interpret(&program), Ok(Scalar::Float(bits)));
}

#[test]
fn float_condition_negative_zero_is_false() {
    let program = vec![
        Opcode::Constf32((-0.0f32).to_bits()),
        Opcode::Iffalse(3),
        Opcode::Nop,
        Opcode::Consti32(9),
        Opcode::Ret,
    ];
    assert_eq!(interpret(&program), Ok(Scalar::Int(9)));
}

#[test]
fn disp_pops_and_execution_continues() {
    let program = vec![
        Opcode::Consti32(7),
        Opcode::Disp,
        Opcode::Consti32(1),
        Opcode::Ret,
    ];
    assert_eq!(interpret(&program), Ok(Scalar::Int(1)));
}

#[test]
fn unreferenced_slot_reads_integer_zero() {
    let program = vec![Opcode::Loadi32(0), Opcode::Ret];
    assert_eq!(interpret(&program), Ok(Scalar::Int(0)));
}
