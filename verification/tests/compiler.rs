//! Scenarios for the lowering pass and the recorded-program evaluator,
//! including the agreement of the compiled path with the interpreter on
//! integer programs.

use stackjit::interpret::interpret;
use stackjit::jit::{compile, CompileError};
use stackjit::libjit::{Context, Insn};
use stackjit::opcode::Opcode;
use stackjit::scalar::{ExecutionError, Scalar};

fn factorial_10() -> Vec<Opcode> {
    vec![
        Opcode::Consti32(10),
        Opcode::Store(0),
        Opcode::Consti32(1),
        Opcode::Store(1),
        Opcode::Loadi32(0),
        Opcode::Consti32(1),
        Opcode::Leq,
        Opcode::Iftrue(17),
        Opcode::Loadi32(0),
        Opcode::Loadi32(1),
        Opcode::Multiply,
        Opcode::Store(1),
        Opcode::Loadi32(0),
        Opcode::Consti32(1),
        Opcode::Subtract,
        Opcode::Store(0),
        Opcode::Jmp(4),
        Opcode::Loadi32(1),
        Opcode::Ret,
    ]
}

#[test]
fn compile_and_run_constant_float() {
    let program = vec![Opcode::Constf32(3.5f32.to_bits()), Opcode::Ret];
    let mut context = Context::new();
    let function = compile(&program, &mut context).unwrap();
    assert_eq!(function.run(), Ok(Scalar::Float(3.5f32.to_bits())));
}

#[test]
fn compile_and_run_factorial() {
    let program = factorial_10();
    let mut context = Context::new();
    let function = compile(&program, &mut context).unwrap();
    assert_eq!(function.run(), Ok(Scalar::Int(3628800)));
}

#[test]
fn compiled_factorial_agrees_with_interpreter() {
    let program = factorial_10();
    let mut context = Context::new();
    let function = compile(&program, &mut context).unwrap();
    assert_eq!(function.run(), interpret(&program));
}

#[test]
fn compiled_arithmetic_agrees_with_interpreter() {
    // Pure integer arithmetic with stack discipline:
    // (100 * 102) - ((100 + 102) * 2), all within one block.
    let program = vec![
        Opcode::Consti32(100),
        Opcode::Consti32(102),
        Opcode::Multiply,
        Opcode::Consti32(100),
        Opcode::Consti32(102),
        Opcode::Add,
        Opcode::Consti32(2),
        Opcode::Multiply,
        Opcode::Subtract,
        Opcode::Ret,
    ];
    let mut context = Context::new();
    let function = compile(&program, &mut context).unwrap();
    let compiled = function.run();
    assert_eq!(compiled, Ok(Scalar::Int(100 * 102 - (100 + 102) * 2)));
    assert_eq!(compiled, interpret(&program));
}

#[test]
fn compiled_division_agrees_with_interpreter() {
    for (a, b) in [(7, 2), (-7, 2), (7, -2), (-7, -2), (i32::MIN, -1), (0, 5)] {
        let program = vec![
            Opcode::Consti32(a),
            Opcode::Consti32(b),
            Opcode::Divide,
            Opcode::Ret,
        ];
        let mut context = Context::new();
        let function = compile(&program, &mut context).unwrap();
        assert_eq!(function.run(), interpret(&program));
    }
}

#[test]
fn compiled_division_by_zero_fails_at_run_time() {
    let program = vec![
        Opcode::Consti32(3),
        Opcode::Consti32(0),
        Opcode::Divide,
        Opcode::Ret,
    ];
    let mut context = Context::new();
    let function = compile(&program, &mut context).unwrap();
    assert_eq!(function.run(), Err(ExecutionError::DivisionByZero));
}

#[test]
fn compile_rejects_out_of_range_target() {
    let program = vec![Opcode::Jmp(5), Opcode::Ret];
    let mut context = Context::new();
    assert_eq!(
        compile(&program, &mut context).err(),
        Some(CompileError::MalformedBytecode)
    );
}

#[test]
fn compile_rejects_emission_underflow() {
    let program = vec![Opcode::Add, Opcode::Ret];
    let mut context = Context::new();
    assert_eq!(
        compile(&program, &mut context).err(),
        Some(CompileError::StackUnderflow)
    );
}

#[test]
fn compile_rejects_value_left_across_block_boundary() {
    // The constant pushed before the branch would have to survive into the
    // branch target's block: the emission stack is not empty at the
    // boundary.
    let program = vec![
        Opcode::Consti32(1),
        Opcode::Consti32(2),
        Opcode::Iftrue(4),
        Opcode::Ret,
        Opcode::Ret,
    ];
    let mut context = Context::new();
    assert_eq!(
        compile(&program, &mut context).err(),
        Some(CompileError::MalformedBytecode)
    );
}

#[test]
fn build_scope_is_released_on_failure() {
    let program = vec![Opcode::Add, Opcode::Ret];
    let mut context = Context::new();
    assert!(compile(&program, &mut context).is_err());
    assert!(!context.building);
    // The same context can bracket another compile afterwards.
    let program = vec![Opcode::Consti32(1), Opcode::Ret];
    assert!(compile(&program, &mut context).is_ok());
}

#[test]
fn disp_is_dropped_in_the_compiled_path() {
    // The interpreter pops for `Disp`; the compiled path emits nothing, so
    // the operand must be consumed by this block's terminator instead.
    let program = vec![Opcode::Consti32(6), Opcode::Disp, Opcode::Ret];
    let mut context = Context::new();
    // `Disp` leaves the emission stack untouched, so `Ret` consumes the 6
    // and the stack still holds nothing at the block end... but the
    // interpreter popped the 6 at `Disp` and fails to return.
    let function = compile(&program, &mut context).unwrap();
    assert_eq!(function.run(), Ok(Scalar::Int(6)));
    assert_eq!(interpret(&program), Err(ExecutionError::StackUnderflow));
}

#[test]
fn compiled_branch_to_exit_falls_through() {
    let program = vec![
        Opcode::Consti32(0),
        Opcode::Iftrue(4),
        Opcode::Consti32(42),
        Opcode::Ret,
    ];
    let mut context = Context::new();
    let function = compile(&program, &mut context).unwrap();
    assert_eq!(function.run(), Ok(Scalar::Int(42)));
    assert_eq!(function.run(), interpret(&program));
}

#[test]
fn recorded_program_starts_with_label_and_signature() {
    let program = vec![Opcode::Consti32(5), Opcode::Ret];
    let mut context = Context::new();
    let function = compile(&program, &mut context).unwrap();
    assert!(function.compiled);
    // One block: its label binding, the constant, and the return.
    assert_eq!(function.insns[0], Insn::SetLabel { label: 0 });
    assert!(matches!(function.insns[1], Insn::ConstI32 { value: 5, .. }));
    assert!(matches!(function.insns[2], Insn::Ret { .. }));
}

#[test]
fn float_arithmetic_compiles_but_needs_a_float_unit() {
    // Pure float arithmetic with stack discipline lowers cleanly, but both
    // engines carry floats as opaque bit patterns: running the arithmetic
    // reports the missing float unit instead of a wrong value.
    let program = vec![
        Opcode::Constf32(100.0f32.to_bits()),
        Opcode::Constf32(102.22f32.to_bits()),
        Opcode::Multiply,
        Opcode::Constf32(100.0f32.to_bits()),
        Opcode::Constf32(102.22f32.to_bits()),
        Opcode::Add,
        Opcode::Subtract,
        Opcode::Ret,
    ];
    let mut context = Context::new();
    let function = compile(&program, &mut context).unwrap();
    assert_eq!(function.run(), Err(ExecutionError::UnsupportedFloat));
    assert_eq!(interpret(&program), Err(ExecutionError::UnsupportedFloat));
}

#[test]
fn float_constants_compile_and_round_trip() {
    let bits = 102.22f32.to_bits();
    let program = vec![
        Opcode::Constf32(bits),
        Opcode::Store(0),
        Opcode::Loadf32(0),
        Opcode::Ret,
    ];
    let mut context = Context::new();
    let function = compile(&program, &mut context).unwrap();
    let run = function.run();
    assert_eq!(run, Ok(Scalar::Float(bits)));
    assert_eq!(run, interpret(&program));
    assert_eq!(f32::from_bits(bits), 102.22f32);
}
