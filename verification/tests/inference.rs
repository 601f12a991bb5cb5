//! Scenarios for local-slot type inference.

use stackjit::analysis::{
    infer_local_types, infer_local_types_for_basic_block, infer_local_types_reporting,
    local_count, InferenceWarning,
};
use stackjit::basic_block::get_basic_blocks;
use stackjit::opcode::Opcode;
use stackjit::variable_type::VariableType;

fn factorial_10() -> Vec<Opcode> {
    vec![
        Opcode::Consti32(10),
        Opcode::Store(0),
        Opcode::Consti32(1),
        Opcode::Store(1),
        Opcode::Loadi32(0),
        Opcode::Consti32(1),
        Opcode::Leq,
        Opcode::Iftrue(17),
        Opcode::Loadi32(0),
        Opcode::Loadi32(1),
        Opcode::Multiply,
        Opcode::Store(1),
        Opcode::Loadi32(0),
        Opcode::Consti32(1),
        Opcode::Subtract,
        Opcode::Store(0),
        Opcode::Jmp(4),
        Opcode::Loadi32(1),
        Opcode::Ret,
    ]
}

#[test]
fn factorial_slots_are_integers() {
    let program = factorial_10();
    let blocks = get_basic_blocks(&program);
    let types = infer_local_types(&blocks, local_count(&program));
    assert_eq!(types, vec![VariableType::Int32, VariableType::Int32]);
}

#[test]
fn float_store_infers_float_slot() {
    let program = vec![
        Opcode::Constf32(2.0f32.to_bits()),
        Opcode::Store(0),
        Opcode::Consti32(1),
        Opcode::Store(1),
        Opcode::Loadf32(0),
        Opcode::Ret,
    ];
    let blocks = get_basic_blocks(&program);
    let types = infer_local_types(&blocks, local_count(&program));
    assert_eq!(types, vec![VariableType::Float32, VariableType::Int32]);
}

#[test]
fn dead_slot_stays_unknown() {
    let program = vec![Opcode::Loadi32(1), Opcode::Ret];
    let blocks = get_basic_blocks(&program);
    let types = infer_local_types(&blocks, local_count(&program));
    assert_eq!(types, vec![VariableType::Unknown, VariableType::Unknown]);
}

#[test]
fn type_conflict_warns_and_first_seen_type_wins() {
    let program = vec![
        Opcode::Consti32(1),
        Opcode::Store(0),
        Opcode::Constf32(2.0f32.to_bits()),
        Opcode::Store(0),
        Opcode::Loadi32(0),
        Opcode::Ret,
    ];
    let blocks = get_basic_blocks(&program);
    let (types, warnings) = infer_local_types_reporting(&blocks, local_count(&program));
    assert_eq!(types, vec![VariableType::Int32]);
    assert!(warnings
        .iter()
        .any(|w| matches!(w, InferenceWarning::SlotConflict { slot: 0 })));
}

#[test]
fn operand_mismatch_warns_and_adopts_top_type() {
    let program = vec![
        Opcode::Consti32(3),
        Opcode::Constf32(1.5f32.to_bits()),
        Opcode::Add,
        Opcode::Store(0),
        Opcode::Loadi32(0),
        Opcode::Ret,
    ];
    let blocks = get_basic_blocks(&program);
    let (types, warnings) = infer_local_types_reporting(&blocks, local_count(&program));
    // The top-of-stack operand is the float constant, so its type is taken.
    assert_eq!(types, vec![VariableType::Float32]);
    assert!(warnings.iter().any(|w| matches!(
        w,
        InferenceWarning::OperandMismatch {
            taken: VariableType::Float32,
            other: VariableType::Int32,
        }
    )));
}

#[test]
fn clean_inference_reports_no_warnings() {
    let program = factorial_10();
    let blocks = get_basic_blocks(&program);
    let (_, warnings) = infer_local_types_reporting(&blocks, local_count(&program));
    assert!(warnings.is_empty());
}

#[test]
fn comparison_produces_integer_type() {
    let program = vec![
        Opcode::Constf32(1.0f32.to_bits()),
        Opcode::Constf32(2.0f32.to_bits()),
        Opcode::Lt,
        Opcode::Store(0),
        Opcode::Loadi32(0),
        Opcode::Ret,
    ];
    let blocks = get_basic_blocks(&program);
    let types = infer_local_types(&blocks, local_count(&program));
    assert_eq!(types, vec![VariableType::Int32]);
}

#[test]
fn inference_result_is_a_post_fixpoint() {
    let program = factorial_10();
    let blocks = get_basic_blocks(&program);
    let (mut types, mut warnings) = infer_local_types_reporting(&blocks, local_count(&program));
    let before = types.clone();
    // One further pass over the result reports no progress and changes no
    // slot's type.
    let mut changed = false;
    for block in &blocks {
        changed |= infer_local_types_for_basic_block(block, &mut types, &mut warnings);
    }
    assert!(!changed);
    assert_eq!(types, before);
}

#[test]
fn slot_type_flows_around_the_loop() {
    // The loop body stores slot 1 from slot 0's value, which only becomes
    // known in a later pass: the fixpoint needs more than one pass.
    let program = vec![
        Opcode::Loadi32(0),
        Opcode::Iftrue(5),
        Opcode::Loadi32(0),
        Opcode::Store(1),
        Opcode::Jmp(6),
        Opcode::Nop,
        Opcode::Consti32(4),
        Opcode::Store(0),
        Opcode::Loadi32(1),
        Opcode::Ret,
    ];
    let blocks = get_basic_blocks(&program);
    let types = infer_local_types(&blocks, local_count(&program));
    assert_eq!(types, vec![VariableType::Int32, VariableType::Int32]);
}
