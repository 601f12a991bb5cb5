//! Scenarios for control-flow recovery and the frame-size rule.

use stackjit::analysis::local_count;
use stackjit::basic_block::{get_basic_blocks, BasicBlock};
use stackjit::opcode::Opcode;

fn factorial_10() -> Vec<Opcode> {
    vec![
        Opcode::Consti32(10),
        Opcode::Store(0),
        Opcode::Consti32(1),
        Opcode::Store(1),
        Opcode::Loadi32(0),
        Opcode::Consti32(1),
        Opcode::Leq,
        Opcode::Iftrue(17),
        Opcode::Loadi32(0),
        Opcode::Loadi32(1),
        Opcode::Multiply,
        Opcode::Store(1),
        Opcode::Loadi32(0),
        Opcode::Consti32(1),
        Opcode::Subtract,
        Opcode::Store(0),
        Opcode::Jmp(4),
        Opcode::Loadi32(1),
        Opcode::Ret,
    ]
}

/// No block body retains a control-transfer opcode.
fn assert_no_branches(blocks: &[BasicBlock]) {
    for block in blocks {
        for op in &block.opcodes {
            assert!(!matches!(
                op,
                Opcode::Jmp(_) | Opcode::Iftrue(_) | Opcode::Iffalse(_)
            ));
        }
    }
}

/// Every successor edge is matched by a predecessor entry.
fn assert_edges_have_predecessors(blocks: &[BasicBlock]) {
    for (j, block) in blocks.iter().enumerate() {
        if let Some(m) = block.next_block {
            assert!(blocks[m].prev_blocks.contains(&j));
        }
        if let Some(m) = block.conditional_block {
            assert!(blocks[m].prev_blocks.contains(&j));
        }
    }
}

#[test]
fn local_count_is_max_slot_plus_one() {
    let program = vec![
        Opcode::Consti32(1),
        Opcode::Store(3),
        Opcode::Loadi32(1),
        Opcode::Ret,
    ];
    assert_eq!(local_count(&program), 4);
}

#[test]
fn local_count_without_slots_is_one() {
    let program = vec![Opcode::Consti32(1), Opcode::Ret];
    assert_eq!(local_count(&program), 1);
}

#[test]
fn local_count_is_stable_under_reapplication() {
    let program = factorial_10();
    let first = local_count(&program);
    let second = local_count(&program);
    assert_eq!(first, 2);
    assert_eq!(first, second);
}

#[test]
fn factorial_blocks_and_edges() {
    let program = factorial_10();
    let blocks = get_basic_blocks(&program);

    // Leaders: 0, the loop header 4, the loop body 8, and the exit arm 17.
    assert_eq!(blocks.len(), 4);
    let starts: Vec<usize> = blocks.iter().map(|b| b.start).collect();
    assert_eq!(starts, vec![0, 4, 8, 17]);
    for (j, block) in blocks.iter().enumerate() {
        assert_eq!(block.label.id as usize, j);
    }

    // Prologue falls into the header; the header's conditional exits to the
    // return arm and falls through into the body; the body jumps back.
    assert_eq!(blocks[0].next_block, Some(1));
    assert_eq!(blocks[0].conditional_block, None);
    assert_eq!(blocks[1].conditional_block, Some(3));
    assert_eq!(blocks[1].next_block, Some(2));
    assert_eq!(blocks[2].next_block, Some(1));
    assert_eq!(blocks[2].conditional_block, None);
    assert_eq!(blocks[3].next_block, None);
    assert_eq!(blocks[3].conditional_block, None);

    // Bodies hold the straight-line opcodes, with the branches stripped.
    assert_eq!(blocks[0].opcodes.len(), 4);
    assert_eq!(blocks[1].opcodes.len(), 3);
    assert_eq!(blocks[2].opcodes.len(), 8);
    assert_eq!(
        blocks[3].opcodes,
        vec![Opcode::Loadi32(1), Opcode::Ret]
    );

    assert_no_branches(&blocks);
    assert_edges_have_predecessors(&blocks);

    assert_eq!(blocks[1].prev_blocks, vec![0, 2]);
    assert_eq!(blocks[2].prev_blocks, vec![1]);
    assert_eq!(blocks[3].prev_blocks, vec![1]);
}

#[test]
fn diamond_recovery() {
    // A forward conditional with both arms rejoining at a common return:
    // header, else-arm, then-arm, join.
    let program = vec![
        Opcode::Consti32(1),
        Opcode::Iftrue(4),
        Opcode::Nop,
        Opcode::Jmp(6),
        Opcode::Nop,
        Opcode::Jmp(6),
        Opcode::Consti32(2),
        Opcode::Ret,
    ];
    let blocks = get_basic_blocks(&program);
    assert_eq!(blocks.len(), 4);
    let starts: Vec<usize> = blocks.iter().map(|b| b.start).collect();
    assert_eq!(starts, vec![0, 2, 4, 6]);

    assert_eq!(blocks[0].prev_blocks, Vec::<usize>::new());
    assert_eq!(blocks[1].prev_blocks, vec![0]);
    assert_eq!(blocks[2].prev_blocks, vec![0]);
    assert_eq!(blocks[3].prev_blocks, vec![1, 2]);

    assert_eq!(blocks[0].conditional_block, Some(2));
    assert_eq!(blocks[0].next_block, Some(1));
    assert_eq!(blocks[1].next_block, Some(3));
    assert_eq!(blocks[2].next_block, Some(3));
    assert_eq!(blocks[3].next_block, None);

    assert_no_branches(&blocks);
    assert_edges_have_predecessors(&blocks);
}

#[test]
fn jump_to_exit_creates_empty_exit_block() {
    let program = vec![Opcode::Consti32(1), Opcode::Disp, Opcode::Jmp(3)];
    let blocks = get_basic_blocks(&program);
    assert_eq!(blocks.len(), 2);
    assert_eq!(blocks[1].start, 3);
    assert!(blocks[1].opcodes.is_empty());
    assert_eq!(blocks[0].next_block, Some(1));
    assert_eq!(blocks[1].prev_blocks, vec![0]);
}

#[test]
fn straight_line_is_one_block() {
    let program = vec![
        Opcode::Consti32(2),
        Opcode::Consti32(3),
        Opcode::Multiply,
        Opcode::Ret,
    ];
    let blocks = get_basic_blocks(&program);
    assert_eq!(blocks.len(), 1);
    assert_eq!(blocks[0].opcodes, program);
    assert_eq!(blocks[0].next_block, None);
    assert_eq!(blocks[0].conditional_block, None);
    assert_eq!(blocks[0].prev_blocks, Vec::<usize>::new());
}

#[test]
fn push_opcode_appends() {
    let mut block = BasicBlock::new();
    assert!(block.opcodes.is_empty());
    assert_eq!(block.label.id, u32::MAX);
    block.push_opcode(Opcode::Nop);
    block.push_opcode(Opcode::Ret);
    assert_eq!(block.opcodes, vec![Opcode::Nop, Opcode::Ret]);
}
