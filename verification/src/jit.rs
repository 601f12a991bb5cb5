//! The lowering pass: compiles a function's opcode stream into the back
//! end's intermediate representation, one basic block at a time.
//!
//! The pass brackets all emission in the context's build scope, computes the
//! basic blocks, infers the local slot types, pre-creates one storage cell
//! per local (a float cell for an inferred `Float32`, an integer cell
//! otherwise, `Unknown` defaulting to integer), and then lowers each block
//! over a block-local emission stack, binding the block's label first and
//! closing with the conditional and fall-through branch edges. The emission
//! stack must be empty at every block boundary; a block that would pop an
//! empty stack aborts the compile with a stack underflow, and one that
//! leaves values behind aborts it as malformed.

use vstd::prelude::*;

use crate::analysis::{block_slots_below, infer_local_types, lemma_local_count_characterization,
    lemma_max_slot_in_range, local_count, slots_in_range, spec_local_count};
use crate::basic_block::{get_basic_blocks, lemma_blocks_shape, lemma_cfg_walk_total,
    lemma_edges_have_predecessors, lemma_no_branch_opcodes, lemma_starts_below_len,
    lemma_total_opcodes_nonneg, spec_basic_blocks, total_opcodes, views_of, BasicBlock,
    BlockModel};
use crate::interpret::{check_function, init_stack, max_fuel, spec_interpret, spec_run, spec_step,
    spec_valid_function, StepModel};
use crate::libjit::{spec_ir_run, spec_ir_step, zero_regs, Context, Function, Insn, IrStepModel,
    Type, Types, Value, ABI};
use crate::opcode::{is_branch, slot_ref, Opcode};
use crate::scalar::{binary_op_of, spec_binary, spec_binary_op_of, spec_unary, spec_unary_op_of,
    unary_op_of, BinaryOp, ExecutionError, Scalar, UnaryOp};
use crate::variable_type::VariableType;

verus! {

/// A reason the lowering pass rejects a function.
#[derive(Clone, Copy, PartialEq, Eq, Structural, Debug)]
pub enum CompileError {
    /// A branch target or slot index is out of range, the function is too
    /// large, or a block's emission stack was not empty at the block's end.
    MalformedBytecode,
    /// An opcode required more operands than the emission stack held.
    StackUnderflow,
}

/// How many IR values an opcode pops from the block-local emission stack.
pub open spec fn op_pops(op: Opcode) -> int {
    if spec_binary_op_of(op) is Some {
        2
    } else if spec_unary_op_of(op) is Some {
        1
    } else {
        match op {
            Opcode::Ret => 1,
            Opcode::Store(_) => 1,
            _ => 0,
        }
    }
}

/// How many IR values an opcode pushes onto the emission stack.
pub open spec fn op_pushes(op: Opcode) -> int {
    if spec_binary_op_of(op) is Some {
        1
    } else if spec_unary_op_of(op) is Some {
        1
    } else {
        match op {
            Opcode::Constf32(_) => 1,
            Opcode::Consti32(_) => 1,
            Opcode::Loadf32(_) => 1,
            Opcode::Loadi32(_) => 1,
            _ => 0,
        }
    }
}

/// The emission-stack height after lowering the block body from position
/// `k` at height `h`, or `None` if some opcode pops an empty stack.
pub open spec fn block_height(body: Seq<Opcode>, k: int, h: int) -> Option<int>
    decreases body.len() - k,
{
    if k < 0 || k >= body.len() {
        Some(h)
    } else if h < op_pops(body[k]) {
        None
    } else {
        block_height(body, k + 1, h - op_pops(body[k]) + op_pushes(body[k]))
    }
}

/// Whether one block lowers cleanly: no opcode underflows the emission
/// stack, the conditional terminator finds its operand, and the stack is
/// empty at the block's end.
pub open spec fn block_status(b: BlockModel) -> Result<(), CompileError> {
    match block_height(b.opcodes, 0, 0) {
        Some(h) => if b.conditional_block is Some {
            if h < 1 {
                Err(CompileError::StackUnderflow)
            } else if h != 1 {
                Err(CompileError::MalformedBytecode)
            } else {
                Ok(())
            }
        } else {
            if h != 0 {
                Err(CompileError::MalformedBytecode)
            } else {
                Ok(())
            }
        },
        None => Err(CompileError::StackUnderflow),
    }
}

/// The first failing block's error, walking the arena in order.
pub open spec fn blocks_status(blocks: Seq<BlockModel>, j: int) -> Result<(), CompileError>
    decreases blocks.len() - j,
{
    if j < 0 || j >= blocks.len() {
        Ok(())
    } else if block_status(blocks[j]) is Err {
        block_status(blocks[j])
    } else {
        blocks_status(blocks, j + 1)
    }
}

/// Whether and how [`compile`] fails: a function outside the engines'
/// limits is malformed, and otherwise the first block that does not lower
/// cleanly decides. `Ok` exactly when every block keeps the emission stack
/// balanced — the stack is then empty at every block boundary.
pub open spec fn spec_compile_status(ops: Seq<Opcode>) -> Result<(), CompileError> {
    if !spec_valid_function(ops) {
        Err(CompileError::MalformedBytecode)
    } else {
        blocks_status(spec_basic_blocks(ops), 0)
    }
}

/// The lowering state: the instructions emitted so far, the number of IR
/// values created so far, and the block-local emission stack of value ids.
#[verifier::ext_equal]
pub struct EmitState {
    pub insns: Seq<Insn>,
    pub values: int,
    pub stack: Seq<u64>,
}

/// The value ids of an emission stack or local-cell vector.
pub open spec fn value_ids(values: Seq<Value>) -> Seq<u64> {
    values.map_values(|v: Value| v.id)
}

/// What lowering one opcode emits, or `None` on emission-stack underflow.
///
/// Binary opcodes consume the two topmost ids, right-hand operand on top,
/// and produce a fresh id; `Store` writes into the local's cell; `Load*`
/// duplicates the cell into a fresh id; `Ret` returns the top; `Disp` and
/// `Nop` emit nothing, as does a stray control-transfer opcode.
pub open spec fn emit_opcode(op: Opcode, locals: Seq<u64>, st: EmitState) -> Option<EmitState> {
    match spec_binary_op_of(op) {
        Some(b) => if st.stack.len() < 2 {
            None
        } else {
            let v1 = st.stack.last();
            let v2 = st.stack.drop_last().last();
            Some(EmitState {
                insns: st.insns.push(
                    Insn::Binary { op: b, dest: st.values as u64, lhs: v2, rhs: v1 },
                ),
                values: st.values + 1,
                stack: st.stack.drop_last().drop_last().push(st.values as u64),
            })
        },
        None => match spec_unary_op_of(op) {
            Some(u) => if st.stack.len() < 1 {
                None
            } else {
                Some(EmitState {
                    insns: st.insns.push(
                        Insn::Unary { op: u, dest: st.values as u64, src: st.stack.last() },
                    ),
                    values: st.values + 1,
                    stack: st.stack.drop_last().push(st.values as u64),
                })
            },
            None => match op {
                Opcode::Constf32(bits) => Some(EmitState {
                    insns: st.insns.push(Insn::ConstF32 { dest: st.values as u64, bits }),
                    values: st.values + 1,
                    stack: st.stack.push(st.values as u64),
                }),
                Opcode::Consti32(value) => Some(EmitState {
                    insns: st.insns.push(Insn::ConstI32 { dest: st.values as u64, value }),
                    values: st.values + 1,
                    stack: st.stack.push(st.values as u64),
                }),
                Opcode::Ret => if st.stack.len() < 1 {
                    None
                } else {
                    Some(EmitState {
                        insns: st.insns.push(Insn::Ret { value: st.stack.last() }),
                        values: st.values,
                        stack: st.stack.drop_last(),
                    })
                },
                Opcode::Store(a) => if st.stack.len() < 1 {
                    None
                } else {
                    Some(EmitState {
                        insns: st.insns.push(
                            Insn::Store { dest: locals[a as int], src: st.stack.last() },
                        ),
                        values: st.values,
                        stack: st.stack.drop_last(),
                    })
                },
                Opcode::Loadf32(a) | Opcode::Loadi32(a) => Some(EmitState {
                    insns: st.insns.push(
                        Insn::Load { dest: st.values as u64, src: locals[a as int] },
                    ),
                    values: st.values + 1,
                    stack: st.stack.push(st.values as u64),
                }),
                _ => Some(st),
            },
        },
    }
}

/// Folds [`emit_opcode`] over a block body from position `k` on.
pub open spec fn emit_body(body: Seq<Opcode>, locals: Seq<u64>, k: int, st: EmitState) -> Option<
    EmitState,
>
    decreases body.len() - k,
{
    if k < 0 || k >= body.len() {
        Some(st)
    } else {
        match emit_opcode(body[k], locals, st) {
            Some(st2) => emit_body(body, locals, k + 1, st2),
            None => None,
        }
    }
}

/// What lowering one block emits: its label binding, its body over a fresh
/// emission stack, the conditional branch consuming the top id, and the
/// fall-through branch; `None` when the stack underflows or is not empty at
/// the block's end.
pub open spec fn emit_block(blk: BlockModel, locals: Seq<u64>, st: EmitState) -> Option<
    EmitState,
> {
    let st1 = EmitState {
        insns: st.insns.push(Insn::SetLabel { label: blk.label as u32 }),
        values: st.values,
        stack: Seq::empty(),
    };
    match emit_body(blk.opcodes, locals, 0, st1) {
        Some(st2) => {
            let st3 = match blk.conditional_block {
                Some(cb) => if st2.stack.len() < 1 {
                    None
                } else {
                    Some(EmitState {
                        insns: st2.insns.push(
                            Insn::BranchIf { cond: st2.stack.last(), label: cb as u32 },
                        ),
                        values: st2.values,
                        stack: st2.stack.drop_last(),
                    })
                },
                None => Some(st2),
            };
            match st3 {
                Some(st4) => {
                    let st5 = match blk.next_block {
                        Some(nb) => EmitState {
                            insns: st4.insns.push(Insn::Branch { label: nb as u32 }),
                            values: st4.values,
                            stack: st4.stack,
                        },
                        None => st4,
                    };
                    if st5.stack.len() != 0 {
                        None
                    } else {
                        Some(st5)
                    }
                },
                None => None,
            }
        },
        None => None,
    }
}

/// Folds [`emit_block`] over the arena from block `j` on.
pub open spec fn emit_blocks(
    blocks: Seq<BlockModel>,
    locals: Seq<u64>,
    j: int,
    st: EmitState,
) -> Option<EmitState>
    decreases blocks.len() - j,
{
    if j < 0 || j >= blocks.len() {
        Some(st)
    } else {
        match emit_block(blocks[j], locals, st) {
            Some(st2) => emit_blocks(blocks, locals, j + 1, st2),
            None => None,
        }
    }
}

/// The ids of the local storage cells, which are created first: `0 .. L`.
pub open spec fn frame_cell_ids(ops: Seq<Opcode>) -> Seq<u64> {
    Seq::new(spec_local_count(ops), |m: int| m as u64)
}

/// The whole program [`compile`] records for `ops`: the local cells take
/// ids `0 .. L`, and the blocks are lowered in arena order.
pub open spec fn spec_compiled(ops: Seq<Opcode>) -> Option<EmitState> {
    emit_blocks(
        spec_basic_blocks(ops),
        frame_cell_ids(ops),
        0,
        EmitState {
            insns: Seq::empty(),
            values: spec_local_count(ops) as int,
            stack: Seq::empty(),
        },
    )
}

/// Lowers a single opcode onto the block-local emission stack, emitting its
/// IR into `function`. Fails with a stack underflow when the stack holds
/// fewer operands than the opcode pops; otherwise the stack shrinks and
/// grows exactly by the opcode's pops and pushes, and the emission is
/// exactly [`emit_opcode`].
/// Pushing a value commutes with taking ids.
proof fn lemma_value_ids_push(s: Seq<Value>, v: Value)
    ensures
        value_ids(s.push(v)) == value_ids(s).push(v.id),
{
    assert(value_ids(s.push(v)) =~= value_ids(s).push(v.id));
}

/// Dropping the last value commutes with taking ids.
proof fn lemma_value_ids_drop(s: Seq<Value>)
    requires
        s.len() > 0,
    ensures
        value_ids(s.drop_last()) == value_ids(s).drop_last(),
        value_ids(s).last() == s.last().id,
        value_ids(s).len() == s.len(),
{
    assert(value_ids(s.drop_last()) =~= value_ids(s).drop_last());
}

fn compile_opcode(
    opcode: &Opcode,
    function: &mut Function,
    stack: &mut Vec<Value>,
    locals: &Vec<Value>,
) -> (r: Result<(), CompileError>)
    requires
        !old(function).compiled,
        old(function).value_count < u64::MAX,
        match slot_ref(*opcode) {
            Some(a) => (a as int) < locals@.len(),
            None => true,
        },
    ensures
        final(function).compiled == old(function).compiled,
        final(function).signature == old(function).signature,
        final(function).value_count <= old(function).value_count + 1,
        if old(stack)@.len() < op_pops(*opcode) {
            r == Err::<(), CompileError>(CompileError::StackUnderflow)
        } else {
            r == Ok::<(), CompileError>(()) && final(stack)@.len() == old(stack)@.len() - op_pops(
                *opcode,
            ) + op_pushes(*opcode)
        },
        match emit_opcode(
            *opcode,
            value_ids(locals@),
            EmitState {
                insns: old(function).insns@,
                values: old(function).value_count as int,
                stack: value_ids(old(stack)@),
            },
        ) {
            Some(st) => {
                &&& final(function).insns@ == st.insns
                &&& final(function).value_count as int == st.values
                &&& value_ids(final(stack)@) == st.stack
            },
            None => true,
        },
{
    proof {
        if old(stack)@.len() > 0 {
            lemma_value_ids_drop(old(stack)@);
            if old(stack)@.len() > 1 {
                lemma_value_ids_drop(old(stack)@.drop_last());
            }
        }
        match slot_ref(*opcode) {
            Some(a) => {
                assert(value_ids(locals@)[a as int] == locals@[a as int].id);
            },
            None => {},
        }
        assert(value_ids(old(stack)@).len() == old(stack)@.len());
    }
    match binary_op_of(opcode) {
        Some(op) => {
            let v1 = match stack.pop() {
                Some(v) => v,
                None => {
                    return Err(CompileError::StackUnderflow);
                },
            };
            let v2 = match stack.pop() {
                Some(v) => v,
                None => {
                    return Err(CompileError::StackUnderflow);
                },
            };
            let v = match op {
                BinaryOp::Add => function.insn_add(&v2, &v1),
                BinaryOp::Sub => function.insn_sub(&v2, &v1),
                BinaryOp::Mul => function.insn_mul(&v2, &v1),
                BinaryOp::Div => function.insn_div(&v2, &v1),
                BinaryOp::And => function.insn_and(&v2, &v1),
                BinaryOp::Or => function.insn_or(&v2, &v1),
                BinaryOp::Xor => function.insn_xor(&v2, &v1),
                BinaryOp::Eq => function.insn_eq(&v2, &v1),
                BinaryOp::Neq => function.insn_neq(&v2, &v1),
                BinaryOp::Leq => function.insn_leq(&v2, &v1),
                BinaryOp::Geq => function.insn_geq(&v2, &v1),
                BinaryOp::Lt => function.insn_lt(&v2, &v1),
                BinaryOp::Gt => function.insn_gt(&v2, &v1),
            };
            proof {
                lemma_value_ids_push(old(stack)@.drop_last().drop_last(), v);
            }
            stack.push(v);
            Ok(())
        },
        None => match unary_op_of(opcode) {
            Some(op) => {
                let v = match stack.pop() {
                    Some(v) => v,
                    None => {
                        return Err(CompileError::StackUnderflow);
                    },
                };
                let w = match op {
                    UnaryOp::Neg => function.insn_neg(&v),
                    UnaryOp::Not => function.insn_not(&v),
                };
                proof {
                    lemma_value_ids_push(old(stack)@.drop_last(), w);
                }
                stack.push(w);
                Ok(())
            },
            None => match *opcode {
                Opcode::Constf32(bits) => {
                    let v = function.constant_float32(bits);
                    proof {
                        lemma_value_ids_push(old(stack)@, v);
                    }
                    stack.push(v);
                    Ok(())
                },
                Opcode::Consti32(k) => {
                    let v = function.constant_int32(k);
                    proof {
                        lemma_value_ids_push(old(stack)@, v);
                    }
                    stack.push(v);
                    Ok(())
                },
                Opcode::Ret => {
                    let v = match stack.pop() {
                        Some(v) => v,
                        None => {
                            return Err(CompileError::StackUnderflow);
                        },
                    };
                    function.insn_return(&v);
                    Ok(())
                },
                // `Disp` has no meaning in the compiled path and is dropped.
                Opcode::Disp => Ok(()),
                Opcode::Store(a) => {
                    let v = match stack.pop() {
                        Some(v) => v,
                        None => {
                            return Err(CompileError::StackUnderflow);
                        },
                    };
                    function.insn_store(&locals[a as usize], &v);
                    Ok(())
                },
                Opcode::Loadf32(a) | Opcode::Loadi32(a) => {
                    let cell = locals[a as usize];
                    let v = function.insn_dup(&cell);
                    proof {
                        lemma_value_ids_push(old(stack)@, v);
                    }
                    stack.push(v);
                    Ok(())
                },
                // Control transfer lives in the block's edges, never in its
                // body; nothing is emitted for a stray branch opcode.
                _ => Ok(()),
            },
        },
    }
}

/// Lowers one basic block: binds its label, lowers its body over a fresh
/// emission stack, pops the condition operand for a conditional successor,
/// and emits the branch edges. Succeeds exactly when [`block_status`] of
/// the block does.
fn compile_basic_block(
    j: usize,
    basic_blocks: &Vec<BasicBlock>,
    function: &mut Function,
    locals: &Vec<Value>,
) -> (r: Result<(), CompileError>)
    requires
        j < basic_blocks@.len(),
        basic_blocks@.len() <= u32::MAX,
        !old(function).compiled,
        old(function).value_count + views_of(basic_blocks@)[j as int].opcodes.len() + 1
            <= u64::MAX,
        views_of(basic_blocks@)[j as int].label == j as int,
        forall|k: int|
            0 <= k < views_of(basic_blocks@)[j as int].opcodes.len() ==> match slot_ref(
                #[trigger] views_of(basic_blocks@)[j as int].opcodes[k],
            ) {
                Some(a) => (a as int) < locals@.len(),
                None => true,
            },
        match views_of(basic_blocks@)[j as int].conditional_block {
            Some(m) => 0 <= m < basic_blocks@.len() && views_of(basic_blocks@)[m].label == m,
            None => true,
        },
        match views_of(basic_blocks@)[j as int].next_block {
            Some(m) => 0 <= m < basic_blocks@.len() && views_of(basic_blocks@)[m].label == m,
            None => true,
        },
    ensures
        final(function).compiled == old(function).compiled,
        final(function).signature == old(function).signature,
        final(function).value_count <= old(function).value_count + views_of(
            basic_blocks@,
        )[j as int].opcodes.len(),
        match r {
            Ok(u) => block_status(views_of(basic_blocks@)[j as int]) == Ok::<(), CompileError>(u),
            Err(e) => block_status(views_of(basic_blocks@)[j as int]) == Err::<(), CompileError>(
                e,
            ),
        },
        match emit_block(
            views_of(basic_blocks@)[j as int],
            value_ids(locals@),
            EmitState {
                insns: old(function).insns@,
                values: old(function).value_count as int,
                stack: Seq::empty(),
            },
        ) {
            Some(st) => {
                &&& r is Ok
                &&& final(function).insns@ == st.insns
                &&& final(function).value_count as int == st.values
            },
            None => r is Err,
        },
{
    let ghost model = views_of(basic_blocks@)[j as int];
    let ghost body = model.opcodes;
    let ghost lids = value_ids(locals@);
    proof {
        assert(model == basic_blocks@[j as int]@);
        match model.conditional_block {
            Some(m) => {
                assert(views_of(basic_blocks@)[m] == basic_blocks@[m]@);
            },
            None => {},
        }
        match model.next_block {
            Some(m) => {
                assert(views_of(basic_blocks@)[m] == basic_blocks@[m]@);
            },
            None => {},
        }
    }
    let mut stack: Vec<Value> = Vec::new();

    // Bind this block's label at the current emission point.
    let own_label = basic_blocks[j].label;
    function.insn_set_label(&own_label);

    let ghost start = EmitState {
        insns: function.insns@,
        values: function.value_count as int,
        stack: Seq::empty(),
    };
    proof {
        assert(value_ids(stack@) =~= Seq::<u64>::empty());
    }
    let mut k: usize = 0;
    while k < basic_blocks[j].opcodes.len()
        invariant
            j < basic_blocks@.len(),
            model == views_of(basic_blocks@)[j as int],
            model == basic_blocks@[j as int]@,
            model.label == j as int,
            body == model.opcodes,
            lids == value_ids(locals@),
            start == (EmitState {
                insns: old(function).insns@.push(Insn::SetLabel { label: j as u32 }),
                values: old(function).value_count as int,
                stack: Seq::<u64>::empty(),
            }),
            k <= body.len(),
            !function.compiled,
            function.compiled == old(function).compiled,
            function.value_count + (body.len() - k) + 1 <= u64::MAX,
            function.value_count <= old(function).value_count + k,
            function.signature == old(function).signature,
            forall|m: int|
                0 <= m < body.len() ==> match slot_ref(#[trigger] body[m]) {
                    Some(a) => (a as int) < locals@.len(),
                    None => true,
                },
            block_height(body, k as int, stack@.len() as int) == block_height(body, 0, 0),
            emit_body(
                body,
                lids,
                k as int,
                EmitState {
                    insns: function.insns@,
                    values: function.value_count as int,
                    stack: value_ids(stack@),
                },
            ) == emit_body(body, lids, 0, start),
            value_ids(stack@).len() == stack@.len(),
        decreases body.len() - k,
    {
        let op = basic_blocks[j].opcodes[k];
        let ghost height_before = stack@.len() as int;
        let ghost state_before = EmitState {
            insns: function.insns@,
            values: function.value_count as int,
            stack: value_ids(stack@),
        };
        match compile_opcode(&op, function, &mut stack, locals) {
            Ok(()) => {
                proof {
                    let st2 = emit_opcode(body[k as int], lids, state_before);
                    assert(st2 is Some);
                    assert(EmitState {
                        insns: function.insns@,
                        values: function.value_count as int,
                        stack: value_ids(stack@),
                    } =~= st2->Some_0);
                }
            },
            Err(e) => {
                proof {
                    assert(block_height(body, k as int, height_before) is None);
                    assert(emit_opcode(body[k as int], lids, state_before) is None);
                    assert(emit_body(body, lids, 0, start) is None);
                }
                return Err(e);
            },
        }
        k += 1;
    }

    // A conditional successor consumes the branch condition from the stack.
    let ghost after_body = EmitState {
        insns: function.insns@,
        values: function.value_count as int,
        stack: value_ids(stack@),
    };
    proof {
        assert(emit_body(body, lids, 0, start) == Some(after_body));
    }
    match basic_blocks[j].conditional_block {
        Some(cb) => {
            let ghost pre_pop = stack@;
            match stack.pop() {
                Some(v) => {
                    proof {
                        lemma_value_ids_drop(pre_pop);
                    }
                    let target_label = basic_blocks[cb].label;
                    function.insn_branch_if(&v, &target_label);
                },
                None => {
                    return Err(CompileError::StackUnderflow);
                },
            }
        },
        None => {},
    }

    // A fall-through successor becomes an unconditional branch; the back
    // end is free to elide a branch to the next instruction.
    match basic_blocks[j].next_block {
        Some(nb) => {
            let target_label = basic_blocks[nb].label;
            function.insn_branch(&target_label);
        },
        None => {},
    }

    // The emission stack must be empty at the block boundary.
    if stack.len() > 0 {
        return Err(CompileError::MalformedBytecode);
    }
    proof {
        assert(value_ids(stack@) =~= Seq::<u64>::empty());
    }
    Ok(())
}

/// Pre-creates one IR storage cell per local slot: a float cell where
/// inference found `Float32`, an integer cell otherwise (`Unknown` defaults
/// to integer).
fn reserve_locals(
    function: &Vec<Opcode>,
    basic_blocks: &Vec<BasicBlock>,
    jit_function: &mut Function,
) -> (locals: Vec<Value>)
    requires
        slots_in_range(function@),
        block_slots_below(views_of(basic_blocks@), spec_local_count(function@) as int),
        !old(jit_function).compiled,
        old(jit_function).value_count + spec_local_count(function@) <= u64::MAX,
    ensures
        locals@.len() == spec_local_count(function@),
        final(jit_function).insns@ == old(jit_function).insns@,
        final(jit_function).value_count == old(jit_function).value_count + locals@.len(),
        final(jit_function).signature == old(jit_function).signature,
        final(jit_function).compiled == old(jit_function).compiled,
        forall|m: int|
            0 <= m < locals@.len() ==> (#[trigger] locals@[m]).id == old(
                jit_function,
            ).value_count + m,
{
    let count = local_count(function);
    let types = infer_local_types(basic_blocks, count);
    let mut locals: Vec<Value> = Vec::new();
    let mut index: usize = 0;
    while index < count as usize
        invariant
            index <= count as nat,
            types@.len() == count as nat,
            locals@.len() == index,
            !jit_function.compiled,
            jit_function.insns@ == old(jit_function).insns@,
            jit_function.value_count == old(jit_function).value_count + index,
            jit_function.value_count + (count as nat - index) <= u64::MAX,
            jit_function.signature == old(jit_function).signature,
            forall|m: int|
                0 <= m < locals@.len() ==> (#[trigger] locals@[m]).id == old(
                    jit_function,
                ).value_count + m,
        decreases count - index,
    {
        let cell_type = if types[index] == VariableType::Float32 {
            Types::get_float32()
        } else {
            Types::get_int()
        };
        let cell = jit_function.create_value(&cell_type);
        locals.push(cell);
        index += 1;
    }
    locals
}

/// JIT-compiles a function: brackets the build scope, creates a `() -> f32`
/// function object, recovers the basic blocks, infers local types, reserves
/// the local cells, lowers every block in order and finalizes the result.
/// Succeeds exactly when [`spec_compile_status`] does: the function is
/// within the engines' limits and every block keeps its emission stack
/// balanced — so the stack is empty at every block boundary of the
/// compiled path. On success the recorded program is exactly
/// [`spec_compiled`]. The build scope is released on every path.
pub fn compile(function: &Vec<Opcode>, context: &mut Context) -> (r: Result<
    Function,
    CompileError,
>)
    requires
        !old(context).building,
    ensures
        !final(context).building,
        match r {
            Ok(f) => {
                &&& spec_compile_status(function@) == Ok::<(), CompileError>(())
                &&& f.compiled
                &&& match spec_compiled(function@) {
                    Some(st) => f.insns@ == st.insns && f.value_count as int == st.values,
                    None => false,
                }
                &&& f.signature matches Type::Signature { abi, ret, params } && abi == ABI::CDECL
                    && *ret == Type::Float32 && params@ == Seq::<Type>::empty()
            },
            Err(e) => spec_compile_status(function@) == Err::<(), CompileError>(e),
        },
{
    let ghost ops = function@;
    context.build_start();

    // The compiled entry point takes no arguments and returns one float.
    let return_type = Types::get_float32();
    let params: Vec<Type> = Vec::new();
    let signature = Type::create_signature(ABI::CDECL, return_type, params);
    let mut jit_function = context.create_function(signature);

    if !check_function(function) {
        context.build_end();
        return Err(CompileError::MalformedBytecode);
    }

    let basic_blocks = get_basic_blocks(function);
    let ghost models = spec_basic_blocks(ops);
    proof {
        lemma_blocks_shape(ops);
        lemma_edges_have_predecessors(ops);
        lemma_no_branch_opcodes(ops);
        lemma_cfg_walk_total(ops, ops.len() as int);
        lemma_local_count_characterization(ops);
        lemma_max_slot_in_range(ops);
        lemma_starts_below_len(ops, ops.len() as int + 1);
        lemma_total_opcodes_nonneg(models, 0);
        assert forall|j: int, k: int|
            0 <= j < models.len() && 0 <= k < models[j].opcodes.len() implies match slot_ref(
            #[trigger] models[j].opcodes[k],
        ) {
            Some(a) => (a as int) < spec_local_count(ops) as int,
            None => true,
        } by {
            assert(ops.contains(models[j].opcodes[k]));
            if slot_ref(models[j].opcodes[k]) is Some {
                let i = choose|i: int| 0 <= i < ops.len() && ops[i] == models[j].opcodes[k];
                assert(slot_ref(ops[i]) == slot_ref(models[j].opcodes[k]));
            }
        }
    }

    let locals = reserve_locals(function, &basic_blocks, &mut jit_function);
    let ghost lids = value_ids(locals@);
    proof {
        assert(lids =~= Seq::new(spec_local_count(ops), |m: int| m as u64));
    }

    let mut j: usize = 0;
    while j < basic_blocks.len()
        invariant
            context.building,
            ops == function@,
            lids == value_ids(locals@),
            lids == Seq::new(spec_local_count(ops), |m: int| m as u64),
            jit_function.signature matches Type::Signature { abi, ret, params } && abi
                == ABI::CDECL && *ret == Type::Float32 && params@ == Seq::<Type>::empty(),
            emit_blocks(
                models,
                lids,
                j as int,
                EmitState {
                    insns: jit_function.insns@,
                    values: jit_function.value_count as int,
                    stack: Seq::<u64>::empty(),
                },
            ) == spec_compiled(ops),
            models == spec_basic_blocks(ops),
            views_of(basic_blocks@) == models,
            basic_blocks@.len() == models.len(),
            basic_blocks@.len() <= u32::MAX,
            j <= models.len(),
            spec_valid_function(ops),
            !jit_function.compiled,
            jit_function.value_count <= spec_local_count(ops) + total_opcodes(models, 0)
                - total_opcodes(models, j as int),
            spec_local_count(ops) + total_opcodes(models, 0) + 1 <= u64::MAX,
            total_opcodes(models, j as int) >= 0,
            locals@.len() == spec_local_count(ops),
            block_slots_below(models, locals@.len() as int),
            forall|m: int| 0 <= m < models.len() ==> (#[trigger] models[m]).label == m,
            forall|m: int|
                0 <= m < models.len() ==> match (#[trigger] models[m]).next_block {
                    Some(t) => 0 <= t < models.len(),
                    None => true,
                },
            forall|m: int|
                0 <= m < models.len() ==> match (#[trigger] models[m]).conditional_block {
                    Some(t) => 0 <= t < models.len(),
                    None => true,
                },
            blocks_status(models, j as int) == blocks_status(models, 0),
        decreases models.len() - j,
    {
        proof {
            lemma_total_opcodes_nonneg(models, j as int + 1);
        }
        let ghost state_before = EmitState {
            insns: jit_function.insns@,
            values: jit_function.value_count as int,
            stack: Seq::<u64>::empty(),
        };
        match compile_basic_block(j, &basic_blocks, &mut jit_function, &locals) {
            Ok(()) => {
                proof {
                    let emitted = emit_block(models[j as int], lids, state_before);
                    assert(emitted is Some);
                    let st = emitted->Some_0;
                    assert(st.stack.len() == 0);
                    assert(EmitState {
                        insns: jit_function.insns@,
                        values: jit_function.value_count as int,
                        stack: Seq::<u64>::empty(),
                    } =~= st);
                }
            },
            Err(e) => {
                context.build_end();
                return Err(e);
            },
        }
        j += 1;
    }

    jit_function.compile();
    context.build_end();
    Ok(jit_function)
}

/// Emission only appends: the instructions already recorded stay in place
/// as a prefix, and the value counter never decreases.
proof fn lemma_emit_body_extends(ops: Seq<Opcode>, lids: Seq<u64>, k: int, st: EmitState)
    requires
        emit_body(ops, lids, k, st) is Some,
    ensures
        ({
            let e = emit_body(ops, lids, k, st)->Some_0;
            &&& st.insns.len() <= e.insns.len()
            &&& e.insns.subrange(0, st.insns.len() as int) == st.insns
            &&& st.values <= e.values
            &&& 0 <= k <= ops.len() ==> e.values <= st.values + (ops.len() - k)
            &&& 0 <= k <= ops.len() ==> e.insns.len() <= st.insns.len() + (ops.len() - k)
        }),
    decreases ops.len() - k,
{
    let e = emit_body(ops, lids, k, st)->Some_0;
    if 0 <= k < ops.len() {
        let st2 = emit_opcode(ops[k], lids, st)->Some_0;
        lemma_emit_body_extends(ops, lids, k + 1, st2);
        assert(st2.insns.subrange(0, st.insns.len() as int) =~= st.insns);
        assert(e.insns.subrange(0, st.insns.len() as int) =~= st.insns);
    } else {
        assert(e.insns.subrange(0, st.insns.len() as int) =~= st.insns);
    }
}

/// A body whose heights stay defined keeps emitting: the emission succeeds
/// wherever [`block_height`] is defined, and the emission stack's length is
/// that height.
proof fn lemma_balanced_body_emits(body: Seq<Opcode>, lids: Seq<u64>, k: int, st: EmitState)
    requires
        block_height(body, k, st.stack.len() as int) is Some,
    ensures
        emit_body(body, lids, k, st) is Some,
        emit_body(body, lids, k, st)->Some_0.stack.len() == block_height(
            body,
            k,
            st.stack.len() as int,
        )->Some_0,
    decreases body.len() - k,
{
    if 0 <= k < body.len() {
        let st2 = emit_opcode(body[k], lids, st)->Some_0;
        assert(emit_opcode(body[k], lids, st) is Some);
        assert(st2.stack.len() == st.stack.len() - op_pops(body[k]) + op_pushes(body[k]));
        lemma_balanced_body_emits(body, lids, k + 1, st2);
    }
}

/// The interpreter's state and the evaluator's state describe the same
/// computation: the stack splits into the local frame and the segment's
/// operands, slot `a` agrees with register `a`, and each emission-stack id
/// names a register holding the matching operand.
spec fn coupled(ops: Seq<Opcode>, stack: Seq<Scalar>, st: EmitState, regs: Seq<Scalar>) -> bool {
    let bp = spec_local_count(ops) as int;
    &&& stack.len() == bp + st.stack.len()
    &&& bp <= st.values
    &&& forall|a: int| 0 <= a < bp ==> regs[a] == stack[bp - 1 - a]
    &&& forall|i: int|
        0 <= i < st.stack.len() ==> bp <= #[trigger] st.stack[i] < st.values && regs[st.stack[i]
            as int] == stack[bp + i]
}

/// On a straight-line, display-free opcode stream, running the interpreter
/// from position `k` and running the recorded program from the matching
/// emission point produce the same result, step for step.
#[verifier::rlimit(100)]
#[verifier::spinoff_prover]
proof fn lemma_straight_line_sim(
    ops: Seq<Opcode>,
    k: int,
    stack: Seq<Scalar>,
    st: EmitState,
    insns: Seq<Insn>,
    regs: Seq<Scalar>,
    fuel_i: nat,
    fuel_r: nat,
)
    requires
        spec_valid_function(ops),
        forall|i: int|
            0 <= i < ops.len() ==> !is_branch(#[trigger] ops[i]) && ops[i] != Opcode::Disp,
        0 <= k <= ops.len(),
        emit_body(ops, frame_cell_ids(ops), k, st) is Some,
        emit_body(ops, frame_cell_ids(ops), k, st)->Some_0.insns == insns,
        emit_body(ops, frame_cell_ids(ops), k, st)->Some_0.values <= regs.len(),
        emit_body(ops, frame_cell_ids(ops), k, st)->Some_0.values <= u64::MAX,
        coupled(ops, stack, st, regs),
        fuel_i >= ops.len() - k,
        fuel_r >= insns.len() - st.insns.len(),
    ensures
        spec_run(ops, stack, k, fuel_i) == spec_ir_run(insns, regs, st.insns.len() as int, fuel_r),
    decreases ops.len() - k,
{
    let lids = frame_cell_ids(ops);
    let bp = spec_local_count(ops) as int;
    let e = emit_body(ops, lids, k, st)->Some_0;
    lemma_emit_body_extends(ops, lids, k, st);
    let pc = st.insns.len() as int;
    if k == ops.len() {
        assert(e == st);
        assert(spec_run(ops, stack, k, fuel_i) == Err::<Scalar, ExecutionError>(
            ExecutionError::MalformedBytecode,
        ));
        assert(spec_ir_run(insns, regs, pc, fuel_r) == Err::<Scalar, ExecutionError>(
            ExecutionError::MalformedBytecode,
        ));
    } else {
        let op = ops[k];
        let st2 = emit_opcode(op, lids, st)->Some_0;
        lemma_emit_body_extends(ops, lids, k + 1, st2);
        assert(emit_body(ops, lids, k + 1, st2)->Some_0 == e);
        lemma_local_count_characterization(ops);
        match slot_ref(op) {
            Some(a) => {
                assert((a as nat) < spec_local_count(ops));
                assert(lids[a as int] == a);
            },
            None => {},
        }
        if st2.insns.len() > st.insns.len() {
            // The opcode emitted one instruction; it sits at `pc`.
            assert(st2.insns == st.insns.push(st2.insns.last()));
            assert(insns.subrange(0, st2.insns.len() as int) == st2.insns);
            assert(insns[pc] == st2.insns.last());
        }
        let n = st.stack.len() as int;
        match spec_step(op, bp, stack, k) {
            StepModel::Next { stack: s2, ip: k2 } => {
                assert(k2 == k + 1);
                if op is Nop {
                    lemma_straight_line_sim(
                        ops,
                        k + 1,
                        s2,
                        st2,
                        insns,
                        regs,
                        (fuel_i - 1) as nat,
                        fuel_r,
                    );
                } else {
                    let x = insns[pc];
                    let dest = st.values as u64;
                    assert(0 <= st.values <= u64::MAX);
                    assert(dest as int == st.values);
                    assert(forall|j: int|
                        0 <= j < stack.len() - 1 ==> #[trigger] stack.drop_last()[j] == stack[j]);
                    assert(forall|j: int|
                        0 <= j < n - 1 ==> #[trigger] st.stack.drop_last()[j] == st.stack[j]);
                    // Establish the matching evaluator step and the next
                    // coupling, case by case.
                    let r2: Seq<Scalar> = match spec_binary_op_of(op) {
                        Some(b) => {
                            let v1 = stack.last();
                            let v2 = stack.drop_last().last();
                            let e1 = st.stack.last();
                            let e2 = st.stack.drop_last().last();
                            assert(st.stack[n - 1] == e1 && regs[e1 as int] == stack[bp + n - 1]);
                            assert(st.stack[n - 2] == e2 && regs[e2 as int] == stack[bp + n - 2]);
                            assert(regs[e1 as int] == v1 && regs[e2 as int] == v2);
                            assert(spec_binary(b, v2, v1) is Ok);
                            let res = spec_binary(b, v2, v1)->Ok_0;
                            assert(x == (Insn::Binary { op: b, dest, lhs: e2, rhs: e1 }));
                            assert(spec_ir_step(insns, regs, pc) == (IrStepModel::Next {
                                regs: regs.update(dest as int, res),
                                pc: pc + 1,
                            }));
                            let r2 = regs.update(dest as int, res);
                            assert(s2 == stack.drop_last().drop_last().push(res));
                            assert(st2.stack == st.stack.drop_last().drop_last().push(dest));
                            assert(coupled(ops, s2, st2, r2)) by {
                                assert forall|i: int| 0 <= i < st2.stack.len() implies bp <= (
                                #[trigger] st2.stack[i]) < st2.values && r2[st2.stack[i] as int]
                                    == s2[bp + i] by {
                                    if i < st2.stack.len() - 1 {
                                        assert(st2.stack[i] == st.stack[i]);
                                        assert(s2[bp + i] == stack[bp + i]);
                                    } else {
                                        assert(st2.stack[i] == dest);
                                        assert(s2[bp + i] == res);
                                    }
                                }
                            }
                            r2
                        },
                        None => match spec_unary_op_of(op) {
                            Some(u) => {
                                let v1 = stack.last();
                                let e1 = st.stack.last();
                                assert(st.stack[n - 1] == e1 && regs[e1 as int] == stack[bp + n
                                    - 1]);
                                assert(regs[e1 as int] == v1);
                                assert(spec_unary(u, v1) is Ok);
                                let res = spec_unary(u, v1)->Ok_0;
                                assert(x == (Insn::Unary { op: u, dest, src: e1 }));
                                assert(spec_ir_step(insns, regs, pc) == (IrStepModel::Next {
                                    regs: regs.update(dest as int, res),
                                    pc: pc + 1,
                                }));
                                let r2 = regs.update(dest as int, res);
                                assert(s2 == stack.drop_last().push(res));
                                assert(st2.stack == st.stack.drop_last().push(dest));
                                assert(coupled(ops, s2, st2, r2)) by {
                                    assert forall|i: int| 0 <= i < st2.stack.len() implies bp <= (
                                    #[trigger] st2.stack[i]) < st2.values && r2[st2.stack[i]
                                        as int] == s2[bp + i] by {
                                        if i < st2.stack.len() - 1 {
                                            assert(st2.stack[i] == st.stack[i]);
                                            assert(s2[bp + i] == stack[bp + i]);
                                        } else {
                                            assert(st2.stack[i] == dest);
                                            assert(s2[bp + i] == res);
                                        }
                                    }
                                }
                                r2
                            },
                            None => match op {
                                Opcode::Constf32(bits) => {
                                    assert(x == (Insn::ConstF32 { dest, bits }));
                                    let r2 = regs.update(dest as int, Scalar::Float(bits));
                                    assert(coupled(ops, s2, st2, r2)) by {
                                        assert forall|i: int|
                                            0 <= i < st2.stack.len() implies bp <= (
                                        #[trigger] st2.stack[i]) < st2.values && r2[st2.stack[i]
                                            as int] == s2[bp + i] by {
                                            if i < st2.stack.len() - 1 {
                                                assert(st2.stack[i] == st.stack[i]);
                                                assert(s2[bp + i] == stack[bp + i]);
                                            } else {
                                                assert(st2.stack[i] == dest);
                                            }
                                        }
                                    }
                                    r2
                                },
                                Opcode::Consti32(value) => {
                                    assert(x == (Insn::ConstI32 { dest, value }));
                                    let r2 = regs.update(dest as int, Scalar::Int(value));
                                    assert(coupled(ops, s2, st2, r2)) by {
                                        assert forall|i: int|
                                            0 <= i < st2.stack.len() implies bp <= (
                                        #[trigger] st2.stack[i]) < st2.values && r2[st2.stack[i]
                                            as int] == s2[bp + i] by {
                                            if i < st2.stack.len() - 1 {
                                                assert(st2.stack[i] == st.stack[i]);
                                                assert(s2[bp + i] == stack[bp + i]);
                                            } else {
                                                assert(st2.stack[i] == dest);
                                            }
                                        }
                                    }
                                    r2
                                },
                                Opcode::Loadf32(a) | Opcode::Loadi32(a) => {
                                    assert(x == (Insn::Load { dest, src: a as u64 }));
                                    assert(regs[a as int] == stack[bp - 1 - a]);
                                    let r2 = regs.update(dest as int, regs[a as int]);
                                    assert(coupled(ops, s2, st2, r2)) by {
                                        assert forall|i: int|
                                            0 <= i < st2.stack.len() implies bp <= (
                                        #[trigger] st2.stack[i]) < st2.values && r2[st2.stack[i]
                                            as int] == s2[bp + i] by {
                                            if i < st2.stack.len() - 1 {
                                                assert(st2.stack[i] == st.stack[i]);
                                                assert(s2[bp + i] == stack[bp + i]);
                                            } else {
                                                assert(st2.stack[i] == dest);
                                            }
                                        }
                                    }
                                    r2
                                },
                                Opcode::Store(a) => {
                                    let e1 = st.stack.last();
                                    let v1 = stack.last();
                                    assert(st.stack[n - 1] == e1 && regs[e1 as int] == stack[bp
                                        + n - 1]);
                                    assert(regs[e1 as int] == v1);
                                    assert(x == (Insn::Store { dest: a as u64, src: e1 }));
                                    let r2 = regs.update(a as int, regs[e1 as int]);
                                    assert(s2 == stack.drop_last().update(bp - 1 - a, v1));
                                    assert(st2.stack == st.stack.drop_last());
                                    assert(coupled(ops, s2, st2, r2)) by {
                                        assert((a as int) < bp);
                                        assert forall|a2: int| 0 <= a2 < bp implies r2[a2]
                                            == s2[bp - 1 - a2] by {
                                            if a2 == a as int {
                                                assert(r2[a2] == v1);
                                                assert(s2[bp - 1 - a2] == v1);
                                            } else {
                                                assert(r2[a2] == regs[a2]);
                                                assert(s2[bp - 1 - a2] == stack[bp - 1 - a2]);
                                            }
                                        }
                                        assert forall|i: int|
                                            0 <= i < st2.stack.len() implies bp <= (
                                        #[trigger] st2.stack[i]) < st2.values && r2[st2.stack[i]
                                            as int] == s2[bp + i] by {
                                            assert(st2.stack[i] == st.stack[i]);
                                            assert(s2[bp + i] == stack[bp + i]);
                                            assert(r2[st2.stack[i] as int] == regs[st.stack[i]
                                                as int]);
                                        }
                                    }
                                    r2
                                },
                                _ => regs,
                            },
                        },
                    };
                    assert(spec_ir_step(insns, regs, pc) == (IrStepModel::Next {
                        regs: r2,
                        pc: pc + 1,
                    }));
                    assert(coupled(ops, s2, st2, r2));
                    lemma_straight_line_sim(
                        ops,
                        k + 1,
                        s2,
                        st2,
                        insns,
                        r2,
                        (fuel_i - 1) as nat,
                        (fuel_r - 1) as nat,
                    );
                }
            },
            StepModel::Return { value } => {
                assert(spec_ir_run(insns, regs, pc, fuel_r) == Ok::<Scalar, ExecutionError>(
                    value,
                ));
            },
            StepModel::Fail { error } => {
                assert(spec_ir_run(insns, regs, pc, fuel_r) == Err::<Scalar, ExecutionError>(
                    error,
                ));
            },
        }
    }
}

/// Law (straight-line agreement): on a function within the engines' limits
/// that holds no control transfer and no `Disp`, and that compiles, the
/// recorded program computes exactly what the interpreter computes — the
/// same value, or the same failure.
pub proof fn lemma_straight_line_agreement(ops: Seq<Opcode>)
    requires
        spec_valid_function(ops),
        forall|i: int|
            0 <= i < ops.len() ==> !is_branch(#[trigger] ops[i]) && ops[i] != Opcode::Disp,
        spec_compile_status(ops) == Ok::<(), CompileError>(()),
        ops.len() > 0,
    ensures
        spec_compiled(ops) is Some,
        ({
            let st = spec_compiled(ops)->Some_0;
            spec_ir_run(st.insns, zero_regs(st.values as u64), 0, max_fuel()) == spec_interpret(
                ops,
            )
        }),
{
    let lids = frame_cell_ids(ops);
    let bp = spec_local_count(ops) as int;
    let models = spec_basic_blocks(ops);
    crate::basic_block::lemma_blocks_shape(ops);
    crate::basic_block::lemma_block_contents(ops);
    crate::basic_block::lemma_branch_free_blocks(ops);
    lemma_max_slot_in_range(ops);

    // Without branches there is one block, without edges, holding all of
    // `ops` as its body.
    assert(models.len() == 1);
    let blk = models[0];
    assert(blk.start == 0);
    assert(crate::basic_block::block_end(ops, 0) == ops.len());
    assert(crate::basic_block::body_end(ops, 0) == ops.len());
    assert(blk.opcodes == crate::basic_block::block_body(ops, 0));
    assert(blk.opcodes =~= ops);
    assert(blk.conditional_block is None && blk.next_block is None);

    // The single block's emission is its label binding plus its body.
    let st0 = EmitState { insns: Seq::empty(), values: bp, stack: Seq::empty() };
    let st1 = EmitState {
        insns: Seq::empty().push(Insn::SetLabel { label: blk.label as u32 }),
        values: bp,
        stack: Seq::empty(),
    };
    assert(blocks_status(models, 0) == Ok::<(), CompileError>(()));
    assert(block_status(blk) is Ok);

    assert(block_height(blk.opcodes, 0, 0) is Some);
    lemma_balanced_body_emits(blk.opcodes, lids, 0, st1);
    let eb = emit_body(blk.opcodes, lids, 0, st1)->Some_0;
    lemma_emit_body_extends(blk.opcodes, lids, 0, st1);
    assert(eb.stack.len() == 0);
    assert(bp <= eb.values <= bp + ops.len());
    assert(emit_block(blk, lids, st0) == Some(eb));
    assert(emit_blocks(models, lids, 1, eb) == Some(eb));
    assert(spec_compiled(ops) == Some(eb));

    // One evaluator step over the label binding, then the simulation.
    let regs = zero_regs(eb.values as u64);
    assert(regs.len() == eb.values);
    assert(spec_ir_run(eb.insns, regs, 0, max_fuel()) == spec_ir_run(
        eb.insns,
        regs,
        1,
        (max_fuel() - 1) as nat,
    )) by {
        assert(eb.insns.subrange(0, 1) == st1.insns);
        assert(eb.insns.subrange(0, 1)[0] == eb.insns[0]);
        assert(eb.insns[0] == (Insn::SetLabel { label: blk.label as u32 }));
        assert(spec_ir_step(eb.insns, regs, 0) == (IrStepModel::Next { regs, pc: 1 }));
    }
    assert(coupled(ops, init_stack(ops), st1, regs)) by {
        assert(init_stack(ops).len() == bp);
        assert(forall|a: int| 0 <= a < bp ==> regs[a] == init_stack(ops)[bp - 1 - a]);
    }
    assert(eb.insns.len() <= 1 + ops.len());
    assert(max_fuel() - 1 >= eb.insns.len() - st1.insns.len());
    lemma_straight_line_sim(
        ops,
        0,
        init_stack(ops),
        st1,
        eb.insns,
        regs,
        max_fuel(),
        (max_fuel() - 1) as nat,
    );
}

} // verus!
