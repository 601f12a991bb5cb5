//! Static analysis over the opcode stream: the local-frame size and the
//! fixpoint inference of local-slot types.

use vstd::prelude::*;

use crate::basic_block::{views_of, BasicBlock, BlockModel};
use crate::opcode::{slot_ref, Opcode};
use crate::variable_type::VariableType;

verus! {

/// True when every slot referenced by a `Store`/`Load*` opcode in `ops` is
/// small enough that the frame size (largest slot plus one) fits in `u32`.
pub open spec fn slots_in_range(ops: Seq<Opcode>) -> bool {
    forall|i: int|
        0 <= i < ops.len() ==> match #[trigger] slot_ref(ops[i]) {
            Some(a) => a < u32::MAX,
            None => true,
        }
}

/// The largest local slot referenced by any `Store`/`Load*` opcode in `ops`,
/// or 0 when no such opcode exists.
pub open spec fn max_slot(ops: Seq<Opcode>) -> nat
    decreases ops.len(),
{
    if ops.len() == 0 {
        0
    } else {
        let rest = max_slot(ops.drop_last());
        match slot_ref(ops.last()) {
            Some(a) => if a as nat > rest {
                a as nat
            } else {
                rest
            },
            None => rest,
        }
    }
}

/// The number of local slots a function needs: one past the largest slot
/// referenced, or 1 when no opcode references a slot.
pub open spec fn spec_local_count(ops: Seq<Opcode>) -> nat {
    max_slot(ops) + 1
}

/// Every slot reference in `ops` lies below `max_slot(ops) + 1`.
proof fn lemma_max_slot_bounds(ops: Seq<Opcode>)
    ensures
        forall|i: int, a: u32|
            0 <= i < ops.len() && slot_ref(ops[i]) == Some(a) ==> a as nat <= max_slot(ops),
    decreases ops.len(),
{
    if ops.len() > 0 {
        lemma_max_slot_bounds(ops.drop_last());
        assert(forall|i: int| 0 <= i < ops.len() - 1 ==> ops[i] == ops.drop_last()[i]);
    }
}

/// `max_slot` stays below `u32::MAX` when every slot reference does.
pub proof fn lemma_max_slot_in_range(ops: Seq<Opcode>)
    requires
        slots_in_range(ops),
    ensures
        max_slot(ops) < u32::MAX,
    decreases ops.len(),
{
    if ops.len() > 0 {
        assert(slots_in_range(ops.drop_last())) by {
            assert(forall|i: int|
                0 <= i < ops.len() - 1 ==> ops.drop_last()[i] == ops[i]);
        }
        lemma_max_slot_in_range(ops.drop_last());
    }
}

/// Returns the number of local variables in the function: the largest slot
/// index in any `Store`/`Load*` opcode plus one, or 1 if no such opcode
/// exists.
pub fn local_count(function: &Vec<Opcode>) -> (count: u32)
    requires
        slots_in_range(function@),
    ensures
        count as nat == spec_local_count(function@),
{
    let ops = function;
    let mut count: u32 = 0;
    let mut i: usize = 0;
    while i < ops.len()
        invariant
            slots_in_range(ops@),
            i <= ops@.len(),
            count as nat == max_slot(ops@.take(i as int)),
        decreases ops@.len() - i,
    {
        proof {
            assert(ops@.take(i + 1).drop_last() =~= ops@.take(i as int));
            assert(ops@.take(i + 1).last() == ops@[i as int]);
        }
        match ops[i] {
            Opcode::Loadi32(a) | Opcode::Loadf32(a) | Opcode::Store(a) => {
                if a > count {
                    count = a;
                }
            },
            _ => {},
        }
        i += 1;
    }
    proof {
        assert(ops@.take(ops@.len() as int) =~= ops@);
        lemma_max_slot_in_range(ops@);
    }
    count + 1
}

/// A positive `max_slot` is witnessed by some `Store`/`Load*` opcode.
proof fn lemma_max_slot_witness(ops: Seq<Opcode>)
    ensures
        max_slot(ops) > 0 ==> exists|i: int|
            0 <= i < ops.len() && slot_ref(ops[i]) == Some(max_slot(ops) as u32),
        max_slot(ops) <= u32::MAX,
    decreases ops.len(),
{
    if ops.len() > 0 {
        lemma_max_slot_witness(ops.drop_last());
        assert(forall|i: int| 0 <= i < ops.len() - 1 ==> ops[i] == ops.drop_last()[i]);
        if max_slot(ops) > 0 {
            if slot_ref(ops.last()) matches Some(a) && a as nat == max_slot(ops) {
                assert(slot_ref(ops[ops.len() - 1]) == Some(max_slot(ops) as u32));
            } else {
                assert(max_slot(ops.drop_last()) == max_slot(ops));
            }
        }
    }
}

/// The frame-size rule is a pure function of the opcode stream, so computing
/// it twice over the same function yields the same count; and the count is
/// exactly one past the largest slot referenced by any `Store`/`Load*`
/// opcode, or 1 when no such opcode exists.
pub proof fn lemma_local_count_characterization(ops: Seq<Opcode>)
    ensures
        forall|i: int, a: u32|
            0 <= i < ops.len() && slot_ref(ops[i]) == Some(a) ==> (a as nat) < spec_local_count(
                ops,
            ),
        (exists|i: int| 0 <= i < ops.len() && slot_ref(ops[i]) is Some) ==> exists|i: int|
            0 <= i < ops.len() && slot_ref(ops[i]) == Some((spec_local_count(ops) - 1) as u32),
        (forall|i: int| 0 <= i < ops.len() ==> slot_ref(ops[i]) is None) ==> spec_local_count(ops)
            == 1,
    decreases ops.len(),
{
    lemma_max_slot_bounds(ops);
    lemma_max_slot_witness(ops);
    if exists|i: int| 0 <= i < ops.len() && slot_ref(ops[i]) is Some {
        if max_slot(ops) == 0 {
            let i = choose|i: int| 0 <= i < ops.len() && slot_ref(ops[i]) is Some;
            let a = slot_ref(ops[i])->Some_0;
            assert(a as nat <= max_slot(ops));
            assert(slot_ref(ops[i]) == Some((spec_local_count(ops) - 1) as u32));
        }
    }
    if forall|i: int| 0 <= i < ops.len() ==> slot_ref(ops[i]) is None {
        lemma_max_slot_none(ops);
    }
}

/// Without any `Store`/`Load*` opcode the largest referenced slot is 0.
proof fn lemma_max_slot_none(ops: Seq<Opcode>)
    requires
        forall|i: int| 0 <= i < ops.len() ==> slot_ref(ops[i]) is None,
    ensures
        max_slot(ops) == 0,
    decreases ops.len(),
{
    if ops.len() > 0 {
        assert(forall|i: int| 0 <= i < ops.len() - 1 ==> ops.drop_last()[i] == ops[i]);
        lemma_max_slot_none(ops.drop_last());
    }
}

/// A diagnostic the type-inference pass emits while it keeps going.
#[derive(Clone, Copy, PartialEq, Eq, Structural, Debug)]
pub enum InferenceWarning {
    /// A binary arithmetic opcode saw two distinct concrete operand types;
    /// inference adopted `taken`, the top-of-stack operand's type.
    OperandMismatch { taken: VariableType, other: VariableType },
    /// A `Store` saw a concrete type in conflict with the slot's previously
    /// inferred concrete type; the first-seen type stands.
    SlotConflict { slot: u32 },
}

/// The state of the abstract interpretation inside one basic block: the
/// abstract evaluation stack, the per-slot types inferred so far, whether
/// this pass made progress, and the warnings emitted so far.
#[verifier::ext_equal]
pub struct InferState {
    pub stack: Seq<VariableType>,
    pub locals: Seq<VariableType>,
    pub changed: bool,
    pub warnings: Seq<InferenceWarning>,
}

/// Pops the abstract stack; an empty stack yields `Unknown`.
pub open spec fn abs_pop(stack: Seq<VariableType>) -> (VariableType, Seq<VariableType>) {
    if stack.len() == 0 {
        (VariableType::Unknown, stack)
    } else {
        (stack.last(), stack.drop_last())
    }
}

/// The transfer function of one opcode over the abstract state.
///
/// Constants push their type; `Load*` pushes the slot's currently known type
/// (the opcode's own tag expresses intent only); arithmetic pops two and
/// pushes the top operand's type, warning when two distinct concrete types
/// meet; comparisons, bitwise opcodes and `Not` produce `Int32`; `Negate`
/// preserves its operand; `Store` adopts a concrete popped type for an
/// unknown slot and warns on a concrete conflict, the first-seen type
/// standing. Control transfer, `Nop`, `Ret` and `Disp` leave the abstract
/// state unchanged.
pub open spec fn infer_step(op: Opcode, st: InferState) -> InferState {
    match op {
        Opcode::Constf32(_) => InferState { stack: st.stack.push(VariableType::Float32), ..st },
        Opcode::Consti32(_) => InferState { stack: st.stack.push(VariableType::Int32), ..st },
        Opcode::Add | Opcode::Subtract | Opcode::Multiply | Opcode::Divide => {
            let (t, s1) = abs_pop(st.stack);
            let (t2, s2) = abs_pop(s1);
            let warnings = if t != t2 && t != VariableType::Unknown && t2
                != VariableType::Unknown {
                st.warnings.push(InferenceWarning::OperandMismatch { taken: t, other: t2 })
            } else {
                st.warnings
            };
            InferState { stack: s2.push(t), warnings, ..st }
        },
        Opcode::And | Opcode::Or | Opcode::Xor | Opcode::Eq | Opcode::Neq | Opcode::Leq
            | Opcode::Geq | Opcode::Lt | Opcode::Gt => {
            let (_, s1) = abs_pop(st.stack);
            let (_, s2) = abs_pop(s1);
            InferState { stack: s2.push(VariableType::Int32), ..st }
        },
        Opcode::Negate => st,
        Opcode::Not => {
            let (_, s1) = abs_pop(st.stack);
            InferState { stack: s1.push(VariableType::Int32), ..st }
        },
        Opcode::Store(a) => {
            let (t, s1) = abs_pop(st.stack);
            if t != VariableType::Unknown {
                if st.locals[a as int] != VariableType::Unknown && st.locals[a as int] != t {
                    InferState {
                        stack: s1,
                        warnings: st.warnings.push(InferenceWarning::SlotConflict { slot: a }),
                        ..st
                    }
                } else if st.locals[a as int] != t {
                    InferState {
                        stack: s1,
                        locals: st.locals.update(a as int, t),
                        changed: true,
                        ..st
                    }
                } else {
                    InferState { stack: s1, ..st }
                }
            } else {
                InferState { stack: s1, ..st }
            }
        },
        Opcode::Loadi32(a) | Opcode::Loadf32(a) => InferState {
            stack: st.stack.push(st.locals[a as int]),
            ..st
        },
        _ => st,
    }
}

/// Folds [`infer_step`] over the block body from position `k` on.
pub open spec fn infer_ops(body: Seq<Opcode>, k: int, st: InferState) -> InferState
    decreases body.len() - k,
{
    if k < 0 || k >= body.len() {
        st
    } else {
        infer_ops(body, k + 1, infer_step(body[k], st))
    }
}

/// One inference pass from block `j` on: each block is interpreted over a
/// fresh empty abstract stack (the evaluation stack is empty at every block
/// boundary), and the pass reports whether any block made progress.
pub open spec fn pass_from(
    blocks: Seq<BlockModel>,
    j: int,
    locals: Seq<VariableType>,
    changed: bool,
    warnings: Seq<InferenceWarning>,
) -> (Seq<VariableType>, bool, Seq<InferenceWarning>)
    decreases blocks.len() - j,
{
    if j < 0 || j >= blocks.len() {
        (locals, changed, warnings)
    } else {
        let st = infer_ops(
            blocks[j].opcodes,
            0,
            InferState { stack: Seq::empty(), locals, changed: false, warnings },
        );
        pass_from(blocks, j + 1, st.locals, changed || st.changed, st.warnings)
    }
}

/// Repeats inference passes until one reports no progress, for at most
/// `fuel + 1` passes: the final locals, the accumulated warnings, and
/// whether a pass without progress was reached.
pub open spec fn iterate_fix(
    blocks: Seq<BlockModel>,
    locals: Seq<VariableType>,
    warnings: Seq<InferenceWarning>,
    fuel: nat,
) -> (Seq<VariableType>, Seq<InferenceWarning>, bool)
    decreases fuel,
{
    let (l2, changed, w2) = pass_from(blocks, 0, locals, false, warnings);
    if !changed {
        (l2, w2, true)
    } else if fuel == 0 {
        (l2, w2, false)
    } else {
        iterate_fix(blocks, l2, w2, (fuel - 1) as nat)
    }
}

/// The all-`Unknown` local-type vector inference starts from.
pub open spec fn all_unknown(local_count: u32) -> Seq<VariableType> {
    Seq::new(local_count as nat, |j: int| VariableType::Unknown)
}

/// Every slot referenced inside any of the blocks lies below `bound`.
pub open spec fn block_slots_below(blocks: Seq<BlockModel>, bound: int) -> bool {
    forall|j: int, k: int|
        0 <= j < blocks.len() && 0 <= k < blocks[j].opcodes.len() ==> match slot_ref(
            #[trigger] blocks[j].opcodes[k],
        ) {
            Some(a) => (a as int) < bound,
            None => true,
        }
}

/// The number of `Unknown` entries of a local-type vector.
pub open spec fn count_unknown(s: Seq<VariableType>) -> nat
    decreases s.len(),
{
    if s.len() == 0 {
        0
    } else {
        count_unknown(s.drop_last()) + if s.last() == VariableType::Unknown {
            1nat
        } else {
            0nat
        }
    }
}

/// Inference only ever refines: a slot's concrete type, once set, stays.
pub open spec fn refines(l0: Seq<VariableType>, l1: Seq<VariableType>) -> bool {
    &&& l1.len() == l0.len()
    &&& forall|i: int|
        0 <= i < l0.len() && l0[i] != VariableType::Unknown ==> l1[i] == l0[i]
}

/// Refinement never increases the number of unknown slots.
proof fn lemma_refines_count(l0: Seq<VariableType>, l1: Seq<VariableType>)
    requires
        refines(l0, l1),
    ensures
        count_unknown(l1) <= count_unknown(l0),
    decreases l0.len(),
{
    if l0.len() > 0 {
        assert(refines(l0.drop_last(), l1.drop_last())) by {
            assert(forall|i: int| 0 <= i < l0.len() - 1 ==> l0.drop_last()[i] == l0[i]);
            assert(forall|i: int| 0 <= i < l1.len() - 1 ==> l1.drop_last()[i] == l1[i]);
        }
        lemma_refines_count(l0.drop_last(), l1.drop_last());
        assert(l1.last() == l1[l0.len() - 1] && l0.last() == l0[l0.len() - 1]);
    }
}

/// Refinement that resolves at least one unknown slot strictly decreases
/// the count of unknowns.
proof fn lemma_refines_count_strict(l0: Seq<VariableType>, l1: Seq<VariableType>, i: int)
    requires
        refines(l0, l1),
        0 <= i < l0.len(),
        l0[i] == VariableType::Unknown,
        l1[i] != VariableType::Unknown,
    ensures
        count_unknown(l1) < count_unknown(l0),
    decreases l0.len(),
{
    assert(forall|m: int| 0 <= m < l0.len() - 1 ==> l0.drop_last()[m] == l0[m]);
    assert(forall|m: int| 0 <= m < l1.len() - 1 ==> l1.drop_last()[m] == l1[m]);
    assert(refines(l0.drop_last(), l1.drop_last()));
    if i == l0.len() - 1 {
        lemma_refines_count(l0.drop_last(), l1.drop_last());
        assert(l0.last() == VariableType::Unknown && l1.last() != VariableType::Unknown);
    } else {
        lemma_refines_count_strict(l0.drop_last(), l1.drop_last(), i);
    }
}

/// One opcode's transfer refines the locals, only raises the progress flag,
/// and raises it exactly when it resolves an unknown slot.
proof fn lemma_step_refines(op: Opcode, st: InferState)
    requires
        match slot_ref(op) {
            Some(a) => (a as int) < st.locals.len(),
            None => true,
        },
    ensures
        refines(st.locals, infer_step(op, st).locals),
        st.changed ==> infer_step(op, st).changed,
        count_unknown(infer_step(op, st).locals) <= count_unknown(st.locals),
        infer_step(op, st).changed && !st.changed ==> count_unknown(infer_step(op, st).locals)
            < count_unknown(st.locals),
        !infer_step(op, st).changed ==> infer_step(op, st).locals == st.locals,
{
    let st2 = infer_step(op, st);
    match op {
        Opcode::Store(a) => {
            let (t, _) = abs_pop(st.stack);
            if t != VariableType::Unknown && st.locals[a as int] == VariableType::Unknown {
                assert(refines(st.locals, st2.locals));
                lemma_refines_count_strict(st.locals, st2.locals, a as int);
            } else {
                assert(st2.locals == st.locals);
            }
        },
        _ => {
            assert(st2.locals == st.locals);
        },
    }
    lemma_refines_count(st.locals, st2.locals);
}

/// A whole block body's transfer refines the locals in the same way.
proof fn lemma_ops_refines(body: Seq<Opcode>, k: int, st: InferState)
    requires
        forall|m: int|
            0 <= m < body.len() ==> match slot_ref(#[trigger] body[m]) {
                Some(a) => (a as int) < st.locals.len(),
                None => true,
            },
    ensures
        refines(st.locals, infer_ops(body, k, st).locals),
        st.changed ==> infer_ops(body, k, st).changed,
        count_unknown(infer_ops(body, k, st).locals) <= count_unknown(st.locals),
        infer_ops(body, k, st).changed && !st.changed ==> count_unknown(
            infer_ops(body, k, st).locals,
        ) < count_unknown(st.locals),
        !infer_ops(body, k, st).changed ==> infer_ops(body, k, st).locals == st.locals,
    decreases body.len() - k,
{
    if 0 <= k < body.len() {
        lemma_step_refines(body[k], st);
        lemma_ops_refines(body, k + 1, infer_step(body[k], st));
    }
}

/// A whole pass refines the locals, and reports progress exactly when it
/// resolved at least one unknown slot.
proof fn lemma_pass_refines(
    blocks: Seq<BlockModel>,
    j: int,
    locals: Seq<VariableType>,
    changed: bool,
    warnings: Seq<InferenceWarning>,
)
    requires
        block_slots_below(blocks, locals.len() as int),
    ensures
        ({
            let (l2, c2, w2) = pass_from(blocks, j, locals, changed, warnings);
            &&& refines(locals, l2)
            &&& (changed ==> c2)
            &&& count_unknown(l2) <= count_unknown(locals)
            &&& (c2 && !changed ==> count_unknown(l2) < count_unknown(locals))
            &&& (!c2 ==> l2 == locals)
        }),
    decreases blocks.len() - j,
{
    if 0 <= j < blocks.len() {
        let st0 = InferState { stack: Seq::empty(), locals, changed: false, warnings };
        let st = infer_ops(blocks[j].opcodes, 0, st0);
        lemma_ops_refines(blocks[j].opcodes, 0, st0);
        assert(block_slots_below(blocks, st.locals.len() as int));
        lemma_pass_refines(blocks, j + 1, st.locals, changed || st.changed, st.warnings);
    }
}

/// The warnings accumulated so far do not influence what a pass infers.
proof fn lemma_step_warnings_irrelevant(op: Opcode, st1: InferState, st2: InferState)
    requires
        st1.stack == st2.stack,
        st1.locals == st2.locals,
        st1.changed == st2.changed,
    ensures
        infer_step(op, st1).stack == infer_step(op, st2).stack,
        infer_step(op, st1).locals == infer_step(op, st2).locals,
        infer_step(op, st1).changed == infer_step(op, st2).changed,
{
}

/// The warnings accumulated so far do not influence a block's inference.
proof fn lemma_ops_warnings_irrelevant(body: Seq<Opcode>, k: int, st1: InferState, st2: InferState)
    requires
        st1.stack == st2.stack,
        st1.locals == st2.locals,
        st1.changed == st2.changed,
    ensures
        infer_ops(body, k, st1).stack == infer_ops(body, k, st2).stack,
        infer_ops(body, k, st1).locals == infer_ops(body, k, st2).locals,
        infer_ops(body, k, st1).changed == infer_ops(body, k, st2).changed,
    decreases body.len() - k,
{
    if 0 <= k < body.len() {
        lemma_step_warnings_irrelevant(body[k], st1, st2);
        lemma_ops_warnings_irrelevant(body, k + 1, infer_step(body[k], st1), infer_step(
            body[k],
            st2,
        ));
    }
}

/// The warnings accumulated so far do not influence a whole pass's result.
proof fn lemma_pass_warnings_irrelevant(
    blocks: Seq<BlockModel>,
    j: int,
    locals: Seq<VariableType>,
    changed: bool,
    w1: Seq<InferenceWarning>,
    w2: Seq<InferenceWarning>,
)
    ensures
        pass_from(blocks, j, locals, changed, w1).0 == pass_from(blocks, j, locals, changed, w2).0,
        pass_from(blocks, j, locals, changed, w1).1 == pass_from(blocks, j, locals, changed, w2).1,
    decreases blocks.len() - j,
{
    if 0 <= j < blocks.len() {
        let s1 = InferState { stack: Seq::empty(), locals, changed: false, warnings: w1 };
        let s2 = InferState { stack: Seq::empty(), locals, changed: false, warnings: w2 };
        lemma_ops_warnings_irrelevant(blocks[j].opcodes, 0, s1, s2);
        let r1 = infer_ops(blocks[j].opcodes, 0, s1);
        let r2 = infer_ops(blocks[j].opcodes, 0, s2);
        lemma_pass_warnings_irrelevant(
            blocks,
            j + 1,
            r1.locals,
            changed || r1.changed,
            r1.warnings,
            r2.warnings,
        );
    }
}

/// With fuel at least the number of unknown slots, the fixpoint iteration
/// converges, and its result is a post-fixpoint: one further pass reports no
/// progress and leaves every local's type as it is.
proof fn lemma_iterate_converges(
    blocks: Seq<BlockModel>,
    locals: Seq<VariableType>,
    warnings: Seq<InferenceWarning>,
    fuel: nat,
)
    requires
        block_slots_below(blocks, locals.len() as int),
        fuel >= count_unknown(locals),
    ensures
        ({
            let (l, w, converged) = iterate_fix(blocks, locals, warnings, fuel);
            &&& converged
            &&& pass_from(blocks, 0, l, false, w).0 == l
            &&& pass_from(blocks, 0, l, false, w).1 == false
        }),
    decreases fuel,
{
    let (l2, changed, w2) = pass_from(blocks, 0, locals, false, warnings);
    lemma_pass_refines(blocks, 0, locals, false, warnings);
    if !changed {
        assert(l2 == locals);
        lemma_pass_warnings_irrelevant(blocks, 0, l2, false, w2, warnings);
    } else {
        assert(count_unknown(l2) < count_unknown(locals));
        assert(block_slots_below(blocks, l2.len() as int));
        lemma_iterate_converges(blocks, l2, w2, (fuel - 1) as nat);
    }
}

/// The all-`Unknown` start vector has exactly `local_count` unknown slots.
proof fn lemma_all_unknown_count(local_count: u32)
    ensures
        count_unknown(all_unknown(local_count)) == local_count as nat,
        all_unknown(local_count).len() == local_count as nat,
    decreases local_count,
{
    if local_count > 0 {
        lemma_all_unknown_count((local_count - 1) as u32);
        assert(all_unknown(local_count).drop_last() =~= all_unknown((local_count - 1) as u32));
    }
}

/// Law (inference fixpoint): from all-`Unknown` locals, type inference over
/// any block list whose slot references lie below `local_count` converges
/// within `local_count + 1` passes, and the returned type vector is a
/// post-fixpoint: one additional pass reports no progress and changes no
/// local's type.
pub proof fn lemma_inference_post_fixpoint(blocks: Seq<BlockModel>, local_count: u32)
    requires
        block_slots_below(blocks, local_count as int),
    ensures
        ({
            let (l, w, converged) = iterate_fix(
                blocks,
                all_unknown(local_count),
                Seq::empty(),
                local_count as nat + 1,
            );
            &&& converged
            &&& pass_from(blocks, 0, l, false, w).0 == l
            &&& pass_from(blocks, 0, l, false, w).1 == false
        }),
{
    lemma_all_unknown_count(local_count);
    lemma_iterate_converges(
        blocks,
        all_unknown(local_count),
        Seq::empty(),
        local_count as nat + 1,
    );
}

/// Pops the abstract stack, yielding `Unknown` when it is empty.
fn pop_or_unknown(stack: &mut Vec<VariableType>) -> (t: VariableType)
    ensures
        t == abs_pop(old(stack)@).0,
        final(stack)@ == abs_pop(old(stack)@).1,
{
    match stack.pop() {
        Some(x) => x,
        None => VariableType::Unknown,
    }
}

/// Infers local types within a single basic block, starting from an empty
/// abstract stack: performs [`infer_ops`] on the real type vector and
/// warning list, and reports whether any slot's type was resolved.
pub fn infer_local_types_for_basic_block(
    basic_block: &BasicBlock,
    local_types: &mut Vec<VariableType>,
    warnings: &mut Vec<InferenceWarning>,
) -> (changed: bool)
    requires
        forall|k: int|
            0 <= k < basic_block@.opcodes.len() ==> match slot_ref(
                #[trigger] basic_block@.opcodes[k],
            ) {
                Some(a) => (a as int) < old(local_types)@.len(),
                None => true,
            },
    ensures
        ({
            let st = infer_ops(
                basic_block@.opcodes,
                0,
                InferState {
                    stack: Seq::empty(),
                    locals: old(local_types)@,
                    changed: false,
                    warnings: old(warnings)@,
                },
            );
            &&& final(local_types)@ == st.locals
            &&& changed == st.changed
            &&& final(warnings)@ == st.warnings
        }),
{
    let ghost body = basic_block@.opcodes;
    let ghost st0 = InferState {
        stack: Seq::empty(),
        locals: old(local_types)@,
        changed: false,
        warnings: old(warnings)@,
    };
    let mut changed = false;
    let mut stack: Vec<VariableType> = Vec::new();
    let mut k: usize = 0;
    proof {
        assert(stack@ =~= st0.stack);
    }
    while k < basic_block.opcodes.len()
        invariant
            k <= body.len(),
            body == basic_block@.opcodes,
            forall|m: int|
                0 <= m < body.len() ==> match slot_ref(#[trigger] body[m]) {
                    Some(a) => (a as int) < local_types@.len(),
                    None => true,
                },
            infer_ops(
                body,
                k as int,
                InferState {
                    stack: stack@,
                    locals: local_types@,
                    changed,
                    warnings: warnings@,
                },
            ) == infer_ops(body, 0, st0),
        decreases body.len() - k,
    {
        let ghost pre = InferState {
            stack: stack@,
            locals: local_types@,
            changed,
            warnings: warnings@,
        };
        match basic_block.opcodes[k] {
            Opcode::Constf32(_) => {
                stack.push(VariableType::Float32);
            },
            Opcode::Consti32(_) => {
                stack.push(VariableType::Int32);
            },
            Opcode::Add | Opcode::Subtract | Opcode::Multiply | Opcode::Divide => {
                let t = pop_or_unknown(&mut stack);
                let t2 = pop_or_unknown(&mut stack);
                if t != t2 && t != VariableType::Unknown && t2 != VariableType::Unknown {
                    warnings.push(InferenceWarning::OperandMismatch { taken: t, other: t2 });
                }
                stack.push(t);
            },
            Opcode::And | Opcode::Or | Opcode::Xor | Opcode::Eq | Opcode::Neq | Opcode::Leq
                | Opcode::Geq | Opcode::Lt | Opcode::Gt => {
                let _ = pop_or_unknown(&mut stack);
                let _ = pop_or_unknown(&mut stack);
                stack.push(VariableType::Int32);
            },
            Opcode::Negate => {},
            Opcode::Not => {
                let _ = pop_or_unknown(&mut stack);
                stack.push(VariableType::Int32);
            },
            Opcode::Store(a) => {
                let t = pop_or_unknown(&mut stack);
                if t != VariableType::Unknown {
                    let cur = local_types[a as usize];
                    if cur != VariableType::Unknown && cur != t {
                        warnings.push(InferenceWarning::SlotConflict { slot: a });
                    } else if cur != t {
                        local_types[a as usize] = t;
                        changed = true;
                    }
                }
            },
            Opcode::Loadi32(a) | Opcode::Loadf32(a) => {
                let v = local_types[a as usize];
                stack.push(v);
            },
            _ => {},
        }
        proof {
            assert(InferState {
                stack: stack@,
                locals: local_types@,
                changed,
                warnings: warnings@,
            } =~= infer_step(body[k as int], pre));
        }
        k += 1;
    }
    changed
}

/// Infers the types of the local slots by abstract interpretation of the
/// blocks, in construction order, until a whole pass makes no progress, and
/// reports the warnings emitted along the way. The result is exactly the
/// fixpoint [`iterate_fix`] reaches from all-`Unknown` locals, and it does
/// reach one within `local_count + 1` passes.
pub fn infer_local_types_reporting(
    basic_blocks: &Vec<BasicBlock>,
    local_count: u32,
) -> (r: (Vec<VariableType>, Vec<InferenceWarning>))
    requires
        block_slots_below(views_of(basic_blocks@), local_count as int),
    ensures
        iterate_fix(
            views_of(basic_blocks@),
            all_unknown(local_count),
            Seq::empty(),
            local_count as nat + 1,
        ) == (r.0@, r.1@, true),
        r.0@.len() == local_count as nat,
{
    let ghost blocks = views_of(basic_blocks@);
    let ghost target = iterate_fix(
        blocks,
        all_unknown(local_count),
        Seq::empty(),
        local_count as nat + 1,
    );
    let mut locals: Vec<VariableType> = Vec::new();
    let mut j: u32 = 0;
    while j < local_count
        invariant
            j <= local_count,
            locals@ == Seq::new(j as nat, |m: int| VariableType::Unknown),
        decreases local_count - j,
    {
        locals.push(VariableType::Unknown);
        proof {
            assert(locals@ =~= Seq::new((j + 1) as nat, |m: int| VariableType::Unknown));
        }
        j += 1;
    }
    proof {
        assert(locals@ =~= all_unknown(local_count));
        lemma_all_unknown_count(local_count);
    }
    let mut warnings: Vec<InferenceWarning> = Vec::new();
    let mut changed = true;
    let mut fuel: u64 = local_count as u64 + 1;
    while changed
        invariant
            blocks == views_of(basic_blocks@),
            block_slots_below(blocks, locals@.len() as int),
            locals@.len() == local_count as nat,
            changed ==> iterate_fix(blocks, locals@, warnings@, fuel as nat) == target,
            changed ==> fuel as nat >= count_unknown(locals@) + 1,
            !changed ==> target == (locals@, warnings@, true),
        decreases fuel,
    {
        let ghost l0 = locals@;
        let ghost w0 = warnings@;
        changed = false;
        let mut b: usize = 0;
        while b < basic_blocks.len()
            invariant
                blocks == views_of(basic_blocks@),
                b <= basic_blocks@.len(),
                block_slots_below(blocks, locals@.len() as int),
                locals@.len() == l0.len(),
                pass_from(blocks, b as int, locals@, changed, warnings@) == pass_from(
                    blocks,
                    0,
                    l0,
                    false,
                    w0,
                ),
            decreases basic_blocks@.len() - b,
        {
            let ghost lpre = locals@;
            let ghost wpre = warnings@;
            proof {
                assert(blocks[b as int] == basic_blocks@[b as int]@);
            }
            let block_changed = infer_local_types_for_basic_block(
                &basic_blocks[b],
                &mut locals,
                &mut warnings,
            );
            proof {
                lemma_ops_refines(
                    blocks[b as int].opcodes,
                    0,
                    InferState { stack: Seq::empty(), locals: lpre, changed: false, warnings: wpre },
                );
            }
            changed = changed || block_changed;
            b += 1;
        }
        proof {
            lemma_pass_refines(blocks, 0, l0, false, w0);
        }
        fuel = fuel - 1;
    }
    (locals, warnings)
}

/// Infers the types of the local slots: the fixpoint of the abstract
/// interpretation, starting from all-`Unknown`, reached within
/// `local_count + 1` passes.
pub fn infer_local_types(basic_blocks: &Vec<BasicBlock>, local_count: u32) -> (r: Vec<
    VariableType,
>)
    requires
        block_slots_below(views_of(basic_blocks@), local_count as int),
    ensures
        r@ == iterate_fix(
            views_of(basic_blocks@),
            all_unknown(local_count),
            Seq::empty(),
            local_count as nat + 1,
        ).0,
        r@.len() == local_count as nat,
{
    let (locals, _) = infer_local_types_reporting(basic_blocks, local_count);
    locals
}

} // verus!
