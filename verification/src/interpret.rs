//! The reference interpreter: executes the opcode stream directly against a
//! value stack and a frame of local slots.
//!
//! The first `L` stack cells are the local frame (`L` is the frame-size rule
//! of [`crate::analysis::local_count`]), zero-initialized as integers; slot
//! `a` lives at cell `bp - a - 1`. Execution follows the small-step relation
//! [`spec_step`] exactly, for up to `u64::MAX` steps. Running off the end of
//! the program without a `Ret` is reported as malformed, as is a function
//! whose branch targets or slot indices are out of range.

use vstd::prelude::*;

use crate::analysis::{lemma_local_count_characterization, local_count, slots_in_range,
    spec_local_count};
use crate::basic_block::{is_leader, leader_by, targets_in_range};
use crate::opcode::{branch_target, is_branch, slot_ref, Opcode};
use crate::scalar::{apply_binary, apply_unary, binary_op_of, spec_binary, spec_binary_op_of,
    spec_truthy, spec_unary, spec_unary_op_of, truthy, unary_op_of, ExecutionError, Scalar};

verus! {

/// The runtime environment of the VM: the base of the local frame within the
/// stack, the current instruction index, and the one-past-the-end sentinel
/// that a `Ret` jumps to.
#[derive(Clone, Copy, PartialEq, Eq, Structural, Debug)]
pub struct Environment {
    /// Stack base pointer: the number of stack cells holding the local frame.
    pub bp: u32,
    /// Instruction pointer.
    pub ip: u32,
    /// Points just past the last instruction.
    pub end_ip: u32,
}

/// The outcome of one interpreter step: the next stack and instruction index,
/// a returned value, or a failure.
pub enum StepModel {
    Next { stack: Seq<Scalar>, ip: int },
    Return { value: Scalar },
    Fail { error: ExecutionError },
}

/// One step of the interpreter on the opcode `op`, with local frame base
/// `bp`, evaluation stack `stack` and instruction index `ip`.
///
/// Binary opcodes pop the right-hand operand first and push the result;
/// comparisons push 0 or 1. `Store`/`Load*` address slot `a` at cell
/// `bp - a - 1`; the two load forms differ only for type inference. `Ret`
/// pops and returns; `Disp` pops and hands the value to the host's display
/// (this engine drops it, as the compiled path does). An opcode that would
/// pop below the frame base fails with a stack underflow.
pub open spec fn spec_step(op: Opcode, bp: int, stack: Seq<Scalar>, ip: int) -> StepModel {
    match spec_binary_op_of(op) {
        Some(b) => if stack.len() < bp + 2 {
            StepModel::Fail { error: ExecutionError::StackUnderflow }
        } else {
            let v1 = stack.last();
            let v2 = stack.drop_last().last();
            match spec_binary(b, v2, v1) {
                Ok(v) => StepModel::Next {
                    stack: stack.drop_last().drop_last().push(v),
                    ip: ip + 1,
                },
                Err(e) => StepModel::Fail { error: e },
            }
        },
        None => match spec_unary_op_of(op) {
            Some(u) => if stack.len() < bp + 1 {
                StepModel::Fail { error: ExecutionError::StackUnderflow }
            } else {
                match spec_unary(u, stack.last()) {
                    Ok(v) => StepModel::Next { stack: stack.drop_last().push(v), ip: ip + 1 },
                    Err(e) => StepModel::Fail { error: e },
                }
            },
            None => match op {
                Opcode::Nop => StepModel::Next { stack, ip: ip + 1 },
                Opcode::Consti32(k) => StepModel::Next {
                    stack: stack.push(Scalar::Int(k)),
                    ip: ip + 1,
                },
                Opcode::Constf32(bits) => StepModel::Next {
                    stack: stack.push(Scalar::Float(bits)),
                    ip: ip + 1,
                },
                Opcode::Ret => if stack.len() < bp + 1 {
                    StepModel::Fail { error: ExecutionError::StackUnderflow }
                } else {
                    StepModel::Return { value: stack.last() }
                },
                Opcode::Disp => if stack.len() < bp + 1 {
                    StepModel::Fail { error: ExecutionError::StackUnderflow }
                } else {
                    StepModel::Next { stack: stack.drop_last(), ip: ip + 1 }
                },
                Opcode::Store(a) => if stack.len() < bp + 1 {
                    StepModel::Fail { error: ExecutionError::StackUnderflow }
                } else {
                    StepModel::Next {
                        stack: stack.drop_last().update(bp - 1 - a, stack.last()),
                        ip: ip + 1,
                    }
                },
                Opcode::Loadf32(a) | Opcode::Loadi32(a) => StepModel::Next {
                    stack: stack.push(stack[bp - 1 - a]),
                    ip: ip + 1,
                },
                Opcode::Jmp(t) => StepModel::Next { stack, ip: t as int },
                Opcode::Iftrue(t) => if stack.len() < bp + 1 {
                    StepModel::Fail { error: ExecutionError::StackUnderflow }
                } else {
                    StepModel::Next {
                        stack: stack.drop_last(),
                        ip: if spec_truthy(stack.last()) {
                            t as int
                        } else {
                            ip + 1
                        },
                    }
                },
                Opcode::Iffalse(t) => if stack.len() < bp + 1 {
                    StepModel::Fail { error: ExecutionError::StackUnderflow }
                } else {
                    StepModel::Next {
                        stack: stack.drop_last(),
                        ip: if !spec_truthy(stack.last()) {
                            t as int
                        } else {
                            ip + 1
                        },
                    }
                },
                _ => StepModel::Fail { error: ExecutionError::MalformedBytecode },
            },
        },
    }
}

/// The largest number of steps either engine will take: `u64::MAX`.
pub open spec fn max_fuel() -> nat {
    0xFFFF_FFFF_FFFF_FFFFu64 as nat
}

/// Runs the interpreter from the given stack and instruction index for at
/// most `fuel` steps: the value of the first `Ret`, or the first failure.
/// Leaving `[0, N)` other than through `Ret` is running off the end.
pub open spec fn spec_run(ops: Seq<Opcode>, stack: Seq<Scalar>, ip: int, fuel: nat) -> Result<
    Scalar,
    ExecutionError,
>
    decreases fuel,
{
    if !(0 <= ip < ops.len()) {
        Err(ExecutionError::MalformedBytecode)
    } else if fuel == 0 {
        Err(ExecutionError::StepLimit)
    } else {
        match spec_step(ops[ip], spec_local_count(ops) as int, stack, ip) {
            StepModel::Next { stack: s, ip: k } => spec_run(ops, s, k, (fuel - 1) as nat),
            StepModel::Return { value } => Ok(value),
            StepModel::Fail { error } => Err(error),
        }
    }
}

/// A function the engines accept: its length and every referenced slot leave
/// room for 32-bit indexing, and every branch targets `[0, N]`.
pub open spec fn spec_valid_function(ops: Seq<Opcode>) -> bool {
    &&& ops.len() < u32::MAX
    &&& targets_in_range(ops)
    &&& slots_in_range(ops)
}

/// The local frame before execution: one integer zero per slot.
pub open spec fn init_stack(ops: Seq<Opcode>) -> Seq<Scalar> {
    Seq::new(spec_local_count(ops), |j: int| Scalar::Int(0))
}

/// What [`interpret`] returns: the first `Ret`'s value, or the first failure,
/// starting from a zeroed local frame.
pub open spec fn spec_interpret(ops: Seq<Opcode>) -> Result<Scalar, ExecutionError> {
    if !spec_valid_function(ops) {
        Err(ExecutionError::MalformedBytecode)
    } else {
        spec_run(ops, init_stack(ops), 0, max_fuel())
    }
}

/// Checks that a function is within the engines' limits: length and slot
/// indices fit 32 bits, and branch targets lie in `[0, N]`.
pub fn check_function(function: &Vec<Opcode>) -> (r: bool)
    ensures
        r == spec_valid_function(function@),
{
    let ghost ops = function@;
    if function.len() >= u32::MAX as usize {
        return false;
    }
    let mut ok = true;
    let mut i: usize = 0;
    while i < function.len()
        invariant
            i <= ops.len(),
            ops == function@,
            ok == (forall|m: int|
                0 <= m < i ==> {
                    &&& (is_branch(#[trigger] ops[m]) ==> branch_target(ops[m]) <= ops.len())
                    &&& match slot_ref(ops[m]) {
                        Some(a) => a < u32::MAX,
                        None => true,
                    }
                }),
        decreases ops.len() - i,
    {
        match function[i] {
            Opcode::Jmp(t) | Opcode::Iftrue(t) | Opcode::Iffalse(t) => {
                if t as usize > function.len() {
                    ok = false;
                }
            },
            Opcode::Store(a) | Opcode::Loadf32(a) | Opcode::Loadi32(a) => {
                if a == u32::MAX {
                    ok = false;
                }
            },
            _ => {},
        }
        i += 1;
    }
    proof {
        if ok {
            assert(targets_in_range(ops));
            assert(slots_in_range(ops));
        } else {
            let m = choose|m: int|
                0 <= m < ops.len() && !{
                    &&& (is_branch(#[trigger] ops[m]) ==> branch_target(ops[m]) <= ops.len())
                    &&& match slot_ref(ops[m]) {
                        Some(a) => a < u32::MAX,
                        None => true,
                    }
                };
            assert(!targets_in_range(ops) || !slots_in_range(ops));
        }
    }
    ok
}

/// How many operands an opcode pops from the evaluation stack, above the
/// local frame, when interpreted.
pub open spec fn step_pops(op: Opcode) -> int {
    if spec_binary_op_of(op) is Some {
        2
    } else if spec_unary_op_of(op) is Some {
        1
    } else {
        match op {
            Opcode::Ret => 1,
            Opcode::Disp => 1,
            Opcode::Store(_) => 1,
            Opcode::Iftrue(_) => 1,
            Opcode::Iffalse(_) => 1,
            _ => 0,
        }
    }
}

/// How many values an opcode pushes when interpreted.
pub open spec fn step_pushes(op: Opcode) -> int {
    if spec_binary_op_of(op) is Some {
        1
    } else if spec_unary_op_of(op) is Some {
        1
    } else {
        match op {
            Opcode::Constf32(_) => 1,
            Opcode::Consti32(_) => 1,
            Opcode::Loadf32(_) => 1,
            Opcode::Loadi32(_) => 1,
            _ => 0,
        }
    }
}

/// The straight-line segment beginning at `k` keeps the evaluation stack
/// disciplined when entered at height `h`: every opcode finds its operands,
/// an unconditional jump leaves with an empty stack, a conditional branch
/// leaves exactly its condition, and falling through into the next leader
/// leaves the stack empty.
pub open spec fn segment_balanced(ops: Seq<Opcode>, k: int, h: int) -> bool
    decreases ops.len() - k,
{
    if !(0 <= k < ops.len()) {
        true
    } else {
        match ops[k] {
            Opcode::Jmp(_) => h == 0,
            Opcode::Iftrue(_) | Opcode::Iffalse(_) => h == 1,
            Opcode::Ret => h >= 1,
            _ => {
                &&& h >= step_pops(ops[k])
                &&& {
                    let h2 = h - step_pops(ops[k]) + step_pushes(ops[k]);
                    if k + 1 < ops.len() && is_leader(ops, k + 1) {
                        h2 == 0
                    } else {
                        segment_balanced(ops, k + 1, h2)
                    }
                }
            },
        }
    }
}

/// A function whose every basic block keeps the evaluation stack
/// disciplined: each block is entered with an empty stack and leaves it
/// empty at the boundary (the single-expression-per-statement contract of
/// the source machine).
pub open spec fn balanced_function(ops: Seq<Opcode>) -> bool {
    forall|s: int| 0 <= s < ops.len() && is_leader(ops, s) ==> segment_balanced(ops, s, 0)
}

/// The interpretation of a well-formed, balanced function keeps the stack
/// empty at every block boundary, so no opcode ever underflows: whenever
/// control stands at a leader the stack holds exactly the local frame, and
/// inside a segment it holds the frame plus the segment's running height.
proof fn lemma_run_keeps_balance(ops: Seq<Opcode>, stack: Seq<Scalar>, ip: int, fuel: nat)
    requires
        spec_valid_function(ops),
        balanced_function(ops),
        stack.len() >= spec_local_count(ops),
        0 <= ip,
        segment_balanced(ops, ip, stack.len() - spec_local_count(ops)),
    ensures
        spec_run(ops, stack, ip, fuel) != Err::<Scalar, ExecutionError>(
            ExecutionError::StackUnderflow,
        ),
    decreases fuel,
{
    let bp = spec_local_count(ops) as int;
    if 0 <= ip < ops.len() && fuel > 0 {
        let op = ops[ip];
        let h = stack.len() - bp;
        lemma_local_count_characterization(ops);
        match spec_step(op, bp, stack, ip) {
            StepModel::Next { stack: s2, ip: k2 } => {
                assert(s2.len() >= bp) by {
                    match slot_ref(op) {
                        Some(a) => {
                            assert((a as nat) < spec_local_count(ops));
                        },
                        None => {},
                    }
                }
                assert(segment_balanced(ops, k2, s2.len() - bp)) by {
                    match op {
                        Opcode::Jmp(t) => {
                            assert(leader_by(ops, t as int, ops.len() as int));
                            assert(is_leader(ops, t as int));
                            if (t as int) < ops.len() {
                                assert(segment_balanced(ops, t as int, 0));
                            }
                        },
                        Opcode::Iftrue(t) | Opcode::Iffalse(t) => {
                            assert(leader_by(ops, t as int, ops.len() as int));
                            assert(leader_by(ops, ip + 1, ops.len() as int));
                            assert(is_leader(ops, t as int));
                            assert(is_leader(ops, ip + 1));
                            if (t as int) < ops.len() {
                                assert(segment_balanced(ops, t as int, 0));
                            }
                            if ip + 1 < ops.len() {
                                assert(segment_balanced(ops, ip + 1, 0));
                            }
                        },
                        _ => {
                            if ip + 1 < ops.len() && is_leader(ops, ip + 1) {
                                assert(s2.len() - bp == 0);
                                assert(segment_balanced(ops, ip + 1, 0));
                            }
                        },
                    }
                }
                lemma_run_keeps_balance(ops, s2, k2, (fuel - 1) as nat);
            },
            StepModel::Return { .. } => {},
            StepModel::Fail { error } => {
                assert(error != ExecutionError::StackUnderflow);
            },
        }
    }
}

/// Law (boundary discipline, interpretation): on a function within the
/// engines' limits whose blocks are balanced, the interpreter's evaluation
/// stack is empty at every block boundary, and in particular interpretation
/// never fails with a stack underflow.
pub proof fn lemma_balanced_interpretation_never_underflows(ops: Seq<Opcode>)
    requires
        spec_valid_function(ops),
        balanced_function(ops),
    ensures
        spec_interpret(ops) != Err::<Scalar, ExecutionError>(ExecutionError::StackUnderflow),
{
    if ops.len() > 0 {
        assert(is_leader(ops, 0));
        assert(segment_balanced(ops, 0, 0));
    }
    lemma_run_keeps_balance(ops, init_stack(ops), 0, max_fuel());
}

/// Interprets a single opcode: performs [`spec_step`] on the real stack and
/// environment. Returns `Ok(None)` to continue at the updated instruction
/// pointer, `Ok(Some(v))` when the opcode returned `v`, and the failure
/// otherwise.
pub fn interpret_opcode(
    opcode: &Opcode,
    stack: &mut Vec<Scalar>,
    environment: &mut Environment,
) -> (r: Result<Option<Scalar>, ExecutionError>)
    requires
        old(environment).bp as int <= old(stack)@.len(),
        old(environment).ip < old(environment).end_ip,
        match slot_ref(*opcode) {
            Some(a) => a < old(environment).bp,
            None => true,
        },
    ensures
        final(environment).bp == old(environment).bp,
        final(environment).end_ip == old(environment).end_ip,
        match spec_step(
            *opcode,
            old(environment).bp as int,
            old(stack)@,
            old(environment).ip as int,
        ) {
            StepModel::Next { stack: s, ip } => {
                &&& r == Ok::<Option<Scalar>, ExecutionError>(None)
                &&& final(stack)@ == s
                &&& final(environment).ip as int == ip
                &&& s.len() >= old(environment).bp
            },
            StepModel::Return { value } => r == Ok::<Option<Scalar>, ExecutionError>(Some(value)),
            StepModel::Fail { error } => r == Err::<Option<Scalar>, ExecutionError>(error),
        },
{
    let bp = environment.bp;
    match binary_op_of(opcode) {
        Some(b) => {
            if stack.len() <= bp as usize || stack.len() - 1 <= bp as usize {
                return Err(ExecutionError::StackUnderflow);
            }
            let v1 = stack.pop().unwrap();
            let v2 = stack.pop().unwrap();
            match apply_binary(b, v2, v1) {
                Ok(v) => {
                    stack.push(v);
                    environment.ip = environment.ip + 1;
                    Ok(None)
                },
                Err(e) => Err(e),
            }
        },
        None => match unary_op_of(opcode) {
            Some(u) => {
                if stack.len() <= bp as usize {
                    return Err(ExecutionError::StackUnderflow);
                }
                let v = stack.pop().unwrap();
                match apply_unary(u, v) {
                    Ok(w) => {
                        stack.push(w);
                        environment.ip = environment.ip + 1;
                        Ok(None)
                    },
                    Err(e) => Err(e),
                }
            },
            None => match *opcode {
                Opcode::Nop => {
                    environment.ip = environment.ip + 1;
                    Ok(None)
                },
                Opcode::Consti32(k) => {
                    stack.push(Scalar::Int(k));
                    environment.ip = environment.ip + 1;
                    Ok(None)
                },
                Opcode::Constf32(bits) => {
                    stack.push(Scalar::Float(bits));
                    environment.ip = environment.ip + 1;
                    Ok(None)
                },
                Opcode::Ret => {
                    if stack.len() <= bp as usize {
                        return Err(ExecutionError::StackUnderflow);
                    }
                    let v = stack.pop().unwrap();
                    environment.ip = environment.end_ip;
                    Ok(Some(v))
                },
                Opcode::Disp => {
                    // The popped value is display output for the host; the
                    // engine itself drops it, as the compiled path does.
                    if stack.len() <= bp as usize {
                        return Err(ExecutionError::StackUnderflow);
                    }
                    let _ = stack.pop();
                    environment.ip = environment.ip + 1;
                    Ok(None)
                },
                Opcode::Store(a) => {
                    if stack.len() <= bp as usize {
                        return Err(ExecutionError::StackUnderflow);
                    }
                    let v = stack.pop().unwrap();
                    let idx = (bp - a - 1) as usize;
                    stack[idx] = v;
                    environment.ip = environment.ip + 1;
                    Ok(None)
                },
                Opcode::Loadf32(a) | Opcode::Loadi32(a) => {
                    let idx = (bp - a - 1) as usize;
                    let v = stack[idx];
                    stack.push(v);
                    environment.ip = environment.ip + 1;
                    Ok(None)
                },
                Opcode::Jmp(t) => {
                    environment.ip = t;
                    Ok(None)
                },
                Opcode::Iftrue(t) => {
                    if stack.len() <= bp as usize {
                        return Err(ExecutionError::StackUnderflow);
                    }
                    let v = stack.pop().unwrap();
                    if truthy(&v) {
                        environment.ip = t;
                    } else {
                        environment.ip = environment.ip + 1;
                    }
                    Ok(None)
                },
                Opcode::Iffalse(t) => {
                    if stack.len() <= bp as usize {
                        return Err(ExecutionError::StackUnderflow);
                    }
                    let v = stack.pop().unwrap();
                    if !truthy(&v) {
                        environment.ip = t;
                    } else {
                        environment.ip = environment.ip + 1;
                    }
                    Ok(None)
                },
                _ => Err(ExecutionError::MalformedBytecode),
            },
        },
    }
}

/// Interprets a function from instruction 0 with a zeroed local frame: the
/// value of the first `Ret`, or the first failure. The result is exactly
/// [`spec_interpret`] of the opcode stream.
pub fn interpret(function: &Vec<Opcode>) -> (r: Result<Scalar, ExecutionError>)
    ensures
        r == spec_interpret(function@),
{
    let ghost ops = function@;
    if !check_function(function) {
        return Err(ExecutionError::MalformedBytecode);
    }
    let frame = local_count(function);
    let mut stack: Vec<Scalar> = Vec::new();
    let mut j: u32 = 0;
    while j < frame
        invariant
            j <= frame,
            stack@ == Seq::new(j as nat, |m: int| Scalar::Int(0)),
        decreases frame - j,
    {
        stack.push(Scalar::Int(0));
        proof {
            assert(stack@ =~= Seq::new((j + 1) as nat, |m: int| Scalar::Int(0)));
        }
        j += 1;
    }
    proof {
        assert(stack@ =~= init_stack(ops));
    }
    let mut environment = Environment { bp: frame, ip: 0, end_ip: function.len() as u32 };
    let mut fuel: u64 = u64::MAX;
    while (environment.ip as usize) < function.len()
        invariant
            ops == function@,
            spec_valid_function(ops),
            environment.bp == spec_local_count(ops),
            environment.end_ip as int == ops.len(),
            environment.bp as int <= stack@.len(),
            spec_run(ops, stack@, environment.ip as int, fuel as nat) == spec_run(
                ops,
                init_stack(ops),
                0,
                max_fuel(),
            ),
        decreases fuel,
    {
        if fuel == 0 {
            return Err(ExecutionError::StepLimit);
        }
        fuel = fuel - 1;
        let op = function[environment.ip as usize];
        proof {
            lemma_local_count_characterization(ops);
        }
        match interpret_opcode(&op, &mut stack, &mut environment) {
            Ok(None) => {},
            Ok(Some(v)) => {
                return Ok(v);
            },
            Err(e) => {
                return Err(e);
            },
        }
    }
    Err(ExecutionError::MalformedBytecode)
}

} // verus!
