//! The back-end facade: a well-typed builder for the code generator's
//! SSA-style intermediate representation.
//!
//! The facade exposes exactly the operations the lowering pass consumes:
//! build-scope bracketing on a [`Context`], function creation with a
//! signature, constant materialization, binary and unary operations, `load`,
//! `store` and `dup` on storage cells, label binding, branches, `return`,
//! and finalization. A [`Function`] records the emitted instructions in
//! order, and every emitter states exactly which instruction it appends.
//! [`Function::run`] gives the recorded program its executable semantics:
//! an evaluator over a register file with one cell per created value.

use vstd::prelude::*;

use crate::scalar::{apply_binary, apply_unary, spec_binary, spec_truthy, spec_unary, truthy,
    BinaryOp, ExecutionError, Scalar, UnaryOp};

verus! {

/// The calling conventions a signature can name.
#[derive(Clone, Copy, PartialEq, Eq, Structural, Debug)]
pub enum ABI {
    CDECL,
}

/// A back-end type handle: a primitive type, or a function signature built
/// from primitive handles.
#[derive(Debug)]
pub enum Type {
    Void,
    Int,
    Float32,
    Signature { abi: ABI, ret: Box<Type>, params: Vec<Type> },
}

/// The primitive type handles the back end offers.
pub struct Types {}

impl Types {
    /// The void type handle.
    pub fn get_void() -> (t: Type)
        ensures
            t == Type::Void,
    {
        Type::Void
    }

    /// The 32-bit integer type handle.
    pub fn get_int() -> (t: Type)
        ensures
            t == Type::Int,
    {
        Type::Int
    }

    /// The 32-bit float type handle.
    pub fn get_float32() -> (t: Type)
        ensures
            t == Type::Float32,
    {
        Type::Float32
    }
}

impl Type {
    /// Builds a signature handle from a calling convention, a return type
    /// and parameter types.
    pub fn create_signature(abi: ABI, return_type: Type, params: Vec<Type>) -> (t: Type)
        ensures
            t matches Type::Signature { abi: a, ret, params: p } && a == abi && *ret
                == return_type && p == params,
    {
        Type::Signature { abi, ret: Box::new(return_type), params }
    }
}

/// An IR value handle: the index of one cell of the function's register
/// file. Constants, operation results and storage cells all live there.
#[derive(Clone, Copy, PartialEq, Eq, Structural, Debug)]
pub struct Value {
    pub id: u64,
}

/// A label handle: an opaque name for a code position, bound where
/// [`Function::insn_set_label`] is emitted and referenced by branches.
#[derive(Clone, Copy, PartialEq, Eq, Structural, Debug)]
pub struct Label {
    pub id: u32,
}

impl Label {
    /// The sentinel id of a label that has not been assigned yet.
    pub fn undefined() -> (r: u32)
        ensures
            r == u32::MAX,
    {
        u32::MAX
    }

    /// Creates a label that has not been assigned an id yet.
    pub fn new() -> (l: Label)
        ensures
            l.id == u32::MAX,
    {
        Label { id: u32::MAX }
    }
}

/// One recorded IR instruction. Value operands are register indices; label
/// operands name the `SetLabel` that binds them.
#[derive(Clone, Copy, PartialEq, Eq, Structural, Debug)]
#[allow(inconsistent_fields)]
pub enum Insn {
    ConstI32 { dest: u64, value: i32 },
    ConstF32 { dest: u64, bits: u32 },
    Binary { op: BinaryOp, dest: u64, lhs: u64, rhs: u64 },
    Unary { op: UnaryOp, dest: u64, src: u64 },
    /// A fresh value reading a storage cell (`dup`).
    Load { dest: u64, src: u64 },
    /// Writes a value into a storage cell.
    Store { dest: u64, src: u64 },
    /// Binds the label at this position.
    SetLabel { label: u32 },
    Branch { label: u32 },
    BranchIf { cond: u64, label: u32 },
    Ret { value: u64 },
}

/// The JIT context. Build scopes must bracket every function creation and
/// emission, and may not be nested.
pub struct Context {
    pub building: bool,
}

impl Context {
    /// Creates a context with no build scope open.
    pub fn new() -> (c: Context)
        ensures
            !c.building,
    {
        Context { building: false }
    }

    /// Opens the build scope.
    pub fn build_start(&mut self)
        requires
            !old(self).building,
        ensures
            final(self).building,
    {
        self.building = true;
    }

    /// Closes the build scope.
    pub fn build_end(&mut self)
        requires
            old(self).building,
        ensures
            !final(self).building,
    {
        self.building = false;
    }

    /// Creates a fresh, empty function bound to this context.
    pub fn create_function(&self, signature: Type) -> (f: Function)
        requires
            self.building,
        ensures
            f.insns@ == Seq::<Insn>::empty(),
            f.value_count == 0,
            !f.compiled,
            f.signature == signature,
    {
        Function { insns: Vec::new(), value_count: 0, signature, compiled: false }
    }
}

/// A function under construction in the back end: the instructions emitted
/// so far, the number of values created, and its signature. Once finalized
/// by [`Function::compile`] it accepts no further emission and can be run.
pub struct Function {
    pub insns: Vec<Insn>,
    pub value_count: u64,
    pub signature: Type,
    pub compiled: bool,
}

/// `post` is `pre` with `insn` appended and `values` fresh values created;
/// signature and finalization state are untouched.
pub open spec fn emits(pre: Function, post: Function, insn: Insn, values: u64) -> bool {
    &&& post.insns@ == pre.insns@.push(insn)
    &&& post.value_count == pre.value_count + values
    &&& post.signature == pre.signature
    &&& post.compiled == pre.compiled
}

impl Function {
    /// Appends an instruction whose destination is a fresh value.
    fn emit_value(&mut self, insn: Insn) -> (v: Value)
        requires
            old(self).value_count < u64::MAX,
            !old(self).compiled,
        ensures
            emits(*old(self), *final(self), insn, 1),
            v.id == old(self).value_count,
    {
        let v = Value { id: self.value_count };
        self.value_count = self.value_count + 1;
        self.insns.push(insn);
        v
    }

    /// Appends an instruction that creates no value.
    fn emit(&mut self, insn: Insn)
        requires
            !old(self).compiled,
        ensures
            emits(*old(self), *final(self), insn, 0),
    {
        self.insns.push(insn);
    }

    /// Materializes a 32-bit integer constant.
    pub fn constant_int32(&mut self, value: i32) -> (v: Value)
        requires
            old(self).value_count < u64::MAX,
            !old(self).compiled,
        ensures
            emits(
                *old(self),
                *final(self),
                Insn::ConstI32 { dest: old(self).value_count, value },
                1,
            ),
            v.id == old(self).value_count,
    {
        let dest = self.value_count;
        self.emit_value(Insn::ConstI32 { dest, value })
    }

    /// Materializes the 32-bit float constant with the given IEEE-754 bits.
    pub fn constant_float32(&mut self, bits: u32) -> (v: Value)
        requires
            old(self).value_count < u64::MAX,
            !old(self).compiled,
        ensures
            emits(
                *old(self),
                *final(self),
                Insn::ConstF32 { dest: old(self).value_count, bits },
                1,
            ),
            v.id == old(self).value_count,
    {
        let dest = self.value_count;
        self.emit_value(Insn::ConstF32 { dest, bits })
    }

    /// Emits a binary operation of `v1` and `v2`, producing a fresh value.
    fn insn_binop(&mut self, op: BinaryOp, v1: &Value, v2: &Value) -> (v: Value)
        requires
            old(self).value_count < u64::MAX,
            !old(self).compiled,
        ensures
            emits(
                *old(self),
                *final(self),
                Insn::Binary { op, dest: old(self).value_count, lhs: v1.id, rhs: v2.id },
                1,
            ),
            v.id == old(self).value_count,
    {
        let dest = self.value_count;
        self.emit_value(Insn::Binary { op, dest, lhs: v1.id, rhs: v2.id })
    }

    /// Emits a unary operation of `value`, producing a fresh value.
    fn insn_unop(&mut self, op: UnaryOp, value: &Value) -> (v: Value)
        requires
            old(self).value_count < u64::MAX,
            !old(self).compiled,
        ensures
            emits(
                *old(self),
                *final(self),
                Insn::Unary { op, dest: old(self).value_count, src: value.id },
                1,
            ),
            v.id == old(self).value_count,
    {
        let dest = self.value_count;
        self.emit_value(Insn::Unary { op, dest, src: value.id })
    }

    /// Emits an addition.
    pub fn insn_add(&mut self, v1: &Value, v2: &Value) -> (v: Value)
        requires
            old(self).value_count < u64::MAX,
            !old(self).compiled,
        ensures
            emits(
                *old(self),
                *final(self),
                Insn::Binary {
                    op: BinaryOp::Add,
                    dest: old(self).value_count,
                    lhs: v1.id,
                    rhs: v2.id,
                },
                1,
            ),
            v.id == old(self).value_count,
    {
        self.insn_binop(BinaryOp::Add, v1, v2)
    }

    /// Emits a subtraction.
    pub fn insn_sub(&mut self, v1: &Value, v2: &Value) -> (v: Value)
        requires
            old(self).value_count < u64::MAX,
            !old(self).compiled,
        ensures
            emits(
                *old(self),
                *final(self),
                Insn::Binary {
                    op: BinaryOp::Sub,
                    dest: old(self).value_count,
                    lhs: v1.id,
                    rhs: v2.id,
                },
                1,
            ),
            v.id == old(self).value_count,
    {
        self.insn_binop(BinaryOp::Sub, v1, v2)
    }

    /// Emits a multiplication.
    pub fn insn_mul(&mut self, v1: &Value, v2: &Value) -> (v: Value)
        requires
            old(self).value_count < u64::MAX,
            !old(self).compiled,
        ensures
            emits(
                *old(self),
                *final(self),
                Insn::Binary {
                    op: BinaryOp::Mul,
                    dest: old(self).value_count,
                    lhs: v1.id,
                    rhs: v2.id,
                },
                1,
            ),
            v.id == old(self).value_count,
    {
        self.insn_binop(BinaryOp::Mul, v1, v2)
    }

    /// Emits a division.
    pub fn insn_div(&mut self, v1: &Value, v2: &Value) -> (v: Value)
        requires
            old(self).value_count < u64::MAX,
            !old(self).compiled,
        ensures
            emits(
                *old(self),
                *final(self),
                Insn::Binary {
                    op: BinaryOp::Div,
                    dest: old(self).value_count,
                    lhs: v1.id,
                    rhs: v2.id,
                },
                1,
            ),
            v.id == old(self).value_count,
    {
        self.insn_binop(BinaryOp::Div, v1, v2)
    }

    /// Emits a bitwise and.
    pub fn insn_and(&mut self, v1: &Value, v2: &Value) -> (v: Value)
        requires
            old(self).value_count < u64::MAX,
            !old(self).compiled,
        ensures
            emits(
                *old(self),
                *final(self),
                Insn::Binary {
                    op: BinaryOp::And,
                    dest: old(self).value_count,
                    lhs: v1.id,
                    rhs: v2.id,
                },
                1,
            ),
            v.id == old(self).value_count,
    {
        self.insn_binop(BinaryOp::And, v1, v2)
    }

    /// Emits a bitwise or.
    pub fn insn_or(&mut self, v1: &Value, v2: &Value) -> (v: Value)
        requires
            old(self).value_count < u64::MAX,
            !old(self).compiled,
        ensures
            emits(
                *old(self),
                *final(self),
                Insn::Binary {
                    op: BinaryOp::Or,
                    dest: old(self).value_count,
                    lhs: v1.id,
                    rhs: v2.id,
                },
                1,
            ),
            v.id == old(self).value_count,
    {
        self.insn_binop(BinaryOp::Or, v1, v2)
    }

    /// Emits a bitwise exclusive or.
    pub fn insn_xor(&mut self, v1: &Value, v2: &Value) -> (v: Value)
        requires
            old(self).value_count < u64::MAX,
            !old(self).compiled,
        ensures
            emits(
                *old(self),
                *final(self),
                Insn::Binary {
                    op: BinaryOp::Xor,
                    dest: old(self).value_count,
                    lhs: v1.id,
                    rhs: v2.id,
                },
                1,
            ),
            v.id == old(self).value_count,
    {
        self.insn_binop(BinaryOp::Xor, v1, v2)
    }

    /// Emits an equality comparison, producing 0 or 1.
    pub fn insn_eq(&mut self, v1: &Value, v2: &Value) -> (v: Value)
        requires
            old(self).value_count < u64::MAX,
            !old(self).compiled,
        ensures
            emits(
                *old(self),
                *final(self),
                Insn::Binary {
                    op: BinaryOp::Eq,
                    dest: old(self).value_count,
                    lhs: v1.id,
                    rhs: v2.id,
                },
                1,
            ),
            v.id == old(self).value_count,
    {
        self.insn_binop(BinaryOp::Eq, v1, v2)
    }

    /// Emits an inequality comparison, producing 0 or 1.
    pub fn insn_neq(&mut self, v1: &Value, v2: &Value) -> (v: Value)
        requires
            old(self).value_count < u64::MAX,
            !old(self).compiled,
        ensures
            emits(
                *old(self),
                *final(self),
                Insn::Binary {
                    op: BinaryOp::Neq,
                    dest: old(self).value_count,
                    lhs: v1.id,
                    rhs: v2.id,
                },
                1,
            ),
            v.id == old(self).value_count,
    {
        self.insn_binop(BinaryOp::Neq, v1, v2)
    }

    /// Emits a less-or-equal comparison, producing 0 or 1.
    pub fn insn_leq(&mut self, v1: &Value, v2: &Value) -> (v: Value)
        requires
            old(self).value_count < u64::MAX,
            !old(self).compiled,
        ensures
            emits(
                *old(self),
                *final(self),
                Insn::Binary {
                    op: BinaryOp::Leq,
                    dest: old(self).value_count,
                    lhs: v1.id,
                    rhs: v2.id,
                },
                1,
            ),
            v.id == old(self).value_count,
    {
        self.insn_binop(BinaryOp::Leq, v1, v2)
    }

    /// Emits a greater-or-equal comparison, producing 0 or 1.
    pub fn insn_geq(&mut self, v1: &Value, v2: &Value) -> (v: Value)
        requires
            old(self).value_count < u64::MAX,
            !old(self).compiled,
        ensures
            emits(
                *old(self),
                *final(self),
                Insn::Binary {
                    op: BinaryOp::Geq,
                    dest: old(self).value_count,
                    lhs: v1.id,
                    rhs: v2.id,
                },
                1,
            ),
            v.id == old(self).value_count,
    {
        self.insn_binop(BinaryOp::Geq, v1, v2)
    }

    /// Emits a less-than comparison, producing 0 or 1.
    pub fn insn_lt(&mut self, v1: &Value, v2: &Value) -> (v: Value)
        requires
            old(self).value_count < u64::MAX,
            !old(self).compiled,
        ensures
            emits(
                *old(self),
                *final(self),
                Insn::Binary {
                    op: BinaryOp::Lt,
                    dest: old(self).value_count,
                    lhs: v1.id,
                    rhs: v2.id,
                },
                1,
            ),
            v.id == old(self).value_count,
    {
        self.insn_binop(BinaryOp::Lt, v1, v2)
    }

    /// Emits a greater-than comparison, producing 0 or 1.
    pub fn insn_gt(&mut self, v1: &Value, v2: &Value) -> (v: Value)
        requires
            old(self).value_count < u64::MAX,
            !old(self).compiled,
        ensures
            emits(
                *old(self),
                *final(self),
                Insn::Binary {
                    op: BinaryOp::Gt,
                    dest: old(self).value_count,
                    lhs: v1.id,
                    rhs: v2.id,
                },
                1,
            ),
            v.id == old(self).value_count,
    {
        self.insn_binop(BinaryOp::Gt, v1, v2)
    }

    /// Emits a negation.
    pub fn insn_neg(&mut self, value: &Value) -> (v: Value)
        requires
            old(self).value_count < u64::MAX,
            !old(self).compiled,
        ensures
            emits(
                *old(self),
                *final(self),
                Insn::Unary { op: UnaryOp::Neg, dest: old(self).value_count, src: value.id },
                1,
            ),
            v.id == old(self).value_count,
    {
        self.insn_unop(UnaryOp::Neg, value)
    }

    /// Emits a bitwise complement.
    pub fn insn_not(&mut self, value: &Value) -> (v: Value)
        requires
            old(self).value_count < u64::MAX,
            !old(self).compiled,
        ensures
            emits(
                *old(self),
                *final(self),
                Insn::Unary { op: UnaryOp::Not, dest: old(self).value_count, src: value.id },
                1,
            ),
            v.id == old(self).value_count,
    {
        self.insn_unop(UnaryOp::Not, value)
    }

    /// Emits a fresh value reading `value`'s cell.
    pub fn insn_dup(&mut self, value: &Value) -> (v: Value)
        requires
            old(self).value_count < u64::MAX,
            !old(self).compiled,
        ensures
            emits(
                *old(self),
                *final(self),
                Insn::Load { dest: old(self).value_count, src: value.id },
                1,
            ),
            v.id == old(self).value_count,
    {
        let dest = self.value_count;
        self.emit_value(Insn::Load { dest, src: value.id })
    }

    /// Emits a store of `src` into the cell `dest`.
    pub fn insn_store(&mut self, dest: &Value, src: &Value)
        requires
            !old(self).compiled,
        ensures
            emits(*old(self), *final(self), Insn::Store { dest: dest.id, src: src.id }, 0),
    {
        self.emit(Insn::Store { dest: dest.id, src: src.id });
    }

    /// Binds `label` at the current emission point.
    pub fn insn_set_label(&mut self, label: &Label)
        requires
            !old(self).compiled,
            label.id != u32::MAX,
        ensures
            emits(*old(self), *final(self), Insn::SetLabel { label: label.id }, 0),
    {
        self.emit(Insn::SetLabel { label: label.id });
    }

    /// Emits an unconditional branch to `label`.
    pub fn insn_branch(&mut self, label: &Label)
        requires
            !old(self).compiled,
            label.id != u32::MAX,
        ensures
            emits(*old(self), *final(self), Insn::Branch { label: label.id }, 0),
    {
        self.emit(Insn::Branch { label: label.id });
    }

    /// Emits a branch to `label` taken when `value` is nonzero.
    pub fn insn_branch_if(&mut self, value: &Value, label: &Label)
        requires
            !old(self).compiled,
            label.id != u32::MAX,
        ensures
            emits(
                *old(self),
                *final(self),
                Insn::BranchIf { cond: value.id, label: label.id },
                0,
            ),
    {
        self.emit(Insn::BranchIf { cond: value.id, label: label.id });
    }

    /// Emits a return of `retval`.
    pub fn insn_return(&mut self, retval: &Value)
        requires
            !old(self).compiled,
        ensures
            emits(*old(self), *final(self), Insn::Ret { value: retval.id }, 0),
    {
        self.emit(Insn::Ret { value: retval.id });
    }

    /// Creates a storage cell of the given type: a fresh value with no
    /// instruction emitted. Cells start as integer zero when run.
    pub fn create_value(&mut self, value_type: &Type) -> (v: Value)
        requires
            old(self).value_count < u64::MAX,
            !old(self).compiled,
        ensures
            final(self).insns@ == old(self).insns@,
            final(self).value_count == old(self).value_count + 1,
            final(self).signature == old(self).signature,
            final(self).compiled == old(self).compiled,
            v.id == old(self).value_count,
    {
        let _ = value_type;
        let v = Value { id: self.value_count };
        self.value_count = self.value_count + 1;
        v
    }

    /// Finalizes the function: no further emission is accepted, and the
    /// recorded program may be run.
    pub fn compile(&mut self)
        requires
            !old(self).compiled,
        ensures
            final(self).insns@ == old(self).insns@,
            final(self).value_count == old(self).value_count,
            final(self).signature == old(self).signature,
            final(self).compiled,
    {
        self.compiled = true;
    }
}

/// The position at which `label` is bound: the first `SetLabel` at or after
/// `k`, or -1 when none exists.
pub open spec fn find_label(insns: Seq<Insn>, label: u32, k: int) -> int
    decreases insns.len() - k,
{
    if k < 0 || k >= insns.len() {
        -1
    } else if insns[k] == (Insn::SetLabel { label }) {
        k
    } else {
        find_label(insns, label, k + 1)
    }
}

/// The outcome of one evaluator step: the next register file and program
/// counter, a returned value, or a failure.
pub enum IrStepModel {
    Next { regs: Seq<Scalar>, pc: int },
    Return { value: Scalar },
    Fail { error: ExecutionError },
}

/// One step of the recorded-program evaluator at position `pc`.
///
/// Every register operand is bounds-checked; an out-of-range register or an
/// unbound label is a malformed program. `Load` and `Store` both copy one
/// register to another; a branch moves to the position binding its label.
pub open spec fn spec_ir_step(insns: Seq<Insn>, regs: Seq<Scalar>, pc: int) -> IrStepModel {
    match insns[pc] {
        Insn::ConstI32 { dest, value } => if (dest as int) < regs.len() {
            IrStepModel::Next { regs: regs.update(dest as int, Scalar::Int(value)), pc: pc + 1 }
        } else {
            IrStepModel::Fail { error: ExecutionError::MalformedBytecode }
        },
        Insn::ConstF32 { dest, bits } => if (dest as int) < regs.len() {
            IrStepModel::Next { regs: regs.update(dest as int, Scalar::Float(bits)), pc: pc + 1 }
        } else {
            IrStepModel::Fail { error: ExecutionError::MalformedBytecode }
        },
        Insn::Binary { op, dest, lhs, rhs } => if (dest as int) < regs.len() && (lhs as int)
            < regs.len() && (rhs as int) < regs.len() {
            match spec_binary(op, regs[lhs as int], regs[rhs as int]) {
                Ok(v) => IrStepModel::Next { regs: regs.update(dest as int, v), pc: pc + 1 },
                Err(e) => IrStepModel::Fail { error: e },
            }
        } else {
            IrStepModel::Fail { error: ExecutionError::MalformedBytecode }
        },
        Insn::Unary { op, dest, src } => if (dest as int) < regs.len() && (src as int)
            < regs.len() {
            match spec_unary(op, regs[src as int]) {
                Ok(v) => IrStepModel::Next { regs: regs.update(dest as int, v), pc: pc + 1 },
                Err(e) => IrStepModel::Fail { error: e },
            }
        } else {
            IrStepModel::Fail { error: ExecutionError::MalformedBytecode }
        },
        Insn::Load { dest, src } => if (dest as int) < regs.len() && (src as int) < regs.len() {
            IrStepModel::Next { regs: regs.update(dest as int, regs[src as int]), pc: pc + 1 }
        } else {
            IrStepModel::Fail { error: ExecutionError::MalformedBytecode }
        },
        Insn::Store { dest, src } => if (dest as int) < regs.len() && (src as int) < regs.len() {
            IrStepModel::Next { regs: regs.update(dest as int, regs[src as int]), pc: pc + 1 }
        } else {
            IrStepModel::Fail { error: ExecutionError::MalformedBytecode }
        },
        Insn::SetLabel { label: _ } => IrStepModel::Next { regs, pc: pc + 1 },
        Insn::Branch { label } => {
            let j = find_label(insns, label, 0);
            if j >= 0 {
                IrStepModel::Next { regs, pc: j }
            } else {
                IrStepModel::Fail { error: ExecutionError::MalformedBytecode }
            }
        },
        Insn::BranchIf { cond, label } => if (cond as int) < regs.len() {
            if spec_truthy(regs[cond as int]) {
                let j = find_label(insns, label, 0);
                if j >= 0 {
                    IrStepModel::Next { regs, pc: j }
                } else {
                    IrStepModel::Fail { error: ExecutionError::MalformedBytecode }
                }
            } else {
                IrStepModel::Next { regs, pc: pc + 1 }
            }
        } else {
            IrStepModel::Fail { error: ExecutionError::MalformedBytecode }
        },
        Insn::Ret { value } => if (value as int) < regs.len() {
            IrStepModel::Return { value: regs[value as int] }
        } else {
            IrStepModel::Fail { error: ExecutionError::MalformedBytecode }
        },
    }
}

/// Runs the evaluator from register file `regs` and position `pc` for at
/// most `fuel` steps. Leaving the program other than through `Ret` is a
/// malformed program.
pub open spec fn spec_ir_run(insns: Seq<Insn>, regs: Seq<Scalar>, pc: int, fuel: nat) -> Result<
    Scalar,
    ExecutionError,
>
    decreases fuel,
{
    if !(0 <= pc < insns.len()) {
        Err(ExecutionError::MalformedBytecode)
    } else if fuel == 0 {
        Err(ExecutionError::StepLimit)
    } else {
        match spec_ir_step(insns, regs, pc) {
            IrStepModel::Next { regs: r, pc: p } => spec_ir_run(insns, r, p, (fuel - 1) as nat),
            IrStepModel::Return { value } => Ok(value),
            IrStepModel::Fail { error } => Err(error),
        }
    }
}

/// The register file before a run: one integer zero per created value.
pub open spec fn zero_regs(value_count: u64) -> Seq<Scalar> {
    Seq::new(value_count as nat, |j: int| Scalar::Int(0))
}

/// What [`Function::run`] returns: the evaluator's result from position 0
/// and a zeroed register file, within `u64::MAX` steps.
pub open spec fn spec_function_run(f: Function) -> Result<Scalar, ExecutionError> {
    if f.value_count > usize::MAX {
        Err(ExecutionError::MalformedBytecode)
    } else {
        spec_ir_run(f.insns@, zero_regs(f.value_count), 0, crate::interpret::max_fuel())
    }
}

/// Finds the position binding `label`, scanning forward from 0.
fn find_label_pos(insns: &Vec<Insn>, label: u32) -> (r: Option<usize>)
    ensures
        match r {
            Some(j) => find_label(insns@, label, 0) == j as int,
            None => find_label(insns@, label, 0) == -1,
        },
{
    let mut k: usize = 0;
    while k < insns.len()
        invariant
            k <= insns@.len(),
            find_label(insns@, label, k as int) == find_label(insns@, label, 0),
        decreases insns@.len() - k,
    {
        if insns[k] == (Insn::SetLabel { label }) {
            return Some(k);
        }
        k += 1;
    }
    None
}

/// Performs [`spec_ir_step`] on the real register file and program counter.
/// Returns `Ok(None)` to continue, `Ok(Some(v))` on `Ret`, and the failure
/// otherwise.
fn ir_step(insns: &Vec<Insn>, regs: &mut Vec<Scalar>, pc: &mut usize) -> (r: Result<
    Option<Scalar>,
    ExecutionError,
>)
    requires
        *old(pc) < insns@.len(),
        insns@.len() <= usize::MAX,
    ensures
        match spec_ir_step(insns@, old(regs)@, *old(pc) as int) {
            IrStepModel::Next { regs: s, pc: p } => {
                &&& r == Ok::<Option<Scalar>, ExecutionError>(None)
                &&& final(regs)@ == s
                &&& *final(pc) as int == p
            },
            IrStepModel::Return { value } => r == Ok::<Option<Scalar>, ExecutionError>(
                Some(value),
            ),
            IrStepModel::Fail { error } => r == Err::<Option<Scalar>, ExecutionError>(error),
        },
{
    match insns[*pc] {
        Insn::ConstI32 { dest, value } => {
            if !(dest < regs.len() as u64) {
                return Err(ExecutionError::MalformedBytecode);
            }
            regs[dest as usize] = Scalar::Int(value);
            *pc = *pc + 1;
            Ok(None)
        },
        Insn::ConstF32 { dest, bits } => {
            if !(dest < regs.len() as u64) {
                return Err(ExecutionError::MalformedBytecode);
            }
            regs[dest as usize] = Scalar::Float(bits);
            *pc = *pc + 1;
            Ok(None)
        },
        Insn::Binary { op, dest, lhs, rhs } => {
            if !(dest < regs.len() as u64 && lhs < regs.len() as u64 && rhs < regs.len() as u64) {
                return Err(ExecutionError::MalformedBytecode);
            }
            let a = regs[lhs as usize];
            let b = regs[rhs as usize];
            match apply_binary(op, a, b) {
                Ok(v) => {
                    regs[dest as usize] = v;
                    *pc = *pc + 1;
                    Ok(None)
                },
                Err(e) => Err(e),
            }
        },
        Insn::Unary { op, dest, src } => {
            if !(dest < regs.len() as u64 && src < regs.len() as u64) {
                return Err(ExecutionError::MalformedBytecode);
            }
            let a = regs[src as usize];
            match apply_unary(op, a) {
                Ok(v) => {
                    regs[dest as usize] = v;
                    *pc = *pc + 1;
                    Ok(None)
                },
                Err(e) => Err(e),
            }
        },
        Insn::Load { dest, src } | Insn::Store { dest, src } => {
            if !(dest < regs.len() as u64 && src < regs.len() as u64) {
                return Err(ExecutionError::MalformedBytecode);
            }
            let v = regs[src as usize];
            regs[dest as usize] = v;
            *pc = *pc + 1;
            Ok(None)
        },
        Insn::SetLabel { label: _ } => {
            *pc = *pc + 1;
            Ok(None)
        },
        Insn::Branch { label } => {
            match find_label_pos(insns, label) {
                Some(j) => {
                    *pc = j;
                    Ok(None)
                },
                None => Err(ExecutionError::MalformedBytecode),
            }
        },
        Insn::BranchIf { cond, label } => {
            if !(cond < regs.len() as u64) {
                return Err(ExecutionError::MalformedBytecode);
            }
            let c = regs[cond as usize];
            if truthy(&c) {
                match find_label_pos(insns, label) {
                    Some(j) => {
                        *pc = j;
                        Ok(None)
                    },
                    None => Err(ExecutionError::MalformedBytecode),
                }
            } else {
                *pc = *pc + 1;
                Ok(None)
            }
        },
        Insn::Ret { value } => {
            if !(value < regs.len() as u64) {
                return Err(ExecutionError::MalformedBytecode);
            }
            Ok(Some(regs[value as usize]))
        },
    }
}

impl Function {
    /// Runs the finalized, recorded program: evaluates the instructions from
    /// position 0 over a register file with one zeroed cell per created
    /// value, and yields the value of the first `Ret`.
    pub fn run(&self) -> (r: Result<Scalar, ExecutionError>)
        requires
            self.compiled,
        ensures
            r == spec_function_run(*self),
    {
        let ghost insns = self.insns@;
        if self.value_count > usize::MAX as u64 {
            return Err(ExecutionError::MalformedBytecode);
        }
        let mut regs: Vec<Scalar> = Vec::new();
        let mut j: u64 = 0;
        while j < self.value_count
            invariant
                j <= self.value_count,
                regs@ == Seq::new(j as nat, |m: int| Scalar::Int(0)),
            decreases self.value_count - j,
        {
            regs.push(Scalar::Int(0));
            proof {
                assert(regs@ =~= Seq::new((j + 1) as nat, |m: int| Scalar::Int(0)));
            }
            j += 1;
        }
        proof {
            assert(regs@ =~= zero_regs(self.value_count));
        }
        let mut pc: usize = 0;
        let mut fuel: u64 = u64::MAX;
        while pc < self.insns.len()
            invariant
                insns == self.insns@,
                self.value_count <= usize::MAX,
                spec_ir_run(insns, regs@, pc as int, fuel as nat) == spec_ir_run(
                    insns,
                    zero_regs(self.value_count),
                    0,
                    crate::interpret::max_fuel(),
                ),
            decreases fuel,
        {
            if fuel == 0 {
                return Err(ExecutionError::StepLimit);
            }
            fuel = fuel - 1;
            match ir_step(&self.insns, &mut regs, &mut pc) {
                Ok(None) => {},
                Ok(Some(v)) => {
                    return Ok(v);
                },
                Err(e) => {
                    return Err(e);
                },
            }
        }
        Err(ExecutionError::MalformedBytecode)
    }
}

} // verus!
