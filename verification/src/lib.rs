//! A small execution engine for a stack-based virtual machine.
//!
//! Bytecode for a single nullary function is either interpreted directly
//! (`interpret`) or lowered to a code generator's SSA-style intermediate
//! representation (`jit::compile`): the linear opcode stream is cut into basic
//! blocks, the types of the local slots are inferred by a fixpoint pass over a
//! three-point lattice, and each block is emitted through the back-end facade
//! in `libjit`, with intra-function branches resolved through per-block labels.

pub mod analysis;
pub mod basic_block;
pub mod interpret;
pub mod jit;
pub mod libjit;
pub mod opcode;
pub mod scalar;
pub mod variable_type;
