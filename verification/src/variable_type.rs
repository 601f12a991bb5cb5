//! The VM primitive types, as seen by local-slot type inference.

use vstd::prelude::*;

verus! {

/// The flat three-point lattice over which local-slot types are inferred:
/// bottom is `Unknown`, and `Float32` and `Int32` are incomparable.
#[derive(Clone, Copy, PartialEq, Eq, Structural, Debug)]
pub enum VariableType {
    Unknown,
    Float32,
    Int32,
}

} // verus!
