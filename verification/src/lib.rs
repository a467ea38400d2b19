//! A gadget library for building rank-one constraint systems over a prime
//! field.
//!
//! Field elements are manipulated as symbolic values that carry an optional
//! concrete witness together with a handle into an owned constraint-system
//! arena.  Every arithmetic operation emits the fewest possible
//! multiplicative constraints: linear work is batched into single linear
//! combinations, constants fold for free, and only a product of two true
//! variables pays for a multiplication gate.  On top of the field layer sit
//! equality gadgets built on the modular-inverse trick, canonical bit
//! decomposition, constant-cost multiplexers, and the Miller-loop
//! line-coefficient precomputation for pairing-friendly curves.

use vstd::prelude::*;

pub mod bits;
pub mod bls12;
pub mod boolean;
pub mod bytes;
pub mod cs;
pub mod eq;
pub mod field;
pub mod field_element;
pub mod fp_var;
pub mod number_theory;
pub mod select;

verus! {

/// The errors surfaced by gadget construction.
///
/// `Unsatisfiable` marks an algebraic impossibility that is encoded into the
/// constraint system and detected only when satisfiability is later checked.
/// `MissingWitness` is returned when a concrete value is read from a value
/// that was allocated without one (setup-only compilation).
#[derive(Clone, Copy, Debug, PartialEq, Eq, Structural)]
pub enum SynthesisError {
    /// A concrete witness was read but is absent.
    MissingWitness,
    /// An algebraic impossibility was encoded.
    Unsatisfiable,
}

} // verus!
