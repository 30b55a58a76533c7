//! Native elliptic-curve gadgets for a PLONKish circuit over the Grumpkin
//! curve, whose base field equals the enclosing circuit's scalar field.
//!
//! The crate builds the witness table itself: a sequential two-column region,
//! per-row opcode tags that stand for the selector combinations of one
//! aggregated custom gate, and explicit copy constraints.  `region::satisfied`
//! states the polynomial identity of every tagged row and every copy
//! constraint; each gadget proves that the rows it appends keep the whole
//! table satisfiable exactly when its inputs are consistent.
pub mod arith_gates;
pub mod checker;
pub mod chip;
pub mod curve;
pub mod ec_gates;
pub mod ec_structs;
pub mod field;
pub mod gate_math;
pub mod laws;
pub mod radix;
pub mod region;
pub mod scalar;
pub mod util;
