//! Numerical abstract interpretation over unions of intervals.
//!
//! The crate has two layers. The lower one is an abstract domain: scalars
//! extended with symbolic infinities, ranges with inclusive or exclusive
//! endpoints, and interval sets kept as ordered, disjoint, non-touching
//! unions of ranges. The upper one walks a control-flow graph, narrows the
//! variables along the two edges of every comparison and reports the
//! comparisons whose outcome is already decided.
//!
//! Every operation has its result stated over positions on an integer axis,
//! on which an interval set has one representation only. What holds beyond
//! the single operations is proved in the modules of laws: the algebra of
//! the sets, the arithmetic of the ranges, the soundness of the slices of
//! comparisons built with `+` and `-`, and of the walk that its snapshots
//! only grow, that they are a fixed point of the program at its end, and
//! that it comes to an end.

pub mod bounded_value;
pub mod environment;
pub mod fixed_point;
pub mod interval_laws;
pub mod numerical_value;
pub mod numerical_value_analysis;
pub mod ordering;
pub mod parse;
pub mod range_arithmetic;
pub mod range_laws;
pub mod slicer_soundness;
pub mod table;
pub mod termination;
pub mod text;
pub mod walk_laws;
