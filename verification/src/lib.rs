//! A tensor library: strided views over shared data, with the integer side of automatic
//! differentiation. The element type is generic; arithmetic comes in as closures.

pub mod shape;
pub mod iter;
pub mod broadcasting;
pub mod rawtensor;
pub mod graph;
pub mod grad;
