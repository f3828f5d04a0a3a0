//! Piecewise-defined functions: a mapping from an ordered domain to an output,
//! assembled from pieces that each hold on their own stretch of the domain.

pub mod dual;
pub mod dual_laws;
pub mod lower;
pub mod lower_laws;
pub mod order;
pub mod sort;

pub use dual::{DualBoundedFunction, PartialFunction, PartialFunctionBuilder};
pub use lower::{LowerBoundedFunction, LowerPartialFunction, LowerPartialFunctionBuilder};
pub use order::Relation;
