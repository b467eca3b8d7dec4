//! Two-level decomposition of a midpoint-rule quadrature: a strided partition
//! of the sample indices across distributed workers, a batched reduction of
//! each worker's share across local lanes, and the final combination of the
//! workers' partial sums on a coordinator.
//!
//! The library decides which samples a worker evaluates, in which groups and
//! in which order their values are combined. The values themselves are the
//! caller's: every reduction takes the term, the sum and the final scaling
//! as functions over a value type of the caller's choice.
//!
//! Everything here is verified, with one exception: the two calls into rayon
//! in `lanes` are believed to do what their contracts there say.

pub mod aggregate;
pub mod algebra;
pub mod batch;
mod lanes;
pub mod partition;
pub mod reduce;
