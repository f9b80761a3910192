//! Allocation of resources to projects by calendar month, with the month-matrix
//! projection and the per-request batching key resolver.
use vstd::prelude::*;

pub mod domain;
pub mod matrix;
pub mod month;
pub mod mutation;
pub mod query;
pub mod resolver;
pub mod store;
