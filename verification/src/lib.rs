//! boostlss: the discrete core of boosting GAMLSS (distributional regression).
//!
//! This crate holds the integer and structural logic of the boosting library:
//! configuration enums and learner settings, the bin counts and row
//! partitions of histogram trees, the early-stopping rule,
//! cross-validation resampling schemes and tuning grids, stability-selection
//! bookkeeping, sparse and dense design-matrix layouts with their data
//! checks, group-effect designs, difference and tensor-product penalties, and
//! the name tables of families, algorithms and modes.  Every function carries
//! a contract that Verus proves; the few calls into `rand` and `std` that
//! compute what the library cannot (random draws, decimal formatting, Unicode
//! lower-casing) go through wrappers whose contracts are stated beside them.

pub mod error;
pub mod engine;
pub mod param;
pub mod learner;
pub mod data;
pub mod random_effects;
pub mod penalty;
pub mod cv;
pub mod stabsel;
pub mod names;
pub mod hist;

pub use data::{DenseMatrix, DesignMatrix, SparseMatrix};
pub use error::BoostlssError;
pub use param::{IdentityLink, LogLink, LogitLink};
