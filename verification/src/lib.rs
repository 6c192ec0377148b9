//! Routes rows of a delimited tabular file into per-rule output files and
//! re-sorts those files.
//!
//! The crate holds the logic of that pipeline: rule validation, the header
//! index of an input file, the filter engine that admits and projects rows,
//! the routing-table keying rule, and the stable multi-key sort that orders
//! an output file. Reading and writing files, and the worker pools that run
//! the two phases, live with the caller; every function here is pure and is
//! verified against its contract.

pub mod collections;
pub mod config;
pub mod filter;
pub mod headers;
pub mod routing;
pub mod sort;
pub mod text;
pub mod util;
