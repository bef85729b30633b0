//! The operator set: each transform with its mathematical specification.

pub mod caseops;
pub mod columnate;
pub mod dedupe;
pub mod filter;
pub mod fold;
pub mod group;
pub mod join;
pub mod noop;
pub mod partition;
pub mod pick;
pub mod sort;
pub mod split;
