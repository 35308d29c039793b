//! The scanned tree and what is computed from it.

pub mod edit;
pub mod extensions;
pub mod listing;
pub mod node;
pub mod refresh;
pub mod refreshed;
pub mod report;
pub mod scan;
pub mod totals;
pub mod tree;
pub mod whole;
