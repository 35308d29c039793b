//! The model of a disk usage visualizer: scanning decisions, the tree and its
//! totals, rankings and statistics over it, navigation, deletion, and what the views
//! show.

use vstd::prelude::*;

pub mod breadcrumb;
pub mod cache;
pub mod confirm;
pub mod decimal;
pub mod format;
pub mod hashed;
pub mod laws;
pub mod loaded;
pub mod location;
pub mod logging;
pub mod model;
pub mod path;
pub mod ranking;
pub mod settings;
pub mod text;
pub mod ui;

verus! {

} // verus!
