//! What the views show, and what a click or a key in them means.

use vstd::prelude::*;

pub mod files_view;
pub mod largest_view;
pub mod sunburst_view;
pub mod tree_view;
pub mod treemap_view;

verus! {

/// What a context menu offers for a node.
#[derive(Clone, Copy)]
pub enum ContextAction {
    OpenInFinder,
    RevealInFinder,
    CopyPath,
    Delete,
}

} // verus!
