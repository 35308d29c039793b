//! The sunburst: concentric rings where the center is the current folder and each
//! ring out is one level deeper.

use vstd::prelude::*;

use crate::model::node::FileNode;
use crate::model::tree::TreePath;
use crate::path::{after_last_slash, short_name};
use crate::text::{chars_of, slice_copy, string_of};
use crate::ui::tree_view::{opt_path, prefix_of};

verus! {

broadcast use crate::model::node::group_nodes;

/// How many rings there are.
pub const MAX_DEPTH: usize = 6;

/// A text, cut to `max` characters if it is longer, the last of which is then an
/// ellipsis.
pub open spec fn cut(s: Seq<char>, max: nat) -> Seq<char> {
    if s.len() <= max {
        s
    } else {
        s.take(max - 1).push('\u{2026}')
    }
}

/// A text that is no longer than `max` characters.
pub fn truncate(s: &str, max: usize) -> (r: String)
    requires
        s@.len() > max ==> max > 0,
    ensures
        r@ == cut(s@, max as nat),
{
    let v = chars_of(s);
    if v.len() <= max {
        return s.to_owned();
    }
    let t = slice_copy(v.as_slice(), 0, max - 1);
    assert(t@ =~= s@.take(max - 1));
    let mut r = string_of(t.as_slice());
    r.push('\u{2026}');
    r
}

/// The color of a directory: a green-gray, lighter the deeper it is.
pub fn dir_color(depth: usize) -> (r: (u8, u8, u8))
    ensures
        ({
            let d: int = if depth < MAX_DEPTH {
                depth as int
            } else {
                MAX_DEPTH as int
            };
            r.0 == 70 + 6 * d && r.1 == 92 + 9 * d && r.2 == 78 + 6 * d
        }),
{
    let d: u8 = if depth < MAX_DEPTH {
        depth as u8
    } else {
        MAX_DEPTH as u8
    };
    (70 + d * 6, 92 + d * 9, 78 + d * 6)
}

/// The name in the center. The root, which is named by its whole path, is shown by
/// the last part of it.
pub fn center_name(base: &FileNode, view: &[usize]) -> (r: String)
    ensures
        r@ == (if view@.len() == 0 {
            after_last_slash(base@.name)
        } else {
            base@.name
        }),
{
    if view.len() == 0 {
        short_name(base.name.as_str())
    } else {
        base.name.clone()
    }
}

/// Where a double click on the center leads: one level up, unless the center is the
/// root.
pub fn center_activation(view: &[usize]) -> (r: Option<TreePath>)
    ensures
        opt_path(r) == (if view@.len() == 0 {
            None
        } else {
            Some(view@.drop_last())
        }),
{
    if view.len() == 0 {
        None
    } else {
        let up = prefix_of(view, view.len() - 1);
        assert(up@ =~= view@.drop_last());
        Some(up)
    }
}

} // verus!
