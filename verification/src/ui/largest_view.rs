//! The list of the largest folders.

use vstd::prelude::*;

use crate::decimal::{decimal, to_decimal};
use crate::model::report::DirSummary;
use crate::text::push_text;

verus! {

/// Whether no folder of the list is larger than `size`.
pub open spec fn reaches_all(dirs: Seq<DirSummary>, size: u64) -> bool {
    forall|i: int| 0 <= i < dirs.len() ==> (#[trigger] dirs[i]).size <= size
}

/// The size that the full bar of the list stands for: the largest of the list, and at
/// least 1.
pub fn bar_size(dirs: &Vec<DirSummary>) -> (r: u64)
    ensures
        r >= 1,
        forall|i: int| 0 <= i < dirs@.len() ==> (#[trigger] dirs@[i]).size <= r,
        reaches_all(dirs@, r),
        r > 1 ==> exists|i: int| 0 <= i < dirs@.len() && (#[trigger] dirs@[i]).size == r,
{
    let mut max: u64 = 1;
    for i in 0..dirs.len()
        invariant
            max >= 1,
            forall|j: int| 0 <= j < i ==> (#[trigger] dirs@[j]).size <= max,
            max > 1 ==> exists|j: int| 0 <= j < i && (#[trigger] dirs@[j]).size == max,
    {
        if dirs[i].size > max {
            max = dirs[i].size;
            assert(dirs@[i as int].size == max);
        }
    }
    max
}

/// The title of a row: the rank, counted from 1, and the name.
pub fn row_title(rank: usize, name: &str) -> (r: String)
    requires
        rank < usize::MAX,
    ensures
        r@ == decimal((rank + 1) as nat) + ".  "@ + name@,
{
    let mut s = to_decimal((rank + 1) as u64);
    push_text(&mut s, ".  ");
    push_text(&mut s, name);
    s
}

/// What a row says of the files and directories in the folder.
pub fn row_counts(dir: &DirSummary) -> (r: String)
    ensures
        r@ == decimal(dir.file_count as nat) + " files \u{2022} "@ + decimal(dir.dir_count as nat)
            + " dirs"@,
{
    let mut s = to_decimal(dir.file_count as u64);
    push_text(&mut s, " files \u{2022} ");
    push_text(&mut s, to_decimal(dir.dir_count as u64).as_str());
    push_text(&mut s, " dirs");
    s
}

} // verus!
