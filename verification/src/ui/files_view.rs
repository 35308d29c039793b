//! Searching in lists: the list of all files, and the list of file types.

use vstd::prelude::*;

use crate::model::report::FileSummary;
use crate::model::tree::ExtStat;
use crate::text::{
    chars_of, contains, contains_text, lowercase, same_text, string_of, to_lower, trim, trimmed,
};

verus! {

/// What a search text looks for: the text without white space at its ends, in lower
/// case.
pub open spec fn query(search: Seq<char>) -> Seq<char> {
    lowercase(trimmed(search))
}

/// Whether a name that is in lower case is found by a query.
pub open spec fn found(lowered: Seq<char>, query: Seq<char>) -> bool {
    query.len() == 0 || contains_text(lowered, query)
}

/// Whether a name that is in lower case is found by a query. An empty one finds
/// everything.
pub fn is_found(lowered: &str, query: &str) -> (r: bool)
    ensures
        r == found(lowered@, query@),
{
    if query.is_empty() {
        return true;
    }
    let hay = chars_of(lowered);
    let needle = chars_of(query);
    contains(hay.as_slice(), needle.as_slice())
}

/// What a search text looks for.
pub fn search_query(search: &str) -> (r: String)
    ensures
        r@ == query(search@),
{
    let v = chars_of(search);
    let t = trim(v.as_slice());
    let s = string_of(t.as_slice());
    to_lower(s.as_str())
}

/// The positions of the names that a query finds, in their order.
pub open spec fn found_at(names: Seq<Seq<char>>, query: Seq<char>) -> Seq<int>
    decreases names.len(),
{
    if names.len() == 0 {
        Seq::empty()
    } else {
        let before = found_at(names.drop_last(), query);
        if found(lowercase(names.last()), query) {
            before.push(names.len() - 1)
        } else {
            before
        }
    }
}

/// An empty query finds every name.
pub proof fn empty_query_finds_all(names: Seq<Seq<char>>)
    ensures
        found_at(names, Seq::empty()) == Seq::new(names.len(), |i: int| i),
    decreases names.len(),
{
    if names.len() > 0 {
        empty_query_finds_all(names.drop_last());
        assert(Seq::new(names.len(), |i: int| i) =~= Seq::new(
            names.drop_last().len(),
            |i: int| i,
        ).push(names.len() - 1));
    } else {
        assert(Seq::new(names.len(), |i: int| i) =~= Seq::<int>::empty());
    }
}

/// The positions that are found are those of the names that the query finds.
pub proof fn found_positions_are_right(names: Seq<Seq<char>>, query: Seq<char>)
    ensures
        forall|i: int|
            0 <= i < found_at(names, query).len() ==> 0 <= (#[trigger] found_at(
                names,
                query,
            )[i]) < names.len() && found(lowercase(names[found_at(names, query)[i]]), query),
        forall|k: int|
            0 <= k < names.len() && found(lowercase(#[trigger] names[k]), query) ==> found_at(
                names,
                query,
            ).contains(k),
        forall|i: int, j: int|
            0 <= i < j < found_at(names, query).len() ==> (#[trigger] found_at(names, query)[i])
                < (#[trigger] found_at(names, query)[j]),
    decreases names.len(),
{
    if names.len() > 0 {
        let rest = names.drop_last();
        let before = found_at(rest, query);
        let all = found_at(names, query);
        found_positions_are_right(rest, query);
        assert forall|i: int| 0 <= i < all.len() implies 0 <= (#[trigger] all[i]) < names.len()
            && found(lowercase(names[all[i]]), query) by {
            if i < before.len() {
                assert(all[i] == before[i]);
                assert(rest[before[i]] == names[before[i]]);
            }
        }
        assert forall|k: int|
            0 <= k < names.len() && found(lowercase(#[trigger] names[k]), query) implies
            all.contains(k) by {
            if k < rest.len() {
                assert(rest[k] == names[k]);
                assert(before.contains(k));
                let i = choose|i: int| 0 <= i < before.len() && before[i] == k;
                assert(all[i] == k);
            } else {
                assert(all[before.len() as int] == k);
            }
        }
        assert forall|i: int, j: int| 0 <= i < j < all.len() implies (#[trigger] all[i]) < (
        #[trigger] all[j]) by {
            assert(all[i] == before[i]);
            if j < before.len() {
                assert(all[j] == before[j]);
            }
        }
    }
}

pub open spec fn as_ints(v: Seq<usize>) -> Seq<int> {
    v.map_values(|i: usize| i as int)
}

pub open spec fn file_names(files: Seq<FileSummary>) -> Seq<Seq<char>> {
    files.map_values(|f: FileSummary| f.name@)
}

pub open spec fn type_names(types: Seq<ExtStat>) -> Seq<Seq<char>> {
    types.map_values(|t: ExtStat| t.ext@)
}

/// The positions of the files that a query finds by their names.
pub fn find_files(files: &Vec<FileSummary>, query: &str) -> (r: Vec<usize>)
    ensures
        as_ints(r@) == found_at(file_names(files@), query@),
{
    let ghost names = file_names(files@);
    let mut r: Vec<usize> = Vec::new();
    assert(names.take(0) =~= Seq::empty());
    assert(as_ints(r@) =~= found_at(names.take(0), query@));
    for i in 0..files.len()
        invariant
            names == file_names(files@),
            as_ints(r@) == found_at(names.take(i as int), query@),
    {
        let ghost before = r@;
        proof {
            assert(names.take(i + 1).drop_last() =~= names.take(i as int));
            assert(names.take(i + 1).last() == files@[i as int].name@);
        }
        if is_found(to_lower(files[i].name.as_str()).as_str(), query) {
            r.push(i);
            assert(as_ints(r@) =~= as_ints(before).push(i as int));
        }
    }
    assert(names.take(names.len() as int) =~= names);
    r
}

/// The positions of the file types that a search finds.
pub fn find_types(types: &Vec<ExtStat>, search: &str) -> (r: Vec<usize>)
    ensures
        as_ints(r@) == found_at(type_names(types@), query(search@)),
{
    let q = search_query(search);
    let ghost names = type_names(types@);
    let mut r: Vec<usize> = Vec::new();
    assert(names.take(0) =~= Seq::empty());
    assert(as_ints(r@) =~= found_at(names.take(0), q@));
    for i in 0..types.len()
        invariant
            names == type_names(types@),
            as_ints(r@) == found_at(names.take(i as int), q@),
    {
        let ghost before = r@;
        proof {
            assert(names.take(i + 1).drop_last() =~= names.take(i as int));
            assert(names.take(i + 1).last() == types@[i as int].ext@);
        }
        if is_found(to_lower(types[i].ext.as_str()).as_str(), q.as_str()) {
            r.push(i);
            assert(as_ints(r@) =~= as_ints(before).push(i as int));
        }
    }
    assert(names.take(names.len() as int) =~= names);
    r
}

/// The files that were found last. They are looked for again only when the query
/// changes.
pub struct FilesFilter {
    pub query: String,
    pub indices: Vec<usize>,
}

impl FilesFilter {
    /// Whether the filter holds what its query finds among `files`.
    pub open spec fn of(self, files: Seq<FileSummary>) -> bool {
        as_ints(self.indices@) == found_at(file_names(files), self.query@)
    }
}

/// The filter for a search, which is the one that there was if it looks for the same.
pub fn update_filter(cache: Option<FilesFilter>, files: &Vec<FileSummary>, search: &str) -> (r:
    FilesFilter)
    requires
        cache is Some ==> cache->0.of(files@),
    ensures
        r.of(files@),
        r.query@ == query(search@),
{
    let q = search_query(search);
    if let Some(c) = cache {
        if same_text(c.query.as_str(), q.as_str()) {
            return c;
        }
    }
    let indices = find_files(files, q.as_str());
    FilesFilter { query: q, indices }
}

} // verus!
