//! Where the cache of a scan is kept, and when it can be used.
//!
//! The cache is keyed by the scan root, versioned, and checked for its root, so
//! that format changes and hash collisions are ignored safely rather than
//! mis-rendered.

use std::hash::{Hash, Hasher};

use vstd::prelude::*;

use crate::decimal::{digits, to_padded_hex, zero_padded};
use crate::path::{join, joined};
use crate::text::{push_text, same_text};

verus! {

/// Bump when the shape of what is cached changes: old caches then fail the
/// version check and are ignored (a fresh scan rewrites them).
pub const CACHE_VERSION: u32 = 2;

/// The hash of a text, on a kind of machine that `machine` tells from others.
pub uninterp spec fn fx_hashed(text: Seq<char>, machine: nat) -> u64;

/// `rustc_hash::FxHasher` on a text. The hash depends on the text, and on the kind of
/// machine: its architecture and the width of its pointers decide how words are mixed.
/// Which hash it is, and that two calls run on the same machine, is left unsaid.
#[verifier::external_body]
fn fx_hash(text: &str) -> (r: u64)
    ensures
        exists|machine: nat| r == fx_hashed(text@, machine),
{
    let mut h = rustc_hash::FxHasher::default();
    text.hash(&mut h);
    h.finish()
}

/// The folder of the caches.
pub open spec fn cache_folder(home: Seq<char>) -> Seq<char> {
    joined(joined(home, ".cache"@), "macdirstat"@)
}

/// The name of a cache file: the hash in hexadecimal.
pub open spec fn cache_name(hash: u64) -> Seq<char> {
    zero_padded(digits(hash as nat, 16), 16) + ".bin"@
}

/// The folder of the caches.
pub fn cache_dir(home: &str) -> (r: String)
    ensures
        r@ == cache_folder(home@),
{
    let a = join(home, ".cache");
    join(a.as_str(), "macdirstat")
}

/// The name of the cache file for a hash.
pub fn cache_file_name(hash: u64) -> (r: String)
    ensures
        r@ == cache_name(hash),
{
    let mut s = to_padded_hex(hash, 16);
    push_text(&mut s, ".bin");
    s
}

/// The cache file for a scan root, named by the hash of the root (so any path maps to
/// one file). Without a home folder there is none.
pub fn cache_file(home: Option<&str>, root_path: &str) -> (r: Option<String>)
    ensures
        (match r {
            Some(p) => home is Some && exists|machine: nat|
                p@ == joined(
                    cache_folder(home->0@),
                    cache_name(#[trigger] fx_hashed(root_path@, machine)),
                ),
            None => home is None,
        }),
{
    match home {
        Some(h) => {
            let dir = cache_dir(h);
            let name = cache_file_name(fx_hash(root_path));
            Some(join(dir.as_str(), name.as_str()))
        },
        None => None,
    }
}

/// Whether a cache that says it is of `version` and of `cached_root` can be shown for
/// `root_path`.
pub fn cache_is_current(version: u32, cached_root: &str, root_path: &str) -> (r: bool)
    ensures
        r == (version == CACHE_VERSION && cached_root@ == root_path@),
{
    version == CACHE_VERSION && same_text(cached_root, root_path)
}

} // verus!
