//! Which source files belong to the program whose coverage is asked for.

use crate::text::{contains, starts_with, str_contains, str_starts_with, views};
use vstd::prelude::*;

verus! {

/// Whether the name of the file begins with one of the paths.
pub open spec fn is_under(file: Seq<char>, paths: Seq<Seq<char>>) -> bool {
    exists|i: int| 0 <= i < paths.len() && starts_with(file, #[trigger] paths[i])
}

/// Whether the name of the file contains one of the paths.
pub open spec fn mentions(file: Seq<char>, paths: Seq<Seq<char>>) -> bool {
    exists|i: int| 0 <= i < paths.len() && contains(file, #[trigger] paths[i])
}

/// A file lies under the paths when any of them is a prefix of its name.
proof fn lemma_under_paths(file: Seq<char>, paths: Seq<String>)
    ensures
        is_under(file, views(paths)) <==> exists|k: int|
            0 <= k < paths.len() && (#[trigger] paths[k])@.is_prefix_of(file),
{
    let v = views(paths);
    if is_under(file, v) {
        let k = choose|k: int| 0 <= k < v.len() && starts_with(file, #[trigger] v[k]);
        assert(paths[k]@.is_prefix_of(file));
    }
    if exists|k: int| 0 <= k < paths.len() && (#[trigger] paths[k])@.is_prefix_of(file) {
        let k = choose|k: int| 0 <= k < paths.len() && (#[trigger] paths[k])@.is_prefix_of(file);
        assert(starts_with(file, v[k]));
    }
}

/// Tests whether the name of the file begins with one of the paths.
pub fn file_is_under(file: &str, paths: &Vec<String>) -> (b: bool)
    ensures
        b == is_under(file@, views(paths@)),
        b <==> exists|k: int| 0 <= k < paths@.len() && (#[trigger] paths@[k])@.is_prefix_of(file@),
{
    proof {
        lemma_under_paths(file@, paths@);
    }
    for i in 0..paths.len()
        invariant
            forall|j: int| 0 <= j < i ==> !starts_with(file@, #[trigger] views(paths@)[j]),
    {
        assert(views(paths@)[i as int] == paths@[i as int]@);
        if str_starts_with(file, paths[i].as_str()) {
            return true;
        }
    }
    false
}

/// Tests whether the name of the file contains one of the paths.
pub fn file_mentions(file: &str, paths: &Vec<String>) -> (b: bool)
    ensures
        b == mentions(file@, views(paths@)),
{
    for i in 0..paths.len()
        invariant
            forall|j: int| 0 <= j < i ==> !contains(file@, #[trigger] views(paths@)[j]),
    {
        assert(views(paths@)[i as int] == paths@[i as int]@);
        if str_contains(file, paths[i].as_str()) {
            return true;
        }
    }
    false
}

} // verus!
