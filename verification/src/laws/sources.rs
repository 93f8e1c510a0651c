//! Laws of the files that are taken in.
use vstd::prelude::*;

use crate::paths::components;
use crate::paths::PathModel;
use crate::sources::lists_once;
use crate::sources::part_le;
use crate::sources::parts_le;
use crate::sources::path_le;
use crate::text::text_le;

verus! {

/// For every path one is listed that is read alike, and only one: the first of those that are.
/// What is listed stands in order, and nothing is listed that was not given.
pub proof fn law_every_file_is_taken_once(
    paths: Seq<Seq<char>>,
    once: Seq<Seq<char>>,
    i: int,
    a: int,
    b: int,
)
    requires
        lists_once(paths, once),
    ensures
        0 <= i < paths.len() ==> exists|k: int|
            0 <= k < once.len() && components(#[trigger] once[k]) == components(paths[i]),
        0 <= a < b < once.len() ==> components(once[a]) != components(once[b]) && path_le(
            components(once[a]),
            components(once[b]),
        ),
        0 <= a < once.len() ==> paths.contains(once[a]),
        0 <= a < once.len() && 0 <= i < paths.len() && components(paths[i]) == components(once[a])
            ==> exists|j: int| 0 <= j <= i && #[trigger] paths[j] == once[a],
{
    if 0 <= i < paths.len() {
        assert(crate::sources::has_alike(once, paths[i]));
    }
    if 0 <= a < once.len() {
        assert(crate::sources::is_first(paths, once[a]));
        let j = choose|j: int|
            0 <= j < paths.len() && #[trigger] paths[j] == once[a] && forall|k: int|
                0 <= k < j ==> components(#[trigger] paths[k]) != components(once[a]);
        assert(paths[j] == once[a]);
    }
}

/// Paths are ordered part by part: the first parts that differ decide, and where there are none
/// the path with fewer parts stands before the other.
pub proof fn law_paths_are_ordered_by_the_first_difference(a: Seq<Seq<char>>, b: Seq<Seq<char>>)
    ensures
        parts_le(a, b) <==> exists|k: int|
            0 <= k <= a.len() && k <= b.len() && #[trigger] a.take(k) == b.take(k) && (k == a.len()
                || (k < b.len() && a[k] != b[k] && part_le(a[k], b[k]))),
    decreases a.len(),
{
    if a.len() == 0 {
        assert(a.take(0) =~= b.take(0));
    } else if b.len() == 0 {
    } else if a[0] == b[0] {
        let (x, y) = (a.drop_first(), b.drop_first());
        law_paths_are_ordered_by_the_first_difference(x, y);
        if parts_le(x, y) {
            let k = choose|k: int|
                0 <= k <= x.len() && k <= y.len() && #[trigger] x.take(k) == y.take(k) && (k
                    == x.len() || (k < y.len() && x[k] != y[k] && part_le(x[k], y[k])));
            assert(a.take(k + 1) =~= seq![a[0]] + x.take(k));
            assert(b.take(k + 1) =~= seq![b[0]] + y.take(k));
            assert(a.take(k + 1) == b.take(k + 1));
        }
        if exists|k: int|
            0 <= k <= a.len() && k <= b.len() && #[trigger] a.take(k) == b.take(k) && (k == a.len()
                || (k < b.len() && a[k] != b[k] && part_le(a[k], b[k]))) {
            let k = choose|k: int|
                0 <= k <= a.len() && k <= b.len() && #[trigger] a.take(k) == b.take(k) && (k
                    == a.len() || (k < b.len() && a[k] != b[k] && part_le(a[k], b[k])));
            assert(k > 0);
            assert(x.take(k - 1) =~= a.take(k).drop_first());
            assert(y.take(k - 1) =~= b.take(k).drop_first());
        }
    } else {
        assert(a.take(0) =~= b.take(0));
        if exists|k: int|
            0 <= k <= a.len() && k <= b.len() && #[trigger] a.take(k) == b.take(k) && (k == a.len()
                || (k < b.len() && a[k] != b[k] && part_le(a[k], b[k]))) {
            let k = choose|k: int|
                0 <= k <= a.len() && k <= b.len() && #[trigger] a.take(k) == b.take(k) && (k
                    == a.len() || (k < b.len() && a[k] != b[k] && part_le(a[k], b[k])));
            if k > 0 {
                assert(a.take(k)[0] == a[0] && b.take(k)[0] == b[0]);
            }
        }
    }
}

/// Names in paths stand in the order of their characters.
pub proof fn law_names_in_paths_are_ordered(a: Seq<char>, b: Seq<char>)
    requires
        a != seq!['.'] && a != seq!['.', '.'],
        b != seq!['.'] && b != seq!['.', '.'],
    ensures
        part_le(a, b) <==> text_le(a, b),
{
}

/// Paths from the root stand before others, and paths of one kind in the order of their parts.
pub proof fn law_paths_from_the_root_stand_first(a: PathModel, b: PathModel)
    ensures
        a.rooted == b.rooted ==> (path_le(a, b) <==> parts_le(a.parts, b.parts)),
        a.rooted && !b.rooted && b.parts.len() > 0 ==> path_le(a, b) && !path_le(b, a),
{
}

} // verus!
