//! The files that are found where the user looks for music.
use std::path::Path;

use vstd::prelude::*;

use crate::catalog::models;
use crate::paths::components;
use crate::paths::compares;
use crate::paths::is_plain;
use crate::paths::same_path;
use crate::paths::PathModel;
use crate::paths::Platform;
use crate::text::lemma_text_le_antisymmetric;
use crate::text::lemma_text_le_total;
use crate::text::lemma_text_le_transitive;
use crate::text::text_le;

verus! {

/// What kind of step a part of a path is: one that leads nowhere, one that leads up, or a
/// name.
pub open spec fn step_kind(part: Seq<char>) -> int {
    if part == seq!['.'] {
        0
    } else if part == seq!['.', '.'] {
        1
    } else {
        2
    }
}

/// Whether a part of a path may stand before another: steps stand before names, and names
/// in the order of their characters.
pub open spec fn part_le(a: Seq<char>, b: Seq<char>) -> bool {
    step_kind(a) < step_kind(b) || step_kind(a) == step_kind(b) && text_le(a, b)
}

/// Whether some parts may stand before others: the first that differ decide, and fewer stand
/// before more.
pub open spec fn parts_le(a: Seq<Seq<char>>, b: Seq<Seq<char>>) -> bool
    decreases a.len(),
{
    if a.len() == 0 {
        true
    } else if b.len() == 0 {
        false
    } else if a[0] == b[0] {
        parts_le(a.drop_first(), b.drop_first())
    } else {
        part_le(a[0], b[0])
    }
}

/// Whether a plain path may stand before another: a root stands before every part.
pub open spec fn path_le(a: PathModel, b: PathModel) -> bool {
    if a.rooted == b.rooted {
        parts_le(a.parts, b.parts)
    } else if a.rooted {
        b.parts.len() > 0
    } else {
        a.parts.len() == 0
    }
}

proof fn lemma_part_le_total(a: Seq<char>, b: Seq<char>)
    ensures
        part_le(a, b) || part_le(b, a),
{
    lemma_text_le_total(a, b);
}

proof fn lemma_part_le_transitive(a: Seq<char>, b: Seq<char>, c: Seq<char>)
    requires
        part_le(a, b),
        part_le(b, c),
    ensures
        part_le(a, c),
{
    if step_kind(a) == step_kind(b) && step_kind(b) == step_kind(c) {
        lemma_text_le_transitive(a, b, c);
    }
}

proof fn lemma_part_le_antisymmetric(a: Seq<char>, b: Seq<char>)
    requires
        part_le(a, b),
        part_le(b, a),
    ensures
        a == b,
{
    lemma_text_le_antisymmetric(a, b);
}

proof fn lemma_parts_le_total(a: Seq<Seq<char>>, b: Seq<Seq<char>>)
    ensures
        parts_le(a, b) || parts_le(b, a),
    decreases a.len(),
{
    if a.len() > 0 && b.len() > 0 {
        if a[0] == b[0] {
            lemma_parts_le_total(a.drop_first(), b.drop_first());
        } else {
            lemma_part_le_total(a[0], b[0]);
        }
    }
}

proof fn lemma_parts_le_transitive(a: Seq<Seq<char>>, b: Seq<Seq<char>>, c: Seq<Seq<char>>)
    requires
        parts_le(a, b),
        parts_le(b, c),
    ensures
        parts_le(a, c),
    decreases a.len(),
{
    if a.len() > 0 {
        if a[0] == b[0] && b[0] == c[0] {
            lemma_parts_le_transitive(a.drop_first(), b.drop_first(), c.drop_first());
        } else if a[0] != b[0] && b[0] != c[0] {
            lemma_part_le_transitive(a[0], b[0], c[0]);
            if a[0] == c[0] {
                lemma_part_le_antisymmetric(a[0], b[0]);
            }
        }
    }
}

proof fn lemma_parts_le_antisymmetric(a: Seq<Seq<char>>, b: Seq<Seq<char>>)
    requires
        parts_le(a, b),
        parts_le(b, a),
    ensures
        a == b,
    decreases a.len(),
{
    if a.len() > 0 && b.len() > 0 {
        if a[0] == b[0] {
            lemma_parts_le_antisymmetric(a.drop_first(), b.drop_first());
            assert(a =~= seq![a[0]] + a.drop_first());
            assert(b =~= seq![b[0]] + b.drop_first());
        } else {
            lemma_part_le_antisymmetric(a[0], b[0]);
        }
    } else {
        assert(a =~= b);
    }
}

/// Plain paths have one order: of two, one may stand before the other, and both may only
/// where they are read as the same.
pub proof fn law_paths_have_one_order(a: PathModel, b: PathModel, c: PathModel)
    requires
        a.volume == b.volume,
    ensures
        path_le(a, b) || path_le(b, a),
        path_le(a, b) && path_le(b, a) ==> a == b,
        path_le(a, b) && path_le(b, c) ==> path_le(a, c),
{
    lemma_parts_le_total(a.parts, b.parts);
    if parts_le(a.parts, b.parts) && parts_le(b.parts, a.parts) {
        lemma_parts_le_antisymmetric(a.parts, b.parts);
    }
    if parts_le(a.parts, b.parts) && parts_le(b.parts, c.parts) {
        lemma_parts_le_transitive(a.parts, b.parts, c.parts);
    }
}

/// `Path`'s order compares paths by their components, one after the other. Claimed of it: of
/// plain paths, what `path_le` says. How other paths are taken apart is left to the platform.
#[verifier::external_body]
fn may_stand_before(a: &str, b: &str) -> (r: bool)
    ensures
        is_plain(a@) && is_plain(b@) ==> r == path_le(components(a@), components(b@)),
{
    Path::new(a) <= Path::new(b)
}

/// Whether all paths are plain.
pub open spec fn all_plain(paths: Seq<Seq<char>>) -> bool {
    forall|i: int| 0 <= i < paths.len() ==> is_plain(#[trigger] paths[i])
}

/// Whether every path may stand before those behind it, and is read as none of them.
pub open spec fn strictly_ordered(paths: Seq<Seq<char>>) -> bool {
    forall|i: int, j: int|
        0 <= i < j < paths.len() ==> path_le(
            components(#[trigger] paths[i]),
            components(#[trigger] paths[j]),
        ) && components(paths[i]) != components(paths[j])
}

/// Whether `path` is the first in `paths` of those that are read alike.
pub open spec fn is_first(paths: Seq<Seq<char>>, path: Seq<char>) -> bool {
    exists|i: int|
        0 <= i < paths.len() && #[trigger] paths[i] == path && forall|j: int|
            0 <= j < i ==> components(#[trigger] paths[j]) != components(path)
}

/// Whether one of `paths` is read as `path` is.
pub open spec fn has_alike(paths: Seq<Seq<char>>, path: Seq<char>) -> bool {
    exists|k: int| 0 <= k < paths.len() && components(#[trigger] paths[k]) == components(path)
}

/// Whether a platform may take one of `paths` for `path`.
pub open spec fn stands_for(paths: Seq<Seq<char>>, path: Seq<char>) -> bool {
    exists|k: int, os: Platform|
        0 <= k < paths.len() && #[trigger] compares(os, paths[k], path, true)
}

/// Whether `once` is made of `paths` as far as that is the same for all paths: what stands in
/// it stands in `paths`, and something in it stands for every one of them.
pub open spec fn thins_out(paths: Seq<Seq<char>>, once: Seq<Seq<char>>) -> bool {
    &&& forall|k: int| 0 <= k < once.len() ==> paths.contains(#[trigger] once[k])
    &&& forall|i: int| 0 <= i < paths.len() ==> stands_for(once, #[trigger] paths[i])
}

/// Whether `once` is `paths` in order, with the first of those that are read alike.
pub open spec fn lists_once(paths: Seq<Seq<char>>, once: Seq<Seq<char>>) -> bool {
    &&& strictly_ordered(once)
    &&& forall|k: int| 0 <= k < once.len() ==> is_first(paths, #[trigger] once[k])
    &&& forall|i: int| 0 <= i < paths.len() ==> has_alike(once, #[trigger] paths[i])
}

/// Where `path` is to stand in `once`, which is in order: behind all that may not stand behind
/// it.
fn place_of(once: &Vec<String>, path: &str) -> (r: usize)
    ensures
        r <= once@.len(),
        all_plain(models(once@)) && strictly_ordered(models(once@)) && is_plain(path@) ==> is_place(
            models(once@),
            path@,
            r as int,
        ),
{
    let ghost m = models(once@);
    let ghost told = all_plain(m) && strictly_ordered(m) && is_plain(path@);
    let mut low: usize = 0;
    let mut high: usize = once.len();
    while low < high
        invariant
            low <= high <= once@.len(),
            m == models(once@),
            told == (all_plain(m) && strictly_ordered(m) && is_plain(path@)),
            told ==> forall|k: int|
                0 <= k < low ==> !path_le(components(path@), components(#[trigger] m[k])),
            told ==> forall|k: int|
                high <= k < m.len() ==> path_le(components(path@), components(#[trigger] m[k])),
        decreases high - low,
    {
        let mid: usize = low + (high - low) / 2;
        let behind: bool = may_stand_before(path, once[mid].as_str());
        proof {
            assert(m[mid as int] == once@[mid as int]@);
            if told {
                let p = components(path@);
                let here = components(m[mid as int]);
                assert forall|k: int| 0 <= k < m.len() && behind && mid <= k implies path_le(
                    p,
                    components(#[trigger] m[k]),
                ) by {
                    law_paths_have_one_order(p, here, components(m[k]));
                }
                assert forall|k: int| 0 <= k < m.len() && !behind && k <= mid implies !path_le(
                    p,
                    components(#[trigger] m[k]),
                ) by {
                    law_paths_have_one_order(p, components(m[k]), here);
                }
            }
        }
        if behind {
            high = mid;
        } else {
            low = mid + 1;
        }
    }
    low
}

/// One more path changes nothing, where something stands for it.
proof fn lemma_one_stands_for_it(paths: Seq<Seq<char>>, once: Seq<Seq<char>>, path: Seq<char>)
    requires
        thins_out(paths, once),
        stands_for(once, path),
    ensures
        thins_out(paths.push(path), once),
{
    let all = paths.push(path);
    assert forall|k: int| 0 <= k < once.len() implies all.contains(#[trigger] once[k]) by {
        let i = choose|i: int| 0 <= i < paths.len() && paths[i] == once[k];
        assert(all[i] == once[k]);
    }
    assert forall|i: int| 0 <= i < all.len() implies stands_for(once, #[trigger] all[i]) by {
        if i < paths.len() {
            assert(all[i] == paths[i]);
        }
    }
}

/// One more path changes nothing, where another is read alike.
proof fn lemma_one_is_alike(paths: Seq<Seq<char>>, once: Seq<Seq<char>>, path: Seq<char>)
    requires
        lists_once(paths, once),
        has_alike(once, path),
    ensures
        lists_once(paths.push(path), once),
{
    let all = paths.push(path);
    assert forall|k: int| 0 <= k < once.len() implies is_first(all, #[trigger] once[k]) by {
        lemma_first_stays(paths, path, once[k]);
    }
    assert forall|i: int| 0 <= i < all.len() implies has_alike(once, #[trigger] all[i]) by {
        if i < paths.len() {
            assert(all[i] == paths[i]);
        }
    }
}

/// The first of those that are read alike stays so when one more path follows.
proof fn lemma_first_stays(paths: Seq<Seq<char>>, path: Seq<char>, first: Seq<char>)
    requires
        is_first(paths, first),
    ensures
        is_first(paths.push(path), first),
{
    let all = paths.push(path);
    let i = choose|i: int|
        0 <= i < paths.len() && #[trigger] paths[i] == first && forall|j: int|
            0 <= j < i ==> components(#[trigger] paths[j]) != components(first);
    assert(all[i] == first);
    assert forall|j: int| 0 <= j < i implies components(#[trigger] all[j]) != components(
        first,
    ) by {
        assert(all[j] == paths[j]);
    }
}

/// One more path is taken in.
proof fn lemma_taken_in(paths: Seq<Seq<char>>, once: Seq<Seq<char>>, path: Seq<char>, at: int)
    requires
        0 <= at <= once.len(),
        thins_out(paths, once),
    ensures
        thins_out(paths.push(path), once.insert(at, path)),
{
    let all = paths.push(path);
    let more = once.insert(at, path);
    assert forall|k: int| 0 <= k < more.len() implies all.contains(#[trigger] more[k]) by {
        if k == at {
            assert(all[paths.len() as int] == path);
        } else {
            let x = if k < at {
                k
            } else {
                k - 1
            };
            assert(more[k] == once[x]);
            let i = choose|i: int| 0 <= i < paths.len() && paths[i] == once[x];
            assert(all[i] == more[k]);
        }
    }
    assert forall|i: int| 0 <= i < all.len() implies stands_for(more, #[trigger] all[i]) by {
        if i < paths.len() {
            assert(all[i] == paths[i]);
            let (k, os) = choose|k: int, os: Platform|
                0 <= k < once.len() && #[trigger] compares(os, once[k], paths[i], true);
            let x = if k < at {
                k
            } else {
                k + 1
            };
            assert(more[x] == once[k]);
            assert(compares(os, more[x], all[i], true));
        } else {
            assert(more[at] == path);
            assert(compares(Platform::Unix, more[at], all[i], true));
        }
    }
}

/// Where `path` is to stand among plain paths that are in order.
spec fn is_place(once: Seq<Seq<char>>, path: Seq<char>, at: int) -> bool {
    &&& forall|k: int| 0 <= k < at ==> !path_le(components(path), components(#[trigger] once[k]))
    &&& forall|k: int|
        at <= k < once.len() ==> path_le(components(path), components(#[trigger] once[k]))
}

/// A path whose place is not taken is read as none of the others.
proof fn lemma_read_as_none(once: Seq<Seq<char>>, path: Seq<char>, at: int)
    requires
        0 <= at <= once.len(),
        strictly_ordered(once),
        is_place(once, path, at),
        at < once.len() ==> components(once[at]) != components(path),
    ensures
        forall|k: int| 0 <= k < once.len() ==> components(#[trigger] once[k]) != components(path),
{
    let p = components(path);
    assert forall|k: int| 0 <= k < once.len() implies components(#[trigger] once[k]) != p by {
        law_paths_have_one_order(p, p, p);
        if k > at {
            law_paths_have_one_order(components(once[at]), components(once[k]), p);
        }
    }
}

/// One more path at its place keeps the order.
proof fn lemma_order_is_kept(once: Seq<Seq<char>>, path: Seq<char>, at: int)
    requires
        0 <= at <= once.len(),
        strictly_ordered(once),
        is_place(once, path, at),
        forall|k: int| 0 <= k < once.len() ==> components(#[trigger] once[k]) != components(path),
    ensures
        strictly_ordered(once.insert(at, path)),
{
    let more = once.insert(at, path);
    let p = components(path);
    assert forall|i: int, j: int| 0 <= i < j < more.len() implies path_le(
        components(#[trigger] more[i]),
        components(#[trigger] more[j]),
    ) && components(more[i]) != components(more[j]) by {
        if j == at {
            assert(more[i] == once[i]);
            law_paths_have_one_order(p, components(once[i]), p);
        } else if i == at {
            assert(more[j] == once[j - 1]);
        } else {
            let x = if i < at {
                i
            } else {
                i - 1
            };
            let y = if j < at {
                j
            } else {
                j - 1
            };
            assert(more[i] == once[x] && more[j] == once[y]);
        }
    }
}

/// One more path, read as none of the others, is the first of its kind.
proof fn lemma_firsts_are_kept(
    paths: Seq<Seq<char>>,
    once: Seq<Seq<char>>,
    path: Seq<char>,
    at: int,
)
    requires
        0 <= at <= once.len(),
        lists_once(paths, once),
        forall|k: int| 0 <= k < once.len() ==> components(#[trigger] once[k]) != components(path),
    ensures
        forall|k: int|
            0 <= k < once.insert(at, path).len() ==> is_first(
                paths.push(path),
                #[trigger] once.insert(at, path)[k],
            ),
{
    let all = paths.push(path);
    let more = once.insert(at, path);
    assert forall|k: int| 0 <= k < more.len() implies is_first(all, #[trigger] more[k]) by {
        if k == at {
            let n = paths.len() as int;
            assert forall|j: int| 0 <= j < n implies components(#[trigger] all[j]) != components(
                path,
            ) by {
                assert(all[j] == paths[j]);
                assert(has_alike(once, paths[j]));
            }
            assert(all[n] == path);
        } else {
            let x = if k < at {
                k
            } else {
                k - 1
            };
            assert(more[k] == once[x]);
            lemma_first_stays(paths, path, once[x]);
        }
    }
}

/// What was read alike still is when one more path is taken in.
proof fn lemma_alikes_are_kept(
    paths: Seq<Seq<char>>,
    once: Seq<Seq<char>>,
    path: Seq<char>,
    at: int,
)
    requires
        0 <= at <= once.len(),
        lists_once(paths, once),
    ensures
        forall|i: int|
            0 <= i < paths.push(path).len() ==> has_alike(
                once.insert(at, path),
                #[trigger] paths.push(path)[i],
            ),
{
    let all = paths.push(path);
    let more = once.insert(at, path);
    assert forall|i: int| 0 <= i < all.len() implies has_alike(more, #[trigger] all[i]) by {
        if i < paths.len() {
            assert(all[i] == paths[i]);
            assert(has_alike(once, paths[i]));
            let k = choose|k: int|
                0 <= k < once.len() && components(#[trigger] once[k]) == components(paths[i]);
            let x = if k < at {
                k
            } else {
                k + 1
            };
            assert(more[x] == once[k]);
        } else {
            assert(more[at] == path);
        }
    }
}

/// `thins_out`, to be opened where it is needed.
#[verifier::opaque]
spec fn thinned(paths: Seq<Seq<char>>, once: Seq<Seq<char>>) -> bool {
    thins_out(paths, once)
}

/// `lists_once` of plain paths, to be opened where it is needed.
#[verifier::opaque]
spec fn listed(paths: Seq<Seq<char>>, once: Seq<Seq<char>>) -> bool {
    all_plain(once) && lists_once(paths, once)
}

/// What one more path makes of the others.
spec fn with_one_more(
    once: Seq<Seq<char>>,
    path: Seq<char>,
    at: int,
    known: bool,
) -> Seq<Seq<char>> {
    if known {
        once
    } else {
        once.insert(at, path)
    }
}

/// One more path, of whatever kind.
proof fn lemma_one_more(
    paths: Seq<Seq<char>>,
    once: Seq<Seq<char>>,
    path: Seq<char>,
    at: int,
    known: bool,
)
    requires
        thinned(paths, once),
        0 <= at <= once.len(),
        known ==> at < once.len() && exists|os: Platform| #[trigger]
            compares(os, once[at], path, true),
    ensures
        thinned(paths.push(path), with_one_more(once, path, at, known)),
{
    reveal(thinned);
    if known {
        lemma_one_stands_for_it(paths, once, path);
    } else {
        lemma_taken_in(paths, once, path, at);
    }
}

/// One more path, where all are plain.
proof fn lemma_one_more_in_order(
    paths: Seq<Seq<char>>,
    once: Seq<Seq<char>>,
    path: Seq<char>,
    at: int,
    known: bool,
)
    requires
        listed(paths, once),
        is_plain(path),
        0 <= at <= once.len(),
        all_plain(once) && strictly_ordered(once) ==> is_place(once, path, at),
        at < once.len() && is_plain(once[at]) ==> known == (components(once[at]) == components(
            path,
        )),
        at == once.len() ==> !known,
    ensures
        listed(paths.push(path), with_one_more(once, path, at, known)),
{
    reveal(listed);
    if known {
        assert(has_alike(once, path));
        lemma_one_is_alike(paths, once, path);
    } else {
        lemma_read_as_none(once, path, at);
        lemma_order_is_kept(once, path, at);
        lemma_firsts_are_kept(paths, once, path, at);
        lemma_alikes_are_kept(paths, once, path, at);
    }
}

/// Every one of `paths` once, in order: of those that are the same, the first.
pub fn each_once(paths: Vec<String>) -> (r: Vec<String>)
    ensures
        thins_out(models(paths@), models(r@)),
        all_plain(models(paths@)) ==> lists_once(models(paths@), models(r@)),
{
    let mut once: Vec<String> = Vec::new();
    let ghost all = models(paths@);
    let mut i: usize = 0;
    proof {
        reveal(thinned);
        reveal(listed);
        assert(all.take(0) =~= Seq::empty());
        assert(models(once@) =~= Seq::empty());
    }
    while i < paths.len()
        invariant
            i <= paths@.len(),
            all == models(paths@),
            thinned(all.take(i as int), models(once@)),
            all_plain(all) ==> listed(all.take(i as int), models(once@)),
        decreases paths@.len() - i,
    {
        let path = paths[i].as_str();
        let ghost before = models(once@);
        let at = place_of(&once, path);
        let known: bool = at < once.len() && same_path(once[at].as_str(), path);
        proof {
            if at < once@.len() {
                assert(before[at as int] == once@[at as int]@);
            }
            assert(path@ == all[i as int]);
            assert(all.take(i + 1) =~= all.take(i as int).push(path@));
            lemma_one_more(all.take(i as int), before, path@, at as int, known);
            if all_plain(all) {
                lemma_one_more_in_order(all.take(i as int), before, path@, at as int, known);
            }
        }
        if !known {
            once.insert(at, path.to_string());
        }
        proof {
            assert(models(once@) =~= with_one_more(before, path@, at as int, known));
        }
        i = i + 1;
    }
    proof {
        reveal(thinned);
        reveal(listed);
        assert(all.take(i as int) =~= all);
    }
    once
}

} // verus!
