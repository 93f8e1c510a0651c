//! Facts about sequences of rows.
use vstd::prelude::*;

use crate::catalog::models;

verus! {

pub proof fn lemma_filter_take<T>(s: Seq<T>, p: spec_fn(T) -> bool, i: int)
    requires
        0 <= i < s.len(),
    ensures
        s.take(i + 1).filter(p) == if p(s[i]) {
            s.take(i).filter(p).push(s[i])
        } else {
            s.take(i).filter(p)
        },
{
    reveal(Seq::filter);
    assert(s.take(i + 1).drop_last() =~= s.take(i));
}

/// Where the row at `i` of a selection stands in the whole.
pub proof fn lemma_filter_at<T>(s: Seq<T>, p: spec_fn(T) -> bool, i: int) -> (a: int)
    requires
        0 <= i < s.filter(p).len(),
    ensures
        0 <= a < s.len(),
        s[a] == s.filter(p)[i],
        p(s[a]),
    decreases s.len(),
{
    reveal(Seq::filter);
    if p(s.last()) && i == s.filter(p).len() - 1 {
        s.len() - 1
    } else {
        lemma_filter_at(s.drop_last(), p, i)
    }
}

/// Where two rows of a selection stand in the whole: in the same order.
pub proof fn lemma_filter_pair<T>(s: Seq<T>, p: spec_fn(T) -> bool, i: int, j: int) -> (r: (
    int,
    int,
))
    requires
        0 <= i < j < s.filter(p).len(),
    ensures
        0 <= r.0 < r.1 < s.len(),
        s[r.0] == s.filter(p)[i],
        s[r.1] == s.filter(p)[j],
        p(s[r.0]),
        p(s[r.1]),
    decreases s.len(),
{
    reveal(Seq::filter);
    if p(s.last()) && j == s.filter(p).len() - 1 {
        let a = lemma_filter_at(s.drop_last(), p, i);
        (a, s.len() - 1)
    } else {
        lemma_filter_pair(s.drop_last(), p, i, j)
    }
}

/// Where a row that is selected stands in the selection.
pub proof fn lemma_filter_has<T>(s: Seq<T>, p: spec_fn(T) -> bool, a: int) -> (i: int)
    requires
        0 <= a < s.len(),
        p(s[a]),
    ensures
        0 <= i < s.filter(p).len(),
        s.filter(p)[i] == s[a],
    decreases s.len(),
{
    reveal(Seq::filter);
    if a == s.len() - 1 {
        s.filter(p).len() - 1
    } else {
        lemma_filter_has(s.drop_last(), p, a)
    }
}

/// A selection of all rows is the whole.
pub proof fn lemma_filter_all<T>(s: Seq<T>, p: spec_fn(T) -> bool)
    requires
        forall|i: int| 0 <= i < s.len() ==> p(#[trigger] s[i]),
    ensures
        s.filter(p) == s,
    decreases s.len(),
{
    reveal(Seq::filter);
    if s.len() > 0 {
        lemma_filter_all(s.drop_last(), p);
        assert(s =~= s.drop_last().push(s.last()));
    }
}

pub proof fn lemma_filter_push<T>(s: Seq<T>, x: T, p: spec_fn(T) -> bool)
    ensures
        s.push(x).filter(p) == if p(x) {
            s.filter(p).push(x)
        } else {
            s.filter(p)
        },
{
    reveal(Seq::filter);
    assert(s.push(x).drop_last() =~= s);
}

/// A selection of rows that follow others is the one selection behind the other.
pub proof fn lemma_filter_joined<T>(a: Seq<T>, b: Seq<T>, p: spec_fn(T) -> bool)
    ensures
        (a + b).filter(p) == a.filter(p) + b.filter(p),
    decreases b.len(),
{
    reveal(Seq::filter);
    if b.len() == 0 {
        assert(a + b =~= a);
        assert(a.filter(p) + b.filter(p) =~= a.filter(p));
    } else {
        assert((a + b).drop_last() =~= a + b.drop_last());
        lemma_filter_joined(a, b.drop_last(), p);
        assert((a + b).filter(p) =~= a.filter(p) + b.filter(p));
    }
}

/// Rows that are the same, but for their order, are so once each is mapped.
pub proof fn lemma_map_multiset<A, B>(a: Seq<A>, b: Seq<A>, f: spec_fn(A) -> B)
    requires
        a.to_multiset() == b.to_multiset(),
    ensures
        a.map_values(f).to_multiset() == b.map_values(f).to_multiset(),
    decreases a.len(),
{
    broadcast use vstd::seq_lib::group_to_multiset_ensures;

    if a.len() == 0 {
        if b.len() > 0 {
            assert(b.contains(b[0]));
            assert(a.to_multiset().count(b[0]) > 0);
            assert(a.contains(b[0]));
        }
        assert(b.len() == 0);
        assert(a.map_values(f) =~= b.map_values(f));
    } else {
        let x = a.last();
        assert(a.contains(x));
        assert(b.to_multiset().count(x) > 0);
        assert(b.contains(x));
        let k = choose|k: int| 0 <= k < b.len() && b[k] == x;
        let c = b.remove(k);
        assert(a.drop_last().push(x) =~= a);
        assert(a.drop_last().to_multiset() =~= a.to_multiset().remove(x));
        assert(c.to_multiset() =~= b.to_multiset().remove(x));
        lemma_map_multiset(a.drop_last(), c, f);
        assert(a.map_values(f) =~= a.drop_last().map_values(f).push(f(x)));
        assert(b.map_values(f).remove(k) =~= c.map_values(f));
        assert(b.map_values(f)[k] == f(x));
        assert(b.map_values(f).contains(f(x)));
        assert(b.map_values(f).to_multiset() =~= c.map_values(f).to_multiset().insert(f(x)));
    }
}

/// Drops the rows that `keep` does not hold of; `p` says what `keep` tests.
pub fn retain<R: View, F: Fn(&R) -> bool>(
    rows: &mut Vec<R>,
    Ghost(p): Ghost<spec_fn(R::V) -> bool>,
    keep: F,
)
    requires
        forall|r: &R| #[trigger] keep.requires((r,)),
        forall|r: &R, b: bool| #[trigger] keep.ensures((r,), b) ==> b == p(r@),
    ensures
        models(final(rows)@) == models(old(rows)@).filter(p),
{
    let ghost all = models(rows@);
    let mut i: usize = 0;
    let ghost mut seen: int = 0;
    proof {
        reveal(Seq::filter);
        assert(models(rows@).take(0) =~= all.take(0).filter(p));
        assert(models(rows@).skip(0) =~= all.skip(0));
    }
    while i < rows.len()
        invariant
            i <= rows@.len(),
            0 <= seen <= all.len(),
            models(rows@).take(i as int) == all.take(seen).filter(p),
            models(rows@).skip(i as int) == all.skip(seen),
            forall|r: &R| #[trigger] keep.requires((r,)),
            forall|r: &R, b: bool| #[trigger] keep.ensures((r,), b) ==> b == p(r@),
        decreases rows@.len() - i,
    {
        let ghost before = models(rows@);
        proof {
            assert(before.skip(i as int).len() == all.skip(seen).len());
            assert(before.skip(i as int)[0] == all.skip(seen)[0]);
            assert(before[i as int] == all[seen]);
            lemma_filter_take(all, p, seen);
            assert(all.skip(seen).drop_first() =~= all.skip(seen + 1));
            assert(before.skip(i as int).drop_first() =~= before.skip(i + 1));
        }
        if keep(&rows[i]) {
            proof {
                assert(before.take(i + 1) =~= before.take(i as int).push(before[i as int]));
            }
            i = i + 1;
        } else {
            let dropped = rows.remove(i);
            proof {
                assert(models(rows@) =~= before.remove(i as int));
                assert(models(rows@).take(i as int) =~= before.take(i as int));
                assert(models(rows@).skip(i as int) =~= before.skip(i + 1));
            }
        }
        proof {
            seen = seen + 1;
        }
    }
    proof {
        assert(models(rows@).take(i as int) =~= models(rows@));
        assert(models(rows@).skip(i as int).len() == 0);
        assert(all.take(seen) =~= all);
    }
}

/// Whether `p` holds of every row.
pub open spec fn all_satisfy<T>(s: Seq<T>, p: spec_fn(T) -> bool) -> bool {
    forall|i: int| 0 <= i < s.len() ==> p(#[trigger] s[i])
}

/// Whether `p` holds of every row and every one behind it.
pub open spec fn pairs_satisfy<T>(s: Seq<T>, p: spec_fn(T, T) -> bool) -> bool {
    forall|i: int, j: int| 0 <= i < j < s.len() ==> p(#[trigger] s[i], #[trigger] s[j])
}

/// Whether `test` holds of every row; `p` says what `test` tests.
pub fn holds_of_all<R: View, F: Fn(&R) -> bool>(
    rows: &Vec<R>,
    Ghost(p): Ghost<spec_fn(R::V) -> bool>,
    test: F,
) -> (b: bool)
    requires
        forall|r: &R| #[trigger] test.requires((r,)),
        forall|r: &R, b: bool| #[trigger] test.ensures((r,), b) ==> b == p(r@),
    ensures
        b == all_satisfy(models(rows@), p),
{
    let ghost m = models(rows@);
    let mut i: usize = 0;
    while i < rows.len()
        invariant
            i <= rows@.len(),
            m == models(rows@),
            forall|r: &R| #[trigger] test.requires((r,)),
            forall|r: &R, b: bool| #[trigger] test.ensures((r,), b) ==> b == p(r@),
            forall|j: int| 0 <= j < i ==> p(#[trigger] m[j]),
        decreases rows@.len() - i,
    {
        if !test(&rows[i]) {
            proof {
                assert(!p(m[i as int]));
            }
            return false;
        }
        i = i + 1;
    }
    true
}

/// Whether `test` holds of every row and every one behind it; `p` says what `test`
/// tests.
pub fn holds_of_pairs<R: View, F: Fn(&R, &R) -> bool>(
    rows: &Vec<R>,
    Ghost(p): Ghost<spec_fn(R::V, R::V) -> bool>,
    test: F,
) -> (b: bool)
    requires
        forall|x: &R, y: &R| #[trigger] test.requires((x, y)),
        forall|x: &R, y: &R, b: bool| #[trigger] test.ensures((x, y), b) ==> b == p(x@, y@),
    ensures
        b == pairs_satisfy(models(rows@), p),
{
    let ghost m = models(rows@);
    let mut i: usize = 0;
    while i < rows.len()
        invariant
            i <= rows@.len(),
            m == models(rows@),
            forall|x: &R, y: &R| #[trigger] test.requires((x, y)),
            forall|x: &R, y: &R, b: bool| #[trigger] test.ensures((x, y), b) ==> b == p(x@, y@),
            forall|x: int, y: int|
                0 <= x < y < m.len() && x < i ==> p(#[trigger] m[x], #[trigger] m[y]),
        decreases rows@.len() - i,
    {
        let mut j: usize = i + 1;
        while j < rows.len()
            invariant
                i < j <= rows@.len(),
                m == models(rows@),
                forall|x: &R, y: &R| #[trigger] test.requires((x, y)),
                forall|x: &R, y: &R, b: bool| #[trigger]
                    test.ensures((x, y), b) ==> b == p(x@, y@),
                forall|y: int| i < y < j ==> p(m[i as int], #[trigger] m[y]),
            decreases rows@.len() - j,
        {
            if !test(&rows[i], &rows[j]) {
                proof {
                    assert(!p(m[i as int], m[j as int]));
                }
                return false;
            }
            j = j + 1;
        }
        i = i + 1;
    }
    true
}

} // verus!
