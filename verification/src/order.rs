//! Putting rows in order.
use vstd::prelude::*;

use crate::catalog::models;

verus! {

/// Rows that have an order.
pub trait Ordered: View + Sized {
    /// Whether `a` may stand before `b`.
    spec fn le(a: Self::V, b: Self::V) -> bool;

    proof fn le_total(a: Self::V, b: Self::V)
        ensures
            Self::le(a, b) || Self::le(b, a),
    ;

    proof fn le_transitive(a: Self::V, b: Self::V, c: Self::V)
        requires
            Self::le(a, b),
            Self::le(b, c),
        ensures
            Self::le(a, c),
    ;

    /// Whether this row may stand before `other`.
    fn at_most(&self, other: &Self) -> (r: bool)
        ensures
            r == Self::le(self@, other@),
    ;
}

/// Every row may stand before those behind it.
pub open spec fn in_order<T: Ordered>(s: Seq<T::V>) -> bool {
    forall|i: int, j: int| 0 <= i < j < s.len() ==> T::le(#[trigger] s[i], #[trigger] s[j])
}

proof fn lemma_insert_multiset<A>(s: Seq<A>, i: int, x: A)
    requires
        0 <= i <= s.len(),
    ensures
        s.insert(i, x).to_multiset() == s.to_multiset().insert(x),
{
    broadcast use vstd::seq_lib::group_to_multiset_ensures;

    let t = s.insert(i, x);
    assert(t.remove(i) =~= s);
    assert(t[i] == x);
    assert(t.to_multiset().remove(x) =~= s.to_multiset());
    assert(t.contains(x));
    assert(t.to_multiset() =~= s.to_multiset().insert(x));
}

/// The rows `v`, in order.
pub fn sort<T: Ordered>(v: Vec<T>) -> (r: Vec<T>)
    ensures
        in_order::<T>(models(r@)),
        models(r@).to_multiset() == models(v@).to_multiset(),
{
    let mut rest = v;
    let mut r: Vec<T> = Vec::new();
    let ghost all = models(v@).to_multiset();
    proof {
        broadcast use vstd::seq_lib::group_to_multiset_ensures;

        assert(models(r@) =~= Seq::empty());
        assert(models(r@).to_multiset() =~= vstd::multiset::Multiset::empty());
        assert(all =~= models(rest@).to_multiset().add(models(r@).to_multiset()));
    }
    while rest.len() > 0
        invariant
            in_order::<T>(models(r@)),
            all == models(rest@).to_multiset().add(models(r@).to_multiset()),
        decreases rest@.len(),
    {
        let ghost before = models(rest@);
        let ghost placed = models(r@);
        let x = rest.pop().unwrap();
        proof {
            assert(before =~= models(rest@).push(x@));
        }
        let mut at: usize = 0;
        while at < r.len() && !x.at_most(&r[at])
            invariant
                at <= r@.len(),
                models(r@) == placed,
                forall|k: int| 0 <= k < at ==> !T::le(x@, #[trigger] placed[k]),
            decreases r@.len() - at,
        {
            at = at + 1;
        }
        r.insert(at, x);
        proof {
            let after = models(r@);
            assert(after =~= placed.insert(at as int, x@));
            lemma_insert_multiset(placed, at as int, x@);
            broadcast use vstd::seq_lib::group_to_multiset_ensures;

            assert(before.to_multiset() =~= models(rest@).to_multiset().insert(x@));
            assert(all =~= models(rest@).to_multiset().add(after.to_multiset()));
            assert forall|i: int, j: int| 0 <= i < j < after.len() implies T::le(
                #[trigger] after[i],
                #[trigger] after[j],
            ) by {
                if j == at {
                    T::le_total(placed[i], x@);
                } else if i == at {
                    if j - 1 > at {
                        T::le_transitive(x@, placed[at as int], placed[j - 1]);
                    }
                } else if i < at && at < j {
                    assert(T::le(placed[i], placed[j - 1]));
                } else if j < at {
                    assert(T::le(placed[i], placed[j]));
                } else {
                    assert(T::le(placed[i - 1], placed[j - 1]));
                }
            }
        }
    }
    proof {
        broadcast use vstd::seq_lib::group_to_multiset_ensures;

        assert(models(rest@) =~= Seq::empty());
        assert(models(rest@).to_multiset() =~= vstd::multiset::Multiset::empty());
        assert(all =~= models(r@).to_multiset());
    }
    r
}

} // verus!
