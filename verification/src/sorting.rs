//! The orderings used by the propagator: every sweep walks the tasks sorted
//! by one of the derived quantities, with ties broken by `local_id` so that
//! the algorithm is deterministic.  The orders are built as `(key, id)`
//! pairs and sorted lexicographically by insertion sort.

use vstd::prelude::*;

verus! {

/// Lexicographic order on `(key, id)` pairs.
pub open spec fn pair_le(a: (i32, usize), b: (i32, usize)) -> bool {
    a.0 < b.0 || (a.0 == b.0 && a.1 <= b.1)
}

/// Sorted ascending under `pair_le`.
pub open spec fn sorted_pairs(s: Seq<(i32, usize)>) -> bool {
    forall|i: int, j: int| 0 <= i < j < s.len() ==> pair_le(#[trigger] s[i], #[trigger] s[j])
}

/// Swapping two positions leaves the multiset of elements unchanged.
proof fn lemma_swap_multiset(s: Seq<(i32, usize)>, a: int, b: int)
    requires
        0 <= a < b < s.len(),
    ensures
        s.update(a, s[b]).update(b, s[a]).to_multiset() == s.to_multiset(),
{
    broadcast use vstd::seq_lib::group_to_multiset_ensures;
    broadcast use vstd::multiset::group_multiset_axioms;

    let s1 = s.update(a, s[b]);
    assert(s1[b] == s[b]);
    assert(s1.update(b, s[a]).to_multiset() =~= s.to_multiset());
}

/// `true` exactly when `a` must come strictly after `b`.
fn pair_out_of_order(a: (i32, usize), b: (i32, usize)) -> (r: bool)
    ensures
        r == !pair_le(a, b),
{
    !(a.0 < b.0 || (a.0 == b.0 && a.1 <= b.1))
}

/// Sorts the pairs ascending by key, ties ascending by id.
pub fn sort_pairs(v: &mut Vec<(i32, usize)>)
    ensures
        sorted_pairs(final(v)@),
        final(v)@.to_multiset() == old(v)@.to_multiset(),
        final(v)@.len() == old(v)@.len(),
{
    let n = v.len();
    let mut i: usize = 1;
    while i < n
        invariant
            1 <= i <= n || (n == 0 && i == 1),
            v@.len() == n,
            v@.to_multiset() == old(v)@.to_multiset(),
            forall|a: int, b: int| 0 <= a < b < i ==> pair_le(#[trigger] v@[a], #[trigger] v@[b]),
        decreases n - i,
    {
        let mut j: usize = i;
        while j > 0 && pair_out_of_order(v[j - 1], v[j])
            invariant
                0 <= j <= i < n,
                v@.len() == n,
                v@.to_multiset() == old(v)@.to_multiset(),
                forall|a: int, b: int|
                    0 <= a < b <= i && a != j && b != j ==> pair_le(
                        #[trigger] v@[a],
                        #[trigger] v@[b],
                    ),
                forall|b: int| j < b <= i ==> pair_le(v@[j as int], #[trigger] v@[b]),
            decreases j,
        {
            let prev = v[j - 1];
            let cur = v[j];
            proof {
                lemma_swap_multiset(v@, j - 1, j as int);
            }
            v.set(j - 1, cur);
            v.set(j, prev);
            j = j - 1;
        }
        i = i + 1;
    }
}

/// Everything in a sequence is in any multiset-equal sequence.
pub proof fn lemma_multiset_membership(v: Seq<(i32, usize)>, w: Seq<(i32, usize)>)
    requires
        v.to_multiset() == w.to_multiset(),
    ensures
        forall|i: int| 0 <= i < w.len() ==> v.contains(#[trigger] w[i]),
        v.len() == w.len(),
    {
    broadcast use vstd::seq_lib::group_to_multiset_ensures;

    assert(v.len() == v.to_multiset().len());
    assert(w.len() == w.to_multiset().len());
    assert forall|i: int| 0 <= i < w.len() implies v.contains(#[trigger] w[i]) by {
        assert(w.to_multiset().count(w[i]) > 0);
    }
}

/// A sequence multiset-equal to one without duplicates has none either.
pub proof fn lemma_multiset_no_duplicates(v: Seq<(i32, usize)>, w: Seq<(i32, usize)>)
    requires
        v.to_multiset() == w.to_multiset(),
        v.no_duplicates(),
    ensures
        w.no_duplicates(),
{
    v.lemma_multiset_has_no_duplicates();
    w.lemma_multiset_has_no_duplicates_conv();
}

/// Two sorted pair sequences with the same multiset of elements are the
/// same sequence: the order is total, so sorting is unique.
pub proof fn lemma_sorted_perm_unique(o1: Seq<(i32, usize)>, o2: Seq<(i32, usize)>)
    requires
        sorted_pairs(o1),
        sorted_pairs(o2),
        o1.to_multiset() == o2.to_multiset(),
    ensures
        o1 == o2,
    decreases o1.len(),
{
    broadcast use vstd::seq_lib::group_to_multiset_ensures;

    if o1.len() == 0 {
        assert(o2.len() == o2.to_multiset().len());
        assert(o1 =~= o2);
    } else {
        assert(o2.len() == o2.to_multiset().len());
        assert(o1.contains(o1[0]));
        assert(o1.to_multiset().count(o1[0]) > 0);
        assert(o2.contains(o1[0]));
        let w2 = choose|w2: int| 0 <= w2 < o2.len() && o2[w2] == o1[0];
        assert(o2.contains(o2[0]));
        assert(o2.to_multiset().count(o2[0]) > 0);
        assert(o1.contains(o2[0]));
        let w1 = choose|w1: int| 0 <= w1 < o1.len() && o1[w1] == o2[0];
        assert(pair_le(o2[0], o1[0]));
        assert(pair_le(o1[0], o2[0]));
        assert(o1[0] == o2[0]);
        let t1 = o1.skip(1);
        let t2 = o2.skip(1);
        assert(o1.remove(0) =~= t1);
        assert(o2.remove(0) =~= t2);
        assert(t1.to_multiset() == o1.to_multiset().remove(o1[0]));
        assert(t2.to_multiset() == o2.to_multiset().remove(o2[0]));
        assert forall|a: int, q: int| 0 <= a < q < t1.len() implies pair_le(
            #[trigger] t1[a],
            #[trigger] t1[q],
        ) by {
            assert(t1[a] == o1[a + 1]);
            assert(t1[q] == o1[q + 1]);
        }
        assert forall|a: int, q: int| 0 <= a < q < t2.len() implies pair_le(
            #[trigger] t2[a],
            #[trigger] t2[q],
        ) by {
            assert(t2[a] == o2[a + 1]);
            assert(t2[q] == o2[q + 1]);
        }
        lemma_sorted_perm_unique(t1, t2);
        assert forall|q: int| 0 <= q < o1.len() implies o1[q] == o2[q] by {
            if q > 0 {
                assert(t1[q - 1] == t2[q - 1]);
            }
        }
        assert(o1 =~= o2);
    }
}

/// The sorted arrangement of a pair table, as a function: unique by
/// [`lemma_sorted_perm_unique`].
pub open spec fn sorted_order(base: Seq<(i32, usize)>) -> Seq<(i32, usize)> {
    choose|o: Seq<(i32, usize)>| sorted_pairs(o) && o.to_multiset() == base.to_multiset()
}

/// Whatever sorts a table equals `sorted_order` of that table.
pub proof fn lemma_is_sorted_order(o: Seq<(i32, usize)>, base: Seq<(i32, usize)>)
    requires
        sorted_pairs(o),
        o.to_multiset() == base.to_multiset(),
    ensures
        o == sorted_order(base),
{
    assert(sorted_pairs(sorted_order(base)) && sorted_order(base).to_multiset()
        == base.to_multiset()) by {
        assert(exists|w: Seq<(i32, usize)>|
            sorted_pairs(w) && #[trigger] w.to_multiset() == base.to_multiset()) by {
            assert(sorted_pairs(o) && o.to_multiset() == base.to_multiset());
        }
    }
    lemma_sorted_perm_unique(o, sorted_order(base));
}

} // verus!
