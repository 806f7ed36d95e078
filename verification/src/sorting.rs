//! Ascending sort of the parsed values, pinned to the unique sorted
//! permutation of the input.
use vstd::prelude::*;

verus! {

broadcast use vstd::seq_lib::group_to_multiset_ensures;

/// The mathematical values of a sequence of machine integers.
pub open spec fn int_view(v: Seq<i32>) -> Seq<int> {
    v.map(|_i: int, x: i32| x as int)
}

/// A sequence is sorted when every pair of positions is ordered.
pub open spec fn sorted(s: Seq<int>) -> bool {
    forall|i: int, j: int| 0 <= i <= j < s.len() ==> s[i] <= s[j]
}

/// The ascending reordering of a sequence of integers.
pub open spec fn sort_ints(s: Seq<int>) -> Seq<int> {
    s.sort_by(|x: int, y: int| x <= y)
}

/// The ascending reordering is sorted, keeps exactly the elements of the
/// input (duplicates included), and so keeps its length.
pub proof fn lemma_sort_ints_ensures(s: Seq<int>)
    ensures
        sorted(sort_ints(s)),
        sort_ints(s).to_multiset() == s.to_multiset(),
        sort_ints(s).len() == s.len(),
{
    let leq = |x: int, y: int| x <= y;
    assert(vstd::relations::total_ordering(leq));
    s.lemma_sort_by_ensures(leq);
    assert forall|i: int, j: int|
        0 <= i <= j < sort_ints(s).len() implies sort_ints(s)[i] <= sort_ints(s)[j] by {
        if i < j {
            assert(leq(sort_ints(s)[i], sort_ints(s)[j]));
        }
    }
    assert(sort_ints(s).to_multiset() == s.to_multiset());
    assert(sort_ints(s).to_multiset().len() == s.to_multiset().len());
}

/// Two sorted sequences with the same elements are the same sequence.
pub proof fn lemma_sorted_unique(a: Seq<int>, b: Seq<int>)
    requires
        sorted(a),
        sorted(b),
        a.to_multiset() == b.to_multiset(),
    ensures
        a == b,
    decreases a.len(),
{
    if a.len() == 0 {
        assert(b.to_multiset().len() == 0);
        assert(a =~= b);
    } else {
        assert(a.to_multiset().len() == a.len());
        assert(b.to_multiset().len() == b.len());
        assert(b.len() == a.len());
        assert(a.contains(a[0]));
        assert(b.to_multiset().count(a[0]) > 0);
        assert(b.contains(a[0]));
        let bj = choose|j: int| 0 <= j < b.len() && b[j] == a[0];
        assert(b[0] <= a[0]);
        assert(b.contains(b[0]));
        assert(a.to_multiset().count(b[0]) > 0);
        assert(a.contains(b[0]));
        let ai = choose|i: int| 0 <= i < a.len() && a[i] == b[0];
        assert(a[0] <= b[0]);
        assert(a[0] == b[0]);
        let a1 = a.drop_first();
        let b1 = b.drop_first();
        assert(a.remove(0) =~= a1);
        assert(b.remove(0) =~= b1);
        assert(a1.to_multiset() == a.to_multiset().remove(a[0]));
        assert(b1.to_multiset() == b.to_multiset().remove(b[0]));
        assert(sorted(a1)) by {
            assert(forall|i: int| 0 <= i < a1.len() ==> #[trigger] a1[i] == a[i + 1]);
        }
        assert(sorted(b1)) by {
            assert(forall|i: int| 0 <= i < b1.len() ==> #[trigger] b1[i] == b[i + 1]);
        }
        lemma_sorted_unique(a1, b1);
        assert(forall|i: int| 1 <= i < a.len() ==> #[trigger] a[i] == a1[i - 1]);
        assert(forall|i: int| 1 <= i < b.len() ==> #[trigger] b[i] == b1[i - 1]);
        assert(a =~= b);
    }
}

/// Sort the values ascending, in place.
///
/// The result is exactly the ascending reordering of the input: sorted, with
/// the same elements the same number of times.
#[verifier::loop_isolation(false)]
pub fn sort_values(v: &mut Vec<i32>)
    ensures
        sorted(int_view(final(v)@)),
        int_view(final(v)@).to_multiset() == int_view(old(v)@).to_multiset(),
        int_view(final(v)@) == sort_ints(int_view(old(v)@)),
{
    let mut out: Vec<i32> = Vec::new();
    proof {
        assert(int_view(out@) =~= Seq::<int>::empty());
    }
    while v.len() > 0
        invariant
            sorted(int_view(out@)),
            forall|i: int, j: int|
                0 <= i < out@.len() && 0 <= j < v@.len() ==> int_view(out@)[i] <= int_view(v@)[j],
            forall|x: int|
                int_view(out@).to_multiset().count(x) + int_view(v@).to_multiset().count(x)
                    == int_view(old(v)@).to_multiset().count(x),
        decreases v@.len(),
    {
        let mut m: usize = 0;
        let mut k: usize = 1;
        while k < v.len()
            invariant
                0 <= m < k <= v@.len(),
                forall|t: int| 0 <= t < k ==> v@[m as int] <= #[trigger] v@[t],
            decreases v@.len() - k,
        {
            if v[k] < v[m] {
                m = k;
            }
            k = k + 1;
        }
        let x = v[m];
        let ghost out_pre = out@;
        let ghost v_pre = v@;
        out.push(x);
        v.remove(m);
        proof {
            assert(int_view(out@) =~= int_view(out_pre).push(x as int));
            assert(int_view(v@) =~= int_view(v_pre).remove(m as int));
            assert(int_view(v_pre)[m as int] == x as int);
            assert(int_view(out@).to_multiset() =~= int_view(out_pre).to_multiset().insert(
                x as int,
            ));
            assert(int_view(v@).to_multiset() =~= int_view(v_pre).to_multiset().remove(x as int));
            assert(int_view(v_pre).to_multiset().count(x as int) > 0) by {
                assert(int_view(v_pre).contains(x as int));
            }
            assert(sorted(int_view(out@))) by {
                assert(forall|i: int|
                    0 <= i < out_pre.len() ==> #[trigger] int_view(out@)[i] == int_view(
                        out_pre,
                    )[i]);
                assert(int_view(out@)[out_pre.len() as int] == x as int);
            }
            assert forall|i: int, j: int|
                0 <= i < out@.len() && 0 <= j < v@.len() implies int_view(out@)[i] <= int_view(
                v@,
            )[j] by {
                assert(int_view(v@)[j] == if j < m { int_view(v_pre)[j] } else {
                    int_view(v_pre)[j + 1]
                });
            }
        }
    }
    proof {
        assert(int_view(v@) =~= Seq::<int>::empty());
        assert(int_view(v@).to_multiset().len() == 0);
        assert(forall|x: int| int_view(v@).to_multiset().count(x) == 0) by {
            vstd::multiset::lemma_multiset_empty_len(int_view(v@).to_multiset());
            broadcast use vstd::multiset::group_multiset_axioms;

        }
        assert(int_view(out@).to_multiset() =~= int_view(old(v)@).to_multiset());
    }
    *v = out;
    proof {
        lemma_sort_ints_ensures(int_view(old(v)@));
        lemma_sorted_unique(int_view(final(v)@), sort_ints(int_view(old(v)@)));
    }
}

} // verus!
