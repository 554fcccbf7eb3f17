//! In-place heapsort: build a max-heap over the slice, then move the
//! greatest remaining element to the end of the unsorted part, one at a time.
use crate::heap::{
    bounded_by, greater_child, heap_ordered_upto, in_subtree, lemma_root_bounds, lemma_subtree_after_root,
    ordered_below, parent, settled, subtree_heap, subtrees_ordered,
};
use crate::order::{leq, lemma_antisymmetric, lemma_swap_to_multiset, lemma_total_order, less, sorted};
use vstd::laws_cmp::obeys_cmp;
use vstd::laws_eq::obeys_concrete_eq;
use vstd::prelude::*;
use vstd::std_specs::cmp::PartialOrdSpec;

verus! {

/// Moves the element at `k` down within the first `n` entries of `arr`,
/// swapping it with its greater child (the right one when the two are
/// equal) while that child is greater, then going on from there. Only
/// entries of the subtree rooted at `k` below `n` may move. When the
/// subtrees of the children of `k` are heaps, the subtree of `k` is a heap
/// afterwards.
pub(crate) fn sink<T: Ord + Copy>(arr: &mut [T], k: usize, n: usize)
    requires
        obeys_cmp::<T>(),
        k < n <= old(arr)@.len(),
    ensures
        final(arr)@.len() == old(arr)@.len(),
        final(arr)@.to_multiset() == old(arr)@.to_multiset(),
        forall|j: int|
            0 <= j < old(arr)@.len() && (j >= n || !in_subtree(k as int, j)) ==> #[trigger] final(arr)@[j]
                == old(arr)@[j],
        settled(old(arr)@, k as int, n as int) ==> final(arr)@ == old(arr)@,
        !settled(old(arr)@, k as int, n as int) ==> final(arr)@[k as int] == old(
            arr,
        )@[greater_child(old(arr)@, k as int, n as int)],
        ordered_below(old(arr)@, k as int, k as int, n as int) ==> subtree_heap(
            final(arr)@,
            k as int,
            n as int,
        ),
        subtrees_ordered(old(arr)@, k + 1, n as int) ==> subtrees_ordered(
            final(arr)@,
            k as int,
            n as int,
        ),
        forall|b: T| bounded_by(old(arr)@, n as int, b) ==> #[trigger] bounded_by(final(arr)@, n as int, b),
{
    proof {
        lemma_total_order::<T>();
    }
    let ghost o = arr@;
    let lo = k;
    let mut k = k;
    while k < n / 2
        invariant
            obeys_cmp::<T>(),
            T::obeys_partial_cmp_spec(),
            forall|a: T| #[trigger] leq(a, a),
            forall|a: T, b: T| #[trigger] less(a, b) ==> leq(a, b),
            forall|a: T, b: T| #[trigger] leq(a, b) || leq(b, a),
            forall|a: T, b: T, c: T| #[trigger] leq(a, b) && #[trigger] leq(b, c) ==> leq(a, c),
            o == old(arr)@,
            lo <= k < n <= arr@.len(),
            arr@.len() == o.len(),
            in_subtree(lo as int, k as int),
            k == lo ==> arr@ == o,
            k != lo ==> !settled(o, lo as int, n as int) && arr@[lo as int] == o[greater_child(
                o,
                lo as int,
                n as int,
            )],
            ordered_below(o, lo as int, lo as int, n as int) ==> ordered_below(
                arr@,
                lo as int,
                k as int,
                n as int,
            ),
            arr@.to_multiset() == o.to_multiset(),
            forall|j: int|
                0 <= j < o.len() && (j >= n || !in_subtree(lo as int, j)) ==> #[trigger] arr@[j] == o[j],
            forall|b: T| bounded_by(o, n as int, b) ==> #[trigger] bounded_by(arr@, n as int, b),
        ensures
            arr@.len() == o.len(),
            arr@.to_multiset() == o.to_multiset(),
            forall|j: int|
                0 <= j < o.len() && (j >= n || !in_subtree(lo as int, j)) ==> #[trigger] arr@[j] == o[j],
            settled(o, lo as int, n as int) ==> arr@ == o,
            !settled(o, lo as int, n as int) ==> arr@[lo as int] == o[greater_child(
                o,
                lo as int,
                n as int,
            )],
            ordered_below(o, lo as int, lo as int, n as int) ==> subtree_heap(
                arr@,
                lo as int,
                n as int,
            ),
            forall|b: T| bounded_by(o, n as int, b) ==> #[trigger] bounded_by(arr@, n as int, b),
        decreases n - k,
    {
        let left = 2 * k + 1;
        let mut c = left;
        if left + 1 < n && !(arr[left + 1] < arr[left]) {
            c = left + 1;
        }
        let ghost s = arr@;
        assert(c == greater_child(s, k as int, n as int));
        assert(forall|j: int| 0 < j < n && parent(j) == k ==> #[trigger] leq(s[j], s[c as int]));
        assert(parent(c as int) == k);
        assert(in_subtree(lo as int, c as int));
        let top = arr[k];
        let child = arr[c];
        if top < child {
            proof {
                lemma_swap_to_multiset(s, k as int, c as int);
            }
            arr[k] = child;
            arr[c] = top;
            assert(arr@ == s.update(k as int, s[c as int]).update(c as int, s[k as int]));
            let ghost t = arr@;
            assert forall|j: int|
                0 <= j < o.len() && (j >= n || !in_subtree(lo as int, j)) implies #[trigger] t[j] == o[j] by {
                assert(j != k && j != c);
                assert(s[j] == o[j]);
            }
            proof {
            if ordered_below(o, lo as int, lo as int, n as int) {
                assert forall|i: int|
                    0 < i < n && in_subtree(lo as int, parent(i)) && parent(i) != c implies #[trigger] leq(
                    t[i],
                    t[parent(i)],
                ) by {
                    if i == k {
                        if k == lo {
                            lemma_subtree_after_root(lo as int, parent(i));
                        }
                        assert(leq(s[c as int], s[parent(k as int)]));
                    }
                }
                assert forall|i: int| 0 < i < n && parent(i) == c implies #[trigger] leq(
                    t[i],
                    t[parent(c as int)],
                ) by {
                    assert(leq(s[i], s[parent(i)]));
                }
            }
            }
            assert forall|b: T| bounded_by(o, n as int, b) implies #[trigger] bounded_by(
                t,
                n as int,
                b,
            ) by {
                assert(bounded_by(s, n as int, b));
                assert(leq(s[k as int], b));
                assert(leq(s[c as int], b));
            }
            k = c;
        } else {
            proof {
            if ordered_below(o, lo as int, lo as int, n as int) {
                assert forall|i: int| 0 < i < n && in_subtree(lo as int, parent(i)) implies #[trigger] leq(
                    s[i],
                    s[parent(i)],
                ) by {
                    if parent(i) == k {
                        assert(leq(s[i], s[c as int]));
                        assert(leq(s[c as int], s[k as int]));
                    }
                }
            }
            }
            assert(leq(s[c as int], s[k as int]));
            if k == lo {
                assert(leq(s[left as int], s[c as int]));
                assert(left + 1 < n ==> leq(s[left + 1], s[c as int]));
                assert(settled(o, lo as int, n as int));
            }
            break;
        }
    }
    proof {
        let f = arr@;
        if subtrees_ordered(o, lo + 1, n as int) {
            assert(in_subtree(lo as int, lo as int));
            assert forall|j: int| 0 < j < n && in_subtree(lo as int, parent(j)) && parent(j) != lo implies #[trigger] leq(
                o[j],
                o[parent(j)],
            ) by {
                lemma_subtree_after_root(lo as int, parent(j));
            }
            assert forall|j: int| 0 < j < n && parent(j) >= lo implies #[trigger] leq(
                f[j],
                f[parent(j)],
            ) by {
                if !in_subtree(lo as int, parent(j)) {
                    assert(!in_subtree(lo as int, j));
                    assert(leq(o[j], o[parent(j)]));
                }
            }
        }
    }
}

/// Sorts `arr` into non-decreasing order in place.
pub fn heapsort<T: Ord + Copy>(arr: &mut [T])
    requires
        obeys_cmp::<T>(),
    ensures
        final(arr)@.len() == old(arr)@.len(),
        final(arr)@.to_multiset() == old(arr)@.to_multiset(),
        sorted(final(arr)@),
{
    proof {
        lemma_total_order::<T>();
    }
    let len = arr.len();
    let mut i = len / 2;
    while i > 0
        invariant
            obeys_cmp::<T>(),
            i <= len / 2,
            len == arr@.len(),
            subtrees_ordered(arr@, i as int, len as int),
            arr@.to_multiset() == old(arr)@.to_multiset(),
        decreases i,
    {
        i -= 1;
        sink(arr, i, len);
    }
    let mut n = len;
    while n > 1
        invariant
            obeys_cmp::<T>(),
            T::obeys_partial_cmp_spec(),
            forall|a: T, b: T, c: T| #[trigger] leq(a, b) && #[trigger] leq(b, c) ==> leq(a, c),
            n <= len == arr@.len(),
            len > 0 ==> n > 0,
            heap_ordered_upto(arr@, n as int),
            forall|p: int, q: int| n <= p < q < len ==> #[trigger] leq(arr@[p], arr@[q]),
            n < len ==> bounded_by(arr@, n as int, arr@[n as int]),
            arr@.to_multiset() == old(arr)@.to_multiset(),
        decreases n,
    {
        let ghost s = arr@;
        proof {
            lemma_root_bounds(s, n as int);
            lemma_swap_to_multiset(s, 0, n - 1);
        }
        let top = arr[0];
        let last = arr[n - 1];
        arr[0] = last;
        arr[n - 1] = top;
        assert(arr@ == s.update(0, s[n - 1]).update(n - 1, s[0]));
        n -= 1;
        let ghost t = arr@;
        assert(bounded_by(t, n as int, t[n as int])) by {
            assert forall|p: int| 0 <= p < n implies #[trigger] leq(t[p], t[n as int]) by {
                if p == 0 {
                    assert(leq(s[n as int], s[0]));
                } else {
                    assert(leq(s[p], s[0]));
                }
            }
        }
        assert forall|p: int, q: int| n <= p < q < len implies #[trigger] leq(t[p], t[q]) by {
            if p == n {
                assert(leq(s[0], s[n + 1]));
                if q > n + 1 {
                    assert(leq(s[n + 1], s[q]));
                }
            }
        }
        sink(arr, 0, n);
    }
    assert forall|p: int, q: int| 0 <= p < q < arr@.len() implies #[trigger] leq(
        arr@[p],
        arr@[q],
    ) by {
        if p < n {
            assert(leq(arr@[p], arr@[n as int]));
            if q > n {
                assert(leq(arr@[n as int], arr@[q]));
            }
        }
    }
}

/// Two sorted sequences with the same elements are the same sequence, when
/// equality under `Ord` is equality of values. In particular sorting a
/// sequence that is already sorted leaves it as it was.
pub proof fn lemma_sorted_is_unique<T: Ord>(s: Seq<T>, r: Seq<T>)
    requires
        obeys_cmp::<T>(),
        obeys_concrete_eq::<T>(),
        sorted(s),
        sorted(r),
        r.to_multiset() == s.to_multiset(),
    ensures
        r == s,
    decreases s.len(),
{
    broadcast use vstd::seq_lib::group_to_multiset_ensures;

    vstd::seq_lib::to_multiset_len(r);
    vstd::seq_lib::to_multiset_len(s);
    assert(r.len() == s.len());
    if s.len() == 0 {
        assert(r =~= s);
    } else {
        lemma_total_order::<T>();
        assert(r.to_multiset().count(r[0]) > 0);
        assert(s.to_multiset().count(r[0]) > 0);
        assert(s.contains(r[0]));
        let i = choose|i: int| 0 <= i < s.len() && s[i] == r[0];
        assert(leq(s[0], s[i]));
        assert(s.to_multiset().count(s[0]) > 0);
        assert(r.to_multiset().count(s[0]) > 0);
        assert(r.contains(s[0]));
        let j = choose|j: int| 0 <= j < r.len() && r[j] == s[0];
        assert(leq(r[0], r[j]));
        lemma_antisymmetric(s[0], r[0]);
        let s1 = s.remove(0);
        let r1 = r.remove(0);
        assert forall|p: int, q: int| 0 <= p < q < s1.len() implies #[trigger] leq(s1[p], s1[q]) by {
            assert(leq(s[p + 1], s[q + 1]));
        }
        assert forall|p: int, q: int| 0 <= p < q < r1.len() implies #[trigger] leq(r1[p], r1[q]) by {
            assert(leq(r[p + 1], r[q + 1]));
        }
        lemma_sorted_is_unique(s1, r1);
        assert forall|p: int| 0 < p < s.len() implies r[p] == s[p] by {
            assert(r[p] == r1[p - 1] && s[p] == s1[p - 1]);
        }
        assert(r =~= s);
    }
}

/// A sequence of at most one element is unchanged by any rearrangement: a
/// sort of such a sequence hands it back as it was.
pub proof fn lemma_short_is_unchanged<T>(s: Seq<T>, r: Seq<T>)
    requires
        s.len() <= 1,
        r.to_multiset() == s.to_multiset(),
    ensures
        r == s,
{
    broadcast use vstd::seq_lib::group_to_multiset_ensures;

    vstd::seq_lib::to_multiset_len(r);
    vstd::seq_lib::to_multiset_len(s);
    assert(r.len() == s.len());
    if s.len() == 1 {
        assert(r.to_multiset().count(r[0]) > 0);
        assert(s.to_multiset().count(r[0]) > 0);
        assert(s.contains(r[0]));
    }
    assert(r =~= s);
}

} // verus!
