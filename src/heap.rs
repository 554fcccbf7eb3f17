//! A growable binary max-heap stored in level order.
//!
//! The tree is kept 0-based: the children of index `i` are `2i + 1` and
//! `2i + 2`, and the parent of `i > 0` is `(i - 1) / 2`.
use crate::heap_sort::sink;
use crate::order::{is_greatest, leq, lemma_swap_to_multiset, lemma_total_order, less};
use vstd::laws_cmp::obeys_cmp;
use vstd::multiset::Multiset;
use vstd::prelude::*;
use vstd::std_specs::cmp::PartialOrdSpec;

verus! {

/// The index of the parent of node `i` (for `i > 0`).
pub open spec fn parent(i: int) -> int {
    (i - 1) / 2
}

/// Heap order on the first `n` entries: no node is greater than its
/// parent, so every node is at least as great as each of its children.
pub open spec fn heap_ordered_upto<T: PartialOrd>(s: Seq<T>, n: int) -> bool {
    forall|i: int| 0 < i < n ==> #[trigger] leq(s[i], s[parent(i)])
}

/// Heap order on the whole sequence.
pub open spec fn heap_ordered<T: PartialOrd>(s: Seq<T>) -> bool {
    heap_ordered_upto(s, s.len() as int)
}

/// Heap order on the first `n` entries between every node whose parent is
/// at `lo` or beyond and that parent: the subtrees rooted at `lo` and after
/// are heaps.
pub open spec fn subtrees_ordered<T: PartialOrd>(s: Seq<T>, lo: int, n: int) -> bool {
    forall|i: int| 0 < i < n && parent(i) >= lo ==> #[trigger] leq(s[i], s[parent(i)])
}

/// Node `i` lies in the subtree rooted at node `r`: it is `r` or a
/// descendant of `r`.
pub open spec fn in_subtree(r: int, i: int) -> bool
    decreases i,
{
    if i <= r || i <= 0 {
        i == r
    } else {
        in_subtree(r, parent(i))
    }
}

/// Within the first `n` entries, the subtree rooted at `r` is a heap.
pub open spec fn subtree_heap<T: PartialOrd>(s: Seq<T>, r: int, n: int) -> bool {
    forall|i: int| 0 < i < n && in_subtree(r, parent(i)) ==> #[trigger] leq(s[i], s[parent(i)])
}

/// Within the first `n` entries, the subtree rooted at `lo` is a heap
/// except between `k` and its children; when `k` is not `lo`, those
/// children are also no greater than the parent of `k`. With `k == lo` this
/// says that the subtrees of the children of `lo` are heaps: the state in
/// which `k` may still have to move down.
pub open spec fn ordered_below<T: PartialOrd>(s: Seq<T>, lo: int, k: int, n: int) -> bool {
    &&& forall|i: int|
        0 < i < n && in_subtree(lo, parent(i)) && parent(i) != k ==> #[trigger] leq(
            s[i],
            s[parent(i)],
        )
    &&& k != lo ==> forall|i: int|
        0 < i < n && parent(i) == k ==> #[trigger] leq(s[i], s[parent(k)])
}

/// Node `k` is no less than each of its children among the first `n`
/// entries.
pub open spec fn settled<T: PartialOrd>(s: Seq<T>, k: int, n: int) -> bool {
    &&& (2 * k + 1 < n ==> leq(s[2 * k + 1], s[k]))
    &&& (2 * k + 2 < n ==> leq(s[2 * k + 2], s[k]))
}

/// Of the children of `k` among the first `n` entries, the greater one,
/// the right one when the two are equal.
pub open spec fn greater_child<T: PartialOrd>(s: Seq<T>, k: int, n: int) -> int {
    if 2 * k + 2 < n && !less(s[2 * k + 2], s[2 * k + 1]) {
        2 * k + 2
    } else {
        2 * k + 1
    }
}

/// Every node of a subtree is at or after its root.
pub proof fn lemma_subtree_after_root(r: int, i: int)
    requires
        in_subtree(r, i),
    ensures
        r <= i,
    decreases i,
{
    if !(i <= r || i <= 0) {
        lemma_subtree_after_root(r, parent(i));
    }
}

/// A node in the subtree of `k > 0` is also in the subtree of the parent
/// of `k`.
pub proof fn lemma_subtree_of_parent(k: int, i: int)
    requires
        k > 0,
        in_subtree(k, i),
    ensures
        in_subtree(parent(k), i),
    decreases i,
{
    assert(in_subtree(parent(k), parent(k)));
    if i != k {
        lemma_subtree_of_parent(k, parent(i));
    }
}

/// None of the first `n` entries is greater than `b`.
pub open spec fn bounded_by<T: PartialOrd>(s: Seq<T>, n: int, b: T) -> bool {
    forall|i: int| 0 <= i < n ==> #[trigger] leq(s[i], b)
}

/// Heap order everywhere except between `k` and its parent, with the
/// children of `k` also no greater than the parent of `k`: the state in
/// which `k` may still have to move up.
pub open spec fn ordered_above<T: PartialOrd>(s: Seq<T>, k: int) -> bool {
    &&& forall|i: int| 0 < i < s.len() && i != k ==> #[trigger] leq(s[i], s[parent(i)])
    &&& k > 0 ==> forall|i: int|
        0 < i < s.len() && parent(i) == k ==> #[trigger] leq(s[i], s[parent(k)])
}

/// In a heap-ordered sequence the first element is greatest.
pub proof fn lemma_root_is_greatest<T: Ord>(s: Seq<T>)
    requires
        obeys_cmp::<T>(),
        heap_ordered(s),
        s.len() > 0,
    ensures
        is_greatest(s[0], s.to_multiset()),
{
    broadcast use vstd::seq_lib::group_to_multiset_ensures;

    lemma_root_bounds(s, s.len() as int);
    assert forall|y: T| s.to_multiset().contains(y) implies #[trigger] leq(y, s[0]) by {
        let i = choose|i: int| 0 <= i < s.len() && s[i] == y;
    }
}

/// The root of a heap-ordered prefix bounds the whole prefix.
pub proof fn lemma_root_bounds<T: Ord>(s: Seq<T>, n: int)
    requires
        obeys_cmp::<T>(),
        heap_ordered_upto(s, n),
        0 < n <= s.len(),
    ensures
        bounded_by(s, n, s[0]),
{
    assert forall|i: int| 0 <= i < n implies #[trigger] leq(s[i], s[0]) by {
        lemma_below_root(s, n, i);
    }
}

proof fn lemma_below_root<T: Ord>(s: Seq<T>, n: int, i: int)
    requires
        obeys_cmp::<T>(),
        heap_ordered_upto(s, n),
        0 <= i < n <= s.len(),
    ensures
        leq(s[i], s[0]),
    decreases i,
{
    lemma_total_order::<T>();
    if i > 0 {
        lemma_below_root(s, n, parent(i));
        assert(leq(s[i], s[parent(i)]));
    }
}

/// A binary max-heap over a totally ordered element type.
#[derive(Debug, Default)]
pub struct Heap<T> {
    heap: Vec<T>,
}

impl<T> View for Heap<T> {
    type V = Seq<T>;

    /// The elements in level order.
    closed spec fn view(&self) -> Seq<T> {
        self.heap@
    }
}

impl<T: Ord + Copy> Heap<T> {
    /// The heap invariant: its elements are in heap order.
    pub open spec fn well_formed(&self) -> bool {
        heap_ordered(self@)
    }

    /// Constructs a new empty heap.
    pub fn new() -> (r: Heap<T>)
        ensures
            r@ == Seq::<T>::empty(),
            r.well_formed(),
    {
        Heap { heap: Vec::new() }
    }

    /// The number of elements.
    pub fn size(&self) -> (r: usize)
        ensures
            r == self@.len(),
    {
        self.heap.len()
    }

    /// Whether the heap holds no element.
    pub fn is_empty(&self) -> (r: bool)
        ensures
            r == (self@.len() == 0),
    {
        self.heap.len() == 0
    }

    /// Builds a heap from all the elements of `vec`, in linear time, by
    /// sinking every inner node, last first.
    pub fn heapify(vec: Vec<T>) -> (r: Heap<T>)
        requires
            obeys_cmp::<T>(),
        ensures
            r.well_formed(),
            r@.to_multiset() == vec@.to_multiset(),
    {
        let mut h = Heap { heap: vec };
        let len = h.heap.len();
        let mut i = len / 2;
        while i > 0
            invariant
                obeys_cmp::<T>(),
                i <= len / 2,
                len == h@.len(),
                subtrees_ordered(h@, i as int, len as int),
                h@.to_multiset() == vec@.to_multiset(),
            decreases i,
        {
            i -= 1;
            h.sink(i);
        }
        h
    }

    /// Removes and returns the greatest element, or `None` when the heap is
    /// empty.
    pub fn pop(&mut self) -> (r: Option<T>)
        requires
            obeys_cmp::<T>(),
            old(self).well_formed(),
        ensures
            final(self).well_formed(),
            old(self)@.len() == 0 ==> r is None && final(self)@ == old(self)@,
            old(self)@.len() > 0 ==> {
                &&& r == Some(old(self)@[0])
                &&& final(self)@.len() == old(self)@.len() - 1
                &&& is_greatest(old(self)@[0], old(self)@.to_multiset())
                &&& final(self)@.to_multiset() == old(self)@.to_multiset().remove(old(self)@[0])
            },
    {
        broadcast use vstd::seq_lib::group_to_multiset_ensures;
        broadcast use vstd::multiset::group_multiset_axioms;

        proof {
            if self@.len() > 0 {
                lemma_root_is_greatest(self@);
            }
        }
        let ghost s = self@;
        match self.heap.pop() {
            None => None,
            Some(last) => {
                let ghost d = self@;
                assert(s == d.push(last));
                if self.heap.len() == 0 {
                    assert(self@.to_multiset() =~= s.to_multiset().remove(s[0]));
                    Some(last)
                } else {
                    let res = self.heap[0];
                    self.heap[0] = last;
                    assert(self@.to_multiset() == d.to_multiset().insert(last).remove(d[0]));
                    assert(self@.to_multiset() == s.to_multiset().remove(s[0]));
                    self.sink(0);
                    Some(res)
                }
            },
        }
    }

    /// The greatest element, or `None` when the heap is empty. The heap is
    /// left as it is.
    pub fn peek(&self) -> (r: Option<T>)
        requires
            obeys_cmp::<T>(),
            self.well_formed(),
        ensures
            self@.len() == 0 ==> r is None,
            self@.len() > 0 ==> r == Some(self@[0]) && is_greatest(self@[0], self@.to_multiset()),
    {
        proof {
            if self@.len() > 0 {
                lemma_root_is_greatest(self@);
            }
        }
        if self.heap.len() > 0 {
            Some(self.heap[0])
        } else {
            None
        }
    }

    /// Moves the element at `k` down, swapping it with its greater child
    /// (the right one when the two are equal) while that child is greater.
    /// Only entries of the subtree rooted at `k` may move. When the subtrees
    /// of the children of `k` are heaps, the subtree of `k` is a heap
    /// afterwards.
    fn sink(&mut self, k: usize)
        requires
            obeys_cmp::<T>(),
            k < old(self)@.len(),
        ensures
            final(self)@.len() == old(self)@.len(),
            final(self)@.to_multiset() == old(self)@.to_multiset(),
            forall|j: int|
                0 <= j < old(self)@.len() && !in_subtree(k as int, j) ==> #[trigger] final(self)@[j]
                    == old(self)@[j],
            settled(old(self)@, k as int, old(self)@.len() as int) ==> final(self)@ == old(self)@,
            !settled(old(self)@, k as int, old(self)@.len() as int) ==> final(self)@[k as int] == old(
                self,
            )@[greater_child(old(self)@, k as int, old(self)@.len() as int)],
            ordered_below(old(self)@, k as int, k as int, old(self)@.len() as int) ==> subtree_heap(
                final(self)@,
                k as int,
                old(self)@.len() as int,
            ),
            subtrees_ordered(old(self)@, k + 1, old(self)@.len() as int) ==> subtrees_ordered(
                final(self)@,
                k as int,
                old(self)@.len() as int,
            ),
    {
        let n = self.heap.len();
        sink(self.heap.as_mut_slice(), k, n);
    }

    /// Moves the element at `k` up until heap order holds again. Only the
    /// entries on the path from `k` up to the root may change.
    fn swim(&mut self, k: usize)
        requires
            obeys_cmp::<T>(),
            k < old(self)@.len(),
            ordered_above(old(self)@, k as int),
        ensures
            final(self).well_formed(),
            final(self)@.to_multiset() == old(self)@.to_multiset(),
            final(self)@.len() == old(self)@.len(),
            forall|j: int|
                0 <= j < old(self)@.len() && !in_subtree(j, k as int) ==> #[trigger] final(self)@[j]
                    == old(self)@[j],
    {
        proof {
            lemma_total_order::<T>();
        }
        let ghost start = k as int;
        assert(in_subtree(start, start));
        let mut k = k;
        while k > 0
            invariant
                obeys_cmp::<T>(),
                k < self@.len(),
                in_subtree(k as int, start),
                forall|j: int|
                    0 <= j < self@.len() && !in_subtree(j, start) ==> #[trigger] self@[j] == old(
                        self,
                    )@[j],
                ordered_above(self@, k as int),
                self@.to_multiset() == old(self)@.to_multiset(),
                self@.len() == old(self)@.len(),
                forall|a: T| #[trigger] leq(a, a),
                forall|a: T, b: T| #[trigger] less(a, b) ==> leq(a, b),
                forall|a: T, b: T, c: T| #[trigger] leq(a, b) && #[trigger] leq(b, c) ==> leq(a, c),
                T::obeys_partial_cmp_spec(),
            ensures
                self.well_formed(),
                self@.to_multiset() == old(self)@.to_multiset(),
                self@.len() == old(self)@.len(),
                forall|j: int|
                    0 <= j < self@.len() && !in_subtree(j, start) ==> #[trigger] self@[j] == old(
                        self,
                    )@[j],
            decreases k,
        {
            let p = (k - 1) / 2;
            let up = self.heap[k];
            let down = self.heap[p];
            if down < up {
                proof {
                    lemma_swap_to_multiset(self@, p as int, k as int);
                }
                let ghost s = self@;
                self.heap[p] = up;
                self.heap[k] = down;
                assert(self@ == s.update(p as int, s[k as int]).update(k as int, s[p as int]));
                let ghost t = self@;
                proof {
                    lemma_subtree_of_parent(k as int, start);
                }
                assert forall|j: int|
                    0 <= j < t.len() && !in_subtree(j, start) implies #[trigger] t[j] == old(self)@[j] by {
                    assert(j != k && j != p);
                    assert(s[j] == old(self)@[j]);
                }
                assert(leq(s[p as int], s[k as int]));
                assert forall|i: int| 0 < i < t.len() && i != p implies #[trigger] leq(
                    t[i],
                    t[parent(i)],
                ) by {
                    if i != k && parent(i) == p {
                        assert(leq(s[i], s[p as int]));
                    } else if parent(i) == k {
                        assert(leq(s[i], s[parent(k as int)]));
                    }
                }
                assert forall|i: int| p > 0 && 0 < i < t.len() && parent(i) == p implies #[trigger] leq(
                    t[i],
                    t[parent(p as int)],
                ) by {
                    assert(leq(s[p as int], s[parent(p as int)]));
                    if i != k {
                        assert(leq(s[i], s[p as int]));
                    }
                }
                k = p;
            } else {
                break;
            }
        }
    }

    /// Inserts `val` into the heap.
    pub fn insert(&mut self, val: T)
        requires
            obeys_cmp::<T>(),
            old(self).well_formed(),
        ensures
            final(self).well_formed(),
            final(self)@.len() == old(self)@.len() + 1,
            final(self)@.to_multiset() == old(self)@.to_multiset().insert(val),
    {
        broadcast use vstd::seq_lib::group_to_multiset_ensures;

        self.heap.push(val);
        let k = self.heap.len() - 1;
        self.swim(k);
    }
}

/// Every node of a well-formed heap is at least as great as each child
/// that it has: the one at `2i + 1` and the one at `2i + 2`.
pub proof fn lemma_children_not_greater<T: Ord + Copy>(h: Heap<T>)
    requires
        h.well_formed(),
    ensures
        forall|i: int| 0 <= i && 2 * i + 1 < h@.len() ==> #[trigger] leq(h@[2 * i + 1], h@[i]),
        forall|i: int| 0 <= i && 2 * i + 2 < h@.len() ==> #[trigger] leq(h@[2 * i + 2], h@[i]),
{
    assert forall|i: int| 0 <= i && 2 * i + 1 < h@.len() implies #[trigger] leq(h@[2 * i + 1], h@[i]) by {
        assert(parent(2 * i + 1) == i);
    }
    assert forall|i: int| 0 <= i && 2 * i + 2 < h@.len() implies #[trigger] leq(h@[2 * i + 2], h@[i]) by {
        assert(parent(2 * i + 2) == i);
    }
}

/// A run that starts from an empty heap, inserts `vals` one after another,
/// then pops `outs.len()` times, as `insert` and `pop` describe each step.
/// `fills[j]` is the heap after `j` inserts; `drains[j]` the heap after `j`
/// pops, `drains[0]` being the last of `fills`; `outs[j]` is what pop `j`
/// returned when the heap was not empty.
pub open spec fn insert_pop_run<T: PartialOrd>(
    vals: Seq<T>,
    fills: Seq<Seq<T>>,
    outs: Seq<T>,
    drains: Seq<Seq<T>>,
) -> bool {
    &&& fills.len() == vals.len() + 1
    &&& fills[0].len() == 0
    &&& forall|j: int|
        0 < j <= vals.len() ==> #[trigger] fills[j].to_multiset() == fills[j - 1].to_multiset().insert(
            vals[j - 1],
        )
    &&& drains.len() == outs.len() + 1
    &&& outs.len() <= vals.len()
    &&& drains[0] == fills[vals.len() as int]
    &&& forall|j: int| 0 <= j < drains.len() ==> heap_ordered(#[trigger] drains[j])
    &&& forall|j: int|
        0 < j <= outs.len() && drains[j - 1].len() > 0 ==> {
            &&& outs[j - 1] == drains[j - 1][0]
            &&& #[trigger] drains[j].to_multiset() == drains[j - 1].to_multiset().remove(outs[j - 1])
        }
}

proof fn lemma_fills<T: PartialOrd>(vals: Seq<T>, fills: Seq<Seq<T>>, outs: Seq<T>, drains: Seq<Seq<T>>, k: int)
    requires
        insert_pop_run(vals, fills, outs, drains),
        0 <= k <= vals.len(),
    ensures
        fills[k].to_multiset() == vals.take(k).to_multiset(),
        fills[k].len() == k,
    decreases k,
{
    broadcast use vstd::seq_lib::group_to_multiset_ensures;
    broadcast use vstd::multiset::group_multiset_axioms;

    if k == 0 {
        assert(fills[0] =~= Seq::<T>::empty());
        assert(vals.take(0) =~= Seq::<T>::empty());
    } else {
        lemma_fills(vals, fills, outs, drains, k - 1);
        assert(vals.take(k) =~= vals.take(k - 1).push(vals[k - 1]));
        assert(fills[k].to_multiset() == fills[k - 1].to_multiset().insert(vals[k - 1]));
        vstd::seq_lib::to_multiset_len(fills[k]);
        vstd::seq_lib::to_multiset_len(fills[k - 1]);
    }
}

proof fn lemma_drains<T: Ord>(vals: Seq<T>, fills: Seq<Seq<T>>, outs: Seq<T>, drains: Seq<Seq<T>>, k: int)
    requires
        obeys_cmp::<T>(),
        insert_pop_run(vals, fills, outs, drains),
        0 <= k <= outs.len(),
    ensures
        drains[k].len() == vals.len() - k,
        drains[k].to_multiset().add(outs.take(k).to_multiset()) == vals.to_multiset(),
        k > 0 ==> is_greatest(outs[k - 1], drains[k - 1].to_multiset()),
        k > 1 ==> leq(outs[k - 1], outs[k - 2]),
    decreases k,
{
    broadcast use vstd::seq_lib::group_to_multiset_ensures;
    broadcast use vstd::multiset::group_multiset_axioms;

    if k == 0 {
        lemma_fills(vals, fills, outs, drains, vals.len() as int);
        assert(vals.take(vals.len() as int) =~= vals);
        assert(outs.take(0) =~= Seq::<T>::empty());
        assert(drains[0].to_multiset().add(outs.take(0).to_multiset()) =~= vals.to_multiset());
    } else {
        lemma_drains(vals, fills, outs, drains, k - 1);
        let d = drains[k - 1];
        assert(heap_ordered(d));
        lemma_root_is_greatest(d);
        let x = outs[k - 1];
        assert(drains[k].to_multiset() == d.to_multiset().remove(x));
        assert(d.to_multiset().count(x) > 0);
        vstd::seq_lib::to_multiset_len(drains[k]);
        vstd::seq_lib::to_multiset_len(d);
        assert(outs.take(k) =~= outs.take(k - 1).push(x));
        assert(drains[k].to_multiset().add(outs.take(k).to_multiset()) =~= d.to_multiset().add(
            outs.take(k - 1).to_multiset(),
        ));
        if k > 1 {
            let e = drains[k - 2];
            assert(heap_ordered(e));
            lemma_root_is_greatest(e);
            assert(d.to_multiset() == e.to_multiset().remove(outs[k - 2]));
            assert(d.to_multiset().count(d[0]) > 0);
            assert(e.to_multiset().count(x) > 0);
        }
    }
}

/// How many of `ops` are inserts (`Some(v)` inserts `v`, `None` pops).
pub open spec fn count_inserts<T>(ops: Seq<Option<T>>) -> int
    decreases ops.len(),
{
    if ops.len() == 0 {
        0
    } else {
        count_inserts(ops.drop_last()) + if ops.last() is Some {
            1int
        } else {
            0int
        }
    }
}

/// A run that starts from an empty heap and applies `ops` in order, as
/// `insert` and `pop` describe each step: `Some(v)` inserts `v`, `None`
/// pops a heap that is not empty. `states[j]` is the heap after `j` steps.
pub open spec fn mixed_run<T>(ops: Seq<Option<T>>, states: Seq<Seq<T>>) -> bool {
    &&& states.len() == ops.len() + 1
    &&& states[0].len() == 0
    &&& forall|j: int|
        0 < j <= ops.len() ==> match ops[j - 1] {
            Some(v) => #[trigger] states[j].to_multiset() == states[j - 1].to_multiset().insert(v),
            None => {
                &&& states[j - 1].len() > 0
                &&& states[j].to_multiset() == states[j - 1].to_multiset().remove(states[j - 1][0])
            },
        }
}

/// After `k` inserts and `m` pops, in any order, starting from an empty
/// heap and popping only while it is not empty, the heap holds `k - m`
/// elements.
pub proof fn lemma_size_after_run<T>(ops: Seq<Option<T>>, states: Seq<Seq<T>>)
    requires
        mixed_run(ops, states),
    ensures
        forall|j: int|
            0 <= j <= ops.len() ==> #[trigger] states[j].len() == count_inserts(ops.take(j)) - (j
                - count_inserts(ops.take(j))),
{
    assert forall|j: int| 0 <= j <= ops.len() implies #[trigger] states[j].len() == count_inserts(
        ops.take(j),
    ) - (j - count_inserts(ops.take(j))) by {
        lemma_size_at(ops, states, j);
    }
}

proof fn lemma_size_at<T>(ops: Seq<Option<T>>, states: Seq<Seq<T>>, j: int)
    requires
        mixed_run(ops, states),
        0 <= j <= ops.len(),
    ensures
        states[j].len() == count_inserts(ops.take(j)) - (j - count_inserts(ops.take(j))),
    decreases j,
{
    broadcast use vstd::seq_lib::group_to_multiset_ensures;
    broadcast use vstd::multiset::group_multiset_axioms;

    if j == 0 {
        assert(ops.take(0).len() == 0);
    } else {
        lemma_size_at(ops, states, j - 1);
        assert(ops.take(j).drop_last() =~= ops.take(j - 1));
        assert(ops.take(j).last() == ops[j - 1]);
        vstd::seq_lib::to_multiset_len(states[j]);
        vstd::seq_lib::to_multiset_len(states[j - 1]);
        if ops[j - 1] is None {
            let d = states[j - 1];
            assert(d.to_multiset().count(d[0]) > 0);
        }
    }
}

/// Successive pops return values in non-increasing order, and after `k`
/// inserts into an empty heap, `k` pops return exactly the inserted values.
pub proof fn lemma_pops_in_order<T: Ord>(vals: Seq<T>, fills: Seq<Seq<T>>, outs: Seq<T>, drains: Seq<Seq<T>>)
    requires
        obeys_cmp::<T>(),
        insert_pop_run(vals, fills, outs, drains),
    ensures
        forall|i: int, j: int| 0 <= i < j < outs.len() ==> #[trigger] leq(outs[j], outs[i]),
        outs.len() == vals.len() ==> outs.to_multiset() == vals.to_multiset(),
{
    broadcast use vstd::seq_lib::group_to_multiset_ensures;
    broadcast use vstd::multiset::group_multiset_axioms;

    lemma_total_order::<T>();
    assert forall|i: int, j: int| 0 <= i < j < outs.len() implies #[trigger] leq(outs[j], outs[i]) by {
        lemma_pops_descend(vals, fills, outs, drains, i, j);
    }
    if outs.len() == vals.len() {
        let m = outs.len() as int;
        lemma_drains(vals, fills, outs, drains, m);
        vstd::seq_lib::to_multiset_len(drains[m]);
        assert(drains[m].to_multiset() =~= Multiset::empty());
        assert(outs.take(m) =~= outs);
        assert(outs.to_multiset() =~= vals.to_multiset());
    }
}

proof fn lemma_pops_descend<T: Ord>(
    vals: Seq<T>,
    fills: Seq<Seq<T>>,
    outs: Seq<T>,
    drains: Seq<Seq<T>>,
    i: int,
    j: int,
)
    requires
        obeys_cmp::<T>(),
        insert_pop_run(vals, fills, outs, drains),
        0 <= i < j < outs.len(),
    ensures
        leq(outs[j], outs[i]),
    decreases j - i,
{
    lemma_total_order::<T>();
    lemma_drains(vals, fills, outs, drains, j + 1);
    if j > i + 1 {
        lemma_pops_descend(vals, fills, outs, drains, i, j - 1);
    }
}

} // verus!
