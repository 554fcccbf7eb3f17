//! The total order that `T: Ord` stands for, stated over vstd's comparison
//! specs, and the facts about it that the heap proofs rely on.
use core::cmp::Ordering;
use vstd::laws_cmp::*;
use vstd::laws_eq::*;
use vstd::multiset::Multiset;
use vstd::std_specs::cmp::{OrdSpec, PartialEqSpec, PartialOrdSpec};
use vstd::prelude::*;

verus! {

/// `a` is strictly below `b`, as `a < b` reports it.
pub open spec fn less<T: PartialOrd>(a: T, b: T) -> bool {
    a.partial_cmp_spec(&b) == Some(Ordering::Less)
}

/// `a` is at most `b`.
pub open spec fn leq<T: PartialOrd>(a: T, b: T) -> bool {
    !less(b, a)
}

/// Every element of `m` is at most `x`.
pub open spec fn is_upper_bound<T: PartialOrd>(x: T, m: Multiset<T>) -> bool {
    forall|y: T| m.contains(y) ==> #[trigger] leq(y, x)
}

/// `x` is a greatest element of `m`.
pub open spec fn is_greatest<T: PartialOrd>(x: T, m: Multiset<T>) -> bool {
    m.contains(x) && is_upper_bound(x, m)
}

/// `s` is in non-decreasing order.
pub open spec fn sorted<T: PartialOrd>(s: Seq<T>) -> bool {
    forall|i: int, j: int| 0 <= i < j < s.len() ==> #[trigger] leq(s[i], s[j])
}

/// For a type whose `Ord` behaves lawfully, `leq` is a total preorder and
/// `less` is its strict part.
pub proof fn lemma_total_order<T: Ord>()
    requires
        obeys_cmp::<T>(),
    ensures
        T::obeys_partial_cmp_spec(),
        forall|a: T| #[trigger] leq(a, a),
        forall|a: T, b: T| #[trigger] leq(a, b) || leq(b, a),
        forall|a: T, b: T| #[trigger] less(a, b) ==> leq(a, b),
        forall|a: T, b: T, c: T| #[trigger] leq(a, b) && #[trigger] leq(b, c) ==> leq(a, c),
{
    reveal(obeys_partial_cmp_spec_properties);
    reveal(obeys_cmp_ord);
    reveal(obeys_eq_spec_properties);
    reveal(obeys_cmp_partial_ord);
    assert forall|a: T| #[trigger] leq(a, a) by {
        assert(a.partial_cmp_spec(&a) == Some(a.cmp_spec(&a)));
    }
    assert forall|a: T, b: T| #[trigger] leq(a, b) || leq(b, a) by {
        assert(a.partial_cmp_spec(&b) == Some(a.cmp_spec(&b)));
    }
    assert forall|a: T, b: T, c: T| #[trigger] leq(a, b) && #[trigger] leq(b, c) implies leq(
        a,
        c,
    ) by {
        assert(a.partial_cmp_spec(&b) == Some(a.cmp_spec(&b)));
        assert(b.partial_cmp_spec(&c) == Some(b.cmp_spec(&c)));
        assert(a.partial_cmp_spec(&c) == Some(a.cmp_spec(&c)));
        assert(b.partial_cmp_spec(&a) == Some(b.cmp_spec(&a)));
        assert(c.partial_cmp_spec(&b) == Some(c.cmp_spec(&b)));
        assert(c.partial_cmp_spec(&a) == Some(c.cmp_spec(&a)));
    }
}

/// When equality under `Ord` is equality of values, two elements each at
/// most the other are the same value.
pub proof fn lemma_antisymmetric<T: Ord>(a: T, b: T)
    requires
        obeys_cmp::<T>(),
        obeys_concrete_eq::<T>(),
        leq(a, b),
        leq(b, a),
    ensures
        a == b,
{
    reveal(obeys_partial_cmp_spec_properties);
    reveal(obeys_cmp_ord);
    reveal(obeys_cmp_partial_ord);
    reveal(obeys_concrete_eq);
    assert(a.partial_cmp_spec(&b) == Some(a.cmp_spec(&b)));
    assert(b.partial_cmp_spec(&a) == Some(b.cmp_spec(&a)));
    assert(a.eq_spec(&b));
}

/// Exchanging two entries of a sequence keeps its multiset.
pub proof fn lemma_swap_to_multiset<T>(s: Seq<T>, i: int, j: int)
    requires
        0 <= i < s.len(),
        0 <= j < s.len(),
    ensures
        s.update(i, s[j]).update(j, s[i]).to_multiset() == s.to_multiset(),
{
    broadcast use vstd::seq_lib::group_to_multiset_ensures;
    broadcast use vstd::multiset::group_multiset_axioms;

    let t = s.update(i, s[j]);
    assert(t.to_multiset() == s.to_multiset().insert(s[j]).remove(s[i]));
    assert(t.update(j, s[i]).to_multiset() == t.to_multiset().insert(s[i]).remove(t[j]));
    assert(t.update(j, s[i]).to_multiset() =~= s.to_multiset());
}

} // verus!
