use vstd::prelude::*;
use crate::order::{lawful_order, comparisons_obeyed, greater, not_greater};
use crate::order::{lemma_comparisons_obeyed, lemma_not_greater_refl, lemma_not_greater_trans};
use crate::order::{lemma_greater_flip, lemma_greater_trans, lemma_greater_above, equivalent};
use vstd::seq_lib::to_multiset_contains;
use vstd::seq_lib::to_multiset_len;

verus! {

/// The product `1 * 2 * ... * n` (and `1` for `n == 0`).
pub open spec fn spec_factorial(n: nat) -> nat
    decreases n,
{
    if n == 0 {
        1
    } else {
        n * spec_factorial((n - 1) as nat)
    }
}

/// Product of all integers from `1` to `n` inclusive.
pub fn factorial(n: u64) -> (r: u64)
    requires
        spec_factorial(n as nat) <= u64::MAX,
    ensures
        r == spec_factorial(n as nat),
{
    let mut acc: u64 = 1;
    let mut k: u64 = 0;
    while k < n
        invariant
            k <= n,
            acc == spec_factorial(k as nat),
            spec_factorial(n as nat) <= u64::MAX,
        decreases n - k,
    {
        k = k + 1;
        proof {
            lemma_factorial_monotone(k as nat, n as nat);
            let f = spec_factorial(k as nat);
            let g = spec_factorial((k - 1) as nat);
            assert(f == k * g);
            assert(acc * k == f) by (nonlinear_arith)
                requires acc == g, f == k * g;
        }
        acc = acc * k;
    }
    acc
}

/// `spec_factorial` never decreases as its argument grows.
pub proof fn lemma_factorial_monotone(i: nat, j: nat)
    requires
        i <= j,
    ensures
        spec_factorial(i) <= spec_factorial(j),
    decreases j - i,
{
    if i < j {
        lemma_factorial_monotone(i, (j - 1) as nat);
        lemma_factorial_positive((j - 1) as nat);
        assert(spec_factorial(j) == j * spec_factorial((j - 1) as nat));
        assert(j * spec_factorial((j - 1) as nat) >= spec_factorial((j - 1) as nat)) by (nonlinear_arith)
            requires j >= 1;
    }
}

/// `spec_factorial` is at least one.
pub proof fn lemma_factorial_positive(n: nat)
    ensures
        spec_factorial(n) >= 1,
    decreases n,
{
    if n > 0 {
        lemma_factorial_positive((n - 1) as nat);
        assert(n * spec_factorial((n - 1) as nat) >= 1) by (nonlinear_arith)
            requires n >= 1, spec_factorial((n - 1) as nat) >= 1;
    }
}

/// `k` is the position of the first largest element of `s`: nothing in `s` is greater
/// than `s[k]`, and `s[k]` is greater than everything before it.
pub open spec fn is_first_largest<T: Ord>(s: Seq<T>, k: int) -> bool {
    &&& 0 <= k < s.len()
    &&& forall|i: int| 0 <= i < s.len() ==> not_greater(#[trigger] s[i], s[k])
    &&& forall|i: int| 0 <= i < k ==> greater(s[k], #[trigger] s[i])
}

/// A sequence has at most one position of its first largest element.
pub proof fn lemma_first_largest_unique<T: Ord>(s: Seq<T>, k1: int, k2: int)
    requires
        lawful_order::<T>(),
        is_first_largest(s, k1),
        is_first_largest(s, k2),
    ensures
        k1 == k2,
{
    if k1 < k2 {
        assert(greater(s[k2], s[k1]));
        assert(not_greater(s[k2], s[k1]));
    } else if k2 < k1 {
        assert(greater(s[k1], s[k2]));
        assert(not_greater(s[k1], s[k2]));
    }
}

/// The largest element does not depend on the order of the collection: two collections
/// that hold the same elements are both empty or both not, and their first largest
/// elements compare equal.
pub proof fn law_largest_of_permutation<T: Ord>(a: Seq<T>, b: Seq<T>)
    requires
        lawful_order::<T>(),
        a.to_multiset() == b.to_multiset(),
    ensures
        a.len() == 0 <==> b.len() == 0,
        forall|i: int, j: int|
            is_first_largest(a, i) && is_first_largest(b, j) ==> equivalent(
                #[trigger] a[i],
                #[trigger] b[j],
            ),
{
    to_multiset_len(a);
    to_multiset_len(b);
    assert forall|i: int, j: int|
        is_first_largest(a, i) && is_first_largest(b, j) implies equivalent(
        #[trigger] a[i],
        #[trigger] b[j],
    ) by {
        to_multiset_contains(a, a[i]);
        to_multiset_contains(b, a[i]);
        assert(a.contains(a[i]));
        let k = choose|k: int| 0 <= k < b.len() && b[k] == a[i];
        assert(not_greater(b[k], b[j]));
        to_multiset_contains(b, b[j]);
        to_multiset_contains(a, b[j]);
        assert(b.contains(b[j]));
        let m = choose|m: int| 0 <= m < a.len() && a[m] == b[j];
        assert(not_greater(a[m], a[i]));
    }
}

/// Position of the first largest element of a non-empty slice: the running maximum is
/// replaced only by an element strictly greater than it.
fn index_of_largest<T: Ord>(arr: &[T]) -> (k: usize)
    requires
        lawful_order::<T>(),
        arr@.len() > 0,
    ensures
        is_first_largest(arr@, k as int),
{
    proof {
        lemma_comparisons_obeyed::<T>();
        lemma_not_greater_refl(arr@[0]);
    }
    let n = arr.len();
    let mut largest: usize = 0;
    let mut k: usize = 1;
    while k < n
        invariant
            lawful_order::<T>(),
            comparisons_obeyed::<T>(),
            n == arr@.len(),
            0 <= largest < k <= n,
            forall|i: int| 0 <= i < k ==> not_greater(#[trigger] arr@[i], arr@[largest as int]),
            forall|i: int| 0 <= i < largest ==> greater(arr@[largest as int], #[trigger] arr@[i]),
        decreases n - k,
    {
        if arr[k] > arr[largest] {
            proof {
                let s = arr@;
                let old_l = largest as int;
                lemma_greater_flip(s[k as int], s[old_l]);
                lemma_not_greater_refl(s[k as int]);
                assert forall|i: int| 0 <= i < k + 1 implies not_greater(#[trigger] s[i], s[k as int]) by {
                    if i < k {
                        lemma_not_greater_trans(s[i], s[old_l], s[k as int]);
                    }
                }
                assert forall|i: int| 0 <= i < k implies greater(s[k as int], #[trigger] s[i]) by {
                    if i < old_l {
                        lemma_greater_trans(s[k as int], s[old_l], s[i]);
                    } else {
                        lemma_greater_above(s[i], s[old_l], s[k as int]);
                    }
                }
            }
            largest = k;
        }
        k += 1;
    }
    largest
}

/// The largest element of the collection (the first one, when several compare equal), as
/// a clone; `None` for an empty collection.
pub fn find_largest_helper<T: Ord + Clone>(collection: &[T]) -> (r: Option<T>)
    requires
        lawful_order::<T>(),
    ensures
        r is None <==> collection@.len() == 0,
        r matches Some(v) ==> exists|k: int|
            is_first_largest(collection@, k) && cloned(#[trigger] collection@[k], v),
{
    if collection.is_empty() {
        return None;
    }
    let k = index_of_largest(collection);
    let v = collection[k].clone();
    Some(v)
}

/// The largest element of a non-empty collection (the first one, when several compare
/// equal), as a clone.
pub fn find_largest<T: Ord + Clone>(collection: &[T]) -> (v: T)
    requires
        lawful_order::<T>(),
        collection@.len() > 0,
    ensures
        exists|k: int| is_first_largest(collection@, k) && cloned(#[trigger] collection@[k], v),
{
    let r = find_largest_helper(collection);
    r.unwrap()
}

} // verus!
