use vstd::prelude::*;
use vstd::laws_cmp::obeys_cmp;
use vstd::laws_cmp::obeys_partial_cmp_spec_properties;
use vstd::laws_cmp::obeys_cmp_partial_ord;
use vstd::laws_cmp::obeys_cmp_ord;
use vstd::laws_eq::obeys_eq_spec_properties;
use core::cmp::Ordering;
use vstd::std_specs::cmp::PartialOrdSpec;
use vstd::std_specs::cmp::PartialEqSpec;
use vstd::std_specs::cmp::OrdSpec;

verus! {

/// The type's `Ord` implementation is a lawful total order, as the `Ord` documentation
/// asks of every implementation: comparisons are consistent with `==`, antisymmetric,
/// transitive and total.
pub open spec fn lawful_order<T: Ord>() -> bool {
    obeys_cmp::<T>()
}

/// `x > y` as the type's comparison decides it.
pub open spec fn greater<T: Ord>(x: T, y: T) -> bool {
    x.partial_cmp_spec(&y) == Some(Ordering::Greater)
}

/// `x <= y`, that is, `x` is not greater than `y`.
pub open spec fn not_greater<T: Ord>(x: T, y: T) -> bool {
    !greater(x, y)
}

/// The elements of `s` at positions `lo..hi` are in non-decreasing order.
pub open spec fn sorted_between<T: Ord>(s: Seq<T>, lo: int, hi: int) -> bool {
    forall|p: int, q: int| lo <= p < q < hi ==> not_greater(#[trigger] s[p], #[trigger] s[q])
}

/// The whole sequence is in non-decreasing order.
pub open spec fn sorted<T: Ord>(s: Seq<T>) -> bool {
    sorted_between(s, 0, s.len() as int)
}

/// Under a lawful order, "not greater" is transitive.
pub proof fn lemma_not_greater_trans<T: Ord>(x: T, y: T, z: T)
    requires
        lawful_order::<T>(),
        not_greater(x, y),
        not_greater(y, z),
    ensures
        not_greater(x, z),
{
    reveal(obeys_partial_cmp_spec_properties);
    reveal(obeys_cmp_partial_ord);
    reveal(obeys_cmp_ord);
    reveal(obeys_eq_spec_properties);
    let xy = x.partial_cmp_spec(&y);
    let yz = y.partial_cmp_spec(&z);
    let xz = x.partial_cmp_spec(&z);
    let zx = z.partial_cmp_spec(&x);
    let zy = z.partial_cmp_spec(&y);
    let yx = y.partial_cmp_spec(&x);
    assert(xy == Some(x.cmp_spec(&y)));
    assert(yz == Some(y.cmp_spec(&z)));
    assert(xz == Some(x.cmp_spec(&z)));
    assert(zy == Some(z.cmp_spec(&y)));
    if xz == Some(Ordering::Greater) {
        assert(zx == Some(Ordering::Less));
        if yz == Some(Ordering::Equal) {
            assert(y.eq_spec(&z));
            assert(z.eq_spec(&y));
            assert(zy == Some(Ordering::Equal));
            if xy == Some(Ordering::Equal) {
                assert(x.eq_spec(&y));
                assert(x.eq_spec(&z));
                assert(false);
            } else {
                assert(xy == Some(Ordering::Less));
                assert(zy == Some(Ordering::Less));
                assert(false);
            }
        } else {
            assert(yz == Some(Ordering::Less));
            assert(zy == Some(Ordering::Greater));
            assert(x.partial_cmp_spec(&y) == Some(Ordering::Greater));
            assert(false);
        }
    }
}

/// Under a lawful order, `x > y` implies `y <= x`.
pub proof fn lemma_greater_flip<T: Ord>(x: T, y: T)
    requires
        lawful_order::<T>(),
        greater(x, y),
    ensures
        not_greater(y, x),
{
    reveal(obeys_partial_cmp_spec_properties);
    assert(y.partial_cmp_spec(&x) == Some(Ordering::Less));
}

/// `x <= y` as the type's comparison decides it.
pub open spec fn at_most<T: Ord>(x: T, y: T) -> bool {
    x.partial_cmp_spec(&y) matches Some(Ordering::Less | Ordering::Equal)
}

/// Under a lawful order, `x <= y` as the comparison decides it is "not greater".
pub proof fn lemma_at_most_is_not_greater<T: Ord>(x: T, y: T)
    requires
        lawful_order::<T>(),
    ensures
        at_most(x, y) == not_greater(x, y),
{
    reveal(obeys_cmp_ord);
    assert(x.partial_cmp_spec(&y) == Some(x.cmp_spec(&y)));
}

/// The comparison operators of `T` behave as its specified partial comparison says.
pub open spec fn comparisons_obeyed<T: Ord>() -> bool {
    T::obeys_partial_cmp_spec()
}

/// Under a lawful order, the comparison `x > y` that compiled code performs agrees
/// with `greater`.
pub proof fn lemma_comparisons_obeyed<T: Ord>()
    requires
        lawful_order::<T>(),
    ensures
        comparisons_obeyed::<T>(),
{
    reveal(obeys_cmp_partial_ord);
}

/// Under a lawful order, nothing is greater than itself.
pub proof fn lemma_not_greater_refl<T: Ord>(x: T)
    requires
        lawful_order::<T>(),
    ensures
        not_greater(x, x),
{
    reveal(obeys_partial_cmp_spec_properties);
    if greater(x, x) {
        assert(x.partial_cmp_spec(&x) == Some(Ordering::Less));
    }
}

/// Under a lawful order, "greater" is transitive.
pub proof fn lemma_greater_trans<T: Ord>(x: T, y: T, z: T)
    requires
        lawful_order::<T>(),
        greater(x, y),
        greater(y, z),
    ensures
        greater(x, z),
{
    reveal(obeys_partial_cmp_spec_properties);
}

/// Under a lawful order, whatever is greater than `y` is greater than everything not
/// greater than `y`.
pub proof fn lemma_greater_above<T: Ord>(x: T, y: T, z: T)
    requires
        lawful_order::<T>(),
        not_greater(x, y),
        greater(z, y),
    ensures
        greater(z, x),
{
    if !greater(z, x) {
        lemma_not_greater_trans(z, x, y);
    }
}

/// `x` and `y` compare equal: neither is greater than the other.
pub open spec fn equivalent<T: Ord>(x: T, y: T) -> bool {
    not_greater(x, y) && not_greater(y, x)
}

/// The elements of `s` that compare equal to `v`, in their order in `s`.
pub open spec fn equal_run<T: Ord>(s: Seq<T>, v: T) -> Seq<T>
    decreases s.len(),
{
    if s.len() == 0 {
        seq![]
    } else if equivalent(s[0], v) {
        seq![s[0]] + equal_run(s.drop_first(), v)
    } else {
        equal_run(s.drop_first(), v)
    }
}

/// The elements equal to `v` in a concatenation are those of the first part followed by
/// those of the second.
pub proof fn lemma_equal_run_append<T: Ord>(a: Seq<T>, b: Seq<T>, v: T)
    ensures
        equal_run(a + b, v) == equal_run(a, v) + equal_run(b, v),
    decreases a.len(),
{
    if a.len() == 0 {
        assert(a + b =~= b);
        assert(equal_run(a, v) + equal_run(b, v) =~= equal_run(b, v));
    } else {
        assert((a + b).drop_first() =~= a.drop_first() + b);
        assert((a + b)[0] == a[0]);
        lemma_equal_run_append(a.drop_first(), b, v);
        if equivalent(a[0], v) {
            assert(seq![a[0]] + (equal_run(a.drop_first(), v) + equal_run(b, v)) =~= (seq![a[0]]
                + equal_run(a.drop_first(), v)) + equal_run(b, v));
        }
    }
}

/// When nothing in `s` compares equal to `v`, no element is picked out.
pub proof fn lemma_equal_run_none<T: Ord>(s: Seq<T>, v: T)
    requires
        forall|k: int| 0 <= k < s.len() ==> !equivalent(#[trigger] s[k], v),
    ensures
        equal_run(s, v) == Seq::<T>::empty(),
    decreases s.len(),
{
    if s.len() > 0 {
        assert(!equivalent(s[0], v));
        assert forall|k: int| 0 <= k < s.drop_first().len() implies !equivalent(
            #[trigger] s.drop_first()[k],
            v,
        ) by {
            assert(s.drop_first()[k] == s[k + 1]);
        }
        lemma_equal_run_none(s.drop_first(), v);
    }
}

/// When some element of `s` compares equal to `v`, one exists at a position of `s`.
proof fn lemma_equal_run_nonempty<T: Ord>(s: Seq<T>, v: T)
    requires
        equal_run(s, v).len() > 0,
    ensures
        exists|k: int| 0 <= k < s.len() && equivalent(#[trigger] s[k], v),
    decreases s.len(),
{
    if !equivalent(s[0], v) {
        lemma_equal_run_nonempty(s.drop_first(), v);
        let k = choose|k: int| 0 <= k < s.drop_first().len() && equivalent(#[trigger] s.drop_first()[k], v);
        assert(s[k + 1] == s.drop_first()[k]);
    }
}

/// In a sorted sequence whose elements compare equal to `v` somewhere, the first
/// element is not greater than `v`.
proof fn lemma_sorted_head_not_greater<T: Ord>(s: Seq<T>, v: T)
    requires
        lawful_order::<T>(),
        sorted(s),
        equal_run(s, v).len() > 0,
    ensures
        s.len() > 0,
        not_greater(s[0], v),
{
    lemma_equal_run_nonempty(s, v);
    let k = choose|k: int| 0 <= k < s.len() && equivalent(#[trigger] s[k], v);
    if k == 0 {
    } else {
        assert(not_greater(s[0], s[k]));
        lemma_not_greater_trans(s[0], s[k], v);
    }
}

/// Two sorted sequences that hold, for every value, the same elements equal to it in the
/// same order, are the same sequence.
pub proof fn lemma_sorted_equal_runs_same<T: Ord>(s: Seq<T>, t: Seq<T>)
    requires
        lawful_order::<T>(),
        sorted(s),
        sorted(t),
        forall|v: T| #[trigger] equal_run(s, v) == equal_run(t, v),
    ensures
        s == t,
    decreases s.len() + t.len(),
{
    if s.len() == 0 && t.len() == 0 {
        assert(s =~= t);
    } else if s.len() == 0 {
        lemma_not_greater_refl(t[0]);
        assert(equal_run(t, t[0]).len() > 0);
        assert(equal_run(s, t[0]) == equal_run(t, t[0]));
    } else if t.len() == 0 {
        lemma_not_greater_refl(s[0]);
        assert(equal_run(s, s[0]).len() > 0);
        assert(equal_run(s, s[0]) == equal_run(t, s[0]));
    } else {
        let x = s[0];
        let y = t[0];
        lemma_not_greater_refl(x);
        lemma_not_greater_refl(y);
        assert(equal_run(s, x) == equal_run(t, x));
        assert(equal_run(s, y) == equal_run(t, y));
        assert(equal_run(s, x).len() > 0);
        assert(equal_run(t, y).len() > 0);
        lemma_sorted_head_not_greater(t, x);
        lemma_sorted_head_not_greater(s, y);
        assert(equivalent(y, x));
        assert(equal_run(s, x) == seq![x] + equal_run(s.drop_first(), x));
        assert(equal_run(t, x) == seq![y] + equal_run(t.drop_first(), x));
        assert(x == (seq![x] + equal_run(s.drop_first(), x))[0]);
        assert(y == (seq![y] + equal_run(t.drop_first(), x))[0]);
        assert(x == y);
        let s1 = s.drop_first();
        let t1 = t.drop_first();
        assert forall|v: T| #[trigger] equal_run(s1, v) == equal_run(t1, v) by {
            assert(equal_run(s, v) == equal_run(t, v));
            if equivalent(x, v) {
                assert(equal_run(s, v) == seq![x] + equal_run(s1, v));
                assert(equal_run(t, v) == seq![x] + equal_run(t1, v));
                assert(equal_run(s1, v) =~= (seq![x] + equal_run(s1, v)).drop_first());
                assert(equal_run(t1, v) =~= (seq![x] + equal_run(t1, v)).drop_first());
            }
        }
        assert forall|p: int, q: int| 0 <= p < q < s1.len() implies not_greater(#[trigger] s1[p], #[trigger] s1[q]) by {
            assert(s1[p] == s[p + 1] && s1[q] == s[q + 1]);
        }
        assert forall|p: int, q: int| 0 <= p < q < t1.len() implies not_greater(#[trigger] t1[p], #[trigger] t1[q]) by {
            assert(t1[p] == t[p + 1] && t1[q] == t[q + 1]);
        }
        lemma_sorted_equal_runs_same(s1, t1);
        assert(s =~= seq![x] + s1);
        assert(t =~= seq![y] + t1);
    }
}

} // verus!
