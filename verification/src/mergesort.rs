use vstd::prelude::*;
use vstd::seq_lib::lemma_multiset_commutative;
use vstd::arithmetic::div_mod::{lemma_fundamental_div_mod, lemma_fundamental_div_mod_converse, lemma_mod_pos_bound, lemma_basic_div, lemma_div_basics};
use crate::order::{lawful_order, comparisons_obeyed, greater, not_greater, sorted_between, sorted};
use crate::order::{lemma_not_greater_trans, lemma_at_most_is_not_greater, lemma_greater_flip, lemma_comparisons_obeyed};
use crate::order::{equivalent, equal_run, lemma_not_greater_refl, lemma_equal_run_none, lemma_equal_run_append, lemma_sorted_equal_runs_same};

verus! {

/// `s` with the element at `to - 1` moved to position `from`, and the elements at
/// `from..to - 1` moved one place to the right.
pub open spec fn rotated_one<T>(s: Seq<T>, from: int, to: int) -> Seq<T> {
    s.subrange(0, from) + seq![s[to - 1]] + s.subrange(from, to - 1) + s.subrange(to, s.len() as int)
}

/// The multiset of elements of `s`: two sequences with the same multiset are
/// permutations of each other.
pub open spec fn same_elements<T>(a: Seq<T>, b: Seq<T>) -> bool {
    a.to_multiset() == b.to_multiset()
}

/// Moves `arr[to - 1]` to position `from`, shifting `arr[from..to - 1]` one place right.
///
/// The body calls `<[T]>::rotate_right(1)` on the subslice `arr[from..to]`. std documents
/// that after `rotate_right(k)` the last `k` elements come first, followed by the others
/// in their order; it panics only when `k` exceeds the length, which `from < to` rules out.
#[verifier::external_body]
fn rotate_right_one<T>(arr: &mut [T], from: usize, to: usize)
    requires
        from < to <= old(arr)@.len(),
    ensures
        final(arr)@ == rotated_one(old(arr)@, from as int, to as int),
{
    arr[from..to].rotate_right(1);
}

/// `<[T]>::swap(a, b)`: std documents that it exchanges the elements at `a` and `b`,
/// and panics when either index is out of bounds.
pub assume_specification<Item>[ <[Item]>::swap ](slice: &mut [Item], a: usize, b: usize)
    requires
        a < old(slice)@.len(),
        b < old(slice)@.len(),
    ensures
        final(slice)@ == old(slice)@.update(a as int, old(slice)@[b as int]).update(
            b as int,
            old(slice)@[a as int],
        ),
;

/// Rotating a stretch of a sequence keeps its elements.
pub proof fn lemma_rotated_same_elements<T>(s: Seq<T>, from: int, to: int)
    requires
        0 <= from < to <= s.len(),
    ensures
        same_elements(rotated_one(s, from, to), s),
        rotated_one(s, from, to).len() == s.len(),
{
    let p = s.subrange(0, from);
    let a = s.subrange(from, to - 1);
    let x = seq![s[to - 1]];
    let t = s.subrange(to, s.len() as int);
    assert(s =~= p + a + x + t);
    assert(rotated_one(s, from, to) =~= p + x + a + t);
    lemma_multiset_commutative(p + a, x);
    lemma_multiset_commutative(p, a);
    lemma_multiset_commutative(p, x);
    lemma_multiset_commutative(p + x, a);
    lemma_multiset_commutative(p + a + x, t);
    lemma_multiset_commutative(p + x + a, t);
    assert((p + a + x).to_multiset() =~= (p + x + a).to_multiset());
}

/// The state of an in-place merge of the runs `left..mid` and `mid..right`: the prefix
/// `left..i` holds the smallest elements in order, `i..j` is what remains of the left run,
/// `j..right` what remains of the right run, each in order, and nothing in the prefix is
/// greater than anything after it.
pub open spec fn merge_state<T: Ord>(s: Seq<T>, left: int, i: int, j: int, right: int) -> bool {
    &&& 0 <= left <= i <= j <= right <= s.len()
    &&& sorted_between(s, left, i)
    &&& sorted_between(s, i, j)
    &&& sorted_between(s, j, right)
    &&& forall|p: int, q: int|
        left <= p < i <= q < right ==> not_greater(#[trigger] s[p], #[trigger] s[q])
}

/// When the head of the left run is not greater than the head of the right run, it joins
/// the prefix.
proof fn lemma_merge_take_left<T: Ord>(s: Seq<T>, left: int, i: int, j: int, right: int)
    requires
        lawful_order::<T>(),
        merge_state(s, left, i, j, right),
        i < j < right,
        !greater(s[i], s[j]),
    ensures
        merge_state(s, left, i + 1, j, right),
{
    assert forall|p: int, q: int| left <= p < i + 1 <= q < right implies not_greater(
        #[trigger] s[p],
        #[trigger] s[q],
    ) by {
        if p < i {
        } else if q < j {
        } else if q == j {
        } else {
            assert(not_greater(s[j], s[q]));
            lemma_not_greater_trans(s[i], s[j], s[q]);
        }
    }
    assert forall|p: int, q: int| left <= p < q < i + 1 implies not_greater(
        #[trigger] s[p],
        #[trigger] s[q],
    ) by {
        if q < i {
        } else {
            assert(p < i <= q);
        }
    }
}

/// When the head of the left run is greater than the head of the right run, the latter is
/// rotated in front of the left run and joins the prefix.
proof fn lemma_merge_take_right<T: Ord>(s: Seq<T>, left: int, i: int, j: int, right: int)
    requires
        lawful_order::<T>(),
        merge_state(s, left, i, j, right),
        i < j < right,
        greater(s[i], s[j]),
    ensures
        merge_state(rotated_one(s, i, j + 1), left, i + 1, j + 1, right),
{
    let t = rotated_one(s, i, j + 1);
    assert(t.len() == s.len());
    assert forall|k: int| 0 <= k < t.len() implies #[trigger] t[k] == (if k < i {
        s[k]
    } else if k == i {
        s[j]
    } else if k <= j {
        s[k - 1]
    } else {
        s[k]
    }) by {}
    lemma_greater_flip(s[i], s[j]);
    assert forall|p: int, q: int| left <= p < q < i + 1 implies not_greater(
        #[trigger] t[p],
        #[trigger] t[q],
    ) by {
        if q < i {
            assert(t[p] == s[p] && t[q] == s[q]);
        } else {
            assert(t[p] == s[p] && t[q] == s[j]);
        }
    }
    assert forall|p: int, q: int| i + 1 <= p < q < j + 1 implies not_greater(
        #[trigger] t[p],
        #[trigger] t[q],
    ) by {
        assert(t[p] == s[p - 1] && t[q] == s[q - 1]);
    }
    assert forall|p: int, q: int| j + 1 <= p < q < right implies not_greater(
        #[trigger] t[p],
        #[trigger] t[q],
    ) by {
        assert(t[p] == s[p] && t[q] == s[q]);
    }
    assert forall|p: int, q: int| left <= p < i + 1 <= q < right implies not_greater(
        #[trigger] t[p],
        #[trigger] t[q],
    ) by {
        if p < i {
            if q <= j {
                assert(t[p] == s[p] && t[q] == s[q - 1]);
            } else {
                assert(t[p] == s[p] && t[q] == s[q]);
            }
        } else {
            assert(t[p] == s[j]);
            if q <= j {
                assert(t[q] == s[q - 1]);
                if q - 1 > i {
                    assert(not_greater(s[i], s[q - 1]));
                    lemma_not_greater_trans(s[j], s[i], s[q - 1]);
                }
            } else {
                assert(t[q] == s[q]);
            }
        }
    }
}

/// A finished merge: one of the two runs is used up, so the whole range is in order.
proof fn lemma_merge_done<T: Ord>(s: Seq<T>, left: int, i: int, j: int, right: int)
    requires
        merge_state(s, left, i, j, right),
        i == j || j == right,
    ensures
        sorted_between(s, left, right),
{
    assert forall|p: int, q: int| left <= p < q < right implies not_greater(
        #[trigger] s[p],
        #[trigger] s[q],
    ) by {
        if q < i {
        } else if p < i {
        } else if i == j {
        } else {
        }
    }
}

/// The merge of `a` and `b` that the in-place merges perform: while both are non-empty,
/// the head of `b` goes first when the head of `a` is greater than it, and otherwise the
/// head of `a` goes first; what remains of the other follows.
pub open spec fn spec_merge<T: Ord>(a: Seq<T>, b: Seq<T>) -> Seq<T>
    decreases a.len() + b.len(),
{
    if a.len() == 0 {
        b
    } else if b.len() == 0 {
        a
    } else if greater(a[0], b[0]) {
        seq![b[0]] + spec_merge(a, b.drop_first())
    } else {
        seq![a[0]] + spec_merge(a.drop_first(), b)
    }
}

/// The sequence `s` after its runs `left..mid` and `mid..right` are merged in place; when
/// either run is empty nothing is merged and `s` stays as it is.
pub open spec fn merged<T: Ord>(s: Seq<T>, left: int, mid: int, right: int) -> Seq<T> {
    if left < mid < right {
        s.subrange(0, left) + spec_merge(s.subrange(left, mid), s.subrange(mid, right))
            + s.subrange(right, s.len() as int)
    } else {
        s
    }
}

/// Progress of an in-place merge towards `target`: the finished prefix `left..i`
/// followed by the merge of what remains of the two runs is the whole merge.
pub open spec fn merge_progress<T: Ord>(
    s: Seq<T>,
    left: int,
    i: int,
    j: int,
    right: int,
    target: Seq<T>,
) -> bool {
    s.subrange(left, i) + spec_merge(s.subrange(i, j), s.subrange(j, right)) == target
}

/// Taking the head of the left run keeps the merge on course.
proof fn lemma_progress_take_left<T: Ord>(
    s: Seq<T>,
    left: int,
    i: int,
    j: int,
    right: int,
    target: Seq<T>,
)
    requires
        0 <= left <= i < j < right <= s.len(),
        !greater(s[i], s[j]),
        merge_progress(s, left, i, j, right, target),
    ensures
        merge_progress(s, left, i + 1, j, right, target),
{
    let a = s.subrange(i, j);
    let b = s.subrange(j, right);
    assert(a[0] == s[i] && b[0] == s[j]);
    assert(a.drop_first() =~= s.subrange(i + 1, j));
    assert(spec_merge(a, b) == seq![s[i]] + spec_merge(s.subrange(i + 1, j), b));
    assert(s.subrange(left, i + 1) =~= s.subrange(left, i) + seq![s[i]]);
    assert(s.subrange(left, i) + (seq![s[i]] + spec_merge(s.subrange(i + 1, j), b)) =~= (
    s.subrange(left, i) + seq![s[i]]) + spec_merge(s.subrange(i + 1, j), b));
}

/// Rotating the head of the right run in front of the left run keeps the merge on
/// course.
proof fn lemma_progress_take_right<T: Ord>(
    s: Seq<T>,
    left: int,
    i: int,
    j: int,
    right: int,
    target: Seq<T>,
)
    requires
        0 <= left <= i < j < right <= s.len(),
        greater(s[i], s[j]),
        merge_progress(s, left, i, j, right, target),
    ensures
        merge_progress(rotated_one(s, i, j + 1), left, i + 1, j + 1, right, target),
{
    let t = rotated_one(s, i, j + 1);
    let a = s.subrange(i, j);
    let b = s.subrange(j, right);
    assert(a[0] == s[i] && b[0] == s[j]);
    assert(b.drop_first() =~= s.subrange(j + 1, right));
    assert(spec_merge(a, b) == seq![s[j]] + spec_merge(a, s.subrange(j + 1, right)));
    assert(t.subrange(left, i + 1) =~= s.subrange(left, i) + seq![s[j]]);
    assert(t.subrange(i + 1, j + 1) =~= a);
    assert(t.subrange(j + 1, right) =~= s.subrange(j + 1, right));
    assert(s.subrange(left, i) + (seq![s[j]] + spec_merge(a, s.subrange(j + 1, right))) =~= (
    s.subrange(left, i) + seq![s[j]]) + spec_merge(a, s.subrange(j + 1, right)));
}

/// When one of the runs is used up, the merged range is the whole merge.
proof fn lemma_progress_done<T: Ord>(
    s: Seq<T>,
    left: int,
    i: int,
    j: int,
    right: int,
    target: Seq<T>,
)
    requires
        0 <= left <= i <= j <= right <= s.len(),
        i == j || j == right,
        merge_progress(s, left, i, j, right, target),
    ensures
        s.subrange(left, right) == target,
{
    if i == j {
        assert(s.subrange(i, j).len() == 0);
        assert(s.subrange(left, i) + s.subrange(j, right) =~= s.subrange(left, right));
    } else {
        assert(s.subrange(j, right).len() == 0);
        assert(s.subrange(left, i) + s.subrange(i, j) =~= s.subrange(left, right));
    }
}

/// A slice whose range `left..right` holds `target` and that agrees with `s0` outside the
/// range is `s0` with that range replaced.
proof fn lemma_replace_range<T>(s: Seq<T>, s0: Seq<T>, left: int, right: int, target: Seq<T>)
    requires
        0 <= left <= right <= s.len(),
        s.len() == s0.len(),
        s.subrange(left, right) == target,
        forall|k: int| 0 <= k < s0.len() && !(left <= k < right) ==> #[trigger] s[k] == s0[k],
    ensures
        s == s0.subrange(0, left) + target + s0.subrange(right, s0.len() as int),
{
    assert(s =~= s0.subrange(0, left) + target + s0.subrange(right, s0.len() as int));
}

/// Merging two sorted sequences keeps, for every value, the elements equal to it from
/// the first sequence before those from the second: the merge is stable.
pub proof fn lemma_merge_equal_run<T: Ord>(a: Seq<T>, b: Seq<T>, v: T)
    requires
        lawful_order::<T>(),
        sorted(a),
        sorted(b),
    ensures
        equal_run(spec_merge(a, b), v) == equal_run(a, v) + equal_run(b, v),
    decreases a.len() + b.len(),
{
    let m = spec_merge(a, b);
    if a.len() == 0 {
        assert(equal_run(a, v) + equal_run(b, v) =~= equal_run(b, v));
    } else if b.len() == 0 {
        assert(equal_run(a, v) + equal_run(b, v) =~= equal_run(a, v));
    } else if greater(a[0], b[0]) {
        let b1 = b.drop_first();
        assert forall|p: int, q: int| 0 <= p < q < b1.len() implies not_greater(#[trigger] b1[p], #[trigger] b1[q]) by {
            assert(b1[p] == b[p + 1] && b1[q] == b[q + 1]);
        }
        lemma_merge_equal_run(a, b1, v);
        assert(m == seq![b[0]] + spec_merge(a, b1));
        assert(m[0] == b[0]);
        assert(m.drop_first() =~= spec_merge(a, b1));
        if equivalent(b[0], v) {
            assert forall|k: int| 0 <= k < a.len() implies !equivalent(#[trigger] a[k], v) by {
                if k > 0 {
                    assert(not_greater(a[0], a[k]));
                }
                lemma_not_greater_refl(a[0]);
                if equivalent(a[k], v) {
                    lemma_not_greater_trans(a[k], v, b[0]);
                    lemma_not_greater_trans(a[0], a[k], b[0]);
                }
            }
            lemma_equal_run_none(a, v);
            assert(equal_run(b, v) == seq![b[0]] + equal_run(b1, v));
            assert(equal_run(a, v) + equal_run(b, v) =~= seq![b[0]] + (equal_run(a, v) + equal_run(b1, v)));
        } else {
            assert(equal_run(b, v) == equal_run(b1, v));
        }
    } else {
        let a1 = a.drop_first();
        assert forall|p: int, q: int| 0 <= p < q < a1.len() implies not_greater(#[trigger] a1[p], #[trigger] a1[q]) by {
            assert(a1[p] == a[p + 1] && a1[q] == a[q + 1]);
        }
        lemma_merge_equal_run(a1, b, v);
        assert(m == seq![a[0]] + spec_merge(a1, b));
        assert(m[0] == a[0]);
        assert(m.drop_first() =~= spec_merge(a1, b));
        if equivalent(a[0], v) {
            assert(equal_run(a, v) == seq![a[0]] + equal_run(a1, v));
            assert(equal_run(a, v) + equal_run(b, v) =~= seq![a[0]] + (equal_run(a1, v) + equal_run(b, v)));
        }
    }
}

/// The runs `left..mid` and `mid..right` of `s` are both non-empty and sorted.
pub open spec fn mergeable_runs<T: Ord>(s: Seq<T>, left: int, mid: int, right: int) -> bool {
    &&& 0 <= left < mid < right <= s.len()
    &&& sorted_between(s, left, mid)
    &&& sorted_between(s, mid, right)
}

/// A sorted stretch of a sequence, taken on its own, is sorted.
proof fn lemma_sorted_subrange<T: Ord>(s: Seq<T>, lo: int, hi: int)
    requires
        0 <= lo <= hi <= s.len(),
        sorted_between(s, lo, hi),
    ensures
        sorted(s.subrange(lo, hi)),
{
    let t = s.subrange(lo, hi);
    assert forall|p: int, q: int| 0 <= p < q < t.len() implies not_greater(#[trigger] t[p], #[trigger] t[q]) by {
        assert(t[p] == s[lo + p] && t[q] == s[lo + q]);
    }
}

/// Merging two sorted runs in place is stable: for every value, the elements equal to it
/// stay in the order they had, those of the left run before those of the right run.
pub proof fn lemma_merged_stable<T: Ord>(s: Seq<T>, left: int, mid: int, right: int, v: T)
    requires
        lawful_order::<T>(),
        mergeable_runs(s, left, mid, right),
    ensures
        equal_run(merged(s, left, mid, right), v) == equal_run(s, v),
{
    let x = s.subrange(0, left);
    let l = s.subrange(left, mid);
    let r = s.subrange(mid, right);
    let y = s.subrange(right, s.len() as int);
    let m = spec_merge(l, r);
    lemma_sorted_subrange(s, left, mid);
    lemma_sorted_subrange(s, mid, right);
    lemma_merge_equal_run(l, r, v);
    assert(s =~= x + l + r + y);
    lemma_equal_run_append(x + l + r, y, v);
    lemma_equal_run_append(x + l, r, v);
    lemma_equal_run_append(x, l, v);
    lemma_equal_run_append(x + m, y, v);
    lemma_equal_run_append(x, m, v);
    assert(equal_run(x, v) + (equal_run(l, v) + equal_run(r, v)) =~= equal_run(x, v) + equal_run(
        l,
        v,
    ) + equal_run(r, v));
}

/// Merges the runs `arr[left..mid]` and `arr[mid..right]` in place: while both runs are
/// non-empty, the head of the right run is rotated in front of the left run whenever the
/// head of the left run is greater than it, and otherwise the head of the left run stays.
/// When either run is empty (`mid <= left` or `mid >= right`) the slice is left as it is.
/// When both runs are sorted, `arr[left..right]` comes out sorted, and equal elements keep
/// their order.
pub fn in_place_merge<T: Ord>(arr: &mut [T], left: usize, mid: usize, right: usize)
    requires
        lawful_order::<T>(),
        left < mid < right ==> right <= old(arr)@.len(),
    ensures
        final(arr)@ == merged(old(arr)@, left as int, mid as int, right as int),
        final(arr)@.len() == old(arr)@.len(),
        same_elements(final(arr)@, old(arr)@),
        forall|k: int|
            0 <= k < old(arr)@.len() && !(left <= k < right) ==> #[trigger] final(arr)@[k]
                == old(arr)@[k],
        mergeable_runs(old(arr)@, left as int, mid as int, right as int) ==> sorted_between(
            final(arr)@,
            left as int,
            right as int,
        ),
        mergeable_runs(old(arr)@, left as int, mid as int, right as int) ==> forall|v: T|
            #[trigger] equal_run(final(arr)@, v) == equal_run(old(arr)@, v),
{
    proof {
        lemma_comparisons_obeyed::<T>();
    }
    let ghost s0 = arr@;
    let ghost merging = left < mid < right;
    let ghost runs = mergeable_runs(s0, left as int, mid as int, right as int);
    let ghost target = spec_merge(s0.subrange(left as int, mid as int), s0.subrange(mid as int, right as int));
    let mut i = left;
    let mut j = mid;
    proof {
        if merging {
            assert(s0.subrange(left as int, left as int) + target =~= target);
        }
    }
    while i < j && j < right
        invariant
            lawful_order::<T>(),
            comparisons_obeyed::<T>(),
            arr@.len() == s0.len(),
            merging == (left < mid < right),
            runs == mergeable_runs(s0, left as int, mid as int, right as int),
            target == spec_merge(s0.subrange(left as int, mid as int), s0.subrange(mid as int, right as int)),
            !merging ==> arr@ == s0 && i == left && j == mid,
            merging ==> left <= i <= j <= right <= s0.len() && mid <= j,
            merging ==> merge_progress(arr@, left as int, i as int, j as int, right as int, target),
            runs ==> merge_state(arr@, left as int, i as int, j as int, right as int),
            same_elements(arr@, s0),
            forall|k: int|
                0 <= k < s0.len() && !(left <= k < right) ==> #[trigger] arr@[k] == s0[k],
        decreases right - i,
    {
        if arr[i] > arr[j] {
            proof {
                lemma_progress_take_right(arr@, left as int, i as int, j as int, right as int, target);
                if runs {
                    lemma_merge_take_right(arr@, left as int, i as int, j as int, right as int);
                }
                lemma_rotated_same_elements(arr@, i as int, j + 1);
            }
            let ghost before = arr@;
            j += 1;
            rotate_right_one(arr, i, j);
            proof {
                assert forall|k: int|
                    0 <= k < s0.len() && !(left <= k < right) implies #[trigger] arr@[k] == s0[k] by {
                    assert(arr@[k] == before[k]);
                }
            }
        } else {
            proof {
                lemma_progress_take_left(arr@, left as int, i as int, j as int, right as int, target);
                if runs {
                    lemma_merge_take_left(arr@, left as int, i as int, j as int, right as int);
                }
            }
        }
        i += 1;
    }
    proof {
        if merging {
            lemma_progress_done(arr@, left as int, i as int, j as int, right as int, target);
            lemma_replace_range(arr@, s0, left as int, right as int, target);
        }
        if runs {
            lemma_merge_done(arr@, left as int, i as int, j as int, right as int);
            assert forall|v: T| #[trigger] equal_run(arr@, v) == equal_run(s0, v) by {
                lemma_merged_stable(s0, left as int, mid as int, right as int, v);
            }
        }
    }
}

/// One step of moving an element left by adjacent swaps: swapping positions `k - 1` and
/// `k` of a partly rotated sequence rotates it one place further.
proof fn lemma_rotation_step<T>(s: Seq<T>, k: int, j: int)
    requires
        0 < k <= j < s.len(),
    ensures
        rotated_one(s, k, j + 1).update(k - 1, rotated_one(s, k, j + 1)[k]).update(
            k,
            rotated_one(s, k, j + 1)[k - 1],
        ) =~= rotated_one(s, k - 1, j + 1),
{
}

/// The same merge as `in_place_merge`, written with a loop of adjacent swaps in place of
/// a rotation: when the head of the right run is smaller than the head of the left run,
/// it is swapped leftwards until it stands in front of the left run. It leaves the slice
/// exactly as `in_place_merge` does.
pub fn in_place_merge_old<T: Ord>(arr: &mut [T], left: usize, mid: usize, right: usize)
    requires
        lawful_order::<T>(),
        left < mid < right ==> right <= old(arr)@.len(),
    ensures
        final(arr)@ == merged(old(arr)@, left as int, mid as int, right as int),
        final(arr)@.len() == old(arr)@.len(),
        same_elements(final(arr)@, old(arr)@),
        forall|k: int|
            0 <= k < old(arr)@.len() && !(left <= k < right) ==> #[trigger] final(arr)@[k]
                == old(arr)@[k],
        mergeable_runs(old(arr)@, left as int, mid as int, right as int) ==> sorted_between(
            final(arr)@,
            left as int,
            right as int,
        ),
        mergeable_runs(old(arr)@, left as int, mid as int, right as int) ==> forall|v: T|
            #[trigger] equal_run(final(arr)@, v) == equal_run(old(arr)@, v),
{
    proof {
        lemma_comparisons_obeyed::<T>();
    }
    let ghost s0 = arr@;
    let ghost merging = left < mid < right;
    let ghost runs = mergeable_runs(s0, left as int, mid as int, right as int);
    let ghost target = spec_merge(s0.subrange(left as int, mid as int), s0.subrange(mid as int, right as int));
    let mut i = left;
    let mut j = mid;
    proof {
        if merging {
            assert(s0.subrange(left as int, left as int) + target =~= target);
        }
    }
    while i < j && j < right
        invariant
            lawful_order::<T>(),
            comparisons_obeyed::<T>(),
            arr@.len() == s0.len(),
            merging == (left < mid < right),
            runs == mergeable_runs(s0, left as int, mid as int, right as int),
            target == spec_merge(s0.subrange(left as int, mid as int), s0.subrange(mid as int, right as int)),
            !merging ==> arr@ == s0 && i == left && j == mid,
            merging ==> left <= i <= j <= right <= s0.len() && mid <= j,
            merging ==> merge_progress(arr@, left as int, i as int, j as int, right as int, target),
            runs ==> merge_state(arr@, left as int, i as int, j as int, right as int),
            same_elements(arr@, s0),
            forall|k: int|
                0 <= k < s0.len() && !(left <= k < right) ==> #[trigger] arr@[k] == s0[k],
        decreases right - i,
    {
        proof {
            lemma_at_most_is_not_greater(arr@[i as int], arr@[j as int]);
        }
        if arr[i] <= arr[j] {
            proof {
                lemma_progress_take_left(arr@, left as int, i as int, j as int, right as int, target);
                if runs {
                    lemma_merge_take_left(arr@, left as int, i as int, j as int, right as int);
                }
            }
            i += 1;
        } else {
            let ghost before = arr@;
            proof {
                lemma_progress_take_right(before, left as int, i as int, j as int, right as int, target);
                if runs {
                    lemma_merge_take_right(before, left as int, i as int, j as int, right as int);
                }
                lemma_rotated_same_elements(before, i as int, j + 1);
                assert(rotated_one(before, j as int, j + 1) =~= before);
            }
            let mut k = j;
            while k > i
                invariant
                    i <= k <= j,
                    j < before.len(),
                    arr@ == rotated_one(before, k as int, j + 1),
                decreases k,
            {
                proof {
                    lemma_rotation_step(before, k as int, j as int);
                }
                arr.swap(k, k - 1);
                k -= 1;
            }
            proof {
                assert forall|k: int|
                    0 <= k < s0.len() && !(left <= k < right) implies #[trigger] arr@[k] == s0[k] by {
                    assert(arr@[k] == before[k]);
                }
            }
            i += 1;
            j += 1;
        }
    }
    proof {
        if merging {
            lemma_progress_done(arr@, left as int, i as int, j as int, right as int, target);
            lemma_replace_range(arr@, s0, left as int, right as int, target);
        }
        if runs {
            lemma_merge_done(arr@, left as int, i as int, j as int, right as int);
            assert forall|v: T| #[trigger] equal_run(arr@, v) == equal_run(s0, v) by {
                lemma_merged_stable(s0, left as int, mid as int, right as int, v);
            }
        }
    }
}

/// Any two positions `p < q` of `lo..hi` that lie in the same block of width `w`
/// (blocks start at the multiples of `w`) hold elements in order.
pub open spec fn blocks_sorted<T: Ord>(s: Seq<T>, w: int, lo: int, hi: int) -> bool {
    forall|p: int, q: int|
        lo <= p < q < hi && p / w == q / w ==> not_greater(#[trigger] s[p], #[trigger] s[q])
}

/// A position within `w` of a multiple `base` of `w` lies in the block of `base`.
proof fn lemma_same_block(base: int, w: int, p: int)
    requires
        w > 0,
        base % w == 0,
        base <= p < base + w,
    ensures
        p / w == base / w,
{
    lemma_fundamental_div_mod(base, w);
    let k = base / w;
    assert(p == k * w + (p - base)) by (nonlinear_arith)
        requires base == w * k + base % w, base % w == 0;
    lemma_fundamental_div_mod_converse(p, w, k, p - base);
}

/// A position before a multiple `base` of `w` lies in an earlier block.
proof fn lemma_block_before(base: int, w: int, p: int)
    requires
        w > 0,
        base % w == 0,
        0 <= p < base,
    ensures
        p / w < base / w,
{
    lemma_fundamental_div_mod(base, w);
    lemma_fundamental_div_mod(p, w);
    lemma_mod_pos_bound(p, w);
    let k = base / w;
    let m = p / w;
    if m >= k {
        assert(w * m >= w * k) by (nonlinear_arith)
            requires w > 0, m >= k;
        assert(false);
    }
}

/// A multiple of `2 * w` is a multiple of `w`; so is the next one plus `w`; and adding
/// `2 * w` gives the next multiple of `2 * w`.
proof fn lemma_double_block(i: int, w: int)
    requires
        w > 0,
        i >= 0,
        i % (2 * w) == 0,
    ensures
        i % w == 0,
        (i + w) % w == 0,
        (i + 2 * w) % (2 * w) == 0,
{
    lemma_fundamental_div_mod(i, 2 * w);
    let k = i / (2 * w);
    assert(i == (2 * k) * w + 0) by (nonlinear_arith)
        requires i == (2 * w) * k + i % (2 * w), i % (2 * w) == 0;
    lemma_fundamental_div_mod_converse(i, w, 2 * k, 0);
    assert(i + w == (2 * k + 1) * w + 0) by (nonlinear_arith)
        requires i == (2 * k) * w;
    lemma_fundamental_div_mod_converse(i + w, w, 2 * k + 1, 0);
    assert(i + 2 * w == (k + 1) * (2 * w) + 0) by (nonlinear_arith)
        requires i == (2 * k) * w;
    lemma_fundamental_div_mod_converse(i + 2 * w, 2 * w, k + 1, 0);
}

/// The only multiple of `d` below `d` is zero.
proof fn lemma_small_multiple(i: int, d: int)
    requires
        d > 0,
        0 <= i < d,
        i % d == 0,
    ensures
        i == 0,
{
    lemma_fundamental_div_mod(i, d);
    lemma_basic_div(i, d);
    assert(i == d * 0 + 0);
}

/// In a sequence sorted in blocks of `w`, the two blocks after a multiple `i` of `2 * w`
/// are sorted runs ready to be merged.
proof fn lemma_pass_runs<T: Ord>(s: Seq<T>, w: int, i: int, n: int)
    requires
        w > 0,
        0 <= i < n <= s.len(),
        i % (2 * w) == 0,
        blocks_sorted(s, w, i, n),
    ensures
        sorted_between(s, i, if i + w < n { i + w } else { n }),
        sorted_between(s, i + w, if i + 2 * w < n { i + 2 * w } else { n }),
{
    lemma_double_block(i, w);
    let r1 = if i + w < n { i + w } else { n };
    let r2 = if i + 2 * w < n { i + 2 * w } else { n };
    assert forall|p: int, q: int| i <= p < q < r1 implies not_greater(#[trigger] s[p], #[trigger] s[q]) by {
        lemma_same_block(i, w, p);
        lemma_same_block(i, w, q);
    }
    assert forall|p: int, q: int| i + w <= p < q < r2 implies not_greater(#[trigger] s[p], #[trigger] s[q]) by {
        lemma_same_block(i + w, w, p);
        lemma_same_block(i + w, w, q);
    }
}

/// After the two blocks at `i` are merged into one sorted run, the prefix up to the end
/// of the run is sorted in blocks of `2 * w` and the rest is still sorted in blocks of `w`.
proof fn lemma_pass_step<T: Ord>(s: Seq<T>, t: Seq<T>, w: int, i: int, r: int, n: int)
    requires
        w > 0,
        0 <= i < n,
        n == s.len() == t.len(),
        i % (2 * w) == 0,
        r == if i + 2 * w < n { i + 2 * w } else { n },
        blocks_sorted(s, 2 * w, 0, i),
        blocks_sorted(s, w, i, n),
        sorted_between(t, i, r),
        forall|k: int| 0 <= k < n && !(i <= k < r) ==> #[trigger] t[k] == s[k],
    ensures
        blocks_sorted(t, 2 * w, 0, r),
        blocks_sorted(t, w, i + 2 * w, n),
{
    assert forall|p: int, q: int| 0 <= p < q < r && p / (2 * w) == q / (2 * w) implies not_greater(
        #[trigger] t[p],
        #[trigger] t[q],
    ) by {
        if q < i {
            assert(t[p] == s[p] && t[q] == s[q]);
        } else if p >= i {
        } else {
            lemma_block_before(i, 2 * w, p);
            lemma_same_block(i, 2 * w, q);
            assert(false);
        }
    }
    assert forall|p: int, q: int| i + 2 * w <= p < q < n && p / w == q / w implies not_greater(
        #[trigger] t[p],
        #[trigger] t[q],
    ) by {
        assert(t[p] == s[p] && t[q] == s[q]);
    }
}

/// Sorts the slice with a bottom-up merge sort that works in place: runs of width
/// 1, 2, 4, ... are merged pairwise with `in_place_merge` until one run covers the slice.
/// The sort is stable: elements that compare equal keep their order, so a slice that is
/// already sorted is left exactly as it is.
/// The slice may hold at most `usize::MAX / 2` elements (the most a slice of non-empty
/// elements can hold), so that the run boundaries `i + 2 * width` never overflow.
pub fn merge_sort<T: Ord>(arr: &mut [T])
    requires
        lawful_order::<T>(),
        old(arr)@.len() <= usize::MAX / 2,
    ensures
        final(arr)@.len() == old(arr)@.len(),
        sorted(final(arr)@),
        same_elements(final(arr)@, old(arr)@),
        forall|v: T| #[trigger] equal_run(final(arr)@, v) == equal_run(old(arr)@, v),
        sorted(old(arr)@) ==> final(arr)@ == old(arr)@,
{
    let ghost s0 = arr@;
    let n = arr.len();
    let mut width: usize = 1;
    proof {
        assert forall|p: int, q: int| 0 <= p < q < n && p / 1 == q / 1 implies not_greater(
            #[trigger] arr@[p],
            #[trigger] arr@[q],
        ) by {
            lemma_div_basics(p);
            lemma_div_basics(q);
        }
    }
    while width < n
        invariant
            lawful_order::<T>(),
            n == arr@.len(),
            n == s0.len(),
            n <= usize::MAX / 2,
            1 <= width <= 2 * n + 1,
            blocks_sorted(arr@, width as int, 0, n as int),
            same_elements(arr@, s0),
            forall|v: T| #[trigger] equal_run(arr@, v) == equal_run(s0, v),
        decreases 2 * n + 1 - width,
    {
        let mut i: usize = 0;
        while i < n
            invariant
                lawful_order::<T>(),
                n == arr@.len(),
                n <= usize::MAX / 2,
                1 <= width < n,
                (i as int) % (2 * width as int) == 0,
                i < n + 2 * width,
                blocks_sorted(arr@, 2 * width, 0, if i < n { i as int } else { n as int }),
                blocks_sorted(arr@, width as int, i as int, n as int),
                same_elements(arr@, s0),
                forall|v: T| #[trigger] equal_run(arr@, v) == equal_run(s0, v),
            decreases n + 2 * width - i,
        {
            proof {
                if 2 * width > n {
                    lemma_small_multiple(i as int, 2 * width as int);
                }
                lemma_pass_runs(arr@, width as int, i as int, n as int);
                lemma_double_block(i as int, width as int);
            }
            let left = i;
            let mid = i + width;
            let right = if i + 2 * width > n {
                n
            } else {
                i + 2 * width
            };
            let ghost before = arr@;
            in_place_merge(arr, left, mid, right);
            proof {
                lemma_pass_step(before, arr@, width as int, i as int, right as int, n as int);
            }
            i += 2 * width;
        }
        width *= 2;
    }
    proof {
        assert forall|p: int, q: int| 0 <= p < q < n implies not_greater(
            #[trigger] arr@[p],
            #[trigger] arr@[q],
        ) by {
            lemma_basic_div(p, width as int);
            lemma_basic_div(q, width as int);
        }
        if sorted(s0) {
            lemma_sorted_equal_runs_same(arr@, s0);
        }
    }
}

} // verus!
