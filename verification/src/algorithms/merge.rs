//! Sorted slices: splitting around a value and merging.
use vstd::prelude::*;
use vstd::multiset::Multiset;
use vstd::slice::slice_subrange;

verus! {

/// `s` is sorted in non-decreasing order.
pub open spec fn sorted(s: Seq<u32>) -> bool {
    forall|i: int, j: int| 0 <= i <= j < s.len() ==> s[i] <= s[j]
}

/// Every element of `s` is strictly below `v`.
pub open spec fn all_below(s: Seq<u32>, v: u32) -> bool {
    forall|i: int| 0 <= i < s.len() ==> s[i] < v
}

/// Every element of `s` equals `v`.
pub open spec fn all_equal(s: Seq<u32>, v: u32) -> bool {
    forall|i: int| 0 <= i < s.len() ==> s[i] == v
}

/// Every element of `s` is strictly above `v`.
pub open spec fn all_above(s: Seq<u32>, v: u32) -> bool {
    forall|i: int| 0 <= i < s.len() ==> s[i] > v
}

/// Find the subslice without the last value in a sorted slice:
/// the prefix of all elements strictly below the last element.
/// The boundary is found by galloping backwards from the end by powers of two,
/// then by a binary search.
pub fn subslice_without_last_value(slice: &[u32]) -> (r: &[u32])
    requires
        sorted(slice@),
    ensures
        slice@.len() == 0 ==> r@ == slice@,
        slice@.len() > 0 ==> {
            &&& r@.len() < slice@.len()
            &&& r@ == slice@.subrange(0, r@.len() as int)
            &&& all_below(r@, slice@.last())
            &&& forall|j: int| r@.len() <= j < slice@.len() ==> slice@[j] == slice@.last()
        },
{
    let n = slice.len();
    if n == 0 {
        return slice;
    }
    let target = slice[n - 1];
    let m = n - 1;
    // gallop backwards on powers of two
    let mut start: usize = 0;
    let mut step: usize = 2;
    loop
        invariant_except_break
            n == slice@.len(),
            m == n - 1,
            target == slice@[m as int],
            sorted(slice@),
            start == 0,
            step >= 2,
        ensures
            start <= m,
            forall|j: int| 0 <= j < start ==> slice@[j] < target,
        decreases m - step,
    {
        if step >= m {
            break;
        }
        let idx = m - step;
        if slice[idx] != target {
            start = idx;
            break;
        }
        if step >= m - step {
            break;
        }
        step = step * 2;
    }
    // binary search for the first element equal to the target
    let mut lo = start;
    let mut hi = m;
    while lo < hi
        invariant
            n == slice@.len(),
            m == n - 1,
            target == slice@[m as int],
            sorted(slice@),
            lo <= hi <= m,
            forall|j: int| 0 <= j < lo ==> slice@[j] < target,
            forall|j: int| hi <= j < n ==> slice@[j] == target,
        decreases hi - lo,
    {
        let mid = lo + (hi - lo) / 2;
        if slice[mid] == target {
            hi = mid;
        } else {
            assert(slice@[mid as int] <= target);
            lo = mid + 1;
        }
    }
    let r = slice_subrange(slice, 0, lo);
    proof {
        assert(slice@.last() == target);
    }
    r
}

/// Find the subslice without the first value in a sorted slice:
/// the suffix of all elements strictly above the first element.
/// The boundary is found by galloping forward by powers of two,
/// then by a binary search.
pub fn subslice_without_first_value(slice: &[u32]) -> (r: &[u32])
    requires
        sorted(slice@),
    ensures
        slice@.len() == 0 ==> r@ == slice@,
        slice@.len() > 0 ==> {
            &&& r@.len() < slice@.len()
            &&& r@ == slice@.subrange(slice@.len() - r@.len(), slice@.len() as int)
            &&& all_above(r@, slice@[0])
            &&& forall|j: int| 0 <= j < slice@.len() - r@.len() ==> #[trigger] slice@[j] == slice@[0]
        },
{
    let n = slice.len();
    if n == 0 {
        return slice;
    }
    let target = slice[0];
    // gallop forward on powers of two
    let mut end: usize = n;
    let mut step: usize = 2;
    loop
        invariant_except_break
            n == slice@.len(),
            target == slice@[0],
            sorted(slice@),
            end == n,
            n > 0,
            step >= 2,
        ensures
            1 <= end <= n,
            forall|j: int| end <= j < n ==> slice@[j] > target,
        decreases n - step,
    {
        if step >= n {
            break;
        }
        if slice[step] != target {
            end = step;
            break;
        }
        if step >= n - step {
            break;
        }
        step = step * 2;
    }
    // binary search for the first element different from the target
    let mut lo: usize = 0;
    let mut hi = end;
    while lo < hi
        invariant
            n == slice@.len(),
            target == slice@[0],
            sorted(slice@),
            lo <= hi <= end <= n,
            forall|j: int| 0 <= j < lo ==> slice@[j] == target,
            forall|j: int| hi <= j < n ==> slice@[j] > target,
        decreases hi - lo,
    {
        let mid = lo + (hi - lo) / 2;
        if slice[mid] == target {
            lo = mid + 1;
        } else {
            assert(slice@[mid as int] >= target);
            hi = mid;
        }
    }
    assert(lo >= 1);
    slice_subrange(slice, lo, n)
}


/// Binary search of `value` in a sorted slice.
/// `Ok(i)` gives an index holding `value`; `Err(i)` gives the index where
/// `value` could be inserted while keeping the slice sorted.
pub fn binary_search(slice: &[u32], value: u32) -> (r: Result<usize, usize>)
    requires
        sorted(slice@),
    ensures
        r matches Ok(i) ==> i < slice@.len() && slice@[i as int] == value,
        r matches Err(i) ==> {
            &&& i <= slice@.len()
            &&& all_below(slice@.subrange(0, i as int), value)
            &&& all_above(slice@.subrange(i as int, slice@.len() as int), value)
        },
{
    let mut lo: usize = 0;
    let mut hi: usize = slice.len();
    while lo < hi
        invariant
            lo <= hi <= slice@.len(),
            sorted(slice@),
            forall|j: int| 0 <= j < lo ==> slice@[j] < value,
            forall|j: int| hi <= j < slice@.len() ==> slice@[j] > value,
        decreases hi - lo,
    {
        let mid = lo + (hi - lo) / 2;
        let x = slice[mid];
        if x == value {
            return Ok(mid);
        } else if x < value {
            lo = mid + 1;
        } else {
            hi = mid;
        }
    }
    Err(lo)
}

/// Cut sorted slice `slice` around start point, splitting around
/// all values equal to the value at start point:
/// the elements below it, the elements equal to it and the elements above it.
pub fn split_around(slice: &[u32], start: usize) -> (r: (&[u32], &[u32], &[u32]))
    requires
        sorted(slice@),
        start < slice@.len(),
    ensures
        r.0@ + r.1@ + r.2@ == slice@,
        all_below(r.0@, slice@[start as int]),
        all_equal(r.1@, slice@[start as int]),
        all_above(r.2@, slice@[start as int]),
        r.0@.len() <= start < r.0@.len() + r.1@.len(),
{
    let n = slice.len();
    let ghost v = slice@[start as int];
    let low_slice = subslice_without_last_value(slice_subrange(slice, 0, start + 1));
    let high_slice = subslice_without_first_value(slice_subrange(slice, start, n));
    proof {
        assert(slice@.subrange(0, start + 1).last() == v);
        assert(slice@.subrange(start as int, n as int)[0] == v);
    }
    let equal_slice = slice_subrange(slice, low_slice.len(), n - high_slice.len());
    proof {
        let a = low_slice@.len() as int;
        let b = n - high_slice@.len();
        assert forall|j: int| a <= j < b implies slice@[j] == v by {
            if j <= start {
                assert(slice@.subrange(0, start + 1)[j] == slice@[j]);
            } else {
                assert(slice@.subrange(start as int, n as int)[j - start] == slice@[j]);
            }
        }
        assert(low_slice@ == slice@.subrange(0, a));
        assert(high_slice@ == slice@.subrange(b, n as int));
        assert(low_slice@ + equal_slice@ + high_slice@ =~= slice@);
    }
    (low_slice, equal_slice, high_slice)
}

/// Split the large sorted slice at its midpoint and the small sorted slice
/// where needed for a merge: both are cut in the elements below, equal to
/// and above the middle value of the large slice.
pub fn merge_split<'a>(large: &'a [u32], small: &'a [u32]) -> (r: (
    (&'a [u32], &'a [u32], &'a [u32]),
    (&'a [u32], &'a [u32], &'a [u32]),
))
    requires
        sorted(large@),
        sorted(small@),
        large@.len() > 0,
    ensures
        ({
            let v = large@[large@.len() as int / 2];
            let ((l1, l2, l3), (s1, s2, s3)) = r;
            &&& l1@ + l2@ + l3@ == large@
            &&& s1@ + s2@ + s3@ == small@
            &&& l2@.len() > 0
            &&& all_below(l1@, v) && all_below(s1@, v)
            &&& all_equal(l2@, v) && all_equal(s2@, v)
            &&& all_above(l3@, v) && all_above(s3@, v)
        }),
{
    let middle = large.len() / 2;
    let split_large = split_around(large, middle);
    let split_small = match binary_search(small, large[middle]) {
        Ok(i) => split_around(small, i),
        Err(i) => {
            let small1 = slice_subrange(small, 0, i);
            let small3 = slice_subrange(small, i, small.len());
            let empty = slice_subrange(small, 0, 0);
            proof {
                assert(small1@ + empty@ + small3@ =~= small@);
            }
            (small1, empty, small3)
        },
    };
    (split_large, split_small)
}


/// Whether a merge of `a` and `b` takes its next element from `a`.
/// On equal heads it takes from `a` when `prefer_left` holds.
pub open spec fn takes_left(a: Seq<u32>, b: Seq<u32>, prefer_left: bool) -> bool {
    a.len() > 0 && (b.len() == 0 || a[0] < b[0] || (prefer_left && a[0] == b[0]))
}

/// The merge of `a` and `b`: repeatedly take the smaller head.
pub open spec fn merged(a: Seq<u32>, b: Seq<u32>, prefer_left: bool) -> Seq<u32>
    decreases a.len() + b.len(),
{
    if a.len() == 0 {
        b
    } else if b.len() == 0 {
        a
    } else if takes_left(a, b, prefer_left) {
        seq![a[0]] + merged(a.drop_first(), b, prefer_left)
    } else {
        seq![b[0]] + merged(a, b.drop_first(), prefer_left)
    }
}

/// One step of a merge, empty sides included.
pub proof fn lemma_merged_step(a: Seq<u32>, b: Seq<u32>, prefer_left: bool)
    requires
        a.len() + b.len() > 0,
    ensures
        takes_left(a, b, prefer_left) ==> merged(a, b, prefer_left) == seq![a[0]] + merged(
            a.drop_first(),
            b,
            prefer_left,
        ),
        !takes_left(a, b, prefer_left) ==> merged(a, b, prefer_left) == seq![b[0]] + merged(
            a,
            b.drop_first(),
            prefer_left,
        ),
{
    if a.len() == 0 {
        assert(seq![b[0]] + b.drop_first() =~= b);
    } else if b.len() == 0 {
        assert(seq![a[0]] + a.drop_first() =~= a);
    }
}

/// A merge holds exactly the elements of both sides.
pub proof fn lemma_merged_multiset(a: Seq<u32>, b: Seq<u32>, prefer_left: bool)
    ensures
        merged(a, b, prefer_left).to_multiset() =~= a.to_multiset().add(b.to_multiset()),
        merged(a, b, prefer_left).len() == a.len() + b.len(),
    decreases a.len() + b.len(),
{
    broadcast use vstd::seq_lib::group_to_multiset_ensures;
    broadcast use vstd::multiset::group_multiset_axioms;

    if a.len() + b.len() > 0 {
        lemma_merged_step(a, b, prefer_left);
        if takes_left(a, b, prefer_left) {
            lemma_merged_multiset(a.drop_first(), b, prefer_left);
            let rest = merged(a.drop_first(), b, prefer_left);
            vstd::seq_lib::lemma_multiset_commutative(seq![a[0]], rest);
            vstd::seq_lib::lemma_multiset_commutative(seq![a[0]], a.drop_first());
            assert(seq![a[0]] + a.drop_first() =~= a);
        } else {
            lemma_merged_multiset(a, b.drop_first(), prefer_left);
            let rest = merged(a, b.drop_first(), prefer_left);
            vstd::seq_lib::lemma_multiset_commutative(seq![b[0]], rest);
            vstd::seq_lib::lemma_multiset_commutative(seq![b[0]], b.drop_first());
            assert(seq![b[0]] + b.drop_first() =~= b);
        }
    } else {
        assert(a =~= Seq::<u32>::empty());
        assert(b =~= Seq::<u32>::empty());
    }
}

/// Prepending an element that is at most every element of a sorted sequence keeps it sorted.
pub proof fn lemma_sorted_cons(x: u32, s: Seq<u32>)
    requires
        sorted(s),
        forall|i: int| 0 <= i < s.len() ==> x <= s[i],
    ensures
        sorted(seq![x] + s),
{
    let t = seq![x] + s;
    assert forall|i: int, j: int| 0 <= i <= j < t.len() implies t[i] <= t[j] by {
        if i > 0 {
            assert(t[i] == s[i - 1]);
            assert(t[j] == s[j - 1]);
        } else if j > 0 {
            assert(t[j] == s[j - 1]);
        }
    }
}

/// Merging two sorted sequences gives a sorted sequence.
pub proof fn lemma_merged_sorted(a: Seq<u32>, b: Seq<u32>, prefer_left: bool)
    requires
        sorted(a),
        sorted(b),
    ensures
        sorted(merged(a, b, prefer_left)),
    decreases a.len() + b.len(),
{
    broadcast use vstd::seq_lib::group_to_multiset_ensures;
    broadcast use vstd::multiset::group_multiset_axioms;

    if a.len() > 0 && b.len() > 0 {
        lemma_merged_step(a, b, prefer_left);
        if takes_left(a, b, prefer_left) {
            let (a2, b2) = (a.drop_first(), b);
            lemma_merged_sorted(a2, b2, prefer_left);
            lemma_merged_multiset(a2, b2, prefer_left);
            let rest = merged(a2, b2, prefer_left);
            assert forall|i: int| 0 <= i < rest.len() implies a[0] <= rest[i] by {
                let y = rest[i];
                assert(rest.to_multiset().count(y) > 0);
                if a2.to_multiset().count(y) > 0 {
                    let k = choose|k: int| 0 <= k < a2.len() && a2[k] == y;
                    assert(a[k + 1] == y);
                } else {
                    assert(b2.to_multiset().count(y) > 0);
                    let k = choose|k: int| 0 <= k < b2.len() && b2[k] == y;
                    assert(b[0] <= b[k]);
                }
            }
            lemma_sorted_cons(a[0], rest);
        } else {
            let (a2, b2) = (a, b.drop_first());
            lemma_merged_sorted(a2, b2, prefer_left);
            lemma_merged_multiset(a2, b2, prefer_left);
            let rest = merged(a2, b2, prefer_left);
            assert forall|i: int| 0 <= i < rest.len() implies b[0] <= rest[i] by {
                let y = rest[i];
                assert(rest.to_multiset().count(y) > 0);
                if a2.to_multiset().count(y) > 0 {
                    let k = choose|k: int| 0 <= k < a2.len() && a2[k] == y;
                    assert(a[0] <= a[k]);
                } else {
                    assert(b2.to_multiset().count(y) > 0);
                    let k = choose|k: int| 0 <= k < b2.len() && b2[k] == y;
                    assert(b[k + 1] == y);
                }
            }
            lemma_sorted_cons(b[0], rest);
        }
    }
}

/// Two sorted sequences with the same elements are equal:
/// a sorted result is pinned down by its multiset of elements.
pub proof fn lemma_sorted_unique(x: Seq<u32>, y: Seq<u32>)
    requires
        sorted(x),
        sorted(y),
        x.to_multiset() == y.to_multiset(),
    ensures
        x == y,
    decreases x.len(),
{
    broadcast use vstd::seq_lib::group_to_multiset_ensures;
    broadcast use vstd::multiset::group_multiset_axioms;

    vstd::seq_lib::to_multiset_len(x);
    vstd::seq_lib::to_multiset_len(y);
    assert(x.len() == y.len());
    if x.len() > 0 {
        assert(y.to_multiset().count(x[0]) > 0);
        let j = choose|j: int| 0 <= j < y.len() && y[j] == x[0];
        assert(y[0] <= x[0]);
        assert(x.to_multiset().count(y[0]) > 0);
        let k = choose|k: int| 0 <= k < x.len() && x[k] == y[0];
        assert(x[0] <= y[0]);
        assert(x.remove(0) =~= x.drop_first());
        assert(y.remove(0) =~= y.drop_first());
        assert(x.remove(0).to_multiset() =~= x.to_multiset().remove(x[0]));
        assert(y.remove(0).to_multiset() =~= y.to_multiset().remove(y[0]));
        lemma_sorted_unique(x.drop_first(), y.drop_first());
        assert forall|i: int| 0 <= i < x.len() implies x[i] == y[i] by {
            if i > 0 {
                assert(x[i] == x.drop_first()[i - 1]);
                assert(y[i] == y.drop_first()[i - 1]);
            }
        }
        assert(x =~= y);
    } else {
        assert(x =~= y);
    }
}

/// On sorted inputs the tie-breaking side of a merge does not matter.
pub proof fn lemma_merged_tie_irrelevant(a: Seq<u32>, b: Seq<u32>)
    requires
        sorted(a),
        sorted(b),
    ensures
        merged(a, b, true) == merged(a, b, false),
{
    lemma_merged_sorted(a, b, true);
    lemma_merged_sorted(a, b, false);
    lemma_merged_multiset(a, b, true);
    lemma_merged_multiset(a, b, false);
    lemma_sorted_unique(merged(a, b, true), merged(a, b, false));
}


/// Sequentially fill `output` with the first elements of the merge of `left` and `right`
/// (on equal heads the left element comes first).
pub fn sequential_fuse(left: &[u32], right: &[u32], output: &mut [u32])
    requires
        old(output)@.len() <= left@.len() + right@.len(),
    ensures
        final(output)@.len() == old(output)@.len(),
        final(output)@ == merged(left@, right@, true).subrange(0, old(output)@.len() as int),
{
    let n = output.len();
    let ghost total = merged(left@, right@, true);
    let mut li: usize = 0;
    let mut ri: usize = 0;
    let mut i: usize = 0;
    proof {
        assert(left@.subrange(0, left@.len() as int) =~= left@);
        assert(right@.subrange(0, right@.len() as int) =~= right@);
        assert(output@.subrange(0, 0) + total =~= total);
    }
    while i < n
        invariant
            n == output@.len(),
            n <= left@.len() + right@.len(),
            li <= left@.len(),
            ri <= right@.len(),
            i == li + ri,
            i <= n,
            total == merged(left@, right@, true),
            total == output@.subrange(0, i as int) + merged(
                left@.subrange(li as int, left@.len() as int),
                right@.subrange(ri as int, right@.len() as int),
                true,
            ),
        decreases n - i,
    {
        let ghost a = left@.subrange(li as int, left@.len() as int);
        let ghost b = right@.subrange(ri as int, right@.len() as int);
        proof {
            lemma_merged_step(a, b, true);
        }
        let go_left = if li < left.len() && ri < right.len() {
            left[li] <= right[ri]
        } else {
            li < left.len()
        };
        let ghost before = output@;
        if go_left {
            output[i] = left[li];
            li = li + 1;
            proof {
                assert(a.drop_first() =~= left@.subrange(li as int, left@.len() as int));
            }
        } else {
            output[i] = right[ri];
            ri = ri + 1;
            proof {
                assert(b.drop_first() =~= right@.subrange(ri as int, right@.len() as int));
            }
        }
        i = i + 1;
        proof {
            assert(output@.subrange(0, i as int) =~= before.subrange(0, i - 1) + seq![output@[i - 1]]);
        }
    }
    proof {
        lemma_merged_multiset(left@, right@, true);
        assert(output@ =~= total.subrange(0, n as int));
    }
}


/// Copy `src` into `dst` starting at position `at`; the rest of `dst` is untouched.
pub fn copy_at(dst: &mut [u32], at: usize, src: &[u32])
    requires
        at + src@.len() <= old(dst)@.len(),
    ensures
        final(dst)@ == old(dst)@.subrange(0, at as int) + src@ + old(dst)@.subrange(
            at + src@.len(),
            old(dst)@.len() as int,
        ),
{
    let ghost d0 = dst@;
    let n = dst.len();
    let mut k: usize = 0;
    while k < src.len()
        invariant
            n == dst@.len(),
            at + src@.len() <= dst@.len(),
            dst@.len() == d0.len(),
            k <= src@.len(),
            forall|j: int| 0 <= j < at ==> dst@[j] == d0[j],
            forall|j: int| at <= j < at + k ==> dst@[j] == src@[j - at],
            forall|j: int| at + k <= j < dst@.len() ==> dst@[j] == d0[j],
        decreases src@.len() - k,
    {
        dst[at + k] = src[k];
        k = k + 1;
    }
    assert(dst@ =~= d0.subrange(0, at as int) + src@ + d0.subrange(at + src@.len(), d0.len() as int));
}

/// Number of steps a merge of `a` and `b` (on equal heads the element of `b`
/// first) takes before one of them runs out.
pub open spec fn merge_steps(a: Seq<u32>, b: Seq<u32>) -> nat
    decreases a.len() + b.len(),
{
    if a.len() == 0 || b.len() == 0 {
        0
    } else if a[0] < b[0] {
        1 + merge_steps(a.drop_first(), b)
    } else {
        1 + merge_steps(a, b.drop_first())
    }
}

/// How many elements of `a` and of `b` the first `k` steps of that merge take
/// (fewer steps if one of them runs out).
pub open spec fn merge_taken(a: Seq<u32>, b: Seq<u32>, k: nat) -> (nat, nat)
    decreases k,
{
    if k == 0 || a.len() == 0 || b.len() == 0 {
        (0, 0)
    } else if a[0] < b[0] {
        let (x, y) = merge_taken(a.drop_first(), b, (k - 1) as nat);
        ((x + 1) as nat, y)
    } else {
        let (x, y) = merge_taken(a, b.drop_first(), (k - 1) as nat);
        (x, (y + 1) as nat)
    }
}

/// Merge `input1` and `input2` into `output` (on equal heads the right element
/// comes first), stopping after `limit` elements unless an input runs out,
/// in which case the rest of the other input is copied at once.
/// Returns `None` when the merge is complete and otherwise the positions
/// reached in both inputs and in the output: it stops short exactly when
/// `limit` comes before either input runs out. `output` may be shorter than
/// both inputs together when it does.
pub fn partial_manual_merge(
    input1: &[u32],
    input2: &[u32],
    output: &mut [u32],
    limit: usize,
) -> (r: Option<(usize, usize, usize)>)
    requires
        limit <= old(output)@.len(),
        limit <= input1@.len() + input2@.len(),
        limit < merge_steps(input1@, input2@) || old(output)@.len() == input1@.len() + input2@.len(),
    ensures
        final(output)@.len() == old(output)@.len(),
        r is Some <==> limit < merge_steps(input1@, input2@),
        r is None ==> final(output)@ == merged(input1@, input2@, false),
        r matches Some((i1, i2, io)) ==> {
            &&& io == i1 + i2 == limit
            &&& (i1 as nat, i2 as nat) == merge_taken(input1@, input2@, limit as nat)
            &&& i1 < input1@.len() && i2 < input2@.len()
            &&& merged(input1@, input2@, false) == final(output)@.subrange(0, io as int) + merged(
                input1@.subrange(i1 as int, input1@.len() as int),
                input2@.subrange(i2 as int, input2@.len() as int),
                false,
            )
            &&& final(output)@.subrange(io as int, final(output)@.len() as int) == old(
                output,
            )@.subrange(io as int, old(output)@.len() as int)
        },
{
    let ghost total = merged(input1@, input2@, false);
    let ghost out0 = output@;
    let len1 = input1.len();
    let len2 = input2.len();
    if len1 == 0 {
        copy_at(output, 0, input2);
        proof {
            assert(output@ =~= input2@);
        }
        return None;
    } else if len2 == 0 {
        copy_at(output, 0, input1);
        proof {
            assert(output@ =~= input1@);
        }
        return None;
    }
    let mut i1: usize = 0;
    let mut i2: usize = 0;
    let mut i_out: usize = 0;
    proof {
        assert(input1@.subrange(0, len1 as int) =~= input1@);
        assert(input2@.subrange(0, len2 as int) =~= input2@);
        assert(output@.subrange(0, 0) + total =~= total);
    }
    while i_out < limit && i1 < len1 && i2 < len2
        invariant
            len1 == input1@.len(),
            len2 == input2@.len(),
            output@.len() == out0.len(),
            limit < merge_steps(input1@, input2@) || out0.len() == len1 + len2,
            i_out + merge_steps(input1@.subrange(i1 as int, len1 as int), input2@.subrange(i2 as int, len2 as int))
                == merge_steps(input1@, input2@),
            ({
                let (x, y) = merge_taken(
                    input1@.subrange(i1 as int, len1 as int),
                    input2@.subrange(i2 as int, len2 as int),
                    (limit - i_out) as nat,
                );
                merge_taken(input1@, input2@, limit as nat) == ((i1 + x) as nat, (i2 + y) as nat)
            }),
            limit <= output@.len(),
            i1 <= len1,
            i2 <= len2,
            i_out == i1 + i2,
            i_out <= limit,
            total == merged(input1@, input2@, false),
            total == output@.subrange(0, i_out as int) + merged(
                input1@.subrange(i1 as int, len1 as int),
                input2@.subrange(i2 as int, len2 as int),
                false,
            ),
            forall|j: int| i_out <= j < output@.len() ==> output@[j] == out0[j],
        decreases limit - i_out,
    {
        let ghost a = input1@.subrange(i1 as int, len1 as int);
        let ghost b = input2@.subrange(i2 as int, len2 as int);
        proof {
            lemma_merged_step(a, b, false);
        }
        let ghost before = output@;
        let value1 = input1[i1];
        let value2 = input2[i2];
        if value1 < value2 {
            output[i_out] = value1;
            i1 = i1 + 1;
            proof {
                assert(a.drop_first() =~= input1@.subrange(i1 as int, len1 as int));
            }
        } else {
            output[i_out] = value2;
            i2 = i2 + 1;
            proof {
                assert(b.drop_first() =~= input2@.subrange(i2 as int, len2 as int));
            }
        }
        i_out = i_out + 1;
        proof {
            assert(output@.subrange(0, i_out as int) =~= before.subrange(0, i_out - 1) + seq![
                output@[i_out - 1],
            ]);
        }
    }
    if i2 == len2 {
        let rest = slice_subrange(input1, i1, len1);
        let ghost before = output@;
        copy_at(output, i_out, rest);
        proof {
            let b = input2@.subrange(i2 as int, len2 as int);
            assert(b =~= Seq::<u32>::empty());
            assert(output@ =~= before.subrange(0, i_out as int) + rest@);
            assert(output@ =~= total);
        }
        None
    } else if i1 == len1 {
        let rest = slice_subrange(input2, i2, len2);
        let ghost before = output@;
        copy_at(output, i_out, rest);
        proof {
            let a = input1@.subrange(i1 as int, len1 as int);
            assert(a =~= Seq::<u32>::empty());
            assert(output@ =~= before.subrange(0, i_out as int) + rest@);
            assert(output@ =~= total);
        }
        None
    } else {
        proof {
            assert(output@.subrange(i_out as int, output@.len() as int) =~= out0.subrange(
                i_out as int,
                out0.len() as int,
            ));
        }
        Some((i1, i2, i_out))
    }
}


/// Concatenating two sorted sequences whose junction is ordered keeps them sorted.
pub proof fn lemma_sorted_concat(a: Seq<u32>, b: Seq<u32>)
    requires
        sorted(a),
        sorted(b),
        a.len() > 0 && b.len() > 0 ==> a.last() <= b[0],
    ensures
        sorted(a + b),
{
    let t = a + b;
    assert forall|i: int, j: int| 0 <= i <= j < t.len() implies t[i] <= t[j] by {
        if j < a.len() {
        } else if i >= a.len() {
            assert(t[i] == b[i - a.len()]);
            assert(t[j] == b[j - a.len()]);
        } else {
            assert(t[i] <= a.last());
            assert(b[0] <= b[j - a.len()]);
        }
    }
}

/// Concatenating two sorted sequences where every element of the first is at most
/// every element of the second keeps them sorted.
pub proof fn lemma_sorted_concat_ms(a: Seq<u32>, b: Seq<u32>)
    requires
        sorted(a),
        sorted(b),
        le_all(a.to_multiset(), b.to_multiset()),
    ensures
        sorted(a + b),
{
    broadcast use vstd::seq_lib::group_to_multiset_ensures;

    if a.len() > 0 && b.len() > 0 {
        assert(a.contains(a.last()));
        assert(b.contains(b[0]));
        assert(a.to_multiset().count(a.last()) > 0);
        assert(b.to_multiset().count(b[0]) > 0);
    }
    lemma_sorted_concat(a, b);
}

/// Every element of the first multiset is at most every element of the second.
pub open spec fn le_all(m1: Multiset<u32>, m2: Multiset<u32>) -> bool {
    forall|x: u32, y: u32| m1.count(x) > 0 && m2.count(y) > 0 ==> x <= y
}

/// Append all elements of `src` to `output`.
pub fn push_all(output: &mut Vec<u32>, src: &[u32])
    ensures
        final(output)@ == old(output)@ + src@,
{
    let ghost o0 = output@;
    let mut k: usize = 0;
    while k < src.len()
        invariant
            k <= src@.len(),
            output@ == o0 + src@.subrange(0, k as int),
        decreases src@.len() - k,
    {
        output.push(src[k]);
        k = k + 1;
        proof {
            assert(src@.subrange(0, k as int) =~= src@.subrange(0, k - 1) + seq![src@[k - 1]]);
        }
    }
    assert(src@.subrange(0, src@.len() as int) =~= src@);
}

} // verus!
