//! Adaptive parallel merge of two sorted slices.
use vstd::prelude::*;
use vstd::multiset::Multiset;
use vstd::slice::slice_subrange;
use crate::algorithms::merge::{
    all_above, all_below, all_equal, copy_at, le_all, lemma_merged_multiset, lemma_merged_sorted,
    lemma_sorted_concat, lemma_sorted_concat_ms, lemma_sorted_unique, merge_split, merged, push_all,
    sorted,
};
use crate::parallel::join;
use crate::policy::Policy;

verus! {

/// A merge in progress: what remains of both inputs and the output produced so far.
struct FusionSlice<'a> {
    left: &'a [u32],
    left_index: usize,
    right: &'a [u32],
    right_index: usize,
    output: Vec<u32>,
}

impl<'a> FusionSlice<'a> {
    /// Remaining part of the left input.
    spec fn pending_left(&self) -> Seq<u32> {
        self.left@.subrange(self.left_index as int, self.left@.len() as int)
    }

    /// Remaining part of the right input.
    spec fn pending_right(&self) -> Seq<u32> {
        self.right@.subrange(self.right_index as int, self.right@.len() as int)
    }

    /// Everything this merge holds: the output so far and both remaining inputs.
    spec fn all_items(&self) -> Multiset<u32> {
        self.output@.to_multiset().add(self.pending_left().to_multiset()).add(
            self.pending_right().to_multiset(),
        )
    }

    /// Value a division cuts around: the middle remaining element of the
    /// input with more remaining elements (of the right one on a tie).
    spec fn pivot(&self) -> u32 {
        let pl = self.pending_left();
        let pr = self.pending_right();
        if pl.len() > pr.len() {
            pl[pl.len() as int / 2]
        } else {
            pr[pr.len() as int / 2]
        }
    }

    /// `first` and `second` are what dividing `self` gives: each remaining input
    /// is cut in its elements below, equal to and above the pivot; the first part
    /// continues the output so far and merges the elements below; the second has
    /// the elements equal to the pivot (those of the left input, then those of
    /// the right one) as its output and merges the elements above.
    spec fn divided_into(&self, first: Self, second: Self) -> bool {
        let pl = self.pending_left();
        let pr = self.pending_right();
        let p = self.pivot();
        let a = first.left@.len();
        let b = first.right@.len();
        let c = second.left@.len();
        let d = second.right@.len();
        &&& first.left_index == 0 && first.right_index == 0
        &&& second.left_index == 0 && second.right_index == 0
        &&& first.output@ == self.output@
        &&& a + c <= pl.len() && b + d <= pr.len()
        &&& first.left@ == pl.subrange(0, a as int)
        &&& second.left@ == pl.subrange(pl.len() - c, pl.len() as int)
        &&& first.right@ == pr.subrange(0, b as int)
        &&& second.right@ == pr.subrange(pr.len() - d, pr.len() as int)
        &&& second.output@ == pl.subrange(a as int, pl.len() - c) + pr.subrange(b as int, pr.len() - d)
        &&& all_below(first.left@, p) && all_below(first.right@, p)
        &&& all_equal(second.output@, p)
        &&& all_above(second.left@, p) && all_above(second.right@, p)
    }

    /// Number of input elements still to merge.
    spec fn remaining(&self) -> nat {
        ((self.left@.len() - self.left_index) + (self.right@.len() - self.right_index)) as nat
    }

    /// Inputs sorted, output sorted and not above the remaining inputs.
    spec fn wf(&self) -> bool {
        &&& self.left_index <= self.left@.len()
        &&& self.right_index <= self.right@.len()
        &&& self.left@.len() + self.right@.len() <= usize::MAX
        &&& sorted(self.left@)
        &&& sorted(self.right@)
        &&& sorted(self.output@)
        &&& (self.output@.len() > 0 && self.left_index < self.left@.len()) ==> self.output@.last()
            <= self.left@[self.left_index as int]
        &&& (self.output@.len() > 0 && self.right_index < self.right@.len()) ==> self.output@.last()
            <= self.right@[self.right_index as int]
    }

    /// Number of input elements still to merge.
    fn base_length(&self) -> (r: usize)
        requires
            self.wf(),
        ensures
            r == self.remaining(),
    {
        (self.left.len() - self.left_index) + (self.right.len() - self.right_index)
    }

    /// Move the smaller head (the left one on equality) to the output.
    fn take_smallest(&mut self)
        requires
            old(self).wf(),
            old(self).left_index < old(self).left@.len(),
            old(self).right_index < old(self).right@.len(),
        ensures
            final(self).wf(),
            final(self).left == old(self).left,
            final(self).right == old(self).right,
            final(self).all_items() == old(self).all_items(),
            final(self).remaining() + 1 == old(self).remaining(),
            final(self).left_index >= old(self).left_index,
            final(self).right_index >= old(self).right_index,
            final(self).left_index + final(self).right_index == old(self).left_index
                + old(self).right_index + 1,
    {
        broadcast use vstd::seq_lib::group_to_multiset_ensures;

        let ghost pl = self.pending_left();
        let ghost pr = self.pending_right();
        let ghost out = self.output@;
        let l = self.left[self.left_index];
        let r = self.right[self.right_index];
        if l <= r {
            self.output.push(l);
            self.left_index = self.left_index + 1;
            proof {
                assert(pl =~= seq![l] + self.pending_left());
                vstd::seq_lib::lemma_multiset_commutative(seq![l], self.pending_left());
                lemma_sorted_concat(out, seq![l]);
                assert(out + seq![l] =~= self.output@);
            }
        } else {
            self.output.push(r);
            self.right_index = self.right_index + 1;
            proof {
                assert(pr =~= seq![r] + self.pending_right());
                vstd::seq_lib::lemma_multiset_commutative(seq![r], self.pending_right());
                lemma_sorted_concat(out, seq![r]);
                assert(out + seq![r] =~= self.output@);
            }
        }
        proof {
            assert(self.all_items() =~= old(self).all_items());
        }
    }

    /// The right input is exhausted: move everything left of the left input to the output.
    fn take_rest_left(&mut self)
        requires
            old(self).wf(),
            old(self).right_index == old(self).right@.len(),
        ensures
            final(self).wf(),
            final(self).left == old(self).left,
            final(self).right == old(self).right,
            final(self).all_items() == old(self).all_items(),
            final(self).remaining() == 0,
    {
        broadcast use vstd::seq_lib::group_to_multiset_ensures;
        broadcast use vstd::multiset::group_multiset_axioms;

        let ghost pl = self.pending_left();
        let ghost out = self.output@;
        let rest = slice_subrange(self.left, self.left_index, self.left.len());
        push_all(&mut self.output, rest);
        self.left_index = self.left.len();
        proof {
            lemma_sorted_concat(out, pl);
            vstd::seq_lib::lemma_multiset_commutative(out, pl);
            assert(self.pending_left() =~= Seq::<u32>::empty());
            assert(self.pending_right() =~= Seq::<u32>::empty());
            assert(old(self).pending_right() =~= Seq::<u32>::empty());
            assert(self.all_items() =~= old(self).all_items());
        }
    }

    /// The left input is exhausted: move everything left of the right input to the output.
    fn take_rest_right(&mut self)
        requires
            old(self).wf(),
            old(self).left_index == old(self).left@.len(),
        ensures
            final(self).wf(),
            final(self).left == old(self).left,
            final(self).right == old(self).right,
            final(self).all_items() == old(self).all_items(),
            final(self).remaining() == 0,
    {
        broadcast use vstd::seq_lib::group_to_multiset_ensures;
        broadcast use vstd::multiset::group_multiset_axioms;

        let ghost pr = self.pending_right();
        let ghost out = self.output@;
        let rest = slice_subrange(self.right, self.right_index, self.right.len());
        push_all(&mut self.output, rest);
        self.right_index = self.right.len();
        proof {
            lemma_sorted_concat(out, pr);
            vstd::seq_lib::lemma_multiset_commutative(out, pr);
            assert(self.pending_left() =~= Seq::<u32>::empty());
            assert(self.pending_right() =~= Seq::<u32>::empty());
            assert(old(self).pending_left() =~= Seq::<u32>::empty());
            assert(self.all_items() =~= old(self).all_items());
        }
    }

    /// Sequential work on a merge: produce `limit` more output elements.
    /// When both inputs hold more than `limit` elements no bound check is needed;
    /// otherwise as soon as one input is exhausted the rest of the other is copied
    /// at once, which completes the merge.
    fn merge_step(&mut self, limit: usize)
        requires
            old(self).wf(),
        ensures
            final(self).wf(),
            final(self).left == old(self).left,
            final(self).right == old(self).right,
            final(self).all_items() == old(self).all_items(),
            final(self).remaining() == 0 || final(self).remaining() + limit == old(self).remaining(),
    {
        let llen = self.left.len();
        let rlen = self.right.len();
        let ghost start = self.remaining();
        let ghost items = self.all_items();
        if llen - self.left_index > limit && rlen - self.right_index > limit {
            let ghost li0 = self.left_index;
            let ghost ri0 = self.right_index;
            let mut k: usize = 0;
            while k < limit
                invariant
                    self.wf(),
                    llen == self.left@.len(),
                    rlen == self.right@.len(),
                    self.left == old(self).left,
                    self.right == old(self).right,
                    self.all_items() == items,
                    k <= limit,
                    li0 <= self.left_index,
                    ri0 <= self.right_index,
                    self.left_index + self.right_index == li0 + ri0 + k,
                    llen - li0 > limit,
                    rlen - ri0 > limit,
                    self.remaining() + k == start,
                decreases limit - k,
            {
                self.take_smallest();
                k = k + 1;
            }
        } else {
            let mut k: usize = 0;
            while k < limit
                invariant
                    self.wf(),
                    llen == self.left@.len(),
                    rlen == self.right@.len(),
                    self.left == old(self).left,
                    self.right == old(self).right,
                    self.all_items() == items,
                    k <= limit,
                    self.remaining() == 0 || self.remaining() + k == start,
                ensures
                    self.wf(),
                    self.left == old(self).left,
                    self.right == old(self).right,
                    self.all_items() == items,
                    self.remaining() == 0 || self.remaining() + limit == start,
                decreases limit - k,
            {
                if self.right_index >= rlen {
                    self.take_rest_left();
                    break;
                }
                if self.left_index >= llen {
                    self.take_rest_right();
                    break;
                }
                self.take_smallest();
                k = k + 1;
            }
        }
    }

    /// Divide the remaining merge in two independent merges.
    /// The larger remaining input is cut at its middle value, the smaller one around
    /// the same value; the elements equal to it are copied at once: they start the
    /// output of the right part. Everything in the left part is at most everything
    /// in the right part.
    #[verifier::rlimit(80)]
    #[verifier::spinoff_prover]
    fn divide(self) -> (r: (Self, Self))
        requires
            self.wf(),
            self.remaining() > 0,
        ensures
            r.0.wf(),
            r.1.wf(),
            r.0.all_items().add(r.1.all_items()) == self.all_items(),
            le_all(r.0.all_items(), r.1.all_items()),
            r.0.remaining() < self.remaining(),
            r.1.remaining() < self.remaining(),
            self.divided_into(r.0, r.1),
    {
        broadcast use vstd::seq_lib::group_to_multiset_ensures;
        broadcast use vstd::multiset::group_multiset_axioms;

        let left = slice_subrange(self.left, self.left_index, self.left.len());
        let right = slice_subrange(self.right, self.right_index, self.right.len());
        let ghost out = self.output@;
        let ghost v: u32 = if left@.len() > right@.len() {
            left@[left@.len() as int / 2]
        } else {
            right@[right@.len() as int / 2]
        };
        let ((l1, l2, l3), (r1, r2, r3)) = if left.len() > right.len() {
            merge_split(left, right)
        } else {
            let (r, l) = merge_split(right, left);
            (l, r)
        };
        let mut middle: Vec<u32> = Vec::new();
        push_all(&mut middle, l2);
        push_all(&mut middle, r2);
        let first = FusionSlice {
            left: l1,
            left_index: 0,
            right: r1,
            right_index: 0,
            output: self.output,
        };
        let second = FusionSlice {
            left: l3,
            left_index: 0,
            right: r3,
            right_index: 0,
            output: middle,
        };
        proof {
            assert(l1@ + l2@ + l3@ == left@);
            assert(r1@ + r2@ + r3@ == right@);
            assert(l2@.len() + r2@.len() > 0);
            // inputs stay sorted
            assert(l1@ =~= left@.subrange(0, l1@.len() as int));
            assert(l3@ =~= left@.subrange(left@.len() - l3@.len(), left@.len() as int));
            assert(r1@ =~= right@.subrange(0, r1@.len() as int));
            assert(r3@ =~= right@.subrange(right@.len() - r3@.len(), right@.len() as int));
            assert(l2@ =~= left@.subrange(l1@.len() as int, left@.len() - l3@.len()));
            assert(r2@ =~= right@.subrange(r1@.len() as int, right@.len() - r3@.len()));
            assert(middle@ =~= l2@ + r2@);
            assert(v == self.pivot());
            assert(all_equal(middle@, v)) by {
                assert forall|i: int| 0 <= i < middle@.len() implies middle@[i] == v by {
                    if i < l2@.len() {
                        assert(middle@[i] == l2@[i]);
                    } else {
                        assert(middle@[i] == r2@[i - l2@.len()]);
                    }
                }
            }
            assert(first.pending_left() =~= l1@);
            assert(first.pending_right() =~= r1@);
            assert(second.pending_left() =~= l3@);
            assert(second.pending_right() =~= r3@);
            // v is a remaining element, hence the output is not above it
            assert(out.len() > 0 ==> out.last() <= v) by {
                if out.len() > 0 {
                    if left@.len() > right@.len() {
                        assert(left@[0] == self.left@[self.left_index as int]);
                        assert(left@[0] <= v);
                    } else {
                        assert(right@[0] == self.right@[self.right_index as int]);
                        assert(right@[0] <= v);
                    }
                }
            }
            assert(sorted(out));
            assert forall|i: int| 0 <= i < out.len() implies out[i] <= v by {
                assert(out[i] <= out.last());
            }
            assert(sorted(middle@));
            if l1@.len() > 0 {
                assert(l1@[0] == self.left@[self.left_index as int]);
            }
            if r1@.len() > 0 {
                assert(r1@[0] == self.right@[self.right_index as int]);
            }
            assert(middle@.len() > 0);
            assert(middle@.last() == v);
            // items
            vstd::seq_lib::lemma_multiset_commutative(l1@ + l2@, l3@);
            vstd::seq_lib::lemma_multiset_commutative(l1@, l2@);
            vstd::seq_lib::lemma_multiset_commutative(r1@ + r2@, r3@);
            vstd::seq_lib::lemma_multiset_commutative(r1@, r2@);
            vstd::seq_lib::lemma_multiset_commutative(l2@, r2@);
            assert(self.pending_left() =~= left@);
            assert(self.pending_right() =~= right@);
            assert(first.all_items().add(second.all_items()) =~= self.all_items());
            // ordering between the parts
            assert forall|x: u32, y: u32|
                first.all_items().count(x) > 0 && second.all_items().count(y) > 0 implies x
                <= y by {
                assert(x <= v) by {
                    if out.to_multiset().count(x) > 0 {
                        assert(out.contains(x));
                    } else if l1@.to_multiset().count(x) > 0 {
                        assert(l1@.contains(x));
                    } else {
                        assert(r1@.to_multiset().count(x) > 0);
                        assert(r1@.contains(x));
                    }
                }
                assert(v <= y) by {
                    if middle@.to_multiset().count(y) > 0 {
                        assert(middle@.contains(y));
                    } else if l3@.to_multiset().count(y) > 0 {
                        assert(l3@.contains(y));
                    } else {
                        assert(r3@.to_multiset().count(y) > 0);
                        assert(r3@.contains(y));
                    }
                }
            }
        }
        (first, second)
    }
}

/// Merge what remains with the given policy: large merges are divided and both halves
/// merged in parallel; small ones are merged sequentially by blocks.
/// The result is sorted and holds exactly the items of the merge.
fn fusion_run(fs: FusionSlice, policy: Policy) -> (r: Vec<u32>)
    requires
        fs.wf(),
    ensures
        sorted(r@),
        r@.to_multiset() == fs.all_items(),
    decreases fs.remaining(),
{
    let n = fs.base_length();
    let threshold = policy.division_threshold(n);
    if n > threshold {
        let (first, second) = fs.divide();
        let ghost first_items = first.all_items();
        let ghost second_items = second.all_items();
        let (a, b) = join(
            move || -> (r: Vec<u32>)
                requires
                    first.wf(),
                    n > first.remaining(),
                ensures
                    r@.to_multiset() == first_items,
                    sorted(r@)
                { fusion_run(first, policy) },
            move || -> (r: Vec<u32>)
                requires
                    second.wf(),
                    n > second.remaining(),
                ensures
                    r@.to_multiset() == second_items,
                    sorted(r@)
                { fusion_run(second, policy) },
        );
        let mut a = a;
        let mut b = b;
        let ghost a0 = a@;
        let ghost b0 = b@;
        a.append(&mut b);
        proof {
            lemma_sorted_concat_ms(a0, b0);
            vstd::seq_lib::lemma_multiset_commutative(a0, b0);
        }
        a
    } else {
        let mut fs = fs;
        let ghost items = fs.all_items();
        let mut block = policy.first_block_size();
        while fs.base_length() > 0
            invariant
                fs.wf(),
                fs.all_items() == items,
                block >= 1,
            decreases fs.remaining(),
        {
            fs.merge_step(block);
            block = policy.next_block_size(block);
        }
        proof {
            broadcast use vstd::seq_lib::group_to_multiset_ensures;
            broadcast use vstd::multiset::group_multiset_axioms;

            assert(fs.pending_left() =~= Seq::<u32>::empty());
            assert(fs.pending_right() =~= Seq::<u32>::empty());
            assert(fs.all_items() =~= fs.output@.to_multiset());
        }
        fs.output
    }
}

/// Merge two sorted slices into `output` with the given policy.
/// The output is the merge of both inputs.
pub fn fuse(left: &[u32], right: &[u32], output: &mut [u32], policy: Policy)
    requires
        sorted(left@),
        sorted(right@),
        old(output)@.len() == left@.len() + right@.len(),
    ensures
        final(output)@ == merged(left@, right@, true),
{
    broadcast use vstd::seq_lib::group_to_multiset_ensures;
    broadcast use vstd::multiset::group_multiset_axioms;

    let total = output.len();
    let slices = FusionSlice {
        left: left,
        left_index: 0,
        right: right,
        right_index: 0,
        output: Vec::new(),
    };
    proof {
        assert(slices.pending_left() =~= left@);
        assert(slices.pending_right() =~= right@);
        assert(slices.output@.to_multiset() =~= Multiset::<u32>::empty());
        assert(slices.all_items() =~= left@.to_multiset().add(right@.to_multiset()));
    }
    let result = fusion_run(slices, policy);
    proof {
        vstd::seq_lib::to_multiset_len(result@);
        vstd::seq_lib::to_multiset_len(left@);
        vstd::seq_lib::to_multiset_len(right@);
    }
    copy_at(output, 0, result.as_slice());
    proof {
        assert(output@ =~= result@);
        lemma_merged_sorted(left@, right@, true);
        lemma_merged_multiset(left@, right@, true);
        lemma_sorted_unique(result@, merged(left@, right@, true));
    }
}

} // verus!
