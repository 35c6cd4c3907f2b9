//! Adaptive merge sort with three buffers.
use vstd::prelude::*;
use vstd::multiset::Multiset;
use crate::algorithms::fusion::fuse;
use crate::algorithms::merge::{
    copy_at, lemma_merged_multiset, lemma_merged_sorted, lemma_sorted_concat, lemma_sorted_unique, merged,
    partial_manual_merge, sorted,
};
use crate::base::slice::split_slice_at_mut;
use crate::parallel::{current_num_threads, join};
use crate::policy::Policy;

verus! {

/// `<[u32]>::sort`: sorts the slice (stably). Claimed: the result is sorted and
/// holds the same elements.
#[verifier::external_body]
fn sort_slice(s: &mut [u32])
    ensures
        sorted(final(s)@),
        final(s)@.to_multiset() == old(s)@.to_multiset(),
{
    s.sort()
}

/// Every element of `a` comes no later than every element of `b`: `a` is
/// empty, or `b` is not and the last of `a` is at most the first of `b`.
pub open spec fn in_order(a: Seq<u32>, b: Seq<u32>) -> bool {
    a.len() == 0 || (b.len() > 0 && a.last() <= b[0])
}

/// The least buffer index other than `a` and `b`.
pub open spec fn third_index(a: int, b: int) -> int {
    if a != 0 && b != 0 {
        0
    } else if a != 1 && b != 1 {
        1
    } else {
        2
    }
}

/// Two sorted sequences that are sorted one after the other merge into
/// their concatenation.
proof fn lemma_merged_is_concat(a: Seq<u32>, b: Seq<u32>, first: Seq<u32>, second: Seq<u32>)
    requires
        sorted(a),
        sorted(b),
        (first == a && second == b) || (first == b && second == a),
        sorted(first + second),
    ensures
        merged(a, b, true) == first + second,
{
    broadcast use vstd::seq_lib::group_to_multiset_ensures;
    broadcast use vstd::multiset::group_multiset_axioms;

    lemma_merged_sorted(a, b, true);
    lemma_merged_multiset(a, b, true);
    vstd::seq_lib::lemma_multiset_commutative(first, second);
    assert(a.to_multiset().add(b.to_multiset()) =~= b.to_multiset().add(a.to_multiset()));
    lemma_sorted_unique(merged(a, b, true), first + second);
}

/// Merge `input1` and `input2` into `output` block by block (on equal heads the
/// element of `input2` first), each block a partial merge of the size the
/// policy gives, until an input runs out and the rest is copied.
fn merge_by_blocks(input1: &[u32], input2: &[u32], output: &mut [u32], policy: Policy)
    requires
        old(output)@.len() == input1@.len() + input2@.len(),
    ensures
        final(output)@ == merged(input1@, input2@, false),
{
    let ghost total = merged(input1@, input2@, false);
    let n = output.len();
    let len1 = input1.len();
    let len2 = input2.len();
    let mut i1: usize = 0;
    let mut i2: usize = 0;
    let mut io: usize = 0;
    let mut block = policy.first_block_size();
    proof {
        assert(input1@.subrange(0, len1 as int) =~= input1@);
        assert(input2@.subrange(0, len2 as int) =~= input2@);
        assert(output@.subrange(0, 0) + total =~= total);
    }
    loop
        invariant_except_break
            n == output@.len(),
            n == len1 + len2,
            len1 == input1@.len(),
            len2 == input2@.len(),
            i1 <= len1,
            i2 <= len2,
            io == i1 + i2,
            block >= 1,
            total == merged(input1@, input2@, false),
            total == output@.subrange(0, io as int) + merged(
                input1@.subrange(i1 as int, len1 as int),
                input2@.subrange(i2 as int, len2 as int),
                false,
            ),
        ensures
            output@ == total,
        decreases n - io,
    {
        let rest1 = vstd::slice::slice_subrange(input1, i1, len1);
        let rest2 = vstd::slice::slice_subrange(input2, i2, len2);
        let remaining = n - io;
        let limit = if block < remaining { block } else { remaining };
        let ghost before = output@;
        let (head, tail) = split_slice_at_mut(output, io);
        let r = partial_manual_merge(rest1, rest2, tail, limit);
        match r {
            None => {
                proof {
                    assert(head@ =~= before.subrange(0, io as int));
                    assert(output@ =~= total);
                }
                break;
            },
            Some((a, b, c)) => {
                proof {
                    assert(rest1@.subrange(a as int, rest1@.len() as int) =~= input1@.subrange(
                        i1 + a,
                        len1 as int,
                    ));
                    assert(rest2@.subrange(b as int, rest2@.len() as int) =~= input2@.subrange(
                        i2 + b,
                        len2 as int,
                    ));
                    assert(output@.subrange(0, io + c) =~= before.subrange(0, io as int) + tail@.subrange(
                        0,
                        c as int,
                    ));
                }
                i1 = i1 + a;
                i2 = i2 + b;
                io = io + c;
            },
        }
        block = policy.next_block_size(block);
    }
}

/// We need slices of several vectors at once: the data lives in buffer `i`,
/// the two others are scratch space of the same length.
pub struct SortingSlices {
    s0: Vec<u32>,
    s1: Vec<u32>,
    s2: Vec<u32>,
    i: usize,
}

impl SortingSlices {
    /// Buffer number `k`.
    pub closed spec fn buffer(&self, k: int) -> Seq<u32> {
        if k == 0 {
            self.s0@
        } else if k == 1 {
            self.s1@
        } else {
            self.s2@
        }
    }

    /// Borrow all mutable buffers at once.
    fn mut_slices(&mut self) -> (r: (&mut Vec<u32>, &mut Vec<u32>, &mut Vec<u32>))
        ensures
            *r.0 == old(self).s0,
            *r.1 == old(self).s1,
            *r.2 == old(self).s2,
            final(self).s0 == *final(r.0),
            final(self).s1 == *final(r.1),
            final(self).s2 == *final(r.2),
            final(self).i == old(self).i,
    {
        (&mut self.s0, &mut self.s1, &mut self.s2)
    }

    /// Return the two mutable buffers of given distinct indices.
    fn mut_couple(&mut self, i1: usize, i2: usize) -> (r: (&mut Vec<u32>, &mut Vec<u32>))
        requires
            i1 < 3,
            i2 < 3,
            i1 != i2,
        ensures
            r.0@ == old(self).buffer(i1 as int),
            r.1@ == old(self).buffer(i2 as int),
            final(self).buffer(i1 as int) == final(r.0)@,
            final(self).buffer(i2 as int) == final(r.1)@,
            forall|k: int| 0 <= k < 3 && k != i1 && k != i2 ==> final(self).buffer(k) == old(
                self,
            ).buffer(k),
            final(self).i == old(self).i,
    {
        let (s0, s1, s2) = self.mut_slices();
        match (i1, i2) {
            (0, 1) => (s0, s1),
            (0, 2) => (s0, s2),
            (1, 0) => (s1, s0),
            (1, 2) => (s1, s2),
            (2, 0) => (s2, s0),
            _ => (s2, s1),
        }
    }

    /// Index of the buffer holding the data.
    pub closed spec fn index(&self) -> int {
        self.i as int
    }

    /// The data: the content of buffer `i`.
    pub closed spec fn data(&self) -> Seq<u32> {
        self.buffer(self.i as int)
    }

    /// Length shared by the three buffers.
    pub closed spec fn len(&self) -> nat {
        self.s0@.len()
    }

    /// Three buffers of the same length and a valid data index.
    pub closed spec fn wf(&self) -> bool {
        &&& self.i < 3
        &&& self.s0@.len() == self.s1@.len()
        &&& self.s0@.len() == self.s2@.len()
    }

    /// Three buffers of the same length, the data in buffer `i`.
    pub fn new(s0: Vec<u32>, s1: Vec<u32>, s2: Vec<u32>, i: usize) -> (r: Self)
        requires
            i < 3,
            s0@.len() == s1@.len(),
            s0@.len() == s2@.len(),
        ensures
            r.wf(),
            r.index() == i,
            r.len() == s0@.len(),
            r.buffer(0) == s0@,
            r.buffer(1) == s1@,
            r.buffer(2) == s2@,
    {
        SortingSlices { s0, s1, s2, i }
    }

    /// Index of the buffer holding the data.
    pub fn data_index(&self) -> (r: usize)
        ensures
            r == self.index(),
    {
        self.i
    }

    /// A copy of buffer number `k`.
    pub fn buffer_copy(&self, k: usize) -> (r: Vec<u32>)
        requires
            k < 3,
        ensures
            r@ == self.buffer(k as int),
    {
        if k == 0 {
            self.s0.clone()
        } else if k == 1 {
            self.s1.clone()
        } else {
            self.s2.clone()
        }
    }

    /// A well formed value has three buffers of its length and its data in one of them.
    pub proof fn lemma_buffers(&self)
        requires
            self.wf(),
        ensures
            0 <= self.index() < 3,
            self.data() == self.buffer(self.index()),
            forall|k: int| 0 <= k < 3 ==> #[trigger] self.buffer(k).len() == self.len(),
    {
    }

    /// Number of elements to sort.
    pub fn base_length(&self) -> (r: usize)
        requires
            self.wf(),
        ensures
            r == self.len(),
    {
        self.s0.len()
    }

    /// Cut all three buffers at index `i`.
    pub fn split_at(self, i: usize) -> (r: (Self, Self))
        requires
            self.wf(),
            i <= self.len(),
        ensures
            r.0.wf(),
            r.1.wf(),
            r.0.index() == self.index(),
            r.1.index() == self.index(),
            r.0.len() == i,
            r.0.len() + r.1.len() == self.len(),
            forall|k: int| 0 <= k < 3 ==> #[trigger] self.buffer(k) == r.0.buffer(k) + r.1.buffer(k),
            forall|k: int|
                0 <= k < 3 ==> #[trigger] r.0.buffer(k) == self.buffer(k).subrange(0, i as int) && r.1.buffer(k)
                    == self.buffer(k).subrange(i as int, self.len() as int),
    {
        let mut s0 = self.s0;
        let mut s1 = self.s1;
        let mut s2 = self.s2;
        let t0 = s0.split_off(i);
        let t1 = s1.split_off(i);
        let t2 = s2.split_off(i);
        let ghost old0 = self.s0@;
        let ghost old1 = self.s1@;
        let ghost old2 = self.s2@;
        let r = (SortingSlices { s0, s1, s2, i: self.i }, SortingSlices { s0: t0, s1: t1, s2: t2, i: self.i });
        proof {
            assert(old0 =~= s0@ + t0@);
            assert(old1 =~= s1@ + t1@);
            assert(old2 =~= s2@ + t2@);
        }
        r
    }

    /// Cut at the middle.
    pub fn divide(self) -> (r: (Self, Self))
        requires
            self.wf(),
        ensures
            r.0.wf(),
            r.1.wf(),
            r.0.index() == self.index(),
            r.1.index() == self.index(),
            r.0.len() == self.len() / 2,
            r.0.len() + r.1.len() == self.len(),
            forall|k: int| 0 <= k < 3 ==> #[trigger] self.buffer(k) == r.0.buffer(k) + r.1.buffer(k),
    {
        let mid = self.base_length() / 2;
        self.split_at(mid)
    }

    /// Cut at the given index.
    pub fn divide_at(self, i: usize) -> (r: (Self, Self))
        requires
            self.wf(),
            i <= self.len(),
        ensures
            r.0.wf(),
            r.1.wf(),
            r.0.index() == self.index(),
            r.1.index() == self.index(),
            r.0.len() == i,
            r.0.len() + r.1.len() == self.len(),
            forall|k: int| 0 <= k < 3 ==> #[trigger] self.buffer(k) == r.0.buffer(k) + r.1.buffer(k),
            forall|k: int|
                0 <= k < 3 ==> #[trigger] r.0.buffer(k) == self.buffer(k).subrange(0, i as int) && r.1.buffer(k)
                    == self.buffer(k).subrange(i as int, self.len() as int),
    {
        self.split_at(i)
    }

    /// Call parallel merge on the right buffers.
    /// If both data are in the same buffer and already in order nothing moves;
    /// otherwise both data are merged into the least buffer that holds neither
    /// (plain copies when one data lies entirely before the other). All buffers
    /// are then glued back: the data is the stable merge of both data.
    #[verifier::rlimit(60)]
    #[verifier::spinoff_prover]
    pub fn fuse_with_policy(self, other: Self, policy: Policy) -> (r: Self)
        requires
            self.wf(),
            other.wf(),
            sorted(self.data()),
            sorted(other.data()),
            self.len() + other.len() <= usize::MAX,
        ensures
            r.wf(),
            r.len() == self.len() + other.len(),
            r.index() == if self.index() == other.index() && in_order(self.data(), other.data()) {
                self.index()
            } else {
                third_index(self.index(), other.index())
            },
            r.data() == merged(self.data(), other.data(), true),
            forall|k: int|
                0 <= k < 3 && k != r.index() ==> #[trigger] r.buffer(k) == self.buffer(k) + other.buffer(k),
            self.index() == other.index() && in_order(self.data(), other.data()) ==> forall|k: int|
                0 <= k < 3 ==> #[trigger] r.buffer(k) == self.buffer(k) + other.buffer(k),
            sorted(r.data()),
            r.data().to_multiset() == self.data().to_multiset().add(other.data().to_multiset()),
    {
        let mut left = self;
        let mut right = other;
        let ghost ld = left.data();
        let ghost rd = right.data();
        let same_and_ordered = left.i == right.i && {
            let lb = left.data_slice();
            let rb = right.data_slice();
            lb.len() == 0 || (rb.len() > 0 && lb[lb.len() - 1] <= rb[0])
        };
        let destination_index = if same_and_ordered {
            proof {
                lemma_sorted_concat(ld, rd);
                vstd::seq_lib::lemma_multiset_commutative(ld, rd);
                lemma_merged_is_concat(ld, rd, ld, rd);
            }
            left.i
        } else {
            let destination_index: usize = if left.i != 0 && right.i != 0 {
                0
            } else if left.i != 1 && right.i != 1 {
                1
            } else {
                2
            };
            let left_index = left.i;
            let right_index = right.i;
            let (left_input, left_output) = left.mut_couple(left_index, destination_index);
            let (right_input, right_output) = right.mut_couple(right_index, destination_index);
            let mut output_slice: Vec<u32> = Vec::new();
            output_slice.append(left_output);
            output_slice.append(right_output);
            let ll = left_input.len();
            let rl = right_input.len();
            if ll == 0 || (rl > 0 && left_input[ll - 1] <= right_input[0]) {
                copy_at(output_slice.as_mut_slice(), 0, left_input.as_slice());
                copy_at(output_slice.as_mut_slice(), ll, right_input.as_slice());
                proof {
                    lemma_sorted_concat(ld, rd);
                    vstd::seq_lib::lemma_multiset_commutative(ld, rd);
                    assert(output_slice@ =~= ld + rd);
                    lemma_merged_is_concat(ld, rd, ld, rd);
                }
            } else if rl == 0 || right_input[rl - 1] < left_input[0] {
                copy_at(output_slice.as_mut_slice(), 0, right_input.as_slice());
                copy_at(output_slice.as_mut_slice(), rl, left_input.as_slice());
                proof {
                    lemma_sorted_concat(rd, ld);
                    vstd::seq_lib::lemma_multiset_commutative(rd, ld);
                    assert(output_slice@ =~= rd + ld);
                    lemma_merged_is_concat(ld, rd, rd, ld);
                }
            } else {
                fuse(left_input.as_slice(), right_input.as_slice(), output_slice.as_mut_slice(), policy);
                proof {
                    lemma_merged_sorted(ld, rd, true);
                    lemma_merged_multiset(ld, rd, true);
                }
            }
            let ghost output_slice_final = output_slice@;
            left_output.append(&mut output_slice);
            proof {
                assert(left.buffer(0).len() + right.buffer(0).len() == ld.len() + rd.len());
                assert(left.buffer(1).len() + right.buffer(1).len() == ld.len() + rd.len());
                assert(left.buffer(2).len() + right.buffer(2).len() == ld.len() + rd.len());
                assert(left.buffer(destination_index as int).len() == ld.len() + rd.len());
                assert(right.buffer(destination_index as int).len() == 0);
                assert(left.buffer(destination_index as int) + right.buffer(destination_index as int) =~= output_slice_final);
                assert(left.buffer(left_index as int) == ld);
                assert(right.buffer(right_index as int) == rd);
            }
            destination_index
        };
        proof {
            assert(left.buffer(0).len() + right.buffer(0).len() == left.buffer(1).len() + right.buffer(1).len());
            assert(left.buffer(0).len() + right.buffer(0).len() == left.buffer(2).len() + right.buffer(2).len());
        }
        let mut s0 = left.s0;
        let mut s1 = left.s1;
        let mut s2 = left.s2;
        let mut t0 = right.s0;
        let mut t1 = right.s1;
        let mut t2 = right.s2;
        s0.append(&mut t0);
        s1.append(&mut t1);
        s2.append(&mut t2);
        let r = SortingSlices { s0, s1, s2, i: destination_index };
        proof {
            assert(r.data() =~= left.buffer(destination_index as int) + right.buffer(destination_index as int));
            assert forall|k: int| 0 <= k < 3 implies #[trigger] r.buffer(k) == left.buffer(k) + right.buffer(k) by {
                if k == 0 {
                    assert(r.buffer(k) =~= left.buffer(k) + right.buffer(k));
                } else if k == 1 {
                    assert(r.buffer(k) =~= left.buffer(k) + right.buffer(k));
                } else {
                    assert(r.buffer(k) =~= left.buffer(k) + right.buffer(k));
                }
            }
        }
        r
    }

    /// Merge both data into the least buffer that holds neither, block by block
    /// (on equal elements the one of `other` first), and glue all buffers back.
    #[verifier::rlimit(40)]
    #[verifier::spinoff_prover]
    pub fn fuse(self, other: Self) -> (r: Self)
        requires
            self.wf(),
            other.wf(),
            self.len() + other.len() <= usize::MAX,
        ensures
            r.wf(),
            r.len() == self.len() + other.len(),
            r.index() == third_index(self.index(), other.index()),
            r.data() == merged(self.data(), other.data(), false),
            forall|k: int|
                0 <= k < 3 && k != r.index() ==> #[trigger] r.buffer(k) == self.buffer(k) + other.buffer(k),
            r.data().to_multiset() == self.data().to_multiset().add(other.data().to_multiset()),
            sorted(self.data()) && sorted(other.data()) ==> sorted(r.data()),
    {
        let mut left = self;
        let mut right = other;
        let ghost ld = left.data();
        let ghost rd = right.data();
        proof {
            left.lemma_buffers();
            right.lemma_buffers();
        }
        let destination_index: usize = if left.i != 0 && right.i != 0 {
            0
        } else if left.i != 1 && right.i != 1 {
            1
        } else {
            2
        };
        let left_index = left.i;
        let right_index = right.i;
        let (left_input, left_output) = left.mut_couple(left_index, destination_index);
        let (right_input, right_output) = right.mut_couple(right_index, destination_index);
        let mut output_slice: Vec<u32> = Vec::new();
        output_slice.append(left_output);
        output_slice.append(right_output);
        merge_by_blocks(
            left_input.as_slice(),
            right_input.as_slice(),
            output_slice.as_mut_slice(),
            Policy::Adaptive(4000, 4000),
        );
        let ghost output_slice_final = output_slice@;
        left_output.append(&mut output_slice);
        proof {
            assert(left.buffer(left_index as int) == ld);
            assert(right.buffer(right_index as int) == rd);
            lemma_merged_multiset(ld, rd, false);
            if sorted(ld) && sorted(rd) {
                lemma_merged_sorted(ld, rd, false);
            }
            assert(right.buffer(destination_index as int).len() == 0);
            assert(left.buffer(destination_index as int).len() == ld.len() + rd.len());
            assert(left.buffer(0).len() + right.buffer(0).len() == ld.len() + rd.len());
            assert(left.buffer(1).len() + right.buffer(1).len() == ld.len() + rd.len());
            assert(left.buffer(2).len() + right.buffer(2).len() == ld.len() + rd.len());
            assert(left.buffer(destination_index as int) + right.buffer(destination_index as int)
                =~= output_slice_final);
        }
        let mut s0 = left.s0;
        let mut s1 = left.s1;
        let mut s2 = left.s2;
        let mut t0 = right.s0;
        let mut t1 = right.s1;
        let mut t2 = right.s2;
        s0.append(&mut t0);
        s1.append(&mut t1);
        s2.append(&mut t2);
        let r = SortingSlices { s0, s1, s2, i: destination_index };
        proof {
            assert(r.data() =~= left.buffer(destination_index as int) + right.buffer(destination_index as int));
            assert forall|k: int| 0 <= k < 3 implies #[trigger] r.buffer(k) == left.buffer(k) + right.buffer(k) by {
                if k == 0 {
                    assert(r.buffer(k) =~= left.buffer(k) + right.buffer(k));
                } else if k == 1 {
                    assert(r.buffer(k) =~= left.buffer(k) + right.buffer(k));
                } else {
                    assert(r.buffer(k) =~= left.buffer(k) + right.buffer(k));
                }
            }
        }
        r
    }

    /// The data buffer, read only.
    fn data_slice(&self) -> (r: &[u32])
        requires
            self.wf(),
        ensures
            r@ == self.data(),
    {
        if self.i == 0 {
            self.s0.as_slice()
        } else if self.i == 1 {
            self.s1.as_slice()
        } else {
            self.s2.as_slice()
        }
    }

    /// Sort the data buffer in place.
    fn sort_data(&mut self)
        requires
            old(self).wf(),
        ensures
            final(self).wf(),
            final(self).index() == old(self).index(),
            final(self).len() == old(self).len(),
            sorted(final(self).data()),
            final(self).data().to_multiset() == old(self).data().to_multiset(),
    {
        broadcast use vstd::seq_lib::group_to_multiset_ensures;

        if self.i == 0 {
            sort_slice(self.s0.as_mut_slice());
        } else if self.i == 1 {
            sort_slice(self.s1.as_mut_slice());
        } else {
            sort_slice(self.s2.as_mut_slice());
        }
        proof {
            vstd::seq_lib::to_multiset_len(self.data());
            vstd::seq_lib::to_multiset_len(old(self).data());
        }
    }
}

/// Sort with a map-reduce: pieces of at most `threshold` elements are sorted
/// sequentially, pieces are merged pairwise, both halves running in parallel.
fn sort_map_reduce(slices: SortingSlices, threshold: usize) -> (r: SortingSlices)
    requires
        slices.wf(),
    ensures
        r.wf(),
        r.len() == slices.len(),
        sorted(r.data()),
        r.data().to_multiset() == slices.data().to_multiset(),
    decreases slices.len(),
{
    let n = slices.base_length();
    if n <= threshold || n <= 1 {
        let mut slices = slices;
        slices.sort_data();
        slices
    } else {
        let (left, right) = slices.divide();
        let ghost ld = left.data();
        let ghost rd = right.data();
        let ghost ll = left.len();
        let ghost rl = right.len();
        let (sl, sr) = join(
            move || -> (r: SortingSlices)
                requires
                    left.wf(),
                    n > left.len(),
                ensures
                    r.wf(),
                    r.len() == ll,
                    r.data().to_multiset() == ld.to_multiset(),
                    sorted(r.data())
                { sort_map_reduce(left, threshold) },
            move || -> (r: SortingSlices)
                requires
                    right.wf(),
                    n > right.len(),
                ensures
                    r.wf(),
                    r.len() == rl,
                    r.data().to_multiset() == rd.to_multiset(),
                    sorted(r.data())
                { sort_map_reduce(right, threshold) },
        );
        let r = sl.fuse_with_policy(sr, Policy::DefaultPolicy);
        proof {
            vstd::seq_lib::lemma_multiset_commutative(ld, rd);
        }
        r
    }
}

/// Sort the given slice using an adaptive version of merge sort.
/// Pieces of about `len / (2 * threads)` elements are sorted sequentially, then
/// merged in parallel; the sorted data is copied back if it ended in a scratch buffer.
pub fn adaptive_sort_raw(slice: &mut [u32])
    ensures
        sorted(final(slice)@),
        final(slice)@.to_multiset() == old(slice)@.to_multiset(),
{
    let n = slice.len();
    let data = vstd::slice::slice_to_vec(slice);
    let tmp_slice1: Vec<u32> = vec![0; n];
    let tmp_slice2: Vec<u32> = vec![0; n];
    let slices = SortingSlices { s0: data, s1: tmp_slice1, s2: tmp_slice2, i: 0 };
    let num_threads = current_num_threads();
    let tasks: usize = if num_threads == 0 {
        2
    } else if num_threads > usize::MAX / 2 {
        usize::MAX
    } else {
        num_threads * 2
    };
    let result_slices = sort_map_reduce(slices, n / tasks);
    let source = result_slices.data_slice();
    copy_at(slice, 0, source);
    proof {
        assert(slice@ =~= result_slices.data());
    }
}

/// Sort `data` (using `scratch`, of the same length, as second buffer) for merge sort
/// on even levels: a piece is sorted sequentially only on an even level from the
/// root and when it holds at most `threshold` elements (or at most one); merged
/// data always lands in the other buffer, so after an even number of levels it is
/// back in the first one. Returns the sorted data and the scratch buffer.
fn even_levels_sort(data: Vec<u32>, scratch: Vec<u32>, threshold: usize, even: bool) -> (r: (Vec<u32>, Vec<u32>))
    requires
        data@.len() == scratch@.len(),
    ensures
        sorted(r.0@),
        r.0@.to_multiset() == data@.to_multiset(),
        r.1@.len() == data@.len(),
    decreases 2 * data@.len() + if even { 0int } else { 1int },
{
    let n = data.len();
    if even && (n <= threshold || n <= 1) {
        let mut data = data;
        sort_slice(data.as_mut_slice());
        (data, scratch)
    } else {
        let mut left_input = data;
        let mut left_output = scratch;
        let right_input = left_input.split_off(n / 2);
        let right_output = left_output.split_off(n / 2);
        let ghost li = left_input@;
        let ghost ri = right_input@;
        let ghost ll = left_input@.len();
        let ghost rl = right_input@.len();
        let next = !even;
        let ((left_sorted, left_scratch), (right_sorted, right_scratch)) = join(
            move || -> (r: (Vec<u32>, Vec<u32>))
                requires
                    left_input@.len() == left_output@.len(),
                ensures
                    r.0@.to_multiset() == li.to_multiset(),
                    r.1@.len() == ll,
                    sorted(r.0@)
                { even_levels_sort(left_input, left_output, threshold, next) },
            move || -> (r: (Vec<u32>, Vec<u32>))
                requires
                    right_input@.len() == right_output@.len(),
                ensures
                    r.0@.to_multiset() == ri.to_multiset(),
                    r.1@.len() == rl,
                    sorted(r.0@)
                { even_levels_sort(right_input, right_output, threshold, next) },
        );
        proof {
            vstd::seq_lib::to_multiset_len(left_sorted@);
            vstd::seq_lib::to_multiset_len(right_sorted@);
            vstd::seq_lib::to_multiset_len(li);
            vstd::seq_lib::to_multiset_len(ri);
        }
        let mut new_output = left_scratch;
        let mut rs = right_scratch;
        new_output.append(&mut rs);
        fuse(left_sorted.as_slice(), right_sorted.as_slice(), new_output.as_mut_slice(), Policy::DefaultPolicy);
        let mut new_input = left_sorted;
        let mut rest = right_sorted;
        let ghost lsd = new_input@;
        let ghost rsd = rest@;
        new_input.append(&mut rest);
        proof {
            lemma_merged_sorted(lsd, rsd, true);
            lemma_merged_multiset(lsd, rsd, true);
            vstd::seq_lib::lemma_multiset_commutative(li, ri);
            assert(li + ri =~= data@);
        }
        (new_output, new_input)
    }
}

/// Sort the given slice with a merge sort on even levels: pieces of at most
/// `threshold` elements are sorted sequentially, then merged in parallel
/// alternately into the scratch buffer and back.
pub fn merge_sort_adaptive(input: &mut [u32], threshold: usize)
    ensures
        sorted(final(input)@),
        final(input)@.to_multiset() == old(input)@.to_multiset(),
{
    let n = input.len();
    let data = vstd::slice::slice_to_vec(input);
    let copy_vector: Vec<u32> = vec![0; n];
    let (sorted_data, _scratch) = even_levels_sort(data, copy_vector, threshold, true);
    proof {
        vstd::seq_lib::to_multiset_len(sorted_data@);
        vstd::seq_lib::to_multiset_len(old(input)@);
    }
    copy_at(input, 0, sorted_data.as_slice());
    proof {
        assert(input@ =~= sorted_data@);
    }
}

/// Sort a piece sequentially by blocks: blocks whose sizes follow the policy
/// are sorted one after the other, each one fused with what was sorted before it.
fn sort_by_blocks(slices: SortingSlices, policy: Policy) -> (r: SortingSlices)
    requires
        slices.wf(),
    ensures
        r.wf(),
        r.len() == slices.len(),
        sorted(r.data()),
        r.data().to_multiset() == slices.data().to_multiset(),
{
    let ghost all = slices.data();
    let first = policy.first_block_size();
    let n = slices.base_length();
    let first_size = if first < n { first } else { n };
    let (mut done, mut rest) = slices.split_at(first_size);
    let ghost first_data = done.data();
    proof {
        assert(slices.buffer(slices.index()) == done.buffer(slices.index()) + rest.buffer(slices.index()));
        assert(first_data =~= all.subrange(0, first_size as int));
        assert(rest.data() =~= all.subrange(first_size as int, all.len() as int));
    }
    done.sort_data();
    let mut block = policy.next_block_size(first);
    let ghost mut pos: int = first_size as int;
    while rest.base_length() > 0
        invariant
            done.wf(),
            rest.wf(),
            block >= 1,
            0 <= pos <= all.len(),
            n == all.len(),
            done.len() == pos,
            rest.len() == all.len() - pos,
            all.len() == slices.len(),
            sorted(done.data()),
            done.data().to_multiset() == all.subrange(0, pos).to_multiset(),
            rest.data() == all.subrange(pos, all.len() as int),
        decreases rest.len(),
    {
        let m = rest.base_length();
        let size = if block < m { block } else { m };
        let ghost rest_data = rest.data();
        let ghost rest_g = rest;
        let (mut current, remaining) = rest.split_at(size);
        let ghost current_data = current.data();
        let ghost current_before = current;
        proof {
            assert(rest_g.buffer(rest_g.index()) == current_before.buffer(rest_g.index())
                + remaining.buffer(rest_g.index()));
        }
        current.sort_data();
        proof {
            assert(current_data + remaining.data() == rest_data);
            assert(current_data =~= all.subrange(pos, pos + size));
            assert(current_data.len() == size);
            assert(remaining.data() =~= rest_data.subrange(size as int, rest_data.len() as int));
            assert(remaining.data() =~= all.subrange(pos + size, all.len() as int));
            assert(all.subrange(0, pos + size) =~= all.subrange(0, pos) + all.subrange(pos, pos + size));
            vstd::seq_lib::lemma_multiset_commutative(all.subrange(0, pos), all.subrange(pos, pos + size));
        }
        done = done.fuse_with_policy(current, Policy::Adaptive(4000, 4000));
        rest = remaining;
        proof {
            pos = pos + size;
        }
        block = policy.next_block_size(block);
    }
    proof {
        assert(all.subrange(0, pos) =~= all);
    }
    done
}

/// Sort pieces below the top level: cut while a piece is above the threshold,
/// sort both halves in parallel and fuse them.
fn generic_sort_rec(slices: SortingSlices, threshold: usize, policy: Policy) -> (r: SortingSlices)
    requires
        slices.wf(),
    ensures
        r.wf(),
        r.len() == slices.len(),
        sorted(r.data()),
        r.data().to_multiset() == slices.data().to_multiset(),
    decreases slices.len(),
{
    let n = slices.base_length();
    if n <= threshold || n <= 1 {
        sort_by_blocks(slices, policy)
    } else {
        let (left, right) = slices.divide();
        let ghost ld = left.data();
        let ghost rd = right.data();
        let ghost ll = left.len();
        let ghost rl = right.len();
        let (sl, sr) = join(
            move || -> (r: SortingSlices)
                requires
                    left.wf(),
                    n > left.len(),
                ensures
                    r.wf(),
                    r.len() == ll,
                    r.data().to_multiset() == ld.to_multiset(),
                    sorted(r.data())
                { generic_sort_rec(left, threshold, policy) },
            move || -> (r: SortingSlices)
                requires
                    right.wf(),
                    n > right.len(),
                ensures
                    r.wf(),
                    r.len() == rl,
                    r.data().to_multiset() == rd.to_multiset(),
                    sorted(r.data())
                { generic_sort_rec(right, threshold, policy) },
        );
        let r = sl.fuse_with_policy(sr, Policy::Adaptive(4000, 4000));
        proof {
            vstd::seq_lib::lemma_multiset_commutative(ld, rd);
        }
        r
    }
}

/// Sort `v` with an adaptive merge sort using two scratch buffers: pieces
/// larger than the policy's threshold are divided and both halves sorted in
/// parallel; smaller pieces are sorted by blocks, each block being sorted and
/// fused with the ones before it; sorted pieces are fused back together, and
/// the data is copied back if it ended in a scratch buffer.
pub fn generic_sort(v: &mut [u32], policy: Policy)
    ensures
        sorted(final(v)@),
        final(v)@.to_multiset() == old(v)@.to_multiset(),
{
    let n = v.len();
    let data = vstd::slice::slice_to_vec(v);
    let buffer1: Vec<u32> = vec![0; n];
    let buffer2: Vec<u32> = vec![0; n];
    let vectors = SortingSlices { s0: data, s1: buffer1, s2: buffer2, i: 0 };
    let threshold = policy.division_threshold(n);
    let result = generic_sort_rec(vectors, threshold, policy);
    let source = result.data_slice();
    copy_at(v, 0, source);
    proof {
        assert(v@ =~= result.data());
    }
}

} // verus!
