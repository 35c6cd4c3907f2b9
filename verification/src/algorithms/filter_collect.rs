//! Parallel filtering of a slice into a vector.
use vstd::prelude::*;
use vstd::slice::slice_subrange;
use crate::parallel::join;
use crate::policy::Policy;

verus! {

/// The filter accepts every element and always answers the same for the same element.
pub open spec fn is_predicate<T, F: Fn(&&T) -> bool>(filter: F) -> bool {
    &&& forall|x: T| #[trigger] filter.requires((&&x,))
    &&& forall|x: T| !(#[trigger] filter.ensures((&&x,), true) && filter.ensures((&&x,), false))
}

/// Whether the filter keeps `x`.
pub open spec fn keeps<T, F: Fn(&&T) -> bool>(filter: F, x: T) -> bool {
    filter.ensures((&&x,), true)
}

/// The elements of `s` the filter keeps, in order.
pub open spec fn kept<T, F: Fn(&&T) -> bool>(filter: F, s: Seq<T>) -> Seq<T> {
    s.filter(|x: T| keeps(filter, x))
}

/// Filtering one more element.
pub proof fn lemma_kept_push<T, F: Fn(&&T) -> bool>(filter: F, s: Seq<T>, x: T)
    ensures
        kept(filter, s.push(x)) == if keeps(filter, x) {
            kept(filter, s).push(x)
        } else {
            kept(filter, s)
        },
{
    reveal(Seq::filter);
    assert(s.push(x).drop_last() =~= s);
}

/// Filtering a concatenation.
pub proof fn lemma_kept_concat<T, F: Fn(&&T) -> bool>(filter: F, a: Seq<T>, b: Seq<T>)
    ensures
        kept(filter, a + b) == kept(filter, a) + kept(filter, b),
{
    Seq::filter_distributes_over_add(a, b, |x: T| keeps(filter, x));
}

/// Ask the filter about one element.
pub fn call_filter<T, F: Fn(&&T) -> bool>(filter: &F, x: &T) -> (r: bool)
    requires
        is_predicate(*filter),
    ensures
        r == keeps(*filter, *x),
{
    filter(&x)
}

/// Filtered output of a piece: `slice` has room for the whole piece and its first
/// `used` elements are the ones kept.
pub struct FilterOutput<T> {
    slice: Vec<T>,
    used: usize,
}

impl<T: Copy> FilterOutput<T> {
    /// The elements kept.
    pub closed spec fn view(&self) -> Seq<T> {
        self.slice@.subrange(0, self.used as int)
    }

    /// Room of the output.
    pub closed spec fn capacity(&self) -> nat {
        self.slice@.len()
    }

    /// The used part lies inside the slice.
    pub closed spec fn wf(&self) -> bool {
        self.used <= self.slice@.len()
    }

    /// Fuse the outputs of two consecutive pieces: glue the slices back together and,
    /// if the first one is not full, move the kept elements of the second one back
    /// so that they directly follow those of the first one.
    pub fn fuse(self, other: Self) -> (r: Self)
        requires
            self.wf(),
            other.wf(),
            self.capacity() + other.capacity() <= usize::MAX,
        ensures
            r.wf(),
            r.view() == self.view() + other.view(),
            r.capacity() == self.capacity() + other.capacity(),
    {
        let mut first = self.slice;
        let mut second = other.slice;
        let second_start = first.len();
        let ghost a = first@;
        let ghost b = second@;
        first.append(&mut second);
        if second_start == self.used {
            let r = FilterOutput { slice: first, used: self.used + other.used };
            assert(r.view() =~= a.subrange(0, self.used as int) + b.subrange(0, other.used as int));
            r
        } else {
            // move things back
            let mut i: usize = 0;
            let n = first.len();
            while i < other.used
                invariant
                    n == first@.len(),
                    n == a.len() + b.len(),
                    second_start == a.len(),
                    self.used < second_start,
                    other.used <= b.len(),
                    i <= other.used,
                    forall|j: int| 0 <= j < self.used ==> first@[j] == a[j],
                    forall|j: int| 0 <= j < i ==> first@[self.used + j] == b[j],
                    forall|j: int| second_start + i <= j < n ==> first@[j] == b[j - second_start],
                decreases other.used - i,
            {
                let x = first[second_start + i];
                first.set(self.used + i, x);
                i = i + 1;
            }
            let r = FilterOutput { slice: first, used: self.used + other.used };
            assert(r.view() =~= a.subrange(0, self.used as int) + b.subrange(0, other.used as int));
            r
        }
    }
}

/// Filtering work on a piece of the input: what is used of the input and of the output.
struct FilterWork<'a, T> {
    input: &'a [T],
    used_input: usize,
    output: Vec<T>,
    used_output: usize,
}

impl<'a, T: Copy> FilterWork<'a, T> {
    /// The input processed so far is filtered in the output, which has room for the rest.
    spec fn wf<F: Fn(&&T) -> bool>(&self, filter: F) -> bool {
        &&& self.used_input <= self.input@.len()
        &&& self.used_output <= self.output@.len()
        &&& self.output@.len() - self.used_output >= self.input@.len() - self.used_input
        &&& self.output@.len() <= usize::MAX
        &&& self.output@.subrange(0, self.used_output as int) == kept(
            filter,
            self.input@.subrange(0, self.used_input as int),
        )
    }

    /// Number of input elements still to filter.
    spec fn remaining(&self) -> nat {
        (self.input@.len() - self.used_input) as nat
    }

    /// Number of input elements still to filter.
    fn remaining_length(&self) -> (r: usize)
        requires
            self.used_input <= self.input@.len(),
        ensures
            r == self.remaining(),
    {
        self.input.len() - self.used_input
    }

    /// Filter the next `limit` input elements (or all that remain) into the output.
    fn work<F: Fn(&&T) -> bool>(&mut self, limit: usize, filter: &F)
        requires
            old(self).wf(*filter),
            is_predicate(*filter),
        ensures
            final(self).wf(*filter),
            final(self).input == old(self).input,
            final(self).output@.len() == old(self).output@.len(),
            final(self).remaining() == 0 || final(self).remaining() + limit == old(self).remaining(),
    {
        let n = self.input.len();
        let end = if limit < n - self.used_input { self.used_input + limit } else { n };
        while self.used_input < end
            invariant
                self.wf(*filter),
                is_predicate(*filter),
                n == self.input@.len(),
                end <= n,
                self.input == old(self).input,
                self.output@.len() == old(self).output@.len(),
                old(self).used_input <= self.used_input <= end,
                end == n || end == old(self).used_input + limit,
            decreases end - self.used_input,
        {
            let x = self.input[self.used_input];
            let keep = call_filter(filter, &x);
            let ghost before_in = self.input@.subrange(0, self.used_input as int);
            let ghost before_out = self.output@.subrange(0, self.used_output as int);
            if keep {
                self.output.set(self.used_output, x);
                self.used_output = self.used_output + 1;
            }
            self.used_input = self.used_input + 1;
            proof {
                lemma_kept_push(*filter, before_in, x);
                assert(self.input@.subrange(0, self.used_input as int) =~= before_in.push(x));
                if keep {
                    assert(self.output@.subrange(0, self.used_output as int) =~= before_out.push(x));
                } else {
                    assert(self.output@.subrange(0, self.used_output as int) =~= before_out);
                }
            }
        }
    }

    /// Cut the remaining input after `index` elements; the output is cut so that
    /// the left part has exactly the room it needs.
    fn split_at<F: Fn(&&T) -> bool>(self, index: usize, Ghost(filter): Ghost<F>) -> (r: (Self, Self))
        requires
            self.wf(filter),
            index <= self.remaining(),
        ensures
            r.0.wf(filter),
            r.1.wf(filter),
            r.0.remaining() + r.1.remaining() == self.remaining(),
            r.0.remaining() == index,
            r.0.input@ + r.1.input@ == self.input@,
            r.0.output@.len() + r.1.output@.len() == self.output@.len(),
            r.0.used_input == self.used_input,
            r.0.output@.len() == self.used_output + index,
            r.1.used_input == 0,
            r.1.used_output == 0,
    {
        let n = self.input.len();
        let input_mid = self.used_input + index;
        let my_half_input = slice_subrange(self.input, 0, input_mid);
        let his_half_input = slice_subrange(self.input, input_mid, n);
        let output_mid = self.used_output + index;
        let mut my_half_output = self.output;
        let his_half_output = my_half_output.split_off(output_mid);
        let left = FilterWork {
            input: my_half_input,
            used_input: self.used_input,
            output: my_half_output,
            used_output: self.used_output,
        };
        let right = FilterWork { input: his_half_input, used_input: 0, output: his_half_output, used_output: 0 };
        proof {
            reveal(Seq::filter);
            assert(left.input@.subrange(0, left.used_input as int) =~= self.input@.subrange(0, self.used_input as int));
            assert(left.output@.subrange(0, left.used_output as int) =~= self.output@.subrange(0, self.used_output as int));
            assert(right.input@.subrange(0, 0) =~= Seq::<T>::empty());
            assert(right.output@.subrange(0, 0) =~= Seq::<T>::empty());
            assert(left.input@ + right.input@ =~= self.input@);
        }
        (left, right)
    }

    /// Divide the remaining input at its middle; the output is cut so that the left
    /// part has exactly the room it needs.
    fn split<F: Fn(&&T) -> bool>(self, Ghost(filter): Ghost<F>) -> (r: (Self, Self))
        requires
            self.wf(filter),
        ensures
            r.0.wf(filter),
            r.1.wf(filter),
            r.0.remaining() + r.1.remaining() == self.remaining(),
            r.0.remaining() == self.remaining() / 2,
            r.0.input@ + r.1.input@ == self.input@,
            r.0.output@.len() + r.1.output@.len() == self.output@.len(),
    {
        let half = self.remaining_length() / 2;
        self.split_at::<F>(half, Ghost(filter))
    }

    /// The filtered output of this piece.
    fn output(self) -> (r: FilterOutput<T>)
        requires
            self.used_output <= self.output@.len(),
        ensures
            r.wf(),
            r.view() == self.output@.subrange(0, self.used_output as int),
            r.capacity() == self.output@.len(),
    {
        FilterOutput { slice: self.output, used: self.used_output }
    }
}

/// Filter what remains of a piece with the policy: large pieces are divided and
/// both halves filtered in parallel, then outputs fused; small ones are filtered
/// sequentially by blocks.
fn filter_run<'a, T: Copy + Send + Sync, F: Fn(&&T) -> bool + Sync>(
    work: FilterWork<'a, T>,
    filter: &F,
    policy: Policy,
) -> (r: FilterOutput<T>)
    requires
        work.wf(*filter),
        is_predicate(*filter),
    ensures
        r.wf(),
        r.view() == kept(*filter, work.input@),
        r.capacity() == work.output@.len(),
    decreases work.remaining(),
{
    let n = work.remaining_length();
    let threshold = policy.division_threshold(n);
    if n > threshold && n > 1 {
        let ghost w = work;
        let (left, right) = work.split::<F>(Ghost(*filter));
        let ghost li = left.input@;
        let ghost ri = right.input@;
        let ghost lo = left.output@.len();
        let ghost ro = right.output@.len();
        let (lr, rr) = join(
            move || -> (r: FilterOutput<T>)
                requires
                    left.wf(*filter),
                    is_predicate(*filter),
                    n > left.remaining(),
                ensures
                    r.wf(),
                    r.view() == kept(*filter, li),
                    r.capacity() == lo
                { filter_run(left, filter, policy) },
            move || -> (r: FilterOutput<T>)
                requires
                    right.wf(*filter),
                    is_predicate(*filter),
                    n > right.remaining(),
                ensures
                    r.wf(),
                    r.view() == kept(*filter, ri),
                    r.capacity() == ro
                { filter_run(right, filter, policy) },
        );
        proof {
            lemma_kept_concat(*filter, li, ri);
            assert(li + ri =~= w.input@);
        }
        lr.fuse(rr)
    } else {
        let mut work = work;
        let ghost input0 = work.input@;
        let ghost out_len = work.output@.len();
        let mut block = policy.first_block_size();
        while work.remaining_length() > 0
            invariant
                work.wf(*filter),
                is_predicate(*filter),
                block >= 1,
                work.input@ == input0,
                work.output@.len() == out_len,
            decreases work.remaining(),
        {
            work.work(block, filter);
            block = policy.next_block_size(block);
        }
        proof {
            assert(work.input@.subrange(0, work.used_input as int) =~= work.input@);
        }
        work.output()
    }
}

/// Size of the macro blocks in which `filter_collect` goes through its input.
pub const FILTER_BLOCK_SIZE: usize = 1_000_000;

/// Filter the given slice by the given function and collect into a vector:
/// the elements the filter keeps, in order. The input is gone through by
/// macro blocks of `FILTER_BLOCK_SIZE` elements; in each block pieces are
/// filtered in parallel according to the policy and their outputs fused.
pub fn filter_collect<T: Copy + Send + Sync, F: Fn(&&T) -> bool + Sync>(
    slice: &[T],
    filter: F,
    policy: Policy,
) -> (r: Vec<T>)
    requires
        is_predicate(filter),
    ensures
        r@ == kept(filter, slice@),
{
    let uninitialized_output = vstd::slice::slice_to_vec(slice);
    let room = uninitialized_output.len();
    let input = FilterWork { input: slice, used_input: 0, output: uninitialized_output, used_output: 0 };
    proof {
        reveal(Seq::filter);
        assert(slice@.subrange(0, 0) =~= Seq::<T>::empty());
        assert(input.output@.subrange(0, 0) =~= Seq::<T>::empty());
        assert(kept(filter, Seq::<T>::empty()) =~= Seq::<T>::empty());
        assert(input.wf(filter));
    }
    let mut rest = input;
    let mut done: Option<FilterOutput<T>> = None;
    let ghost mut pos: int = 0;
    while rest.remaining_length() > 0
        invariant
            rest.wf(filter),
            is_predicate(filter),
            0 <= pos <= slice@.len(),
            room == slice@.len(),
            rest.input@ == slice@.subrange(pos, slice@.len() as int),
            rest.used_input == 0,
            rest.used_output == 0,
            rest.output@.len() == slice@.len() - pos,
            done is None ==> pos == 0,
            done matches Some(d) ==> d.wf() && d.view() == kept(filter, slice@.subrange(0, pos))
                && d.capacity() == pos,
        decreases rest.remaining(),
    {
        let remaining = rest.remaining_length();
        let size = if remaining < FILTER_BLOCK_SIZE { remaining } else { FILTER_BLOCK_SIZE };
        let ghost rest_input = rest.input@;
        let (block, next) = rest.split_at::<F>(size, Ghost(filter));
        let ghost block_input = block.input@;
        let out = filter_run(block, &filter, policy);
        proof {
            assert(block_input.len() == size);
            assert(block_input =~= rest_input.subrange(0, size as int));
            assert(next.input@ =~= rest_input.subrange(size as int, rest_input.len() as int));
            assert(block_input =~= slice@.subrange(pos, pos + size));
            assert(next.input@ =~= slice@.subrange(pos + size, slice@.len() as int));
            assert(slice@.subrange(0, pos + size) =~= slice@.subrange(0, pos) + block_input);
            lemma_kept_concat(filter, slice@.subrange(0, pos), block_input);
            reveal(Seq::filter);
            assert(next.input@.subrange(0, 0) =~= Seq::<T>::empty());
            assert(slice@.subrange(0, 0) =~= Seq::<T>::empty());
        }
        done = match done {
            None => Some(out),
            Some(previous) => Some(previous.fuse(out)),
        };
        rest = next;
        proof {
            pos = pos + size;
        }
    }
    let final_output = match done {
        Some(d) => d,
        None => rest.output(),
    };
    proof {
        assert(slice@.subrange(0, pos) =~= slice@);
        reveal(Seq::filter);
        assert(slice@.subrange(0, 0) =~= Seq::<T>::empty());
    }
    let used = final_output.used;
    let mut v = final_output.slice;
    v.truncate(used);
    proof {
        assert(v@ =~= final_output.view());
    }
    v
}

} // verus!
