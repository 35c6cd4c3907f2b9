//! Macro loop on an input: cut it into chunks of given sizes.
use vstd::prelude::*;
use crate::divisibility::Divisible;

verus! {

/// `r` holds a chunk which, with `after`, is what cutting `before` gives.
pub open spec fn chunk_taken<I: Divisible>(before: I, r: Option<I>, after: I) -> bool {
    exists|index: usize, chunk: I| r == Some(chunk) && #[trigger] before.divides(index, chunk, after)
}

/// Sequential iterator cutting `remaining` into chunks whose sizes are given
/// by `remaining_sizes`.
pub struct Chunks<I, S> {
    remaining: Option<I>,
    remaining_sizes: S,
}

impl<I: Divisible, S: Iterator<Item = usize>> Chunks<I, S> {
    /// What is left of the input.
    pub closed spec fn remaining_input(&self) -> I {
        self.remaining->0
    }

    /// The input left is there, valid and finite.
    pub closed spec fn wf(&self) -> bool {
        &&& self.remaining is Some
        &&& self.remaining->0.valid()
        &&& self.remaining->0.length() is Some
    }

    /// Cut `input` into chunks of the given sizes.
    pub fn new(input: I, sizes: S) -> (r: Self)
        ensures
            r.remaining_input() == input,
            input.valid() && input.length() is Some ==> r.wf(),
    {
        Chunks { remaining: Some(input), remaining_sizes: sizes }
    }

    /// The next chunk: nothing once the input is exhausted; otherwise the left
    /// part of what remains, cut at the next size (at most what remains; all of
    /// it once the sizes run out).
    pub fn next(&mut self) -> (r: Option<I>)
        requires
            old(self).wf(),
        ensures
            final(self).wf(),
            old(self).remaining_input().length() == Some(0nat) ==> r is None,
            old(self).remaining_input().length() == Some(0nat) ==> final(self).remaining_input()
                == old(self).remaining_input(),
            old(self).remaining_input().length() != Some(0nat) ==> chunk_taken(
                old(self).remaining_input(),
                r,
                final(self).remaining_input(),
            ),
    {
        let n = match &self.remaining {
            Some(input) => match input.base_length() {
                Some(n) => n,
                None => 0,
            },
            None => 0,
        };
        if n == 0 {
            return None;
        }
        let next_size = match self.remaining_sizes.next() {
            Some(size) => if size < n { size } else { n },
            None => n,
        };
        let input = self.remaining.take().unwrap();
        let ghost whole = input;
        let (chunk, rest) = input.divide_at(next_size);
        self.remaining = Some(rest);
        let r = Some(chunk);
        assert(whole.divides(next_size, chunk, self.remaining_input()));
        assert(chunk_taken(whole, r, self.remaining_input()));
        r
    }
}

} // verus!
