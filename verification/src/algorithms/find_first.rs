//! Find the first element satisfying a predicate, by blocks of growing sizes.
use vstd::prelude::*;
use vstd::slice::slice_subrange;
use crate::algorithms::filter_collect::{call_filter, is_predicate, keeps, kept, lemma_kept_concat, lemma_kept_push};
use crate::parallel::join;
use crate::policy::Policy;

verus! {

/// The first element of `s` the filter keeps, if any.
pub open spec fn first_kept<T, F: Fn(&&T) -> bool>(filter: F, s: Seq<T>) -> Option<T> {
    if kept(filter, s).len() > 0 {
        Some(kept(filter, s)[0])
    } else {
        None
    }
}

/// Iterator on the powers of two times a starting value: `2 * start`, `4 * start`, ...
pub struct Powers {
    state: usize,
}

impl Powers {
    /// The value that was produced last (the starting value at first).
    pub closed spec fn current(&self) -> nat {
        self.state as nat
    }

    /// Next power: the state is doubled.
    pub fn next(&mut self) -> (r: Option<usize>)
        requires
            old(self).current() <= usize::MAX / 2,
        ensures
            r == Some(final(self).current() as usize),
            final(self).current() == 2 * old(self).current(),
    {
        self.state = self.state * 2;
        Some(self.state)
    }
}

/// The powers of two times `starting_value`, starting with `2 * starting_value`.
pub fn powers(starting_value: usize) -> (r: Powers)
    ensures
        r.current() == starting_value,
{
    Powers { state: starting_value }
}

/// `2^k`.
pub open spec fn two_pow(k: nat) -> nat
    decreases k,
{
    if k == 0 {
        1
    } else {
        2 * two_pow((k - 1) as nat)
    }
}

/// Smallest `k` with `2^k >= n` (0 for `n <= 1`): the rounded-up binary logarithm.
pub fn ceil_log2(n: usize) -> (r: usize)
    ensures
        n <= 1 ==> r == 0,
        n > 1 ==> r >= 1 && two_pow((r - 1) as nat) < n && n <= two_pow(r as nat),
{
    if n <= 1 {
        return 0;
    }
    let mut k: usize = 0;
    let mut p: u128 = 1;
    while p < n as u128
        invariant
            n > 1,
            p == two_pow(k as nat),
            k > 0 ==> two_pow((k - 1) as nat) < n,
            1 <= p <= 2 * (n as u128),
            k <= p,
        decreases 2 * (n as u128) - p,
    {
        p = p * 2;
        k = k + 1;
    }
    k
}

/// First element of the slice the filter keeps: both halves of large slices
/// are searched in parallel.
fn find_in<T: Copy + Send + Sync, F: Fn(&&T) -> bool + Sync>(v: &[T], filter: &F, threshold: usize) -> (r: Option<T>)
    requires
        is_predicate(*filter),
    ensures
        r == first_kept(*filter, v@),
    decreases v@.len(),
{
    let n = v.len();
    if n <= threshold || n <= 1 {
        let mut k: usize = 0;
        while k < n
            invariant
                n == v@.len(),
                is_predicate(*filter),
                k <= n,
                kept(*filter, v@.subrange(0, k as int)) == Seq::<T>::empty(),
            decreases n - k,
        {
            let x = v[k];
            proof {
                lemma_kept_push(*filter, v@.subrange(0, k as int), x);
                assert(v@.subrange(0, k + 1) =~= v@.subrange(0, k as int).push(x));
            }
            if call_filter(filter, &x) {
                proof {
                    lemma_kept_concat(*filter, v@.subrange(0, k + 1), v@.subrange(k + 1, n as int));
                    assert(v@.subrange(0, k + 1) + v@.subrange(k + 1, n as int) =~= v@);
                }
                return Some(x);
            }
            k = k + 1;
        }
        proof {
            assert(v@.subrange(0, n as int) =~= v@);
        }
        None
    } else {
        let left = slice_subrange(v, 0, n / 2);
        let right = slice_subrange(v, n / 2, n);
        let (a, b) = join(
            move || -> (r: Option<T>)
                requires
                    is_predicate(*filter),
                    n > left@.len(),
                ensures
                    r == first_kept(*filter, left@)
                { find_in(left, filter, threshold) },
            move || -> (r: Option<T>)
                requires
                    is_predicate(*filter),
                    n > right@.len(),
                ensures
                    r == first_kept(*filter, right@)
                { find_in(right, filter, threshold) },
        );
        proof {
            lemma_kept_concat(*filter, left@, right@);
            assert(left@ + right@ =~= v@);
        }
        match a {
            Some(x) => Some(x),
            None => b,
        }
    }
}

/// Return the first element for which `f` returns true.
/// The slice is searched by blocks whose sizes double, starting from twice the
/// logarithm of its length (at least 2): a block is only searched when no
/// element was found in the previous ones, so an early element is found early.
pub fn find_first<T: Copy + Send + Sync, F: Fn(&&T) -> bool + Sync>(v: &[T], f: F) -> (r: Option<T>)
    requires
        is_predicate(f),
        v@.len() <= usize::MAX / 2,
    ensures
        r == first_kept(f, v@),
{
    let n = v.len();
    let log = ceil_log2(n);
    let base_size = if log < n { log } else { n };
    let mut sizes = powers(if base_size == 0 { 1 } else { base_size });
    let threshold = Policy::DefaultPolicy.division_threshold(n);
    let mut pos: usize = 0;
    proof {
        assert(v@.subrange(0, 0) =~= Seq::<T>::empty());
        reveal(Seq::filter);
        assert(kept(f, Seq::<T>::empty()) =~= Seq::<T>::empty());
    }
    while pos < n
        invariant
            n == v@.len(),
            n <= usize::MAX / 2,
            is_predicate(f),
            pos <= n,
            sizes.current() >= 1,
            pos == n || sizes.current() <= (if pos == 0 { n } else { pos }),
            kept(f, v@.subrange(0, pos as int)) == Seq::<T>::empty(),
        decreases n - pos,
    {
        let size = match sizes.next() {
            Some(s) => s,
            None => n,
        };
        let end = if size < n - pos { pos + size } else { n };
        let block = slice_subrange(v, pos, end);
        let found = find_in(block, &f, threshold);
        proof {
            lemma_kept_concat(f, v@.subrange(0, pos as int), block@);
            assert(v@.subrange(0, pos as int) + block@ =~= v@.subrange(0, end as int));
        }
        if let Some(x) = found {
            proof {
                lemma_kept_concat(f, v@.subrange(0, end as int), v@.subrange(end as int, n as int));
                assert(v@.subrange(0, end as int) + v@.subrange(end as int, n as int) =~= v@);
            }
            return Some(x);
        }
        pos = end;
    }
    proof {
        assert(v@.subrange(0, n as int) =~= v@);
    }
    None
}

} // verus!
