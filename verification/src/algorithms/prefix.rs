//! Adaptive prefix computations with an associative operation.
use vstd::prelude::*;
use crate::parallel::join;
use crate::policy::Policy;

verus! {

/// Every value that `op` returns on `a` and `b` is `f(a, b)`.
pub open spec fn pins<T, O: Fn(&T, &T) -> T>(op: O, f: spec_fn(T, T) -> T) -> bool {
    forall|a: T, b: T, r: T| #[trigger] op.ensures((&a, &b), r) ==> r == f(a, b)
}

/// `f` is associative.
pub open spec fn is_associative_fn<T>(f: spec_fn(T, T) -> T) -> bool {
    forall|a: T, b: T, c: T| #[trigger] f(f(a, b), c) == f(a, f(b, c))
}

/// `op` behaves as a function: it accepts every pair of arguments and what it
/// returns is given by a function of them.
pub open spec fn is_function<T, O: Fn(&T, &T) -> T>(op: O) -> bool {
    &&& forall|a: T, b: T| #[trigger] op.requires((&a, &b))
    &&& exists|f: spec_fn(T, T) -> T| pins(op, f)
}

/// What `op` returns is given by an associative function of its arguments.
pub open spec fn is_associative<T, O: Fn(&T, &T) -> T>(op: O) -> bool {
    exists|f: spec_fn(T, T) -> T| pins(op, f) && is_associative_fn(f)
}

/// The function of its arguments that gives what `op` returns (an associative
/// one where there is one).
pub open spec fn op_fn<T, O: Fn(&T, &T) -> T>(op: O) -> spec_fn(T, T) -> T {
    if is_associative(op) {
        choose|f: spec_fn(T, T) -> T| pins(op, f) && is_associative_fn(f)
    } else {
        choose|f: spec_fn(T, T) -> T| pins(op, f)
    }
}

/// The value `op` returns on `a` and `b`.
pub open spec fn apply<T, O: Fn(&T, &T) -> T>(op: O, a: T, b: T) -> T {
    (op_fn(op))(a, b)
}

/// What `op` returns is its value.
proof fn lemma_op_fn<T, O: Fn(&T, &T) -> T>(op: O)
    requires
        is_function(op),
    ensures
        pins(op, op_fn(op)),
        is_associative(op) ==> is_associative_fn(op_fn(op)),
{
}

/// The value of an associative operation does not depend on how it is grouped.
proof fn lemma_associative<T, O: Fn(&T, &T) -> T>(op: O)
    requires
        is_associative(op),
    ensures
        forall|a: T, b: T, c: T| #[trigger] apply(op, apply(op, a, b), c) == apply(op, a, apply(op, b, c)),
{
    let f = op_fn(op);
    assert(is_associative_fn(f));
    assert forall|a: T, b: T, c: T| #[trigger] apply(op, apply(op, a, b), c) == apply(op, a, apply(op, b, c)) by {
        assert(f(f(a, b), c) == f(a, f(b, c)));
    }
}

/// Prefix where the accumulator comes first: `r[0] = s[0]`, `r[i] = op(r[i - 1], s[i])`.
pub open spec fn scan_accumulator_first<T, O: Fn(&T, &T) -> T>(op: O, s: Seq<T>, i: int) -> T
    decreases i,
{
    if i <= 0 {
        s[0]
    } else {
        apply(op, scan_accumulator_first(op, s, i - 1), s[i])
    }
}

/// Call `op` on two values: the result is its value.
fn call_op<T, O: Fn(&T, &T) -> T>(op: &O, a: &T, b: &T) -> (r: T)
    requires
        is_function(*op),
    ensures
        r == apply(*op, *a, *b),
{
    let r = op(a, b);
    proof {
        lemma_op_fn(*op);
        assert(op.ensures((a, b), r));
    }
    r
}

/// Only the first `k` elements matter for a scan up to `i < k`.
proof fn lemma_scan_prefix<T, O: Fn(&T, &T) -> T>(op: O, a: Seq<T>, b: Seq<T>, i: int)
    requires
        0 <= i < a.len(),
        a.len() <= b.len(),
        forall|k: int| 0 <= k <= i ==> a[k] == b[k],
    ensures
        scan_accumulator_first(op, a, i) == scan_accumulator_first(op, b, i),
    decreases i,
{
    if i > 0 {
        lemma_scan_prefix(op, a, b, i - 1);
    }
}

/// Replace every element `e` of the slice by `op(increment, e)`: the fold of
/// `increment` followed by `e`.
pub fn update<T: Copy, O: Fn(&T, &T) -> T>(slice: &mut [T], increment: T, op: &O)
    requires
        is_function(*op),
    ensures
        final(slice)@.len() == old(slice)@.len(),
        forall|i: int| 0 <= i < old(slice)@.len() ==> final(slice)@[i] == apply(*op, increment, old(slice)@[i]),
{
    let n = slice.len();
    let ghost s0 = slice@;
    let mut k: usize = 0;
    while k < n
        invariant
            n == slice@.len(),
            n == s0.len(),
            is_function(*op),
            k <= n,
            forall|i: int| 0 <= i < k ==> slice@[i] == apply(*op, increment, s0[i]),
            forall|i: int| k <= i < n ==> slice@[i] == s0[i],
        decreases n - k,
    {
        let e = slice[k];
        slice[k] = call_op(op, &increment, &e);
        k = k + 1;
    }
}

/// Sequential work on a block of at most `limit` elements starting at `start`:
/// the element at `start` already holds its prefix; each following element `e`
/// of the block becomes `op(c, e)` where `c` is the prefix before it; the first
/// element after the block is pre-updated the same way.
/// Returns the position right after the block.
fn prefix_work<T: Copy, O: Fn(&T, &T) -> T>(v: &mut Vec<T>, start: usize, limit: usize, op: &O) -> (r: usize)
    requires
        is_function(*op),
        start < old(v)@.len(),
        limit >= 1,
    ensures
        final(v)@.len() == old(v)@.len(),
        r == if start + limit < old(v)@.len() { start + limit } else { old(v)@.len() as int },
        forall|i: int| 0 <= i <= start ==> final(v)@[i] == old(v)@[i],
        forall|s0: Seq<T>|
            #![trigger scan_accumulator_first(*op, s0, start as int)]
            s0.len() == old(v)@.len() && (forall|i: int| 0 <= i < start ==> old(v)@[i] == scan_accumulator_first(*op, s0, i))
                && old(v)@[start as int] == scan_accumulator_first(*op, s0, start as int)
                && (forall|i: int| start < i < s0.len() ==> old(v)@[i] == s0[i])
            ==> {
                &&& forall|i: int| 0 <= i < r ==> final(v)@[i] == scan_accumulator_first(*op, s0, i)
                &&& r < s0.len() ==> final(v)@[r as int] == scan_accumulator_first(*op, s0, r as int)
                &&& forall|i: int| r < i < s0.len() ==> final(v)@[i] == s0[i]
            },
{
    let n = v.len();
    let end = if limit < n - start { start + limit } else { n };
    let mut c = v[start];
    let mut k: usize = start + 1;
    let ghost v0 = v@;
    while k < end
        invariant
            n == v@.len(),
            n == v0.len(),
            is_function(*op),
            start < end <= n,
            start + 1 <= k <= end,
            c == v@[k - 1],
            forall|i: int| 0 <= i <= start ==> v@[i] == v0[i],
            forall|i: int| k <= i < n ==> v@[i] == v0[i],
            forall|i: int| start < i < k ==> v@[i] == apply(*op, v@[i - 1], v0[i]),
        decreases end - k,
    {
        let e = v[k];
        let x = call_op(op, &c, &e);
        v.set(k, x);
        c = x;
        k = k + 1;
    }
    let ghost v_loop = v@;
    // pre-update the next one
    if end < n {
        let e = v[end];
        let x = call_op(op, &c, &e);
        v.set(end, x);
    }
    proof {
        assert forall|s0: Seq<T>|
            #![trigger scan_accumulator_first(*op, s0, start as int)]
            s0.len() == v0.len() && (forall|i: int| 0 <= i < start ==> v0[i] == scan_accumulator_first(*op, s0, i))
                && v0[start as int] == scan_accumulator_first(*op, s0, start as int)
                && (forall|i: int| start < i < s0.len() ==> v0[i] == s0[i])
            implies {
                &&& forall|i: int| 0 <= i < end ==> v@[i] == scan_accumulator_first(*op, s0, i)
                &&& end < s0.len() ==> v@[end as int] == scan_accumulator_first(*op, s0, end as int)
                &&& forall|i: int| end < i < s0.len() ==> v@[i] == s0[i]
            } by {
            assert forall|i: int| 0 <= i < end implies v_loop[i] == scan_accumulator_first(*op, s0, i) by {
                lemma_block_scan(*op, v_loop, v0, s0, start as int, i);
            }
            assert forall|i: int| 0 <= i < end implies v@[i] == scan_accumulator_first(*op, s0, i) by {
                assert(v@[i] == v_loop[i]);
            }
            if end < s0.len() {
                assert(v_loop[end - 1] == scan_accumulator_first(*op, s0, end - 1));
                assert(v@[end as int] == apply(*op, v_loop[end - 1], v0[end as int]));
                assert(v0[end as int] == s0[end as int]);
            }
        }
    }
    end
}

/// Inside a processed block every element holds its prefix.
proof fn lemma_block_scan<T, O: Fn(&T, &T) -> T>(op: O, v: Seq<T>, v0: Seq<T>, s0: Seq<T>, start: int, i: int)
    requires
        0 <= start,
        0 <= i,
        v.len() == v0.len(),
        s0.len() == v0.len(),
        i < v.len(),
        forall|k: int| 0 <= k <= start ==> v[k] == v0[k],
        forall|k: int| 0 <= k < start ==> v0[k] == scan_accumulator_first(op, s0, k),
        start < v0.len() ==> v0[start] == scan_accumulator_first(op, s0, start),
        forall|k: int| start < k < s0.len() ==> v0[k] == s0[k],
        forall|k: int| start < k <= i ==> v[k] == apply(op, v[k - 1], v0[k]),
    ensures
        v[i] == scan_accumulator_first(op, s0, i),
    decreases i,
{
    if i > start {
        lemma_block_scan(op, v, v0, s0, start, i - 1);
    }
}

/// Sequential prefix of a whole vector, by blocks whose sizes follow the policy.
fn prefix_blocks<T: Copy, O: Fn(&T, &T) -> T>(v: &mut Vec<T>, op: &O, policy: Policy)
    requires
        is_function(*op),
    ensures
        final(v)@.len() == old(v)@.len(),
        forall|i: int| 0 <= i < old(v)@.len() ==> final(v)@[i] == scan_accumulator_first(*op, old(v)@, i),
{
    let n = v.len();
    let ghost s0 = v@;
    if n == 0 {
        return;
    }
    let mut position: usize = 0;
    let mut block = policy.first_block_size();
    while position < n
        invariant
            n == v@.len(),
            n == s0.len(),
            is_function(*op),
            position <= n,
            block >= 1,
            forall|i: int| 0 <= i < position ==> v@[i] == scan_accumulator_first(*op, s0, i),
            position < n ==> v@[position as int] == scan_accumulator_first(*op, s0, position as int),
            forall|i: int| position < i < n ==> v@[i] == s0[i],
        decreases n - position,
    {
        let ghost before = v@;
        position = prefix_work(v, position, block, op);
        proof {
            assert(scan_accumulator_first(*op, s0, position as int) == scan_accumulator_first(*op, s0, position as int));
        }
        block = policy.next_block_size(block);
    }
}

/// Prefix of a whole vector: pieces above the threshold are divided, both halves
/// computed in parallel and the right half updated with the last value of the left one.
fn prefix_rec<T: Copy + Send + Sync, O: Fn(&T, &T) -> T + Sync>(
    v: Vec<T>,
    op: &O,
    threshold: usize,
    policy: Policy,
) -> (r: Vec<T>)
    requires
        is_function(*op),
        is_associative(*op),
    ensures
        r@.len() == v@.len(),
        forall|i: int| 0 <= i < v@.len() ==> r@[i] == scan_accumulator_first(*op, v@, i),
    decreases v@.len(),
{
    let n = v.len();
    if n <= threshold || n <= 1 {
        let mut v = v;
        prefix_blocks(&mut v, op, policy);
        v
    } else {
        let mut left = v;
        let right = left.split_off(n / 2);
        let ghost a = left@;
        let ghost b = right@;
        let (l, r) = join(
            move || -> (r: Vec<T>)
                requires
                    is_function(*op),
                    is_associative(*op),
                    n > left@.len(),
                ensures
                    r@.len() == a.len(),
                    forall|i: int| 0 <= i < a.len() ==> r@[i] == scan_accumulator_first(*op, a, i)
                { prefix_rec(left, op, threshold, policy) },
            move || -> (r: Vec<T>)
                requires
                    is_function(*op),
                    is_associative(*op),
                    n > right@.len(),
                ensures
                    r@.len() == b.len(),
                    forall|i: int| 0 <= i < b.len() ==> r@[i] == scan_accumulator_first(*op, b, i)
                { prefix_rec(right, op, threshold, policy) },
        );
        let mut l = l;
        let mut r = r;
        let last = l[l.len() - 1];
        update(r.as_mut_slice(), last, op);
        let ghost lv = l@;
        let ghost rv = r@;
        l.append(&mut r);
        proof {
            assert(a + b =~= v@);
            assert forall|i: int| 0 <= i < v@.len() implies l@[i] == scan_accumulator_first(*op, v@, i) by {
                if i < a.len() {
                    lemma_scan_prefix(*op, a, v@, i);
                } else {
                    let j = i - a.len();
                    let tail = v@.subrange(a.len() as int, v@.len() as int);
                    lemma_scan_prefix(*op, a, v@, a.len() - 1);
                    lemma_scan_from_continues(*op, v@, a.len() as int, j);
                    assert(tail =~= b);
                    lemma_retrieve(*op, last, b, j);
                    assert(l@[i] == rv[j]);
                }
            }
        }
        l
    }
}

/// Run the adaptive prefix algorithm on the given slice.
/// Each element is replaced by folding with `op` since the beginning of the slice:
/// the first element stays and every next element `e` becomes `op(p, e)` where `p`
/// is the new value of the element before it. It requires an associative operation.
pub fn adaptive_prefix<T: Copy + Send + Sync, O: Fn(&T, &T) -> T + Sync>(v: &mut [T], op: O)
    requires
        is_function(op),
        is_associative(op),
    ensures
        final(v)@.len() == old(v)@.len(),
        forall|i: int| 0 <= i < old(v)@.len() ==> final(v)@[i] == scan_accumulator_first(op, old(v)@, i),
{
    let n = v.len();
    let policy = Policy::DefaultPolicy;
    let threshold = policy.division_threshold(n);
    let data = vstd::slice::slice_to_vec(v);
    let result = prefix_rec(data, &op, threshold, policy);
    let mut k: usize = 0;
    while k < n
        invariant
            n == v@.len(),
            result@.len() == n,
            k <= n,
            forall|i: int| 0 <= i < k ==> v@[i] == result@[i],
        decreases n - k,
    {
        v[k] = result[k];
        k = k + 1;
    }
    proof {
        assert forall|i: int| 0 <= i < n implies v@[i] == scan_accumulator_first(op, old(v)@, i) by {
            assert(v@[i] == result@[i]);
        }
    }
}

/// Fold from an initial accumulator `c`: `r[0] = op(c, s[0])`, `r[i] = op(r[i - 1], s[i])`.
pub open spec fn scan_from<T, O: Fn(&T, &T) -> T>(op: O, c: T, s: Seq<T>, i: int) -> T
    decreases i + 1,
{
    if i < 0 {
        c
    } else {
        apply(op, scan_from(op, c, s, i - 1), s[i])
    }
}

/// Folding a piece from the prefix reached just before it continues the prefix.
proof fn lemma_scan_from_continues<T, O: Fn(&T, &T) -> T>(op: O, s: Seq<T>, pos: int, k: int)
    requires
        1 <= pos,
        0 <= k,
        pos + k < s.len(),
    ensures
        scan_from(op, scan_accumulator_first(op, s, pos - 1), s.subrange(pos, s.len() as int), k)
            == scan_accumulator_first(op, s, pos + k),
    decreases k,
{
    let t = s.subrange(pos, s.len() as int);
    let c = scan_accumulator_first(op, s, pos - 1);
    if k > 0 {
        lemma_scan_from_continues(op, s, pos, k - 1);
    } else {
        assert(scan_from(op, c, t, -1) == c);
    }
    assert(t[k] == s[pos + k]);
}

/// A locally computed prefix, combined with the accumulator reached before it,
/// is the fold from that accumulator.
proof fn lemma_retrieve<T, O: Fn(&T, &T) -> T>(op: O, c: T, piece: Seq<T>, j: int)
    requires
        is_associative(op),
        0 <= j < piece.len(),
    ensures
        apply(op, c, scan_accumulator_first(op, piece, j)) == scan_from(op, c, piece, j),
    decreases j,
{
    if j > 0 {
        lemma_retrieve(op, c, piece, j - 1);
        lemma_associative(op);
        let x = scan_accumulator_first(op, piece, j - 1);
        assert(apply(op, c, apply(op, x, piece[j])) == apply(op, apply(op, c, x), piece[j]));
    } else {
        assert(scan_from(op, c, piece, -1) == c);
    }
}

/// Adaptive prefix input: a piece of the slice; everything before `index`
/// is already done.
pub struct PrefixSlice<T> {
    slice: Vec<T>,
    index: usize,
}

impl<T: Copy> PrefixSlice<T> {
    /// Elements of the piece.
    pub closed spec fn contents(&self) -> Seq<T> {
        self.slice@
    }

    /// Number of elements done.
    pub closed spec fn done(&self) -> nat {
        self.index as nat
    }

    /// The done part lies inside the piece.
    pub closed spec fn wf(&self) -> bool {
        self.index <= self.slice@.len()
    }

    /// Number of elements still to do.
    pub fn base_length(&self) -> (r: usize)
        requires
            self.wf(),
        ensures
            r == self.contents().len() - self.done(),
    {
        self.slice.len() - self.index
    }

    /// Cut what remains in two halves; the right piece starts fresh.
    pub fn divide(self) -> (r: (Self, Self))
        requires
            self.wf(),
        ensures
            r.0.wf(),
            r.1.wf(),
            r.0.contents() + r.1.contents() == self.contents(),
            r.0.done() == self.done(),
            r.1.done() == 0,
            r.0.contents().len() == self.done() + (self.contents().len() - self.done()) / 2,
    {
        let middle = self.base_length() / 2;
        self.divide_at(middle)
    }

    /// Cut what remains at the given index; the right piece starts fresh.
    pub fn divide_at(self, index: usize) -> (r: (Self, Self))
        requires
            self.wf(),
            index <= self.contents().len() - self.done(),
        ensures
            r.0.wf(),
            r.1.wf(),
            r.0.contents() + r.1.contents() == self.contents(),
            r.0.done() == self.done(),
            r.1.done() == 0,
            r.0.contents().len() == self.done() + index,
    {
        let n = self.slice.len();
        let mut left = self.slice;
        let right = left.split_off(self.index + index);
        let r = (PrefixSlice { slice: left, index: self.index }, PrefixSlice { slice: right, index: 0 });
        proof {
            assert(r.0.contents() + r.1.contents() =~= self.contents());
        }
        r
    }

    /// Do the next `limit` elements: each becomes `op(p, e)` where `p` is the new value
    /// before it; a fresh piece keeps its first element.
    pub fn work<O: Fn(&T, &T) -> T>(self, limit: usize, op: &O) -> (r: Self)
        requires
            self.wf(),
            is_function(*op),
            limit <= self.contents().len() - self.done(),
            self.done() == 0 ==> limit >= 1,
        ensures
            r.wf(),
            r.done() == self.done() + limit,
            r.contents().len() == self.contents().len(),
            forall|i: int| 0 <= i < self.done() ==> r.contents()[i] == self.contents()[i],
            forall|i: int| self.done() + limit <= i < self.contents().len() ==> r.contents()[i] == self.contents()[i],
            forall|i: int|
                self.done() <= i < self.done() + limit ==> #[trigger] r.contents()[i] == if i == 0 {
                    self.contents()[0]
                } else {
                    apply(*op, r.contents()[i - 1], self.contents()[i])
                },
    {
        let n = self.slice.len();
        let mut slice = self.slice;
        let index = self.index;
        let ghost s0 = slice@;
        let start: usize = if index == 0 { 1 } else { index };
        let end = index + limit;
        let mut k: usize = start;
        while k < end
            invariant
                slice@.len() == s0.len(),
                is_function(*op),
                1 <= start <= k,
                start == if index == 0 { 1usize } else { index },
                k <= end || end < start,
                end == index + limit,
                end <= s0.len(),
                forall|i: int| 0 <= i < start ==> slice@[i] == s0[i],
                forall|i: int| k <= i < s0.len() ==> slice@[i] == s0[i],
                forall|i: int| start <= i < k ==> slice@[i] == apply(*op, slice@[i - 1], s0[i]),
            decreases end - k,
        {
            let previous_value = slice[k - 1];
            let e = slice[k];
            let x = call_op(op, &previous_value, &e);
            slice.set(k, x);
            k = k + 1;
        }
        PrefixSlice { slice, index: index + limit }
    }
}

/// Main thread's fold on a block: each element `e` becomes `op(c, e)` where `c`
/// is the accumulator, then the accumulator is the new element.
fn fold_block<T: Copy, O: Fn(&T, &T) -> T>(c: T, part: &mut Vec<T>, op: &O) -> (r: T)
    requires
        is_function(*op),
    ensures
        final(part)@.len() == old(part)@.len(),
        forall|i: int| 0 <= i < old(part)@.len() ==> final(part)@[i] == scan_from(*op, c, old(part)@, i),
        r == scan_from(*op, c, old(part)@, old(part)@.len() - 1),
{
    let n = part.len();
    let ghost s0 = part@;
    let mut acc = c;
    let mut k: usize = 0;
    while k < n
        invariant
            n == part@.len(),
            n == s0.len(),
            is_function(*op),
            k <= n,
            acc == scan_from(*op, c, s0, k - 1),
            forall|i: int| 0 <= i < k ==> part@[i] == scan_from(*op, c, s0, i),
            forall|i: int| k <= i < n ==> part@[i] == s0[i],
        decreases n - k,
    {
        let e = part[k];
        let x = call_op(op, &acc, &e);
        part.set(k, x);
        acc = x;
        k = k + 1;
    }
    acc
}

/// Helper's work on a stolen piece: run the prefix work to the end of the piece,
/// by blocks whose sizes follow the policy. The result is the local prefix.
fn help_prefix<T: Copy, O: Fn(&T, &T) -> T>(piece: Vec<T>, op: &O, policy: Policy) -> (r: Vec<T>)
    requires
        is_function(*op),
    ensures
        r@.len() == piece@.len(),
        forall|i: int| 0 <= i < piece@.len() ==> r@[i] == scan_accumulator_first(*op, piece@, i),
{
    let ghost s0 = piece@;
    let mut p = PrefixSlice { slice: piece, index: 0 };
    let mut block = policy.first_block_size();
    while p.base_length() > 0
        invariant
            p.wf(),
            is_function(*op),
            block >= 1,
            p.contents().len() == s0.len(),
            forall|i: int| 0 <= i < p.done() ==> p.contents()[i] == scan_accumulator_first(*op, s0, i),
            forall|i: int| p.done() <= i < s0.len() ==> p.contents()[i] == s0[i],
        decreases s0.len() - p.done(),
    {
        let remaining = p.base_length();
        let limit = if block < remaining { block } else { remaining };
        let ghost before = p.contents();
        let ghost d = p.done();
        p = p.work(limit, op);
        proof {
            assert forall|i: int| 0 <= i < p.done() implies p.contents()[i] == scan_accumulator_first(*op, s0, i) by {
                lemma_work_scan(*op, p.contents(), before, s0, d as int, i);
            }
        }
        block = policy.next_block_size(block);
    }
    p.slice
}

/// After prefix work, every done element holds its local prefix.
proof fn lemma_work_scan<T, O: Fn(&T, &T) -> T>(op: O, v: Seq<T>, before: Seq<T>, s0: Seq<T>, d: int, i: int)
    requires
        0 <= d,
        0 <= i < v.len(),
        v.len() == before.len(),
        before.len() == s0.len(),
        forall|k: int| 0 <= k < d ==> v[k] == before[k],
        forall|k: int| 0 <= k < d ==> before[k] == scan_accumulator_first(op, s0, k),
        forall|k: int| d <= k < s0.len() ==> before[k] == s0[k],
        forall|k: int| d <= k <= i ==> #[trigger] v[k] == if k == 0 { before[0] } else { apply(op, v[k - 1], before[k]) },
    ensures
        v[i] == scan_accumulator_first(op, s0, i),
    decreases i,
{
    if i >= d && i > 0 {
        lemma_work_scan(op, v, before, s0, d, i - 1);
    }
}

/// Copy `src` into `dst` starting at `at`.
fn copy_into<T: Copy>(dst: &mut Vec<T>, at: usize, src: &Vec<T>)
    requires
        at + src@.len() <= old(dst)@.len(),
    ensures
        final(dst)@ == old(dst)@.subrange(0, at as int) + src@ + old(dst)@.subrange(
            at + src@.len(),
            old(dst)@.len() as int,
        ),
{
    let ghost d0 = dst@;
    let n = dst.len();
    let mut k: usize = 0;
    while k < src.len()
        invariant
            n == dst@.len(),
            n == d0.len(),
            at + src@.len() <= n,
            k <= src@.len(),
            forall|j: int| 0 <= j < at ==> dst@[j] == d0[j],
            forall|j: int| at <= j < at + k ==> dst@[j] == src@[j - at],
            forall|j: int| at + k <= j < n ==> dst@[j] == d0[j],
        decreases src@.len() - k,
    {
        dst.set(at + k, src[k]);
        k = k + 1;
    }
    assert(dst@ =~= d0.subrange(0, at as int) + src@ + d0.subrange(at + src@.len(), d0.len() as int));
}

/// Fully adaptive prefix: the first element stays and every next element `e`
/// becomes `op(p, e)` where `p` is the new value of the element before it.
/// The input is processed by macro blocks of a tenth of its size; in each macro
/// block the main thread folds the first half while a helper computes the local
/// prefix of the second half, which is then retrieved by combining it with the
/// main thread's accumulator. A tenth of fewer than ten elements is an empty
/// block, with which no work would ever be done: the input holds one element,
/// or at least ten. It requires an associative operation.
#[verifier::rlimit(40)]
pub fn fully_adaptive_prefix<T: Copy + Send + Sync, O: Fn(&T, &T) -> T + Sync + Send + Copy>(
    input_vector: &mut [T],
    op: O,
)
    requires
        old(input_vector)@.len() == 1 || old(input_vector)@.len() >= 10,
        is_function(op),
        is_associative(op),
    ensures
        final(input_vector)@.len() == old(input_vector)@.len(),
        forall|i: int|
            0 <= i < old(input_vector)@.len() ==> final(input_vector)@[i] == scan_accumulator_first(
                op,
                old(input_vector)@,
                i,
            ),
{
    let length = input_vector.len();
    let mut v = vstd::slice::slice_to_vec(input_vector);
    let ghost s0 = v@;
    let first_value = v[0];
    let tenth = length / 10;
    let block = if tenth == 0 { 1 } else { tenth };
    let policy = Policy::Adaptive(1, block);
    let opr = &op;
    let mut c = first_value;
    let mut pos: usize = 1;
    while pos < length
        invariant
            length == v@.len(),
            length == s0.len(),
            is_function(op),
            is_associative(op),
            opr == &op,
            block >= 1,
            1 <= pos <= length,
            c == scan_accumulator_first(op, s0, pos - 1),
            forall|i: int| 0 <= i < pos ==> v@[i] == scan_accumulator_first(op, s0, i),
            forall|i: int| pos <= i < length ==> v@[i] == s0[i],
        decreases length - pos,
    {
        let end = if block < length - pos { pos + block } else { length };
        let mid = pos + (end - pos) / 2;
        let main_part = vstd::slice::slice_to_vec(vstd::slice::slice_subrange(v.as_slice(), pos, mid));
        let helper_part = vstd::slice::slice_to_vec(vstd::slice::slice_subrange(v.as_slice(), mid, end));
        let ghost mp = main_part@;
        let ghost hp = helper_part@;
        let ghost c0 = c;
        let ((c1, main_done), local) = join(
            move || -> (r: (T, Vec<T>))
                requires
                    is_function(*opr),
                ensures
                    r.1@.len() == mp.len(),
                    forall|i: int| 0 <= i < mp.len() ==> r.1@[i] == scan_from(*opr, c0, mp, i),
                    r.0 == scan_from(*opr, c0, mp, mp.len() - 1)
                {
                    let mut part = main_part;
                    let c1 = fold_block(c, &mut part, opr);
                    (c1, part)
                },
            move || -> (r: Vec<T>)
                requires
                    is_function(*opr),
                ensures
                    r@.len() == hp.len(),
                    forall|i: int| 0 <= i < hp.len() ==> r@[i] == scan_accumulator_first(*opr, hp, i)
                { help_prefix(helper_part, opr, policy) },
        );
        // retrieve the helper's work
        let mut retrieved = local;
        let mut k: usize = 0;
        let ghost loc = retrieved@;
        while k < retrieved.len()
            invariant
                retrieved@.len() == loc.len(),
                is_function(op),
                opr == &op,
                k <= loc.len(),
                forall|i: int| 0 <= i < k ==> retrieved@[i] == apply(op, c1, loc[i]),
                forall|i: int| k <= i < loc.len() ==> retrieved@[i] == loc[i],
            decreases loc.len() - k,
        {
            let e = retrieved[k];
            let x = call_op(opr, &c1, &e);
            retrieved.set(k, x);
            k = k + 1;
        }
        let new_c = if retrieved.len() > 0 { retrieved[retrieved.len() - 1] } else { c1 };
        copy_into(&mut v, pos, &main_done);
        copy_into(&mut v, mid, &retrieved);
        proof {
            let mlen = (mid - pos) as int;
            assert(mp =~= s0.subrange(pos as int, mid as int));
            assert(hp =~= s0.subrange(mid as int, end as int));
            let tail = s0.subrange(pos as int, s0.len() as int);
            assert(c1 == scan_accumulator_first(op, s0, mid - 1)) by {
                if mlen > 0 {
                    lemma_scan_from_continues(op, s0, pos as int, mlen - 1);
                    assert(mp =~= tail.subrange(0, mlen));
                    lemma_scan_from_prefix(op, c0, mp, tail, mlen - 1);
                } else {
                    assert(scan_from(op, c0, mp, -1) == c0);
                }
            }
            assert forall|i: int| 0 <= i < end implies v@[i] == scan_accumulator_first(op, s0, i) by {
                if pos <= i < mid {
                    lemma_scan_from_continues(op, s0, pos as int, i - pos);
                    assert(mp =~= tail.subrange(0, mlen));
                    lemma_scan_from_prefix(op, c0, mp, tail, i - pos);
                } else if mid <= i {
                    let htail = s0.subrange(mid as int, s0.len() as int);
                    lemma_retrieve(op, c1, hp, i - mid);
                    if mid >= 1 {
                        lemma_scan_from_continues(op, s0, mid as int, i - mid);
                    }
                    assert(hp =~= htail.subrange(0, hp.len() as int));
                    lemma_scan_from_prefix(op, c1, hp, htail, i - mid);
                }
            }
            if end > mid {
                assert(new_c == v@[end - 1]);
            }
        }
        c = new_c;
        pos = end;
    }
    let mut k: usize = 0;
    while k < length
        invariant
            length == input_vector@.len(),
            length == v@.len(),
            k <= length,
            forall|i: int| 0 <= i < k ==> input_vector@[i] == v@[i],
        decreases length - k,
    {
        input_vector[k] = v[k];
        k = k + 1;
    }
    proof {
        assert forall|i: int| 0 <= i < length implies input_vector@[i] == scan_accumulator_first(op, s0, i) by {
            assert(input_vector@[i] == v@[i]);
        }
    }
}

/// A fold only depends on the elements it reads.
proof fn lemma_scan_from_prefix<T, O: Fn(&T, &T) -> T>(op: O, c: T, a: Seq<T>, b: Seq<T>, k: int)
    requires
        0 <= k < a.len(),
        a.len() <= b.len(),
        forall|i: int| 0 <= i <= k ==> a[i] == b[i],
    ensures
        scan_from(op, c, a, k) == scan_from(op, c, b, k),
    decreases k,
{
    if k > 0 {
        lemma_scan_from_prefix(op, c, a, b, k - 1);
    } else {
        assert(scan_from(op, c, a, -1) == c);
        assert(scan_from(op, c, b, -1) == c);
    }
}

} // verus!
