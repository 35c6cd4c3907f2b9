//! Evaluation of infix expressions made of numbers, sums and products.
//! A number directly following another one multiplies it.
use vstd::prelude::*;
use smallvec::SmallVec;
use crate::parallel::join;
use crate::policy::Policy;
use vstd::slice::slice_subrange;
use rayon::iter::{IntoParallelRefIterator, ParallelIterator};
use rayon::slice::ParallelSlice;

verus! {

/// Tokens of an expression.
#[derive(Debug, PartialEq, Eq, Structural)]
pub enum Token {
    Mult,
    Add,
    Num(u64),
}

/// Sequential evaluation state after some tokens: the sum of the finished terms
/// and the product of the current term.
pub open spec fn eval_state(tokens: Seq<Token>) -> (int, int)
    decreases tokens.len(),
{
    if tokens.len() == 0 {
        (0, 1)
    } else {
        let (s, p) = eval_state(tokens.drop_last());
        match tokens.last() {
            Token::Num(i) => (s, p * i),
            Token::Mult => (s, p),
            Token::Add => (s + p, 1),
        }
    }
}

/// Value of an expression.
pub open spec fn infix_value(tokens: Seq<Token>) -> int {
    eval_state(tokens).0 + eval_state(tokens).1
}

/// Sum of a sequence of integers.
pub open spec fn seq_sum(s: Seq<int>) -> int
    decreases s.len(),
{
    if s.len() == 0 {
        0
    } else {
        seq_sum(s.drop_last()) + s.last()
    }
}

/// Partial products after one more token: the last product is multiplied by a number;
/// a sum starts a new product, the middle products being summed up so that at most
/// three products remain (first, middle sum, current).
pub open spec fn pp_step(p: Seq<int>, t: Token) -> Seq<int> {
    match t {
        Token::Num(i) => p.update(p.len() - 1, p.last() * i),
        Token::Mult => p,
        Token::Add => if p.len() == 3 {
            seq![p[0], p[1] + p[2], 1]
        } else {
            p.push(1)
        },
    }
}

/// Partial products of a sequence of tokens, folded from `[1]`.
pub open spec fn pp_of(tokens: Seq<Token>) -> Seq<int>
    decreases tokens.len(),
{
    if tokens.len() == 0 {
        seq![1]
    } else {
        pp_step(pp_of(tokens.drop_last()), tokens.last())
    }
}

/// Keep at most three products: the first, the sum of the middle ones and the last.
pub open spec fn pp_reduce(p: Seq<int>) -> Seq<int> {
    if p.len() > 3 {
        seq![p[0], seq_sum(p.subrange(1, p.len() - 1)), p.last()]
    } else {
        p
    }
}

/// Fuse the partial products of two consecutive pieces: the last product of the
/// first piece and the first product of the second one belong to the same term.
pub open spec fn pp_fuse(a: Seq<int>, b: Seq<int>) -> Seq<int> {
    pp_reduce(a.update(a.len() - 1, a.last() * b[0]) + b.subrange(1, b.len() as int))
}

/// Combine a sequential state with the partial products of the following piece.
pub open spec fn combine_state(state: (int, int), pp: Seq<int>) -> (int, int) {
    let (s, p) = state;
    if pp.len() == 1 {
        (s, p * pp[0])
    } else if pp.len() == 2 {
        (s + p * pp[0], pp[1])
    } else {
        (s + p * pp[0] + pp[1], pp[2])
    }
}

/// Partial products have one to three non-negative elements.
pub open spec fn pp_wf(p: Seq<int>) -> bool {
    &&& 1 <= p.len() <= 3
    &&& forall|k: int| 0 <= k < p.len() ==> p[k] >= 0
}

proof fn lemma_sum2(a: int, b: int)
    ensures
        seq_sum(seq![a, b]) == a + b,
{
    reveal_with_fuel(seq_sum, 3);
    assert(seq![a, b].drop_last() =~= seq![a]);
    assert(seq![a].drop_last() =~= Seq::<int>::empty());
}

proof fn lemma_sum3(a: int, b: int, c: int)
    ensures
        seq_sum(seq![a, b, c]) == a + b + c,
{
    assert(seq![a, b, c].drop_last() =~= seq![a, b]);
    lemma_sum2(a, b);
}

/// Partial products are well formed and hold the sequential state:
/// their last element is the current product and the others sum to the finished terms.
pub proof fn lemma_pp_state(tokens: Seq<Token>)
    ensures
        pp_wf(pp_of(tokens)),
        pp_of(tokens).last() == eval_state(tokens).1,
        seq_sum(pp_of(tokens).drop_last()) == eval_state(tokens).0,
        eval_state(tokens).0 >= 0,
        eval_state(tokens).1 >= 0,
    decreases tokens.len(),
{
    if tokens.len() == 0 {
        assert(seq![1int].drop_last() =~= Seq::<int>::empty());
    } else {
        let t = tokens.drop_last();
        lemma_pp_state(t);
        let p = pp_of(t);
        let (s, q) = eval_state(t);
        match tokens.last() {
            Token::Num(i) => {
                assert(p.update(p.len() - 1, p.last() * i).drop_last() =~= p.drop_last());
                assert(q * i >= 0) by (nonlinear_arith) requires q >= 0, i >= 0;
            },
            Token::Mult => {},
            Token::Add => {
                if p.len() == 3 {
                    lemma_sum3(p[0], p[1], p[2]);
                    lemma_sum2(p[0], p[1] + p[2]);
                    assert(p.drop_last() =~= seq![p[0], p[1]]);
                    lemma_sum2(p[0], p[1]);
                    assert(seq![p[0], p[1] + p[2], 1int].drop_last() =~= seq![p[0], p[1] + p[2]]);
                } else {
                    assert(p.push(1).drop_last() =~= p);
                    assert(seq_sum(p) == seq_sum(p.drop_last()) + p.last());
                }
            },
        }
    }
}

/// The value of an expression is the sum of its partial products.
pub proof fn lemma_pp_value(tokens: Seq<Token>)
    ensures
        seq_sum(pp_of(tokens)) == infix_value(tokens),
{
    lemma_pp_state(tokens);
}

/// What reducing four or five products gives.
proof fn lemma_reduce_explicit(p: Seq<int>)
    ensures
        p.len() <= 3 ==> pp_reduce(p) == p,
        p.len() == 4 ==> pp_reduce(p) == seq![p[0], p[1] + p[2], p[3]],
        p.len() == 5 ==> pp_reduce(p) == seq![p[0], p[1] + p[2] + p[3], p[4]],
{
    if p.len() == 4 {
        assert(p.subrange(1, 3) =~= seq![p[1], p[2]]);
        lemma_sum2(p[1], p[2]);
        assert(pp_reduce(p) =~= seq![p[0], p[1] + p[2], p[3]]);
    } else if p.len() == 5 {
        assert(p.subrange(1, 4) =~= seq![p[1], p[2], p[3]]);
        lemma_sum3(p[1], p[2], p[3]);
        assert(pp_reduce(p) =~= seq![p[0], p[1] + p[2] + p[3], p[4]]);
    }
}

/// Fusing then folding one more token is folding the token into the second piece
/// then fusing.
proof fn lemma_fuse_step(a: Seq<int>, b: Seq<int>, t: Token)
    requires
        pp_wf(a),
        pp_wf(b),
    ensures
        pp_step(pp_fuse(a, b), t) == pp_fuse(a, pp_step(b, t)),
{
    let ab = a.update(a.len() - 1, a.last() * b[0]) + b.subrange(1, b.len() as int);
    lemma_reduce_explicit(ab);
    let b2 = pp_step(b, t);
    let ab2 = a.update(a.len() - 1, a.last() * b2[0]) + b2.subrange(1, b2.len() as int);
    lemma_reduce_explicit(ab2);
    match t {
        Token::Num(i) => {
            let x = a.last();
            let y = b[0];
            assert((x * y) * i == x * (y * i)) by (nonlinear_arith);
            assert(pp_step(pp_fuse(a, b), t) =~= pp_fuse(a, pp_step(b, t)));
        },
        Token::Mult => {},
        Token::Add => {
            assert(pp_step(pp_fuse(a, b), t) =~= pp_fuse(a, pp_step(b, t)));
        },
    }
}

/// Partial products are a homomorphism: the partial products of two consecutive
/// pieces, fused, are the partial products of the whole.
pub proof fn lemma_pp_homomorphism(x: Seq<Token>, y: Seq<Token>)
    ensures
        pp_fuse(pp_of(x), pp_of(y)) == pp_of(x + y),
    decreases y.len(),
{
    lemma_pp_state(x);
    let a = pp_of(x);
    if y.len() == 0 {
        lemma_reduce_explicit(a.update(a.len() - 1, a.last() * 1) + seq![1int].subrange(1, 1));
        assert(x + y =~= x);
        assert(pp_fuse(a, seq![1int]) =~= a);
    } else {
        let y2 = y.drop_last();
        lemma_pp_homomorphism(x, y2);
        lemma_pp_state(y2);
        lemma_fuse_step(a, pp_of(y2), y.last());
        assert((x + y).drop_last() =~= x + y2);
        assert((x + y).last() == y.last());
    }
}

/// `[1]` is a neutral element for fusion on the left.
pub proof fn lemma_fuse_identity(b: Seq<int>)
    requires
        pp_wf(b),
    ensures
        pp_fuse(seq![1int], b) == b,
        pp_fuse(b, seq![1int]) == b,
{
    lemma_reduce_explicit(seq![1int].update(0, 1 * b[0]) + b.subrange(1, b.len() as int));
    assert(pp_fuse(seq![1int], b) =~= b);
    lemma_reduce_explicit(b.update(b.len() - 1, b.last() * 1) + seq![1int].subrange(1, 1));
    assert(pp_fuse(b, seq![1int]) =~= b);
}

/// Fusion is associative on partial products.
pub proof fn lemma_fuse_associative(x: Seq<Token>, y: Seq<Token>, z: Seq<Token>)
    ensures
        pp_fuse(pp_fuse(pp_of(x), pp_of(y)), pp_of(z)) == pp_fuse(pp_of(x), pp_fuse(pp_of(y), pp_of(z))),
{
    lemma_pp_homomorphism(x, y);
    lemma_pp_homomorphism(x + y, z);
    lemma_pp_homomorphism(y, z);
    lemma_pp_homomorphism(x, y + z);
    assert(x + y + z =~= x + (y + z));
}

/// Combining a sequential state with the partial products of the following piece
/// gives the sequential state after both.
pub proof fn lemma_retrieve_state(x: Seq<Token>, y: Seq<Token>)
    ensures
        combine_state(eval_state(x), pp_of(y)) == eval_state(x + y),
    decreases y.len(),
{
    if y.len() == 0 {
        assert(x + y =~= x);
        let (s, p) = eval_state(x);
        assert(pp_of(y) == seq![1int]);
        assert(p * 1 == p);
    } else {
        let y2 = y.drop_last();
        lemma_retrieve_state(x, y2);
        lemma_pp_state(y2);
        let b = pp_of(y2);
        let (s, p) = eval_state(x);
        assert((x + y).drop_last() =~= x + y2);
        assert((x + y).last() == y.last());
        match y.last() {
            Token::Num(i) => {
                assert((p * b[0]) * i == p * (b[0] * i)) by (nonlinear_arith);
                assert(combine_state(eval_state(x), pp_of(y)) == eval_state(x + y));
            },
            Token::Mult => {
                assert(combine_state(eval_state(x), pp_of(y)) == eval_state(x + y));
            },
            Token::Add => {
                if b.len() == 1 {
                    assert(pp_of(y) =~= seq![b[0], 1int]);
                } else if b.len() == 2 {
                    assert(pp_of(y) =~= seq![b[0], b[1], 1int]);
                } else {
                    assert(pp_of(y) =~= seq![b[0], b[1] + b[2], 1int]);
                }
                assert(combine_state(eval_state(x), pp_of(y)) == eval_state(x + y));
            },
        }
    }
}

/// Closed forms of small sums.
proof fn lemma_sum_closed(p: Seq<int>)
    ensures
        p.len() == 0 ==> seq_sum(p) == 0,
        p.len() == 1 ==> seq_sum(p) == p[0],
        p.len() == 2 ==> seq_sum(p) == p[0] + p[1],
        p.len() == 3 ==> seq_sum(p) == p[0] + p[1] + p[2],
        p.len() == 4 ==> seq_sum(p) == p[0] + p[1] + p[2] + p[3],
        p.len() == 5 ==> seq_sum(p) == p[0] + p[1] + p[2] + p[3] + p[4],
{
    reveal_with_fuel(seq_sum, 6);
    if p.len() >= 1 {
        assert(p.drop_last().len() == p.len() - 1);
        if p.len() >= 2 {
            assert(p.drop_last().drop_last().len() == p.len() - 2);
            if p.len() >= 3 {
                assert(p.drop_last().drop_last().drop_last().len() == p.len() - 3);
                if p.len() >= 4 {
                    assert(p.drop_last().drop_last().drop_last().drop_last().len() == p.len() - 4);
                }
            }
        }
    }
}

/// Every product kept in partial products fits in 64 bits.
pub open spec fn pp_fits(p: Seq<int>) -> bool {
    forall|k: int| 0 <= k < p.len() ==> #[trigger] p[k] <= u64::MAX
}

/// The partial products of every contiguous part of the expression fit in 64
/// bits: every value a parallel fold of the parts, whatever the cuts, computes.
pub open spec fn pp_fits_everywhere(tokens: Seq<Token>) -> bool {
    forall|i: int, j: int| 0 <= i <= j <= tokens.len() ==> #[trigger] pp_fits(pp_of(tokens.subrange(i, j)))
}

/// Every state a sequential evaluation goes through (sum of the finished terms,
/// current product) fits in 64 bits.
pub open spec fn states_fit(tokens: Seq<Token>) -> bool {
    forall|k: int|
        #![trigger eval_state(tokens.subrange(0, k))]
        0 <= k <= tokens.len() ==> eval_state(tokens.subrange(0, k)).0 <= u64::MAX && eval_state(
            tokens.subrange(0, k),
        ).1 <= u64::MAX
}

/// The parts of an expression whose partial products fit everywhere do too.
proof fn lemma_pp_fits_subrange(tokens: Seq<Token>, a: int, b: int)
    requires
        pp_fits_everywhere(tokens),
        0 <= a <= b <= tokens.len(),
    ensures
        pp_fits_everywhere(tokens.subrange(a, b)),
{
    let t = tokens.subrange(a, b);
    assert forall|i: int, j: int| 0 <= i <= j <= t.len() implies #[trigger] pp_fits(pp_of(t.subrange(i, j))) by {
        assert(t.subrange(i, j) =~= tokens.subrange(a + i, a + j));
    }
}

/// The states of a prefix are states of the whole.
proof fn lemma_states_prefix(tokens: Seq<Token>, n: int)
    requires
        states_fit(tokens),
        0 <= n <= tokens.len(),
    ensures
        states_fit(tokens.subrange(0, n)),
{
    let t = tokens.subrange(0, n);
    assert forall|k: int| 0 <= k <= t.len() implies #[trigger] eval_state(t.subrange(0, k)).0 <= u64::MAX
        && eval_state(t.subrange(0, k)).1 <= u64::MAX by {
        assert(t.subrange(0, k) =~= tokens.subrange(0, k));
    }
}

/// The products of an expression, as stored: a small vector of at most three `u64`.
#[verifier::external_body]
pub struct Products {
    inner: SmallVec<[u64; 3]>,
}

/// The elements held by a `Products` vector.
pub uninterp spec fn products_view(p: Products) -> Seq<u64>;

/// `SmallVec::new`: an empty vector.
#[verifier::external_body]
fn products_new() -> (r: Products)
    ensures
        products_view(r) == Seq::<u64>::empty(),
{
    Products { inner: SmallVec::new() }
}

/// `SmallVec::push`: appends an element.
#[verifier::external_body]
fn products_push(p: &mut Products, x: u64)
    ensures
        products_view(*final(p)) == products_view(*old(p)).push(x),
{
    p.inner.push(x)
}

/// `SmallVec::len`: the number of elements.
#[verifier::external_body]
fn products_len(p: &Products) -> (r: usize)
    ensures
        r == products_view(*p).len(),
{
    p.inner.len()
}

/// Indexing a `SmallVec`: the element at `i` (panics out of bounds).
#[verifier::external_body]
fn products_get(p: &Products, i: usize) -> (r: u64)
    requires
        i < products_view(*p).len(),
    ensures
        r == products_view(*p)[i as int],
{
    p.inner[i]
}

/// Indexing a `SmallVec` mutably: replaces the element at `i` (panics out of bounds).
#[verifier::external_body]
fn products_set(p: &mut Products, i: usize, x: u64)
    requires
        i < products_view(*old(p)).len(),
    ensures
        products_view(*final(p)) == products_view(*old(p)).update(i as int, x),
{
    p.inner[i] = x
}

/// Partial products of a piece of an expression.
pub struct PartialProducts {
    products: Products,
}

/// Each element of a non-negative sequence is at most its sum, and so is each partial sum.
proof fn lemma_sum_bounds(p: Seq<int>)
    requires
        forall|k: int| 0 <= k < p.len() ==> p[k] >= 0,
    ensures
        forall|k: int| 0 <= k < p.len() ==> p[k] <= seq_sum(p),
        forall|k: int| 0 <= k <= p.len() ==> seq_sum(p.subrange(0, k)) <= seq_sum(p),
        seq_sum(p) >= 0,
    decreases p.len(),
{
    if p.len() > 0 {
        let q = p.drop_last();
        lemma_sum_bounds(q);
        assert forall|k: int| 0 <= k <= p.len() implies seq_sum(p.subrange(0, k)) <= seq_sum(p) by {
            if k < p.len() {
                assert(p.subrange(0, k) =~= q.subrange(0, k));
            } else {
                assert(p.subrange(0, k) =~= p);
            }
        }
        assert forall|k: int| 0 <= k < p.len() implies p[k] <= seq_sum(p) by {
            if k < p.len() - 1 {
                assert(q[k] == p[k]);
            }
        }
    }
}

impl PartialProducts {
    /// The products, as integers.
    pub closed spec fn model(&self) -> Seq<int> {
        products_view(self.products).map_values(|x: u64| x as int)
    }

    /// Start with the empty product.
    fn new() -> (r: Self)
        ensures
            r.model() == seq![1int],
    {
        let mut products = products_new();
        products_push(&mut products, 1);
        let r = PartialProducts { products };
        assert(r.model() =~= seq![1int]);
        r
    }

    /// Multiply the current product by `num`.
    fn update_product(&mut self, num: u64)
        requires
            pp_wf(old(self).model()),
            old(self).model().last() * num <= u64::MAX,
        ensures
            final(self).model() == pp_step(old(self).model(), Token::Num(num)),
    {
        let len = products_len(&self.products);
        let last = products_get(&self.products, len - 1);
        products_set(&mut self.products, len - 1, last * num);
        assert(self.model() =~= pp_step(old(self).model(), Token::Num(num)));
    }

    /// A sum: start a new product, summing the middle ones so that at most three remain.
    fn append_product(&mut self)
        requires
            pp_wf(old(self).model()),
            old(self).model().len() == 3 ==> old(self).model()[1] + old(self).model()[2] <= u64::MAX,
        ensures
            final(self).model() == pp_step(old(self).model(), Token::Add),
            2 <= final(self).model().len() <= 3,
            final(self).model().last() == 1,
            final(self).model()[0] == old(self).model()[0],
            seq_sum(final(self).model()) == seq_sum(old(self).model()) + 1,
    {
        let len = products_len(&self.products);
        if len == 3 {
            let p1 = products_get(&self.products, 1);
            let p2 = products_get(&self.products, 2);
            products_set(&mut self.products, 1, p1 + p2);
            products_set(&mut self.products, 2, 1);
        } else {
            products_push(&mut self.products, 1);
        }
        assert(self.model() =~= pp_step(old(self).model(), Token::Add));
        proof {
            lemma_sum_closed(old(self).model());
            lemma_sum_closed(self.model());
        }
    }

    /// Keep at most three products: the first, the sum of the middle ones and the last.
    fn reduce_products(&mut self)
        requires
            1 <= old(self).model().len() <= 5,
            forall|k: int| 0 <= k < old(self).model().len() ==> old(self).model()[k] >= 0,
            old(self).model().len() > 3 ==> seq_sum(
                old(self).model().subrange(1, old(self).model().len() - 1),
            ) <= u64::MAX,
        ensures
            final(self).model() == pp_reduce(old(self).model()),
    {
        let len = products_len(&self.products);
        let ghost m = self.model();
        let ghost mid = m.subrange(1, m.len() - 1);
        proof {
            lemma_sum_closed(m);
            if m.len() > 3 {
                lemma_sum_bounds(mid);
            }
        }
        if len > 3 {
            let mut sum: u64 = 0;
            let mut k: usize = 1;
            while k < len - 1
                invariant
                    len == products_view(self.products).len(),
                    m == self.model(),
                    4 <= len <= 5,
                    1 <= k <= len - 1,
                    sum == seq_sum(m.subrange(1, k as int)),
                    forall|j: int| 0 <= j < m.len() ==> m[j] >= 0,
                    mid == m.subrange(1, m.len() - 1),
                    seq_sum(mid) <= u64::MAX,
                    forall|j: int| 0 <= j <= mid.len() ==> seq_sum(mid.subrange(0, j)) <= seq_sum(mid),
                decreases len - 1 - k,
            {
                let x = products_get(&self.products, k);
                proof {
                    assert(m.subrange(1, k + 1) =~= mid.subrange(0, k as int));
                    assert(m.subrange(1, k + 1).drop_last() =~= m.subrange(1, k as int));
                }
                sum = sum + x;
                k = k + 1;
            }
            let first = products_get(&self.products, 0);
            let last = products_get(&self.products, len - 1);
            let mut products = products_new();
            products_push(&mut products, first);
            products_push(&mut products, sum);
            products_push(&mut products, last);
            self.products = products;
            assert(self.model() =~= pp_reduce(m));
        }
    }

    /// Fuse the partial products of this piece with those of the next piece.
    fn fuse(self, other: &Self) -> (r: Self)
        requires
            pp_wf(self.model()),
            pp_wf(other.model()),
            pp_fits(pp_fuse(self.model(), other.model())),
        ensures
            r.model() == pp_fuse(self.model(), other.model()),
            forall|x: Seq<Token>, y: Seq<Token>|
                self.model() == pp_of(x) && other.model() == pp_of(y) ==> r.model() == #[trigger] pp_of(x + y),
    {
        proof {
            assert forall|x: Seq<Token>, y: Seq<Token>|
                self.model() == pp_of(x) && other.model() == pp_of(y) implies pp_fuse(
                self.model(),
                other.model(),
            ) == #[trigger] pp_of(x + y) by {
                lemma_pp_homomorphism(x, y);
            }
        }
        let ghost a = self.model();
        let ghost b = other.model();
        let ghost ab = a.update(a.len() - 1, a.last() * b[0]) + b.subrange(1, b.len() as int);
        proof {
            lemma_reduce_explicit(ab);
            lemma_sum_closed(ab);
            lemma_sum_closed(pp_reduce(ab));
            assert(a.last() * b[0] >= 0) by (nonlinear_arith) requires a.last() >= 0, b[0] >= 0;
            let f = pp_reduce(ab);
            assert(ab[a.len() - 1] == a.last() * b[0]);
            if ab.len() <= 3 {
                assert(f[a.len() - 1] <= u64::MAX);
            } else if a.len() == 1 {
                assert(f[0] <= u64::MAX);
            } else {
                assert(f[1] <= u64::MAX);
                assert(ab.subrange(1, ab.len() - 1)[a.len() - 2] == ab[a.len() - 1]);
                if ab.len() == 4 {
                    assert(ab.subrange(1, 3) =~= seq![ab[1], ab[2]]);
                    lemma_sum2(ab[1], ab[2]);
                } else {
                    assert(ab.subrange(1, 4) =~= seq![ab[1], ab[2], ab[3]]);
                    lemma_sum3(ab[1], ab[2], ab[3]);
                }
            }
            assert(a.last() * b[0] <= u64::MAX);
        }
        let mut s = self;
        let la = products_len(&s.products);
        let last = products_get(&s.products, la - 1);
        let first = products_get(&other.products, 0);
        products_set(&mut s.products, la - 1, last * first);
        let lb = products_len(&other.products);
        let mut k: usize = 1;
        while k < lb
            invariant
                lb == b.len(),
                la == a.len(),
                pp_wf(a),
                pp_wf(b),
                1 <= k <= lb,
                b == other.model(),
                s.model() == a.update(a.len() - 1, a.last() * b[0]) + b.subrange(1, k as int),
            decreases lb - k,
        {
            let x = products_get(&other.products, k);
            assert(b[k as int] == x as int);
            let ghost before = s.model();
            products_push(&mut s.products, x);
            assert(s.model() =~= before.push(x as int));
            k = k + 1;
            proof {
                assert(s.model() =~= a.update(a.len() - 1, a.last() * b[0]) + b.subrange(1, k as int));
            }
        }
        proof {
            assert(s.model() =~= ab);
            assert forall|j: int| 0 <= j < ab.len() implies ab[j] >= 0 by {
                if j >= a.len() {
                    assert(ab[j] == b[j - a.len() + 1]);
                }
            }
            if ab.len() > 3 {
                assert(pp_reduce(ab)[1] == seq_sum(ab.subrange(1, ab.len() - 1)));
            }
        }
        s.reduce_products();
        s
    }

    /// The value of the piece: the sum of its products.
    fn evaluate(self) -> (r: u64)
        requires
            pp_wf(self.model()),
            seq_sum(self.model()) <= u64::MAX,
        ensures
            r == seq_sum(self.model()),
    {
        let len = products_len(&self.products);
        let ghost m = self.model();
        proof {
            lemma_sum_bounds(m);
        }
        let mut sum: u64 = 0;
        let mut k: usize = 0;
        while k < len
            invariant
                len == m.len(),
                m == self.model(),
                k <= len,
                sum == seq_sum(m.subrange(0, k as int)),
                forall|j: int| 0 <= j <= m.len() ==> seq_sum(m.subrange(0, j)) <= seq_sum(m),
                seq_sum(m) <= u64::MAX,
                forall|j: int| 0 <= j < m.len() ==> m[j] >= 0,
            decreases len - k,
        {
            let x = products_get(&self.products, k);
            proof {
                assert(m.subrange(0, k + 1).drop_last() =~= m.subrange(0, k as int));
            }
            sum = sum + x;
            k = k + 1;
        }
        assert(m.subrange(0, len as int) =~= m);
        sum
    }
}

impl Default for PartialProducts {
    fn default() -> (r: Self)
        ensures
            r.model() == seq![1int],
    {
        PartialProducts::new()
    }
}

/// Products of the pieces between sums: a sum starts a new (empty) piece whose
/// product is 1; a number multiplies the product of the current piece.
pub open spec fn pieces_products(tokens: Seq<Token>) -> Seq<int>
    decreases tokens.len(),
{
    if tokens.len() == 0 {
        seq![1]
    } else {
        let q = pieces_products(tokens.drop_last());
        match tokens.last() {
            Token::Add => q.push(1),
            Token::Num(i) => q.update(q.len() - 1, q.last() * i),
            Token::Mult => q,
        }
    }
}

/// The sum of the products of the pieces between sums is the value of the expression.
pub proof fn lemma_pieces_value(tokens: Seq<Token>)
    ensures
        pieces_products(tokens).len() >= 1,
        pieces_products(tokens).last() == eval_state(tokens).1,
        seq_sum(pieces_products(tokens).drop_last()) == eval_state(tokens).0,
        seq_sum(pieces_products(tokens)) == infix_value(tokens),
    decreases tokens.len(),
{
    let q = pieces_products(tokens);
    if tokens.len() == 0 {
        assert(seq![1int].drop_last() =~= Seq::<int>::empty());
    } else {
        let t = tokens.drop_last();
        lemma_pieces_value(t);
        let q0 = pieces_products(t);
        match tokens.last() {
            Token::Add => {
                assert(q0.push(1).drop_last() =~= q0);
            },
            Token::Num(i) => {
                assert(q0.update(q0.len() - 1, q0.last() * i).drop_last() =~= q0.drop_last());
            },
            Token::Mult => {},
        }
    }
    assert(seq_sum(q) == seq_sum(q.drop_last()) + q.last());
}

/// Whether a token is a sum.
fn token_is_add(token: &Token) -> (r: bool)
    ensures
        r == (*token == Token::Add),
{
    match token {
        Token::Add => true,
        _ => false,
    }
}

/// The number a token holds, if any.
fn token_number(token: &Token) -> (r: Option<u64>)
    ensures
        r == (match *token {
            Token::Num(i) => Some(i),
            _ => None,
        }),
{
    match token {
        Token::Num(i) => Some(*i),
        _ => None,
    }
}

/// Fold one token into partial products.
fn fold_token(p: PartialProducts, token: &Token) -> (r: PartialProducts)
    requires
        pp_wf(p.model()),
        pp_fits(pp_step(p.model(), *token)),
    ensures
        r.model() == pp_step(p.model(), *token),
{
    let ghost m = p.model();
    let mut p = p;
    match token {
        Token::Num(i) => {
            proof {
                let st = pp_step(m, *token);
                assert(st[m.len() - 1] == m.last() * (*i as int));
            }
            p.update_product(*i);
        },
        Token::Add => {
            proof {
                let st = pp_step(m, *token);
                if m.len() == 3 {
                    assert(st[1] == m[1] + m[2]);
                }
            }
            p.append_product();
        },
        Token::Mult => {},
    }
    p
}

/// Fold all tokens sequentially into partial products.
fn fold_seq(tokens: &[Token]) -> (r: PartialProducts)
    requires
        pp_fits_everywhere(tokens@),
    ensures
        r.model() == pp_of(tokens@),
{
    let n = tokens.len();
    let mut p = PartialProducts::new();
    let mut k: usize = 0;
    proof {
        assert(tokens@.subrange(0, 0) =~= Seq::<Token>::empty());
    }
    while k < n
        invariant
            n == tokens@.len(),
            pp_fits_everywhere(tokens@),
            k <= n,
            p.model() == pp_of(tokens@.subrange(0, k as int)),
        decreases n - k,
    {
        proof {
            lemma_pp_state(tokens@.subrange(0, k as int));
            assert(pp_fits(pp_of(tokens@.subrange(0, k + 1))));
            assert(tokens@.subrange(0, k + 1).drop_last() =~= tokens@.subrange(0, k as int));
        }
        p = fold_token(p, &tokens[k]);
        k = k + 1;
    }
    assert(tokens@.subrange(0, n as int) =~= tokens@);
    p
}

/// Adaptive fold of the tokens into partial products: pieces above the policy's
/// threshold are divided, both halves folded in parallel and their partial products fused.
fn fold_tokens(tokens: &[Token], policy: Policy) -> (r: PartialProducts)
    requires
        pp_fits_everywhere(tokens@),
    ensures
        r.model() == pp_of(tokens@),
    decreases tokens@.len(),
{
    let n = tokens.len();
    let threshold = policy.division_threshold(n);
    if n <= threshold || n <= 1 {
        fold_seq(tokens)
    } else {
        let mid = n / 2;
        let left = slice_subrange(tokens, 0, mid);
        let right = slice_subrange(tokens, mid, n);
        proof {
            lemma_pp_fits_subrange(tokens@, 0, mid as int);
            lemma_pp_fits_subrange(tokens@, mid as int, n as int);
        }
        let (lp, rp) = join(
            move || -> (r: PartialProducts)
                requires
                    pp_fits_everywhere(left@),
                    n > left@.len(),
                ensures
                    r.model() == pp_of(left@)
                { fold_tokens(left, policy) },
            move || -> (r: PartialProducts)
                requires
                    pp_fits_everywhere(right@),
                    n > right@.len(),
                ensures
                    r.model() == pp_of(right@)
                { fold_tokens(right, policy) },
        );
        proof {
            lemma_pp_state(left@);
            lemma_pp_state(right@);
            lemma_pp_homomorphism(left@, right@);
            assert(left@ + right@ =~= tokens@);
            assert(tokens@.subrange(0, n as int) =~= tokens@);
            assert(pp_fits(pp_of(tokens@.subrange(0, n as int))));
        }
        lp.fuse(&rp)
    }
}

/// Sequential evaluation: fold the tokens into the state (sum of finished terms,
/// current product), from the state reached after `before`.
fn fold_state(state: (u64, u64), tokens: &[Token], Ghost(before): Ghost<Seq<Token>>) -> (r: (u64, u64))
    requires
        (state.0 as int, state.1 as int) == eval_state(before),
        states_fit(before + tokens@),
    ensures
        (r.0 as int, r.1 as int) == eval_state(before + tokens@),
{
    let n = tokens.len();
    let mut s = state.0;
    let mut p = state.1;
    let mut k: usize = 0;
    let ghost all = before + tokens@;
    proof {
        assert(before + tokens@.subrange(0, 0) =~= before);
    }
    while k < n
        invariant
            n == tokens@.len(),
            all == before + tokens@,
            states_fit(all),
            k <= n,
            (s as int, p as int) == eval_state(before + tokens@.subrange(0, k as int)),
        decreases n - k,
    {
        let ghost cur = before + tokens@.subrange(0, k as int);
        let ghost next = before + tokens@.subrange(0, k + 1);
        proof {
            assert(next.drop_last() =~= cur);
            assert(next =~= all.subrange(0, before.len() + k + 1));
            assert(cur =~= all.subrange(0, before.len() + k));
            lemma_pp_state(next);
            lemma_pp_state(cur);
            assert(eval_state(all.subrange(0, before.len() + k + 1)).0 <= u64::MAX);
            assert(eval_state(all.subrange(0, before.len() + k + 1)).1 <= u64::MAX);
        }
        match &tokens[k] {
            Token::Num(i) => {
                p = p * *i;
            },
            Token::Mult => {},
            Token::Add => {
                s = s + p;
                p = 1;
            },
        }
        k = k + 1;
    }
    assert(before + tokens@.subrange(0, n as int) =~= all);
    (s, p)
}

/// Sequential solver: the value of the expression.
pub fn solver_seq(inp: &[Token]) -> (r: u64)
    requires
        states_fit(inp@),
        infix_value(inp@) <= u64::MAX,
    ensures
        r == infix_value(inp@),
{
    let ghost empty = Seq::<Token>::empty();
    proof {
        assert(empty + inp@ =~= inp@);
    }
    let t = fold_state((0, 1), inp, Ghost(empty));
    t.0 + t.1
}

/// Whether the sequential solver can evaluate `inp`: every state it goes
/// through, and the value, fit in 64 bits.
pub fn sequential_evaluation_fits(inp: &[Token]) -> (r: bool)
    ensures
        r == (states_fit(inp@) && infix_value(inp@) <= u64::MAX),
{
    let n = inp.len();
    let mut s: u64 = 0;
    let mut p: u64 = 1;
    let mut k: usize = 0;
    proof {
        assert(inp@.subrange(0, 0) =~= Seq::<Token>::empty());
    }
    while k < n
        invariant
            n == inp@.len(),
            k <= n,
            (s as int, p as int) == eval_state(inp@.subrange(0, k as int)),
            forall|j: int|
                0 <= j <= k ==> #[trigger] eval_state(inp@.subrange(0, j)).0 <= u64::MAX && eval_state(
                    inp@.subrange(0, j),
                ).1 <= u64::MAX,
        decreases n - k,
    {
        let ghost next = inp@.subrange(0, k + 1);
        proof {
            assert(next.drop_last() =~= inp@.subrange(0, k as int));
            assert(next.last() == inp@[k as int]);
        }
        match &inp[k] {
            Token::Num(i) => {
                match p.checked_mul(*i) {
                    Some(q) => {
                        p = q;
                    },
                    None => {
                        assert(eval_state(next).1 == p as int * *i as int);
                        assert(eval_state(next).1 > u64::MAX);
                        return false;
                    },
                }
            },
            Token::Mult => {},
            Token::Add => {
                match s.checked_add(p) {
                    Some(t) => {
                        s = t;
                        p = 1;
                    },
                    None => {
                        assert(eval_state(next).0 > u64::MAX);
                        return false;
                    },
                }
            },
        }
        k = k + 1;
    }
    proof {
        assert(inp@.subrange(0, n as int) =~= inp@);
    }
    match s.checked_add(p) {
        Some(_) => true,
        None => false,
    }
}

/// Product of the numbers among `tokens` (1 for none).
pub open spec fn numbers_product(tokens: Seq<Token>) -> int
    decreases tokens.len(),
{
    if tokens.len() == 0 {
        1
    } else {
        numbers_product(tokens.drop_last()) * match tokens.last() {
            Token::Num(i) => i as int,
            _ => 1,
        }
    }
}

/// The product of the numbers of every contiguous part of `tokens` fits in 64 bits.
pub open spec fn products_fit(tokens: Seq<Token>) -> bool {
    forall|i: int, j: int|
        0 <= i <= j <= tokens.len() ==> #[trigger] numbers_product(tokens.subrange(i, j)) <= u64::MAX
}

/// rayon's parallel `filter_map` of the numbers of `piece` and their `product`:
/// the product of the numbers. rayon multiplies the numbers of contiguous parts
/// and then those products, so every product it computes is the product of a
/// contiguous part, which fits in 64 bits under the precondition.
#[verifier::external_body]
fn rayon_product(piece: &[Token]) -> (r: u64)
    requires
        products_fit(piece@),
    ensures
        r == numbers_product(piece@),
{
    piece.par_iter().filter_map(|tok| token_number(tok)).product::<u64>()
}

/// The product of the numbers of a piece of the expression, computed in parallel.
fn piece_product(piece: &[Token]) -> (r: u64)
    requires
        products_fit(piece@),
    ensures
        r == numbers_product(piece@),
{
    rayon_product(piece)
}

/// `tokens[i..j]` holds no sum.
pub open spec fn no_add(tokens: Seq<Token>, i: int, j: int) -> bool {
    forall|k: int| i <= k < j ==> tokens[k] != Token::Add
}

/// Every value a parallel evaluation split at the sums computes fits in 64
/// bits, whatever rayon's cuts: the product of the numbers of every contiguous
/// part of a piece between sums, and the sum of the products of every run of
/// consecutive pieces.
pub open spec fn split_fits(tokens: Seq<Token>) -> bool {
    &&& forall|i: int, j: int|
        0 <= i <= j <= tokens.len() && no_add(tokens, i, j) ==> #[trigger] numbers_product(tokens.subrange(i, j))
            <= u64::MAX
    &&& forall|i: int, j: int|
        0 <= i <= j <= pieces_products(tokens).len() ==> #[trigger] seq_sum(
            pieces_products(tokens).subrange(i, j),
        ) <= u64::MAX
}

/// rayon's `par_split` on sums, the product of the numbers of each piece
/// (`piece_product`), and the `sum` of those products: the sum over the pieces
/// between sums of the product of their numbers. Every piece meets the
/// precondition of `piece_product` and every partial sum rayon computes is the
/// sum of the products of consecutive pieces, under the precondition.
#[verifier::external_body]
fn rayon_split_sum(inp: &[Token]) -> (r: u64)
    requires
        split_fits(inp@),
    ensures
        r == seq_sum(pieces_products(inp@)),
{
    inp.par_split(|tok| token_is_add(tok)).map(|slice| piece_product(slice)).sum::<u64>()
}

/// Solve by splitting in parallel at sums, multiplying in parallel inside the pieces.
pub fn solver_par_split(inp: &[Token]) -> (r: u64)
    requires
        split_fits(inp@),
    ensures
        r == infix_value(inp@),
{
    proof {
        lemma_pieces_value(inp@);
    }
    rayon_split_sum(inp)
}

/// rayon's parallel `fold` of the tokens into partial products, then `reduce` with
/// `fuse` and the identity `[1]`. rayon folds consecutive pieces of the input and
/// reduces their results in order; as `fuse` is associative with neutral `[1]`
/// (proved: `lemma_fuse_associative`, `lemma_fuse_identity`, and the homomorphism
/// `lemma_pp_homomorphism`), the result is the partial products of the whole input.
/// Every value it computes is a partial product of a contiguous part of the input,
/// which fits under the precondition.
#[verifier::external_body]
fn rayon_fold_reduce(inp: &[Token]) -> (r: PartialProducts)
    requires
        pp_fits_everywhere(inp@),
    ensures
        r.model() == pp_of(inp@),
{
    inp.par_iter().fold(PartialProducts::new, |products, tok| fold_token(products, tok)).reduce(
        PartialProducts::new,
        |left, right| left.fuse(&right),
    )
}

/// Solve with rayon's parallel fold and reduce on partial products.
pub fn solver_par_fold(inp: &[Token]) -> (r: u64)
    requires
        pp_fits_everywhere(inp@),
        infix_value(inp@) <= u64::MAX,
    ensures
        r == infix_value(inp@),
{
    let products = rayon_fold_reduce(inp);
    proof {
        lemma_pp_state(inp@);
        lemma_pp_value(inp@);
    }
    products.evaluate()
}

/// Solve with the adaptive fold on partial products, scheduled by `policy`.
pub fn solver_adaptive(inp: &[Token], policy: Policy) -> (r: u64)
    requires
        pp_fits_everywhere(inp@),
        infix_value(inp@) <= u64::MAX,
    ensures
        r == infix_value(inp@),
{
    let products = fold_tokens(inp, policy);
    proof {
        lemma_pp_state(inp@);
        lemma_pp_value(inp@);
    }
    products.evaluate()
}

/// Retrieve a helper's partial products into the sequential state.
fn combine(state: (u64, u64), pprod: &PartialProducts) -> (r: (u64, u64))
    requires
        pp_wf(pprod.model()),
        combine_state((state.0 as int, state.1 as int), pprod.model()).0 <= u64::MAX,
        combine_state((state.0 as int, state.1 as int), pprod.model()).1 <= u64::MAX,
    ensures
        (r.0 as int, r.1 as int) == combine_state((state.0 as int, state.1 as int), pprod.model()),
{
    let (s, p) = state;
    let len = products_len(&pprod.products);
    let p0 = products_get(&pprod.products, 0);
    proof {
        assert(p as int * p0 as int >= 0) by (nonlinear_arith);
    }
    if len == 1 {
        (s, p * p0)
    } else if len == 2 {
        let p1 = products_get(&pprod.products, 1);
        (s + p * p0, p1)
    } else {
        let p1 = products_get(&pprod.products, 1);
        let p2 = products_get(&pprod.products, 2);
        (s + p * p0 + p1, p2)
    }
}

/// Fully adaptive solver: the main thread evaluates sequentially while helpers
/// compute partial products of later parts, retrieved into the sequential state.
/// The input is processed by macro blocks of a tenth of its size (at least one token);
/// in each one the main thread folds the first half while a helper folds the second.
pub fn solver_fully_adaptive(inp: &[Token]) -> (r: u64)
    requires
        states_fit(inp@),
        pp_fits_everywhere(inp@),
        infix_value(inp@) <= u64::MAX,
    ensures
        r == infix_value(inp@),
{
    let n = inp.len();
    let tenth = n / 10;
    let block = if tenth == 0 { 1 } else { tenth };
    let mut s: u64 = 0;
    let mut p: u64 = 1;
    let mut pos: usize = 0;
    proof {
        assert(inp@.subrange(0, 0) =~= Seq::<Token>::empty());
    }
    while pos < n
        invariant
            n == inp@.len(),
            states_fit(inp@),
            pp_fits_everywhere(inp@),
            infix_value(inp@) <= u64::MAX,
            block >= 1,
            pos <= n,
            (s as int, p as int) == eval_state(inp@.subrange(0, pos as int)),
        decreases n - pos,
    {
        let end = if block < n - pos { pos + block } else { n };
        let mid = pos + (end - pos) / 2;
        let main_part = slice_subrange(inp, pos, mid);
        let helper_part = slice_subrange(inp, mid, end);
        let ghost before = inp@.subrange(0, pos as int);
        proof {
            assert(before + main_part@ =~= inp@.subrange(0, mid as int));
            lemma_states_prefix(inp@, mid as int);
            lemma_pp_fits_subrange(inp@, mid as int, end as int);
        }
        let state = (s, p);
        let (main_state, pprod) = join(
            move || -> (r: (u64, u64))
                requires
                    (state.0 as int, state.1 as int) == eval_state(before),
                    states_fit(before + main_part@),
                ensures
                    (r.0 as int, r.1 as int) == eval_state(before + main_part@)
                { fold_state(state, main_part, Ghost(before)) },
            move || -> (r: PartialProducts)
                requires
                    pp_fits_everywhere(helper_part@),
                ensures
                    r.model() == pp_of(helper_part@)
                { fold_tokens(helper_part, Policy::Sequential) },
        );
        proof {
            let x = inp@.subrange(0, mid as int);
            lemma_retrieve_state(x, helper_part@);
            lemma_pp_state(helper_part@);
            assert(x + helper_part@ =~= inp@.subrange(0, end as int));
            assert(eval_state(inp@.subrange(0, end as int)).0 <= u64::MAX);
        }
        let next = combine(main_state, &pprod);
        s = next.0;
        p = next.1;
        pos = end;
    }
    proof {
        assert(inp@.subrange(0, n as int) =~= inp@);
    }
    s + p
}

/// `rand::random::<u32>()`: a random number; nothing is claimed about it.
#[verifier::external_body]
fn random_u32() -> u32 {
    rand::random::<u32>()
}

/// The operator a random number stands for: a sum for one number in 100 000,
/// a product otherwise.
pub fn token_from(temp: u32) -> (r: Token)
    ensures
        r == if temp % 100_000 == 0 {
            Token::Add
        } else {
            Token::Mult
        },
{
    if temp % 100_000 == 0 {
        Token::Add
    } else {
        Token::Mult
    }
}

/// Generate a random expression with `size - 1` tokens: numbers (`k % 5` at
/// position `k - 1`, for even positions) separated by products and, rarely
/// (one chance in 100 000), sums.
pub fn vec_gen(size: u64) -> (r: Vec<Token>)
    requires
        size <= usize::MAX,
    ensures
        r@.len() == if size == 0 { 0 } else { size - 1 },
        forall|pos: int|
            0 <= pos < r@.len() ==> if pos % 2 == 0 {
                #[trigger] r@[pos] == Token::Num(((pos + 1) % 5) as u64)
            } else {
                r@[pos] == Token::Add || r@[pos] == Token::Mult
            },
{
    let mut tokens: Vec<Token> = Vec::new();
    let mut num: u64 = 1;
    while num < size
        invariant
            1 <= num,
            size == 0 ==> num == 1,
            size > 0 ==> num <= size,
            size <= usize::MAX,
            tokens@.len() == num - 1,
            forall|pos: int|
                0 <= pos < tokens@.len() ==> if pos % 2 == 0 {
                    #[trigger] tokens@[pos] == Token::Num(((pos + 1) % 5) as u64)
                } else {
                    tokens@[pos] == Token::Add || tokens@[pos] == Token::Mult
                },
        decreases size - num,
    {
        let pos = num - 1;
        let token = if pos % 2 == 0 {
            Token::Num(num % 5)
        } else {
            let temp = random_u32();
            token_from(temp)
        };
        tokens.push(token);
        num = num + 1;
    }
    tokens
}

} // verus!
