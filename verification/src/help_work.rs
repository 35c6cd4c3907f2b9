//! Fully adaptive algorithms with work: one thread folds sequentially while
//! others help it by working on parts of the input it has not reached yet.
use vstd::prelude::*;
use crate::algorithms::find_first::two_pow;
use crate::divisibility::Divisible;
use crate::folders::iterator_fold::folded_over;
use crate::folders::AdaptiveIterator;
use crate::parallel::join;
use crate::scheduling::cut_in_blocks;

verus! {

/// Remember how to work helping the sequential thread: the input, what the
/// helpers do on a piece of it (`help_op(piece, size)` works on at most `size`
/// units), and the sizes of the macro blocks.
pub struct HelpWork<I, H, S> {
    input: I,
    help_op: H,
    sizes: S,
}

/// Help the sequential fold of `input` with `help_op`, in one macro block
/// (the sizes are an empty range: none at all).
pub fn with_help_work<I: Divisible, H: Fn(I, usize) -> I>(input: I, help_op: H) -> (r: HelpWork<
    I,
    H,
    core::ops::Range<usize>,
>)
    ensures
        r.input() == input,
        r.helper() == help_op,
        r.sizes() == (0usize..0usize),
{
    HelpWork { input, help_op, sizes: 0..0 }
}

/// The helpers' operation accepts every valid finite input with a size between
/// 1 and its length, and leaves a valid, shorter input.
pub open spec fn help_ready<I: Divisible, H: Fn(I, usize) -> I>(help_op: H) -> bool {
    &&& forall|i: I, size: usize|
        i.valid() && i.length() is Some && 0 < size <= i.length()->0
            ==> #[trigger] help_op.requires((i, size))
    &&& forall|i: I, size: usize, r: I|
        i.valid() && i.length() is Some && 0 < size <= i.length()->0 && #[trigger] help_op.ensures(
            (i, size),
            r,
        ) ==> r.valid() && r.length() is Some && r.length()->0 < i.length()->0
}

/// Helpers worked on `piece` until nothing was left of it, ending with `worked`.
pub open spec fn helped_to_end<I: Divisible, H: Fn(I, usize) -> I>(help_op: H, piece: I, worked: I) -> bool {
    exists|states: Seq<I>, sizes: Seq<usize>|
        {
            &&& states.len() >= 1
            &&& sizes.len() == states.len() - 1
            &&& states[0] == piece
            &&& states.last() == worked
            &&& worked.length() == Some(0nat)
            &&& forall|k: int| 0 <= k < sizes.len() ==> #[trigger] help_op.ensures((states[k], sizes[k]), states[k + 1])
        }
}

/// `out` is what the sequential thread gets from `b` on a piece it works on:
/// what was done of the piece (its left part at index 0) is retrieved, then
/// the items of the rest are folded.
pub open spec fn retrieve_then_fold<I: AdaptiveIterator, B, F: Fn(B, I::Item) -> B, R: Fn(B, I) -> B>(
    fold_op: F,
    retrieve_op: R,
    b: B,
    piece: I,
    out: B,
) -> bool {
    exists|done: I, rest: I, retrieved: B|
        #![trigger piece.divides(0, done, rest), retrieve_op.ensures((b, done), retrieved)]
        piece.divides(0, done, rest) && retrieve_op.ensures((b, done), retrieved) && folded_over(
            fold_op,
            retrieved,
            rest.items(),
            out,
        )
}

/// `out` is what one macro block gives from `b`: the sequential thread works on
/// all of it, or it keeps the left part of what remains after retrieving what
/// was done, helpers work on the right part, and the sequential thread then
/// works on what they leave.
pub open spec fn helped_work_block<I: AdaptiveIterator, B, H: Fn(I, usize) -> I, F: Fn(B, I::Item) -> B, R: Fn(B, I) -> B>(
    help_op: H,
    fold_op: F,
    retrieve_op: R,
    b: B,
    block: I,
    out: B,
) -> bool {
    ||| retrieve_then_fold(fold_op, retrieve_op, b, block, out)
    ||| exists|done: I, rest: I, index: usize, mine: I, his: I, retrieved: B, mid: B, worked: I|
        #![trigger block.divides(0, done, rest), rest.divides(index, mine, his), retrieve_op.ensures((b, done), retrieved), retrieve_then_fold(fold_op, retrieve_op, mid, worked, out)]
        block.divides(0, done, rest) && retrieve_op.ensures((b, done), retrieved) && rest.divides(
            index,
            mine,
            his,
        ) && folded_over(fold_op, retrieved, mine.items(), mid) && helped_to_end(help_op, his, worked)
            && retrieve_then_fold(fold_op, retrieve_op, mid, worked, out)
}

/// `out` is what folding `input` from `init` with help gives: the input is
/// cut into macro blocks, and each block is worked on in turn.
pub open spec fn helped_work<I: AdaptiveIterator, B, H: Fn(I, usize) -> I, F: Fn(B, I::Item) -> B, R: Fn(B, I) -> B>(
    help_op: H,
    fold_op: F,
    retrieve_op: R,
    input: I,
    init: B,
    out: B,
) -> bool {
    exists|blocks: Seq<I>, rests: Seq<I>, cuts: Seq<usize>, bs: Seq<B>|
        #![trigger cut_in_blocks(input, blocks, rests, cuts), bs.len()]
        {
            &&& cut_in_blocks(input, blocks, rests, cuts)
            &&& bs.len() == blocks.len() + 1
            &&& bs[0] == init
            &&& bs.last() == out
            &&& forall|k: int|
                0 <= k < blocks.len() ==> #[trigger] helped_work_block(
                    help_op,
                    fold_op,
                    retrieve_op,
                    bs[k],
                    blocks[k],
                    bs[k + 1],
                )
        }
}

impl<I: Divisible, H: Fn(I, usize) -> I, S> HelpWork<I, H, S> {
    /// What is folded.
    pub closed spec fn input(&self) -> I {
        self.input
    }

    /// What helpers do.
    pub closed spec fn helper(&self) -> H {
        self.help_op
    }

    /// The sizes of the macro blocks.
    pub closed spec fn sizes(&self) -> S {
        self.sizes
    }

    /// Set the macro-blocks sizes.
    pub fn by_blocks<S2: Iterator<Item = usize>>(self, sizes: S2) -> (r: HelpWork<I, H, S2>)
        ensures
            r.input() == self.input(),
            r.helper() == self.helper(),
            r.sizes() == sizes,
    {
        HelpWork { input: self.input, help_op: self.help_op, sizes }
    }
}

/// Largest `k` with `2^k <= n` (0 for `n == 0`): the rounded-down binary logarithm.
fn floor_log2(n: usize) -> (r: usize)
    ensures
        n == 0 ==> r == 0,
        n > 0 ==> two_pow(r as nat) <= n < two_pow((r + 1) as nat),
{
    if n == 0 {
        return 0;
    }
    let mut k: usize = 0;
    let mut p: u128 = 1;
    while 2 * p <= n as u128
        invariant
            n > 0,
            p == two_pow(k as nat),
            1 <= p <= n,
            k <= p,
        decreases n as u128 - p,
    {
        p = 2 * p;
        k = k + 1;
    }
    k
}

/// Largest `r` with `r * r <= n`: the rounded-down square root.
fn floor_sqrt(n: usize) -> (r: usize)
    ensures
        r * r <= n < (r + 1) * (r + 1),
{
    let mut r: u128 = 0;
    loop
        invariant
            r * r <= n,
            r <= 0x1_0000_0000,
            r <= n,
        ensures
            r * r <= n < (r + 1) * (r + 1),
            r <= n,
        decreases n - r,
    {
        assert((r + 1) * (r + 1) <= 0x1_0000_0001 * 0x1_0000_0001) by (nonlinear_arith)
            requires
                r <= 0x1_0000_0000,
        ;
        if (r + 1) * (r + 1) > n as u128 {
            break;
        }
        assert(r + 1 <= 0x1_0000_0000) by (nonlinear_arith)
            requires
                (r + 1) * (r + 1) <= n,
                n <= 0xffff_ffff_ffff_ffff,
        ;
        assert(r + 1 <= n) by (nonlinear_arith)
            requires
                (r + 1) * (r + 1) <= n,
        ;
        r = r + 1;
    }
    r as usize
}

/// Fold the items of `input` one by one onto `b`.
fn fold_items<I: AdaptiveIterator, B, F: Fn(B, I::Item) -> B>(fold_op: &F, b: B, input: I) -> (r: B)
    requires
        forall|x: B, y: I::Item| #[trigger] fold_op.requires((x, y)),
        input.valid(),
        input.length() is Some,
    ensures
        folded_over(*fold_op, b, input.items(), r),
{
    let ghost items_g = input.items();
    let items = input.into_items();
    let mut acc = b;
    let ghost mut accs: Seq<B> = seq![b];
    for x in it: items
        invariant
            forall|x: B, y: I::Item| #[trigger] fold_op.requires((x, y)),
            it.seq() == items_g,
            accs.len() == it.index() + 1,
            accs[0] == b,
            accs.last() == acc,
            forall|j: int|
                0 <= j < it.index() ==> #[trigger] fold_op.ensures((accs[j], items_g[j]), accs[j + 1]),
    {
        let next = fold_op(acc, x);
        proof {
            accs = accs.push(next);
        }
        acc = next;
    }
    acc
}

/// Retrieve what was done of `piece` (its left part at index 0), then fold the items of the rest.
fn retrieve_and_fold<I: AdaptiveIterator, B, F: Fn(B, I::Item) -> B, R: Fn(B, I) -> B>(
    fold_op: &F,
    retrieve_op: &R,
    b: B,
    piece: I,
) -> (r: B)
    requires
        forall|x: B, y: I::Item| #[trigger] fold_op.requires((x, y)),
        forall|x: B, i: I| #[trigger] retrieve_op.requires((x, i)),
        piece.valid(),
        piece.length() is Some,
    ensures
        retrieve_then_fold(*fold_op, *retrieve_op, b, piece, r),
{
    let ghost whole = piece;
    let (done, rest) = piece.divide_at(0);
    let ghost done_g = done;
    let retrieved = retrieve_op(b, done);
    let ghost retrieved_g = retrieved;
    let r = fold_items(fold_op, retrieved, rest);
    assert(whole.divides(0, done_g, rest));
    assert(retrieve_op.ensures((b, done_g), retrieved_g));
    r
}

/// Helpers work on `piece` until nothing is left of it, in blocks doubling
/// from `first` up to `largest`.
fn help_to_end<I: Divisible, H: Fn(I, usize) -> I>(help_op: &H, piece: I, first: usize, largest: usize) -> (r: I)
    requires
        help_ready(*help_op),
        piece.valid(),
        piece.length() is Some,
        1 <= first <= largest,
    ensures
        helped_to_end(*help_op, piece, r),
        r.valid(),
{
    let mut current = piece;
    let mut size = first;
    let ghost mut states: Seq<I> = seq![piece];
    let ghost mut sizes: Seq<usize> = seq![];
    loop
        invariant
            help_ready(*help_op),
            current.valid(),
            current.length() is Some,
            1 <= size <= largest,
            states.len() >= 1,
            sizes.len() == states.len() - 1,
            states[0] == piece,
            states.last() == current,
            forall|k: int|
                0 <= k < sizes.len() ==> #[trigger] help_op.ensures((states[k], sizes[k]), states[k + 1]),
        ensures
            current.length() == Some(0nat),
        decreases current.length()->0,
    {
        let n = match current.base_length() {
            Some(n) => n,
            None => 0,
        };
        if n == 0 {
            break;
        }
        let limit = if size < n { size } else { n };
        let next = help_op(current, limit);
        proof {
            states = states.push(next);
            sizes = sizes.push(limit);
        }
        current = next;
        size = if size > largest / 2 { largest } else { 2 * size };
    }
    current
}

/// Work on one macro block: after retrieving what was done, the sequential
/// thread folds the left part of the rest while helpers work on the right
/// part; then it retrieves what the helpers did and folds what they left.
fn work_block<I, B, H, F, R>(
    help_op: &H,
    fold_op: &F,
    retrieve_op: &R,
    b: B,
    block: I,
    min_size: usize,
    max_size: usize,
) -> (r: B) where
    I: AdaptiveIterator + Send,
    B: Send,
    H: Fn(I, usize) -> I + Sync,
    F: Fn(B, I::Item) -> B + Sync,
    R: Fn(B, I) -> B,

    requires
        help_ready(*help_op),
        forall|x: B, y: I::Item| #[trigger] fold_op.requires((x, y)),
        forall|x: B, i: I| #[trigger] retrieve_op.requires((x, i)),
        block.valid(),
        block.length() is Some,
        1 <= min_size <= max_size,
    ensures
        helped_work_block(*help_op, *fold_op, *retrieve_op, b, block, r),
{
    let ghost whole = block;
    let (done, rest) = block.divide_at(0);
    let n = match rest.base_length() {
        Some(n) => n,
        None => 0,
    };
    let ghost done_g = done;
    let retrieved = retrieve_op(b, done);
    let ghost retrieved_g = retrieved;
    if n <= min_size || n < 2 {
        let r = fold_items(fold_op, retrieved, rest);
        assert(whole.divides(0, done_g, rest));
        assert(retrieve_then_fold(*fold_op, *retrieve_op, b, whole, r));
        return r;
    }
    let ghost rest_g = rest;
    let (mine, his) = rest.divide();
    let (mid, worked) = join(
        move || -> (r: B)
            ensures
                folded_over(*fold_op, retrieved, mine.items(), r)
            { fold_items(fold_op, retrieved, mine) },
        move || -> (r: I)
            ensures
                helped_to_end(*help_op, his, r),
                r.valid()
            { help_to_end(help_op, his, min_size, max_size) },
    );
    let ghost worked_g = worked;
    let r = retrieve_and_fold(fold_op, retrieve_op, mid, worked);
    proof {
        let index = (rest_g.length()->0 / 2) as usize;
        assert(whole.divides(0, done_g, rest_g));
        assert(rest_g.divides(index, mine, his));
        assert(retrieve_op.ensures((b, done_g), retrieved_g));
        assert(helped_to_end(*help_op, his, worked_g));
    }
    r
}

impl<I, H, S> HelpWork<I, H, S> where
    I: AdaptiveIterator + Send,
    H: Fn(I, usize) -> I + Sync,
    S: Iterator<Item = usize>,
 {
    /// Fold sequentially with help: the input is cut into macro blocks of the
    /// given sizes (a size of 0 is read as 1; the last block takes everything
    /// once the sizes run out). In each block the sequential thread retrieves
    /// what was done with `retrieve_op`, folds the items of the left part of the
    /// rest with `fold_op`, while helpers work on the right part with the help
    /// operation; it then retrieves what they did and folds what they left.
    pub fn fold<B, F, R>(self, initial_value: B, fold_op: F, retrieve_op: R) -> (r: B) where
        B: Send,
        F: Fn(B, I::Item) -> B + Sync,
        R: Fn(B, I) -> B,

        requires
            help_ready(self.helper()),
            forall|x: B, y: I::Item| #[trigger] fold_op.requires((x, y)),
            forall|x: B, i: I| #[trigger] retrieve_op.requires((x, i)),
            self.input().valid(),
            self.input().length() is Some,
        ensures
            helped_work(self.helper(), fold_op, retrieve_op, self.input(), initial_value, r),
    {
        let input = self.input;
        let help_op = self.help_op;
        let mut sizes = self.sizes;
        let total = match input.base_length() {
            Some(n) => n,
            None => 0,
        };
        let log = floor_log2(total);
        let min_size = if log == 0 { 1 } else { log };
        let root = floor_sqrt(total);
        let max_size = if root < min_size { min_size } else { root };
        let mut rest = input;
        let mut b = initial_value;
        let ghost mut blocks: Seq<I> = seq![];
        let ghost mut rests: Seq<I> = seq![input];
        let ghost mut cuts: Seq<usize> = seq![];
        let ghost mut bs: Seq<B> = seq![initial_value];
        loop
            invariant
                help_ready(help_op),
                forall|x: B, y: I::Item| #[trigger] fold_op.requires((x, y)),
                forall|x: B, i: I| #[trigger] retrieve_op.requires((x, i)),
                1 <= min_size <= max_size,
                rest.valid(),
                rest.length() is Some,
                rests.len() == blocks.len() + 1,
                cuts.len() == blocks.len(),
                rests[0] == input,
                rests.last() == rest,
                forall|k: int| 0 <= k < rests.len() ==> #[trigger] rests[k].valid(),
                forall|k: int| 0 <= k < blocks.len() ==> #[trigger] blocks[k].valid(),
                forall|k: int|
                    #![trigger cuts[k]]
                    #![trigger rests[k]]
                    0 <= k < blocks.len() ==> rests[k].length() is Some && cuts[k] <= rests[k].length()->0,
                forall|k: int|
                    0 <= k < blocks.len() ==> #[trigger] rests[k].divides(cuts[k], blocks[k], rests[k + 1]),
                bs.len() == blocks.len() + 1,
                bs[0] == initial_value,
                bs.last() == b,
                forall|k: int|
                    0 <= k < blocks.len() ==> #[trigger] helped_work_block(
                        help_op,
                        fold_op,
                        retrieve_op,
                        bs[k],
                        blocks[k],
                        bs[k + 1],
                    ),
            ensures
                rest.length() == Some(0nat),
            decreases rest.length()->0,
        {
            let n = match rest.base_length() {
                Some(n) => n,
                None => 0,
            };
            if n == 0 {
                break;
            }
            let size = match sizes.next() {
                Some(size) => if size == 0 {
                    1
                } else if size > n {
                    n
                } else {
                    size
                },
                None => n,
            };
            let (block, next_rest) = rest.divide_at(size);
            let next_b = work_block(&help_op, &fold_op, &retrieve_op, b, block, min_size, max_size);
            proof {
                blocks = blocks.push(block);
                rests = rests.push(next_rest);
                cuts = cuts.push(size);
                bs = bs.push(next_b);
            }
            b = next_b;
            rest = next_rest;
        }
        assert(cut_in_blocks(input, blocks, rests, cuts));
        b
    }
}

/// What a helper does next.
#[derive(Debug, PartialEq, Eq, Structural)]
pub enum HelperAction {
    /// Work on the next block, of this size.
    Work(usize),
    /// Give what remains back to the thread that retrieves it, and stop.
    GiveBack,
    /// Keep the left part of what remains, cut at this index, and hand the
    /// right part to the thief.
    Share(usize),
    /// Go on with everything that remains.
    Keep,
}

/// A helper's decision, with `remaining` units of work left and `size` the next
/// block size: when retrieved, give what remains back; when a thief waits,
/// share the work at its middle if more than `min_size` remains, else keep it;
/// otherwise work on the next block, or give back once nothing remains.
pub open spec fn helper_decision(
    remaining: usize,
    size: usize,
    retrieved: bool,
    steal_requested: bool,
    min_size: usize,
) -> HelperAction {
    if retrieved {
        HelperAction::GiveBack
    } else if steal_requested {
        if remaining > min_size {
            HelperAction::Share(remaining / 2)
        } else {
            HelperAction::Keep
        }
    } else if remaining > 0 {
        HelperAction::Work(size)
    } else {
        HelperAction::GiveBack
    }
}

/// The decisions of a helper between two events: from what remains, the next
/// block size and the requests pending, what to do next.
pub fn helper_step(
    remaining: usize,
    size: usize,
    retrieved: bool,
    steal_requested: bool,
    min_size: usize,
) -> (r: HelperAction)
    ensures
        r == helper_decision(remaining, size, retrieved, steal_requested, min_size),
        r matches HelperAction::Share(k) ==> 0 < remaining - k && k <= remaining,
{
    if retrieved {
        HelperAction::GiveBack
    } else if steal_requested {
        if remaining > min_size {
            HelperAction::Share(remaining / 2)
        } else {
            HelperAction::Keep
        }
    } else if remaining > 0 {
        HelperAction::Work(size)
    } else {
        HelperAction::GiveBack
    }
}

} // verus!
