//! The folded stuff, ready to be reduced.
use vstd::prelude::*;
use vstd::std_specs::iter::IteratorSpec;
use core::marker::PhantomData;
use crate::divisibility::{block_cut, blocks_items, BasicPower, BlockedOrMore, Divisible};
use crate::folders::{AdaptiveIterator, Folder, MapFolder};
use crate::policy::Policy;
use crate::scheduling::{
    divided_outputs, fold_with_help, helped_block, helped_blocks, helped_fold, master_ready, master_run,
    master_steps, master_steps_as, reduce_by_blocks, retrieved,
    reduced_by_blocks, reduced_by_sized_blocks, schedule, schedule_collect, scheduled,
};

verus! {

/// Lazily store everything for folding: what we fold, how we fold it, with
/// which scheduling policy, and (when working by blocks) the sizes of the blocks.
pub struct ActivatedInput<F: Folder, S, P> {
    input: F::Input,
    folder: F,
    policy: Policy,
    sizes: S,
    power: PhantomData<P>,
}

impl<F: Folder, S, P> ActivatedInput<F, S, P> {
    /// What we fold.
    pub closed spec fn input(&self) -> F::Input {
        self.input
    }

    /// How we fold it.
    pub closed spec fn folder(&self) -> F {
        self.folder
    }

    /// With what scheduling policy.
    pub closed spec fn policy(&self) -> Policy {
        self.policy
    }

    /// The sizes of the blocks.
    pub closed spec fn sizes(&self) -> S {
        self.sizes
    }

    /// Map each output through `map_op`.
    pub fn map<O, M: Fn(F::Output) -> O>(self, map_op: M) -> (r: ActivatedInput<MapFolder<F, O, M>, S, P>)
        ensures
            r.input() == self.input(),
            r.folder().inner() == self.folder(),
            r.folder().map_function() == map_op,
            r.policy() == self.policy(),
            r.sizes() == self.sizes(),
    {
        ActivatedInput {
            input: self.input,
            folder: MapFolder::new(self.folder, map_op),
            policy: self.policy,
            sizes: self.sizes,
            power: self.power,
        }
    }

    /// Use the given scheduling policy.
    pub fn with_policy(self, policy: Policy) -> (r: Self)
        ensures
            r.input() == self.input(),
            r.folder() == self.folder(),
            r.policy() == policy,
            r.sizes() == self.sizes(),
    {
        ActivatedInput {
            input: self.input,
            folder: self.folder,
            policy,
            sizes: self.sizes,
            power: self.power,
        }
    }
}

impl<F: Folder> ActivatedInput<F, (), BasicPower> {
    /// Fold `input` with `folder`, with the default policy.
    pub fn new(input: F::Input, folder: F) -> (r: Self)
        ensures
            r.input() == input,
            r.folder() == folder,
            r.policy() == Policy::DefaultPolicy,
    {
        ActivatedInput { input, folder, policy: Policy::DefaultPolicy, sizes: (), power: PhantomData }
    }

    /// Go through the input by blocks of the given sizes.
    pub fn by_blocks<S: Iterator<Item = usize>>(self, sizes: S) -> (r: ActivatedInput<
        F,
        S,
        BlockedOrMore,
    >)
        ensures
            r.input() == self.input(),
            r.folder() == self.folder(),
            r.policy() == self.policy(),
            r.sizes() == sizes,
    {
        ActivatedInput {
            input: self.input,
            folder: self.folder,
            policy: self.policy,
            sizes,
            power: PhantomData,
        }
    }
}

impl<F> ActivatedInput<F, (), BasicPower> where
    F: Folder + Sync,
    F::Input: Send,
    F::Output: Send,
 {
    /// Schedule the folder on the input and reduce the outputs of both sides of
    /// each cut with `reduce_function`.
    pub fn reduce<RF: Fn(F::Output, F::Output) -> F::Output + Sync>(self, reduce_function: RF) -> (r:
        F::Output)
        requires
            self.folder().ready(),
            self.input().valid(),
            self.input().length() is Some,
            forall|a: F::Output, b: F::Output| #[trigger] reduce_function.requires((a, b)),
        ensures
            scheduled(self.folder(), reduce_function, self.input(), r),
            self.policy() == Policy::Sequential ==> crate::scheduling::folds_to_end(
                self.folder(),
                self.input(),
                r,
            ),
    {
        schedule(self.input, &self.folder, &reduce_function, self.policy)
    }

    /// The outputs of all sequential tasks, from left to right.
    pub fn into_outputs(self) -> (r: Vec<F::Output>)
        requires
            self.folder().ready(),
            self.input().valid(),
            self.input().length() is Some,
        ensures
            divided_outputs(self.folder(), self.input(), r@),
            r@.len() >= 1,
            self.policy() == Policy::Sequential ==> r@.len() == 1 && crate::scheduling::folds_to_end(
                self.folder(),
                self.input(),
                r@[0],
            ),
    {
        schedule_collect(self.input, &self.folder, self.policy)
    }
}

impl<F, S> ActivatedInput<F, S, BlockedOrMore> where
    F: Folder + Sync,
    F::Input: Send,
    F::Output: Send,
    S: Iterator<Item = usize>,
 {
    /// Cut the input into blocks of the given sizes (a size of 0 is read as 1,
    /// and the last block takes everything once the sizes run out), schedule
    /// the folder on each block and reduce all outputs from left to right.
    pub fn reduce<RF: Fn(F::Output, F::Output) -> F::Output + Sync>(self, reduce_function: RF) -> (r:
        F::Output)
        requires
            self.folder().ready(),
            self.input().valid(),
            self.input().length() is Some,
            self.input().length()->0 > 0,
            forall|a: F::Output, b: F::Output| #[trigger] reduce_function.requires((a, b)),
        ensures
            reduced_by_blocks(self.folder(), reduce_function, self.input(), r),
            self.sizes().obeys_prophetic_iter_laws() ==> reduced_by_sized_blocks(
                self.folder(),
                reduce_function,
                self.input(),
                self.sizes().remaining(),
                r,
            ),
    {
        reduce_by_blocks(self.input, &self.folder, &reduce_function, self.sizes, self.policy)
    }

    /// Fold the input with `f` (which works on at most the given number of
    /// units), block by block; in each block helpers run the folder on part of
    /// it, and their outputs are retrieved into the fold with `retrieve`.
    pub fn helping_partial_fold<B, FOLD, RET>(self, init: B, f: FOLD, retrieve: RET) -> (r: B) where
        B: Send,
        FOLD: Fn(B, F::Input, usize) -> (B, F::Input) + Sync,
        RET: Fn(B, F::Output) -> B,

        requires
            self.folder().ready(),
            self.input().valid(),
            self.input().length() is Some,
            master_ready(f),
            forall|x: B, o: F::Output| #[trigger] retrieve.requires((x, o)),
        ensures
            helped_fold(
                self.folder(),
                |b: B, i: F::Input, limit: usize, s: (B, F::Input)| f.ensures((b, i, limit), s),
                retrieve,
                self.input(),
                init,
                r,
            ),
    {
        let ghost step = |b: B, i: F::Input, limit: usize, s: (B, F::Input)| f.ensures((b, i, limit), s);
        fold_with_help(self.input, init, f, Ghost(step), &self.folder, retrieve, self.sizes, self.policy)
    }

    /// Fold the input with `f` on whole pieces, block by block; in each block
    /// helpers run the folder on part of it, and their outputs are retrieved
    /// into the fold with `retrieve`.
    pub fn helping_cutting_fold<B, FOLD, RET>(self, init: B, f: FOLD, retrieve: RET) -> (r: B) where
        B: Send,
        FOLD: Fn(B, F::Input) -> B + Sync,
        RET: Fn(B, F::Output) -> B,

        requires
            self.folder().ready(),
            self.input().valid(),
            self.input().length() is Some,
            forall|b: B, i: F::Input| i.valid() ==> #[trigger] f.requires((b, i)),
            forall|x: B, o: F::Output| #[trigger] retrieve.requires((x, o)),
        ensures
            helped_fold(
                self.folder(),
                |b: B, i: F::Input, limit: usize, s: (B, F::Input)|
                    exists|todo: F::Input| #[trigger]
                        i.divides(limit, todo, s.1) && f.ensures((b, todo), s.0),
                retrieve,
                self.input(),
                init,
                r,
            ),
    {
        let ghost step = |b: B, i: F::Input, limit: usize, s: (B, F::Input)|
            exists|todo: F::Input| #[trigger] i.divides(limit, todo, s.1) && f.ensures((b, todo), s.0);
        let f_ref = &f;
        let cutting_fold = move |io: B, i: F::Input, limit: usize| -> (s: (B, F::Input))
            requires
                i.valid(),
                i.length() is Some,
                0 < limit <= i.length()->0,
                forall|b: B, i: F::Input| i.valid() ==> #[trigger] f_ref.requires((b, i))
            ensures
                s.1.valid(),
                s.1.length() is Some,
                s.1.length()->0 < i.length()->0,
                exists|todo: F::Input| #[trigger] i.divides(limit, todo, s.1) && f_ref.ensures((io, todo), s.0)
            {
                let ghost whole = i;
                let (todo, remaining) = i.divide_at(limit);
                let folded = f_ref(io, todo);
                assert(whole.divides(limit, todo, remaining));
                (folded, remaining)
            };
        fold_with_help(
            self.input,
            init,
            cutting_fold,
            Ghost(step),
            &self.folder,
            retrieve,
            self.sizes,
            self.policy,
        )
    }
}

/// `f` may have been called on every item of `items`.
pub open spec fn all_visited<T, FE: Fn(T)>(f: FE, items: Seq<T>) -> bool {
    forall|j: int| 0 <= j < items.len() ==> #[trigger] f.ensures((items[j],), ())
}

/// A part of the input was gone through: by the main thread, which called `f`
/// on each of its items, or by helpers, whose outputs on it were all given to
/// `retrieve`.
pub open spec fn part_visited<F: Folder, FE: Fn(<F::Input as AdaptiveIterator>::Item), RET: Fn(F::Output)>(
    folder: F,
    f: FE,
    retrieve: RET,
    part: F::Input,
    helped: bool,
) -> bool where F::Input: AdaptiveIterator {
    if helped {
        exists|outs: Seq<F::Output>|
            #[trigger] divided_outputs(folder, part, outs) && forall|k: int|
                0 <= k < outs.len() ==> #[trigger] retrieve.ensures((outs[k],), ())
    } else {
        all_visited(f, part.items())
    }
}

/// `parts` cut the items of `input` in order, each item in exactly one part,
/// and each part was gone through, by the main thread or by helpers.
pub open spec fn visits_all<F: Folder, FE: Fn(<F::Input as AdaptiveIterator>::Item), RET: Fn(F::Output)>(
    folder: F,
    f: FE,
    retrieve: RET,
    input: F::Input,
    parts: Seq<F::Input>,
    helped: Seq<bool>,
) -> bool where F::Input: AdaptiveIterator {
    &&& parts.len() == helped.len()
    &&& blocks_items(parts) == input.items()
    &&& forall|k: int| 0 <= k < parts.len() ==> #[trigger] part_visited(folder, f, retrieve, parts[k], helped[k])
}

/// The items of two runs of parts, one after the other.
proof fn lemma_blocks_items_concat<I: AdaptiveIterator>(a: Seq<I>, b: Seq<I>)
    ensures
        blocks_items(a + b) == blocks_items(a) + blocks_items(b),
    decreases b.len(),
{
    if b.len() == 0 {
        assert(a + b =~= a);
        assert(blocks_items(a) + blocks_items(b) =~= blocks_items(a));
    } else {
        lemma_blocks_items_concat(a, b.drop_last());
        assert((a + b).drop_last() =~= a + b.drop_last());
        assert((a + b).last() == b.last());
        assert(blocks_items(a + b) =~= blocks_items(a) + blocks_items(b));
    }
}

/// A master's run through `is[k]` calls `f` on each of its items.
proof fn lemma_master_visits<I: AdaptiveIterator, FE: Fn(I::Item)>(
    step: spec_fn((), I, usize, ((), I)) -> bool,
    f: FE,
    i: I,
    bs: Seq<()>,
    is: Seq<I>,
    limits: Seq<usize>,
    k: int,
)
    requires
        master_steps(step, (), i, (), bs, is, limits),
        0 <= k < is.len(),
        forall|b: (), x: I, l: usize, s: ((), I)|
            #[trigger] step(b, x, l, s) ==> exists|todo: I|
                x.items() == todo.items() + s.1.items() && #[trigger] all_visited(f, todo.items()),
    ensures
        all_visited(f, is[k].items()),
    decreases is.len() - k,
{
    if k == is.len() - 1 {
        is[k].lemma_items_length();
        assert(is[k].items().len() == 0);
    } else {
        lemma_master_visits(step, f, i, bs, is, limits, k + 1);
        assert(step(bs[k], is[k], limits[k], (bs[k + 1], is[k + 1])));
        let todo = choose|todo: I|
            is[k].items() == todo.items() + is[k + 1].items() && #[trigger] all_visited(f, todo.items());
        assert forall|j: int| 0 <= j < is[k].items().len() implies #[trigger] f.ensures((is[k].items()[j],), ()) by {
            if j < todo.items().len() {
                assert(is[k].items()[j] == todo.items()[j]);
            } else {
                assert(is[k].items()[j] == is[k + 1].items()[j - todo.items().len()]);
            }
        }
    }
}

/// A helped block is gone through: by the master alone, or by the master on its
/// left part and by helpers on its right part.
proof fn lemma_block_visits<F: Folder, FE, RET, RET2>(
    folder: F,
    step: spec_fn((), F::Input, usize, ((), F::Input)) -> bool,
    f: FE,
    retrieve: RET,
    master_retrieve: RET2,
    block: F::Input,
)
    where
        F::Input: AdaptiveIterator,
        FE: Fn(<F::Input as AdaptiveIterator>::Item),
        RET: Fn(F::Output),
        RET2: Fn((), F::Output) -> (),
    requires
        block.valid(),
        helped_block(folder, step, master_retrieve, (), block, ()),
        forall|b: (), x: F::Input, l: usize, s: ((), F::Input)|
            #[trigger] step(b, x, l, s) ==> exists|todo: F::Input|
                x.items() == todo.items() + s.1.items() && #[trigger] all_visited(f, todo.items()),
        forall|u: (), o: F::Output, s: ()| #[trigger] master_retrieve.ensures((u, o), s) ==> retrieve.ensures((o,), ()),
    ensures
        exists|parts: Seq<F::Input>, helped: Seq<bool>| #[trigger] visits_all(folder, f, retrieve, block, parts, helped),
{
    if master_run(step, (), block, ()) {
        let (bs, is, limits) = choose|bs: Seq<()>, is: Seq<F::Input>, limits: Seq<usize>|
            #[trigger] master_steps(step, (), block, (), bs, is, limits);
        lemma_master_visits(step, f, block, bs, is, limits, 0);
        let parts = seq![block];
        let helped = seq![false];
        assert(parts.drop_last() =~= Seq::<F::Input>::empty());
        assert(blocks_items(parts.drop_last()) =~= Seq::empty());
        assert(blocks_items(parts) =~= block.items());
        assert(part_visited(folder, f, retrieve, parts[0], helped[0]));
        assert(visits_all(folder, f, retrieve, block, parts, helped));
    } else {
        let (index, mine, his, mid, outs) = choose|
            index: usize,
            mine: F::Input,
            his: F::Input,
            mid: (),
            outs: Seq<F::Output>,
        |
            block.divides(index, mine, his) && block.length() is Some && index <= block.length()->0 && master_run(
                step,
                (),
                mine,
                mid,
            ) && divided_outputs(folder, his, outs) && retrieved(master_retrieve, mid, outs, ());
        let (bs, is, limits) = choose|bs: Seq<()>, is: Seq<F::Input>, limits: Seq<usize>|
            #[trigger] master_steps(step, (), mine, mid, bs, is, limits);
        assert(mid == ());
        lemma_master_visits(step, f, mine, bs, is, limits, 0);
        block.lemma_divides_items(index, mine, his);
        let rbs = choose|rbs: Seq<()>|
            {
                &&& rbs.len() == outs.len() + 1
                &&& rbs[0] == mid
                &&& rbs.last() == ()
                &&& forall|k: int| 0 <= k < outs.len() ==> #[trigger] master_retrieve.ensures((rbs[k], outs[k]), rbs[k + 1])
            };
        assert forall|k: int| 0 <= k < outs.len() implies #[trigger] retrieve.ensures((outs[k],), ()) by {
            assert(master_retrieve.ensures((rbs[k], outs[k]), rbs[k + 1]));
        }
        let parts = seq![mine, his];
        let helped = seq![false, true];
        assert(parts.drop_last() =~= seq![mine]);
        assert(seq![mine].drop_last() =~= Seq::<F::Input>::empty());
        assert(blocks_items(seq![mine].drop_last()) =~= Seq::empty());
        assert(blocks_items(seq![mine]) =~= mine.items());
        assert(blocks_items(parts) =~= block.items());
        assert(part_visited(folder, f, retrieve, parts[0], helped[0]));
        assert(part_visited(folder, f, retrieve, parts[1], helped[1]));
        assert(visits_all(folder, f, retrieve, block, parts, helped));
    }
}

/// Blocks helped one after the other go through the whole input.
proof fn lemma_blocks_visit<F: Folder, FE, RET, RET2>(
    folder: F,
    step: spec_fn((), F::Input, usize, ((), F::Input)) -> bool,
    f: FE,
    retrieve: RET,
    master_retrieve: RET2,
    input: F::Input,
    blocks: Seq<F::Input>,
    rests: Seq<F::Input>,
    cuts: Seq<usize>,
    bs: Seq<()>,
    k: int,
)
    where
        F::Input: AdaptiveIterator,
        FE: Fn(<F::Input as AdaptiveIterator>::Item),
        RET: Fn(F::Output),
        RET2: Fn((), F::Output) -> (),
    requires
        helped_blocks(folder, step, master_retrieve, input, (), (), blocks, rests, cuts, bs),
        0 <= k <= blocks.len(),
        forall|b: (), x: F::Input, l: usize, s: ((), F::Input)|
            #[trigger] step(b, x, l, s) ==> exists|todo: F::Input|
                x.items() == todo.items() + s.1.items() && #[trigger] all_visited(f, todo.items()),
        forall|u: (), o: F::Output, s: ()| #[trigger] master_retrieve.ensures((u, o), s) ==> retrieve.ensures((o,), ()),
    ensures
        exists|parts: Seq<F::Input>, helped: Seq<bool>| #[trigger] visits_all(folder, f, retrieve, rests[k], parts, helped),
    decreases blocks.len() - k,
{
    assert(rests[k].valid());
    if k == blocks.len() {
        rests[k].lemma_items_length();
        let parts = Seq::<F::Input>::empty();
        let helped = Seq::<bool>::empty();
        assert(blocks_items(parts) =~= rests[k].items());
        assert(visits_all(folder, f, retrieve, rests[k], parts, helped));
    } else {
        lemma_blocks_visit(folder, step, f, retrieve, master_retrieve, input, blocks, rests, cuts, bs, k + 1);
        assert(helped_block(folder, step, master_retrieve, bs[k], blocks[k], bs[k + 1]));
        assert(blocks[k].valid());
        lemma_block_visits(folder, step, f, retrieve, master_retrieve, blocks[k]);
        let (p1, h1) = choose|parts: Seq<F::Input>, helped: Seq<bool>|
            #[trigger] visits_all(folder, f, retrieve, blocks[k], parts, helped);
        let (p2, h2) = choose|parts: Seq<F::Input>, helped: Seq<bool>|
            #[trigger] visits_all(folder, f, retrieve, rests[k + 1], parts, helped);
        assert(rests[k].divides(cuts[k], blocks[k], rests[k + 1]));
        assert(cuts[k] <= rests[k].length()->0);
        rests[k].lemma_divides_items(cuts[k], blocks[k], rests[k + 1]);
        lemma_blocks_items_concat(p1, p2);
        let parts = p1 + p2;
        let helped = h1 + h2;
        assert forall|j: int| 0 <= j < parts.len() implies #[trigger] part_visited(
            folder,
            f,
            retrieve,
            parts[j],
            helped[j],
        ) by {
            if j < p1.len() {
                assert(parts[j] == p1[j] && helped[j] == h1[j]);
            } else {
                assert(parts[j] == p2[j - p1.len()] && helped[j] == h2[j - p1.len()]);
            }
        }
        assert(visits_all(folder, f, retrieve, rests[k], parts, helped));
    }
}

/// A helped fold goes through every item of its input, once and in order:
/// when each step of the master calls `f` on the items of the piece it takes,
/// and the master gives each output of the helpers to `retrieve`, the input is
/// cut in consecutive parts, each gone through by the master (every item handed
/// to `f`) or by helpers (every output folded from it given to `retrieve`).
pub proof fn lemma_helped_fold_visits<F: Folder, FE, RET, RET2>(
    folder: F,
    step: spec_fn((), F::Input, usize, ((), F::Input)) -> bool,
    f: FE,
    retrieve: RET,
    master_retrieve: RET2,
    input: F::Input,
)
    where
        F::Input: AdaptiveIterator,
        FE: Fn(<F::Input as AdaptiveIterator>::Item),
        RET: Fn(F::Output),
        RET2: Fn((), F::Output) -> (),
    requires
        helped_fold(folder, step, master_retrieve, input, (), ()),
        forall|b: (), x: F::Input, l: usize, s: ((), F::Input)|
            #[trigger] step(b, x, l, s) ==> exists|todo: F::Input|
                x.items() == todo.items() + s.1.items() && #[trigger] all_visited(f, todo.items()),
        forall|u: (), o: F::Output, s: ()| #[trigger] master_retrieve.ensures((u, o), s) ==> retrieve.ensures((o,), ()),
    ensures
        exists|parts: Seq<F::Input>, helped: Seq<bool>| #[trigger] visits_all(folder, f, retrieve, input, parts, helped),
{
    let (blocks, rests, cuts, bs) = choose|blocks: Seq<F::Input>, rests: Seq<F::Input>, cuts: Seq<usize>, bs: Seq<()>|
        #[trigger] helped_blocks(folder, step, master_retrieve, input, (), (), blocks, rests, cuts, bs);
    lemma_blocks_visit(folder, step, f, retrieve, master_retrieve, input, blocks, rests, cuts, bs, 0);
}

impl<F, S> ActivatedInput<F, S, BlockedOrMore> where
    F: Folder + Sync,
    F::Input: Send + AdaptiveIterator,
    F::Output: Send,
    S: Iterator<Item = usize>,
 {
    /// Call `f` on every item of the input, block by block; in each block
    /// helpers run the folder on part of it, and `retrieve` is called on their outputs.
    pub fn helping_for_each<FOREACH, RET>(self, f: FOREACH, retrieve: RET) where
        FOREACH: Fn(<F::Input as AdaptiveIterator>::Item) + Sync,
        RET: Fn(F::Output),

        requires
            self.folder().ready(),
            self.input().valid(),
            self.input().length() is Some,
            forall|x: <F::Input as AdaptiveIterator>::Item| #[trigger] f.requires((x,)),
            forall|o: F::Output| #[trigger] retrieve.requires((o,)),
        ensures
            exists|parts: Seq<F::Input>, helped: Seq<bool>|
                #[trigger] visits_all(self.folder(), &f, &retrieve, self.input(), parts, helped),
    {
        let ghost input0 = self.input;
        let ghost folder0 = self.folder;
        let f_ref = &f;
        let master_fold = move |u: (), i: F::Input, size: usize| -> (s: ((), F::Input))
            requires
                i.valid(),
                i.length() is Some,
                0 < size <= i.length()->0,
                forall|x: <F::Input as AdaptiveIterator>::Item| #[trigger] f_ref.requires((x,))
            ensures
                s.1.valid(),
                s.1.length() is Some,
                s.1.length()->0 < i.length()->0,
                exists|todo: F::Input|
                    i.items() == todo.items() + s.1.items() && #[trigger] all_visited(f_ref, todo.items())
            {
                let (todo, remaining) = i.divide_at(size);
                proof {
                    i.lemma_divides_items(size, todo, remaining);
                }
                let ghost todo_g = todo;
                let items = todo.into_items();
                let ghost all = items@;
                for x in it: items
                    invariant
                        forall|x: <F::Input as AdaptiveIterator>::Item| #[trigger] f_ref.requires((x,)),
                        it.seq() == all,
                        forall|j: int| 0 <= j < it.index() ==> #[trigger] f_ref.ensures((all[j],), ()),
                {
                    f_ref(x);
                }
                assert(all_visited(f_ref, todo_g.items()));
                ((), remaining)
            };
        let retrieve_ref = &retrieve;
        let master_retrieve = move |u: (), o: F::Output| -> (s: ())
            requires
                forall|o: F::Output| #[trigger] retrieve_ref.requires((o,))
            ensures
                retrieve_ref.ensures((o,), ())
            { retrieve_ref(o) };
        let ghost step = |b: (), i: F::Input, limit: usize, s: ((), F::Input)| master_fold.ensures((b, i, limit), s);
        let r = fold_with_help(
            self.input,
            (),
            master_fold,
            Ghost(step),
            &self.folder,
            master_retrieve,
            self.sizes,
            self.policy,
        );
        proof {
            assert(r == ());
            lemma_helped_fold_visits(folder0, step, f_ref, retrieve_ref, master_retrieve, input0);
        }
    }
}

/// Index at which the next block is cut from an input of the given length
/// when the sizes gave `s`: the size, at most the length; the whole length
/// once the sizes have run out.
pub open spec fn output_block_index(length: Option<nat>, s: Option<usize>) -> usize {
    match s {
        Some(size) => block_cut(length, size),
        None => match length {
            Some(n) => n as usize,
            None => 0,
        },
    }
}

/// Cutting `before` at `index` gives a block and `after`; the outputs of the
/// sequential tasks of some division of that block are `r`'s value followed
/// by `pending`.
pub open spec fn next_block_output<F: Folder>(
    folder: F,
    before: F::Input,
    after: F::Input,
    index: usize,
    r: Option<F::Output>,
    pending: Seq<F::Output>,
) -> bool {
    exists|chunk: F::Input, outs: Seq<F::Output>|
        #![trigger before.divides(index, chunk, after), divided_outputs(folder, chunk, outs)]
        before.divides(index, chunk, after) && divided_outputs(folder, chunk, outs) && outs.len() >= 1
            && r == Some(outs[0]) && pending == outs.drop_first()
}

/// Iterator on the outputs of the sequential tasks, block after block.
pub struct OutputIterator<F: Folder, S> {
    remaining_input: Option<F::Input>,
    folder: F,
    sizes: S,
    policy: Policy,
    pending: Vec<F::Output>,
}

impl<F: Folder, S> OutputIterator<F, S> {
    /// The input not yet cut into blocks.
    pub closed spec fn remaining_input(&self) -> F::Input {
        self.remaining_input->0
    }

    /// How blocks are folded.
    pub closed spec fn folder(&self) -> F {
        self.folder
    }

    /// Outputs of the current block not yet given out.
    pub closed spec fn pending(&self) -> Seq<F::Output> {
        self.pending@
    }

    /// Sizes of the blocks still to cut.
    pub closed spec fn sizes(&self) -> S {
        self.sizes
    }

    /// The folder is ready and the remaining input is valid and finite.
    pub closed spec fn wf(&self) -> bool {
        &&& self.folder.ready()
        &&& self.remaining_input is Some
        &&& self.remaining_input->0.valid()
        &&& self.remaining_input->0.length() is Some
    }
}

impl<F, S> OutputIterator<F, S> where
    F: Folder + Sync,
    F::Input: Send,
    F::Output: Send,
    S: Iterator<Item = usize>,
 {
    /// The next output: the next pending one if any; nothing once the input is
    /// exhausted; otherwise the first output of the next block (cut at the next
    /// size, or at what remains once the sizes run out), whose other outputs
    /// become pending.
    pub fn next(&mut self) -> (r: Option<F::Output>)
        requires
            old(self).wf(),
        ensures
            final(self).wf(),
            final(self).folder() == old(self).folder(),
            old(self).pending().len() > 0 ==> {
                &&& r == Some(old(self).pending()[0])
                &&& final(self).pending() == old(self).pending().drop_first()
                &&& final(self).remaining_input() == old(self).remaining_input()
                &&& final(self).sizes() == old(self).sizes()
            },
            old(self).pending().len() == 0 && old(self).remaining_input().length() == Some(0nat) ==> {
                &&& r is None
                &&& final(self).pending() == old(self).pending()
                &&& final(self).remaining_input() == old(self).remaining_input()
                &&& final(self).sizes() == old(self).sizes()
            },
            old(self).pending().len() == 0 && old(self).remaining_input().length() != Some(0nat) ==> exists|
                a: &mut S,
                s: Option<usize>,
            |
                *a == old(self).sizes() && *final(a) == final(self).sizes() && #[trigger] call_ensures(
                    S::next,
                    (a,),
                    s,
                ) && next_block_output(
                    old(self).folder(),
                    old(self).remaining_input(),
                    final(self).remaining_input(),
                    output_block_index(old(self).remaining_input().length(), s),
                    r,
                    final(self).pending(),
                ),
            old(self).pending().len() == 0 && old(self).remaining_input().length() != Some(0nat)
                && final(self).remaining_input().length()->0 == old(self).remaining_input().length()->0
                ==> r is Some && exists|a: &mut S|
                *a == old(self).sizes() && *final(a) == final(self).sizes() && #[trigger] call_ensures(
                    S::next,
                    (a,),
                    Some(0usize),
                ),
    {
        if self.pending.len() > 0 {
            return Some(self.pending.remove(0));
        }
        let n = match &self.remaining_input {
            Some(input) => match input.base_length() {
                Some(n) => n,
                None => 0,
            },
            None => 0,
        };
        if n == 0 {
            return None;
        }
        let given = self.sizes.next();
        let next_size = match given {
            Some(size) => if size < n { size } else { n },
            None => n,
        };
        let input = self.remaining_input.take().unwrap();
        let ghost whole = input;
        let (chunk, rest) = input.divide_at(next_size);
        self.remaining_input = Some(rest);
        let mut outputs = schedule_collect(chunk, &self.folder, self.policy);
        let ghost outs = outputs@;
        let first = outputs.remove(0);
        self.pending = outputs;
        proof {
            assert(self.pending() =~= outs.drop_first());
            assert(whole.divides(next_size, chunk, self.remaining_input()));
            assert(divided_outputs(self.folder(), chunk, outs));
            assert(next_size == output_block_index(whole.length(), given));
            assert(next_block_output(
                self.folder(),
                whole,
                self.remaining_input(),
                next_size,
                Some(first),
                self.pending(),
            ));
        }
        Some(first)
    }
}

impl<F, S> ActivatedInput<F, S, BlockedOrMore> where F: Folder, S: Iterator<Item = usize> {
    /// Iterate on the outputs of the sequential tasks, block after block.
    pub fn into_iter(self) -> (r: OutputIterator<F, S>)
        ensures
            r.remaining_input() == self.input(),
            r.folder() == self.folder(),
            r.pending().len() == 0,
            self.folder().ready() && self.input().valid() && self.input().length() is Some ==> r.wf(),
    {
        OutputIterator {
            remaining_input: Some(self.input),
            folder: self.folder,
            sizes: self.sizes,
            policy: self.policy,
            pending: Vec::new(),
        }
    }
}

} // verus!
