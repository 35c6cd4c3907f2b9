//! Schedulers: how a folder is run on a divisible input.
//!
//! A run cuts the input into pieces, folds each piece sequentially to its end
//! and combines the outputs. Which cuts are made depends on the policy; the
//! specifications below say what every run computes, whatever the cuts.
use vstd::prelude::*;
use vstd::std_specs::iter::IteratorSpec;
use crate::divisibility::Divisible;
use crate::folders::Folder;
use crate::parallel::join;
use crate::policy::Policy;

verus! {

/// `steps` is a sequential fold of `input` to its end, whose output is `o`:
/// step `k + 1` is what folding at most `limits[k]` units of step `k` gives.
pub open spec fn sequential_run<F: Folder>(
    folder: F,
    input: F::Input,
    steps: Seq<(F::IntermediateOutput, F::Input)>,
    limits: Seq<usize>,
    o: F::Output,
) -> bool {
    &&& steps.len() >= 1
    &&& limits.len() == steps.len() - 1
    &&& steps[0].1 == input
    &&& folder.starts_with(steps[0].0)
    &&& forall|k: int|
        0 <= k < limits.len() ==> #[trigger] folder.folds(steps[k].0, steps[k].1, limits[k], steps[k + 1])
    &&& steps.last().1.length() == Some(0nat)
    &&& folder.outputs(steps.last().0, steps.last().1, o)
}

/// `o` is what folding all of `input` sequentially gives.
pub open spec fn folds_to_end<F: Folder>(folder: F, input: F::Input, o: F::Output) -> bool {
    exists|steps: Seq<(F::IntermediateOutput, F::Input)>, limits: Seq<usize>| #[trigger]
        sequential_run(folder, input, steps, limits, o)
}

/// A node of a division tree: the input it stands for, the value computed
/// for it, and, when that input was cut in two, the index of the cut and the
/// positions of the nodes of both sides.
pub type TreeNode<I, V> = (I, V, Option<(usize, int, int)>);

/// Node `k` of `nodes` is sound: a leaf's value is one that `leaf` allows for
/// its input; a cut node's input divides into the inputs of its two sides
/// (which come after it), and its value is one that `cut` allows for theirs.
pub open spec fn tree_node_ok<I: Divisible, V>(
    nodes: Seq<TreeNode<I, V>>,
    k: int,
    leaf: spec_fn(I, V) -> bool,
    cut: spec_fn(V, V, V) -> bool,
) -> bool {
    match nodes[k].2 {
        None => leaf(nodes[k].0, nodes[k].1),
        Some((index, l, r)) => {
            &&& k < l < nodes.len()
            &&& k < r < nodes.len()
            &&& nodes[k].0.divides(index, nodes[l].0, nodes[r].0)
            &&& cut(nodes[l].1, nodes[r].1, nodes[k].1)
        },
    }
}

/// `nodes` is a division tree whose root (the first node) computes `v` for `input`.
pub open spec fn division_tree<I: Divisible, V>(
    nodes: Seq<TreeNode<I, V>>,
    input: I,
    v: V,
    leaf: spec_fn(I, V) -> bool,
    cut: spec_fn(V, V, V) -> bool,
) -> bool {
    &&& nodes.len() > 0
    &&& nodes[0].0 == input
    &&& nodes[0].1 == v
    &&& forall|k: int| 0 <= k < nodes.len() ==> #[trigger] tree_node_ok(nodes, k, leaf, cut)
}

/// The nodes, with the positions of children moved by `by`.
pub open spec fn shifted<I, V>(nodes: Seq<TreeNode<I, V>>, by: int) -> Seq<TreeNode<I, V>> {
    nodes.map_values(
        |n: TreeNode<I, V>|
            (
                n.0,
                n.1,
                match n.2 {
                    Some((index, l, r)) => Some((index, l + by, r + by)),
                    None => None,
                },
            ),
    )
}

/// The tree whose root cuts `input` at `index` into the roots of two trees.
pub open spec fn joined<I, V>(
    input: I,
    index: usize,
    v: V,
    left: Seq<TreeNode<I, V>>,
    right: Seq<TreeNode<I, V>>,
) -> Seq<TreeNode<I, V>> {
    let a: int = left.len() as int;
    seq![(input, v, Some((index, 1int, 1 + a)))] + shifted(left, 1) + shifted(right, 1 + a)
}

/// A single leaf is a division tree.
pub proof fn lemma_leaf_tree<I: Divisible, V>(
    input: I,
    v: V,
    leaf: spec_fn(I, V) -> bool,
    cut: spec_fn(V, V, V) -> bool,
)
    requires
        leaf(input, v),
    ensures
        division_tree(seq![(input, v, None::<(usize, int, int)>)], input, v, leaf, cut),
{
    let nodes = seq![(input, v, None::<(usize, int, int)>)];
    assert(tree_node_ok(nodes, 0, leaf, cut));
}

/// Two division trees of the sides of a cut make a division tree of the whole.
pub proof fn lemma_join_trees<I: Divisible, V>(
    input: I,
    index: usize,
    v: V,
    left: Seq<TreeNode<I, V>>,
    lv: V,
    right: Seq<TreeNode<I, V>>,
    rv: V,
    leaf: spec_fn(I, V) -> bool,
    cut: spec_fn(V, V, V) -> bool,
)
    requires
        division_tree(left, left[0].0, lv, leaf, cut),
        division_tree(right, right[0].0, rv, leaf, cut),
        input.divides(index, left[0].0, right[0].0),
        cut(lv, rv, v),
    ensures
        division_tree(joined(input, index, v, left, right), input, v, leaf, cut),
{
    let nodes = joined(input, index, v, left, right);
    let a: int = left.len() as int;
    let sl = shifted(left, 1);
    let sr = shifted(right, 1 + a);
    assert(nodes.len() == 1 + a + right.len());
    assert forall|k: int| 0 <= k < nodes.len() implies #[trigger] tree_node_ok(nodes, k, leaf, cut) by {
        if k == 0 {
            assert(nodes[1] == sl[0]);
            assert(nodes[1 + a] == sr[0]);
        } else if k < 1 + a {
            let j = k - 1;
            assert(nodes[k] == sl[j]);
            assert(tree_node_ok(left, j, leaf, cut));
            match left[j].2 {
                Some((index2, l, r)) => {
                    assert(nodes[l + 1] == sl[l]);
                    assert(nodes[r + 1] == sl[r]);
                },
                None => {},
            }
        } else {
            let j = k - 1 - a;
            assert(nodes[k] == sr[j]);
            assert(tree_node_ok(right, j, leaf, cut));
            match right[j].2 {
                Some((index2, l, r)) => {
                    assert(nodes[l + 1 + a] == sr[l]);
                    assert(nodes[r + 1 + a] == sr[r]);
                },
                None => {},
            }
        }
    }
}

/// What a leaf of a scheduled run gives: its input folded sequentially to its end.
pub open spec fn leaf_folds<F: Folder>(folder: F) -> spec_fn(F::Input, F::Output) -> bool {
    |i: F::Input, o: F::Output| folds_to_end(folder, i, o)
}

/// What a cut of a scheduled run gives: `reduce` on the outputs of both sides.
pub open spec fn cut_reduces<O, R: Fn(O, O) -> O>(reduce: R) -> spec_fn(O, O, O) -> bool {
    |a: O, b: O, c: O| reduce.ensures((a, b), c)
}

/// What a leaf gives when outputs are collected: the one output of its sequential fold.
pub open spec fn leaf_collects<F: Folder>(folder: F) -> spec_fn(F::Input, Seq<F::Output>) -> bool {
    |i: F::Input, s: Seq<F::Output>| s.len() == 1 && folds_to_end(folder, i, s[0])
}

/// What a cut gives when outputs are collected: the outputs of the left side, then of the right.
pub open spec fn cut_concatenates<O>() -> spec_fn(Seq<O>, Seq<O>, Seq<O>) -> bool {
    |a: Seq<O>, b: Seq<O>, c: Seq<O>| c == a + b
}

/// `o` is what scheduling `folder` on `input` and reducing with `reduce` may give:
/// the input is cut into pieces, each folded sequentially to its end, and the
/// outputs of both sides of each cut are combined with `reduce`.
pub open spec fn scheduled<F: Folder, R: Fn(F::Output, F::Output) -> F::Output>(
    folder: F,
    reduce: R,
    input: F::Input,
    o: F::Output,
) -> bool {
    exists|nodes: Seq<TreeNode<F::Input, F::Output>>| #[trigger]
        division_tree(nodes, input, o, leaf_folds(folder), cut_reduces(reduce))
}

/// `outs` are the outputs, from left to right, of the sequential tasks of some
/// division of `input`.
pub open spec fn divided_outputs<F: Folder>(folder: F, input: F::Input, outs: Seq<F::Output>) -> bool {
    exists|nodes: Seq<TreeNode<F::Input, Seq<F::Output>>>| #[trigger]
        division_tree(nodes, input, outs, leaf_collects(folder), cut_concatenates())
}

/// In a division tree where leaves fold to `h` of their input and cuts reduce
/// `h` of both sides to `h` of the whole, every node from position `k` on holds `h` of its input.
proof fn lemma_tree_homomorphism<F: Folder, R: Fn(F::Output, F::Output) -> F::Output>(
    folder: F,
    reduce: R,
    nodes: Seq<TreeNode<F::Input, F::Output>>,
    h: spec_fn(F::Input) -> F::Output,
    k: nat,
)
    requires
        k < nodes.len(),
        forall|j: int|
            0 <= j < nodes.len() ==> #[trigger] tree_node_ok(
                nodes,
                j,
                leaf_folds(folder),
                cut_reduces(reduce),
            ),
        forall|i: F::Input, x: F::Output| #[trigger] folds_to_end(folder, i, x) ==> x == h(i),
        forall|whole: F::Input, index: usize, l: F::Input, r: F::Input, x: F::Output|
            #![trigger whole.divides(index, l, r), reduce.ensures((h(l), h(r)), x)]
            whole.divides(index, l, r) && reduce.ensures((h(l), h(r)), x) ==> x == h(whole),
    ensures
        forall|j: int| k <= j < nodes.len() ==> #[trigger] nodes[j].1 == h(nodes[j].0),
    decreases nodes.len() - k,
{
    if k + 1 < nodes.len() {
        lemma_tree_homomorphism(folder, reduce, nodes, h, k + 1);
    }
    assert(tree_node_ok(nodes, k as int, leaf_folds(folder), cut_reduces(reduce)));
    match nodes[k as int].2 {
        Some((index, l, r)) => {
            assert(nodes[l].1 == h(nodes[l].0));
            assert(nodes[r].1 == h(nodes[r].0));
        },
        None => {
            assert(folds_to_end(folder, nodes[k as int].0, nodes[k as int].1));
        },
    }
}

/// The result of a schedule does not depend on how the input was cut: when
/// folding any input sequentially to its end gives `h` of it, and reducing `h`
/// of both sides of any cut gives `h` of the whole, every schedule of `input`
/// gives `h(input)`, whatever the policy.
pub proof fn lemma_schedule_homomorphism<F: Folder, R: Fn(F::Output, F::Output) -> F::Output>(
    folder: F,
    reduce: R,
    input: F::Input,
    o: F::Output,
    h: spec_fn(F::Input) -> F::Output,
)
    requires
        scheduled(folder, reduce, input, o),
        forall|i: F::Input, x: F::Output| #[trigger] folds_to_end(folder, i, x) ==> x == h(i),
        forall|whole: F::Input, index: usize, l: F::Input, r: F::Input, x: F::Output|
            #![trigger whole.divides(index, l, r), reduce.ensures((h(l), h(r)), x)]
            whole.divides(index, l, r) && reduce.ensures((h(l), h(r)), x) ==> x == h(whole),
    ensures
        o == h(input),
{
    let nodes = choose|nodes: Seq<TreeNode<F::Input, F::Output>>|
        division_tree(nodes, input, o, leaf_folds(folder), cut_reduces(reduce));
    lemma_tree_homomorphism(folder, reduce, nodes, h, 0);
    assert(nodes[0].1 == h(nodes[0].0));
}

/// Fold all of `input` sequentially, in blocks whose sizes follow the policy
/// (they grow from its first to its largest block size).
pub fn fold_sequentially<F: Folder>(input: F::Input, folder: &F, policy: Policy) -> (r: F::Output)
    requires
        folder.ready(),
        input.valid(),
        input.length() is Some,
    ensures
        folds_to_end(*folder, input, r),
{
    let mut io = folder.identity();
    let mut remaining = input;
    let mut block = policy.first_block_size();
    let ghost mut steps: Seq<(F::IntermediateOutput, F::Input)> = seq![(io, remaining)];
    let ghost mut limits: Seq<usize> = seq![];
    loop
        invariant
            folder.ready(),
            remaining.valid(),
            remaining.length() is Some,
            block >= 1,
            steps.len() >= 1,
            steps[0].1 == input,
            folder.starts_with(steps[0].0),
            limits.len() == steps.len() - 1,
            forall|k: int|
                0 <= k < limits.len() ==> #[trigger] folder.folds(
                    steps[k].0,
                    steps[k].1,
                    limits[k],
                    steps[k + 1],
                ),
            steps.last() == (io, remaining),
        ensures
            remaining.length() == Some(0nat),
            steps.len() >= 1,
            steps[0].1 == input,
            folder.starts_with(steps[0].0),
            limits.len() == steps.len() - 1,
            forall|k: int|
                0 <= k < limits.len() ==> #[trigger] folder.folds(
                    steps[k].0,
                    steps[k].1,
                    limits[k],
                    steps[k + 1],
                ),
            steps.last() == (io, remaining),
            folder.ready(),
            remaining.valid(),
        decreases remaining.length()->0,
    {
        let n = match remaining.base_length() {
            Some(n) => n,
            None => 0,
        };
        if n == 0 {
            break;
        }
        let limit = if block < n { block } else { n };
        let (next_io, next_remaining) = folder.fold(io, remaining, limit);
        proof {
            steps = steps.push((next_io, next_remaining));
            limits = limits.push(limit);
        }
        io = next_io;
        remaining = next_remaining;
        block = policy.next_block_size(block);
    }
    let r = folder.to_output(io, remaining);
    assert(sequential_run(*folder, input, steps, limits, r));
    r
}

/// Schedule below the top level: cut while the input is larger than the threshold.
fn schedule_rec<F, R>(input: F::Input, folder: &F, reduce: &R, threshold: usize, policy: Policy) -> (r: (
    F::Output,
    Ghost<Seq<TreeNode<F::Input, F::Output>>>,
)) where
    F: Folder + Sync,
    F::Input: Send,
    F::Output: Send,
    R: Fn(F::Output, F::Output) -> F::Output + Sync,

    requires
        folder.ready(),
        input.valid(),
        input.length() is Some,
        forall|a: F::Output, b: F::Output| #[trigger] reduce.requires((a, b)),
    ensures
        division_tree(r.1@, input, r.0, leaf_folds(*folder), cut_reduces(*reduce)),
    decreases input.length()->0,
{
    let n = match input.base_length() {
        Some(n) => n,
        None => 0,
    };
    if n <= threshold || n < 2 {
        let o = fold_sequentially(input, folder, policy);
        proof {
            lemma_leaf_tree(input, o, leaf_folds(*folder), cut_reduces(*reduce));
        }
        let ghost tree: Seq<TreeNode<F::Input, F::Output>> = seq![(input, o, None)];
        return (o, Ghost(tree));
    }
    let ghost whole = input;
    let (left, right) = input.divide();
    let left_smaller = match left.base_length() {
        Some(k) => k < n,
        None => false,
    };
    let ((lo, lt), (ro, rt)) = join(
        move || -> (r: (F::Output, Ghost<Seq<TreeNode<F::Input, F::Output>>>))
            ensures
                division_tree(r.1@, left, r.0, leaf_folds(*folder), cut_reduces(*reduce))
            {
                if left_smaller {
                    schedule_rec(left, folder, reduce, threshold, policy)
                } else {
                    let o = fold_sequentially(left, folder, policy);
                    proof {
                        lemma_leaf_tree(left, o, leaf_folds(*folder), cut_reduces(*reduce));
                    }
                    let ghost tree: Seq<TreeNode<F::Input, F::Output>> = seq![(left, o, None)];
                    (o, Ghost(tree))
                }
            },
        move || -> (r: (F::Output, Ghost<Seq<TreeNode<F::Input, F::Output>>>))
            ensures
                division_tree(r.1@, right, r.0, leaf_folds(*folder), cut_reduces(*reduce))
            { schedule_rec(right, folder, reduce, threshold, policy) },
    );
    let ghost lo_g = lo;
    let ghost ro_g = ro;
    let o = reduce(lo, ro);
    let ghost index = (whole.length()->0 / 2) as usize;
    proof {
        assert(cut_reduces(*reduce)(lo_g, ro_g, o));
        lemma_join_trees(
            whole,
            index,
            o,
            lt@,
            lo_g,
            rt@,
            ro_g,
            leaf_folds(*folder),
            cut_reduces(*reduce),
        );
    }
    let ghost tree = joined(whole, index, o, lt@, rt@);
    (o, Ghost(tree))
}

/// Run `folder` on `input` following `policy`: the input is cut while it is
/// larger than the policy's threshold, the pieces are folded sequentially (in
/// parallel with one another) and the outputs of both sides of each cut are
/// combined with `reduce`. With the sequential policy nothing is cut.
pub fn schedule<F, R>(input: F::Input, folder: &F, reduce: &R, policy: Policy) -> (r: F::Output) where
    F: Folder + Sync,
    F::Input: Send,
    F::Output: Send,
    R: Fn(F::Output, F::Output) -> F::Output + Sync,

    requires
        folder.ready(),
        input.valid(),
        input.length() is Some,
        forall|a: F::Output, b: F::Output| #[trigger] reduce.requires((a, b)),
    ensures
        scheduled(*folder, *reduce, input, r),
        policy == Policy::Sequential ==> folds_to_end(*folder, input, r),
{
    let n = match input.base_length() {
        Some(n) => n,
        None => 0,
    };
    if policy == Policy::Sequential {
        let o = fold_sequentially(input, folder, policy);
        proof {
            lemma_leaf_tree(input, o, leaf_folds(*folder), cut_reduces(*reduce));
        }
        return o;
    }
    let threshold = policy.division_threshold(n);
    let (o, _tree) = schedule_rec(input, folder, reduce, threshold, policy);
    o
}

/// Collect below the top level: cut while the input is larger than the threshold.
fn collect_rec<F>(input: F::Input, folder: &F, threshold: usize, policy: Policy) -> (r: (
    Vec<F::Output>,
    Ghost<Seq<TreeNode<F::Input, Seq<F::Output>>>>,
)) where
    F: Folder + Sync,
    F::Input: Send,
    F::Output: Send,

    requires
        folder.ready(),
        input.valid(),
        input.length() is Some,
    ensures
        division_tree(r.1@, input, r.0@, leaf_collects(*folder), cut_concatenates()),
        input.length()->0 <= threshold ==> r.0@.len() == 1 && folds_to_end(*folder, input, r.0@[0]),
    decreases input.length()->0,
{
    let n = match input.base_length() {
        Some(n) => n,
        None => 0,
    };
    if n <= threshold || n < 2 {
        let o = fold_sequentially(input, folder, policy);
        let mut v: Vec<F::Output> = Vec::new();
        v.push(o);
        proof {
            lemma_leaf_tree(input, v@, leaf_collects(*folder), cut_concatenates());
        }
        let ghost tree: Seq<TreeNode<F::Input, Seq<F::Output>>> = seq![(input, v@, None)];
        return (v, Ghost(tree));
    }
    let ghost whole = input;
    let (left, right) = input.divide();
    let left_smaller = match left.base_length() {
        Some(k) => k < n,
        None => false,
    };
    let ((mut lo, lt), (mut ro, rt)) = join(
        move || -> (r: (Vec<F::Output>, Ghost<Seq<TreeNode<F::Input, Seq<F::Output>>>>))
            ensures
                division_tree(r.1@, left, r.0@, leaf_collects(*folder), cut_concatenates())
            {
                if left_smaller {
                    collect_rec(left, folder, threshold, policy)
                } else {
                    let o = fold_sequentially(left, folder, policy);
                    let mut v: Vec<F::Output> = Vec::new();
                    v.push(o);
                    proof {
                        lemma_leaf_tree(left, v@, leaf_collects(*folder), cut_concatenates());
                    }
                    let ghost tree: Seq<TreeNode<F::Input, Seq<F::Output>>> = seq![(left, v@, None)];
                    (v, Ghost(tree))
                }
            },
        move || -> (r: (Vec<F::Output>, Ghost<Seq<TreeNode<F::Input, Seq<F::Output>>>>))
            ensures
                division_tree(r.1@, right, r.0@, leaf_collects(*folder), cut_concatenates())
            { collect_rec(right, folder, threshold, policy) },
    );
    let ghost lv = lo@;
    let ghost rv = ro@;
    lo.append(&mut ro);
    let ghost index = (whole.length()->0 / 2) as usize;
    proof {
        assert(cut_concatenates()(lv, rv, lo@));
        lemma_join_trees(
            whole,
            index,
            lo@,
            lt@,
            lv,
            rt@,
            rv,
            leaf_collects(*folder),
            cut_concatenates(),
        );
    }
    let ghost tree = joined(whole, index, lo@, lt@, rt@);
    (lo, Ghost(tree))
}

/// Run `folder` on `input` following `policy` and collect the outputs of all
/// sequential tasks, from left to right.
pub fn schedule_collect<F>(input: F::Input, folder: &F, policy: Policy) -> (r: Vec<F::Output>) where
    F: Folder + Sync,
    F::Input: Send,
    F::Output: Send,

    requires
        folder.ready(),
        input.valid(),
        input.length() is Some,
    ensures
        divided_outputs(*folder, input, r@),
        r@.len() >= 1,
        policy == Policy::Sequential ==> r@.len() == 1 && folds_to_end(*folder, input, r@[0]),
{
    let n = match input.base_length() {
        Some(n) => n,
        None => 0,
    };
    let threshold = policy.division_threshold(n);
    let (v, tree) = collect_rec(input, folder, threshold, policy);
    proof {
        lemma_collected_nonempty(tree@, *folder, 0);
        assert(tree@[0].1.len() >= 1);
        assert(tree_node_ok(tree@, 0, leaf_collects(*folder), cut_concatenates()));
    }
    v
}

/// In a tree collecting outputs, each node from position `k` on collects at least one output.
proof fn lemma_collected_nonempty<F: Folder>(
    nodes: Seq<TreeNode<F::Input, Seq<F::Output>>>,
    folder: F,
    k: nat,
)
    requires
        nodes.len() > 0,
        k < nodes.len(),
        forall|j: int|
            0 <= j < nodes.len() ==> #[trigger] tree_node_ok(
                nodes,
                j,
                leaf_collects(folder),
                cut_concatenates(),
            ),
    ensures
        forall|j: int| k <= j < nodes.len() ==> #[trigger] nodes[j].1.len() >= 1,
    decreases nodes.len() - k,
{
    if k + 1 < nodes.len() {
        lemma_collected_nonempty(nodes, folder, k + 1);
    }
    assert(tree_node_ok(nodes, k as int, leaf_collects(folder), cut_concatenates()));
    match nodes[k as int].2 {
        Some((index, l, r)) => {
            assert(nodes[l].1.len() >= 1);
        },
        None => {},
    }
}

/// `blocks` are cut one after the other from the left of `input`: before block
/// `k`, `rests[k]` remains, and cutting it at `cuts[k]` gives the block and
/// `rests[k + 1]`; nothing remains after the last block.
pub open spec fn cut_in_blocks<I: Divisible>(input: I, blocks: Seq<I>, rests: Seq<I>, cuts: Seq<usize>) -> bool {
    &&& rests.len() == blocks.len() + 1
    &&& cuts.len() == blocks.len()
    &&& rests[0] == input
    &&& forall|k: int|
        0 <= k < blocks.len() ==> #[trigger] rests[k].divides(cuts[k], blocks[k], rests[k + 1])
    &&& rests.last().length() == Some(0nat)
    &&& forall|k: int| 0 <= k < rests.len() ==> #[trigger] rests[k].valid()
    &&& forall|k: int| 0 <= k < blocks.len() ==> #[trigger] blocks[k].valid()
    &&& forall|k: int|
        #![trigger cuts[k]]
        #![trigger rests[k]]
        0 <= k < blocks.len() ==> rests[k].length() is Some && cuts[k] <= rests[k].length()->0
}

/// The blocks cut from `input` are each scheduled, giving `outs`, and `accs`
/// reduces these outputs from left to right, ending with `o`.
pub open spec fn blocks_reduce_to<F: Folder, R: Fn(F::Output, F::Output) -> F::Output>(
    folder: F,
    reduce: R,
    input: F::Input,
    blocks: Seq<F::Input>,
    rests: Seq<F::Input>,
    cuts: Seq<usize>,
    outs: Seq<F::Output>,
    accs: Seq<F::Output>,
    o: F::Output,
) -> bool {
    &&& cut_in_blocks(input, blocks, rests, cuts)
    &&& blocks.len() >= 1
    &&& outs.len() == blocks.len()
    &&& accs.len() == blocks.len()
    &&& forall|k: int| 0 <= k < blocks.len() ==> #[trigger] scheduled(folder, reduce, blocks[k], outs[k])
    &&& accs[0] == outs[0]
    &&& forall|k: int|
        0 <= k < blocks.len() - 1 ==> #[trigger] reduce.ensures((accs[k], outs[k + 1]), accs[k + 1])
    &&& o == accs.last()
}

/// `o` is what cutting `input` into blocks, scheduling each block and reducing
/// their outputs from left to right gives.
pub open spec fn reduced_by_blocks<F: Folder, R: Fn(F::Output, F::Output) -> F::Output>(
    folder: F,
    reduce: R,
    input: F::Input,
    o: F::Output,
) -> bool {
    exists|
        blocks: Seq<F::Input>,
        rests: Seq<F::Input>,
        cuts: Seq<usize>,
        outs: Seq<F::Output>,
        accs: Seq<F::Output>,
    | #[trigger] blocks_reduce_to(folder, reduce, input, blocks, rests, cuts, outs, accs, o)
}

/// Size of a block given the size `s` that the sizes iterator gave (`None` once
/// it has run out) and what remains: a size of 0 is read as 1, a size above
/// what remains as what remains, and everything remains once sizes run out.
pub open spec fn block_size_for(s: Option<usize>, remaining: usize) -> usize {
    match s {
        Some(size) => if size == 0 {
            1
        } else if size > remaining {
            remaining
        } else {
            size
        },
        None => remaining,
    }
}

/// The `k`-th of `sizes`, if there is one.
pub open spec fn given_size(sizes: Seq<usize>, k: int) -> Option<usize> {
    if 0 <= k < sizes.len() {
        Some(sizes[k])
    } else {
        None
    }
}

/// Each block is cut at the size read from the `k`-th of `sizes` (`None` once
/// they run out) with what remained before it.
pub open spec fn cuts_follow<I: Divisible>(rests: Seq<I>, cuts: Seq<usize>, sizes: Seq<usize>) -> bool {
    forall|k: int|
        0 <= k < cuts.len() ==> #[trigger] cuts[k] == block_size_for(
            given_size(sizes, k),
            rests[k].length()->0 as usize,
        )
}

/// `o` is what cutting `input` into blocks of the given sizes, scheduling each
/// block and reducing their outputs from left to right gives.
pub open spec fn reduced_by_sized_blocks<F: Folder, R: Fn(F::Output, F::Output) -> F::Output>(
    folder: F,
    reduce: R,
    input: F::Input,
    sizes: Seq<usize>,
    o: F::Output,
) -> bool {
    exists|
        blocks: Seq<F::Input>,
        rests: Seq<F::Input>,
        cuts: Seq<usize>,
        outs: Seq<F::Output>,
        accs: Seq<F::Output>,
    |
        #[trigger] blocks_reduce_to(folder, reduce, input, blocks, rests, cuts, outs, accs, o) && cuts_follow(
            rests,
            cuts,
            sizes,
        )
}

/// The size of the next block: the next of `sizes` (everything that remains
/// once they run out), at least 1 and at most what remains.
fn next_block_size<S: Iterator<Item = usize>>(sizes: &mut S, remaining: usize) -> (r: usize)
    requires
        remaining > 0,
    ensures
        0 < r <= remaining,
        exists|a: &mut S, s: Option<usize>|
            *a == *old(sizes) && *final(a) == *final(sizes) && #[trigger] call_ensures(S::next, (a,), s)
                && r == block_size_for(s, remaining),
        (*final(sizes)).obeys_prophetic_iter_laws() == (*old(sizes)).obeys_prophetic_iter_laws(),
        (*old(sizes)).obeys_prophetic_iter_laws() ==> {
            &&& r == block_size_for(given_size((*old(sizes)).remaining(), 0), remaining)
            &&& (*old(sizes)).remaining().len() > 0 ==> (*final(sizes)).remaining() == (*old(
                sizes,
            )).remaining().drop_first()
            &&& (*old(sizes)).remaining().len() == 0 ==> (*final(sizes)).remaining().len() == 0
        },
{
    let size = match sizes.next() {
        Some(size) => size,
        None => remaining,
    };
    if size == 0 {
        1
    } else if size > remaining {
        remaining
    } else {
        size
    }
}

/// Cut `input` into blocks of the given sizes (a size of 0 is read as 1, and the
/// last block takes everything once the sizes run out), schedule `folder` on
/// each block and reduce the outputs from left to right.
pub fn reduce_by_blocks<F, R, S>(input: F::Input, folder: &F, reduce: &R, sizes: S, policy: Policy) -> (r:
    F::Output) where
    F: Folder + Sync,
    F::Input: Send,
    F::Output: Send,
    R: Fn(F::Output, F::Output) -> F::Output + Sync,
    S: Iterator<Item = usize>,

    requires
        folder.ready(),
        input.valid(),
        input.length() is Some,
        input.length()->0 > 0,
        forall|a: F::Output, b: F::Output| #[trigger] reduce.requires((a, b)),
    ensures
        reduced_by_blocks(*folder, *reduce, input, r),
        sizes.obeys_prophetic_iter_laws() ==> reduced_by_sized_blocks(
            *folder,
            *reduce,
            input,
            sizes.remaining(),
            r,
        ),
{
    let ghost s0 = sizes;
    let mut sizes = sizes;
    let mut rest = input;
    let mut acc: Option<F::Output> = None;
    let ghost mut blocks: Seq<F::Input> = seq![];
    let ghost mut rests: Seq<F::Input> = seq![input];
    let ghost mut cuts: Seq<usize> = seq![];
    let ghost mut outs: Seq<F::Output> = seq![];
    let ghost mut accs: Seq<F::Output> = seq![];
    loop
        invariant
            folder.ready(),
            forall|a: F::Output, b: F::Output| #[trigger] reduce.requires((a, b)),
            sizes.obeys_prophetic_iter_laws() == s0.obeys_prophetic_iter_laws(),
            s0.obeys_prophetic_iter_laws() ==> cuts_follow(rests, cuts, s0.remaining()),
            s0.obeys_prophetic_iter_laws() && blocks.len() <= s0.remaining().len() ==> sizes.remaining()
                == s0.remaining().skip(blocks.len() as int),
            s0.obeys_prophetic_iter_laws() && blocks.len() > s0.remaining().len() ==> sizes.remaining().len()
                == 0,
            rest.valid(),
            rest.length() is Some,
            input.length()->0 > 0,
            rests.len() == blocks.len() + 1,
            cuts.len() == blocks.len(),
            rests[0] == input,
            rests.last() == rest,
            forall|k: int| 0 <= k < rests.len() ==> #[trigger] rests[k].valid(),
            forall|k: int| 0 <= k < blocks.len() ==> #[trigger] blocks[k].valid(),
            forall|k: int|
                #![trigger cuts[k]]
                #![trigger rests[k]]
                0 <= k < blocks.len() ==> rests[k].length() is Some && cuts[k] <= rests[k].length()->0,
            forall|k: int|
                0 <= k < blocks.len() ==> #[trigger] rests[k].divides(cuts[k], blocks[k], rests[k + 1]),
            outs.len() == blocks.len(),
            accs.len() == blocks.len(),
            forall|k: int| 0 <= k < blocks.len() ==> #[trigger] scheduled(*folder, *reduce, blocks[k], outs[k]),
            blocks.len() > 0 ==> accs[0] == outs[0],
            forall|k: int|
                0 <= k < blocks.len() - 1 ==> #[trigger] reduce.ensures((accs[k], outs[k + 1]), accs[k + 1]),
            blocks.len() == 0 <==> acc is None,
            blocks.len() == 0 ==> rest == input,
            acc matches Some(a) ==> a == accs.last(),
        ensures
            rest.length() == Some(0nat),
        decreases rest.length()->0,
    {
        let n = match rest.base_length() {
            Some(n) => n,
            None => 0,
        };
        if n == 0 {
            break;
        }
        let size = next_block_size(&mut sizes, n);
        let ghost whole = rest;
        let (block, next_rest) = rest.divide_at(size);
        let o = schedule(block, folder, reduce, policy);
        let ghost og = o;
        let next_acc = match acc {
            None => o,
            Some(a) => reduce(a, o),
        };
        proof {
            blocks = blocks.push(block);
            rests = rests.push(next_rest);
            cuts = cuts.push(size);
            outs = outs.push(og);
            accs = accs.push(next_acc);
        }
        acc = Some(next_acc);
        rest = next_rest;
    }
    assert(blocks.len() > 0);
    let r = acc.unwrap();
    assert(blocks_reduce_to(*folder, *reduce, input, blocks, rests, cuts, outs, accs, r));
    r
}

/// The master's fold accepts every valid finite input with a limit between 1
/// and its length, and leaves a valid, shorter input.
pub open spec fn master_ready<B, I: Divisible, FOLD: Fn(B, I, usize) -> (B, I)>(fold: FOLD) -> bool {
    &&& forall|b: B, i: I, limit: usize|
        i.valid() && i.length() is Some && 0 < limit <= i.length()->0
            ==> #[trigger] fold.requires((b, i, limit))
    &&& forall|b: B, i: I, limit: usize, r: (B, I)|
        i.valid() && i.length() is Some && 0 < limit <= i.length()->0 && #[trigger] fold.ensures(
            (b, i, limit),
            r,
        ) ==> r.1.valid() && r.1.length() is Some && r.1.length()->0 < i.length()->0
}

/// The master's fold, step by step: from `(bs[0], is[0]) == (b, i)`, each step
/// is one that `step` allows with the limit `limits[k]`, and the last step
/// leaves nothing of the input.
pub open spec fn master_steps<B, I: Divisible>(
    step: spec_fn(B, I, usize, (B, I)) -> bool,
    b: B,
    i: I,
    out: B,
    bs: Seq<B>,
    is: Seq<I>,
    limits: Seq<usize>,
) -> bool {
    &&& bs.len() >= 1
    &&& is.len() == bs.len()
    &&& limits.len() == bs.len() - 1
    &&& bs[0] == b
    &&& is[0] == i
    &&& bs.last() == out
    &&& is.last().length() == Some(0nat)
    &&& forall|k: int|
        0 <= k < limits.len() ==> #[trigger] step(bs[k], is[k], limits[k], (bs[k + 1], is[k + 1]))
    &&& forall|k: int| 0 <= k < is.len() ==> #[trigger] is[k].valid()
}

/// `out` is what the master's fold gives from `b` when it goes through all of `i`.
pub open spec fn master_run<B, I: Divisible>(
    step: spec_fn(B, I, usize, (B, I)) -> bool,
    b: B,
    i: I,
    out: B,
) -> bool {
    exists|bs: Seq<B>, is: Seq<I>, limits: Seq<usize>| #[trigger] master_steps(step, b, i, out, bs, is, limits)
}

/// Each result of `fold` is a step that `step` allows.
pub open spec fn master_steps_as<B, I: Divisible, FOLD: Fn(B, I, usize) -> (B, I)>(
    fold: FOLD,
    step: spec_fn(B, I, usize, (B, I)) -> bool,
) -> bool {
    forall|b: B, i: I, limit: usize, r: (B, I)| #[trigger] fold.ensures((b, i, limit), r) ==> step(b, i, limit, r)
}

/// `out` is what retrieving the outputs `outs`, in order, from `b` gives.
pub open spec fn retrieved<B, O, RET: Fn(B, O) -> B>(retrieve: RET, b: B, outs: Seq<O>, out: B) -> bool {
    exists|bs: Seq<B>|
        {
            &&& bs.len() == outs.len() + 1
            &&& bs[0] == b
            &&& bs.last() == out
            &&& forall|k: int| 0 <= k < outs.len() ==> #[trigger] retrieve.ensures((bs[k], outs[k]), bs[k + 1])
        }
}

/// `out` is what a helped block gives from `b`: the master folds all of the
/// block, or the block is cut in two, the master folds the left part while
/// helpers run `folder` on the right part, and the master retrieves their outputs.
pub open spec fn helped_block<F: Folder, B, RET: Fn(B, F::Output) -> B>(
    folder: F,
    step: spec_fn(B, F::Input, usize, (B, F::Input)) -> bool,
    retrieve: RET,
    b: B,
    block: F::Input,
    out: B,
) -> bool {
    ||| master_run(step, b, block, out)
    ||| exists|index: usize, mine: F::Input, his: F::Input, mid: B, outs: Seq<F::Output>|
        #![trigger block.divides(index, mine, his), master_run(step, b, mine, mid), divided_outputs(folder, his, outs)]
        block.divides(index, mine, his) && block.length() is Some && index <= block.length()->0 && master_run(
            step,
            b,
            mine,
            mid,
        ) && divided_outputs(folder, his, outs) && retrieved(retrieve, mid, outs, out)
}

/// The blocks cut from `input` are helped one after the other, from `bs[0] == init` to `out`.
pub open spec fn helped_blocks<F: Folder, B, RET: Fn(B, F::Output) -> B>(
    folder: F,
    step: spec_fn(B, F::Input, usize, (B, F::Input)) -> bool,
    retrieve: RET,
    input: F::Input,
    init: B,
    out: B,
    blocks: Seq<F::Input>,
    rests: Seq<F::Input>,
    cuts: Seq<usize>,
    bs: Seq<B>,
) -> bool {
    &&& cut_in_blocks(input, blocks, rests, cuts)
    &&& bs.len() == blocks.len() + 1
    &&& bs[0] == init
    &&& bs.last() == out
    &&& forall|k: int|
        0 <= k < blocks.len() ==> #[trigger] helped_block(folder, step, retrieve, bs[k], blocks[k], bs[k + 1])
}

/// `out` is what folding `input` from `init` with help gives: the input is cut
/// into blocks, and each block is helped in turn.
pub open spec fn helped_fold<F: Folder, B, RET: Fn(B, F::Output) -> B>(
    folder: F,
    step: spec_fn(B, F::Input, usize, (B, F::Input)) -> bool,
    retrieve: RET,
    input: F::Input,
    init: B,
    out: B,
) -> bool {
    exists|blocks: Seq<F::Input>, rests: Seq<F::Input>, cuts: Seq<usize>, bs: Seq<B>| #[trigger]
        helped_blocks(folder, step, retrieve, input, init, out, blocks, rests, cuts, bs)
}

/// Along the blocks cut from `input`, each helped block goes on with `g`.
proof fn lemma_helped_blocks_fold<F: Folder, B, RET: Fn(B, F::Output) -> B>(
    folder: F,
    step: spec_fn(B, F::Input, usize, (B, F::Input)) -> bool,
    retrieve: RET,
    input: F::Input,
    init: B,
    out: B,
    blocks: Seq<F::Input>,
    rests: Seq<F::Input>,
    cuts: Seq<usize>,
    bs: Seq<B>,
    g: spec_fn(B, F::Input) -> B,
    k: int,
)
    requires
        helped_blocks(folder, step, retrieve, input, init, out, blocks, rests, cuts, bs),
        0 <= k <= blocks.len(),
        forall|b: B, i: F::Input, o: B| #[trigger] master_run(step, b, i, o) ==> o == g(b, i),
        forall|mid: B, his: F::Input, outs: Seq<F::Output>, o: B|
            #![trigger divided_outputs(folder, his, outs), retrieved(retrieve, mid, outs, o)]
            divided_outputs(folder, his, outs) && retrieved(retrieve, mid, outs, o) ==> o == g(mid, his),
        forall|b: B, whole: F::Input, index: usize, l: F::Input, r: F::Input|
            #![trigger whole.divides(index, l, r), g(b, whole)]
            whole.divides(index, l, r) ==> g(g(b, l), r) == g(b, whole),
    ensures
        g(bs[k], rests[k]) == g(init, input),
    decreases k,
{
    if k > 0 {
        let j = k - 1;
        lemma_helped_blocks_fold(folder, step, retrieve, input, init, out, blocks, rests, cuts, bs, g, j);
        assert(helped_block(folder, step, retrieve, bs[j], blocks[j], bs[j + 1]));
        assert(rests[j].divides(cuts[j], blocks[j], rests[j + 1]));
        assert(bs[j + 1] == g(bs[j], blocks[j])) by {
            if !master_run(step, bs[j], blocks[j], bs[j + 1]) {
                let (index, mine, his, mid, outs) = choose|
                    index: usize,
                    mine: F::Input,
                    his: F::Input,
                    mid: B,
                    outs: Seq<F::Output>,
                |
                    blocks[j].divides(index, mine, his) && master_run(step, bs[j], mine, mid) && divided_outputs(
                        folder,
                        his,
                        outs,
                    ) && retrieved(retrieve, mid, outs, bs[j + 1]);
                assert(mid == g(bs[j], mine));
                assert(bs[j + 1] == g(mid, his));
                assert(blocks[j].divides(index, mine, his));
            }
        }
        assert(g(g(bs[j], blocks[j]), rests[j + 1]) == g(bs[j], rests[j]));
    } else {
        assert(rests[0] == input);
    }
}

/// A helped fold gives the sequential fold when retrieving is consistent: when
/// `g(b, i)` is what the master's fold gives from `b` through all of `i`,
/// retrieving the helpers' outputs on a piece from `mid` gives `g(mid, piece)`,
/// going through both sides of a cut goes through the whole, and going through
/// nothing changes nothing, then folding `input` from `init` with help gives
/// `g(init, input)`, whatever the blocks, cuts and helpers.
pub proof fn lemma_helped_fold_sequential<F: Folder, B, RET: Fn(B, F::Output) -> B>(
    folder: F,
    step: spec_fn(B, F::Input, usize, (B, F::Input)) -> bool,
    retrieve: RET,
    input: F::Input,
    init: B,
    out: B,
    g: spec_fn(B, F::Input) -> B,
)
    requires
        helped_fold(folder, step, retrieve, input, init, out),
        forall|b: B, i: F::Input, o: B| #[trigger] master_run(step, b, i, o) ==> o == g(b, i),
        forall|mid: B, his: F::Input, outs: Seq<F::Output>, o: B|
            #![trigger divided_outputs(folder, his, outs), retrieved(retrieve, mid, outs, o)]
            divided_outputs(folder, his, outs) && retrieved(retrieve, mid, outs, o) ==> o == g(mid, his),
        forall|b: B, whole: F::Input, index: usize, l: F::Input, r: F::Input|
            #![trigger whole.divides(index, l, r), g(b, whole)]
            whole.divides(index, l, r) ==> g(g(b, l), r) == g(b, whole),
        forall|b: B, i: F::Input| i.length() == Some(0nat) ==> #[trigger] g(b, i) == b,
    ensures
        out == g(init, input),
{
    let (blocks, rests, cuts, bs) = choose|blocks: Seq<F::Input>, rests: Seq<F::Input>, cuts: Seq<usize>, bs: Seq<B>|
        helped_blocks(folder, step, retrieve, input, init, out, blocks, rests, cuts, bs);
    lemma_helped_blocks_fold(folder, step, retrieve, input, init, out, blocks, rests, cuts, bs, g, blocks.len() as int);
    assert(rests[blocks.len() as int] == rests.last());
    assert(g(bs[blocks.len() as int], rests[blocks.len() as int]) == bs[blocks.len() as int]);
}

/// The master's fold through all of `input`, in blocks whose sizes follow the policy.
fn master_fold_all<B, I: Divisible, FOLD: Fn(B, I, usize) -> (B, I)>(
    fold: &FOLD,
    Ghost(step): Ghost<spec_fn(B, I, usize, (B, I)) -> bool>,
    init: B,
    input: I,
    policy: Policy,
) -> (r: B)
    requires
        master_ready(*fold),
        master_steps_as(*fold, step),
        input.valid(),
        input.length() is Some,
    ensures
        master_run(step, init, input, r),
{
    let mut b = init;
    let mut remaining = input;
    let mut block = policy.first_block_size();
    let ghost mut bs: Seq<B> = seq![init];
    let ghost mut is: Seq<I> = seq![input];
    let ghost mut limits: Seq<usize> = seq![];
    loop
        invariant
            master_ready(*fold),
            master_steps_as(*fold, step),
            remaining.valid(),
            remaining.length() is Some,
            block >= 1,
            bs.len() >= 1,
            is.len() == bs.len(),
            limits.len() == bs.len() - 1,
            bs[0] == init,
            is[0] == input,
            bs.last() == b,
            is.last() == remaining,
            forall|k: int| 0 <= k < is.len() ==> #[trigger] is[k].valid(),
            forall|k: int|
                0 <= k < limits.len() ==> #[trigger] step(
                    bs[k],
                    is[k],
                    limits[k],
                    (bs[k + 1], is[k + 1]),
                ),
        ensures
            remaining.length() == Some(0nat),
        decreases remaining.length()->0,
    {
        let n = match remaining.base_length() {
            Some(n) => n,
            None => 0,
        };
        if n == 0 {
            break;
        }
        let limit = if block < n { block } else { n };
        let (next_b, next_remaining) = fold(b, remaining, limit);
        proof {
            bs = bs.push(next_b);
            is = is.push(next_remaining);
            limits = limits.push(limit);
        }
        b = next_b;
        remaining = next_remaining;
        block = policy.next_block_size(block);
    }
    assert(master_steps(step, init, input, b, bs, is, limits));
    b
}

/// Retrieve the outputs `outs`, in order, into `b`.
fn retrieve_all<B, O, RET: Fn(B, O) -> B>(retrieve: &RET, b: B, outs: Vec<O>) -> (r: B)
    requires
        forall|x: B, o: O| #[trigger] retrieve.requires((x, o)),
    ensures
        retrieved(*retrieve, b, outs@, r),
{
    let ghost all = outs@;
    let mut acc = b;
    let ghost mut bs: Seq<B> = seq![b];
    for o in it: outs
        invariant
            forall|x: B, o: O| #[trigger] retrieve.requires((x, o)),
            it.seq() == all,
            bs.len() == it.index() + 1,
            bs[0] == b,
            bs.last() == acc,
            forall|k: int| 0 <= k < it.index() ==> #[trigger] retrieve.ensures((bs[k], all[k]), bs[k + 1]),
    {
        let next = retrieve(acc, o);
        proof {
            bs = bs.push(next);
        }
        acc = next;
    }
    acc
}

/// Help one block: the master folds its left half while `folder` runs on the
/// right half, then the master retrieves the outputs of the right half.
fn help_block<F, B, FOLD, RET>(
    block: F::Input,
    b: B,
    fold: &FOLD,
    Ghost(step): Ghost<spec_fn(B, F::Input, usize, (B, F::Input)) -> bool>,
    folder: &F,
    retrieve: &RET,
    policy: Policy,
) -> (r: B) where
    F: Folder + Sync,
    F::Input: Send,
    F::Output: Send,
    B: Send,
    FOLD: Fn(B, F::Input, usize) -> (B, F::Input) + Sync,
    RET: Fn(B, F::Output) -> B,

    requires
        folder.ready(),
        master_ready(*fold),
        master_steps_as(*fold, step),
        forall|x: B, o: F::Output| #[trigger] retrieve.requires((x, o)),
        block.valid(),
        block.length() is Some,
    ensures
        helped_block(*folder, step, *retrieve, b, block, r),
{
    let n = match block.base_length() {
        Some(n) => n,
        None => 0,
    };
    if n < 2 {
        return master_fold_all(fold, Ghost(step), b, block, policy);
    }
    let ghost whole = block;
    let (mine, his) = block.divide();
    let (mid, outs) = join(
        move || -> (r: B)
            ensures
                master_run(step, b, mine, r)
            { master_fold_all(fold, Ghost(step), b, mine, policy) },
        move || -> (r: Vec<F::Output>)
            ensures
                divided_outputs(*folder, his, r@)
            { schedule_collect(his, folder, policy) },
    );
    let r = retrieve_all(retrieve, mid, outs);
    proof {
        let index = (whole.length()->0 / 2) as usize;
        assert(whole.divides(index, mine, his));
    }
    r
}

/// Fold `input` from `init` with `fold` in blocks of the given sizes (a size of
/// 0 is read as 1, and the last block takes everything once the sizes run out).
/// In each block the master folds the left half while helpers run `folder` on
/// the right half; the master then retrieves the helpers' outputs with `retrieve`.
pub(crate) fn fold_with_help<F, B, FOLD, RET, S>(
    input: F::Input,
    init: B,
    fold: FOLD,
    Ghost(step): Ghost<spec_fn(B, F::Input, usize, (B, F::Input)) -> bool>,
    folder: &F,
    retrieve: RET,
    sizes: S,
    policy: Policy,
) -> (r: B) where
    F: Folder + Sync,
    F::Input: Send,
    F::Output: Send,
    B: Send,
    FOLD: Fn(B, F::Input, usize) -> (B, F::Input) + Sync,
    RET: Fn(B, F::Output) -> B,
    S: Iterator<Item = usize>,

    requires
        folder.ready(),
        master_ready(fold),
        master_steps_as(fold, step),
        forall|x: B, o: F::Output| #[trigger] retrieve.requires((x, o)),
        input.valid(),
        input.length() is Some,
    ensures
        helped_fold(*folder, step, retrieve, input, init, r),
{
    let mut sizes = sizes;
    let mut rest = input;
    let mut b = init;
    let ghost mut blocks: Seq<F::Input> = seq![];
    let ghost mut rests: Seq<F::Input> = seq![input];
    let ghost mut cuts: Seq<usize> = seq![];
    let ghost mut bs: Seq<B> = seq![init];
    loop
        invariant
            folder.ready(),
            master_ready(fold),
            master_steps_as(fold, step),
            forall|x: B, o: F::Output| #[trigger] retrieve.requires((x, o)),
            rest.valid(),
            rest.length() is Some,
            rests.len() == blocks.len() + 1,
            cuts.len() == blocks.len(),
            rests[0] == input,
            rests.last() == rest,
            forall|k: int| 0 <= k < rests.len() ==> #[trigger] rests[k].valid(),
            forall|k: int| 0 <= k < blocks.len() ==> #[trigger] blocks[k].valid(),
            forall|k: int|
                #![trigger cuts[k]]
                #![trigger rests[k]]
                0 <= k < blocks.len() ==> rests[k].length() is Some && cuts[k] <= rests[k].length()->0,
            forall|k: int|
                0 <= k < blocks.len() ==> #[trigger] rests[k].divides(cuts[k], blocks[k], rests[k + 1]),
            bs.len() == blocks.len() + 1,
            bs[0] == init,
            bs.last() == b,
            forall|k: int|
                0 <= k < blocks.len() ==> #[trigger] helped_block(
                    *folder,
                    step,
                    retrieve,
                    bs[k],
                    blocks[k],
                    bs[k + 1],
                ),
        ensures
            rest.length() == Some(0nat),
        decreases rest.length()->0,
    {
        let n = match rest.base_length() {
            Some(n) => n,
            None => 0,
        };
        if n == 0 {
            break;
        }
        let size = next_block_size(&mut sizes, n);
        let (block, next_rest) = rest.divide_at(size);
        let next_b = help_block(block, b, &fold, Ghost(step), folder, &retrieve, policy);
        proof {
            blocks = blocks.push(block);
            rests = rests.push(next_rest);
            cuts = cuts.push(size);
            bs = bs.push(next_b);
        }
        b = next_b;
        rest = next_rest;
    }
    assert(helped_blocks(*folder, step, retrieve, input, init, b, blocks, rests, cuts, bs));
    b
}

} // verus!
