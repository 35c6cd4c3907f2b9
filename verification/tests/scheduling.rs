use rayon_adaptive::activated_input::ActivatedInput;
use rayon_adaptive::chunks::Chunks;
use rayon_adaptive::divisibility::{blocks, Divisible};
use rayon_adaptive::folders::{AdaptiveIteratorFold, CuttingFold, Fold, Folder, WorkFold};
use std::sync::atomic::{AtomicU64, Ordering};
use rayon_adaptive::help_work::{helper_step, with_help_work, HelperAction};
use rayon_adaptive::policy::Policy;
use rayon_adaptive::scheduling::{fold_sequentially, reduce_by_blocks, schedule, schedule_collect};
use std::ops::Range;

fn sum_range(r: &Range<usize>) -> u64 {
    (r.start..r.end).map(|x| x as u64).sum()
}

fn summing_fold() -> Fold<Range<usize>, u64, impl Fn() -> u64, impl Fn(u64, Range<usize>, usize) -> (u64, Range<usize>)> {
    Fold::new(
        || 0u64,
        |acc: u64, r: Range<usize>, limit: usize| {
            let (todo, rest) = r.divide_at(limit);
            (acc + sum_range(&todo), rest)
        },
    )
}

#[test]
fn schedule_sums_a_range_with_every_policy() {
    let folder = summing_fold();
    for policy in [
        Policy::DefaultPolicy,
        Policy::Sequential,
        Policy::Join(10),
        Policy::DepJoin(1),
        Policy::Adaptive(5, 50),
    ] {
        let r = schedule(0..1000usize, &folder, &|a: u64, b: u64| a + b, policy);
        assert_eq!(r, 499_500);
    }
}

#[test]
fn schedule_on_empty_range() {
    let folder = summing_fold();
    assert_eq!(schedule(5..5usize, &folder, &|a: u64, b: u64| a + b, Policy::Join(1)), 0);
}

#[test]
fn fold_sequentially_goes_to_the_end() {
    let folder = summing_fold();
    assert_eq!(fold_sequentially(0..100usize, &folder, Policy::Adaptive(3, 9)), 4_950);
}

#[test]
fn collected_outputs_cover_the_input_in_order() {
    let folder = CuttingFold::new(Vec::new, |mut acc: Vec<usize>, r: Range<usize>| {
        acc.extend(r);
        acc
    });
    let outputs = schedule_collect(0..1000usize, &folder, Policy::Join(100));
    assert!(outputs.len() >= 1);
    let all: Vec<usize> = outputs.into_iter().flatten().collect();
    assert_eq!(all, (0..1000).collect::<Vec<_>>());
    let one = schedule_collect(0..1000usize, &folder, Policy::Sequential);
    assert_eq!(one.len(), 1);
}

#[test]
fn reduce_by_blocks_reduces_in_order() {
    let folder = CuttingFold::new(Vec::new, |mut acc: Vec<usize>, r: Range<usize>| {
        acc.extend(r);
        acc
    });
    let sizes = vec![0usize, 3, 100, 7].into_iter();
    let r = reduce_by_blocks(
        0..500usize,
        &folder,
        &|mut a: Vec<usize>, mut b: Vec<usize>| {
            a.append(&mut b);
            a
        },
        sizes,
        Policy::Join(16),
    );
    assert_eq!(r, (0..500).collect::<Vec<_>>());
}

#[test]
fn activated_input_reduce_and_map() {
    let input = ActivatedInput::new(0..10_000usize, summing_fold());
    assert_eq!(input.reduce(|a, b| a + b), 49_995_000);
    let mapped = ActivatedInput::new(0..100usize, summing_fold())
        .with_policy(Policy::Join(7))
        .map(|x: u64| x * 2);
    assert_eq!(mapped.reduce(|a, b| a + b), 9_900);
}

#[test]
fn activated_input_reduce_by_blocks() {
    let input = ActivatedInput::new(0..1000usize, summing_fold()).by_blocks(vec![10usize, 20, 30].into_iter());
    assert_eq!(input.reduce(|a, b| a + b), 499_500);
}

#[test]
fn activated_input_outputs() {
    let outputs = ActivatedInput::new(0..1000usize, summing_fold())
        .with_policy(Policy::Join(100))
        .into_outputs();
    assert_eq!(outputs.iter().sum::<u64>(), 499_500);
}

#[test]
fn output_iterator_goes_block_after_block() {
    let folder = CuttingFold::new(Vec::new, |mut acc: Vec<usize>, r: Range<usize>| {
        acc.extend(r);
        acc
    });
    let mut it = ActivatedInput::new(0..100usize, folder)
        .with_policy(Policy::Join(8))
        .by_blocks(vec![10usize, 40].into_iter())
        .into_iter();
    let mut all = Vec::new();
    let mut outputs = 0;
    while let Some(o) = it.next() {
        outputs += 1;
        all.extend(o);
    }
    assert!(outputs >= 3);
    assert_eq!(all, (0..100).collect::<Vec<_>>());
    assert!(it.next().is_none());
}

#[test]
fn helping_partial_fold_adds_everything() {
    let input = ActivatedInput::new(0..10_000usize, summing_fold()).by_blocks(vec![1000usize, 2000].into_iter());
    let r = input.helping_partial_fold(
        0u64,
        |acc: u64, r: Range<usize>, limit: usize| {
            let (todo, rest) = r.divide_at(limit);
            (acc + sum_range(&todo), rest)
        },
        |acc: u64, helped: u64| acc + helped,
    );
    assert_eq!(r, 49_995_000);
}

#[test]
fn helping_cutting_fold_adds_everything() {
    let input = ActivatedInput::new(0..10_000usize, summing_fold()).by_blocks(vec![3000usize].into_iter());
    let r = input.helping_cutting_fold(
        0u64,
        |acc: u64, r: Range<usize>| acc + sum_range(&r),
        |acc: u64, helped: u64| acc + helped,
    );
    assert_eq!(r, 49_995_000);
}

#[test]
fn helping_for_each_visits_every_item() {
    let seen = AtomicU64::new(0);
    let retrieved = AtomicU64::new(0);
    let folder = AdaptiveIteratorFold::new(|| 0u64, |acc: u64, x: usize| acc + x as u64);
    ActivatedInput::new(0..1000usize, folder)
        .by_blocks(vec![100usize, 200].into_iter())
        .helping_for_each(
            |x: usize| {
                seen.fetch_add(x as u64, Ordering::SeqCst);
            },
            |o: u64| {
                retrieved.fetch_add(o, Ordering::SeqCst);
            },
        );
    assert_eq!(seen.load(Ordering::SeqCst) + retrieved.load(Ordering::SeqCst), 499_500);
}

#[test]
fn work_fold_and_mapped_folder() {
    let folder = WorkFold::new(|r: Range<usize>, limit: usize| r.divide_at(limit).1);
    let remaining = schedule(0..1000usize, &folder, &|a: Range<usize>, _b: Range<usize>| a, Policy::Join(10));
    assert_eq!(remaining.start, remaining.end);
    let doubled = rayon_adaptive::folders::map(summing_fold(), |x: u64| 2 * x);
    assert_eq!(schedule(0..10usize, &doubled, &|a: u64, b: u64| a + b, Policy::Join(3)), 90);
    assert!(doubled.identity() == 0);
}

#[test]
fn iterator_fold_on_slices() {
    let v: Vec<u32> = (1..=100).collect();
    let folder = AdaptiveIteratorFold::new(|| 0u32, |acc: u32, x: u32| acc + x);
    assert_eq!(schedule(&v[..], &folder, &|a: u32, b: u32| a + b, Policy::Join(10)), 5_050);
}

#[test]
fn blocks_cut_the_input() {
    let mut it = blocks(0..10usize, vec![3usize, 4].into_iter());
    assert_eq!(it.next(), Some(0..3));
    assert_eq!(it.next(), Some(3..7));
    assert_eq!(it.next(), Some(7..10));
    assert_eq!(it.next(), None);
}

#[test]
fn divisible_cuts() {
    assert_eq!((2..10usize).divide_at(3), (2..5, 5..10));
    assert_eq!((2..10u64).divide(), (2..6, 6..10));
    assert_eq!(Some(4).divide_at(0), (Some(4), None));
    let v = [1, 2, 3, 4, 5];
    let (l, r) = (&v[..]).divide_at(2);
    assert_eq!(l, &[1, 2]);
    assert_eq!(r, &[3, 4, 5]);
    assert_eq!((&v[..]).base_length(), Some(5));
}

#[test]
fn help_work_fold_sums_with_help() {
    let helped = AtomicU64::new(0);
    let help = |r: Range<usize>, limit: usize| {
        let (todo, rest) = r.divide_at(limit);
        helped.fetch_add(sum_range(&todo), Ordering::SeqCst);
        rest
    };
    let folded = with_help_work(0..10_000usize, &help)
        .by_blocks(vec![1000usize, 3000].into_iter())
        .fold(0u64, |acc: u64, x: usize| acc + x as u64, |acc: u64, _done: Range<usize>| acc);
    // what the sequential thread folded and what helpers worked on make up everything
    assert_eq!(folded + helped.load(Ordering::SeqCst), 49_995_000);
}

#[test]
fn help_work_on_small_and_empty_inputs() {
    let helped = AtomicU64::new(0);
    let help = |r: Range<usize>, limit: usize| {
        let (todo, rest) = r.divide_at(limit);
        helped.fetch_add(sum_range(&todo), Ordering::SeqCst);
        rest
    };
    let small = with_help_work(0..3usize, &help)
        .fold(0u64, |acc: u64, x: usize| acc + x as u64, |acc: u64, _done: Range<usize>| acc);
    assert_eq!(small + helped.load(Ordering::SeqCst), 3);
    let empty = with_help_work(4..4usize, &help)
        .fold(7u64, |acc: u64, x: usize| acc + x as u64, |acc: u64, _done: Range<usize>| acc + 1);
    assert_eq!(empty, 7);
}

#[test]
fn chunks_cut_the_input() {
    let mut c = Chunks::new(0..10usize, vec![4usize, 0, 100].into_iter());
    assert_eq!(c.next(), Some(0..4));
    assert_eq!(c.next(), Some(4..4));
    assert_eq!(c.next(), Some(4..10));
    assert_eq!(c.next(), None);
    let mut all = Chunks::new(0..5usize, Vec::new().into_iter());
    assert_eq!(all.next(), Some(0..5));
    assert_eq!(all.next(), None);
}

#[test]
fn schedule_result_does_not_depend_on_the_cuts() {
    // summing is a homomorphism: every policy gives the sum of the range
    let folder = CuttingFold::new(|| 0u64, |acc: u64, r: Range<usize>| acc + sum_range(&r));
    let expected = sum_range(&(3..777usize));
    for policy in [
        Policy::DefaultPolicy,
        Policy::Sequential,
        Policy::Join(1),
        Policy::Join(64),
        Policy::JoinContext(5),
        Policy::DepJoin(300),
        Policy::Adaptive(1, 2),
        Policy::Adaptive(100, 1000),
    ] {
        assert_eq!(schedule(3..777usize, &folder, &|a: u64, b: u64| a + b, policy), expected);
    }
}

#[test]
fn mutable_slices_divide() {
    let mut v = vec![1u32, 2, 3, 4];
    {
        let s: &mut [u32] = &mut v[..];
        assert_eq!(s.base_length(), Some(4));
        let (left, right) = s.divide_at(3);
        left[2] = 30;
        right[0] = 40;
        assert_eq!(left.len(), 3);
    }
    assert_eq!(v, vec![1, 2, 30, 40]);
    let mut w = vec![5u32, 6];
    let (all, none) = (&mut w[..]).divide_at(10);
    assert_eq!(all.len(), 2);
    assert!(none.is_empty());
}

#[test]
fn helper_step_decisions() {
    assert_eq!(helper_step(10, 4, true, true, 2), HelperAction::GiveBack);
    assert_eq!(helper_step(10, 4, false, true, 2), HelperAction::Share(5));
    assert_eq!(helper_step(2, 4, false, true, 2), HelperAction::Keep);
    assert_eq!(helper_step(10, 4, false, false, 2), HelperAction::Work(4));
    assert_eq!(helper_step(0, 4, false, false, 2), HelperAction::GiveBack);
}
