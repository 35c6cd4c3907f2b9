use rayon_adaptive::algorithms::filter_collect::filter_collect;
use rayon_adaptive::algorithms::find_first::{ceil_log2, find_first, powers};
use rayon_adaptive::algorithms::fusion::fuse;
use rayon_adaptive::algorithms::infix::{
    sequential_evaluation_fits, solver_adaptive, solver_fully_adaptive, solver_par_fold, solver_par_split,
    solver_seq, token_from,
    vec_gen, Token,
};
use rayon_adaptive::algorithms::merge::{
    binary_search, merge_split, partial_manual_merge, sequential_fuse, split_around,
    subslice_without_first_value, subslice_without_last_value,
};
use rayon_adaptive::algorithms::prefix::{adaptive_prefix, fully_adaptive_prefix, update};
use rayon_adaptive::algorithms::sort::{
    adaptive_sort_raw, generic_sort, merge_sort_adaptive, SortingSlices,
};
use rayon_adaptive::policy::Policy;

fn pseudo_random(n: usize, modulo: u32) -> Vec<u32> {
    let mut x: u64 = 12345;
    let mut v = Vec::with_capacity(n);
    for _ in 0..n {
        x = x.wrapping_mul(6364136223846793005).wrapping_add(1442695040888963407);
        v.push(((x >> 33) as u32) % modulo);
    }
    v
}

fn sorted_copy(v: &[u32]) -> Vec<u32> {
    let mut w = v.to_vec();
    w.sort();
    w
}

#[test]
fn fuse_merges_sorted_slices() {
    let left: Vec<u32> = (0..10_000).map(|x| 2 * x).collect();
    let right: Vec<u32> = (0..10_000).map(|x| 2 * x + 1).collect();
    let mut output = vec![0u32; 20_000];
    fuse(&left, &right, &mut output, Policy::Join(100));
    let expected: Vec<u32> = (0..20_000).collect();
    assert_eq!(output, expected);
}

#[test]
fn fuse_with_every_policy() {
    let left = sorted_copy(&pseudo_random(3_000, 500));
    let right = sorted_copy(&pseudo_random(2_000, 700));
    let mut all = left.clone();
    all.extend_from_slice(&right);
    let expected = sorted_copy(&all);
    for policy in [
        Policy::DefaultPolicy,
        Policy::Sequential,
        Policy::Join(50),
        Policy::JoinContext(0),
        Policy::DepJoin(1000),
        Policy::Adaptive(10, 100),
    ] {
        let mut output = vec![0u32; 5_000];
        fuse(&left, &right, &mut output, policy);
        assert_eq!(output, expected);
    }
}

#[test]
fn fuse_with_empty_sides() {
    let left: Vec<u32> = vec![];
    let right = vec![1, 2, 3];
    let mut output = vec![0u32; 3];
    fuse(&left, &right, &mut output, Policy::DefaultPolicy);
    assert_eq!(output, vec![1, 2, 3]);
    let mut output = vec![0u32; 3];
    fuse(&right, &left, &mut output, Policy::DefaultPolicy);
    assert_eq!(output, vec![1, 2, 3]);
}

#[test]
fn sequential_fuse_keeps_duplicates() {
    let left = vec![1, 3, 3, 5];
    let right = vec![2, 3, 4];
    let mut output = vec![0u32; 7];
    sequential_fuse(&left, &right, &mut output);
    assert_eq!(output, vec![1, 2, 3, 3, 3, 4, 5]);
}

#[test]
fn partial_merge_stops_at_limit() {
    let left = vec![1, 4, 6];
    let right = vec![2, 3, 5];
    let mut output = vec![0u32; 6];
    let r = partial_manual_merge(&left, &right, &mut output, 3);
    assert_eq!(r, Some((1, 2, 3)));
    assert_eq!(&output[0..3], &[1, 2, 3]);
    assert_eq!(&output[3..], &[0, 0, 0]);
    let mut output = vec![0u32; 6];
    let r = partial_manual_merge(&left, &right, &mut output, 6);
    assert_eq!(r, None);
    assert_eq!(output, vec![1, 2, 3, 4, 5, 6]);
}

#[test]
fn partial_merge_ties_go_right_first() {
    let left = vec![2, 9];
    let right = vec![2, 7];
    let mut output = vec![0u32; 4];
    let r = partial_manual_merge(&left, &right, &mut output, 4);
    assert_eq!(r, None);
    assert_eq!(output, vec![2, 2, 7, 9]);
}

#[test]
fn subslices_without_extreme_values() {
    let s = [1, 2, 2, 3, 3, 3];
    assert_eq!(subslice_without_last_value(&s), &[1, 2, 2]);
    assert_eq!(subslice_without_first_value(&s), &[2, 2, 3, 3, 3]);
    let same = [4, 4, 4];
    assert_eq!(subslice_without_last_value(&same), &[] as &[u32]);
    assert_eq!(subslice_without_first_value(&same), &[] as &[u32]);
    let empty: [u32; 0] = [];
    assert_eq!(subslice_without_last_value(&empty), &[] as &[u32]);
}

#[test]
fn split_around_equal_values() {
    let s = [1, 2, 3, 3, 3, 4, 5];
    let (low, equal, high) = split_around(&s, 3);
    assert_eq!(low, &[1, 2]);
    assert_eq!(equal, &[3, 3, 3]);
    assert_eq!(high, &[4, 5]);
}

#[test]
fn binary_search_finds_or_places() {
    let s = [1, 3, 5, 7];
    assert_eq!(binary_search(&s, 5), Ok(2));
    assert_eq!(binary_search(&s, 4), Err(2));
    assert_eq!(binary_search(&s, 0), Err(0));
    assert_eq!(binary_search(&s, 9), Err(4));
}

#[test]
fn merge_split_cuts_both_slices_consistently() {
    let large = [1, 2, 3, 4, 5, 6];
    let small = [2, 4, 6];
    let ((l1, l2, l3), (s1, s2, s3)) = merge_split(&large, &small);
    assert_eq!(l2, &[4]);
    assert_eq!(l1, &[1, 2, 3]);
    assert_eq!(l3, &[5, 6]);
    assert_eq!(s1, &[2]);
    assert_eq!(s2, &[4]);
    assert_eq!(s3, &[6]);
}

#[test]
fn adaptive_sort_raw_sorts() {
    let mut v = pseudo_random(50_000, 1_000);
    let expected = sorted_copy(&v);
    adaptive_sort_raw(&mut v);
    assert_eq!(v, expected);
}

#[test]
fn adaptive_sort_raw_on_small_inputs() {
    let mut empty: Vec<u32> = vec![];
    adaptive_sort_raw(&mut empty);
    assert!(empty.is_empty());
    let mut one = vec![42];
    adaptive_sort_raw(&mut one);
    assert_eq!(one, vec![42]);
}

#[test]
fn merge_sort_adaptive_sorts() {
    for threshold in [1, 7, 1000, 100_000] {
        let mut v = pseudo_random(20_000, 300);
        let expected = sorted_copy(&v);
        merge_sort_adaptive(&mut v, threshold);
        assert_eq!(v, expected);
    }
}

#[test]
fn adaptive_prefix_sums() {
    let mut v: Vec<u64> = vec![1; 10_000];
    adaptive_prefix(&mut v, |a: &u64, b: &u64| a.wrapping_add(*b));
    let expected: Vec<u64> = (1..=10_000).collect();
    assert_eq!(v, expected);
}

#[test]
fn adaptive_prefix_of_empty_input() {
    let mut v: Vec<u64> = vec![];
    adaptive_prefix(&mut v, |a: &u64, b: &u64| a.wrapping_add(*b));
    assert!(v.is_empty());
}

#[test]
fn fully_adaptive_prefix_sums() {
    let mut v: Vec<u64> = (0..5_000).collect();
    fully_adaptive_prefix(&mut v, |a: &u64, b: &u64| a.wrapping_add(*b));
    let mut acc = 0u64;
    let expected: Vec<u64> = (0..5_000u64)
        .map(|x| {
            acc += x;
            acc
        })
        .collect();
    assert_eq!(v, expected);
}

#[test]
fn update_adds_increment() {
    let mut v: Vec<u64> = vec![1, 2, 3];
    update(&mut v, 10, &|a: &u64, b: &u64| a.wrapping_add(*b));
    assert_eq!(v, vec![11, 12, 13]);
}

fn expression() -> Vec<Token> {
    // 2 * 3 + 4 * 5 * 1 + 7 = 6 + 20 + 7 = 33
    vec![
        Token::Num(2),
        Token::Mult,
        Token::Num(3),
        Token::Add,
        Token::Num(4),
        Token::Mult,
        Token::Num(5),
        Token::Mult,
        Token::Num(1),
        Token::Add,
        Token::Num(7),
    ]
}

#[test]
fn all_infix_solvers_agree() {
    let e = expression();
    assert_eq!(solver_seq(&e), 33);
    assert_eq!(solver_par_split(&e), 33);
    assert_eq!(solver_par_fold(&e), 33);
    assert_eq!(solver_adaptive(&e, Policy::Join(2)), 33);
    assert_eq!(solver_adaptive(&e, Policy::Sequential), 33);
    assert_eq!(solver_fully_adaptive(&e), 33);
}

#[test]
fn infix_solvers_on_generated_input() {
    let e = vec_gen(2_000);
    assert_eq!(e.len(), 1_999);
    let reference = solver_seq(&e);
    assert_eq!(solver_par_split(&e), reference);
    assert_eq!(solver_par_fold(&e), reference);
    assert_eq!(solver_adaptive(&e, Policy::DefaultPolicy), reference);
    assert_eq!(solver_fully_adaptive(&e), reference);
}

#[test]
fn infix_solvers_on_empty_input() {
    // the running product starts at 1 and is added at the end
    let e: Vec<Token> = vec![];
    assert_eq!(solver_seq(&e), 1);
    assert_eq!(solver_par_split(&e), 1);
    assert_eq!(solver_par_fold(&e), 1);
    assert_eq!(solver_adaptive(&e, Policy::DefaultPolicy), 1);
    assert_eq!(solver_fully_adaptive(&e), 1);
}

fn even(e: &&u32) -> bool {
    **e % 2 == 0
}

#[test]
fn filter_collect_keeps_even_numbers() {
    let v: Vec<u32> = (0..100_000).collect();
    let answer: Vec<u32> = v.iter().filter(even).cloned().collect();
    assert_eq!(filter_collect(&v, even, Policy::DefaultPolicy), answer);
    assert_eq!(filter_collect(&v, even, Policy::Join(1000)), answer);
    assert_eq!(filter_collect(&v, even, Policy::Sequential), answer);
}

#[test]
fn find_first_gives_first_match() {
    let v: Vec<u32> = (0..100_000).collect();
    assert_eq!(find_first(&v, |x: &&u32| **x > 54_321), Some(54_322));
    assert_eq!(find_first(&v, |x: &&u32| **x > 200_000), None);
    let empty: Vec<u32> = vec![];
    assert_eq!(find_first(&empty, |_x: &&u32| true), None);
}

#[test]
fn powers_double() {
    let mut p = powers(3);
    assert_eq!(p.next(), Some(6));
    assert_eq!(p.next(), Some(12));
    assert_eq!(p.next(), Some(24));
}

#[test]
fn ceil_log2_values() {
    assert_eq!(ceil_log2(0), 0);
    assert_eq!(ceil_log2(1), 0);
    assert_eq!(ceil_log2(2), 1);
    assert_eq!(ceil_log2(5), 3);
    assert_eq!(ceil_log2(1024), 10);
}

#[test]
fn policy_thresholds_and_blocks() {
    assert_eq!(Policy::Join(0).division_threshold(100), 1);
    assert_eq!(Policy::Join(7).division_threshold(100), 7);
    assert_eq!(Policy::Sequential.division_threshold(100), usize::MAX);
    assert!(Policy::DefaultPolicy.division_threshold(100) >= 1);
    assert_eq!(Policy::Adaptive(4, 10).first_block_size(), 4);
    assert_eq!(Policy::Adaptive(4, 10).next_block_size(4), 8);
    assert_eq!(Policy::Adaptive(4, 10).next_block_size(8), 10);
    assert_eq!(Policy::Adaptive(4, 10).next_block_size(10), 10);
    assert_eq!(Policy::Sequential.first_block_size(), usize::MAX);
    assert_eq!(Policy::default(), Policy::DefaultPolicy);
}

#[test]
fn generic_sort_sorts_with_every_policy() {
    for policy in [
        Policy::DefaultPolicy,
        Policy::Sequential,
        Policy::Join(100),
        Policy::Adaptive(50, 400),
        Policy::Adaptive(0, 0),
    ] {
        let mut v = pseudo_random(10_000, 2_000);
        let expected = sorted_copy(&v);
        generic_sort(&mut v, policy);
        assert_eq!(v, expected);
    }
    let mut empty: Vec<u32> = vec![];
    generic_sort(&mut empty, Policy::DefaultPolicy);
    assert!(empty.is_empty());
}

#[test]
fn filter_collect_goes_through_macro_blocks() {
    let v: Vec<u32> = (0..2_500_000).collect();
    let answer: Vec<u32> = v.iter().filter(|e| **e % 3 == 1).cloned().collect();
    assert_eq!(filter_collect(&v, |e: &&u32| **e % 3 == 1, Policy::DefaultPolicy), answer);
    let empty: Vec<u32> = vec![];
    assert!(filter_collect(&empty, even, Policy::DefaultPolicy).is_empty());
}

fn first_then_second(a: &(u64, u64), b: &(u64, u64)) -> (u64, u64) {
    (a.0, b.1)
}

#[test]
fn adaptive_prefix_folds_from_the_beginning() {
    let mut v: Vec<(u64, u64)> = (0..3_000u64).map(|i| (i, 10 * i)).collect();
    adaptive_prefix(&mut v, first_then_second);
    let expected: Vec<(u64, u64)> = (0..3_000u64).map(|i| (0, 10 * i)).collect();
    assert_eq!(v, expected);
}

#[test]
fn fully_adaptive_prefix_folds_from_the_beginning() {
    let mut v: Vec<(u64, u64)> = (0..3_000u64).map(|i| (i + 1, 10 * i)).collect();
    fully_adaptive_prefix(&mut v, first_then_second);
    let expected: Vec<(u64, u64)> = (0..3_000u64).map(|i| (1, 10 * i)).collect();
    assert_eq!(v, expected);
}

#[test]
fn update_puts_increment_first() {
    let mut v: Vec<(u64, u64)> = vec![(1, 2), (3, 4)];
    update(&mut v, (7, 8), &first_then_second);
    assert_eq!(v, vec![(7, 2), (7, 4)]);
}

#[test]
fn partial_merge_stops_after_two() {
    let left = vec![1, 3, 5];
    let right = vec![2, 4, 6];
    let mut output = vec![0u32; 6];
    let r = partial_manual_merge(&left, &right, &mut output, 2);
    assert_eq!(r, Some((1, 1, 2)));
    assert_eq!(output, vec![1, 2, 0, 0, 0, 0]);
}

#[test]
fn partial_merge_into_a_shorter_output() {
    let left = vec![1, 3, 5];
    let right = vec![2, 4, 6];
    let mut output = vec![0u32; 3];
    let r = partial_manual_merge(&left, &right, &mut output, 3);
    assert_eq!(r, Some((2, 1, 3)));
    assert_eq!(output, vec![1, 2, 3]);
}

#[test]
fn partial_merge_completes_when_an_input_runs_out() {
    let left = vec![1, 2];
    let right = vec![5, 6, 7];
    let mut output = vec![0u32; 5];
    let r = partial_manual_merge(&left, &right, &mut output, 3);
    assert_eq!(r, None);
    assert_eq!(output, vec![1, 2, 5, 6, 7]);
}

#[test]
fn sorting_slices_fuse_into_third_buffer() {
    let a = SortingSlices::new(vec![1, 4], vec![0, 0], vec![9, 9], 0);
    let b = SortingSlices::new(vec![8, 8], vec![2, 4], vec![9, 9], 1);
    let r = a.fuse(b);
    assert_eq!(r.data_index(), 2);
    assert_eq!(r.buffer_copy(2), vec![1, 2, 4, 4]);
    assert_eq!(r.buffer_copy(0), vec![1, 4, 8, 8]);
    assert_eq!(r.buffer_copy(1), vec![0, 0, 2, 4]);
}

#[test]
fn sorting_slices_fuse_same_buffer() {
    let a = SortingSlices::new(vec![0, 0], vec![1, 2], vec![5, 5], 1);
    let b = SortingSlices::new(vec![0, 0], vec![3, 4], vec![6, 6], 1);
    let r = a.fuse(b);
    assert_eq!(r.data_index(), 0);
    assert_eq!(r.buffer_copy(0), vec![1, 2, 3, 4]);
    assert_eq!(r.buffer_copy(2), vec![5, 5, 6, 6]);
}

#[test]
fn fuse_with_policy_keeps_ordered_data_in_place() {
    let a = SortingSlices::new(vec![0, 0], vec![1, 2], vec![5, 5], 1);
    let b = SortingSlices::new(vec![7, 7], vec![3, 4], vec![6, 6], 1);
    let r = a.fuse_with_policy(b, Policy::Adaptive(4000, 4000));
    assert_eq!(r.data_index(), 1);
    assert_eq!(r.buffer_copy(0), vec![0, 0, 7, 7]);
    assert_eq!(r.buffer_copy(1), vec![1, 2, 3, 4]);
    assert_eq!(r.buffer_copy(2), vec![5, 5, 6, 6]);
}

#[test]
fn fuse_with_policy_merges_into_third_buffer() {
    let a = SortingSlices::new(vec![1, 5], vec![0, 0], vec![9, 9], 0);
    let b = SortingSlices::new(vec![8, 8], vec![2, 4], vec![9, 9], 1);
    let r = a.fuse_with_policy(b, Policy::Adaptive(4000, 4000));
    assert_eq!(r.data_index(), 2);
    assert_eq!(r.buffer_copy(2), vec![1, 2, 4, 5]);
    assert_eq!(r.buffer_copy(0), vec![1, 5, 8, 8]);
}

#[test]
fn sorting_slices_split_at_cuts_every_buffer() {
    let a = SortingSlices::new(vec![1, 2, 3], vec![4, 5, 6], vec![7, 8, 9], 2);
    let (l, r) = a.split_at(1);
    assert_eq!(l.buffer_copy(0), vec![1]);
    assert_eq!(l.buffer_copy(1), vec![4]);
    assert_eq!(r.buffer_copy(2), vec![8, 9]);
    assert_eq!(l.data_index(), 2);
    assert_eq!(r.data_index(), 2);
}

#[test]
fn token_from_random_number() {
    assert_eq!(token_from(0), Token::Add);
    assert_eq!(token_from(300_000), Token::Add);
    assert_eq!(token_from(7), Token::Mult);
}

#[test]
fn solver_seq_near_the_limit() {
    let inp = vec![Token::Num(u64::MAX), Token::Add, Token::Num(2), Token::Num(0)];
    assert_eq!(solver_seq(&inp), u64::MAX);
}

#[test]
fn parallel_solvers_near_the_limit() {
    let big = 1u64 << 63;
    let inp = vec![Token::Num(big), Token::Add, Token::Num(big), Token::Mult, Token::Num(0)];
    assert_eq!(solver_seq(&inp), big);
    assert_eq!(solver_par_split(&inp), big);
    assert_eq!(solver_par_fold(&inp), big);
    assert_eq!(solver_adaptive(&inp, Policy::Join(1)), big);
    assert_eq!(solver_fully_adaptive(&inp), big);
}

#[test]
fn sequential_evaluation_fits_checks_every_state() {
    assert!(sequential_evaluation_fits(&[Token::Num(u64::MAX), Token::Add, Token::Num(2), Token::Num(0)]));
    assert!(!sequential_evaluation_fits(&[Token::Num(u64::MAX), Token::Num(2), Token::Num(0)]));
    assert!(!sequential_evaluation_fits(&[Token::Num(u64::MAX), Token::Add, Token::Num(1)]));
    assert!(sequential_evaluation_fits(&[]));
}
