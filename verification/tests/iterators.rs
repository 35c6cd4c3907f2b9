use rayon_adaptive::base::borrowing::BorrowingParallelIterator;
use rayon_adaptive::base::either_iter::{EitherIter, EitherSeqIter};
use rayon_adaptive::base::parslices::ParallelSlice;
use rayon_adaptive::base::range::DivisibleParallelIterator;
use rayon_adaptive::base::rangefrom::RangeFrom;
use rayon_adaptive::base::repeat::repeat;
use rayon_adaptive::base::skipable::skip;
use rayon_adaptive::base::successors::successors;
use rayon_adaptive::boolean_types::{FalseType, Or, TraitTrue, TrueType};
use rayon_adaptive::cloned::Cloned;
use rayon_adaptive::divisibility::Divisible;
use rayon_adaptive::even_levels::EvenLevels;
use rayon_adaptive::filter::Filter;
use rayon_adaptive::folders::AdaptiveIterator;

#[test]
fn successors_sum_like_a_range() {
    // let's fake a range just for testing
    let mut s = successors(0u64, |&i: &u64| i + 1, |&i: &u64, n: usize| i + (n as u64));
    let mut borrowed = s.par_borrow(10_000);
    assert_eq!(borrowed.iterations_number(), 10_000);
    let mut seq = borrowed.seq_borrow(10_000);
    let mut total = 0u64;
    for _ in 0..10_000 {
        total += seq.next().unwrap();
    }
    assert_eq!(total, 5_000 * 9_999);
    assert_eq!(borrowed.iterations_number(), 0);
    // the owner went on 10 000 items further
    let mut next = s.par_borrow(1).seq_borrow(1);
    assert_eq!(next.next(), Some(10_000));
}

#[test]
fn borrowed_successors_divide() {
    let mut s = successors(5u64, |&i: &u64| i + 2, |&i: &u64, n: usize| i + 2 * (n as u64));
    let borrowed = s.par_borrow(10);
    assert!(borrowed.should_be_divided());
    let (left, right) = borrowed.divide();
    assert_eq!(left.iterations_number(), 5);
    assert_eq!(right.iterations_number(), 5);
    let mut right = right;
    let mut seq = right.seq_borrow(1);
    assert_eq!(seq.next(), Some(15));
    assert_eq!(left.base_length(), Some(5));
}

#[test]
fn skipable_gives_items_and_skips() {
    let mut s = skip(
        0u32,
        |i: &mut u32| {
            *i += 1;
            *i * 10
        },
        |i: &mut u32, n: usize| *i + n as u32,
    );
    assert_eq!(s.bound_iterations_number(7), 7);
    let mut borrowed = s.par_borrow(4);
    assert_eq!(borrowed.iterations_number(), 4);
    let mut seq = borrowed.seq_borrow(2);
    assert_eq!(seq.next(), Some(10));
    assert_eq!(seq.next(), Some(20));
    let mut rest = borrowed.seq_borrow(2);
    assert_eq!(rest.next(), Some(30));
    let mut after = s.par_borrow(1).seq_borrow(1);
    assert_eq!(after.next(), Some(50));
}

#[test]
fn skipable_pieces_divide() {
    let mut s = skip(0u32, |i: &mut u32| {
        *i += 1;
        *i
    }, |i: &mut u32, n: usize| *i + n as u32);
    let borrowed = s.par_borrow(6);
    assert!(borrowed.should_be_divided());
    let (mut left, mut right) = borrowed.divide();
    assert_eq!(left.iterations_number(), 3);
    assert_eq!(right.iterations_number(), 3);
    assert_eq!(left.seq_borrow(1).next(), Some(1));
    assert_eq!(right.seq_borrow(1).next(), Some(4));
}

#[test]
fn repeat_gives_clones() {
    let mut r = repeat(String::from("ab"));
    let mut borrowed = r.par_borrow(5);
    assert!(borrowed.should_be_divided());
    assert_eq!(borrowed.iterations_number(), 5);
    let v = borrowed.seq_borrow(3);
    assert_eq!(v, vec![String::from("ab"); 3]);
    assert_eq!(borrowed.iterations_number(), 2);
    let (left, right) = borrowed.divide();
    assert_eq!(left.iterations_number(), 1);
    assert_eq!(right.iterations_number(), 1);
    assert!(!left.should_be_divided());
}

#[test]
fn range_from_hands_out_ranges() {
    let mut r = RangeFrom::new(10usize);
    assert_eq!(r.par_borrow(5), 10..15);
    assert_eq!(r.par_borrow(0), 15..15);
    assert_eq!(r.par_borrow(3), 15..18);
    let mut r32 = RangeFrom::new(1u32);
    assert_eq!(r32.par_borrow(2), 1..3);
    let mut r64 = RangeFrom::new(7u64);
    assert_eq!(r64.par_borrow(1), 7..8);
    assert_eq!(r64.bound_iterations_number(9), 9);
}

#[test]
fn ranges_and_slices_cut_at_index() {
    let mut r = 3..10usize;
    assert_eq!(DivisibleParallelIterator::base_length(&r), 7);
    assert_eq!(r.cut_at_index(2), 3..5);
    assert_eq!(r, 5..10);
    let mut r8 = 0..200u8;
    assert_eq!(r8.cut_at_index(100), 0..100);
    assert_eq!(r8, 100..200);
    let mut r16 = 0..10u16;
    assert_eq!(r16.cut_at_index(10), 0..10);
    let mut r32 = 5..6u32;
    assert_eq!(r32.cut_at_index(0), 5..5);
    let v = [1, 2, 3, 4];
    let mut s = &v[..];
    assert_eq!(s.cut_at_index(1), &[1]);
    assert_eq!(s, &[2, 3, 4]);
}

#[test]
fn parallel_slice_cuts_and_iterates() {
    let v = [1, 2, 3, 4, 5];
    let mut p = ParallelSlice::new(&v[..]);
    assert_eq!(p.base_length(), 5);
    let left = p.cut_at_index(2);
    assert_eq!(left.base_length(), 2);
    assert_eq!(p.base_length(), 3);
    let mut it = p.into_iter();
    assert_eq!(it.next(), Some(&[3] as &[i32]));
    assert_eq!(it.next(), Some(&[4] as &[i32]));
    assert_eq!(it.next(), Some(&[5] as &[i32]));
    assert_eq!(it.next(), None);
    let empty: [i32; 0] = [];
    let mut none = ParallelSlice::new(&empty[..]).into_iter();
    assert_eq!(none.next(), None);
}

#[test]
fn either_iterators_delegate() {
    let e: EitherIter<std::ops::Range<usize>, Option<u8>> = EitherIter::I(0..10);
    assert_eq!(e.base_length(), Some(10));
    match e.divide_at(4) {
        (EitherIter::I(l), EitherIter::I(r)) => {
            assert_eq!(l, 0..4);
            assert_eq!(r, 4..10);
        }
        _ => panic!("variant changed"),
    }
    let o: EitherIter<std::ops::Range<usize>, Option<u8>> = EitherIter::J(Some(3));
    assert_eq!(o.base_length(), Some(1));
    let mut s: EitherSeqIter<std::vec::IntoIter<u32>, std::option::IntoIter<u32>> =
        EitherSeqIter::I(vec![1, 2].into_iter());
    assert_eq!(s.next(), Some(1));
    assert_eq!(s.next(), Some(2));
    assert_eq!(s.next(), None);
    let mut t: EitherSeqIter<std::vec::IntoIter<u32>, std::option::IntoIter<u32>> =
        EitherSeqIter::J(Some(9).into_iter());
    assert_eq!(t.next(), Some(9));
}

#[test]
fn cloned_and_even_levels_delegate() {
    let v = [4u32, 5, 6];
    let c = Cloned::new(&v[..]);
    assert_eq!(c.len(), Some(3));
    let (l, r) = c.divide_at(1);
    assert_eq!(l.into_items(), vec![4]);
    assert_eq!(r.into_items(), vec![5, 6]);
    let e = EvenLevels::new(0..8usize);
    assert!(e.is_divisible());
    let (l, r) = e.divide();
    assert!(l.is_divisible());
    assert_eq!(l.len(), Some(4));
    let (ll, _lr) = l.divide();
    assert_eq!(ll.into_items(), vec![0, 1]);
    assert_eq!(r.into_items(), vec![4, 5, 6, 7]);
    let single = EvenLevels::new(0..1usize);
    assert!(!single.is_divisible());
    let (odd, _) = single.divide_at(1);
    assert!(odd.is_divisible());
}

#[test]
fn filter_keeps_even_numbers() {
    let some_vec: Vec<u32> = (0..1000).collect();
    let mut f = Filter::new(&some_vec[0..500], |e: &u32| e % 2 == 0);
    assert_eq!(f.len(), Some(500));
    let mut seq = f.sequential_borrow_on_left_for(500);
    let mut sum = 0u32;
    while let Some(x) = seq.next() {
        sum += x;
    }
    assert_eq!(sum, 62250);
    assert_eq!(f.len(), Some(0));
}

#[test]
fn borrowing_filter_divides() {
    let v: Vec<u32> = (0..10).collect();
    let mut f = Filter::new(&v[..], |e: &u32| e % 3 == 0);
    {
        let mut borrowed = f.borrow_on_left_for(6);
        assert_eq!(borrowed.len(), Some(6));
        let left = borrowed.borrow_on_left_for(2);
        assert_eq!(left.len(), Some(2));
        let (a, b) = borrowed.divide_at(1);
        assert_eq!(a.len(), Some(1));
        assert_eq!(b.len(), Some(3));
    }
    assert_eq!(f.len(), Some(4));
    let mut seq = f.sequential_borrow_on_left_for(4);
    assert_eq!(seq.next(), Some(6));
    assert_eq!(seq.next(), Some(9));
    assert_eq!(seq.next(), None);
}

fn holds<T: TraitTrue>() -> bool {
    true
}

#[test]
fn boolean_types_or() {
    assert!(holds::<<FalseType as Or<TrueType>>::Res>());
    assert!(holds::<<TrueType as Or<FalseType>>::Res>());
    assert!(holds::<<TrueType as Or<TrueType>>::Res>());
}

#[test]
fn either_borrowed_pieces_delegate() {
    let mut r = repeat(7u8);
    let mut s = successors(1u32, |&i: &u32| i * 2, |&i: &u32, n: usize| i << n);
    let mut a = EitherIter::<_, rayon_adaptive::base::repeat::BorrowedRepeat<'_, u16>>::I(r.par_borrow(3));
    assert_eq!(a.iterations_number(), 3);
    assert!(a.should_be_divided());
    match a.seq_borrow(2) {
        EitherSeqIter::I(v) => assert_eq!(v, vec![7u8, 7]),
        EitherSeqIter::J(_) => panic!("variant changed"),
    }
    assert_eq!(a.iterations_number(), 1);
    assert!(!a.should_be_divided());
    let mut b = EitherIter::<rayon_adaptive::base::repeat::BorrowedRepeat<'_, u8>, _>::J(s.par_borrow(4));
    assert_eq!(b.iterations_number(), 4);
    match b.seq_borrow(3) {
        EitherSeqIter::J(mut seq) => {
            assert_eq!(seq.next(), Some(1));
            assert_eq!(seq.next(), Some(2));
            assert_eq!(seq.next(), Some(4));
        }
        EitherSeqIter::I(_) => panic!("variant changed"),
    }
    assert_eq!(b.iterations_number(), 1);
}

#[test]
fn even_levels_after_two_cuts() {
    // the root is at an even level; one cut below it is odd, two cuts even again
    let root = EvenLevels::new(0..4usize);
    let (left, right) = root.divide();
    let (ll, lr) = left.divide();
    let (rl, rr) = right.divide();
    for piece in [ll, lr, rl, rr] {
        // a single element at an even level is not divided further
        assert!(!piece.is_divisible());
    }
    let (odd, _) = EvenLevels::new(0..2usize).divide();
    // a single element at an odd level is divided once more
    assert!(odd.is_divisible());
}

#[test]
fn borrowing_filter_sequential_borrow() {
    let v: Vec<u32> = (0..20).collect();
    let mut f = Filter::new(&v[..], |e: &u32| e % 4 == 0);
    let mut borrowed = f.borrow_on_left_for(10);
    let mut seq = borrowed.sequential_borrow_on_left_for(6);
    assert_eq!(seq.next(), Some(0));
    assert_eq!(seq.next(), Some(4));
    assert_eq!(seq.next(), None);
    assert_eq!(borrowed.len(), Some(4));
    let mut rest = borrowed.sequential_borrow_on_left_for(4);
    assert_eq!(rest.next(), Some(8));
    assert_eq!(rest.next(), None);
}

#[test]
fn cloned_and_even_levels_borrow_on_the_left() {
    let v = [1u32, 2, 3, 4, 5];
    let mut c = Cloned::new(&v[..]);
    let left = c.borrow_on_left_for(2);
    assert_eq!(left.len(), Some(2));
    assert_eq!(c.sequential_borrow_on_left_for(1), vec![3]);
    assert_eq!(c.len(), Some(2));
    let mut e = EvenLevels::new(0..6usize);
    let borrowed = e.borrow_on_left_for(4);
    assert_eq!(borrowed.len(), Some(4));
    assert!(borrowed.is_divisible());
    assert_eq!(e.sequential_borrow_on_left_for(1), vec![4]);
    assert_eq!(e.len(), Some(1));
}

#[test]
fn mutable_slices_cut_at_index() {
    let mut v = vec![1u32, 2, 3, 4, 5];
    {
        let mut s: &mut [u32] = &mut v[..];
        let left = s.cut_at_index(2);
        assert_eq!(left, &[1, 2]);
        left[0] = 10;
        assert_eq!(DivisibleParallelIterator::base_length(&s), 3);
        s[0] = 30;
    }
    assert_eq!(v, vec![10, 2, 30, 4, 5]);
}
