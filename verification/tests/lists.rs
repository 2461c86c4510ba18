use rpn_calc::hanoi::{hanoi, Peg};
use rpn_calc::lists::{dedup, filter, sum};
use rpn_calc::primes::sieve;

#[test]
fn sum_adds_up() {
    assert_eq!(sum(&[]), 0);
    assert_eq!(sum(&[5]), 5);
    assert_eq!(sum(&[1, 2, 3, 4]), 10);
    assert_eq!(sum(&[-7, 7, i32::MAX, -1]), i32::MAX - 1);
    assert_eq!(sum(&[i32::MIN, 1, -1 + 1]), i32::MIN + 1);
}

#[test]
fn dedup_keeps_first_instances_in_order() {
    assert_eq!(dedup(&vec![]), Vec::<i32>::new());
    assert_eq!(dedup(&vec![1, 1, 1]), vec![1]);
    assert_eq!(dedup(&vec![3, 1, 3, 2, 1, 4]), vec![3, 1, 2, 4]);
    assert_eq!(dedup(&vec![1, 2, 3]), vec![1, 2, 3]);
    assert_eq!(dedup(&vec![0, -1, 0, -1, i32::MIN, 0]), vec![0, -1, i32::MIN]);
}

#[test]
fn filter_keeps_what_the_predicate_accepts() {
    let even = |x: i32| x % 2 == 0;
    assert_eq!(filter(&vec![1, 2, 3, 4, 5, 6], &even), vec![2, 4, 6]);
    assert_eq!(filter(&vec![], &even), Vec::<i32>::new());
    assert_eq!(filter(&vec![1, 3], &even), Vec::<i32>::new());
    assert_eq!(filter(&vec![4, 4, -2], &|_| true), vec![4, 4, -2]);
    let limit = 3;
    assert_eq!(filter(&vec![5, 1, 4, 2, 3], &|x| x > limit), vec![5, 4]);
}

#[test]
fn filter_calls_the_predicate_once_per_element_in_order() {
    let seen = std::cell::RefCell::new(Vec::new());
    let out = filter(&vec![3, 1, 2], &|x| {
        seen.borrow_mut().push(x);
        x != 1
    });
    assert_eq!(out, vec![3, 2]);
    assert_eq!(*seen.borrow(), vec![3, 1, 2]);
}

#[test]
fn sieve_lists_the_primes_below() {
    assert_eq!(sieve(0), Vec::<u32>::new());
    assert_eq!(sieve(1), Vec::<u32>::new());
    assert_eq!(sieve(2), Vec::<u32>::new());
    assert_eq!(sieve(3), vec![2]);
    assert_eq!(sieve(7), vec![2, 3, 5]);
    assert_eq!(sieve(8), vec![2, 3, 5, 7]);
    assert_eq!(sieve(50), vec![2, 3, 5, 7, 11, 13, 17, 19, 23, 29, 31, 37, 41, 43, 47]);
}

#[test]
fn sieve_agrees_with_trial_division() {
    let found = sieve(2000);
    let mut expected = Vec::new();
    for p in 2..2000u32 {
        if (2..p).all(|d| p % d != 0) {
            expected.push(p);
        }
    }
    assert_eq!(found, expected);
    assert_eq!(found.len(), 303);
}

#[test]
fn hanoi_moves_small_towers() {
    assert_eq!(hanoi(0, Peg::A, Peg::B, Peg::C), vec![]);
    assert_eq!(hanoi(1, Peg::A, Peg::B, Peg::C), vec![(Peg::A, Peg::C)]);
    assert_eq!(
        hanoi(2, Peg::A, Peg::B, Peg::C),
        vec![(Peg::A, Peg::B), (Peg::A, Peg::C), (Peg::B, Peg::C)]
    );
    assert_eq!(
        hanoi(3, Peg::A, Peg::B, Peg::C),
        vec![
            (Peg::A, Peg::C),
            (Peg::A, Peg::B),
            (Peg::C, Peg::B),
            (Peg::A, Peg::C),
            (Peg::B, Peg::A),
            (Peg::B, Peg::C),
            (Peg::A, Peg::C),
        ]
    );
}

fn peg_index(p: Peg) -> usize {
    match p {
        Peg::A => 0,
        Peg::B => 1,
        Peg::C => 2,
    }
}

#[test]
fn hanoi_moves_are_legal_and_move_the_tower() {
    for n in 0..=10u32 {
        let moves = hanoi(n, Peg::A, Peg::B, Peg::C);
        assert_eq!(moves.len(), (1usize << n) - 1);
        let mut pegs: [Vec<u32>; 3] = [(1..=n).rev().collect(), vec![], vec![]];
        for (from, to) in moves {
            let disc = pegs[peg_index(from)].pop().unwrap();
            if let Some(top) = pegs[peg_index(to)].last() {
                assert!(disc < *top);
            }
            pegs[peg_index(to)].push(disc);
        }
        assert!(pegs[0].is_empty() && pegs[1].is_empty());
        assert_eq!(pegs[2], (1..=n).rev().collect::<Vec<u32>>());
    }
}

#[test]
fn filter_takes_a_predicate_behind_a_reference() {
    let positive: &dyn Fn(i32) -> bool = &|x| x > 0;
    assert_eq!(filter(&vec![-1, 0, 1, 2], positive), vec![1, 2]);
    let boxed: Box<dyn Fn(i32) -> bool> = Box::new(|x| x < 0);
    assert_eq!(filter(&vec![-1, 0, 1, 2], boxed.as_ref()), vec![-1]);
}
