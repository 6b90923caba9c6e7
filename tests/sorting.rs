use stepsort::bogo::{is_ascending, BogoSorter};
use stepsort::bubble::BubbleSorter;
use stepsort::quick::QuickSorter;
use stepsort::select::{create_sorter, SortingAlgorithm};
use stepsort::sorters::{swap_entries, Sorter};

fn run<S: Sorter>(sorter: &mut S, data: &mut [usize], limit: usize) -> usize {
    let mut steps = 0;
    while !sorter.step(data) {
        steps += 1;
        for p in sorter.pointers() {
            assert!(p < data.len());
        }
        assert!(steps <= limit, "no completion within {} steps", limit);
    }
    steps
}

fn permutations(n: usize) -> Vec<Vec<usize>> {
    if n == 0 {
        return vec![vec![]];
    }
    let mut out = Vec::new();
    for p in permutations(n - 1) {
        for k in 0..=p.len() {
            let mut q = p.clone();
            q.insert(k, n);
            out.push(q);
        }
    }
    out
}

#[test]
fn bubble_trace_three_one_two() {
    let mut data = vec![3, 1, 2];
    let mut s = BubbleSorter::new(3);
    assert_eq!(s.pointers(), vec![0]);
    assert!(!s.step(&mut data));
    assert_eq!(data, vec![1, 3, 2]);
    assert_eq!(s.pointers(), vec![1]);
    assert!(!s.step(&mut data));
    assert_eq!(data, vec![1, 2, 3]);
    assert_eq!(s.pointers(), vec![2]);
    assert!(!s.step(&mut data));
    assert_eq!(data, vec![1, 2, 3]);
    assert_eq!(s.pointers(), vec![1]);
    assert!(s.step(&mut data));
    assert_eq!(data, vec![1, 2, 3]);
    assert!(s.pointers().is_empty());
}

#[test]
fn quick_reverse_five() {
    let mut data = vec![5, 4, 3, 2, 1];
    let mut s = QuickSorter::new(5);
    for _ in 0..4 {
        assert!(!s.step(&mut data));
        assert_eq!(data, vec![5, 4, 3, 2, 1]);
    }
    assert!(!s.step(&mut data));
    assert_eq!(data, vec![1, 4, 3, 2, 5]);
    run(&mut s, &mut data, 30);
    assert_eq!(data, vec![1, 2, 3, 4, 5]);
}

#[test]
fn quick_already_sorted() {
    let mut data = vec![1, 2, 3];
    let mut s = QuickSorter::new(3);
    let steps = run(&mut s, &mut data, 12);
    assert!(steps > 0);
    assert_eq!(data, vec![1, 2, 3]);
}

#[test]
fn every_algorithm_sorts_all_small_permutations() {
    for n in 0..=6 {
        for p in permutations(n) {
            for alg in [SortingAlgorithm::Bubble, SortingAlgorithm::Quick, SortingAlgorithm::Bogo] {
                let mut data = p.clone();
                let mut s = create_sorter(alg, n, 7);
                let limit = if alg == SortingAlgorithm::Bogo { 5_000_000 } else { n * n };
                run(&mut s, &mut data, limit);
                let expected: Vec<usize> = (1..=n).collect();
                assert_eq!(data, expected, "{:?} on {:?}", alg, p);
            }
        }
    }
}

#[test]
fn bubble_within_square_bound() {
    for n in 0..=7 {
        for p in permutations(n) {
            let mut data = p.clone();
            let mut s = BubbleSorter::new(n);
            assert!(run(&mut s, &mut data, n * n) <= n * n);
        }
    }
}

#[test]
fn quick_within_bound_with_duplicates() {
    let mut data = vec![2, 2, 1, 1, 2, 0, 0, 2];
    let mut s = QuickSorter::new(8);
    assert!(run(&mut s, &mut data, 64) <= 64);
    assert_eq!(data, vec![0, 0, 1, 1, 2, 2, 2, 2]);
}

#[test]
fn empty_and_single_finish_at_once() {
    for alg in [SortingAlgorithm::Bubble, SortingAlgorithm::Quick, SortingAlgorithm::Bogo] {
        let mut empty: Vec<usize> = vec![];
        let mut s = create_sorter(alg, 0, 1);
        assert!(s.step(&mut empty));
        assert!(s.pointers().is_empty());
        let mut one = vec![42];
        let mut s = create_sorter(alg, 1, 1);
        assert!(s.step(&mut one));
        assert_eq!(one, vec![42]);
        assert!(s.pointers().is_empty());
    }
}

#[test]
fn steps_after_done_change_nothing() {
    for alg in [SortingAlgorithm::Bubble, SortingAlgorithm::Quick, SortingAlgorithm::Bogo] {
        let mut data = vec![4, 1, 3, 2];
        let mut s = create_sorter(alg, 4, 3);
        run(&mut s, &mut data, 1_000_000);
        for _ in 0..5 {
            assert!(s.step(&mut data));
            assert_eq!(data, vec![1, 2, 3, 4]);
            assert!(s.pointers().is_empty());
        }
    }
}

#[test]
fn quick_pointers_are_left_and_right() {
    let mut data = vec![3, 1, 2];
    let mut s = QuickSorter::new(3);
    assert_eq!(s.pointers(), vec![0, 0]);
    assert!(!s.step(&mut data));
    assert_eq!(s.pointers(), vec![0, 1]);
    assert!(!s.step(&mut data));
    assert_eq!(data, vec![1, 3, 2]);
    assert_eq!(s.pointers(), vec![1, 2]);
}

#[test]
fn bogo_transpose_and_pointers() {
    let mut data = vec![1, 2, 3];
    let mut s = BogoSorter::new(3, 0);
    assert!(s.pointers().is_empty());
    s.transpose(&mut data, 0, 2);
    assert_eq!(data, vec![3, 2, 1]);
    assert_eq!(s.pointers(), vec![0, 2]);
    assert!(!s.step(&mut data));
    let p = s.pointers();
    assert_eq!(p.len(), 2);
    assert!(p[0] < 3 && p[1] < 3);
}

#[test]
fn bogo_same_seed_same_run() {
    let mut a = vec![3, 5, 1, 4, 2];
    let mut b = a.clone();
    let mut s = BogoSorter::new(5, 99);
    let mut t = BogoSorter::new(5, 99);
    for _ in 0..50 {
        let da = s.step(&mut a);
        let db = t.step(&mut b);
        assert_eq!(da, db);
        assert_eq!(a, b);
        assert_eq!(s.pointers(), t.pointers());
    }
}

#[test]
fn ascending_check() {
    assert!(is_ascending(&[]));
    assert!(is_ascending(&[7]));
    assert!(is_ascending(&[1, 1, 2, 9]));
    assert!(!is_ascending(&[1, 3, 2]));
    assert!(!is_ascending(&[2, 1]));
}

#[test]
fn swap_exchanges_two_entries() {
    let mut data = vec![10, 20, 30];
    swap_entries(&mut data, 0, 2);
    assert_eq!(data, vec![30, 20, 10]);
    swap_entries(&mut data, 1, 1);
    assert_eq!(data, vec![30, 20, 10]);
}

#[test]
fn quick_sorted_input_never_moves() {
    let mut data = vec![1, 2, 3];
    let mut s = QuickSorter::new(3);
    let mut calls = 0;
    loop {
        let done = s.step(&mut data);
        calls += 1;
        assert_eq!(data, vec![1, 2, 3]);
        if done {
            break;
        }
    }
    assert!(calls <= 10);
}

#[test]
fn bubble_moves_maximum_to_the_end() {
    let mut data = vec![2, 5, 1, 4, 3];
    let mut s = BubbleSorter::new(5);
    for _ in 0..4 {
        assert!(!s.step(&mut data));
    }
    assert_eq!(data[4], 5);
    assert_eq!(data, vec![2, 1, 4, 3, 5]);
}

#[test]
fn bubble_two_runs_agree() {
    let mut a = vec![4, 2, 5, 1, 3];
    let mut b = a.clone();
    let mut s = BubbleSorter::new(5);
    let mut t = BubbleSorter::new(5);
    loop {
        let da = s.step(&mut a);
        let db = t.step(&mut b);
        assert_eq!(da, db);
        assert_eq!(a, b);
        assert_eq!(s.pointers(), t.pointers());
        if da {
            break;
        }
    }
}
