use std::cmp::Ordering;

use introsort::median::{find_pivot, median3};
use introsort::partition::partition;
use introsort::sorting::{insertion_sort, introsort, sort};
use introsort::swap::swap_many;

struct XorShift(u64);

impl XorShift {
    fn new(seed: u64) -> XorShift {
        XorShift(seed | 1)
    }

    fn next(&mut self) -> u64 {
        let mut x = self.0;
        x ^= x << 13;
        x ^= x >> 7;
        x ^= x << 17;
        self.0 = x;
        x
    }

    fn below(&mut self, n: u64) -> u64 {
        self.next() % n
    }

    fn shuffle<T>(&mut self, v: &mut [T]) {
        let mut i = v.len();
        while i > 1 {
            let j = self.below(i as u64) as usize;
            v.swap(i - 1, j);
            i -= 1;
        }
    }
}

fn is_ascending<T: Ord>(v: &[T]) -> bool {
    v.windows(2).all(|w| w[0] <= w[1])
}

fn is_descending<T: Ord>(v: &[T]) -> bool {
    v.windows(2).all(|w| w[0] >= w[1])
}

fn same_elements(a: &[u64], b: &[u64]) -> bool {
    let mut x = a.to_vec();
    let mut y = b.to_vec();
    x.sort();
    y.sort();
    x == y
}

#[test]
fn test_sort() {
    let mut rng = XorShift::new(0x2545_F491_4F6C_DD1D);
    for len in 4usize..25 {
        for _ in 0..100 {
            let mut v: Vec<u64> = (0..len).map(|_| rng.next()).collect();
            let mut v1 = v.clone();

            sort(&mut v[..], |a: &u64, b: &u64| a.cmp(b));
            assert!(is_ascending(&v));

            sort(v1.as_mut_slice(), |a: &u64, b: &u64| a.cmp(b));
            assert!(is_ascending(&v1));

            sort(v1.as_mut_slice(), |a: &u64, b: &u64| b.cmp(a));
            assert!(is_descending(&v1));
        }
    }

    // shouldn't fail/crash
    let mut v: [u64; 0] = [];
    sort(&mut v[..], |a: &u64, b: &u64| a.cmp(b));

    let mut v = [0xDEADBEEFu64];
    sort(&mut v[..], |a: &u64, b: &u64| a.cmp(b));
    assert!(v == [0xDEADBEEF]);
}

fn check_partition(mut v: Vec<i64>, pivot: usize) {
    let pivot_elem = v[pivot];
    let (l, r) = partition(&mut v[..], pivot, &|a: &i64, b: &i64| a.cmp(b));
    let n = v.len();
    assert!(l + r < n);
    for (i, x) in v.iter().enumerate() {
        if i < l {
            assert!(*x < pivot_elem);
        } else if i < n - r {
            assert!(*x == pivot_elem);
        } else {
            assert!(*x > pivot_elem);
        }
    }
    assert_eq!(l, v.iter().filter(|x| **x < pivot_elem).count());
    assert_eq!(r, v.iter().filter(|x| **x > pivot_elem).count());
}

#[test]
fn test_partition() {
    let mut rng = XorShift::new(77);
    for _ in 0..100 {
        let len = 1 + rng.below(20) as usize;
        let v: Vec<i64> = (0..len).map(|_| rng.below(20) as i64 - 10).collect();
        let pivot = rng.below(len as u64) as usize;
        check_partition(v, pivot);
    }
}

#[test]
fn partition_long_random_inputs() {
    let mut rng = XorShift::new(1234);
    for len in [1usize, 2, 3, 50, 300, 1000] {
        for _ in 0..10 {
            let v: Vec<i64> = (0..len).map(|_| rng.below(7) as i64).collect();
            let pivot = rng.below(len as u64) as usize;
            check_partition(v, pivot);
        }
    }
}

#[test]
fn partition_exact_counts() {
    let mut v = vec![5u64, 1, 5, 9, 3, 5, 7];
    let (l, r) = partition(&mut v[..], 0, &|a: &u64, b: &u64| a.cmp(b));
    assert_eq!((l, r), (2, 2));
    let mut low = v[..2].to_vec();
    low.sort();
    assert_eq!(low, vec![1, 3]);
    assert_eq!(&v[2..5], &[5, 5, 5]);
    let mut high = v[5..].to_vec();
    high.sort();
    assert_eq!(high, vec![7, 9]);
}

#[test]
fn scenario_three_elements() {
    let mut v = vec![3u64, 1, 2];
    sort(&mut v[..], |a: &u64, b: &u64| a.cmp(b));
    assert_eq!(v, vec![1, 2, 3]);
    let mut w = vec![3u64, 1, 2];
    sort(&mut w[..], |a: &u64, b: &u64| b.cmp(a));
    assert_eq!(w, vec![3, 2, 1]);
}

#[test]
fn sorted_and_permutation_on_random_lengths() {
    let mut rng = XorShift::new(99);
    for len in [0usize, 1, 2, 12, 13, 14, 29, 30, 31, 179, 180, 181, 1000, 10000] {
        let v: Vec<u64> = (0..len).map(|_| rng.below(1000)).collect();
        let mut s = v.clone();
        sort(&mut s[..], |a: &u64, b: &u64| a.cmp(b));
        assert!(is_ascending(&s));
        assert!(same_elements(&v, &s));
    }
}

#[test]
fn reverse_comparator_gives_reverse_order() {
    let mut rng = XorShift::new(5);
    for len in [0usize, 1, 5, 40, 250] {
        let v: Vec<u64> = (0..len).map(|_| rng.next()).collect();
        let mut up = v.clone();
        sort(&mut up[..], |a: &u64, b: &u64| a.cmp(b));
        let mut down = v.clone();
        sort(&mut down[..], |a: &u64, b: &u64| b.cmp(a));
        down.reverse();
        assert_eq!(up, down);
    }
}

#[test]
fn sorting_sorted_input_keeps_it() {
    let v: Vec<u64> = (0..10000).collect();
    let mut s = v.clone();
    sort(&mut s[..], |a: &u64, b: &u64| a.cmp(b));
    assert_eq!(s, v);
    let mut r: Vec<u64> = (0..10000).rev().collect();
    sort(&mut r[..], |a: &u64, b: &u64| a.cmp(b));
    assert_eq!(r, v);
}

#[test]
fn empty_and_single_element() {
    let mut e: Vec<u64> = Vec::new();
    sort(&mut e[..], |a: &u64, b: &u64| a.cmp(b));
    assert!(e.is_empty());
    let mut one = vec![0xDEADBEEFu64];
    sort(&mut one[..], |a: &u64, b: &u64| a.cmp(b));
    assert_eq!(one, vec![0xDEADBEEF]);
}

#[test]
fn all_equal_elements() {
    let mut v = vec![1u64; 1000];
    sort(&mut v[..], |a: &u64, b: &u64| a.cmp(b));
    assert_eq!(v, vec![1u64; 1000]);
    let (l, r) = partition(&mut v[..], 500, &|a: &u64, b: &u64| a.cmp(b));
    assert_eq!((l, r), (0, 0));
    assert_eq!(v, vec![1u64; 1000]);
}

#[test]
fn few_unique_values_shuffled() {
    let mut v: Vec<u32> = Vec::new();
    for i in 0u32..10 {
        for _ in 0..100 {
            v.push(i);
        }
    }
    let mut rng = XorShift::new(31337);
    for _ in 0..20 {
        rng.shuffle(&mut v[..]);
        sort(&mut v[..], |a: &u32, b: &u32| a.cmp(b));
        assert!(is_ascending(&v));
        for i in 0..10usize {
            assert!(v[i * 100..(i + 1) * 100].iter().all(|x| *x == i as u32));
        }
    }
}

#[test]
fn composite_keys() {
    let mut rng = XorShift::new(8);
    let mut v: Vec<(u64, u64, u64, u64)> =
        (0..500).map(|_| (rng.below(3), rng.below(3), rng.next(), rng.below(2))).collect();
    sort(&mut v[..], |a: &(u64, u64, u64, u64), b: &(u64, u64, u64, u64)| a.cmp(b));
    assert!(is_ascending(&v));
}

#[test]
fn comparator_on_a_key_only() {
    let mut v: Vec<(u64, u64)> = (0..200u64).map(|i| ((i * 7) % 5, i)).collect();
    sort(&mut v[..], |a: &(u64, u64), b: &(u64, u64)| a.0.cmp(&b.0));
    assert!(v.windows(2).all(|w| w[0].0 <= w[1].0));
    let mut tags: Vec<u64> = v.iter().map(|p| p.1).collect();
    tags.sort();
    assert_eq!(tags, (0..200u64).collect::<Vec<u64>>());
}

#[test]
fn inconsistent_comparator_does_not_crash() {
    let mut rng = XorShift::new(4242);
    for len in [0usize, 1, 2, 13, 14, 100, 500] {
        let mut v: Vec<u64> = (0..len).map(|_| rng.below(10)).collect();
        let orig = v.clone();
        let answers = std::cell::Cell::new(0u64);
        sort(&mut v[..], |_a: &u64, _b: &u64| {
            let k = answers.get();
            answers.set(k + 1);
            match k % 3 {
                0 => Ordering::Less,
                1 => Ordering::Greater,
                _ => Ordering::Equal,
            }
        });
        assert!(same_elements(&orig, &v));
    }
}

#[test]
fn median3_picks_middle() {
    let v = [10u64, 30, 20];
    let c = |a: &u64, b: &u64| a.cmp(b);
    assert_eq!(median3(&v[..], 0, 1, 2, &c), 2);
    assert_eq!(median3(&v[..], 1, 0, 2, &c), 2);
    assert_eq!(median3(&v[..], 2, 1, 0, &c), 2);
    let w = [1u64, 2, 3];
    assert_eq!(median3(&w[..], 0, 1, 2, &c), 1);
    assert_eq!(median3(&w[..], 2, 1, 0, &c), 1);
    let e = [4u64, 4, 4];
    let m = median3(&e[..], 0, 1, 2, &c);
    assert!(m < 3);
}

#[test]
fn find_pivot_strategies() {
    let c = |a: &u64, b: &u64| a.cmp(b);
    let short: Vec<u64> = (0..29).rev().collect();
    assert_eq!(find_pivot(&short[..], &c), 14);
    // medium: median of first, middle and last
    let mut medium: Vec<u64> = vec![50; 100];
    medium[0] = 90;
    medium[50] = 10;
    medium[99] = 40;
    assert_eq!(find_pivot(&medium[..], &c), 99);
    // long: median of the medians of three probe triples
    let long: Vec<u64> = (0..400).collect();
    assert_eq!(find_pivot(&long[..], &c), 200);
    let desc: Vec<u64> = (0..400).rev().collect();
    assert_eq!(find_pivot(&desc[..], &c), 200);
}

#[test]
fn swap_many_exchanges_blocks() {
    let mut v = vec![0u64, 1, 2, 3, 4, 5, 6, 7];
    swap_many(&mut v[..], 0, 5, 3);
    assert_eq!(v, vec![5, 6, 7, 3, 4, 0, 1, 2]);
    let mut w = vec![9u64, 8];
    swap_many(&mut w[..], 0, 1, 0);
    assert_eq!(w, vec![9, 8]);
}

#[test]
fn insertion_sort_small() {
    let mut v = vec![5u64, 2, 9, 1, 5, 6];
    insertion_sort(&mut v[..], &|a: &u64, b: &u64| a.cmp(b));
    assert_eq!(v, vec![1, 2, 5, 5, 6, 9]);
}

#[test]
fn introsort_with_depth_counter() {
    let mut rng = XorShift::new(2);
    let mut v: Vec<u64> = (0..3000).map(|_| rng.below(100)).collect();
    introsort(&mut v[..], &|a: &u64, b: &u64| a.cmp(b), u32::MAX);
    assert!(is_ascending(&v));
}

#[test]
fn swap_many_second_block_first() {
    let mut v = vec![0u64, 1, 2, 3, 4, 5, 6, 7];
    swap_many(&mut v[..], 5, 0, 3);
    assert_eq!(v, vec![5, 6, 7, 3, 4, 0, 1, 2]);
    swap_many(&mut v[..], 5, 0, 3);
    assert_eq!(v, vec![0, 1, 2, 3, 4, 5, 6, 7]);
}

#[test]
fn swap_many_overlapping_blocks() {
    let mut v = vec![0u64, 1, 2, 3, 4, 5];
    swap_many(&mut v[..], 0, 1, 3);
    assert_eq!(v, vec![1, 2, 3, 0, 4, 5]);
    let mut w = vec![0u64, 1, 2, 3];
    swap_many(&mut w[..], 1, 1, 2);
    assert_eq!(w, vec![0, 1, 2, 3]);
}

#[test]
fn insertion_sort_keeps_ordered_input_with_equal_keys() {
    let v: Vec<(u64, u64)> = vec![(0, 9), (0, 3), (1, 7), (1, 1), (1, 5), (2, 0)];
    let mut s = v.clone();
    insertion_sort(&mut s[..], &|a: &(u64, u64), b: &(u64, u64)| a.0.cmp(&b.0));
    assert_eq!(s, v);
}

#[test]
fn insertion_sort_is_stable() {
    let mut v: Vec<(u64, u64)> = vec![(2, 0), (1, 1), (2, 2), (0, 3), (1, 4), (0, 5)];
    insertion_sort(&mut v[..], &|a: &(u64, u64), b: &(u64, u64)| a.0.cmp(&b.0));
    assert_eq!(v, vec![(0, 3), (0, 5), (1, 1), (1, 4), (2, 0), (2, 2)]);
}

#[test]
fn reverse_comparator_mirrors_keys() {
    let mut rng = XorShift::new(606);
    let v: Vec<(u64, u64)> = (0..300u64).map(|i| (rng.below(6), i)).collect();
    let mut up = v.clone();
    sort(&mut up[..], |a: &(u64, u64), b: &(u64, u64)| a.0.cmp(&b.0));
    let mut down = v.clone();
    sort(&mut down[..], |a: &(u64, u64), b: &(u64, u64)| b.0.cmp(&a.0));
    let n = up.len();
    for i in 0..n {
        assert_eq!(down[i].0, up[n - 1 - i].0);
    }
}
