//! The partition steps, each on its own.

use adqselect::select::{
    exchange, expand_partition, expand_partition_left, expand_partition_right, partition_hoare,
    partition_maxima, partition_minima, partition_ninthers,
};
use std::cmp::Ordering;

/// Pseudo-random numbers below `modulus`, the same on every run.
fn sample(n: usize, seed: u64, modulus: u64) -> Vec<u64> {
    let mut state: u64 = seed;
    let mut out: Vec<u64> = Vec::with_capacity(n);
    for _ in 0..n {
        state = state.wrapping_mul(6364136223846793005).wrapping_add(1442695040888963407);
        out.push((state >> 32) % modulus);
    }
    out
}

fn checksum(v: &[u64]) -> u64 {
    let mut h: u64 = 0;
    let mut i: u64 = 0;
    for x in v {
        h = h.wrapping_mul(1000003).wrapping_add(*x).wrapping_add(i);
        i += 1;
    }
    h
}

fn is_split_at(v: &[u64], p: usize) -> bool {
    v[..p].iter().all(|x| *x <= v[p]) && v[p + 1..].iter().all(|x| *x >= v[p])
}

fn same_elements(a: &[u64], b: &[u64]) -> bool {
    let mut x: Vec<u64> = a.to_vec();
    let mut y: Vec<u64> = b.to_vec();
    x.sort();
    y.sort();
    x == y
}

#[test]
fn exchange_swaps_two_places() {
    let mut v: Vec<u64> = vec![1, 2, 3, 4];
    exchange(&mut v, 0, 3);
    assert_eq!(v, vec![4, 2, 3, 1]);
    exchange(&mut v, 2, 1);
    assert_eq!(v, vec![4, 3, 2, 1]);
    exchange(&mut v, 2, 2);
    assert_eq!(v, vec![4, 3, 2, 1]);
}

#[test]
fn hoare_partition_of_ten() {
    let start: Vec<u64> = vec![10, 7, 9, 7, 2, 8, 8, 1, 9, 4];

    let mut v: Vec<u64> = start.clone();
    assert_eq!(partition_hoare(&mut v, 3, &mut Ord::cmp), 3);
    assert_eq!(v, vec![2, 4, 1, 7, 10, 8, 8, 9, 9, 7]);

    let mut v: Vec<u64> = start.clone();
    assert_eq!(partition_hoare(&mut v, 0, &mut Ord::cmp), 9);
    assert_eq!(v, vec![4, 7, 9, 7, 2, 8, 8, 1, 9, 10]);

    let mut v: Vec<u64> = start.clone();
    assert_eq!(partition_hoare(&mut v, 9, &mut Ord::cmp), 2);
    assert_eq!(v, vec![2, 1, 4, 7, 9, 8, 8, 7, 9, 10]);

    let mut v: Vec<u64> = start.clone();
    assert_eq!(partition_hoare(&mut v, 5, &mut Ord::cmp), 6);
    assert_eq!(v, vec![8, 7, 4, 7, 2, 1, 8, 10, 9, 9]);
}

#[test]
fn hoare_partition_counts_its_comparisons() {
    let mut v: Vec<u64> = vec![10, 7, 9, 7, 2, 8, 8, 1, 9, 4];
    let mut calls: usize = 0;
    let mut counting = |a: &u64, b: &u64| -> Ordering {
        calls += 1;
        a.cmp(b)
    };
    partition_hoare(&mut v, 9, &mut counting);
    assert_eq!(calls, 10);
}

#[test]
fn hoare_partition_of_one_and_two() {
    let mut v: Vec<u64> = vec![3];
    assert_eq!(partition_hoare(&mut v, 0, &mut Ord::cmp), 0);
    assert_eq!(v, vec![3]);

    let mut v: Vec<u64> = vec![2, 1];
    assert_eq!(partition_hoare(&mut v, 0, &mut Ord::cmp), 1);
    assert_eq!(v, vec![1, 2]);

    let mut v: Vec<u64> = vec![2, 1];
    assert_eq!(partition_hoare(&mut v, 1, &mut Ord::cmp), 0);
    assert_eq!(v, vec![1, 2]);
}

#[test]
fn hoare_partition_stops_at_equal_elements() {
    let mut v: Vec<u64> = vec![5; 16];
    let mut calls: usize = 0;
    let mut counting = |a: &u64, b: &u64| -> Ordering {
        calls += 1;
        a.cmp(b)
    };
    let p: usize = partition_hoare(&mut v, 7, &mut counting);
    assert_eq!(p, 8);
    assert_eq!(calls, 16);
    assert_eq!(v, vec![5; 16]);
}

#[test]
fn hoare_partition_splits_every_small_slice() {
    for n in 1usize..=16 {
        for seed in 0u64..20 {
            let start: Vec<u64> = sample(n, seed, 8);
            for k in 0..n {
                let mut v: Vec<u64> = start.clone();
                let p: usize = partition_hoare(&mut v, k, &mut Ord::cmp);
                assert!(p < n);
                assert_eq!(v[p], start[k]);
                assert!(is_split_at(&v, p));
                assert!(same_elements(&v, &start));
            }
        }
    }
}

#[test]
fn expand_right_sorts_the_open_stretch() {
    // split around the 5 at place 2 up to place 5; 8 and 9 at the end are in place
    let mut v: Vec<u64> = vec![1, 2, 5, 6, 7, 3, 9, 4, 8, 9];
    let mut calls: usize = 0;
    let mut counting = |a: &u64, b: &u64| -> Ordering {
        calls += 1;
        a.cmp(b)
    };
    let p: usize = expand_partition_right(&mut v, 2, 5, 8, &mut counting);
    assert_eq!(p, 4);
    assert_eq!(calls, 3);
    assert_eq!(v, vec![1, 2, 4, 3, 5, 6, 9, 7, 8, 9]);
}

#[test]
fn expand_right_with_nothing_open() {
    let mut v: Vec<u64> = vec![1, 5, 9];
    assert_eq!(expand_partition_right(&mut v, 1, 2, 2, &mut Ord::cmp), 1);
    assert_eq!(v, vec![1, 5, 9]);
}

#[test]
fn expand_left_sorts_the_open_stretch() {
    // split around the 7 at place 6 from place 4 on; the 1 at the front is in place
    let mut v: Vec<u64> = vec![1, 9, 2, 8, 5, 6, 7, 9];
    let mut calls: usize = 0;
    let mut counting = |a: &u64, b: &u64| -> Ordering {
        calls += 1;
        a.cmp(b)
    };
    let p: usize = expand_partition_left(&mut v, 6, 4, 1, &mut counting);
    assert_eq!(p, 4);
    assert_eq!(calls, 3);
    assert_eq!(v, vec![1, 5, 2, 6, 7, 8, 9, 9]);
}

#[test]
fn expand_left_with_nothing_open() {
    let mut v: Vec<u64> = vec![1, 5, 9];
    assert_eq!(expand_partition_left(&mut v, 1, 1, 1, &mut Ord::cmp), 1);
    assert_eq!(v, vec![1, 5, 9]);
}

#[test]
fn expand_partition_from_a_window() {
    // the window holds 4, 5, 6, split around the 5
    let mut v: Vec<u64> = vec![9, 1, 8, 2, 4, 5, 6, 7, 3, 0, 5];
    let mut calls: usize = 0;
    let mut counting = |a: &u64, b: &u64| -> Ordering {
        calls += 1;
        a.cmp(b)
    };
    let p: usize = expand_partition(&mut v, 4, 5, 7, &mut counting);
    assert_eq!(p, 5);
    assert_eq!(calls, 13);
    assert_eq!(v, vec![0, 1, 3, 2, 4, 5, 6, 7, 8, 9, 5]);
}

#[test]
fn expand_partition_ends_on_either_side() {
    let mut v: Vec<u64> = vec![1, 9, 0, 4, 5, 6, 2, 3];
    assert_eq!(expand_partition(&mut v, 3, 4, 6, &mut Ord::cmp), 5);
    assert_eq!(v, vec![1, 3, 0, 4, 2, 5, 6, 9]);

    let mut v: Vec<u64> = vec![7, 0, 8, 4, 5, 6, 9, 9];
    assert_eq!(expand_partition(&mut v, 3, 4, 6, &mut Ord::cmp), 2);
    assert_eq!(v, vec![4, 0, 5, 8, 7, 6, 9, 9]);
}

#[test]
fn expand_partition_of_a_window_that_is_the_whole() {
    let mut v: Vec<u64> = vec![1, 2, 3];
    assert_eq!(expand_partition(&mut v, 0, 1, 3, &mut Ord::cmp), 1);
    assert_eq!(v, vec![1, 2, 3]);
}

#[test]
fn expand_partition_splits_around_every_single_place() {
    // a window of one element is split whatever it holds
    for n in 1usize..=12 {
        for seed in 0u64..10 {
            let start: Vec<u64> = sample(n, seed + 100, 6);
            for k in 0..n {
                let mut v: Vec<u64> = start.clone();
                let p: usize = expand_partition(&mut v, k, k, k + 1, &mut Ord::cmp);
                assert!(p < n);
                assert_eq!(v[p], start[k]);
                assert!(is_split_at(&v, p));
                assert!(same_elements(&v, &start));
            }
        }
    }
}

#[test]
fn minima_partition_of_twenty_four() {
    let start: Vec<u64> = sample(24, 1, 100);
    assert_eq!(
        start,
        vec![
            48, 7, 93, 41, 68, 90, 60, 5, 78, 93, 46, 4, 5, 0, 68, 25, 80, 91, 65, 30, 55, 15,
            52, 21
        ]
    );
    let mut v: Vec<u64> = start.clone();
    let mut calls: usize = 0;
    let mut counting = |a: &u64, b: &u64| -> Ordering {
        calls += 1;
        a.cmp(b)
    };
    // six places at the front, each with a run of three behind them
    let p: usize = partition_minima(&mut v, 3, &mut counting);
    assert_eq!(p, 5);
    assert_eq!(calls, 44);
    assert_eq!(
        v,
        vec![
            5, 4, 0, 5, 7, 15, 60, 48, 78, 93, 46, 25, 30, 93, 68, 41, 80, 91, 65, 68, 55, 90,
            52, 21
        ]
    );
}

#[test]
fn minima_partition_of_the_shortest_slice() {
    let mut v: Vec<u64> = vec![5, 4, 3];
    let mut calls: usize = 0;
    let mut counting = |a: &u64, b: &u64| -> Ordering {
        calls += 1;
        a.cmp(b)
    };
    assert_eq!(partition_minima(&mut v, 1, &mut counting), 1);
    assert_eq!(calls, 4);
    assert_eq!(v, vec![3, 4, 5]);
}

#[test]
fn minima_partition_ends_between_the_rank_and_its_mirror() {
    for n in 3usize..=60 {
        let start: Vec<u64> = sample(n, 200 + u64::try_from(n).unwrap(), 16);
        let mut k: usize = 1;
        while 2 * k < n {
            let mut v: Vec<u64> = start.clone();
            let p: usize = partition_minima(&mut v, k, &mut Ord::cmp);
            assert!(k <= p && p <= n - k);
            assert!(is_split_at(&v, p));
            assert!(same_elements(&v, &start));
            k += 1;
        }
    }
}

#[test]
fn maxima_partition_of_twenty_four() {
    let start: Vec<u64> = sample(24, 2, 100);
    assert_eq!(
        start,
        vec![
            81, 65, 12, 8, 91, 98, 57, 56, 31, 4, 86, 45, 49, 9, 72, 9, 69, 27, 72, 90, 44, 96,
            29, 69
        ]
    );
    let mut v: Vec<u64> = start.clone();
    let mut calls: usize = 0;
    let mut counting = |a: &u64, b: &u64| -> Ordering {
        calls += 1;
        a.cmp(b)
    };
    // six places at the back, each with a run of three before them
    let p: usize = partition_maxima(&mut v, 21, &mut counting);
    assert_eq!(p, 18);
    assert_eq!(calls, 46);
    assert_eq!(
        v,
        vec![
            72, 65, 12, 8, 72, 69, 44, 56, 31, 4, 57, 45, 49, 9, 29, 9, 69, 27, 81, 90, 86, 91,
            96, 98
        ]
    );
}

#[test]
fn maxima_partition_of_the_shortest_slice() {
    let mut v: Vec<u64> = vec![5, 4, 3];
    let mut calls: usize = 0;
    let mut counting = |a: &u64, b: &u64| -> Ordering {
        calls += 1;
        a.cmp(b)
    };
    assert_eq!(partition_maxima(&mut v, 2, &mut counting), 1);
    assert_eq!(calls, 6);
    assert_eq!(v, vec![3, 4, 5]);
}

#[test]
fn maxima_partition_ends_between_the_mirror_of_the_rank_and_the_rank() {
    for n in 3usize..=60 {
        let start: Vec<u64> = sample(n, 300 + u64::try_from(n).unwrap(), 16);
        let mut k: usize = n - 1;
        while 2 * (n - k) < n {
            let mut v: Vec<u64> = start.clone();
            let p: usize = partition_maxima(&mut v, k, &mut Ord::cmp);
            assert!(n - k <= p && p <= k);
            assert!(is_split_at(&v, p));
            assert!(same_elements(&v, &start));
            k -= 1;
        }
    }
}

#[test]
fn ninthers_partition_of_twenty_four() {
    let start: Vec<u64> = sample(24, 3, 100);
    assert_eq!(
        start,
        vec![
            18, 27, 31, 76, 9, 7, 50, 11, 79, 19, 26, 85, 93, 19, 76, 90, 58, 59, 75, 53, 30, 73,
            3, 13
        ]
    );
    let mut v: Vec<u64> = start.clone();
    let mut calls: usize = 0;
    let mut counting = |a: &u64, b: &u64| -> Ordering {
        calls += 1;
        a.cmp(b)
    };
    // a twelfth of 24 is a window of two, at places 11 and 12
    let p: usize = partition_ninthers(&mut v, &mut counting);
    assert_eq!(p, 13);
    assert_eq!(calls, 49);
    assert_eq!(
        v,
        vec![
            18, 27, 13, 3, 9, 7, 50, 11, 30, 19, 26, 31, 19, 53, 76, 90, 58, 59, 75, 93, 79, 73,
            76, 85
        ]
    );
}

#[test]
fn ninthers_partition_of_the_shortest_slice() {
    let start: Vec<u64> = sample(12, 4, 100);
    assert_eq!(start, vec![52, 85, 49, 43, 31, 15, 42, 67, 28, 33, 71, 29]);
    let mut v: Vec<u64> = start.clone();
    let mut calls: usize = 0;
    let mut counting = |a: &u64, b: &u64| -> Ordering {
        calls += 1;
        a.cmp(b)
    };
    let p: usize = partition_ninthers(&mut v, &mut counting);
    assert_eq!(p, 5);
    assert_eq!(calls, 30);
    assert_eq!(v, vec![29, 33, 28, 15, 31, 42, 43, 67, 49, 85, 71, 52]);
}

/// Runs the step on `n` pseudo-random numbers and returns the pivot's
/// place, the pivot, the number of comparisons and a checksum of the slice.
fn ninthers_on_sample(n: usize) -> (usize, u64, usize, u64) {
    let start: Vec<u64> = sample(n, 5, 1000000);
    let mut v: Vec<u64> = start.clone();
    let mut calls: usize = 0;
    let mut counting = |a: &u64, b: &u64| -> Ordering {
        calls += 1;
        a.cmp(b)
    };
    let p: usize = partition_ninthers(&mut v, &mut counting);
    assert!(is_split_at(&v, p));
    assert!(same_elements(&v, &start));
    (p, v[p], calls, checksum(&v))
}

#[test]
fn ninthers_window_is_a_twelfth_up_to_1024() {
    assert_eq!(ninthers_on_sample(1024), (520, 520678, 2602, 17652991930705944525));
}

#[test]
fn ninthers_window_is_a_sixty_fourth_above_1024() {
    assert_eq!(ninthers_on_sample(1025), (562, 554089, 1686, 14582128485968483201));
    assert_eq!(ninthers_on_sample(131072), (64150, 490990, 220154, 2381464194435295557));
}

#[test]
fn ninthers_window_is_a_1024th_above_131072() {
    assert_eq!(ninthers_on_sample(131073), (67986, 520267, 195795, 3535989911437474552));
}

#[test]
fn ninthers_partition_splits_every_slice() {
    for n in 12usize..=80 {
        for seed in 0u64..5 {
            let start: Vec<u64> = sample(n, 400 + seed, 10);
            let mut v: Vec<u64> = start.clone();
            let p: usize = partition_ninthers(&mut v, &mut Ord::cmp);
            let width: usize = n / 12;
            assert!(width / 2 <= p && p + (width + 1) / 2 <= n);
            assert!(is_split_at(&v, p));
            assert!(same_elements(&v, &start));
        }
    }
}

#[test]
fn expand_right_leaves_alone_what_stands_before_the_pivot() {
    // the 9 before the pivot 3 is greater than it, and stays
    let mut v: Vec<u64> = vec![9, 3, 5, 1, 2, 7];
    let mut calls: usize = 0;
    let mut counting = |a: &u64, b: &u64| -> Ordering {
        calls += 1;
        a.cmp(b)
    };
    let p: usize = expand_partition_right(&mut v, 1, 2, 6, &mut counting);
    // two of the four elements from place 2 on are less than the pivot
    assert_eq!(p, 3);
    assert_eq!(calls, 4);
    assert_eq!(v, vec![9, 2, 1, 3, 5, 7]);
}

#[test]
fn expand_left_leaves_alone_what_stands_after_the_pivot() {
    // the 1 after the pivot 3 is less than it, and stays
    let mut v: Vec<u64> = vec![7, 2, 9, 5, 3, 1];
    let mut calls: usize = 0;
    let mut counting = |a: &u64, b: &u64| -> Ordering {
        calls += 1;
        a.cmp(b)
    };
    let p: usize = expand_partition_left(&mut v, 4, 4, 0, &mut counting);
    // three of the four elements before place 4 are greater than the pivot
    assert_eq!(p, 1);
    assert_eq!(calls, 4);
    assert_eq!(v, vec![2, 3, 9, 5, 7, 1]);
}

#[test]
fn expand_right_counts_the_smaller_elements() {
    for n in 2usize..=14 {
        for seed in 0u64..10 {
            let start: Vec<u64> = sample(n, 500 + seed, 6);
            let mut smaller: usize = 0;
            for x in &start[1..] {
                if *x < start[0] {
                    smaller += 1;
                }
            }
            let mut v: Vec<u64> = start.clone();
            let p: usize = expand_partition_right(&mut v, 0, 1, n, &mut Ord::cmp);
            assert_eq!(p, smaller);
            assert_eq!(v[p], start[0]);
            assert!(v[..p].iter().all(|x| *x < v[p]));
            assert!(v[p + 1..].iter().all(|x| *x >= v[p]));
        }
    }
}

#[test]
fn expand_left_counts_the_greater_elements() {
    for n in 2usize..=14 {
        for seed in 0u64..10 {
            let start: Vec<u64> = sample(n, 600 + seed, 6);
            let mut greater: usize = 0;
            for x in &start[..n - 1] {
                if *x > start[n - 1] {
                    greater += 1;
                }
            }
            let mut v: Vec<u64> = start.clone();
            let p: usize = expand_partition_left(&mut v, n - 1, n - 1, 0, &mut Ord::cmp);
            assert_eq!(p, n - 1 - greater);
            assert_eq!(v[p], start[n - 1]);
            assert!(v[..p].iter().all(|x| *x <= v[p]));
            assert!(v[p + 1..].iter().all(|x| *x > v[p]));
        }
    }
}

#[test]
fn expand_partition_moves_the_pivot_by_the_difference_of_the_counts() {
    for n in 1usize..=12 {
        for seed in 0u64..10 {
            let start: Vec<u64> = sample(n, 700 + seed, 6);
            for k in 0..n {
                let mut before: usize = 0;
                for x in &start[k + 1..] {
                    if *x < start[k] {
                        before += 1;
                    }
                }
                let mut after: usize = 0;
                for x in &start[..k] {
                    if *x > start[k] {
                        after += 1;
                    }
                }
                let mut v: Vec<u64> = start.clone();
                let p: usize = expand_partition(&mut v, k, k, k + 1, &mut Ord::cmp);
                assert_eq!(p + after, k + before);
            }
        }
    }
}

#[test]
fn expand_partition_leaves_a_split_slice_as_it_is() {
    let mut v: Vec<u64> = vec![1, 2, 3, 5, 5, 6, 9, 8];
    let mut calls: usize = 0;
    let mut counting = |a: &u64, b: &u64| -> Ordering {
        calls += 1;
        a.cmp(b)
    };
    assert_eq!(expand_partition(&mut v, 3, 4, 6, &mut counting), 4);
    assert_eq!(calls, 5);
    assert_eq!(v, vec![1, 2, 3, 5, 5, 6, 9, 8]);
}

#[test]
fn hoare_partition_of_level_elements_ends_in_the_middle() {
    let mut v: Vec<u64> = vec![7, 7, 7, 7, 7];
    assert_eq!(partition_hoare(&mut v, 1, &mut Ord::cmp), 2);
    assert_eq!(v, vec![7, 7, 7, 7, 7]);
    for n in 1usize..=16 {
        for k in 0..n {
            let mut v: Vec<u64> = vec![3; n];
            assert_eq!(partition_hoare(&mut v, k, &mut Ord::cmp), n / 2);
        }
    }
}

#[test]
fn ninthers_partition_of_a_sorted_slice() {
    let mut v: Vec<u64> = (0..17).collect();
    let mut calls: usize = 0;
    let mut counting = |a: &u64, b: &u64| -> Ordering {
        calls += 1;
        a.cmp(b)
    };
    // the ninther for the one place of the window is the element there
    assert_eq!(partition_ninthers(&mut v, &mut counting), 8);
    assert_eq!(calls, 28);
    let sorted: Vec<u64> = (0..17).collect();
    assert_eq!(v, sorted);
}
