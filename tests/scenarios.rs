use combinatorics::iter::{
    Catalan, CombinationsIterator, ElementSwaps, PermutationsIterator, Product, SubsequencesIterator,
};
use std::collections::BTreeSet;

fn range(n: usize) -> Vec<usize> {
    (0..n).collect()
}

fn all_combinations(src: &[usize], k: usize) -> Vec<Vec<usize>> {
    let mut it = src.combinations(k);
    let mut out = Vec::new();
    while let Some(x) = it.next() {
        out.push(x.to_vec());
    }
    out
}

fn all_subsequences(src: &[usize]) -> Vec<Vec<usize>> {
    let mut it = src.subsequences();
    let mut out = Vec::new();
    while let Some(x) = it.next() {
        out.push(x.to_vec());
    }
    out
}

fn all_permutations(src: &[usize]) -> Vec<Vec<usize>> {
    let mut it = src.permutations_iter();
    let mut out = Vec::new();
    while let Some(x) = it.next() {
        out.push(x.to_vec());
    }
    out
}

fn all_shapes(leaves: usize) -> Vec<Vec<usize>> {
    let mut it = Catalan::new(leaves);
    let mut out = Vec::new();
    while let Some(x) = it.next() {
        out.push(x.to_vec());
    }
    out
}

#[test]
fn combinations_six_choose_three() {
    let all = all_combinations(&range(6), 3);
    assert_eq!(all.len(), 20);
    assert_eq!(all[0], vec![0, 1, 2]);
    assert_eq!(all[1], vec![0, 1, 3]);
    assert_eq!(all[19], vec![3, 4, 5]);
    let mut sorted = all.clone();
    sorted.sort();
    assert_eq!(sorted, all);
    let distinct: BTreeSet<Vec<usize>> = all.iter().cloned().collect();
    assert_eq!(distinct.len(), 20);
    for c in &all {
        assert!(c.windows(2).all(|w| w[0] < w[1]));
    }
}

#[test]
fn combinations_edge_sizes() {
    assert_eq!(all_combinations(&range(4), 0), vec![Vec::<usize>::new()]);
    assert_eq!(all_combinations(&range(4), 4), vec![vec![0, 1, 2, 3]]);
    assert_eq!(all_combinations(&[], 0), vec![Vec::<usize>::new()]);
    for n in 0..8 {
        for k in 0..=n {
            let all = all_combinations(&range(n), k);
            let distinct: BTreeSet<Vec<usize>> = all.iter().cloned().collect();
            assert_eq!(distinct.len(), all.len());
            let mut expected = 1usize;
            for i in 0..k {
                expected = expected * (n - i) / (i + 1);
            }
            assert_eq!(all.len(), expected);
        }
    }
}

#[test]
fn combinations_stay_exhausted() {
    let src = vec!['a', 'b', 'c'];
    let mut it = src.combinations(2);
    let mut seen = Vec::new();
    while let Some(x) = it.next() {
        seen.push(x.iter().collect::<String>());
    }
    assert_eq!(seen, vec!["ab", "ac", "bc"]);
    assert!(it.next().is_none());
    assert!(it.next().is_none());
}

#[test]
fn subsequences_of_six() {
    let all = all_subsequences(&range(6));
    assert_eq!(all.len(), 64);
    assert_eq!(all[0], Vec::<usize>::new());
    assert_eq!(all[1], vec![0]);
    let distinct: BTreeSet<Vec<usize>> = all.iter().cloned().collect();
    assert_eq!(distinct.len(), 64);
    for s in &all {
        assert!(s.windows(2).all(|w| w[0] < w[1]));
    }
}

#[test]
fn subsequences_walk_order() {
    let src = vec![10, 20, 30];
    let all = all_subsequences(&src);
    assert_eq!(
        all,
        vec![
            vec![],
            vec![10],
            vec![10, 20],
            vec![10, 20, 30],
            vec![10, 30],
            vec![20],
            vec![20, 30],
            vec![30],
        ]
    );
    assert_eq!(all_subsequences(&[]), vec![Vec::<usize>::new()]);
}

#[test]
fn subsequences_start_over() {
    let src = range(4);
    let mut it = src.subsequences();
    let mut first = Vec::new();
    while let Some(x) = it.next() {
        first.push(x.to_vec());
    }
    let mut second = Vec::new();
    while let Some(x) = it.next() {
        second.push(x.to_vec());
    }
    assert_eq!(first.len(), 16);
    assert_eq!(first, second);
}

#[test]
fn permutations_of_six() {
    let src = range(6);
    let all = all_permutations(&src);
    assert_eq!(all.len(), 720);
    assert_eq!(all[0], src);
    let distinct: BTreeSet<Vec<usize>> = all.iter().cloned().collect();
    assert_eq!(distinct.len(), 720);
    for p in &all {
        let mut q = p.clone();
        q.sort();
        assert_eq!(q, src);
    }
    for w in all.windows(2) {
        let diff: Vec<usize> = (0..6).filter(|&i| w[0][i] != w[1][i]).collect();
        assert_eq!(diff.len(), 2);
        assert_eq!(diff[1], diff[0] + 1);
        assert_eq!(w[0][diff[0]], w[1][diff[1]]);
        assert_eq!(w[0][diff[1]], w[1][diff[0]]);
    }
}

#[test]
fn permutations_small() {
    assert_eq!(all_permutations(&[]), vec![Vec::<usize>::new()]);
    assert_eq!(all_permutations(&[7]), vec![vec![7]]);
    assert_eq!(all_permutations(&[1, 2, 3]), vec![
        vec![1, 2, 3],
        vec![1, 3, 2],
        vec![3, 1, 2],
        vec![3, 2, 1],
        vec![2, 3, 1],
        vec![2, 1, 3],
    ]);
    let src = range(3);
    let mut it = src.permutations_iter();
    while it.next().is_some() {}
    assert!(it.next().is_none());
}

#[test]
fn element_swaps_of_three() {
    let mut swaps = ElementSwaps::new(3);
    let mut out = Vec::new();
    while let Some(s) = swaps.next() {
        out.push(s);
    }
    assert_eq!(out, vec![(0, 0), (2, 1), (1, 0), (2, 1), (0, 1), (1, 2)]);
}

#[test]
fn product_five_by_seven() {
    let a = range(5);
    let b: Vec<char> = "abcdefg".chars().collect();
    let mut it = Product::new(&a, &b);
    let mut all = Vec::new();
    while let Some(x) = it.next() {
        all.push(x);
    }
    assert_eq!(all.len(), 35);
    assert_eq!(all[0], (0, 'a'));
    assert_eq!(all[6], (0, 'g'));
    assert_eq!(all[7], (1, 'a'));
    assert_eq!(all[34], (4, 'g'));
    for (t, p) in all.iter().enumerate() {
        assert_eq!(*p, (t / 7, b[t % 7]));
    }
    assert!(it.next().is_none());
}

#[test]
fn product_with_an_empty_side() {
    let a = range(3);
    let e: Vec<usize> = Vec::new();
    assert!(Product::new(&a, &e).next().is_none());
    assert!(Product::new(&e, &a).next().is_none());
}

#[test]
fn catalan_shapes_with_seven_leaves() {
    let all = all_shapes(7);
    assert_eq!(all.len(), 132);
    assert_eq!(all[0], vec![0, 1, 2, 3, 4, 5]);
    assert_eq!(all[131], vec![0, 0, 0, 0, 0, 0]);
    let distinct: BTreeSet<Vec<usize>> = all.iter().cloned().collect();
    assert_eq!(distinct.len(), 132);
    assert!(all.contains(&vec![0, 1, 2, 3, 3, 4]));
    for s in &all {
        assert!(s.iter().enumerate().all(|(p, &l)| l <= p));
        assert!(s.windows(2).all(|w| w[0] <= w[1]));
    }
}

#[test]
fn catalan_small_counts() {
    assert_eq!(all_shapes(1), vec![Vec::<usize>::new()]);
    assert_eq!(all_shapes(2), vec![vec![0]]);
    assert_eq!(all_shapes(3), vec![vec![0, 1], vec![0, 0]]);
    assert_eq!(all_shapes(4), vec![vec![0, 1, 2], vec![0, 0, 2], vec![0, 1, 1], vec![0, 0, 1], vec![0, 0, 0]]);
    let counts: Vec<usize> = (1..10).map(|l| all_shapes(l).len()).collect();
    assert_eq!(counts, vec![1, 1, 2, 5, 14, 42, 132, 429, 1430]);
    let mut it = Catalan::new(3);
    while it.next().is_some() {}
    assert!(it.next().is_none());
}

#[test]
fn element_swaps_count_and_neighbours() {
    for n in 0..7usize {
        let mut swaps = ElementSwaps::new(n);
        let mut count = 0usize;
        while let Some((a, b)) = swaps.next() {
            if count == 0 {
                assert_eq!((a, b), (0, 0));
            } else {
                assert!(a + 1 == b || b + 1 == a);
                assert!(a < n && b < n);
            }
            count += 1;
        }
        assert_eq!(count, (1..=n).product::<usize>());
        assert!(swaps.next().is_none());
    }
}
