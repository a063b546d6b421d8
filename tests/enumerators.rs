use combinatorics::iter::{
    Catalan, CombinationsIterator, PermutationsIterator, Product, SubsequencesIterator,
};

fn binomial(n: usize, k: usize) -> usize {
    if k == 0 || k == n {
        1
    } else {
        binomial(n - 1, k) + binomial(n - 1, k - 1)
    }
}

fn range(n: usize) -> Vec<usize> {
    (0..n).collect()
}

#[test]
fn combinations_count() {
    let n = 6usize;
    let k = 3usize;
    let src = range(n);
    let mut it = src.combinations(k);
    let mut count = 0;
    while let Some(x) = it.next() {
        println!("{:?}", x);
        count += 1;
    }
    assert_eq!(count, binomial(n, k));
}

#[test]
fn subsequences_count() {
    let n = 6usize;
    let src = range(n);
    let mut it = src.subsequences();
    let mut count = 0;
    while let Some(x) = it.next() {
        println!("{:?}", x);
        count += 1;
    }
    assert_eq!(count, 2usize.pow(n as u32));
}

#[test]
fn permutations_count() {
    let n = 6usize;
    let src = range(n);
    let mut it = src.permutations_iter();
    let mut count = 0;
    while let Some(x) = it.next() {
        println!("{:?}", x);
        count += 1;
    }
    let mut f = 1;
    for i in 2..(n + 1) {
        f *= i
    }
    assert_eq!(count, f);
}

#[test]
fn product_count() {
    let (n, m) = (5usize, 7usize);
    let a = range(n);
    let b = range(m);
    let mut it = Product::new(&a, &b);
    let mut count = 0;
    while let Some(x) = it.next() {
        println!("{:?}", x);
        count += 1;
    }
    assert_eq!(count, n * m);
}

#[test]
fn catalan_count() {
    let n = 6usize;
    let mut it = Catalan::new(n + 1);
    let mut count = 0;
    while let Some(x) = it.next() {
        println!("{:?}", x);
        count += 1;
    }
    assert_eq!(count, binomial(2 * n, n) / (n + 1));
}
