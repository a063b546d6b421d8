//! Pairs of items of two slices, in row-major order.
use vstd::prelude::*;
use vstd::arithmetic::div_mod::{lemma_fundamental_div_mod_converse_div, lemma_fundamental_div_mod_converse_mod};
use vstd::arithmetic::mul::lemma_mul_is_distributive_add_other_way;

verus! {

/// The source positions `(outer, inner)` of the pair lent by the call numbered
/// `t` (from zero) on a fresh product of sources of lengths `n` and `m`, or
/// `None` once all `n * m` pairs are lent.
pub open spec fn product_run(n: nat, m: nat, t: nat) -> Option<(int, int)> {
    if t < n * m {
        Some(((t / m) as int, (t % m) as int))
    } else {
        None
    }
}

proof fn lemma_row_of(m: nat, q: int, r: int)
    requires
        m > 0,
        0 <= r < m,
    ensures
        (q * m + r) / (m as int) == q,
        (q * m + r) % (m as int) == r,
{
    lemma_fundamental_div_mod_converse_div(q * m + r, m as int, q, r);
    lemma_fundamental_div_mod_converse_mod(q * m + r, m as int, q, r);
}

/// A product of sources of lengths `n` and `m` lends exactly `n * m` pairs,
/// each pair of positions once, in row-major order: the inner position runs
/// through `0..m` before the outer one moves on by one.
pub proof fn lemma_product_row_major(n: nat, m: nat, s: nat, t: nat)
    requires
        s < t,
    ensures
        product_run(n, m, t) is Some <==> t < n * m,
        t < n * m ==> ({
            let (i, j) = product_run(n, m, t)->0;
            &&& 0 <= i < n
            &&& 0 <= j < m
            &&& t == i * m + j
            &&& product_run(n, m, s) != product_run(n, m, t)
            &&& j > 0 ==> product_run(n, m, (t - 1) as nat) == Some((i, j - 1))
            &&& j == 0 ==> product_run(n, m, (t - 1) as nat) == Some((i - 1, m - 1))
        }),
{
    if t < n * m {
        assert(m > 0) by (nonlinear_arith)
            requires
                t < n * m,
        ;
        let i = (t / m) as int;
        let j = (t % m) as int;
        assert(t == i * m + j && 0 <= j < m && 0 <= i) by (nonlinear_arith)
            requires
                m > 0,
                i == t / m,
                j == t % m,
        ;
        assert(i < n) by (nonlinear_arith)
            requires
                t == i * m + j,
                0 <= j,
                t < n * m,
                m > 0,
        ;
        let si = (s / m) as int;
        let sj = (s % m) as int;
        assert(s == si * m + sj && 0 <= sj < m) by (nonlinear_arith)
            requires
                m > 0,
                si == s / m,
                sj == s % m,
        ;
        if si == i && sj == j {
            assert(false);
        }
        if j > 0 {
            lemma_row_of(m, i, j - 1);
        } else {
            assert(i >= 1) by (nonlinear_arith)
                requires
                    t == i * m + j,
                    j == 0,
                    s < t,
            ;
            assert((i - 1) * m + (m - 1) == t - 1) by (nonlinear_arith)
                requires
                    t == i * m + j,
                    j == 0,
            ;
            lemma_row_of(m, i - 1, m - 1);
        }
    }
}

/// An enumerator over the pairs of two borrowed slices.
///
/// It lends `(x, y)` for every item `x` of the outer slice and `y` of the
/// inner one, in row-major order: the whole inner slice for the first outer
/// item, then for the next, and so on. Each pair holds clones. Once all pairs
/// have been lent, the enumerator stays exhausted. Both sources are finite,
/// so an empty inner slice ends the product at once instead of looping.
pub struct Product<'a, A, B> {
    src_b: &'a [B],
    cur_a: Option<&'a A>,
    src_a: &'a [A],
    next_a: usize,
    next_b: usize,
}

impl<'a, A, B> Product<'a, A, B> {
    /// The outer source.
    pub closed spec fn outer(&self) -> Seq<A> {
        self.src_a@
    }

    /// The inner source.
    pub closed spec fn inner(&self) -> Seq<B> {
        self.src_b@
    }

    /// How many pairs have been lent so far.
    pub closed spec fn emitted(&self) -> nat {
        match self.cur_a {
            Some(_) => ((self.next_a - 1) * self.src_b@.len() + self.next_b) as nat,
            None => self.src_a@.len() * self.src_b@.len(),
        }
    }

    /// The cached outer item is the one before `next_a`, and the inner
    /// position is in range; without one, the outer source is used up.
    pub closed spec fn wf(&self) -> bool {
        match self.cur_a {
            Some(x) => {
                &&& 1 <= self.next_a <= self.src_a@.len()
                &&& *x == self.src_a@[self.next_a - 1]
                &&& self.next_b <= self.src_b@.len()
            },
            None => self.next_a == self.src_a@.len(),
        }
    }
}

impl<'a, A: Clone, B: Clone> Product<'a, A, B> {
    /// The product of `i` (outer) and `j` (inner), before its first pair.
    pub fn new(i: &'a [A], j: &'a [B]) -> (r: Self)
        ensures
            r.wf(),
            r.outer() == i@,
            r.inner() == j@,
            r.emitted() == 0,
    {
        proof {
            assert(0 * j@.len() == 0);
        }
        if i.len() == 0 {
            Product { src_b: j, cur_a: None, src_a: i, next_a: 0, next_b: 0 }
        } else {
            Product { src_b: j, cur_a: Some(&i[0]), src_a: i, next_a: 1, next_b: 0 }
        }
    }

    /// Lends the next pair, or `None` once all pairs have been lent.
    pub fn next(&mut self) -> (r: Option<(A, B)>)
        requires
            old(self).wf(),
        ensures
            final(self).wf(),
            final(self).outer() == old(self).outer(),
            final(self).inner() == old(self).inner(),
            old(self).emitted() < old(self).outer().len() * old(self).inner().len() ==> {
                &&& final(self).emitted() == old(self).emitted() + 1
                &&& r is Some
                &&& cloned(old(self).outer()[(old(self).emitted() / old(self).inner().len()) as int], r.unwrap().0)
                &&& cloned(old(self).inner()[(old(self).emitted() % old(self).inner().len()) as int], r.unwrap().1)
            },
            old(self).emitted() >= old(self).outer().len() * old(self).inner().len() ==> {
                &&& final(self).emitted() == old(self).emitted()
                &&& r is None
            },
    {
        let ghost e = old(self).emitted();
        let n = self.src_a.len();
        let m = self.src_b.len();
        proof {
            if self.cur_a is Some {
                lemma_mul_is_distributive_add_other_way(m as int, (self.next_a - 1) as int, 1);
                assert((self.next_a - 1) * m + self.next_b <= n * m) by (nonlinear_arith)
                    requires
                        self.next_a <= n,
                        self.next_b <= m,
                        self.next_a >= 1,
                ;
            }
        }
        loop
            invariant
                self.wf(),
                self.src_a@.len() == n,
                self.src_b@.len() == m,
                self.src_a == old(self).src_a,
                self.src_b == old(self).src_b,
                self.emitted() == e,
                e == old(self).emitted(),
                e <= n * m,
            decreases (n - self.next_a) + if self.cur_a is Some { 1int } else { 0int },
        {
            let cur = self.cur_a;
            match cur {
                None => {
                    return None;
                },
                Some(x) => {
                    if self.next_b < m {
                        let y = self.src_b[self.next_b].clone();
                        let ghost q = self.next_b as int;
                        self.next_b = self.next_b + 1;
                        proof {
                            lemma_row_of(m as nat, (self.next_a - 1) as int, q);
                            assert(e < n * m) by (nonlinear_arith)
                                requires
                                    e == (self.next_a - 1) * m + q,
                                    q < m,
                                    self.next_a <= n,
                            ;
                        }
                        return Some((x.clone(), y));
                    }
                },
            }
            // The inner pass is over: move the outer source on and start
            // the inner one again.
            proof {
                assert((self.next_a - 1) * m + m == self.next_a * m) by (nonlinear_arith);
            }
            if self.next_a < n {
                self.cur_a = Some(&self.src_a[self.next_a]);
                self.next_a = self.next_a + 1;
            } else {
                self.cur_a = None;
            }
            self.next_b = 0;
        }
    }
}

} // verus!
