//! Orderings, each one neighbouring exchange away from the one before.
use vstd::prelude::*;
use crate::iter::order::mirrors;

verus! {

/// `s` holds each of `0..s.len()` exactly once.
pub open spec fn is_permutation(s: Seq<usize>) -> bool {
    &&& forall|p: int| 0 <= p < s.len() ==> #[trigger] s[p] < s.len()
    &&& forall|p: int, q: int| 0 <= p < q < s.len() ==> s[p] != s[q]
}

/// `s` with the items at `p` and `q` exchanged.
pub open spec fn swapped<A>(s: Seq<A>, p: int, q: int) -> Seq<A> {
    s.update(p, s[q]).update(q, s[p])
}

/// How far the element of digit `j` has gone in its current sweep: the
/// counter `c[j]` read in the direction `up[j]`. It runs from `0` to `j`.
pub open spec fn sweep(c: Seq<usize>, up: Seq<bool>, j: int) -> int {
    if up[j] {
        c[j] as int
    } else {
        j - c[j]
    }
}

/// Counters of the generator over `n` items: `c[j]` is at most `j`.
pub open spec fn is_counter(c: Seq<usize>, up: Seq<bool>, n: nat) -> bool {
    &&& c.len() == n <= usize::MAX
    &&& up.len() == n
    &&& forall|j: int| 0 <= j < n ==> #[trigger] c[j] <= j
}

/// `j` is the last digit whose sweep is not over.
pub open spec fn is_last_open(c: Seq<usize>, up: Seq<bool>, j: int) -> bool {
    &&& 0 <= j < c.len()
    &&& sweep(c, up, j) < j
    &&& forall|h: int| j < h < c.len() ==> #[trigger] sweep(c, up, h) == h
}

/// How many digits from `k` on move up.
pub open spec fn ups_from(up: Seq<bool>, k: nat) -> nat
    decreases up.len() - k,
{
    if k >= up.len() {
        0
    } else {
        (if up[k as int] { 1nat } else { 0nat }) + ups_from(up, k + 1)
    }
}

/// One step of the plain-changes generator on the counters `(c, up)`: the
/// last open digit `j` moves one step on, the digits after it turn round,
/// and its element swaps with a neighbour. Gives the two positions exchanged
/// and the counters after, or `None` once every sweep is over.
pub open spec fn plain_change(c: Seq<usize>, up: Seq<bool>) -> Option<(int, int, Seq<usize>, Seq<bool>)> {
    if exists|j: int| is_last_open(c, up, j) {
        let j = choose|j: int| is_last_open(c, up, j);
        let q: int = if up[j] { c[j] + 1 } else { c[j] - 1 };
        let s = ups_from(up, (j + 1) as nat) as int;
        Some((j - c[j] + s, j - q + s, c.update(j, q as usize), Seq::new(up.len(), |h: int| if h > j { !up[h] } else { up[h] })))
    } else {
        None
    }
}

/// `s` with `e` put in at position `p`.
pub open spec fn put_at(s: Seq<usize>, p: int, e: usize) -> Seq<usize> {
    Seq::new(s.len() + 1, |i: int| if i < p { s[i] } else if i == p { e } else { s[i - 1] })
}

/// The ordering of the items `0..m` that the counters `c` stand for: the
/// items put in one by one, item `j` with `c[j]` smaller items after it.
pub open spec fn arrangement(c: Seq<usize>, m: nat) -> Seq<usize>
    decreases m,
{
    if m == 0 {
        Seq::empty()
    } else {
        let j = (m - 1) as nat;
        put_at(arrangement(c, j), j - c[j as int], j as usize)
    }
}

/// The counters of the digits before `j` read as one number in their mixed
/// radix.
pub open spec fn prefix_value(c: Seq<usize>, up: Seq<bool>, j: nat) -> int
    decreases j,
{
    if j == 0 {
        0
    } else {
        prefix_value(c, up, (j - 1) as nat) * j + sweep(c, up, j - 1)
    }
}

/// Each digit counts up exactly when the digits before it read as an even
/// number: every step of those digits turns it round.
pub open spec fn directions_agree(c: Seq<usize>, up: Seq<bool>) -> bool {
    forall|j: int| 0 <= j < c.len() ==> #[trigger] agrees_at(c, up, j)
}

/// Digit `j` counts up exactly when the digits before it read as an even
/// number.
pub open spec fn agrees_at(c: Seq<usize>, up: Seq<bool>, j: int) -> bool {
    up[j] == (prefix_value(c, up, j as nat) % 2 == 0)
}

/// How many digits in `a..b` count up.
spec fn ups_range(up: Seq<bool>, a: nat, b: nat) -> nat
    decreases b,
{
    if b <= a {
        0
    } else {
        ups_range(up, a, (b - 1) as nat) + (if up[b - 1] { 1nat } else { 0nat })
    }
}

proof fn lemma_ups_split(up: Seq<bool>, a: nat, b: nat)
    requires
        a <= b <= up.len(),
    ensures
        ups_range(up, a, b) + ups_from(up, b) == ups_from(up, a),
    decreases b,
{
    if b > a {
        lemma_ups_split(up, a, (b - 1) as nat);
    }
}

proof fn lemma_arrangement_len(c: Seq<usize>, m: nat)
    ensures
        arrangement(c, m).len() == m,
    decreases m,
{
    if m > 0 {
        lemma_arrangement_len(c, (m - 1) as nat);
    }
}

proof fn lemma_arrangement_prefix(c: Seq<usize>, c2: Seq<usize>, m: nat)
    requires
        forall|j: int| 0 <= j < m ==> c[j] == c2[j],
    ensures
        arrangement(c, m) == arrangement(c2, m),
    decreases m,
{
    if m > 0 {
        lemma_arrangement_prefix(c, c2, (m - 1) as nat);
    }
}

proof fn lemma_arrangement_below(c: Seq<usize>, m: nat)
    requires
        m <= usize::MAX,
        forall|j: int| 0 <= j < m ==> #[trigger] c[j] <= j,
    ensures
        forall|i: int| 0 <= i < m ==> #[trigger] arrangement(c, m)[i] < m,
    decreases m,
{
    if m > 0 {
        lemma_arrangement_below(c, (m - 1) as nat);
        lemma_arrangement_len(c, (m - 1) as nat);
    }
}

/// Different counters stand for different orderings.
proof fn lemma_arrangement_injective(c: Seq<usize>, c2: Seq<usize>, m: nat)
    requires
        m <= usize::MAX,
        forall|j: int| 0 <= j < m ==> #[trigger] c[j] <= j,
        forall|j: int| 0 <= j < m ==> #[trigger] c2[j] <= j,
        arrangement(c, m) == arrangement(c2, m),
    ensures
        forall|j: int| 0 <= j < m ==> c[j] == c2[j],
    decreases m,
{
    if m > 0 {
        let j = (m - 1) as nat;
        let a = arrangement(c, j);
        let a2 = arrangement(c2, j);
        let x = arrangement(c, m);
        let p = j - c[j as int];
        let p2 = j - c2[j as int];
        lemma_arrangement_len(c, j);
        lemma_arrangement_len(c2, j);
        lemma_arrangement_below(c, j);
        lemma_arrangement_below(c2, j);
        assert(c[j as int] <= j && c2[j as int] <= j);
        assert(x[p] == j);
        if p != p2 {
            if p < p2 {
                assert(x[p] == a2[p]);
            } else {
                assert(x[p] == a2[p - 1]);
            }
        }
        assert(a =~= a2) by {
            assert forall|i: int| 0 <= i < j implies a[i] == a2[i] by {
                if i >= p {
                    assert(x[i + 1] == a[i] && x[i + 1] == a2[i]);
                } else {
                    assert(x[i] == a[i] && x[i] == a2[i]);
                }
            }
        }
        lemma_arrangement_injective(c, c2, j);
    }
}

proof fn lemma_swap_put_at(a: Seq<usize>, p: int, p2: int, e: usize)
    requires
        0 <= p <= a.len(),
        0 <= p2 <= a.len(),
        p2 == p - 1 || p2 == p + 1,
    ensures
        swapped(put_at(a, p, e), p, p2) == put_at(a, p2, e),
{
    assert(swapped(put_at(a, p, e), p, p2) =~= put_at(a, p2, e));
}

proof fn lemma_put_front(a: Seq<usize>, x: int, y: int, e: usize)
    requires
        0 <= x < a.len(),
        0 <= y < a.len(),
    ensures
        put_at(swapped(a, x, y), 0, e) == swapped(put_at(a, 0, e), x + 1, y + 1),
{
    assert(put_at(swapped(a, x, y), 0, e) =~= swapped(put_at(a, 0, e), x + 1, y + 1));
}

proof fn lemma_put_back(a: Seq<usize>, x: int, y: int, e: usize)
    requires
        0 <= x < a.len(),
        0 <= y < a.len(),
    ensures
        put_at(swapped(a, x, y), a.len() as int, e) == swapped(put_at(a, a.len() as int, e), x, y),
{
    assert(put_at(swapped(a, x, y), a.len() as int, e) =~= swapped(put_at(a, a.len() as int, e), x, y));
}

/// A step of the counters exchanges, in the ordering they stand for, the
/// two positions that it yields.
proof fn lemma_arrangement_step(c: Seq<usize>, up: Seq<bool>)
    requires
        is_counter(c, up, c.len()),
        plain_change(c, up) is Some,
    ensures
        ({
            let (x, y, c2, u2) = plain_change(c, up)->0;
            arrangement(c2, c.len()) == swapped(arrangement(c, c.len()), x, y)
        }),
{
    let n = c.len();
    let j = choose|j: int| is_last_open(c, up, j);
    let (x, y, c2, u2) = plain_change(c, up)->0;
    lemma_plain_change_is_adjacent_swap(c, up);
    let q: int = if up[j] { c[j] + 1 } else { c[j] - 1 };
    assert(c[j] <= j);
    assert(c2 == c.update(j, q as usize));
    lemma_arrangement_prefix(c, c2, j as nat);
    lemma_arrangement_len(c, j as nat);
    lemma_swap_put_at(arrangement(c, j as nat), j - c[j], j - q, j as usize);
    lemma_arrangement_tail(c, up, j, n);
    lemma_ups_split(up, (j + 1) as nat, n);
    assert(ups_from(up, n) == 0);
    let s = ups_from(up, (j + 1) as nat) as int;
    assert(ups_range(up, (j + 1) as nat, n) == s);
    assert(x == j - c[j] + s && y == j - q + s);
    assert(u2 == Seq::new(up.len(), |h: int| if h > j { !up[h] } else { up[h] }));
}

proof fn lemma_arrangement_tail(c: Seq<usize>, up: Seq<bool>, j: int, h: nat)
    requires
        is_counter(c, up, c.len()),
        is_last_open(c, up, j),
        j + 1 <= h <= c.len(),
    ensures
        ({
            let q: int = if up[j] { c[j] + 1 } else { c[j] - 1 };
            let s = ups_range(up, (j + 1) as nat, h) as int;
            &&& arrangement(c.update(j, q as usize), h) == swapped(arrangement(c, h), j - c[j] + s, j - q + s)
            &&& 0 <= j - c[j] + s < h
            &&& 0 <= j - q + s < h
        }),
    decreases h,
{
    let q: int = if up[j] { c[j] + 1 } else { c[j] - 1 };
    let c2 = c.update(j, q as usize);
    assert(c[j] <= j);
    if h == j + 1 {
        lemma_arrangement_prefix(c, c2, j as nat);
        lemma_arrangement_len(c, j as nat);
        lemma_swap_put_at(arrangement(c, j as nat), j - c[j], j - q, j as usize);
        assert(ups_range(up, (j + 1) as nat, h) == 0);
    } else {
        let g = (h - 1) as nat;
        lemma_arrangement_tail(c, up, j, g);
        let s = ups_range(up, (j + 1) as nat, g) as int;
        let a = arrangement(c, g);
        lemma_arrangement_len(c, g);
        assert(sweep(c, up, g as int) == g);
        assert(c2[g as int] == c[g as int]);
        if up[g as int] {
            assert(c[g as int] == g);
            lemma_put_front(a, j - c[j] + s, j - q + s, g as usize);
        } else {
            assert(c[g as int] == 0);
            lemma_put_back(a, j - c[j] + s, j - q + s, g as usize);
        }
    }
}

proof fn lemma_prefix_same(c: Seq<usize>, up: Seq<bool>, c2: Seq<usize>, u2: Seq<bool>, j: nat)
    requires
        forall|h: int| 0 <= h < j ==> #[trigger] sweep(c, up, h) == sweep(c2, u2, h),
    ensures
        prefix_value(c, up, j) == prefix_value(c2, u2, j),
    decreases j,
{
    if j > 0 {
        lemma_prefix_same(c, up, c2, u2, (j - 1) as nat);
    }
}

/// A step of the counters adds one to the number read by the digits before
/// each digit after the one that moved.
proof fn lemma_prefix_step(c: Seq<usize>, up: Seq<bool>, j: nat)
    requires
        is_counter(c, up, c.len()),
        plain_change(c, up) is Some,
        j <= c.len(),
    ensures
        ({
            let (x, y, c2, u2) = plain_change(c, up)->0;
            let j0 = choose|i: int| is_last_open(c, up, i);
            prefix_value(c2, u2, j) == prefix_value(c, up, j) + if j > j0 { 1int } else { 0int }
        }),
    decreases j,
{
    let (x, y, c2, u2) = plain_change(c, up)->0;
    let j0 = choose|i: int| is_last_open(c, up, i);
    let q: int = if up[j0] { c[j0] + 1 } else { c[j0] - 1 };
    assert(c[j0] <= j0);
    assert(c2 == c.update(j0, q as usize));
    assert(u2 == Seq::new(up.len(), |h: int| if h > j0 { !up[h] } else { up[h] }));
    if j <= j0 {
        lemma_prefix_same(c, up, c2, u2, j);
    } else {
        let i = (j - 1) as nat;
        lemma_prefix_step(c, up, i);
        let p = prefix_value(c, up, i);
        if i == j0 {
            assert(sweep(c2, u2, j0) == sweep(c, up, j0) + 1);
            assert((p + 0) * j + sweep(c, up, j0) + 1 == p * j + sweep(c, up, j0) + 1);
        } else {
            assert(sweep(c, up, i as int) == i);
            assert(sweep(c2, u2, i as int) == 0);
            assert((p + 1) * j == p * j + j) by (nonlinear_arith);
        }
    }
}

proof fn lemma_directions_step(c: Seq<usize>, up: Seq<bool>)
    requires
        is_counter(c, up, c.len()),
        directions_agree(c, up),
        plain_change(c, up) is Some,
    ensures
        ({
            let (x, y, c2, u2) = plain_change(c, up)->0;
            directions_agree(c2, u2)
        }),
{
    let (x, y, c2, u2) = plain_change(c, up)->0;
    let j0 = choose|i: int| is_last_open(c, up, i);
    assert(u2 == Seq::new(up.len(), |h: int| if h > j0 { !up[h] } else { up[h] }));
    assert forall|j: int| 0 <= j < c2.len() implies #[trigger] agrees_at(c2, u2, j) by {
        lemma_prefix_step(c, up, j as nat);
        assert(agrees_at(c, up, j));
    }
}

/// With the same counters, directions that agree with them are the same.
proof fn lemma_directions_unique(c: Seq<usize>, up: Seq<bool>, u2: Seq<bool>, j: nat)
    requires
        up.len() == u2.len() == c.len(),
        directions_agree(c, up),
        directions_agree(c, u2),
        j <= c.len(),
    ensures
        forall|h: int| 0 <= h < j ==> up[h] == u2[h],
    decreases j,
{
    if j > 0 {
        let i = (j - 1) as nat;
        lemma_directions_unique(c, up, u2, i);
        lemma_prefix_same(c, up, c, u2, i);
        assert(agrees_at(c, up, i as int));
        assert(agrees_at(c, u2, i as int));
    }
}

proof fn lemma_arrangement_identity(c: Seq<usize>, m: nat)
    requires
        m <= usize::MAX,
        forall|j: int| 0 <= j < m ==> c[j] == 0,
    ensures
        arrangement(c, m) == Seq::new(m, |p: int| p as usize),
    decreases m,
{
    if m > 0 {
        lemma_arrangement_identity(c, (m - 1) as nat);
        assert(arrangement(c, m) =~= Seq::new(m, |p: int| p as usize));
    }
}

proof fn lemma_prefix_zero(c: Seq<usize>, up: Seq<bool>, j: nat)
    requires
        forall|h: int| 0 <= h < j ==> #[trigger] sweep(c, up, h) == 0,
    ensures
        prefix_value(c, up, j) == 0,
    decreases j,
{
    if j > 0 {
        lemma_prefix_zero(c, up, (j - 1) as nat);
    }
}

proof fn lemma_initial_agree(c: Seq<usize>, up: Seq<bool>)
    requires
        c.len() == up.len(),
        forall|j: int| 0 <= j < c.len() ==> c[j] == 0 && up[j],
    ensures
        directions_agree(c, up),
{
    assert forall|j: int| 0 <= j < c.len() implies #[trigger] agrees_at(c, up, j) by {
        assert forall|h: int| 0 <= h < j implies #[trigger] sweep(c, up, h) == 0 by {}
        lemma_prefix_zero(c, up, j as nat);
    }
}

/// A generator of the transpositions of neighbouring positions that walk
/// through the orderings of `n` items by plain changes: mixed-radix counters,
/// digit `j` in base `j + 1`, sweep up and down, and each step of a digit
/// moves its item past a neighbour. It yields `n!` times in all and reaches
/// each ordering once (see [`lemma_permutations_count`] and
/// [`lemma_permutations_distinct`]); the first call yields `(0, 0)`, which
/// stands for "keep the current order".
pub struct ElementSwaps {
    sizes: Vec<usize>,
    count: Vec<usize>,
    up: Vec<bool>,
    first: bool,
}

proof fn lemma_ups_bound(up: Seq<bool>, k: nat)
    ensures
        ups_from(up, k) <= if k <= up.len() { up.len() - k } else { 0 },
    decreases up.len() - k,
{
    if k < up.len() {
        lemma_ups_bound(up, k + 1);
    }
}

/// Whether the sweep of digit `j` is over.
fn sweep_is_over(count: &Vec<usize>, up: &Vec<bool>, j: usize) -> (r: bool)
    requires
        j < count@.len() == up@.len(),
    ensures
        r == (sweep(count@, up@, j as int) == j),
{
    if up[j] {
        count[j] == j
    } else {
        count[j] == 0
    }
}

impl ElementSwaps {
    /// The element at each position: the original position of the item there.
    pub closed spec fn elements(&self) -> Seq<usize> {
        self.sizes@
    }

    /// The counter of each digit.
    pub closed spec fn counters(&self) -> Seq<usize> {
        self.count@
    }

    /// The direction of each digit; `true` counts up.
    pub closed spec fn directions(&self) -> Seq<bool> {
        self.up@
    }

    /// Whether the `(0, 0)` that opens the walk has been yielded already.
    pub closed spec fn started(&self) -> bool {
        !self.first
    }

    /// The items form a permutation, the counters are in range, the items
    /// are the arrangement of the counters, and the directions agree with them.
    pub closed spec fn wf(&self) -> bool {
        &&& is_permutation(self.sizes@)
        &&& is_counter(self.count@, self.up@, self.sizes@.len())
        &&& self.sizes@ == arrangement(self.count@, self.sizes@.len())
        &&& directions_agree(self.count@, self.up@)
    }

    /// A generator over `n` items in their original order, with every
    /// counter at zero and counting up.
    pub fn new(n: usize) -> (r: ElementSwaps)
        ensures
            r.wf(),
            !r.started(),
            r.elements() == Seq::new(n as nat, |p: int| p as usize),
            r.counters() == Seq::new(n as nat, |p: int| 0usize),
            r.directions() == Seq::new(n as nat, |p: int| true),
    {
        let mut sizes: Vec<usize> = Vec::new();
        let mut count: Vec<usize> = Vec::new();
        let mut up: Vec<bool> = Vec::new();
        let mut p: usize = 0;
        while p < n
            invariant
                p <= n,
                sizes@ == Seq::new(p as nat, |q: int| q as usize),
                count@ == Seq::new(p as nat, |q: int| 0usize),
                up@ == Seq::new(p as nat, |q: int| true),
            decreases n - p,
        {
            sizes.push(p);
            count.push(0);
            up.push(true);
            p = p + 1;
            proof {
                assert(sizes@ =~= Seq::new(p as nat, |q: int| q as usize));
                assert(count@ =~= Seq::new(p as nat, |q: int| 0usize));
                assert(up@ =~= Seq::new(p as nat, |q: int| true));
            }
        }
        proof {
            lemma_arrangement_identity(count@, n as nat);
            lemma_initial_agree(count@, up@);
        }
        ElementSwaps { sizes, count, up, first: true }
    }

    /// The next transposition, `(0, 0)` on the first call, or `None` once
    /// every ordering has been reached.
    pub fn next(&mut self) -> (r: Option<(usize, usize)>)
        requires
            old(self).wf(),
        ensures
            final(self).wf(),
            final(self).started(),
            !old(self).started() ==> r == Some((0usize, 0usize)) && final(self).elements() == old(self).elements()
                && final(self).counters() == old(self).counters() && final(self).directions() == old(self).directions(),
            old(self).started() ==> match plain_change(old(self).counters(), old(self).directions()) {
                Some((x, y, c, u)) => r == Some((x as usize, y as usize)) && final(self).elements() == swapped(
                    old(self).elements(),
                    x,
                    y,
                ) && final(self).counters() == c && final(self).directions() == u,
                None => r is None && final(self).elements() == old(self).elements() && final(self).counters()
                    == old(self).counters() && final(self).directions() == old(self).directions(),
            },
    {
        if self.first {
            self.first = false;
            return Some((0, 0));
        }
        let n = self.sizes.len();
        let ghost c = self.count@;
        let ghost u = self.up@;
        // Skip the digits whose sweep is over, from the last one back.
        let mut k: usize = n;
        let mut s: usize = 0;
        while k > 0 && sweep_is_over(&self.count, &self.up, k - 1)
            invariant
                k <= n == c.len() == u.len(),
                c == self.count@,
                u == self.up@,
                is_counter(c, u, n as nat),
                forall|h: int| k <= h < n ==> #[trigger] sweep(c, u, h) == h,
                s == ups_from(u, k as nat),
                s <= n - k,
            decreases k,
        {
            proof {
                assert(ups_from(u, (k - 1) as nat) == (if u[k - 1] { 1nat } else { 0nat }) + ups_from(u, k as nat));
            }
            if self.up[k - 1] {
                s = s + 1;
            }
            k = k - 1;
        }
        if k == 0 {
            proof {
                assert forall|j: int| !is_last_open(c, u, j) by {
                    if 0 <= j < n {
                        assert(sweep(c, u, j) == j);
                    }
                }
            }
            return None;
        }
        let j = k - 1;
        proof {
            assert(is_last_open(c, u, j as int));
            assert forall|i: int| is_last_open(c, u, i) implies i == j by {
                if i < j {
                    assert(sweep(c, u, j as int) == j);
                } else if i > j {
                    assert(sweep(c, u, i) == i);
                }
            }
            lemma_ups_bound(u, k as nat);
        }
        let cj = self.count[j];
        let q: usize = if self.up[j] { cj + 1 } else { cj - 1 };
        let x = j - cj + s;
        let y = j - q + s;
        let ex = self.sizes[x];
        let ey = self.sizes[y];
        let ghost e = self.sizes@;
        self.sizes.set(x, ey);
        self.sizes.set(y, ex);
        self.count.set(j, q);
        proof {
            assert(self.sizes@ =~= swapped(e, x as int, y as int));
        }
        let ghost sizes_now = self.sizes@;
        let ghost count_now = self.count@;
        let mut h: usize = k;
        while h < n
            invariant
                k <= h <= n == u.len() == self.up@.len(),
                k == j + 1,
                !self.first,
                self.sizes@ == sizes_now,
                self.count@ == count_now,
                forall|i: int| 0 <= i < h ==> self.up@[i] == if i > j { !u[i] } else { u[i] },
                forall|i: int| h <= i < n ==> self.up@[i] == u[i],
            decreases n - h,
        {
            let flipped = !self.up[h];
            self.up.set(h, flipped);
            h = h + 1;
        }
        proof {
            assert(self.up@ =~= Seq::new(u.len(), |i: int| if i > j { !u[i] } else { u[i] }));
            lemma_arrangement_step(c, u);
            lemma_directions_step(c, u);
            assert forall|a: int, b: int| 0 <= a < b < n implies self.sizes@[a] != self.sizes@[b] by {
                let pa = if a == x { y as int } else if a == y { x as int } else { a };
                let pb = if b == x { y as int } else if b == y { x as int } else { b };
                assert(self.sizes@[a] == e[pa] && self.sizes@[b] == e[pb]);
            }
        }
        Some((x, y))
    }
}

/// Each step of the generator exchanges two neighbouring positions in range,
/// and keeps the counters valid.
pub proof fn lemma_plain_change_is_adjacent_swap(c: Seq<usize>, up: Seq<bool>)
    requires
        is_counter(c, up, c.len()),
        plain_change(c, up) is Some,
    ensures
        ({
            let (x, y, c2, u2) = plain_change(c, up)->0;
            &&& 0 <= x < c.len()
            &&& 0 <= y < c.len()
            &&& y == x - 1 || y == x + 1
            &&& is_counter(c2, u2, c.len())
        }),
{
    let j = choose|j: int| is_last_open(c, up, j);
    lemma_ups_bound(up, (j + 1) as nat);
}

/// The steps before all sweeps of the digits from `j` on are over.
spec fn weight(n: nat, j: nat) -> nat
    decreases n - j,
{
    if j + 1 >= n {
        1
    } else {
        (j + 2) * weight(n, j + 1)
    }
}

/// The counters read as a number in a mixed radix, digit `j` in base `j + 1`
/// with the last digit least significant.
spec fn rank_from(c: Seq<usize>, up: Seq<bool>, j: nat) -> int
    decreases c.len() - j,
{
    if j >= c.len() {
        0
    } else {
        sweep(c, up, j as int) * weight(c.len(), j) + rank_from(c, up, j + 1)
    }
}

/// `n!`.
pub open spec fn factorial(n: nat) -> nat
    decreases n,
{
    if n == 0 {
        1
    } else {
        n * factorial((n - 1) as nat)
    }
}

proof fn lemma_weight_factorial(n: nat, j: nat)
    requires
        j < n,
    ensures
        weight(n, j) * factorial(j + 1) == factorial(n),
        weight(n, j) >= 1,
    decreases n - j,
{
    if j + 1 < n {
        lemma_weight_factorial(n, j + 1);
        let w = weight(n, j + 1);
        assert(factorial(j + 2) == (j + 2) * factorial(j + 1));
        assert(weight(n, j) == (j + 2) * w);
        assert(w * factorial(j + 2) == factorial(n));
        assert(((j + 2) * w) * factorial(j + 1) == w * ((j + 2) * factorial(j + 1))) by (nonlinear_arith);
        assert((j + 2) * w >= 1) by (nonlinear_arith)
            requires
                w >= 1,
        ;
    } else {
        assert(weight(n, j) == 1);
        assert(j + 1 == n);
    }
}

proof fn lemma_rank_tail(c: Seq<usize>, up: Seq<bool>, j: nat)
    requires
        is_counter(c, up, c.len()),
        j < c.len(),
    ensures
        0 <= rank_from(c, up, j + 1) <= weight(c.len(), j) - 1,
        (forall|h: int| j < h < c.len() ==> #[trigger] sweep(c, up, h) == h) ==> rank_from(c, up, j + 1)
            == weight(c.len(), j) - 1,
    decreases c.len() - j,
{
    let n = c.len();
    if j + 1 < n {
        lemma_rank_tail(c, up, j + 1);
        lemma_weight_factorial(n, j + 1);
        let w = weight(n, j + 1);
        let sw = sweep(c, up, (j + 1) as int);
        assert(c[j + 1 as int] <= j + 1);
        assert(0 <= sw <= j + 1);
        assert(rank_from(c, up, j + 1) == sw * w + rank_from(c, up, j + 2));
        assert(weight(n, j) == (j + 2) * w);
        assert(0 <= sw * w <= (j + 1) * w) by (nonlinear_arith)
            requires
                0 <= sw <= j + 1,
                w >= 1,
        ;
        assert((j + 2) * w == (j + 1) * w + w) by (nonlinear_arith);
    }
}

proof fn lemma_rank_zero_tail(c: Seq<usize>, up: Seq<bool>, j: nat)
    requires
        forall|h: int| j <= h < c.len() ==> #[trigger] sweep(c, up, h) == 0,
    ensures
        rank_from(c, up, j) == 0,
    decreases c.len() - j,
{
    if j < c.len() {
        lemma_rank_zero_tail(c, up, j + 1);
    }
}

proof fn lemma_rank_same_prefix(c: Seq<usize>, up: Seq<bool>, c2: Seq<usize>, u2: Seq<bool>, i: nat, j: nat)
    requires
        i <= j <= c.len(),
        c2.len() == c.len(),
        forall|h: int| i <= h < j ==> #[trigger] sweep(c, up, h) == sweep(c2, u2, h),
    ensures
        rank_from(c, up, i) - rank_from(c, up, j) == rank_from(c2, u2, i) - rank_from(c2, u2, j),
    decreases j - i,
{
    if i < j {
        lemma_rank_same_prefix(c, up, c2, u2, i + 1, j);
    }
}

proof fn lemma_rank_step(c: Seq<usize>, up: Seq<bool>)
    requires
        is_counter(c, up, c.len()),
        plain_change(c, up) is Some,
    ensures
        ({
            let (x, y, c2, u2) = plain_change(c, up)->0;
            rank_from(c2, u2, 0) == rank_from(c, up, 0) + 1
        }),
{
    let n = c.len();
    let j = choose|j: int| is_last_open(c, up, j);
    let (x, y, c2, u2) = plain_change(c, up)->0;
    lemma_plain_change_is_adjacent_swap(c, up);
    let q: int = if up[j] { c[j] + 1 } else { c[j] - 1 };
    assert(c2 == c.update(j, q as usize));
    assert(u2 == Seq::new(up.len(), |h: int| if h > j { !up[h] } else { up[h] }));
    assert(c[j] <= j);
    assert(sweep(c2, u2, j) == sweep(c, up, j) + 1);
    assert forall|h: int| j < h < n implies #[trigger] sweep(c2, u2, h) == 0 by {
        assert(sweep(c, up, h) == h);
    }
    lemma_rank_zero_tail(c2, u2, (j + 1) as nat);
    lemma_rank_tail(c, up, j as nat);
    lemma_rank_same_prefix(c, up, c2, u2, 0, j as nat);
    let w = weight(n, j as nat);
    let sw = sweep(c, up, j);
    assert((sw + 1) * w == sw * w + w) by (nonlinear_arith);
}

proof fn lemma_rank_closed(c: Seq<usize>, up: Seq<bool>)
    requires
        is_counter(c, up, c.len()),
    ensures
        0 <= rank_from(c, up, 0) <= factorial(c.len()) - 1,
        plain_change(c, up) is None ==> rank_from(c, up, 0) == factorial(c.len()) - 1,
{
    let n = c.len();
    if n == 0 {
        assert(factorial(0) == 1);
    } else {
        assert(sweep(c, up, 0) == 0) by {
            assert(c[0] <= 0);
        }
        lemma_rank_tail(c, up, 0);
        lemma_weight_factorial(n, 0);
        assert(factorial(1) == 1) by {
            assert(factorial(0) == 1);
        }
        if plain_change(c, up) is None {
            assert forall|h: int| 0 < h < n implies #[trigger] sweep(c, up, h) == h by {
                lemma_all_swept(c, up, h);
            }
        }
    }
}

/// With no open digit, every sweep from `h` on is over.
proof fn lemma_all_swept(c: Seq<usize>, up: Seq<bool>, h: int)
    requires
        is_counter(c, up, c.len()),
        plain_change(c, up) is None,
        0 <= h < c.len(),
    ensures
        sweep(c, up, h) == h,
    decreases c.len() - h,
{
    assert forall|i: int| h < i < c.len() implies #[trigger] sweep(c, up, i) == i by {
        lemma_all_swept(c, up, i);
    }
    assert(c[h] <= h);
    if sweep(c, up, h) != h {
        assert(is_last_open(c, up, h));
    }
}

/// One call of `next` on the abstract state `(started, counters,
/// directions)` of the generator: what it yields, and the state after it.
pub open spec fn swap_step(st: (bool, Seq<usize>, Seq<bool>)) -> (Option<(int, int)>, (bool, Seq<usize>, Seq<bool>)) {
    if !st.0 {
        (Some((0, 0)), (true, st.1, st.2))
    } else {
        match plain_change(st.1, st.2) {
            Some((x, y, c, u)) => (Some((x, y)), (true, c, u)),
            None => (None, st),
        }
    }
}

/// The abstract state after `t` calls of `next` on a fresh generator over
/// `n` items.
pub open spec fn swap_state(n: nat, t: nat) -> (bool, Seq<usize>, Seq<bool>)
    decreases t,
{
    if t == 0 {
        (false, Seq::new(n, |p: int| 0usize), Seq::new(n, |p: int| true))
    } else {
        swap_step(swap_state(n, (t - 1) as nat)).1
    }
}

/// What the call numbered `t` (from zero) on a fresh generator over `n`
/// items yields.
pub open spec fn swap_run(n: nat, t: nat) -> Option<(int, int)> {
    swap_step(swap_state(n, t)).0
}

proof fn lemma_swap_pass(n: nat, t: nat)
    requires
        n <= usize::MAX,
        t < factorial(n),
    ensures
        swap_run(n, t) is Some,
        swap_state(n, t + 1).0,
        is_counter(swap_state(n, t + 1).1, swap_state(n, t + 1).2, n),
        rank_from(swap_state(n, t + 1).1, swap_state(n, t + 1).2, 0) == t,
    decreases t,
{
    if t == 0 {
        let st = swap_state(n, 1);
        assert forall|h: int| 0 <= h < n implies #[trigger] sweep(st.1, st.2, h) == 0 by {}
        lemma_rank_zero_tail(st.1, st.2, 0);
    } else {
        let prev = (t - 1) as nat;
        lemma_swap_pass(n, prev);
        let st = swap_state(n, t);
        lemma_rank_closed(st.1, st.2);
        lemma_plain_change_is_adjacent_swap(st.1, st.2);
        lemma_rank_step(st.1, st.2);
    }
}

proof fn lemma_swap_done(n: nat, t: nat)
    requires
        n <= usize::MAX,
        t >= factorial(n),
    ensures
        swap_run(n, t) is None,
        swap_state(n, t) == swap_state(n, factorial(n)),
    decreases t,
{
    let total = factorial(n);
    assert(total >= 1) by {
        lemma_factorial_positive(n);
    }
    lemma_swap_pass(n, (total - 1) as nat);
    let st = swap_state(n, total);
    if t > total {
        lemma_swap_done(n, (t - 1) as nat);
    }
    if plain_change(st.1, st.2) is Some {
        lemma_rank_step(st.1, st.2);
        lemma_plain_change_is_adjacent_swap(st.1, st.2);
        let (x, y, c2, u2) = plain_change(st.1, st.2)->0;
        lemma_rank_closed(c2, u2);
    }
}

proof fn lemma_factorial_positive(n: nat)
    ensures
        factorial(n) >= 1,
    decreases n,
{
    if n > 0 {
        lemma_factorial_positive((n - 1) as nat);
        assert(n * factorial((n - 1) as nat) >= 1) by (nonlinear_arith)
            requires
                n >= 1,
                factorial((n - 1) as nat) >= 1,
        ;
    }
}

/// The generator over `n` items yields exactly `n!` times: each call before
/// the one numbered `n!` yields, and from that one on it reports the end.
pub proof fn lemma_permutations_count(n: nat, t: nat)
    requires
        n <= usize::MAX,
    ensures
        t < factorial(n) <==> swap_run(n, t) is Some,
{
    if t < factorial(n) {
        lemma_swap_pass(n, t);
    } else {
        lemma_swap_done(n, t);
    }
}

proof fn lemma_run_agree(n: nat, t: nat)
    requires
        n <= usize::MAX,
    ensures
        is_counter(swap_state(n, t).1, swap_state(n, t).2, n),
        directions_agree(swap_state(n, t).1, swap_state(n, t).2),
    decreases t,
{
    if t == 0 {
        let st = swap_state(n, 0);
        lemma_initial_agree(st.1, st.2);
    } else {
        lemma_run_agree(n, (t - 1) as nat);
        let st = swap_state(n, (t - 1) as nat);
        if st.0 && plain_change(st.1, st.2) is Some {
            lemma_plain_change_is_adjacent_swap(st.1, st.2);
            lemma_directions_step(st.1, st.2);
        }
    }
}

/// No ordering is lent twice: the calls numbered `s` and `t`, both before
/// the one numbered `n!`, lend different orderings (each call lends the
/// arrangement of the counters it leaves).
pub proof fn lemma_permutations_distinct(n: nat, s: nat, t: nat)
    requires
        n <= usize::MAX,
        s < t < factorial(n),
    ensures
        arrangement(swap_state(n, s + 1).1, n) != arrangement(swap_state(n, t + 1).1, n),
{
    lemma_swap_pass(n, s);
    lemma_swap_pass(n, t);
    lemma_run_agree(n, s + 1);
    lemma_run_agree(n, t + 1);
    let a = swap_state(n, s + 1);
    let b = swap_state(n, t + 1);
    if arrangement(a.1, n) == arrangement(b.1, n) {
        lemma_arrangement_injective(a.1, b.1, n);
        assert(a.1 =~= b.1);
        lemma_directions_unique(a.1, a.2, b.2, n);
        assert(a.2 =~= b.2);
    }
}

/// An enumerator over the orderings of a borrowed slice.
///
/// There are `n!` of them for a source of length `n`. The first one is the
/// source order; each later one differs from the one before by the exchange
/// of two neighbouring items (see [`ElementSwaps`]). All are lent from one
/// buffer of clones. Once the last one has been lent, the enumerator stays
/// exhausted.
pub struct Permutations<'a, T> {
    src: &'a [T],
    dest: Vec<T>,
    swaps: ElementSwaps,
}

/// Makes a permutation enumerator over a slice.
pub trait PermutationsIterator<T: Clone>: View<V = Seq<T>> {
    /// An enumerator over the orderings of `self`, before its first one.
    fn permutations_iter<'a>(&'a self) -> (r: Permutations<'a, T>)
        ensures
            r.wf(),
            r.source() == self@,
            !r.started(),
            r.positions() == Seq::new(self@.len(), |p: int| p as usize),
            (false, r.counters(), r.directions()) == swap_state(self@.len(), 0),
            r.positions() == arrangement(r.counters(), self@.len()),
    ;
}

impl<T: Clone> PermutationsIterator<T> for [T] {
    fn permutations_iter<'a>(&'a self) -> (r: Permutations<'a, T>) {
        let n = self.len();
        let mut dest: Vec<T> = Vec::new();
        let mut p: usize = 0;
        while p < n
            invariant
                n == self@.len(),
                p <= n,
                mirrors(self@, Seq::new(p as nat, |q: int| q as usize), dest@),
            decreases n - p,
        {
            dest.push(self[p].clone());
            p = p + 1;
            proof {
                assert(mirrors(self@, Seq::new(p as nat, |q: int| q as usize), dest@));
            }
        }
        Permutations { src: self, dest, swaps: ElementSwaps::new(n) }
    }
}

impl<'a, T> Permutations<'a, T> {
    /// The borrowed source.
    pub closed spec fn source(&self) -> Seq<T> {
        self.src@
    }

    /// The source position of the item in each slot of the current ordering.
    pub closed spec fn positions(&self) -> Seq<usize> {
        self.swaps.elements()
    }

    /// The counters of the generator.
    pub closed spec fn counters(&self) -> Seq<usize> {
        self.swaps.counters()
    }

    /// The directions of the generator.
    pub closed spec fn directions(&self) -> Seq<bool> {
        self.swaps.directions()
    }

    /// Whether the current ordering has been lent already.
    pub closed spec fn started(&self) -> bool {
        self.swaps.started()
    }

    /// The generator is well formed over the source's length, and the buffer
    /// mirrors its items.
    pub closed spec fn wf(&self) -> bool
        where T: Clone
    {
        &&& self.swaps.wf()
        &&& self.swaps.elements().len() == self.src@.len()
        &&& mirrors(self.src@, self.swaps.elements(), self.dest@)
    }
}

impl<'a, T: Clone> Permutations<'a, T> {
    /// Lends the next ordering, or `None` once all have been lent.
    ///
    /// It lends exactly when the generator's step yields (see [`swap_step`]),
    /// and the ordering lent is the previous one with the yielded positions
    /// exchanged.
    pub fn next(&mut self) -> (r: Option<&[T]>)
        requires
            old(self).wf(),
        ensures
            final(self).wf(),
            final(self).source() == old(self).source(),
            ({
                let (y, st) = swap_step((old(self).started(), old(self).counters(), old(self).directions()));
                &&& st == (final(self).started(), final(self).counters(), final(self).directions())
                &&& (r is Some <==> y is Some)
                &&& final(self).positions() == match y {
                    Some((a, b)) => if a == b { old(self).positions() } else { swapped(old(self).positions(), a, b) },
                    None => old(self).positions(),
                }
            }),
            is_permutation(final(self).positions()),
            final(self).positions() == arrangement(final(self).counters(), final(self).source().len()),
            r is Some ==> mirrors(final(self).source(), final(self).positions(), r->0@),
    {
        let ghost s = self.swaps.elements();
        let n = self.dest.len();
        match self.swaps.next() {
            None => None,
            Some((0, 0)) => {
                proof {
                    if old(self).swaps.started() {
                        lemma_plain_change_is_adjacent_swap(old(self).swaps.counters(), old(self).swaps.directions());
                    }
                }
                Some(self.dest.as_slice())
            },
            Some((a, b)) => {
                proof {
                    let c = old(self).swaps.counters();
                    let u = old(self).swaps.directions();
                    lemma_plain_change_is_adjacent_swap(c, u);
                    let tr = plain_change(c, u)->0;
                    assert(0 <= tr.0 < n && 0 <= tr.1 < n);
                    assert(tr.0 == a as int && tr.1 == b as int);
                    assert(a + 1 == b || b + 1 == a);
                }
                let lo = if a < b { a } else { b };
                let ghost old_dest = self.dest@;
                let x = self.dest.remove(lo + 1);
                self.dest.insert(lo, x);
                proof {
                    assert(self.dest@ =~= swapped(old_dest, a as int, b as int));
                    let s2 = self.swaps.elements();
                    assert forall|p: int| 0 <= p < s2.len() implies s2[p] < self.src@.len()
                        && cloned(self.src@[s2[p] as int], #[trigger] self.dest@[p]) by {
                        let q = if p == a { b as int } else if p == b { a as int } else { p };
                        assert(s2[p] == s[q] && self.dest@[p] == old_dest[q]);
                    }
                }
                Some(self.dest.as_slice())
            },
        }
    }
}

} // verus!
