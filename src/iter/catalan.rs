//! Binary tree shapes, enumerated through their node labels.
use vstd::prelude::*;
use crate::iter::combinations::{binomial, lemma_binomial_above};

verus! {

/// Labels of a binary tree shape read in traversal order: the label of a node
/// is the index of the leftmost leaf below it. Such a sequence never
/// decreases, and the label at position `p` is at most `p`.
pub open spec fn is_tree_labels(a: Seq<usize>) -> bool {
    &&& forall|p: int| 0 <= p < a.len() ==> a[p] <= p
    &&& forall|p: int, q: int| 0 <= p <= q < a.len() ==> a[p] <= a[q]
}

/// The labels of the right comb `0 + (1 + (2 + ...))` over `leaves` leaves:
/// the first shape that the enumeration yields.
pub open spec fn right_comb(leaves: nat) -> Seq<usize> {
    Seq::new((leaves - 1) as nat, |p: int| p as usize)
}

/// `i` is the position of the leftmost nonzero label of `a`.
pub open spec fn is_leftmost_nonzero(a: Seq<usize>, i: int) -> bool {
    &&& 0 <= i < a.len()
    &&& a[i] != 0
    &&& forall|p: int| 0 <= p < i ==> a[p] == 0
}

/// The shape after `a`, whose leftmost nonzero label `j` stands at `i`: each
/// position `p` up to `i` gets `min(p, j - 1)`, the positions after `i` are
/// kept. It comes before `a` when sequences are compared from their last
/// position (see [`colex_less`]).
pub open spec fn lower_shape(a: Seq<usize>, i: int) -> Seq<usize> {
    Seq::new(a.len(), |p: int| if p < a[i] { p as usize } else if p <= i { (a[i] - 1) as usize } else { a[p] })
}

/// The shape that follows `a` in the enumeration, or `None` after the last
/// one, the left comb whose labels are all zero.
pub open spec fn next_shape(a: Seq<usize>) -> Option<Seq<usize>> {
    if exists|i: int| is_leftmost_nonzero(a, i) {
        Some(lower_shape(a, choose|i: int| is_leftmost_nonzero(a, i)))
    } else {
        None
    }
}

/// `b` comes before `a` when both are read from their last position: they
/// agree after some position `i`, and `b[i] < a[i]`.
pub open spec fn colex_less(b: Seq<usize>, a: Seq<usize>) -> bool {
    &&& b.len() == a.len()
    &&& exists|i: int|
        0 <= i < a.len() && b[i] < a[i] && forall|p: int| i < p < a.len() ==> #[trigger] b[p] == a[p]
}

/// The shape lent by the call of `next` numbered `t` (from zero) on an
/// enumerator made by `Catalan::new(leaves)`, or `None` once all are lent.
pub open spec fn catalan_run(leaves: nat, t: nat) -> Option<Seq<usize>>
    decreases t,
{
    if t == 0 {
        Some(right_comb(leaves))
    } else {
        match catalan_run(leaves, (t - 1) as nat) {
            Some(a) => next_shape(a),
            None => None,
        }
    }
}

proof fn lemma_next_shape_below(a: Seq<usize>)
    requires
        is_tree_labels(a),
        next_shape(a) is Some,
    ensures
        is_tree_labels(next_shape(a)->0),
        colex_less(next_shape(a)->0, a),
{
    let i = choose|i: int| is_leftmost_nonzero(a, i);
    let b = lower_shape(a, i);
    assert(forall|p: int| i < p < a.len() ==> #[trigger] b[p] == a[p]);
}

proof fn lemma_colex_transitive(a: Seq<usize>, b: Seq<usize>, c: Seq<usize>)
    requires
        colex_less(a, b),
        colex_less(b, c),
    ensures
        colex_less(a, c),
{
    let i = choose|i: int|
        0 <= i < b.len() && a[i] < b[i] && forall|p: int| i < p < b.len() ==> #[trigger] a[p] == b[p];
    let j = choose|j: int|
        0 <= j < c.len() && b[j] < c[j] && forall|p: int| j < p < c.len() ==> #[trigger] b[p] == c[p];
    let m = if i < j { j } else { i };
    assert(0 <= m < c.len() && a[m] < c[m] && forall|p: int| m < p < c.len() ==> #[trigger] a[p] == c[p]);
}

proof fn lemma_run_descends(leaves: nat, t: nat)
    requires
        1 <= leaves <= usize::MAX,
        catalan_run(leaves, t) is Some,
    ensures
        is_tree_labels(catalan_run(leaves, t)->0),
        catalan_run(leaves, t)->0.len() == leaves - 1,
        forall|s: nat| s < t ==> catalan_run(leaves, s) is Some && colex_less(catalan_run(leaves, t)->0, #[trigger] catalan_run(leaves, s)->0),
    decreases t,
{
    if t > 0 {
        let prev = (t - 1) as nat;
        lemma_run_descends(leaves, prev);
        let a = catalan_run(leaves, prev)->0;
        lemma_next_shape_below(a);
        assert forall|s: nat| s < t implies catalan_run(leaves, s) is Some && colex_less(catalan_run(leaves, t)->0, #[trigger] catalan_run(leaves, s)->0) by {
            if s < prev {
                lemma_colex_transitive(catalan_run(leaves, t)->0, a, catalan_run(leaves, s)->0);
            }
        }
    } else {
        let c = right_comb(leaves);
        assert forall|p: int| 0 <= p < c.len() implies c[p] == p by {}
        assert(is_tree_labels(c));
    }
}

/// Every shape that the enumerator with `leaves` leaves lends is a valid label
/// sequence of `leaves - 1` nodes, and no shape is lent twice in a run.
pub proof fn lemma_catalan_shapes_distinct(leaves: nat, s: nat, t: nat)
    requires
        1 <= leaves <= usize::MAX,
        s < t,
        catalan_run(leaves, t) is Some,
    ensures
        catalan_run(leaves, s) is Some,
        is_tree_labels(catalan_run(leaves, t)->0),
        catalan_run(leaves, t)->0.len() == leaves - 1,
        catalan_run(leaves, s) != catalan_run(leaves, t),
{
    lemma_run_descends(leaves, t);
    assert(colex_less(catalan_run(leaves, t)->0, catalan_run(leaves, s)->0));
}

/// How many label sequences of `i + 1` nodes end with a label of at most
/// `v`: a number of the Catalan triangle, by its recurrence.
pub open spec fn shapes_below(i: nat, v: nat) -> nat
    decreases i, v,
{
    if i == 0 {
        1
    } else if v == 0 {
        shapes_below((i - 1) as nat, 0)
    } else {
        let w: nat = if v < i { v } else { i };
        shapes_below(i, (w - 1) as nat) + shapes_below((i - 1) as nat, if w < i { w } else { (i - 1) as nat })
    }
}

/// How many binary tree shapes have `nodes` inner nodes.
pub open spec fn tree_count(nodes: nat) -> nat {
    if nodes == 0 {
        1
    } else {
        shapes_below((nodes - 1) as nat, (nodes - 1) as nat)
    }
}

/// The label sequences that agree with `a` after position `p` and hold a
/// smaller label at `p`.
spec fn shapes_before_at(a: Seq<usize>, p: int) -> nat {
    if a[p] == 0 {
        0
    } else {
        shapes_below(p as nat, (a[p] - 1) as nat)
    }
}

spec fn shape_rank_upto(a: Seq<usize>, t: nat) -> nat
    decreases t,
{
    if t == 0 {
        0
    } else {
        shape_rank_upto(a, (t - 1) as nat) + shapes_before_at(a, t - 1)
    }
}

/// The place of `a`, counted from the left comb, among the label sequences
/// of its length.
spec fn shape_rank(a: Seq<usize>) -> nat {
    shape_rank_upto(a, a.len())
}

proof fn lemma_shapes_below_positive(i: nat, v: nat)
    ensures
        shapes_below(i, v) >= 1,
    decreases i, v,
{
    if i > 0 {
        if v == 0 {
            lemma_shapes_below_positive((i - 1) as nat, 0);
        } else {
            let w: nat = if v < i { v } else { i };
            lemma_shapes_below_positive(i, (w - 1) as nat);
        }
    }
}

proof fn lemma_shapes_below_clamp(i: nat, v: nat)
    requires
        v >= i,
    ensures
        shapes_below(i, v) == shapes_below(i, i),
{
}

/// Along the sequence `min(p, v)`, one plus the rank of its first `m`
/// labels is `shapes_below(m - 1, v)`.
proof fn lemma_staircase(c: Seq<usize>, m: nat, v: nat)
    requires
        1 <= m <= c.len(),
        forall|p: int| 0 <= p < m ==> c[p] == if p < v { p } else { v as int },
    ensures
        1 + shape_rank_upto(c, m) == shapes_below((m - 1) as nat, v),
    decreases m,
{
    if m == 1 {
        assert(shape_rank_upto(c, 0) == 0);
        assert(shapes_before_at(c, 0) == 0);
    } else {
        let q = (m - 1) as nat;
        lemma_staircase(c, q, v);
        if v >= q {
            lemma_shapes_below_clamp((q - 1) as nat, v);
            lemma_shapes_below_clamp(q, v);
            assert(c[q as int] == q);
            assert(shapes_below(q, q) == shapes_below(q, (q - 1) as nat) + shapes_below((q - 1) as nat, (q - 1) as nat));
        } else if v > 0 {
            assert(c[q as int] == v);
        } else {
            assert(c[q as int] == 0);
        }
    }
}

proof fn lemma_rank_zero_prefix(a: Seq<usize>, t: nat)
    requires
        t <= a.len(),
        forall|p: int| 0 <= p < t ==> a[p] == 0,
    ensures
        shape_rank_upto(a, t) == 0,
    decreases t,
{
    if t > 0 {
        lemma_rank_zero_prefix(a, (t - 1) as nat);
    }
}

proof fn lemma_rank_same_after(a: Seq<usize>, b: Seq<usize>, s: nat, t: nat)
    requires
        s <= t <= a.len(),
        a.len() == b.len(),
        forall|p: int| s <= p < t ==> a[p] == b[p],
    ensures
        shape_rank_upto(a, t) - shape_rank_upto(a, s) == shape_rank_upto(b, t) - shape_rank_upto(b, s),
    decreases t,
{
    if t > s {
        lemma_rank_same_after(a, b, s, (t - 1) as nat);
    }
}

proof fn lemma_rank_covers(a: Seq<usize>, t: nat, p: int)
    requires
        0 <= p < t <= a.len(),
    ensures
        shape_rank_upto(a, t) >= shapes_before_at(a, p),
    decreases t,
{
    if t - 1 > p {
        lemma_rank_covers(a, (t - 1) as nat, p);
    }
}

proof fn lemma_shape_rank_step(a: Seq<usize>, i: int)
    requires
        is_tree_labels(a),
        is_leftmost_nonzero(a, i),
    ensures
        shape_rank(a) == shape_rank(lower_shape(a, i)) + 1,
{
    let b = lower_shape(a, i);
    let j = a[i] as nat;
    let len = a.len();
    lemma_rank_zero_prefix(a, i as nat);
    lemma_staircase(b, i as nat, (j - 1) as nat);
    assert(shape_rank_upto(a, (i + 1) as nat) == shapes_before_at(a, i));
    assert(shape_rank_upto(b, (i + 1) as nat) == shape_rank_upto(b, i as nat) + shapes_before_at(b, i));
    if j >= 2 {
        assert(shapes_below(i as nat, (j - 1) as nat) == shapes_below(i as nat, (j - 2) as nat) + shapes_below((i - 1) as nat, (j - 1) as nat));
    } else {
        assert(shapes_below(i as nat, 0) == shapes_below((i - 1) as nat, 0));
    }
    lemma_rank_same_after(a, b, (i + 1) as nat, len);
}

proof fn lemma_right_comb_rank(leaves: nat)
    requires
        1 <= leaves <= usize::MAX,
    ensures
        shape_rank(right_comb(leaves)) + 1 == tree_count((leaves - 1) as nat),
{
    let c = right_comb(leaves);
    let n = (leaves - 1) as nat;
    if n > 0 {
        lemma_staircase(c, n, (n - 1) as nat);
    }
}

proof fn lemma_catalan_pass(leaves: nat, t: nat)
    requires
        1 <= leaves <= usize::MAX,
        t < tree_count((leaves - 1) as nat),
    ensures
        catalan_run(leaves, t) is Some,
        shape_rank(catalan_run(leaves, t)->0) + 1 + t == tree_count((leaves - 1) as nat),
    decreases t,
{
    if t == 0 {
        lemma_right_comb_rank(leaves);
    } else {
        let prev = (t - 1) as nat;
        lemma_catalan_pass(leaves, prev);
        lemma_run_descends(leaves, prev);
        let a = catalan_run(leaves, prev)->0;
        if exists|i: int| is_leftmost_nonzero(a, i) {
            let i = choose|i: int| is_leftmost_nonzero(a, i);
            lemma_shape_rank_step(a, i);
        } else {
            assert(shape_rank(a) == 0) by {
                assert forall|p: int| 0 <= p < a.len() implies a[p] == 0 by {
                    if a[p] != 0 {
                        lemma_leftmost_nonzero_exists(a, p);
                    }
                }
                lemma_rank_zero_prefix(a, a.len());
            }
        }
    }
}

proof fn lemma_leftmost_nonzero_exists(a: Seq<usize>, p: int)
    requires
        0 <= p < a.len(),
        a[p] != 0,
    ensures
        exists|i: int| is_leftmost_nonzero(a, i),
    decreases p,
{
    if exists|q: int| 0 <= q < p && a[q] != 0 {
        let q = choose|q: int| 0 <= q < p && a[q] != 0;
        lemma_leftmost_nonzero_exists(a, q);
    } else {
        assert(is_leftmost_nonzero(a, p));
    }
}

/// `v * C(m, v) == (m + 1 - v) * C(m, v - 1)`.
proof fn lemma_binomial_ratio(m: nat, v: nat)
    requires
        1 <= v <= m + 1,
    ensures
        v * binomial(m, v) == (m + 1 - v) * binomial(m, (v - 1) as nat),
    decreases m,
{
    if m == 0 {
        assert(binomial(0, 1) == 0);
    } else if v == m + 1 {
        assert(binomial(m, v) == 0) by {
            lemma_binomial_above(m, v);
        }
    } else {
        let a = binomial((m - 1) as nat, (v - 1) as nat);
        let b = binomial((m - 1) as nat, v);
        assert(binomial(m, v) == a + b);
        lemma_binomial_ratio((m - 1) as nat, v);
        assert(v * b == (m - v) * a);
        if v >= 2 {
            let c = binomial((m - 1) as nat, (v - 2) as nat);
            lemma_binomial_ratio((m - 1) as nat, (v - 1) as nat);
            assert((v - 1) * a == (m + 1 - v) * c);
            assert(binomial(m, (v - 1) as nat) == c + a);
            assert(v * (a + b) == (m + 1 - v) * (c + a)) by (nonlinear_arith)
                requires
                    v * b == (m - v) * a,
                    (v - 1) * a == (m + 1 - v) * c,
                    v >= 2,
                    m >= v,
            ;
        } else {
            assert(binomial(m, 0) == 1);
            assert(a == 1);
            assert(1 * (a + b) == m * 1) by (nonlinear_arith)
                requires
                    1 * b == (m - 1) * a,
                    a == 1,
            ;
        }
    }
}

/// The closed form of the Catalan triangle:
/// `(i + 2) * shapes_below(i, v) == (i + 2 - v) * C(i + 1 + v, v)`.
proof fn lemma_shapes_below_closed(i: nat, v: nat)
    requires
        v <= i + 1,
    ensures
        (i + 2) * shapes_below(i, v) == (i + 2 - v) * binomial(i + 1 + v, v),
    decreases i, v,
{
    if v == i + 1 {
        lemma_shapes_below_clamp(i, v);
        lemma_shapes_below_closed(i, i);
        let m = 2 * i + 1;
        assert(i + 1 + i == m);
        assert((i + 2) * shapes_below(i, i) == (i + 2 - i) * binomial(m, i));
        assert(binomial(m + 1, i + 1) == binomial(m, i) + binomial(m, i + 1));
        lemma_binomial_ratio(m, i + 1);
        assert(binomial(m, i + 1) == binomial(m, i)) by (nonlinear_arith)
            requires
                (i + 1) * binomial(m, i + 1) == (m + 1 - (i + 1)) * binomial(m, i),
                m == 2 * i + 1,
        ;
        assert(i + 1 + v == m + 1);
        assert((i + 2) * shapes_below(i, i) == 2 * binomial(m, i));
        assert(binomial(i + 1 + v, v) == binomial(m + 1, i + 1));
        assert(i + 2 - v == 1);
        assert((i + 2 - v) * binomial(i + 1 + v, v) == binomial(m + 1, i + 1));
        assert(shapes_below(i, v) == shapes_below(i, i));
        assert((i + 2) * shapes_below(i, v) == 2 * binomial(m, i));
        let b0 = binomial(m, i);
        let b1 = binomial(m, i + 1);
        assert(b1 == b0);
        assert(binomial(m + 1, i + 1) == b0 + b1);
        assert(binomial(m + 1, i + 1) == 2 * b0);
        assert((i + 2) * shapes_below(i, v) == (i + 2 - v) * binomial(i + 1 + v, v));
    } else if i == 0 {
        assert(v == 0);
        assert(shapes_below(0, 0) == 1);
        assert(binomial(1, 0) == 1);
        assert((i + 2) * shapes_below(i, v) == (i + 2 - v) * binomial(i + 1 + v, v));
    } else if v == 0 {
        let i1 = (i - 1) as nat;
        lemma_shapes_below_closed(i1, 0);
        assert(binomial(i1 + 1 + 0, 0) == 1 && binomial(i + 1, 0) == 1);
        assert((i1 + 2) * shapes_below(i1, 0) == (i1 + 2 - 0) * 1);
        assert(shapes_below(i1, 0) == 1) by (nonlinear_arith)
            requires
                (i1 + 2) * shapes_below(i1, 0) == (i1 + 2 - 0) * 1,
        ;
        assert(shapes_below(i, 0) == shapes_below(i1, 0));
        assert((i + 2) * shapes_below(i, v) == (i + 2 - v) * binomial(i + 1 + v, v));
    } else {
        let f1 = shapes_below(i, (v - 1) as nat);
        let f2 = shapes_below((i - 1) as nat, v);
        if v == i {
            lemma_shapes_below_clamp((i - 1) as nat, v);
        }
        assert(shapes_below(i, v) == f1 + f2);
        let b1 = binomial(i + v, (v - 1) as nat);
        let b2 = binomial(i + v, v);
        lemma_shapes_below_closed(i, (v - 1) as nat);
        assert(i + 1 + (v - 1) as nat == i + v);
        assert((i + 2) * f1 == (i + 3 - v) * b1);
        lemma_shapes_below_closed((i - 1) as nat, v);
        assert((i - 1) as nat + 1 + v == i + v);
        assert((i + 1) * f2 == (i + 1 - v) * b2);
        assert(binomial(i + 1 + v, v) == b1 + b2);
        lemma_binomial_ratio(i + v, v);
        assert((i + 2) * (f1 + f2) == (i + 2 - v) * (b1 + b2)) by (nonlinear_arith)
            requires
                (i + 2) * f1 == (i + 3 - v) * b1,
                (i + 1) * f2 == (i + 1 - v) * b2,
                v * b2 == (i + 1) * b1,
                1 <= v <= i,
        ;
        assert((i + 2) * shapes_below(i, v) == (i + 2 - v) * binomial(i + 1 + v, v));
    }
}

/// `(n + 1) * tree_count(n) == C(2n, n)`: there are `C(2n, n) / (n + 1)`
/// binary tree shapes with `n` inner nodes.
pub proof fn lemma_tree_count_closed(n: nat)
    ensures
        (n + 1) * tree_count(n) == binomial(2 * n, n),
{
    if n == 0 {
        assert(binomial(2 * n, n) == 1);
        assert(tree_count(n) == 1);
    } else {
        let i = (n - 1) as nat;
        lemma_shapes_below_closed(i, i);
        let m = (2 * n - 1) as nat;
        assert(binomial(2 * n, n) == binomial(m, i) + binomial(m, n));
        lemma_binomial_ratio(m, n);
        assert(binomial(m, n) == binomial(m, i)) by (nonlinear_arith)
            requires
                n * binomial(m, n) == (m + 1 - n) * binomial(m, i),
                m == 2 * n - 1,
                n >= 1,
        ;
        assert(tree_count(n) == shapes_below(i, i));
        assert(i + 2 == n + 1 && i + 1 + i == m);
        assert((n + 1) * shapes_below(i, i) == 2 * binomial(m, i));
        assert(binomial(2 * n, n) == 2 * binomial(m, i));
        assert((n + 1) * tree_count(n) == (n + 1) * shapes_below(i, i));
    }
}

/// The enumerator over shapes with `leaves` leaves lends exactly
/// `tree_count(leaves - 1)` of them: each call before the one numbered
/// `tree_count(leaves - 1)` lends one, and from that one on it reports the
/// end.
pub proof fn lemma_catalan_count(leaves: nat, t: nat)
    requires
        1 <= leaves <= usize::MAX,
    ensures
        t < tree_count((leaves - 1) as nat) <==> catalan_run(leaves, t) is Some,
        leaves * tree_count((leaves - 1) as nat) == binomial((2 * (leaves - 1)) as nat, (leaves - 1) as nat),
    decreases t,
{
    lemma_tree_count_closed((leaves - 1) as nat);
    let total = tree_count((leaves - 1) as nat);
    if t < total {
        lemma_catalan_pass(leaves, t);
    } else if t == total {
        assert(total >= 1) by {
            if leaves > 1 {
                lemma_shapes_below_positive((leaves - 2) as nat, (leaves - 2) as nat);
            }
        }
        let prev = (t - 1) as nat;
        lemma_catalan_pass(leaves, prev);
        let a = catalan_run(leaves, prev)->0;
        if exists|i: int| is_leftmost_nonzero(a, i) {
            let i = choose|i: int| is_leftmost_nonzero(a, i);
            lemma_shapes_below_positive(i as nat, (a[i] - 1) as nat);
            lemma_rank_covers(a, a.len(), i);
        }
    } else {
        lemma_catalan_count(leaves, (t - 1) as nat);
    }
}

/// An enumerator over the binary tree shapes with a given number of leaves.
///
/// A shape with `n + 1` leaves is lent as its `n` node labels (see
/// [`is_tree_labels`]). There are `C(2n, n) / (n + 1)` of them; they come from
/// the right comb down to the left comb, each one below the one before when
/// sequences are compared from their last position. Once the left comb has
/// been lent, the enumerator stays exhausted.
pub struct Catalan {
    indices: Vec<usize>,
    first: bool,
}

impl Catalan {
    /// The labels of the current shape.
    pub closed spec fn labels(&self) -> Seq<usize> {
        self.indices@
    }

    /// Whether the current shape has been lent already.
    pub closed spec fn started(&self) -> bool {
        !self.first
    }

    /// The current labels form a tree shape.
    pub closed spec fn wf(&self) -> bool {
        is_tree_labels(self.indices@)
    }

    /// An enumerator over the shapes with `n` leaves, before its first shape.
    pub fn new(n: usize) -> (r: Catalan)
        requires
            n >= 1,
        ensures
            r.wf(),
            !r.started(),
            r.labels() == right_comb(n as nat),
    {
        let mut indices: Vec<usize> = Vec::new();
        let mut p: usize = 0;
        while p < n - 1
            invariant
                p <= n - 1,
                indices@ == Seq::new(p as nat, |q: int| q as usize),
            decreases n - 1 - p,
        {
            indices.push(p);
            p = p + 1;
            proof {
                assert(indices@ =~= Seq::new(p as nat, |q: int| q as usize));
            }
        }
        proof {
            assert(indices@ =~= right_comb(n as nat));
        }
        Catalan { indices, first: true }
    }

    /// Lends the next shape, or `None` once every shape has been lent.
    ///
    /// The first call lends the right comb unchanged; each later call moves to
    /// [`next_shape`] of the current labels.
    pub fn next(&mut self) -> (r: Option<&[usize]>)
        requires
            old(self).wf(),
        ensures
            final(self).wf(),
            final(self).started(),
            !old(self).started() ==> r is Some && r->0@ == old(self).labels() && final(self).labels() == old(self).labels(),
            old(self).started() ==> match next_shape(old(self).labels()) {
                Some(b) => r is Some && r->0@ == b && final(self).labels() == b,
                None => r is None && final(self).labels() == old(self).labels(),
            },
    {
        if self.first {
            self.first = false;
            return Some(self.indices.as_slice());
        }
        let len = self.indices.len();
        let mut i: usize = 0;
        while i < len && self.indices[i] == 0
            invariant
                i <= len == self.indices@.len(),
                forall|p: int| 0 <= p < i ==> self.indices@[p] == 0,
            decreases len - i,
        {
            i = i + 1;
        }
        if i == len {
            proof {
                assert(!exists|q: int| is_leftmost_nonzero(self.indices@, q));
            }
            return None;
        }
        let ghost a = self.indices@;
        proof {
            assert(is_leftmost_nonzero(a, i as int));
            assert forall|q: int| is_leftmost_nonzero(a, q) implies q == i by {
                if q < i {
                } else if q > i {
                    assert(a[i as int] == 0);
                }
            }
        }
        let j = self.indices[i];
        let mut p: usize = 0;
        while p < j
            invariant
                1 <= j <= i < len == self.indices@.len() == a.len(),
                j == a[i as int],
                !self.first,
                p <= j,
                forall|q: int| 0 <= q < p ==> self.indices@[q] == q,
                forall|q: int| p <= q < len ==> self.indices@[q] == a[q],
            decreases j - p,
        {
            self.indices.set(p, p);
            p = p + 1;
        }
        while p <= i
            invariant
                1 <= j <= i < len == self.indices@.len() == a.len(),
                j == a[i as int],
                !self.first,
                j <= p <= i + 1,
                forall|q: int| 0 <= q < j ==> self.indices@[q] == q,
                forall|q: int| j <= q < p ==> self.indices@[q] == j - 1,
                forall|q: int| p <= q < len ==> self.indices@[q] == a[q],
            decreases i + 1 - p,
        {
            self.indices.set(p, j - 1);
            p = p + 1;
        }
        proof {
            assert(self.indices@ =~= lower_shape(a, i as int));
        }
        Some(self.indices.as_slice())
    }
}

} // verus!
