//! Combinations of `k` items, in lexicographic order of their positions.
use vstd::prelude::*;
use crate::iter::order::{is_increasing_below, lex_less, lex_less_at, lemma_lex_irreflexive, lemma_lex_transitive, mirrors};

verus! {

/// The first `k`-combination: positions `0, 1, ..., k - 1`.
pub open spec fn first_combination(k: nat) -> Seq<usize> {
    Seq::new(k, |p: int| p as usize)
}

/// In the combination `a` of positions below `n`, slot `i` is the rightmost
/// one that is not yet at its greatest position `n - k + i`.
pub open spec fn is_last_movable(n: nat, a: Seq<usize>, i: int) -> bool {
    &&& 0 <= i < a.len()
    &&& a[i] < n - a.len() + i
    &&& forall|p: int| i < p < a.len() ==> #[trigger] a[p] == n - a.len() + p
}

/// Slot `i` moves up by one, and the slots after it follow it one by one.
pub open spec fn raise_from(a: Seq<usize>, i: int) -> Seq<usize> {
    Seq::new(a.len(), |p: int| if p < i { a[p] } else { (a[i] + 1 + (p - i)) as usize })
}

/// The combination after `a` in lexicographic order among the combinations of
/// `a.len()` positions below `n`, or `None` after the last one.
pub open spec fn next_combination(n: nat, a: Seq<usize>) -> Option<Seq<usize>> {
    if exists|i: int| is_last_movable(n, a, i) {
        Some(raise_from(a, choose|i: int| is_last_movable(n, a, i)))
    } else {
        None
    }
}

/// One call of `next` on the abstract state `(started, positions)` over a
/// source of length `n`: the positions lent, and the state after the call.
/// Once exhausted, the enumerator stays so.
pub open spec fn combination_step(n: nat, st: (bool, Seq<usize>)) -> (Option<Seq<usize>>, (bool, Seq<usize>)) {
    if !st.0 {
        (Some(st.1), (true, st.1))
    } else {
        match next_combination(n, st.1) {
            Some(b) => (Some(b), (true, b)),
            None => (None, st),
        }
    }
}

/// The abstract state after `t` calls of `next` on a fresh enumerator of the
/// `k`-combinations of a source of length `n`.
pub open spec fn combination_state(n: nat, k: nat, t: nat) -> (bool, Seq<usize>)
    decreases t,
{
    if t == 0 {
        (false, first_combination(k))
    } else {
        combination_step(n, combination_state(n, k, (t - 1) as nat)).1
    }
}

/// The positions lent by the call numbered `t` (from zero) on a fresh
/// enumerator of `k`-combinations of a source of length `n`, or `None`.
pub open spec fn combination_run(n: nat, k: nat, t: nat) -> Option<Seq<usize>> {
    combination_step(n, combination_state(n, k, t)).0
}

/// A valid combination: `k` increasing positions below `n`.
pub open spec fn is_combination(n: nat, k: nat, a: Seq<usize>) -> bool {
    &&& a.len() == k
    &&& is_increasing_below(a, n)
    &&& forall|p: int| 0 <= p < a.len() ==> #[trigger] a[p] < n
}

proof fn lemma_next_combination(n: nat, a: Seq<usize>)
    requires
        n <= usize::MAX,
        is_combination(n, a.len(), a),
        next_combination(n, a) is Some,
    ensures
        is_combination(n, a.len(), next_combination(n, a)->0),
        lex_less(a, next_combination(n, a)->0),
{
    let i = choose|i: int| is_last_movable(n, a, i);
    let b = raise_from(a, i);
    assert(lex_less_at(a, b, i));
    assert forall|p: int, q: int| 0 <= p < q < b.len() implies b[p] < b[q] && b[q] < n by {
        if p < i && q >= i {
            assert(a[p] <= a[i]);
        }
    }
}

proof fn lemma_combination_state(n: nat, k: nat, t: nat)
    requires
        k <= n <= usize::MAX,
    ensures
        is_combination(n, k, combination_state(n, k, t).1),
        combination_run(n, k, t) is Some ==> is_combination(n, k, combination_run(n, k, t)->0),
    decreases t,
{
    if t > 0 {
        lemma_combination_state(n, k, (t - 1) as nat);
        let st = combination_state(n, k, (t - 1) as nat);
        if st.0 && next_combination(n, st.1) is Some {
            lemma_next_combination(n, st.1);
        }
    }
    let st = combination_state(n, k, t);
    if st.0 && next_combination(n, st.1) is Some {
        lemma_next_combination(n, st.1);
    }
}

proof fn lemma_combinations_ascend(n: nat, k: nat, s: nat, t: nat)
    requires
        k <= n <= usize::MAX,
        s < t,
        combination_run(n, k, t) is Some,
    ensures
        combination_run(n, k, s) is Some,
        lex_less(combination_run(n, k, s)->0, combination_run(n, k, t)->0),
    decreases t,
{
    let prev = (t - 1) as nat;
    let st = combination_state(n, k, prev);
    let st2 = combination_state(n, k, t);
    lemma_combination_state(n, k, prev);
    assert(st2 == combination_step(n, st).1);
    assert(combination_run(n, k, prev) is Some);
    assert(st2.0);
    lemma_next_combination(n, st2.1);
    assert(lex_less(combination_run(n, k, prev)->0, combination_run(n, k, t)->0)) by {
        if st.0 {
            lemma_next_combination(n, st.1);
        }
    }
    if s < prev {
        lemma_combinations_ascend(n, k, s, prev);
        lemma_lex_transitive(combination_run(n, k, s)->0, combination_run(n, k, prev)->0, combination_run(n, k, t)->0);
    }
}

/// Every combination lent has `k` positions in increasing order, they come
/// in increasing lexicographic order, and none is lent twice.
pub proof fn lemma_combinations_distinct(n: nat, k: nat, s: nat, t: nat)
    requires
        k <= n <= usize::MAX,
        s < t,
        combination_run(n, k, t) is Some,
    ensures
        combination_run(n, k, 0) == Some(first_combination(k)),
        is_combination(n, k, combination_run(n, k, t)->0),
        lex_less(combination_run(n, k, s)->0, combination_run(n, k, t)->0),
        combination_run(n, k, s) != combination_run(n, k, t),
{
    lemma_combination_state(n, k, t);
    lemma_combinations_ascend(n, k, s, t);
    lemma_lex_irreflexive(combination_run(n, k, s)->0, combination_run(n, k, t)->0);
}

/// The binomial coefficient `C(n, r)`, by Pascal's rule.
pub open spec fn binomial(n: nat, r: nat) -> nat
    decreases n,
{
    if r == 0 {
        1
    } else if n == 0 {
        0
    } else {
        binomial((n - 1) as nat, (r - 1) as nat) + binomial((n - 1) as nat, r)
    }
}

/// The least position that slot `t` of `a` could hold.
spec fn slot_floor(a: Seq<usize>, t: int) -> int {
    if t == 0 {
        0
    } else {
        a[t - 1] + 1
    }
}

/// The combinations below `n` that agree with `a` before slot `t` and hold
/// a smaller position than `a` in slot `t`, counted by the hockey-stick sum.
spec fn slot_count(n: nat, a: Seq<usize>, t: int) -> int {
    binomial((n - slot_floor(a, t)) as nat, (a.len() - t) as nat) - binomial((n - a[t]) as nat, (a.len() - t) as nat)
}

spec fn rank_upto(n: nat, a: Seq<usize>, t: nat) -> int
    decreases t,
{
    if t == 0 {
        0
    } else {
        rank_upto(n, a, (t - 1) as nat) + slot_count(n, a, t - 1)
    }
}

/// The place of `a` among the combinations of `a.len()` positions below `n`.
spec fn combination_rank(n: nat, a: Seq<usize>) -> int {
    rank_upto(n, a, a.len())
}

pub(crate) proof fn lemma_binomial_above(n: nat, r: nat)
    requires
        r > n,
    ensures
        binomial(n, r) == 0,
    decreases n,
{
    if n > 0 {
        lemma_binomial_above((n - 1) as nat, (r - 1) as nat);
        lemma_binomial_above((n - 1) as nat, r);
    }
}

proof fn lemma_binomial_diagonal(m: nat)
    ensures
        binomial(m, m) == 1,
    decreases m,
{
    if m > 0 {
        lemma_binomial_diagonal((m - 1) as nat);
        lemma_binomial_above((m - 1) as nat, m);
    }
}

proof fn lemma_rank_same_prefix(n: nat, a: Seq<usize>, b: Seq<usize>, t: nat)
    requires
        forall|u: int| 0 <= u < t ==> slot_count(n, a, u) == slot_count(n, b, u),
    ensures
        rank_upto(n, a, t) == rank_upto(n, b, t),
    decreases t,
{
    if t > 0 {
        lemma_rank_same_prefix(n, a, b, (t - 1) as nat);
    }
}

proof fn lemma_rank_flat(n: nat, a: Seq<usize>, s: nat, t: nat)
    requires
        s <= t,
        forall|u: int| s <= u < t ==> slot_count(n, a, u) == 0,
    ensures
        rank_upto(n, a, t) == rank_upto(n, a, s),
    decreases t,
{
    if t > s {
        lemma_rank_flat(n, a, s, (t - 1) as nat);
    }
}

/// In a valid combination each slot `u` is at most `n - k + u`.
proof fn lemma_slot_ceiling(n: nat, a: Seq<usize>, u: int)
    requires
        is_combination(n, a.len(), a),
        0 <= u < a.len(),
    ensures
        a[u] <= n - a.len() + u,
    decreases a.len() - u,
{
    if u + 1 < a.len() {
        lemma_slot_ceiling(n, a, u + 1);
    }
}

proof fn lemma_rank_raise(n: nat, a: Seq<usize>, i: int)
    requires
        n <= usize::MAX,
        is_combination(n, a.len(), a),
        is_last_movable(n, a, i),
    ensures
        combination_rank(n, raise_from(a, i)) == combination_rank(n, a) + 1,
{
    let k = a.len();
    let b = raise_from(a, i);
    let x = a[i];
    let r = (k - i - 1) as nat;
    lemma_rank_same_prefix(n, a, b, i as nat);
    // Slot `i` moves up by one: Pascal's rule.
    assert(binomial((n - x) as nat, r + 1) == binomial((n - x - 1) as nat, r) + binomial((n - x - 1) as nat, r + 1));
    assert(slot_count(n, b, i) == slot_count(n, a, i) + binomial((n - x - 1) as nat, r));
    assert(rank_upto(n, b, (i + 1) as nat) == rank_upto(n, a, (i + 1) as nat) + binomial((n - x - 1) as nat, r));
    // The slots after `i` follow their neighbours in `b`, and stand at their
    // ceilings in `a`.
    assert forall|u: int| i + 1 <= u < k implies slot_count(n, b, u) == 0 by {}
    lemma_rank_flat(n, b, (i + 1) as nat, k);
    if i + 1 < k {
        assert forall|u: int| i + 2 <= u < k implies slot_count(n, a, u) == 0 by {
            assert(a[u - 1] == n - k + u - 1);
        }
        lemma_rank_flat(n, a, (i + 2) as nat, k);
        lemma_binomial_diagonal(r);
        assert((n - a[i + 1]) as nat == r);
        assert(slot_count(n, a, i + 1) == binomial((n - x - 1) as nat, r) - 1);
        assert(rank_upto(n, a, (i + 2) as nat) == rank_upto(n, a, (i + 1) as nat) + slot_count(n, a, i + 1));
    } else {
        assert(binomial((n - x - 1) as nat, 0) == 1);
    }
}

proof fn lemma_rank_last(n: nat, a: Seq<usize>)
    requires
        is_combination(n, a.len(), a),
        next_combination(n, a) is None,
    ensures
        combination_rank(n, a) == binomial(n, a.len()) - 1,
{
    let k = a.len();
    assert forall|u: int| 0 <= u < k implies a[u] == n - k + u by {
        lemma_top_slots(n, a, u);
    }
    if k == 0 {
        assert(binomial(n, 0) == 1);
    } else {
        assert forall|u: int| 1 <= u < k implies slot_count(n, a, u) == 0 by {
            assert(a[u - 1] == n - k + u - 1);
        }
        lemma_rank_flat(n, a, 1, k);
        lemma_binomial_diagonal(k);
        assert(slot_count(n, a, 0) == binomial(n, k) - 1);
        assert(rank_upto(n, a, 0) == 0);
        assert(rank_upto(n, a, 1) == slot_count(n, a, 0));
    }
}

/// With no movable slot, every slot at or after `u` stands at its ceiling.
proof fn lemma_top_slots(n: nat, a: Seq<usize>, u: int)
    requires
        is_combination(n, a.len(), a),
        next_combination(n, a) is None,
        0 <= u < a.len(),
    ensures
        forall|p: int| u <= p < a.len() ==> #[trigger] a[p] == n - a.len() + p,
    decreases a.len() - u,
{
    if u + 1 < a.len() {
        lemma_top_slots(n, a, u + 1);
    }
    lemma_slot_ceiling(n, a, u);
    if a[u] < n - a.len() + u {
        assert(is_last_movable(n, a, u));
    }
}

proof fn lemma_rank_first(n: nat, k: nat)
    requires
        k <= n <= usize::MAX,
    ensures
        combination_rank(n, first_combination(k)) == 0,
{
    let a = first_combination(k);
    assert forall|u: int| 0 <= u < k implies slot_count(n, a, u) == 0 by {}
    lemma_rank_flat(n, a, 0, k);
}

/// `rank_upto` of `a` up to slot `t`, plus the combinations that agree with
/// `a` before `t`, stays within `C(n, k)`.
proof fn lemma_rank_bound(n: nat, a: Seq<usize>, t: nat)
    requires
        is_combination(n, a.len(), a),
        t <= a.len(),
    ensures
        rank_upto(n, a, t) + binomial((n - slot_floor(a, t as int)) as nat, (a.len() - t) as nat) <= binomial(n, a.len()),
    decreases t,
{
    if t > 0 {
        let u = t - 1;
        lemma_rank_bound(n, a, u as nat);
        let r = (a.len() - t) as nat;
        let x = a[u];
        assert(slot_floor(a, t as int) == x + 1);
        assert(binomial((n - x) as nat, r + 1) == binomial((n - x - 1) as nat, r) + binomial((n - x - 1) as nat, r + 1));
    }
}

proof fn lemma_combination_pass(n: nat, k: nat, t: nat)
    requires
        k <= n <= usize::MAX,
        t < binomial(n, k),
    ensures
        combination_run(n, k, t) is Some,
        combination_rank(n, combination_run(n, k, t)->0) == t,
        combination_state(n, k, t + 1) == (true, combination_run(n, k, t)->0),
    decreases t,
{
    lemma_combination_state(n, k, t);
    if t == 0 {
        lemma_rank_first(n, k);
    } else {
        let prev = (t - 1) as nat;
        lemma_combination_pass(n, k, prev);
        lemma_combination_state(n, k, prev);
        let a = combination_run(n, k, prev)->0;
        if next_combination(n, a) is Some {
            let i = choose|i: int| is_last_movable(n, a, i);
            lemma_rank_raise(n, a, i);
        } else {
            lemma_rank_last(n, a);
        }
    }
}

/// The enumerator of `k`-combinations of a source of length `n` lends
/// exactly `C(n, k)` of them: each call before the one numbered `C(n, k)`
/// lends one, and from that one on it reports the end.
pub proof fn lemma_combinations_count(n: nat, k: nat, t: nat)
    requires
        k <= n <= usize::MAX,
    ensures
        t < binomial(n, k) <==> combination_run(n, k, t) is Some,
{
    if t < binomial(n, k) {
        lemma_combination_pass(n, k, t);
    } else {
        lemma_combinations_stay_done(n, k, t);
    }
}

proof fn lemma_combinations_stay_done(n: nat, k: nat, t: nat)
    requires
        k <= n <= usize::MAX,
        t >= binomial(n, k),
    ensures
        combination_run(n, k, t) is None,
        combination_state(n, k, t) == (true, combination_run(n, k, (binomial(n, k) - 1) as nat)->0),
    decreases t,
{
    let total = binomial(n, k);
    assert(total >= 1) by {
        lemma_binomial_positive(n, k);
    }
    let last = (total - 1) as nat;
    lemma_combination_pass(n, k, last);
    lemma_combination_state(n, k, last);
    let a = combination_run(n, k, last)->0;
    if t > total {
        lemma_combinations_stay_done(n, k, (t - 1) as nat);
    }
    if next_combination(n, a) is Some {
        let i = choose|i: int| is_last_movable(n, a, i);
        lemma_rank_raise(n, a, i);
        lemma_next_combination(n, a);
        lemma_rank_bound(n, next_combination(n, a)->0, k);
        assert(binomial((n - slot_floor(next_combination(n, a)->0, k as int)) as nat, 0) == 1);
    }
}

proof fn lemma_binomial_positive(n: nat, k: nat)
    requires
        k <= n,
    ensures
        binomial(n, k) >= 1,
    decreases n,
{
    if k > 0 && n > 0 {
        lemma_binomial_positive((n - 1) as nat, (k - 1) as nat);
    }
}

/// An enumerator over the combinations of `k` items of a borrowed slice of `n`.
///
/// There are `C(n, k)` of them. They come in lexicographic order of their
/// source positions, each lent from one buffer that holds clones of the chosen
/// items in source order. Once the last one has been lent, the enumerator stays
/// exhausted.
// Slot `i` of the buffer holds the item at some position `j` between `i` and
// `n - k + i`; `indices[i]` records the gap `n - k + i - j`.
pub struct Combinations<'a, T> {
    src: &'a [T],
    dest: Vec<T>,
    indices: Vec<usize>,
    first: bool,
}

/// Makes a combination enumerator over a slice.
pub trait CombinationsIterator<T: Clone>: View<V = Seq<T>> {
    /// An enumerator over the combinations of `k` items of `self`, before its
    /// first one.
    fn combinations<'a>(&'a self, k: usize) -> (r: Combinations<'a, T>)
        requires
            k <= self@.len(),
        ensures
            r.wf(),
            r.source() == self@,
            !r.started(),
            r.positions() == first_combination(k as nat),
    ;
}

impl<T: Clone> CombinationsIterator<T> for [T] {
    fn combinations<'a>(&'a self, k: usize) -> (r: Combinations<'a, T>) {
        let n = self.len();
        let mut dest: Vec<T> = Vec::new();
        let mut indices: Vec<usize> = Vec::new();
        let mut p: usize = 0;
        while p < k
            invariant
                k <= n == self@.len(),
                p <= k,
                indices@ == Seq::new(p as nat, |q: int| (n - k) as usize),
                mirrors(self@, first_combination(p as nat), dest@),
            decreases k - p,
        {
            indices.push(n - k);
            dest.push(self[p].clone());
            p = p + 1;
            proof {
                assert(indices@ =~= Seq::new(p as nat, |q: int| (n - k) as usize));
                assert(mirrors(self@, first_combination(p as nat), dest@));
            }
        }
        let r = Combinations { src: self, dest, indices, first: true };
        proof {
            assert(r.positions() =~= first_combination(k as nat));
        }
        r
    }
}

impl<'a, T> Combinations<'a, T> {
    /// The borrowed source.
    pub closed spec fn source(&self) -> Seq<T> {
        self.src@
    }

    /// The source positions of the current combination.
    pub closed spec fn positions(&self) -> Seq<usize> {
        let n = self.src@.len();
        let k = self.indices@.len();
        Seq::new(k, |i: int| (n - k + i - self.indices@[i]) as usize)
    }

    /// Whether the current combination has been lent already.
    pub closed spec fn started(&self) -> bool {
        !self.first
    }

    /// The gaps fit the source and never increase along the slots, so the
    /// positions increase; the buffer mirrors them.
    pub closed spec fn wf(&self) -> bool
        where T: Clone
    {
        let n = self.src@.len();
        let k = self.indices@.len();
        &&& k <= n
        &&& forall|i: int| 0 <= i < k ==> #[trigger] self.indices@[i] <= n - k
        &&& forall|i: int, j: int| 0 <= i <= j < k ==> self.indices@[j] <= self.indices@[i]
        &&& mirrors(self.src@, self.positions(), self.dest@)
    }
}

impl<'a, T: Clone> Combinations<'a, T> {
    /// Lends the next combination, or `None` once all have been lent.
    pub fn next(&mut self) -> (r: Option<&[T]>)
        requires
            old(self).wf(),
        ensures
            final(self).wf(),
            final(self).source() == old(self).source(),
            combination_step(old(self).source().len(), (old(self).started(), old(self).positions()))
                == (match r { Some(_) => Some(final(self).positions()), None => None::<Seq<usize>> },
                    (final(self).started(), final(self).positions())),
            r is Some ==> mirrors(final(self).source(), final(self).positions(), r->0@),
    {
        if self.first {
            self.first = false;
            return Some(self.dest.as_slice());
        }
        let n = self.src.len();
        let k = self.indices.len();
        let ghost a = old(self).positions();
        // The rightmost slot that can still move up.
        let mut i: usize = k;
        while i > 0 && self.indices[i - 1] == 0
            invariant
                i <= k == self.indices@.len(),
                forall|p: int| i <= p < k ==> self.indices@[p] == 0,
            decreases i,
        {
            i = i - 1;
        }
        if i == 0 {
            proof {
                assert forall|q: int| !is_last_movable(n as nat, a, q) by {
                    if 0 <= q < k {
                        assert(a[q] == n - k + q);
                    }
                }
            }
            return None;
        }
        i = i - 1;
        proof {
            assert(is_last_movable(n as nat, a, i as int));
            assert forall|q: int| is_last_movable(n as nat, a, q) implies q == i by {
                if q > i {
                    assert(self.indices@[q] == 0);
                } else if q < i {
                    assert(a[i as int] == n - k + i);
                }
            }
        }
        let h = self.indices[i];
        let mut t: usize = i;
        while t < k
            invariant
                i < k == self.indices@.len() == self.dest@.len() <= n == self.src@.len(),
                self.src == old(self).src,
                !self.first,
                1 <= h <= n - k,
                h == old(self).indices@[i as int],
                a == old(self).positions(),
                a.len() == k == old(self).indices@.len(),
                a[i as int] == n - k + i - h,
                i <= t <= k,
                forall|p: int| 0 <= p < i ==> self.indices@[p] == old(self).indices@[p],
                forall|p: int| 0 <= p < i ==> self.dest@[p] == old(self).dest@[p],
                forall|p: int| i <= p < t ==> self.indices@[p] == h - 1,
                forall|p: int| t <= p < k ==> self.indices@[p] == old(self).indices@[p],
                forall|p: int| i <= p < t ==> cloned(self.src@[raise_from(a, i as int)[p] as int], #[trigger] self.dest@[p]),
            decreases k - t,
        {
            proof {
                assert(raise_from(a, i as int)[t as int] == n - k + t + 1 - h);
            }
            self.indices.set(t, h - 1);
            let x = self.src[n - k + t + 1 - h].clone();
            self.dest.set(t, x);
            t = t + 1;
        }
        proof {
            assert(self.positions() =~= raise_from(a, i as int));
        }
        Some(self.dest.as_slice())
    }
}

} // verus!
