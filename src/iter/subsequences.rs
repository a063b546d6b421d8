//! Subsequences, in a depth-first walk of the subsets of positions.
use vstd::prelude::*;
use crate::iter::order::{is_increasing_below, lex_less, lex_less_at, lemma_lex_irreflexive, lemma_lex_transitive, mirrors};

verus! {

/// The subsequence after the one at positions `a` in a depth-first walk of
/// the subsets of `0..n`: append the position after the last one while it is
/// in range; else drop the last position and advance the new last one. `None`
/// once the walk is back at the root.
pub open spec fn next_subsequence(n: nat, a: Seq<usize>) -> Option<Seq<usize>> {
    let i: int = if a.len() == 0 { 0 } else { a.last() + 1 };
    if i < n {
        Some(a.push(i as usize))
    } else if a.len() <= 1 {
        None
    } else {
        let b = a.drop_last();
        Some(b.update(b.len() - 1, (b.last() + 1) as usize))
    }
}

/// One call of `next` on the abstract state `(started, positions)` over a
/// source of length `n`: what it lends (as positions), and the state after it.
/// Once the walk ends the state is the initial one again.
pub open spec fn subsequence_step(n: nat, st: (bool, Seq<usize>)) -> (Option<Seq<usize>>, (bool, Seq<usize>)) {
    if !st.0 {
        (Some(st.1), (true, st.1))
    } else {
        match next_subsequence(n, st.1) {
            Some(b) => (Some(b), (true, b)),
            None => (None, (false, Seq::empty())),
        }
    }
}

/// The abstract state after `t` calls of `next` on a fresh enumerator over a
/// source of length `n`.
pub open spec fn subsequence_state(n: nat, t: nat) -> (bool, Seq<usize>)
    decreases t,
{
    if t == 0 {
        (false, Seq::empty())
    } else {
        subsequence_step(n, subsequence_state(n, (t - 1) as nat)).1
    }
}

/// The positions lent by the call numbered `t` (from zero) on a fresh
/// enumerator over a source of length `n`, or `None`.
pub open spec fn subsequence_run(n: nat, t: nat) -> Option<Seq<usize>> {
    subsequence_step(n, subsequence_state(n, t)).0
}

proof fn lemma_step_keeps_increasing(n: nat, st: (bool, Seq<usize>))
    requires
        n <= usize::MAX,
        is_increasing_below(st.1, n),
        forall|p: int| 0 <= p < st.1.len() ==> #[trigger] st.1[p] < n,
    ensures
        is_increasing_below(subsequence_step(n, st).1.1, n),
        forall|p: int| 0 <= p < subsequence_step(n, st).1.1.len() ==> #[trigger] subsequence_step(n, st).1.1[p] < n,
        st.0 && next_subsequence(n, st.1) is Some ==> lex_less(st.1, next_subsequence(n, st.1)->0),
{
    let a = st.1;
    let i: int = if a.len() == 0 { 0 } else { a.last() + 1 };
    if st.0 && next_subsequence(n, a) is Some {
        if i < n {
            assert(lex_less_at(a, a.push(i as usize), a.len() as int));
        } else {
            let b = a.drop_last();
            let c = b.update(b.len() - 1, (b.last() + 1) as usize);
            assert(a[b.len() - 1] < a[b.len() as int]);
            assert(lex_less_at(a, c, b.len() - 1));
        }
    }
}

proof fn lemma_state_invariant(n: nat, t: nat)
    requires
        n <= usize::MAX,
    ensures
        is_increasing_below(subsequence_state(n, t).1, n),
        forall|p: int| 0 <= p < subsequence_state(n, t).1.len() ==> #[trigger] subsequence_state(n, t).1[p] < n,
        !subsequence_state(n, t).0 ==> subsequence_state(n, t).1 == Seq::<usize>::empty(),
    decreases t,
{
    if t > 0 {
        lemma_state_invariant(n, (t - 1) as nat);
        lemma_step_keeps_increasing(n, subsequence_state(n, (t - 1) as nat));
    }
}

/// Once the walk has ended, driving the enumerator again lends the same
/// subsequences from the start.
pub proof fn lemma_subsequences_rearm(n: nat, t: nat, s: nat)
    requires
        subsequence_run(n, t) is None,
    ensures
        subsequence_run(n, t + 1 + s) == subsequence_run(n, s),
    decreases s,
{
    if s > 0 {
        lemma_subsequences_rearm(n, t, (s - 1) as nat);
    }
}

/// Every subsequence lent is in source order, the first one is empty, and
/// within one pass no subsequence is lent twice.
pub proof fn lemma_subsequences_distinct(n: nat, s: nat, t: nat)
    requires
        n <= usize::MAX,
        s < t,
        forall|u: nat| u <= t ==> #[trigger] subsequence_run(n, u) is Some,
    ensures
        subsequence_run(n, 0) == Some(Seq::<usize>::empty()),
        is_increasing_below(subsequence_run(n, t)->0, n),
        subsequence_run(n, s) != subsequence_run(n, t),
{
    lemma_state_invariant(n, t);
    lemma_step_keeps_increasing(n, subsequence_state(n, t));
    lemma_ordered_pass(n, s, t);
    lemma_lex_irreflexive(subsequence_run(n, s)->0, subsequence_run(n, t)->0);
}

proof fn lemma_ordered_pass(n: nat, s: nat, t: nat)
    requires
        n <= usize::MAX,
        s < t,
        forall|u: nat| u <= t ==> #[trigger] subsequence_run(n, u) is Some,
    ensures
        lex_less(subsequence_run(n, s)->0, subsequence_run(n, t)->0),
    decreases t,
{
    let prev = (t - 1) as nat;
    assert(subsequence_run(n, prev) is Some);
    lemma_state_invariant(n, prev);
    lemma_state_invariant(n, t);
    let st = subsequence_state(n, prev);
    lemma_step_keeps_increasing(n, st);
    let st2 = subsequence_state(n, t);
    assert(st2 == subsequence_step(n, st).1);
    assert(st2.0);
    assert(subsequence_run(n, t) == next_subsequence(n, st2.1));
    assert(lex_less(subsequence_run(n, prev)->0, subsequence_run(n, t)->0)) by {
        lemma_step_keeps_increasing(n, st2);
        if st.0 {
            assert(subsequence_run(n, prev) == next_subsequence(n, st.1));
        } else {
            assert(subsequence_run(n, prev) == Some(st.1));
        }
    }
    if s < prev {
        lemma_ordered_pass(n, s, prev);
        lemma_lex_transitive(subsequence_run(n, s)->0, subsequence_run(n, prev)->0, subsequence_run(n, t)->0);
    }
}

/// `2^e`.
pub open spec fn two_to(e: nat) -> nat
    decreases e,
{
    if e == 0 {
        1
    } else {
        2 * two_to((e - 1) as nat)
    }
}

/// The least position that the last one of `a` could hold: one past the
/// position before it.
pub open spec fn floor_of_last(a: Seq<usize>) -> int {
    if a.len() >= 2 {
        a[a.len() - 2] + 1
    } else {
        0
    }
}

/// How many subsequences of a source of length `n` the walk lends before the
/// one at positions `a`: one for each step down, and `2^(n - y - 1)` for the
/// subtree of each position `y` that a step skips over.
pub open spec fn walk_rank(n: nat, a: Seq<usize>) -> int
    decreases a.len(),
{
    if a.len() == 0 {
        0
    } else {
        walk_rank(n, a.drop_last()) + 1 + two_to((n - floor_of_last(a)) as nat) - two_to((n - a.last()) as nat)
    }
}

proof fn lemma_two_to_positive(e: nat)
    ensures
        two_to(e) >= 1,
    decreases e,
{
    if e > 0 {
        lemma_two_to_positive((e - 1) as nat);
    }
}

proof fn lemma_rank_step(n: nat, a: Seq<usize>)
    requires
        n <= usize::MAX,
        is_increasing_below(a, n),
        forall|p: int| 0 <= p < a.len() ==> #[trigger] a[p] < n,
        next_subsequence(n, a) is Some,
    ensures
        walk_rank(n, next_subsequence(n, a)->0) == walk_rank(n, a) + 1,
{
    let i: int = if a.len() == 0 { 0 } else { a.last() + 1 };
    let b = next_subsequence(n, a)->0;
    if i < n {
        assert(b.drop_last() =~= a);
        assert(floor_of_last(b) == b.last());
        assert(walk_rank(n, b) == walk_rank(n, a) + 1 + two_to((n - floor_of_last(b)) as nat) - two_to((n - b.last()) as nat));
    } else {
        let c = a.drop_last();
        let d = c.drop_last();
        let x = c.last();
        assert(a[c.len() - 1] < a[c.len() as int]);
        assert(a.last() == n - 1);
        assert(b.drop_last() =~= d);
        assert(c.drop_last() =~= d);
        assert(b.last() == x + 1);
        assert(floor_of_last(a) == x + 1);
        assert(floor_of_last(b) == floor_of_last(c));
        let big = two_to((n - floor_of_last(c)) as nat);
        let half = two_to((n - x - 1) as nat);
        assert(two_to((n - x) as nat) == 2 * half);
        assert(two_to(0) == 1 && two_to(1) == 2);
        assert(walk_rank(n, a) == walk_rank(n, c) + 1 + half - 2);
        assert(walk_rank(n, c) == walk_rank(n, d) + 1 + big - 2 * half);
        assert(walk_rank(n, b) == walk_rank(n, d) + 1 + big - half);
    }
}

proof fn lemma_rank_bound(n: nat, a: Seq<usize>)
    requires
        is_increasing_below(a, n),
        forall|p: int| 0 <= p < a.len() ==> #[trigger] a[p] < n,
    ensures
        a.len() > 0 ==> walk_rank(n, a) + two_to((n - 1 - a.last()) as nat) <= two_to(n),
        walk_rank(n, a) < two_to(n),
    decreases a.len(),
{
    lemma_two_to_positive(n);
    if a.len() > 0 {
        let c = a.drop_last();
        let x = a.last();
        let h = two_to((n - x - 1) as nat);
        assert(two_to((n - x) as nat) == 2 * h);
        lemma_two_to_positive((n - x - 1) as nat);
        if c.len() > 0 {
            assert(a[c.len() - 1] < a[c.len() as int]);
            lemma_rank_bound(n, c);
            let y = c.last();
            assert(floor_of_last(a) == y + 1);
            assert(walk_rank(n, c) + two_to((n - 1 - y) as nat) <= two_to(n));
            assert(walk_rank(n, a) == walk_rank(n, c) + 1 + two_to((n - 1 - y) as nat) - 2 * h);
        } else {
            assert(floor_of_last(a) == 0);
            assert(walk_rank(n, c) == 0);
            assert(walk_rank(n, a) == 1 + two_to(n) - 2 * h);
        }
    }
}

/// One pass of the walk over a source of length `n` lends exactly `2^n`
/// subsequences: each call before the one numbered `2^n` lends one, and that
/// one reports the end.
pub proof fn lemma_subsequences_count(n: nat)
    requires
        n <= usize::MAX,
    ensures
        forall|t: nat| t < two_to(n) ==> #[trigger] subsequence_run(n, t) is Some,
        subsequence_run(n, two_to(n)) is None,
{
    assert forall|t: nat| t < two_to(n) implies #[trigger] subsequence_run(n, t) is Some by {
        lemma_pass_ranks(n, t);
    }
    lemma_two_to_positive(n);
    let last = (two_to(n) - 1) as nat;
    lemma_pass_ranks(n, last);
    lemma_state_invariant(n, last);
    lemma_step_keeps_increasing(n, subsequence_state(n, last));
    let a = subsequence_run(n, last)->0;
    assert(subsequence_state(n, two_to(n)) == (true, a));
    if next_subsequence(n, a) is Some {
        lemma_rank_step(n, a);
        lemma_step_keeps_increasing(n, (true, a));
        lemma_rank_bound(n, next_subsequence(n, a)->0);
    }
}

proof fn lemma_pass_ranks(n: nat, t: nat)
    requires
        n <= usize::MAX,
        t < two_to(n),
    ensures
        subsequence_run(n, t) is Some,
        walk_rank(n, subsequence_run(n, t)->0) == t,
        subsequence_state(n, t + 1) == (true, subsequence_run(n, t)->0),
    decreases t,
{
    lemma_state_invariant(n, t);
    let st = subsequence_state(n, t);
    if t == 0 {
        assert(walk_rank(n, Seq::<usize>::empty()) == 0);
    } else {
        let prev = (t - 1) as nat;
        lemma_pass_ranks(n, prev);
        lemma_state_invariant(n, prev);
        lemma_step_keeps_increasing(n, subsequence_state(n, prev));
        let a = subsequence_run(n, prev)->0;
        assert(st == (true, a));
        if next_subsequence(n, a) is Some {
            lemma_rank_step(n, a);
        } else {
            assert(two_to(0) == 1);
            assert(two_to(1) == 2);
            if a.len() == 1 {
                assert(a.drop_last() =~= Seq::<usize>::empty());
                assert(a.last() == n - 1);
                assert(floor_of_last(a) == 0);
                assert(walk_rank(n, a.drop_last()) == 0);
                assert((n - a.last()) as nat == 1);
                assert(walk_rank(n, a) == 1 + two_to(n) - two_to(1));
            } else {
                assert(a.len() == 0 && n == 0);
            }
            assert(false);
        }
    }
}

/// An enumerator over the subsequences of a borrowed slice.
///
/// There are `2^n` of them for a source of length `n`. They come in a
/// depth-first walk (see [`next_subsequence`]), the empty one first, each lent
/// from one buffer that holds clones of the chosen items in source order.
/// After the walk has ended, the enumerator starts over.
pub struct Subsequences<'a, T> {
    src: &'a [T],
    dest: Vec<T>,
    indices: Vec<usize>,
    first: bool,
}

/// Makes a subsequence enumerator over a slice.
pub trait SubsequencesIterator<T: Clone>: View<V = Seq<T>> {
    /// An enumerator over the subsequences of `self`, before its first one.
    fn subsequences<'a>(&'a self) -> (r: Subsequences<'a, T>)
        ensures
            r.wf(),
            r.source() == self@,
            !r.started(),
            r.positions() == Seq::<usize>::empty(),
    ;
}

impl<T: Clone> SubsequencesIterator<T> for [T] {
    fn subsequences<'a>(&'a self) -> (r: Subsequences<'a, T>) {
        Subsequences { src: self, dest: Vec::new(), indices: Vec::new(), first: true }
    }
}

impl<'a, T> Subsequences<'a, T> {
    /// The borrowed source.
    pub closed spec fn source(&self) -> Seq<T> {
        self.src@
    }

    /// The source positions of the current subsequence.
    pub closed spec fn positions(&self) -> Seq<usize> {
        self.indices@
    }

    /// Whether the current subsequence has been lent already.
    pub closed spec fn started(&self) -> bool {
        !self.first
    }

    /// The positions increase and stay below the source length, the buffer
    /// mirrors them, and before a walk they are empty.
    pub closed spec fn wf(&self) -> bool
        where T: Clone
    {
        &&& is_increasing_below(self.indices@, self.src@.len())
        &&& forall|p: int| 0 <= p < self.indices@.len() ==> #[trigger] self.indices@[p] < self.src@.len()
        &&& mirrors(self.src@, self.indices@, self.dest@)
        &&& self.first ==> self.indices@.len() == 0
    }
}

impl<'a, T: Clone> Subsequences<'a, T> {
    /// Lends the next subsequence, or `None` when the walk has ended; the call
    /// after `None` starts a new walk.
    pub fn next(&mut self) -> (r: Option<&[T]>)
        requires
            old(self).wf(),
        ensures
            final(self).wf(),
            final(self).source() == old(self).source(),
            subsequence_step(old(self).source().len(), (old(self).started(), old(self).positions()))
                == (match r { Some(_) => Some(final(self).positions()), None => None::<Seq<usize>> },
                    (final(self).started(), final(self).positions())),
            r is Some ==> mirrors(final(self).source(), final(self).positions(), r->0@),
    {
        if self.first {
            self.first = false;
            return Some(self.dest.as_slice());
        }
        let n = self.src.len();
        let len = self.indices.len();
        let i: usize = if len == 0 { 0 } else { self.indices[len - 1] + 1 };
        if i < n {
            self.indices.push(i);
            self.dest.push(self.src[i].clone());
            proof {
                assert(self.indices@ == old(self).indices@.push(i));
            }
            return Some(self.dest.as_slice());
        }
        // The end of the source is reached: drop the last position and
        // advance the one before it.
        self.indices.pop();
        self.dest.pop();
        let m = self.indices.len();
        if m == 0 {
            self.first = true;
            proof {
                assert(self.indices@ =~= Seq::<usize>::empty());
            }
            return None;
        }
        proof {
            assert(old(self).indices@[m - 1] < old(self).indices@[m as int]);
        }
        let last = self.indices[m - 1] + 1;
        self.indices.set(m - 1, last);
        self.dest.set(m - 1, self.src[last].clone());
        Some(self.dest.as_slice())
    }
}

} // verus!
