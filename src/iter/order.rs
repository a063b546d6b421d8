//! How a lent buffer mirrors its source, and the orders in which the
//! enumerators lend their position sequences.
use vstd::prelude::*;

verus! {

/// Each item of `buf` is a clone of the item of `src` at the matching
/// position of `idx`.
pub open spec fn mirrors<T: Clone>(src: Seq<T>, idx: Seq<usize>, buf: Seq<T>) -> bool {
    &&& buf.len() == idx.len()
    &&& forall|p: int| 0 <= p < idx.len() ==> idx[p] < src.len() && cloned(src[idx[p] as int], #[trigger] buf[p])
}

/// Positions into a source of length `n`, in strictly increasing order.
pub open spec fn is_increasing_below(idx: Seq<usize>, n: nat) -> bool {
    forall|p: int, q: int| 0 <= p < q < idx.len() ==> idx[p] < idx[q] && idx[q] < n
}

/// `a` comes strictly before `b` in lexicographic order: `a` is a proper
/// prefix of `b`, or at the first position where they differ `a` holds the
/// smaller index.
pub open spec fn lex_less(a: Seq<usize>, b: Seq<usize>) -> bool {
    exists|i: int| lex_less_at(a, b, i)
}

/// `a` and `b` agree before `i`, and `i` is where `a` comes first.
pub open spec fn lex_less_at(a: Seq<usize>, b: Seq<usize>, i: int) -> bool {
    &&& 0 <= i <= a.len()
    &&& i <= b.len()
    &&& forall|p: int| 0 <= p < i ==> #[trigger] a[p] == b[p]
    &&& (i == a.len() < b.len() || (i < a.len() && i < b.len() && a[i] < b[i]))
}

/// Lexicographic order is transitive.
pub proof fn lemma_lex_transitive(a: Seq<usize>, b: Seq<usize>, c: Seq<usize>)
    requires
        lex_less(a, b),
        lex_less(b, c),
    ensures
        lex_less(a, c),
{
    let i = choose|i: int| lex_less_at(a, b, i);
    let j = choose|j: int| lex_less_at(b, c, j);
    if i <= j {
        assert(lex_less_at(a, c, i));
    } else {
        assert(lex_less_at(a, c, j));
    }
}

/// Nothing comes before itself.
pub proof fn lemma_lex_irreflexive(a: Seq<usize>, b: Seq<usize>)
    requires
        lex_less(a, b),
    ensures
        a != b,
{
    let i = choose|i: int| lex_less_at(a, b, i);
}

} // verus!
