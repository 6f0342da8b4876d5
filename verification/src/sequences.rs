//! Small sequence toolkit: an order-preserving selection function over
//! sequences, with the lemmas the optimizer's proofs need.

use vstd::prelude::*;

verus! {

/// The subsequence of `s` whose elements satisfy `p`, in order.
pub open spec fn seq_where<A>(s: Seq<A>, p: spec_fn(A) -> bool) -> Seq<A>
    decreases s.len(),
{
    if s.len() == 0 {
        Seq::empty()
    } else {
        let prev = seq_where(s.drop_last(), p);
        if p(s.last()) {
            prev.push(s.last())
        } else {
            prev
        }
    }
}

/// Appending one element extends the selection by that element iff it
/// satisfies the predicate.
pub proof fn lemma_where_push<A>(s: Seq<A>, x: A, p: spec_fn(A) -> bool)
    ensures
        seq_where(s.push(x), p) == if p(x) {
            seq_where(s, p).push(x)
        } else {
            seq_where(s, p)
        },
{
    assert(s.push(x).drop_last() =~= s);
    assert(s.push(x).last() == x);
}

/// A selection is never longer than the sequence it came from.
pub proof fn lemma_where_len<A>(s: Seq<A>, p: spec_fn(A) -> bool)
    ensures
        seq_where(s, p).len() <= s.len(),
    decreases s.len(),
{
    if s.len() > 0 {
        lemma_where_len(s.drop_last(), p);
    }
}

/// Two complementary predicates split a sequence without loss.
pub proof fn lemma_where_partition_len<A>(s: Seq<A>, p: spec_fn(A) -> bool, q: spec_fn(A) -> bool)
    requires
        forall|a: A| #[trigger] q(a) == !p(a),
    ensures
        seq_where(s, p).len() + seq_where(s, q).len() == s.len(),
    decreases s.len(),
{
    if s.len() > 0 {
        lemma_where_partition_len(s.drop_last(), p, q);
    }
}

/// Every selected element satisfies the predicate and comes from `s`.
pub proof fn lemma_where_pred<A>(s: Seq<A>, p: spec_fn(A) -> bool, i: int)
    requires
        0 <= i < seq_where(s, p).len(),
    ensures
        p(seq_where(s, p)[i]),
        s.contains(seq_where(s, p)[i]),
    decreases s.len(),
{
    if s.len() > 0 {
        let prev = seq_where(s.drop_last(), p);
        if i < prev.len() {
            lemma_where_pred(s.drop_last(), p, i);
            assert(s.drop_last().contains(prev[i]));
            let w = choose|j: int| 0 <= j < s.drop_last().len() && s.drop_last()[j] == prev[i];
            assert(s[w] == prev[i]);
        } else {
            assert(s[s.len() - 1] == s.last());
        }
    }
}

/// An element of `s` that satisfies the predicate appears in the selection.
pub proof fn lemma_where_mem<A>(s: Seq<A>, p: spec_fn(A) -> bool, i: int)
    requires
        0 <= i < s.len(),
        p(s[i]),
    ensures
        seq_where(s, p).contains(s[i]),
    decreases s.len(),
{
    if i == s.len() - 1 {
        let prev = seq_where(s.drop_last(), p);
        assert(seq_where(s, p)[prev.len() as int] == s[i]);
    } else {
        lemma_where_mem(s.drop_last(), p, i);
        let prev = seq_where(s.drop_last(), p);
        let w = choose|j: int| 0 <= j < prev.len() && prev[j] == s.drop_last()[i];
        assert(seq_where(s, p)[w] == s[i]);
    }
}

/// Two distinct positions satisfying the predicate give a selection of at
/// least two elements.
pub proof fn lemma_where_two<A>(s: Seq<A>, p: spec_fn(A) -> bool, i: int, j: int)
    requires
        0 <= i < j < s.len(),
        p(s[i]),
        p(s[j]),
    ensures
        seq_where(s, p).len() >= 2,
    decreases s.len(),
{
    if j == s.len() - 1 {
        lemma_where_mem(s.drop_last(), p, i);
        let prev = seq_where(s.drop_last(), p);
        assert(prev.contains(s.drop_last()[i]));
        assert(prev.len() >= 1);
    } else {
        lemma_where_two(s.drop_last(), p, i, j);
    }
}

/// A non-empty selection exhibits a position satisfying the predicate.
pub proof fn lemma_where_one_rev<A>(s: Seq<A>, p: spec_fn(A) -> bool)
    requires
        seq_where(s, p).len() >= 1,
    ensures
        exists|i: int| 0 <= i < s.len() && p(#[trigger] s[i]),
    decreases s.len(),
{
    if s.len() > 0 {
        if p(s.last()) {
            assert(p(s[s.len() - 1]));
        } else {
            lemma_where_one_rev(s.drop_last(), p);
            let i = choose|i: int| 0 <= i < s.drop_last().len() && p(#[trigger] s.drop_last()[i]);
            assert(p(s[i]));
        }
    }
}

/// A selection of two or more elements exhibits two distinct positions
/// satisfying the predicate.
pub proof fn lemma_where_two_rev<A>(s: Seq<A>, p: spec_fn(A) -> bool)
    requires
        seq_where(s, p).len() >= 2,
    ensures
        exists|i: int, j: int| 0 <= i < j < s.len() && p(#[trigger] s[i]) && p(#[trigger] s[j]),
    decreases s.len(),
{
    lemma_where_len(s, p);
    if p(s.last()) {
        lemma_where_one_rev(s.drop_last(), p);
        let i = choose|i: int| 0 <= i < s.drop_last().len() && p(#[trigger] s.drop_last()[i]);
        assert(p(s[i]));
        assert(p(s[s.len() - 1]));
    } else {
        lemma_where_two_rev(s.drop_last(), p);
        let (i, j) = choose|i: int, j: int|
            0 <= i < j < s.drop_last().len() && p(#[trigger] s.drop_last()[i]) && p(
                #[trigger] s.drop_last()[j],
            );
        assert(p(s[i]));
        assert(p(s[j]));
    }
}

/// Selecting twice is selecting by the conjunction.
pub proof fn lemma_where_compose<A>(
    s: Seq<A>,
    p: spec_fn(A) -> bool,
    q: spec_fn(A) -> bool,
    r: spec_fn(A) -> bool,
)
    requires
        forall|a: A| #[trigger] r(a) == (p(a) && q(a)),
    ensures
        seq_where(seq_where(s, p), q) == seq_where(s, r),
    decreases s.len(),
{
    if s.len() == 0 {
        assert(seq_where(seq_where(s, p), q) =~= seq_where(s, r));
    } else {
        lemma_where_compose(s.drop_last(), p, q, r);
        if p(s.last()) {
            lemma_where_push(seq_where(s.drop_last(), p), s.last(), q);
        }
    }
}

} // verus!
