//! Facts about filtering sequences.
use vstd::prelude::*;

verus! {

broadcast use vstd::seq_lib::group_seq_properties;

/// Filtering a prefix one element longer.
pub proof fn lemma_filter_take_step<A>(s: Seq<A>, pred: spec_fn(A) -> bool, i: int)
    requires
        0 <= i < s.len(),
    ensures
        s.take(i + 1).filter(pred) == (if pred(s[i]) {
            s.take(i).filter(pred).push(s[i])
        } else {
            s.take(i).filter(pred)
        }),
{
    reveal(Seq::filter);
    assert(s.take(i + 1).drop_last() =~= s.take(i));
    assert(s.take(i + 1).last() == s[i]);
}

/// Every element of a filtered sequence comes from the sequence and passes
/// the filter.
pub proof fn lemma_filter_members<A>(s: Seq<A>, pred: spec_fn(A) -> bool)
    ensures
        forall|j: int| 0 <= j < s.filter(pred).len() ==> #[trigger] pred(s.filter(pred)[j]) && s.contains(s.filter(pred)[j]),
        forall|j: int| 0 <= j < s.len() && pred(s[j]) ==> #[trigger] s.filter(pred).contains(s[j]),
{
    assert forall|j: int| 0 <= j < s.filter(pred).len() implies #[trigger] pred(s.filter(pred)[j]) && s.contains(s.filter(pred)[j]) by {
        s.lemma_filter_pred(pred, j);
        assert(s.filter(pred).contains(s.filter(pred)[j]));
        s.lemma_filter_contains_rev(pred, s.filter(pred)[j]);
    }
    assert forall|j: int| 0 <= j < s.len() && pred(s[j]) implies #[trigger] s.filter(pred).contains(s[j]) by {
        s.lemma_filter_contains(pred, j);
    }
}

/// Filtering keeps a sequence free of duplicates.
pub proof fn lemma_filter_no_duplicates<A>(s: Seq<A>, pred: spec_fn(A) -> bool)
    requires
        s.no_duplicates(),
    ensures
        s.filter(pred).no_duplicates(),
    decreases s.len(),
{
    reveal(Seq::filter);
    if s.len() > 0 {
        let init = s.drop_last();
        assert(init.no_duplicates());
        lemma_filter_no_duplicates(init, pred);
        if pred(s.last()) {
            let f = init.filter(pred);
            assert forall|j: int| 0 <= j < f.len() implies #[trigger] f[j] != s.last() by {
                lemma_filter_members(init, pred);
                assert(init.contains(f[j]));
                let q = choose|q: int| 0 <= q < init.len() && init[q] == f[j];
                assert(s[q] == init[q]);
            }
        }
    }
}

/// Filtering with two predicates one after the other filters with both.
pub proof fn lemma_filter_filter<A>(s: Seq<A>, p: spec_fn(A) -> bool, q: spec_fn(A) -> bool)
    ensures
        s.filter(p).filter(q) == s.filter(|x: A| p(x) && q(x)),
    decreases s.len(),
{
    reveal(Seq::filter);
    if s.len() > 0 {
        lemma_filter_filter(s.drop_last(), p, q);
        let pq = |x: A| p(x) && q(x);
        if p(s.last()) {
            let f = s.drop_last().filter(p).push(s.last());
            assert(f.drop_last() =~= s.drop_last().filter(p));
            assert(s.filter(p) == f);
        }
    }
}

/// Two predicates that agree on the elements of a sequence filter it alike.
pub proof fn lemma_filter_congruent<A>(s: Seq<A>, p: spec_fn(A) -> bool, q: spec_fn(A) -> bool)
    requires
        forall|j: int| 0 <= j < s.len() ==> p(#[trigger] s[j]) == q(s[j]),
    ensures
        s.filter(p) == s.filter(q),
    decreases s.len(),
{
    reveal(Seq::filter);
    if s.len() > 0 {
        assert forall|j: int| 0 <= j < s.drop_last().len() implies p(#[trigger] s.drop_last()[j]) == q(s.drop_last()[j]) by {
            assert(s.drop_last()[j] == s[j]);
        }
        lemma_filter_congruent(s.drop_last(), p, q);
        assert(p(s[s.len() - 1]) == q(s[s.len() - 1]));
    }
}

/// A predicate that holds of every element keeps the whole sequence.
pub proof fn lemma_filter_all<A>(s: Seq<A>, p: spec_fn(A) -> bool)
    requires
        forall|j: int| 0 <= j < s.len() ==> p(#[trigger] s[j]),
    ensures
        s.filter(p) == s,
    decreases s.len(),
{
    reveal(Seq::filter);
    if s.len() > 0 {
        assert forall|j: int| 0 <= j < s.drop_last().len() implies p(#[trigger] s.drop_last()[j]) by {
            assert(s.drop_last()[j] == s[j]);
        }
        lemma_filter_all(s.drop_last(), p);
        assert(s.drop_last().push(s.last()) =~= s);
    }
}

} // verus!
