//! Facts about filtered sequences that the store's invariant rests on.

use vstd::prelude::*;

verus! {

/// Filtering keeps the order of the elements: what holds of every ordered
/// pair of the sequence holds of every ordered pair of what is kept.
pub proof fn lemma_filter_keeps_pairs<A>(
    s: Seq<A>,
    pred: spec_fn(A) -> bool,
    rel: spec_fn(A, A) -> bool,
)
    requires
        forall|i: int, j: int| 0 <= i < j < s.len() ==> #[trigger] rel(s[i], s[j]),
    ensures
        forall|i: int, j: int|
            0 <= i < j < s.filter(pred).len() ==> #[trigger] rel(
                s.filter(pred)[i],
                s.filter(pred)[j],
            ),
    decreases s.len(),
{
    reveal(Seq::filter);
    if s.len() > 0 {
        let rest = s.drop_last();
        assert forall|i: int, j: int| 0 <= i < j < rest.len() implies #[trigger] rel(
            rest[i],
            rest[j],
        ) by {
            assert(rel(s[i], s[j]));
        }
        lemma_filter_keeps_pairs(rest, pred, rel);
        let kept = rest.filter(pred);
        let out = s.filter(pred);
        if pred(s.last()) {
            assert forall|i: int, j: int| 0 <= i < j < out.len() implies #[trigger] rel(
                out[i],
                out[j],
            ) by {
                if j == kept.len() {
                    assert(kept.contains(kept[i]));
                    rest.lemma_filter_contains_rev(pred, kept[i]);
                    let k = choose|k: int| 0 <= k < rest.len() && rest[k] == kept[i];
                    assert(rel(s[k], s[s.len() - 1]));
                } else {
                    assert(rel(kept[i], kept[j]));
                }
            }
        }
    }
}

/// What is kept by a filter: exactly the elements that pass it.
pub proof fn lemma_filter_members<A>(s: Seq<A>, pred: spec_fn(A) -> bool)
    ensures
        forall|k: int|
            0 <= k < s.filter(pred).len() ==> pred(#[trigger] s.filter(pred)[k]) && s.contains(
                s.filter(pred)[k],
            ),
        forall|i: int| 0 <= i < s.len() && pred(s[i]) ==> s.filter(pred).contains(#[trigger] s[i]),
        s.filter(pred).len() <= s.len(),
{
    s.lemma_filter_len(pred);
    assert forall|k: int| 0 <= k < s.filter(pred).len() implies pred(#[trigger] s.filter(pred)[k])
        && s.contains(s.filter(pred)[k]) by {
        s.lemma_filter_pred(pred, k);
        assert(s.filter(pred).contains(s.filter(pred)[k]));
        s.lemma_filter_contains_rev(pred, s.filter(pred)[k]);
    }
    assert forall|i: int| 0 <= i < s.len() && pred(s[i]) implies s.filter(pred).contains(
        #[trigger] s[i],
    ) by {
        s.lemma_filter_contains(pred, i);
    }
}

/// A filter that every element passes keeps the sequence as it is.
pub proof fn lemma_filter_all<A>(s: Seq<A>, pred: spec_fn(A) -> bool)
    requires
        forall|i: int| 0 <= i < s.len() ==> pred(#[trigger] s[i]),
    ensures
        s.filter(pred) == s,
    decreases s.len(),
{
    reveal(Seq::filter);
    if s.len() > 0 {
        let rest = s.drop_last();
        assert forall|i: int| 0 <= i < rest.len() implies pred(#[trigger] rest[i]) by {
            assert(rest[i] == s[i]);
        }
        lemma_filter_all(rest, pred);
        assert(rest.push(s.last()) =~= s);
    }
}

/// One more element under a filter: the step of a loop that filters a
/// sequence from the front.
pub proof fn lemma_filter_take_step<A>(s: Seq<A>, pred: spec_fn(A) -> bool, i: int)
    requires
        0 <= i < s.len(),
    ensures
        s.take(i + 1).filter(pred) == if pred(s[i]) {
            s.take(i).filter(pred).push(s[i])
        } else {
            s.take(i).filter(pred)
        },
{
    assert(s.take(i + 1) =~= s.take(i).push(s[i]));
    s.take(i).lemma_filter_push(s[i], pred);
}

} // verus!
