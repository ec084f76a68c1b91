//! Where pruning by bounds loses nothing: scorers that compute exactly.
use crate::ranking;
use crate::scorer;
use crate::scorer::{Part, Scorer};
use crate::segment::Segment;
use crate::snapshot::Snapshot;
use vstd::prelude::*;

verus! {

/// What the bits that a scorer handles are worth.
pub struct Worth {
    pub score: spec_fn(u32) -> int,
    pub bound: spec_fn(u32) -> int,
    pub total: spec_fn(u64) -> int,
}

impl Worth {
    /// What the bounds are worth together.
    pub open spec fn sum(self, bounds: Seq<u32>) -> int
        decreases bounds.len(),
    {
        if bounds.len() == 0 {
            0
        } else {
            self.sum(bounds.drop_last()) + (self.bound)(bounds.last())
        }
    }
}

/// Scores are compared by what they are worth, what a term adds is worth no more
/// than a bound on it, a bound is worth something or nothing, and a total no less
/// than its bounds. A total that does not reach a score is worth less.
pub open spec fn computes_exactly<S: Scorer>(scorer: &S, worth: Worth) -> bool {
    &&& forall|a: u32, b: u32|
        #![trigger (worth.score)(a), (worth.score)(b)]
        (worth.score)(a) < (worth.score)(b) ==> ranking::score_key(a) < ranking::score_key(b)
    &&& forall|score: u32| #[trigger]
        call_ensures(S::start, (scorer,), score) ==> (worth.score)(score) <= (worth.total)(0)
    &&& forall|part: Part, before: u32, after: u32, bound: u32|
        #![trigger call_ensures(S::add_term, (scorer, before, part.ordinal, part.freq, part.doc_len), after), scorer::bounds_part(scorer, part, bound)]
        call_ensures(
            S::add_term,
            (scorer, before, part.ordinal, part.freq, part.doc_len),
            after,
        ) && scorer::bounds_part(scorer, part, bound) ==> (worth.score)(after) <= (worth.score)(
            before,
        ) + (worth.bound)(bound)
    &&& forall|
        ordinal: usize,
        list_tf: u32,
        list_len: u32,
        max_tf: u32,
        min_doc_len: u32,
        bound: u32,
    | #[trigger]
        call_ensures(
            S::bound,
            (scorer, ordinal, list_tf, list_len, max_tf, min_doc_len),
            bound,
        ) ==> (worth.bound)(bound) >= 0
    &&& forall|before: u64, bound: u32, after: u64| #[trigger]
        call_ensures(S::join, (scorer, before, bound), after) ==> (worth.total)(before) + (
        worth.bound)(bound) <= (worth.total)(after)
    &&& forall|total: u64, score: u32| #[trigger]
        call_ensures(S::reaches, (scorer, total, score), false) ==> (worth.total)(total) < (
        worth.score)(score)
    &&& forall|total: u64, score: u32| #[trigger]
        call_ensures(S::below, (scorer, total, score), true) ==> (worth.total)(total) < (
        worth.score)(score)
}

/// A total is worth no less than its bounds.
proof fn lemma_joined<S: Scorer>(scorer: &S, worth: Worth, bounds: Seq<u32>, total: u64)
    requires
        computes_exactly(scorer, worth),
        scorer::joined(scorer, bounds, total),
    ensures
        (worth.total)(0) + worth.sum(bounds) <= (worth.total)(total),
    decreases bounds.len(),
{
    if bounds.len() > 0 {
        let before = choose|before: u64|
            scorer::joined(scorer, bounds.drop_last(), before) && #[trigger] call_ensures(
                S::join,
                (scorer, before, bounds.last()),
                total,
            );
        lemma_joined(scorer, worth, bounds.drop_last(), before);
    }
}

/// A score is worth no more than bounds on its parts.
proof fn lemma_scored<S: Scorer>(
    scorer: &S,
    worth: Worth,
    parts: Seq<Part>,
    score: u32,
    chosen: Seq<u32>,
)
    requires
        computes_exactly(scorer, worth),
        scorer::scored(scorer, parts, score),
        chosen.len() == parts.len(),
        forall|i: int|
            0 <= i < parts.len() ==> scorer::bounds_part(
                scorer,
                #[trigger] parts[i],
                chosen[i],
            ),
    ensures
        (worth.score)(score) <= (worth.total)(0) + worth.sum(chosen),
    decreases parts.len(),
{
    if parts.len() > 0 {
        let part = parts.last();
        let before = choose|before: u32|
            scorer::scored(scorer, parts.drop_last(), before) && #[trigger] call_ensures(
                S::add_term,
                (scorer, before, part.ordinal, part.freq, part.doc_len),
                score,
            );
        let (fewer, rest) = (parts.drop_last(), chosen.drop_last());
        assert forall|i: int| 0 <= i < fewer.len() implies scorer::bounds_part(
            scorer,
            #[trigger] fewer[i],
            rest[i],
        ) by {
            assert(fewer[i] == parts[i]);
        }
        lemma_scored(scorer, worth, fewer, before, rest);
        assert(scorer::bounds_part(scorer, parts[parts.len() - 1], chosen[parts.len() - 1]));
    }
}

/// A bound and the others are worth what all are.
proof fn lemma_sum_without(worth: Worth, bounds: Seq<u32>, index: int)
    requires
        0 <= index < bounds.len(),
    ensures
        worth.sum(bounds) == worth.sum(bounds.remove(index)) + (worth.bound)(bounds[index]),
    decreases bounds.len(),
{
    let others = bounds.remove(index);
    if index == bounds.len() - 1 {
        assert(others =~= bounds.drop_last());
    } else {
        lemma_sum_without(worth, bounds.drop_last(), index);
        assert(others.drop_last() =~= bounds.drop_last().remove(index));
        assert(others.last() == bounds.last());
    }
}

/// Some of the bounds are worth no more than all of them.
proof fn lemma_some_of(worth: Worth, bounds: Seq<u32>, via: Seq<int>, chosen: Seq<u32>)
    requires
        chosen.len() == via.len(),
        forall|i: int| 0 <= i < bounds.len() ==> (worth.bound)(#[trigger] bounds[i]) >= 0,
        forall|i: int|
            0 <= i < via.len() ==> 0 <= #[trigger] via[i] < bounds.len() && bounds[via[i]]
                == chosen[i],
        forall|i: int, j: int|
            0 <= i < j < via.len() ==> #[trigger] via[i] != #[trigger] via[j],
    ensures
        worth.sum(chosen) <= worth.sum(bounds),
    decreases bounds.len() + via.len(),
{
    if via.len() > 0 {
        let last = via.len() - 1;
        let index = via[last];
        let others = bounds.remove(index);
        let fewer = Seq::new(
            last as nat,
            |i: int|
                if via[i] > index {
                    via[i] - 1
                } else {
                    via[i]
                },
        );
        lemma_sum_without(worth, bounds, index);
        assert forall|i: int| 0 <= i < others.len() implies (worth.bound)(#[trigger] others[i])
            >= 0 by {
            assert(others[i] == if i < index {
                bounds[i]
            } else {
                bounds[i + 1]
            });
        }
        assert forall|i: int| 0 <= i < fewer.len() implies 0 <= #[trigger] fewer[i]
            < others.len() && others[fewer[i]] == chosen.drop_last()[i] by {
            assert(via[i] != via[last]);
            assert(0 <= via[i] < bounds.len());
        }
        assert forall|i: int, j: int| 0 <= i < j < fewer.len() implies #[trigger] fewer[i]
            != #[trigger] fewer[j] by {
            assert(via[i] != via[j] && via[i] != via[last] && via[j] != via[last]);
        }
        lemma_some_of(worth, others, fewer, chosen.drop_last());
        assert(chosen.last() == bounds[index]);
    } else {
        lemma_sum_positive(worth, bounds);
    }
}

proof fn lemma_sum_positive(worth: Worth, bounds: Seq<u32>)
    requires
        forall|i: int| 0 <= i < bounds.len() ==> (worth.bound)(#[trigger] bounds[i]) >= 0,
    ensures
        worth.sum(bounds) >= 0,
    decreases bounds.len(),
{
    if bounds.len() > 0 {
        let fewer = bounds.drop_last();
        assert forall|i: int| 0 <= i < fewer.len() implies (worth.bound)(#[trigger] fewer[i])
            >= 0 by {
            assert(fewer[i] == bounds[i]);
        }
        lemma_sum_positive(worth, fewer);
        assert((worth.bound)(bounds[bounds.len() - 1]) >= 0);
    }
}

/// A bound that the scorer gave is worth something or nothing.
proof fn lemma_given<S: Scorer>(
    scorer: &S,
    worth: Worth,
    built: &Segment,
    terms: Seq<Seq<char>>,
    bounds: Seq<u32>,
)
    requires
        computes_exactly(scorer, worth),
        scorer::bounds_given(scorer, built, terms, bounds),
    ensures
        forall|i: int| 0 <= i < bounds.len() ==> (worth.bound)(#[trigger] bounds[i]) >= 0,
{
    assert forall|i: int| 0 <= i < bounds.len() implies (worth.bound)(#[trigger] bounds[i])
        >= 0 by {
        assert(scorer::bounds_some_term(scorer, built, terms, bounds[i]));
        let ordinal = choose|ordinal: usize|
            scorer::bounds_term(scorer, built, terms, ordinal, bounds[i]);
        assert(scorer::bounds_list(
            scorer,
            built.terms.lookup(terms[ordinal as int])->0,
            ordinal,
            bounds[i],
        ));
    }
}

/// A scorer that computes exactly has bounds that are bounds, for every snapshot and
/// all terms: pruning by them loses nothing.
pub proof fn exact_bounds_are_admissible<S: Scorer>(
    scorer: &S,
    worth: Worth,
    snapshot: Snapshot,
    terms: Seq<Seq<char>>,
)
    requires
        computes_exactly(scorer, worth),
    ensures
        scorer::admissible(scorer, snapshot, terms),
{
    reveal(scorer::admissible);
    assert forall|
        segment: int,
        docid: int,
        parts: Seq<Part>,
        score: u32,
        bounds: Seq<u32>,
        via: Seq<int>,
        total: u64,
        theta: u32,
    |
        #![trigger snapshot.segments@[segment].some_parts(terms, docid, parts), scorer::scored(scorer, parts, score), scorer::covered(scorer, parts, bounds, via), scorer::joined(scorer, bounds, total), ranking::score_key(theta)]
        scorer::scored(scorer, parts, score) && scorer::covered(scorer, parts, bounds, via)
            && scorer::joined(scorer, bounds, total) && scorer::bounds_given(
            scorer,
            &snapshot.segments@[segment],
            terms,
            bounds,
        ) && (call_ensures(S::reaches, (scorer, total, theta), false) || call_ensures(
            S::below,
            (scorer, total, theta),
            true,
        )) implies ranking::score_key(score) < ranking::score_key(theta) by {
        let chosen = Seq::new(parts.len(), |i: int| bounds[via[i]]);
        assert forall|i: int| 0 <= i < parts.len() implies scorer::bounds_part(
            scorer,
            #[trigger] parts[i],
            chosen[i],
        ) by {
            assert(0 <= via[i] < bounds.len());
        }
        lemma_scored(scorer, worth, parts, score, chosen);
        lemma_given(scorer, worth, &snapshot.segments@[segment], terms, bounds);
        lemma_some_of(worth, bounds, via, chosen);
        lemma_joined(scorer, worth, bounds, total);
        assert((worth.score)(score) < (worth.score)(theta));
    }
}

} // verus!
