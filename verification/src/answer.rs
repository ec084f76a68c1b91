//! What a search owes: which documents, with which scores, in which order.
use crate::effort::joins_lists;
use crate::matching;
use crate::query::Query;
use crate::ranking;
use crate::ranking::RankedDoc;
use crate::scorer;
use crate::scorer::{Part, Scorer};
use crate::scoring;
use crate::snapshot::Snapshot;
use vstd::prelude::*;

verus! {

/// A search: where, for what, and how documents are scored.
pub struct Frame {
    pub snapshot: Snapshot,
    pub query: Query,
    /// The terms that count, by ordinal.
    pub terms: Seq<Seq<char>>,
    /// Whether documents without a term that counts can be found too.
    pub all: bool,
    /// Whether scores are functional and pruning by bounds loses nothing.
    pub sure: bool,
    /// Which score the parts of a document give.
    pub scored: spec_fn(Seq<Part>, u32) -> bool,
}

impl Frame {
    /// The document at this place holds a term that counts.
    pub open spec fn holds_term(self, segment: int, docid: int) -> bool {
        exists|k: int|
            0 <= k < self.terms.len() && self.snapshot.segments@[segment].holds(
                docid,
                #[trigger] self.terms[k],
            )
    }

    /// The document at this place holds every term that counts.
    pub open spec fn holds_all(self, segment: int, docid: int) -> bool {
        forall|k: int|
            0 <= k < self.terms.len() ==> self.snapshot.segments@[segment].holds(
                docid,
                #[trigger] self.terms[k],
            )
    }

    /// The document at this place is to be found.
    pub open spec fn candidate(self, segment: int, docid: int) -> bool {
        &&& self.snapshot.live(segment, docid)
        &&& matching::matches(self.query, self.snapshot.segments@[segment].document(docid))
        &&& self.all || self.holds_term(segment, docid)
    }

    pub open spec fn candidates(self) -> spec_fn(int, int) -> bool {
        |segment: int, docid: int| self.candidate(segment, docid)
    }

    /// The documents of one segment that are to be found.
    pub open spec fn found_in(self, segment: int) -> spec_fn(int) -> bool {
        |docid: int| self.candidate(segment, docid)
    }

    /// The documents of one segment that hold a term that counts.
    pub open spec fn holding_any(self, segment: int) -> spec_fn(int) -> bool {
        |docid: int| self.holds_term(segment, docid)
    }

    /// The documents of one segment that hold every term that counts.
    pub open spec fn holding_all(self, segment: int) -> spec_fn(int) -> bool {
        |docid: int| self.holds_all(segment, docid)
    }

    /// The document at this place can have this score.
    pub open spec fn has_score(self, segment: int, docid: int, score: u32) -> bool {
        (self.scored)(self.snapshot.segments@[segment].parts(self.terms, docid), score)
    }

    /// The document at this place with this score.
    pub open spec fn entry(self, segment: int, docid: int, score: u32) -> RankedDoc {
        RankedDoc {
            segment: segment as usize,
            docid: docid as u32,
            rowid: self.snapshot.doc(segment, docid).rowid,
            score,
        }
    }

    /// The frame is that of a well-formed snapshot, and its promises hold.
    pub open spec fn wf(self) -> bool {
        &&& self.snapshot.wf()
        &&& self.snapshot.ordered()
        &&& self.snapshot.scoring_terms(self.query, self.terms)
        &&& self.sure ==> self.functional()
    }

    /// The same parts give one score.
    pub open spec fn functional(self) -> bool {
        forall|parts: Seq<Part>, a: u32, b: u32|
            #![trigger (self.scored)(parts, a), (self.scored)(parts, b)]
            (self.scored)(parts, a) && (self.scored)(parts, b) ==> a == b
    }

    /// Each entry is a document to be found, under its rowid and score, and none
    /// stands twice. While there is room for entries, nothing is pruned and the
    /// scores are right whatever the bounds are.
    pub open spec fn sound(self, ranked: Seq<RankedDoc>, limit: int) -> bool {
        &&& forall|i: int|
            0 <= i < ranked.len() ==> {
                let entry = #[trigger] ranked[i];
                &&& self.candidate(entry.segment as int, entry.docid as int)
                &&& entry.rowid == self.snapshot.doc(
                    entry.segment as int,
                    entry.docid as int,
                ).rowid
                &&& self.sure || ranked.len() < limit ==> self.has_score(
                    entry.segment as int,
                    entry.docid as int,
                    entry.score,
                )
            }
        &&& forall|i: int, j: int|
            0 <= i < j < ranked.len() ==> !ranking::same_place(
                #[trigger] ranked[i],
                #[trigger] ranked[j],
            )
    }

    /// The document at this place is among the entries, or they are full without
    /// it and all rank before it.
    pub open spec fn settled(
        self,
        ranked: Seq<RankedDoc>,
        limit: int,
        segment: int,
        docid: int,
    ) -> bool {
        self.candidate(segment, docid) ==> listed(ranked, segment, docid) || (ranked.len() == limit
            && (self.sure ==> forall|score: u32| #[trigger]
            self.has_score(segment, docid, score) ==> ranking::ranks_before(
                ranked.last(),
                self.entry(segment, docid, score),
            )))
    }

    /// The entries are what a search with this limit owes.
    pub open spec fn answer(self, ranked: Seq<RankedDoc>, limit: int) -> bool {
        &&& ranked.len() <= limit
        &&& ranking::ranked_order(ranked)
        &&& self.sound(ranked, limit)
        &&& forall|s: int, d: int|
            self.snapshot.in_range(s, d) ==> #[trigger] self.settled(ranked, limit, s, d)
    }

    /// What was settled or dominated is so still.
    pub open spec fn advances(
        self,
        before: Seq<RankedDoc>,
        after: Seq<RankedDoc>,
        limit: int,
    ) -> bool {
        &&& forall|s: int, d: int|
            self.settled(before, limit, s, d) ==> #[trigger] self.settled(after, limit, s, d)
        &&& forall|s: int, d: int|
            self.dominated(before, limit, s, d) ==> #[trigger] self.dominated(after, limit, s, d)
    }

    /// The entries are full, and whatever of the document's terms were counted,
    /// the score would stay below the last entry's.
    pub open spec fn dominated(
        self,
        ranked: Seq<RankedDoc>,
        limit: int,
        segment: int,
        docid: int,
    ) -> bool {
        &&& ranked.len() == limit
        &&& self.sure ==> forall|parts: Seq<Part>, score: u32|
            self.snapshot.segments@[segment].some_parts(self.terms, docid, parts) && #[trigger] (
            self.scored)(parts, score) ==> ranking::score_key(score) < ranking::score_key(
                ranked.last().score,
            )
    }
}

/// Whether the document at this place is among the entries.
pub open spec fn listed(ranked: Seq<RankedDoc>, segment: int, docid: int) -> bool {
    exists|i: int|
        0 <= i < ranked.len() && (#[trigger] ranked[i]).segment == segment && ranked[i].docid
            == docid
}

impl Snapshot {
    /// Nothing is skipped by bounds, or the bounds are bounds.
    pub open spec fn prunes_safely<S: Scorer>(
        self,
        query: Query,
        terms: Seq<Seq<char>>,
        scorer: &S,
    ) -> bool {
        joins_lists(query, terms.len()) || scorer::admissible(scorer, self, terms)
    }

    /// For the terms that count in this query nothing is lost to bounds.
    pub open spec fn bounds_hold<S: Scorer>(self, query: Query, scorer: &S) -> bool {
        forall|terms: Seq<Seq<char>>| #[trigger]
            self.scoring_terms(query, terms) ==> self.prunes_safely(query, terms, scorer)
    }

    /// The frame of a search with this scorer. Where a match need not hold a term
    /// that counts, every live document is looked at.
    pub open spec fn frame<S: Scorer>(
        self,
        query: Query,
        terms: Seq<Seq<char>>,
        exhaustive: bool,
        scorer: &S,
    ) -> Frame {
        let all = exhaustive || terms.len() == 0 || !scoring::anchored(query);
        Frame {
            snapshot: self,
            query,
            terms,
            all,
            sure: scorer::functional(scorer) && (all || self.prunes_safely(query, terms, scorer)),
            scored: scorer::scoring(scorer),
        }
    }

    /// The frame of a search keeps its promises.
    pub proof fn lemma_frame_wf<S: Scorer>(
        self,
        query: Query,
        terms: Seq<Seq<char>>,
        exhaustive: bool,
        scorer: &S,
    )
        requires
            self.wf(),
            self.ordered(),
            self.scoring_terms(query, terms),
        ensures
            self.frame(query, terms, exhaustive, scorer).wf(),
            scorer::functional(scorer) ==> self.frame(
                query,
                terms,
                exhaustive,
                scorer,
            ).functional(),
    {
        let frame = self.frame(query, terms, exhaustive, scorer);
        if scorer::functional(scorer) {
            assert forall|parts: Seq<Part>, a: u32, b: u32|
                #![trigger (frame.scored)(parts, a), (frame.scored)(parts, b)]
                (frame.scored)(parts, a) && (frame.scored)(parts, b) implies a == b by {
                scorer::functional_scores_agree(scorer, parts, a, b);
            }
        }
    }
}

/// What a push of one document did to the entries.
pub open spec fn pushed(before: Seq<RankedDoc>, after: Seq<RankedDoc>, limit: int, hit: RankedDoc) -> bool {
    &&& before.len() <= limit
    &&& after.len() <= limit
    &&& ranking::ranked_order(before)
    &&& ranking::ranked_order(after)
    &&& before.len() == limit ==> after.len() == limit
    &&& forall|entry: RankedDoc| #[trigger]
        after.contains(entry) ==> before.contains(entry) || entry == hit
    &&& forall|entry: RankedDoc|
        #[trigger] before.contains(entry) && !after.contains(entry) ==> after.len() == limit
            && ranking::ranks_before(after.last(), entry)
    &&& !after.contains(hit) ==> after.len() == limit && ranking::ranks_before(after.last(), hit)
    &&& before.len() == limit && ranking::ranks_before(before.last(), hit) ==> after == before
}

/// A push never lowers the last entry of a full list.
proof fn lemma_last_improves(
    before: Seq<RankedDoc>,
    after: Seq<RankedDoc>,
    limit: int,
    hit: RankedDoc,
)
    requires
        pushed(before, after, limit, hit),
        before.len() == limit,
        limit > 0,
    ensures
        after.len() == limit,
        after.last() == before.last() || ranking::ranks_before(after.last(), before.last()),
        ranking::score_key(after.last().score) >= ranking::score_key(before.last().score),
{
    let (old_last, new_last) = (before.last(), after.last());
    assert(before[before.len() - 1] == old_last);
    assert(after[after.len() - 1] == new_last);
    assert(before.contains(old_last));
    if after.contains(old_last) && new_last != old_last {
        let i = choose|i: int| 0 <= i < after.len() && after[i] == old_last;
        assert(ranking::ranks_before(after[i], after[after.len() - 1]));
        assert(after.contains(new_last));
        if before.contains(new_last) {
            let j = choose|j: int| 0 <= j < before.len() && before[j] == new_last;
            if j < before.len() - 1 {
                assert(ranking::ranks_before(before[j], before[before.len() - 1]));
            }
            ranking::rank_laws(old_last, new_last, old_last);
        } else {
            assert(new_last == hit);
            assert(after == before);
        }
    }
}

impl Frame {
    /// Settled documents stay settled when another is pushed, dominated ones stay
    /// dominated, and the pushed one becomes settled.
    pub proof fn lemma_push(
        self,
        before: Seq<RankedDoc>,
        after: Seq<RankedDoc>,
        limit: int,
        hit: RankedDoc,
    )
        requires
            self.wf(),
            limit > 0,
            self.sound(before, limit),
            pushed(before, after, limit, hit),
            !listed(before, hit.segment as int, hit.docid as int),
            self.candidate(hit.segment as int, hit.docid as int),
            hit.rowid == self.snapshot.doc(hit.segment as int, hit.docid as int).rowid,
            self.sure || before.len() < limit ==> self.has_score(
                hit.segment as int,
                hit.docid as int,
                hit.score,
            )
                || self.dominated(before, limit, hit.segment as int, hit.docid as int) && (
            before.len() == limit ==> ranking::ranks_before(before.last(), hit)),
        ensures
            self.sound(after, limit),
            self.advances(before, after, limit),
            self.settled(after, limit, hit.segment as int, hit.docid as int),
    {
        assert forall|i: int| 0 <= i < after.len() implies {
            let entry = #[trigger] after[i];
            &&& self.candidate(entry.segment as int, entry.docid as int)
            &&& entry.rowid == self.snapshot.doc(entry.segment as int, entry.docid as int).rowid
            &&& self.sure || after.len() < limit ==> self.has_score(
                entry.segment as int,
                entry.docid as int,
                entry.score,
            )
        } by {
            let entry = after[i];
            assert(after.contains(entry));
            if before.contains(entry) {
                let j = choose|j: int| 0 <= j < before.len() && before[j] == entry;
                assert(before[j] == entry);
            } else {
                assert(entry == hit);
            }
        }
        assert forall|i: int, j: int| 0 <= i < j < after.len() implies !ranking::same_place(
            #[trigger] after[i],
            #[trigger] after[j],
        ) by {
            let (left, right) = (after[i], after[j]);
            assert(after.contains(left) && after.contains(right));
            ranking::rank_laws(left, right, left);
            assert(left != right);
            if ranking::same_place(left, right) {
                if before.contains(left) && before.contains(right) {
                    let a = choose|a: int| 0 <= a < before.len() && before[a] == left;
                    let b = choose|b: int| 0 <= b < before.len() && before[b] == right;
                    if a < b {
                        assert(!ranking::same_place(before[a], before[b]));
                    } else {
                        assert(!ranking::same_place(before[b], before[a]));
                    }
                } else if before.contains(left) {
                    let a = choose|a: int| 0 <= a < before.len() && before[a] == left;
                    assert(before[a].segment == hit.segment);
                } else {
                    let b = choose|b: int| 0 <= b < before.len() && before[b] == right;
                    assert(before[b].segment == hit.segment);
                }
            }
        }
        assert forall|s: int, d: int| self.settled(before, limit, s, d) implies #[trigger] self.settled(
            after,
            limit,
            s,
            d,
        ) by {
            self.lemma_settled_stays(before, after, limit, hit, s, d);
        }
        assert forall|s: int, d: int| self.dominated(before, limit, s, d) implies #[trigger] self.dominated(
            after,
            limit,
            s,
            d,
        ) by {
            lemma_last_improves(before, after, limit, hit);
        }
        let (s, d) = (hit.segment as int, hit.docid as int);
        if after.contains(hit) {
            let i = choose|i: int| 0 <= i < after.len() && after[i] == hit;
            assert(after[i].segment == s);
        } else if self.sure {
            if self.has_score(s, d, hit.score) {
                assert forall|score: u32| #[trigger] self.has_score(
                    s,
                    d,
                    score,
                ) implies ranking::ranks_before(after.last(), self.entry(s, d, score)) by {
                    assert(score == hit.score);
                    assert(self.entry(s, d, score) == hit);
                }
            } else {
                self.lemma_dominated_settled(before, limit, s, d);
                self.lemma_settled_stays(before, after, limit, hit, s, d);
            }
        }
    }

    /// A dominated document is settled.
    pub proof fn lemma_dominated_settled(
        self,
        ranked: Seq<RankedDoc>,
        limit: int,
        segment: int,
        docid: int,
    )
        requires
            self.wf(),
            self.dominated(ranked, limit, segment, docid),
        ensures
            self.settled(ranked, limit, segment, docid),
    {
        if self.sure {
            let built = self.snapshot.segments@[segment];
            built.lemma_parts(self.terms, docid);
            assert forall|score: u32| #[trigger] self.has_score(
                segment,
                docid,
                score,
            ) implies ranking::ranks_before(
                ranked.last(),
                self.entry(segment, docid, score),
            ) by {
                assert((self.scored)(built.parts(self.terms, docid), score));
            }
        }
    }

    proof fn lemma_settled_stays(
        self,
        before: Seq<RankedDoc>,
        after: Seq<RankedDoc>,
        limit: int,
        hit: RankedDoc,
        s: int,
        d: int,
    )
        requires
            self.wf(),
            limit > 0,
            self.sound(before, limit),
            pushed(before, after, limit, hit),
            self.settled(before, limit, s, d),
        ensures
            self.settled(after, limit, s, d),
    {
        if self.candidate(s, d) {
            if listed(before, s, d) {
                let i = choose|i: int|
                    0 <= i < before.len() && (#[trigger] before[i]).segment == s && before[i].docid
                        == d;
                let entry = before[i];
                assert(before.contains(entry));
                if after.contains(entry) {
                    let j = choose|j: int| 0 <= j < after.len() && after[j] == entry;
                    assert(after[j].segment == s);
                } else if self.sure {
                    assert forall|score: u32| #[trigger] self.has_score(
                        s,
                        d,
                        score,
                    ) implies ranking::ranks_before(after.last(), self.entry(s, d, score)) by {
                        assert(self.has_score(s, d, entry.score));
                        assert(score == entry.score);
                        assert(self.entry(s, d, score) == entry);
                    }
                }
            } else {
                lemma_last_improves(before, after, limit, hit);
                if self.sure {
                    assert forall|score: u32| #[trigger] self.has_score(
                        s,
                        d,
                        score,
                    ) implies ranking::ranks_before(after.last(), self.entry(s, d, score)) by {
                        ranking::rank_laws(after.last(), before.last(), self.entry(s, d, score));
                    }
                }
            }
        }
    }
}

} // verus!
