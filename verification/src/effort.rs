//! What a search counts on its way.
use crate::agreement::scoring_terms_unique;
use crate::answer::Frame;
use crate::leapfrog;
use crate::matching;
use crate::query::{Query, SearchStats};
use crate::ranking::TopK;
use crate::segment::Segment;
use crate::snapshot;
use crate::snapshot::Snapshot;
use crate::tally;
use std::sync::Arc;
use vstd::prelude::*;

verus! {

/// A count as far as machine words can tell.
pub open spec fn saturated(count: nat) -> usize {
    if count < usize::MAX {
        count as usize
    } else {
        usize::MAX
    }
}

/// A counter that has counted `more`.
pub open spec fn grown(counter: usize, more: nat) -> usize {
    saturated(counter as nat + more)
}

/// Only live documents are scored, only scored documents are entered, each of them
/// while there is room, and nothing else about the search has changed.
pub open spec fn stats_follow(before: SearchStats, after: SearchStats, top: TopK) -> bool {
    &&& after.segments == before.segments
    &&& after.cache_hit == before.cache_hit
    &&& after.scored_docs <= after.candidate_docs
    &&& top.ranked@.len() <= after.scored_docs
    &&& !top.full() ==> after.scored_docs == top.ranked@.len()
}

/// A conjunction of terms, or a phrase of terms that count once each: the lists of
/// all terms are walked together.
pub open spec fn joins_lists(query: Query, terms: nat) -> bool {
    ||| matching::flat_conjunction(query)
    ||| (query matches Query::Phrase(phrase) && phrase@.len() == terms)
}

/// A disjunction in which one term counts: its list is walked block by block.
pub open spec fn walks_one_list(query: Query, terms: nat) -> bool {
    matching::flat_disjunction(query) && terms == 1
}

/// How many blocks the segment's list of a term has.
pub open spec fn list_blocks(segment: Segment, term: Seq<char>) -> nat {
    match segment.terms.lookup(term) {
        Some(list) => list.blocks@.len(),
        None => 0,
    }
}

/// How many blocks the lists of a term have.
pub open spec fn blocks_of(segments: Seq<Arc<Segment>>, term: Seq<char>) -> nat
    decreases segments.len(),
{
    if segments.len() == 0 {
        0
    } else {
        blocks_of(segments.drop_last(), term) + list_blocks(*segments.last(), term)
    }
}

impl Frame {
    /// The documents that hold a term that counts.
    pub open spec fn any_holders(self) -> spec_fn(int, int) -> bool {
        |segment: int, docid: int| self.holds_term(segment, docid)
    }

    /// The documents that hold every term that counts.
    pub open spec fn all_holders(self) -> spec_fn(int, int) -> bool {
        |segment: int, docid: int| self.holds_all(segment, docid)
    }

    /// What a search of the first segments by postings has counted since `before`.
    /// `full` tells whether the entries are full: while they are not, nothing is
    /// skipped.
    pub open spec fn pruned_effort(
        self,
        before: SearchStats,
        after: SearchStats,
        full: bool,
        done: int,
    ) -> bool {
        let part = self.snapshot.segments@.take(done);
        let one = tally::one();
        if joins_lists(self.query, self.terms.len()) {
            &&& after.candidate_docs == grown(
                before.candidate_docs,
                tally::tally(part, self.all_holders(), one),
            )
            &&& after.scored_docs == grown(
                before.scored_docs,
                tally::tally(part, self.candidates(), one),
            )
            &&& after.posting_blocks == before.posting_blocks
            &&& after.skipped_blocks == grown(
                before.skipped_blocks,
                leapfrog::all_jumps(part, self.terms),
            )
        } else {
            &&& !full ==> after.candidate_docs == grown(
                before.candidate_docs,
                tally::tally(part, self.any_holders(), one),
            )
            &&& !full ==> after.skipped_blocks == before.skipped_blocks
            &&& if walks_one_list(self.query, self.terms.len()) {
                after.posting_blocks == grown(
                    before.posting_blocks,
                    blocks_of(part, self.terms[0]),
                )
            } else {
                !full ==> after.posting_blocks == before.posting_blocks
            }
        }
    }

    /// What the search of one segment by postings adds.
    pub open spec fn segment_effort(
        self,
        before: SearchStats,
        after: SearchStats,
        full: bool,
        segment: int,
    ) -> bool {
        let built = self.snapshot.segments@[segment];
        let docs = built.docs@;
        let one = tally::one();
        if joins_lists(self.query, self.terms.len()) {
            &&& after.candidate_docs == grown(
                before.candidate_docs,
                tally::segment_tally(docs, self.holding_all(segment), one),
            )
            &&& after.scored_docs == grown(
                before.scored_docs,
                tally::segment_tally(docs, self.found_in(segment), one),
            )
            &&& after.posting_blocks == before.posting_blocks
            &&& after.skipped_blocks == grown(
                before.skipped_blocks,
                leapfrog::segment_jumps(&built, self.terms),
            )
        } else {
            &&& !full ==> after.candidate_docs == grown(
                before.candidate_docs,
                tally::segment_tally(docs, self.holding_any(segment), one),
            )
            &&& !full ==> after.skipped_blocks == before.skipped_blocks
            &&& if walks_one_list(self.query, self.terms.len()) {
                after.posting_blocks == grown(
                    before.posting_blocks,
                    list_blocks(*built, self.terms[0]),
                )
            } else {
                !full ==> after.posting_blocks == before.posting_blocks
            }
        }
    }

    /// One more segment adds its part.
    pub proof fn lemma_effort_step(
        self,
        first: SearchStats,
        before: SearchStats,
        after: SearchStats,
        full_before: bool,
        full: bool,
        done: int,
    )
        requires
            0 <= done < self.snapshot.segments@.len(),
            self.pruned_effort(first, before, full_before, done),
            self.segment_effort(before, after, full, done),
            full_before ==> full,
        ensures
            self.pruned_effort(first, after, full, done + 1),
    {
        let all = self.snapshot.segments@;
        let docs = all[done].docs@;
        assert(all.take(done + 1).drop_last() =~= all.take(done));
        assert(all.take(done + 1).last() == all[done]);
        let (any, every, found) = (self.any_holders(), self.all_holders(), self.candidates());
        tally::segment_tally_same(
            docs,
            |d: int| any(done, d),
            self.holding_any(done),
            tally::one(),
        );
        tally::segment_tally_same(
            docs,
            |d: int| every(done, d),
            self.holding_all(done),
            tally::one(),
        );
        tally::segment_tally_same(
            docs,
            |d: int| found(done, d),
            self.found_in(done),
            tally::one(),
        );
    }

    /// What a search has counted when it is done.
    pub open spec fn effort(self, stats: SearchStats, full: bool) -> bool {
        let all = self.snapshot.segments@;
        let start = SearchStats {
            segments: all.len() as usize,
            candidate_docs: 0,
            scored_docs: 0,
            posting_blocks: 0,
            skipped_blocks: 0,
            cache_hit: false,
        };
        if self.all {
            stats == (SearchStats {
                candidate_docs: saturated(self.snapshot.live_docs as nat),
                scored_docs: saturated(tally::tally(all, self.candidates(), tally::one())),
                ..start
            })
        } else {
            self.pruned_effort(start, stats, full, all.len() as int)
        }
    }
}

/// No more documents are counted than the segments hold.
pub(crate) proof fn lemma_count_within(
    segments: Seq<Arc<Segment>>,
    live: spec_fn(int, int) -> bool,
)
    ensures
        tally::tally(segments, live, tally::one()) <= snapshot::doc_count(segments),
    decreases segments.len(),
{
    if segments.len() > 0 {
        lemma_count_within(segments.drop_last(), live);
        tally::segment_tally_bound(
            segments.last().docs@,
            |d: int| live(segments.len() - 1, d),
            tally::one(),
            1,
        );
    }
}

impl Snapshot {
    /// One choice of the terms that count is the only one.
    pub(crate) proof fn lemma_same_terms(
        self,
        query: Query,
        terms: Seq<Seq<char>>,
        terms2: Seq<Seq<char>>,
    )
        requires
            self.scoring_terms(query, terms),
            self.scoring_terms(query, terms2),
        ensures
            terms == terms2,
    {
        scoring_terms_unique(self, self, query, terms, terms2);
    }
}

} // verus!
