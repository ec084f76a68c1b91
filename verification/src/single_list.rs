//! Searching a segment for the documents of one term.
use crate::answer::Frame;
use crate::cursor::WandCursor;
use crate::effort::{grown, joins_lists, stats_follow};
use crate::query::{Query, SearchStats};
use crate::ranking::{RankedDoc, TopK};
use crate::scan::{
    cursor_ok, entries_before, fits, lemma_add_part, lemma_cursor, lemma_pruned, progress,
};
use crate::scorer;
use crate::scorer::Scorer;
use crate::segment;
use crate::snapshot::Snapshot;
use crate::tally;
use vstd::prelude::*;

verus! {

/// The first document from place `at` of a list on; past the end, what no docid
/// reaches.
spec fn floor_at(list: segment::PostingList, at: int, docs: nat) -> int {
    if at < list.docids@.len() {
        list.docids@[at] as int
    } else {
        docs as int
    }
}

/// The documents before a place of a list that are in the list are those at the
/// places before.
proof fn lemma_list_counts(
    list: segment::PostingList,
    docs: Seq<segment::StoredDocument>,
    picked: spec_fn(int) -> bool,
    at: int,
)
    requires
        list.wf(docs),
        forall|d: int| #[trigger] picked(d) == list.has_doc(d),
        0 <= at <= list.docids@.len(),
    ensures
        tally::count_before(docs, picked, floor_at(list, at, docs.len())) == at,
    decreases at,
{
    let here = floor_at(list, at, docs.len());
    let from = if at == 0 {
        0
    } else {
        list.docids@[at - 1] + 1
    };
    if at == 0 {
        assert(docs.take(0) =~= Seq::empty());
    } else {
        lemma_list_counts(list, docs, picked, at - 1);
        assert(list.has_doc(list.docids@[at - 1] as int));
        tally::count_next(docs, picked, from - 1, from - 1);
    }
    assert forall|d: int| from <= d < here implies !#[trigger] picked(d) by {
        if list.has_doc(d) {
            let p = list.index_of(d);
            assert(list.docids@[p] == d);
            if p < at - 1 {
                assert(list.docids@[p] < list.docids@[at - 1]);
            } else if p > at {
                assert(list.docids@[at] < list.docids@[p]);
            }
        }
    }
    tally::count_gap(docs, picked, from, here);
}

/// A document of a block is dominated where the bound of the block does not reach
/// the entries.
proof fn lemma_block_pruned<S: Scorer>(
    frame: Frame,
    scorer: &S,
    top: TopK,
    segment: int,
    walker: WandCursor<'_>,
    block_bound: u32,
    total: u64,
    at: int,
)
    requires
        0 <= segment < frame.snapshot.segments@.len(),
        frame.snapshot.segments@[segment].wf(),
        frame.terms.len() == 1,
        cursor_ok(walker, scorer, &frame.snapshot.segments@[segment], frame.terms),
        0 <= at < walker.list.docids@.len(),
        top.wf(),
        top.full(),
        frame.sound(top.ranked@, top.limit as int),
        entries_before(top.ranked@, segment, walker.list.docids@[at] as int),
        frame.sure ==> scorer::admissible(scorer, frame.snapshot, frame.terms),
        frame.scored == scorer::scoring(scorer),
        call_ensures(
            S::bound,
            (
                scorer,
                walker.ordinal,
                walker.list.max_tf,
                walker.list.min_doc_len,
                walker.list.blocks@[at / 128].max_tf,
                walker.list.blocks@[at / 128].min_doc_len,
            ),
            block_bound,
        ),
        call_ensures(S::join, (scorer, 0, block_bound), total),
        call_ensures(S::below, (scorer, total, top.ranked@.last().score), true),
    ensures
        frame.dominated(
            top.ranked@,
            top.limit as int,
            segment,
            walker.list.docids@[at] as int,
        ),
{
    let built = frame.snapshot.segments@[segment];
    let names = frame.terms;
    let d = walker.list.docids@[at] as int;
    let bounds = seq![block_bound];
    lemma_cursor(walker, scorer, &built, names);
    segment::increasing_bound(walker.list.docids@, built.docs@.len() as int);
    scorer::posting_within_block(&built, names, d, 0, at);
    scorer::posting_within_list(&built, names, d, 0);
    assert(scorer::joined(scorer, bounds, total)) by {
        assert(bounds.drop_last() =~= Seq::empty());
        assert(bounds.last() == block_bound);
        assert(scorer::joined(scorer, bounds.drop_last(), 0));
    }
    assert(scorer::bounds_given(scorer, &built, names, bounds)) by {
        assert(0 <= at / 128 < walker.list.blocks@.len());
        assert(scorer::bounds_list(scorer, *walker.list, walker.ordinal, block_bound));
        assert(scorer::bounds_term(scorer, &built, names, walker.ordinal, block_bound));
    }
    assert(scorer::bounds_part(scorer, built.part(names, d, 0), block_bound));
    lemma_pruned(frame, scorer, top, segment, d, bounds, total, |k: int| 0);
}

impl Snapshot {
    /// Searches one segment for the documents of one list, block by block. A block
    /// is skipped where its bound lies below the entries.
    #[verifier::rlimit(40)]
    pub(crate) fn single_list_segment<S: Scorer>(
        &self,
        query: &Query,
        terms: &Vec<String>,
        segment_index: usize,
        walker: &WandCursor<'_>,
        scorer: &S,
        ranked: &mut TopK,
        stats: &mut SearchStats,
        Ghost(frame): Ghost<Frame>,
    )
        requires
            fits(frame, *self, *query, terms@, scorer),
            !frame.all,
            !joins_lists(frame.query, frame.terms.len()),
            terms@.len() == 1,
            segment_index < self.segments@.len(),
            cursor_ok(*walker, scorer, &self.segments@[segment_index as int], frame.terms),
            forall|d: int|
                self.live(segment_index as int, d) && frame.holds_term(segment_index as int, d)
                    ==> #[trigger] frame.candidate(segment_index as int, d),
            progress(frame, *old(ranked), segment_index as int),
            entries_before(old(ranked).ranked@, segment_index as int, 0),
            stats_follow(*old(stats), *old(stats), *old(ranked)),
        ensures
            progress(frame, *final(ranked), segment_index + 1),
            entries_before(final(ranked).ranked@, segment_index + 1, 0),
            final(ranked).limit == old(ranked).limit,
            stats_follow(*old(stats), *final(stats), *final(ranked)),
            old(ranked).full() ==> final(ranked).full(),
            final(stats).candidate_docs <= old(stats).candidate_docs
                + self.segments@[segment_index as int].docs@.len(),
            !final(ranked).full() ==> final(stats).candidate_docs == grown(
                old(stats).candidate_docs,
                tally::segment_tally(
                    self.segments@[segment_index as int].docs@,
                    frame.holding_any(segment_index as int),
                    tally::one(),
                ),
            ),
            !final(ranked).full() ==> final(stats).skipped_blocks == old(stats).skipped_blocks,
            final(stats).posting_blocks == grown(
                old(stats).posting_blocks,
                walker.list.blocks@.len(),
            ),
    {
        let ghost s = segment_index as int;
        let ghost limit = ranked.limit as int;
        let ghost names = frame.terms;
        let ghost first_stats = *stats;
        let built = &self.segments[segment_index];
        let list = walker.list;
        let count: usize = list.docids.len();
        proof {
            assert(built.wf());
            lemma_cursor(*walker, scorer, built, names);
            assert(names.take(0) =~= Seq::empty());
            assert(names.take(1) =~= names);
        }
        let mut block_index: usize = 0;
        let mut at: usize = 0;
        assert(entries_before(ranked.ranked@, s, floor_at(*list, 0, built.docs@.len())));
        while block_index < list.blocks.len()
            invariant
                fits(frame, *self, *query, terms@, scorer),
                !frame.all,
                !joins_lists(frame.query, frame.terms.len()),
                terms@.len() == 1,
                s == segment_index < self.segments@.len(),
                *built == self.segments@[s],
                built.wf(),
                names == frame.terms,
                names.len() == 1,
                names.take(0) == Seq::<Seq<char>>::empty(),
                names.take(1) == names,
                cursor_ok(*walker, scorer, built, names),
                list == walker.list,
                list.wf(built.docs@),
                count == list.docids@.len(),
                forall|p: int|
                    0 <= p < count ==> {
                        let d = #[trigger] list.docids@[p] as int;
                        &&& built.holds(d, names[0])
                        &&& built.freq(d, names[0]) == list.freqs@[p]
                        &&& d < built.docs@.len()
                    },
                forall|d: int|
                    self.live(s, d) && frame.holds_term(s, d) ==> #[trigger] frame.candidate(s, d),
                block_index <= list.blocks@.len(),
                at <= count,
                at == if block_index * 128 < count {
                    block_index * 128
                } else {
                    count as int
                },
                ranked.limit == limit,
                progress(frame, *ranked, s),
                entries_before(ranked.ranked@, s, floor_at(*list, at as int, built.docs@.len())),
                forall|p: int|
                    0 <= p < at ==> frame.settled(
                        ranked.ranked@,
                        limit,
                        s,
                        #[trigger] list.docids@[p] as int,
                    ),
                stats_follow(first_stats, *stats, *ranked),
                old(ranked).full() ==> ranked.full(),
                stats.candidate_docs <= first_stats.candidate_docs + at,
                !ranked.full() ==> stats.candidate_docs == grown(
                    first_stats.candidate_docs,
                    at as nat,
                ),
                !ranked.full() ==> stats.skipped_blocks == first_stats.skipped_blocks,
                stats.posting_blocks == grown(first_stats.posting_blocks, block_index as nat),
            decreases list.blocks@.len() - block_index,
        {
            let block = &list.blocks[block_index];
            proof {
                assert(list.blocks@[block_index as int] == segment::block_meta(
                    list.docids@,
                    list.freqs@,
                    built.docs@,
                    block_index as int,
                ));
                segment::increasing_bound(list.docids@, built.docs@.len() as int);
                assert(at == block_index * 128);
            }
            let end: usize = block.end as usize;
            stats.posting_blocks = stats.posting_blocks.saturating_add(1);
            let block_bound: u32 = scorer.bound(
                walker.ordinal,
                list.max_tf,
                list.min_doc_len,
                block.max_tf,
                block.min_doc_len,
            );
            let total: u64 = scorer.join(0, block_bound);
            let theta: u32 = ranked.threshold();
            if ranked.is_full() && scorer.below(total, theta) {
                stats.skipped_blocks = stats.skipped_blocks.saturating_add(1);
                proof {
                    assert forall|p: int| at <= p < end implies frame.settled(
                        ranked.ranked@,
                        limit,
                        s,
                        #[trigger] list.docids@[p] as int,
                    ) by {
                        let d = list.docids@[p] as int;
                        if p > at {
                            assert(list.docids@[at as int] < list.docids@[p]);
                        }
                        lemma_block_pruned(
                            frame,
                            scorer,
                            *ranked,
                            s,
                            *walker,
                            block_bound,
                            total,
                            p,
                        );
                        frame.lemma_dominated_settled(ranked.ranked@, limit, s, d);
                    }
                    if end < count {
                        assert(list.docids@[at as int] < list.docids@[end as int]);
                    }
                    assert(entries_before(
                        ranked.ranked@,
                        s,
                        floor_at(*list, end as int, built.docs@.len()),
                    ));
                }
                at = end;
            } else {
                while at < end
                    invariant
                        fits(frame, *self, *query, terms@, scorer),
                        !frame.all,
                        !joins_lists(frame.query, frame.terms.len()),
                        s == segment_index < self.segments@.len(),
                        *built == self.segments@[s],
                        built.wf(),
                        names == frame.terms,
                        names.len() == 1,
                        names.take(0) == Seq::<Seq<char>>::empty(),
                        names.take(1) == names,
                        walker.ordinal == 0,
                        list.wf(built.docs@),
                        count == list.docids@.len(),
                        forall|p: int|
                            0 <= p < count ==> {
                                let d = #[trigger] list.docids@[p] as int;
                                &&& built.holds(d, names[0])
                                &&& built.freq(d, names[0]) == list.freqs@[p]
                                &&& d < built.docs@.len()
                            },
                        forall|d: int|
                            self.live(s, d) && frame.holds_term(s, d)
                                ==> #[trigger] frame.candidate(s, d),
                        at <= end <= count,
                        ranked.limit == limit,
                        progress(frame, *ranked, s),
                        entries_before(
                            ranked.ranked@,
                            s,
                            floor_at(*list, at as int, built.docs@.len()),
                        ),
                        forall|p: int|
                            0 <= p < at ==> frame.settled(
                                ranked.ranked@,
                                limit,
                                s,
                                #[trigger] list.docids@[p] as int,
                            ),
                        stats_follow(first_stats, *stats, *ranked),
                        old(ranked).full() ==> ranked.full(),
                        stats.candidate_docs <= first_stats.candidate_docs + at,
                        !ranked.full() ==> stats.candidate_docs == grown(
                            first_stats.candidate_docs,
                            at as nat,
                        ),
                        !ranked.full() ==> stats.skipped_blocks == first_stats.skipped_blocks,
                        stats.posting_blocks == grown(first_stats.posting_blocks, (block_index + 1) as nat),
                    decreases end - at,
                {
                    let docid: u32 = list.docids[at];
                    let ghost before = ranked.ranked@;
                    assert(built.holds(docid as int, names[0]));
                    assert(frame.holds_term(s, docid as int));
                    assert(self.in_range(s, docid as int));
                    stats.candidate_docs = stats.candidate_docs.saturating_add(1);
                    if self.is_live(segment_index, docid) {
                        stats.scored_docs = stats.scored_docs.saturating_add(1);
                        let doc = &built.docs[docid as usize];
                        let start: u32 = scorer.start();
                        let score: u32 = scorer.add_term(
                            start,
                            walker.ordinal,
                            list.freqs[at],
                            doc.len,
                        );
                        proof {
                            lemma_add_part(
                                scorer,
                                built,
                                names,
                                0,
                                docid as int,
                                start,
                                score,
                            );
                            assert(frame.has_score(s, docid as int, score));
                            assert(frame.candidate(s, docid as int));
                        }
                        let hit = RankedDoc {
                            segment: segment_index,
                            docid,
                            rowid: doc.rowid,
                            score,
                        };
                        self.enter(hit, ranked, Ghost(frame), Ghost(s));
                    } else {
                        assert(frame.settled(before, limit, s, docid as int));
                        assert(entries_before(ranked.ranked@, s, docid + 1));
                    }
                    proof {
                        if at + 1 < count {
                            assert(list.docids@[at as int] < list.docids@[at + 1]);
                        }
                        assert(entries_before(
                            ranked.ranked@,
                            s,
                            floor_at(*list, at + 1, built.docs@.len()),
                        ));
                        assert forall|p: int| 0 <= p < at + 1 implies frame.settled(
                            ranked.ranked@,
                            limit,
                            s,
                            #[trigger] list.docids@[p] as int,
                        ) by {
                            if p < at {
                                assert(frame.settled(
                                    before,
                                    limit,
                                    s,
                                    list.docids@[p] as int,
                                ));
                            }
                        }
                    }
                    at = at + 1;
                }
            }
            block_index = block_index + 1;
        }
        proof {
            segment::increasing_bound(list.docids@, built.docs@.len() as int);
            let picked = frame.holding_any(s);
            assert forall|d: int| #[trigger] picked(d) == list.has_doc(d) by {
                assert(built.holds(d, names[0]) == list.has_doc(d));
            }
            lemma_list_counts(*list, built.docs@, picked, count as int);
            assert(built.docs@.take(built.docs@.len() as int) =~= built.docs@);
            assert forall|s2: int, d: int|
                0 <= s2 < s + 1 && self.in_range(s2, d) implies #[trigger] frame.settled(
                ranked.ranked@,
                limit,
                s2,
                d,
            ) by {
                if s2 == s && frame.holds_term(s, d) {
                    assert(built.holds(d, names[0]));
                    assert(list.has_doc(d));
                    let p = list.index_of(d);
                    assert(list.docids@[p] == d);
                }
            }
        }
    }
}

} // verus!
