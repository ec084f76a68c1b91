//! Finds the best documents for a query.
use crate::answer::Frame;
use crate::effort::{lemma_count_within, saturated, stats_follow};
use crate::leapfrog;
use crate::matching;
use crate::matching::{is_flat_conjunction, is_flat_disjunction};
use crate::query::{Query, SearchHit, SearchOptions, SearchResult, SearchStats};
use crate::ranking::{RankedDoc, TopK};
use crate::scan::{entries_before, fits, make_cursors, progress};
use crate::scorer::Scorer;
use crate::scoring::is_anchored;
use crate::snapshot;
use crate::snapshot::Snapshot;
use crate::tally;
use crate::text;
use crate::text::{copy_texts, text_order, TextOrder};
use vstd::prelude::*;

verus! {

/// A live document that holds a term of a flat disjunction matches it.
proof fn lemma_disjunction(frame: Frame, segment: int, docid: int)
    requires
        frame.wf(),
        matching::flat_disjunction(frame.query),
        frame.snapshot.live(segment, docid),
        frame.holds_term(segment, docid),
    ensures
        frame.candidate(segment, docid),
{
    let built = frame.snapshot.segments@[segment];
    let at = built.document(docid);
    let k = choose|k: int|
        0 <= k < frame.terms.len() && built.holds(docid, #[trigger] frame.terms[k]);
    let term = frame.terms[k];
    assert(frame.terms.contains(term));
    assert(frame.snapshot.scores(frame.query, term));
    assert(matching::any_in_column(at(term), None)) by {
        assert(matching::in_column(at(term)[0] as int, None));
    }
    match frame.query {
        Query::Or(children) => {
            let i = choose|i: int|
                0 <= i < children@.len() && frame.snapshot.collects(
                    #[trigger] children@[i],
                    true,
                    term,
                );
            assert(matching::is_word_query(children@[i]));
            assert(matching::matches_in_column(children@[i], at, None));
        },
        _ => {},
    }
}

/// The matches of a flat conjunction are the live documents that hold all terms.
proof fn lemma_conjunction(frame: Frame, segment: int, docid: int)
    requires
        frame.wf(),
        !frame.all,
        frame.terms.len() > 0,
        matching::flat_conjunction(frame.query),
    ensures
        frame.candidate(segment, docid) == (frame.snapshot.live(segment, docid)
            && frame.holds_all(segment, docid)),
{
    let built = frame.snapshot.segments@[segment];
    let at = built.document(docid);
    match frame.query {
        Query::And(children) => {
            if frame.candidate(segment, docid) {
                assert forall|k: int| 0 <= k < frame.terms.len() implies built.holds(
                    docid,
                    #[trigger] frame.terms[k],
                ) by {
                    let term = frame.terms[k];
                    assert(frame.terms.contains(term));
                    assert(frame.snapshot.scores(frame.query, term));
                    let i = choose|i: int|
                        0 <= i < children@.len() && frame.snapshot.collects(
                            #[trigger] children@[i],
                            true,
                            term,
                        );
                    assert(children@[i] is Term);
                    assert(matching::matches_in_column(children@[i], at, None));
                }
            }
            if frame.snapshot.live(segment, docid) && frame.holds_all(segment, docid) {
                assert(built.holds(docid, frame.terms[0]));
                assert forall|i: int| 0 <= i < children@.len() implies matching::matches_in_column(
                    #[trigger] children@[i],
                    at,
                    None,
                ) by {
                    assert(children@[i] is Term);
                    let term = children@[i]->Term_0@;
                    assert(frame.snapshot.collects(children@[i], true, term));
                    assert(frame.snapshot.scores(frame.query, term));
                    assert(frame.terms.contains(term));
                    let k = choose|k: int| 0 <= k < frame.terms.len() && frame.terms[k] == term;
                    assert(built.holds(docid, frame.terms[k]));
                    assert(matching::in_column(at(term)[0] as int, None));
                }
            }
        },
        _ => {},
    }
}

/// The matches of a phrase are live documents that hold all its terms.
proof fn lemma_phrase(frame: Frame, segment: int, docid: int, phrase: Seq<Seq<char>>)
    requires
        frame.wf(),
        !frame.all,
        frame.terms.len() > 0,
        frame.query matches Query::Phrase(terms) && text::texts(terms@) == phrase,
    ensures
        frame.candidate(segment, docid) == (frame.snapshot.live(segment, docid) && frame.holds_all(segment, docid) && matching::phrase_matches(
            frame.snapshot.segments@[segment].document(docid),
            phrase,
            None,
        )),
{
    let built = frame.snapshot.segments@[segment];
    let at = built.document(docid);
    if frame.candidate(segment, docid) {
        let i = choose|i: int|
            0 <= i < at(phrase[0]).len() && matching::in_column(
                (#[trigger] at(phrase[0])[i]) as int,
                None,
            ) && matching::phrase_follows(at, phrase, at(phrase[0])[i]);
        assert forall|k: int| 0 <= k < frame.terms.len() implies built.holds(
            docid,
            #[trigger] frame.terms[k],
        ) by {
            let term = frame.terms[k];
            assert(frame.terms.contains(term));
            assert(frame.snapshot.scores(frame.query, term));
            let j = choose|j: int| 0 <= j < phrase.len() && phrase[j] == term;
            if j > 0 {
                assert(matching::step_holds(at(phrase[j]), at(phrase[0])[i], j));
            }
        }
    }
    if frame.snapshot.live(segment, docid) && frame.holds_all(segment, docid) {
        assert(built.holds(docid, frame.terms[0]));
    }
}

/// Where a term stands among the terms that count.
fn ordinal_of(terms: &Vec<String>, term: &str) -> (ordinal: usize)
    requires
        text::texts(terms@).contains(term@),
        forall|i: int, j: int|
            0 <= i < j < terms@.len() ==> text::text_before(
                #[trigger] text::texts(terms@)[i],
                #[trigger] text::texts(terms@)[j],
            ),
    ensures
        ordinal < terms@.len(),
        text::texts(terms@)[ordinal as int] == term@,
{
    let ghost names = text::texts(terms@);
    let ghost target = choose|i: int| 0 <= i < names.len() && names[i] == term@;
    let mut low: usize = 0;
    let mut high: usize = terms.len();
    while low < high
        invariant
            names == text::texts(terms@),
            low <= target < high <= names.len(),
            names[target] == term@,
            forall|i: int, j: int|
                0 <= i < j < names.len() ==> text::text_before(
                    #[trigger] names[i],
                    #[trigger] names[j],
                ),
        decreases high - low,
    {
        let middle: usize = low + (high - low) / 2;
        assert(names[middle as int] == terms@[middle as int]@);
        let order: TextOrder = text_order(terms[middle].as_str(), term);
        proof {
            text::text_order_laws(names[middle as int], names[target], names[middle as int]);
            if middle < target {
                assert(text::text_before(names[middle as int], names[target]));
            }
            if target < middle {
                assert(text::text_before(names[target], names[middle as int]));
            }
        }
        match order {
            TextOrder::Same => {
                return middle;
            },
            TextOrder::Before => {
                low = middle + 1;
            },
            TextOrder::After => {
                high = middle;
            },
        }
    }
    low
}

/// The ordinals of the terms of a phrase, where each term counts once.
fn find_phrase_order(query: &Query, terms: &Vec<String>, Ghost(frame): Ghost<Frame>) -> (order:
    Option<Vec<usize>>)
    requires
        frame.wf(),
        frame.query == *query,
        frame.terms == text::texts(terms@),
        terms@.len() > 0,
    ensures
        order matches Some(order) ==> (query matches Query::Phrase(phrase) && order@.len()
            == phrase@.len() && order@.len() > 0 && forall|i: int|
            0 <= i < order@.len() ==> (#[trigger] order@[i]) < frame.terms.len()
                && frame.terms[order@[i] as int] == text::texts(phrase@)[i]),
        order is Some == (query matches Query::Phrase(phrase) && phrase@.len() == terms@.len()),
{
    match query {
        Query::Phrase(phrase) => {
            if phrase.len() != terms.len() {
                return None;
            }
            let ghost names = text::texts(phrase@);
            let mut order: Vec<usize> = Vec::new();
            let mut done: usize = 0;
            while done < phrase.len()
                invariant
                    frame.wf(),
                    frame.query == Query::Phrase(*phrase),
                    frame.terms == text::texts(terms@),
                    names == text::texts(phrase@),
                    done <= phrase@.len(),
                    order@.len() == done,
                    forall|i: int|
                        0 <= i < done ==> (#[trigger] order@[i]) < frame.terms.len()
                            && frame.terms[order@[i] as int] == names[i],
                decreases phrase@.len() - done,
            {
                proof {
                    let name = names[done as int];
                    assert(names.contains(name));
                    assert(frame.snapshot.scores(frame.query, name));
                    assert(frame.terms.contains(name));
                }
                order.push(ordinal_of(terms, phrase[done].as_str()));
                done = done + 1;
            }
            Some(order)
        },
        _ => None,
    }
}

/// The hits show the ranked documents.
pub open spec fn hits_show(
    snapshot: Snapshot,
    ranked: Seq<RankedDoc>,
    hits: Seq<SearchHit>,
) -> bool {
    &&& hits.len() == ranked.len()
    &&& forall|i: int|
        0 <= i < hits.len() ==> (#[trigger] hits[i]).rowid == ranked[i].rowid && hits[i].score
            == ranked[i].score && snapshot.content(hits[i].rowid) == Some(
            text::texts(hits[i].fields@),
        )
}

impl Snapshot {
    /// The live documents that match.
    pub open spec fn matching_docs(self, query: Query) -> spec_fn(int, int) -> bool {
        |segment: int, docid: int|
            self.live(segment, docid) && matching::matches(
                query,
                self.segments@[segment].document(docid),
            )
    }

    /// The hits are what a search with this limit owes.
    pub open spec fn answers<S: Scorer>(
        self,
        query: Query,
        limit: int,
        exhaustive: bool,
        scorer: &S,
        hits: Seq<SearchHit>,
    ) -> bool {
        exists|terms: Seq<Seq<char>>, ranked: Seq<RankedDoc>|
            self.scoring_terms(query, terms) && #[trigger] self.frame(
                query,
                terms,
                exhaustive,
                scorer,
            ).answer(ranked, limit) && hits_show(self, ranked, hits)
    }

    /// The best documents for a query. Unless `exhaustive`, where every match holds a
    /// term that counts only documents with such a term are looked at, and what the
    /// bounds rule out is skipped.
    ///
    /// What is counted on the way is `Frame::effort`. It is exact where the lists of all
    /// terms are walked together, and elsewhere until the result is full; from then on
    /// how much is skipped rests on the scorer's bounds, and the counters are held
    /// within limits.
    pub fn search<S: Scorer>(
        &self,
        query: &Query,
        options: SearchOptions,
        exhaustive: bool,
        scorer: &S,
    ) -> (result: SearchResult)
        requires
            self.wf(),
            self.ordered(),
            options.limit > 0,
        ensures
            self.answers(*query, options.limit as int, exhaustive, scorer, result.hits@),
            result.generation == self.generation,
            !result.is_approximate,
            result.stats.segments == self.segments@.len(),
            !result.stats.cache_hit,
            result.hits@.len() <= result.stats.scored_docs <= result.stats.candidate_docs,
            result.stats.candidate_docs <= snapshot::doc_count(self.segments@),
            result.hits@.len() < options.limit ==> result.stats.scored_docs == result.hits@.len(),
            forall|terms: Seq<Seq<char>>| #[trigger]
                self.scoring_terms(*query, terms) ==> self.frame(
                    *query,
                    terms,
                    exhaustive,
                    scorer,
                ).effort(result.stats, result.hits@.len() == options.limit),
            exhaustive ==> result.stats == (SearchStats {
                segments: self.segments@.len() as usize,
                candidate_docs: saturated(self.live_docs as nat),
                scored_docs: saturated(
                    tally::tally(self.segments@, self.matching_docs(*query), tally::one()),
                ),
                posting_blocks: 0,
                skipped_blocks: 0,
                cache_hit: false,
            }),
    {
        let mut stats = SearchStats::default();
        stats.segments = self.segments.len();
        let terms = self.expanded_scoring_terms(query);
        let count: usize = terms.len();
        let ghost names = text::texts(terms@);
        let ghost frame = self.frame(*query, names, exhaustive, scorer);
        let mut ranked = TopK::new(options.limit);
        proof {
            self.lemma_frame_wf(*query, names, exhaustive, scorer);
            assert(fits(frame, *self, *query, terms@, scorer));
            assert(progress(frame, ranked, 0));
        }
        if exhaustive || terms.len() == 0 || !is_anchored(query) {
            self.search_all(query, &terms, scorer, &mut ranked, &mut stats, Ghost(frame));
            proof {
                assert(frame.candidates() =~= self.matching_docs(*query));
                lemma_count_within(self.segments@, self.live_fn());
            }
        } else {
            self.search_pruned(query, &terms, scorer, &mut ranked, &mut stats, Ghost(frame));
        }
        let ghost top = ranked;
        let best = ranked.into_sorted();
        let mut hits: Vec<SearchHit> = Vec::new();
        let mut done: usize = 0;
        while done < best.len()
            invariant
                self.wf(),
                frame.snapshot == *self,
                done <= best@.len(),
                best@ == top.ranked@,
                frame.sound(best@, top.limit as int),
                hits@.len() == done,
                forall|i: int|
                    0 <= i < done ==> (#[trigger] hits@[i]).rowid == best@[i].rowid
                        && hits@[i].score == best@[i].score && self.content(hits@[i].rowid) == Some(
                        text::texts(hits@[i].fields@),
                    ),
            decreases best@.len() - done,
        {
            let entry: RankedDoc = best[done];
            assert(frame.candidate(best@[done as int].segment as int, entry.docid as int));
            assert(self.live(entry.segment as int, entry.docid as int));
            assert(self.segments@[entry.segment as int].wf());
            let doc = &self.segments[entry.segment].docs[entry.docid as usize];
            hits.push(
                SearchHit {
                    rowid: entry.rowid,
                    score: entry.score,
                    fields: copy_texts(&doc.fields),
                },
            );
            done = done + 1;
        }
        proof {
            assert(frame.answer(best@, options.limit as int)) by {
                assert forall|s: int, d: int| self.in_range(s, d) implies #[trigger] frame.settled(
                    best@,
                    options.limit as int,
                    s,
                    d,
                ) by {}
            }
            assert(hits_show(*self, best@, hits@));
            assert(frame.effort(stats, top.full()));
            assert forall|terms2: Seq<Seq<char>>| #[trigger]
                self.scoring_terms(*query, terms2) implies self.frame(
                *query,
                terms2,
                exhaustive,
                scorer,
            ).effort(stats, hits@.len() == options.limit) by {
                self.lemma_same_terms(*query, names, terms2);
            }
        }
        SearchResult { hits, stats, generation: self.generation, is_approximate: false }
    }

    /// Searches every segment by the postings of the terms that count.
    fn search_pruned<S: Scorer>(
        &self,
        query: &Query,
        terms: &Vec<String>,
        scorer: &S,
        ranked: &mut TopK,
        stats: &mut SearchStats,
        Ghost(frame): Ghost<Frame>,
    )
        requires
            fits(frame, *self, *query, terms@, scorer),
            !frame.all,
            terms@.len() > 0,
            old(ranked).wf(),
            old(ranked).ranked@.len() == 0,
            stats_follow(*old(stats), *old(stats), *old(ranked)),
        ensures
            progress(frame, *final(ranked), self.segments@.len() as int),
            final(ranked).limit == old(ranked).limit,
            stats_follow(*old(stats), *final(stats), *final(ranked)),
            final(stats).candidate_docs <= old(stats).candidate_docs + snapshot::doc_count(
                self.segments@,
            ),
            frame.pruned_effort(
                *old(stats),
                *final(stats),
                final(ranked).full(),
                self.segments@.len() as int,
            ),
    {
        let ghost limit = ranked.limit as int;
        let ghost first_stats = *stats;
        let direct_disjunction: bool = is_flat_disjunction(query);
        let direct_conjunction: bool = is_flat_conjunction(query);
        let phrase_order: Option<Vec<usize>> = find_phrase_order(query, terms, Ghost(frame));
        let ghost phrase = match query {
            Query::Phrase(phrase) => text::texts(phrase@),
            _ => Seq::empty(),
        };
        let mut index: usize = 0;
        assert(self.segments@.take(0) =~= Seq::empty());
        while index < self.segments.len()
            invariant
                fits(frame, *self, *query, terms@, scorer),
                !frame.all,
                terms@.len() > 0,
                direct_disjunction == matching::flat_disjunction(*query),
                direct_conjunction == matching::flat_conjunction(*query),
                phrase_order matches Some(order) ==> (query matches Query::Phrase(words)
                    && phrase == text::texts(words@) && order@.len() == phrase.len()
                    && order@.len() > 0 && forall|i: int|
                    0 <= i < order@.len() ==> (#[trigger] order@[i]) < frame.terms.len()
                        && frame.terms[order@[i] as int] == phrase[i]),
                index <= self.segments@.len(),
                ranked.limit == limit,
                progress(frame, *ranked, index as int),
                entries_before(ranked.ranked@, index as int, 0),
                stats_follow(first_stats, *stats, *ranked),
                stats.candidate_docs <= first_stats.candidate_docs + snapshot::doc_count(
                    self.segments@.take(index as int),
                ),
                (phrase_order is Some) == (query matches Query::Phrase(words) && words@.len()
                    == terms@.len()),
                frame.pruned_effort(first_stats, *stats, ranked.full(), index as int),
            decreases self.segments@.len() - index,
        {
            let built = &self.segments[index];
            proof {
                assert(built.wf());
                assert(self.segments@.take(index + 1).drop_last() =~= self.segments@.take(
                    index as int,
                ));
                assert(self.segments@.take(index + 1).last() == self.segments@[index as int]);
            }
            let ghost (before, was_full) = (*stats, ranked.full());
            let cursors = make_cursors(built, terms, scorer);
            if direct_disjunction && terms.len() == 1 && cursors.len() == 1 {
                proof {
                    assert forall|d: int|
                        self.live(index as int, d) && frame.holds_term(
                            index as int,
                            d,
                        ) implies #[trigger] frame.candidate(index as int, d) by {
                        lemma_disjunction(frame, index as int, d);
                    }
                }
                self.single_list_segment(
                    query,
                    terms,
                    index,
                    &cursors[0],
                    scorer,
                    ranked,
                    stats,
                    Ghost(frame),
                );
            } else if direct_conjunction || phrase_order.is_some() {
                proof {
                    assert forall|d: int| #[trigger]
                        frame.candidate(index as int, d) == (self.live(index as int, d) && frame.holds_all(index as int, d) && (phrase_order is Some ==> matching::phrase_matches(
                            built.document(d),
                            phrase,
                            None,
                        ))) by {
                        if phrase_order is Some {
                            lemma_phrase(frame, index as int, d, phrase);
                        } else {
                            lemma_conjunction(frame, index as int, d);
                        }
                    }
                }
                if cursors.len() == terms.len() {
                    self.intersect_segment(
                        query,
                        terms,
                        index,
                        cursors,
                        &phrase_order,
                        scorer,
                        ranked,
                        stats,
                        Ghost(frame),
                        Ghost(phrase),
                    );
                } else {
                    proof {
                        let k = choose|k: int|
                            0 <= k < terms@.len() && !built.terms.has(
                                #[trigger] text::texts(terms@)[k],
                            );
                        assert forall|s2: int, d: int|
                            0 <= s2 < index + 1 && self.in_range(
                                s2,
                                d,
                            ) implies #[trigger] frame.settled(ranked.ranked@, limit, s2, d) by {
                            if s2 == index && frame.candidate(s2, d) {
                                assert(built.holds(d, frame.terms[k]));
                            }
                        }
                        let (docs, every, found) = (
                            built.docs@,
                            frame.holding_all(index as int),
                            frame.found_in(index as int),
                        );
                        assert forall|d: int| 0 <= d < docs.len() implies !#[trigger] every(d) by {
                            if every(d) {
                                assert(built.holds(d, frame.terms[k]));
                            }
                        }
                        assert forall|d: int| 0 <= d < docs.len() implies !#[trigger] found(d) by {
                            assert(!every(d));
                        }
                        tally::count_gap(docs, every, 0, docs.len() as int);
                        tally::count_gap(docs, found, 0, docs.len() as int);
                        assert(docs.take(0) =~= Seq::empty());
                        assert(docs.take(docs.len() as int) =~= docs);
                        let lists = leapfrog::term_lists(built, frame.terms);
                        let places = Seq::new(frame.terms.len(), |k: int| 0int);
                        assert(leapfrog::ended(lists, places)) by {
                            assert(places[k] >= lists[k].len());
                        }
                    }
                }
            } else {
                proof {
                    if direct_disjunction {
                        assert forall|d: int|
                            self.live(index as int, d) && frame.holds_term(
                                index as int,
                                d,
                            ) implies #[trigger] frame.candidate(index as int, d) by {
                            lemma_disjunction(frame, index as int, d);
                        }
                    }
                }
                self.wand_segment(
                    query,
                    terms,
                    index,
                    cursors,
                    direct_disjunction,
                    scorer,
                    ranked,
                    stats,
                    Ghost(frame),
                );
            }
            proof {
                assert(frame.segment_effort(before, *stats, ranked.full(), index as int));
                frame.lemma_effort_step(
                    first_stats,
                    before,
                    *stats,
                    was_full,
                    ranked.full(),
                    index as int,
                );
            }
            index = index + 1;
        }
        assert(self.segments@.take(index as int) =~= self.segments@);
    }
}

} // verus!
