//! Entering documents into a result, one by one.
use crate::answer;
use crate::answer::Frame;
use crate::cursor::WandCursor;
use crate::effort::saturated;
use crate::matching::matches_query;
use crate::query::{Query, SearchStats};
use crate::ranking;
use crate::ranking::{RankedDoc, TopK};
use crate::scorer;
use crate::scorer::Scorer;
use crate::segment::Segment;
use crate::snapshot::Snapshot;
use crate::tally;
use crate::text;
use vstd::prelude::*;

verus! {

/// The ghost frame is that of these arguments.
pub open spec fn fits<S: Scorer>(
    frame: Frame,
    snapshot: Snapshot,
    query: Query,
    terms: Seq<String>,
    scorer: &S,
) -> bool {
    &&& frame.wf()
    &&& frame.snapshot == snapshot
    &&& frame.query == query
    &&& frame.terms == text::texts(terms)
    &&& frame.scored == scorer::scoring(scorer)
    &&& frame.sure && !frame.all ==> snapshot.prunes_safely(query, frame.terms, scorer)
}

/// Every entry stands before this place.
pub open spec fn entries_before(ranked: Seq<RankedDoc>, segment: int, docid: int) -> bool {
    forall|i: int|
        0 <= i < ranked.len() ==> (#[trigger] ranked[i]).segment < segment || (ranked[i].segment
            == segment && ranked[i].docid < docid)
}

/// Everything up to segment `segment` is settled.
pub open spec fn settled_before(frame: Frame, ranked: Seq<RankedDoc>, limit: int, segment: int) -> bool {
    forall|s: int, d: int|
        0 <= s < segment && frame.snapshot.in_range(s, d) ==> #[trigger] frame.settled(
            ranked,
            limit,
            s,
            d,
        )
}

/// What holds of the entries throughout a search.
pub open spec fn progress(frame: Frame, top: TopK, segment: int) -> bool {
    &&& top.wf()
    &&& frame.sound(top.ranked@, top.limit as int)
    &&& settled_before(frame, top.ranked@, top.limit as int, segment)
}

/// Adds to the parts what one more term of a document contributes.
pub(crate) proof fn lemma_add_part<S: Scorer>(
    scorer: &S,
    built: &Segment,
    names: Seq<Seq<char>>,
    done: int,
    docid: int,
    before: u32,
    after: u32,
)
    requires
        0 <= done < names.len() <= usize::MAX,
        scorer::scored(scorer, built.parts(names.take(done), docid), before),
        built.holds(docid, names[done]) ==> call_ensures(
            S::add_term,
            (
                scorer,
                before,
                done as usize,
                built.freq(docid, names[done]),
                built.docs@[docid].len,
            ),
            after,
        ),
        !built.holds(docid, names[done]) ==> after == before,
    ensures
        scorer::scored(scorer, built.parts(names.take(done + 1), docid), after),
{
    let more = names.take(done + 1);
    assert(more.drop_last() =~= names.take(done));
    assert(more.last() == names[done]);
    if built.holds(docid, names[done]) {
        let parts = built.parts(more, docid);
        let part = built.part(more, docid, done);
        assert(parts == built.parts(names.take(done), docid).push(part));
        assert(parts.drop_last() =~= built.parts(names.take(done), docid));
        assert(parts.last() == part);
    }
}

/// The score of a document.
fn score_document<S: Scorer>(
    scorer: &S,
    built: &Segment,
    terms: &Vec<String>,
    docid: u32,
) -> (score: u32)
    requires
        built.wf(),
        docid < built.docs@.len(),
    ensures
        scorer::scored(scorer, built.parts(text::texts(terms@), docid as int), score),
{
    let ghost names = text::texts(terms@);
    let doc_len: u32 = built.docs[docid as usize].len;
    let count: usize = terms.len();
    let mut score: u32 = scorer.start();
    let mut done: usize = 0;
    assert(names.take(0) =~= Seq::empty());
    while done < count
        invariant
            done <= count,
            count == terms@.len(),
            names == text::texts(terms@),
            built.wf(),
            docid < built.docs@.len(),
            doc_len == built.docs@[docid as int].len,
            scorer::scored(scorer, built.parts(names.take(done as int), docid as int), score),
        decreases terms@.len() - done,
    {
        let ghost before = score;
        let found = built.terms.get(terms[done].as_str());
        if let Some(list) = found {
            proof {
                built.lemma_list(names[done as int]);
            }
            if let Some(index) = list.find(docid) {
                score = scorer.add_term(score, done, list.freqs[index], doc_len);
            }
        }
        proof {
            lemma_add_part(scorer, built, names, done as int, docid as int, before, score);
        }
        done = done + 1;
    }
    assert(names.take(done as int) =~= names);
    score
}

impl Snapshot {
    /// Enters the document if it lives and matches.
    pub(crate) fn consider<S: Scorer>(
        &self,
        query: &Query,
        terms: &Vec<String>,
        segment_index: usize,
        docid: u32,
        scorer: &S,
        ranked: &mut TopK,
        stats: &mut SearchStats,
        Ghost(frame): Ghost<Frame>,
    )
        requires
            fits(frame, *self, *query, terms@, scorer),
            self.in_range(segment_index as int, docid as int),
            frame.all || frame.holds_term(segment_index as int, docid as int),
            old(ranked).wf(),
            frame.sound(old(ranked).ranked@, old(ranked).limit as int),
            entries_before(old(ranked).ranked@, segment_index as int, docid as int),
        ensures
            final(ranked).wf(),
            final(ranked).limit == old(ranked).limit,
            frame.sound(final(ranked).ranked@, final(ranked).limit as int),
            frame.advances(
                old(ranked).ranked@,
                final(ranked).ranked@,
                old(ranked).limit as int,
            ),
            frame.settled(
                final(ranked).ranked@,
                old(ranked).limit as int,
                segment_index as int,
                docid as int,
            ),
            entries_before(final(ranked).ranked@, segment_index as int, docid + 1),
            frame.candidate(segment_index as int, docid as int) ==> one_more(
                *old(ranked),
                *final(ranked),
            ),
            frame.candidate(segment_index as int, docid as int) ==> *final(stats) == (SearchStats {
                scored_docs: saturated((old(stats).scored_docs + 1) as nat),
                ..*old(stats)
            }),
            !frame.candidate(segment_index as int, docid as int) ==> *final(stats) == *old(stats)
                && final(ranked).ranked@ == old(ranked).ranked@,
    {
        if !self.is_live(segment_index, docid) {
            return;
        }
        let built = &self.segments[segment_index];
        assert(built.wf() && built.ordered());
        if !matches_query(built, docid, query) {
            return;
        }
        stats.scored_docs = stats.scored_docs.saturating_add(1);
        let score: u32 = score_document(scorer, built, terms, docid);
        let hit = RankedDoc {
            segment: segment_index,
            docid,
            rowid: built.docs[docid as usize].rowid,
            score,
        };
        let ghost before = ranked.ranked@;
        proof {
            assert(frame.has_score(segment_index as int, docid as int, score));
            assert(!answer::listed(before, segment_index as int, docid as int));
        }
        ranked.push(hit);
        proof {
            let after = ranked.ranked@;
            assert(answer::pushed(before, after, ranked.limit as int, hit));
            frame.lemma_push(before, after, ranked.limit as int, hit);
            assert forall|i: int| 0 <= i < after.len() implies (#[trigger] after[i]).segment
                < segment_index || (after[i].segment == segment_index && after[i].docid < docid
                + 1) by {
                assert(after.contains(after[i]));
                if before.contains(after[i]) {
                    let j = choose|j: int| 0 <= j < before.len() && before[j] == after[i];
                    assert(before[j].segment == after[i].segment);
                }
            }
        }
    }

    /// Considers every live document.
    pub(crate) fn search_all<S: Scorer>(
        &self,
        query: &Query,
        terms: &Vec<String>,
        scorer: &S,
        ranked: &mut TopK,
        stats: &mut SearchStats,
        Ghost(frame): Ghost<Frame>,
    )
        requires
            fits(frame, *self, *query, terms@, scorer),
            frame.all,
            old(ranked).wf(),
            old(ranked).ranked@.len() == 0,
            old(stats).candidate_docs == 0,
            old(stats).scored_docs == 0,
        ensures
            final(ranked).wf(),
            final(ranked).limit == old(ranked).limit,
            progress(frame, *final(ranked), self.segments@.len() as int),
            *final(stats) == (SearchStats {
                candidate_docs: saturated(self.live_docs as nat),
                scored_docs: saturated(
                    tally::tally(self.segments@, frame.candidates(), tally::one()),
                ),
                ..*old(stats)
            }),
            final(ranked).ranked@.len() <= final(stats).scored_docs
                <= final(stats).candidate_docs,
            !final(ranked).full() ==> final(stats).scored_docs == final(ranked).ranked@.len(),
    {
        let ghost limit = ranked.limit as int;
        let ghost all = self.segments@;
        let ghost live = self.live_fn();
        let ghost found = frame.candidates();
        let ghost first_stats = *stats;
        let mut s: usize = 0;
        assert(all.take(0) =~= Seq::empty());
        while s < self.segments.len()
            invariant
                fits(frame, *self, *query, terms@, scorer),
                frame.all,
                all == self.segments@,
                live == self.live_fn(),
                found == frame.candidates(),
                s <= all.len(),
                ranked.limit == limit,
                progress(frame, *ranked, s as int),
                entries_before(ranked.ranked@, s as int, 0),
                *stats == (SearchStats {
                    candidate_docs: saturated(
                        tally::tally(all.take(s as int), live, tally::one()),
                    ),
                    scored_docs: saturated(tally::tally(all.take(s as int), found, tally::one())),
                    ..first_stats
                }),
                ranked.ranked@.len() <= stats.scored_docs <= stats.candidate_docs,
                !ranked.full() ==> stats.scored_docs == ranked.ranked@.len(),
            decreases all.len() - s,
        {
            let built = &self.segments[s];
            let ghost docs = built.docs@;
            let ghost live_here = |d: int| live(s as int, d);
            let ghost found_here = |d: int| found(s as int, d);
            let ghost live_base = tally::tally(all.take(s as int), live, tally::one());
            let ghost found_base = tally::tally(all.take(s as int), found, tally::one());
            let mut d: usize = 0;
            assert(built.wf());
            assert(docs.take(0) =~= Seq::empty());
            while d < built.docs.len()
                invariant
                    fits(frame, *self, *query, terms@, scorer),
                    frame.all,
                    all == self.segments@,
                    live == self.live_fn(),
                    found == frame.candidates(),
                    s < all.len(),
                    docs == all[s as int].docs@,
                    docs == built.docs@,
                    docs.len() <= u32::MAX,
                    live_here == (|d: int| live(s as int, d)),
                    found_here == (|d: int| found(s as int, d)),
                    d <= docs.len(),
                    ranked.limit == limit,
                    progress(frame, *ranked, s as int),
                    entries_before(ranked.ranked@, s as int, d as int),
                    forall|d2: int|
                        0 <= d2 < d ==> #[trigger] frame.settled(
                            ranked.ranked@,
                            limit,
                            s as int,
                            d2,
                        ),
                    *stats == (SearchStats {
                        candidate_docs: saturated(
                            live_base + tally::segment_tally(
                                docs.take(d as int),
                                live_here,
                                tally::one(),
                            ),
                        ),
                        scored_docs: saturated(
                            found_base + tally::segment_tally(
                                docs.take(d as int),
                                found_here,
                                tally::one(),
                            ),
                        ),
                        ..first_stats
                    }),
                    ranked.ranked@.len() <= stats.scored_docs <= stats.candidate_docs,
                    !ranked.full() ==> stats.scored_docs == ranked.ranked@.len(),
                decreases docs.len() - d,
            {
                let ghost before = ranked.ranked@;
                proof {
                    tally::segment_tally_step(docs, live_here, tally::one(), d as int);
                    tally::segment_tally_step(docs, found_here, tally::one(), d as int);
                    assert(live_here(d as int) == self.live(s as int, d as int));
                    assert(found_here(d as int) == frame.candidate(s as int, d as int));
                }
                if self.is_live(s, d as u32) {
                    stats.candidate_docs = stats.candidate_docs.saturating_add(1);
                    self.consider(query, terms, s, d as u32, scorer, ranked, stats, Ghost(frame));
                } else {
                    assert(entries_before(ranked.ranked@, s as int, d + 1));
                }
                assert forall|d2: int| 0 <= d2 < d + 1 implies #[trigger] frame.settled(
                    ranked.ranked@,
                    limit,
                    s as int,
                    d2,
                ) by {
                    if d2 < d {
                        assert(frame.settled(before, limit, s as int, d2));
                    }
                }
                assert forall|s2: int, d2: int|
                    0 <= s2 < s && frame.snapshot.in_range(s2, d2) implies #[trigger] frame.settled(
                    ranked.ranked@,
                    limit,
                    s2,
                    d2,
                ) by {
                    assert(frame.settled(before, limit, s2, d2));
                }
                d = d + 1;
            }
            proof {
                assert(docs.take(d as int) =~= docs);
                assert(all.take(s + 1).drop_last() =~= all.take(s as int));
                assert(all.take(s + 1).last() == all[s as int]);
                assert forall|i: int| 0 <= i < ranked.ranked@.len() implies (
                #[trigger] ranked.ranked@[i]).segment < s + 1 by {}
                assert forall|s2: int, d2: int|
                    0 <= s2 < s + 1 && frame.snapshot.in_range(s2, d2) implies #[trigger] frame.settled(
                    ranked.ranked@,
                    limit,
                    s2,
                    d2,
                ) by {}
            }
            s = s + 1;
        }
        assert(all.take(s as int) =~= all);
    }
}

/// The cursor walks the list of its term, within bounds given by the scorer.
pub open spec fn cursor_ok<S: Scorer>(
    walker: WandCursor<'_>,
    scorer: &S,
    built: &Segment,
    names: Seq<Seq<char>>,
) -> bool {
    &&& walker.ordinal < names.len()
    &&& built.terms.lookup(names[walker.ordinal as int]) == Some(*walker.list)
    &&& walker.index <= walker.list.docids@.len()
    &&& call_ensures(
        S::bound,
        (
            scorer,
            walker.ordinal,
            walker.list.max_tf,
            walker.list.min_doc_len,
            walker.list.max_tf,
            walker.list.min_doc_len,
        ),
        walker.list_bound,
    )
}

/// A well-formed cursor walks a well-formed list.
pub(crate) proof fn lemma_cursor<S: Scorer>(
    walker: WandCursor<'_>,
    scorer: &S,
    built: &Segment,
    names: Seq<Seq<char>>,
)
    requires
        built.wf(),
        cursor_ok(walker, scorer, built, names),
    ensures
        walker.list.wf(built.docs@),
        built.ordered() ==> walker.list.ordered(),
        forall|d: int| #[trigger]
            built.holds(d, names[walker.ordinal as int]) == walker.list.has_doc(d),
        forall|at: int|
            0 <= at < walker.list.docids@.len() ==> {
                let d = #[trigger] walker.list.docids@[at] as int;
                &&& built.holds(d, names[walker.ordinal as int])
                &&& built.freq(d, names[walker.ordinal as int]) == walker.list.freqs@[at]
                &&& built.positions(d, names[walker.ordinal as int]) == walker.list.positions@[at]@
                &&& d < built.docs@.len()
            },
{
    let name = names[walker.ordinal as int];
    built.lemma_list(name);
    assert forall|at: int| 0 <= at < walker.list.docids@.len() implies {
        let d = #[trigger] walker.list.docids@[at] as int;
        &&& built.holds(d, name)
        &&& built.freq(d, name) == walker.list.freqs@[at]
        &&& built.positions(d, name) == walker.list.positions@[at]@
        &&& d < built.docs@.len()
    } by {
        walker.list.lemma_index_of(at);
    }
}

/// A cursor at the start of the list of each term that the segment has.
pub(crate) fn make_cursors<'a, S: Scorer>(
    built: &'a Segment,
    terms: &Vec<String>,
    scorer: &S,
) -> (cursors: Vec<WandCursor<'a>>)
    requires
        built.wf(),
    ensures
        forall|i: int|
            0 <= i < cursors@.len() ==> cursor_ok(
                #[trigger] cursors@[i],
                scorer,
                built,
                text::texts(terms@),
            ) && cursors@[i].index == 0,
        forall|i: int, j: int|
            0 <= i < j < cursors@.len() ==> (#[trigger] cursors@[i]).ordinal < (
            #[trigger] cursors@[j]).ordinal,
        forall|k: int|
            0 <= k < terms@.len() && built.terms.has(#[trigger] text::texts(terms@)[k])
                ==> walks(cursors@, k),
        cursors@.len() <= terms@.len(),
        cursors@.len() == terms@.len() ==> forall|i: int|
            0 <= i < cursors@.len() ==> (#[trigger] cursors@[i]).ordinal == i,
        cursors@.len() < terms@.len() ==> exists|k: int|
            0 <= k < terms@.len() && !built.terms.has(#[trigger] text::texts(terms@)[k]),
{
    let ghost names = text::texts(terms@);
    let mut cursors: Vec<WandCursor<'a>> = Vec::new();
    let mut done: usize = 0;
    while done < terms.len()
        invariant
            built.wf(),
            done <= terms@.len(),
            names == text::texts(terms@),
            cursors@.len() <= done,
            forall|i: int|
                0 <= i < cursors@.len() ==> cursor_ok(#[trigger] cursors@[i], scorer, built, names)
                    && cursors@[i].index == 0 && cursors@[i].ordinal < done,
            forall|i: int, j: int|
                0 <= i < j < cursors@.len() ==> (#[trigger] cursors@[i]).ordinal < (
                #[trigger] cursors@[j]).ordinal,
            forall|k: int|
                0 <= k < done && built.terms.has(#[trigger] names[k]) ==> walks(cursors@, k),
            cursors@.len() == done ==> forall|i: int|
                0 <= i < cursors@.len() ==> (#[trigger] cursors@[i]).ordinal == i,
            cursors@.len() < done ==> exists|k: int|
                0 <= k < done && !built.terms.has(#[trigger] names[k]),
        decreases terms@.len() - done,
    {
        let ghost before = cursors@;
        assert(names[done as int] == terms@[done as int]@);
        if let Some(list) = built.terms.get(terms[done].as_str()) {
            let list_bound: u32 = scorer.bound(
                done,
                list.max_tf,
                list.min_doc_len,
                list.max_tf,
                list.min_doc_len,
            );
            cursors.push(WandCursor { list, index: 0, ordinal: done, list_bound });
            assert(cursors@[before.len() as int].ordinal == done);
        } else {
            assert(!built.terms.has(names[done as int]));
        }
        assert forall|k: int|
            0 <= k < done + 1 && built.terms.has(#[trigger] names[k]) implies walks(
            cursors@,
            k,
        ) by {
            if k < done {
                assert(walks(before, k));
                let i = choose|i: int| 0 <= i < before.len() && (#[trigger] before[i]).ordinal == k;
                assert(cursors@[i] == before[i]);
            }
        }
        done = done + 1;
    }
    cursors
}

/// Some cursor walks the list of the term with this ordinal.
pub open spec fn walks(cursors: Seq<WandCursor<'_>>, ordinal: int) -> bool {
    exists|i: int| 0 <= i < cursors.len() && (#[trigger] cursors[i]).ordinal == ordinal
}

/// Where no total of bounds reaches the last entry, nothing that the bounds cover
/// does.
pub(crate) proof fn lemma_pruned<S: Scorer>(
    frame: Frame,
    scorer: &S,
    top: TopK,
    segment: int,
    docid: int,
    bounds: Seq<u32>,
    total: u64,
    via: spec_fn(int) -> int,
)
    requires
        top.wf(),
        top.full(),
        frame.snapshot.in_range(segment, docid),
        frame.sure ==> scorer::admissible(scorer, frame.snapshot, frame.terms),
        frame.scored == scorer::scoring(scorer),
        frame.sound(top.ranked@, top.limit as int),
        entries_before(top.ranked@, segment, docid),
        scorer::joined(scorer, bounds, total),
        scorer::bounds_given(scorer, &frame.snapshot.segments@[segment], frame.terms, bounds),
        call_ensures(S::reaches, (scorer, total, top.ranked@.last().score), false) || call_ensures(
            S::below,
            (scorer, total, top.ranked@.last().score),
            true,
        ),
        forall|k: int|
            0 <= k < frame.terms.len() && frame.snapshot.segments@[segment].holds(
                docid,
                #[trigger] frame.terms[k],
            ) ==> 0 <= via(k) < bounds.len() && scorer::bounds_part(
                scorer,
                frame.snapshot.segments@[segment].part(frame.terms, docid, k),
                bounds[via(k)],
            ),
        forall|j: int, k: int|
            0 <= j < k < frame.terms.len() && frame.snapshot.segments@[segment].holds(
                docid,
                #[trigger] frame.terms[j],
            ) && frame.snapshot.segments@[segment].holds(docid, #[trigger] frame.terms[k]) ==> via(
                j,
            ) != via(k),
    ensures
        frame.dominated(top.ranked@, top.limit as int, segment, docid),
{
    let built = frame.snapshot.segments@[segment];
    let theta = top.ranked@.last().score;
    reveal(scorer::admissible);
    if frame.sure {
        assert(scorer::scored_before(
            scorer,
            frame.snapshot,
            frame.terms,
            segment,
            docid,
            theta,
        )) by {
            let last = top.ranked@.last();
            assert(last == top.ranked@[top.ranked@.len() - 1]);
            let earlier = frame.snapshot.segments@[last.segment as int].parts(
                frame.terms,
                last.docid as int,
            );
            assert(scorer::scored(scorer, earlier, theta));
        }
        assert forall|parts: Seq<scorer::Part>, score: u32|
            built.some_parts(frame.terms, docid, parts) && #[trigger] (frame.scored)(
                parts,
                score,
            ) implies ranking::score_key(score) < ranking::score_key(theta) by {
            let chosen = Seq::new(parts.len(), |i: int| via(parts[i].ordinal as int));
            assert(scorer::covered(scorer, parts, bounds, chosen)) by {
                assert forall|i: int| 0 <= i < parts.len() implies 0 <= #[trigger] chosen[i]
                    < bounds.len() && scorer::bounds_part(
                    scorer,
                    parts[i],
                    bounds[chosen[i]],
                ) by {
                    let k = parts[i].ordinal as int;
                    assert(built.holds(docid, frame.terms[k]));
                }
                assert forall|i: int, j: int|
                    0 <= i < j < parts.len() implies #[trigger] chosen[i]
                    != #[trigger] chosen[j] by {
                    let (k, l) = (parts[i].ordinal as int, parts[j].ordinal as int);
                    assert(built.holds(docid, frame.terms[k]));
                    assert(built.holds(docid, frame.terms[l]));
                }
            }
            assert(scorer::scored(scorer, parts, score));
        }
    }
}

/// Settled documents of earlier segments stay settled.
pub(crate) proof fn lemma_progress_stays(
    frame: Frame,
    before: TopK,
    after: TopK,
    segment: int,
)
    requires
        progress(frame, before, segment),
        after.wf(),
        after.limit == before.limit,
        frame.sound(after.ranked@, after.limit as int),
        frame.advances(before.ranked@, after.ranked@, before.limit as int),
    ensures
        progress(frame, after, segment),
{
    assert forall|s: int, d: int|
        0 <= s < segment && frame.snapshot.in_range(s, d) implies #[trigger] frame.settled(
        after.ranked@,
        after.limit as int,
        s,
        d,
    ) by {
        assert(frame.settled(before.ranked@, before.limit as int, s, d));
    }
}

impl Snapshot {
    /// Enters a live document whose score is known.
    pub(crate) fn enter(
        &self,
        hit: RankedDoc,
        ranked: &mut TopK,
        Ghost(frame): Ghost<Frame>,
        Ghost(segment): Ghost<int>,
    )
        requires
            frame.wf(),
            frame.snapshot == *self,
            progress(frame, *old(ranked), segment),
            hit.segment == segment,
            frame.candidate(segment, hit.docid as int),
            hit.rowid == self.doc(segment, hit.docid as int).rowid,
            entries_before(old(ranked).ranked@, segment, hit.docid as int),
            frame.sure || !old(ranked).full() ==> frame.has_score(
                segment,
                hit.docid as int,
                hit.score,
            )
                || frame.dominated(
                old(ranked).ranked@,
                old(ranked).limit as int,
                segment,
                hit.docid as int,
            ) && ranking::ranks_before(old(ranked).ranked@.last(), hit),
        ensures
            progress(frame, *final(ranked), segment),
            final(ranked).limit == old(ranked).limit,
            frame.advances(
                old(ranked).ranked@,
                final(ranked).ranked@,
                old(ranked).limit as int,
            ),
            frame.settled(
                final(ranked).ranked@,
                old(ranked).limit as int,
                segment,
                hit.docid as int,
            ),
            entries_before(final(ranked).ranked@, segment, hit.docid + 1),
            one_more(*old(ranked), *final(ranked)),
    {
        let ghost top = *ranked;
        let ghost before = ranked.ranked@;
        assert(!answer::listed(before, segment, hit.docid as int));
        ranked.push(hit);
        proof {
            let after = ranked.ranked@;
            assert(answer::pushed(before, after, ranked.limit as int, hit));
            frame.lemma_push(before, after, ranked.limit as int, hit);
            lemma_progress_stays(frame, top, *ranked, segment);
            assert forall|i: int| 0 <= i < after.len() implies (#[trigger] after[i]).segment
                < segment || (after[i].segment == segment && after[i].docid < hit.docid + 1) by {
                assert(after.contains(after[i]));
                if before.contains(after[i]) {
                    let j = choose|j: int| 0 <= j < before.len() && before[j] == after[i];
                    assert(before[j].segment == after[i].segment);
                }
            }
        }
    }
}

/// There is one entry more, as far as there is room.
pub open spec fn one_more(before: TopK, after: TopK) -> bool {
    after.ranked@.len() == if before.full() {
        before.ranked@.len()
    } else {
        before.ranked@.len() + 1
    }
}

} // verus!
