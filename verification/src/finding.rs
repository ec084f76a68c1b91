//! What a search finds, told by the contents of the database.
//!
//! The laws here speak of documents as their fields, of terms as what stands in these
//! fields, and of scores as what the scorer makes of counts and lengths.
use crate::answer;
use crate::matching;
use crate::meaning::reading;
use crate::places;
use crate::places::all_terms;
use crate::query::{Query, SearchHit};
use crate::ranking::RankedDoc;
use crate::scorer;
use crate::scorer::Scorer;
use crate::scoring;
use crate::search;
use crate::segment::Segment;
use crate::snapshot::Snapshot;
use crate::text;
use crate::tokenizer;
use vstd::prelude::*;

verus! {

/// The database holds a document with this rowid and these fields, and it matches.
pub open spec fn asked_for(
    snapshot: Snapshot,
    query: Query,
    rowid: i64,
    fields: Seq<Seq<char>>,
) -> bool {
    snapshot.content(rowid) == Some(fields) && matching::matches(query, reading(fields))
}

/// One of the hits is the document with this rowid.
pub open spec fn found(hits: Seq<SearchHit>, rowid: i64) -> bool {
    exists|i: int| 0 <= i < hits.len() && (#[trigger] hits[i]).rowid == rowid
}

/// A live document of a faithful snapshot reads as its fields say.
pub(crate) proof fn lemma_reads(snapshot: Snapshot, s: int, d: int)
    requires
        snapshot.wf(),
        snapshot.faithful(),
        snapshot.live(s, d),
    ensures
        snapshot.content(snapshot.doc(s, d).rowid) == Some(snapshot.doc(s, d).texts()),
        snapshot.segments@[s].document(d) == reading(snapshot.doc(s, d).texts()),
{
    let built = snapshot.segments@[s];
    assert(built.wf() && built.faithful());
    let fields = built.docs@[d].texts();
    assert(built.document(d) =~= reading(fields)) by {
        assert forall|term: Seq<char>| #[trigger]
            built.document(d)(term) == reading(fields)(term) by {
            assert(built.positions(d, term) == tokenizer::term_occurrences(fields, term));
        }
    }
}

/// A document of the database has a place.
proof fn lemma_placed(snapshot: Snapshot, rowid: i64) -> (place: (int, int))
    requires
        snapshot.wf(),
        snapshot.content(rowid) is Some,
    ensures
        snapshot.live(place.0, place.1),
        snapshot.doc(place.0, place.1).rowid == rowid,
        snapshot.content(rowid) == Some(snapshot.doc(place.0, place.1).texts()),
{
    assert(snapshot.latest@.contains_key(rowid) && !snapshot.latest@[rowid].deleted);
    let location = snapshot.latest@[rowid];
    (location.segment as int, location.docid as int)
}

/// What the hits of a search were shown from.
pub(crate) proof fn lemma_source<S: Scorer>(
    snapshot: Snapshot,
    query: Query,
    limit: int,
    exhaustive: bool,
    scorer: &S,
    hits: Seq<SearchHit>,
) -> (source: (Seq<Seq<char>>, Seq<RankedDoc>))
    requires
        snapshot.answers(query, limit, exhaustive, scorer, hits),
    ensures
        snapshot.scoring_terms(query, source.0),
        snapshot.frame(query, source.0, exhaustive, scorer).answer(source.1, limit),
        search::hits_show(snapshot, source.1, hits),
{
    choose|terms: Seq<Seq<char>>, ranked: Seq<RankedDoc>|
        snapshot.scoring_terms(query, terms) && #[trigger] snapshot.frame(
            query,
            terms,
            exhaustive,
            scorer,
        ).answer(ranked, limit) && search::hits_show(snapshot, ranked, hits)
}

/// Every hit is a document of the database that matches, shown with its fields; none
/// stands twice, and there are no more than asked for.
pub proof fn hits_are_asked_for<S: Scorer>(
    snapshot: Snapshot,
    query: Query,
    limit: int,
    exhaustive: bool,
    scorer: &S,
    hits: Seq<SearchHit>,
)
    requires
        snapshot.wf(),
        snapshot.faithful(),
        snapshot.answers(query, limit, exhaustive, scorer, hits),
    ensures
        hits.len() <= limit,
        forall|i: int|
            0 <= i < hits.len() ==> asked_for(
                snapshot,
                query,
                (#[trigger] hits[i]).rowid,
                text::texts(hits[i].fields@),
            ),
        forall|i: int, j: int|
            0 <= i < j < hits.len() ==> (#[trigger] hits[i]).rowid != (#[trigger] hits[j]).rowid,
{
    let (terms, ranked) = lemma_source(snapshot, query, limit, exhaustive, scorer, hits);
    let frame = snapshot.frame(query, terms, exhaustive, scorer);
    assert forall|i: int| 0 <= i < hits.len() implies asked_for(
        snapshot,
        query,
        (#[trigger] hits[i]).rowid,
        text::texts(hits[i].fields@),
    ) by {
        let entry = ranked[i];
        let (s, d) = (entry.segment as int, entry.docid as int);
        assert(frame.candidate(s, d));
        lemma_reads(snapshot, s, d);
    }
    assert forall|i: int, j: int| 0 <= i < j < hits.len() implies (#[trigger] hits[i]).rowid != (
    #[trigger] hits[j]).rowid by {
        let (a, b) = (ranked[i], ranked[j]);
        assert(frame.candidate(a.segment as int, a.docid as int));
        assert(frame.candidate(b.segment as int, b.docid as int));
        assert(snapshot.live(a.segment as int, a.docid as int));
        assert(snapshot.live(b.segment as int, b.docid as int));
    }
}

/// A document that is asked for is looked for.
pub(crate) proof fn lemma_candidate<S: Scorer>(
    snapshot: Snapshot,
    query: Query,
    terms: Seq<Seq<char>>,
    exhaustive: bool,
    scorer: &S,
    s: int,
    d: int,
)
    requires
        snapshot.wf(),
        snapshot.faithful(),
        snapshot.scoring_terms(query, terms),
        snapshot.live(s, d),
        matching::matches(query, reading(snapshot.doc(s, d).texts())),
    ensures
        snapshot.frame(query, terms, exhaustive, scorer).candidate(s, d),
{
    let frame = snapshot.frame(query, terms, exhaustive, scorer);
    lemma_reads(snapshot, s, d);
    if !frame.all {
        scoring::anchored_matches_hold_a_term(snapshot, query, None, s, d);
        let term = choose|term: Seq<char>| #[trigger]
            snapshot.segments@[s].holds(d, term) && snapshot.scores(query, term);
        assert(terms.contains(term));
        let k = choose|k: int| 0 <= k < terms.len() && terms[k] == term;
        assert(snapshot.segments@[s].holds(d, terms[k]));
        assert(frame.snapshot.segments@[s].holds(d, frame.terms[k]));
        assert(frame.holds_term(s, d));
    }
    assert(matching::matches(query, snapshot.segments@[s].document(d)));
}

/// A search that finds fewer documents than it may show finds every document that
/// matches.
pub proof fn unfilled_searches_are_complete<S: Scorer>(
    snapshot: Snapshot,
    query: Query,
    limit: int,
    exhaustive: bool,
    scorer: &S,
    hits: Seq<SearchHit>,
    rowid: i64,
    fields: Seq<Seq<char>>,
)
    requires
        snapshot.wf(),
        snapshot.faithful(),
        snapshot.answers(query, limit, exhaustive, scorer, hits),
        hits.len() < limit,
        asked_for(snapshot, query, rowid, fields),
    ensures
        found(hits, rowid),
{
    let (terms, ranked) = lemma_source(snapshot, query, limit, exhaustive, scorer, hits);
    let frame = snapshot.frame(query, terms, exhaustive, scorer);
    let (s, d) = lemma_placed(snapshot, rowid);
    lemma_candidate(snapshot, query, terms, exhaustive, scorer, s, d);
    assert(frame.settled(ranked, limit, s, d));
    assert(answer::listed(ranked, s, d));
    let i = choose|i: int|
        0 <= i < ranked.len() && (#[trigger] ranked[i]).segment == s && ranked[i].docid == d;
    assert(hits[i].rowid == ranked[i].rowid);
}

/// A larger number, by the bits of both: with the sign bit clear numbers stand as their
/// bits, with it set the other way round, and all of the latter are below all of the
/// former.
pub open spec fn outscores(left: u32, right: u32) -> bool {
    let (minus, minus2) = (left >= 0x8000_0000, right >= 0x8000_0000);
    if minus == minus2 {
        if minus {
            left < right
        } else {
            left > right
        }
    } else {
        minus2
    }
}

/// The hits stand by their scores, the largest first, and by their rowids where the
/// scores are the same.
pub proof fn hits_stand_by_score<S: Scorer>(
    snapshot: Snapshot,
    query: Query,
    limit: int,
    exhaustive: bool,
    scorer: &S,
    hits: Seq<SearchHit>,
    i: int,
    j: int,
)
    requires
        snapshot.wf(),
        snapshot.faithful(),
        snapshot.answers(query, limit, exhaustive, scorer, hits),
        0 <= i < j < hits.len(),
    ensures
        outscores(hits[i].score, hits[j].score) || (hits[i].score == hits[j].score && hits[i].rowid
            < hits[j].rowid),
{
    hits_are_asked_for(snapshot, query, limit, exhaustive, scorer, hits);
    let (terms, ranked) = lemma_source(snapshot, query, limit, exhaustive, scorer, hits);
    assert(crate::ranking::ranks_before(ranked[i], ranked[j]));
    assert(hits[i].rowid != hits[j].rowid);
}

/// `counted` are the places, in their order, of those of `terms` that stand in the
/// fields.
pub open spec fn counts_terms(
    terms: Seq<Seq<char>>,
    fields: Seq<Seq<char>>,
    counted: Seq<int>,
) -> bool {
    &&& forall|i: int, j: int|
        0 <= i < j < counted.len() ==> #[trigger] counted[i] < #[trigger] counted[j]
    &&& forall|k: int| #[trigger]
        counted.contains(k) == (0 <= k < terms.len() && all_terms(fields).contains(terms[k]))
}

/// The scorer comes to the score step by step: it starts, and adds one counted term
/// after the other, by how often it stands in the document and by how many terms the
/// document has.
pub open spec fn adds_up<S: Scorer>(
    scorer: &S,
    terms: Seq<Seq<char>>,
    fields: Seq<Seq<char>>,
    counted: Seq<int>,
    steps: Seq<u32>,
) -> bool {
    &&& steps.len() == counted.len() + 1
    &&& call_ensures(S::start, (scorer,), steps[0])
    &&& forall|i: int|
        0 <= i < counted.len() ==> #[trigger] adds_term(
            scorer,
            steps[i],
            counted[i],
            all_terms(fields).to_multiset().count(terms[counted[i]]),
            all_terms(fields).len(),
            steps[i + 1],
        )
}

/// The scorer adds a term that stands `times` times among `length` terms.
pub open spec fn adds_term<S: Scorer>(
    scorer: &S,
    before: u32,
    ordinal: int,
    times: nat,
    length: nat,
    after: u32,
) -> bool {
    call_ensures(
        S::add_term,
        (scorer, before, ordinal as usize, times as u32, length as u32),
        after,
    )
}

/// A score of a document with these fields, where `terms` count.
pub open spec fn scored_as<S: Scorer>(
    scorer: &S,
    terms: Seq<Seq<char>>,
    fields: Seq<Seq<char>>,
    score: u32,
) -> bool {
    exists|counted: Seq<int>, steps: Seq<u32>|
        counts_terms(terms, fields, counted) && #[trigger] adds_up(
            scorer,
            terms,
            fields,
            counted,
            steps,
        ) && steps.last() == score
}

/// What the index knows of a term in a document of these fields.
proof fn lemma_term_in(built: &Segment, d: int, term: Seq<char>)
    requires
        built.wf(),
        built.faithful(),
        0 <= d < built.docs@.len(),
        all_terms(built.docs@[d].texts()).len() <= u32::MAX,
    ensures
        built.holds(d, term) == all_terms(built.docs@[d].texts()).contains(term),
        built.holds(d, term) ==> built.freq(d, term) == all_terms(
            built.docs@[d].texts(),
        ).to_multiset().count(term),
        built.docs@[d].len == all_terms(built.docs@[d].texts()).len(),
{
    broadcast use vstd::seq_lib::group_to_multiset_ensures;

    let fields = built.docs@[d].texts();
    let all = all_terms(fields);
    assert(built.positions(d, term) == tokenizer::term_occurrences(fields, term));
    places::occurrences_count_the_term(fields, term);
    places::length_is_the_number_of_terms(fields);
    places::tokens_are_the_terms(fields);
    tokenizer::term_occurrences_bound(fields, term);
    assert(all.to_multiset().count(term) > 0 <==> all.contains(term));
    if built.holds(d, term) {
        built.lemma_list(term);
        let list = built.terms.lookup(term)->0;
        assert(list.has_doc(d));
        let i = list.index_of(d);
        assert(list.docids@[i] == d);
        assert(list.freqs@[i] == list.positions@[i]@.len() as u32);
    }
}

/// The parts of a document and the terms that stand in its fields.
proof fn lemma_parts_are_counted<S: Scorer>(
    scorer: &S,
    built: &Segment,
    terms: Seq<Seq<char>>,
    d: int,
    score: u32,
)
    requires
        built.wf(),
        built.faithful(),
        0 <= d < built.docs@.len(),
        all_terms(built.docs@[d].texts()).len() <= u32::MAX,
        scorer::scored(scorer, built.parts(terms, d), score),
    ensures
        scored_as(scorer, terms, built.docs@[d].texts(), score),
    decreases terms.len(),
{
    let fields = built.docs@[d].texts();
    if terms.len() == 0 {
        let (counted, steps) = (Seq::<int>::empty(), seq![score]);
        assert(counts_terms(terms, fields, counted));
        assert(adds_up(scorer, terms, fields, counted, steps));
    } else {
        let fewer = terms.drop_last();
        let last = terms.len() - 1;
        lemma_term_in(built, d, terms.last());
        let parts = built.parts(terms, d);
        if built.holds(d, terms.last()) {
            let part = built.part(terms, d, last);
            assert(parts.drop_last() =~= built.parts(fewer, d));
            assert(parts.last() == part);
            let before = choose|before: u32|
                scorer::scored(scorer, parts.drop_last(), before) && #[trigger] call_ensures(
                    S::add_term,
                    (
                        scorer,
                        before,
                        parts.last().ordinal,
                        parts.last().freq,
                        parts.last().doc_len,
                    ),
                    score,
                );
            lemma_parts_are_counted(scorer, built, fewer, d, before);
            let (some, done) = choose|counted: Seq<int>, steps: Seq<u32>|
                counts_terms(fewer, fields, counted) && #[trigger] adds_up(
                    scorer,
                    fewer,
                    fields,
                    counted,
                    steps,
                ) && steps.last() == before;
            let (counted, steps) = (some.push(last), done.push(score));
            lemma_counted_before(fewer, fields, some);
            assert forall|k: int| #[trigger] counted.contains(k) == (0 <= k < terms.len()
                && all_terms(fields).contains(terms[k])) by {
                assert(counted[some.len() as int] == last);
                if some.contains(k) {
                    let i = choose|i: int| 0 <= i < some.len() && some[i] == k;
                    assert(counted[i] == k);
                    assert(fewer[k] == terms[k]);
                } else if counted.contains(k) {
                    let i = choose|i: int| 0 <= i < counted.len() && counted[i] == k;
                    if i < some.len() {
                        assert(some[i] == k);
                    }
                }
                if 0 <= k < last {
                    assert(fewer[k] == terms[k]);
                }
            }
            assert(adds_up(scorer, terms, fields, counted, steps)) by {
                assert forall|i: int| 0 <= i < counted.len() implies #[trigger] adds_term(
                    scorer,
                    steps[i],
                    counted[i],
                    all_terms(fields).to_multiset().count(terms[counted[i]]),
                    all_terms(fields).len(),
                    steps[i + 1],
                ) by {
                    if i < some.len() {
                        assert(adds_term(
                            scorer,
                            done[i],
                            some[i],
                            all_terms(fields).to_multiset().count(fewer[some[i]]),
                            all_terms(fields).len(),
                            done[i + 1],
                        ));
                        assert(fewer[some[i]] == terms[some[i]]);
                    }
                }
            }
        } else {
            lemma_parts_are_counted(scorer, built, fewer, d, score);
            let (counted, steps) = choose|counted: Seq<int>, steps: Seq<u32>|
                counts_terms(fewer, fields, counted) && #[trigger] adds_up(
                    scorer,
                    fewer,
                    fields,
                    counted,
                    steps,
                ) && steps.last() == score;
            lemma_counted_before(fewer, fields, counted);
            assert forall|k: int| #[trigger] counted.contains(k) == (0 <= k < terms.len()
                && all_terms(fields).contains(terms[k])) by {
                if 0 <= k < last {
                    assert(fewer[k] == terms[k]);
                }
            }
            assert(adds_up(scorer, terms, fields, counted, steps)) by {
                assert forall|i: int| 0 <= i < counted.len() implies #[trigger] adds_term(
                    scorer,
                    steps[i],
                    counted[i],
                    all_terms(fields).to_multiset().count(terms[counted[i]]),
                    all_terms(fields).len(),
                    steps[i + 1],
                ) by {
                    assert(adds_term(
                        scorer,
                        steps[i],
                        counted[i],
                        all_terms(fields).to_multiset().count(fewer[counted[i]]),
                        all_terms(fields).len(),
                        steps[i + 1],
                    ));
                    assert(fewer[counted[i]] == terms[counted[i]]);
                }
            }
        }
    }
}

proof fn lemma_counted_before(
    terms: Seq<Seq<char>>,
    fields: Seq<Seq<char>>,
    counted: Seq<int>,
)
    requires
        counts_terms(terms, fields, counted),
    ensures
        forall|i: int| 0 <= i < counted.len() ==> 0 <= #[trigger] counted[i] < terms.len(),
{
    assert forall|i: int| 0 <= i < counted.len() implies 0 <= #[trigger] counted[i]
        < terms.len() by {
        assert(counted.contains(counted[i]));
    }
}

/// The score of a hit is what the scorer makes of the terms that count: how often each
/// stands in the document, and how many terms the document has. This holds of every
/// search that finds fewer documents than it may show, and of every other whose
/// pruning is safe.
pub proof fn hits_are_scored_by_their_terms<S: Scorer>(
    snapshot: Snapshot,
    query: Query,
    limit: int,
    exhaustive: bool,
    scorer: &S,
    hits: Seq<SearchHit>,
    terms: Seq<Seq<char>>,
    i: int,
)
    requires
        snapshot.wf(),
        snapshot.faithful(),
        snapshot.answers(query, limit, exhaustive, scorer, hits),
        snapshot.scoring_terms(query, terms),
        hits.len() < limit || (scorer::functional(scorer) && (exhaustive || snapshot.bounds_hold(
            query,
            scorer,
        ))),
        0 <= i < hits.len(),
        all_terms(text::texts(hits[i].fields@)).len() <= u32::MAX,
    ensures
        scored_as(scorer, terms, text::texts(hits[i].fields@), hits[i].score),
{
    let (names, ranked) = lemma_source(snapshot, query, limit, exhaustive, scorer, hits);
    let frame = snapshot.frame(query, names, exhaustive, scorer);
    crate::agreement::scoring_terms_unique(snapshot, snapshot, query, names, terms);
    let entry = ranked[i];
    let (s, d) = (entry.segment as int, entry.docid as int);
    assert(frame.candidate(s, d));
    lemma_reads(snapshot, s, d);
    assert(snapshot.segments@[s].wf() && snapshot.segments@[s].faithful());
    assert(frame.has_score(s, d, entry.score));
    assert(hits[i].score == entry.score);
    lemma_parts_are_counted(scorer, &snapshot.segments@[s], terms, d, entry.score);
}

/// Counted terms are the parts of a document.
proof fn lemma_counted_are_parts<S: Scorer>(
    scorer: &S,
    built: &Segment,
    terms: Seq<Seq<char>>,
    d: int,
    counted: Seq<int>,
    steps: Seq<u32>,
)
    requires
        built.wf(),
        built.faithful(),
        0 <= d < built.docs@.len(),
        all_terms(built.docs@[d].texts()).len() <= u32::MAX,
        counts_terms(terms, built.docs@[d].texts(), counted),
        adds_up(scorer, terms, built.docs@[d].texts(), counted, steps),
    ensures
        scorer::scored(scorer, built.parts(terms, d), steps.last()),
    decreases terms.len(),
{
    let fields = built.docs@[d].texts();
    lemma_counted_before(terms, fields, counted);
    if terms.len() == 0 {
        assert(counted.len() == 0) by {
            if counted.len() > 0 {
                assert(0 <= counted[0] < terms.len());
            }
        }
    } else {
        let fewer = terms.drop_last();
        let last = terms.len() - 1;
        lemma_term_in(built, d, terms.last());
        if built.holds(d, terms.last()) {
            assert(counted.contains(last));
            let at = choose|i: int| 0 <= i < counted.len() && counted[i] == last;
            let end = counted.len() - 1;
            if at < end {
                assert(counted[at] < counted[end]);
            }
            let (some, done) = (counted.drop_last(), steps.drop_last());
            assert(counts_terms(fewer, fields, some)) by {
                assert forall|k: int| #[trigger] some.contains(k) == (0 <= k < fewer.len()
                    && all_terms(fields).contains(fewer[k])) by {
                    assert(counted.contains(k) == (0 <= k < terms.len() && all_terms(
                        fields,
                    ).contains(terms[k])));
                    if some.contains(k) {
                        let i = choose|i: int| 0 <= i < some.len() && some[i] == k;
                        assert(counted[i] == k);
                        assert(counted[i] < counted[end]);
                    }
                    if 0 <= k < fewer.len() && counted.contains(k) {
                        let i = choose|i: int| 0 <= i < counted.len() && counted[i] == k;
                        assert(some[i] == k);
                    }
                }
            }
            assert(adds_up(scorer, fewer, fields, some, done)) by {
                assert forall|i: int| 0 <= i < some.len() implies #[trigger] adds_term(
                    scorer,
                    done[i],
                    some[i],
                    all_terms(fields).to_multiset().count(fewer[some[i]]),
                    all_terms(fields).len(),
                    done[i + 1],
                ) by {
                    assert(counted[i] < counted[end]);
                    assert(adds_term(
                        scorer,
                        steps[i],
                        counted[i],
                        all_terms(fields).to_multiset().count(terms[counted[i]]),
                        all_terms(fields).len(),
                        steps[i + 1],
                    ));
                }
            }
            lemma_counted_are_parts(scorer, built, fewer, d, some, done);
            assert(adds_term(
                scorer,
                steps[end],
                counted[end],
                all_terms(fields).to_multiset().count(terms[counted[end]]),
                all_terms(fields).len(),
                steps[end + 1],
            ));
            let parts = built.parts(terms, d);
            assert(parts.drop_last() =~= built.parts(fewer, d));
            assert(parts.last() == built.part(terms, d, last));
            assert(done.last() == steps[end]);
            assert(scorer::scored(scorer, parts.drop_last(), steps[end]));
        } else {
            assert(counts_terms(fewer, fields, counted)) by {
                assert forall|k: int| #[trigger] counted.contains(k) == (0 <= k < fewer.len()
                    && all_terms(fields).contains(fewer[k])) by {}
            }
            assert(adds_up(scorer, fewer, fields, counted, steps)) by {
                assert forall|i: int| 0 <= i < counted.len() implies #[trigger] adds_term(
                    scorer,
                    steps[i],
                    counted[i],
                    all_terms(fields).to_multiset().count(fewer[counted[i]]),
                    all_terms(fields).len(),
                    steps[i + 1],
                ) by {
                    assert(counted.contains(counted[i]));
                    assert(adds_term(
                        scorer,
                        steps[i],
                        counted[i],
                        all_terms(fields).to_multiset().count(terms[counted[i]]),
                        all_terms(fields).len(),
                        steps[i + 1],
                    ));
                }
            }
            lemma_counted_are_parts(scorer, built, fewer, d, counted, steps);
        }
    }
}

/// What a search leaves out comes behind what it shows: where a document that matches
/// is not among the hits, these are as many as asked for, and the last of them has a
/// larger score, or the same score and a smaller rowid.
pub proof fn hits_are_the_best<S: Scorer>(
    snapshot: Snapshot,
    query: Query,
    limit: int,
    exhaustive: bool,
    scorer: &S,
    hits: Seq<SearchHit>,
    terms: Seq<Seq<char>>,
    rowid: i64,
    fields: Seq<Seq<char>>,
    score: u32,
)
    requires
        snapshot.wf(),
        snapshot.faithful(),
        limit > 0,
        snapshot.answers(query, limit, exhaustive, scorer, hits),
        snapshot.scoring_terms(query, terms),
        scorer::functional(scorer),
        exhaustive || snapshot.bounds_hold(query, scorer),
        asked_for(snapshot, query, rowid, fields),
        !found(hits, rowid),
        all_terms(fields).len() <= u32::MAX,
        scored_as(scorer, terms, fields, score),
    ensures
        hits.len() == limit,
        outscores(hits.last().score, score) || (hits.last().score == score && hits.last().rowid
            < rowid),
{
    let (names, ranked) = lemma_source(snapshot, query, limit, exhaustive, scorer, hits);
    crate::agreement::scoring_terms_unique(snapshot, snapshot, query, names, terms);
    let frame = snapshot.frame(query, terms, exhaustive, scorer);
    let (s, d) = lemma_placed(snapshot, rowid);
    lemma_candidate(snapshot, query, terms, exhaustive, scorer, s, d);
    assert(snapshot.segments@[s].wf() && snapshot.segments@[s].faithful());
    let (counted, steps) = choose|counted: Seq<int>, steps: Seq<u32>|
        counts_terms(terms, fields, counted) && #[trigger] adds_up(
            scorer,
            terms,
            fields,
            counted,
            steps,
        ) && steps.last() == score;
    lemma_counted_are_parts(scorer, &snapshot.segments@[s], terms, d, counted, steps);
    assert(frame.has_score(s, d, score));
    assert(frame.settled(ranked, limit, s, d));
    if answer::listed(ranked, s, d) {
        let i = choose|i: int|
            0 <= i < ranked.len() && (#[trigger] ranked[i]).segment == s && ranked[i].docid == d;
        assert(hits[i].rowid == ranked[i].rowid);
    }
    let last = ranked.last();
    let entry = frame.entry(s, d, score);
    assert(crate::ranking::ranks_before(last, entry));
    assert(hits.last().rowid == last.rowid && hits.last().score == last.score) by {
        assert(hits[hits.len() - 1].rowid == ranked[ranked.len() - 1].rowid);
    }
    if last.rowid == rowid {
        assert(hits[hits.len() - 1].rowid == rowid);
    }
}

} // verus!
