//! What a search says of its own work, told by the contents of the database.
use crate::answer::Frame;
use crate::counting;
use crate::counting::holders;
use crate::finding;
use crate::leapfrog;
use crate::matching;
use crate::meaning::reading;
use crate::places::all_terms;
use crate::query::{Query, SearchOptions, SearchResult};
use crate::scorer::Scorer;
use crate::scoring;
use crate::segment;
use crate::segment::{Segment, StoredDocument};
use crate::snapshot::Snapshot;
use crate::tally;
use crate::text;
use std::sync::Arc;
use vstd::prelude::*;

verus! {

/// The rowids of the documents whose fields are wanted.
pub open spec fn documents(
    snapshot: Snapshot,
    wanted: spec_fn(Seq<Seq<char>>) -> bool,
) -> Set<i64> {
    Set::new(|rowid: i64| snapshot.content(rowid) matches Some(fields) && wanted(fields))
}

/// A counter that shows a number, or the largest number that it can show.
pub open spec fn shows(counter: usize, number: nat) -> bool {
    counter == number || counter == usize::MAX && number > usize::MAX
}

/// A document is picked if and only if it is live and its weight is one; else it
/// weighs nothing.
spec fn weighs(
    picked: spec_fn(int, int) -> bool,
    live: spec_fn(int, int) -> bool,
    weight: spec_fn(StoredDocument) -> nat,
    doc: StoredDocument,
    s: int,
    d: int,
) -> bool {
    picked(s, d) == (live(s, d) && weight(doc) == 1) && weight(doc) <= 1
}

/// A tally of ones over some documents is a tally of weights over all live ones.
proof fn lemma_tally_weighs(
    segments: Seq<Arc<Segment>>,
    picked: spec_fn(int, int) -> bool,
    live: spec_fn(int, int) -> bool,
    weight: spec_fn(StoredDocument) -> nat,
)
    requires
        forall|s: int, d: int|
            0 <= s < segments.len() && 0 <= d < segments[s].docs@.len() ==> #[trigger] weighs(
                picked,
                live,
                weight,
                segments[s].docs@[d],
                s,
                d,
            ),
    ensures
        tally::tally(segments, picked, tally::one()) == tally::tally(segments, live, weight),
    decreases segments.len(),
{
    if segments.len() > 0 {
        let last = segments.len() - 1;
        let fewer = segments.drop_last();
        assert forall|s: int, d: int|
            0 <= s < fewer.len() && 0 <= d < fewer[s].docs@.len() implies #[trigger] weighs(
            picked,
            live,
            weight,
            fewer[s].docs@[d],
            s,
            d,
        ) by {
            assert(weighs(picked, live, weight, segments[s].docs@[d], s, d));
        }
        lemma_tally_weighs(fewer, picked, live, weight);
        let docs = segments[last].docs@;
        assert forall|d: int| 0 <= d < docs.len() implies #[trigger] weighs(
            picked,
            live,
            weight,
            docs[d],
            last,
            d,
        ) by {
            assert(weighs(picked, live, weight, segments[last].docs@[d], last, d));
        }
        lemma_segment_weighs(docs, last, picked, live, weight);
    }
}

proof fn lemma_segment_weighs(
    docs: Seq<StoredDocument>,
    s: int,
    picked: spec_fn(int, int) -> bool,
    live: spec_fn(int, int) -> bool,
    weight: spec_fn(StoredDocument) -> nat,
)
    requires
        forall|d: int|
            0 <= d < docs.len() ==> #[trigger] weighs(picked, live, weight, docs[d], s, d),
    ensures
        tally::segment_tally(docs, |d: int| picked(s, d), tally::one()) == tally::segment_tally(
            docs,
            |d: int| live(s, d),
            weight,
        ),
    decreases docs.len(),
{
    if docs.len() > 0 {
        let fewer = docs.drop_last();
        assert forall|d: int| 0 <= d < fewer.len() implies #[trigger] weighs(
            picked,
            live,
            weight,
            fewer[d],
            s,
            d,
        ) by {
            assert(weighs(picked, live, weight, docs[d], s, d));
        }
        lemma_segment_weighs(fewer, s, picked, live, weight);
        let last = docs.len() - 1;
        assert(weighs(picked, live, weight, docs[last], s, last));
    }
}

/// Live documents that are picked by their fields are counted by their rowids.
proof fn lemma_picked_by_fields(
    snapshot: Snapshot,
    picked: spec_fn(int, int) -> bool,
    wanted: spec_fn(Seq<Seq<char>>) -> bool,
)
    requires
        snapshot.wf(),
        forall|s: int, d: int| #[trigger]
            snapshot.in_range(s, d) ==> picked(s, d) == (snapshot.live(s, d) && wanted(
                snapshot.doc(s, d).texts(),
            )),
    ensures
        documents(snapshot, wanted).finite(),
        tally::tally(snapshot.segments@, picked, tally::one()) == documents(
            snapshot,
            wanted,
        ).len(),
{
    let some = documents(snapshot, wanted);
    let weight = |doc: StoredDocument|
        if wanted(doc.texts()) {
            1nat
        } else {
            0nat
        };
    let value = |rowid: i64|
        if some.contains(rowid) {
            1nat
        } else {
            0nat
        };
    assert forall|s: int, d: int|
        0 <= s < snapshot.segments@.len() && 0 <= d < snapshot.segments@[s].docs@.len()
        implies #[trigger] weighs(
        picked,
        snapshot.live_fn(),
        weight,
        snapshot.segments@[s].docs@[d],
        s,
        d,
    ) by {
        assert(snapshot.in_range(s, d));
    }
    lemma_tally_weighs(snapshot.segments@, picked, snapshot.live_fn(), weight);
    assert forall|s: int, d: int| #[trigger] snapshot.live(s, d) implies weight(
        snapshot.doc(s, d),
    ) == value(snapshot.doc(s, d).rowid) by {
        assert(snapshot.content(snapshot.doc(s, d).rowid) == Some(snapshot.doc(s, d).texts()));
    }
    snapshot.tally_is_sum(weight, value);
    assert(some.subset_of(snapshot.rowids()));
    counting::lemma_members(snapshot.rowids(), some, value);
}

/// The fields that match a query.
pub open spec fn that_match(query: Query) -> spec_fn(Seq<Seq<char>>) -> bool {
    |fields: Seq<Seq<char>>| matching::matches(query, reading(fields))
}

/// The fields in which every term of these stands.
pub open spec fn that_hold(terms: Seq<Seq<char>>) -> spec_fn(Seq<Seq<char>>) -> bool {
    |fields: Seq<Seq<char>>|
        forall|i: int| 0 <= i < terms.len() ==> all_terms(fields).contains(#[trigger] terms[i])
}

/// Whatever was searched for: no more documents are shown than were scored, and no more
/// are scored than were candidates. Where fewer are shown than asked for, every scored
/// one is shown. Nothing comes from the cache.
pub proof fn shown_documents_were_scored<S: Scorer>(
    snapshot: &Snapshot,
    query: &Query,
    options: SearchOptions,
    exhaustive: bool,
    scorer: &S,
    result: SearchResult,
)
    requires
        snapshot.wf(),
        snapshot.ordered(),
        options.limit > 0,
        call_ensures(
            Snapshot::search::<S>,
            (snapshot, query, options, exhaustive, scorer),
            result,
        ),
    ensures
        result.hits@.len() <= result.stats.scored_docs <= result.stats.candidate_docs,
        result.hits@.len() < options.limit ==> result.stats.scored_docs == result.hits@.len(),
        result.stats.segments == snapshot.segments@.len(),
        !result.stats.cache_hit,
{
}

/// An exhaustive search has every document of the database for a candidate and scores
/// every one that matches. It reads no postings.
pub proof fn exhaustive_searches_try_all_documents<S: Scorer>(
    snapshot: &Snapshot,
    query: &Query,
    options: SearchOptions,
    scorer: &S,
    result: SearchResult,
)
    requires
        snapshot.wf(),
        snapshot.ordered(),
        snapshot.faithful(),
        options.limit > 0,
        call_ensures(Snapshot::search::<S>, (snapshot, query, options, true, scorer), result),
    ensures
        documents(*snapshot, |fields: Seq<Seq<char>>| true).finite(),
        shows(
            result.stats.candidate_docs,
            documents(*snapshot, |fields: Seq<Seq<char>>| true).len(),
        ),
        documents(*snapshot, that_match(*query)).finite(),
        shows(result.stats.scored_docs, documents(*snapshot, that_match(*query)).len()),
        result.stats.posting_blocks == 0,
        result.stats.skipped_blocks == 0,
{
    let (all, wanted) = (|fields: Seq<Seq<char>>| true, that_match(*query));
    lemma_picked_by_fields(*snapshot, snapshot.live_fn(), all);
    let picked = snapshot.matching_docs(*query);
    assert forall|s: int, d: int| #[trigger] snapshot.in_range(s, d) implies picked(s, d) == (
    snapshot.live(s, d) && wanted(snapshot.doc(s, d).texts())) by {
        if snapshot.live(s, d) {
            finding::lemma_reads(*snapshot, s, d);
        }
    }
    lemma_picked_by_fields(*snapshot, picked, wanted);
}

/// A search for everything, or for what does not match, counts no term: it too has every
/// document for a candidate and scores every one that matches.
pub proof fn searches_without_terms_try_all_documents<S: Scorer>(
    snapshot: &Snapshot,
    query: &Query,
    options: SearchOptions,
    scorer: &S,
    result: SearchResult,
)
    requires
        snapshot.wf(),
        snapshot.ordered(),
        snapshot.faithful(),
        options.limit > 0,
        query is All || query is Not,
        call_ensures(Snapshot::search::<S>, (snapshot, query, options, false, scorer), result),
    ensures
        documents(*snapshot, |fields: Seq<Seq<char>>| true).finite(),
        shows(
            result.stats.candidate_docs,
            documents(*snapshot, |fields: Seq<Seq<char>>| true).len(),
        ),
        documents(*snapshot, that_match(*query)).finite(),
        shows(result.stats.scored_docs, documents(*snapshot, that_match(*query)).len()),
        result.stats.posting_blocks == 0,
        result.stats.skipped_blocks == 0,
{
    let (counted, _) = finding::lemma_source(
        *snapshot,
        *query,
        options.limit as int,
        false,
        scorer,
        result.hits@,
    );
    let frame = snapshot.frame(*query, counted, false, scorer);
    assert(!scoring::anchored(*query));
    assert(snapshot.scoring_terms(*query, counted));
    assert(frame.effort(result.stats, result.hits@.len() == options.limit));
    let (all, wanted) = (|fields: Seq<Seq<char>>| true, that_match(*query));
    lemma_picked_by_fields(*snapshot, snapshot.live_fn(), all);
    assert forall|s: int, d: int| #[trigger] snapshot.in_range(s, d) implies frame.candidates()(
        s,
        d,
    ) == (snapshot.live(s, d) && wanted(snapshot.doc(s, d).texts())) by {
        if snapshot.live(s, d) {
            finding::lemma_reads(*snapshot, s, d);
        }
    }
    lemma_picked_by_fields(*snapshot, frame.candidates(), wanted);
}

/// The query asks for all of these terms, none of them twice: for each on its own, or
/// for one behind the other.
pub open spec fn asks_for_each(query: Query, terms: Seq<Seq<char>>) -> bool {
    &&& terms.len() > 0
    &&& terms.no_duplicates()
    &&& match query {
        Query::And(children) => children@.len() == terms.len() && forall|i: int|
            0 <= i < children@.len() ==> (#[trigger] children@[i] matches Query::Term(name)
                && name@ == terms[i]),
        Query::Phrase(names) => text::texts(names@) == terms,
        _ => false,
    }
}

proof fn lemma_each_counts(snapshot: Snapshot, query: Query, terms: Seq<Seq<char>>, term: Seq<char>)
    requires
        asks_for_each(query, terms),
    ensures
        snapshot.scores(query, term) == terms.contains(term),
{
    counting::named_terms_count(snapshot, query, term);
    match query {
        Query::And(children) => {
            assert forall|i: int| 0 <= i < children@.len() implies snapshot.scores(
                #[trigger] children@[i],
                term,
            ) == (term == terms[i]) by {
                counting::named_terms_count(snapshot, children@[i], term);
            }
            if terms.contains(term) {
                let i = choose|i: int| 0 <= i < terms.len() && terms[i] == term;
                assert(snapshot.scores(children@[i], term));
            }
            if snapshot.scores(query, term) {
                let i = choose|i: int|
                    0 <= i < children@.len() && snapshot.scores(#[trigger] children@[i], term);
                assert(terms[i] == term);
            }
        },
        Query::Phrase(names) => {
            counting::lemma_named(names@, term);
        },
        _ => {},
    }
}

/// The terms that count are all there are, in another order.
proof fn lemma_as_many(
    snapshot: Snapshot,
    query: Query,
    terms: Seq<Seq<char>>,
    counted: Seq<Seq<char>>,
)
    requires
        asks_for_each(query, terms),
        snapshot.scoring_terms(query, counted),
    ensures
        counted.len() == terms.len(),
        forall|term: Seq<char>| #[trigger] counted.contains(term) == terms.contains(term),
{
    assert forall|term: Seq<char>| #[trigger] counted.contains(term) == terms.contains(term) by {
        lemma_each_counts(snapshot, query, terms, term);
    }
    assert(counted.no_duplicates()) by {
        assert forall|i: int, j: int| 0 <= i < j < counted.len() implies counted[i]
            != counted[j] by {
            text::text_order_laws(counted[i], counted[j], counted[i]);
        }
    }
    counted.unique_seq_to_set();
    terms.unique_seq_to_set();
    assert(counted.to_set() =~= terms.to_set());
}

/// The lists of all terms are walked together.
proof fn lemma_joins<S: Scorer>(
    snapshot: &Snapshot,
    query: &Query,
    terms: Seq<Seq<char>>,
    options: SearchOptions,
    scorer: &S,
    result: SearchResult,
) -> (counted: Seq<Seq<char>>)
    requires
        snapshot.wf(),
        snapshot.ordered(),
        options.limit > 0,
        asks_for_each(*query, terms),
        call_ensures(Snapshot::search::<S>, (snapshot, query, options, false, scorer), result),
    ensures
        snapshot.scoring_terms(*query, counted),
        forall|term: Seq<char>| #[trigger] counted.contains(term) == terms.contains(term),
        !snapshot.frame(*query, counted, false, scorer).all,
        snapshot.frame(*query, counted, false, scorer).effort(
            result.stats,
            result.hits@.len() == options.limit,
        ),
        crate::effort::joins_lists(*query, counted.len()),
{
    let (counted, _) = finding::lemma_source(
        *snapshot,
        *query,
        options.limit as int,
        false,
        scorer,
        result.hits@,
    );
    let frame = snapshot.frame(*query, counted, false, scorer);
    lemma_as_many(*snapshot, *query, terms, counted);
    assert(scoring::anchored(*query)) by {
        if let Query::And(children) = *query {
            assert(scoring::anchored(children@[0]));
        }
    }
    assert(!frame.all);
    assert(snapshot.scoring_terms(*query, counted));
    assert(frame.effort(result.stats, result.hits@.len() == options.limit));
    assert(crate::effort::joins_lists(*query, counted.len())) by {
        if let Query::And(children) = *query {
            assert forall|i: int| 0 <= i < children@.len() implies (
            #[trigger] children@[i]) is Term by {
                assert(children@[i] matches Query::Term(name) && name@ == terms[i]);
            }
        }
    }
    counted
}

/// A search for several terms that all must stand scores every match, however many are
/// asked for. Where no document was replaced or deleted, its candidates are the
/// documents in which all of the terms stand.
pub proof fn joined_searches_score_all_matches<S: Scorer>(
    snapshot: &Snapshot,
    query: &Query,
    terms: Seq<Seq<char>>,
    options: SearchOptions,
    scorer: &S,
    result: SearchResult,
)
    requires
        snapshot.wf(),
        snapshot.ordered(),
        snapshot.faithful(),
        options.limit > 0,
        asks_for_each(*query, terms),
        call_ensures(Snapshot::search::<S>, (snapshot, query, options, false, scorer), result),
    ensures
        documents(*snapshot, that_match(*query)).finite(),
        shows(result.stats.scored_docs, documents(*snapshot, that_match(*query)).len()),
        snapshot.all_live() ==> documents(*snapshot, that_hold(terms)).finite(),
        snapshot.all_live() ==> shows(
            result.stats.candidate_docs,
            documents(*snapshot, that_hold(terms)).len(),
        ),
        result.stats.posting_blocks == 0,
{
    let counted = lemma_joins(snapshot, query, terms, options, scorer, result);
    let frame = snapshot.frame(*query, counted, false, scorer);
    let every = snapshot.segments@;
    assert(every.take(every.len() as int) =~= every);
    let wanted = that_match(*query);
    assert forall|s: int, d: int| #[trigger] snapshot.in_range(s, d) implies frame.candidates()(
        s,
        d,
    ) == (snapshot.live(s, d) && wanted(snapshot.doc(s, d).texts())) by {
        if snapshot.live(s, d) {
            finding::lemma_reads(*snapshot, s, d);
            if wanted(snapshot.doc(s, d).texts()) {
                finding::lemma_candidate(*snapshot, *query, counted, false, scorer, s, d);
            }
        }
    }
    lemma_picked_by_fields(*snapshot, frame.candidates(), wanted);
    if snapshot.all_live() {
        let hold = that_hold(terms);
        assert forall|s: int, d: int| #[trigger]
            snapshot.in_range(s, d) implies frame.all_holders()(s, d) == (snapshot.live(s, d)
            && hold(snapshot.doc(s, d).texts())) by {
            lemma_holding_all(*snapshot, frame, terms, s, d);
        }
        lemma_picked_by_fields(*snapshot, frame.all_holders(), hold);
    }
}

proof fn lemma_stands(snapshot: Snapshot, s: int, d: int, term: Seq<char>)
    requires
        snapshot.wf(),
        snapshot.faithful(),
        snapshot.in_range(s, d),
    ensures
        snapshot.segments@[s].holds(d, term) == all_terms(snapshot.doc(s, d).texts()).contains(
            term,
        ),
{
    let built = snapshot.segments@[s];
    assert(built.wf() && built.faithful());
    let fields = built.docs@[d].texts();
    assert(built.positions(d, term) == crate::tokenizer::term_occurrences(fields, term));
    counting::terms_with_occurrences_stand(fields, term);
}

proof fn lemma_holding_all(snapshot: Snapshot, frame: Frame, terms: Seq<Seq<char>>, s: int, d: int)
    requires
        snapshot.wf(),
        snapshot.faithful(),
        snapshot.in_range(s, d),
        frame.snapshot == snapshot,
        forall|term: Seq<char>| #[trigger] frame.terms.contains(term) == terms.contains(term),
    ensures
        frame.holds_all(s, d) == that_hold(terms)(snapshot.doc(s, d).texts()),
{
    let fields = snapshot.doc(s, d).texts();
    assert forall|term: Seq<char>| snapshot.segments@[s].holds(d, term) == #[trigger] all_terms(
        fields,
    ).contains(term) by {
        lemma_stands(snapshot, s, d, term);
    }
    if frame.holds_all(s, d) {
        assert forall|i: int| 0 <= i < terms.len() implies all_terms(fields).contains(
            #[trigger] terms[i],
        ) by {
            assert(terms.contains(terms[i]) && frame.terms.contains(terms[i]));
            let k = choose|k: int| 0 <= k < frame.terms.len() && frame.terms[k] == terms[i];
            assert(frame.snapshot.segments@[s].holds(d, frame.terms[k]));
        }
    }
    if that_hold(terms)(fields) {
        assert forall|k: int| 0 <= k < frame.terms.len() implies frame.snapshot.segments@[s].holds(
            d,
            #[trigger] frame.terms[k],
        ) by {
            let term = frame.terms[k];
            assert(frame.terms.contains(term));
            assert(terms.contains(term));
            let i = choose|i: int| 0 <= i < terms.len() && terms[i] == term;
            assert(all_terms(fields).contains(terms[i]));
        }
    }
}

/// Exactly one term counts.
proof fn lemma_one_counts<S: Scorer>(
    snapshot: &Snapshot,
    query: &Query,
    term: Seq<char>,
    options: SearchOptions,
    scorer: &S,
    result: SearchResult,
) -> (counted: Seq<Seq<char>>)
    requires
        snapshot.wf(),
        snapshot.ordered(),
        options.limit > 0,
        query matches Query::Term(name) && name@ == term,
        call_ensures(Snapshot::search::<S>, (snapshot, query, options, false, scorer), result),
    ensures
        counted == seq![term],
        snapshot.scoring_terms(*query, counted),
        snapshot.frame(*query, counted, false, scorer).effort(
            result.stats,
            result.hits@.len() == options.limit,
        ),
{
    let (counted, _) = finding::lemma_source(
        *snapshot,
        *query,
        options.limit as int,
        false,
        scorer,
        result.hits@,
    );
    let frame = snapshot.frame(*query, counted, false, scorer);
    counting::named_terms_count(*snapshot, *query, term);
    assert(counted.contains(term));
    assert forall|k: int| 0 <= k < counted.len() implies #[trigger] counted[k] == term by {
        assert(counted.contains(counted[k]));
        counting::named_terms_count(*snapshot, *query, counted[k]);
    }
    assert(snapshot.scoring_terms(*query, counted));
    assert(frame.effort(result.stats, result.hits@.len() == options.limit));
    if counted.len() > 1 {
        assert(counted[0] == term && counted[1] == term);
        text::text_order_laws(counted[0], counted[1], counted[0]);
    }
    assert(counted =~= seq![term]);
    counted
}

/// A search for one term that finds fewer documents than asked for has had every
/// document with the term for a candidate, where none was replaced or deleted, and has
/// skipped nothing.
pub proof fn unfilled_term_searches_try_all_holders<S: Scorer>(
    snapshot: &Snapshot,
    query: &Query,
    term: Seq<char>,
    options: SearchOptions,
    scorer: &S,
    result: SearchResult,
)
    requires
        snapshot.wf(),
        snapshot.ordered(),
        snapshot.faithful(),
        snapshot.all_live(),
        options.limit > 0,
        query matches Query::Term(name) && name@ == term,
        call_ensures(Snapshot::search::<S>, (snapshot, query, options, false, scorer), result),
        result.hits@.len() < options.limit,
    ensures
        holders(*snapshot, term).finite(),
        shows(result.stats.candidate_docs, holders(*snapshot, term).len()),
        result.stats.skipped_blocks == 0,
{
    let counted = lemma_one_counts(snapshot, query, term, options, scorer, result);
    let frame = snapshot.frame(*query, counted, false, scorer);
    let every = snapshot.segments@;
    assert(every.take(every.len() as int) =~= every);
    let hold = |fields: Seq<Seq<char>>| all_terms(fields).contains(term);
    assert forall|s: int, d: int| #[trigger] snapshot.in_range(s, d) implies frame.any_holders()(
        s,
        d,
    ) == (snapshot.live(s, d) && hold(snapshot.doc(s, d).texts())) by {
        lemma_stands(*snapshot, s, d, term);
        assert(frame.terms[0] == term);
    }
    lemma_picked_by_fields(*snapshot, frame.any_holders(), hold);
    assert(documents(*snapshot, hold) =~= holders(*snapshot, term));
}

/// The fields in which a term stands that counts.
pub open spec fn that_count(snapshot: Snapshot, query: Query) -> spec_fn(
    Seq<Seq<char>>,
) -> bool {
    |fields: Seq<Seq<char>>|
        exists|term: Seq<char>| #[trigger]
            snapshot.scores(query, term) && all_terms(fields).contains(term)
}

/// A search for a prefix that some term begins with, or for terms close together, has
/// every document with a term that counts for a candidate if it finds fewer documents
/// than asked for and none was replaced or deleted. It then has skipped nothing.
pub proof fn unfilled_searches_try_all_holders<S: Scorer>(
    snapshot: &Snapshot,
    query: &Query,
    term: Seq<char>,
    options: SearchOptions,
    scorer: &S,
    result: SearchResult,
)
    requires
        snapshot.wf(),
        snapshot.ordered(),
        snapshot.faithful(),
        snapshot.all_live(),
        options.limit > 0,
        query is Prefix || query is Near,
        snapshot.scores(*query, term),
        call_ensures(Snapshot::search::<S>, (snapshot, query, options, false, scorer), result),
        result.hits@.len() < options.limit,
    ensures
        documents(*snapshot, that_count(*snapshot, *query)).finite(),
        shows(
            result.stats.candidate_docs,
            documents(*snapshot, that_count(*snapshot, *query)).len(),
        ),
        result.stats.skipped_blocks == 0,
{
    let (counted, _) = finding::lemma_source(
        *snapshot,
        *query,
        options.limit as int,
        false,
        scorer,
        result.hits@,
    );
    let frame = snapshot.frame(*query, counted, false, scorer);
    assert(counted.contains(term));
    assert(snapshot.scoring_terms(*query, counted));
    assert(frame.effort(result.stats, result.hits@.len() == options.limit));
    let every = snapshot.segments@;
    assert(every.take(every.len() as int) =~= every);
    let wanted = that_count(*snapshot, *query);
    assert forall|s: int, d: int| #[trigger] snapshot.in_range(s, d) implies frame.any_holders()(
        s,
        d,
    ) == (snapshot.live(s, d) && wanted(snapshot.doc(s, d).texts())) by {
        let fields = snapshot.doc(s, d).texts();
        if frame.holds_term(s, d) {
            let k = choose|k: int|
                0 <= k < frame.terms.len() && frame.snapshot.segments@[s].holds(
                    d,
                    #[trigger] frame.terms[k],
                );
            let other = counted[k];
            assert(counted.contains(other));
            lemma_stands(*snapshot, s, d, other);
            assert(snapshot.scores(*query, other) && all_terms(fields).contains(other));
        }
        if wanted(fields) {
            let other = choose|other: Seq<char>| #[trigger]
                snapshot.scores(*query, other) && all_terms(fields).contains(other);
            assert(counted.contains(other));
            let k = choose|k: int| 0 <= k < counted.len() && counted[k] == other;
            lemma_stands(*snapshot, s, d, other);
            assert(frame.snapshot.segments@[s].holds(d, frame.terms[k]));
        }
    }
    lemma_picked_by_fields(*snapshot, frame.any_holders(), wanted);
}

/// How many block borders the first `n` lists have behind these places.
spec fn borders(lists: Seq<Seq<u32>>, places: Seq<int>, n: int) -> int
    decreases n,
{
    if n <= 0 {
        0
    } else {
        borders(lists, places, n - 1) + lists[n - 1].len() / 128 - places[n - 1] / 128
    }
}

spec fn within(lists: Seq<Seq<u32>>, places: Seq<int>) -> bool {
    &&& places.len() == lists.len()
    &&& forall|k: int| 0 <= k < lists.len() ==> 0 <= #[trigger] places[k] <= lists[k].len()
}

proof fn lemma_borders(lists: Seq<Seq<u32>>, places: Seq<int>, later: Seq<int>, n: int)
    requires
        within(lists, places),
        within(lists, later),
        n <= lists.len(),
        forall|k: int| 0 <= k < lists.len() ==> places[k] <= #[trigger] later[k],
    ensures
        0 <= borders(lists, later, n) <= borders(lists, places, n),
    decreases n,
{
    if n > 0 {
        lemma_borders(lists, places, later, n - 1);
        assert(places[n - 1] <= later[n - 1] <= lists[n - 1].len());
    }
}

proof fn lemma_borders_passed(
    lists: Seq<Seq<u32>>,
    places: Seq<int>,
    k: int,
    landed: int,
    n: int,
)
    requires
        places.len() == lists.len(),
        0 <= k < lists.len(),
        n <= lists.len(),
    ensures
        borders(lists, places.update(k, landed), n) == borders(lists, places, n) - if k < n {
            landed / 128 - places[k] / 128
        } else {
            0
        },
    decreases n,
{
    if n > 0 {
        lemma_borders_passed(lists, places, k, landed, n - 1);
    }
}

proof fn lemma_landing_within(docids: Seq<u32>, place: int, goal: int)
    requires
        0 <= place <= docids.len(),
    ensures
        place <= leapfrog::landing(docids, place, goal) <= docids.len(),
    decreases docids.len() - place,
{
    if place < docids.len() && docids[place] < goal {
        lemma_landing_within(docids, place + 1, goal);
    }
}

/// No more blocks are jumped over than there are borders ahead.
proof fn lemma_jumps_bounded(
    lists: Seq<Seq<u32>>,
    places: Seq<int>,
    docs: int,
    first: int,
    goal: int,
    k: int,
)
    requires
        within(lists, places),
    ensures
        leapfrog::jumps(lists, places, docs, first, goal, k) <= borders(
            lists,
            places,
            lists.len() as int,
        ),
    decreases docs - first, lists.len() - k,
{
    reveal(leapfrog::jumps);
    let n = lists.len() as int;
    lemma_borders(lists, places, places, n);
    if k < 0 || first >= docs {
    } else if k >= n {
        if goal > first {
            if goal < docs {
                lemma_jumps_bounded(lists, places, docs, goal, goal, 0);
            }
        } else {
            let later = leapfrog::stepped(places);
            if !leapfrog::ended(lists, later) {
                assert forall|j: int| 0 <= j < n implies 0 <= #[trigger] later[j]
                    <= lists[j].len() by {
                    assert(places[j] >= 0);
                }
                lemma_borders(lists, places, later, n);
                let next = crate::packing::largest(leapfrog::heads(lists, later)) as int;
                if first < next < docs {
                    lemma_jumps_bounded(lists, later, docs, next, next, 0);
                }
            }
        }
    } else {
        assert(0 <= places[k] <= lists[k].len());
        lemma_landing_within(lists[k], places[k], goal);
        let landed = leapfrog::landing(lists[k], places[k], goal);
        let moved = places.update(k, landed);
        assert(within(lists, moved));
        lemma_borders_passed(lists, places, k, landed, n);
        lemma_borders(lists, places, moved, n);
        if landed < lists[k].len() {
            let next = if lists[k][landed] > goal {
                lists[k][landed] as int
            } else {
                goal
            };
            lemma_jumps_bounded(lists, moved, docs, first, next, k + 1);
        }
    }
}

/// A move passes a block for every place divisible by 128 that it reaches or leaves
/// behind: moves add up, and a step passes one where it reaches such a place.
pub proof fn moves_pass_borders(from: int, middle: int, to: int)
    requires
        0 <= from <= middle <= to,
    ensures
        leapfrog::passed(from, to) == leapfrog::passed(from, middle) + leapfrog::passed(
            middle,
            to,
        ),
        leapfrog::passed(from, from) == 0,
        leapfrog::passed(from, from + 1) == if (from + 1) % 128 == 0 {
            1nat
        } else {
            0nat
        },
{
}

/// Where one of two terms stands in a single document, the walk goes straight to it: it
/// passes the borders in the list of the other term up to that document, and no others.
pub proof fn walks_go_straight_to_a_rare_term(
    common: Seq<u32>,
    place: int,
    docs: int,
    rare_first: bool,
)
    requires
        segment::increasing(common),
        0 <= place < common.len(),
        common[place] < docs,
    ensures
        ({
            let rare = seq![common[place]];
            let lists = if rare_first {
                seq![rare, common]
            } else {
                seq![common, rare]
            };
            leapfrog::jumps_from(lists, seq![0int, 0int], docs) == place / 128
        }),
{
    let goal = common[place] as int;
    let rare = seq![common[place]];
    let (at, other) = if rare_first {
        (1int, 0int)
    } else {
        (0int, 1int)
    };
    let lists = if rare_first {
        seq![rare, common]
    } else {
        seq![common, rare]
    };
    let places = seq![0int, 0int];
    assert(lists[at] == common && lists[other] == rare);
    assert(!leapfrog::ended(lists, places));
    assert forall|k: int| 0 <= k < lists.len() implies lists[k][#[trigger] places[k]] <= goal by {
        if k == at && place > 0 {
            assert(common[0] < common[place]);
        }
    }
    leapfrog::lemma_farthest(lists, places, common[place], other);
    assert forall|i: int| 0 <= i < place implies #[trigger] common[i] < goal by {
        assert(common[i] < common[place]);
    }
    let moved = places.update(at, place);
    if rare_first {
        leapfrog::lemma_move(lists, places, docs, goal, goal, 0, 0);
        assert(places.update(0, 0) =~= places);
        leapfrog::lemma_move(lists, places, docs, goal, goal, 1, place);
    } else {
        leapfrog::lemma_move(lists, places, docs, goal, goal, 0, place);
        leapfrog::lemma_move(lists, moved, docs, goal, goal, 1, 0);
        assert(moved.update(1, 0) =~= moved);
    }
    let later = leapfrog::stepped(moved);
    assert(later[other] == 1);
    assert(leapfrog::ended(lists, later));
    reveal(leapfrog::jumps);
    assert(leapfrog::jumps(lists, moved, docs, goal, goal, 2) == 0);
}

/// No list of the segment reaches the end of its first block.
proof fn lemma_short_lists(built: &Segment, terms: Seq<Seq<char>>)
    requires
        built.wf(),
        built.docs@.len() < 128,
    ensures
        leapfrog::segment_jumps(built, terms) == 0,
{
    let lists = leapfrog::term_lists(built, terms);
    let places = Seq::new(terms.len(), |k: int| 0int);
    assert forall|k: int| 0 <= k < lists.len() implies (#[trigger] lists[k]).len() < 128 by {
        if built.terms.has(terms[k]) {
            built.lemma_list(terms[k]);
            let list = built.terms.lookup(terms[k])->0;
            segment::increasing_bound(list.docids@, built.docs@.len() as int);
        }
    }
    lemma_no_borders(lists, places, lists.len() as int);
    assert(within(lists, places));
    assert(places =~= Seq::new(terms.len(), |k: int| 0));
    if !leapfrog::ended(lists, places) {
        let goal = crate::packing::largest(leapfrog::heads(lists, places)) as int;
        lemma_jumps_bounded(lists, places, built.docs@.len() as int, goal, goal, 0);
    }
}

proof fn lemma_no_borders(lists: Seq<Seq<u32>>, places: Seq<int>, n: int)
    requires
        n <= lists.len(),
        places.len() == lists.len(),
        forall|k: int| 0 <= k < lists.len() ==> #[trigger] places[k] == 0,
        forall|k: int| 0 <= k < lists.len() ==> (#[trigger] lists[k]).len() < 128,
    ensures
        borders(lists, places, n) == 0,
    decreases n,
{
    if n > 0 {
        lemma_no_borders(lists, places, n - 1);
        assert(lists[n - 1].len() < 128 && places[n - 1] == 0);
    }
}

/// Where no segment has as many as 128 documents, a search for terms that all must
/// stand skips no block.
pub proof fn joined_searches_skip_no_short_list<S: Scorer>(
    snapshot: &Snapshot,
    query: &Query,
    terms: Seq<Seq<char>>,
    options: SearchOptions,
    scorer: &S,
    result: SearchResult,
)
    requires
        snapshot.wf(),
        snapshot.ordered(),
        options.limit > 0,
        asks_for_each(*query, terms),
        forall|s: int|
            0 <= s < snapshot.segments@.len() ==> (#[trigger] snapshot.segments@[s]).docs@.len()
                < 128,
        call_ensures(Snapshot::search::<S>, (snapshot, query, options, false, scorer), result),
    ensures
        result.stats.skipped_blocks == 0,
{
    let counted = lemma_joins(snapshot, query, terms, options, scorer, result);
    let every = snapshot.segments@;
    lemma_all_short(every, counted);
    assert(every.take(every.len() as int) =~= every);
}

proof fn lemma_all_short(segments: Seq<Arc<Segment>>, terms: Seq<Seq<char>>)
    requires
        forall|s: int|
            0 <= s < segments.len() ==> (#[trigger] segments[s]).wf() && segments[s].docs@.len()
                < 128,
    ensures
        leapfrog::all_jumps(segments, terms) == 0,
    decreases segments.len(),
{
    if segments.len() > 0 {
        let fewer = segments.drop_last();
        assert forall|s: int| 0 <= s < fewer.len() implies (#[trigger] fewer[s]).wf()
            && fewer[s].docs@.len() < 128 by {
            assert(fewer[s] == segments[s]);
        }
        lemma_all_short(fewer, terms);
        let last = segments.len() - 1;
        assert(segments[last].wf() && segments[last].docs@.len() < 128);
        lemma_short_lists(&segments[last], terms);
    }
}

/// The documents of a list among the first `n` are as many as its places before them.
proof fn lemma_listed(
    docs: Seq<StoredDocument>,
    docids: Seq<u32>,
    picked: spec_fn(int) -> bool,
    n: int,
    place: int,
)
    requires
        segment::increasing(docids),
        0 <= n <= docs.len(),
        0 <= place <= docids.len(),
        place > 0 ==> docids[place - 1] < n,
        place < docids.len() ==> docids[place] >= n,
        forall|d: int|
            0 <= d < docs.len() ==> (#[trigger] picked(d) <==> exists|i: int|
                0 <= i < docids.len() && #[trigger] docids[i] == d),
    ensures
        tally::segment_tally(docs.take(n), picked, tally::one()) == place,
    decreases n,
{
    let part = docs.take(n);
    if n == 0 {
        assert(place == 0);
    } else {
        assert(part.drop_last() =~= docs.take(n - 1));
        if place > 0 && docids[place - 1] == n - 1 {
            assert(picked(n - 1));
            if place > 1 {
                assert(docids[place - 2] < docids[place - 1]);
            }
            lemma_listed(docs, docids, picked, n - 1, place - 1);
        } else {
            assert(!picked(n - 1)) by {
                if exists|i: int| 0 <= i < docids.len() && #[trigger] docids[i] == n - 1 {
                    let i = choose|i: int| 0 <= i < docids.len() && #[trigger] docids[i] == n - 1;
                    if i < place - 1 {
                        assert(docids[i] < docids[place - 1]);
                    } else if i > place {
                        assert(docids[place] < docids[i]);
                    }
                }
            }
            lemma_listed(docs, docids, picked, n - 1, place);
        }
    }
}

/// The list of a term has a block for every 128 documents that hold the term, and one
/// for the rest.
proof fn lemma_blocks_of_list(built: &Segment, term: Seq<char>)
    requires
        built.wf(),
    ensures
        ({
            let held = tally::segment_tally(
                built.docs@,
                |d: int| built.holds(d, term),
                tally::one(),
            );
            let blocks = crate::effort::list_blocks(*built, term);
            held <= 128 * blocks < held + 128 && blocks <= 0x200_0000
        }),
{
    let docs = built.docs@;
    let one = |d: int| built.holds(d, term);
    assert(docs.take(docs.len() as int) =~= docs);
    if built.terms.has(term) {
        built.lemma_list(term);
        let list = built.terms.lookup(term)->0;
        let n = list.docids@.len() as int;
        segment::increasing_bound(list.docids@, docs.len() as int);
        assert forall|d: int| 0 <= d < docs.len() implies (#[trigger] one(d) <==> exists|i: int|
            0 <= i < list.docids@.len() && #[trigger] list.docids@[i] == d) by {
            assert(built.holds(d, term) == list.has_doc(d));
        }
        lemma_listed(docs, list.docids@, one, docs.len() as int, n);
    } else {
        let none = Seq::<u32>::empty();
        assert forall|d: int| 0 <= d < docs.len() implies (#[trigger] one(d) <==> exists|i: int|
            0 <= i < none.len() && #[trigger] none[i] == d) by {
            assert(!built.holds(d, term));
        }
        lemma_listed(docs, none, one, docs.len() as int, 0);
    }
}

/// A search for one term reads every block of its postings: of a compacted database one
/// for every 128 documents with the term, and one for the rest.
pub proof fn term_searches_read_every_block<S: Scorer>(
    snapshot: &Snapshot,
    query: &Query,
    term: Seq<char>,
    options: SearchOptions,
    scorer: &S,
    result: SearchResult,
)
    requires
        snapshot.wf(),
        snapshot.ordered(),
        snapshot.faithful(),
        snapshot.all_live(),
        snapshot.segments@.len() == 1,
        options.limit > 0,
        query matches Query::Term(name) && name@ == term,
        call_ensures(Snapshot::search::<S>, (snapshot, query, options, false, scorer), result),
    ensures
        holders(*snapshot, term).finite(),
        128 * result.stats.posting_blocks < holders(*snapshot, term).len() + 128,
        holders(*snapshot, term).len() <= 128 * result.stats.posting_blocks,
{
    let counted = lemma_one_counts(snapshot, query, term, options, scorer, result);
    let every = snapshot.segments@;
    let built = every[0];
    assert(every.take(1) =~= every);
    assert(every.drop_last() =~= Seq::empty());
    assert(every.last() == built);
    reveal_with_fuel(crate::effort::blocks_of, 2);
    assert(crate::effort::blocks_of(every, term) == crate::effort::list_blocks(*built, term));
    let picked = |s: int, d: int| built.holds(d, term);
    let hold = |fields: Seq<Seq<char>>| all_terms(fields).contains(term);
    assert forall|s: int, d: int| #[trigger] snapshot.in_range(s, d) implies picked(s, d) == (
    snapshot.live(s, d) && hold(snapshot.doc(s, d).texts())) by {
        lemma_stands(*snapshot, s, d, term);
    }
    lemma_picked_by_fields(*snapshot, picked, hold);
    assert(documents(*snapshot, hold) =~= holders(*snapshot, term));
    let docs = built.docs@;
    let one = |d: int| picked(0, d);
    reveal_with_fuel(tally::tally, 2);
    assert(tally::tally(every, picked, tally::one()) == tally::segment_tally(
        docs,
        one,
        tally::one(),
    ));
    tally::segment_tally_same(docs, one, |d: int| built.holds(d, term), tally::one());
    lemma_blocks_of_list(&built, term);
}

} // verus!
