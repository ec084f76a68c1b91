//! What the calls of the library give, told by the words a caller hands in.
//!
//! Each law speaks of what a call returned and says what that means for documents as
//! their fields.
use crate::counting;
use crate::counting::holders;
use crate::finding;
use crate::finding::{asked_for, found, outscores};
use crate::matching;
use crate::matching::matches_query;
use crate::meaning;
use crate::meaning::{close_together, only, reading, restricts, spaced};
use crate::places;
use crate::places::{all_terms, numbered, stands_at};
use crate::query::{Query, SearchOptions, SearchResult};
use crate::scorer::Scorer;
use crate::segment::Segment;
use crate::snapshot::Snapshot;
use crate::text;
use crate::tokenizer;
use crate::tokenizer::{field_terms, is_cjk, normalize_term, tokenize_fields, TokenOccurrence};
use crate::words;
use vstd::prelude::*;

verus! {

/// The words in lower case.
pub open spec fn lowered(words: Seq<&str>) -> Seq<Seq<char>> {
    Seq::new(words.len(), |i: int| text::lowercase(words[i]@))
}

/// `is_cjk` tells the ideographic characters from all others.
pub proof fn is_cjk_tells_ideographs(ch: char, result: bool)
    requires
        call_ensures(is_cjk, (ch,), result),
    ensures
        result == words::ideographic(ch),
{
    words::ideographs_are_those_of_six_blocks(ch);
}

/// `normalize_term` gives a word in lower case.
pub proof fn normal_terms_are_lower_case(word: &str, normal: String)
    requires
        call_ensures(normalize_term, (word,), normal),
    ensures
        normal@ == text::lowercase(word@),
{
}

/// `tokenize_fields` gives the terms of all fields in their order, and their number.
pub proof fn tokens_are_all_terms(fields: &[String], result: (Vec<TokenOccurrence>, u32))
    requires
        call_ensures(tokenize_fields, (fields,), result),
    ensures
        Seq::new(result.0@.len(), |i: int| result.0@[i].term@) == all_terms(
            text::texts(fields@),
        ),
        result.0@.len() <= u32::MAX ==> result.1 == result.0@.len(),
        result.0@.len() > u32::MAX ==> result.1 == u32::MAX,
{
    let texts = text::texts(fields@);
    let shown = result.0@.map_values(|token: TokenOccurrence| token@);
    let name = |token: (Seq<char>, u32)| token.0;
    places::tokens_are_the_terms(texts);
    places::length_is_the_number_of_terms(texts);
    assert(shown.len() == result.0@.len());
    assert(Seq::new(result.0@.len(), |i: int| result.0@[i].term@) =~= shown.map_values(name));
}

/// A token stands where its position says: in the field above the lower 26 bits, at the
/// offset in them.
pub proof fn tokens_stand_where_they_say(
    fields: &[String],
    result: (Vec<TokenOccurrence>, u32),
    index: int,
)
    requires
        call_ensures(tokenize_fields, (fields,), result),
        numbered(text::texts(fields@)),
        0 <= index < result.0@.len(),
    ensures
        stands_at(
            text::texts(fields@),
            result.0@[index].term@,
            result.0@[index].position as int / 0x400_0000,
            result.0@[index].position as int % 0x400_0000,
        ),
{
    let texts = text::texts(fields@);
    let shown = result.0@.map_values(|token: TokenOccurrence| token@);
    let token = result.0@[index];
    assert(shown[index] == (token.term@, token.position));
    assert(tokenizer::document_tokens(texts).contains((token.term@, token.position)));
    places::lemma_token_places(texts, token.term@, token.position);
}

/// The term with offset `offset` in field `field` comes behind all terms of the fields
/// before it. Its position tells the field and the offset; all fields from the 64th on
/// share a column, and all offsets from the 2^26th on a place.
pub proof fn every_term_has_a_position(
    fields: &[String],
    result: (Vec<TokenOccurrence>, u32),
    field: int,
    offset: int,
)
    requires
        call_ensures(tokenize_fields, (fields,), result),
        0 <= field < fields@.len(),
        0 <= offset < tokenizer::field_terms(fields@[field]@).len(),
    ensures
        ({
            let index = all_terms(text::texts(fields@).take(field)).len() + offset;
            &&& 0 <= index < result.0@.len()
            &&& result.0@[index].term@ == tokenizer::field_terms(fields@[field]@)[offset]
            &&& result.0@[index].position as int / 0x400_0000 == if field < 64 {
                field
            } else {
                63
            }
            &&& result.0@[index].position as int % 0x400_0000 == if offset < 0x400_0000 {
                offset
            } else {
                0x3ff_ffff
            }
        }),
{
    let texts = text::texts(fields@);
    let shown = result.0@.map_values(|token: TokenOccurrence| token@);
    assert(places::page(texts)[field] == tokenizer::field_terms(fields@[field]@));
    places::terms_stand_in_order(texts, field, offset);
    let index = all_terms(texts.take(field)).len() + offset;
    assert(shown[index] == (result.0@[index].term@, result.0@[index].position));
}

/// `Query::term` asks for documents in which the word stands, in any case.
pub proof fn term_queries_find_the_word(word: &str, query: Query, fields: Seq<Seq<char>>)
    requires
        call_ensures(Query::term, (word,), query),
    ensures
        matching::matches(query, reading(fields)) == all_terms(fields).contains(
            text::lowercase(word@),
        ),
{
    meaning::term_asks_for_the_term(fields, query, text::lowercase(word@));
}

/// `Query::prefix` asks for documents in which a term begins with the word.
pub proof fn prefix_queries_find_beginnings(word: &str, query: Query, fields: Seq<Seq<char>>)
    requires
        call_ensures(Query::prefix, (word,), query),
    ensures
        matching::matches(query, reading(fields)) == exists|term: Seq<char>| #[trigger]
            all_terms(fields).contains(term) && text::lowercase(word@).is_prefix_of(term),
{
    meaning::prefix_asks_for_a_beginning(fields, query, text::lowercase(word@));
}

/// `Query::phrase` asks for documents with a field in which the words stand one right
/// after the other.
pub proof fn phrase_queries_find_runs(words: &[&str], query: Query, fields: Seq<Seq<char>>)
    requires
        call_ensures(Query::phrase, (words,), query),
        spaced(fields),
    ensures
        matching::matches(query, reading(fields)) == (words@.len() > 0 && exists|f: int, p: int|
            0 <= f < fields.len() && 0 <= p && p + words@.len() <= field_terms(fields[f]).len()
                && #[trigger] field_terms(fields[f]).subrange(p, p + words@.len()) == lowered(
                words@,
            )),
{
    let terms = lowered(words@);
    assert(crate::query::normal_terms(words@) =~= terms);
    if words@.len() > 0 {
        meaning::phrase_asks_for_consecutive_terms(fields, query, terms);
    } else {
        assert(text::texts(query->Phrase_0@).len() == 0);
        meaning::no_terms_match_nothing(query, reading(fields));
    }
}

/// `Query::near` asks for documents with a field in which the words stand within the
/// distance.
pub proof fn near_queries_find_neighbours(
    words: &[&str],
    distance: u32,
    query: Query,
    fields: Seq<Seq<char>>,
)
    requires
        call_ensures(Query::near, (words, distance), query),
        numbered(fields),
    ensures
        matching::matches(query, reading(fields)) == (words@.len() > 0 && exists|
            f: int,
            offsets: Seq<int>,
        |
            0 <= f < fields.len() && #[trigger] close_together(
                field_terms(fields[f]),
                lowered(words@),
                distance,
                offsets,
            )),
{
    let terms = lowered(words@);
    assert(crate::query::normal_terms(words@) =~= terms);
    if words@.len() > 0 {
        meaning::near_asks_for_close_terms(fields, query, terms, distance);
    } else {
        assert(text::texts(query->terms@).len() == 0);
        meaning::no_terms_match_nothing(query, reading(fields));
    }
}

/// `Query::column` asks for documents whose field in that column, taken alone, matches.
/// The last column is 63.
pub proof fn column_queries_look_at_one_field(
    column: u8,
    inner: Query,
    query: Query,
    fields: Seq<Seq<char>>,
)
    requires
        call_ensures(Query::column, (column, inner), query),
        spaced(fields),
        !restricts(inner),
    ensures
        column <= 63 ==> matching::matches(query, reading(fields)) == matching::matches(
            inner,
            reading(only(fields, column)),
        ),
        column > 63 ==> matching::matches(query, reading(fields)) == matching::matches(
            inner,
            reading(only(fields, 63)),
        ),
{
    meaning::column_asks_for_one_field(
        fields,
        query,
        if column < 63 {
            column
        } else {
            63
        },
    );
}

/// `Query::and` asks for documents that match all of the queries.
pub proof fn and_queries_find_the_common(
    queries: Vec<Query>,
    query: Query,
    fields: Seq<Seq<char>>,
)
    requires
        call_ensures(Query::and, (queries,), query),
    ensures
        matching::matches(query, reading(fields)) <==> forall|i: int|
            0 <= i < queries@.len() ==> matching::matches(#[trigger] queries@[i], reading(fields)),
{
    meaning::connectives_are_boolean(query, reading(fields));
}

/// `Query::or` asks for documents that match one of the queries.
pub proof fn or_queries_find_all(queries: Vec<Query>, query: Query, fields: Seq<Seq<char>>)
    requires
        call_ensures(Query::or, (queries,), query),
    ensures
        matching::matches(query, reading(fields)) <==> exists|i: int|
            0 <= i < queries@.len() && matching::matches(#[trigger] queries@[i], reading(fields)),
{
    meaning::connectives_are_boolean(query, reading(fields));
}

/// `Query::negate` asks for the documents that the query does not match.
pub proof fn negated_queries_find_the_rest(inner: Query, query: Query, fields: Seq<Seq<char>>)
    requires
        call_ensures(Query::negate, (inner,), query),
    ensures
        matching::matches(query, reading(fields)) == !matching::matches(inner, reading(fields)),
{
    meaning::connectives_are_boolean(query, reading(fields));
}

/// A copy of a query asks for the same documents.
pub proof fn copies_ask_for_the_same(
    query: &Query,
    copy: Query,
    at: spec_fn(Seq<char>) -> Seq<u32>,
)
    requires
        call_ensures(Query::copy, (query,), copy),
    ensures
        matching::matches(*query, at) == matching::matches(copy, at),
{
    matching::same_queries_match_alike(*query, copy, at, None);
}

/// `matches_query` decides what the fields of the document decide.
pub proof fn matches_query_reads_the_fields(
    segment: &Segment,
    docid: u32,
    query: &Query,
    result: bool,
)
    requires
        segment.wf(),
        segment.ordered(),
        segment.faithful(),
        docid < segment.docs@.len(),
        call_ensures(matches_query, (segment, docid, query), result),
    ensures
        result == matching::matches(*query, reading(segment.docs@[docid as int].texts())),
{
    let fields = segment.docs@[docid as int].texts();
    assert(segment.document(docid as int) =~= reading(fields)) by {
        assert forall|term: Seq<char>| #[trigger]
            segment.document(docid as int)(term) == reading(fields)(term) by {
            assert(segment.positions(docid as int, term) == tokenizer::term_occurrences(
                fields,
                term,
            ));
        }
    }
}

/// `Snapshot::document_frequency` gives the number of documents in which the term
/// stands.
pub proof fn frequencies_count_documents(snapshot: &Snapshot, term: &str, result: u32)
    requires
        snapshot.wf(),
        snapshot.faithful(),
        call_ensures(Snapshot::document_frequency, (snapshot, term), result),
    ensures
        result == holders(*snapshot, term@).len(),
{
    counting::frequency_counts_the_documents(*snapshot, term@);
}

/// `Snapshot::expanded_scoring_terms` gives the terms that count, each once, in the
/// order of their bytes.
pub proof fn scoring_terms_are_those_that_count(
    snapshot: &Snapshot,
    query: &Query,
    result: Vec<String>,
)
    requires
        snapshot.wf(),
        call_ensures(Snapshot::expanded_scoring_terms, (snapshot, query), result),
    ensures
        forall|term: Seq<char>| #[trigger]
            snapshot.scores(*query, term) <==> exists|i: int|
                0 <= i < result@.len() && (#[trigger] result@[i])@ == term,
        forall|i: int, j: int|
            0 <= i < j < result@.len() ==> counting::precedes(
                (#[trigger] result@[i])@,
                (#[trigger] result@[j])@,
            ),
{
    let terms = text::texts(result@);
    assert forall|term: Seq<char>| #[trigger]
        snapshot.scores(*query, term) <==> exists|i: int|
            0 <= i < result@.len() && (#[trigger] result@[i])@ == term by {
        assert(terms.contains(term) == snapshot.scores(*query, term));
        counting::lemma_named(result@, term);
    }
    assert forall|i: int, j: int| 0 <= i < j < result@.len() implies counting::precedes(
        (#[trigger] result@[i])@,
        (#[trigger] result@[j])@,
    ) by {
        assert(text::text_before(terms[i], terms[j]));
        counting::texts_stand_by_their_bytes(terms[i], terms[j]);
    }
}

/// `Snapshot::search` shows documents of the database that match, each once, no more
/// than asked for, the best first; and where it shows fewer, it shows all that match.
pub proof fn searches_find_what_is_asked_for<S: Scorer>(
    snapshot: &Snapshot,
    query: &Query,
    options: SearchOptions,
    exhaustive: bool,
    scorer: &S,
    result: SearchResult,
)
    requires
        snapshot.wf(),
        snapshot.ordered(),
        snapshot.faithful(),
        options.limit > 0,
        call_ensures(
            Snapshot::search::<S>,
            (snapshot, query, options, exhaustive, scorer),
            result,
        ),
    ensures
        snapshot.answers(*query, options.limit as int, exhaustive, scorer, result.hits@),
        result.generation == snapshot.generation,
        !result.is_approximate,
        !result.stats.cache_hit,
        result.stats.segments == snapshot.segments@.len(),
        result.hits@.len() <= options.limit,
        forall|i: int|
            0 <= i < result.hits@.len() ==> asked_for(
                *snapshot,
                *query,
                (#[trigger] result.hits@[i]).rowid,
                text::texts(result.hits@[i].fields@),
            ),
        forall|i: int, j: int|
            0 <= i < j < result.hits@.len() ==> (#[trigger] result.hits@[i]).rowid != (
            #[trigger] result.hits@[j]).rowid,
        forall|i: int, j: int|
            0 <= i < j < result.hits@.len() ==> outscores(
                (#[trigger] result.hits@[i]).score,
                (#[trigger] result.hits@[j]).score,
            ) || (result.hits@[i].score == result.hits@[j].score && result.hits@[i].rowid
                < result.hits@[j].rowid),
        result.hits@.len() < options.limit ==> forall|rowid: i64, fields: Seq<Seq<char>>|
            #[trigger] asked_for(*snapshot, *query, rowid, fields) ==> found(result.hits@, rowid),
{
    let limit = options.limit as int;
    let hits = result.hits@;
    finding::hits_are_asked_for(*snapshot, *query, limit, exhaustive, scorer, hits);
    assert forall|i: int, j: int| 0 <= i < j < hits.len() implies outscores(
        (#[trigger] hits[i]).score,
        (#[trigger] hits[j]).score,
    ) || (hits[i].score == hits[j].score && hits[i].rowid < hits[j].rowid) by {
        finding::hits_stand_by_score(
            *snapshot,
            *query,
            limit,
            exhaustive,
            scorer,
            hits,
            i,
            j,
        );
    }
    if hits.len() < limit {
        assert forall|rowid: i64, fields: Seq<Seq<char>>| #[trigger]
            asked_for(*snapshot, *query, rowid, fields) implies found(hits, rowid) by {
            finding::unfilled_searches_are_complete(
                *snapshot,
                *query,
                limit,
                exhaustive,
                scorer,
                hits,
                rowid,
                fields,
            );
        }
    }
}

/// `Snapshot::get` gives the fields of the document with the rowid, or nothing where
/// there is none.
pub proof fn get_gives_the_content(
    snapshot: &Snapshot,
    rowid: i64,
    result: Option<Vec<String>>,
)
    requires
        snapshot.wf(),
        call_ensures(Snapshot::get, (snapshot, rowid), result),
    ensures
        result is Some <==> snapshot.content(rowid) is Some,
        result matches Some(fields) ==> snapshot.content(rowid) == Some(text::texts(fields@)),
{
}

} // verus!
