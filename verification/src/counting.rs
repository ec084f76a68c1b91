//! What is counted for the scores, told by the contents of the database.
use crate::places;
use crate::places::all_terms;
use crate::query::Query;
use crate::snapshot::Snapshot;
use crate::statistics;
use crate::statistics::sum_over;
use crate::tally;
use crate::text;
use crate::tokenizer;
use vstd::prelude::*;

verus! {

/// The rowids of the documents in which the term stands.
pub open spec fn holders(snapshot: Snapshot, term: Seq<char>) -> Set<i64> {
    Set::new(
        |rowid: i64|
            snapshot.content(rowid) matches Some(fields) && all_terms(fields).contains(term),
    )
}

/// A term stands in a document if and only if it has occurrences there.
pub proof fn terms_with_occurrences_stand(fields: Seq<Seq<char>>, term: Seq<char>)
    ensures
        tokenizer::term_occurrences(fields, term).len() > 0 <==> all_terms(fields).contains(term),
{
    broadcast use vstd::seq_lib::group_to_multiset_ensures;

    places::occurrences_count_the_term(fields, term);
    assert(all_terms(fields).to_multiset().count(term) > 0 <==> all_terms(fields).contains(term));
}

/// The document frequency of a term is the number of documents of the database in which
/// it stands.
pub proof fn frequency_counts_the_documents(snapshot: Snapshot, term: Seq<char>)
    requires
        snapshot.wf(),
        snapshot.faithful(),
    ensures
        holders(snapshot, term).finite(),
        snapshot.df(term) == holders(snapshot, term).len(),
{
    let value = |rowid: i64|
        if holders(snapshot, term).contains(rowid) {
            1nat
        } else {
            0nat
        };
    statistics::lemma_weights(snapshot, term);
    assert forall|s: int, d: int| #[trigger] snapshot.live(s, d) implies tally::listing(term)(
        snapshot.doc(s, d),
    ) == value(snapshot.doc(s, d).rowid) by {
        terms_with_occurrences_stand(snapshot.doc(s, d).texts(), term);
    }
    snapshot.tally_is_sum(tally::listing(term), value);
    assert(holders(snapshot, term).subset_of(snapshot.rowids()));
    lemma_members(snapshot.rowids(), holders(snapshot, term), value);
    vstd::set_lib::lemma_len_subset(holders(snapshot, term), snapshot.rowids());
}

/// The sum of ones over the members is their number.
pub(crate) proof fn lemma_members(all: Set<i64>, some: Set<i64>, value: spec_fn(i64) -> nat)
    requires
        all.finite(),
        some.subset_of(all),
        forall|rowid: i64| #[trigger]
            value(rowid) == if some.contains(rowid) {
                1nat
            } else {
                0nat
            } || !all.contains(rowid),
    ensures
        some.finite(),
        sum_over(all, value) == some.len(),
    decreases all.len(),
{
    vstd::set_lib::lemma_set_subset_finite(all, some);
    if all.len() == 0 {
        assert(all =~= Set::empty());
        assert(some =~= Set::empty());
        statistics::lemma_sum_empty(value);
    } else {
        let rowid = all.choose();
        let (fewer, less) = (all.remove(rowid), some.remove(rowid));
        assert forall|other: i64| #[trigger] value(other) == if less.contains(other) {
            1nat
        } else {
            0nat
        } || !fewer.contains(other) by {
            assert(value(other) == if some.contains(other) {
                1nat
            } else {
                0nat
            } || !all.contains(other));
        }
        lemma_members(fewer, less, value);
        statistics::lemma_sum_insert(fewer, value, rowid);
        assert(fewer.insert(rowid) =~= all);
        assert(value(rowid) == if some.contains(rowid) {
            1nat
        } else {
            0nat
        } || !all.contains(rowid));
        if !some.contains(rowid) {
            assert(less =~= some);
        }
    }
}

/// The number of terms of the documents of the database together.
pub proof fn total_length_counts_the_terms(snapshot: Snapshot)
    requires
        snapshot.wf(),
        snapshot.faithful(),
        forall|rowid: i64|
            (#[trigger] snapshot.content(rowid)) matches Some(fields) ==> all_terms(fields).len()
                <= u32::MAX,
    ensures
        snapshot.rowids().finite(),
        snapshot.live_docs == snapshot.rowids().len(),
        snapshot.total_doc_len == sum_over(
            snapshot.rowids(),
            |rowid: i64| all_terms(snapshot.content(rowid)->0).len(),
        ),
{
    let value = |rowid: i64| all_terms(snapshot.content(rowid)->0).len();
    statistics::lemma_weights(snapshot, Seq::empty());
    assert forall|s: int, d: int| #[trigger] snapshot.live(s, d) implies tally::length()(
        snapshot.doc(s, d),
    ) == value(snapshot.doc(s, d).rowid) by {
        let fields = snapshot.doc(s, d).texts();
        assert(snapshot.content(snapshot.doc(s, d).rowid) == Some(fields));
        places::length_is_the_number_of_terms(fields);
    }
    snapshot.tally_is_sum(tally::length(), value);
    snapshot.live_docs_counts_rowids();
}

/// A document more, with a rowid of its own, adds its terms to the total length.
pub proof fn sums_grow_by_members(rowids: Set<i64>, value: spec_fn(i64) -> nat, rowid: i64)
    requires
        rowids.finite(),
        !rowids.contains(rowid),
    ensures
        sum_over(Set::empty(), value) == 0,
        sum_over(rowids.insert(rowid), value) == sum_over(rowids, value) + value(rowid),
{
    statistics::lemma_sum_empty(value);
    statistics::lemma_sum_insert(rowids, value, rowid);
}

/// Of a query for one term, that term counts; of a query for several in a row or close
/// together, exactly those; under a restriction to a column, those of the restricted
/// query; of several queries, those of each; of a negated query and of the query for
/// everything, none.
pub proof fn named_terms_count(snapshot: Snapshot, query: Query, term: Seq<char>)
    ensures
        query matches Query::Term(name) ==> snapshot.scores(query, term) == (term == name@),
        query matches Query::Phrase(names) ==> (snapshot.scores(query, term) <==> exists|i: int|
            0 <= i < names@.len() && (#[trigger] names@[i])@ == term),
        query matches Query::Near { terms: names, distance } ==> (snapshot.scores(query, term)
            <==> exists|i: int| 0 <= i < names@.len() && (#[trigger] names@[i])@ == term),
        query matches Query::Column { column, query: child } ==> snapshot.scores(query, term)
            == snapshot.scores(*child, term),
        query matches Query::And(children) ==> (snapshot.scores(query, term) <==> exists|i: int|
            0 <= i < children@.len() && snapshot.scores(#[trigger] children@[i], term)),
        query matches Query::Or(children) ==> (snapshot.scores(query, term) <==> exists|i: int|
            0 <= i < children@.len() && snapshot.scores(#[trigger] children@[i], term)),
        query is Not ==> !snapshot.scores(query, term),
        query is All ==> !snapshot.scores(query, term),
{
    match query {
        Query::Phrase(names) => {
            lemma_named(names@, term);
        },
        Query::Near { terms: names, distance } => {
            lemma_named(names@, term);
        },
        Query::Not(child) => {
            lemma_negated(snapshot, *child, term);
        },
        _ => {},
    }
}

pub(crate) proof fn lemma_named(names: Seq<String>, term: Seq<char>)
    ensures
        text::texts(names).contains(term) <==> exists|i: int|
            0 <= i < names.len() && (#[trigger] names[i])@ == term,
{
    let all = text::texts(names);
    if all.contains(term) {
        let i = choose|i: int| 0 <= i < all.len() && all[i] == term;
        assert(names[i]@ == term);
    }
    if exists|i: int| 0 <= i < names.len() && (#[trigger] names[i])@ == term {
        let i = choose|i: int| 0 <= i < names.len() && (#[trigger] names[i])@ == term;
        assert(all[i] == term);
    }
}

/// Below a negation nothing counts.
proof fn lemma_negated(snapshot: Snapshot, query: Query, term: Seq<char>)
    ensures
        !snapshot.collects(query, false, term),
    decreases query,
{
    match query {
        Query::Column { column, query: child } => {
            lemma_negated(snapshot, *child, term);
        },
        Query::And(children) => {
            assert forall|i: int| 0 <= i < children@.len() implies !snapshot.collects(
                #[trigger] children@[i],
                false,
                term,
            ) by {
                crate::query::lemma_child_decreases(query, children@, i);
                lemma_negated(snapshot, children@[i], term);
            }
        },
        Query::Or(children) => {
            assert forall|i: int| 0 <= i < children@.len() implies !snapshot.collects(
                #[trigger] children@[i],
                false,
                term,
            ) by {
                crate::query::lemma_child_decreases(query, children@, i);
                lemma_negated(snapshot, children@[i], term);
            }
        },
        Query::Not(child) => {
            lemma_negated(snapshot, *child, term);
        },
        _ => {},
    }
}

/// Of a query for a prefix, exactly the terms count that begin with it and stand in a
/// document of the database.
pub proof fn terms_with_the_prefix_count(
    snapshot: Snapshot,
    query: Query,
    beginning: Seq<char>,
    term: Seq<char>,
)
    requires
        snapshot.wf(),
        snapshot.faithful(),
        query matches Query::Prefix(prefix) && prefix@ == beginning,
    ensures
        snapshot.scores(query, term) == (beginning.is_prefix_of(term) && exists|rowid: i64|
            holders(snapshot, term).contains(rowid)),
{
    text::beginnings_are_first_characters(term, beginning);
    frequency_counts_the_documents(snapshot, term);
    let all = holders(snapshot, term);
    if snapshot.df(term) > 0 {
        assert(all.contains(all.choose()));
    } else if exists|rowid: i64| all.contains(rowid) {
        assert(all.len() == 0);
        assert(all =~= Set::empty());
    }
}

/// Terms in a row, terms close together and the conjunction or disjunction of terms
/// count alike: every term that is named, whatever the order.
pub proof fn combinations_of_terms_count_alike(
    snapshot: Snapshot,
    left: Query,
    right: Query,
    terms: Seq<Seq<char>>,
    terms2: Seq<Seq<char>>,
    term: Seq<char>,
)
    requires
        combines(left, terms),
        combines(right, terms2),
        forall|other: Seq<char>| terms.contains(other) == #[trigger] terms2.contains(other),
    ensures
        snapshot.scores(left, term) == snapshot.scores(right, term),
        snapshot.scores(left, term) == terms.contains(term),
{
    lemma_combined(snapshot, left, terms, term);
    lemma_combined(snapshot, right, terms2, term);
    assert(terms.contains(term) == terms2.contains(term));
}

/// The query puts these terms together and asks for nothing else.
pub open spec fn combines(query: Query, terms: Seq<Seq<char>>) -> bool {
    match query {
        Query::Phrase(names) => text::texts(names@) == terms,
        Query::Near { terms: names, distance } => text::texts(names@) == terms,
        Query::And(children) => all_name(children@, terms),
        Query::Or(children) => all_name(children@, terms),
        _ => false,
    }
}

/// Child by child the queries are for these terms.
pub open spec fn all_name(children: Seq<Query>, terms: Seq<Seq<char>>) -> bool {
    &&& children.len() == terms.len()
    &&& forall|i: int|
        0 <= i < children.len() ==> ((#[trigger] children[i]) matches Query::Term(name) && name@
            == terms[i])
}

proof fn lemma_combined(snapshot: Snapshot, query: Query, terms: Seq<Seq<char>>, term: Seq<char>)
    requires
        combines(query, terms),
    ensures
        snapshot.scores(query, term) == terms.contains(term),
{
    named_terms_count(snapshot, query, term);
    match query {
        Query::And(children) => {
            lemma_children(snapshot, children@, terms, term);
        },
        Query::Or(children) => {
            lemma_children(snapshot, children@, terms, term);
        },
        Query::Phrase(names) => {
            lemma_named(names@, term);
        },
        Query::Near { terms: names, distance } => {
            lemma_named(names@, term);
        },
        _ => {},
    }
}

proof fn lemma_children(
    snapshot: Snapshot,
    children: Seq<Query>,
    terms: Seq<Seq<char>>,
    term: Seq<char>,
)
    requires
        all_name(children, terms),
    ensures
        terms.contains(term) <==> exists|i: int|
            0 <= i < children.len() && snapshot.scores(#[trigger] children[i], term),
{
    assert forall|i: int| 0 <= i < children.len() implies snapshot.scores(
        #[trigger] children[i],
        term,
    ) == (terms[i] == term) by {
        named_terms_count(snapshot, children[i], term);
    }
    if terms.contains(term) {
        let i = choose|i: int| 0 <= i < terms.len() && terms[i] == term;
        assert(snapshot.scores(children[i], term));
    }
}

/// Among the bytes of two texts the first that differ decide which stands before the
/// other; where one ends before any differ, the shorter does.
pub proof fn texts_stand_by_their_bytes(left: Seq<char>, right: Seq<char>)
    ensures
        text::text_before(left, right) == precedes(left, right),
{
    lemma_lexicographic(vstd::utf8::encode_utf8(left), vstd::utf8::encode_utf8(right));
}

/// The bytes of one text stand before those of another.
pub open spec fn precedes(left: Seq<char>, right: Seq<char>) -> bool {
    exists|at: int|
        first_difference(vstd::utf8::encode_utf8(left), vstd::utf8::encode_utf8(right), at)
}

/// Up to `at` the bytes are the same, and there the left ones end or are smaller.
pub open spec fn first_difference(left: Seq<u8>, right: Seq<u8>, at: int) -> bool {
    &&& 0 <= at <= left.len()
    &&& at < right.len()
    &&& left.take(at) == right.take(at)
    &&& at < left.len() ==> left[at] < right[at]
}

proof fn lemma_lexicographic(left: Seq<u8>, right: Seq<u8>)
    ensures
        text::bytes_before(left, right) <==> exists|at: int| first_difference(left, right, at),
    decreases left.len(),
{
    if left.len() > 0 && right.len() > 0 && left[0] == right[0] {
        let (a, b) = (left.skip(1), right.skip(1));
        lemma_lexicographic(a, b);
        if exists|at: int| first_difference(a, b, at) {
            let at = choose|at: int| first_difference(a, b, at);
            assert(left.take(at + 1) =~= right.take(at + 1)) by {
                assert forall|i: int| 0 <= i < at + 1 implies left[i] == right[i] by {
                    if i > 0 {
                        assert(a.take(at)[i - 1] == b.take(at)[i - 1]);
                    }
                }
            }
            assert(first_difference(left, right, at + 1));
        }
        if exists|at: int| first_difference(left, right, at) {
            let at = choose|at: int| first_difference(left, right, at);
            assert(at > 0);
            assert(a.take(at - 1) =~= b.take(at - 1)) by {
                assert forall|i: int| 0 <= i < at - 1 implies a[i] == b[i] by {
                    assert(left.take(at)[i + 1] == right.take(at)[i + 1]);
                }
            }
            assert(first_difference(a, b, at - 1));
        }
    } else {
        if text::bytes_before(left, right) {
            assert(left.take(0) =~= right.take(0));
            assert(first_difference(left, right, 0));
        }
        if exists|at: int| first_difference(left, right, at) {
            let at = choose|at: int| first_difference(left, right, at);
            if at > 0 {
                assert(left.take(at)[0] == right.take(at)[0]);
            }
        }
    }
}

} // verus!
