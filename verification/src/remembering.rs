//! When a remembered result answers a search, and which results are remembered.
use crate::cache;
use crate::cache::{
    distinct_keys, entered, holds, lookup, shard_capacity, touched, CacheKey,
};
use crate::matching;
use crate::query;
use crate::query::{Query, SearchOptions, SearchResult};
use crate::snapshot::Snapshot;
use crate::text;
use std::sync::Arc;
use vstd::prelude::*;

verus! {

/// Two keys are the same if and only if they were made for the same generation, the
/// same query, and the same number of hits and parameters of the score.
pub proof fn keys_tell_searches_apart(
    generation: u64,
    query: &Query,
    options: &SearchOptions,
    key: CacheKey,
    generation2: u64,
    query2: &Query,
    options2: &SearchOptions,
    key2: CacheKey,
    result: bool,
)
    requires
        call_ensures(CacheKey::new, (generation, query, options), key),
        call_ensures(CacheKey::new, (generation2, query2, options2), key2),
        call_ensures(CacheKey::is_same, (&key, &key2), result),
    ensures
        result == (generation == generation2 && options.limit == options2.limit && options.k1
            == options2.k1 && options.b == options2.b && query.same(*query2)),
{
    query::same_laws(*query, key.query, key2.query);
    query::same_laws(*query, key2.query, *query2);
    query::same_laws(key.query, *query, key2.query);
    query::same_laws(key.query, *query, *query2);
    query::same_laws(*query2, key2.query, key.query);
    query::same_laws(*query2, key2.query, *query);
    query::same_laws(key2.query, *query2, *query);
    query::same_laws(key.query, *query2, key2.query);
    query::same_laws(key2.query, key.query, *query);
    query::same_laws(*query, *query2, key2.query);
}

/// Queries are the same only if they are of one kind and built from the same parts.
pub proof fn same_queries_have_the_same_parts(left: Query, right: Query)
    ensures
        left matches Query::Term(name) ==> left.same(right) == (right matches Query::Term(name2)
            && name@ == name2@),
        left matches Query::Prefix(name) ==> left.same(right) == (right matches Query::Prefix(
            name2,
        ) && name@ == name2@),
        left matches Query::Phrase(names) ==> left.same(right) == (right matches Query::Phrase(
            names2,
        ) && text::texts(names@) == text::texts(names2@)),
        left matches Query::Near { terms: names, distance } ==> left.same(right) == (
        right matches Query::Near { terms: names2, distance: distance2 } && text::texts(names@)
            == text::texts(names2@) && distance == distance2),
        left matches Query::Column { column, query: child } ==> left.same(right) == (
        right matches Query::Column { column: column2, query: child2 } && column == column2
            && child.same(*child2)),
        left matches Query::Not(child) ==> left.same(right) == (right matches Query::Not(child2)
            && child.same(*child2)),
        left is All ==> left.same(right) == right is All,
        left matches Query::And(children) ==> left.same(right) == (right matches Query::And(
            children2,
        ) && children@.len() == children2@.len() && forall|i: int|
            0 <= i < children@.len() ==> (#[trigger] children@[i]).same(children2@[i])),
        left matches Query::Or(children) ==> left.same(right) == (right matches Query::Or(
            children2,
        ) && children@.len() == children2@.len() && forall|i: int|
            0 <= i < children@.len() ==> (#[trigger] children@[i]).same(children2@[i])),
{
}

/// Queries that are the same ask for the same documents and count the same terms: a
/// remembered result of one answers the other.
pub proof fn same_queries_ask_alike(
    left: Query,
    right: Query,
    at: spec_fn(Seq<char>) -> Seq<u32>,
    snapshot: Snapshot,
    term: Seq<char>,
)
    requires
        left.same(right),
    ensures
        matching::matches(left, at) == matching::matches(right, at),
        snapshot.scores(left, term) == snapshot.scores(right, term),
{
    matching::same_queries_match_alike(left, right, at, None);
    lemma_same_terms(left, right, snapshot, true, term);
}

proof fn lemma_same_terms(
    left: Query,
    right: Query,
    snapshot: Snapshot,
    positive: bool,
    term: Seq<char>,
)
    requires
        left.same(right),
    ensures
        snapshot.collects(left, positive, term) == snapshot.collects(right, positive, term),
    decreases left,
{
    match (left, right) {
        (
            Query::Column { column, query: child },
            Query::Column { column: column2, query: child2 },
        ) => {
            lemma_same_terms(*child, *child2, snapshot, positive, term);
        },
        (Query::Not(child), Query::Not(child2)) => {
            lemma_same_terms(*child, *child2, snapshot, false, term);
        },
        (Query::And(children), Query::And(children2)) => {
            assert forall|i: int| 0 <= i < children@.len() implies snapshot.collects(
                #[trigger] children@[i],
                positive,
                term,
            ) == snapshot.collects(children2@[i], positive, term) by {
                query::lemma_child_decreases(left, children@, i);
                lemma_same_terms(children@[i], children2@[i], snapshot, positive, term);
            }
            lemma_some_child(children@, children2@, snapshot, positive, term);
        },
        (Query::Or(children), Query::Or(children2)) => {
            assert forall|i: int| 0 <= i < children@.len() implies snapshot.collects(
                #[trigger] children@[i],
                positive,
                term,
            ) == snapshot.collects(children2@[i], positive, term) by {
                query::lemma_child_decreases(left, children@, i);
                lemma_same_terms(children@[i], children2@[i], snapshot, positive, term);
            }
            lemma_some_child(children@, children2@, snapshot, positive, term);
        },
        _ => {},
    }
}

proof fn lemma_some_child(
    children: Seq<Query>,
    children2: Seq<Query>,
    snapshot: Snapshot,
    positive: bool,
    term: Seq<char>,
)
    requires
        children.len() == children2.len(),
        forall|i: int|
            0 <= i < children.len() ==> snapshot.collects(#[trigger] children[i], positive, term)
                == snapshot.collects(children2[i], positive, term),
    ensures
        (exists|i: int|
            0 <= i < children.len() && snapshot.collects(#[trigger] children[i], positive, term))
            <==> (exists|i: int|
            0 <= i < children2.len() && snapshot.collects(#[trigger] children2[i], positive, term)),
{
    if exists|i: int|
        0 <= i < children.len() && snapshot.collects(#[trigger] children[i], positive, term) {
        let i = choose|i: int|
            0 <= i < children.len() && snapshot.collects(#[trigger] children[i], positive, term);
        assert(snapshot.collects(children2[i], positive, term));
    }
    if exists|i: int|
        0 <= i < children2.len() && snapshot.collects(#[trigger] children2[i], positive, term) {
        let i = choose|i: int|
            0 <= i < children2.len() && snapshot.collects(#[trigger] children2[i], positive, term);
        assert(snapshot.collects(children[i], positive, term));
    }
}

/// To use a result moves it behind all others and changes nothing else: the others stay
/// in their order, and every key finds what it found.
pub proof fn used_results_move_to_the_end(
    entries: Seq<(CacheKey, Arc<SearchResult>)>,
    key: CacheKey,
    index: int,
    asked: CacheKey,
)
    requires
        distinct_keys(entries),
        0 <= index < entries.len(),
        entries[index].0.same(key),
    ensures
        touched(entries, key) == entries.take(index) + entries.skip(index + 1) + seq![
            entries[index],
        ],
        lookup(entries, key) == Some(entries[index].1),
        lookup(touched(entries, key), asked) == lookup(entries, asked),
{
    cache::lemma_place(entries, key, index);
    cache::lemma_touched(entries, key);
    let after = touched(entries, key);
    assert(after =~= entries.take(index) + entries.skip(index + 1) + seq![entries[index]]);
    if holds(entries, asked) {
        let i = cache::place(entries, asked);
        assert(entries[i].0.same(asked));
        let j = if i < index {
            i
        } else if i == index {
            entries.len() - 1
        } else {
            i - 1
        };
        assert(after[j] == entries[i]);
        cache::lemma_place(after, asked, j);
    }
    if holds(after, asked) {
        let j = cache::place(after, asked);
        assert(after[j].0.same(asked));
        let i = if j == entries.len() - 1 {
            index
        } else if j < index {
            j
        } else {
            j + 1
        };
        assert(after[j] == entries[i]);
        cache::lemma_place(entries, asked, i);
        cache::lemma_place(after, asked, j);
    }
}

/// A new result stands behind all others. Where the cache is full, the one that was
/// used longest ago is forgotten, and only that; elsewhere none is.
pub proof fn the_longest_unused_result_is_forgotten(
    entries: Seq<(CacheKey, Arc<SearchResult>)>,
    capacity: nat,
    key: CacheKey,
    value: Arc<SearchResult>,
)
    requires
        distinct_keys(entries),
        entries.len() <= capacity,
        capacity > 0,
        forall|i: int| 0 <= i < entries.len() ==> !(#[trigger] entries[i]).0.same(key),
    ensures
        entries.len() < capacity ==> entered(entries, capacity, key, value) == entries.push(
            (key, value),
        ),
        entries.len() == capacity ==> entered(entries, capacity, key, value) == entries.skip(
            1,
        ).push((key, value)),
{
    assert(!holds(entries, key));
    if entries.len() == capacity {
        assert(entries.push((key, value)).skip(1) =~= entries.skip(1).push((key, value)));
    }
}

/// A result under a key that is there takes the place of the older one, and none is
/// forgotten.
pub proof fn renewed_results_replace_the_older(
    entries: Seq<(CacheKey, Arc<SearchResult>)>,
    capacity: nat,
    key: CacheKey,
    value: Arc<SearchResult>,
    index: int,
)
    requires
        distinct_keys(entries),
        entries.len() <= capacity,
        0 <= index < entries.len(),
        entries[index].0.same(key),
    ensures
        entered(entries, capacity, key, value) == entries.take(index) + entries.skip(index + 1)
            + seq![(key, value)],
{
    cache::lemma_place(entries, key, index);
    assert(entered(entries, capacity, key, value) =~= entries.take(index) + entries.skip(
        index + 1,
    ) + seq![(key, value)]);
}

/// A cache for no results remembers none.
pub proof fn nothing_is_remembered_without_room(
    key: CacheKey,
    value: Arc<SearchResult>,
    asked: CacheKey,
)
    ensures
        lookup(entered(Seq::empty(), 0, key, value), asked) is None,
{
}

/// The shards of a cache are as equal as they can be.
pub proof fn shards_differ_by_one_at_most(
    total: usize,
    shards: usize,
    first: usize,
    second: usize,
    capacity: usize,
    capacity2: usize,
)
    requires
        first < shards,
        second < shards,
        call_ensures(shard_capacity, (total, shards, first), capacity),
        call_ensures(shard_capacity, (total, shards, second), capacity2),
    ensures
        capacity <= capacity2 + 1,
        capacity * shards <= total + shards,
        total <= capacity * shards + shards,
{
    let (t, n) = (total as int, shards as int);
    let whole = t / n;
    vstd::arithmetic::div_mod::lemma_fundamental_div_mod(t, n);
    vstd::arithmetic::div_mod::lemma_mod_bound(t, n);
    assert(capacity == whole || capacity == whole + 1);
    assert(capacity2 == whole || capacity2 == whole + 1);
    assert((whole + 1) * n == whole * n + n) by (nonlinear_arith);
    assert(n * whole == whole * n) by (nonlinear_arith);
}

/// A copy of a result shows the same hits in the same order; marked as taken from a
/// cache it differs in that mark alone.
pub proof fn remembered_results_show_the_same(
    result: &SearchResult,
    copy: SearchResult,
    marked: SearchResult,
)
    requires
        call_ensures(SearchResult::copy, (result,), copy),
        call_ensures(SearchResult::from_cache, (copy,), marked),
    ensures
        marked.hits@.len() == result.hits@.len(),
        forall|i: int|
            0 <= i < result.hits@.len() ==> (#[trigger] marked.hits@[i]).rowid
                == result.hits@[i].rowid && marked.hits@[i].score == result.hits@[i].score
                && marked.hits@[i].fields@ == result.hits@[i].fields@,
        marked.generation == result.generation,
        marked.is_approximate == result.is_approximate,
        marked.stats.cache_hit,
        marked.stats.segments == result.stats.segments,
        marked.stats.candidate_docs == result.stats.candidate_docs,
        marked.stats.scored_docs == result.stats.scored_docs,
        marked.stats.posting_blocks == result.stats.posting_blocks,
        marked.stats.skipped_blocks == result.stats.skipped_blocks,
{
    assert forall|i: int| 0 <= i < result.hits@.len() implies (#[trigger] marked.hits@[i]).rowid
        == result.hits@[i].rowid && marked.hits@[i].score == result.hits@[i].score
        && marked.hits@[i].fields@ == result.hits@[i].fields@ by {
        assert(result.hits@[i].same(copy.hits@[i]));
    }
}

} // verus!
