//! Which documents a query matches.
//!
//! A document is seen through the positions of its terms: a function from a
//! term to the places where the document holds it, empty if it does not.
use crate::query::{lemma_child_decreases, Query};
use crate::segment;
use crate::segment::Segment;
use crate::sorting;
use crate::sorting::sort_entries;
use crate::text;
use crate::text::{has_prefix, text_order, TextOrder};
use vstd::prelude::*;

verus! {

/// The column of a position.
pub open spec fn position_column(position: int) -> int {
    position / 0x400_0000
}

/// Whether a position lies in the required column, if one is required.
pub open spec fn in_column(position: int, column: Option<u8>) -> bool {
    column matches Some(required) ==> position_column(position) == required
}

/// Whether one of the positions lies in the required column.
pub open spec fn any_in_column(positions: Seq<u32>, column: Option<u8>) -> bool {
    exists|i: int| 0 <= i < positions.len() && in_column(#[trigger] positions[i] as int, column)
}

/// The position `steps` after `start`, as far as 32 bits reach.
pub open spec fn position_after(start: u32, steps: int) -> u32 {
    if start + steps < u32::MAX {
        (start + steps) as u32
    } else {
        u32::MAX
    }
}

/// Whether the position `steps` after `start` is among `positions` and lies in
/// the column of `start`.
pub open spec fn step_holds(positions: Seq<u32>, start: u32, steps: int) -> bool {
    position_column(position_after(start, steps) as int) == position_column(start as int)
        && positions.contains(position_after(start, steps))
}

/// Whether the terms after the first follow one by one after `start`, in its
/// column.
pub open spec fn phrase_follows(
    at: spec_fn(Seq<char>) -> Seq<u32>,
    terms: Seq<Seq<char>>,
    start: u32,
) -> bool {
    forall|k: int| 1 <= k < terms.len() ==> step_holds(at(#[trigger] terms[k]), start, k)
}

/// Whether the terms stand somewhere one right after the other.
pub open spec fn phrase_matches(
    at: spec_fn(Seq<char>) -> Seq<u32>,
    terms: Seq<Seq<char>>,
    column: Option<u8>,
) -> bool {
    &&& terms.len() > 0
    &&& exists|i: int|
        0 <= i < at(terms[0]).len() && in_column((#[trigger] at(terms[0])[i]) as int, column)
            && phrase_follows(at, terms, at(terms[0])[i])
}

/// How often `term` stands among `terms`.
pub open spec fn multiplicity(terms: Seq<Seq<char>>, term: Seq<char>) -> nat
    decreases terms.len(),
{
    if terms.len() == 0 {
        0
    } else {
        multiplicity(terms.drop_last(), term) + if terms.last() == term {
            1nat
        } else {
            0
        }
    }
}

/// How many positions lie between `low` and `high`.
pub open spec fn count_between(positions: Seq<u32>, low: int, high: int) -> nat
    decreases positions.len(),
{
    if positions.len() == 0 {
        0
    } else {
        count_between(positions.drop_last(), low, high) + if low <= positions.last() <= high {
            1nat
        } else {
            0
        }
    }
}

/// Whether the stretch from `low` to `high` lies in one column, is no longer
/// than `distance` and holds every term as often as `terms` names it.
pub open spec fn near_window(
    at: spec_fn(Seq<char>) -> Seq<u32>,
    terms: Seq<Seq<char>>,
    distance: u32,
    column: Option<u8>,
    low: int,
    high: int,
) -> bool {
    &&& 0 <= low <= high
    &&& high - low <= distance
    &&& position_column(low) == position_column(high)
    &&& in_column(low, column)
    &&& forall|k: int|
        0 <= k < terms.len() ==> count_between(at(#[trigger] terms[k]), low, high) >= multiplicity(
            terms,
            terms[k],
        )
}

/// Whether some stretch holds all the terms close together.
pub open spec fn near_matches(
    at: spec_fn(Seq<char>) -> Seq<u32>,
    terms: Seq<Seq<char>>,
    distance: u32,
    column: Option<u8>,
) -> bool {
    &&& terms.len() > 0
    &&& exists|low: int, high: int| near_window(at, terms, distance, column, low, high)
}

/// Whether a document with these positions matches the query within the
/// required column.
pub open spec fn matches_in_column(
    query: Query,
    at: spec_fn(Seq<char>) -> Seq<u32>,
    column: Option<u8>,
) -> bool
    decreases query,
{
    match query {
        Query::Term(term) => any_in_column(at(term@), column),
        Query::Prefix(prefix) => exists|term: Seq<char>|
            text::starts_with(term, prefix@) && any_in_column(#[trigger] at(term), column),
        Query::Phrase(terms) => phrase_matches(at, text::texts(terms@), column),
        Query::Near { terms, distance } => near_matches(
            at,
            text::texts(terms@),
            distance,
            column,
        ),
        Query::Column { column: restricted, query } => (column matches Some(outer) ==> outer
            == restricted) && matches_in_column(*query, at, Some(restricted)),
        Query::And(children) => forall|i: int|
            0 <= i < children@.len() ==> matches_in_column(#[trigger] children@[i], at, column),
        Query::Or(children) => exists|i: int|
            0 <= i < children@.len() && matches_in_column(#[trigger] children@[i], at, column),
        Query::Not(child) => !matches_in_column(*child, at, column),
        Query::All => true,
    }
}

/// Whether a document with these positions matches the query.
pub open spec fn matches(query: Query, at: spec_fn(Seq<char>) -> Seq<u32>) -> bool {
    matches_in_column(query, at, None)
}

impl Segment {
    /// The positions of the terms of document `docid`.
    pub open spec fn document(&self, docid: int) -> spec_fn(Seq<char>) -> Seq<u32> {
        |term: Seq<char>| self.positions(docid, term)
    }
}

/// A term or a prefix.
pub open spec fn is_word_query(query: Query) -> bool {
    query is Term || query is Prefix
}

/// A term, a prefix, or a choice among such.
pub open spec fn flat_disjunction(query: Query) -> bool {
    match query {
        Query::Term(_) => true,
        Query::Prefix(_) => true,
        Query::Or(children) => children@.len() > 0 && forall|i: int|
            0 <= i < children@.len() ==> is_word_query(#[trigger] children@[i]),
        _ => false,
    }
}

/// A conjunction of terms.
pub open spec fn flat_conjunction(query: Query) -> bool {
    match query {
        Query::And(children) => children@.len() > 0 && forall|i: int|
            0 <= i < children@.len() ==> (#[trigger] children@[i]) is Term,
        _ => false,
    }
}

pub fn is_flat_disjunction(query: &Query) -> (result: bool)
    ensures
        result == flat_disjunction(*query),
{
    match query {
        Query::Term(_) => true,
        Query::Prefix(_) => true,
        Query::Or(children) => {
            let mut done: usize = 0;
            while done < children.len()
                invariant
                    done <= children@.len(),
                    *query == Query::Or(*children),
                    forall|i: int| 0 <= i < done ==> is_word_query(#[trigger] children@[i]),
                decreases children@.len() - done,
            {
                match &children[done] {
                    Query::Term(_) => {},
                    Query::Prefix(_) => {},
                    _ => {
                        assert(!is_word_query(children@[done as int]));
                        return false;
                    },
                }
                done = done + 1;
            }
            children.len() > 0
        },
        _ => false,
    }
}

pub fn is_flat_conjunction(query: &Query) -> (result: bool)
    ensures
        result == flat_conjunction(*query),
{
    match query {
        Query::And(children) => {
            let mut done: usize = 0;
            while done < children.len()
                invariant
                    done <= children@.len(),
                    *query == Query::And(*children),
                    forall|i: int| 0 <= i < done ==> (#[trigger] children@[i]) is Term,
                decreases children@.len() - done,
            {
                match &children[done] {
                    Query::Term(_) => {},
                    _ => {
                        assert(!(children@[done as int] is Term));
                        return false;
                    },
                }
                done = done + 1;
            }
            children.len() > 0
        },
        _ => false,
    }
}

/// The positions of `term` in document `docid`, if it is there.
pub fn term_positions<'a>(segment: &'a Segment, docid: u32, term: &str) -> (positions: Option<
    &'a Vec<u32>,
>)
    requires
        segment.wf(),
    ensures
        match positions {
            Some(positions) => positions@.len() > 0 && positions@ == segment.positions(
                docid as int,
                term@,
            ) && (segment.ordered() ==> segment::ascending(positions@)),
            None => segment.positions(docid as int, term@).len() == 0,
        },
{
    let list = match segment.terms.get(term) {
        Some(list) => list,
        None => return None,
    };
    proof {
        segment.lemma_list(term@);
    }
    match list.find(docid) {
        Some(index) => {
            assert(list.positions@[index as int]@.len() > 0);
            Some(&list.positions[index])
        },
        None => None,
    }
}

/// Whether one of the positions lies in the required column; no column requires
/// nothing.
pub fn positions_in_column(positions: &Vec<u32>, column: Option<u8>) -> (result: bool)
    ensures
        result == (column is None || any_in_column(positions@, column)),
        positions@.len() > 0 ==> result == any_in_column(positions@, column),
{
    let required: u8 = match column {
        Some(required) => required,
        None => {
            assert(positions@.len() > 0 ==> in_column(positions@[0] as int, column));
            return true;
        },
    };
    let mut done: usize = 0;
    while done < positions.len()
        invariant
            done <= positions@.len(),
            column == Some(required),
            forall|i: int| 0 <= i < done ==> !in_column(#[trigger] positions@[i] as int, column),
        decreases positions@.len() - done,
    {
        if positions[done] / 0x400_0000 == required as u32 {
            assert(in_column(positions@[done as int] as int, column));
            return true;
        }
        done = done + 1;
    }
    false
}

/// Whether `value` is among values that stand in order.
fn contains_sorted(values: &Vec<u32>, value: u32) -> (result: bool)
    requires
        segment::ascending(values@),
    ensures
        result == values@.contains(value),
{
    let mut low: usize = 0;
    let mut high: usize = values.len();
    while low < high
        invariant
            low <= high <= values@.len(),
            segment::ascending(values@),
            forall|i: int| 0 <= i < low ==> #[trigger] values@[i] < value,
            forall|i: int| high <= i < values@.len() ==> value < #[trigger] values@[i],
        decreases high - low,
    {
        let middle: usize = low + (high - low) / 2;
        if values[middle] == value {
            assert(values@[middle as int] == value);
            return true;
        }
        if values[middle] < value {
            low = middle + 1;
        } else {
            high = middle;
        }
    }
    false
}

/// The position `steps` after `start`, as far as 32 bits reach.
fn step_position(start: u32, steps: usize) -> (position: u32)
    ensures
        position == position_after(start, steps as int),
{
    if steps > u32::MAX as usize {
        u32::MAX
    } else {
        start.saturating_add(steps as u32)
    }
}

/// Whether `following[k]` holds the position `k + 1` steps after `start`, in its
/// column, for every `k`.
pub open spec fn runs_after(following: Seq<&Vec<u32>>, start: u32) -> bool {
    forall|k: int|
        0 <= k < following.len() ==> step_holds((#[trigger] following[k])@, start, k + 1)
}

/// Whether the positions follow one by one after `start`.
fn follows(following: &Vec<&Vec<u32>>, start: u32) -> (result: bool)
    requires
        forall|k: int|
            0 <= k < following@.len() ==> segment::ascending((#[trigger] following@[k])@),
    ensures
        result == runs_after(following@, start),
{
    let mut done: usize = 0;
    while done < following.len()
        invariant
            done <= following@.len(),
            forall|k: int|
                0 <= k < following@.len() ==> segment::ascending((#[trigger] following@[k])@),
            forall|k: int|
                0 <= k < done ==> step_holds((#[trigger] following@[k])@, start, k + 1),
        decreases following@.len() - done,
    {
        let target: u32 = step_position(start, done + 1);
        if target / 0x400_0000 != start / 0x400_0000 || !contains_sorted(following[done], target) {
            assert(!step_holds(following@[done as int]@, start, done + 1));
            return false;
        }
        done = done + 1;
    }
    true
}

/// Whether the positions in `rest` follow one by one after one of those in
/// `first` that lies in the required column.
pub fn phrase_runs(first: &Vec<u32>, rest: &Vec<&Vec<u32>>, required_column: Option<u8>) -> (result:
    bool)
    requires
        forall|k: int| 0 <= k < rest@.len() ==> segment::ascending((#[trigger] rest@[k])@),
    ensures
        result == exists|i: int|
            0 <= i < first@.len() && in_column((#[trigger] first@[i]) as int, required_column)
                && runs_after(rest@, first@[i]),
{
    let mut index: usize = 0;
    while index < first.len()
        invariant
            index <= first@.len(),
            forall|k: int| 0 <= k < rest@.len() ==> segment::ascending((#[trigger] rest@[k])@),
            forall|i: int|
                0 <= i < index ==> !(in_column((#[trigger] first@[i]) as int, required_column)
                    && runs_after(rest@, first@[i])),
        decreases first@.len() - index,
    {
        let start: u32 = first[index];
        let placed: bool = match required_column {
            Some(required) => start / 0x400_0000 == required as u32,
            None => true,
        };
        if placed && follows(rest, start) {
            assert(in_column(first@[index as int] as int, required_column));
            return true;
        }
        index = index + 1;
    }
    false
}

/// Whether the terms stand in the document one right after the other.
pub fn matches_phrase(
    segment: &Segment,
    docid: u32,
    terms: &Vec<String>,
    required_column: Option<u8>,
) -> (result: bool)
    requires
        segment.wf(),
        segment.ordered(),
    ensures
        result == phrase_matches(
            segment.document(docid as int),
            text::texts(terms@),
            required_column,
        ),
{
    let ghost at = segment.document(docid as int);
    let ghost names = text::texts(terms@);
    if terms.len() == 0 {
        return false;
    }
    let first = match term_positions(segment, docid, terms[0].as_str()) {
        Some(first) => first,
        None => {
            assert(at(names[0]).len() == 0);
            return false;
        },
    };
    assert(first@ == at(names[0]));
    let mut rest: Vec<&Vec<u32>> = Vec::new();
    let mut done: usize = 1;
    while done < terms.len()
        invariant
            1 <= done <= terms@.len(),
            segment.wf(),
            segment.ordered(),
            at == segment.document(docid as int),
            names == text::texts(terms@),
            rest@.len() == done - 1,
            forall|k: int|
                0 <= k < rest@.len() ==> segment::ascending((#[trigger] rest@[k])@) && rest@[k]@
                    == at(names[k + 1]),
        decreases terms@.len() - done,
    {
        match term_positions(segment, docid, terms[done].as_str()) {
            Some(positions) => {
                assert(positions@ == at(names[done as int]));
                rest.push(positions);
            },
            None => {
                proof {
                    assert(at(names[done as int]).len() == 0);
                    assert forall|start: u32| !(#[trigger] phrase_follows(at, names, start)) by {
                        assert(!step_holds(at(names[done as int]), start, done as int));
                    }
                }
                return false;
            },
        }
        done = done + 1;
    }
    let found: bool = phrase_runs(first, &rest, required_column);
    proof {
        assert forall|start: u32| phrase_follows(at, names, start) == runs_after(
            rest@,
            start,
        ) by {
            if runs_after(rest@, start) {
                assert forall|k: int| 1 <= k < names.len() implies step_holds(
                    at(#[trigger] names[k]),
                    start,
                    k,
                ) by {
                    assert(step_holds(rest@[k - 1]@, start, k));
                }
            }
            if phrase_follows(at, names, start) {
                assert forall|k: int| 0 <= k < rest@.len() implies step_holds(
                    (#[trigger] rest@[k])@,
                    start,
                    k + 1,
                ) by {
                    assert(step_holds(at(names[k + 1]), start, k + 1));
                }
            }
        }
        if found {
            let i = choose|i: int|
                0 <= i < first@.len() && in_column((#[trigger] first@[i]) as int, required_column)
                    && runs_after(rest@, first@[i]);
            assert(in_column(at(names[0])[i] as int, required_column));
            assert(phrase_follows(at, names, at(names[0])[i]));
        } else if phrase_matches(at, names, required_column) {
            let i = choose|i: int|
                0 <= i < at(names[0]).len() && in_column(
                    (#[trigger] at(names[0])[i]) as int,
                    required_column,
                ) && phrase_follows(at, names, at(names[0])[i]);
            assert(in_column(first@[i] as int, required_column));
            assert(runs_after(rest@, first@[i]));
        }
    }
    found
}

/// How many events belong to term `term`.
spec fn term_count(events: Seq<(i64, usize)>, term: int) -> nat
    decreases events.len(),
{
    if events.len() == 0 {
        0
    } else {
        term_count(events.drop_last(), term) + if events.last().1 == term {
            1nat
        } else {
            0
        }
    }
}

/// How many events of term `term` lie between `low` and `high`.
spec fn events_between(events: Seq<(i64, usize)>, term: int, low: int, high: int) -> nat
    decreases events.len(),
{
    if events.len() == 0 {
        0
    } else {
        events_between(events.drop_last(), term, low, high) + if events.last().1 == term && low
            <= events.last().0 <= high {
            1nat
        } else {
            0
        }
    }
}

proof fn lemma_term_count_split(front: Seq<(i64, usize)>, back: Seq<(i64, usize)>, term: int)
    ensures
        term_count(front + back, term) == term_count(front, term) + term_count(back, term),
    decreases back.len(),
{
    if back.len() == 0 {
        assert(front + back =~= front);
    } else {
        assert((front + back).drop_last() =~= front + back.drop_last());
        lemma_term_count_split(front, back.drop_last(), term);
    }
}

proof fn lemma_between_split(
    front: Seq<(i64, usize)>,
    back: Seq<(i64, usize)>,
    term: int,
    low: int,
    high: int,
)
    ensures
        events_between(front + back, term, low, high) == events_between(front, term, low, high)
            + events_between(back, term, low, high),
    decreases back.len(),
{
    if back.len() == 0 {
        assert(front + back =~= front);
    } else {
        assert((front + back).drop_last() =~= front + back.drop_last());
        lemma_between_split(front, back.drop_last(), term, low, high);
    }
}

/// Where all events lie between the bounds, all of a term's events count; where
/// none does, none counts.
proof fn lemma_between_all(events: Seq<(i64, usize)>, term: int, low: int, high: int)
    ensures
        (forall|i: int| 0 <= i < events.len() ==> low <= (#[trigger] events[i]).0 <= high)
            ==> events_between(events, term, low, high) == term_count(events, term),
        (forall|i: int| 0 <= i < events.len() ==> !(low <= (#[trigger] events[i]).0 <= high))
            ==> events_between(events, term, low, high) == 0,
    decreases events.len(),
{
    if events.len() > 0 {
        let front = events.drop_last();
        assert(forall|i: int| 0 <= i < front.len() ==> front[i] == events[i]);
        assert(events.last() == events[events.len() - 1]);
        lemma_between_all(front, term, low, high);
    }
}

spec fn counts_as(entry: (i64, usize), term: int, low: int, high: int) -> bool {
    entry.1 == term && low <= entry.0 <= high
}

proof fn lemma_between_multiset(events: Seq<(i64, usize)>, term: int, low: int, high: int)
    ensures
        events_between(events, term, low, high) == events.to_multiset().filter(
            |entry: (i64, usize)| counts_as(entry, term, low, high),
        ).len(),
    decreases events.len(),
{
    broadcast use {
        vstd::seq_lib::group_to_multiset_ensures,
        vstd::multiset::group_multiset_axioms,
        vstd::multiset::group_multiset_properties,
    };

    let wanted = |entry: (i64, usize)| counts_as(entry, term, low, high);
    if events.len() == 0 {
        assert(events.to_multiset().filter(wanted) =~= vstd::multiset::Multiset::empty());
    } else {
        let front = events.drop_last();
        let last = events.last();
        lemma_between_multiset(front, term, low, high);
        assert(events =~= front.push(last));
        if wanted(last) {
            assert(events.to_multiset().filter(wanted) =~= front.to_multiset().filter(
                wanted,
            ).insert(last));
        } else {
            assert(events.to_multiset().filter(wanted) =~= front.to_multiset().filter(wanted));
        }
    }
}

/// How many terms have been seen often enough.
spec fn met(counts: Seq<usize>, needs: Seq<usize>) -> nat
    decreases counts.len(),
{
    if counts.len() == 0 {
        0
    } else {
        met(counts.drop_last(), needs) + if counts.last() >= needs[counts.len() - 1] {
            1nat
        } else {
            0
        }
    }
}

proof fn lemma_met_update(counts: Seq<usize>, needs: Seq<usize>, term: int, count: usize)
    requires
        0 <= term < counts.len(),
        counts.len() <= needs.len(),
    ensures
        met(counts.update(term, count), needs) == met(counts, needs) + (if count >= needs[term] {
            1int
        } else {
            0
        }) - (if counts[term] >= needs[term] {
            1int
        } else {
            0
        }),
    decreases counts.len(),
{
    let after = counts.update(term, count);
    if term < counts.len() - 1 {
        lemma_met_update(counts.drop_last(), needs, term, count);
        assert(after.drop_last() =~= counts.drop_last().update(term, count));
    } else {
        assert(after.drop_last() =~= counts.drop_last());
    }
}

proof fn lemma_met_all(counts: Seq<usize>, needs: Seq<usize>)
    requires
        counts.len() <= needs.len(),
    ensures
        met(counts, needs) <= counts.len(),
        met(counts, needs) == counts.len() <==> (forall|t: int|
            0 <= t < counts.len() ==> #[trigger] counts[t] >= needs[t]),
    decreases counts.len(),
{
    if counts.len() > 0 {
        let front = counts.drop_last();
        lemma_met_all(front, needs);
        assert(forall|t: int| 0 <= t < front.len() ==> front[t] == counts[t]);
        assert(counts.last() == counts[counts.len() - 1]);
        if met(counts, needs) == counts.len() {
            assert forall|t: int| 0 <= t < counts.len() implies #[trigger] counts[t]
                >= needs[t] by {
                if t < front.len() {
                    assert(front[t] >= needs[t]);
                }
            }
        }
        if forall|t: int| 0 <= t < counts.len() ==> #[trigger] counts[t] >= needs[t] {
            assert forall|t: int| 0 <= t < front.len() implies #[trigger] front[t]
                >= needs[t] by {
                assert(counts[t] >= needs[t]);
            }
        }
    }
}

/// The events `left..right` hold every term as often as needed.
spec fn covers(events: Seq<(i64, usize)>, needs: Seq<usize>, left: int, right: int) -> bool {
    forall|t: int|
        0 <= t < needs.len() ==> term_count(events.subrange(left, right), t) >= #[trigger] needs[t]
}

/// The events `left` and `right` lie close together in one column.
spec fn close(events: Seq<(i64, usize)>, distance: u32, left: int, right: int) -> bool {
    &&& position_column(events[left].0 as int) == position_column(events[right].0 as int)
    &&& events[right].0 - events[left].0 <= distance
}

/// The counts of a run tell whether it holds every term as often as needed.
proof fn lemma_covers_counts(
    events: Seq<(i64, usize)>,
    needs: Seq<usize>,
    counts: Seq<usize>,
    left: int,
    right: int,
)
    requires
        counts.len() == needs.len(),
        forall|t: int|
            0 <= t < counts.len() ==> #[trigger] counts[t] == term_count(
                events.subrange(left, right),
                t,
            ),
    ensures
        covers(events, needs, left, right) == (met(counts, needs) == needs.len()),
{
    lemma_met_all(counts, needs);
    if covers(events, needs, left, right) {
        assert forall|t: int| 0 <= t < counts.len() implies #[trigger] counts[t] >= needs[t] by {
            assert(term_count(events.subrange(left, right), t) >= needs[t]);
        }
    }
    if met(counts, needs) == needs.len() {
        assert forall|t: int| 0 <= t < needs.len() implies term_count(
            events.subrange(left, right),
            t,
        ) >= #[trigger] needs[t] by {
            assert(counts[t] >= needs[t]);
        }
    }
}

proof fn lemma_covers_wider(
    events: Seq<(i64, usize)>,
    needs: Seq<usize>,
    left: int,
    right: int,
    left2: int,
    right2: int,
)
    requires
        0 <= left2 <= left <= right <= right2 <= events.len(),
        covers(events, needs, left, right),
    ensures
        covers(events, needs, left2, right2),
{
    let inner = events.subrange(left, right);
    assert forall|t: int| 0 <= t < needs.len() implies term_count(
        events.subrange(left2, right2),
        t,
    ) >= #[trigger] needs[t] by {
        assert(events.subrange(left2, right2) =~= events.subrange(left2, left) + inner
            + events.subrange(right, right2));
        lemma_term_count_split(events.subrange(left2, left), inner, t);
        lemma_term_count_split(
            events.subrange(left2, left) + inner,
            events.subrange(right, right2),
            t,
        );
    }
}

/// Whether `term` is among the terms at these places.
spec fn named(places: Seq<usize>, whole: Seq<Seq<char>>, term: Seq<char>) -> bool {
    exists|t: int| 0 <= t < places.len() && whole[#[trigger] places[t] as int] == term
}

/// The distinct terms of a query with how often each is named.
struct Requirements {
    /// For each distinct term, where it first stands.
    names: Vec<usize>,
    /// For each distinct term, how often it is named.
    needs: Vec<usize>,
}

impl Requirements {
    spec fn wf(self, terms: Seq<Seq<char>>, whole: Seq<Seq<char>>) -> bool {
        &&& self.names@.len() == self.needs@.len()
        &&& forall|t: int|
            0 <= t < self.names@.len() ==> (#[trigger] self.names@[t]) < terms.len()
        &&& forall|t: int|
            0 <= t < self.names@.len() ==> #[trigger] self.needs@[t] == multiplicity(
                terms,
                whole[self.names@[t] as int],
            ) && self.needs@[t] > 0
        &&& forall|k: int| 0 <= k < terms.len() ==> named(self.names@, whole, #[trigger] terms[k])
        &&& forall|s: int, t: int|
            0 <= s < t < self.names@.len() ==> whole[#[trigger] self.names@[s] as int]
                != whole[#[trigger] self.names@[t] as int]
    }
}

proof fn lemma_multiplicity_bound(terms: Seq<Seq<char>>, term: Seq<char>)
    ensures
        multiplicity(terms, term) <= terms.len(),
        !terms.contains(term) ==> multiplicity(terms, term) == 0,
    decreases terms.len(),
{
    if terms.len() > 0 {
        let front = terms.drop_last();
        lemma_multiplicity_bound(front, term);
        if front.contains(term) {
            let i = choose|i: int| 0 <= i < front.len() && front[i] == term;
            assert(terms[i] == term);
        }
        if terms.last() == term {
            assert(terms[terms.len() - 1] == term);
        }
    }
}

fn requirements(terms: &Vec<String>) -> (found: Requirements)
    ensures
        found.wf(text::texts(terms@), text::texts(terms@)),
        terms@.len() > 0 ==> found.needs@.len() > 0,
{
    let ghost whole = text::texts(terms@);
    let mut found = Requirements { names: Vec::new(), needs: Vec::new() };
    let mut done: usize = 0;
    while done < terms.len()
        invariant
            done <= terms@.len(),
            whole == text::texts(terms@),
            found.wf(whole.take(done as int), whole),
            done > 0 ==> found.needs@.len() > 0,
        decreases terms@.len() - done,
    {
        let ghost before = whole.take(done as int);
        let ghost after = whole.take(done + 1);
        let ghost current = whole[done as int];
        let ghost old_found = found;
        proof {
            assert(after.drop_last() =~= before);
            assert(after.last() == current);
        }
        let mut index: usize = 0;
        while index < found.names.len()
            invariant_except_break
                forall|t: int|
                    0 <= t < index ==> whole[#[trigger] found.names@[t] as int] != current,
            invariant
                index <= found.names@.len(),
                done < terms@.len(),
                whole == text::texts(terms@),
                current == whole[done as int],
                found.wf(before, whole),
                before == whole.take(done as int),
            ensures
                index < found.names@.len() ==> whole[found.names@[index as int] as int] == current,
                index == found.names@.len() ==> forall|t: int|
                    0 <= t < index ==> whole[#[trigger] found.names@[t] as int] != current,
            decreases found.names@.len() - index,
        {
            let name: usize = found.names[index];
            assert(name < before.len());
            let order: TextOrder = text_order(terms[name].as_str(), terms[done].as_str());
            if order == TextOrder::Same {
                break;
            }
            proof {
                text::text_order_laws(terms@[name as int]@, terms@[done as int]@, current);
            }
            index = index + 1;
        }
        if index < found.names.len() {
            proof {
                lemma_multiplicity_bound(before, current);
            }
            let need: usize = found.needs[index] + 1;
            found.needs.set(index, need);
            proof {
                assert forall|k: int| 0 <= k < after.len() implies named(
                    found.names@,
                    whole,
                    #[trigger] after[k],
                ) by {
                    if k < before.len() {
                        assert(named(old_found.names@, whole, before[k]));
                        assert(after[k] == before[k]);
                    } else {
                        assert(whole[found.names@[index as int] as int] == after[k]);
                    }
                }
                assert forall|t: int| 0 <= t < found.names@.len() implies #[trigger] found.needs@[t]
                    == multiplicity(after, whole[found.names@[t] as int]) && found.needs@[t]
                    > 0 by {
                    assert(old_found.needs@[t] == multiplicity(
                        before,
                        whole[found.names@[t] as int],
                    ));
                    if t != index {
                        if t < index {
                            assert(whole[found.names@[t] as int] != whole[found.names@[index as int] as int]);
                        } else {
                            assert(whole[found.names@[index as int] as int] != whole[found.names@[t] as int]);
                        }
                    }
                }
            }
        } else {
            found.names.push(done);
            found.needs.push(1);
            proof {
                assert(!before.contains(current)) by {
                    if before.contains(current) {
                        let k = choose|k: int| 0 <= k < before.len() && before[k] == current;
                        assert(named(old_found.names@, whole, before[k]));
                        let t = choose|t: int|
                            0 <= t < old_found.names@.len()
                                && whole[#[trigger] old_found.names@[t] as int] == before[k];
                        assert(whole[old_found.names@[t] as int] == current);
                    }
                }
                lemma_multiplicity_bound(before, current);
                assert forall|k: int| 0 <= k < after.len() implies named(
                    found.names@,
                    whole,
                    #[trigger] after[k],
                ) by {
                    if k < before.len() {
                        assert(named(old_found.names@, whole, before[k]));
                        let t = choose|t: int|
                            0 <= t < old_found.names@.len()
                                && whole[#[trigger] old_found.names@[t] as int] == before[k];
                        assert(found.names@[t] == old_found.names@[t]);
                    } else {
                        assert(found.names@[index as int] == done);
                    }
                }
                assert forall|t: int| 0 <= t < found.names@.len() implies #[trigger] found.needs@[t]
                    == multiplicity(after, whole[found.names@[t] as int]) && found.needs@[t]
                    > 0 by {
                    if t < index {
                        assert(old_found.needs@[t] == multiplicity(
                            before,
                            whole[old_found.names@[t] as int],
                        ));
                        assert(whole[old_found.names@[t] as int] != current);
                    }
                }
            }
        }
        done = done + 1;
    }
    assert(whole.take(done as int) =~= whole);
    found
}

/// What the events hold of term `t` is what the document holds of it within the
/// required column.
spec fn events_hold(
    events: Seq<(i64, usize)>,
    positions: Seq<u32>,
    t: int,
    column: Option<u8>,
) -> bool {
    forall|low: int, high: int|
        #![trigger events_between(events, t, low, high)]
        events_between(events, t, low, high) <= count_between(positions, low, high) && (in_column(
            low,
            column,
        ) && position_column(low) == position_column(high) ==> events_between(events, t, low, high)
            == count_between(positions, low, high))
}

/// An event is a position in the required column.
spec fn event_placed(event: (i64, usize), column: Option<u8>) -> bool {
    0 <= event.0 <= u32::MAX && in_column(event.0 as int, column)
}

/// Appends the positions of one term that lie in the required column.
fn push_events(
    events: &mut Vec<(i64, usize)>,
    positions: &Vec<u32>,
    term: usize,
    column: Option<u8>,
)
    requires
        forall|i: int| 0 <= i < old(events)@.len() ==> (#[trigger] old(events)@[i]).1 < term,
    ensures
        events_hold(final(events)@, positions@, term as int, column),
        forall|t: int, low: int, high: int|
            t != term ==> #[trigger] events_between(final(events)@, t, low, high)
                == events_between(old(events)@, t, low, high),
        forall|i: int|
            0 <= i < final(events)@.len() ==> (#[trigger] final(events)@[i]).1 <= term,
        forall|i: int|
            0 <= i < final(events)@.len() ==> event_placed(#[trigger] final(events)@[i], column)
                || (i < old(events)@.len() && final(events)@[i] == old(events)@[i]),
{
    let ghost before = events@;
    proof {
        assert forall|low: int, high: int| events_between(before, term as int, low, high) == 0 by {
            lemma_no_events(before, term as int, low, high);
        }
    }
    let mut done: usize = 0;
    while done < positions.len()
        invariant
            done <= positions@.len(),
            before == old(events)@,
            before.len() <= events@.len(),
            events_hold(events@, positions@.take(done as int), term as int, column),
            forall|t: int, low: int, high: int|
                t != term ==> #[trigger] events_between(events@, t, low, high) == events_between(
                    before,
                    t,
                    low,
                    high,
                ),
            forall|i: int| 0 <= i < events@.len() ==> (#[trigger] events@[i]).1 <= term,
            forall|i: int|
                0 <= i < events@.len() ==> event_placed(#[trigger] events@[i], column) || (i
                    < before.len() && events@[i] == before[i]),
        decreases positions@.len() - done,
    {
        let position: u32 = positions[done];
        let placed: bool = match column {
            Some(required) => position / 0x400_0000 == required as u32,
            None => true,
        };
        let ghost current = events@;
        let ghost longer = positions@.take(done + 1);
        proof {
            assert(longer.drop_last() =~= positions@.take(done as int));
            assert(longer.last() == position);
        }
        if placed {
            events.push((position as i64, term));
            assert(events@.drop_last() =~= current);
            assert forall|t: int, low: int, high: int| t != term implies #[trigger] events_between(
                events@,
                t,
                low,
                high,
            ) == events_between(before, t, low, high) by {
                assert(events_between(current, t, low, high) == events_between(
                    before,
                    t,
                    low,
                    high,
                ));
            }
            assert forall|low: int, high: int| true implies #[trigger] events_between(
                events@,
                term as int,
                low,
                high,
            ) <= count_between(longer, low, high) && (in_column(low, column) && position_column(low)
                == position_column(high) ==> events_between(events@, term as int, low, high)
                == count_between(longer, low, high)) by {
                assert(events_between(current, term as int, low, high) <= count_between(
                    positions@.take(done as int),
                    low,
                    high,
                ));
            }
        } else {
            assert forall|low: int, high: int| true implies #[trigger] events_between(
                events@,
                term as int,
                low,
                high,
            ) <= count_between(longer, low, high) && (in_column(low, column) && position_column(low)
                == position_column(high) ==> events_between(events@, term as int, low, high)
                == count_between(longer, low, high)) by {
                assert(events_between(current, term as int, low, high) <= count_between(
                    positions@.take(done as int),
                    low,
                    high,
                ));
            }
        }
        done = done + 1;
    }
    assert(positions@.take(done as int) =~= positions@);
}

proof fn lemma_no_events(events: Seq<(i64, usize)>, term: int, low: int, high: int)
    requires
        forall|i: int| 0 <= i < events.len() ==> (#[trigger] events[i]).1 != term,
    ensures
        events_between(events, term, low, high) == 0,
    decreases events.len(),
{
    if events.len() > 0 {
        let front = events.drop_last();
        assert(forall|i: int| 0 <= i < front.len() ==> front[i] == events[i]);
        assert(events.last() == events[events.len() - 1]);
        lemma_no_events(front, term, low, high);
    }
}

/// Whether the terms stand close together in the document.
pub fn matches_near(
    segment: &Segment,
    docid: u32,
    terms: &Vec<String>,
    distance: u32,
    required_column: Option<u8>,
) -> (result: bool)
    requires
        segment.wf(),
    ensures
        result == near_matches(
            segment.document(docid as int),
            text::texts(terms@),
            distance,
            required_column,
        ),
{
    let ghost at = segment.document(docid as int);
    let ghost names = text::texts(terms@);
    if terms.len() == 0 {
        return false;
    }
    let wanted = requirements(terms);
    let ghost needs = wanted.needs@;
    let ghost places = wanted.names@;
    let mut events: Vec<(i64, usize)> = Vec::new();
    let mut index: usize = 0;
    while index < wanted.names.len()
        invariant
            index <= wanted.names@.len(),
            segment.wf(),
            at == segment.document(docid as int),
            names == text::texts(terms@),
            wanted.wf(names, names),
            places == wanted.names@,
            names.len() > 0,
            forall|i: int| 0 <= i < events@.len() ==> (#[trigger] events@[i]).1 < index,
            forall|i: int|
                0 <= i < events@.len() ==> event_placed(#[trigger] events@[i], required_column),
            forall|t: int|
                0 <= t < index ==> events_hold(
                    events@,
                    at(names[#[trigger] places[t] as int]),
                    t,
                    required_column,
                ),
        decreases wanted.names@.len() - index,
    {
        let name: usize = wanted.names[index];
        let ghost before = events@;
        match term_positions(segment, docid, terms[name].as_str()) {
            Some(positions) => {
                push_events(&mut events, positions, index, required_column);
                assert forall|t: int| 0 <= t < index + 1 implies events_hold(
                    events@,
                    at(names[#[trigger] places[t] as int]),
                    t,
                    required_column,
                ) by {
                    if t < index {
                        assert(events_hold(before, at(names[places[t] as int]), t, required_column));
                        assert forall|low: int, high: int|
                            #![trigger events_between(events@, t, low, high)]
                            events_between(events@, t, low, high) == events_between(
                            before,
                            t,
                            low,
                            high,
                        ) by {}
                    }
                }
            },
            None => {
                proof {
                    assert(at(names[name as int]).len() == 0);
                    assert(wanted.needs@[index as int] > 0);
                    assert forall|low: int, high: int| !near_window(
                        at,
                        names,
                        distance,
                        required_column,
                        low,
                        high,
                    ) by {
                        assert(count_between(at(names[name as int]), low, high) == 0);
                    }
                }
                return false;
            },
        }
        index = index + 1;
    }
    let ghost unsorted = events@;
    let sorted = sort_entries(events);
    proof {
        sorting::same_entries(unsorted, sorted@);
        assert forall|i: int| 0 <= i < sorted@.len() implies (#[trigger] sorted@[i]).1 < needs.len()
            && event_placed(sorted@[i], required_column) by {
            assert(unsorted.contains(sorted@[i])) by {
                assert(sorted@.contains(sorted@[i]));
            }
            let j = choose|j: int| 0 <= j < unsorted.len() && unsorted[j] == sorted@[i];
        }
        assert forall|t: int| 0 <= t < needs.len() implies events_hold(
            sorted@,
            at(names[#[trigger] places[t] as int]),
            t,
            required_column,
        ) by {
            assert(events_hold(unsorted, at(names[places[t] as int]), t, required_column));
            assert forall|low: int, high: int|
                #![trigger events_between(sorted@, t, low, high)]
                events_between(sorted@, t, low, high) == events_between(unsorted, t, low, high) by {
                lemma_between_multiset(sorted@, t, low, high);
                lemma_between_multiset(unsorted, t, low, high);
            }
        }
    }
    assert(near_setup(sorted@, needs, places, at, names, required_column));
    let found: bool = slide(&sorted, &wanted.needs, distance);
    proof {
        if found {
            let (left, right) = choose|left: int, right: int|
                0 <= left <= right < sorted@.len() && #[trigger] covers(
                    sorted@,
                    needs,
                    left,
                    right + 1,
                ) && close(sorted@, distance, left, right);
            lemma_near_found(
                sorted@,
                needs,
                places,
                at,
                names,
                distance,
                required_column,
                left,
                right,
            );
        } else if near_matches(at, names, distance, required_column) {
            let (low, high) = choose|low: int, high: int|
                near_window(at, names, distance, required_column, low, high);
            lemma_near_missed(
                sorted@,
                needs,
                places,
                at,
                names,
                distance,
                required_column,
                low,
                high,
            );
        }
    }
    found
}

spec fn near_setup(
    events: Seq<(i64, usize)>,
    needs: Seq<usize>,
    places: Seq<usize>,
    at: spec_fn(Seq<char>) -> Seq<u32>,
    names: Seq<Seq<char>>,
    column: Option<u8>,
) -> bool {
    &&& names.len() > 0
    &&& needs.len() > 0
    &&& needs.len() == places.len()
    &&& sorting::sorted(events)
    &&& forall|i: int|
        0 <= i < events.len() ==> (#[trigger] events[i]).1 < needs.len() && event_placed(
            events[i],
            column,
        )
    &&& forall|t: int| 0 <= t < places.len() ==> (#[trigger] places[t]) < names.len()
    &&& forall|t: int|
        0 <= t < places.len() ==> #[trigger] needs[t] == multiplicity(
            names,
            names[places[t] as int],
        ) && needs[t] > 0
    &&& forall|k: int| 0 <= k < names.len() ==> named(places, names, #[trigger] names[k])
    &&& forall|t: int|
        0 <= t < needs.len() ==> events_hold(
            events,
            at(names[#[trigger] places[t] as int]),
            t,
            column,
        )
}

proof fn lemma_near_found(
    events: Seq<(i64, usize)>,
    needs: Seq<usize>,
    places: Seq<usize>,
    at: spec_fn(Seq<char>) -> Seq<u32>,
    names: Seq<Seq<char>>,
    distance: u32,
    column: Option<u8>,
    left: int,
    right: int,
)
    requires
        near_setup(events, needs, places, at, names, column),
        0 <= left <= right < events.len(),
        covers(events, needs, left, right + 1),
        close(events, distance, left, right),
    ensures
        near_matches(at, names, distance, column),
{
    let low = events[left].0 as int;
    let high = events[right].0 as int;
    let window = events.subrange(left, right + 1);
    assert forall|i: int| 0 <= i < window.len() implies low <= (#[trigger] window[i]).0 <= high by {
        assert(window[i] == events[left + i]);
        if i > 0 {
            assert(sorting::not_after(events[left], events[left + i]));
        }
        if left + i < right {
            assert(sorting::not_after(events[left + i], events[right]));
        }
    }
    assert forall|t: int| 0 <= t < needs.len() implies events_between(events, t, low, high)
        >= #[trigger] needs[t] by {
        assert(events =~= events.take(left) + window + events.skip(right + 1));
        lemma_between_split(events.take(left), window, t, low, high);
        lemma_between_split(events.take(left) + window, events.skip(right + 1), t, low, high);
        lemma_between_all(window, t, low, high);
    }
    assert(low <= high) by {
        assert(window[right - left] == events[right]);
    }
    assert(near_window(at, names, distance, column, low, high)) by {
        assert forall|k: int| 0 <= k < names.len() implies count_between(
            at(#[trigger] names[k]),
            low,
            high,
        ) >= multiplicity(names, names[k]) by {
            assert(named(places, names, names[k]));
            let t = choose|t: int|
                0 <= t < places.len() && names[#[trigger] places[t] as int] == names[k];
            assert(events_hold(events, at(names[places[t] as int]), t, column));
            assert(events_between(events, t, low, high) >= needs[t]);
        }
    }
}

/// Where the events from `low` on begin.
proof fn lemma_boundary(events: Seq<(i64, usize)>, low: int) -> (start: int)
    requires
        sorting::sorted(events),
    ensures
        0 <= start <= events.len(),
        forall|i: int| 0 <= i < start ==> (#[trigger] events[i]).0 < low,
        forall|i: int| start <= i < events.len() ==> (#[trigger] events[i]).0 >= low,
    decreases events.len(),
{
    if events.len() == 0 {
        0
    } else {
        let front = events.drop_last();
        assert(forall|i: int| 0 <= i < front.len() ==> front[i] == events[i]);
        let start = lemma_boundary(front, low);
        if start < front.len() {
            assert(sorting::not_after(events[start], events[events.len() - 1]));
            assert(front[start].0 >= low);
            start
        } else if events.last().0 < low {
            events.len() as int
        } else {
            start
        }
    }
}

/// The events between `low` and `high` are those from `start` to `end`.
proof fn lemma_window_count(
    events: Seq<(i64, usize)>,
    t: int,
    low: int,
    high: int,
    start: int,
    end: int,
)
    requires
        0 <= start <= end <= events.len(),
        forall|i: int| 0 <= i < start ==> (#[trigger] events[i]).0 < low,
        forall|i: int| start <= i < events.len() ==> (#[trigger] events[i]).0 >= low,
        forall|i: int| 0 <= i < end ==> (#[trigger] events[i]).0 <= high,
        forall|i: int| end <= i < events.len() ==> (#[trigger] events[i]).0 > high,
    ensures
        events_between(events, t, low, high) == term_count(events.subrange(start, end), t),
{
    let window = events.subrange(start, end);
    let (before, after) = (events.take(start), events.skip(end));
    assert(before + window =~= events.take(end));
    assert(events.take(end) + after =~= events);
    lemma_between_split(before, window, t, low, high);
    lemma_between_split(events.take(end), after, t, low, high);
    assert forall|i: int| 0 <= i < before.len() implies (#[trigger] before[i]).0 < low by {
        assert(events[i].0 < low);
    }
    assert forall|i: int| 0 <= i < window.len() implies low <= (#[trigger] window[i]).0
        <= high by {
        assert(low <= events[start + i].0 <= high);
    }
    assert forall|i: int| 0 <= i < after.len() implies (#[trigger] after[i]).0 > high by {
        assert(events[end + i].0 > high);
    }
    lemma_between_all(before, t, low, high);
    lemma_between_all(window, t, low, high);
    lemma_between_all(after, t, low, high);
}

proof fn lemma_near_missed(
    events: Seq<(i64, usize)>,
    needs: Seq<usize>,
    places: Seq<usize>,
    at: spec_fn(Seq<char>) -> Seq<u32>,
    names: Seq<Seq<char>>,
    distance: u32,
    column: Option<u8>,
    low: int,
    high: int,
)
    requires
        near_setup(events, needs, places, at, names, column),
        near_window(at, names, distance, column, low, high),
    ensures
        exists|left: int, right: int|
            0 <= left <= right < events.len() && #[trigger] covers(events, needs, left, right + 1)
                && close(events, distance, left, right),
{
    let start = lemma_boundary(events, low);
    let end = lemma_boundary(events, high + 1);
    if end < start {
        assert(events[end].0 >= high + 1);
        assert(events[end].0 < low);
    }
    let window = events.subrange(start, end);
    assert forall|t: int| 0 <= t < needs.len() implies term_count(window, t)
        >= #[trigger] needs[t] by {
        lemma_window_count(events, t, low, high, start, end);
        assert(events_hold(events, at(names[places[t] as int]), t, column));
        assert(events_between(events, t, low, high) == count_between(
            at(names[places[t] as int]),
            low,
            high,
        ));
    }
    assert(needs[0] > 0);
    assert(window.len() > 0);
    assert(covers(events, needs, start, (end - 1) + 1));
    assert(close(events, distance, start, end - 1)) by {
        assert(low <= events[start].0 <= events[end - 1].0 <= high) by {
            if start < end - 1 {
                assert(sorting::not_after(events[start], events[end - 1]));
            }
        }
    }
}

/// Whether some run of events holds every term as often as needed, within one
/// column and no further apart than `distance`.
fn slide(events: &Vec<(i64, usize)>, needs: &Vec<usize>, distance: u32) -> (result: bool)
    requires
        sorting::sorted(events@),
        needs@.len() > 0,
        forall|t: int| 0 <= t < needs@.len() ==> #[trigger] needs@[t] > 0,
        forall|i: int|
            0 <= i < events@.len() ==> (#[trigger] events@[i]).1 < needs@.len() && 0 <= events@[i].0
                <= u32::MAX,
    ensures
        result == (exists|left: int, right: int|
            0 <= left <= right < events@.len() && #[trigger] covers(
                events@,
                needs@,
                left,
                right + 1,
            ) && close(events@, distance, left, right)),
{
    let kinds: usize = needs.len();
    let mut counts: Vec<usize> = vec![0; kinds];
    let mut covered: usize = 0;
    let mut left: usize = 0;
    let mut right: usize = 0;
    proof {
        assert(events@.subrange(0, 0) =~= Seq::empty());
        assert(needs@[0] > 0);
        assert(!covers(events@, needs@, 0, 0));
        lemma_met_zero(counts@, needs@);
    }
    while right < events.len()
        invariant
            left <= right <= events@.len(),
            kinds == needs@.len() == counts@.len(),
            kinds > 0,
            sorting::sorted(events@),
            forall|t: int| 0 <= t < needs@.len() ==> #[trigger] needs@[t] > 0,
            forall|i: int|
                0 <= i < events@.len() ==> (#[trigger] events@[i]).1 < needs@.len() && 0
                    <= events@[i].0 <= u32::MAX,
            forall|t: int|
                0 <= t < kinds ==> #[trigger] counts@[t] == term_count(
                    events@.subrange(left as int, right as int),
                    t,
                ),
            covered == met(counts@, needs@),
            !covers(events@, needs@, left as int, right as int),
            forall|l: int, r: int|
                0 <= l < left && l <= r < events@.len() ==> !(#[trigger] covers(
                    events@,
                    needs@,
                    l,
                    r + 1,
                ) && close(events@, distance, l, r)),
        decreases events@.len() - right,
    {
        let ghost left0 = left as int;
        let term: usize = events[right].1;
        let ghost before = events@.subrange(left as int, right as int);
        let ghost after = events@.subrange(left as int, right + 1);
        let ghost old_counts = counts@;
        proof {
            assert(after.drop_last() =~= before);
            lemma_term_count_bound(before, term as int);
            lemma_met_all(counts@, needs@);
            lemma_met_update(counts@, needs@, term as int, (counts@[term as int] + 1) as usize);
        }
        let count: usize = counts[term] + 1;
        counts.set(term, count);
        if count == needs[term] {
            covered = covered + 1;
        }
        while covered == kinds
            invariant
                left0 <= left <= right < events@.len(),
                kinds == needs@.len() == counts@.len(),
                kinds > 0,
                sorting::sorted(events@),
                forall|t: int| 0 <= t < needs@.len() ==> #[trigger] needs@[t] > 0,
                forall|i: int|
                    0 <= i < events@.len() ==> (#[trigger] events@[i]).1 < needs@.len() && 0
                        <= events@[i].0 <= u32::MAX,
                forall|t: int|
                    0 <= t < kinds ==> #[trigger] counts@[t] == term_count(
                        events@.subrange(left as int, right + 1),
                        t,
                    ),
                covered == met(counts@, needs@),
                0 <= left0 <= right,
                !covers(events@, needs@, left0, right as int),
                forall|l: int, r: int|
                    0 <= l < left && l <= r < events@.len() ==> !(#[trigger] covers(
                        events@,
                        needs@,
                        l,
                        r + 1,
                    ) && close(events@, distance, l, r)),
            decreases right - left,
        {
            proof {
                lemma_covers_counts(events@, needs@, counts@, left as int, right + 1);
            }
            let (left_position, left_term) = events[left];
            let (right_position, right_term) = events[right];
            proof {
                if left < right {
                    assert(sorting::not_after(events@[left as int], events@[right as int]));
                }
            }
            if left_position / 0x400_0000 == right_position / 0x400_0000 && right_position
                - left_position <= distance as i64 {
                assert(close(events@, distance, left as int, right as int));
                return true;
            }
            let ghost window = events@.subrange(left as int, right + 1);
            proof {
                assert forall|l: int, r: int|
                    0 <= l < left + 1 && l <= r < events@.len() implies !(#[trigger] covers(
                    events@,
                    needs@,
                    l,
                    r + 1,
                ) && close(events@, distance, l, r)) by {
                    if l == left {
                        if r < right {
                            if covers(events@, needs@, l, r + 1) {
                                lemma_covers_wider(
                                    events@,
                                    needs@,
                                    l,
                                    r + 1,
                                    left0,
                                    right as int,
                                );
                            }
                        } else if r > right {
                            assert(sorting::not_after(events@[right as int], events@[r]));
                        }
                    }
                }
                let rest = events@.subrange(left + 1, right + 1);
                assert(window =~= seq![events@[left as int]] + rest);
                assert forall|t: int| term_count(window, t) == term_count(rest, t) + (
                if left_term == t {
                    1nat
                } else {
                    0
                }) by {
                    let single = seq![events@[left as int]];
                    lemma_term_count_split(single, rest, t);
                    assert(single.drop_last() =~= Seq::empty());
                    reveal_with_fuel(term_count, 2);
                }
                if left == right {
                    // The window of one event would have to be empty next; it is not
                    // covered then, so the loop ends.
                    assert(rest =~= Seq::empty());
                }
                lemma_met_update(
                    counts@,
                    needs@,
                    left_term as int,
                    (counts@[left_term as int] - 1) as usize,
                );
            }
            let ghost old_counts = counts@;
            if counts[left_term] == needs[left_term] {
                covered = covered - 1;
            }
            let count: usize = counts[left_term] - 1;
            counts.set(left_term, count);
            left = left + 1;
        }
        proof {
            lemma_covers_counts(events@, needs@, counts@, left as int, right + 1);
        }
        right = right + 1;
    }
    proof {
        assert forall|l: int, r: int| 0 <= l <= r < events@.len() implies !(#[trigger] covers(
            events@,
            needs@,
            l,
            r + 1,
        ) && close(events@, distance, l, r)) by {
            if l >= left && covers(events@, needs@, l, r + 1) {
                lemma_covers_wider(events@, needs@, l, r + 1, left as int, right as int);
            }
        }
    }
    false
}

proof fn lemma_met_zero(counts: Seq<usize>, needs: Seq<usize>)
    requires
        counts.len() <= needs.len(),
        forall|t: int| 0 <= t < counts.len() ==> #[trigger] counts[t] == 0,
        forall|t: int| 0 <= t < needs.len() ==> #[trigger] needs[t] > 0,
    ensures
        met(counts, needs) == 0,
    decreases counts.len(),
{
    if counts.len() > 0 {
        let front = counts.drop_last();
        assert(forall|t: int| 0 <= t < front.len() ==> front[t] == counts[t]);
        assert(counts.last() == counts[counts.len() - 1]);
        assert(needs[counts.len() - 1] > 0);
        lemma_met_zero(front, needs);
    }
}

proof fn lemma_term_count_bound(events: Seq<(i64, usize)>, term: int)
    ensures
        term_count(events, term) <= events.len(),
    decreases events.len(),
{
    if events.len() > 0 {
        lemma_term_count_bound(events.drop_last(), term);
    }
}

/// Whether the document holds, in the required column, a term that begins with
/// `prefix`.
fn matches_prefix(
    segment: &Segment,
    docid: u32,
    prefix: &str,
    column: Option<u8>,
) -> (result: bool)
    requires
        segment.wf(),
    ensures
        result == (exists|term: Seq<char>|
            text::starts_with(term, prefix@) && any_in_column(
                #[trigger] segment.document(docid as int)(term),
                column,
            )),
{
    let ghost at = segment.document(docid as int);
    let ghost terms = segment.terms;
    let (found, start) = segment.terms.search(prefix);
    let mut index: usize = start;
    while index < segment.terms.entries.len()
        invariant_except_break
            forall|k: int|
                start <= k < index ==> !any_in_column(at(#[trigger] terms.key(k)), column),
        invariant
            start <= index <= terms.spec_len(),
            segment.wf(),
            terms == segment.terms,
            at == segment.document(docid as int),
        ensures
            forall|k: int|
                start <= k < index ==> !any_in_column(at(#[trigger] terms.key(k)), column),
            index < terms.spec_len() ==> !text::starts_with(terms.key(index as int), prefix@),
        decreases terms.spec_len() - index,
    {
        if !has_prefix(segment.terms.entries[index].0.as_str(), prefix) {
            break;
        }
        let ghost term = terms.key(index as int);
        let list = &segment.terms.entries[index].1;
        proof {
            terms.lemma_lookup(index as int);
            segment.lemma_list(term);
        }
        match list.find(docid) {
            Some(place) => {
                assert(list.positions@[place as int]@.len() > 0);
                assert(at(term) == list.positions@[place as int]@);
                if positions_in_column(&list.positions[place], column) {
                    return true;
                }
            },
            None => {
                assert(at(term).len() == 0);
            },
        }
        index = index + 1;
    }
    proof {
        assert forall|term: Seq<char>|
            text::starts_with(term, prefix@) implies !any_in_column(#[trigger] at(term), column) by {
            if any_in_column(at(term), column) {
                assert(terms.has(term));
                let k = terms.position(term);
                assert(terms.key(k) == term);
                text::prefix_run(prefix@, term, term);
                if k > index {
                    let stop = terms.key(index as int);
                    assert(text::text_before(stop, term));
                    text::prefix_run(prefix@, stop, term);
                    text::text_order_laws(prefix@, stop, prefix@);
                }
            }
        }
    }
    false
}

/// Whether the document matches the query within the required column.
pub fn matches_query_in_column(
    segment: &Segment,
    docid: u32,
    query: &Query,
    column: Option<u8>,
) -> (result: bool)
    requires
        segment.wf(),
        segment.ordered(),
    ensures
        result == matches_in_column(*query, segment.document(docid as int), column),
    decreases query,
{
    let ghost at = segment.document(docid as int);
    match query {
        Query::Term(term) => match term_positions(segment, docid, term.as_str()) {
            Some(positions) => positions_in_column(positions, column),
            None => false,
        },
        Query::Prefix(prefix) => matches_prefix(segment, docid, prefix.as_str(), column),
        Query::Phrase(terms) => matches_phrase(segment, docid, terms, column),
        Query::Near { terms, distance } => matches_near(segment, docid, terms, *distance, column),
        Query::Column { column: restricted, query } => {
            let outside: bool = match column {
                Some(outer) => outer != *restricted,
                None => false,
            };
            !outside && matches_query_in_column(segment, docid, query, Some(*restricted))
        },
        Query::And(children) => {
            let mut done: usize = 0;
            while done < children.len()
                invariant
                    segment.wf(),
                    segment.ordered(),
                    at == segment.document(docid as int),
                    *query == Query::And(*children),
                    done <= children@.len(),
                    forall|i: int|
                        0 <= i < done ==> matches_in_column(#[trigger] children@[i], at, column),
                decreases children@.len() - done,
            {
                let child = &children[done];
                proof {
                    lemma_child_decreases(*query, children@, done as int);
                }
                if !matches_query_in_column(segment, docid, child, column) {
                    assert(!matches_in_column(query->And_0@[done as int], at, column));
                    return false;
                }
                done = done + 1;
            }
            true
        },
        Query::Or(children) => {
            let mut done: usize = 0;
            while done < children.len()
                invariant
                    segment.wf(),
                    segment.ordered(),
                    at == segment.document(docid as int),
                    *query == Query::Or(*children),
                    done <= children@.len(),
                    forall|i: int|
                        0 <= i < done ==> !matches_in_column(#[trigger] children@[i], at, column),
                decreases children@.len() - done,
            {
                let child = &children[done];
                proof {
                    lemma_child_decreases(*query, children@, done as int);
                }
                if matches_query_in_column(segment, docid, child, column) {
                    assert(matches_in_column(query->Or_0@[done as int], at, column));
                    return true;
                }
                done = done + 1;
            }
            false
        },
        Query::Not(child) => !matches_query_in_column(segment, docid, child, column),
        Query::All => true,
    }
}

/// Whether the document matches the query.
pub fn matches_query(segment: &Segment, docid: u32, query: &Query) -> (result: bool)
    requires
        segment.wf(),
        segment.ordered(),
    ensures
        result == matches(*query, segment.document(docid as int)),
{
    matches_query_in_column(segment, docid, query, None)
}

/// Queries that are built alike match the same documents.
pub proof fn same_queries_match_alike(
    query: Query,
    other: Query,
    at: spec_fn(Seq<char>) -> Seq<u32>,
    column: Option<u8>,
)
    requires
        query.same(other),
    ensures
        matches_in_column(query, at, column) == matches_in_column(other, at, column),
    decreases query,
{
    match (query, other) {
        (Query::Column { column: inner, query }, Query::Column { column: inner2, query: query2 }) => {
            same_queries_match_alike(*query, *query2, at, Some(inner));
        },
        (Query::Not(child), Query::Not(child2)) => {
            same_queries_match_alike(*child, *child2, at, column);
        },
        (Query::And(children), Query::And(children2)) => {
            assert forall|i: int| 0 <= i < children@.len() implies matches_in_column(
                #[trigger] children@[i],
                at,
                column,
            ) == matches_in_column(children2@[i], at, column) by {
                lemma_child_decreases(query, children@, i);
                same_queries_match_alike(children@[i], children2@[i], at, column);
            }
            if matches_in_column(query, at, column) {
                assert forall|i: int| 0 <= i < children2@.len() implies matches_in_column(
                    #[trigger] children2@[i],
                    at,
                    column,
                ) by {
                    assert(matches_in_column(children@[i], at, column));
                }
            }
        },
        (Query::Or(children), Query::Or(children2)) => {
            assert forall|i: int| 0 <= i < children@.len() implies matches_in_column(
                #[trigger] children@[i],
                at,
                column,
            ) == matches_in_column(children2@[i], at, column) by {
                lemma_child_decreases(query, children@, i);
                same_queries_match_alike(children@[i], children2@[i], at, column);
            }
            if matches_in_column(other, at, column) {
                let i = choose|i: int|
                    0 <= i < children2@.len() && matches_in_column(
                        #[trigger] children2@[i],
                        at,
                        column,
                    );
                assert(matches_in_column(children@[i], at, column));
            }
            if matches_in_column(query, at, column) {
                let i = choose|i: int|
                    0 <= i < children@.len() && matches_in_column(
                        #[trigger] children@[i],
                        at,
                        column,
                    );
                assert(matches_in_column(children2@[i], at, column));
            }
        },
        _ => {},
    }
}

} // verus!
