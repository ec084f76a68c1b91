//! Sums over live documents, and counters of terms.
use crate::segment::{Segment, StoredDocument};
use crate::text;
use crate::text::TermMap;
use std::sync::Arc;
use vstd::prelude::*;

verus! {

/// The sum of the weights of the live documents of one segment.
pub open spec fn segment_tally(
    docs: Seq<StoredDocument>,
    live: spec_fn(int) -> bool,
    weight: spec_fn(StoredDocument) -> nat,
) -> nat
    decreases docs.len(),
{
    if docs.len() == 0 {
        0
    } else {
        segment_tally(docs.drop_last(), live, weight) + if live(docs.len() - 1) {
            weight(docs.last())
        } else {
            0
        }
    }
}

/// The sum of the weights of the live documents of all segments.
pub open spec fn tally(
    segments: Seq<Arc<Segment>>,
    live: spec_fn(int, int) -> bool,
    weight: spec_fn(StoredDocument) -> nat,
) -> nat
    decreases segments.len(),
{
    if segments.len() == 0 {
        0
    } else {
        tally(segments.drop_last(), live, weight) + segment_tally(
            segments.last().docs@,
            |d: int| live(segments.len() - 1, d),
            weight,
        )
    }
}

/// Every document counts one.
pub open spec fn one() -> spec_fn(StoredDocument) -> nat {
    |doc: StoredDocument| 1nat
}

/// Every document counts its length.
pub open spec fn length() -> spec_fn(StoredDocument) -> nat {
    |doc: StoredDocument| doc.len as nat
}

/// Every document that lists `term` counts one.
pub open spec fn listing(term: Seq<char>) -> spec_fn(StoredDocument) -> nat {
    |doc: StoredDocument|
        if doc.lists(term) {
            1nat
        } else {
            0nat
        }
}

/// Only the liveness of the segment's own documents matters to its tally.
pub proof fn segment_tally_same(
    docs: Seq<StoredDocument>,
    live: spec_fn(int) -> bool,
    live2: spec_fn(int) -> bool,
    weight: spec_fn(StoredDocument) -> nat,
)
    requires
        forall|d: int| 0 <= d < docs.len() ==> #[trigger] live(d) == live2(d),
    ensures
        segment_tally(docs, live, weight) == segment_tally(docs, live2, weight),
    decreases docs.len(),
{
    if docs.len() > 0 {
        segment_tally_same(docs.drop_last(), live, live2, weight);
        assert(live(docs.len() - 1) == live2(docs.len() - 1));
    }
}

proof fn lemma_segment_tally_flip(
    docs: Seq<StoredDocument>,
    live: spec_fn(int) -> bool,
    live2: spec_fn(int) -> bool,
    weight: spec_fn(StoredDocument) -> nat,
    at: int,
)
    requires
        0 <= at < docs.len(),
        live(at),
        !live2(at),
        forall|d: int| 0 <= d < docs.len() && d != at ==> #[trigger] live(d) == live2(d),
    ensures
        segment_tally(docs, live, weight) == segment_tally(docs, live2, weight) + weight(docs[at]),
    decreases docs.len(),
{
    let front = docs.drop_last();
    if at == docs.len() - 1 {
        segment_tally_same(front, live, live2, weight);
    } else {
        lemma_segment_tally_flip(front, live, live2, weight, at);
        assert(live(docs.len() - 1) == live2(docs.len() - 1));
        assert(front[at] == docs[at]);
    }
}

/// Only the liveness of the segments' own documents matters to a tally.
pub proof fn tally_same(
    segments: Seq<Arc<Segment>>,
    live: spec_fn(int, int) -> bool,
    live2: spec_fn(int, int) -> bool,
    weight: spec_fn(StoredDocument) -> nat,
)
    requires
        forall|s: int, d: int|
            0 <= s < segments.len() && 0 <= d < segments[s].docs@.len() ==> #[trigger] live(s, d)
                == live2(s, d),
    ensures
        tally(segments, live, weight) == tally(segments, live2, weight),
    decreases segments.len(),
{
    if segments.len() > 0 {
        let front = segments.drop_last();
        let last = segments.len() - 1;
        assert(forall|s: int| 0 <= s < front.len() ==> front[s] == segments[s]);
        tally_same(front, live, live2, weight);
        assert(segments.last() == segments[last]);
        segment_tally_same(
            segments.last().docs@,
            |d: int| live(last, d),
            |d: int| live2(last, d),
            weight,
        );
    }
}

/// A document that ceases to live takes its weight from the tally.
pub proof fn tally_flip(
    segments: Seq<Arc<Segment>>,
    live: spec_fn(int, int) -> bool,
    live2: spec_fn(int, int) -> bool,
    weight: spec_fn(StoredDocument) -> nat,
    segment: int,
    docid: int,
)
    requires
        0 <= segment < segments.len(),
        0 <= docid < segments[segment].docs@.len(),
        live(segment, docid),
        !live2(segment, docid),
        forall|s: int, d: int|
            0 <= s < segments.len() && 0 <= d < segments[s].docs@.len() && !(s == segment && d
                == docid) ==> #[trigger] live(s, d) == live2(s, d),
    ensures
        tally(segments, live, weight) == tally(segments, live2, weight) + weight(
            segments[segment].docs@[docid],
        ),
    decreases segments.len(),
{
    let front = segments.drop_last();
    let last = segments.len() - 1;
    assert(forall|s: int| 0 <= s < front.len() ==> front[s] == segments[s]);
    assert(segments.last() == segments[last]);
    if segment == last {
        tally_same(front, live, live2, weight);
        lemma_segment_tally_flip(
            segments.last().docs@,
            |d: int| live(last, d),
            |d: int| live2(last, d),
            weight,
            docid,
        );
    } else {
        tally_flip(front, live, live2, weight, segment, docid);
        segment_tally_same(
            segments.last().docs@,
            |d: int| live(last, d),
            |d: int| live2(last, d),
            weight,
        );
    }
}

proof fn lemma_segment_tally_most(
    docs: Seq<StoredDocument>,
    live: spec_fn(int) -> bool,
    weight: spec_fn(StoredDocument) -> nat,
    weight2: spec_fn(StoredDocument) -> nat,
)
    requires
        forall|doc: StoredDocument| #[trigger] weight(doc) <= weight2(doc),
    ensures
        segment_tally(docs, live, weight) <= segment_tally(docs, live, weight2),
    decreases docs.len(),
{
    if docs.len() > 0 {
        lemma_segment_tally_most(docs.drop_last(), live, weight, weight2);
        assert(weight(docs.last()) <= weight2(docs.last()));
    }
}

/// A smaller weight gives a smaller tally.
pub proof fn tally_most(
    segments: Seq<Arc<Segment>>,
    live: spec_fn(int, int) -> bool,
    weight: spec_fn(StoredDocument) -> nat,
    weight2: spec_fn(StoredDocument) -> nat,
)
    requires
        forall|doc: StoredDocument| #[trigger] weight(doc) <= weight2(doc),
    ensures
        tally(segments, live, weight) <= tally(segments, live, weight2),
    decreases segments.len(),
{
    if segments.len() > 0 {
        let last = segments.len() - 1;
        tally_most(segments.drop_last(), live, weight, weight2);
        lemma_segment_tally_most(
            segments.last().docs@,
            |d: int| live(last, d),
            weight,
            weight2,
        );
    }
}

proof fn lemma_segment_tally_positive(
    docs: Seq<StoredDocument>,
    live: spec_fn(int) -> bool,
    weight: spec_fn(StoredDocument) -> nat,
)
    ensures
        segment_tally(docs, live, weight) > 0 <==> exists|d: int|
            0 <= d < docs.len() && #[trigger] live(d) && weight(docs[d]) > 0,
    decreases docs.len(),
{
    if docs.len() > 0 {
        let front = docs.drop_last();
        lemma_segment_tally_positive(front, live, weight);
        if segment_tally(docs, live, weight) > 0 {
            if segment_tally(front, live, weight) > 0 {
                let d = choose|d: int|
                    0 <= d < front.len() && #[trigger] live(d) && weight(front[d]) > 0;
                assert(live(d) && weight(docs[d]) > 0);
            } else {
                assert(live(docs.len() - 1) && weight(docs[docs.len() - 1]) > 0);
            }
        }
        if exists|d: int| 0 <= d < docs.len() && #[trigger] live(d) && weight(docs[d]) > 0 {
            let d = choose|d: int|
                0 <= d < docs.len() && #[trigger] live(d) && weight(docs[d]) > 0;
            if d < front.len() {
                assert(live(d) && weight(front[d]) > 0);
            }
        }
    }
}

/// A tally is positive if and only if a live document has weight.
pub proof fn tally_positive(
    segments: Seq<Arc<Segment>>,
    live: spec_fn(int, int) -> bool,
    weight: spec_fn(StoredDocument) -> nat,
)
    ensures
        tally(segments, live, weight) > 0 <==> exists|s: int, d: int|
            0 <= s < segments.len() && 0 <= d < segments[s].docs@.len() && #[trigger] live(s, d)
                && weight(segments[s].docs@[d]) > 0,
    decreases segments.len(),
{
    if segments.len() > 0 {
        let front = segments.drop_last();
        let last = segments.len() - 1;
        let live_last = |d: int| live(last, d);
        tally_positive(front, live, weight);
        lemma_segment_tally_positive(segments.last().docs@, live_last, weight);
        if tally(segments, live, weight) > 0 {
            if tally(front, live, weight) > 0 {
                let (s, d) = choose|s: int, d: int|
                    0 <= s < front.len() && 0 <= d < front[s].docs@.len() && #[trigger] live(s, d)
                        && weight(front[s].docs@[d]) > 0;
                assert(live(s, d) && weight(segments[s].docs@[d]) > 0);
            } else {
                let d = choose|d: int|
                    0 <= d < segments.last().docs@.len() && #[trigger] live_last(d) && weight(
                        segments.last().docs@[d],
                    ) > 0;
                assert(live(last, d) && weight(segments[last].docs@[d]) > 0);
            }
        }
        if exists|s: int, d: int|
            0 <= s < segments.len() && 0 <= d < segments[s].docs@.len() && #[trigger] live(s, d)
                && weight(segments[s].docs@[d]) > 0 {
            let (s, d) = choose|s: int, d: int|
                0 <= s < segments.len() && 0 <= d < segments[s].docs@.len() && #[trigger] live(s, d)
                    && weight(segments[s].docs@[d]) > 0;
            if s < last {
                assert(live(s, d) && weight(front[s].docs@[d]) > 0);
            } else {
                assert(live_last(d));
            }
        }
    }
}

/// One more document adds its weight, if it lives.
pub proof fn segment_tally_step(
    docs: Seq<StoredDocument>,
    live: spec_fn(int) -> bool,
    weight: spec_fn(StoredDocument) -> nat,
    done: int,
)
    requires
        0 <= done < docs.len(),
    ensures
        segment_tally(docs.take(done + 1), live, weight) == segment_tally(
            docs.take(done),
            live,
            weight,
        ) + if live(done) {
            weight(docs[done])
        } else {
            0
        },
{
    assert(docs.take(done + 1).drop_last() =~= docs.take(done));
    assert(docs.take(done + 1).last() == docs[done]);
}

/// How many of the first `done` documents are picked.
pub open spec fn count_before(
    docs: Seq<StoredDocument>,
    picked: spec_fn(int) -> bool,
    done: int,
) -> nat {
    segment_tally(docs.take(done), picked, one())
}

/// Documents that are not picked do not count.
pub proof fn count_gap(
    docs: Seq<StoredDocument>,
    picked: spec_fn(int) -> bool,
    from: int,
    until: int,
)
    requires
        0 <= from <= until <= docs.len(),
        forall|d: int| from <= d < until ==> !#[trigger] picked(d),
    ensures
        count_before(docs, picked, until) == count_before(docs, picked, from),
    decreases until - from,
{
    if from < until {
        count_gap(docs, picked, from, until - 1);
        segment_tally_step(docs, picked, one(), until - 1);
        assert(!picked(until - 1));
    }
}

/// The next document that is picked counts one.
pub proof fn count_next(
    docs: Seq<StoredDocument>,
    picked: spec_fn(int) -> bool,
    from: int,
    next: int,
)
    requires
        0 <= from <= next < docs.len(),
        forall|d: int| from <= d < next ==> !#[trigger] picked(d),
    ensures
        count_before(docs, picked, next + 1) == count_before(docs, picked, from) + if picked(next) {
            1nat
        } else {
            0
        },
{
    count_gap(docs, picked, from, next);
    segment_tally_step(docs, picked, one(), next);
}

/// Weights of at most `most` add up to at most `most` per document.
pub proof fn segment_tally_bound(
    docs: Seq<StoredDocument>,
    live: spec_fn(int) -> bool,
    weight: spec_fn(StoredDocument) -> nat,
    most: nat,
)
    requires
        forall|doc: StoredDocument| #[trigger] weight(doc) <= most,
    ensures
        segment_tally(docs, live, weight) <= docs.len() * most,
    decreases docs.len(),
{
    if docs.len() > 0 {
        segment_tally_bound(docs.drop_last(), live, weight, most);
        assert(weight(docs.last()) <= most);
        assert(docs.len() * most == (docs.len() - 1) * most + most) by (nonlinear_arith)
            requires
                docs.len() > 0,
        ;
    }
}

/// What a map of counters says of a term; terms without entry count zero.
pub open spec fn count_of(counters: TermMap<u32>, term: Seq<char>) -> nat {
    match counters.lookup(term) {
        Some(count) => count as nat,
        None => 0,
    }
}

/// The counters are well-formed and none is zero.
pub open spec fn counters_wf(counters: TermMap<u32>) -> bool {
    &&& counters.wf()
    &&& forall|i: int| 0 <= i < counters.spec_len() ==> #[trigger] counters.value(i) > 0
}

/// In well-formed counters a term has an entry if and only if it counts.
pub proof fn counters_present(counters: TermMap<u32>, term: Seq<char>)
    requires
        counters_wf(counters),
    ensures
        counters.has(term) == (count_of(counters, term) > 0),
{
    if counters.has(term) {
        let at = counters.position(term);
        assert(counters.key(at) == term);
        assert(counters.value(at) > 0);
    }
}

/// Counters with the same entries count alike.
pub proof fn same_entries_count_alike(left: TermMap<u32>, right: TermMap<u32>)
    requires
        counters_wf(left),
        left.entries@ == right.entries@,
    ensures
        counters_wf(right),
        forall|term: Seq<char>| #[trigger] count_of(right, term) == count_of(left, term),
{
    assert(forall|i: int| 0 <= i < left.spec_len() ==> right.key(i) == left.key(i));
    assert(forall|i: int| 0 <= i < left.spec_len() ==> right.value(i) == left.value(i));
    assert(right.wf()) by {
        assert forall|i: int, j: int| 0 <= i < j < right.spec_len() implies text::text_before(
            #[trigger] right.key(i),
            #[trigger] right.key(j),
        ) by {
            assert(text::text_before(left.key(i), left.key(j)));
        }
    }
    assert forall|i: int| 0 <= i < right.spec_len() implies #[trigger] right.value(i) > 0 by {
        assert(left.value(i) > 0);
    }
    assert forall|term: Seq<char>| #[trigger] count_of(right, term) == count_of(left, term) by {
        if left.has(term) {
            let at = left.position(term);
            left.lemma_lookup(at);
            assert(right.key(at) == term);
            right.lemma_lookup(at);
        } else if right.has(term) {
            let at = right.position(term);
            assert(left.key(at) == term);
        }
    }
}

/// Counters with the same entries.
pub fn copy_counters(counters: &TermMap<u32>) -> (copy: TermMap<u32>)
    ensures
        copy.entries@ == counters.entries@,
{
    let mut entries: Vec<(String, u32)> = Vec::with_capacity(counters.entries.len());
    let mut done: usize = 0;
    while done < counters.entries.len()
        invariant
            done <= counters.entries@.len(),
            entries@ == counters.entries@.take(done as int),
        decreases counters.entries@.len() - done,
    {
        let entry = (counters.entries[done].0.clone(), counters.entries[done].1);
        entries.push(entry);
        assert(counters.entries@.take(done + 1) =~= counters.entries@.take(done as int).push(
            counters.entries@[done as int],
        ));
        done = done + 1;
    }
    assert(counters.entries@.take(done as int) =~= counters.entries@);
    TermMap { entries }
}

/// Counts one less for each of `terms`; a counter that reaches zero goes.
pub fn release_terms(counters: &mut TermMap<u32>, terms: &Vec<String>)
    requires
        counters_wf(*old(counters)),
        text::texts(terms@).no_duplicates(),
        forall|i: int| 0 <= i < terms@.len() ==> count_of(*old(counters), (#[trigger] terms@[i])@) > 0,
    ensures
        counters_wf(*final(counters)),
        forall|term: Seq<char>| #[trigger]
            count_of(*final(counters), term) == count_of(*old(counters), term) - (if text::texts(
                terms@,
            ).contains(term) {
                1int
            } else {
                0
            }),
{
    let ghost names = text::texts(terms@);
    let ghost before = *counters;
    let mut done: usize = 0;
    while done < terms.len()
        invariant
            done <= terms@.len(),
            names == text::texts(terms@),
            names.no_duplicates(),
            before == *old(counters),
            counters_wf(*counters),
            forall|i: int| 0 <= i < terms@.len() ==> count_of(before, (#[trigger] terms@[i])@) > 0,
            forall|term: Seq<char>| #[trigger]
                count_of(*counters, term) == count_of(before, term) - (if names.take(
                    done as int,
                ).contains(term) {
                    1int
                } else {
                    0
                }),
        decreases terms@.len() - done,
    {
        let ghost current = *counters;
        let ghost name = terms@[done as int]@;
        let ghost (fewer, more) = (names.take(done as int), names.take(done + 1));
        proof {
            assert(names[done as int] == name);
            assert(!fewer.contains(name)) by {
                if fewer.contains(name) {
                    let i = choose|i: int| 0 <= i < fewer.len() && fewer[i] == name;
                    assert(names[i] == names[done as int]);
                }
            }
            assert forall|term: Seq<char>| more.contains(term) == (fewer.contains(term) || term
                == name) by {
                take_contains(names, done as int, term);
            }
            assert(count_of(current, name) > 0);
        }
        let (found, index) = counters.search(terms[done].as_str());
        if found {
            proof {
                counters.lemma_lookup(index as int);
            }
            let count: u32 = counters.entries[index].1 - 1;
            if count == 0 {
                counters.remove_at(index);
                assert(counters_wf(*counters)) by {
                    assert forall|i: int| 0 <= i < counters.spec_len() implies #[trigger] counters.value(
                        i,
                    ) > 0 by {
                        if i < index {
                            assert(counters.value(i) == current.value(i));
                        } else {
                            assert(counters.value(i) == current.value(i + 1));
                        }
                    }
                }
            } else {
                counters.replace_at(index, count);
                assert(counters_wf(*counters)) by {
                    assert forall|i: int| 0 <= i < counters.spec_len() implies #[trigger] counters.value(
                        i,
                    ) > 0 by {
                        if i != index {
                            assert(counters.value(i) == current.value(i));
                        }
                    }
                }
            }
        }
        assert forall|term: Seq<char>| #[trigger]
            count_of(*counters, term) == count_of(before, term) - (if more.contains(term) {
                1int
            } else {
                0
            }) by {
            if term == name {
            } else {
                assert(counters.lookup(term) == current.lookup(term));
            }
            assert(count_of(current, term) == count_of(before, term) - (if fewer.contains(term) {
                1int
            } else {
                0
            }));
        }
        done = done + 1;
    }
    assert(names.take(done as int) =~= names);
}

/// What a longer prefix of a sequence contains.
pub proof fn take_contains(names: Seq<Seq<char>>, done: int, term: Seq<char>)
    requires
        0 <= done < names.len(),
    ensures
        names.take(done + 1).contains(term) == (names.take(done).contains(term) || names[done]
            == term),
{
    let (fewer, more) = (names.take(done), names.take(done + 1));
    if more.contains(term) {
        let i = choose|i: int| 0 <= i < more.len() && more[i] == term;
        if i < done {
            assert(fewer[i] == term);
        }
    }
    if fewer.contains(term) {
        let i = choose|i: int| 0 <= i < fewer.len() && fewer[i] == term;
        assert(more[i] == term);
    }
    if names[done] == term {
        assert(more[done] == term);
    }
}

/// Counts one more for each of `terms`.
pub fn claim_terms(counters: &mut TermMap<u32>, terms: &Vec<String>)
    requires
        counters_wf(*old(counters)),
        text::texts(terms@).no_duplicates(),
        forall|i: int|
            0 <= i < terms@.len() ==> count_of(*old(counters), (#[trigger] terms@[i])@) < u32::MAX,
    ensures
        counters_wf(*final(counters)),
        forall|term: Seq<char>| #[trigger]
            count_of(*final(counters), term) == count_of(*old(counters), term) + (if text::texts(
                terms@,
            ).contains(term) {
                1int
            } else {
                0
            }),
{
    let ghost names = text::texts(terms@);
    let ghost before = *counters;
    let mut done: usize = 0;
    while done < terms.len()
        invariant
            done <= terms@.len(),
            names == text::texts(terms@),
            names.no_duplicates(),
            before == *old(counters),
            counters_wf(*counters),
            forall|i: int|
                0 <= i < terms@.len() ==> count_of(before, (#[trigger] terms@[i])@) < u32::MAX,
            forall|term: Seq<char>| #[trigger]
                count_of(*counters, term) == count_of(before, term) + (if names.take(
                    done as int,
                ).contains(term) {
                    1int
                } else {
                    0
                }),
        decreases terms@.len() - done,
    {
        let ghost current = *counters;
        let ghost name = terms@[done as int]@;
        let ghost (fewer, more) = (names.take(done as int), names.take(done + 1));
        proof {
            assert(names[done as int] == name);
            assert(!fewer.contains(name)) by {
                if fewer.contains(name) {
                    let i = choose|i: int| 0 <= i < fewer.len() && fewer[i] == name;
                    assert(names[i] == names[done as int]);
                }
            }
            assert forall|term: Seq<char>| more.contains(term) == (fewer.contains(term) || term
                == name) by {
                take_contains(names, done as int, term);
            }
            assert(count_of(current, name) < u32::MAX);
        }
        let (found, index) = counters.search(terms[done].as_str());
        if found {
            proof {
                counters.lemma_lookup(index as int);
            }
            let count: u32 = counters.entries[index].1 + 1;
            counters.replace_at(index, count);
            assert(counters_wf(*counters)) by {
                assert forall|i: int| 0 <= i < counters.spec_len() implies #[trigger] counters.value(
                    i,
                ) > 0 by {
                    if i != index {
                        assert(counters.value(i) == current.value(i));
                    }
                }
            }
        } else {
            counters.insert_at(index, terms[done].clone(), 1);
            assert(counters_wf(*counters)) by {
                assert forall|i: int| 0 <= i < counters.spec_len() implies #[trigger] counters.value(
                    i,
                ) > 0 by {
                    if i < index {
                        assert(counters.value(i) == current.value(i));
                    } else if i > index {
                        assert(counters.value(i) == current.value(i - 1));
                    }
                }
            }
        }
        assert forall|term: Seq<char>| #[trigger]
            count_of(*counters, term) == count_of(before, term) + (if more.contains(term) {
                1int
            } else {
                0
            }) by {
            if term == name {
            } else {
                assert(counters.lookup(term) == current.lookup(term));
            }
            assert(count_of(current, term) == count_of(before, term) + (if fewer.contains(term) {
                1int
            } else {
                0
            }));
        }
        done = done + 1;
    }
    assert(names.take(done as int) =~= names);
}

} // verus!
