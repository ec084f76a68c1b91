//! What the statistics of a snapshot depend on: its contents, and nothing else.
use crate::segment::{Segment, StoredDocument};
use crate::snapshot::Snapshot;
use crate::tally;
use crate::tokenizer;
use std::sync::Arc;
use vstd::prelude::*;

verus! {

/// Adds `value` of each rowid.
pub open spec fn adding(value: spec_fn(i64) -> nat) -> spec_fn(nat, i64) -> nat {
    |sum: nat, rowid: i64| sum + value(rowid)
}

/// The sum of `value` over a set of rowids.
pub open spec fn sum_over(rowids: Set<i64>, value: spec_fn(i64) -> nat) -> nat {
    rowids.fold(0nat, adding(value))
}

pub(crate) proof fn lemma_sum_insert(rowids: Set<i64>, value: spec_fn(i64) -> nat, rowid: i64)
    requires
        rowids.finite(),
        !rowids.contains(rowid),
    ensures
        sum_over(rowids.insert(rowid), value) == sum_over(rowids, value) + value(rowid),
{
    vstd::set::fold::lemma_fold_insert(rowids, 0nat, adding(value), rowid);
}

pub(crate) proof fn lemma_sum_empty(value: spec_fn(i64) -> nat)
    ensures
        sum_over(Set::empty(), value) == 0,
{
    vstd::set::fold::lemma_fold_empty(0nat, adding(value));
}

/// The rowids of the live documents of one segment.
spec fn segment_rowids(docs: Seq<StoredDocument>, live: spec_fn(int) -> bool) -> Set<i64> {
    Set::new(|rowid: i64| exists|d: int| 0 <= d < docs.len() && #[trigger] live(d) && docs[d].rowid == rowid)
}

/// The rowids of the live documents of all segments.
spec fn rowids_of(segments: Seq<Arc<Segment>>, live: spec_fn(int, int) -> bool) -> Set<i64> {
    Set::new(
        |rowid: i64|
            exists|s: int, d: int|
                0 <= s < segments.len() && 0 <= d < segments[s].docs@.len() && #[trigger] live(s, d)
                    && segments[s].docs@[d].rowid == rowid,
    )
}

proof fn lemma_segment_sum(
    docs: Seq<StoredDocument>,
    live: spec_fn(int) -> bool,
    weight: spec_fn(StoredDocument) -> nat,
    value: spec_fn(i64) -> nat,
    base: Set<i64>,
)
    requires
        base.finite(),
        forall|d: int|
            0 <= d < docs.len() && #[trigger] live(d) ==> !base.contains(docs[d].rowid) && weight(
                docs[d],
            ) == value(docs[d].rowid),
        forall|d: int, e: int|
            0 <= d < e < docs.len() && #[trigger] live(d) && #[trigger] live(e) ==> docs[d].rowid
                != docs[e].rowid,
    ensures
        base.union(segment_rowids(docs, live)).finite(),
        sum_over(base.union(segment_rowids(docs, live)), value) == sum_over(base, value)
            + tally::segment_tally(docs, live, weight),
    decreases docs.len(),
{
    if docs.len() == 0 {
        assert(base.union(segment_rowids(docs, live)) =~= base);
    } else {
        let front = docs.drop_last();
        let last = docs.len() - 1;
        assert(forall|d: int| 0 <= d < front.len() ==> front[d] == docs[d]);
        lemma_segment_sum(front, live, weight, value, base);
        let fewer = base.union(segment_rowids(front, live));
        let more = base.union(segment_rowids(docs, live));
        if live(last) {
            let rowid = docs[last].rowid;
            assert(!fewer.contains(rowid)) by {
                if segment_rowids(front, live).contains(rowid) {
                    let d = choose|d: int|
                        0 <= d < front.len() && #[trigger] live(d) && front[d].rowid == rowid;
                    assert(live(d) && live(last));
                }
            }
            assert forall|other: i64| more.contains(other) == fewer.insert(rowid).contains(
                other,
            ) by {
                if segment_rowids(docs, live).contains(other) {
                    let d = choose|d: int|
                        0 <= d < docs.len() && #[trigger] live(d) && docs[d].rowid == other;
                    if d < last {
                        assert(live(d) && front[d].rowid == other);
                    }
                }
                if segment_rowids(front, live).contains(other) {
                    let d = choose|d: int|
                        0 <= d < front.len() && #[trigger] live(d) && front[d].rowid == other;
                    assert(live(d) && docs[d].rowid == other);
                }
            }
            assert(more =~= fewer.insert(rowid));
            lemma_sum_insert(fewer, value, rowid);
        } else {
            assert forall|other: i64| more.contains(other) == fewer.contains(other) by {
                if segment_rowids(docs, live).contains(other) {
                    let d = choose|d: int|
                        0 <= d < docs.len() && #[trigger] live(d) && docs[d].rowid == other;
                    assert(live(d) && front[d].rowid == other);
                }
                if segment_rowids(front, live).contains(other) {
                    let d = choose|d: int|
                        0 <= d < front.len() && #[trigger] live(d) && front[d].rowid == other;
                    assert(live(d) && docs[d].rowid == other);
                }
            }
            assert(more =~= fewer);
        }
    }
}

proof fn lemma_sum(
    segments: Seq<Arc<Segment>>,
    live: spec_fn(int, int) -> bool,
    weight: spec_fn(StoredDocument) -> nat,
    value: spec_fn(i64) -> nat,
)
    requires
        forall|s: int, d: int|
            0 <= s < segments.len() && 0 <= d < segments[s].docs@.len() && #[trigger] live(s, d)
                ==> weight(segments[s].docs@[d]) == value(segments[s].docs@[d].rowid),
        forall|s: int, d: int, s2: int, d2: int|
            0 <= s < segments.len() && 0 <= d < segments[s].docs@.len() && 0 <= s2 < segments.len()
                && 0 <= d2 < segments[s2].docs@.len() && #[trigger] live(s, d) && #[trigger] live(
                s2,
                d2,
            ) && segments[s].docs@[d].rowid == segments[s2].docs@[d2].rowid ==> s == s2 && d == d2,
    ensures
        rowids_of(segments, live).finite(),
        sum_over(rowids_of(segments, live), value) == tally::tally(segments, live, weight),
    decreases segments.len(),
{
    if segments.len() == 0 {
        assert(rowids_of(segments, live) =~= Set::empty());
        lemma_sum_empty(value);
    } else {
        let front = segments.drop_last();
        let last = segments.len() - 1;
        assert(forall|s: int| 0 <= s < front.len() ==> front[s] == segments[s]);
        lemma_sum(front, live, weight, value);
        let docs = segments.last().docs@;
        let here = |d: int| live(last, d);
        let base = rowids_of(front, live);
        assert(segments.last() == segments[last]);
        assert forall|d: int| 0 <= d < docs.len() && #[trigger] here(d) implies !base.contains(
            docs[d].rowid,
        ) && weight(docs[d]) == value(docs[d].rowid) by {
            assert(live(last, d));
            if base.contains(docs[d].rowid) {
                let (s2, d2) = choose|s2: int, d2: int|
                    0 <= s2 < front.len() && 0 <= d2 < front[s2].docs@.len() && #[trigger] live(
                        s2,
                        d2,
                    ) && front[s2].docs@[d2].rowid == docs[d].rowid;
                assert(live(s2, d2) && live(last, d));
            }
        }
        assert forall|d: int, e: int|
            0 <= d < e < docs.len() && #[trigger] here(d) && #[trigger] here(e) implies docs[d].rowid
            != docs[e].rowid by {
            assert(live(last, d) && live(last, e));
        }
        lemma_segment_sum(docs, here, weight, value, base);
        let whole = rowids_of(segments, live);
        let union = base.union(segment_rowids(docs, here));
        assert forall|rowid: i64| whole.contains(rowid) == union.contains(rowid) by {
            if whole.contains(rowid) {
                let (s, d) = choose|s: int, d: int|
                    0 <= s < segments.len() && 0 <= d < segments[s].docs@.len() && #[trigger] live(
                        s,
                        d,
                    ) && segments[s].docs@[d].rowid == rowid;
                if s < last {
                    assert(live(s, d) && front[s].docs@[d].rowid == rowid);
                } else {
                    assert(here(d) && docs[d].rowid == rowid);
                }
            }
            if base.contains(rowid) {
                let (s, d) = choose|s: int, d: int|
                    0 <= s < front.len() && 0 <= d < front[s].docs@.len() && #[trigger] live(s, d)
                        && front[s].docs@[d].rowid == rowid;
                assert(live(s, d) && segments[s].docs@[d].rowid == rowid);
            }
            if segment_rowids(docs, here).contains(rowid) {
                let d = choose|d: int|
                    0 <= d < docs.len() && #[trigger] here(d) && docs[d].rowid == rowid;
                assert(live(last, d) && segments[last].docs@[d].rowid == rowid);
            }
        }
        assert(whole =~= union);
    }
}

impl Snapshot {
    /// The rowids of the documents that the snapshot holds.
    pub open spec fn rowids(self) -> Set<i64> {
        Set::new(|rowid: i64| self.content(rowid) is Some)
    }

    /// A tally over the live documents is a sum over the rowids, where the weight
    /// of a live document depends on its rowid alone.
    pub proof fn tally_is_sum(
        self,
        weight: spec_fn(StoredDocument) -> nat,
        value: spec_fn(i64) -> nat,
    )
        requires
            self.wf(),
            forall|s: int, d: int| #[trigger]
                self.live(s, d) ==> weight(self.doc(s, d)) == value(self.doc(s, d).rowid),
        ensures
            self.rowids().finite(),
            tally::tally(self.segments@, self.live_fn(), weight) == sum_over(self.rowids(), value),
    {
        let live = self.live_fn();
        assert forall|s: int, d: int|
            0 <= s < self.segments@.len() && 0 <= d < self.segments@[s].docs@.len()
                && #[trigger] live(s, d) implies weight(self.segments@[s].docs@[d]) == value(
            self.segments@[s].docs@[d].rowid,
        ) by {
            assert(self.live(s, d));
        }
        assert forall|s: int, d: int, s2: int, d2: int|
            0 <= s < self.segments@.len() && 0 <= d < self.segments@[s].docs@.len() && 0 <= s2
                < self.segments@.len() && 0 <= d2 < self.segments@[s2].docs@.len()
                && #[trigger] live(s, d) && #[trigger] live(s2, d2)
                && self.segments@[s].docs@[d].rowid
                == self.segments@[s2].docs@[d2].rowid implies s == s2 && d == d2 by {
            assert(self.live(s, d) && self.live(s2, d2));
        }
        lemma_sum(self.segments@, live, weight, value);
        assert forall|rowid: i64| self.rowids().contains(rowid) == rowids_of(
            self.segments@,
            live,
        ).contains(rowid) by {
            if self.rowids().contains(rowid) {
                let location = self.latest@[rowid];
                let (s, d) = (location.segment as int, location.docid as int);
                assert(self.live(s, d));
                assert(live(s, d) && self.segments@[s].docs@[d].rowid == rowid);
            }
            if rowids_of(self.segments@, live).contains(rowid) {
                let (s, d) = choose|s: int, d: int|
                    0 <= s < self.segments@.len() && 0 <= d < self.segments@[s].docs@.len()
                        && #[trigger] live(s, d) && self.segments@[s].docs@[d].rowid == rowid;
                assert(self.live(s, d));
            }
        }
        assert(self.rowids() =~= rowids_of(self.segments@, live));
    }

    /// The number of live documents is the number of rowids with a document.
    pub proof fn live_docs_counts_rowids(self)
        requires
            self.wf(),
        ensures
            self.rowids().finite(),
            self.live_docs == self.rowids().len(),
    {
        let value = |rowid: i64| 1nat;
        self.tally_is_sum(tally::one(), value);
        lemma_sum_of_ones(self.rowids());
    }
}

proof fn lemma_sum_of_ones(rowids: Set<i64>)
    requires
        rowids.finite(),
    ensures
        sum_over(rowids, |rowid: i64| 1nat) == rowids.len(),
    decreases rowids.len(),
{
    let value = |rowid: i64| 1nat;
    if rowids.len() == 0 {
        assert(rowids =~= Set::empty());
        lemma_sum_empty(value);
    } else {
        let rowid = rowids.choose();
        lemma_sum_of_ones(rowids.remove(rowid));
        lemma_sum_insert(rowids.remove(rowid), value, rowid);
        assert(rowids.remove(rowid).insert(rowid) =~= rowids);
    }
}

/// Snapshots with the same contents hold equally many documents.
pub proof fn same_contents_same_count(left: Snapshot, right: Snapshot)
    requires
        left.wf(),
        right.wf(),
        forall|rowid: i64| #[trigger] left.content(rowid) == right.content(rowid),
    ensures
        left.live_docs == right.live_docs,
{
    left.live_docs_counts_rowids();
    right.live_docs_counts_rowids();
    assert(left.rowids() =~= right.rowids());
}

/// Where the index says what the fields say, everything that a score is computed
/// from depends on the contents alone: the number of documents, their total
/// length, in how many documents a term stands.
pub proof fn same_contents_same_statistics(left: Snapshot, right: Snapshot, term: Seq<char>)
    requires
        left.wf(),
        right.wf(),
        left.faithful(),
        right.faithful(),
        forall|rowid: i64| #[trigger] left.content(rowid) == right.content(rowid),
    ensures
        left.live_docs == right.live_docs,
        left.total_doc_len == right.total_doc_len,
        left.df(term) == right.df(term),
{
    same_contents_same_count(left, right);
    assert(left.rowids() =~= right.rowids());
    let len_of = |rowid: i64|
        match left.content(rowid) {
            Some(texts) => tokenizer::document_len(texts) as nat,
            None => 0nat,
        };
    let found_in = |rowid: i64|
        match left.content(rowid) {
            Some(texts) => if tokenizer::term_occurrences(texts, term).len() > 0 {
                1nat
            } else {
                0nat
            },
            None => 0nat,
        };
    lemma_weights(left, term);
    lemma_weights(right, term);
    assert forall|s: int, d: int| #[trigger] right.live(s, d) implies tally::length()(
        right.doc(s, d),
    ) == len_of(right.doc(s, d).rowid) && tally::listing(term)(right.doc(s, d)) == found_in(
        right.doc(s, d).rowid,
    ) by {
        assert(left.content(right.doc(s, d).rowid) == right.content(right.doc(s, d).rowid));
    }
    left.tally_is_sum(tally::length(), len_of);
    right.tally_is_sum(tally::length(), len_of);
    left.tally_is_sum(tally::listing(term), found_in);
    right.tally_is_sum(tally::listing(term), found_in);
}

/// In a faithful snapshot the weights of a live document follow from its content.
pub(crate) proof fn lemma_weights(snapshot: Snapshot, term: Seq<char>)
    requires
        snapshot.wf(),
        snapshot.faithful(),
    ensures
        forall|s: int, d: int| #[trigger]
            snapshot.live(s, d) ==> {
                let doc = snapshot.doc(s, d);
                &&& snapshot.content(doc.rowid) == Some(doc.texts())
                &&& doc.len == tokenizer::document_len(doc.texts())
                &&& doc.lists(term) == (tokenizer::term_occurrences(doc.texts(), term).len() > 0)
            },
{
    assert forall|s: int, d: int| #[trigger] snapshot.live(s, d) implies {
        let doc = snapshot.doc(s, d);
        &&& snapshot.content(doc.rowid) == Some(doc.texts())
        &&& doc.len == tokenizer::document_len(doc.texts())
        &&& doc.lists(term) == (tokenizer::term_occurrences(doc.texts(), term).len() > 0)
    } by {
        let segment = snapshot.segments@[s];
        assert(segment.wf() && segment.faithful());
        let doc = segment.docs@[d];
        assert(doc.lists(term) == segment.holds(d, term));
        assert(segment.positions(d, term) == tokenizer::term_occurrences(doc.texts(), term));
    }
}

/// Where the index says what the fields say, two live documents of the same rowid
/// in snapshots with the same contents hold every term at the same places.
pub proof fn same_contents_same_positions(
    left: Snapshot,
    right: Snapshot,
    spot: (int, int),
    spot2: (int, int),
    term: Seq<char>,
)
    requires
        left.wf(),
        right.wf(),
        left.faithful(),
        right.faithful(),
        forall|rowid: i64| #[trigger] left.content(rowid) == right.content(rowid),
        left.live(spot.0, spot.1),
        right.live(spot2.0, spot2.1),
        left.doc(spot.0, spot.1).rowid == right.doc(spot2.0, spot2.1).rowid,
    ensures
        left.segments@[spot.0].positions(spot.1, term) == right.segments@[spot2.0].positions(
            spot2.1,
            term,
        ),
{
    let rowid = left.doc(spot.0, spot.1).rowid;
    assert(left.content(rowid) == right.content(rowid));
    assert(left.segments@[spot.0].faithful());
    assert(right.segments@[spot2.0].faithful());
    assert(left.segments@[spot.0].positions(spot.1, term) == tokenizer::term_occurrences(
        left.doc(spot.0, spot.1).texts(),
        term,
    ));
    assert(right.segments@[spot2.0].positions(spot2.1, term) == tokenizer::term_occurrences(
        right.doc(spot2.0, spot2.1).texts(),
        term,
    ));
}

} // verus!
