//! One generation of the database: segments, and which of their documents live.
use crate::segment;
use crate::segment::{Segment, StoredDocument};
use crate::sorting;
use crate::sorting::sort_entries;
use crate::tally;
use crate::tally::{claim_terms, copy_counters, release_terms};
use crate::text;
use crate::text::{copy_texts, share, TermMap};
use std::collections::HashMap;
use std::sync::Arc;
use vstd::prelude::*;

verus! {

broadcast use vstd::std_specs::hash::group_hash_axioms;

/// Where the newest version of a document stands, or that it was deleted.
#[derive(Clone, Copy, Debug, PartialEq, Eq, Structural)]
pub struct Location {
    pub segment: usize,
    pub docid: u32,
    pub deleted: bool,
}

impl Location {
    /// The location of a live document.
    pub open spec fn points_at(self, segment: int, docid: int) -> bool {
        self.segment == segment && self.docid == docid && !self.deleted
    }
}

/// An immutable view of the database at one generation.
#[derive(Debug)]
pub struct Snapshot {
    pub generation: u64,
    pub segments: Vec<Arc<Segment>>,
    pub latest: HashMap<i64, Location>,
    pub live_masks: Vec<Arc<Vec<u64>>>,
    pub term_df: TermMap<u32>,
    pub live_docs: u64,
    pub total_doc_len: u64,
}

/// What `latest` holds for a deleted document.
pub open spec fn tombstone() -> Location {
    Location { segment: 0, docid: 0, deleted: true }
}

/// Bit `index` of a mask.
pub open spec fn bit(mask: Seq<u64>, index: int) -> bool {
    mask[index / 64] & (1u64 << ((index % 64) as u64)) != 0
}

/// How many words hold `bits` bits.
pub open spec fn mask_words(bits: nat) -> nat {
    (bits + 63) as nat / 64
}


/// A mask for `docs` documents: no bit is set behind the last of them.
pub open spec fn mask_of(mask: Seq<u64>, docs: nat) -> bool {
    &&& mask.len() == mask_words(docs)
    &&& forall|d: int| docs <= d < mask.len() * 64 ==> !#[trigger] bit(mask, d)
}

/// Whether one of the first `done` documents has this rowid.
pub open spec fn has_rowid(docs: Seq<StoredDocument>, rowid: i64) -> bool {
    exists|d: int| 0 <= d < docs.len() && (#[trigger] docs[d]).rowid == rowid
}

/// The document with this rowid.
pub open spec fn rowid_index(docs: Seq<StoredDocument>, rowid: i64) -> int {
    choose|d: int| 0 <= d < docs.len() && (#[trigger] docs[d]).rowid == rowid
}

/// No rowid stands twice.
pub open spec fn distinct_rowids(docs: Seq<StoredDocument>) -> bool {
    forall|i: int, j: int|
        0 <= i < j < docs.len() ==> (#[trigger] docs[i]).rowid != (#[trigger] docs[j]).rowid
}

impl Snapshot {
    /// Document `docid` of segment `segment`.
    pub open spec fn doc(self, segment: int, docid: int) -> StoredDocument {
        self.segments@[segment].docs@[docid]
    }

    /// Whether there is such a document.
    pub open spec fn in_range(self, segment: int, docid: int) -> bool {
        0 <= segment < self.segments@.len() && 0 <= docid < self.segments@[segment].docs@.len()
    }

    /// Whether the document is the newest version of itself.
    pub open spec fn live(self, segment: int, docid: int) -> bool {
        self.in_range(segment, docid) && bit(self.live_masks@[segment]@, docid)
    }

    pub open spec fn live_fn(self) -> spec_fn(int, int) -> bool {
        |segment: int, docid: int| self.live(segment, docid)
    }

    /// In how many live documents `term` stands.
    pub open spec fn df(self, term: Seq<char>) -> nat {
        tally::tally(self.segments@, self.live_fn(), tally::listing(term))
    }

    /// The segments are sound and each has a mask of its size.
    pub open spec fn shape(self) -> bool {
        &&& self.live_masks@.len() == self.segments@.len()
        &&& forall|s: int|
            0 <= s < self.segments@.len() ==> (#[trigger] self.segments@[s]).wf() && mask_of(
                self.live_masks@[s]@,
                self.segments@[s].docs@.len(),
            )
    }

    /// `latest` points at the live documents, each by its rowid.
    pub open spec fn linked(self) -> bool {
        &&& forall|rowid: i64| #[trigger]
            self.latest@.contains_key(rowid) && !self.latest@[rowid].deleted ==> {
                let location = self.latest@[rowid];
                &&& self.live(location.segment as int, location.docid as int)
                &&& self.doc(location.segment as int, location.docid as int).rowid == rowid
            }
        &&& forall|s: int, d: int| #[trigger]
            self.live(s, d) ==> self.latest@.contains_key(self.doc(s, d).rowid)
                && self.latest@[self.doc(s, d).rowid].points_at(s, d)
    }

    /// The counters say what the live documents say.
    pub open spec fn counted(self) -> bool {
        &&& self.live_docs == tally::tally(self.segments@, self.live_fn(), tally::one())
        &&& self.total_doc_len == tally::tally(self.segments@, self.live_fn(), tally::length())
        &&& tally::counters_wf(self.term_df)
        &&& forall|term: Seq<char>| #[trigger]
            tally::count_of(self.term_df, term) == self.df(term)
    }

    pub open spec fn wf(self) -> bool {
        self.shape() && self.linked() && self.counted()
    }

    /// No document has been replaced or deleted.
    pub open spec fn all_live(self) -> bool {
        forall|s: int, d: int| #[trigger] self.in_range(s, d) ==> self.live(s, d)
    }

    /// Every document has between one and 64 fields.
    pub open spec fn well_fielded(self) -> bool {
        forall|rowid: i64|
            (#[trigger] self.content(rowid)) matches Some(fields) ==> 1 <= fields.len() <= 64
    }

    /// Every document names its terms in their order.
    pub open spec fn sorts_terms(self) -> bool {
        forall|s: int|
            0 <= s < self.segments@.len() ==> (#[trigger] self.segments@[s]).sorts_terms()
    }

    /// The positions of every posting stand in order.
    pub open spec fn ordered(self) -> bool {
        forall|s: int| 0 <= s < self.segments@.len() ==> (#[trigger] self.segments@[s]).ordered()
    }

    /// Every segment says exactly what its fields say.
    pub open spec fn faithful(self) -> bool {
        forall|s: int| 0 <= s < self.segments@.len() ==> (#[trigger] self.segments@[s]).faithful()
    }

    /// The fields of the document with this rowid, if there is one.
    pub open spec fn content(self, rowid: i64) -> Option<Seq<Seq<char>>> {
        if self.latest@.contains_key(rowid) && !self.latest@[rowid].deleted {
            let location = self.latest@[rowid];
            Some(self.doc(location.segment as int, location.docid as int).texts())
        } else {
            None
        }
    }

    /// Whether the counters can take `docs` more documents: documents are
    /// counted per term in 32 bits, terms altogether in 64.
    pub open spec fn room(self, docs: nat) -> bool {
        self.live_docs + docs <= u32::MAX && self.total_doc_len + docs * u32::MAX <= u64::MAX
    }
}

/// `Arc::make_mut` gives access to the value behind a handle, which other handles
/// to it do not share.
#[verifier::external_body]
fn unshared(mask: &mut Arc<Vec<u64>>) -> (words: &mut Vec<u64>)
    ensures
        words@ == old(mask)@,
        final(mask)@ == final(words)@,
{
    Arc::make_mut(mask)
}

proof fn lemma_clear_bit(word: u64, cleared: u64, index: u64)
    by (bit_vector)
    requires
        cleared < 64,
        index < 64,
    ensures
        ((word & !(1u64 << cleared)) & (1u64 << index) != 0) == (index != cleared && word & (1u64
            << index) != 0),
{
}

proof fn lemma_full_word(index: u64, count: u64)
    by (bit_vector)
    requires
        index < 64,
        0 < count < 64,
    ensures
        u64::MAX & (1u64 << index) != 0,
        (((1u64 << count) - 1) as u64 & (1u64 << index) != 0) == (index < count),
        1u64 << count >= 1,
{
}

/// A mask of `docs` set bits; the bits behind them are clear.
pub fn full_live_mask(docs: usize) -> (mask: Vec<u64>)
    ensures
        mask@.len() == mask_words(docs as nat),
        forall|d: int| 0 <= d < mask@.len() * 64 ==> #[trigger] bit(mask@, d) == (d < docs),
{
    let words: usize = docs / 64 + if docs % 64 == 0 {
        0
    } else {
        1
    };
    let mut mask: Vec<u64> = vec![u64::MAX; words];
    let remainder: usize = docs % 64;
    if remainder != 0 {
        proof {
            lemma_full_word(0, remainder as u64);
        }
        let last: u64 = (1u64 << (remainder as u64)) - 1;
        mask.set(words - 1, last);
    }
    assert forall|d: int| 0 <= d < mask@.len() * 64 implies #[trigger] bit(mask@, d) == (d
        < docs) by {
        let index = (d % 64) as u64;
        lemma_full_word(index, if remainder == 0 {
            1
        } else {
            remainder as u64
        });
        assert(0 <= d / 64 < words);
    }
    mask
}

impl Snapshot {
    /// Whether the document is the newest version of itself.
    pub fn is_live(&self, segment: usize, docid: u32) -> (result: bool)
        requires
            self.shape(),
            self.in_range(segment as int, docid as int),
        ensures
            result == self.live(segment as int, docid as int),
    {
        assert(self.segments@[segment as int].wf());
        let mask = &self.live_masks[segment];
        mask[docid as usize / 64] & (1u64 << (docid as u64 % 64)) != 0
    }

    /// Takes the live document with this rowid, if there is one, out of the mask
    /// and the counters.
    pub fn remove_latest(&mut self, rowid: i64)
        requires
            old(self).wf(),
        ensures
            final(self).shape(),
            final(self).counted(),
            final(self).generation == old(self).generation,
            final(self).segments@ == old(self).segments@,
            final(self).latest@ == old(self).latest@,
            forall|s: int, d: int| #[trigger]
                final(self).live(s, d) == (old(self).live(s, d) && old(self).doc(s, d).rowid
                    != rowid),
            final(self).live_docs <= old(self).live_docs,
            final(self).total_doc_len <= old(self).total_doc_len,
    {
        let location: Location = match self.latest.get(&rowid) {
            Some(location) => *location,
            None => {
                proof {
                    self.lemma_absent(rowid);
                }
                return;
            },
        };
        if location.deleted {
            proof {
                self.lemma_absent(rowid);
            }
            return;
        }
        let ghost before = *self;
        let ghost (s0, d0) = (location.segment as int, location.docid as int);
        let segment = share(&self.segments[location.segment]);
        assert(segment.wf());
        let doc = &segment.docs[location.docid as usize];
        let ghost removed = before.doc(s0, d0);
        let word: usize = location.docid as usize / 64;
        let place: u64 = location.docid as u64 % 64;
        {
            let mask = unshared(&mut self.live_masks[location.segment]);
            let kept: u64 = mask[word] & !(1u64 << place);
            mask.set(word, kept);
        }
        let ghost masked = *self;
        proof {
            let (old_mask, new_mask) = (before.live_masks@[s0]@, self.live_masks@[s0]@);
            assert forall|d: int| before.segments@[s0].docs@.len() <= d < new_mask.len()
                * 64 implies !#[trigger] bit(new_mask, d) by {
                assert(!bit(old_mask, d));
                if d / 64 == word {
                    lemma_clear_bit(old_mask[word as int], place, (d % 64) as u64);
                }
            }
            assert(self.live_masks@[s0]@ == before.live_masks@[s0]@.update(
                word as int,
                before.live_masks@[s0]@[word as int] & !(1u64 << place),
            ));
            assert forall|s: int, d: int| #[trigger] self.live(s, d) == (before.live(s, d) && !(s
                == s0 && d == d0)) by {
                if s == s0 && self.in_range(s, d) && d / 64 == word {
                    lemma_clear_bit(
                        before.live_masks@[s0]@[word as int],
                        place,
                        (d % 64) as u64,
                    );
                }
            }
            assert forall|s: int, d: int| before.live(s, d) && before.doc(s, d).rowid
                == rowid implies s == s0 && d == d0 by {
                assert(before.live(s, d));
                assert(before.segments@[s].wf());
            }
            lemma_removed(before, *self, s0, d0, tally::one());
            lemma_removed(before, *self, s0, d0, tally::length());
            assert forall|term: Seq<char>| #[trigger] self.df(term) == before.df(term) - (
            if removed.lists(term) {
                1int
            } else {
                0
            }) by {
                lemma_removed(before, *self, s0, d0, tally::listing(term));
            }
            assert forall|i: int| 0 <= i < removed.unique_terms@.len() implies tally::count_of(
                before.term_df,
                (#[trigger] removed.unique_terms@[i])@,
            ) > 0 by {
                let term = removed.unique_terms@[i]@;
                assert(text::texts(removed.unique_terms@)[i] == term);
                assert(removed.lists(term));
                assert(before.df(term) == self.df(term) + 1);
                assert(tally::count_of(before.term_df, term) == before.df(term));
            }
        }
        self.live_docs = self.live_docs - 1;
        self.total_doc_len = self.total_doc_len - doc.len as u64;
        release_terms(&mut self.term_df, &doc.unique_terms);
        proof {
            assert forall|s: int, d: int| #[trigger] self.live(s, d) == masked.live(s, d) by {}
            assert(self.live_fn() =~= masked.live_fn());
            assert forall|term: Seq<char>| #[trigger] tally::count_of(self.term_df, term)
                == self.df(term) by {
                assert(masked.df(term) == before.df(term) - (if removed.lists(term) {
                    1int
                } else {
                    0
                }));
                assert(tally::count_of(before.term_df, term) == before.df(term));
            }
        }
    }

    /// Without a live entry in `latest` no document of that rowid lives.
    proof fn lemma_absent(self, rowid: i64)
        requires
            self.wf(),
            !self.latest@.contains_key(rowid) || self.latest@[rowid].deleted,
        ensures
            forall|s: int, d: int| #[trigger] self.live(s, d) ==> self.doc(s, d).rowid != rowid,
    {
    }
}

/// Taking one document out of the live ones takes its weight out of a tally.
proof fn lemma_removed(
    before: Snapshot,
    after: Snapshot,
    segment: int,
    docid: int,
    weight: spec_fn(StoredDocument) -> nat,
)
    requires
        before.segments@ == after.segments@,
        before.live(segment, docid),
        forall|s: int, d: int| #[trigger]
            after.live(s, d) == (before.live(s, d) && !(s == segment && d == docid)),
    ensures
        tally::tally(before.segments@, before.live_fn(), weight) == tally::tally(
            after.segments@,
            after.live_fn(),
            weight,
        ) + weight(before.doc(segment, docid)),
{
    let (live, live2) = (before.live_fn(), after.live_fn());
    assert forall|s: int, d: int|
        0 <= s < before.segments@.len() && 0 <= d < before.segments@[s].docs@.len() && !(s
            == segment && d == docid) implies #[trigger] live(s, d) == live2(s, d) by {
        assert(after.live(s, d) == before.live(s, d));
    }
    assert(live(segment, docid));
    assert(!live2(segment, docid)) by {
        assert(!after.live(segment, docid));
    }
    tally::tally_flip(before.segments@, live, live2, weight, segment, docid);
}

/// A snapshot with one more segment, all of whose documents live.
proof fn lemma_adopted(
    before: Snapshot,
    after: Snapshot,
    segment: Arc<Segment>,
    weight: spec_fn(StoredDocument) -> nat,
)
    requires
        after.segments@ == before.segments@.push(segment),
        forall|s: int, d: int|
            before.in_range(s, d) ==> #[trigger] after.live(s, d) == before.live(s, d),
        forall|d: int|
            0 <= d < segment.docs@.len() ==> #[trigger] after.live(
                before.segments@.len() as int,
                d,
            ),
    ensures
        tally::tally(after.segments@, after.live_fn(), weight) == tally::tally(
            before.segments@,
            before.live_fn(),
            weight,
        ) + tally::segment_tally(segment.docs@, |d: int| true, weight),
{
    let (live, live2) = (before.live_fn(), after.live_fn());
    let last = before.segments@.len() as int;
    assert(after.segments@.drop_last() =~= before.segments@);
    assert(after.segments@.last() == segment);
    assert forall|s: int, d: int|
        0 <= s < before.segments@.len() && 0 <= d
            < before.segments@[s].docs@.len() implies #[trigger] live(s, d) == live2(s, d) by {
        assert(before.in_range(s, d));
        assert(after.live(s, d) == before.live(s, d));
    }
    tally::tally_same(before.segments@, live, live2, weight);
    let live_last = |d: int| live2(last, d);
    assert forall|d: int| 0 <= d < segment.docs@.len() implies #[trigger] live_last(d) == true by {
        assert(after.live(last, d));
    }
    tally::segment_tally_same(segment.docs@, live_last, |d: int| true, weight);
}

/// What `latest` says after the first documents of segment `segment` have been
/// entered.
spec fn entered(
    before: Map<i64, Location>,
    after: Map<i64, Location>,
    docs: Seq<StoredDocument>,
    segment: int,
    rowid: i64,
) -> bool {
    if has_rowid(docs, rowid) {
        after.contains_key(rowid) && after[rowid].points_at(segment, rowid_index(docs, rowid))
    } else {
        after.contains_key(rowid) == before.contains_key(rowid) && (before.contains_key(rowid)
            ==> after[rowid] == before[rowid])
    }
}

proof fn lemma_rowid_index(docs: Seq<StoredDocument>, d: int)
    requires
        distinct_rowids(docs),
        0 <= d < docs.len(),
    ensures
        has_rowid(docs, docs[d].rowid),
        rowid_index(docs, docs[d].rowid) == d,
{
    let other = rowid_index(docs, docs[d].rowid);
    assert(docs[d].rowid == docs[d].rowid);
    assert(docs[other].rowid == docs[d].rowid);
}

proof fn lemma_rowid_step(docs: Seq<StoredDocument>, done: int, rowid: i64)
    requires
        0 <= done < docs.len(),
    ensures
        has_rowid(docs.take(done + 1), rowid) == (has_rowid(docs.take(done), rowid)
            || docs[done].rowid == rowid),
{
    let (fewer, more) = (docs.take(done), docs.take(done + 1));
    if has_rowid(more, rowid) {
        let d = rowid_index(more, rowid);
        assert(more[d].rowid == rowid);
        if d < done {
            assert(fewer[d].rowid == rowid);
        }
    }
    if has_rowid(fewer, rowid) {
        let d = rowid_index(fewer, rowid);
        assert(more[d].rowid == rowid);
    }
    assert(more[done] == docs[done]);
}

impl Snapshot {
    /// Marks the document with this rowid as deleted.
    fn retire(&mut self, rowid: i64)
        requires
            old(self).wf(),
        ensures
            final(self).wf(),
            final(self).generation == old(self).generation,
            final(self).segments@ == old(self).segments@,
            final(self).latest@ == old(self).latest@.insert(rowid, tombstone()),
            forall|s: int, d: int| #[trigger]
                final(self).live(s, d) == (old(self).live(s, d) && old(self).doc(s, d).rowid
                    != rowid),
            final(self).live_docs <= old(self).live_docs,
            final(self).total_doc_len <= old(self).total_doc_len,
    {
        let ghost before = *self;
        self.remove_latest(rowid);
        let ghost removed = *self;
        self.latest.insert(rowid, Location { segment: 0, docid: 0, deleted: true });
        proof {
            assert forall|s: int, d: int| #[trigger] self.live(s, d) == removed.live(s, d) by {}
            assert(self.live_fn() =~= removed.live_fn());
            assert forall|other: i64| #[trigger]
                self.latest@.contains_key(other) && !self.latest@[other].deleted implies {
                let location = self.latest@[other];
                &&& self.live(location.segment as int, location.docid as int)
                &&& self.doc(location.segment as int, location.docid as int).rowid == other
            } by {
                assert(before.latest@.contains_key(other) && !before.latest@[other].deleted);
                let location = before.latest@[other];
                assert(removed.live(location.segment as int, location.docid as int));
            }
            assert forall|s: int, d: int| #[trigger] self.live(s, d) implies
                self.latest@.contains_key(self.doc(s, d).rowid)
                && self.latest@[self.doc(s, d).rowid].points_at(s, d) by {
                assert(removed.live(s, d));
                assert(before.live(s, d));
            }
            assert forall|term: Seq<char>| #[trigger] tally::count_of(self.term_df, term)
                == self.df(term) by {
                assert(tally::count_of(removed.term_df, term) == removed.df(term));
            }
        }
    }

    /// Adds a segment whose documents are all new.
    fn adopt(&mut self, segment: Arc<Segment>)
        requires
            old(self).wf(),
            segment.wf(),
            distinct_rowids(segment.docs@),
            old(self).room(segment.docs@.len()),
            forall|s: int, d: int| #[trigger]
                old(self).live(s, d) ==> !has_rowid(segment.docs@, old(self).doc(s, d).rowid),
        ensures
            final(self).wf(),
            final(self).generation == old(self).generation,
            final(self).segments@ == old(self).segments@.push(segment),
            forall|rowid: i64| #[trigger]
                entered(
                    old(self).latest@,
                    final(self).latest@,
                    segment.docs@,
                    old(self).segments@.len() as int,
                    rowid,
                ),
            final(self).live_docs == old(self).live_docs + segment.docs@.len(),
            final(self).total_doc_len <= old(self).total_doc_len + segment.docs@.len() * u32::MAX,
    {
        let ghost before = *self;
        let ghost docs = segment.docs@;
        let ghost all = |d: int| true;
        let index: usize = self.segments.len();
        let mut done: usize = 0;
        assert(docs.take(0) =~= Seq::empty());
        assert forall|rowid: i64| #[trigger]
            entered(before.latest@, self.latest@, docs.take(0), index as int, rowid) by {}
        while done < segment.docs.len()
            invariant
                done <= docs.len(),
                docs == segment.docs@,
                all == (|d: int| true),
                segment.wf(),
                before.wf(),
                before.room(docs.len()),
                distinct_rowids(docs),
                index == before.segments@.len(),
                self.generation == before.generation,
                self.segments == before.segments,
                self.live_masks == before.live_masks,
                self.live_docs == before.live_docs + done,
                self.total_doc_len == before.total_doc_len + tally::segment_tally(
                    docs.take(done as int),
                    all,
                    tally::length(),
                ),
                tally::counters_wf(self.term_df),
                forall|term: Seq<char>| #[trigger]
                    tally::count_of(self.term_df, term) == before.df(term) + tally::segment_tally(
                        docs.take(done as int),
                        all,
                        tally::listing(term),
                    ),
                forall|rowid: i64| #[trigger]
                    entered(
                        before.latest@,
                        self.latest@,
                        docs.take(done as int),
                        index as int,
                        rowid,
                    ),
            decreases docs.len() - done,
        {
            let doc = &segment.docs[done];
            let ghost current = *self;
            proof {
                assert(text::texts(docs[done as int].unique_terms@).no_duplicates());
                tally::segment_tally_step(docs, all, tally::length(), done as int);
                tally::segment_tally_bound(
                    docs.take(done as int),
                    all,
                    tally::length(),
                    u32::MAX as nat,
                );
                assert(done * u32::MAX + u32::MAX <= docs.len() * u32::MAX) by (nonlinear_arith)
                    requires
                        done < docs.len(),
                ;
                assert forall|i: int| 0 <= i < doc.unique_terms@.len() implies tally::count_of(
                    self.term_df,
                    (#[trigger] doc.unique_terms@[i])@,
                ) < u32::MAX by {
                    let term = doc.unique_terms@[i]@;
                    tally::tally_most(
                        before.segments@,
                        before.live_fn(),
                        tally::listing(term),
                        tally::one(),
                    );
                    tally::segment_tally_bound(
                        docs.take(done as int),
                        all,
                        tally::listing(term),
                        1,
                    );
                }
            }
            self.live_docs = self.live_docs + 1;
            self.total_doc_len = self.total_doc_len + doc.len as u64;
            claim_terms(&mut self.term_df, &doc.unique_terms);
            self.latest.insert(
                doc.rowid,
                Location { segment: index, docid: done as u32, deleted: false },
            );
            proof {
                assert forall|term: Seq<char>| #[trigger] tally::count_of(self.term_df, term)
                    == before.df(term) + tally::segment_tally(
                    docs.take(done + 1),
                    all,
                    tally::listing(term),
                ) by {
                    tally::segment_tally_step(docs, all, tally::listing(term), done as int);
                    assert(tally::count_of(current.term_df, term) == before.df(term)
                        + tally::segment_tally(
                        docs.take(done as int),
                        all,
                        tally::listing(term),
                    ));
                }
                assert forall|rowid: i64| #[trigger]
                    entered(
                        before.latest@,
                        self.latest@,
                        docs.take(done + 1),
                        index as int,
                        rowid,
                    ) by {
                    let (fewer, more) = (docs.take(done as int), docs.take(done + 1));
                    assert(entered(before.latest@, current.latest@, fewer, index as int, rowid));
                    lemma_rowid_step(docs, done as int, rowid);
                    assert(distinct_rowids(more));
                    if rowid == doc.rowid {
                        assert(more[done as int] == docs[done as int]);
                        lemma_rowid_index(more, done as int);
                    } else if has_rowid(fewer, rowid) {
                        let d = rowid_index(fewer, rowid);
                        assert(fewer[d].rowid == rowid);
                        assert(more[d] == fewer[d]);
                        lemma_rowid_index(more, d);
                    }
                }
            }
            done = done + 1;
        }
        let ghost counted = *self;
        let mask = full_live_mask(segment.docs.len());
        let handle = share(&segment);
        self.live_masks.push(Arc::new(mask));
        self.segments.push(handle);
        proof {
            assert(docs.take(done as int) =~= docs);
            let last = index as int;
            assert forall|s: int, d: int| before.in_range(s, d) implies #[trigger] self.live(s, d)
                == before.live(s, d) by {
                assert(self.segments@[s] == before.segments@[s]);
                assert(self.live_masks@[s] == before.live_masks@[s]);
            }
            assert forall|d: int| 0 <= d < docs.len() implies #[trigger] self.live(last, d) by {
                assert(bit(mask@, d));
            }
            assert forall|s: int, d: int| #[trigger] self.live(s, d) implies (before.live(s, d)
                || (s == last && 0 <= d < docs.len())) by {
                if s < last {
                    assert(before.in_range(s, d));
                }
            }
            lemma_adopted(before, *self, segment, tally::one());
            lemma_adopted(before, *self, segment, tally::length());
            lemma_all_one(docs);
            tally::segment_tally_bound(docs, all, tally::length(), u32::MAX as nat);
            assert forall|term: Seq<char>| #[trigger] tally::count_of(self.term_df, term)
                == self.df(term) by {
                lemma_adopted(before, *self, segment, tally::listing(term));
                assert(tally::count_of(counted.term_df, term) == before.df(term)
                    + tally::segment_tally(docs, all, tally::listing(term)));
            }
            assert forall|rowid: i64| #[trigger]
                self.latest@.contains_key(rowid) && !self.latest@[rowid].deleted implies {
                let location = self.latest@[rowid];
                &&& self.live(location.segment as int, location.docid as int)
                &&& self.doc(location.segment as int, location.docid as int).rowid == rowid
            } by {
                assert(entered(before.latest@, self.latest@, docs, last, rowid));
                if has_rowid(docs, rowid) {
                    let d = rowid_index(docs, rowid);
                    assert(docs[d].rowid == rowid);
                    assert(self.live(last, d));
                } else {
                    let location = before.latest@[rowid];
                    assert(before.live(location.segment as int, location.docid as int));
                    assert(before.in_range(location.segment as int, location.docid as int));
                    assert(self.live(location.segment as int, location.docid as int));
                    assert(self.segments@[location.segment as int]
                        == before.segments@[location.segment as int]);
                }
            }
            assert forall|s: int, d: int| #[trigger] self.live(s, d) implies
                self.latest@.contains_key(self.doc(s, d).rowid)
                && self.latest@[self.doc(s, d).rowid].points_at(s, d) by {
                let rowid = self.doc(s, d).rowid;
                assert(entered(before.latest@, self.latest@, docs, last, rowid));
                if s == last {
                    assert(self.segments@[last] == segment);
                    lemma_rowid_index(docs, d);
                } else {
                    assert(before.live(s, d));
                    assert(before.segments@[s] == self.segments@[s]);
                }
            }
        }
    }
}

/// How many documents the segments hold.
pub open spec fn doc_count(segments: Seq<Arc<Segment>>) -> nat
    decreases segments.len(),
{
    if segments.len() == 0 {
        0
    } else {
        doc_count(segments.drop_last()) + segments.last().docs@.len()
    }
}

/// Part of the segments hold no more documents than all of them.
proof fn lemma_doc_count(segments: Seq<Arc<Segment>>, part: int)
    requires
        0 <= part <= segments.len(),
    ensures
        doc_count(segments.take(part)) <= doc_count(segments),
    decreases segments.len() - part,
{
    if part < segments.len() {
        assert(segments.take(part + 1).drop_last() =~= segments.take(part));
        lemma_doc_count(segments, part + 1);
    } else {
        assert(segments.take(part) =~= segments);
    }
}

/// No rowid stands twice in the segments.
pub open spec fn distinct_docs(segments: Seq<Arc<Segment>>) -> bool {
    forall|s: int, d: int, t: int, e: int|
        0 <= s < segments.len() && 0 <= d < segments[s].docs@.len() && 0 <= t < segments.len() && 0
            <= e < segments[t].docs@.len() && (s != t || d != e) ==> (
        #[trigger] segments[s].docs@[d]).rowid != (#[trigger] segments[t].docs@[e]).rowid
}

impl Snapshot {
    /// The snapshot in which all documents of `segments` live.
    pub fn of_segments(generation: u64, segments: Vec<Arc<Segment>>) -> (snapshot: Self)
        requires
            forall|s: int| 0 <= s < segments@.len() ==> (#[trigger] segments@[s]).wf(),
            distinct_docs(segments@),
            doc_count(segments@) <= u32::MAX,
        ensures
            snapshot.wf(),
            snapshot.generation == generation,
            snapshot.segments@ == segments@,
            snapshot.all_live(),
            snapshot.live_docs == doc_count(segments@),
            forall|rowid: i64| #[trigger]
                snapshot.latest@.contains_key(rowid) ==> !snapshot.latest@[rowid].deleted,
    {
        let mut snapshot = Snapshot::default();
        snapshot.generation = generation;
        proof {
            assert(segments@.take(0) =~= Seq::empty());
            assert(snapshot.segments@ =~= segments@.take(0));
        }
        let mut done: usize = 0;
        assert(snapshot.wf()) by {
            let fresh = Snapshot { generation: 0, ..snapshot };
            assert(fresh.live_fn() =~= snapshot.live_fn());
            assert forall|term: Seq<char>| #[trigger] tally::count_of(snapshot.term_df, term)
                == snapshot.df(term) by {
                assert(tally::count_of(fresh.term_df, term) == fresh.df(term));
            }
        }
        while done < segments.len()
            invariant
                done <= segments@.len(),
                forall|s: int| 0 <= s < segments@.len() ==> (#[trigger] segments@[s]).wf(),
                distinct_docs(segments@),
                doc_count(segments@) <= u32::MAX,
                snapshot.wf(),
                snapshot.generation == generation,
                snapshot.segments@ == segments@.take(done as int),
                snapshot.all_live(),
                snapshot.live_docs == doc_count(segments@.take(done as int)),
                snapshot.total_doc_len <= snapshot.live_docs * u32::MAX,
                forall|rowid: i64| #[trigger]
                    snapshot.latest@.contains_key(rowid) ==> !snapshot.latest@[rowid].deleted,
            decreases segments@.len() - done,
        {
            let ghost before = snapshot;
            let ghost docs = segments@[done as int].docs@;
            proof {
                let taken = segments@.take(done + 1);
                assert(taken.drop_last() =~= segments@.take(done as int));
                assert(taken.last() == segments@[done as int]);
                lemma_doc_count(segments@, done + 1);
                let (live, more) = (before.live_docs as int, docs.len() as int);
                assert(before.total_doc_len + more * u32::MAX <= (live + more) * u32::MAX)
                    by (nonlinear_arith)
                    requires
                        before.total_doc_len <= live * u32::MAX,
                ;
                assert((live + more) * u32::MAX <= u64::MAX) by (nonlinear_arith)
                    requires
                        0 <= live + more <= u32::MAX,
                ;
                assert forall|i: int, j: int| 0 <= i < j < docs.len() implies (
                #[trigger] docs[i]).rowid != (#[trigger] docs[j]).rowid by {
                    assert(segments@[done as int].docs@[i].rowid
                        != segments@[done as int].docs@[j].rowid);
                }
                assert forall|s: int, d: int| #[trigger] before.live(s, d) implies !has_rowid(
                    docs,
                    before.doc(s, d).rowid,
                ) by {
                    assert(before.segments@[s] == segments@[s]);
                    if has_rowid(docs, before.doc(s, d).rowid) {
                        let e = rowid_index(docs, before.doc(s, d).rowid);
                        assert(docs[e].rowid == before.doc(s, d).rowid);
                        assert(segments@[s].docs@[d].rowid
                            != segments@[done as int].docs@[e].rowid);
                    }
                }
            }
            let handle = share(&segments[done]);
            snapshot.adopt(handle);
            proof {
                assert(snapshot.segments@ =~= segments@.take(done + 1));
                let last = before.segments@.len() as int;
                assert forall|rowid: i64| #[trigger]
                    snapshot.latest@.contains_key(rowid) implies !snapshot.latest@[rowid].deleted by {
                    assert(entered(before.latest@, snapshot.latest@, docs, last, rowid));
                    assert(before.latest@.contains_key(rowid)
                        ==> !before.latest@[rowid].deleted);
                }
                assert forall|s: int, d: int| #[trigger] snapshot.in_range(s, d) implies
                    snapshot.live(s, d) by {
                    let rowid = snapshot.doc(s, d).rowid;
                    assert(entered(before.latest@, snapshot.latest@, docs, last, rowid));
                    if s == last {
                        assert(docs[d].rowid == rowid);
                        lemma_rowid_index(docs, d);
                    } else {
                        assert(before.segments@[s] == snapshot.segments@[s]);
                        assert(before.in_range(s, d));
                        assert(before.live(s, d));
                        assert(!has_rowid(docs, before.doc(s, d).rowid));
                    }
                    assert(snapshot.latest@.contains_key(rowid)
                        && !snapshot.latest@[rowid].deleted);
                }
                let (live, more) = (before.live_docs as int, docs.len() as int);
                assert(before.total_doc_len + more * u32::MAX <= (live + more) * u32::MAX)
                    by (nonlinear_arith)
                    requires
                        before.total_doc_len <= live * u32::MAX,
                ;
            }
            done = done + 1;
        }
        assert(segments@.take(done as int) =~= segments@);
        snapshot
    }
}

proof fn lemma_all_one(docs: Seq<StoredDocument>)
    ensures
        tally::segment_tally(docs, |d: int| true, tally::one()) == docs.len(),
    decreases docs.len(),
{
    if docs.len() > 0 {
        lemma_all_one(docs.drop_last());
    }
}

/// What a commit of `docs` and `deletes` does to one rowid: a written document
/// replaces what was there, a deleted one is gone, all others stay.
pub open spec fn commit_effect(
    before: Snapshot,
    after: Snapshot,
    docs: Seq<StoredDocument>,
    deletes: Seq<i64>,
    rowid: i64,
) -> bool {
    if has_rowid(docs, rowid) {
        after.latest@.contains_key(rowid) && after.latest@[rowid].points_at(
            before.segments@.len() as int,
            rowid_index(docs, rowid),
        )
    } else if deletes.contains(rowid) {
        after.latest@.contains_key(rowid) && after.latest@[rowid] == tombstone()
    } else {
        after.latest@.contains_key(rowid) == before.latest@.contains_key(rowid) && (
        before.latest@.contains_key(rowid) ==> after.latest@[rowid] == before.latest@[rowid])
    }
}

/// What the commit leaves as the content of one rowid.
pub open spec fn content_after(
    before: Option<Seq<Seq<char>>>,
    docs: Seq<StoredDocument>,
    deletes: Seq<i64>,
    rowid: i64,
) -> Option<Seq<Seq<char>>> {
    if has_rowid(docs, rowid) {
        Some(docs[rowid_index(docs, rowid)].texts())
    } else if deletes.contains(rowid) {
        None
    } else {
        before
    }
}

/// The documents of the segment that a commit has added, if there is one.
pub open spec fn added_docs(before: Snapshot, after: Snapshot) -> Seq<StoredDocument> {
    if after.segments@.len() > before.segments@.len() {
        after.segments@.last().docs@
    } else {
        Seq::empty()
    }
}

/// The documents of an optional segment.
pub open spec fn optional_docs(segment: Option<Arc<Segment>>) -> Seq<StoredDocument> {
    match segment {
        Some(segment) => segment.docs@,
        None => Seq::empty(),
    }
}

proof fn lemma_delete_step(deletes: Seq<i64>, done: int, rowid: i64)
    requires
        0 <= done < deletes.len(),
    ensures
        deletes.take(done + 1).contains(rowid) == (deletes.take(done).contains(rowid)
            || deletes[done] == rowid),
{
    let (fewer, more) = (deletes.take(done), deletes.take(done + 1));
    if more.contains(rowid) {
        let i = choose|i: int| 0 <= i < more.len() && more[i] == rowid;
        if i < done {
            assert(fewer[i] == rowid);
        }
    }
    if fewer.contains(rowid) {
        let i = choose|i: int| 0 <= i < fewer.len() && fewer[i] == rowid;
        assert(more[i] == rowid);
    }
    assert(more[done] == deletes[done]);
}

/// What `latest` says after some rowids have been retired.
spec fn retired(before: Map<i64, Location>, after: Map<i64, Location>, gone: bool, rowid: i64) -> bool {
    if gone {
        after.contains_key(rowid) && after[rowid] == tombstone()
    } else {
        after.contains_key(rowid) == before.contains_key(rowid) && (before.contains_key(rowid)
            ==> after[rowid] == before[rowid])
    }
}

impl Default for Snapshot {
    /// The empty database at generation zero.
    fn default() -> (snapshot: Self)
        ensures
            snapshot.wf(),
            snapshot.ordered(),
            snapshot.faithful(),
            snapshot.generation == 0,
            snapshot.segments@.len() == 0,
            snapshot.latest@ == Map::<i64, Location>::empty(),
            snapshot.live_docs == 0,
            snapshot.total_doc_len == 0,
            forall|rowid: i64| #[trigger] snapshot.content(rowid) is None,
    {
        let snapshot = Snapshot {
            generation: 0,
            segments: Vec::new(),
            latest: HashMap::new(),
            live_masks: Vec::new(),
            term_df: TermMap::new(),
            live_docs: 0,
            total_doc_len: 0,
        };
        assert forall|term: Seq<char>| #[trigger] tally::count_of(snapshot.term_df, term)
            == snapshot.df(term) by {
            assert(snapshot.term_df.lookup(term) is None);
        }
        snapshot
    }
}

impl Snapshot {
    /// A copy that shares the segments.
    fn fork(&self, generation: u64) -> (copy: Self)
        requires
            self.wf(),
        ensures
            copy.wf(),
            copy.generation == generation,
            copy.segments@ == self.segments@,
            copy.latest@ == self.latest@,
            copy.live_docs == self.live_docs,
            copy.total_doc_len == self.total_doc_len,
            forall|s: int, d: int| #[trigger] copy.live(s, d) == self.live(s, d),
    {
        let mut segments: Vec<Arc<Segment>> = Vec::with_capacity(self.segments.len());
        let mut live_masks: Vec<Arc<Vec<u64>>> = Vec::with_capacity(self.segments.len());
        let mut done: usize = 0;
        while done < self.segments.len()
            invariant
                self.wf(),
                done <= self.segments@.len(),
                segments@ == self.segments@.take(done as int),
                live_masks@ == self.live_masks@.take(done as int),
            decreases self.segments@.len() - done,
        {
            segments.push(share(&self.segments[done]));
            live_masks.push(share(&self.live_masks[done]));
            assert(self.segments@.take(done + 1) =~= self.segments@.take(done as int).push(
                self.segments@[done as int],
            ));
            assert(self.live_masks@.take(done + 1) =~= self.live_masks@.take(done as int).push(
                self.live_masks@[done as int],
            ));
            done = done + 1;
        }
        assert(self.segments@.take(done as int) =~= self.segments@);
        assert(self.live_masks@.take(done as int) =~= self.live_masks@);
        let copy = Snapshot {
            generation,
            segments,
            latest: self.latest.clone(),
            live_masks,
            term_df: copy_counters(&self.term_df),
            live_docs: self.live_docs,
            total_doc_len: self.total_doc_len,
        };
        proof {
            assert forall|s: int, d: int| #[trigger] copy.live(s, d) == self.live(s, d) by {}
            assert(copy.live_fn() =~= self.live_fn());
            tally::same_entries_count_alike(self.term_df, copy.term_df);
            assert forall|term: Seq<char>| #[trigger] tally::count_of(copy.term_df, term)
                == copy.df(term) by {
                assert(tally::count_of(self.term_df, term) == self.df(term));
            }
            assert forall|rowid: i64| #[trigger]
                copy.latest@.contains_key(rowid) && !copy.latest@[rowid].deleted implies {
                let location = copy.latest@[rowid];
                &&& copy.live(location.segment as int, location.docid as int)
                &&& copy.doc(location.segment as int, location.docid as int).rowid == rowid
            } by {
                assert(self.latest@.contains_key(rowid));
                let location = copy.latest@[rowid];
                assert(copy.live(location.segment as int, location.docid as int) == self.live(
                    location.segment as int,
                    location.docid as int,
                ));
            }
        }
        copy
    }

    /// Whether the counters can take `docs` more documents.
    pub fn has_room(&self, docs: usize) -> (result: bool)
        ensures
            result == self.room(docs as nat),
    {
        if docs > u32::MAX as usize || self.live_docs > u32::MAX as u64 - docs as u64 {
            return false;
        }
        let most: u64 = docs as u64 * u32::MAX as u64;
        assert(docs * u32::MAX == most);
        self.total_doc_len <= u64::MAX - most
    }

    /// The snapshot after a commit whose segment is already built.
    pub fn with_prebuilt_commit(
        &self,
        generation: u64,
        segment: Option<Arc<Segment>>,
        deletes: Vec<i64>,
    ) -> (next: Self)
        requires
            self.wf(),
            segment matches Some(built) ==> built.wf() && distinct_rowids(built.docs@),
            self.room(optional_docs(segment).len()),
        ensures
            next.wf(),
            next.generation == generation,
            next.segments@ == (match segment {
                Some(built) => self.segments@.push(built),
                None => self.segments@,
            }),
            forall|rowid: i64| #[trigger]
                commit_effect(*self, next, optional_docs(segment), deletes@, rowid),
            forall|rowid: i64| #[trigger]
                next.content(rowid) == content_after(
                    self.content(rowid),
                    optional_docs(segment),
                    deletes@,
                    rowid,
                ),
            next.live_docs <= self.live_docs + optional_docs(segment).len(),
            next.total_doc_len <= self.total_doc_len + optional_docs(segment).len() * u32::MAX,
            self.ordered() && (segment matches Some(built) ==> built.ordered()) ==> next.ordered(),
            self.faithful() && (segment matches Some(built) ==> built.faithful())
                ==> next.faithful(),
            self.sorts_terms() && (segment matches Some(built) ==> built.sorts_terms())
                ==> next.sorts_terms(),
    {
        let ghost docs = optional_docs(segment);
        let mut next = self.fork(generation);
        let mut done: usize = 0;
        assert forall|rowid: i64| #[trigger]
            retired(self.latest@, next.latest@, deletes@.take(0).contains(rowid), rowid) by {}
        while done < deletes.len()
            invariant
                done <= deletes@.len(),
                next.wf(),
                next.generation == generation,
                next.segments@ == self.segments@,
                next.live_docs <= self.live_docs,
                next.total_doc_len <= self.total_doc_len,
                forall|rowid: i64| #[trigger]
                    retired(
                        self.latest@,
                        next.latest@,
                        deletes@.take(done as int).contains(rowid),
                        rowid,
                    ),
            decreases deletes@.len() - done,
        {
            let ghost current = next;
            next.retire(deletes[done]);
            assert forall|rowid: i64| #[trigger]
                retired(
                    self.latest@,
                    next.latest@,
                    deletes@.take(done + 1).contains(rowid),
                    rowid,
                ) by {
                assert(retired(
                    self.latest@,
                    current.latest@,
                    deletes@.take(done as int).contains(rowid),
                    rowid,
                ));
                lemma_delete_step(deletes@, done as int, rowid);
            }
            done = done + 1;
        }
        let ghost cleared = next;
        assert(deletes@.take(done as int) =~= deletes@);
        if let Some(segment) = segment {
            let mut index: usize = 0;
            assert(docs == segment.docs@);
            assert(docs.take(0) =~= Seq::empty());
            assert forall|rowid: i64| #[trigger]
                retired(cleared.latest@, next.latest@, has_rowid(docs.take(0), rowid), rowid) by {}
            while index < segment.docs.len()
                invariant
                    index <= docs.len(),
                    docs == segment.docs@,
                    next.wf(),
                    next.generation == generation,
                    next.segments@ == self.segments@,
                    next.live_docs <= self.live_docs,
                    next.total_doc_len <= self.total_doc_len,
                    forall|rowid: i64| #[trigger]
                        retired(
                            cleared.latest@,
                            next.latest@,
                            has_rowid(docs.take(index as int), rowid),
                            rowid,
                        ),
                decreases docs.len() - index,
            {
                let ghost current = next;
                next.retire(segment.docs[index].rowid);
                assert forall|rowid: i64| #[trigger]
                    retired(
                        cleared.latest@,
                        next.latest@,
                        has_rowid(docs.take(index + 1), rowid),
                        rowid,
                    ) by {
                    assert(retired(
                        cleared.latest@,
                        current.latest@,
                        has_rowid(docs.take(index as int), rowid),
                        rowid,
                    ));
                    lemma_rowid_step(docs, index as int, rowid);
                }
                index = index + 1;
            }
            let ghost vacant = next;
            assert(docs.take(index as int) =~= docs);
            assert forall|s: int, d: int| #[trigger] next.live(s, d) implies !has_rowid(
                docs,
                next.doc(s, d).rowid,
            ) by {
                let rowid = next.doc(s, d).rowid;
                assert(next.latest@[rowid].points_at(s, d));
                assert(retired(cleared.latest@, next.latest@, has_rowid(docs, rowid), rowid));
            }
            next.adopt(segment);
            assert forall|rowid: i64| #[trigger]
                commit_effect(*self, next, docs, deletes@, rowid) by {
                assert(entered(
                    vacant.latest@,
                    next.latest@,
                    docs,
                    self.segments@.len() as int,
                    rowid,
                ));
                assert(retired(cleared.latest@, vacant.latest@, has_rowid(docs, rowid), rowid));
                assert(retired(
                    self.latest@,
                    cleared.latest@,
                    deletes@.contains(rowid),
                    rowid,
                ));
            }
        } else {
            assert forall|rowid: i64| #[trigger]
                commit_effect(*self, next, docs, deletes@, rowid) by {
                assert(retired(
                    self.latest@,
                    cleared.latest@,
                    deletes@.contains(rowid),
                    rowid,
                ));
            }
        }
        proof {
            lemma_content_after(*self, next, docs, deletes@);
        }
        next
    }

    /// The snapshot after a commit of `docs` and `deletes`.
    pub fn with_commit(
        &self,
        generation: u64,
        docs: Vec<(i64, Vec<String>)>,
        deletes: Vec<i64>,
    ) -> (next: Self)
        requires
            self.wf(),
            self.room(docs@.len()),
            forall|i: int, j: int|
                0 <= i < j < docs@.len() ==> (#[trigger] docs@[i]).0 != (#[trigger] docs@[j]).0,
        ensures
            next.wf(),
            next.generation == generation,
            forall|rowid: i64| #[trigger]
                next.content(rowid) == written_content(
                    self.content(rowid),
                    docs@,
                    deletes@,
                    rowid,
                ),
            forall|rowid: i64| #[trigger]
                commit_effect(*self, next, added_docs(*self, next), deletes@, rowid),
            docs@.len() == 0 ==> next.segments@ == self.segments@,
            docs@.len() > 0 ==> next.segments@.len() == self.segments@.len() + 1
                && next.segments@.drop_last() == self.segments@
                && next.segments@.last().is_build_of(docs@) && !next.segments@.last().terms.has(
                Seq::empty(),
            ),
            next.live_docs <= self.live_docs + docs@.len(),
            next.total_doc_len <= self.total_doc_len + docs@.len() * u32::MAX,
            self.ordered() && (forall|d: int|
                0 <= d < docs@.len() ==> (#[trigger] docs@[d]).1@.len() <= 64) ==> next.ordered(),
            self.faithful() ==> next.faithful(),
            self.sorts_terms() ==> next.sorts_terms(),
    {
        let ghost source = docs@;
        if docs.len() == 0 {
            let next = self.with_prebuilt_commit(generation, None, deletes);
            assert forall|rowid: i64| #[trigger]
                next.content(rowid) == written_content(
                    self.content(rowid),
                    source,
                    deletes@,
                    rowid,
                ) by {
                assert(next.content(rowid) == content_after(
                    self.content(rowid),
                    Seq::empty(),
                    deletes@,
                    rowid,
                ));
            }
            next
        } else {
            let built = Segment::build(docs);
            proof {
                assert forall|i: int, j: int| 0 <= i < j < built.docs@.len() implies (
                #[trigger] built.docs@[i]).rowid != (#[trigger] built.docs@[j]).rowid by {
                    assert(source[i].0 != source[j].0);
                }
            }
            let segment = Arc::new(built);
            let next = self.with_prebuilt_commit(generation, Some(segment), deletes);
            proof {
                assert(next.segments@.drop_last() =~= self.segments@);
                assert forall|rowid: i64| #[trigger]
                    next.content(rowid) == written_content(
                        self.content(rowid),
                        source,
                        deletes@,
                        rowid,
                    ) by {
                    assert(next.content(rowid) == content_after(
                        self.content(rowid),
                        built.docs@,
                        deletes@,
                        rowid,
                    ));
                    if has_rowid(built.docs@, rowid) {
                        let d = rowid_index(built.docs@, rowid);
                        assert(built.docs@[d].rowid == rowid);
                        assert(source[d].0 == rowid);
                        assert(writes(source, rowid));
                        let other = written_index(source, rowid);
                        assert(source[other].0 == rowid);
                        assert(other == d);
                    } else if writes(source, rowid) {
                        let d = written_index(source, rowid);
                        assert(source[d].0 == rowid);
                        assert(built.docs@[d].rowid == rowid);
                    }
                }
            }
            next
        }
    }

    /// The fields of the document with this rowid, if there is one.
    pub fn get(&self, rowid: i64) -> (fields: Option<Vec<String>>)
        requires
            self.wf(),
        ensures
            match fields {
                Some(fields) => self.content(rowid) == Some(text::texts(fields@)),
                None => self.content(rowid) is None,
            },
    {
        match self.latest.get(&rowid) {
            Some(location) => {
                if location.deleted {
                    return None;
                }
                assert(self.live(location.segment as int, location.docid as int));
                assert(self.segments@[location.segment as int].wf());
                let segment = &self.segments[location.segment];
                Some(copy_texts(&segment.docs[location.docid as usize].fields))
            },
            None => None,
        }
    }
}

/// Whether `docs` holds a document with this rowid.
pub open spec fn writes(docs: Seq<(i64, Vec<String>)>, rowid: i64) -> bool {
    exists|d: int| 0 <= d < docs.len() && (#[trigger] docs[d]).0 == rowid
}

/// The document of `docs` with this rowid.
pub open spec fn written_index(docs: Seq<(i64, Vec<String>)>, rowid: i64) -> int {
    choose|d: int| 0 <= d < docs.len() && (#[trigger] docs[d]).0 == rowid
}

/// What a commit of `docs` and `deletes` leaves as the content of one rowid.
pub open spec fn written_content(
    before: Option<Seq<Seq<char>>>,
    docs: Seq<(i64, Vec<String>)>,
    deletes: Seq<i64>,
    rowid: i64,
) -> Option<Seq<Seq<char>>> {
    if writes(docs, rowid) {
        Some(text::texts(docs[written_index(docs, rowid)].1@))
    } else if deletes.contains(rowid) {
        None
    } else {
        before
    }
}

proof fn lemma_content_after(
    before: Snapshot,
    after: Snapshot,
    docs: Seq<StoredDocument>,
    deletes: Seq<i64>,
)
    requires
        before.wf(),
        forall|s: int|
            0 <= s < before.segments@.len() ==> #[trigger] after.segments@[s]
                == before.segments@[s],
        docs.len() > 0 ==> after.segments@[before.segments@.len() as int].docs@ == docs,
        forall|rowid: i64| #[trigger] commit_effect(before, after, docs, deletes, rowid),
    ensures
        forall|rowid: i64| #[trigger]
            after.content(rowid) == content_after(before.content(rowid), docs, deletes, rowid),
{
    assert forall|rowid: i64| #[trigger]
        after.content(rowid) == content_after(before.content(rowid), docs, deletes, rowid) by {
        assert(commit_effect(before, after, docs, deletes, rowid));
        if has_rowid(docs, rowid) {
            let d = rowid_index(docs, rowid);
            assert(docs[d].rowid == rowid);
        } else if !deletes.contains(rowid) && before.latest@.contains_key(rowid)
            && !before.latest@[rowid].deleted {
            let location = before.latest@[rowid];
            assert(before.live(location.segment as int, location.docid as int));
            let s = location.segment as int;
            assert(after.segments@[s] == before.segments@[s]);
        }
    }
}

/// One place comes before another: by segment, then by docid.
pub open spec fn spot_before(left: (usize, u32), right: (int, int)) -> bool {
    left.0 < right.0 || (left.0 == right.0 && left.1 < right.1)
}

/// The places of documents that live, in order, and no other places.
pub open spec fn lists_spots(snapshot: Snapshot, spots: Seq<(usize, u32)>, end: (int, int)) -> bool {
    &&& forall|i: int|
        0 <= i < spots.len() ==> snapshot.live(
            (#[trigger] spots[i]).0 as int,
            spots[i].1 as int,
        ) && spot_before(spots[i], end)
    &&& forall|i: int, j: int|
        0 <= i < j < spots.len() ==> spot_before(
            #[trigger] spots[i],
            ((#[trigger] spots[j]).0 as int, spots[j].1 as int),
        )
    &&& forall|s: int, d: int| #[trigger]
        snapshot.live(s, d) && (s < end.0 || (s == end.0 && d < end.1)) ==> exists|i: int|
            0 <= i < spots.len() && (#[trigger] spots[i]).0 == s && spots[i].1 == d
}

impl Snapshot {
    /// Where the live documents stand, in order.
    pub fn live_spots(&self) -> (spots: Vec<(usize, u32)>)
        requires
            self.wf(),
        ensures
            lists_spots(*self, spots@, (self.segments@.len() as int, 0)),
            spots@.len() == self.live_docs,
    {
        let ghost live = self.live_fn();
        let ghost all = self.segments@;
        let mut spots: Vec<(usize, u32)> = Vec::new();
        let mut s: usize = 0;
        assert(all.take(0) =~= Seq::empty());
        while s < self.segments.len()
            invariant
                self.wf(),
                live == self.live_fn(),
                all == self.segments@,
                s <= all.len(),
                lists_spots(*self, spots@, (s as int, 0)),
                spots@.len() == tally::tally(all.take(s as int), live, tally::one()),
            decreases all.len() - s,
        {
            let segment = &self.segments[s];
            let ghost docs = segment.docs@;
            let ghost here = |d: int| live(s as int, d);
            let ghost base = tally::tally(all.take(s as int), live, tally::one());
            assert(segment.wf());
            let mut d: usize = 0;
            assert(docs.take(0) =~= Seq::empty());
            while d < segment.docs.len()
                invariant
                    self.wf(),
                    live == self.live_fn(),
                    all == self.segments@,
                    s < all.len(),
                    docs == all[s as int].docs@,
                    docs == segment.docs@,
                    docs.len() <= u32::MAX,
                    here == (|d: int| live(s as int, d)),
                    d <= docs.len(),
                    lists_spots(*self, spots@, (s as int, d as int)),
                    spots@.len() == base + tally::segment_tally(
                        docs.take(d as int),
                        here,
                        tally::one(),
                    ),
                decreases docs.len() - d,
            {
                proof {
                    tally::segment_tally_step(docs, here, tally::one(), d as int);
                    assert(here(d as int) == self.live(s as int, d as int));
                }
                let ghost current = spots@;
                let living: bool = self.is_live(s, d as u32);
                if living {
                    spots.push((s, d as u32));
                }
                assert forall|s2: int, d2: int| #[trigger]
                    self.live(s2, d2) && (s2 < s || (s2 == s && d2 < d + 1)) implies exists|i: int|
                    0 <= i < spots@.len() && (#[trigger] spots@[i]).0 == s2 && spots@[i].1 == d2 by {
                    if s2 == s && d2 == d {
                        assert(spots@[current.len() as int].0 == s2);
                    } else {
                        let i = choose|i: int|
                            0 <= i < current.len() && (#[trigger] current[i]).0 == s2
                                && current[i].1 == d2;
                        assert(spots@[i] == current[i]);
                    }
                }
                d = d + 1;
            }
            proof {
                assert(docs.take(d as int) =~= docs);
                assert(all.take(s + 1).drop_last() =~= all.take(s as int));
                assert(all.take(s + 1).last() == all[s as int]);
                assert forall|s2: int, d2: int| #[trigger]
                    self.live(s2, d2) && (s2 < s + 1 || (s2 == s + 1 && d2 < 0)) implies exists|
                    i: int,
                |
                    0 <= i < spots@.len() && (#[trigger] spots@[i]).0 == s2 && spots@[i].1
                        == d2 by {
                    assert(self.in_range(s2, d2));
                }
            }
            s = s + 1;
        }
        assert(all.take(s as int) =~= all);
        spots
    }

    /// The same documents in one fresh segment, in the order of their rowids.
    pub fn compacted(&self) -> (next: Self)
        requires
            self.wf(),
            self.live_docs <= u32::MAX,
        ensures
            next.wf(),
            next.faithful(),
            next.generation == self.generation,
            forall|rowid: i64| #[trigger] next.content(rowid) == self.content(rowid),
            next.all_live(),
            forall|s: int|
                0 <= s < next.segments@.len() ==> !(#[trigger] next.segments@[s]).terms.has(
                    Seq::empty(),
                ),
            next.segments@.len() == if self.live_docs == 0 {
                0int
            } else {
                1
            },
            next.segments@.len() == 1 ==> next.segments@[0].docs@.len() == self.live_docs
                && forall|i: int, j: int|
                0 <= i < j < next.segments@[0].docs@.len() ==> (
                #[trigger] next.segments@[0].docs@[i]).rowid < (
                #[trigger] next.segments@[0].docs@[j]).rowid,
            forall|rowid: i64| #[trigger]
                next.latest@.contains_key(rowid) ==> !next.latest@[rowid].deleted,
            next.sorts_terms(),
            self.well_fielded() ==> next.well_fielded() && next.ordered(),
    {
        let spots = self.live_spots();
        let mut keys: Vec<(i64, usize)> = Vec::new();
        let mut done: usize = 0;
        while done < spots.len()
            invariant
                self.wf(),
                lists_spots(*self, spots@, (self.segments@.len() as int, 0)),
                done <= spots@.len(),
                keys@.len() == done,
                forall|i: int|
                    0 <= i < done ==> (#[trigger] keys@[i]).1 == i && keys@[i].0 == self.doc(
                        spots@[i].0 as int,
                        spots@[i].1 as int,
                    ).rowid,
            decreases spots@.len() - done,
        {
            let (s, d) = spots[done];
            assert(self.live(s as int, d as int));
            assert(self.segments@[s as int].wf());
            keys.push((self.segments[s].docs[d as usize].rowid, done));
            done = done + 1;
        }
        let ghost unsorted = keys@;
        let order = sort_entries(keys);
        proof {
            sorting::same_entries(unsorted, order@);
            assert forall|k: int| 0 <= k < order@.len() implies (#[trigger] order@[k]).1
                < spots@.len() && order@[k].0 == self.doc(
                spots@[order@[k].1 as int].0 as int,
                spots@[order@[k].1 as int].1 as int,
            ).rowid by {
                assert(order@.contains(order@[k]));
                assert(unsorted.contains(order@[k]));
                let i = choose|i: int| 0 <= i < unsorted.len() && unsorted[i] == order@[k];
            }
            assert(unsorted.no_duplicates());
            assert forall|i: int, j: int| 0 <= i < j < order@.len() implies (#[trigger] order@[i]).0
                < (#[trigger] order@[j]).0 by {
                assert(sorting::not_after(order@[i], order@[j]));
                if order@[i].0 == order@[j].0 {
                    let (a, b) = (order@[i].1 as int, order@[j].1 as int);
                    let (left, right) = (spots@[a], spots@[b]);
                    assert(self.live(left.0 as int, left.1 as int));
                    assert(self.live(right.0 as int, right.1 as int));
                    assert(left == right);
                    if a < b {
                        assert(spot_before(left, (right.0 as int, right.1 as int)));
                    } else if b < a {
                        assert(spot_before(right, (left.0 as int, left.1 as int)));
                    }
                    assert(order@[i] == order@[j]);
                }
            }
        }
        let mut docs: Vec<(i64, Vec<String>)> = Vec::new();
        let mut index: usize = 0;
        while index < order.len()
            invariant
                self.wf(),
                lists_spots(*self, spots@, (self.segments@.len() as int, 0)),
                index <= order@.len(),
                docs@.len() == index,
                forall|k: int|
                    0 <= k < order@.len() ==> (#[trigger] order@[k]).1 < spots@.len()
                        && order@[k].0 == self.doc(
                        spots@[order@[k].1 as int].0 as int,
                        spots@[order@[k].1 as int].1 as int,
                    ).rowid,
                forall|k: int|
                    0 <= k < index ==> (#[trigger] docs@[k]).0 == order@[k].0 && docs@[k].1@
                        == self.doc(
                        spots@[order@[k].1 as int].0 as int,
                        spots@[order@[k].1 as int].1 as int,
                    ).fields@,
            decreases order@.len() - index,
        {
            let (rowid, place) = order[index];
            let (s, d) = spots[place];
            assert(self.live(s as int, d as int));
            assert(self.segments@[s as int].wf());
            docs.push((rowid, copy_texts(&self.segments[s].docs[d as usize].fields)));
            index = index + 1;
        }
        let ghost source = docs@;
        proof {
            assert forall|i: int, j: int| 0 <= i < j < source.len() implies (#[trigger] source[i]).0
                != (#[trigger] source[j]).0 by {
                assert(order@[i].0 < order@[j].0);
            }
            assert(source.len() * u32::MAX <= u64::MAX) by (nonlinear_arith)
                requires
                    source.len() <= u32::MAX,
            ;
        }
        let empty = Snapshot::default();
        let none: Vec<i64> = Vec::new();
        let next = empty.with_commit(self.generation, docs, none);
        proof {
            assert forall|rowid: i64| #[trigger] next.content(rowid) == self.content(rowid) by {
                assert(next.content(rowid) == written_content(None, source, none@, rowid));
                if writes(source, rowid) {
                    let k = written_index(source, rowid);
                    assert(source[k].0 == rowid);
                    let spot = spots@[order@[k].1 as int];
                    assert(self.live(spot.0 as int, spot.1 as int));
                    assert(text::texts(source[k].1@) == self.doc(
                        spot.0 as int,
                        spot.1 as int,
                    ).texts());
                } else if self.content(rowid) is Some {
                    let location = self.latest@[rowid];
                    let (s, d) = (location.segment as int, location.docid as int);
                    assert(self.live(s, d));
                    assert(self.in_range(s, d));
                    let i = choose|i: int|
                        0 <= i < spots@.len() && (#[trigger] spots@[i]).0 == s && spots@[i].1 == d;
                    assert(unsorted.contains(unsorted[i]));
                    assert(order@.contains(unsorted[i]));
                    let k = choose|k: int| 0 <= k < order@.len() && order@[k] == unsorted[i];
                    assert(source[k].0 == rowid);
                }
            }
            assert forall|s: int, d: int| #[trigger] next.in_range(s, d) implies next.live(
                s,
                d,
            ) by {
                let rowid = next.doc(s, d).rowid;
                assert(next.segments@[s] == next.segments@.last());
                assert(source[d].0 == rowid);
                assert(writes(source, rowid));
                assert(next.content(rowid) is Some);
                let location = next.latest@[rowid];
                let (t, e) = (location.segment as int, location.docid as int);
                assert(next.live(t, e));
                assert(next.in_range(t, e));
                assert(source[e].0 == rowid);
                assert(e == d && t == s);
            }
            if source.len() > 0 {
                let built = next.segments@.last();
                assert(next.segments@[0] == built);
                assert forall|i: int, j: int| 0 <= i < j < built.docs@.len() implies (
                #[trigger] built.docs@[i]).rowid < (#[trigger] built.docs@[j]).rowid by {
                    assert(order@[i].0 < order@[j].0);
                    assert(source[i].0 == order@[i].0 && source[j].0 == order@[j].0);
                }
            }
            assert forall|rowid: i64| #[trigger] next.latest@.contains_key(rowid) implies
                !next.latest@[rowid].deleted by {
                assert(commit_effect(empty, next, added_docs(empty, next), none@, rowid));
            }
            if self.well_fielded() {
                assert forall|k: int| 0 <= k < source.len() implies (
                #[trigger] source[k]).1@.len() <= 64 by {
                    let spot = spots@[order@[k].1 as int];
                    let (s, d) = (spot.0 as int, spot.1 as int);
                    assert(self.live(s, d));
                    assert(self.content(self.doc(s, d).rowid) == Some(self.doc(s, d).texts()));
                }
                assert forall|rowid: i64|
                    (#[trigger] next.content(rowid)) matches Some(fields) ==> 1 <= fields.len()
                        <= 64 by {
                    assert(next.content(rowid) == self.content(rowid));
                }
            }
        }
        next
    }
}

} // verus!
