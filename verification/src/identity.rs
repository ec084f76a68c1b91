//! A snapshot that comes back from its checkpoint is the same in every part.
use crate::decoding;
use crate::encoding;
use crate::record;
use crate::record::ListRecord;
use crate::restoring;
use crate::segment::{PostingList, Segment, StoredDocument};
use crate::snapshot;
use crate::snapshot::Snapshot;
use crate::tally;
use crate::text;
use crate::text::TermMap;
use vstd::prelude::*;

verus! {

/// Two documents with the same parts.
pub open spec fn same_documents(a: StoredDocument, b: StoredDocument) -> bool {
    &&& a.rowid == b.rowid
    &&& a.len == b.len
    &&& a.texts() == b.texts()
    &&& text::texts(a.unique_terms@) == text::texts(b.unique_terms@)
}

/// Two lists with the same parts.
pub open spec fn same_lists(a: PostingList, b: PostingList) -> bool {
    &&& a.docids@ == b.docids@
    &&& a.freqs@ == b.freqs@
    &&& a.positions@.len() == b.positions@.len()
    &&& forall|i: int|
        0 <= i < a.positions@.len() ==> (#[trigger] a.positions@[i])@ == b.positions@[i]@
    &&& a.blocks@ == b.blocks@
    &&& a.max_tf == b.max_tf
    &&& a.min_doc_len == b.min_doc_len
}

/// Two segments with the same documents and the same lists.
pub open spec fn same_segments(a: Segment, b: Segment) -> bool {
    &&& a.docs@.len() == b.docs@.len()
    &&& forall|d: int|
        0 <= d < a.docs@.len() ==> same_documents(#[trigger] a.docs@[d], b.docs@[d])
    &&& a.terms.spec_len() == b.terms.spec_len()
    &&& forall|t: int|
        0 <= t < a.terms.spec_len() ==> #[trigger] a.terms.key(t) == b.terms.key(t)
    &&& forall|t: int|
        0 <= t < a.terms.spec_len() ==> same_lists(#[trigger] a.terms.value(t), b.terms.value(t))
}

/// Two snapshots with the same parts.
pub open spec fn same_snapshots(a: Snapshot, b: Snapshot) -> bool {
    &&& a.generation == b.generation
    &&& a.segments@.len() == b.segments@.len()
    &&& forall|s: int|
        0 <= s < a.segments@.len() ==> same_segments(*#[trigger] a.segments@[s], *b.segments@[s])
    &&& a.latest@ == b.latest@
    &&& a.live_masks@.len() == b.live_masks@.len()
    &&& forall|s: int|
        0 <= s < a.live_masks@.len() ==> (#[trigger] a.live_masks@[s])@ == b.live_masks@[s]@
    &&& same_counters(a.term_df, b.term_df)
    &&& a.live_docs == b.live_docs
    &&& a.total_doc_len == b.total_doc_len
}

/// Two counters with the same entries.
pub open spec fn same_counters(a: TermMap<u32>, b: TermMap<u32>) -> bool {
    &&& a.spec_len() == b.spec_len()
    &&& forall|t: int| 0 <= t < a.spec_len() ==> #[trigger] a.key(t) == b.key(t)
    &&& forall|t: int| 0 <= t < a.spec_len() ==> #[trigger] a.value(t) == b.value(t)
}

/// The terms of a map, in their order.
spec fn keys<V>(map: TermMap<V>) -> Seq<Seq<char>> {
    Seq::new(map.spec_len(), |t: int| map.key(t))
}

/// Counters are determined by what they count.
pub proof fn equal_counts_equal_counters(a: TermMap<u32>, b: TermMap<u32>)
    requires
        tally::counters_wf(a),
        tally::counters_wf(b),
        forall|term: Seq<char>| #[trigger] tally::count_of(a, term) == tally::count_of(b, term),
    ensures
        same_counters(a, b),
{
    let (x, y) = (keys(a), keys(b));
    assert forall|term: Seq<char>| #[trigger] x.contains(term) == y.contains(term) by {
        assert(tally::count_of(a, term) == tally::count_of(b, term));
        tally::counters_present(a, term);
        tally::counters_present(b, term);
        lemma_keys(a, term);
        lemma_keys(b, term);
    }
    text::sorted_texts_agree(x, y);
    assert forall|t: int| 0 <= t < a.spec_len() implies #[trigger] a.key(t) == b.key(t) by {
        assert(x[t] == y[t]);
    }
    assert forall|t: int| 0 <= t < a.spec_len() implies #[trigger] a.value(t) == b.value(t) by {
        assert(a.key(t) == b.key(t));
        a.lemma_lookup(t);
        b.lemma_lookup(t);
        assert(tally::count_of(a, a.key(t)) == tally::count_of(b, a.key(t)));
    }
}

proof fn lemma_keys<V>(map: TermMap<V>, term: Seq<char>)
    ensures
        keys(map).contains(term) == map.has(term),
{
    if map.has(term) {
        let t = map.position(term);
        assert(map.key(t) == term);
        assert(keys(map)[t] == term);
    }
    if keys(map).contains(term) {
        let t = choose|t: int| 0 <= t < keys(map).len() && keys(map)[t] == term;
        assert(map.key(t) == term);
    }
}

/// Words with the same bits from `from` on are the same from there on.
proof fn lemma_word(a: u64, b: u64, from: u64)
    requires
        from < 64,
        forall|i: u64| i < 64 ==> ((a & (1u64 << i)) != 0) == ((b & #[trigger] (1u64 << i)) != 0),
    ensures
        a >> from == b >> from,
    decreases 64 - from,
{
    assert(((a & (1u64 << from)) != 0) == ((b & (1u64 << from)) != 0));
    if from == 63 {
        assert(a >> 63 == b >> 63) by (bit_vector)
            requires
                ((a & (1u64 << 63)) != 0) == ((b & (1u64 << 63)) != 0),
        ;
    } else {
        let next = (from + 1) as u64;
        lemma_word(a, b, next);
        assert(a >> from == b >> from) by (bit_vector)
            requires
                from < 63,
                next == from + 1,
                a >> next == b >> next,
                ((a & (1u64 << from)) != 0) == ((b & (1u64 << from)) != 0),
        ;
    }
}

/// Masks for as many documents are determined by the bits of the documents.
pub proof fn equal_bits_equal_masks(a: Seq<u64>, b: Seq<u64>, docs: nat)
    requires
        snapshot::mask_of(a, docs),
        snapshot::mask_of(b, docs),
        forall|d: int|
            0 <= d < docs ==> #[trigger] snapshot::bit(a, d) == snapshot::bit(b, d),
    ensures
        a == b,
{
    assert forall|w: int| 0 <= w < a.len() implies a[w] == b[w] by {
        assert forall|i: u64| i < 64 implies ((a[w] & (1u64 << i)) != 0) == ((b[w]
            & #[trigger] (1u64 << i)) != 0) by {
            let d = w * 64 + i;
            assert(d / 64 == w && d % 64 == i);
            assert(snapshot::bit(a, d) == snapshot::bit(b, d));
        }
        lemma_word(a[w], b[w], 0);
        let (x, y) = (a[w], b[w]);
        assert(x == y) by (bit_vector)
            requires
                x >> 0 == y >> 0,
        ;
    }
    assert(a =~= b);
}

/// The terms of lists in order are in order, and are those that list the document.
proof fn lemma_terms_in(lists: Seq<ListRecord>, docid: int)
    requires
        forall|i: int, j: int|
            0 <= i < j < lists.len() ==> text::text_before(
                (#[trigger] lists[i]).term,
                (#[trigger] lists[j]).term,
            ),
    ensures
        text::sorted_texts(record::terms_in(lists, docid)),
        forall|term: Seq<char>| #[trigger]
            record::terms_in(lists, docid).contains(term) == lists_term(lists, docid, term),
    decreases lists.len(),
{
    let all = record::terms_in(lists, docid);
    if lists.len() > 0 {
        let front = lists.drop_last();
        let before = record::terms_in(front, docid);
        let last = lists.len() - 1;
        lemma_terms_in(front, docid);
        assert forall|i: int, j: int| 0 <= i < j < all.len() implies text::text_before(
            #[trigger] all[i],
            #[trigger] all[j],
        ) by {
            if j == before.len() {
                assert(before.contains(before[i]));
                assert(lists_term(front, docid, before[i]));
                let l = choose|l: int|
                    0 <= l < front.len() && (#[trigger] front[l]).term == before[i]
                        && record::posts(front[l], docid);
                assert(lists[l] == front[l]);
                assert(text::text_before(lists[l].term, lists[last].term));
            }
        }
        assert forall|term: Seq<char>| #[trigger] all.contains(term) == lists_term(
            lists,
            docid,
            term,
        ) by {
            assert(before.contains(term) == lists_term(front, docid, term));
            if lists_term(front, docid, term) {
                let l = choose|l: int|
                    0 <= l < front.len() && (#[trigger] front[l]).term == term && record::posts(
                        front[l],
                        docid,
                    );
                assert(lists[l].term == term);
                let i = choose|i: int| 0 <= i < before.len() && before[i] == term;
                assert(all[i] == term);
            }
            if lists_term(lists, docid, term) {
                let l = choose|l: int|
                    0 <= l < lists.len() && (#[trigger] lists[l]).term == term && record::posts(
                        lists[l],
                        docid,
                    );
                if l < last {
                    assert(front[l].term == term);
                    assert(lists_term(front, docid, term));
                } else {
                    assert(all[before.len() as int] == term);
                }
            }
            if all.contains(term) {
                let i = choose|i: int| 0 <= i < all.len() && all[i] == term;
                if i < before.len() {
                    assert(before[i] == term);
                    assert(before.contains(term));
                } else {
                    assert(lists[last].term == term);
                }
            }
        }
    } else {
        assert forall|term: Seq<char>| #[trigger] all.contains(term) == lists_term(
            lists,
            docid,
            term,
        ) by {}
    }
}

/// The list of this term has a posting of the document.
spec fn lists_term(lists: Seq<ListRecord>, docid: int, term: Seq<char>) -> bool {
    exists|l: int|
        0 <= l < lists.len() && (#[trigger] lists[l]).term == term && record::posts(
            lists[l],
            docid,
        )
}

/// A document that names its terms in order names them as a checkpoint brings them
/// back.
proof fn lemma_named(saved: &Segment, d: int)
    requires
        saved.wf(),
        saved.sorts_terms(),
        0 <= d < saved.docs@.len(),
    ensures
        text::texts(saved.docs@[d].unique_terms@) == record::terms_in(
            encoding::list_records(saved),
            d,
        ),
{
    let lists = encoding::list_records(saved);
    let named = text::texts(saved.docs@[d].unique_terms@);
    assert forall|i: int, j: int| 0 <= i < j < lists.len() implies text::text_before(
        (#[trigger] lists[i]).term,
        (#[trigger] lists[j]).term,
    ) by {
        assert(text::text_before(saved.terms.key(i), saved.terms.key(j)));
    }
    lemma_terms_in(lists, d);
    assert forall|term: Seq<char>| #[trigger] named.contains(term) == record::terms_in(
        lists,
        d,
    ).contains(term) by {
        assert(saved.docs@[d].lists(term) == saved.holds(d, term));
        assert(record::terms_in(lists, d).contains(term) == lists_term(lists, d, term));
        if saved.holds(d, term) {
            assert(saved.terms.has(term));
            let t = saved.terms.position(term);
            assert(saved.terms.key(t) == term);
            saved.terms.lemma_lookup(t);
            decoding::lemma_posts(saved.terms.value(t), term, d);
            assert(lists[t].term == term);
        }
        if lists_term(lists, d, term) {
            let t = choose|t: int|
                0 <= t < lists.len() && (#[trigger] lists[t]).term == term && record::posts(
                    lists[t],
                    d,
                );
            saved.terms.lemma_lookup(t);
            decoding::lemma_posts(saved.terms.value(t), term, d);
            saved.lemma_list(term);
            let list = saved.terms.value(t);
            assert(list.wf(saved.docs@));
            let at = list.index_of(d);
            assert(list.docids@[at] == d);
        }
    }
    text::sorted_texts_agree(named, record::terms_in(lists, d));
}

/// A segment read from the record of another has the same parts.
proof fn lemma_same_segments(saved: &Segment, read: &Segment)
    requires
        saved.wf(),
        read.wf(),
        saved.sorts_terms(),
        decoding::restores(read, encoding::segment_record(saved)),
    ensures
        same_segments(*read, *saved),
{
    restoring::restored_segment_is_the_same(saved, read);
    let (a, b) = (encoding::list_records(read), encoding::list_records(saved));
    assert(a == b);
    assert forall|d: int| 0 <= d < read.docs@.len() implies same_documents(
        #[trigger] read.docs@[d],
        saved.docs@[d],
    ) by {
        lemma_named(saved, d);
        assert(read.docs@[d].texts() == saved.docs@[d].texts());
    }
    assert forall|t: int| 0 <= t < read.terms.spec_len() implies #[trigger] read.terms.key(t)
        == saved.terms.key(t) by {
        assert(a[t] == b[t]);
        assert(a[t].term == read.terms.key(t) && b[t].term == saved.terms.key(t));
    }
    assert forall|t: int| 0 <= t < read.terms.spec_len() implies same_lists(
        #[trigger] read.terms.value(t),
        saved.terms.value(t),
    ) by {
        assert(read.terms.key(t) == saved.terms.key(t));
        assert(a[t] == encoding::list_record(read.terms.key(t), read.terms.value(t)));
        assert(b[t] == encoding::list_record(saved.terms.key(t), saved.terms.value(t)));
        assert(read.terms.value(t).wf(read.docs@));
        assert(saved.terms.value(t).wf(saved.docs@));
        restoring::lemma_same_list(
            read.terms.value(t),
            saved.terms.value(t),
            saved.terms.key(t),
        );
    }
}

/// Reading the checkpoint of a compacted snapshot gives back the snapshot, the same
/// in every part.
pub proof fn restored_snapshot_is_identical(saved: Snapshot, read: Snapshot)
    requires
        saved.wf(),
        saved.all_live(),
        saved.sorts_terms(),
        forall|rowid: i64| #[trigger]
            saved.latest@.contains_key(rowid) ==> !saved.latest@[rowid].deleted,
        read.wf(),
        decoding::restored(read, encoding::snapshot_record(saved)),
    ensures
        same_snapshots(read, saved),
{
    let written = encoding::snapshot_record(saved);
    restoring::restored_snapshot_is_the_same(saved, read);
    assert forall|s: int| 0 <= s < read.segments@.len() implies same_segments(
        *#[trigger] read.segments@[s],
        *saved.segments@[s],
    ) by {
        assert(written.segments[s] == encoding::segment_record(&saved.segments@[s]));
        assert(saved.segments@[s].wf());
        assert(read.segments@[s].wf());
        assert(saved.segments@[s].sorts_terms());
        lemma_same_segments(&saved.segments@[s], &read.segments@[s]);
    }
    assert forall|s: int| 0 <= s < read.live_masks@.len() implies (
    #[trigger] read.live_masks@[s])@ == saved.live_masks@[s]@ by {
        assert(same_segments(*read.segments@[s], *saved.segments@[s]));
        assert(saved.segments@[s].wf());
        let docs = read.segments@[s].docs@.len();
        assert forall|d: int| 0 <= d < docs implies #[trigger] snapshot::bit(
            read.live_masks@[s]@,
            d,
        ) == snapshot::bit(saved.live_masks@[s]@, d) by {
            assert(read.in_range(s, d) && saved.in_range(s, d));
            assert(read.live(s, d) && saved.live(s, d));
        }
        equal_bits_equal_masks(read.live_masks@[s]@, saved.live_masks@[s]@, docs);
    }
    assert forall|term: Seq<char>| #[trigger] tally::count_of(read.term_df, term)
        == tally::count_of(saved.term_df, term) by {
        assert(read.df(term) == saved.df(term));
        assert(tally::count_of(saved.term_df, term) == saved.df(term));
    }
    equal_counts_equal_counters(read.term_df, saved.term_df);
    assert forall|rowid: i64| #[trigger] read.latest@.contains_key(rowid)
        == saved.latest@.contains_key(rowid) && (read.latest@.contains_key(rowid)
        ==> read.latest@[rowid] == saved.latest@[rowid]) by {
        if saved.latest@.contains_key(rowid) {
            let location = saved.latest@[rowid];
            let (s, d) = (location.segment as int, location.docid as int);
            assert(saved.live(s, d));
            assert(same_segments(*read.segments@[s], *saved.segments@[s]));
            assert(same_documents(read.segments@[s].docs@[d], saved.segments@[s].docs@[d]));
            assert(read.in_range(s, d));
            assert(read.live(s, d));
            assert(read.latest@[read.doc(s, d).rowid].points_at(s, d));
        } else if read.latest@.contains_key(rowid) {
            let location = read.latest@[rowid];
            let (s, d) = (location.segment as int, location.docid as int);
            assert(read.live(s, d));
            assert(same_segments(*read.segments@[s], *saved.segments@[s]));
            assert(same_documents(read.segments@[s].docs@[d], saved.segments@[s].docs@[d]));
            assert(saved.in_range(s, d));
            assert(saved.live(s, d));
        }
    }
    assert(read.latest@.dom() =~= saved.latest@.dom()) by {
        assert forall|rowid: i64| #[trigger] read.latest@.dom().contains(rowid)
            == saved.latest@.dom().contains(rowid) by {
            assert(read.latest@.contains_key(rowid) == saved.latest@.contains_key(rowid));
        }
    }
    assert(read.latest@ =~= saved.latest@);
}

} // verus!
