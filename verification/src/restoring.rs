//! A snapshot comes back from its checkpoint as it was.
use crate::checkpoint;
use crate::checkpoint::{Contents, LEGACY_SEGMENT_MAGIC, SEGMENT_MAGIC};
use crate::codec;
use crate::decoding;
use crate::encoding;
use crate::error::Error;
use crate::record;
use crate::record::{Encoded, SnapshotRecord};
use crate::round_trip;
use crate::segment;
use crate::segment::{PostingList, Segment, StoredDocument};
use crate::snapshot::Snapshot;
use crate::tally;
use crate::text;
use crate::tokenizer;
use crate::wal;
use std::sync::Arc;
use vstd::prelude::*;

verus! {

broadcast use crate::codec::le_bytes_len;

/// The documents that a checkpoint can carry have between one and 64 fields.
pub proof fn restorable_documents_have_fields(current: Snapshot)
    requires
        current.wf(),
        encoding::restorable(current),
    ensures
        current.well_fielded(),
{
    assert forall|rowid: i64|
        (#[trigger] current.content(rowid)) matches Some(fields) ==> 1 <= fields.len() <= 64 by {
        if current.content(rowid) is Some {
            let location = current.latest@[rowid];
            let (s, d) = (location.segment as int, location.docid as int);
            assert(current.live(s, d));
            assert(encoding::restorable_segment(&current.segments@[s]));
            assert(1 <= current.segments@[s].docs@[d].fields@.len() <= 64);
        }
    }
}

/// What a list says of each record.
proof fn lemma_records(list: PostingList, docs: Seq<StoredDocument>)
    requires
        list.wf(docs),
    ensures
        record::docids_of(encoding::posting_records(list)) == list.docids@,
        record::freqs_of(encoding::posting_records(list)) == list.freqs@,
        record::lens_of(encoding::posting_records(list), encoding::doc_records(docs))
            == segment::doc_lens(list.docids@, docs),
        forall|k: int|
            0 <= k < list.blocks@.len() ==> #[trigger] list.blocks@[k] == record::block_of(
                encoding::posting_records(list),
                encoding::doc_records(docs),
                k,
            ),
{
    let postings = encoding::posting_records(list);
    let records = encoding::doc_records(docs);
    assert(record::docids_of(postings) =~= list.docids@);
    assert(record::freqs_of(postings) =~= list.freqs@);
    assert(record::lens_of(postings, records) =~= segment::doc_lens(list.docids@, docs)) by {
        assert forall|i: int| 0 <= i < list.docids@.len() implies record::lens_of(
            postings,
            records,
        )[i] == segment::doc_lens(list.docids@, docs)[i] by {
            assert(list.docids@[i] < docs.len());
        }
    }
    assert forall|k: int| 0 <= k < list.blocks@.len() implies #[trigger] list.blocks@[k]
        == record::block_of(postings, records, k) by {
        assert(list.blocks@[k] == segment::block_meta(list.docids@, list.freqs@, docs, k));
        let end = segment::block_end(k, list.docids@.len());
        assert(0 < end <= list.docids@.len());
        assert(postings[end - 1].docid == list.docids@[end - 1]);
    }
}

/// All records of a list that has bytes have bytes.
proof fn lemma_each<T>(items: Seq<T>, encoder: spec_fn(T) -> Encoded, index: int)
    requires
        record::encode_list(items, encoder) is Ok,
        0 <= index < items.len(),
    ensures
        encoder(items[index]) is Ok,
    decreases index,
{
    if index > 0 {
        lemma_each(items.skip(1), encoder, index - 1);
        assert(items.skip(1)[index - 1] == items[index]);
    }
}

proof fn lemma_sound_list(segment: &Segment, t: int)
    requires
        segment.wf(),
        encoding::restorable_segment(segment),
        0 <= t < segment.terms.spec_len(),
        record::encode_posting_list(encoding::list_records(segment)[t]) is Ok,
    ensures
        record::sound_list(
            encoding::doc_records(segment.docs@),
            encoding::list_records(segment)[t],
        ),
{
    let list = segment.terms.value(t);
    let written = encoding::list_records(segment)[t];
    let docs = encoding::doc_records(segment.docs@);
    assert(list.wf(segment.docs@));
    lemma_records(list, segment.docs@);
    segment::increasing_bound(list.docids@, segment.docs@.len() as int);
    assert(written.term.len() > 0) by {
        if written.term.len() == 0 {
            assert(segment.terms.key(t) =~= Seq::empty());
            assert(segment.terms.has(Seq::empty()));
        }
    }
    assert forall|i: int| 0 <= i < written.postings.len() implies record::sound_posting(
        docs.len(),
        #[trigger] written.postings[i],
    ) by {
        let encoder = record::posting_encoder();
        lemma_each(written.postings, encoder, i);
        assert(encoder(written.postings[i]) is Ok);
        assert(list.docids@[i] < segment.docs@.len());
        assert(list.positions@[i]@.len() > 0);
        assert(segment::increasing(list.positions@[i]@));
    }
}

proof fn lemma_sound_segment(segment: &Segment)
    requires
        segment.wf(),
        encoding::restorable_segment(segment),
        record::encode_segment(encoding::segment_record(segment)) is Ok,
    ensures
        record::sound_segment(encoding::segment_record(segment)),
{
    let written = encoding::segment_record(segment);
    assert forall|d: int| 0 <= d < written.docs.len() implies record::sound_doc(
        #[trigger] written.docs[d],
    ) by {
        assert(1 <= segment.docs@[d].fields@.len() <= 64);
    }
    assert forall|l: int| 0 <= l < written.lists.len() implies record::sound_list(
        written.docs,
        #[trigger] written.lists[l],
    ) by {
        let encoder = record::list_encoder();
        lemma_each(written.lists, encoder, l);
        assert(encoder(written.lists[l]) is Ok);
        lemma_sound_list(segment, l);
    }
    assert forall|l: int, m: int| 0 <= l < m < written.lists.len() implies (
    #[trigger] written.lists[l]).term != (#[trigger] written.lists[m]).term by {
        let (a, b) = (segment.terms.key(l), segment.terms.key(m));
        assert(text::text_before(a, b));
        text::text_order_laws(a, b, b);
    }
}

/// A restorable snapshot that has bytes has a sound record.
proof fn lemma_sound_record(current: Snapshot)
    requires
        current.wf(),
        encoding::restorable(current),
        record::encode_record(encoding::snapshot_record(current)) is Ok,
    ensures
        record::sound_record(encoding::snapshot_record(current)),
{
    let written = encoding::snapshot_record(current);
    let segments = written.segments;
    assert forall|s: int| 0 <= s < segments.len() implies record::sound_segment(
        #[trigger] segments[s],
    ) by {
        let encoder = record::segment_encoder();
        lemma_each(segments, encoder, s);
        assert(encoder(segments[s]) is Ok);
        assert(current.segments@[s].wf());
        assert(encoding::restorable_segment(&current.segments@[s]));
        lemma_sound_segment(&current.segments@[s]);
    }
    assert forall|s: int, d: int, t: int, e: int|
        0 <= s < segments.len() && 0 <= d < segments[s].docs.len() && 0 <= t < segments.len() && 0
            <= e < segments[t].docs.len() && (s != t || d != e) implies (
    #[trigger] segments[s].docs[d]).rowid != (#[trigger] segments[t].docs[e]).rowid by {
        assert(current.in_range(s, d) && current.in_range(t, e));
        assert(current.live(s, d) && current.live(t, e));
        assert(current.latest@[current.doc(s, d).rowid].points_at(s, d));
        assert(current.latest@[current.doc(t, e).rowid].points_at(t, e));
    }
}

/// The bytes of a snapshot without replaced or deleted documents say what it holds.
pub proof fn written_record_is_read(current: Snapshot)
    ensures
        current.wf() && current.all_live() ==> (encoding::encoded(current) matches Ok(payload)
            ==> record::parse_record(payload) == Ok::<SnapshotRecord, Error>(
            encoding::snapshot_record(current),
        )),
{
    if current.wf() && current.all_live() && encoding::encoded(current) is Ok {
        lemma_sound_record(current);
        round_trip::record_round_trip(encoding::snapshot_record(current));
    }
}

/// The file written for a snapshot without replaced or deleted documents holds the
/// snapshot.
pub proof fn written_checkpoint_is_read(current: Snapshot)
    requires
        current.wf(),
        current.all_live(),
    ensures
        encoding::encoded(current) matches Ok(payload) ==> (payload.len() <= u32::MAX ==> checkpoint::parse_checkpoint(
            wal::frame_bytes(SEGMENT_MAGIC@, payload),
        ) == Ok::<Contents, Error>(Contents::Native(encoding::snapshot_record(current)))),
{
    let written = encoding::snapshot_record(current);
    match encoding::encoded(current) {
        Ok(payload) => {
            if payload.len() <= u32::MAX {
                written_record_is_read(current);
                lemma_frame(payload);
                assert(SEGMENT_MAGIC@[7] != LEGACY_SEGMENT_MAGIC@[7]);
            }
        },
        Err(message) => {},
    }
}

proof fn lemma_frame(payload: Seq<u8>)
    requires
        payload.len() <= u32::MAX,
    ensures
        ({
            let frame = wal::frame_bytes(SEGMENT_MAGIC@, payload);
            &&& frame.len() == 16 + payload.len()
            &&& frame.take(8) == SEGMENT_MAGIC@
            &&& codec::le_value(frame.subrange(8, 12)) == payload.len()
            &&& codec::le_value(frame.subrange(12, 16)) == codec::crc32c(payload)
            &&& frame.skip(16) == payload
        }),
{
    let frame = wal::frame_bytes(SEGMENT_MAGIC@, payload);
    let (size, sum) = (
        codec::u32_bytes(payload.len() as u32),
        codec::u32_bytes(codec::crc32c(payload)),
    );
    assert(SEGMENT_MAGIC@.len() == 8);
    vstd::arithmetic::power2::lemma2_to64();
    codec::le_round_trip(payload.len(), 4);
    codec::le_round_trip(codec::crc32c(payload) as nat, 4);
    assert(frame.take(8) =~= SEGMENT_MAGIC@);
    assert(frame.subrange(8, 12) =~= size);
    assert(frame.subrange(12, 16) =~= sum);
    assert(frame.skip(16) =~= payload);
}

/// Two maps in order that hold the same terms hold them at the same places.
proof fn lemma_same_order<V>(a: text::TermMap<V>, b: text::TermMap<V>, index: int)
    requires
        a.wf(),
        b.wf(),
        a.spec_len() == b.spec_len(),
        forall|i: int| 0 <= i < a.spec_len() ==> b.has(#[trigger] a.key(i)),
        forall|i: int| 0 <= i < b.spec_len() ==> a.has(#[trigger] b.key(i)),
        0 <= index < a.spec_len(),
    ensures
        a.key(index) == b.key(index),
    decreases index,
{
    assert forall|i: int| 0 <= i < index implies a.key(i) == b.key(i) by {
        lemma_same_order(a, b, i);
    }
    let (x, y) = (a.key(index), b.key(index));
    assert(b.has(x) && a.has(y));
    let at = b.position(x);
    assert(b.key(at) == x);
    let place = a.position(y);
    assert(a.key(place) == y);
    text::text_order_laws(x, y, x);
    text::text_order_laws(y, x, y);
    if at < index {
        assert(a.key(at) == b.key(at));
        assert(text::text_before(a.key(at), a.key(index)));
        text::text_order_laws(x, x, x);
    }
    if place < index {
        assert(a.key(place) == b.key(place));
        assert(text::text_before(b.key(place), b.key(index)));
        text::text_order_laws(y, y, y);
    }
    if at > index && place > index {
        assert(text::text_before(b.key(index), b.key(at)));
        assert(text::text_before(a.key(index), a.key(place)));
    }
}

/// Two soundly kept lists with one record are the same list.
pub(crate) open spec fn same_list(a: PostingList, b: PostingList) -> bool {
    &&& a.docids@ == b.docids@
    &&& a.freqs@ == b.freqs@
    &&& a.positions@.len() == b.positions@.len()
    &&& forall|i: int|
        0 <= i < a.positions@.len() ==> (#[trigger] a.positions@[i])@ == b.positions@[i]@
}

pub(crate) proof fn lemma_same_list(a: PostingList, b: PostingList, term: Seq<char>)
    requires
        encoding::aligned(a),
        encoding::aligned(b),
        encoding::list_record(term, a) == encoding::list_record(term, b),
    ensures
        same_list(a, b),
{
    let (x, y) = (encoding::posting_records(a), encoding::posting_records(b));
    assert(x.len() == a.docids@.len() && y.len() == b.docids@.len());
    assert forall|i: int| 0 <= i < a.docids@.len() implies a.docids@[i] == b.docids@[i]
        && a.freqs@[i] == b.freqs@[i] && a.positions@[i]@ == b.positions@[i]@ by {
        assert(x[i] == encoding::posting_record(a, i));
        assert(y[i] == encoding::posting_record(b, i));
    }
    assert(a.docids@ =~= b.docids@);
    assert(a.freqs@ =~= b.freqs@);
    assert forall|i: int| 0 <= i < a.positions@.len() implies (#[trigger] a.positions@[i])@
        == b.positions@[i]@ by {
        assert(a.docids@[i] == b.docids@[i]);
    }
}

/// A segment read from the record of another says what the other says.
pub proof fn restored_segment_is_the_same(saved: &Segment, read: &Segment)
    requires
        saved.wf(),
        read.wf(),
        decoding::restores(read, encoding::segment_record(saved)),
    ensures
        encoding::segment_record(read) == encoding::segment_record(saved),
        forall|d: int, term: Seq<char>| #[trigger]
            read.positions(d, term) == saved.positions(d, term),
        forall|d: int|
            0 <= d < saved.docs@.len() ==> (#[trigger] read.docs@[d]).rowid
                == saved.docs@[d].rowid && read.docs@[d].len == saved.docs@[d].len
                && read.docs@[d].texts() == saved.docs@[d].texts(),
        read.docs@.len() == saved.docs@.len(),
{
    let written = encoding::segment_record(saved);
    let (a, b) = (saved.terms, read.terms);
    assert forall|t: int| 0 <= t < a.spec_len() implies b.has(#[trigger] a.key(t)) by {
        assert(written.lists[t].term == a.key(t));
    }
    assert forall|t: int| 0 <= t < b.spec_len() implies a.has(#[trigger] b.key(t)) by {
        lemma_onto(a, b, t);
    }
    assert forall|t: int| 0 <= t < a.spec_len() implies a.key(t) == b.key(t)
        && encoding::list_record(a.key(t), a.value(t)) == encoding::list_record(
        #[trigger] b.key(t),
        b.value(t),
    ) && same_list(a.value(t), b.value(t)) by {
        lemma_same_order(a, b, t);
        b.lemma_lookup(t);
        assert(written.lists[t] == encoding::list_record(a.key(t), a.value(t)));
        assert(a.value(t).wf(saved.docs@));
        assert(b.value(t).wf(read.docs@));
        lemma_same_list(a.value(t), b.value(t), a.key(t));
    }
    assert(encoding::list_records(read) =~= encoding::list_records(saved));
    assert(encoding::doc_records(read.docs@).len() == read.docs@.len());
    assert(encoding::doc_records(saved.docs@).len() == saved.docs@.len());
    assert forall|d: int| 0 <= d < saved.docs@.len() implies (#[trigger] read.docs@[d]).rowid
        == saved.docs@[d].rowid && read.docs@[d].len == saved.docs@[d].len
        && read.docs@[d].texts() == saved.docs@[d].texts() by {
        assert(encoding::doc_records(read.docs@)[d] == encoding::doc_record(read.docs@[d]));
        assert(encoding::doc_records(saved.docs@)[d] == encoding::doc_record(
            saved.docs@[d],
        ));
    }
    assert forall|d: int, term: Seq<char>| #[trigger] read.positions(d, term)
        == saved.positions(d, term) by {
        if a.has(term) {
            let t = a.position(term);
            assert(a.key(t) == term);
            assert(b.key(t) == term);
            a.lemma_lookup(t);
            b.lemma_lookup(t);
            lemma_same_places(a.value(t), b.value(t), saved.docs@, read.docs@, d);
        } else if b.has(term) {
            let t = b.position(term);
            assert(b.key(t) == term);
            assert(a.key(t) == term);
        }
    }
}

proof fn lemma_same_places(
    a: PostingList,
    b: PostingList,
    docs: Seq<StoredDocument>,
    other: Seq<StoredDocument>,
    docid: int,
)
    requires
        a.wf(docs),
        b.wf(other),
        same_list(a, b),
    ensures
        a.has_doc(docid) == b.has_doc(docid),
        a.has_doc(docid) ==> a.positions@[a.index_of(docid)]@ == b.positions@[b.index_of(
            docid,
        )]@,
{
    if a.has_doc(docid) {
        let i = a.index_of(docid);
        assert(a.docids@[i] == docid);
        assert(b.docids@[i] == docid);
        b.lemma_index_of(i);
    }
    if b.has_doc(docid) {
        let i = b.index_of(docid);
        assert(b.docids@[i] == docid);
        assert(a.docids@[i] == docid);
    }
}

/// A map that holds all terms of another of the same size holds no others.
proof fn lemma_onto<V, W>(a: text::TermMap<V>, b: text::TermMap<W>, t: int)
    requires
        a.wf(),
        b.wf(),
        a.spec_len() == b.spec_len(),
        forall|i: int| 0 <= i < a.spec_len() ==> b.has(#[trigger] a.key(i)),
        0 <= t < b.spec_len(),
    ensures
        a.has(b.key(t)),
{
    let n = a.spec_len() as int;
    let places = Seq::new(a.spec_len(), |i: int| b.position(a.key(i)));
    assert forall|i: int| 0 <= i < n implies 0 <= #[trigger] places[i] < n && b.key(places[i])
        == a.key(i) by {
        assert(b.has(a.key(i)));
    }
    assert forall|i: int, j: int| 0 <= i < j < n implies #[trigger] places[i]
        != #[trigger] places[j] by {
        assert(b.key(places[i]) == a.key(i) && b.key(places[j]) == a.key(j));
        assert(text::text_before(a.key(i), a.key(j)));
        text::text_order_laws(a.key(i), a.key(i), a.key(i));
    }
    lemma_places(places, n, t);
    let i = choose|i: int| 0 <= i < places.len() && places[i] == t;
    assert(a.key(i) == b.key(t));
}

/// `n` different places below `n` are all there are.
proof fn lemma_places(places: Seq<int>, n: int, place: int)
    requires
        places.len() == n,
        0 <= place < n,
        forall|i: int| 0 <= i < n ==> 0 <= #[trigger] places[i] < n,
        forall|i: int, j: int| 0 <= i < j < n ==> #[trigger] places[i] != #[trigger] places[j],
    ensures
        places.contains(place),
{
    let all = vstd::set_lib::set_int_range(0, n);
    let used = places.to_set();
    vstd::set_lib::lemma_int_range(0, n);
    assert(places.no_duplicates());
    places.unique_seq_to_set();
    if !places.contains(place) {
        assert forall|p: int| used.contains(p) implies all.remove(place).contains(p) by {
            let i = choose|i: int| 0 <= i < places.len() && places[i] == p;
            assert(places[i] == p);
        }
        assert(used.subset_of(all.remove(place)));
        vstd::set_lib::lemma_len_subset(used, all.remove(place));
    }
}

proof fn lemma_same_segment_tally(
    docs: Seq<StoredDocument>,
    other: Seq<StoredDocument>,
    live: spec_fn(int) -> bool,
    live2: spec_fn(int) -> bool,
    weight: spec_fn(StoredDocument) -> nat,
)
    requires
        docs.len() == other.len(),
        forall|d: int| 0 <= d < docs.len() ==> #[trigger] live(d),
        forall|d: int| 0 <= d < docs.len() ==> #[trigger] live2(d),
        forall|d: int| 0 <= d < docs.len() ==> weight(#[trigger] docs[d]) == weight(other[d]),
    ensures
        tally::segment_tally(docs, live, weight) == tally::segment_tally(other, live2, weight),
    decreases docs.len(),
{
    if docs.len() > 0 {
        let last = docs.len() - 1;
        assert(docs[last] == docs.last() && other[last] == other.last());
        assert(live(last) && live2(last));
        assert forall|d: int| 0 <= d < docs.drop_last().len() implies weight(
            #[trigger] docs.drop_last()[d],
        ) == weight(other.drop_last()[d]) by {
            assert(docs[d] == docs.drop_last()[d]);
        }
        lemma_same_segment_tally(docs.drop_last(), other.drop_last(), live, live2, weight);
    }
}

/// Tallies over documents of the same weights are the same.
proof fn lemma_same_tally(
    segments: Seq<Arc<Segment>>,
    other: Seq<Arc<Segment>>,
    live: spec_fn(int, int) -> bool,
    live2: spec_fn(int, int) -> bool,
    weight: spec_fn(StoredDocument) -> nat,
)
    requires
        segments.len() == other.len(),
        forall|s: int|
            0 <= s < segments.len() ==> (#[trigger] segments[s]).docs@.len()
                == other[s].docs@.len(),
        forall|s: int, d: int|
            0 <= s < segments.len() && 0 <= d < segments[s].docs@.len() ==> #[trigger] live(s, d),
        forall|s: int, d: int|
            0 <= s < segments.len() && 0 <= d < segments[s].docs@.len() ==> #[trigger] live2(s, d),
        forall|s: int, d: int|
            0 <= s < segments.len() && 0 <= d < segments[s].docs@.len() ==> weight(
                #[trigger] segments[s].docs@[d],
            ) == weight(other[s].docs@[d]),
    ensures
        tally::tally(segments, live, weight) == tally::tally(other, live2, weight),
    decreases segments.len(),
{
    if segments.len() > 0 {
        let last = segments.len() - 1;
        assert(segments[last] == segments.last() && other[last] == other.last());
        let (docs, other_docs) = (segments.last().docs@, other.last().docs@);
        assert forall|d: int| 0 <= d < docs.len() implies weight(#[trigger] docs[d]) == weight(
            other_docs[d],
        ) by {
            assert(segments[last].docs@[d] == docs[d]);
        }
        lemma_same_segment_tally(
            segments.last().docs@,
            other.last().docs@,
            |d: int| live(last, d),
            |d: int| live2(last, d),
            weight,
        );
        let (front, other_front) = (segments.drop_last(), other.drop_last());
        assert forall|s: int| 0 <= s < front.len() implies (#[trigger] front[s]).docs@.len()
            == other_front[s].docs@.len() by {
            assert(segments[s] == front[s]);
        }
        assert forall|s: int, d: int|
            0 <= s < front.len() && 0 <= d < front[s].docs@.len() implies weight(
            #[trigger] front[s].docs@[d],
        ) == weight(other_front[s].docs@[d]) by {
            assert(segments[s].docs@[d] == front[s].docs@[d]);
        }
        lemma_same_tally(front, other_front, live, live2, weight);
    }
}

/// Reading the checkpoint of a snapshot gives back its generation, its documents,
/// where every term stands in them, and its statistics.
pub proof fn restored_snapshot_is_the_same(saved: Snapshot, read: Snapshot)
    requires
        saved.wf(),
        saved.all_live(),
        read.wf(),
        decoding::restored(read, encoding::snapshot_record(saved)),
    ensures
        read.generation == saved.generation,
        forall|rowid: i64| #[trigger] read.content(rowid) == saved.content(rowid),
        read.segments@.len() == saved.segments@.len(),
        forall|s: int, d: int, term: Seq<char>|
            0 <= s < saved.segments@.len() ==> #[trigger] read.segments@[s].positions(d, term)
                == saved.segments@[s].positions(d, term),
        read.live_docs == saved.live_docs,
        read.total_doc_len == saved.total_doc_len,
        forall|term: Seq<char>| #[trigger] read.df(term) == saved.df(term),
        saved.faithful() ==> read.faithful(),
{
    let written = encoding::snapshot_record(saved);
    assert forall|s: int| 0 <= s < saved.segments@.len() implies
        encoding::segment_record(&#[trigger] read.segments@[s]) == encoding::segment_record(
        &saved.segments@[s],
    ) && read.segments@[s].docs@.len() == saved.segments@[s].docs@.len() && (forall|
        d: int,
        term: Seq<char>,
    | #[trigger]
        read.segments@[s].positions(d, term) == saved.segments@[s].positions(d, term)) && (
    forall|d: int|
        0 <= d < saved.segments@[s].docs@.len() ==> (
        #[trigger] read.segments@[s].docs@[d]).rowid == saved.segments@[s].docs@[d].rowid
            && read.segments@[s].docs@[d].len == saved.segments@[s].docs@[d].len
            && read.segments@[s].docs@[d].texts() == saved.segments@[s].docs@[d].texts()) by {
        assert(written.segments[s] == encoding::segment_record(&saved.segments@[s]));
        assert(saved.segments@[s].wf());
        assert(read.segments@[s].wf());
        restored_segment_is_the_same(&saved.segments@[s], &read.segments@[s]);
    }
    assert forall|rowid: i64| #[trigger] read.content(rowid) == saved.content(rowid) by {
        if saved.content(rowid) is Some {
            let location = saved.latest@[rowid];
            let (s, d) = (location.segment as int, location.docid as int);
            assert(saved.live(s, d));
            assert(read.segments@[s].docs@[d].rowid == rowid);
            assert(read.in_range(s, d));
            assert(read.live(s, d));
        } else if read.content(rowid) is Some {
            let location = read.latest@[rowid];
            let (s, d) = (location.segment as int, location.docid as int);
            assert(read.live(s, d));
            assert(read.segments@[s].docs@[d].rowid == rowid);
            assert(saved.in_range(s, d));
            assert(saved.live(s, d));
        }
    }
    if saved.faithful() {
        assert forall|s: int| 0 <= s < read.segments@.len() implies (
        #[trigger] read.segments@[s]).faithful() by {
            assert(saved.segments@[s].faithful());
            assert forall|d: int, term: Seq<char>|
                0 <= d < read.segments@[s].docs@.len() implies #[trigger] read.segments@[s].positions(
                d,
                term,
            ) == tokenizer::term_occurrences(read.segments@[s].docs@[d].texts(), term) by {
                assert(saved.segments@[s].positions(d, term) == tokenizer::term_occurrences(
                    saved.segments@[s].docs@[d].texts(),
                    term,
                ));
            }
        }
    }
    let (live, live2) = (read.live_fn(), saved.live_fn());
    let (one, length) = (tally::one(), tally::length());
    assert forall|s: int, d: int|
        0 <= s < read.segments@.len() && 0 <= d < read.segments@[s].docs@.len() implies #[trigger]
    live(s, d) by {
        assert(read.in_range(s, d));
    }
    assert forall|s: int, d: int|
        0 <= s < read.segments@.len() && 0 <= d < read.segments@[s].docs@.len() implies #[trigger]
    live2(s, d) by {
        assert(saved.in_range(s, d));
    }
    assert forall|s: int, d: int|
        0 <= s < read.segments@.len() && 0 <= d < read.segments@[s].docs@.len() implies length(
        #[trigger] read.segments@[s].docs@[d],
    ) == length(saved.segments@[s].docs@[d]) by {}
    lemma_same_tally(read.segments@, saved.segments@, live, live2, one);
    lemma_same_tally(read.segments@, saved.segments@, live, live2, length);
    assert forall|term: Seq<char>| #[trigger] read.df(term) == saved.df(term) by {
        let weight = tally::listing(term);
        assert forall|s: int, d: int|
            0 <= s < read.segments@.len() && 0 <= d < read.segments@[s].docs@.len() implies weight(
            #[trigger] read.segments@[s].docs@[d],
        ) == weight(saved.segments@[s].docs@[d]) by {
            assert(read.segments@[s].wf());
            assert(saved.segments@[s].wf());
            assert(read.segments@[s].docs@[d].lists(term) == read.segments@[s].holds(d, term));
            assert(saved.segments@[s].docs@[d].lists(term) == saved.segments@[s].holds(
                d,
                term,
            ));
            assert(read.segments@[s].positions(d, term) == saved.segments@[s].positions(
                d,
                term,
            ));
        }
        lemma_same_tally(read.segments@, saved.segments@, live, live2, weight);
    }
}

/// Every document has between one and 64 fields, and none of them more terms than
/// there are positions.
pub open spec fn writable_contents(current: Snapshot) -> bool {
    forall|rowid: i64|
        (#[trigger] current.content(rowid)) matches Some(fields) ==> 1 <= fields.len() <= 64
            && forall|f: int|
            0 <= f < fields.len() ==> tokenizer::field_terms(#[trigger] fields[f]).len()
                <= 0x400_0000
}

/// A compacted snapshot of writable contents can be restored from its checkpoint.
pub proof fn compacted_snapshot_is_restorable(current: Snapshot)
    requires
        current.wf(),
        current.faithful(),
        current.all_live(),
        forall|s: int|
            0 <= s < current.segments@.len() ==> !(#[trigger] current.segments@[s]).terms.has(
                Seq::empty(),
            ),
        writable_contents(current),
    ensures
        encoding::restorable(current),
{
    assert forall|s: int, d: int| #[trigger] current.in_range(s, d) implies current.content(
        current.doc(s, d).rowid,
    ) == Some(current.doc(s, d).texts()) by {
        assert(current.live(s, d));
    }
    assert forall|s: int| 0 <= s < current.segments@.len() implies encoding::restorable_segment(
        &#[trigger] current.segments@[s],
    ) by {
        let segment = current.segments@[s];
        assert(segment.wf());
        assert(segment.faithful());
        assert forall|d: int| 0 <= d < segment.docs@.len() implies 1 <= (
        #[trigger] segment.docs@[d]).fields@.len() <= 64 by {
            assert(current.in_range(s, d));
            assert(current.content(current.doc(s, d).rowid) is Some);
        }
        assert forall|t: int| 0 <= t < segment.terms.spec_len() implies decoding::strictly_ordered(
            #[trigger] segment.terms.value(t),
        ) by {
            let (term, list) = (segment.terms.key(t), segment.terms.value(t));
            segment.terms.lemma_lookup(t);
            assert(list.wf(segment.docs@));
            assert forall|i: int| 0 <= i < list.positions@.len() implies segment::increasing(
                (#[trigger] list.positions@[i])@,
            ) by {
                let d = list.docids@[i] as int;
                assert(list.docids@[i] < segment.docs@.len());
                list.lemma_index_of(i);
                assert(segment.positions(d, term) == list.positions@[i]@);
                assert(segment.positions(d, term) == tokenizer::term_occurrences(
                    segment.docs@[d].texts(),
                    term,
                ));
                assert(current.in_range(s, d));
                assert(current.content(current.doc(s, d).rowid) is Some);
                tokenizer::term_occurrences_sorted(segment.docs@[d].texts(), term);
            }
        }
    }
}

} // verus!
