//! Writing a snapshot as a checkpoint.
use crate::codec::{put_bytes, put_i64, put_u32, put_u64};
use crate::commit::put_texts;
use crate::decoding;
use crate::error::{invalid_input, Error, Result};
use crate::parsing;
use crate::record;
use crate::record::{DocRecord, Encoded, ListRecord, PostingRecord, SegmentRecord, SnapshotRecord};
use crate::restoring;
use crate::segment;
use crate::segment::{BlockMeta, PostingList, Segment, StoredDocument};
use crate::snapshot::Snapshot;
use crate::text;
use crate::text::{text_order, TextOrder};
use std::sync::Arc;
use vstd::prelude::*;

verus! {

pub open spec fn doc_record(doc: StoredDocument) -> DocRecord {
    DocRecord { rowid: doc.rowid, len: doc.len, fields: doc.texts() }
}

pub open spec fn doc_records(docs: Seq<StoredDocument>) -> Seq<DocRecord> {
    docs.map_values(|doc: StoredDocument| doc_record(doc))
}

pub open spec fn posting_record(list: PostingList, index: int) -> PostingRecord {
    PostingRecord {
        docid: list.docids@[index],
        freq: list.freqs@[index],
        positions: list.positions@[index]@,
    }
}

pub open spec fn posting_records(list: PostingList) -> Seq<PostingRecord> {
    Seq::new(list.docids@.len(), |i: int| posting_record(list, i))
}

pub open spec fn list_record(term: Seq<char>, list: PostingList) -> ListRecord {
    ListRecord {
        term,
        postings: posting_records(list),
        blocks: list.blocks@,
        max_tf: list.max_tf,
        min_doc_len: list.min_doc_len,
    }
}

/// The lists of a segment, in the order of their terms.
pub open spec fn list_records(segment: &Segment) -> Seq<ListRecord> {
    Seq::new(
        segment.terms.spec_len(),
        |t: int| list_record(segment.terms.key(t), segment.terms.value(t)),
    )
}

pub open spec fn segment_record(segment: &Segment) -> SegmentRecord {
    SegmentRecord { docs: doc_records(segment.docs@), lists: list_records(segment) }
}

/// What a checkpoint says of a snapshot.
pub open spec fn snapshot_record(snapshot: Snapshot) -> SnapshotRecord {
    SnapshotRecord {
        generation: snapshot.generation,
        segments: Seq::new(
            snapshot.segments@.len(),
            |s: int| segment_record(&snapshot.segments@[s]),
        ),
    }
}

/// The streams of the list have the same length.
pub open spec fn aligned(list: PostingList) -> bool {
    list.freqs@.len() == list.docids@.len() && list.positions@.len() == list.docids@.len()
}

/// `after` is `before` with the record behind it; or the record has no bytes.
pub open spec fn appended(
    result: Result<()>,
    before: Seq<u8>,
    after: Seq<u8>,
    encoded: Encoded,
) -> bool {
    match encoded {
        Ok(bytes) => result is Ok && after == before + bytes,
        Err(message) => result matches Err(error) && error.is_invalid_input(message),
    }
}

/// One more record of a list is written.
proof fn lemma_step<T>(
    items: Seq<T>,
    encoder: spec_fn(T) -> Encoded,
    index: int,
    written: Seq<u8>,
)
    requires
        0 <= index < items.len(),
    ensures
        record::followed_by(
            Ok(written),
            record::encode_list(items.skip(index), encoder),
        ) == match encoder(items[index]) {
            Ok(bytes) => record::followed_by(
                Ok(written + bytes),
                record::encode_list(items.skip(index + 1), encoder),
            ),
            Err(message) => Err(message),
        },
{
    let left = items.skip(index);
    assert(left.skip(1) =~= items.skip(index + 1));
    match encoder(items[index]) {
        Ok(bytes) => {
            match record::encode_list(items.skip(index + 1), encoder) {
                Ok(tail) => {
                    assert(written + (bytes + tail) =~= (written + bytes) + tail);
                },
                Err(message) => {},
            }
        },
        Err(message) => {},
    }
}

/// Nothing is left of a list.
proof fn lemma_done<T>(items: Seq<T>, encoder: spec_fn(T) -> Encoded, written: Seq<u8>)
    ensures
        record::followed_by(
            Ok(written),
            record::encode_list(items.skip(items.len() as int), encoder),
        ) == Ok::<Seq<u8>, Seq<char>>(written),
{
    assert(items.skip(items.len() as int).len() == 0);
    assert(written + Seq::<u8>::empty() =~= written);
}

/// Nothing is written of a list yet.
proof fn lemma_start<T>(items: Seq<T>, encoder: spec_fn(T) -> Encoded)
    ensures
        record::followed_by(
            Ok(Seq::<u8>::empty()),
            record::encode_list(items.skip(0), encoder),
        ) == record::encode_list(items, encoder),
{
    assert(items.skip(0) =~= items);
    match record::encode_list(items, encoder) {
        Ok(bytes) => {
            assert(Seq::<u8>::empty() + bytes =~= bytes);
        },
        Err(message) => {},
    }
}

proof fn lemma_texts_encode(texts: Seq<Seq<char>>)
    ensures
        record::encode_list(texts, record::text_encoder()) == if forall|i: int|
            0 <= i < texts.len() ==> parsing::storable(#[trigger] texts[i]) {
            Ok::<Seq<u8>, Seq<char>>(parsing::list_bytes(texts, parsing::text_encoder()))
        } else {
            Err("value exceeds 4 GiB storage limit"@)
        },
    decreases texts.len(),
{
    if texts.len() > 0 {
        let rest = texts.skip(1);
        lemma_texts_encode(rest);
        if forall|i: int| 0 <= i < texts.len() ==> parsing::storable(#[trigger] texts[i]) {
            assert forall|i: int| 0 <= i < rest.len() implies parsing::storable(
                #[trigger] rest[i],
            ) by {
                assert(parsing::storable(texts[i + 1]));
            }
            assert(parsing::storable(texts[0]));
        } else {
            if parsing::storable(texts[0]) && forall|i: int|
                0 <= i < rest.len() ==> parsing::storable(#[trigger] rest[i]) {
                assert forall|i: int| 0 <= i < texts.len() implies parsing::storable(
                    #[trigger] texts[i],
                ) by {
                    if i > 0 {
                        assert(parsing::storable(rest[i - 1]));
                    }
                }
            }
        }
    }
}

/// Writes a number of records.
pub fn put_len(out: &mut Vec<u8>, len: usize, what: &str) -> (result: Result<()>)
    ensures
        appended(result, old(out)@, final(out)@, record::encode_count(len as nat, what@)),
{
    if len > u32::MAX as usize {
        let mut message = what.to_owned();
        message.append(" count exceeds 32-bit format limit");
        return Err(Error::InvalidInput(message));
    }
    put_u32(out, len as u32);
    Ok(())
}

fn put_doc(out: &mut Vec<u8>, doc: &StoredDocument) -> (result: Result<()>)
    ensures
        appended(result, old(out)@, final(out)@, record::encode_doc(doc_record(*doc))),
{
    let ghost before = out@;
    put_i64(out, doc.rowid);
    put_u32(out, doc.len);
    match put_len(out, doc.fields.len(), "field") {
        Ok(_) => {},
        Err(error) => return Err(error),
    }
    proof {
        lemma_texts_encode(doc.texts());
    }
    match put_texts(out, &doc.fields) {
        Ok(_) => {},
        Err(error) => return Err(error),
    }
    assert(out@ =~= before + record::encode_doc(doc_record(*doc))->Ok_0);
    Ok(())
}

fn put_docs(out: &mut Vec<u8>, docs: &Vec<StoredDocument>) -> (result: Result<()>)
    ensures
        appended(
            result,
            old(out)@,
            final(out)@,
            record::encode_list(doc_records(docs@), record::doc_encoder()),
        ),
{
    let ghost items = doc_records(docs@);
    let ghost encoder = record::doc_encoder();
    let ghost start = out@;
    let ghost mut written = Seq::<u8>::empty();
    let mut done: usize = 0;
    proof {
        lemma_start(items, encoder);
    }
    assert(start + written =~= start);
    while done < docs.len()
        invariant
            done <= docs@.len(),
            items == doc_records(docs@),
            encoder == record::doc_encoder(),
            start == old(out)@,
            out@ == start + written,
            record::encode_list(items, encoder) == record::followed_by(
                Ok(written),
                record::encode_list(items.skip(done as int), encoder),
            ),
        decreases docs@.len() - done,
    {
        proof {
            lemma_step(items, encoder, done as int, written);
            assert(items[done as int] == doc_record(docs@[done as int]));
        }
        let ghost before = out@;
        match put_doc(out, &docs[done]) {
            Ok(_) => {},
            Err(error) => return Err(error),
        }
        proof {
            let bytes = encoder(items[done as int])->Ok_0;
            assert(out@ =~= start + (written + bytes));
            written = written + bytes;
        }
        done = done + 1;
    }
    proof {
        lemma_done(items, encoder, written);
    }
    Ok(())
}

fn put_numbers(out: &mut Vec<u8>, numbers: &Vec<u32>) -> (result: Result<()>)
    ensures
        appended(
            result,
            old(out)@,
            final(out)@,
            record::encode_list(numbers@, record::number_encoder()),
        ),
{
    let ghost items = numbers@;
    let ghost encoder = record::number_encoder();
    let ghost start = out@;
    let ghost mut written = Seq::<u8>::empty();
    let mut done: usize = 0;
    proof {
        lemma_start(items, encoder);
    }
    assert(start + written =~= start);
    while done < numbers.len()
        invariant
            done <= numbers@.len(),
            items == numbers@,
            encoder == record::number_encoder(),
            start == old(out)@,
            out@ == start + written,
            record::encode_list(items, encoder) == record::followed_by(
                Ok(written),
                record::encode_list(items.skip(done as int), encoder),
            ),
        decreases numbers@.len() - done,
    {
        proof {
            lemma_step(items, encoder, done as int, written);
        }
        put_u32(out, numbers[done]);
        proof {
            let bytes = encoder(items[done as int])->Ok_0;
            assert(out@ =~= start + (written + bytes));
            written = written + bytes;
        }
        done = done + 1;
    }
    proof {
        lemma_done(items, encoder, written);
    }
    Ok(())
}

fn put_posting(out: &mut Vec<u8>, list: &PostingList, index: usize) -> (result: Result<()>)
    requires
        aligned(*list),
        index < list.docids@.len(),
    ensures
        appended(
            result,
            old(out)@,
            final(out)@,
            record::encode_posting(posting_record(*list, index as int)),
        ),
{
    let ghost before = out@;
    put_u32(out, list.docids[index]);
    put_u32(out, list.freqs[index]);
    match put_len(out, list.positions[index].len(), "position") {
        Ok(_) => {},
        Err(error) => return Err(error),
    }
    match put_numbers(out, &list.positions[index]) {
        Ok(_) => {},
        Err(error) => return Err(error),
    }
    assert(out@ =~= before + record::encode_posting(posting_record(*list, index as int))->Ok_0);
    Ok(())
}

fn put_postings(out: &mut Vec<u8>, list: &PostingList) -> (result: Result<()>)
    requires
        aligned(*list),
    ensures
        appended(
            result,
            old(out)@,
            final(out)@,
            record::encode_list(posting_records(*list), record::posting_encoder()),
        ),
{
    let ghost items = posting_records(*list);
    let ghost encoder = record::posting_encoder();
    let ghost start = out@;
    let ghost mut written = Seq::<u8>::empty();
    let mut done: usize = 0;
    proof {
        lemma_start(items, encoder);
    }
    assert(start + written =~= start);
    while done < list.docids.len()
        invariant
            done <= list.docids@.len(),
            aligned(*list),
            items == posting_records(*list),
            encoder == record::posting_encoder(),
            start == old(out)@,
            out@ == start + written,
            record::encode_list(items, encoder) == record::followed_by(
                Ok(written),
                record::encode_list(items.skip(done as int), encoder),
            ),
        decreases list.docids@.len() - done,
    {
        proof {
            lemma_step(items, encoder, done as int, written);
            assert(items[done as int] == posting_record(*list, done as int));
        }
        match put_posting(out, list, done) {
            Ok(_) => {},
            Err(error) => return Err(error),
        }
        proof {
            let bytes = encoder(items[done as int])->Ok_0;
            assert(out@ =~= start + (written + bytes));
            written = written + bytes;
        }
        done = done + 1;
    }
    proof {
        lemma_done(items, encoder, written);
    }
    Ok(())
}

fn put_blocks(out: &mut Vec<u8>, blocks: &Vec<BlockMeta>) -> (result: Result<()>)
    ensures
        appended(
            result,
            old(out)@,
            final(out)@,
            record::encode_list(blocks@, record::block_encoder()),
        ),
{
    let ghost items = blocks@;
    let ghost encoder = record::block_encoder();
    let ghost start = out@;
    let ghost mut written = Seq::<u8>::empty();
    let mut done: usize = 0;
    proof {
        lemma_start(items, encoder);
    }
    assert(start + written =~= start);
    while done < blocks.len()
        invariant
            done <= blocks@.len(),
            items == blocks@,
            encoder == record::block_encoder(),
            start == old(out)@,
            out@ == start + written,
            record::encode_list(items, encoder) == record::followed_by(
                Ok(written),
                record::encode_list(items.skip(done as int), encoder),
            ),
        decreases blocks@.len() - done,
    {
        proof {
            lemma_step(items, encoder, done as int, written);
        }
        let block = blocks[done];
        put_u32(out, block.end);
        put_u32(out, block.last_docid);
        put_u32(out, block.max_tf);
        put_u32(out, block.min_doc_len);
        proof {
            let bytes = encoder(items[done as int])->Ok_0;
            assert(out@ =~= start + (written + bytes));
            written = written + bytes;
        }
        done = done + 1;
    }
    proof {
        lemma_done(items, encoder, written);
    }
    Ok(())
}

#[verifier::rlimit(20)]
fn put_list(out: &mut Vec<u8>, term: &str, list: &PostingList) -> (result: Result<()>)
    requires
        aligned(*list),
    ensures
        appended(
            result,
            old(out)@,
            final(out)@,
            record::encode_posting_list(list_record(term@, *list)),
        ),
{
    let ghost before = out@;
    match put_bytes(out, term.as_bytes()) {
        Ok(_) => {},
        Err(error) => return Err(error),
    }
    match put_len(out, list.docids.len(), "posting") {
        Ok(_) => {},
        Err(error) => return Err(error),
    }
    match put_postings(out, list) {
        Ok(_) => {},
        Err(error) => return Err(error),
    }
    match put_len(out, list.blocks.len(), "block") {
        Ok(_) => {},
        Err(error) => return Err(error),
    }
    match put_blocks(out, &list.blocks) {
        Ok(_) => {},
        Err(error) => return Err(error),
    }
    put_u32(out, list.max_tf);
    put_u32(out, list.min_doc_len);
    assert(out@ =~= before + record::encode_posting_list(list_record(term@, *list))->Ok_0);
    Ok(())
}

fn put_lists(out: &mut Vec<u8>, segment: &Segment) -> (result: Result<()>)
    requires
        forall|t: int|
            0 <= t < segment.terms.spec_len() ==> aligned(#[trigger] segment.terms.value(t)),
    ensures
        appended(
            result,
            old(out)@,
            final(out)@,
            record::encode_list(list_records(segment), record::list_encoder()),
        ),
{
    let ghost items = list_records(segment);
    let ghost encoder = record::list_encoder();
    let ghost start = out@;
    let ghost mut written = Seq::<u8>::empty();
    let mut done: usize = 0;
    proof {
        lemma_start(items, encoder);
    }
    assert(start + written =~= start);
    while done < segment.terms.entries.len()
        invariant
            done <= segment.terms.spec_len(),
            forall|t: int|
                0 <= t < segment.terms.spec_len() ==> aligned(#[trigger] segment.terms.value(t)),
            items == list_records(segment),
            encoder == record::list_encoder(),
            start == old(out)@,
            out@ == start + written,
            record::encode_list(items, encoder) == record::followed_by(
                Ok(written),
                record::encode_list(items.skip(done as int), encoder),
            ),
        decreases segment.terms.spec_len() - done,
    {
        let entry = &segment.terms.entries[done];
        proof {
            lemma_step(items, encoder, done as int, written);
            assert(aligned(segment.terms.value(done as int)));
            assert(items[done as int] == list_record(entry.0@, entry.1));
        }
        match put_list(out, entry.0.as_str(), &entry.1) {
            Ok(_) => {},
            Err(error) => return Err(error),
        }
        proof {
            let bytes = encoder(items[done as int])->Ok_0;
            assert(out@ =~= start + (written + bytes));
            written = written + bytes;
        }
        done = done + 1;
    }
    proof {
        lemma_done(items, encoder, written);
    }
    Ok(())
}

fn put_segment(out: &mut Vec<u8>, segment: &Segment) -> (result: Result<()>)
    requires
        forall|t: int|
            0 <= t < segment.terms.spec_len() ==> aligned(#[trigger] segment.terms.value(t)),
    ensures
        appended(
            result,
            old(out)@,
            final(out)@,
            record::encode_segment(segment_record(segment)),
        ),
{
    let ghost before = out@;
    match put_len(out, segment.docs.len(), "document") {
        Ok(_) => {},
        Err(error) => return Err(error),
    }
    match put_docs(out, &segment.docs) {
        Ok(_) => {},
        Err(error) => return Err(error),
    }
    match put_len(out, segment.terms.entries.len(), "term") {
        Ok(_) => {},
        Err(error) => return Err(error),
    }
    match put_lists(out, segment) {
        Ok(_) => {},
        Err(error) => return Err(error),
    }
    assert(out@ =~= before + record::encode_segment(segment_record(segment))->Ok_0);
    Ok(())
}

/// What a checkpoint can carry of a segment: documents of one to 64 fields, terms
/// with characters, and positions that stand once.
pub open spec fn restorable_segment(segment: &Segment) -> bool {
    &&& forall|d: int|
        0 <= d < segment.docs@.len() ==> 1 <= (#[trigger] segment.docs@[d]).fields@.len() <= 64
    &&& !segment.terms.has(Seq::empty())
    &&& forall|t: int|
        0 <= t < segment.terms.spec_len() ==> decoding::strictly_ordered(
            #[trigger] segment.terms.value(t),
        )
}

pub open spec fn restorable_segments(segments: Seq<Arc<Segment>>) -> bool {
    forall|s: int| 0 <= s < segments.len() ==> restorable_segment(&#[trigger] segments[s])
}

/// What a checkpoint can carry: restorable segments without replaced or deleted
/// documents.
pub open spec fn restorable(current: Snapshot) -> bool {
    current.all_live() && restorable_segments(current.segments@)
}

/// Whether each number is greater than those before it.
fn is_increasing(numbers: &Vec<u32>) -> (result: bool)
    ensures
        result == segment::increasing(numbers@),
{
    let mut done: usize = 1;
    while done < numbers.len()
        invariant
            1 <= done,
            forall|i: int, j: int|
                0 <= i < j < done && j < numbers@.len() ==> #[trigger] numbers@[i]
                    < #[trigger] numbers@[j],
        decreases numbers@.len() - done,
    {
        if numbers[done - 1] >= numbers[done] {
            return false;
        }
        assert forall|i: int, j: int|
            0 <= i < j < done + 1 && j < numbers@.len() implies #[trigger] numbers@[i]
            < #[trigger] numbers@[j] by {
            if j == done && i < done - 1 {
                assert(numbers@[i] < numbers@[done - 1]);
            }
        }
        done = done + 1;
    }
    true
}

fn is_strictly_ordered(list: &PostingList) -> (result: bool)
    ensures
        result == decoding::strictly_ordered(*list),
{
    let mut done: usize = 0;
    while done < list.positions.len()
        invariant
            done <= list.positions@.len(),
            forall|i: int|
                0 <= i < done ==> segment::increasing((#[trigger] list.positions@[i])@),
        decreases list.positions@.len() - done,
    {
        if !is_increasing(&list.positions[done]) {
            assert(!segment::increasing(list.positions@[done as int]@));
            return false;
        }
        done = done + 1;
    }
    true
}

/// The term has characters, and its positions stand once.
spec fn restorable_list(segment: &Segment, t: int) -> bool {
    segment.terms.key(t).len() > 0 && decoding::strictly_ordered(segment.terms.value(t))
}

/// Whether a checkpoint can carry the segment.
fn is_restorable_segment(segment: &Segment) -> (result: bool)
    ensures
        result == restorable_segment(segment),
{
    let mut done: usize = 0;
    while done < segment.docs.len()
        invariant
            done <= segment.docs@.len(),
            forall|d: int|
                0 <= d < done ==> 1 <= (#[trigger] segment.docs@[d]).fields@.len() <= 64,
        decreases segment.docs@.len() - done,
    {
        let count: usize = segment.docs[done].fields.len();
        if count == 0 || count > 64 {
            assert(!(1 <= segment.docs@[done as int].fields@.len() <= 64));
            return false;
        }
        done = done + 1;
    }
    let mut index: usize = 0;
    while index < segment.terms.entries.len()
        invariant
            index <= segment.terms.spec_len(),
            forall|t: int| 0 <= t < index ==> #[trigger] restorable_list(segment, t),
        decreases segment.terms.spec_len() - index,
    {
        let entry = &segment.terms.entries[index];
        proof {
            reveal_strlit("");
            assert(""@ =~= Seq::<char>::empty());
            assert(segment.terms.key(index as int) == entry.0@);
        }
        match text_order(entry.0.as_str(), "") {
            TextOrder::Same => {
                assert(segment.terms.has(Seq::empty()));
                return false;
            },
            _ => {
                proof {
                    text::text_order_laws(entry.0@, entry.0@, entry.0@);
                    assert(entry.0@ != ""@);
                }
            },
        }
        if !is_strictly_ordered(&entry.1) {
            assert(!decoding::strictly_ordered(segment.terms.value(index as int)));
            return false;
        }
        proof {
            if segment.terms.key(index as int).len() == 0 {
                assert(segment.terms.key(index as int) =~= ""@);
            }
            assert(restorable_list(segment, index as int));
        }
        index = index + 1;
    }
    assert(!segment.terms.has(Seq::empty())) by {
        if segment.terms.has(Seq::empty()) {
            let t = segment.terms.position(Seq::empty());
            assert(restorable_list(segment, t));
        }
    }
    assert forall|t: int|
        0 <= t < segment.terms.spec_len() implies decoding::strictly_ordered(
        #[trigger] segment.terms.value(t),
    ) by {
        assert(restorable_list(segment, t));
    }
    true
}

/// Whether a checkpoint can carry all segments.
fn are_restorable(segments: &Vec<Arc<Segment>>) -> (result: bool)
    ensures
        result == restorable_segments(segments@),
{
    let mut done: usize = 0;
    while done < segments.len()
        invariant
            done <= segments@.len(),
            forall|s: int| 0 <= s < done ==> restorable_segment(&#[trigger] segments@[s]),
        decreases segments@.len() - done,
    {
        if !is_restorable_segment(&segments[done]) {
            assert(!restorable_segment(&segments@[done as int]));
            return false;
        }
        done = done + 1;
    }
    true
}

/// The bytes of a checkpoint of the snapshot, or why it has none: what is written can
/// be read again.
pub open spec fn encoded(current: Snapshot) -> Encoded {
    if restorable_segments(current.segments@) {
        record::encode_record(snapshot_record(current))
    } else {
        Err("snapshot cannot be restored from a checkpoint"@)
    }
}

/// The bytes of a checkpoint of the snapshot.
pub fn encode_snapshot(snapshot: &Snapshot) -> (result: Result<Vec<u8>>)
    requires
        forall|s: int, t: int|
            0 <= s < snapshot.segments@.len() && 0 <= t < snapshot.segments@[s].terms.spec_len()
                ==> aligned(#[trigger] snapshot.segments@[s].terms.value(t)),
    ensures
        match encoded(*snapshot) {
            Ok(bytes) => result matches Ok(payload) && payload@ == bytes,
            Err(message) => result matches Err(error) && error.is_invalid_input(message),
        },
        snapshot.wf() && snapshot.all_live() ==> (result matches Ok(payload)
            ==> record::parse_record(payload@) == Ok::<SnapshotRecord, Error>(
            snapshot_record(*snapshot),
        )),
{
    proof {
        restoring::written_record_is_read(*snapshot);
    }
    if !are_restorable(&snapshot.segments) {
        return Err(invalid_input("snapshot cannot be restored from a checkpoint"));
    }
    let ghost items = snapshot_record(*snapshot).segments;
    let ghost encoder = record::segment_encoder();
    let mut out: Vec<u8> = Vec::new();
    put_u64(&mut out, snapshot.generation);
    match put_len(&mut out, snapshot.segments.len(), "segment") {
        Ok(_) => {},
        Err(error) => return Err(error),
    }
    let ghost start = out@;
    let ghost mut written = Seq::<u8>::empty();
    let mut done: usize = 0;
    proof {
        lemma_start(items, encoder);
    }
    assert(start + written =~= start);
    while done < snapshot.segments.len()
        invariant
            done <= snapshot.segments@.len() <= u32::MAX,
            forall|s: int, t: int|
                0 <= s < snapshot.segments@.len() && 0 <= t
                    < snapshot.segments@[s].terms.spec_len() ==> aligned(
                    #[trigger] snapshot.segments@[s].terms.value(t),
                ),
            items == snapshot_record(*snapshot).segments,
            encoder == record::segment_encoder(),
            out@ == start + written,
            record::encode_list(items, encoder) == record::followed_by(
                Ok(written),
                record::encode_list(items.skip(done as int), encoder),
            ),
            restorable_segments(snapshot.segments@),
        decreases snapshot.segments@.len() - done,
    {
        proof {
            lemma_step(items, encoder, done as int, written);
            assert(items[done as int] == segment_record(&snapshot.segments@[done as int]));
        }
        match put_segment(&mut out, &snapshot.segments[done]) {
            Ok(_) => {},
            Err(error) => return Err(error),
        }
        proof {
            let bytes = encoder(items[done as int])->Ok_0;
            assert(out@ =~= start + (written + bytes));
            written = written + bytes;
        }
        done = done + 1;
    }
    proof {
        lemma_done(items, encoder, written);
        assert(out@ =~= record::encode_record(snapshot_record(*snapshot))->Ok_0);
    }
    Ok(out)
}

} // verus!
