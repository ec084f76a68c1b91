//! What a checkpoint holds, and which databases can be saved.
use crate::codec;
use crate::encoding;
use crate::encoding::encode_snapshot;
use crate::error::Result;
use crate::logging;
use crate::logging::{four_digits, measured};
use crate::record;
use crate::record::{
    encode_list, encode_record, DocRecord, Encoded, ListRecord, PostingRecord, SegmentRecord,
    SnapshotRecord,
};
use crate::segment::BlockMeta;
use crate::snapshot::Snapshot;
use vstd::prelude::*;
use vstd::utf8::encode_utf8;

verus! {

broadcast use crate::codec::le_bytes_len;

/// A number that four bytes can hold.
pub open spec fn counted(number: nat) -> bool {
    number < 0x1_0000_0000
}

/// A document as it stands in a checkpoint.
pub open spec fn kept_doc(doc: DocRecord) -> Seq<u8> {
    codec::i64_bytes(doc.rowid) + four_digits(doc.len as nat) + four_digits(doc.fields.len())
        + doc.fields.map_values(|field: Seq<char>| measured(field)).flatten()
}

pub open spec fn countable_doc(doc: DocRecord) -> bool {
    &&& counted(doc.fields.len())
    &&& forall|f: int|
        0 <= f < doc.fields.len() ==> counted(encode_utf8(#[trigger] doc.fields[f]).len())
}

/// A posting as it stands in a checkpoint.
pub open spec fn kept_posting(posting: PostingRecord) -> Seq<u8> {
    four_digits(posting.docid as nat) + four_digits(posting.freq as nat) + four_digits(
        posting.positions.len(),
    ) + posting.positions.map_values(|position: u32| four_digits(position as nat)).flatten()
}

/// The description of a block as it stands in a checkpoint.
pub open spec fn kept_block(block: BlockMeta) -> Seq<u8> {
    four_digits(block.end as nat) + four_digits(block.last_docid as nat) + four_digits(
        block.max_tf as nat,
    ) + four_digits(block.min_doc_len as nat)
}

/// The postings of a term as they stand in a checkpoint.
pub open spec fn kept_list(list: ListRecord) -> Seq<u8> {
    measured(list.term) + four_digits(list.postings.len()) + list.postings.map_values(
        |posting: PostingRecord| kept_posting(posting),
    ).flatten() + four_digits(list.blocks.len()) + list.blocks.map_values(
        |block: BlockMeta| kept_block(block),
    ).flatten() + four_digits(list.max_tf as nat) + four_digits(list.min_doc_len as nat)
}

pub open spec fn countable_list(list: ListRecord) -> bool {
    &&& counted(encode_utf8(list.term).len())
    &&& counted(list.postings.len())
    &&& forall|p: int|
        0 <= p < list.postings.len() ==> counted((#[trigger] list.postings[p]).positions.len())
    &&& counted(list.blocks.len())
}

/// A segment as it stands in a checkpoint.
pub open spec fn kept_segment(segment: SegmentRecord) -> Seq<u8> {
    four_digits(segment.docs.len()) + segment.docs.map_values(
        |doc: DocRecord| kept_doc(doc),
    ).flatten() + four_digits(segment.lists.len()) + segment.lists.map_values(
        |list: ListRecord| kept_list(list),
    ).flatten()
}

pub open spec fn countable_segment(segment: SegmentRecord) -> bool {
    &&& counted(segment.docs.len())
    &&& forall|d: int| 0 <= d < segment.docs.len() ==> countable_doc(#[trigger] segment.docs[d])
    &&& counted(segment.lists.len())
    &&& forall|t: int| 0 <= t < segment.lists.len() ==> countable_list(#[trigger] segment.lists[t])
}

/// A checkpoint.
pub open spec fn kept_checkpoint(saved: SnapshotRecord) -> Seq<u8> {
    codec::u64_bytes(saved.generation) + four_digits(saved.segments.len())
        + saved.segments.map_values(|segment: SegmentRecord| kept_segment(segment)).flatten()
}

/// All numbers of records, and all lengths of texts, can be held by four bytes.
pub open spec fn countable(saved: SnapshotRecord) -> bool {
    &&& counted(saved.segments.len())
    &&& forall|s: int|
        0 <= s < saved.segments.len() ==> countable_segment(#[trigger] saved.segments[s])
}

/// Records can be written together if each can be, one behind the other.
proof fn lemma_written<T>(
    items: Seq<T>,
    encoder: spec_fn(T) -> Encoded,
    good: spec_fn(T) -> bool,
    bytes: spec_fn(T) -> Seq<u8>,
)
    requires
        forall|i: int|
            0 <= i < items.len() ==> (encoder(#[trigger] items[i]) is Ok == good(items[i])) && (
            good(items[i]) ==> encoder(items[i]) == Ok::<Seq<u8>, Seq<char>>(bytes(items[i]))),
    ensures
        encode_list(items, encoder) is Ok <==> forall|i: int|
            0 <= i < items.len() ==> good(#[trigger] items[i]),
        encode_list(items, encoder) is Ok ==> encode_list(items, encoder) == Ok::<
            Seq<u8>,
            Seq<char>,
        >(items.map_values(bytes).flatten()),
    decreases items.len(),
{
    let all = items.map_values(bytes);
    if items.len() == 0 {
        assert(all =~= Seq::empty());
        assert(all.flatten() =~= Seq::empty());
    } else {
        let rest = items.skip(1);
        assert forall|i: int| 0 <= i < rest.len() implies (encoder(#[trigger] rest[i]) is Ok
            == good(rest[i])) && (good(rest[i]) ==> encoder(rest[i]) == Ok::<Seq<u8>, Seq<char>>(
            bytes(rest[i]),
        )) by {
            assert(rest[i] == items[i + 1]);
        }
        lemma_written(rest, encoder, good, bytes);
        assert(all.drop_first() =~= rest.map_values(bytes));
        assert(all.flatten() =~= all[0] + all.drop_first().flatten());
        assert(encoder(items[0]) is Ok == good(items[0]));
        if encode_list(rest, encoder) is Ok && good(items[0]) {
            assert forall|i: int| 0 <= i < items.len() implies good(#[trigger] items[i]) by {
                if i > 0 {
                    assert(good(rest[i - 1]));
                }
            }
        }
        if forall|i: int| 0 <= i < items.len() ==> good(#[trigger] items[i]) {
            assert forall|i: int| 0 <= i < rest.len() implies good(#[trigger] rest[i]) by {
                assert(rest[i] == items[i + 1]);
            }
        }
    }
}

proof fn lemma_doc(doc: DocRecord)
    ensures
        record::encode_doc(doc) is Ok == countable_doc(doc),
        countable_doc(doc) ==> record::encode_doc(doc) == Ok::<Seq<u8>, Seq<char>>(kept_doc(doc)),
{
    logging::lemma_four(doc.len as nat);
    logging::lemma_four(doc.fields.len());
    let good = |field: Seq<char>| counted(encode_utf8(field).len());
    let bytes = |field: Seq<char>| measured(field);
    let encoder = record::text_encoder();
    assert forall|i: int| 0 <= i < doc.fields.len() implies (encoder(
        #[trigger] doc.fields[i],
    ) is Ok == good(doc.fields[i])) && (good(doc.fields[i]) ==> encoder(doc.fields[i]) == Ok::<
        Seq<u8>,
        Seq<char>,
    >(bytes(doc.fields[i]))) by {
        logging::lemma_four(encode_utf8(doc.fields[i]).len());
    }
    lemma_written(doc.fields, encoder, good, bytes);
    if countable_doc(doc) {
        assert forall|i: int| 0 <= i < doc.fields.len() implies good(#[trigger] doc.fields[i]) by {}
        assert(record::encode_doc(doc)->Ok_0 =~= kept_doc(doc));
    } else if counted(doc.fields.len()) && (forall|i: int|
        0 <= i < doc.fields.len() ==> good(#[trigger] doc.fields[i])) {
        assert forall|f: int| 0 <= f < doc.fields.len() implies counted(
            encode_utf8(#[trigger] doc.fields[f]).len(),
        ) by {
            assert(good(doc.fields[f]));
        }
    }
}

proof fn lemma_posting(posting: PostingRecord)
    ensures
        record::encode_posting(posting) is Ok == counted(posting.positions.len()),
        counted(posting.positions.len()) ==> record::encode_posting(posting) == Ok::<
            Seq<u8>,
            Seq<char>,
        >(kept_posting(posting)),
{
    logging::lemma_four(posting.docid as nat);
    logging::lemma_four(posting.freq as nat);
    logging::lemma_four(posting.positions.len());
    let good = |position: u32| true;
    let bytes = |position: u32| four_digits(position as nat);
    let encoder = record::number_encoder();
    assert forall|i: int| 0 <= i < posting.positions.len() implies (encoder(
        #[trigger] posting.positions[i],
    ) is Ok == good(posting.positions[i])) && (good(posting.positions[i]) ==> encoder(
        posting.positions[i],
    ) == Ok::<Seq<u8>, Seq<char>>(bytes(posting.positions[i]))) by {
        logging::lemma_four(posting.positions[i] as nat);
    }
    lemma_written(posting.positions, encoder, good, bytes);
    if counted(posting.positions.len()) {
        assert(record::encode_posting(posting)->Ok_0 =~= kept_posting(posting));
    }
}

proof fn lemma_blocks(blocks: Seq<BlockMeta>)
    ensures
        encode_list(blocks, record::block_encoder()) == Ok::<Seq<u8>, Seq<char>>(
            blocks.map_values(|block: BlockMeta| kept_block(block)).flatten(),
        ),
{
    let good = |block: BlockMeta| true;
    let bytes = |block: BlockMeta| kept_block(block);
    let encoder = record::block_encoder();
    assert forall|i: int| 0 <= i < blocks.len() implies (encoder(#[trigger] blocks[i]) is Ok
        == good(blocks[i])) && (good(blocks[i]) ==> encoder(blocks[i]) == Ok::<
        Seq<u8>,
        Seq<char>,
    >(bytes(blocks[i]))) by {
        let block = blocks[i];
        logging::lemma_four(block.end as nat);
        logging::lemma_four(block.last_docid as nat);
        logging::lemma_four(block.max_tf as nat);
        logging::lemma_four(block.min_doc_len as nat);
        assert(record::block_bytes(block) =~= kept_block(block));
    }
    lemma_written(blocks, encoder, good, bytes);
}

proof fn lemma_list(list: ListRecord)
    ensures
        record::encode_posting_list(list) is Ok == countable_list(list),
        countable_list(list) ==> record::encode_posting_list(list) == Ok::<Seq<u8>, Seq<char>>(
            kept_list(list),
        ),
{
    logging::lemma_four(encode_utf8(list.term).len());
    logging::lemma_four(list.postings.len());
    logging::lemma_four(list.blocks.len());
    logging::lemma_four(list.max_tf as nat);
    logging::lemma_four(list.min_doc_len as nat);
    let good = |posting: PostingRecord| counted(posting.positions.len());
    let bytes = |posting: PostingRecord| kept_posting(posting);
    let encoder = record::posting_encoder();
    assert forall|i: int| 0 <= i < list.postings.len() implies (encoder(
        #[trigger] list.postings[i],
    ) is Ok == good(list.postings[i])) && (good(list.postings[i]) ==> encoder(list.postings[i])
        == Ok::<Seq<u8>, Seq<char>>(bytes(list.postings[i]))) by {
        lemma_posting(list.postings[i]);
    }
    lemma_written(list.postings, encoder, good, bytes);
    lemma_blocks(list.blocks);
    if countable_list(list) {
        assert forall|i: int| 0 <= i < list.postings.len() implies good(
            #[trigger] list.postings[i],
        ) by {}
        assert(record::encode_posting_list(list)->Ok_0 =~= kept_list(list));
    } else if forall|i: int| 0 <= i < list.postings.len() ==> good(#[trigger] list.postings[i]) {
        assert forall|p: int| 0 <= p < list.postings.len() implies counted(
            (#[trigger] list.postings[p]).positions.len(),
        ) by {
            assert(good(list.postings[p]));
        }
    }
}

proof fn lemma_segment(segment: SegmentRecord)
    ensures
        record::encode_segment(segment) is Ok == countable_segment(segment),
        countable_segment(segment) ==> record::encode_segment(segment) == Ok::<
            Seq<u8>,
            Seq<char>,
        >(kept_segment(segment)),
{
    logging::lemma_four(segment.docs.len());
    logging::lemma_four(segment.lists.len());
    let good = |doc: DocRecord| countable_doc(doc);
    let bytes = |doc: DocRecord| kept_doc(doc);
    let encoder = record::doc_encoder();
    assert forall|i: int| 0 <= i < segment.docs.len() implies (encoder(
        #[trigger] segment.docs[i],
    ) is Ok == good(segment.docs[i])) && (good(segment.docs[i]) ==> encoder(segment.docs[i])
        == Ok::<Seq<u8>, Seq<char>>(bytes(segment.docs[i]))) by {
        lemma_doc(segment.docs[i]);
    }
    lemma_written(segment.docs, encoder, good, bytes);
    let good2 = |list: ListRecord| countable_list(list);
    let bytes2 = |list: ListRecord| kept_list(list);
    let encoder2 = record::list_encoder();
    assert forall|i: int| 0 <= i < segment.lists.len() implies (encoder2(
        #[trigger] segment.lists[i],
    ) is Ok == good2(segment.lists[i])) && (good2(segment.lists[i]) ==> encoder2(
        segment.lists[i],
    ) == Ok::<Seq<u8>, Seq<char>>(bytes2(segment.lists[i]))) by {
        lemma_list(segment.lists[i]);
    }
    lemma_written(segment.lists, encoder2, good2, bytes2);
    if countable_segment(segment) {
        assert forall|i: int| 0 <= i < segment.docs.len() implies good(
            #[trigger] segment.docs[i],
        ) by {}
        assert forall|i: int| 0 <= i < segment.lists.len() implies good2(
            #[trigger] segment.lists[i],
        ) by {}
        assert(record::encode_segment(segment)->Ok_0 =~= kept_segment(segment));
    } else if record::encode_segment(segment) is Ok {
        assert forall|d: int| 0 <= d < segment.docs.len() implies countable_doc(
            #[trigger] segment.docs[d],
        ) by {
            assert(good(segment.docs[d]));
        }
        assert forall|t: int| 0 <= t < segment.lists.len() implies countable_list(
            #[trigger] segment.lists[t],
        ) by {
            assert(good2(segment.lists[t]));
        }
    }
}

/// A checkpoint holds the generation and the segments; a segment its documents and the
/// postings of each term; a document its rowid, its length and its fields; a posting
/// the document, how often the term stands in it, and where. Every row stands behind
/// its number. Whatever can be counted by four bytes can be written so, and nothing
/// else.
pub proof fn checkpoints_hold_documents_and_postings(saved: SnapshotRecord)
    ensures
        encode_record(saved) is Ok <==> countable(saved),
        countable(saved) ==> encode_record(saved) == Ok::<Seq<u8>, Seq<char>>(
            kept_checkpoint(saved),
        ),
{
    logging::lemma_four(saved.segments.len());
    let good = |segment: SegmentRecord| countable_segment(segment);
    let bytes = |segment: SegmentRecord| kept_segment(segment);
    let encoder = record::segment_encoder();
    assert forall|i: int| 0 <= i < saved.segments.len() implies (encoder(
        #[trigger] saved.segments[i],
    ) is Ok == good(saved.segments[i])) && (good(saved.segments[i]) ==> encoder(
        saved.segments[i],
    ) == Ok::<Seq<u8>, Seq<char>>(bytes(saved.segments[i]))) by {
        lemma_segment(saved.segments[i]);
    }
    lemma_written(saved.segments, encoder, good, bytes);
    if countable(saved) {
        assert forall|i: int| 0 <= i < saved.segments.len() implies good(
            #[trigger] saved.segments[i],
        ) by {}
        assert(encode_record(saved)->Ok_0 =~= kept_checkpoint(saved));
    } else if encode_record(saved) is Ok {
        assert forall|s: int| 0 <= s < saved.segments.len() implies countable_segment(
            #[trigger] saved.segments[s],
        ) by {
            assert(good(saved.segments[s]));
        }
    }
}

/// A database without replaced or deleted documents can be saved if its documents have
/// one to 64 fields of up to 2^26 terms each and everything in it can be counted by
/// four bytes.
pub proof fn countable_databases_can_be_saved(saved: &Snapshot, result: Result<Vec<u8>>)
    requires
        saved.wf(),
        saved.faithful(),
        saved.all_live(),
        forall|s: int|
            0 <= s < saved.segments@.len() ==> !(#[trigger] saved.segments@[s]).terms.has(
                Seq::empty(),
            ),
        crate::restoring::writable_contents(*saved),
        call_ensures(encode_snapshot, (saved,), result),
    ensures
        result is Ok <==> countable(encoding::snapshot_record(*saved)),
        result matches Ok(bytes) ==> bytes@ == kept_checkpoint(encoding::snapshot_record(*saved)),
{
    crate::restoring::compacted_snapshot_is_restorable(*saved);
    checkpoints_hold_documents_and_postings(encoding::snapshot_record(*saved));
}

/// What a checkpoint says of a document is what the database holds.
pub proof fn saved_documents_are_those_of_the_database(saved: Snapshot, s: int, d: int)
    requires
        saved.wf(),
        saved.faithful(),
        saved.live(s, d),
    ensures
        ({
            let doc = encoding::snapshot_record(saved).segments[s].docs[d];
            &&& saved.content(doc.rowid) == Some(doc.fields)
            &&& crate::places::all_terms(doc.fields).len() <= u32::MAX ==> doc.len
                == crate::places::all_terms(doc.fields).len()
        }),
        encoding::snapshot_record(saved).generation == saved.generation,
        encoding::snapshot_record(saved).segments.len() == saved.segments@.len(),
        encoding::snapshot_record(saved).segments[s].docs.len() == saved.segments@[s].docs@.len(),
{
    crate::finding::lemma_reads(saved, s, d);
    assert(saved.segments@[s].faithful());
    crate::places::length_is_the_number_of_terms(saved.doc(s, d).texts());
}

} // verus!
