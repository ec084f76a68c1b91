//! Reading a checkpoint gives back what was written.
use crate::codec;
use crate::error::Error;
use crate::parsing;
use crate::parsing::Parsed;
use crate::record;
use crate::record::{DocRecord, Encoded, ListRecord, PostingRecord, SegmentRecord, SnapshotRecord};
use crate::segment;
use crate::segment::BlockMeta;
use vstd::prelude::*;

verus! {

broadcast use crate::codec::le_bytes_len;

/// Records that are each read back are read back together.
proof fn lemma_list<T>(
    items: Seq<T>,
    encoder: spec_fn(T) -> Encoded,
    item: spec_fn(Seq<T>, Seq<u8>) -> Parsed<T>,
    rest: Seq<u8>,
    done: int,
)
    requires
        0 <= done <= items.len(),
        record::encode_list(items.skip(done), encoder) is Ok,
        forall|i: int, tail: Seq<u8>|
            0 <= i < items.len() && encoder(items[i]) is Ok ==> #[trigger] item(
                items.take(i),
                encoder(items[i])->Ok_0 + tail,
            ) == Ok::<(T, Seq<u8>), Error>((items[i], tail)),
    ensures
        parsing::parse_list(
            record::encode_list(items.skip(done), encoder)->Ok_0 + rest,
            items.take(done),
            items.len(),
            item,
        ) == Ok::<(Seq<T>, Seq<u8>), Error>((items, rest)),
    decreases items.len() - done,
{
    let left = items.skip(done);
    let bytes = record::encode_list(left, encoder)->Ok_0;
    if done == items.len() {
        assert(items.take(done) =~= items);
        assert(bytes + rest =~= rest);
    } else {
        assert(left.skip(1) =~= items.skip(done + 1));
        let head = encoder(items[done])->Ok_0;
        let tail = record::encode_list(items.skip(done + 1), encoder)->Ok_0 + rest;
        assert(bytes + rest =~= head + tail);
        assert(items.take(done).push(items[done]) =~= items.take(done + 1));
        assert(item(items.take(done), head + tail) == Ok::<(T, Seq<u8>), Error>(
            (items[done], tail),
        ));
        lemma_list(items, encoder, item, rest, done + 1);
    }
}

proof fn lemma_whole_list<T>(
    items: Seq<T>,
    encoder: spec_fn(T) -> Encoded,
    item: spec_fn(Seq<T>, Seq<u8>) -> Parsed<T>,
    rest: Seq<u8>,
)
    requires
        record::encode_list(items, encoder) is Ok,
        forall|i: int, tail: Seq<u8>|
            0 <= i < items.len() && encoder(items[i]) is Ok ==> #[trigger] item(
                items.take(i),
                encoder(items[i])->Ok_0 + tail,
            ) == Ok::<(T, Seq<u8>), Error>((items[i], tail)),
    ensures
        parsing::parse_list(
            record::encode_list(items, encoder)->Ok_0 + rest,
            Seq::empty(),
            items.len(),
            item,
        ) == Ok::<(Seq<T>, Seq<u8>), Error>((items, rest)),
{
    assert(items.skip(0) =~= items);
    assert(items.take(0) =~= Seq::empty());
    lemma_list(items, encoder, item, rest, 0);
}

/// Records of some length take that length each.
proof fn lemma_list_len<T>(items: Seq<T>, encoder: spec_fn(T) -> Encoded, minimum: nat)
    requires
        record::encode_list(items, encoder) is Ok,
        forall|value: T|
            (#[trigger] encoder(value)) matches Ok(bytes) ==> bytes.len() >= minimum,
    ensures
        record::encode_list(items, encoder)->Ok_0.len() >= minimum * items.len(),
    decreases items.len(),
{
    if items.len() > 0 {
        lemma_list_len(items.skip(1), encoder, minimum);
        let rest = (items.len() - 1) as nat;
        assert(minimum * items.len() == minimum + minimum * rest) by (nonlinear_arith)
            requires
                items.len() == rest + 1,
        ;
    }
}

/// A count passes where as many records follow.
proof fn lemma_count(
    count: nat,
    what: Seq<char>,
    minimum: nat,
    message: &'static str,
    rest: Seq<u8>,
)
    requires
        record::encode_count(count, what) is Ok,
        minimum > 0,
        rest.len() >= minimum * count,
    ensures
        record::parse_count(
            record::encode_count(count, what)->Ok_0 + rest,
            minimum,
            message,
        ) == Ok::<(u32, Seq<u8>), Error>((count as u32, rest)),
{
    codec::u32_round_trip(count as u32, rest);
    assert(count <= rest.len() / minimum) by (nonlinear_arith)
        requires
            minimum > 0,
            rest.len() >= minimum * count,
    ;
}

proof fn lemma_texts(texts: Seq<Seq<char>>, rest: Seq<u8>)
    requires
        record::encode_list(texts, record::text_encoder()) is Ok,
    ensures
        parsing::parse_list(
            record::encode_list(texts, record::text_encoder())->Ok_0 + rest,
            Seq::empty(),
            texts.len(),
            parsing::text_parser("field is not UTF-8"),
        ) == Ok::<(Seq<Seq<char>>, Seq<u8>), Error>((texts, rest)),
        record::encode_list(texts, record::text_encoder())->Ok_0.len() >= 4 * texts.len(),
{
    let (encoder, item) = (
        record::text_encoder(),
        parsing::text_parser("field is not UTF-8"),
    );
    assert forall|i: int, tail: Seq<u8>|
        0 <= i < texts.len() && encoder(texts[i]) is Ok implies #[trigger] item(
        texts.take(i),
        encoder(texts[i])->Ok_0 + tail,
    ) == Ok::<(Seq<char>, Seq<u8>), Error>((texts[i], tail)) by {
        parsing::text_round_trip(texts[i], "field is not UTF-8", tail);
    }
    lemma_whole_list(texts, encoder, item, rest);
    lemma_list_len(texts, encoder, 4);
}

proof fn lemma_doc(doc: DocRecord, rest: Seq<u8>)
    requires
        record::sound_doc(doc),
        record::encode_doc(doc) is Ok,
    ensures
        record::parse_doc(record::encode_doc(doc)->Ok_0 + rest) == Ok::<
            (DocRecord, Seq<u8>),
            Error,
        >((doc, rest)),
{
    let listed = record::encode_list(doc.fields, record::text_encoder())->Ok_0;
    let count = record::encode_count(doc.fields.len(), "field"@)->Ok_0;
    let bytes = record::encode_doc(doc)->Ok_0;
    assert(bytes + rest =~= codec::i64_bytes(doc.rowid) + (codec::u32_bytes(doc.len) + (count + (
    listed + rest))));
    codec::i64_round_trip(doc.rowid, codec::u32_bytes(doc.len) + (count + (listed + rest)));
    codec::u32_round_trip(doc.len, count + (listed + rest));
    lemma_texts(doc.fields, rest);
    lemma_count(doc.fields.len(), "field"@, 4, "invalid field count", listed + rest);
}

/// Documents are read back, and each takes at least 16 bytes.
proof fn lemma_docs(docs: Seq<DocRecord>, rest: Seq<u8>)
    requires
        record::encode_list(docs, record::doc_encoder()) is Ok,
        record::encode_count(docs.len(), "document"@) is Ok,
        forall|d: int| 0 <= d < docs.len() ==> record::sound_doc(#[trigger] docs[d]),
    ensures
        record::parse_docs(
            record::encode_count(docs.len(), "document"@)->Ok_0 + (record::encode_list(
                docs,
                record::doc_encoder(),
            )->Ok_0 + rest),
        ) == Ok::<(Seq<DocRecord>, Seq<u8>), Error>((docs, rest)),
{
    let (encoder, item) = (record::doc_encoder(), record::doc_parser());
    assert forall|i: int, tail: Seq<u8>|
        0 <= i < docs.len() && encoder(docs[i]) is Ok implies #[trigger] item(
        docs.take(i),
        encoder(docs[i])->Ok_0 + tail,
    ) == Ok::<(DocRecord, Seq<u8>), Error>((docs[i], tail)) by {
        lemma_doc(docs[i], tail);
    }
    lemma_whole_list(docs, encoder, item, rest);
    lemma_list_len(docs, encoder, 16);
    let listed = record::encode_list(docs, encoder)->Ok_0;
    lemma_count(docs.len(), "document"@, 16, "invalid document count", listed + rest);
}

proof fn lemma_positions(positions: Seq<u32>, rest: Seq<u8>)
    requires
        segment::increasing(positions),
    ensures
        record::encode_list(positions, record::number_encoder()) is Ok,
        parsing::parse_list(
            record::encode_list(positions, record::number_encoder())->Ok_0 + rest,
            Seq::empty(),
            positions.len(),
            record::position_parser(),
        ) == Ok::<(Seq<u32>, Seq<u8>), Error>((positions, rest)),
        record::encode_list(positions, record::number_encoder())->Ok_0.len() >= 4
            * positions.len(),
{
    let (encoder, item) = (record::number_encoder(), record::position_parser());
    lemma_always_encodes(positions, encoder);
    assert forall|i: int, tail: Seq<u8>|
        0 <= i < positions.len() && encoder(positions[i]) is Ok implies #[trigger] item(
        positions.take(i),
        encoder(positions[i])->Ok_0 + tail,
    ) == Ok::<(u32, Seq<u8>), Error>((positions[i], tail)) by {
        codec::u32_round_trip(positions[i], tail);
        if i > 0 {
            assert(positions.take(i).last() == positions[i - 1]);
            assert(positions[i - 1] < positions[i]);
        }
    }
    lemma_whole_list(positions, encoder, item, rest);
    lemma_list_len(positions, encoder, 4);
}

proof fn lemma_always_encodes<T>(items: Seq<T>, encoder: spec_fn(T) -> Encoded)
    requires
        forall|value: T| (#[trigger] encoder(value)) is Ok,
    ensures
        record::encode_list(items, encoder) is Ok,
    decreases items.len(),
{
    if items.len() > 0 {
        assert(encoder(items[0]) is Ok);
        lemma_always_encodes(items.skip(1), encoder);
    }
}

proof fn lemma_posting(
    docs: nat,
    done: Seq<PostingRecord>,
    posting: PostingRecord,
    rest: Seq<u8>,
)
    requires
        record::sound_posting(docs, posting),
        done.len() > 0 ==> done.last().docid < posting.docid,
        record::encode_posting(posting) is Ok,
    ensures
        record::parse_posting(docs, done, record::encode_posting(posting)->Ok_0 + rest) == Ok::<
            (PostingRecord, Seq<u8>),
            Error,
        >((posting, rest)),
{
    let listed = record::encode_list(posting.positions, record::number_encoder())->Ok_0;
    let count = record::encode_count(posting.positions.len(), "position"@)->Ok_0;
    let bytes = record::encode_posting(posting)->Ok_0;
    lemma_positions(posting.positions, rest);
    assert(bytes + rest =~= codec::u32_bytes(posting.docid) + (codec::u32_bytes(posting.freq) + (
    count + (listed + rest))));
    codec::u32_round_trip(
        posting.docid,
        codec::u32_bytes(posting.freq) + (count + (listed + rest)),
    );
    codec::u32_round_trip(posting.freq, count + (listed + rest));
    lemma_count(posting.positions.len(), "position"@, 4, "invalid position count", listed + rest);
}

proof fn lemma_postings(docs: nat, postings: Seq<PostingRecord>, rest: Seq<u8>)
    requires
        record::encode_count(postings.len(), "posting"@) is Ok,
        record::encode_list(postings, record::posting_encoder()) is Ok,
        1 <= postings.len() <= docs,
        segment::increasing(record::docids_of(postings)),
        forall|i: int|
            0 <= i < postings.len() ==> record::sound_posting(docs, #[trigger] postings[i]),
    ensures
        record::parse_postings(
            docs,
            record::encode_count(postings.len(), "posting"@)->Ok_0 + (record::encode_list(
                postings,
                record::posting_encoder(),
            )->Ok_0 + rest),
        ) == Ok::<(Seq<PostingRecord>, Seq<u8>), Error>((postings, rest)),
{
    let (encoder, item) = (record::posting_encoder(), record::posting_parser(docs));
    let docids = record::docids_of(postings);
    assert forall|i: int, tail: Seq<u8>|
        0 <= i < postings.len() && encoder(postings[i]) is Ok implies #[trigger] item(
        postings.take(i),
        encoder(postings[i])->Ok_0 + tail,
    ) == Ok::<(PostingRecord, Seq<u8>), Error>((postings[i], tail)) by {
        if i > 0 {
            assert(postings.take(i).last() == postings[i - 1]);
            assert(docids[i - 1] < docids[i]);
        }
        lemma_posting(docs, postings.take(i), postings[i], tail);
    }
    lemma_whole_list(postings, encoder, item, rest);
    lemma_list_len(postings, encoder, 12);
    let listed = record::encode_list(postings, encoder)->Ok_0;
    lemma_count(postings.len(), "posting"@, 12, "invalid posting count", listed + rest);
}

proof fn lemma_block(block: BlockMeta, rest: Seq<u8>)
    ensures
        record::parse_raw_block(record::block_bytes(block) + rest) == Ok::<
            (BlockMeta, Seq<u8>),
            Error,
        >((block, rest)),
{
    let fourth = codec::u32_bytes(block.min_doc_len) + rest;
    let third = codec::u32_bytes(block.max_tf) + fourth;
    let second = codec::u32_bytes(block.last_docid) + third;
    assert(record::block_bytes(block) + rest =~= codec::u32_bytes(block.end) + second);
    codec::u32_round_trip(block.end, second);
    codec::u32_round_trip(block.last_docid, third);
    codec::u32_round_trip(block.max_tf, fourth);
    codec::u32_round_trip(block.min_doc_len, rest);
}

proof fn lemma_blocks(list: ListRecord, docs: Seq<DocRecord>, rest: Seq<u8>)
    requires
        record::sound_list(docs, list),
        record::encode_count(list.blocks.len(), "block"@) is Ok,
    ensures
        record::encode_list(list.blocks, record::block_encoder()) is Ok,
        record::parse_blocks(
            list.postings,
            docs,
            record::encode_count(list.blocks.len(), "block"@)->Ok_0 + (record::encode_list(
                list.blocks,
                record::block_encoder(),
            )->Ok_0 + rest),
        ) == Ok::<(Seq<BlockMeta>, Seq<u8>), Error>((list.blocks, rest)),
{
    let blocks = list.blocks;
    let (encoder, item) = (record::block_encoder(), record::block_parser(list.postings, docs));
    lemma_always_encodes(blocks, encoder);
    assert forall|i: int, tail: Seq<u8>|
        0 <= i < blocks.len() && encoder(blocks[i]) is Ok implies #[trigger] item(
        blocks.take(i),
        encoder(blocks[i])->Ok_0 + tail,
    ) == Ok::<(BlockMeta, Seq<u8>), Error>((blocks[i], tail)) by {
        lemma_block(blocks[i], tail);
    }
    lemma_whole_list(blocks, encoder, item, rest);
    lemma_list_len(blocks, encoder, 16);
    let listed = record::encode_list(blocks, encoder)->Ok_0;
    lemma_count(blocks.len(), "block"@, 16, "invalid block count", listed + rest);
}

proof fn lemma_posting_list(
    docs: Seq<DocRecord>,
    done: Seq<ListRecord>,
    list: ListRecord,
    rest: Seq<u8>,
)
    requires
        record::sound_list(docs, list),
        !record::names(done, list.term),
        record::encode_posting_list(list) is Ok,
    ensures
        record::parse_posting_list(
            docs,
            done,
            record::encode_posting_list(list)->Ok_0 + rest,
        ) == Ok::<(ListRecord, Seq<u8>), Error>((list, rest)),
{
    let bytes = record::encode_posting_list(list)->Ok_0;
    let term = record::encode_text(list.term)->Ok_0;
    let postings_count = record::encode_count(list.postings.len(), "posting"@)->Ok_0;
    let postings = record::encode_list(list.postings, record::posting_encoder())->Ok_0;
    let blocks_count = record::encode_count(list.blocks.len(), "block"@)->Ok_0;
    let blocks = record::encode_list(list.blocks, record::block_encoder())->Ok_0;
    let bounds = codec::u32_bytes(list.max_tf) + (codec::u32_bytes(list.min_doc_len) + rest);
    let behind_postings = blocks_count + (blocks + bounds);
    let behind_term = postings_count + (postings + behind_postings);
    assert(bytes + rest =~= term + behind_term);
    parsing::text_round_trip(list.term, "term is not UTF-8", behind_term);
    lemma_postings(docs.len(), list.postings, behind_postings);
    lemma_blocks(list, docs, bounds);
    codec::u32_round_trip(list.max_tf, codec::u32_bytes(list.min_doc_len) + rest);
    codec::u32_round_trip(list.min_doc_len, rest);
}

proof fn lemma_lists(docs: Seq<DocRecord>, lists: Seq<ListRecord>, rest: Seq<u8>)
    requires
        record::encode_list(lists, record::list_encoder()) is Ok,
        record::encode_count(lists.len(), "term"@) is Ok,
        forall|l: int| 0 <= l < lists.len() ==> record::sound_list(docs, #[trigger] lists[l]),
        forall|l: int, m: int|
            0 <= l < m < lists.len() ==> (#[trigger] lists[l]).term != (
            #[trigger] lists[m]).term,
    ensures
        record::parse_lists(
            docs,
            record::encode_count(lists.len(), "term"@)->Ok_0 + (record::encode_list(
                lists,
                record::list_encoder(),
            )->Ok_0 + rest),
        ) == Ok::<(Seq<ListRecord>, Seq<u8>), Error>((lists, rest)),
{
    let (encoder, item) = (record::list_encoder(), record::list_parser(docs));
    assert forall|i: int, tail: Seq<u8>|
        0 <= i < lists.len() && encoder(lists[i]) is Ok implies #[trigger] item(
        lists.take(i),
        encoder(lists[i])->Ok_0 + tail,
    ) == Ok::<(ListRecord, Seq<u8>), Error>((lists[i], tail)) by {
        assert(!record::names(lists.take(i), lists[i].term)) by {
            if record::names(lists.take(i), lists[i].term) {
                let l = choose|l: int|
                    0 <= l < lists.take(i).len() && (#[trigger] lists.take(i)[l]).term
                        == lists[i].term;
                assert(lists[l].term != lists[i].term);
            }
        }
        lemma_posting_list(docs, lists.take(i), lists[i], tail);
    }
    lemma_whole_list(lists, encoder, item, rest);
    lemma_list_len(lists, encoder, 4);
    let listed = record::encode_list(lists, encoder)->Ok_0;
    lemma_count(lists.len(), "term"@, 4, "invalid term count", listed + rest);
}

proof fn lemma_segment(segment: SegmentRecord, rest: Seq<u8>)
    requires
        record::sound_segment(segment),
        record::encode_segment(segment) is Ok,
    ensures
        record::parse_segment(record::encode_segment(segment)->Ok_0 + rest) == Ok::<
            (SegmentRecord, Seq<u8>),
            Error,
        >((segment, rest)),
{
    let bytes = record::encode_segment(segment)->Ok_0;
    let docs_count = record::encode_count(segment.docs.len(), "document"@)->Ok_0;
    let docs = record::encode_list(segment.docs, record::doc_encoder())->Ok_0;
    let lists_count = record::encode_count(segment.lists.len(), "term"@)->Ok_0;
    let lists = record::encode_list(segment.lists, record::list_encoder())->Ok_0;
    let behind_docs = lists_count + (lists + rest);
    assert(bytes + rest =~= docs_count + (docs + behind_docs));
    lemma_docs(segment.docs, behind_docs);
    lemma_lists(segment.docs, segment.lists, rest);
}

/// A sound checkpoint survives being written and read.
pub proof fn record_round_trip(written: SnapshotRecord)
    requires
        record::sound_record(written),
    ensures
        record::encode_record(written) matches Ok(bytes) ==> record::parse_record(bytes) == Ok::<
            SnapshotRecord,
            Error,
        >(written),
{
    if record::encode_record(written) is Ok {
        let segments = written.segments;
        let (encoder, item) = (record::segment_encoder(), record::segment_parser());
        let bytes = record::encode_record(written)->Ok_0;
        let count = record::encode_count(segments.len(), "segment"@)->Ok_0;
        let listed = record::encode_list(segments, encoder)->Ok_0;
        let empty = Seq::<u8>::empty();
        assert forall|i: int, tail: Seq<u8>|
            0 <= i < segments.len() && encoder(segments[i]) is Ok implies #[trigger] item(
            segments.take(i),
            encoder(segments[i])->Ok_0 + tail,
        ) == Ok::<(SegmentRecord, Seq<u8>), Error>((segments[i], tail)) by {
            lemma_segment(segments[i], tail);
        }
        assert(bytes =~= codec::u64_bytes(written.generation) + (count + (listed + empty)));
        codec::u64_round_trip(written.generation, count + (listed + empty));
        lemma_whole_list(segments, encoder, item, empty);
        lemma_list_len(segments, encoder, 4);
        lemma_count(segments.len(), "segment"@, 4, "invalid segment count", listed + empty);
    }
}

} // verus!
