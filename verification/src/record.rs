//! The format of a checkpoint: what its bytes say, and which bytes say it.
use crate::codec;
use crate::error::{Error, Result};
use crate::packing;
use crate::parsing;
use crate::parsing::Parsed;
use crate::segment;
use crate::segment::BlockMeta;
use vstd::prelude::*;

verus! {

broadcast use crate::codec::le_bytes_len;

/// A document in a checkpoint.
pub struct DocRecord {
    pub rowid: i64,
    pub len: u32,
    pub fields: Seq<Seq<char>>,
}

/// A posting in a checkpoint.
pub struct PostingRecord {
    pub docid: u32,
    pub freq: u32,
    pub positions: Seq<u32>,
}

/// A posting list in a checkpoint.
pub struct ListRecord {
    pub term: Seq<char>,
    pub postings: Seq<PostingRecord>,
    pub blocks: Seq<BlockMeta>,
    pub max_tf: u32,
    pub min_doc_len: u32,
}

/// A segment in a checkpoint.
pub struct SegmentRecord {
    pub docs: Seq<DocRecord>,
    pub lists: Seq<ListRecord>,
}

/// A checkpoint.
pub struct SnapshotRecord {
    pub generation: u64,
    pub segments: Seq<SegmentRecord>,
}

/// The bytes of a record, or why it has none.
pub type Encoded = core::result::Result<Seq<u8>, Seq<char>>;

/// One record behind another.
pub open spec fn followed_by(first: Encoded, second: Encoded) -> Encoded {
    match first {
        Ok(head) => match second {
            Ok(tail) => Ok(head + tail),
            Err(message) => Err(message),
        },
        Err(message) => Err(message),
    }
}

pub open spec fn encode_list<T>(items: Seq<T>, encoder: spec_fn(T) -> Encoded) -> Encoded
    decreases items.len(),
{
    if items.len() == 0 {
        Ok(Seq::empty())
    } else {
        followed_by(encoder(items[0]), encode_list(items.skip(1), encoder))
    }
}

/// A number of records.
pub open spec fn encode_count(count: nat, what: Seq<char>) -> Encoded {
    if count <= u32::MAX {
        Ok(codec::u32_bytes(count as u32))
    } else {
        Err(what + " count exceeds 32-bit format limit"@)
    }
}

pub open spec fn encode_text(text: Seq<char>) -> Encoded {
    if parsing::storable(text) {
        Ok(parsing::text_bytes(text))
    } else {
        Err("value exceeds 4 GiB storage limit"@)
    }
}

pub open spec fn text_encoder() -> spec_fn(Seq<char>) -> Encoded {
    |text: Seq<char>| encode_text(text)
}

pub open spec fn number_encoder() -> spec_fn(u32) -> Encoded {
    |value: u32| Ok(codec::u32_bytes(value))
}

pub open spec fn encode_doc(doc: DocRecord) -> Encoded {
    followed_by(
        Ok(codec::i64_bytes(doc.rowid)),
        followed_by(
            Ok(codec::u32_bytes(doc.len)),
            followed_by(
                encode_count(doc.fields.len(), "field"@),
                encode_list(doc.fields, text_encoder()),
            ),
        ),
    )
}

pub open spec fn doc_encoder() -> spec_fn(DocRecord) -> Encoded {
    |doc: DocRecord| encode_doc(doc)
}

pub open spec fn encode_posting(posting: PostingRecord) -> Encoded {
    followed_by(
        Ok(codec::u32_bytes(posting.docid)),
        followed_by(
            Ok(codec::u32_bytes(posting.freq)),
            followed_by(
                encode_count(posting.positions.len(), "position"@),
                encode_list(posting.positions, number_encoder()),
            ),
        ),
    )
}

pub open spec fn posting_encoder() -> spec_fn(PostingRecord) -> Encoded {
    |posting: PostingRecord| encode_posting(posting)
}

pub open spec fn block_bytes(block: BlockMeta) -> Seq<u8> {
    codec::u32_bytes(block.end) + (codec::u32_bytes(block.last_docid) + (codec::u32_bytes(
        block.max_tf,
    ) + codec::u32_bytes(block.min_doc_len)))
}

pub open spec fn block_encoder() -> spec_fn(BlockMeta) -> Encoded {
    |block: BlockMeta| Ok(block_bytes(block))
}

pub open spec fn encode_posting_list(list: ListRecord) -> Encoded {
    followed_by(
        encode_text(list.term),
        followed_by(
            encode_count(list.postings.len(), "posting"@),
            followed_by(
                encode_list(list.postings, posting_encoder()),
                followed_by(
                    encode_count(list.blocks.len(), "block"@),
                    followed_by(
                        encode_list(list.blocks, block_encoder()),
                        Ok(codec::u32_bytes(list.max_tf) + codec::u32_bytes(list.min_doc_len)),
                    ),
                ),
            ),
        ),
    )
}

pub open spec fn list_encoder() -> spec_fn(ListRecord) -> Encoded {
    |list: ListRecord| encode_posting_list(list)
}

pub open spec fn encode_segment(segment: SegmentRecord) -> Encoded {
    followed_by(
        encode_count(segment.docs.len(), "document"@),
        followed_by(
            encode_list(segment.docs, doc_encoder()),
            followed_by(
                encode_count(segment.lists.len(), "term"@),
                encode_list(segment.lists, list_encoder()),
            ),
        ),
    )
}

pub open spec fn segment_encoder() -> spec_fn(SegmentRecord) -> Encoded {
    |segment: SegmentRecord| encode_segment(segment)
}

/// The bytes of a checkpoint, or why it has none.
pub open spec fn encode_record(record: SnapshotRecord) -> Encoded {
    followed_by(
        Ok(codec::u64_bytes(record.generation)),
        followed_by(
            encode_count(record.segments.len(), "segment"@),
            encode_list(record.segments, segment_encoder()),
        ),
    )
}

/// A number of records, each at least `minimum` bytes long.
pub open spec fn parse_count(input: Seq<u8>, minimum: nat, message: &'static str) -> Parsed<u32> {
    match parsing::outcome(codec::parse_u32(input)) {
        Ok((count, rest)) => if minimum != 0 && count > rest.len() / minimum {
            Err(Error::Corrupt(message))
        } else {
            Ok((count, rest))
        },
        Err(error) => Err(error),
    }
}

pub open spec fn parse_number(input: Seq<u8>) -> Parsed<u32> {
    parsing::outcome(codec::parse_u32(input))
}

pub open spec fn parse_doc(input: Seq<u8>) -> Parsed<DocRecord> {
    match parsing::outcome(codec::parse_i64(input)) {
        Ok((rowid, rest)) => match parse_number(rest) {
            Ok((len, rest)) => match parse_count(rest, 4, "invalid field count") {
                Ok((count, rest)) => if count == 0 || count > 64 {
                    Err(Error::Corrupt("invalid field count"))
                } else {
                    match parsing::parse_list(
                        rest,
                        Seq::empty(),
                        count as nat,
                        parsing::text_parser("field is not UTF-8"),
                    ) {
                        Ok((fields, rest)) => Ok((DocRecord { rowid, len, fields }, rest)),
                        Err(error) => Err(error),
                    }
                },
                Err(error) => Err(error),
            },
            Err(error) => Err(error),
        },
        Err(error) => Err(error),
    }
}

pub open spec fn doc_parser() -> spec_fn(Seq<DocRecord>, Seq<u8>) -> Parsed<DocRecord> {
    |done: Seq<DocRecord>, input: Seq<u8>| parse_doc(input)
}

/// A position, above those before it.
pub open spec fn parse_position(done: Seq<u32>, input: Seq<u8>) -> Parsed<u32> {
    match parse_number(input) {
        Ok((position, rest)) => if done.len() > 0 && done.last() >= position {
            Err(Error::Corrupt("posting positions are not increasing"))
        } else {
            Ok((position, rest))
        },
        Err(error) => Err(error),
    }
}

pub open spec fn position_parser() -> spec_fn(Seq<u32>, Seq<u8>) -> Parsed<u32> {
    |done: Seq<u32>, input: Seq<u8>| parse_position(done, input)
}

/// A posting of one of `docs` documents, behind those before it.
pub open spec fn parse_posting(docs: nat, done: Seq<PostingRecord>, input: Seq<u8>) -> Parsed<
    PostingRecord,
> {
    match parse_number(input) {
        Ok((docid, rest)) => match parse_number(rest) {
            Ok((freq, rest)) => if docid >= docs || (done.len() > 0 && done.last().docid
                >= docid) {
                Err(Error::Corrupt("posting docids are invalid"))
            } else {
                match parse_count(rest, 4, "invalid position count") {
                    Ok((count, rest)) => if freq == 0 || count != freq {
                        Err(Error::Corrupt("posting frequency does not match positions"))
                    } else {
                        match parsing::parse_list(
                            rest,
                            Seq::empty(),
                            count as nat,
                            position_parser(),
                        ) {
                            Ok((positions, rest)) => Ok(
                                (PostingRecord { docid, freq, positions }, rest),
                            ),
                            Err(error) => Err(error),
                        }
                    },
                    Err(error) => Err(error),
                }
            },
            Err(error) => Err(error),
        },
        Err(error) => Err(error),
    }
}

pub open spec fn posting_parser(docs: nat) -> spec_fn(Seq<PostingRecord>, Seq<u8>) -> Parsed<
    PostingRecord,
> {
    |done: Seq<PostingRecord>, input: Seq<u8>| parse_posting(docs, done, input)
}

/// The postings of a term: at least one, at most one for each document.
pub open spec fn parse_postings(docs: nat, input: Seq<u8>) -> Parsed<Seq<PostingRecord>> {
    match parse_count(input, 12, "invalid posting count") {
        Ok((count, rest)) => if count == 0 || count > docs {
            Err(Error::Corrupt("invalid posting count"))
        } else {
            parsing::parse_list(rest, Seq::empty(), count as nat, posting_parser(docs))
        },
        Err(error) => Err(error),
    }
}

pub open spec fn docids_of(postings: Seq<PostingRecord>) -> Seq<u32> {
    postings.map_values(|posting: PostingRecord| posting.docid)
}

pub open spec fn freqs_of(postings: Seq<PostingRecord>) -> Seq<u32> {
    postings.map_values(|posting: PostingRecord| posting.freq)
}

/// The lengths of the documents of the postings.
pub open spec fn lens_of(postings: Seq<PostingRecord>, docs: Seq<DocRecord>) -> Seq<u32> {
    postings.map_values(|posting: PostingRecord| docs[posting.docid as int].len)
}

/// What the metadata of block `block` has to be.
pub open spec fn block_of(
    postings: Seq<PostingRecord>,
    docs: Seq<DocRecord>,
    block: int,
) -> BlockMeta {
    let start = block * 128;
    let end = segment::block_end(block, postings.len());
    BlockMeta {
        end: end as u32,
        last_docid: postings[end - 1].docid,
        max_tf: packing::largest(freqs_of(postings).subrange(start, end)),
        min_doc_len: segment::smallest(lens_of(postings, docs).subrange(start, end)),
    }
}

pub open spec fn parse_raw_block(input: Seq<u8>) -> Parsed<BlockMeta> {
    match parse_number(input) {
        Ok((end, rest)) => match parse_number(rest) {
            Ok((last_docid, rest)) => match parse_number(rest) {
                Ok((max_tf, rest)) => match parse_number(rest) {
                    Ok((min_doc_len, rest)) => Ok(
                        (BlockMeta { end, last_docid, max_tf, min_doc_len }, rest),
                    ),
                    Err(error) => Err(error),
                },
                Err(error) => Err(error),
            },
            Err(error) => Err(error),
        },
        Err(error) => Err(error),
    }
}

/// The metadata of the next block.
pub open spec fn parse_block(
    postings: Seq<PostingRecord>,
    docs: Seq<DocRecord>,
    done: Seq<BlockMeta>,
    input: Seq<u8>,
) -> Parsed<BlockMeta> {
    match parse_raw_block(input) {
        Ok((block, rest)) => if block != block_of(postings, docs, done.len() as int) {
            Err(Error::Corrupt("invalid block metadata"))
        } else {
            Ok((block, rest))
        },
        Err(error) => Err(error),
    }
}

pub open spec fn block_parser(postings: Seq<PostingRecord>, docs: Seq<DocRecord>) -> spec_fn(
    Seq<BlockMeta>,
    Seq<u8>,
) -> Parsed<BlockMeta> {
    |done: Seq<BlockMeta>, input: Seq<u8>| parse_block(postings, docs, done, input)
}

pub open spec fn parse_blocks(
    postings: Seq<PostingRecord>,
    docs: Seq<DocRecord>,
    input: Seq<u8>,
) -> Parsed<Seq<BlockMeta>> {
    match parse_count(input, 16, "invalid block count") {
        Ok((count, rest)) => if count != segment::block_count(postings.len()) {
            Err(Error::Corrupt("invalid block count"))
        } else {
            parsing::parse_list(rest, Seq::empty(), count as nat, block_parser(postings, docs))
        },
        Err(error) => Err(error),
    }
}

/// The bounds of a whole posting list.
pub open spec fn parse_bounds(
    postings: Seq<PostingRecord>,
    docs: Seq<DocRecord>,
    input: Seq<u8>,
) -> Parsed<(u32, u32)> {
    match parse_number(input) {
        Ok((max_tf, rest)) => match parse_number(rest) {
            Ok((min_doc_len, rest)) => if max_tf != packing::largest(freqs_of(postings))
                || min_doc_len != segment::smallest(lens_of(postings, docs)) {
                Err(Error::Corrupt("invalid posting-list metadata"))
            } else {
                Ok(((max_tf, min_doc_len), rest))
            },
            Err(error) => Err(error),
        },
        Err(error) => Err(error),
    }
}

/// Whether one of the lists belongs to this term.
pub open spec fn names(lists: Seq<ListRecord>, term: Seq<char>) -> bool {
    exists|l: int| 0 <= l < lists.len() && (#[trigger] lists[l]).term == term
}

/// Whether the list has a posting of this document.
pub open spec fn posts(list: ListRecord, docid: int) -> bool {
    exists|i: int| 0 <= i < list.postings.len() && (#[trigger] list.postings[i]).docid == docid
}

/// The terms of the lists that have a posting of this document, as the lists stand.
pub open spec fn terms_in(lists: Seq<ListRecord>, docid: int) -> Seq<Seq<char>>
    decreases lists.len(),
{
    if lists.len() == 0 {
        Seq::empty()
    } else {
        let before = terms_in(lists.drop_last(), docid);
        if posts(lists.last(), docid) {
            before.push(lists.last().term)
        } else {
            before
        }
    }
}

pub open spec fn parse_term(done: Seq<ListRecord>, input: Seq<u8>) -> Parsed<Seq<char>> {
    match parsing::parse_text(input, "term is not UTF-8") {
        Ok((term, rest)) => if term.len() == 0 || names(done, term) {
            Err(Error::Corrupt("invalid or duplicate term"))
        } else {
            Ok((term, rest))
        },
        Err(error) => Err(error),
    }
}

/// A term with its postings, their blocks and their bounds.
pub open spec fn parse_posting_list(
    docs: Seq<DocRecord>,
    done: Seq<ListRecord>,
    input: Seq<u8>,
) -> Parsed<ListRecord> {
    match parse_term(done, input) {
        Ok((term, rest)) => match parse_postings(docs.len(), rest) {
            Ok((postings, rest)) => match parse_blocks(postings, docs, rest) {
                Ok((blocks, rest)) => match parse_bounds(postings, docs, rest) {
                    Ok((bounds, rest)) => Ok(
                        (
                            ListRecord {
                                term,
                                postings,
                                blocks,
                                max_tf: bounds.0,
                                min_doc_len: bounds.1,
                            },
                            rest,
                        ),
                    ),
                    Err(error) => Err(error),
                },
                Err(error) => Err(error),
            },
            Err(error) => Err(error),
        },
        Err(error) => Err(error),
    }
}

pub open spec fn list_parser(docs: Seq<DocRecord>) -> spec_fn(
    Seq<ListRecord>,
    Seq<u8>,
) -> Parsed<ListRecord> {
    |done: Seq<ListRecord>, input: Seq<u8>| parse_posting_list(docs, done, input)
}

pub open spec fn parse_docs(input: Seq<u8>) -> Parsed<Seq<DocRecord>> {
    match parse_count(input, 16, "invalid document count") {
        Ok((count, rest)) => parsing::parse_list(
            rest,
            Seq::empty(),
            count as nat,
            doc_parser(),
        ),
        Err(error) => Err(error),
    }
}

pub open spec fn parse_lists(docs: Seq<DocRecord>, input: Seq<u8>) -> Parsed<Seq<ListRecord>> {
    match parse_count(input, 4, "invalid term count") {
        Ok((count, rest)) => parsing::parse_list(
            rest,
            Seq::empty(),
            count as nat,
            list_parser(docs),
        ),
        Err(error) => Err(error),
    }
}

pub open spec fn parse_segment(input: Seq<u8>) -> Parsed<SegmentRecord> {
    match parse_docs(input) {
        Ok((docs, rest)) => match parse_lists(docs, rest) {
            Ok((lists, rest)) => Ok((SegmentRecord { docs, lists }, rest)),
            Err(error) => Err(error),
        },
        Err(error) => Err(error),
    }
}

pub open spec fn segment_parser() -> spec_fn(Seq<SegmentRecord>, Seq<u8>) -> Parsed<
    SegmentRecord,
> {
    |done: Seq<SegmentRecord>, input: Seq<u8>| parse_segment(input)
}

pub open spec fn parse_segments(input: Seq<u8>) -> Parsed<Seq<SegmentRecord>> {
    match parse_count(input, 4, "invalid segment count") {
        Ok((count, rest)) => parsing::parse_list(
            rest,
            Seq::empty(),
            count as nat,
            segment_parser(),
        ),
        Err(error) => Err(error),
    }
}

/// No rowid stands twice in a checkpoint.
pub open spec fn distinct_records(segments: Seq<SegmentRecord>) -> bool {
    forall|s: int, d: int, t: int, e: int|
        0 <= s < segments.len() && 0 <= d < segments[s].docs.len() && 0 <= t < segments.len() && 0
            <= e < segments[t].docs.len() && (s != t || d != e) ==> (
        #[trigger] segments[s].docs[d]).rowid != (#[trigger] segments[t].docs[e]).rowid
}

/// What the bytes of a checkpoint say; all of them belong to it.
pub open spec fn parse_record(payload: Seq<u8>) -> Result<SnapshotRecord> {
    match parsing::outcome(codec::parse_u64(payload)) {
        Ok((generation, rest)) => match parse_segments(rest) {
            Ok((segments, rest)) => if rest.len() != 0 {
                Err(Error::Corrupt("trailing checkpoint bytes"))
            } else if !distinct_records(segments) {
                Err(Error::Corrupt("duplicate rowid in checkpoint"))
            } else {
                Ok(SnapshotRecord { generation, segments })
            },
            Err(error) => Err(error),
        },
        Err(error) => Err(error),
    }
}

/// Between one and 64 fields.
pub open spec fn sound_doc(doc: DocRecord) -> bool {
    1 <= doc.fields.len() <= 64
}

/// A posting of one of `docs` documents with increasing positions.
pub open spec fn sound_posting(docs: nat, posting: PostingRecord) -> bool {
    &&& posting.docid < docs
    &&& posting.freq > 0
    &&& posting.freq == posting.positions.len()
    &&& segment::increasing(posting.positions)
}

/// A list whose blocks and bounds say of its postings what they should.
pub open spec fn sound_list(docs: Seq<DocRecord>, list: ListRecord) -> bool {
    &&& list.term.len() > 0
    &&& 1 <= list.postings.len() <= docs.len()
    &&& segment::increasing(docids_of(list.postings))
    &&& forall|i: int|
        0 <= i < list.postings.len() ==> sound_posting(docs.len(), #[trigger] list.postings[i])
    &&& list.blocks.len() == segment::block_count(list.postings.len())
    &&& forall|k: int|
        0 <= k < list.blocks.len() ==> #[trigger] list.blocks[k] == block_of(
            list.postings,
            docs,
            k,
        )
    &&& list.max_tf == packing::largest(freqs_of(list.postings))
    &&& list.min_doc_len == segment::smallest(lens_of(list.postings, docs))
}

/// Sound documents and lists, each list of another term.
pub open spec fn sound_segment(segment: SegmentRecord) -> bool {
    &&& forall|d: int| 0 <= d < segment.docs.len() ==> sound_doc(#[trigger] segment.docs[d])
    &&& forall|l: int|
        0 <= l < segment.lists.len() ==> sound_list(segment.docs, #[trigger] segment.lists[l])
    &&& forall|l: int, m: int|
        0 <= l < m < segment.lists.len() ==> (#[trigger] segment.lists[l]).term != (
        #[trigger] segment.lists[m]).term
}

/// A checkpoint that can be read.
pub open spec fn sound_record(record: SnapshotRecord) -> bool {
    &&& forall|s: int|
        0 <= s < record.segments.len() ==> sound_segment(#[trigger] record.segments[s])
    &&& distinct_records(record.segments)
}

} // verus!
