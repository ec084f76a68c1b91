//! Reading a checkpoint.
use crate::codec;
use crate::codec::{read_i64, read_u32, read_u64};
use crate::commit::read_texts;
use crate::encoding;
use crate::error::{Error, Result};
use crate::packing;
use crate::parsing;
use crate::parsing::read_text;
use crate::record;
use crate::record::{ListRecord, PostingRecord, SegmentRecord, SnapshotRecord};
use crate::segment;
use crate::segment::{max_of, min_doc_len_of, BlockMeta, PostingList, Segment, StoredDocument};
use crate::snapshot;
use crate::snapshot::Snapshot;
use crate::text;
use crate::text::TermMap;
use std::collections::HashMap;
use std::sync::Arc;
use vstd::prelude::*;

verus! {

broadcast use vstd::std_specs::hash::group_hash_axioms;

/// Reads a number of records, each at least `minimum_bytes` long.
pub fn read_count(input: &mut &[u8], minimum_bytes: usize, message: &'static str) -> (result: Result<
    usize,
>)
    ensures
        match record::parse_count(old(input)@, minimum_bytes as nat, message) {
            Ok((count, rest)) => result == Ok::<usize, Error>(count as usize) && final(input)@
                == rest && rest.len() + 4 == old(input)@.len(),
            Err(error) => result == Err::<usize, Error>(error),
        },
{
    let count: u32 = match read_u32(input) {
        Ok(count) => count,
        Err(error) => return Err(error),
    };
    if minimum_bytes != 0 && count as usize > input.len() / minimum_bytes {
        return Err(Error::Corrupt(message));
    }
    Ok(count as usize)
}

fn read_doc(input: &mut &[u8]) -> (result: Result<StoredDocument>)
    ensures
        match record::parse_doc(old(input)@) {
            Ok((doc, rest)) => result matches Ok(stored) && encoding::doc_record(stored) == doc
                && stored.unique_terms@.len() == 0 && 1 <= stored.fields@.len() <= 64
                && final(input)@ == rest && rest.len() < old(input)@.len(),
            Err(error) => result == Err::<StoredDocument, Error>(error),
        },
{
    let rowid: i64 = match read_i64(input) {
        Ok(rowid) => rowid,
        Err(error) => return Err(error),
    };
    let len: u32 = match read_u32(input) {
        Ok(len) => len,
        Err(error) => return Err(error),
    };
    let count: usize = match read_count(input, 4, "invalid field count") {
        Ok(count) => count,
        Err(error) => return Err(error),
    };
    if count == 0 || count > 64 {
        return Err(Error::Corrupt("invalid field count"));
    }
    match read_texts(input, count, "field is not UTF-8") {
        Ok(fields) => Ok(StoredDocument { rowid, fields, len, unique_terms: Vec::new() }),
        Err(error) => Err(error),
    }
}

fn read_docs(input: &mut &[u8]) -> (result: Result<Vec<StoredDocument>>)
    ensures
        match record::parse_docs(old(input)@) {
            Ok((docs, rest)) => result matches Ok(stored) && encoding::doc_records(stored@) == docs
                && final(input)@ == rest && stored@.len() + rest.len() <= old(input)@.len()
                && stored@.len() <= u32::MAX && forall|d: int|
                0 <= d < stored@.len() ==> (#[trigger] stored@[d]).unique_terms@.len() == 0 && 1
                    <= stored@[d].fields@.len() <= 64,
            Err(error) => result == Err::<Vec<StoredDocument>, Error>(error),
        },
{
    let count: usize = match read_count(input, 16, "invalid document count") {
        Ok(count) => count,
        Err(error) => return Err(error),
    };
    let ghost item = record::doc_parser();
    let ghost start = input@;
    let mut docs: Vec<StoredDocument> = Vec::new();
    assert(encoding::doc_records(docs@) =~= Seq::empty());
    while docs.len() < count
        invariant
            docs@.len() <= count <= u32::MAX,
            item == record::doc_parser(),
            start.len() <= old(input)@.len(),
            docs@.len() + input@.len() <= start.len(),
            record::parse_docs(old(input)@) == parsing::parse_list(
                input@,
                encoding::doc_records(docs@),
                count as nat,
                item,
            ),
            forall|d: int|
                0 <= d < docs@.len() ==> (#[trigger] docs@[d]).unique_terms@.len() == 0 && 1
                    <= docs@[d].fields@.len() <= 64,
        decreases count - docs@.len(),
    {
        let ghost before = docs@;
        match read_doc(input) {
            Ok(doc) => {
                docs.push(doc);
                assert(encoding::doc_records(docs@) =~= encoding::doc_records(before).push(
                    encoding::doc_record(doc),
                ));
            },
            Err(error) => return Err(error),
        }
    }
    Ok(docs)
}

fn read_positions(input: &mut &[u8], count: usize) -> (result: Result<Vec<u32>>)
    ensures
        match parsing::parse_list(
            old(input)@,
            Seq::empty(),
            count as nat,
            record::position_parser(),
        ) {
            Ok((positions, rest)) => result matches Ok(numbers) && numbers@ == positions
                && positions.len() == count && segment::increasing(positions) && final(input)@
                == rest && rest.len() <= old(input)@.len(),
            Err(error) => result == Err::<Vec<u32>, Error>(error),
        },
{
    let ghost item = record::position_parser();
    let ghost start = input@;
    let mut positions: Vec<u32> = Vec::new();
    assert(positions@ =~= Seq::empty());
    while positions.len() < count
        invariant
            positions@.len() <= count,
            item == record::position_parser(),
            start == old(input)@,
            input@.len() <= start.len(),
            segment::increasing(positions@),
            parsing::parse_list(start, Seq::empty(), count as nat, item) == parsing::parse_list(
                input@,
                positions@,
                count as nat,
                item,
            ),
        decreases count - positions@.len(),
    {
        let position: u32 = match read_u32(input) {
            Ok(position) => position,
            Err(error) => return Err(error),
        };
        if positions.len() > 0 && positions[positions.len() - 1] >= position {
            return Err(Error::Corrupt("posting positions are not increasing"));
        }
        let ghost before = positions@;
        positions.push(position);
        assert(segment::increasing(positions@)) by {
            assert forall|i: int, j: int| 0 <= i < j < positions@.len() implies #[trigger]
                positions@[i] < #[trigger] positions@[j] by {
                if j == before.len() && i < before.len() - 1 {
                    assert(before[i] < before[before.len() - 1]);
                }
            }
        }
    }
    Ok(positions)
}

/// Reads the posting behind those of `list`.
fn read_posting(input: &mut &[u8], docs: usize, list: &PostingList) -> (result: Result<
    (u32, u32, Vec<u32>),
>)
    ensures
        match record::parse_posting(docs as nat, encoding::posting_records(*list), old(input)@) {
            Ok((posting, rest)) => result matches Ok(read) && posting == (PostingRecord {
                docid: read.0,
                freq: read.1,
                positions: read.2@,
            }) && record::sound_posting(docs as nat, posting) && (list.docids@.len() > 0
                ==> list.docids@.last() < posting.docid) && final(input)@ == rest && rest.len()
                < old(input)@.len(),
            Err(error) => result == Err::<(u32, u32, Vec<u32>), Error>(error),
        },
{
    let docid: u32 = match read_u32(input) {
        Ok(docid) => docid,
        Err(error) => return Err(error),
    };
    let freq: u32 = match read_u32(input) {
        Ok(freq) => freq,
        Err(error) => return Err(error),
    };
    let count: usize = list.docids.len();
    if docid as usize >= docs || (count > 0 && list.docids[count - 1] >= docid) {
        return Err(Error::Corrupt("posting docids are invalid"));
    }
    let position_count: usize = match read_count(input, 4, "invalid position count") {
        Ok(count) => count,
        Err(error) => return Err(error),
    };
    if freq == 0 || position_count != freq as usize {
        return Err(Error::Corrupt("posting frequency does not match positions"));
    }
    match read_positions(input, position_count) {
        Ok(positions) => Ok((docid, freq, positions)),
        Err(error) => Err(error),
    }
}

/// What is known of a list whose streams have been read.
spec fn streams_read(list: PostingList, docs: nat) -> bool {
    &&& encoding::aligned(list)
    &&& segment::increasing(list.docids@)
    &&& forall|i: int|
        0 <= i < list.docids@.len() ==> record::sound_posting(
            docs,
            #[trigger] encoding::posting_record(list, i),
        )
    &&& list.blocks@.len() == 0
}

fn read_postings(input: &mut &[u8], docs: usize) -> (result: Result<PostingList>)
    ensures
        match record::parse_postings(docs as nat, old(input)@) {
            Ok((postings, rest)) => result matches Ok(list) && encoding::posting_records(list)
                == postings && streams_read(list, docs as nat) && 0 < list.docids@.len() <= docs
                && list.docids@.len() <= u32::MAX && final(input)@ == rest && rest.len()
                < old(input)@.len(),
            Err(error) => result == Err::<PostingList, Error>(error),
        },
{
    let count: usize = match read_count(input, 12, "invalid posting count") {
        Ok(count) => count,
        Err(error) => return Err(error),
    };
    if count == 0 || count > docs {
        return Err(Error::Corrupt("invalid posting count"));
    }
    let ghost item = record::posting_parser(docs as nat);
    let ghost start = input@;
    let mut list = PostingList::new();
    assert(encoding::posting_records(list) =~= Seq::empty());
    while list.docids.len() < count
        invariant
            list.docids@.len() <= count <= docs,
            0 < count <= u32::MAX,
            item == record::posting_parser(docs as nat),
            start.len() < old(input)@.len(),
            input@.len() <= start.len(),
            streams_read(list, docs as nat),
            record::parse_postings(docs as nat, old(input)@) == parsing::parse_list(
                input@,
                encoding::posting_records(list),
                count as nat,
                item,
            ),
        decreases count - list.docids@.len(),
    {
        let (docid, freq, positions) = match read_posting(input, docs, &list) {
            Ok(read) => read,
            Err(error) => return Err(error),
        };
        let ghost before = list;
        list.docids.push(docid);
        list.freqs.push(freq);
        list.positions.push(positions);
        proof {
            let posting = PostingRecord { docid, freq, positions: positions@ };
            assert(encoding::posting_records(list) =~= encoding::posting_records(before).push(
                posting,
            ));
            assert forall|i: int, j: int| 0 <= i < j < list.docids@.len() implies #[trigger]
                list.docids@[i] < #[trigger] list.docids@[j] by {
                if j == before.docids@.len() && i < before.docids@.len() - 1 {
                    assert(before.docids@[i] < before.docids@[before.docids@.len() - 1]);
                }
            }
            assert forall|i: int| 0 <= i < list.docids@.len() implies record::sound_posting(
                docs as nat,
                #[trigger] encoding::posting_record(list, i),
            ) by {
                if i < before.docids@.len() {
                    assert(encoding::posting_record(list, i) == encoding::posting_record(
                        before,
                        i,
                    ));
                }
            }
        }
    }
    Ok(list)
}

/// The records of a list say what its streams say.
proof fn lemma_streams(list: PostingList, docs: Seq<StoredDocument>)
    requires
        streams_read(list, docs.len()),
    ensures
        record::docids_of(encoding::posting_records(list)) == list.docids@,
        record::freqs_of(encoding::posting_records(list)) == list.freqs@,
        record::lens_of(encoding::posting_records(list), encoding::doc_records(docs))
            == segment::doc_lens(list.docids@, docs),
        forall|i: int| 0 <= i < list.docids@.len() ==> #[trigger] list.docids@[i] < docs.len(),
{
    let postings = encoding::posting_records(list);
    assert forall|i: int| 0 <= i < list.docids@.len() implies #[trigger] list.docids@[i]
        < docs.len() by {
        assert(record::sound_posting(docs.len(), encoding::posting_record(list, i)));
    }
    assert(record::docids_of(postings) =~= list.docids@);
    assert(record::freqs_of(postings) =~= list.freqs@);
    assert(record::lens_of(postings, encoding::doc_records(docs)) =~= segment::doc_lens(
        list.docids@,
        docs,
    ));
}

fn read_block(input: &mut &[u8]) -> (result: Result<BlockMeta>)
    ensures
        match record::parse_raw_block(old(input)@) {
            Ok((block, rest)) => result == Ok::<BlockMeta, Error>(block) && final(input)@ == rest
                && rest.len() <= old(input)@.len(),
            Err(error) => result == Err::<BlockMeta, Error>(error),
        },
{
    let end: u32 = match read_u32(input) {
        Ok(value) => value,
        Err(error) => return Err(error),
    };
    let last_docid: u32 = match read_u32(input) {
        Ok(value) => value,
        Err(error) => return Err(error),
    };
    let max_tf: u32 = match read_u32(input) {
        Ok(value) => value,
        Err(error) => return Err(error),
    };
    let min_doc_len: u32 = match read_u32(input) {
        Ok(value) => value,
        Err(error) => return Err(error),
    };
    Ok(BlockMeta { end, last_docid, max_tf, min_doc_len })
}

fn read_blocks(input: &mut &[u8], list: &PostingList, docs: &Vec<StoredDocument>) -> (result: Result<
    Vec<BlockMeta>,
>)
    requires
        streams_read(*list, docs@.len()),
        0 < list.docids@.len() <= u32::MAX,
    ensures
        match record::parse_blocks(
            encoding::posting_records(*list),
            encoding::doc_records(docs@),
            old(input)@,
        ) {
            Ok((blocks, rest)) => result matches Ok(read) && read@ == blocks && blocks.len()
                == segment::block_count(list.docids@.len()) && (forall|k: int|
                0 <= k < blocks.len() ==> #[trigger] blocks[k] == segment::block_meta(
                    list.docids@,
                    list.freqs@,
                    docs@,
                    k,
                )) && final(input)@ == rest && rest.len() <= old(input)@.len(),
            Err(error) => result == Err::<Vec<BlockMeta>, Error>(error),
        },
{
    let ghost postings = encoding::posting_records(*list);
    let ghost records = encoding::doc_records(docs@);
    proof {
        lemma_streams(*list, docs@);
    }
    let count: usize = match read_count(input, 16, "invalid block count") {
        Ok(count) => count,
        Err(error) => return Err(error),
    };
    let total: usize = list.docids.len();
    let expected: usize = total / 128 + if total % 128 == 0 {
        0
    } else {
        1
    };
    if count != expected {
        return Err(Error::Corrupt("invalid block count"));
    }
    let ghost item = record::block_parser(postings, records);
    let ghost start = input@;
    let mut blocks: Vec<BlockMeta> = Vec::new();
    assert(blocks@ =~= Seq::empty());
    while blocks.len() < count
        invariant
            blocks@.len() <= count,
            count == segment::block_count(total as nat),
            total == list.docids@.len(),
            0 < total <= u32::MAX,
            streams_read(*list, docs@.len()),
            postings == encoding::posting_records(*list),
            records == encoding::doc_records(docs@),
            record::docids_of(postings) == list.docids@,
            record::freqs_of(postings) == list.freqs@,
            record::lens_of(postings, records) == segment::doc_lens(list.docids@, docs@),
            forall|i: int|
                0 <= i < list.docids@.len() ==> #[trigger] list.docids@[i] < docs@.len(),
            item == record::block_parser(postings, records),
            start.len() <= old(input)@.len(),
            input@.len() <= start.len(),
            forall|k: int|
                0 <= k < blocks@.len() ==> #[trigger] blocks@[k] == segment::block_meta(
                    list.docids@,
                    list.freqs@,
                    docs@,
                    k,
                ),
            record::parse_blocks(postings, records, old(input)@) == parsing::parse_list(
                input@,
                blocks@,
                count as nat,
                item,
            ),
        decreases count - blocks@.len(),
    {
        let block: BlockMeta = match read_block(input) {
            Ok(block) => block,
            Err(error) => return Err(error),
        };
        let ghost k = blocks@.len() as int;
        assert(k * 128 < total);
        let from: usize = blocks.len() * 128;
        let to: usize = if total - from > 128 {
            from + 128
        } else {
            total
        };
        let max_tf: u32 = max_of(&list.freqs, from, to);
        let min_doc_len: u32 = min_doc_len_of(&list.docids, docs, from, to);
        proof {
            assert(to == segment::block_end(k, total as nat));
            assert(postings[to - 1].docid == list.docids@[to - 1]);
            assert(record::block_of(postings, records, k) == segment::block_meta(
                list.docids@,
                list.freqs@,
                docs@,
                k,
            ));
        }
        if block.end as usize != to || block.last_docid != list.docids[to - 1] || block.max_tf
            != max_tf || block.min_doc_len != min_doc_len {
            return Err(Error::Corrupt("invalid block metadata"));
        }
        blocks.push(block);
    }
    Ok(blocks)
}

fn read_bounds(input: &mut &[u8], list: &PostingList, docs: &Vec<StoredDocument>) -> (result: Result<
    (u32, u32),
>)
    requires
        streams_read(*list, docs@.len()),
    ensures
        match record::parse_bounds(
            encoding::posting_records(*list),
            encoding::doc_records(docs@),
            old(input)@,
        ) {
            Ok((bounds, rest)) => result == Ok::<(u32, u32), Error>(bounds) && bounds.0
                == packing::largest(list.freqs@) && bounds.1 == segment::smallest(
                segment::doc_lens(list.docids@, docs@),
            ) && final(input)@ == rest && rest.len() <= old(input)@.len(),
            Err(error) => result == Err::<(u32, u32), Error>(error),
        },
{
    proof {
        lemma_streams(*list, docs@);
    }
    let max_tf: u32 = match read_u32(input) {
        Ok(value) => value,
        Err(error) => return Err(error),
    };
    let min_doc_len: u32 = match read_u32(input) {
        Ok(value) => value,
        Err(error) => return Err(error),
    };
    let total: usize = list.docids.len();
    let expected_max_tf: u32 = max_of(&list.freqs, 0, total);
    let expected_min_doc_len: u32 = min_doc_len_of(&list.docids, docs, 0, total);
    proof {
        let lens = segment::doc_lens(list.docids@, docs@);
        assert(list.freqs@.subrange(0, total as int) =~= list.freqs@);
        assert(lens.subrange(0, total as int) =~= lens);
    }
    if max_tf != expected_max_tf || min_doc_len != expected_min_doc_len {
        return Err(Error::Corrupt("invalid posting-list metadata"));
    }
    Ok((max_tf, min_doc_len))
}

/// Every position of every posting stands once, in order.
pub open spec fn strictly_ordered(list: PostingList) -> bool {
    forall|i: int|
        0 <= i < list.positions@.len() ==> segment::increasing((#[trigger] list.positions@[i])@)
}

/// Reads the list of another term; gives the term, where it belongs, and the list.
fn read_list(
    input: &mut &[u8],
    docs: &Vec<StoredDocument>,
    terms: &TermMap<PostingList>,
    Ghost(done): Ghost<Seq<ListRecord>>,
) -> (result: Result<(String, usize, PostingList)>)
    requires
        terms.wf(),
        docs@.len() <= u32::MAX,
        forall|term: Seq<char>| #[trigger] terms.has(term) == record::names(done, term),
    ensures
        match record::parse_posting_list(encoding::doc_records(docs@), done, old(input)@) {
            Ok((list, rest)) => result matches Ok(read) && list == encoding::list_record(
                read.0@,
                read.2,
            ) && read.0@.len() > 0 && !terms.has(read.0@) && read.2.wf(docs@) && strictly_ordered(
                read.2,
            ) && read.1 <= terms.spec_len() && (forall|i: int|
                0 <= i < read.1 ==> text::text_before(#[trigger] terms.key(i), read.0@)) && (
            forall|i: int|
                read.1 <= i < terms.spec_len() ==> text::text_before(
                    read.0@,
                    #[trigger] terms.key(i),
                )) && final(input)@ == rest && rest.len() <= old(input)@.len(),
            Err(error) => result == Err::<(String, usize, PostingList), Error>(error),
        },
{
    let term: String = match read_text(input, "term is not UTF-8") {
        Ok(term) => term,
        Err(error) => return Err(error),
    };
    let (found, index) = terms.search(term.as_str());
    assert(terms.has(term@) == record::names(done, term@));
    if term.as_str().is_empty() || found {
        return Err(Error::Corrupt("invalid or duplicate term"));
    }
    let mut list: PostingList = match read_postings(input, docs.len()) {
        Ok(list) => list,
        Err(error) => return Err(error),
    };
    let ghost streams = list;
    let blocks: Vec<BlockMeta> = match read_blocks(input, &list, docs) {
        Ok(blocks) => blocks,
        Err(error) => return Err(error),
    };
    let (max_tf, min_doc_len) = match read_bounds(input, &list, docs) {
        Ok(bounds) => bounds,
        Err(error) => return Err(error),
    };
    list.blocks = blocks;
    list.max_tf = max_tf;
    list.min_doc_len = min_doc_len;
    proof {
        lemma_streams(streams, docs@);
        assert(encoding::posting_records(list) =~= encoding::posting_records(streams));
        assert forall|i: int| 0 <= i < list.docids@.len() implies (
        #[trigger] list.positions@[i])@.len() > 0 && list.freqs@[i]
            == list.positions@[i]@.len() as u32 && segment::increasing(list.positions@[i]@) by {
            assert(record::sound_posting(docs@.len(), encoding::posting_record(streams, i)));
        }
    }
    Ok((term, index, list))
}

/// Notes the term for each document of its list.
fn note_term(unique: &mut Vec<Vec<String>>, list: &PostingList, term: &String)
    requires
        segment::increasing(list.docids@),
        forall|i: int|
            0 <= i < list.docids@.len() ==> #[trigger] list.docids@[i] < old(unique)@.len(),
    ensures
        final(unique)@.len() == old(unique)@.len(),
        forall|d: int|
            0 <= d < old(unique)@.len() ==> text::texts((#[trigger] final(unique)@[d])@) == if (
            list.has_doc(d)) {
                text::texts(old(unique)@[d]@).push(term@)
            } else {
                text::texts(old(unique)@[d]@)
            },
{
    let ghost before = unique@;
    let mut done: usize = 0;
    while done < list.docids.len()
        invariant
            done <= list.docids@.len(),
            segment::increasing(list.docids@),
            unique@.len() == before.len(),
            forall|i: int|
                0 <= i < list.docids@.len() ==> #[trigger] list.docids@[i] < before.len(),
            forall|i: int|
                0 <= i < done ==> text::texts(unique@[(#[trigger] list.docids@[i]) as int]@)
                    == text::texts(before[list.docids@[i] as int]@).push(term@),
            forall|d: int|
                0 <= d < before.len() && !(exists|i: int|
                    0 <= i < done && #[trigger] list.docids@[i] == d) ==> (#[trigger] unique@[d])@
                    == before[d]@,
        decreases list.docids@.len() - done,
    {
        let docid: usize = list.docids[done] as usize;
        let ghost earlier = unique@;
        unique[docid].push(term.clone());
        proof {
            assert(text::texts(unique@[docid as int]@) =~= text::texts(
                earlier[docid as int]@,
            ).push(term@));
            assert(earlier[docid as int]@ == before[docid as int]@) by {
                assert forall|i: int| 0 <= i < done implies #[trigger] list.docids@[i]
                    != docid by {
                    assert(list.docids@[i] < list.docids@[done as int]);
                }
            }
            assert forall|i: int| 0 <= i < done implies text::texts(
                unique@[(#[trigger] list.docids@[i]) as int]@,
            ) == text::texts(before[list.docids@[i] as int]@).push(term@) by {
                assert(list.docids@[i] < list.docids@[done as int]);
            }
            assert forall|d: int|
                0 <= d < before.len() && !(exists|i: int|
                    0 <= i < done + 1 && #[trigger] list.docids@[i] == d) implies (
            #[trigger] unique@[d])@ == before[d]@ by {
                assert(list.docids@[done as int] != d);
                assert(!(exists|i: int| 0 <= i < done && #[trigger] list.docids@[i] == d));
            }
        }
        done = done + 1;
    }
    proof {
        assert forall|d: int| 0 <= d < before.len() implies text::texts((#[trigger] unique@[d])@)
            == if (list.has_doc(d)) {
            text::texts(before[d]@).push(term@)
        } else {
            text::texts(before[d]@)
        } by {
            if list.has_doc(d) {
                let i = list.index_of(d);
                assert(list.docids@[i] == d);
            }
        }
    }
}

/// Hands each document its terms.
fn assign_terms(docs: Vec<StoredDocument>, unique: Vec<Vec<String>>) -> (finished: Vec<
    StoredDocument,
>)
    requires
        docs@.len() == unique@.len(),
    ensures
        finished@.len() == docs@.len(),
        forall|d: int|
            0 <= d < docs@.len() ==> (#[trigger] finished@[d]).rowid == docs@[d].rowid
                && finished@[d].len == docs@[d].len && finished@[d].fields == docs@[d].fields
                && finished@[d].unique_terms == unique@[d],
{
    let ghost source = docs@;
    let ghost given = unique@;
    let mut unique = unique;
    let mut finished: Vec<StoredDocument> = Vec::new();
    for doc in it: docs
        invariant
            it.seq() == source,
            source.len() == given.len(),
            finished@.len() == it.index(),
            unique@.len() == given.len(),
            forall|d: int| it.index() <= d < given.len() ==> #[trigger] unique@[d] == given[d],
            forall|d: int|
                0 <= d < it.index() ==> (#[trigger] finished@[d]).rowid == source[d].rowid
                    && finished@[d].len == source[d].len && finished@[d].fields == source[d].fields
                    && finished@[d].unique_terms == given[d],
    {
        let index: usize = finished.len();
        let mut unique_terms: Vec<String> = Vec::new();
        std::mem::swap(&mut unique_terms, &mut unique[index]);
        finished.push(
            StoredDocument { rowid: doc.rowid, fields: doc.fields, len: doc.len, unique_terms },
        );
    }
    finished
}

/// A list is sound for documents of the same lengths.
proof fn lemma_same_lengths(
    list: PostingList,
    docs: Seq<StoredDocument>,
    other: Seq<StoredDocument>,
)
    requires
        list.wf(docs),
        docs.len() == other.len(),
        forall|d: int| 0 <= d < docs.len() ==> (#[trigger] docs[d]).len == other[d].len,
    ensures
        list.wf(other),
{
    let lens = segment::doc_lens(list.docids@, docs);
    assert forall|i: int| 0 <= i < list.docids@.len() implies lens[i] == segment::doc_lens(
        list.docids@,
        other,
    )[i] by {
        assert(list.docids@[i] < docs.len());
    }
    assert(lens =~= segment::doc_lens(list.docids@, other));
    assert forall|k: int| 0 <= k < list.blocks@.len() implies #[trigger] list.blocks@[k]
        == segment::block_meta(list.docids@, list.freqs@, other, k) by {
        assert(list.blocks@[k] == segment::block_meta(list.docids@, list.freqs@, docs, k));
    }
}

/// The segment holds the documents and the lists of the record; each document names
/// its terms as their lists stand in the record.
pub open spec fn restores(segment: &Segment, written: SegmentRecord) -> bool {
    &&& encoding::doc_records(segment.docs@) == written.docs
    &&& segment.terms.spec_len() == written.lists.len()
    &&& forall|l: int|
        0 <= l < written.lists.len() ==> (segment.terms.lookup(
            (#[trigger] written.lists[l]).term,
        ) matches Some(list) && encoding::list_record(written.lists[l].term, list)
            == written.lists[l])
    &&& forall|d: int|
        0 <= d < segment.docs@.len() ==> text::texts((#[trigger] segment.docs@[d]).unique_terms@)
            == record::terms_in(written.lists, d)
}

/// What is known of the terms when some of the lists have been read.
spec fn terms_read(
    terms: TermMap<PostingList>,
    done: Seq<ListRecord>,
    docs: Seq<StoredDocument>,
    term: Seq<char>,
) -> bool {
    match terms.lookup(term) {
        Some(list) => record::names(done, term) && term.len() > 0 && list.wf(docs)
            && strictly_ordered(list),
        None => !record::names(done, term),
    }
}

/// Whether the term stands in the document.
spec fn listed(terms: TermMap<PostingList>, docid: int, term: Seq<char>) -> bool {
    terms.lookup(term) matches Some(list) && list.has_doc(docid)
}

/// Lists read and terms noted make a sound segment.
proof fn lemma_segment(
    built: Segment,
    done: Seq<ListRecord>,
    docs: Seq<StoredDocument>,
    unique: Seq<Vec<String>>,
)
    requires
        docs.len() <= u32::MAX,
        built.docs@.len() == docs.len(),
        unique.len() == docs.len(),
        forall|d: int|
            0 <= d < docs.len() ==> (#[trigger] built.docs@[d]).rowid == docs[d].rowid
                && built.docs@[d].len == docs[d].len && built.docs@[d].fields == docs[d].fields
                && built.docs@[d].unique_terms == unique[d],
        built.terms.wf(),
        forall|term: Seq<char>| #[trigger] terms_read(built.terms, done, docs, term),
        forall|d: int|
            0 <= d < docs.len() ==> text::texts((#[trigger] unique[d])@).no_duplicates(),
        forall|d: int, term: Seq<char>|
            0 <= d < docs.len() ==> #[trigger] text::texts(unique[d]@).contains(term) == listed(
                built.terms,
                d,
                term,
            ),
    ensures
        built.wf(),
        built.ordered(),
        forall|t: int|
            0 <= t < built.terms.spec_len() ==> strictly_ordered(#[trigger] built.terms.value(t))
                && built.terms.key(t).len() > 0,
{
    assert forall|t: int| 0 <= t < built.terms.spec_len() implies (
    #[trigger] built.terms.value(t)).wf(built.docs@) && strictly_ordered(built.terms.value(t))
        && built.terms.key(t).len() > 0 && built.terms.value(t).ordered() by {
        built.terms.lemma_lookup(t);
        assert(terms_read(built.terms, done, docs, built.terms.key(t)));
        lemma_same_lengths(built.terms.value(t), docs, built.docs@);
        let list = built.terms.value(t);
        assert forall|i: int| 0 <= i < list.positions@.len() implies segment::ascending(
            (#[trigger] list.positions@[i])@,
        ) by {
            assert(segment::increasing(list.positions@[i]@));
        }
    }
    assert forall|d: int| 0 <= d < built.docs@.len() implies text::texts(
        (#[trigger] built.docs@[d]).unique_terms@,
    ).no_duplicates() by {
        assert(text::texts(unique[d]@).no_duplicates());
    }
    assert forall|d: int, term: Seq<char>| 0 <= d < built.docs@.len() implies (
    #[trigger] built.docs@[d].lists(term) == built.holds(d, term)) by {
        assert(text::texts(unique[d]@).contains(term) == listed(built.terms, d, term));
        assert(terms_read(built.terms, done, docs, term));
        if listed(built.terms, d, term) {
            let list = built.terms.lookup(term)->0;
            let index = list.index_of(d);
            assert(list.docids@[index] == d);
            assert(list.positions@[index]@.len() > 0);
        }
    }
}

fn read_segment(input: &mut &[u8]) -> (result: Result<Segment>)
    ensures
        match record::parse_segment(old(input)@) {
            Ok((written, rest)) => result matches Ok(built) && restores(&built, written)
                && built.wf() && built.ordered() && encoding::restorable_segment(&built)
                && final(input)@ == rest && built.docs@.len() + rest.len() <= old(input)@.len(),
            Err(error) => result == Err::<Segment, Error>(error),
        },
{
    let docs: Vec<StoredDocument> = match read_docs(input) {
        Ok(docs) => docs,
        Err(error) => return Err(error),
    };
    let ghost records = encoding::doc_records(docs@);
    let ghost behind_docs = input@;
    let count: usize = match read_count(input, 4, "invalid term count") {
        Ok(count) => count,
        Err(error) => return Err(error),
    };
    let ghost item = record::list_parser(records);
    let ghost mut done = Seq::<ListRecord>::empty();
    let mut terms: TermMap<PostingList> = TermMap::new();
    let mut unique: Vec<Vec<String>> = Vec::new();
    while unique.len() < docs.len()
        invariant
            unique@.len() <= docs@.len(),
            forall|d: int| 0 <= d < unique@.len() ==> (#[trigger] unique@[d])@.len() == 0,
        decreases docs@.len() - unique@.len(),
    {
        unique.push(Vec::new());
    }
    let mut read: usize = 0;
    proof {
        assert forall|term: Seq<char>| #[trigger] terms_read(terms, done, docs@, term) by {
            assert(terms.lookup(term) is None);
        }
        assert forall|d: int, term: Seq<char>| 0 <= d < docs@.len() implies #[trigger] text::texts(
            unique@[d]@,
        ).contains(term) == listed(terms, d, term) by {
            assert(terms.lookup(term) is None);
        }
    }
    while read < count
        invariant
            read <= count <= u32::MAX,
            docs@.len() <= u32::MAX,
            records == encoding::doc_records(docs@),
            item == record::list_parser(records),
            docs@.len() + input@.len() <= old(input)@.len(),
            done.len() == read,
            terms.wf(),
            terms.spec_len() == read,
            record::parse_segment(old(input)@) == (match parsing::parse_list(
                input@,
                done,
                count as nat,
                item,
            ) {
                Ok((lists, rest)) => Ok((SegmentRecord { docs: records, lists }, rest)),
                Err(error) => Err(error),
            }),
            forall|term: Seq<char>| #[trigger] terms_read(terms, done, docs@, term),
            forall|l: int|
                0 <= l < done.len() ==> (terms.lookup((#[trigger] done[l]).term) matches Some(list)
                    && encoding::list_record(done[l].term, list) == done[l]),
            unique@.len() == docs@.len(),
            forall|d: int|
                0 <= d < docs@.len() ==> text::texts((#[trigger] unique@[d])@).no_duplicates(),
            forall|d: int, term: Seq<char>|
                0 <= d < docs@.len() ==> #[trigger] text::texts(unique@[d]@).contains(term)
                    == listed(terms, d, term),
            forall|d: int|
                0 <= d < docs@.len() ==> text::texts((#[trigger] unique@[d])@) == record::terms_in(
                    done,
                    d,
                ),
            forall|d: int| 0 <= d < docs@.len() ==> 1 <= (#[trigger] docs@[d]).fields@.len() <= 64,
        decreases count - read,
    {
        proof {
            assert forall|term: Seq<char>| #[trigger] terms.has(term) == record::names(
                done,
                term,
            ) by {
                assert(terms_read(terms, done, docs@, term));
            }
        }
        let (term, index, list) = match read_list(input, &docs, &terms, Ghost(done)) {
            Ok(read) => read,
            Err(error) => return Err(error),
        };
        let ghost before = terms;
        let ghost earlier = unique@;
        let ghost was = done;
        let ghost added = encoding::list_record(term@, list);
        note_term(&mut unique, &list, &term);
        let ghost name = term@;
        terms.insert_at(index, term, list);
        proof {
            done = done.push(added);
            assert(before.lookup(name) is None);
            assert(terms_read(before, was, docs@, name));
            assert forall|other: Seq<char>| #[trigger] terms_read(terms, done, docs@, other) by {
                assert(terms_read(before, was, docs@, other));
                if record::names(was, other) {
                    let l = choose|l: int|
                        0 <= l < was.len() && (#[trigger] was[l]).term == other;
                    assert(done[l].term == other);
                } else if record::names(done, other) {
                    let l = choose|l: int|
                        0 <= l < done.len() && (#[trigger] done[l]).term == other;
                    assert(l == was.len());
                }
                if other == name {
                    assert(done[was.len() as int].term == other);
                }
            }
            assert forall|l: int| 0 <= l < done.len() implies (terms.lookup(
                (#[trigger] done[l]).term,
            ) matches Some(list) && encoding::list_record(done[l].term, list) == done[l]) by {
                if l < was.len() {
                    assert(was[l].term == done[l].term);
                    assert(record::names(was, done[l].term));
                    assert(done[l].term != name);
                }
            }
            assert forall|d: int| 0 <= d < docs@.len() implies text::texts(
                (#[trigger] unique@[d])@,
            ).no_duplicates() by {
                assert(text::texts(earlier[d]@).no_duplicates());
                assert(text::texts(earlier[d]@).contains(name) == listed(before, d, name));
                lemma_push_new(text::texts(earlier[d]@), name);
            }
            assert forall|d: int, other: Seq<char>| 0 <= d < docs@.len() implies #[trigger]
                text::texts(unique@[d]@).contains(other) == listed(terms, d, other) by {
                assert(text::texts(earlier[d]@).contains(other) == listed(before, d, other));
                assert(text::texts(unique@[d]@) == if list.has_doc(d) {
                    text::texts(earlier[d]@).push(name)
                } else {
                    text::texts(earlier[d]@)
                });
                lemma_push_contains(text::texts(earlier[d]@), name, other);
            }
        }
        proof {
            assert(done.drop_last() =~= was);
            assert(done.last() == added);
            assert forall|d: int| 0 <= d < docs@.len() implies text::texts((#[trigger] unique@[d])@)
                == record::terms_in(done, d) by {
                assert(text::texts(earlier[d]@) == record::terms_in(was, d));
                assert(text::texts(unique@[d]@) == if list.has_doc(d) {
                    text::texts(earlier[d]@).push(name)
                } else {
                    text::texts(earlier[d]@)
                });
                lemma_posts(list, name, d);
            }
        }
        read = read + 1;
    }
    let ghost bare = docs@;
    let ghost given = unique@;
    let finished = assign_terms(docs, unique);
    let built = Segment { docs: finished, terms };
    proof {
        lemma_segment(built, done, bare, given);
        assert(encoding::doc_records(built.docs@) =~= records);
        assert forall|d: int| 0 <= d < built.docs@.len() implies text::texts(
            (#[trigger] built.docs@[d]).unique_terms@,
        ) == record::terms_in(done, d) by {
            assert(text::texts(given[d]@) == record::terms_in(done, d));
        }
        assert forall|d: int| 0 <= d < built.docs@.len() implies 1 <= (
        #[trigger] built.docs@[d]).fields@.len() <= 64 by {
            assert(1 <= bare[d].fields@.len() <= 64);
        }
        if built.terms.has(Seq::empty()) {
            let t = built.terms.position(Seq::empty());
            assert(strictly_ordered(built.terms.value(t)));
            assert(built.terms.key(t).len() > 0);
        }
    }
    Ok(built)
}

/// A list and its record agree on which documents they hold.
pub(crate) proof fn lemma_posts(list: PostingList, term: Seq<char>, docid: int)
    ensures
        record::posts(encoding::list_record(term, list), docid) == list.has_doc(docid),
{
    let postings = encoding::list_record(term, list).postings;
    if list.has_doc(docid) {
        let i = list.index_of(docid);
        assert(list.docids@[i] == docid);
        assert(postings[i].docid == docid);
    }
    if record::posts(encoding::list_record(term, list), docid) {
        let i = choose|i: int| 0 <= i < postings.len() && (#[trigger] postings[i]).docid == docid;
        assert(list.docids@[i] == docid);
    }
}

proof fn lemma_push_new(texts: Seq<Seq<char>>, added: Seq<char>)
    requires
        texts.no_duplicates(),
        !texts.contains(added),
    ensures
        texts.push(added).no_duplicates(),
{
    let longer = texts.push(added);
    assert forall|i: int, j: int|
        0 <= i < longer.len() && 0 <= j < longer.len() && i != j implies longer[i] != longer[j] by {
        if i == texts.len() {
            assert(texts.contains(texts[j]));
        } else if j == texts.len() {
            assert(texts.contains(texts[i]));
        }
    }
}

proof fn lemma_push_contains(texts: Seq<Seq<char>>, added: Seq<char>, other: Seq<char>)
    ensures
        texts.push(added).contains(other) == (texts.contains(other) || added == other),
{
    let longer = texts.push(added);
    if texts.contains(other) {
        let i = choose|i: int| 0 <= i < texts.len() && texts[i] == other;
        assert(longer[i] == other);
    }
    if added == other {
        assert(longer[texts.len() as int] == other);
    }
    if longer.contains(other) {
        let i = choose|i: int| 0 <= i < longer.len() && longer[i] == other;
        if i < texts.len() {
            assert(texts[i] == other);
        }
    }
}

/// Whether a rowid stands twice in the segments.
fn has_duplicate_rowid(segments: &Vec<Arc<Segment>>) -> (result: bool)
    ensures
        result == !snapshot::distinct_docs(segments@),
{
    let mut seen: HashMap<i64, bool> = HashMap::new();
    let ghost all = segments@;
    let mut s: usize = 0;
    while s < segments.len()
        invariant
            s <= segments@.len(),
            all == segments@,
            forall|rowid: i64| #[trigger]
                seen@.contains_key(rowid) == seen_before(all, s as int, 0, rowid),
            distinct_before(all, s as int, 0),
        decreases segments@.len() - s,
    {
        let segment = &segments[s];
        let mut d: usize = 0;
        while d < segment.docs.len()
            invariant
                s < segments@.len(),
                all == segments@,
                *segment == all[s as int],
                d <= segment.docs@.len(),
                forall|rowid: i64| #[trigger]
                    seen@.contains_key(rowid) == seen_before(all, s as int, d as int, rowid),
                distinct_before(all, s as int, d as int),
            decreases segment.docs@.len() - d,
        {
            let rowid: i64 = segment.docs[d].rowid;
            let ghost before = seen@;
            let replaced = seen.insert(rowid, true);
            if replaced.is_some() {
                proof {
                    assert(before.contains_key(rowid));
                    assert(seen_before(all, s as int, d as int, rowid));
                    let (t, e) = choose|t: int, e: int|
                        earlier(all, t, e, s as int, d as int) && (
                        #[trigger] all[t].docs@[e]).rowid == rowid;
                    assert(all[s as int].docs@[d as int].rowid == all[t].docs@[e].rowid);
                }
                return true;
            }
            proof {
                assert(!before.contains_key(rowid));
                assert(!seen_before(all, s as int, d as int, rowid));
                lemma_next_doc(all, s as int, d as int);
                assert forall|other: i64| #[trigger] seen@.contains_key(other) == seen_before(
                    all,
                    s as int,
                    d + 1,
                    other,
                ) by {
                    assert(before.contains_key(other) == seen_before(
                        all,
                        s as int,
                        d as int,
                        other,
                    ));
                }
            }
            d = d + 1;
        }
        proof {
            lemma_next_segment(all, s as int);
            assert forall|rowid: i64| #[trigger] seen@.contains_key(rowid) == seen_before(
                all,
                s + 1,
                0,
                rowid,
            ) by {
                assert(seen@.contains_key(rowid) == seen_before(
                    all,
                    s as int,
                    all[s as int].docs@.len() as int,
                    rowid,
                ));
            }
        }
        s = s + 1;
    }
    proof {
        lemma_all_before(all);
    }
    false
}

/// Document `e` of segment `t` stands before document `d` of segment `s`.
spec fn earlier(segments: Seq<Arc<Segment>>, t: int, e: int, s: int, d: int) -> bool {
    0 <= t < segments.len() && 0 <= e < segments[t].docs@.len() && (t < s || (t == s && e < d))
}

/// One of the documents before has this rowid.
spec fn seen_before(segments: Seq<Arc<Segment>>, s: int, d: int, rowid: i64) -> bool {
    exists|t: int, e: int|
        earlier(segments, t, e, s, d) && (#[trigger] segments[t].docs@[e]).rowid == rowid
}

/// The documents before have different rowids.
spec fn distinct_before(segments: Seq<Arc<Segment>>, s: int, d: int) -> bool {
    forall|t: int, e: int, u: int, f: int|
        earlier(segments, t, e, s, d) && earlier(segments, u, f, s, d) && (t != u || e != f) ==> (
        #[trigger] segments[t].docs@[e]).rowid != (#[trigger] segments[u].docs@[f]).rowid
}

proof fn lemma_next_doc(segments: Seq<Arc<Segment>>, s: int, d: int)
    requires
        0 <= s < segments.len(),
        0 <= d < segments[s].docs@.len(),
        distinct_before(segments, s, d),
        !seen_before(segments, s, d, segments[s].docs@[d].rowid),
    ensures
        distinct_before(segments, s, d + 1),
        forall|rowid: i64| #[trigger]
            seen_before(segments, s, d + 1, rowid) == (seen_before(segments, s, d, rowid)
                || segments[s].docs@[d].rowid == rowid),
{
    let rowid = segments[s].docs@[d].rowid;
    assert forall|t: int, e: int, u: int, f: int|
        earlier(segments, t, e, s, d + 1) && earlier(segments, u, f, s, d + 1) && (t != u || e
            != f) implies (#[trigger] segments[t].docs@[e]).rowid != (
    #[trigger] segments[u].docs@[f]).rowid by {
        if t == s && e == d {
            assert(earlier(segments, u, f, s, d));
        } else if u == s && f == d {
            assert(earlier(segments, t, e, s, d));
        } else {
            assert(earlier(segments, t, e, s, d) && earlier(segments, u, f, s, d));
        }
    }
    assert forall|other: i64| #[trigger] seen_before(segments, s, d + 1, other) == (seen_before(
        segments,
        s,
        d,
        other,
    ) || rowid == other) by {
        if seen_before(segments, s, d + 1, other) {
            let (t, e) = choose|t: int, e: int|
                earlier(segments, t, e, s, d + 1) && (#[trigger] segments[t].docs@[e]).rowid
                    == other;
            if !(t == s && e == d) {
                assert(earlier(segments, t, e, s, d) && segments[t].docs@[e].rowid == other);
            }
        }
        if seen_before(segments, s, d, other) {
            let (t, e) = choose|t: int, e: int|
                earlier(segments, t, e, s, d) && (#[trigger] segments[t].docs@[e]).rowid == other;
            assert(earlier(segments, t, e, s, d + 1) && segments[t].docs@[e].rowid == other);
        }
        if rowid == other {
            assert(earlier(segments, s, d, s, d + 1) && segments[s].docs@[d].rowid == other);
        }
    }
}

proof fn lemma_next_segment(segments: Seq<Arc<Segment>>, s: int)
    requires
        0 <= s < segments.len(),
        distinct_before(segments, s, segments[s].docs@.len() as int),
    ensures
        distinct_before(segments, s + 1, 0),
        forall|rowid: i64| #[trigger]
            seen_before(segments, s + 1, 0, rowid) == seen_before(
                segments,
                s,
                segments[s].docs@.len() as int,
                rowid,
            ),
{
    let end = segments[s].docs@.len() as int;
    assert forall|t: int, e: int| #[trigger] earlier(segments, t, e, s + 1, 0) == earlier(
        segments,
        t,
        e,
        s,
        end,
    ) by {}
    assert forall|rowid: i64| #[trigger] seen_before(segments, s + 1, 0, rowid) == seen_before(
        segments,
        s,
        end,
        rowid,
    ) by {
        if seen_before(segments, s + 1, 0, rowid) {
            let (t, e) = choose|t: int, e: int|
                earlier(segments, t, e, s + 1, 0) && (#[trigger] segments[t].docs@[e]).rowid
                    == rowid;
            assert(earlier(segments, t, e, s, end) && segments[t].docs@[e].rowid == rowid);
        }
        if seen_before(segments, s, end, rowid) {
            let (t, e) = choose|t: int, e: int|
                earlier(segments, t, e, s, end) && (#[trigger] segments[t].docs@[e]).rowid
                    == rowid;
            assert(earlier(segments, t, e, s + 1, 0) && segments[t].docs@[e].rowid == rowid);
        }
    }
    assert forall|t: int, e: int, u: int, f: int|
        earlier(segments, t, e, s + 1, 0) && earlier(segments, u, f, s + 1, 0) && (t != u || e
            != f) implies (#[trigger] segments[t].docs@[e]).rowid != (
    #[trigger] segments[u].docs@[f]).rowid by {
        assert(earlier(segments, t, e, s, end) && earlier(segments, u, f, s, end));
    }
}

proof fn lemma_all_before(segments: Seq<Arc<Segment>>)
    requires
        distinct_before(segments, segments.len() as int, 0),
    ensures
        snapshot::distinct_docs(segments),
{
    let end = segments.len() as int;
    assert forall|s: int, d: int, t: int, e: int|
        0 <= s < segments.len() && 0 <= d < segments[s].docs@.len() && 0 <= t < segments.len() && 0
            <= e < segments[t].docs@.len() && (s != t || d != e) implies (
    #[trigger] segments[s].docs@[d]).rowid != (#[trigger] segments[t].docs@[e]).rowid by {
        assert(earlier(segments, s, d, end, 0) && earlier(segments, t, e, end, 0));
    }
}

/// The snapshot holds what the record says, and all of it lives.
pub open spec fn restored(current: Snapshot, written: SnapshotRecord) -> bool {
    &&& current.generation == written.generation
    &&& current.segments@.len() == written.segments.len()
    &&& forall|s: int|
        0 <= s < written.segments.len() ==> restores(
            &current.segments@[s],
            #[trigger] written.segments[s],
        )
    &&& current.all_live()
    &&& forall|rowid: i64| #[trigger]
        current.latest@.contains_key(rowid) ==> !current.latest@[rowid].deleted
}

/// Segments and their records agree on which rowids differ.
proof fn lemma_distinct(segments: Seq<Arc<Segment>>, written: Seq<SegmentRecord>)
    requires
        segments.len() == written.len(),
        forall|s: int| 0 <= s < written.len() ==> restores(&segments[s], #[trigger] written[s]),
    ensures
        snapshot::distinct_docs(segments) == record::distinct_records(written),
{
    assert forall|s: int, d: int|
        0 <= s < segments.len() && 0 <= d < segments[s].docs@.len() implies (
    #[trigger] segments[s].docs@[d]).rowid == written[s].docs[d].rowid && written[s].docs.len()
        == segments[s].docs@.len() by {
        assert(restores(&segments[s], written[s]));
        assert(written[s].docs[d] == encoding::doc_record(segments[s].docs@[d]));
    }
    assert forall|s: int| 0 <= s < segments.len() implies #[trigger] written[s].docs.len()
        == segments[s].docs@.len() by {
        assert(restores(&segments[s], written[s]));
        assert(encoding::doc_records(segments[s].docs@).len() == segments[s].docs@.len());
    }
    if snapshot::distinct_docs(segments) {
        assert forall|s: int, d: int, t: int, e: int|
            0 <= s < written.len() && 0 <= d < written[s].docs.len() && 0 <= t < written.len() && 0
                <= e < written[t].docs.len() && (s != t || d != e) implies (
        #[trigger] written[s].docs[d]).rowid != (#[trigger] written[t].docs[e]).rowid by {
            assert(segments[s].docs@[d].rowid != segments[t].docs@[e].rowid);
        }
    }
    if record::distinct_records(written) {
        assert forall|s: int, d: int, t: int, e: int|
            0 <= s < segments.len() && 0 <= d < segments[s].docs@.len() && 0 <= t < segments.len()
                && 0 <= e < segments[t].docs@.len() && (s != t || d != e) implies (
        #[trigger] segments[s].docs@[d]).rowid != (#[trigger] segments[t].docs@[e]).rowid by {
            assert(written[s].docs[d].rowid != written[t].docs[e].rowid);
        }
    }
}

/// Reads a checkpoint.
pub fn decode_snapshot(payload: &[u8]) -> (result: Result<Snapshot>)
    requires
        payload@.len() <= u32::MAX,
    ensures
        match record::parse_record(payload@) {
            Ok(written) => result matches Ok(current) && current.wf() && current.ordered()
                && restored(current, written) && encoding::restorable(current),
            Err(error) => result == Err::<Snapshot, Error>(error),
        },
{
    let mut input: &[u8] = payload;
    let generation: u64 = match read_u64(&mut input) {
        Ok(generation) => generation,
        Err(error) => return Err(error),
    };
    let count: usize = match read_count(&mut input, 4, "invalid segment count") {
        Ok(count) => count,
        Err(error) => return Err(error),
    };
    let ghost item = record::segment_parser();
    let ghost mut done = Seq::<SegmentRecord>::empty();
    let mut segments: Vec<Arc<Segment>> = Vec::new();
    while segments.len() < count
        invariant
            segments@.len() <= count <= u32::MAX,
            payload@.len() <= u32::MAX,
            item == record::segment_parser(),
            done.len() == segments@.len(),
            snapshot::doc_count(segments@) + input@.len() <= payload@.len(),
            parsing::outcome(codec::parse_u64(payload@)) is Ok,
            parsing::outcome(codec::parse_u64(payload@))->Ok_0.0 == generation,
            record::parse_segments(parsing::outcome(codec::parse_u64(payload@))->Ok_0.1)
                == parsing::parse_list(input@, done, count as nat, item),
            forall|s: int| 0 <= s < segments@.len() ==> (#[trigger] segments@[s]).wf(),
            forall|s: int| 0 <= s < segments@.len() ==> (#[trigger] segments@[s]).ordered(),
            forall|s: int|
                0 <= s < segments@.len() ==> encoding::restorable_segment(
                    &#[trigger] segments@[s],
                ),
            forall|s: int| 0 <= s < done.len() ==> restores(&segments@[s], #[trigger] done[s]),
        decreases count - segments@.len(),
    {
        let ghost bytes = input@;
        let built: Segment = match read_segment(&mut input) {
            Ok(built) => built,
            Err(error) => return Err(error),
        };
        let ghost before = segments@;
        let ghost was = done;
        segments.push(Arc::new(built));
        proof {
            assert(segments@.drop_last() =~= before);
            let added = record::parse_segment(bytes)->Ok_0.0;
            done = was.push(added);
        }
    }
    if input.len() != 0 {
        return Err(Error::Corrupt("trailing checkpoint bytes"));
    }
    proof {
        lemma_distinct(segments@, done);
    }
    if has_duplicate_rowid(&segments) {
        return Err(Error::Corrupt("duplicate rowid in checkpoint"));
    }
    Ok(Snapshot::of_segments(generation, segments))
}

} // verus!
