//! How far a parser reads, and what follows from what it accepts.
//!
//! A parser looks at no byte behind the record it reads: what it reads from some
//! bytes it reads from any longer ones too. So a payload that is cut short or
//! extended cannot be read. What a parser refuses it refuses as corrupt, and what it
//! accepts is sound.
use crate::codec;
use crate::commit;
use crate::error::Error;
use crate::operation::Op;
use crate::parsing;
use crate::parsing::Parsed;
use crate::record;
use crate::record::{DocRecord, ListRecord, PostingRecord, SegmentRecord, SnapshotRecord};
use crate::segment;
use crate::segment::BlockMeta;
use vstd::prelude::*;

verus! {

/// What was read from the shorter bytes is read from the longer ones, and `tail`
/// is left behind; what was refused was corrupt.
pub open spec fn reads_alike<T>(short: Parsed<T>, long: Parsed<T>, tail: Seq<u8>) -> bool {
    match short {
        Ok((value, rest)) => long == Ok::<(T, Seq<u8>), Error>((value, rest + tail)),
        Err(error) => error is Corrupt,
    }
}

/// The parser of a record reads alike with and without `tail`.
pub open spec fn item_reads_alike<T>(
    item: spec_fn(Seq<T>, Seq<u8>) -> Parsed<T>,
    before: Seq<T>,
    run: Seq<u8>,
    tail: Seq<u8>,
) -> bool {
    reads_alike(item(before, run), item(before, run + tail), tail)
}

proof fn lemma_number(input: Seq<u8>, tail: Seq<u8>)
    ensures
        reads_alike(record::parse_number(input), record::parse_number(input + tail), tail),
{
    if input.len() >= 4 {
        assert((input + tail).take(4) =~= input.take(4));
        assert((input + tail).skip(4) =~= input.skip(4) + tail);
    }
}

proof fn lemma_wide_number(input: Seq<u8>, tail: Seq<u8>)
    ensures
        reads_alike(
            parsing::outcome(codec::parse_u64(input)),
            parsing::outcome(codec::parse_u64(input + tail)),
            tail,
        ),
        reads_alike(
            parsing::outcome(codec::parse_i64(input)),
            parsing::outcome(codec::parse_i64(input + tail)),
            tail,
        ),
{
    if input.len() >= 8 {
        assert((input + tail).take(8) =~= input.take(8));
        assert((input + tail).skip(8) =~= input.skip(8) + tail);
    }
}

proof fn lemma_text(input: Seq<u8>, message: &'static str, tail: Seq<u8>)
    ensures
        reads_alike(
            parsing::parse_text(input, message),
            parsing::parse_text(input + tail, message),
            tail,
        ),
{
    lemma_number(input, tail);
    match record::parse_number(input) {
        Ok((len, rest)) => {
            if rest.len() >= len {
                assert((rest + tail).take(len as int) =~= rest.take(len as int));
                assert((rest + tail).skip(len as int) =~= rest.skip(len as int) + tail);
            }
        },
        Err(error) => {},
    }
}

/// More bytes make room for more records.
proof fn lemma_count(input: Seq<u8>, minimum: nat, message: &'static str, tail: Seq<u8>)
    requires
        minimum > 0,
    ensures
        reads_alike(
            record::parse_count(input, minimum, message),
            record::parse_count(input + tail, minimum, message),
            tail,
        ),
{
    lemma_number(input, tail);
    match record::parse_number(input) {
        Ok((count, rest)) => {
            let (fewer, more) = (rest.len() as int, (rest + tail).len() as int);
            vstd::arithmetic::div_mod::lemma_div_is_ordered(fewer, more, minimum as int);
        },
        Err(error) => {},
    }
}

proof fn lemma_list<T>(
    input: Seq<u8>,
    done: Seq<T>,
    count: nat,
    item: spec_fn(Seq<T>, Seq<u8>) -> Parsed<T>,
    tail: Seq<u8>,
)
    requires
        forall|before: Seq<T>, run: Seq<u8>| #[trigger] item_reads_alike(item, before, run, tail),
    ensures
        reads_alike(
            parsing::parse_list(input, done, count, item),
            parsing::parse_list(input + tail, done, count, item),
            tail,
        ),
    decreases count - done.len(),
{
    if done.len() < count {
        assert(item_reads_alike(item, done, input, tail));
        match item(done, input) {
            Ok((value, rest)) => {
                lemma_list(rest, done.push(value), count, item, tail);
            },
            Err(error) => {},
        }
    }
}

proof fn lemma_texts(input: Seq<u8>, count: nat, message: &'static str, tail: Seq<u8>)
    ensures
        reads_alike(
            parsing::parse_list(input, Seq::empty(), count, parsing::text_parser(message)),
            parsing::parse_list(input + tail, Seq::empty(), count, parsing::text_parser(message)),
            tail,
        ),
{
    let item = parsing::text_parser(message);
    assert forall|before: Seq<Seq<char>>, run: Seq<u8>| #[trigger]
        item_reads_alike(item, before, run, tail) by {
        lemma_text(run, message, tail);
    }
    lemma_list(input, Seq::empty(), count, item, tail);
}

proof fn lemma_doc(input: Seq<u8>, tail: Seq<u8>)
    ensures
        reads_alike(record::parse_doc(input), record::parse_doc(input + tail), tail),
{
    lemma_wide_number(input, tail);
    match parsing::outcome(codec::parse_i64(input)) {
        Ok((rowid, rest)) => {
            lemma_number(rest, tail);
            match record::parse_number(rest) {
                Ok((len, rest)) => {
                    lemma_count(rest, 4, "invalid field count", tail);
                    match record::parse_count(rest, 4, "invalid field count") {
                        Ok((count, rest)) => {
                            lemma_texts(rest, count as nat, "field is not UTF-8", tail);
                        },
                        Err(error) => {},
                    }
                },
                Err(error) => {},
            }
        },
        Err(error) => {},
    }
}

proof fn lemma_posting(docs: nat, done: Seq<PostingRecord>, input: Seq<u8>, tail: Seq<u8>)
    ensures
        reads_alike(
            record::parse_posting(docs, done, input),
            record::parse_posting(docs, done, input + tail),
            tail,
        ),
{
    lemma_number(input, tail);
    match record::parse_number(input) {
        Ok((docid, rest)) => {
            lemma_number(rest, tail);
            match record::parse_number(rest) {
                Ok((freq, rest)) => {
                    lemma_count(rest, 4, "invalid position count", tail);
                    match record::parse_count(rest, 4, "invalid position count") {
                        Ok((count, rest)) => {
                            let item = record::position_parser();
                            assert forall|before: Seq<u32>, run: Seq<u8>| #[trigger]
                                item_reads_alike(item, before, run, tail) by {
                                lemma_number(run, tail);
                            }
                            lemma_list(rest, Seq::empty(), count as nat, item, tail);
                        },
                        Err(error) => {},
                    }
                },
                Err(error) => {},
            }
        },
        Err(error) => {},
    }
}

proof fn lemma_postings(docs: nat, input: Seq<u8>, tail: Seq<u8>)
    ensures
        reads_alike(
            record::parse_postings(docs, input),
            record::parse_postings(docs, input + tail),
            tail,
        ),
{
    lemma_count(input, 12, "invalid posting count", tail);
    match record::parse_count(input, 12, "invalid posting count") {
        Ok((count, rest)) => {
            let item = record::posting_parser(docs);
            assert forall|before: Seq<PostingRecord>, run: Seq<u8>| #[trigger]
                item_reads_alike(item, before, run, tail) by {
                lemma_posting(docs, before, run, tail);
            }
            lemma_list(rest, Seq::empty(), count as nat, item, tail);
        },
        Err(error) => {},
    }
}

proof fn lemma_raw_block(input: Seq<u8>, tail: Seq<u8>)
    ensures
        reads_alike(record::parse_raw_block(input), record::parse_raw_block(input + tail), tail),
{
    lemma_number(input, tail);
    match record::parse_number(input) {
        Ok((end, rest)) => {
            lemma_number(rest, tail);
            match record::parse_number(rest) {
                Ok((last_docid, rest)) => {
                    lemma_number(rest, tail);
                    match record::parse_number(rest) {
                        Ok((max_tf, rest)) => {
                            lemma_number(rest, tail);
                        },
                        Err(error) => {},
                    }
                },
                Err(error) => {},
            }
        },
        Err(error) => {},
    }
}

proof fn lemma_blocks(
    postings: Seq<PostingRecord>,
    docs: Seq<DocRecord>,
    input: Seq<u8>,
    tail: Seq<u8>,
)
    ensures
        reads_alike(
            record::parse_blocks(postings, docs, input),
            record::parse_blocks(postings, docs, input + tail),
            tail,
        ),
{
    lemma_count(input, 16, "invalid block count", tail);
    match record::parse_count(input, 16, "invalid block count") {
        Ok((count, rest)) => {
            let item = record::block_parser(postings, docs);
            assert forall|before: Seq<BlockMeta>, run: Seq<u8>| #[trigger]
                item_reads_alike(item, before, run, tail) by {
                lemma_raw_block(run, tail);
            }
            lemma_list(rest, Seq::empty(), count as nat, item, tail);
        },
        Err(error) => {},
    }
}

proof fn lemma_bounds(
    postings: Seq<PostingRecord>,
    docs: Seq<DocRecord>,
    input: Seq<u8>,
    tail: Seq<u8>,
)
    ensures
        reads_alike(
            record::parse_bounds(postings, docs, input),
            record::parse_bounds(postings, docs, input + tail),
            tail,
        ),
{
    lemma_number(input, tail);
    match record::parse_number(input) {
        Ok((max_tf, rest)) => {
            lemma_number(rest, tail);
        },
        Err(error) => {},
    }
}

proof fn lemma_posting_list(
    docs: Seq<DocRecord>,
    done: Seq<ListRecord>,
    input: Seq<u8>,
    tail: Seq<u8>,
)
    ensures
        reads_alike(
            record::parse_posting_list(docs, done, input),
            record::parse_posting_list(docs, done, input + tail),
            tail,
        ),
{
    lemma_text(input, "term is not UTF-8", tail);
    match record::parse_term(done, input) {
        Ok((term, rest)) => {
            lemma_postings(docs.len(), rest, tail);
            match record::parse_postings(docs.len(), rest) {
                Ok((postings, rest)) => {
                    lemma_blocks(postings, docs, rest, tail);
                    match record::parse_blocks(postings, docs, rest) {
                        Ok((blocks, rest)) => {
                            lemma_bounds(postings, docs, rest, tail);
                        },
                        Err(error) => {},
                    }
                },
                Err(error) => {},
            }
        },
        Err(error) => {},
    }
}

proof fn lemma_segment(input: Seq<u8>, tail: Seq<u8>)
    ensures
        reads_alike(record::parse_segment(input), record::parse_segment(input + tail), tail),
{
    lemma_docs(input, tail);
    match record::parse_docs(input) {
        Ok((docs, rest)) => {
            lemma_count(rest, 4, "invalid term count", tail);
            match record::parse_count(rest, 4, "invalid term count") {
                Ok((count, rest)) => {
                    let item = record::list_parser(docs);
                    assert forall|before: Seq<ListRecord>, run: Seq<u8>| #[trigger]
                        item_reads_alike(item, before, run, tail) by {
                        lemma_posting_list(docs, before, run, tail);
                    }
                    lemma_list(rest, Seq::empty(), count as nat, item, tail);
                },
                Err(error) => {},
            }
        },
        Err(error) => {},
    }
}

proof fn lemma_docs(input: Seq<u8>, tail: Seq<u8>)
    ensures
        reads_alike(record::parse_docs(input), record::parse_docs(input + tail), tail),
{
    lemma_count(input, 16, "invalid document count", tail);
    match record::parse_count(input, 16, "invalid document count") {
        Ok((count, rest)) => {
            let item = record::doc_parser();
            assert forall|before: Seq<DocRecord>, run: Seq<u8>| #[trigger]
                item_reads_alike(item, before, run, tail) by {
                lemma_doc(run, tail);
            }
            lemma_list(rest, Seq::empty(), count as nat, item, tail);
        },
        Err(error) => {},
    }
}

proof fn lemma_segments(input: Seq<u8>, tail: Seq<u8>)
    ensures
        reads_alike(record::parse_segments(input), record::parse_segments(input + tail), tail),
{
    lemma_count(input, 4, "invalid segment count", tail);
    match record::parse_count(input, 4, "invalid segment count") {
        Ok((count, rest)) => {
            let item = record::segment_parser();
            assert forall|before: Seq<SegmentRecord>, run: Seq<u8>| #[trigger]
                item_reads_alike(item, before, run, tail) by {
                lemma_segment(run, tail);
            }
            lemma_list(rest, Seq::empty(), count as nat, item, tail);
        },
        Err(error) => {},
    }
}

/// A payload that is not read is refused as corrupt.
pub proof fn unreadable_payload_is_corrupt(payload: Seq<u8>)
    ensures
        record::parse_record(payload) matches Err(error) ==> error is Corrupt,
{
    let none = Seq::<u8>::empty();
    lemma_wide_number(payload, none);
    match parsing::outcome(codec::parse_u64(payload)) {
        Ok((generation, rest)) => {
            lemma_segments(rest, none);
        },
        Err(error) => {},
    }
}

/// No strict extension of a readable payload is readable.
pub proof fn extended_payload_is_refused(payload: Seq<u8>, tail: Seq<u8>)
    requires
        record::parse_record(payload) is Ok,
        tail.len() > 0,
    ensures
        record::parse_record(payload + tail) == Err::<SnapshotRecord, Error>(
            Error::Corrupt("trailing checkpoint bytes"),
        ),
{
    lemma_wide_number(payload, tail);
    let (generation, rest) = parsing::outcome(codec::parse_u64(payload))->Ok_0;
    lemma_segments(rest, tail);
}

/// No strict prefix of a readable payload is readable.
pub proof fn cut_payload_is_refused(payload: Seq<u8>, kept: int)
    requires
        record::parse_record(payload) is Ok,
        0 <= kept < payload.len(),
    ensures
        record::parse_record(payload.take(kept)) matches Err(error) && error is Corrupt,
{
    let cut = payload.take(kept);
    assert(cut + payload.skip(kept) =~= payload);
    if record::parse_record(cut) is Ok {
        extended_payload_is_refused(cut, payload.skip(kept));
    }
    unreadable_payload_is_corrupt(cut);
}

proof fn lemma_op(input: Seq<u8>, tail: Seq<u8>)
    ensures
        reads_alike(commit::parse_op(input), commit::parse_op(input + tail), tail),
{
    if input.len() > 0 {
        assert((input + tail).skip(1) =~= input.skip(1) + tail);
        lemma_wide_number(input.skip(1), tail);
        match parsing::outcome(codec::parse_i64(input.skip(1))) {
            Ok((rowid, rest)) => {
                lemma_number(rest, tail);
                match record::parse_number(rest) {
                    Ok((count, rest)) => {
                        lemma_texts(rest, count as nat, "field is not UTF-8", tail);
                    },
                    Err(error) => {},
                }
            },
            Err(error) => {},
        }
    }
}

proof fn lemma_ops(input: Seq<u8>, count: nat, tail: Seq<u8>)
    ensures
        reads_alike(
            parsing::parse_list(input, Seq::empty(), count, commit::op_parser()),
            parsing::parse_list(input + tail, Seq::empty(), count, commit::op_parser()),
            tail,
        ),
{
    let item = commit::op_parser();
    assert forall|before: Seq<Op>, run: Seq<u8>| #[trigger]
        item_reads_alike(item, before, run, tail) by {
        lemma_op(run, tail);
    }
    lemma_list(input, Seq::empty(), count, item, tail);
}

/// A commit that is not read is refused as corrupt.
pub proof fn unreadable_commit_is_corrupt(payload: Seq<u8>)
    ensures
        commit::parse_commit(payload) matches Err(error) ==> error is Corrupt,
{
    let none = Seq::<u8>::empty();
    lemma_wide_number(payload, none);
    match parsing::outcome(codec::parse_u64(payload)) {
        Ok((generation, rest)) => {
            lemma_number(rest, none);
            match record::parse_number(rest) {
                Ok((count, rest)) => {
                    lemma_ops(rest, count as nat, none);
                },
                Err(error) => {},
            }
        },
        Err(error) => {},
    }
}

/// No strict extension of a readable commit is readable.
pub proof fn extended_commit_is_refused(payload: Seq<u8>, tail: Seq<u8>)
    requires
        commit::parse_commit(payload) is Ok,
        tail.len() > 0,
    ensures
        commit::parse_commit(payload + tail) == Err::<(u64, Seq<Op>), Error>(
            Error::Corrupt("trailing commit bytes"),
        ),
{
    lemma_wide_number(payload, tail);
    let (generation, rest) = parsing::outcome(codec::parse_u64(payload))->Ok_0;
    lemma_number(rest, tail);
    let (count, rest) = record::parse_number(rest)->Ok_0;
    lemma_ops(rest, count as nat, tail);
}

/// No strict prefix of a readable commit is readable.
pub proof fn cut_commit_is_refused(payload: Seq<u8>, kept: int)
    requires
        commit::parse_commit(payload) is Ok,
        0 <= kept < payload.len(),
    ensures
        commit::parse_commit(payload.take(kept)) matches Err(error) && error is Corrupt,
{
    let cut = payload.take(kept);
    assert(cut + payload.skip(kept) =~= payload);
    if commit::parse_commit(cut) is Ok {
        extended_commit_is_refused(cut, payload.skip(kept));
    }
    unreadable_commit_is_corrupt(cut);
}

/// What every record meets behind those before it, the records of a run meet.
proof fn lemma_list_steps<T>(
    input: Seq<u8>,
    done: Seq<T>,
    count: nat,
    item: spec_fn(Seq<T>, Seq<u8>) -> Parsed<T>,
    step: spec_fn(Seq<T>, T) -> bool,
)
    requires
        done.len() <= count,
        forall|i: int| 0 <= i < done.len() ==> step(done.take(i), #[trigger] done[i]),
        forall|before: Seq<T>, run: Seq<u8>|
            (#[trigger] item(before, run)) matches Ok((value, rest)) ==> step(before, value),
    ensures
        parsing::parse_list(input, done, count, item) matches Ok((items, rest)) ==> items.len()
            == count && forall|i: int|
            0 <= i < items.len() ==> step(items.take(i), #[trigger] items[i]),
    decreases count - done.len(),
{
    if done.len() < count {
        match item(done, input) {
            Ok((value, rest)) => {
                let longer = done.push(value);
                assert forall|i: int| 0 <= i < longer.len() implies step(
                    longer.take(i),
                    #[trigger] longer[i],
                ) by {
                    if i < done.len() {
                        assert(longer.take(i) =~= done.take(i));
                        assert(step(done.take(i), done[i]));
                    } else {
                        assert(longer.take(i) =~= done);
                    }
                }
                lemma_list_steps(rest, longer, count, item, step);
            },
            Err(error) => {},
        }
    }
}

/// Numbers that each exceed the one before increase.
proof fn lemma_increasing(numbers: Seq<u32>)
    requires
        forall|i: int| 0 < i < numbers.len() ==> numbers.take(i).last() < #[trigger] numbers[i],
    ensures
        segment::increasing(numbers),
    decreases numbers.len(),
{
    if numbers.len() > 0 {
        let fewer = numbers.drop_last();
        assert forall|i: int| 0 < i < fewer.len() implies fewer.take(i).last()
            < #[trigger] fewer[i] by {
            assert(fewer.take(i) =~= numbers.take(i));
            assert(fewer[i] == numbers[i]);
        }
        lemma_increasing(fewer);
        assert forall|i: int, j: int| 0 <= i < j < numbers.len() implies #[trigger] numbers[i]
            < #[trigger] numbers[j] by {
            assert(fewer[i] == numbers[i]);
            if j < fewer.len() {
                assert(fewer[j] == numbers[j]);
            } else {
                assert(numbers.take(j).last() == numbers[j - 1]);
                assert(fewer[j - 1] == numbers[j - 1]);
            }
        }
    }
}

proof fn lemma_sound_doc(input: Seq<u8>)
    ensures
        record::parse_doc(input) matches Ok((doc, rest)) ==> record::sound_doc(doc),
{
    match record::parse_doc(input) {
        Ok((doc, behind)) => {
            let (rowid, rest) = parsing::outcome(codec::parse_i64(input))->Ok_0;
            let (len, rest) = record::parse_number(rest)->Ok_0;
            let (count, rest) = record::parse_count(rest, 4, "invalid field count")->Ok_0;
            parsing::lemma_list_items(
                rest,
                Seq::empty(),
                count as nat,
                parsing::text_parser("field is not UTF-8"),
                |text: Seq<char>| true,
            );
        },
        Err(error) => {},
    }
}

proof fn lemma_sound_posting(docs: nat, done: Seq<PostingRecord>, input: Seq<u8>)
    ensures
        record::parse_posting(docs, done, input) matches Ok((posting, rest))
            ==> record::sound_posting(docs, posting) && (done.len() > 0 ==> done.last().docid
            < posting.docid),
{
    match record::parse_posting(docs, done, input) {
        Ok((posting, behind)) => {
            let (docid, rest) = record::parse_number(input)->Ok_0;
            let (freq, rest) = record::parse_number(rest)->Ok_0;
            let (count, rest) = record::parse_count(rest, 4, "invalid position count")->Ok_0;
            let step = |before: Seq<u32>, position: u32|
                before.len() > 0 ==> before.last() < position;
            lemma_list_steps(
                rest,
                Seq::empty(),
                count as nat,
                record::position_parser(),
                step,
            );
            let positions = posting.positions;
            assert forall|i: int| 0 < i < positions.len() implies positions.take(i).last()
                < #[trigger] positions[i] by {
                assert(step(positions.take(i), positions[i]));
            }
            lemma_increasing(positions);
        },
        Err(error) => {},
    }
}

proof fn lemma_sound_postings(docs: nat, input: Seq<u8>)
    ensures
        record::parse_postings(docs, input) matches Ok((postings, rest)) ==> {
            &&& 1 <= postings.len() <= docs
            &&& segment::increasing(record::docids_of(postings))
            &&& forall|i: int|
                0 <= i < postings.len() ==> record::sound_posting(docs, #[trigger] postings[i])
        },
{
    match record::parse_postings(docs, input) {
        Ok((postings, behind)) => {
            let (count, rest) = record::parse_count(input, 12, "invalid posting count")->Ok_0;
            let step = |before: Seq<PostingRecord>, posting: PostingRecord|
                record::sound_posting(docs, posting) && (before.len() > 0 ==> before.last().docid
                    < posting.docid);
            let item = record::posting_parser(docs);
            assert forall|before: Seq<PostingRecord>, run: Seq<u8>|
                (#[trigger] item(before, run)) matches Ok((value, rest)) ==> step(
                    before,
                    value,
                ) by {
                lemma_sound_posting(docs, before, run);
            }
            lemma_list_steps(rest, Seq::empty(), count as nat, item, step);
            assert forall|i: int| 0 <= i < postings.len() implies record::sound_posting(
                docs,
                #[trigger] postings[i],
            ) by {
                assert(step(postings.take(i), postings[i]));
            }
            let docids = record::docids_of(postings);
            assert forall|i: int| 0 < i < docids.len() implies docids.take(i).last()
                < #[trigger] docids[i] by {
                assert(step(postings.take(i), postings[i]));
                assert(postings.take(i).last() == postings[i - 1]);
                assert(docids.take(i).last() == docids[i - 1]);
            }
            lemma_increasing(docids);
        },
        Err(error) => {},
    }
}

proof fn lemma_sound_blocks(postings: Seq<PostingRecord>, docs: Seq<DocRecord>, input: Seq<u8>)
    ensures
        record::parse_blocks(postings, docs, input) matches Ok((blocks, rest)) ==> {
            &&& blocks.len() == segment::block_count(postings.len())
            &&& forall|k: int|
                0 <= k < blocks.len() ==> #[trigger] blocks[k] == record::block_of(
                    postings,
                    docs,
                    k,
                )
        },
{
    match record::parse_blocks(postings, docs, input) {
        Ok((blocks, behind)) => {
            let (count, rest) = record::parse_count(input, 16, "invalid block count")->Ok_0;
            let step = |before: Seq<BlockMeta>, block: BlockMeta|
                block == record::block_of(postings, docs, before.len() as int);
            lemma_list_steps(
                rest,
                Seq::empty(),
                count as nat,
                record::block_parser(postings, docs),
                step,
            );
            assert forall|k: int| 0 <= k < blocks.len() implies #[trigger] blocks[k]
                == record::block_of(postings, docs, k) by {
                assert(step(blocks.take(k), blocks[k]));
            }
        },
        Err(error) => {},
    }
}

proof fn lemma_sound_list(docs: Seq<DocRecord>, done: Seq<ListRecord>, input: Seq<u8>)
    ensures
        record::parse_posting_list(docs, done, input) matches Ok((list, rest))
            ==> record::sound_list(docs, list) && !record::names(done, list.term),
{
    match record::parse_posting_list(docs, done, input) {
        Ok((list, behind)) => {
            let (term, rest) = record::parse_term(done, input)->Ok_0;
            lemma_sound_postings(docs.len(), rest);
            let (postings, rest) = record::parse_postings(docs.len(), rest)->Ok_0;
            lemma_sound_blocks(postings, docs, rest);
        },
        Err(error) => {},
    }
}

proof fn lemma_sound_lists(docs: Seq<DocRecord>, input: Seq<u8>)
    ensures
        record::parse_lists(docs, input) matches Ok((lists, rest)) ==> {
            &&& forall|l: int|
                0 <= l < lists.len() ==> record::sound_list(docs, #[trigger] lists[l])
            &&& forall|l: int, m: int|
                0 <= l < m < lists.len() ==> (#[trigger] lists[l]).term != (
                #[trigger] lists[m]).term
        },
{
    match record::parse_lists(docs, input) {
        Ok((lists, behind)) => {
            let (count, rest) = record::parse_count(input, 4, "invalid term count")->Ok_0;
            let step = |before: Seq<ListRecord>, list: ListRecord|
                record::sound_list(docs, list) && !record::names(before, list.term);
            let item = record::list_parser(docs);
            assert forall|before: Seq<ListRecord>, run: Seq<u8>|
                (#[trigger] item(before, run)) matches Ok((value, rest)) ==> step(
                    before,
                    value,
                ) by {
                lemma_sound_list(docs, before, run);
            }
            lemma_list_steps(rest, Seq::empty(), count as nat, item, step);
            assert forall|l: int| 0 <= l < lists.len() implies record::sound_list(
                docs,
                #[trigger] lists[l],
            ) by {
                assert(step(lists.take(l), lists[l]));
            }
            assert forall|l: int, m: int| 0 <= l < m < lists.len() implies (
            #[trigger] lists[l]).term != (#[trigger] lists[m]).term by {
                assert(step(lists.take(m), lists[m]));
                assert(lists.take(m)[l] == lists[l]);
            }
        },
        Err(error) => {},
    }
}

proof fn lemma_sound_segment(input: Seq<u8>)
    ensures
        record::parse_segment(input) matches Ok((segment, rest)) ==> record::sound_segment(
            segment,
        ),
{
    match record::parse_segment(input) {
        Ok((segment, behind)) => {
            let (count, rest) = record::parse_count(input, 16, "invalid document count")->Ok_0;
            let item = record::doc_parser();
            let sound = |doc: DocRecord| record::sound_doc(doc);
            assert forall|before: Seq<DocRecord>, run: Seq<u8>|
                (#[trigger] item(before, run)) matches Ok((value, rest)) ==> sound(value) by {
                lemma_sound_doc(run);
            }
            parsing::lemma_list_items(rest, Seq::empty(), count as nat, item, sound);
            assert forall|d: int| 0 <= d < segment.docs.len() implies record::sound_doc(
                #[trigger] segment.docs[d],
            ) by {
                assert(sound(segment.docs[d]));
            }
            let (docs, rest) = record::parse_docs(input)->Ok_0;
            lemma_sound_lists(docs, rest);
        },
        Err(error) => {},
    }
}

/// Whatever is read as a checkpoint is well formed: documents with fields, postings
/// in order, blocks and bounds that say of the postings what they should, no term
/// twice in a segment and no rowid twice.
pub proof fn read_payload_is_sound(payload: Seq<u8>)
    ensures
        record::parse_record(payload) matches Ok(written) ==> record::sound_record(written),
{
    match record::parse_record(payload) {
        Ok(written) => {
            let (generation, rest) = parsing::outcome(codec::parse_u64(payload))->Ok_0;
            let (count, rest) = record::parse_count(rest, 4, "invalid segment count")->Ok_0;
            let item = record::segment_parser();
            let sound = |segment: SegmentRecord| record::sound_segment(segment);
            assert forall|before: Seq<SegmentRecord>, run: Seq<u8>|
                (#[trigger] item(before, run)) matches Ok((value, rest)) ==> sound(value) by {
                lemma_sound_segment(run);
            }
            parsing::lemma_list_items(rest, Seq::empty(), count as nat, item, sound);
            assert forall|s: int| 0 <= s < written.segments.len() implies record::sound_segment(
                #[trigger] written.segments[s],
            ) by {
                assert(sound(written.segments[s]));
            }
        },
        Err(error) => {},
    }
}

} // verus!
