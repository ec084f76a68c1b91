//! The bytes of one commit.
use crate::codec;
use crate::codec::{put_bytes, put_i64, put_u32, put_u64, read_i64, read_u32, read_u64};
use crate::error::{invalid_input, Error, Result};
use crate::operation;
use crate::operation::{Op, Operation};
use crate::parsing;
use crate::parsing::{read_text, Parsed};
use crate::text;
use vstd::prelude::*;

verus! {

pub open spec fn op_bytes(op: Op) -> Seq<u8> {
    match op {
        Op::Upsert { rowid, fields } => seq![1u8] + codec::i64_bytes(rowid) + codec::u32_bytes(
            fields.len() as u32,
        ) + parsing::list_bytes(fields, parsing::text_encoder()),
        Op::Delete { rowid } => seq![2u8] + codec::i64_bytes(rowid),
    }
}

pub open spec fn op_encoder() -> spec_fn(Op) -> Seq<u8> {
    |op: Op| op_bytes(op)
}

/// A commit: its generation, how many writes it has, and the writes.
pub open spec fn commit_bytes(generation: u64, writes: Seq<Op>) -> Seq<u8> {
    codec::u64_bytes(generation) + codec::u32_bytes(writes.len() as u32) + parsing::list_bytes(
        writes,
        op_encoder(),
    )
}

/// Whether every field fits in its length field.
pub open spec fn storable_op(op: Op) -> bool {
    op matches Op::Upsert { rowid, fields } ==> forall|i: int|
        0 <= i < fields.len() ==> parsing::storable(#[trigger] fields[i])
}

/// Whether every count and length of the commit fits in its field.
pub open spec fn storable_commit(writes: Seq<Op>) -> bool {
    &&& writes.len() <= u32::MAX
    &&& forall|i: int| 0 <= i < writes.len() ==> storable_op(#[trigger] writes[i])
}

/// The fields of a document, behind their number.
pub open spec fn parse_fields(input: Seq<u8>) -> Parsed<Seq<Seq<char>>> {
    match parsing::outcome(codec::parse_u32(input)) {
        Ok((count, rest)) => if count == 0 || count > 64 {
            Err(Error::Corrupt("invalid field count"))
        } else {
            parsing::parse_list(
                rest,
                Seq::empty(),
                count as nat,
                parsing::text_parser("field is not UTF-8"),
            )
        },
        Err(error) => Err(error),
    }
}

pub open spec fn parse_op(input: Seq<u8>) -> Parsed<Op> {
    if input.len() == 0 {
        Err(Error::Corrupt("missing operation tag"))
    } else {
        match parsing::outcome(codec::parse_i64(input.skip(1))) {
            Ok((rowid, rest)) => if input[0] == 1 {
                match parse_fields(rest) {
                    Ok((fields, rest)) => Ok((Op::Upsert { rowid, fields }, rest)),
                    Err(error) => Err(error),
                }
            } else if input[0] == 2 {
                Ok((Op::Delete { rowid }, rest))
            } else {
                Err(Error::Corrupt("unknown operation tag"))
            },
            Err(error) => Err(error),
        }
    }
}

pub open spec fn op_parser() -> spec_fn(Seq<Op>, Seq<u8>) -> Parsed<Op> {
    |done: Seq<Op>, input: Seq<u8>| parse_op(input)
}

/// What the bytes of a commit say; all of them belong to it.
pub open spec fn parse_commit(payload: Seq<u8>) -> Result<(u64, Seq<Op>)> {
    match parsing::outcome(codec::parse_u64(payload)) {
        Ok((generation, rest)) => match parsing::outcome(codec::parse_u32(rest)) {
            Ok((count, rest)) => match parsing::parse_list(
                rest,
                Seq::empty(),
                count as nat,
                op_parser(),
            ) {
                Ok((writes, rest)) => if rest.len() == 0 {
                    Ok((generation, writes))
                } else {
                    Err(Error::Corrupt("trailing commit bytes"))
                },
                Err(error) => Err(error),
            },
            Err(error) => Err(error),
        },
        Err(error) => Err(error),
    }
}

proof fn lemma_op_round_trip(op: Op, rest: Seq<u8>)
    requires
        op.valid(),
        storable_op(op),
    ensures
        parse_op(op_bytes(op) + rest) == Ok::<(Op, Seq<u8>), Error>((op, rest)),
{
    let all = op_bytes(op) + rest;
    match op {
        Op::Upsert { rowid, fields } => {
            let listed = parsing::list_bytes(fields, parsing::text_encoder());
            let counted = codec::u32_bytes(fields.len() as u32) + (listed + rest);
            assert(all.skip(1) =~= codec::i64_bytes(rowid) + counted);
            codec::i64_round_trip(rowid, counted);
            codec::u32_round_trip(fields.len() as u32, listed + rest);
            parsing::texts_round_trip(fields, "field is not UTF-8", rest);
        },
        Op::Delete { rowid } => {
            assert(all.skip(1) =~= codec::i64_bytes(rowid) + rest);
            codec::i64_round_trip(rowid, rest);
        },
    }
}

/// A commit of valid writes survives being written and read.
pub proof fn commit_round_trip(generation: u64, writes: Seq<Op>)
    requires
        storable_commit(writes),
        forall|i: int| 0 <= i < writes.len() ==> (#[trigger] writes[i]).valid(),
    ensures
        parse_commit(commit_bytes(generation, writes)) == Ok::<(u64, Seq<Op>), Error>(
            (generation, writes),
        ),
{
    let (bytes, item) = (op_encoder(), op_parser());
    let listed = parsing::list_bytes(writes, bytes);
    let counted = codec::u32_bytes(writes.len() as u32) + listed;
    assert(commit_bytes(generation, writes) =~= codec::u64_bytes(generation) + counted);
    codec::u64_round_trip(generation, counted);
    codec::u32_round_trip(writes.len() as u32, listed);
    assert forall|i: int, tail: Seq<u8>| 0 <= i < writes.len() implies #[trigger] item(
        writes.take(i),
        bytes(writes[i]) + tail,
    ) == Ok::<(Op, Seq<u8>), Error>((writes[i], tail)) by {
        lemma_op_round_trip(writes[i], tail);
    }
    parsing::list_round_trip(writes, bytes, item, Seq::empty());
    assert(listed + Seq::<u8>::empty() =~= listed);
}

#[verifier::rlimit(20)]
proof fn lemma_read_op(input: Seq<u8>)
    ensures
        parse_op(input) matches Ok((op, rest)) ==> input == op_bytes(op) + rest && storable_op(op),
{
    if input.len() > 0 {
        let tail = input.skip(1);
        assert(input =~= seq![input[0]] + tail);
        codec::read_i64_is_written(tail);
        match parsing::outcome(codec::parse_i64(tail)) {
            Ok((rowid, rest)) => {
                if input[0] == 1 {
                    codec::read_u32_is_written(rest);
                    match parsing::outcome(codec::parse_u32(rest)) {
                        Ok((count, listed)) => {
                            let (item, bytes) = (
                                parsing::text_parser("field is not UTF-8"),
                                parsing::text_encoder(),
                            );
                            let fits = |text: Seq<char>| parsing::storable(text);
                            assert forall|before: Seq<Seq<char>>, run: Seq<u8>|
                                (#[trigger] item(before, run)) matches Ok((text, rest)) ==> run
                                    == bytes(text) + rest && fits(text) by {
                                parsing::read_text_is_written(run, "field is not UTF-8");
                            }
                            parsing::read_list_is_written(
                                listed,
                                Seq::empty(),
                                count as nat,
                                item,
                                bytes,
                            );
                            parsing::lemma_list_items(
                                listed,
                                Seq::empty(),
                                count as nat,
                                item,
                                fits,
                            );
                            match parse_op(input) {
                                Ok((op, behind)) => {
                                    let fields = op->fields;
                                    assert(fields.skip(0) =~= fields);
                                    assert(input =~= op_bytes(op) + behind);
                                    assert forall|i: int|
                                        0 <= i < fields.len() implies parsing::storable(
                                        #[trigger] fields[i],
                                    ) by {
                                        assert(fits(fields[i]));
                                    }
                                },
                                Err(error) => {},
                            }
                        },
                        Err(error) => {},
                    }
                } else if input[0] == 2 {
                    assert(input =~= op_bytes(Op::Delete { rowid }) + rest);
                }
            },
            Err(error) => {},
        }
    }
}

/// Nothing is read as a commit but what is written for it.
pub proof fn read_commit_is_written(payload: Seq<u8>)
    ensures
        parse_commit(payload) matches Ok((generation, writes)) ==> payload == commit_bytes(
            generation,
            writes,
        ) && storable_commit(writes),
{
    let (item, bytes) = (op_parser(), op_encoder());
    let fits = |op: Op| storable_op(op);
    assert forall|before: Seq<Op>, run: Seq<u8>|
        (#[trigger] item(before, run)) matches Ok((op, rest)) ==> run == bytes(op) + rest && fits(
            op,
        ) by {
        lemma_read_op(run);
    }
    codec::read_u64_is_written(payload);
    match parsing::outcome(codec::parse_u64(payload)) {
        Ok((generation, rest)) => {
            codec::read_u32_is_written(rest);
            match parsing::outcome(codec::parse_u32(rest)) {
                Ok((count, listed)) => {
                    parsing::read_list_is_written(
                        listed,
                        Seq::empty(),
                        count as nat,
                        item,
                        bytes,
                    );
                    parsing::lemma_list_items(listed, Seq::empty(), count as nat, item, fits);
                    if parse_commit(payload) is Ok {
                        let writes = parse_commit(payload)->Ok_0.1;
                        assert(writes.skip(0) =~= writes);
                        assert(payload =~= commit_bytes(generation, writes));
                        assert forall|i: int| 0 <= i < writes.len() implies storable_op(
                            #[trigger] writes[i],
                        ) by {
                            assert(fits(writes[i]));
                        }
                    }
                },
                Err(error) => {},
            }
        },
        Err(error) => {},
    }
}

/// A commit that can be read holds valid writes only.
pub proof fn parsed_writes_are_valid(payload: Seq<u8>)
    ensures
        parse_commit(payload) matches Ok((generation, writes)) ==> forall|i: int|
            0 <= i < writes.len() ==> (#[trigger] writes[i]).valid(),
{
    let item = op_parser();
    let property = |op: Op| op.valid();
    assert forall|before: Seq<Op>, bytes: Seq<u8>| (#[trigger] item(
        before,
        bytes,
    )) is Ok implies property(item(before, bytes)->Ok_0.0) by {
        lemma_op_valid(bytes);
    }
    match parsing::outcome(codec::parse_u64(payload)) {
        Ok((generation, rest)) => match parsing::outcome(codec::parse_u32(rest)) {
            Ok((count, rest)) => {
                parsing::lemma_list_items(rest, Seq::empty(), count as nat, item, property);
                if parse_commit(payload) is Ok {
                    let writes = parse_commit(payload)->Ok_0.1;
                    assert forall|i: int| 0 <= i < writes.len() implies (
                    #[trigger] writes[i]).valid() by {
                        assert(property(writes[i]));
                    }
                }
            },
            Err(error) => {},
        },
        Err(error) => {},
    }
}

proof fn lemma_op_valid(input: Seq<u8>)
    ensures
        parse_op(input) matches Ok((op, rest)) ==> op.valid(),
{
    if input.len() > 0 && input[0] == 1 {
        match parsing::outcome(codec::parse_i64(input.skip(1))) {
            Ok((rowid, rest)) => match parsing::outcome(codec::parse_u32(rest)) {
                Ok((count, rest)) => {
                    parsing::lemma_list_items(
                        rest,
                        Seq::empty(),
                        count as nat,
                        parsing::text_parser("field is not UTF-8"),
                        |text: Seq<char>| true,
                    );
                },
                Err(error) => {},
            },
            Err(error) => {},
        }
    }
}

/// Writes texts one behind the other.
pub fn put_texts(out: &mut Vec<u8>, texts: &Vec<String>) -> (result: Result<()>)
    ensures
        result is Ok <==> forall|i: int|
            0 <= i < texts@.len() ==> parsing::storable(#[trigger] text::texts(texts@)[i]),
        result is Ok ==> final(out)@ == old(out)@ + parsing::list_bytes(
            text::texts(texts@),
            parsing::text_encoder(),
        ),
        result matches Err(error) ==> error.is_invalid_input("value exceeds 4 GiB storage limit"@),
{
    let ghost items = text::texts(texts@);
    let ghost bytes = parsing::text_encoder();
    let ghost start = out@;
    let mut done: usize = 0;
    assert(items.skip(0) =~= items);
    while done < texts.len()
        invariant
            done <= texts@.len(),
            items == text::texts(texts@),
            bytes == parsing::text_encoder(),
            out@ + parsing::list_bytes(items.skip(done as int), bytes) == start
                + parsing::list_bytes(items, bytes),
            forall|i: int| 0 <= i < done ==> parsing::storable(#[trigger] items[i]),
        decreases texts@.len() - done,
    {
        let ghost before = out@;
        assert(items[done as int] == texts@[done as int]@);
        match put_bytes(out, texts[done].as_str().as_bytes()) {
            Ok(_) => {},
            Err(error) => {
                assert(!parsing::storable(items[done as int]));
                return Err(error);
            },
        }
        proof {
            assert(items.skip(done as int).skip(1) =~= items.skip(done + 1));
            assert(before + parsing::list_bytes(items.skip(done as int), bytes) =~= out@
                + parsing::list_bytes(items.skip(done + 1), bytes));
        }
        done = done + 1;
    }
    assert(out@ + parsing::list_bytes(items.skip(done as int), bytes) =~= out@);
    Ok(())
}

/// The bytes of a commit.
pub fn encode_commit(generation: u64, operations: &Vec<Operation>) -> (result: Result<Vec<u8>>)
    ensures
        result is Ok <==> storable_commit(operation::ops(operations@)),
        result matches Ok(payload) ==> payload@ == commit_bytes(
            generation,
            operation::ops(operations@),
        ),
        result matches Err(error) ==> if operations@.len() > u32::MAX {
            error.is_invalid_input("too many operations in one transaction"@)
        } else {
            error.is_invalid_input("value exceeds 4 GiB storage limit"@)
        },
{
    let ghost writes = operation::ops(operations@);
    let ghost bytes = op_encoder();
    let mut payload: Vec<u8> = Vec::new();
    put_u64(&mut payload, generation);
    if operations.len() > u32::MAX as usize {
        return Err(invalid_input("too many operations in one transaction"));
    }
    put_u32(&mut payload, operations.len() as u32);
    let ghost start = payload@;
    let mut done: usize = 0;
    assert(writes.skip(0) =~= writes);
    while done < operations.len()
        invariant
            done <= operations@.len() <= u32::MAX,
            writes == operation::ops(operations@),
            bytes == op_encoder(),
            payload@ + parsing::list_bytes(writes.skip(done as int), bytes) == start
                + parsing::list_bytes(writes, bytes),
            forall|i: int| 0 <= i < done ==> storable_op(#[trigger] writes[i]),
        decreases operations@.len() - done,
    {
        let ghost before = payload@;
        assert(writes[done as int] == operations@[done as int]@);
        match &operations[done] {
            Operation::Upsert { rowid, fields } => {
                payload.push(1);
                put_i64(&mut payload, *rowid);
                put_u32(&mut payload, fields.len() as u32);
                match put_texts(&mut payload, fields) {
                    Ok(_) => {},
                    Err(error) => {
                        assert(!storable_op(writes[done as int]));
                        return Err(error);
                    },
                }
            },
            Operation::Delete { rowid } => {
                payload.push(2);
                put_i64(&mut payload, *rowid);
            },
        }
        proof {
            assert(payload@ =~= before + op_bytes(writes[done as int]));
            assert(writes.skip(done as int).skip(1) =~= writes.skip(done + 1));
            assert(before + parsing::list_bytes(writes.skip(done as int), bytes) =~= payload@
                + parsing::list_bytes(writes.skip(done + 1), bytes));
        }
        done = done + 1;
    }
    assert(payload@ + parsing::list_bytes(writes.skip(done as int), bytes) =~= payload@);
    assert(payload@ =~= commit_bytes(generation, writes));
    Ok(payload)
}

/// Reads the texts of `count` fields.
pub fn read_texts(input: &mut &[u8], count: usize, message: &'static str) -> (result: Result<
    Vec<String>,
>)
    ensures
        match parsing::parse_list(
            old(input)@,
            Seq::empty(),
            count as nat,
            parsing::text_parser(message),
        ) {
            Ok((texts, rest)) => result matches Ok(strings) && text::texts(strings@) == texts
                && strings@.len() == count && final(input)@ == rest && rest.len()
                <= old(input)@.len(),
            Err(error) => result == Err::<Vec<String>, Error>(error),
        },
{
    let ghost item = parsing::text_parser(message);
    let ghost start = input@;
    let mut texts: Vec<String> = Vec::new();
    assert(text::texts(texts@) =~= Seq::empty());
    while texts.len() < count
        invariant
            texts@.len() <= count,
            start == old(input)@,
            input@.len() <= start.len(),
            item == parsing::text_parser(message),
            parsing::parse_list(start, Seq::empty(), count as nat, item) == parsing::parse_list(
                input@,
                text::texts(texts@),
                count as nat,
                item,
            ),
        decreases count - texts@.len(),
    {
        let ghost before = texts@;
        match read_text(input, message) {
            Ok(text) => {
                texts.push(text);
                assert(text::texts(texts@) =~= text::texts(before).push(text@));
            },
            Err(error) => return Err(error),
        }
    }
    Ok(texts)
}

/// Reads one write.
fn read_op(input: &mut &[u8]) -> (result: Result<Operation>)
    ensures
        match parse_op(old(input)@) {
            Ok((op, rest)) => result matches Ok(operation) && operation@ == op && final(input)@
                == rest,
            Err(error) => result == Err::<Operation, Error>(error),
        },
{
    if input.len() == 0 {
        return Err(Error::Corrupt("missing operation tag"));
    }
    let (head, tail) = input.split_at(1);
    let tag: u8 = head[0];
    assert(tail@ =~= input@.skip(1));
    *input = tail;
    let rowid: i64 = match read_i64(input) {
        Ok(rowid) => rowid,
        Err(error) => return Err(error),
    };
    if tag == 1 {
        let count: u32 = match read_u32(input) {
            Ok(count) => count,
            Err(error) => return Err(error),
        };
        if count == 0 || count > 64 {
            return Err(Error::Corrupt("invalid field count"));
        }
        match read_texts(input, count as usize, "field is not UTF-8") {
            Ok(fields) => Ok(Operation::Upsert { rowid, fields }),
            Err(error) => Err(error),
        }
    } else if tag == 2 {
        Ok(Operation::Delete { rowid })
    } else {
        Err(Error::Corrupt("unknown operation tag"))
    }
}

/// Reads a commit: its generation and its writes.
pub fn decode_commit(payload: &[u8]) -> (result: Result<(u64, Vec<Operation>)>)
    ensures
        match parse_commit(payload@) {
            Ok((generation, writes)) => result matches Ok(commit) && commit.0 == generation
                && operation::ops(commit.1@) == writes && writes.len() <= u32::MAX,
            Err(error) => result == Err::<(u64, Vec<Operation>), Error>(error),
        },
{
    let mut input: &[u8] = payload;
    let generation: u64 = match read_u64(&mut input) {
        Ok(generation) => generation,
        Err(error) => return Err(error),
    };
    let count: u32 = match read_u32(&mut input) {
        Ok(count) => count,
        Err(error) => return Err(error),
    };
    let ghost item = op_parser();
    let ghost start = input@;
    let mut operations: Vec<Operation> = Vec::new();
    assert(operation::ops(operations@) =~= Seq::empty());
    while operations.len() < count as usize
        invariant
            operations@.len() <= count,
            item == op_parser(),
            parsing::parse_list(start, Seq::empty(), count as nat, item) == parsing::parse_list(
                input@,
                operation::ops(operations@),
                count as nat,
                item,
            ),
            match parse_commit(payload@) {
                Ok((parsed, writes)) => parsed == generation,
                Err(error) => true,
            },
            parsing::outcome(codec::parse_u64(payload@)) is Ok,
            parsing::outcome(
                codec::parse_u32(parsing::outcome(codec::parse_u64(payload@))->Ok_0.1),
            ) == Ok::<(u32, Seq<u8>), Error>((count, start)),
        decreases count - operations@.len(),
    {
        let ghost before = operations@;
        match read_op(&mut input) {
            Ok(operation) => {
                operations.push(operation);
                assert(operation::ops(operations@) =~= operation::ops(before).push(operation@));
            },
            Err(error) => return Err(error),
        }
    }
    if input.len() != 0 {
        return Err(Error::Corrupt("trailing commit bytes"));
    }
    Ok((generation, operations))
}

} // verus!
