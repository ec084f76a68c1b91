//! Runs of records in a byte string.
//!
//! A parser takes the bytes at hand and gives the record they begin with and the
//! bytes behind it, or says what is wrong.
use crate::codec;
use crate::codec::{append_bytes, read_bytes};
use crate::error::{Error, Result};
use crate::text::string_from_utf8;
use vstd::prelude::*;

verus! {

/// A record and the bytes behind it.
pub type Parsed<T> = Result<(T, Seq<u8>)>;

/// A read as a parser.
pub open spec fn outcome<T>(read: (Result<T>, Seq<u8>)) -> Parsed<T> {
    match read.0 {
        Ok(value) => Ok((value, read.1)),
        Err(error) => Err(error),
    }
}

/// Reads records behind those of `done` until there are `count`. What a record
/// may be can depend on the records before it.
pub open spec fn parse_list<T>(
    input: Seq<u8>,
    done: Seq<T>,
    count: nat,
    item: spec_fn(Seq<T>, Seq<u8>) -> Parsed<T>,
) -> Parsed<Seq<T>>
    decreases count - done.len(),
{
    if done.len() >= count {
        Ok((done, input))
    } else {
        match item(done, input) {
            Ok((value, rest)) => parse_list(rest, done.push(value), count, item),
            Err(error) => Err(error),
        }
    }
}

/// The bytes of all records, one behind the other.
pub open spec fn list_bytes<T>(items: Seq<T>, bytes: spec_fn(T) -> Seq<u8>) -> Seq<u8>
    decreases items.len(),
{
    if items.len() == 0 {
        Seq::empty()
    } else {
        bytes(items[0]) + list_bytes(items.skip(1), bytes)
    }
}

/// A text: UTF-8 behind its length.
pub open spec fn parse_text(input: Seq<u8>, message: &'static str) -> Parsed<Seq<char>> {
    match outcome(codec::parse_bytes(input)) {
        Ok((bytes, rest)) => if vstd::utf8::valid_utf8(bytes) {
            Ok((vstd::utf8::decode_utf8(bytes), rest))
        } else {
            Err(Error::Corrupt(message))
        },
        Err(error) => Err(error),
    }
}

pub open spec fn text_parser(message: &'static str) -> spec_fn(
    Seq<Seq<char>>,
    Seq<u8>,
) -> Parsed<Seq<char>> {
    |done: Seq<Seq<char>>, input: Seq<u8>| parse_text(input, message)
}

pub open spec fn text_bytes(text: Seq<char>) -> Seq<u8> {
    codec::framed_bytes(vstd::utf8::encode_utf8(text))
}

pub open spec fn text_encoder() -> spec_fn(Seq<char>) -> Seq<u8> {
    |text: Seq<char>| text_bytes(text)
}

/// Whether the length of the text fits in its length field.
pub open spec fn storable(text: Seq<char>) -> bool {
    vstd::utf8::encode_utf8(text).len() <= u32::MAX
}

/// Records that each survive being written and read survive it together.
pub proof fn list_round_trip<T>(
    items: Seq<T>,
    bytes: spec_fn(T) -> Seq<u8>,
    item: spec_fn(Seq<T>, Seq<u8>) -> Parsed<T>,
    rest: Seq<u8>,
)
    requires
        forall|i: int, tail: Seq<u8>|
            0 <= i < items.len() ==> #[trigger] item(items.take(i), bytes(items[i]) + tail) == Ok::<
                (T, Seq<u8>),
                Error,
            >((items[i], tail)),
    ensures
        parse_list(list_bytes(items, bytes) + rest, Seq::empty(), items.len(), item) == Ok::<
            (Seq<T>, Seq<u8>),
            Error,
        >((items, rest)),
{
    assert(items.skip(0) =~= items);
    assert(items.take(0) =~= Seq::empty());
    lemma_list_round_trip(items, bytes, item, rest, 0);
}

proof fn lemma_list_round_trip<T>(
    items: Seq<T>,
    bytes: spec_fn(T) -> Seq<u8>,
    item: spec_fn(Seq<T>, Seq<u8>) -> Parsed<T>,
    rest: Seq<u8>,
    done: int,
)
    requires
        0 <= done <= items.len(),
        forall|i: int, tail: Seq<u8>|
            0 <= i < items.len() ==> #[trigger] item(items.take(i), bytes(items[i]) + tail) == Ok::<
                (T, Seq<u8>),
                Error,
            >((items[i], tail)),
    ensures
        parse_list(
            list_bytes(items.skip(done), bytes) + rest,
            items.take(done),
            items.len(),
            item,
        ) == Ok::<(Seq<T>, Seq<u8>), Error>((items, rest)),
    decreases items.len() - done,
{
    let left = items.skip(done);
    if done == items.len() {
        assert(items.take(done) =~= items);
        assert(list_bytes(left, bytes) + rest =~= rest);
    } else {
        let tail = list_bytes(items.skip(done + 1), bytes) + rest;
        assert(left.skip(1) =~= items.skip(done + 1));
        assert(list_bytes(left, bytes) + rest =~= bytes(items[done]) + tail);
        assert(items.take(done).push(items[done]) =~= items.take(done + 1));
        assert(item(items.take(done), bytes(items[done]) + tail) == Ok::<(T, Seq<u8>), Error>(
            (items[done], tail),
        ));
        lemma_list_round_trip(items, bytes, item, rest, done + 1);
    }
}

/// What every record meets, all records of a run meet; and a run is as long as it
/// should be.
pub proof fn lemma_list_items<T>(
    input: Seq<u8>,
    done: Seq<T>,
    count: nat,
    item: spec_fn(Seq<T>, Seq<u8>) -> Parsed<T>,
    property: spec_fn(T) -> bool,
)
    requires
        done.len() <= count,
        forall|i: int| 0 <= i < done.len() ==> property(#[trigger] done[i]),
        forall|before: Seq<T>, bytes: Seq<u8>|
            (#[trigger] item(before, bytes)) matches Ok((value, rest)) ==> property(value),
    ensures
        parse_list(input, done, count, item) matches Ok((items, rest)) ==> items.len() == count
            && forall|i: int| 0 <= i < items.len() ==> property(#[trigger] items[i]),
    decreases count - done.len(),
{
    if done.len() < count {
        match item(done, input) {
            Ok((value, rest)) => {
                lemma_list_items(rest, done.push(value), count, item, property);
            },
            Err(error) => {},
        }
    }
}

/// A storable text survives being written and read, whatever follows it.
pub proof fn text_round_trip(text: Seq<char>, message: &'static str, rest: Seq<u8>)
    requires
        storable(text),
    ensures
        parse_text(text_bytes(text) + rest, message) == Ok::<(Seq<char>, Seq<u8>), Error>(
            (text, rest),
        ),
{
    codec::bytes_round_trip(vstd::utf8::encode_utf8(text), rest);
    vstd::utf8::encode_utf8_valid_utf8(text);
    vstd::utf8::encode_utf8_decode_utf8(text);
}

/// Texts that are all storable survive being written and read.
pub proof fn texts_round_trip(texts: Seq<Seq<char>>, message: &'static str, rest: Seq<u8>)
    requires
        forall|i: int| 0 <= i < texts.len() ==> storable(#[trigger] texts[i]),
    ensures
        parse_list(
            list_bytes(texts, text_encoder()) + rest,
            Seq::empty(),
            texts.len(),
            text_parser(message),
        ) == Ok::<(Seq<Seq<char>>, Seq<u8>), Error>((texts, rest)),
{
    let (bytes, item) = (text_encoder(), text_parser(message));
    assert forall|i: int, tail: Seq<u8>| 0 <= i < texts.len() implies #[trigger] item(
        texts.take(i),
        bytes(texts[i]) + tail,
    ) == Ok::<(Seq<char>, Seq<u8>), Error>((texts[i], tail)) by {
        text_round_trip(texts[i], message, tail);
    }
    list_round_trip(texts, bytes, item, rest);
}

/// What is read as a text are the bytes of the text.
pub proof fn read_text_is_written(input: Seq<u8>, message: &'static str)
    ensures
        parse_text(input, message) matches Ok((text, rest)) ==> input == text_bytes(text) + rest
            && storable(text),
{
    codec::read_bytes_are_written(input);
    match outcome(codec::parse_bytes(input)) {
        Ok((bytes, rest)) => {
            if vstd::utf8::valid_utf8(bytes) {
                vstd::utf8::decode_utf8_encode_utf8(bytes);
            }
        },
        Err(error) => {},
    }
}

/// Where every record that is read is what is written for it, so is a run of them.
pub proof fn read_list_is_written<T>(
    input: Seq<u8>,
    done: Seq<T>,
    count: nat,
    item: spec_fn(Seq<T>, Seq<u8>) -> Parsed<T>,
    bytes: spec_fn(T) -> Seq<u8>,
)
    requires
        done.len() <= count,
        forall|before: Seq<T>, run: Seq<u8>|
            (#[trigger] item(before, run)) matches Ok((value, rest)) ==> run == bytes(value)
                + rest,
    ensures
        parse_list(input, done, count, item) matches Ok((items, rest)) ==> items.len() == count
            && items.take(done.len() as int) == done && input == list_bytes(
            items.skip(done.len() as int),
            bytes,
        ) + rest,
    decreases count - done.len(),
{
    if done.len() < count {
        match item(done, input) {
            Ok((value, rest)) => {
                read_list_is_written(rest, done.push(value), count, item, bytes);
                match parse_list(input, done, count, item) {
                    Ok((items, behind)) => {
                        let n = done.len() as int;
                        assert(items.take(n + 1) == done.push(value));
                        assert(items[n] == items.take(n + 1)[n]);
                        assert(items.take(n) =~= done) by {
                            assert(items.take(n) =~= items.take(n + 1).take(n));
                            assert(done.push(value).take(n) =~= done);
                        }
                        assert(items.skip(n).skip(1) =~= items.skip(n + 1));
                        assert(input =~= list_bytes(items.skip(n), bytes) + behind);
                    },
                    Err(error) => {},
                }
            },
            Err(error) => {},
        }
    } else {
        assert(done.take(done.len() as int) =~= done);
        assert(list_bytes(done.skip(done.len() as int), bytes) + input =~= input);
    }
}

/// Reads a text.
pub fn read_text(input: &mut &[u8], message: &'static str) -> (result: Result<String>)
    ensures
        match parse_text(old(input)@, message) {
            Ok((text, rest)) => result matches Ok(string) && string@ == text && final(input)@
                == rest,
            Err(error) => result == Err::<String, Error>(error),
        },
{
    let bytes: &[u8] = match read_bytes(input) {
        Ok(bytes) => bytes,
        Err(error) => return Err(error),
    };
    let mut owned: Vec<u8> = Vec::new();
    append_bytes(&mut owned, bytes);
    assert(owned@ =~= bytes@);
    match string_from_utf8(owned) {
        Some(text) => {
            proof {
                vstd::utf8::encode_utf8_decode_utf8(text@);
            }
            Ok(text)
        },
        None => Err(Error::Corrupt(message)),
    }
}

} // verus!
