//! What is typed on a command line.
use crate::error::{invalid_input, Result};
use crate::text;
use crate::text::{text_order, TextOrder};
use vstd::prelude::*;

verus! {

pub open spec fn is_digit(byte: u8) -> bool {
    0x30 <= byte <= 0x39
}

/// At least one decimal digit and nothing else.
pub open spec fn is_number(bytes: Seq<u8>) -> bool {
    bytes.len() > 0 && forall|i: int| 0 <= i < bytes.len() ==> is_digit(#[trigger] bytes[i])
}

/// The number that decimal digits stand for.
pub open spec fn decimal(bytes: Seq<u8>) -> nat
    decreases bytes.len(),
{
    if bytes.len() == 0 {
        0
    } else {
        10 * decimal(bytes.drop_last()) + (bytes.last() - 0x30) as nat
    }
}

/// A whole number: digits, behind a sign or not.
pub open spec fn signed(bytes: Seq<u8>) -> Option<int> {
    if bytes.len() > 0 && bytes[0] == 0x2d {
        if is_number(bytes.skip(1)) {
            Some(-(decimal(bytes.skip(1)) as int))
        } else {
            None
        }
    } else {
        match unsigned(bytes) {
            Some(value) => Some(value as int),
            None => None,
        }
    }
}

/// A natural number: digits, behind a plus or not.
pub open spec fn unsigned(bytes: Seq<u8>) -> Option<nat> {
    let digits = if bytes.len() > 0 && bytes[0] == 0x2b {
        bytes.skip(1)
    } else {
        bytes
    };
    if is_number(digits) {
        Some(decimal(digits))
    } else {
        None
    }
}

/// Part of the digits stand for no larger a number.
proof fn lemma_decimal_grows(bytes: Seq<u8>, part: int)
    requires
        is_number(bytes),
        0 <= part <= bytes.len(),
    ensures
        decimal(bytes.take(part)) <= decimal(bytes),
    decreases bytes.len() - part,
{
    if part < bytes.len() {
        assert(bytes.take(part + 1).drop_last() =~= bytes.take(part));
        assert(is_digit(bytes[part]));
        lemma_decimal_grows(bytes, part + 1);
    } else {
        assert(bytes.take(part) =~= bytes);
    }
}

/// The number that the bytes from `start` on stand for, if they are digits and it
/// is at most `most`.
fn read_decimal(bytes: &[u8], start: usize, most: u64) -> (value: Option<u64>)
    requires
        start <= bytes@.len(),
    ensures
        match value {
            Some(value) => is_number(bytes@.skip(start as int)) && value == decimal(
                bytes@.skip(start as int),
            ) && value <= most,
            None => !is_number(bytes@.skip(start as int)) || decimal(bytes@.skip(start as int))
                > most,
        },
{
    let ghost digits = bytes@.skip(start as int);
    if start == bytes.len() {
        return None;
    }
    let mut value: u64 = 0;
    let mut index: usize = start;
    assert(digits.take(0) =~= Seq::empty());
    while index < bytes.len()
        invariant
            start <= index <= bytes@.len(),
            digits == bytes@.skip(start as int),
            digits.len() > 0,
            value == decimal(digits.take(index - start)),
            value <= most,
            forall|i: int| 0 <= i < index - start ==> is_digit(#[trigger] digits[i]),
        decreases bytes@.len() - index,
    {
        let byte: u8 = bytes[index];
        let ghost done = index - start;
        assert(digits[done] == byte);
        if byte < 0x30 || byte > 0x39 {
            assert(!is_digit(digits[done]));
            return None;
        }
        let digit: u64 = (byte - 0x30) as u64;
        proof {
            assert(digits.take(done + 1).drop_last() =~= digits.take(done));
            if is_number(digits) {
                lemma_decimal_grows(digits, done + 1);
            }
        }
        if value > most / 10 || digit > most || value * 10 > most - digit {
            return None;
        }
        value = value * 10 + digit;
        index = index + 1;
    }
    assert(digits.take(index - start) =~= digits);
    Some(value)
}

/// Reads a rowid.
pub fn parse_rowid(value: &str) -> (result: Result<i64>)
    ensures
        match signed(vstd::utf8::encode_utf8(value@)) {
            Some(number) if i64::MIN <= number <= i64::MAX => result matches Ok(rowid) && rowid
                == number,
            _ => result matches Err(error) && error.is_invalid_input("rowid must be an i64"@),
        },
{
    let bytes: &[u8] = value.as_bytes();
    if bytes.len() > 0 && bytes[0] == 0x2d {
        return match read_decimal(bytes, 1, 0x8000_0000_0000_0000) {
            Some(size) => {
                if size == 0x8000_0000_0000_0000 {
                    Ok(i64::MIN)
                } else {
                    Ok(-(size as i64))
                }
            },
            None => Err(invalid_input("rowid must be an i64")),
        };
    }
    let start: usize = if bytes.len() > 0 && bytes[0] == 0x2b {
        1
    } else {
        0
    };
    assert(bytes@.skip(0) =~= bytes@);
    match read_decimal(bytes, start, 0x7fff_ffff_ffff_ffff) {
        Some(size) => Ok(size as i64),
        None => Err(invalid_input("rowid must be an i64")),
    }
}

/// Reads how many hits are wanted.
pub fn parse_limit(value: &str) -> (result: Result<usize>)
    ensures
        match unsigned(vstd::utf8::encode_utf8(value@)) {
            Some(number) if number <= usize::MAX => result matches Ok(limit) && limit == number,
            _ => result matches Err(error) && error.is_invalid_input("limit must be an integer"@),
        },
{
    let bytes: &[u8] = value.as_bytes();
    let start: usize = if bytes.len() > 0 && bytes[0] == 0x2b {
        1
    } else {
        0
    };
    assert(bytes@.skip(0) =~= bytes@);
    match read_decimal(bytes, start, usize::MAX as u64) {
        Some(size) => Ok(size as usize),
        None => Err(invalid_input("limit must be an integer")),
    }
}

/// What the program is asked to do. Numbers stand as they were typed.
#[derive(Debug, PartialEq, Eq)]
pub enum Command {
    /// Too little was said.
    Usage,
    /// Write a document of one field.
    Put { path: String, rowid: String, text: String },
    /// Show a document.
    Get { path: String, rowid: String },
    /// Search for a term.
    Search { path: String, term: String, limit: Option<String> },
    /// Write a checkpoint.
    Optimize { path: String },
}

/// The texts with a space between them.
pub open spec fn spaced(texts: Seq<Seq<char>>) -> Seq<char>
    decreases texts.len(),
{
    if texts.len() == 0 {
        Seq::empty()
    } else if texts.len() == 1 {
        texts[0]
    } else {
        spaced(texts.drop_last()) + " "@ + texts.last()
    }
}

/// Whether the command says what the arguments say.
pub open spec fn is_command(args: Seq<Seq<char>>, command: Command) -> bool {
    match command {
        Command::Usage => args.len() < 3,
        Command::Put { path, rowid, text } => args.len() >= 5 && args[1] == "put"@ && path@
            == args[2] && rowid@ == args[3] && text@ == spaced(args.skip(4)),
        Command::Get { path, rowid } => args.len() == 4 && args[1] == "get"@ && path@ == args[2]
            && rowid@ == args[3],
        Command::Search { path, term, limit } => args.len() >= 4 && args[1] == "search"@ && path@
            == args[2] && term@ == args[3] && match limit {
            Some(limit) => args.len() > 4 && limit@ == args[4],
            None => args.len() == 4,
        },
        Command::Optimize { path } => args.len() == 3 && args[1] == "optimize"@ && path@
            == args[2],
    }
}

/// Whether the arguments ask for something the program can do.
pub open spec fn is_understood(args: Seq<Seq<char>>) -> bool {
    ||| args.len() < 3
    ||| args[1] == "put"@ && args.len() >= 5
    ||| args[1] == "get"@ && args.len() == 4
    ||| args[1] == "search"@ && args.len() >= 4
    ||| args[1] == "optimize"@ && args.len() == 3
}

/// Whether two texts are the same.
fn is_text(text: &String, expected: &str) -> (result: bool)
    ensures
        result == (text@ == expected@),
{
    proof {
        text::text_order_laws(text@, expected@, text@);
        text::text_order_laws(text@, text@, text@);
    }
    match text_order(text.as_str(), expected) {
        TextOrder::Same => true,
        _ => false,
    }
}

/// The arguments from `start` on with a space between them.
fn join_from(args: &Vec<String>, start: usize) -> (text: String)
    requires
        start < args@.len(),
    ensures
        text@ == spaced(text::texts(args@).skip(start as int)),
{
    let ghost parts = text::texts(args@).skip(start as int);
    let total: usize = args.len();
    let mut text = args[start].clone();
    let mut index: usize = start + 1;
    assert(parts.take(1).len() == 1);
    assert(parts.take(1)[0] == args@[start as int]@);
    while index < total
        invariant
            start < index <= total,
            total == args@.len(),
            parts == text::texts(args@).skip(start as int),
            text@ == spaced(parts.take(index - start)),
        decreases args@.len() - index,
    {
        let ghost done = index - start;
        text.append(" ");
        text.append(args[index].as_str());
        proof {
            let more = parts.take(done + 1);
            assert(more.drop_last() =~= parts.take(done));
            assert(more.last() == args@[index as int]@);
        }
        index = index + 1;
    }
    assert(parts.take(index - start) =~= parts);
    text
}

/// Reads the arguments of the program; the first of them is its name.
pub fn parse_command(args: &Vec<String>) -> (result: Result<Command>)
    ensures
        match result {
            Ok(command) => is_command(text::texts(args@), command),
            Err(error) => !is_understood(text::texts(args@)) && error.is_invalid_input(
                "invalid command or arguments"@,
            ),
        },
{
    let ghost texts = text::texts(args@);
    if args.len() < 3 {
        return Ok(Command::Usage);
    }
    let verb = &args[1];
    proof {
        assert(texts[1] == verb@);
        assert(texts[2] == args@[2]@);
    }
    if args.len() >= 5 && is_text(verb, "put") {
        assert(texts[3] == args@[3]@);
        return Ok(
            Command::Put {
                path: args[2].clone(),
                rowid: args[3].clone(),
                text: join_from(args, 4),
            },
        );
    }
    if args.len() == 4 && is_text(verb, "get") {
        assert(texts[3] == args@[3]@);
        return Ok(Command::Get { path: args[2].clone(), rowid: args[3].clone() });
    }
    if args.len() >= 4 && is_text(verb, "search") {
        assert(texts[3] == args@[3]@);
        let limit: Option<String> = if args.len() > 4 {
            assert(texts[4] == args@[4]@);
            Some(args[4].clone())
        } else {
            None
        };
        return Ok(Command::Search { path: args[2].clone(), term: args[3].clone(), limit });
    }
    if args.len() == 3 && is_text(verb, "optimize") {
        return Ok(Command::Optimize { path: args[2].clone() });
    }
    Err(invalid_input("invalid command or arguments"))
}

} // verus!
