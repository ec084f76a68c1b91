//! What can be asked of a search and of the program.
use crate::arguments::{
    decimal, is_digit, is_number, parse_command, parse_limit, parse_rowid, signed, spaced,
    unsigned, Command,
};
use crate::cache::DatabaseConfig;
use crate::error::{Error, Result};
use crate::query::SearchOptions;
use crate::text;
use vstd::prelude::*;
use vstd::utf8::encode_utf8;

verus! {

/// The sign of a number of 32 bits: whether it stands below zero.
pub open spec fn negative(bits: u32) -> bool {
    bits >= 0x8000_0000
}

/// The power of two of a number of 32 bits, 127 too large.
pub open spec fn exponent(bits: u32) -> int {
    (bits as int / 0x80_0000) % 0x100
}

/// The part behind the point of a number of 32 bits.
pub open spec fn fraction(bits: u32) -> int {
    bits as int % 0x80_0000
}

/// A number of either sign that is zero.
pub open spec fn zero(bits: u32) -> bool {
    exponent(bits) == 0 && fraction(bits) == 0
}

/// A search can be run if and only if it asks for a hit, `k1` is a finite number of
/// zero or more, and `b` is between zero and one. It is then run as asked for.
pub proof fn searches_ask_for_hits(options: SearchOptions, result: Result<SearchOptions>)
    requires
        call_ensures(SearchOptions::validate, (options,), result),
    ensures
        result is Ok <==> {
            &&& options.limit >= 1
            &&& exponent(options.k1) < 255
            &&& !negative(options.k1) || zero(options.k1)
            &&& exponent(options.b) < 127 || exponent(options.b) == 127 && fraction(options.b) == 0
            &&& !negative(options.b) || zero(options.b)
        },
        result matches Ok(valid) ==> valid == options,
{
}

/// Without options a search asks for ten hits, with the number nearest to 1.2 for `k1`
/// and 0.75 for `b`, and may be answered from the cache. Such a search can be run.
pub proof fn usual_searches(options: SearchOptions, result: Result<SearchOptions>)
    requires
        call_ensures(SearchOptions::default, (), options),
        call_ensures(SearchOptions::validate, (options,), result),
    ensures
        options.limit == 10,
        options.cache,
        !negative(options.k1),
        exponent(options.k1) == 127,
        -5 <= 2 * (5 * (0x80_0000 + fraction(options.k1)) - 6 * 0x80_0000) <= 5,
        !negative(options.b),
        exponent(options.b) == 126,
        4 * (0x80_0000 + fraction(options.b)) == 3 * 0x100_0000,
        result is Ok,
{
}

/// A database remembers 256 results unless told otherwise.
pub proof fn usual_databases(config: DatabaseConfig)
    requires
        call_ensures(DatabaseConfig::default, (), config),
    ensures
        config.query_cache_capacity == 256,
{
}

/// The decimal digits of a number, the first of them not zero but for zero itself.
pub open spec fn digits(number: nat) -> Seq<char>
    decreases number,
{
    let last = (0x30 + number % 10) as char;
    if number < 10 {
        seq![last]
    } else {
        digits(number / 10).push(last)
    }
}

/// A whole number as it is typed.
pub open spec fn typed(number: int) -> Seq<char> {
    if number < 0 {
        seq!['-'] + digits((-number) as nat)
    } else {
        digits(number as nat)
    }
}

proof fn lemma_digits(number: nat)
    ensures
        vstd::utf8::is_ascii_chars(digits(number)),
        is_number(encode_utf8(digits(number))),
        decimal(encode_utf8(digits(number))) == number,
    decreases number,
{
    let text = digits(number);
    let last = (0x30 + number % 10) as char;
    if number >= 10 {
        lemma_digits(number / 10);
        vstd::utf8::is_ascii_chars_encode_utf8(digits(number / 10));
    }
    assert(vstd::utf8::is_ascii_chars(text)) by {
        assert forall|i: int| 0 <= i < text.len() implies '\0' <= #[trigger] text[i]
            <= '\u{7f}' by {
            if number >= 10 && i < text.len() - 1 {
                assert(text[i] == digits(number / 10)[i]);
            }
        }
    }
    vstd::utf8::is_ascii_chars_encode_utf8(text);
    let bytes = encode_utf8(text);
    assert(bytes.len() == text.len());
    assert(bytes.last() == 0x30 + number % 10);
    if number >= 10 {
        let before = encode_utf8(digits(number / 10));
        assert(bytes.drop_last() =~= before) by {
            assert forall|i: int| 0 <= i < before.len() implies bytes[i]
                == #[trigger] before[i] by {
                assert(text[i] == digits(number / 10)[i]);
            }
        }
        assert forall|i: int| 0 <= i < bytes.len() implies is_digit(#[trigger] bytes[i]) by {
            if i < bytes.len() - 1 {
                assert(is_digit(before[i]));
            }
        }
        assert(decimal(bytes.drop_last()) == number / 10);
    } else {
        assert(bytes.drop_last() =~= Seq::empty());
        assert(decimal(bytes.drop_last()) == 0);
    }
    assert(decimal(bytes) == 10 * decimal(bytes.drop_last()) + number % 10);
}

/// Every rowid is read as it is typed.
pub proof fn rowids_are_read_as_typed(rowid: i64, value: &str, result: Result<i64>)
    requires
        value@ == typed(rowid as int),
        call_ensures(parse_rowid, (value,), result),
    ensures
        result matches Ok(read) && read == rowid,
{
    let size: nat = if rowid < 0 {
        (-rowid) as nat
    } else {
        rowid as nat
    };
    lemma_digits(size);
    let bytes = encode_utf8(value@);
    let plain = encode_utf8(digits(size));
    vstd::utf8::is_ascii_chars_encode_utf8(digits(size));
    if rowid < 0 {
        vstd::utf8::is_ascii_chars_concat(value@, seq!['-'], digits(size));
        vstd::utf8::is_ascii_chars_encode_utf8(value@);
        assert(bytes.skip(1) =~= plain) by {
            assert forall|i: int| 0 <= i < plain.len() implies bytes.skip(1)[i]
                == #[trigger] plain[i] by {
                assert(value@[i + 1] == digits(size)[i]);
            }
        }
        assert(bytes[0] == 0x2d);
    } else {
        assert(is_digit(bytes[0]));
    }
    assert(signed(bytes) == Some(rowid as int));
}

/// Every limit is read as it is typed.
pub proof fn limits_are_read_as_typed(limit: usize, value: &str, result: Result<usize>)
    requires
        value@ == typed(limit as int),
        call_ensures(parse_limit, (value,), result),
    ensures
        result matches Ok(read) && read == limit,
{
    lemma_digits(limit as nat);
    let bytes = encode_utf8(value@);
    assert(is_digit(bytes[0]));
    assert(unsigned(bytes) == Some(limit as nat));
}

proof fn lemma_zero_in_front(bytes: Seq<u8>)
    ensures
        decimal(seq![0x30u8] + bytes) == decimal(bytes),
    decreases bytes.len(),
{
    let longer = seq![0x30u8] + bytes;
    if bytes.len() == 0 {
        assert(longer.drop_last() =~= Seq::empty());
        assert(decimal(longer.drop_last()) == 0);
        assert(longer.last() == 0x30);
    } else {
        assert(longer.drop_last() =~= seq![0x30u8] + bytes.drop_last());
        assert(longer.last() == bytes.last());
        lemma_zero_in_front(bytes.drop_last());
    }
}

/// A plus or a zero in front changes no number.
pub proof fn a_plus_or_a_zero_changes_nothing(
    number: nat,
    mark: char,
    value: &str,
    rowid: Result<i64>,
    limit: Result<usize>,
)
    requires
        mark == '+' || mark == '0',
        value@ == seq![mark] + typed(number as int),
        call_ensures(parse_rowid, (value,), rowid),
        call_ensures(parse_limit, (value,), limit),
    ensures
        number <= i64::MAX ==> (rowid matches Ok(read) && read == number),
        number <= usize::MAX ==> (limit matches Ok(read) && read == number),
{
    lemma_digits(number);
    let bytes = encode_utf8(value@);
    let plain = encode_utf8(digits(number));
    vstd::utf8::is_ascii_chars_encode_utf8(digits(number));
    assert(vstd::utf8::is_ascii_chars(seq![mark]));
    vstd::utf8::is_ascii_chars_concat(value@, seq![mark], digits(number));
    vstd::utf8::is_ascii_chars_encode_utf8(value@);
    assert(bytes.skip(1) =~= plain) by {
        assert forall|i: int| 0 <= i < plain.len() implies bytes.skip(1)[i]
            == #[trigger] plain[i] by {
            assert(value@[i + 1] == digits(number)[i]);
        }
    }
    assert(bytes[0] == mark as u8);
    if mark == '0' {
        lemma_zero_in_front(plain);
        assert(bytes =~= seq![0x30u8] + plain);
        assert forall|i: int| 0 <= i < bytes.len() implies is_digit(#[trigger] bytes[i]) by {
            if i > 0 {
                assert(bytes[i] == plain[i - 1]);
            }
        }
    }
    assert(unsigned(bytes) == Some(number));
    assert(signed(bytes) == Some(number as int));
}

/// A number too large for a rowid or a limit is refused, and so is an empty text.
pub proof fn numbers_out_of_range_are_refused(
    number: int,
    value: &str,
    rowid: Result<i64>,
    limit: Result<usize>,
)
    requires
        value@ == typed(number) || value@.len() == 0,
        call_ensures(parse_rowid, (value,), rowid),
        call_ensures(parse_limit, (value,), limit),
    ensures
        value@.len() == 0 || !(i64::MIN <= number <= i64::MAX) ==> rowid is Err,
        value@.len() == 0 || !(0 <= number <= usize::MAX) ==> limit is Err,
{
    let bytes = encode_utf8(value@);
    if value@.len() == 0 {
        vstd::utf8::is_ascii_chars_encode_utf8(value@);
        assert(bytes.len() == 0);
    } else {
        let size: nat = if number < 0 {
            (-number) as nat
        } else {
            number as nat
        };
        lemma_digits(size);
        let plain = encode_utf8(digits(size));
        vstd::utf8::is_ascii_chars_encode_utf8(digits(size));
        if number < 0 {
            vstd::utf8::is_ascii_chars_concat(value@, seq!['-'], digits(size));
            vstd::utf8::is_ascii_chars_encode_utf8(value@);
            assert(bytes.skip(1) =~= plain) by {
                assert forall|i: int| 0 <= i < plain.len() implies bytes.skip(1)[i]
                    == #[trigger] plain[i] by {
                    assert(value@[i + 1] == digits(size)[i]);
                }
            }
            assert(bytes[0] == 0x2d);
            assert(!is_digit(bytes[0]));
            assert(unsigned(bytes) is None);
        } else {
            assert(is_digit(bytes[0]));
        }
        assert(signed(bytes) == Some(number));
    }
}

/// Only digits, behind a sign or not, are read as numbers; a limit has no minus.
pub proof fn only_digits_are_numbers(
    value: &str,
    rowid: Result<i64>,
    limit: Result<usize>,
    index: int,
)
    requires
        call_ensures(parse_rowid, (value,), rowid),
        call_ensures(parse_limit, (value,), limit),
        0 <= index < encode_utf8(value@).len(),
    ensures
        rowid is Ok ==> 0x30 <= encode_utf8(value@)[index] <= 0x39 || index == 0 && (
        encode_utf8(value@)[0] == 0x2b || encode_utf8(value@)[0] == 0x2d),
        limit is Ok ==> 0x30 <= encode_utf8(value@)[index] <= 0x39 || index == 0 && encode_utf8(
            value@,
        )[0] == 0x2b,
{
    let bytes = encode_utf8(value@);
    if index > 0 {
        assert(bytes.skip(1)[index - 1] == bytes[index]);
        if is_number(bytes.skip(1)) {
            assert(is_digit(bytes.skip(1)[index - 1]));
        }
    }
    if is_number(bytes) {
        assert(is_digit(bytes[index]));
    }
}

/// Texts with spaces between them: one is itself, and two rows of texts stand one
/// behind the other with a space between them.
pub proof fn spaces_stand_between_texts(left: Seq<Seq<char>>, right: Seq<Seq<char>>)
    ensures
        left.len() == 1 ==> spaced(left) == left[0],
        left.len() > 0 && right.len() > 0 ==> spaced(left + right) == spaced(left) + seq![' ']
            + spaced(right),
    decreases right.len(),
{
    reveal_strlit(" ");
    assert(" "@ =~= seq![' ']);
    if left.len() > 0 && right.len() > 0 {
        let both = left + right;
        assert(both.drop_last() =~= left + right.drop_last());
        assert(both.last() == right.last());
        if right.len() == 1 {
            assert(right.drop_last() =~= Seq::empty());
            assert(left + Seq::<Seq<char>>::empty() =~= left);
            assert(spaced(both) =~= spaced(left) + seq![' '] + spaced(right));
        } else {
            spaces_stand_between_texts(left, right.drop_last());
            assert(spaced(both) =~= spaced(left) + seq![' '] + spaced(right));
        }
    }
}

/// A command is read from its verb, and what it speaks of stands as it was typed.
pub proof fn commands_are_read_as_typed(
    args: &Vec<String>,
    result: Result<Command>,
    program: Seq<char>,
    path: Seq<char>,
    rest: Seq<Seq<char>>,
)
    requires
        call_ensures(parse_command, (args,), result),
    ensures
        text::texts(args@) == seq![program, "put"@, path] + rest && rest.len() >= 2 ==> (
        result matches Ok(Command::Put { path: p, rowid, text }) && p@ == path && rowid@ == rest[0]
            && text@ == spaced(rest.skip(1))),
        text::texts(args@) == seq![program, "get"@, path] + rest && rest.len() == 1 ==> (
        result matches Ok(Command::Get { path: p, rowid }) && p@ == path && rowid@ == rest[0]),
        text::texts(args@) == seq![program, "search"@, path] + rest && rest.len() == 1 ==> (
        result matches Ok(Command::Search { path: p, term, limit: None }) && p@ == path && term@
            == rest[0]),
        text::texts(args@) == seq![program, "search"@, path] + rest && rest.len() >= 2 ==> (
        result matches Ok(Command::Search { path: p, term, limit: Some(limit) }) && p@ == path
            && term@ == rest[0] && limit@ == rest[1]),
        text::texts(args@) == seq![program, "optimize"@, path] ==> (result matches Ok(
            Command::Optimize { path: p },
        ) && p@ == path),
        args@.len() < 3 ==> (result matches Ok(Command::Usage)),
        args@.len() >= 3 ==> !(result matches Ok(Command::Usage)),
{
    reveal_strlit("put");
    reveal_strlit("get");
    reveal_strlit("search");
    reveal_strlit("optimize");
    let typed = text::texts(args@);
    assert("put"@.len() == 3 && "put"@[0] == 'p');
    assert("get"@.len() == 3 && "get"@[0] == 'g');
    assert("search"@.len() == 6);
    assert("optimize"@.len() == 8);
    if typed == seq![program, "put"@, path] + rest && rest.len() >= 2 {
        assert(typed.skip(4) =~= rest.skip(1));
        assert(typed[1] == "put"@ && typed[3] == rest[0]);
    }
    if typed == seq![program, "get"@, path] + rest && rest.len() == 1 {
        assert(typed[1] == "get"@ && typed[3] == rest[0]);
    }
    if typed == seq![program, "search"@, path] + rest && rest.len() >= 1 {
        assert(typed[1] == "search"@ && typed[3] == rest[0]);
        if rest.len() >= 2 {
            assert(typed[4] == rest[1]);
        }
    }
    if typed == seq![program, "optimize"@, path] {
        assert(typed[1] == "optimize"@ && typed[2] == path);
    }
}

/// An error is shown with what it says of the cause, and a damaged file is told from a
/// request that cannot be met.
pub proof fn errors_say_what_is_wrong(error: &Error, shown: String, other: &Error, text: String)
    requires
        call_ensures(Error::message, (error,), shown),
        call_ensures(Error::message, (other,), text),
    ensures
        error matches Error::Corrupt(message) ==> message@.is_suffix_of(shown@),
        error matches Error::InvalidInput(message) ==> message@.is_suffix_of(shown@),
        error is Corrupt && other is InvalidInput ==> shown@ != text@,
        error is TransactionClosed && !(other is TransactionClosed) ==> shown@ != text@,
{
    reveal_strlit("corrupt Kestrel database: ");
    reveal_strlit("invalid input: ");
    reveal_strlit("transaction is already closed");
    assert("corrupt Kestrel database: "@[0] == 'c');
    assert("invalid input: "@[0] == 'i');
    assert("transaction is already closed"@[0] == 't');
    match error {
        Error::Corrupt(message) => {
            assert(shown@[0] == 'c');
            assert(shown@.subrange(26, shown@.len() as int) =~= message@);
        },
        Error::InvalidInput(message) => {
            assert(shown@[0] == 'i');
            assert(shown@.subrange(15, shown@.len() as int) =~= message@);
        },
        Error::TransactionClosed => {
            assert(shown@[0] == 't');
        },
    }
    match other {
        Error::Corrupt(_) => {
            assert(text@[0] == 'c');
        },
        Error::InvalidInput(_) => {
            assert(text@[0] == 'i');
        },
        Error::TransactionClosed => {},
    }
}

} // verus!
