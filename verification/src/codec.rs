//! Byte-level encoding of integers and byte strings, and the record checksum.
//!
//! Every `parse_*` function gives, for the bytes at hand, what a read returns
//! together with the bytes left unread.
use crate::error::{invalid_input, Error, Result};
use vstd::arithmetic::power2::pow2;
use vstd::prelude::*;

verus! {

/// The `width` low base-256 digits of `value`, least significant first.
pub open spec fn le_bytes(value: nat, width: nat) -> Seq<u8>
    decreases width,
{
    if width == 0 {
        Seq::empty()
    } else {
        seq![(value % 256) as u8] + le_bytes(value / 256, (width - 1) as nat)
    }
}

/// The number whose base-256 digits are `bytes`, least significant first.
pub open spec fn le_value(bytes: Seq<u8>) -> nat
    decreases bytes.len(),
{
    if bytes.len() == 0 {
        0
    } else {
        bytes[0] as nat + 256 * le_value(bytes.skip(1))
    }
}

/// The two's complement bit pattern of `value`, as a number below 2^64.
pub open spec fn i64_bits(value: i64) -> nat {
    if value >= 0 {
        value as nat
    } else {
        (value + 0x1_0000_0000_0000_0000) as nat
    }
}

/// The signed number with the two's complement bit pattern `bits`.
pub open spec fn i64_of_bits(bits: nat) -> i64 {
    if bits < 0x8000_0000_0000_0000 {
        bits as i64
    } else {
        (bits - 0x1_0000_0000_0000_0000) as i64
    }
}

pub open spec fn u32_bytes(value: u32) -> Seq<u8> {
    le_bytes(value as nat, 4)
}

pub open spec fn u64_bytes(value: u64) -> Seq<u8> {
    le_bytes(value as nat, 8)
}

pub open spec fn i64_bytes(value: i64) -> Seq<u8> {
    le_bytes(i64_bits(value), 8)
}

/// A byte string behind its length.
pub open spec fn framed_bytes(value: Seq<u8>) -> Seq<u8> {
    u32_bytes(value.len() as u32) + value
}

pub open spec fn parse_take(input: Seq<u8>, len: nat) -> (Result<Seq<u8>>, Seq<u8>) {
    if input.len() < len {
        (Err(Error::Corrupt("truncated record")), input)
    } else {
        (Ok(input.take(len as int)), input.skip(len as int))
    }
}

pub open spec fn parse_u32(input: Seq<u8>) -> (Result<u32>, Seq<u8>) {
    if input.len() < 4 {
        (Err(Error::Corrupt("truncated record")), input)
    } else {
        (Ok(le_value(input.take(4)) as u32), input.skip(4))
    }
}

pub open spec fn parse_u64(input: Seq<u8>) -> (Result<u64>, Seq<u8>) {
    if input.len() < 8 {
        (Err(Error::Corrupt("truncated record")), input)
    } else {
        (Ok(le_value(input.take(8)) as u64), input.skip(8))
    }
}

pub open spec fn parse_i64(input: Seq<u8>) -> (Result<i64>, Seq<u8>) {
    if input.len() < 8 {
        (Err(Error::Corrupt("truncated record")), input)
    } else {
        (Ok(i64_of_bits(le_value(input.take(8)))), input.skip(8))
    }
}

pub open spec fn parse_bytes(input: Seq<u8>) -> (Result<Seq<u8>>, Seq<u8>) {
    match parse_u32(input) {
        (Ok(len), rest) => parse_take(rest, len as nat),
        (Err(error), rest) => (Err(error), rest),
    }
}

/// The base-128 digits of `value`, least significant first, each but the last
/// with its high bit set.
pub open spec fn var_bytes(value: nat) -> Seq<u8>
    decreases value,
{
    if value < 128 {
        seq![value as u8]
    } else {
        seq![(value % 128 + 128) as u8] + var_bytes(value / 128)
    }
}

/// Reads base-128 digits when `digit` of the five possible ones are behind.
/// The value counts in units of that digit.
pub open spec fn parse_var_digits(input: Seq<u8>, digit: nat) -> (Result<nat>, Seq<u8>)
    decreases input.len(),
{
    if digit >= 5 {
        (Err(Error::Corrupt("variable integer overflow")), input)
    } else if input.len() == 0 {
        (Err(Error::Corrupt("truncated variable integer")), input)
    } else {
        let byte = input[0];
        let rest = input.skip(1);
        if digit == 4 && byte > 0x0f {
            (Err(Error::Corrupt("variable integer overflow")), rest)
        } else if byte < 0x80 {
            (Ok(byte as nat), rest)
        } else {
            match parse_var_digits(rest, digit + 1) {
                (Ok(high), rest) => (Ok((byte - 128 + 128 * high) as nat), rest),
                failed => failed,
            }
        }
    }
}

pub open spec fn parse_var_u32(input: Seq<u8>) -> (Result<u32>, Seq<u8>) {
    match parse_var_digits(input, 0) {
        (Ok(value), rest) => (Ok(value as u32), rest),
        (Err(error), rest) => (Err(error), rest),
    }
}

/// One step of the Castagnoli polynomial division, low bit first.
pub open spec fn crc_bit(value: u32) -> u32 {
    if value & 1 == 1 {
        0x82f63b78u32 ^ (value >> 1)
    } else {
        value >> 1
    }
}

pub open spec fn crc_bits(value: u32, count: nat) -> u32
    decreases count,
{
    if count == 0 {
        value
    } else {
        crc_bit(crc_bits(value, (count - 1) as nat))
    }
}

/// The remainder after all of `bytes`, started from all ones.
pub open spec fn crc_remainder(bytes: Seq<u8>) -> u32
    decreases bytes.len(),
{
    if bytes.len() == 0 {
        0xffff_ffff
    } else {
        crc_bits(crc_remainder(bytes.drop_last()) ^ (bytes.last() as u32), 8)
    }
}

/// CRC-32C of `bytes`.
pub open spec fn crc32c(bytes: Seq<u8>) -> u32 {
    !crc_remainder(bytes)
}

/// `le_bytes` yields as many bytes as asked for.
pub broadcast proof fn le_bytes_len(value: nat, width: nat)
    ensures
        #[trigger] le_bytes(value, width).len() == width,
    decreases width,
{
    if width > 0 {
        le_bytes_len(value / 256, (width - 1) as nat);
    }
}

proof fn lemma_pow2_byte(n: nat)
    ensures
        pow2(8 * (n + 1)) == 256 * pow2(8 * n),
        pow2(8 * n) > 0,
{
    vstd::arithmetic::power2::lemma_pow2_adds(8, 8 * n);
    vstd::arithmetic::power2::lemma2_to64();
    vstd::arithmetic::power2::lemma_pow2_pos(8 * n);
}

/// Reading back the little-endian digits of a value that fits gives the value.
pub proof fn le_round_trip(value: nat, width: nat)
    requires
        value < pow2(8 * width),
    ensures
        le_value(le_bytes(value, width)) == value,
    decreases width,
{
    vstd::arithmetic::power2::lemma2_to64();
    if width > 0 {
        lemma_pow2_byte((width - 1) as nat);
        le_round_trip(value / 256, (width - 1) as nat);
        assert(le_bytes(value, width).skip(1) =~= le_bytes(value / 256, (width - 1) as nat));
    }
}

/// Any byte string is the little-endian form of its value.
pub proof fn le_bytes_of_value(bytes: Seq<u8>)
    ensures
        le_bytes(le_value(bytes), bytes.len()) == bytes,
        le_value(bytes) < pow2(8 * bytes.len()),
    decreases bytes.len(),
{
    vstd::arithmetic::power2::lemma2_to64();
    if bytes.len() > 0 {
        let rest = bytes.skip(1);
        le_bytes_of_value(rest);
        lemma_pow2_byte(rest.len());
        assert(le_value(bytes) / 256 == le_value(rest));
        assert(le_value(bytes) % 256 == bytes[0] as nat);
        assert(le_bytes(le_value(bytes), bytes.len()) =~= bytes);
    } else {
        assert(le_bytes(le_value(bytes), bytes.len()) =~= bytes);
    }
}

/// A 32-bit value survives being written and read, whatever follows it.
pub proof fn u32_round_trip(value: u32, rest: Seq<u8>)
    ensures
        parse_u32(u32_bytes(value) + rest) == (Ok::<u32, Error>(value), rest),
{
    broadcast use le_bytes_len;

    vstd::arithmetic::power2::lemma2_to64();
    le_round_trip(value as nat, 4);
    let all = u32_bytes(value) + rest;
    assert(all.take(4) =~= u32_bytes(value));
    assert(all.skip(4) =~= rest);
}

/// A 64-bit value survives being written and read, whatever follows it.
pub proof fn u64_round_trip(value: u64, rest: Seq<u8>)
    ensures
        parse_u64(u64_bytes(value) + rest) == (Ok::<u64, Error>(value), rest),
{
    broadcast use le_bytes_len;

    vstd::arithmetic::power2::lemma2_to64();
    le_round_trip(value as nat, 8);
    let all = u64_bytes(value) + rest;
    assert(all.take(8) =~= u64_bytes(value));
    assert(all.skip(8) =~= rest);
}

/// A signed 64-bit value survives being written and read, whatever follows it.
pub proof fn i64_round_trip(value: i64, rest: Seq<u8>)
    ensures
        parse_i64(i64_bytes(value) + rest) == (Ok::<i64, Error>(value), rest),
{
    broadcast use le_bytes_len;

    vstd::arithmetic::power2::lemma2_to64();
    le_round_trip(i64_bits(value), 8);
    let all = i64_bytes(value) + rest;
    assert(all.take(8) =~= i64_bytes(value));
    assert(all.skip(8) =~= rest);
}

/// A byte string short enough for its length field survives being written and
/// read, whatever follows it.
pub proof fn bytes_round_trip(value: Seq<u8>, rest: Seq<u8>)
    requires
        value.len() <= u32::MAX,
    ensures
        parse_bytes(framed_bytes(value) + rest) == (Ok::<Seq<u8>, Error>(value), rest),
{
    assert(framed_bytes(value) + rest =~= u32_bytes(value.len() as u32) + (value + rest));
    u32_round_trip(value.len() as u32, value + rest);
    assert((value + rest).take(value.len() as int) =~= value);
    assert((value + rest).skip(value.len() as int) =~= rest);
}

proof fn lemma_var_digits_round_trip(value: nat, digit: nat, rest: Seq<u8>)
    requires
        digit <= 4,
        digit == 0 ==> value <= 0xffff_ffff,
        digit == 1 ==> value <= 0x1ff_ffff,
        digit == 2 ==> value <= 0x3_ffff,
        digit == 3 ==> value <= 0x7ff,
        digit == 4 ==> value <= 0xf,
    ensures
        parse_var_digits(var_bytes(value) + rest, digit) == (Ok::<nat, Error>(value), rest),
    decreases value,
{
    let all = var_bytes(value) + rest;
    if value < 128 {
        assert(all.skip(1) =~= rest);
    } else {
        lemma_var_digits_round_trip(value / 128, digit + 1, rest);
        assert(all.skip(1) =~= var_bytes(value / 128) + rest);
    }
}

/// A variable-length integer survives being written and read, over the whole
/// range of 32-bit values and whatever follows it.
pub proof fn var_u32_round_trip(value: u32, rest: Seq<u8>)
    ensures
        parse_var_u32(var_bytes(value as nat) + rest) == (Ok::<u32, Error>(value), rest),
{
    lemma_var_digits_round_trip(value as nat, 0, rest);
}

fn put_le(out: &mut Vec<u8>, value: u64, width: usize)
    ensures
        final(out)@ == old(out)@ + le_bytes(value as nat, width as nat),
{
    let mut left: u64 = value;
    let mut written: usize = 0;
    while written < width
        invariant
            written <= width,
            out@ + le_bytes(left as nat, (width - written) as nat) == old(out)@ + le_bytes(
                value as nat,
                width as nat,
            ),
        decreases width - written,
    {
        let ghost before = out@;
        out.push((left % 256) as u8);
        assert(out@ + le_bytes((left / 256) as nat, (width - written - 1) as nat) =~= before
            + le_bytes(left as nat, (width - written) as nat));
        left = left / 256;
        written = written + 1;
    }
    assert(out@ + le_bytes(left as nat, 0) =~= out@);
}

fn read_le(bytes: &[u8]) -> (value: u64)
    requires
        bytes@.len() <= 8,
    ensures
        value == le_value(bytes@),
{
    proof {
        vstd::arithmetic::power2::lemma2_to64();
        vstd::arithmetic::power2::lemma2_to64_rest();
    }
    let mut value: u64 = 0;
    let mut index: usize = bytes.len();
    assert(bytes@.skip(bytes@.len() as int).len() == 0);
    while index > 0
        invariant
            index <= bytes@.len() <= 8,
            value == le_value(bytes@.skip(index as int)),
        decreases index,
    {
        index = index - 1;
        proof {
            let tail = bytes@.skip(index as int);
            assert(tail.skip(1) =~= bytes@.skip(index + 1));
            le_bytes_of_value(tail);
            vstd::arithmetic::power2::lemma2_to64();
            vstd::arithmetic::power2::lemma2_to64_rest();
            if tail.len() < 8 {
                vstd::arithmetic::power2::lemma_pow2_strictly_increases(8 * tail.len(), 64);
            }
        }
        value = bytes[index] as u64 + 256 * value;
    }
    assert(bytes@.skip(0) =~= bytes@);
    value
}

pub fn put_u32(out: &mut Vec<u8>, value: u32)
    ensures
        final(out)@ == old(out)@ + u32_bytes(value),
{
    put_le(out, value as u64, 4);
}

pub fn put_u64(out: &mut Vec<u8>, value: u64)
    ensures
        final(out)@ == old(out)@ + u64_bytes(value),
{
    put_le(out, value, 8);
}

pub fn put_i64(out: &mut Vec<u8>, value: i64)
    ensures
        final(out)@ == old(out)@ + i64_bytes(value),
{
    let bits: u64 = value as u64;
    assert(value < 0 ==> bits == value + 0x1_0000_0000_0000_0000) by (bit_vector)
        requires
            bits == value as u64,
    ;
    put_le(out, bits, 8);
}

/// Appends `value` to `out`.
pub fn append_bytes(out: &mut Vec<u8>, value: &[u8])
    ensures
        final(out)@ == old(out)@ + value@,
{
    out.extend_from_slice(value);
    assert(out@ =~= old(out)@ + value@);
}

/// Writes a byte string behind its length. Fails, with nothing written, where
/// the length does not fit in 32 bits.
pub fn put_bytes(out: &mut Vec<u8>, value: &[u8]) -> (result: Result<()>)
    ensures
        value@.len() <= u32::MAX ==> result is Ok && final(out)@ == old(out)@ + framed_bytes(
            value@,
        ),
        value@.len() > u32::MAX ==> final(out)@ == old(out)@ && (result matches Err(error)
            && error.is_invalid_input("value exceeds 4 GiB storage limit"@)),
{
    if value.len() > u32::MAX as usize {
        return Err(invalid_input("value exceeds 4 GiB storage limit"));
    }
    put_u32(out, value.len() as u32);
    append_bytes(out, value);
    assert(out@ =~= old(out)@ + framed_bytes(value@));
    Ok(())
}

/// Splits `len` bytes off the front of `input`.
pub fn take<'a>(input: &mut &'a [u8], len: usize) -> (result: Result<&'a [u8]>)
    ensures
        final(input)@ == parse_take(old(input)@, len as nat).1,
        match parse_take(old(input)@, len as nat).0 {
            Ok(head) => result matches Ok(bytes) && bytes@ == head,
            Err(error) => result == Err::<&'a [u8], Error>(error),
        },
{
    if input.len() < len {
        return Err(Error::Corrupt("truncated record"));
    }
    let (head, tail) = input.split_at(len);
    *input = tail;
    Ok(head)
}

pub fn read_u32(input: &mut &[u8]) -> (result: Result<u32>)
    ensures
        (result, final(input)@) == parse_u32(old(input)@),
{
    let bytes: &[u8] = match take(input, 4) {
        Ok(bytes) => bytes,
        Err(error) => return Err(error),
    };
    proof {
        le_bytes_of_value(bytes@);
        vstd::arithmetic::power2::lemma2_to64();
    }
    Ok(read_le(bytes) as u32)
}

pub fn read_u64(input: &mut &[u8]) -> (result: Result<u64>)
    ensures
        (result, final(input)@) == parse_u64(old(input)@),
{
    let bytes: &[u8] = match take(input, 8) {
        Ok(bytes) => bytes,
        Err(error) => return Err(error),
    };
    Ok(read_le(bytes))
}

pub fn read_i64(input: &mut &[u8]) -> (result: Result<i64>)
    ensures
        (result, final(input)@) == parse_i64(old(input)@),
{
    let bytes: &[u8] = match take(input, 8) {
        Ok(bytes) => bytes,
        Err(error) => return Err(error),
    };
    let bits: u64 = read_le(bytes);
    let value: i64 = bits as i64;
    assert(value == if bits < 0x8000_0000_0000_0000u64 {
        bits as int
    } else {
        bits - 0x1_0000_0000_0000_0000
    }) by (bit_vector)
        requires
            value == bits as i64,
    ;
    Ok(value)
}

pub fn read_bytes<'a>(input: &mut &'a [u8]) -> (result: Result<&'a [u8]>)
    ensures
        final(input)@ == parse_bytes(old(input)@).1,
        match parse_bytes(old(input)@).0 {
            Ok(value) => result matches Ok(bytes) && bytes@ == value,
            Err(error) => result == Err::<&'a [u8], Error>(error),
        },
{
    let len: u32 = match read_u32(input) {
        Ok(len) => len,
        Err(error) => return Err(error),
    };
    take(input, len as usize)
}

pub fn put_var_u32(out: &mut Vec<u8>, value: u32)
    ensures
        final(out)@ == old(out)@ + var_bytes(value as nat),
{
    let mut left: u32 = value;
    while left >= 0x80
        invariant
            out@ + var_bytes(left as nat) == old(out)@ + var_bytes(value as nat),
        decreases left,
    {
        let ghost before = out@;
        out.push((left % 128 + 128) as u8);
        assert(out@ + var_bytes((left / 128) as nat) =~= before + var_bytes(left as nat));
        left = left / 128;
    }
    let ghost before = out@;
    out.push(left as u8);
    assert(out@ =~= before + var_bytes(left as nat));
}

pub fn read_var_u32(input: &mut &[u8]) -> (result: Result<u32>)
    ensures
        (result, final(input)@) == parse_var_u32(old(input)@),
{
    let mut value: u32 = 0;
    let mut unit: u32 = 1;
    let mut digit: u32 = 0;
    while digit < 5
        invariant
            digit <= 5,
            digit == 0 ==> unit == 1,
            digit == 1 ==> unit == 0x80,
            digit == 2 ==> unit == 0x4000,
            digit == 3 ==> unit == 0x20_0000,
            digit == 4 ==> unit == 0x1000_0000,
            digit < 5 ==> value < unit,
            match parse_var_digits(input@, digit as nat) {
                (Ok(high), rest) => parse_var_digits(old(input)@, 0) == (
                    Ok::<nat, Error>((value + unit * high) as nat),
                    rest,
                ),
                (Err(error), rest) => parse_var_digits(old(input)@, 0) == (
                    Err::<nat, Error>(error),
                    rest,
                ),
            },
        decreases 5 - digit,
    {
        if input.len() == 0 {
            return Err(Error::Corrupt("truncated variable integer"));
        }
        let byte: u8 = input[0];
        let (_, rest) = input.split_at(1);
        *input = rest;
        if digit == 4 && byte > 0x0f {
            return Err(Error::Corrupt("variable integer overflow"));
        }
        if byte < 0x80 {
            assert(unit * byte <= unit * 127) by (nonlinear_arith)
                requires
                    byte < 128,
            ;
            return Ok(value + unit * byte as u32);
        }
        assert(digit < 4);
        proof {
            if let (Ok(high), _) = parse_var_digits(input@, (digit + 1) as nat) {
                assert(value + unit * (byte - 128 + 128 * high) == (value + unit * (byte - 128))
                    + (unit * 128) * high) by (nonlinear_arith);
            }
        }
        assert(unit * (byte - 128) <= unit * 127) by (nonlinear_arith)
            requires
                128 <= byte < 256,
        ;
        value = value + unit * (byte as u32 - 128);
        if digit < 4 {
            unit = unit * 128;
        }
        digit = digit + 1;
    }
    Err(Error::Corrupt("variable integer overflow"))
}

/// What is read as a 32-bit number are the bytes of the number.
pub proof fn read_u32_is_written(input: Seq<u8>)
    ensures
        parse_u32(input) matches (Ok(value), rest) ==> input == u32_bytes(value) + rest,
{
    if input.len() >= 4 {
        vstd::arithmetic::power2::lemma2_to64();
        le_bytes_of_value(input.take(4));
        assert(input =~= input.take(4) + input.skip(4));
    }
}

/// What is read as a 64-bit number are the bytes of the number.
pub proof fn read_u64_is_written(input: Seq<u8>)
    ensures
        parse_u64(input) matches (Ok(value), rest) ==> input == u64_bytes(value) + rest,
{
    if input.len() >= 8 {
        vstd::arithmetic::power2::lemma2_to64();
        le_bytes_of_value(input.take(8));
        assert(input =~= input.take(8) + input.skip(8));
    }
}

/// What is read as a signed number are the bytes of the number.
pub proof fn read_i64_is_written(input: Seq<u8>)
    ensures
        parse_i64(input) matches (Ok(value), rest) ==> input == i64_bytes(value) + rest,
{
    if input.len() >= 8 {
        vstd::arithmetic::power2::lemma2_to64();
        le_bytes_of_value(input.take(8));
        assert(i64_bits(i64_of_bits(le_value(input.take(8)))) == le_value(input.take(8)));
        assert(input =~= input.take(8) + input.skip(8));
    }
}

/// What is read as a byte string are its bytes behind their number.
pub proof fn read_bytes_are_written(input: Seq<u8>)
    ensures
        parse_bytes(input) matches (Ok(value), rest) ==> input == framed_bytes(value) + rest
            && value.len() <= u32::MAX,
{
    read_u32_is_written(input);
    match parse_u32(input) {
        (Ok(len), rest) => {
            if rest.len() >= len {
                assert(rest =~= rest.take(len as int) + rest.skip(len as int));
                assert(input =~= framed_bytes(rest.take(len as int)) + rest.skip(len as int));
            }
        },
        (Err(error), rest) => {},
    }
}

proof fn lemma_crc_bit_injective(a: u32, b: u32)
    ensures
        crc_bit(a) == crc_bit(b) ==> a == b,
{
    assert(crc_bit(a) == crc_bit(b) ==> a == b) by (bit_vector);
}

proof fn lemma_crc_bits_injective(a: u32, b: u32, count: nat)
    ensures
        crc_bits(a, count) == crc_bits(b, count) ==> a == b,
    decreases count,
{
    if count > 0 {
        let fewer = (count - 1) as nat;
        lemma_crc_bits_injective(a, b, fewer);
        lemma_crc_bit_injective(crc_bits(a, fewer), crc_bits(b, fewer));
    }
}

proof fn lemma_remainder_differs(a: Seq<u8>, b: Seq<u8>, index: int)
    requires
        a.len() == b.len(),
        0 <= index < a.len(),
        a[index] != b[index],
        forall|i: int| 0 <= i < a.len() && i != index ==> #[trigger] a[i] == b[i],
    ensures
        crc_remainder(a) != crc_remainder(b),
    decreases a.len(),
{
    let (front, other) = (a.drop_last(), b.drop_last());
    let (x, y) = (a.last(), b.last());
    assert(x == a[a.len() - 1] && y == b[b.len() - 1]);
    let (r, s) = (crc_remainder(front), crc_remainder(other));
    if index == a.len() - 1 {
        assert(front =~= other);
        assert(r ^ (x as u32) != r ^ (y as u32)) by (bit_vector)
            requires
                x != y,
        ;
    } else {
        assert(x == y);
        assert forall|i: int| 0 <= i < front.len() && i != index implies #[trigger] front[i]
            == other[i] by {
            assert(a[i] == b[i]);
        }
        lemma_remainder_differs(front, other, index);
        assert(r ^ (x as u32) != s ^ (x as u32)) by (bit_vector)
            requires
                r != s,
        ;
    }
    lemma_crc_bits_injective(r ^ (x as u32), s ^ (y as u32), 8);
}

/// Byte strings that differ in one byte have different checksums.
pub proof fn one_byte_changes_checksum(a: Seq<u8>, b: Seq<u8>, index: int)
    requires
        a.len() == b.len(),
        0 <= index < a.len(),
        a[index] != b[index],
        forall|i: int| 0 <= i < a.len() && i != index ==> #[trigger] a[i] == b[i],
    ensures
        crc32c(a) != crc32c(b),
{
    lemma_remainder_differs(a, b, index);
    let (r, s) = (crc_remainder(a), crc_remainder(b));
    assert(!r != !s) by (bit_vector)
        requires
            r != s,
    ;
}

/// The division steps for each value of one byte.
pub fn crc32c_table() -> (table: Vec<u32>)
    ensures
        table@.len() == 256,
        forall|index: int| 0 <= index < 256 ==> #[trigger] table@[index] == crc_bits(index as u32, 8),
{
    let mut table: Vec<u32> = Vec::with_capacity(256);
    let mut index: u32 = 0;
    while index < 256
        invariant
            index <= 256,
            table@.len() == index,
            forall|done: int| 0 <= done < index ==> #[trigger] table@[done] == crc_bits(done as u32, 8),
        decreases 256 - index,
    {
        let mut value: u32 = index;
        let mut bit: u32 = 0;
        while bit < 8
            invariant
                bit <= 8,
                value == crc_bits(index, bit as nat),
            decreases 8 - bit,
        {
            value = if value & 1 == 1 {
                0x82f63b78u32 ^ (value >> 1)
            } else {
                value >> 1
            };
            bit = bit + 1;
        }
        table.push(value);
        index = index + 1;
    }
    table
}

proof fn lemma_crc_table_step(crc: u32, byte: u8)
    ensures
        crc_bits(((crc as u8) ^ byte) as u32, 8) ^ (crc >> 8) == crc_bits(crc ^ (byte as u32), 8),
{
    reveal_with_fuel(crc_bits, 9);
    assert({
        let x = ((crc as u8) ^ byte) as u32;
        let y = crc ^ (byte as u32);
        crc_bit(crc_bit(crc_bit(crc_bit(crc_bit(crc_bit(crc_bit(crc_bit(x)))))))) ^ (crc >> 8)
            == crc_bit(crc_bit(crc_bit(crc_bit(crc_bit(crc_bit(crc_bit(crc_bit(y))))))))
    }) by (bit_vector);
}

/// CRC-32C of `bytes`, one table lookup per byte.
pub fn checksum(bytes: &[u8]) -> (crc: u32)
    ensures
        crc == crc32c(bytes@),
{
    let table: Vec<u32> = crc32c_table();
    let mut crc: u32 = 0xffff_ffff;
    let mut done: usize = 0;
    while done < bytes.len()
        invariant
            done <= bytes@.len(),
            crc == crc_remainder(bytes@.take(done as int)),
            table@.len() == 256,
            forall|index: int| 0 <= index < 256 ==> #[trigger] table@[index] == crc_bits(index as u32, 8),
        decreases bytes@.len() - done,
    {
        let byte: u8 = bytes[done];
        let index: u8 = (crc as u8) ^ byte;
        proof {
            lemma_crc_table_step(crc, byte);
            assert(bytes@.take(done + 1).drop_last() =~= bytes@.take(done as int));
        }
        crc = table[index as usize] ^ (crc >> 8);
        done = done + 1;
    }
    assert(bytes@.take(done as int) =~= bytes@);
    !crc
}

} // verus!
