//! Bit-packed blocks of 32-bit integers.
//!
//! A block is a count, a bit width and the values as the digits of one large
//! number in base 2^width, stored little-endian.
use crate::codec;
use crate::error::{Error, Result};
use vstd::arithmetic::power2::pow2;
use vstd::prelude::*;

verus! {

/// How many values a block holds at most.
pub const PACKED_BLOCK: usize = 128;

/// The number of binary digits of `value`; zero has none.
pub open spec fn bit_width(value: nat) -> nat
    decreases value,
{
    if value == 0 {
        0
    } else {
        1 + bit_width(value / 2)
    }
}

/// The largest of `values`, zero if there are none.
pub open spec fn largest(values: Seq<u32>) -> u32
    decreases values.len(),
{
    if values.len() == 0 {
        0
    } else {
        let before = largest(values.drop_last());
        if before < values.last() {
            values.last()
        } else {
            before
        }
    }
}

/// The number with the digits `values` in base 2^`width`, first value lowest.
pub open spec fn packed_number(values: Seq<u32>, width: nat) -> nat
    decreases values.len(),
{
    if values.len() == 0 {
        0
    } else {
        packed_number(values.drop_last(), width) + values.last() as nat * pow2(
            ((values.len() - 1) * width) as nat,
        )
    }
}

/// How many bytes `count` values of `width` bits take.
pub open spec fn packed_len(count: nat, width: nat) -> nat {
    (count * width + 7) as nat / 8
}

pub open spec fn packed_block(values: Seq<u32>) -> Seq<u8> {
    let width = bit_width(largest(values) as nat);
    seq![values.len() as u8, width as u8] + codec::le_bytes(
        packed_number(values, width),
        packed_len(values.len(), width),
    )
}

/// `values` in consecutive blocks, all full but the last.
pub open spec fn packed(values: Seq<u32>) -> Seq<u8>
    decreases values.len(),
{
    if values.len() == 0 {
        Seq::empty()
    } else if values.len() <= 128 {
        packed_block(values)
    } else {
        packed_block(values.take(128)) + packed(values.skip(128))
    }
}

/// The first value, then the step from each value to the next.
pub open spec fn steps(values: Seq<u32>) -> Seq<u32> {
    Seq::new(
        values.len(),
        |i: int|
            if i == 0 {
                values[0]
            } else {
                (values[i] - values[i - 1]) as u32
            },
    )
}

/// The `count` digits in base 2^`width` of the number stored in `bytes`.
pub open spec fn unpack(bytes: Seq<u8>, count: nat, width: nat) -> Seq<u32> {
    Seq::new(
        count,
        |i: int|
            (codec::le_value(bytes) / pow2((i * width) as nat) % pow2(width)) as u32,
    )
}

/// Reads blocks until exactly `expected` values are there.
pub open spec fn parse_packed(input: Seq<u8>, expected: nat) -> Result<Seq<u32>>
    decreases expected,
{
    if expected == 0 {
        if input.len() == 0 {
            Ok(Seq::empty())
        } else {
            Err(Error::Corrupt("trailing packed integers"))
        }
    } else if input.len() < 2 {
        Err(Error::Corrupt("truncated packed block"))
    } else {
        let count = input[0] as nat;
        let width = input[1] as nat;
        let body = input.skip(2);
        let len = packed_len(count, width);
        if count == 0 || count > 128 || count > expected || width > 32 {
            Err(Error::Corrupt("invalid packed block header"))
        } else if body.len() < len {
            Err(Error::Corrupt("truncated packed block payload"))
        } else {
            match parse_packed(body.skip(len as int), (expected - count) as nat) {
                Ok(more) => Ok(unpack(body.take(len as int), count, width) + more),
                Err(error) => Err(error),
            }
        }
    }
}

/// The running sums of `steps`, or what is wrong with the first step that
/// repeats a value or leaves the 32-bit range.
pub open spec fn running_sums(steps: Seq<u32>) -> Result<Seq<u32>>
    decreases steps.len(),
{
    if steps.len() == 0 {
        Ok(Seq::empty())
    } else {
        match running_sums(steps.drop_last()) {
            Err(error) => Err(error),
            Ok(before) => if steps.len() == 1 {
                Ok(seq![steps[0]])
            } else if steps.last() == 0 {
                Err(Error::Corrupt("zero document delta"))
            } else if before.last() + steps.last() > u32::MAX {
                Err(Error::Corrupt("document delta overflow"))
            } else {
                Ok(before.push((before.last() + steps.last()) as u32))
            },
        }
    }
}

pub open spec fn parse_packed_deltas(input: Seq<u8>, expected: nat) -> Result<Seq<u32>> {
    match parse_packed(input, expected) {
        Ok(steps) => running_sums(steps),
        Err(error) => Err(error),
    }
}

proof fn lemma_add_then_shift(low: nat, high: nat, up: nat, down: nat)
    requires
        down <= up,
    ensures
        (low + high * pow2(up)) as nat / pow2(down) == low / pow2(down) + high * pow2(
            (up - down) as nat,
        ),
        pow2(up) == pow2(down) * pow2((up - down) as nat),
{
    vstd::arithmetic::power2::lemma_pow2_adds(down, (up - down) as nat);
    vstd::arithmetic::power2::lemma_pow2_pos(down);
    let digit = high * pow2((up - down) as nat);
    assert(high * pow2(up) == digit * pow2(down)) by (nonlinear_arith)
        requires
            pow2(up) == pow2(down) * pow2((up - down) as nat),
            digit == high * pow2((up - down) as nat),
    ;
    vstd::arithmetic::div_mod::lemma_hoist_over_denominator(
        low as int,
        digit as int,
        pow2(down),
    );
}

proof fn lemma_add_keeps_low_bits(low: nat, high: nat, up: nat, width: nat)
    requires
        width <= up,
    ensures
        (low + high * pow2(up)) as nat % pow2(width) == low % pow2(width),
{
    vstd::arithmetic::power2::lemma_pow2_adds(width, (up - width) as nat);
    vstd::arithmetic::power2::lemma_pow2_pos(width);
    let digit = high * pow2((up - width) as nat);
    assert(high * pow2(up) == pow2(width) * digit) by (nonlinear_arith)
        requires
            pow2(up) == pow2(width) * pow2((up - width) as nat),
            digit == high * pow2((up - width) as nat),
    ;
    vstd::arithmetic::div_mod::lemma_mod_multiples_vanish(
        digit as int,
        low as int,
        pow2(width) as int,
    );
}

proof fn lemma_shift_twice(value: nat, first: nat, second: nat)
    ensures
        value / pow2(first) / pow2(second) == value / pow2(first + second),
{
    vstd::arithmetic::power2::lemma_pow2_adds(first, second);
    vstd::arithmetic::power2::lemma_pow2_pos(first);
    vstd::arithmetic::power2::lemma_pow2_pos(second);
    vstd::arithmetic::div_mod::lemma_div_denominator(
        value as int,
        pow2(first) as int,
        pow2(second) as int,
    );
}

proof fn lemma_le_bytes_extend(value: nat, width: nat)
    ensures
        codec::le_bytes(value, width + 1) == codec::le_bytes(value, width).push(
            (value / pow2(8 * width) % 256) as u8,
        ),
    decreases width,
{
    vstd::arithmetic::power2::lemma2_to64();
    if width == 0 {
        reveal_with_fuel(codec::le_bytes, 2);
        assert(value / pow2(0) == value);
        assert(codec::le_bytes(value, 1) =~= codec::le_bytes(value, 0).push((value % 256) as u8));
    } else {
        lemma_le_bytes_extend(value / 256, (width - 1) as nat);
        lemma_shift_twice(value, 8, (8 * (width - 1)) as nat);
        assert(codec::le_bytes(value, width + 1) =~= codec::le_bytes(value, width).push(
            (value / pow2(8 * width) % 256) as u8,
        ));
    }
}

proof fn lemma_le_bytes_low_part(low: nat, high: nat, width: nat)
    ensures
        codec::le_bytes((low + high * pow2(8 * width)) as nat, width) == codec::le_bytes(low, width),
    decreases width,
{
    vstd::arithmetic::power2::lemma2_to64();
    if width > 0 {
        let all = (low + high * pow2(8 * width)) as nat;
        lemma_add_then_shift(low, high, 8 * width, 8);
        lemma_add_keeps_low_bits(low, high, 8 * width, 8);
        assert((8 * width - 8) as nat == 8 * (width - 1) as nat);
        lemma_le_bytes_low_part(low / 256, high, (width - 1) as nat);
        assert(codec::le_bytes(all, width) =~= codec::le_bytes(low, width));
    }
}

proof fn lemma_le_value_push(bytes: Seq<u8>, byte: u8)
    ensures
        codec::le_value(bytes.push(byte)) == codec::le_value(bytes) + byte as nat * pow2(
            8 * bytes.len(),
        ),
    decreases bytes.len(),
{
    vstd::arithmetic::power2::lemma2_to64();
    let all = bytes.push(byte);
    if bytes.len() == 0 {
        assert(all.skip(1) =~= Seq::empty());
        assert(codec::le_value(all.skip(1)) == 0);
        assert(byte as nat * pow2(8 * bytes.len()) == byte as nat) by (nonlinear_arith)
            requires
                pow2(8 * bytes.len()) == 1,
        ;
    } else {
        let tail = bytes.skip(1);
        assert(all.skip(1) =~= tail.push(byte));
        lemma_le_value_push(tail, byte);
        vstd::arithmetic::power2::lemma_pow2_adds(8, 8 * tail.len());
        assert(8 * bytes.len() == 8 + 8 * tail.len());
        assert(256 * (byte as nat * pow2(8 * tail.len())) == byte as nat * pow2(8 * bytes.len()))
            by (nonlinear_arith)
            requires
                pow2(8 * bytes.len()) == 256 * pow2(8 * tail.len()),
        ;
    }
}

pub(crate) proof fn lemma_le_value_concat(left: Seq<u8>, right: Seq<u8>)
    ensures
        codec::le_value(left + right) == codec::le_value(left) + codec::le_value(right) * pow2(
            8 * left.len(),
        ),
    decreases left.len(),
{
    vstd::arithmetic::power2::lemma2_to64();
    if left.len() == 0 {
        assert(left + right =~= right);
        assert(codec::le_value(right) * 1 == codec::le_value(right));
    } else {
        let tail = left.skip(1);
        assert((left + right).skip(1) =~= tail + right);
        lemma_le_value_concat(tail, right);
        vstd::arithmetic::power2::lemma_pow2_adds(8, 8 * tail.len());
        assert(8 * left.len() == 8 + 8 * tail.len());
        let high = codec::le_value(right);
        assert(256 * (high * pow2(8 * tail.len())) == high * pow2(8 * left.len()))
            by (nonlinear_arith)
            requires
                pow2(8 * left.len()) == 256 * pow2(8 * tail.len()),
        ;
    }
}

pub(crate) proof fn lemma_bit_width(value: nat)
    ensures
        value < pow2(bit_width(value)),
        value <= u32::MAX ==> bit_width(value) <= 32,
        value > 0 ==> pow2((bit_width(value) - 1) as nat) <= value,
    decreases value,
{
    vstd::arithmetic::power2::lemma2_to64();
    if value > 0 {
        lemma_bit_width(value / 2);
        vstd::arithmetic::power2::lemma_pow2_unfold(bit_width(value));
        if value > 1 {
            vstd::arithmetic::power2::lemma_pow2_unfold((bit_width(value) - 1) as nat);
        }
        if value <= u32::MAX && bit_width(value) > 32 {
            if bit_width(value) > 33 {
                vstd::arithmetic::power2::lemma_pow2_strictly_increases(
                    32,
                    (bit_width(value) - 1) as nat,
                );
            }
            assert(false);
        }
    }
}

/// No value exceeds the largest.
pub proof fn largest_bounds(values: Seq<u32>)
    ensures
        forall|i: int| 0 <= i < values.len() ==> #[trigger] values[i] <= largest(values),
    decreases values.len(),
{
    if values.len() > 0 {
        largest_bounds(values.drop_last());
        assert forall|i: int| 0 <= i < values.len() implies #[trigger] values[i] <= largest(
            values,
        ) by {
            if i < values.len() - 1 {
                assert(values[i] == values.drop_last()[i]);
            }
        }
    }
}

pub(crate) proof fn lemma_packed_number_bound(values: Seq<u32>, width: nat)
    requires
        forall|i: int| 0 <= i < values.len() ==> #[trigger] values[i] < pow2(width),
    ensures
        packed_number(values, width) < pow2((values.len() * width) as nat),
    decreases values.len(),
{
    vstd::arithmetic::power2::lemma2_to64();
    if values.len() > 0 {
        let front = values.drop_last();
        assert(forall|i: int| 0 <= i < front.len() ==> front[i] == values[i]);
        lemma_packed_number_bound(front, width);
        let up = (front.len() * width) as nat;
        assert(values.len() * width == up + width) by (nonlinear_arith)
            requires
                values.len() == front.len() + 1,
                up == front.len() * width,
        ;
        vstd::arithmetic::power2::lemma_pow2_adds(up, width);
        assert(values.last() == values[values.len() - 1]);
        let last = values.last() as nat;
        assert(packed_number(front, width) + last * pow2(up) < pow2(up) * pow2(width))
            by (nonlinear_arith)
            requires
                packed_number(front, width) < pow2(up),
                last + 1 <= pow2(width),
        ;
        assert(((values.len() - 1) * width) as nat == up);
    } else {
        assert((values.len() * width) == 0) by (nonlinear_arith)
            requires
                values.len() == 0,
        ;
    }
}

pub(crate) proof fn lemma_packed_digit(values: Seq<u32>, width: nat, i: int)
    requires
        forall|j: int| 0 <= j < values.len() ==> #[trigger] values[j] < pow2(width),
        0 <= i < values.len(),
    ensures
        packed_number(values, width) / pow2((i * width) as nat) % pow2(width) == values[i],
    decreases values.len(),
{
    let front = values.drop_last();
    let up = ((values.len() - 1) * width) as nat;
    let down = (i * width) as nat;
    let last = values.last() as nat;
    assert(forall|j: int| 0 <= j < front.len() ==> front[j] == values[j]);
    lemma_packed_number_bound(front, width);
    assert(front.len() * width == up);
    vstd::arithmetic::power2::lemma_pow2_pos(up);
    assert(down <= up && (i < values.len() - 1 ==> down + width <= up)) by (nonlinear_arith)
        requires
            i <= values.len() - 1,
            down == i * width,
            up == (values.len() - 1) * width,
    ;
    lemma_add_then_shift(packed_number(front, width), last, up, down);
    if i == values.len() - 1 {
        vstd::arithmetic::div_mod::lemma_basic_div(
            packed_number(front, width) as int,
            pow2(up) as int,
        );
        vstd::arithmetic::power2::lemma2_to64();
        assert(last * pow2(0) == last) by (nonlinear_arith)
            requires
                pow2(0) == 1,
        ;
        vstd::arithmetic::div_mod::lemma_small_mod(last, pow2(width));
    } else {
        lemma_packed_digit(front, width, i);
        lemma_add_keeps_low_bits(
            packed_number(front, width) / pow2(down),
            last,
            (up - down) as nat,
            width,
        );
    }
}

proof fn lemma_block_round_trip(values: Seq<u32>)
    requires
        values.len() <= 128,
    ensures
        bit_width(largest(values) as nat) <= 32,
        ({
            let width = bit_width(largest(values) as nat);
            let bytes = codec::le_bytes(
                packed_number(values, width),
                packed_len(values.len(), width),
            );
            bytes.len() == packed_len(values.len(), width) && unpack(bytes, values.len(), width)
                == values
        }),
{
    broadcast use codec::le_bytes_len;

    let width = bit_width(largest(values) as nat);
    let len = packed_len(values.len(), width);
    let number = packed_number(values, width);
    lemma_bit_width(largest(values) as nat);
    largest_bounds(values);
    lemma_packed_number_bound(values, width);
    let bits = (values.len() * width) as nat;
    assert(bits <= 8 * len);
    if bits < 8 * len {
        vstd::arithmetic::power2::lemma_pow2_strictly_increases(bits, 8 * len);
    }
    codec::le_round_trip(number, len);
    assert forall|i: int| 0 <= i < values.len() implies unpack(
        codec::le_bytes(number, len),
        values.len(),
        width,
    )[i] == values[i] by {
        lemma_packed_digit(values, width, i);
    }
    assert(unpack(codec::le_bytes(number, len), values.len(), width) =~= values);
}

/// Any sequence of 32-bit values survives being packed and unpacked.
pub proof fn packed_round_trip(values: Seq<u32>)
    ensures
        parse_packed(packed(values), values.len()) == Ok::<Seq<u32>, Error>(values),
    decreases values.len(),
{
    if values.len() > 0 {
        let count = if values.len() <= 128 {
            values.len()
        } else {
            128
        };
        let first = values.take(count as int);
        let more = values.skip(count as int);
        lemma_block_round_trip(first);
        packed_round_trip(more);
        let width = bit_width(largest(first) as nat);
        let len = packed_len(count, width);
        let bytes = codec::le_bytes(packed_number(first, width), len);
        if values.len() <= 128 {
            assert(first =~= values);
            assert(more =~= Seq::empty());
            assert(packed(values) =~= seq![count as u8, width as u8] + bytes + packed(more));
        } else {
            assert(packed(values) =~= seq![count as u8, width as u8] + bytes + packed(more));
        }
        let input = packed(values);
        assert(input.skip(2).take(len as int) =~= bytes);
        assert(input.skip(2).skip(len as int) =~= packed(more));
        assert(first + more =~= values);
    } else {
        assert(values =~= Seq::empty());
    }
}

proof fn lemma_running_sums(values: Seq<u32>)
    requires
        forall|i: int, j: int| 0 <= i < j < values.len() ==> values[i] < values[j],
    ensures
        running_sums(steps(values)) == Ok::<Seq<u32>, Error>(values),
    decreases values.len(),
{
    if values.len() == 0 {
        assert(values =~= Seq::empty());
    } else {
        let front = values.drop_last();
        lemma_running_sums(front);
        assert(steps(values).drop_last() =~= steps(front));
        if values.len() == 1 {
            assert(seq![steps(values)[0]] =~= values);
        } else {
            assert(front.push(values.last()) =~= values);
            assert(front.last() == values[values.len() - 2]);
        }
    }
}

/// A strictly increasing sequence survives being packed as steps and read back.
pub proof fn packed_deltas_round_trip(values: Seq<u32>)
    requires
        forall|i: int, j: int| 0 <= i < j < values.len() ==> values[i] < values[j],
    ensures
        parse_packed_deltas(packed(steps(values)), values.len()) == Ok::<Seq<u32>, Error>(values),
{
    packed_round_trip(steps(values));
    lemma_running_sums(values);
}

fn largest_of(values: &[u32]) -> (max: u32)
    ensures
        max == largest(values@),
{
    let mut max: u32 = 0;
    let mut done: usize = 0;
    while done < values.len()
        invariant
            done <= values@.len(),
            max == largest(values@.take(done as int)),
        decreases values@.len() - done,
    {
        assert(values@.take(done + 1).drop_last() =~= values@.take(done as int));
        if max < values[done] {
            max = values[done];
        }
        done = done + 1;
    }
    assert(values@.take(done as int) =~= values@);
    max
}

fn bit_width_of(value: u32) -> (width: u32)
    ensures
        width == bit_width(value as nat),
        width <= 32,
{
    let mut left: u32 = value;
    let mut width: u32 = 0;
    proof {
        lemma_bit_width(value as nat);
    }
    while left > 0
        invariant
            width + bit_width(left as nat) == bit_width(value as nat),
            bit_width(value as nat) <= 32,
        decreases left,
    {
        left = left / 2;
        width = width + 1;
    }
    width
}

fn shift_up(value: u64, by: u32) -> (shifted: u64)
    requires
        by < 64,
        value as nat * pow2(by as nat) <= u64::MAX,
    ensures
        shifted == value as nat * pow2(by as nat),
{
    proof {
        vstd::bits::lemma_u64_shl_is_mul(value, by as u64);
    }
    value << (by as u64)
}

/// Writes one block of 1 to 128 values.
#[verifier::rlimit(40)]
pub fn put_packed_block(out: &mut Vec<u8>, values: &[u32])
    requires
        1 <= values@.len() <= 128,
    ensures
        final(out)@ == old(out)@ + packed_block(values@),
{
    let ghost before = out@;
    let max: u32 = largest_of(values);
    let width: u32 = bit_width_of(max);
    out.push(values.len() as u8);
    out.push(width as u8);
    let ghost base = out@;
    let ghost w = width as nat;
    let mut buffer: u64 = 0;
    let mut buffered: u32 = 0;
    let mut done: usize = 0;
    let ghost mut emitted: nat = 0;
    proof {
        largest_bounds(values@);
        lemma_bit_width(max as nat);
        vstd::arithmetic::power2::lemma2_to64();
        assert(values@.take(0) =~= Seq::empty());
        assert(base =~= base + codec::le_bytes(0, 0));
    }
    while done < values.len()
        invariant
            done <= values@.len() <= 128,
            w == width <= 32,
            forall|i: int| 0 <= i < values@.len() ==> #[trigger] values@[i] < pow2(w),
            buffered < 8,
            done * w == 8 * emitted + buffered,
            out@ == base + codec::le_bytes(packed_number(values@.take(done as int), w), emitted),
            buffer == packed_number(values@.take(done as int), w) / pow2(8 * emitted),
            buffer < pow2(buffered as nat),
        decreases values@.len() - done,
    {
        let value: u32 = values[done];
        let ghost number = packed_number(values@.take(done as int), w);
        let ghost next = packed_number(values@.take(done + 1), w);
        proof {
            vstd::arithmetic::power2::lemma2_to64();
            assert(values@.take(done + 1).drop_last() =~= values@.take(done as int));
            assert(next == number + value as nat * pow2((done * w) as nat));
            lemma_add_then_shift(number, value as nat, (done * w) as nat, 8 * emitted);
            assert(next / pow2(8 * emitted) == buffer + value as nat * pow2(buffered as nat));
            vstd::arithmetic::power2::lemma_pow2_adds(8 * emitted, buffered as nat);
            let high = value as nat * pow2(buffered as nat);
            assert(value as nat * pow2((done * w) as nat) == high * pow2(8 * emitted))
                by (nonlinear_arith)
                requires
                    pow2((done * w) as nat) == pow2(8 * emitted) * pow2(buffered as nat),
                    high == value as nat * pow2(buffered as nat),
            ;
            lemma_le_bytes_low_part(number, high, emitted);
            vstd::arithmetic::power2::lemma_pow2_adds(w, buffered as nat);
            assert(high + buffer < pow2(w) * pow2(buffered as nat)) by (nonlinear_arith)
                requires
                    value as nat + 1 <= pow2(w),
                    buffer < pow2(buffered as nat),
                    high == value as nat * pow2(buffered as nat),
            ;
            vstd::arithmetic::power2::lemma_pow2_strictly_increases(w + buffered as nat, 40);
            vstd::arithmetic::power2::lemma2_to64_rest();
            assert((done + 1) * w == done * w + w) by (nonlinear_arith);
        }
        buffer = buffer + shift_up(value as u64, buffered);
        buffered = buffered + width;
        while buffered >= 8
            invariant
                buffered < 40,
                w == width <= 32,
                (done + 1) * w == 8 * emitted + buffered,
                out@ == base + codec::le_bytes(next, emitted),
                buffer == next / pow2(8 * emitted),
                buffer < pow2(buffered as nat),
            decreases buffered,
        {
            let ghost sofar = out@;
            proof {
                vstd::arithmetic::power2::lemma2_to64();
                lemma_le_bytes_extend(next, emitted);
                lemma_shift_twice(next, 8 * emitted, 8);
                vstd::arithmetic::power2::lemma_pow2_adds((buffered - 8) as nat, 8);
                assert(8 * emitted + 8 == 8 * (emitted + 1));
            }
            out.push((buffer % 256) as u8);
            assert(out@ =~= base + codec::le_bytes(next, emitted + 1));
            buffer = buffer / 256;
            buffered = buffered - 8;
            proof {
                emitted = emitted + 1;
            }
        }
        done = done + 1;
    }
    assert(values@.take(done as int) =~= values@);
    let ghost number = packed_number(values@, w);
    if buffered != 0 {
        proof {
            lemma_le_bytes_extend(number, emitted);
            vstd::arithmetic::power2::lemma2_to64();
            vstd::arithmetic::power2::lemma_pow2_strictly_increases(buffered as nat, 8);
        }
        out.push(buffer as u8);
        assert(out@ =~= base + codec::le_bytes(number, emitted + 1));
    }
    assert(out@ == base + codec::le_bytes(number, packed_len(values@.len(), w)));
    assert(out@ =~= before + packed_block(values@));
}

/// Writes `values` in blocks of 128.
pub fn put_packed_u32s(out: &mut Vec<u8>, values: &[u32])
    ensures
        final(out)@ == old(out)@ + packed(values@),
{
    let mut rest: &[u32] = values;
    while rest.len() > PACKED_BLOCK
        invariant
            out@ + packed(rest@) == old(out)@ + packed(values@),
        decreases rest@.len(),
    {
        let (block, more) = rest.split_at(PACKED_BLOCK);
        let ghost before = out@;
        put_packed_block(out, block);
        assert(out@ + packed(more@) =~= before + packed(rest@));
        rest = more;
    }
    if rest.len() > 0 {
        put_packed_block(out, rest);
    } else {
        assert(out@ + packed(rest@) =~= out@);
    }
}

/// Writes `values` as their first value and the steps between them.
pub fn put_packed_deltas(out: &mut Vec<u8>, values: &[u32])
    requires
        forall|i: int, j: int| 0 <= i < j < values@.len() ==> values@[i] <= values@[j],
    ensures
        final(out)@ == old(out)@ + packed(steps(values@)),
{
    let mut deltas: Vec<u32> = Vec::with_capacity(values.len());
    let mut done: usize = 0;
    while done < values.len()
        invariant
            done <= values@.len(),
            deltas@.len() == done,
            forall|i: int, j: int| 0 <= i < j < values@.len() ==> values@[i] <= values@[j],
            forall|i: int| 0 <= i < done ==> #[trigger] deltas@[i] == steps(values@)[i],
        decreases values@.len() - done,
    {
        if done == 0 {
            deltas.push(values[0]);
        } else {
            deltas.push(values[done] - values[done - 1]);
        }
        done = done + 1;
    }
    assert(deltas@ =~= steps(values@));
    put_packed_u32s(out, deltas.as_slice());
}

#[verifier::rlimit(40)]
fn read_block(values: &mut Vec<u32>, encoded: &[u8], count: usize, width: u32)
    requires
        count <= 128,
        width <= 32,
        encoded@.len() == packed_len(count as nat, width as nat),
    ensures
        final(values)@ == old(values)@ + unpack(encoded@, count as nat, width as nat),
{
    let ghost w = width as nat;
    let ghost number = codec::le_value(encoded@);
    proof {
        vstd::arithmetic::power2::lemma2_to64();
        vstd::arithmetic::power2::lemma2_to64_rest();
        if w < 32 {
            vstd::arithmetic::power2::lemma_pow2_strictly_increases(w, 32);
        }
        vstd::arithmetic::power2::lemma_pow2_pos(w);
        assert(1 * pow2(w) == pow2(w));
    }
    let modulus: u64 = shift_up(1, width);
    let mut byte_index: usize = 0;
    let mut buffer: u64 = 0;
    let mut buffered: u32 = 0;
    let mut done: usize = 0;
    assert(encoded@.take(0) =~= Seq::empty());
    assert(values@ =~= old(values)@ + unpack(encoded@, 0, w));
    while done < count
        invariant
            done <= count <= 128,
            w == width <= 32,
            modulus == pow2(w),
            number == codec::le_value(encoded@),
            encoded@.len() == packed_len(count as nat, w),
            byte_index <= encoded@.len(),
            buffered < 8,
            8 * byte_index == done * w + buffered,
            buffer == codec::le_value(encoded@.take(byte_index as int)) / pow2((done * w) as nat),
            buffer < pow2(buffered as nat),
            values@ == old(values)@ + unpack(encoded@, done as nat, w),
        decreases count - done,
    {
        let ghost down = (done * w) as nat;
        assert((done + 1) * w == down + w && (done + 1) * w <= count * w) by (nonlinear_arith)
            requires
                done + 1 <= count,
                down == done * w,
        ;
        while buffered < width
            invariant
                w == width <= 32,
                done < count,
                down == done * w,
                down + w <= count * w,
                encoded@.len() == packed_len(count as nat, w),
                byte_index <= encoded@.len(),
                buffered < w + 8,
                8 * byte_index == down + buffered,
                buffer == codec::le_value(encoded@.take(byte_index as int)) / pow2(down),
                buffer < pow2(buffered as nat),
            decreases w + 8 - buffered,
        {
            let byte: u8 = encoded[byte_index];
            proof {
                let read = encoded@.take(byte_index as int);
                assert(encoded@.take(byte_index + 1) =~= read.push(byte));
                lemma_le_value_push(read, byte);
                lemma_add_then_shift(
                    codec::le_value(read),
                    byte as nat,
                    (8 * byte_index) as nat,
                    down,
                );
                vstd::arithmetic::power2::lemma2_to64();
                vstd::arithmetic::power2::lemma2_to64_rest();
                vstd::arithmetic::power2::lemma_pow2_adds(8, buffered as nat);
                let high = byte as nat * pow2(buffered as nat);
                assert(high + buffer < 256 * pow2(buffered as nat)) by (nonlinear_arith)
                    requires
                        byte as nat + 1 <= 256,
                        buffer < pow2(buffered as nat),
                        high == byte as nat * pow2(buffered as nat),
                ;
                vstd::arithmetic::power2::lemma_pow2_strictly_increases(8 + buffered as nat, 50);
            }
            buffer = buffer + shift_up(byte as u64, buffered);
            byte_index = byte_index + 1;
            buffered = buffered + 8;
        }
        proof {
            let read = encoded@.take(byte_index as int);
            let unread = encoded@.skip(byte_index as int);
            assert(read + unread =~= encoded@);
            lemma_le_value_concat(read, unread);
            let up = (8 * byte_index) as nat;
            let high = codec::le_value(unread);
            lemma_add_then_shift(codec::le_value(read), high, up, down);
            lemma_add_keeps_low_bits(buffer as nat, high, (up - down) as nat, w);
            assert(number / pow2(down) % pow2(w) == buffer as nat % pow2(w));
            lemma_shift_twice(codec::le_value(read), down, w);
            vstd::arithmetic::power2::lemma_pow2_adds((buffered - w) as nat, w);
            assert(buffer as nat / pow2(w) < pow2((buffered - w) as nat)) by {
                vstd::arithmetic::power2::lemma_pow2_pos(w);
                assert(pow2(buffered as nat) == pow2(w) * pow2((buffered - w) as nat))
                    by (nonlinear_arith)
                    requires
                        pow2(buffered as nat) == pow2((buffered - w) as nat) * pow2(w),
                ;
                vstd::arithmetic::div_mod::lemma_multiply_divide_lt(
                    buffer as int,
                    pow2(w) as int,
                    pow2((buffered - w) as nat) as int,
                );
            }
            vstd::arithmetic::div_mod::lemma_mod_bound(buffer as int, modulus as int);
            vstd::arithmetic::power2::lemma2_to64();
            if w < 32 {
                vstd::arithmetic::power2::lemma_pow2_strictly_increases(w, 32);
            }
        }
        let ghost sofar = values@;
        values.push((buffer % modulus) as u32);
        assert(values@ =~= old(values)@ + unpack(encoded@, (done + 1) as nat, w)) by {
            assert(unpack(encoded@, (done + 1) as nat, w).drop_last() =~= unpack(
                encoded@,
                done as nat,
                w,
            ));
        }
        buffer = buffer / modulus;
        buffered = buffered - width;
        done = done + 1;
    }
}

/// Reads exactly `expected` packed values from `input`.
pub fn read_packed_u32s(input: &[u8], expected: usize) -> (result: Result<Vec<u32>>)
    ensures
        match parse_packed(input@, expected as nat) {
            Ok(values) => result matches Ok(read) && read@ == values,
            Err(error) => result == Err::<Vec<u32>, Error>(error),
        },
{
    let mut rest: &[u8] = input;
    let mut values: Vec<u32> = Vec::new();
    while values.len() < expected
        invariant
            values@.len() <= expected,
            match parse_packed(rest@, (expected - values@.len()) as nat) {
                Ok(more) => parse_packed(input@, expected as nat) == Ok::<Seq<u32>, Error>(
                    values@ + more,
                ),
                Err(error) => parse_packed(input@, expected as nat) == Err::<Seq<u32>, Error>(
                    error,
                ),
            },
        decreases expected - values@.len(),
    {
        if rest.len() < 2 {
            return Err(Error::Corrupt("truncated packed block"));
        }
        let count: usize = rest[0] as usize;
        let width: u32 = rest[1] as u32;
        let (_, body) = rest.split_at(2);
        if count == 0 || count > PACKED_BLOCK || count > expected - values.len() || width > 32 {
            return Err(Error::Corrupt("invalid packed block header"));
        }
        assert(count * width <= 128 * 32) by (nonlinear_arith)
            requires
                count <= 128,
                width <= 32,
        ;
        let byte_len: usize = (count * width as usize + 7) / 8;
        if body.len() < byte_len {
            return Err(Error::Corrupt("truncated packed block payload"));
        }
        let (encoded, more) = body.split_at(byte_len);
        let ghost before = values@;
        read_block(&mut values, encoded, count, width);
        proof {
            let block = unpack(encoded@, count as nat, width as nat);
            if let Ok(later) = parse_packed(more@, (expected - values@.len()) as nat) {
                assert(before + (block + later) =~= values@ + later);
            }
        }
        rest = more;
    }
    if rest.len() > 0 {
        return Err(Error::Corrupt("trailing packed integers"));
    }
    assert(values@ + Seq::<u32>::empty() =~= values@);
    Ok(values)
}

/// Reads exactly `expected` values that were packed as steps.
pub fn read_packed_deltas(input: &[u8], expected: usize) -> (result: Result<Vec<u32>>)
    ensures
        match parse_packed_deltas(input@, expected as nat) {
            Ok(values) => result matches Ok(read) && read@ == values,
            Err(error) => result == Err::<Vec<u32>, Error>(error),
        },
{
    let steps: Vec<u32> = match read_packed_u32s(input, expected) {
        Ok(steps) => steps,
        Err(error) => return Err(error),
    };
    let mut values: Vec<u32> = Vec::with_capacity(steps.len());
    let mut done: usize = 0;
    assert(steps@.take(0) =~= Seq::empty());
    while done < steps.len()
        invariant
            done <= steps@.len(),
            values@.len() == done,
            running_sums(steps@.take(done as int)) == Ok::<Seq<u32>, Error>(values@),
            parse_packed(input@, expected as nat) == Ok::<Seq<u32>, Error>(steps@),
        decreases steps@.len() - done,
    {
        let step: u32 = steps[done];
        proof {
            assert(steps@.take(done + 1).drop_last() =~= steps@.take(done as int));
        }
        if done == 0 {
            values.push(step);
            assert(values@ =~= seq![steps@.take(1)[0]]);
        } else {
            if step == 0 {
                proof {
                    lemma_running_sums_stop(steps@, done + 1);
                }
                return Err(Error::Corrupt("zero document delta"));
            }
            let previous: u32 = values[done - 1];
            if previous > u32::MAX - step {
                proof {
                    lemma_running_sums_stop(steps@, done + 1);
                }
                return Err(Error::Corrupt("document delta overflow"));
            }
            values.push(previous + step);
        }
        done = done + 1;
    }
    assert(steps@.take(done as int) =~= steps@);
    Ok(values)
}

proof fn lemma_running_sums_stop(steps: Seq<u32>, at: int)
    requires
        0 <= at <= steps.len(),
        running_sums(steps.take(at)) is Err,
    ensures
        running_sums(steps) == running_sums(steps.take(at)),
    decreases steps.len() - at,
{
    if at == steps.len() {
        assert(steps.take(at) =~= steps);
    } else {
        assert(steps.take(at + 1).drop_last() =~= steps.take(at));
        lemma_running_sums_stop(steps, at + 1);
    }
}

} // verus!
