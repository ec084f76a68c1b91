//! How numbers and postings are laid out, and how checkpoints are named.
use crate::checkpoint::is_checkpoint_name;
use crate::codec::{le_bytes, le_value, parse_var_digits, parse_var_u32, var_bytes};
use crate::leapfrog;
use crate::packing;
use crate::packing::packed;
use crate::segment;
use crate::segment::{PostingList, StoredDocument};
use crate::text;
use vstd::arithmetic::power2::pow2;
use vstd::prelude::*;
use vstd::utf8::encode_utf8;

verus! {

/// A byte is its own value, and bytes that follow `left` count 256 times as much for
/// each byte of it.
pub proof fn later_bytes_weigh_more(byte: u8, left: Seq<u8>, right: Seq<u8>)
    ensures
        le_value(seq![byte]) == byte,
        le_value(left + right) == le_value(left) + le_value(right) * pow2(8 * left.len()),
{
    reveal_with_fuel(le_value, 2);
    assert(seq![byte].skip(1) =~= Seq::empty());
    packing::lemma_le_value_concat(left, right);
}

/// The number of which the bytes hold seven bits each, the lowest first.
pub open spec fn by_sevens(bytes: Seq<u8>) -> nat
    decreases bytes.len(),
{
    if bytes.len() == 0 {
        0
    } else {
        bytes[0] as nat % 128 + 128 * by_sevens(bytes.skip(1))
    }
}

/// Bytes that are marked as followed by another, and a last one that is not.
pub open spec fn in_a_row(bytes: Seq<u8>) -> bool {
    &&& bytes.len() > 0
    &&& bytes.last() < 128
    &&& forall|i: int| 0 <= i < bytes.len() - 1 ==> #[trigger] bytes[i] >= 128
}

/// A number is written by seven bits to a byte, with no more bytes than it needs.
pub proof fn numbers_are_written_by_sevens(value: nat)
    ensures
        in_a_row(var_bytes(value)),
        by_sevens(var_bytes(value)) == value,
        var_bytes(value).len() > 1 ==> var_bytes(value).last() != 0,
    decreases value,
{
    let bytes = var_bytes(value);
    if value < 128 {
        assert(bytes.skip(1) =~= Seq::empty());
        assert(by_sevens(bytes.skip(1)) == 0);
    } else {
        let more = var_bytes(value / 128);
        numbers_are_written_by_sevens(value / 128);
        assert(bytes.skip(1) =~= more);
        assert(bytes.last() == more.last());
        assert forall|i: int| 0 <= i < bytes.len() - 1 implies #[trigger] bytes[i] >= 128 by {
            if i > 0 {
                assert(bytes[i] == more[i - 1]);
            }
        }
        assert(value / 128 > 0);
        if more.len() == 1 {
            assert(more.skip(1) =~= Seq::empty());
            assert(by_sevens(more.skip(1)) == 0);
        }
    }
}

/// A number is read from bytes in a row, up to five of them, by seven bits each. What
/// follows them is left.
pub proof fn numbers_are_read_by_sevens(bytes: Seq<u8>, rest: Seq<u8>)
    requires
        in_a_row(bytes),
    ensures
        bytes.len() <= 5 && by_sevens(bytes) <= u32::MAX ==> parse_var_u32(bytes + rest) == (
            Ok::<u32, crate::error::Error>(by_sevens(bytes) as u32),
            rest,
        ),
        bytes.len() > 5 || by_sevens(bytes) > u32::MAX ==> parse_var_u32(bytes + rest).0 is Err,
{
    lemma_read_by_sevens(bytes, rest, 0);
}

spec fn room(digit: nat) -> nat {
    if digit == 0 {
        0x1_0000_0000
    } else if digit == 1 {
        0x200_0000
    } else if digit == 2 {
        0x4_0000
    } else if digit == 3 {
        0x800
    } else {
        0x10
    }
}

proof fn lemma_read_by_sevens(bytes: Seq<u8>, rest: Seq<u8>, digit: nat)
    requires
        in_a_row(bytes),
        digit <= 5,
    ensures
        digit + bytes.len() <= 5 && by_sevens(bytes) < room(digit) ==> parse_var_digits(
            bytes + rest,
            digit,
        ) == (Ok::<nat, crate::error::Error>(by_sevens(bytes)), rest),
        digit + bytes.len() > 5 || by_sevens(bytes) >= room(digit) ==> parse_var_digits(
            bytes + rest,
            digit,
        ).0 is Err,
    decreases bytes.len(),
{
    let input = bytes + rest;
    let more = bytes.skip(1);
    assert(input[0] == bytes[0]);
    assert(input.skip(1) =~= more + rest);
    if digit < 5 {
        if bytes.len() == 1 {
            assert(more =~= Seq::empty());
            assert(by_sevens(more) == 0);
            assert(input.skip(1) =~= rest);
        } else {
            assert(bytes[0] >= 128);
            assert(more.last() == bytes.last());
            assert forall|i: int| 0 <= i < more.len() - 1 implies #[trigger] more[i] >= 128 by {
                assert(more[i] == bytes[i + 1]);
            }
            lemma_read_by_sevens(more, rest, digit + 1);
        }
    }
}

/// Up to 128 values stand in one block: how many they are, how many bits each takes,
/// and the values one behind the other. No value needs more bits, and one needs as
/// many.
pub proof fn blocks_are_narrow(values: Seq<u32>, index: int)
    requires
        0 < values.len() <= 128,
        0 <= index < values.len(),
    ensures
        ({
            let bytes = packed(values);
            let width = bytes[1] as nat;
            &&& bytes[0] == values.len()
            &&& values[index] < pow2(width)
            &&& width > 0 ==> exists|i: int|
                0 <= i < values.len() && pow2((width - 1) as nat) <= #[trigger] values[i]
            &&& 8 * (bytes.len() - 2) - 7 <= values.len() * width <= 8 * (bytes.len() - 2)
            &&& le_value(bytes.skip(2)) / pow2((index * width) as nat) % pow2(width)
                == values[index]
        }),
{
    broadcast use crate::codec::le_bytes_len;

    let most = packing::largest(values);
    let width = packing::bit_width(most as nat);
    packing::lemma_bit_width(most as nat);
    packing::largest_bounds(values);
    leapfrog::lemma_largest_stands(values);
    let number = packing::packed_number(values, width);
    let len = packing::packed_len(values.len(), width);
    let bytes = packed(values);
    assert(bytes.skip(2) =~= le_bytes(number, len));
    packing::lemma_packed_number_bound(values, width);
    let bits = (values.len() * width) as nat;
    if bits < 8 * len {
        vstd::arithmetic::power2::lemma_pow2_strictly_increases(bits, 8 * len);
    }
    crate::codec::le_round_trip(number, len);
    packing::lemma_packed_digit(values, width, index);
    assert(width <= 32);
    assert(bytes[0] == values.len());
    assert(bytes[1] == width);
    if width > 0 {
        let i = choose|i: int| 0 <= i < values.len() && values[i] == most;
        vstd::arithmetic::power2::lemma2_to64();
        assert(most > 0);
        assert(pow2((width - 1) as nat) <= values[i]);
    }
}

/// More than 128 values stand in several blocks, the first of them full.
pub proof fn blocks_follow_each_other(first: Seq<u32>, more: Seq<u32>)
    requires
        first.len() == 128,
    ensures
        packed(first + more) == packed(first) + packed(more),
        packed(Seq::empty()).len() == 0,
{
    if more.len() == 0 {
        assert(first + more =~= first);
        assert(packed(first) + packed(more) =~= packed(first));
    } else {
        assert((first + more).take(128) =~= first);
        assert((first + more).skip(128) =~= more);
    }
}

/// A posting list stands in blocks of 128 postings, the last one as long as need be.
/// Each says which document it ends with, how often a document holds the term at most
/// and how long the shortest document is; the list says both of all its postings.
pub proof fn blocks_bound_their_postings(
    list: PostingList,
    docs: Seq<StoredDocument>,
    posting: int,
)
    requires
        list.wf(docs),
        list.docids@.len() <= u32::MAX,
        0 <= posting < list.docids@.len(),
    ensures
        ({
            let n = list.docids@.len();
            let k = posting / 128;
            let block = list.blocks@[k];
            let lens = |i: int| docs[list.docids@[i] as int].len;
            &&& 0 <= k < list.blocks@.len()
            &&& list.blocks@.len() * 128 < n + 128
            &&& posting < block.end
            &&& k * 128 + 128 <= n ==> block.end == k * 128 + 128
            &&& k * 128 + 128 > n ==> block.end == n
            &&& block.last_docid == list.docids@[block.end - 1]
            &&& list.freqs@[posting] <= block.max_tf <= list.max_tf
            &&& lens(posting) >= block.min_doc_len >= list.min_doc_len
            &&& exists|i: int|
                k * 128 <= i < block.end && #[trigger] list.freqs@[i] == block.max_tf
            &&& exists|i: int|
                k * 128 <= i < block.end && docs[#[trigger] list.docids@[i] as int].len
                    == block.min_doc_len
            &&& exists|i: int| 0 <= i < n && #[trigger] list.freqs@[i] == list.max_tf
            &&& exists|i: int|
                0 <= i < n && docs[#[trigger] list.docids@[i] as int].len == list.min_doc_len
        }),
{
    let n = list.docids@.len() as int;
    let k = posting / 128;
    let block = list.blocks@[k];
    let (start, end) = (k * 128, segment::block_end(k, n as nat));
    let lens = segment::doc_lens(list.docids@, docs);
    let (freqs, part, few) = (
        list.freqs@,
        list.freqs@.subrange(start, end),
        lens.subrange(start, end),
    );
    assert(block == segment::block_meta(list.docids@, freqs, docs, k));
    packing::largest_bounds(freqs);
    packing::largest_bounds(part);
    segment::smallest_bounds(lens);
    segment::smallest_bounds(few);
    leapfrog::lemma_largest_stands(freqs);
    leapfrog::lemma_largest_stands(part);
    assert(part[posting - start] == freqs[posting]);
    assert(few[posting - start] == lens[posting]);
    let a = choose|i: int| 0 <= i < part.len() && part[i] == packing::largest(part);
    assert(freqs[start + a] == part[a]);
    let b = choose|i: int| 0 <= i < few.len() && few[i] == segment::smallest(few);
    assert(lens[start + b] == few[b]);
    assert(docs[list.docids@[start + b] as int].len == block.min_doc_len);
    let c = choose|i: int| 0 <= i < freqs.len() && freqs[i] == packing::largest(freqs);
    assert(freqs[c] == list.max_tf);
    let d = choose|i: int| 0 <= i < lens.len() && lens[i] == segment::smallest(lens);
    assert(docs[list.docids@[d] as int].len == list.min_doc_len);
}

/// A checkpoint's name begins with `segment-` and ends with the bytes of `.kst`; every
/// name of plain characters that begins and ends so is one.
pub proof fn checkpoints_are_known_by_name(name: &str, middle: Seq<char>, result: bool)
    requires
        call_ensures(is_checkpoint_name, (name,), result),
    ensures
        result ==> name@.len() >= 8 && name@.take(8) == seq![
            's',
            'e',
            'g',
            'm',
            'e',
            'n',
            't',
            '-',
        ],
        result ==> encode_utf8(name@).len() >= 4 && encode_utf8(name@).skip(
            encode_utf8(name@).len() - 4,
        ) == seq![0x2eu8, 0x6bu8, 0x73u8, 0x74u8],
        vstd::utf8::is_ascii_chars(middle) && name@ == seq![
            's',
            'e',
            'g',
            'm',
            'e',
            'n',
            't',
            '-',
        ] + middle + seq!['.', 'k', 's', 't'] ==> result,
{
    reveal_strlit("segment-");
    reveal_strlit(".kst");
    let (head, tail) = (
        seq!['s', 'e', 'g', 'm', 'e', 'n', 't', '-'],
        seq!['.', 'k', 's', 't'],
    );
    assert("segment-"@ =~= head);
    assert(".kst"@ =~= tail);
    assert(vstd::utf8::is_ascii_chars(head));
    assert(vstd::utf8::is_ascii_chars(tail));
    vstd::utf8::is_ascii_chars_encode_utf8(head);
    vstd::utf8::is_ascii_chars_encode_utf8(tail);
    assert(encode_utf8(tail) =~= seq![0x2eu8, 0x6bu8, 0x73u8, 0x74u8]);
    text::beginnings_are_first_characters(name@, head);
    let bytes = encode_utf8(name@);
    if result {
        assert(bytes.skip(bytes.len() - 4) =~= encode_utf8(tail));
        assert(name@.take(8) =~= head);
    }
    if vstd::utf8::is_ascii_chars(middle) && name@ == head + middle + tail {
        vstd::utf8::is_ascii_chars_concat(head + middle, head, middle);
        vstd::utf8::is_ascii_chars_concat(name@, head + middle, tail);
        vstd::utf8::is_ascii_chars_encode_utf8(name@);
        assert(bytes.subrange(bytes.len() - 4, bytes.len() as int) =~= encode_utf8(tail)) by {
            assert forall|i: int| 0 <= i < 4 implies bytes[bytes.len() - 4 + i] == encode_utf8(
                tail,
            )[i] by {
                assert(name@[name@.len() - 4 + i] == tail[i]);
            }
        }
        assert(name@.take(8) =~= head);
    }
}

} // verus!
