//! Checkpoints that were cut, extended or changed are not read.
use crate::checkpoint::{parse_checkpoint, LEGACY_SEGMENT_MAGIC, SEGMENT_MAGIC};
use crate::codec;
use vstd::prelude::*;

verus! {

/// No strict prefix of a readable checkpoint is readable.
pub proof fn cut_checkpoint_is_refused(bytes: Seq<u8>, kept: int)
    requires
        parse_checkpoint(bytes) is Ok,
        0 <= kept < bytes.len(),
    ensures
        parse_checkpoint(bytes.take(kept)) is Err,
{
    let cut = bytes.take(kept);
    if kept >= 16 {
        assert(cut.subrange(8, 12) =~= bytes.subrange(8, 12));
    }
}

/// No strict extension of a readable checkpoint is readable.
pub proof fn extended_checkpoint_is_refused(bytes: Seq<u8>, tail: Seq<u8>)
    requires
        parse_checkpoint(bytes) is Ok,
        tail.len() > 0,
    ensures
        parse_checkpoint(bytes + tail) is Err,
{
    assert((bytes + tail).subrange(8, 12) =~= bytes.subrange(8, 12));
}

/// Numbers of as many bytes that differ in one of them are different.
proof fn lemma_value_differs(a: Seq<u8>, b: Seq<u8>, index: int)
    requires
        a.len() == b.len(),
        0 <= index < a.len(),
        a[index] != b[index],
    ensures
        codec::le_value(a) != codec::le_value(b),
{
    codec::le_bytes_of_value(a);
    codec::le_bytes_of_value(b);
}

/// A readable checkpoint with one bit flipped is not readable.
pub proof fn flipped_bit_is_refused(bytes: Seq<u8>, index: int, bit: u8)
    requires
        parse_checkpoint(bytes) is Ok,
        0 <= index < bytes.len(),
        bit < 8,
    ensures
        parse_checkpoint(bytes.update(index, bytes[index] ^ (1u8 << bit))) is Err,
{
    let (before, after) = (bytes[index], bytes[index] ^ (1u8 << bit));
    let damaged = bytes.update(index, after);
    assert(before != after) by (bit_vector)
        requires
            after == before ^ (1u8 << bit),
            bit < 8,
    ;
    if index < 8 {
        assert(damaged.take(8)[index] != bytes.take(8)[index]);
        assert(after != 0x31u8 || before != 0x32u8) by (bit_vector)
            requires
                after == before ^ (1u8 << bit),
                bit < 8,
        ;
        assert(after != 0x32u8 || before != 0x31u8) by (bit_vector)
            requires
                after == before ^ (1u8 << bit),
                bit < 8,
        ;
        assert(SEGMENT_MAGIC@[7] == 0x32 && LEGACY_SEGMENT_MAGIC@[7] == 0x31);
        if index < 7 {
            assert(damaged.take(8)[7] == bytes.take(8)[7]);
        }
        assert(SEGMENT_MAGIC@[index] == LEGACY_SEGMENT_MAGIC@[index] || index == 7);
    } else if index < 12 {
        lemma_value_differs(damaged.subrange(8, 12), bytes.subrange(8, 12), index - 8);
    } else if index < 16 {
        assert(damaged.skip(16) =~= bytes.skip(16));
        lemma_value_differs(damaged.subrange(12, 16), bytes.subrange(12, 16), index - 12);
        assert(damaged.subrange(8, 12) =~= bytes.subrange(8, 12));
    } else {
        assert(damaged.subrange(12, 16) =~= bytes.subrange(12, 16));
        assert(damaged.subrange(8, 12) =~= bytes.subrange(8, 12));
        codec::one_byte_changes_checksum(damaged.skip(16), bytes.skip(16), index - 16);
    }
}

} // verus!
