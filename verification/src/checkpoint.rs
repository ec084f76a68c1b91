//! Checkpoint files: which they are, what they hold, and which of them counts.
use crate::codec;
use crate::codec::checksum;
use crate::commit;
use crate::commit::decode_commit;
use crate::decoding;
use crate::decoding::decode_snapshot;
use crate::encoding;
use crate::error::{Error, Result};
use crate::operation;
use crate::operation::{apply_operations, Op};
use crate::record;
use crate::record::SnapshotRecord;
use crate::restoring;
use crate::snapshot::Snapshot;
use crate::text;
use crate::text::{has_prefix, has_suffix};
use crate::wal::{frame_header, has_magic};
use vstd::prelude::*;

verus! {

/// `KSTSEG02`
pub const SEGMENT_MAGIC: [u8; 8] = [0x4b, 0x53, 0x54, 0x53, 0x45, 0x47, 0x30, 0x32];

/// `KSTSEG01`, for checkpoints that hold documents without an index.
pub const LEGACY_SEGMENT_MAGIC: [u8; 8] = [0x4b, 0x53, 0x54, 0x53, 0x45, 0x47, 0x30, 0x31];

/// What a checkpoint file holds.
pub enum Contents {
    /// Segments with their index.
    Native(SnapshotRecord),
    /// The writes that lead to the snapshot.
    Legacy { generation: u64, writes: Seq<Op> },
}

impl Contents {
    pub open spec fn generation(self) -> u64 {
        match self {
            Contents::Native(written) => written.generation,
            Contents::Legacy { generation, writes } => generation,
        }
    }
}

/// What the bytes of a checkpoint file say.
pub open spec fn parse_checkpoint(bytes: Seq<u8>) -> Result<Contents> {
    if bytes.len() < 16 || (bytes.take(8) != SEGMENT_MAGIC@ && bytes.take(8)
        != LEGACY_SEGMENT_MAGIC@) {
        Err(Error::Corrupt("invalid checkpoint header"))
    } else if bytes.len() != 16 + codec::le_value(bytes.subrange(8, 12)) {
        Err(Error::Corrupt("invalid checkpoint length"))
    } else if codec::crc32c(bytes.skip(16)) != codec::le_value(bytes.subrange(12, 16)) {
        Err(Error::Corrupt("checkpoint checksum mismatch"))
    } else if bytes.take(8) == LEGACY_SEGMENT_MAGIC@ {
        match commit::parse_commit(bytes.skip(16)) {
            Ok((generation, writes)) => Ok(Contents::Legacy { generation, writes }),
            Err(error) => Err(error),
        }
    } else {
        match record::parse_record(bytes.skip(16)) {
            Ok(written) => Ok(Contents::Native(written)),
            Err(error) => Err(error),
        }
    }
}

/// The snapshot that a checkpoint opens to.
pub open spec fn opens_to(contents: Contents, current: Snapshot) -> bool {
    &&& current.wf()
    &&& current.ordered()
    &&& current.well_fielded()
    &&& match contents {
        Contents::Native(written) => decoding::restored(current, written) && encoding::restorable(
            current,
        ),
        Contents::Legacy { generation, writes } => current.generation == generation
            && current.faithful() && forall|rowid: i64| #[trigger]
            current.content(rowid) == operation::content_after(None, writes, rowid),
    }
}

/// Reads a checkpoint file.
pub fn read_checkpoint(bytes: &[u8]) -> (result: Result<Snapshot>)
    ensures
        match parse_checkpoint(bytes@) {
            Ok(contents) => result matches Ok(current) && opens_to(contents, current),
            Err(error) => result == Err::<Snapshot, Error>(error),
        },
{
    if bytes.len() < 16 {
        return Err(Error::Corrupt("invalid checkpoint header"));
    }
    let legacy: bool = has_magic(bytes, &LEGACY_SEGMENT_MAGIC);
    if !has_magic(bytes, &SEGMENT_MAGIC) && !legacy {
        return Err(Error::Corrupt("invalid checkpoint header"));
    }
    let (len, expected) = frame_header(bytes);
    let (header, payload) = bytes.split_at(16);
    assert(payload@ =~= bytes@.skip(16));
    if payload.len() != len as usize {
        return Err(Error::Corrupt("invalid checkpoint length"));
    }
    if checksum(payload) != expected {
        return Err(Error::Corrupt("checkpoint checksum mismatch"));
    }
    if legacy {
        let (generation, operations) = match decode_commit(payload) {
            Ok(commit) => commit,
            Err(error) => return Err(error),
        };
        let empty = Snapshot::default();
        proof {
            let count = operation::document_count(operation::ops(operations@));
            operation::lemma_document_count(operation::ops(operations@));
            assert(count * u32::MAX <= u64::MAX) by (nonlinear_arith)
                requires
                    count <= u32::MAX,
            ;
            commit::parsed_writes_are_valid(payload@);
        }
        let current = apply_operations(&empty, generation, operations);
        assert forall|rowid: i64| #[trigger]
            current.content(rowid) == operation::content_after(
                None,
                operation::ops(operations@),
                rowid,
            ) by {
            assert(empty.content(rowid) is None);
        }
        Ok(current)
    } else {
        match decode_snapshot(payload) {
            Ok(current) => {
                proof {
                    restoring::restorable_documents_have_fields(current);
                }
                Ok(current)
            },
            Err(error) => Err(error),
        }
    }
}

/// Of the best checkpoint so far and a further file the one to open: the newer
/// one, the earlier one where they are equally new, and never one that cannot be
/// read.
pub fn keep_newer(best: Option<Snapshot>, bytes: &[u8]) -> (kept: Option<Snapshot>)
    ensures
        match parse_checkpoint(bytes@) {
            Ok(contents) => if best matches Some(earlier) && contents.generation()
                <= earlier.generation {
                kept == best
            } else {
                kept matches Some(newer) && opens_to(contents, newer)
            },
            Err(error) => kept == best,
        },
{
    match read_checkpoint(bytes) {
        Ok(candidate) => match best {
            Some(earlier) => if candidate.generation > earlier.generation {
                Some(candidate)
            } else {
                Some(earlier)
            },
            None => Some(candidate),
        },
        Err(_) => best,
    }
}

/// Whether a file of this name is a checkpoint.
pub fn is_checkpoint_name(name: &str) -> (result: bool)
    ensures
        result == (text::starts_with(name@, "segment-"@) && text::ends_with(name@, ".kst"@)),
{
    has_prefix(name, "segment-") && has_suffix(name, ".kst")
}

} // verus!
