//! What a commit does before and after its record is written.
use crate::codec;
use crate::codec::put_u64;
use crate::commit;
use crate::commit::encode_commit;
use crate::error::{invalid_input, Error, Result};
use crate::operation;
use crate::operation::{
    canonicalize_operations, split_operations, validate_operations, Op, Operation,
};
use crate::segment::Segment;
use crate::snapshot;
use crate::snapshot::Snapshot;
use crate::text;
use crate::wal;
use crate::wal::{encode_frame, MAX_WAL_RECORD_BYTES, WAL_MAGIC};
use std::sync::Arc;
use vstd::prelude::*;

verus! {

broadcast use crate::codec::le_bytes_len;

/// Whether the segment holds exactly these documents, in this order.
pub open spec fn holds_docs(segment: &Segment, docs: Seq<(i64, Seq<Seq<char>>)>) -> bool {
    &&& segment.docs@.len() == docs.len()
    &&& forall|d: int|
        0 <= d < docs.len() ==> (#[trigger] segment.docs@[d]).rowid == docs[d].0
            && segment.docs@[d].texts() == docs[d].1
}

/// A commit with everything done that does not depend on the current snapshot.
/// The generation in its record is not settled yet.
pub struct PreparedCommit {
    pub wal_payload: Vec<u8>,
    pub segment: Option<Arc<Segment>>,
    pub deletes: Vec<i64>,
    pub writes: Ghost<Seq<Op>>,
}

impl PreparedCommit {
    /// Record, segment and deletions say what the writes say.
    pub open spec fn wf(self) -> bool {
        let writes = self.writes@;
        let docs = operation::docs_of(writes);
        &&& forall|i: int, j: int|
            0 <= i < j < writes.len() ==> (#[trigger] writes[i]).rowid() < (
            #[trigger] writes[j]).rowid()
        &&& commit::storable_commit(writes)
        &&& self.wal_payload@.len() >= 8
        &&& self.wal_payload@.skip(8) == commit::commit_bytes(0, writes).skip(8)
        &&& self.deletes@ == operation::deletes_of(writes)
        &&& match self.segment {
            Some(segment) => docs.len() > 0 && segment.wf() && segment.faithful() && holds_docs(
                &segment,
                docs,
            ) && ((forall|i: int| 0 <= i < writes.len() ==> (#[trigger] writes[i]).valid())
                ==> segment.ordered()),
            None => docs.len() == 0,
        }
    }
}

/// Prepares a commit: of several writes to a rowid only the last remains.
pub fn prepare_commit(operations: Vec<Operation>) -> (result: Result<PreparedCommit>)
    ensures
        ({
            let writes = operation::canonical_ops(operation::ops(operations@));
            &&& result is Ok <==> commit::storable_commit(writes)
            &&& result matches Ok(prepared) ==> prepared.wf() && prepared.writes@ == writes
                && prepared.wal_payload@ == commit::commit_bytes(0, writes)
            &&& result matches Err(error) ==> if writes.len() > u32::MAX {
                error.is_invalid_input("too many operations in one transaction"@)
            } else {
                error.is_invalid_input("value exceeds 4 GiB storage limit"@)
            }
        }),
{
    let ordered = canonicalize_operations(operations);
    let ghost writes = operation::ops(ordered@);
    let wal_payload = match encode_commit(0, &ordered) {
        Ok(payload) => payload,
        Err(error) => return Err(error),
    };
    let (docs, deletes) = split_operations(ordered);
    let ghost listed = docs@;
    proof {
        operation::lemma_parts(writes);
        operation::lemma_docs_ascend(writes);
        assert(operation::shown(listed).len() == listed.len());
    }
    let segment: Option<Arc<Segment>> = if docs.len() == 0 {
        None
    } else {
        let built = Segment::build(docs);
        proof {
            assert forall|d: int| 0 <= d < listed.len() implies (
            #[trigger] built.docs@[d]).rowid == operation::docs_of(writes)[d].0
                && built.docs@[d].texts() == operation::docs_of(writes)[d].1 by {
                assert(operation::shown(listed)[d] == (
                    listed[d].0,
                    text::texts(listed[d].1@),
                ));
            }
            if forall|i: int| 0 <= i < writes.len() ==> (#[trigger] writes[i]).valid() {
                assert forall|d: int| 0 <= d < listed.len() implies (
                #[trigger] listed[d]).1@.len() <= 64 by {
                    operation::lemma_doc_valid(writes, listed, d);
                }
            }
        }
        Some(Arc::new(built))
    };
    Ok(PreparedCommit { wal_payload, segment, deletes, writes: Ghost(writes) })
}

/// Checks the writes of a transaction and prepares their commit; there is nothing
/// to commit without writes.
pub fn begin_commit(operations: Vec<Operation>) -> (result: Result<Option<PreparedCommit>>)
    ensures
        ({
            let writes = operation::ops(operations@);
            let canonical = operation::canonical_ops(writes);
            let valid = forall|i: int| 0 <= i < writes.len() ==> (#[trigger] writes[i]).valid();
            &&& (result is Ok && result->Ok_0 is None) <==> writes.len() == 0
            &&& result is Ok <==> (writes.len() == 0 || (valid && commit::storable_commit(
                canonical,
            )))
            &&& result matches Ok(Some(prepared)) ==> prepared.wf() && prepared.writes@ == canonical
                && forall|i: int| 0 <= i < canonical.len() ==> (#[trigger] canonical[i]).valid()
            &&& result matches Err(error) ==> if !valid {
                operation::refusal(writes, error)
            } else if canonical.len() > u32::MAX {
                error.is_invalid_input("too many operations in one transaction"@)
            } else {
                error.is_invalid_input("value exceeds 4 GiB storage limit"@)
            }
        }),
{
    if operations.len() == 0 {
        return Ok(None);
    }
    match validate_operations(&operations) {
        Ok(_) => {},
        Err(error) => return Err(error),
    }
    proof {
        operation::canonical_form_exists(operation::ops(operations@));
        operation::canonical_form_is_valid(
            operation::canonical_ops(operation::ops(operations@)),
            operation::ops(operations@),
        );
    }
    match prepare_commit(operations) {
        Ok(prepared) => Ok(Some(prepared)),
        Err(error) => Err(error),
    }
}

/// The generation of the next commit.
pub fn next_generation(current: &Snapshot) -> (result: Result<u64>)
    ensures
        current.generation < u64::MAX ==> result == Ok::<u64, Error>(
            (current.generation + 1) as u64,
        ),
        current.generation == u64::MAX ==> (result matches Err(error) && error.is_invalid_input(
            "generation counter exhausted"@,
        )),
{
    match current.generation.checked_add(1) {
        Some(generation) => Ok(generation),
        None => Err(invalid_input("generation counter exhausted")),
    }
}

/// The record of a commit, or why there is none: what is written to the log can be
/// read from it again.
pub open spec fn sealed(
    generation: u64,
    writes: Seq<Op>,
) -> core::result::Result<Seq<u8>, Seq<char>> {
    let payload = commit::commit_bytes(generation, writes);
    if payload.len() <= MAX_WAL_RECORD_BYTES {
        Ok(wal::frame_bytes(WAL_MAGIC@, payload))
    } else if payload.len() <= u32::MAX {
        Err("transaction exceeds 256 MiB"@)
    } else {
        Err("transaction exceeds 4 GiB"@)
    }
}

impl PreparedCommit {
    /// Settles the generation and gives the record to be written.
    pub fn seal(&mut self, generation: u64) -> (result: Result<Vec<u8>>)
        requires
            old(self).wf(),
        ensures
            final(self).wf(),
            final(self).writes@ == old(self).writes@,
            final(self).segment == old(self).segment,
            final(self).deletes == old(self).deletes,
            final(self).wal_payload@ == commit::commit_bytes(generation, old(self).writes@),
            match sealed(generation, old(self).writes@) {
                Ok(record) => result matches Ok(frame) && frame@ == record,
                Err(message) => result matches Err(error) && error.is_invalid_input(message),
            },
    {
        let ghost writes = self.writes@;
        let mut stamp: Vec<u8> = Vec::new();
        put_u64(&mut stamp, generation);
        let ghost before = self.wal_payload@;
        let mut index: usize = 0;
        while index < 8
            invariant
                index <= 8,
                stamp@.len() == 8,
                before.len() >= 8,
                self.wal_payload@.len() == before.len(),
                forall|i: int| 0 <= i < index ==> self.wal_payload@[i] == stamp@[i],
                forall|i: int| index <= i < before.len() ==> self.wal_payload@[i] == before[i],
                self.writes@ == writes,
                self.segment == old(self).segment,
                self.deletes == old(self).deletes,
            decreases 8 - index,
        {
            self.wal_payload.set(index, stamp[index]);
            index = index + 1;
        }
        proof {
            let zero = commit::commit_bytes(0, writes);
            let settled = commit::commit_bytes(generation, writes);
            assert(self.wal_payload@.skip(8) =~= before.skip(8));
            assert(zero.skip(8) =~= settled.skip(8));
            assert(settled.take(8) =~= codec::u64_bytes(generation));
            assert(settled =~= settled.take(8) + settled.skip(8));
            assert(self.wal_payload@ =~= stamp@ + before.skip(8));
            assert(self.wal_payload@ =~= settled);
        }
        let len: usize = self.wal_payload.len();
        if len > MAX_WAL_RECORD_BYTES && len <= u32::MAX as usize {
            return Err(invalid_input("transaction exceeds 256 MiB"));
        }
        encode_frame(&WAL_MAGIC, self.wal_payload.as_slice())
    }

    /// The snapshot after the commit.
    pub fn publish(self, current: &Snapshot, generation: u64) -> (next: Snapshot)
        requires
            self.wf(),
            current.wf(),
            current.room(operation::docs_of(self.writes@).len()),
        ensures
            next.wf(),
            next.generation == generation,
            forall|rowid: i64| #[trigger]
                next.content(rowid) == operation::content_after(
                    current.content(rowid),
                    self.writes@,
                    rowid,
                ),
            current.ordered() && (forall|i: int|
                0 <= i < self.writes@.len() ==> (#[trigger] self.writes@[i]).valid())
                ==> next.ordered(),
            current.faithful() ==> next.faithful(),
            current.well_fielded() && (forall|i: int|
                0 <= i < self.writes@.len() ==> (#[trigger] self.writes@[i]).valid())
                ==> next.well_fielded(),
    {
        let ghost writes = self.writes@;
        let ghost docs = operation::docs_of(writes);
        let ghost stored = snapshot::optional_docs(self.segment);
        proof {
            operation::lemma_docs_ascend(writes);
            assert forall|i: int, j: int| 0 <= i < j < stored.len() implies (
            #[trigger] stored[i]).rowid != (#[trigger] stored[j]).rowid by {
                assert(docs[i].0 < docs[j].0);
            }
        }
        let next = current.with_prebuilt_commit(generation, self.segment, self.deletes);
        proof {
            assert forall|rowid: i64| #[trigger]
                next.content(rowid) == operation::content_after(
                    current.content(rowid),
                    writes,
                    rowid,
                ) by {
                assert(next.content(rowid) == snapshot::content_after(
                    current.content(rowid),
                    stored,
                    self.deletes@,
                    rowid,
                ));
                operation::lemma_ascending_is_canonical(writes);
                let docs2 = Seq::new(stored.len(), |d: int| (stored[d].rowid, stored[d].fields));
                assert(operation::shown(docs2) =~= docs) by {
                    assert forall|d: int| 0 <= d < docs.len() implies #[trigger] operation::shown(
                        docs2,
                    )[d] == docs[d] by {
                        assert(stored[d].texts() == docs[d].1);
                    }
                }
                operation::lemma_split_content(
                    writes,
                    writes,
                    docs2,
                    self.deletes@,
                    current.content(rowid),
                    rowid,
                );
                if snapshot::has_rowid(stored, rowid) {
                    let d = snapshot::rowid_index(stored, rowid);
                    assert(stored[d].rowid == rowid);
                    assert(docs2[d].0 == rowid);
                    assert(snapshot::writes(docs2, rowid));
                    let e = snapshot::written_index(docs2, rowid);
                    assert(docs2[e].0 == rowid);
                    assert(stored[e].rowid == rowid);
                    assert(e == d);
                } else if snapshot::writes(docs2, rowid) {
                    let e = snapshot::written_index(docs2, rowid);
                    assert(docs2[e].0 == rowid);
                    assert(stored[e].rowid == rowid);
                }
            }
            if current.well_fielded() && (forall|i: int|
                0 <= i < writes.len() ==> (#[trigger] writes[i]).valid()) {
                assert forall|rowid: i64|
                    (#[trigger] next.content(rowid)) matches Some(fields) ==> 1 <= fields.len()
                        <= 64 by {
                    operation::valid_writes_keep_fields(current.content(rowid), writes, rowid);
                }
            }
        }
        next
    }
}

} // verus!
